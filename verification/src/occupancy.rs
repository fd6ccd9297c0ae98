//! Room and zone occupancy: counting presence per named zone and deciding
//! which occupancy switches and target counters in Home Assistant to update.
use crate::text::{contains, contains_chars, decimal, push_decimal, spaces_to_underscores, str_eq};
use vstd::prelude::*;

verus! {

/// The lowercase form of a string as `str::to_lowercase` computes it
/// (Unicode lowercase mapping).
pub uninterp spec fn lowercase(s: Seq<char>) -> Seq<char>;

/// Calls `str::to_lowercase`; its result is named by `lowercase`.
#[verifier::external_body]
fn to_lowercase(s: &str) -> (res: String)
    ensures
        res@ == lowercase(s@),
{
    s.to_lowercase()
}

/// `s` with every space replaced by an underscore.
pub fn replace_spaces(s: &str) -> (res: String)
    ensures
        res@ == spaces_to_underscores(s@),
{
    let n = s.unicode_len();
    let mut out = String::new();
    let mut i: usize = 0;
    while i < n
        invariant
            n == s@.len(),
            i <= n,
            out@ == spaces_to_underscores(s@.take(i as int)),
        decreases n - i,
    {
        let c = s.get_char(i);
        let piece: &str = if c == ' ' {
            "_"
        } else {
            s.substring_char(i, i + 1)
        };
        proof {
            reveal_strlit("_");
            assert(piece@ =~= seq![if c == ' ' { '_' } else { c }]);
        }
        out.append(piece);
        proof {
            assert(spaces_to_underscores(s@.take(i + 1)) =~= spaces_to_underscores(s@.take(i as int)) + seq![if c == ' ' { '_' } else { c }]);
        }
        i += 1;
    }
    proof {
        assert(s@.take(n as int) =~= s@);
    }
    out
}

/// The key a room or zone name is tracked under: lowercase, spaces
/// replaced by underscores.
pub open spec fn zone_key_of(name: Seq<char>) -> Seq<char> {
    spaces_to_underscores(lowercase(name))
}

/// The key a room or zone name is tracked under.
pub fn zone_key(name: &str) -> (res: String)
    ensures
        res@ == zone_key_of(name@),
{
    let lower = to_lowercase(name);
    replace_spaces(lower.as_str())
}

/// The number of presence points found in a zone of a room.
#[derive(Clone, Debug)]
pub struct ZonePresence {
    pub name: String,
    pub count: usize,
}

/// The number of presence points found in a room and in each of its zones.
#[derive(Clone, Debug)]
pub struct RoomPresence {
    pub name: String,
    pub count: usize,
    pub zones: Vec<ZonePresence>,
}

/// Whether a zone is occupied and by how many targets.
#[derive(Clone, Debug)]
pub struct ZoneCount {
    pub name: String,
    pub occupied: bool,
    pub targets: u8,
}

/// One measurement: the key, the count, and whether it is a room's own
/// count (which replaces what is known of the key) or a zone's (which adds
/// to it).
pub type Measurement = (Seq<char>, int, bool);

/// The measurements of one room: its own count, then its zones'.
pub open spec fn room_measurements(r: RoomPresence) -> Seq<Measurement> {
    seq![(zone_key_of(r.name@), r.count as int, true)] + r.zones@.map_values(
        |z: ZonePresence| (zone_key_of(z.name@), z.count as int, false),
    )
}

/// The measurements of all rooms in order.
pub open spec fn measurements(rooms: Seq<RoomPresence>) -> Seq<Measurement>
    decreases rooms.len(),
{
    if rooms.len() == 0 {
        Seq::empty()
    } else {
        measurements(rooms.drop_last()) + room_measurements(rooms.last())
    }
}

/// A tally entry: key, occupied, number of targets.
pub type Tally = (Seq<char>, bool, int);

/// `i` is the first position of `key` in a tally.
pub open spec fn first_key(t: Seq<Tally>, key: Seq<char>, i: int) -> bool {
    &&& 0 <= i < t.len()
    &&& t[i].0 == key
    &&& forall|j: int| 0 <= j < i ==> t[j].0 != key
}

/// The position of `key` in a tally, if present.
pub open spec fn tally_index(t: Seq<Tally>, key: Seq<char>) -> Option<int> {
    if exists|i: int| first_key(t, key, i) {
        Some(choose|i: int| first_key(t, key, i))
    } else {
        None
    }
}

/// The tally after one measurement. A count is taken modulo 256 (it is
/// stored in a byte). A room's count replaces the entry of its key; a
/// zone's count is added to it and marks it occupied when positive. A new
/// key is appended.
pub open spec fn tally_step(t: Seq<Tally>, m: Measurement) -> Seq<Tally> {
    let c = m.1 % 256;
    match tally_index(t, m.0) {
        Some(i) => if m.2 {
            t.update(i, (m.0, m.1 > 0, c))
        } else {
            t.update(i, (m.0, t[i].1 || m.1 > 0, t[i].2 + c))
        },
        None => t.push((m.0, m.1 > 0, c)),
    }
}

/// The tally of a sequence of measurements.
pub open spec fn tally(ms: Seq<Measurement>) -> Seq<Tally>
    decreases ms.len(),
{
    if ms.len() == 0 {
        Seq::empty()
    } else {
        tally_step(tally(ms.drop_last()), ms.last())
    }
}

/// No target count in the tally ever exceeds what a byte holds.
pub open spec fn tally_fits(ms: Seq<Measurement>) -> bool {
    forall|k: int, i: int|
        0 <= k <= ms.len() && 0 <= i < tally(ms.take(k)).len() ==> #[trigger] tally(ms.take(k))[i].2
            <= 255
}

/// The tally entry that a zone count stands for.
pub open spec fn count_view(z: ZoneCount) -> Tally {
    (z.name@, z.occupied, z.targets as int)
}

/// The tally of a list of zone counts.
pub open spec fn tally_of(v: Seq<ZoneCount>) -> Seq<Tally> {
    v.map_values(|z: ZoneCount| count_view(z))
}

/// No key occurs twice in a tally.
pub open spec fn keys_unique(t: Seq<Tally>) -> bool {
    forall|i: int, j: int| 0 <= i < j < t.len() ==> #[trigger] t[i].0 != #[trigger] t[j].0
}

/// A key held somewhere in a tally has a first position.
proof fn lemma_first_key_exists(t: Seq<Tally>, key: Seq<char>, j: int)
    requires
        0 <= j < t.len(),
        t[j].0 == key,
    ensures
        exists|i: int| first_key(t, key, i),
    decreases j,
{
    if forall|k: int| 0 <= k < j ==> t[k].0 != key {
        assert(first_key(t, key, j));
    } else {
        let k = choose|k: int| 0 <= k < j && t[k].0 == key;
        lemma_first_key_exists(t, key, k);
    }
}

/// Each zone key occurs once in the aggregated occupancy, however many
/// rooms and zones share it.
pub proof fn lemma_tally_keys_unique(ms: Seq<Measurement>)
    ensures
        keys_unique(tally(ms)),
    decreases ms.len(),
{
    if ms.len() > 0 {
        let t = tally(ms.drop_last());
        let m = ms.last();
        lemma_tally_keys_unique(ms.drop_last());
        if tally_index(t, m.0) is None {
            assert forall|i: int| 0 <= i < t.len() implies t[i].0 != m.0 by {
                if t[i].0 == m.0 {
                    lemma_first_key_exists(t, m.0, i);
                }
            }
            let r = t.push((m.0, m.1 > 0, m.1 % 256));
            assert forall|i: int, j: int| 0 <= i < j < r.len() implies #[trigger] r[i].0
                != #[trigger] r[j].0 by {
                if j == t.len() {
                    assert(r[i].0 == t[i].0);
                } else {
                    assert(r[i] == t[i] && r[j] == t[j]);
                }
            }
        } else {
            let k = tally_index(t, m.0)->0;
            assert(first_key(t, m.0, k));
            let r = tally_step(t, m);
            assert forall|i: int, j: int| 0 <= i < j < r.len() implies #[trigger] r[i].0
                != #[trigger] r[j].0 by {
                assert(r[i].0 == t[i].0);
                assert(r[j].0 == t[j].0);
            }
        }
    }
}

/// A zone's count adds to the count of its key and never clears the key's
/// occupied flag: the key is occupied afterwards exactly when it was before
/// or the zone's count is positive. A room's count replaces both. Other
/// keys are untouched, and a new key starts from the measurement.
pub proof fn lemma_tally_step_effect(t: Seq<Tally>, key: Seq<char>, count: int, replaces: bool, i: int)
    requires
        count >= 0,
        0 <= i < t.len(),
        t[i].0 == key,
        forall|j: int| 0 <= j < i ==> t[j].0 != key,
    ensures
        tally_step(t, (key, count, replaces)).len() == t.len(),
        !replaces ==> (tally_step(t, (key, count, replaces))[i].1 <==> (t[i].1 || count > 0)),
        !replaces ==> tally_step(t, (key, count, replaces))[i].2 == t[i].2 + count % 256,
        replaces ==> (tally_step(t, (key, count, replaces))[i].1 <==> count > 0),
        replaces ==> tally_step(t, (key, count, replaces))[i].2 == count % 256,
        forall|j: int| 0 <= j < t.len() && j != i ==> #[trigger] tally_step(t, (key, count, replaces))[j] == t[j],
{
    assert(first_key(t, key, i));
    let k = choose|k: int| first_key(t, key, k);
    assert(k == i) by {
        if k < i {
        } else if k > i {
            assert(t[i].0 == key);
        }
    }
}

/// A measurement of a key not yet tallied appends it, occupied exactly when
/// its count is positive.
pub proof fn lemma_tally_step_new(t: Seq<Tally>, key: Seq<char>, count: int, replaces: bool)
    requires
        count >= 0,
        forall|j: int| 0 <= j < t.len() ==> t[j].0 != key,
    ensures
        tally_step(t, (key, count, replaces)) == t.push((key, count > 0, count % 256)),
{
    assert forall|k: int| !first_key(t, key, k) by {}
}

/// Adds one measurement to the tally `res`.
fn record_measurement(res: &mut Vec<ZoneCount>, key: String, count: usize, replaces: bool)
    requires
        step_fits(tally_of(old(res)@), (key@, count as int, replaces)),
    ensures
        tally_of(final(res)@) == tally_step(tally_of(old(res)@), (key@, count as int, replaces)),
{
    let ghost t = tally_of(res@);
    let ghost m: Measurement = (key@, count as int, replaces);
    let c = (count % 256) as u8;
    let mut i: usize = 0;
    while i < res.len()
        invariant
            res@ == old(res)@,
            t == tally_of(res@),
            m == (key@, count as int, replaces),
            c == count % 256,
            forall|j: int|
                0 <= j < tally_step(t, m).len() ==> #[trigger] tally_step(t, m)[j].2 <= 255,
            i <= res@.len(),
            forall|j: int| 0 <= j < i ==> res@[j].name@ != key@,
        decreases res@.len() - i,
    {
        if str_eq(res[i].name.as_str(), key.as_str()) {
            proof {
                assert(first_key(t, key@, i as int));
                let k = choose|k: int| first_key(t, key@, k);
                assert(k == i) by {
                    if k < i {
                    } else if k > i {
                        assert(t[i as int].0 == key@);
                    }
                }
                assert(tally_index(t, key@) == Some(i as int));
                assert(tally_step(t, m)[i as int] == tally_step(t, m)[i as int]);
                assert(t[i as int].2 == res@[i as int].targets as int);
                assert(tally_step(t, m).len() == t.len());
                if !replaces {
                    assert(tally_step(t, m)[i as int].2 == t[i as int].2 + count % 256);
                    assert(tally_step(t, m)[i as int].2 <= 255);
                }
            }
            if replaces {
                res[i].occupied = count > 0;
                res[i].targets = c;
            } else {
                let occupied = res[i].occupied || count > 0;
                let targets = res[i].targets + c;
                res[i].occupied = occupied;
                res[i].targets = targets;
            }
            proof {
                assert(tally_of(res@) =~= tally_step(t, m));
            }
            return;
        }
        i += 1;
    }
    proof {
        assert forall|k: int| !first_key(t, key@, k) by {
            if 0 <= k < t.len() {
                assert(t[k].0 == res@[k].name@);
            }
        }
    }
    res.push(ZoneCount { name: key, occupied: count > 0, targets: c });
    proof {
        assert(tally_of(res@) =~= tally_step(t, m));
    }
}

/// A prefix of the measurements of one more room is the prefix before it
/// followed by that room's measurements.
proof fn lemma_measurements_prefix(rooms: Seq<RoomPresence>, r: int)
    requires
        0 < r <= rooms.len(),
    ensures
        measurements(rooms.take(r)) == measurements(rooms.take(r - 1)) + room_measurements(
            rooms[r - 1],
        ),
{
    assert(rooms.take(r).drop_last() =~= rooms.take(r - 1));
}

/// The tally of a sequence of measurements extended by one.
proof fn lemma_tally_push(ms: Seq<Measurement>, m: Measurement)
    ensures
        tally(ms.push(m)) == tally_step(tally(ms), m),
{
    assert(ms.push(m).drop_last() =~= ms);
}


/// The tallies of the first `n` measurements all fit in a byte.
pub open spec fn fits_upto(ms: Seq<Measurement>, n: int) -> bool {
    forall|k: int, i: int|
        0 <= k <= n && 0 <= i < tally(ms.take(k)).len() ==> #[trigger] tally(ms.take(k))[i].2 <= 255
}

/// The counts after one more measurement fit in a byte.
pub open spec fn step_fits(t: Seq<Tally>, m: Measurement) -> bool {
    forall|i: int| 0 <= i < tally_step(t, m).len() ==> #[trigger] tally_step(t, m)[i].2 <= 255
}

/// Whether recording the measurement `(key, count, replaces)` keeps every
/// target count of `res` within a byte.
fn measurement_fits(res: &Vec<ZoneCount>, key: &str, count: usize, replaces: bool) -> (ok: bool)
    ensures
        ok == step_fits(tally_of(res@), (key@, count as int, replaces)),
{
    let ghost t = tally_of(res@);
    let ghost m: Measurement = (key@, count as int, replaces);
    let mut i: usize = 0;
    while i < res.len()
        invariant
            t == tally_of(res@),
            m == (key@, count as int, replaces),
            i <= res@.len(),
            forall|j: int| 0 <= j < i ==> res@[j].name@ != key@,
        decreases res@.len() - i,
    {
        if str_eq(res[i].name.as_str(), key) {
            proof {
                assert(first_key(t, key@, i as int));
                let k = choose|k: int| first_key(t, key@, k);
                assert(k == i) by {
                    if k < i {
                    } else if k > i {
                        assert(t[i as int].0 == key@);
                    }
                }
                assert(tally_index(t, key@) == Some(i as int));
                assert(t[i as int].2 == res@[i as int].targets as int);
                assert forall|j: int| 0 <= j < tally_step(t, m).len() && j != i implies #[trigger] tally_step(t, m)[j].2 <= 255 by {
                    assert(t[j].2 == res@[j].targets as int);
                }
                assert(tally_step(t, m)[i as int] == tally_step(t, m)[i as int]);
            }
            if replaces {
                return true;
            }
            let ok = (res[i].targets as usize) + count % 256 <= 255;
            proof {
                assert(tally_step(t, m)[i as int].2 == t[i as int].2 + count % 256);
                if !ok {
                    assert(!(tally_step(t, m)[i as int].2 <= 255));
                }
            }
            return ok;
        }
        i += 1;
    }
    proof {
        assert forall|k: int| !first_key(t, key@, k) by {
            if 0 <= k < t.len() {
                assert(t[k].0 == res@[k].name@);
            }
        }
        assert forall|j: int| 0 <= j < tally_step(t, m).len() implies #[trigger] tally_step(t, m)[j].2 <= 255 by {
            if j < t.len() {
                assert(t[j].2 == res@[j].targets as int);
            }
        }
    }
    true
}

/// When the tallies fit up to `k` and the next step fits, they fit up to
/// `k + 1`.
proof fn lemma_fits_extend(all: Seq<Measurement>, k: int)
    requires
        0 <= k < all.len(),
        fits_upto(all, k),
        step_fits(tally(all.take(k)), all[k]),
    ensures
        fits_upto(all, k + 1),
{
    assert(all.take(k + 1) =~= all.take(k).push(all[k]));
    lemma_tally_push(all.take(k), all[k]);
    assert forall|k1: int, i: int|
        0 <= k1 <= k + 1 && 0 <= i < tally(all.take(k1)).len() implies #[trigger] tally(
        all.take(k1),
    )[i].2 <= 255 by {
        if k1 == k + 1 {
            assert(tally(all.take(k1)) == tally_step(tally(all.take(k)), all[k]));
        }
    }
}

/// When the step after `k` measurements does not fit, the tallies do not
/// fit.
proof fn lemma_fits_fail(all: Seq<Measurement>, k: int)
    requires
        0 <= k < all.len(),
        !step_fits(tally(all.take(k)), all[k]),
    ensures
        !tally_fits(all),
{
    assert(all.take(k + 1) =~= all.take(k).push(all[k]));
    lemma_tally_push(all.take(k), all[k]);
    let i = choose|i: int|
        0 <= i < tally_step(tally(all.take(k)), all[k]).len() && !(#[trigger] tally_step(
            tally(all.take(k)),
            all[k],
        )[i].2 <= 255);
    assert(tally(all.take(k + 1))[i].2 > 255);
}

/// Tallies the presence counts of all rooms and their zones by zone key,
/// in order of first appearance, when every count fits in a byte (`None`
/// otherwise). A room's own count replaces what is known of its key; a
/// zone's count is added to the count of its key.
pub fn try_aggregate_occupancy(rooms: &[RoomPresence]) -> (res: Option<Vec<ZoneCount>>)
    ensures
        res is Some <==> tally_fits(measurements(rooms@)),
        res matches Some(v) ==> tally_of(v@) == tally(measurements(rooms@)),
{
    let ghost all = measurements(rooms@);
    let mut res: Vec<ZoneCount> = Vec::new();
    let ghost mut done: Seq<Measurement> = Seq::empty();
    proof {
        assert(rooms@.take(0) =~= Seq::<RoomPresence>::empty());
        assert(tally_of(res@) =~= tally(done));
        assert(all.take(0) =~= done);
        assert forall|k: int, i: int| 0 <= k <= 0 && 0 <= i < tally(all.take(k)).len() implies #[trigger] tally(all.take(k))[i].2 <= 255 by {
            assert(all.take(k) =~= Seq::<Measurement>::empty());
        }
    }
    let mut r: usize = 0;
    while r < rooms.len()
        invariant
            r <= rooms@.len(),
            all == measurements(rooms@),
            done == measurements(rooms@.take(r as int)),
            all.take(done.len() as int) == done,
            all.len() >= done.len(),
            fits_upto(all, done.len() as int),
            tally_of(res@) == tally(done),
        decreases rooms@.len() - r,
    {
        let room = &rooms[r];
        let ghost rm = room_measurements(rooms@[r as int]);
        proof {
            lemma_measurements_prefix(rooms@, r as int + 1);
            assert(rooms@.take(r as int + 1) =~= rooms@.take(r as int).push(rooms@[r as int]));
            assert(measurements(rooms@.take(r as int + 1)) == done + rm);
            assert(rooms@ =~= rooms@.take(r as int + 1) + rooms@.skip(r as int + 1));
            lemma_measurements_append(rooms@.take(r as int + 1), rooms@.skip(r as int + 1));
            assert(all.take((done.len() + rm.len()) as int) =~= done + rm);
            assert(all.len() >= done.len() + rm.len());
        }
        let key = zone_key(room.name.as_str());
        proof {
            let k = done.len() as int;
            assert(all[k] == rm[0]);
            assert(all.take(k) == done);
        }
        if !measurement_fits(&res, key.as_str(), room.count, true) {
            proof {
                lemma_fits_fail(all, done.len() as int);
            }
            return None;
        }
        proof {
            lemma_fits_extend(all, done.len() as int);
        }
        record_measurement(&mut res, key, room.count, true);
        proof {
            lemma_tally_push(done, rm[0]);
            done = done.push(rm[0]);
            assert(all.take(done.len() as int) =~= done);
        }
        let mut z: usize = 0;
        while z < room.zones.len()
            invariant
                r < rooms@.len(),
                room == rooms@[r as int],
                rm == room_measurements(rooms@[r as int]),
                z <= room.zones@.len(),
                all == measurements(rooms@),
                done == measurements(rooms@.take(r as int)) + rm.take(z as int + 1),
                all.take(done.len() as int) == done,
                all.take((measurements(rooms@.take(r as int)).len() + rm.len()) as int) == measurements(
                    rooms@.take(r as int),
                ) + rm,
                fits_upto(all, done.len() as int),
                tally_of(res@) == tally(done),
                all.len() >= measurements(rooms@.take(r as int)).len() + rm.len(),
            decreases room.zones@.len() - z,
        {
            let zone = &room.zones[z];
            let key = zone_key(zone.name.as_str());
            proof {
                let base = measurements(rooms@.take(r as int));
                assert(rm.len() == 1 + room.zones@.len());
                assert(done.len() == base.len() + z + 1);
                let k = done.len() as int;
                assert(rm[z as int + 1] == (zone_key_of(zone.name@), zone.count as int, false));
                assert(all.take((base.len() + rm.len()) as int)[k] == rm[z as int + 1]);
                assert(all[k] == rm[z as int + 1]);
            }
            if !measurement_fits(&res, key.as_str(), zone.count, false) {
                proof {
                    lemma_fits_fail(all, done.len() as int);
                }
                return None;
            }
            proof {
                lemma_fits_extend(all, done.len() as int);
            }
            record_measurement(&mut res, key, zone.count, false);
            proof {
                let base = measurements(rooms@.take(r as int));
                lemma_tally_push(done, rm[z as int + 1]);
                assert(done.push(rm[z as int + 1]) =~= base + rm.take(z as int + 2));
                done = done.push(rm[z as int + 1]);
                let k = done.len() as int;
                assert(all.take((base.len() + rm.len()) as int).take(k) =~= all.take(k));
                assert(all.take(k) =~= done);
            }
            z += 1;
        }
        proof {
            assert(rm.take(rm.len() as int) =~= rm);
        }
        r += 1;
    }
    proof {
        assert(rooms@.take(rooms@.len() as int) =~= rooms@);
    }
    Some(res)
}

/// Tallies the presence counts of all rooms and their zones by zone key,
/// in order of first appearance. A room's own count replaces what is known
/// of its key; a zone's count is added to the count of its key.
pub fn aggregate_occupancy(rooms: &[RoomPresence]) -> (res: Vec<ZoneCount>)
    requires
        tally_fits(measurements(rooms@)),
    ensures
        tally_of(res@) == tally(measurements(rooms@)),
{
    match try_aggregate_occupancy(rooms) {
        Some(v) => v,
        None => {
            proof {
                assert(false);
            }
            Vec::new()
        },
    }
}

/// The measurements of joined room lists are joined.
proof fn lemma_measurements_append(a: Seq<RoomPresence>, b: Seq<RoomPresence>)
    ensures
        measurements(a + b) == measurements(a) + measurements(b),
    decreases b.len(),
{
    if b.len() > 0 {
        assert((a + b).drop_last() =~= a + b.drop_last());
        lemma_measurements_append(a, b.drop_last());
        assert(measurements(a + b) =~= measurements(a) + measurements(b));
    } else {
        assert(a + b =~= a);
        assert(measurements(a + b) =~= measurements(a) + measurements(b));
    }
}

/// Which coordinate of a presence target a sensor reports.
#[derive(Clone, Copy, Debug, PartialEq, Eq, Structural)]
pub enum Axis {
    X,
    Y,
}

/// The text that marks a sensor of target `i`'s coordinate `axis`:
/// `_target_<i>_x` or `_target_<i>_y`.
pub open spec fn target_pattern(i: nat, axis: Axis) -> Seq<char> {
    seq!['_', 't', 'a', 'r', 'g', 'e', 't', '_'] + decimal(i) + seq![
        '_',
        match axis {
            Axis::X => 'x',
            Axis::Y => 'y',
        },
    ]
}

/// The coordinate of target `i` that the sensor `id` reports, if any; an
/// id that would name both is read as the `x` coordinate.
pub open spec fn target_coordinate_of(id: Seq<char>, i: nat) -> Option<Axis> {
    if contains(id, target_pattern(i, Axis::X)) {
        Some(Axis::X)
    } else if contains(id, target_pattern(i, Axis::Y)) {
        Some(Axis::Y)
    } else {
        None
    }
}

/// The text `_target_<i>_x` or `_target_<i>_y`.
fn target_pattern_chars(i: u64, axis: Axis) -> (res: Vec<char>)
    ensures
        res@ == target_pattern(i as nat, axis),
{
    let mut s = String::from_str("_target_");
    push_decimal(&mut s, i);
    s.append(match axis {
        Axis::X => "_x",
        Axis::Y => "_y",
    });
    proof {
        reveal_strlit("_target_");
        reveal_strlit("_x");
        reveal_strlit("_y");
    }
    let n = s.as_str().unicode_len();
    let mut out: Vec<char> = Vec::new();
    let mut k: usize = 0;
    while k < n
        invariant
            n == s@.len(),
            k <= n,
            out@ == s@.take(k as int),
        decreases n - k,
    {
        out.push(s.as_str().get_char(k));
        proof {
            assert(out@ =~= s@.take(k as int + 1));
        }
        k += 1;
    }
    proof {
        assert(s@.take(n as int) =~= s@);
        assert(s@ =~= target_pattern(i as nat, axis));
    }
    out
}

/// Which coordinate of presence target `i` the sensor `id` reports.
pub fn target_coordinate(id: &str, i: u64) -> (res: Option<Axis>)
    ensures
        res == target_coordinate_of(id@, i as nat),
{
    let x = target_pattern_chars(i, Axis::X);
    if contains_chars(id, x.as_slice()) {
        return Some(Axis::X);
    }
    let y = target_pattern_chars(i, Axis::Y);
    if contains_chars(id, y.as_slice()) {
        Some(Axis::Y)
    } else {
        None
    }
}

/// The key under which a sensor keeps its `i`-th calibration pair.
pub open spec fn calibration_key_of(i: nat) -> Seq<char> {
    seq!['c', 'a', 'l', 'i', 'b', '_'] + decimal(i)
}

/// The key `calib_<i>` of the `i`-th calibration pair.
pub fn calibration_key(i: u64) -> (res: String)
    ensures
        res@ == calibration_key_of(i as nat),
{
    let mut s = String::from_str("calib_");
    push_decimal(&mut s, i);
    proof {
        reveal_strlit("calib_");
        assert(s@ =~= calibration_key_of(i as nat));
    }
    s
}

/// How long, in nanoseconds, presence calibration collects target points.
pub const CALIBRATION_NS: u64 = 30_000_000_000;

/// What to do with this round's raw presence targets during calibration.
#[derive(Clone, Copy, Debug, PartialEq, Eq, Structural)]
pub enum CalibrationAction {
    /// No calibration is running.
    Idle,
    /// Add this round's raw targets to the calibration points.
    Collect,
    /// The calibration time is over: report the average of the collected
    /// points and switch the calibration request off.
    Finish,
}

/// Calibration started at `started` has run for longer than its time at
/// `now`.
pub open spec fn calibration_over(started: u64, now: u64) -> bool {
    (if now >= started {
        now - started
    } else {
        0
    }) > CALIBRATION_NS
}

/// One round of presence calibration at `now`. `started` is when the
/// running calibration began, if one runs; `requested` is whether the
/// calibration switch is on. A request starts a calibration; withdrawing
/// it stops one. A running calibration collects targets until its time is
/// over, and then finishes.
pub fn calibration_step(started: Option<u64>, requested: bool, now: u64) -> (res: (
    Option<u64>,
    CalibrationAction,
))
    ensures
        ({
            let running = match started {
                None => if requested {
                    Some(now)
                } else {
                    None
                },
                Some(t) => if requested {
                    Some(t)
                } else {
                    None
                },
            };
            match running {
                None => res == (None::<u64>, CalibrationAction::Idle),
                Some(t) => if calibration_over(t, now) {
                    res == (None::<u64>, CalibrationAction::Finish)
                } else {
                    res == (Some(t), CalibrationAction::Collect)
                },
            }
        }),
{
    let running = match started {
        None => if requested {
            Some(now)
        } else {
            None
        },
        Some(t) => if requested {
            Some(t)
        } else {
            None
        },
    };
    match running {
        None => (None, CalibrationAction::Idle),
        Some(t) => if now.saturating_sub(t) > CALIBRATION_NS {
            (None, CalibrationAction::Finish)
        } else {
            (Some(t), CalibrationAction::Collect)
        },
    }
}

/// How long, in nanoseconds, a zone must have been empty before it is
/// reported unoccupied.
pub const OCCUPANCY_HOLD_NS: u64 = 30_000_000_000;

/// What was last reported for a zone, and when it was last seen occupied
/// (`None`: not within the hold time when first seen).
#[derive(Clone, Debug)]
pub struct ZoneRecord {
    pub name: String,
    pub occupied: bool,
    pub targets: u8,
    pub occupied_at: Option<u64>,
}

/// A change to report to Home Assistant for a zone.
#[derive(Clone, Debug)]
pub enum OccupancyAction {
    /// Switch the zone's occupancy flag on or off.
    SetOccupied { zone: String, occupied: bool },
    /// Set the zone's target counter.
    SetTargets { zone: String, targets: u8 },
}

/// A zone record as plain values: name, occupied, targets, last occupied.
pub type RecordView = (Seq<char>, bool, u8, Option<u64>);

/// An action as plain values: whether it sets occupancy (rather than the
/// target count), the zone, and the new occupancy or count.
pub type ActionView = (bool, Seq<char>, bool, u8);

pub open spec fn record_view(r: ZoneRecord) -> RecordView {
    (r.name@, r.occupied, r.targets, r.occupied_at)
}

pub open spec fn records_view(v: Seq<ZoneRecord>) -> Seq<RecordView> {
    v.map_values(|r: ZoneRecord| record_view(r))
}

pub open spec fn action_view(a: OccupancyAction) -> ActionView {
    match a {
        OccupancyAction::SetOccupied { zone, occupied } => (true, zone@, occupied, 0u8),
        OccupancyAction::SetTargets { zone, targets } => (false, zone@, false, targets),
    }
}

pub open spec fn actions_view(v: Seq<OccupancyAction>) -> Seq<ActionView> {
    v.map_values(|a: OccupancyAction| action_view(a))
}

/// The zone has been empty for longer than the hold time at `now`.
pub open spec fn held_long_enough(occupied_at: Option<u64>, now: u64) -> bool {
    match occupied_at {
        Some(t) => (if now >= t {
            now - t
        } else {
            0
        }) > OCCUPANCY_HOLD_NS,
        None => true,
    }
}

/// The record and actions after observing zone `z` (name, occupied,
/// targets) at `now`, given its previous record if any. A new zone starts
/// from its observation. Occupancy is refreshed while occupied; a change of
/// occupancy is reported at once when the zone becomes occupied and only
/// after the hold time when it becomes empty; a change of target count is
/// reported at once.
pub open spec fn zone_step(prev: Option<RecordView>, z: (Seq<char>, bool, u8), now: u64) -> (
    RecordView,
    Seq<ActionView>,
) {
    let (name, occupied, targets) = z;
    let base = match prev {
        Some(r) => r,
        None => (name, occupied, targets, if occupied {
            Some(now)
        } else {
            None
        }),
    };
    let at = if occupied {
        Some(now)
    } else {
        base.3
    };
    let flip = base.1 != occupied && (occupied || held_long_enough(at, now));
    let new_occupied = if flip {
        occupied
    } else {
        base.1
    };
    let occ_actions = if flip {
        seq![(true, name, occupied, 0u8)]
    } else {
        Seq::empty()
    };
    let target_actions = if base.2 != targets {
        seq![(false, name, false, targets)]
    } else {
        Seq::empty()
    };
    ((base.0, new_occupied, targets, at), occ_actions + target_actions)
}

/// Observing a zone again at the same time, just as it was observed,
/// changes its record no further and reports nothing.
pub proof fn lemma_zone_step_settles(prev: Option<RecordView>, z: (Seq<char>, bool, u8), now: u64)
    ensures
        zone_step(Some(zone_step(prev, z, now).0), z, now) == (zone_step(prev, z, now).0, Seq::<
            ActionView,
        >::empty()),
{
    let r = zone_step(prev, z, now).0;
    let again = zone_step(Some(r), z, now);
    assert(again.1 =~= Seq::<ActionView>::empty());
}

/// A zone that becomes occupied is reported occupied at once; a zone that
/// becomes empty is reported empty exactly when it has been empty for
/// longer than the hold time; a zone whose occupancy and count match what
/// was reported gets no report.
pub proof fn lemma_zone_step_reports(r: RecordView, z: (Seq<char>, bool, u8), now: u64)
    ensures
        !r.1 && z.1 ==> zone_step(Some(r), z, now).1[0] == (true, z.0, true, 0u8)
            && zone_step(Some(r), z, now).0.1,
        r.1 && !z.1 ==> (zone_step(Some(r), z, now).0.1 == !held_long_enough(r.3, now)),
        r.1 && !z.1 && held_long_enough(r.3, now) ==> zone_step(Some(r), z, now).1[0] == (
            true,
            z.0,
            false,
            0u8,
        ),
        r.1 == z.1 && r.2 == z.2 ==> zone_step(Some(r), z, now).1 == Seq::<ActionView>::empty(),
{
    let acts = zone_step(Some(r), z, now).1;
    if r.1 == z.1 && r.2 == z.2 {
        assert(acts =~= Seq::<ActionView>::empty());
    }
}

/// A zone observed occupied is recorded as last seen occupied at the time
/// of the observation; a zone observed empty keeps its last-seen time.
pub proof fn lemma_zone_last_seen(prev: Option<RecordView>, z: (Seq<char>, bool, u8), now: u64)
    ensures
        z.1 ==> zone_step(prev, z, now).0.3 == Some(now),
        !z.1 && prev is Some ==> zone_step(prev, z, now).0.3 == prev.unwrap().3,
{
}

/// A zone seen occupied at `t1` and empty at `t2`, no more than the hold
/// time (`OCCUPANCY_HOLD_NS`, 30 s) later, is still reported occupied:
/// after both observations its record is occupied and the second reports no
/// change of occupancy.
pub proof fn lemma_hold_after_last_seen(
    prev: Option<RecordView>,
    name: Seq<char>,
    targets1: u8,
    targets2: u8,
    t1: u64,
    t2: u64,
)
    requires
        t1 <= t2,
        t2 - t1 <= 30_000_000_000,
    ensures
        ({
            let r1 = zone_step(prev, (name, true, targets1), t1).0;
            let (r2, acts) = zone_step(Some(r1), (name, false, targets2), t2);
            &&& r1.1
            &&& r2.1
            &&& forall|i: int| 0 <= i < acts.len() ==> !(#[trigger] acts[i]).0
        }),
{
    let r1 = zone_step(prev, (name, true, targets1), t1).0;
    let (r2, acts) = zone_step(Some(r1), (name, false, targets2), t2);
    assert(r1.3 == Some(t1));
    assert(!held_long_enough(r1.3, t2));
}

/// A zone that stays empty for longer than the hold time after it was
/// last seen occupied is reported empty then.
pub proof fn lemma_empty_after_hold(r: RecordView, name: Seq<char>, targets: u8, t1: u64, t2: u64)
    requires
        r.1,
        r.3 == Some(t1),
        t1 <= t2,
        t2 - t1 > 30_000_000_000,
    ensures
        !zone_step(Some(r), (name, false, targets), t2).0.1,
        zone_step(Some(r), (name, false, targets), t2).1[0] == (true, name, false, 0u8),
{
}

/// `i` is the first record for zone `name`.
pub open spec fn first_record(recs: Seq<RecordView>, name: Seq<char>, i: int) -> bool {
    &&& 0 <= i < recs.len()
    &&& recs[i].0 == name
    &&& forall|j: int| 0 <= j < i ==> recs[j].0 != name
}

/// The records and the actions, in order, after observing the zones one
/// after another at `now`.
pub open spec fn observe_zones(recs: Seq<RecordView>, zones: Seq<(Seq<char>, bool, u8)>, now: u64) -> (
    Seq<RecordView>,
    Seq<ActionView>,
)
    decreases zones.len(),
{
    if zones.len() == 0 {
        (recs, Seq::empty())
    } else {
        let (r1, a1) = observe_zones(recs, zones.drop_last(), now);
        let z = zones.last();
        if exists|i: int| first_record(r1, z.0, i) {
            let i = choose|i: int| first_record(r1, z.0, i);
            let (nr, acts) = zone_step(Some(r1[i]), z, now);
            (r1.update(i, nr), a1 + acts)
        } else {
            let (nr, acts) = zone_step(None, z, now);
            (r1.push(nr), a1 + acts)
        }
    }
}

pub open spec fn zone_counts_view(v: Seq<ZoneCount>) -> Seq<(Seq<char>, bool, u8)> {
    v.map_values(|z: ZoneCount| (z.name@, z.occupied, z.targets))
}

/// Updates the zone records with the current zone counts observed at `now`
/// (nanoseconds on a monotonic clock) and returns the changes to report.
pub fn update_occupancy(records: &mut Vec<ZoneRecord>, zones: &[ZoneCount], now: u64) -> (res: Vec<
    OccupancyAction,
>)
    ensures
        (records_view(final(records)@), actions_view(res@)) == observe_zones(
            records_view(old(records)@),
            zone_counts_view(zones@),
            now,
        ),
{
    let mut actions: Vec<OccupancyAction> = Vec::new();
    let mut k: usize = 0;
    proof {
        assert(zone_counts_view(zones@).take(0) =~= Seq::<(Seq<char>, bool, u8)>::empty());
        assert(actions_view(actions@) =~= Seq::<ActionView>::empty());
    }
    while k < zones.len()
        invariant
            k <= zones@.len(),
            (records_view(records@), actions_view(actions@)) == observe_zones(
                records_view(old(records)@),
                zone_counts_view(zones@).take(k as int),
                now,
            ),
        decreases zones@.len() - k,
    {
        let z = &zones[k];
        let ghost zv = (z.name@, z.occupied, z.targets);
        let ghost r1 = records_view(records@);
        let ghost a1 = actions_view(actions@);
        proof {
            let zs = zone_counts_view(zones@).take(k as int + 1);
            assert(zs.drop_last() =~= zone_counts_view(zones@).take(k as int));
            assert(zs.last() == zv);
        }
        let found = find_record(records, z.name.as_str());
        if let Some(i) = found {
            proof {
                assert(first_record(r1, zv.0, i as int));
                let c = choose|c: int| first_record(r1, zv.0, c);
                assert(c == i) by {
                    if c < i {
                    } else if c > i {
                        assert(r1[i as int].0 == zv.0);
                    }
                }
            }
            let prev_occupied = records[i].occupied;
            let prev_targets = records[i].targets;
            let at = if z.occupied {
                Some(now)
            } else {
                records[i].occupied_at
            };
            let flip = prev_occupied != z.occupied && (z.occupied || held_long(at, now));
            if flip {
                records[i].occupied = z.occupied;
                actions.push(OccupancyAction::SetOccupied { zone: z.name.clone(), occupied: z.occupied });
            }
            if prev_targets != z.targets {
                actions.push(OccupancyAction::SetTargets { zone: z.name.clone(), targets: z.targets });
            }
            records[i].targets = z.targets;
            records[i].occupied_at = at;
            proof {
                let (nr, acts) = zone_step(Some(r1[i as int]), zv, now);
                assert(records_view(records@) =~= r1.update(i as int, nr));
                assert(actions_view(actions@) =~= a1 + acts);
            }
        } else {
            let at = if z.occupied {
                Some(now)
            } else {
                None
            };
            records.push(
                ZoneRecord {
                    name: z.name.clone(),
                    occupied: z.occupied,
                    targets: z.targets,
                    occupied_at: at,
                },
            );
            proof {
                let (nr, acts) = zone_step(None, zv, now);
                assert(records_view(records@) =~= r1.push(nr));
                assert(actions_view(actions@) =~= a1 + acts);
            }
        }
        k += 1;
    }
    proof {
        assert(zone_counts_view(zones@).take(zones@.len() as int) =~= zone_counts_view(zones@));
    }
    actions
}

/// The position of the first record for zone `name`, if any.
fn find_record(records: &Vec<ZoneRecord>, name: &str) -> (res: Option<usize>)
    ensures
        match res {
            Some(i) => first_record(records_view(records@), name@, i as int),
            None => forall|c: int| !first_record(records_view(records@), name@, c),
        },
{
    let mut i: usize = 0;
    while i < records.len()
        invariant
            i <= records@.len(),
            forall|j: int| 0 <= j < i ==> records@[j].name@ != name@,
        decreases records@.len() - i,
    {
        if crate::text::str_eq(records[i].name.as_str(), name) {
            return Some(i);
        }
        i += 1;
    }
    proof {
        assert forall|c: int| !first_record(records_view(records@), name@, c) by {
            if 0 <= c < records@.len() {
                assert(records_view(records@)[c].0 == records@[c].name@);
            }
        }
    }
    None
}

/// Whether a zone last occupied at `occupied_at` has been empty for longer
/// than the hold time at `now`.
fn held_long(occupied_at: Option<u64>, now: u64) -> (res: bool)
    ensures
        res == held_long_enough(occupied_at, now),
{
    match occupied_at {
        Some(t) => now.saturating_sub(t) > OCCUPANCY_HOLD_NS,
        None => true,
    }
}

impl OccupancyAction {
    /// The Home Assistant domain of the helper entity the action updates.
    pub fn domain(&self) -> (res: &'static str)
        ensures
            self is SetOccupied ==> res@ == "input_boolean"@,
            self is SetTargets ==> res@ == "input_number"@,
    {
        match self {
            OccupancyAction::SetOccupied { .. } => "input_boolean",
            OccupancyAction::SetTargets { .. } => "input_number",
        }
    }

    /// The Home Assistant service the action calls.
    pub fn service(&self) -> (res: &'static str)
        ensures
            self matches OccupancyAction::SetOccupied { occupied, .. } ==> res@ == (if *occupied {
                "turn_on"@
            } else {
                "turn_off"@
            }),
            self is SetTargets ==> res@ == "set_value"@,
    {
        match self {
            OccupancyAction::SetOccupied { occupied, .. } => if *occupied {
                "turn_on"
            } else {
                "turn_off"
            },
            OccupancyAction::SetTargets { .. } => "set_value",
        }
    }

    /// The helper entity the action updates: `input_boolean.<zone>_occupancy`
    /// or `input_number.<zone>_targets`.
    pub fn entity_id(&self) -> (res: String)
        ensures
            self matches OccupancyAction::SetOccupied { zone, .. } ==> res@ == "input_boolean."@
                + zone@ + "_occupancy"@,
            self matches OccupancyAction::SetTargets { zone, .. } ==> res@ == "input_number."@
                + zone@ + "_targets"@,
    {
        match self {
            OccupancyAction::SetOccupied { zone, .. } => {
                let mut s = String::from_str("input_boolean.");
                s.append(zone.as_str());
                s.append("_occupancy");
                s
            },
            OccupancyAction::SetTargets { zone, .. } => {
                let mut s = String::from_str("input_number.");
                s.append(zone.as_str());
                s.append("_targets");
                s
            },
        }
    }
}

} // verus!
