//! Controlling lights from the layout: what a click asks a light for, and
//! how a new brightness for a group of lights is applied locally and queued
//! for Home Assistant, one pending request per light.
use crate::text::str_eq;
use vstd::prelude::*;

verus! {

/// The brightness a click asks for: full when the light is below 130,
/// off otherwise.
pub fn toggle_target(state: u8) -> (res: u8)
    ensures
        res == (if state < 130 {
            255u8
        } else {
            0u8
        }),
{
    if state < 130 {
        255
    } else {
        0
    }
}

/// A light as the layout shows it: its Home Assistant object id, its
/// brightness and when it was last changed here (milliseconds; 0 for
/// never).
#[derive(Debug)]
pub struct LightState {
    pub entity_id: String,
    pub state: u8,
    pub last_manual: u64,
}

/// A request for Home Assistant waiting to be sent: entity, domain,
/// service, and the brightness percentage to set, if any.
#[derive(Debug)]
pub struct LightPost {
    pub entity_id: String,
    pub domain: String,
    pub action: String,
    pub brightness_pct: Option<u8>,
}

/// A queued request as plain values: entity, domain, service, brightness
/// percentage.
pub type PostView = (Seq<char>, Seq<char>, Seq<char>, Option<u8>);

/// The queue as plain values.
pub open spec fn posts_view(q: Seq<LightPost>) -> Seq<PostView> {
    q.map_values(|p: LightPost| (p.entity_id@, p.domain@, p.action@, p.brightness_pct))
}

/// The entity id of the light with object id `group_id`: `light.<id>`.
pub open spec fn light_entity(group_id: Seq<char>) -> Seq<char> {
    seq!['l', 'i', 'g', 'h', 't', '.'] + group_id
}

/// The brightness percentage of a byte brightness.
pub open spec fn percent_of(state: u8) -> u8 {
    (state * 100 / 255) as u8
}

/// The request that sets the light `group_id` to `state`. A binary light is
/// switched on above 150 and off otherwise; a dimmable light is switched on
/// with its brightness percentage when above 0, and off otherwise.
pub open spec fn light_post(group_id: Seq<char>, state: u8, binary: bool) -> PostView {
    let on = if binary {
        state > 150
    } else {
        state > 0
    };
    (
        light_entity(group_id),
        seq!['l', 'i', 'g', 'h', 't'],
        if on {
            seq!['t', 'u', 'r', 'n', '_', 'o', 'n']
        } else {
            seq!['t', 'u', 'r', 'n', '_', 'o', 'f', 'f']
        },
        if !binary && on {
            Some(percent_of(state))
        } else {
            None
        },
    )
}

/// The queued request is not about light `group_id`.
pub open spec fn not_for(group_id: Seq<char>) -> spec_fn(PostView) -> bool {
    |p: PostView| p.0 != light_entity(group_id)
}

/// Some light of the list belongs to the group `group_id`.
pub open spec fn group_present(lights: Seq<LightState>, group_id: Seq<char>) -> bool {
    exists|i: int| 0 <= i < lights.len() && #[trigger] lights[i].entity_id@ == group_id
}

/// The request that sets the light `group_id` to `state`.
fn make_light_post(group_id: &str, state: u8, binary: bool) -> (res: LightPost)
    ensures
        (res.entity_id@, res.domain@, res.action@, res.brightness_pct) == light_post(group_id@, state, binary),
{
    let mut entity_id = String::from_str("light.");
    entity_id.append(group_id);
    let on = if binary {
        state > 150
    } else {
        state > 0
    };
    let action = if on {
        String::from_str("turn_on")
    } else {
        String::from_str("turn_off")
    };
    let brightness_pct = if !binary && on {
        Some(((state as u32) * 100 / 255) as u8)
    } else {
        None
    };
    proof {
        reveal_strlit("light.");
        reveal_strlit("light");
        reveal_strlit("turn_on");
        reveal_strlit("turn_off");
        assert(entity_id@ =~= light_entity(group_id@));
    }
    LightPost { entity_id, domain: String::from_str("light"), action, brightness_pct }
}

/// Sets every light of the group `group_id` to `new_state`, marking it
/// changed here at `now`. When the group has a light, every request queued
/// for it is dropped and one request for the new state is queued last;
/// otherwise the queue is left alone.
pub fn set_light_group(
    lights: &mut Vec<LightState>,
    queue: &mut Vec<LightPost>,
    group_id: &str,
    new_state: u8,
    binary: bool,
    now: u64,
)
    ensures
        final(lights)@.len() == old(lights)@.len(),
        forall|i: int|
            0 <= i < old(lights)@.len() ==> #[trigger] final(lights)@[i] == (if old(lights)@[i].entity_id@
                == group_id@ {
                LightState { state: new_state, last_manual: now, ..old(lights)@[i] }
            } else {
                old(lights)@[i]
            }),
        group_present(old(lights)@, group_id@) ==> posts_view(final(queue)@) == posts_view(
            old(queue)@,
        ).filter(not_for(group_id@)).push(light_post(group_id@, new_state, binary)),
        !group_present(old(lights)@, group_id@) ==> final(queue)@ == old(queue)@,
{
    let ghost before = lights@;
    let mut found = false;
    let mut i: usize = 0;
    while i < lights.len()
        invariant
            lights@.len() == before.len(),
            i <= before.len(),
            forall|j: int|
                0 <= j < before.len() ==> #[trigger] lights@[j] == (if j < i && before[j].entity_id@
                    == group_id@ {
                    LightState { state: new_state, last_manual: now, ..before[j] }
                } else {
                    before[j]
                }),
            found == exists|j: int| 0 <= j < i && #[trigger] before[j].entity_id@ == group_id@,
        decreases before.len() - i,
    {
        if str_eq(lights[i].entity_id.as_str(), group_id) {
            lights[i].state = new_state;
            lights[i].last_manual = now;
            found = true;
        }
        proof {
            assert(lights@[i as int] == lights@[i as int]);
        }
        i += 1;
    }
    proof {
        if found {
            let j = choose|j: int| 0 <= j < i && #[trigger] before[j].entity_id@ == group_id@;
            assert(group_present(before, group_id@));
        } else {
            assert forall|j: int| 0 <= j < before.len() implies !(#[trigger] before[j].entity_id@
                == group_id@) by {}
        }
    }
    if !found {
        return;
    }
    let post = make_light_post(group_id, new_state, binary);
    let ghost pred = not_for(group_id@);
    let mut kept: Vec<LightPost> = Vec::new();
    let ghost all = queue@;
    proof {
        assert(posts_view(all).take(0) =~= Seq::<PostView>::empty());
        reveal(Seq::filter);
        assert(posts_view(kept@) =~= posts_view(all).take(0).filter(pred));
    }
    let ghost mut k: int = 0;
    while queue.len() > 0
        invariant
            0 <= k <= all.len(),
            queue@ == all.skip(k),
            posts_view(kept@) == posts_view(all).take(k).filter(pred),
            pred == not_for(group_id@),
            post.entity_id@ == light_entity(group_id@),
        decreases queue@.len(),
    {
        let p = queue.remove(0);
        let ghost pv = (p.entity_id@, p.domain@, p.action@, p.brightness_pct);
        proof {
            assert(p == all[k]);
            assert(posts_view(all).take(k + 1) =~= posts_view(all).take(k).push(pv));
            Seq::lemma_filter_push(posts_view(all).take(k), pv, pred);
        }
        if !str_eq(p.entity_id.as_str(), post.entity_id.as_str()) {
            let ghost kv = kept@;
            kept.push(p);
            proof {
                assert(posts_view(kept@) =~= posts_view(kv).push(pv));
            }
        }
        proof {
            assert(queue@ =~= all.skip(k + 1));
            k = k + 1;
        }
    }
    proof {
        assert(k == all.len());
        assert(posts_view(all).take(k) =~= posts_view(all));
    }
    let ghost kv = kept@;
    kept.push(post);
    proof {
        assert(posts_view(kept@) =~= posts_view(kv).push(light_post(group_id@, new_state, binary)));
    }
    *queue = kept;
}

/// After a group is set, exactly one queued request is about its light: the
/// last one, for the new state.
pub proof fn lemma_one_request_per_light(q: Seq<PostView>, group_id: Seq<char>, state: u8, binary: bool)
    ensures
        ({
            let r = q.filter(not_for(group_id)).push(light_post(group_id, state, binary));
            forall|i: int| 0 <= i < r.len() ==> (#[trigger] r[i].0 == light_entity(group_id) <==> i
                == r.len() - 1)
        }),
{
    let f = q.filter(not_for(group_id));
    q.filter_lemma(not_for(group_id));
    let r = f.push(light_post(group_id, state, binary));
    assert forall|i: int| 0 <= i < r.len() implies (#[trigger] r[i].0 == light_entity(group_id) <==> i
        == r.len() - 1) by {
        if i < f.len() {
            assert(r[i] == f[i]);
            assert(not_for(group_id)(f[i]));
        }
    }
}

} // verus!
