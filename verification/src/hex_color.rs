//! Parsing of `#RRGGBB` / `#RRGGBBAA` colour codes.
use crate::color::{channels, rgba_seq, Color};
use vstd::prelude::*;
use vstd::string::StringSliceAdditionalSpecFns;
use vstd::utf8::is_continuation_byte;

verus! {

/// Why a colour code was rejected.
#[derive(Clone, Copy, Debug, PartialEq, Eq, Structural)]
pub enum HexColorError {
    /// After the leading `#` characters, the code is not 6 or 8 bytes long.
    InvalidLength,
    /// One of the two-character components is not a hexadecimal number.
    InvalidComponent,
}

/// The value of an ASCII hexadecimal digit (either case).
pub open spec fn hex_digit(b: u8) -> Option<u8> {
    if 0x30 <= b <= 0x39 {
        Some((b - 0x30) as u8)
    } else if 0x61 <= b <= 0x66 {
        Some((b - 0x61 + 10) as u8)
    } else if 0x41 <= b <= 0x46 {
        Some((b - 0x41 + 10) as u8)
    } else {
        None
    }
}

/// A two-byte component read as a base-16 `u8` the way `u8::from_str_radix`
/// reads it: two hexadecimal digits, or a `+` sign followed by one digit.
pub open spec fn parse_pair(b0: u8, b1: u8) -> Option<u8> {
    if b0 == 0x2B {
        hex_digit(b1)
    } else {
        match (hex_digit(b0), hex_digit(b1)) {
            (Some(h), Some(l)) => Some((h * 16 + l) as u8),
            _ => None,
        }
    }
}

/// The bytes after any leading `#` characters.
pub open spec fn strip_hashes(b: Seq<u8>) -> Seq<u8>
    decreases b.len(),
{
    if b.len() > 0 && b[0] == 0x23 {
        strip_hashes(b.drop_first())
    } else {
        b
    }
}

/// The component starting at byte `i`.
pub open spec fn pair_at(t: Seq<u8>, i: int) -> Option<u8> {
    parse_pair(t[i], t[i + 1])
}

/// Byte position `i` does not fall inside a multi-byte character.
pub open spec fn char_boundary_at(t: Seq<u8>, i: int) -> bool {
    i >= t.len() || !is_continuation_byte(t[i])
}

/// Every component that gets read starts and ends on a character boundary.
/// Components are read in order and reading stops at the first bad one.
pub open spec fn components_sliceable(t: Seq<u8>) -> bool {
    (t.len() == 6 || t.len() == 8) ==> {
        &&& char_boundary_at(t, 2)
        &&& pair_at(t, 0) is Some ==> char_boundary_at(t, 4)
        &&& pair_at(t, 0) is Some && pair_at(t, 2) is Some ==> char_boundary_at(t, 6)
    }
}

/// The colour `[r, g, b, a]` that the code bytes `t` (without leading `#`)
/// denote; alpha is 255 when only three components are given.
pub open spec fn hex_color(t: Seq<u8>) -> Result<Seq<u8>, HexColorError> {
    if t.len() != 6 && t.len() != 8 {
        Err(HexColorError::InvalidLength)
    } else if pair_at(t, 0) is None || pair_at(t, 2) is None || pair_at(t, 4) is None || (
    t.len() == 8 && pair_at(t, 6) is None) {
        Err(HexColorError::InvalidComponent)
    } else {
        Ok(
            seq![
                pair_at(t, 0)->0,
                pair_at(t, 2)->0,
                pair_at(t, 4)->0,
                if t.len() == 8 {
                    pair_at(t, 6)->0
                } else {
                    255u8
                },
            ],
        )
    }
}

/// The lowercase hexadecimal digit for a value below 16.
pub open spec fn hex_char(d: int) -> u8 {
    if d < 10 {
        (0x30 + d) as u8
    } else {
        (0x61 + d - 10) as u8
    }
}

/// A byte written as two lowercase hexadecimal digits.
pub open spec fn hex_pair(v: u8) -> Seq<u8> {
    seq![hex_char((v / 16) as int), hex_char((v % 16) as int)]
}

/// A colour written as `#rrggbbaa`.
pub open spec fn hex_code(c: Seq<u8>) -> Seq<u8> {
    seq![0x23u8] + hex_pair(c[0]) + hex_pair(c[1]) + hex_pair(c[2]) + hex_pair(c[3])
}

/// A colour written as `#rrggbb`, leaving out alpha.
pub open spec fn hex_code_opaque(c: Seq<u8>) -> Seq<u8> {
    seq![0x23u8] + hex_pair(c[0]) + hex_pair(c[1]) + hex_pair(c[2])
}

/// Two digits written for a byte read back as that byte.
proof fn lemma_pair_round_trip(v: u8)
    ensures
        parse_pair(hex_pair(v)[0], hex_pair(v)[1]) == Some(v),
{
    let h = v / 16;
    let l = v % 16;
    assert(hex_digit(hex_char(h as int)) == Some(h));
    assert(hex_digit(hex_char(l as int)) == Some(l));
    assert(h * 16 + l == v);
}

/// A colour written as `#rrggbbaa` reads back as itself, and written as
/// `#rrggbb` reads back with alpha 255.
pub proof fn lemma_hex_round_trip(c: Seq<u8>)
    requires
        c.len() == 4,
    ensures
        hex_color(strip_hashes(hex_code(c))) == Ok::<Seq<u8>, HexColorError>(c),
        hex_color(strip_hashes(hex_code_opaque(c))) == Ok::<Seq<u8>, HexColorError>(
            c.update(3, 255u8),
        ),
{
    let t = hex_code(c).drop_first();
    let u = hex_code_opaque(c).drop_first();
    assert(t =~= hex_pair(c[0]) + hex_pair(c[1]) + hex_pair(c[2]) + hex_pair(c[3]));
    assert(u =~= hex_pair(c[0]) + hex_pair(c[1]) + hex_pair(c[2]));
    assert(strip_hashes(t) == t);
    assert(strip_hashes(u) == u);
    lemma_pair_round_trip(c[0]);
    lemma_pair_round_trip(c[1]);
    lemma_pair_round_trip(c[2]);
    lemma_pair_round_trip(c[3]);
    assert(pair_at(t, 0) == Some(c[0]));
    assert(pair_at(t, 2) == Some(c[1]));
    assert(pair_at(t, 4) == Some(c[2]));
    assert(pair_at(t, 6) == Some(c[3]));
    assert(pair_at(u, 0) == Some(c[0]));
    assert(pair_at(u, 2) == Some(c[1]));
    assert(pair_at(u, 4) == Some(c[2]));
    assert(hex_color(t)->Ok_0 =~= c);
    assert(hex_color(u)->Ok_0 =~= c.update(3, 255u8));
}

/// Every hexadecimal digit reads as its value, whichever case a letter is
/// written in: `0`-`9` as 0 to 9, `a`-`f` and `A`-`F` alike as 10 to 15;
/// no other byte is a digit.
pub proof fn lemma_hex_digits(d: u8, b: u8)
    ensures
        d < 10 ==> hex_digit((0x30 + d) as u8) == Some(d),
        d < 6 ==> hex_digit((0x61 + d) as u8) == Some((10 + d) as u8),
        d < 6 ==> hex_digit((0x41 + d) as u8) == Some((10 + d) as u8),
        hex_digit(b) is Some <==> (0x30 <= b <= 0x39 || 0x61 <= b <= 0x66 || 0x41 <= b <= 0x46),
        hex_digit(b) matches Some(v) ==> v < 16,
{
}

/// The uppercase hexadecimal digit for a value below 16.
pub open spec fn hex_char_upper(d: int) -> u8 {
    if d < 10 {
        (0x30 + d) as u8
    } else {
        (0x41 + d - 10) as u8
    }
}

/// A colour written as `#RRGGBBAA` in uppercase digits.
pub open spec fn hex_code_upper(c: Seq<u8>) -> Seq<u8> {
    seq![0x23u8] + seq![hex_char_upper((c[0] / 16) as int), hex_char_upper((c[0] % 16) as int)]
        + seq![hex_char_upper((c[1] / 16) as int), hex_char_upper((c[1] % 16) as int)]
        + seq![hex_char_upper((c[2] / 16) as int), hex_char_upper((c[2] % 16) as int)]
        + seq![hex_char_upper((c[3] / 16) as int), hex_char_upper((c[3] % 16) as int)]
}

/// Two uppercase digits written for a byte read back as that byte.
proof fn lemma_upper_pair(v: u8)
    ensures
        parse_pair(hex_char_upper((v / 16) as int), hex_char_upper((v % 16) as int)) == Some(v),
{
    let h = v / 16;
    let l = v % 16;
    assert(hex_digit(hex_char_upper(h as int)) == Some(h));
    assert(hex_digit(hex_char_upper(l as int)) == Some(l));
    assert(h * 16 + l == v);
}

/// A colour written as `#RRGGBBAA` in uppercase digits reads back as
/// itself.
pub proof fn lemma_hex_round_trip_upper(c: Seq<u8>)
    requires
        c.len() == 4,
    ensures
        hex_color(strip_hashes(hex_code_upper(c))) == Ok::<Seq<u8>, HexColorError>(c),
{
    let t = hex_code_upper(c).drop_first();
    assert(strip_hashes(t) == t);
    lemma_upper_pair(c[0]);
    lemma_upper_pair(c[1]);
    lemma_upper_pair(c[2]);
    lemma_upper_pair(c[3]);
    assert(pair_at(t, 0) == Some(c[0]));
    assert(pair_at(t, 2) == Some(c[1]));
    assert(pair_at(t, 4) == Some(c[2]));
    assert(pair_at(t, 6) == Some(c[3]));
    assert(hex_color(t)->Ok_0 =~= c);
}

fn hex_digit_exec(b: u8) -> (res: Option<u8>)
    ensures
        res == hex_digit(b),
{
    if 0x30 <= b && b <= 0x39 {
        Some(b - 0x30)
    } else if 0x61 <= b && b <= 0x66 {
        Some(b - 0x61 + 10)
    } else if 0x41 <= b && b <= 0x46 {
        Some(b - 0x41 + 10)
    } else {
        None
    }
}

fn parse_pair_exec(b0: u8, b1: u8) -> (res: Option<u8>)
    ensures
        res == parse_pair(b0, b1),
{
    if b0 == 0x2B {
        hex_digit_exec(b1)
    } else {
        match (hex_digit_exec(b0), hex_digit_exec(b1)) {
            (Some(h), Some(l)) => Some(h * 16 + l),
            _ => None,
        }
    }
}

/// Parses a colour code such as `#ff8800` or `#ff880080` into `[r, g, b, a]`.
/// Any number of leading `#` is ignored; without an alpha component the
/// colour is opaque.
pub fn hex_to_rgba(hex: &str) -> (res: Result<[u8; 4], HexColorError>)
    requires
        components_sliceable(strip_hashes(hex.spec_bytes())),
    ensures
        match res {
            Ok(c) => hex_color(strip_hashes(hex.spec_bytes())) == Ok::<Seq<u8>, HexColorError>(c@),
            Err(e) => hex_color(strip_hashes(hex.spec_bytes())) == Err::<Seq<u8>, HexColorError>(e),
        },
{
    let bytes = hex.as_bytes();
    let ghost all = bytes@;
    let mut k: usize = 0;
    proof {
        assert(all.skip(0) =~= all);
    }
    while k < bytes.len() && bytes[k] == 0x23
        invariant
            bytes@ == all,
            k <= all.len(),
            strip_hashes(all) == strip_hashes(all.skip(k as int)),
        decreases all.len() - k,
    {
        proof {
            assert(all.skip(k as int).drop_first() =~= all.skip(k as int + 1));
        }
        k += 1;
    }
    let ghost t = all.skip(k as int);
    proof {
        assert(strip_hashes(t) == t);
    }
    let len = bytes.len() - k;
    if len != 6 && len != 8 {
        return Err(HexColorError::InvalidLength);
    }
    let r = match parse_pair_exec(bytes[k], bytes[k + 1]) {
        Some(v) => v,
        None => return Err(HexColorError::InvalidComponent),
    };
    let g = match parse_pair_exec(bytes[k + 2], bytes[k + 3]) {
        Some(v) => v,
        None => return Err(HexColorError::InvalidComponent),
    };
    let b = match parse_pair_exec(bytes[k + 4], bytes[k + 5]) {
        Some(v) => v,
        None => return Err(HexColorError::InvalidComponent),
    };
    let a = if len == 8 {
        match parse_pair_exec(bytes[k + 6], bytes[k + 7]) {
            Some(v) => v,
            None => return Err(HexColorError::InvalidComponent),
        }
    } else {
        255
    };
    let res = [r, g, b, a];
    proof {
        assert(res@ =~= hex_color(t)->Ok_0);
    }
    Ok(res)
}

/// The colour a tint code stands for, premultiplied as written: the parsed
/// code, or opaque white when the code is invalid.
pub fn tint_color(hex: &str) -> (c: Color)
    requires
        components_sliceable(strip_hashes(hex.spec_bytes())),
    ensures
        channels(c) == match hex_color(strip_hashes(hex.spec_bytes())) {
            Ok(rgba) => rgba,
            Err(_) => rgba_seq(255, 255, 255, 255),
        },
{
    let rgba = match hex_to_rgba(hex) {
        Ok(v) => v,
        Err(_) => [255, 255, 255, 255],
    };
    let c = Color::from_rgba_premultiplied(rgba[0], rgba[1], rgba[2], rgba[3]);
    proof {
        assert(channels(c) =~= rgba@);
    }
    c
}

} // verus!
