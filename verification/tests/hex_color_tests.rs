use home_flow::color::Color;
use home_flow::hex_color::{hex_to_rgba, tint_color, HexColorError};

#[test]
fn six_digits_are_opaque() {
    assert_eq!(hex_to_rgba("#ff8800"), Ok([255, 136, 0, 255]));
}

#[test]
fn eight_digits_carry_alpha() {
    assert_eq!(hex_to_rgba("#11223344"), Ok([0x11, 0x22, 0x33, 0x44]));
}

#[test]
fn hash_is_optional_and_repeatable() {
    assert_eq!(hex_to_rgba("aBcDeF"), Ok([0xab, 0xcd, 0xef, 255]));
    assert_eq!(hex_to_rgba("##000001"), Ok([0, 0, 1, 255]));
}

#[test]
fn wrong_lengths_are_rejected() {
    assert_eq!(hex_to_rgba("#fff"), Err(HexColorError::InvalidLength));
    assert_eq!(hex_to_rgba(""), Err(HexColorError::InvalidLength));
    assert_eq!(hex_to_rgba("#1234567"), Err(HexColorError::InvalidLength));
}

#[test]
fn bad_digits_are_rejected() {
    assert_eq!(hex_to_rgba("#gg0000"), Err(HexColorError::InvalidComponent));
    assert_eq!(hex_to_rgba("#0000zz"), Err(HexColorError::InvalidComponent));
    assert_eq!(hex_to_rgba("#000000-1"), Err(HexColorError::InvalidComponent));
    assert_eq!(hex_to_rgba("#0000001z"), Err(HexColorError::InvalidComponent));
}

#[test]
fn plus_sign_reads_one_digit() {
    assert_eq!(hex_to_rgba("+f+e+d"), Ok([15, 14, 13, 255]));
    assert_eq!(hex_to_rgba("-f0000"), Err(HexColorError::InvalidComponent));
}

#[test]
fn two_byte_character_component_is_rejected() {
    assert_eq!(hex_to_rgba("é0000"), Err(HexColorError::InvalidComponent));
}

#[test]
fn written_colours_read_back() {
    for c in [[0u8, 0, 0, 0], [255, 255, 255, 255], [0x12, 0xab, 0x7f, 0x80], [1, 16, 160, 254]] {
        let long = format!("#{:02x}{:02x}{:02x}{:02x}", c[0], c[1], c[2], c[3]);
        assert_eq!(hex_to_rgba(&long), Ok(c));
        let short = format!("#{:02x}{:02x}{:02x}", c[0], c[1], c[2]);
        assert_eq!(hex_to_rgba(&short), Ok([c[0], c[1], c[2], 255]));
    }
}

#[test]
fn tints_fall_back_to_white() {
    assert_eq!(tint_color("#10203040"), Color::from_rgba_premultiplied(16, 32, 48, 64));
    assert_eq!(tint_color("#102030"), Color::from_rgb(16, 32, 48));
    assert_eq!(tint_color("oops"), Color::white());
    assert_eq!(tint_color("#zz0000"), Color::white());
}
