use home_flow::text::{contains_chars, ends_with_chars, find_chars, push_decimal, str_eq, trim_end_chars};

#[test]
fn string_equality() {
    assert!(str_eq("abc", "abc"));
    assert!(!str_eq("abc", "abd"));
    assert!(!str_eq("ab", "abc"));
    assert!(str_eq("", ""));
}

#[test]
fn suffixes() {
    let grout = ['-', 'g', 'r', 'o', 'u', 't'];
    assert!(ends_with_chars("tile-grout", &grout));
    assert!(!ends_with_chars("grout", &grout));
    assert_eq!(trim_end_chars("tile-grout-grout", &grout), "tile");
    assert_eq!(trim_end_chars("tile", &grout), "tile");
}

#[test]
fn searching() {
    assert_eq!(find_chars("a_target_b_target_", &['_', 't']), Some(1));
    assert_eq!(find_chars("abc", &['x']), None);
    assert_eq!(find_chars("abc", &[]), Some(0));
    assert!(contains_chars("héllo wörld", &['ö', 'r']));
    assert!(!contains_chars("héllo", &['l', 'l', 'o', '!']));
}

#[test]
fn decimal_numbers() {
    let mut s = String::from("n=");
    push_decimal(&mut s, 0);
    assert_eq!(s, "n=0");
    let mut t = String::new();
    push_decimal(&mut t, 1_234_567_890);
    assert_eq!(t, "1234567890");
    let mut u = String::new();
    push_decimal(&mut u, u64::MAX);
    assert_eq!(u, u64::MAX.to_string());
}
