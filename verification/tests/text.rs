use maisimai::text::{
    chars_of, is_whitespace, parse_u32_chars, push_decimal, push_str, string_of_chars, trim_fraction_zeros,
};

#[test]
fn whitespace_matches_std() {
    for c in (0u32..=0x10FFFF).filter_map(char::from_u32) {
        assert_eq!(is_whitespace(c), c.is_whitespace(), "{:?}", c);
    }
}

#[test]
fn decimal_text() {
    for n in [0u64, 7, 10, 42, 1000, u32::MAX as u64, u64::MAX] {
        let mut s = String::from("x");
        push_decimal(&mut s, n);
        assert_eq!(s, format!("x{n}"));
    }
}

#[test]
fn parse_u32_agrees_with_std() {
    for s in ["0", "12", "+12", "0012", "4294967295", "4294967296", "99999999999", "", "+", "-0", "1_0", " 1"] {
        let cs: Vec<char> = s.chars().collect();
        assert_eq!(parse_u32_chars(&cs, 0), s.parse::<u32>().ok(), "{s:?}");
    }
    let cs: Vec<char> = "lv_12".chars().collect();
    assert_eq!(parse_u32_chars(&cs, 3), Some(12));
    assert_eq!(parse_u32_chars(&cs, 5), None);
}

#[test]
fn string_helpers() {
    assert_eq!(chars_of("añb"), vec!['a', 'ñ', 'b']);
    let cs = vec!['x', 'y', 'z'];
    assert_eq!(string_of_chars(&cs, 1, 3), "yz");
    assert_eq!(string_of_chars(&cs, 2, 2), "");
    let mut s = String::from("ab");
    push_str(&mut s, "cd");
    assert_eq!(s, "abcd");
}

fn trimmed_by_popping(s: &str) -> String {
    let mut s = s.to_string();
    while s.contains('.') && (s.ends_with('0') || s.ends_with('.')) {
        s.pop();
    }
    s
}

#[test]
fn fraction_zeros_are_trimmed() {
    assert_eq!(trim_fraction_zeros("120.5000"), "120.5");
    assert_eq!(trim_fraction_zeros("90.0000"), "90");
    assert_eq!(trim_fraction_zeros("100"), "100");
    assert_eq!(trim_fraction_zeros("0.0000"), "0");
    assert_eq!(trim_fraction_zeros("-0.2500"), "-0.25");
    assert_eq!(trim_fraction_zeros(""), "");
    assert_eq!(trim_fraction_zeros("."), "");
    for v in [0.0f32, 1.5, 150.0, 0.0001, 123.45678, -3.0, f32::NAN, f32::INFINITY, 1e20] {
        let s = format!("{v:.4}");
        assert_eq!(trim_fraction_zeros(&s), trimmed_by_popping(&s), "{s}");
    }
}
