use maisimai::lexer::{
    find_close, has_modifier, ratio_colon, read_duration_block, read_modifiers, read_slide_arc, DurationBlock,
    DurationForm,
    SlideArc,
};
use maisimai::pattern::is_slide_pattern_char;
use maisimai::SlidePattern;

#[test]
fn find_close_finds_first() {
    assert_eq!(find_close(b"(12)3)", 0, b')'), Ok(3));
    let e = find_close(b"{12", 0, b'}').unwrap_err();
    assert_eq!(e.message, "unmatched `{`");
    assert_eq!(e.offset, Some(0));
}

#[test]
fn read_modifiers_stops_at_non_modifier() {
    let mut i = 1;
    let m = read_modifiers(b"1bx$h?!@fz", &mut i);
    assert_eq!(m, "bx$h?!@f");
    assert!(has_modifier(&m, b'h'));
    assert!(!has_modifier(&m, b'z'));
    assert_eq!(i, 9);
    let mut i = 3;
    assert!(read_modifiers(b"abc", &mut i).is_empty());
    assert_eq!(i, 3);
    let mut i = 0;
    assert_eq!(read_modifiers(b"b*-5", &mut i), "b*");
    assert_eq!(i, 2);
    let mut i = 10;
    assert!(read_modifiers(b"ab", &mut i).is_empty());
    assert_eq!(i, 10);
}

#[test]
fn slide_patterns() {
    let cases: [(&[u8], SlidePattern, usize); 13] = [
        (b"-5", SlidePattern::Line, 2),
        (b"^5", SlidePattern::Caret, 2),
        (b"<5", SlidePattern::Left, 2),
        (b">5", SlidePattern::Right, 2),
        (b"v5", SlidePattern::LowerV, 2),
        (b"V35", SlidePattern::BigV, 3),
        (b"s5", SlidePattern::S, 2),
        (b"z5", SlidePattern::Z, 2),
        (b"p5", SlidePattern::P, 2),
        (b"q5", SlidePattern::Q, 2),
        (b"pp5", SlidePattern::PP, 3),
        (b"qq5", SlidePattern::QQ, 3),
        (b"w5", SlidePattern::Wifi, 2),
    ];
    for (text, p, next) in cases {
        let (arc, j) = read_slide_arc(text, 0).unwrap();
        assert_eq!(arc.pattern, p);
        assert_eq!(arc.end, 4);
        assert_eq!(j, next);
        assert!(is_slide_pattern_char(text[0] as char));
    }
    assert_eq!(
        read_slide_arc(b"V64", 0).unwrap().0,
        SlideArc { pattern: SlidePattern::BigV, end: 3, reflect: Some(5) }
    );
    // `9` wraps to button 0; `0` names button 7.
    assert_eq!(read_slide_arc(b"-9", 0).unwrap().0.end, 0);
    assert_eq!(read_slide_arc(b"-0", 0).unwrap().0.end, 7);
    assert!(!is_slide_pattern_char('x'));
}

#[test]
fn pattern_text_round_trip() {
    let all = [
        SlidePattern::Line, SlidePattern::Caret, SlidePattern::Left, SlidePattern::Right,
        SlidePattern::LowerV, SlidePattern::S, SlidePattern::Z, SlidePattern::P, SlidePattern::Q,
        SlidePattern::PP, SlidePattern::QQ, SlidePattern::Wifi,
    ];
    for p in all {
        let text = format!("{}3", p.as_str());
        assert_eq!(read_slide_arc(text.as_bytes(), 0).unwrap().0.pattern, p);
    }
    assert_eq!(SlidePattern::BigV.as_str(), "V");
}

#[test]
fn duration_block_forms() {
    let mut i = 0;
    let b = read_duration_block(b"[1.5##2]", &mut i).unwrap();
    assert_eq!(b, DurationBlock { open: 0, close: 7, form: DurationForm::DelayAndLength { split: 4 } });
    assert_eq!(i, 8);
    let mut i = 0;
    assert_eq!(read_duration_block(b"[#0.5]", &mut i).unwrap().form, DurationForm::Seconds);
    let mut i = 0;
    assert_eq!(
        read_duration_block(b"[160#8:3:9]", &mut i).unwrap().form,
        DurationForm::Ratio { hash: Some(4), colon: Some(6), num_end: 8 }
    );
    let mut i = 0;
    assert_eq!(
        read_duration_block(b"[83]", &mut i).unwrap().form,
        DurationForm::Ratio { hash: None, colon: None, num_end: 3 }
    );
    let mut i = 0;
    let e = read_duration_block(b"[8:3", &mut i).unwrap_err();
    assert_eq!(e.message, "unmatched `[`");
    assert_eq!(i, 0);
}

#[test]
fn ratio_colon_or_its_error() {
    assert_eq!(ratio_colon(Some(4), "8:3"), Ok(4));
    let e = ratio_colon(None, "83").unwrap_err();
    assert_eq!(e.message, "duration missing `:` in `83`");
    assert_eq!(e.offset, None);
}
