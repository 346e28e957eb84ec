use maisimai::locate::chart_offset;

#[test]
fn offset_in_second_fragment() {
    assert_eq!(chart_offset("1,2/#", 1, 2), Some(4));
}

#[test]
fn offset_skips_comment_lines_and_whitespace() {
    assert_eq!(chart_offset("1,\n|| note\n  2/#", 1, 2), Some(15));
    assert_eq!(chart_offset("1,\n|| note\n  2/#", 0, 0), Some(0));
}

#[test]
fn offset_counts_characters_not_bytes() {
    assert_eq!(chart_offset("1,\u{3042}#", 1, 3), Some(3));
    assert_eq!(chart_offset("\u{3042}\u{3042},#", 1, 0), Some(3));
}

#[test]
fn offset_at_fragment_end_points_at_the_comma() {
    assert_eq!(chart_offset("1-5, 2", 0, 3), Some(3));
}

#[test]
fn offset_past_the_last_character_is_the_end() {
    assert_eq!(chart_offset("1,2 ", 1, 1), Some(4));
}

#[test]
fn offset_of_missing_fragment_is_unknown() {
    assert_eq!(chart_offset("1,2", 2, 0), None);
}
