use maisimai::chart_text::{chart_fragments, is_rest_fragment};
use maisimai::fragment::{parse_fragment_syntax, Event};
use maisimai::maidata::{classify_key, parse_file_syntax, render_file, split_blocks, BlockKey};

fn chart_note_count(body: &str) -> usize {
    let mut n = 0;
    for frag in chart_fragments(body) {
        if is_rest_fragment(&frag) {
            continue;
        }
        let syn = parse_fragment_syntax(&frag);
        assert!(syn.error.is_none());
        n += syn.events.iter().filter(|e| matches!(e, Event::Note { .. })).count();
    }
    n
}

#[test]
fn parses_minimal_file() {
    let f = parse_file_syntax("&title=Demo\n&artist=Me\n&first=0\n&lv_5=10\n&inote_5=(120){4}1,2,3,4,E\n");
    assert_eq!(f.title, "Demo");
    assert_eq!(f.charts.len(), 1);
    assert_eq!(f.charts[0].0, 5);
    assert!(chart_note_count(&f.charts[0].1) >= 4);
}

#[test]
fn minimal_file_fields() {
    let f = parse_file_syntax("&title=Demo\n&artist=Me\n&first=0\n&lv_5=10\n&inote_5=(120){4}1,2,3,4,E\n");
    assert_eq!(f.artist, "Me");
    assert_eq!(f.first.as_deref(), Some("0"));
    assert_eq!(f.wholebpm, None);
    assert_eq!(f.levels, vec![(5, "10".to_string())]);
    assert_eq!(f.charts, vec![(5, "(120){4}1,2,3,4,E".to_string())]);
    assert_eq!(chart_note_count(&f.charts[0].1), 4);
}

#[test]
fn multi_line_values_run_to_the_next_key() {
    let text = "&title=A\n&inote_2=1,\n2,\n\n  \n&inote_3=3,E\r\n\r\n";
    let blocks = split_blocks(text);
    assert_eq!(
        blocks,
        vec![
            ("title".to_string(), "A".to_string()),
            ("inote_2".to_string(), "1,\n2,".to_string()),
            ("inote_3".to_string(), "3,E".to_string()),
        ]
    );
}

#[test]
fn keys_without_equals_are_skipped() {
    let blocks = split_blocks("&broken\n&title=X\n&tail");
    assert_eq!(blocks, vec![("title".to_string(), "X".to_string())]);
    assert!(split_blocks("").is_empty());
    assert!(split_blocks("no keys here").is_empty());
}

#[test]
fn later_blocks_override_and_unknown_keys_are_ignored() {
    let f = parse_file_syntax("&title=One\n&des=someone\n&title=Two\n&wholebpm=150\n&lv_x=3\n&inote_=1\n");
    assert_eq!(f.title, "Two");
    assert_eq!(f.wholebpm.as_deref(), Some("150"));
    assert!(f.levels.is_empty());
    assert!(f.charts.is_empty());
}

#[test]
fn key_classification() {
    assert_eq!(classify_key("title"), BlockKey::Title);
    assert_eq!(classify_key("artist"), BlockKey::Artist);
    assert_eq!(classify_key("first"), BlockKey::First);
    assert_eq!(classify_key("wholebpm"), BlockKey::WholeBpm);
    assert_eq!(classify_key("lv_7"), BlockKey::Level(7));
    assert_eq!(classify_key("lv_+7"), BlockKey::Level(7));
    assert_eq!(classify_key("inote_12"), BlockKey::Chart(12));
    assert_eq!(classify_key("inote_4294967295"), BlockKey::Chart(u32::MAX));
    assert_eq!(classify_key("inote_4294967296"), BlockKey::Other);
    assert_eq!(classify_key("lv_"), BlockKey::Other);
    assert_eq!(classify_key("lv_1a"), BlockKey::Other);
    assert_eq!(classify_key("Title"), BlockKey::Other);
    assert_eq!(classify_key("smsg"), BlockKey::Other);
}

#[test]
fn key_numbers_agree_with_std_parse() {
    for s in ["0", "5", "+5", "007", "", "+", "-1", "4294967295", "4294967296", "1 ", "١"] {
        let expected = s.parse::<u32>().ok();
        let got = match classify_key(&format!("lv_{s}")) {
            BlockKey::Level(n) => Some(n),
            _ => None,
        };
        assert_eq!(got, expected, "{s:?}");
    }
}

#[test]
fn render_file_layout() {
    let out = render_file(
        "Demo",
        "Me",
        "0.5",
        Some("150"),
        &[(5, "10".to_string()), (6, "12+".to_string())],
        &[(5, "1,\nE\n".to_string())],
    );
    assert_eq!(
        out,
        "&title=Demo\n&artist=Me\n&first=0.5\n&wholebpm=150\n&lv_5=10\n&lv_6=12+\n&inote_5=1,\nE\n\n"
    );
    let out = render_file("", "", "0", None, &[], &[]);
    assert_eq!(out, "&title=\n&artist=\n&first=0\n");
}

#[test]
fn rendered_file_reads_back() {
    let levels = vec![(3, "9".to_string()), (4, "11+".to_string())];
    let charts = vec![(3, "(150){4}1,2,E".to_string())];
    let out = render_file("Song", "Band", "1.25", Some("150"), &levels, &charts);
    let f = parse_file_syntax(&out);
    assert_eq!(f.title, "Song");
    assert_eq!(f.artist, "Band");
    assert_eq!(f.first.as_deref(), Some("1.25"));
    assert_eq!(f.wholebpm.as_deref(), Some("150"));
    assert_eq!(f.levels, levels);
    assert_eq!(f.charts, charts);
}
