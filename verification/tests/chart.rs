use maisimai::chart_text::{chart_fragments, clean_chart_text, is_rest_fragment, split_fragments};
use maisimai::fragment::{parse_fragment_syntax, Event, NoteSyntax};
use maisimai::render::ChartWriter;

fn note_count(text: &str) -> usize {
    let mut n = 0;
    for frag in chart_fragments(text) {
        if is_rest_fragment(&frag) {
            continue;
        }
        let syn = parse_fragment_syntax(&frag);
        assert!(syn.error.is_none(), "fragment {frag:?}: {:?}", syn.error);
        n += syn.events.iter().filter(|e| matches!(e, Event::Note { .. })).count();
    }
    n
}

#[test]
fn parses_basic_chart() {
    // (160) sets BPM; {8} sets 1/8 divisor; mix of taps, hold, slide,
    // touch, BigV reflect, and chained slide.
    let text = "(160){4}1,3,5h[4:1],7,(160){8}1-5[8:3]/3v8[4:2],,2V64[8:5]*-7[8:3],C,B3f,";
    assert!(note_count(text) > 0, "expected notes");
}

#[test]
fn basic_chart_fragments_in_order() {
    let text = "(160){4}1,3,5h[4:1],7,(160){8}1-5[8:3]/3v8[4:2],,2V64[8:5]*-7[8:3],C,B3f,";
    let frags = chart_fragments(text);
    assert_eq!(
        frags,
        vec![
            "(160){4}1", "3", "5h[4:1]", "7", "(160){8}1-5[8:3]/3v8[4:2]", "", "2V64[8:5]*-7[8:3]",
            "C", "B3f", ""
        ]
    );
    // taps 1,3,7; hold 5; star+slide 1-5; star+slide 3v8; star+slide 2V64 (its `*-7`
    // arc is chained onto the same slide); C; B3f
    assert_eq!(note_count(text), 12);
}

#[test]
fn clean_removes_comment_lines_and_whitespace() {
    assert_eq!(clean_chart_text("1, 2,\r\n|| a comment, 3\n 4 ,\u{3000}5"), "1,2,4,5");
    assert_eq!(clean_chart_text("a|b\n|c"), "a|b|c");
    assert_eq!(clean_chart_text(""), "");
}

#[test]
fn split_keeps_empty_pieces() {
    assert_eq!(split_fragments(",a,,b,"), vec!["", "a", "", "b", ""]);
    assert_eq!(split_fragments(""), vec![""]);
    assert_eq!(split_fragments("abc"), vec!["abc"]);
}

#[test]
fn split_then_join_gives_back_text() {
    for s in ["", ",", "a,b", ",,x,,", "(120){4}1,2,E"] {
        assert_eq!(split_fragments(s).join(","), s);
    }
}

#[test]
fn rest_fragments() {
    assert!(is_rest_fragment(""));
    assert!(is_rest_fragment("E"));
    assert!(!is_rest_fragment("EE"));
    assert!(!is_rest_fragment("1"));
}

#[test]
fn slide_chain_joins_one_slide() {
    let syn = parse_fragment_syntax("2V64[8:5]*-7[8:3]");
    assert!(syn.error.is_none());
    let notes: Vec<&NoteSyntax> = syn
        .events
        .iter()
        .filter_map(|e| match e {
            Event::Note { note, .. } => Some(note),
            _ => None,
        })
        .collect();
    assert_eq!(notes.len(), 2);
    assert!(matches!(notes[0], NoteSyntax::Tap { button: 1, is_star: true, .. }));
    match notes[1] {
        NoteSyntax::Slide { start, first, chain, duration, .. } => {
            assert_eq!(*start, 1);
            assert_eq!(first.end, 3);
            assert_eq!(first.reflect, Some(5));
            assert_eq!(chain.len(), 1);
            assert_eq!(chain[0].end, 6);
            assert_eq!(chain[0].reflect, None);
            // the shared duration is the last block, `[8:3]` at bytes 12..16
            let d = duration.expect("duration");
            assert_eq!((d.open, d.close), (12, 16));
        }
        _ => panic!("expected slide"),
    }
    // the first `[8:5]` block is read only to be checked
    assert!(syn.events.iter().any(|e| matches!(e, Event::Check { block } if block.open == 4 && block.close == 8)));
}

#[test]
fn fragments_hold_no_comma_or_whitespace() {
    for text in ["1, 2 ,\n3,\t4\u{3000},", "(120){4}1,2,||x, y\n,E", " , ,", ""] {
        for frag in chart_fragments(text) {
            assert!(frag.chars().all(|c| c != ',' && !c.is_whitespace()), "{text:?}: {frag:?}");
        }
    }
}

#[test]
fn cleaned_body_reads_the_same() {
    let text = "(120){4}1, 2 ,\n|| comment, 7\n  3h[4:1],\r\nE\n";
    let cleaned = clean_chart_text(text);
    assert_eq!(cleaned, "(120){4}1,2,3h[4:1],E");
    assert_eq!(clean_chart_text(&cleaned), cleaned);
    assert_eq!(chart_fragments(&cleaned), chart_fragments(text));
}

#[test]
fn basic_chart_written_out_ends_with_end_marker() {
    let text = "(160){4}1,3,5h[4:1],7,(160){8}1-5[8:3]/3v8[4:2],,2V64[8:5]*-7[8:3],C,B3f,";
    let mut w = ChartWriter::new();
    let mut tick: i64 = 0;
    for frag in chart_fragments(text) {
        if is_rest_fragment(&frag) {
            continue;
        }
        w.emit(&frag, 4, tick / 4, 0, 0);
        tick += 1;
    }
    let out = w.finish();
    assert!(out.contains("E"));
    assert!(out.ends_with(",\nE\n"));
    assert!(out.starts_with("{4}(160){4}1"));
    assert!(out.contains("2V64[8:5]*-7[8:3]"));
}
