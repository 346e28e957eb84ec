use maisimai::fragment::{parse_fragment_syntax, Event, NoteSyntax};
use maisimai::lexer::{DurationBlock, DurationForm, SlideArc};
use maisimai::maidata::{parse_file_syntax, render_file};
use maisimai::render::{render_fragment, ExportNote, SlideTiming};
use maisimai::SlidePattern;

fn read_back(note: ExportNote) -> Vec<Event> {
    let text = render_fragment(&[note], None);
    let syn = parse_fragment_syntax(&text);
    assert!(syn.error.is_none(), "{text}: {:?}", syn.error);
    syn.events
}

fn ratio(open: usize, hash: Option<usize>, colon: usize, close: usize) -> DurationBlock {
    DurationBlock { open, close, form: DurationForm::Ratio { hash, colon: Some(colon), num_end: close } }
}

#[test]
fn written_tap_reads_back() {
    for button in 0..8u8 {
        for flags in 0..8u8 {
            let (b, x, s) = (flags & 1 != 0, flags & 2 != 0, flags & 4 != 0);
            let events = read_back(ExportNote::Tap { button, is_break: b, is_ex: x, is_star: s });
            assert_eq!(
                events,
                vec![Event::Note {
                    ticks: 0,
                    note: NoteSyntax::Tap { button, is_break: b, is_ex: x, is_star: s }
                }]
            );
        }
    }
}

#[test]
fn written_hold_reads_back() {
    let events = read_back(ExportNote::Hold { button: 6, is_ex: true, den: 16, num: 3 });
    // "7hx[16:3]"
    assert_eq!(
        events,
        vec![Event::Note {
            ticks: 0,
            note: NoteSyntax::Hold { button: 6, is_ex: true, duration: Some(ratio(3, None, 6, 8)) }
        }]
    );
}

#[test]
fn written_touch_notes_read_back() {
    let events = read_back(ExportNote::TouchTap { region: 'C', position: 4, is_firework: true });
    // "Cf" is a firework touch hold
    assert_eq!(
        events,
        vec![Event::Note {
            ticks: 0,
            note: NoteSyntax::TouchHold { region: 'C', position: 0, is_firework: true, duration: None }
        }]
    );
    let events = read_back(ExportNote::TouchTap { region: 'D', position: 3, is_firework: false });
    assert_eq!(
        events,
        vec![Event::Note { ticks: 0, note: NoteSyntax::TouchTap { region: 'D', position: 3, is_firework: false } }]
    );
    let events = read_back(ExportNote::TouchHold { region: 'E', position: 7, is_firework: true, den: 1, num: 2 });
    // "E8hf[1:2]"
    assert_eq!(
        events,
        vec![Event::Note {
            ticks: 0,
            note: NoteSyntax::TouchHold {
                region: 'E',
                position: 7,
                is_firework: true,
                duration: Some(ratio(4, None, 6, 8))
            }
        }]
    );
}

#[test]
fn written_slide_reads_back_with_its_star() {
    let events = read_back(ExportNote::Slide {
        start: 2,
        end: 5,
        pattern: SlidePattern::QQ,
        reflect: None,
        is_break: true,
        is_ex: true,
        is_tapless: false,
        timing: SlideTiming::Scaled { bpm: "80.5".to_string(), den: 4, num: 1 },
    });
    // "3bqq6[80.5#4:1]": only `b` is written, so ex is not read back
    assert_eq!(
        events,
        vec![
            Event::Note { ticks: 0, note: NoteSyntax::Tap { button: 2, is_break: true, is_ex: false, is_star: true } },
            Event::Note {
                ticks: 0,
                note: NoteSyntax::Slide {
                    start: 2,
                    first: SlideArc { pattern: SlidePattern::QQ, end: 5, reflect: None },
                    chain: vec![],
                    is_break: true,
                    is_ex: false,
                    is_tapless: false,
                    duration: Some(ratio(5, Some(10), 12, 14)),
                }
            },
        ]
    );
}

#[test]
fn written_tapless_big_v_reads_back() {
    let events = read_back(ExportNote::Slide {
        start: 0,
        end: 4,
        pattern: SlidePattern::BigV,
        reflect: None,
        is_break: false,
        is_ex: false,
        is_tapless: true,
        timing: SlideTiming::Plain { den: 8, num: 3 },
    });
    // "1?V55[8:3]": the reflect button is the end button
    assert_eq!(
        events,
        vec![Event::Note {
            ticks: 0,
            note: NoteSyntax::Slide {
                start: 0,
                first: SlideArc { pattern: SlidePattern::BigV, end: 4, reflect: Some(4) },
                chain: vec![],
                is_break: false,
                is_ex: false,
                is_tapless: true,
                duration: Some(ratio(5, None, 7, 9)),
            }
        }]
    );
}

#[test]
fn written_file_with_trailing_blanks_reads_back_trimmed() {
    let charts = vec![(4, "{4}1,2,\nE\n".to_string())];
    let out = render_file("T \t", "A", "0", None, &[(4, "12\r".to_string())], &charts);
    let f = parse_file_syntax(&out);
    assert_eq!(f.title, "T");
    assert_eq!(f.levels, vec![(4, "12".to_string())]);
    assert_eq!(f.charts, vec![(4, "{4}1,2,\nE".to_string())]);
    assert_eq!(f.wholebpm, None);
}

#[test]
fn written_fragment_reads_back_in_written_order() {
    let notes = vec![
        ExportNote::Tap { button: 0, is_break: false, is_ex: false, is_star: true },
        ExportNote::Hold { button: 4, is_ex: false, den: 2, num: 1 },
        ExportNote::Slide {
            start: 0,
            end: 4,
            pattern: SlidePattern::Line,
            reflect: None,
            is_break: false,
            is_ex: false,
            is_tapless: true,
            timing: SlideTiming::Plain { den: 8, num: 3 },
        },
        ExportNote::TouchTap { region: 'B', position: 2, is_firework: false },
        ExportNote::Tap { button: 3, is_break: false, is_ex: false, is_star: false },
    ];
    let text = render_fragment(&notes, Some("150"));
    assert_eq!(text, "(150)4/5h[2:1]/B3/1-5[8:3]");
    let syn = parse_fragment_syntax(&text);
    assert!(syn.error.is_none());
    assert_eq!(
        syn.events,
        vec![
            Event::Bpm { open: 0, close: 4 },
            Event::Note { ticks: 0, note: NoteSyntax::Tap { button: 3, is_break: false, is_ex: false, is_star: false } },
            Event::Note {
                ticks: 0,
                note: NoteSyntax::Hold { button: 4, is_ex: false, duration: Some(ratio(9, None, 11, 13)) }
            },
            Event::Note { ticks: 0, note: NoteSyntax::TouchTap { region: 'B', position: 2, is_firework: false } },
            // the star tap left to the slide comes back with it
            Event::Note { ticks: 0, note: NoteSyntax::Tap { button: 0, is_break: false, is_ex: false, is_star: true } },
            Event::Note {
                ticks: 0,
                note: NoteSyntax::Slide {
                    start: 0,
                    first: SlideArc { pattern: SlidePattern::Line, end: 4, reflect: None },
                    chain: vec![],
                    is_break: false,
                    is_ex: false,
                    is_tapless: false,
                    duration: Some(ratio(21, None, 23, 25)),
                }
            },
        ]
    );
}

#[test]
fn two_slides_from_one_start_read_back_as_one_chain() {
    // The second slide from the same start is written joined with `*`,
    // which reads back as a chained arc of the first slide.
    let notes = vec![
        ExportNote::Slide {
            start: 2,
            end: 6,
            pattern: SlidePattern::Line,
            reflect: None,
            is_break: false,
            is_ex: false,
            is_tapless: false,
            timing: SlideTiming::Plain { den: 8, num: 1 },
        },
        ExportNote::Slide {
            start: 2,
            end: 0,
            pattern: SlidePattern::Caret,
            reflect: None,
            is_break: false,
            is_ex: false,
            is_tapless: false,
            timing: SlideTiming::Plain { den: 4, num: 1 },
        },
    ];
    let text = render_fragment(&notes, None);
    assert_eq!(text, "3-7[8:1]*^1[4:1]");
    let syn = parse_fragment_syntax(&text);
    let slides: Vec<&NoteSyntax> = syn
        .events
        .iter()
        .filter_map(|e| match e {
            Event::Note { note: n @ NoteSyntax::Slide { .. }, .. } => Some(n),
            _ => None,
        })
        .collect();
    assert_eq!(slides.len(), 1);
    assert!(matches!(slides[0], NoteSyntax::Slide { chain, .. } if chain.len() == 1));
}
