use maisimai::fragment::{parse_fragment_syntax, Event, NoteSyntax};
use maisimai::lexer::{DurationBlock, DurationForm, SlideArc};
use maisimai::SlidePattern;

fn notes(frag: &str) -> Vec<(usize, NoteSyntax)> {
    let syn = parse_fragment_syntax(frag);
    assert!(syn.error.is_none(), "{:?}", syn.error);
    syn.events
        .into_iter()
        .filter_map(|e| match e {
            Event::Note { ticks, note } => Some((ticks, note)),
            _ => None,
        })
        .collect()
}

#[test]
fn bpm_and_divisor_positions() {
    let syn = parse_fragment_syntax("(120.5){8#2}3");
    assert!(syn.error.is_none());
    assert_eq!(syn.events[0], Event::Bpm { open: 0, close: 6 });
    assert_eq!(syn.events[1], Event::Divisor { open: 7, close: 11, main_end: 9 });
    assert_eq!(
        syn.events[2],
        Event::Note {
            ticks: 0,
            note: NoteSyntax::Tap { button: 2, is_break: false, is_ex: false, is_star: false }
        }
    );
}

#[test]
fn tap_modifiers() {
    let n = notes("1bx/8$");
    assert_eq!(n.len(), 2);
    assert_eq!(n[0].1, NoteSyntax::Tap { button: 0, is_break: true, is_ex: true, is_star: false });
    assert_eq!(n[1].1, NoteSyntax::Tap { button: 7, is_break: false, is_ex: false, is_star: true });
}

#[test]
fn hold_with_duration_block() {
    let n = notes("5h[4:1]");
    assert_eq!(
        n[0].1,
        NoteSyntax::Hold {
            button: 4,
            is_ex: false,
            duration: Some(DurationBlock {
                open: 2,
                close: 6,
                form: DurationForm::Ratio { hash: None, colon: Some(4), num_end: 6 }
            })
        }
    );
    let n = notes("5hx");
    assert_eq!(n[0].1, NoteSyntax::Hold { button: 4, is_ex: true, duration: None });
}

#[test]
fn slide_emits_star_then_slide() {
    let n = notes("1-5[8:3]");
    assert_eq!(n.len(), 2);
    assert_eq!(n[0].1, NoteSyntax::Tap { button: 0, is_break: false, is_ex: false, is_star: true });
    assert_eq!(
        n[1].1,
        NoteSyntax::Slide {
            start: 0,
            first: SlideArc { pattern: SlidePattern::Line, end: 4, reflect: None },
            chain: vec![],
            is_break: false,
            is_ex: false,
            is_tapless: false,
            duration: Some(DurationBlock {
                open: 3,
                close: 7,
                form: DurationForm::Ratio { hash: None, colon: Some(5), num_end: 7 }
            }),
        }
    );
}

#[test]
fn tapless_slide_has_no_star() {
    let n = notes("1?-5[8:3]");
    assert_eq!(n.len(), 1);
    assert!(matches!(n[0].1, NoteSyntax::Slide { is_tapless: true, .. }));
}

#[test]
fn chained_slide_with_intermediate_duration_is_checked() {
    let syn = parse_fragment_syntax("1-3[8:1]-5[8:1]");
    assert!(syn.error.is_none());
    assert!(matches!(syn.events[1], Event::Check { .. }));
    match &syn.events[2] {
        Event::Note { note: NoteSyntax::Slide { chain, .. }, .. } => {
            assert_eq!(chain, &vec![SlideArc { pattern: SlidePattern::Line, end: 4, reflect: None }]);
        }
        e => panic!("unexpected {e:?}"),
    }
}

#[test]
fn pseudo_each_ticks() {
    let n = notes("1`2`3/4");
    let ticks: Vec<usize> = n.iter().map(|(t, _)| *t).collect();
    assert_eq!(ticks, vec![0, 1, 2, 0]);
}

#[test]
fn touch_notes() {
    let n = notes("C/B3f/E2h[4:1]/Cf");
    assert_eq!(n[0].1, NoteSyntax::TouchTap { region: 'C', position: 0, is_firework: false });
    // the firework modifier makes a touch hold
    assert_eq!(n[1].1, NoteSyntax::TouchHold { region: 'B', position: 2, is_firework: true, duration: None });
    assert!(matches!(n[2].1, NoteSyntax::TouchHold { region: 'E', position: 1, duration: Some(_), .. }));
    assert_eq!(n[3].1, NoteSyntax::TouchHold { region: 'C', position: 0, is_firework: true, duration: None });
}

#[test]
fn zero_button_is_dropped() {
    let syn = parse_fragment_syntax("0h[4:1]/2");
    assert!(syn.error.is_none());
    assert!(matches!(syn.events[0], Event::Check { .. }));
    assert_eq!(syn.events.len(), 2);
}

#[test]
fn unexpected_character_error() {
    let syn = parse_fragment_syntax("1/#");
    let e = syn.error.expect("error");
    assert_eq!(e.message, "unexpected character `#` in fragment `1/#`");
    assert_eq!(e.offset, Some(2));
    assert_eq!(syn.events.len(), 1);
    assert_eq!(e.to_display_string(), "Simai parse error at offset 2: unexpected character `#` in fragment `1/#`");
}

#[test]
fn error_without_offset_display() {
    let e = parse_fragment_syntax("1-").error.expect("error");
    assert_eq!(e.offset, None);
    assert_eq!(e.to_display_string(), "Simai parse error: slide arc missing end button");
}

#[test]
fn slides_from_one_button_share_one_star() {
    let syn = parse_fragment_syntax("1-5[8:1]/1-3[8:1]/*-7[8:1]");
    assert!(syn.error.is_none());
    let stars = syn
        .events
        .iter()
        .filter(|e| matches!(e, Event::Note { note: NoteSyntax::Tap { is_star: true, .. }, .. }))
        .count();
    let slides = syn
        .events
        .iter()
        .filter(|e| matches!(e, Event::Note { note: NoteSyntax::Slide { start: 0, .. }, .. }))
        .count();
    assert_eq!((stars, slides), (1, 3));
}

#[test]
fn star_without_button_error() {
    let e = parse_fragment_syntax("*-5").error.expect("error");
    assert_eq!(e.message, "* without prior button");
    assert_eq!(e.offset, Some(1));
}

#[test]
fn unmatched_bracket_errors() {
    let e = parse_fragment_syntax("(120").error.expect("error");
    assert_eq!(e.message, "unmatched `(`");
    assert_eq!(e.offset, Some(0));
    let e = parse_fragment_syntax("1h[4:1").error.expect("error");
    assert_eq!(e.message, "unmatched `[`");
    assert_eq!(e.offset, Some(2));
}

#[test]
fn slide_arc_errors() {
    assert_eq!(parse_fragment_syntax("1-").error.unwrap().message, "slide arc missing end button");
    assert_eq!(parse_fragment_syntax("1V").error.unwrap().message, "slide `V` missing reflect button");
    let e = parse_fragment_syntax("1-5[8:1]*").error.unwrap();
    assert_eq!(e.message, "slide arc: unexpected EOL");
    assert_eq!(e.offset, None);
    let e = parse_fragment_syntax("1-5[8:1]*k3").error.unwrap();
    assert_eq!(e.message, "unknown slide pattern `k`");
    assert_eq!(e.offset, Some(9));
}

#[test]
fn events_before_an_error_are_kept() {
    let syn = parse_fragment_syntax("1-3[8:1]-5?");
    // star tap, check of the intermediate block, then the unexpected `?`... is a modifier,
    // so the slide completes; the following text is fine.
    assert!(syn.error.is_none());
    let syn = parse_fragment_syntax("(90)1-3[8:1]-");
    let e = syn.error.unwrap();
    assert_eq!(e.message, "slide arc missing end button");
    assert_eq!(syn.events.len(), 3); // Bpm, star tap, Check
    assert!(matches!(syn.events[2], Event::Check { .. }));
}

#[test]
fn non_ascii_offsets_are_byte_positions() {
    let e = parse_fragment_syntax("1é").error.unwrap();
    assert_eq!(e.offset, Some(1));
    assert_eq!(e.message, "unexpected character `\u{c3}` in fragment `1é`");
}

#[test]
fn star_is_a_modifier() {
    // `*` right after a slide's arc is one of its modifiers, not a chain
    let syn = parse_fragment_syntax("1-5*");
    assert!(syn.error.is_none());
    assert!(matches!(syn.events.last(), Some(Event::Note { note: NoteSyntax::Slide { chain, .. }, .. }) if chain.is_empty()));
    // after a tap's button it is read with the modifiers, and the slide follows
    let n = notes("2*-6[8:1]");
    assert_eq!(n.len(), 2);
    assert!(matches!(n[0].1, NoteSyntax::Tap { button: 1, is_star: true, .. }));
    assert!(matches!(n[1].1, NoteSyntax::Slide { start: 1, .. }));
    // `1-5*k3`: the `k` after the modifiers is not part of the fragment's syntax
    let e = parse_fragment_syntax("1-5*k3").error.unwrap();
    assert_eq!(e.message, "unexpected character `k` in fragment `1-5*k3`");
    assert_eq!(e.offset, Some(4));
}

#[test]
fn firework_touch_is_a_hold() {
    let n = notes("Cf");
    assert_eq!(n[0].1, NoteSyntax::TouchHold { region: 'C', position: 0, is_firework: true, duration: None });
    let n = notes("A1f[4:1]");
    assert!(matches!(n[0].1, NoteSyntax::TouchHold { region: 'A', position: 0, is_firework: true, duration: Some(_) }));
}
