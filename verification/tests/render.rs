use maisimai::render::{render_fragment, ChartWriter, ExportNote, SlideTiming};
use maisimai::SlidePattern;

fn tap(button: u8, is_break: bool, is_ex: bool, is_star: bool) -> ExportNote {
    ExportNote::Tap { button, is_break, is_ex, is_star }
}

fn slide(start: u8, end: u8, pattern: SlidePattern, timing: SlideTiming) -> ExportNote {
    ExportNote::Slide {
        start,
        end,
        pattern,
        reflect: None,
        is_break: false,
        is_ex: false,
        is_tapless: false,
        timing,
    }
}

#[test]
fn taps_and_bpm() {
    let notes = vec![tap(0, false, false, false), tap(2, true, true, false), tap(7, false, false, true)];
    assert_eq!(render_fragment(&notes, Some("160")), "(160)1/3bx/8$");
    assert_eq!(render_fragment(&[], None), "");
    assert_eq!(render_fragment(&[], Some("90.5")), "(90.5)");
}

#[test]
fn groups_are_written_in_kind_order() {
    let notes = vec![
        ExportNote::TouchHold { region: 'C', position: 0, is_firework: true, den: 4, num: 1 },
        ExportNote::TouchTap { region: 'B', position: 2, is_firework: false },
        ExportNote::Hold { button: 4, is_ex: true, den: 2, num: 1 },
        tap(1, false, false, false),
        ExportNote::TouchTap { region: 'C', position: 5, is_firework: true },
        ExportNote::TouchHold { region: 'E', position: 1, is_firework: false, den: 8, num: 3 },
    ];
    assert_eq!(render_fragment(&notes, None), "2/5hx[2:1]/B3/Cf/Chf[4:1]/E2h[8:3]");
}

#[test]
fn star_tap_is_left_to_its_slide() {
    let notes = vec![
        tap(0, false, false, true),
        slide(0, 4, SlidePattern::Line, SlideTiming::Plain { den: 8, num: 3 }),
    ];
    assert_eq!(render_fragment(&notes, None), "1-5[8:3]");
    // a star tap without a slide keeps its `$`
    let notes = vec![tap(3, false, false, true), slide(0, 4, SlidePattern::Caret, SlideTiming::Plain { den: 4, num: 1 })];
    assert_eq!(render_fragment(&notes, None), "4$/1^5[4:1]");
}

#[test]
fn second_slide_from_same_start_continues_with_star() {
    let notes = vec![
        slide(2, 6, SlidePattern::Line, SlideTiming::Plain { den: 8, num: 1 }),
        slide(2, 0, SlidePattern::PP, SlideTiming::Scaled { bpm: "80".to_string(), den: 4, num: 1 }),
        slide(5, 1, SlidePattern::Wifi, SlideTiming::Plain { den: 1, num: 1 }),
    ];
    assert_eq!(render_fragment(&notes, None), "3-7[8:1]*pp1[80#4:1]/6w2[1:1]");
}

#[test]
fn slide_modifiers_and_big_v() {
    let mut n = ExportNote::Slide {
        start: 1,
        end: 3,
        pattern: SlidePattern::BigV,
        reflect: Some(5),
        is_break: true,
        is_ex: true,
        is_tapless: true,
        timing: SlideTiming::Plain { den: 8, num: 5 },
    };
    // tapless with no star tap left to it: `?`
    assert_eq!(render_fragment(&[n.clone()], None), "2?V64[8:5]");
    if let ExportNote::Slide { is_tapless, reflect, .. } = &mut n {
        *is_tapless = false;
        *reflect = None;
    }
    // break wins over ex; a `V` without reflect uses its end button
    assert_eq!(render_fragment(&[n], None), "2bV44[8:5]");
    // tapless, but its star tap was left to it: falls through to break
    let notes = vec![
        tap(1, false, false, true),
        ExportNote::Slide {
            start: 1,
            end: 3,
            pattern: SlidePattern::S,
            reflect: None,
            is_break: true,
            is_ex: false,
            is_tapless: true,
            timing: SlideTiming::Plain { den: 4, num: 1 },
        },
    ];
    assert_eq!(render_fragment(&notes, None), "2bs4[4:1]");
}

#[test]
fn writer_headers_and_rests() {
    let mut w = ChartWriter::new();
    w.emit("(120)1", 4, 1, 3, 0);
    w.emit("2", 4, 1, 0, 2);
    w.emit("", 1, 1, 0, 0);
    w.emit("3", 8, 3, 1, 0);
    assert_eq!(w.finish(), "{4}(120)1,,,2{1},,\n{8}3,,\nE\n");
}

#[test]
fn writer_new_whole_measure_repeats_header() {
    let mut w = ChartWriter::new();
    w.emit("1", 4, 0, 1, 0);
    w.emit("2", 4, 1, 1, 0);
    assert_eq!(w.finish(), "{4}1,\n{4}2,,\nE\n");
    let w = ChartWriter::new();
    assert_eq!(w.finish(), ",\nE\n");
}

#[test]
fn writer_negative_counts_write_nothing() {
    let mut w = ChartWriter::new();
    w.emit("1", 2, 1, -3, -1);
    assert_eq!(w.finish(), "{2}1,\nE\n");
}
