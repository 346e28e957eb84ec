//! Writing charts back out as Simai text: the fragment for the events of one
//! measure position, and the writer that joins fragments with divisor
//! headers and rests.
//!
//! Numbers that the exporter computes from timing (duration fractions, BPM
//! values) are handed in already worked out: fractions as denominator and
//! numerator, BPM values as their text.

use vstd::prelude::*;
use vstd::string::*;
use crate::pattern::SlidePattern;
use crate::text::{decimal, digit_char, push_decimal, push_str};

verus! {

/// How a slide's timing is written.
#[derive(Debug, Clone, PartialEq)]
pub enum SlideTiming {
    /// `[den:num]`
    Plain { den: u32, num: u32 },
    /// `[bpm#den:num]`, with the equivalent BPM already written as text.
    Scaled { bpm: String, den: u32, num: u32 },
}

/// A note to be written, with its numbers ready for output.
#[derive(Debug, Clone, PartialEq)]
pub enum ExportNote {
    Tap { button: u8, is_break: bool, is_ex: bool, is_star: bool },
    Hold { button: u8, is_ex: bool, den: u32, num: u32 },
    TouchTap { region: char, position: u8, is_firework: bool },
    TouchHold { region: char, position: u8, is_firework: bool, den: u32, num: u32 },
    Slide {
        start: u8,
        end: u8,
        pattern: SlidePattern,
        reflect: Option<u8>,
        is_break: bool,
        is_ex: bool,
        is_tapless: bool,
        timing: SlideTiming,
    },
}

/// The mathematical content of a [`SlideTiming`].
pub enum TimingView {
    Plain { den: u32, num: u32 },
    Scaled { bpm: Seq<char>, den: u32, num: u32 },
}

/// The mathematical content of an [`ExportNote`].
pub enum ExportView {
    Tap { button: u8, is_break: bool, is_ex: bool, is_star: bool },
    Hold { button: u8, is_ex: bool, den: u32, num: u32 },
    TouchTap { region: char, position: u8, is_firework: bool },
    TouchHold { region: char, position: u8, is_firework: bool, den: u32, num: u32 },
    Slide {
        start: u8,
        end: u8,
        pattern: SlidePattern,
        reflect: Option<u8>,
        is_break: bool,
        is_ex: bool,
        is_tapless: bool,
        timing: TimingView,
    },
}

impl View for SlideTiming {
    type V = TimingView;

    open spec fn view(&self) -> TimingView {
        match self {
            SlideTiming::Plain { den, num } => TimingView::Plain { den: *den, num: *num },
            SlideTiming::Scaled { bpm, den, num } => TimingView::Scaled {
                bpm: bpm@,
                den: *den,
                num: *num,
            },
        }
    }
}

impl View for ExportNote {
    type V = ExportView;

    open spec fn view(&self) -> ExportView {
        match self {
            ExportNote::Tap { button, is_break, is_ex, is_star } => ExportView::Tap {
                button: *button,
                is_break: *is_break,
                is_ex: *is_ex,
                is_star: *is_star,
            },
            ExportNote::Hold { button, is_ex, den, num } => ExportView::Hold {
                button: *button,
                is_ex: *is_ex,
                den: *den,
                num: *num,
            },
            ExportNote::TouchTap { region, position, is_firework } => ExportView::TouchTap {
                region: *region,
                position: *position,
                is_firework: *is_firework,
            },
            ExportNote::TouchHold { region, position, is_firework, den, num } =>
                ExportView::TouchHold {
                region: *region,
                position: *position,
                is_firework: *is_firework,
                den: *den,
                num: *num,
            },
            ExportNote::Slide { start, end, pattern, reflect, is_break, is_ex, is_tapless, timing } =>
                ExportView::Slide {
                start: *start,
                end: *end,
                pattern: *pattern,
                reflect: *reflect,
                is_break: *is_break,
                is_ex: *is_ex,
                is_tapless: *is_tapless,
                timing: timing@,
            },
        }
    }
}

/// The views of a sequence of notes.
pub open spec fn notes_view(v: Seq<ExportNote>) -> Seq<ExportView> {
    v.map_values(|n: ExportNote| n@)
}

/// `s` when `b` holds, else nothing.
pub open spec fn text_if(b: bool, s: Seq<char>) -> Seq<char> {
    if b {
        s
    } else {
        seq![]
    }
}

/// The number one past `v`, written in decimal (buttons are written from 1).
pub open spec fn one_based(v: u8) -> Seq<char> {
    decimal(v as nat + 1)
}

/// `[den:num]`
pub open spec fn fraction_text(den: u32, num: u32) -> Seq<char> {
    "["@ + decimal(den as nat) + ":"@ + decimal(num as nat) + "]"@
}

/// A tap: button, then `b`, `x`, `$` for break, ex and star.
pub open spec fn tap_text(button: u8, is_break: bool, is_ex: bool, is_star: bool) -> Seq<char> {
    one_based(button) + text_if(is_break, "b"@) + text_if(is_ex, "x"@) + text_if(is_star, "$"@)
}

/// A hold: button, `h` or `hx`, and its duration.
pub open spec fn hold_text(button: u8, is_ex: bool, den: u32, num: u32) -> Seq<char> {
    one_based(button) + (if is_ex {
        "hx"@
    } else {
        "h"@
    }) + fraction_text(den, num)
}

/// A touch tap: `C` alone, or region and position; `f` for a firework.
pub open spec fn touch_tap_text(region: char, position: u8, is_firework: bool) -> Seq<char> {
    if region == 'C' {
        "C"@ + text_if(is_firework, "f"@)
    } else {
        seq![region] + one_based(position) + text_if(is_firework, "f"@)
    }
}

/// A touch hold: like a touch tap with `h` (or `hf`) and its duration.
pub open spec fn touch_hold_text(region: char, position: u8, is_firework: bool, den: u32, num: u32) -> Seq<char> {
    let mods = if is_firework {
        "hf"@
    } else {
        "h"@
    };
    if region == 'C' {
        "C"@ + mods + fraction_text(den, num)
    } else {
        seq![region] + one_based(position) + mods + fraction_text(den, num)
    }
}

/// A slide's timing block.
pub open spec fn timing_text(t: TimingView) -> Seq<char> {
    match t {
        TimingView::Plain { den, num } => fraction_text(den, num),
        TimingView::Scaled { bpm, den, num } => "["@ + bpm + "#"@ + decimal(den as nat) + ":"@
            + decimal(num as nat) + "]"@,
    }
}

/// A slide's pattern: `V` with its reflect button (the end button when there
/// is none), or the pattern's own text.
pub open spec fn pattern_out(pattern: SlidePattern, reflect: Option<u8>, end: u8) -> Seq<char> {
    if pattern == SlidePattern::BigV {
        "V"@ + one_based(
            match reflect {
                Some(r) => r,
                None => end,
            },
        )
    } else {
        pattern.text()
    }
}

/// The head of a slide: `*` when its start was already written here, else
/// the start button.
pub open spec fn slide_head(again: bool, start: u8) -> Seq<char> {
    if again {
        "*"@
    } else {
        one_based(start)
    }
}

/// The modifier of a slide written for the first time at its start: `?`
/// for a tapless slide whose star tap was not left to it, else `b` or `x`.
pub open spec fn slide_mods(again: bool, tapless_head: bool, is_break: bool, is_ex: bool) -> Seq<char> {
    if again {
        seq![]
    } else if tapless_head {
        "?"@
    } else if is_break {
        "b"@
    } else if is_ex {
        "x"@
    } else {
        seq![]
    }
}

/// A slide, given the starts already written in this fragment and the
/// buttons whose star taps were left to their slides.
pub open spec fn slide_text(n: ExportView, written: Seq<u8>, stars: Seq<u8>) -> Seq<char> {
    match n {
        ExportView::Slide { start, end, pattern, reflect, is_break, is_ex, is_tapless, timing } => {
            let again = written.contains(start);
            slide_head(again, start) + slide_mods(
                again,
                is_tapless && !stars.contains(start),
                is_break,
                is_ex,
            ) + pattern_out(pattern, reflect, end) + one_based(end) + timing_text(timing)
        },
        _ => seq![],
    }
}

/// A `/` before every written note but the first.
pub open spec fn sep(count: nat) -> Seq<char> {
    text_if(count > 0, "/"@)
}

/// The buttons that start slides among `notes`.
pub open spec fn slide_starts(notes: Seq<ExportView>) -> Seq<u8>
    decreases notes.len(),
{
    if notes.len() == 0 {
        seq![]
    } else {
        match notes.last() {
            ExportView::Slide { start, .. } => slide_starts(notes.drop_last()).push(start),
            _ => slide_starts(notes.drop_last()),
        }
    }
}

/// Output so far, the number of notes written, and a list of buttons.
pub struct Rendered {
    pub out: Seq<char>,
    pub count: nat,
    pub buttons: Seq<u8>,
}

/// The taps, after `count` notes: a star tap whose button starts a slide
/// here is left to that slide (and its button listed); the others are written.
pub open spec fn render_taps(notes: Seq<ExportView>, starts: Seq<u8>, count: nat) -> Rendered
    decreases notes.len(),
{
    if notes.len() == 0 {
        Rendered { out: seq![], count, buttons: seq![] }
    } else {
        let r = render_taps(notes.drop_last(), starts, count);
        match notes.last() {
            ExportView::Tap { button, is_break, is_ex, is_star } => {
                if is_star && starts.contains(button) {
                    Rendered { buttons: r.buttons.push(button), ..r }
                } else {
                    Rendered {
                        out: r.out + sep(r.count) + tap_text(button, is_break, is_ex, is_star),
                        count: r.count + 1,
                        buttons: r.buttons,
                    }
                }
            },
            _ => r,
        }
    }
}

/// The holds, after `count` notes.
pub open spec fn render_holds(notes: Seq<ExportView>, count: nat) -> Rendered
    decreases notes.len(),
{
    if notes.len() == 0 {
        Rendered { out: seq![], count, buttons: seq![] }
    } else {
        let r = render_holds(notes.drop_last(), count);
        match notes.last() {
            ExportView::Hold { button, is_ex, den, num } => Rendered {
                out: r.out + sep(r.count) + hold_text(button, is_ex, den, num),
                count: r.count + 1,
                buttons: r.buttons,
            },
            _ => r,
        }
    }
}

/// The touch taps, after `count` notes.
pub open spec fn render_touch_taps(notes: Seq<ExportView>, count: nat) -> Rendered
    decreases notes.len(),
{
    if notes.len() == 0 {
        Rendered { out: seq![], count, buttons: seq![] }
    } else {
        let r = render_touch_taps(notes.drop_last(), count);
        match notes.last() {
            ExportView::TouchTap { region, position, is_firework } => Rendered {
                out: r.out + sep(r.count) + touch_tap_text(region, position, is_firework),
                count: r.count + 1,
                buttons: r.buttons,
            },
            _ => r,
        }
    }
}

/// The touch holds, after `count` notes.
pub open spec fn render_touch_holds(notes: Seq<ExportView>, count: nat) -> Rendered
    decreases notes.len(),
{
    if notes.len() == 0 {
        Rendered { out: seq![], count, buttons: seq![] }
    } else {
        let r = render_touch_holds(notes.drop_last(), count);
        match notes.last() {
            ExportView::TouchHold { region, position, is_firework, den, num } => Rendered {
                out: r.out + sep(r.count) + touch_hold_text(region, position, is_firework, den, num),
                count: r.count + 1,
                buttons: r.buttons,
            },
            _ => r,
        }
    }
}

/// The slides, after `count` notes, given the buttons whose star taps were
/// left to them. A slide from a start already written continues it with `*`
/// and no `/`; `buttons` lists the starts written.
pub open spec fn render_slides(notes: Seq<ExportView>, stars: Seq<u8>, count: nat) -> Rendered
    decreases notes.len(),
{
    if notes.len() == 0 {
        Rendered { out: seq![], count, buttons: seq![] }
    } else {
        let r = render_slides(notes.drop_last(), stars, count);
        match notes.last() {
            ExportView::Slide { start, .. } => {
                let again = r.buttons.contains(start);
                Rendered {
                    out: r.out + text_if(r.count > 0 && !again, "/"@) + slide_text(
                        notes.last(),
                        r.buttons,
                        stars,
                    ),
                    count: r.count + 1,
                    buttons: if again {
                        r.buttons
                    } else {
                        r.buttons.push(start)
                    },
                }
            },
            _ => r,
        }
    }
}

/// The fragment for one measure position: the BPM change, if any, then the
/// taps, holds, touch taps, touch holds and slides, with `/` between notes.
pub open spec fn spec_render_fragment(notes: Seq<ExportView>, bpm: Option<Seq<char>>) -> Seq<char> {
    let prefix = match bpm {
        Some(b) => "("@ + b + ")"@,
        None => seq![],
    };
    let taps = render_taps(notes, slide_starts(notes), 0);
    let holds = render_holds(notes, taps.count);
    let touch_taps = render_touch_taps(notes, holds.count);
    let touch_holds = render_touch_holds(notes, touch_taps.count);
    let slides = render_slides(notes, taps.buttons, touch_holds.count);
    prefix + taps.out + holds.out + touch_taps.out + touch_holds.out + slides.out
}

/// Every number that is written one-based fits in a `u8` after adding one.
pub open spec fn renderable(n: ExportView) -> bool {
    match n {
        ExportView::Tap { button, .. } => button < 255,
        ExportView::Hold { button, .. } => button < 255,
        ExportView::TouchTap { region, position, .. } => region != 'C' ==> position < 255,
        ExportView::TouchHold { region, position, .. } => region != 'C' ==> position < 255,
        ExportView::Slide { start, end, pattern, reflect, .. } => {
            &&& start < 255
            &&& end < 255
            &&& (pattern == SlidePattern::BigV ==> match reflect {
                Some(r) => r < 255,
                None => true,
            })
        },
    }
}


fn push_one_based(out: &mut String, v: u8)
    requires
        v < 255,
    ensures
        final(out)@ == old(out)@ + one_based(v),
{
    push_decimal(out, v as u64 + 1);
}

fn push_when(out: &mut String, b: bool, s: &str)
    ensures
        final(out)@ == old(out)@ + text_if(b, s@),
{
    if b {
        push_str(out, s);
    } else {
        assert(out@ =~= out@ + seq![]);
    }
}

fn push_fraction(out: &mut String, den: u32, num: u32)
    ensures
        final(out)@ == old(out)@ + fraction_text(den, num),
{
    let ghost o = out@;
    push_str(out, "[");
    push_decimal(out, den as u64);
    push_str(out, ":");
    push_decimal(out, num as u64);
    push_str(out, "]");
    assert(out@ =~= o + fraction_text(den, num));
}

fn push_tap(out: &mut String, button: u8, is_break: bool, is_ex: bool, is_star: bool)
    requires
        button < 255,
    ensures
        final(out)@ == old(out)@ + tap_text(button, is_break, is_ex, is_star),
{
    let ghost o = out@;
    push_one_based(out, button);
    push_when(out, is_break, "b");
    push_when(out, is_ex, "x");
    push_when(out, is_star, "$");
    assert(out@ =~= o + tap_text(button, is_break, is_ex, is_star));
}

fn push_hold(out: &mut String, button: u8, is_ex: bool, den: u32, num: u32)
    requires
        button < 255,
    ensures
        final(out)@ == old(out)@ + hold_text(button, is_ex, den, num),
{
    let ghost o = out@;
    push_one_based(out, button);
    if is_ex {
        push_str(out, "hx");
    } else {
        push_str(out, "h");
    }
    push_fraction(out, den, num);
    assert(out@ =~= o + hold_text(button, is_ex, den, num));
}

fn push_touch_tap(out: &mut String, region: char, position: u8, is_firework: bool)
    requires
        region != 'C' ==> position < 255,
    ensures
        final(out)@ == old(out)@ + touch_tap_text(region, position, is_firework),
{
    let ghost o = out@;
    if region == 'C' {
        push_str(out, "C");
        push_when(out, is_firework, "f");
    } else {
        out.push(region);
        push_one_based(out, position);
        push_when(out, is_firework, "f");
    }
    assert(out@ =~= o + touch_tap_text(region, position, is_firework));
}

fn push_touch_hold(out: &mut String, region: char, position: u8, is_firework: bool, den: u32, num: u32)
    requires
        region != 'C' ==> position < 255,
    ensures
        final(out)@ == old(out)@ + touch_hold_text(region, position, is_firework, den, num),
{
    let ghost o = out@;
    if region == 'C' {
        push_str(out, "C");
    } else {
        out.push(region);
        push_one_based(out, position);
    }
    if is_firework {
        push_str(out, "hf");
    } else {
        push_str(out, "h");
    }
    push_fraction(out, den, num);
    assert(out@ =~= o + touch_hold_text(region, position, is_firework, den, num));
}

fn contains_u8(v: &Vec<u8>, x: u8) -> (r: bool)
    ensures
        r == v@.contains(x),
{
    let mut k: usize = 0;
    while k < v.len()
        invariant
            k <= v@.len(),
            forall|j: int| 0 <= j < k ==> v@[j] != x,
        decreases v@.len() - k,
    {
        if v[k] == x {
            return true;
        }
        k = k + 1;
    }
    false
}

fn push_sep(out: &mut String, any: bool)
    ensures
        final(out)@ == old(out)@ + text_if(any, "/"@),
{
    proof {
        reveal_strlit("/");
    }
    if any {
        out.push('/');
        assert(out@ =~= old(out)@ + "/"@);
    } else {
        assert(out@ =~= out@ + seq![]);
    }
}

fn push_head_mods(out: &mut String, again: bool, start: u8, tapless_head: bool, is_break: bool, is_ex: bool)
    requires
        start < 255,
    ensures
        final(out)@ == old(out)@ + slide_head(again, start) + slide_mods(
            again,
            tapless_head,
            is_break,
            is_ex,
        ),
{
    let ghost o = out@;
    if again {
        push_str(out, "*");
        assert(out@ =~= o + slide_head(again, start) + seq![]);
    } else {
        push_one_based(out, start);
        let ghost h = out@;
        if tapless_head {
            push_str(out, "?");
        } else if is_break {
            push_str(out, "b");
        } else if is_ex {
            push_str(out, "x");
        } else {
            assert(out@ =~= h + seq![]);
        }
    }
}

fn push_pattern(out: &mut String, pattern: SlidePattern, reflect: Option<u8>, end: u8)
    requires
        end < 255,
        pattern == SlidePattern::BigV ==> match reflect {
            Some(r) => r < 255,
            None => true,
        },
    ensures
        final(out)@ == old(out)@ + pattern_out(pattern, reflect, end),
{
    let ghost o = out@;
    if pattern == SlidePattern::BigV {
        push_str(out, "V");
        let r = match reflect {
            Some(r) => r,
            None => end,
        };
        push_one_based(out, r);
        assert(out@ =~= o + pattern_out(pattern, reflect, end));
    } else {
        push_str(out, pattern.as_str());
    }
}

fn push_timing(out: &mut String, timing: &SlideTiming)
    ensures
        final(out)@ == old(out)@ + timing_text(timing@),
{
    match timing {
        SlideTiming::Plain { den, num } => {
            push_fraction(out, *den, *num);
        },
        SlideTiming::Scaled { bpm, den, num } => {
            let ghost t0 = out@;
            push_str(out, "[");
            push_str(out, bpm.as_str());
            push_str(out, "#");
            push_decimal(out, *den as u64);
            push_str(out, ":");
            push_decimal(out, *num as u64);
            push_str(out, "]");
            assert(out@ =~= t0 + timing_text(timing@));
        },
    }
}

fn push_slide(out: &mut String, n: &ExportNote, written: &Vec<u8>, stars: &Vec<u8>)
    requires
        n@ is Slide,
        renderable(n@),
    ensures
        final(out)@ == old(out)@ + slide_text(n@, written@, stars@),
{
    let ghost o = out@;
    match n {
        ExportNote::Slide { start, end, pattern, reflect, is_break, is_ex, is_tapless, timing } => {
            let again = contains_u8(written, *start);
            let tapless_head = *is_tapless && !contains_u8(stars, *start);
            push_head_mods(out, again, *start, tapless_head, *is_break, *is_ex);
            let ghost a = out@;
            push_pattern(out, *pattern, *reflect, *end);
            push_one_based(out, *end);
            push_timing(out, timing);
            assert(out@ =~= o + slide_text(n@, written@, stars@));
        },
        _ => {},
    }
}

/// The buttons that start slides among `notes`.
fn starts_of(notes: &[ExportNote]) -> (r: Vec<u8>)
    ensures
        r@ == slide_starts(notes_view(notes@)),
{
    let mut r: Vec<u8> = Vec::new();
    let mut k: usize = 0;
    assert(notes_view(notes@).take(0) =~= seq![]);
    while k < notes.len()
        invariant
            k <= notes@.len(),
            r@ == slide_starts(notes_view(notes@).take(k as int)),
        decreases notes@.len() - k,
    {
        proof {
            let nv = notes_view(notes@);
            assert(nv.take(k + 1).drop_last() =~= nv.take(k as int));
            assert(nv.take(k + 1).last() == notes@[k as int]@);
        }
        match &notes[k] {
            ExportNote::Slide { start, .. } => {
                r.push(*start);
            },
            _ => {},
        }
        k = k + 1;
    }
    assert(notes_view(notes@).take(k as int) =~= notes_view(notes@));
    r
}

/// Render every event at a single measure into a Simai fragment: the BPM
/// change (its value already written as text), then taps, holds, touch taps,
/// touch holds and slides, separated by `/`.
#[verifier::spinoff_prover]
#[verifier::rlimit(30)]
pub fn render_fragment(notes: &[ExportNote], bpm: Option<&str>) -> (r: String)
    requires
        forall|k: int| 0 <= k < notes@.len() ==> renderable(#[trigger] notes@[k]@),
    ensures
        r@ == spec_render_fragment(
            notes_view(notes@),
            match bpm {
                Some(b) => Some(b@),
                None => None,
            },
        ),
{
    let ghost nv = notes_view(notes@);
    let mut out = String::new();
    match bpm {
        Some(b) => {
            push_str(&mut out, "(");
            push_str(&mut out, b);
            push_str(&mut out, ")");
        },
        None => {},
    }
    let ghost prefix = out@;
    let starts = starts_of(notes);
    // Taps.
    let mut any = false;
    let mut stars: Vec<u8> = Vec::new();
    let mut k: usize = 0;
    assert(nv.take(0) =~= seq![]);
    assert(out@ =~= prefix + seq![]);
    while k < notes.len()
        invariant
            k <= notes@.len(),
            nv == notes_view(notes@),
            starts@ == slide_starts(nv),
            forall|j: int| 0 <= j < notes@.len() ==> renderable(#[trigger] notes@[j]@),
            ({
                let r = render_taps(nv.take(k as int), starts@, 0);
                out@ == prefix + r.out && any == (r.count > 0) && stars@ == r.buttons
            }),
        decreases notes@.len() - k,
    {
        proof {
            assert(nv.take(k + 1).drop_last() =~= nv.take(k as int));
            assert(nv.take(k + 1).last() == notes@[k as int]@);
            assert(renderable(notes@[k as int]@));
        }
        match &notes[k] {
            ExportNote::Tap { button, is_break, is_ex, is_star } => {
                if *is_star && contains_u8(&starts, *button) {
                    stars.push(*button);
                } else {
                    push_sep(&mut out, any);
                    push_tap(&mut out, *button, *is_break, *is_ex, *is_star);
                    any = true;
                }
            },
            _ => {},
        }
        k = k + 1;
    }
    assert(nv.take(k as int) =~= nv);
    let ghost taps = render_taps(nv, starts@, 0);
    assert(out@ == prefix + taps.out);
    // Holds.
    let ghost base = out@;
    let ghost c0 = taps.count;
    let mut k: usize = 0;
    assert(out@ =~= base + seq![]);
    while k < notes.len()
        invariant
            k <= notes@.len(),
            nv == notes_view(notes@),
            forall|j: int| 0 <= j < notes@.len() ==> renderable(#[trigger] notes@[j]@),
            ({
                let r = render_holds(nv.take(k as int), c0);
                out@ == base + r.out && any == (r.count > 0)
            }),
        decreases notes@.len() - k,
    {
        proof {
            assert(nv.take(k + 1).drop_last() =~= nv.take(k as int));
            assert(nv.take(k + 1).last() == notes@[k as int]@);
            assert(renderable(notes@[k as int]@));
        }
        match &notes[k] {
            ExportNote::Hold { button, is_ex, den, num } => {
                push_sep(&mut out, any);
                push_hold(&mut out, *button, *is_ex, *den, *num);
                any = true;
            },
            _ => {},
        }
        k = k + 1;
    }
    assert(nv.take(k as int) =~= nv);
    let ghost holds = render_holds(nv, c0);
    let ghost base2 = out@;
    let ghost c1 = render_holds(nv, c0).count;
    // Touch taps.
    let mut k: usize = 0;
    assert(out@ =~= base2 + seq![]);
    while k < notes.len()
        invariant
            k <= notes@.len(),
            nv == notes_view(notes@),
            forall|j: int| 0 <= j < notes@.len() ==> renderable(#[trigger] notes@[j]@),
            ({
                let r = render_touch_taps(nv.take(k as int), c1);
                out@ == base2 + r.out && any == (r.count > 0)
            }),
        decreases notes@.len() - k,
    {
        proof {
            assert(nv.take(k + 1).drop_last() =~= nv.take(k as int));
            assert(nv.take(k + 1).last() == notes@[k as int]@);
            assert(renderable(notes@[k as int]@));
        }
        match &notes[k] {
            ExportNote::TouchTap { region, position, is_firework } => {
                push_sep(&mut out, any);
                push_touch_tap(&mut out, *region, *position, *is_firework);
                any = true;
            },
            _ => {},
        }
        k = k + 1;
    }
    assert(nv.take(k as int) =~= nv);
    let ghost base3 = out@;
    let ghost c2 = render_touch_taps(nv, c1).count;
    // Touch holds.
    let mut k: usize = 0;
    assert(out@ =~= base3 + seq![]);
    while k < notes.len()
        invariant
            k <= notes@.len(),
            nv == notes_view(notes@),
            forall|j: int| 0 <= j < notes@.len() ==> renderable(#[trigger] notes@[j]@),
            ({
                let r = render_touch_holds(nv.take(k as int), c2);
                out@ == base3 + r.out && any == (r.count > 0)
            }),
        decreases notes@.len() - k,
    {
        proof {
            assert(nv.take(k + 1).drop_last() =~= nv.take(k as int));
            assert(nv.take(k + 1).last() == notes@[k as int]@);
            assert(renderable(notes@[k as int]@));
        }
        match &notes[k] {
            ExportNote::TouchHold { region, position, is_firework, den, num } => {
                push_sep(&mut out, any);
                push_touch_hold(&mut out, *region, *position, *is_firework, *den, *num);
                any = true;
            },
            _ => {},
        }
        k = k + 1;
    }
    assert(nv.take(k as int) =~= nv);
    let ghost base4 = out@;
    let ghost c3 = render_touch_holds(nv, c2).count;
    // Slides.
    let mut written: Vec<u8> = Vec::new();
    let mut k: usize = 0;
    assert(out@ =~= base4 + seq![]);
    while k < notes.len()
        invariant
            k <= notes@.len(),
            nv == notes_view(notes@),
            forall|j: int| 0 <= j < notes@.len() ==> renderable(#[trigger] notes@[j]@),
            stars@ == taps.buttons,
            ({
                let r = render_slides(nv.take(k as int), stars@, c3);
                out@ == base4 + r.out && any == (r.count > 0) && written@ == r.buttons
            }),
        decreases notes@.len() - k,
    {
        proof {
            assert(nv.take(k + 1).drop_last() =~= nv.take(k as int));
            assert(nv.take(k + 1).last() == notes@[k as int]@);
            assert(renderable(notes@[k as int]@));
        }
        match &notes[k] {
            ExportNote::Slide { start, .. } => {
                let again = contains_u8(&written, *start);
                push_sep(&mut out, any && !again);
                push_slide(&mut out, &notes[k], &written, &stars);
                any = true;
                if !again {
                    written.push(*start);
                }
            },
            _ => {},
        }
        k = k + 1;
    }
    assert(nv.take(k as int) =~= nv);
    assert(out@ =~= spec_render_fragment(
        nv,
        match bpm {
            Some(b) => Some(b@),
            None => None,
        },
    ));
    out
}


/// `n` commas.
pub open spec fn commas(n: nat) -> Seq<char> {
    Seq::new(n, |_k: int| ',')
}

/// Joins the fragments of a chart: the text so far, the divisor last
/// written, and the whole measure at which it was written.
pub struct ChartWriter {
    pub out: String,
    pub prev_div: Option<u32>,
    pub prev_measure_int: i64,
}

/// The mathematical content of a [`ChartWriter`].
pub struct WriterView {
    pub out: Seq<char>,
    pub prev_div: Option<u32>,
    pub prev_measure_int: i64,
}

impl View for ChartWriter {
    type V = WriterView;

    open spec fn view(&self) -> WriterView {
        WriterView { out: self.out@, prev_div: self.prev_div, prev_measure_int: self.prev_measure_int }
    }
}

/// The writer after one measure position: its fragment (after a `{div}`
/// header, on a new line, when the divisor changes or a new whole measure has
/// begun), `rest` commas, then, when `whole` is positive, `{1}` (unless the
/// divisor is already 1) and `whole` commas.
pub open spec fn spec_emit(
    w: WriterView,
    frag: Seq<char>,
    cur_div: u32,
    tick_floor: i64,
    rest: i32,
    whole: i32,
) -> WriterView {
    let header = w.prev_div != Some(cur_div) || tick_floor > w.prev_measure_int;
    let out1 = if header {
        w.out + text_if(w.out.len() > 0, "\n"@) + "{"@ + decimal(cur_div as nat) + "}"@ + frag
    } else {
        w.out + frag
    };
    let div1 = if header {
        Some(cur_div)
    } else {
        w.prev_div
    };
    let measure1 = if header {
        tick_floor
    } else {
        w.prev_measure_int
    };
    let out2 = out1 + commas(
        if rest > 0 {
            rest as nat
        } else {
            0
        },
    );
    if whole > 0 {
        if cur_div != 1 {
            WriterView {
                out: out2 + "{1}"@ + commas(whole as nat),
                prev_div: Some(1),
                prev_measure_int: measure1,
            }
        } else {
            WriterView { out: out2 + commas(whole as nat), prev_div: div1, prev_measure_int: measure1 }
        }
    } else {
        WriterView { out: out2, prev_div: div1, prev_measure_int: measure1 }
    }
}

fn push_commas(out: &mut String, n: i32)
    ensures
        final(out)@ == old(out)@ + commas(
            if n > 0 {
                n as nat
            } else {
                0
            },
        ),
{
    let ghost o = out@;
    let mut k: i32 = 0;
    while k < n
        invariant
            0 <= k,
            n > 0 ==> k <= n,
            n <= 0 ==> k == 0,
            out@ == o + commas(k as nat),
        decreases n - k,
    {
        out.push(',');
        assert(out@ =~= o + commas((k + 1) as nat));
        k = k + 1;
    }
    assert(out@ =~= o + commas(
        if n > 0 {
            n as nat
        } else {
            0
        },
    ));
}

impl ChartWriter {
    /// A writer with nothing written.
    pub fn new() -> (w: ChartWriter)
        ensures
            w@ == (WriterView { out: seq![], prev_div: None, prev_measure_int: 0 }),
    {
        ChartWriter { out: String::new(), prev_div: None, prev_measure_int: 0 }
    }

    /// Writes the fragment of one measure position and the rests after it.
    pub fn emit(&mut self, frag: &str, cur_div: u32, tick_floor: i64, rest: i32, whole: i32)
        ensures
            final(self)@ == spec_emit(old(self)@, frag@, cur_div, tick_floor, rest, whole),
    {
        let ghost w = self@;
        let header = self.prev_div != Some(cur_div) || tick_floor > self.prev_measure_int;
        if header {
            let ghost o = self.out@;
            if !self.out.as_str().is_empty() {
                push_str(&mut self.out, "\n");
            } else {
                assert(self.out@ =~= o + seq![]);
            }
            push_str(&mut self.out, "{");
            push_decimal(&mut self.out, cur_div as u64);
            push_str(&mut self.out, "}");
            push_str(&mut self.out, frag);
            self.prev_div = Some(cur_div);
            self.prev_measure_int = tick_floor;
        } else {
            push_str(&mut self.out, frag);
        }
        push_commas(&mut self.out, rest);
        if whole > 0 {
            if cur_div != 1 {
                push_str(&mut self.out, "{1}");
                self.prev_div = Some(1);
            }
            push_commas(&mut self.out, whole);
        }
    }

    /// The chart text: what was written, then `,`, a newline, `E` and a newline.
    pub fn finish(self) -> (s: String)
        ensures
            s@ == self@.out + ",\nE\n"@,
    {
        let mut out = self.out;
        push_str(&mut out, ",\nE\n");
        out
    }
}

/// How many times `c` occurs in `s`.
pub open spec fn count_char(s: Seq<char>, c: char) -> nat
    decreases s.len(),
{
    if s.len() == 0 {
        0
    } else {
        count_char(s.drop_last(), c) + if s.last() == c {
            1nat
        } else {
            0nat
        }
    }
}

proof fn lemma_count_concat(x: Seq<char>, y: Seq<char>, c: char)
    ensures
        count_char(x + y, c) == count_char(x, c) + count_char(y, c),
    decreases y.len(),
{
    if y.len() == 0 {
        assert(x + y =~= x);
    } else {
        lemma_count_concat(x, y.drop_last(), c);
        assert((x + y).drop_last() =~= x + y.drop_last());
        assert((x + y).last() == y.last());
    }
}

proof fn lemma_count_absent(s: Seq<char>, c: char)
    requires
        forall|k: int| 0 <= k < s.len() ==> s[k] != c,
    ensures
        count_char(s, c) == 0,
    decreases s.len(),
{
    if s.len() > 0 {
        lemma_count_absent(s.drop_last(), c);
        assert(s.last() == s[s.len() - 1]);
    }
}

proof fn lemma_count_commas(n: nat)
    ensures
        count_char(commas(n), ',') == n,
    decreases n,
{
    if n > 0 {
        lemma_count_commas((n - 1) as nat);
        assert(commas(n).drop_last() =~= commas((n - 1) as nat));
    }
}

proof fn lemma_count_decimal(n: nat)
    ensures
        count_char(decimal(n), ',') == 0,
    decreases n,
{
    if n < 10 {
        assert(decimal(n) == seq![digit_char(n)]);
        assert(digit_char(n) != ',');
        lemma_count_absent(decimal(n), ',');
    } else {
        lemma_count_decimal(n / 10);
        assert(digit_char(n % 10) != ',');
        assert(decimal(n).drop_last() =~= decimal(n / 10));
    }
}

/// What `emit` writes comes after what was written before, and holds one
/// `,` for each comma of the fragment, each rest step and each whole
/// measure, whatever the divisor; a positive count of whole measures ends it.
pub proof fn lemma_emit_steps(
    w: WriterView,
    frag: Seq<char>,
    cur_div: u32,
    tick_floor: i64,
    rest: i32,
    whole: i32,
)
    ensures
        ({
            let out = spec_emit(w, frag, cur_div, tick_floor, rest, whole).out;
            &&& w.out.len() <= out.len()
            &&& out.subrange(0, w.out.len() as int) == w.out
            &&& count_char(out, ',') == count_char(w.out, ',') + count_char(frag, ',') + (if rest > 0 {
                rest as nat
            } else {
                0nat
            }) + (if whole > 0 {
                whole as nat
            } else {
                0nat
            })
            &&& whole > 0 ==> out.subrange(out.len() - whole, out.len() as int) == commas(whole as nat)
        }),
{
    let header = w.prev_div != Some(cur_div) || tick_floor > w.prev_measure_int;
    let nl = text_if(w.out.len() > 0, "\n"@);
    let dec = decimal(cur_div as nat);
    reveal_strlit("\n");
    reveal_strlit("{");
    reveal_strlit("}");
    reveal_strlit("{1}");
    lemma_count_decimal(cur_div as nat);
    let added1 = if header {
        nl + "{"@ + dec + "}"@ + frag
    } else {
        frag
    };
    let out1 = w.out + added1;
    assert(out1 == if header {
        w.out + nl + "{"@ + dec + "}"@ + frag
    } else {
        w.out + frag
    }) by {
        if header {
            assert(w.out + added1 =~= w.out + nl + "{"@ + dec + "}"@ + frag);
        }
    }
    if header {
        lemma_count_absent(nl, ',');
        lemma_count_absent("{"@, ',');
        lemma_count_absent("}"@, ',');
        lemma_count_concat(nl, "{"@, ',');
        lemma_count_concat(nl + "{"@, dec, ',');
        lemma_count_concat(nl + "{"@ + dec, "}"@, ',');
        lemma_count_concat(nl + "{"@ + dec + "}"@, frag, ',');
    }
    assert(count_char(added1, ',') == count_char(frag, ','));
    lemma_count_concat(w.out, added1, ',');
    let r: nat = if rest > 0 {
        rest as nat
    } else {
        0
    };
    let out2 = out1 + commas(r);
    lemma_count_commas(r);
    lemma_count_concat(out1, commas(r), ',');
    if whole > 0 {
        lemma_count_commas(whole as nat);
        if cur_div != 1 {
            let one = "{1}"@;
            lemma_count_absent(one, ',');
            lemma_count_concat(out2, one, ',');
            lemma_count_concat(out2 + one, commas(whole as nat), ',');
            let out = out2 + one + commas(whole as nat);
            assert(out.subrange(0, w.out.len() as int) =~= w.out);
            assert(out.subrange(out.len() - whole, out.len() as int) =~= commas(whole as nat));
        } else {
            lemma_count_concat(out2, commas(whole as nat), ',');
            let out = out2 + commas(whole as nat);
            assert(out.subrange(0, w.out.len() as int) =~= w.out);
            assert(out.subrange(out.len() - whole, out.len() as int) =~= commas(whole as nat));
        }
    } else {
        assert(out2.subrange(0, w.out.len() as int) =~= w.out);
    }
}

} // verus!
