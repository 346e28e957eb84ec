//! The syntax of one `,`-separated chart fragment: BPM and divisor
//! directives, taps, holds, slides (with chains) and touch notes, in the
//! order in which they are written.
//!
//! Each note carries the number of pseudo-simultaneous steps (`` ` ``) that
//! shift it from the fragment's beat, and every duration block is returned as
//! the positions of its parts. Turning those numbers into times is left to the
//! caller, which also evaluates each `Check` block in order (a block that the
//! chart reads only to see whether it is well formed).

use vstd::prelude::*;
use vstd::string::*;
use crate::error::{ErrorView, ParseError};
use crate::lexer::{
    DurationBlock, SlideArc, block_in_bounds, contains_byte, has_modifier, first_byte_in, first_in,
    find_close, is_digit_byte, lemma_duration_block_bounds, lemma_first_in_bounds,
    is_modifier, lemma_modifier_end, lemma_read_slide_arc_advances, modifier_end, read_duration_block, read_modifiers, read_slide_arc,
    spec_duration_block, spec_find_close, spec_read_slide_arc,
};
use crate::pattern::{is_slide_pattern_char, spec_is_slide_pattern_char};

verus! {

/// One note as written in a fragment.
#[derive(Debug, Clone, PartialEq)]
pub enum NoteSyntax {
    Tap { button: u8, is_break: bool, is_ex: bool, is_star: bool },
    Hold { button: u8, is_ex: bool, duration: Option<DurationBlock> },
    Slide {
        start: u8,
        first: SlideArc,
        /// Chained arcs after the first.
        chain: Vec<SlideArc>,
        is_break: bool,
        is_ex: bool,
        /// Slide had no companion star (modifier `?`/`!`/`$`).
        is_tapless: bool,
        duration: Option<DurationBlock>,
    },
    TouchTap { region: char, position: u8, is_firework: bool },
    TouchHold { region: char, position: u8, is_firework: bool, duration: Option<DurationBlock> },
}

/// What a fragment says, in order.
#[derive(Debug, Clone, PartialEq)]
pub enum Event {
    /// `(...)`: the BPM text lies between `open` and `close`.
    Bpm { open: usize, close: usize },
    /// `{...}`: the divisor text runs from after `open` to `main_end`
    /// (the first `#` inside the braces, or `close`).
    Divisor { open: usize, close: usize, main_end: usize },
    /// A note, shifted by `ticks` pseudo-simultaneous steps.
    Note { ticks: usize, note: NoteSyntax },
    /// A duration block that is read only to be checked.
    Check { block: DurationBlock },
}

/// The mathematical content of a [`NoteSyntax`].
pub enum NoteView {
    Tap { button: u8, is_break: bool, is_ex: bool, is_star: bool },
    Hold { button: u8, is_ex: bool, duration: Option<DurationBlock> },
    Slide {
        start: u8,
        first: SlideArc,
        chain: Seq<SlideArc>,
        is_break: bool,
        is_ex: bool,
        is_tapless: bool,
        duration: Option<DurationBlock>,
    },
    TouchTap { region: char, position: u8, is_firework: bool },
    TouchHold { region: char, position: u8, is_firework: bool, duration: Option<DurationBlock> },
}

/// The mathematical content of an [`Event`].
pub enum EventView {
    Bpm { open: usize, close: usize },
    Divisor { open: usize, close: usize, main_end: usize },
    Note { ticks: nat, note: NoteView },
    Check { block: DurationBlock },
}

impl View for NoteSyntax {
    type V = NoteView;

    open spec fn view(&self) -> NoteView {
        match self {
            NoteSyntax::Tap { button, is_break, is_ex, is_star } => NoteView::Tap {
                button: *button,
                is_break: *is_break,
                is_ex: *is_ex,
                is_star: *is_star,
            },
            NoteSyntax::Hold { button, is_ex, duration } => NoteView::Hold {
                button: *button,
                is_ex: *is_ex,
                duration: *duration,
            },
            NoteSyntax::Slide { start, first, chain, is_break, is_ex, is_tapless, duration } =>
                NoteView::Slide {
                start: *start,
                first: *first,
                chain: chain@,
                is_break: *is_break,
                is_ex: *is_ex,
                is_tapless: *is_tapless,
                duration: *duration,
            },
            NoteSyntax::TouchTap { region, position, is_firework } => NoteView::TouchTap {
                region: *region,
                position: *position,
                is_firework: *is_firework,
            },
            NoteSyntax::TouchHold { region, position, is_firework, duration } =>
                NoteView::TouchHold {
                region: *region,
                position: *position,
                is_firework: *is_firework,
                duration: *duration,
            },
        }
    }
}

impl View for Event {
    type V = EventView;

    open spec fn view(&self) -> EventView {
        match self {
            Event::Bpm { open, close } => EventView::Bpm { open: *open, close: *close },
            Event::Divisor { open, close, main_end } => EventView::Divisor {
                open: *open,
                close: *close,
                main_end: *main_end,
            },
            Event::Note { ticks, note } => EventView::Note { ticks: *ticks as nat, note: note@ },
            Event::Check { block } => EventView::Check { block: *block },
        }
    }
}

/// The views of a sequence of events.
pub open spec fn events_view(v: Seq<Event>) -> Seq<EventView> {
    v.map_values(|e: Event| e@)
}

proof fn lemma_events_view_push(v: Seq<Event>, e: Event)
    ensures
        events_view(v.push(e)) == events_view(v).push(e@),
{
    assert(events_view(v.push(e)) =~= events_view(v).push(e@));
}

/// The modifier run `b[lo..hi]` holds `c`.
pub open spec fn has_mod(b: Seq<u8>, lo: int, hi: int, c: u8) -> bool {
    b.subrange(lo, hi).contains(c)
}

/// What one construct of a fragment gives: the events it emits, then either
/// the index after it together with the buttons that have shown a star so far,
/// or the error that stops the fragment.
pub struct Step {
    pub events: Seq<EventView>,
    pub outcome: Result<(int, Seq<u8>), ErrorView>,
}

/// The touch position that a digit byte names (`1`..`8` name 0..7; `0` and
/// `9` name 0).
pub open spec fn touch_position(c: u8) -> u8 {
    if c < 49 {
        0
    } else {
        ((c - 49) % 8) as u8
    }
}

/// A touch note whose region letter is at `i`. The hold modifier `h` or the
/// firework modifier `f` makes it a touch hold (`Cf` is a firework touch
/// hold); without either it is a touch tap.
pub open spec fn spec_touch_note(b: Seq<u8>, i: int, ticks: nat, stars: Seq<u8>) -> Step {
    let region = b[i] as char;
    let j = i + 1;
    let has_pos = j < b.len() && is_digit_byte(b[j]);
    let position: u8 = if has_pos {
        touch_position(b[j])
    } else {
        0
    };
    let k = if has_pos {
        j + 1
    } else {
        j
    };
    let m = modifier_end(b, k);
    let is_firework = has_mod(b, k, m, 102);
    let is_hold = has_mod(b, k, m, 104) || is_firework;
    if is_hold {
        if m < b.len() && b[m] == 91 {
            match spec_duration_block(b, m) {
                Err(e) => Step { events: seq![], outcome: Err(e) },
                Ok((blk, n)) => Step {
                    events: seq![
                        EventView::Note {
                            ticks,
                            note: NoteView::TouchHold {
                                region,
                                position,
                                is_firework,
                                duration: Some(blk),
                            },
                        },
                    ],
                    outcome: Ok((n, stars)),
                },
            }
        } else {
            Step {
                events: seq![
                    EventView::Note {
                        ticks,
                        note: NoteView::TouchHold { region, position, is_firework, duration: None },
                    },
                ],
                outcome: Ok((m, stars)),
            }
        }
    } else {
        Step {
            events: seq![
                EventView::Note {
                    ticks,
                    note: NoteView::TouchTap { region, position, is_firework },
                },
            ],
            outcome: Ok((m, stars)),
        }
    }
}

/// The chained arcs of a slide, starting at `i`: the blocks checked on the
/// way, the arcs, where the chain stops, the accumulated break and ex flags,
/// and the error if one stops it.
pub struct ChainOut {
    pub checks: Seq<EventView>,
    pub arcs: Seq<SlideArc>,
    pub next: int,
    pub is_break: bool,
    pub is_ex: bool,
    pub error: Option<ErrorView>,
}

/// The chain ends at `i`.
pub open spec fn chain_done(i: int, is_break: bool, is_ex: bool) -> ChainOut {
    ChainOut { checks: seq![], arcs: seq![], next: i, is_break, is_ex, error: None }
}

/// An arc, and the blocks checked before it, in front of the rest of a chain.
pub open spec fn chain_prepend(checks: Seq<EventView>, arcs: Seq<SlideArc>, rest: ChainOut) -> ChainOut {
    ChainOut {
        checks: checks + rest.checks,
        arcs: arcs + rest.arcs,
        next: rest.next,
        is_break: rest.is_break,
        is_ex: rest.is_ex,
        error: rest.error,
    }
}

/// After a duration block that ends before `n`, the chain goes on when `n`
/// holds a `*` or a pattern character.
pub open spec fn chain_continues_at(b: Seq<u8>, n: int) -> bool {
    n < b.len() && (b[n] == 42 || spec_is_slide_pattern_char(b[n] as char))
}

/// Before the arc at `i`: a duration block that more arcs follow is checked
/// and skipped (giving the check and where the arc starts); a block that no
/// arc follows ends the chain (`None`).
pub open spec fn chain_pre(b: Seq<u8>, i: int) -> Result<Option<(Seq<EventView>, int)>, ErrorView> {
    if b[i] == 91 {
        match spec_duration_block(b, i) {
            Err(e) => Err(e),
            Ok((blk, n)) => if chain_continues_at(b, n) {
                Ok(Some((seq![EventView::Check { block: blk }], n)))
            } else {
                Ok(None)
            },
        }
    } else {
        Ok(Some((seq![], i)))
    }
}

/// Where the pattern of a chained arc written at `s` starts: after `*` and
/// its modifiers, or at `s` itself for a pattern character; `None` when `s`
/// holds neither.
pub open spec fn chain_arc_start(b: Seq<u8>, s: int) -> Option<int> {
    if !(0 <= s < b.len()) {
        None
    } else if b[s] == 42 {
        Some(modifier_end(b, s + 1))
    } else if spec_is_slide_pattern_char(b[s] as char) {
        Some(s)
    } else {
        None
    }
}

/// The chained arcs that follow a slide's first arc, from `i`.
#[verifier::opaque]
pub open spec fn spec_chain(b: Seq<u8>, i: int, is_break: bool, is_ex: bool) -> ChainOut
    decreases b.len() - i,
{
    if i < 0 || i >= b.len() {
        chain_done(i, is_break, is_ex)
    } else {
        match chain_pre(b, i) {
            Err(e) => ChainOut {
                checks: seq![],
                arcs: seq![],
                next: i,
                is_break,
                is_ex,
                error: Some(e),
            },
            Ok(None) => chain_done(i, is_break, is_ex),
            Ok(Some((checks, s))) => match chain_arc_start(b, s) {
                None => chain_done(i, is_break, is_ex),
                Some(k) => match spec_read_slide_arc(b, k) {
                    Err(e) => ChainOut {
                        checks,
                        arcs: seq![],
                        next: i,
                        is_break,
                        is_ex,
                        error: Some(e),
                    },
                    Ok((arc, j)) => {
                        let m = modifier_end(b, j);
                        let brk = is_break || has_mod(b, j, m, 98);
                        let ex = is_ex || has_mod(b, j, m, 120);
                        if i < m <= b.len() {
                            chain_prepend(checks, seq![arc], spec_chain(b, m, brk, ex))
                        } else {
                            chain_done(i, is_break, is_ex)
                        }
                    },
                },
            },
        }
    }
}

/// The star tap that a slide's head adds when its button has no star yet.
pub open spec fn star_head(button: u8, ticks: nat, stars: Seq<u8>, is_break: bool, is_ex: bool, is_tapless: bool) -> (Seq<EventView>, Seq<u8>) {
    if !is_tapless && !stars.contains(button) {
        (
            seq![
                EventView::Note {
                    ticks,
                    note: NoteView::Tap { button, is_break, is_ex, is_star: true },
                },
            ],
            stars.push(button),
        )
    } else {
        (seq![], stars)
    }
}

/// The slide note itself.
pub open spec fn slide_event(
    ticks: nat,
    button: u8,
    first: SlideArc,
    chain: Seq<SlideArc>,
    is_break: bool,
    is_ex: bool,
    is_tapless: bool,
    duration: Option<DurationBlock>,
) -> EventView {
    EventView::Note {
        ticks,
        note: NoteView::Slide { start: button, first, chain, is_break, is_ex, is_tapless, duration },
    }
}

/// A slide after its first arc and that arc's modifiers, from `m`: the chain,
/// trailing modifiers and the shared duration block.
#[verifier::opaque]
pub open spec fn spec_slide_rest(
    b: Seq<u8>,
    m: int,
    button: u8,
    ticks: nat,
    first: SlideArc,
    is_break: bool,
    is_ex: bool,
    is_tapless: bool,
) -> (Seq<EventView>, Result<int, ErrorView>) {
    let ch = spec_chain(b, m, is_break, is_ex);
    match ch.error {
        Some(e) => (ch.checks, Err(e)),
        None => {
            let t = modifier_end(b, ch.next);
            let brk2 = ch.is_break || has_mod(b, ch.next, t, 98);
            let ex2 = ch.is_ex || has_mod(b, ch.next, t, 120);
            if t < b.len() && b[t] == 91 {
                match spec_duration_block(b, t) {
                    Err(e) => (ch.checks, Err(e)),
                    Ok((blk, n)) => (
                        ch.checks + seq![
                            slide_event(ticks, button, first, ch.arcs, brk2, ex2, is_tapless, Some(blk)),
                        ],
                        Ok(n),
                    ),
                }
            } else {
                (
                    ch.checks + seq![
                        slide_event(ticks, button, first, ch.arcs, brk2, ex2, is_tapless, None),
                    ],
                    Ok(t),
                )
            }
        },
    }
}

/// A slide from `button` whose first arc starts at `i`.
#[verifier::opaque]
pub open spec fn spec_slide_body(
    b: Seq<u8>,
    i: int,
    button: u8,
    ticks: nat,
    stars: Seq<u8>,
    is_break: bool,
    is_ex: bool,
    is_tapless: bool,
) -> Step {
    let (head, stars2) = star_head(button, ticks, stars, is_break, is_ex, is_tapless);
    match spec_read_slide_arc(b, i) {
        Err(e) => Step { events: head, outcome: Err(e) },
        Ok((first, j)) => {
            let m = modifier_end(b, j);
            let brk1 = is_break || has_mod(b, j, m, 98);
            let ex1 = is_ex || has_mod(b, j, m, 120);
            let (evs, out) = spec_slide_rest(b, m, button, ticks, first, brk1, ex1, is_tapless);
            Step {
                events: head + evs,
                outcome: match out {
                    Ok(n) => Ok((n, stars2)),
                    Err(e) => Err(e),
                },
            }
        },
    }
}

/// A note that starts with the button digit at `i`.
pub open spec fn spec_button_note(b: Seq<u8>, i: int, ticks: nat, stars: Seq<u8>) -> Step {
    let digit = b[i];
    let j = i + 1;
    let m = modifier_end(b, j);
    if digit == 48 {
        // `0` is not a button: the note is dropped, its duration block checked.
        if m < b.len() && b[m] == 91 {
            match spec_duration_block(b, m) {
                Err(e) => Step { events: seq![], outcome: Err(e) },
                Ok((blk, n)) => Step {
                    events: seq![EventView::Check { block: blk }],
                    outcome: Ok((n, stars)),
                },
            }
        } else {
            Step { events: seq![], outcome: Ok((m, stars)) }
        }
    } else {
        let button = ((digit - 49) % 8) as u8;
        let is_break = has_mod(b, j, m, 98);
        let is_ex = has_mod(b, j, m, 120);
        let is_hold = has_mod(b, j, m, 104);
        let is_dollar_star = has_mod(b, j, m, 36);
        let is_tapless = has_mod(b, j, m, 63) || has_mod(b, j, m, 33) || has_mod(b, j, m, 36);
        let is_slide_start = m < b.len() && spec_is_slide_pattern_char(b[m] as char);
        if is_hold {
            if m < b.len() && b[m] == 91 {
                match spec_duration_block(b, m) {
                    Err(e) => Step { events: seq![], outcome: Err(e) },
                    Ok((blk, n)) => Step {
                        events: seq![
                            EventView::Note {
                                ticks,
                                note: NoteView::Hold { button, is_ex, duration: Some(blk) },
                            },
                        ],
                        outcome: Ok((n, stars)),
                    },
                }
            } else {
                Step {
                    events: seq![
                        EventView::Note {
                            ticks,
                            note: NoteView::Hold { button, is_ex, duration: None },
                        },
                    ],
                    outcome: Ok((m, stars)),
                }
            }
        } else if is_slide_start {
            spec_slide_body(b, m, button, ticks, stars, is_break, is_ex, is_tapless)
        } else {
            Step {
                events: seq![
                    EventView::Note {
                        ticks,
                        note: NoteView::Tap { button, is_break, is_ex, is_star: is_dollar_star },
                    },
                ],
                outcome: Ok((m, stars)),
            }
        }
    }
}

/// The scanner's state between constructs: whether a `` ` `` is pending,
/// the pseudo-simultaneous step count, the last button digit seen, and the
/// buttons that have shown a star.
pub struct ScanState {
    pub pending: bool,
    pub ticks: nat,
    pub last: Option<u8>,
    pub stars: Seq<u8>,
}

/// The state at the start of a fragment.
pub open spec fn initial_state() -> ScanState {
    ScanState { pending: false, ticks: 0, last: None, stars: seq![] }
}

pub open spec fn no_button_error(at: int) -> ErrorView {
    ErrorView { message: "* without prior button"@, offset: Some(at as usize) }
}

pub open spec fn unexpected_char_error(c: u8, frag: Seq<char>, at: int) -> ErrorView {
    ErrorView {
        message: "unexpected character `"@ + seq![c as char] + "` in fragment `"@ + frag + "`"@,
        offset: Some(at as usize),
    }
}

/// The step count for a note: one more than before after a pending
/// `` ` `` (and then also its shift), else reset to zero (no shift).
pub open spec fn note_ticks(st: ScanState) -> (nat, nat) {
    if st.pending {
        (st.ticks + 1, st.ticks + 1)
    } else {
        (0, 0)
    }
}

/// A step's outcome, with the scanner state that follows it.
pub open spec fn with_state(s: Step, pending: bool, ticks: nat, last: Option<u8>) -> (Seq<EventView>, Result<(int, ScanState), ErrorView>) {
    match s.outcome {
        Err(e) => (s.events, Err(e)),
        Ok((n, stars)) => (s.events, Ok((n, ScanState { pending, ticks, last, stars }))),
    }
}

/// What the construct at `i` gives.
#[verifier::opaque]
pub open spec fn scan_step(b: Seq<u8>, frag: Seq<char>, i: int, st: ScanState) -> (Seq<EventView>, Result<(int, ScanState), ErrorView>) {
    let c = b[i];
    if c == 47 {
        (seq![], Ok((i + 1, ScanState { pending: false, ticks: 0, ..st })))
    } else if c == 96 {
        (seq![], Ok((i + 1, ScanState { pending: true, ..st })))
    } else if c == 40 {
        match spec_find_close(b, i, 41) {
            Err(e) => (seq![], Err(e)),
            Ok(end) => (
                seq![EventView::Bpm { open: i as usize, close: end as usize }],
                Ok((end + 1, st)),
            ),
        }
    } else if c == 123 {
        match spec_find_close(b, i, 125) {
            Err(e) => (seq![], Err(e)),
            Ok(end) => (
                seq![
                    EventView::Divisor {
                        open: i as usize,
                        close: end as usize,
                        main_end: match first_in(b, i + 1, end, 35) {
                            Some(h) => h as usize,
                            None => end as usize,
                        },
                    },
                ],
                Ok((end + 1, st)),
            ),
        }
    } else if 48 <= c <= 56 {
        let (ticks2, shift) = note_ticks(st);
        let last = if c != 48 {
            Some(((c - 49) % 8) as u8)
        } else {
            st.last
        };
        with_state(spec_button_note(b, i, shift, st.stars), false, ticks2, last)
    } else if c == 42 {
        let m = modifier_end(b, i + 1);
        let is_break = has_mod(b, i + 1, m, 98);
        let is_ex = has_mod(b, i + 1, m, 120);
        let is_tapless = has_mod(b, i + 1, m, 63) || has_mod(b, i + 1, m, 33);
        match st.last {
            None => (seq![], Err(no_button_error(m))),
            Some(btn) => {
                let (ticks2, shift) = if st.pending {
                    (st.ticks + 1, st.ticks + 1)
                } else {
                    (st.ticks, 0nat)
                };
                with_state(
                    spec_slide_body(b, m, btn, shift, st.stars, is_break, is_ex, is_tapless),
                    false,
                    ticks2,
                    st.last,
                )
            },
        }
    } else if 65 <= c <= 69 {
        let (ticks2, shift) = note_ticks(st);
        with_state(spec_touch_note(b, i, shift, st.stars), false, ticks2, st.last)
    } else if c == 32 || c == 9 || c == 10 || c == 13 {
        (seq![], Ok((i + 1, st)))
    } else {
        (seq![], Err(unexpected_char_error(c, frag, i)))
    }
}

/// The events of the fragment from `i` on, and the error that stops it, if any.
pub open spec fn scan(b: Seq<u8>, frag: Seq<char>, i: int, st: ScanState) -> (Seq<EventView>, Option<ErrorView>)
    decreases b.len() - i,
{
    if i < 0 || i >= b.len() {
        (seq![], None)
    } else {
        let (events, outcome) = scan_step(b, frag, i, st);
        match outcome {
            Err(e) => (events, Some(e)),
            Ok((n, st2)) => if i < n <= b.len() {
                let rest = scan(b, frag, n, st2);
                (events + rest.0, rest.1)
            } else {
                (events, None)
            },
        }
    }
}

/// The syntax of the fragment `frag`: its events and the error, if any,
/// that stops it.
pub open spec fn spec_fragment(frag: Seq<char>) -> (Seq<EventView>, Option<ErrorView>) {
    scan(vstd::utf8::encode_utf8(frag), frag, 0, initial_state())
}


// ───────────────────────── bounds of the steps ─────────────────────────

proof fn lemma_touch_advances(b: Seq<u8>, i: int, ticks: nat, stars: Seq<u8>)
    requires
        0 <= i < b.len() <= usize::MAX,
    ensures
        spec_touch_note(b, i, ticks, stars).outcome matches Ok((n, st)) ==> i < n <= b.len()
            && st == stars,
{
    let j = i + 1;
    let k = if j < b.len() && is_digit_byte(b[j]) {
        j + 1
    } else {
        j
    };
    lemma_modifier_end(b, k);
    let m = modifier_end(b, k);
    if m < b.len() {
        lemma_duration_block_bounds(b, m);
    }
}

proof fn lemma_chain_bounds(b: Seq<u8>, i: int, is_break: bool, is_ex: bool)
    requires
        0 <= i <= b.len() <= usize::MAX,
    ensures
        spec_chain(b, i, is_break, is_ex).error is None ==> i <= spec_chain(
            b,
            i,
            is_break,
            is_ex,
        ).next <= b.len(),
    decreases b.len() - i,
{
    reveal(spec_chain);
    if i < b.len() {
        if b[i] == 91 {
            lemma_duration_block_bounds(b, i);
        }
        if let Ok(Some((checks, s))) = chain_pre(b, i) {
            if 0 <= s < b.len() && b[s] == 42 {
                lemma_modifier_end(b, s + 1);
            }
            if let Some(k) = chain_arc_start(b, s) {
                if let Ok((arc, j)) = spec_read_slide_arc(b, k) {
                    let m = modifier_end(b, j);
                    let brk = is_break || has_mod(b, j, m, 98);
                    let ex = is_ex || has_mod(b, j, m, 120);
                    if i < m <= b.len() {
                        lemma_chain_bounds(b, m, brk, ex);
                    }
                }
            }
        }
    }
}

proof fn lemma_slide_rest_advances(
    b: Seq<u8>,
    m: int,
    button: u8,
    ticks: nat,
    first: SlideArc,
    is_break: bool,
    is_ex: bool,
    is_tapless: bool,
)
    requires
        0 <= m <= b.len() <= usize::MAX,
    ensures
        spec_slide_rest(b, m, button, ticks, first, is_break, is_ex, is_tapless).1 matches Ok(n)
            ==> m <= n <= b.len(),
{
    reveal(spec_slide_rest);
    lemma_chain_bounds(b, m, is_break, is_ex);
    let ch = spec_chain(b, m, is_break, is_ex);
    if ch.error is None {
        lemma_modifier_end(b, ch.next);
        let t = modifier_end(b, ch.next);
        if t < b.len() {
            lemma_duration_block_bounds(b, t);
        }
    }
}

proof fn lemma_slide_advances(
    b: Seq<u8>,
    i: int,
    button: u8,
    ticks: nat,
    stars: Seq<u8>,
    is_break: bool,
    is_ex: bool,
    is_tapless: bool,
)
    requires
        0 <= i <= b.len() <= usize::MAX,
    ensures
        spec_slide_body(b, i, button, ticks, stars, is_break, is_ex, is_tapless).outcome matches Ok(
            (n, _),
        ) ==> i < n <= b.len(),
{
    reveal(spec_slide_body);
    if let Ok((first, j)) = spec_read_slide_arc(b, i) {
        lemma_modifier_end(b, j);
        let m = modifier_end(b, j);
        let brk1 = is_break || has_mod(b, j, m, 98);
        let ex1 = is_ex || has_mod(b, j, m, 120);
        lemma_slide_rest_advances(b, m, button, ticks, first, brk1, ex1, is_tapless);
    }
}

proof fn lemma_button_advances(b: Seq<u8>, i: int, ticks: nat, stars: Seq<u8>)
    requires
        0 <= i < b.len() <= usize::MAX,
    ensures
        spec_button_note(b, i, ticks, stars).outcome matches Ok((n, _)) ==> i < n <= b.len(),
{
    lemma_modifier_end(b, i + 1);
    let m = modifier_end(b, i + 1);
    if m < b.len() {
        lemma_duration_block_bounds(b, m);
    }
    let digit = b[i];
    if digit != 48 {
        let button = ((digit - 49) % 8) as u8;
        let is_break = has_mod(b, i + 1, m, 98);
        let is_ex = has_mod(b, i + 1, m, 120);
        let is_tapless = has_mod(b, i + 1, m, 63) || has_mod(b, i + 1, m, 33) || has_mod(
            b,
            i + 1,
            m,
            36,
        );
        lemma_slide_advances(b, m, button, ticks, stars, is_break, is_ex, is_tapless);
    }
}

proof fn lemma_step_advances(b: Seq<u8>, frag: Seq<char>, i: int, st: ScanState)
    requires
        0 <= i < b.len() <= usize::MAX,
    ensures
        scan_step(b, frag, i, st).1 matches Ok((n, _)) ==> i < n <= b.len(),
{
    reveal(scan_step);
    let c = b[i];
    lemma_first_in_bounds(b, i + 1, b.len() as int, 41);
    lemma_first_in_bounds(b, i + 1, b.len() as int, 125);
    if 48 <= c <= 56 {
        let (ticks2, shift) = note_ticks(st);
        lemma_button_advances(b, i, shift, st.stars);
    } else if c == 42 {
        lemma_modifier_end(b, i + 1);
        let m = modifier_end(b, i + 1);
        let is_break = has_mod(b, i + 1, m, 98);
        let is_ex = has_mod(b, i + 1, m, 120);
        let is_tapless = has_mod(b, i + 1, m, 63) || has_mod(b, i + 1, m, 33);
        if let Some(btn) = st.last {
            let shift: nat = if st.pending {
                st.ticks + 1
            } else {
                0nat
            };
            lemma_slide_advances(b, m, btn, shift, st.stars, is_break, is_ex, is_tapless);
        }
    } else if 65 <= c <= 69 {
        let (ticks2, shift) = note_ticks(st);
        lemma_touch_advances(b, i, shift, st.stars);
    }
}

// ───────────────────── positions lie in the fragment ─────────────────────

/// Every position that a note's duration block records lies in `[0, len)`.
pub open spec fn note_in_bounds(n: NoteView, len: int) -> bool {
    match n {
        NoteView::Hold { duration, .. } => duration matches Some(blk) ==> block_in_bounds(blk, len),
        NoteView::Slide { duration, .. } => duration matches Some(blk) ==> block_in_bounds(blk, len),
        NoteView::TouchHold { duration, .. } => duration matches Some(blk) ==> block_in_bounds(
            blk,
            len,
        ),
        _ => true,
    }
}

/// Every position that an event records lies in `[0, len)`, in order.
pub open spec fn event_in_bounds(e: EventView, len: int) -> bool {
    match e {
        EventView::Bpm { open, close } => open < close < len,
        EventView::Divisor { open, close, main_end } => open < main_end <= close < len,
        EventView::Note { note, .. } => note_in_bounds(note, len),
        EventView::Check { block } => block_in_bounds(block, len),
    }
}

pub open spec fn all_in_bounds(evs: Seq<EventView>, len: int) -> bool {
    forall|k: int| 0 <= k < evs.len() ==> event_in_bounds(#[trigger] evs[k], len)
}

proof fn lemma_all_in_bounds_concat(a: Seq<EventView>, b: Seq<EventView>, len: int)
    requires
        all_in_bounds(a, len),
        all_in_bounds(b, len),
    ensures
        all_in_bounds(a + b, len),
{
    assert forall|k: int| 0 <= k < (a + b).len() implies event_in_bounds(#[trigger] (a + b)[k], len) by {
        if k < a.len() {
            assert((a + b)[k] == a[k]);
        } else {
            assert((a + b)[k] == b[k - a.len()]);
        }
    }
}

proof fn lemma_touch_in_bounds(b: Seq<u8>, i: int, ticks: nat, stars: Seq<u8>)
    requires
        0 <= i < b.len() <= usize::MAX,
    ensures
        all_in_bounds(spec_touch_note(b, i, ticks, stars).events, b.len() as int),
{
    let j = i + 1;
    let k = if j < b.len() && is_digit_byte(b[j]) {
        j + 1
    } else {
        j
    };
    lemma_modifier_end(b, k);
    let m = modifier_end(b, k);
    if m < b.len() {
        lemma_duration_block_bounds(b, m);
    }
}

proof fn lemma_chain_in_bounds(b: Seq<u8>, i: int, is_break: bool, is_ex: bool)
    requires
        0 <= i <= b.len() <= usize::MAX,
    ensures
        all_in_bounds(spec_chain(b, i, is_break, is_ex).checks, b.len() as int),
    decreases b.len() - i,
{
    reveal(spec_chain);
    if i < b.len() {
        if b[i] == 91 {
            lemma_duration_block_bounds(b, i);
        }
        if let Ok(Some((checks, s))) = chain_pre(b, i) {
            assert(all_in_bounds(checks, b.len() as int));
            if 0 <= s < b.len() && b[s] == 42 {
                lemma_modifier_end(b, s + 1);
            }
            if let Some(k) = chain_arc_start(b, s) {
                if let Ok((arc, j)) = spec_read_slide_arc(b, k) {
                    let m = modifier_end(b, j);
                    let brk = is_break || has_mod(b, j, m, 98);
                    let ex = is_ex || has_mod(b, j, m, 120);
                    if i < m <= b.len() {
                        lemma_chain_in_bounds(b, m, brk, ex);
                        lemma_all_in_bounds_concat(checks, spec_chain(b, m, brk, ex).checks, b.len() as int);
                    }
                }
            }
        }
    }
}

#[verifier::spinoff_prover]
#[verifier::rlimit(30)]
proof fn lemma_slide_in_bounds(
    b: Seq<u8>,
    i: int,
    button: u8,
    ticks: nat,
    stars: Seq<u8>,
    is_break: bool,
    is_ex: bool,
    is_tapless: bool,
)
    requires
        0 <= i <= b.len() <= usize::MAX,
    ensures
        all_in_bounds(
            spec_slide_body(b, i, button, ticks, stars, is_break, is_ex, is_tapless).events,
            b.len() as int,
        ),
{
    reveal(spec_slide_body);
    reveal(spec_slide_rest);
    let (head, stars2) = star_head(button, ticks, stars, is_break, is_ex, is_tapless);
    assert(all_in_bounds(head, b.len() as int));
    if let Ok((first, j)) = spec_read_slide_arc(b, i) {
        lemma_modifier_end(b, j);
        let m = modifier_end(b, j);
        let brk1 = is_break || has_mod(b, j, m, 98);
        let ex1 = is_ex || has_mod(b, j, m, 120);
        lemma_chain_in_bounds(b, m, brk1, ex1);
        lemma_chain_bounds(b, m, brk1, ex1);
        let ch = spec_chain(b, m, brk1, ex1);
        lemma_all_in_bounds_concat(head, ch.checks, b.len() as int);
        if ch.error is None {
            lemma_modifier_end(b, ch.next);
            let t = modifier_end(b, ch.next);
            if t < b.len() {
                lemma_duration_block_bounds(b, t);
            }
            let (evs, out) = spec_slide_rest(b, m, button, ticks, first, brk1, ex1, is_tapless);
            if evs.len() > ch.checks.len() {
                let last = evs.last();
                assert(all_in_bounds(seq![last], b.len() as int));
                assert(evs =~= ch.checks + seq![last]);
                lemma_all_in_bounds_concat(ch.checks, seq![last], b.len() as int);
            }
            lemma_all_in_bounds_concat(head, evs, b.len() as int);
        }
    }
}

proof fn lemma_button_in_bounds(b: Seq<u8>, i: int, ticks: nat, stars: Seq<u8>)
    requires
        0 <= i < b.len() <= usize::MAX,
    ensures
        all_in_bounds(spec_button_note(b, i, ticks, stars).events, b.len() as int),
{
    lemma_modifier_end(b, i + 1);
    let m = modifier_end(b, i + 1);
    if m < b.len() {
        lemma_duration_block_bounds(b, m);
    }
    let digit = b[i];
    if digit != 48 {
        let button = ((digit - 49) % 8) as u8;
        let is_break = has_mod(b, i + 1, m, 98);
        let is_ex = has_mod(b, i + 1, m, 120);
        let is_tapless = has_mod(b, i + 1, m, 63) || has_mod(b, i + 1, m, 33) || has_mod(
            b,
            i + 1,
            m,
            36,
        );
        lemma_slide_in_bounds(b, m, button, ticks, stars, is_break, is_ex, is_tapless);
    }
}

proof fn lemma_step_in_bounds(b: Seq<u8>, frag: Seq<char>, i: int, st: ScanState)
    requires
        0 <= i < b.len() <= usize::MAX,
    ensures
        all_in_bounds(scan_step(b, frag, i, st).0, b.len() as int),
{
    reveal(scan_step);
    let c = b[i];
    lemma_first_in_bounds(b, i + 1, b.len() as int, 41);
    lemma_first_in_bounds(b, i + 1, b.len() as int, 125);
    if c == 123 {
        if let Ok(end) = spec_find_close(b, i, 125) {
            lemma_first_in_bounds(b, i + 1, end, 35);
        }
    }
    if 48 <= c <= 56 {
        let (ticks2, shift) = note_ticks(st);
        lemma_button_in_bounds(b, i, shift, st.stars);
    } else if c == 42 {
        lemma_modifier_end(b, i + 1);
        let m = modifier_end(b, i + 1);
        let is_break = has_mod(b, i + 1, m, 98);
        let is_ex = has_mod(b, i + 1, m, 120);
        let is_tapless = has_mod(b, i + 1, m, 63) || has_mod(b, i + 1, m, 33);
        if let Some(btn) = st.last {
            let shift: nat = if st.pending {
                st.ticks + 1
            } else {
                0nat
            };
            lemma_slide_in_bounds(b, m, btn, shift, st.stars, is_break, is_ex, is_tapless);
        }
    } else if 65 <= c <= 69 {
        let (ticks2, shift) = note_ticks(st);
        lemma_touch_in_bounds(b, i, shift, st.stars);
    }
}

/// Every position that the events of a scan record lies in the fragment.
pub proof fn lemma_scan_in_bounds(b: Seq<u8>, frag: Seq<char>, i: int, st: ScanState)
    requires
        0 <= i <= b.len() <= usize::MAX,
    ensures
        all_in_bounds(scan(b, frag, i, st).0, b.len() as int),
    decreases b.len() - i,
{
    if i < b.len() {
        lemma_step_in_bounds(b, frag, i, st);
        let (events, outcome) = scan_step(b, frag, i, st);
        if let Ok((n, st2)) = outcome {
            if i < n <= b.len() {
                lemma_scan_in_bounds(b, frag, n, st2);
                lemma_all_in_bounds_concat(events, scan(b, frag, n, st2).0, b.len() as int);
            }
        }
    }
}

// ───────────────────────────── executable ─────────────────────────────

/// `r` is the exec form of the step `s` that started with stars `stars0`
/// and ended at `*i` with `stars1`.
pub open spec fn step_result(s: Step, r: Result<(), ParseError>, i: usize, stars1: Seq<u8>) -> bool {
    match r {
        Ok(()) => s.outcome == Ok::<(int, Seq<u8>), ErrorView>((i as int, stars1)),
        Err(e) => s.outcome == Err::<(int, Seq<u8>), ErrorView>(e@),
    }
}

fn touch_position_of(c: u8) -> (r: u8)
    ensures
        r == touch_position(c),
{
    if c < 49u8 {
        0
    } else {
        let d: u8 = c - 49u8;
        assert(d & 7 == d % 8) by (bit_vector);
        d & 7u8
    }
}

fn button_of_digit(c: u8) -> (r: u8)
    requires
        49 <= c,
    ensures
        r == ((c - 49) % 8) as u8,
{
    let d: u8 = c - 49u8;
    assert(d & 7 == d % 8) by (bit_vector);
    d & 7u8
}

fn parse_touch_note(
    bytes: &[u8],
    i: &mut usize,
    ticks: usize,
    events: &mut Vec<Event>,
    Ghost(stars): Ghost<Seq<u8>>,
) -> (r: Result<(), ParseError>)
    requires
        *old(i) < bytes@.len(),
    ensures
        events_view(final(events)@) == events_view(old(events)@) + spec_touch_note(
            bytes@,
            *old(i) as int,
            ticks as nat,
            stars,
        ).events,
        step_result(
            spec_touch_note(bytes@, *old(i) as int, ticks as nat, stars),
            r,
            *final(i),
            stars,
        ),
{
    let ghost b = bytes@;
    let ghost i0 = *i as int;
    let region = bytes[*i] as char;
    *i = *i + 1;
    let position: u8 = if *i < bytes.len() && bytes[*i] >= 48u8 && bytes[*i] <= 57u8 {
        let p = touch_position_of(bytes[*i]);
        *i = *i + 1;
        p
    } else {
        0
    };
    let mods = read_modifiers(bytes, i);
    let is_firework = has_modifier(&mods, 102u8);
    let is_hold = has_modifier(&mods, 104u8) || is_firework;
    let ghost old_events = events@;
    if is_hold {
        let mut duration: Option<DurationBlock> = None;
        if *i < bytes.len() && bytes[*i] == 91u8 {
            let blk = read_duration_block(bytes, i)?;
            duration = Some(blk);
        }
        let ev = Event::Note {
            ticks,
            note: NoteSyntax::TouchHold { region, position, is_firework, duration },
        };
        events.push(ev);
        proof {
            lemma_events_view_push(old_events, ev);
        }
    } else {
        let ev = Event::Note { ticks, note: NoteSyntax::TouchTap { region, position, is_firework } };
        events.push(ev);
        proof {
            lemma_events_view_push(old_events, ev);
        }
    }
    Ok(())
}


/// Reads the arcs chained after a slide's first arc (and its modifiers).
fn read_chain(
    bytes: &[u8],
    i: &mut usize,
    is_break: bool,
    is_ex: bool,
    events: &mut Vec<Event>,
) -> (r: Result<(Vec<SlideArc>, bool, bool), ParseError>)
    requires
        *old(i) <= bytes@.len(),
    ensures
        ({
            let ch = spec_chain(bytes@, *old(i) as int, is_break, is_ex);
            &&& events_view(final(events)@) == events_view(old(events)@) + ch.checks
            &&& match r {
                Ok((arcs, brk, ex)) => {
                    &&& ch.error is None
                    &&& ch.arcs == arcs@
                    &&& ch.next == *final(i) as int
                    &&& ch.is_break == brk
                    &&& ch.is_ex == ex
                },
                Err(e) => ch.error == Some(e@),
            }
        }),
{
    reveal(spec_chain);
    let ghost b = bytes@;
    let ghost m0 = *i as int;
    let ghost base = events_view(events@);
    let ghost acc: Seq<EventView> = seq![];
    let mut chain: Vec<SlideArc> = Vec::new();
    let mut brk = is_break;
    let mut ex = is_ex;
    let n = bytes.len();
    loop
        invariant
            n == bytes@.len(),
            b == bytes@,
            m0 == *old(i) as int,
            base == events_view(old(events)@),
            m0 <= *i <= bytes@.len(),
            events_view(events@) == base + acc,
            spec_chain(b, m0, is_break, is_ex) == chain_prepend(
                acc,
                chain@,
                spec_chain(b, *i as int, brk, ex),
            ),
        decreases bytes@.len() - *i,
    {
        proof {
            reveal(spec_chain);
        }
        let ghost i0 = *i as int;
        let ghost ev0 = events@;
        let ghost brk0 = brk;
        let ghost ex0 = ex;
        let ghost chain0 = chain@;
        if *i >= n {
            proof {
                lemma_chain_prepend_done(acc, chain@, *i as int, brk, ex);
            }
            return Ok((chain, brk, ex));
        }
        let ghost mut checks: Seq<EventView> = seq![];
        if bytes[*i] == 91u8 {
            let saved = *i;
            proof {
                lemma_duration_block_bounds(b, i0);
            }
            match read_duration_block(bytes, i) {
                Err(e) => {
                    proof {
                        lemma_chain_prepend_error(acc, chain@, ChainOut {
                            checks: seq![],
                            arcs: seq![],
                            next: i0,
                            is_break: brk,
                            is_ex: ex,
                            error: Some(e@),
                        });
                    }
                    return Err(e);
                },
                Ok(blk) => {
                    let has_chain = *i < n && (bytes[*i] == 42u8 || is_slide_pattern_char(
                        bytes[*i] as char,
                    ));
                    if !has_chain {
                        *i = saved;
                        proof {
                            lemma_chain_prepend_done(acc, chain@, *i as int, brk, ex);
                        }
                        return Ok((chain, brk, ex));
                    }
                    let ev = Event::Check { block: blk };
                    events.push(ev);
                    proof {
                        lemma_events_view_push(ev0, ev);
                        checks = seq![ev@];
                    }
                },
            }
        }
        assert(chain_pre(b, i0) == Ok::<Option<(Seq<EventView>, int)>, ErrorView>(
            Some((checks, *i as int)),
        ));
        assert(events_view(events@) == base + acc + checks);
        if *i >= n {
            proof {
                lemma_chain_prepend_done(acc, chain@, i0, brk, ex);
            }
            return Ok((chain, brk, ex));
        }
        let ghost s = *i as int;
        let is_star = bytes[*i] == 42u8;
        proof {
            lemma_modifier_end(b, s + 1);
        }
        if is_star {
            *i = *i + 1;
            let _ = read_modifiers(bytes, i);
        } else if is_slide_pattern_char(bytes[*i] as char) {
        } else {
            proof {
                lemma_chain_prepend_done(acc, chain@, i0, brk, ex);
            }
            return Ok((chain, brk, ex));
        }
        assert(chain_arc_start(b, s) == Some(*i as int));
        let (arc, j) = match read_slide_arc(bytes, *i) {
            Err(e) => {
                proof {
                    lemma_chain_prepend_error(acc, chain@, ChainOut {
                        checks,
                        arcs: seq![],
                        next: i0,
                        is_break: brk,
                        is_ex: ex,
                        error: Some(e@),
                    });
                    assert(base + acc + checks =~= base + (acc + checks));
                }
                return Err(e);
            },
            Ok(p) => p,
        };
        proof {
            lemma_modifier_end(b, j as int);
            lemma_read_slide_arc_advances(b, *i as int);
        }
        *i = j;
        let mods = read_modifiers(bytes, i);
        brk = brk || has_modifier(&mods, 98u8);
        ex = ex || has_modifier(&mods, 120u8);
        chain.push(arc);
        proof {
            let rest = spec_chain(b, *i as int, brk, ex);
            assert(spec_chain(b, i0, brk0, ex0) == chain_prepend(checks, seq![arc], rest));
            lemma_chain_prepend_assoc(acc, chain0, checks, arc, rest);
            assert(chain0.push(arc) == chain@);
            acc = acc + checks;
        }
    }
}

proof fn lemma_chain_prepend_done(acc: Seq<EventView>, arcs: Seq<SlideArc>, i: int, brk: bool, ex: bool)
    ensures
        chain_prepend(acc, arcs, chain_done(i, brk, ex)) == (ChainOut {
            checks: acc,
            arcs,
            next: i,
            is_break: brk,
            is_ex: ex,
            error: None,
        }),
{
    assert(acc + seq![] =~= acc);
    assert(arcs + seq![] =~= arcs);
}

proof fn lemma_chain_prepend_error(acc: Seq<EventView>, arcs: Seq<SlideArc>, rest: ChainOut)
    ensures
        chain_prepend(acc, arcs, rest).error == rest.error,
        chain_prepend(acc, arcs, rest).checks == acc + rest.checks,
{
}

proof fn lemma_chain_prepend_assoc(
    acc: Seq<EventView>,
    arcs: Seq<SlideArc>,
    checks: Seq<EventView>,
    arc: SlideArc,
    rest: ChainOut,
)
    ensures
        chain_prepend(acc, arcs, chain_prepend(checks, seq![arc], rest)) == chain_prepend(
            acc + checks,
            arcs.push(arc),
            rest,
        ),
{
    assert(acc + (checks + rest.checks) =~= (acc + checks) + rest.checks);
    assert(arcs + (seq![arc] + rest.arcs) =~= arcs.push(arc) + rest.arcs);
}

/// Parses the rest of a slide: its chain, trailing modifiers and duration.
fn parse_slide_rest(
    bytes: &[u8],
    i: &mut usize,
    button: u8,
    ticks: usize,
    first: SlideArc,
    is_break: bool,
    is_ex: bool,
    is_tapless: bool,
    events: &mut Vec<Event>,
) -> (r: Result<(), ParseError>)
    requires
        *old(i) <= bytes@.len(),
    ensures
        ({
            let (evs, out) = spec_slide_rest(
                bytes@,
                *old(i) as int,
                button,
                ticks as nat,
                first,
                is_break,
                is_ex,
                is_tapless,
            );
            &&& events_view(final(events)@) == events_view(old(events)@) + evs
            &&& match r {
                Ok(()) => out == Ok::<int, ErrorView>(*final(i) as int),
                Err(e) => out == Err::<int, ErrorView>(e@),
            }
        }),
{
    reveal(spec_slide_rest);
    let ghost b = bytes@;
    let ghost m = *i as int;
    let ghost ev0 = events@;
    let len = bytes.len();
    let (chain, brk_c, ex_c) = read_chain(bytes, i, is_break, is_ex, events)?;
    let ghost ch = spec_chain(b, m, is_break, is_ex);
    proof {
        lemma_chain_bounds(b, m, is_break, is_ex);
        lemma_modifier_end(b, ch.next);
    }
    let trail_mods = read_modifiers(bytes, i);
    let brk = brk_c || has_modifier(&trail_mods, 98u8);
    let ex = ex_c || has_modifier(&trail_mods, 120u8);
    let mut duration: Option<DurationBlock> = None;
    if *i < len && bytes[*i] == 91u8 {
        let blk = read_duration_block(bytes, i)?;
        duration = Some(blk);
    }
    let ghost ev2 = events@;
    let ev = Event::Note {
        ticks,
        note: NoteSyntax::Slide {
            start: button,
            first,
            chain,
            is_break: brk,
            is_ex: ex,
            is_tapless,
            duration,
        },
    };
    events.push(ev);
    proof {
        lemma_events_view_push(ev2, ev);
        assert(ev@ == slide_event(ticks as nat, button, first, ch.arcs, brk, ex, is_tapless, duration));
        assert(events_view(events@) =~= events_view(ev0) + (ch.checks + seq![ev@]));
    }
    Ok(())
}

/// Parses a slide whose first arc starts at `*i`.
fn parse_slide_body(
    bytes: &[u8],
    i: &mut usize,
    button: u8,
    ticks: usize,
    stars: &mut Vec<u8>,
    is_break: bool,
    is_ex: bool,
    is_tapless: bool,
    events: &mut Vec<Event>,
) -> (r: Result<(), ParseError>)
    requires
        *old(i) <= bytes@.len(),
    ensures
        events_view(final(events)@) == events_view(old(events)@) + spec_slide_body(
            bytes@,
            *old(i) as int,
            button,
            ticks as nat,
            old(stars)@,
            is_break,
            is_ex,
            is_tapless,
        ).events,
        step_result(
            spec_slide_body(
                bytes@,
                *old(i) as int,
                button,
                ticks as nat,
                old(stars)@,
                is_break,
                is_ex,
                is_tapless,
            ),
            r,
            *final(i),
            final(stars)@,
        ),
{
    reveal(spec_slide_body);
    let ghost b = bytes@;
    let ghost stars0 = stars@;
    let ghost ev0 = events@;
    if !is_tapless && !contains_byte(stars.as_slice(), button) {
        let ev = Event::Note {
            ticks,
            note: NoteSyntax::Tap { button, is_break, is_ex, is_star: true },
        };
        events.push(ev);
        proof {
            lemma_events_view_push(ev0, ev);
        }
        stars.push(button);
    }
    let ghost head = star_head(button, ticks as nat, stars0, is_break, is_ex, is_tapless).0;
    assert(events_view(events@) == events_view(ev0) + head);
    assert(stars@ == star_head(button, ticks as nat, stars0, is_break, is_ex, is_tapless).1);
    let (first, j) = read_slide_arc(bytes, *i)?;
    proof {
        lemma_modifier_end(b, j as int);
    }
    *i = j;
    let first_mods = read_modifiers(bytes, i);
    let brk1 = is_break || has_modifier(&first_mods, 98u8);
    let ex1 = is_ex || has_modifier(&first_mods, 120u8);
    let ghost m = *i as int;
    let ghost ev1 = events@;
    let r = parse_slide_rest(bytes, i, button, ticks, first, brk1, ex1, is_tapless, events);
    proof {
        let (evs, out) = spec_slide_rest(b, m, button, ticks as nat, first, brk1, ex1, is_tapless);
        assert(events_view(events@) =~= events_view(ev0) + (head + evs));
    }
    r
}

/// Parses the note whose button digit is at `*i`.
fn parse_button_note(
    bytes: &[u8],
    i: &mut usize,
    ticks: usize,
    stars: &mut Vec<u8>,
    events: &mut Vec<Event>,
) -> (r: Result<(), ParseError>)
    requires
        *old(i) < bytes@.len(),
        48 <= bytes@[*old(i) as int] <= 56,
    ensures
        events_view(final(events)@) == events_view(old(events)@) + spec_button_note(
            bytes@,
            *old(i) as int,
            ticks as nat,
            old(stars)@,
        ).events,
        step_result(
            spec_button_note(bytes@, *old(i) as int, ticks as nat, old(stars)@),
            r,
            *final(i),
            final(stars)@,
        ),
{
    let ghost b = bytes@;
    let ghost ev0 = events@;
    let digit = bytes[*i];
    *i = *i + 1;
    proof {
        lemma_modifier_end(b, *i as int);
    }
    if digit == 48u8 {
        let _ = read_modifiers(bytes, i);
        if *i < bytes.len() && bytes[*i] == 91u8 {
            let blk = read_duration_block(bytes, i)?;
            let ev = Event::Check { block: blk };
            events.push(ev);
            proof {
                lemma_events_view_push(ev0, ev);
            }
        }
        assert(events_view(events@) =~= events_view(ev0) + spec_button_note(
            b,
            *old(i) as int,
            ticks as nat,
            old(stars)@,
        ).events);
        return Ok(());
    }
    let button = button_of_digit(digit);
    let mods = read_modifiers(bytes, i);
    let is_break = has_modifier(&mods, 98u8);
    let is_ex = has_modifier(&mods, 120u8);
    let is_hold = has_modifier(&mods, 104u8);
    let is_dollar_star = has_modifier(&mods, 36u8);
    let is_tapless = has_modifier(&mods, 63u8) || has_modifier(&mods, 33u8)
        || has_modifier(&mods, 36u8);
    let is_slide_start = *i < bytes.len() && is_slide_pattern_char(bytes[*i] as char);
    if is_hold {
        let mut duration: Option<DurationBlock> = None;
        if *i < bytes.len() && bytes[*i] == 91u8 {
            let blk = read_duration_block(bytes, i)?;
            duration = Some(blk);
        }
        let ev = Event::Note { ticks, note: NoteSyntax::Hold { button, is_ex, duration } };
        events.push(ev);
        proof {
            lemma_events_view_push(ev0, ev);
        }
        return Ok(());
    }
    if is_slide_start {
        return parse_slide_body(
            bytes,
            i,
            button,
            ticks,
            stars,
            is_break,
            is_ex,
            is_tapless,
            events,
        );
    }
    let ev = Event::Note {
        ticks,
        note: NoteSyntax::Tap { button, is_break, is_ex, is_star: is_dollar_star },
    };
    events.push(ev);
    proof {
        lemma_events_view_push(ev0, ev);
    }
    Ok(())
}


/// The syntax of a fragment: what it says, in order, up to the first error.
#[derive(Debug, Clone, PartialEq)]
pub struct FragmentSyntax {
    pub events: Vec<Event>,
    pub error: Option<ParseError>,
}

/// `r` is the exec form of the scan result `s`.
pub open spec fn fragment_result(r: FragmentSyntax, s: (Seq<EventView>, Option<ErrorView>)) -> bool {
    &&& events_view(r.events@) == s.0
    &&& match r.error {
        None => s.1 is None,
        Some(e) => s.1 == Some(e@),
    }
}

proof fn lemma_scan_unfold(b: Seq<u8>, frag: Seq<char>, i: int, st: ScanState)
    requires
        0 <= i < b.len() <= usize::MAX,
    ensures
        ({
            let (events, outcome) = scan_step(b, frag, i, st);
            match outcome {
                Err(e) => scan(b, frag, i, st) == (events, Some(e)),
                Ok((n, st2)) => {
                    &&& i < n <= b.len()
                    &&& scan(b, frag, i, st) == (events + scan(b, frag, n, st2).0, scan(
                        b,
                        frag,
                        n,
                        st2,
                    ).1)
                },
            }
        }),
{
    lemma_step_advances(b, frag, i, st);
}

/// The exec step from `i0` with state `st0`, which turned `events0` into
/// `events1`, returned `r` and left the scanner at `i1` in state `st1`, is the
/// step that [`scan_step`] describes.
pub open spec fn step_matches(
    b: Seq<u8>,
    f: Seq<char>,
    i0: int,
    st0: ScanState,
    events0: Seq<Event>,
    events1: Seq<Event>,
    r: Result<(), ParseError>,
    i1: int,
    st1: ScanState,
) -> bool {
    let (evs, out) = scan_step(b, f, i0, st0);
    &&& events_view(events1) == events_view(events0) + evs
    &&& match r {
        Ok(()) => out == Ok::<(int, ScanState), ErrorView>((i1, st1)),
        Err(e) => out == Err::<(int, ScanState), ErrorView>(e@),
    }
}

/// A BPM `(...)` or divisor `{...}` directive at `*i`.
fn step_directive(bytes: &[u8], frag: &str, i: &mut usize, Ghost(st): Ghost<ScanState>, events: &mut Vec<Event>) -> (r: Result<(), ParseError>)
    requires
        *old(i) < bytes@.len(),
        bytes@[*old(i) as int] == 40 || bytes@[*old(i) as int] == 123,
    ensures
        step_matches(bytes@, frag@, *old(i) as int, st, old(events)@, final(events)@, r, *final(i) as int, st),
{
    reveal(scan_step);
    let ghost ev0 = events@;
    let c = bytes[*i];
    let close_byte = if c == 40u8 {
        41u8
    } else {
        125u8
    };
    let end = match find_close(bytes, *i, close_byte) {
        Err(e) => {
            assert(events_view(events@) =~= events_view(ev0) + seq![]);
            return Err(e);
        },
        Ok(end) => end,
    };
    proof {
        lemma_first_in_bounds(bytes@, *i + 1, bytes@.len() as int, close_byte);
    }
    let ev = if c == 40u8 {
        Event::Bpm { open: *i, close: end }
    } else {
        let main_end = match first_byte_in(bytes, *i + 1, end, 35u8) {
            Some(h) => h,
            None => end,
        };
        Event::Divisor { open: *i, close: end, main_end }
    };
    events.push(ev);
    proof {
        lemma_events_view_push(ev0, ev);
        assert(events_view(events@) =~= events_view(ev0) + seq![ev@]);
    }
    *i = end + 1;
    Ok(())
}

/// A note that starts with a button digit at `*i`.
fn step_button(
    bytes: &[u8],
    frag: &str,
    i: &mut usize,
    pending: &mut bool,
    ticks: &mut usize,
    last: &mut Option<u8>,
    stars: &mut Vec<u8>,
    events: &mut Vec<Event>,
) -> (r: Result<(), ParseError>)
    requires
        *old(i) < bytes@.len(),
        48 <= bytes@[*old(i) as int] <= 56,
        *old(ticks) <= *old(i),
    ensures
        step_matches(
            bytes@,
            frag@,
            *old(i) as int,
            ScanState { pending: *old(pending), ticks: *old(ticks) as nat, last: *old(last), stars: old(stars)@ },
            old(events)@,
            final(events)@,
            r,
            *final(i) as int,
            ScanState { pending: *final(pending), ticks: *final(ticks) as nat, last: *final(last), stars: final(stars)@ },
        ),
        *final(ticks) <= *old(i) + 1,
{
    reveal(scan_step);
    let len = bytes.len();
    let c = bytes[*i];
    let shift = if *pending {
        *ticks = *ticks + 1;
        *ticks
    } else {
        *ticks = 0;
        0
    };
    *pending = false;
    if c != 48u8 {
        *last = Some(button_of_digit(c));
    }
    parse_button_note(bytes, i, shift, stars, events)
}

/// A `*` chained slide at `*i`, continuing from the last button.
fn step_star(
    bytes: &[u8],
    frag: &str,
    i: &mut usize,
    pending: &mut bool,
    ticks: &mut usize,
    last: &mut Option<u8>,
    stars: &mut Vec<u8>,
    events: &mut Vec<Event>,
) -> (r: Result<(), ParseError>)
    requires
        *old(i) < bytes@.len(),
        bytes@[*old(i) as int] == 42,
        *old(ticks) <= *old(i),
    ensures
        step_matches(
            bytes@,
            frag@,
            *old(i) as int,
            ScanState { pending: *old(pending), ticks: *old(ticks) as nat, last: *old(last), stars: old(stars)@ },
            old(events)@,
            final(events)@,
            r,
            *final(i) as int,
            ScanState { pending: *final(pending), ticks: *final(ticks) as nat, last: *final(last), stars: final(stars)@ },
        ),
        *final(ticks) <= *old(i) + 1,
{
    reveal(scan_step);
    let len = bytes.len();
    let ghost ev0 = events@;
    proof {
        lemma_modifier_end(bytes@, *i + 1);
    }
    *i = *i + 1;
    let mods = read_modifiers(bytes, i);
    let is_break = has_modifier(&mods, 98u8);
    let is_ex = has_modifier(&mods, 120u8);
    let is_tapless = has_modifier(&mods, 63u8) || has_modifier(&mods, 33u8);
    match *last {
        Some(btn) => {
            let shift = if *pending {
                *ticks = *ticks + 1;
                *ticks
            } else {
                0
            };
            *pending = false;
            parse_slide_body(bytes, i, btn, shift, stars, is_break, is_ex, is_tapless, events)
        },
        None => {
            let message = String::from_str("* without prior button");
            assert(events_view(events@) =~= events_view(ev0) + seq![]);
            Err(ParseError { message, offset: Some(*i) })
        },
    }
}

/// A touch note whose region letter is at `*i`.
fn step_touch(
    bytes: &[u8],
    frag: &str,
    i: &mut usize,
    pending: &mut bool,
    ticks: &mut usize,
    last: &Option<u8>,
    stars: &Vec<u8>,
    events: &mut Vec<Event>,
) -> (r: Result<(), ParseError>)
    requires
        *old(i) < bytes@.len(),
        65 <= bytes@[*old(i) as int] <= 69,
        *old(ticks) <= *old(i),
    ensures
        step_matches(
            bytes@,
            frag@,
            *old(i) as int,
            ScanState { pending: *old(pending), ticks: *old(ticks) as nat, last: *last, stars: stars@ },
            old(events)@,
            final(events)@,
            r,
            *final(i) as int,
            ScanState { pending: *final(pending), ticks: *final(ticks) as nat, last: *last, stars: stars@ },
        ),
        *final(ticks) <= *old(i) + 1,
{
    reveal(scan_step);
    let len = bytes.len();
    let shift = if *pending {
        *ticks = *ticks + 1;
        *ticks
    } else {
        *ticks = 0;
        0
    };
    *pending = false;
    parse_touch_note(bytes, i, shift, events, Ghost(stars@))
}

/// The construct at `*i`.
fn step(
    bytes: &[u8],
    frag: &str,
    i: &mut usize,
    pending: &mut bool,
    ticks: &mut usize,
    last: &mut Option<u8>,
    stars: &mut Vec<u8>,
    events: &mut Vec<Event>,
) -> (r: Result<(), ParseError>)
    requires
        *old(i) < bytes@.len(),
        *old(ticks) <= *old(i),
    ensures
        step_matches(
            bytes@,
            frag@,
            *old(i) as int,
            ScanState { pending: *old(pending), ticks: *old(ticks) as nat, last: *old(last), stars: old(stars)@ },
            old(events)@,
            final(events)@,
            r,
            *final(i) as int,
            ScanState { pending: *final(pending), ticks: *final(ticks) as nat, last: *final(last), stars: final(stars)@ },
        ),
        *final(ticks) <= *old(i) + 1,
{
    let ghost ev0 = events@;
    let c = bytes[*i];
    if c == 40u8 || c == 123u8 {
        return step_directive(bytes, frag, i, Ghost(ScanState { pending: *pending, ticks: *ticks as nat, last: *last, stars: stars@ }), events);
    } else if c >= 48u8 && c <= 56u8 {
        return step_button(bytes, frag, i, pending, ticks, last, stars, events);
    } else if c == 42u8 {
        return step_star(bytes, frag, i, pending, ticks, last, stars, events);
    } else if c >= 65u8 && c <= 69u8 {
        return step_touch(bytes, frag, i, pending, ticks, last, stars, events);
    }
    proof {
        reveal(scan_step);
    }
    assert(events_view(events@) =~= events_view(ev0) + seq![]);
    if c == 47u8 {
        *i = *i + 1;
        *ticks = 0;
        *pending = false;
        Ok(())
    } else if c == 96u8 {
        *pending = true;
        *i = *i + 1;
        Ok(())
    } else if c == 32u8 || c == 9u8 || c == 10u8 || c == 13u8 {
        *i = *i + 1;
        Ok(())
    } else {
        let mut message = String::from_str("unexpected character `");
        message.push(c as char);
        message.append("` in fragment `");
        message.append(frag);
        message.append("`");
        assert(message@ =~= "unexpected character `"@ + seq![c as char] + "` in fragment `"@
            + frag@ + "`"@);
        Err(ParseError { message, offset: Some(*i) })
    }
}

/// Parse a single `,`-separated fragment into what it says, in order. The
/// scan stops at the first syntax error, which is returned beside the events
/// read before it.
pub fn parse_fragment_syntax(frag: &str) -> (r: FragmentSyntax)
    ensures
        fragment_result(r, spec_fragment(frag@)),
        all_in_bounds(events_view(r.events@), frag.spec_bytes().len() as int),
{
    let bytes = frag.as_bytes();
    let ghost b = bytes@;
    let ghost f = frag@;
    let len = bytes.len();
    proof {
        lemma_scan_in_bounds(bytes@, frag@, 0, initial_state());
    }
    let mut events: Vec<Event> = Vec::new();
    let mut i: usize = 0;
    let mut pending = false;
    let mut ticks: usize = 0;
    let mut last: Option<u8> = None;
    let mut stars: Vec<u8> = Vec::new();
    let ghost total = scan(b, f, 0, initial_state());
    assert(events_view(events@) =~= seq![]);
    assert(total.0 =~= seq![] + total.0);
    loop
        invariant
            len == bytes@.len(),
            b == bytes@,
            b == vstd::utf8::encode_utf8(f),
            f == frag@,
            total == scan(b, f, 0, initial_state()),
            all_in_bounds(total.0, len as int),
            i <= len,
            ticks <= i,
            ({
                let st = ScanState { pending, ticks: ticks as nat, last, stars: stars@ };
                let rest = scan(b, f, i as int, st);
                total.0 == events_view(events@) + rest.0 && total.1 == rest.1
            }),
        decreases len - i,
    {
        let ghost st = ScanState { pending, ticks: ticks as nat, last, stars: stars@ };
        let ghost ev0 = events@;
        let ghost i0 = i as int;
        if i >= len {
            assert(total.0 =~= events_view(events@));
            return FragmentSyntax { events, error: None };
        }
        proof {
            lemma_scan_unfold(b, f, i as int, st);
        }
        let r = step(bytes, frag, &mut i, &mut pending, &mut ticks, &mut last, &mut stars, &mut events);
        match r {
            Err(e) => {
                assert(total.0 =~= events_view(events@));
                return FragmentSyntax { events, error: Some(e) };
            },
            Ok(()) => {
                proof {
                    let st2 = ScanState { pending, ticks: ticks as nat, last, stars: stars@ };
                    let (evs, out) = scan_step(b, f, i0, st);
                    assert(total.0 =~= events_view(events@) + scan(b, f, i as int, st2).0);
                }
            },
        }
    }
}

// ───────────────────────────── laws ─────────────────────────────

/// A chain started with the break flag set keeps it.
proof fn lemma_chain_keeps_break(b: Seq<u8>, i: int, is_break: bool, is_ex: bool)
    requires
        is_break,
    ensures
        spec_chain(b, i, is_break, is_ex).is_break,
    decreases b.len() - i,
{
    reveal(spec_chain);
    if 0 <= i < b.len() {
        if let Ok(Some((checks, s))) = chain_pre(b, i) {
            if let Some(k) = chain_arc_start(b, s) {
                if let Ok((arc, j)) = spec_read_slide_arc(b, k) {
                    let m = modifier_end(b, j);
                    let ex = is_ex || has_mod(b, j, m, 120);
                    if i < m <= b.len() {
                        lemma_chain_keeps_break(b, m, true, ex);
                    }
                }
            }
        }
    }
}

/// A `b` written right after a slide's first arc makes the slide a break:
/// when the slide is read, the last event is that slide, from `button`, with
/// its break flag set.
pub proof fn lemma_break_after_first_arc(
    b: Seq<u8>,
    i: int,
    button: u8,
    ticks: nat,
    stars: Seq<u8>,
    is_break: bool,
    is_ex: bool,
    is_tapless: bool,
)
    requires
        0 <= i,
        spec_read_slide_arc(b, i) matches Ok((_, j)) && j < b.len() && b[j] == 98,
    ensures
        ({
            let s = spec_slide_body(b, i, button, ticks, stars, is_break, is_ex, is_tapless);
            s.outcome is Ok ==> s.events.len() > 0 && (s.events.last() matches EventView::Note {
                note: NoteView::Slide { start, is_break: brk, .. },
                ..
            } && brk && start == button)
        }),
{
    reveal(spec_slide_body);
    reveal(spec_slide_rest);
    lemma_read_slide_arc_advances(b, i);
    let (first, j) = spec_read_slide_arc(b, i)->Ok_0;
    lemma_modifier_end(b, j);
    lemma_modifier_end(b, j + 1);
    let m = modifier_end(b, j);
    assert(b.subrange(j, m)[0] == 98);
    assert(has_mod(b, j, m, 98));
    let ex1 = is_ex || has_mod(b, j, m, 120);
    lemma_chain_keeps_break(b, m, true, ex1);
}

/// In a fragment that opens with a button and a slide whose first arc is
/// followed by `b`, and that reads without error, that slide is a break.
pub proof fn lemma_fragment_break_slide(frag: Seq<char>, b: Seq<u8>)
    requires
        b == vstd::utf8::encode_utf8(frag),
        b.len() <= usize::MAX,
        2 <= b.len(),
        49 <= b[0] <= 56,
        spec_is_slide_pattern_char(b[1] as char),
        spec_read_slide_arc(b, 1) matches Ok((_, j)) && j < b.len() && b[j] == 98,
        spec_fragment(frag).1 is None,
    ensures
        exists|k: int|
            0 <= k < spec_fragment(frag).0.len() && (#[trigger] spec_fragment(frag).0[k] matches EventView::Note {
                note: NoteView::Slide { start, is_break, .. },
                ..
            } && is_break && start == ((b[0] - 49) % 8) as u8),
{
    lemma_scan_unfold(b, frag, 0, initial_state());
    reveal(scan_step);
    let button = ((b[0] - 49) % 8) as u8;
    assert(!is_modifier(b[1]));
    assert(modifier_end(b, 1) == 1);
    assert(!has_mod(b, 1, 1, 104)) by {
        assert(b.subrange(1, 1) =~= Seq::<u8>::empty());
    }
    let s = spec_slide_body(b, 1, button, 0, seq![], false, false, false);
    assert(spec_button_note(b, 0, 0, seq![]) == s);
    lemma_break_after_first_arc(b, 1, button, 0, seq![], false, false, false);
    let (events, outcome) = scan_step(b, frag, 0, initial_state());
    assert(events == s.events);
    assert(outcome is Ok);
    let n = outcome->Ok_0.0;
    let st2 = outcome->Ok_0.1;
    let all = spec_fragment(frag).0;
    assert(all == events + scan(b, frag, n, st2).0);
    let k = events.len() - 1;
    assert(all[k] == events.last());
}

/// A digit right after a touch region letter is the note's position, and the
/// note reads past it: a read touch note is one event, of that region and
/// position, and the scan goes on after the digit.
pub proof fn lemma_touch_digit_is_position(b: Seq<u8>, i: int, ticks: nat, stars: Seq<u8>)
    requires
        0 <= i,
        i + 1 < b.len() <= usize::MAX,
        65 <= b[i] <= 69,
        is_digit_byte(b[i + 1]),
    ensures
        ({
            let s = spec_touch_note(b, i, ticks, stars);
            s.outcome matches Ok((n, _)) ==> n >= i + 2 && s.events.len() == 1 && match s.events[0] {
                EventView::Note { ticks: t, note: NoteView::TouchTap { region, position, .. } } => t
                    == ticks && region == b[i] as char && position == touch_position(b[i + 1]),
                EventView::Note {
                    ticks: t,
                    note: NoteView::TouchHold { region, position, .. },
                } => t == ticks && region == b[i] as char && position == touch_position(b[i + 1]),
                _ => false,
            }
        }),
{
    lemma_modifier_end(b, i + 2);
    if modifier_end(b, i + 2) < b.len() {
        lemma_duration_block_bounds(b, modifier_end(b, i + 2));
    }
}

/// A fragment of a touch region letter and a digit is one touch tap of that
/// region at the position that the digit names.
pub proof fn lemma_fragment_touch_with_digit(frag: Seq<char>, b: Seq<u8>)
    requires
        b == vstd::utf8::encode_utf8(frag),
        b.len() == 2,
        65 <= b[0] <= 69,
        is_digit_byte(b[1]),
    ensures
        spec_fragment(frag) == (
            seq![
                EventView::Note {
                    ticks: 0,
                    note: NoteView::TouchTap {
                        region: b[0] as char,
                        position: touch_position(b[1]),
                        is_firework: false,
                    },
                },
            ],
            Option::<ErrorView>::None,
        ),
{
    lemma_scan_unfold(b, frag, 0, initial_state());
    reveal(scan_step);
    assert(modifier_end(b, 2) == 2);
    assert(b.subrange(2, 2) =~= Seq::<u8>::empty());
    let (events, outcome) = scan_step(b, frag, 0, initial_state());
    assert(outcome is Ok);
    let st2 = outcome->Ok_0.1;
    assert(scan(b, frag, 2, st2) == (Seq::<EventView>::empty(), Option::<ErrorView>::None));
    assert(events + Seq::<EventView>::empty() =~= events);
}

/// A slide pattern character at `i` starts a chained arc: the chain read
/// from `i` begins with the arc written there.
pub proof fn lemma_pattern_continues_chain(b: Seq<u8>, i: int, is_break: bool, is_ex: bool)
    requires
        0 <= i < b.len(),
        spec_is_slide_pattern_char(b[i] as char),
    ensures
        spec_read_slide_arc(b, i) matches Ok((arc, _)) ==> spec_chain(b, i, is_break, is_ex).arcs.len()
            >= 1 && spec_chain(b, i, is_break, is_ex).arcs[0] == arc,
{
    reveal(spec_chain);
    lemma_read_slide_arc_advances(b, i);
    if let Ok((arc, j)) = spec_read_slide_arc(b, i) {
        lemma_modifier_end(b, j);
        assert(b[i] != 91);
        assert(chain_arc_start(b, i) == Some(i));
    }
}

/// A slide whose first arc is followed directly by a pattern character is a
/// chained slide: when it is read, its chain begins with the arc written
/// there.
pub proof fn lemma_slide_chain_after_first_arc(
    b: Seq<u8>,
    i: int,
    button: u8,
    ticks: nat,
    stars: Seq<u8>,
    is_break: bool,
    is_ex: bool,
    is_tapless: bool,
)
    requires
        0 <= i,
        spec_read_slide_arc(b, i) matches Ok((_, j)) && j < b.len() && spec_is_slide_pattern_char(
            b[j] as char,
        ),
    ensures
        ({
            let s = spec_slide_body(b, i, button, ticks, stars, is_break, is_ex, is_tapless);
            let j = spec_read_slide_arc(b, i)->Ok_0.1;
            s.outcome is Ok ==> s.events.len() > 0 && (spec_read_slide_arc(b, j) matches Ok((arc, _))
                && s.events.last() matches EventView::Note {
                note: NoteView::Slide { start, chain, .. },
                ..
            } && start == button && chain.len() >= 1 && chain[0] == arc)
        }),
{
    reveal(spec_slide_body);
    reveal(spec_slide_rest);
    lemma_read_slide_arc_advances(b, i);
    let (first, j) = spec_read_slide_arc(b, i)->Ok_0;
    assert(!is_modifier(b[j]));
    assert(modifier_end(b, j) == j);
    assert(b.subrange(j, j) =~= Seq::<u8>::empty());
    lemma_pattern_continues_chain(b, j, is_break, is_ex);
    reveal(spec_chain);
}

/// A chain started with the ex flag set keeps it.
proof fn lemma_chain_keeps_ex(b: Seq<u8>, i: int, is_break: bool, is_ex: bool)
    requires
        is_ex,
    ensures
        spec_chain(b, i, is_break, is_ex).is_ex,
    decreases b.len() - i,
{
    reveal(spec_chain);
    if 0 <= i < b.len() {
        if let Ok(Some((checks, s))) = chain_pre(b, i) {
            if let Some(k) = chain_arc_start(b, s) {
                if let Ok((arc, j)) = spec_read_slide_arc(b, k) {
                    let m = modifier_end(b, j);
                    let brk = is_break || has_mod(b, j, m, 98);
                    if i < m <= b.len() {
                        lemma_chain_keeps_ex(b, m, brk, true);
                    }
                }
            }
        }
    }
}

/// The blocks that a chain checks on its way are all `Check` events.
proof fn lemma_chain_checks(b: Seq<u8>, i: int, is_break: bool, is_ex: bool)
    ensures
        forall|k: int|
            0 <= k < spec_chain(b, i, is_break, is_ex).checks.len() ==> #[trigger] spec_chain(
                b,
                i,
                is_break,
                is_ex,
            ).checks[k] is Check,
    decreases b.len() - i,
{
    reveal(spec_chain);
    if 0 <= i < b.len() {
        if let Ok(Some((checks, s))) = chain_pre(b, i) {
            if let Some(k) = chain_arc_start(b, s) {
                if let Ok((arc, j)) = spec_read_slide_arc(b, k) {
                    let m = modifier_end(b, j);
                    let brk = is_break || has_mod(b, j, m, 98);
                    let ex = is_ex || has_mod(b, j, m, 120);
                    if i < m <= b.len() {
                        lemma_chain_checks(b, m, brk, ex);
                        let rest = spec_chain(b, m, brk, ex);
                        assert forall|q: int| 0 <= q < (checks + rest.checks).len() implies #[trigger] (
                        checks + rest.checks)[q] is Check by {
                            if q >= checks.len() {
                                assert((checks + rest.checks)[q] == rest.checks[q - checks.len()]);
                            }
                        }
                    }
                }
            }
        }
    }
}

/// An `x` written right after a slide's first arc makes the slide ex: when
/// the slide is read, the last event is that slide with its ex flag set.
pub proof fn lemma_ex_after_first_arc(
    b: Seq<u8>,
    i: int,
    button: u8,
    ticks: nat,
    stars: Seq<u8>,
    is_break: bool,
    is_ex: bool,
    is_tapless: bool,
)
    requires
        0 <= i,
        spec_read_slide_arc(b, i) matches Ok((_, j)) && j < b.len() && b[j] == 120,
    ensures
        ({
            let s = spec_slide_body(b, i, button, ticks, stars, is_break, is_ex, is_tapless);
            s.outcome is Ok ==> s.events.len() > 0 && (s.events.last() matches EventView::Note {
                note: NoteView::Slide { start, is_ex: ex, .. },
                ..
            } && ex && start == button)
        }),
{
    reveal(spec_slide_body);
    reveal(spec_slide_rest);
    lemma_read_slide_arc_advances(b, i);
    let (first, j) = spec_read_slide_arc(b, i)->Ok_0;
    lemma_modifier_end(b, j);
    lemma_modifier_end(b, j + 1);
    let m = modifier_end(b, j);
    assert(b.subrange(j, m)[0] == 120);
    assert(has_mod(b, j, m, 120));
    let brk1 = is_break || has_mod(b, j, m, 98);
    lemma_chain_keeps_ex(b, m, brk1, true);
}

/// A slide flagged break or ex from its head (modifiers before the first
/// arc) stays so: when it is read, the slide event carries the flags.
#[verifier::spinoff_prover]
#[verifier::rlimit(40)]
pub proof fn lemma_slide_keeps_head_flags(
    b: Seq<u8>,
    i: int,
    button: u8,
    ticks: nat,
    stars: Seq<u8>,
    is_break: bool,
    is_ex: bool,
    is_tapless: bool,
)
    requires
        0 <= i,
    ensures
        ({
            let s = spec_slide_body(b, i, button, ticks, stars, is_break, is_ex, is_tapless);
            s.outcome is Ok ==> s.events.len() > 0 && (s.events.last() matches EventView::Note {
                note: NoteView::Slide { start, is_break: brk, is_ex: ex, is_tapless: tl, .. },
                ..
            } && (is_break ==> brk) && (is_ex ==> ex) && tl == is_tapless && start == button)
        }),
{
    reveal(spec_slide_body);
    reveal(spec_slide_rest);
    if let Ok((first, j)) = spec_read_slide_arc(b, i) {
        let m = modifier_end(b, j);
        let brk1 = is_break || has_mod(b, j, m, 98);
        let ex1 = is_ex || has_mod(b, j, m, 120);
        if brk1 {
            lemma_chain_keeps_break(b, m, brk1, ex1);
        }
        if ex1 {
            lemma_chain_keeps_ex(b, m, brk1, ex1);
        }
        let ch = spec_chain(b, m, brk1, ex1);
        assert(is_break ==> ch.is_break);
        assert(is_ex ==> ch.is_ex);
    }
}

/// A slide's star tap: a slide that is not tapless, from a button with no
/// star yet in the fragment, first adds a star tap on that button (with the
/// slide's head flags) and records the star; any other slide adds no tap and
/// leaves the stars as they were.
pub proof fn lemma_slide_star_head(
    b: Seq<u8>,
    i: int,
    button: u8,
    ticks: nat,
    stars: Seq<u8>,
    is_break: bool,
    is_ex: bool,
    is_tapless: bool,
)
    ensures
        ({
            let s = spec_slide_body(b, i, button, ticks, stars, is_break, is_ex, is_tapless);
            let fresh = !is_tapless && !stars.contains(button);
            &&& fresh ==> s.events.len() >= 1 && s.events[0] == EventView::Note {
                ticks,
                note: NoteView::Tap { button, is_break, is_ex, is_star: true },
            }
            &&& !fresh ==> forall|k: int| 0 <= k < s.events.len() ==> !(#[trigger] s.events[k] matches EventView::Note {
                note: NoteView::Tap { .. },
                ..
            })
            &&& s.outcome matches Ok((_, st)) ==> st == if fresh {
                stars.push(button)
            } else {
                stars
            }
        }),
{
    reveal(spec_slide_body);
    reveal(spec_slide_rest);
    let s = spec_slide_body(b, i, button, ticks, stars, is_break, is_ex, is_tapless);
    if let Ok((first, j)) = spec_read_slide_arc(b, i) {
        let m = modifier_end(b, j);
        let brk1 = is_break || has_mod(b, j, m, 98);
        let ex1 = is_ex || has_mod(b, j, m, 120);
        lemma_chain_checks(b, m, brk1, ex1);
        let ch = spec_chain(b, m, brk1, ex1);
        let (head, stars2) = star_head(button, ticks, stars, is_break, is_ex, is_tapless);
        let (evs, out) = spec_slide_rest(b, m, button, ticks, first, brk1, ex1, is_tapless);
        assert(s.events == head + evs);
        assert forall|k: int| 0 <= k < evs.len() implies !(#[trigger] evs[k] matches EventView::Note {
            note: NoteView::Tap { .. },
            ..
        }) by {
            if k < ch.checks.len() {
                assert(evs[k] == ch.checks[k]);
            }
        }
        if !(!is_tapless && !stars.contains(button)) {
            assert(head.len() == 0);
            assert forall|k: int| 0 <= k < s.events.len() implies !(#[trigger] s.events[k] matches EventView::Note {
                note: NoteView::Tap { .. },
                ..
            }) by {
                assert(s.events[k] == evs[k]);
            }
        }
    }
}

/// A touch note whose modifiers (after the region letter and its digit, if
/// any) begin with `h` or `f` is a touch hold; with `f` it is a firework.
pub proof fn lemma_touch_hold_modifiers(b: Seq<u8>, i: int, k: int, ticks: nat, stars: Seq<u8>)
    requires
        0 <= i,
        65 <= b[i] <= 69,
        k == if i + 1 < b.len() && is_digit_byte(b[i + 1]) {
            i + 2
        } else {
            i + 1
        },
        k < b.len(),
        b[k] == 104 || b[k] == 102,
    ensures
        ({
            let s = spec_touch_note(b, i, ticks, stars);
            s.outcome is Ok ==> s.events.len() == 1 && (s.events[0] matches EventView::Note {
                note: NoteView::TouchHold { region, is_firework, .. },
                ..
            } && region == b[i] as char && (b[k] == 102 ==> is_firework))
        }),
{
    lemma_modifier_end(b, k);
    lemma_modifier_end(b, k + 1);
    let m = modifier_end(b, k);
    assert(b.subrange(k, m)[0] == b[k]);
    assert(has_mod(b, k, m, b[k]));
}

} // verus!
