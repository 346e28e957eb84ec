//! Reading back a written fragment: the text that the renderer writes for
//! the notes of one measure position parses to those notes, each at the
//! position where it was written.

use vstd::prelude::*;
use vstd::string::*;
use vstd::utf8::{encode_utf8, has_width_1_encoding};
use crate::error::ErrorView;
use crate::fragment::{
    ScanState, EventView, NoteView, chain_done, has_mod, initial_state, scan, scan_step, slide_event,
    spec_button_note, spec_chain, spec_fragment, spec_slide_body, spec_slide_rest,
    spec_touch_note, star_head, touch_position,
};
use crate::lexer::{
    DurationBlock, DurationForm, SlideArc, arc_button, first_double_hash, first_in,
    is_digit_byte, is_modifier, modifier_end, pattern_at, spec_duration_block, spec_find_close,
    spec_read_slide_arc,
};
use crate::pattern::{SlidePattern, lemma_pattern_text_starts_pattern, spec_is_slide_pattern_char};
use crate::render::{
    ExportView, Rendered, TimingView, fraction_text, hold_text, one_based, pattern_out,
    render_holds, render_slides, render_taps, render_touch_holds, render_touch_taps, sep,
    slide_head, slide_mods, slide_starts, slide_text, spec_render_fragment, tap_text, text_if,
    timing_text, touch_hold_text, touch_tap_text,
};
use crate::text::{
    decimal, digit_char, is_digit_char, lemma_decimal_reads_back,
};

verus! {

/// Every character of `s` is ASCII.
pub open spec fn ascii_text(s: Seq<char>) -> bool {
    forall|k: int| 0 <= k < s.len() ==> (#[trigger] s[k] as u32) < 128
}

/// An ASCII text is encoded one byte per character, each byte the
/// character's code.
#[verifier::spinoff_prover]
proof fn lemma_ascii_encoding(s: Seq<char>)
    requires
        ascii_text(s),
    ensures
        encode_utf8(s).len() == s.len(),
        forall|k: int| 0 <= k < s.len() ==> encode_utf8(s)[k] as int == #[trigger] s[k] as int,
    decreases s.len(),
{
    if s.len() > 0 {
        let c = s[0] as u32;
        assert(c < 128);
        assert((c & 0x7F) == c) by (bit_vector)
            requires
                c < 128,
        ;
        assert(has_width_1_encoding(c));
        let rest = s.drop_first();
        assert(ascii_text(rest)) by {
            assert forall|k: int| 0 <= k < rest.len() implies (#[trigger] rest[k] as u32) < 128 by {
                assert(rest[k] == s[k + 1]);
            }
        }
        lemma_ascii_encoding(rest);
        assert(encode_utf8(s) == vstd::utf8::encode_scalar(c) + encode_utf8(rest));
        assert(vstd::utf8::encode_scalar(c) == seq![(c & 0x7F) as u8]);
        assert(((c & 0x7F) as u8) as int == c as int);
        lemma_char_code(s[0]);
        assert((s[0] as u32) as int == s[0] as int);
        assert(c as int == s[0] as int);
        assert(encode_utf8(s)[0] as int == s[0] as int);
        assert forall|k: int| 0 <= k < s.len() implies encode_utf8(s)[k] as int == #[trigger] s[k] as int by {
            if k > 0 {
                assert(s[k] == rest[k - 1]);
            }
        }
    }
}

/// A character's code, as a `u32`, is its code.
proof fn lemma_char_code(c: char)
    ensures
        (c as u32) as int == c as int,
{
}

/// The run of modifiers from `i` ends at `j`.
proof fn lemma_modifier_run(b: Seq<u8>, i: int, j: int)
    requires
        0 <= i <= j <= b.len(),
        forall|k: int| i <= k < j ==> is_modifier(#[trigger] b[k]),
        j == b.len() || !is_modifier(b[j]),
    ensures
        modifier_end(b, i) == j,
    decreases j - i,
{
    if i < j {
        lemma_modifier_run(b, i + 1, j);
    }
}

/// A button numbered from 1 is one digit.
proof fn lemma_one_based_digit(v: u8)
    requires
        v < 8,
    ensures
        one_based(v) == seq![digit_char(v as nat + 1)],
        digit_char(v as nat + 1) as int == 49 + v,
{
}

/// `c` stands in `b[lo..hi]` exactly when `some` holds.
proof fn lemma_has_mod_iff(b: Seq<u8>, lo: int, hi: int, c: u8, some: bool)
    requires
        0 <= lo <= hi <= b.len(),
        some ==> exists|k: int| lo <= k < hi && b[k] == c,
        !some ==> forall|k: int| lo <= k < hi ==> b[k] != c,
    ensures
        has_mod(b, lo, hi, c) == some,
{
    let r = b.subrange(lo, hi);
    if some {
        let k = choose|k: int| lo <= k < hi && b[k] == c;
        assert(r[k - lo] == c);
    } else {
        assert forall|x: int| 0 <= x < r.len() implies r[x] != c by {
            assert(r[x] == b[lo + x]);
        }
    }
}

proof fn lemma_first_in_at(b: Seq<u8>, lo: int, hi: int, c: u8, k: int)
    requires
        lo <= k < hi,
        0 <= k < b.len(),
        b[k] == c,
        forall|j: int| lo <= j < k ==> #[trigger] b[j] != c,
    ensures
        first_in(b, lo, hi, c) == Some(k),
    decreases k - lo,
{
    if lo < k {
        lemma_first_in_at(b, lo + 1, hi, c, k);
    }
}

proof fn lemma_first_in_none(b: Seq<u8>, lo: int, hi: int, c: u8)
    requires
        forall|j: int| lo <= j < hi ==> #[trigger] b[j] != c,
    ensures
        first_in(b, lo, hi, c) is None,
    decreases hi - lo,
{
    if lo < hi {
        lemma_first_in_none(b, lo + 1, hi, c);
    }
}

proof fn lemma_no_double_hash(b: Seq<u8>, lo: int, hi: int)
    requires
        forall|j: int| lo <= j < hi - 1 ==> !(#[trigger] b[j] == 35 && b[j + 1] == 35),
    ensures
        first_double_hash(b, lo, hi) is None,
    decreases hi - lo,
{
    if lo + 1 < hi {
        lemma_no_double_hash(b, lo + 1, hi);
    }
}

/// A block `[den:num]`, or `[head#den:num]` with a head of `hl > 0` bytes
/// that hold no `]`, `#` or `:`, whose numbers are runs of digits.
#[verifier::spinoff_prover]
proof fn lemma_ratio_block(b: Seq<u8>, i: int, hl: int, colon: int, close: int)
    requires
        0 <= i,
        hl >= 0,
        close < b.len() <= usize::MAX,
        b[i] == 91,
        forall|j: int| i < j < i + 1 + hl ==> #[trigger] b[j] != 93 && b[j] != 35 && b[j] != 58,
        hl > 0 ==> b[i + 1 + hl] == 35,
        (if hl > 0 {
            i + 2 + hl
        } else {
            i + 1
        }) <= colon < close,
        forall|j: int|
            (if hl > 0 {
                i + 2 + hl
            } else {
                i + 1
            }) <= j < colon ==> is_digit_byte(#[trigger] b[j]),
        b[colon] == 58,
        forall|j: int| colon < j < close ==> is_digit_byte(#[trigger] b[j]),
        b[close] == 93,
    ensures
        spec_duration_block(b, i) == Ok::<(DurationBlock, int), ErrorView>(
            (
                DurationBlock {
                    open: i as usize,
                    close: close as usize,
                    form: DurationForm::Ratio {
                        hash: if hl > 0 {
                            Some((i + 1 + hl) as usize)
                        } else {
                            None
                        },
                        colon: Some(colon as usize),
                        num_end: close as usize,
                    },
                },
                close + 1,
            ),
        ),
{
    let bs = if hl > 0 {
        i + 2 + hl
    } else {
        i + 1
    };
    assert forall|j: int| i + 1 <= j < close implies #[trigger] b[j] != 93 by {
        if bs <= j < colon || colon < j {
            assert(is_digit_byte(b[j]));
        }
    }
    lemma_first_in_at(b, i + 1, b.len() as int, 93, close);
    assert(spec_find_close(b, i, 93) == Ok::<int, ErrorView>(close));
    assert forall|j: int| i + 1 <= j < close - 1 implies !(#[trigger] b[j] == 35 && b[j + 1] == 35) by {
        if bs <= j < colon || colon < j {
            assert(is_digit_byte(b[j]));
        }
        if bs <= j + 1 < colon || colon < j + 1 {
            assert(is_digit_byte(b[j + 1]));
        }
    }
    lemma_no_double_hash(b, i + 1, close);
    assert forall|j: int| bs <= j < colon implies #[trigger] b[j] != 58 by {
        assert(is_digit_byte(b[j]));
    }
    lemma_first_in_at(b, bs, close, 58, colon);
    assert forall|j: int| colon + 1 <= j < close implies #[trigger] b[j] != 58 by {
        assert(is_digit_byte(b[j]));
    }
    lemma_first_in_none(b, colon + 1, close, 58);
    if hl > 0 {
        lemma_first_in_at(b, i + 1, close, 35, i + 1 + hl);
    } else {
        assert forall|j: int| i + 1 <= j < close implies #[trigger] b[j] != 35 by {
            if j < colon || colon < j {
                assert(is_digit_byte(b[j]));
            }
        }
        lemma_first_in_none(b, i + 1, close, 35);
    }
}

/// A BPM text that a scaled timing block can carry and give back: ASCII,
/// not empty, and free of `]`, `#` and `:`.
pub open spec fn plain_bpm_text(bpm: Seq<char>) -> bool {
    &&& bpm.len() > 0
    &&& ascii_text(bpm)
    &&& forall|k: int| 0 <= k < bpm.len() ==> #[trigger] bpm[k] != ']' && bpm[k] != '#' && bpm[k] != ':'
}

/// A timing that reads back as it was written.
pub open spec fn readable_timing(timing: TimingView) -> bool {
    match timing {
        TimingView::Plain { .. } => true,
        TimingView::Scaled { bpm, .. } => plain_bpm_text(bpm),
    }
}

/// Where the `#` of a timing's text stands, if it has one.
pub open spec fn timing_hash(timing: TimingView) -> Option<int> {
    match timing {
        TimingView::Plain { .. } => None,
        TimingView::Scaled { bpm, .. } => Some(1 + bpm.len() as int),
    }
}

/// Where the `:` of a timing's text stands.
pub open spec fn timing_colon(timing: TimingView) -> int {
    match timing {
        TimingView::Plain { den, .. } => 1 + decimal(den as nat).len() as int,
        TimingView::Scaled { bpm, den, .. } => 2 + bpm.len() as int + decimal(den as nat).len() as int,
    }
}

/// Where the `]` of a timing's text stands.
pub open spec fn timing_close(timing: TimingView) -> int {
    match timing {
        TimingView::Plain { num, .. } => timing_colon(timing) + 1 + decimal(num as nat).len(),
        TimingView::Scaled { num, .. } => timing_colon(timing) + 1 + decimal(num as nat).len(),
    }
}

/// The duration block that a timing written at `open` reads back as: its
/// numbers lie between the brackets, the `#` and the `:`.
pub open spec fn timing_block(open: int, timing: TimingView) -> DurationBlock {
    DurationBlock {
        open: open as usize,
        close: (open + timing_close(timing)) as usize,
        form: DurationForm::Ratio {
            hash: match timing_hash(timing) {
                Some(h) => Some((open + h) as usize),
                None => None,
            },
            colon: Some((open + timing_colon(timing)) as usize),
            num_end: (open + timing_close(timing)) as usize,
        },
    }
}

proof fn lemma_digits_ascii(n: nat)
    ensures
        decimal(n).len() > 0,
        forall|k: int| 0 <= k < decimal(n).len() ==> 48 <= #[trigger] decimal(n)[k] as int <= 57,
{
    lemma_decimal_reads_back(n);
    assert forall|k: int| 0 <= k < decimal(n).len() implies 48 <= #[trigger] decimal(n)[k] as int <= 57 by {
        assert(is_digit_char(decimal(n)[k]));
    }
}

/// The text of a timing, and where its parts stand.
#[verifier::spinoff_prover]
proof fn lemma_timing_chars(timing: TimingView)
    requires
        readable_timing(timing),
    ensures
        ascii_text(timing_text(timing)),
        timing_text(timing).len() == timing_close(timing) + 1,
        timing_text(timing)[0] == '[',
        timing_text(timing)[timing_close(timing)] == ']',
        timing_text(timing)[timing_colon(timing)] == ':',
        timing_hash(timing) matches Some(h) ==> timing_text(timing)[h] == '#' && 1 < h && forall|j: int|
            0 < j < h ==> #[trigger] timing_text(timing)[j] != ']' && timing_text(timing)[j] != '#'
                && timing_text(timing)[j] != ':',
        (match timing_hash(timing) {
            Some(h) => h + 1,
            None => 1,
        }) <= timing_colon(timing) < timing_close(timing),
        forall|j: int|
            (match timing_hash(timing) {
                Some(h) => h + 1,
                None => 1,
            }) <= j < timing_colon(timing) ==> 48 <= #[trigger] timing_text(timing)[j] as int <= 57,
        forall|j: int|
            timing_colon(timing) < j < timing_close(timing) ==> 48 <= #[trigger] timing_text(timing)[j] as int
                <= 57,
{
    reveal_strlit("[");
    reveal_strlit("#");
    reveal_strlit(":");
    reveal_strlit("]");
    match timing {
        TimingView::Plain { den, num } => {
            let dd = decimal(den as nat);
            let dn = decimal(num as nat);
            lemma_digits_ascii(den as nat);
            lemma_digits_ascii(num as nat);
            let t = timing_text(timing);
            assert(t == seq!['['] + dd + seq![':'] + dn + seq![']']);
            let colon = 1 + dd.len();
            assert forall|j: int| 1 <= j < colon implies 48 <= #[trigger] t[j] as int <= 57 by {
                assert(t[j] == dd[j - 1]);
            }
            assert forall|j: int| colon < j < colon + 1 + dn.len() implies 48 <= #[trigger] t[j] as int <= 57 by {
                assert(t[j] == dn[j - colon - 1]);
            }
            assert(ascii_text(t)) by {
                assert forall|k: int| 0 <= k < t.len() implies (#[trigger] t[k] as u32) < 128 by {
                    lemma_char_code(t[k]);
                    if 1 <= k < colon {
                        assert(48 <= t[k] as int <= 57);
                    } else if colon < k < colon + 1 + dn.len() {
                        assert(48 <= t[k] as int <= 57);
                    }
                }
            }
        },
        TimingView::Scaled { bpm, den, num } => {
            let dd = decimal(den as nat);
            let dn = decimal(num as nat);
            lemma_digits_ascii(den as nat);
            lemma_digits_ascii(num as nat);
            let t = timing_text(timing);
            assert(t == seq!['['] + bpm + seq!['#'] + dd + seq![':'] + dn + seq![']']);
            let h = 1 + bpm.len();
            let colon = h + 1 + dd.len();
            assert forall|j: int| 0 < j < h implies #[trigger] t[j] != ']' && t[j] != '#' && t[j] != ':' by {
                assert(t[j] == bpm[j - 1]);
            }
            assert forall|j: int| h + 1 <= j < colon implies 48 <= #[trigger] t[j] as int <= 57 by {
                assert(t[j] == dd[j - h - 1]);
            }
            assert forall|j: int| colon < j < colon + 1 + dn.len() implies 48 <= #[trigger] t[j] as int <= 57 by {
                assert(t[j] == dn[j - colon - 1]);
            }
            assert(ascii_text(t)) by {
                assert forall|k: int| 0 <= k < t.len() implies (#[trigger] t[k] as u32) < 128 by {
                    lemma_char_code(t[k]);
                    if 0 < k < h {
                        assert(t[k] == bpm[k - 1]);
                        lemma_char_code(bpm[k - 1]);
                    } else if h + 1 <= k < colon {
                        assert(48 <= t[k] as int <= 57);
                    } else if colon < k < colon + 1 + dn.len() {
                        assert(48 <= t[k] as int <= 57);
                    }
                }
            }
        },
    }
}

/// A timing written at `open` in an ASCII text reads back as its block.
#[verifier::spinoff_prover]
proof fn lemma_timing_reads_back(t: Seq<char>, b: Seq<u8>, open: int, timing: TimingView)
    requires
        readable_timing(timing),
        0 <= open,
        open + timing_text(timing).len() <= t.len(),
        b.len() == t.len() <= usize::MAX,
        t.subrange(open, open + timing_text(timing).len()) == timing_text(timing),
        forall|k: int| 0 <= k < t.len() ==> b[k] as int == #[trigger] t[k] as int,
    ensures
        spec_duration_block(b, open) == Ok::<(DurationBlock, int), ErrorView>(
            (timing_block(open, timing), open + timing_text(timing).len()),
        ),
{
    lemma_timing_chars(timing);
    let tt = timing_text(timing);
    let n = open + tt.len();
    assert forall|j: int| 0 <= j < tt.len() implies b[open + j] as int == #[trigger] tt[j] as int by {
        assert(t.subrange(open, n)[j] == t[open + j]);
    }
    let hl: int = match timing_hash(timing) {
        Some(h) => h - 1,
        None => 0,
    };
    let colon = open + timing_colon(timing);
    let close = open + timing_close(timing);
    assert(b[open] as int == tt[0] as int);
    assert(b[close] as int == tt[timing_close(timing)] as int);
    assert(b[colon] as int == tt[timing_colon(timing)] as int);
    if let Some(h) = timing_hash(timing) {
        assert(b[open + h] as int == tt[h] as int);
    }
    assert forall|j: int| open < j < open + 1 + hl implies #[trigger] b[j] != 93 && b[j] != 35 && b[j] != 58 by {
        assert(b[open + (j - open)] as int == tt[j - open] as int);
    }
    let bs = if hl > 0 {
        open + 2 + hl
    } else {
        open + 1
    };
    assert forall|j: int| bs <= j < colon implies is_digit_byte(#[trigger] b[j]) by {
        assert(b[open + (j - open)] as int == tt[j - open] as int);
    }
    assert forall|j: int| colon < j < close implies is_digit_byte(#[trigger] b[j]) by {
        assert(b[open + (j - open)] as int == tt[j - open] as int);
    }
    lemma_ratio_block(b, open, hl, colon, close);
}

proof fn lemma_ascii_concat(x: Seq<char>, y: Seq<char>)
    requires
        ascii_text(x),
        ascii_text(y),
    ensures
        ascii_text(x + y),
{
    assert forall|k: int| 0 <= k < (x + y).len() implies (#[trigger] (x + y)[k] as u32) < 128 by {
        if k < x.len() {
            assert((x + y)[k] == x[k]);
        } else {
            assert((x + y)[k] == y[k - x.len()]);
        }
    }
}

/// A text of ASCII characters given by their codes.
proof fn lemma_ascii_codes(x: Seq<char>)
    requires
        forall|k: int| 0 <= k < x.len() ==> (#[trigger] x[k] as int) < 128,
    ensures
        ascii_text(x),
{
    assert forall|k: int| 0 <= k < x.len() implies (#[trigger] x[k] as u32) < 128 by {
        lemma_char_code(x[k]);
    }
}

/// A touch region that a touch note is written with and read back from.
pub open spec fn touch_region(region: char) -> bool {
    region == 'A' || region == 'B' || region == 'C' || region == 'D' || region == 'E'
}

/// The position that a touch note reads back with: `C` is written without
/// one and reads back as 0.
pub open spec fn position_read_back(region: char, position: u8) -> u8 {
    if region == 'C' {
        0
    } else {
        position
    }
}

/// What a written touch tap reads back as: a touch tap, or, with the
/// firework modifier, a firework touch hold without a duration.
pub open spec fn touch_tap_read_back(region: char, position: u8, is_firework: bool) -> NoteView {
    if is_firework {
        NoteView::TouchHold {
            region,
            position: position_read_back(region, position),
            is_firework: true,
            duration: None,
        }
    } else {
        NoteView::TouchTap {
            region,
            position: position_read_back(region, position),
            is_firework: false,
        }
    }
}

/// The region letter and, except for `C`, the position digit of a touch note.
pub open spec fn touch_head(region: char, position: u8) -> Seq<char> {
    if region == 'C' {
        seq!['C']
    } else {
        seq![region] + one_based(position)
    }
}

proof fn lemma_byte_char(x: u8, c: char)
    requires
        x as int == c as int,
    ensures
        x as char == c,
{
}

proof fn lemma_touch_head_ascii(region: char, position: u8)
    requires
        touch_region(region),
        region != 'C' ==> position < 8,
    ensures
        ascii_text(touch_head(region, position)),
        touch_head(region, position).len() == if region == 'C' {
            1int
        } else {
            2int
        },
{
    let h = touch_head(region, position);
    if region != 'C' {
        lemma_one_based_digit(position);
    }
    assert forall|k: int| 0 <= k < h.len() implies (#[trigger] h[k] as int) < 128 by {
        if k == 1 {
            assert(h[1] == digit_char(position as nat + 1));
        }
    }
    lemma_ascii_codes(h);
}

/// The reflect button that a slide reads back with: for `V`, the one written
/// (its end button when there is none); no other pattern writes one.
pub open spec fn reflect_read_back(pattern: SlidePattern, reflect: Option<u8>, end: u8) -> Option<u8> {
    if pattern == SlidePattern::BigV {
        Some(
            match reflect {
                Some(r) => r,
                None => end,
            },
        )
    } else {
        None
    }
}

/// The buttons of a slide arc lie on the ring.
pub open spec fn arc_on_ring(pattern: SlidePattern, reflect: Option<u8>, end: u8) -> bool {
    &&& end < 8
    &&& (pattern == SlidePattern::BigV ==> (reflect matches Some(r) ==> r < 8))
}

/// The text of an arc: its pattern and its end button.
pub open spec fn arc_text(pattern: SlidePattern, reflect: Option<u8>, end: u8) -> Seq<char> {
    pattern_out(pattern, reflect, end) + one_based(end)
}

#[verifier::spinoff_prover]
proof fn lemma_arc_text(pattern: SlidePattern, reflect: Option<u8>, end: u8)
    requires
        arc_on_ring(pattern, reflect, end),
    ensures
        ascii_text(arc_text(pattern, reflect, end)),
        arc_text(pattern, reflect, end).len() == pattern.text().len() + 1 + if pattern
            == SlidePattern::BigV {
            1int
        } else {
            0int
        },
        pattern == SlidePattern::BigV ==> arc_text(pattern, reflect, end) == seq![
            'V',
            digit_char(reflect_read_back(pattern, reflect, end)->0 as nat + 1),
            digit_char(end as nat + 1),
        ],
        pattern != SlidePattern::BigV ==> arc_text(pattern, reflect, end) == pattern.text() + seq![
            digit_char(end as nat + 1),
        ],
{
    reveal_strlit("V");
    lemma_one_based_digit(end);
    let t = arc_text(pattern, reflect, end);
    if pattern == SlidePattern::BigV {
        let r = reflect_read_back(pattern, reflect, end)->0;
        lemma_one_based_digit(r);
        assert(t =~= seq!['V', digit_char(r as nat + 1), digit_char(end as nat + 1)]);
    } else {
        assert(t =~= pattern.text() + seq![digit_char(end as nat + 1)]);
    }
    assert forall|k: int| 0 <= k < t.len() implies (#[trigger] t[k] as int) < 128 by {
        if pattern != SlidePattern::BigV && k < pattern.text().len() {
            assert(t[k] == pattern.text()[k]);
        }
    }
    lemma_ascii_codes(t);
}

/// An arc written at `m`, and followed by something other than a pattern
/// letter, reads back as its pattern, end and reflect buttons.
#[verifier::spinoff_prover]
#[verifier::rlimit(40)]
proof fn lemma_arc_reads_back(b: Seq<u8>, m: int, pattern: SlidePattern, reflect: Option<u8>, end: u8)
    requires
        arc_on_ring(pattern, reflect, end),
        0 <= m,
        m + arc_text(pattern, reflect, end).len() <= b.len(),
        forall|k: int|
            0 <= k < arc_text(pattern, reflect, end).len() ==> #[trigger] b[m + k] as int
                == arc_text(pattern, reflect, end)[k] as int,
    ensures
        spec_read_slide_arc(b, m) == Ok::<(SlideArc, int), ErrorView>(
            (
                SlideArc { pattern, end, reflect: reflect_read_back(pattern, reflect, end) },
                m + arc_text(pattern, reflect, end).len(),
            ),
        ),
{
    lemma_arc_text(pattern, reflect, end);
    let t = arc_text(pattern, reflect, end);
    let pl = pattern.text().len() as int;
    assert(b[m + 0] as int == t[0] as int);
    if pattern == SlidePattern::BigV {
        let r = reflect_read_back(pattern, reflect, end)->0;
        lemma_one_based_digit(r);
        assert(b[m + 1] as int == t[1] as int);
        assert(b[m + 2] as int == t[2] as int);
        assert(arc_button(b[m + 1]) == r);
        assert(arc_button(b[m + 2]) == end);
    } else {
        assert(b[m + pl] as int == t[pl] as int);
        assert(t[pl] == digit_char(end as nat + 1));
        assert(arc_button(b[m + pl]) == end);
        if pl == 2 {
            assert(b[m + 1] as int == t[1] as int);
        }
        assert(pattern_at(b, m) == Some((pattern, pl)));
    }
}

/// The text of a slide written from its start for the first time in a
/// fragment: start button, modifier, arc and timing.
pub open spec fn written_slide_text(
    start: u8,
    end: u8,
    pattern: SlidePattern,
    reflect: Option<u8>,
    is_break: bool,
    is_ex: bool,
    is_tapless: bool,
    timing: TimingView,
) -> Seq<char> {
    slide_head(false, start) + slide_mods(false, is_tapless, is_break, is_ex) + pattern_out(
        pattern,
        reflect,
        end,
    ) + one_based(end) + timing_text(timing)
}

/// A note that reads back as it was written: its buttons lie on the ring,
/// a touch note's region is one of `A`..`E`, and a slide's timing reads
/// back.
pub open spec fn readable_note(n: ExportView) -> bool {
    match n {
        ExportView::Tap { button, .. } => button < 8,
        ExportView::Hold { button, .. } => button < 8,
        ExportView::TouchTap { region, position, .. } => touch_region(region) && (region != 'C'
            ==> position < 8),
        ExportView::TouchHold { region, position, .. } => touch_region(region) && (region != 'C'
            ==> position < 8),
        ExportView::Slide { start, end, pattern, reflect, timing, .. } => start < 8 && arc_on_ring(
            pattern,
            reflect,
            end,
        ) && readable_timing(timing),
    }
}

/// The text of a note as it is written in a fragment.
pub open spec fn written_text(n: ExportView) -> Seq<char> {
    match n {
        ExportView::Tap { button, is_break, is_ex, is_star } => tap_text(button, is_break, is_ex, is_star),
        ExportView::Hold { button, is_ex, den, num } => hold_text(button, is_ex, den, num),
        ExportView::TouchTap { region, position, is_firework } => touch_tap_text(region, position, is_firework),
        ExportView::TouchHold { region, position, is_firework, den, num } => touch_hold_text(
            region,
            position,
            is_firework,
            den,
            num,
        ),
        ExportView::Slide { start, end, pattern, reflect, is_break, is_ex, is_tapless, timing } =>
            written_slide_text(start, end, pattern, reflect, is_break, is_ex, is_tapless, timing),
    }
}

/// `x` stands in `t` from `p`.
pub open spec fn text_at(t: Seq<char>, p: int, x: Seq<char>) -> bool {
    0 <= p && p + x.len() <= t.len() && t.subrange(p, p + x.len()) == x
}

/// The bytes `b` are the codes of the ASCII characters of `t`.
pub open spec fn bytes_of(t: Seq<char>, b: Seq<u8>) -> bool {
    &&& b.len() == t.len()
    &&& b.len() <= usize::MAX
    &&& forall|k: int| 0 <= k < t.len() ==> b[k] as int == #[trigger] t[k] as int
}

/// A note's text ends at `q`: at the end of the fragment or at a `/`.
pub open spec fn note_ends(t: Seq<char>, q: int) -> bool {
    q == t.len() || (0 <= q < t.len() && t[q] == '/')
}

/// The scanner's state after a note.
pub open spec fn after_note(last: Option<u8>, stars: Seq<u8>) -> ScanState {
    ScanState { pending: false, ticks: 0, last, stars }
}

proof fn lemma_bytes_at(t: Seq<char>, b: Seq<u8>, p: int, x: Seq<char>)
    requires
        bytes_of(t, b),
        text_at(t, p, x),
    ensures
        forall|k: int| 0 <= k < x.len() ==> b[p + k] as int == #[trigger] x[k] as int,
        forall|k: int| 0 <= k < x.len() ==> #[trigger] t[p + k] == x[k],
{
    assert forall|k: int| 0 <= k < x.len() implies #[trigger] t[p + k] == x[k] by {
        assert(t.subrange(p, p + x.len())[k] == t[p + k]);
    }
    assert forall|k: int| 0 <= k < x.len() implies b[p + k] as int == #[trigger] x[k] as int by {
        assert(t[p + k] == x[k]);
    }
}

/// What follows a note is not a modifier nor a pattern letter nor `*`.
proof fn lemma_note_end_byte(t: Seq<char>, b: Seq<u8>, q: int)
    requires
        bytes_of(t, b),
        note_ends(t, q),
    ensures
        q < b.len() ==> b[q] == 47 && !is_modifier(b[q]) && !spec_is_slide_pattern_char(b[q] as char)
            && b[q] != 42 && b[q] != 91,
{
    if q < b.len() {
        assert(b[q] as int == t[q] as int);
    }
}

/// A tap written at `p` is read as that tap.
#[verifier::spinoff_prover]
#[verifier::rlimit(40)]
proof fn lemma_tap_step(
    t: Seq<char>,
    b: Seq<u8>,
    p: int,
    button: u8,
    brk: bool,
    ex: bool,
    star: bool,
    st: ScanState,
)
    requires
        button < 8,
        bytes_of(t, b),
        text_at(t, p, tap_text(button, brk, ex, star)),
        note_ends(t, p + tap_text(button, brk, ex, star).len()),
        !st.pending,
    ensures
        scan_step(b, t, p, st) == (
            seq![
                EventView::Note {
                    ticks: 0,
                    note: NoteView::Tap { button, is_break: brk, is_ex: ex, is_star: star },
                },
            ],
            Ok::<(int, ScanState), ErrorView>(
                (p + tap_text(button, brk, ex, star).len(), after_note(Some(button), st.stars)),
            ),
        ),
{
    reveal_strlit("b");
    reveal_strlit("x");
    reveal_strlit("$");
    lemma_one_based_digit(button);
    let d = seq![digit_char(button as nat + 1)];
    let mb = text_if(brk, "b"@);
    let mx = text_if(ex, "x"@);
    let ms = text_if(star, "$"@);
    let x = tap_text(button, brk, ex, star);
    assert(x == d + mb + mx + ms);
    let nb: int = if brk { 1 } else { 0 };
    let nx: int = if ex { 1 } else { 0 };
    let ns: int = if star { 1 } else { 0 };
    assert(x.len() == 1 + nb + nx + ns);
    let q = p + x.len();
    assert forall|k: int| 1 <= k < x.len() implies #[trigger] x[k] == (if brk && k == 1 {
        'b'
    } else if ex && k == 1 + nb {
        'x'
    } else {
        '$'
    }) && (k == 1 + nb + nx ==> star) by {
        if k < 1 + nb {
            assert(x[k] == mb[k - 1]);
        } else if k < 1 + nb + nx {
            assert(x[k] == mx[k - 1 - nb]);
        } else {
            assert(x[k] == ms[k - 1 - nb - nx]);
        }
    }
    lemma_bytes_at(t, b, p, x);
    lemma_note_end_byte(t, b, q);
    assert(x[0] == digit_char(button as nat + 1));
    assert(b[p + 0] as int == 49 + button);
    assert forall|k: int| p + 1 <= k < q implies is_modifier(#[trigger] b[k]) && b[k] != 104 && (brk
        || b[k] != 98) && (ex || b[k] != 120) && (star || b[k] != 36) by {
        assert(b[p + (k - p)] as int == x[k - p] as int);
    }
    lemma_modifier_run(b, p + 1, q);
    if brk {
        assert(b[p + 1] as int == x[1] as int);
    }
    if ex {
        assert(b[p + (1 + nb)] as int == x[1 + nb] as int);
    }
    if star {
        assert(b[p + (1 + nb + nx)] as int == x[1 + nb + nx] as int);
    }
    lemma_has_mod_iff(b, p + 1, q, 98, brk);
    lemma_has_mod_iff(b, p + 1, q, 120, ex);
    lemma_has_mod_iff(b, p + 1, q, 36, star);
    lemma_has_mod_iff(b, p + 1, q, 104, false);
    let tap = EventView::Note {
        ticks: 0,
        note: NoteView::Tap { button, is_break: brk, is_ex: ex, is_star: star },
    };
    let step = spec_button_note(b, p, 0, st.stars);
    assert(((b[p] - 49) % 8) as u8 == button);
    assert(step.events == seq![tap]);
    assert(step.outcome == Ok::<(int, Seq<u8>), ErrorView>((q, st.stars)));
    reveal(scan_step);
}

/// A hold written at `p` is read as that hold, its duration block around
/// its numbers.
#[verifier::spinoff_prover]
#[verifier::rlimit(60)]
proof fn lemma_hold_step(
    t: Seq<char>,
    b: Seq<u8>,
    p: int,
    button: u8,
    ex: bool,
    den: u32,
    num: u32,
    st: ScanState,
)
    requires
        button < 8,
        bytes_of(t, b),
        text_at(t, p, hold_text(button, ex, den, num)),
        note_ends(t, p + hold_text(button, ex, den, num).len()),
        !st.pending,
    ensures
        scan_step(b, t, p, st) == (
            seq![
                EventView::Note {
                    ticks: 0,
                    note: NoteView::Hold {
                        button,
                        is_ex: ex,
                        duration: Some(
                            timing_block(
                                p + if ex {
                                    3int
                                } else {
                                    2int
                                },
                                TimingView::Plain { den, num },
                            ),
                        ),
                    },
                },
            ],
            Ok::<(int, ScanState), ErrorView>(
                (p + hold_text(button, ex, den, num).len(), after_note(Some(button), st.stars)),
            ),
        ),
{
    reveal_strlit("h");
    reveal_strlit("hx");
    lemma_one_based_digit(button);
    let timing = TimingView::Plain { den, num };
    lemma_timing_chars(timing);
    let d = seq![digit_char(button as nat + 1)];
    let hm = if ex {
        "hx"@
    } else {
        "h"@
    };
    let ft = timing_text(timing);
    assert(ft == fraction_text(den, num));
    let x = hold_text(button, ex, den, num);
    assert(x == d + hm + ft);
    let open: int = p + 1 + hm.len() as int;
    let q = p + x.len();
    lemma_bytes_at(t, b, p, x);
    lemma_note_end_byte(t, b, q);
    assert(x[0] == digit_char(button as nat + 1));
    assert(b[p + 0] as int == 49 + button);
    assert forall|k: int| p + 1 <= k < open implies is_modifier(#[trigger] b[k]) && b[k] != 98
        && b[k] != 36 && (ex || b[k] != 120) by {
        assert(b[p + (k - p)] as int == x[k - p] as int);
        assert(x[k - p] == hm[k - p - 1]);
    }
    assert(x[open - p] == ft[0]);
    assert(b[p + (open - p)] as int == x[open - p] as int);
    lemma_modifier_run(b, p + 1, open);
    assert(x[1] == 'h');
    assert(b[p + 1] as int == x[1] as int);
    if ex {
        assert(x[2] == 'x');
        assert(b[p + 2] as int == x[2] as int);
    }
    lemma_has_mod_iff(b, p + 1, open, 104, true);
    lemma_has_mod_iff(b, p + 1, open, 120, ex);
    assert(t.subrange(open, open + ft.len()) =~= ft) by {
        assert forall|j: int| 0 <= j < ft.len() implies t.subrange(open, open + ft.len())[j] == ft[j] by {
            assert(t[p + (open - p + j)] == x[open - p + j]);
        }
    }
    lemma_timing_reads_back(t, b, open, timing);
    let hold = EventView::Note {
        ticks: 0,
        note: NoteView::Hold { button, is_ex: ex, duration: Some(timing_block(open, timing)) },
    };
    let step = spec_button_note(b, p, 0, st.stars);
    assert(((b[p] - 49) % 8) as u8 == button);
    assert(step.events == seq![hold]);
    assert(step.outcome == Ok::<(int, Seq<u8>), ErrorView>((q, st.stars)));
    reveal(scan_step);
}

/// The head of a touch note written at `p`, read as bytes: the region, and
/// the position when one is written.
#[verifier::spinoff_prover]
proof fn lemma_touch_head_at(t: Seq<char>, b: Seq<u8>, p: int, region: char, position: u8, x: Seq<char>)
    requires
        touch_region(region),
        region != 'C' ==> position < 8,
        bytes_of(t, b),
        text_at(t, p, x),
        x.len() >= touch_head(region, position).len(),
        x.subrange(0, touch_head(region, position).len() as int) == touch_head(region, position),
        x.len() > touch_head(region, position).len() ==> !(48 <= x[touch_head(region, position).len() as int] as int <= 57),
        x.len() == touch_head(region, position).len() ==> note_ends(t, p + x.len()),
    ensures
        65 <= b[p] <= 69,
        b[p] as char == region,
        ({
            let j = p + 1;
            let has_pos = j < b.len() && is_digit_byte(b[j]);
            &&& has_pos == (region != 'C')
            &&& has_pos ==> touch_position(b[j]) == position
            &&& (if has_pos { j + 1 } else { j }) == p + touch_head(region, position).len()
        }),
{
    let h = touch_head(region, position);
    lemma_bytes_at(t, b, p, x);
    assert(x.subrange(0, h.len() as int)[0] == x[0]);
    assert(b[p + 0] as int == x[0] as int);
    lemma_byte_char(b[p], region);
    if region != 'C' {
        lemma_one_based_digit(position);
        assert(x.subrange(0, h.len() as int)[1] == x[1]);
        assert(b[p + 1] as int == x[1] as int);
    } else if x.len() > 1 {
        assert(b[p + 1] as int == x[1] as int);
    } else {
        lemma_note_end_byte(t, b, p + 1);
    }
}

/// A touch tap written at `p` is read as `touch_tap_read_back` says (a `C`
/// with position 0).
#[verifier::spinoff_prover]
#[verifier::rlimit(60)]
proof fn lemma_touch_tap_step(
    t: Seq<char>,
    b: Seq<u8>,
    p: int,
    region: char,
    position: u8,
    fw: bool,
    st: ScanState,
)
    requires
        touch_region(region),
        region != 'C' ==> position < 8,
        bytes_of(t, b),
        text_at(t, p, touch_tap_text(region, position, fw)),
        note_ends(t, p + touch_tap_text(region, position, fw).len()),
        !st.pending,
    ensures
        scan_step(b, t, p, st) == (
            seq![EventView::Note { ticks: 0, note: touch_tap_read_back(region, position, fw) }],
            Ok::<(int, ScanState), ErrorView>(
                (p + touch_tap_text(region, position, fw).len(), after_note(st.last, st.stars)),
            ),
        ),
{
    reveal_strlit("C");
    reveal_strlit("f");
    let h = touch_head(region, position);
    let mf = text_if(fw, "f"@);
    let x = touch_tap_text(region, position, fw);
    assert(x == h + mf);
    lemma_touch_head_ascii(region, position);
    let hl = h.len() as int;
    let q = p + x.len();
    assert(x.subrange(0, hl) =~= h);
    if x.len() > hl {
        assert(x[hl] == 'f');
    }
    lemma_touch_head_at(t, b, p, region, position, x);
    lemma_bytes_at(t, b, p, x);
    lemma_note_end_byte(t, b, q);
    assert forall|k: int| p + hl <= k < q implies is_modifier(#[trigger] b[k]) && b[k] != 104
        && b[k] == 102 by {
        assert(b[p + (k - p)] as int == x[k - p] as int);
        assert(x[k - p] == mf[k - p - hl]);
    }
    lemma_modifier_run(b, p + hl, q);
    lemma_has_mod_iff(b, p + hl, q, 104, false);
    if fw {
        assert(b[p + hl] == 102);
    }
    lemma_has_mod_iff(b, p + hl, q, 102, fw);
    let tap = EventView::Note { ticks: 0, note: touch_tap_read_back(region, position, fw) };
    let step = spec_touch_note(b, p, 0, st.stars);
    assert(step.events == seq![tap]);
    assert(step.outcome == Ok::<(int, Seq<u8>), ErrorView>((q, st.stars)));
    reveal(scan_step);
}

/// A touch hold written at `p` is read as that touch hold, its duration
/// block around its numbers.
#[verifier::spinoff_prover]
#[verifier::rlimit(60)]
proof fn lemma_touch_hold_step(
    t: Seq<char>,
    b: Seq<u8>,
    p: int,
    region: char,
    position: u8,
    fw: bool,
    den: u32,
    num: u32,
    st: ScanState,
)
    requires
        touch_region(region),
        region != 'C' ==> position < 8,
        bytes_of(t, b),
        text_at(t, p, touch_hold_text(region, position, fw, den, num)),
        note_ends(t, p + touch_hold_text(region, position, fw, den, num).len()),
        !st.pending,
    ensures
        scan_step(b, t, p, st) == (
            seq![
                EventView::Note {
                    ticks: 0,
                    note: NoteView::TouchHold {
                        region,
                        position: position_read_back(region, position),
                        is_firework: fw,
                        duration: Some(
                            timing_block(
                                p + touch_head(region, position).len() + if fw {
                                    2int
                                } else {
                                    1int
                                },
                                TimingView::Plain { den, num },
                            ),
                        ),
                    },
                },
            ],
            Ok::<(int, ScanState), ErrorView>(
                (
                    p + touch_hold_text(region, position, fw, den, num).len(),
                    after_note(st.last, st.stars),
                ),
            ),
        ),
{
    reveal_strlit("C");
    reveal_strlit("h");
    reveal_strlit("hf");
    let timing = TimingView::Plain { den, num };
    lemma_timing_chars(timing);
    let h = touch_head(region, position);
    let hm = if fw {
        "hf"@
    } else {
        "h"@
    };
    let ft = timing_text(timing);
    assert(ft == fraction_text(den, num));
    let x = touch_hold_text(region, position, fw, den, num);
    assert(x == h + hm + ft);
    lemma_touch_head_ascii(region, position);
    let hl = h.len() as int;
    let open: int = p + hl + hm.len() as int;
    let q = p + x.len();
    assert(x.subrange(0, hl) =~= h);
    assert(x[hl] == 'h');
    lemma_touch_head_at(t, b, p, region, position, x);
    lemma_bytes_at(t, b, p, x);
    lemma_note_end_byte(t, b, q);
    assert forall|k: int| p + hl <= k < open implies is_modifier(#[trigger] b[k]) && (fw || b[k]
        != 102) by {
        assert(b[p + (k - p)] as int == x[k - p] as int);
        assert(x[k - p] == hm[k - p - hl]);
    }
    assert(x[open - p] == ft[0]);
    assert(b[p + (open - p)] as int == x[open - p] as int);
    lemma_modifier_run(b, p + hl, open);
    assert(b[p + hl] as int == x[hl] as int);
    lemma_has_mod_iff(b, p + hl, open, 104, true);
    if fw {
        assert(x[hl + 1] == 'f');
        assert(b[p + (hl + 1)] as int == x[hl + 1] as int);
    }
    lemma_has_mod_iff(b, p + hl, open, 102, fw);
    assert(t.subrange(open, open + ft.len()) =~= ft) by {
        assert forall|j: int| 0 <= j < ft.len() implies t.subrange(open, open + ft.len())[j] == ft[j] by {
            assert(t[p + (open - p + j)] == x[open - p + j]);
        }
    }
    lemma_timing_reads_back(t, b, open, timing);
    let hold = EventView::Note {
        ticks: 0,
        note: NoteView::TouchHold {
            region,
            position: position_read_back(region, position),
            is_firework: fw,
            duration: Some(timing_block(open, timing)),
        },
    };
    let step = spec_touch_note(b, p, 0, st.stars);
    assert(step.events == seq![hold]);
    assert(step.outcome == Ok::<(int, Seq<u8>), ErrorView>((q, st.stars)));
    reveal(scan_step);
}

/// What a slide written at `p` reads back as: its star tap (unless it is
/// tapless) and the slide, with the one modifier that was written (`?` for
/// tapless, else `b`, else `x`), its arc, no chain, and its duration block.
pub open spec fn slide_read_back_at(
    p: int,
    start: u8,
    end: u8,
    pattern: SlidePattern,
    reflect: Option<u8>,
    is_break: bool,
    is_ex: bool,
    is_tapless: bool,
    timing: TimingView,
) -> Seq<EventView> {
    let brk = !is_tapless && is_break;
    let ex = !is_tapless && !is_break && is_ex;
    let open = p + 1 + (if is_tapless || is_break || is_ex {
        1int
    } else {
        0int
    }) + arc_text(pattern, reflect, end).len();
    let slide = EventView::Note {
        ticks: 0,
        note: NoteView::Slide {
            start,
            first: SlideArc { pattern, end, reflect: reflect_read_back(pattern, reflect, end) },
            chain: seq![],
            is_break: brk,
            is_ex: ex,
            is_tapless,
            duration: Some(timing_block(open, timing)),
        },
    };
    if is_tapless {
        seq![slide]
    } else {
        seq![
            EventView::Note {
                ticks: 0,
                note: NoteView::Tap { button: start, is_break: brk, is_ex: ex, is_star: true },
            },
            slide,
        ]
    }
}

/// After the first arc of a slide, at `next`: a duration block that ends the
/// note gives no chain and is the slide's duration.
#[verifier::spinoff_prover]
#[verifier::rlimit(40)]
proof fn lemma_slide_rest_at(
    t: Seq<char>,
    b: Seq<u8>,
    next: int,
    start: u8,
    first: SlideArc,
    brk: bool,
    ex: bool,
    tapless: bool,
    timing: TimingView,
)
    requires
        readable_timing(timing),
        bytes_of(t, b),
        text_at(t, next, timing_text(timing)),
        note_ends(t, next + timing_text(timing).len()),
    ensures
        spec_slide_rest(b, next, start, 0, first, brk, ex, tapless) == (
            seq![slide_event(0, start, first, seq![], brk, ex, tapless, Some(timing_block(next, timing)))],
            Ok::<int, ErrorView>(next + timing_text(timing).len()),
        ),
{
    lemma_timing_chars(timing);
    lemma_timing_reads_back(t, b, next, timing);
    let q = next + timing_text(timing).len();
    lemma_note_end_byte(t, b, q);
    lemma_bytes_at(t, b, next, timing_text(timing));
    assert(b[next + 0] as int == timing_text(timing)[0] as int);
    assert(b[next] == 91);
    lemma_modifier_run(b, next, next);
    reveal(spec_chain);
    assert(spec_chain(b, next, brk, ex) == chain_done(next, brk, ex));
    reveal(spec_slide_rest);
    assert(!has_mod(b, next, next, 98));
    assert(!has_mod(b, next, next, 120));
    assert(Seq::<EventView>::empty() + seq![slide_event(0, start, first, seq![], brk, ex, tapless, Some(timing_block(next, timing)))] =~= seq![slide_event(0, start, first, seq![], brk, ex, tapless, Some(timing_block(next, timing)))]);
}

/// A slide written at `p`, from a button that has shown no star yet, is
/// read as its star tap (unless tapless) and the slide.
#[verifier::spinoff_prover]
#[verifier::rlimit(80)]
proof fn lemma_slide_step(
    t: Seq<char>,
    b: Seq<u8>,
    p: int,
    start: u8,
    end: u8,
    pattern: SlidePattern,
    reflect: Option<u8>,
    brk: bool,
    ex: bool,
    tapless: bool,
    timing: TimingView,
    st: ScanState,
)
    requires
        start < 8,
        arc_on_ring(pattern, reflect, end),
        readable_timing(timing),
        bytes_of(t, b),
        text_at(t, p, written_slide_text(start, end, pattern, reflect, brk, ex, tapless, timing)),
        note_ends(t, p + written_slide_text(start, end, pattern, reflect, brk, ex, tapless, timing).len()),
        !st.pending,
        !st.stars.contains(start),
    ensures
        scan_step(b, t, p, st) == (
            slide_read_back_at(p, start, end, pattern, reflect, brk, ex, tapless, timing),
            Ok::<(int, ScanState), ErrorView>(
                (
                    p + written_slide_text(start, end, pattern, reflect, brk, ex, tapless, timing).len(),
                    after_note(
                        Some(start),
                        if tapless {
                            st.stars
                        } else {
                            st.stars.push(start)
                        },
                    ),
                ),
            ),
        ),
{
    reveal_strlit("?");
    reveal_strlit("b");
    reveal_strlit("x");
    lemma_one_based_digit(start);
    lemma_arc_text(pattern, reflect, end);
    lemma_timing_chars(timing);
    lemma_pattern_text_starts_pattern(pattern);
    let d = seq![digit_char(start as nat + 1)];
    let mods = slide_mods(false, tapless, brk, ex);
    let at = arc_text(pattern, reflect, end);
    let tt = timing_text(timing);
    let x = written_slide_text(start, end, pattern, reflect, brk, ex, tapless, timing);
    assert(x =~= d + mods + at + tt);
    let ml: int = mods.len() as int;
    assert(ml == if tapless || brk || ex {
        1int
    } else {
        0int
    });
    let m = p + 1 + ml;
    let next = m + at.len();
    let q = p + x.len();
    lemma_bytes_at(t, b, p, x);
    // the digit and the modifier
    assert(x[0] == digit_char(start as nat + 1));
    assert(b[p + 0] as int == 49 + start);
    assert forall|k: int| p + 1 <= k < m implies is_modifier(#[trigger] b[k]) && b[k] != 104
        && b[k] != 36 && b[k] != 33 by {
        assert(b[p + (k - p)] as int == x[k - p] as int);
        assert(x[k - p] == mods[k - p - 1]);
    }
    assert(x[m - p] == at[0]);
    assert(b[p + (m - p)] as int == x[m - p] as int);
    assert(at[0] == if pattern == SlidePattern::BigV {
        'V'
    } else {
        pattern.text()[0]
    });
    lemma_modifier_run(b, p + 1, m);
    if ml == 1 {
        assert(b[p + 1] as int == x[1] as int);
        assert(x[1] == mods[0]);
    }
    let brk2 = !tapless && brk;
    let ex2 = !tapless && !brk && ex;
    lemma_has_mod_iff(b, p + 1, m, 98, brk2);
    lemma_has_mod_iff(b, p + 1, m, 120, ex2);
    lemma_has_mod_iff(b, p + 1, m, 104, false);
    lemma_has_mod_iff(b, p + 1, m, 36, false);
    lemma_has_mod_iff(b, p + 1, m, 63, tapless);
    lemma_has_mod_iff(b, p + 1, m, 33, false);
    assert(spec_is_slide_pattern_char(b[m] as char)) by {
        lemma_byte_char(b[m], at[0]);
    }
    // the arc
    assert forall|k: int| 0 <= k < at.len() implies #[trigger] b[m + k] as int == at[k] as int by {
        assert(b[p + (m - p + k)] as int == x[m - p + k] as int);
        assert(x[m - p + k] == at[k]);
    }
    lemma_arc_reads_back(b, m, pattern, reflect, end);
    let first = SlideArc { pattern, end, reflect: reflect_read_back(pattern, reflect, end) };
    // what follows the arc
    assert(t.subrange(next, next + tt.len()) =~= tt) by {
        assert forall|j: int| 0 <= j < tt.len() implies t.subrange(next, next + tt.len())[j] == tt[j] by {
            assert(t[p + (next - p + j)] == x[next - p + j]);
        }
    }
    assert(x[next - p] == tt[0]);
    assert(b[p + (next - p)] as int == x[next - p] as int);
    lemma_modifier_run(b, next, next);
    lemma_slide_rest_at(t, b, next, start, first, brk2, ex2, tapless, timing);
    assert(!has_mod(b, next, next, 98));
    assert(!has_mod(b, next, next, 120));
    reveal(spec_slide_body);
    let body = spec_slide_body(b, m, start, 0, st.stars, brk2, ex2, tapless);
    let expected = slide_read_back_at(p, start, end, pattern, reflect, brk, ex, tapless, timing);
    let (head, stars2) = star_head(start, 0, st.stars, brk2, ex2, tapless);
    assert(body.events =~= expected);
    assert(body.outcome == Ok::<(int, Seq<u8>), ErrorView>((q, stars2)));
    let step = spec_button_note(b, p, 0, st.stars);
    assert(((b[p] - 49) % 8) as u8 == start);
    assert(step == body);
    reveal(scan_step);
}

/// What a note written at `p` reads back as.
pub open spec fn note_events_at(n: ExportView, p: int) -> Seq<EventView> {
    match n {
        ExportView::Tap { button, is_break, is_ex, is_star } => seq![
            EventView::Note { ticks: 0, note: NoteView::Tap { button, is_break, is_ex, is_star } },
        ],
        ExportView::Hold { button, is_ex, den, num } => seq![
            EventView::Note {
                ticks: 0,
                note: NoteView::Hold {
                    button,
                    is_ex,
                    duration: Some(
                        timing_block(
                            p + if is_ex {
                                3int
                            } else {
                                2int
                            },
                            TimingView::Plain { den, num },
                        ),
                    ),
                },
            },
        ],
        ExportView::TouchTap { region, position, is_firework } => seq![
            EventView::Note { ticks: 0, note: touch_tap_read_back(region, position, is_firework) },
        ],
        ExportView::TouchHold { region, position, is_firework, den, num } => seq![
            EventView::Note {
                ticks: 0,
                note: NoteView::TouchHold {
                    region,
                    position: position_read_back(region, position),
                    is_firework,
                    duration: Some(
                        timing_block(
                            p + touch_head(region, position).len() + if is_firework {
                                2int
                            } else {
                                1int
                            },
                            TimingView::Plain { den, num },
                        ),
                    ),
                },
            },
        ],
        ExportView::Slide { start, end, pattern, reflect, is_break, is_ex, is_tapless, timing } =>
            slide_read_back_at(p, start, end, pattern, reflect, is_break, is_ex, is_tapless, timing),
    }
}

/// The scanner's state after the note `n`: a tap, hold or slide is the
/// last button seen, and a slide with a star tap has shown its star.
pub open spec fn state_after(n: ExportView, st: ScanState) -> ScanState {
    match n {
        ExportView::Tap { button, .. } => after_note(Some(button), st.stars),
        ExportView::Hold { button, .. } => after_note(Some(button), st.stars),
        ExportView::TouchTap { .. } => after_note(st.last, st.stars),
        ExportView::TouchHold { .. } => after_note(st.last, st.stars),
        ExportView::Slide { start, is_tapless, .. } => after_note(
            Some(start),
            if is_tapless {
                st.stars
            } else {
                st.stars.push(start)
            },
        ),
    }
}

/// A slide's start has not shown a star in `stars`.
pub open spec fn fresh_start(n: ExportView, stars: Seq<u8>) -> bool {
    n matches ExportView::Slide { start, .. } ==> !stars.contains(start)
}

/// A note written at `p` is read as what it reads back as.
#[verifier::spinoff_prover]
proof fn lemma_note_step(t: Seq<char>, b: Seq<u8>, p: int, n: ExportView, st: ScanState)
    requires
        readable_note(n),
        bytes_of(t, b),
        text_at(t, p, written_text(n)),
        note_ends(t, p + written_text(n).len()),
        !st.pending,
        fresh_start(n, st.stars),
    ensures
        scan_step(b, t, p, st) == (
            note_events_at(n, p),
            Ok::<(int, ScanState), ErrorView>((p + written_text(n).len(), state_after(n, st))),
        ),
{
    match n {
        ExportView::Tap { button, is_break, is_ex, is_star } => {
            lemma_tap_step(t, b, p, button, is_break, is_ex, is_star, st);
        },
        ExportView::Hold { button, is_ex, den, num } => {
            lemma_hold_step(t, b, p, button, is_ex, den, num, st);
        },
        ExportView::TouchTap { region, position, is_firework } => {
            lemma_touch_tap_step(t, b, p, region, position, is_firework, st);
        },
        ExportView::TouchHold { region, position, is_firework, den, num } => {
            lemma_touch_hold_step(t, b, p, region, position, is_firework, den, num, st);
        },
        ExportView::Slide { start, end, pattern, reflect, is_break, is_ex, is_tapless, timing } => {
            lemma_slide_step(t, b, p, start, end, pattern, reflect, is_break, is_ex, is_tapless, timing, st);
        },
    }
}

/// The texts of `notes` after `count` notes already written: each but the
/// very first after a `/`.
pub open spec fn joined_after(count: nat, notes: Seq<ExportView>) -> Seq<char>
    decreases notes.len(),
{
    if notes.len() == 0 {
        seq![]
    } else {
        joined_after(count, notes.drop_last()) + sep((count + notes.len() - 1) as nat) + written_text(
            notes.last(),
        )
    }
}

/// What the notes written from `p` on read back as, in order.
pub open spec fn events_from(notes: Seq<ExportView>, p: int) -> Seq<EventView>
    decreases notes.len(),
{
    if notes.len() == 0 {
        seq![]
    } else {
        note_events_at(notes[0], p) + events_from(
            notes.drop_first(),
            p + written_text(notes[0]).len() + 1,
        )
    }
}

/// No two slides among `notes` start from the same button.
pub open spec fn distinct_slide_starts(notes: Seq<ExportView>) -> bool {
    forall|i: int, j: int|
        0 <= i < j < notes.len() ==> (#[trigger] notes[i] matches ExportView::Slide { start: s1, .. }
            ==> (#[trigger] notes[j] matches ExportView::Slide { start: s2, .. } ==> s1 != s2))
}

#[verifier::spinoff_prover]
proof fn lemma_joined_front(notes: Seq<ExportView>)
    requires
        notes.len() > 0,
    ensures
        joined_after(0, notes) == written_text(notes[0]) + if notes.len() > 1 {
            "/"@ + joined_after(0, notes.drop_first())
        } else {
            seq![]
        },
    decreases notes.len(),
{
    let n = notes.len();
    let init = notes.drop_last();
    let tail = notes.drop_first();
    assert(joined_after(0, Seq::<ExportView>::empty()) == Seq::<char>::empty());
    assert(sep(0) == Seq::<char>::empty());
    if n == 1 {
        assert(init =~= Seq::<ExportView>::empty());
        assert(notes.last() == notes[0]);
        assert(joined_after(0, notes) =~= written_text(notes[0]));
    } else {
        lemma_joined_front(init);
        assert(init[0] == notes[0]);
        assert(tail.last() == notes.last());
        assert(tail.drop_last() =~= init.drop_first());
        assert(sep((n - 1) as nat) == "/"@);
        if n == 2 {
            assert(tail.drop_last() =~= Seq::<ExportView>::empty());
            assert(joined_after(0, tail) =~= written_text(notes.last()));
            assert(joined_after(0, notes) =~= written_text(notes[0]) + ("/"@ + joined_after(0, tail)));
        } else {
            assert(sep((n - 2) as nat) == "/"@);
            assert(joined_after(0, tail) == joined_after(0, init.drop_first()) + "/"@ + written_text(notes.last()));
            assert(joined_after(0, notes) =~= written_text(notes[0]) + ("/"@ + joined_after(0, tail)));
        }
    }
}

proof fn lemma_note_text_nonempty(n: ExportView)
    ensures
        written_text(n).len() >= 1,
{
    reveal_strlit("C");
    match n {
        ExportView::Tap { button, .. } => {},
        ExportView::Hold { .. } => {},
        ExportView::TouchTap { region, .. } => {},
        ExportView::TouchHold { region, .. } => {},
        ExportView::Slide { .. } => {},
    }
}

/// The notes written from `p` to the end of the fragment, `/` between
/// them, are read as what they read back as.
#[verifier::spinoff_prover]
proof fn lemma_scan_notes(t: Seq<char>, b: Seq<u8>, p: int, notes: Seq<ExportView>, st: ScanState)
    requires
        bytes_of(t, b),
        text_at(t, p, joined_after(0, notes)),
        p + joined_after(0, notes).len() == t.len(),
        !st.pending,
        st.ticks == 0,
        forall|k: int| 0 <= k < notes.len() ==> readable_note(#[trigger] notes[k]),
        distinct_slide_starts(notes),
        forall|k: int| 0 <= k < notes.len() ==> fresh_start(#[trigger] notes[k], st.stars),
    ensures
        scan(b, t, p, st) == (events_from(notes, p), Option::<ErrorView>::None),
    decreases notes.len(),
{
    if notes.len() == 0 {
        assert(joined_after(0, notes) == Seq::<char>::empty());
        assert(events_from(notes, p) == Seq::<EventView>::empty());
    } else {
        let n0 = notes[0];
        let x0 = written_text(n0);
        let tail = notes.drop_first();
        let j = joined_after(0, notes);
        lemma_joined_front(notes);
        lemma_note_text_nonempty(n0);
        let q = p + x0.len();
        lemma_bytes_at(t, b, p, j);
        assert(text_at(t, p, x0)) by {
            assert(t.subrange(p, q) =~= x0) by {
                assert forall|k: int| 0 <= k < x0.len() implies t.subrange(p, q)[k] == x0[k] by {
                    assert(t[p + k] == j[k]);
                }
            }
        }
        if notes.len() > 1 {
            reveal_strlit("/");
            assert(j[x0.len() as int] == '/');
            assert(t[p + x0.len()] == j[x0.len() as int]);
        }
        assert(note_ends(t, q));
        assert(readable_note(notes[0]));
        assert(fresh_start(notes[0], st.stars));
        lemma_note_step(t, b, p, n0, st);
        let st1 = state_after(n0, st);
        reveal(scan_step);
        if notes.len() == 1 {
            assert(q == t.len());
            assert(scan(b, t, q, st1) == (Seq::<EventView>::empty(), Option::<ErrorView>::None));
            assert(events_from(tail, q + 1) == Seq::<EventView>::empty());
            assert(note_events_at(n0, p) + Seq::<EventView>::empty() =~= note_events_at(n0, p));
        } else {
            let jt = joined_after(0, tail);
            assert(b[q] as int == t[q] as int);
            assert(b[q] == 47);
            assert(scan_step(b, t, q, st1) == (Seq::<EventView>::empty(), Ok::<(int, ScanState), ErrorView>((q + 1, st1))));
            assert(text_at(t, q + 1, jt)) by {
                assert(t.subrange(q + 1, q + 1 + jt.len()) =~= jt) by {
                    assert forall|k: int| 0 <= k < jt.len() implies t.subrange(q + 1, q + 1 + jt.len())[k] == jt[k] by {
                        assert(t[p + (x0.len() + 1 + k)] == j[x0.len() + 1 + k]);
                    }
                }
            }
            assert forall|k: int| 0 <= k < tail.len() implies readable_note(#[trigger] tail[k]) by {
                assert(tail[k] == notes[k + 1]);
            }
            assert(distinct_slide_starts(tail)) by {
                assert forall|i: int, k: int| 0 <= i < k < tail.len() implies (#[trigger] tail[i] matches ExportView::Slide { start: s1, .. }
                    ==> (#[trigger] tail[k] matches ExportView::Slide { start: s2, .. } ==> s1 != s2)) by {
                    assert(tail[i] == notes[i + 1] && tail[k] == notes[k + 1]);
                }
            }
            assert forall|k: int| 0 <= k < tail.len() implies fresh_start(#[trigger] tail[k], st1.stars) by {
                assert(tail[k] == notes[k + 1]);
                assert(fresh_start(notes[k + 1], st.stars));
                if let ExportView::Slide { start: s0, .. } = n0 {
                    if let ExportView::Slide { start: s1, .. } = notes[k + 1] {
                        assert(s0 != s1);
                    }
                }
            }
            lemma_scan_notes(t, b, q + 1, tail, st1);
            assert(scan(b, t, q, st1) == (events_from(tail, q + 1), Option::<ErrorView>::None));
        }
    }
}

/// The taps that are written: all but a star tap whose button starts a
/// slide among the notes (that star is left to the slide).
pub open spec fn written_taps(notes: Seq<ExportView>, starts: Seq<u8>) -> Seq<ExportView>
    decreases notes.len(),
{
    if notes.len() == 0 {
        seq![]
    } else {
        let r = written_taps(notes.drop_last(), starts);
        match notes.last() {
            ExportView::Tap { button, is_star, .. } => if is_star && starts.contains(button) {
                r
            } else {
                r.push(notes.last())
            },
            _ => r,
        }
    }
}

/// The buttons whose star taps are left to their slides.
pub open spec fn left_stars(notes: Seq<ExportView>, starts: Seq<u8>) -> Seq<u8>
    decreases notes.len(),
{
    if notes.len() == 0 {
        seq![]
    } else {
        let r = left_stars(notes.drop_last(), starts);
        match notes.last() {
            ExportView::Tap { button, is_star, .. } => if is_star && starts.contains(button) {
                r.push(button)
            } else {
                r
            },
            _ => r,
        }
    }
}

/// The holds among the notes.
pub open spec fn written_holds(notes: Seq<ExportView>) -> Seq<ExportView>
    decreases notes.len(),
{
    if notes.len() == 0 {
        seq![]
    } else {
        let r = written_holds(notes.drop_last());
        if notes.last() is Hold {
            r.push(notes.last())
        } else {
            r
        }
    }
}

/// The touch taps among the notes.
pub open spec fn written_touch_taps(notes: Seq<ExportView>) -> Seq<ExportView>
    decreases notes.len(),
{
    if notes.len() == 0 {
        seq![]
    } else {
        let r = written_touch_taps(notes.drop_last());
        if notes.last() is TouchTap {
            r.push(notes.last())
        } else {
            r
        }
    }
}

/// The touch holds among the notes.
pub open spec fn written_touch_holds(notes: Seq<ExportView>) -> Seq<ExportView>
    decreases notes.len(),
{
    if notes.len() == 0 {
        seq![]
    } else {
        let r = written_touch_holds(notes.drop_last());
        if notes.last() is TouchHold {
            r.push(notes.last())
        } else {
            r
        }
    }
}

/// A slide as it is written: tapless (`?`) only when its star tap was not
/// left to it.
pub open spec fn as_written(n: ExportView, left: Seq<u8>) -> ExportView {
    match n {
        ExportView::Slide { start, end, pattern, reflect, is_break, is_ex, is_tapless, timing } =>
            ExportView::Slide {
            start,
            end,
            pattern,
            reflect,
            is_break,
            is_ex,
            is_tapless: is_tapless && !left.contains(start),
            timing,
        },
        _ => n,
    }
}

/// The slides among the notes, as they are written.
pub open spec fn written_slides(notes: Seq<ExportView>, left: Seq<u8>) -> Seq<ExportView>
    decreases notes.len(),
{
    if notes.len() == 0 {
        seq![]
    } else {
        let r = written_slides(notes.drop_last(), left);
        if notes.last() is Slide {
            r.push(as_written(notes.last(), left))
        } else {
            r
        }
    }
}

/// The notes of a fragment in the order they are written: taps, holds,
/// touch taps, touch holds, slides.
pub open spec fn written_notes(notes: Seq<ExportView>) -> Seq<ExportView> {
    let starts = slide_starts(notes);
    written_taps(notes, starts) + written_holds(notes) + written_touch_taps(notes)
        + written_touch_holds(notes) + written_slides(notes, left_stars(notes, starts))
}

proof fn lemma_joined_push(count: nat, w: Seq<ExportView>, x: ExportView)
    ensures
        joined_after(count, w.push(x)) == joined_after(count, w) + sep(count + w.len()) + written_text(x),
{
    assert(w.push(x).drop_last() =~= w);
    assert(w.push(x).last() == x);
}

proof fn lemma_render_taps(notes: Seq<ExportView>, starts: Seq<u8>, count: nat)
    ensures
        render_taps(notes, starts, count) == (Rendered {
            out: joined_after(count, written_taps(notes, starts)),
            count: count + written_taps(notes, starts).len(),
            buttons: left_stars(notes, starts),
        }),
    decreases notes.len(),
{
    if notes.len() > 0 {
        let init = notes.drop_last();
        lemma_render_taps(init, starts, count);
        let w = written_taps(init, starts);
        lemma_joined_push(count, w, notes.last());
    } else {
        assert(joined_after(count, Seq::<ExportView>::empty()) == Seq::<char>::empty());
    }
}

proof fn lemma_render_holds(notes: Seq<ExportView>, count: nat)
    ensures
        render_holds(notes, count) == (Rendered {
            out: joined_after(count, written_holds(notes)),
            count: count + written_holds(notes).len(),
            buttons: seq![],
        }),
    decreases notes.len(),
{
    if notes.len() > 0 {
        let init = notes.drop_last();
        lemma_render_holds(init, count);
        lemma_joined_push(count, written_holds(init), notes.last());
    } else {
        assert(joined_after(count, Seq::<ExportView>::empty()) == Seq::<char>::empty());
    }
}

proof fn lemma_render_touch_taps(notes: Seq<ExportView>, count: nat)
    ensures
        render_touch_taps(notes, count) == (Rendered {
            out: joined_after(count, written_touch_taps(notes)),
            count: count + written_touch_taps(notes).len(),
            buttons: seq![],
        }),
    decreases notes.len(),
{
    if notes.len() > 0 {
        let init = notes.drop_last();
        lemma_render_touch_taps(init, count);
        lemma_joined_push(count, written_touch_taps(init), notes.last());
    } else {
        assert(joined_after(count, Seq::<ExportView>::empty()) == Seq::<char>::empty());
    }
}

proof fn lemma_render_touch_holds(notes: Seq<ExportView>, count: nat)
    ensures
        render_touch_holds(notes, count) == (Rendered {
            out: joined_after(count, written_touch_holds(notes)),
            count: count + written_touch_holds(notes).len(),
            buttons: seq![],
        }),
    decreases notes.len(),
{
    if notes.len() > 0 {
        let init = notes.drop_last();
        lemma_render_touch_holds(init, count);
        lemma_joined_push(count, written_touch_holds(init), notes.last());
    } else {
        assert(joined_after(count, Seq::<ExportView>::empty()) == Seq::<char>::empty());
    }
}

/// A slide's start is among the slide starts of the notes, and every slide
/// start belongs to a slide.
#[verifier::spinoff_prover]
proof fn lemma_slide_starts_members(notes: Seq<ExportView>)
    ensures
        forall|i: int|
            0 <= i < notes.len() ==> (#[trigger] notes[i] matches ExportView::Slide { start, .. }
                ==> slide_starts(notes).contains(start)),
        forall|s: u8|
            #[trigger] slide_starts(notes).contains(s) ==> exists|i: int|
                0 <= i < notes.len() && (#[trigger] notes[i] matches ExportView::Slide { start, .. }
                    && start == s),
    decreases notes.len(),
{
    if notes.len() > 0 {
        let init = notes.drop_last();
        lemma_slide_starts_members(init);
        assert forall|i: int|
            0 <= i < notes.len() implies (#[trigger] notes[i] matches ExportView::Slide { start, .. }
                ==> slide_starts(notes).contains(start)) by {
            if i < notes.len() - 1 {
                assert(notes[i] == init[i]);
                if let ExportView::Slide { start, .. } = notes[i] {
                    assert(slide_starts(init).contains(start));
                    let k = choose|k: int| 0 <= k < slide_starts(init).len() && slide_starts(init)[k] == start;
                    if let ExportView::Slide { start: s2, .. } = notes.last() {
                        assert(slide_starts(notes)[k] == start);
                    } else {
                    }
                }
            } else {
                if let ExportView::Slide { start, .. } = notes[i] {
                    assert(slide_starts(notes).last() == start);
                }
            }
        }
        assert forall|s: u8| #[trigger] slide_starts(notes).contains(s) implies exists|i: int|
            0 <= i < notes.len() && (#[trigger] notes[i] matches ExportView::Slide { start, .. }
                && start == s) by {
            let k = choose|k: int| 0 <= k < slide_starts(notes).len() && slide_starts(notes)[k] == s;
            if k < slide_starts(init).len() {
                assert(slide_starts(notes)[k] == slide_starts(init)[k]);
                assert(slide_starts(init).contains(s));
                let i = choose|i: int| 0 <= i < init.len() && (#[trigger] init[i] matches ExportView::Slide { start, .. } && start == s);
                assert(notes[i] == init[i]);
            } else {
                assert(notes[notes.len() - 1] == notes.last());
            }
        }
    }
}

#[verifier::spinoff_prover]
proof fn lemma_render_slides(notes: Seq<ExportView>, left: Seq<u8>, count: nat)
    requires
        slide_starts(notes).no_duplicates(),
    ensures
        render_slides(notes, left, count) == (Rendered {
            out: joined_after(count, written_slides(notes, left)),
            count: count + written_slides(notes, left).len(),
            buttons: slide_starts(notes),
        }),
    decreases notes.len(),
{
    if notes.len() > 0 {
        let init = notes.drop_last();
        let si = slide_starts(init);
        assert(slide_starts(init).no_duplicates()) by {
            if let ExportView::Slide { start, .. } = notes.last() {
                assert forall|i: int, j: int| 0 <= i < si.len() && 0 <= j < si.len() && i != j implies si[i] != si[j] by {
                    assert(slide_starts(notes)[i] == si[i] && slide_starts(notes)[j] == si[j]);
                }
            }
        }
        lemma_render_slides(init, left, count);
        let w = written_slides(init, left);
        if let ExportView::Slide { start, end, pattern, reflect, is_break, is_ex, is_tapless, timing } = notes.last() {
            let sn = slide_starts(notes);
            assert(sn == si.push(start));
            assert(!si.contains(start)) by {
                if si.contains(start) {
                    let k = choose|k: int| 0 <= k < si.len() && si[k] == start;
                    assert(sn[k] == start && sn[si.len() as int] == start);
                }
            }
            lemma_joined_push(count, w, as_written(notes.last(), left));
            assert(slide_text(notes.last(), si, left) == written_text(as_written(notes.last(), left)));
        }
    } else {
        assert(joined_after(count, Seq::<ExportView>::empty()) == Seq::<char>::empty());
    }
}

proof fn lemma_joined_concat(count: nat, a: Seq<ExportView>, c: Seq<ExportView>)
    ensures
        joined_after(count, a + c) == joined_after(count, a) + joined_after(count + a.len(), c),
    decreases c.len(),
{
    if c.len() == 0 {
        assert(a + c =~= a);
        assert(joined_after(count + a.len(), c) == Seq::<char>::empty());
        assert(joined_after(count, a) + Seq::<char>::empty() =~= joined_after(count, a));
    } else {
        let ci = c.drop_last();
        lemma_joined_concat(count, a, ci);
        assert((a + c).drop_last() =~= a + ci);
        assert((a + c).last() == c.last());
        assert(joined_after(count, a + c) =~= joined_after(count, a) + joined_after(count + a.len(), c));
    }
}

/// A fragment is its BPM change, if any, then its written notes with `/`
/// between them.
#[verifier::spinoff_prover]
#[verifier::rlimit(30)]
proof fn lemma_render_structure(notes: Seq<ExportView>, bpm: Option<Seq<char>>)
    requires
        slide_starts(notes).no_duplicates(),
    ensures
        spec_render_fragment(notes, bpm) == match bpm {
            Some(x) => "("@ + x + ")"@,
            None => seq![],
        } + joined_after(0, written_notes(notes)),
{
    let starts = slide_starts(notes);
    let t = written_taps(notes, starts);
    let h = written_holds(notes);
    let tt = written_touch_taps(notes);
    let th = written_touch_holds(notes);
    let left = left_stars(notes, starts);
    let sl = written_slides(notes, left);
    lemma_render_taps(notes, starts, 0);
    lemma_render_holds(notes, t.len());
    lemma_render_touch_taps(notes, t.len() + h.len());
    lemma_render_touch_holds(notes, t.len() + h.len() + tt.len());
    lemma_render_slides(notes, left, t.len() + h.len() + tt.len() + th.len());
    lemma_joined_concat(0, t, h);
    lemma_joined_concat(0, t + h, tt);
    lemma_joined_concat(0, t + h + tt, th);
    lemma_joined_concat(0, t + h + tt + th, sl);
    assert(written_notes(notes) == t + h + tt + th + sl);
    let prefix: Seq<char> = match bpm {
        Some(x) => "("@ + x + ")"@,
        None => seq![],
    };
    assert(spec_render_fragment(notes, bpm) =~= prefix + joined_after(0, written_notes(notes)));
}

/// Every note in `notes` reads back from a fragment.
pub open spec fn all_readable(notes: Seq<ExportView>) -> bool {
    forall|k: int| 0 <= k < notes.len() ==> readable_note(#[trigger] notes[k])
}

proof fn lemma_all_readable_concat(a: Seq<ExportView>, c: Seq<ExportView>)
    requires
        all_readable(a),
        all_readable(c),
    ensures
        all_readable(a + c),
{
    assert forall|k: int| 0 <= k < (a + c).len() implies readable_note(#[trigger] (a + c)[k]) by {
        if k < a.len() {
            assert((a + c)[k] == a[k]);
        } else {
            assert((a + c)[k] == c[k - a.len()]);
        }
    }
}

proof fn lemma_all_readable_push(a: Seq<ExportView>, x: ExportView)
    requires
        all_readable(a),
        readable_note(x),
    ensures
        all_readable(a.push(x)),
{
    assert forall|k: int| 0 <= k < a.push(x).len() implies readable_note(#[trigger] a.push(x)[k]) by {
        if k < a.len() {
            assert(a.push(x)[k] == a[k]);
        }
    }
}

proof fn lemma_all_readable_init(a: Seq<ExportView>)
    requires
        all_readable(a),
        a.len() > 0,
    ensures
        all_readable(a.drop_last()),
        readable_note(a.last()),
{
    assert forall|k: int| 0 <= k < a.drop_last().len() implies readable_note(#[trigger] a.drop_last()[k]) by {
        assert(a.drop_last()[k] == a[k]);
    }
    assert(readable_note(a[a.len() - 1]));
}

/// The written notes read back, and no slide among them shows up in the
/// slide starts but their own.
#[verifier::spinoff_prover]
proof fn lemma_written_lists(notes: Seq<ExportView>, starts: Seq<u8>, left: Seq<u8>)
    requires
        all_readable(notes),
    ensures
        all_readable(written_taps(notes, starts)),
        all_readable(written_holds(notes)),
        all_readable(written_touch_taps(notes)),
        all_readable(written_touch_holds(notes)),
        all_readable(written_slides(notes, left)),
        slide_starts(written_taps(notes, starts)) == Seq::<u8>::empty(),
        slide_starts(written_holds(notes)) == Seq::<u8>::empty(),
        slide_starts(written_touch_taps(notes)) == Seq::<u8>::empty(),
        slide_starts(written_touch_holds(notes)) == Seq::<u8>::empty(),
        slide_starts(written_slides(notes, left)) == slide_starts(notes),
    decreases notes.len(),
{
    if notes.len() == 0 {
        assert(all_readable(Seq::<ExportView>::empty()));
    } else {
        let init = notes.drop_last();
        let x = notes.last();
        lemma_all_readable_init(notes);
        lemma_written_lists(init, starts, left);
        let wt = written_taps(init, starts);
        let wh = written_holds(init);
        let wtt = written_touch_taps(init);
        let wth = written_touch_holds(init);
        let ws = written_slides(init, left);
        assert(wt.push(x).drop_last() =~= wt && wt.push(x).last() == x);
        assert(wh.push(x).drop_last() =~= wh && wh.push(x).last() == x);
        assert(wtt.push(x).drop_last() =~= wtt && wtt.push(x).last() == x);
        assert(wth.push(x).drop_last() =~= wth && wth.push(x).last() == x);
        let xw = as_written(x, left);
        assert(ws.push(xw).drop_last() =~= ws && ws.push(xw).last() == xw);
        assert(readable_note(xw));
        lemma_all_readable_push(wt, x);
        lemma_all_readable_push(wh, x);
        lemma_all_readable_push(wtt, x);
        lemma_all_readable_push(wth, x);
        lemma_all_readable_push(ws, xw);
    }
}

proof fn lemma_slide_starts_concat(a: Seq<ExportView>, c: Seq<ExportView>)
    ensures
        slide_starts(a + c) == slide_starts(a) + slide_starts(c),
    decreases c.len(),
{
    if c.len() == 0 {
        assert(a + c =~= a);
        assert(slide_starts(a) + Seq::<u8>::empty() =~= slide_starts(a));
    } else {
        lemma_slide_starts_concat(a, c.drop_last());
        assert((a + c).drop_last() =~= a + c.drop_last());
        assert((a + c).last() == c.last());
        assert(slide_starts(a + c) =~= slide_starts(a) + slide_starts(c));
    }
}

/// Slides with distinct starts are pairwise distinct in their starts.
#[verifier::spinoff_prover]
proof fn lemma_distinct_slides(notes: Seq<ExportView>)
    requires
        slide_starts(notes).no_duplicates(),
    ensures
        distinct_slide_starts(notes),
    decreases notes.len(),
{
    if notes.len() > 0 {
        let init = notes.drop_last();
        let si = slide_starts(init);
        let sn = slide_starts(notes);
        assert(si.no_duplicates()) by {
            if let ExportView::Slide { start, .. } = notes.last() {
                assert forall|i: int, j: int| 0 <= i < si.len() && 0 <= j < si.len() && i != j implies si[i] != si[j] by {
                    assert(sn[i] == si[i] && sn[j] == si[j]);
                }
            }
        }
        lemma_distinct_slides(init);
        lemma_slide_starts_members(init);
        assert forall|i: int, j: int|
            0 <= i < j < notes.len() implies (#[trigger] notes[i] matches ExportView::Slide { start: s1, .. }
            ==> (#[trigger] notes[j] matches ExportView::Slide { start: s2, .. } ==> s1 != s2)) by {
            if j < notes.len() - 1 {
                assert(notes[i] == init[i] && notes[j] == init[j]);
            } else if let ExportView::Slide { start: s1, .. } = notes[i] {
                if let ExportView::Slide { start: s2, .. } = notes[j] {
                    assert(notes[i] == init[i]);
                    assert(si.contains(s1));
                    assert(sn == si.push(s2));
                    if s1 == s2 {
                        let k = choose|k: int| 0 <= k < si.len() && si[k] == s1;
                        assert(sn[k] == s1 && sn[si.len() as int] == s2);
                    }
                }
            }
        }
    }
}

#[verifier::spinoff_prover]
proof fn lemma_strlit_ascii_mods()
    ensures
        ascii_text("b"@),
        ascii_text("x"@),
        ascii_text("$"@),
        ascii_text("?"@),
        ascii_text("f"@),
        ascii_text("h"@),
        ascii_text("hx"@),
        ascii_text("hf"@),
        ascii_text("/"@),
        ascii_text("("@),
        ascii_text(")"@),
        ascii_text(Seq::<char>::empty()),
{
    reveal_strlit("b");
    reveal_strlit("x");
    reveal_strlit("$");
    reveal_strlit("?");
    reveal_strlit("f");
    reveal_strlit("h");
    reveal_strlit("hx");
    reveal_strlit("hf");
    reveal_strlit("/");
    reveal_strlit("(");
    reveal_strlit(")");
    lemma_ascii_codes("b"@);
    lemma_ascii_codes("x"@);
    lemma_ascii_codes("$"@);
    lemma_ascii_codes("?"@);
    lemma_ascii_codes("f"@);
    lemma_ascii_codes("h"@);
    assert("hx"@[0] == 'h' && "hx"@[1] == 'x');
    lemma_ascii_codes("hx"@);
    assert("hf"@[0] == 'h' && "hf"@[1] == 'f');
    lemma_ascii_codes("hf"@);
    lemma_ascii_codes("/"@);
    lemma_ascii_codes("("@);
    lemma_ascii_codes(")"@);
}

proof fn lemma_text_if_ascii(b: bool, x: Seq<char>)
    requires
        ascii_text(x),
    ensures
        ascii_text(text_if(b, x)),
{
}

/// The text of a note that reads back is ASCII.
#[verifier::spinoff_prover]
proof fn lemma_note_text_ascii(n: ExportView)
    requires
        readable_note(n),
    ensures
        ascii_text(written_text(n)),
{
    lemma_strlit_ascii_mods();
    reveal_strlit("C");
    match n {
        ExportView::Tap { button, is_break, is_ex, is_star } => {
            lemma_one_based_digit(button);
            lemma_ascii_codes(one_based(button));
            lemma_text_if_ascii(is_break, "b"@);
            lemma_text_if_ascii(is_ex, "x"@);
            lemma_text_if_ascii(is_star, "$"@);
            lemma_ascii_concat(one_based(button), text_if(is_break, "b"@));
            lemma_ascii_concat(one_based(button) + text_if(is_break, "b"@), text_if(is_ex, "x"@));
            lemma_ascii_concat(one_based(button) + text_if(is_break, "b"@) + text_if(is_ex, "x"@), text_if(is_star, "$"@));
        },
        ExportView::Hold { button, is_ex, den, num } => {
            lemma_one_based_digit(button);
            lemma_ascii_codes(one_based(button));
            let timing = TimingView::Plain { den, num };
            lemma_timing_chars(timing);
            let hm = if is_ex { "hx"@ } else { "h"@ };
            lemma_ascii_concat(one_based(button), hm);
            lemma_ascii_concat(one_based(button) + hm, timing_text(timing));
            assert(hold_text(button, is_ex, den, num) == one_based(button) + hm + timing_text(timing));
        },
        ExportView::TouchTap { region, position, is_firework } => {
            lemma_touch_head_ascii(region, position);
            lemma_text_if_ascii(is_firework, "f"@);
            lemma_ascii_concat(touch_head(region, position), text_if(is_firework, "f"@));
            assert(touch_tap_text(region, position, is_firework) == touch_head(region, position) + text_if(is_firework, "f"@));
        },
        ExportView::TouchHold { region, position, is_firework, den, num } => {
            lemma_touch_head_ascii(region, position);
            let timing = TimingView::Plain { den, num };
            lemma_timing_chars(timing);
            let hm = if is_firework { "hf"@ } else { "h"@ };
            lemma_ascii_concat(touch_head(region, position), hm);
            lemma_ascii_concat(touch_head(region, position) + hm, timing_text(timing));
            assert(touch_hold_text(region, position, is_firework, den, num) == touch_head(region, position) + hm + timing_text(timing));
        },
        ExportView::Slide { start, end, pattern, reflect, is_break, is_ex, is_tapless, timing } => {
            lemma_one_based_digit(start);
            lemma_ascii_codes(one_based(start));
            lemma_arc_text(pattern, reflect, end);
            lemma_timing_chars(timing);
            let mods = slide_mods(false, is_tapless, is_break, is_ex);
            assert(ascii_text(mods));
            lemma_ascii_concat(one_based(start), mods);
            lemma_ascii_concat(one_based(start) + mods, arc_text(pattern, reflect, end));
            lemma_ascii_concat(one_based(start) + mods + arc_text(pattern, reflect, end), timing_text(timing));
            assert(written_slide_text(start, end, pattern, reflect, is_break, is_ex, is_tapless, timing) =~= one_based(start) + mods + arc_text(pattern, reflect, end) + timing_text(timing));
        },
    }
}

proof fn lemma_joined_ascii(count: nat, notes: Seq<ExportView>)
    requires
        all_readable(notes),
    ensures
        ascii_text(joined_after(count, notes)),
    decreases notes.len(),
{
    if notes.len() > 0 {
        lemma_all_readable_init(notes);
        lemma_joined_ascii(count, notes.drop_last());
        lemma_strlit_ascii_mods();
        lemma_text_if_ascii(count + notes.len() - 1 > 0, "/"@);
        lemma_note_text_ascii(notes.last());
        let x = joined_after(count, notes.drop_last());
        let sp = sep((count + notes.len() - 1) as nat);
        lemma_ascii_concat(x, sp);
        lemma_ascii_concat(x + sp, written_text(notes.last()));
    }
}

/// A written fragment reads back as what was written: the BPM change, if
/// any, then each written note in order (taps, holds, touch taps, touch
/// holds, slides; a star tap left to its slide comes back with the slide),
/// each as `note_events_at` says at the position where it was written, as
/// long as every note's buttons lie on the ring, its touch region is one of
/// `A`..`E`, a slide's timing reads back, no two slides start from the same
/// button, and the BPM text is ASCII without `)`.
#[verifier::spinoff_prover]
pub proof fn lemma_written_fragment_reads_back(notes: Seq<ExportView>, bpm: Option<Seq<char>>)
    requires
        all_readable(notes),
        slide_starts(notes).no_duplicates(),
        bpm matches Some(x) ==> ascii_text(x) && forall|k: int| 0 <= k < x.len() ==> #[trigger] x[k] != ')',
        spec_render_fragment(notes, bpm).len() <= usize::MAX,
    ensures
        spec_fragment(spec_render_fragment(notes, bpm)) == (
            match bpm {
                Some(x) => seq![EventView::Bpm { open: 0, close: (x.len() + 1) as usize }]
                    + events_from(written_notes(notes), x.len() + 2int),
                None => events_from(written_notes(notes), 0),
            },
            Option::<ErrorView>::None,
        ),
{
    lemma_render_structure(notes, bpm);
    let w = written_notes(notes);
    let starts = slide_starts(notes);
    let left = left_stars(notes, starts);
    lemma_written_lists(notes, starts, left);
    let wt = written_taps(notes, starts);
    let wh = written_holds(notes);
    let wtt = written_touch_taps(notes);
    let wth = written_touch_holds(notes);
    let ws = written_slides(notes, left);
    lemma_all_readable_concat(wt, wh);
    lemma_all_readable_concat(wt + wh, wtt);
    lemma_all_readable_concat(wt + wh + wtt, wth);
    lemma_all_readable_concat(wt + wh + wtt + wth, ws);
    lemma_slide_starts_concat(wt, wh);
    lemma_slide_starts_concat(wt + wh, wtt);
    lemma_slide_starts_concat(wt + wh + wtt, wth);
    lemma_slide_starts_concat(wt + wh + wtt + wth, ws);
    assert(slide_starts(w) =~= slide_starts(notes));
    lemma_distinct_slides(w);
    let j = joined_after(0, w);
    lemma_joined_ascii(0, w);
    lemma_strlit_ascii_mods();
    reveal_strlit("(");
    reveal_strlit(")");
    let st0 = initial_state();
    assert forall|k: int| 0 <= k < w.len() implies fresh_start(#[trigger] w[k], st0.stars) by {}
    match bpm {
        None => {
            let t = spec_render_fragment(notes, bpm);
            assert(t =~= j);
            lemma_ascii_encoding(t);
            let b = encode_utf8(t);
            assert(text_at(t, 0, j)) by {
                assert(t.subrange(0, j.len() as int) =~= j);
            }
            lemma_scan_notes(t, b, 0, w, st0);
        },
        Some(x) => {
            let prefix = "("@ + x + ")"@;
            let t = spec_render_fragment(notes, bpm);
            assert(t == prefix + j);
            lemma_ascii_concat("("@, x);
            lemma_ascii_concat("("@ + x, ")"@);
            lemma_ascii_concat(prefix, j);
            lemma_ascii_encoding(t);
            let b = encode_utf8(t);
            let close: int = x.len() as int + 1;
            assert(t[0] == '(');
            assert(b[0] as int == t[0] as int);
            assert forall|k: int| 1 <= k < close implies #[trigger] b[k] != 41 by {
                assert(b[k] as int == t[k] as int);
                assert(t[k] == x[k - 1]);
            }
            assert(t[close] == ')');
            assert(b[close] as int == t[close] as int);
            lemma_first_in_at(b, 1, b.len() as int, 41, close);
            reveal(scan_step);
            assert(scan_step(b, t, 0, st0) == (
                seq![EventView::Bpm { open: 0, close: close as usize }],
                Ok::<(int, ScanState), ErrorView>((close + 1, st0)),
            ));
            let p = close + 1;
            assert(text_at(t, p, j)) by {
                assert(t.subrange(p, p + j.len()) =~= j);
            }
            lemma_scan_notes(t, b, p, w, st0);
        },
    }
}

} // verus!
