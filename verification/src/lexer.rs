//! Byte-level pieces of a chart fragment: bracketed blocks, modifier runs,
//! slide arcs and duration blocks.

use vstd::prelude::*;
use vstd::string::*;
use crate::error::{ErrorView, ParseError};
use crate::pattern::SlidePattern;
use crate::text::chars_of;

verus! {

/// The first index `k` in `[lo, hi)` with `b[k] == c`.
pub open spec fn first_in(b: Seq<u8>, lo: int, hi: int, c: u8) -> Option<int>
    decreases hi - lo,
{
    if lo >= hi {
        None
    } else if b[lo] == c {
        Some(lo)
    } else {
        first_in(b, lo + 1, hi, c)
    }
}

/// The first index `k` in `[lo, hi - 1)` where `b[k]` and `b[k + 1]` are both `#`.
pub open spec fn first_double_hash(b: Seq<u8>, lo: int, hi: int) -> Option<int>
    decreases hi - lo,
{
    if lo + 1 >= hi {
        None
    } else if b[lo] == 35 && b[lo + 1] == 35 {
        Some(lo)
    } else {
        first_double_hash(b, lo + 1, hi)
    }
}

pub proof fn lemma_first_in_bounds(b: Seq<u8>, lo: int, hi: int, c: u8)
    ensures
        first_in(b, lo, hi, c) matches Some(k) ==> lo <= k < hi && b[k] == c,
        first_in(b, lo, hi, c) matches Some(k) ==> forall|j: int| lo <= j < k ==> b[j] != c,
        first_in(b, lo, hi, c) is None ==> forall|j: int| lo <= j < hi ==> b[j] != c,
    decreases hi - lo,
{
    if lo < hi {
        lemma_first_in_bounds(b, lo + 1, hi, c);
    }
}

pub proof fn lemma_first_double_hash_bounds(b: Seq<u8>, lo: int, hi: int)
    ensures
        first_double_hash(b, lo, hi) matches Some(k) ==> lo <= k && k + 1 < hi,
    decreases hi - lo,
{
    if lo + 1 < hi {
        lemma_first_double_hash_bounds(b, lo + 1, hi);
    }
}

/// Finds the first `c` in `bytes[lo..hi]`.
pub fn first_byte_in(bytes: &[u8], lo: usize, hi: usize, c: u8) -> (r: Option<usize>)
    requires
        hi <= bytes@.len(),
    ensures
        match r {
            Some(k) => first_in(bytes@, lo as int, hi as int, c) == Some(k as int),
            None => first_in(bytes@, lo as int, hi as int, c) is None,
        },
{
    let mut j = lo;
    while j < hi
        invariant
            hi <= bytes@.len(),
            lo <= j,
            first_in(bytes@, lo as int, hi as int, c) == first_in(bytes@, j as int, hi as int, c),
        decreases hi - j,
    {
        if bytes[j] == c {
            return Some(j);
        }
        j = j + 1;
    }
    None
}

/// Finds the first `##` in `bytes[lo..hi]`.
pub fn first_double_hash_in(bytes: &[u8], lo: usize, hi: usize) -> (r: Option<usize>)
    requires
        hi <= bytes@.len(),
    ensures
        match r {
            Some(k) => first_double_hash(bytes@, lo as int, hi as int) == Some(k as int),
            None => first_double_hash(bytes@, lo as int, hi as int) is None,
        },
{
    let mut j = lo;
    while j < hi && j + 1 < hi
        invariant
            hi <= bytes@.len(),
            lo <= j,
            first_double_hash(bytes@, lo as int, hi as int) == first_double_hash(
                bytes@,
                j as int,
                hi as int,
            ),
        decreases hi - j,
    {
        if bytes[j] == 35u8 && bytes[j + 1] == 35u8 {
            return Some(j);
        }
        j = j + 1;
    }
    None
}

/// The error for an opening bracket `c` at `at` that is never closed.
pub open spec fn unmatched_error(c: u8, at: int) -> ErrorView {
    ErrorView { message: "unmatched `"@ + seq![c as char] + "`"@, offset: Some(at as usize) }
}

/// Where the bracket opened at `open` closes, or the error for it.
pub open spec fn spec_find_close(b: Seq<u8>, open: int, close: u8) -> Result<int, ErrorView> {
    match first_in(b, open + 1, b.len() as int, close) {
        Some(j) => Ok(j),
        None => Err(unmatched_error(b[open], open)),
    }
}

/// A `ParseError` whose message is `prefix`, `c` and `suffix`, at `at`.
fn error_around_char(prefix: &str, c: u8, suffix: &str, at: usize) -> (e: ParseError)
    ensures
        e@ == (ErrorView { message: prefix@ + seq![c as char] + suffix@, offset: Some(at) }),
{
    let mut m = String::from_str(prefix);
    m.push(c as char);
    m.append(suffix);
    assert(m@ =~= prefix@ + seq![c as char] + suffix@);
    ParseError { message: m, offset: Some(at) }
}

/// A `ParseError` whose message is `message`, with no position.
pub fn plain_error(message: &str) -> (e: ParseError)
    ensures
        e@ == (ErrorView { message: message@, offset: None }),
{
    ParseError { message: String::from_str(message), offset: None }
}

/// The index of the first `close` after `open_idx`.
pub fn find_close(bytes: &[u8], open_idx: usize, close: u8) -> (r: Result<usize, ParseError>)
    requires
        open_idx < bytes@.len(),
    ensures
        match r {
            Ok(j) => spec_find_close(bytes@, open_idx as int, close) == Ok::<int, ErrorView>(
                j as int,
            ),
            Err(e) => spec_find_close(bytes@, open_idx as int, close) == Err::<int, ErrorView>(
                e@,
            ),
        },
{
    match first_byte_in(bytes, open_idx + 1, bytes.len(), close) {
        Some(j) => Ok(j),
        None => Err(error_around_char("unmatched `", bytes[open_idx], "`", open_idx)),
    }
}

/// The modifier characters `b x e $ h ? ! @ * f`.
pub open spec fn is_modifier(c: u8) -> bool {
    c == 98 || c == 120 || c == 101 || c == 36 || c == 104 || c == 63 || c == 33 || c == 64 || c
        == 42 || c == 102
}

/// The end of the run of modifier characters that starts at `i`.
pub open spec fn modifier_end(b: Seq<u8>, i: int) -> int
    decreases b.len() - i,
{
    if 0 <= i < b.len() && is_modifier(b[i]) {
        modifier_end(b, i + 1)
    } else {
        i
    }
}

pub proof fn lemma_modifier_end(b: Seq<u8>, i: int)
    requires
        0 <= i <= b.len(),
    ensures
        i <= modifier_end(b, i) <= b.len(),
        forall|k: int| i <= k < modifier_end(b, i) ==> is_modifier(#[trigger] b[k]),
        modifier_end(b, i) < b.len() ==> !is_modifier(b[modifier_end(b, i)]),
    decreases b.len() - i,
{
    if i < b.len() && is_modifier(b[i]) {
        lemma_modifier_end(b, i + 1);
    }
}

/// Whether `c` is one of the modifier characters.
pub fn is_modifier_byte(c: u8) -> (r: bool)
    ensures
        r == is_modifier(c),
{
    c == 98u8 || c == 120u8 || c == 101u8 || c == 36u8 || c == 104u8 || c == 63u8 || c == 33u8
        || c == 64u8 || c == 42u8 || c == 102u8
}

/// The characters of the bytes `b`, one per byte.
pub open spec fn byte_chars(b: Seq<u8>) -> Seq<char> {
    b.map_values(|x: u8| x as char)
}

/// A character read from a byte stands for that byte.
pub proof fn lemma_byte_chars_contains(b: Seq<u8>, c: u8)
    ensures
        byte_chars(b).contains(c as char) == b.contains(c),
{
    if b.contains(c) {
        let k = choose|k: int| 0 <= k < b.len() && b[k] == c;
        assert(byte_chars(b)[k] == c as char);
    }
    if byte_chars(b).contains(c as char) {
        let k = choose|k: int| 0 <= k < byte_chars(b).len() && byte_chars(b)[k] == c as char;
        assert(b[k] as char == c as char);
        assert((b[k] as char) as int == b[k] as int);
        assert((c as char) as int == c as int);
    }
}

/// Read modifier characters (`bxe$h?!@*f`) starting at `i` and return them.
/// Stops at the first character that is not a modifier or at the end; from
/// past the end it reads nothing.
pub fn read_modifiers(bytes: &[u8], i: &mut usize) -> (s: String)
    ensures
        *final(i) == modifier_end(bytes@, *old(i) as int),
        *old(i) <= bytes@.len() ==> s@ == byte_chars(
            bytes@.subrange(*old(i) as int, *final(i) as int),
        ),
        *old(i) > bytes@.len() ==> s@.len() == 0,
        *old(i) <= bytes@.len() ==> forall|c: u8|
            #[trigger] s@.contains(c as char) == bytes@.subrange(*old(i) as int, *final(i) as int).contains(
                c,
            ),
{
    let mut s = String::new();
    if *i > bytes.len() {
        return s;
    }
    let ghost start = *i;
    assert(byte_chars(bytes@.subrange(start as int, start as int)) =~= s@);
    while *i < bytes.len() && is_modifier_byte(bytes[*i])
        invariant
            start <= *i <= bytes@.len(),
            modifier_end(bytes@, start as int) == modifier_end(bytes@, *i as int),
            s@ == byte_chars(bytes@.subrange(start as int, *i as int)),
        decreases bytes@.len() - *i,
    {
        let c = bytes[*i];
        s.push(c as char);
        assert(bytes@.subrange(start as int, *i + 1) =~= bytes@.subrange(
            start as int,
            *i as int,
        ).push(c));
        assert(byte_chars(bytes@.subrange(start as int, *i + 1)) =~= byte_chars(
            bytes@.subrange(start as int, *i as int),
        ).push(c as char));
        *i = *i + 1;
    }
    assert forall|c: u8|
        #[trigger] s@.contains(c as char) == bytes@.subrange(start as int, *i as int).contains(c) by {
        lemma_byte_chars_contains(bytes@.subrange(start as int, *i as int), c);
    }
    s
}

/// Whether the modifier run `mods` holds the modifier `c`.
pub fn has_modifier(mods: &String, c: u8) -> (r: bool)
    ensures
        r == mods@.contains(c as char),
{
    let chars = chars_of(mods.as_str());
    let ch = c as char;
    let mut k: usize = 0;
    while k < chars.len()
        invariant
            k <= chars@.len(),
            chars@ == mods@,
            ch == c as char,
            forall|j: int| 0 <= j < k ==> chars@[j] != ch,
        decreases chars@.len() - k,
    {
        if chars[k] == ch {
            return true;
        }
        k = k + 1;
    }
    false
}

/// Whether `c` occurs in `v`.
pub fn contains_byte(v: &[u8], c: u8) -> (r: bool)
    ensures
        r == v@.contains(c),
{
    let mut k: usize = 0;
    while k < v.len()
        invariant
            k <= v@.len(),
            forall|j: int| 0 <= j < k ==> v@[j] != c,
        decreases v@.len() - k,
    {
        if v[k] == c {
            return true;
        }
        k = k + 1;
    }
    false
}

/// An ASCII digit byte.
pub open spec fn is_digit_byte(c: u8) -> bool {
    48 <= c <= 57
}

/// The button (0..=7) that a digit byte names in a slide arc: `1`..`8` name
/// 0..7, `9` wraps to 0, and `0` gives 7 (the digit minus `1`, wrapped, low
/// three bits).
pub open spec fn arc_button(c: u8) -> u8 {
    if c == 48 {
        7
    } else {
        ((c - 49) % 8) as u8
    }
}

fn arc_button_of(c: u8) -> (r: u8)
    requires
        is_digit_byte(c),
    ensures
        r == arc_button(c),
{
    if c == 48u8 {
        7
    } else {
        let d: u8 = c - 49u8;
        assert(d & 7 == d % 8) by (bit_vector);
        d & 0x07
    }
}

/// One arc of a slide: its pattern, end button and (for `V`) reflect button.
#[derive(Debug, Clone, Copy, PartialEq, Eq, Structural)]
pub struct SlideArc {
    pub pattern: SlidePattern,
    pub end: u8,
    pub reflect: Option<u8>,
}

/// The pattern that starts at `i` and how many bytes its text takes.
pub open spec fn pattern_at(b: Seq<u8>, i: int) -> Option<(SlidePattern, int)> {
    let c = b[i];
    if c == 45 {
        Some((SlidePattern::Line, 1))
    } else if c == 94 {
        Some((SlidePattern::Caret, 1))
    } else if c == 60 {
        Some((SlidePattern::Left, 1))
    } else if c == 62 {
        Some((SlidePattern::Right, 1))
    } else if c == 115 {
        Some((SlidePattern::S, 1))
    } else if c == 122 {
        Some((SlidePattern::Z, 1))
    } else if c == 118 {
        Some((SlidePattern::LowerV, 1))
    } else if c == 119 {
        Some((SlidePattern::Wifi, 1))
    } else if c == 112 {
        if i + 1 < b.len() && b[i + 1] == 112 {
            Some((SlidePattern::PP, 2))
        } else {
            Some((SlidePattern::P, 1))
        }
    } else if c == 113 {
        if i + 1 < b.len() && b[i + 1] == 113 {
            Some((SlidePattern::QQ, 2))
        } else {
            Some((SlidePattern::Q, 1))
        }
    } else if c == 86 {
        Some((SlidePattern::BigV, 1))
    } else {
        None
    }
}

pub open spec fn eol_error() -> ErrorView {
    ErrorView { message: "slide arc: unexpected EOL"@, offset: None }
}

pub open spec fn unknown_pattern_error(c: u8, at: int) -> ErrorView {
    ErrorView {
        message: "unknown slide pattern `"@ + seq![c as char] + "`"@,
        offset: Some(at as usize),
    }
}

pub open spec fn missing_reflect_error() -> ErrorView {
    ErrorView { message: "slide `V` missing reflect button"@, offset: None }
}

pub open spec fn missing_end_error() -> ErrorView {
    ErrorView { message: "slide arc missing end button"@, offset: None }
}

/// The end button at `k`, closing an arc of `pattern`.
pub open spec fn arc_end_at(b: Seq<u8>, k: int, pattern: SlidePattern, reflect: Option<u8>) -> Result<
    (SlideArc, int),
    ErrorView,
> {
    if k >= b.len() || !is_digit_byte(b[k]) {
        Err(missing_end_error())
    } else {
        Ok((SlideArc { pattern, end: arc_button(b[k]), reflect }, k + 1))
    }
}

/// The slide arc that starts at `i`, and the index after its end button.
pub open spec fn spec_read_slide_arc(b: Seq<u8>, i: int) -> Result<(SlideArc, int), ErrorView> {
    if i >= b.len() {
        Err(eol_error())
    } else {
        match pattern_at(b, i) {
            None => Err(unknown_pattern_error(b[i], i)),
            Some((p, adv)) => {
                let j = i + adv;
                if p == SlidePattern::BigV {
                    if j >= b.len() || !is_digit_byte(b[j]) {
                        Err(missing_reflect_error())
                    } else {
                        arc_end_at(b, j + 1, p, Some(arc_button(b[j])))
                    }
                } else {
                    arc_end_at(b, j, p, None)
                }
            },
        }
    }
}

pub proof fn lemma_read_slide_arc_advances(b: Seq<u8>, i: int)
    requires
        0 <= i,
    ensures
        spec_read_slide_arc(b, i) matches Ok((_, j)) ==> i < j <= b.len(),
{
}

/// Read a single slide arc starting at the pattern character. Returns the arc
/// and the index after the end button digit.
pub fn read_slide_arc(bytes: &[u8], i: usize) -> (r: Result<(SlideArc, usize), ParseError>)
    ensures
        match r {
            Ok((a, j)) => spec_read_slide_arc(bytes@, i as int) == Ok::<(SlideArc, int), ErrorView>(
                (a, j as int),
            ),
            Err(e) => spec_read_slide_arc(bytes@, i as int) == Err::<(SlideArc, int), ErrorView>(
                e@,
            ),
        },
{
    if i >= bytes.len() {
        return Err(plain_error("slide arc: unexpected EOL"));
    }
    let c = bytes[i];
    let (pattern, advance): (SlidePattern, usize) = if c == 45u8 {
        (SlidePattern::Line, 1)
    } else if c == 94u8 {
        (SlidePattern::Caret, 1)
    } else if c == 60u8 {
        (SlidePattern::Left, 1)
    } else if c == 62u8 {
        (SlidePattern::Right, 1)
    } else if c == 115u8 {
        (SlidePattern::S, 1)
    } else if c == 122u8 {
        (SlidePattern::Z, 1)
    } else if c == 118u8 {
        (SlidePattern::LowerV, 1)
    } else if c == 119u8 {
        (SlidePattern::Wifi, 1)
    } else if c == 112u8 {
        if i + 1 < bytes.len() && bytes[i + 1] == 112u8 {
            (SlidePattern::PP, 2)
        } else {
            (SlidePattern::P, 1)
        }
    } else if c == 113u8 {
        if i + 1 < bytes.len() && bytes[i + 1] == 113u8 {
            (SlidePattern::QQ, 2)
        } else {
            (SlidePattern::Q, 1)
        }
    } else if c == 86u8 {
        (SlidePattern::BigV, 1)
    } else {
        return Err(error_around_char("unknown slide pattern `", c, "`", i));
    };
    let mut j = i + advance;
    let reflect = if pattern == SlidePattern::BigV {
        if j >= bytes.len() || !(bytes[j] >= 48u8 && bytes[j] <= 57u8) {
            return Err(plain_error("slide `V` missing reflect button"));
        }
        let r = arc_button_of(bytes[j]);
        j = j + 1;
        Some(r)
    } else {
        None
    };
    if j >= bytes.len() || !(bytes[j] >= 48u8 && bytes[j] <= 57u8) {
        return Err(plain_error("slide arc missing end button"));
    }
    let end = arc_button_of(bytes[j]);
    Ok((SlideArc { pattern, end, reflect }, j + 1))
}

/// How the inside of a `[...]` duration block is laid out. The numbers in
/// it are left as text; the positions say where each one lies.
#[derive(Debug, Clone, Copy, PartialEq, Eq, Structural)]
pub enum DurationForm {
    /// `[delay##length]`: `split` is the index of the first `#` of the first `##`;
    /// the delay is before it and the length after the `##`.
    DelayAndLength { split: usize },
    /// `[#length]`: the length follows the leading `#`.
    Seconds,
    /// `[den:num]` or `[bpm#den:num]`: `hash` is the first `#` (if any), the
    /// denominator runs from after it to `colon`, the numerator from after
    /// `colon` to `num_end`. `colon` is `None` when the block has no `:`.
    Ratio { hash: Option<usize>, colon: Option<usize>, num_end: usize },
}

/// A `[...]` duration block: the indices of its brackets and its layout.
#[derive(Debug, Clone, Copy, PartialEq, Eq, Structural)]
pub struct DurationBlock {
    pub open: usize,
    pub close: usize,
    pub form: DurationForm,
}

/// The layout of a ratio body that starts at `body` and ends at `hi`.
pub open spec fn ratio_form(b: Seq<u8>, hash: Option<usize>, body: int, hi: int) -> DurationForm {
    match first_in(b, body, hi, 58) {
        None => DurationForm::Ratio { hash, colon: None, num_end: hi as usize },
        Some(c) => DurationForm::Ratio {
            hash,
            colon: Some(c as usize),
            num_end: match first_in(b, c + 1, hi, 58) {
                Some(e) => e as usize,
                None => hi as usize,
            },
        },
    }
}

/// The layout of the block whose inside is `b[lo..hi]`.
pub open spec fn duration_form(b: Seq<u8>, lo: int, hi: int) -> DurationForm {
    match first_double_hash(b, lo, hi) {
        Some(k) => DurationForm::DelayAndLength { split: k as usize },
        None => match first_in(b, lo, hi, 35) {
            Some(h) => if h == lo {
                DurationForm::Seconds
            } else {
                ratio_form(b, Some(h as usize), h + 1, hi)
            },
            None => ratio_form(b, None, lo, hi),
        },
    }
}

/// The duration block that opens at `i`, and the index after it.
pub open spec fn spec_duration_block(b: Seq<u8>, i: int) -> Result<(DurationBlock, int), ErrorView> {
    match spec_find_close(b, i, 93) {
        Err(e) => Err(e),
        Ok(close) => Ok(
            (
                DurationBlock {
                    open: i as usize,
                    close: close as usize,
                    form: duration_form(b, i + 1, close),
                },
                close + 1,
            ),
        ),
    }
}

/// All positions of a well-formed block lie within it.
pub open spec fn block_in_bounds(blk: DurationBlock, len: int) -> bool {
    &&& blk.open < blk.close < len
    &&& match blk.form {
        DurationForm::DelayAndLength { split } => blk.open < split && split + 1 < blk.close,
        DurationForm::Seconds => blk.open + 1 < blk.close,
        DurationForm::Ratio { hash, colon, num_end } => {
            &&& (hash matches Some(h) ==> blk.open < h < blk.close)
            &&& (colon matches Some(c) ==> blk.open < c < num_end <= blk.close
                && (hash matches Some(h) ==> h < c))
            &&& num_end <= blk.close
        },
    }
}

pub proof fn lemma_duration_block_bounds(b: Seq<u8>, i: int)
    requires
        0 <= i < b.len(),
        b.len() <= usize::MAX,
    ensures
        spec_duration_block(b, i) matches Ok((blk, j)) ==> block_in_bounds(blk, b.len() as int) && j
            == blk.close + 1 && blk.open == i,
{
    lemma_first_in_bounds(b, i + 1, b.len() as int, 93);
    if let Ok(close) = spec_find_close(b, i, 93) {
        let lo = i + 1;
        let hi = close;
        lemma_first_double_hash_bounds(b, lo, hi);
        lemma_first_in_bounds(b, lo, hi, 35);
        if let Some(h) = first_in(b, lo, hi, 35) {
            lemma_first_in_bounds(b, h + 1, hi, 58);
            if let Some(c) = first_in(b, h + 1, hi, 58) {
                lemma_first_in_bounds(b, c + 1, hi, 58);
            }
        }
        lemma_first_in_bounds(b, lo, hi, 58);
        if let Some(c) = first_in(b, lo, hi, 58) {
            lemma_first_in_bounds(b, c + 1, hi, 58);
        }
    }
}

/// Read the `[...]` block that opens at `*i` and move `*i` past it.
pub fn read_duration_block(bytes: &[u8], i: &mut usize) -> (r: Result<DurationBlock, ParseError>)
    requires
        *old(i) < bytes@.len(),
    ensures
        match r {
            Ok(blk) => spec_duration_block(bytes@, *old(i) as int) == Ok::<
                (DurationBlock, int),
                ErrorView,
            >((blk, *final(i) as int)),
            Err(e) => spec_duration_block(bytes@, *old(i) as int) == Err::<
                (DurationBlock, int),
                ErrorView,
            >(e@) && *final(i) == *old(i),
        },
{
    let open = *i;
    let n = bytes.len();
    let close = find_close(bytes, open, 93u8)?;
    proof {
        lemma_first_in_bounds(bytes@, open + 1, bytes@.len() as int, 93);
    }
    let lo = open + 1;
    let form = match first_double_hash_in(bytes, lo, close) {
        Some(k) => DurationForm::DelayAndLength { split: k },
        None => match first_byte_in(bytes, lo, close, 35u8) {
            Some(h) => {
                if h == lo {
                    DurationForm::Seconds
                } else {
                    proof {
                        lemma_first_in_bounds(bytes@, lo as int, close as int, 35);
                    }
                    ratio_form_of(bytes, Some(h), h + 1, close)
                }
            },
            None => ratio_form_of(bytes, None, lo, close),
        },
    };
    *i = close + 1;
    Ok(DurationBlock { open, close, form })
}

fn ratio_form_of(bytes: &[u8], hash: Option<usize>, body: usize, hi: usize) -> (f: DurationForm)
    requires
        body <= hi < bytes@.len(),
    ensures
        f == ratio_form(bytes@, hash, body as int, hi as int),
{
    match first_byte_in(bytes, body, hi, 58u8) {
        None => DurationForm::Ratio { hash, colon: None, num_end: hi },
        Some(c) => {
            proof {
                lemma_first_in_bounds(bytes@, body as int, hi as int, 58);
            }
            let num_end = match first_byte_in(bytes, c + 1, hi, 58u8) {
                Some(e) => e,
                None => hi,
            };
            DurationForm::Ratio { hash, colon: Some(c), num_end }
        },
    }
}

/// The error for a ratio duration block that has no `:`; `inner` is the
/// text between the block's brackets.
pub open spec fn missing_colon_error(inner: Seq<char>) -> ErrorView {
    ErrorView { message: "duration missing `:` in `"@ + inner + "`"@, offset: None }
}

/// The `:` of a ratio duration block, or, when the block has none, the error
/// that reports it; `inner` is the text between the block's brackets.
pub fn ratio_colon(colon: Option<usize>, inner: &str) -> (r: Result<usize, ParseError>)
    ensures
        match colon {
            Some(c) => r matches Ok(k) && k == c,
            None => r matches Err(e) && e@ == missing_colon_error(inner@),
        },
{
    match colon {
        Some(c) => Ok(c),
        None => {
            let mut m = String::from_str("duration missing `:` in `");
            m.append(inner);
            m.append("`");
            Err(ParseError { message: m, offset: None })
        },
    }
}

} // verus!
