//! Positions in a chart body: where each character of the cleaned body, and
//! each byte offset into one of its fragments, stands in the text as written.

use vstd::prelude::*;
use crate::chart_text::{
    chart_fragments, has_double_bar, join, lemma_join_split, spec_chart_fragments, spec_clean,
    split_at_char, clean_lines, line_has_double_bar, strings_view, kept_line, strip_whitespace, lemma_split_nonempty,
};
use crate::text::{chars_of, is_unicode_whitespace, is_whitespace};

verus! {

/// Where piece `m` of `parts` begins once they are joined with one separator
/// between each two.
pub open spec fn piece_start(parts: Seq<Seq<char>>, m: int) -> int
    decreases m,
{
    if m <= 0 {
        0
    } else {
        piece_start(parts, m - 1) + parts[m - 1].len() + 1
    }
}

/// The positions in `s` of its characters that are not whitespace.
pub open spec fn strip_positions(s: Seq<char>) -> Seq<int>
    decreases s.len(),
{
    if s.len() == 0 {
        seq![]
    } else if is_unicode_whitespace(s.last()) {
        strip_positions(s.drop_last())
    } else {
        strip_positions(s.drop_last()).push(s.len() - 1)
    }
}

/// The positions in a line of the characters that cleaning keeps.
pub open spec fn kept_line_positions(line: Seq<char>) -> Seq<int> {
    if has_double_bar(line) {
        seq![]
    } else {
        strip_positions(line)
    }
}

/// Each position moved on by `d`.
pub open spec fn shift(ps: Seq<int>, d: int) -> Seq<int> {
    ps.map_values(|p: int| p + d)
}

/// The positions, in the lines joined by line breaks, of the characters that
/// cleaning keeps, in order.
pub open spec fn clean_positions(lines: Seq<Seq<char>>) -> Seq<int>
    decreases lines.len(),
{
    if lines.len() == 0 {
        seq![]
    } else {
        clean_positions(lines.drop_last()) + shift(
            kept_line_positions(lines.last()),
            piece_start(lines, lines.len() - 1),
        )
    }
}

/// For each character of the cleaned chart body, its position in the body.
pub open spec fn spec_kept_positions(text: Seq<char>) -> Seq<int> {
    clean_positions(split_at_char(text, '\n'))
}

proof fn lemma_piece_start_nonneg(parts: Seq<Seq<char>>, m: int)
    ensures
        0 <= piece_start(parts, m),
    decreases m,
{
    if m > 0 {
        lemma_piece_start_nonneg(parts, m - 1);
    }
}

/// Where a piece begins: after the pieces before it and a separator after each.
proof fn lemma_piece_start_take(parts: Seq<Seq<char>>, sep: char, m: int)
    requires
        1 <= m <= parts.len(),
    ensures
        piece_start(parts, m) == join(parts.take(m), sep).len() + 1,
    decreases m,
{
    if m == 1 {
        assert(parts.take(1).len() == 1);
        assert(piece_start(parts, 0) == 0);
    } else {
        lemma_piece_start_take(parts, sep, m - 1);
        assert(parts.take(m).drop_last() =~= parts.take(m - 1));
        assert(parts.take(m).last() == parts[m - 1]);
    }
}

/// `piece_start` reads only the pieces before the one it is asked about.
proof fn lemma_piece_start_same(a: Seq<Seq<char>>, b: Seq<Seq<char>>, m: int)
    requires
        0 <= m <= a.len(),
        m <= b.len(),
        a.take(m) == b.take(m),
    ensures
        piece_start(a, m) == piece_start(b, m),
    decreases m,
{
    if m > 0 {
        assert(a.take(m - 1) =~= a.take(m).take(m - 1));
        assert(b.take(m - 1) =~= b.take(m).take(m - 1));
        lemma_piece_start_same(a, b, m - 1);
        assert(a[m - 1] == a.take(m)[m - 1]);
        assert(b[m - 1] == b.take(m)[m - 1]);
    }
}

/// Piece `m` stands in the joined text at `piece_start(parts, m)`.
pub proof fn lemma_piece_in_join(parts: Seq<Seq<char>>, sep: char, m: int)
    requires
        0 <= m < parts.len(),
    ensures
        piece_start(parts, m) + parts[m].len() <= join(parts, sep).len(),
        forall|j: int|
            0 <= j < parts[m].len() ==> join(parts, sep)[piece_start(parts, m) + j] == #[trigger] parts[m][j],
    decreases parts.len(),
{
    let n = parts.len();
    let front = parts.drop_last();
    lemma_piece_start_nonneg(parts, m);
    if n == 1 {
        assert(join(parts, sep) == parts[0]);
    } else {
        let jf = join(front, sep);
        assert(join(parts, sep) == jf.push(sep) + parts.last());
        if m < n - 1 {
            lemma_piece_in_join(front, sep, m);
            assert(front.take(m) =~= parts.take(m));
            lemma_piece_start_same(front, parts, m);
            assert(front[m] == parts[m]);
            assert forall|j: int| 0 <= j < parts[m].len() implies join(parts, sep)[piece_start(parts, m) + j]
                == #[trigger] parts[m][j] by {
                assert(front[m][j] == parts[m][j]);
                assert(piece_start(front, m) + j < jf.len());
                assert(jf[piece_start(front, m) + j] == front[m][j]);
                let x = piece_start(front, m) + j;
                assert(jf.push(sep)[x] == jf[x]);
                assert((jf.push(sep) + parts.last())[x] == jf.push(sep)[x]);
            }
        } else {
            lemma_piece_start_take(parts, sep, n - 1);
            assert(parts.take(n - 1) =~= front);
        }
    }
}

/// The positions of the kept characters of a line lie in the line, in order,
/// and point at the kept characters.
proof fn lemma_strip_positions(s: Seq<char>)
    ensures
        strip_positions(s).len() == strip_whitespace(s).len(),
        forall|j: int|
            0 <= j < strip_positions(s).len() ==> 0 <= #[trigger] strip_positions(s)[j] < s.len()
                && s[strip_positions(s)[j]] == strip_whitespace(s)[j],
        forall|j: int, k: int|
            0 <= j < k < strip_positions(s).len() ==> #[trigger] strip_positions(s)[j] < #[trigger] strip_positions(s)[k],
    decreases s.len(),
{
    if s.len() > 0 {
        let t = s.drop_last();
        lemma_strip_positions(t);
        assert forall|j: int| 0 <= j < strip_positions(t).len() implies s[strip_positions(t)[j]] == t[strip_positions(t)[j]] by {}
    }
}

/// Cleaning keeps, one after another, the characters that `clean_positions`
/// points at in the joined lines.
proof fn lemma_clean_positions(lines: Seq<Seq<char>>)
    ensures
        clean_positions(lines).len() == clean_lines(lines).len(),
        forall|j: int|
            0 <= j < clean_positions(lines).len() ==> 0 <= #[trigger] clean_positions(lines)[j] < join(lines, '\n').len()
                && join(lines, '\n')[clean_positions(lines)[j]] == clean_lines(lines)[j],
        forall|j: int, k: int|
            0 <= j < k < clean_positions(lines).len() ==> #[trigger] clean_positions(lines)[j] < #[trigger] clean_positions(lines)[k],
    decreases lines.len(),
{
    let n = lines.len();
    if n > 0 {
        let front = lines.drop_last();
        let line = lines.last();
        lemma_clean_positions(front);
        lemma_strip_positions(line);
        lemma_piece_in_join(lines, '\n', n - 1);
        let d = piece_start(lines, n - 1);
        let a = clean_positions(front);
        let b = shift(kept_line_positions(line), d);
        let whole = join(lines, '\n');
        assert(clean_positions(lines) == a + b);
        assert(clean_lines(lines) == clean_lines(front) + kept_line(line));
        if n > 1 {
            lemma_piece_start_take(lines, '\n', n - 1);
            assert(lines.take(n - 1) =~= front);
            assert(whole == join(front, '\n').push('\n') + line);
        } else {
            assert(front.len() == 0);
        }
        assert forall|j: int| 0 <= j < clean_positions(lines).len() implies 0 <= #[trigger] clean_positions(lines)[j]
            < whole.len() && whole[clean_positions(lines)[j]] == clean_lines(lines)[j] by {
            if j < a.len() {
                assert(whole[a[j]] == join(front, '\n')[a[j]]);
            } else {
                let q = j - a.len();
                assert(b[q] == kept_line_positions(line)[q] + d);
                assert(line[kept_line_positions(line)[q]] == kept_line(line)[q]);
            }
        }
        assert forall|j: int, k: int| 0 <= j < k < clean_positions(lines).len() implies #[trigger] clean_positions(lines)[j]
            < #[trigger] clean_positions(lines)[k] by {
            if k >= a.len() && j < a.len() {
                if n > 1 {
                    assert(a[j] < join(front, '\n').len());
                } else {
                    assert(a.len() == 0);
                }
            } else if j >= a.len() {
                assert(kept_line_positions(line)[j - a.len()] < kept_line_positions(line)[k - a.len()]);
            }
        }
    }
}

/// Each character of the cleaned chart body stands in the body at the
/// position that `spec_kept_positions` gives, and these positions rise.
pub proof fn lemma_kept_positions(text: Seq<char>)
    ensures
        spec_kept_positions(text).len() == spec_clean(text).len(),
        forall|j: int|
            0 <= j < spec_kept_positions(text).len() ==> 0 <= #[trigger] spec_kept_positions(text)[j] < text.len()
                && text[spec_kept_positions(text)[j]] == spec_clean(text)[j],
        forall|j: int, k: int|
            0 <= j < k < spec_kept_positions(text).len() ==> #[trigger] spec_kept_positions(text)[j]
                < #[trigger] spec_kept_positions(text)[k],
{
    lemma_clean_positions(split_at_char(text, '\n'));
    lemma_join_split(text, '\n');
}

/// The values of `v`, as integers.
pub open spec fn as_ints(v: Seq<usize>) -> Seq<int> {
    v.map_values(|x: usize| x as int)
}

proof fn lemma_piece_start_mono(parts: Seq<Seq<char>>, a: int, b: int)
    requires
        a <= b,
    ensures
        piece_start(parts, a) <= piece_start(parts, b),
    decreases b - a,
{
    if a < b && b > 0 {
        lemma_piece_start_mono(parts, a, b - 1);
    }
}

/// Appends to `out` the positions, moved on by `start`, of the characters of
/// `line` that cleaning keeps.
fn append_kept_positions(out: &mut Vec<usize>, line: &Vec<char>, start: usize)
    requires
        start + line@.len() <= usize::MAX,
    ensures
        as_ints(final(out)@) == as_ints(old(out)@) + shift(kept_line_positions(line@), start as int),
{
    let ghost base = out@;
    if line_has_double_bar(line) {
        assert(as_ints(out@) =~= as_ints(base) + shift(seq![], start as int));
        return ;
    }
    let mut k: usize = 0;
    assert(line@.take(0) =~= seq![]);
    assert(as_ints(out@) =~= as_ints(base) + shift(strip_positions(line@.take(0)), start as int));
    while k < line.len()
        invariant
            k <= line@.len(),
            start + line@.len() <= usize::MAX,
            as_ints(out@) == as_ints(base) + shift(strip_positions(line@.take(k as int)), start as int),
        decreases line@.len() - k,
    {
        let c = line[k];
        proof {
            assert(line@.take(k + 1).drop_last() =~= line@.take(k as int));
            assert(line@.take(k + 1).last() == c);
        }
        if !is_whitespace(c) {
            let ghost before = out@;
            out.push(start + k);
            assert(as_ints(out@) =~= as_ints(before).push(start + k));
            assert(as_ints(out@) =~= as_ints(base) + shift(strip_positions(line@.take(k + 1)), start as int));
        }
        k = k + 1;
    }
    assert(line@.take(k as int) =~= line@);
}

/// The position in `text` of each character that cleaning keeps.
fn kept_positions(text: &str) -> (r: Vec<usize>)
    ensures
        as_ints(r@) == spec_kept_positions(text@),
{
    let chars = chars_of(text);
    let mut out: Vec<usize> = Vec::new();
    let mut line: Vec<char> = Vec::new();
    let mut start: usize = 0;
    let mut k: usize = 0;
    proof {
        lemma_split_nonempty(chars@.take(0), '\n');
        assert(chars@.take(0) =~= seq![]);
        assert(split_at_char(seq![], '\n').drop_last() =~= seq![]);
        assert(as_ints(out@) =~= seq![]);
    }
    while k < chars.len()
        invariant
            k <= chars@.len(),
            chars@ == text@,
            split_at_char(chars@.take(k as int), '\n').len() >= 1,
            as_ints(out@) == clean_positions(split_at_char(chars@.take(k as int), '\n').drop_last()),
            line@ == split_at_char(chars@.take(k as int), '\n').last(),
            start as int == piece_start(
                split_at_char(chars@.take(k as int), '\n'),
                split_at_char(chars@.take(k as int), '\n').len() - 1,
            ),
            start + line@.len() == k,
        decreases chars@.len() - k,
    {
        let c = chars[k];
        let ghost p = split_at_char(chars@.take(k as int), '\n');
        let ghost n = p.len();
        proof {
            assert(chars@.take(k + 1).drop_last() =~= chars@.take(k as int));
            assert(chars@.take(k + 1).last() == c);
        }
        if c == '\n' {
            append_kept_positions(&mut out, &line, start);
            line = Vec::new();
            start = k + 1;
            proof {
                let q = p.push(seq![]);
                assert(q.drop_last() =~= p);
                assert(p =~= p.drop_last().push(p.last()));
                assert(q.take(n - 1) =~= p.take(n - 1));
                lemma_piece_start_same(q, p, n - 1);
                assert(q[n - 1] == p.last());
                assert(line@ =~= q.last());
            }
        } else {
            line.push(c);
            proof {
                let q = p.update(n - 1, p.last().push(c));
                assert(q.drop_last() =~= p.drop_last());
                assert(q.take(n - 1) =~= p.take(n - 1));
                lemma_piece_start_same(q, p, n - 1);
            }
        }
        k = k + 1;
    }
    proof {
        let p = split_at_char(chars@.take(k as int), '\n');
        assert(chars@.take(k as int) =~= text@);
        assert(p =~= p.drop_last().push(p.last()));
    }
    append_kept_positions(&mut out, &line, start);
    out
}

/// The number of bytes that UTF-8 takes for `c`.
pub open spec fn utf8_width(c: char) -> int {
    let v = c as u32;
    if v < 0x80 {
        1
    } else if v < 0x800 {
        2
    } else if v < 0x10000 {
        3
    } else {
        4
    }
}

/// `utf8_width` is the length of the UTF-8 encoding of the character.
pub proof fn lemma_utf8_width(c: char)
    ensures
        utf8_width(c) == vstd::utf8::encode_scalar(c as u32).len(),
{
    vstd::utf8::char_is_scalar(c);
}

/// How many characters of `s` begin before byte `off` of its UTF-8 encoding.
pub open spec fn chars_before(s: Seq<char>, off: int) -> int
    decreases s.len(),
{
    if s.len() == 0 || off <= 0 {
        0
    } else {
        1 + chars_before(s.drop_first(), off - utf8_width(s[0]))
    }
}

fn count_chars_before(s: &Vec<char>, off: usize) -> (r: usize)
    ensures
        r as int == chars_before(s@, off as int),
        r <= s@.len(),
{
    let mut j: usize = 0;
    let mut rem: usize = off;
    assert(s@.skip(0) =~= s@);
    while j < s.len() && rem > 0
        invariant
            j <= s@.len(),
            chars_before(s@, off as int) == j + chars_before(s@.skip(j as int), rem as int),
        decreases s@.len() - j,
    {
        let u = s[j] as u32;
        let w: usize = if u < 0x80 {
            1
        } else if u < 0x800 {
            2
        } else if u < 0x10000 {
            3
        } else {
            4
        };
        proof {
            let t = s@.skip(j as int);
            assert(t.drop_first() =~= s@.skip(j + 1));
            assert(t[0] == s@[j as int]);
            assert(w as int == utf8_width(t[0]));
            assert(chars_before(t, rem as int) == 1 + chars_before(t.drop_first(), rem - w));
            if rem < w {
                assert(chars_before(t.drop_first(), rem - w) == 0);
                assert(chars_before(t.drop_first(), 0) == 0);
            }
        }
        rem = if rem >= w {
            rem - w
        } else {
            0
        };
        j = j + 1;
    }
    j
}

/// Where, in characters of the chart body `text`, byte `offset` of fragment
/// number `fragment` stands: at the body's character that cleaning turned
/// into that character of the fragment, or at the end of the body where the
/// offset lies past the last character kept. No position where the body has
/// no such fragment.
pub open spec fn spec_chart_offset(text: Seq<char>, fragment: int, offset: int) -> Option<int> {
    let frags = spec_chart_fragments(text);
    if fragment < 0 || fragment >= frags.len() {
        None
    } else {
        let p = piece_start(frags, fragment) + chars_before(frags[fragment], offset);
        let ps = spec_kept_positions(text);
        Some(
            if p < ps.len() {
                ps[p]
            } else {
                text.len() as int
            },
        )
    }
}

/// Turns a byte offset into fragment number `fragment` of the chart body
/// `text` (as the fragment parser reports it) into a character offset into
/// `text` itself.
pub fn chart_offset(text: &str, fragment: usize, offset: usize) -> (r: Option<usize>)
    ensures
        match spec_chart_offset(text@, fragment as int, offset as int) {
            None => r is None,
            Some(v) => r is Some && r->0 as int == v,
        },
{
    let positions = kept_positions(text);
    let plen = positions.len();
    let frags = chart_fragments(text);
    if fragment >= frags.len() {
        return None;
    }
    let ghost fv = spec_chart_fragments(text@);
    proof {
        lemma_kept_positions(text@);
        lemma_join_split(spec_clean(text@), ',');
        lemma_piece_in_join(fv, ',', fragment as int);
        assert(fv.len() == frags@.len());
    }
    let mut start: usize = 0;
    let mut i: usize = 0;
    while i < fragment
        invariant
            i <= fragment < frags@.len(),
            fv == strings_view(frags@),
            start as int == piece_start(fv, i as int),
            piece_start(fv, fragment as int) + fv[fragment as int].len() <= plen,
            plen == positions@.len(),
        decreases fragment - i,
    {
        proof {
            lemma_piece_start_mono(fv, i + 1, fragment as int);
            assert(fv[i as int] == frags@[i as int]@);
        }
        let len = frags[i].as_str().unicode_len();
        start = start + len + 1;
        i = i + 1;
    }
    let chars = chars_of(frags[fragment].as_str());
    assert(fv[fragment as int] == frags@[fragment as int]@);
    let at = count_chars_before(&chars, offset);
    let p = start + at;
    if p < positions.len() {
        assert(as_ints(positions@)[p as int] == positions@[p as int] as int);
        Some(positions[p])
    } else {
        Some(text.unicode_len())
    }
}

} // verus!
