//! A chart body before its fragments are read: comment lines and whitespace
//! are removed, and the rest is cut at every `,`.

use vstd::prelude::*;
use crate::text::{chars_of, is_unicode_whitespace, is_whitespace};

verus! {

/// The pieces of `s` between the occurrences of `sep`, in order (there is
/// always at least one, and `join` puts them back together).
pub open spec fn split_at_char(s: Seq<char>, sep: char) -> Seq<Seq<char>>
    decreases s.len(),
{
    if s.len() == 0 {
        seq![seq![]]
    } else {
        let p = split_at_char(s.drop_last(), sep);
        if s.last() == sep {
            p.push(seq![])
        } else {
            p.update(p.len() - 1, p.last().push(s.last()))
        }
    }
}

/// The pieces, with `sep` between each two.
pub open spec fn join(parts: Seq<Seq<char>>, sep: char) -> Seq<char>
    decreases parts.len(),
{
    if parts.len() == 0 {
        seq![]
    } else if parts.len() == 1 {
        parts[0]
    } else {
        join(parts.drop_last(), sep).push(sep) + parts.last()
    }
}

pub proof fn lemma_split_nonempty(s: Seq<char>, sep: char)
    ensures
        split_at_char(s, sep).len() >= 1,
    decreases s.len(),
{
    if s.len() > 0 {
        lemma_split_nonempty(s.drop_last(), sep);
    }
}

/// Cutting at `sep` and joining again with `sep` gives back the text.
pub proof fn lemma_join_split(s: Seq<char>, sep: char)
    ensures
        join(split_at_char(s, sep), sep) == s,
    decreases s.len(),
{
    if s.len() > 0 {
        let t = s.drop_last();
        lemma_join_split(t, sep);
        lemma_split_nonempty(t, sep);
        let p = split_at_char(t, sep);
        if s.last() == sep {
            let q = p.push(seq![]);
            assert(q.drop_last() =~= p);
            assert(join(q, sep) =~= t.push(sep));
            assert(t.push(sep) =~= s);
        } else {
            let q = p.update(p.len() - 1, p.last().push(s.last()));
            if p.len() == 1 {
                assert(join(q, sep) == q[0]);
                assert(q[0] =~= t.push(s.last()));
            } else {
                assert(q.drop_last() =~= p.drop_last());
                assert(join(p, sep) == join(p.drop_last(), sep).push(sep) + p.last());
                assert(join(q, sep) =~= join(p, sep).push(s.last()));
            }
            assert(t.push(s.last()) =~= s);
        }
    }
}

/// No piece of a cut contains the separator.
pub proof fn lemma_split_pieces_free(s: Seq<char>, sep: char)
    ensures
        forall|k: int| 0 <= k < split_at_char(s, sep).len() ==> !(#[trigger] split_at_char(s, sep)[k]).contains(sep),
    decreases s.len(),
{
    if s.len() > 0 {
        let t = s.drop_last();
        lemma_split_pieces_free(t, sep);
        lemma_split_nonempty(t, sep);
        let p = split_at_char(t, sep);
        if s.last() != sep {
            let q = p.update(p.len() - 1, p.last().push(s.last()));
            assert forall|k: int| 0 <= k < q.len() implies !(#[trigger] q[k]).contains(sep) by {
                if k == p.len() - 1 {
                    assert(!p[k].contains(sep));
                    if q[k].contains(sep) {
                        let j = choose|j: int| 0 <= j < q[k].len() && q[k][j] == sep;
                        assert(p[k][j] == sep);
                    }
                } else {
                    assert(q[k] == p[k]);
                }
            }
        } else {
            let q = p.push(seq![]);
            assert forall|k: int| 0 <= k < q.len() implies !(#[trigger] q[k]).contains(sep) by {
                if k < p.len() {
                    assert(q[k] == p[k]);
                }
            }
        }
    }
}

/// The line holds `||` (a chart maker's comment).
pub open spec fn has_double_bar(line: Seq<char>) -> bool {
    exists|k: int| 0 <= k && k + 1 < line.len() && line[k] == '|' && #[trigger] line[k + 1] == '|'
}

/// The characters of `s` that are not whitespace.
pub open spec fn strip_whitespace(s: Seq<char>) -> Seq<char>
    decreases s.len(),
{
    if s.len() == 0 {
        seq![]
    } else if is_unicode_whitespace(s.last()) {
        strip_whitespace(s.drop_last())
    } else {
        strip_whitespace(s.drop_last()).push(s.last())
    }
}

/// What a line adds to the cleaned chart: nothing for a comment line, else
/// its characters without whitespace.
pub open spec fn kept_line(line: Seq<char>) -> Seq<char> {
    if has_double_bar(line) {
        seq![]
    } else {
        strip_whitespace(line)
    }
}

/// The kept parts of the lines, one after another.
pub open spec fn clean_lines(lines: Seq<Seq<char>>) -> Seq<char>
    decreases lines.len(),
{
    if lines.len() == 0 {
        seq![]
    } else {
        clean_lines(lines.drop_last()) + kept_line(lines.last())
    }
}

/// A chart body without comment lines and whitespace.
pub open spec fn spec_clean(text: Seq<char>) -> Seq<char> {
    clean_lines(split_at_char(text, '\n'))
}

/// The cleaned chart has no whitespace.
pub proof fn lemma_clean_has_no_whitespace(text: Seq<char>)
    ensures
        forall|k: int| 0 <= k < spec_clean(text).len() ==> !is_unicode_whitespace(#[trigger] spec_clean(text)[k]),
{
    lemma_clean_lines_no_whitespace(split_at_char(text, '\n'));
}

proof fn lemma_strip_no_whitespace(s: Seq<char>)
    ensures
        forall|k: int| 0 <= k < strip_whitespace(s).len() ==> !is_unicode_whitespace(#[trigger] strip_whitespace(s)[k]),
    decreases s.len(),
{
    if s.len() > 0 {
        lemma_strip_no_whitespace(s.drop_last());
        let a = strip_whitespace(s.drop_last());
        if !is_unicode_whitespace(s.last()) {
            assert forall|k: int| 0 <= k < strip_whitespace(s).len() implies !is_unicode_whitespace(
                #[trigger] strip_whitespace(s)[k],
            ) by {
                if k < a.len() {
                    assert(strip_whitespace(s)[k] == a[k]);
                }
            }
        }
    }
}

proof fn lemma_clean_lines_no_whitespace(lines: Seq<Seq<char>>)
    ensures
        forall|k: int| 0 <= k < clean_lines(lines).len() ==> !is_unicode_whitespace(#[trigger] clean_lines(lines)[k]),
    decreases lines.len(),
{
    if lines.len() > 0 {
        lemma_clean_lines_no_whitespace(lines.drop_last());
        lemma_strip_no_whitespace(lines.last());
        let a = clean_lines(lines.drop_last());
        let b = kept_line(lines.last());
        assert forall|k: int| 0 <= k < clean_lines(lines).len() implies !is_unicode_whitespace(
            #[trigger] clean_lines(lines)[k],
        ) by {
            if k < a.len() {
                assert(clean_lines(lines)[k] == a[k]);
            } else {
                assert(clean_lines(lines)[k] == b[k - a.len()]);
            }
        }
    }
}

pub(crate) fn line_has_double_bar(line: &Vec<char>) -> (r: bool)
    ensures
        r == has_double_bar(line@),
{
    let mut k: usize = 0;
    while k < line.len() && k + 1 < line.len()
        invariant
            k <= line@.len(),
            forall|j: int| 0 <= j < k && j + 1 < line@.len() ==> !(line@[j] == '|' && #[trigger] line@[j + 1] == '|'),
        decreases line@.len() - k,
    {
        if line[k] == '|' && line[k + 1] == '|' {
            return true;
        }
        k = k + 1;
    }
    false
}

fn append_kept(out: &mut String, line: &Vec<char>)
    ensures
        final(out)@ == old(out)@ + kept_line(line@),
{
    if line_has_double_bar(line) {
        assert(old(out)@ + seq![] =~= old(out)@);
        return ;
    }
    let ghost base = out@;
    let mut k: usize = 0;
    while k < line.len()
        invariant
            k <= line@.len(),
            out@ == base + strip_whitespace(line@.take(k as int)),
        decreases line@.len() - k,
    {
        let c = line[k];
        proof {
            assert(line@.take(k + 1).drop_last() =~= line@.take(k as int));
        }
        if !is_whitespace(c) {
            out.push(c);
            assert(base + strip_whitespace(line@.take(k as int)).push(c) =~= base + strip_whitespace(
                line@.take(k as int),
            ).push(c));
        }
        k = k + 1;
    }
    assert(line@.take(k as int) =~= line@);
}

/// Removes every line that holds `||` and every whitespace character.
pub fn clean_chart_text(text: &str) -> (r: String)
    ensures
        r@ == spec_clean(text@),
{
    let chars = chars_of(text);
    let mut out = String::new();
    let mut line: Vec<char> = Vec::new();
    let mut k: usize = 0;
    proof {
        lemma_split_nonempty(chars@.take(0), '\n');
        assert(chars@.take(0) =~= seq![]);
        assert(split_at_char(seq![], '\n').drop_last() =~= seq![]);
    }
    while k < chars.len()
        invariant
            k <= chars@.len(),
            chars@ == text@,
            split_at_char(chars@.take(k as int), '\n').len() >= 1,
            out@ == clean_lines(split_at_char(chars@.take(k as int), '\n').drop_last()),
            line@ == split_at_char(chars@.take(k as int), '\n').last(),
        decreases chars@.len() - k,
    {
        let c = chars[k];
        let ghost p = split_at_char(chars@.take(k as int), '\n');
        proof {
            assert(chars@.take(k + 1).drop_last() =~= chars@.take(k as int));
            assert(chars@.take(k + 1).last() == c);
        }
        if c == '\n' {
            append_kept(&mut out, &line);
            line = Vec::new();
            proof {
                let q = p.push(seq![]);
                assert(q.drop_last() =~= p);
                assert(p =~= p.drop_last().push(p.last()));
                assert(clean_lines(p) == clean_lines(p.drop_last()) + kept_line(p.last()));
                assert(line@ =~= q.last());
            }
        } else {
            line.push(c);
            proof {
                let q = p.update(p.len() - 1, p.last().push(c));
                assert(q.drop_last() =~= p.drop_last());
            }
        }
        k = k + 1;
    }
    proof {
        let p = split_at_char(chars@.take(k as int), '\n');
        assert(chars@.take(k as int) =~= text@);
        assert(p =~= p.drop_last().push(p.last()));
    }
    append_kept(&mut out, &line);
    out
}

/// The views of a sequence of strings.
pub open spec fn strings_view(v: Seq<String>) -> Seq<Seq<char>> {
    v.map_values(|s: String| s@)
}

/// Cuts `text` at every `,`.
pub fn split_fragments(text: &str) -> (r: Vec<String>)
    ensures
        strings_view(r@) == split_at_char(text@, ','),
{
    let chars = chars_of(text);
    let mut parts: Vec<String> = Vec::new();
    let mut cur = String::new();
    let mut k: usize = 0;
    proof {
        assert(chars@.take(0) =~= seq![]);
        assert(strings_view(parts@).push(cur@) =~= split_at_char(seq![], ','));
    }
    while k < chars.len()
        invariant
            k <= chars@.len(),
            chars@ == text@,
            strings_view(parts@).push(cur@) == split_at_char(chars@.take(k as int), ','),
        decreases chars@.len() - k,
    {
        let c = chars[k];
        let ghost p = split_at_char(chars@.take(k as int), ',');
        let ghost old_parts = parts@;
        proof {
            assert(chars@.take(k + 1).drop_last() =~= chars@.take(k as int));
            assert(chars@.take(k + 1).last() == c);
        }
        if c == ',' {
            let done = cur;
            cur = String::new();
            parts.push(done);
            proof {
                assert(strings_view(parts@) =~= strings_view(old_parts).push(done@));
                assert(strings_view(parts@).push(cur@) =~= p.push(seq![]));
            }
        } else {
            let ghost old_cur = cur@;
            cur.push(c);
            proof {
                assert(strings_view(parts@).push(cur@) =~= p.update(p.len() - 1, p.last().push(c)));
            }
        }
        k = k + 1;
    }
    let ghost old_parts = parts@;
    let last = cur;
    parts.push(last);
    proof {
        assert(chars@.take(k as int) =~= text@);
        assert(strings_view(parts@) =~= strings_view(old_parts).push(last@));
    }
    parts
}

/// The fragments of a chart body: the cleaned text cut at every `,`.
pub open spec fn spec_chart_fragments(text: Seq<char>) -> Seq<Seq<char>> {
    split_at_char(spec_clean(text), ',')
}

/// The fragments of a chart body, in order: comment lines and whitespace
/// removed, the rest cut at every `,`.
pub fn chart_fragments(text: &str) -> (r: Vec<String>)
    ensures
        strings_view(r@) == spec_chart_fragments(text@),
{
    let cleaned = clean_chart_text(text);
    split_fragments(cleaned.as_str())
}

/// Every character of a piece of a cut is a character of the text.
proof fn lemma_split_pieces_from(s: Seq<char>, sep: char)
    ensures
        forall|k: int, j: int|
            0 <= k < split_at_char(s, sep).len() && 0 <= j < split_at_char(s, sep)[k].len()
                ==> s.contains(#[trigger] split_at_char(s, sep)[k][j]),
    decreases s.len(),
{
    if s.len() > 0 {
        let t = s.drop_last();
        lemma_split_pieces_from(t, sep);
        lemma_split_nonempty(t, sep);
        let p = split_at_char(t, sep);
        let q = split_at_char(s, sep);
        assert forall|k: int, j: int| 0 <= k < q.len() && 0 <= j < q[k].len() implies s.contains(
            #[trigger] q[k][j],
        ) by {
            if k < p.len() && j < p[k].len() {
                assert(q[k][j] == p[k][j]);
                assert(t.contains(p[k][j]));
                let i = choose|i: int| 0 <= i < t.len() && t[i] == p[k][j];
                assert(s[i] == t[i]);
            } else {
                assert(q[k][j] == s.last());
                assert(s[s.len() - 1] == s.last());
            }
        }
    }
}

/// Every fragment of a chart body is free of `,` and of whitespace.
pub proof fn lemma_fragments_are_plain(text: Seq<char>)
    ensures
        forall|k: int, j: int|
            0 <= k < spec_chart_fragments(text).len() && 0 <= j < spec_chart_fragments(text)[k].len()
                ==> #[trigger] spec_chart_fragments(text)[k][j] != ',' && !is_unicode_whitespace(
                spec_chart_fragments(text)[k][j],
            ),
{
    let c = spec_clean(text);
    let f = spec_chart_fragments(text);
    lemma_clean_has_no_whitespace(text);
    lemma_split_pieces_free(c, ',');
    lemma_split_pieces_from(c, ',');
    assert forall|k: int, j: int| 0 <= k < f.len() && 0 <= j < f[k].len() implies #[trigger] f[k][j]
        != ',' && !is_unicode_whitespace(f[k][j]) by {
        assert(!f[k].contains(','));
        assert(c.contains(f[k][j]));
        let i = choose|i: int| 0 <= i < c.len() && c[i] == f[k][j];
        assert(!is_unicode_whitespace(c[i]));
    }
}

/// A text without the separator is one piece.
proof fn lemma_split_without_sep(s: Seq<char>, sep: char)
    requires
        !s.contains(sep),
    ensures
        split_at_char(s, sep) == seq![s],
    decreases s.len(),
{
    if s.len() > 0 {
        let t = s.drop_last();
        assert(!t.contains(sep)) by {
            if t.contains(sep) {
                let k = choose|k: int| 0 <= k < t.len() && t[k] == sep;
                assert(s[k] == sep);
            }
        }
        lemma_split_without_sep(t, sep);
        assert(s[s.len() - 1] == s.last());
        assert(s.last() != sep);
        assert(t.push(s.last()) =~= s);
        assert(seq![t].update(0, t.push(s.last())) =~= seq![s]);
    } else {
        assert(s =~= seq![]);
    }
}

/// Stripping a text without whitespace leaves it as it is.
proof fn lemma_strip_plain(s: Seq<char>)
    requires
        forall|k: int| 0 <= k < s.len() ==> !is_unicode_whitespace(#[trigger] s[k]),
    ensures
        strip_whitespace(s) == s,
    decreases s.len(),
{
    if s.len() > 0 {
        lemma_strip_plain(s.drop_last());
        assert(s.drop_last().push(s.last()) =~= s);
        assert(s[s.len() - 1] == s.last());
    }
}

/// Cleaning a cleaned chart body that holds no `||` changes nothing, so the
/// body and its cleaned text have the same fragments: whitespace, line breaks
/// and comment lines have no effect on what is read.
pub proof fn lemma_clean_again(text: Seq<char>)
    requires
        !has_double_bar(spec_clean(text)),
    ensures
        spec_clean(spec_clean(text)) == spec_clean(text),
        spec_chart_fragments(spec_clean(text)) == spec_chart_fragments(text),
{
    let c = spec_clean(text);
    lemma_clean_has_no_whitespace(text);
    assert(!c.contains('\n')) by {
        if c.contains('\n') {
            let k = choose|k: int| 0 <= k < c.len() && c[k] == '\n';
            assert(is_unicode_whitespace(c[k]));
        }
    }
    lemma_split_without_sep(c, '\n');
    lemma_strip_plain(c);
    let lines = seq![c];
    assert(lines.drop_last() =~= seq![]);
    assert(clean_lines(lines) == clean_lines(lines.drop_last()) + kept_line(c));
    assert(clean_lines(lines) =~= c);
}

/// Cutting at `sep` distributes over a text that holds `sep` between two parts.
proof fn lemma_split_concat(a: Seq<char>, c: Seq<char>, sep: char)
    ensures
        split_at_char(a + seq![sep] + c, sep) == split_at_char(a, sep) + split_at_char(c, sep),
    decreases c.len(),
{
    let s = a + seq![sep] + c;
    lemma_split_nonempty(a, sep);
    if c.len() == 0 {
        assert(s =~= a.push(sep));
        assert(s.drop_last() =~= a);
        assert(split_at_char(c, sep) =~= seq![seq![]]);
        assert(split_at_char(a, sep).push(seq![]) =~= split_at_char(a, sep) + seq![seq![]]);
    } else {
        let c0 = c.drop_last();
        lemma_split_concat(a, c0, sep);
        lemma_split_nonempty(c0, sep);
        assert(s.drop_last() =~= a + seq![sep] + c0);
        assert(s.last() == c.last());
        let pa = split_at_char(a, sep);
        let pc = split_at_char(c0, sep);
        if c.last() == sep {
            assert((pa + pc).push(seq![]) =~= pa + pc.push(seq![]));
        } else {
            let q = pa + pc;
            assert(q.last() == pc.last());
            assert(q.update(q.len() - 1, q.last().push(c.last())) =~= pa + pc.update(
                pc.len() - 1,
                pc.last().push(c.last()),
            ));
        }
    }
}

/// Cleaning the lines of two groups one after the other.
proof fn lemma_clean_lines_concat(x: Seq<Seq<char>>, y: Seq<Seq<char>>)
    ensures
        clean_lines(x + y) == clean_lines(x) + clean_lines(y),
    decreases y.len(),
{
    if y.len() == 0 {
        assert(x + y =~= x);
        assert(clean_lines(x) + seq![] =~= clean_lines(x));
    } else {
        lemma_clean_lines_concat(x, y.drop_last());
        assert((x + y).drop_last() =~= x + y.drop_last());
        assert((x + y).last() == y.last());
        assert(clean_lines(x) + clean_lines(y.drop_last()) + kept_line(y.last()) =~= clean_lines(x) + (
        clean_lines(y.drop_last()) + kept_line(y.last())));
    }
}

/// Cleaning a chart body line by line: the body cut at a line break is
/// cleaned as its two parts, one after the other.
pub proof fn lemma_clean_splits_at_line_break(a: Seq<char>, c: Seq<char>)
    ensures
        spec_clean(a + seq!['\n'] + c) == spec_clean(a) + spec_clean(c),
{
    lemma_split_concat(a, c, '\n');
    lemma_clean_lines_concat(split_at_char(a, '\n'), split_at_char(c, '\n'));
}

/// A line that holds `||` anywhere (at `k`) is a comment: the chart body
/// reads as if the line were not there.
pub proof fn lemma_comment_line_dropped(a: Seq<char>, line: Seq<char>, c: Seq<char>, k: int)
    requires
        0 <= k && k + 1 < line.len(),
        line[k] == '|' && line[k + 1] == '|',
        !line.contains('\n'),
    ensures
        kept_line(line) == Seq::<char>::empty(),
        spec_clean(a + seq!['\n'] + line + seq!['\n'] + c) == spec_clean(a) + spec_clean(c),
        spec_clean(a + seq!['\n'] + line) == spec_clean(a),
{
    assert(has_double_bar(line));
    lemma_split_without_sep(line, '\n');
    assert(seq![line].drop_last() =~= seq![]);
    assert(clean_lines(seq![line]) == clean_lines(seq![line].drop_last()) + kept_line(line));
    assert(clean_lines(seq![line]) =~= seq![]);
    assert(spec_clean(line) =~= seq![]);
    let t = line + seq!['\n'] + c;
    lemma_clean_splits_at_line_break(line, c);
    lemma_clean_splits_at_line_break(a, t);
    assert(a + seq!['\n'] + line + seq!['\n'] + c =~= a + seq!['\n'] + t);
    assert(spec_clean(t) =~= spec_clean(c));
    lemma_clean_splits_at_line_break(a, line);
    assert(spec_clean(a) + spec_clean(line) =~= spec_clean(a));
}

/// A fragment that only advances time: empty, or the end marker `E`.
pub open spec fn spec_is_rest_fragment(frag: Seq<char>) -> bool {
    frag.len() == 0 || frag == seq!['E']
}

/// Whether the fragment only advances time (it is empty, or the end marker `E`).
pub fn is_rest_fragment(frag: &str) -> (r: bool)
    ensures
        r == spec_is_rest_fragment(frag@),
{
    let chars = chars_of(frag);
    if chars.len() == 0 {
        return true;
    }
    if chars.len() == 1 && chars[0] == 'E' {
        assert(chars@ =~= seq!['E']);
        return true;
    }
    false
}

} // verus!
