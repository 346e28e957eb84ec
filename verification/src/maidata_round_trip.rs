//! Reading back a written maidata text: the blocks of a text made of
//! `&key=value` lines, and what they set.

use vstd::prelude::*;
use vstd::string::*;
use crate::maidata::{
    BlockKey, FileView, apply_block, blocks_from, chart_lines, empty_file, fold_blocks, is_blank,
    is_boundary, key_end, level_lines, skip_blank, spec_blocks, spec_classify_key,
    spec_file_syntax, spec_render_file, starts_with, trim_end, value_end,
};
use crate::text::{decimal, is_digit_char, lemma_decimal_reads_back};

verus! {

/// The line `&key=value` with its newline.
pub open spec fn key_line(key: Seq<char>, value: Seq<char>) -> Seq<char> {
    "&"@ + key + "="@ + value + "\n"@
}

/// The lines of `entries`, in order.
pub open spec fn lines_text(entries: Seq<(Seq<char>, Seq<char>)>) -> Seq<char>
    decreases entries.len(),
{
    if entries.len() == 0 {
        seq![]
    } else {
        key_line(entries[0].0, entries[0].1) + lines_text(entries.drop_first())
    }
}

/// A key that runs up to its `=`: it holds no `=` and no line break.
pub open spec fn plain_key(key: Seq<char>) -> bool {
    forall|j: int|
        0 <= j < key.len() ==> #[trigger] key[j] != '=' && key[j] != '\n' && key[j] != '\r'
}

/// No line of `v` after a newline begins, past blanks, with `&`.
pub open spec fn no_key_line(v: Seq<char>) -> bool {
    forall|k: int|
        0 <= k < v.len() && #[trigger] v[k] == '\n' && skip_blank(v, k + 1) < v.len() ==> v[skip_blank(
            v,
            k + 1,
        )] != '&'
}

/// Each entry with its value's trailing blanks removed.
pub open spec fn trimmed_entries(entries: Seq<(Seq<char>, Seq<char>)>) -> Seq<(Seq<char>, Seq<char>)> {
    entries.map_values(|e: (Seq<char>, Seq<char>)| (e.0, trim_end(e.1)))
}

/// Each numbered text without its trailing blanks.
pub open spec fn trimmed_numbered(v: Seq<(u32, Seq<char>)>) -> Seq<(u32, Seq<char>)> {
    v.map_values(|p: (u32, Seq<char>)| (p.0, trim_end(p.1)))
}

/// `v[i..]` holds only blanks.
spec fn tail_blank(v: Seq<char>, i: int) -> bool {
    forall|j: int| i <= j < v.len() ==> is_blank(#[trigger] v[j])
}

/// `v` stands in `t` from `s`, followed by a newline and then by the end of
/// `t` or an `&`.
spec fn value_at(t: Seq<char>, s: int, v: Seq<char>) -> bool {
    &&& 0 <= s
    &&& s + v.len() < t.len()
    &&& t.subrange(s, s + v.len()) == v
    &&& t[s + v.len()] == '\n'
    &&& s + v.len() + 1 < t.len() ==> t[s + v.len() + 1] == '&'
}

proof fn lemma_skip_blank_local(v: Seq<char>, i: int)
    requires
        0 <= i <= v.len(),
    ensures
        i <= skip_blank(v, i) <= v.len(),
        skip_blank(v, i) < v.len() ==> !is_blank(v[skip_blank(v, i)]),
        skip_blank(v, i) == v.len() ==> tail_blank(v, i),
    decreases v.len() - i,
{
    if i < v.len() && is_blank(v[i]) {
        lemma_skip_blank_local(v, i + 1);
    }
}

proof fn lemma_skip_blank_in_line(t: Seq<char>, s: int, v: Seq<char>, x: int)
    requires
        value_at(t, s, v),
        s <= x <= s + v.len() + 1,
    ensures
        skip_blank(t, x) == (if skip_blank(v, x - s) < v.len() {
            s + skip_blank(v, x - s)
        } else {
            s + v.len() + 1
        }),
    decreases s + v.len() + 1 - x,
{
    let e = s + v.len();
    if x == e + 1 {
    } else if x == e {
        lemma_skip_blank_in_line(t, s, v, x + 1);
    } else {
        assert(t.subrange(s, e)[x - s] == t[x]);
        if is_blank(v[x - s]) {
            lemma_skip_blank_in_line(t, s, v, x + 1);
        }
    }
}

#[verifier::spinoff_prover]
proof fn lemma_value_end_in_line(t: Seq<char>, s: int, v: Seq<char>, k: int)
    requires
        value_at(t, s, v),
        no_key_line(v),
        s <= k <= s + v.len(),
    ensures
        s + v.len() + 1 < t.len() ==> k <= value_end(t, k) <= s + v.len() && tail_blank(
            v,
            value_end(t, k) - s,
        ),
        s + v.len() + 1 == t.len() ==> value_end(t, k) == t.len(),
    decreases s + v.len() - k,
{
    let e = s + v.len();
    lemma_skip_blank_in_line(t, s, v, k + 1);
    if k == e {
        if e + 1 == t.len() {
            assert(!is_boundary(t, k));
            assert(value_end(t, k + 1) == t.len());
        } else {
            assert(is_boundary(t, k));
        }
    } else {
        assert(t.subrange(s, e)[k - s] == t[k]);
        lemma_skip_blank_local(v, k - s + 1);
        let sv = skip_blank(v, k - s + 1);
        if sv < v.len() {
            assert(t.subrange(s, e)[sv] == t[s + sv]);
            if v[k - s] == '\n' {
                assert(v[sv] != '&');
            }
            assert(!is_boundary(t, k));
            lemma_value_end_in_line(t, s, v, k + 1);
        } else if is_boundary(t, k) {
            assert(tail_blank(v, k - s)) by {
                assert forall|j: int| k - s <= j < v.len() implies is_blank(#[trigger] v[j]) by {
                    if j > k - s {
                        assert(tail_blank(v, k - s + 1));
                    }
                }
            }
        } else {
            lemma_value_end_in_line(t, s, v, k + 1);
        }
    }
}

proof fn lemma_trim_blank_tail(x: Seq<char>, y: Seq<char>)
    requires
        forall|j: int| 0 <= j < y.len() ==> is_blank(#[trigger] y[j]),
    ensures
        trim_end(x + y) == trim_end(x),
    decreases y.len(),
{
    if y.len() > 0 {
        assert((x + y).drop_last() =~= x + y.drop_last());
        assert((x + y).last() == y.last());
        assert(is_blank(y[y.len() - 1]));
        lemma_trim_blank_tail(x, y.drop_last());
    } else {
        assert(x + y =~= x);
    }
}

proof fn lemma_blocks_skip(t: Seq<char>, p: int, p2: int)
    requires
        0 <= p <= p2 <= t.len(),
        forall|x: int| p <= x < p2 ==> #[trigger] t[x] != '&',
    ensures
        blocks_from(t, p) == blocks_from(t, p2),
    decreases p2 - p,
{
    if p < p2 {
        lemma_blocks_skip(t, p + 1, p2);
    }
}

proof fn lemma_key_end_at(t: Seq<char>, a: int, q: int)
    requires
        0 <= a <= q < t.len(),
        t[q] == '=',
        forall|x: int| a <= x < q ==> #[trigger] t[x] != '=' && t[x] != '\n' && t[x] != '\r',
    ensures
        key_end(t, a) == q,
    decreases q - a,
{
    if a < q {
        lemma_key_end_at(t, a + 1, q);
    }
}

proof fn lemma_key_line_len(key: Seq<char>, v: Seq<char>)
    ensures
        key_line(key, v).len() == key.len() + v.len() + 3,
{
    reveal_strlit("&");
    reveal_strlit("=");
    reveal_strlit("\n");
}

proof fn lemma_key_line_chars(key: Seq<char>, v: Seq<char>)
    ensures
        key_line(key, v).len() == key.len() + v.len() + 3,
        key_line(key, v)[0] == '&',
        forall|j: int| 0 <= j < key.len() ==> key_line(key, v)[1 + j] == #[trigger] key[j],
        key_line(key, v)[key.len() as int + 1] == '=',
        forall|j: int| 0 <= j < v.len() ==> key_line(key, v)[key.len() + 2 + j] == #[trigger] v[j],
        key_line(key, v)[key.len() + v.len() + 2int] == '\n',
{
    reveal_strlit("&");
    reveal_strlit("=");
    reveal_strlit("\n");
}

/// Where the parts of a line `&key=value` stand when it is written at `p`.
#[verifier::spinoff_prover]
proof fn lemma_line_layout(t: Seq<char>, p: int, key: Seq<char>, v: Seq<char>)
    requires
        0 <= p,
        p + key.len() + v.len() + 3 <= t.len(),
        t.subrange(p, p + key.len() + v.len() + 3) == key_line(key, v),
        p + key.len() + v.len() + 3 < t.len() ==> t[p + key.len() + v.len() + 3] == '&',
        plain_key(key),
    ensures
        t[p] == '&',
        key_end(t, p + 1) == p + 1 + key.len(),
        t[p + 1 + key.len()] == '=',
        t.subrange(p + 1, p + 1 + key.len()) == key,
        value_at(t, p + key.len() + 2, v),
{
    lemma_key_line_chars(key, v);
    let line = key_line(key, v);
    let n = p + line.len();
    let q = p + 1 + key.len();
    let s = q + 1;
    let e = s + v.len();
    assert(t[p] == line[0]) by {
        assert(t.subrange(p, n)[0] == t[p]);
    }
    assert forall|x: int| p + 1 <= x < q implies #[trigger] t[x] != '=' && t[x] != '\n' && t[x]
        != '\r' by {
        assert(t.subrange(p, n)[x - p] == t[x]);
        assert(line[1 + (x - p - 1)] == key[x - p - 1]);
    }
    assert(t[q] == line[q - p]) by {
        assert(t.subrange(p, n)[q - p] == t[q]);
    }
    lemma_key_end_at(t, p + 1, q);
    assert(t.subrange(p + 1, q) =~= key) by {
        assert forall|j: int| 0 <= j < key.len() implies t.subrange(p + 1, q)[j] == key[j] by {
            assert(t.subrange(p, n)[1 + j] == t[p + 1 + j]);
            assert(line[1 + j] == key[j]);
        }
    }
    assert(t.subrange(s, e) =~= v) by {
        assert forall|j: int| 0 <= j < v.len() implies t.subrange(s, e)[j] == v[j] by {
            assert(t.subrange(p, n)[key.len() + 2 + j] == t[s + j]);
            assert(line[key.len() + 2 + j] == v[j]);
        }
    }
    assert(t[e] == line[e - p]) by {
        assert(t.subrange(p, n)[e - p] == t[e]);
    }
}

/// The value written at `s`: where it ends, its text, and that nothing but
/// blanks stand between its end and the next line.
#[verifier::spinoff_prover]
proof fn lemma_line_value(t: Seq<char>, s: int, v: Seq<char>)
    requires
        value_at(t, s, v),
        no_key_line(v),
    ensures
        s <= value_end(t, s) <= s + v.len() + 1,
        trim_end(t.subrange(s, value_end(t, s))) == trim_end(v),
        blocks_from(t, value_end(t, s)) == blocks_from(t, s + v.len() + 1),
{
    let e = s + v.len();
    lemma_value_end_in_line(t, s, v, s);
    let w = value_end(t, s);
    if e + 1 < t.len() {
        let head = v.subrange(0, w - s);
        let tail = v.subrange(w - s, v.len() as int);
        assert(t.subrange(s, w) =~= head) by {
            assert forall|j: int| 0 <= j < w - s implies t.subrange(s, w)[j] == head[j] by {
                assert(t.subrange(s, e)[j] == t[s + j]);
            }
        }
        assert(v =~= head + tail);
        assert forall|j: int| 0 <= j < tail.len() implies is_blank(#[trigger] tail[j]) by {
            assert(tail[j] == v[w - s + j]);
        }
        lemma_trim_blank_tail(head, tail);
        assert forall|x: int| w <= x < e + 1 implies #[trigger] t[x] != '&' by {
            if x < e {
                assert(t.subrange(s, e)[x - s] == t[x]);
                assert(is_blank(v[x - s]));
            }
        }
        lemma_blocks_skip(t, w, e + 1);
    } else {
        reveal_strlit("\n");
        assert(t.subrange(s, w) =~= v + "\n"@) by {
            assert forall|j: int| 0 <= j < v.len() + 1 implies t.subrange(s, w)[j] == (v
                + "\n"@)[j] by {
                if j < v.len() {
                    assert(t.subrange(s, e)[j] == t[s + j]);
                }
            }
        }
        lemma_trim_blank_tail(v, "\n"@);
    }
}

proof fn lemma_line_block(t: Seq<char>, p: int, key: Seq<char>, v: Seq<char>)
    requires
        0 <= p,
        p + key.len() + v.len() + 3 <= t.len(),
        t.subrange(p, p + key.len() + v.len() + 3) == key_line(key, v),
        p + key.len() + v.len() + 3 < t.len() ==> t[p + key.len() + v.len() + 3] == '&',
        plain_key(key),
        no_key_line(v),
    ensures
        blocks_from(t, p) == seq![(key, trim_end(v))] + blocks_from(
            t,
            p + key.len() + v.len() + 3,
        ),
{
    lemma_line_layout(t, p, key, v);
    lemma_line_value(t, p + key.len() + 2, v);
}

proof fn lemma_lines_start(entries: Seq<(Seq<char>, Seq<char>)>)
    ensures
        lines_text(entries).len() > 0 <==> entries.len() > 0,
        entries.len() > 0 ==> lines_text(entries)[0] == '&',
{
    if entries.len() > 0 {
        reveal_strlit("&");
        assert(key_line(entries[0].0, entries[0].1)[0] == '&');
    }
}

proof fn lemma_split_suffix(t: Seq<char>, a: int, x: Seq<char>, y: Seq<char>)
    requires
        0 <= a <= t.len(),
        t.subrange(a, t.len() as int) == x + y,
    ensures
        a + x.len() + y.len() == t.len(),
        t.subrange(a, a + x.len()) == x,
        t.subrange(a + x.len(), t.len() as int) == y,
        y.len() > 0 ==> t[a + x.len()] == y[0],
{
    let n = a + x.len();
    assert(t.subrange(a, t.len() as int).len() == t.len() - a);
    assert(n <= t.len());
    assert(t.subrange(a, n) =~= x) by {
        assert forall|j: int| 0 <= j < x.len() implies t.subrange(a, n)[j] == x[j] by {
            assert(t.subrange(a, t.len() as int)[j] == t[a + j]);
            assert((x + y)[j] == x[j]);
        }
    }
    assert(t.subrange(n, t.len() as int) =~= y) by {
        assert forall|j: int| 0 <= j < y.len() implies t.subrange(n, t.len() as int)[j] == y[j] by {
            assert(t.subrange(a, t.len() as int)[x.len() + j] == t[n + j]);
            assert((x + y)[x.len() + j] == y[j]);
        }
    }
    if y.len() > 0 {
        assert(t.subrange(n, t.len() as int)[0] == t[n]);
    }
}

/// The blocks of a text that ends with the lines of `entries` from `a` on.
#[verifier::spinoff_prover]
proof fn lemma_lines_blocks(t: Seq<char>, a: int, entries: Seq<(Seq<char>, Seq<char>)>)
    requires
        0 <= a <= t.len(),
        t.subrange(a, t.len() as int) == lines_text(entries),
        forall|k: int|
            0 <= k < entries.len() ==> plain_key(#[trigger] entries[k].0) && no_key_line(
                entries[k].1,
            ),
    ensures
        blocks_from(t, a) == trimmed_entries(entries),
    decreases entries.len(),
{
    if entries.len() == 0 {
        assert(t.subrange(a, t.len() as int).len() == 0);
        assert(trimmed_entries(entries) =~= seq![]);
    } else {
        let key = entries[0].0;
        let v = entries[0].1;
        let rest = entries.drop_first();
        lemma_key_line_len(key, v);
        let line = key_line(key, v);
        let n = a + line.len();
        assert(lines_text(entries) == line + lines_text(rest));
        lemma_split_suffix(t, a, line, lines_text(rest));
        lemma_lines_start(rest);
        assert(plain_key(entries[0].0) && no_key_line(entries[0].1));
        lemma_line_block(t, a, key, v);
        assert forall|k: int| 0 <= k < rest.len() implies plain_key(#[trigger] rest[k].0)
            && no_key_line(rest[k].1) by {
            assert(rest[k] == entries[k + 1]);
        }
        lemma_lines_blocks(t, n, rest);
        assert(n == a + key.len() + v.len() + 3);
        assert(blocks_from(t, a) == seq![(key, trim_end(v))] + trimmed_entries(rest));
        assert(trimmed_entries(entries) =~= seq![(key, trim_end(v))] + trimmed_entries(rest));
    }
}

/// Entries whose keys run up to their `=` and whose values hold no key line.
spec fn readable_entries(entries: Seq<(Seq<char>, Seq<char>)>) -> bool {
    forall|k: int|
        0 <= k < entries.len() ==> plain_key(#[trigger] entries[k].0) && no_key_line(entries[k].1)
}

proof fn lemma_readable_concat(x: Seq<(Seq<char>, Seq<char>)>, y: Seq<(Seq<char>, Seq<char>)>)
    requires
        readable_entries(x),
        readable_entries(y),
    ensures
        readable_entries(x + y),
{
    let z = x + y;
    assert forall|k: int| 0 <= k < z.len() implies plain_key(#[trigger] z[k].0) && no_key_line(
        z[k].1,
    ) by {
        if k < x.len() {
            assert(z[k] == x[k]);
            assert(plain_key(x[k].0) && no_key_line(x[k].1));
        } else {
            assert(z[k] == y[k - x.len()]);
            assert(plain_key(y[k - x.len()].0) && no_key_line(y[k - x.len()].1));
        }
    }
    assert(readable_entries(z));
}

/// The entries that the `lv_N` lines are written from.
pub open spec fn level_entries(levels: Seq<(u32, Seq<char>)>) -> Seq<(Seq<char>, Seq<char>)> {
    levels.map_values(|p: (u32, Seq<char>)| ("lv_"@ + decimal(p.0 as nat), p.1))
}

/// The entries that the `inote_N` lines are written from.
pub open spec fn chart_entries(charts: Seq<(u32, Seq<char>)>) -> Seq<(Seq<char>, Seq<char>)> {
    charts.map_values(|p: (u32, Seq<char>)| ("inote_"@ + decimal(p.0 as nat), p.1))
}

/// The entries of a written maidata text, in the order of its lines.
pub open spec fn file_entries(
    title: Seq<char>,
    artist: Seq<char>,
    first: Seq<char>,
    wholebpm: Option<Seq<char>>,
    levels: Seq<(u32, Seq<char>)>,
    charts: Seq<(u32, Seq<char>)>,
) -> Seq<(Seq<char>, Seq<char>)> {
    seq![("title"@, title), ("artist"@, artist), ("first"@, first)] + match wholebpm {
        Some(w) => seq![("wholebpm"@, w)],
        None => seq![],
    } + level_entries(levels) + chart_entries(charts)
}

proof fn lemma_lines_concat(x: Seq<(Seq<char>, Seq<char>)>, y: Seq<(Seq<char>, Seq<char>)>)
    ensures
        lines_text(x + y) == lines_text(x) + lines_text(y),
    decreases x.len(),
{
    if x.len() == 0 {
        assert(x + y =~= y);
        assert(lines_text(x) + lines_text(y) =~= lines_text(y));
    } else {
        assert((x + y).drop_first() =~= x.drop_first() + y);
        assert((x + y)[0] == x[0]);
        lemma_lines_concat(x.drop_first(), y);
        assert(lines_text(x + y) =~= lines_text(x) + lines_text(y));
    }
}

proof fn lemma_lines_single(e: (Seq<char>, Seq<char>))
    ensures
        lines_text(seq![e]) == key_line(e.0, e.1),
{
    let one = seq![e];
    assert(one.drop_first() =~= seq![]);
    assert(lines_text(one.drop_first()) == Seq::<char>::empty());
    assert(one[0] == e);
    assert(lines_text(one) == key_line(e.0, e.1) + lines_text(one.drop_first()));
    assert(key_line(e.0, e.1) + Seq::<char>::empty() =~= key_line(e.0, e.1));
}

proof fn lemma_numbered_keys(prefix: Seq<char>, n: u32)
    requires
        plain_key(prefix),
    ensures
        plain_key(prefix + decimal(n as nat)),
{
    lemma_decimal_reads_back(n as nat);
    let k = prefix + decimal(n as nat);
    assert forall|j: int| 0 <= j < k.len() implies #[trigger] k[j] != '=' && k[j] != '\n' && k[j]
        != '\r' by {
        if j >= prefix.len() {
            assert(k[j] == decimal(n as nat)[j - prefix.len()]);
            assert(is_digit_char(decimal(n as nat)[j - prefix.len()]));
        } else {
            assert(k[j] == prefix[j]);
        }
    }
}

#[verifier::spinoff_prover]
proof fn lemma_level_lines(levels: Seq<(u32, Seq<char>)>)
    ensures
        level_lines(levels) == lines_text(level_entries(levels)),
        (forall|k: int| 0 <= k < levels.len() ==> no_key_line(#[trigger] levels[k].1))
            ==> readable_entries(level_entries(levels)),
    decreases levels.len(),
{
    reveal_strlit("&lv_");
    reveal_strlit("&");
    reveal_strlit("lv_");
    reveal_strlit("=");
    reveal_strlit("\n");
    if levels.len() == 0 {
        assert(level_entries(levels) =~= seq![]);
    } else {
        let init = levels.drop_last();
        let last = levels.last();
        let e = ("lv_"@ + decimal(last.0 as nat), last.1);
        lemma_level_lines(init);
        assert(level_entries(levels) =~= level_entries(init) + seq![e]);
        lemma_lines_concat(level_entries(init), seq![e]);
        lemma_lines_single(e);
        assert(level_lines(levels) =~= lines_text(level_entries(levels)));
        if forall|k: int| 0 <= k < levels.len() ==> no_key_line(#[trigger] levels[k].1) {
            assert forall|k: int| 0 <= k < init.len() implies no_key_line(#[trigger] init[k].1) by {
                assert(init[k] == levels[k]);
            }
            assert(no_key_line(levels[levels.len() - 1].1));
            lemma_numbered_keys("lv_"@, last.0);
            assert(readable_entries(seq![e]));
            lemma_readable_concat(level_entries(init), seq![e]);
        }
    }
}

#[verifier::spinoff_prover]
proof fn lemma_chart_lines(charts: Seq<(u32, Seq<char>)>)
    ensures
        chart_lines(charts) == lines_text(chart_entries(charts)),
        (forall|k: int| 0 <= k < charts.len() ==> no_key_line(#[trigger] charts[k].1))
            ==> readable_entries(chart_entries(charts)),
    decreases charts.len(),
{
    reveal_strlit("&inote_");
    reveal_strlit("&");
    reveal_strlit("inote_");
    reveal_strlit("=");
    reveal_strlit("\n");
    if charts.len() == 0 {
        assert(chart_entries(charts) =~= seq![]);
    } else {
        let init = charts.drop_last();
        let last = charts.last();
        let e = ("inote_"@ + decimal(last.0 as nat), last.1);
        lemma_chart_lines(init);
        assert(chart_entries(charts) =~= chart_entries(init) + seq![e]);
        lemma_lines_concat(chart_entries(init), seq![e]);
        lemma_lines_single(e);
        assert(chart_lines(charts) =~= lines_text(chart_entries(charts)));
        if forall|k: int| 0 <= k < charts.len() ==> no_key_line(#[trigger] charts[k].1) {
            assert forall|k: int| 0 <= k < init.len() implies no_key_line(#[trigger] init[k].1) by {
                assert(init[k] == charts[k]);
            }
            assert(no_key_line(charts[charts.len() - 1].1));
            lemma_numbered_keys("inote_"@, last.0);
            assert(readable_entries(seq![e]));
            lemma_readable_concat(chart_entries(init), seq![e]);
        }
    }
}

proof fn lemma_title_line(v: Seq<char>)
    ensures
        "&title="@ + v + "\n"@ == key_line("title"@, v),
{
    reveal_strlit("&title=");
    reveal_strlit("title");
    reveal_strlit("&");
    reveal_strlit("=");
    assert("&title="@ + v + "\n"@ =~= key_line("title"@, v));
}

proof fn lemma_artist_line(v: Seq<char>)
    ensures
        "&artist="@ + v + "\n"@ == key_line("artist"@, v),
{
    reveal_strlit("&artist=");
    reveal_strlit("artist");
    reveal_strlit("&");
    reveal_strlit("=");
    assert("&artist="@ + v + "\n"@ =~= key_line("artist"@, v));
}

proof fn lemma_first_line(v: Seq<char>)
    ensures
        "&first="@ + v + "\n"@ == key_line("first"@, v),
{
    reveal_strlit("&first=");
    reveal_strlit("first");
    reveal_strlit("&");
    reveal_strlit("=");
    assert("&first="@ + v + "\n"@ =~= key_line("first"@, v));
}

proof fn lemma_wholebpm_line(v: Seq<char>)
    ensures
        "&wholebpm="@ + v + "\n"@ == key_line("wholebpm"@, v),
{
    reveal_strlit("&wholebpm=");
    reveal_strlit("wholebpm");
    reveal_strlit("&");
    reveal_strlit("=");
    assert("&wholebpm="@ + v + "\n"@ =~= key_line("wholebpm"@, v));
}

/// A written maidata text is the lines of its entries.
#[verifier::spinoff_prover]
proof fn lemma_render_file_lines(
    title: Seq<char>,
    artist: Seq<char>,
    first: Seq<char>,
    wholebpm: Option<Seq<char>>,
    levels: Seq<(u32, Seq<char>)>,
    charts: Seq<(u32, Seq<char>)>,
)
    ensures
        spec_render_file(title, artist, first, wholebpm, levels, charts) == lines_text(
            file_entries(title, artist, first, wholebpm, levels, charts),
        ),
{
    let t = ("title"@, title);
    let a = ("artist"@, artist);
    let f = ("first"@, first);
    let w: Seq<(Seq<char>, Seq<char>)> = match wholebpm {
        Some(x) => seq![("wholebpm"@, x)],
        None => seq![],
    };
    let l = level_entries(levels);
    let c = chart_entries(charts);
    lemma_lines_single(t);
    lemma_lines_single(a);
    lemma_lines_single(f);
    lemma_lines_concat(seq![t], seq![a]);
    assert(seq![t] + seq![a] =~= seq![t, a]);
    lemma_lines_concat(seq![t, a], seq![f]);
    assert(seq![t, a] + seq![f] =~= seq![t, a, f]);
    lemma_lines_concat(seq![t, a, f], w);
    lemma_lines_concat(seq![t, a, f] + w, l);
    lemma_lines_concat(seq![t, a, f] + w + l, c);
    lemma_level_lines(levels);
    lemma_chart_lines(charts);
    lemma_title_line(title);
    lemma_artist_line(artist);
    lemma_first_line(first);
    let wl: Seq<char> = match wholebpm {
        Some(x) => "&wholebpm="@ + x + "\n"@,
        None => seq![],
    };
    match wholebpm {
        Some(x) => {
            lemma_lines_single(("wholebpm"@, x));
            lemma_wholebpm_line(x);
        },
        None => {
            assert(lines_text(w) =~= wl);
        },
    }
    let kt = key_line("title"@, title);
    let ka = key_line("artist"@, artist);
    let kf = key_line("first"@, first);
    assert(lines_text(file_entries(title, artist, first, wholebpm, levels, charts)) == kt + ka + kf
        + wl + level_lines(levels) + chart_lines(charts));
    assert(spec_render_file(title, artist, first, wholebpm, levels, charts) =~= kt + ka + kf + wl
        + level_lines(levels) + chart_lines(charts));
}

/// `f` after the blocks are applied in order.
spec fn apply_blocks(f: FileView, blocks: Seq<(Seq<char>, Seq<char>)>) -> FileView
    decreases blocks.len(),
{
    if blocks.len() == 0 {
        f
    } else {
        apply_block(apply_blocks(f, blocks.drop_last()), blocks.last().0, blocks.last().1)
    }
}

proof fn lemma_fold_is_apply(blocks: Seq<(Seq<char>, Seq<char>)>)
    ensures
        fold_blocks(blocks) == apply_blocks(empty_file(), blocks),
    decreases blocks.len(),
{
    if blocks.len() > 0 {
        lemma_fold_is_apply(blocks.drop_last());
    }
}

proof fn lemma_apply_concat(
    f: FileView,
    xs: Seq<(Seq<char>, Seq<char>)>,
    ys: Seq<(Seq<char>, Seq<char>)>,
)
    ensures
        apply_blocks(f, xs + ys) == apply_blocks(apply_blocks(f, xs), ys),
    decreases ys.len(),
{
    if ys.len() == 0 {
        assert(xs + ys =~= xs);
    } else {
        assert((xs + ys).drop_last() =~= xs + ys.drop_last());
        assert((xs + ys).last() == ys.last());
        lemma_apply_concat(f, xs, ys.drop_last());
    }
}

proof fn lemma_classify_level(n: u32)
    ensures
        spec_classify_key("lv_"@ + decimal(n as nat)) == BlockKey::Level(n),
{
    reveal_strlit("lv_");
    reveal_strlit("title");
    reveal_strlit("artist");
    reveal_strlit("first");
    reveal_strlit("wholebpm");
    lemma_decimal_reads_back(n as nat);
    let k = "lv_"@ + decimal(n as nat);
    assert(k[0] == 'l');
    assert(k != "title"@ && k != "artist"@ && k != "first"@ && k != "wholebpm"@) by {
        assert("title"@[0] == 't' && "artist"@[0] == 'a' && "first"@[0] == 'f' && "wholebpm"@[0]
            == 'w');
    }
    assert(k.take(3) =~= "lv_"@);
    assert(k.skip(3) =~= decimal(n as nat));
}

proof fn lemma_classify_chart(n: u32)
    ensures
        spec_classify_key("inote_"@ + decimal(n as nat)) == BlockKey::Chart(n),
{
    reveal_strlit("inote_");
    reveal_strlit("lv_");
    reveal_strlit("title");
    reveal_strlit("artist");
    reveal_strlit("first");
    reveal_strlit("wholebpm");
    lemma_decimal_reads_back(n as nat);
    let k = "inote_"@ + decimal(n as nat);
    assert(k[0] == 'i');
    assert(k != "title"@ && k != "artist"@ && k != "first"@ && k != "wholebpm"@) by {
        assert("title"@[0] == 't' && "artist"@[0] == 'a' && "first"@[0] == 'f' && "wholebpm"@[0]
            == 'w');
    }
    assert(!starts_with(k, "lv_"@)) by {
        assert(k.take(3)[0] == 'i');
    }
    assert(k.take(6) =~= "inote_"@);
    assert(k.skip(6) =~= decimal(n as nat));
}

proof fn lemma_apply_levels(f: FileView, levels: Seq<(u32, Seq<char>)>)
    ensures
        apply_blocks(f, trimmed_entries(level_entries(levels))) == (FileView {
            levels: f.levels + trimmed_numbered(levels),
            ..f
        }),
    decreases levels.len(),
{
    if levels.len() == 0 {
        assert(trimmed_entries(level_entries(levels)) =~= seq![]);
        assert(f.levels + trimmed_numbered(levels) =~= f.levels);
    } else {
        let init = levels.drop_last();
        let last = levels.last();
        lemma_apply_levels(f, init);
        let bs = trimmed_entries(level_entries(levels));
        assert(bs.drop_last() =~= trimmed_entries(level_entries(init)));
        assert(bs.last() == ("lv_"@ + decimal(last.0 as nat), trim_end(last.1)));
        lemma_classify_level(last.0);
        assert(f.levels + trimmed_numbered(levels) =~= (f.levels + trimmed_numbered(init)).push(
            (last.0, trim_end(last.1)),
        ));
    }
}

proof fn lemma_apply_charts(f: FileView, charts: Seq<(u32, Seq<char>)>)
    ensures
        apply_blocks(f, trimmed_entries(chart_entries(charts))) == (FileView {
            charts: f.charts + trimmed_numbered(charts),
            ..f
        }),
    decreases charts.len(),
{
    if charts.len() == 0 {
        assert(trimmed_entries(chart_entries(charts)) =~= seq![]);
        assert(f.charts + trimmed_numbered(charts) =~= f.charts);
    } else {
        let init = charts.drop_last();
        let last = charts.last();
        lemma_apply_charts(f, init);
        let bs = trimmed_entries(chart_entries(charts));
        assert(bs.drop_last() =~= trimmed_entries(chart_entries(init)));
        assert(bs.last() == ("inote_"@ + decimal(last.0 as nat), trim_end(last.1)));
        lemma_classify_chart(last.0);
        assert(f.charts + trimmed_numbered(charts) =~= (f.charts + trimmed_numbered(init)).push(
            (last.0, trim_end(last.1)),
        ));
    }
}

proof fn lemma_apply_single(f: FileView, x: (Seq<char>, Seq<char>))
    ensures
        apply_blocks(f, seq![x]) == apply_block(f, x.0, x.1),
{
    assert(seq![x].drop_last() =~= seq![]);
    assert(apply_blocks(f, seq![x].drop_last()) == f);
    assert(seq![x].last() == x);
}

/// The blocks of a written maidata text are its entries, each value
/// without its trailing blanks.
#[verifier::spinoff_prover]
proof fn lemma_written_blocks(
    title: Seq<char>,
    artist: Seq<char>,
    first: Seq<char>,
    wholebpm: Option<Seq<char>>,
    levels: Seq<(u32, Seq<char>)>,
    charts: Seq<(u32, Seq<char>)>,
)
    requires
        no_key_line(title),
        no_key_line(artist),
        no_key_line(first),
        wholebpm matches Some(w) ==> no_key_line(w),
        forall|k: int| 0 <= k < levels.len() ==> no_key_line(#[trigger] levels[k].1),
        forall|k: int| 0 <= k < charts.len() ==> no_key_line(#[trigger] charts[k].1),
    ensures
        spec_blocks(spec_render_file(title, artist, first, wholebpm, levels, charts))
            == trimmed_entries(file_entries(title, artist, first, wholebpm, levels, charts)),
{
    reveal_strlit("title");
    reveal_strlit("artist");
    reveal_strlit("first");
    reveal_strlit("wholebpm");
    let entries = file_entries(title, artist, first, wholebpm, levels, charts);
    lemma_render_file_lines(title, artist, first, wholebpm, levels, charts);
    let text = lines_text(entries);
    let head: Seq<(Seq<char>, Seq<char>)> = seq![("title"@, title), ("artist"@, artist), ("first"@, first)];
    let w: Seq<(Seq<char>, Seq<char>)> = match wholebpm {
        Some(x) => seq![("wholebpm"@, x)],
        None => seq![],
    };
    let l = level_entries(levels);
    let c = chart_entries(charts);
    assert(readable_entries(head)) by {
        assert forall|k: int| 0 <= k < head.len() implies plain_key(#[trigger] head[k].0)
            && no_key_line(head[k].1) by {
            if k == 0 {
                assert(head[k] == ("title"@, title));
            } else if k == 1 {
                assert(head[k] == ("artist"@, artist));
            } else {
                assert(head[k] == ("first"@, first));
            }
        }
    }
    assert(readable_entries(w)) by {
        if let Some(x) = wholebpm {
            assert(w[0] == ("wholebpm"@, x));
        }
    }
    lemma_level_lines(levels);
    lemma_chart_lines(charts);
    lemma_readable_concat(head, w);
    lemma_readable_concat(head + w, l);
    lemma_readable_concat(head + w + l, c);
    assert(entries == head + w + l + c);
    assert(text.subrange(0, text.len() as int) =~= text);
    lemma_lines_blocks(text, 0, entries);
}

/// What the first blocks of a written text set: the title, artist, `first`
/// and `wholebpm` values.
#[verifier::spinoff_prover]
proof fn lemma_apply_head(title: Seq<char>, artist: Seq<char>, first: Seq<char>, wholebpm: Option<Seq<char>>)
    ensures
        apply_blocks(
            empty_file(),
            trimmed_entries(
                seq![("title"@, title), ("artist"@, artist), ("first"@, first)] + match wholebpm {
                    Some(w) => seq![("wholebpm"@, w)],
                    None => seq![],
                },
            ),
        ) == (FileView {
            title: trim_end(title),
            artist: trim_end(artist),
            first: Some(trim_end(first)),
            wholebpm: match wholebpm {
                Some(w) => Some(trim_end(w)),
                None => None,
            },
            levels: seq![],
            charts: seq![],
        }),
{
    reveal_strlit("title");
    reveal_strlit("artist");
    reveal_strlit("first");
    reveal_strlit("wholebpm");
    let head: Seq<(Seq<char>, Seq<char>)> = seq![("title"@, title), ("artist"@, artist), ("first"@, first)];
    let w: Seq<(Seq<char>, Seq<char>)> = match wholebpm {
        Some(x) => seq![("wholebpm"@, x)],
        None => seq![],
    };
    let bt = ("title"@, trim_end(title));
    let ba = ("artist"@, trim_end(artist));
    let bf = ("first"@, trim_end(first));
    let th = trimmed_entries(head);
    let tw = trimmed_entries(w);
    assert(trimmed_entries(head + w) =~= th + tw);
    assert(th =~= seq![bt] + seq![ba] + seq![bf]);
    let e0 = empty_file();
    lemma_apply_concat(e0, th, tw);
    lemma_apply_concat(e0, seq![bt] + seq![ba], seq![bf]);
    lemma_apply_concat(e0, seq![bt], seq![ba]);
    lemma_apply_single(e0, bt);
    let f1 = apply_block(e0, bt.0, bt.1);
    lemma_apply_single(f1, ba);
    let f2 = apply_block(f1, ba.0, ba.1);
    lemma_apply_single(f2, bf);
    let f3 = apply_block(f2, bf.0, bf.1);
    assert("title"@[0] == 't' && "artist"@[0] == 'a' && "first"@[0] == 'f' && "wholebpm"@[0]
        == 'w');
    assert(spec_classify_key("title"@) == BlockKey::Title);
    assert(spec_classify_key("artist"@) == BlockKey::Artist);
    assert(spec_classify_key("first"@) == BlockKey::First);
    assert(apply_blocks(e0, th) == f3);
    match wholebpm {
        Some(x) => {
            assert(tw =~= seq![("wholebpm"@, trim_end(x))]);
            lemma_apply_single(f3, ("wholebpm"@, trim_end(x)));
            assert(spec_classify_key("wholebpm"@) == BlockKey::WholeBpm);
        },
        None => {
            assert(tw =~= seq![]);
        },
    }
}

/// Reading back a written maidata text gives back what was written: the
/// title, artist, `first` and `wholebpm` values and every level and chart,
/// in order, each value without its trailing blanks (`\r`, `\n`, spaces,
/// tabs), as long as no line of a value after a newline begins, past blanks,
/// with `&`.
#[verifier::spinoff_prover]
pub proof fn lemma_written_file_reads_back(
    title: Seq<char>,
    artist: Seq<char>,
    first: Seq<char>,
    wholebpm: Option<Seq<char>>,
    levels: Seq<(u32, Seq<char>)>,
    charts: Seq<(u32, Seq<char>)>,
)
    requires
        no_key_line(title),
        no_key_line(artist),
        no_key_line(first),
        wholebpm matches Some(w) ==> no_key_line(w),
        forall|k: int| 0 <= k < levels.len() ==> no_key_line(#[trigger] levels[k].1),
        forall|k: int| 0 <= k < charts.len() ==> no_key_line(#[trigger] charts[k].1),
    ensures
        spec_file_syntax(spec_render_file(title, artist, first, wholebpm, levels, charts)) == (
        FileView {
            title: trim_end(title),
            artist: trim_end(artist),
            first: Some(trim_end(first)),
            wholebpm: match wholebpm {
                Some(w) => Some(trim_end(w)),
                None => None,
            },
            levels: trimmed_numbered(levels),
            charts: trimmed_numbered(charts),
        }),
{
    lemma_written_blocks(title, artist, first, wholebpm, levels, charts);
    let head: Seq<(Seq<char>, Seq<char>)> = seq![("title"@, title), ("artist"@, artist), ("first"@, first)] + match wholebpm {
        Some(x) => seq![("wholebpm"@, x)],
        None => seq![],
    };
    let th = trimmed_entries(head);
    let tl = trimmed_entries(level_entries(levels));
    let tc = trimmed_entries(chart_entries(charts));
    let entries = file_entries(title, artist, first, wholebpm, levels, charts);
    assert(trimmed_entries(entries) =~= th + tl + tc);
    lemma_fold_is_apply(trimmed_entries(entries));
    let e0 = empty_file();
    lemma_apply_concat(e0, th + tl, tc);
    lemma_apply_concat(e0, th, tl);
    lemma_apply_head(title, artist, first, wholebpm);
    let f4 = apply_blocks(e0, th);
    lemma_apply_levels(f4, levels);
    let f5 = apply_blocks(f4, tl);
    lemma_apply_charts(f5, charts);
    assert(seq![] + trimmed_numbered(levels) =~= trimmed_numbered(levels));
    assert(seq![] + trimmed_numbered(charts) =~= trimmed_numbered(charts));
}

} // verus!
