//! The `&KEY=VALUE` block structure of a `maidata.txt` file: splitting a
//! file into blocks, reading what each block sets, and writing the blocks of
//! a file back out.

use vstd::prelude::*;
use vstd::string::*;
use crate::text::{chars_of, decimal, parse_u32_chars, push_decimal, spec_parse_u32, string_of_chars};

verus! {

/// The characters skipped between a newline and the `&` of the next block.
pub open spec fn is_blank(c: char) -> bool {
    c == '\r' || c == '\n' || c == ' ' || c == '\t'
}

/// The first index from `m` that does not hold a blank.
pub open spec fn skip_blank(t: Seq<char>, m: int) -> int
    decreases t.len() - m,
{
    if 0 <= m < t.len() && is_blank(t[m]) {
        skip_blank(t, m + 1)
    } else {
        m
    }
}

/// A newline at `k` after which, past blanks, the next block's `&` begins.
pub open spec fn is_boundary(t: Seq<char>, k: int) -> bool {
    t[k] == '\n' && skip_blank(t, k + 1) < t.len() && t[skip_blank(t, k + 1)] == '&'
}

/// Where the value that starts at `k` ends: the first boundary newline from
/// `k`, or the end of the text.
pub open spec fn value_end(t: Seq<char>, k: int) -> int
    decreases t.len() - k,
{
    if k < 0 || k >= t.len() {
        t.len() as int
    } else if is_boundary(t, k) {
        k
    } else {
        value_end(t, k + 1)
    }
}

/// Where the key that starts at `q` ends: the first `=`, newline or
/// carriage return from `q`, or the end of the text.
pub open spec fn key_end(t: Seq<char>, q: int) -> int
    decreases t.len() - q,
{
    if q < 0 || q >= t.len() {
        t.len() as int
    } else if t[q] == '=' || t[q] == '\n' || t[q] == '\r' {
        q
    } else {
        key_end(t, q + 1)
    }
}

/// `v` without its trailing blanks.
pub open spec fn trim_end(v: Seq<char>) -> Seq<char>
    decreases v.len(),
{
    if v.len() > 0 && is_blank(v.last()) {
        trim_end(v.drop_last())
    } else {
        v
    }
}

/// The `&KEY=VALUE` blocks of `t` from `p` on, in order. A `&` whose key
/// ends at a line break or at the end of the text starts no block.
pub open spec fn blocks_from(t: Seq<char>, p: int) -> Seq<(Seq<char>, Seq<char>)>
    decreases t.len() - p,
{
    if p < 0 || p >= t.len() {
        seq![]
    } else if t[p] != '&' {
        blocks_from(t, p + 1)
    } else {
        let q = key_end(t, p + 1);
        if q >= t.len() || t[q] != '=' {
            if p < q <= t.len() {
                blocks_from(t, q)
            } else {
                seq![]
            }
        } else {
            let end = value_end(t, q + 1);
            let block = (t.subrange(p + 1, q), trim_end(t.subrange(q + 1, end)));
            if p < end <= t.len() {
                seq![block] + blocks_from(t, end)
            } else {
                seq![block]
            }
        }
    }
}

/// The blocks of a file.
pub open spec fn spec_blocks(t: Seq<char>) -> Seq<(Seq<char>, Seq<char>)> {
    blocks_from(t, 0)
}

proof fn lemma_key_end(t: Seq<char>, q: int)
    requires
        0 <= q <= t.len(),
    ensures
        q <= key_end(t, q) <= t.len(),
    decreases t.len() - q,
{
    if q < t.len() && !(t[q] == '=' || t[q] == '\n' || t[q] == '\r') {
        lemma_key_end(t, q + 1);
    }
}

proof fn lemma_value_end(t: Seq<char>, k: int)
    requires
        0 <= k <= t.len(),
    ensures
        k <= value_end(t, k) <= t.len(),
    decreases t.len() - k,
{
    if k < t.len() && !is_boundary(t, k) {
        lemma_value_end(t, k + 1);
    }
}

proof fn lemma_skip_blank(t: Seq<char>, m: int)
    requires
        0 <= m,
    ensures
        m <= skip_blank(t, m),
        skip_blank(t, m) <= t.len() || skip_blank(t, m) == m,
    decreases t.len() - m,
{
    if 0 <= m < t.len() && is_blank(t[m]) {
        lemma_skip_blank(t, m + 1);
    }
}

fn blank(c: char) -> (r: bool)
    ensures
        r == is_blank(c),
{
    c == '\r' || c == '\n' || c == ' ' || c == '\t'
}

fn find_key_end(t: &Vec<char>, q: usize) -> (r: usize)
    requires
        q <= t@.len(),
    ensures
        r == key_end(t@, q as int),
{
    let mut k = q;
    while k < t.len()
        invariant
            q <= k <= t@.len(),
            key_end(t@, q as int) == key_end(t@, k as int),
        decreases t@.len() - k,
    {
        let c = t[k];
        if c == '=' || c == '\n' || c == '\r' {
            return k;
        }
        k = k + 1;
    }
    k
}

fn find_skip_blank(t: &Vec<char>, m: usize) -> (r: usize)
    requires
        m <= t@.len(),
    ensures
        r == skip_blank(t@, m as int),
{
    let mut k = m;
    while k < t.len() && blank(t[k])
        invariant
            m <= k <= t@.len(),
            skip_blank(t@, m as int) == skip_blank(t@, k as int),
        decreases t@.len() - k,
    {
        k = k + 1;
    }
    k
}

fn find_value_end(t: &Vec<char>, vs: usize) -> (r: usize)
    requires
        vs <= t@.len(),
    ensures
        r == value_end(t@, vs as int),
{
    let mut k = vs;
    while k < t.len()
        invariant
            vs <= k <= t@.len(),
            value_end(t@, vs as int) == value_end(t@, k as int),
        decreases t@.len() - k,
    {
        if t[k] == '\n' {
            let m = find_skip_blank(t, k + 1);
            if m < t.len() && t[m] == '&' {
                return k;
            }
        }
        k = k + 1;
    }
    k
}

proof fn lemma_trim_end_prefix(t: Seq<char>, lo: int, e: int, hi: int)
    requires
        0 <= lo <= e <= hi <= t.len(),
        forall|j: int| e <= j < hi ==> is_blank(#[trigger] t[j]),
        e == lo || !is_blank(t[e - 1]),
    ensures
        trim_end(t.subrange(lo, hi)) == t.subrange(lo, e),
    decreases hi - e,
{
    if hi > e {
        assert(t.subrange(lo, hi).drop_last() =~= t.subrange(lo, hi - 1));
        lemma_trim_end_prefix(t, lo, e, hi - 1);
    } else {
        let v = t.subrange(lo, hi);
        if v.len() > 0 {
            assert(v.last() == t[e - 1]);
        }
    }
}

/// The views of a sequence of key/value string pairs.
pub open spec fn pairs_view(v: Seq<(String, String)>) -> Seq<(Seq<char>, Seq<char>)> {
    v.map_values(|p: (String, String)| (p.0@, p.1@))
}

/// Splits a maidata text into its `&KEY=VALUE` blocks, in order. A value
/// runs until a newline that is followed, past blank lines and whitespace, by
/// the `&` of the next key, or until the end of the text; trailing `\r`,
/// `\n`, spaces and tabs are removed from it.
pub fn split_blocks(text: &str) -> (r: Vec<(String, String)>)
    ensures
        pairs_view(r@) == spec_blocks(text@),
{
    let t = chars_of(text);
    let len = t.len();
    let mut out: Vec<(String, String)> = Vec::new();
    let mut p: usize = 0;
    assert(pairs_view(out@) + spec_blocks(t@) =~= spec_blocks(t@));
    while p < len
        invariant
            len == t@.len(),
            t@ == text@,
            p <= len,
            pairs_view(out@) + blocks_from(t@, p as int) == spec_blocks(t@),
        decreases len - p,
    {
        if t[p] != '&' {
            p = p + 1;
        } else {
            let q = find_key_end(&t, p + 1);
            proof {
                lemma_key_end(t@, p + 1);
            }
            if q >= len || t[q] != '=' {
                p = q;
            } else {
                let end = find_value_end(&t, q + 1);
                proof {
                    lemma_value_end(t@, q + 1);
                }
                let mut e = end;
                while e > q + 1 && blank(t[e - 1])
                    invariant
                        q + 1 <= e <= end <= len,
                        len == t@.len(),
                        forall|j: int| e <= j < end ==> is_blank(#[trigger] t@[j]),
                    decreases e,
                {
                    e = e - 1;
                }
                proof {
                    lemma_trim_end_prefix(t@, q + 1, e as int, end as int);
                }
                let key = string_of_chars(t.as_slice(), p + 1, q);
                let value = string_of_chars(t.as_slice(), q + 1, e);
                let ghost old_out = out@;
                out.push((key, value));
                proof {
                    assert(pairs_view(out@) =~= pairs_view(old_out).push((key@, value@)));
                    assert(pairs_view(old_out) + blocks_from(t@, p as int) == spec_blocks(t@));
                    assert(pairs_view(out@) + blocks_from(t@, end as int) =~= pairs_view(old_out)
                        + blocks_from(t@, p as int));
                }
                p = end;
            }
        }
    }
    assert(pairs_view(out@) =~= spec_blocks(t@));
    out
}

/// What a block's key sets.
#[derive(Debug, Clone, Copy, PartialEq, Eq, Structural)]
pub enum BlockKey {
    Title,
    Artist,
    First,
    WholeBpm,
    /// `lv_N`
    Level(u32),
    /// `inote_N`
    Chart(u32),
    /// Any other key, which is ignored.
    Other,
}

/// `k` begins with `prefix`.
pub open spec fn starts_with(k: Seq<char>, prefix: Seq<char>) -> bool {
    k.len() >= prefix.len() && k.take(prefix.len() as int) == prefix
}

/// What the key `k` sets: the four named keys, `lv_N` and `inote_N` with
/// `N` a `u32` numeral, or nothing.
pub open spec fn spec_classify_key(k: Seq<char>) -> BlockKey {
    if k == "title"@ {
        BlockKey::Title
    } else if k == "artist"@ {
        BlockKey::Artist
    } else if k == "first"@ {
        BlockKey::First
    } else if k == "wholebpm"@ {
        BlockKey::WholeBpm
    } else if starts_with(k, "lv_"@) {
        match spec_parse_u32(k.skip("lv_"@.len() as int)) {
            Some(n) => BlockKey::Level(n),
            None => BlockKey::Other,
        }
    } else if starts_with(k, "inote_"@) {
        match spec_parse_u32(k.skip("inote_"@.len() as int)) {
            Some(n) => BlockKey::Chart(n),
            None => BlockKey::Other,
        }
    } else {
        BlockKey::Other
    }
}

fn chars_start_with(k: &Vec<char>, lit: &str) -> (r: bool)
    ensures
        r == starts_with(k@, lit@),
{
    let p = chars_of(lit);
    if p.len() > k.len() {
        return false;
    }
    let mut j: usize = 0;
    while j < p.len()
        invariant
            j <= p@.len() <= k@.len(),
            p@ == lit@,
            forall|x: int| 0 <= x < j ==> k@[x] == p@[x],
        decreases p@.len() - j,
    {
        if k[j] != p[j] {
            assert(k@.take(p@.len() as int)[j as int] != p@[j as int]);
            return false;
        }
        j = j + 1;
    }
    assert(k@.take(p@.len() as int) =~= p@);
    true
}

fn chars_equal(k: &Vec<char>, lit: &str) -> (r: bool)
    ensures
        r == (k@ == lit@),
{
    let p = chars_of(lit);
    if p.len() != k.len() {
        return false;
    }
    let r = chars_start_with(k, lit);
    assert(k@.take(p@.len() as int) =~= k@);
    r
}

/// What the key `key` sets.
pub fn classify_key(key: &str) -> (r: BlockKey)
    ensures
        r == spec_classify_key(key@),
{
    let k = chars_of(key);
    if chars_equal(&k, "title") {
        BlockKey::Title
    } else if chars_equal(&k, "artist") {
        BlockKey::Artist
    } else if chars_equal(&k, "first") {
        BlockKey::First
    } else if chars_equal(&k, "wholebpm") {
        BlockKey::WholeBpm
    } else if chars_start_with(&k, "lv_") {
        let plen = chars_of("lv_").len();
        proof {
            assert(k@.subrange(plen as int, k@.len() as int) =~= k@.skip("lv_"@.len() as int));
        }
        match parse_u32_chars(k.as_slice(), plen) {
            Some(n) => BlockKey::Level(n),
            None => BlockKey::Other,
        }
    } else if chars_start_with(&k, "inote_") {
        let plen = chars_of("inote_").len();
        proof {
            assert(k@.subrange(plen as int, k@.len() as int) =~= k@.skip("inote_"@.len() as int));
        }
        match parse_u32_chars(k.as_slice(), plen) {
            Some(n) => BlockKey::Chart(n),
            None => BlockKey::Other,
        }
    } else {
        BlockKey::Other
    }
}

/// What a file's blocks set, with every value as its text: the last title,
/// artist, `first` and `wholebpm` values, and every level and chart in order.
#[derive(Debug, Clone, PartialEq)]
pub struct FileSyntax {
    pub title: String,
    pub artist: String,
    pub first: Option<String>,
    pub wholebpm: Option<String>,
    pub levels: Vec<(u32, String)>,
    pub charts: Vec<(u32, String)>,
}

/// The mathematical content of a [`FileSyntax`].
pub struct FileView {
    pub title: Seq<char>,
    pub artist: Seq<char>,
    pub first: Option<Seq<char>>,
    pub wholebpm: Option<Seq<char>>,
    pub levels: Seq<(u32, Seq<char>)>,
    pub charts: Seq<(u32, Seq<char>)>,
}

/// The views of numbered texts.
pub open spec fn numbered_view(v: Seq<(u32, String)>) -> Seq<(u32, Seq<char>)> {
    v.map_values(|p: (u32, String)| (p.0, p.1@))
}

pub open spec fn option_string_view(o: Option<String>) -> Option<Seq<char>> {
    match o {
        Some(s) => Some(s@),
        None => None,
    }
}

impl View for FileSyntax {
    type V = FileView;

    open spec fn view(&self) -> FileView {
        FileView {
            title: self.title@,
            artist: self.artist@,
            first: option_string_view(self.first),
            wholebpm: option_string_view(self.wholebpm),
            levels: numbered_view(self.levels@),
            charts: numbered_view(self.charts@),
        }
    }
}

/// A file with no blocks.
pub open spec fn empty_file() -> FileView {
    FileView {
        title: seq![],
        artist: seq![],
        first: None,
        wholebpm: None,
        levels: seq![],
        charts: seq![],
    }
}

/// The file after the block `key = value` has been applied to `f`.
pub open spec fn apply_block(f: FileView, key: Seq<char>, value: Seq<char>) -> FileView {
    match spec_classify_key(key) {
        BlockKey::Title => FileView { title: value, ..f },
        BlockKey::Artist => FileView { artist: value, ..f },
        BlockKey::First => FileView { first: Some(value), ..f },
        BlockKey::WholeBpm => FileView { wholebpm: Some(value), ..f },
        BlockKey::Level(n) => FileView { levels: f.levels.push((n, value)), ..f },
        BlockKey::Chart(n) => FileView { charts: f.charts.push((n, value)), ..f },
        BlockKey::Other => f,
    }
}

/// What the blocks set, applied in order.
pub open spec fn fold_blocks(blocks: Seq<(Seq<char>, Seq<char>)>) -> FileView
    decreases blocks.len(),
{
    if blocks.len() == 0 {
        empty_file()
    } else {
        apply_block(fold_blocks(blocks.drop_last()), blocks.last().0, blocks.last().1)
    }
}

/// What a maidata text sets.
pub open spec fn spec_file_syntax(text: Seq<char>) -> FileView {
    fold_blocks(spec_blocks(text))
}

fn clone_string(s: &String) -> (r: String)
    ensures
        r@ == s@,
{
    String::from_str(s.as_str())
}

/// Reads what the blocks of a maidata text set.
pub fn parse_file_syntax(text: &str) -> (r: FileSyntax)
    ensures
        r@ == spec_file_syntax(text@),
{
    let blocks = split_blocks(text);
    let mut f = FileSyntax {
        title: String::new(),
        artist: String::new(),
        first: None,
        wholebpm: None,
        levels: Vec::new(),
        charts: Vec::new(),
    };
    proof {
        assert(numbered_view(f.levels@) =~= seq![]);
        assert(numbered_view(f.charts@) =~= seq![]);
        assert(pairs_view(blocks@).take(0) =~= seq![]);
    }
    let mut k: usize = 0;
    while k < blocks.len()
        invariant
            k <= blocks@.len(),
            pairs_view(blocks@) == spec_blocks(text@),
            f@ == fold_blocks(pairs_view(blocks@).take(k as int)),
        decreases blocks@.len() - k,
    {
        let key = &blocks[k].0;
        let value = &blocks[k].1;
        let ghost f0 = f@;
        proof {
            let bs = pairs_view(blocks@);
            assert(bs.take(k + 1).drop_last() =~= bs.take(k as int));
            assert(bs.take(k + 1).last() == (key@, value@));
        }
        match classify_key(key.as_str()) {
            BlockKey::Title => {
                f.title = clone_string(value);
            },
            BlockKey::Artist => {
                f.artist = clone_string(value);
            },
            BlockKey::First => {
                f.first = Some(clone_string(value));
            },
            BlockKey::WholeBpm => {
                f.wholebpm = Some(clone_string(value));
            },
            BlockKey::Level(n) => {
                let ghost old_levels = f.levels@;
                f.levels.push((n, clone_string(value)));
                proof {
                    assert(numbered_view(f.levels@) =~= numbered_view(old_levels).push((n, value@)));
                }
            },
            BlockKey::Chart(n) => {
                let ghost old_charts = f.charts@;
                f.charts.push((n, clone_string(value)));
                proof {
                    assert(numbered_view(f.charts@) =~= numbered_view(old_charts).push((n, value@)));
                }
            },
            BlockKey::Other => {},
        }
        k = k + 1;
    }
    proof {
        assert(pairs_view(blocks@).take(k as int) =~= pairs_view(blocks@));
    }
    f
}

/// The `&lv_N=` lines of `levels`, in order.
pub open spec fn level_lines(levels: Seq<(u32, Seq<char>)>) -> Seq<char>
    decreases levels.len(),
{
    if levels.len() == 0 {
        seq![]
    } else {
        level_lines(levels.drop_last()) + "&lv_"@ + decimal(levels.last().0 as nat) + "="@
            + levels.last().1 + "\n"@
    }
}

/// The `&inote_N=` lines of `charts`, in order.
pub open spec fn chart_lines(charts: Seq<(u32, Seq<char>)>) -> Seq<char>
    decreases charts.len(),
{
    if charts.len() == 0 {
        seq![]
    } else {
        chart_lines(charts.drop_last()) + "&inote_"@ + decimal(charts.last().0 as nat) + "="@
            + charts.last().1 + "\n"@
    }
}

/// A maidata text: title, artist and `first` lines, the `wholebpm` line when
/// there is one, then a line for each level and for each chart.
pub open spec fn spec_render_file(
    title: Seq<char>,
    artist: Seq<char>,
    first: Seq<char>,
    wholebpm: Option<Seq<char>>,
    levels: Seq<(u32, Seq<char>)>,
    charts: Seq<(u32, Seq<char>)>,
) -> Seq<char> {
    "&title="@ + title + "\n"@ + "&artist="@ + artist + "\n"@ + "&first="@ + first + "\n"@
        + match wholebpm {
        Some(w) => "&wholebpm="@ + w + "\n"@,
        None => seq![],
    } + level_lines(levels) + chart_lines(charts)
}

/// Writes a maidata text from its parts. `first` and `wholebpm` are the
/// numbers already written as text; each chart is its chart body.
pub fn render_file(
    title: &str,
    artist: &str,
    first: &str,
    wholebpm: Option<&str>,
    levels: &[(u32, String)],
    charts: &[(u32, String)],
) -> (r: String)
    ensures
        r@ == spec_render_file(
            title@,
            artist@,
            first@,
            match wholebpm {
                Some(w) => Some(w@),
                None => None,
            },
            numbered_view(levels@),
            numbered_view(charts@),
        ),
{
    let mut s = String::from_str("&title=");
    s.append(title);
    s.append("\n");
    s.append("&artist=");
    s.append(artist);
    s.append("\n");
    s.append("&first=");
    s.append(first);
    s.append("\n");
    let ghost head = s@;
    match wholebpm {
        Some(w) => {
            s.append("&wholebpm=");
            s.append(w);
            s.append("\n");
            assert(s@ =~= head + ("&wholebpm="@ + w@ + "\n"@));
        },
        None => {
            assert(s@ =~= head + seq![]);
        },
    }
    let ghost mid = s@;
    let mut k: usize = 0;
    assert(numbered_view(levels@).take(0) =~= seq![]);
    assert(s@ =~= mid + level_lines(seq![]));
    while k < levels.len()
        invariant
            k <= levels@.len(),
            s@ == mid + level_lines(numbered_view(levels@).take(k as int)),
        decreases levels@.len() - k,
    {
        let n = levels[k].0;
        let v = &levels[k].1;
        s.append("&lv_");
        push_decimal(&mut s, n as u64);
        s.append("=");
        s.append(v.as_str());
        s.append("\n");
        proof {
            let ls = numbered_view(levels@);
            assert(ls.take(k + 1).drop_last() =~= ls.take(k as int));
            assert(ls.take(k + 1).last() == (n, v@));
            assert(s@ =~= mid + level_lines(ls.take(k + 1)));
        }
        k = k + 1;
    }
    assert(numbered_view(levels@).take(k as int) =~= numbered_view(levels@));
    let ghost mid2 = s@;
    let mut k: usize = 0;
    assert(numbered_view(charts@).take(0) =~= seq![]);
    assert(s@ =~= mid2 + chart_lines(seq![]));
    while k < charts.len()
        invariant
            k <= charts@.len(),
            s@ == mid2 + chart_lines(numbered_view(charts@).take(k as int)),
        decreases charts@.len() - k,
    {
        let n = charts[k].0;
        let v = &charts[k].1;
        s.append("&inote_");
        push_decimal(&mut s, n as u64);
        s.append("=");
        s.append(v.as_str());
        s.append("\n");
        proof {
            let cs = numbered_view(charts@);
            assert(cs.take(k + 1).drop_last() =~= cs.take(k as int));
            assert(cs.take(k + 1).last() == (n, v@));
            assert(s@ =~= mid2 + chart_lines(cs.take(k + 1)));
        }
        k = k + 1;
    }
    assert(numbered_view(charts@).take(k as int) =~= numbered_view(charts@));
    s
}

} // verus!
