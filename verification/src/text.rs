//! Character-level helpers: decimal numerals, unsigned integer parsing,
//! Unicode whitespace, and copying pieces of text into `String`s.

use vstd::prelude::*;
use vstd::string::*;

verus! {

/// The ASCII digit for `d` (`d < 10`).
pub open spec fn digit_char(d: nat) -> char {
    (48 + d) as char
}

/// The decimal numeral of `n`, without sign or leading zeros.
pub open spec fn decimal(n: nat) -> Seq<char>
    decreases n,
{
    if n < 10 {
        seq![digit_char(n)]
    } else {
        decimal(n / 10).push(digit_char(n % 10))
    }
}

/// Appends the decimal numeral of `n` to `out`.
pub fn push_decimal(out: &mut String, n: u64)
    ensures
        final(out)@ == old(out)@ + decimal(n as nat),
    decreases n,
{
    if n >= 10 {
        push_decimal(out, n / 10);
    }
    let d: u8 = (n % 10) as u8;
    let c = (48u8 + d) as char;
    out.push(c);
}

/// `c` is an ASCII decimal digit.
pub open spec fn is_digit_char(c: char) -> bool {
    '0' <= c && c <= '9'
}

/// The numeric value of a digit character.
pub open spec fn digit_value(c: char) -> nat {
    (c as int - 48) as nat
}

/// The value of a numeral written with the digits of `s`, most significant first.
pub open spec fn digits_value(s: Seq<char>) -> nat
    decreases s.len(),
{
    if s.len() == 0 {
        0
    } else {
        digits_value(s.drop_last()) * 10 + digit_value(s.last())
    }
}

pub open spec fn all_digits(s: Seq<char>) -> bool {
    forall|k: int| 0 <= k < s.len() ==> is_digit_char(#[trigger] s[k])
}

/// The digits that follow an optional leading `+`.
pub open spec fn unsigned_body(s: Seq<char>) -> Seq<char> {
    if s.len() > 0 && s[0] == '+' {
        s.drop_first()
    } else {
        s
    }
}

/// What parsing `s` as a `u32` gives: an optional `+` followed by at least
/// one decimal digit, whose value fits in 32 bits.
pub open spec fn spec_parse_u32(s: Seq<char>) -> Option<u32> {
    let body = unsigned_body(s);
    if body.len() > 0 && all_digits(body) && digits_value(body) <= u32::MAX {
        Some(digits_value(body) as u32)
    } else {
        None
    }
}

proof fn lemma_digits_value_grows(s: Seq<char>, k: int)
    requires
        0 <= k <= s.len(),
        all_digits(s),
    ensures
        digits_value(s.take(k)) <= digits_value(s),
    decreases s.len() - k,
{
    if k < s.len() {
        lemma_digits_value_grows(s, k + 1);
        assert(s.take(k + 1).drop_last() =~= s.take(k));
    } else {
        assert(s.take(k) =~= s);
    }
}

/// A written decimal numeral is a run of digits with the number's value, so
/// reading it back as a `u32` gives the number again.
pub proof fn lemma_decimal_reads_back(n: nat)
    ensures
        decimal(n).len() > 0,
        all_digits(decimal(n)),
        digits_value(decimal(n)) == n,
        n <= u32::MAX ==> spec_parse_u32(decimal(n)) == Some(n as u32),
    decreases n,
{
    let d = decimal(n);
    if n < 10 {
        assert(d.drop_last() =~= seq![]);
        assert(digit_char(n) as int == 48 + n);
        assert(digit_value(d.last()) == n);
        assert(digits_value(d) == digits_value(d.drop_last()) * 10 + digit_value(d.last()));
    } else {
        lemma_decimal_reads_back(n / 10);
        assert(d.drop_last() =~= decimal(n / 10));
        assert(digit_char(n % 10) as int == 48 + n % 10);
        assert(digit_value(d.last()) == n % 10);
        assert(digits_value(d) == digits_value(d.drop_last()) * 10 + digit_value(d.last()));
        assert(n / 10 * 10 + n % 10 == n);
        assert forall|k: int| 0 <= k < d.len() implies is_digit_char(#[trigger] d[k]) by {
            if k < d.len() - 1 {
                assert(d[k] == decimal(n / 10)[k]);
            }
        }
    }
    assert(d[0] != '+');
    assert(unsigned_body(d) == d);
}

/// Parses the characters `s[lo..]` as an unsigned 32-bit decimal number,
/// accepting what `u32::from_str` accepts there.
pub fn parse_u32_chars(s: &[char], lo: usize) -> (r: Option<u32>)
    requires
        lo <= s@.len(),
    ensures
        r == spec_parse_u32(s@.subrange(lo as int, s@.len() as int)),
{
    let ghost t = s@.subrange(lo as int, s@.len() as int);
    let mut start = lo;
    if lo < s.len() && s[lo] == '+' {
        start = lo + 1;
    }
    let ghost body = s@.subrange(start as int, s@.len() as int);
    assert(body =~= unsigned_body(t));
    if start >= s.len() {
        return None;
    }
    let mut acc: u64 = 0;
    let mut k = start;
    while k < s.len()
        invariant
            start <= k <= s@.len(),
            t == s@.subrange(lo as int, s@.len() as int),
            body == s@.subrange(start as int, s@.len() as int),
            body =~= unsigned_body(t),
            start < s@.len(),
            all_digits(s@.subrange(start as int, k as int)),
            acc == digits_value(s@.subrange(start as int, k as int)),
            acc <= u32::MAX,
        decreases s@.len() - k,
    {
        let c = s[k];
        if !('0' <= c && c <= '9') {
            assert(body[k - start] == c);
            assert(!is_digit_char(body[k - start]));
            assert(!all_digits(body));
            assert(spec_parse_u32(t).is_none());
            return None;
        }
        let d = (c as u32 - 48) as u64;
        proof {
            let p = s@.subrange(start as int, (k + 1) as int);
            assert(p.drop_last() =~= s@.subrange(start as int, k as int));
            assert(p.last() == c);
        }
        acc = acc * 10 + d;
        k = k + 1;
        if acc > 0xFFFF_FFFF {
            proof {
                let p = s@.subrange(start as int, k as int);
                if all_digits(body) {
                    assert(p =~= body.take((k - start) as int));
                    lemma_digits_value_grows(body, (k - start) as int);
                    assert(digits_value(body) > u32::MAX);
                }
                assert(spec_parse_u32(t).is_none());
            }
            return None;
        }
    }
    assert(s@.subrange(start as int, k as int) =~= body);
    Some(acc as u32)
}

/// The characters that `char::is_whitespace` accepts: those with the
/// Unicode `White_Space` property.
pub open spec fn is_unicode_whitespace(c: char) -> bool {
    let u = c as u32;
    ||| 0x09 <= u && u <= 0x0D
    ||| u == 0x20
    ||| u == 0x85
    ||| u == 0xA0
    ||| u == 0x1680
    ||| 0x2000 <= u && u <= 0x200A
    ||| u == 0x2028
    ||| u == 0x2029
    ||| u == 0x202F
    ||| u == 0x205F
    ||| u == 0x3000
}

/// Tells whether `c` has the Unicode `White_Space` property.
pub fn is_whitespace(c: char) -> (r: bool)
    ensures
        r == is_unicode_whitespace(c),
{
    let u = c as u32;
    (0x09 <= u && u <= 0x0D) || u == 0x20 || u == 0x85 || u == 0xA0 || u == 0x1680 || (0x2000
        <= u && u <= 0x200A) || u == 0x2028 || u == 0x2029 || u == 0x202F || u == 0x205F || u
        == 0x3000
}

/// A `String` holding `s[lo..hi]`.
pub fn string_of_chars(s: &[char], lo: usize, hi: usize) -> (r: String)
    requires
        lo <= hi <= s@.len(),
    ensures
        r@ == s@.subrange(lo as int, hi as int),
{
    let mut r = String::new();
    let mut k = lo;
    while k < hi
        invariant
            lo <= k <= hi <= s@.len(),
            r@ == s@.subrange(lo as int, k as int),
        decreases hi - k,
    {
        r.push(s[k]);
        assert(s@.subrange(lo as int, (k + 1) as int) =~= s@.subrange(lo as int, k as int).push(
            s@[k as int],
        ));
        k = k + 1;
    }
    r
}

/// The characters of `text`, in order.
pub fn chars_of(text: &str) -> (r: Vec<char>)
    ensures
        r@ == text@,
{
    let mut r: Vec<char> = Vec::new();
    for c in it: text.chars()
        invariant
            r@ == it.seq().take(it.index() as int),
    {
        r.push(c);
    }
    r
}

/// Appends the characters of `s` to `out`.
pub fn push_str(out: &mut String, s: &str)
    ensures
        final(out)@ == old(out)@ + s@,
{
    out.append(s);
}

/// A decimal numeral without the zeros that end its fraction, nor a `.`
/// left with no digit after it: while the text holds a `.` and ends with `0`
/// or `.`, its last character is removed.
pub open spec fn spec_trim_fraction_zeros(s: Seq<char>) -> Seq<char>
    decreases s.len(),
{
    if s.len() > 0 && s.contains('.') && (s.last() == '0' || s.last() == '.') {
        spec_trim_fraction_zeros(s.drop_last())
    } else {
        s
    }
}

/// Removes the zeros that end the fraction of a decimal numeral, and then a
/// `.` with no digit after it (`"120.5000"` gives `"120.5"`, `"90.0000"`
/// gives `"90"`); a text without `.` is left as it is.
pub fn trim_fraction_zeros(s: &str) -> (r: String)
    ensures
        r@ == spec_trim_fraction_zeros(s@),
{
    let chars = chars_of(s);
    // the first `.`, if any
    let mut dot = chars.len();
    let mut k: usize = 0;
    while k < chars.len()
        invariant
            k <= chars@.len(),
            dot <= chars@.len(),
            dot == chars@.len() ==> forall|j: int| 0 <= j < k ==> chars@[j] != '.',
            dot < chars@.len() ==> dot < k && chars@[dot as int] == '.' && forall|j: int|
                0 <= j < dot ==> chars@[j] != '.',
        decreases chars@.len() - k,
    {
        if dot == chars.len() && chars[k] == '.' {
            dot = k;
        }
        k = k + 1;
    }
    let mut n = chars.len();
    assert(chars@.take(n as int) =~= s@);
    while n > 0 && dot < n && (chars[n - 1] == '0' || chars[n - 1] == '.')
        invariant
            n <= chars@.len(),
            dot <= chars@.len(),
            chars@ == s@,
            dot == chars@.len() ==> forall|j: int| 0 <= j < chars@.len() ==> chars@[j] != '.',
            dot < chars@.len() ==> chars@[dot as int] == '.' && forall|j: int|
                0 <= j < dot ==> chars@[j] != '.',
            spec_trim_fraction_zeros(s@) == spec_trim_fraction_zeros(chars@.take(n as int)),
        decreases n,
    {
        let ghost p = chars@.take(n as int);
        assert(p.contains('.')) by {
            assert(p[dot as int] == '.');
        }
        assert(p.drop_last() =~= chars@.take(n - 1));
        n = n - 1;
    }
    proof {
        let p = chars@.take(n as int);
        if n > 0 && (p.last() == '0' || p.last() == '.') {
            assert(p.last() == chars@[n - 1]);
            assert(dot >= n);
            assert forall|x: int| 0 <= x < p.len() implies p[x] != '.' by {
                assert(p[x] == chars@[x]);
                assert(x < n);
                if dot < chars@.len() {
                    assert(x < dot);
                    assert(chars@[x] != '.');
                } else {
                    assert(chars@[x] != '.');
                }
            }
            assert(!p.contains('.'));
        }
    }
    string_of_chars(chars.as_slice(), 0, n)
}

} // verus!
