//! Slide patterns and the characters that write them.

use vstd::prelude::*;

verus! {

/// Slide pattern. Mirrors the canonical Simai pattern characters.
#[derive(Debug, Clone, Copy, PartialEq, Eq, Structural)]
pub enum SlidePattern {
    /// `-` Straight line.
    Line,
    /// `^` Short arc (shortest direction).
    Caret,
    /// `<` Clockwise arc.
    Left,
    /// `>` Counter-clockwise arc.
    Right,
    /// `v` V-shape passing through the center.
    LowerV,
    /// `V<reflect>` Reflected V passing through `reflect`.
    BigV,
    /// `s` Lateral S-shape.
    S,
    /// `z` Mirrored S.
    Z,
    /// `p` Lower-half loop (counter-clockwise typically).
    P,
    /// `q` Lower-half loop (other direction).
    Q,
    /// `pp` Wider P.
    PP,
    /// `qq` Wider Q.
    QQ,
    /// `w` Wifi (3-prong fan).
    Wifi,
}

impl SlidePattern {
    /// The Simai text of the pattern.
    pub open spec fn text(self) -> Seq<char> {
        match self {
            SlidePattern::Line => seq!['-'],
            SlidePattern::Caret => seq!['^'],
            SlidePattern::Left => seq!['<'],
            SlidePattern::Right => seq!['>'],
            SlidePattern::LowerV => seq!['v'],
            SlidePattern::BigV => seq!['V'],
            SlidePattern::S => seq!['s'],
            SlidePattern::Z => seq!['z'],
            SlidePattern::P => seq!['p'],
            SlidePattern::Q => seq!['q'],
            SlidePattern::PP => seq!['p', 'p'],
            SlidePattern::QQ => seq!['q', 'q'],
            SlidePattern::Wifi => seq!['w'],
        }
    }

    /// The Simai text of the pattern.
    pub fn as_str(&self) -> (s: &'static str)
        ensures
            s@ == self.text(),
    {
        proof {
            reveal_strlit("-");
            reveal_strlit("^");
            reveal_strlit("<");
            reveal_strlit(">");
            reveal_strlit("v");
            reveal_strlit("V");
            reveal_strlit("s");
            reveal_strlit("z");
            reveal_strlit("p");
            reveal_strlit("q");
            reveal_strlit("pp");
            reveal_strlit("qq");
            reveal_strlit("w");
        }
        match self {
            SlidePattern::Line => "-",
            SlidePattern::Caret => "^",
            SlidePattern::Left => "<",
            SlidePattern::Right => ">",
            SlidePattern::LowerV => "v",
            SlidePattern::BigV => "V",
            SlidePattern::S => "s",
            SlidePattern::Z => "z",
            SlidePattern::P => "p",
            SlidePattern::Q => "q",
            SlidePattern::PP => "pp",
            SlidePattern::QQ => "qq",
            SlidePattern::Wifi => "w",
        }
    }
}

/// The characters that can begin a slide pattern.
pub open spec fn spec_is_slide_pattern_char(c: char) -> bool {
    c == '-' || c == '^' || c == '<' || c == '>' || c == 's' || c == 'z' || c == 'v' || c == 'w'
        || c == 'p' || c == 'q' || c == 'V'
}

/// Returns true if `c` is a valid slide pattern start character.
pub fn is_slide_pattern_char(c: char) -> (r: bool)
    ensures
        r == spec_is_slide_pattern_char(c),
{
    c == '-' || c == '^' || c == '<' || c == '>' || c == 's' || c == 'z' || c == 'v' || c == 'w'
        || c == 'p' || c == 'q' || c == 'V'
}

/// The pattern whose text is `t`, if there is one.
pub open spec fn pattern_of_text(t: Seq<char>) -> Option<SlidePattern> {
    if t == seq!['-'] {
        Some(SlidePattern::Line)
    } else if t == seq!['^'] {
        Some(SlidePattern::Caret)
    } else if t == seq!['<'] {
        Some(SlidePattern::Left)
    } else if t == seq!['>'] {
        Some(SlidePattern::Right)
    } else if t == seq!['v'] {
        Some(SlidePattern::LowerV)
    } else if t == seq!['V'] {
        Some(SlidePattern::BigV)
    } else if t == seq!['s'] {
        Some(SlidePattern::S)
    } else if t == seq!['z'] {
        Some(SlidePattern::Z)
    } else if t == seq!['p'] {
        Some(SlidePattern::P)
    } else if t == seq!['q'] {
        Some(SlidePattern::Q)
    } else if t == seq!['p', 'p'] {
        Some(SlidePattern::PP)
    } else if t == seq!['q', 'q'] {
        Some(SlidePattern::QQ)
    } else if t == seq!['w'] {
        Some(SlidePattern::Wifi)
    } else {
        None
    }
}

proof fn lemma_pattern_of_text(p: SlidePattern)
    ensures
        pattern_of_text(p.text()) == Some(p),
{
    let a = seq!['-'];
    let b = seq!['^'];
    let c = seq!['<'];
    let d = seq!['>'];
    let e = seq!['v'];
    let f = seq!['V'];
    let g = seq!['s'];
    let h = seq!['z'];
    let i = seq!['p'];
    let j = seq!['q'];
    let k = seq!['p', 'p'];
    let l = seq!['q', 'q'];
    let m = seq!['w'];
    let all = seq![a, b, c, d, e, f, g, h, i, j, k, l, m];
    assert forall|x: int, y: int| 0 <= x < y < 13 implies all[x] != all[y] by {
        assert(all[x].len() != all[y].len() || all[x][0] != all[y][0] || all[x][1] != all[y][1]);
    }
    assert(all[0] == a && all[1] == b && all[2] == c && all[3] == d && all[4] == e);
    assert(all[5] == f && all[6] == g && all[7] == h && all[8] == i && all[9] == j);
    assert(all[10] == k && all[11] == l && all[12] == m);
}

/// No two patterns share a text.
pub proof fn lemma_pattern_text_injective(p: SlidePattern, q: SlidePattern)
    requires
        p.text() == q.text(),
    ensures
        p == q,
{
    lemma_pattern_of_text(p);
    lemma_pattern_of_text(q);
}

/// Every pattern's text begins with a slide pattern character.
pub proof fn lemma_pattern_text_starts_pattern(p: SlidePattern)
    ensures
        p.text().len() >= 1,
        spec_is_slide_pattern_char(p.text()[0]),
{
}

} // verus!
