//! Integer helpers for the exporter: greatest common divisor, least common
//! multiple, fraction reduction, and the divisor that fits a set of beat
//! denominators.

use vstd::prelude::*;
use vstd::arithmetic::div_mod::{
    lemma_fundamental_div_mod, lemma_fundamental_div_mod_converse, lemma_mod_multiples_basic,
};

verus! {

/// `d` divides `n` (for a positive `d`).
pub open spec fn divides(d: nat, n: nat) -> bool {
    d > 0 && n % d == 0
}

/// Euclid's greatest common divisor, with `gcd(a, 0) == a`.
pub open spec fn gcd(a: nat, b: nat) -> nat
    decreases b,
{
    if b == 0 {
        a
    } else {
        gcd(b, a % b)
    }
}

/// Least common multiple; zero when either argument is zero.
pub open spec fn lcm(a: nat, b: nat) -> nat {
    if a == 0 || b == 0 {
        0
    } else {
        (a / gcd(a, b)) * b
    }
}

proof fn lemma_divides_sum(g: int, x: int, y: int, k: int)
    requires
        g > 0,
        x % g == 0,
        y % g == 0,
    ensures
        (x * k + y) % g == 0,
{
    lemma_fundamental_div_mod(x, g);
    lemma_fundamental_div_mod(y, g);
    let qx = x / g;
    let qy = y / g;
    assert(x * k + y == (qx * k + qy) * g) by (nonlinear_arith)
        requires
            x == g * qx + 0,
            y == g * qy + 0,
    ;
    lemma_mod_multiples_basic(qx * k + qy, g);
}

/// The greatest common divisor is positive unless both arguments are zero,
/// divides both arguments, and is divided by every common divisor.
pub proof fn lemma_gcd_properties(a: nat, b: nat)
    ensures
        (gcd(a, b) == 0) <==> (a == 0 && b == 0),
        gcd(a, b) > 0 ==> divides(gcd(a, b), a) && divides(gcd(a, b), b),
        forall|d: nat| divides(d, a) && divides(d, b) ==> divides(d, gcd(a, b)),
    decreases b,
{
    if b == 0 {
        assert forall|d: nat| divides(d, a) && divides(d, b) implies divides(d, gcd(a, b)) by {}
        if a > 0 {
            assert(a % a == 0) by {
                lemma_mod_multiples_basic(1, a as int);
            }
        }
    } else {
        let r = a % b;
        lemma_gcd_properties(b, r);
        let g = gcd(a, b);
        assert(g == gcd(b, r));
        lemma_fundamental_div_mod(a as int, b as int);
        let q = (a / b) as int;
        assert(a == b * q + r);
        if g > 0 {
            lemma_divides_sum(g as int, b as int, r as int, q);
            assert((b * q + r) % (g as int) == 0) by (nonlinear_arith)
                requires
                    (b * q + r) % (g as int) == 0,
            ;
        }
        assert forall|d: nat| divides(d, a) && divides(d, b) implies divides(d, gcd(a, b)) by {
            lemma_divides_sum(d as int, a as int, b as int, -q);
            assert(a as int * 1 + b as int * (-q) == r) by (nonlinear_arith)
                requires
                    a == b * q + r,
            ;
            assert((a as int * (-q) + b as int) == b as int + a as int * (-q)) by (nonlinear_arith);
            lemma_divides_sum(d as int, b as int, a as int, -q);
            assert((b as int * (-q) + a as int) == r as int) by (nonlinear_arith)
                requires
                    a == b * q + r,
            ;
        }
    }
}

/// The greatest common divisor of `a` and `b` (`a` when `b` is zero).
pub fn gcd_u32(a: u32, b: u32) -> (g: u32)
    ensures
        g == gcd(a as nat, b as nat),
        (g == 0) <==> (a == 0 && b == 0),
        g > 0 ==> divides(g as nat, a as nat) && divides(g as nat, b as nat),
        forall|d: nat| divides(d, a as nat) && divides(d, b as nat) ==> divides(d, g as nat),
    decreases b,
{
    proof {
        lemma_gcd_properties(a as nat, b as nat);
    }
    if b == 0 {
        a
    } else {
        gcd_u32(b, a % b)
    }
}

/// The least common multiple of two positive numbers is a multiple of both
/// and, times their greatest common divisor, gives their product.
pub proof fn lemma_lcm_properties(a: nat, b: nat)
    requires
        a > 0,
        b > 0,
    ensures
        divides(a, lcm(a, b)),
        divides(b, lcm(a, b)),
        lcm(a, b) * gcd(a, b) == a * b,
        lcm(a, b) > 0,
{
    lemma_gcd_properties(a, b);
    let g = gcd(a, b);
    lemma_fundamental_div_mod(a as int, g as int);
    let qa = (a / g) as int;
    assert(a == g * qa);
    assert(qa > 0) by (nonlinear_arith)
        requires
            a == g * qa,
            a > 0,
            g > 0,
    ;
    assert(lcm(a, b) == qa * b);
    lemma_mod_multiples_basic(qa, b as int);
    assert((qa * b) % (b as int) == 0);
    lemma_mod_multiples_basic(b as int, a as int);
    // qa * b = a * (b / g)
    lemma_fundamental_div_mod(b as int, g as int);
    let qb = (b / g) as int;
    assert(b == g * qb);
    assert(qa * b == qb * a) by (nonlinear_arith)
        requires
            a == g * qa,
            b == g * qb,
    ;
    lemma_mod_multiples_basic(qb, a as int);
    assert(qa * b * g == a * b) by (nonlinear_arith)
        requires
            a == g * qa,
    ;
    assert(qa * b > 0) by (nonlinear_arith)
        requires
            qa > 0,
            b > 0,
    ;
}

proof fn lemma_mod_scaled(k: nat, x: nat, y: nat)
    requires
        k > 0,
        y > 0,
    ensures
        (k * x) % (k * y) == k * (x % y),
{
    lemma_fundamental_div_mod(x as int, y as int);
    let q = x as int / y as int;
    let r = x as int % y as int;
    assert(0 <= r < y);
    assert(k * x == q * (k * y) + k * r) by (nonlinear_arith)
        requires
            x == y * q + r,
    ;
    assert(0 <= k * r < k * y) by (nonlinear_arith)
        requires
            0 <= r < y,
            k > 0,
    ;
    lemma_fundamental_div_mod_converse((k * x) as int, (k * y) as int, q, k * r);
}

proof fn lemma_gcd_scaled(k: nat, x: nat, y: nat)
    requires
        k > 0,
    ensures
        gcd(k * x, k * y) == k * gcd(x, y),
    decreases y,
{
    if y == 0 {
        assert(k * y == 0) by (nonlinear_arith)
            requires
                y == 0,
        ;
    } else {
        assert(k * y > 0) by (nonlinear_arith)
            requires
                k > 0,
                y > 0,
        ;
        lemma_mod_scaled(k, x, y);
        lemma_gcd_scaled(k, y, x % y);
        assert(gcd(k * x, k * y) == gcd(k * y, (k * x) % (k * y)));
    }
}

/// The least common multiple of two positive numbers divides each of their
/// common multiples, and is at most each positive one.
pub proof fn lemma_lcm_least(a: nat, b: nat, m: nat)
    requires
        a > 0,
        b > 0,
        divides(a, m),
        divides(b, m),
    ensures
        divides(lcm(a, b), m),
        m > 0 ==> lcm(a, b) <= m,
{
    lemma_lcm_properties(a, b);
    lemma_gcd_properties(a, b);
    let l = lcm(a, b);
    let g = gcd(a, b);
    if m == 0 {
        assert(0nat % l == 0);
    } else {
        lemma_fundamental_div_mod(m as int, a as int);
        lemma_fundamental_div_mod(m as int, b as int);
        let s = m as int / a as int;
        let t = m as int / b as int;
        let ab = a * b;
        assert(ab > 0) by (nonlinear_arith)
            requires
                ab == a * b,
                a > 0,
                b > 0,
        ;
        assert(m * a == t * ab && m * b == s * ab) by (nonlinear_arith)
            requires
                m == a * s + 0,
                m == b * t + 0,
                ab == a * b,
        ;
        assert(s >= 0 && t >= 0) by (nonlinear_arith)
            requires
                m == a * s,
                m == b * t,
                a > 0,
                b > 0,
                m > 0,
        ;
        lemma_mod_multiples_basic(t, ab as int);
        lemma_mod_multiples_basic(s, ab as int);
        assert(divides(ab, m * a));
        assert(divides(ab, m * b));
        lemma_gcd_properties(m * a, m * b);
        lemma_gcd_scaled(m, a, b);
        assert(divides(ab, m * g));
        lemma_fundamental_div_mod((m * g) as int, ab as int);
        let c = (m * g) as int / ab as int;
        assert(m * g == ab * c);
        assert(l * c == m) by (nonlinear_arith)
            requires
                m * g == ab * c,
                l * g == ab,
                g > 0,
        ;
        assert(c >= 1) by (nonlinear_arith)
            requires
                l * c == m,
                l > 0,
                m > 0,
        ;
        lemma_mod_multiples_basic(c, l as int);
        assert(l <= m) by (nonlinear_arith)
            requires
                l * c == m,
                c >= 1,
                l > 0,
        ;
    }
}

/// Least common multiple; zero when either argument is zero.
pub fn lcm_u32(a: u32, b: u32) -> (l: u32)
    requires
        lcm(a as nat, b as nat) <= u32::MAX,
    ensures
        l == lcm(a as nat, b as nat),
        a > 0 && b > 0 ==> divides(a as nat, l as nat) && divides(b as nat, l as nat),
        a > 0 && b > 0 ==> forall|m: nat|
            divides(a as nat, m) && divides(b as nat, m) ==> divides(l as nat, m) && (m > 0 ==> l
                <= m),
{
    if a > 0 && b > 0 {
        assert forall|m: nat| divides(a as nat, m) && divides(b as nat, m) implies divides(
            lcm(a as nat, b as nat),
            m,
        ) && (m > 0 ==> lcm(a as nat, b as nat) <= m) by {
            lemma_lcm_least(a as nat, b as nat, m);
        }
    }
    if a == 0 || b == 0 {
        0
    } else {
        proof {
            lemma_lcm_properties(a as nat, b as nat);
        }
        let g = gcd_u32(a, b);
        a / g * b
    }
}

/// A fraction `num / den` in lowest terms: both divided by
/// `gcd(den, max(num, 1))` (or by one when that is zero).
pub open spec fn reduced(den: nat, num: nat) -> (nat, nat) {
    let g = gcd(den, if num == 0 { 1 } else { num });
    let d = if g == 0 { 1 } else { g };
    (den / d, num / d)
}

/// Divides `den` and `num` by `gcd(den, max(num, 1))`.
pub fn reduce_fraction(den: u32, num: u32) -> (r: (u32, u32))
    ensures
        r.0 == reduced(den as nat, num as nat).0,
        r.1 == reduced(den as nat, num as nat).1,
{
    let n1 = if num == 0 { 1 } else { num };
    let g = gcd_u32(den, n1);
    let d = if g == 0 { 1 } else { g };
    (den / d, num / d)
}

/// Reducing keeps the value of a fraction with a positive denominator.
pub proof fn lemma_reduced_same_ratio(den: nat, num: nat)
    requires
        den > 0,
    ensures
        reduced(den, num).0 * num == reduced(den, num).1 * den,
        reduced(den, num).0 > 0,
{
    let n1: nat = if num == 0 { 1 } else { num };
    lemma_gcd_properties(den, n1);
    let g = gcd(den, n1);
    assert(g > 0);
    lemma_fundamental_div_mod(den as int, g as int);
    let qd = (den / g) as int;
    assert(den == g * qd);
    if num == 0 {
        assert(reduced(den, num).1 == 0);
        assert(reduced(den, num).0 * num == 0) by (nonlinear_arith)
            requires
                num == 0,
        ;
    } else {
        lemma_fundamental_div_mod(num as int, g as int);
        let qn = (num / g) as int;
        assert(num == g * qn);
        assert(qd * num == qn * den) by (nonlinear_arith)
            requires
                den == g * qd,
                num == g * qn,
        ;
    }
    assert(qd > 0) by (nonlinear_arith)
        requires
            den == g * qd,
            den > 0,
            g > 0,
    ;
}

/// The running least common multiple of `dens`, from 1, or `None` as soon
/// as it passes 64.
pub open spec fn lcm_fold(dens: Seq<u32>) -> Option<nat>
    decreases dens.len(),
{
    if dens.len() == 0 {
        Some(1)
    } else {
        match lcm_fold(dens.drop_last()) {
            None => None,
            Some(l) => {
                let l2 = lcm(l, dens.last() as nat);
                if l2 > 64 {
                    None
                } else {
                    Some(l2)
                }
            },
        }
    }
}

/// `d` divides `m` and `m` divides `n`: `d` divides `n`.
proof fn lemma_divides_trans(d: nat, m: nat, n: nat)
    requires
        divides(d, m),
        divides(m, n),
    ensures
        divides(d, n),
{
    lemma_fundamental_div_mod(m as int, d as int);
    lemma_fundamental_div_mod(n as int, m as int);
    let a = m as int / d as int;
    let c = n as int / m as int;
    assert(n == d * (a * c)) by (nonlinear_arith)
        requires
            m == d * a + 0,
            n == m * c + 0,
    ;
    lemma_mod_multiples_basic(a * c, d as int);
}

/// The running least common multiple stays within 64 while it is defined.
proof fn lemma_lcm_fold_bound(dens: Seq<u32>)
    ensures
        lcm_fold(dens) matches Some(v) ==> v <= 64 || dens.len() == 0,
        dens.len() == 0 ==> lcm_fold(dens) == Some(1nat),
    decreases dens.len(),
{
    if dens.len() > 0 {
        lemma_lcm_fold_bound(dens.drop_last());
    }
}

/// When the running least common multiple of positive denominators stays
/// defined, it is positive and every denominator divides it.
proof fn lemma_lcm_fold_common_multiple(dens: Seq<u32>)
    requires
        forall|k: int| 0 <= k < dens.len() ==> 0 < #[trigger] dens[k],
    ensures
        lcm_fold(dens) matches Some(v) ==> v >= 1 && forall|k: int|
            0 <= k < dens.len() ==> divides(#[trigger] dens[k] as nat, v),
    decreases dens.len(),
{
    if dens.len() > 0 {
        let init = dens.drop_last();
        lemma_lcm_fold_common_multiple(init);
        if let Some(l) = lcm_fold(init) {
            let d = dens.last() as nat;
            lemma_lcm_properties(l, d);
            let l2 = lcm(l, d);
            assert forall|k: int| 0 <= k < dens.len() implies divides(#[trigger] dens[k] as nat, l2) by {
                if k < dens.len() - 1 {
                    assert(dens[k] == init[k]);
                    lemma_divides_trans(dens[k] as nat, l, l2);
                }
            }
        }
    }
}

/// Every step of the running least common multiple of `dens` fits in a `u32`.
pub open spec fn lcm_steps_fit(dens: Seq<u32>) -> bool {
    forall|k: int|
        0 <= k < dens.len() ==> (#[trigger] lcm_fold(dens.take(k)) matches Some(l) ==> lcm(
            l,
            dens[k] as nat,
        ) <= u32::MAX)
}

/// The least common multiple of the denominators in `dens` (starting from
/// 1), or `None` as soon as the running value passes 64. When every
/// denominator is positive, the divisor places every one of them on a beat.
pub fn divisor_for_denominators(dens: &[u32]) -> (r: Option<u32>)
    requires
        lcm_steps_fit(dens@),
    ensures
        match r {
            Some(v) => lcm_fold(dens@) == Some(v as nat),
            None => lcm_fold(dens@) is None,
        },
        r matches Some(v) ==> v <= 64,
        r matches Some(v) ==> (forall|k: int| 0 <= k < dens@.len() ==> 0 < #[trigger] dens@[k])
            ==> 1 <= v && forall|k: int|
            0 <= k < dens@.len() ==> divides(#[trigger] dens@[k] as nat, v as nat),
{
    proof {
        lemma_lcm_fold_bound(dens@);
        if forall|k: int| 0 <= k < dens@.len() ==> 0 < #[trigger] dens@[k] {
            lemma_lcm_fold_common_multiple(dens@);
        }
    }
    let mut current: u32 = 1;
    let mut k: usize = 0;
    assert(dens@.take(0) =~= seq![]);
    while k < dens.len()
        invariant
            k <= dens@.len(),
            lcm_steps_fit(dens@),
            current <= 64,
            lcm_fold(dens@.take(k as int)) == Some(current as nat),
        decreases dens@.len() - k,
    {
        let d = dens[k];
        proof {
            assert(dens@.take(k + 1).drop_last() =~= dens@.take(k as int));
            assert(lcm_fold(dens@.take(k as int)) matches Some(l) ==> lcm(l, dens@[k as int] as nat) <= u32::MAX);
        }
        current = lcm_u32(current, d);
        k = k + 1;
        if current > 64 {
            proof {
                lemma_lcm_fold_stops(dens@, k as int);
            }
            return None;
        }
    }
    assert(dens@.take(k as int) =~= dens@);
    Some(current)
}

proof fn lemma_lcm_fold_stops(dens: Seq<u32>, k: int)
    requires
        0 <= k <= dens.len(),
        lcm_fold(dens.take(k)) is None,
    ensures
        lcm_fold(dens) is None,
    decreases dens.len() - k,
{
    if k < dens.len() {
        assert(dens.take(k + 1).drop_last() =~= dens.take(k));
        lemma_lcm_fold_stops(dens, k + 1);
    } else {
        assert(dens.take(k) =~= dens);
    }
}

} // verus!
