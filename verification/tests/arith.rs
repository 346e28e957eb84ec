use maisimai::arith::{divisor_for_denominators, gcd_u32, lcm_u32, reduce_fraction};

#[test]
fn gcd_values() {
    assert_eq!(gcd_u32(12, 18), 6);
    assert_eq!(gcd_u32(18, 12), 6);
    assert_eq!(gcd_u32(7, 0), 7);
    assert_eq!(gcd_u32(0, 7), 7);
    assert_eq!(gcd_u32(0, 0), 0);
    assert_eq!(gcd_u32(17, 5), 1);
    assert_eq!(gcd_u32(u32::MAX, 3), 3);
}

#[test]
fn lcm_values() {
    assert_eq!(lcm_u32(4, 6), 12);
    assert_eq!(lcm_u32(8, 3), 24);
    assert_eq!(lcm_u32(16, 16), 16);
    assert_eq!(lcm_u32(0, 5), 0);
    assert_eq!(lcm_u32(5, 0), 0);
    assert_eq!(lcm_u32(1, 64), 64);
}

#[test]
fn lcm_times_gcd_is_product() {
    for (a, b) in [(4u32, 6u32), (9, 12), (7, 13), (64, 48), (1, 1)] {
        assert_eq!(lcm_u32(a, b) as u64 * gcd_u32(a, b) as u64, a as u64 * b as u64);
    }
}

#[test]
fn fractions_reduce() {
    assert_eq!(reduce_fraction(8, 4), (2, 1));
    assert_eq!(reduce_fraction(12, 9), (4, 3));
    assert_eq!(reduce_fraction(7, 0), (7, 0));
    assert_eq!(reduce_fraction(5, 3), (5, 3));
    assert_eq!(reduce_fraction(0, 5), (0, 1));
    assert_eq!(reduce_fraction(0, 0), (0, 0));
}

#[test]
fn divisors_for_beats() {
    assert_eq!(divisor_for_denominators(&[]), Some(1));
    assert_eq!(divisor_for_denominators(&[1, 4, 2]), Some(4));
    assert_eq!(divisor_for_denominators(&[4, 3]), Some(12));
    assert_eq!(divisor_for_denominators(&[16, 48]), Some(48));
    assert_eq!(divisor_for_denominators(&[5, 13]), None);
    assert_eq!(divisor_for_denominators(&[64, 1]), Some(64));
    assert_eq!(divisor_for_denominators(&[65]), None);
    // the fold stops as soon as it passes 64, even if later values would fit
    assert_eq!(divisor_for_denominators(&[128, 1]), None);
    // a zero denominator makes the running value zero
    assert_eq!(divisor_for_denominators(&[0, 3]), Some(0));
    assert_eq!(divisor_for_denominators(&[u32::MAX]), None);
}

#[test]
fn divisor_is_a_common_multiple() {
    let dens = [2u32, 3, 8];
    let v = divisor_for_denominators(&dens).unwrap();
    assert_eq!(v, 24);
    for d in dens {
        assert_eq!(v % d, 0);
    }
}

#[test]
fn lcm_divides_every_common_multiple() {
    for (a, b) in [(4u32, 6u32), (3, 8), (12, 18), (7, 7)] {
        let l = lcm_u32(a, b);
        for m in 1..=200u32 {
            if m % a == 0 && m % b == 0 {
                assert_eq!(m % l, 0);
                assert!(l <= m);
            }
        }
    }
}
