use shamir_sharing::field::Field;
use shamir_sharing::field_instance::{extended_euclid, G1613, P};

#[test]
fn test_euclid() {
    let (gcd, x, y) = extended_euclid(1914, 899);
    assert_eq!(gcd, 29);
    assert_eq!(x, 8);
    assert_eq!(y, -17);

    let (_, x, y) = extended_euclid(123211, 1432);
    assert_eq!(x, 267);
    assert_eq!(y, -22973);
}

#[test]
fn test_to_pow() {
    let g = G1613(325);
    assert_eq!(g.to_pow(177).0, 84);
    let g = G1613(1115);
    assert_eq!(g.to_pow(127).0, 497);
}

#[test]
fn test_inverse() {
    let g1_ = G1613(190);
    let g2_ = G1613(820);
    assert_eq!(g1_.inverse().unwrap().0, 1214);
    assert_eq!(g2_.inverse().unwrap().0, 478);
}

#[test]
fn test_add() {
    let g1 = G1613(192);
    let g2 = G1613(851);
    let g3 = G1613(1600);
    let g4 = G1613(1227);
    assert_eq!(g2.add(&g3).0, (851 + 1600) % P);
    assert_eq!(g3.add(&g4).0, (1600 + 1227) % P);
    assert_eq!(g1.add(&g2).0, (192 + 851));
}

#[test]
fn test_subtract() {
    let g2 = G1613(851);
    let g3 = G1613(1600);
    assert_eq!(g3.subtract(&g2).0, 1600 - 851);
    assert_eq!(g2.subtract(&g3).0, 864)
}

#[test]
fn test_multiply() {
    let g1 = G1613(192);
    let g2 = G1613(851);
    let g3 = G1613(1600);
    let g4 = G1613(1227);
    assert_eq!(g3.multiply(&g4).0, 179);
    assert_eq!(g1.multiply(&g2).0, 479)
}

#[test]
fn euclid_second_case_satisfies_bezout() {
    let (gcd, x, y) = extended_euclid(123211, 1432);
    assert_eq!(gcd, 1);
    assert_eq!(123211 * x + 1432 * y, gcd);
}

#[test]
fn euclid_with_zero_dividend() {
    assert_eq!(extended_euclid(0, 5), (5, 0, 1));
    assert_eq!(extended_euclid(0, -5), (-5, 0, 1));
}

#[test]
fn euclid_with_divisor_larger_than_dividend() {
    // 899 = 0 * 1914 + 899, then as for (1914, 899)
    let (gcd, x, y) = extended_euclid(899, 1914);
    assert_eq!((gcd, x, y), (29, -17, 8));
    assert_eq!(899 * x + 1914 * y, 29);
}

#[test]
fn euclid_rounds_quotients_toward_zero() {
    assert_eq!(extended_euclid(-6, 4), (-2, 1, 1));
    assert_eq!(extended_euclid(6, -4), (2, 1, 1));
    assert_eq!(extended_euclid(-6, -4), (-2, 1, -1));
    assert_eq!(extended_euclid(7, 7), (7, 0, 1));
}

#[test]
fn euclid_at_the_edges_of_the_range() {
    assert_eq!(extended_euclid(i32::MIN, 1), (1, 0, 1));
    assert_eq!(extended_euclid(1, i32::MIN), (1, 1, 0));
    assert_eq!(extended_euclid(i32::MIN, i32::MAX), (-1, 1, 1));
    let (g, x, y) = extended_euclid(i32::MAX, i32::MIN);
    assert_eq!(
        (i32::MAX as i64) * (x as i64) + (i32::MIN as i64) * (y as i64),
        g as i64
    );
    assert_eq!(g.abs(), 1);
}

#[test]
fn euclid_result_divides_both_inputs() {
    let inputs = [(1914, 899), (12, 18), (-48, 36), (1000, -35), (17, 1613), (1613, 1612)];
    for (a, b) in inputs {
        let (g, x, y) = extended_euclid(a, b);
        assert_ne!(g, 0);
        assert_eq!(a % g, 0);
        assert_eq!(b % g, 0);
        assert_eq!(a * x + b * y, g);
    }
}

#[test]
fn new_reduces_modulo_the_order() {
    assert_eq!(G1613::new(0).0, 0);
    assert_eq!(G1613::new(1182).0, 1182);
    assert_eq!(G1613::new(1612).0, 1612);
    assert_eq!(G1613::new(1613).0, 0);
    assert_eq!(G1613::new(1614).0, 1);
    assert_eq!(G1613::new(u32::MAX).0, u32::MAX % 1613);
}

#[test]
fn zero_and_one() {
    assert_eq!(G1613::zero().0, 0);
    assert_eq!(G1613::one().0, 1);
    assert_ne!(G1613::zero(), G1613::one());
}

#[test]
fn inverse_of_zero_is_absent() {
    assert_eq!(G1613(0).inverse(), None);
    assert_eq!(G1613::zero().inverse(), None);
}

#[test]
fn every_nonzero_element_times_its_inverse_is_one() {
    for v in 1..P {
        let a = G1613(v);
        let inv = a.inverse().unwrap();
        assert!(inv.0 < P);
        assert_eq!(a.multiply(&inv), G1613::one());
    }
}

#[test]
fn negative_is_the_additive_inverse() {
    assert_eq!(G1613(0).negative().0, 0);
    assert_eq!(G1613(1).negative().0, 1612);
    assert_eq!(G1613(1600).negative().0, 13);
    for v in 0..P {
        let a = G1613(v);
        assert_eq!(a.add(&a.negative()), G1613::zero());
    }
}

#[test]
fn subtracting_an_element_from_itself_is_zero() {
    for v in 0..P {
        let a = G1613(v);
        assert_eq!(a.subtract(&a), G1613::zero());
    }
}

#[test]
fn subtract_is_add_of_negative() {
    let values = [0, 1, 2, 192, 851, 1227, 1600, 1612];
    for a in values {
        for b in values {
            let (a, b) = (G1613(a), G1613(b));
            assert_eq!(a.subtract(&b), a.add(&b.negative()));
            assert_eq!(a.subtract(&b).add(&b), a);
        }
    }
}

#[test]
fn addition_and_multiplication_are_commutative_and_associative() {
    let values = [0, 1, 2, 29, 192, 851, 1227, 1600, 1612];
    for a in values {
        for b in values {
            let (x, y) = (G1613(a), G1613(b));
            assert_eq!(x.add(&y), y.add(&x));
            assert_eq!(x.multiply(&y), y.multiply(&x));
            for c in values {
                let z = G1613(c);
                assert_eq!(x.add(&y.add(&z)), x.add(&y).add(&z));
                assert_eq!(x.multiply(&y.multiply(&z)), x.multiply(&y).multiply(&z));
                assert_eq!(x.multiply(&y.add(&z)), x.multiply(&y).add(&x.multiply(&z)));
            }
        }
    }
}

#[test]
fn identities_are_neutral() {
    for v in 0..P {
        let a = G1613(v);
        assert_eq!(a.add(&G1613::zero()), a);
        assert_eq!(a.multiply(&G1613::one()), a);
    }
}

#[test]
fn powers_follow_the_exponent_rules() {
    let values = [0, 1, 2, 325, 1115, 1612];
    for v in values {
        let a = G1613(v);
        assert_eq!(a.to_pow(0), G1613::one());
        assert_eq!(a.to_pow(1), a);
        assert_eq!(a.to_pow(2), a.multiply(&a));
        for m in [0u32, 1, 5, 176, 1000] {
            for n in [0u32, 1, 7, 127, 100000] {
                assert_eq!(a.to_pow(m + n), a.to_pow(m).multiply(&a.to_pow(n)));
            }
        }
    }
}

#[test]
fn power_with_concrete_values() {
    assert_eq!(G1613(2).to_pow(10).0, 1024);
    assert_eq!(G1613(2).to_pow(11).0, 2048 - 1613);
    assert_eq!(G1613(0).to_pow(0).0, 1);
    assert_eq!(G1613(0).to_pow(5).0, 0);
    // Fermat: a^(p - 1) = 1
    assert_eq!(G1613(325).to_pow(1612).0, 1);
    assert_eq!(G1613(7).to_pow(u32::MAX), G1613(7).to_pow(u32::MAX % 1612));
}

#[test]
fn scalar_multiples_are_repeated_sums() {
    assert_eq!(G1613(5).mul_by_scalar(0).0, 0);
    assert_eq!(G1613(5).mul_by_scalar(3).0, 15);
    assert_eq!(G1613(1600).mul_by_scalar(2).0, 3200 - 1613);
    assert_eq!(G1613(1).mul_by_scalar(1613).0, 0);
    assert_eq!(G1613(1).mul_by_scalar(1614).0, 1);
    let a = G1613(851);
    let mut sum = G1613::zero();
    for s in 0..50u32 {
        assert_eq!(a.mul_by_scalar(s), sum);
        sum = sum.add(&a);
    }
}

#[test]
fn scalar_multiple_with_the_largest_scalar() {
    let expected = ((1612u64 * u32::MAX as u64) % 1613) as u32;
    assert_eq!(G1613(1612).mul_by_scalar(u32::MAX).0, expected);
    assert_eq!(expected, 65);
}

#[test]
fn equals_compares_representatives() {
    assert!(G1613(5).equals(&G1613(5)));
    assert!(!G1613(5).equals(&G1613(6)));
    assert_eq!(G1613(5), G1613::new(5 + 1613));
}
