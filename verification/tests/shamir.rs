use rand::{SeedableRng, StdRng};
use shamir_sharing::field::Field;
use shamir_sharing::field_instance::{G1613, P};
use shamir_sharing::shamir::{
    accept_if_new, after_draw, contains_element, reveal_secret, Secret, SecretShare, ShareError,
    MAX_DRAWS_PER_COEFFICIENT,
};

fn seeded(seed: usize) -> StdRng {
    let words: &[usize] = &[seed, 1613, 0x5eed];
    SeedableRng::from_seed(words)
}

fn elements(values: &[u32]) -> Vec<G1613> {
    values.iter().map(|v| G1613(*v)).collect()
}

fn horner(secret: u32, coefficients: &[u32], x: u32) -> u32 {
    let mut value: u64 = 0;
    for c in coefficients.iter().rev() {
        value = (value * x as u64 + *c as u64) % 1613;
    }
    ((value * x as u64 + secret as u64) % 1613) as u32
}

#[test]
fn test_share_and_reveal() {
    // Four shares of a polynomial with five coefficients miss the secret
    // unless the leading coefficient happens to be zero, which a draw does
    // about once in 1613 times: the last check counts instead of insisting.
    let mut differing = 0;
    for _ in 0..100 {
        let mut rng = StdRng::new().unwrap();
        let secret = G1613::new(1182);
        let secret = Secret(secret);

        let shares = secret.generate_shares(5, 10, &mut rng).unwrap();
        let revealed = reveal_secret(shares[0..5].to_vec()).unwrap();
        assert_eq!(revealed.0, secret.0);
        let revealed = reveal_secret(shares[5..10].to_vec()).unwrap();
        assert_eq!(revealed.0, secret.0);
        let revealed = reveal_secret(shares[1..8].to_vec()).unwrap();
        assert_eq!(revealed.0, secret.0);
        let fail_reveal = reveal_secret(shares[2..6].to_vec()).unwrap();
        if fail_reveal.0 != secret.0 {
            differing += 1;
        }
    }
    assert!(differing >= 90, "only {} of 100 trials differed", differing);
}

#[test]
fn too_few_shares_miss_the_secret_exactly_when_the_top_coefficient_is_nonzero() {
    let secret = Secret(G1613(1182));
    let shares = secret.shares_from_coefficients(&elements(&[3, 1, 4, 15]), 10);
    let revealed = reveal_secret(shares[2..6].to_vec()).unwrap();
    assert_ne!(revealed.0, secret.0);
    // f(0) - g(0) = c4 * x1 x2 x3 x4 for the interpolant g through four points
    let expected = (1182 + 1613 - (15 * 3 * 4 * 5 * 6) % 1613) % 1613;
    assert_eq!(revealed.0 .0, expected);

    let shares = secret.shares_from_coefficients(&elements(&[3, 1, 4, 0]), 10);
    let revealed = reveal_secret(shares[2..6].to_vec()).unwrap();
    assert_eq!(revealed.0, secret.0);
}

#[test]
fn shares_are_the_values_of_the_polynomial() {
    // f(x) = 5 + 3 x + 2 x^2
    let secret = Secret(G1613(5));
    let shares = secret.shares_from_coefficients(&elements(&[3, 2]), 4);
    let pairs: Vec<(u32, u32)> = shares.iter().map(|s| (s.index.0, s.share.0)).collect();
    assert_eq!(pairs, vec![(1, 10), (2, 19), (3, 32), (4, 49)]);
}

#[test]
fn shares_wrap_around_the_modulus() {
    // f(x) = 1600 + 1000 x + 1612 x^3
    let secret = Secret(G1613(1600));
    let shares = secret.shares_from_coefficients(&elements(&[1000, 0, 1612]), 6);
    assert_eq!(shares.len(), 6);
    for (i, s) in shares.iter().enumerate() {
        let x = i as u32 + 1;
        assert_eq!(s.index.0, x);
        assert_eq!(s.share.0, horner(1600, &[1000, 0, 1612], x));
    }
    assert_eq!(shares[0].share.0, (1600 + 1000 + 1612) % 1613);
}

#[test]
fn threshold_one_hands_the_secret_to_everyone() {
    let mut rng = seeded(1);
    let secret = Secret(G1613(77));
    let shares = secret.generate_shares(1, 5, &mut rng).unwrap();
    assert_eq!(shares.len(), 5);
    for (i, s) in shares.iter().enumerate() {
        assert_eq!(s.index.0, i as u32 + 1);
        assert_eq!(s.share.0, 77);
        assert_eq!(reveal_secret(vec![*s]).unwrap().0, secret.0);
    }
}

#[test]
fn no_shares_when_no_participants() {
    let mut rng = seeded(2);
    let secret = Secret(G1613(77));
    assert_eq!(secret.generate_shares(3, 0, &mut rng).unwrap().len(), 0);
    assert_eq!(secret.shares_from_coefficients(&elements(&[1, 2]), 0).len(), 0);
}

#[test]
fn generated_shares_lie_on_one_polynomial_with_distinct_coefficients() {
    for seed in 0..20 {
        let mut rng = seeded(seed);
        let secret = Secret(G1613(1182));
        let k = 6;
        let shares = secret.generate_shares(k, 12, &mut rng).unwrap();
        assert_eq!(shares.len(), 12);
        for (i, s) in shares.iter().enumerate() {
            assert_eq!(s.index.0, i as u32 + 1);
            assert!(s.share.0 < P);
        }
        // any k shares fix the polynomial: all other shares must agree with it
        let mut replay = seeded(seed);
        let mut coefficients: Vec<G1613> = Vec::new();
        while coefficients.len() < (k - 1) as usize {
            let c = G1613::rand(&mut replay);
            if !coefficients.contains(&c) {
                coefficients.push(c);
            }
        }
        for i in 0..coefficients.len() {
            for j in 0..i {
                assert_ne!(coefficients[i], coefficients[j]);
            }
        }
        let again = secret.shares_from_coefficients(&coefficients, 12);
        for (s, t) in shares.iter().zip(again.iter()) {
            assert_eq!((s.index, s.share), (t.index, t.share));
        }
    }
}

#[test]
fn same_seed_gives_same_shares() {
    let secret = Secret(G1613(42));
    let first = secret.generate_shares(4, 8, &mut seeded(9)).unwrap();
    let second = secret.generate_shares(4, 8, &mut seeded(9)).unwrap();
    let other = secret.generate_shares(4, 8, &mut seeded(10)).unwrap();
    let values = |shares: &Vec<SecretShare<G1613>>| -> Vec<u32> {
        shares.iter().map(|s| s.share.0).collect()
    };
    assert_eq!(values(&first), values(&second));
    assert_ne!(values(&first), values(&other));
}

#[test]
fn any_selection_of_threshold_many_shares_reveals_the_secret() {
    let mut rng = seeded(3);
    let secret = Secret(G1613(1182));
    let shares = secret.generate_shares(3, 6, &mut rng).unwrap();
    for a in 0..6 {
        for b in 0..6 {
            for c in 0..6 {
                if a == b || a == c || b == c {
                    continue;
                }
                let chosen = vec![shares[a], shares[b], shares[c]];
                assert_eq!(reveal_secret(chosen).unwrap().0, secret.0);
            }
        }
    }
    let all: Vec<SecretShare<G1613>> = shares.iter().rev().cloned().collect();
    assert_eq!(reveal_secret(all).unwrap().0, secret.0);
}

#[test]
fn different_qualified_subsets_agree() {
    let mut rng = seeded(4);
    let secret = Secret(G1613(7));
    let shares = secret.generate_shares(4, 9, &mut rng).unwrap();
    let first = reveal_secret(shares[0..4].to_vec()).unwrap();
    let second = reveal_secret(shares[3..9].to_vec()).unwrap();
    let third = reveal_secret(vec![shares[8], shares[0], shares[5], shares[2]]).unwrap();
    assert_eq!(first.0, second.0);
    assert_eq!(second.0, third.0);
    assert_eq!(first.0, secret.0);
}

#[test]
fn the_largest_group_without_colliding_indices() {
    let secret = Secret(G1613(1182));
    let shares = secret.shares_from_coefficients(&elements(&[11, 22]), 1612);
    for (i, s) in shares.iter().enumerate() {
        assert_eq!(s.index.0, i as u32 + 1);
    }
    let chosen = vec![shares[1611], shares[0], shares[800]];
    assert_eq!(reveal_secret(chosen).unwrap().0, secret.0);
}

#[test]
fn indices_that_agree_modulo_the_order_are_duplicates() {
    let secret = Secret(G1613(1182));
    let shares = secret.shares_from_coefficients(&elements(&[11]), 3);
    let again = SecretShare {
        index: G1613::new(1614),
        share: shares[0].share,
    };
    assert_eq!(again.index, shares[0].index);
    assert_eq!(
        reveal_secret(vec![shares[0], again]).unwrap_err(),
        ShareError::DuplicateOrZeroShareIndex
    );
}

#[test]
fn no_share_is_handed_out_at_index_zero() {
    let mut rng = seeded(11);
    let secret = Secret(G1613(1182));
    let shares = secret.generate_shares(3, 1612, &mut rng).unwrap();
    assert_eq!(shares.len(), 1612);
    let mut seen = std::collections::BTreeSet::new();
    for s in shares.iter() {
        assert_ne!(s.index, G1613::zero());
        assert!(seen.insert(s.index.0));
    }
}

#[test]
fn duplicate_indices_are_reported() {
    let a = SecretShare {
        index: G1613(3),
        share: G1613(10),
    };
    let b = SecretShare {
        index: G1613(4),
        share: G1613(20),
    };
    let c = SecretShare {
        index: G1613(3),
        share: G1613(30),
    };
    assert_eq!(
        reveal_secret(vec![a, b, c]).unwrap_err(),
        ShareError::DuplicateOrZeroShareIndex
    );
    assert_eq!(
        reveal_secret(vec![b, a, a]).unwrap_err(),
        ShareError::DuplicateOrZeroShareIndex
    );
    let zero = SecretShare {
        index: G1613(0),
        share: G1613(5),
    };
    assert_eq!(
        reveal_secret(vec![zero, zero]).unwrap_err(),
        ShareError::DuplicateOrZeroShareIndex
    );
    assert!(reveal_secret(vec![a, b]).is_ok());
}

#[test]
fn interpolation_with_concrete_values() {
    // the line through (1, 10) and (2, 13) meets zero at 7
    let a = SecretShare {
        index: G1613(1),
        share: G1613(10),
    };
    let b = SecretShare {
        index: G1613(2),
        share: G1613(13),
    };
    assert_eq!(reveal_secret(vec![a, b]).unwrap().0 .0, 7);
    assert_eq!(reveal_secret(vec![b, a]).unwrap().0 .0, 7);
    // a single share is taken as a constant
    assert_eq!(reveal_secret(vec![b]).unwrap().0 .0, 13);
    // the parabola 5 + 3 x + 2 x^2 through x = 2, 5, 9
    let points: Vec<SecretShare<G1613>> = [2u32, 5, 9]
        .iter()
        .map(|x| SecretShare {
            index: G1613(*x),
            share: G1613((5 + 3 * x + 2 * x * x) % 1613),
        })
        .collect();
    assert_eq!(reveal_secret(points).unwrap().0 .0, 5);
}

#[test]
fn no_shares_interpolate_to_zero() {
    let none: Vec<SecretShare<G1613>> = Vec::new();
    assert_eq!(reveal_secret(none).unwrap().0, G1613::zero());
}

#[test]
fn a_share_at_index_zero_carries_the_value_at_zero() {
    let zero = SecretShare {
        index: G1613(0),
        share: G1613(99),
    };
    let other = SecretShare {
        index: G1613(5),
        share: G1613(1),
    };
    assert_eq!(reveal_secret(vec![zero, other]).unwrap().0 .0, 99);
}

#[test]
fn a_field_too_small_for_the_threshold_is_reported() {
    // 1614 pairwise distinct coefficients do not exist among 1613 elements
    let mut rng = seeded(5);
    let secret = Secret(G1613(1));
    assert_eq!(
        secret.generate_shares(1615, 1, &mut rng).unwrap_err(),
        ShareError::InsufficientDistinctCoefficients
    );
    assert_eq!(MAX_DRAWS_PER_COEFFICIENT, 65536);
}

#[test]
fn the_whole_field_can_still_be_drawn() {
    let mut rng = seeded(6);
    let secret = Secret(G1613(1));
    let shares = secret.generate_shares(1614, 2, &mut rng).unwrap();
    assert_eq!(shares.len(), 2);
    // the coefficients c1..c1613 are all field elements once each, so
    // f(1) = 1 + (0 + 1 + ... + 1612)
    let sum: u32 = (0..1613u32).sum::<u32>() % 1613;
    assert_eq!(shares[0].share.0, (1 + sum) % 1613);
}

#[test]
fn random_elements_are_reduced_and_vary() {
    let mut rng = seeded(7);
    let mut seen = std::collections::BTreeSet::new();
    for _ in 0..20000 {
        let a = G1613::rand(&mut rng);
        assert!(a.0 < P);
        seen.insert(a.0);
    }
    assert!(seen.contains(&0));
    assert!(seen.contains(&1612));
    assert_eq!(seen.len(), 1613);
}

#[test]
fn contains_element_finds_what_is_there() {
    let taken = elements(&[5, 9, 1612]);
    assert!(contains_element(&taken, &G1613(5)));
    assert!(contains_element(&taken, &G1613(1612)));
    assert!(!contains_element(&taken, &G1613(0)));
    assert!(!contains_element(&Vec::new(), &G1613(5)));
}

#[test]
fn accept_if_new_rejects_repeats() {
    let taken = elements(&[5, 9, 1612]);
    assert_eq!(accept_if_new(&taken, G1613(9)), None);
    assert_eq!(accept_if_new(&taken, G1613(10)), Some(G1613(10)));
    assert_eq!(accept_if_new(&Vec::new(), G1613(0)), Some(G1613(0)));
}

#[test]
fn after_draw_takes_a_new_value() {
    let taken = elements(&[5, 9, 1612]);
    assert_eq!(after_draw(&taken, G1613(10), 0), Ok(Some(G1613(10))));
    assert_eq!(
        after_draw(&taken, G1613(10), MAX_DRAWS_PER_COEFFICIENT - 1),
        Ok(Some(G1613(10)))
    );
    assert_eq!(after_draw(&Vec::new(), G1613(0), 0), Ok(Some(G1613(0))));
}

#[test]
fn after_draw_discards_a_repeat_and_draws_again() {
    let taken = elements(&[5, 9, 1612]);
    assert_eq!(after_draw(&taken, G1613(9), 0), Ok(None));
    assert_eq!(after_draw(&taken, G1613(9), 1), Ok(None));
    assert_eq!(
        after_draw(&taken, G1613(9), MAX_DRAWS_PER_COEFFICIENT - 2),
        Ok(None)
    );
}

#[test]
fn after_draw_gives_up_on_the_last_permitted_repeat() {
    let taken = elements(&[5, 9, 1612]);
    assert_eq!(
        after_draw(&taken, G1613(9), MAX_DRAWS_PER_COEFFICIENT - 1),
        Err(ShareError::InsufficientDistinctCoefficients)
    );
    assert_eq!(
        after_draw(&taken, G1613(1612), 65535),
        Err(ShareError::InsufficientDistinctCoefficients)
    );
}

#[test]
fn coefficients_are_the_first_different_draws_in_draw_order() {
    // with threshold 3 the shares are 1182 + c1 x + c2 x^2, where c1 is the
    // first draw and c2 the first later draw that differs from it
    for seed in 0..200 {
        let secret = Secret(G1613(1182));
        let shares = secret.generate_shares(3, 2, &mut seeded(seed)).unwrap();
        let mut replay = seeded(seed);
        let c1 = G1613::rand(&mut replay);
        let mut c2 = G1613::rand(&mut replay);
        while c2 == c1 {
            c2 = G1613::rand(&mut replay);
        }
        let f1 = (1182 + c1.0 + c2.0) % 1613;
        let f2 = (1182 + 2 * c1.0 + 4 * c2.0) % 1613;
        assert_eq!((shares[0].share.0, shares[1].share.0), (f1, f2));
    }
}

#[test]
fn thresholds_up_to_two_never_fail() {
    for seed in 0..200 {
        let secret = Secret(G1613(3));
        assert!(secret.generate_shares(1, 4, &mut seeded(seed)).is_ok());
        let shares = secret.generate_shares(2, 4, &mut seeded(seed)).unwrap();
        let c1 = G1613::rand(&mut seeded(seed));
        assert_eq!(shares[0].share.0, (3 + c1.0) % 1613);
    }
}
