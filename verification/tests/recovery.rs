use recurrence::engine::berlekamp_massey;
use recurrence::engine::berlekamp_massey_with_seed;
use recurrence::engine::minimal_characteristic_polynomial;
use recurrence::field::FIELD_MODULUS;

// Canonical residue of -1, i.e. the field's additive inverse of ONE.
const MINUS_ONE: u64 = FIELD_MODULUS - 1;

#[test]
fn berlekamp_massey_test_berlekamp_massey() {
    // Fibonacci: 1 * F(n-1) + 1 * F(n-2) = F(n) for all n >= 2, with the
    // minimal characteristic polynomial x^2 - x - 1.
    let series: Vec<u64> = vec![0, 1, 1, 2, 3, 5, 8, 13];
    let lr = berlekamp_massey(&series).unwrap();
    assert_eq!(vec![1u64, 1], lr);
    assert_eq!(
        minimal_characteristic_polynomial(&lr),
        vec![1u64, MINUS_ONE, MINUS_ONE]
    );

    // 1,2,4,8,16: 2 F(n-1) = F(n)
    let series: Vec<u64> = vec![1, 2, 4, 8, 16];
    assert_eq!(vec![2u64], berlekamp_massey(&series).unwrap());

    // 0,1,1,3,5,11,21: 1 F(n-1) + 2 F(n-2) = F(n)
    let series: Vec<u64> = vec![0, 1, 1, 3, 5, 11, 21];
    assert_eq!(vec![1u64, 2], berlekamp_massey(&series).unwrap());

    // 1,8,10,26,46: 1 F(n-1) + 2 F(n-2) = F(n)
    let series: Vec<u64> = vec![1, 8, 10, 26, 46];
    assert_eq!(vec![1u64, 2], berlekamp_massey(&series).unwrap());

    // 1,3,5,11,25,59,141,339: 3 F(n-1) - 1 F(n-2) - 1 F(n-3) = F(n)
    let series: Vec<u64> = vec![1, 3, 5, 11, 25, 59, 141, 339];
    assert_eq!(
        vec![3u64, MINUS_ONE, MINUS_ONE],
        berlekamp_massey(&series).unwrap()
    );
}

#[test]
fn berlekampmassey_test_berlekamp_massey() {
    // 1,2,4,8,16: 2 (s-1)
    let series: Vec<u64> = vec![1, 2, 4, 8, 16];
    assert_eq!(vec![2u64], berlekamp_massey(&series).unwrap());

    // 0,1,1,3,5,11,21: 1 (s-1) + 2 (s-2)
    let series: Vec<u64> = vec![0, 1, 1, 3, 5, 11, 21];
    assert_eq!(vec![1u64, 2], berlekamp_massey(&series).unwrap());

    // 1,8,10,26,46: 1 (s-1) + 2 (s-2)
    let series: Vec<u64> = vec![1, 8, 10, 26, 46];
    assert_eq!(vec![1u64, 2], berlekamp_massey(&series).unwrap());

    // 1,3,5,11,25,59,141,339: 3 (s-1) - 1 (s-2) - 1 (s-3)
    let series: Vec<u64> = vec![1, 3, 5, 11, 25, 59, 141, 339];
    assert_eq!(
        vec![3u64, MINUS_ONE, MINUS_ONE],
        berlekamp_massey(&series).unwrap()
    );
}

#[test]
fn all_zero_series_gives_empty_vector() {
    for len in 0..8usize {
        let series: Vec<u64> = vec![0; len];
        assert_eq!(Vec::<u64>::new(), berlekamp_massey(&series).unwrap());
    }
}

#[test]
fn empty_series_gives_empty_vector() {
    let series: Vec<u64> = Vec::new();
    assert_eq!(Vec::<u64>::new(), berlekamp_massey(&series).unwrap());
}

#[test]
fn result_does_not_depend_on_the_bootstrap_seed() {
    // The same series under different fixed seeds, and under freshly drawn
    // ones, ends in the same recurrence.
    let series: Vec<u64> = vec![0, 1, 1, 2, 3, 5, 8, 13];
    let seed_a: Vec<u64> = vec![5; series.len()];
    let seed_b: Vec<u64> = vec![123456789; series.len()];
    let from_a = berlekamp_massey_with_seed(&series, &seed_a).unwrap();
    let from_b = berlekamp_massey_with_seed(&series, &seed_b).unwrap();
    assert_eq!(from_a, from_b);
    assert_eq!(vec![1u64, 1], from_a);
    assert_eq!(berlekamp_massey(&series).unwrap(), from_a);

    let series: Vec<u64> = vec![1, 3, 5, 11, 25, 59, 141, 339];
    let seed_a: Vec<u64> = vec![7; series.len()];
    let seed_b: Vec<u64> = vec![FIELD_MODULUS - 2; series.len()];
    let from_a = berlekamp_massey_with_seed(&series, &seed_a).unwrap();
    let from_b = berlekamp_massey_with_seed(&series, &seed_b).unwrap();
    assert_eq!(from_a, from_b);
    assert_eq!(vec![3u64, MINUS_ONE, MINUS_ONE], from_a);
}

#[test]
fn repeated_runs_agree() {
    let series: Vec<u64> = vec![1, 8, 10, 26, 46];
    let first = berlekamp_massey(&series).unwrap();
    for _ in 0..5 {
        assert_eq!(first, berlekamp_massey(&series).unwrap());
    }
}

#[test]
fn characteristic_polynomial_shape() {
    // Length len(c) + 1, leading ONE, then the negation of each coefficient.
    let c: Vec<u64> = vec![3, MINUS_ONE, MINUS_ONE];
    let p = minimal_characteristic_polynomial(&c);
    assert_eq!(c.len() + 1, p.len());
    assert_eq!(1u64, p[0]);
    assert_eq!(vec![1u64, FIELD_MODULUS - 3, 1, 1], p);

    let c: Vec<u64> = vec![2];
    assert_eq!(vec![1u64, FIELD_MODULUS - 2], minimal_characteristic_polynomial(&c));

    // ZERO negates to ZERO, not to the modulus.
    let c: Vec<u64> = vec![0];
    assert_eq!(vec![1u64, 0], minimal_characteristic_polynomial(&c));

    let c: Vec<u64> = Vec::new();
    assert_eq!(vec![1u64], minimal_characteristic_polynomial(&c));
}

// Field multiplication on canonical residues, for the oracle below.
fn mul_mod(a: u64, b: u64) -> u64 {
    ((a as u128 * b as u128) % FIELD_MODULUS as u128) as u64
}

#[test]
fn values_near_the_modulus_are_handled() {
    // Alternating 1, -1: each element is -1 times the one before it.
    let series: Vec<u64> = vec![1, MINUS_ONE, 1, MINUS_ONE, 1, MINUS_ONE];
    assert_eq!(vec![MINUS_ONE], berlekamp_massey(&series).unwrap());
    assert_eq!(
        vec![1u64, 1],
        minimal_characteristic_polynomial(&vec![MINUS_ONE])
    );
}

#[test]
fn recovered_recurrence_predicts_the_series() {
    // An order-k recurrence recovered from at least 2k terms predicts every
    // later element: s[i] = sum of c[j] * s[i - j - 1].
    let series: Vec<u64> = vec![0, 1, 1, 2, 3, 5, 8, 13];
    let c = berlekamp_massey(&series).unwrap();
    assert_eq!(2, c.len());
    for i in c.len()..series.len() {
        let mut predicted: u64 = 0;
        for (j, &coef) in c.iter().enumerate() {
            predicted = (((predicted as u128) + (mul_mod(coef, series[i - j - 1]) as u128))
                % FIELD_MODULUS as u128) as u64;
        }
        assert_eq!(series[i], predicted);
    }
}
