use erasure_code::{poly_eval, recover};

#[test]
fn poly_eval_matches_the_sum_of_powers() {
    // 72 + 105 x
    assert_eq!(poly_eval(&vec![72, 105], 1), Some(177));
    assert_eq!(poly_eval(&vec![72, 105], 2), Some(282));
    assert_eq!(poly_eval(&vec![72, 105], 3), Some(387));
    // 1 + 2 x + 3 x^2 at 10
    assert_eq!(poly_eval(&vec![1, 2, 3], 10), Some(321));
    // "Hello" at 2
    assert_eq!(poly_eval(&vec![72, 101, 108, 108, 111], 2), Some(3346));
}

#[test]
fn poly_eval_agrees_with_direct_computation() {
    let coeffs: Vec<u128> = vec![5, 0, 17, 255, 3, 99];
    for x in 0u64..20 {
        let mut direct: u128 = 0;
        for (i, c) in coeffs.iter().enumerate() {
            direct += c * (x as u128).pow(i as u32);
        }
        assert_eq!(poly_eval(&coeffs, x), Some(direct));
    }
}

#[test]
fn poly_eval_of_nothing_is_zero() {
    assert_eq!(poly_eval(&vec![], 0), Some(0));
    assert_eq!(poly_eval(&vec![], 12345), Some(0));
}

#[test]
fn poly_eval_at_zero_is_the_constant_term() {
    assert_eq!(poly_eval(&vec![9, 8, 7], 0), Some(9));
    assert_eq!(poly_eval(&vec![u128::MAX, u128::MAX], 0), Some(u128::MAX));
}

#[test]
fn poly_eval_reports_values_beyond_128_bits() {
    assert_eq!(poly_eval(&vec![u128::MAX, 1], 1), None);
    assert_eq!(poly_eval(&vec![u128::MAX - 1, 1], 1), Some(u128::MAX));
    assert_eq!(poly_eval(&vec![0, 0, 1], u64::MAX), Some((u64::MAX as u128) * (u64::MAX as u128)));
    assert_eq!(poly_eval(&vec![0, 0, 0, 1], u64::MAX), None);
    // 2^127 * 2 does not fit, 2^127 * 1 does.
    assert_eq!(poly_eval(&vec![0, 1 << 127], 2), None);
    assert_eq!(poly_eval(&vec![0, 1 << 127], 1), Some(1 << 127));
    // A zero coefficient at a power that does not fit changes nothing.
    assert_eq!(poly_eval(&vec![3, 0, 0, 0], u64::MAX), Some(3));
}

#[test]
fn recover_reads_the_values_as_coefficients() {
    let pairs: Vec<(u64, u128)> = vec![(1, 72), (2, 105)];
    assert_eq!(recover(&pairs, 1), Some(177));
    assert_eq!(recover(&pairs, 2), Some(282));
    assert_eq!(recover(&pairs, 3), Some(387));
    // The positions are not read.
    let shuffled: Vec<(u64, u128)> = vec![(40, 72), (0, 105)];
    assert_eq!(recover(&shuffled, 3), Some(387));
    assert_eq!(recover(&vec![], 9), Some(0));
}

#[test]
fn recover_agrees_with_poly_eval() {
    let pairs: Vec<(u64, u128)> = vec![(1, 5), (2, 0), (3, 17), (4, 255)];
    let coeffs: Vec<u128> = pairs.iter().map(|p| p.1).collect();
    for x in 0u64..30 {
        assert_eq!(recover(&pairs, x), poly_eval(&coeffs, x));
    }
    assert_eq!(recover(&vec![(1, u128::MAX), (2, 1)], 1), None);
}
