use erasure_code::decoder::has_duplicate_position;
use erasure_code::divisors::greatest_common_divisor;
use erasure_code::{encode, erasure_coding, lagrange_interpolation, poly_eval, CodingError};

fn subsets(n: usize, k: usize) -> Vec<Vec<usize>> {
    let mut all = Vec::new();
    for mask in 0u32..(1u32 << n) {
        if mask.count_ones() as usize == k {
            all.push((0..n).filter(|i| mask & (1 << i) != 0).collect());
        }
    }
    all
}

#[test]
fn hi_is_recovered_from_any_two_points() {
    let word = erasure_coding("Hi").unwrap();
    for pick in subsets(3, 2) {
        let points: Vec<(u64, u128)> = pick.iter().map(|&i| word[i]).collect();
        assert_eq!(lagrange_interpolation(points, 2), Ok(vec![72, 105]));
    }
    assert_eq!(lagrange_interpolation(vec![(3, 387), (1, 177)], 2), Ok(vec![72, 105]));
}

#[test]
fn hello_is_recovered_after_loss() {
    let word = erasure_coding("Hello").unwrap();
    let survivors: Vec<(u64, u128)> = vec![word[0], word[2], word[4], word[5], word[6]];
    assert_eq!(
        survivors.iter().map(|p| p.0).collect::<Vec<u64>>(),
        vec![1, 3, 5, 6, 7]
    );
    assert_eq!(lagrange_interpolation(survivors, 5), Ok(vec![72, 101, 108, 108, 111]));
}

#[test]
fn every_choice_of_enough_points_recovers_the_message() {
    let message = b"Hello";
    let word = encode(message, 30).unwrap();
    let wanted: Vec<u128> = message.iter().map(|&b| b as u128).collect();
    let choices = subsets(7, 5);
    assert_eq!(choices.len(), 21);
    for pick in choices {
        let points: Vec<(u64, u128)> = pick.iter().map(|&i| word[i]).collect();
        assert_eq!(lagrange_interpolation(points, 5), Ok(wanted.clone()));
    }
    for count in 6..=7 {
        for pick in subsets(7, count) {
            let points: Vec<(u64, u128)> = pick.iter().rev().map(|&i| word[i]).collect();
            assert_eq!(lagrange_interpolation(points, 5), Ok(wanted.clone()));
        }
    }
}

#[test]
fn whole_codeword_recovers_a_longer_message() {
    let message = b"thirteen byte";
    let word = encode(message, 30).unwrap();
    assert_eq!(word.len(), 17);
    let wanted: Vec<u128> = message.iter().map(|&b| b as u128).collect();
    let tail: Vec<(u64, u128)> = word[4..].to_vec();
    assert_eq!(lagrange_interpolation(tail, 13), Ok(wanted.clone()));
    let head: Vec<(u64, u128)> = word[..13].to_vec();
    assert_eq!(lagrange_interpolation(head, 13), Ok(wanted));
}

#[test]
fn too_few_points_are_refused() {
    let word = erasure_coding("Hello").unwrap();
    assert_eq!(
        lagrange_interpolation(word[..4].to_vec(), 5),
        Err(CodingError::InsufficientPoints)
    );
    assert_eq!(lagrange_interpolation(vec![], 1), Err(CodingError::InsufficientPoints));
    // Too few points are reported before a repeated position is.
    assert_eq!(
        lagrange_interpolation(vec![(1, 5), (1, 5)], 3),
        Err(CodingError::InsufficientPoints)
    );
}

#[test]
fn repeated_positions_are_refused() {
    assert_eq!(
        lagrange_interpolation(vec![(1, 177), (1, 177)], 2),
        Err(CodingError::DuplicatePosition)
    );
    assert_eq!(
        lagrange_interpolation(vec![(1, 177), (2, 282), (1, 9)], 2),
        Err(CodingError::DuplicatePosition)
    );
    assert_eq!(
        lagrange_interpolation(vec![(4, 1), (2, 282), (3, 5), (9, 1), (3, 5)], 0),
        Err(CodingError::DuplicatePosition)
    );
}

#[test]
fn no_coefficients_from_no_points() {
    assert_eq!(lagrange_interpolation(vec![], 0), Ok(vec![]));
    assert_eq!(lagrange_interpolation(vec![(1, 5), (2, 6)], 0), Ok(vec![]));
}

#[test]
fn one_point_gives_a_constant() {
    assert_eq!(lagrange_interpolation(vec![(7, 42)], 1), Ok(vec![42]));
    assert_eq!(lagrange_interpolation(vec![(0, 0)], 1), Ok(vec![0]));
}

#[test]
fn extra_points_leave_only_the_lowest_coefficients() {
    // x^2 at 0, 1, 2: the interpolating polynomial is x^2 itself.
    let points: Vec<(u64, u128)> = vec![(0, 0), (1, 1), (2, 4)];
    assert_eq!(lagrange_interpolation(points.clone(), 3), Ok(vec![0, 0, 1]));
    assert_eq!(lagrange_interpolation(points.clone(), 2), Ok(vec![0, 0]));
    assert_eq!(lagrange_interpolation(points, 1), Ok(vec![0]));
    // 1 + 2 x + 3 x^2
    let points: Vec<(u64, u128)> = vec![(1, 6), (2, 17), (3, 34), (10, 321)];
    assert_eq!(lagrange_interpolation(points.clone(), 4), Ok(vec![1, 2, 3, 0]));
    assert_eq!(lagrange_interpolation(points, 2), Ok(vec![1, 2]));
}

#[test]
fn negative_coefficients_come_out_by_magnitude() {
    // 5 - 2 x
    assert_eq!(lagrange_interpolation(vec![(0, 5), (1, 3)], 2), Ok(vec![5, 2]));
    // (x - 1)(x - 2) = 2 - 3 x + x^2
    assert_eq!(
        lagrange_interpolation(vec![(0, 2), (1, 0), (2, 0)], 3),
        Ok(vec![2, 3, 1])
    );
}

#[test]
fn fractional_coefficients_are_rounded_to_nearest() {
    // x / 2: a half is rounded up.
    assert_eq!(lagrange_interpolation(vec![(0, 0), (2, 1)], 2), Ok(vec![0, 1]));
    // x / 3 and 2 x / 3
    assert_eq!(lagrange_interpolation(vec![(0, 0), (3, 1)], 2), Ok(vec![0, 0]));
    assert_eq!(lagrange_interpolation(vec![(0, 0), (3, 2)], 2), Ok(vec![0, 1]));
    // 7 - 5 x / 2
    assert_eq!(lagrange_interpolation(vec![(0, 7), (2, 2)], 2), Ok(vec![7, 3]));
    // 10 / 4 - x / 4 through (2, 2) and (6, 1)
    assert_eq!(lagrange_interpolation(vec![(2, 2), (6, 1)], 2), Ok(vec![3, 0]));
}

#[test]
fn a_corrupted_value_changes_the_result() {
    let word = erasure_coding("Hi").unwrap();
    let spoiled: Vec<(u64, u128)> = vec![word[0], (2, word[1].1 + 10)];
    assert_eq!(lagrange_interpolation(spoiled, 2), Ok(vec![62, 115]));
}

#[test]
fn values_beyond_the_limit_are_refused() {
    assert_eq!(
        lagrange_interpolation(vec![(1, u128::MAX)], 1),
        Err(CodingError::Overflow)
    );
    assert_eq!(
        lagrange_interpolation(vec![(0, 1u128 << 127)], 1),
        Err(CodingError::Overflow)
    );
    assert_eq!(
        lagrange_interpolation(vec![(0, (1u128 << 127) - 1)], 1),
        Ok(vec![(1u128 << 127) - 1])
    );
    // The load of the two points is 2^126 * (1 + 1) + 2^126 * (1 + 0).
    assert_eq!(
        lagrange_interpolation(vec![(0, 1u128 << 126), (1, 1u128 << 126)], 2),
        Err(CodingError::Overflow)
    );
    // A value of zero carries no load, however far apart the positions are.
    assert_eq!(
        lagrange_interpolation(vec![(0, 0), (u64::MAX, 0)], 2),
        Ok(vec![0, 0])
    );
}

#[test]
fn denominators_beyond_the_limit_are_refused() {
    let far: Vec<(u64, u128)> = vec![(0, 0), (u64::MAX, 0), (1 << 63, 0), (1 << 62, 0)];
    assert_eq!(lagrange_interpolation(far, 4), Err(CodingError::Overflow));
}

#[test]
fn recovered_polynomial_reproduces_lost_values() {
    let word = erasure_coding("Rust").unwrap();
    let survivors: Vec<(u64, u128)> = vec![word[1], word[2], word[3], word[5]];
    let coeffs = lagrange_interpolation(survivors, 4).unwrap();
    assert_eq!(coeffs, vec![82, 117, 115, 116]);
    assert_eq!(poly_eval(&coeffs, 1), Some(word[0].1));
    assert_eq!(poly_eval(&coeffs, 5), Some(word[4].1));
}

#[test]
fn duplicate_positions_are_found() {
    assert!(!has_duplicate_position(&vec![]));
    assert!(!has_duplicate_position(&vec![(1, 1)]));
    assert!(!has_duplicate_position(&vec![(1, 1), (2, 1), (3, 1)]));
    assert!(has_duplicate_position(&vec![(1, 1), (2, 1), (1, 7)]));
    assert!(has_duplicate_position(&vec![(5, 1), (2, 1), (2, 7)]));
}

#[test]
fn greatest_common_divisor_of_small_numbers() {
    assert_eq!(greatest_common_divisor(12, 18), 6);
    assert_eq!(greatest_common_divisor(18, 12), 6);
    assert_eq!(greatest_common_divisor(17, 5), 1);
    assert_eq!(greatest_common_divisor(0, 9), 9);
    assert_eq!(greatest_common_divisor(9, 0), 9);
    assert_eq!(greatest_common_divisor(0, 0), 0);
    assert_eq!(greatest_common_divisor(479001600, 39916800), 39916800);
}
