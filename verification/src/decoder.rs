use crate::basis::{
    difference_product, distinct, growth, lemma_difference_product_away, lemma_growth_increases,
    lemma_linear_product_bound, lemma_linear_product_monic, linear_product,
};
use crate::divisors::{
    lcm_of, least_common_multiple, lemma_lcm_of_is_common_multiple, magnitude, rounded_quotient,
};
use crate::error::CodingError;
use crate::interpolant::{
    basis_denominator, basis_numerator, basis_weight, common_denominator, denominator_magnitudes,
    interpolation, interpolation_load, lemma_basis_denominator_nonzero, lemma_basis_weight,
    lemma_common_denominator_positive, lemma_load_bounds_coefficient, lemma_load_increases,
    representable, scaled_coefficient,
};
use crate::polynomial::{as_ints, positions_of, values_of};
use vstd::prelude::*;

verus! {

/// The largest magnitude that the interpolation works with: that of the
/// largest 128-bit signed integer.
pub const LIMIT: u128 = 170141183460469231731687303715884105727;

/// The mathematical integers that a sequence of positions stands for.
pub open spec fn roots_as_ints(roots: Seq<u64>) -> Seq<int> {
    roots.map_values(|r: u64| r as int)
}

/// The mathematical integers that a sequence of signed words stands for.
pub open spec fn signed_as_ints(words: Seq<i128>) -> Seq<int> {
    words.map_values(|w: i128| w as int)
}

/// Tells whether two of the points share a position.
pub fn has_duplicate_position(points: &Vec<(u64, u128)>) -> (found: bool)
    ensures
        found == !distinct(positions_of(points@)),
{
    let ghost xs = positions_of(points@);
    let n = points.len();
    let mut i: usize = 0;
    while i < n
        invariant
            0 <= i <= n,
            n == points.len(),
            xs == positions_of(points@),
            forall|a: int, b: int| 0 <= a < b < n && a < i ==> xs[a] != xs[b],
        decreases n - i,
    {
        let mut j: usize = i + 1;
        while j < n
            invariant
                i < j <= n,
                n == points.len(),
                xs == positions_of(points@),
                forall|b: int| i < b < j ==> xs[i as int] != xs[b],
            decreases n - j,
        {
            if points[i].0 == points[j].0 {
                proof {
                    assert(xs[i as int] == xs[j as int]);
                }
                return true;
            }
            j = j + 1;
        }
        i = i + 1;
    }
    false
}

/// The positions of all the points but the `i`-th, in order.
fn other_positions(points: &Vec<(u64, u128)>, i: usize) -> (others: Vec<u64>)
    requires
        i < points.len(),
    ensures
        roots_as_ints(others@) == positions_of(points@).remove(i as int),
{
    let ghost xs = positions_of(points@);
    let n = points.len();
    let mut others: Vec<u64> = Vec::new();
    let mut j: usize = 0;
    while j < n
        invariant
            0 <= j <= n,
            i < n,
            n == points.len(),
            xs == positions_of(points@),
            others@.len() == if j <= i {
                j as int
            } else {
                j - 1
            },
            forall|t: int|
                0 <= t < others@.len() ==> others@[t] as int == if t < i {
                    xs[t]
                } else {
                    xs[t + 1]
                },
        decreases n - j,
    {
        if j != i {
            others.push(points[j].0);
        }
        j = j + 1;
    }
    proof {
        assert(roots_as_ints(others@) =~= xs.remove(i as int));
    }
    others
}

/// The magnitude and the sign of the product of `x - r` over all `r` in
/// `roots`, none of which is `x`; `None` exactly when the magnitude exceeds
/// [`LIMIT`]. The sign is `true` for a negative product.
fn difference_magnitude(roots: &Vec<u64>, x: u64) -> (out: Option<(u128, bool)>)
    requires
        forall|j: int| 0 <= j < roots@.len() ==> roots@[j] != x,
    ensures
        out.is_some() <==> magnitude(difference_product(roots_as_ints(roots@), x as int)) <= LIMIT,
        out.is_some() ==> out.unwrap().0 == magnitude(
            difference_product(roots_as_ints(roots@), x as int),
        ),
        out.is_some() ==> out.unwrap().1 == (difference_product(roots_as_ints(roots@), x as int)
            < 0),
{
    let ghost rs = roots_as_ints(roots@);
    let mut mag: u128 = 1;
    let mut negative = false;
    let mut j: usize = 0;
    proof {
        assert(rs.take(0).len() == 0);
    }
    while j < roots.len()
        invariant
            0 <= j <= roots.len(),
            rs == roots_as_ints(roots@),
            forall|t: int| 0 <= t < rs.len() ==> rs[t] != x as int,
            mag == magnitude(difference_product(rs.take(j as int), x as int)),
            negative == (difference_product(rs.take(j as int), x as int) < 0),
            1 <= mag <= LIMIT,
        decreases roots.len() - j,
    {
        let r = roots[j];
        let gap: u128 = if x > r {
            (x - r) as u128
        } else {
            (r - x) as u128
        };
        proof {
            let before = difference_product(rs.take(j as int), x as int);
            let longer = rs.take(j + 1);
            assert(longer.drop_last() =~= rs.take(j as int));
            assert(longer.last() == r as int);
            assert(rs[j as int] != x as int);
            let f = x as int - r as int;
            assert(difference_product(longer, x as int) == before * f);
            assert(magnitude(before * f) == magnitude(before) * magnitude(f)
                && ((before * f < 0) == ((before < 0) != (f < 0)))) by (nonlinear_arith)
                requires
                    before != 0,
                    f != 0,
            ;
            lemma_difference_product_away(rs, x as int, j + 1);
        }
        if r > x {
            negative = !negative;
        }
        mag = match mag.checked_mul(gap) {
            Some(m) => m,
            None => {
                return None;
            },
        };
        if mag > LIMIT {
            return None;
        }
        j = j + 1;
    }
    proof {
        assert(rs.take(roots.len() as int) =~= rs);
    }
    Some((mag, negative))
}

/// The product of `1 + r` over all `r` in `roots`; `None` exactly when it
/// exceeds [`LIMIT`].
fn growth_of(roots: &Vec<u64>) -> (out: Option<u128>)
    ensures
        out.is_some() <==> growth(roots_as_ints(roots@)) <= LIMIT,
        out.is_some() ==> out.unwrap() == growth(roots_as_ints(roots@)),
{
    let ghost rs = roots_as_ints(roots@);
    let mut product: u128 = 1;
    let mut j: usize = 0;
    proof {
        assert(rs.take(0).len() == 0);
    }
    while j < roots.len()
        invariant
            0 <= j <= roots.len(),
            rs == roots_as_ints(roots@),
            product == growth(rs.take(j as int)),
            1 <= product <= LIMIT,
        decreases roots.len() - j,
    {
        let factor: u128 = roots[j] as u128 + 1;
        proof {
            let longer = rs.take(j + 1);
            assert(longer.drop_last() =~= rs.take(j as int));
            assert(longer.last() == roots@[j as int] as int);
            lemma_growth_increases(rs, j + 1);
        }
        product = match product.checked_mul(factor) {
            Some(m) => m,
            None => {
                return None;
            },
        };
        if product > LIMIT {
            return None;
        }
        j = j + 1;
    }
    proof {
        assert(rs.take(roots.len() as int) =~= rs);
    }
    Some(product)
}

/// The coefficients of the product of `x - r` over all `r` in `roots`, built
/// by multiplying in one linear factor after the other.
fn linear_product_of(roots: &Vec<u64>) -> (product: Vec<i128>)
    requires
        growth(roots_as_ints(roots@)) <= LIMIT,
        roots@.len() < usize::MAX,
    ensures
        signed_as_ints(product@) == linear_product(roots_as_ints(roots@)),
{
    let ghost rs = roots_as_ints(roots@);
    let mut product: Vec<i128> = Vec::new();
    product.push(1);
    let mut j: usize = 0;
    proof {
        assert(rs.take(0).len() == 0);
        assert(signed_as_ints(product@) =~= linear_product(rs.take(0)));
    }
    while j < roots.len()
        invariant
            0 <= j <= roots.len(),
            roots@.len() < usize::MAX,
            rs == roots_as_ints(roots@),
            growth(rs) <= LIMIT,
            product@.len() == j + 1,
            signed_as_ints(product@) == linear_product(rs.take(j as int)),
        decreases roots.len() - j,
    {
        let a: i128 = roots[j] as i128;
        let ghost front = rs.take(j as int);
        let ghost longer = rs.take(j + 1);
        let ghost p = linear_product(front);
        proof {
            assert(longer.drop_last() =~= front);
            assert(longer.last() == a as int);
            lemma_growth_increases(rs, j + 1);
            lemma_growth_increases(rs, j as int);
        }
        let mut next: Vec<i128> = Vec::new();
        let mut k: usize = 0;
        while k <= product.len()
            invariant
                0 <= k <= product@.len() + 1,
                product@.len() == j + 1,
                j < roots.len(),
                roots@.len() < usize::MAX,
                rs == roots_as_ints(roots@),
                front == rs.take(j as int),
                longer == rs.take(j + 1),
                longer.drop_last() == front,
                longer.last() == a as int,
                0 <= a,
                p == linear_product(front),
                signed_as_ints(product@) == p,
                1 <= growth(front),
                growth(longer) <= LIMIT,
                next@.len() == k,
                forall|t: int| 0 <= t < k ==> next@[t] as int == linear_product(longer)[t],
            decreases product@.len() + 1 - k,
        {
            let low: i128 = if k >= 1 {
                product[k - 1]
            } else {
                0
            };
            let high: i128 = if k < product.len() {
                product[k]
            } else {
                0
            };
            proof {
                let g = growth(front);
                if k >= 1 {
                    lemma_linear_product_bound(front, k - 1);
                    assert(low as int == signed_as_ints(product@)[k - 1]);
                }
                if k < product.len() {
                    lemma_linear_product_bound(front, k as int);
                    assert(high as int == signed_as_ints(product@)[k as int]);
                }
                assert(magnitude(a * high) <= g * (1 + a) && magnitude(low - a * high) <= g * (1
                    + a)) by (nonlinear_arith)
                    requires
                        magnitude(low as int) <= g,
                        magnitude(high as int) <= g,
                        a >= 0,
                        g >= 1,
                ;
                assert(growth(longer) == g * (1 + a));
                assert(linear_product(longer)[k as int] == low - a * high);
            }
            next.push(low - a * high);
            k = k + 1;
        }
        proof {
            lemma_linear_product_monic(longer);
            assert(signed_as_ints(next@) =~= linear_product(longer));
        }
        product = next;
        j = j + 1;
    }
    proof {
        assert(rs.take(roots.len() as int) =~= rs);
    }
    product
}

/// The magnitude and the sign of every basis denominator, and their least
/// common multiple; `None` exactly when that multiple exceeds [`LIMIT`].
fn denominators(points: &Vec<(u64, u128)>) -> (out: Option<(u128, Vec<u128>, Vec<bool>)>)
    requires
        distinct(positions_of(points@)),
    ensures
        out.is_some() <==> common_denominator(positions_of(points@)) <= LIMIT,
        out.is_some() ==> {
            let (common, sizes, signs) = out.unwrap();
            &&& common == common_denominator(positions_of(points@))
            &&& sizes@.len() == points@.len()
            &&& signs@.len() == points@.len()
            &&& forall|i: int|
                0 <= i < points@.len() ==> sizes@[i] == magnitude(
                    basis_denominator(positions_of(points@), i),
                )
            &&& forall|i: int|
                0 <= i < points@.len() ==> signs@[i] == (basis_denominator(
                    positions_of(points@),
                    i,
                ) < 0)
        },
{
    let ghost xs = positions_of(points@);
    let ghost all = denominator_magnitudes(xs);
    let n = points.len();
    let mut common: u128 = 1;
    let mut sizes: Vec<u128> = Vec::new();
    let mut signs: Vec<bool> = Vec::new();
    let mut i: usize = 0;
    proof {
        assert(all.take(0).len() == 0);
        assert forall|j: int| 0 <= j < all.len() implies all[j] > 0 by {
            lemma_basis_denominator_nonzero(xs, j);
        }
    }
    while i < n
        invariant
            0 <= i <= n,
            n == points.len(),
            xs == positions_of(points@),
            distinct(xs),
            all == denominator_magnitudes(xs),
            forall|j: int| 0 <= j < all.len() ==> all[j] > 0,
            common == lcm_of(all.take(i as int)),
            1 <= common <= LIMIT,
            sizes@.len() == i,
            signs@.len() == i,
            forall|j: int| 0 <= j < i ==> sizes@[j] == magnitude(basis_denominator(xs, j)),
            forall|j: int| 0 <= j < i ==> signs@[j] == (basis_denominator(xs, j) < 0),
        decreases n - i,
    {
        let others = other_positions(points, i);
        proof {
            let rest = xs.remove(i as int);
            assert(rest.len() == xs.len() - 1);
            assert(others@.len() == roots_as_ints(others@).len());
            assert forall|j: int| 0 <= j < others@.len() implies others@[j] != points@[i as int].0 by {
                assert(roots_as_ints(others@)[j] == rest[j]);
                if j < i {
                    assert(rest[j] == xs[j]);
                } else {
                    assert(rest[j] == xs[j + 1]);
                }
                assert(xs[i as int] == points@[i as int].0 as int);
            }
            lemma_basis_weight(xs, i as int);
            lemma_lcm_of_is_common_multiple(all, i as int);
            assert(all.take(i + 1).drop_last() =~= all.take(i as int));
            assert(all.take(i + 1).last() == all[i as int]);
            assert(xs[i as int] == points@[i as int].0 as int);
        }
        let (size, sign) = match difference_magnitude(&others, points[i].0) {
            Some(pair) => pair,
            None => {
                return None;
            },
        };
        common = match least_common_multiple(common, size, LIMIT) {
            Some(m) => m,
            None => {
                return None;
            },
        };
        sizes.push(size);
        signs.push(sign);
        i = i + 1;
    }
    proof {
        assert(all.take(n as int) =~= all);
    }
    Some((common, sizes, signs))
}

/// Adds `factor` times `basis` to `sum`, coefficient by coefficient, over
/// the length of `sum`.
fn add_scaled(sum: &mut Vec<i128>, basis: &Vec<i128>, factor: i128)
    requires
        old(sum)@.len() <= basis@.len(),
        forall|k: int|
            #![trigger basis@[k]]
            0 <= k < old(sum)@.len() ==> magnitude(factor * basis@[k]) <= LIMIT && magnitude(
                old(sum)@[k] + factor * basis@[k],
            ) <= LIMIT,
    ensures
        final(sum)@.len() == old(sum)@.len(),
        forall|k: int|
            #![trigger final(sum)@[k]]
            0 <= k < old(sum)@.len() ==> final(sum)@[k] == old(sum)@[k] + factor * basis@[k],
{
    let len = sum.len();
    let ghost before = sum@;
    let mut k: usize = 0;
    while k < len
        invariant
            0 <= k <= len,
            len == sum@.len(),
            len == before.len(),
            len <= basis@.len(),
            forall|t: int|
                #![trigger basis@[t]]
                0 <= t < len ==> magnitude(factor * basis@[t]) <= LIMIT && magnitude(
                    before[t] + factor * basis@[t],
                ) <= LIMIT,
            forall|t: int|
                #![trigger sum@[t]]
                0 <= t < k ==> sum@[t] == before[t] + factor * basis@[t],
            forall|t: int| #![trigger sum@[t]] k <= t < len ==> sum@[t] == before[t],
        decreases len - k,
    {
        let current: i128 = sum[k];
        proof {
            assert(magnitude(factor * basis@[k as int]) <= LIMIT);
            assert(magnitude(before[k as int] + factor * basis@[k as int]) <= LIMIT);
        }
        let term: i128 = factor * basis[k];
        sum.set(k, current + term);
        k = k + 1;
    }
}

/// Reconstructs the first `size` coefficients of the polynomial through
/// `points` by Lagrange interpolation in exact arithmetic: each basis
/// polynomial is built as a coefficient vector, weighted by its point's value
/// and summed over a common denominator, and each coefficient of the sum is
/// taken by its magnitude and rounded to the nearest integer.
///
/// Fewer points than `size` are refused as `InsufficientPoints`; otherwise two
/// points at one position as `DuplicatePosition`; otherwise points whose
/// interpolation does not fit the machine's integers as `Overflow`.
pub fn lagrange_interpolation(points: Vec<(u64, u128)>, size: usize) -> (result: Result<
    Vec<u128>,
    CodingError,
>)
    ensures
        match result {
            Ok(coeffs) => {
                &&& points@.len() >= size
                &&& distinct(positions_of(points@))
                &&& representable(positions_of(points@), values_of(points@))
                &&& as_ints(coeffs@) == interpolation(
                    positions_of(points@),
                    values_of(points@),
                    size as nat,
                )
            },
            Err(CodingError::InsufficientPoints) => points@.len() < size,
            Err(CodingError::DuplicatePosition) => points@.len() >= size && !distinct(
                positions_of(points@),
            ),
            Err(CodingError::Overflow) => {
                &&& points@.len() >= size
                &&& distinct(positions_of(points@))
                &&& !representable(positions_of(points@), values_of(points@))
            },
            Err(CodingError::InvalidConfiguration) => false,
        },
{
    let ghost xs = positions_of(points@);
    let ghost ys = values_of(points@);
    let n = points.len();
    if n < size {
        return Err(CodingError::InsufficientPoints);
    }
    if has_duplicate_position(&points) {
        return Err(CodingError::DuplicatePosition);
    }
    let (common, sizes, signs) = match denominators(&points) {
        Some(triple) => triple,
        None => {
            return Err(CodingError::Overflow);
        },
    };
    proof {
        lemma_common_denominator_positive(xs);
    }
    let mut sums: Vec<i128> = Vec::new();
    while sums.len() < size
        invariant
            sums@.len() <= size,
            forall|k: int| 0 <= k < sums@.len() ==> sums@[k] == 0,
        decreases size - sums@.len(),
    {
        sums.push(0);
    }
    let mut load: u128 = 0;
    let mut i: usize = 0;
    while i < n
        invariant
            0 <= i <= n,
            n == points.len(),
            size <= n,
            xs == positions_of(points@),
            ys == values_of(points@),
            distinct(xs),
            common == common_denominator(xs),
            1 <= common <= LIMIT,
            sizes@.len() == n,
            signs@.len() == n,
            forall|j: int| 0 <= j < n ==> sizes@[j] == magnitude(basis_denominator(xs, j)),
            forall|j: int| 0 <= j < n ==> signs@[j] == (basis_denominator(xs, j) < 0),
            sums@.len() == size,
            load == interpolation_load(xs, ys, i as int),
            load <= LIMIT,
            forall|k: int|
                #![trigger sums@[k]]
                0 <= k < size ==> sums@[k] == scaled_coefficient(xs, ys, k, i as int),
        decreases n - i,
    {
        let y: u128 = points[i].1;
        proof {
            assert(ys[i as int] == y as int);
            lemma_load_increases(xs, ys, i + 1, n as int);
        }
        if y == 0 {
            proof {
                assert forall|k: int| 0 <= k < size implies scaled_coefficient(xs, ys, k, i + 1)
                    == scaled_coefficient(xs, ys, k, i as int) by {
                    lemma_linear_product_monic(xs.remove(i as int));
                    let w = basis_weight(xs, i as int);
                    let b = basis_numerator(xs, i as int)[k];
                    assert(0 * w * b == 0) by (nonlinear_arith);
                }
                let w = magnitude(basis_weight(xs, i as int)) as int;
                let g = growth(xs.remove(i as int));
                assert(0 * w * g == 0) by (nonlinear_arith);
            }
        } else {
            let others = other_positions(&points, i);
            let ghost rs = roots_as_ints(others@);
            let ghost g = growth(rs);
            let ghost bw = basis_weight(xs, i as int);
            let ghost w = magnitude(bw) as int;
            proof {
                lemma_basis_weight(xs, i as int);
                lemma_growth_increases(rs, 0);
                assert(rs.take(0).len() == 0);
                assert(interpolation_load(xs, ys, i + 1) == load + y * w * g);
                assert(y * w * g >= y * w && y * w >= y && y * w * g >= g) by (nonlinear_arith)
                    requires
                        y >= 1,
                        w >= 1,
                        g >= 1,
                ;
            }
            if y > LIMIT {
                return Err(CodingError::Overflow);
            }
            let weight: u128 = common / sizes[i];
            let spread = match growth_of(&others) {
                Some(v) => v,
                None => {
                    return Err(CodingError::Overflow);
                },
            };
            let scaled = match y.checked_mul(weight) {
                Some(v) => v,
                None => {
                    return Err(CodingError::Overflow);
                },
            };
            if scaled > LIMIT {
                return Err(CodingError::Overflow);
            }
            let term = match scaled.checked_mul(spread) {
                Some(v) => v,
                None => {
                    return Err(CodingError::Overflow);
                },
            };
            if term > LIMIT || load + term > LIMIT {
                return Err(CodingError::Overflow);
            }
            let basis = linear_product_of(&others);
            let factor: i128 = if signs[i] {
                -(scaled as i128)
            } else {
                scaled as i128
            };
            proof {
                assert(factor == y * bw) by (nonlinear_arith)
                    requires
                        scaled == y * w,
                        factor == if bw < 0 {
                            -scaled
                        } else {
                            scaled as int
                        },
                        w == magnitude(bw),
                ;
                lemma_linear_product_monic(rs);
                assert forall|k: int|
                    #![trigger basis@[k]]
                    0 <= k < size implies magnitude(factor * basis@[k]) <= LIMIT && magnitude(
                    sums@[k] + factor * basis@[k],
                ) <= LIMIT && sums@[k] + factor * basis@[k] == scaled_coefficient(
                    xs,
                    ys,
                    k,
                    i + 1,
                ) by {
                    lemma_linear_product_bound(rs, k);
                    lemma_load_bounds_coefficient(xs, ys, k, i + 1);
                    assert(basis@[k] as int == signed_as_ints(basis@)[k]);
                    let b = basis@[k] as int;
                    assert(magnitude(factor * b) <= term) by (nonlinear_arith)
                        requires
                            magnitude(factor as int) == scaled,
                            magnitude(b) <= g,
                            term == scaled * g,
                    ;
                }
            }
            let ghost before = sums@;
            add_scaled(&mut sums, &basis, factor);
            load = load + term;
            proof {
                assert forall|k: int| #![trigger sums@[k]] 0 <= k < size implies sums@[k]
                    == scaled_coefficient(xs, ys, k, i + 1) by {
                    assert(sums@[k] == before[k] + factor * basis@[k]);
                }
            }
        }
        i = i + 1;
    }
    let mut coeffs: Vec<u128> = Vec::new();
    let mut k: usize = 0;
    while k < size
        invariant
            0 <= k <= size,
            n == points.len(),
            xs == positions_of(points@),
            ys == values_of(points@),
            common == common_denominator(xs),
            1 <= common <= LIMIT,
            size <= n,
            interpolation_load(xs, ys, n as int) <= LIMIT,
            sums@.len() == size,
            forall|t: int|
                #![trigger sums@[t]]
                0 <= t < size ==> sums@[t] == scaled_coefficient(xs, ys, t, n as int),
            coeffs@.len() == k,
            forall|t: int|
                0 <= t < k ==> coeffs@[t] as int == interpolation(xs, ys, size as nat)[t],
        decreases size - k,
    {
        let sum: i128 = sums[k];
        proof {
            lemma_load_bounds_coefficient(xs, ys, k as int, n as int);
        }
        let size_of_sum: u128 = if sum < 0 {
            (-sum) as u128
        } else {
            sum as u128
        };
        proof {
            assert(sum == scaled_coefficient(xs, ys, k as int, n as int));
            assert(size_of_sum == magnitude(sum as int));
            assert(size_of_sum / common <= size_of_sum) by (nonlinear_arith)
                requires
                    common >= 1,
            ;
        }
        coeffs.push(rounded_quotient(size_of_sum, common));
        k = k + 1;
    }
    proof {
        assert(as_ints(coeffs@) =~= interpolation(xs, ys, size as nat));
    }
    Ok(coeffs)
}

} // verus!
