use crate::basis::{
    difference_product, distinct, growth, lemma_difference_product_at_root,
    lemma_difference_product_away, lemma_growth_increases, lemma_linear_product_bound,
    lemma_linear_product_monic, lemma_linear_product_value, linear_product,
};
use crate::divisors::{
    lcm_of, lemma_lcm_of_is_common_multiple, lemma_lcm_of_positive, lemma_round_ratio_of_multiple,
    magnitude, round_ratio,
};
use crate::polynomial::{
    lemma_poly_value_add, lemma_poly_value_of_padded, lemma_poly_value_of_zeros,
    lemma_poly_value_scale, non_negative, poly_add, poly_scale, poly_value,
};
use vstd::arithmetic::div_mod::lemma_fundamental_div_mod;
use vstd::prelude::*;

verus! {

/// The numerator of the `i`-th basis polynomial: the product of `x - xs[j]`
/// over every `j` but `i`. It vanishes at every position but `xs[i]`.
pub open spec fn basis_numerator(xs: Seq<int>, i: int) -> Seq<int> {
    linear_product(xs.remove(i))
}

/// The denominator of the `i`-th basis polynomial: the value of its
/// numerator at `xs[i]`, the product of `xs[i] - xs[j]` over every `j` but `i`.
pub open spec fn basis_denominator(xs: Seq<int>, i: int) -> int {
    difference_product(xs.remove(i), xs[i])
}

/// The magnitudes of all the basis denominators.
pub open spec fn denominator_magnitudes(xs: Seq<int>) -> Seq<nat> {
    Seq::new(xs.len(), |i: int| magnitude(basis_denominator(xs, i)))
}

/// The least common multiple of the basis denominators: the denominator
/// over which all the coefficients of the interpolating polynomial are written.
pub open spec fn common_denominator(xs: Seq<int>) -> nat {
    lcm_of(denominator_magnitudes(xs))
}

/// The factor that brings the `i`-th basis polynomial onto the common
/// denominator: the common denominator divided by the `i`-th denominator.
pub open spec fn basis_weight(xs: Seq<int>, i: int) -> int {
    let d = basis_denominator(xs, i);
    let q = (common_denominator(xs) / magnitude(d)) as int;
    if d < 0 {
        -q
    } else {
        q
    }
}

/// The coefficient of `x^k` in the sum of the first `upto` weighted basis
/// numerators: the sum of `ys[i] * basis_weight(xs, i) * basis_numerator(xs, i)[k]`.
pub open spec fn scaled_coefficient(xs: Seq<int>, ys: Seq<int>, k: int, upto: int) -> int
    decreases upto,
{
    if upto <= 0 {
        0
    } else {
        scaled_coefficient(xs, ys, k, upto - 1) + ys[upto - 1] * basis_weight(xs, upto - 1)
            * basis_numerator(xs, upto - 1)[k]
    }
}

/// The interpolating polynomial through the points `(xs[i], ys[i])`,
/// multiplied by the common denominator so that its coefficients are integers.
pub open spec fn scaled_interpolant(xs: Seq<int>, ys: Seq<int>) -> Seq<int> {
    Seq::new(xs.len(), |k: int| scaled_coefficient(xs, ys, k, xs.len() as int))
}

/// The first `size` coefficients of the interpolating polynomial through the
/// points `(xs[i], ys[i])`, each taken by its magnitude and rounded to the
/// nearest integer.
pub open spec fn interpolation(xs: Seq<int>, ys: Seq<int>, size: nat) -> Seq<int> {
    Seq::new(
        size,
        |k: int|
            round_ratio(
                magnitude(scaled_coefficient(xs, ys, k, xs.len() as int)),
                common_denominator(xs),
            ) as int,
    )
}

/// A bound on the magnitude of every coefficient of the sum of the first
/// `upto` weighted basis numerators: the sum of
/// `ys[i] * |basis_weight(xs, i)| * growth(xs without xs[i])`.
pub open spec fn interpolation_load(xs: Seq<int>, ys: Seq<int>, upto: int) -> int
    decreases upto,
{
    if upto <= 0 {
        0
    } else {
        interpolation_load(xs, ys, upto - 1) + ys[upto - 1] * magnitude(
            basis_weight(xs, upto - 1),
        ) * growth(xs.remove(upto - 1))
    }
}

/// The interpolation through the points can be carried out in 128-bit
/// signed integers: the common denominator and the load both fit.
pub open spec fn representable(xs: Seq<int>, ys: Seq<int>) -> bool {
    &&& common_denominator(xs) <= i128::MAX
    &&& interpolation_load(xs, ys, xs.len() as int) <= i128::MAX
}

/// The sum of `ys[i] * basis_weight(xs, i)` times the value of the `i`-th
/// basis numerator at `x`, over the first `upto` points.
pub open spec fn scaled_value(xs: Seq<int>, ys: Seq<int>, x: int, upto: int) -> int
    decreases upto,
{
    if upto <= 0 {
        0
    } else {
        scaled_value(xs, ys, x, upto - 1) + ys[upto - 1] * basis_weight(xs, upto - 1)
            * difference_product(xs.remove(upto - 1), x)
    }
}

/// With distinct positions no basis denominator is zero.
pub proof fn lemma_basis_denominator_nonzero(xs: Seq<int>, i: int)
    requires
        distinct(xs),
        0 <= i < xs.len(),
    ensures
        magnitude(basis_denominator(xs, i)) >= 1,
{
    let others = xs.remove(i);
    assert forall|j: int| 0 <= j < others.len() implies others[j] != xs[i] by {
        if j < i {
            assert(others[j] == xs[j]);
        } else {
            assert(others[j] == xs[j + 1]);
        }
    }
    lemma_difference_product_away(others, xs[i], 0);
}

/// With distinct positions the common denominator is positive and at least
/// the magnitude of each basis denominator, and each basis weight times its
/// denominator is the common denominator.
pub proof fn lemma_basis_weight(xs: Seq<int>, i: int)
    requires
        distinct(xs),
        0 <= i < xs.len(),
    ensures
        common_denominator(xs) >= magnitude(basis_denominator(xs, i)) >= 1,
        basis_weight(xs, i) * basis_denominator(xs, i) == common_denominator(xs),
        magnitude(basis_weight(xs, i)) * magnitude(basis_denominator(xs, i)) == common_denominator(
            xs,
        ),
        magnitude(basis_weight(xs, i)) >= 1,
{
    let mags = denominator_magnitudes(xs);
    assert forall|j: int| 0 <= j < mags.len() implies mags[j] > 0 by {
        lemma_basis_denominator_nonzero(xs, j);
    }
    lemma_lcm_of_is_common_multiple(mags, i);
    let l = common_denominator(xs) as int;
    let d = basis_denominator(xs, i);
    let m = magnitude(d) as int;
    lemma_fundamental_div_mod(l, m);
    let q = l / m;
    assert(q >= 1 && q * m == l && (-q) * (-m) == l) by (nonlinear_arith)
        requires
            l == m * q,
            l >= m,
            m >= 1,
    ;
}

/// With distinct positions the common denominator is at least 1.
pub proof fn lemma_common_denominator_positive(xs: Seq<int>)
    requires
        distinct(xs),
    ensures
        common_denominator(xs) >= 1,
{
    let mags = denominator_magnitudes(xs);
    assert forall|j: int| 0 <= j < mags.len() implies mags[j] > 0 by {
        lemma_basis_denominator_nonzero(xs, j);
    }
    lemma_lcm_of_positive(mags);
}

/// With no negative position and no negative value the load is not
/// negative, and it grows with the number of points counted.
pub proof fn lemma_load_increases(xs: Seq<int>, ys: Seq<int>, from: int, upto: int)
    requires
        xs.len() == ys.len(),
        forall|i: int| 0 <= i < xs.len() ==> xs[i] >= 0,
        forall|i: int| 0 <= i < ys.len() ==> ys[i] >= 0,
        0 <= from <= upto <= xs.len(),
    ensures
        0 <= interpolation_load(xs, ys, from) <= interpolation_load(xs, ys, upto),
    decreases upto,
{
    if upto == 0 {
    } else {
        let i = upto - 1;
        let others = xs.remove(i);
        assert forall|j: int| 0 <= j < others.len() implies others[j] >= 0 by {
            if j < i {
                assert(others[j] == xs[j]);
            } else {
                assert(others[j] == xs[j + 1]);
            }
        }
        lemma_growth_increases(others, 0);
        let y = ys[i];
        let w = magnitude(basis_weight(xs, i)) as int;
        let g = growth(others);
        assert(y * w * g >= 0) by (nonlinear_arith)
            requires
                y >= 0,
                w >= 0,
                g >= 1,
        ;
        if from < upto {
            lemma_load_increases(xs, ys, from, i);
        } else {
            lemma_load_increases(xs, ys, 0, i);
        }
    }
}

/// With no negative position and no negative value, every coefficient of
/// the sum of the first `upto` weighted basis numerators is bounded in
/// magnitude by the load of those points.
pub proof fn lemma_load_bounds_coefficient(xs: Seq<int>, ys: Seq<int>, k: int, upto: int)
    requires
        xs.len() == ys.len(),
        forall|i: int| 0 <= i < xs.len() ==> xs[i] >= 0,
        forall|i: int| 0 <= i < ys.len() ==> ys[i] >= 0,
        0 <= upto <= xs.len(),
        0 <= k < xs.len(),
    ensures
        magnitude(scaled_coefficient(xs, ys, k, upto)) <= interpolation_load(xs, ys, upto),
    decreases upto,
{
    if upto > 0 {
        let i = upto - 1;
        lemma_load_bounds_coefficient(xs, ys, k, i);
        let others = xs.remove(i);
        assert forall|j: int| 0 <= j < others.len() implies others[j] >= 0 by {
            if j < i {
                assert(others[j] == xs[j]);
            } else {
                assert(others[j] == xs[j + 1]);
            }
        }
        lemma_linear_product_bound(others, k);
        let y = ys[i];
        let w = basis_weight(xs, i);
        let b = basis_numerator(xs, i)[k];
        let g = growth(others);
        assert(magnitude(y * w * b) <= y * magnitude(w) * g) by (nonlinear_arith)
            requires
                y >= 0,
                magnitude(b) <= g,
        ;
    }
}

/// The value of the sum of the first `upto` weighted basis numerators is the
/// sum of their weighted values.
pub proof fn lemma_partial_interpolant_value(xs: Seq<int>, ys: Seq<int>, x: int, upto: int)
    requires
        0 <= upto <= xs.len(),
        xs.len() == ys.len(),
    ensures
        poly_value(Seq::new(xs.len(), |k: int| scaled_coefficient(xs, ys, k, upto)), x)
            == scaled_value(xs, ys, x, upto),
    decreases upto,
{
    let n = xs.len();
    let whole = Seq::new(n, |k: int| scaled_coefficient(xs, ys, k, upto));
    if upto == 0 {
        lemma_poly_value_of_zeros(whole, x);
    } else {
        let i = upto - 1;
        let before = Seq::new(n, |k: int| scaled_coefficient(xs, ys, k, i));
        let s = ys[i] * basis_weight(xs, i);
        let term = poly_scale(basis_numerator(xs, i), s);
        lemma_linear_product_monic(xs.remove(i));
        assert(whole =~= poly_add(before, term));
        lemma_partial_interpolant_value(xs, ys, x, i);
        lemma_poly_value_add(before, term, x);
        lemma_poly_value_scale(basis_numerator(xs, i), s, x);
        lemma_linear_product_value(xs.remove(i), x);
    }
}

/// At the position `xs[j]` only the `j`-th weighted basis numerator has a
/// value other than zero, and that value is the common denominator times `ys[j]`.
pub proof fn lemma_scaled_value_at_position(xs: Seq<int>, ys: Seq<int>, j: int, upto: int)
    requires
        distinct(xs),
        xs.len() == ys.len(),
        0 <= j < xs.len(),
        0 <= upto <= xs.len(),
    ensures
        scaled_value(xs, ys, xs[j], upto) == if upto > j {
            common_denominator(xs) * ys[j]
        } else {
            0
        },
    decreases upto,
{
    if upto > 0 {
        let i = upto - 1;
        lemma_scaled_value_at_position(xs, ys, j, i);
        let s = ys[i] * basis_weight(xs, i);
        let v = difference_product(xs.remove(i), xs[j]);
        if i == j {
            lemma_basis_weight(xs, i);
            assert(s * v == common_denominator(xs) * ys[j]) by (nonlinear_arith)
                requires
                    s == ys[j] * basis_weight(xs, j),
                    basis_weight(xs, j) * v == common_denominator(xs),
            ;
        } else {
            let others = xs.remove(i);
            if j < i {
                assert(others[j] == xs[j]);
                lemma_difference_product_at_root(others, j);
            } else {
                assert(others[j - 1] == xs[j]);
                lemma_difference_product_at_root(others, j - 1);
            }
            assert(s * v == 0) by (nonlinear_arith)
                requires
                    v == 0,
            ;
        }
    }
}

/// The interpolating polynomial passes through every point: at `xs[j]` the
/// scaled interpolant has the value `ys[j]` times the common denominator.
pub proof fn lemma_interpolant_passes_through(xs: Seq<int>, ys: Seq<int>, j: int)
    requires
        distinct(xs),
        xs.len() == ys.len(),
        0 <= j < xs.len(),
    ensures
        poly_value(scaled_interpolant(xs, ys), xs[j]) == common_denominator(xs) * ys[j],
{
    lemma_partial_interpolant_value(xs, ys, xs[j], xs.len() as int);
    lemma_scaled_value_at_position(xs, ys, j, xs.len() as int);
}

/// A polynomial with as many distinct roots as it has coefficients is zero.
pub proof fn lemma_roots_force_zero(q: Seq<int>, roots: Seq<int>)
    requires
        distinct(roots),
        q.len() == roots.len(),
        forall|j: int| 0 <= j < roots.len() ==> poly_value(q, roots[j]) == 0,
    ensures
        forall|k: int| 0 <= k < q.len() ==> q[k] == 0,
    decreases q.len(),
{
    let n = q.len() as int;
    if n > 0 {
        let lead = q[n - 1];
        let front = roots.drop_last();
        let monic = linear_product(front);
        lemma_linear_product_monic(front);
        let rest = Seq::new(q.len(), |k: int| q[k] - lead * monic[k]);
        assert(rest =~= poly_add(q, poly_scale(monic, -lead))) by {
            assert forall|k: int| 0 <= k < n implies q[k] - lead * monic[k] == q[k] + (-lead)
                * monic[k] by {
                assert((-lead) * monic[k] == -(lead * monic[k])) by (nonlinear_arith);
            }
        }
        assert(rest[n - 1] == 0) by {
            assert(lead * 1 == lead);
        }
        let lower = rest.take(n - 1);
        assert forall|j: int| 0 <= j < front.len() implies poly_value(lower, front[j]) == 0 by {
            let x = front[j];
            assert(x == roots[j]);
            lemma_poly_value_of_padded(rest, n - 1, x);
            lemma_poly_value_add(q, poly_scale(monic, -lead), x);
            lemma_poly_value_scale(monic, -lead, x);
            lemma_linear_product_value(front, x);
            lemma_difference_product_at_root(front, j);
            assert((-lead) * 0 == 0);
        }
        lemma_roots_force_zero(lower, front);
        assert forall|k: int| 0 <= k < n implies rest[k] == 0 by {
            if k < n - 1 {
                assert(rest[k] == lower[k]);
            }
        }
        let last = roots[n - 1];
        let v = difference_product(front, last);
        lemma_poly_value_of_zeros(rest, last);
        lemma_poly_value_add(q, poly_scale(monic, -lead), last);
        lemma_poly_value_scale(monic, -lead, last);
        lemma_linear_product_value(front, last);
        assert forall|j: int| 0 <= j < front.len() implies front[j] != last by {
            assert(front[j] == roots[j]);
        }
        lemma_difference_product_away(front, last, 0);
        assert(lead == 0) by (nonlinear_arith)
            requires
                0 + (-lead) * v == 0,
                v != 0,
        ;
        assert forall|k: int| 0 <= k < n implies q[k] == 0 by {
            assert(rest[k] == 0);
            assert(0 * monic[k] == 0);
        }
    }
}

/// Interpolation recovers a polynomial from its own values: where the
/// positions are distinct, at least as many as the coefficients, every value
/// is that of the polynomial `c` at its position, and no coefficient of `c` is
/// negative, the interpolation gives back exactly `c`.
pub proof fn lemma_interpolation_recovers(c: Seq<int>, xs: Seq<int>, ys: Seq<int>)
    requires
        non_negative(c),
        distinct(xs),
        xs.len() == ys.len(),
        c.len() <= xs.len(),
        forall|i: int| 0 <= i < xs.len() ==> ys[i] == poly_value(c, xs[i]),
    ensures
        interpolation(xs, ys, c.len()) == c,
{
    let n = xs.len();
    let m = c.len() as int;
    let l = common_denominator(xs) as int;
    lemma_common_denominator_positive(xs);
    let found = scaled_interpolant(xs, ys);
    let padded = Seq::new(
        n,
        |k: int|
            if k < m {
                c[k]
            } else {
                0
            },
    );
    let wanted = poly_scale(padded, -l);
    let gap = poly_add(found, wanted);
    assert forall|j: int| 0 <= j < n implies poly_value(gap, xs[j]) == 0 by {
        let x = xs[j];
        lemma_interpolant_passes_through(xs, ys, j);
        lemma_poly_value_add(found, wanted, x);
        lemma_poly_value_scale(padded, -l, x);
        lemma_poly_value_of_padded(padded, m, x);
        assert(padded.take(m) =~= c);
        assert(l * ys[j] + (-l) * ys[j] == 0) by (nonlinear_arith);
    }
    lemma_roots_force_zero(gap, xs);
    assert forall|k: int| 0 <= k < m implies interpolation(xs, ys, c.len())[k] == c[k] by {
        assert(gap[k] == 0);
        assert(found[k] == scaled_coefficient(xs, ys, k, n as int));
        assert(found[k] == c[k] * l) by (nonlinear_arith)
            requires
                found[k] + (-l) * c[k] == 0,
        ;
        assert(c[k] * l >= 0) by (nonlinear_arith)
            requires
                c[k] >= 0,
                l >= 1,
        ;
        lemma_round_ratio_of_multiple(c[k] as nat, l as nat);
    }
    assert(interpolation(xs, ys, c.len()) =~= c);
}

} // verus!
