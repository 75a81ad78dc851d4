use crate::divisors::magnitude;
use crate::polynomial::{
    lemma_poly_value_add, lemma_poly_value_horner, lemma_poly_value_scale, poly_add, poly_scale,
    poly_value,
};
use vstd::arithmetic::power::{lemma_pow0, pow};
use vstd::prelude::*;

verus! {

/// No two entries of `xs` are equal.
pub open spec fn distinct(xs: Seq<int>) -> bool {
    forall|i: int, j: int| 0 <= i < j < xs.len() ==> xs[i] != xs[j]
}

/// The product of `p` with the linear factor `x - a`.
pub open spec fn mul_linear(p: Seq<int>, a: int) -> Seq<int> {
    Seq::new(
        p.len() + 1,
        |k: int|
            (if k >= 1 {
                p[k - 1]
            } else {
                0
            }) - a * (if k < p.len() {
                p[k]
            } else {
                0
            }),
    )
}

/// The coefficients of the product of `x - r` over all `r` in `roots`.
pub open spec fn linear_product(roots: Seq<int>) -> Seq<int>
    decreases roots.len(),
{
    if roots.len() == 0 {
        seq![1int]
    } else {
        mul_linear(linear_product(roots.drop_last()), roots.last())
    }
}

/// The product of `x - r` over all `r` in `roots`.
pub open spec fn difference_product(roots: Seq<int>, x: int) -> int
    decreases roots.len(),
{
    if roots.len() == 0 {
        1
    } else {
        difference_product(roots.drop_last(), x) * (x - roots.last())
    }
}

/// The product of `1 + r` over all `r` in `roots`: with no negative root, a
/// bound on every coefficient of their [`linear_product`].
pub open spec fn growth(roots: Seq<int>) -> int
    decreases roots.len(),
{
    if roots.len() == 0 {
        1
    } else {
        growth(roots.drop_last()) * (1 + roots.last())
    }
}

/// Multiplying by `x - a` multiplies the value by `x - a`.
pub proof fn lemma_mul_linear_value(p: Seq<int>, a: int, x: int)
    ensures
        poly_value(mul_linear(p, a), x) == (x - a) * poly_value(p, x),
{
    let shifted = seq![0int] + p;
    let padded = p.push(0);
    assert forall|k: int| 0 <= k <= p.len() implies mul_linear(p, a)[k] == poly_add(
        shifted,
        poly_scale(padded, -a),
    )[k] by {
        let high = padded[k];
        assert((-a) * high == -(a * high)) by (nonlinear_arith);
    }
    assert(mul_linear(p, a) =~= poly_add(shifted, poly_scale(padded, -a)));
    lemma_poly_value_add(shifted, poly_scale(padded, -a), x);
    lemma_poly_value_scale(padded, -a, x);
    lemma_poly_value_horner(shifted, x);
    assert(shifted.drop_first() =~= p);
    assert(padded.drop_last() =~= p);
    assert(0 * pow(x, p.len()) == 0);
    assert(poly_value(padded, x) == poly_value(p, x));
    assert(x * poly_value(p, x) + (-a) * poly_value(p, x) == (x - a) * poly_value(p, x))
        by (nonlinear_arith);
}

/// A product of linear factors has one coefficient more than it has roots,
/// and its highest coefficient is 1.
pub proof fn lemma_linear_product_monic(roots: Seq<int>)
    ensures
        linear_product(roots).len() == roots.len() + 1,
        linear_product(roots).last() == 1,
    decreases roots.len(),
{
    if roots.len() > 0 {
        lemma_linear_product_monic(roots.drop_last());
    }
}

/// The value of a product of linear factors is the product of the differences.
pub proof fn lemma_linear_product_value(roots: Seq<int>, x: int)
    ensures
        poly_value(linear_product(roots), x) == difference_product(roots, x),
    decreases roots.len(),
{
    if roots.len() == 0 {
        lemma_pow0(x);
        assert(seq![1int].drop_last().len() == 0);
        assert(poly_value(seq![1int].drop_last(), x) == 0);
        assert(seq![1int].last() == 1);
    } else {
        lemma_linear_product_value(roots.drop_last(), x);
        lemma_mul_linear_value(linear_product(roots.drop_last()), roots.last(), x);
        let v = difference_product(roots.drop_last(), x);
        assert((x - roots.last()) * v == v * (x - roots.last())) by (nonlinear_arith);
    }
}

/// The product of the differences vanishes at each root.
pub proof fn lemma_difference_product_at_root(roots: Seq<int>, i: int)
    requires
        0 <= i < roots.len(),
    ensures
        difference_product(roots, roots[i]) == 0,
    decreases roots.len(),
{
    let x = roots[i];
    if i < roots.len() - 1 {
        lemma_difference_product_at_root(roots.drop_last(), i);
    }
    let v = difference_product(roots.drop_last(), x);
    assert(v * (x - roots.last()) == 0) by (nonlinear_arith)
        requires
            v == 0 || x - roots.last() == 0,
    ;
}

/// Away from the roots the product of the differences is not zero, and its
/// magnitude is at least that of the product over any prefix of the roots.
pub proof fn lemma_difference_product_away(roots: Seq<int>, x: int, upto: int)
    requires
        forall|j: int| 0 <= j < roots.len() ==> roots[j] != x,
        0 <= upto <= roots.len(),
    ensures
        1 <= magnitude(difference_product(roots.take(upto), x)) <= magnitude(
            difference_product(roots, x),
        ),
    decreases roots.len(),
{
    if roots.len() == 0 {
        assert(roots.take(upto) =~= roots);
    } else if upto == roots.len() {
        assert(roots.take(upto) =~= roots);
        lemma_difference_product_away(roots.drop_last(), x, upto - 1);
        let v = difference_product(roots.drop_last(), x);
        let f = x - roots.last();
        assert(magnitude(v * f) >= magnitude(v)) by (nonlinear_arith)
            requires
                f != 0,
        ;
    } else {
        lemma_difference_product_away(roots.drop_last(), x, upto);
        assert(roots.drop_last().take(upto) =~= roots.take(upto));
        let v = difference_product(roots.drop_last(), x);
        let f = x - roots.last();
        assert(magnitude(v * f) >= magnitude(v)) by (nonlinear_arith)
            requires
                f != 0,
        ;
    }
}

/// With no negative root the growth is at least 1, and at least the growth
/// of any prefix of the roots.
pub proof fn lemma_growth_increases(roots: Seq<int>, upto: int)
    requires
        forall|j: int| 0 <= j < roots.len() ==> roots[j] >= 0,
        0 <= upto <= roots.len(),
    ensures
        1 <= growth(roots.take(upto)) <= growth(roots),
    decreases roots.len(),
{
    if roots.len() == 0 || upto == roots.len() {
        assert(roots.take(upto) =~= roots);
        if roots.len() > 0 {
            lemma_growth_increases(roots.drop_last(), upto - 1);
            let g = growth(roots.drop_last());
            let f = 1 + roots.last();
            assert(g * f >= g) by (nonlinear_arith)
                requires
                    g >= 1,
                    f >= 1,
            ;
        }
    } else {
        lemma_growth_increases(roots.drop_last(), upto);
        assert(roots.drop_last().take(upto) =~= roots.take(upto));
        let g = growth(roots.drop_last());
        let f = 1 + roots.last();
        assert(g * f >= g) by (nonlinear_arith)
            requires
                g >= 1,
                f >= 1,
        ;
    }
}

/// With no negative root, every coefficient of the product of the linear
/// factors is bounded in magnitude by the growth of the roots.
pub proof fn lemma_linear_product_bound(roots: Seq<int>, k: int)
    requires
        forall|j: int| 0 <= j < roots.len() ==> roots[j] >= 0,
        0 <= k <= roots.len(),
    ensures
        linear_product(roots).len() == roots.len() + 1,
        magnitude(linear_product(roots)[k]) <= growth(roots),
    decreases roots.len(),
{
    lemma_linear_product_monic(roots);
    if roots.len() > 0 {
        let front = roots.drop_last();
        let p = linear_product(front);
        let a = roots.last();
        let g = growth(front);
        lemma_linear_product_monic(front);
        lemma_growth_increases(front, 0);
        let low = if k >= 1 {
            p[k - 1]
        } else {
            0
        };
        let high = if k < p.len() {
            p[k]
        } else {
            0
        };
        if k >= 1 {
            lemma_linear_product_bound(front, k - 1);
        }
        if k < p.len() {
            lemma_linear_product_bound(front, k);
        }
        assert(magnitude(low - a * high) <= g * (1 + a)) by (nonlinear_arith)
            requires
                magnitude(low) <= g,
                magnitude(high) <= g,
                a >= 0,
        ;
    }
}

} // verus!
