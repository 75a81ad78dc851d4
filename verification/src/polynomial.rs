use vstd::arithmetic::power::{lemma_pow0, lemma_pow_positive, pow};
use vstd::prelude::*;

verus! {

/// The mathematical integers that a sequence of machine words stands for.
pub open spec fn as_ints(words: Seq<u128>) -> Seq<int> {
    words.map_values(|w: u128| w as int)
}

/// The second components of a sequence of points, as mathematical integers.
pub open spec fn values_of(points: Seq<(u64, u128)>) -> Seq<int> {
    points.map_values(|p: (u64, u128)| p.1 as int)
}

/// The first components of a sequence of points, as mathematical integers.
pub open spec fn positions_of(points: Seq<(u64, u128)>) -> Seq<int> {
    points.map_values(|p: (u64, u128)| p.0 as int)
}

/// Value at `x` of the polynomial whose coefficient of `x^i` is `c[i]`:
/// the sum of `c[i] * x^i` over all indices of `c`.
pub open spec fn poly_value(c: Seq<int>, x: int) -> int
    decreases c.len(),
{
    if c.len() == 0 {
        0
    } else {
        poly_value(c.drop_last(), x) + c.last() * pow(x, (c.len() - 1) as nat)
    }
}

/// Every entry of `c` is at least zero.
pub open spec fn non_negative(c: Seq<int>) -> bool {
    forall|i: int| 0 <= i < c.len() ==> c[i] >= 0
}

/// Horner's rule: a polynomial is its constant term plus `x` times the
/// polynomial of the remaining coefficients.
pub proof fn lemma_poly_value_horner(c: Seq<int>, x: int)
    requires
        c.len() > 0,
    ensures
        poly_value(c, x) == c[0] + x * poly_value(c.drop_first(), x),
    decreases c.len(),
{
    let n = c.len();
    if n == 1 {
        lemma_pow0(x);
        assert(c.drop_last().len() == 0);
        assert(c.drop_first().len() == 0);
        assert(poly_value(c.drop_last(), x) == 0);
        assert(poly_value(c.drop_first(), x) == 0);
    } else {
        let front = c.drop_last();
        let rest = c.drop_first();
        lemma_poly_value_horner(front, x);
        assert(front.drop_first() =~= rest.drop_last());
        assert(front[0] == c[0]);
        assert(rest.last() == c.last());
        let e = (n - 2) as nat;
        assert(pow(x, (n - 1) as nat) == x * pow(x, e)) by {
            reveal(pow);
        }
        let mid = poly_value(rest.drop_last(), x);
        assert(poly_value(rest, x) == mid + c.last() * pow(x, e));
        assert(x * (mid + c.last() * pow(x, e)) == x * mid + c.last() * (x * pow(x, e)))
            by (nonlinear_arith);
    }
}

/// A polynomial with no negative coefficient takes no negative value at a
/// position that is not negative.
pub proof fn lemma_poly_value_non_negative(c: Seq<int>, x: int)
    requires
        non_negative(c),
        x >= 0,
    ensures
        poly_value(c, x) >= 0,
    decreases c.len(),
{
    if c.len() > 0 {
        lemma_poly_value_non_negative(c.drop_last(), x);
        let e = (c.len() - 1) as nat;
        if x > 0 {
            lemma_pow_positive(x, e);
        } else {
            assert(pow(x, e) >= 0) by {
                reveal(pow);
            }
        }
        assert(c.last() * pow(x, e) >= 0) by (nonlinear_arith)
            requires
                c.last() >= 0,
                pow(x, e) >= 0,
        ;
    }
}

/// With no negative coefficient and a position of at least one, the
/// polynomial of a tail of the coefficients is at most that of all of them.
pub proof fn lemma_poly_value_tail_bound(c: Seq<int>, x: int, from: int)
    requires
        non_negative(c),
        x >= 1,
        0 <= from <= c.len(),
    ensures
        0 <= poly_value(c.subrange(from, c.len() as int), x) <= poly_value(c, x),
    decreases from,
{
    let tail = c.subrange(from, c.len() as int);
    lemma_poly_value_non_negative(tail, x);
    if from == 0 {
        assert(tail =~= c);
    } else {
        let longer = c.subrange(from - 1, c.len() as int);
        lemma_poly_value_tail_bound(c, x, from - 1);
        lemma_poly_value_horner(longer, x);
        assert(longer.drop_first() =~= tail);
        assert(x * poly_value(tail, x) >= poly_value(tail, x)) by (nonlinear_arith)
            requires
                x >= 1,
                poly_value(tail, x) >= 0,
        ;
    }
}

/// The sum of two polynomials of the same length, coefficient by coefficient.
pub open spec fn poly_add(p: Seq<int>, q: Seq<int>) -> Seq<int> {
    Seq::new(p.len(), |k: int| p[k] + q[k])
}

/// The polynomial `p` with every coefficient multiplied by `s`.
pub open spec fn poly_scale(p: Seq<int>, s: int) -> Seq<int> {
    Seq::new(p.len(), |k: int| s * p[k])
}

/// The value of a sum of polynomials is the sum of their values.
pub proof fn lemma_poly_value_add(p: Seq<int>, q: Seq<int>, x: int)
    requires
        p.len() == q.len(),
    ensures
        poly_value(poly_add(p, q), x) == poly_value(p, x) + poly_value(q, x),
    decreases p.len(),
{
    if p.len() > 0 {
        lemma_poly_value_add(p.drop_last(), q.drop_last(), x);
        assert(poly_add(p, q).drop_last() =~= poly_add(p.drop_last(), q.drop_last()));
        let w = pow(x, (p.len() - 1) as nat);
        assert((p.last() + q.last()) * w == p.last() * w + q.last() * w) by (nonlinear_arith);
    }
}

/// The value of a scaled polynomial is the scaled value.
pub proof fn lemma_poly_value_scale(p: Seq<int>, s: int, x: int)
    ensures
        poly_value(poly_scale(p, s), x) == s * poly_value(p, x),
    decreases p.len(),
{
    if p.len() > 0 {
        lemma_poly_value_scale(p.drop_last(), s, x);
        assert(poly_scale(p, s).drop_last() =~= poly_scale(p.drop_last(), s));
        let w = pow(x, (p.len() - 1) as nat);
        let front = poly_value(p.drop_last(), x);
        assert(s * front + (s * p.last()) * w == s * (front + p.last() * w)) by (nonlinear_arith);
    }
}

/// Coefficients that are all zero give the value zero.
pub proof fn lemma_poly_value_of_zeros(p: Seq<int>, x: int)
    requires
        forall|k: int| 0 <= k < p.len() ==> p[k] == 0,
    ensures
        poly_value(p, x) == 0,
    decreases p.len(),
{
    if p.len() > 0 {
        lemma_poly_value_of_zeros(p.drop_last(), x);
        assert(0 * pow(x, (p.len() - 1) as nat) == 0);
    }
}

/// Zero coefficients above the first `len` do not change the value.
pub proof fn lemma_poly_value_of_padded(p: Seq<int>, len: int, x: int)
    requires
        0 <= len <= p.len(),
        forall|k: int| len <= k < p.len() ==> p[k] == 0,
    ensures
        poly_value(p, x) == poly_value(p.take(len), x),
    decreases p.len(),
{
    if len == p.len() {
        assert(p.take(len) =~= p);
    } else {
        lemma_poly_value_of_padded(p.drop_last(), len, x);
        assert(p.drop_last().take(len) =~= p.take(len));
        assert(0 * pow(x, (p.len() - 1) as nat) == 0);
    }
}

/// Evaluates the polynomial with coefficients `coeffs` at `point`, by
/// Horner's rule from the highest coefficient down. The result is exact, and
/// `None` exactly when it does not fit in 128 bits.
pub fn poly_eval(coeffs: &Vec<u128>, point: u64) -> (value: Option<u128>)
    ensures
        value.is_some() <==> poly_value(as_ints(coeffs@), point as int) <= u128::MAX,
        value.is_some() ==> value.unwrap() == poly_value(as_ints(coeffs@), point as int),
{
    let ghost c = as_ints(coeffs@);
    let ghost x = point as int;
    let n = coeffs.len();
    let mut acc: u128 = 0;
    let mut i: usize = n;
    proof {
        assert(c.subrange(n as int, n as int).len() == 0);
    }
    while i > 0
        invariant
            0 <= i <= n,
            n == coeffs.len(),
            c == as_ints(coeffs@),
            x == point as int,
            acc == poly_value(c.subrange(i as int, n as int), x),
        decreases i,
    {
        let ghost tail = c.subrange(i as int, n as int);
        let ghost longer = c.subrange(i - 1, n as int);
        proof {
            lemma_poly_value_horner(longer, x);
            assert(longer.drop_first() =~= tail);
            assert(longer[0] == coeffs@[i - 1] as int);
            assert(acc * (point as u128) == x * poly_value(tail, x)) by (nonlinear_arith)
                requires
                    acc == poly_value(tail, x),
                    point as u128 == x,
            ;
            if x >= 1 {
                lemma_poly_value_tail_bound(c, x, i - 1);
                assert(0 <= x * poly_value(tail, x)) by (nonlinear_arith)
                    requires
                        x >= 1,
                        poly_value(tail, x) >= 0,
                ;
            } else {
                assert(x * poly_value(tail, x) == 0) by (nonlinear_arith)
                    requires
                        x == 0,
                ;
            }
            assert(poly_value(longer, x) == coeffs@[i - 1] + acc * (point as u128));
            assert(acc * (point as u128) <= poly_value(longer, x));
            assert(poly_value(longer, x) > u128::MAX ==> poly_value(c, x) > u128::MAX);
        }
        let scaled = match acc.checked_mul(point as u128) {
            Some(s) => s,
            None => {
                return None;
            },
        };
        acc = match scaled.checked_add(coeffs[i - 1]) {
            Some(s) => s,
            None => {
                return None;
            },
        };
        i = i - 1;
    }
    proof {
        assert(c.subrange(0, n as int) =~= c);
    }
    Some(acc)
}

/// Evaluates at `point` the polynomial whose coefficients are the values of
/// `coeffs`, in order; the positions are not read. `None` exactly when the
/// result does not fit in 128 bits.
pub fn recover(coeffs: &Vec<(u64, u128)>, point: u64) -> (value: Option<u128>)
    ensures
        value.is_some() <==> poly_value(values_of(coeffs@), point as int) <= u128::MAX,
        value.is_some() ==> value.unwrap() == poly_value(values_of(coeffs@), point as int),
{
    let mut ys: Vec<u128> = Vec::new();
    let mut i: usize = 0;
    while i < coeffs.len()
        invariant
            0 <= i <= coeffs.len(),
            ys@.len() == i,
            forall|j: int| 0 <= j < i ==> ys@[j] == coeffs@[j].1,
        decreases coeffs.len() - i,
    {
        ys.push(coeffs[i].1);
        i = i + 1;
    }
    proof {
        assert(as_ints(ys@) =~= values_of(coeffs@));
    }
    poly_eval(&ys, point)
}

} // verus!
