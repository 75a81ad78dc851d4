use vstd::arithmetic::div_mod::{
    lemma_fundamental_div_mod, lemma_fundamental_div_mod_converse, lemma_mod_multiples_basic,
};
use vstd::prelude::*;

verus! {

/// Greatest common divisor, by Euclid's recursion.
pub open spec fn gcd(a: nat, b: nat) -> nat
    decreases b,
{
    if b == 0 {
        a
    } else {
        gcd(b, a % b)
    }
}

/// The common multiple `a / gcd(a, b) * b` of two positive numbers.
pub open spec fn lcm(a: nat, b: nat) -> nat {
    ((a / gcd(a, b)) * b) as nat
}

/// The least common multiple of all entries of `s`, folded from the left;
/// 1 for the empty sequence.
pub open spec fn lcm_of(s: Seq<nat>) -> nat
    decreases s.len(),
{
    if s.len() == 0 {
        1
    } else {
        lcm(lcm_of(s.drop_last()), s.last())
    }
}

/// The quotient `a / b` rounded to the nearest integer, a half rounded up.
pub open spec fn round_ratio(a: nat, b: nat) -> nat {
    if 2 * (a % b) >= b {
        a / b + 1
    } else {
        a / b
    }
}

/// The magnitude of an integer.
pub open spec fn magnitude(v: int) -> nat {
    if v < 0 {
        (-v) as nat
    } else {
        v as nat
    }
}

/// A multiple of a multiple of `w` is a multiple of `w`.
pub proof fn lemma_multiple_of_multiple(u: int, v: int, w: int)
    requires
        v > 0,
        w > 0,
        u % v == 0,
        v % w == 0,
    ensures
        u % w == 0,
{
    lemma_fundamental_div_mod(u, v);
    lemma_fundamental_div_mod(v, w);
    let p = u / v;
    let q = v / w;
    assert(u == (p * q) * w) by (nonlinear_arith)
        requires
            u == v * p,
            v == w * q,
    ;
    lemma_mod_multiples_basic(p * q, w);
}

/// The greatest common divisor of two numbers, not both zero, is positive
/// and divides both.
pub proof fn lemma_gcd_divides(a: nat, b: nat)
    requires
        a > 0 || b > 0,
    ensures
        gcd(a, b) > 0,
        a % gcd(a, b) == 0,
        b % gcd(a, b) == 0,
    decreases b,
{
    if b == 0 {
        lemma_mod_multiples_basic(1, a as int);
        lemma_mod_multiples_basic(0, a as int);
    } else {
        let r = a % b;
        lemma_gcd_divides(b, r);
        let g = gcd(b, r) as int;
        lemma_fundamental_div_mod(a as int, b as int);
        lemma_fundamental_div_mod(b as int, g);
        lemma_fundamental_div_mod(r as int, g);
        let q = (a / b) as int;
        let kb = b as int / g;
        let kr = r as int / g;
        assert(a as int == (kb * q + kr) * g) by (nonlinear_arith)
            requires
                a as int == (b as int) * q + r as int,
                b as int == g * kb,
                r as int == g * kr,
        ;
        lemma_mod_multiples_basic(kb * q + kr, g);
    }
}

/// The common multiple of two positive numbers is a multiple of each, and
/// at least as large as each.
pub proof fn lemma_lcm_is_common_multiple(a: nat, b: nat)
    requires
        a > 0,
        b > 0,
    ensures
        lcm(a, b) == (a / gcd(a, b)) * b,
        lcm(a, b) >= a,
        lcm(a, b) >= b,
        lcm(a, b) % a == 0,
        lcm(a, b) % b == 0,
{
    lemma_gcd_divides(a, b);
    let g = gcd(a, b) as int;
    lemma_fundamental_div_mod(a as int, g);
    lemma_fundamental_div_mod(b as int, g);
    let ka = a as int / g;
    let kb = b as int / g;
    assert(ka >= 1 && kb >= 1) by (nonlinear_arith)
        requires
            a as int == g * ka,
            b as int == g * kb,
            a > 0,
            b > 0,
            g > 0,
    ;
    assert(ka * b >= b && ka * b == kb * a && kb * a >= a) by (nonlinear_arith)
        requires
            a as int == g * ka,
            b as int == g * kb,
            ka >= 1,
            kb >= 1,
            a > 0,
            b > 0,
    ;
    lemma_mod_multiples_basic(ka, b as int);
    lemma_mod_multiples_basic(kb, a as int);
}

/// The least common multiple of a sequence of positive numbers is positive,
/// a multiple of each entry, and at least the multiple of every prefix.
pub proof fn lemma_lcm_of_is_common_multiple(s: Seq<nat>, i: int)
    requires
        forall|j: int| 0 <= j < s.len() ==> s[j] > 0,
        0 <= i < s.len(),
    ensures
        lcm_of(s) > 0,
        lcm_of(s) % s[i] == 0,
        lcm_of(s) >= s[i],
        lcm_of(s) >= lcm_of(s.take(i)),
        lcm_of(s) >= lcm_of(s.take(i + 1)),
    decreases s.len(),
{
    let front = s.drop_last();
    lemma_lcm_of_positive(front);
    lemma_lcm_is_common_multiple(lcm_of(front), s.last());
    if i == s.len() - 1 {
        assert(s.take(i) =~= front);
        assert(s.take(i + 1) =~= s);
    } else {
        lemma_lcm_of_is_common_multiple(front, i);
        lemma_multiple_of_multiple(lcm_of(s) as int, lcm_of(front) as int, s[i] as int);
        assert(front.take(i) =~= s.take(i));
        assert(front.take(i + 1) =~= s.take(i + 1));
    }
}

/// The least common multiple of a sequence of positive numbers is positive.
pub proof fn lemma_lcm_of_positive(s: Seq<nat>)
    requires
        forall|j: int| 0 <= j < s.len() ==> s[j] > 0,
    ensures
        lcm_of(s) > 0,
    decreases s.len(),
{
    if s.len() > 0 {
        lemma_lcm_of_positive(s.drop_last());
        lemma_lcm_is_common_multiple(lcm_of(s.drop_last()), s.last());
    }
}

/// Rounding an exact multiple gives the exact quotient.
pub proof fn lemma_round_ratio_of_multiple(c: nat, b: nat)
    requires
        b > 0,
    ensures
        round_ratio(c * b, b) == c,
{
    lemma_fundamental_div_mod_converse((c * b) as int, b as int, c as int, 0);
}

/// Computes the greatest common divisor of two numbers that are not negative.
pub fn greatest_common_divisor(a: u128, b: u128) -> (g: u128)
    ensures
        g == gcd(a as nat, b as nat),
{
    let mut x: u128 = a;
    let mut y: u128 = b;
    while y != 0
        invariant
            gcd(x as nat, y as nat) == gcd(a as nat, b as nat),
        decreases y,
    {
        let r: u128 = x % y;
        x = y;
        y = r;
    }
    x
}

/// Computes the common multiple of two positive numbers, or `None` exactly
/// when it exceeds `limit`.
pub(crate) fn least_common_multiple(a: u128, b: u128, limit: u128) -> (m: Option<u128>)
    requires
        a > 0,
        b > 0,
        a <= limit,
    ensures
        m.is_some() <==> lcm(a as nat, b as nat) <= limit,
        m.is_some() ==> m.unwrap() == lcm(a as nat, b as nat),
        m.is_some() ==> m.unwrap() >= a && m.unwrap() >= b,
{
    proof {
        lemma_gcd_divides(a as nat, b as nat);
        lemma_lcm_is_common_multiple(a as nat, b as nat);
    }
    let g = greatest_common_divisor(a, b);
    let reduced: u128 = a / g;
    match reduced.checked_mul(b) {
        Some(m) => if m <= limit {
            Some(m)
        } else {
            None
        },
        None => None,
    }
}

/// Divides `a` by `b` and rounds to the nearest integer, a half rounded up.
pub(crate) fn rounded_quotient(a: u128, b: u128) -> (q: u128)
    requires
        b > 0,
        a / b < u128::MAX,
    ensures
        q == round_ratio(a as nat, b as nat),
{
    let whole: u128 = a / b;
    let rest: u128 = a % b;
    if rest >= b - rest {
        whole + 1
    } else {
        whole
    }
}

} // verus!
