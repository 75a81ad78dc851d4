use crate::error::CodingError;
use crate::polynomial::{as_ints, poly_eval, poly_value};
use vstd::prelude::*;
use vstd::slice::slice_to_vec;
use vstd::string::StringSliceAdditionalSpecFns;

verus! {

/// The redundancy ratio, in percent, that [`erasure_coding`] encodes with.
pub const THRESHOLD: i32 = 30;

/// The coefficients that a message stands for: each byte as an integer.
pub open spec fn byte_coefficients(message: Seq<u8>) -> Seq<int> {
    message.map_values(|b: u8| b as int)
}

/// The number of parity points for a message of `len` bytes at a redundancy
/// of `ratio` percent: `ratio * len / 100`, rounded up.
pub open spec fn parity_count(len: nat, ratio: int) -> nat {
    ((ratio * len + 99) / 100) as nat
}

/// The codeword of the polynomial with coefficients `c` and `parity` parity
/// points: the points `(i, P(i))` for `i` from 1 to `c.len() + parity`.
pub open spec fn codeword(c: Seq<int>, parity: nat) -> Seq<(int, int)> {
    Seq::new(c.len() + parity, |i: int| (i + 1, poly_value(c, i + 1)))
}

/// Every position of the codeword fits in 64 bits and every value in 128.
pub open spec fn codeword_fits(word: Seq<(int, int)>) -> bool {
    forall|i: int| 0 <= i < word.len() ==> word[i].0 <= u64::MAX && word[i].1 <= u128::MAX
}

/// The mathematical points that a sequence of machine points stands for.
pub open spec fn points_as_ints(points: Seq<(u64, u128)>) -> Seq<(int, int)> {
    points.map_values(|p: (u64, u128)| (p.0 as int, p.1 as int))
}

/// The parity count is the least number of points that makes up the ratio:
/// a hundred times it is at least `ratio * len`, and for one point less it is not.
pub proof fn lemma_parity_count_is_ceiling(len: nat, ratio: int)
    requires
        0 <= ratio < 100,
    ensures
        100 * parity_count(len, ratio) >= ratio * len,
        100 * (parity_count(len, ratio) - 1) < ratio * len,
        parity_count(len, ratio) <= len,
{
    let a = ratio * len;
    assert(0 <= a <= 99 * len) by (nonlinear_arith)
        requires
            0 <= ratio < 100,
            a == ratio * len,
    ;
}

/// The bytes of a message.
pub fn eval(message: &str) -> (bytes: Vec<u8>)
    ensures
        bytes@ == message.spec_bytes(),
{
    slice_to_vec(message.as_bytes())
}

/// Maps a message to its coefficients, one for each byte, in order.
pub fn coefficients(message: &[u8]) -> (coeffs: Vec<u128>)
    ensures
        as_ints(coeffs@) == byte_coefficients(message@),
{
    let mut coeffs: Vec<u128> = Vec::new();
    let mut i: usize = 0;
    while i < message.len()
        invariant
            0 <= i <= message@.len(),
            coeffs@.len() == i,
            forall|j: int| 0 <= j < i ==> coeffs@[j] == message@[j],
        decreases message@.len() - i,
    {
        coeffs.push(message[i] as u128);
        i = i + 1;
    }
    proof {
        assert(as_ints(coeffs@) =~= byte_coefficients(message@));
    }
    coeffs
}

/// Encodes `message` with a redundancy of `ratio` percent: the message's
/// bytes are the coefficients of a polynomial, and the codeword holds its
/// value at each of the positions 1, 2, .. up to the length of the message
/// plus the parity count.
///
/// A ratio below 0 or from 100 up is refused as `InvalidConfiguration`;
/// otherwise a codeword with a position beyond 64 bits or a value beyond 128
/// bits as `Overflow`.
pub fn encode(message: &[u8], ratio: i32) -> (result: Result<Vec<(u64, u128)>, CodingError>)
    ensures
        match result {
            Ok(word) => {
                &&& 0 <= ratio < 100
                &&& codeword_fits(
                    codeword(
                        byte_coefficients(message@),
                        parity_count(message@.len(), ratio as int),
                    ),
                )
                &&& points_as_ints(word@) == codeword(
                    byte_coefficients(message@),
                    parity_count(message@.len(), ratio as int),
                )
            },
            Err(CodingError::InvalidConfiguration) => ratio < 0 || ratio >= 100,
            Err(CodingError::Overflow) => {
                &&& 0 <= ratio < 100
                &&& !codeword_fits(
                    codeword(
                        byte_coefficients(message@),
                        parity_count(message@.len(), ratio as int),
                    ),
                )
            },
            Err(_) => false,
        },
{
    if ratio < 0 || ratio >= 100 {
        return Err(CodingError::InvalidConfiguration);
    }
    let coeffs = coefficients(message);
    let ghost c = byte_coefficients(message@);
    let ghost parity = parity_count(message@.len(), ratio as int);
    let ghost whole = codeword(c, parity);
    let len: u128 = message.len() as u128;
    proof {
        lemma_parity_count_is_ceiling(message@.len(), ratio as int);
        assert(0 <= (ratio as u128) * len <= 99 * len) by (nonlinear_arith)
            requires
                0 <= ratio < 100,
                0 <= len,
        ;
    }
    let extra: u128 = ((ratio as u128) * len + 99) / 100;
    let total: u128 = len + extra;
    if total > u64::MAX as u128 {
        proof {
            assert(whole[total - 1].0 == total);
        }
        return Err(CodingError::Overflow);
    }
    let last: u64 = total as u64;
    let mut word: Vec<(u64, u128)> = Vec::new();
    let mut position: u64 = 0;
    while position < last
        invariant
            0 <= position <= last,
            0 <= ratio < 100,
            parity == parity_count(message@.len(), ratio as int),
            last == c.len() + parity,
            c == byte_coefficients(message@),
            as_ints(coeffs@) == c,
            whole == codeword(c, parity),
            word@.len() == position,
            forall|t: int|
                0 <= t < position ==> word@[t].0 == t + 1 && word@[t].1 == poly_value(c, t + 1),
        decreases last - position,
    {
        position = position + 1;
        let value = match poly_eval(&coeffs, position) {
            Some(v) => v,
            None => {
                proof {
                    assert(whole[position - 1].1 == poly_value(c, position as int));
                }
                return Err(CodingError::Overflow);
            },
        };
        word.push((position, value));
    }
    proof {
        assert(points_as_ints(word@) =~= whole);
    }
    Ok(word)
}

/// Encodes `message` at the default redundancy of [`THRESHOLD`] percent.
pub fn erasure_coding(message: &str) -> (result: Result<Vec<(u64, u128)>, CodingError>)
    ensures
        match result {
            Ok(word) => {
                &&& codeword_fits(
                    codeword(
                        byte_coefficients(message.spec_bytes()),
                        parity_count(message.spec_bytes().len(), THRESHOLD as int),
                    ),
                )
                &&& points_as_ints(word@) == codeword(
                    byte_coefficients(message.spec_bytes()),
                    parity_count(message.spec_bytes().len(), THRESHOLD as int),
                )
            },
            Err(CodingError::Overflow) => !codeword_fits(
                codeword(
                    byte_coefficients(message.spec_bytes()),
                    parity_count(message.spec_bytes().len(), THRESHOLD as int),
                ),
            ),
            Err(_) => false,
        },
{
    let bytes = eval(message);
    encode(bytes.as_slice(), THRESHOLD)
}

} // verus!
