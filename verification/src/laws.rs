use crate::basis::distinct;
use crate::encoder::{byte_coefficients, codeword, parity_count, points_as_ints};
use crate::interpolant::{interpolation, lemma_interpolation_recovers};
use crate::polynomial::{poly_value, positions_of, values_of};
use vstd::prelude::*;

verus! {

/// Any sufficient part of a codeword gives the message back.
///
/// Let `word` be the codeword of `message` at a redundancy of `ratio`
/// percent, and let `points` be the points of `word` at the indices `picks`,
/// which are distinct and at least as many as the message has bytes. Then
/// the positions of `points` are distinct, and interpolating `points` for as
/// many coefficients as the message has bytes gives exactly the coefficients
/// of the message, whichever points were picked and in whatever order.
pub proof fn lemma_round_trip(
    message: Seq<u8>,
    ratio: int,
    word: Seq<(u64, u128)>,
    picks: Seq<int>,
    points: Seq<(u64, u128)>,
)
    requires
        0 <= ratio < 100,
        points_as_ints(word) == codeword(
            byte_coefficients(message),
            parity_count(message.len(), ratio),
        ),
        distinct(picks),
        forall|i: int| 0 <= i < picks.len() ==> 0 <= #[trigger] picks[i] < word.len(),
        points.len() == picks.len(),
        forall|i: int| 0 <= i < picks.len() ==> #[trigger] points[i] == word[picks[i]],
        picks.len() >= message.len(),
    ensures
        distinct(positions_of(points)),
        interpolation(positions_of(points), values_of(points), message.len())
            == byte_coefficients(message),
{
    let c = byte_coefficients(message);
    let whole = codeword(c, parity_count(message.len(), ratio));
    let xs = positions_of(points);
    let ys = values_of(points);
    assert(word.len() == points_as_ints(word).len());
    assert forall|i: int| 0 <= i < xs.len() implies xs[i] == picks[i] + 1 && ys[i]
        == poly_value(c, xs[i]) by {
        let t = picks[i];
        assert(points_as_ints(word)[t] == whole[t]);
        assert(points_as_ints(word)[t] == (word[t].0 as int, word[t].1 as int));
    }
    assert forall|i: int, j: int| 0 <= i < j < xs.len() implies xs[i] != xs[j] by {
        assert(picks[i] != picks[j]);
    }
    lemma_interpolation_recovers(c, xs, ys);
}

} // verus!
