//! Core of a learning-to-rank toolkit: a typed-array dataset layer, a
//! relevance-judgment store, and rank-based evaluation metrics (reciprocal
//! rank, NDCG, average precision) with exact, reproducible tie-break and
//! normalization rules.
//!
//! Real-valued scores and relevance gains enter this crate as *order keys*:
//! integers produced at the boundary by an order-preserving encoding of the
//! non-NaN floating-point values (a negative zero is first normalized to
//! positive zero; for the remaining IEEE-754 bits `b`, the key is `!b` when
//! the sign bit is set and `b | SIGN_BIT` otherwise). Under that encoding,
//! comparing keys compares the encoded values — the two zeros, equal as
//! values, share one key — `GAIN_ZERO_KEY` is the image of zero, and a gain
//! is *relevant* exactly when its key exceeds `GAIN_ZERO_KEY`. Everything the metrics decide — ordering, tie-breaks,
//! relevance, gain-vector selection — is a function of the keys alone; the
//! remaining real arithmetic (reciprocals, discount sums) is a function of
//! what these modules return and is carried out by the caller.

use vstd::prelude::*;

pub mod assoc;
pub mod dense_dataset;
pub mod errors;
pub mod evaluators;
pub mod qrel;
pub mod text;

verus! {

/// Order key of a zero gain: gains with keys above this are relevant.
pub const GAIN_ZERO_KEY: u32 = 0x8000_0000;

/// A gain key counts as relevant exactly when it encodes a value above zero.
pub open spec fn is_relevant_key(k: u32) -> bool {
    k > GAIN_ZERO_KEY
}

/// The relevant (positive) gains of a gain-key sequence, in order.
pub open spec fn positive_gains(gains: Seq<u32>) -> Seq<u32>
    decreases gains.len(),
{
    if gains.len() == 0 {
        Seq::empty()
    } else {
        let p = positive_gains(gains.drop_last());
        if is_relevant_key(gains.last()) {
            p.push(gains.last())
        } else {
            p
        }
    }
}

/// How many gains of a gain-key sequence are relevant.
pub open spec fn relevant_count(gains: Seq<u32>) -> nat {
    positive_gains(gains).len()
}

} // verus!
