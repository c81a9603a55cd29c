//! Documents and scores.
use vstd::prelude::*;

verus! {

/// A document within a segment.
pub type DocId = u32;

/// The position of a scorer that has no document left. Every document is smaller.
pub const TERMINATED: DocId = 0x7fff_ffff;

/// A score in fixed-point units.
///
/// The unit is the caller's choice: nothing here depends on it. Sums of scores are exact, and
/// `Score::MIN` stands for "no threshold yet".
pub type Score = i64;

/// A document within an index: a segment and a document of that segment.
#[derive(Clone, Copy, Debug, PartialEq, Eq, Structural)]
pub struct DocAddress {
    pub segment_ord: u32,
    pub doc_id: DocId,
}

impl DocAddress {
    pub fn new(segment_ord: u32, doc_id: DocId) -> (address: DocAddress)
        ensures
            address.segment_ord == segment_ord,
            address.doc_id == doc_id,
    {
        DocAddress { segment_ord, doc_id }
    }
}

/// `a - b`, kept within the range of a score.
pub open spec fn clamped_difference(a: Score, b: Score) -> Score {
    if a - b < Score::MIN {
        Score::MIN
    } else if a - b > Score::MAX {
        Score::MAX
    } else {
        (a - b) as Score
    }
}

/// Subtracts without leaving the range of a score.
///
/// A threshold of `Score::MIN` lowered by any amount stays `Score::MIN`.
pub fn saturating_difference(a: Score, b: Score) -> (difference: Score)
    ensures
        difference == clamped_difference(a, b),
{
    if b >= 0 {
        if a < Score::MIN + b {
            Score::MIN
        } else {
            a - b
        }
    } else {
        if a > Score::MAX + b {
            Score::MAX
        } else {
            a - b
        }
    }
}

} // verus!
