//! Fixed-point weights and the score of one candidate.
use vstd::prelude::*;

verus! {

/// Number of weight units in one whole weight point (weights hold six decimals).
pub const WEIGHT_UNIT: u64 = 1_000_000;

/// Default weight per open review: 10 points.
pub const DEFAULT_WEIGHT_OPEN_PRS: u64 = 10_000_000;

/// Default weight per hundred lines under review: 1 point.
pub const DEFAULT_WEIGHT_LINES: u64 = 1_000_000;

/// Default weight per recent review: 3 points.
pub const DEFAULT_WEIGHT_RECENT: u64 = 3_000_000;

/// The largest weight, in weight units, that the library accepts.
pub const MAX_WEIGHT: u64 = 999_999_999_999_999;

/// Number of score units in one score point.
///
/// A score in units is `open * w_open * 100 + lines * w_lines + recent * w_recent * 100`
/// with the weights in weight units, so it is exactly `10^8` times the score in points.
pub const SCORE_UNIT: u128 = 100_000_000;

/// The three weights of the scoring formula, each in weight units
/// (millionths of a point).
#[derive(Clone, Copy, Debug, PartialEq, Eq, Structural)]
pub struct Weights {
    /// Points per open review.
    pub open_prs: u64,
    /// Points per hundred lines under review.
    pub lines_per_100: u64,
    /// Points per recently completed review.
    pub recent_reviews: u64,
}

impl Weights {
    /// Every weight lies within the accepted range.
    pub open spec fn wf(self) -> bool {
        &&& self.open_prs <= MAX_WEIGHT
        &&& self.lines_per_100 <= MAX_WEIGHT
        &&& self.recent_reviews <= MAX_WEIGHT
    }

    /// The default weights: 10 per open review, 1 per hundred lines, 3 per recent review.
    pub fn default_weights() -> (r: Weights)
        ensures
            r.wf(),
            r.open_prs == DEFAULT_WEIGHT_OPEN_PRS,
            r.lines_per_100 == DEFAULT_WEIGHT_LINES,
            r.recent_reviews == DEFAULT_WEIGHT_RECENT,
    {
        Weights {
            open_prs: DEFAULT_WEIGHT_OPEN_PRS,
            lines_per_100: DEFAULT_WEIGHT_LINES,
            recent_reviews: DEFAULT_WEIGHT_RECENT,
        }
    }
}

/// The score of a candidate, in score units:
/// `open * w_open + (lines / 100) * w_lines + recent * w_recent`, times `10^8`.
pub open spec fn score_value(open: int, lines: int, recent: int, w: Weights) -> int {
    open * w.open_prs * 100 + lines * w.lines_per_100 + recent * w.recent_reviews * 100
}

proof fn lemma_term_bound(count: u64, weight: u64, scale: u128)
    requires
        weight <= MAX_WEIGHT,
        scale <= 100,
    ensures
        count as int * weight as int * scale as int <= 0x1_0000_0000_0000_0000 * 0x4_0000_0000_0000 * 128,
        0 <= count as int * weight as int * scale as int,
{
    assert(0 <= count as int * weight as int * scale as int) by (nonlinear_arith);
    assert(count as int * weight as int * scale as int <= 0x1_0000_0000_0000_0000 * 0x4_0000_0000_0000 * 128) by (nonlinear_arith)
        requires
            count < 0x1_0000_0000_0000_0000,
            weight < 0x4_0000_0000_0000,
            scale <= 100,
    ;
}

/// Computes the score of a candidate exactly, in score units.
pub fn compute_score(open_prs_count: u64, total_lines_in_review: u64, recent_reviews_count: u64, weights: &Weights) -> (r: u128)
    requires
        weights.wf(),
    ensures
        r == score_value(open_prs_count as int, total_lines_in_review as int, recent_reviews_count as int, *weights),
{
    proof {
        lemma_term_bound(open_prs_count, weights.open_prs, 100);
        lemma_term_bound(total_lines_in_review, weights.lines_per_100, 1);
        lemma_term_bound(recent_reviews_count, weights.recent_reviews, 100);
    }
    let a: u128 = open_prs_count as u128 * weights.open_prs as u128 * 100;
    let b: u128 = total_lines_in_review as u128 * weights.lines_per_100 as u128;
    let c: u128 = recent_reviews_count as u128 * weights.recent_reviews as u128 * 100;
    a + b + c
}

} // verus!
