//! Deterministic candidate selection policy for obstacle-aware channels.

use std::cmp::Ordering;
use vstd::prelude::*;

verus! {

/// Candidate family for channel search.
#[derive(Debug, Clone, Copy, PartialEq, Eq, Structural)]
pub enum ChannelCandidateClass {
    /// Candidate inside the gap between two different ranks.
    InterRank,
    /// Candidate used when the endpoints stay on the same rank.
    SameRank,
    /// Candidate used when the edge flows against the assigned rank order.
    ReverseEdge,
}

/// The signed pixel offsets probed around the baseline channel center,
/// centre first and then alternating `-step, +step` pairs.
pub open spec fn class_search_offsets(class: ChannelCandidateClass) -> Seq<int> {
    match class {
        ChannelCandidateClass::InterRank => seq![0int, -24, 24, -48, 48],
        ChannelCandidateClass::SameRank => seq![0int, -32, 32, -64, 64, -96, 96],
        ChannelCandidateClass::ReverseEdge => seq![0int, -24, 24, -48, 48, -72, 72],
    }
}

impl ChannelCandidateClass {
    /// Returns the signed offsets (in pixels) probed around the baseline
    /// channel center.
    pub fn search_offsets(self) -> (offsets: Vec<i32>)
        ensures
            offsets@.len() == class_search_offsets(self).len(),
            forall|i: int| 0 <= i < offsets@.len() ==> offsets@[i] == class_search_offsets(self)[i],
    {
        let v: Vec<i32> = match self {
            ChannelCandidateClass::InterRank => vec![0i32, -24, 24, -48, 48],
            ChannelCandidateClass::SameRank => vec![0i32, -32, 32, -64, 64, -96, 96],
            ChannelCandidateClass::ReverseEdge => vec![0i32, -24, 24, -48, 48, -72, 72],
        };
        v
    }
}

/// Every candidate search starts at the baseline centre and then probes
/// symmetric pairs of offsets: each odd position is the negation of the
/// position that follows it.
pub proof fn lemma_search_offsets_start_at_center_and_stay_symmetric(class: ChannelCandidateClass)
    ensures
        class_search_offsets(class).len() % 2 == 1,
        class_search_offsets(class)[0] == 0,
        forall|i: int|
            0 <= i && i + 1 < class_search_offsets(class).len() && i % 2 == 1 ==> #[trigger] class_search_offsets(class)[i]
                == -class_search_offsets(class)[i + 1],
{
}

/// Relative weights for soft candidate costs.
#[derive(Debug, Clone, Copy, PartialEq, Eq, Structural)]
pub struct ChannelCostWeights {
    /// Weight for node clearance loss.
    pub clearance_penalty: u32,
    /// Weight for route length.
    pub total_length: u32,
    /// Weight for extra bends.
    pub bend_penalty: u32,
    /// Weight for drifting away from the baseline channel center.
    pub center_deviation: u32,
    /// Weight for candidate reuse on already busy channels.
    pub congestion_penalty: u32,
}

impl Default for ChannelCostWeights {
    fn default() -> (weights: Self)
        ensures
            weights.clearance_penalty == 16,
            weights.total_length == 1,
            weights.bend_penalty == 48,
            weights.center_deviation == 2,
            weights.congestion_penalty == 40,
    {
        ChannelCostWeights {
            clearance_penalty: 16,
            total_length: 1,
            bend_penalty: 48,
            center_deviation: 2,
            congestion_penalty: 40,
        }
    }
}

/// Scalar metrics collected for one obstacle-aware channel candidate.
#[derive(Debug, Clone, Copy, PartialEq, Eq, Structural)]
pub struct ChannelCandidateScore {
    /// Number of hard-constraint violations.
    pub hard_constraint_violations: u16,
    /// Penalty accumulated from missing obstacle clearance.
    pub clearance_penalty: u32,
    /// Total routed path length in pixels.
    pub total_length: u32,
    /// Number of bends in the candidate route.
    pub bend_count: u16,
    /// Absolute offset from the baseline channel center in pixels.
    pub center_deviation: u32,
    /// Penalty for placing another edge on a crowded channel.
    pub congestion_penalty: u32,
    /// Stable input order for final deterministic tie-breaks.
    pub stable_order: u32,
}

/// The weighted sum of the soft penalty terms of a candidate.
pub open spec fn soft_cost(score: ChannelCandidateScore, weights: ChannelCostWeights) -> int {
    score.clearance_penalty * weights.clearance_penalty + score.total_length * weights.total_length
        + score.bend_count * weights.bend_penalty + score.center_deviation
        * weights.center_deviation + score.congestion_penalty * weights.congestion_penalty
}

/// The comparison key of a candidate: hard violations, then the weighted soft
/// cost, then each component in a fixed order, then the stable input order.
pub open spec fn score_key(score: ChannelCandidateScore, weights: ChannelCostWeights) -> Seq<int> {
    seq![
        score.hard_constraint_violations as int,
        soft_cost(score, weights),
        score.clearance_penalty as int,
        score.total_length as int,
        score.bend_count as int,
        score.center_deviation as int,
        score.congestion_penalty as int,
        score.stable_order as int,
    ]
}

/// Lexicographic order of two integer sequences of equal length.
pub open spec fn lexicographic_order(a: Seq<int>, b: Seq<int>) -> Ordering
    decreases a.len(),
{
    if a.len() == 0 || b.len() == 0 {
        Ordering::Equal
    } else if a[0] < b[0] {
        Ordering::Less
    } else if a[0] > b[0] {
        Ordering::Greater
    } else {
        lexicographic_order(a.drop_first(), b.drop_first())
    }
}

proof fn lemma_u32_product_bound(a: u32, b: u32)
    ensures
        0 <= a * b <= 0xffff_ffff * 0xffff_ffff,
{
    assert(0 <= a * b <= 0xffff_ffff * 0xffff_ffff) by (nonlinear_arith)
        requires
            a <= 0xffff_ffff,
            b <= 0xffff_ffff,
    ;
}

impl ChannelCandidateScore {
    /// Returns the weighted soft cost for the candidate.
    pub fn weighted_soft_cost(self, weights: ChannelCostWeights) -> (cost: u64)
        requires
            soft_cost(self, weights) <= u64::MAX,
        ensures
            cost == soft_cost(self, weights),
    {
        proof {
            lemma_u32_product_bound(self.clearance_penalty, weights.clearance_penalty);
            lemma_u32_product_bound(self.total_length, weights.total_length);
            lemma_u32_product_bound(self.bend_count as u32, weights.bend_penalty);
            lemma_u32_product_bound(self.center_deviation, weights.center_deviation);
            lemma_u32_product_bound(self.congestion_penalty, weights.congestion_penalty);
            assert(self.bend_count * weights.bend_penalty <= 0xffff * 0xffff_ffff) by (
            nonlinear_arith)
                requires
                    self.bend_count <= 0xffff,
                    weights.bend_penalty <= 0xffff_ffff,
            ;
        }
        (self.clearance_penalty as u64) * (weights.clearance_penalty as u64) + (
        self.total_length as u64) * (weights.total_length as u64) + (self.bend_count as u64) * (
        weights.bend_penalty as u64) + (self.center_deviation as u64) * (
        weights.center_deviation as u64) + (self.congestion_penalty as u64) * (
        weights.congestion_penalty as u64)
    }
}

/// Compares two candidate scores with a fixed, deterministic tie-break order:
/// hard-constraint violations, weighted soft cost, clearance, length, bends,
/// center deviation, congestion and finally the stable input order.
pub fn compare_channel_candidate_scores(
    left: ChannelCandidateScore,
    right: ChannelCandidateScore,
    weights: ChannelCostWeights,
) -> (order: Ordering)
    requires
        soft_cost(left, weights) <= u64::MAX,
        soft_cost(right, weights) <= u64::MAX,
    ensures
        order == lexicographic_order(score_key(left, weights), score_key(right, weights)),
        left.hard_constraint_violations < right.hard_constraint_violations ==> order == Ordering::Less,
        left.hard_constraint_violations > right.hard_constraint_violations ==> order == Ordering::Greater,
        left.hard_constraint_violations == right.hard_constraint_violations && soft_cost(left, weights)
            < soft_cost(right, weights) ==> order == Ordering::Less,
        left.hard_constraint_violations == right.hard_constraint_violations && soft_cost(left, weights)
            > soft_cost(right, weights) ==> order == Ordering::Greater,
{
    let lc = left.weighted_soft_cost(weights);
    let rc = right.weighted_soft_cost(weights);
    let ghost lk = score_key(left, weights);
    let ghost rk = score_key(right, weights);
    proof {
        reveal_with_fuel(lexicographic_order, 9);
    }
    if left.hard_constraint_violations < right.hard_constraint_violations {
        Ordering::Less
    } else if left.hard_constraint_violations > right.hard_constraint_violations {
        Ordering::Greater
    } else if lc < rc {
        Ordering::Less
    } else if lc > rc {
        Ordering::Greater
    } else if left.clearance_penalty < right.clearance_penalty {
        Ordering::Less
    } else if left.clearance_penalty > right.clearance_penalty {
        Ordering::Greater
    } else if left.total_length < right.total_length {
        Ordering::Less
    } else if left.total_length > right.total_length {
        Ordering::Greater
    } else if left.bend_count < right.bend_count {
        Ordering::Less
    } else if left.bend_count > right.bend_count {
        Ordering::Greater
    } else if left.center_deviation < right.center_deviation {
        Ordering::Less
    } else if left.center_deviation > right.center_deviation {
        Ordering::Greater
    } else if left.congestion_penalty < right.congestion_penalty {
        Ordering::Less
    } else if left.congestion_penalty > right.congestion_penalty {
        Ordering::Greater
    } else if left.stable_order < right.stable_order {
        Ordering::Less
    } else if left.stable_order > right.stable_order {
        Ordering::Greater
    } else {
        Ordering::Equal
    }
}

proof fn lemma_lexicographic_antisymmetric(a: Seq<int>, b: Seq<int>)
    requires
        a.len() == b.len(),
    ensures
        (lexicographic_order(a, b) == Ordering::Less) <==> (lexicographic_order(b, a)
            == Ordering::Greater),
        (lexicographic_order(a, b) == Ordering::Equal) <==> (a == b),
    decreases a.len(),
{
    if a.len() == 0 {
        assert(a =~= b);
    } else {
        lemma_lexicographic_antisymmetric(a.drop_first(), b.drop_first());
        if a[0] == b[0] && a.drop_first() == b.drop_first() {
            assert forall|i: int| 0 <= i < a.len() implies a[i] == b[i] by {
                if i > 0 {
                    assert(a[i] == a.drop_first()[i - 1]);
                    assert(b[i] == b.drop_first()[i - 1]);
                }
            }
            assert(a =~= b);
        }
        if a == b {
            assert(a.drop_first() == b.drop_first());
        }
    }
}

proof fn lemma_lexicographic_transitive(a: Seq<int>, b: Seq<int>, c: Seq<int>, o: Ordering)
    requires
        a.len() == b.len(),
        b.len() == c.len(),
        o != Ordering::Equal,
        lexicographic_order(a, b) == o,
        lexicographic_order(b, c) == o,
    ensures
        lexicographic_order(a, c) == o,
    decreases a.len(),
{
    if a.len() > 0 && a[0] == b[0] && b[0] == c[0] {
        lemma_lexicographic_transitive(a.drop_first(), b.drop_first(), c.drop_first(), o);
    }
}

/// Candidate comparison is a strict total order on scores: swapping the
/// arguments reverses the answer, `Equal` is returned exactly for identical
/// scores, and `Less` (likewise `Greater`) is transitive.
pub proof fn lemma_candidate_comparison_is_total_order(
    a: ChannelCandidateScore,
    b: ChannelCandidateScore,
    c: ChannelCandidateScore,
    weights: ChannelCostWeights,
)
    ensures
        (lexicographic_order(score_key(a, weights), score_key(b, weights)) == Ordering::Less) <==> (
        lexicographic_order(score_key(b, weights), score_key(a, weights)) == Ordering::Greater),
        (lexicographic_order(score_key(a, weights), score_key(b, weights)) == Ordering::Equal) <==> (a
            == b),
        lexicographic_order(score_key(a, weights), score_key(b, weights)) == Ordering::Less
            && lexicographic_order(score_key(b, weights), score_key(c, weights)) == Ordering::Less
            ==> lexicographic_order(score_key(a, weights), score_key(c, weights)) == Ordering::Less,
        lexicographic_order(score_key(a, weights), score_key(b, weights)) == Ordering::Greater
            && lexicographic_order(score_key(b, weights), score_key(c, weights)) == Ordering::Greater
            ==> lexicographic_order(score_key(a, weights), score_key(c, weights))
            == Ordering::Greater,
{
    let ka = score_key(a, weights);
    let kb = score_key(b, weights);
    let kc = score_key(c, weights);
    lemma_lexicographic_antisymmetric(ka, kb);
    if ka == kb {
        assert(ka[0] == kb[0] && ka[2] == kb[2] && ka[3] == kb[3] && ka[4] == kb[4] && ka[5]
            == kb[5] && ka[6] == kb[6] && ka[7] == kb[7]);
    }
    if lexicographic_order(ka, kb) == Ordering::Less && lexicographic_order(kb, kc)
        == Ordering::Less {
        lemma_lexicographic_transitive(ka, kb, kc, Ordering::Less);
    }
    if lexicographic_order(ka, kb) == Ordering::Greater && lexicographic_order(kb, kc)
        == Ordering::Greater {
        lemma_lexicographic_transitive(ka, kb, kc, Ordering::Greater);
    }
}

/// Hard-constraint violations decide first: the candidate with fewer of them
/// comes first whatever its costs. With as many violations on both sides, the
/// weighted soft cost decides: the candidate with the smaller weighted sum of
/// clearance, length, bends, center deviation and congestion comes first, and
/// only equal weighted costs fall through to the component tie-breaks.
pub proof fn lemma_candidate_comparison_ranks_by_violations_then_soft_cost(
    left: ChannelCandidateScore,
    right: ChannelCandidateScore,
    weights: ChannelCostWeights,
)
    ensures
        left.hard_constraint_violations < right.hard_constraint_violations ==> lexicographic_order(
            score_key(left, weights),
            score_key(right, weights),
        ) == Ordering::Less,
        left.hard_constraint_violations > right.hard_constraint_violations ==> lexicographic_order(
            score_key(left, weights),
            score_key(right, weights),
        ) == Ordering::Greater,
        left.hard_constraint_violations == right.hard_constraint_violations && soft_cost(left, weights)
            != soft_cost(right, weights) ==> ((lexicographic_order(score_key(left, weights), score_key(right, weights))
            == Ordering::Less) <==> soft_cost(left, weights) < soft_cost(right, weights)),
        left.hard_constraint_violations == right.hard_constraint_violations && soft_cost(left, weights)
            != soft_cost(right, weights) ==> ((lexicographic_order(score_key(left, weights), score_key(right, weights))
            == Ordering::Greater) <==> soft_cost(left, weights) > soft_cost(right, weights)),
{
    reveal_with_fuel(lexicographic_order, 3);
}

/// With as many hard-constraint violations and the same weighted soft cost,
/// the components break the tie in a fixed order: the smaller clearance
/// penalty comes first, then (clearance equal) the shorter route, then fewer
/// bends, then the smaller center deviation, then less congestion, and last
/// the earlier stable input order.
pub proof fn lemma_candidate_comparison_tie_breaks(
    left: ChannelCandidateScore,
    right: ChannelCandidateScore,
    weights: ChannelCostWeights,
)
    requires
        left.hard_constraint_violations == right.hard_constraint_violations,
        soft_cost(left, weights) == soft_cost(right, weights),
    ensures
        left.clearance_penalty < right.clearance_penalty ==> lexicographic_order(
            score_key(left, weights),
            score_key(right, weights),
        ) == Ordering::Less,
        left.clearance_penalty == right.clearance_penalty && left.total_length < right.total_length
            ==> lexicographic_order(score_key(left, weights), score_key(right, weights)) == Ordering::Less,
        left.clearance_penalty == right.clearance_penalty && left.total_length == right.total_length
            && left.bend_count < right.bend_count ==> lexicographic_order(
            score_key(left, weights),
            score_key(right, weights),
        ) == Ordering::Less,
        left.clearance_penalty == right.clearance_penalty && left.total_length == right.total_length
            && left.bend_count == right.bend_count && left.center_deviation < right.center_deviation
            ==> lexicographic_order(score_key(left, weights), score_key(right, weights)) == Ordering::Less,
        left.clearance_penalty == right.clearance_penalty && left.total_length == right.total_length
            && left.bend_count == right.bend_count && left.center_deviation == right.center_deviation
            && left.congestion_penalty < right.congestion_penalty ==> lexicographic_order(
            score_key(left, weights),
            score_key(right, weights),
        ) == Ordering::Less,
        left.clearance_penalty == right.clearance_penalty && left.total_length == right.total_length
            && left.bend_count == right.bend_count && left.center_deviation == right.center_deviation
            && left.congestion_penalty == right.congestion_penalty && left.stable_order < right.stable_order
            ==> lexicographic_order(score_key(left, weights), score_key(right, weights)) == Ordering::Less,
{
    reveal_with_fuel(lexicographic_order, 9);
}

} // verus!
