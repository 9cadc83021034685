use std::cmp::Ordering;

use relune_layout::channel::{
    compare_channel_candidate_scores, ChannelCandidateClass, ChannelCandidateScore, ChannelCostWeights,
};

#[test]
fn candidate_search_offsets_start_at_center_and_stay_symmetric() {
    for class in [ChannelCandidateClass::InterRank, ChannelCandidateClass::SameRank, ChannelCandidateClass::ReverseEdge] {
        let offsets = class.search_offsets();
        assert_eq!(offsets.first().copied(), Some(0));

        for pair in offsets[1..].chunks_exact(2) {
            assert_eq!(pair[0] + pair[1], 0);
        }
    }
}

#[test]
fn candidate_score_prefers_feasible_route_before_soft_cost() {
    let weights = ChannelCostWeights::default();
    let feasible = ChannelCandidateScore {
        hard_constraint_violations: 0,
        clearance_penalty: 500,
        total_length: 500,
        bend_count: 6,
        center_deviation: 96,
        congestion_penalty: 10,
        stable_order: 3,
    };
    let infeasible = ChannelCandidateScore { hard_constraint_violations: 1, ..feasible };

    assert_eq!(compare_channel_candidate_scores(feasible, infeasible, weights), Ordering::Less);
}

#[test]
fn candidate_score_uses_weighted_soft_cost_before_component_tie_breaks() {
    let weights = ChannelCostWeights::default();
    let shorter = ChannelCandidateScore {
        hard_constraint_violations: 0,
        clearance_penalty: 5,
        total_length: 120,
        bend_count: 2,
        center_deviation: 24,
        congestion_penalty: 1,
        stable_order: 1,
    };
    let safer = ChannelCandidateScore {
        hard_constraint_violations: 0,
        clearance_penalty: 2,
        total_length: 150,
        bend_count: 2,
        center_deviation: 24,
        congestion_penalty: 1,
        stable_order: 2,
    };

    assert_eq!(compare_channel_candidate_scores(safer, shorter, weights), Ordering::Less);
}

#[test]
fn candidate_score_uses_fixed_component_order_for_equal_weighted_cost() {
    let weights = ChannelCostWeights {
        clearance_penalty: 1,
        total_length: 1,
        bend_penalty: 1,
        center_deviation: 1,
        congestion_penalty: 1,
    };
    let first = ChannelCandidateScore {
        hard_constraint_violations: 0,
        clearance_penalty: 4,
        total_length: 100,
        bend_count: 2,
        center_deviation: 12,
        congestion_penalty: 0,
        stable_order: 5,
    };
    let second = ChannelCandidateScore {
        hard_constraint_violations: 0,
        clearance_penalty: 5,
        total_length: 99,
        bend_count: 2,
        center_deviation: 12,
        congestion_penalty: 0,
        stable_order: 1,
    };

    assert_eq!(first.weighted_soft_cost(weights), second.weighted_soft_cost(weights));
    assert_eq!(compare_channel_candidate_scores(first, second, weights), Ordering::Less);
}

#[test]
fn weighted_soft_cost_sums_weighted_components() {
    let weights = ChannelCostWeights {
        clearance_penalty: 2,
        total_length: 3,
        bend_penalty: 5,
        center_deviation: 7,
        congestion_penalty: 11,
    };
    let score = ChannelCandidateScore {
        hard_constraint_violations: 9,
        clearance_penalty: 1,
        total_length: 10,
        bend_count: 2,
        center_deviation: 4,
        congestion_penalty: 3,
        stable_order: 0,
    };
    assert_eq!(score.weighted_soft_cost(weights), 2 + 30 + 10 + 28 + 33);
}

#[test]
fn candidate_comparison_is_antisymmetric_and_reflexive() {
    let weights = ChannelCostWeights::default();
    let a = ChannelCandidateScore {
        hard_constraint_violations: 0,
        clearance_penalty: 3,
        total_length: 40,
        bend_count: 1,
        center_deviation: 2,
        congestion_penalty: 0,
        stable_order: 7,
    };
    let b = ChannelCandidateScore { stable_order: 8, ..a };
    assert_eq!(compare_channel_candidate_scores(a, a, weights), Ordering::Equal);
    assert_eq!(compare_channel_candidate_scores(a, b, weights), Ordering::Less);
    assert_eq!(compare_channel_candidate_scores(b, a, weights), Ordering::Greater);
}
