use std::collections::{BTreeMap, BTreeSet};

use relune_layout::builder::LayoutGraphBuilder;
use relune_layout::order::{
    build_edges_by_node, count_crossings, count_inversions, merge_sort_count, order_nodes_within_layers,
    order_nodes_within_layers_with_strategy, CrossingReductionStrategy,
};
use relune_layout::rank::assign_ranks;
use relune_layout::schema::{Column, ForeignKey, Schema, Table};

fn table(name: &str, references: &[&str]) -> Table {
    Table {
        stable_id: name.to_string(),
        schema_name: None,
        name: name.to_string(),
        columns: vec![Column {
            name: "id".to_string(),
            data_type: "int".to_string(),
            nullable: false,
            is_primary_key: true,
        }],
        foreign_keys: references
            .iter()
            .map(|target| ForeignKey {
                name: None,
                from_columns: vec![format!("{target}_id")],
                to_table: (*target).to_string(),
                to_columns: vec!["id".to_string()],
            })
            .collect(),
    }
}

fn make_test_schema() -> Schema {
    Schema {
        tables: vec![table("a", &[]), table("b", &["a"]), table("c", &["a"])],
        views: vec![],
        enums: vec![],
    }
}

fn make_complex_schema() -> Schema {
    Schema {
        tables: vec![
            table("a", &[]),
            table("b", &["a"]),
            table("c", &["a"]),
            table("d", &["b", "c"]),
            table("e", &["b", "c"]),
        ],
        views: vec![],
        enums: vec![],
    }
}

const STRATEGIES: [CrossingReductionStrategy; 4] = [
    CrossingReductionStrategy::Barycenter,
    CrossingReductionStrategy::Median,
    CrossingReductionStrategy::Sifting,
    CrossingReductionStrategy::Combined,
];

#[test]
fn test_order_nodes_deterministic() {
    let schema = make_test_schema();
    let graph = LayoutGraphBuilder::new().build(&schema);
    let ranks = assign_ranks(&graph);

    let ordered1 = order_nodes_within_layers(&graph, &ranks);
    let ordered2 = order_nodes_within_layers(&graph, &ranks);

    assert_eq!(ordered1, ordered2);
}

#[test]
fn test_order_nodes_deterministic_with_strategy() {
    let schema = make_test_schema();
    let graph = LayoutGraphBuilder::new().build(&schema);
    let ranks = assign_ranks(&graph);

    for strategy in STRATEGIES {
        let ordered1 = order_nodes_within_layers_with_strategy(&graph, &ranks, strategy);
        let ordered2 = order_nodes_within_layers_with_strategy(&graph, &ranks, strategy);
        assert_eq!(ordered1, ordered2, "Strategy {strategy:?} should be deterministic");
    }
}

fn total_nodes(ordered: &[Vec<usize>]) -> usize {
    ordered.iter().map(Vec::len).sum()
}

#[test]
fn test_barycenter_ordering() {
    let schema = make_test_schema();
    let graph = LayoutGraphBuilder::new().build(&schema);
    let ranks = assign_ranks(&graph);
    let ordered = order_nodes_within_layers_with_strategy(&graph, &ranks, CrossingReductionStrategy::Barycenter);
    assert_eq!(total_nodes(&ordered), graph.nodes.len());
}

#[test]
fn test_median_ordering() {
    let schema = make_test_schema();
    let graph = LayoutGraphBuilder::new().build(&schema);
    let ranks = assign_ranks(&graph);
    let ordered = order_nodes_within_layers_with_strategy(&graph, &ranks, CrossingReductionStrategy::Median);
    assert_eq!(total_nodes(&ordered), graph.nodes.len());
}

#[test]
fn test_sifting_ordering() {
    let schema = make_test_schema();
    let graph = LayoutGraphBuilder::new().build(&schema);
    let ranks = assign_ranks(&graph);
    let ordered = order_nodes_within_layers_with_strategy(&graph, &ranks, CrossingReductionStrategy::Sifting);
    assert_eq!(total_nodes(&ordered), graph.nodes.len());
}

#[test]
fn test_combined_strategy_picks_best() {
    let schema = make_complex_schema();
    let graph = LayoutGraphBuilder::new().build(&schema);
    let ranks = assign_ranks(&graph);
    let edges_by_node = build_edges_by_node(&graph);

    let barycenter = order_nodes_within_layers_with_strategy(&graph, &ranks, CrossingReductionStrategy::Barycenter);
    let median = order_nodes_within_layers_with_strategy(&graph, &ranks, CrossingReductionStrategy::Median);
    let sifting = order_nodes_within_layers_with_strategy(&graph, &ranks, CrossingReductionStrategy::Sifting);
    let combined = order_nodes_within_layers_with_strategy(&graph, &ranks, CrossingReductionStrategy::Combined);

    let barycenter_crossings = count_crossings(&barycenter, &edges_by_node);
    let median_crossings = count_crossings(&median, &edges_by_node);
    let sifting_crossings = count_crossings(&sifting, &edges_by_node);
    let combined_crossings = count_crossings(&combined, &edges_by_node);

    let min_crossings = barycenter_crossings.min(median_crossings).min(sifting_crossings);
    assert!(
        combined_crossings <= min_crossings,
        "Combined crossings ({combined_crossings}) should be <= min of individual strategies ({min_crossings})",
    );
}

#[test]
fn test_crossing_count() {
    let nodes_by_rank = vec![vec![0, 1], vec![2, 3]];

    let mut edges_by_node: BTreeMap<usize, Vec<(usize, usize)>> = BTreeMap::new();
    edges_by_node.entry(0).or_default().push((0, 2));
    edges_by_node.entry(2).or_default().push((0, 2));
    edges_by_node.entry(1).or_default().push((1, 3));
    edges_by_node.entry(3).or_default().push((1, 3));

    let crossings = count_crossings(&nodes_by_rank, &edges_by_node);
    assert_eq!(crossings, 0, "Parallel edges should have no crossings");

    let nodes_crossing = vec![vec![0, 1], vec![3, 2]];
    let crossings = count_crossings(&nodes_crossing, &edges_by_node);
    assert!(crossings > 0, "Crossed edges should have crossings");
}

#[test]
fn test_improved_ordering_reduces_crossings() {
    let schema = make_complex_schema();
    let graph = LayoutGraphBuilder::new().build(&schema);
    let ranks = assign_ranks(&graph);
    let edges_by_node = build_edges_by_node(&graph);

    let ordered = order_nodes_within_layers(&graph, &ranks);
    let crossings = count_crossings(&ordered, &edges_by_node);

    let combined = order_nodes_within_layers_with_strategy(&graph, &ranks, CrossingReductionStrategy::Combined);
    let combined_crossings = count_crossings(&combined, &edges_by_node);

    assert!(
        combined_crossings <= crossings,
        "Combined strategy crossings ({combined_crossings}) should be <= default crossings ({crossings})",
    );
}

#[test]
fn test_all_strategies_produce_valid_ordering() {
    let schema = make_complex_schema();
    let graph = LayoutGraphBuilder::new().build(&schema);
    let ranks = assign_ranks(&graph);

    let ranked_nodes: Vec<BTreeSet<usize>> =
        ranks.nodes_by_rank.iter().map(|layer| layer.iter().copied().collect()).collect();

    for strategy in STRATEGIES {
        let ordered = order_nodes_within_layers_with_strategy(&graph, &ranks, strategy);
        assert_eq!(ordered.len(), ranked_nodes.len(), "Strategy {strategy:?}: layer count mismatch");
        for (rank_idx, (ordered_layer, ranked_layer)) in ordered.iter().zip(ranked_nodes.iter()).enumerate() {
            let ordered_set: BTreeSet<usize> = ordered_layer.iter().copied().collect();
            assert_eq!(
                &ordered_set, ranked_layer,
                "Strategy {strategy:?}: nodes in rank {rank_idx} don't match the ranked layer",
            );
        }
    }
}

#[test]
fn crossing_count_counts_each_crossing_pair_once() {
    let nodes_by_rank = vec![vec![0, 1, 2], vec![3, 4, 5]];
    let mut edges_by_node: BTreeMap<usize, Vec<(usize, usize)>> = BTreeMap::new();
    for (from, to) in [(0, 5), (1, 4), (2, 3)] {
        edges_by_node.entry(from).or_default().push((from, to));
        edges_by_node.entry(to).or_default().push((from, to));
    }
    assert_eq!(count_crossings(&nodes_by_rank, &edges_by_node), 3);
}

#[test]
fn inversions_are_counted_exactly() {
    assert_eq!(count_inversions(&vec![]), 0);
    assert_eq!(count_inversions(&vec![1, 2, 3]), 0);
    assert_eq!(count_inversions(&vec![3, 2, 1]), 3);
    assert_eq!(count_inversions(&vec![2, 4, 1, 3, 5]), 3);

    let mut values = vec![5, 1, 4, 2, 3];
    let count = merge_sort_count(&mut values);
    assert_eq!(count, 6);
    assert_eq!(values, vec![1, 2, 3, 4, 5]);
}

#[test]
fn default_strategy_is_barycenter() {
    assert_eq!(CrossingReductionStrategy::default(), CrossingReductionStrategy::Barycenter);
}

#[test]
fn crossing_count_takes_edges_pointing_up_once() {
    // Edges from the lower layer to the upper one, each listed under both ends.
    let nodes_by_rank = vec![vec![0, 1, 2], vec![3, 4, 5]];
    let mut edges_by_node: BTreeMap<usize, Vec<(usize, usize)>> = BTreeMap::new();
    for (from, to) in [(5, 0), (4, 1)] {
        edges_by_node.entry(from).or_default().push((from, to));
        edges_by_node.entry(to).or_default().push((from, to));
    }
    assert_eq!(count_crossings(&nodes_by_rank, &edges_by_node), 1);
}

#[test]
fn crossing_count_of_a_graph_counts_one_crossing_once() {
    // b and c reference a; d references c and e references b.
    let schema = Schema {
        tables: vec![table("a", &[]), table("b", &["a"]), table("c", &["a"]), table("d", &["c"]), table("e", &["b"])],
        views: vec![],
        enums: vec![],
    };
    let graph = LayoutGraphBuilder::new().build(&schema);
    let edges_by_node = build_edges_by_node(&graph);
    let index = |id: &str| graph.nodes.iter().position(|n| n.id == id).unwrap();
    let layers = vec![vec![index("a")], vec![index("b"), index("c")], vec![index("d"), index("e")]];
    assert_eq!(count_crossings(&layers, &edges_by_node), 1);
    let layers = vec![vec![index("a")], vec![index("b"), index("c")], vec![index("e"), index("d")]];
    assert_eq!(count_crossings(&layers, &edges_by_node), 0);
}
