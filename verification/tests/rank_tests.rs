use std::collections::BTreeMap;

use relune_layout::builder::LayoutGraphBuilder;
use relune_layout::rank::assign_ranks;
use relune_layout::schema::{Column, ForeignKey, Schema, Table};

fn schema_with_references(tables: &[(&str, &[&str])]) -> Schema {
    let tables = tables
        .iter()
        .map(|(name, references)| Table {
            stable_id: (*name).to_string(),
            schema_name: None,
            name: (*name).to_string(),
            columns: vec![Column {
                name: "id".to_string(),
                data_type: "int".to_string(),
                nullable: false,
                is_primary_key: true,
            }],
            foreign_keys: references
                .iter()
                .map(|target| ForeignKey {
                    name: None,
                    from_columns: vec![format!("{target}_id")],
                    to_table: (*target).to_string(),
                    to_columns: vec!["id".to_string()],
                })
                .collect(),
        })
        .collect();
    Schema { tables, views: vec![], enums: vec![] }
}

fn ranks_by_id(tables: &[(&str, &[&str])]) -> (BTreeMap<String, usize>, usize) {
    let graph = LayoutGraphBuilder::new().build(&schema_with_references(tables));
    let ranks = assign_ranks(&graph);
    let by_id = graph.nodes.iter().enumerate().map(|(idx, node)| (node.id.clone(), ranks.node_rank[idx])).collect();
    (by_id, ranks.num_ranks)
}

#[test]
fn test_assign_ranks_places_parents_above_children() {
    let (ranks, num_ranks) = ranks_by_id(&[("a", &[]), ("b", &["a"]), ("c", &["b"])]);
    assert_eq!(ranks["a"], 0);
    assert_eq!(ranks["b"], 1);
    assert_eq!(ranks["c"], 2);
    assert_eq!(num_ranks, 3);
}

#[test]
fn test_assign_ranks_uses_longest_parent_chain() {
    let (ranks, _) = ranks_by_id(&[("a", &[]), ("b", &["a"]), ("c", &["b"]), ("d", &["a", "c"])]);
    assert_eq!(ranks["d"], 3);
}

#[test]
fn test_assign_ranks_spreads_simple_cycle_across_layers() {
    let (ranks, num_ranks) = ranks_by_id(&[("a", &["b"]), ("b", &["c"]), ("c", &["a"])]);
    let mut cycle_ranks: Vec<usize> = ranks.into_values().collect();
    cycle_ranks.sort_unstable();
    assert_eq!(cycle_ranks, vec![0, 1, 2]);
    assert_eq!(num_ranks, 3);
}

#[test]
fn cycle_is_broken_where_the_greedy_order_reverses_one_edge() {
    // No sink or source: `a` (lowest index, equal surplus) goes first, then
    // `b` becomes a sink and `c` both; the order is a, c, b, so only the edge
    // from `a` to `b` is reversed.
    let (ranks, num_ranks) = ranks_by_id(&[("a", &["b"]), ("b", &["c"]), ("c", &["a"])]);
    assert_eq!(ranks["a"], 0);
    assert_eq!(ranks["c"], 1);
    assert_eq!(ranks["b"], 2);
    assert_eq!(num_ranks, 3);
}

#[test]
fn test_assign_ranks_keeps_dense_cycle_compact() {
    let spokes = ["s1", "s2", "s3", "s4", "s5", "s6", "s7", "s8"];
    let mut tables: Vec<(&str, &[&str])> = vec![("hub", &spokes)];
    tables.extend(spokes.iter().map(|spoke| (*spoke, &["hub"] as &[&str])));

    let (ranks, num_ranks) = ranks_by_id(&tables);

    assert_eq!(num_ranks, 2);
    let hub_rank = ranks["hub"];
    assert!(spokes.iter().all(|spoke| ranks[*spoke] != hub_rank));
}

#[test]
fn test_assign_ranks_keeps_acyclic_edges_downward_around_cycle() {
    let (ranks, _) = ranks_by_id(&[("root", &[]), ("a", &["root", "b"]), ("b", &["a"]), ("leaf", &["b"])]);
    assert!(ranks["root"] < ranks["a"].min(ranks["b"]));
    assert!(ranks["leaf"] > ranks["b"]);
}

#[test]
fn test_assign_ranks_ignores_self_loops() {
    let (ranks, num_ranks) = ranks_by_id(&[("a", &["a"]), ("b", &["a"])]);
    assert_eq!(ranks["a"], 0);
    assert_eq!(ranks["b"], 1);
    assert_eq!(num_ranks, 2);
}

#[test]
fn test_assign_ranks_handles_empty_graph() {
    let (ranks, num_ranks) = ranks_by_id(&[]);
    assert!(ranks.is_empty());
    assert_eq!(num_ranks, 0);
}

#[test]
fn nodes_by_rank_lists_every_node_under_its_rank() {
    let graph = LayoutGraphBuilder::new().build(&schema_with_references(&[
        ("a", &[]),
        ("b", &["a"]),
        ("c", &["a"]),
        ("d", &["b", "c"]),
    ]));
    let ranks = assign_ranks(&graph);
    assert_eq!(ranks.nodes_by_rank.len(), ranks.num_ranks);
    let mut seen = 0;
    for (rank, layer) in ranks.nodes_by_rank.iter().enumerate() {
        for &node in layer {
            assert_eq!(ranks.node_rank[node], rank);
            seen += 1;
        }
    }
    assert_eq!(seen, graph.nodes.len());
    assert_eq!(ranks.nodes_by_rank[1], vec![1, 2]);
}
