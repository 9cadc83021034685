use relune_layout::clusters::clusters;
use relune_layout::graph::{LayoutEdge, LayoutGraph, LayoutGroup, LayoutNode, NodeIndex};
use relune_layout::schema::{EdgeKind, NodeKind};

fn plain_node(id: &str) -> LayoutNode {
    LayoutNode {
        id: id.into(),
        label: id.into(),
        schema_name: None,
        table_name: id.into(),
        kind: NodeKind::Table,
        columns: vec![],
        inbound_count: 0,
        outbound_count: 0,
        has_self_loop: false,
        is_join_table_candidate: false,
        group_index: None,
    }
}

fn edge(from: &str, to: &str) -> LayoutEdge {
    LayoutEdge {
        from: from.into(),
        to: to.into(),
        name: None,
        from_columns: vec![],
        to_columns: vec![],
        kind: EdgeKind::ForeignKey,
        is_self_loop: from == to,
        nullable: false,
        is_collapsed_join: false,
        collapsed_join_table: None,
    }
}

fn graph(ids: &[&str], edges: Vec<LayoutEdge>, groups: Vec<LayoutGroup>) -> LayoutGraph {
    let mut node_index = NodeIndex::new();
    for (i, id) in ids.iter().enumerate() {
        node_index.insert(id.to_string(), i);
    }
    LayoutGraph {
        nodes: ids.iter().map(|id| plain_node(id)).collect(),
        edges,
        groups,
        node_index,
        reverse_index: ids.iter().map(|id| id.to_string()).collect(),
    }
}

#[test]
fn clusters_are_components_by_smallest_node() {
    let g = graph(&["a", "b", "c", "d", "e"], vec![edge("d", "b"), edge("e", "e"), edge("c", "a")], vec![]);
    assert_eq!(clusters(&g), vec![vec![0, 2], vec![1, 3], vec![4]]);
}

#[test]
fn group_members_share_a_cluster() {
    let groups = vec![LayoutGroup { id: "g".into(), label: "g".into(), node_indices: vec![3, 0, 9] }];
    let g = graph(&["a", "b", "c", "d"], vec![edge("b", "c")], groups);
    assert_eq!(clusters(&g), vec![vec![0, 3], vec![1, 2]]);
}

#[test]
fn unknown_edge_ends_link_nothing() {
    let g = graph(&["a", "b"], vec![edge("a", "ghost")], vec![]);
    assert_eq!(clusters(&g), vec![vec![0], vec![1]]);
    let empty = graph(&[], vec![], vec![]);
    assert!(clusters(&empty).is_empty());
}
