use std::collections::BTreeSet;

use relune_layout::builder::LayoutGraphBuilder;
use relune_layout::focus::{FocusError, FocusExtractor};
use relune_layout::graph::{LayoutEdge, LayoutGraph, LayoutNode, NodeIndex};
use relune_layout::schema::{Column, EdgeKind, FocusSpec, ForeignKey, NodeKind, Schema, Table};

fn column(name: &str, is_primary_key: bool) -> Column {
    Column {
        name: name.to_string(),
        data_type: "int".to_string(),
        nullable: false,
        is_primary_key,
    }
}

fn make_test_schema() -> Schema {
    Schema {
        tables: vec![
            Table {
                stable_id: "users".to_string(),
                schema_name: None,
                name: "users".to_string(),
                columns: vec![column("id", true)],
                foreign_keys: vec![],
            },
            Table {
                stable_id: "posts".to_string(),
                schema_name: None,
                name: "posts".to_string(),
                columns: vec![column("id", true), column("user_id", false)],
                foreign_keys: vec![ForeignKey {
                    name: Some("fk_posts_user".to_string()),
                    from_columns: vec!["user_id".to_string()],
                    to_table: "users".to_string(),
                    to_columns: vec!["id".to_string()],
                }],
            },
            Table {
                stable_id: "comments".to_string(),
                schema_name: None,
                name: "comments".to_string(),
                columns: vec![column("id", true), column("post_id", false)],
                foreign_keys: vec![ForeignKey {
                    name: Some("fk_comments_post".to_string()),
                    from_columns: vec!["post_id".to_string()],
                    to_table: "posts".to_string(),
                    to_columns: vec!["id".to_string()],
                }],
            },
        ],
        views: vec![],
        enums: vec![],
    }
}

#[test]
fn test_focus_extraction_depth_0() {
    let schema = make_test_schema();
    let graph = LayoutGraphBuilder::new().build(&schema);
    let extractor = FocusExtractor;

    let focus = FocusSpec { table: "posts".to_string(), depth: 0 };

    let focused = extractor.extract(&graph, &focus).unwrap();
    assert_eq!(focused.nodes.len(), 1);
    assert_eq!(focused.nodes[0].id, "posts");
}

#[test]
fn test_focus_extraction_depth_1() {
    let schema = make_test_schema();
    let graph = LayoutGraphBuilder::new().build(&schema);
    let extractor = FocusExtractor;

    let focus = FocusSpec { table: "posts".to_string(), depth: 1 };

    let focused = extractor.extract(&graph, &focus).unwrap();
    assert_eq!(focused.nodes.len(), 3);
    let node_ids: BTreeSet<_> = focused.nodes.iter().map(|n| n.id.as_str()).collect();
    assert!(node_ids.contains("posts"));
    assert!(node_ids.contains("users"));
    assert!(node_ids.contains("comments"));
}

#[test]
fn test_focus_extraction_target_not_found() {
    let schema = make_test_schema();
    let graph = LayoutGraphBuilder::new().build(&schema);
    let extractor = FocusExtractor;

    let focus = FocusSpec { table: "nonexistent".to_string(), depth: 1 };

    let result = extractor.extract(&graph, &focus);
    assert!(result.is_err());
}

fn plain_node(id: &str, group_index: Option<usize>) -> LayoutNode {
    LayoutNode {
        id: id.to_string(),
        label: id.to_string(),
        schema_name: None,
        table_name: id.to_string(),
        kind: NodeKind::Table,
        columns: vec![],
        inbound_count: 0,
        outbound_count: 0,
        has_self_loop: false,
        is_join_table_candidate: false,
        group_index,
    }
}

fn fk_edge(from: &str, to: &str, name: &str, column: &str) -> LayoutEdge {
    LayoutEdge {
        from: from.to_string(),
        to: to.to_string(),
        name: Some(name.to_string()),
        from_columns: vec![column.to_string()],
        to_columns: vec!["id".to_string()],
        kind: EdgeKind::ForeignKey,
        is_self_loop: false,
        nullable: false,
        is_collapsed_join: false,
        collapsed_join_table: None,
    }
}

#[test]
fn test_build_focused_graph_reports_dangling_edges() {
    let extractor = FocusExtractor;
    let graph = LayoutGraph {
        nodes: vec![plain_node("users", Some(1)), plain_node("posts", Some(2))],
        edges: vec![
            fk_edge("posts", "users", "fk_posts_users", "user_id"),
            fk_edge("ghost", "users", "fk_ghost_users", "ghost_id"),
        ],
        groups: vec![],
        node_index: NodeIndex { entries: vec![("users".to_string(), 0_usize), ("posts".to_string(), 1_usize)] },
        reverse_index: vec!["users".to_string(), "posts".to_string()],
    };

    let error = extractor
        .build_focused_graph(&graph, &BTreeSet::from([0_usize, 1_usize]))
        .expect_err("dangling edges should surface a graph invariant error");

    assert!(matches!(
        error,
        FocusError::GraphInvariant {
            from,
            to,
            missing_endpoint: "source",
        } if from == "ghost" && to == "users"
    ));
}

#[test]
fn focus_finds_target_by_table_name_and_resets_groups() {
    let schema = make_test_schema();
    let graph = LayoutGraphBuilder::new().build(&schema);
    let focus = FocusSpec { table: "comments".to_string(), depth: 1 };
    let focused = FocusExtractor.extract(&graph, &focus).unwrap();
    let ids: Vec<&str> = focused.nodes.iter().map(|n| n.id.as_str()).collect();
    assert_eq!(ids, vec!["posts", "comments"]);
    assert_eq!(focused.edges.len(), 1);
    assert_eq!(focused.edges[0].from, "comments");
    assert!(focused.groups.is_empty());
    assert!(focused.nodes.iter().all(|n| n.group_index.is_none()));
    assert_eq!(focused.node_index.get("comments"), Some(1));
    assert_eq!(focused.reverse_index, vec!["posts".to_string(), "comments".to_string()]);
}

#[test]
fn focus_depth_two_reaches_whole_chain() {
    let schema = make_test_schema();
    let focus = FocusSpec { table: "comments".to_string(), depth: 2 };
    let focused = FocusExtractor.extract_from_schema(&schema, &focus).unwrap();
    assert_eq!(focused.nodes.len(), 3);
    assert_eq!(focused.edges.len(), 2);
}

#[test]
fn focus_reports_missing_target_end() {
    let graph = LayoutGraph {
        nodes: vec![plain_node("users", None)],
        edges: vec![fk_edge("users", "nowhere", "fk", "x")],
        groups: vec![],
        node_index: NodeIndex { entries: vec![("users".to_string(), 0_usize)] },
        reverse_index: vec!["users".to_string()],
    };
    let focus = FocusSpec { table: "users".to_string(), depth: 3 };
    match FocusExtractor.extract(&graph, &focus) {
        Err(FocusError::GraphInvariant { from, to, missing_endpoint }) => {
            assert_eq!(from, "users");
            assert_eq!(to, "nowhere");
            assert_eq!(missing_endpoint, "target");
        },
        other => panic!("unexpected result {other:?}"),
    }
    match FocusExtractor.extract(&graph, &FocusSpec { table: "posts".to_string(), depth: 0 }) {
        Err(FocusError::TargetNotFound { table }) => assert_eq!(table, "posts"),
        other => panic!("unexpected result {other:?}"),
    }
}
