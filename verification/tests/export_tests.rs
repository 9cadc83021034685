use relune_layout::diagram_export::{
    d2_escape, dot_escape, format_edge_label, layout_graph_to_d2, layout_graph_to_dot, layout_graph_to_mermaid,
    mermaid_escape_text, mermaid_quote_entity,
};
use relune_layout::diagram_names::{
    fallback_export_name, first_non_empty, is_blank, mermaid_column_name, mermaid_column_names, mermaid_token_type,
    node_display_name,
};
use relune_layout::graph::{CollapsedJoinTable, LayoutColumn, LayoutEdge, LayoutGraph, LayoutNode, NodeIndex};
use relune_layout::schema::{EdgeKind, NodeKind};

fn column(name: &str, is_primary_key: bool, nullable: bool) -> LayoutColumn {
    LayoutColumn {
        name: name.into(),
        data_type: "INT".into(),
        nullable,
        is_primary_key,
    }
}

fn node(id: &str, label: &str, columns: Vec<LayoutColumn>) -> LayoutNode {
    LayoutNode {
        id: id.into(),
        label: label.into(),
        schema_name: None,
        table_name: label.into(),
        kind: NodeKind::Table,
        columns,
        inbound_count: 0,
        outbound_count: 0,
        has_self_loop: false,
        is_join_table_candidate: false,
        group_index: None,
    }
}

fn tiny_graph() -> LayoutGraph {
    let nodes = vec![
        node("u1", "users", vec![column("id", true, false)]),
        node("p1", "posts", vec![column("id", true, false), column("user_id", false, true)]),
    ];
    let edges = vec![LayoutEdge {
        from: "p1".into(),
        to: "u1".into(),
        name: Some("posts_user_fk".into()),
        from_columns: vec!["user_id".into()],
        to_columns: vec!["id".into()],
        kind: EdgeKind::ForeignKey,
        is_self_loop: false,
        nullable: true,
        is_collapsed_join: false,
        collapsed_join_table: None,
    }];
    let mut node_index = NodeIndex::new();
    let mut reverse_index = Vec::new();
    for (i, n) in nodes.iter().enumerate() {
        node_index.insert(n.id.clone(), i);
        reverse_index.push(n.id.clone());
    }
    LayoutGraph { nodes, edges, groups: vec![], node_index, reverse_index }
}

#[test]
fn mermaid_contains_er_diagram_and_relationship() {
    let s = layout_graph_to_mermaid(&tiny_graph());
    assert!(s.starts_with("erDiagram\n"));
    assert!(s.contains("\"users\" {"));
    assert!(s.contains("\"posts\" {"));
    assert!(s.contains("||--o{"));
    assert!(s.contains("posts_user_fk"));
}

#[test]
fn d2_contains_arrow() {
    let s = layout_graph_to_d2(&tiny_graph());
    assert!(s.contains("\"p1\" -> \"u1\""));
}

#[test]
fn dot_is_digraph() {
    let s = layout_graph_to_dot(&tiny_graph());
    assert!(s.starts_with("digraph erd"));
    assert!(s.contains("\"p1\" -> \"u1\""));
}

#[test]
fn exports_escape_control_characters_and_brackets() {
    let mut graph = tiny_graph();
    graph.nodes[0].label = "users\n[prod]".into();
    graph.nodes[0].columns[0].name = "user id".into();
    graph.edges[0].name = Some("fk[\n]".into());

    let mermaid = layout_graph_to_mermaid(&graph);
    assert!(mermaid.contains("\"users\\n\\[prod\\]\" {"));
    assert!(mermaid.contains("INT user_id PK"));
    assert!(mermaid.contains(": \"fk\\[\\n\\] \\(user_id -> id\\)\""));

    let d2 = layout_graph_to_d2(&graph);
    assert!(d2.contains("\"users\\n[prod]\""));
    assert!(d2.contains("\"fk[\\n] (user_id -\\> id)\""));

    let dot = layout_graph_to_dot(&graph);
    assert!(dot.contains("[label=\"users\\n[prod]\"]"));
    assert!(dot.contains("[label=\"fk[\\n] (user_id -> id)\"]"));
}

#[test]
fn exports_fallback_names_for_empty_nodes() {
    let mut graph = tiny_graph();
    graph.nodes[0].id.clear();
    graph.nodes[0].label.clear();
    graph.nodes[0].table_name.clear();

    let mermaid = layout_graph_to_mermaid(&graph);
    assert!(mermaid.contains("\"node_1\" {"));

    let d2 = layout_graph_to_d2(&graph);
    assert!(d2.contains("\"node_1\": { label: \"node_1\" }"));

    let dot = layout_graph_to_dot(&graph);
    assert!(dot.contains("\"node_1\" [label=\"node_1\"]"));
}

#[test]
fn d2_escape_handles_special_d2_characters() {
    assert_eq!(d2_escape("<div>"), "\\<div\\>");
    assert_eq!(d2_escape("{block}"), "\\{block\\}");
    assert_eq!(d2_escape("a|b"), "a\\|b");
    assert_eq!(d2_escape("a<b>c{d}e|f"), "a\\<b\\>c\\{d\\}e\\|f");
    assert_eq!(d2_escape("plain"), "plain");
    assert_eq!(d2_escape("line\nnewline"), "line\\nnewline");
}

#[test]
fn d2_export_escapes_special_characters_in_labels() {
    let mut graph = tiny_graph();
    graph.nodes[0].label = "users<admin>".into();
    graph.edges[0].name = Some("fk{main}|ref".into());

    let d2 = layout_graph_to_d2(&graph);
    assert!(d2.contains("\\<admin\\>"));
    assert!(d2.contains("\\{main\\}\\|ref"));
}

#[test]
fn mermaid_columns_remain_unique_after_sanitizing_names() {
    let mut graph = tiny_graph();
    graph.nodes[0].columns = vec![column("user id", false, false), column("user-id", false, false), column("user_id", false, false)];

    let mermaid = layout_graph_to_mermaid(&graph);
    assert!(mermaid.contains("INT user_id\n"));
    assert!(mermaid.contains("INT user_id_2\n"));
    assert!(mermaid.contains("INT user_id_3\n"));
}

#[test]
fn whole_mermaid_document_for_tiny_graph() {
    let s = layout_graph_to_mermaid(&tiny_graph());
    assert_eq!(
        s,
        "erDiagram\n  \"users\" {\n    INT id PK\n  }\n  \"posts\" {\n    INT id PK\n    INT user_id\n  }\n  \"users\" ||--o{ \"posts\" : \"posts_user_fk \\(user_id -> id\\)\"\n"
    );
}

#[test]
fn whole_dot_and_d2_documents_for_tiny_graph() {
    let dot = layout_graph_to_dot(&tiny_graph());
    assert_eq!(
        dot,
        "digraph erd {\n  graph [rankdir=BT];\n  node [shape=box, fontname=\"Helvetica\"];\n  edge [fontname=\"Helvetica\"];\n  \"u1\" [label=\"users\"];\n  \"p1\" [label=\"posts\"];\n  \"p1\" -> \"u1\" [label=\"posts_user_fk (user_id -> id)\"];\n}\n"
    );
    let d2 = layout_graph_to_d2(&tiny_graph());
    assert_eq!(
        d2,
        "\"u1\": { label: \"users\" }\n\"p1\": { label: \"posts\" }\n\"p1\" -> \"u1\": \"posts_user_fk (user_id -\\> id)\"\n"
    );
}

#[test]
fn unknown_and_blank_edge_ends_get_fallback_names() {
    let mut graph = tiny_graph();
    graph.edges[0].from = "ghost".into();
    graph.edges[0].to = "  ".into();
    let dot = layout_graph_to_dot(&graph);
    assert!(dot.contains("\"ghost\" -> \"to_3\""));
    let mermaid = layout_graph_to_mermaid(&graph);
    assert!(mermaid.contains("parent_3 ||--o{ ghost"));
}

#[test]
fn edge_labels_cover_every_shape() {
    let mut edge = tiny_graph().edges.remove(0);
    assert_eq!(format_edge_label(&edge), "posts_user_fk (user_id -> id)");
    edge.name = None;
    assert_eq!(format_edge_label(&edge), "user_id → id");
    edge.from_columns.clear();
    edge.to_columns.clear();
    assert_eq!(format_edge_label(&edge), "fk");
    edge.is_collapsed_join = true;
    edge.collapsed_join_table = Some(CollapsedJoinTable { table_id: "j".into(), table_label: "user_roles".into() });
    edge.name = Some("m2m".into());
    assert_eq!(format_edge_label(&edge), "via user_roles: m2m");
    edge.from_columns = vec!["a".into(), "b".into()];
    edge.to_columns = vec!["c".into(), "d".into()];
    assert_eq!(format_edge_label(&edge), "via user_roles: m2m (a, b -> c, d)");
}

#[test]
fn escapes_follow_each_format() {
    assert_eq!(mermaid_escape_text("a\\b\"c\rd(e)"), "a\\\\b\\\"c\\rd\\(e\\)");
    assert_eq!(dot_escape("a{b}\"<c>"), "a{b}\\\"<c>");
    assert_eq!(mermaid_quote_entity("  ", "node", 4), "\"node_5\"");
    assert_eq!(mermaid_quote_entity("t[1]", "node", 0), "\"t\\[1\\]\"");
}

#[test]
fn names_fall_back_in_order() {
    assert_eq!(first_non_empty(&[" ", "\t", "b", "c"]), Some("b"));
    assert_eq!(first_non_empty(&[" ", "\u{3000}"]), None);
    assert!(is_blank("\u{2003}\n "));
    assert!(!is_blank(" x "));
    assert_eq!(fallback_export_name(&[], "from", 9), "from_10");
    let n = node("", " ", vec![]);
    assert_eq!(node_display_name(&n, 0), "node_1");
}

#[test]
fn mermaid_token_and_column_names() {
    assert_eq!(mermaid_token_type("  character varying(255) "), "character");
    assert_eq!(mermaid_token_type("numeric(10,2)"), "numeric_10_2_");
    assert_eq!(mermaid_token_type("   "), "unknown");
    assert_eq!(mermaid_token_type("élan"), "élan");
    assert_eq!(mermaid_column_name("1st col", 0), "_1st_col");
    assert_eq!(mermaid_column_name("", 2), "column_3");
    assert_eq!(mermaid_column_name("naïve", 0), "na_ve");
}

#[test]
fn column_names_skip_taken_suffixes() {
    let n = node(
        "t",
        "t",
        vec![column("a_2", false, false), column("a", false, false), column("a", false, false), column("a", false, false)],
    );
    assert_eq!(mermaid_column_names(&n), vec!["a_2", "a", "a_3", "a_4"]);
}

#[test]
fn d2_escape_keeps_strings_apart_on_one_line() {
    let newline = d2_escape("a\nb");
    let backslash_n = d2_escape("a\\nb");
    assert_eq!(newline, "a\\nb");
    assert_eq!(backslash_n, "a\\\\nb");
    assert_ne!(newline, backslash_n);
    assert!(!d2_escape("x\r\ny").contains('\n'));
    assert!(!d2_escape("x\r\ny").contains('\r'));
}
