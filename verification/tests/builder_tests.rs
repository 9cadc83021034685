use relune_layout::builder::{contains_identifier, extract_prefix, matches_pattern, LayoutGraphBuilder, LayoutRequest};
use relune_layout::schema::{
    Column, EdgeKind, Enum, FilterSpec, ForeignKey, GroupingSpec, GroupingStrategy, NodeKind, Schema, SchemaView,
    Table, ViewColumn,
};

fn column(name: &str, data_type: &str, nullable: bool, is_primary_key: bool) -> Column {
    Column {
        name: name.to_string(),
        data_type: data_type.to_string(),
        nullable,
        is_primary_key,
    }
}

fn fk(name: &str, from: &str, to_table: &str) -> ForeignKey {
    ForeignKey {
        name: Some(name.to_string()),
        from_columns: vec![from.to_string()],
        to_table: to_table.to_string(),
        to_columns: vec!["id".to_string()],
    }
}

fn table(name: &str, columns: Vec<Column>, foreign_keys: Vec<ForeignKey>) -> Table {
    Table {
        stable_id: name.to_string(),
        schema_name: None,
        name: name.to_string(),
        columns,
        foreign_keys,
    }
}

fn make_many_to_many_schema() -> Schema {
    Schema {
        tables: vec![
            table(
                "users",
                vec![column("id", "int", false, true), column("name", "varchar", false, false)],
                vec![],
            ),
            table(
                "roles",
                vec![column("id", "int", false, true), column("name", "varchar", false, false)],
                vec![],
            ),
            table(
                "user_roles",
                vec![column("user_id", "int", false, false), column("role_id", "int", false, false)],
                vec![fk("fk_user_roles_user", "user_id", "users"), fk("fk_user_roles_role", "role_id", "roles")],
            ),
        ],
        views: vec![],
        enums: vec![],
    }
}

#[test]
fn test_matches_pattern() {
    assert!(matches_pattern("*", "anything"));
    assert!(matches_pattern("*_test", "my_test"));
    assert!(matches_pattern("test_*", "test_value"));
    assert!(matches_pattern("*user*", "my_user_table"));
    assert!(matches_pattern("exact", "exact"));
    assert!(!matches_pattern("exact", "not_exact"));
}

#[test]
fn test_extract_prefix() {
    assert_eq!(extract_prefix("user_profile"), "user_");
    assert_eq!(extract_prefix("order_items"), "order_");
    assert_eq!(extract_prefix("abc"), "abc");
}

#[test]
fn test_build_includes_view_and_enum_nodes() {
    let schema = Schema {
        tables: vec![table(
            "users",
            vec![column("id", "int", false, true), column("status", "status", false, false)],
            vec![],
        )],
        views: vec![SchemaView {
            id: "active_users".to_string(),
            schema_name: None,
            name: "active_users".to_string(),
            columns: vec![ViewColumn {
                name: "id".to_string(),
                data_type: "int".to_string(),
                nullable: false,
            }],
            definition: Some("SELECT id FROM users".to_string()),
        }],
        enums: vec![Enum {
            id: "status".to_string(),
            schema_name: None,
            name: "status".to_string(),
            values: vec!["active".to_string(), "inactive".to_string()],
        }],
    };

    let graph = LayoutGraphBuilder::new().build(&schema);

    assert_eq!(graph.nodes.len(), 3);
    assert!(graph.nodes.iter().any(|node| node.id == "users" && node.kind == NodeKind::Table));
    assert!(graph.nodes.iter().any(|node| node.id == "active_users" && node.kind == NodeKind::View));
    assert!(graph.nodes.iter().any(|node| node.id == "status" && node.kind == NodeKind::Enum));

    assert!(graph
        .edges
        .iter()
        .any(|edge| { edge.from == "users" && edge.to == "status" && edge.kind == EdgeKind::EnumReference }));
    assert!(graph.edges.iter().any(|edge| {
        edge.from == "users" && edge.to == "active_users" && edge.kind == EdgeKind::ViewDependency
    }));
}

#[test]
fn test_ambiguous_enum_reference_is_skipped() {
    let schema = Schema {
        tables: vec![table(
            "accounts",
            vec![column("id", "int", false, true), column("status", "status", false, false)],
            vec![],
        )],
        views: vec![],
        enums: vec![
            Enum {
                id: "public.status".to_string(),
                schema_name: Some("public".to_string()),
                name: "status".to_string(),
                values: vec!["active".to_string()],
            },
            Enum {
                id: "auth.status".to_string(),
                schema_name: Some("auth".to_string()),
                name: "status".to_string(),
                values: vec!["pending".to_string()],
            },
        ],
    };

    let graph = LayoutGraphBuilder::new().build(&schema);

    assert_eq!(graph.nodes.len(), 3);
    assert!(graph.edges.iter().all(|edge| edge.kind != EdgeKind::EnumReference));
}

#[test]
fn test_collapse_join_tables_option() {
    let request = LayoutRequest::default();
    assert!(!request.collapse_join_tables);

    let request = LayoutRequest { collapse_join_tables: true, ..Default::default() };
    assert!(request.collapse_join_tables);
}

#[test]
fn test_builder_collapse_join_tables() {
    let builder = LayoutGraphBuilder::new().collapse_join_tables(true);
    assert!(builder.request.collapse_join_tables);

    let builder = LayoutGraphBuilder::new().collapse_join_tables(false);
    assert!(!builder.request.collapse_join_tables);
}

#[test]
fn test_join_table_detection() {
    let schema = make_many_to_many_schema();
    let graph = LayoutGraphBuilder::new().build(&schema);

    let user_roles = graph.nodes.iter().find(|n| n.id == "user_roles");
    assert!(user_roles.is_some());
    let user_roles = user_roles.unwrap();
    assert!(user_roles.is_join_table_candidate);

    let users = graph.nodes.iter().find(|n| n.id == "users").unwrap();
    let roles = graph.nodes.iter().find(|n| n.id == "roles").unwrap();
    assert!(!users.is_join_table_candidate);
    assert!(!roles.is_join_table_candidate);
}

#[test]
fn test_join_table_detection_allows_metadata_and_inbound_edges() {
    let schema = Schema {
        tables: vec![
            table("users", vec![column("id", "int", false, true)], vec![]),
            table("roles", vec![column("id", "int", false, true)], vec![]),
            table(
                "user_roles",
                vec![
                    column("id", "int", false, true),
                    column("user_id", "int", false, false),
                    column("role_id", "int", false, false),
                    column("created_at", "timestamp", false, false),
                ],
                vec![fk("fk_user_roles_user", "user_id", "users"), fk("fk_user_roles_role", "role_id", "roles")],
            ),
            table(
                "audit_logs",
                vec![column("id", "int", false, true)],
                vec![fk("fk_audit_logs_user_roles", "id", "user_roles")],
            ),
        ],
        views: vec![],
        enums: vec![],
    };

    let graph = LayoutGraphBuilder::new().build(&schema);
    let user_roles = graph.nodes.iter().find(|n| n.id == "user_roles").unwrap();
    assert!(user_roles.is_join_table_candidate);
}

#[test]
fn test_collapse_join_tables_removes_node() {
    let schema = make_many_to_many_schema();

    let graph_no_collapse = LayoutGraphBuilder::new().collapse_join_tables(false).build(&schema);
    assert_eq!(graph_no_collapse.nodes.len(), 3);
    assert_eq!(graph_no_collapse.edges.len(), 2);

    let graph_collapsed = LayoutGraphBuilder::new().collapse_join_tables(true).build(&schema);
    assert_eq!(graph_collapsed.nodes.len(), 2);
    assert!(graph_collapsed.nodes.iter().all(|n| n.id != "user_roles"));
    assert_eq!(graph_collapsed.edges.len(), 1);
}

#[test]
fn test_collapsed_edge_properties() {
    let schema = make_many_to_many_schema();
    let graph = LayoutGraphBuilder::new().collapse_join_tables(true).build(&schema);

    assert_eq!(graph.edges.len(), 1);
    let edge = &graph.edges[0];
    assert!(edge.is_collapsed_join);
    assert!(edge.collapsed_join_table.is_some());
    let collapsed = edge.collapsed_join_table.as_ref().unwrap();
    assert_eq!(collapsed.table_id, "user_roles");
    assert_eq!(collapsed.table_label, "user_roles");
    assert!(edge.name.as_ref().unwrap().starts_with("m2m:"));
}

#[test]
fn test_non_join_tables_not_collapsed() {
    let schema = Schema {
        tables: vec![
            table("users", vec![column("id", "int", false, true)], vec![]),
            table(
                "posts",
                vec![column("id", "int", false, true), column("user_id", "int", false, false)],
                vec![fk("fk_posts_user", "user_id", "users")],
            ),
        ],
        views: vec![],
        enums: vec![],
    };

    let graph = LayoutGraphBuilder::new().collapse_join_tables(true).build(&schema);
    assert_eq!(graph.nodes.len(), 2);
    assert_eq!(graph.edges.len(), 1);
    assert!(!graph.edges[0].is_collapsed_join);
}

#[test]
fn relationship_counts_and_index_follow_edges() {
    let schema = make_many_to_many_schema();
    let graph = LayoutGraphBuilder::new().build(&schema);
    let users = graph.nodes.iter().position(|n| n.id == "users").unwrap();
    let user_roles = graph.nodes.iter().position(|n| n.id == "user_roles").unwrap();
    assert_eq!(graph.nodes[users].inbound_count, 1);
    assert_eq!(graph.nodes[users].outbound_count, 0);
    assert_eq!(graph.nodes[user_roles].outbound_count, 2);
    assert_eq!(graph.node_index.get("users"), Some(users));
    assert_eq!(graph.node_index.get("missing"), None);
    assert_eq!(graph.reverse_index[user_roles], "user_roles");
}

#[test]
fn filters_keep_included_and_drop_excluded_tables() {
    let schema = make_many_to_many_schema();
    let filter = FilterSpec {
        include_patterns: vec!["*s".to_string()],
        exclude_patterns: vec!["role*".to_string()],
    };
    let graph = LayoutGraphBuilder::new().filter(filter).build(&schema);
    let ids: Vec<&str> = graph.nodes.iter().map(|n| n.id.as_str()).collect();
    assert_eq!(ids, vec!["users", "user_roles"]);
    assert!(graph.edges.iter().all(|e| e.to != "roles"));
}

#[test]
fn prefix_grouping_puts_tables_with_one_prefix_together() {
    let schema = Schema {
        tables: vec![
            table("user_profile", vec![column("id", "int", false, true)], vec![]),
            table("order_items", vec![column("id", "int", false, true)], vec![]),
            table("user_settings", vec![column("id", "int", false, true)], vec![]),
        ],
        views: vec![],
        enums: vec![],
    };
    let graph = LayoutGraphBuilder::new()
        .grouping(GroupingSpec { strategy: GroupingStrategy::ByPrefix })
        .build(&schema);
    let user_group = graph.groups.iter().find(|g| g.label == "user_").unwrap();
    assert_eq!(user_group.node_indices, vec![0, 2]);
    assert_eq!(graph.nodes[1].group_index.is_some(), true);
    assert_eq!(graph.nodes[0].group_index, graph.nodes[2].group_index);
}

#[test]
fn contains_identifier_needs_word_boundaries() {
    assert!(contains_identifier("SELECT id FROM users", "users"));
    assert!(!contains_identifier("SELECT id FROM users_archive", "users"));
    assert!(!contains_identifier("SELECT id FROM superusers", "users"));
}

#[test]
fn self_reference_marks_self_loop() {
    let schema = Schema {
        tables: vec![table(
            "employees",
            vec![column("id", "int", false, true), column("manager_id", "int", true, false)],
            vec![fk("fk_manager", "manager_id", "employees")],
        )],
        views: vec![],
        enums: vec![],
    };
    let graph = LayoutGraphBuilder::new().build(&schema);
    assert_eq!(graph.edges.len(), 1);
    assert!(graph.edges[0].is_self_loop);
    assert!(graph.edges[0].nullable);
    assert!(graph.nodes[0].has_self_loop);
    assert_eq!(graph.nodes[0].inbound_count, 0);
}

#[test]
fn prefix_fallback_keeps_three_characters() {
    assert_eq!(extract_prefix("ééééééé"), "ééé...");
    assert_eq!(extract_prefix("ébcdefg"), "ébc...");
    assert_eq!(extract_prefix("abcdefg"), "abc...");
    assert_eq!(extract_prefix("abcdef"), "abcdef");
    assert_eq!(extract_prefix("_abcdefg"), "_ab...");
    // More than six bytes counts, not more than six characters.
    assert_eq!(extract_prefix("abcdéf"), "abc...");
    assert_eq!(extract_prefix("😀😀"), "😀😀...");
}
