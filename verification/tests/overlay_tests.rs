use relune_layout::overlay::{
    severity_rank, Annotation, DiagramOverlay, EdgeEntry, EdgeKey, EdgeOverlay, NodeOverlay, OverlaySeverity,
};

fn warning_annotation(msg: &str) -> Annotation {
    Annotation {
        severity: OverlaySeverity::Warning,
        message: msg.to_string(),
        hint: None,
        rule_id: None,
    }
}

fn error_annotation(msg: &str) -> Annotation {
    Annotation {
        severity: OverlaySeverity::Error,
        message: msg.to_string(),
        hint: Some("Fix this".to_string()),
        rule_id: Some("test-rule".to_string()),
    }
}

fn info_annotation(msg: &str) -> Annotation {
    Annotation {
        severity: OverlaySeverity::Info,
        message: msg.to_string(),
        hint: None,
        rule_id: None,
    }
}

#[test]
fn empty_overlay_is_empty() {
    let overlay = DiagramOverlay::new();
    assert!(overlay.is_empty());
    assert!(overlay.node("foo").is_none());
    assert!(overlay.edge("foo", "bar").is_none());
}

#[test]
fn add_node_annotation() {
    let mut overlay = DiagramOverlay::new();
    overlay.add_node_annotation("users", warning_annotation("No primary key"));

    assert!(!overlay.is_empty());
    let node = overlay.node("users").unwrap();
    assert_eq!(node.annotations.len(), 1);
    assert_eq!(node.annotations[0].message, "No primary key");
    assert_eq!(node.max_severity(), Some(OverlaySeverity::Warning));
}

#[test]
fn add_edge_annotation() {
    let mut overlay = DiagramOverlay::new();
    overlay.add_edge_annotation("posts", "users", warning_annotation("Missing index"));

    let edge = overlay.edge("posts", "users").unwrap();
    assert_eq!(edge.annotations.len(), 1);
    assert!(overlay.edge("users", "posts").is_none());
}

#[test]
fn max_severity_picks_highest() {
    let mut overlay = DiagramOverlay::new();
    overlay.add_node_annotation("users", warning_annotation("warn"));
    overlay.add_node_annotation("users", error_annotation("err"));

    let node = overlay.node("users").unwrap();
    assert_eq!(node.max_severity(), Some(OverlaySeverity::Error));
}

#[test]
fn edge_key_round_trips_components() {
    let key = EdgeKey::new("posts", "users");
    assert_eq!(key.from, "posts");
    assert_eq!(key.to, "users");
}

#[test]
fn ambiguous_arrow_ids_do_not_collide() {
    let mut overlay = DiagramOverlay::new();
    overlay.add_edge_annotation("a", "b->c", warning_annotation("first"));
    overlay.add_edge_annotation("a->b", "c", warning_annotation("second"));

    assert_eq!(overlay.edges.len(), 2);
    assert_eq!(overlay.edge("a", "b->c").expect("first edge present").annotations[0].message, "first");
    assert_eq!(overlay.edge("a->b", "c").expect("second edge present").annotations[0].message, "second");
}

#[test]
fn duplicate_edge_entries_are_rejected() {
    let entries = vec![
        EdgeEntry {
            from: "posts".to_string(),
            to: "users".to_string(),
            overlay: EdgeOverlay { annotations: vec![] },
        },
        EdgeEntry {
            from: "posts".to_string(),
            to: "users".to_string(),
            overlay: EdgeOverlay { annotations: vec![] },
        },
    ];
    let err = DiagramOverlay::edges_from_entries(&entries)
        .expect_err("duplicate (from, to) entries should fail to deserialize");
    assert_eq!(err.from, "posts");
    assert_eq!(err.to, "users");
}

#[test]
fn distinct_edge_entries_come_in_key_order() {
    let entries = vec![
        EdgeEntry {
            from: "users".to_string(),
            to: "posts".to_string(),
            overlay: EdgeOverlay { annotations: vec![] },
        },
        EdgeEntry {
            from: "posts".to_string(),
            to: "users".to_string(),
            overlay: EdgeOverlay { annotations: vec![warning_annotation("a")] },
        },
        EdgeEntry {
            from: "posts".to_string(),
            to: "comments".to_string(),
            overlay: EdgeOverlay { annotations: vec![] },
        },
    ];
    let edges = DiagramOverlay::edges_from_entries(&entries).unwrap();
    assert_eq!(edges.len(), 3);
    assert_eq!((edges[0].0.from.as_str(), edges[0].0.to.as_str()), ("posts", "comments"));
    assert_eq!((edges[1].0.from.as_str(), edges[1].0.to.as_str()), ("posts", "users"));
    assert_eq!(edges[1].1.annotations.len(), 1);
    assert_eq!((edges[2].0.from.as_str(), edges[2].0.to.as_str()), ("users", "posts"));
}

#[test]
fn new_entries_are_kept_in_key_order() {
    let mut overlay = DiagramOverlay::new();
    overlay.add_node_annotation("users", info_annotation("one"));
    overlay.add_node_annotation("accounts", info_annotation("two"));
    overlay.add_node_annotation("posts", info_annotation("three"));
    let ids: Vec<&str> = overlay.nodes.iter().map(|(id, _)| id.as_str()).collect();
    assert_eq!(ids, vec!["accounts", "posts", "users"]);
    overlay.add_edge_annotation("b", "a", info_annotation("x"));
    overlay.add_edge_annotation("a", "z", info_annotation("y"));
    overlay.add_edge_annotation("a", "b", info_annotation("z"));
    let keys: Vec<(&str, &str)> = overlay.edges.iter().map(|(k, _)| (k.from.as_str(), k.to.as_str())).collect();
    assert_eq!(keys, vec![("a", "b"), ("a", "z"), ("b", "a")]);
}

#[test]
fn annotations_accumulate_in_order_on_one_node() {
    let mut overlay = DiagramOverlay::new();
    overlay.add_node_annotation("users", info_annotation("one"));
    overlay.add_node_annotation("posts", info_annotation("other"));
    overlay.add_node_annotation("users", warning_annotation("two"));

    assert_eq!(overlay.nodes.len(), 2);
    let node = overlay.node("users").unwrap();
    assert_eq!(node.annotations.len(), 2);
    assert_eq!(node.annotations[0].message, "one");
    assert_eq!(node.annotations[1].message, "two");
    assert_eq!(overlay.node("posts").unwrap().annotations.len(), 1);
}

#[test]
fn max_severity_of_empty_overlay_is_none() {
    let node = NodeOverlay { annotations: vec![] };
    assert_eq!(node.max_severity(), None);
    let edge = EdgeOverlay { annotations: vec![info_annotation("x"), info_annotation("y")] };
    assert_eq!(edge.max_severity(), Some(OverlaySeverity::Info));
}

#[test]
fn severity_rank_orders_info_warning_error() {
    assert!(severity_rank(OverlaySeverity::Info) < severity_rank(OverlaySeverity::Warning));
    assert!(severity_rank(OverlaySeverity::Warning) < severity_rank(OverlaySeverity::Error));
}

#[test]
fn entries_without_annotations_leave_the_overlay_empty() {
    let mut overlay = DiagramOverlay::default();
    assert!(overlay.is_empty());
    overlay.nodes.push(("a".to_string(), NodeOverlay::default()));
    overlay.edges.push((EdgeKey::new("a", "b"), EdgeOverlay::default()));
    assert!(overlay.is_empty());
    overlay.add_node_annotation("a", info_annotation("note"));
    assert!(!overlay.is_empty());
}
