use relune_layout::graph::{LayoutEdge, LayoutGraph, NodeIndex};
use relune_layout::graph::{LayoutGroup, LayoutNode};
use relune_layout::layout::{
    force_nodes_are_connected, force_pack_items_are_connected, opposite_primary_sides, preferred_primary_sides,
    stable_edge_key, LayoutDirection,
};
use relune_layout::routing_order::stable_edge_routing_order;
use relune_layout::layout::{
    attachment_side_name, bypass_channel_lane_count, canonical_edge_pair, channel_axis_name, clipped_u16,
    default_force_iterations, display_column_text, edge_lane_counts, edge_lane_indices, force_pack_item_order,
    glyph_width, glyph_widths, AttachmentSide, ChannelAxis, ColumnFlags, ForcePackItem, GlyphWidth,
    LayoutConfigValidationError, LayoutError,
};
use relune_layout::schema::{EdgeKind, NodeKind};

fn edge(from: &str, to: &str) -> LayoutEdge {
    LayoutEdge {
        from: from.into(),
        to: to.into(),
        name: None,
        from_columns: vec![],
        to_columns: vec![],
        kind: EdgeKind::ForeignKey,
        is_self_loop: from == to,
        nullable: false,
        is_collapsed_join: false,
        collapsed_join_table: None,
    }
}

fn graph_with_edges(edges: Vec<LayoutEdge>) -> LayoutGraph {
    LayoutGraph { nodes: vec![], edges, groups: vec![], node_index: NodeIndex::new(), reverse_index: vec![] }
}

#[test]
fn small_policies_have_their_fixed_values() {
    assert_eq!(default_force_iterations(), 150);
    assert_eq!(bypass_channel_lane_count(), 4);
    assert_eq!(clipped_u16(7), 7);
    assert_eq!(clipped_u16(70_000), u16::MAX);
    assert_eq!(force_pack_item_order(ForcePackItem::Group(3)), (0, 3));
    assert_eq!(force_pack_item_order(ForcePackItem::UngroupedNode(1)), (1, 1));
    assert_eq!(attachment_side_name(AttachmentSide::West), "west");
    assert_eq!(attachment_side_name(AttachmentSide::North), "north");
    assert_eq!(channel_axis_name(ChannelAxis::Y), "y");
}

#[test]
fn canonical_pairs_ignore_direction() {
    assert_eq!(canonical_edge_pair("b", "a"), ("a".to_string(), "b".to_string()));
    assert_eq!(canonical_edge_pair("a", "b"), ("a".to_string(), "b".to_string()));
    assert_eq!(canonical_edge_pair("ab", "a"), ("a".to_string(), "ab".to_string()));
}

#[test]
fn parallel_edges_get_successive_lanes() {
    let graph = graph_with_edges(vec![edge("a", "b"), edge("b", "a"), edge("a", "c"), edge("a", "b")]);
    assert_eq!(edge_lane_indices(&graph), vec![0, 1, 0, 2]);
    assert_eq!(edge_lane_counts(&graph), vec![3, 3, 1, 3]);
}

#[test]
fn validation_error_joins_issues() {
    let e = LayoutConfigValidationError::new(&["a".to_string(), "b".to_string()]);
    assert_eq!(e.message, "a; b");
    let empty = LayoutConfigValidationError::new(&[]);
    assert_eq!(empty.message, "");
    match LayoutError::from(e) {
        LayoutError::InvalidConfig(inner) => assert_eq!(inner.message, "a; b"),
        _ => panic!("expected an invalid config error"),
    }
}

#[test]
fn glyph_classes_follow_ascii_then_unicode_width() {
    assert_eq!(glyph_width('Q'), GlyphWidth::Capital);
    assert_eq!(glyph_width('q'), GlyphWidth::Regular);
    assert_eq!(glyph_width('7'), GlyphWidth::Regular);
    assert_eq!(glyph_width('_'), GlyphWidth::Thin);
    assert_eq!(glyph_width('#'), GlyphWidth::Punctuation);
    assert_eq!(glyph_width('\t'), GlyphWidth::Regular);
    assert_eq!(glyph_width('\u{628}'), GlyphWidth::Single);
    assert_eq!(glyph_width('é'), GlyphWidth::Single);
    assert_eq!(glyph_width('漢'), GlyphWidth::Double);
    assert_eq!(glyph_width('\u{301}'), GlyphWidth::Zero);
    assert_eq!(glyph_width('\u{85}'), GlyphWidth::Unknown);
    assert_eq!(glyph_widths("Ab."), vec![GlyphWidth::Capital, GlyphWidth::Regular, GlyphWidth::Thin]);
}

#[test]
fn column_text_by_kind() {
    assert_eq!(display_column_text(NodeKind::Enum, "active", "ignored"), "• active");
    assert_eq!(display_column_text(NodeKind::Table, "id", ""), "id");
    assert_eq!(display_column_text(NodeKind::Table, "id", "int"), "id: int");
}

#[test]
fn column_flags_default_to_false() {
    let flags = ColumnFlags::default();
    assert!(!flags.nullable);
    assert!(!flags.relation.is_primary_key);
}

fn plain_node(id: &str) -> LayoutNode {
    LayoutNode {
        id: id.into(),
        label: id.into(),
        schema_name: None,
        table_name: id.into(),
        kind: NodeKind::Table,
        columns: vec![],
        inbound_count: 0,
        outbound_count: 0,
        has_self_loop: false,
        is_join_table_candidate: false,
        group_index: None,
    }
}

fn indexed_graph(ids: &[&str], edges: Vec<LayoutEdge>) -> LayoutGraph {
    let mut node_index = NodeIndex::new();
    for (i, id) in ids.iter().enumerate() {
        node_index.insert(id.to_string(), i);
    }
    LayoutGraph {
        nodes: ids.iter().map(|id| plain_node(id)).collect(),
        edges,
        groups: vec![],
        node_index,
        reverse_index: ids.iter().map(|id| id.to_string()).collect(),
    }
}

#[test]
fn routing_order_sorts_by_rank_then_ids_then_position() {
    let graph = indexed_graph(&["a", "b", "c"], vec![edge("c", "a"), edge("a", "b"), edge("b", "a"), edge("a", "b")]);
    assert_eq!(stable_edge_routing_order(&graph, None), vec![1, 3, 2, 0]);
    let ranks = vec![2, 0, 1];
    assert_eq!(stable_edge_routing_order(&graph, Some(&ranks)), vec![2, 0, 1, 3]);
}

#[test]
fn flow_sides_and_their_opposites() {
    assert_eq!(preferred_primary_sides(LayoutDirection::TopToBottom), (AttachmentSide::South, AttachmentSide::North));
    assert_eq!(opposite_primary_sides(LayoutDirection::TopToBottom), (AttachmentSide::North, AttachmentSide::South));
    assert_eq!(preferred_primary_sides(LayoutDirection::RightToLeft), (AttachmentSide::West, AttachmentSide::East));
    assert_eq!(opposite_primary_sides(LayoutDirection::LeftToRight), (AttachmentSide::West, AttachmentSide::East));
}

#[test]
fn stable_edge_keys_separate_parts_with_nul() {
    assert_eq!(stable_edge_key("a", "b", 12), "a\u{0}b\u{0}12");
}

#[test]
fn connectivity_of_nodes_and_groups() {
    let mut graph = indexed_graph(&["a", "b", "c", "d"], vec![edge("a", "b"), edge("d", "c")]);
    graph.groups = vec![LayoutGroup { id: "g0".into(), label: "g".into(), node_indices: vec![0, 3] }];
    assert!(force_nodes_are_connected(&graph, 1, 0));
    assert!(!force_nodes_are_connected(&graph, 0, 2));
    assert!(force_pack_items_are_connected(&graph, ForcePackItem::Group(0), ForcePackItem::UngroupedNode(2)));
    assert!(!force_pack_items_are_connected(&graph, ForcePackItem::UngroupedNode(1), ForcePackItem::UngroupedNode(2)));
}
