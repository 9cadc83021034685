//! Layout results and the integer policies of the layout engine: errors,
//! rendered column flags, routing names, lane numbering of parallel edges,
//! the stable routing order of edges and glyph width classes.

use vstd::prelude::*;
use vstd::string::StringExecFns;

use crate::focus::FocusError;
use crate::graph::{strings_model, LayoutEdge, LayoutGraph};
use crate::text::{chars_of, text_less, text_less_exec};

verus! {

/// Number of extra lanes tried beside a bypass channel.
pub const BYPASS_CHANNEL_EXTRA_LANES: usize = 3;

/// Default number of iterations for force-directed layout.
pub fn default_force_iterations() -> (n: usize)
    ensures
        n == 150,
{
    150
}

/// Number of lanes tried for a bypass channel: the channel itself and its extra lanes.
pub fn bypass_channel_lane_count() -> (n: usize)
    ensures
        n == BYPASS_CHANNEL_EXTRA_LANES + 1,
{
    BYPASS_CHANNEL_EXTRA_LANES + 1
}

/// `value` as a `u16`, saturating at `u16::MAX`.
pub fn clipped_u16(value: usize) -> (r: u16)
    ensures
        r == if value <= u16::MAX as usize {
            value as u16
        } else {
            u16::MAX
        },
{
    if value <= u16::MAX as usize {
        value as u16
    } else {
        u16::MAX
    }
}

/// Validation error for an invalid layout configuration.
#[derive(Debug)]
pub struct LayoutConfigValidationError {
    /// The issues found, joined by `"; "`.
    pub message: String,
}

/// The parts with `sep` between each two.
pub open spec fn joined_with(parts: Seq<Seq<char>>, sep: Seq<char>) -> Seq<char>
    decreases parts.len(),
{
    if parts.len() == 0 {
        Seq::empty()
    } else if parts.len() == 1 {
        parts[0]
    } else {
        joined_with(parts.drop_last(), sep) + sep + parts.last()
    }
}

impl LayoutConfigValidationError {
    /// An error listing `issues`, separated by `"; "`.
    pub fn new(issues: &[String]) -> (e: Self)
        ensures
            e.message@ == joined_with(strings_model(issues@), "; "@),
    {
        let ghost all = strings_model(issues@);
        let mut message = String::new();
        for i in 0..issues.len()
            invariant
                all == strings_model(issues@),
                message@ == joined_with(all.subrange(0, i as int), "; "@),
        {
            let ghost before = message@;
            if i > 0 {
                message.append("; ");
            }
            message.append(issues[i].as_str());
            proof {
                assert(all.subrange(0, i + 1).drop_last() =~= all.subrange(0, i as int));
                if i == 0 {
                    assert(message@ =~= all[0]);
                } else {
                    assert(message@ =~= before + "; "@ + all[i as int]);
                }
            }
        }
        proof {
            assert(all.subrange(0, all.len() as int) =~= all);
        }
        LayoutConfigValidationError { message }
    }
}

/// Error during layout.
#[derive(Debug)]
pub enum LayoutError {
    /// Error occurred during focus extraction.
    Focus(FocusError),
    /// Layout configuration failed validation.
    InvalidConfig(LayoutConfigValidationError),
    /// Coordinate assignment left a node without a position.
    MissingNodePosition {
        /// Stable node identifier.
        node_id: String,
    },
    /// Edge routing could not find a required graph component.
    RoutingInvariant {
        /// Source node identifier.
        from: String,
        /// Target node identifier.
        to: String,
        /// Human-readable detail.
        detail: &'static str,
    },
}

impl From<FocusError> for LayoutError {
    fn from(e: FocusError) -> (r: Self) {
        LayoutError::Focus(e)
    }
}

impl vstd::std_specs::convert::FromSpecImpl<FocusError> for LayoutError {
    open spec fn obeys_from_spec() -> bool {
        true
    }

    open spec fn from_spec(e: FocusError) -> Self {
        LayoutError::Focus(e)
    }
}

impl From<LayoutConfigValidationError> for LayoutError {
    fn from(e: LayoutConfigValidationError) -> (r: Self) {
        LayoutError::InvalidConfig(e)
    }
}

impl vstd::std_specs::convert::FromSpecImpl<LayoutConfigValidationError> for LayoutError {
    open spec fn obeys_from_spec() -> bool {
        true
    }

    open spec fn from_spec(e: LayoutConfigValidationError) -> Self {
        LayoutError::InvalidConfig(e)
    }
}

/// Shared flag set for rendered columns.
#[derive(Debug, Clone, Copy, PartialEq, Eq, Structural)]
pub struct ColumnRelationFlags {
    /// Whether this column is part of the primary key.
    pub is_primary_key: bool,
    /// Whether this column participates in a foreign key.
    pub is_foreign_key: bool,
    /// Whether this column appears in an index.
    pub is_indexed: bool,
}

impl Default for ColumnRelationFlags {
    fn default() -> (f: Self)
        ensures
            !f.is_primary_key && !f.is_foreign_key && !f.is_indexed,
    {
        ColumnRelationFlags { is_primary_key: false, is_foreign_key: false, is_indexed: false }
    }
}

/// Shared flag set for rendered columns.
#[derive(Debug, Clone, Copy, PartialEq, Eq, Structural)]
pub struct ColumnFlags {
    /// Whether the column can be null.
    pub nullable: bool,
    /// Relationship and index markers.
    pub relation: ColumnRelationFlags,
}

impl Default for ColumnFlags {
    fn default() -> (f: Self)
        ensures
            !f.nullable && !f.relation.is_primary_key && !f.relation.is_foreign_key && !f.relation.is_indexed,
    {
        ColumnFlags { nullable: false, relation: ColumnRelationFlags::default() }
    }
}

/// Column information for positioned nodes.
#[derive(Debug)]
pub struct PositionedColumn {
    /// Column name.
    pub name: String,
    /// Column data type.
    pub data_type: String,
    /// Boolean render flags.
    pub flags: ColumnFlags,
}

/// Graph-level routing diagnostics.
#[derive(Debug, Clone, Copy, PartialEq, Eq, Structural)]
pub struct PositionedGraphRoutingDebug {
    /// Number of non-self-loop edges whose final backbone still intersects padded obstacles.
    pub non_self_loop_detour_activations: usize,
    /// Number of edges that fell back to simple backbone routing because no obstacle-aware
    /// channel candidate satisfied hard constraints.
    pub channel_fallback_activations: usize,
}

/// The side of a node an edge attaches to.
#[derive(Debug, Clone, Copy, PartialEq, Eq, Structural)]
pub enum AttachmentSide {
    North,
    South,
    East,
    West,
}

/// The axis a routing channel runs along.
#[derive(Debug, Clone, Copy, PartialEq, Eq, Structural)]
pub enum ChannelAxis {
    X,
    Y,
}

/// The name of an attachment side.
pub fn attachment_side_name(side: AttachmentSide) -> (name: &'static str)
    ensures
        name@ == match side {
            AttachmentSide::North => "north"@,
            AttachmentSide::South => "south"@,
            AttachmentSide::East => "east"@,
            AttachmentSide::West => "west"@,
        },
{
    match side {
        AttachmentSide::North => "north",
        AttachmentSide::South => "south",
        AttachmentSide::East => "east",
        AttachmentSide::West => "west",
    }
}

/// The name of a channel axis.
pub fn channel_axis_name(axis: ChannelAxis) -> (name: &'static str)
    ensures
        name@ == match axis {
            ChannelAxis::X => "x"@,
            ChannelAxis::Y => "y"@,
        },
{
    match axis {
        ChannelAxis::X => "x",
        ChannelAxis::Y => "y",
    }
}

/// An item packed by the force layout: a group or a node outside groups.
#[derive(Debug, Clone, Copy, PartialEq, Eq, Structural)]
pub enum ForcePackItem {
    /// A group, by group index.
    Group(usize),
    /// A node outside any group, by node index.
    UngroupedNode(usize),
}

/// The packing order key of an item: groups first, each kind by index.
pub fn force_pack_item_order(item: ForcePackItem) -> (key: (u8, usize))
    ensures
        key == match item {
            ForcePackItem::Group(i) => (0u8, i),
            ForcePackItem::UngroupedNode(i) => (1u8, i),
        },
{
    match item {
        ForcePackItem::Group(index) => (0, index),
        ForcePackItem::UngroupedNode(index) => (1, index),
    }
}

/// `a` comes before `b` or equals it, in the order of strings.
pub open spec fn text_le(a: Seq<char>, b: Seq<char>) -> bool {
    !text_less(b, a)
}

/// The two ends of an edge, smaller first.
pub open spec fn canonical_pair(from: Seq<char>, to: Seq<char>) -> (Seq<char>, Seq<char>) {
    if text_le(from, to) {
        (from, to)
    } else {
        (to, from)
    }
}

/// The ends of an edge ordered smaller first, so that both directions give the same pair.
pub fn canonical_edge_pair(from: &str, to: &str) -> (pair: (String, String))
    ensures
        (pair.0@, pair.1@) == canonical_pair(from@, to@),
{
    let a = chars_of(from);
    let b = chars_of(to);
    if !text_less_exec(&b, &a) {
        (from.to_string(), to.to_string())
    } else {
        (to.to_string(), from.to_string())
    }
}

/// Two edges join the same two nodes, in either direction.
pub open spec fn same_ends(a: LayoutEdge, b: LayoutEdge) -> bool {
    ||| (a.from@ == b.from@ && a.to@ == b.to@)
    ||| (a.from@ == b.to@ && a.to@ == b.from@)
}

/// Number of edges among the first `k` that join the same two nodes as `e`.
pub open spec fn same_ends_count(edges: Seq<LayoutEdge>, e: LayoutEdge, k: int) -> nat
    decreases k,
{
    if k <= 0 {
        0
    } else {
        same_ends_count(edges, e, k - 1) + if same_ends(edges[k - 1], e) {
            1nat
        } else {
            0nat
        }
    }
}

/// Canonical pairs are equal exactly when the edges join the same two nodes.
proof fn lemma_canonical_pair_same_ends(a: LayoutEdge, b: LayoutEdge)
    ensures
        (canonical_pair(a.from@, a.to@) == canonical_pair(b.from@, b.to@)) == same_ends(a, b),
{
    crate::text::lemma_text_less_total(a.from@, a.to@);
    crate::text::lemma_text_less_total(b.from@, b.to@);
    if text_less(a.from@, a.to@) {
        crate::text::lemma_text_less_asymmetric(a.from@, a.to@);
    }
    if text_less(b.from@, b.to@) {
        crate::text::lemma_text_less_asymmetric(b.from@, b.to@);
    }
    crate::text::lemma_text_less_irreflexive(a.from@);
    crate::text::lemma_text_less_irreflexive(b.from@);
}

/// Whether the canonical pair `(f, t)` is that of `edge`.
fn pair_matches(f: &Vec<char>, t: &Vec<char>, edge: &LayoutEdge) -> (r: bool)
    ensures
        r == ((f@, t@) == canonical_pair(edge.from@, edge.to@)),
{
    let pair = canonical_edge_pair(edge.from.as_str(), edge.to.as_str());
    let pf = chars_of(pair.0.as_str());
    let pt = chars_of(pair.1.as_str());
    seq_eq(f, &pf) && seq_eq(t, &pt)
}

/// Whether two character lists are equal.
fn seq_eq(a: &Vec<char>, b: &Vec<char>) -> (r: bool)
    ensures
        r == (a@ == b@),
{
    if a.len() != b.len() {
        return false;
    }
    for i in 0..a.len()
        invariant
            a@.len() == b@.len(),
            forall|q: int| 0 <= q < i ==> a@[q] == b@[q],
    {
        if a[i] != b[i] {
            return false;
        }
    }
    proof {
        assert(a@ =~= b@);
    }
    true
}

/// For each edge, how many earlier edges join the same two nodes: its lane
/// among parallel edges.
pub fn edge_lane_indices(graph: &LayoutGraph) -> (lanes: Vec<usize>)
    ensures
        lanes@.len() == graph.edges@.len(),
        forall|k: int|
            0 <= k < lanes@.len() ==> #[trigger] lanes@[k] == same_ends_count(graph.edges@, graph.edges@[k], k),
{
    let mut lanes: Vec<usize> = Vec::new();
    for k in 0..graph.edges.len()
        invariant
            lanes@.len() == k,
            forall|q: int|
                0 <= q < k ==> #[trigger] lanes@[q] == same_ends_count(graph.edges@, graph.edges@[q], q),
    {
        let lane = count_same_ends(graph, k, k);
        lanes.push(lane);
    }
    lanes
}

/// For each edge, how many edges of the graph join the same two nodes.
pub fn edge_lane_counts(graph: &LayoutGraph) -> (counts: Vec<usize>)
    ensures
        counts@.len() == graph.edges@.len(),
        forall|k: int|
            0 <= k < counts@.len() ==> #[trigger] counts@[k] == same_ends_count(
                graph.edges@,
                graph.edges@[k],
                graph.edges@.len() as int,
            ),
{
    let mut counts: Vec<usize> = Vec::new();
    let total = graph.edges.len();
    for k in 0..total
        invariant
            total == graph.edges@.len(),
            counts@.len() == k,
            forall|q: int|
                0 <= q < k ==> #[trigger] counts@[q] == same_ends_count(
                    graph.edges@,
                    graph.edges@[q],
                    graph.edges@.len() as int,
                ),
    {
        let count = count_same_ends(graph, k, total);
        counts.push(count);
    }
    counts
}

/// Number of edges among the first `limit` that join the same two nodes as edge `k`.
fn count_same_ends(graph: &LayoutGraph, k: usize, limit: usize) -> (n: usize)
    requires
        k < graph.edges@.len(),
        limit <= graph.edges@.len(),
    ensures
        n == same_ends_count(graph.edges@, graph.edges@[k as int], limit as int),
{
    let edge = &graph.edges[k];
    let pair = canonical_edge_pair(edge.from.as_str(), edge.to.as_str());
    let f = chars_of(pair.0.as_str());
    let t = chars_of(pair.1.as_str());
    let mut n: usize = 0;
    for j in 0..limit
        invariant
            limit <= graph.edges@.len(),
            k < graph.edges@.len(),
            (f@, t@) == canonical_pair(graph.edges@[k as int].from@, graph.edges@[k as int].to@),
            n == same_ends_count(graph.edges@, graph.edges@[k as int], j as int),
            n <= j,
    {
        proof {
            lemma_canonical_pair_same_ends(graph.edges@[j as int], graph.edges@[k as int]);
        }
        if pair_matches(&f, &t, &graph.edges[j]) {
            n = n + 1;
        }
    }
    n
}

} // verus!

verus! {

/// The display width `unicode-width` gives a character, East Asian
/// ambiguous characters counted wide; `None` for control characters.
pub uninterp spec fn cjk_width(c: char) -> Option<usize>;

/// The display width `unicode-width` gives a character, East Asian
/// ambiguous characters counted narrow; `None` for control characters.
pub uninterp spec fn narrow_width(c: char) -> Option<usize>;

/// A control character, for which `unicode-width` gives no width.
pub open spec fn control_char(c: char) -> bool {
    (c as u32) < 0x20 || (0x7F <= (c as u32) && (c as u32) < 0xA0)
}

/// `UnicodeWidthChar::width_cjk` of `unicode-width`: the character's width
/// in columns with ambiguous characters wide, `None` exactly for control
/// characters, and one column for printable ASCII.
#[verifier::external_body]
fn char_width_cjk(c: char) -> (r: Option<usize>)
    ensures
        r == cjk_width(c),
        r is None <==> control_char(c),
        0x20 <= (c as u32) < 0x7F ==> r == Some(1usize),
{
    unicode_width::UnicodeWidthChar::width_cjk(c)
}

/// `UnicodeWidthChar::width` of `unicode-width`: the character's width in
/// columns with ambiguous characters narrow, `None` exactly for control
/// characters, and one column for printable ASCII.
#[verifier::external_body]
fn char_width(c: char) -> (r: Option<usize>)
    ensures
        r == narrow_width(c),
        r is None <==> control_char(c),
        0x20 <= (c as u32) < 0x7F ==> r == Some(1usize),
{
    unicode_width::UnicodeWidthChar::width(c)
}

/// How wide a glyph is drawn, by class; the layout scales each class by the
/// font size.
#[derive(Debug, Clone, Copy, PartialEq, Eq, Structural)]
pub enum GlyphWidth {
    /// An ASCII capital letter.
    Capital,
    /// An ASCII small letter or digit, or other ASCII not listed below.
    Regular,
    /// `_ - . : , ( ) [ ]` or space.
    Thin,
    /// Other ASCII punctuation.
    Punctuation,
    /// A non-ASCII character of no width.
    Zero,
    /// A non-ASCII character one column wide.
    Single,
    /// A non-ASCII character two or more columns wide.
    Double,
    /// A non-ASCII control character.
    Unknown,
}

/// ASCII punctuation: `! " # $ % & ' ( ) * + , - . /`, `: ; < = > ? @`,
/// `[ \ ] ^ _` and backquote, `{ | } ~`.
pub open spec fn ascii_punctuation(c: char) -> bool {
    let u = c as u32;
    (0x21 <= u <= 0x2F) || (0x3A <= u <= 0x40) || (0x5B <= u <= 0x60) || (0x7B <= u <= 0x7E)
}

/// The width class of a glyph; beyond ASCII it follows the CJK width, else
/// the plain width.
pub open spec fn glyph_class(c: char) -> GlyphWidth {
    let u = c as u32;
    if 0x41 <= u <= 0x5A {
        GlyphWidth::Capital
    } else if (0x61 <= u <= 0x7A) || (0x30 <= u <= 0x39) {
        GlyphWidth::Regular
    } else if c == '_' || c == '-' || c == '.' || c == ':' || c == ',' || c == '(' || c == ')' || c == '['
        || c == ']' || c == ' ' {
        GlyphWidth::Thin
    } else if ascii_punctuation(c) {
        GlyphWidth::Punctuation
    } else if u < 0x80 {
        GlyphWidth::Regular
    } else {
        let w = match cjk_width(c) {
            Some(w) => Some(w),
            None => narrow_width(c),
        };
        match w {
            Some(0) => GlyphWidth::Zero,
            Some(1) => GlyphWidth::Single,
            Some(_) => GlyphWidth::Double,
            None => GlyphWidth::Unknown,
        }
    }
}

/// The width class of a glyph.
pub fn glyph_width(c: char) -> (w: GlyphWidth)
    ensures
        w == glyph_class(c),
{
    let u = c as u32;
    if 0x41 <= u && u <= 0x5A {
        GlyphWidth::Capital
    } else if (0x61 <= u && u <= 0x7A) || (0x30 <= u && u <= 0x39) {
        GlyphWidth::Regular
    } else if c == '_' || c == '-' || c == '.' || c == ':' || c == ',' || c == '(' || c == ')' || c == '['
        || c == ']' || c == ' ' {
        GlyphWidth::Thin
    } else if (0x21 <= u && u <= 0x2F) || (0x3A <= u && u <= 0x40) || (0x5B <= u && u <= 0x60) || (0x7B <= u
        && u <= 0x7E) {
        GlyphWidth::Punctuation
    } else if u < 0x80 {
        GlyphWidth::Regular
    } else {
        let w = match char_width_cjk(c) {
            Some(w) => Some(w),
            None => char_width(c),
        };
        match w {
            Some(0) => GlyphWidth::Zero,
            Some(1) => GlyphWidth::Single,
            Some(_) => GlyphWidth::Double,
            None => GlyphWidth::Unknown,
        }
    }
}

/// The width classes of the glyphs of a text, in order.
pub fn glyph_widths(text: &str) -> (ws: Vec<GlyphWidth>)
    ensures
        ws@ == text@.map_values(|c: char| glyph_class(c)),
{
    let chars = chars_of(text);
    let mut ws: Vec<GlyphWidth> = Vec::new();
    for i in 0..chars.len()
        invariant
            chars@ == text@,
            ws@ == text@.subrange(0, i as int).map_values(|c: char| glyph_class(c)),
    {
        ws.push(glyph_width(chars[i]));
        proof {
            assert(ws@ =~= text@.subrange(0, i + 1).map_values(|c: char| glyph_class(c)));
        }
    }
    proof {
        assert(text@.subrange(0, text@.len() as int) =~= text@);
    }
    ws
}

} // verus!

verus! {

/// The text a column row shows: `• name` for an enum label, the name alone
/// when there is no type, else `name: type`.
pub open spec fn column_text(kind: crate::schema::NodeKind, name: Seq<char>, data_type: Seq<char>) -> Seq<char> {
    if kind == crate::schema::NodeKind::Enum {
        "• "@ + name
    } else if data_type.len() == 0 {
        name
    } else {
        name + ": "@ + data_type
    }
}

/// The text a column row shows.
pub fn display_column_text(kind: crate::schema::NodeKind, name: &str, data_type: &str) -> (s: String)
    ensures
        s@ == column_text(kind, name@, data_type@),
{
    if kind == crate::schema::NodeKind::Enum {
        let mut s = String::from_str("• ");
        s.append(name);
        s
    } else if data_type.unicode_len() == 0 {
        name.to_string()
    } else {
        let mut s = name.to_string();
        s.append(": ");
        s.append(data_type);
        s
    }
}

} // verus!

verus! {

/// The direction layers flow in.
#[derive(Debug, Clone, Copy, PartialEq, Eq, Structural)]
pub enum LayoutDirection {
    /// Parents above children.
    TopToBottom,
    /// Parents below children.
    BottomToTop,
    /// Parents left of children.
    LeftToRight,
    /// Parents right of children.
    RightToLeft,
}

/// The sides an edge leaves its source and enters its target by along the
/// flow: `(source side, target side)`.
pub open spec fn flow_sides(direction: LayoutDirection) -> (AttachmentSide, AttachmentSide) {
    match direction {
        LayoutDirection::TopToBottom => (AttachmentSide::South, AttachmentSide::North),
        LayoutDirection::BottomToTop => (AttachmentSide::North, AttachmentSide::South),
        LayoutDirection::LeftToRight => (AttachmentSide::East, AttachmentSide::West),
        LayoutDirection::RightToLeft => (AttachmentSide::West, AttachmentSide::East),
    }
}

/// The sides for an edge that follows the flow.
pub fn preferred_primary_sides(direction: LayoutDirection) -> (sides: (AttachmentSide, AttachmentSide))
    ensures
        sides == flow_sides(direction),
{
    match direction {
        LayoutDirection::TopToBottom => (AttachmentSide::South, AttachmentSide::North),
        LayoutDirection::BottomToTop => (AttachmentSide::North, AttachmentSide::South),
        LayoutDirection::LeftToRight => (AttachmentSide::East, AttachmentSide::West),
        LayoutDirection::RightToLeft => (AttachmentSide::West, AttachmentSide::East),
    }
}

/// The sides for an edge that runs against the flow: those of a flowing
/// edge, exchanged.
pub fn opposite_primary_sides(direction: LayoutDirection) -> (sides: (AttachmentSide, AttachmentSide))
    ensures
        sides == (flow_sides(direction).1, flow_sides(direction).0),
{
    match direction {
        LayoutDirection::TopToBottom => (AttachmentSide::North, AttachmentSide::South),
        LayoutDirection::BottomToTop => (AttachmentSide::South, AttachmentSide::North),
        LayoutDirection::LeftToRight => (AttachmentSide::West, AttachmentSide::East),
        LayoutDirection::RightToLeft => (AttachmentSide::East, AttachmentSide::West),
    }
}

/// An edge leaves and enters by opposite sides of the same axis.
pub proof fn lemma_flow_sides_face_each_other(direction: LayoutDirection)
    ensures
        flow_sides(direction).0 != flow_sides(direction).1,
        (flow_sides(direction).0 == AttachmentSide::North || flow_sides(direction).0 == AttachmentSide::South)
            <==> (flow_sides(direction).1 == AttachmentSide::North || flow_sides(direction).1 == AttachmentSide::South),
{
}

/// A key for an edge that no other edge shares: `from`, NUL, `to`, NUL, index.
pub open spec fn edge_key_text(from: Seq<char>, to: Seq<char>, edge_index: nat) -> Seq<char> {
    from + seq!['\0'] + to + seq!['\0'] + crate::text::decimal(edge_index)
}

/// A key for an edge that no other edge shares.
pub fn stable_edge_key(from: &str, to: &str, edge_index: usize) -> (key: String)
    ensures
        key@ == edge_key_text(from@, to@, edge_index as nat),
{
    let mut key = from.to_string();
    crate::text::push_char(&mut key, '\0');
    key.append(to);
    crate::text::push_char(&mut key, '\0');
    let number = crate::text::decimal_string(edge_index);
    key.append(number.as_str());
    proof {
        assert(key@ =~= edge_key_text(from@, to@, edge_index as nat));
    }
    key
}

/// Some edge joins the nodes at `a` and `b` by their ids, in either direction.
pub open spec fn nodes_connected(g: LayoutGraph, a: int, b: int) -> bool {
    exists|k: int|
        0 <= k < g.edges@.len() && {
            let e = #[trigger] g.edges@[k];
            (e.from@ == g.nodes@[a].id@ && e.to@ == g.nodes@[b].id@) || (e.from@ == g.nodes@[b].id@
                && e.to@ == g.nodes@[a].id@)
        }
}

/// Whether some edge joins the nodes at `left_idx` and `right_idx`.
pub fn force_nodes_are_connected(graph: &LayoutGraph, left_idx: usize, right_idx: usize) -> (r: bool)
    requires
        left_idx < graph.nodes@.len(),
        right_idx < graph.nodes@.len(),
    ensures
        r == nodes_connected(*graph, left_idx as int, right_idx as int),
{
    let left_id = &graph.nodes[left_idx].id;
    let right_id = &graph.nodes[right_idx].id;
    for k in 0..graph.edges.len()
        invariant
            left_idx < graph.nodes@.len(),
            right_idx < graph.nodes@.len(),
            left_id@ == graph.nodes@[left_idx as int].id@,
            right_id@ == graph.nodes@[right_idx as int].id@,
            forall|q: int|
                0 <= q < k ==> !{
                    let e = #[trigger] graph.edges@[q];
                    (e.from@ == left_id@ && e.to@ == right_id@) || (e.from@ == right_id@ && e.to@ == left_id@)
                },
    {
        let edge = &graph.edges[k];
        if (edge.from == *left_id && edge.to == *right_id) || (edge.from == *right_id && edge.to == *left_id) {
            return true;
        }
    }
    false
}

/// The nodes a packed item stands for.
pub open spec fn item_nodes(g: LayoutGraph, item: ForcePackItem) -> Seq<usize> {
    match item {
        ForcePackItem::UngroupedNode(i) => seq![i],
        ForcePackItem::Group(j) => g.groups@[j as int].node_indices@,
    }
}

/// Some node of one item is joined by an edge to some node of the other.
pub open spec fn items_connected(g: LayoutGraph, left: ForcePackItem, right: ForcePackItem) -> bool {
    exists|p: int, q: int|
        0 <= p < item_nodes(g, left).len() && 0 <= q < item_nodes(g, right).len() && #[trigger] nodes_connected(
            g,
            item_nodes(g, left)[p] as int,
            #[trigger] item_nodes(g, right)[q] as int,
        )
}

/// The item names a group of the graph, or a node; every node a group lists is a node.
pub open spec fn item_in_range(g: LayoutGraph, item: ForcePackItem) -> bool {
    match item {
        ForcePackItem::UngroupedNode(i) => i < g.nodes@.len(),
        ForcePackItem::Group(j) => j < g.groups@.len() && forall|p: int|
            0 <= p < g.groups@[j as int].node_indices@.len() ==> #[trigger] g.groups@[j as int].node_indices@[p]
                < g.nodes@.len(),
    }
}

/// The nodes of a packed item.
fn item_node_list(graph: &LayoutGraph, item: ForcePackItem) -> (nodes: Vec<usize>)
    requires
        item_in_range(*graph, item),
    ensures
        nodes@ == item_nodes(*graph, item),
{
    match item {
        ForcePackItem::UngroupedNode(i) => {
            let mut v: Vec<usize> = Vec::new();
            v.push(i);
            proof {
                assert(v@ =~= seq![i]);
            }
            v
        },
        ForcePackItem::Group(j) => {
            let mut v: Vec<usize> = Vec::new();
            let members = &graph.groups[j].node_indices;
            for p in 0..members.len()
                invariant
                    v@ == members@.subrange(0, p as int),
            {
                v.push(members[p]);
                proof {
                    assert(v@ =~= members@.subrange(0, p + 1));
                }
            }
            proof {
                assert(members@.subrange(0, members@.len() as int) =~= members@);
            }
            v
        },
    }
}

/// Whether an edge joins some node of `left` to some node of `right`.
pub fn force_pack_items_are_connected(graph: &LayoutGraph, left: ForcePackItem, right: ForcePackItem) -> (r: bool)
    requires
        item_in_range(*graph, left),
        item_in_range(*graph, right),
    ensures
        r == items_connected(*graph, left, right),
{
    let lefts = item_node_list(graph, left);
    let rights = item_node_list(graph, right);
    for p in 0..lefts.len()
        invariant
            lefts@ == item_nodes(*graph, left),
            rights@ == item_nodes(*graph, right),
            item_in_range(*graph, left),
            item_in_range(*graph, right),
            forall|a: int, b: int|
                0 <= a < p && 0 <= b < rights@.len() ==> !#[trigger] nodes_connected(
                    *graph,
                    lefts@[a] as int,
                    #[trigger] rights@[b] as int,
                ),
    {
        for q in 0..rights.len()
            invariant
                lefts@ == item_nodes(*graph, left),
                rights@ == item_nodes(*graph, right),
                item_in_range(*graph, left),
                item_in_range(*graph, right),
                p < lefts@.len(),
                forall|a: int, b: int|
                    0 <= a < p && 0 <= b < rights@.len() ==> !#[trigger] nodes_connected(
                        *graph,
                        lefts@[a] as int,
                        #[trigger] rights@[b] as int,
                    ),
                forall|b: int| 0 <= b < q ==> !nodes_connected(*graph, lefts@[p as int] as int, #[trigger] rights@[b] as int),
        {
            proof {
                assert(lefts@[p as int] < graph.nodes@.len());
                assert(rights@[q as int] < graph.nodes@.len());
            }
            if force_nodes_are_connected(graph, lefts[p], rights[q]) {
                return true;
            }
        }
    }
    false
}

} // verus!
