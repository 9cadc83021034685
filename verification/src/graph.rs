//! The layout graph: nodes, edges and groups derived from a schema, plus the
//! builder that derives them (filtering, relationship counts, join-table
//! detection and collapsing, grouping).

use vstd::prelude::*;
use crate::schema::{EdgeKind, NodeKind};

verus! {

/// Column information for layout nodes.
#[derive(Debug)]
pub struct LayoutColumn {
    /// Column name.
    pub name: String,
    /// Column data type.
    pub data_type: String,
    /// Whether the column can be null.
    pub nullable: bool,
    /// Whether this column is part of the primary key.
    pub is_primary_key: bool,
}

impl Clone for LayoutColumn {
    fn clone(&self) -> (c: Self)
        ensures
            c == *self,
    {
        LayoutColumn {
            name: self.name.clone(),
            data_type: self.data_type.clone(),
            nullable: self.nullable,
            is_primary_key: self.is_primary_key,
        }
    }
}

/// A node in the layout graph.
#[derive(Debug)]
pub struct LayoutNode {
    /// Stable ID of the table, view or enum.
    pub id: String,
    /// Qualified name (schema.table or just table).
    pub label: String,
    /// Schema name, if any.
    pub schema_name: Option<String>,
    /// Table (or view / enum) name.
    pub table_name: String,
    /// Node kind.
    pub kind: NodeKind,
    /// Column information for rendering.
    pub columns: Vec<LayoutColumn>,
    /// Number of inbound edges.
    pub inbound_count: usize,
    /// Number of outbound edges.
    pub outbound_count: usize,
    /// Whether this node has a self-referential edge.
    pub has_self_loop: bool,
    /// Whether this is likely a join table.
    pub is_join_table_candidate: bool,
    /// Index of the group this node belongs to (if any).
    pub group_index: Option<usize>,
}

/// Clones a vector of columns, column by column.
pub fn clone_columns(columns: &Vec<LayoutColumn>) -> (out: Vec<LayoutColumn>)
    ensures
        out@ == columns@,
{
    let mut out: Vec<LayoutColumn> = Vec::new();
    for i in 0..columns.len()
        invariant
            out@ == columns@.subrange(0, i as int),
    {
        out.push(columns[i].clone());
        proof {
            assert(out@ =~= columns@.subrange(0, i + 1));
        }
    }
    proof {
        assert(out@ =~= columns@);
    }
    out
}

/// Clones a vector of strings, string by string.
pub fn clone_strings(strings: &Vec<String>) -> (out: Vec<String>)
    ensures
        out@ == strings@,
{
    let mut out: Vec<String> = Vec::new();
    for i in 0..strings.len()
        invariant
            out@ == strings@.subrange(0, i as int),
    {
        out.push(strings[i].clone());
        proof {
            assert(out@ =~= strings@.subrange(0, i + 1));
        }
    }
    proof {
        assert(out@ =~= strings@);
    }
    out
}

/// Clones an optional string.
pub fn clone_opt_string(s: &Option<String>) -> (out: Option<String>)
    ensures
        out == *s,
{
    match s {
        Some(v) => Some(v.clone()),
        None => None,
    }
}

impl LayoutNode {
    /// Field-by-field equality, vectors compared by content.
    pub open spec fn same_as(&self, other: &LayoutNode) -> bool {
        &&& self.id == other.id
        &&& self.label == other.label
        &&& self.schema_name == other.schema_name
        &&& self.table_name == other.table_name
        &&& self.kind == other.kind
        &&& self.columns@ == other.columns@
        &&& self.inbound_count == other.inbound_count
        &&& self.outbound_count == other.outbound_count
        &&& self.has_self_loop == other.has_self_loop
        &&& self.is_join_table_candidate == other.is_join_table_candidate
        &&& self.group_index == other.group_index
    }
}

impl Clone for LayoutNode {
    fn clone(&self) -> (c: Self)
        ensures
            c.same_as(self),
    {
        LayoutNode {
            id: self.id.clone(),
            label: self.label.clone(),
            schema_name: clone_opt_string(&self.schema_name),
            table_name: self.table_name.clone(),
            kind: self.kind,
            columns: clone_columns(&self.columns),
            inbound_count: self.inbound_count,
            outbound_count: self.outbound_count,
            has_self_loop: self.has_self_loop,
            is_join_table_candidate: self.is_join_table_candidate,
            group_index: self.group_index,
        }
    }
}

/// Information about a collapsed join table.
#[derive(Debug)]
pub struct CollapsedJoinTable {
    /// The ID of the join table that was collapsed.
    pub table_id: String,
    /// The label/name of the join table.
    pub table_label: String,
}

impl Clone for CollapsedJoinTable {
    fn clone(&self) -> (c: Self)
        ensures
            c == *self,
    {
        CollapsedJoinTable { table_id: self.table_id.clone(), table_label: self.table_label.clone() }
    }
}

/// An edge in the layout graph.
#[derive(Debug)]
pub struct LayoutEdge {
    /// Source node stable ID (the referencing side).
    pub from: String,
    /// Target node stable ID (the referenced side).
    pub to: String,
    /// Foreign key name (if any).
    pub name: Option<String>,
    /// Source columns.
    pub from_columns: Vec<String>,
    /// Target columns.
    pub to_columns: Vec<String>,
    /// Edge kind.
    pub kind: EdgeKind,
    /// Whether this edge is a self-loop.
    pub is_self_loop: bool,
    /// Whether the FK columns are nullable.
    pub nullable: bool,
    /// Whether this edge represents a collapsed join table (many-to-many relationship).
    pub is_collapsed_join: bool,
    /// If this is a collapsed join edge, information about the join table.
    pub collapsed_join_table: Option<CollapsedJoinTable>,
}

impl LayoutEdge {
    /// Field-by-field equality, vectors compared by content.
    pub open spec fn same_as(&self, other: &LayoutEdge) -> bool {
        &&& self.from == other.from
        &&& self.to == other.to
        &&& self.name == other.name
        &&& self.from_columns@ == other.from_columns@
        &&& self.to_columns@ == other.to_columns@
        &&& self.kind == other.kind
        &&& self.is_self_loop == other.is_self_loop
        &&& self.nullable == other.nullable
        &&& self.is_collapsed_join == other.is_collapsed_join
        &&& self.collapsed_join_table == other.collapsed_join_table
    }
}

impl Clone for LayoutEdge {
    fn clone(&self) -> (c: Self)
        ensures
            c.same_as(self),
    {
        LayoutEdge {
            from: self.from.clone(),
            to: self.to.clone(),
            name: clone_opt_string(&self.name),
            from_columns: clone_strings(&self.from_columns),
            to_columns: clone_strings(&self.to_columns),
            kind: self.kind,
            is_self_loop: self.is_self_loop,
            nullable: self.nullable,
            is_collapsed_join: self.is_collapsed_join,
            collapsed_join_table: match &self.collapsed_join_table {
                Some(j) => Some(j.clone()),
                None => None,
            },
        }
    }
}

/// A group of nodes for clustered layout.
#[derive(Debug)]
pub struct LayoutGroup {
    /// Group identifier.
    pub id: String,
    /// Group label (schema name, prefix, etc.).
    pub label: String,
    /// Indices of nodes in this group.
    pub node_indices: Vec<usize>,
}


/// The content of a layout column.
pub struct ColumnModel {
    /// Column name.
    pub name: Seq<char>,
    /// Column data type.
    pub data_type: Seq<char>,
    /// Whether the column can be null.
    pub nullable: bool,
    /// Whether this column is part of the primary key.
    pub is_primary_key: bool,
}

/// The content of a layout node.
pub struct NodeModel {
    /// Stable id.
    pub id: Seq<char>,
    /// Qualified name.
    pub label: Seq<char>,
    /// Schema name, if any.
    pub schema_name: Option<Seq<char>>,
    /// Table, view or enum name.
    pub table_name: Seq<char>,
    /// Node kind.
    pub kind: NodeKind,
    /// Columns in order.
    pub columns: Seq<ColumnModel>,
    /// Number of inbound edges.
    pub inbound_count: nat,
    /// Number of outbound edges.
    pub outbound_count: nat,
    /// Whether a self-referential edge starts here.
    pub has_self_loop: bool,
    /// Whether this is likely a join table.
    pub is_join_table_candidate: bool,
    /// Index of the group listing this node, if any.
    pub group_index: Option<usize>,
}

/// The content of a layout edge.
pub struct EdgeModel {
    /// Source node stable id.
    pub from: Seq<char>,
    /// Target node stable id.
    pub to: Seq<char>,
    /// Foreign key name, if any.
    pub name: Option<Seq<char>>,
    /// Source columns.
    pub from_columns: Seq<Seq<char>>,
    /// Target columns.
    pub to_columns: Seq<Seq<char>>,
    /// Edge kind.
    pub kind: EdgeKind,
    /// Whether the edge is a self-loop.
    pub is_self_loop: bool,
    /// Whether the source columns are nullable.
    pub nullable: bool,
    /// Whether the edge stands for a collapsed join table.
    pub is_collapsed_join: bool,
    /// Id and label of the collapsed join table.
    pub collapsed_join_table: Option<(Seq<char>, Seq<char>)>,
}

/// The content of a layout group.
pub struct GroupModel {
    /// Group identifier.
    pub id: Seq<char>,
    /// Group label.
    pub label: Seq<char>,
    /// Indices of the nodes in the group.
    pub node_indices: Seq<usize>,
}

/// The contents of a list of strings.
pub open spec fn strings_model(v: Seq<String>) -> Seq<Seq<char>> {
    v.map_values(|s: String| s@)
}

impl LayoutColumn {
    /// The content of this column.
    pub open spec fn model(&self) -> ColumnModel {
        ColumnModel {
            name: self.name@,
            data_type: self.data_type@,
            nullable: self.nullable,
            is_primary_key: self.is_primary_key,
        }
    }
}

impl LayoutNode {
    /// The content of this node.
    pub open spec fn model(&self) -> NodeModel {
        NodeModel {
            id: self.id@,
            label: self.label@,
            schema_name: match self.schema_name {
                Some(s) => Some(s@),
                None => None,
            },
            table_name: self.table_name@,
            kind: self.kind,
            columns: self.columns@.map_values(|c: LayoutColumn| c.model()),
            inbound_count: self.inbound_count as nat,
            outbound_count: self.outbound_count as nat,
            has_self_loop: self.has_self_loop,
            is_join_table_candidate: self.is_join_table_candidate,
            group_index: self.group_index,
        }
    }
}

impl LayoutEdge {
    /// The content of this edge.
    pub open spec fn model(&self) -> EdgeModel {
        EdgeModel {
            from: self.from@,
            to: self.to@,
            name: match self.name {
                Some(s) => Some(s@),
                None => None,
            },
            from_columns: strings_model(self.from_columns@),
            to_columns: strings_model(self.to_columns@),
            kind: self.kind,
            is_self_loop: self.is_self_loop,
            nullable: self.nullable,
            is_collapsed_join: self.is_collapsed_join,
            collapsed_join_table: match self.collapsed_join_table {
                Some(j) => Some((j.table_id@, j.table_label@)),
                None => None,
            },
        }
    }
}

impl LayoutGroup {
    /// The content of this group.
    pub open spec fn model(&self) -> GroupModel {
        GroupModel { id: self.id@, label: self.label@, node_indices: self.node_indices@ }
    }
}

/// The contents of a list of nodes.
pub open spec fn nodes_model(v: Seq<LayoutNode>) -> Seq<NodeModel> {
    v.map_values(|n: LayoutNode| n.model())
}

/// The contents of a list of edges.
pub open spec fn edges_model(v: Seq<LayoutEdge>) -> Seq<EdgeModel> {
    v.map_values(|e: LayoutEdge| e.model())
}

/// The contents of a list of groups.
pub open spec fn groups_model(v: Seq<LayoutGroup>) -> Seq<GroupModel> {
    v.map_values(|g: LayoutGroup| g.model())
}

/// First value stored under `key` in a list of `(key, value)` entries.
pub open spec fn index_lookup(entries: Seq<(String, usize)>, key: Seq<char>) -> Option<usize>
    decreases entries.len(),
{
    if entries.len() == 0 {
        None
    } else if entries[0].0@ == key {
        Some(entries[0].1)
    } else {
        index_lookup(entries.drop_first(), key)
    }
}

/// A map from node stable IDs to node indices.
#[derive(Debug)]
pub struct NodeIndex {
    /// `(stable id, node index)` entries; lookups return the first match.
    pub entries: Vec<(String, usize)>,
}

impl NodeIndex {
    /// The index stored under `key`, if any.
    pub open spec fn lookup(&self, key: Seq<char>) -> Option<usize> {
        index_lookup(self.entries@, key)
    }

    /// Creates an empty index.
    pub fn new() -> (idx: Self)
        ensures
            forall|k: Seq<char>| idx.lookup(k) is None,
            idx.entries@.len() == 0,
    {
        NodeIndex { entries: Vec::new() }
    }

    /// Looks up the index stored under `key`.
    pub fn get(&self, key: &str) -> (r: Option<usize>)
        ensures
            r == self.lookup(key@),
    {
        let wanted = key.to_owned();
        let mut i: usize = 0;
        proof {
            assert(self.entries@.subrange(0, self.entries@.len() as int) =~= self.entries@);
        }
        while i < self.entries.len()
            invariant
                wanted@ == key@,
                i <= self.entries@.len(),
                self.lookup(key@) == index_lookup(self.entries@.subrange(i as int, self.entries@.len() as int), key@),
            decreases self.entries@.len() - i,
        {
            let ghost rest = self.entries@.subrange(i as int, self.entries@.len() as int);
            proof {
                assert(rest[0] == self.entries@[i as int]);
                assert(rest.drop_first() =~= self.entries@.subrange(i + 1, self.entries@.len() as int));
            }
            if self.entries[i].0 == wanted {
                return Some(self.entries[i].1);
            }
            i = i + 1;
        }
        None
    }

    /// Stores `value` under `key`, replacing an earlier value for that key.
    pub fn insert(&mut self, key: String, value: usize)
        ensures
            forall|k: Seq<char>|
                #![trigger final(self).lookup(k)]
                final(self).lookup(k) == if k == key@ {
                    Some(value)
                } else {
                    old(self).lookup(k)
                },
            forall|j: int|
                0 <= j < final(self).entries@.len() ==> #[trigger] final(self).entries@[j].1 == value
                    || old(self).entries@.contains(final(self).entries@[j]),
    {
        let mut i: usize = 0;
        while i < self.entries.len()
            invariant
                i <= self.entries@.len(),
                self.entries@ == old(self).entries@,
                forall|j: int| 0 <= j < i ==> self.entries@[j].0@ != key@,
            decreases self.entries@.len() - i,
        {
            if self.entries[i].0 == key {
                let ghost before = self.entries@;
                let ghost ks = key;
                self.entries.set(i, (key, value));
                proof {
                    lemma_lookup_after_set(before, i as int, ks, value);
                    assert(self.entries@ == before.update(i as int, (ks, value)));
                    assert forall|j: int| 0 <= j < self.entries@.len() && j != i implies before.contains(
                        #[trigger] self.entries@[j],
                    ) by {
                        assert(before[j] == self.entries@[j]);
                    }
                }
                return;
            }
            i = i + 1;
        }
        let ghost before = self.entries@;
        let ghost ks = key;
        self.entries.push((key, value));
        proof {
            lemma_lookup_after_push(before, ks, value);
            assert forall|j: int| 0 <= j < before.len() implies before.contains(#[trigger] self.entries@[j]) by {
                assert(before[j] == self.entries@[j]);
            }
        }
    }
}

/// A graph suitable for layout algorithms.
#[derive(Debug)]
pub struct LayoutGraph {
    /// All nodes in the graph.
    pub nodes: Vec<LayoutNode>,
    /// All edges in the graph.
    pub edges: Vec<LayoutEdge>,
    /// Groups for clustered layout.
    pub groups: Vec<LayoutGroup>,
    /// Map from node stable ID to node index.
    pub node_index: NodeIndex,
    /// Node stable ID at each node index.
    pub reverse_index: Vec<String>,
}

impl LayoutGraph {
    /// The node index recorded for a stable ID.
    pub open spec fn index_of(&self, id: Seq<char>) -> Option<usize> {
        self.node_index.lookup(id)
    }

    /// Every index recorded in `node_index` designates an existing node.
    pub open spec fn indices_in_range(&self) -> bool {
        forall|j: int|
            0 <= j < self.node_index.entries@.len() ==> #[trigger] self.node_index.entries@[j].1
                < self.nodes@.len()
    }
}

/// An index found by lookup is one of the stored values.
pub proof fn lemma_lookup_is_stored(entries: Seq<(String, usize)>, key: Seq<char>)
    ensures
        index_lookup(entries, key) matches Some(v) ==> exists|j: int|
            0 <= j < entries.len() && #[trigger] entries[j].1 == v && entries[j].0@ == key,
    decreases entries.len(),
{
    if entries.len() > 0 && entries[0].0@ != key {
        lemma_lookup_is_stored(entries.drop_first(), key);
        if index_lookup(entries, key) is Some {
            let v = index_lookup(entries, key)->0;
            let j = choose|j: int|
                0 <= j < entries.drop_first().len() && #[trigger] entries.drop_first()[j].1 == v
                    && entries.drop_first()[j].0@ == key;
            assert(entries[j + 1] == entries.drop_first()[j]);
        }
    }
}

/// In a graph whose index is in range, every looked-up index is a node index.
pub proof fn lemma_index_of_in_range(graph: &LayoutGraph, key: Seq<char>)
    requires
        graph.indices_in_range(),
    ensures
        graph.index_of(key) matches Some(v) ==> v < graph.nodes@.len(),
{
    lemma_lookup_is_stored(graph.node_index.entries@, key);
}

proof fn lemma_lookup_after_set(
    entries: Seq<(String, usize)>,
    i: int,
    s: String,
    value: usize,
)
    requires
        0 <= i < entries.len(),
        entries[i].0@ == s@,
        forall|j: int| 0 <= j < i ==> entries[j].0@ != s@,
    ensures
        forall|k: Seq<char>|
            #![trigger index_lookup(entries.update(i, (s, value)), k)]
            index_lookup(entries.update(i, (s, value)), k) == if k == s@ {
                Some(value)
            } else {
                index_lookup(entries, k)
            },
    decreases i,
{
    let upd = entries.update(i, (s, value));
    assert forall|k: Seq<char>| #[trigger] index_lookup(upd, k) == if k == s@ {
        Some(value)
    } else {
        index_lookup(entries, k)
    } by {
        if i > 0 {
            lemma_lookup_after_set(entries.drop_first(), i - 1, s, value);
            assert(upd.drop_first() =~= entries.drop_first().update(i - 1, (s, value)));
            assert(upd[0] == entries[0]);
            assert(index_lookup(entries.drop_first().update(i - 1, (s, value)), k) == if k == s@ {
                Some(value)
            } else {
                index_lookup(entries.drop_first(), k)
            });
        } else {
            assert(upd.drop_first() =~= entries.drop_first());
        }
    }
}

proof fn lemma_lookup_after_push(entries: Seq<(String, usize)>, s: String, value: usize)
    requires
        forall|j: int| 0 <= j < entries.len() ==> entries[j].0@ != s@,
    ensures
        forall|k: Seq<char>|
            #![trigger index_lookup(entries.push((s, value)), k)]
            index_lookup(entries.push((s, value)), k) == if k == s@ {
                Some(value)
            } else {
                index_lookup(entries, k)
            },
    decreases entries.len(),
{
    let pushed = entries.push((s, value));
    assert forall|k: Seq<char>| #[trigger] index_lookup(pushed, k) == if k == s@ {
        Some(value)
    } else {
        index_lookup(entries, k)
    } by {
        if entries.len() > 0 {
            lemma_lookup_after_push(entries.drop_first(), s, value);
            assert(pushed.drop_first() =~= entries.drop_first().push((s, value)));
            assert(pushed[0] == entries[0]);
            assert(entries[0].0@ != s@);
            assert(index_lookup(entries.drop_first().push((s, value)), k) == if k == s@ {
                Some(value)
            } else {
                index_lookup(entries.drop_first(), k)
            });
        } else {
            assert(pushed.drop_first() =~= Seq::<(String, usize)>::empty());
            assert(pushed[0] == (s, value));
            assert(index_lookup(pushed.drop_first(), k) is None);
            assert(index_lookup(entries, k) is None);
        }
    }
}

} // verus!
