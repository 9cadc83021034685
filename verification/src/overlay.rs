//! Overlay annotations for positioned graph elements.
//!
//! Overlays attach visual annotations (lint warnings, diff status, ...) to
//! nodes and edges without modifying the positioned graph types. Renderers
//! consume overlays optionally; with no overlay the diagram renders normally.
//!
//! Node overlays are keyed by stable node ID and edge overlays by an explicit
//! `(from, to)` pair, so identifiers that themselves contain `->` never
//! collide. Both key sets hold each key at most once, in key order.

use vstd::prelude::*;
use crate::graph::clone_opt_string;
use crate::text::{
    chars_of, lemma_text_less_irreflexive, lemma_text_less_total, lemma_text_less_transitive, sorted_texts, text_less,
    text_less_exec,
};

verus! {

/// Severity level for an overlay annotation, from least to most severe.
#[derive(Debug, Clone, Copy, PartialEq, Eq, Structural, Hash)]
pub enum OverlaySeverity {
    /// Lowest visual weight: informational hint.
    Hint,
    /// Informational annotation.
    Info,
    /// Something that likely deserves attention.
    Warning,
    /// A definite problem.
    Error,
}

/// Numeric weight of a severity (higher is more severe).
pub open spec fn severity_weight(s: OverlaySeverity) -> nat {
    match s {
        OverlaySeverity::Hint => 0,
        OverlaySeverity::Info => 1,
        OverlaySeverity::Warning => 2,
        OverlaySeverity::Error => 3,
    }
}

/// Returns a numeric rank for severity ordering (higher = more severe).
pub fn severity_rank(s: OverlaySeverity) -> (r: u8)
    ensures
        r == severity_weight(s),
{
    match s {
        OverlaySeverity::Hint => 0,
        OverlaySeverity::Info => 1,
        OverlaySeverity::Warning => 2,
        OverlaySeverity::Error => 3,
    }
}

/// A single annotation attached to a node or edge.
#[derive(Debug)]
pub struct Annotation {
    /// Visual severity level.
    pub severity: OverlaySeverity,
    /// Short description shown in tooltips / badges.
    pub message: String,
    /// Optional hint for how to resolve the issue.
    pub hint: Option<String>,
    /// Optional identifier of the rule that produced this annotation.
    pub rule_id: Option<String>,
}

impl Clone for Annotation {
    fn clone(&self) -> (c: Self)
        ensures
            c == *self,
    {
        Annotation {
            severity: self.severity,
            message: self.message.clone(),
            hint: clone_opt_string(&self.hint),
            rule_id: clone_opt_string(&self.rule_id),
        }
    }
}

/// The highest severity among `annotations`: `None` for an empty list,
/// otherwise a severity that occurs in the list and that no other entry
/// exceeds.
pub open spec fn is_max_severity(annotations: Seq<Annotation>, r: Option<OverlaySeverity>) -> bool {
    match r {
        None => annotations.len() == 0,
        Some(s) => {
            &&& exists|i: int| 0 <= i < annotations.len() && #[trigger] annotations[i].severity == s
            &&& forall|i: int|
                0 <= i < annotations.len() ==> severity_weight(#[trigger] annotations[i].severity)
                    <= severity_weight(s)
        },
    }
}

/// Severities rank from least to most severe: a hint below information,
/// information below a warning, a warning below an error.
pub proof fn lemma_severity_ranks_increase()
    ensures
        severity_weight(OverlaySeverity::Hint) < severity_weight(OverlaySeverity::Info),
        severity_weight(OverlaySeverity::Info) < severity_weight(OverlaySeverity::Warning),
        severity_weight(OverlaySeverity::Warning) < severity_weight(OverlaySeverity::Error),
{
}

/// The highest severity of a list is its most severe entry: an error as soon
/// as one entry is an error, a warning when there is a warning and no error,
/// information when the worst entry is information, and a hint only when
/// every entry is a hint.
pub proof fn lemma_max_severity_is_most_severe(annotations: Seq<Annotation>, r: Option<OverlaySeverity>)
    requires
        is_max_severity(annotations, r),
    ensures
        (r is None) <==> annotations.len() == 0,
        (exists|i: int| 0 <= i < annotations.len() && #[trigger] annotations[i].severity == OverlaySeverity::Error)
            ==> r == Some(OverlaySeverity::Error),
        r == Some(OverlaySeverity::Warning) <==> ((exists|i: int|
            0 <= i < annotations.len() && #[trigger] annotations[i].severity == OverlaySeverity::Warning)
            && forall|i: int| 0 <= i < annotations.len() ==> #[trigger] annotations[i].severity != OverlaySeverity::Error),
        r == Some(OverlaySeverity::Info) <==> ((exists|i: int|
            0 <= i < annotations.len() && #[trigger] annotations[i].severity == OverlaySeverity::Info)
            && forall|i: int|
            0 <= i < annotations.len() ==> (#[trigger] annotations[i].severity == OverlaySeverity::Hint
                || annotations[i].severity == OverlaySeverity::Info)),
        r == Some(OverlaySeverity::Hint) <==> (annotations.len() > 0 && forall|i: int|
            0 <= i < annotations.len() ==> #[trigger] annotations[i].severity == OverlaySeverity::Hint),
{
    if annotations.len() > 0 {
        assert(annotations[0].severity == annotations[0].severity);
    }
}

/// Highest severity of a list of annotations.
fn max_severity_of(annotations: &Vec<Annotation>) -> (r: Option<OverlaySeverity>)
    ensures
        is_max_severity(annotations@, r),
{
    let mut best: Option<OverlaySeverity> = None;
    for i in 0..annotations.len()
        invariant
            is_max_severity(annotations@.subrange(0, i as int), best),
    {
        let s = annotations[i].severity;
        let ghost prefix = annotations@.subrange(0, i + 1);
        proof {
            assert(prefix[i as int] == annotations@[i as int]);
            assert forall|k: int| 0 <= k < i implies #[trigger] prefix[k] == annotations@.subrange(0, i as int)[k] by {}
        }
        let take = match best {
            None => true,
            Some(b) => severity_rank(s) >= severity_rank(b),
        };
        if take {
            best = Some(s);
        }
        proof {
            match best {
                None => {},
                Some(b) => {
                    if take {
                        assert(prefix[i as int].severity == b);
                    } else {
                        let old_prefix = annotations@.subrange(0, i as int);
                        let j = choose|j: int| 0 <= j < old_prefix.len() && #[trigger] old_prefix[j].severity == b;
                        assert(prefix[j].severity == b);
                    }
                },
            }
        }
    }
    proof {
        assert(annotations@.subrange(0, annotations@.len() as int) =~= annotations@);
    }
    best
}

/// Overlay data for a single node.
#[derive(Debug)]
pub struct NodeOverlay {
    /// Annotations on this node.
    pub annotations: Vec<Annotation>,
}

impl Default for NodeOverlay {
    fn default() -> (o: Self)
        ensures
            o.annotations@.len() == 0,
    {
        NodeOverlay { annotations: Vec::new() }
    }
}

impl NodeOverlay {
    /// Returns the highest severity among all annotations, if any.
    pub fn max_severity(&self) -> (r: Option<OverlaySeverity>)
        ensures
            is_max_severity(self.annotations@, r),
    {
        max_severity_of(&self.annotations)
    }
}

/// Overlay data for a single edge.
#[derive(Debug)]
pub struct EdgeOverlay {
    /// Annotations on this edge.
    pub annotations: Vec<Annotation>,
}

impl Default for EdgeOverlay {
    fn default() -> (o: Self)
        ensures
            o.annotations@.len() == 0,
    {
        EdgeOverlay { annotations: Vec::new() }
    }
}

impl EdgeOverlay {
    /// Returns the highest severity among all annotations, if any.
    pub fn max_severity(&self) -> (r: Option<OverlaySeverity>)
        ensures
            is_max_severity(self.annotations@, r),
    {
        max_severity_of(&self.annotations)
    }
}

/// Key identifying an edge overlay: an explicit `(from, to)` pair.
#[derive(Debug)]
pub struct EdgeKey {
    /// Source node stable ID.
    pub from: String,
    /// Destination node stable ID.
    pub to: String,
}

impl EdgeKey {
    /// The pair of identifiers this key stands for.
    pub open spec fn pair(&self) -> (Seq<char>, Seq<char>) {
        (self.from@, self.to@)
    }

    /// Build an edge key from its two endpoint identifiers.
    pub fn new(from: &str, to: &str) -> (k: Self)
        ensures
            k.from@ == from@,
            k.to@ == to@,
    {
        EdgeKey { from: from.to_owned(), to: to.to_owned() }
    }
}

impl Clone for EdgeKey {
    fn clone(&self) -> (c: Self)
        ensures
            c == *self,
    {
        EdgeKey { from: self.from.clone(), to: self.to.clone() }
    }
}

/// Annotations stored under a node ID in a list of node entries (first match).
pub open spec fn node_entry_lookup(entries: Seq<(String, NodeOverlay)>, id: Seq<char>) -> Option<Seq<Annotation>>
    decreases entries.len(),
{
    if entries.len() == 0 {
        None
    } else if entries[0].0@ == id {
        Some(entries[0].1.annotations@)
    } else {
        node_entry_lookup(entries.drop_first(), id)
    }
}

/// Annotations stored under an edge pair in a list of edge entries (first match).
pub open spec fn edge_entry_lookup(
    entries: Seq<(EdgeKey, EdgeOverlay)>,
    pair: (Seq<char>, Seq<char>),
) -> Option<Seq<Annotation>>
    decreases entries.len(),
{
    if entries.len() == 0 {
        None
    } else if entries[0].0.pair() == pair {
        Some(entries[0].1.annotations@)
    } else {
        edge_entry_lookup(entries.drop_first(), pair)
    }
}

/// Position of the first node entry stored under `id`.
pub open spec fn node_entry_position(entries: Seq<(String, NodeOverlay)>, id: Seq<char>, i: int) -> bool {
    &&& 0 <= i < entries.len()
    &&& entries[i].0@ == id
    &&& forall|j: int| 0 <= j < i ==> (#[trigger] entries[j]).0@ != id
}

/// Position of the first edge entry stored under `pair`.
pub open spec fn edge_entry_position(
    entries: Seq<(EdgeKey, EdgeOverlay)>,
    pair: (Seq<char>, Seq<char>),
    i: int,
) -> bool {
    &&& 0 <= i < entries.len()
    &&& entries[i].0.pair() == pair
    &&& forall|j: int| 0 <= j < i ==> (#[trigger] entries[j]).0.pair() != pair
}

/// Collection of all overlay annotations for a diagram.
///
/// Node entries are keyed by stable node ID, edge entries by `(from, to)`;
/// the operations below keep both lists in increasing key order.
#[derive(Debug)]
pub struct DiagramOverlay {
    /// Per-node overlays, keyed by stable node ID.
    pub nodes: Vec<(String, NodeOverlay)>,
    /// Per-edge overlays, keyed by an explicit `(from, to)` pair.
    pub edges: Vec<(EdgeKey, EdgeOverlay)>,
}

/// Whether an edge key comes before `(from, to)` in key order.
fn edge_key_before(key: &EdgeKey, from: &Vec<char>, to: &Vec<char>) -> (r: bool)
    ensures
        r == pair_less(key.pair(), (from@, to@)),
{
    let kf = chars_of(key.from.as_str());
    if text_less_exec(&kf, from) {
        return true;
    }
    if text_less_exec(from, &kf) {
        proof {
            lemma_text_less_irreflexive(from@);
            if kf@ == from@ {
                assert(false);
            }
        }
        return false;
    }
    proof {
        lemma_text_less_total(kf@, from@);
    }
    let kt = chars_of(key.to.as_str());
    text_less_exec(&kt, to)
}

impl Default for DiagramOverlay {
    fn default() -> (o: Self)
        ensures
            o.nodes@.len() == 0,
            o.edges@.len() == 0,
            o.keys_sorted(),
    {
        DiagramOverlay { nodes: Vec::new(), edges: Vec::new() }
    }
}

impl DiagramOverlay {
    /// Annotations recorded for node `id`, if it has an entry.
    pub open spec fn node_annotations(&self, id: Seq<char>) -> Option<Seq<Annotation>> {
        node_entry_lookup(self.nodes@, id)
    }

    /// Annotations recorded for the edge `pair`, if it has an entry.
    pub open spec fn edge_annotations(&self, pair: (Seq<char>, Seq<char>)) -> Option<Seq<Annotation>> {
        edge_entry_lookup(self.edges@, pair)
    }

    /// No key occurs twice among the node entries, nor among the edge entries.
    pub open spec fn keys_unique(&self) -> bool {
        &&& forall|i: int, j: int|
            0 <= i < j < self.nodes@.len() ==> (#[trigger] self.nodes@[i]).0@ != (#[trigger] self.nodes@[j]).0@
        &&& forall|i: int, j: int|
            0 <= i < j < self.edges@.len() ==> (#[trigger] self.edges@[i]).0.pair() != (#[trigger] self.edges@[j]).0.pair()
    }

    /// Node entries in increasing ID order, edge entries in increasing
    /// `(from, to)` order, as the original's ordered maps keep them.
    pub open spec fn keys_sorted(&self) -> bool {
        &&& sorted_texts(node_keys(self.nodes@))
        &&& sorted_pairs_text(edge_keys(self.edges@))
    }

    /// Creates an empty overlay.
    pub fn new() -> (o: Self)
        ensures
            o.nodes@.len() == 0,
            o.edges@.len() == 0,
            o.keys_unique(),
            o.keys_sorted(),
            forall|id: Seq<char>| #[trigger] o.node_annotations(id) is None,
            forall|pair: (Seq<char>, Seq<char>)| #[trigger] o.edge_annotations(pair) is None,
    {
        DiagramOverlay { nodes: Vec::new(), edges: Vec::new() }
    }

    /// No node entry and no edge entry holds an annotation.
    pub open spec fn holds_no_annotation(&self) -> bool {
        &&& forall|i: int| 0 <= i < self.nodes@.len() ==> (#[trigger] self.nodes@[i]).1.annotations@.len() == 0
        &&& forall|i: int| 0 <= i < self.edges@.len() ==> (#[trigger] self.edges@[i]).1.annotations@.len() == 0
    }

    /// Returns `true` if this overlay contains no annotations at all.
    pub fn is_empty(&self) -> (r: bool)
        ensures
            r == self.holds_no_annotation(),
    {
        let mut i: usize = 0;
        while i < self.nodes.len()
            invariant
                i <= self.nodes@.len(),
                forall|j: int| 0 <= j < i ==> (#[trigger] self.nodes@[j]).1.annotations@.len() == 0,
            decreases self.nodes@.len() - i,
        {
            if self.nodes[i].1.annotations.len() > 0 {
                return false;
            }
            i = i + 1;
        }
        let mut k: usize = 0;
        while k < self.edges.len()
            invariant
                k <= self.edges@.len(),
                forall|j: int| 0 <= j < self.nodes@.len() ==> (#[trigger] self.nodes@[j]).1.annotations@.len() == 0,
                forall|j: int| 0 <= j < k ==> (#[trigger] self.edges@[j]).1.annotations@.len() == 0,
            decreases self.edges@.len() - k,
        {
            if self.edges[k].1.annotations.len() > 0 {
                return false;
            }
            k = k + 1;
        }
        true
    }

    /// Position of the first node entry for `id`.
    fn find_node(&self, id: &str) -> (r: Option<usize>)
        ensures
            match r {
                Some(i) => node_entry_position(self.nodes@, id@, i as int),
                None => forall|j: int| 0 <= j < self.nodes@.len() ==> (#[trigger] self.nodes@[j]).0@ != id@,
            },
    {
        let wanted = id.to_owned();
        let mut i: usize = 0;
        while i < self.nodes.len()
            invariant
                wanted@ == id@,
                i <= self.nodes@.len(),
                forall|j: int| 0 <= j < i ==> (#[trigger] self.nodes@[j]).0@ != id@,
            decreases self.nodes@.len() - i,
        {
            if self.nodes[i].0 == wanted {
                return Some(i);
            }
            i = i + 1;
        }
        None
    }

    /// Position of the first edge entry for `(from, to)`.
    fn find_edge(&self, from: &str, to: &str) -> (r: Option<usize>)
        ensures
            match r {
                Some(i) => edge_entry_position(self.edges@, (from@, to@), i as int),
                None => forall|j: int|
                    0 <= j < self.edges@.len() ==> (#[trigger] self.edges@[j]).0.pair() != (from@, to@),
            },
    {
        let wanted_from = from.to_owned();
        let wanted_to = to.to_owned();
        let mut i: usize = 0;
        while i < self.edges.len()
            invariant
                wanted_from@ == from@,
                wanted_to@ == to@,
                i <= self.edges@.len(),
                forall|j: int| 0 <= j < i ==> (#[trigger] self.edges@[j]).0.pair() != (from@, to@),
            decreases self.edges@.len() - i,
        {
            if self.edges[i].0.from == wanted_from && self.edges[i].0.to == wanted_to {
                return Some(i);
            }
            i = i + 1;
        }
        None
    }

    /// Look up the overlay for a specific node.
    pub fn node(&self, id: &str) -> (r: Option<&NodeOverlay>)
        ensures
            match r {
                Some(o) => self.node_annotations(id@) == Some(o.annotations@),
                None => self.node_annotations(id@) is None,
            },
    {
        let found = self.find_node(id);
        proof {
            lemma_node_lookup_position(self.nodes@, id@, found);
        }
        match found {
            Some(i) => Some(&self.nodes[i].1),
            None => None,
        }
    }

    /// Look up the overlay for a specific edge.
    pub fn edge(&self, from: &str, to: &str) -> (r: Option<&EdgeOverlay>)
        ensures
            match r {
                Some(o) => self.edge_annotations((from@, to@)) == Some(o.annotations@),
                None => self.edge_annotations((from@, to@)) is None,
            },
    {
        let found = self.find_edge(from, to);
        proof {
            lemma_edge_lookup_position(self.edges@, (from@, to@), found);
        }
        match found {
            Some(i) => Some(&self.edges[i].1),
            None => None,
        }
    }

    /// Add an annotation to a node, creating the entry if needed.
    pub fn add_node_annotation(&mut self, node_id: &str, annotation: Annotation)
        ensures
            forall|id: Seq<char>|
                #![trigger final(self).node_annotations(id)]
                final(self).node_annotations(id) == if id == node_id@ {
                    Some(
                        match old(self).node_annotations(id) {
                            Some(a) => a,
                            None => Seq::empty(),
                        }.push(annotation),
                    )
                } else {
                    old(self).node_annotations(id)
                },
            final(self).nodes@.len() == old(self).nodes@.len() + if old(self).node_annotations(node_id@) is None {
                1int
            } else {
                0int
            },
            final(self).edges@ == old(self).edges@,
            old(self).keys_unique() ==> final(self).keys_unique(),
            old(self).keys_sorted() ==> final(self).keys_sorted(),
    {
        let found = self.find_node(node_id);
        proof {
            lemma_node_lookup_position(self.nodes@, node_id@, found);
        }
        let ghost before = self.nodes@;
        match found {
            Some(i) => {
                let mut entry = self.nodes.remove(i);
                entry.1.annotations.push(annotation);
                let ghost updated = entry;
                self.nodes.insert(i, entry);
                proof {
                    assert(self.nodes@ =~= before.update(i as int, updated));
                    lemma_node_lookup_update(before, node_id@, i as int, updated);
                    assert(node_keys(self.nodes@) =~= node_keys(before));
                    assert forall|a: int, b: int| 0 <= a < b < self.nodes@.len() implies (#[trigger] self.nodes@[a]).0@
                        != (#[trigger] self.nodes@[b]).0@ || !old(self).keys_unique() by {
                        assert(before[a].0@ == self.nodes@[a].0@);
                        assert(before[b].0@ == self.nodes@[b].0@);
                    }
                }
            },
            None => {
                let mut overlay = NodeOverlay::default();
                overlay.annotations.push(annotation);
                let key = chars_of(node_id);
                let mut p: usize = 0;
                while p < self.nodes.len() && text_less_exec(&chars_of(self.nodes[p].0.as_str()), &key)
                    invariant
                        self.nodes@ == before,
                        key@ == node_id@,
                        p <= before.len(),
                        forall|i: int| 0 <= i < p ==> text_less(#[trigger] before[i].0@, node_id@),
                    decreases before.len() - p,
                {
                    p = p + 1;
                }
                let entry = (node_id.to_owned(), overlay);
                let ghost e = entry;
                self.nodes.insert(p, entry);
                proof {
                    lemma_node_lookup_insert(before, node_id@, p as int, e);
                    assert(self.nodes@ == before.insert(p as int, e));
                    let keys = node_keys(before);
                    assert(node_keys(self.nodes@) =~= keys.insert(p as int, node_id@));
                    if old(self).keys_sorted() {
                        assert forall|i: int| 0 <= i < p implies text_less(#[trigger] keys[i], node_id@) by {
                            assert(keys[i] == before[i].0@);
                        }
                        assert(!keys.contains(node_id@)) by {
                            if keys.contains(node_id@) {
                                let j = choose|j: int| 0 <= j < keys.len() && keys[j] == node_id@;
                                assert(before[j].0@ == node_id@);
                            }
                        }
                        lemma_insert_sorted_texts(keys, node_id@, p as int);
                    }
                    assert forall|a: int, b: int| 0 <= a < b < self.nodes@.len() implies (#[trigger] self.nodes@[a]).0@
                        != (#[trigger] self.nodes@[b]).0@ || !old(self).keys_unique() by {
                        if a < p && b > p {
                            assert(self.nodes@[b] == before[b - 1]);
                        } else if a > p {
                            assert(self.nodes@[a] == before[a - 1] && self.nodes@[b] == before[b - 1]);
                        } else if b == p {
                            assert(self.nodes@[a] == before[a]);
                        } else if a == p {
                            assert(self.nodes@[b] == before[b - 1]);
                        }
                    }
                }
            },
        }
    }

    /// Add an annotation to an edge, creating the entry if needed.
    pub fn add_edge_annotation(&mut self, from_id: &str, to_id: &str, annotation: Annotation)
        ensures
            forall|pair: (Seq<char>, Seq<char>)|
                #![trigger final(self).edge_annotations(pair)]
                final(self).edge_annotations(pair) == if pair == (from_id@, to_id@) {
                    Some(
                        match old(self).edge_annotations(pair) {
                            Some(a) => a,
                            None => Seq::empty(),
                        }.push(annotation),
                    )
                } else {
                    old(self).edge_annotations(pair)
                },
            final(self).edges@.len() == old(self).edges@.len() + if old(self).edge_annotations(
                (from_id@, to_id@),
            ) is None {
                1int
            } else {
                0int
            },
            final(self).nodes@ == old(self).nodes@,
            old(self).keys_unique() ==> final(self).keys_unique(),
            old(self).keys_sorted() ==> final(self).keys_sorted(),
    {
        let found = self.find_edge(from_id, to_id);
        proof {
            lemma_edge_lookup_position(self.edges@, (from_id@, to_id@), found);
        }
        let ghost before = self.edges@;
        match found {
            Some(i) => {
                let mut entry = self.edges.remove(i);
                entry.1.annotations.push(annotation);
                let ghost updated = entry;
                self.edges.insert(i, entry);
                proof {
                    assert(self.edges@ =~= before.update(i as int, updated));
                    lemma_edge_lookup_update(before, (from_id@, to_id@), i as int, updated);
                    assert(edge_keys(self.edges@) =~= edge_keys(before));
                    assert forall|a: int, b: int| 0 <= a < b < self.edges@.len() implies (#[trigger] self.edges@[a]).0.pair()
                        != (#[trigger] self.edges@[b]).0.pair() || !old(self).keys_unique() by {
                        assert(before[a].0.pair() == self.edges@[a].0.pair());
                        assert(before[b].0.pair() == self.edges@[b].0.pair());
                    }
                }
            },
            None => {
                let mut overlay = EdgeOverlay::default();
                overlay.annotations.push(annotation);
                let from_key = chars_of(from_id);
                let to_key = chars_of(to_id);
                let ghost pair = (from_id@, to_id@);
                let mut p: usize = 0;
                while p < self.edges.len() && edge_key_before(&self.edges[p].0, &from_key, &to_key)
                    invariant
                        self.edges@ == before,
                        from_key@ == from_id@,
                        to_key@ == to_id@,
                        pair == (from_id@, to_id@),
                        p <= before.len(),
                        forall|i: int| 0 <= i < p ==> pair_less(#[trigger] before[i].0.pair(), pair),
                    decreases before.len() - p,
                {
                    p = p + 1;
                }
                let entry = (EdgeKey::new(from_id, to_id), overlay);
                let ghost e = entry;
                self.edges.insert(p, entry);
                proof {
                    lemma_edge_lookup_insert(before, pair, p as int, e);
                    assert(self.edges@ == before.insert(p as int, e));
                    let keys = edge_keys(before);
                    assert(edge_keys(self.edges@) =~= keys.insert(p as int, pair));
                    if old(self).keys_sorted() {
                        assert forall|i: int| 0 <= i < p implies pair_less(#[trigger] keys[i], pair) by {
                            assert(keys[i] == before[i].0.pair());
                        }
                        assert(!keys.contains(pair)) by {
                            if keys.contains(pair) {
                                let j = choose|j: int| 0 <= j < keys.len() && keys[j] == pair;
                                assert(before[j].0.pair() == pair);
                            }
                        }
                        lemma_insert_sorted_pairs(keys, pair, p as int);
                    }
                    assert forall|a: int, b: int| 0 <= a < b < self.edges@.len() implies (#[trigger] self.edges@[a]).0.pair()
                        != (#[trigger] self.edges@[b]).0.pair() || !old(self).keys_unique() by {
                        if a < p && b > p {
                            assert(self.edges@[b] == before[b - 1]);
                        } else if a > p {
                            assert(self.edges@[a] == before[a - 1] && self.edges@[b] == before[b - 1]);
                        } else if b == p {
                            assert(self.edges@[a] == before[a]);
                        } else if a == p {
                            assert(self.edges@[b] == before[b - 1]);
                        }
                    }
                }
            },
        }
    }
}

/// Clones a list of annotations, one by one.
fn clone_annotations(annotations: &Vec<Annotation>) -> (out: Vec<Annotation>)
    ensures
        out@ == annotations@,
{
    let mut out: Vec<Annotation> = Vec::new();
    for i in 0..annotations.len()
        invariant
            out@ == annotations@.subrange(0, i as int),
    {
        out.push(annotations[i].clone());
        proof {
            assert(out@ =~= annotations@.subrange(0, i + 1));
        }
    }
    proof {
        assert(out@ =~= annotations@);
    }
    out
}

impl Clone for NodeOverlay {
    fn clone(&self) -> (c: Self)
        ensures
            c.annotations@ == self.annotations@,
    {
        NodeOverlay { annotations: clone_annotations(&self.annotations) }
    }
}

impl Clone for EdgeOverlay {
    fn clone(&self) -> (c: Self)
        ensures
            c.annotations@ == self.annotations@,
    {
        EdgeOverlay { annotations: clone_annotations(&self.annotations) }
    }
}

/// One serialized edge overlay: the two endpoint IDs and the overlay.
#[derive(Debug)]
pub struct EdgeEntry {
    /// Source node stable ID.
    pub from: String,
    /// Destination node stable ID.
    pub to: String,
    /// The overlay of that edge.
    pub overlay: EdgeOverlay,
}

/// The `(from, to)` pair of a serialized edge entry.
pub open spec fn entry_pair(e: EdgeEntry) -> (Seq<char>, Seq<char>) {
    (e.from@, e.to@)
}

/// No two of the first `n` entries share a `(from, to)` pair.
pub open spec fn entry_pairs_distinct(entries: Seq<EdgeEntry>, n: int) -> bool {
    forall|a: int, b: int| 0 <= a < b < n ==> entry_pair(#[trigger] entries[a]) != entry_pair(#[trigger] entries[b])
}

/// Edge entry `x` holds what serialized entry `e` holds.
pub open spec fn entry_matches(x: (EdgeKey, EdgeOverlay), e: EdgeEntry) -> bool {
    x.0.pair() == entry_pair(e) && x.1.annotations@ == e.overlay.annotations@
}

/// No edge key comes before itself.
proof fn lemma_pair_less_irreflexive(a: (Seq<char>, Seq<char>))
    ensures
        !pair_less(a, a),
{
    lemma_text_less_irreflexive(a.0);
    lemma_text_less_irreflexive(a.1);
}

/// Every entry of `edges` holds one of the first `j` serialized entries.
pub open spec fn entries_held(edges: Seq<(EdgeKey, EdgeOverlay)>, entries: Seq<EdgeEntry>, j: int) -> bool {
    forall|i: int| 0 <= i < edges.len() ==> exists|t: int| 0 <= t < j && entry_matches(#[trigger] edges[i], entries[t])
}

/// Each of the first `j` serialized entries is held by an entry of `edges`.
pub open spec fn entries_covered(edges: Seq<(EdgeKey, EdgeOverlay)>, entries: Seq<EdgeEntry>, j: int) -> bool {
    forall|t: int| 0 <= t < j ==> exists|i: int| 0 <= i < edges.len() && entry_matches(edges[i], #[trigger] entries[t])
}

/// The new key is none of the keys already placed.
proof fn lemma_step_key_new(before: Seq<(EdgeKey, EdgeOverlay)>, pair: (Seq<char>, Seq<char>), p: int)
    requires
        sorted_pairs_text(edge_keys(before)),
        0 <= p <= before.len(),
        forall|i: int| 0 <= i < p ==> pair_less(#[trigger] before[i].0.pair(), pair),
        p < before.len() ==> !pair_less(before[p].0.pair(), pair),
        p < before.len() ==> before[p].0.pair() != pair,
    ensures
        !edge_keys(before).contains(pair),
        sorted_pairs_text(edge_keys(before).insert(p, pair)),
{
    let keys = edge_keys(before);
    assert forall|i: int| 0 <= i < p implies pair_less(#[trigger] keys[i], pair) by {
        assert(keys[i] == before[i].0.pair());
    }
    if keys.contains(pair) {
        let q = choose|q: int| 0 <= q < keys.len() && keys[q] == pair;
        assert(keys[q] == before[q].0.pair());
        if q < p {
            lemma_pair_less_irreflexive(pair);
        } else if q > p {
            assert(keys[p] == before[p].0.pair());
            lemma_pair_less_total(keys[p], pair);
            lemma_pair_less_transitive(pair, keys[p], keys[q]);
            lemma_pair_less_irreflexive(pair);
        }
    }
    lemma_insert_sorted_pairs(keys, pair, p);
}

/// The new entry differs from the earlier ones.
proof fn lemma_step_distinct(before: Seq<(EdgeKey, EdgeOverlay)>, entries: Seq<EdgeEntry>, j: int)
    requires
        0 <= j < entries.len(),
        entry_pairs_distinct(entries, j),
        entries_covered(before, entries, j),
        !edge_keys(before).contains(entry_pair(entries[j])),
    ensures
        entry_pairs_distinct(entries, j + 1),
{
    assert forall|a: int| 0 <= a < j implies entry_pair(#[trigger] entries[a]) != entry_pair(entries[j]) by {
        let i = choose|i: int| 0 <= i < before.len() && entry_matches(before[i], entries[a]);
        assert(edge_keys(before)[i] == entry_pair(entries[a]));
    }
    assert forall|a: int, b: int| 0 <= a < b < j + 1 implies entry_pair(#[trigger] entries[a])
        != entry_pair(#[trigger] entries[b]) by {
        if b == j {
            assert(entry_pair(entries[a]) != entry_pair(entries[j]));
        }
    }
}

/// Inserting the new entry keeps every entry held.
proof fn lemma_step_held(
    before: Seq<(EdgeKey, EdgeOverlay)>,
    entries: Seq<EdgeEntry>,
    j: int,
    p: int,
    x: (EdgeKey, EdgeOverlay),
)
    requires
        0 <= j < entries.len(),
        entries_held(before, entries, j),
        0 <= p <= before.len(),
        entry_matches(x, entries[j]),
    ensures
        entries_held(before.insert(p, x), entries, j + 1),
{
    let after = before.insert(p, x);
    assert forall|i: int| 0 <= i < after.len() implies exists|t: int|
        0 <= t < j + 1 && entry_matches(#[trigger] after[i], entries[t]) by {
        if i < p {
            assert(after[i] == before[i]);
            let t = choose|t: int| 0 <= t < j && entry_matches(before[i], entries[t]);
        } else if i > p {
            assert(after[i] == before[i - 1]);
            let t = choose|t: int| 0 <= t < j && entry_matches(before[i - 1], entries[t]);
        } else {
            assert(after[i] == x);
        }
    }
}

/// Inserting the new entry keeps every serialized entry covered.
proof fn lemma_step_covered(
    before: Seq<(EdgeKey, EdgeOverlay)>,
    entries: Seq<EdgeEntry>,
    j: int,
    p: int,
    x: (EdgeKey, EdgeOverlay),
)
    requires
        0 <= j < entries.len(),
        entries_covered(before, entries, j),
        0 <= p <= before.len(),
        entry_matches(x, entries[j]),
    ensures
        entries_covered(before.insert(p, x), entries, j + 1),
{
    let after = before.insert(p, x);
    assert forall|t: int| 0 <= t < j + 1 implies exists|i: int|
        0 <= i < after.len() && entry_matches(after[i], #[trigger] entries[t]) by {
        if t < j {
            let i = choose|i: int| 0 <= i < before.len() && entry_matches(before[i], entries[t]);
            if i < p {
                assert(after[i] == before[i]);
            } else {
                assert(after[i + 1] == before[i]);
            }
        } else {
            assert(after[p] == x);
        }
    }
}

impl DiagramOverlay {
    /// Builds the edge overlays from a list of serialized entries, in key
    /// order. The first entry whose `(from, to)` pair repeats an earlier one
    /// is rejected: its key is returned as the error.
    pub fn edges_from_entries(entries: &Vec<EdgeEntry>) -> (r: Result<Vec<(EdgeKey, EdgeOverlay)>, EdgeKey>)
        ensures
            match r {
                Ok(edges) => {
                    &&& entry_pairs_distinct(entries@, entries@.len() as int)
                    &&& edges@.len() == entries@.len()
                    &&& sorted_pairs_text(edge_keys(edges@))
                    &&& entries_held(edges@, entries@, entries@.len() as int)
                    &&& entries_covered(edges@, entries@, entries@.len() as int)
                },
                Err(key) => exists|j: int|
                    0 <= j < entries@.len() && key.pair() == entry_pair(#[trigger] entries@[j])
                        && entry_pairs_distinct(entries@, j) && exists|i: int|
                        0 <= i < j && entry_pair(#[trigger] entries@[i]) == entry_pair(entries@[j]),
            },
    {
        let mut edges: Vec<(EdgeKey, EdgeOverlay)> = Vec::new();
        let mut j: usize = 0;
        while j < entries.len()
            invariant
                j <= entries@.len(),
                entry_pairs_distinct(entries@, j as int),
                edges@.len() == j,
                sorted_pairs_text(edge_keys(edges@)),
                entries_held(edges@, entries@, j as int),
                entries_covered(edges@, entries@, j as int),
            decreases entries@.len() - j,
        {
            let entry = &entries[j];
            let from_key = chars_of(entry.from.as_str());
            let to_key = chars_of(entry.to.as_str());
            let ghost pair = entry_pair(entries@[j as int]);
            let ghost before = edges@;
            let mut p: usize = 0;
            while p < edges.len() && edge_key_before(&edges[p].0, &from_key, &to_key)
                invariant
                    edges@ == before,
                    from_key@ == pair.0,
                    to_key@ == pair.1,
                    p <= before.len(),
                    forall|i: int| 0 <= i < p ==> pair_less(#[trigger] before[i].0.pair(), pair),
                decreases before.len() - p,
            {
                p = p + 1;
            }
            if p < edges.len() && edges[p].0.from == entry.from && edges[p].0.to == entry.to {
                proof {
                    let t = choose|t: int| 0 <= t < j && entry_matches(before[p as int], entries@[t]);
                    assert(entry_pair(entries@[t]) == entry_pair(entries@[j as int]));
                }
                return Err(EdgeKey::new(entry.from.as_str(), entry.to.as_str()));
            }
            let item = (EdgeKey::new(entry.from.as_str(), entry.to.as_str()), entry.overlay.clone());
            let ghost x = item;
            edges.insert(p, item);
            proof {
                assert(entry_matches(x, entries@[j as int]));
                lemma_step_key_new(before, pair, p as int);
                assert(edge_keys(edges@) =~= edge_keys(before).insert(p as int, pair));
                lemma_step_distinct(before, entries@, j as int);
                lemma_step_held(before, entries@, j as int, p as int, x);
                lemma_step_covered(before, entries@, j as int, p as int, x);
            }
            j = j + 1;
        }
        Ok(edges)
    }
}

/// Edge keys in order: by source ID, then by destination ID.
pub open spec fn pair_less(a: (Seq<char>, Seq<char>), b: (Seq<char>, Seq<char>)) -> bool {
    text_less(a.0, b.0) || (a.0 == b.0 && text_less(a.1, b.1))
}

/// The keys of node entries.
pub open spec fn node_keys(entries: Seq<(String, NodeOverlay)>) -> Seq<Seq<char>> {
    entries.map_values(|e: (String, NodeOverlay)| e.0@)
}

/// The keys of edge entries.
pub open spec fn edge_keys(entries: Seq<(EdgeKey, EdgeOverlay)>) -> Seq<(Seq<char>, Seq<char>)> {
    entries.map_values(|e: (EdgeKey, EdgeOverlay)| e.0.pair())
}

/// Edge keys in strictly increasing order.
pub open spec fn sorted_pairs_text(s: Seq<(Seq<char>, Seq<char>)>) -> bool {
    forall|i: int, j: int| 0 <= i < j < s.len() ==> pair_less(s[i], s[j])
}

/// Of two different edge keys, one comes before the other.
proof fn lemma_pair_less_total(a: (Seq<char>, Seq<char>), b: (Seq<char>, Seq<char>))
    ensures
        a == b || pair_less(a, b) || pair_less(b, a),
{
    lemma_text_less_total(a.0, b.0);
    lemma_text_less_total(a.1, b.1);
}

/// Edge key order is transitive.
proof fn lemma_pair_less_transitive(a: (Seq<char>, Seq<char>), b: (Seq<char>, Seq<char>), c: (Seq<char>, Seq<char>))
    requires
        pair_less(a, b),
        pair_less(b, c),
    ensures
        pair_less(a, c),
{
    if text_less(a.0, b.0) && text_less(b.0, c.0) {
        lemma_text_less_transitive(a.0, b.0, c.0);
    } else if text_less(a.1, b.1) && text_less(b.1, c.1) {
        lemma_text_less_transitive(a.1, b.1, c.1);
    }
}

/// Inserting a new string at the place the strings before it are smaller and
/// the one after it is not keeps a strictly increasing list increasing.
proof fn lemma_insert_sorted_texts(keys: Seq<Seq<char>>, x: Seq<char>, p: int)
    requires
        sorted_texts(keys),
        0 <= p <= keys.len(),
        forall|i: int| 0 <= i < p ==> text_less(#[trigger] keys[i], x),
        p < keys.len() ==> !text_less(keys[p], x),
        !keys.contains(x),
    ensures
        sorted_texts(keys.insert(p, x)),
{
    let out = keys.insert(p, x);
    if p < keys.len() {
        lemma_text_less_total(keys[p], x);
    }
    assert forall|i: int, j: int| 0 <= i < j < out.len() implies text_less(out[i], out[j]) by {
        if i < p && j == p {
        } else if i < p && j > p {
            assert(out[j] == keys[j - 1]);
        } else if i == p {
            assert(out[j] == keys[j - 1]);
            if j - 1 > p {
                lemma_text_less_transitive(x, keys[p], keys[j - 1]);
            }
        } else if i > p {
            assert(out[i] == keys[i - 1] && out[j] == keys[j - 1]);
        }
    }
}

/// The same for edge keys.
proof fn lemma_insert_sorted_pairs(keys: Seq<(Seq<char>, Seq<char>)>, x: (Seq<char>, Seq<char>), p: int)
    requires
        sorted_pairs_text(keys),
        0 <= p <= keys.len(),
        forall|i: int| 0 <= i < p ==> pair_less(#[trigger] keys[i], x),
        p < keys.len() ==> !pair_less(keys[p], x),
        !keys.contains(x),
    ensures
        sorted_pairs_text(keys.insert(p, x)),
{
    let out = keys.insert(p, x);
    if p < keys.len() {
        lemma_pair_less_total(keys[p], x);
    }
    assert forall|i: int, j: int| 0 <= i < j < out.len() implies pair_less(out[i], out[j]) by {
        if i < p && j == p {
        } else if i < p && j > p {
            assert(out[j] == keys[j - 1]);
        } else if i == p {
            assert(out[j] == keys[j - 1]);
            if j - 1 > p {
                lemma_pair_less_transitive(x, keys[p], keys[j - 1]);
            }
        } else if i > p {
            assert(out[i] == keys[i - 1] && out[j] == keys[j - 1]);
        }
    }
}

proof fn lemma_node_lookup_insert(entries: Seq<(String, NodeOverlay)>, id: Seq<char>, p: int, e: (String, NodeOverlay))
    requires
        0 <= p <= entries.len(),
        forall|j: int| 0 <= j < entries.len() ==> (#[trigger] entries[j]).0@ != id,
        e.0@ == id,
    ensures
        forall|k: Seq<char>|
            #![trigger node_entry_lookup(entries.insert(p, e), k)]
            node_entry_lookup(entries.insert(p, e), k) == if k == id {
                Some(e.1.annotations@)
            } else {
                node_entry_lookup(entries, k)
            },
    decreases p,
{
    let ins = entries.insert(p, e);
    if p == 0 {
        assert(ins.drop_first() =~= entries);
        assert(ins[0] == e);
    } else {
        assert forall|j: int| 0 <= j < entries.drop_first().len() implies (#[trigger] entries.drop_first()[j]).0@ != id by {
            assert(entries.drop_first()[j] == entries[j + 1]);
        }
        lemma_node_lookup_insert(entries.drop_first(), id, p - 1, e);
        assert(ins.drop_first() =~= entries.drop_first().insert(p - 1, e));
        assert(ins[0] == entries[0]);
        assert(entries[0].0@ != id);
        assert forall|k: Seq<char>| #[trigger] node_entry_lookup(ins, k) == if k == id {
            Some(e.1.annotations@)
        } else {
            node_entry_lookup(entries, k)
        } by {
            if entries[0].0@ != k {
                assert(node_entry_lookup(ins, k) == node_entry_lookup(ins.drop_first(), k));
                assert(node_entry_lookup(entries, k) == node_entry_lookup(entries.drop_first(), k));
            }
        }
    }
}

proof fn lemma_edge_lookup_insert(
    entries: Seq<(EdgeKey, EdgeOverlay)>,
    pair: (Seq<char>, Seq<char>),
    p: int,
    e: (EdgeKey, EdgeOverlay),
)
    requires
        0 <= p <= entries.len(),
        forall|j: int| 0 <= j < entries.len() ==> (#[trigger] entries[j]).0.pair() != pair,
        e.0.pair() == pair,
    ensures
        forall|k: (Seq<char>, Seq<char>)|
            #![trigger edge_entry_lookup(entries.insert(p, e), k)]
            edge_entry_lookup(entries.insert(p, e), k) == if k == pair {
                Some(e.1.annotations@)
            } else {
                edge_entry_lookup(entries, k)
            },
    decreases p,
{
    let ins = entries.insert(p, e);
    if p == 0 {
        assert(ins.drop_first() =~= entries);
        assert(ins[0] == e);
    } else {
        assert forall|j: int| 0 <= j < entries.drop_first().len() implies (#[trigger] entries.drop_first()[j]).0.pair() != pair by {
            assert(entries.drop_first()[j] == entries[j + 1]);
        }
        lemma_edge_lookup_insert(entries.drop_first(), pair, p - 1, e);
        assert(ins.drop_first() =~= entries.drop_first().insert(p - 1, e));
        assert(ins[0] == entries[0]);
        assert(entries[0].0.pair() != pair);
        assert forall|k: (Seq<char>, Seq<char>)| #[trigger] edge_entry_lookup(ins, k) == if k == pair {
            Some(e.1.annotations@)
        } else {
            edge_entry_lookup(entries, k)
        } by {
            if entries[0].0.pair() != k {
                assert(edge_entry_lookup(ins, k) == edge_entry_lookup(ins.drop_first(), k));
                assert(edge_entry_lookup(entries, k) == edge_entry_lookup(entries.drop_first(), k));
            }
        }
    }
}

proof fn lemma_node_lookup_position(entries: Seq<(String, NodeOverlay)>, id: Seq<char>, found: Option<usize>)
    requires
        match found {
            Some(i) => node_entry_position(entries, id, i as int),
            None => forall|j: int| 0 <= j < entries.len() ==> (#[trigger] entries[j]).0@ != id,
        },
    ensures
        match found {
            Some(i) => node_entry_lookup(entries, id) == Some(entries[i as int].1.annotations@),
            None => node_entry_lookup(entries, id) is None,
        },
    decreases entries.len(),
{
    if entries.len() > 0 && entries[0].0@ != id {
        let rest = entries.drop_first();
        let found_rest: Option<usize> = match found {
            Some(i) => Some((i - 1) as usize),
            None => None,
        };
        assert forall|j: int| 0 <= j < rest.len() implies #[trigger] rest[j] == entries[j + 1] by {}
        lemma_node_lookup_position(rest, id, found_rest);
    }
}

proof fn lemma_edge_lookup_position(
    entries: Seq<(EdgeKey, EdgeOverlay)>,
    pair: (Seq<char>, Seq<char>),
    found: Option<usize>,
)
    requires
        match found {
            Some(i) => edge_entry_position(entries, pair, i as int),
            None => forall|j: int| 0 <= j < entries.len() ==> (#[trigger] entries[j]).0.pair() != pair,
        },
    ensures
        match found {
            Some(i) => edge_entry_lookup(entries, pair) == Some(entries[i as int].1.annotations@),
            None => edge_entry_lookup(entries, pair) is None,
        },
    decreases entries.len(),
{
    if entries.len() > 0 && entries[0].0.pair() != pair {
        let rest = entries.drop_first();
        let found_rest: Option<usize> = match found {
            Some(i) => Some((i - 1) as usize),
            None => None,
        };
        assert forall|j: int| 0 <= j < rest.len() implies #[trigger] rest[j] == entries[j + 1] by {}
        lemma_edge_lookup_position(rest, pair, found_rest);
    }
}

proof fn lemma_node_lookup_update(
    entries: Seq<(String, NodeOverlay)>,
    id: Seq<char>,
    i: int,
    e: (String, NodeOverlay),
)
    requires
        node_entry_position(entries, id, i),
        e.0@ == id,
    ensures
        forall|k: Seq<char>|
            #![trigger node_entry_lookup(entries.update(i, e), k)]
            node_entry_lookup(entries.update(i, e), k) == if k == id {
                Some(e.1.annotations@)
            } else {
                node_entry_lookup(entries, k)
            },
    decreases i,
{
    let upd = entries.update(i, e);
    assert forall|k: Seq<char>| #[trigger] node_entry_lookup(upd, k) == if k == id {
        Some(e.1.annotations@)
    } else {
        node_entry_lookup(entries, k)
    } by {
        if i > 0 {
            assert(entries.drop_first()[i - 1] == entries[i]);
            assert forall|j: int| 0 <= j < i - 1 implies (#[trigger] entries.drop_first()[j]).0@ != id by {
                assert(entries.drop_first()[j] == entries[j + 1]);
            }
            lemma_node_lookup_update(entries.drop_first(), id, i - 1, e);
            assert(upd.drop_first() =~= entries.drop_first().update(i - 1, e));
            assert(upd[0] == entries[0]);
            assert(node_entry_lookup(entries.drop_first().update(i - 1, e), k) == if k == id {
                Some(e.1.annotations@)
            } else {
                node_entry_lookup(entries.drop_first(), k)
            });
        } else {
            assert(upd.drop_first() =~= entries.drop_first());
        }
    }
}

proof fn lemma_edge_lookup_update(
    entries: Seq<(EdgeKey, EdgeOverlay)>,
    pair: (Seq<char>, Seq<char>),
    i: int,
    e: (EdgeKey, EdgeOverlay),
)
    requires
        edge_entry_position(entries, pair, i),
        e.0.pair() == pair,
    ensures
        forall|k: (Seq<char>, Seq<char>)|
            #![trigger edge_entry_lookup(entries.update(i, e), k)]
            edge_entry_lookup(entries.update(i, e), k) == if k == pair {
                Some(e.1.annotations@)
            } else {
                edge_entry_lookup(entries, k)
            },
    decreases i,
{
    let upd = entries.update(i, e);
    assert forall|k: (Seq<char>, Seq<char>)| #[trigger] edge_entry_lookup(upd, k) == if k == pair {
        Some(e.1.annotations@)
    } else {
        edge_entry_lookup(entries, k)
    } by {
        if i > 0 {
            assert(entries.drop_first()[i - 1] == entries[i]);
            assert forall|j: int| 0 <= j < i - 1 implies (#[trigger] entries.drop_first()[j]).0.pair() != pair by {
                assert(entries.drop_first()[j] == entries[j + 1]);
            }
            lemma_edge_lookup_update(entries.drop_first(), pair, i - 1, e);
            assert(upd.drop_first() =~= entries.drop_first().update(i - 1, e));
            assert(upd[0] == entries[0]);
            assert(edge_entry_lookup(entries.drop_first().update(i - 1, e), k) == if k == pair {
                Some(e.1.annotations@)
            } else {
                edge_entry_lookup(entries.drop_first(), k)
            });
        } else {
            assert(upd.drop_first() =~= entries.drop_first());
        }
    }
}

} // verus!
