//! Focused subgraphs: the part of a layout graph within a given number of
//! edges of one table.

use std::collections::BTreeSet;

use vstd::prelude::*;

use crate::builder::{built_graph, ids_of, index_nodes, LayoutGraphBuilder};
use crate::graph::{
    edges_model, lemma_index_of_in_range, nodes_model, EdgeModel, LayoutEdge, LayoutGraph, LayoutNode,
    NodeModel,
};
use crate::schema::{FocusSpec, GroupingStrategy, Schema};

verus! {

/// Error during focus extraction.
#[derive(Debug)]
pub enum FocusError {
    /// The specified focus target table was not found in the graph.
    TargetNotFound {
        /// Requested focus table.
        table: String,
    },
    /// The graph referenced an edge endpoint that does not exist in the node index.
    GraphInvariant {
        /// Source node ID.
        from: String,
        /// Target node ID.
        to: String,
        /// Missing endpoint label.
        missing_endpoint: &'static str,
    },
}

/// Extractor for focused subgraphs.
#[derive(Debug)]
pub struct FocusExtractor;

impl Default for FocusExtractor {
    fn default() -> (e: Self)
        ensures
            e == FocusExtractor,
    {
        FocusExtractor
    }
}

/// Both ends of edge `e` are stable ids held in the node index.
pub open spec fn resolves(g: LayoutGraph, e: LayoutEdge) -> bool {
    g.index_of(e.from@) is Some && g.index_of(e.to@) is Some
}

/// Edge `e` joins nodes `a` and `b`, in either direction.
pub open spec fn joins(g: LayoutGraph, e: LayoutEdge, a: usize, b: usize) -> bool {
    ||| (g.index_of(e.from@) == Some(a) && g.index_of(e.to@) == Some(b))
    ||| (g.index_of(e.from@) == Some(b) && g.index_of(e.to@) == Some(a))
}

/// Some edge of the graph joins nodes `a` and `b`.
pub open spec fn linked(g: LayoutGraph, a: usize, b: usize) -> bool {
    exists|k: int| 0 <= k < g.edges@.len() && #[trigger] joins(g, g.edges@[k], a, b)
}

/// The nodes at most `d` edges, in either direction, from node `t`.
pub open spec fn reach(g: LayoutGraph, t: usize, d: nat) -> Set<usize>
    decreases d,
{
    if d == 0 {
        Set::empty().insert(t)
    } else {
        let prev = reach(g, t, (d - 1) as nat);
        prev + Set::new(|i: usize| exists|j: usize| #[trigger] prev.contains(j) && linked(g, j, i))
    }
}

/// Node `i` is at most `d` edges, in either direction, from node `t`.
pub open spec fn within(g: LayoutGraph, t: usize, i: usize, d: nat) -> bool {
    reach(g, t, d).contains(i)
}

/// One more step: `within` at `d + 1` holds of the nodes within `d` and
/// of their neighbours.
pub proof fn lemma_within_step(g: LayoutGraph, t: usize, i: usize, d: nat)
    ensures
        within(g, t, i, d + 1) == (within(g, t, i, d) || exists|j: usize| #[trigger] within(g, t, j, d) && linked(g, j, i)),
{
    assert(((d + 1) - 1) as nat == d);
    let prev = reach(g, t, d);
    assert(reach(g, t, d + 1) == prev + Set::new(|x: usize| exists|j: usize| #[trigger] prev.contains(j) && linked(g, j, x)));
    if within(g, t, i, d + 1) && !within(g, t, i, d) {
        let j = choose|j: usize| #[trigger] prev.contains(j) && linked(g, j, i);
        assert(within(g, t, j, d));
    }
}

/// The nodes at most `d` edges from `t`.
pub open spec fn within_set(g: LayoutGraph, t: usize, d: nat) -> Set<usize> {
    Set::new(|i: usize| i < g.nodes@.len() && within(g, t, i, d))
}

/// The first node, from position `k` on, whose table name or label is `name`.
pub open spec fn first_named(nodes: Seq<LayoutNode>, name: Seq<char>, k: int) -> Option<usize>
    decreases nodes.len() - k,
{
    if k < 0 || k >= nodes.len() {
        None
    } else if nodes[k].table_name@ == name || nodes[k].label@ == name {
        Some(k as usize)
    } else {
        first_named(nodes, name, k + 1)
    }
}

/// The focus target: the node indexed under `name`, else the first node
/// whose table name or label is `name`.
pub open spec fn focus_target(g: LayoutGraph, name: Seq<char>) -> Option<usize> {
    match g.index_of(name) {
        Some(i) => Some(i),
        None => first_named(g.nodes@, name, 0),
    }
}

/// Node `n` carries `name` as its table name or its label.
pub open spec fn carries_name(n: LayoutNode, name: Seq<char>) -> bool {
    n.table_name@ == name || n.label@ == name
}

/// Searching from position `k` for a name that node `i` (at or after `k`)
/// carries finds a node no later than `i` that carries it, with no node
/// between `k` and that one carrying it.
proof fn lemma_first_named_finds(nodes: Seq<LayoutNode>, name: Seq<char>, k: int, i: int)
    requires
        0 <= k <= i < nodes.len(),
        nodes.len() <= usize::MAX,
        carries_name(nodes[i], name),
    ensures
        first_named(nodes, name, k) is Some,
        k <= first_named(nodes, name, k)->Some_0 <= i,
        carries_name(nodes[first_named(nodes, name, k)->Some_0 as int], name),
        forall|j: int| k <= j < first_named(nodes, name, k)->Some_0 ==> !carries_name(#[trigger] nodes[j], name),
    decreases i - k,
{
    if !carries_name(nodes[k], name) {
        lemma_first_named_finds(nodes, name, k + 1, i);
        assert(first_named(nodes, name, k) == first_named(nodes, name, k + 1));
    } else {
        assert(first_named(nodes, name, k) == Some(k as usize));
    }
}

/// A table that the node index does not know under the requested name is
/// still found by its table name (or label): the focus target is then the
/// first node whose table name or label is that name, and focusing never
/// answers that the target was not found.
pub proof fn lemma_focus_target_found_by_table_name(g: LayoutGraph, focus: FocusSpec, r: Result<LayoutGraph, FocusError>, i: int)
    requires
        g.index_of(focus.table@) is None,
        0 <= i < g.nodes@.len(),
        g.nodes@[i].table_name@ == focus.table@,
        focus_outcome(g, focus, r),
    ensures
        focus_target(g, focus.table@) is Some,
        focus_target(g, focus.table@)->Some_0 <= i,
        carries_name(g.nodes@[focus_target(g, focus.table@)->Some_0 as int], focus.table@),
        forall|j: int|
            0 <= j < focus_target(g, focus.table@)->Some_0 ==> !carries_name(#[trigger] g.nodes@[j], focus.table@),
        !(r matches Err(FocusError::TargetNotFound { .. })),
{
    assert(g.nodes.len() == g.nodes@.len());
    lemma_first_named_finds(g.nodes@, focus.table@, 0, i);
}

/// Searching from position `k` finds nothing when no node from `k` on
/// carries the name.
proof fn lemma_first_named_none(nodes: Seq<LayoutNode>, name: Seq<char>, k: int)
    requires
        0 <= k,
        forall|j: int| k <= j < nodes.len() ==> !carries_name(#[trigger] nodes[j], name),
    ensures
        first_named(nodes, name, k) is None,
    decreases nodes.len() - k,
{
    if k < nodes.len() {
        assert(!carries_name(nodes[k], name));
        lemma_first_named_none(nodes, name, k + 1);
    }
}

/// A name recorded in the node index designates its node as the focus
/// target, whatever the nodes' table names and labels are.
pub proof fn lemma_focus_target_prefers_node_index(g: LayoutGraph, name: Seq<char>)
    requires
        g.index_of(name) is Some,
    ensures
        focus_target(g, name) == g.index_of(name),
{
}

/// A name that the node index does not record and that no node carries as
/// table name or label has no focus target, and focusing on it answers that
/// the target was not found, naming the requested table.
pub proof fn lemma_focus_on_unknown_name_not_found(g: LayoutGraph, focus: FocusSpec, r: Result<LayoutGraph, FocusError>)
    requires
        g.index_of(focus.table@) is None,
        forall|j: int| 0 <= j < g.nodes@.len() ==> !carries_name(#[trigger] g.nodes@[j], focus.table@),
        focus_outcome(g, focus, r),
    ensures
        focus_target(g, focus.table@) is None,
        r matches Err(FocusError::TargetNotFound { table }) && table@ == focus.table@,
{
    lemma_first_named_none(g.nodes@, focus.table@, 0);
}

/// The position of the first edge, from `k` on, with an end outside the node index.
pub open spec fn first_unresolved(g: LayoutGraph, k: int) -> Option<int>
    decreases g.edges@.len() - k,
{
    if k < 0 || k >= g.edges@.len() {
        None
    } else if !resolves(g, g.edges@[k]) {
        Some(k)
    } else {
        first_unresolved(g, k + 1)
    }
}

/// `err` reports edge `e`, naming the source end if it is missing, else the target end.
pub open spec fn reports_edge(g: LayoutGraph, e: LayoutEdge, err: FocusError) -> bool {
    &&& err matches FocusError::GraphInvariant { from, to, missing_endpoint }
    &&& err->from@ == e.from@
    &&& err->to@ == e.to@
    &&& err->missing_endpoint@ == if g.index_of(e.from@) is None {
        "source"@
    } else {
        "target"@
    }
}

/// A node as a focused graph holds it: with no group.
pub open spec fn without_group(n: NodeModel) -> NodeModel {
    NodeModel { group_index: None, ..n }
}

/// The nodes among the first `m` whose index is in `keep`, in index order, with no group.
pub open spec fn kept_nodes(nodes: Seq<NodeModel>, keep: Set<usize>, m: int) -> Seq<NodeModel>
    decreases m,
{
    if m <= 0 {
        Seq::empty()
    } else if keep.contains((m - 1) as usize) {
        kept_nodes(nodes, keep, m - 1).push(without_group(nodes[m - 1]))
    } else {
        kept_nodes(nodes, keep, m - 1)
    }
}

/// Both ends of edge `e` are indexed nodes in `keep`.
pub open spec fn edge_kept(g: LayoutGraph, e: LayoutEdge, keep: Set<usize>) -> bool {
    match (g.index_of(e.from@), g.index_of(e.to@)) {
        (Some(a), Some(b)) => keep.contains(a) && keep.contains(b),
        _ => false,
    }
}

/// The models of the first `m` edges that have both ends in `keep`, in order.
pub open spec fn kept_edges(g: LayoutGraph, keep: Set<usize>, m: int) -> Seq<EdgeModel>
    decreases m,
{
    if m <= 0 {
        Seq::empty()
    } else if edge_kept(g, g.edges@[m - 1], keep) {
        kept_edges(g, keep, m - 1).push(g.edges@[m - 1].model())
    } else {
        kept_edges(g, keep, m - 1)
    }
}

/// `out` is the part of `g` on the nodes in `keep`: those nodes in index
/// order without groups, the edges between them, no groups, and fresh indices.
pub open spec fn focused_on(g: LayoutGraph, keep: Set<usize>, out: LayoutGraph) -> bool {
    &&& nodes_model(out.nodes@) == kept_nodes(nodes_model(g.nodes@), keep, g.nodes@.len() as int)
    &&& edges_model(out.edges@) == kept_edges(g, keep, g.edges@.len() as int)
    &&& out.groups@.len() == 0
    &&& out.indexed()
    &&& out.indices_in_range()
}

/// What focusing `g` on `focus` gives: the target must exist, then every
/// edge must resolve, then the graph is cut down to the nodes within the
/// focus depth of the target.
pub open spec fn focus_outcome(g: LayoutGraph, focus: FocusSpec, r: Result<LayoutGraph, FocusError>) -> bool {
    match focus_target(g, focus.table@) {
        None => r matches Err(FocusError::TargetNotFound { table }) && table@ == focus.table@,
        Some(t) => match first_unresolved(g, 0) {
            Some(k) => r is Err && reports_edge(g, g.edges@[k], r->Err_0),
            None => r is Ok && focused_on(g, within_set(g, t, focus.depth as nat), r->Ok_0),
        },
    }
}

/// The end positions `ends` are the node indices of the graph's edges.
pub open spec fn ends_of(g: LayoutGraph, ends: Seq<(usize, usize)>) -> bool {
    &&& ends.len() == g.edges@.len()
    &&& forall|k: int|
        0 <= k < ends.len() ==> {
            &&& g.index_of(g.edges@[k].from@) == Some(#[trigger] ends[k].0)
            &&& g.index_of(g.edges@[k].to@) == Some(ends[k].1)
            &&& ends[k].0 < g.nodes@.len()
            &&& ends[k].1 < g.nodes@.len()
        }
}

/// Some pair of `ends` joins `a` and `b`, in either direction.
pub open spec fn ends_link(ends: Seq<(usize, usize)>, a: usize, b: usize) -> bool {
    exists|p: int| 0 <= p < ends.len() && #[trigger] pair_joins(ends[p], a, b)
}

/// The pair `e` is `(a, b)` or `(b, a)`.
pub open spec fn pair_joins(e: (usize, usize), a: usize, b: usize) -> bool {
    (e.0 == a && e.1 == b) || (e.0 == b && e.1 == a)
}

/// Pair `p` of `ends` leads from a node of `current` to node `x`.
pub open spec fn feeds(ends: Seq<(usize, usize)>, current: Seq<bool>, p: int, x: usize) -> bool {
    ||| current[ends[p].0 as int] && ends[p].1 == x
    ||| current[ends[p].1 as int] && ends[p].0 == x
}

/// Node `i` was first reached at distance exactly `d` from `t`.
pub open spec fn at_distance(g: LayoutGraph, t: usize, i: usize, d: nat) -> bool {
    within(g, t, i, d) && !(d > 0 && within(g, t, i, (d - 1) as nat))
}

/// Resolved end pairs describe exactly the links of the graph.
proof fn lemma_ends_link(g: LayoutGraph, ends: Seq<(usize, usize)>)
    requires
        ends_of(g, ends),
    ensures
        forall|a: usize, b: usize| #[trigger] ends_link(ends, a, b) == linked(g, a, b),
{
    assert forall|a: usize, b: usize| #[trigger] ends_link(ends, a, b) == linked(g, a, b) by {
        if ends_link(ends, a, b) {
            let p = choose|p: int| 0 <= p < ends.len() && #[trigger] pair_joins(ends[p], a, b);
            assert(ends[p].0 == ends[p].0);
            assert(joins(g, g.edges@[p], a, b));
        }
        if linked(g, a, b) {
            let k = choose|k: int| 0 <= k < g.edges@.len() && #[trigger] joins(g, g.edges@[k], a, b);
            assert(ends[k].0 == ends[k].0);
            assert(pair_joins(ends[k], a, b));
        }
    }
}

/// Every node within reach of a node of the graph is a node of the graph.
proof fn lemma_within_bound(g: LayoutGraph, t: usize, d: nat)
    requires
        g.indices_in_range(),
        t < g.nodes@.len(),
    ensures
        forall|i: usize| #[trigger] within(g, t, i, d) ==> i < g.nodes@.len(),
    decreases d,
{
    if d > 0 {
        let e = (d - 1) as nat;
        lemma_within_bound(g, t, e);
        assert forall|i: usize| #[trigger] within(g, t, i, d) implies i < g.nodes@.len() by {
            lemma_within_step(g, t, i, e);
            if !within(g, t, i, e) {
                let j = choose|j: usize| #[trigger] within(g, t, j, e) && linked(g, j, i);
                let k = choose|k: int| 0 <= k < g.edges@.len() && #[trigger] joins(g, g.edges@[k], j, i);
                lemma_index_of_in_range(&g, g.edges@[k].from@);
                lemma_index_of_in_range(&g, g.edges@[k].to@);
            }
        }
    }
}

/// Once a step reaches no new node, no later step does.
proof fn lemma_within_stable(g: LayoutGraph, t: usize, m: nat, k: nat)
    requires
        m <= k,
        forall|i: usize| #[trigger] within(g, t, i, m + 1) == within(g, t, i, m),
    ensures
        forall|i: usize| #[trigger] within(g, t, i, k) == within(g, t, i, m),
    decreases k - m,
{
    if k > m {
        let e = (k - 1) as nat;
        lemma_within_stable(g, t, m, e);
        assert forall|i: usize| #[trigger] within(g, t, i, k) == within(g, t, i, m) by {
            lemma_within_step(g, t, i, e);
            lemma_within_step(g, t, i, m);
            assert(within(g, t, i, m + 1) == within(g, t, i, m));
            if exists|j: usize| #[trigger] within(g, t, j, e) && linked(g, j, i) {
                let j = choose|j: usize| #[trigger] within(g, t, j, e) && linked(g, j, i);
                assert(within(g, t, j, m));
            }
            if exists|j: usize| #[trigger] within(g, t, j, m) && linked(g, j, i) {
                let j = choose|j: usize| #[trigger] within(g, t, j, m) && linked(g, j, i);
                assert(within(g, t, j, e));
            }
        }
    }
}

/// The nodes fed from the frontier at distance `d` and not yet reached are
/// exactly those at distance `d + 1`.
proof fn lemma_next_frontier(
    g: LayoutGraph,
    ends: Seq<(usize, usize)>,
    t: usize,
    d: nat,
    current: Seq<bool>,
    x: usize,
)
    requires
        ends_of(g, ends),
        g.indices_in_range(),
        t < g.nodes@.len(),
        x < g.nodes@.len(),
        current.len() == g.nodes@.len(),
        forall|i: int| 0 <= i < current.len() ==> #[trigger] current[i] == at_distance(g, t, i as usize, d),
    ensures
        (!within(g, t, x, d) && exists|p: int| 0 <= p < ends.len() && #[trigger] feeds(ends, current, p, x))
            == at_distance(g, t, x, d + 1),
{
    lemma_ends_link(g, ends);
    lemma_within_bound(g, t, d);
    lemma_within_step(g, t, x, d);
    let n = g.nodes@.len();
    if !within(g, t, x, d) {
        if exists|p: int| 0 <= p < ends.len() && #[trigger] feeds(ends, current, p, x) {
            let p = choose|p: int| 0 <= p < ends.len() && #[trigger] feeds(ends, current, p, x);
            let j = if current[ends[p].0 as int] && ends[p].1 == x {
                ends[p].0
            } else {
                ends[p].1
            };
            assert(pair_joins(ends[p], j, x));
            assert(ends_link(ends, j, x));
            assert(current[j as int]);
            assert(within(g, t, j, d));
        }
        if at_distance(g, t, x, d + 1) {
            let j = choose|j: usize| #[trigger] within(g, t, j, d) && linked(g, j, x);
            assert(j < n);
            assert(at_distance(g, t, j, d)) by {
                if d > 0 {
                    let e = (d - 1) as nat;
                    lemma_within_step(g, t, x, e);
                    assert(((e + 1) as nat) == d);
                    if within(g, t, j, e) {
                        assert(within(g, t, x, d));
                    }
                }
            }
            assert(current[j as int]);
            assert(ends_link(ends, j, x));
            let p = choose|p: int| 0 <= p < ends.len() && #[trigger] pair_joins(ends[p], j, x);
            assert(feeds(ends, current, p, x));
        }
    }
}

/// A vector of `n` falses.
fn falses(n: usize) -> (v: Vec<bool>)
    ensures
        v@.len() == n,
        forall|i: int| 0 <= i < n ==> !#[trigger] v@[i],
{
    let mut v: Vec<bool> = Vec::new();
    for i in 0..n
        invariant
            v@.len() == i,
            forall|q: int| 0 <= q < i ==> !#[trigger] v@[q],
    {
        v.push(false);
    }
    v
}

/// Some entry of `v` is true.
fn any_true(v: &Vec<bool>) -> (r: bool)
    ensures
        r == exists|i: int| 0 <= i < v@.len() && #[trigger] v@[i],
{
    for i in 0..v.len()
        invariant
            forall|q: int| 0 <= q < i ==> !#[trigger] v@[q],
    {
        if v[i] {
            return true;
        }
    }
    false
}

/// The node indices of both ends of each edge, or the error for the first
/// edge with an end outside the node index.
fn resolve_edges(graph: &LayoutGraph) -> (r: Result<Vec<(usize, usize)>, FocusError>)
    requires
        graph.indices_in_range(),
    ensures
        match first_unresolved(*graph, 0) {
            Some(k) => r is Err && reports_edge(*graph, graph.edges@[k], r->Err_0),
            None => r is Ok && ends_of(*graph, r->Ok_0@),
        },
{
    let mut ends: Vec<(usize, usize)> = Vec::new();
    for k in 0..graph.edges.len()
        invariant
            graph.indices_in_range(),
            first_unresolved(*graph, 0) == first_unresolved(*graph, k as int),
            ends@.len() == k,
            forall|q: int|
                0 <= q < k ==> {
                    &&& graph.index_of(graph.edges@[q].from@) == Some(#[trigger] ends@[q].0)
                    &&& graph.index_of(graph.edges@[q].to@) == Some(ends@[q].1)
                    &&& ends@[q].0 < graph.nodes@.len()
                    &&& ends@[q].1 < graph.nodes@.len()
                },
    {
        let edge = &graph.edges[k];
        let from_idx = match graph.node_index.get(edge.from.as_str()) {
            Some(i) => i,
            None => {
                return Err(
                    FocusError::GraphInvariant {
                        from: edge.from.clone(),
                        to: edge.to.clone(),
                        missing_endpoint: "source",
                    },
                );
            },
        };
        let to_idx = match graph.node_index.get(edge.to.as_str()) {
            Some(i) => i,
            None => {
                return Err(
                    FocusError::GraphInvariant {
                        from: edge.from.clone(),
                        to: edge.to.clone(),
                        missing_endpoint: "target",
                    },
                );
            },
        };
        proof {
            lemma_index_of_in_range(graph, edge.from@);
            lemma_index_of_in_range(graph, edge.to@);
        }
        ends.push((from_idx, to_idx));
    }
    Ok(ends)
}

/// Which nodes are at most `depth` edges from `target`, found level by
/// level and stopping early once a level adds no node.
fn nodes_within_depth(graph: &LayoutGraph, ends: &Vec<(usize, usize)>, target: usize, depth: u32) -> (vis: Vec<bool>)
    requires
        graph.indices_in_range(),
        ends_of(*graph, ends@),
        target < graph.nodes@.len(),
    ensures
        vis@.len() == graph.nodes@.len(),
        forall|i: int| 0 <= i < vis@.len() ==> #[trigger] vis@[i] == within(*graph, target, i as usize, depth as nat),
{
    let n = graph.nodes.len();
    let mut visited = falses(n);
    let mut current = falses(n);
    current.set(target, true);
    let limit: u64 = depth as u64;
    let mut level: u64 = 0;
    while level <= limit
        invariant
            graph.indices_in_range(),
            ends_of(*graph, ends@),
            target < n,
            n == graph.nodes@.len(),
            limit == depth,
            visited@.len() == n,
            current@.len() == n,
            level <= limit + 1,
            forall|i: int|
                0 <= i < n ==> #[trigger] visited@[i] == (level > 0 && within(*graph, target, i as usize, (level - 1) as nat)),
            forall|i: int| 0 <= i < n ==> #[trigger] current@[i] == at_distance(*graph, target, i as usize, level as nat),
        ensures
            visited@.len() == n,
            forall|i: int| 0 <= i < n ==> #[trigger] visited@[i] == within(*graph, target, i as usize, depth as nat),
        decreases limit + 1 - level,
    {
        let ghost d = level as nat;
        for i in 0..n
            invariant
                visited@.len() == n,
                current@.len() == n,
                forall|q: int|
                    0 <= q < n ==> #[trigger] visited@[q] == (if q < i {
                        (d > 0 && within(*graph, target, q as usize, (d - 1) as nat)) || current@[q]
                    } else {
                        d > 0 && within(*graph, target, q as usize, (d - 1) as nat)
                    }),
        {
            if current[i] {
                visited.set(i, true);
            }
        }
        proof {
            assert forall|q: int| 0 <= q < n implies #[trigger] visited@[q] == within(*graph, target, q as usize, d) by {
                if d > 0 && within(*graph, target, q as usize, (d - 1) as nat) {
                    assert(within(*graph, target, q as usize, d));
                }
            }
        }
        let mut next = falses(n);
        for p in 0..ends.len()
            invariant
                n == graph.nodes@.len(),
                ends_of(*graph, ends@),
                next@.len() == n,
                visited@.len() == n,
                current@.len() == n,
                forall|x: int|
                    0 <= x < n ==> #[trigger] next@[x] == (!visited@[x] && exists|r: int|
                        0 <= r < p && #[trigger] feeds(ends@, current@, r, x as usize)),
        {
            let (a, b) = ends[p];
            if current[a] && !visited[b] {
                next.set(b, true);
            }
            if current[b] && !visited[a] {
                next.set(a, true);
            }
            proof {
                assert forall|x: int| 0 <= x < n implies #[trigger] next@[x] == (!visited@[x] && exists|r: int|
                    0 <= r < p + 1 && #[trigger] feeds(ends@, current@, r, x as usize)) by {
                    if feeds(ends@, current@, p as int, x as usize) && !visited@[x] {
                        assert(next@[x]);
                    }
                }
            }
        }
        proof {
            assert forall|x: int| 0 <= x < n implies #[trigger] next@[x] == at_distance(*graph, target, x as usize, d + 1) by {
                lemma_next_frontier(*graph, ends@, target, d, current@, x as usize);
            }
        }
        current = next;
        level = level + 1;
        if !any_true(&current) {
            proof {
                lemma_within_bound(*graph, target, d + 1);
                assert forall|i: usize| #[trigger] within(*graph, target, i, d + 1) == within(*graph, target, i, d) by {
                    if within(*graph, target, i, d + 1) && !within(*graph, target, i, d) {
                        assert(!current@[i as int]);
                    }
                }
                lemma_within_stable(*graph, target, d, depth as nat);
            }
            break;
        }
    }
    visited
}

impl FocusExtractor {
    /// Extract a focused subgraph from the given graph.
    ///
    /// Returns a new graph containing only the nodes within the specified
    /// depth from the focus target, along with edges between those nodes.
    pub fn extract(&self, graph: &LayoutGraph, focus: &FocusSpec) -> (r: Result<LayoutGraph, FocusError>)
        requires
            graph.indices_in_range(),
        ensures
            focus_outcome(*graph, *focus, r),
    {
        let target_idx = match find_target(graph, focus.table.as_str()) {
            Some(i) => i,
            None => {
                return Err(FocusError::TargetNotFound { table: focus.table.clone() });
            },
        };
        let included = match self.find_nodes_within_depth(graph, target_idx, focus.depth) {
            Ok(included) => included,
            Err(e) => {
                return Err(e);
            },
        };
        self.build_focused_graph(graph, &included)
    }

    /// Find all node indices within the specified depth from the target
    /// (the nodes at most `depth` edges away, in either direction), or the
    /// error for the first edge with an end outside the node index.
    fn find_nodes_within_depth(&self, graph: &LayoutGraph, target_idx: usize, depth: u32) -> (r: Result<
        BTreeSet<usize>,
        FocusError,
    >)
        requires
            graph.indices_in_range(),
            target_idx < graph.nodes@.len(),
        ensures
            match first_unresolved(*graph, 0) {
                Some(k) => r is Err && reports_edge(*graph, graph.edges@[k], r->Err_0),
                None => r is Ok && r->Ok_0@ == within_set(*graph, target_idx, depth as nat),
            },
    {
        let ends = match resolve_edges(graph) {
            Ok(ends) => ends,
            Err(e) => {
                return Err(e);
            },
        };
        let visited = nodes_within_depth(graph, &ends, target_idx, depth);
        let mut included: BTreeSet<usize> = BTreeSet::new();
        proof {
            lemma_usize_ordered();
        }
        for i in 0..visited.len()
            invariant
                usize_ordered(),
                visited@.len() == graph.nodes@.len(),
                forall|q: usize| #[trigger] included@.contains(q) == (q < i && visited@[q as int]),
        {
            if visited[i] {
                included.insert(i);
            }
        }
        proof {
            assert(included@ =~= within_set(*graph, target_idx, depth as nat));
        }
        Ok(included)
    }

    /// Extract a focused subgraph from a schema directly.
    pub fn extract_from_schema(&self, schema: &Schema, focus: &FocusSpec) -> (r: Result<LayoutGraph, FocusError>)
        ensures
            exists|g: LayoutGraph, b: LayoutGraphBuilder|
                {
                    &&& b.request.filter.include_patterns@.len() == 0
                    &&& b.request.filter.exclude_patterns@.len() == 0
                    &&& b.request.grouping.strategy == GroupingStrategy::Ungrouped
                    &&& !b.request.collapse_join_tables
                    &&& g.model() == built_graph(*schema, b.request)
                    &&& g.indexed()
                    &&& g.indices_in_range()
                    &&& focus_outcome(g, *focus, r)
                },
    {
        let builder = LayoutGraphBuilder::new();
        let full_graph = builder.build(schema);
        self.extract(&full_graph, focus)
    }

    /// Build a new graph containing only the included nodes and their edges.
    pub fn build_focused_graph(&self, graph: &LayoutGraph, included: &BTreeSet<usize>) -> (r: Result<
        LayoutGraph,
        FocusError,
    >)
        requires
            graph.indices_in_range(),
            forall|i: usize| #[trigger] included@.contains(i) ==> i < graph.nodes@.len(),
        ensures
            match first_unresolved(*graph, 0) {
                Some(k) => r is Err && reports_edge(*graph, graph.edges@[k], r->Err_0),
                None => r is Ok && focused_on(*graph, included@, r->Ok_0),
            },
    {
        proof {
            lemma_usize_ordered();
        }
        let mut nodes: Vec<LayoutNode> = Vec::new();
        for i in 0..graph.nodes.len()
            invariant
                usize_ordered(),
                nodes_model(nodes@) == kept_nodes(nodes_model(graph.nodes@), included@, i as int),
        {
            if included.contains(&i) {
                let mut node = graph.nodes[i].clone();
                node.group_index = None;
                proof {
                    assert(node.model() == without_group(nodes_model(graph.nodes@)[i as int]));
                    assert(nodes_model(nodes@.push(node)) =~= nodes_model(nodes@).push(node.model()));
                }
                nodes.push(node);
            }
        }
        let ends = match resolve_edges(graph) {
            Ok(ends) => ends,
            Err(e) => {
                return Err(e);
            },
        };
        let mut edges: Vec<LayoutEdge> = Vec::new();
        for k in 0..graph.edges.len()
            invariant
                usize_ordered(),
                ends_of(*graph, ends@),
                edges_model(edges@) == kept_edges(*graph, included@, k as int),
        {
            let (a, b) = ends[k];
            if included.contains(&a) && included.contains(&b) {
                let edge = graph.edges[k].clone();
                proof {
                    assert(edge.model() == graph.edges@[k as int].model());
                    assert(edges_model(edges@.push(edge)) =~= edges_model(edges@).push(edge.model()));
                }
                edges.push(edge);
            }
        }
        let node_index = index_nodes(&nodes);
        let reverse_index = ids_of(&nodes);
        Ok(LayoutGraph { nodes, edges, groups: Vec::new(), node_index, reverse_index })
    }
}

/// The focus target of `name` in `graph`.
fn find_target(graph: &LayoutGraph, name: &str) -> (r: Option<usize>)
    requires
        graph.indices_in_range(),
    ensures
        r == focus_target(*graph, name@),
        r matches Some(i) ==> i < graph.nodes@.len(),
{
    proof {
        lemma_index_of_in_range(graph, name@);
    }
    match graph.node_index.get(name) {
        Some(i) => Some(i),
        None => {
            let wanted = name.to_owned();
            for i in 0..graph.nodes.len()
                invariant
                    wanted@ == name@,
                    graph.index_of(name@) is None,
                    first_named(graph.nodes@, name@, 0) == first_named(graph.nodes@, name@, i as int),
            {
                if graph.nodes[i].table_name == wanted || graph.nodes[i].label == wanted {
                    proof {
                        assert(first_named(graph.nodes@, name@, i as int) == Some(i));
                    }
                    return Some(i);
                }
            }
            None
        },
    }
}

/// `usize` values compare as integers do.
pub open spec fn usize_ordered() -> bool {
    vstd::laws_cmp::obeys_cmp::<usize>()
}

/// `usize` keys order as integers do.
proof fn lemma_usize_ordered()
    ensures
        usize_ordered(),
{
    broadcast use vstd::laws_cmp::group_laws_cmp;
}

/// A deeper focus keeps every node of a shallower one.
pub proof fn lemma_within_grows(g: LayoutGraph, t: usize, i: usize, d: nat, e: nat)
    requires
        d <= e,
        within(g, t, i, d),
    ensures
        within(g, t, i, e),
    decreases e - d,
{
    if d < e {
        lemma_within_grows(g, t, i, d, (e - 1) as nat);
    }
}

/// At depth zero a focus keeps the target alone.
pub proof fn lemma_within_zero(g: LayoutGraph, t: usize)
    requires
        t < g.nodes@.len(),
    ensures
        within_set(g, t, 0) =~= set![t],
{
}

} // verus!
