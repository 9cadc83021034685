//! Clusters of a layout graph: its weakly connected components, where the
//! members of one group also count as connected, so that packing never
//! splits a group container across clusters.

use vstd::prelude::*;

use crate::graph::{lemma_index_of_in_range, LayoutGraph};
use crate::tally::{lemma_tally_bound, lemma_tally_remove, tally};

verus! {

/// Edge `k` is no self-loop and joins the distinct nodes `a` and `b`, in either direction.
pub open spec fn edge_joins(g: LayoutGraph, k: int, a: usize, b: usize) -> bool {
    let f = g.index_of(g.edges@[k].from@);
    let t = g.index_of(g.edges@[k].to@);
    &&& !g.edges@[k].is_self_loop
    &&& a != b
    &&& (f == Some(a) && t == Some(b)) || (f == Some(b) && t == Some(a))
}

/// One of the first `k` edges joins `a` and `b`.
pub open spec fn edge_link_upto(g: LayoutGraph, a: usize, b: usize, k: int) -> bool {
    exists|q: int| 0 <= q < k && #[trigger] edge_joins(g, q, a, b)
}

/// Some edge joins `a` and `b`.
pub open spec fn edge_link(g: LayoutGraph, a: usize, b: usize) -> bool {
    edge_link_upto(g, a, b, g.edges@.len() as int)
}

/// Group `j` lists `a` first and `b` at position `p >= 1`, or the other way
/// round, both nodes of the graph.
pub open spec fn group_joins(g: LayoutGraph, j: int, p: int, a: usize, b: usize) -> bool {
    let members = g.groups@[j].node_indices@;
    &&& 1 <= p < members.len()
    &&& members[0] < g.nodes@.len()
    &&& members[p] < g.nodes@.len()
    &&& (members[0] == a && members[p] == b) || (members[0] == b && members[p] == a)
}

/// One of the first `j` groups, or group `j` before position `p`, joins `a` and `b`.
pub open spec fn group_link_upto(g: LayoutGraph, a: usize, b: usize, j: int, p: int) -> bool {
    exists|jj: int, r: int| ((0 <= jj < j) || (jj == j && r < p)) && #[trigger] group_joins(g, jj, r, a, b)
}

/// Some group joins `a` and `b`.
pub open spec fn group_link(g: LayoutGraph, a: usize, b: usize) -> bool {
    group_link_upto(g, a, b, g.groups@.len() as int, 0)
}

/// Nodes `a` and `b` are linked by an edge or a group.
pub open spec fn linked(g: LayoutGraph, a: usize, b: usize) -> bool {
    edge_link(g, a, b) || group_link(g, a, b)
}

/// A set of nodes that no link leaves.
pub open spec fn closed(g: LayoutGraph, s: Set<usize>) -> bool {
    forall|a: usize, b: usize| #[trigger] linked(g, a, b) ==> (s.contains(a) <==> s.contains(b))
}

/// `b` is in the connected component of `a`: every set of nodes that no
/// link leaves and that holds `a` holds `b`.
pub open spec fn connected(g: LayoutGraph, a: usize, b: usize) -> bool {
    forall|s: Set<usize>| #[trigger] closed(g, s) && s.contains(a) ==> s.contains(b)
}

/// Connection is symmetric.
pub proof fn lemma_connected_symmetric(g: LayoutGraph, a: usize, b: usize)
    requires
        connected(g, a, b),
    ensures
        connected(g, b, a),
{
    assert forall|s: Set<usize>| #[trigger] closed(g, s) && s.contains(b) implies s.contains(a) by {
        if !s.contains(a) {
            let c = Set::new(|x: usize| !s.contains(x));
            assert(closed(g, c));
            assert(c.contains(a));
        }
    }
}

/// Connection is transitive.
pub proof fn lemma_connected_transitive(g: LayoutGraph, a: usize, b: usize, c: usize)
    requires
        connected(g, a, b),
        connected(g, b, c),
    ensures
        connected(g, a, c),
{
}

/// Linked nodes are connected.
proof fn lemma_linked_connected(g: LayoutGraph, a: usize, b: usize)
    requires
        linked(g, a, b),
    ensures
        connected(g, a, b),
{
}

/// The pairs of node indices each link joins, in both directions.
pub open spec fn pairs_cover_links(g: LayoutGraph, pairs: Seq<(usize, usize)>) -> bool {
    &&& forall|p: int| 0 <= p < pairs.len() ==> #[trigger] linked(g, pairs[p].0, pairs[p].1)
    &&& forall|p: int| 0 <= p < pairs.len() ==> (#[trigger] pairs[p]).0 < g.nodes@.len() && pairs[p].1 < g.nodes@.len()
    &&& forall|a: usize, b: usize| #[trigger] linked(g, a, b) ==> exists|p: int| 0 <= p < pairs.len() && #[trigger] pairs[p] == (a, b)
}

/// The node indices of edge `k`, when it is no self-loop and joins two
/// distinct indexed nodes.
pub open spec fn resolved_edge(g: LayoutGraph, k: int) -> Option<(usize, usize)> {
    let f = g.index_of(g.edges@[k].from@);
    let t = g.index_of(g.edges@[k].to@);
    if !g.edges@[k].is_self_loop && f is Some && t is Some && f->0 != t->0 {
        Some((f->0, t->0))
    } else {
        None
    }
}

/// The node indices of the first `k` edges that resolve, in edge order.
pub open spec fn resolved_edges(g: LayoutGraph, k: int) -> Seq<(usize, usize)>
    decreases k,
{
    if k <= 0 {
        Seq::empty()
    } else {
        let before = resolved_edges(g, k - 1);
        match resolved_edge(g, k - 1) {
            Some(p) => before.push(p),
            None => before,
        }
    }
}

/// Each resolved pair comes from one of the first `k` edges, and each of
/// them that resolves gives a pair.
proof fn lemma_resolved_edges_members(g: LayoutGraph, k: int)
    requires
        0 <= k,
    ensures
        forall|i: int|
            0 <= i < resolved_edges(g, k).len() ==> exists|q: int|
                0 <= q < k && resolved_edge(g, q) == Some(#[trigger] resolved_edges(g, k)[i]),
        forall|q: int|
            0 <= q < k && (#[trigger] resolved_edge(g, q)) is Some ==> exists|i: int|
                0 <= i < resolved_edges(g, k).len() && #[trigger] resolved_edges(g, k)[i] == resolved_edge(g, q)->0,
    decreases k,
{
    if k > 0 {
        lemma_resolved_edges_members(g, k - 1);
        let before = resolved_edges(g, k - 1);
        let now = resolved_edges(g, k);
        assert forall|i: int| 0 <= i < now.len() implies exists|q: int|
            0 <= q < k && resolved_edge(g, q) == Some(#[trigger] now[i]) by {
            if i < before.len() {
                assert(now[i] == before[i]);
                let q = choose|q: int| 0 <= q < k - 1 && resolved_edge(g, q) == Some(#[trigger] before[i]);
                assert(resolved_edge(g, q) == Some(now[i]));
            } else {
                assert(resolved_edge(g, k - 1) == Some(now[i]));
            }
        }
        assert forall|q: int| 0 <= q < k && (#[trigger] resolved_edge(g, q)) is Some implies exists|i: int|
            0 <= i < now.len() && #[trigger] now[i] == resolved_edge(g, q)->0 by {
            if q < k - 1 {
                let i = choose|i: int| 0 <= i < before.len() && #[trigger] before[i] == resolved_edge(g, q)->0;
                assert(now[i] == before[i]);
            } else {
                assert(now[before.len() as int] == resolved_edge(g, q)->0);
            }
        }
    }
}

/// Resolved `(from, to)` node indices of every edge that is no self-loop
/// and joins two distinct indexed nodes, in edge order.
fn graph_edges(graph: &LayoutGraph) -> (out: Vec<(usize, usize)>)
    requires
        graph.indices_in_range(),
    ensures
        out@ == resolved_edges(*graph, graph.edges@.len() as int),
        forall|i: int| 0 <= i < out@.len() ==> (#[trigger] out@[i]).0 < graph.nodes@.len() && out@[i].1 < graph.nodes@.len(),
{
    let mut out: Vec<(usize, usize)> = Vec::new();
    for k in 0..graph.edges.len()
        invariant
            graph.indices_in_range(),
            out@ == resolved_edges(*graph, k as int),
            forall|i: int| 0 <= i < out@.len() ==> (#[trigger] out@[i]).0 < graph.nodes@.len() && out@[i].1 < graph.nodes@.len(),
    {
        let edge = &graph.edges[k];
        proof {
            lemma_index_of_in_range(graph, edge.from@);
            lemma_index_of_in_range(graph, edge.to@);
        }
        if !edge.is_self_loop {
            match (graph.node_index.get(edge.from.as_str()), graph.node_index.get(edge.to.as_str())) {
                (Some(from), Some(to)) => {
                    if from != to {
                        out.push((from, to));
                    }
                },
                _ => {},
            }
        }
    }
    out
}

/// Both orders of a pair.
fn push_both(pairs: &mut Vec<(usize, usize)>, a: usize, b: usize)
    ensures
        final(pairs)@ == old(pairs)@.push((a, b)).push((b, a)),
{
    pairs.push((a, b));
    pairs.push((b, a));
}

/// A resolved edge links its two nodes, both ways.
proof fn lemma_resolved_links(g: LayoutGraph, q: int)
    requires
        0 <= q < g.edges@.len(),
    ensures
        match resolved_edge(g, q) {
            Some(p) => edge_link(g, p.0, p.1) && edge_link(g, p.1, p.0),
            None => true,
        },
{
    if let Some(p) = resolved_edge(g, q) {
        assert(edge_joins(g, q, p.0, p.1));
        assert(edge_joins(g, q, p.1, p.0));
    }
}

/// An edge link comes from an edge that resolves, in one direction or the
/// other.
proof fn lemma_link_resolved(g: LayoutGraph, a: usize, b: usize)
    requires
        edge_link(g, a, b),
    ensures
        exists|q: int|
            0 <= q < g.edges@.len() && (#[trigger] resolved_edge(g, q) == Some((a, b)) || resolved_edge(g, q) == Some(
                (b, a),
            )),
{
    let q = choose|q: int| 0 <= q < g.edges@.len() && #[trigger] edge_joins(g, q, a, b);
    assert(resolved_edge(g, q) == Some((a, b)) || resolved_edge(g, q) == Some((b, a)));
}

/// Pushing two pairs keeps what was there and adds both.
proof fn lemma_push_both_contains(before: Seq<(usize, usize)>, x: (usize, usize), y: (usize, usize))
    ensures
        forall|z: (usize, usize)| #[trigger] before.contains(z) ==> before.push(x).push(y).contains(z),
        before.push(x).push(y).contains(x),
        before.push(x).push(y).contains(y),
{
    let after = before.push(x).push(y);
    assert forall|z: (usize, usize)| #[trigger] before.contains(z) implies after.contains(z) by {
        let i = choose|i: int| 0 <= i < before.len() && before[i] == z;
        assert(after[i] == z);
    }
    assert(after[before.len() as int] == x);
    assert(after[before.len() as int + 1] == y);
}

/// The pairs of node indices that edges link, both directions.
fn edge_link_pairs(graph: &LayoutGraph) -> (pairs: Vec<(usize, usize)>)
    requires
        graph.indices_in_range(),
    ensures
        forall|p: int| 0 <= p < pairs@.len() ==> #[trigger] linked(*graph, pairs@[p].0, pairs@[p].1),
        forall|p: int|
            0 <= p < pairs@.len() ==> (#[trigger] pairs@[p]).0 < graph.nodes@.len() && pairs@[p].1 < graph.nodes@.len(),
        forall|a: usize, b: usize|
            #[trigger] edge_link(*graph, a, b) ==> exists|p: int| 0 <= p < pairs@.len() && #[trigger] pairs@[p] == (a, b),
{
    let mut pairs: Vec<(usize, usize)> = Vec::new();
    let ends = graph_edges(graph);
    proof {
        lemma_resolved_edges_members(*graph, graph.edges@.len() as int);
        assert forall|i: int| 0 <= i < ends@.len() implies edge_link(*graph, (#[trigger] ends@[i]).0, ends@[i].1)
            && edge_link(*graph, ends@[i].1, ends@[i].0) by {
            let q = choose|q: int| 0 <= q < graph.edges@.len() && resolved_edge(*graph, q) == Some(ends@[i]);
            lemma_resolved_links(*graph, q);
        }
    }
    let mut k: usize = 0;
    while k < ends.len()
        invariant
            k <= ends@.len(),
            forall|i: int| 0 <= i < ends@.len() ==> (#[trigger] ends@[i]).0 < graph.nodes@.len() && ends@[i].1 < graph.nodes@.len(),
            forall|i: int|
                0 <= i < ends@.len() ==> edge_link(*graph, (#[trigger] ends@[i]).0, ends@[i].1) && edge_link(
                    *graph,
                    ends@[i].1,
                    ends@[i].0,
                ),
            forall|p: int| 0 <= p < pairs@.len() ==> #[trigger] linked(*graph, pairs@[p].0, pairs@[p].1),
            forall|p: int|
                0 <= p < pairs@.len() ==> (#[trigger] pairs@[p]).0 < graph.nodes@.len() && pairs@[p].1 < graph.nodes@.len(),
            forall|i: int|
                0 <= i < k ==> pairs@.contains(#[trigger] ends@[i]) && pairs@.contains((ends@[i].1, ends@[i].0)),
        decreases ends@.len() - k,
    {
        let ghost before = pairs@;
        let (from, to) = ends[k];
        push_both(&mut pairs, from, to);
        proof {
            lemma_push_both_contains(before, (from, to), (to, from));
            assert(ends@[k as int] == (from, to));
        }
        k = k + 1;
    }
    proof {
        lemma_resolved_edges_members(*graph, graph.edges@.len() as int);
        assert forall|a: usize, b: usize| #[trigger] edge_link(*graph, a, b) implies exists|p: int|
            0 <= p < pairs@.len() && #[trigger] pairs@[p] == (a, b) by {
            lemma_link_resolved(*graph, a, b);
            let q = choose|q: int|
                0 <= q < graph.edges@.len() && (#[trigger] resolved_edge(*graph, q) == Some((a, b)) || resolved_edge(
                    *graph,
                    q,
                ) == Some((b, a)));
            let i = choose|i: int| 0 <= i < ends@.len() && #[trigger] ends@[i] == resolved_edge(*graph, q)->0;
            assert(pairs@.contains(ends@[i]) && pairs@.contains((ends@[i].1, ends@[i].0)));
            assert(pairs@.contains((a, b)));
        }
    }
    pairs
}

/// The pairs of node indices that edges and groups link, both directions.
fn link_pairs(graph: &LayoutGraph) -> (pairs: Vec<(usize, usize)>)
    requires
        graph.indices_in_range(),
    ensures
        pairs_cover_links(*graph, pairs@),
{
    let mut pairs = edge_link_pairs(graph);
    let mut j: usize = 0;
    while j < graph.groups.len()
        invariant
            j <= graph.groups@.len(),
            graph.indices_in_range(),
            forall|p: int| 0 <= p < pairs@.len() ==> #[trigger] linked(*graph, pairs@[p].0, pairs@[p].1),
            forall|p: int|
                0 <= p < pairs@.len() ==> (#[trigger] pairs@[p]).0 < graph.nodes@.len() && pairs@[p].1 < graph.nodes@.len(),
            forall|a: usize, b: usize|
                #[trigger] edge_link(*graph, a, b) ==> exists|p: int| 0 <= p < pairs@.len() && #[trigger] pairs@[p] == (a, b),
            forall|a: usize, b: usize|
                #[trigger] group_link_upto(*graph, a, b, j as int, 0) ==> exists|p: int|
                    0 <= p < pairs@.len() && #[trigger] pairs@[p] == (a, b),
        decreases graph.groups@.len() - j,
    {
        let members = &graph.groups[j].node_indices;
        let n = graph.nodes.len();
        let mut p: usize = 1;
        proof {
            assert forall|a: usize, b: usize| #[trigger] group_link_upto(*graph, a, b, j as int, 1) implies exists|q: int|
                0 <= q < pairs@.len() && #[trigger] pairs@[q] == (a, b) by {
                let (jj, r) = choose|jj: int, r: int|
                    ((0 <= jj < j) || (jj == j && r < 1)) && #[trigger] group_joins(*graph, jj, r, a, b);
                assert(group_link_upto(*graph, a, b, j as int, 0));
            }
        }
        while p < members.len()
            invariant
                graph.indices_in_range(),
                n == graph.nodes@.len(),
                j < graph.groups@.len(),
                members@ == graph.groups@[j as int].node_indices@,
                1 <= p,
                forall|q: int| 0 <= q < pairs@.len() ==> #[trigger] linked(*graph, pairs@[q].0, pairs@[q].1),
                forall|q: int|
                    0 <= q < pairs@.len() ==> (#[trigger] pairs@[q]).0 < graph.nodes@.len() && pairs@[q].1 < graph.nodes@.len(),
                forall|a: usize, b: usize|
                    #[trigger] edge_link(*graph, a, b) ==> exists|q: int| 0 <= q < pairs@.len() && #[trigger] pairs@[q] == (a, b),
                forall|a: usize, b: usize|
                    #[trigger] group_link_upto(*graph, a, b, j as int, p as int) ==> exists|q: int|
                        0 <= q < pairs@.len() && #[trigger] pairs@[q] == (a, b),
            decreases members@.len() - p,
        {
            let ghost before = pairs@;
            let first = members[0];
            let member = members[p];
            if first < n && member < n {
                proof {
                    assert(group_joins(*graph, j as int, p as int, first, member));
                    assert(group_joins(*graph, j as int, p as int, member, first));
                    assert(group_link_upto(*graph, first, member, graph.groups@.len() as int, 0));
                    assert(group_link_upto(*graph, member, first, graph.groups@.len() as int, 0));
                }
                push_both(&mut pairs, first, member);
            }
            proof {
                assert forall|q: int| 0 <= q < before.len() implies pairs@[q] == before[q] by {}
                assert forall|a: usize, b: usize| #[trigger] group_link_upto(*graph, a, b, j as int, p + 1) implies exists|q: int|
                    0 <= q < pairs@.len() && #[trigger] pairs@[q] == (a, b) by {
                    let (jj, r) = choose|jj: int, r: int|
                        ((0 <= jj < j) || (jj == j && r < p + 1)) && #[trigger] group_joins(*graph, jj, r, a, b);
                    if jj == j && r == p {
                        let m = pairs@.len();
                        if pairs@[m - 2] != (a, b) {
                            assert(pairs@[m - 1] == (a, b));
                        }
                    } else {
                        assert(group_link_upto(*graph, a, b, j as int, p as int));
                        let q = choose|q: int| 0 <= q < before.len() && #[trigger] before[q] == (a, b);
                        assert(pairs@[q] == before[q]);
                    }
                }
            }
            p = p + 1;
        }
        proof {
            assert forall|a: usize, b: usize| #[trigger] group_link_upto(*graph, a, b, j + 1, 0) implies exists|q: int|
                0 <= q < pairs@.len() && #[trigger] pairs@[q] == (a, b) by {
                let (jj, r) = choose|jj: int, r: int|
                    ((0 <= jj < j + 1) || (jj == j + 1 && r < 0)) && #[trigger] group_joins(*graph, jj, r, a, b);
                assert(group_link_upto(*graph, a, b, j as int, p as int));
            }
        }
        j = j + 1;
    }
    pairs
}

/// One for a marked entry, zero for an unmarked one.
pub open spec fn mark_count(b: bool) -> nat {
    if b {
        1
    } else {
        0
    }
}

/// Marking an unmarked entry adds one to the count of marks.
proof fn lemma_mark_one(v: Seq<bool>, i: int)
    requires
        0 <= i < v.len(),
        !v[i],
    ensures
        tally(v.update(i, true), |b: bool| mark_count(b)) == tally(v, |b: bool| mark_count(b)) + 1,
        tally(v.update(i, true), |b: bool| mark_count(b)) <= v.len(),
{
    let f = |b: bool| mark_count(b);
    lemma_tally_remove(v, i, f);
    lemma_tally_remove(v.update(i, true), i, f);
    assert(v.update(i, true).remove(i) =~= v.remove(i));
    assert forall|q: int| 0 <= q < v.update(i, true).len() implies f(#[trigger] v.update(i, true)[q]) <= 1 by {}
    lemma_tally_bound(v.update(i, true), f, 1);
}

/// Linked nodes are linked both ways.
proof fn lemma_linked_symmetric(g: LayoutGraph, a: usize, b: usize)
    requires
        linked(g, a, b),
    ensures
        linked(g, b, a),
{
    if edge_link(g, a, b) {
        let q = choose|q: int| 0 <= q < g.edges@.len() && #[trigger] edge_joins(g, q, a, b);
        assert(edge_joins(g, q, b, a));
    } else {
        let (jj, r) = choose|jj: int, r: int|
            ((0 <= jj < g.groups@.len()) || (jj == g.groups@.len() && r < 0)) && #[trigger] group_joins(g, jj, r, a, b);
        assert(group_joins(g, jj, r, b, a));
    }
}

/// Which nodes are connected to `s`: marks spread along the pairs until no
/// pair carries a mark to an unmarked node.
fn component_of(graph: &LayoutGraph, pairs: &Vec<(usize, usize)>, s: usize) -> (marked: Vec<bool>)
    requires
        pairs_cover_links(*graph, pairs@),
        s < graph.nodes@.len(),
    ensures
        marked@.len() == graph.nodes@.len(),
        forall|i: int| 0 <= i < marked@.len() ==> #[trigger] marked@[i] == connected(*graph, s, i as usize),
{
    let n = graph.nodes.len();
    let mut marked: Vec<bool> = Vec::new();
    for i in 0..n
        invariant
            marked@.len() == i,
            forall|q: int| 0 <= q < i ==> !#[trigger] marked@[q],
    {
        marked.push(false);
    }
    proof {
        assert(tally(marked@, |b: bool| mark_count(b)) == 0) by {
            crate::tally::lemma_tally_agree(marked@, |b: bool| mark_count(b), |b: bool| 0nat);
            crate::tally::lemma_tally_bound(marked@, |b: bool| 0nat, 0);
        }
        lemma_mark_one(marked@, s as int);
    }
    marked.set(s, true);
    let ghost mut count: nat = 1;
    loop
        invariant_except_break
            count <= n,
        invariant
            n == graph.nodes@.len(),
            s < n,
            pairs_cover_links(*graph, pairs@),
            marked@.len() == n,
            marked@[s as int],
            count == tally(marked@, |b: bool| mark_count(b)),
            forall|i: int| 0 <= i < n && #[trigger] marked@[i] ==> connected(*graph, s, i as usize),
        ensures
            forall|p: int| 0 <= p < pairs@.len() && #[trigger] marked@[pairs@[p].0 as int] ==> marked@[pairs@[p].1 as int],
        decreases n - count,
    {
        let ghost start = count;
        let mut changed = false;
        for p in 0..pairs.len()
            invariant
                n == graph.nodes@.len(),
                s < n,
                pairs_cover_links(*graph, pairs@),
                marked@.len() == n,
                marked@[s as int],
                count == tally(marked@, |b: bool| mark_count(b)),
                count <= n,
                changed ==> count > start,
                !changed ==> count == start,
                forall|i: int| 0 <= i < n && #[trigger] marked@[i] ==> connected(*graph, s, i as usize),
                !changed ==> forall|q: int|
                    0 <= q < p && #[trigger] marked@[pairs@[q].0 as int] ==> marked@[pairs@[q].1 as int],
        {
            let (a, b) = pairs[p];
            proof {
                assert(pairs@[p as int].0 < n && pairs@[p as int].1 < n);
            }
            if marked[a] && !marked[b] {
                proof {
                    assert(linked(*graph, a, b));
                    lemma_linked_connected(*graph, a, b);
                    lemma_connected_transitive(*graph, s, a, b);
                    lemma_mark_one(marked@, b as int);
                    count = count + 1;
                }
                marked.set(b, true);
                changed = true;
            }
        }
        if !changed {
            break;
        }
    }
    proof {
        let set = Set::new(|i: usize| i < n && marked@[i as int]);
        assert(closed(*graph, set)) by {
            assert forall|a: usize, b: usize| #[trigger] linked(*graph, a, b) implies (set.contains(a) <==> set.contains(b)) by {
                lemma_linked_symmetric(*graph, a, b);
                let p = choose|p: int| 0 <= p < pairs@.len() && #[trigger] pairs@[p] == (a, b);
                let q = choose|q: int| 0 <= q < pairs@.len() && #[trigger] pairs@[q] == (b, a);
                assert(pairs@[p].0 < n && pairs@[q].0 < n);
                if marked@[a as int] {
                    assert(marked@[pairs@[p].0 as int]);
                }
                if marked@[b as int] {
                    assert(marked@[pairs@[q].0 as int]);
                }
            }
        }
        assert forall|i: int| 0 <= i < marked@.len() implies #[trigger] marked@[i] == connected(*graph, s, i as usize) by {
            if connected(*graph, s, i as usize) {
                assert(set.contains(s));
                assert(set.contains(i as usize));
            }
        }
    }
    marked
}

/// `members` holds every node labelled `d`.
pub open spec fn covers(members: Seq<usize>, label: Seq<usize>, d: int) -> bool {
    forall|i: int| 0 <= i < label.len() && label[i] == d ==> members.contains(i as usize)
}

/// Node `i` is a member of some component of `out`.
pub open spec fn listed(out: Seq<Seq<usize>>, i: usize) -> bool {
    exists|c: int, p: int| 0 <= c < out.len() && 0 <= p < out[c].len() && #[trigger] out[c][p] == i
}

/// `out` lists the connected components of the graph's nodes: every node in
/// exactly one component, each component in increasing order, components by
/// their smallest node.
pub open spec fn components_listed(g: LayoutGraph, out: Seq<Seq<usize>>) -> bool {
    &&& forall|c: int| 0 <= c < out.len() ==> (#[trigger] out[c]).len() > 0
    &&& forall|c: int, p: int| 0 <= c < out.len() && 0 <= p < out[c].len() ==> #[trigger] out[c][p] < g.nodes@.len()
    &&& forall|c: int, p: int, q: int|
        0 <= c < out.len() && 0 <= p < q < out[c].len() ==> #[trigger] out[c][p] < #[trigger] out[c][q]
    &&& forall|c: int, d: int| 0 <= c < d < out.len() ==> #[trigger] out[c][0] < #[trigger] out[d][0]
    &&& forall|i: usize| i < g.nodes@.len() ==> #[trigger] listed(out, i)
    &&& forall|c: int, p: int, d: int, q: int|
        0 <= c < out.len() && 0 <= p < out[c].len() && 0 <= d < out.len() && 0 <= q < out[d].len() ==> (connected(
            g,
            #[trigger] out[c][p],
            #[trigger] out[d][q],
        ) <==> c == d)
}

/// Labels every node with the index of its component, components numbered
/// by their smallest node; also returns that smallest node of each.
fn label_components(graph: &LayoutGraph) -> (r: (Vec<usize>, usize, Ghost<Seq<usize>>))
    requires
        graph.indices_in_range(),
    ensures
        r.0@.len() == graph.nodes@.len(),
        r.1 == r.2@.len(),
        forall|i: int| 0 <= i < r.0@.len() ==> #[trigger] r.0@[i] < r.2@.len(),
        forall|c: int| 0 <= c < r.2@.len() ==> #[trigger] r.2@[c] < graph.nodes@.len() && r.0@[r.2@[c] as int] == c,
        forall|c: int, d: int| 0 <= c < d < r.2@.len() ==> #[trigger] r.2@[c] < #[trigger] r.2@[d],
        forall|c: int, i: int|
            #![trigger r.0@[i], r.2@[c]]
            0 <= c < r.2@.len() && 0 <= i < r.0@.len() && r.0@[i] == c ==> r.2@[c] <= i,
        forall|c: int, i: int|
            0 <= c < r.2@.len() && 0 <= i < r.0@.len() ==> (#[trigger] r.0@[i] == c <==> connected(*graph, #[trigger] r.2@[c], i as usize)),
{
    let n = graph.nodes.len();
    let pairs = link_pairs(graph);
    let mut label: Vec<usize> = Vec::new();
    for i in 0..n
        invariant
            label@.len() == i,
            forall|q: int| 0 <= q < i ==> #[trigger] label@[q] == usize::MAX,
    {
        label.push(usize::MAX);
    }
    let mut count: usize = 0;
    let ghost mut firsts: Seq<usize> = Seq::empty();
    let mut s: usize = 0;
    while s < n
        invariant
            n == graph.nodes@.len(),
            pairs_cover_links(*graph, pairs@),
            s <= n,
            label@.len() == n,
            count == firsts.len(),
            count <= s,
            forall|i: int| 0 <= i < n ==> #[trigger] label@[i] == usize::MAX || label@[i] < count,
            forall|i: int| 0 <= i < s ==> #[trigger] label@[i] < count,
            forall|c: int| 0 <= c < count ==> #[trigger] firsts[c] < s && label@[firsts[c] as int] == c,
            forall|c: int, d: int| 0 <= c < d < count ==> #[trigger] firsts[c] < #[trigger] firsts[d],
            forall|c: int, i: int|
                #![trigger label@[i], firsts[c]]
                0 <= c < count && 0 <= i < n && label@[i] == c ==> firsts[c] <= i,
            forall|c: int, i: int|
                0 <= c < count && 0 <= i < n ==> (#[trigger] label@[i] == c <==> connected(*graph, #[trigger] firsts[c], i as usize)),
        decreases n - s,
    {
        if label[s] == usize::MAX {
            let marked = component_of(graph, &pairs, s);
            proof {
                assert forall|i: int| 0 <= i < n && #[trigger] marked@[i] implies label@[i] == usize::MAX by {
                    if label@[i] != usize::MAX {
                        let c = label@[i] as int;
                        assert(connected(*graph, firsts[c], i as usize));
                        lemma_connected_symmetric(*graph, s, i as usize);
                        lemma_connected_transitive(*graph, firsts[c], i as usize, s);
                        assert(label@[s as int] == c);
                    }
                }
            }
            let ghost old_label = label@;
            for i in 0..n
                invariant
                    n == graph.nodes@.len(),
                    label@.len() == n,
                    marked@.len() == n,
                    forall|q: int| 0 <= q < n ==> #[trigger] label@[q] == if q < i && marked@[q] {
                        count
                    } else {
                        old_label[q]
                    },
            {
                if marked[i] {
                    label.set(i, count);
                }
            }
            proof {
                let c = count as int;
                assert forall|d: int, i: int| 0 <= d < c && 0 <= i < n implies (#[trigger] label@[i] == d <==> connected(
                    *graph,
                    #[trigger] firsts[d],
                    i as usize,
                )) by {
                    if marked@[i] {
                        assert(old_label[i] == usize::MAX);
                        if connected(*graph, firsts[d], i as usize) {
                            lemma_connected_symmetric(*graph, s, i as usize);
                            lemma_connected_transitive(*graph, firsts[d], i as usize, s);
                            assert(old_label[firsts[d] as int] == d);
                            assert(old_label[s as int] == d);
                        }
                    } else {
                        assert(label@[i] == old_label[i]);
                    }
                }
                assert forall|i: int| 0 <= i < n implies (#[trigger] label@[i] == c <==> connected(*graph, s, i as usize)) by {
                    if !marked@[i] {
                        assert(old_label[i] == usize::MAX || old_label[i] < c);
                    }
                }
                assert forall|i: int| 0 <= i < n && #[trigger] label@[i] == c implies s <= i by {
                    if i < s {
                        assert(old_label[i] < c);
                        assert(!marked@[i]);
                    }
                }
                assert(marked@[s as int]) by {
                    assert(connected(*graph, s, s));
                }
                firsts = firsts.push(s);
            }
            count = count + 1;
        }
        s = s + 1;
    }
    (label, count, Ghost(firsts))
}

/// The graph's clusters: weakly connected components, members of one group
/// counting as connected; in order of their smallest node, members ascending.
pub fn clusters(graph: &LayoutGraph) -> (out: Vec<Vec<usize>>)
    requires
        graph.indices_in_range(),
    ensures
        components_listed(*graph, out@.map_values(|v: Vec<usize>| v@)),
{
    let n = graph.nodes.len();
    let (label, count, Ghost(firsts)) = label_components(graph);
    let mut out: Vec<Vec<usize>> = Vec::new();
    let mut c: usize = 0;
    while c < count
        invariant
            c <= count,
            n == graph.nodes@.len(),
            label@.len() == n,
            count == firsts.len(),
            out@.len() == c,
            forall|i: int| 0 <= i < n ==> #[trigger] label@[i] < firsts.len(),
            forall|d: int| 0 <= d < firsts.len() ==> #[trigger] firsts[d] < n && label@[firsts[d] as int] == d,
            forall|d: int, i: int|
                #![trigger label@[i], firsts[d]]
                0 <= d < firsts.len() && 0 <= i < n && label@[i] == d ==> firsts[d] <= i,
            forall|d: int| 0 <= d < c ==> (#[trigger] out@[d])@.len() > 0 && out@[d]@[0] == firsts[d],
            forall|d: int, p: int| 0 <= d < c && 0 <= p < out@[d]@.len() ==> #[trigger] out@[d]@[p] < n && label@[out@[d]@[p] as int] == d,
            forall|d: int, p: int, q: int| 0 <= d < c && 0 <= p < q < out@[d]@.len() ==> #[trigger] out@[d]@[p] < #[trigger] out@[d]@[q],
            forall|d: int| 0 <= d < c ==> covers(#[trigger] out@[d]@, label@, d),
        decreases count - c,
    {
        let mut members: Vec<usize> = Vec::new();
        let mut i: usize = 0;
        while i < n
            invariant
                i <= n,
                c < count,
                count == firsts.len(),
                n == graph.nodes@.len(),
                label@.len() == n,
                forall|p: int| 0 <= p < members@.len() ==> #[trigger] members@[p] < i && label@[members@[p] as int] == c,
                forall|p: int, q: int| 0 <= p < q < members@.len() ==> #[trigger] members@[p] < #[trigger] members@[q],
                forall|j: int| 0 <= j < i && #[trigger] label@[j] == c ==> exists|p: int| 0 <= p < members@.len() && #[trigger] members@[p] == j,
            decreases n - i,
        {
            if label[i] == c {
                let ghost before = members@;
                members.push(i);
                proof {
                    assert forall|j: int| 0 <= j < i + 1 && #[trigger] label@[j] == c implies exists|p: int|
                        0 <= p < members@.len() && #[trigger] members@[p] == j by {
                        if j < i {
                            let p = choose|p: int| 0 <= p < before.len() && #[trigger] before[p] == j;
                            assert(members@[p] == before[p]);
                        } else {
                            assert(members@[before.len() as int] == j);
                        }
                    }
                }
            }
            i = i + 1;
        }
        proof {
            let f = firsts[c as int];
            assert(label@[f as int] == c);
            let p0 = choose|p: int| 0 <= p < members@.len() && #[trigger] members@[p] == f;
            if p0 > 0 {
                assert(members@[0] < members@[p0]);
                assert(firsts[c as int] <= members@[0]);
            }
        }
        let ghost before = out@;
        out.push(members);
        proof {
            assert forall|d: int| 0 <= d < c + 1 implies (#[trigger] out@[d])@.len() > 0 && out@[d]@[0] == firsts[d] by {
                if d < c {
                    assert(out@[d] == before[d]);
                }
            }
        }
        proof {
            assert(covers(members@, label@, c as int));
            assert forall|d: int| 0 <= d < c + 1 implies covers(#[trigger] out@[d]@, label@, d) by {
                if d < c {
                    assert(out@[d] == before[d]);
                }
            }
        }
        c = c + 1;
    }
    proof {
        let views = out@.map_values(|v: Vec<usize>| v@);
        assert forall|c: int| 0 <= c < views.len() implies (#[trigger] views[c]) == out@[c]@ by {}
        assert forall|i: usize| i < n implies #[trigger] listed(views, i) by {
            let c = label@[i as int] as int;
            assert(covers(out@[c]@, label@, c));
            assert(out@[c]@.contains(i));
            let p = choose|p: int| 0 <= p < out@[c]@.len() && out@[c]@[p] == i;
            assert(views[c][p] == i);
        }
        assert forall|c: int, p: int, d: int, q: int|
            0 <= c < views.len() && 0 <= p < views[c].len() && 0 <= d < views.len() && 0 <= q < views[d].len() implies (connected(
                *graph,
                #[trigger] views[c][p],
                #[trigger] views[d][q],
            ) <==> c == d) by {
            let x = views[c][p];
            let y = views[d][q];
            assert(label@[x as int] == c && label@[y as int] == d);
            assert(connected(*graph, firsts[c], x));
            assert(connected(*graph, firsts[d], y));
            if c == d {
                lemma_connected_symmetric(*graph, firsts[c], x);
                lemma_connected_transitive(*graph, x, firsts[c], y);
            }
            if connected(*graph, x, y) {
                lemma_connected_transitive(*graph, firsts[c], x, y);
                assert(label@[y as int] == c);
            }
        }
        assert forall|c: int, d: int| 0 <= c < d < views.len() implies #[trigger] views[c][0] < #[trigger] views[d][0] by {}
        assert forall|c: int, p: int, q: int| 0 <= c < views.len() && 0 <= p < q < views[c].len() implies #[trigger] views[c][p] < #[trigger] views[c][q] by {}
        assert forall|c: int, p: int| 0 <= c < views.len() && 0 <= p < views[c].len() implies #[trigger] views[c][p] < graph.nodes@.len() by {}
    }
    out
}

} // verus!
