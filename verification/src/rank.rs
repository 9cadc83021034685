//! Rank/layer assignment for hierarchical layout.
//!
//! Foreign keys point from a child table to the parent it references, and the
//! layout places parents above (before) their children. Cyclic references are
//! first broken with a greedy feedback arc set so the remaining graph is a DAG,
//! then every node is assigned the length of the longest parent chain above it.

use std::collections::VecDeque;
use vstd::prelude::*;
use crate::graph::{LayoutGraph, lemma_index_of_in_range};

verus! {

/// Edge `e` of the graph asks for `parent` to be ranked above `child`: it is
/// not flagged as a self-loop, its `from` end resolves to `child`, its `to`
/// end resolves to `parent`, and the two are distinct nodes.
pub open spec fn edge_ranks(graph: &LayoutGraph, e: int, parent: int, child: int) -> bool {
    &&& 0 <= e < graph.edges@.len()
    &&& 0 <= parent <= usize::MAX
    &&& 0 <= child <= usize::MAX
    &&& !graph.edges@[e].is_self_loop
    &&& graph.index_of(graph.edges@[e].from@) == Some(child as usize)
    &&& graph.index_of(graph.edges@[e].to@) == Some(parent as usize)
    &&& child != parent
}

/// Some edge of the graph asks for `parent` to be ranked above `child`.
pub open spec fn ranking_edge(graph: &LayoutGraph, parent: int, child: int) -> bool {
    exists|e: int| #[trigger] edge_ranks(graph, e, parent, child)
}

/// The parent/child relation of the graph is acyclic: some potential over
/// the nodes strictly increases along every ranking edge.
pub open spec fn ranking_acyclic(graph: &LayoutGraph) -> bool {
    exists|f: Seq<int>| #[trigger] potential_increases(graph, f)
}

/// `f` assigns a value to every node and increases from parent to child.
pub open spec fn potential_increases(graph: &LayoutGraph, f: Seq<int>) -> bool {
    f.len() == graph.nodes@.len() && forall|p: int, c: int|
        #[trigger] ranking_edge(graph, p, c) ==> f[p] < f[c]
}

/// The values `c` below `k` with `pred(c)`, in increasing order.
pub open spec fn increasing_below(pred: spec_fn(int) -> bool, k: int) -> Seq<usize>
    decreases k,
{
    if k <= 0 {
        Seq::empty()
    } else if pred(k - 1) {
        increasing_below(pred, k - 1).push((k - 1) as usize)
    } else {
        increasing_below(pred, k - 1)
    }
}

/// For each node, the nodes it must be ranked above, in increasing order.
pub open spec fn child_lists(graph: &LayoutGraph) -> Seq<Seq<usize>> {
    let n = graph.nodes@.len();
    Seq::new(n, |p: int| increasing_below(|c: int| ranking_edge(graph, p, c), n as int))
}

/// For each node, the nodes it must be ranked below, in increasing order.
pub open spec fn parent_lists(graph: &LayoutGraph) -> Seq<Seq<usize>> {
    let n = graph.nodes@.len();
    Seq::new(n, |c: int| increasing_below(|p: int| ranking_edge(graph, p, c), n as int))
}

/// The greedy order of the graph's nodes that decides which edges of a cycle
/// are reversed for ranking.
pub open spec fn ranking_order(graph: &LayoutGraph) -> Seq<usize> {
    greedy_order(child_lists(graph), parent_lists(graph))
}

/// `u` comes before `v` in `order`.
pub open spec fn placed_before(order: Seq<usize>, u: int, v: int) -> bool {
    exists|i: int, j: int| 0 <= i < j < order.len() && order[i] == u && order[j] == v
}

/// A strictly increasing list below `k` is the list of the values below `k`
/// that it holds.
proof fn lemma_increasing_list(list: Seq<usize>, pred: spec_fn(int) -> bool, k: int)
    requires
        0 <= k <= usize::MAX,
        forall|i: int, j: int| 0 <= i < j < list.len() ==> list[i] < list[j],
        forall|i: int| 0 <= i < list.len() ==> list[i] < k,
        forall|c: int| 0 <= c < k ==> (list.contains(c as usize) <==> #[trigger] pred(c)),
    ensures
        list == increasing_below(pred, k),
    decreases k,
{
    if k == 0 {
        if list.len() > 0 {
            assert(list[0] < 0);
        }
        assert(list =~= Seq::<usize>::empty());
    } else if pred(k - 1) {
        assert(list.contains((k - 1) as usize));
        let m = choose|m: int| 0 <= m < list.len() && list[m] == (k - 1) as usize;
        assert(list[list.len() - 1] < k);
        if m < list.len() - 1 {
            assert(list[m] < list[list.len() - 1]);
        }
        assert(m == list.len() - 1);
        assert(list[list.len() - 1] == (k - 1) as usize);
        let rest = list.drop_last();
        assert forall|c: int| 0 <= c < k - 1 implies (rest.contains(c as usize) <==> #[trigger] pred(c)) by {
            if list.contains(c as usize) {
                let q = choose|q: int| 0 <= q < list.len() && list[q] == c as usize;
                assert(q != list.len() - 1);
                assert(rest[q] == c as usize);
            }
            if rest.contains(c as usize) {
                let q = choose|q: int| 0 <= q < rest.len() && rest[q] == c as usize;
                assert(list[q] == c as usize);
            }
        }
        assert forall|i: int| 0 <= i < rest.len() implies rest[i] < k - 1 by {
            assert(list[i] < list[list.len() - 1]);
        }
        lemma_increasing_list(rest, pred, k - 1);
        assert(list =~= rest.push((k - 1) as usize));
    } else {
        assert forall|i: int| 0 <= i < list.len() implies list[i] < k - 1 by {
            if list[i] == k - 1 {
                assert(list.contains((k - 1) as usize));
            }
        }
        lemma_increasing_list(list, pred, k - 1);
    }
}

/// A strictly increasing list of node indices below `n`.
pub open spec fn sorted_nodes(list: Seq<usize>, n: nat) -> bool {
    &&& forall|i: int, j: int| 0 <= i < j < list.len() ==> list[i] < list[j]
    &&& forall|i: int| 0 <= i < list.len() ==> list[i] < n
}

/// Deduplicated parent -> child adjacency used for ranking.
struct RankingGraph {
    /// `lowers[parent]` lists the children that must be ranked below `parent`.
    lowers: Vec<Vec<usize>>,
    /// `uppers[child]` lists the parents that must be ranked above `child`.
    uppers: Vec<Vec<usize>>,
}

impl RankingGraph {
    /// Number of nodes.
    spec fn n(&self) -> nat {
        self.lowers@.len()
    }

    /// The child lists, as sequences.
    spec fn lowers_view(&self) -> Seq<Seq<usize>> {
        self.lowers@.map_values(|l: Vec<usize>| l@)
    }

    /// The parent lists, as sequences.
    spec fn uppers_view(&self) -> Seq<Seq<usize>> {
        self.uppers@.map_values(|l: Vec<usize>| l@)
    }

    spec fn has_edge(&self, p: int, c: int) -> bool {
        0 <= p < self.n() && 0 <= c < self.n() && self.lowers@[p]@.contains(c as usize)
    }

    /// Adjacency lists are sorted, in range, mutually consistent and loop-free.
    spec fn wf(&self) -> bool {
        &&& self.uppers@.len() == self.n()
        &&& forall|v: int| 0 <= v < self.n() ==> sorted_nodes(#[trigger] self.lowers@[v]@, self.n())
        &&& forall|v: int| 0 <= v < self.n() ==> sorted_nodes(#[trigger] self.uppers@[v]@, self.n())
        &&& forall|p: int, c: int|
            0 <= p < self.n() && 0 <= c < self.n() ==> (#[trigger] self.lowers@[p]@.contains(
                c as usize) <==> #[trigger] self.uppers@[c]@.contains(p as usize))
        &&& forall|v: int| 0 <= v < self.n() ==> !(#[trigger] self.lowers@[v]@).contains(v as usize)
    }

    /// The adjacency lists are exactly the ranking edges of `graph`.
    spec fn represents(&self, graph: &LayoutGraph) -> bool {
        &&& self.n() == graph.nodes@.len()
        &&& forall|p: int, c: int|
            0 <= p < self.n() && 0 <= c < self.n() ==> (#[trigger] self.lowers@[p]@.contains(
                c as usize) <==> ranking_edge(graph, p, c))
    }

    /// The adjacency lists are the graph's child and parent lists.
    proof fn lemma_lists_of_graph(&self, graph: &LayoutGraph)
        requires
            self.wf(),
            self.represents(graph),
            self.n() <= usize::MAX,
        ensures
            self.lowers_view() == child_lists(graph),
            self.uppers_view() == parent_lists(graph),
    {
        let n = self.n();
        assert forall|p: int| 0 <= p < n implies #[trigger] self.lowers_view()[p] == child_lists(graph)[p] by {
            let pred = |c: int| ranking_edge(graph, p, c);
            assert(sorted_nodes(self.lowers@[p]@, n));
            assert forall|c: int| 0 <= c < n implies (self.lowers@[p]@.contains(c as usize) <==> #[trigger] pred(c)) by {}
            lemma_increasing_list(self.lowers@[p]@, pred, n as int);
        }
        assert forall|c: int| 0 <= c < n implies #[trigger] self.uppers_view()[c] == parent_lists(graph)[c] by {
            let pred = |p: int| ranking_edge(graph, p, c);
            assert(sorted_nodes(self.uppers@[c]@, n));
            assert forall|p: int| 0 <= p < n implies (self.uppers@[c]@.contains(p as usize) <==> #[trigger] pred(p)) by {
                assert(self.lowers@[p]@.contains(c as usize) <==> self.uppers@[c]@.contains(p as usize));
            }
            lemma_increasing_list(self.uppers@[c]@, pred, n as int);
        }
        assert(self.lowers_view() =~= child_lists(graph));
        assert(self.uppers_view() =~= parent_lists(graph));
    }

    fn from_layout_graph(graph: &LayoutGraph) -> (rg: Self)
        requires
            graph.indices_in_range(),
        ensures
            rg.wf(),
            rg.represents(graph),
    {
        let n = graph.nodes.len();
        let mut lowers: Vec<Vec<usize>> = Vec::new();
        let mut uppers: Vec<Vec<usize>> = Vec::new();
        for k in 0..n
            invariant
                lowers@.len() == k,
                uppers@.len() == k,
                forall|v: int| 0 <= v < k ==> (#[trigger] lowers@[v])@.len() == 0,
                forall|v: int| 0 <= v < k ==> (#[trigger] uppers@[v])@.len() == 0,
        {
            lowers.push(Vec::new());
            uppers.push(Vec::new());
        }
        for i in 0..graph.edges.len()
            invariant
                n == graph.nodes@.len(),
                graph.indices_in_range(),
                lowers@.len() == n,
                uppers@.len() == n,
                forall|v: int| 0 <= v < n ==> sorted_nodes(#[trigger] lowers@[v]@, n as nat),
                forall|v: int| 0 <= v < n ==> sorted_nodes(#[trigger] uppers@[v]@, n as nat),
                forall|p: int, c: int|
                    0 <= p < n && 0 <= c < n ==> (#[trigger] lowers@[p]@.contains(c as usize)
                        <==> exists|e: int| 0 <= e < i && #[trigger] edge_ranks(graph, e, p, c)),
                forall|p: int, c: int|
                    0 <= p < n && 0 <= c < n ==> (#[trigger] uppers@[c]@.contains(p as usize)
                        <==> exists|e: int| 0 <= e < i && #[trigger] edge_ranks(graph, e, p, c)),
        {
            let edge = &graph.edges[i];
            if !edge.is_self_loop {
                let child_opt = graph.node_index.get(edge.from.as_str());
                let parent_opt = graph.node_index.get(edge.to.as_str());
                proof {
                    lemma_index_of_in_range(graph, edge.from@);
                    lemma_index_of_in_range(graph, edge.to@);
                }
                match (child_opt, parent_opt) {
                    (Some(child), Some(parent)) => {
                        if child != parent {
                            let ghost old_lowers = lowers@;
                            let ghost old_uppers = uppers@;
                            let mut list = lowers[parent].clone();
                            proof {
                                assert(list@ =~= lowers@[parent as int]@);
                            }
                            insert_sorted_unique(&mut list, child, n);
                            lowers.set(parent, list);
                            let mut list2 = uppers[child].clone();
                            proof {
                                assert(list2@ =~= uppers@[child as int]@);
                            }
                            insert_sorted_unique(&mut list2, parent, n);
                            uppers.set(child, list2);
                            proof {
                                assert(edge_ranks(graph, i as int, parent as int, child as int));
                                assert forall|p: int, c: int|
                                    0 <= p < n && 0 <= c < n implies (#[trigger] lowers@[p]@.contains(c as usize)
                                    <==> exists|e: int| 0 <= e < i + 1 && #[trigger] edge_ranks(graph, e, p, c)) by {
                                    if exists|e: int| 0 <= e < i + 1 && #[trigger] edge_ranks(graph, e, p, c) {
                                        let e = choose|e: int| 0 <= e < i + 1 && #[trigger] edge_ranks(graph, e, p, c);
                                        if e < i {
                                            assert(old_lowers[p]@.contains(c as usize));
                                        }
                                    }
                                    if lowers@[p]@.contains(c as usize) && !(p == parent && c == child) {
                                        assert(old_lowers[p]@.contains(c as usize));
                                    }
                                }
                                assert forall|p: int, c: int|
                                    0 <= p < n && 0 <= c < n implies (#[trigger] uppers@[c]@.contains(p as usize)
                                    <==> exists|e: int| 0 <= e < i + 1 && #[trigger] edge_ranks(graph, e, p, c)) by {
                                    if exists|e: int| 0 <= e < i + 1 && #[trigger] edge_ranks(graph, e, p, c) {
                                        let e = choose|e: int| 0 <= e < i + 1 && #[trigger] edge_ranks(graph, e, p, c);
                                        if e < i {
                                            assert(old_uppers[c]@.contains(p as usize));
                                        }
                                    }
                                    if uppers@[c]@.contains(p as usize) && !(p == parent && c == child) {
                                        assert(old_uppers[c]@.contains(p as usize));
                                    }
                                }
                            }
                        } else {
                            proof {
                                assert forall|p: int, c: int| !edge_ranks(graph, i as int, p, c) by {
                                    if edge_ranks(graph, i as int, p, c) {
                                        assert(c == child as int);
                                        assert(p == parent as int);
                                    }
                                }
                                no_new_edge(graph, i as int, lowers@, uppers@, n);
                            }
                        }
                    },
                    _ => {
                        proof { no_new_edge(graph, i as int, lowers@, uppers@, n); }
                    },
                }
            } else {
                proof { no_new_edge(graph, i as int, lowers@, uppers@, n); }
            }
        }
        let rg = RankingGraph { lowers, uppers };
        proof {
            assert forall|p: int, c: int|
                0 <= p < n && 0 <= c < n implies (#[trigger] rg.lowers@[p]@.contains(c as usize)
                <==> ranking_edge(graph, p, c)) by {
                if ranking_edge(graph, p, c) {
                    let e = choose|e: int| #[trigger] edge_ranks(graph, e, p, c);
                    assert(0 <= e < graph.edges@.len());
                }
            }
            assert forall|v: int| 0 <= v < n implies !(#[trigger] rg.lowers@[v]@).contains(v as usize) by {
                if rg.lowers@[v]@.contains(v as usize) {
                    let e = choose|e: int| 0 <= e < graph.edges@.len() && #[trigger] edge_ranks(graph, e, v, v);
                }
            }
        }
        rg
    }
}

/// Processing edge `i` left the adjacency unchanged because it ranks nothing.
proof fn no_new_edge(
    graph: &LayoutGraph,
    i: int,
    lowers: Seq<Vec<usize>>,
    uppers: Seq<Vec<usize>>,
    n: usize,
)
    requires
        0 <= i < graph.edges@.len(),
        forall|p: int, c: int| !edge_ranks(graph, i, p, c),
        forall|p: int, c: int|
            0 <= p < n && 0 <= c < n ==> (#[trigger] lowers[p]@.contains(c as usize) <==> exists|
                e: int,
            | 0 <= e < i && #[trigger] edge_ranks(graph, e, p, c)),
        forall|p: int, c: int|
            0 <= p < n && 0 <= c < n ==> (#[trigger] uppers[c]@.contains(p as usize) <==> exists|
                e: int,
            | 0 <= e < i && #[trigger] edge_ranks(graph, e, p, c)),
    ensures
        forall|p: int, c: int|
            0 <= p < n && 0 <= c < n ==> (#[trigger] lowers[p]@.contains(c as usize) <==> exists|
                e: int,
            | 0 <= e < i + 1 && #[trigger] edge_ranks(graph, e, p, c)),
        forall|p: int, c: int|
            0 <= p < n && 0 <= c < n ==> (#[trigger] uppers[c]@.contains(p as usize) <==> exists|
                e: int,
            | 0 <= e < i + 1 && #[trigger] edge_ranks(graph, e, p, c)),
{
    assert forall|p: int, c: int|
        0 <= p < n && 0 <= c < n implies (#[trigger] lowers[p]@.contains(c as usize) <==> exists|
            e: int,
        | 0 <= e < i + 1 && #[trigger] edge_ranks(graph, e, p, c)) by {
        if exists|e: int| 0 <= e < i + 1 && #[trigger] edge_ranks(graph, e, p, c) {
            let e = choose|e: int| 0 <= e < i + 1 && #[trigger] edge_ranks(graph, e, p, c);
            assert(e != i);
        }
    }
    assert forall|p: int, c: int|
        0 <= p < n && 0 <= c < n implies (#[trigger] uppers[c]@.contains(p as usize) <==> exists|
            e: int,
        | 0 <= e < i + 1 && #[trigger] edge_ranks(graph, e, p, c)) by {
        if exists|e: int| 0 <= e < i + 1 && #[trigger] edge_ranks(graph, e, p, c) {
            let e = choose|e: int| 0 <= e < i + 1 && #[trigger] edge_ranks(graph, e, p, c);
            assert(e != i);
        }
    }
}

/// Inserts `x` into a strictly increasing list, keeping it strictly increasing.
fn insert_sorted_unique(list: &mut Vec<usize>, x: usize, n: usize)
    requires
        sorted_nodes(old(list)@, n as nat),
        x < n,
    ensures
        sorted_nodes(final(list)@, n as nat),
        forall|y: usize| #[trigger] final(list)@.contains(y) <==> (old(list)@.contains(y) || y == x),
{
    let mut j: usize = 0;
    while j < list.len() && list[j] < x
        invariant
            j <= list@.len(),
            list@ == old(list)@,
            sorted_nodes(list@, n as nat),
            forall|k: int| 0 <= k < j ==> list@[k] < x,
        decreases list@.len() - j,
    {
        j = j + 1;
    }
    if j < list.len() && list[j] == x {
        return;
    }
    let ghost before = list@;
    list.insert(j, x);
    proof {
        assert(list@ =~= before.subrange(0, j as int).push(x) + before.subrange(j as int, before.len() as int));
        assert forall|y: usize| #[trigger] list@.contains(y) <==> (before.contains(y) || y == x) by {
            if list@.contains(y) {
                let k = choose|k: int| 0 <= k < list@.len() && list@[k] == y;
                if k < j {
                    assert(before[k] == y);
                } else if k > j {
                    assert(before[k - 1] == y);
                }
            }
            if before.contains(y) {
                let k = choose|k: int| 0 <= k < before.len() && before[k] == y;
                if k < j {
                    assert(list@[k] == y);
                } else {
                    assert(list@[k + 1] == y);
                }
            }
            if y == x {
                assert(list@[j as int] == x);
            }
        }
    }
}

/// Number of entries of `list` that are not yet removed.
spec fn live_count(list: Seq<usize>, removed: Seq<bool>) -> nat
    decreases list.len(),
{
    if list.len() == 0 {
        0
    } else {
        live_count(list.drop_last(), removed) + if removed[list.last() as int] {
            0nat
        } else {
            1nat
        }
    }
}

proof fn lemma_live_count_remove(list: Seq<usize>, removed: Seq<bool>, x: int)
    requires
        forall|i: int, j: int| 0 <= i < j < list.len() ==> list[i] != list[j],
        forall|i: int| 0 <= i < list.len() ==> list[i] < removed.len(),
        0 <= x < removed.len(),
        removed.len() <= usize::MAX,
    ensures
        live_count(list, removed.update(x, true)) == live_count(list, removed) - if list.contains(
            x as usize,
        ) && !removed[x] {
            1int
        } else {
            0int
        },
    decreases list.len(),
{
    if list.len() > 0 {
        let init = list.drop_last();
        lemma_live_count_remove(init, removed, x);
        if list.last() as int == x {
            assert(!init.contains(x as usize)) by {
                if init.contains(x as usize) {
                    let k = choose|k: int| 0 <= k < init.len() && init[k] == x as usize;
                    assert(list[k] == list[list.len() - 1]);
                }
            }
        } else {
            assert(list.contains(x as usize) <==> init.contains(x as usize)) by {
                if list.contains(x as usize) {
                    let k = choose|k: int| 0 <= k < list.len() && list[k] == x as usize;
                    assert(k != list.len() - 1);
                    assert(init[k] == x as usize);
                }
            }
        }
    }
}

proof fn lemma_live_count_zero(list: Seq<usize>, removed: Seq<bool>)
    requires
        live_count(list, removed) == 0,
    ensures
        forall|i: int| 0 <= i < list.len() ==> removed[#[trigger] list[i] as int],
    decreases list.len(),
{
    if list.len() > 0 {
        lemma_live_count_zero(list.drop_last(), removed);
        assert forall|i: int| 0 <= i < list.len() implies removed[#[trigger] list[i] as int] by {
            if i < list.len() - 1 {
                assert(list.drop_last()[i] == list[i]);
            }
        }
    }
}

proof fn lemma_live_count_positive(list: Seq<usize>, removed: Seq<bool>)
    requires
        live_count(list, removed) > 0,
    ensures
        exists|i: int| 0 <= i < list.len() && !removed[#[trigger] list[i] as int],
    decreases list.len(),
{
    if list.len() > 0 {
        if removed[list.last() as int] {
            lemma_live_count_positive(list.drop_last(), removed);
            let i = choose|i: int|
                0 <= i < list.drop_last().len() && !removed[#[trigger] list.drop_last()[i] as int];
            assert(list[i] == list.drop_last()[i]);
        } else {
            assert(!removed[list[list.len() - 1] as int]);
        }
    }
}

proof fn lemma_live_count_bound(list: Seq<usize>, removed: Seq<bool>)
    ensures
        live_count(list, removed) <= list.len(),
    decreases list.len(),
{
    if list.len() > 0 {
        lemma_live_count_bound(list.drop_last(), removed);
    }
}

/// Number of nodes not yet removed.
spec fn unremoved_count(removed: Seq<bool>) -> nat
    decreases removed.len(),
{
    if removed.len() == 0 {
        0
    } else {
        unremoved_count(removed.drop_last()) + if removed.last() {
            0nat
        } else {
            1nat
        }
    }
}

proof fn lemma_unremoved_remove(removed: Seq<bool>, x: int)
    requires
        0 <= x < removed.len(),
        !removed[x],
    ensures
        unremoved_count(removed.update(x, true)) + 1 == unremoved_count(removed),
    decreases removed.len(),
{
    if x < removed.len() - 1 {
        lemma_unremoved_remove(removed.drop_last(), x);
        assert(removed.update(x, true).drop_last() =~= removed.drop_last().update(x, true));
    } else {
        assert(removed.update(x, true).drop_last() =~= removed.drop_last());
    }
}

proof fn lemma_unremoved_positive(removed: Seq<bool>)
    requires
        unremoved_count(removed) > 0,
    ensures
        exists|v: int| 0 <= v < removed.len() && !removed[v],
    decreases removed.len(),
{
    if removed.last() {
        lemma_unremoved_positive(removed.drop_last());
        let v = choose|v: int| 0 <= v < removed.drop_last().len() && !removed.drop_last()[v];
        assert(removed[v] == removed.drop_last()[v]);
    } else {
        assert(!removed[removed.len() - 1]);
    }
}

proof fn lemma_unremoved_zero(removed: Seq<bool>)
    requires
        unremoved_count(removed) == 0,
    ensures
        forall|v: int| 0 <= v < removed.len() ==> removed[v],
    decreases removed.len(),
{
    if removed.len() > 0 {
        lemma_unremoved_zero(removed.drop_last());
        assert forall|v: int| 0 <= v < removed.len() implies removed[v] by {
            if v < removed.len() - 1 {
                assert(removed.drop_last()[v] == removed[v]);
            }
        }
    }
}

proof fn lemma_unremoved_all_false(n: nat)
    ensures
        unremoved_count(Seq::new(n, |i: int| false)) == n,
    decreases n,
{
    if n > 0 {
        lemma_unremoved_all_false((n - 1) as nat);
        assert(Seq::new(n, |i: int| false).drop_last() =~= Seq::new((n - 1) as nat, |i: int| false));
    }
}

proof fn lemma_sorted_tail(list: Seq<usize>, i: int, n: nat)
    requires
        sorted_nodes(list, n),
        0 <= i < list.len(),
    ensures
        list.subrange(i, list.len() as int).contains(list[i]),
        !list.subrange(i + 1, list.len() as int).contains(list[i]),
        forall|w: usize|
            w != list[i] ==> (#[trigger] list.subrange(i, list.len() as int).contains(w)
                <==> list.subrange(i + 1, list.len() as int).contains(w)),
{
    let len = list.len() as int;
    let whole = list.subrange(i, len);
    let rest = list.subrange(i + 1, len);
    assert(whole[0] == list[i]);
    if rest.contains(list[i]) {
        let k = choose|k: int| 0 <= k < rest.len() && rest[k] == list[i];
        assert(list[i + 1 + k] == list[i]);
    }
    assert forall|w: usize| w != list[i] implies (#[trigger] whole.contains(w) <==> rest.contains(w)) by {
        if whole.contains(w) {
            let k = choose|k: int| 0 <= k < whole.len() && whole[k] == w;
            assert(k != 0);
            assert(rest[k - 1] == w);
        }
        if rest.contains(w) {
            let k = choose|k: int| 0 <= k < rest.len() && rest[k] == w;
            assert(whole[k + 1] == w);
        }
    }
}

/// The state of the greedy peeling: the remaining out- and in-degrees, the
/// removed nodes, the queues of sinks and sources waiting to be peeled, and
/// the nodes placed so far at the front and at the back of the order.
#[verifier::ext_equal]
pub struct PeelModel {
    pub out_degree: Seq<usize>,
    pub in_degree: Seq<usize>,
    pub removed: Seq<bool>,
    pub sinks: Seq<usize>,
    pub sources: Seq<usize>,
    pub front: Seq<usize>,
    pub back: Seq<usize>,
}

/// Removing a node below `w`: unless `w` is gone already, its in-degree drops
/// by one and, when that leaves it no parent, it joins the source queue.
pub open spec fn lower_step(s: PeelModel, w: usize) -> PeelModel {
    if s.removed[w as int] {
        s
    } else {
        let d = (s.in_degree[w as int] - 1) as usize;
        PeelModel {
            out_degree: s.out_degree,
            in_degree: s.in_degree.update(w as int, d),
            removed: s.removed,
            sinks: s.sinks,
            sources: if d == 0 { s.sources.push(w) } else { s.sources },
            front: s.front,
            back: s.back,
        }
    }
}

/// Removing a node above `w`: unless `w` is gone already, its out-degree
/// drops by one and, when that leaves it no child, it joins the sink queue.
pub open spec fn upper_step(s: PeelModel, w: usize) -> PeelModel {
    if s.removed[w as int] {
        s
    } else {
        let d = (s.out_degree[w as int] - 1) as usize;
        PeelModel {
            out_degree: s.out_degree.update(w as int, d),
            in_degree: s.in_degree,
            removed: s.removed,
            sinks: if d == 0 { s.sinks.push(w) } else { s.sinks },
            sources: s.sources,
            front: s.front,
            back: s.back,
        }
    }
}

/// The first `i` nodes of `list`, below a removed node, updated in turn.
pub open spec fn lowers_done(s: PeelModel, list: Seq<usize>, i: int) -> PeelModel
    decreases i,
{
    if i <= 0 {
        s
    } else {
        lower_step(lowers_done(s, list, i - 1), list[i - 1])
    }
}

/// The first `i` nodes of `list`, above a removed node, updated in turn.
pub open spec fn uppers_done(s: PeelModel, list: Seq<usize>, i: int) -> PeelModel
    decreases i,
{
    if i <= 0 {
        s
    } else {
        upper_step(uppers_done(s, list, i - 1), list[i - 1])
    }
}

/// Removing `v` from the remaining graph (nothing, when it is gone already):
/// the nodes below it, then those above it, in list order, lose an edge.
pub open spec fn peel_remove(lowers: Seq<Seq<usize>>, uppers: Seq<Seq<usize>>, s: PeelModel, v: usize) -> PeelModel {
    if s.removed[v as int] {
        s
    } else {
        let marked = PeelModel {
            out_degree: s.out_degree,
            in_degree: s.in_degree,
            removed: s.removed.update(v as int, true),
            sinks: s.sinks,
            sources: s.sources,
            front: s.front,
            back: s.back,
        };
        let below = lowers_done(marked, lowers[v as int], lowers[v as int].len() as int);
        uppers_done(below, uppers[v as int], uppers[v as int].len() as int)
    }
}

/// Out-degree minus in-degree of a remaining node.
pub open spec fn peel_surplus(s: PeelModel, w: int) -> int {
    s.out_degree[w] - s.in_degree[w]
}

/// `p` is the remaining node of largest surplus, the lowest index among
/// equals.
pub open spec fn is_max_surplus(s: PeelModel, n: nat, p: int) -> bool {
    &&& 0 <= p < n
    &&& !s.removed[p]
    &&& forall|w: int|
        0 <= w < n && !s.removed[w] ==> peel_surplus(s, w) < peel_surplus(s, p) || (peel_surplus(s, w)
            == peel_surplus(s, p) && p <= w)
}

/// One step of the peeling: pop the next sink (placed at the back), else the
/// next source (placed at the front), else move the remaining node of largest
/// surplus to the front. Popping a node that is gone already places nothing.
pub open spec fn peel_step(lowers: Seq<Seq<usize>>, uppers: Seq<Seq<usize>>, s: PeelModel) -> PeelModel {
    let n = lowers.len();
    if s.sinks.len() > 0 {
        let v = s.sinks[0];
        let popped = PeelModel {
            out_degree: s.out_degree,
            in_degree: s.in_degree,
            removed: s.removed,
            sinks: s.sinks.drop_first(),
            sources: s.sources,
            front: s.front,
            back: s.back,
        };
        if s.removed[v as int] {
            popped
        } else {
            let r = peel_remove(lowers, uppers, popped, v);
            PeelModel {
                out_degree: r.out_degree,
                in_degree: r.in_degree,
                removed: r.removed,
                sinks: r.sinks,
                sources: r.sources,
                front: r.front,
                back: r.back.push(v),
            }
        }
    } else if s.sources.len() > 0 {
        let v = s.sources[0];
        let popped = PeelModel {
            out_degree: s.out_degree,
            in_degree: s.in_degree,
            removed: s.removed,
            sinks: s.sinks,
            sources: s.sources.drop_first(),
            front: s.front,
            back: s.back,
        };
        if s.removed[v as int] {
            popped
        } else {
            let r = peel_remove(lowers, uppers, popped, v);
            PeelModel {
                out_degree: r.out_degree,
                in_degree: r.in_degree,
                removed: r.removed,
                sinks: r.sinks,
                sources: r.sources,
                front: r.front.push(v),
                back: r.back,
            }
        }
    } else if exists|p: int| is_max_surplus(s, n, p) {
        let p = choose|p: int| is_max_surplus(s, n, p);
        let r = peel_remove(lowers, uppers, s, p as usize);
        PeelModel {
            out_degree: r.out_degree,
            in_degree: r.in_degree,
            removed: r.removed,
            sinks: r.sinks,
            sources: r.sources,
            front: r.front.push(p as usize),
            back: r.back,
        }
    } else {
        s
    }
}

/// `k` steps of the peeling from `s`.
pub open spec fn peel_steps(lowers: Seq<Seq<usize>>, uppers: Seq<Seq<usize>>, s: PeelModel, k: nat) -> PeelModel
    decreases k,
{
    if k == 0 {
        s
    } else {
        peel_step(lowers, uppers, peel_steps(lowers, uppers, s, (k - 1) as nat))
    }
}

/// The nodes below `k` without children, in increasing order.
pub open spec fn start_sinks(lowers: Seq<Seq<usize>>, k: int) -> Seq<usize>
    decreases k,
{
    if k <= 0 {
        Seq::empty()
    } else if lowers[k - 1].len() == 0 {
        start_sinks(lowers, k - 1).push((k - 1) as usize)
    } else {
        start_sinks(lowers, k - 1)
    }
}

/// The nodes below `k` with children but no parent, in increasing order.
pub open spec fn start_sources(lowers: Seq<Seq<usize>>, uppers: Seq<Seq<usize>>, k: int) -> Seq<usize>
    decreases k,
{
    if k <= 0 {
        Seq::empty()
    } else if uppers[k - 1].len() == 0 && lowers[k - 1].len() > 0 {
        start_sources(lowers, uppers, k - 1).push((k - 1) as usize)
    } else {
        start_sources(lowers, uppers, k - 1)
    }
}

/// The peeling before its first step: nothing removed or placed, the
/// childless nodes queued as sinks and the parentless ones as sources.
pub open spec fn peel_start(lowers: Seq<Seq<usize>>, uppers: Seq<Seq<usize>>) -> PeelModel {
    let n = lowers.len();
    PeelModel {
        out_degree: Seq::new(n, |w: int| lowers[w].len() as usize),
        in_degree: Seq::new(n, |w: int| uppers[w].len() as usize),
        removed: Seq::new(n, |w: int| false),
        sinks: start_sinks(lowers, n as int),
        sources: start_sources(lowers, uppers, n as int),
        front: Seq::empty(),
        back: Seq::empty(),
    }
}

/// Every node is removed.
pub open spec fn all_removed(s: PeelModel, n: nat) -> bool {
    forall|w: int| 0 <= w < n ==> s.removed[w]
}

/// The peeling has removed every node after `k` steps, and not before.
pub open spec fn peel_ends_at(lowers: Seq<Seq<usize>>, uppers: Seq<Seq<usize>>, k: nat) -> bool {
    &&& all_removed(peel_steps(lowers, uppers, peel_start(lowers, uppers), k), lowers.len())
    &&& forall|j: nat| j < k ==> !all_removed(#[trigger] peel_steps(lowers, uppers, peel_start(lowers, uppers), j), lowers.len())
}

/// The greedy order of a graph given by its child lists `lowers` and parent
/// lists `uppers`: the nodes placed at the front, then those placed at the
/// back in reverse, once the peeling has removed every node.
pub open spec fn greedy_order(lowers: Seq<Seq<usize>>, uppers: Seq<Seq<usize>>) -> Seq<usize> {
    let k = choose|k: nat| peel_ends_at(lowers, uppers, k);
    let s = peel_steps(lowers, uppers, peel_start(lowers, uppers), k);
    s.front + s.back.reverse()
}

/// The peeling ends at one step count only.
proof fn lemma_peel_ends_unique(lowers: Seq<Seq<usize>>, uppers: Seq<Seq<usize>>, k: nat)
    requires
        peel_ends_at(lowers, uppers, k),
    ensures
        greedy_order(lowers, uppers) == peel_steps(lowers, uppers, peel_start(lowers, uppers), k).front
            + peel_steps(lowers, uppers, peel_start(lowers, uppers), k).back.reverse(),
{
    let k0 = choose|k: nat| peel_ends_at(lowers, uppers, k);
    assert(peel_ends_at(lowers, uppers, k0));
    if k0 < k {
        assert(!all_removed(peel_steps(lowers, uppers, peel_start(lowers, uppers), k0), lowers.len()));
    }
    if k < k0 {
        assert(!all_removed(peel_steps(lowers, uppers, peel_start(lowers, uppers), k), lowers.len()));
    }
    assert(k0 == k);
}

/// Two remaining nodes of largest surplus are the same node.
proof fn lemma_max_surplus_unique(s: PeelModel, n: nat, p: int, q: int)
    requires
        is_max_surplus(s, n, p),
        is_max_surplus(s, n, q),
    ensures
        p == q,
{
    assert(peel_surplus(s, q) < peel_surplus(s, p) || (peel_surplus(s, q) == peel_surplus(s, p) && p <= q));
    assert(peel_surplus(s, p) < peel_surplus(s, q) || (peel_surplus(s, p) == peel_surplus(s, q) && q <= p));
}

/// Mutable bookkeeping for [`RankingGraph::greedy_acyclic_order`].
struct PeelState<'a> {
    graph: &'a RankingGraph,
    out_degree: Vec<usize>,
    in_degree: Vec<usize>,
    removed: Vec<bool>,
    sinks: VecDeque<usize>,
    sources: VecDeque<usize>,
}

impl<'a> PeelState<'a> {
    /// Degrees count the remaining neighbours, except for the neighbours in
    /// `pending_lowers` / `pending_uppers` whose decrement is still due.
    spec fn degrees_match(
        &self,
        removed: Seq<bool>,
        pending_lowers: Seq<usize>,
        pending_uppers: Seq<usize>,
    ) -> bool {
        &&& forall|w: int|
            0 <= w < self.graph.n() && !removed[w] ==> #[trigger] self.out_degree@[w] == live_count(
                self.graph.lowers@[w]@,
                removed,
            ) + if pending_uppers.contains(w as usize) {
                1int
            } else {
                0int
            }
        &&& forall|w: int|
            0 <= w < self.graph.n() && !removed[w] ==> #[trigger] self.in_degree@[w] == live_count(
                self.graph.uppers@[w]@,
                removed,
            ) + if pending_lowers.contains(w as usize) {
                1int
            } else {
                0int
            }
    }

    spec fn queues_ok(&self, except: int) -> bool {
        &&& forall|i: int|
            0 <= i < self.sinks@.len() ==> #[trigger] self.sinks@[i] < self.graph.n() && (
            !self.removed@[self.sinks@[i] as int] ==> self.out_degree@[self.sinks@[i] as int] == 0)
        &&& forall|i: int|
            0 <= i < self.sources@.len() ==> #[trigger] self.sources@[i] < self.graph.n() && (
            !self.removed@[self.sources@[i] as int] ==> self.in_degree@[self.sources@[i] as int]
                == 0)
        &&& forall|w: int|
            0 <= w < self.graph.n() && w != except && !self.removed@[w] && #[trigger] self.out_degree@[w] == 0
                ==> self.sinks@.contains(w as usize)
    }

    spec fn inv(&self) -> bool {
        self.inv_except(-1)
    }

    /// The peeling state this bookkeeping holds, with the nodes placed so far.
    spec fn model(&self, front: Seq<usize>, back: Seq<usize>) -> PeelModel {
        PeelModel {
            out_degree: self.out_degree@,
            in_degree: self.in_degree@,
            removed: self.removed@,
            sinks: self.sinks@,
            sources: self.sources@,
            front,
            back,
        }
    }

    /// The invariant, except that `except` may be missing from the sink queue.
    spec fn inv_except(&self, except: int) -> bool {
        &&& self.graph.wf()
        &&& self.graph.n() <= usize::MAX
        &&& self.out_degree@.len() == self.graph.n()
        &&& self.in_degree@.len() == self.graph.n()
        &&& self.removed@.len() == self.graph.n()
        &&& self.degrees_match(self.removed@, Seq::empty(), Seq::empty())
        &&& self.queues_ok(except)
    }

    /// Out-degree minus in-degree among the remaining nodes.
    spec fn surplus(&self, w: int) -> int {
        self.out_degree@[w] - self.in_degree@[w]
    }

    /// The remaining node with the largest `out - in` degree, the lowest
    /// index among equals.
    fn pick_max_surplus(&self) -> (pick: usize)
        requires
            self.inv(),
            exists|v: int| 0 <= v < self.graph.n() && !self.removed@[v],
        ensures
            pick < self.graph.n(),
            !self.removed@[pick as int],
            forall|w: int|
                0 <= w < self.graph.n() && !self.removed@[w] ==> self.surplus(w) < self.surplus(
                    pick as int,
                ) || (self.surplus(w) == self.surplus(pick as int) && pick <= w),
    {
        let n = self.removed.len();
        let mut best: usize = n;
        let mut best_delta: i128 = 0;
        for v in 0..n
            invariant
                n == self.graph.n(),
                self.inv(),
                best == n || (best < v && !self.removed@[best as int] && best_delta == self.surplus(best as int)),
                best == n ==> forall|w: int| 0 <= w < v ==> self.removed@[w],
                best < n ==> forall|w: int|
                    0 <= w < v && !self.removed@[w] ==> self.surplus(w) < best_delta || (self.surplus(w)
                        == best_delta && best <= w),
        {
            if !self.removed[v] {
                let delta = self.out_degree[v] as i128 - self.in_degree[v] as i128;
                if best == n || delta > best_delta {
                    best = v;
                    best_delta = delta;
                }
            }
        }
        best
    }

    /// Removes `v` from the remaining graph, queueing neighbors that become
    /// sinks or sources. Returns `false` when `v` was already removed.
    fn remove(&mut self, v: usize, Ghost(front): Ghost<Seq<usize>>, Ghost(back): Ghost<Seq<usize>>) -> (newly: bool)
        requires
            old(self).inv_except(v as int),
            v < old(self).graph.n(),
        ensures
            final(self).model(front, back) == peel_remove(
                old(self).graph.lowers_view(),
                old(self).graph.uppers_view(),
                old(self).model(front, back),
                v,
            ),
            final(self).inv(),
            !newly ==> final(self).sinks@ == old(self).sinks@ && final(self).sources@ == old(
                self,
            ).sources@,
            final(self).graph == old(self).graph,
            newly == !old(self).removed@[v as int],
            final(self).removed@ == old(self).removed@.update(v as int, true),
    {
        if self.removed[v] {
            proof {
                assert(self.removed@ =~= old(self).removed@.update(v as int, true));
            }
            return false;
        }
        let ghost n = self.graph.n();
        let ghost before = self.removed@;
        let ghost start = self.model(front, back);
        self.removed.set(v, true);
        let ghost marked = self.model(front, back);
        proof {
            assert(marked =~= PeelModel {
                out_degree: start.out_degree,
                in_degree: start.in_degree,
                removed: start.removed.update(v as int, true),
                sinks: start.sinks,
                sources: start.sources,
                front: start.front,
                back: start.back,
            });
        }
        let ghost lowers_v = self.graph.lowers@[v as int]@;
        let ghost uppers_v = self.graph.uppers@[v as int]@;
        proof {
            assert forall|w: int| 0 <= w < n && !self.removed@[w] implies {
                &&& self.out_degree@[w] == live_count(self.graph.lowers@[w]@, self.removed@)
                    + if uppers_v.contains(w as usize) { 1int } else { 0int }
                &&& self.in_degree@[w] == live_count(self.graph.uppers@[w]@, self.removed@)
                    + if lowers_v.contains(w as usize) { 1int } else { 0int }
            } by {
                assert(!before[w]);
                lemma_live_count_remove(self.graph.lowers@[w]@, before, v as int);
                lemma_live_count_remove(self.graph.uppers@[w]@, before, v as int);
                assert(self.graph.lowers@[w]@.contains(v) <==> self.graph.uppers@[v as int]@.contains(w as usize));
                assert(self.graph.uppers@[w]@.contains(v) <==> self.graph.lowers@[v as int]@.contains(w as usize));
            }
            assert(lowers_v.subrange(0, lowers_v.len() as int) =~= lowers_v);
        }
        let lowers_len = self.graph.lowers[v].len();
        let mut i: usize = 0;
        while i < lowers_len
            invariant
                self.graph == old(self).graph,
                self.graph.wf(),
                n == self.graph.n(),
                n <= usize::MAX,
                v < n,
                lowers_v == self.graph.lowers@[v as int]@,
                uppers_v == self.graph.uppers@[v as int]@,
                sorted_nodes(lowers_v, n),
                before.len() == n,
                lowers_len == lowers_v.len(),
                i <= lowers_len,
                self.out_degree@.len() == n,
                self.in_degree@.len() == n,
                self.removed@ == before.update(v as int, true),
                self.degrees_match(self.removed@, lowers_v.subrange(i as int, lowers_len as int), uppers_v),
                self.queues_ok(-1),
                self.model(front, back) == lowers_done(marked, lowers_v, i as int),
            decreases lowers_len - i,
        {
            let lower = self.graph.lowers[v][i];
            let ghost prev = self.model(front, back);
            proof {
                lemma_sorted_tail(lowers_v, i as int, n);
                assert(lower < n);
            }
            if !self.removed[lower] {
                let d = self.in_degree[lower] - 1;
                self.in_degree.set(lower, d);
                if d == 0 {
                    self.sources.push_back(lower);
                }
            }
            proof {
                assert(self.model(front, back) =~= lower_step(prev, lower));
            }
            i = i + 1;
        }
        let ghost below = self.model(front, back);
        proof {
            assert(uppers_v.subrange(0, uppers_v.len() as int) =~= uppers_v);
            assert(lowers_v.subrange(lowers_len as int, lowers_len as int) =~= Seq::<usize>::empty());
        }
        let uppers_len = self.graph.uppers[v].len();
        let mut j: usize = 0;
        while j < uppers_len
            invariant
                self.graph == old(self).graph,
                self.graph.wf(),
                n == self.graph.n(),
                n <= usize::MAX,
                v < n,
                uppers_v == self.graph.uppers@[v as int]@,
                sorted_nodes(uppers_v, n),
                before.len() == n,
                uppers_len == uppers_v.len(),
                j <= uppers_len,
                self.out_degree@.len() == n,
                self.in_degree@.len() == n,
                self.removed@ == before.update(v as int, true),
                self.degrees_match(self.removed@, Seq::empty(), uppers_v.subrange(j as int, uppers_len as int)),
                self.queues_ok(-1),
                self.model(front, back) == uppers_done(below, uppers_v, j as int),
            decreases uppers_len - j,
        {
            let upper = self.graph.uppers[v][j];
            let ghost prev = self.model(front, back);
            proof {
                lemma_sorted_tail(uppers_v, j as int, n);
                assert(upper < n);
            }
            let ghost old_sinks = self.sinks@;
            let ghost old_out = self.out_degree@;
            if !self.removed[upper] {
                let d = self.out_degree[upper] - 1;
                self.out_degree.set(upper, d);
                if d == 0 {
                    self.sinks.push_back(upper);
                }
                proof {
                    assert forall|w: int|
                        0 <= w < n && !self.removed@[w] && #[trigger] self.out_degree@[w] == 0
                        implies self.sinks@.contains(w as usize) by {
                        if w != upper as int {
                            assert(old_out[w] == 0);
                            assert(old_sinks.contains(w as usize));
                            let k = choose|k: int| 0 <= k < old_sinks.len() && old_sinks[k] == w as usize;
                            assert(self.sinks@[k] == w as usize);
                        } else {
                            assert(self.sinks@[self.sinks@.len() - 1] == upper);
                        }
                    }
                }
            }
            proof {
                assert(self.model(front, back) =~= upper_step(prev, upper));
            }
            j = j + 1;
        }
        proof {
            assert(uppers_v.subrange(uppers_len as int, uppers_len as int) =~= Seq::<usize>::empty());
            assert(old(self).graph.lowers_view()[v as int] == lowers_v);
            assert(old(self).graph.uppers_view()[v as int] == uppers_v);
        }
        true
    }
}

proof fn lemma_live_count_full(list: Seq<usize>, removed: Seq<bool>)
    requires
        forall|i: int| 0 <= i < list.len() ==> !removed[#[trigger] list[i] as int],
    ensures
        live_count(list, removed) == list.len(),
    decreases list.len(),
{
    if list.len() > 0 {
        let init = list.drop_last();
        assert forall|i: int| 0 <= i < init.len() implies !removed[#[trigger] init[i] as int] by {
            assert(init[i] == list[i]);
        }
        lemma_live_count_full(init, removed);
        assert(!removed[list[list.len() - 1] as int]);
    }
}

/// Among the nodes not yet removed, some node has the largest potential.
proof fn lemma_max_unremoved(removed: Seq<bool>, f: Seq<int>, len: int)
    requires
        0 < len <= removed.len(),
        removed.len() == f.len(),
        exists|v: int| 0 <= v < len && !removed[v],
    ensures
        exists|v: int|
            0 <= v < len && !removed[v] && forall|w: int| 0 <= w < len && !removed[w] ==> f[w] <= f[v],
    decreases len,
{
    if exists|v: int| 0 <= v < len - 1 && !removed[v] {
        lemma_max_unremoved(removed, f, len - 1);
        let v = choose|v: int|
            0 <= v < len - 1 && !removed[v] && forall|w: int|
                0 <= w < len - 1 && !removed[w] ==> f[w] <= f[v];
        if !removed[len - 1] && f[len - 1] > f[v] {
            assert(forall|w: int| 0 <= w < len && !removed[w] ==> f[w] <= f[len - 1]);
        } else {
            assert(forall|w: int| 0 <= w < len && !removed[w] ==> f[w] <= f[v]);
        }
    } else {
        assert(!removed[len - 1]);
        assert(forall|w: int| 0 <= w < len && !removed[w] ==> w == len - 1);
    }
}

impl RankingGraph {
    /// `f` assigns a value to every node and increases along every edge.
    spec fn potential(&self, f: Seq<int>) -> bool {
        f.len() == self.n() && forall|p: int, c: int|
            #[trigger] self.has_edge(p, c) ==> f[p] < f[c]
    }

    spec fn acyclic(&self) -> bool {
        exists|f: Seq<int>| #[trigger] self.potential(f)
    }

    /// Bookkeeping of the peeling loop: `key` orders removed nodes as they
    /// will appear in the final order (front entries first, in push order;
    /// back entries after them, latest push first). Unless the loop had to
    /// pick a node from a cycle, every removed edge already points forward.
    spec fn peel_order_inv(
        &self,
        removed: Seq<bool>,
        key: Seq<int>,
        front: Seq<usize>,
        back: Seq<usize>,
        remaining: int,
        picked: bool,
    ) -> bool {
        let n = self.n() as int;
        &&& n <= usize::MAX
        &&& removed.len() == n
        &&& key.len() == n
        &&& 0 <= remaining
        &&& front.len() + back.len() + remaining == n
        &&& forall|i: int| 0 <= i < front.len() ==> #[trigger] front[i] < n && key[front[i] as int] == i
        &&& forall|j: int| 0 <= j < back.len() ==> #[trigger] back[j] < n && key[back[j] as int] == 2 * n - j
        &&& forall|v: int| 0 <= v < n ==> (#[trigger] removed[v] <==> (front.contains(v as usize) || back.contains(v as usize)))
        &&& forall|v: int| 0 <= v < n && #[trigger] removed[v] ==> (0 <= key[v] < front.len()) || (2 * n - back.len() < key[v] <= 2 * n)
        &&& !picked ==> forall|p: int, c: int|
            #[trigger] self.has_edge(p, c) && 0 <= c < n && removed[p] && removed[c] ==> key[p] < key[c]
        &&& !picked ==> forall|p: int, c: int|
            #[trigger] self.has_edge(p, c) && 0 <= c < n && removed[p] && !removed[c] ==> key[p] < n
        &&& !picked ==> forall|p: int, c: int|
            #[trigger] self.has_edge(p, c) && 0 <= c < n && !removed[p] && removed[c] ==> key[c] > n
    }

    proof fn lemma_placed_counts(
        &self,
        removed: Seq<bool>,
        key: Seq<int>,
        front: Seq<usize>,
        back: Seq<usize>,
        remaining: int,
        picked: bool,
        v: int,
    )
        requires
            self.peel_order_inv(removed, key, front, back, remaining, picked),
            0 <= v < self.n(),
            !removed[v],
        ensures
            remaining >= 1,
    {
        if remaining == 0 {
            self.lemma_all_placed(removed, key, front, back, picked);
        }
    }

    proof fn lemma_sink_step(
        &self,
        removed: Seq<bool>,
        key: Seq<int>,
        front: Seq<usize>,
        back: Seq<usize>,
        remaining: int,
        picked: bool,
        v: int,
    )
        requires
            self.wf(),
            self.peel_order_inv(removed, key, front, back, remaining, picked),
            0 <= v < self.n(),
            !removed[v],
            forall|c: int| #[trigger] self.has_edge(v, c) ==> removed[c],
        ensures
            self.peel_order_inv(
                removed.update(v, true),
                key.update(v, 2 * self.n() - back.len()),
                front,
                back.push(v as usize),
                remaining - 1,
                picked,
            ),
    {
        let n = self.n() as int;
        let r2 = removed.update(v, true);
        let k2 = key.update(v, 2 * n - back.len());
        let b2 = back.push(v as usize);
        self.lemma_placed_counts(removed, key, front, back, remaining, picked, v);
        assert forall|i: int| 0 <= i < front.len() implies #[trigger] front[i] < n && k2[front[i] as int] == i by {
            assert(front.contains(front[i]));
            assert(removed[front[i] as int]);
        }
        assert forall|j: int| 0 <= j < b2.len() implies #[trigger] b2[j] < n && k2[b2[j] as int] == 2 * n - j by {
            if j < back.len() {
                assert(back.contains(back[j]));
                assert(removed[back[j] as int]);
                assert(b2[j] == back[j]);
            }
        }
        assert forall|w: int| 0 <= w < n implies (#[trigger] r2[w] <==> (front.contains(w as usize) || b2.contains(w as usize))) by {
            if b2.contains(w as usize) && w != v {
                let j = choose|j: int| 0 <= j < b2.len() && b2[j] == w as usize;
                assert(back[j] == w as usize);
            }
            if back.contains(w as usize) {
                let j = choose|j: int| 0 <= j < back.len() && back[j] == w as usize;
                assert(b2[j] == w as usize);
            }
            if w == v {
                assert(b2[back.len() as int] == v as usize);
            }
        }
        if !picked {
            assert forall|p: int, c: int|
                #[trigger] self.has_edge(p, c) && 0 <= c < n && r2[p] && r2[c] implies k2[p] < k2[c] by {
                if p == v {
                    assert(removed[c]);
                    assert(key[c] > n);
                } else if c == v {
                    assert(key[p] < n);
                }
            }
        }
    }

    proof fn lemma_source_step(
        &self,
        removed: Seq<bool>,
        key: Seq<int>,
        front: Seq<usize>,
        back: Seq<usize>,
        remaining: int,
        picked: bool,
        v: int,
    )
        requires
            self.wf(),
            self.peel_order_inv(removed, key, front, back, remaining, picked),
            0 <= v < self.n(),
            !removed[v],
            forall|p: int| #[trigger] self.has_edge(p, v) ==> removed[p],
        ensures
            self.peel_order_inv(
                removed.update(v, true),
                key.update(v, front.len() as int),
                front.push(v as usize),
                back,
                remaining - 1,
                picked,
            ),
    {
        let n = self.n() as int;
        let r2 = removed.update(v, true);
        let k2 = key.update(v, front.len() as int);
        let f2 = front.push(v as usize);
        self.lemma_placed_counts(removed, key, front, back, remaining, picked, v);
        assert forall|i: int| 0 <= i < f2.len() implies #[trigger] f2[i] < n && k2[f2[i] as int] == i by {
            if i < front.len() {
                assert(front.contains(front[i]));
                assert(removed[front[i] as int]);
                assert(f2[i] == front[i]);
            }
        }
        assert forall|j: int| 0 <= j < back.len() implies #[trigger] back[j] < n && k2[back[j] as int] == 2 * n - j by {
            assert(back.contains(back[j]));
            assert(removed[back[j] as int]);
        }
        assert forall|w: int| 0 <= w < n implies (#[trigger] r2[w] <==> (f2.contains(w as usize) || back.contains(w as usize))) by {
            if f2.contains(w as usize) && w != v {
                let j = choose|j: int| 0 <= j < f2.len() && f2[j] == w as usize;
                assert(front[j] == w as usize);
            }
            if front.contains(w as usize) {
                let j = choose|j: int| 0 <= j < front.len() && front[j] == w as usize;
                assert(f2[j] == w as usize);
            }
            if w == v {
                assert(f2[front.len() as int] == v as usize);
            }
        }
        if !picked {
            assert forall|p: int, c: int|
                #[trigger] self.has_edge(p, c) && 0 <= c < n && r2[p] && r2[c] implies k2[p] < k2[c] by {
                if c == v {
                    assert(removed[p]);
                    assert(key[p] < n);
                } else if p == v {
                    assert(key[c] > n);
                }
            }
        }
    }

    proof fn lemma_pick_step(
        &self,
        removed: Seq<bool>,
        key: Seq<int>,
        front: Seq<usize>,
        back: Seq<usize>,
        remaining: int,
        picked: bool,
        v: int,
    )
        requires
            self.wf(),
            self.peel_order_inv(removed, key, front, back, remaining, picked),
            0 <= v < self.n(),
            !removed[v],
        ensures
            self.peel_order_inv(
                removed.update(v, true),
                key.update(v, front.len() as int),
                front.push(v as usize),
                back,
                remaining - 1,
                true,
            ),
    {
        let n = self.n() as int;
        let r2 = removed.update(v, true);
        let k2 = key.update(v, front.len() as int);
        let f2 = front.push(v as usize);
        self.lemma_placed_counts(removed, key, front, back, remaining, picked, v);
        assert forall|i: int| 0 <= i < f2.len() implies #[trigger] f2[i] < n && k2[f2[i] as int] == i by {
            if i < front.len() {
                assert(front.contains(front[i]));
                assert(removed[front[i] as int]);
                assert(f2[i] == front[i]);
            }
        }
        assert forall|j: int| 0 <= j < back.len() implies #[trigger] back[j] < n && k2[back[j] as int] == 2 * n - j by {
            assert(back.contains(back[j]));
            assert(removed[back[j] as int]);
        }
        assert forall|w: int| 0 <= w < n implies (#[trigger] r2[w] <==> (f2.contains(w as usize) || back.contains(w as usize))) by {
            if f2.contains(w as usize) && w != v {
                let j = choose|j: int| 0 <= j < f2.len() && f2[j] == w as usize;
                assert(front[j] == w as usize);
            }
            if front.contains(w as usize) {
                let j = choose|j: int| 0 <= j < front.len() && front[j] == w as usize;
                assert(f2[j] == w as usize);
            }
            if w == v {
                assert(f2[front.len() as int] == v as usize);
            }
        }
    }

    /// With no node left to place, every node is already placed.
    proof fn lemma_all_placed(
        &self,
        removed: Seq<bool>,
        key: Seq<int>,
        front: Seq<usize>,
        back: Seq<usize>,
        picked: bool,
    )
        requires
            self.peel_order_inv(removed, key, front, back, 0, picked),
        ensures
            forall|v: int| 0 <= v < self.n() ==> removed[v],
    {
        let n = self.n() as int;
        let placed = Seq::new(
            (front.len() + back.len()) as nat,
            |t: int|
                if t < front.len() {
                    front[t]
                } else {
                    back[t - front.len()]
                },
        );
        assert forall|t: int| 0 <= t < placed.len() implies #[trigger] placed[t] < n && key[placed[t] as int] == if t < front.len() {
            t
        } else {
            2 * n - (t - front.len())
        } by {}
        assert forall|a: int, b: int| 0 <= a < b < placed.len() implies placed[a] != placed[b] by {
            if placed[a] == placed[b] {
                assert(key[placed[a] as int] == key[placed[b] as int]);
            }
        }
        assert forall|v: int| 0 <= v < n implies removed[v] by {
            lemma_distinct_below_bound(placed, n, v);
            let t = choose|t: int| 0 <= t < placed.len() && placed[t] == v as usize;
            if t < front.len() {
                assert(front.contains(v as usize));
            } else {
                assert(back[t - front.len()] == v as usize);
                assert(back.contains(v as usize));
            }
        }
    }

    /// When no node lacks remaining children (no sink), the remaining nodes
    /// contain a cycle, so no potential can increase along every edge.
    proof fn lemma_no_sink_means_cycle(&self, removed: Seq<bool>, out_degree: Seq<usize>)
        requires
            self.wf(),
            removed.len() == self.n(),
            out_degree.len() == self.n(),
            exists|v: int| 0 <= v < self.n() && !removed[v],
            forall|w: int|
                0 <= w < self.n() && !removed[w] ==> #[trigger] out_degree[w] == live_count(
                    self.lowers@[w]@,
                    removed,
                ),
            forall|w: int| 0 <= w < self.n() && !removed[w] ==> #[trigger] out_degree[w] != 0,
        ensures
            !self.acyclic(),
    {
        if self.acyclic() {
            let f = choose|f: Seq<int>| #[trigger] self.potential(f);
            lemma_max_unremoved(removed, f, self.n() as int);
            let v = choose|v: int|
                0 <= v < self.n() && !removed[v] && forall|w: int|
                    0 <= w < self.n() && !removed[w] ==> f[w] <= f[v];
            assert(out_degree[v] != 0);
            lemma_live_count_positive(self.lowers@[v]@, removed);
            let i = choose|i: int| 0 <= i < self.lowers@[v]@.len() && !removed[#[trigger] self.lowers@[v]@[i] as int];
            let c = self.lowers@[v]@[i] as int;
            assert(sorted_nodes(self.lowers@[v]@, self.n()));
            assert(self.has_edge(v, c));
            assert(f[v] < f[c]);
        }
    }

    /// Eades–Lin–Smyth greedy ordering.
    ///
    /// Sinks are peeled off to the end and sources to the front; when neither
    /// exists, the node with the largest `out - in` degree is moved to the
    /// front. Edges pointing backward in the resulting order form a small
    /// feedback arc set. Ties break on the lowest node index for determinism.
    fn greedy_acyclic_order(&self) -> (order: Vec<usize>)
        requires
            self.wf(),
        ensures
            order@ == greedy_order(self.lowers_view(), self.uppers_view()),
            order@.len() == self.n(),
            forall|i: int| 0 <= i < order@.len() ==> order@[i] < self.n(),
            forall|i: int, j: int| 0 <= i < j < order@.len() ==> order@[i] != order@[j],
            self.acyclic() ==> forall|i: int, j: int|
                0 <= i < order@.len() && 0 <= j < order@.len() && #[trigger] self.has_edge(
                    order@[j] as int,
                    order@[i] as int,
                ) ==> j < i,
    {
        let n = self.lowers.len();
        let ghost lv = self.lowers_view();
        let ghost uv = self.uppers_view();
        let ghost start = peel_start(lv, uv);
        let mut out_degree: Vec<usize> = Vec::new();
        let mut in_degree: Vec<usize> = Vec::new();
        let mut removed: Vec<bool> = Vec::new();
        for v in 0..n
            invariant
                n == self.n(),
                self.wf(),
                out_degree@.len() == v,
                in_degree@.len() == v,
                removed@.len() == v,
                forall|w: int| 0 <= w < v ==> #[trigger] out_degree@[w] == self.lowers@[w]@.len(),
                forall|w: int| 0 <= w < v ==> #[trigger] in_degree@[w] == self.uppers@[w]@.len(),
                forall|w: int| 0 <= w < v ==> !#[trigger] removed@[w],
        {
            out_degree.push(self.lowers[v].len());
            in_degree.push(self.uppers[v].len());
            removed.push(false);
        }
        let mut sinks: VecDeque<usize> = VecDeque::new();
        let mut sources: VecDeque<usize> = VecDeque::new();
        for v in 0..n
            invariant
                n == self.n(),
                out_degree@.len() == n,
                in_degree@.len() == n,
                forall|i: int| 0 <= i < sinks@.len() ==> #[trigger] sinks@[i] < n && out_degree@[sinks@[i] as int] == 0,
                forall|i: int| 0 <= i < sources@.len() ==> #[trigger] sources@[i] < n && in_degree@[sources@[i] as int] == 0,
                forall|w: int| 0 <= w < v && #[trigger] out_degree@[w] == 0 ==> sinks@.contains(w as usize),
                lv == self.lowers_view(),
                uv == self.uppers_view(),
                forall|w: int| 0 <= w < n ==> #[trigger] out_degree@[w] == lv[w].len(),
                forall|w: int| 0 <= w < n ==> #[trigger] in_degree@[w] == uv[w].len(),
                sinks@ == start_sinks(lv, v as int),
                sources@ == start_sources(lv, uv, v as int),
        {
            let ghost old_sinks = sinks@;
            if out_degree[v] == 0 {
                sinks.push_back(v);
            }
            if in_degree[v] == 0 && out_degree[v] > 0 {
                sources.push_back(v);
            }
            proof {
                assert forall|w: int| 0 <= w < v + 1 && #[trigger] out_degree@[w] == 0 implies sinks@.contains(w as usize) by {
                    if w < v {
                        let k = choose|k: int| 0 <= k < old_sinks.len() && old_sinks[k] == w as usize;
                        assert(sinks@[k] == w as usize);
                    } else {
                        assert(sinks@[sinks@.len() - 1] == v);
                    }
                }
            }
        }
        let mut state = PeelState { graph: self, out_degree, in_degree, removed, sinks, sources };
        proof {
            assert(state.model(Seq::empty(), Seq::empty()) =~= start);
            assert forall|w: int| 0 <= w < n implies #[trigger] state.out_degree@[w] == live_count(self.lowers@[w]@, state.removed@) by {
                assert(sorted_nodes(self.lowers@[w]@, self.n()));
                lemma_live_count_full(self.lowers@[w]@, state.removed@);
            }
            assert forall|w: int| 0 <= w < n implies #[trigger] state.in_degree@[w] == live_count(self.uppers@[w]@, state.removed@) by {
                assert(sorted_nodes(self.uppers@[w]@, self.n()));
                lemma_live_count_full(self.uppers@[w]@, state.removed@);
            }
            assert(state.removed@ =~= Seq::new(n as nat, |i: int| false));
            lemma_unremoved_all_false(n as nat);
        }

        let mut front: Vec<usize> = Vec::new();
        let mut back: Vec<usize> = Vec::new();
        let mut remaining = n;
        let ghost mut picked = false;
        let ghost mut key: Seq<int> = Seq::new(n as nat, |i: int| 0int);
        let ghost nn = n as int;
        let ghost mut k: nat = 0;
        while remaining > 0
            invariant
                lv == self.lowers_view(),
                uv == self.uppers_view(),
                start == peel_start(lv, uv),
                lv.len() == n,
                state.model(front@, back@) == peel_steps(lv, uv, start, k),
                forall|j: nat| j < k ==> !all_removed(#[trigger] peel_steps(lv, uv, start, j), n as nat),
                state.graph == self,
                state.inv(),
                n == self.n(),
                nn == n as int,
                remaining == unremoved_count(state.removed@),
                self.peel_order_inv(state.removed@, key, front@, back@, remaining as int, picked),
                self.acyclic() ==> !picked,
            decreases remaining, state.sinks@.len() + state.sources@.len(),
        {
            let ghost before = state.removed@;
            let ghost old_sinks = state.sinks@;
            let ghost old_sources = state.sources@;
            let ghost cur = state.model(front@, back@);
            proof {
                lemma_unremoved_positive(state.removed@);
                let w = choose|w: int| 0 <= w < state.removed@.len() && !state.removed@[w];
                assert(!cur.removed[w]);
                assert(!all_removed(cur, n as nat));
            }
            if state.sinks.len() > 0 {
                let v = state.sinks.pop_front().unwrap();
                proof {
                    assert(v == old_sinks[0]);
                    assert(v < n);
                    assert forall|w: int|
                        0 <= w < n && w != v as int && !state.removed@[w] && #[trigger] state.out_degree@[w] == 0
                        implies state.sinks@.contains(w as usize) by {
                        let k = choose|k: int| 0 <= k < old_sinks.len() && old_sinks[k] == w as usize;
                        assert(k != 0);
                        assert(state.sinks@[k - 1] == w as usize);
                    }
                    assert forall|i: int| 0 <= i < state.sinks@.len() implies #[trigger] state.sinks@[i] < n && (
                        !state.removed@[state.sinks@[i] as int] ==> state.out_degree@[state.sinks@[i] as int] == 0) by {
                        assert(state.sinks@[i] == old_sinks[i + 1]);
                    }
                    if !before[v as int] {
                        assert(state.out_degree@[v as int] == 0);
                        lemma_live_count_zero(self.lowers@[v as int]@, before);
                    }
                }
                let newly = state.remove(v, Ghost(front@), Ghost(back@));
                if newly {
                    let ghost old_back = back@;
                    let ghost old_rem = remaining as int;
                    back.push(v);
                    remaining = remaining - 1;
                    proof {
                        lemma_unremoved_remove(before, v as int);
                        let old_key = key;
                        key = key.update(v as int, 2 * nn - old_back.len());
                        assert forall|c: int| #[trigger] self.has_edge(v as int, c) implies before[c] by {
                            let k = choose|k: int| 0 <= k < self.lowers@[v as int]@.len() && self.lowers@[v as int]@[k] == c as usize;
                            assert(before[self.lowers@[v as int]@[k] as int]);
                        }
                        self.lemma_sink_step(before, old_key, front@, old_back, old_rem, picked, v as int);
                    }
                } else {
                    proof {
                        assert(state.removed@ =~= before);
                    }
                }
                proof {
                    assert(state.model(front@, back@) =~= peel_step(lv, uv, cur));
                    k = k + 1;
                }
                continue;
            }
            if state.sources.len() > 0 {
                let v = state.sources.pop_front().unwrap();
                proof {
                    assert(v == old_sources[0]);
                    assert(v < n);
                    assert forall|i: int| 0 <= i < state.sources@.len() implies #[trigger] state.sources@[i] < n && (
                        !state.removed@[state.sources@[i] as int] ==> state.in_degree@[state.sources@[i] as int] == 0) by {
                        assert(state.sources@[i] == old_sources[i + 1]);
                    }
                    if !before[v as int] {
                        assert(state.in_degree@[v as int] == 0);
                        lemma_live_count_zero(self.uppers@[v as int]@, before);
                    }
                }
                let newly = state.remove(v, Ghost(front@), Ghost(back@));
                if newly {
                    let ghost old_front = front@;
                    let ghost old_rem = remaining as int;
                    front.push(v);
                    remaining = remaining - 1;
                    proof {
                        lemma_unremoved_remove(before, v as int);
                        let old_key = key;
                        key = key.update(v as int, old_front.len() as int);
                        assert forall|p: int| #[trigger] self.has_edge(p, v as int) implies before[p] by {
                            assert(self.uppers@[v as int]@.contains(p as usize));
                            let k = choose|k: int| 0 <= k < self.uppers@[v as int]@.len() && self.uppers@[v as int]@[k] == p as usize;
                            assert(before[self.uppers@[v as int]@[k] as int]);
                        }
                        self.lemma_source_step(before, old_key, old_front, back@, old_rem, picked, v as int);
                    }
                } else {
                    proof {
                        assert(state.removed@ =~= before);
                    }
                }
                proof {
                    assert(state.model(front@, back@) =~= peel_step(lv, uv, cur));
                    k = k + 1;
                }
                continue;
            }

            // Only cycles remain: move the node with the most outgoing surplus
            // to the front so it breaks as few edges as possible.
            proof {
                lemma_unremoved_positive(state.removed@);
                self.lemma_no_sink_means_cycle(state.removed@, state.out_degree@);
            }
            let pick = state.pick_max_surplus();
            proof {
                assert(!self.acyclic());
                assert forall|w: int| 0 <= w < n && !cur.removed[w] implies peel_surplus(cur, w) < peel_surplus(
                    cur,
                    pick as int,
                ) || (peel_surplus(cur, w) == peel_surplus(cur, pick as int) && pick <= w) by {
                    assert(state.surplus(w) == peel_surplus(cur, w));
                    assert(state.surplus(pick as int) == peel_surplus(cur, pick as int));
                }
                assert(is_max_surplus(cur, n as nat, pick as int));
                let p = choose|p: int| is_max_surplus(cur, n as nat, p);
                lemma_max_surplus_unique(cur, n as nat, p, pick as int);
            }
            state.remove(pick, Ghost(front@), Ghost(back@));
            let ghost old_front = front@;
            let ghost old_rem = remaining as int;
            front.push(pick);
            remaining = remaining - 1;
            proof {
                lemma_unremoved_remove(before, pick as int);
                let old_key = key;
                key = key.update(pick as int, old_front.len() as int);
                self.lemma_pick_step(before, old_key, old_front, back@, old_rem, picked, pick as int);
                picked = true;
                assert(state.model(front@, back@) =~= peel_step(lv, uv, cur));
                k = k + 1;
            }
        }
        proof {
            lemma_unremoved_zero(state.removed@);
            assert(all_removed(peel_steps(lv, uv, start, k), n as nat));
            assert(peel_ends_at(lv, uv, k));
            lemma_peel_ends_unique(lv, uv, k);
        }
        let ghost fl = front@.len() as int;
        let ghost bl = back@.len() as int;
        let ghost front0 = front@;
        let ghost back0 = back@;
        let mut order = front;
        let mut k = back.len();
        while k > 0
            invariant
                0 <= k <= bl,
                bl == back@.len(),
                back@ == back0,
                order@.len() == fl + (bl - k),
                forall|t: int| 0 <= t < order@.len() ==> #[trigger] order@[t] == if t < fl {
                    front0[t]
                } else {
                    back0[bl - 1 - (t - fl)]
                },
            decreases k,
        {
            k = k - 1;
            order.push(back[k]);
        }
        proof {
            assert forall|t: int| 0 <= t < order@.len() implies #[trigger] order@[t] < n && key[order@[t] as int] == if t < fl {
                t
            } else {
                nn + 1 + t
            } by {
                if t >= fl {
                    assert(back0[bl - 1 - (t - fl)] == order@[t]);
                }
            }
            assert(order@ =~= front0 + back0.reverse());
            assert forall|i: int, j: int| 0 <= i < j < order@.len() implies order@[i] != order@[j] by {
                if order@[i] == order@[j] {
                    assert(key[order@[i] as int] == key[order@[j] as int]);
                }
            }
            if self.acyclic() {
                assert forall|i: int, j: int|
                    0 <= i < order@.len() && 0 <= j < order@.len() && #[trigger] self.has_edge(
                        order@[j] as int,
                        order@[i] as int,
                    ) implies j < i by {
                    assert(state.removed@[order@[j] as int]);
                    assert(state.removed@[order@[i] as int]);
                    assert(key[order@[j] as int] < key[order@[i] as int]);
                }
            }
        }
        order
    }
}

/// `n` distinct values below `n` include every value below `n`.
proof fn lemma_distinct_below_bound(s: Seq<usize>, n: int, v: int)
    requires
        s.len() == n,
        forall|i: int| 0 <= i < s.len() ==> s[i] < n,
        forall|a: int, b: int| 0 <= a < b < s.len() ==> s[a] != s[b],
        0 <= v < n,
        n <= usize::MAX,
    ensures
        s.contains(v as usize),
    decreases n,
{
    if n > 0 {
        let last = s.last();
        if last as int == v {
            assert(s[n - 1] == v as usize);
        } else {
            // Drop the last element and rename it to `last`'s slot, keeping
            // values below `n - 1` distinct.
            let t = Seq::new((n - 1) as nat, |i: int| if s[i] as int == n - 1 { last } else { s[i] });
            assert forall|a: int, b: int| 0 <= a < b < t.len() implies t[a] != t[b] by {
                if s[a] as int == n - 1 {
                    assert(s[b] != s[a]);
                    assert(s[b] != last);
                } else if s[b] as int == n - 1 {
                    assert(s[a] != last);
                }
            }
            if v == n - 1 {
                // Were `n - 1` missing, all `n` values would lie below `n - 1`.
                if !s.contains(v as usize) {
                    assert forall|i: int| 0 <= i < s.len() implies s[i] < n - 1 by {
                        assert(s[i] != v as usize);
                    }
                    lemma_pigeonhole(s, n);
                }
            } else {
                assert forall|i: int| 0 <= i < t.len() implies t[i] < n - 1 by {
                    if s[i] as int == n - 1 {
                        assert(last != s[i]);
                        assert(last < n);
                        assert(last as int != n - 1);
                    }
                }
                lemma_distinct_below_bound(t, n - 1, v);
                let i = choose|i: int| 0 <= i < t.len() && t[i] == v as usize;
                if s[i] as int == n - 1 {
                    assert(s[n - 1] == v as usize);
                } else {
                    assert(s[i] == v as usize);
                }
            }
        }
    }
}

/// `m` values that all lie below `m - 1` cannot be pairwise distinct.
proof fn lemma_pigeonhole(t: Seq<usize>, m: int)
    requires
        t.len() == m,
        m >= 1,
        forall|i: int| 0 <= i < t.len() ==> t[i] < m - 1,
    ensures
        !(forall|a: int, b: int| 0 <= a < b < t.len() ==> t[a] != t[b]),
    decreases m,
{
    if m == 1 {
        assert(t[0] < 0);
    } else if forall|a: int, b: int| 0 <= a < b < t.len() ==> t[a] != t[b] {
        let last = t.last();
        let u = Seq::new((m - 1) as nat, |i: int| if t[i] as int == m - 2 { last } else { t[i] });
        assert forall|i: int| 0 <= i < u.len() implies u[i] < m - 2 by {
            if t[i] as int == m - 2 {
                assert(last != t[i]);
            } else {
                assert(t[i] != t[m - 1]);
            }
        }
        lemma_pigeonhole(u, m - 1);
        let (a, b) = choose|a: int, b: int| 0 <= a < b < u.len() && u[a] == u[b];
        if t[a] as int == m - 2 {
            assert(t[b] != t[a]);
            assert(t[b] != last);
        } else if t[b] as int == m - 2 {
            assert(t[a] != last);
        }
    }
}

/// Result of rank assignment.
#[derive(Debug)]
pub struct RankAssignment {
    /// Map from node index to rank (layer).
    pub node_rank: Vec<usize>,
    /// Total number of ranks.
    pub num_ranks: usize,
    /// Nodes grouped by rank.
    pub nodes_by_rank: Vec<Vec<usize>>,
}

/// Number of ranks used: one more than the largest rank, 0 for no nodes.
pub open spec fn rank_count(ranks: Seq<usize>) -> nat
    decreases ranks.len(),
{
    if ranks.len() == 0 {
        0
    } else {
        let rest = rank_count(ranks.drop_last());
        if rest > ranks.last() + 1 {
            rest
        } else {
            (ranks.last() + 1) as nat
        }
    }
}

/// The node indices of rank `r`, in increasing order.
pub open spec fn nodes_with_rank(ranks: Seq<usize>, r: int) -> Seq<usize>
    decreases ranks.len(),
{
    if ranks.len() == 0 {
        Seq::empty()
    } else if ranks.last() == r {
        nodes_with_rank(ranks.drop_last(), r).push((ranks.len() - 1) as usize)
    } else {
        nodes_with_rank(ranks.drop_last(), r)
    }
}

impl RankAssignment {
    /// `num_ranks` and `nodes_by_rank` are derived from `node_rank`:
    /// every rank below `num_ranks` lists its nodes in increasing order.
    pub open spec fn groups_ranks(&self) -> bool {
        &&& self.num_ranks == rank_count(self.node_rank@)
        &&& self.nodes_by_rank@.len() == self.num_ranks
        &&& forall|r: int|
            0 <= r < self.num_ranks ==> (#[trigger] self.nodes_by_rank@[r])@ == nodes_with_rank(
                self.node_rank@,
                r,
            )
    }
}

proof fn lemma_rank_count_bound(ranks: Seq<usize>)
    ensures
        forall|i: int| 0 <= i < ranks.len() ==> #[trigger] ranks[i] < rank_count(ranks),
        ranks.len() > 0 ==> exists|i: int| 0 <= i < ranks.len() && ranks[i] + 1 == rank_count(ranks),
        ranks.len() == 0 ==> rank_count(ranks) == 0,
    decreases ranks.len(),
{
    if ranks.len() > 0 {
        lemma_rank_count_bound(ranks.drop_last());
        assert forall|i: int| 0 <= i < ranks.len() implies #[trigger] ranks[i] < rank_count(ranks) by {
            if i < ranks.len() - 1 {
                assert(ranks.drop_last()[i] == ranks[i]);
            }
        }
        if rank_count(ranks.drop_last()) > ranks.last() + 1 {
            let i = choose|i: int| 0 <= i < ranks.drop_last().len() && ranks.drop_last()[i] + 1 == rank_count(ranks.drop_last());
            assert(ranks[i] == ranks.drop_last()[i]);
        } else {
            assert(ranks[ranks.len() - 1] + 1 == rank_count(ranks));
        }
    }
}

fn build_rank_assignment(node_rank: Vec<usize>) -> (ra: RankAssignment)
    requires
        forall|i: int| 0 <= i < node_rank@.len() ==> node_rank@[i] < usize::MAX,
    ensures
        ra.node_rank@ == node_rank@,
        ra.groups_ranks(),
{
    let n = node_rank.len();
    let mut num_ranks: usize = 0;
    for i in 0..n
        invariant
            n == node_rank@.len(),
            forall|k: int| 0 <= k < node_rank@.len() ==> node_rank@[k] < usize::MAX,
            num_ranks == rank_count(node_rank@.subrange(0, i as int)),
    {
        proof {
            assert(node_rank@.subrange(0, i + 1).drop_last() =~= node_rank@.subrange(0, i as int));
        }
        if node_rank[i] + 1 > num_ranks {
            num_ranks = node_rank[i] + 1;
        }
    }
    proof {
        assert(node_rank@.subrange(0, n as int) =~= node_rank@);
        lemma_rank_count_bound(node_rank@);
    }
    let mut nodes_by_rank: Vec<Vec<usize>> = Vec::new();
    for r in 0..num_ranks
        invariant
            nodes_by_rank@.len() == r,
            forall|q: int| 0 <= q < r ==> (#[trigger] nodes_by_rank@[q])@.len() == 0,
    {
        nodes_by_rank.push(Vec::new());
    }
    for idx in 0..n
        invariant
            n == node_rank@.len(),
            num_ranks == rank_count(node_rank@),
            forall|k: int| 0 <= k < node_rank@.len() ==> #[trigger] node_rank@[k] < num_ranks,
            nodes_by_rank@.len() == num_ranks,
            forall|q: int|
                0 <= q < num_ranks ==> (#[trigger] nodes_by_rank@[q])@ == nodes_with_rank(
                    node_rank@.subrange(0, idx as int),
                    q,
                ),
    {
        let rank = node_rank[idx];
        let ghost before = nodes_by_rank@;
        nodes_by_rank[rank].push(idx);
        proof {
            let pre = node_rank@.subrange(0, idx + 1);
            assert(pre.drop_last() =~= node_rank@.subrange(0, idx as int));
            assert forall|q: int| 0 <= q < num_ranks implies (#[trigger] nodes_by_rank@[q])@ == nodes_with_rank(pre, q) by {
                if q != rank as int {
                    assert(nodes_by_rank@[q] == before[q]);
                }
            }
        }
    }
    proof {
        assert(node_rank@.subrange(0, n as int) =~= node_rank@);
    }
    RankAssignment { node_rank, num_ranks, nodes_by_rank }
}

/// `position` is the inverse of `order`, a permutation of `0..n`.
spec fn inverse_of(order: Seq<usize>, position: Seq<usize>, n: nat) -> bool {
    &&& order.len() == n
    &&& position.len() == n
    &&& forall|t: int| 0 <= t < n ==> #[trigger] order[t] < n && position[order[t] as int] == t
    &&& forall|v: int| 0 <= v < n ==> #[trigger] position[v] < n && order[position[v] as int] == v
}

/// Every edge listed in `forward` leads to a node placed later by `position`.
spec fn points_forward(position: Seq<usize>, forward: Seq<Vec<usize>>, n: nat) -> bool {
    &&& forward.len() == n
    &&& forall|x: int, k: int|
        0 <= x < n && 0 <= k < forward[x]@.len() ==> #[trigger] forward[x]@[k] < n
            && position[x] < position[forward[x]@[k] as int]
}

/// `forward` holds each edge of `g` once, oriented from the endpoint placed
/// first by `position` to the one placed later.
spec fn orients(g: &RankingGraph, position: Seq<usize>, forward: Seq<Vec<usize>>) -> bool {
    &&& points_forward(position, forward, g.n())
    &&& forall|x: int, k: int|
        0 <= x < g.n() && 0 <= k < forward[x]@.len() ==> g.has_edge(x, #[trigger] forward[x]@[k] as int)
            || g.has_edge(forward[x]@[k] as int, x)
    &&& forall|p: int, c: int|
        #[trigger] g.has_edge(p, c) ==> if position[p] < position[c] {
            forward[p]@.contains(c as usize)
        } else {
            forward[c]@.contains(p as usize)
        }
}

/// The position of every node within the permutation `order` of `0..n`.
fn invert_order(order: &Vec<usize>, n: usize) -> (position: Vec<usize>)
    requires
        order@.len() == n,
        forall|i: int| 0 <= i < n ==> #[trigger] order@[i] < n,
        forall|i: int, j: int| 0 <= i < j < n ==> order@[i] != order@[j],
    ensures
        inverse_of(order@, position@, n as nat),
{
    let mut position: Vec<usize> = Vec::new();
    for k in 0..n
        invariant
            position@.len() == k,
    {
        position.push(0);
    }
    for pos in 0..n
        invariant
            n == order@.len(),
            position@.len() == n,
            forall|i: int| 0 <= i < n ==> #[trigger] order@[i] < n,
            forall|i: int, j: int| 0 <= i < j < n ==> order@[i] != order@[j],
            forall|i: int| 0 <= i < pos ==> position@[#[trigger] order@[i] as int] == i,
    {
        position.set(order[pos], pos);
    }
    proof {
        assert forall|v: int| 0 <= v < n implies #[trigger] position@[v] < n && order@[position@[v] as int] == v by {
            lemma_distinct_below_bound(order@, n as int, v);
            let i = choose|i: int| 0 <= i < order@.len() && order@[i] == v as usize;
            assert(position@[order@[i] as int] == i);
        }
    }
    position
}

impl RankingGraph {
    /// Orient every edge forward along the node order given by `position`.
    /// Edges that point backward along the order form the feedback arc set;
    /// they are reversed for ranking purposes.
    fn orient_edges(&self, order: &Vec<usize>, position: &Vec<usize>) -> (forward: Vec<Vec<usize>>)
        requires
            self.wf(),
            inverse_of(order@, position@, self.n()),
        ensures
            orients(self, position@, forward@),
    {
        let n = self.lowers.len();
        let mut forward: Vec<Vec<usize>> = Vec::new();
        for k in 0..n
            invariant
                forward@.len() == k,
                forall|q: int| 0 <= q < k ==> (#[trigger] forward@[q])@.len() == 0,
        {
            forward.push(Vec::new());
        }
        for upper in 0..n
            invariant
                n == self.n(),
                self.wf(),
                inverse_of(order@, position@, self.n()),
                points_forward(position@, forward@, self.n()),
                forall|x: int, k: int|
                    0 <= x < n && 0 <= k < forward@[x]@.len() ==> self.has_edge(x, #[trigger] forward@[x]@[k] as int)
                        || self.has_edge(forward@[x]@[k] as int, x),
                forall|p: int, c: int|
                    0 <= p < upper && #[trigger] self.has_edge(p, c) ==> if position@[p] < position@[c] {
                        forward@[p]@.contains(c as usize)
                    } else {
                        forward@[c]@.contains(p as usize)
                    },
        {
            let lowers_len = self.lowers[upper].len();
            for j in 0..lowers_len
                invariant
                    n == self.n(),
                    self.wf(),
                    upper < n,
                    lowers_len == self.lowers@[upper as int]@.len(),
                    inverse_of(order@, position@, self.n()),
                    points_forward(position@, forward@, self.n()),
                    forall|x: int, k: int|
                        0 <= x < n && 0 <= k < forward@[x]@.len() ==> self.has_edge(x, #[trigger] forward@[x]@[k] as int)
                            || self.has_edge(forward@[x]@[k] as int, x),
                    forall|p: int, c: int|
                        0 <= p < upper && #[trigger] self.has_edge(p, c) ==> if position@[p] < position@[c] {
                            forward@[p]@.contains(c as usize)
                        } else {
                            forward@[c]@.contains(p as usize)
                        },
                    forall|k: int|
                        0 <= k < j ==> {
                            let c = #[trigger] self.lowers@[upper as int]@[k] as int;
                            if position@[upper as int] < position@[c] {
                                forward@[upper as int]@.contains(c as usize)
                            } else {
                                forward@[c]@.contains(upper)
                            }
                        },
            {
                let lower = self.lowers[upper][j];
                let ghost before = forward@;
                proof {
                    assert(sorted_nodes(self.lowers@[upper as int]@, n as nat));
                    assert(self.has_edge(upper as int, lower as int));
                    assert(order@[position@[upper as int] as int] == upper as int);
                    assert(order@[position@[lower as int] as int] == lower as int);
                }
                if position[upper] < position[lower] {
                    forward[upper].push(lower);
                } else {
                    forward[lower].push(upper);
                }
                proof {
                    assert forall|x: int, k: int| 0 <= x < n && 0 <= k < forward@[x]@.len() implies #[trigger] forward@[x]@[k] < n
                        && position@[x] < position@[forward@[x]@[k] as int] && (self.has_edge(x, forward@[x]@[k] as int)
                        || self.has_edge(forward@[x]@[k] as int, x)) by {
                        if k < before[x]@.len() {
                            assert(forward@[x]@[k] == before[x]@[k]);
                        }
                    }
                    assert forall|y: int, z: usize| 0 <= y < n && #[trigger] before[y]@.contains(z) implies forward@[y]@.contains(z) by {
                        let k = choose|k: int| 0 <= k < before[y]@.len() && before[y]@[k] == z;
                        assert(forward@[y]@[k] == z);
                    }
                    if position@[upper as int] < position@[lower as int] {
                        assert(forward@[upper as int]@[forward@[upper as int]@.len() - 1] == lower);
                    } else {
                        assert(forward@[lower as int]@[forward@[lower as int]@.len() - 1] == upper);
                    }
                }
            }
            proof {
                assert forall|p: int, c: int|
                    0 <= p < upper + 1 && #[trigger] self.has_edge(p, c) implies if position@[p] < position@[c] {
                        forward@[p]@.contains(c as usize)
                    } else {
                        forward@[c]@.contains(p as usize)
                    } by {
                    if p == upper {
                        let k = choose|k: int| 0 <= k < self.lowers@[upper as int]@.len() && self.lowers@[upper as int]@[k] == c as usize;
                        assert(self.lowers@[upper as int]@[k] as int == c);
                    }
                }
            }
        }
        forward
    }
}

/// Longest-path ranks over the forward edges: `order` is a topological order
/// of them, so a single sweep along it settles every node before its
/// successors are relaxed.
#[verifier::spinoff_prover]
#[verifier::rlimit(30)]
fn longest_path_sweep(order: &Vec<usize>, position: &Vec<usize>, forward: &Vec<Vec<usize>>, n: usize) -> (node_rank: Vec<usize>)
    requires
        inverse_of(order@, position@, n as nat),
        points_forward(position@, forward@, n as nat),
    ensures
        node_rank@.len() == n,
        forall|v: int| 0 <= v < n ==> #[trigger] node_rank@[v] <= position@[v],
        forall|x: int, k: int|
            0 <= x < n && 0 <= k < forward@[x]@.len() ==> node_rank@[#[trigger] forward@[x]@[k] as int]
                >= node_rank@[x] + 1,
        forall|v: int|
            0 <= v < n && #[trigger] node_rank@[v] > 0 ==> exists|u: int|
                0 <= u < n && forward@[u]@.contains(v as usize) && node_rank@[u] + 1 == node_rank@[v],
{
    let mut node_rank: Vec<usize> = Vec::new();
    for k in 0..n
        invariant
            node_rank@.len() == k,
            forall|q: int| 0 <= q < k ==> #[trigger] node_rank@[q] == 0,
    {
        node_rank.push(0);
    }
    for i in 0..n
        invariant
            inverse_of(order@, position@, n as nat),
            points_forward(position@, forward@, n as nat),
            node_rank@.len() == n,
            forall|v: int| 0 <= v < n ==> #[trigger] node_rank@[v] <= position@[v],
            forall|x: int, k: int|
                0 <= x < n && position@[x] < i && 0 <= k < forward@[x]@.len() ==> node_rank@[#[trigger] forward@[x]@[k] as int]
                    >= node_rank@[x] + 1,
            forall|v: int|
                0 <= v < n && #[trigger] node_rank@[v] > 0 ==> exists|u: int|
                    0 <= u < n && position@[u] < i && forward@[u]@.contains(v as usize) && node_rank@[u] + 1
                        == node_rank@[v],
    {
        let u = order[i];
        proof {
            assert(order@[i as int] < n && position@[order@[i as int] as int] == i);
        }
        let next_rank = node_rank[u] + 1;
        let flen = forward[u].len();
        let ghost start = node_rank@;
        for j in 0..flen
            invariant
                inverse_of(order@, position@, n as nat),
                points_forward(position@, forward@, n as nat),
                u == order@[i as int],
                u < n,
                i < n,
                position@[u as int] == i,
                node_rank@.len() == n,
                flen == forward@[u as int]@.len(),
                next_rank == start[u as int] + 1,
                start.len() == n,
                start[u as int] <= i,
                forall|v: int| 0 <= v < n ==> #[trigger] node_rank@[v] <= position@[v],
                forall|v: int| 0 <= v < n ==> #[trigger] node_rank@[v] >= start[v],
                forall|v: int| 0 <= v < n && position@[v] <= i ==> #[trigger] node_rank@[v] == start[v],
                forall|k: int| 0 <= k < j ==> node_rank@[#[trigger] forward@[u as int]@[k] as int] >= next_rank,
                forall|v: int|
                    0 <= v < n && #[trigger] node_rank@[v] != start[v] ==> forward@[u as int]@.contains(v as usize)
                        && node_rank@[v] == next_rank,
        {
            let w = forward[u][j];
            proof {
                assert(forward@[u as int]@[j as int] < n);
                assert(position@[u as int] < position@[w as int]);
            }
            if node_rank[w] < next_rank {
                node_rank.set(w, next_rank);
            }
        }
        proof {
            assert forall|x: int, k: int|
                0 <= x < n && position@[x] < i + 1 && 0 <= k < forward@[x]@.len() implies node_rank@[#[trigger] forward@[x]@[k] as int]
                >= node_rank@[x] + 1 by {
                if position@[x] == i {
                    assert(order@[position@[x] as int] == x);
                    assert(x == u as int);
                }
            }
            assert forall|v: int|
                0 <= v < n && #[trigger] node_rank@[v] > 0 implies exists|u2: int|
                    0 <= u2 < n && position@[u2] < i + 1 && forward@[u2]@.contains(v as usize) && node_rank@[u2] + 1
                        == node_rank@[v] by {
                if node_rank@[v] != start[v] {
                    assert(node_rank@[u as int] == start[u as int]);
                } else {
                    let u2 = choose|u2: int|
                        0 <= u2 < n && position@[u2] < i && forward@[u2]@.contains(v as usize) && start[u2] + 1 == start[v];
                    assert(node_rank@[u2] == start[u2]);
                }
            }
        }
    }
    proof {
        assert forall|x: int, k: int|
            0 <= x < n && 0 <= k < forward@[x]@.len() implies node_rank@[#[trigger] forward@[x]@[k] as int]
            >= node_rank@[x] + 1 by {
            assert(position@[x] < n);
        }
        assert forall|v: int|
            0 <= v < n && #[trigger] node_rank@[v] > 0 implies exists|u: int|
                0 <= u < n && forward@[u]@.contains(v as usize) && node_rank@[u] + 1 == node_rank@[v] by {
            let u = choose|u: int|
                0 <= u < n && position@[u] < n && forward@[u]@.contains(v as usize) && node_rank@[u] + 1 == node_rank@[v];
        }
    }
    node_rank
}

/// Ranks that grow along every edge oriented by `order` and that each sit
/// one above an earlier neighbour follow the order's orientation.
proof fn lemma_ranks_follow_order(
    rg: &RankingGraph,
    graph: &LayoutGraph,
    order: Seq<usize>,
    position: Seq<usize>,
    forward: Seq<Vec<usize>>,
    node_rank: Seq<usize>,
)
    requires
        rg.wf(),
        rg.represents(graph),
        inverse_of(order, position, rg.n()),
        orients(rg, position, forward),
        node_rank.len() == rg.n(),
        forall|x: int, k: int|
            0 <= x < rg.n() && 0 <= k < forward[x]@.len() ==> node_rank[#[trigger] forward[x]@[k] as int]
                >= node_rank[x] + 1,
        forall|v: int|
            0 <= v < rg.n() && #[trigger] node_rank[v] > 0 ==> exists|u: int|
                0 <= u < rg.n() && forward[u]@.contains(v as usize) && node_rank[u] + 1 == node_rank[v],
    ensures
        forall|u: int, v: int|
            #[trigger] placed_before(order, u, v) && (ranking_edge(graph, u, v) || ranking_edge(graph, v, u))
                ==> node_rank[u] < node_rank[v],
        forall|v: int|
            0 <= v < rg.n() && #[trigger] node_rank[v] > 0 ==> exists|u: int|
                #[trigger] placed_before(order, u, v) && (ranking_edge(graph, u, v) || ranking_edge(graph, v, u))
                    && node_rank[u] + 1 == node_rank[v],
{
    let n = rg.n();
    assert forall|u: int, v: int|
        #[trigger] placed_before(order, u, v) && (ranking_edge(graph, u, v) || ranking_edge(graph, v, u))
        implies node_rank[u] < node_rank[v] by {
        let (i, j) = choose|i: int, j: int| 0 <= i < j < order.len() && order[i] == u && order[j] == v;
        assert(order[i] < n && position[order[i] as int] == i);
        assert(order[j] < n && position[order[j] as int] == j);
        if ranking_edge(graph, u, v) {
            assert(rg.has_edge(u, v));
        } else {
            assert(rg.has_edge(v, u));
        }
        assert(forward[u]@.contains(v as usize));
        let k = choose|k: int| 0 <= k < forward[u]@.len() && forward[u]@[k] == v as usize;
        assert(node_rank[forward[u]@[k] as int] >= node_rank[u] + 1);
    }
    assert forall|v: int| 0 <= v < n && #[trigger] node_rank[v] > 0 implies exists|u: int|
        #[trigger] placed_before(order, u, v) && (ranking_edge(graph, u, v) || ranking_edge(graph, v, u))
            && node_rank[u] + 1 == node_rank[v] by {
        let u = choose|u: int|
            0 <= u < n && forward[u]@.contains(v as usize) && node_rank[u] + 1 == node_rank[v];
        let k = choose|k: int| 0 <= k < forward[u]@.len() && forward[u]@[k] == v as usize;
        assert(position[u] < position[forward[u]@[k] as int]);
        assert(position[u] < n && order[position[u] as int] == u);
        assert(position[v] < n && order[position[v] as int] == v);
        assert(placed_before(order, u, v));
        assert(rg.has_edge(u, forward[u]@[k] as int) || rg.has_edge(forward[u]@[k] as int, u));
    }
}

/// Assign ranks to nodes in the graph.
///
/// Referenced tables get lower ranks than the tables referencing them. Edges
/// that close a cycle are reversed (for ranking only) using the Eades–Lin–Smyth
/// greedy feedback arc set heuristic, so a strongly connected component spreads
/// over as few layers as its acyclic skeleton needs instead of one per node.
///
/// With every ranking edge oriented along that order ([`ranking_order`]),
/// each edge leads to a higher rank and every node of positive rank sits one
/// below a neighbour placed before it: the ranks are the longest-path ranks
/// of the oriented graph.
#[verifier::spinoff_prover]
pub fn assign_ranks(graph: &LayoutGraph) -> (ranks: RankAssignment)
    requires
        graph.indices_in_range(),
    ensures
        ranks.node_rank@.len() == graph.nodes@.len(),
        ranks.groups_ranks(),
        ranking_order(graph).len() == graph.nodes@.len(),
        forall|i: int| 0 <= i < ranking_order(graph).len() ==> #[trigger] ranking_order(graph)[i] < graph.nodes@.len(),
        forall|i: int, j: int|
            0 <= i < j < ranking_order(graph).len() ==> ranking_order(graph)[i] != ranking_order(graph)[j],
        forall|u: int, v: int|
            #[trigger] placed_before(ranking_order(graph), u, v) && (ranking_edge(graph, u, v) || ranking_edge(
                graph,
                v,
                u,
            )) ==> ranks.node_rank@[u] < ranks.node_rank@[v],
        forall|v: int|
            0 <= v < graph.nodes@.len() && #[trigger] ranks.node_rank@[v] > 0 ==> exists|u: int|
                #[trigger] placed_before(ranking_order(graph), u, v) && (ranking_edge(graph, u, v) || ranking_edge(
                    graph,
                    v,
                    u,
                )) && ranks.node_rank@[u] + 1 == ranks.node_rank@[v],
        forall|p: int, c: int|
            #[trigger] ranking_edge(graph, p, c) && 0 <= p < graph.nodes@.len() && 0 <= c
                < graph.nodes@.len() ==> ranks.node_rank@[p] != ranks.node_rank@[c],
        forall|v: int|
            0 <= v < graph.nodes@.len() && #[trigger] ranks.node_rank@[v] > 0 ==> exists|u: int|
                0 <= u < graph.nodes@.len() && (ranking_edge(graph, u, v) || ranking_edge(graph, v, u))
                    && ranks.node_rank@[u] + 1 == ranks.node_rank@[v],
        ranking_acyclic(graph) ==> forall|p: int, c: int|
            #[trigger] ranking_edge(graph, p, c) && 0 <= p < graph.nodes@.len() && 0 <= c
                < graph.nodes@.len() ==> ranks.node_rank@[p] < ranks.node_rank@[c],
        ranking_acyclic(graph) ==> forall|v: int|
            0 <= v < graph.nodes@.len() && #[trigger] ranks.node_rank@[v] > 0 ==> exists|p: int|
                0 <= p < graph.nodes@.len() && ranking_edge(graph, p, v) && ranks.node_rank@[p] + 1
                    == ranks.node_rank@[v],
{
    let n = graph.nodes.len();
    let ranking_graph = RankingGraph::from_layout_graph(graph);
    proof {
        if ranking_acyclic(graph) {
            let f = choose|f: Seq<int>| #[trigger] potential_increases(graph, f);
            assert(ranking_graph.potential(f));
        }
    }
    proof {
        ranking_graph.lemma_lists_of_graph(graph);
    }
    let order = ranking_graph.greedy_acyclic_order();
    let position = invert_order(&order, n);
    let forward = ranking_graph.orient_edges(&order, &position);
    let node_rank = longest_path_sweep(&order, &position, &forward, n);
    proof {
        assert forall|p: int, c: int|
            #[trigger] ranking_edge(graph, p, c) && 0 <= p < n && 0 <= c < n implies node_rank@[p] != node_rank@[c] by {
            assert(ranking_graph.has_edge(p, c));
            if position@[p] < position@[c] {
                let k = choose|k: int| 0 <= k < forward@[p]@.len() && forward@[p]@[k] == c as usize;
                assert(node_rank@[forward@[p]@[k] as int] >= node_rank@[p] + 1);
            } else {
                let k = choose|k: int| 0 <= k < forward@[c]@.len() && forward@[c]@[k] == p as usize;
                assert(node_rank@[forward@[c]@[k] as int] >= node_rank@[c] + 1);
            }
        }
        assert forall|v: int|
            0 <= v < n && #[trigger] node_rank@[v] > 0 implies exists|u: int|
                0 <= u < n && (ranking_edge(graph, u, v) || ranking_edge(graph, v, u))
                    && node_rank@[u] + 1 == node_rank@[v] by {
            let u = choose|u: int|
                0 <= u < n && forward@[u]@.contains(v as usize) && node_rank@[u] + 1 == node_rank@[v];
            let k = choose|k: int| 0 <= k < forward@[u]@.len() && forward@[u]@[k] == v as usize;
            assert(ranking_graph.has_edge(u, forward@[u]@[k] as int) || ranking_graph.has_edge(forward@[u]@[k] as int, u));
        }
        if ranking_acyclic(graph) {
            assert(ranking_graph.acyclic());
            assert forall|p: int, c: int|
                #[trigger] ranking_edge(graph, p, c) && 0 <= p < n && 0 <= c < n implies node_rank@[p] < node_rank@[c] by {
                assert(ranking_graph.has_edge(p, c));
                assert(position@[p] < n && order@[position@[p] as int] == p);
                assert(position@[c] < n && order@[position@[c] as int] == c);
                assert(position@[p] < position@[c]);
                let k = choose|k: int| 0 <= k < forward@[p]@.len() && forward@[p]@[k] == c as usize;
                assert(node_rank@[forward@[p]@[k] as int] >= node_rank@[p] + 1);
            }
            assert forall|v: int|
                0 <= v < n && #[trigger] node_rank@[v] > 0 implies exists|p: int|
                    0 <= p < n && ranking_edge(graph, p, v) && node_rank@[p] + 1 == node_rank@[v] by {
                let u = choose|u: int|
                    0 <= u < n && forward@[u]@.contains(v as usize) && node_rank@[u] + 1 == node_rank@[v];
                let k = choose|k: int| 0 <= k < forward@[u]@.len() && forward@[u]@[k] == v as usize;
                assert(forward@[u]@[k] < n);
                assert(position@[u] < position@[v]);
                assert(position@[u] < n && order@[position@[u] as int] == u);
                assert(position@[v] < n && order@[position@[v] as int] == v);
                assert(ranking_graph.has_edge(u, v));
            }
        }
        assert(order@ == ranking_order(graph));
        lemma_ranks_follow_order(&ranking_graph, graph, ranking_order(graph), position@, forward@, node_rank@);
        assert forall|q: int| 0 <= q < n implies node_rank@[q] < usize::MAX by {
            assert(node_rank@[q] <= position@[q]);
            assert(position@[q] < n);
        }
    }
    build_rank_assignment(node_rank)
}

} // verus!
