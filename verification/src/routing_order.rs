//! The order edges are routed in: by the ranks of their ends, then by their
//! ends' ids and columns, then by position, so that equal graphs route alike.

use vstd::prelude::*;

use crate::graph::{strings_model, LayoutEdge, LayoutGraph};
use crate::text::{
    chars_of, lemma_text_less_asymmetric, lemma_text_less_irreflexive, lemma_text_less_total,
    lemma_text_less_transitive, text_less, text_less_exec,
};

verus! {

/// The rank that orders an edge end: the rank of the node indexed under
/// `id`, or `usize::MAX` when there are no ranks, the end is not indexed, or
/// its index has no rank.
pub open spec fn end_rank(g: LayoutGraph, ranks: Option<Seq<usize>>, id: Seq<char>) -> usize {
    match ranks {
        None => usize::MAX,
        Some(r) => match g.index_of(id) {
            Some(i) => if i < r.len() {
                r[i as int]
            } else {
                usize::MAX
            },
            None => usize::MAX,
        },
    }
}

/// Lists of strings in dictionary order, string by string.
pub open spec fn list_less(a: Seq<Seq<char>>, b: Seq<Seq<char>>) -> bool
    decreases a.len(),
{
    if b.len() == 0 {
        false
    } else if a.len() == 0 {
        true
    } else if a[0] != b[0] {
        text_less(a[0], b[0])
    } else {
        list_less(a.drop_first(), b.drop_first())
    }
}

/// Edge `i` is routed before edge `j`: by source rank, target rank, source
/// id, target id, source columns, target columns, then position.
pub open spec fn routed_before(g: LayoutGraph, ranks: Option<Seq<usize>>, i: int, j: int) -> bool {
    let a = g.edges@[i];
    let b = g.edges@[j];
    let (fa, fb) = (end_rank(g, ranks, a.from@), end_rank(g, ranks, b.from@));
    let (ta, tb) = (end_rank(g, ranks, a.to@), end_rank(g, ranks, b.to@));
    let (ca, cb) = (strings_model(a.from_columns@), strings_model(b.from_columns@));
    let (da, db) = (strings_model(a.to_columns@), strings_model(b.to_columns@));
    if fa != fb {
        fa < fb
    } else if ta != tb {
        ta < tb
    } else if a.from@ != b.from@ {
        text_less(a.from@, b.from@)
    } else if a.to@ != b.to@ {
        text_less(a.to@, b.to@)
    } else if ca != cb {
        list_less(ca, cb)
    } else if da != db {
        list_less(da, db)
    } else {
        i < j
    }
}

/// No list comes before itself.
proof fn lemma_list_less_irreflexive(a: Seq<Seq<char>>)
    ensures
        !list_less(a, a),
    decreases a.len(),
{
    if a.len() > 0 {
        lemma_list_less_irreflexive(a.drop_first());
    }
}

/// Of two different lists one comes first.
proof fn lemma_list_less_total(a: Seq<Seq<char>>, b: Seq<Seq<char>>)
    ensures
        a == b || list_less(a, b) || list_less(b, a),
    decreases a.len(),
{
    if a.len() > 0 && b.len() > 0 {
        if a[0] != b[0] {
            lemma_text_less_total(a[0], b[0]);
        } else {
            lemma_list_less_total(a.drop_first(), b.drop_first());
            if a.drop_first() == b.drop_first() {
                assert(a =~= seq![a[0]] + a.drop_first());
                assert(b =~= seq![b[0]] + b.drop_first());
            }
        }
    } else if a.len() == 0 && b.len() == 0 {
        assert(a =~= b);
    }
}

/// The order of lists is transitive.
proof fn lemma_list_less_transitive(a: Seq<Seq<char>>, b: Seq<Seq<char>>, c: Seq<Seq<char>>)
    requires
        list_less(a, b),
        list_less(b, c),
    ensures
        list_less(a, c),
    decreases a.len(),
{
    if a.len() > 0 && b.len() > 0 && c.len() > 0 {
        if a[0] == b[0] && b[0] == c[0] {
            lemma_list_less_transitive(a.drop_first(), b.drop_first(), c.drop_first());
        } else if a[0] == b[0] {
            assert(text_less(b[0], c[0]));
        } else if b[0] == c[0] {
            assert(text_less(a[0], b[0]));
        } else {
            lemma_text_less_transitive(a[0], b[0], c[0]);
            if a[0] == c[0] {
                lemma_text_less_asymmetric(a[0], b[0]);
            }
        }
    }
}

/// Two different edges are routed in one order or the other, never both.
pub proof fn lemma_routed_before_strict_total(g: LayoutGraph, ranks: Option<Seq<usize>>, i: int, j: int)
    ensures
        i == j ==> !routed_before(g, ranks, i, j),
        i != j ==> (routed_before(g, ranks, i, j) <==> !routed_before(g, ranks, j, i)),
{
    let a = g.edges@[i];
    let b = g.edges@[j];
    let (ca, cb) = (strings_model(a.from_columns@), strings_model(b.from_columns@));
    let (da, db) = (strings_model(a.to_columns@), strings_model(b.to_columns@));
    lemma_text_less_total(a.from@, b.from@);
    lemma_text_less_total(a.to@, b.to@);
    lemma_list_less_total(ca, cb);
    lemma_list_less_total(da, db);
    lemma_text_less_irreflexive(a.from@);
    lemma_text_less_irreflexive(a.to@);
    lemma_list_less_irreflexive(ca);
    lemma_list_less_irreflexive(da);
    if text_less(a.from@, b.from@) {
        lemma_text_less_asymmetric(a.from@, b.from@);
    }
    if text_less(b.from@, a.from@) {
        lemma_text_less_asymmetric(b.from@, a.from@);
    }
    if text_less(a.to@, b.to@) {
        lemma_text_less_asymmetric(a.to@, b.to@);
    }
    if text_less(b.to@, a.to@) {
        lemma_text_less_asymmetric(b.to@, a.to@);
    }
    if list_less(ca, cb) && list_less(cb, ca) {
        lemma_list_less_transitive(ca, cb, ca);
    }
    if list_less(da, db) && list_less(db, da) {
        lemma_list_less_transitive(da, db, da);
    }
}

/// The routing order is transitive.
pub proof fn lemma_routed_before_transitive(g: LayoutGraph, ranks: Option<Seq<usize>>, i: int, j: int, k: int)
    requires
        routed_before(g, ranks, i, j),
        routed_before(g, ranks, j, k),
    ensures
        routed_before(g, ranks, i, k),
{
    let (a, b, c) = (g.edges@[i], g.edges@[j], g.edges@[k]);
    let (ca, cb, cc) = (strings_model(a.from_columns@), strings_model(b.from_columns@), strings_model(c.from_columns@));
    let (da, db, dc) = (strings_model(a.to_columns@), strings_model(b.to_columns@), strings_model(c.to_columns@));
    if text_less(a.from@, b.from@) && text_less(b.from@, c.from@) {
        lemma_text_less_transitive(a.from@, b.from@, c.from@);
    }
    if text_less(a.to@, b.to@) && text_less(b.to@, c.to@) {
        lemma_text_less_transitive(a.to@, b.to@, c.to@);
    }
    if list_less(ca, cb) && list_less(cb, cc) {
        lemma_list_less_transitive(ca, cb, cc);
    }
    if list_less(da, db) && list_less(db, dc) {
        lemma_list_less_transitive(da, db, dc);
    }
    if a.from@ == c.from@ && text_less(a.from@, b.from@) && text_less(b.from@, c.from@) {
        lemma_text_less_asymmetric(a.from@, b.from@);
    }
    if a.to@ == c.to@ && text_less(a.to@, b.to@) && text_less(b.to@, c.to@) {
        lemma_text_less_asymmetric(a.to@, b.to@);
    }
    if ca == cc && list_less(ca, cb) && list_less(cb, cc) {
        lemma_list_less_transitive(cb, cc, cb);
        lemma_list_less_irreflexive(cb);
    }
    if da == dc && list_less(da, db) && list_less(db, dc) {
        lemma_list_less_transitive(db, dc, db);
        lemma_list_less_irreflexive(db);
    }
}

/// Whether two character lists are equal.
fn chars_equal(a: &Vec<char>, b: &Vec<char>) -> (r: bool)
    ensures
        r == (a@ == b@),
{
    if a.len() != b.len() {
        return false;
    }
    for i in 0..a.len()
        invariant
            a@.len() == b@.len(),
            forall|q: int| 0 <= q < i ==> a@[q] == b@[q],
    {
        if a[i] != b[i] {
            return false;
        }
    }
    proof {
        assert(a@ =~= b@);
    }
    true
}

/// Whether `a` comes before `b` in the order of string lists.
fn list_less_exec(a: &Vec<String>, b: &Vec<String>) -> (r: bool)
    ensures
        r == list_less(strings_model(a@), strings_model(b@)),
{
    let ghost sa = strings_model(a@);
    let ghost sb = strings_model(b@);
    proof {
        assert(sa.subrange(0, sa.len() as int) =~= sa);
        assert(sb.subrange(0, sb.len() as int) =~= sb);
    }
    let mut i: usize = 0;
    while i < a.len() && i < b.len()
        invariant
            sa == strings_model(a@),
            sb == strings_model(b@),
            i <= a@.len(),
            i <= b@.len(),
            list_less(sa, sb) == list_less(sa.subrange(i as int, sa.len() as int), sb.subrange(i as int, sb.len() as int)),
        decreases a@.len() - i,
    {
        let x = chars_of(a[i].as_str());
        let y = chars_of(b[i].as_str());
        let ghost ra = sa.subrange(i as int, sa.len() as int);
        let ghost rb = sb.subrange(i as int, sb.len() as int);
        proof {
            assert(ra[0] == x@);
            assert(rb[0] == y@);
            assert(ra.drop_first() =~= sa.subrange(i + 1, sa.len() as int));
            assert(rb.drop_first() =~= sb.subrange(i + 1, sb.len() as int));
        }
        if !chars_equal(&x, &y) {
            return text_less_exec(&x, &y);
        }
        i = i + 1;
    }
    proof {
        let ra = sa.subrange(i as int, sa.len() as int);
        let rb = sb.subrange(i as int, sb.len() as int);
        assert(ra.len() == 0 || rb.len() == 0);
    }
    i == a.len() && i < b.len()
}

/// The rank of the node indexed under `node_id`, when it is indexed and
/// has a rank.
fn node_rank_for_edge_endpoint(graph: &LayoutGraph, node_ranks: &[usize], node_id: &String) -> (r: Option<usize>)
    ensures
        r == match graph.index_of(node_id@) {
            Some(i) => if i < node_ranks@.len() {
                Some(node_ranks@[i as int])
            } else {
                None
            },
            None => None,
        },
{
    match graph.node_index.get(node_id.as_str()) {
        Some(i) => if i < node_ranks.len() {
            Some(node_ranks[i])
        } else {
            None
        },
        None => None,
    }
}

/// The rank that orders an edge end: its node's rank, or `usize::MAX`.
fn edge_sort_rank(graph: &LayoutGraph, node_ranks: Option<&[usize]>, node_id: &String) -> (r: usize)
    ensures
        r == end_rank(*graph, match node_ranks {
            Some(v) => Some(v@),
            None => None,
        }, node_id@),
{
    match node_ranks {
        None => usize::MAX,
        Some(ranks) => match node_rank_for_edge_endpoint(graph, ranks, node_id) {
            Some(rank) => rank,
            None => usize::MAX,
        },
    }
}

/// Whether edge `i` is routed before edge `j`.
fn routed_before_exec(graph: &LayoutGraph, node_ranks: Option<&[usize]>, i: usize, j: usize) -> (r: bool)
    requires
        i < graph.edges@.len(),
        j < graph.edges@.len(),
    ensures
        r == routed_before(*graph, match node_ranks {
            Some(v) => Some(v@),
            None => None,
        }, i as int, j as int),
{
    let a = &graph.edges[i];
    let b = &graph.edges[j];
    let fa = edge_sort_rank(graph, node_ranks, &a.from);
    let fb = edge_sort_rank(graph, node_ranks, &b.from);
    if fa != fb {
        return fa < fb;
    }
    let ta = edge_sort_rank(graph, node_ranks, &a.to);
    let tb = edge_sort_rank(graph, node_ranks, &b.to);
    if ta != tb {
        return ta < tb;
    }
    let af = chars_of(a.from.as_str());
    let bf = chars_of(b.from.as_str());
    if !chars_equal(&af, &bf) {
        return text_less_exec(&af, &bf);
    }
    let at = chars_of(a.to.as_str());
    let bt = chars_of(b.to.as_str());
    if !chars_equal(&at, &bt) {
        return text_less_exec(&at, &bt);
    }
    let from_less = list_less_exec(&a.from_columns, &b.from_columns);
    let from_greater = list_less_exec(&b.from_columns, &a.from_columns);
    if from_less || from_greater {
        proof {
            lemma_list_less_irreflexive(strings_model(a.from_columns@));
        }
        return from_less;
    }
    proof {
        lemma_list_less_total(strings_model(a.from_columns@), strings_model(b.from_columns@));
    }
    let to_less = list_less_exec(&a.to_columns, &b.to_columns);
    let to_greater = list_less_exec(&b.to_columns, &a.to_columns);
    if to_less || to_greater {
        proof {
            lemma_list_less_irreflexive(strings_model(a.to_columns@));
        }
        return to_less;
    }
    proof {
        lemma_list_less_total(strings_model(a.to_columns@), strings_model(b.to_columns@));
    }
    i < j
}

/// The edge indices in routing order: every index once, each edge routed
/// before all that follow it.
pub fn stable_edge_routing_order(graph: &LayoutGraph, node_ranks: Option<&[usize]>) -> (order: Vec<usize>)
    ensures
        order@.len() == graph.edges@.len(),
        forall|p: int| 0 <= p < order@.len() ==> #[trigger] order@[p] < graph.edges@.len(),
        forall|p: int, q: int| 0 <= p < q < order@.len() ==> order@[p] != order@[q],
        forall|p: int, q: int|
            0 <= p < q < order@.len() ==> routed_before(*graph, match node_ranks {
                Some(v) => Some(v@),
                None => None,
            }, #[trigger] order@[p] as int, #[trigger] order@[q] as int),
{
    let ghost ranks = match node_ranks {
        Some(v) => Some(v@),
        None => None,
    };
    let n = graph.edges.len();
    let mut order: Vec<usize> = Vec::new();
    for k in 0..n
        invariant
            n == graph.edges@.len(),
            ranks == match node_ranks {
                Some(v) => Some(v@),
                None => None,
            },
            order@.len() == k,
            forall|p: int| 0 <= p < order@.len() ==> #[trigger] order@[p] < k,
            forall|p: int, q: int| 0 <= p < q < order@.len() ==> order@[p] != order@[q],
            forall|p: int, q: int|
                0 <= p < q < order@.len() ==> routed_before(*graph, ranks, #[trigger] order@[p] as int, #[trigger] order@[q] as int),
    {
        let mut pos: usize = 0;
        while pos < order.len() && !routed_before_exec(graph, node_ranks, k, order[pos])
            invariant
                n == graph.edges@.len(),
                k < n,
                ranks == match node_ranks {
                    Some(v) => Some(v@),
                    None => None,
                },
                pos <= order@.len(),
                order@.len() == k,
                forall|p: int| 0 <= p < order@.len() ==> #[trigger] order@[p] < k,
                forall|p: int| 0 <= p < pos ==> !routed_before(*graph, ranks, k as int, #[trigger] order@[p] as int),
            decreases order@.len() - pos,
        {
            pos = pos + 1;
        }
        let ghost before = order@;
        order.insert(pos, k);
        proof {
            assert forall|p: int| 0 <= p < pos implies routed_before(*graph, ranks, #[trigger] before[p] as int, k as int) by {
                lemma_routed_before_strict_total(*graph, ranks, k as int, before[p] as int);
            }
            assert forall|p: int| pos <= p < before.len() implies routed_before(*graph, ranks, k as int, #[trigger] before[p] as int) by {
                if p > pos {
                    lemma_routed_before_transitive(*graph, ranks, k as int, before[pos as int] as int, before[p] as int);
                }
            }
            assert forall|p: int| 0 <= p < order@.len() implies #[trigger] order@[p] < k + 1 by {
                if p < pos {
                    assert(order@[p] == before[p]);
                } else if p > pos {
                    assert(order@[p] == before[p - 1]);
                }
            }
            assert forall|p: int, q: int| 0 <= p < q < order@.len() implies order@[p] != order@[q] by {
                if p < pos {
                    assert(order@[p] == before[p]);
                }
                if p > pos {
                    assert(order@[p] == before[p - 1]);
                }
                if q < pos {
                    assert(order@[q] == before[q]);
                }
                if q > pos {
                    assert(order@[q] == before[q - 1]);
                }
            }
            assert forall|p: int, q: int| 0 <= p < q < order@.len() implies routed_before(*graph, ranks, #[trigger] order@[p] as int, #[trigger] order@[q] as int) by {
                if p < pos && q < pos {
                    assert(order@[p] == before[p] && order@[q] == before[q]);
                } else if p < pos && q == pos {
                    assert(order@[p] == before[p]);
                } else if p < pos && q > pos {
                    assert(order@[p] == before[p] && order@[q] == before[q - 1]);
                } else if p == pos {
                    assert(order@[q] == before[q - 1]);
                } else {
                    assert(order@[p] == before[p - 1] && order@[q] == before[q - 1]);
                }
            }
        }
    }
    order
}

} // verus!
