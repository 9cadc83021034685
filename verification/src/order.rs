//! Node ordering within layers.
//!
//! Reorders the nodes of each layer to reduce edge crossings between
//! adjacent layers (barycenter, median and sifting heuristics), and counts
//! the crossings of an ordering exactly.

use vstd::prelude::*;
use std::collections::BTreeMap;
use crate::graph::{LayoutGraph, lemma_index_of_in_range};
use crate::rank::RankAssignment;
use crate::tally::{
    tally, lemma_tally_add, lemma_tally_agree, lemma_tally_append, lemma_tally_bound, lemma_tally_map,
    lemma_tally_permutation, lemma_tally_prefix, lemma_tally_prefix_step, lemma_map_permutation, lemma_tally_mono,
    lemma_tally_all_one,
};

verus! {

broadcast use {vstd::seq_lib::group_to_multiset_ensures, vstd::multiset::group_multiset_axioms};

/// The elements of `s` in non-decreasing order.
pub open spec fn sorted_seq(s: Seq<usize>) -> bool {
    forall|i: int, j: int| 0 <= i <= j < s.len() ==> s[i] <= s[j]
}

/// Number of elements of `s` greater than `x`.
pub open spec fn count_greater(s: Seq<usize>, x: usize) -> nat {
    tally(s, |y: usize| if y > x { 1nat } else { 0nat })
}

/// Number of pairs `i < j` with `s[i] > s[j]`.
pub open spec fn inversions(s: Seq<usize>) -> nat
    decreases s.len(),
{
    if s.len() == 0 {
        0
    } else {
        inversions(s.drop_last()) + count_greater(s.drop_last(), s.last())
    }
}

/// Number of pairs `(a, b)`, `a` from `left` and `b` from `right`, with `a > b`.
pub open spec fn cross_inversions(left: Seq<usize>, right: Seq<usize>) -> nat {
    tally(right, |r: usize| count_greater(left, r))
}

proof fn lemma_count_greater_append(a: Seq<usize>, b: Seq<usize>, x: usize)
    ensures
        count_greater(a + b, x) == count_greater(a, x) + count_greater(b, x),
{
    lemma_tally_append(a, b, |y: usize| if y > x { 1nat } else { 0nat });
}

proof fn lemma_count_greater_permutation(a: Seq<usize>, b: Seq<usize>, x: usize)
    requires
        a.to_multiset() == b.to_multiset(),
    ensures
        count_greater(a, x) == count_greater(b, x),
{
    lemma_tally_permutation(a, b, |y: usize| if y > x { 1nat } else { 0nat });
}

/// Inversions of a concatenation: those inside each part plus those across.
proof fn lemma_inversions_append(left: Seq<usize>, right: Seq<usize>)
    ensures
        inversions(left + right) == inversions(left) + inversions(right) + cross_inversions(left, right),
    decreases right.len(),
{
    if right.len() == 0 {
        assert(left + right =~= left);
    } else {
        lemma_inversions_append(left, right.drop_last());
        let s = left + right;
        assert(s.drop_last() =~= left + right.drop_last());
        assert(s.last() == right.last());
        lemma_count_greater_append(left, right.drop_last(), right.last());
    }
}

/// Cross inversions do not depend on the order within either part.
proof fn lemma_cross_inversions_permutation(l1: Seq<usize>, l2: Seq<usize>, r1: Seq<usize>, r2: Seq<usize>)
    requires
        l1.to_multiset() == l2.to_multiset(),
        r1.to_multiset() == r2.to_multiset(),
    ensures
        cross_inversions(l1, r1) == cross_inversions(l2, r2),
{
    let g1 = |r: usize| count_greater(l1, r);
    let g2 = |r: usize| count_greater(l2, r);
    assert forall|i: int| 0 <= i < r1.len() implies g1(#[trigger] r1[i]) == g2(r1[i]) by {
        lemma_count_greater_permutation(l1, l2, r1[i]);
    }
    lemma_tally_agree(r1, g1, g2);
    lemma_tally_permutation(r1, r2, g2);
}

/// In a sorted sequence whose first `i` elements are at most `x` and whose
/// other elements exceed `x`, exactly `len - i` elements exceed `x`.
proof fn lemma_count_greater_sorted(s: Seq<usize>, i: int, x: usize)
    requires
        0 <= i <= s.len(),
        forall|a: int| 0 <= a < i ==> s[a] <= x,
        forall|a: int| i <= a < s.len() ==> s[a] > x,
    ensures
        count_greater(s, x) == s.len() - i,
    decreases s.len(),
{
    if s.len() > 0 {
        if i == s.len() {
            lemma_count_greater_sorted(s.drop_last(), i - 1, x);
            assert(s[s.len() - 1] <= x);
        } else {
            lemma_count_greater_sorted(s.drop_last(), i, x);
            assert(s[s.len() - 1] > x);
        }
    }
}

proof fn lemma_inversions_short(s: Seq<usize>)
    requires
        s.len() <= 1,
    ensures
        inversions(s) == 0,
{
    if s.len() == 1 {
        assert(s.drop_last().len() == 0);
        assert(inversions(s.drop_last()) == 0);
        assert(count_greater(s.drop_last(), s.last()) == 0);
    }
}

/// Counts inversions using merge sort in O(n log n).
pub fn count_inversions(arr: &Vec<usize>) -> (count: usize)
    requires
        inversions(arr@) <= usize::MAX,
    ensures
        count == inversions(arr@),
{
    if arr.len() <= 1 {
        proof {
            lemma_inversions_short(arr@);
        }
        return 0;
    }
    let mut work = arr.clone();
    merge_sort_count(&mut work)
}

/// Sorts `arr` in place with merge sort and returns its number of inversions.
pub fn merge_sort_count(arr: &mut Vec<usize>) -> (count: usize)
    requires
        inversions(old(arr)@) <= usize::MAX,
    ensures
        final(arr)@.len() == old(arr)@.len(),
        final(arr)@.to_multiset() == old(arr)@.to_multiset(),
        sorted_seq(final(arr)@),
        count == inversions(old(arr)@),
    decreases old(arr)@.len(),
{
    let n = arr.len();
    if n <= 1 {
        proof {
            lemma_inversions_short(arr@);
        }
        return 0;
    }
    let mid = n / 2;
    let ghost input = arr@;
    let mut left: Vec<usize> = Vec::new();
    let mut right: Vec<usize> = Vec::new();
    for t in 0..mid
        invariant
            mid <= n,
            n == arr@.len(),
            arr@ == input,
            left@ == input.subrange(0, t as int),
    {
        left.push(arr[t]);
        proof {
            assert(left@ =~= input.subrange(0, t + 1));
        }
    }
    for t in mid..n
        invariant
            mid <= n,
            n == arr@.len(),
            arr@ == input,
            right@ == input.subrange(mid as int, t as int),
    {
        right.push(arr[t]);
        proof {
            assert(right@ =~= input.subrange(mid as int, t + 1));
        }
    }
    let ghost left0 = left@;
    let ghost right0 = right@;
    proof {
        assert(input =~= left0 + right0);
        lemma_inversions_append(left0, right0);
    }
    let c1 = merge_sort_count(&mut left);
    let c2 = merge_sort_count(&mut right);
    proof {
        lemma_cross_inversions_permutation(left0, left@, right0, right@);
        lemma_multiset_commutative_for(left0, right0);
    }
    let cross = merge_counting(arr, &left, &right);
    c1 + c2 + cross
}

/// Merges the sorted `left` and `right` into `arr` and returns the number of
/// pairs `(a, b)`, `a` from `left` and `b` from `right`, with `a > b`.
fn merge_counting(arr: &mut Vec<usize>, left: &Vec<usize>, right: &Vec<usize>) -> (cross: usize)
    requires
        old(arr)@.len() == left@.len() + right@.len(),
        sorted_seq(left@),
        sorted_seq(right@),
        cross_inversions(left@, right@) <= usize::MAX,
    ensures
        final(arr)@.len() == old(arr)@.len(),
        final(arr)@.to_multiset() == left@.to_multiset().add(right@.to_multiset()),
        sorted_seq(final(arr)@),
        cross == cross_inversions(left@, right@),
{
    let n = arr.len();
    let llen = left.len();
    let rlen = right.len();
    let ghost g = |r: usize| count_greater(left@, r);
    let mut count: usize = 0;
    let mut i: usize = 0;
    let mut j: usize = 0;
    let mut k: usize = 0;
    while k < n
        invariant
            llen == left@.len(),
            rlen == right@.len(),
            n == llen + rlen,
            arr@.len() == n,
            i <= llen,
            j <= rlen,
            k == i + j,
            sorted_seq(left@),
            sorted_seq(right@),
            g == (|r: usize| count_greater(left@, r)),
            arr@.subrange(0, k as int).to_multiset() == left@.subrange(0, i as int).to_multiset().add(
                right@.subrange(0, j as int).to_multiset(),
            ),
            sorted_seq(arr@.subrange(0, k as int)),
            k > 0 && i < llen ==> arr@[k - 1] <= left@[i as int],
            k > 0 && j < rlen ==> arr@[k - 1] <= right@[j as int],
            forall|a: int, b: int| 0 <= a < i && j <= b < rlen ==> left@[a] <= right@[b],
            count == tally(right@.subrange(0, j as int), g),
            tally(right@, g) == cross_inversions(left@, right@),
            cross_inversions(left@, right@) <= usize::MAX,
        decreases n - k,
    {
        let ghost prefix = arr@.subrange(0, k as int);
        let take_left = j >= rlen || (i < llen && left[i] <= right[j]);
        if take_left {
            let x = left[i];
            arr.set(k, x);
            proof {
                assert(arr@.subrange(0, k + 1) =~= prefix.push(x));
                assert(left@.subrange(0, i + 1) =~= left@.subrange(0, i as int).push(x));
                assert(arr@.subrange(0, k + 1).to_multiset() =~= left@.subrange(0, i + 1).to_multiset().add(
                    right@.subrange(0, j as int).to_multiset(),
                ));
                assert forall|b: int| j <= b < rlen implies x <= right@[b] by {
                    assert(right@[j as int] <= right@[b]);
                }
                assert forall|a: int, b: int| 0 <= a <= b < k + 1 implies #[trigger] arr@.subrange(0, k + 1)[a]
                    <= #[trigger] arr@.subrange(0, k + 1)[b] by {
                    if b < k {
                        assert(prefix[a] <= prefix[b]);
                    } else if a < k {
                        assert(prefix[a] <= prefix[k - 1]);
                    }
                }
            }
            i = i + 1;
        } else {
            let y = right[j];
            proof {
                assert forall|a: int| i <= a < llen implies left@[a] > y by {
                    assert(left@[i as int] <= left@[a]);
                }
                lemma_count_greater_sorted(left@, i as int, y);
                lemma_tally_prefix_step(right@, j as int, g);
                lemma_tally_prefix(right@, j + 1, g);
            }
            count = count + (llen - i);
            arr.set(k, y);
            proof {
                assert(arr@.subrange(0, k + 1) =~= prefix.push(y));
                assert(right@.subrange(0, j + 1) =~= right@.subrange(0, j as int).push(y));
                assert(arr@.subrange(0, k + 1).to_multiset() =~= left@.subrange(0, i as int).to_multiset().add(
                    right@.subrange(0, j + 1).to_multiset(),
                ));
                assert forall|a: int, b: int| 0 <= a <= b < k + 1 implies #[trigger] arr@.subrange(0, k + 1)[a]
                    <= #[trigger] arr@.subrange(0, k + 1)[b] by {
                    if b < k {
                        assert(prefix[a] <= prefix[b]);
                    } else if a < k {
                        assert(prefix[a] <= prefix[k - 1]);
                    }
                }
            }
            j = j + 1;
        }
        k = k + 1;
    }
    proof {
        assert(arr@.subrange(0, n as int) =~= arr@);
        assert(left@.subrange(0, llen as int) =~= left@);
        assert(right@.subrange(0, rlen as int) =~= right@);
    }
    count
}

/// The layers of an ordering, as sequences of node indices.
pub open spec fn layers_view(layers: Seq<Vec<usize>>) -> Seq<Seq<usize>> {
    layers.map_values(|l: Vec<usize>| l@)
}

/// Places of the first `p` nodes of `row` (layer `rank`) added to `m`; a
/// later place of the same node replaces an earlier one.
pub open spec fn place_row(m: Map<usize, (usize, usize)>, row: Seq<usize>, rank: usize, p: nat) -> Map<
    usize,
    (usize, usize),
>
    decreases p,
{
    if p == 0 || p > row.len() {
        m
    } else {
        place_row(m, row, rank, (p - 1) as nat).insert(row[p - 1], (rank, (p - 1) as usize))
    }
}

/// `(layer, position)` of every node of the first `r` layers, filled layer
/// by layer and position by position: a node listed twice keeps its last place.
pub open spec fn placements(layers: Seq<Seq<usize>>, r: nat) -> Map<usize, (usize, usize)>
    decreases r,
{
    if r == 0 || r > layers.len() {
        Map::empty()
    } else {
        place_row(placements(layers, (r - 1) as nat), layers[r - 1], (r - 1) as usize, layers[r - 1].len())
    }
}

/// An edge `f -> t` between two adjacent layers, as `(upper layer, position
/// in the upper layer, position in the lower layer)`; `None` when an end is
/// not placed or the two ends are not in adjacent layers.
pub open spec fn layer_edge(place: Map<usize, (usize, usize)>, f: usize, t: usize) -> Option<(usize, usize, usize)> {
    if place.contains_key(f) && place.contains_key(t) {
        let (rf, pf) = place[f];
        let (rt, pt) = place[t];
        if rf + 1 == rt {
            Some((rf, pf, pt))
        } else if rt + 1 == rf {
            Some((rt, pt, pf))
        } else {
            None
        }
    } else {
        None
    }
}

/// Adjacent-layer edges of one map entry: the edges `(f, t)` listed under
/// their own source `f == key`, so that an edge listed under both of its
/// ends is taken once.
pub open spec fn entry_edges(place: Map<usize, (usize, usize)>, key: usize, list: Seq<(usize, usize)>) -> Seq<
    (usize, usize, usize),
>
    decreases list.len(),
{
    if list.len() == 0 {
        Seq::empty()
    } else {
        let prev = entry_edges(place, key, list.drop_last());
        let (f, t) = list.last();
        if f == key {
            match layer_edge(place, f, t) {
                Some(e) => prev.push(e),
                None => prev,
            }
        } else {
            prev
        }
    }
}

/// Adjacent-layer edges of a list of map entries, entry after entry.
pub open spec fn entries_edges(place: Map<usize, (usize, usize)>, kvs: Seq<(usize, Seq<(usize, usize)>)>) -> Seq<
    (usize, usize, usize),
>
    decreases kvs.len(),
{
    if kvs.len() == 0 {
        Seq::empty()
    } else {
        entries_edges(place, kvs.drop_last()) + entry_edges(place, kvs.last().0, kvs.last().1)
    }
}

/// The lists of a map of edge lists, as sequences.
pub open spec fn map_view(m: Map<usize, Vec<(usize, usize)>>) -> Map<usize, Seq<(usize, usize)>> {
    m.map_values(|v: Vec<(usize, usize)>| v@)
}

/// The entries of a map listed by increasing key.
pub open spec fn entries_in_key_order(m: Map<usize, Seq<(usize, usize)>>, kvs: Seq<(usize, Seq<(usize, usize)>)>) -> bool {
    &&& m.dom().finite()
    &&& kvs.len() == m.dom().len()
    &&& forall|i: int, j: int| 0 <= i < j < kvs.len() ==> kvs[i].0 < kvs[j].0
    &&& forall|i: int| 0 <= i < kvs.len() ==> #[trigger] m.contains_key(kvs[i].0) && m[kvs[i].0] == kvs[i].1
    &&& forall|k: usize| #[trigger] m.contains_key(k) ==> exists|i: int| 0 <= i < kvs.len() && kvs[i].0 == k
}

/// The edges of layer `r` (between layers `r` and `r + 1`), as
/// `(position in layer r, position in layer r + 1)`, in order.
pub open spec fn rank_pairs(edges: Seq<(usize, usize, usize)>, r: usize) -> Seq<(usize, usize)>
    decreases edges.len(),
{
    if edges.len() == 0 {
        Seq::empty()
    } else {
        let prev = rank_pairs(edges.drop_last(), r);
        let e = edges.last();
        if e.0 == r {
            prev.push((e.1, e.2))
        } else {
            prev
        }
    }
}

/// Edge `a` crosses edge `b`: it leaves further left and arrives further right.
pub open spec fn pair_crosses(a: (usize, usize), b: (usize, usize)) -> bool {
    a.0 < b.0 && a.1 > b.1
}

/// Number of edges of `s` that `a` crosses in this direction.
pub open spec fn crossings_with(s: Seq<(usize, usize)>, a: (usize, usize)) -> nat {
    tally(s, |b: (usize, usize)| if pair_crosses(a, b) { 1nat } else { 0nat })
}

/// Number of crossing pairs among the edges between two adjacent layers.
pub open spec fn pair_crossings(s: Seq<(usize, usize)>) -> nat {
    tally(s, |a: (usize, usize)| crossings_with(s, a))
}

/// Crossings between layers `r` and `r + 1`, summed over `r < n`.
pub open spec fn layered_crossings(edges: Seq<(usize, usize, usize)>, n: nat) -> nat
    decreases n,
{
    if n == 0 {
        0
    } else {
        layered_crossings(edges, (n - 1) as nat) + pair_crossings(rank_pairs(edges, (n - 1) as usize))
    }
}

/// Crossings of an ordering: edges come from the entries of the map in
/// increasing key order, and the crossings between every two adjacent layers
/// are summed.
pub open spec fn ordering_crossings(layers: Seq<Seq<usize>>, kvs: Seq<(usize, Seq<(usize, usize)>)>) -> nat {
    layered_crossings(
        entries_edges(placements(layers, layers.len()), kvs),
        if layers.len() == 0 { 0 } else { (layers.len() - 1) as nat },
    )
}

/// Pair `a` comes no later than pair `b` in lexicographic order.
pub open spec fn pair_le(a: (usize, usize), b: (usize, usize)) -> bool {
    a.0 < b.0 || (a.0 == b.0 && a.1 <= b.1)
}

/// The pairs of `s` in non-decreasing lexicographic order.
pub open spec fn sorted_pairs(s: Seq<(usize, usize)>) -> bool {
    forall|i: int, j: int| 0 <= i <= j < s.len() ==> pair_le(s[i], s[j])
}

/// The second components of a sequence of pairs.
pub open spec fn targets(s: Seq<(usize, usize)>) -> Seq<usize> {
    s.map_values(|p: (usize, usize)| p.1)
}

/// Crossing counts do not depend on the order of the edges.
proof fn lemma_pair_crossings_permutation(s: Seq<(usize, usize)>, t: Seq<(usize, usize)>)
    requires
        s.to_multiset() == t.to_multiset(),
    ensures
        pair_crossings(s) == pair_crossings(t),
{
    let hs = |a: (usize, usize)| crossings_with(s, a);
    let ht = |a: (usize, usize)| crossings_with(t, a);
    assert forall|i: int| 0 <= i < s.len() implies hs(#[trigger] s[i]) == ht(s[i]) by {
        lemma_tally_permutation(s, t, |b: (usize, usize)| if pair_crosses(s[i], b) { 1nat } else { 0nat });
    }
    lemma_tally_agree(s, hs, ht);
    lemma_tally_permutation(s, t, ht);
}

/// For edges sorted by (source, target), crossings are exactly the
/// inversions of the target positions.
proof fn lemma_pair_crossings_sorted(s: Seq<(usize, usize)>)
    requires
        sorted_pairs(s),
    ensures
        pair_crossings(s) == inversions(targets(s)),
    decreases s.len(),
{
    if s.len() > 0 {
        let p = s.drop_last();
        let x = s.last();
        assert(sorted_pairs(p));
        lemma_pair_crossings_sorted(p);
        assert(targets(s).drop_last() =~= targets(p));
        assert(targets(s).last() == x.1);
        let hs = |a: (usize, usize)| crossings_with(s, a);
        let hp = |a: (usize, usize)| crossings_with(p, a);
        let before_x = |a: (usize, usize)| if pair_crosses(a, x) { 1nat } else { 0nat };
        let above = |a: (usize, usize)| if a.1 > x.1 { 1nat } else { 0nat };
        // x crosses none of the edges sorted before it.
        let from_x = |b: (usize, usize)| if pair_crosses(x, b) { 1nat } else { 0nat };
        assert forall|i: int| 0 <= i < p.len() implies from_x(#[trigger] p[i]) <= 0 by {
            assert(pair_le(s[i], s[s.len() - 1]));
        }
        lemma_tally_bound(p, from_x, 0);
        assert(crossings_with(s, x) == 0);
        // every earlier edge gains one crossing when it crosses x.
        assert forall|i: int| 0 <= i < p.len() implies hs(#[trigger] p[i]) == hp(p[i]) + before_x(p[i]) by {
            assert(s.drop_last() == p);
        }
        lemma_tally_add(p, hp, before_x, hs);
        assert forall|i: int| 0 <= i < p.len() implies before_x(#[trigger] p[i]) == above(p[i]) by {
            assert(pair_le(s[i], s[s.len() - 1]));
        }
        lemma_tally_agree(p, before_x, above);
        lemma_tally_map(p, |q: (usize, usize)| q.1, |y: usize| if y > x.1 { 1nat } else { 0nat }, above);
    }
}

/// Sorts pairs lexicographically (by insertion).
fn sort_pairs(v: &Vec<(usize, usize)>) -> (out: Vec<(usize, usize)>)
    ensures
        out@.to_multiset() == v@.to_multiset(),
        sorted_pairs(out@),
{
    let mut out: Vec<(usize, usize)> = Vec::new();
    for i in 0..v.len()
        invariant
            out@.to_multiset() == v@.subrange(0, i as int).to_multiset(),
            sorted_pairs(out@),
    {
        let x = v[i];
        let mut p: usize = 0;
        while p < out.len() && (out[p].0 < x.0 || (out[p].0 == x.0 && out[p].1 <= x.1))
            invariant
                p <= out@.len(),
                sorted_pairs(out@),
                forall|a: int| 0 <= a < p ==> pair_le(#[trigger] out@[a], x),
            decreases out@.len() - p,
        {
            p = p + 1;
        }
        let ghost before = out@;
        out.insert(p, x);
        proof {
            assert(v@.subrange(0, i + 1) =~= v@.subrange(0, i as int).push(x));
            assert(out@ == before.insert(p as int, x));
            assert forall|a: int, b: int| 0 <= a <= b < out@.len() implies pair_le(#[trigger] out@[a], #[trigger] out@[b]) by {
                if a < p && b > p {
                    assert(pair_le(before[a], x));
                    assert(out@[b] == before[b - 1]);
                    if p < before.len() {
                        assert(!pair_le(before[p as int], x));
                        assert(pair_le(before[p as int], before[b - 1]));
                    }
                } else if a == p && b > p {
                    assert(!pair_le(before[p as int], x));
                    assert(pair_le(before[p as int], before[b - 1]));
                } else if a < p && b == p {
                    assert(pair_le(before[a], x));
                } else if b < p {
                    assert(pair_le(before[a], before[b]));
                } else if a > p {
                    assert(pair_le(before[a - 1], before[b - 1]));
                }
            }
        }
    }
    proof {
        assert(v@.subrange(0, v@.len() as int) =~= v@);
    }
    out
}

/// Maps keyed by `usize` order and compare their keys as integers do.
proof fn lemma_usize_keys_ordered()
    ensures
        vstd::laws_cmp::obeys_cmp::<usize>(),
        vstd::std_specs::btree::key_obeys_cmp_spec::<usize>(),
{
    broadcast use vstd::laws_cmp::group_laws_cmp;
    broadcast use vstd::std_specs::btree::axiom_key_obeys_cmp_spec_meaning;
}

/// The entries produced by a map iterator come by increasing key and are
/// exactly the entries of the map.
proof fn lemma_iter_in_key_order(
    m: &BTreeMap<usize, Vec<(usize, usize)>>,
    entries: Seq<(&usize, &Vec<(usize, usize)>)>,
    kvs: Seq<(usize, Seq<(usize, usize)>)>,
)
    requires
        entries == vstd::std_specs::iter::IteratorSpec::remaining(&vstd::std_specs::btree::spec_btree_map_iter(m)),
        vstd::std_specs::btree::increasing_seq(entries.map_values(|kv: (&usize, &Vec<(usize, usize)>)| *kv.0)),
        kvs.len() == entries.len(),
        forall|i: int| 0 <= i < kvs.len() ==> #[trigger] kvs[i] == (*entries[i].0, entries[i].1@),
    ensures
        entries_in_key_order(map_view(m@), kvs),
{
    broadcast use vstd::std_specs::btree::axiom_increasing_seq_meaning;
    lemma_usize_keys_ordered();
    let keys = entries.map_values(|kv: (&usize, &Vec<(usize, usize)>)| *kv.0);
    assert forall|i: int, j: int| 0 <= i < j < kvs.len() implies kvs[i].0 < kvs[j].0 by {
        assert(vstd::std_specs::cmp::OrdSpec::cmp_spec(&keys[i], &keys[j]) is Less);
        assert(keys[i] == kvs[i].0);
        assert(keys[j] == kvs[j].0);
    }
    assert forall|i: int| 0 <= i < kvs.len() implies #[trigger] m@.contains_key(kvs[i].0) && m@[kvs[i].0]@ == kvs[i].1 by {
        assert(m@.contains_key(*entries[i].0));
        assert(m@[*entries[i].0] == *entries[i].1);
    }
    assert forall|k: usize| #[trigger] m@.contains_key(k) implies exists|i: int| 0 <= i < kvs.len() && kvs[i].0 == k by {
        assert(entries.contains((&k, &m@[k])));
        let i = choose|i: int| 0 <= i < entries.len() && entries[i] == (&k, &m@[k]);
        assert(kvs[i].0 == k);
    }
    assert(map_view(m@).dom() =~= m@.dom());
}

/// Builds the `(layer, position)` map of an ordering.
fn build_placements(nodes_by_rank: &Vec<Vec<usize>>) -> (position: BTreeMap<usize, (usize, usize)>)
    ensures
        position@ == placements(layers_view(nodes_by_rank@), nodes_by_rank@.len() as nat),
{
    proof {
        lemma_usize_keys_ordered();
    }
    let ghost layers = layers_view(nodes_by_rank@);
    let mut position: BTreeMap<usize, (usize, usize)> = BTreeMap::new();
    for rank_idx in 0..nodes_by_rank.len()
        invariant
            layers == layers_view(nodes_by_rank@),
            position@ == placements(layers, rank_idx as nat),
    {
        let rank_nodes = &nodes_by_rank[rank_idx];
        proof {
            assert(layers[rank_idx as int] == rank_nodes@);
        }
        for pos in 0..rank_nodes.len()
            invariant
                layers == layers_view(nodes_by_rank@),
                rank_idx < nodes_by_rank@.len(),
                rank_nodes@ == layers[rank_idx as int],
                position@ == place_row(placements(layers, rank_idx as nat), rank_nodes@, rank_idx, pos as nat),
        {
            position.insert(rank_nodes[pos], (rank_idx, pos));
        }
    }
    position
}

/// Count the number of edge crossings in the current ordering.
///
/// Every edge `(from, to)` listed in `edges_by_node` under its own source
/// `from` is taken once, whichever way it points, so an edge listed under
/// both of its ends counts once; edges whose ends sit in adjacent layers are
/// compared, and each crossing pair between two adjacent layers counts once.
/// Over the lists of [`build_edges_by_node`] this is [`graph_crossings`]
/// ([`lemma_edge_lists_take_each_edge_once`]).
pub fn count_crossings(
    nodes_by_rank: &Vec<Vec<usize>>,
    edges_by_node: &BTreeMap<usize, Vec<(usize, usize)>>,
) -> (crossings: usize)
    requires
        forall|kvs: Seq<(usize, Seq<(usize, usize)>)>|
            entries_in_key_order(map_view(edges_by_node@), kvs) ==> #[trigger] ordering_crossings(
                layers_view(nodes_by_rank@),
                kvs,
            ) <= usize::MAX,
    ensures
        exists|kvs: Seq<(usize, Seq<(usize, usize)>)>|
            entries_in_key_order(map_view(edges_by_node@), kvs) && crossings == #[trigger] ordering_crossings(
                layers_view(nodes_by_rank@),
                kvs,
            ),
{
    proof {
        lemma_usize_keys_ordered();
    }
    let ghost layers = layers_view(nodes_by_rank@);
    let position = build_placements(nodes_by_rank);
    let ghost place = position@;

    // Adjacent-layer edges, entry by entry.
    let mut all_edges: Vec<(usize, usize, usize)> = Vec::new();
    let ghost mut kvs: Seq<(usize, Seq<(usize, usize)>)> = Seq::empty();
    let entries = edges_by_node.iter();
    let ghost entry_seq = vstd::std_specs::iter::IteratorSpec::remaining(&entries);
    for kv in it: entries
        invariant
            place == position@,
            it.seq() == entry_seq,
            kvs.len() == it.index(),
            forall|i: int| 0 <= i < it.index() ==> #[trigger] kvs[i] == (*it.seq()[i].0, it.seq()[i].1@),
            all_edges@ == entries_edges(place, kvs),
    {
        let (key, list) = kv;
        let ghost before = all_edges@;
        for idx in 0..list.len()
            invariant
                place == position@,
                all_edges@ == before + entry_edges(place, *key, list@.subrange(0, idx as int)),
        {
            let (f, t) = list[idx];
            let ghost sub = list@.subrange(0, idx + 1);
            proof {
                assert(sub.drop_last() =~= list@.subrange(0, idx as int));
            }
            if f == *key {
                let from_place = position.get(&f);
                let to_place = position.get(&t);
                if let Some(fp) = from_place {
                    if let Some(tp) = to_place {
                        let (rf, pf) = *fp;
                        let (rt, pt) = *tp;
                        if rf < rt && rf + 1 == rt {
                            all_edges.push((rf, pf, pt));
                        } else if rt < rf && rt + 1 == rf {
                            all_edges.push((rt, pt, pf));
                        }
                    }
                }
            }
            proof {
                assert(all_edges@ =~= before + entry_edges(place, *key, sub));
            }
        }
        proof {
            assert(list@.subrange(0, list@.len() as int) =~= list@);
            let ghost new_kvs = kvs.push((*key, list@));
            assert(new_kvs.drop_last() == kvs);
            kvs = new_kvs;
        }
    }
    proof {
        lemma_iter_in_key_order(edges_by_node, entry_seq, kvs);
        assert(ordering_crossings(layers, kvs) <= usize::MAX);
    }
    let ghost num_layers: nat = if nodes_by_rank@.len() == 0 { 0 } else { (nodes_by_rank@.len() - 1) as nat };
    let mut crossings: usize = 0;
    let last = if nodes_by_rank.len() == 0 { 0 } else { nodes_by_rank.len() - 1 };
    for rank_idx in 0..last
        invariant
            last == num_layers,
            layered_crossings(all_edges@, num_layers) <= usize::MAX,
            crossings == layered_crossings(all_edges@, rank_idx as nat),
    {
        let mut edges_in_layer: Vec<(usize, usize)> = Vec::new();
        for e in 0..all_edges.len()
            invariant
                edges_in_layer@ == rank_pairs(all_edges@.subrange(0, e as int), rank_idx),
        {
            proof {
                assert(all_edges@.subrange(0, e + 1).drop_last() =~= all_edges@.subrange(0, e as int));
            }
            let (r, fp, tp) = all_edges[e];
            if r == rank_idx {
                edges_in_layer.push((fp, tp));
            }
        }
        proof {
            assert(all_edges@.subrange(0, all_edges@.len() as int) =~= all_edges@);
        }
        let sorted = sort_pairs(&edges_in_layer);
        let mut layer_targets: Vec<usize> = Vec::new();
        for q in 0..sorted.len()
            invariant
                layer_targets@ == targets(sorted@.subrange(0, q as int)),
        {
            proof {
                assert(targets(sorted@.subrange(0, q + 1)) =~= targets(sorted@.subrange(0, q as int)).push(sorted@[q as int].1));
            }
            layer_targets.push(sorted[q].1);
        }
        proof {
            assert(sorted@.subrange(0, sorted@.len() as int) =~= sorted@);
            lemma_pair_crossings_sorted(sorted@);
            lemma_pair_crossings_permutation(sorted@, edges_in_layer@);
            lemma_layered_crossings_monotone(all_edges@, (rank_idx + 1) as nat, num_layers);
        }
        let layer_crossings = count_inversions(&layer_targets);
        crossings = crossings + layer_crossings;
    }
    crossings
}

/// The adjacent-layer edges of the first `k` edges of the graph, each edge
/// once, in edge order.
pub open spec fn graph_layer_edges(graph: &LayoutGraph, place: Map<usize, (usize, usize)>, k: int) -> Seq<
    (usize, usize, usize),
>
    decreases k,
{
    if k <= 0 {
        Seq::empty()
    } else {
        let prev = graph_layer_edges(graph, place, k - 1);
        match edge_ends(graph, k - 1) {
            Some((f, t)) => match layer_edge(place, f, t) {
                Some(e) => prev.push(e),
                None => prev,
            },
            None => prev,
        }
    }
}

/// Crossings of an ordering among the edges of the graph, each edge taken
/// once: the crossing pairs of edges between every two adjacent layers,
/// whichever way the edges point.
pub open spec fn graph_crossings(graph: &LayoutGraph, layers: Seq<Seq<usize>>) -> nat {
    layered_crossings(
        graph_layer_edges(graph, placements(layers, layers.len()), graph.edges@.len() as int),
        if layers.len() == 0 { 0 } else { (layers.len() - 1) as nat },
    )
}

/// How often `p` occurs among the edges of layer `r`.
proof fn lemma_rank_pairs_count(s: Seq<(usize, usize, usize)>, r: usize, p: (usize, usize))
    ensures
        rank_pairs(s, r).to_multiset().count(p) == tally(
            s,
            |e: (usize, usize, usize)| if e.0 == r && (e.1, e.2) == p { 1nat } else { 0nat },
        ),
    decreases s.len(),
{
    if s.len() > 0 {
        lemma_rank_pairs_count(s.drop_last(), r, p);
    }
}

/// Crossing counts do not depend on the order of the edges.
proof fn lemma_layered_crossings_permutation(s: Seq<(usize, usize, usize)>, t: Seq<(usize, usize, usize)>, n: nat)
    requires
        s.to_multiset() == t.to_multiset(),
    ensures
        layered_crossings(s, n) == layered_crossings(t, n),
    decreases n,
{
    if n > 0 {
        lemma_layered_crossings_permutation(s, t, (n - 1) as nat);
        let r = (n - 1) as usize;
        assert forall|p: (usize, usize)| rank_pairs(s, r).to_multiset().count(p) == rank_pairs(t, r).to_multiset().count(
            p,
        ) by {
            lemma_rank_pairs_count(s, r, p);
            lemma_rank_pairs_count(t, r, p);
            lemma_tally_permutation(
                s,
                t,
                |e: (usize, usize, usize)| if e.0 == r && (e.1, e.2) == p { 1nat } else { 0nat },
            );
        }
        assert(rank_pairs(s, r).to_multiset() =~= rank_pairs(t, r).to_multiset());
        lemma_pair_crossings_permutation(rank_pairs(s, r), rank_pairs(t, r));
    }
}

/// How often `x` occurs among the adjacent-layer edges of the entries of `m`
/// under the keys below `j`.
pub open spec fn map_edge_count(
    place: Map<usize, (usize, usize)>,
    m: Map<usize, Seq<(usize, usize)>>,
    x: (usize, usize, usize),
    j: int,
) -> nat
    decreases j,
{
    if j <= 0 {
        0
    } else {
        map_edge_count(place, m, x, j - 1) + if m.contains_key((j - 1) as usize) {
            entry_edges(place, (j - 1) as usize, m[(j - 1) as usize]).to_multiset().count(x)
        } else {
            0
        }
    }
}

/// Replacing the list under one key changes the count by the difference.
proof fn lemma_map_edge_count_insert(
    place: Map<usize, (usize, usize)>,
    m: Map<usize, Seq<(usize, usize)>>,
    key: usize,
    list: Seq<(usize, usize)>,
    x: (usize, usize, usize),
    j: int,
)
    requires
        j <= usize::MAX + 1,
    ensures
        map_edge_count(place, m.insert(key, list), x, j) + (if j > key && m.contains_key(key) {
            entry_edges(place, key, m[key]).to_multiset().count(x)
        } else {
            0
        }) == map_edge_count(place, m, x, j) + (if j > key {
            entry_edges(place, key, list).to_multiset().count(x)
        } else {
            0
        }),
    decreases j,
{
    if j > 0 {
        lemma_map_edge_count_insert(place, m, key, list, x, j - 1);
    }
}

/// Removing a key takes its entry off the count.
proof fn lemma_map_edge_count_remove(
    place: Map<usize, (usize, usize)>,
    m: Map<usize, Seq<(usize, usize)>>,
    key: usize,
    x: (usize, usize, usize),
    j: int,
)
    requires
        j <= usize::MAX + 1,
    ensures
        map_edge_count(place, m.remove(key), x, j) + (if j > key && m.contains_key(key) {
            entry_edges(place, key, m[key]).to_multiset().count(x)
        } else {
            0
        }) == map_edge_count(place, m, x, j),
    decreases j,
{
    if j > 0 {
        lemma_map_edge_count_remove(place, m, key, x, j - 1);
    }
}

/// A map without entries counts nothing.
proof fn lemma_map_edge_count_empty(
    place: Map<usize, (usize, usize)>,
    m: Map<usize, Seq<(usize, usize)>>,
    x: (usize, usize, usize),
    j: int,
)
    requires
        m.dom().finite(),
        m.dom().len() == 0,
    ensures
        map_edge_count(place, m, x, j) == 0,
    decreases j,
{
    if j > 0 {
        lemma_map_edge_count_empty(place, m, x, j - 1);
        if m.contains_key((j - 1) as usize) {
            assert(m.dom().contains((j - 1) as usize));
        }
    }
}

/// The edges of a key-ordered listing, counted entry by entry.
proof fn lemma_entries_edges_count(
    place: Map<usize, (usize, usize)>,
    m: Map<usize, Seq<(usize, usize)>>,
    kvs: Seq<(usize, Seq<(usize, usize)>)>,
    x: (usize, usize, usize),
    n: int,
)
    requires
        entries_in_key_order(m, kvs),
        0 <= n <= usize::MAX + 1,
        forall|key: usize| #[trigger] m.contains_key(key) ==> key < n,
    ensures
        entries_edges(place, kvs).to_multiset().count(x) == map_edge_count(place, m, x, n),
    decreases kvs.len(),
{
    if kvs.len() == 0 {
        lemma_map_edge_count_empty(place, m, x, n);
    } else {
        let last = kvs.last();
        lemma_drop_largest_key(m, kvs);
        lemma_entries_edges_count(place, m.remove(last.0), kvs.drop_last(), x, n);
        lemma_map_edge_count_remove(place, m, last.0, x, n);
        assert(m.contains_key(kvs[kvs.len() - 1].0));
        lemma_multiset_commutative_for3(entries_edges(place, kvs.drop_last()), entry_edges(place, last.0, last.1));
    }
}

/// The multiset of a concatenation of edge triples is the sum of the two.
proof fn lemma_multiset_commutative_for3(a: Seq<(usize, usize, usize)>, b: Seq<(usize, usize, usize)>)
    ensures
        (a + b).to_multiset() == a.to_multiset().add(b.to_multiset()),
{
    vstd::seq_lib::lemma_multiset_commutative(a, b);
}

/// Appending an edge to the list of a key changes that key's layer edges
/// only when the key is the edge's source.
proof fn lemma_entry_edges_push(place: Map<usize, (usize, usize)>, key: usize, list: Seq<(usize, usize)>, y: (usize, usize))
    ensures
        entry_edges(place, key, list.push(y)) == if y.0 == key {
            match layer_edge(place, y.0, y.1) {
                Some(e) => entry_edges(place, key, list).push(e),
                None => entry_edges(place, key, list),
            }
        } else {
            entry_edges(place, key, list)
        },
{
    assert(list.push(y).drop_last() =~= list);
}

/// The edge lists of the first `k` edges hold each edge's layer edge once.
proof fn lemma_graph_edge_count(graph: &LayoutGraph, place: Map<usize, (usize, usize)>, x: (usize, usize, usize), k: nat)
    requires
        graph.indices_in_range(),
        k <= graph.edges@.len(),
    ensures
        map_edge_count(place, edge_lists(graph, k), x, graph.nodes@.len() as int) == graph_layer_edges(
            graph,
            place,
            k as int,
        ).to_multiset().count(x),
    decreases k,
{
    let n = graph.nodes@.len() as int;
    assert(graph.nodes.len() == graph.nodes@.len());
    if k == 0 {
        let empty = edge_lists(graph, 0);
        assert(empty.dom() =~= Set::<usize>::empty());
        lemma_map_edge_count_empty(place, empty, x, n);
    } else {
        lemma_graph_edge_count(graph, place, x, (k - 1) as nat);
        let prev = edge_lists(graph, (k - 1) as nat);
        let edge = graph.edges@[k - 1];
        lemma_index_of_in_range(graph, edge.from@);
        lemma_index_of_in_range(graph, edge.to@);
        match edge_ends(graph, k - 1) {
            Some((f, t)) => {
                let l1 = if prev.contains_key(f) { prev[f] } else { Seq::empty() };
                let m1 = prev.insert(f, l1.push((f, t)));
                let l2 = if m1.contains_key(t) { m1[t] } else { Seq::empty() };
                assert(edge_lists(graph, k) == m1.insert(t, l2.push((f, t))));
                assert(f < n && t < n);
                lemma_entry_edges_push(place, f, l1, (f, t));
                lemma_entry_edges_push(place, t, l2, (f, t));
                lemma_map_edge_count_insert(place, prev, f, l1.push((f, t)), x, n);
                lemma_map_edge_count_insert(place, m1, t, l2.push((f, t)), x, n);
                if !prev.contains_key(f) {
                    assert(entry_edges(place, f, l1) =~= Seq::<(usize, usize, usize)>::empty());
                }
                if !m1.contains_key(t) {
                    assert(entry_edges(place, t, l2) =~= Seq::<(usize, usize, usize)>::empty());
                }
                assert(f == t ==> layer_edge(place, f, t) is None);
            },
            None => {
                assert(edge_lists(graph, k) == prev);
            },
        }
    }
}

/// Counting crossings over the edge lists of a graph (every edge listed
/// under both of its ends) takes every edge once: the count is the number of
/// crossing pairs among the graph's edges between adjacent layers, whichever
/// way the edges point.
pub proof fn lemma_edge_lists_take_each_edge_once(
    graph: &LayoutGraph,
    layers: Seq<Seq<usize>>,
    kvs: Seq<(usize, Seq<(usize, usize)>)>,
)
    requires
        graph.indices_in_range(),
        entries_in_key_order(edge_lists(graph, graph.edges@.len() as nat), kvs),
    ensures
        ordering_crossings(layers, kvs) == graph_crossings(graph, layers),
{
    let place = placements(layers, layers.len());
    let e = graph.edges@.len();
    let n = graph.nodes@.len() as int;
    assert(graph.nodes.len() == graph.nodes@.len());
    let m = edge_lists(graph, e as nat);
    lemma_edge_lists_bounds(graph, e as nat);
    let s = entries_edges(place, kvs);
    let t = graph_layer_edges(graph, place, e as int);
    assert forall|x: (usize, usize, usize)| s.to_multiset().count(x) == t.to_multiset().count(x) by {
        lemma_entries_edges_count(place, m, kvs, x, n);
        lemma_graph_edge_count(graph, place, x, e as nat);
    }
    assert(s.to_multiset() =~= t.to_multiset());
    lemma_layered_crossings_permutation(s, t, if layers.len() == 0 { 0 } else { (layers.len() - 1) as nat });
}

/// The first `k` edges of a graph give at most `k` adjacent-layer edges.
proof fn lemma_graph_layer_edges_len(graph: &LayoutGraph, place: Map<usize, (usize, usize)>, k: int)
    requires
        0 <= k,
    ensures
        graph_layer_edges(graph, place, k).len() <= k,
    decreases k,
{
    if k > 0 {
        lemma_graph_layer_edges_len(graph, place, k - 1);
    }
}

/// An ordering of a graph with `e` edges has at most `e * e` crossings.
pub proof fn lemma_graph_crossings_bound(graph: &LayoutGraph, layers: Seq<Seq<usize>>)
    requires
        layers.len() <= usize::MAX,
    ensures
        graph_crossings(graph, layers) <= graph.edges@.len() * graph.edges@.len(),
{
    let e = graph.edges@.len();
    let edges = graph_layer_edges(graph, placements(layers, layers.len()), e as int);
    lemma_graph_layer_edges_len(graph, placements(layers, layers.len()), e as int);
    let top: nat = if layers.len() == 0 { 0 } else { (layers.len() - 1) as nat };
    lemma_layered_crossings_bound(edges, top);
    lemma_rank_total_bound(edges, top);
    let len = edges.len();
    assert(rank_total(edges, top) * len <= len * len) by (nonlinear_arith)
        requires
            rank_total(edges, top) <= len,
    ;
    assert(len * len <= e * e) by (nonlinear_arith)
        requires
            len <= e,
    ;
}

/// Crossings summed over more layers are at least as many.
proof fn lemma_layered_crossings_monotone(edges: Seq<(usize, usize, usize)>, a: nat, b: nat)
    requires
        a <= b,
    ensures
        layered_crossings(edges, a) <= layered_crossings(edges, b),
    decreases b,
{
    if a < b {
        lemma_layered_crossings_monotone(edges, a, (b - 1) as nat);
    }
}

/// The two node indices joined by edge `e`, `(from, to)`, when the edge is
/// not a self-loop and both of its ends resolve to nodes.
pub open spec fn edge_ends(graph: &LayoutGraph, e: int) -> Option<(usize, usize)> {
    let edge = graph.edges@[e];
    if edge.is_self_loop {
        None
    } else {
        match (graph.index_of(edge.from@), graph.index_of(edge.to@)) {
            (Some(f), Some(t)) => Some((f, t)),
            _ => None,
        }
    }
}

/// Neighbour lists after the first `k` edges: each edge `(f, t)` appends `t`
/// to the list of `f`, then `f` to the list of `t`.
pub open spec fn neighbor_lists(graph: &LayoutGraph, k: nat) -> Seq<Seq<usize>>
    decreases k,
{
    if k == 0 {
        Seq::new(graph.nodes@.len(), |i: int| Seq::<usize>::empty())
    } else {
        let prev = neighbor_lists(graph, (k - 1) as nat);
        match edge_ends(graph, k - 1) {
            Some((f, t)) => {
                let p1 = prev.update(f as int, prev[f as int].push(t));
                p1.update(t as int, p1[t as int].push(f))
            },
            None => prev,
        }
    }
}

/// Edge lists after the first `k` edges: each edge `(f, t)` is appended to
/// the list of `f`, then to the list of `t`.
pub open spec fn edge_lists(graph: &LayoutGraph, k: nat) -> Map<usize, Seq<(usize, usize)>>
    decreases k,
{
    if k == 0 {
        Map::empty()
    } else {
        let prev = edge_lists(graph, (k - 1) as nat);
        match edge_ends(graph, k - 1) {
            Some((f, t)) => {
                let m1 = prev.insert(f, if prev.contains_key(f) { prev[f] } else { Seq::empty() }.push((f, t)));
                m1.insert(t, if m1.contains_key(t) { m1[t] } else { Seq::empty() }.push((f, t)))
            },
            None => prev,
        }
    }
}

/// The view of a vector of neighbour lists.
pub open spec fn lists_view(lists: Seq<Vec<usize>>) -> Seq<Seq<usize>> {
    lists.map_values(|l: Vec<usize>| l@)
}

/// Resolves the two ends of edge `e`, as `edge_ends` states.
fn resolve_edge(graph: &LayoutGraph, e: usize) -> (ends: Option<(usize, usize)>)
    requires
        e < graph.edges@.len(),
        graph.indices_in_range(),
    ensures
        ends == edge_ends(graph, e as int),
        ends matches Some((f, t)) ==> f < graph.nodes@.len() && t < graph.nodes@.len(),
{
    let edge = &graph.edges[e];
    if edge.is_self_loop {
        return None;
    }
    let from_idx = graph.node_index.get(edge.from.as_str());
    let to_idx = graph.node_index.get(edge.to.as_str());
    proof {
        lemma_index_of_in_range(graph, edge.from@);
        lemma_index_of_in_range(graph, edge.to@);
    }
    match (from_idx, to_idx) {
        (Some(f), Some(t)) => Some((f, t)),
        _ => None,
    }
}

/// Build adjacency information for each node.
pub fn build_adjacency(graph: &LayoutGraph) -> (adjacency: Vec<Vec<usize>>)
    requires
        graph.indices_in_range(),
    ensures
        lists_view(adjacency@) == neighbor_lists(graph, graph.edges@.len() as nat),
{
    let n = graph.nodes.len();
    let mut adjacency: Vec<Vec<usize>> = Vec::new();
    for i in 0..n
        invariant
            adjacency@.len() == i,
            forall|q: int| 0 <= q < i ==> (#[trigger] adjacency@[q])@ == Seq::<usize>::empty(),
    {
        adjacency.push(Vec::new());
    }
    proof {
        assert(lists_view(adjacency@) =~= neighbor_lists(graph, 0));
    }
    for e in 0..graph.edges.len()
        invariant
            n == graph.nodes@.len(),
            graph.indices_in_range(),
            lists_view(adjacency@) == neighbor_lists(graph, e as nat),
    {
        let ghost prev = lists_view(adjacency@);
        proof {
            lemma_neighbor_lists_len(graph, e as nat);
        }
        match resolve_edge(graph, e) {
            Some((f, t)) => {
                adjacency[f].push(t);
                proof {
                    assert(lists_view(adjacency@) =~= prev.update(f as int, prev[f as int].push(t)));
                }
                let ghost p1 = lists_view(adjacency@);
                adjacency[t].push(f);
                proof {
                    assert(lists_view(adjacency@) =~= p1.update(t as int, p1[t as int].push(f)));
                }
            },
            None => {},
        }
    }
    adjacency
}

proof fn lemma_neighbor_lists_len(graph: &LayoutGraph, k: nat)
    requires
        graph.indices_in_range(),
        k <= graph.edges@.len(),
    ensures
        neighbor_lists(graph, k).len() == graph.nodes@.len(),
    decreases k,
{
    if k > 0 {
        lemma_neighbor_lists_len(graph, (k - 1) as nat);
        let edge = graph.edges@[k - 1];
        lemma_index_of_in_range(graph, edge.from@);
        lemma_index_of_in_range(graph, edge.to@);
    }
}

/// Build edge information organized by node for crossing counting.
pub fn build_edges_by_node(graph: &LayoutGraph) -> (edges_by_node: BTreeMap<usize, Vec<(usize, usize)>>)
    requires
        graph.indices_in_range(),
    ensures
        map_view(edges_by_node@) == edge_lists(graph, graph.edges@.len() as nat),
{
    proof {
        lemma_usize_keys_ordered();
    }
    let mut edges_by_node: BTreeMap<usize, Vec<(usize, usize)>> = BTreeMap::new();
    for e in 0..graph.edges.len()
        invariant
            graph.indices_in_range(),
            forall|k: usize| #[trigger] edges_by_node@.contains_key(k) == edge_lists(graph, e as nat).contains_key(k),
            forall|k: usize| #[trigger] edges_by_node@.contains_key(k) ==> edges_by_node@[k]@ == edge_lists(graph, e as nat)[k],
    {
        match resolve_edge(graph, e) {
            Some((f, t)) => {
                append_edge(&mut edges_by_node, f, (f, t));
                append_edge(&mut edges_by_node, t, (f, t));
            },
            None => {},
        }
    }
    proof {
        assert(map_view(edges_by_node@) =~= edge_lists(graph, graph.edges@.len() as nat));
    }
    edges_by_node
}

/// Appends `edge` to the list stored under `key`, creating it if needed.
fn append_edge(map: &mut BTreeMap<usize, Vec<(usize, usize)>>, key: usize, edge: (usize, usize))
    ensures
        forall|k: usize|
            #[trigger] final(map)@.contains_key(k) == (k == key || old(map)@.contains_key(k)),
        forall|k: usize|
            #[trigger] final(map)@.contains_key(k) ==> final(map)@[k]@ == if k == key {
                if old(map)@.contains_key(key) { old(map)@[key]@ } else { Seq::empty() }.push(edge)
            } else {
                old(map)@[k]@
            },
{
    proof {
        lemma_usize_keys_ordered();
    }
    let mut list = match map.remove(&key) {
        Some(existing) => existing,
        None => Vec::new(),
    };
    list.push(edge);
    map.insert(key, list);
}

/// Position of each node of a layer, filled in order: a node listed twice
/// keeps its last position.
pub open spec fn layer_positions(layer: Seq<usize>, p: nat) -> Map<usize, usize>
    decreases p,
{
    if p == 0 || p > layer.len() {
        Map::empty()
    } else {
        layer_positions(layer, (p - 1) as nat).insert(layer[p - 1], (p - 1) as usize)
    }
}

/// Neighbours of `v` (none for a node without a list).
pub open spec fn neighbors_of(adjacency: Seq<Seq<usize>>, v: usize) -> Seq<usize> {
    if v < adjacency.len() {
        adjacency[v as int]
    } else {
        Seq::empty()
    }
}

/// Positions, in the adjacent layer, of the neighbours placed there, in
/// neighbour order.
pub open spec fn target_positions(neighbors: Seq<usize>, pos: Map<usize, usize>) -> Seq<usize>
    decreases neighbors.len(),
{
    if neighbors.len() == 0 {
        Seq::empty()
    } else {
        let prev = target_positions(neighbors.drop_last(), pos);
        if pos.contains_key(neighbors.last()) {
            prev.push(pos[neighbors.last()])
        } else {
            prev
        }
    }
}

/// Sum of a sequence of positions.
pub open spec fn seq_total(s: Seq<usize>) -> nat {
    tally(s, |x: usize| x as nat)
}

/// Barycenter of `v` as a fraction `(numerator, denominator)`: the mean
/// position of its neighbours in the adjacent layer, or `v` itself when it
/// has none there.
pub open spec fn barycenter(adjacency: Seq<Seq<usize>>, pos: Map<usize, usize>, v: usize) -> (nat, nat) {
    let t = target_positions(neighbors_of(adjacency, v), pos);
    if t.len() == 0 {
        (v as nat, 1)
    } else {
        (seq_total(t), t.len())
    }
}

/// `a` comes no later than `b`: smaller barycenter, or the same barycenter
/// and a smaller node index.
pub open spec fn barycenter_le(adjacency: Seq<Seq<usize>>, pos: Map<usize, usize>, a: usize, b: usize) -> bool {
    let (na, da) = barycenter(adjacency, pos, a);
    let (nb, db) = barycenter(adjacency, pos, b);
    na * db < nb * da || (na * db == nb * da && a <= b)
}

/// Number of elements of `t` below `x`.
pub open spec fn count_below(t: Seq<usize>, x: usize) -> nat {
    tally(t, |y: usize| if y < x { 1nat } else { 0nat })
}

/// Number of elements of `t` at most `x`.
pub open spec fn count_upto(t: Seq<usize>, x: usize) -> nat {
    tally(t, |y: usize| if y <= x { 1nat } else { 0nat })
}

/// `x` is the `k`-th smallest element of `t` (counting from zero).
pub open spec fn is_kth_smallest(t: Seq<usize>, k: int, x: usize) -> bool {
    t.contains(x) && count_below(t, x) <= k < count_upto(t, x)
}

/// The `k`-th smallest element of `t` (counting from zero).
pub open spec fn kth_smallest(t: Seq<usize>, k: int) -> usize {
    choose|x: usize| is_kth_smallest(t, k, x)
}

/// Twice the median of a non-empty sequence: twice the middle element, or
/// the sum of the two middle elements for an even length.
pub open spec fn twice_median(t: Seq<usize>) -> nat {
    if t.len() % 2 == 1 {
        (2 * kth_smallest(t, (t.len() / 2) as int)) as nat
    } else {
        (kth_smallest(t, t.len() / 2 - 1) + kth_smallest(t, (t.len() / 2) as int)) as nat
    }
}

/// Twice the median position of the neighbours of `v` in the adjacent
/// layer, or twice `v` itself when it has none there.
pub open spec fn median_key(adjacency: Seq<Seq<usize>>, pos: Map<usize, usize>, v: usize) -> nat {
    let t = target_positions(neighbors_of(adjacency, v), pos);
    if t.len() == 0 {
        (2 * v) as nat
    } else {
        twice_median(t)
    }
}

/// `a` comes no later than `b`: smaller median, or the same median and a
/// smaller node index.
pub open spec fn median_le(adjacency: Seq<Seq<usize>>, pos: Map<usize, usize>, a: usize, b: usize) -> bool {
    let ka = median_key(adjacency, pos, a);
    let kb = median_key(adjacency, pos, b);
    ka < kb || (ka == kb && a <= b)
}

/// A keyed node `(node, numerator, denominator)` comes no later than
/// another: smaller fraction, or the same fraction and a smaller node.
pub open spec fn keyed_le(a: (usize, u128, u64), b: (usize, u128, u64)) -> bool {
    a.1 * b.2 < b.1 * a.2 || (a.1 * b.2 == b.1 * a.2 && a.0 <= b.0)
}

/// Keyed nodes in non-decreasing order.
pub open spec fn sorted_keyed(s: Seq<(usize, u128, u64)>) -> bool {
    forall|i: int, j: int| 0 <= i <= j < s.len() ==> keyed_le(s[i], s[j])
}

proof fn lemma_keyed_le_transitive(a: (usize, u128, u64), b: (usize, u128, u64), c: (usize, u128, u64))
    requires
        a.2 > 0,
        b.2 > 0,
        c.2 > 0,
        keyed_le(a, b),
        keyed_le(b, c),
    ensures
        keyed_le(a, c),
{
    let (na, da, nb, db, nc, dc) = (a.1 as int, a.2 as int, b.1 as int, b.2 as int, c.1 as int, c.2 as int);
    assert(na * db <= nb * da);
    assert(nb * dc <= nc * db);
    assert(na * db * dc <= nb * da * dc) by (nonlinear_arith)
        requires
            na * db <= nb * da,
            dc > 0,
    ;
    assert(nb * dc * da <= nc * db * da) by (nonlinear_arith)
        requires
            nb * dc <= nc * db,
            da > 0,
    ;
    assert(nb * da * dc == nb * dc * da) by (nonlinear_arith);
    assert(na * dc * db == na * db * dc) by (nonlinear_arith);
    assert(nc * da * db == nc * db * da) by (nonlinear_arith);
    if na * db < nb * da || nb * dc < nc * db {
        assert(na * db * dc < nb * da * dc || nb * dc * da < nc * db * da) by (nonlinear_arith)
            requires
                na * db < nb * da || nb * dc < nc * db,
                dc > 0,
                da > 0,
        ;
        assert(na * dc * db < nc * da * db);
        assert(na * dc < nc * da) by (nonlinear_arith)
            requires
                na * dc * db < nc * da * db,
                db > 0,
        ;
    } else {
        assert(na * dc * db == nc * da * db);
        assert(na * dc == nc * da) by (nonlinear_arith)
            requires
                na * dc * db == nc * da * db,
                db > 0,
        ;
    }
}

/// `na / da < nb / db`, computed without overflow.
fn fraction_less(na: u128, da: u64, nb: u128, db: u64) -> (r: bool)
    requires
        da > 0,
        db > 0,
    ensures
        r == (na * db < nb * da),
{
    let qa = na / (da as u128);
    let ra = na % (da as u128);
    let qb = nb / (db as u128);
    let rb = nb % (db as u128);
    proof {
        lemma_fraction_parts(na as int, da as int, nb as int, db as int, qa as int, ra as int, qb as int, rb as int);
    }
    if qa != qb {
        qa < qb
    } else {
        assert(ra * (db as u128) < 0x1_0000_0000_0000_0000_0000_0000_0000_0000) by (nonlinear_arith)
            requires
                ra < da,
                da <= 0xffff_ffff_ffff_ffff,
                db <= 0xffff_ffff_ffff_ffff,
        ;
        assert(rb * (da as u128) < 0x1_0000_0000_0000_0000_0000_0000_0000_0000) by (nonlinear_arith)
            requires
                rb < db,
                da <= 0xffff_ffff_ffff_ffff,
                db <= 0xffff_ffff_ffff_ffff,
        ;
        ra * (db as u128) < rb * (da as u128)
    }
}

/// `na / da == nb / db`, computed without overflow.
fn fraction_equal(na: u128, da: u64, nb: u128, db: u64) -> (r: bool)
    requires
        da > 0,
        db > 0,
    ensures
        r == (na * db == nb * da),
{
    let qa = na / (da as u128);
    let ra = na % (da as u128);
    let qb = nb / (db as u128);
    let rb = nb % (db as u128);
    proof {
        lemma_fraction_parts(na as int, da as int, nb as int, db as int, qa as int, ra as int, qb as int, rb as int);
    }
    if qa != qb {
        false
    } else {
        assert(ra * (db as u128) < 0x1_0000_0000_0000_0000_0000_0000_0000_0000) by (nonlinear_arith)
            requires
                ra < da,
                da <= 0xffff_ffff_ffff_ffff,
                db <= 0xffff_ffff_ffff_ffff,
        ;
        assert(rb * (da as u128) < 0x1_0000_0000_0000_0000_0000_0000_0000_0000) by (nonlinear_arith)
            requires
                rb < db,
                da <= 0xffff_ffff_ffff_ffff,
                db <= 0xffff_ffff_ffff_ffff,
        ;
        ra * (db as u128) == rb * (da as u128)
    }
}

/// Comparing fractions by whole parts first, then by remainders.
proof fn lemma_fraction_parts(na: int, da: int, nb: int, db: int, qa: int, ra: int, qb: int, rb: int)
    requires
        da > 0,
        db > 0,
        na >= 0,
        nb >= 0,
        qa == na / da,
        ra == na % da,
        qb == nb / db,
        rb == nb % db,
    ensures
        qa < qb ==> na * db < nb * da,
        qa > qb ==> na * db > nb * da,
        qa == qb ==> (na * db < nb * da <==> ra * db < rb * da),
        qa == qb ==> (na * db == nb * da <==> ra * db == rb * da),
        0 <= ra < da,
        0 <= rb < db,
{
    vstd::arithmetic::div_mod::lemma_fundamental_div_mod(na, da);
    vstd::arithmetic::div_mod::lemma_fundamental_div_mod(nb, db);
    vstd::arithmetic::div_mod::lemma_mod_bound(na, da);
    vstd::arithmetic::div_mod::lemma_mod_bound(nb, db);
    assert(na * db == qa * da * db + ra * db) by (nonlinear_arith)
        requires
            na == da * qa + ra,
    ;
    assert(nb * da == qb * db * da + rb * da) by (nonlinear_arith)
        requires
            nb == db * qb + rb,
    ;
    assert(qa < qb ==> na * db < nb * da) by (nonlinear_arith)
        requires
            na * db == qa * da * db + ra * db,
            nb * da == qb * db * da + rb * da,
            0 <= ra < da,
            0 <= rb < db,
            da > 0,
            db > 0,
    ;
    assert(qa > qb ==> na * db > nb * da) by (nonlinear_arith)
        requires
            na * db == qa * da * db + ra * db,
            nb * da == qb * db * da + rb * da,
            0 <= ra < da,
            0 <= rb < db,
            da > 0,
            db > 0,
    ;
    assert(qa == qb ==> qa * da * db == qb * db * da) by (nonlinear_arith);
}

/// `a` comes no later than `b` in keyed order.
fn keyed_before(a: (usize, u128, u64), b: (usize, u128, u64)) -> (r: bool)
    requires
        a.2 > 0,
        b.2 > 0,
    ensures
        r == keyed_le(a, b),
{
    if fraction_less(a.1, a.2, b.1, b.2) {
        true
    } else {
        fraction_equal(a.1, a.2, b.1, b.2) && a.0 <= b.0
    }
}

/// Sorts keyed nodes by fraction, then by node index (by insertion).
fn sort_keyed(v: &Vec<(usize, u128, u64)>) -> (out: Vec<(usize, u128, u64)>)
    requires
        forall|i: int| 0 <= i < v@.len() ==> (#[trigger] v@[i]).2 > 0,
    ensures
        out@.to_multiset() == v@.to_multiset(),
        sorted_keyed(out@),
        forall|i: int| 0 <= i < out@.len() ==> (#[trigger] out@[i]).2 > 0,
{
    let mut out: Vec<(usize, u128, u64)> = Vec::new();
    for i in 0..v.len()
        invariant
            forall|q: int| 0 <= q < v@.len() ==> (#[trigger] v@[q]).2 > 0,
            out@.to_multiset() == v@.subrange(0, i as int).to_multiset(),
            sorted_keyed(out@),
            forall|q: int| 0 <= q < out@.len() ==> (#[trigger] out@[q]).2 > 0,
    {
        let x = v[i];
        let mut p: usize = 0;
        while p < out.len() && keyed_before(out[p], x)
            invariant
                p <= out@.len(),
                x.2 > 0,
                sorted_keyed(out@),
                forall|q: int| 0 <= q < out@.len() ==> (#[trigger] out@[q]).2 > 0,
                forall|a: int| 0 <= a < p ==> keyed_le(#[trigger] out@[a], x),
            decreases out@.len() - p,
        {
            p = p + 1;
        }
        let ghost before = out@;
        out.insert(p, x);
        proof {
            assert(v@.subrange(0, i + 1) =~= v@.subrange(0, i as int).push(x));
            assert(out@ == before.insert(p as int, x));
            assert forall|a: int, b: int| 0 <= a <= b < out@.len() implies keyed_le(#[trigger] out@[a], #[trigger] out@[b]) by {
                if a < p && b > p {
                    assert(keyed_le(before[a], x));
                    assert(out@[b] == before[b - 1]);
                    assert(!keyed_le(before[p as int], x));
                    assert(keyed_le(before[p as int], before[b - 1]));
                    lemma_keyed_le_transitive(before[a], before[p as int], before[b - 1]);
                } else if a == p && b > p {
                    assert(!keyed_le(before[p as int], x));
                    assert(keyed_le(before[p as int], before[b - 1]));
                    lemma_keyed_le_transitive(x, before[p as int], before[b - 1]);
                } else if a < p && b == p {
                    assert(keyed_le(before[a], x));
                } else if b < p {
                    assert(keyed_le(before[a], before[b]));
                } else if a > p {
                    assert(keyed_le(before[a - 1], before[b - 1]));
                }
            }
        }
    }
    proof {
        assert(v@.subrange(0, v@.len() as int) =~= v@);
    }
    out
}

/// Builds the position map of a layer.
fn build_position_index(nodes: &Vec<usize>) -> (positions: BTreeMap<usize, usize>)
    ensures
        positions@ == layer_positions(nodes@, nodes@.len() as nat),
{
    proof {
        lemma_usize_keys_ordered();
    }
    let mut positions: BTreeMap<usize, usize> = BTreeMap::new();
    for pos in 0..nodes.len()
        invariant
            positions@ == layer_positions(nodes@, pos as nat),
    {
        positions.insert(nodes[pos], pos);
    }
    positions
}

/// Positions, in the adjacent layer, of the neighbours of `node` placed there.
fn collect_target_positions(
    node_idx: usize,
    adjacency: &Vec<Vec<usize>>,
    target_positions_map: &BTreeMap<usize, usize>,
) -> (out: Vec<usize>)
    ensures
        out@ == target_positions(neighbors_of(lists_view(adjacency@), node_idx), target_positions_map@),
{
    proof {
        lemma_usize_keys_ordered();
    }
    let mut out: Vec<usize> = Vec::new();
    if node_idx >= adjacency.len() {
        return out;
    }
    let neighbors = &adjacency[node_idx];
    proof {
        assert(neighbors_of(lists_view(adjacency@), node_idx) == neighbors@);
    }
    for q in 0..neighbors.len()
        invariant
            out@ == target_positions(neighbors@.subrange(0, q as int), target_positions_map@),
    {
        proof {
            assert(neighbors@.subrange(0, q + 1).drop_last() =~= neighbors@.subrange(0, q as int));
        }
        match target_positions_map.get(&neighbors[q]) {
            Some(p) => out.push(*p),
            None => {},
        }
    }
    proof {
        assert(neighbors@.subrange(0, neighbors@.len() as int) =~= neighbors@);
    }
    out
}

/// Sum of positions, as a wide integer.
fn total_positions(t: &Vec<usize>) -> (sum: u128)
    ensures
        sum == seq_total(t@),
{
    let mut sum: u128 = 0;
    for q in 0..t.len()
        invariant
            sum == seq_total(t@.subrange(0, q as int)),
            seq_total(t@.subrange(0, q as int)) <= q * 0xffff_ffff_ffff_ffff,
            q <= t@.len(),
    {
        proof {
            lemma_tally_prefix_step(t@, q as int, |x: usize| x as nat);
            assert(t@.len() <= usize::MAX);
            assert(q * 0xffff_ffff_ffff_ffff + 0xffff_ffff_ffff_ffff <= 0xffff_ffff_ffff_ffff * 0xffff_ffff_ffff_ffff + 0xffff_ffff_ffff_ffff) by (nonlinear_arith)
                requires
                    q <= 0xffff_ffff_ffff_ffff,
            ;
        }
        sum = sum + t[q] as u128;
    }
    proof {
        assert(t@.subrange(0, t@.len() as int) =~= t@);
    }
    sum
}

/// The node indices of keyed nodes.
fn keyed_nodes(sorted: &Vec<(usize, u128, u64)>) -> (out: Vec<usize>)
    ensures
        out@ == sorted@.map_values(|e: (usize, u128, u64)| e.0),
{
    let mut out: Vec<usize> = Vec::new();
    for q in 0..sorted.len()
        invariant
            out@ == sorted@.subrange(0, q as int).map_values(|e: (usize, u128, u64)| e.0),
    {
        out.push(sorted[q].0);
        proof {
            assert(out@ =~= sorted@.subrange(0, q + 1).map_values(|e: (usize, u128, u64)| e.0));
        }
    }
    proof {
        assert(sorted@.subrange(0, sorted@.len() as int) =~= sorted@);
    }
    out
}

/// Order nodes in a layer using the barycenter heuristic.
fn order_by_barycenter(layer_nodes: &Vec<usize>, adjacent_layer: &Vec<usize>, adjacency: &Vec<Vec<usize>>) -> (out: Vec<usize>)
    ensures
        out@ == barycenter_order(layer_nodes@, adjacent_layer@, lists_view(adjacency@)),
        out@.to_multiset() == layer_nodes@.to_multiset(),
        forall|i: int, j: int|
            0 <= i <= j < out@.len() ==> barycenter_le(
                lists_view(adjacency@),
                layer_positions(adjacent_layer@, adjacent_layer@.len() as nat),
                #[trigger] out@[i],
                #[trigger] out@[j],
            ),
{
    let ghost adj = lists_view(adjacency@);
    let position = build_position_index(adjacent_layer);
    let ghost pos = position@;
    let mut keyed: Vec<(usize, u128, u64)> = Vec::new();
    for q in 0..layer_nodes.len()
        invariant
            adj == lists_view(adjacency@),
            pos == position@,
            keyed@.len() == q,
            forall|a: int|
                0 <= a < q ==> (#[trigger] keyed@[a]).0 == layer_nodes@[a] && keyed@[a].2 > 0 && barycenter(adj, pos, keyed@[a].0)
                    == (keyed@[a].1 as nat, keyed@[a].2 as nat),
    {
        let node_idx = layer_nodes[q];
        let t = collect_target_positions(node_idx, adjacency, &position);
        if t.len() == 0 {
            keyed.push((node_idx, node_idx as u128, 1));
        } else {
            let sum = total_positions(&t);
            keyed.push((node_idx, sum, t.len() as u64));
        }
    }
    proof {
        assert(keyed@.map_values(|e: (usize, u128, u64)| e.0) =~= layer_nodes@);
    }
    let sorted = sort_keyed(&keyed);
    let out = keyed_nodes(&sorted);
    proof {
        lemma_keyed_members(keyed@, sorted@, adj, pos, false, out@);
        lemma_map_permutation(sorted@, keyed@, |e: (usize, u128, u64)| e.0);
        lemma_is_barycenter_order(layer_nodes@, adjacent_layer@, adj, out@);
    }
    out
}

/// The layer's nodes in barycenter order: by barycenter of their neighbours'
/// positions in the adjacent layer, then by node index.
pub open spec fn barycenter_order(layer: Seq<usize>, adjacent: Seq<usize>, adj: Seq<Seq<usize>>) -> Seq<usize> {
    let pos = layer_positions(adjacent, adjacent.len() as nat);
    choose|s: Seq<usize>|
        s.to_multiset() == layer.to_multiset() && forall|i: int, j: int|
            0 <= i <= j < s.len() ==> #[trigger] barycenter_le(adj, pos, s[i], #[trigger] s[j])
}

/// The layer's nodes in median order: by median of their neighbours'
/// positions in the adjacent layer, then by node index.
pub open spec fn median_order(layer: Seq<usize>, adjacent: Seq<usize>, adj: Seq<Seq<usize>>) -> Seq<usize> {
    let pos = layer_positions(adjacent, adjacent.len() as nat);
    choose|s: Seq<usize>|
        s.to_multiset() == layer.to_multiset() && forall|i: int, j: int|
            0 <= i <= j < s.len() ==> #[trigger] median_le(adj, pos, s[i], #[trigger] s[j])
}

/// Two orderings of the same elements, both sorted by an order in which no
/// two different elements are each before the other, are equal.
proof fn lemma_sorted_permutation_unique(s: Seq<usize>, t: Seq<usize>, le: spec_fn(usize, usize) -> bool)
    requires
        s.to_multiset() == t.to_multiset(),
        forall|i: int, j: int| 0 <= i <= j < s.len() ==> #[trigger] le(s[i], #[trigger] s[j]),
        forall|i: int, j: int| 0 <= i <= j < t.len() ==> #[trigger] le(t[i], #[trigger] t[j]),
        forall|a: usize, b: usize| #[trigger] le(a, b) && le(b, a) ==> a == b,
    ensures
        s == t,
    decreases s.len(),
{
    assert(s.len() == s.to_multiset().len());
    assert(t.len() == t.to_multiset().len());
    if s.len() == 0 {
        assert(s =~= t);
    } else {
        let x = s.last();
        let y = t.last();
        assert(s.to_multiset().count(x) > 0);
        assert(t.contains(x));
        let jx = choose|j: int| 0 <= j < t.len() && t[j] == x;
        assert(le(t[jx], t[t.len() - 1]));
        assert(t.to_multiset().count(y) > 0);
        assert(s.contains(y));
        let jy = choose|j: int| 0 <= j < s.len() && s[j] == y;
        assert(le(s[jy], s[s.len() - 1]));
        assert(x == y);
        let s2 = s.drop_last();
        let t2 = t.drop_last();
        assert(s =~= s2.push(x));
        assert(t =~= t2.push(x));
        assert(s2.to_multiset().insert(x) == t2.to_multiset().insert(x));
        assert(s2.to_multiset() =~= t2.to_multiset()) by {
            assert forall|v: usize| s2.to_multiset().count(v) == t2.to_multiset().count(v) by {
                assert(s2.to_multiset().insert(x).count(v) == t2.to_multiset().insert(x).count(v));
            }
        }
        assert forall|i: int, j: int| 0 <= i <= j < s2.len() implies #[trigger] le(s2[i], #[trigger] s2[j]) by {
            assert(le(s[i], s[j]));
        }
        assert forall|i: int, j: int| 0 <= i <= j < t2.len() implies #[trigger] le(t2[i], #[trigger] t2[j]) by {
            assert(le(t[i], t[j]));
        }
        lemma_sorted_permutation_unique(s2, t2, le);
    }
}

/// Comparing fractions with positive denominators by cross-multiplying is
/// transitive, and strictly so as soon as one step is strict.
proof fn lemma_fraction_order_transitive(na: int, da: int, nb: int, db: int, nc: int, dc: int)
    requires
        da > 0,
        db > 0,
        dc > 0,
        na * db <= nb * da,
        nb * dc <= nc * db,
    ensures
        na * dc <= nc * da,
        na * db < nb * da || nb * dc < nc * db ==> na * dc < nc * da,
{
    let x = na * db - nb * da;
    let y = nb * dc - nc * db;
    let z = na * dc - nc * da;
    assert(z * db == x * dc + y * da) by (nonlinear_arith)
        requires
            x == na * db - nb * da,
            y == nb * dc - nc * db,
            z == na * dc - nc * da,
    ;
    assert(x * dc <= 0) by (nonlinear_arith)
        requires
            x <= 0,
            dc > 0,
    ;
    assert(y * da <= 0) by (nonlinear_arith)
        requires
            y <= 0,
            da > 0,
    ;
    assert(x < 0 ==> x * dc < 0) by (nonlinear_arith)
        requires
            dc > 0,
    ;
    assert(y < 0 ==> y * da < 0) by (nonlinear_arith)
        requires
            da > 0,
    ;
    assert(z * db <= 0 ==> z <= 0) by (nonlinear_arith)
        requires
            db > 0,
    ;
    assert(z * db < 0 ==> z < 0) by (nonlinear_arith)
        requires
            db > 0,
    ;
}

/// Every node has a barycenter with a positive denominator.
proof fn lemma_barycenter_denominator(adj: Seq<Seq<usize>>, pos: Map<usize, usize>, v: usize)
    ensures
        barycenter(adj, pos, v).1 > 0,
{
}

/// Barycenter order is a total order: any two nodes compare one way or the
/// other, only a node comes both before and after itself, and it is
/// transitive.
proof fn lemma_barycenter_le_total_order(adj: Seq<Seq<usize>>, pos: Map<usize, usize>)
    ensures
        forall|a: usize, b: usize| #[trigger] barycenter_le(adj, pos, a, b) || barycenter_le(adj, pos, b, a),
        forall|a: usize, b: usize| #[trigger] barycenter_le(adj, pos, a, b) && barycenter_le(adj, pos, b, a) ==> a == b,
        forall|a: usize, b: usize, c: usize|
            #[trigger] barycenter_le(adj, pos, a, b) && #[trigger] barycenter_le(adj, pos, b, c) ==> barycenter_le(adj, pos, a, c),
{
    assert forall|a: usize, b: usize, c: usize|
        #[trigger] barycenter_le(adj, pos, a, b) && #[trigger] barycenter_le(adj, pos, b, c) implies barycenter_le(adj, pos, a, c) by {
        let (na, da) = barycenter(adj, pos, a);
        let (nb, db) = barycenter(adj, pos, b);
        let (nc, dc) = barycenter(adj, pos, c);
        lemma_barycenter_denominator(adj, pos, a);
        lemma_barycenter_denominator(adj, pos, b);
        lemma_barycenter_denominator(adj, pos, c);
        lemma_fraction_order_transitive(na as int, da as int, nb as int, db as int, nc as int, dc as int);
    }
}

/// Inserting `x` into an ordering sorted by a total order `le`: in front of
/// the first element that `x` comes no later than.
proof fn lemma_insert_in_order(s: Seq<usize>, x: usize, le: spec_fn(usize, usize) -> bool) -> (u: Seq<usize>)
    requires
        forall|a: usize, b: usize| #[trigger] le(a, b) || le(b, a),
        forall|a: usize, b: usize, c: usize| #[trigger] le(a, b) && #[trigger] le(b, c) ==> le(a, c),
        forall|i: int, j: int| 0 <= i <= j < s.len() ==> #[trigger] le(s[i], #[trigger] s[j]),
    ensures
        u.to_multiset() == s.to_multiset().insert(x),
        forall|i: int, j: int| 0 <= i <= j < u.len() ==> #[trigger] le(u[i], #[trigger] u[j]),
    decreases s.len(),
{
    if s.len() == 0 {
        let u = seq![x];
        assert(u =~= s.insert(0, x));
        assert forall|i: int, j: int| 0 <= i <= j < u.len() implies #[trigger] le(u[i], #[trigger] u[j]) by {
            assert(le(x, x) || le(x, x));
        }
        u
    } else if le(x, s[0]) {
        let u = s.insert(0, x);
        assert forall|i: int, j: int| 0 <= i <= j < u.len() implies #[trigger] le(u[i], #[trigger] u[j]) by {
            if i == 0 && j == 0 {
                assert(le(x, x) || le(x, x));
            } else if i == 0 {
                assert(u[j] == s[j - 1]);
                assert(le(s[0], s[j - 1]));
            } else {
                assert(u[i] == s[i - 1] && u[j] == s[j - 1]);
                assert(le(s[i - 1], s[j - 1]));
            }
        }
        u
    } else {
        assert(le(s[0], x));
        let rest = s.drop_first();
        assert forall|i: int, j: int| 0 <= i <= j < rest.len() implies #[trigger] le(rest[i], #[trigger] rest[j]) by {
            assert(le(s[i + 1], s[j + 1]));
        }
        let r = lemma_insert_in_order(rest, x, le);
        let u = r.insert(0, s[0]);
        assert(s =~= rest.insert(0, s[0]));
        assert forall|i: int, j: int| 0 <= i <= j < u.len() implies #[trigger] le(u[i], #[trigger] u[j]) by {
            if i == 0 {
                if j == 0 {
                    assert(le(s[0], s[0]));
                } else {
                    assert(u[j] == r[j - 1]);
                    assert(r.to_multiset().count(r[j - 1]) > 0);
                    if r[j - 1] != x {
                        assert(rest.to_multiset().count(r[j - 1]) > 0);
                        assert(rest.contains(r[j - 1]));
                        let k = choose|k: int| 0 <= k < rest.len() && rest[k] == r[j - 1];
                        assert(le(s[0], s[k + 1]));
                    }
                }
            } else {
                assert(u[i] == r[i - 1] && u[j] == r[j - 1]);
                assert(le(r[i - 1], r[j - 1]));
            }
        }
        assert(u.to_multiset() =~= s.to_multiset().insert(x));
        u
    }
}

/// Any list of nodes can be put in an order sorted by a total order `le`.
proof fn lemma_sorted_reordering_exists(layer: Seq<usize>, le: spec_fn(usize, usize) -> bool) -> (s: Seq<usize>)
    requires
        forall|a: usize, b: usize| #[trigger] le(a, b) || le(b, a),
        forall|a: usize, b: usize, c: usize| #[trigger] le(a, b) && #[trigger] le(b, c) ==> le(a, c),
    ensures
        s.to_multiset() == layer.to_multiset(),
        forall|i: int, j: int| 0 <= i <= j < s.len() ==> #[trigger] le(s[i], #[trigger] s[j]),
    decreases layer.len(),
{
    if layer.len() == 0 {
        layer
    } else {
        let pre = layer.drop_last();
        let s0 = lemma_sorted_reordering_exists(pre, le);
        let u = lemma_insert_in_order(s0, layer.last(), le);
        assert(layer =~= pre.push(layer.last()));
        u
    }
}

/// Comparing two nodes that both have neighbours placed in the adjacent
/// layer, barycenter order compares the mean positions of those neighbours
/// (sum of positions over their number), the node index breaking ties.
pub proof fn lemma_barycenter_compares_mean_positions(adj: Seq<Seq<usize>>, pos: Map<usize, usize>, a: usize, b: usize)
    requires
        target_positions(neighbors_of(adj, a), pos).len() > 0,
        target_positions(neighbors_of(adj, b), pos).len() > 0,
    ensures
        barycenter_le(adj, pos, a, b) <==> ({
            let ta = target_positions(neighbors_of(adj, a), pos);
            let tb = target_positions(neighbors_of(adj, b), pos);
            seq_total(ta) * tb.len() < seq_total(tb) * ta.len() || (seq_total(ta) * tb.len() == seq_total(tb)
                * ta.len() && a <= b)
        }),
{
}

/// A node with no neighbour placed in the adjacent layer takes its own index
/// as its position: two such nodes keep index order, and against a node with
/// placed neighbours its index is compared with their mean position.
pub proof fn lemma_barycenter_places_unconnected_by_index(adj: Seq<Seq<usize>>, pos: Map<usize, usize>, a: usize, b: usize)
    requires
        target_positions(neighbors_of(adj, a), pos).len() == 0,
    ensures
        target_positions(neighbors_of(adj, b), pos).len() == 0 ==> (barycenter_le(adj, pos, a, b) <==> a <= b),
        target_positions(neighbors_of(adj, b), pos).len() > 0 ==> (barycenter_le(adj, pos, a, b) <==> ({
            let tb = target_positions(neighbors_of(adj, b), pos);
            a * tb.len() < seq_total(tb) || (a * tb.len() == seq_total(tb) && a <= b)
        })),
        target_positions(neighbors_of(adj, b), pos).len() > 0 ==> (barycenter_le(adj, pos, b, a) <==> ({
            let tb = target_positions(neighbors_of(adj, b), pos);
            seq_total(tb) < a * tb.len() || (seq_total(tb) == a * tb.len() && b <= a)
        })),
{
}

/// The barycenter strategy reorders a layer's nodes so that, among the nodes
/// with neighbours placed in the adjacent layer, the mean position of those
/// neighbours (their sum of positions over their number) never decreases.
pub proof fn lemma_barycenter_order_by_mean_position(layer: Seq<usize>, adjacent: Seq<usize>, adj: Seq<Seq<usize>>)
    ensures
        barycenter_order(layer, adjacent, adj).to_multiset() == layer.to_multiset(),
        forall|i: int, j: int|
            0 <= i <= j < barycenter_order(layer, adjacent, adj).len() && target_positions(
                neighbors_of(adj, #[trigger] barycenter_order(layer, adjacent, adj)[i]),
                layer_positions(adjacent, adjacent.len() as nat),
            ).len() > 0 && target_positions(
                neighbors_of(adj, #[trigger] barycenter_order(layer, adjacent, adj)[j]),
                layer_positions(adjacent, adjacent.len() as nat),
            ).len() > 0 ==> seq_total(
                target_positions(
                    neighbors_of(adj, barycenter_order(layer, adjacent, adj)[i]),
                    layer_positions(adjacent, adjacent.len() as nat),
                ),
            ) * target_positions(
                neighbors_of(adj, barycenter_order(layer, adjacent, adj)[j]),
                layer_positions(adjacent, adjacent.len() as nat),
            ).len() <= seq_total(
                target_positions(
                    neighbors_of(adj, barycenter_order(layer, adjacent, adj)[j]),
                    layer_positions(adjacent, adjacent.len() as nat),
                ),
            ) * target_positions(
                neighbors_of(adj, barycenter_order(layer, adjacent, adj)[i]),
                layer_positions(adjacent, adjacent.len() as nat),
            ).len(),
{
    let pos = layer_positions(adjacent, adjacent.len() as nat);
    let le = |a: usize, b: usize| barycenter_le(adj, pos, a, b);
    lemma_barycenter_le_total_order(adj, pos);
    assert forall|a: usize, b: usize| #[trigger] le(a, b) || le(b, a) by {
        assert(barycenter_le(adj, pos, a, b) || barycenter_le(adj, pos, b, a));
    }
    assert forall|a: usize, b: usize, c: usize| #[trigger] le(a, b) && #[trigger] le(b, c) implies le(a, c) by {
        assert(barycenter_le(adj, pos, a, b) && barycenter_le(adj, pos, b, c));
    }
    let w = lemma_sorted_reordering_exists(layer, le);
    assert(w.to_multiset() == layer.to_multiset() && forall|i: int, j: int|
        0 <= i <= j < w.len() ==> #[trigger] barycenter_le(adj, pos, w[i], #[trigger] w[j])) by {
        assert forall|i: int, j: int| 0 <= i <= j < w.len() implies #[trigger] barycenter_le(adj, pos, w[i], #[trigger] w[j]) by {
            assert(le(w[i], w[j]));
        }
    }
    let s = barycenter_order(layer, adjacent, adj);
    assert forall|i: int, j: int|
        0 <= i <= j < s.len() && target_positions(neighbors_of(adj, #[trigger] s[i]), pos).len() > 0 && target_positions(
            neighbors_of(adj, #[trigger] s[j]),
            pos,
        ).len() > 0 implies seq_total(target_positions(neighbors_of(adj, s[i]), pos)) * target_positions(
        neighbors_of(adj, s[j]),
        pos,
    ).len() <= seq_total(target_positions(neighbors_of(adj, s[j]), pos)) * target_positions(
        neighbors_of(adj, s[i]),
        pos,
    ).len() by {
        assert(barycenter_le(adj, pos, s[i], s[j]));
        lemma_barycenter_compares_mean_positions(adj, pos, s[i], s[j]);
    }
}

/// An ordering of a layer sorted by barycenter is the barycenter order.
proof fn lemma_is_barycenter_order(layer: Seq<usize>, adjacent: Seq<usize>, adj: Seq<Seq<usize>>, out: Seq<usize>)
    requires
        out.to_multiset() == layer.to_multiset(),
        forall|i: int, j: int|
            0 <= i <= j < out.len() ==> barycenter_le(
                adj,
                layer_positions(adjacent, adjacent.len() as nat),
                #[trigger] out[i],
                #[trigger] out[j],
            ),
    ensures
        out == barycenter_order(layer, adjacent, adj),
{
    let pos = layer_positions(adjacent, adjacent.len() as nat);
    let other = barycenter_order(layer, adjacent, adj);
    assert(out.to_multiset() == layer.to_multiset() && forall|i: int, j: int|
        0 <= i <= j < out.len() ==> #[trigger] barycenter_le(adj, pos, out[i], #[trigger] out[j]));
    let le = |a: usize, b: usize| barycenter_le(adj, pos, a, b);
    assert forall|i: int, j: int| 0 <= i <= j < out.len() implies #[trigger] le(out[i], #[trigger] out[j]) by {}
    assert forall|i: int, j: int| 0 <= i <= j < other.len() implies #[trigger] le(other[i], #[trigger] other[j]) by {
        assert(barycenter_le(adj, pos, other[i], other[j]));
    }
    lemma_sorted_permutation_unique(out, other, le);
}

/// An ordering of a layer sorted by median is the median order.
proof fn lemma_is_median_order(layer: Seq<usize>, adjacent: Seq<usize>, adj: Seq<Seq<usize>>, out: Seq<usize>)
    requires
        out.to_multiset() == layer.to_multiset(),
        forall|i: int, j: int|
            0 <= i <= j < out.len() ==> median_le(
                adj,
                layer_positions(adjacent, adjacent.len() as nat),
                #[trigger] out[i],
                #[trigger] out[j],
            ),
    ensures
        out == median_order(layer, adjacent, adj),
{
    let pos = layer_positions(adjacent, adjacent.len() as nat);
    let other = median_order(layer, adjacent, adj);
    assert(out.to_multiset() == layer.to_multiset() && forall|i: int, j: int|
        0 <= i <= j < out.len() ==> #[trigger] median_le(adj, pos, out[i], #[trigger] out[j]));
    let le = |a: usize, b: usize| median_le(adj, pos, a, b);
    assert forall|i: int, j: int| 0 <= i <= j < out.len() implies #[trigger] le(out[i], #[trigger] out[j]) by {}
    assert forall|i: int, j: int| 0 <= i <= j < other.len() implies #[trigger] le(other[i], #[trigger] other[j]) by {
        assert(median_le(adj, pos, other[i], other[j]));
    }
    lemma_sorted_permutation_unique(out, other, le);
}

/// Every element of a reordering of `keyed` carries the barycenter (or
/// median) of its node, so keyed order is the order of those keys.
proof fn lemma_keyed_members(
    keyed: Seq<(usize, u128, u64)>,
    sorted: Seq<(usize, u128, u64)>,
    adj: Seq<Seq<usize>>,
    pos: Map<usize, usize>,
    median: bool,
    nodes: Seq<usize>,
)
    requires
        nodes.len() == sorted.len(),
        forall|i: int| 0 <= i < nodes.len() ==> #[trigger] nodes[i] == sorted[i].0,
        sorted.to_multiset() == keyed.to_multiset(),
        sorted_keyed(sorted),
        forall|a: int|
            0 <= a < keyed.len() ==> (#[trigger] keyed[a]).2 > 0 && if median {
                keyed[a].2 == 1 && median_key(adj, pos, keyed[a].0) == keyed[a].1
            } else {
                barycenter(adj, pos, keyed[a].0) == (keyed[a].1 as nat, keyed[a].2 as nat)
            },
    ensures
        !median ==> forall|i: int, j: int|
            0 <= i <= j < nodes.len() ==> barycenter_le(adj, pos, #[trigger] nodes[i], #[trigger] nodes[j]),
        median ==> forall|i: int, j: int|
            0 <= i <= j < nodes.len() ==> median_le(adj, pos, #[trigger] nodes[i], #[trigger] nodes[j]),
{
    assert forall|i: int| 0 <= i < sorted.len() implies (#[trigger] sorted[i]).2 > 0 && if median {
        sorted[i].2 == 1 && median_key(adj, pos, sorted[i].0) == sorted[i].1
    } else {
        barycenter(adj, pos, sorted[i].0) == (sorted[i].1 as nat, sorted[i].2 as nat)
    } by {
        assert(sorted.contains(sorted[i]));
        assert(sorted.to_multiset().count(sorted[i]) > 0);
        assert(keyed.to_multiset().count(sorted[i]) > 0);
        assert(keyed.contains(sorted[i]));
    }
    assert forall|i: int, j: int| 0 <= i <= j < sorted.len() implies (!median ==> barycenter_le(adj, pos, #[trigger] nodes[i], #[trigger] nodes[j]))
        && (median ==> median_le(adj, pos, nodes[i], nodes[j])) by {
        assert(keyed_le(sorted[i], sorted[j]));
        assert(nodes[i] == sorted[i].0);
        assert(nodes[j] == sorted[j].0);
        if median {
            assert(sorted[i].1 * sorted[j].2 == sorted[i].1);
            assert(sorted[j].1 * sorted[i].2 == sorted[j].1);
        }
    }
}


/// Sorts values in non-decreasing order (by insertion).
fn sort_values(v: &Vec<usize>) -> (out: Vec<usize>)
    ensures
        out@.to_multiset() == v@.to_multiset(),
        sorted_seq(out@),
{
    let mut out: Vec<usize> = Vec::new();
    for i in 0..v.len()
        invariant
            out@.to_multiset() == v@.subrange(0, i as int).to_multiset(),
            sorted_seq(out@),
    {
        let x = v[i];
        let mut p: usize = 0;
        while p < out.len() && out[p] <= x
            invariant
                p <= out@.len(),
                sorted_seq(out@),
                forall|a: int| 0 <= a < p ==> #[trigger] out@[a] <= x,
            decreases out@.len() - p,
        {
            p = p + 1;
        }
        let ghost before = out@;
        out.insert(p, x);
        proof {
            assert(v@.subrange(0, i + 1) =~= v@.subrange(0, i as int).push(x));
            assert(out@ == before.insert(p as int, x));
            assert forall|a: int, b: int| 0 <= a <= b < out@.len() implies #[trigger] out@[a] <= #[trigger] out@[b] by {
                if a < p && b > p {
                    assert(before[a] <= x);
                    assert(out@[b] == before[b - 1]);
                } else if a == p && b > p {
                    assert(before[p as int] > x);
                    assert(before[p as int] <= before[b - 1]);
                } else if b < p {
                    assert(before[a] <= before[b]);
                } else if a > p {
                    assert(before[a - 1] <= before[b - 1]);
                }
            }
        }
    }
    proof {
        assert(v@.subrange(0, v@.len() as int) =~= v@);
    }
    out
}

/// The `k`-th element of a sorted reordering of `t` is the `k`-th smallest
/// element of `t`.
proof fn lemma_kth_of_sorted(s: Seq<usize>, t: Seq<usize>, k: int)
    requires
        sorted_seq(s),
        s.to_multiset() == t.to_multiset(),
        0 <= k < s.len(),
    ensures
        kth_smallest(t, k) == s[k],
{
    let x = s[k];
    let below = |y: usize| if y < x { 1nat } else { 0nat };
    let upto = |y: usize| if y <= x { 1nat } else { 0nat };
    assert(s.contains(x));
    assert(s.to_multiset().count(x) > 0);
    assert(t.to_multiset().count(x) > 0);
    assert(t.contains(x));
    lemma_tally_permutation(s, t, below);
    lemma_tally_permutation(s, t, upto);
    let head = s.subrange(0, k);
    let tail = s.subrange(k, s.len() as int);
    assert(s =~= head + tail);
    lemma_tally_append(head, tail, below);
    assert forall|i: int| 0 <= i < tail.len() implies below(#[trigger] tail[i]) <= 0 by {
        assert(tail[i] == s[k + i]);
    }
    lemma_tally_bound(tail, below, 0);
    assert forall|i: int| 0 <= i < head.len() implies below(#[trigger] head[i]) <= 1 by {}
    lemma_tally_bound(head, below, 1);
    let head1 = s.subrange(0, k + 1);
    let tail1 = s.subrange(k + 1, s.len() as int);
    assert(s =~= head1 + tail1);
    lemma_tally_append(head1, tail1, upto);
    assert forall|i: int| 0 <= i < head1.len() implies upto(#[trigger] head1[i]) == 1 by {
        assert(head1[i] == s[i]);
    }
    lemma_tally_all_one(head1, upto);
    assert(is_kth_smallest(t, k, x));
    let y = kth_smallest(t, k);
    assert(is_kth_smallest(t, k, y));
    if y < x {
        let upto_y = |z: usize| if z <= y { 1nat } else { 0nat };
        lemma_tally_mono(t, upto_y, below);
    } else if y > x {
        let below_y = |z: usize| if z < y { 1nat } else { 0nat };
        lemma_tally_mono(t, upto, below_y);
    }
}

/// Order nodes in a layer using the median heuristic.
fn order_by_median(layer_nodes: &Vec<usize>, adjacent_layer: &Vec<usize>, adjacency: &Vec<Vec<usize>>) -> (out: Vec<usize>)
    ensures
        out@ == median_order(layer_nodes@, adjacent_layer@, lists_view(adjacency@)),
        out@.to_multiset() == layer_nodes@.to_multiset(),
        forall|i: int, j: int|
            0 <= i <= j < out@.len() ==> median_le(
                lists_view(adjacency@),
                layer_positions(adjacent_layer@, adjacent_layer@.len() as nat),
                #[trigger] out@[i],
                #[trigger] out@[j],
            ),
{
    let ghost adj = lists_view(adjacency@);
    let position = build_position_index(adjacent_layer);
    let ghost pos = position@;
    let mut keyed: Vec<(usize, u128, u64)> = Vec::new();
    for q in 0..layer_nodes.len()
        invariant
            adj == lists_view(adjacency@),
            pos == position@,
            keyed@.len() == q,
            forall|a: int|
                0 <= a < q ==> (#[trigger] keyed@[a]).0 == layer_nodes@[a] && keyed@[a].2 == 1 && median_key(adj, pos, keyed@[a].0)
                    == keyed@[a].1,
    {
        let node_idx = layer_nodes[q];
        let t = collect_target_positions(node_idx, adjacency, &position);
        if t.len() == 0 {
            keyed.push((node_idx, 2 * (node_idx as u128), 1));
        } else {
            let s = sort_values(&t);
            let len = s.len();
            proof {
                vstd::seq_lib::to_multiset_len(s@);
                vstd::seq_lib::to_multiset_len(t@);
            }
            let twice = if len % 2 == 1 {
                proof {
                    lemma_kth_of_sorted(s@, t@, (len / 2) as int);
                }
                2 * (s[len / 2] as u128)
            } else {
                proof {
                    lemma_kth_of_sorted(s@, t@, (len / 2) as int);
                    lemma_kth_of_sorted(s@, t@, (len / 2 - 1) as int);
                }
                (s[len / 2 - 1] as u128) + (s[len / 2] as u128)
            };
            keyed.push((node_idx, twice, 1));
        }
    }
    proof {
        assert(keyed@.map_values(|e: (usize, u128, u64)| e.0) =~= layer_nodes@);
    }
    let sorted = sort_keyed(&keyed);
    let out = keyed_nodes(&sorted);
    proof {
        lemma_keyed_members(keyed@, sorted@, adj, pos, true, out@);
        lemma_map_permutation(sorted@, keyed@, |e: (usize, u128, u64)| e.0);
        lemma_is_median_order(layer_nodes@, adjacent_layer@, adj, out@);
    }
    out
}


/// Threshold for sifting: above this, the layer is left as it is.
pub const SIFTING_NODE_LIMIT: usize = 100;

/// Edges from the nodes of `ordering` to their neighbours placed in the
/// adjacent layer, as `(source position, target position)`, node by node.
pub open spec fn layer_edge_list(ordering: Seq<usize>, adj: Seq<Seq<usize>>, pos: Map<usize, usize>) -> Seq<(usize, usize)>
    decreases ordering.len(),
{
    if ordering.len() == 0 {
        Seq::empty()
    } else {
        let src = (ordering.len() - 1) as usize;
        layer_edge_list(ordering.drop_last(), adj, pos) + target_positions(neighbors_of(adj, ordering.last()), pos).map_values(
            |t: usize| (src, t),
        )
    }
}

/// Edge `a` and edge `b` cross, in either direction.
pub open spec fn edges_cross(a: (usize, usize), b: (usize, usize)) -> bool {
    (a.0 < b.0 && a.1 > b.1) || (a.0 > b.0 && a.1 < b.1)
}

/// Number of crossing pairs `i < j` among a list of edges.
pub open spec fn symmetric_crossings(s: Seq<(usize, usize)>) -> nat
    decreases s.len(),
{
    if s.len() == 0 {
        0
    } else {
        symmetric_crossings(s.drop_last()) + tally(
            s.drop_last(),
            |a: (usize, usize)| if edges_cross(a, s.last()) { 1nat } else { 0nat },
        )
    }
}

/// Whether a node placed at `insert_pos`, with an edge to `node_target`,
/// crosses the edge `(base_src, other_target)` of the rest of the layer
/// (whose sources at or after `insert_pos` move one step right).
pub open spec fn inserted_cross(insert_pos: usize, node_target: usize, other: (usize, usize)) -> bool {
    let other_src = if other.0 >= insert_pos { other.0 + 1 } else { other.0 as int };
    (insert_pos < other_src && node_target > other.1) || (insert_pos > other_src && node_target < other.1)
}

/// Crossings between the edges of a node inserted at `insert_pos` and the
/// edges of the rest of its layer.
pub open spec fn inserted_crossings(node_targets: Seq<usize>, other_edges: Seq<(usize, usize)>, insert_pos: usize) -> nat {
    tally(
        other_edges,
        |other: (usize, usize)| tally(node_targets, |t: usize| if inserted_cross(insert_pos, t, other) { 1nat } else { 0nat }),
    )
}

/// A count that stops growing at `usize::MAX`.
pub open spec fn capped(n: nat) -> usize {
    if n <= usize::MAX { n as usize } else { usize::MAX }
}

/// Edges of a layer towards the adjacent layer, node by node.
fn collect_layer_edges(
    ordering: &Vec<usize>,
    adjacency: &Vec<Vec<usize>>,
    adjacent_positions: &BTreeMap<usize, usize>,
) -> (edges: Vec<(usize, usize)>)
    ensures
        edges@ == layer_edge_list(ordering@, lists_view(adjacency@), adjacent_positions@),
{
    let mut edges: Vec<(usize, usize)> = Vec::new();
    for src_pos in 0..ordering.len()
        invariant
            edges@ == layer_edge_list(ordering@.subrange(0, src_pos as int), lists_view(adjacency@), adjacent_positions@),
    {
        let targets = collect_target_positions(ordering[src_pos], adjacency, adjacent_positions);
        let ghost before = edges@;
        for q in 0..targets.len()
            invariant
                edges@ == before + targets@.subrange(0, q as int).map_values(|t: usize| (src_pos, t)),
        {
            edges.push((src_pos, targets[q]));
            proof {
                assert(targets@.subrange(0, q + 1).map_values(|t: usize| (src_pos, t)) =~= targets@.subrange(
                    0,
                    q as int,
                ).map_values(|t: usize| (src_pos, t)).push((src_pos, targets@[q as int])));
            }
        }
        proof {
            let pre = ordering@.subrange(0, src_pos + 1);
            assert(pre.drop_last() =~= ordering@.subrange(0, src_pos as int));
            assert(pre.last() == ordering@[src_pos as int]);
            assert(targets@.subrange(0, targets@.len() as int) =~= targets@);
        }
    }
    proof {
        assert(ordering@.subrange(0, ordering@.len() as int) =~= ordering@);
    }
    edges
}

/// Count crossings for a single layer relative to its adjacent layer
/// (stopping at `usize::MAX`).
fn count_layer_crossings(
    layer_nodes: &Vec<usize>,
    adj_position: &BTreeMap<usize, usize>,
    adjacency: &Vec<Vec<usize>>,
) -> (crossings: usize)
    ensures
        crossings == capped(
            symmetric_crossings(layer_edge_list(layer_nodes@, lists_view(adjacency@), adj_position@)),
        ),
{
    let edges = collect_layer_edges(layer_nodes, adjacency, adj_position);
    let mut crossings: usize = 0;
    for j in 0..edges.len()
        invariant
            crossings == capped(symmetric_crossings(edges@.subrange(0, j as int))),
    {
        let ghost pre = edges@.subrange(0, j as int);
        let ghost g = |a: (usize, usize)| if edges_cross(a, edges@[j as int]) { 1nat } else { 0nat };
        proof {
            assert(edges@.subrange(0, j + 1).drop_last() =~= pre);
            assert(edges@.subrange(0, j + 1).last() == edges@[j as int]);
        }
        for i in 0..j
            invariant
                j < edges@.len(),
                pre == edges@.subrange(0, j as int),
                g == (|a: (usize, usize)| if edges_cross(a, edges@[j as int]) { 1nat } else { 0nat }),
                crossings == capped(symmetric_crossings(pre) + tally(pre.subrange(0, i as int), g)),
        {
            let (from1, to1) = edges[i];
            let (from2, to2) = edges[j];
            proof {
                lemma_tally_prefix_step(pre, i as int, g);
                assert(pre[i as int] == edges@[i as int]);
            }
            if (from1 < from2 && to1 > to2) || (from1 > from2 && to1 < to2) {
                crossings = crossings.saturating_add(1);
            }
        }
        proof {
            assert(pre.subrange(0, j as int) =~= pre);
        }
    }
    proof {
        assert(edges@.subrange(0, edges@.len() as int) =~= edges@);
    }
    crossings
}

/// Crossings between a node inserted at `insert_pos` and the rest of its
/// layer (stopping at `usize::MAX`).
fn count_inserted_node_crossings(node_targets: &Vec<usize>, other_edges: &Vec<(usize, usize)>, insert_pos: usize) -> (crossings: usize)
    ensures
        crossings == capped(inserted_crossings(node_targets@, other_edges@, insert_pos)),
{
    let ghost outer = |other: (usize, usize)| tally(node_targets@, |t: usize| if inserted_cross(insert_pos, t, other) { 1nat } else { 0nat });
    let mut crossings: usize = 0;
    for e in 0..other_edges.len()
        invariant
            outer == (|other: (usize, usize)| tally(node_targets@, |t: usize| if inserted_cross(insert_pos, t, other) { 1nat } else { 0nat })),
            crossings == capped(tally(other_edges@.subrange(0, e as int), outer)),
    {
        let (base_src, other_target) = other_edges[e];
        let other_src = if base_src >= insert_pos { base_src as u128 + 1 } else { base_src as u128 };
        let ghost other = other_edges@[e as int];
        let ghost inner = |t: usize| if inserted_cross(insert_pos, t, other) { 1nat } else { 0nat };
        let ghost base = tally(other_edges@.subrange(0, e as int), outer);
        proof {
            lemma_tally_prefix_step(other_edges@, e as int, outer);
        }
        for q in 0..node_targets.len()
            invariant
                e < other_edges@.len(),
                other == other_edges@[e as int],
                other == (base_src, other_target),
                other_src == if base_src >= insert_pos { base_src + 1 } else { base_src as int },
                inner == (|t: usize| if inserted_cross(insert_pos, t, other) { 1nat } else { 0nat }),
                crossings == capped(base + tally(node_targets@.subrange(0, q as int), inner)),
        {
            let node_target = node_targets[q];
            proof {
                lemma_tally_prefix_step(node_targets@, q as int, inner);
            }
            if ((insert_pos as u128) < other_src && node_target > other_target)
                || ((insert_pos as u128) > other_src && node_target < other_target) {
                crossings = crossings.saturating_add(1);
            }
        }
        proof {
            assert(node_targets@.subrange(0, node_targets@.len() as int) =~= node_targets@);
            assert(outer(other) == tally(node_targets@, inner));
        }
    }
    proof {
        assert(other_edges@.subrange(0, other_edges@.len() as int) =~= other_edges@);
    }
    crossings
}


/// The first of positions `0..k` with the least cost (position 0 when `k <= 1`).
pub open spec fn first_cheapest(cost: spec_fn(int) -> usize, k: int) -> int
    decreases k,
{
    if k <= 1 {
        0
    } else {
        let b = first_cheapest(cost, k - 1);
        if cost(k - 1) < cost(b) {
            k - 1
        } else {
            b
        }
    }
}

/// What putting the node at position `i` of `ord` back at position `p` of
/// the rest of the layer costs: its crossings with the rest (stopping at
/// `usize::MAX`).
pub open spec fn sift_cost(ord: Seq<usize>, i: int, adj: Seq<Seq<usize>>, pos: Map<usize, usize>, p: int) -> usize {
    capped(
        inserted_crossings(
            target_positions(neighbors_of(adj, ord[i]), pos),
            layer_edge_list(ord.remove(i), adj, pos),
            p as usize,
        ),
    )
}

/// The node at position `i` moved to the first cheapest position of the rest.
pub open spec fn sift_step(ord: Seq<usize>, i: int, adj: Seq<Seq<usize>>, pos: Map<usize, usize>) -> Seq<usize> {
    ord.remove(i).insert(first_cheapest(|p: int| sift_cost(ord, i, adj, pos, p), ord.len() as int), ord[i])
}

/// Positions `0..k` sifted in turn.
pub open spec fn sifted(ord: Seq<usize>, adj: Seq<Seq<usize>>, pos: Map<usize, usize>, k: int) -> Seq<usize>
    decreases k,
{
    if k <= 0 {
        ord
    } else {
        sift_step(sifted(ord, adj, pos, k - 1), k - 1, adj, pos)
    }
}

/// The sifting order of a layer against an adjacent one: unchanged when
/// it has one node, more than [`SIFTING_NODE_LIMIT`] nodes or no crossing;
/// else every position sifted in turn.
pub open spec fn sifting_order(layer: Seq<usize>, adjacent: Seq<usize>, adj: Seq<Seq<usize>>) -> Seq<usize> {
    let pos = layer_positions(adjacent, adjacent.len() as nat);
    if layer.len() <= 1 || layer.len() > SIFTING_NODE_LIMIT || symmetric_crossings(layer_edge_list(layer, adj, pos)) == 0 {
        layer
    } else {
        sifted(layer, adj, pos, layer.len() as int)
    }
}

/// Sifting keeps the length.
proof fn lemma_sifted_len(ord: Seq<usize>, adj: Seq<Seq<usize>>, pos: Map<usize, usize>, k: int)
    requires
        0 <= k <= ord.len(),
    ensures
        sifted(ord, adj, pos, k).len() == ord.len(),
    decreases k,
{
    if k > 0 {
        lemma_sifted_len(ord, adj, pos, k - 1);
        lemma_first_cheapest_bound(|p: int| sift_cost(sifted(ord, adj, pos, k - 1), k - 1, adj, pos, p), ord.len() as int);
    }
}

/// The first cheapest position is one of the positions.
proof fn lemma_first_cheapest_bound(cost: spec_fn(int) -> usize, k: int)
    ensures
        k >= 1 ==> 0 <= first_cheapest(cost, k) < k,
        k < 1 ==> first_cheapest(cost, k) == 0,
    decreases k,
{
    if k > 1 {
        lemma_first_cheapest_bound(cost, k - 1);
    }
}

/// Moves the node at position `i` to position `best_pos` of the ordering
/// without it.
fn move_node(ordering: &mut Vec<usize>, i: usize, best_pos: usize)
    requires
        i < old(ordering)@.len(),
        best_pos < old(ordering)@.len(),
    ensures
        final(ordering)@ == old(ordering)@.remove(i as int).insert(best_pos as int, old(ordering)@[i as int]),
        final(ordering)@.to_multiset() == old(ordering)@.to_multiset(),
{
    let ghost before = ordering@;
    let node = ordering.remove(i);
    ordering.insert(best_pos, node);
    proof {
        assert(before.remove(i as int).to_multiset() == before.to_multiset().remove(node));
        assert(ordering@.to_multiset() =~= before.to_multiset());
    }
}

/// Order nodes in a layer using the sifting algorithm.
///
/// Layers of one node or of more than [`SIFTING_NODE_LIMIT`] nodes, and
/// layers without crossings, are returned unchanged. Otherwise each position
/// in turn takes its node out and puts it back where it crosses the fewest
/// edges of the rest of the layer (the leftmost such place).
fn order_by_sifting(layer_nodes: &Vec<usize>, adjacent_layer: &Vec<usize>, adjacency: &Vec<Vec<usize>>) -> (out: Vec<usize>)
    ensures
        out@ == sifting_order(layer_nodes@, adjacent_layer@, lists_view(adjacency@)),
        out@.to_multiset() == layer_nodes@.to_multiset(),
{
    let ghost adj = lists_view(adjacency@);
    if layer_nodes.len() <= 1 || layer_nodes.len() > SIFTING_NODE_LIMIT {
        return layer_nodes.clone();
    }
    let adj_position = build_position_index(adjacent_layer);
    let ghost pos = adj_position@;
    let mut ordering = layer_nodes.clone();
    if count_layer_crossings(&ordering, &adj_position, adjacency) == 0 {
        return ordering;
    }
    let n = ordering.len();
    let mut i: usize = 0;
    while i < n
        invariant
            adj == lists_view(adjacency@),
            pos == adj_position@,
            pos == layer_positions(adjacent_layer@, adjacent_layer@.len() as nat),
            n == layer_nodes@.len(),
            i <= n,
            ordering@.len() == n,
            ordering@ == sifted(layer_nodes@, adj, pos, i as int),
            ordering@.to_multiset() == layer_nodes@.to_multiset(),
        decreases n - i,
    {
        let ghost ord = ordering@;
        let ghost cost = |p: int| sift_cost(ord, i as int, adj, pos, p);
        let node = ordering[i];
        let mut reduced_ordering = ordering.clone();
        reduced_ordering.remove(i);

        let node_targets = collect_target_positions(node, adjacency, &adj_position);
        let other_edges = collect_layer_edges(&reduced_ordering, adjacency, &adj_position);

        let mut best_pos = i;
        let mut best_crossings = usize::MAX;
        let rlen = reduced_ordering.len();
        let mut try_pos: usize = 0;
        while try_pos < rlen + 1
            invariant
                rlen + 1 == n,
                i < n,
                try_pos <= rlen + 1,
                node_targets@ == target_positions(neighbors_of(adj, ord[i as int]), pos),
                other_edges@ == layer_edge_list(ord.remove(i as int), adj, pos),
                cost == (|p: int| sift_cost(ord, i as int, adj, pos, p)),
                try_pos == 0 ==> best_pos == i && best_crossings == usize::MAX,
                try_pos > 0 ==> best_pos == first_cheapest(cost, try_pos as int) && best_crossings == cost(best_pos as int),
                best_pos < n,
            decreases rlen + 1 - try_pos,
        {
            let crossings = count_inserted_node_crossings(&node_targets, &other_edges, try_pos);
            proof {
                assert(crossings == cost(try_pos as int));
                lemma_first_cheapest_bound(cost, try_pos as int);
            }
            if crossings < best_crossings || (crossings == best_crossings && try_pos < best_pos) {
                best_crossings = crossings;
                best_pos = try_pos;
            }
            try_pos = try_pos + 1;
        }
        proof {
            assert(best_pos == first_cheapest(cost, n as int));
            assert(sift_step(ord, i as int, adj, pos) == ord.remove(i as int).insert(best_pos as int, ord[i as int]));
        }
        if best_pos != i {
            move_node(&mut ordering, i, best_pos);
        } else {
            proof {
                assert(ord.remove(i as int).insert(i as int, ord[i as int]) =~= ord);
            }
        }
        i = i + 1;
    }
    ordering
}

/// What putting the node at position `i` of `ord` back at position `p`
/// costs against one neighbouring layer, placed at `side` (nothing when
/// there is no such layer).
pub open spec fn side_cost(ord: Seq<usize>, i: int, adj: Seq<Seq<usize>>, side: Option<Map<usize, usize>>, p: int) -> nat {
    match side {
        Some(pos) => inserted_crossings(
            target_positions(neighbors_of(adj, ord[i]), pos),
            layer_edge_list(ord.remove(i), adj, pos),
            p as usize,
        ),
        None => 0,
    }
}

/// What putting the node at position `i` of `ord` back at position `p`
/// costs against both neighbouring layers (stopping at `usize::MAX`).
pub open spec fn global_cost(
    ord: Seq<usize>,
    i: int,
    adj: Seq<Seq<usize>>,
    prev: Option<Map<usize, usize>>,
    next: Option<Map<usize, usize>>,
    p: int,
) -> usize {
    capped(side_cost(ord, i, adj, prev, p) + side_cost(ord, i, adj, next, p))
}

/// The node at position `i` moved to the first place of the rest that is
/// cheapest against both neighbouring layers.
pub open spec fn global_step(
    ord: Seq<usize>,
    i: int,
    adj: Seq<Seq<usize>>,
    prev: Option<Map<usize, usize>>,
    next: Option<Map<usize, usize>>,
) -> Seq<usize> {
    ord.remove(i).insert(first_cheapest(|p: int| global_cost(ord, i, adj, prev, next, p), ord.len() as int), ord[i])
}

/// Positions `0..k` of a layer moved in turn against both neighbouring
/// layers.
pub open spec fn global_sifted(
    ord: Seq<usize>,
    adj: Seq<Seq<usize>>,
    prev: Option<Map<usize, usize>>,
    next: Option<Map<usize, usize>>,
    k: int,
) -> Seq<usize>
    decreases k,
{
    if k <= 0 {
        ord
    } else {
        global_step(global_sifted(ord, adj, prev, next, k - 1), k - 1, adj, prev, next)
    }
}

/// Positions of the nodes of layer `r`, when there is such a layer.
pub open spec fn neighbour_positions(layers: Seq<Seq<usize>>, r: int) -> Option<Map<usize, usize>> {
    if 0 <= r < layers.len() {
        Some(layer_positions(layers[r], layers[r].len() as nat))
    } else {
        None
    }
}

/// Layer `r` with every position moved in turn against the layers as they
/// stand on both sides of it.
pub open spec fn globally_sifted_layer(layers: Seq<Seq<usize>>, adj: Seq<Seq<usize>>, r: int) -> Seq<Seq<usize>> {
    layers.update(
        r,
        global_sifted(
            layers[r],
            adj,
            neighbour_positions(layers, r - 1),
            neighbour_positions(layers, r + 1),
            layers[r].len() as int,
        ),
    )
}

/// Layers `0..k` sifted in turn, from the first.
pub open spec fn globally_sifted_layers(layers: Seq<Seq<usize>>, adj: Seq<Seq<usize>>, k: int) -> Seq<Seq<usize>>
    decreases k,
{
    if k <= 0 {
        layers
    } else {
        globally_sifted_layer(globally_sifted_layers(layers, adj, k - 1), adj, k - 1)
    }
}

/// `p` passes of global sifting over all layers.
pub open spec fn global_sifting_passes(layers: Seq<Seq<usize>>, adj: Seq<Seq<usize>>, p: nat) -> Seq<Seq<usize>>
    decreases p,
{
    if p == 0 {
        layers
    } else {
        let before = global_sifting_passes(layers, adj, (p - 1) as nat);
        globally_sifted_layers(before, adj, before.len() as int)
    }
}

/// Global sifting: two passes over all layers.
pub open spec fn global_sifting(layers: Seq<Seq<usize>>, adj: Seq<Seq<usize>>) -> Seq<Seq<usize>> {
    global_sifting_passes(layers, adj, 2)
}

/// Sifting layers keeps their number.
proof fn lemma_globally_sifted_layers_len(layers: Seq<Seq<usize>>, adj: Seq<Seq<usize>>, k: int)
    requires
        k <= layers.len(),
    ensures
        globally_sifted_layers(layers, adj, k).len() == layers.len(),
    decreases k,
{
    if k > 0 {
        lemma_globally_sifted_layers_len(layers, adj, k - 1);
    }
}

/// Passes of global sifting keep the number of layers.
proof fn lemma_global_sifting_passes_len(layers: Seq<Seq<usize>>, adj: Seq<Seq<usize>>, p: nat)
    ensures
        global_sifting_passes(layers, adj, p).len() == layers.len(),
    decreases p,
{
    if p > 0 {
        lemma_global_sifting_passes_len(layers, adj, (p - 1) as nat);
        let before = global_sifting_passes(layers, adj, (p - 1) as nat);
        lemma_globally_sifted_layers_len(before, adj, before.len() as int);
    }
}

/// Sifting a layer against both neighbours keeps its length.
proof fn lemma_global_sifted_len(
    ord: Seq<usize>,
    adj: Seq<Seq<usize>>,
    prev: Option<Map<usize, usize>>,
    next: Option<Map<usize, usize>>,
    k: int,
)
    requires
        0 <= k <= ord.len(),
    ensures
        global_sifted(ord, adj, prev, next, k).len() == ord.len(),
    decreases k,
{
    if k > 0 {
        lemma_global_sifted_len(ord, adj, prev, next, k - 1);
        let o = global_sifted(ord, adj, prev, next, k - 1);
        lemma_first_cheapest_bound(|p: int| global_cost(o, k - 1, adj, prev, next, p), ord.len() as int);
    }
}

/// The layers of an ordering with one layer replaced.
proof fn lemma_layers_view_update(layers: Seq<Vec<usize>>, r: int, layer: Vec<usize>)
    requires
        0 <= r < layers.len(),
    ensures
        layers_view(layers.update(r, layer)) == layers_view(layers).update(r, layer@),
{
    assert(layers_view(layers.update(r, layer)) =~= layers_view(layers).update(r, layer@));
}

/// Positions of a neighbouring layer, when there is one.
fn side_positions(nodes_by_rank: &Vec<Vec<usize>>, r: usize, present: bool) -> (positions: Option<BTreeMap<usize, usize>>)
    requires
        present ==> r < nodes_by_rank@.len(),
    ensures
        positions_view(positions) == if present {
            Some(layer_positions(nodes_by_rank@[r as int]@, nodes_by_rank@[r as int]@.len() as nat))
        } else {
            None
        },
{
    if present {
        Some(build_position_index(&nodes_by_rank[r]))
    } else {
        None
    }
}

/// The view of an optional position map.
pub open spec fn positions_view(positions: Option<BTreeMap<usize, usize>>) -> Option<Map<usize, usize>> {
    match positions {
        Some(m) => Some(m@),
        None => None,
    }
}

/// Crossings of a node of `reduced` (the layer without it) put back at
/// `try_pos`, against one neighbouring layer when there is one.
fn side_crossings(
    node: usize,
    reduced: &Vec<usize>,
    adjacency: &Vec<Vec<usize>>,
    positions: &Option<BTreeMap<usize, usize>>,
    try_pos: usize,
) -> (crossings: usize)
    ensures
        crossings == capped(
            match positions_view(*positions) {
                Some(pos) => inserted_crossings(
                    target_positions(neighbors_of(lists_view(adjacency@), node), pos),
                    layer_edge_list(reduced@, lists_view(adjacency@), pos),
                    try_pos,
                ),
                None => 0,
            },
        ),
{
    match positions {
        Some(pos) => {
            let targets = collect_target_positions(node, adjacency, pos);
            let edges = collect_layer_edges(reduced, adjacency, pos);
            count_inserted_node_crossings(&targets, &edges, try_pos)
        },
        None => 0,
    }
}

/// Apply global sifting across all layers: each node is moved to the place
/// of its layer that crosses the fewest edges towards both neighbouring
/// layers (the leftmost such place), layer after layer, in two passes.
fn apply_global_sifting(nodes_by_rank: &mut Vec<Vec<usize>>, adjacency: &Vec<Vec<usize>>)
    ensures
        layers_view(final(nodes_by_rank)@) == global_sifting(layers_view(old(nodes_by_rank)@), lists_view(adjacency@)),
        final(nodes_by_rank)@.len() == old(nodes_by_rank)@.len(),
        forall|r: int|
            0 <= r < final(nodes_by_rank)@.len() ==> (#[trigger] final(nodes_by_rank)@[r])@.to_multiset()
                == old(nodes_by_rank)@[r]@.to_multiset(),
{
    let ghost adj = lists_view(adjacency@);
    let ghost start = layers_view(nodes_by_rank@);
    if nodes_by_rank.len() == 0 {
        proof {
            assert(global_sifting_passes(start, adj, 0) == start);
            assert(globally_sifted_layers(start, adj, 0) == start);
            assert(global_sifting_passes(start, adj, 1) == start);
            assert(global_sifting_passes(start, adj, 2) == start);
        }
        return;
    }
    let num = nodes_by_rank.len();
    let mut pass: usize = 0;
    while pass < 2
        invariant
            adj == lists_view(adjacency@),
            start == layers_view(old(nodes_by_rank)@),
            nodes_by_rank@.len() == num,
            num == old(nodes_by_rank)@.len(),
            pass <= 2,
            layers_view(nodes_by_rank@) == global_sifting_passes(start, adj, pass as nat),
            forall|r: int|
                0 <= r < num ==> (#[trigger] nodes_by_rank@[r])@.to_multiset() == old(nodes_by_rank)@[r]@.to_multiset(),
        decreases 2 - pass,
    {
        let ghost before = layers_view(nodes_by_rank@);
        let mut rank_idx: usize = 0;
        while rank_idx < num
            invariant
                adj == lists_view(adjacency@),
                nodes_by_rank@.len() == num,
                before.len() == num,
                rank_idx <= num,
                layers_view(nodes_by_rank@) == globally_sifted_layers(before, adj, rank_idx as int),
                forall|r: int|
                    0 <= r < num ==> (#[trigger] nodes_by_rank@[r])@.to_multiset() == old(nodes_by_rank)@[r]@.to_multiset(),
            decreases num - rank_idx,
        {
            let ghost cur = layers_view(nodes_by_rank@);
            let mut ordering = nodes_by_rank[rank_idx].clone();
            let prev_positions = side_positions(nodes_by_rank, if rank_idx >= 1 { rank_idx - 1 } else { 0 }, rank_idx >= 1);
            let next_positions = side_positions(nodes_by_rank, rank_idx + 1, rank_idx + 1 < num);
            let ghost prev = positions_view(prev_positions);
            let ghost next = positions_view(next_positions);
            proof {
                assert(prev == neighbour_positions(cur, rank_idx - 1));
                assert(next == neighbour_positions(cur, rank_idx + 1));
            }
            let n = ordering.len();
            let mut i: usize = 0;
            while i < n
                invariant
                    adj == lists_view(adjacency@),
                    nodes_by_rank@.len() == num,
                    cur == layers_view(nodes_by_rank@),
                    rank_idx < num,
                    n == cur[rank_idx as int].len(),
                    prev == positions_view(prev_positions),
                    next == positions_view(next_positions),
                    i <= n,
                    ordering@.len() == n,
                    ordering@ == global_sifted(cur[rank_idx as int], adj, prev, next, i as int),
                    ordering@.to_multiset() == nodes_by_rank@[rank_idx as int]@.to_multiset(),
                decreases n - i,
            {
                let ghost ord = ordering@;
                let ghost cost = |p: int| global_cost(ord, i as int, adj, prev, next, p);
                let node = ordering[i];
                let mut reduced_ordering = ordering.clone();
                reduced_ordering.remove(i);
                proof {
                    assert(reduced_ordering@ == ord.remove(i as int));
                }

                let mut best_pos = i;
                let mut best_crossings = usize::MAX;
                let rlen = reduced_ordering.len();
                let mut try_pos: usize = 0;
                while try_pos < rlen + 1
                    invariant
                        adj == lists_view(adjacency@),
                        rlen + 1 == n,
                        i < n,
                        ord.len() == n,
                        node == ord[i as int],
                        reduced_ordering@ == ord.remove(i as int),
                        prev == positions_view(prev_positions),
                        next == positions_view(next_positions),
                        try_pos <= rlen + 1,
                        cost == (|p: int| global_cost(ord, i as int, adj, prev, next, p)),
                        try_pos == 0 ==> best_pos == i && best_crossings == usize::MAX,
                        try_pos > 0 ==> best_pos == first_cheapest(cost, try_pos as int) && best_crossings == cost(
                            best_pos as int,
                        ),
                        best_pos < n,
                    decreases rlen + 1 - try_pos,
                {
                    let before_side = side_crossings(node, &reduced_ordering, adjacency, &prev_positions, try_pos);
                    let after_side = side_crossings(node, &reduced_ordering, adjacency, &next_positions, try_pos);
                    let crossings = before_side.saturating_add(after_side);
                    proof {
                        assert(before_side == capped(side_cost(ord, i as int, adj, prev, try_pos as int)));
                        assert(after_side == capped(side_cost(ord, i as int, adj, next, try_pos as int)));
                        assert(crossings == cost(try_pos as int));
                        lemma_first_cheapest_bound(cost, try_pos as int);
                    }
                    if crossings < best_crossings || (crossings == best_crossings && try_pos < best_pos) {
                        best_crossings = crossings;
                        best_pos = try_pos;
                    }
                    try_pos = try_pos + 1;
                }
                proof {
                    assert(best_pos == first_cheapest(cost, n as int));
                    assert(global_step(ord, i as int, adj, prev, next) == ord.remove(i as int).insert(
                        best_pos as int,
                        ord[i as int],
                    ));
                }
                if best_pos != i {
                    move_node(&mut ordering, i, best_pos);
                } else {
                    proof {
                        assert(ord.remove(i as int).insert(i as int, ord[i as int]) =~= ord);
                    }
                }
                i = i + 1;
            }
            proof {
                lemma_layers_view_update(nodes_by_rank@, rank_idx as int, ordering);
                lemma_globally_sifted_layers_len(before, adj, rank_idx as int);
            }
            nodes_by_rank.set(rank_idx, ordering);
            rank_idx = rank_idx + 1;
        }
        proof {
            lemma_global_sifting_passes_len(start, adj, pass as nat);
        }
        pass = pass + 1;
    }
}


/// Strategy for crossing reduction during node ordering.
#[derive(Debug, Clone, Copy, PartialEq, Eq, Structural)]
pub enum CrossingReductionStrategy {
    /// Barycenter heuristic (average position of neighbours).
    Barycenter,
    /// Median heuristic (median position of neighbours).
    Median,
    /// Sifting (local optimization).
    Sifting,
    /// Try the three strategies above and keep the ordering with the fewest
    /// crossings.
    Combined,
}

impl Default for CrossingReductionStrategy {
    fn default() -> (s: Self)
        ensures
            s == CrossingReductionStrategy::Barycenter,
    {
        CrossingReductionStrategy::Barycenter
    }
}

/// The order a single-layer strategy gives a layer against an adjacent one.
pub open spec fn layer_order(
    strategy: CrossingReductionStrategy,
    layer: Seq<usize>,
    adjacent: Seq<usize>,
    adj: Seq<Seq<usize>>,
) -> Seq<usize> {
    match strategy {
        CrossingReductionStrategy::Barycenter => barycenter_order(layer, adjacent, adj),
        CrossingReductionStrategy::Median => median_order(layer, adjacent, adj),
        _ => sifting_order(layer, adjacent, adj),
    }
}

/// Layers `1..k` ordered in turn, each against the layer above it as it
/// stands by then.
pub open spec fn swept_down(
    layers: Seq<Seq<usize>>,
    strategy: CrossingReductionStrategy,
    adj: Seq<Seq<usize>>,
    k: int,
) -> Seq<Seq<usize>>
    decreases k,
{
    if k <= 1 {
        layers
    } else {
        let down = swept_down(layers, strategy, adj, k - 1);
        down.update(k - 1, layer_order(strategy, down[k - 1], down[k - 2], adj))
    }
}

/// Layers from the last but one down to `k` ordered in turn, each against
/// the layer below it as it stands by then.
pub open spec fn swept_up(
    layers: Seq<Seq<usize>>,
    strategy: CrossingReductionStrategy,
    adj: Seq<Seq<usize>>,
    k: int,
) -> Seq<Seq<usize>>
    decreases layers.len() - k,
{
    if k + 1 >= layers.len() {
        layers
    } else {
        let up = swept_up(layers, strategy, adj, k + 1);
        up.update(k, layer_order(strategy, up[k], up[k + 1], adj))
    }
}

/// One pass: a sweep down all the layers, then one back up.
pub open spec fn sweep_pass(layers: Seq<Seq<usize>>, strategy: CrossingReductionStrategy, adj: Seq<Seq<usize>>) -> Seq<
    Seq<usize>,
> {
    swept_up(swept_down(layers, strategy, adj, layers.len() as int), strategy, adj, 0)
}

/// `p` passes in a row.
pub open spec fn sweep_passes(
    layers: Seq<Seq<usize>>,
    strategy: CrossingReductionStrategy,
    adj: Seq<Seq<usize>>,
    p: nat,
) -> Seq<Seq<usize>>
    decreases p,
{
    if p == 0 {
        layers
    } else {
        sweep_pass(sweep_passes(layers, strategy, adj, (p - 1) as nat), strategy, adj)
    }
}

/// The layers a single strategy gives: three passes, and for sifting a
/// global sifting after them.
pub open spec fn strategy_layers(
    layers: Seq<Seq<usize>>,
    strategy: CrossingReductionStrategy,
    adj: Seq<Seq<usize>>,
) -> Seq<Seq<usize>> {
    let swept = sweep_passes(layers, strategy, adj, 3);
    if strategy == CrossingReductionStrategy::Sifting {
        global_sifting(swept, adj)
    } else {
        swept
    }
}

/// The sweep down keeps the number of layers.
proof fn lemma_swept_down_len(layers: Seq<Seq<usize>>, strategy: CrossingReductionStrategy, adj: Seq<Seq<usize>>, k: int)
    requires
        k <= layers.len(),
    ensures
        swept_down(layers, strategy, adj, k).len() == layers.len(),
    decreases k,
{
    if k > 1 {
        lemma_swept_down_len(layers, strategy, adj, k - 1);
    }
}

/// The sweep up keeps the number of layers.
proof fn lemma_swept_up_len(layers: Seq<Seq<usize>>, strategy: CrossingReductionStrategy, adj: Seq<Seq<usize>>, k: int)
    requires
        k >= 0,
    ensures
        swept_up(layers, strategy, adj, k).len() == layers.len(),
    decreases layers.len() - k,
{
    if k + 1 < layers.len() {
        lemma_swept_up_len(layers, strategy, adj, k + 1);
    }
}

/// Passes keep the number of layers.
proof fn lemma_sweep_passes_len(layers: Seq<Seq<usize>>, strategy: CrossingReductionStrategy, adj: Seq<Seq<usize>>, p: nat)
    ensures
        sweep_passes(layers, strategy, adj, p).len() == layers.len(),
    decreases p,
{
    if p > 0 {
        lemma_sweep_passes_len(layers, strategy, adj, (p - 1) as nat);
        let before = sweep_passes(layers, strategy, adj, (p - 1) as nat);
        lemma_swept_down_len(before, strategy, adj, before.len() as int);
        lemma_swept_up_len(swept_down(before, strategy, adj, before.len() as int), strategy, adj, 0);
    }
}

/// Every layer of `out` holds the nodes of the same layer of `layers`, in
/// some order.
pub open spec fn reorders_layers(out: Seq<Vec<usize>>, layers: Seq<Vec<usize>>) -> bool {
    &&& out.len() == layers.len()
    &&& forall|r: int| 0 <= r < out.len() ==> (#[trigger] out[r])@.to_multiset() == layers[r]@.to_multiset()
}

/// Copies the layers of an ordering.
fn clone_layers(layers: &Vec<Vec<usize>>) -> (out: Vec<Vec<usize>>)
    ensures
        out@.len() == layers@.len(),
        forall|r: int| 0 <= r < out@.len() ==> (#[trigger] out@[r])@ == layers@[r]@,
{
    let mut out: Vec<Vec<usize>> = Vec::new();
    for r in 0..layers.len()
        invariant
            out@.len() == r,
            forall|q: int| 0 <= q < r ==> (#[trigger] out@[q])@ == layers@[q]@,
    {
        out.push(layers[r].clone());
    }
    out
}

/// Reorders one layer against an adjacent one with a single-layer strategy.
fn order_layer(
    strategy: CrossingReductionStrategy,
    layer: &Vec<usize>,
    adjacent: &Vec<usize>,
    adjacency: &Vec<Vec<usize>>,
) -> (out: Vec<usize>)
    requires
        strategy != CrossingReductionStrategy::Combined,
    ensures
        out@ == layer_order(strategy, layer@, adjacent@, lists_view(adjacency@)),
        out@.to_multiset() == layer@.to_multiset(),
{
    match strategy {
        CrossingReductionStrategy::Barycenter => order_by_barycenter(layer, adjacent, adjacency),
        CrossingReductionStrategy::Median => order_by_median(layer, adjacent, adjacency),
        _ => order_by_sifting(layer, adjacent, adjacency),
    }
}

/// Apply a single crossing reduction strategy: three passes, each sweeping
/// down the layers (ordering each against the one above) and back up
/// (ordering each against the one below); sifting ends with a global pass.
fn apply_strategy(graph: &LayoutGraph, ranks: &RankAssignment, strategy: CrossingReductionStrategy) -> (out: Vec<Vec<usize>>)
    requires
        graph.indices_in_range(),
        ranks.groups_ranks(),
        strategy != CrossingReductionStrategy::Combined,
    ensures
        reorders_layers(out@, ranks.nodes_by_rank@),
        layers_view(out@) == strategy_layers(
            layers_view(ranks.nodes_by_rank@),
            strategy,
            neighbor_lists(graph, graph.edges@.len() as nat),
        ),
{
    let mut nodes_by_rank = clone_layers(&ranks.nodes_by_rank);
    let adjacency = build_adjacency(graph);
    let ghost adj = lists_view(adjacency@);
    let ghost start = layers_view(ranks.nodes_by_rank@);
    proof {
        assert(layers_view(nodes_by_rank@) =~= start);
    }
    let num_ranks = ranks.num_ranks;
    let mut pass: usize = 0;
    while pass < 3
        invariant
            num_ranks == ranks.nodes_by_rank@.len(),
            nodes_by_rank@.len() == num_ranks,
            strategy != CrossingReductionStrategy::Combined,
            adj == lists_view(adjacency@),
            start == layers_view(ranks.nodes_by_rank@),
            pass <= 3,
            layers_view(nodes_by_rank@) == sweep_passes(start, strategy, adj, pass as nat),
            reorders_layers(nodes_by_rank@, ranks.nodes_by_rank@),
        decreases 3 - pass,
    {
        let ghost before = layers_view(nodes_by_rank@);
        let mut rank_idx: usize = 1;
        while rank_idx < num_ranks
            invariant
                num_ranks == ranks.nodes_by_rank@.len(),
                nodes_by_rank@.len() == num_ranks,
                before.len() == num_ranks,
                rank_idx >= 1,
                rank_idx <= num_ranks || num_ranks == 0,
                strategy != CrossingReductionStrategy::Combined,
                adj == lists_view(adjacency@),
                layers_view(nodes_by_rank@) == swept_down(before, strategy, adj, rank_idx as int),
                reorders_layers(nodes_by_rank@, ranks.nodes_by_rank@),
            decreases num_ranks - rank_idx,
        {
            let ordered = order_layer(strategy, &nodes_by_rank[rank_idx], &nodes_by_rank[rank_idx - 1], &adjacency);
            proof {
                lemma_layers_view_update(nodes_by_rank@, rank_idx as int, ordered);
            }
            nodes_by_rank.set(rank_idx, ordered);
            rank_idx = rank_idx + 1;
        }
        let ghost down = layers_view(nodes_by_rank@);
        proof {
            assert(down == swept_down(before, strategy, adj, before.len() as int));
        }
        let mut rank_idx = if num_ranks == 0 { 0 } else { num_ranks - 1 };
        while rank_idx > 0
            invariant
                num_ranks == ranks.nodes_by_rank@.len(),
                nodes_by_rank@.len() == num_ranks,
                down.len() == num_ranks,
                rank_idx < num_ranks || rank_idx == 0,
                strategy != CrossingReductionStrategy::Combined,
                adj == lists_view(adjacency@),
                layers_view(nodes_by_rank@) == swept_up(down, strategy, adj, rank_idx as int),
                reorders_layers(nodes_by_rank@, ranks.nodes_by_rank@),
            decreases rank_idx,
        {
            rank_idx = rank_idx - 1;
            let ordered = order_layer(strategy, &nodes_by_rank[rank_idx], &nodes_by_rank[rank_idx + 1], &adjacency);
            proof {
                lemma_layers_view_update(nodes_by_rank@, rank_idx as int, ordered);
            }
            nodes_by_rank.set(rank_idx, ordered);
        }
        pass = pass + 1;
    }
    if strategy == CrossingReductionStrategy::Sifting {
        apply_global_sifting(&mut nodes_by_rank, &adjacency);
    }
    nodes_by_rank
}


/// Dropping the largest key of a listing leaves a listing of the rest of the map.
proof fn lemma_drop_largest_key(m: Map<usize, Seq<(usize, usize)>>, a: Seq<(usize, Seq<(usize, usize)>)>)
    requires
        entries_in_key_order(m, a),
        a.len() > 0,
    ensures
        entries_in_key_order(m.remove(a.last().0), a.drop_last()),
{
    let ka = a.last().0;
    let m2 = m.remove(ka);
    let rest = a.drop_last();
    assert(m2.dom() =~= m.dom().remove(ka));
    assert(m.contains_key(ka));
    assert forall|i: int| 0 <= i < rest.len() implies #[trigger] rest[i].0 < ka by {
        assert(rest[i] == a[i]);
    }
    assert forall|k: usize| #[trigger] m2.contains_key(k) implies exists|i: int| 0 <= i < rest.len() && rest[i].0 == k by {
        let i = choose|i: int| 0 <= i < a.len() && a[i].0 == k;
        assert(i != a.len() - 1);
        assert(rest[i] == a[i]);
    }
    assert forall|i: int| 0 <= i < rest.len() implies #[trigger] m2.contains_key(rest[i].0) && m2[rest[i].0] == rest[i].1 by {
        assert(rest[i] == a[i]);
        assert(m.contains_key(a[i].0));
        assert(m[a[i].0] == a[i].1);
        assert(a[i].0 < ka);
    }
}

/// A map has a single listing of its entries by increasing key.
proof fn lemma_key_order_unique(
    m: Map<usize, Seq<(usize, usize)>>,
    a: Seq<(usize, Seq<(usize, usize)>)>,
    b: Seq<(usize, Seq<(usize, usize)>)>,
)
    requires
        entries_in_key_order(m, a),
        entries_in_key_order(m, b),
    ensures
        a == b,
    decreases a.len(),
{
    if a.len() == 0 {
        assert(a =~= b);
    } else {
        let ka = a.last().0;
        let kb = b.last().0;
        assert(m.contains_key(ka));
        assert(m.contains_key(kb));
        let ia = choose|i: int| 0 <= i < a.len() && a[i].0 == kb;
        let ib = choose|i: int| 0 <= i < b.len() && b[i].0 == ka;
        if ia < a.len() - 1 {
            assert(a[ia].0 < a[a.len() - 1].0);
        }
        if ib < b.len() - 1 {
            assert(b[ib].0 < b[b.len() - 1].0);
        }
        assert(ka == kb);
        lemma_drop_largest_key(m, a);
        lemma_drop_largest_key(m, b);
        lemma_key_order_unique(m.remove(ka), a.drop_last(), b.drop_last());
        assert(a.last() == b.last());
        assert(a =~= b.drop_last().push(b.last()));
        assert(b =~= b.drop_last().push(b.last()));
    }
}

/// The candidate kept so far: the first one whose count is below every
/// earlier count and below `usize::MAX`, as `(its count, its index)`.
pub open spec fn first_fewest(counts: Seq<nat>, k: nat) -> (nat, Option<int>)
    decreases k,
{
    if k == 0 || k > counts.len() {
        (usize::MAX as nat, None)
    } else {
        let (best, index) = first_fewest(counts, (k - 1) as nat);
        if counts[k - 1] < best {
            (counts[k - 1], Some(k - 1))
        } else {
            (best, index)
        }
    }
}

/// The candidate chosen among `candidates` by their crossing counts, or no
/// layers when no count is below `usize::MAX`.
pub open spec fn fewest_crossings_choice(candidates: Seq<Seq<Vec<usize>>>, counts: Seq<nat>) -> Seq<Vec<usize>> {
    match first_fewest(counts, counts.len()).1 {
        Some(i) => candidates[i],
        None => Seq::empty(),
    }
}

/// The kept candidate has no more crossings than any candidate.
pub proof fn lemma_first_fewest_is_fewest(counts: Seq<nat>, k: nat)
    requires
        k <= counts.len(),
    ensures
        first_fewest(counts, k).0 <= usize::MAX,
        forall|j: int| 0 <= j < k ==> first_fewest(counts, k).0 <= #[trigger] counts[j] || counts[j] >= usize::MAX,
        first_fewest(counts, k).1 matches Some(i) ==> 0 <= i < k && first_fewest(counts, k).0 == counts[i],
        first_fewest(counts, k).1 is None ==> first_fewest(counts, k).0 == usize::MAX,
    decreases k,
{
    if k > 0 {
        lemma_first_fewest_is_fewest(counts, (k - 1) as nat);
    }
}


/// Number of edges of the layers `r < n`.
pub open spec fn rank_total(edges: Seq<(usize, usize, usize)>, n: nat) -> nat
    decreases n,
{
    if n == 0 {
        0
    } else {
        rank_total(edges, (n - 1) as nat) + rank_pairs(edges, (n - 1) as usize).len()
    }
}

proof fn lemma_rank_pairs_len(edges: Seq<(usize, usize, usize)>, r: usize)
    ensures
        rank_pairs(edges, r).len() <= edges.len(),
        edges.len() > 0 ==> rank_pairs(edges, r).len() == rank_pairs(edges.drop_last(), r).len() + if edges.last().0
            == r {
            1int
        } else {
            0int
        },
    decreases edges.len(),
{
    if edges.len() > 0 {
        lemma_rank_pairs_len(edges.drop_last(), r);
    }
}

proof fn lemma_rank_total_step(edges: Seq<(usize, usize, usize)>, n: nat)
    requires
        edges.len() > 0,
        n <= usize::MAX + 1,
    ensures
        rank_total(edges, n) == rank_total(edges.drop_last(), n) + if edges.last().0 < n {
            1int
        } else {
            0int
        },
    decreases n,
{
    if n > 0 {
        lemma_rank_total_step(edges, (n - 1) as nat);
        lemma_rank_pairs_len(edges, (n - 1) as usize);
    }
}

proof fn lemma_rank_total_bound(edges: Seq<(usize, usize, usize)>, n: nat)
    requires
        n <= usize::MAX + 1,
    ensures
        rank_total(edges, n) <= edges.len(),
    decreases edges.len(),
{
    if edges.len() == 0 {
        lemma_rank_total_zero(edges, n);
    } else {
        lemma_rank_total_step(edges, n);
        lemma_rank_total_bound(edges.drop_last(), n);
    }
}

proof fn lemma_rank_total_zero(edges: Seq<(usize, usize, usize)>, n: nat)
    requires
        edges.len() == 0,
    ensures
        rank_total(edges, n) == 0,
    decreases n,
{
    if n > 0 {
        lemma_rank_total_zero(edges, (n - 1) as nat);
    }
}

/// The crossings of the layers `r < n` are at most the number of their
/// edges times the number of all edges.
proof fn lemma_layered_crossings_bound(edges: Seq<(usize, usize, usize)>, n: nat)
    ensures
        layered_crossings(edges, n) <= rank_total(edges, n) * edges.len(),
    decreases n,
{
    if n > 0 {
        lemma_layered_crossings_bound(edges, (n - 1) as nat);
        let s = rank_pairs(edges, (n - 1) as usize);
        lemma_rank_pairs_len(edges, (n - 1) as usize);
        let h = |a: (usize, usize)| crossings_with(s, a);
        assert forall|i: int| 0 <= i < s.len() implies h(#[trigger] s[i]) <= edges.len() by {
            lemma_tally_bound(s, |b: (usize, usize)| if pair_crosses(s[i], b) { 1nat } else { 0nat }, 1);
        }
        lemma_tally_bound(s, h, edges.len());
        let a = rank_total(edges, (n - 1) as nat);
        assert(a * edges.len() + s.len() * edges.len() == (a + s.len()) * edges.len()) by (nonlinear_arith);
    }
}

/// Every key of the edge-list map is a node index, and every list holds at
/// most two entries per edge.
proof fn lemma_edge_lists_bounds(graph: &LayoutGraph, k: nat)
    requires
        graph.indices_in_range(),
        k <= graph.edges@.len(),
    ensures
        forall|key: usize|
            #[trigger] edge_lists(graph, k).contains_key(key) ==> key < graph.nodes@.len() && edge_lists(
                graph,
                k,
            )[key].len() <= 2 * k,
    decreases k,
{
    if k > 0 {
        lemma_edge_lists_bounds(graph, (k - 1) as nat);
        let edge = graph.edges@[k - 1];
        lemma_index_of_in_range(graph, edge.from@);
        lemma_index_of_in_range(graph, edge.to@);
        let prev = edge_lists(graph, (k - 1) as nat);
        match edge_ends(graph, k - 1) {
            Some((f, t)) => {
                let m1 = prev.insert(f, if prev.contains_key(f) { prev[f] } else { Seq::empty() }.push((f, t)));
                assert forall|key: usize| #[trigger] m1.contains_key(key) implies key < graph.nodes@.len() && m1[key].len()
                    <= 2 * k - 1 by {
                    if key != f {
                        assert(prev.contains_key(key));
                    }
                }
                let m2 = m1.insert(t, if m1.contains_key(t) { m1[t] } else { Seq::empty() }.push((f, t)));
                assert(edge_lists(graph, k) == m2);
                assert forall|key: usize| #[trigger] m2.contains_key(key) implies key < graph.nodes@.len() && m2[key].len()
                    <= 2 * k by {
                    if key != t {
                        assert(m1.contains_key(key));
                    }
                }
            },
            None => {},
        }
    }
}

/// The strategy that `Combined` tries in place `c`: barycenter, median,
/// then sifting.
pub open spec fn combined_member(c: int) -> CrossingReductionStrategy {
    if c == 0 {
        CrossingReductionStrategy::Barycenter
    } else if c == 1 {
        CrossingReductionStrategy::Median
    } else {
        CrossingReductionStrategy::Sifting
    }
}

/// Order nodes within each layer to minimize edge crossings, with the
/// default (barycenter) strategy.
pub fn order_nodes_within_layers(graph: &LayoutGraph, ranks: &RankAssignment) -> (out: Vec<Vec<usize>>)
    requires
        graph.indices_in_range(),
        ranks.groups_ranks(),
    ensures
        ranks.num_ranks == 0 ==> out@.len() == 0,
        ranks.num_ranks > 0 ==> reorders_layers(out@, ranks.nodes_by_rank@) && layers_view(out@) == strategy_layers(
            layers_view(ranks.nodes_by_rank@),
            CrossingReductionStrategy::Barycenter,
            neighbor_lists(graph, graph.edges@.len() as nat),
        ),
{
    order_nodes_within_layers_with_strategy(graph, ranks, CrossingReductionStrategy::default())
}

/// Order nodes within each layer using a specific crossing reduction
/// strategy.
///
/// Every layer keeps its nodes. A single strategy gives [`strategy_layers`]:
/// three passes that each sweep down the layers and back up, ordering each
/// layer against its neighbour with that strategy, and for sifting a global
/// sifting of every layer against both neighbours after them.
/// `Combined` runs the barycenter, median and
/// sifting strategies in this order and keeps the first ordering with the
/// fewest crossings ([`graph_crossings`], as `count_crossings` counts them
/// over the graph's edge lists), so it never has more crossings than any of
/// the three. With `e` edges each count is at most `e * e`
/// ([`lemma_graph_crossings_bound`]), so while `e * e < usize::MAX` the
/// result is always one of the three orderings.
pub fn order_nodes_within_layers_with_strategy(
    graph: &LayoutGraph,
    ranks: &RankAssignment,
    strategy: CrossingReductionStrategy,
) -> (out: Vec<Vec<usize>>)
    requires
        graph.indices_in_range(),
        ranks.groups_ranks(),
        strategy == CrossingReductionStrategy::Combined ==> graph.edges@.len() * graph.edges@.len() < usize::MAX,
    ensures
        ranks.num_ranks == 0 ==> out@.len() == 0,
        ranks.num_ranks > 0 && strategy != CrossingReductionStrategy::Combined ==> reorders_layers(
            out@,
            ranks.nodes_by_rank@,
        ) && layers_view(out@) == strategy_layers(
            layers_view(ranks.nodes_by_rank@),
            strategy,
            neighbor_lists(graph, graph.edges@.len() as nat),
        ),
        ranks.num_ranks > 0 && strategy == CrossingReductionStrategy::Combined ==> exists|
            candidates: Seq<Seq<Vec<usize>>>,
            counts: Seq<nat>,
        |
            #![trigger fewest_crossings_choice(candidates, counts)]
            {
                &&& candidates.len() == 3
                &&& counts.len() == 3
                &&& forall|c: int|
                    0 <= c < 3 ==> reorders_layers(#[trigger] candidates[c], ranks.nodes_by_rank@) && counts[c]
                        == graph_crossings(graph, layers_view(candidates[c])) && layers_view(candidates[c])
                        == strategy_layers(
                        layers_view(ranks.nodes_by_rank@),
                        combined_member(c),
                        neighbor_lists(graph, graph.edges@.len() as nat),
                    )
                &&& forall|c: int| 0 <= c < 3 ==> #[trigger] counts[c] <= graph.edges@.len() * graph.edges@.len()
                &&& first_fewest(counts, 3).1 is Some
                &&& out@ == fewest_crossings_choice(candidates, counts)
                &&& forall|c: int| 0 <= c < 3 ==> first_fewest(counts, 3).0 <= #[trigger] counts[c]
            },
{
    if ranks.num_ranks == 0 {
        return Vec::new();
    }
    match strategy {
        CrossingReductionStrategy::Combined => {
            let edges_by_node = build_edges_by_node(graph);
            let ghost el = edge_lists(graph, graph.edges@.len() as nat);
            let mut best_ordering: Vec<Vec<usize>> = Vec::new();
            let mut best_crossings = usize::MAX;
            let ghost mut candidates: Seq<Seq<Vec<usize>>> = Seq::empty();
            let ghost mut counts: Seq<nat> = Seq::empty();
            let ghost mut witness: Seq<(usize, Seq<(usize, usize)>)> = Seq::empty();
            for s in 0..3usize
                invariant
                    graph.indices_in_range(),
                    ranks.groups_ranks(),
                    graph.edges@.len() * graph.edges@.len() < usize::MAX,
                    el == edge_lists(graph, graph.edges@.len() as nat),
                    map_view(edges_by_node@) == el,
                    candidates.len() == s,
                    counts.len() == s,
                    s > 0 ==> entries_in_key_order(el, witness),
                    forall|c: int|
                        0 <= c < s ==> reorders_layers(#[trigger] candidates[c], ranks.nodes_by_rank@)
                            && layers_view(candidates[c]) == strategy_layers(
                            layers_view(ranks.nodes_by_rank@),
                            combined_member(c),
                            neighbor_lists(graph, graph.edges@.len() as nat),
                        ),
                    forall|c: int, kvs: Seq<(usize, Seq<(usize, usize)>)>|
                        #![trigger counts[c], entries_in_key_order(el, kvs)]
                        0 <= c < s && entries_in_key_order(el, kvs) ==> counts[c] == ordering_crossings(
                            layers_view(candidates[c]),
                            kvs,
                        ),
                    best_crossings as nat == first_fewest(counts, s as nat).0,
                    best_ordering@ == match first_fewest(counts, s as nat).1 {
                        Some(i) => candidates[i],
                        None => Seq::empty(),
                    },
            {
                let strat = if s == 0 {
                    CrossingReductionStrategy::Barycenter
                } else if s == 1 {
                    CrossingReductionStrategy::Median
                } else {
                    CrossingReductionStrategy::Sifting
                };
                let ordering = apply_strategy(graph, ranks, strat);
                proof {
                    assert forall|kvs: Seq<(usize, Seq<(usize, usize)>)>|
                        entries_in_key_order(map_view(edges_by_node@), kvs) implies #[trigger] ordering_crossings(
                        layers_view(ordering@),
                        kvs,
                    ) <= usize::MAX by {
                        assert(layers_view(ordering@).len() == ordering@.len());
                        lemma_edge_lists_take_each_edge_once(graph, layers_view(ordering@), kvs);
                        lemma_graph_crossings_bound(graph, layers_view(ordering@));
                    }
                }
                let crossings = count_crossings(&ordering, &edges_by_node);
                let ghost found = choose|kvs: Seq<(usize, Seq<(usize, usize)>)>|
                    entries_in_key_order(map_view(edges_by_node@), kvs) && crossings == #[trigger] ordering_crossings(
                        layers_view(ordering@),
                        kvs,
                    );
                let ghost next_counts = counts.push(crossings as nat);
                let ghost next_candidates = candidates.push(ordering@);
                proof {
                    assert forall|c: int, kvs: Seq<(usize, Seq<(usize, usize)>)>|
                        #![trigger next_counts[c], entries_in_key_order(el, kvs)]
                        0 <= c < s + 1 && entries_in_key_order(el, kvs) implies next_counts[c]
                        == ordering_crossings(layers_view(next_candidates[c]), kvs) by {
                        lemma_key_order_unique(el, kvs, found);
                    }
                    assert(next_counts.subrange(0, s as int) =~= counts);
                    lemma_first_fewest_prefix(next_counts, s as nat);
                }
                proof {
                    lemma_first_fewest_is_fewest(counts, s as nat);
                    match first_fewest(counts, s as nat).1 {
                        Some(i) => {
                            assert(next_candidates[i] == candidates[i]);
                        },
                        None => {},
                    }
                }
                if crossings < best_crossings {
                    best_crossings = crossings;
                    best_ordering = ordering;
                }
                proof {
                    counts = next_counts;
                    candidates = next_candidates;
                    witness = found;
                }
            }
            proof {
                lemma_first_fewest_is_fewest(counts, 3);
                assert(entries_in_key_order(el, witness));
                assert(ranks.nodes_by_rank.len() == ranks.nodes_by_rank@.len());
                assert forall|c: int| 0 <= c < 3 implies counts[c] == graph_crossings(graph, layers_view(#[trigger] candidates[c]))
                    && counts[c] <= graph.edges@.len() * graph.edges@.len() by {
                    lemma_edge_lists_take_each_edge_once(graph, layers_view(candidates[c]), witness);
                    lemma_graph_crossings_bound(graph, layers_view(candidates[c]));
                }
                assert(counts[0] < usize::MAX);
                assert(fewest_crossings_choice(candidates, counts) == best_ordering@);
            }
            best_ordering
        },
        _ => apply_strategy(graph, ranks, strategy),
    }
}

/// The choice among the first `k` counts does not look at later ones.
proof fn lemma_first_fewest_prefix(counts: Seq<nat>, k: nat)
    requires
        k < counts.len(),
    ensures
        first_fewest(counts, k) == first_fewest(counts.subrange(0, k as int), k),
    decreases k,
{
    if k > 0 {
        lemma_first_fewest_prefix(counts, (k - 1) as nat);
        lemma_first_fewest_prefix(counts.subrange(0, k as int), (k - 1) as nat);
        assert(counts.subrange(0, k as int).subrange(0, k - 1) =~= counts.subrange(0, k - 1));
    }
}

/// The multiset of a concatenation is the sum of the two multisets.
proof fn lemma_multiset_commutative_for(a: Seq<usize>, b: Seq<usize>)
    ensures
        (a + b).to_multiset() == a.to_multiset().add(b.to_multiset()),
{
    vstd::seq_lib::lemma_multiset_commutative(a, b);
}

} // verus!
