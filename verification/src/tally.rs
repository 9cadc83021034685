//! Sums of a weight over the elements of a sequence, and the facts the
//! counting proofs rely on: sums split over concatenation, do not depend on
//! the order of the elements, and grow with the weight.

use vstd::prelude::*;

verus! {

broadcast use vstd::seq_lib::group_to_multiset_ensures;

/// Sum of `g` over the elements of `s`.
pub open spec fn tally<A>(s: Seq<A>, g: spec_fn(A) -> nat) -> nat
    decreases s.len(),
{
    if s.len() == 0 {
        0
    } else {
        tally(s.drop_last(), g) + g(s.last())
    }
}

/// A sum over a concatenation is the sum of the two sums.
pub proof fn lemma_tally_append<A>(a: Seq<A>, b: Seq<A>, g: spec_fn(A) -> nat)
    ensures
        tally(a + b, g) == tally(a, g) + tally(b, g),
    decreases b.len(),
{
    if b.len() == 0 {
        assert(a + b =~= a);
    } else {
        lemma_tally_append(a, b.drop_last(), g);
        assert((a + b).drop_last() =~= a + b.drop_last());
        assert((a + b).last() == b.last());
    }
}

/// Removing one element takes its weight off the sum.
pub proof fn lemma_tally_remove<A>(s: Seq<A>, i: int, g: spec_fn(A) -> nat)
    requires
        0 <= i < s.len(),
    ensures
        tally(s, g) == tally(s.remove(i), g) + g(s[i]),
{
    let a = s.subrange(0, i);
    let b = s.subrange(i + 1, s.len() as int);
    let one = seq![s[i]];
    assert(s =~= (a + one) + b);
    assert(s.remove(i) =~= a + b);
    lemma_tally_append(a + one, b, g);
    lemma_tally_append(a, one, g);
    lemma_tally_append(a, b, g);
    assert(one.drop_last() =~= Seq::<A>::empty());
    assert(tally(one.drop_last(), g) == 0);
    assert(tally(one, g) == g(s[i]));
}

/// Sums do not depend on the order of the elements.
pub proof fn lemma_tally_permutation<A>(s: Seq<A>, t: Seq<A>, g: spec_fn(A) -> nat)
    requires
        s.to_multiset() == t.to_multiset(),
    ensures
        tally(s, g) == tally(t, g),
    decreases s.len(),
{
    if s.len() == 0 {
        vstd::seq_lib::to_multiset_len(s);
        vstd::seq_lib::to_multiset_len(t);
        assert(t.len() == 0);
    } else {
        let x = s.last();
        assert(s.contains(x)) by {
            assert(s[s.len() - 1] == x);
        }
        assert(s.to_multiset().count(x) > 0);
        assert(t.to_multiset().count(x) > 0);
        assert(t.contains(x));
        let k = choose|k: int| 0 <= k < t.len() && t[k] == x;
        assert(s.remove(s.len() - 1) =~= s.drop_last());
        assert(s.drop_last().to_multiset() == s.to_multiset().remove(x));
        assert(t.remove(k).to_multiset() == t.to_multiset().remove(x));
        lemma_tally_permutation(s.drop_last(), t.remove(k), g);
        lemma_tally_remove(t, k, g);
    }
}

/// Sums of two weights that agree on every element are equal.
pub proof fn lemma_tally_agree<A>(s: Seq<A>, g1: spec_fn(A) -> nat, g2: spec_fn(A) -> nat)
    requires
        forall|i: int| 0 <= i < s.len() ==> g1(#[trigger] s[i]) == g2(s[i]),
    ensures
        tally(s, g1) == tally(s, g2),
    decreases s.len(),
{
    if s.len() > 0 {
        assert forall|i: int| 0 <= i < s.drop_last().len() implies g1(#[trigger] s.drop_last()[i]) == g2(
            s.drop_last()[i],
        ) by {
            assert(s.drop_last()[i] == s[i]);
        }
        lemma_tally_agree(s.drop_last(), g1, g2);
        assert(g1(s[s.len() - 1]) == g2(s[s.len() - 1]));
    }
}

/// A sum of weights bounded by `bound` is at most `bound` per element.
pub proof fn lemma_tally_bound<A>(s: Seq<A>, g: spec_fn(A) -> nat, bound: nat)
    requires
        forall|i: int| 0 <= i < s.len() ==> g(#[trigger] s[i]) <= bound,
    ensures
        tally(s, g) <= s.len() * bound,
    decreases s.len(),
{
    if s.len() > 0 {
        assert forall|i: int| 0 <= i < s.drop_last().len() implies g(#[trigger] s.drop_last()[i]) <= bound by {
            assert(s.drop_last()[i] == s[i]);
        }
        lemma_tally_bound(s.drop_last(), g, bound);
        assert(g(s[s.len() - 1]) <= bound);
        assert((s.len() - 1) * bound + bound == s.len() * bound) by (nonlinear_arith);
    }
}

/// The sum over a prefix is at most the sum over the whole sequence.
pub proof fn lemma_tally_prefix<A>(s: Seq<A>, k: int, g: spec_fn(A) -> nat)
    requires
        0 <= k <= s.len(),
    ensures
        tally(s.subrange(0, k), g) <= tally(s, g),
{
    assert(s =~= s.subrange(0, k) + s.subrange(k, s.len() as int));
    lemma_tally_append(s.subrange(0, k), s.subrange(k, s.len() as int), g);
}

/// Extending a prefix by one element adds that element's weight.
pub proof fn lemma_tally_prefix_step<A>(s: Seq<A>, k: int, g: spec_fn(A) -> nat)
    requires
        0 <= k < s.len(),
    ensures
        tally(s.subrange(0, k + 1), g) == tally(s.subrange(0, k), g) + g(s[k]),
{
    assert(s.subrange(0, k + 1).drop_last() =~= s.subrange(0, k));
}

/// The sum of two weights is the sum of their sums.
pub proof fn lemma_tally_add<A>(s: Seq<A>, g1: spec_fn(A) -> nat, g2: spec_fn(A) -> nat, g: spec_fn(A) -> nat)
    requires
        forall|i: int| 0 <= i < s.len() ==> g(#[trigger] s[i]) == g1(s[i]) + g2(s[i]),
    ensures
        tally(s, g) == tally(s, g1) + tally(s, g2),
    decreases s.len(),
{
    if s.len() > 0 {
        assert forall|i: int| 0 <= i < s.drop_last().len() implies g(#[trigger] s.drop_last()[i]) == g1(
            s.drop_last()[i],
        ) + g2(s.drop_last()[i]) by {
            assert(s.drop_last()[i] == s[i]);
        }
        lemma_tally_add(s.drop_last(), g1, g2, g);
        assert(g(s[s.len() - 1]) == g1(s[s.len() - 1]) + g2(s[s.len() - 1]));
    }
}

/// A sum over mapped elements is the sum of the composed weight.
pub proof fn lemma_tally_map<A, B>(s: Seq<A>, f: spec_fn(A) -> B, g: spec_fn(B) -> nat, h: spec_fn(A) -> nat)
    requires
        forall|x: A| #[trigger] h(x) == g(f(x)),
    ensures
        tally(s.map_values(f), g) == tally(s, h),
    decreases s.len(),
{
    if s.len() > 0 {
        assert(s.map_values(f).drop_last() =~= s.drop_last().map_values(f));
        lemma_tally_map(s.drop_last(), f, g, h);
        assert(s.map_values(f).last() == f(s.last()));
        assert(h(s.last()) == g(f(s.last())));
    }
}

/// A pointwise smaller weight has a smaller sum.
pub proof fn lemma_tally_mono<A>(s: Seq<A>, g1: spec_fn(A) -> nat, g2: spec_fn(A) -> nat)
    requires
        forall|i: int| 0 <= i < s.len() ==> g1(#[trigger] s[i]) <= g2(s[i]),
    ensures
        tally(s, g1) <= tally(s, g2),
    decreases s.len(),
{
    if s.len() > 0 {
        assert forall|i: int| 0 <= i < s.drop_last().len() implies g1(#[trigger] s.drop_last()[i]) <= g2(
            s.drop_last()[i],
        ) by {
            assert(s.drop_last()[i] == s[i]);
        }
        lemma_tally_mono(s.drop_last(), g1, g2);
        assert(g1(s[s.len() - 1]) <= g2(s[s.len() - 1]));
    }
}

/// A weight that is one on every element sums to the length.
pub proof fn lemma_tally_all_one<A>(s: Seq<A>, g: spec_fn(A) -> nat)
    requires
        forall|i: int| 0 <= i < s.len() ==> g(#[trigger] s[i]) == 1,
    ensures
        tally(s, g) == s.len(),
    decreases s.len(),
{
    if s.len() > 0 {
        assert forall|i: int| 0 <= i < s.drop_last().len() implies g(#[trigger] s.drop_last()[i]) == 1 by {
            assert(s.drop_last()[i] == s[i]);
        }
        lemma_tally_all_one(s.drop_last(), g);
        assert(g(s[s.len() - 1]) == 1);
    }
}

/// Applying a function to every element keeps two reorderings of one
/// another reorderings of one another.
pub proof fn lemma_map_permutation<A, B>(s: Seq<A>, t: Seq<A>, f: spec_fn(A) -> B)
    requires
        s.to_multiset() == t.to_multiset(),
    ensures
        s.map_values(f).to_multiset() == t.map_values(f).to_multiset(),
    decreases s.len(),
{
    if s.len() == 0 {
        vstd::seq_lib::to_multiset_len(s);
        vstd::seq_lib::to_multiset_len(t);
        assert(t.len() == 0);
        assert(s.map_values(f) =~= t.map_values(f));
    } else {
        let x = s.last();
        assert(s.contains(x)) by {
            assert(s[s.len() - 1] == x);
        }
        assert(s.to_multiset().count(x) > 0);
        assert(t.to_multiset().count(x) > 0);
        assert(t.contains(x));
        let k = choose|k: int| 0 <= k < t.len() && t[k] == x;
        assert(s.remove(s.len() - 1) =~= s.drop_last());
        assert(s.drop_last().to_multiset() == s.to_multiset().remove(x));
        assert(t.remove(k).to_multiset() == t.to_multiset().remove(x));
        lemma_map_permutation(s.drop_last(), t.remove(k), f);
        let sm = s.map_values(f);
        let tm = t.map_values(f);
        assert(sm =~= s.drop_last().map_values(f).push(f(x)));
        assert(tm.remove(k) =~= t.remove(k).map_values(f));
        assert(tm[k] == f(x));
        assert(tm.remove(k).to_multiset() == tm.to_multiset().remove(f(x)));
        assert(tm.contains(f(x)));
        assert(tm.to_multiset().count(f(x)) > 0);
        assert(sm.to_multiset() =~= s.drop_last().map_values(f).to_multiset().insert(f(x)));
        assert(sm.to_multiset() =~= tm.to_multiset());
    }
}

} // verus!
