//! Sums of sequences of counts, and how they change when one count does.
use vstd::prelude::*;

verus! {

/// The sum of a sequence of counts.
pub open spec fn seq_total(s: Seq<int>) -> int
    decreases s.len(),
{
    if s.len() == 0 {
        0
    } else {
        seq_total(s.drop_last()) + s.last()
    }
}

/// Raising one count by `v` raises the sum by `v`.
pub proof fn lemma_seq_total_raise(s: Seq<int>, k: int, v: int)
    requires
        0 <= k < s.len(),
    ensures
        seq_total(s.update(k, s[k] + v)) == seq_total(s) + v,
    decreases s.len(),
{
    let t = s.update(k, s[k] + v);
    if k < s.len() - 1 {
        assert(t.drop_last() =~= s.drop_last().update(k, s[k] + v));
        lemma_seq_total_raise(s.drop_last(), k, v);
    } else {
        assert(t.drop_last() =~= s.drop_last());
    }
}

/// Inserting a count anywhere raises the sum by that count.
pub proof fn lemma_seq_total_insert(s: Seq<int>, k: int, v: int)
    requires
        0 <= k <= s.len(),
    ensures
        seq_total(s.insert(k, v)) == seq_total(s) + v,
    decreases s.len(),
{
    let t = s.insert(k, v);
    if k == s.len() {
        assert(t.drop_last() =~= s);
    } else {
        assert(t.drop_last() =~= s.drop_last().insert(k, v));
        lemma_seq_total_insert(s.drop_last(), k, v);
    }
}

/// Reordering the items does not change the sum of a count taken of each.
pub proof fn lemma_seq_total_permutation<T>(a: Seq<T>, b: Seq<T>, f: spec_fn(T) -> int)
    requires
        a.to_multiset() == b.to_multiset(),
    ensures
        seq_total(a.map_values(f)) == seq_total(b.map_values(f)),
    decreases a.len(),
{
    broadcast use {
        vstd::seq_lib::to_multiset_build,
        vstd::seq_lib::to_multiset_remove,
        vstd::seq_lib::to_multiset_len,
        vstd::multiset::group_multiset_axioms,
    };

    if a.len() == 0 {
        assert(b.to_multiset().len() == 0);
        assert(b.len() == 0);
        assert(a.map_values(f) =~= Seq::<int>::empty());
        assert(b.map_values(f) =~= Seq::<int>::empty());
    } else {
        let x = a.last();
        let a1 = a.drop_last();
        assert(a1.push(x) =~= a);
        assert(a.to_multiset() == a1.to_multiset().insert(x));
        vstd::seq_lib::to_multiset_contains(b, x);
        assert(b.to_multiset().count(x) > 0);
        let j = b.index_of(x);
        let b1 = b.remove(j);
        assert(b1.to_multiset() == b.to_multiset().remove(x));
        assert(a1.to_multiset() =~= b1.to_multiset());
        lemma_seq_total_permutation(a1, b1, f);
        assert(a.map_values(f).drop_last() =~= a1.map_values(f));
        assert(b.map_values(f) =~= b1.map_values(f).insert(j, f(x)));
        lemma_seq_total_insert(b1.map_values(f), j, f(x));
    }
}

/// A sequence of zeros sums to zero.
pub proof fn lemma_seq_total_zeros(n: nat)
    ensures
        seq_total(Seq::new(n, |i: int| 0int)) == 0,
    decreases n,
{
    if n > 0 {
        assert(Seq::new(n, |i: int| 0int).drop_last() =~= Seq::new((n - 1) as nat, |i: int| 0int));
        lemma_seq_total_zeros((n - 1) as nat);
    }
}

} // verus!
