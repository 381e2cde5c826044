//! A verified insertion sort over any type that carries a total preorder,
//! used for the rankings of the statistics modules.
use vstd::prelude::*;

verus! {

broadcast use {
    vstd::seq_lib::to_multiset_remove,
    vstd::seq_lib::to_multiset_insert,
    vstd::multiset::group_multiset_axioms,
};

/// A total preorder: `precedes(a, b)` says that `a` may stand before `b`.
pub trait Ranked: Sized {
    spec fn precedes(&self, other: &Self) -> bool;

    fn ranks_before(&self, other: &Self) -> (b: bool)
        ensures
            b == self.precedes(other),
    ;

    proof fn lemma_total(a: &Self, b: &Self)
        ensures
            a.precedes(b) || b.precedes(a),
    ;

    proof fn lemma_transitive(a: &Self, b: &Self, c: &Self)
        requires
            a.precedes(b),
            b.precedes(c),
        ensures
            a.precedes(c),
    ;
}

pub open spec fn sorted_by_rank<T: Ranked>(s: Seq<T>) -> bool {
    forall|i: int, j: int| 0 <= i < j < s.len() ==> s[i].precedes(&s[j])
}

/// `out` is `inp` rearranged by `idx` (the item at `k` of `out` is the item
/// at `idx[k]` of `inp`, each input position used once), and items that
/// rank both ways round keep their input order.
pub open spec fn is_stable_arrangement<T: Ranked>(out: Seq<T>, inp: Seq<T>, idx: Seq<int>) -> bool {
    &&& idx.len() == out.len()
    &&& out.len() == inp.len()
    &&& arranged_by(out, inp, idx)
    &&& ties_keep_order(out, idx)
}

pub open spec fn arranged_by<T>(out: Seq<T>, inp: Seq<T>, idx: Seq<int>) -> bool {
    &&& forall|k: int|
        #![trigger idx[k]]
        0 <= k < idx.len() ==> 0 <= idx[k] < inp.len() && out[k] == inp[idx[k]]
    &&& forall|k: int, l: int| #![trigger idx[k], idx[l]] 0 <= k < l < idx.len() ==> idx[k] != idx[l]
}

pub open spec fn ties_keep_order<T: Ranked>(out: Seq<T>, idx: Seq<int>) -> bool {
    forall|k: int, l: int|
        #![trigger out[k], out[l]]
        0 <= k < l < out.len() && out[l].precedes(&out[k]) ==> idx[k] < idx[l]
}

/// Inserting the next input item after every item that may stand before it
/// keeps the arrangement stable.
proof fn lemma_stable_insert<T: Ranked>(
    prefix: Seq<T>,
    idx: Seq<int>,
    inp: Seq<T>,
    i: int,
    p: int,
)
    requires
        prefix.len() == i,
        idx.len() == i,
        0 <= p <= i < inp.len(),
        sorted_by_rank(prefix),
        forall|k: int| #![trigger idx[k]] 0 <= k < i ==> 0 <= idx[k] < i,
        arranged_by(prefix, inp, idx),
        ties_keep_order(prefix, idx),
        forall|k: int| 0 <= k < p ==> (#[trigger] prefix[k]).precedes(&inp[i]),
        p < i ==> !prefix[p].precedes(&inp[i]),
    ensures
        forall|k: int|
            #![trigger idx.insert(p, i)[k]]
            0 <= k <= i ==> 0 <= idx.insert(p, i)[k] <= i,
        arranged_by(prefix.insert(p, inp[i]), inp, idx.insert(p, i)),
        ties_keep_order(prefix.insert(p, inp[i]), idx.insert(p, i)),
{
    let x = inp[i];
    let np = prefix.insert(p, x);
    let ni = idx.insert(p, i);
    assert forall|k: int| #![trigger ni[k]] 0 <= k <= i implies 0 <= ni[k] <= i && np[k] == inp[ni[k]] by {
        if k < p {
            assert(ni[k] == idx[k]);
        } else if k > p {
            assert(ni[k] == idx[k - 1]);
        }
    }
    assert forall|k: int, l: int| #![trigger ni[k], ni[l]] 0 <= k < l < ni.len() implies ni[k] != ni[l] by {
        if k < p && l < p {
            assert(idx[k] != idx[l]);
        } else if k < p && l > p {
            assert(idx[k] != idx[l - 1]);
        } else if k > p && l > p {
            assert(idx[k - 1] != idx[l - 1]);
        } else if k == p {
            assert(ni[l] == idx[l - 1]);
        } else {
            assert(ni[k] == idx[k]);
        }
    }
    assert forall|k: int, l: int|
        #![trigger np[k], np[l]]
        0 <= k < l < np.len() && np[l].precedes(&np[k]) implies ni[k] < ni[l] by {
        if k < p && l < p {
            assert(np[k] == prefix[k] && np[l] == prefix[l]);
        } else if k < p && l == p {
            assert(ni[k] == idx[k]);
        } else if k < p && l > p {
            assert(np[k] == prefix[k] && np[l] == prefix[l - 1]);
        } else if k == p {
            assert(np[l] == prefix[l - 1]);
            assert(prefix[p].precedes(&prefix[l - 1]) || p == l - 1);
            if p < l - 1 {
                assert(prefix[p].precedes(&prefix[l - 1]));
            }
            T::lemma_transitive(&prefix[p], &prefix[l - 1], &x);
            assert(false);
        } else {
            assert(np[k] == prefix[k - 1] && np[l] == prefix[l - 1]);
        }
    }
}

/// Sorts `v` into an order in which each element may stand before every
/// later one; the result is a permutation of the input, and elements that
/// rank both ways round keep their input order.
pub fn sort_ranked<T: Ranked>(v: &mut Vec<T>)
    ensures
        sorted_by_rank(final(v)@),
        final(v)@.to_multiset() == old(v)@.to_multiset(),
        final(v)@.len() == old(v)@.len(),
        exists|idx: Seq<int>| is_stable_arrangement(final(v)@, old(v)@, idx),
{
    let n = v.len();
    let mut i: usize = 0;
    let ghost mut idx: Seq<int> = Seq::empty();
    while i < n
        invariant
            n == v.len(),
            n == old(v)@.len(),
            i <= n,
            sorted_by_rank(v@.subrange(0, i as int)),
            v@.to_multiset() == old(v)@.to_multiset(),
            v@.subrange(i as int, n as int) == old(v)@.subrange(i as int, n as int),
            idx.len() == i,
            forall|k: int| #![trigger idx[k]] 0 <= k < i ==> 0 <= idx[k] < i,
            arranged_by(v@.subrange(0, i as int), old(v)@, idx),
            ties_keep_order(v@.subrange(0, i as int), idx),
        decreases n - i,
    {
        let ghost before = v@;
        proof {
            assert(before[i as int] == before.subrange(i as int, n as int)[0]);
            assert(before[i as int] == old(v)@[i as int]);
        }
        let x = v.remove(i);
        let mut p: usize = 0;
        while p < i
            invariant
                p <= i,
                i < n,
                v@.len() == n - 1,
                before.len() == n,
                v@ == before.remove(i as int),
                sorted_by_rank(before.subrange(0, i as int)),
                forall|k: int| 0 <= k < p ==> v@[k].precedes(&x),
            ensures
                p <= i,
                forall|k: int| 0 <= k < p ==> v@[k].precedes(&x),
                p < i ==> !v@[p as int].precedes(&x),
            decreases i - p,
        {
            if !v[p].ranks_before(&x) {
                break;
            }
            p += 1;
        }
        proof {
            assert forall|k: int| 0 <= k < i implies v@[k] == before[k] by {}
            if p < i {
                T::lemma_total(&v@[p as int], &x);
                assert forall|k: int| p <= k < i implies x.precedes(&v@[k]) by {
                    if k > p {
                        assert(v@[p as int] == before[p as int]);
                        assert(v@[k] == before[k]);
                        assert(before.subrange(0, i as int)[p as int] == before[p as int]);
                        assert(before.subrange(0, i as int)[k] == before[k]);
                        T::lemma_transitive(&x, &v@[p as int], &v@[k]);
                    }
                }
            }
        }
        let ghost removed = v@;
        v.insert(p, x);
        proof {
            let prefix = before.subrange(0, i as int);
            assert forall|k: int| 0 <= k < p implies (#[trigger] prefix[k]).precedes(&old(v)@[i as int]) by {
                assert(prefix[k] == removed[k]);
            }
            if p < i {
                assert(prefix[p as int] == removed[p as int]);
            }
            lemma_stable_insert(prefix, idx, old(v)@, i as int, p as int);
            assert(v@.subrange(0, i + 1) =~= prefix.insert(p as int, old(v)@[i as int]));
            assert(v@.subrange(i + 1, n as int) =~= before.subrange(i + 1, n as int));
            assert(before.subrange(i + 1, n as int) =~= old(v)@.subrange(i + 1, n as int)) by {
                assert forall|k: int| 0 <= k < n - i - 1 implies #[trigger] before.subrange(i + 1, n as int)[k]
                    == old(v)@.subrange(i + 1, n as int)[k] by {
                    assert(before.subrange(i + 1, n as int)[k] == before.subrange(i as int, n as int)[k + 1]);
                    assert(old(v)@.subrange(i + 1, n as int)[k] == old(v)@.subrange(i as int, n as int)[k + 1]);
                }
            }
            idx = idx.insert(p as int, i as int);
            assert(v@ == removed.insert(p as int, x));
            assert(x == before[i as int]);
            assert(removed.to_multiset() == before.to_multiset().remove(x));
            assert(v@.to_multiset() == removed.to_multiset().insert(x));
            vstd::seq_lib::to_multiset_contains(before, x);
            assert(before.to_multiset().count(x) > 0);
            assert(before.to_multiset().remove(x).insert(x) =~= before.to_multiset());
            assert forall|a: int, b: int|
                #![trigger v@[a], v@[b]]
                0 <= a < b < i + 1 implies v@[a].precedes(&v@[b]) by {
                if b < p {
                    assert(before.subrange(0, i as int)[a] == before[a]);
                    assert(before.subrange(0, i as int)[b] == before[b]);
                } else if b == p {
                } else if a < p {
                    assert(v@[b] == removed[b - 1]);
                    assert(x.precedes(&removed[b - 1]));
                    T::lemma_transitive(&v@[a], &x, &v@[b]);
                } else if a == p {
                    assert(v@[b] == removed[b - 1]);
                } else {
                    assert(v@[a] == removed[a - 1]);
                    assert(v@[b] == removed[b - 1]);
                    assert(before.subrange(0, i as int)[a - 1] == before[a - 1]);
                    assert(before.subrange(0, i as int)[b - 1] == before[b - 1]);
                }
            }
            assert forall|a: int, b: int|
                0 <= a < b < i + 1 implies #[trigger] v@.subrange(0, i + 1)[a].precedes(
                &#[trigger] v@.subrange(0, i + 1)[b],
            ) by {
                assert(v@.subrange(0, i + 1)[a] == v@[a]);
                assert(v@.subrange(0, i + 1)[b] == v@[b]);
            }
        }
        i += 1;
    }
    assert(v@.subrange(0, n as int) =~= v@);
    assert(is_stable_arrangement(v@, old(v)@, idx));
}

/// A permutation keeps membership both ways, and keeps a sequence free of
/// repeated elements.
pub proof fn lemma_permutation_members<T>(a: Seq<T>, b: Seq<T>)
    requires
        a.to_multiset() == b.to_multiset(),
    ensures
        forall|i: int| 0 <= i < b.len() ==> a.contains(#[trigger] b[i]),
        forall|i: int| 0 <= i < a.len() ==> b.contains(#[trigger] a[i]),
        a.no_duplicates() ==> b.no_duplicates(),
{
    assert forall|i: int| 0 <= i < b.len() implies a.contains(#[trigger] b[i]) by {
        vstd::seq_lib::to_multiset_contains(b, b[i]);
        assert(b.contains(b[i]));
        vstd::seq_lib::to_multiset_contains(a, b[i]);
    }
    assert forall|i: int| 0 <= i < a.len() implies b.contains(#[trigger] a[i]) by {
        vstd::seq_lib::to_multiset_contains(a, a[i]);
        assert(a.contains(a[i]));
        vstd::seq_lib::to_multiset_contains(b, a[i]);
    }
    if a.no_duplicates() {
        a.lemma_multiset_has_no_duplicates();
        b.lemma_multiset_has_no_duplicates_conv();
    }
}

} // verus!
