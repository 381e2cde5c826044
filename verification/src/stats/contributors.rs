//! The top contributors of the repository overview: commits per author
//! name, most first.
use vstd::prelude::*;

use crate::sorting::{
    is_stable_arrangement, lemma_permutation_members, sort_ranked, sorted_by_rank, Ranked,
};

verus! {

/// The name a commit is filed under: its author's, or `Unknown`.
pub open spec fn filed_name(a: Option<String>) -> Seq<char> {
    match a {
        Some(n) => n@,
        None => "Unknown"@,
    }
}

/// Commits filed under `name`.
pub open spec fn name_count(authors: Seq<Option<String>>, name: Seq<char>) -> nat
    decreases authors.len(),
{
    if authors.len() == 0 {
        0
    } else {
        name_count(authors.drop_last(), name) + if filed_name(authors.last()) == name {
            1nat
        } else {
            0nat
        }
    }
}

/// The names commits are filed under, each once, in order of first
/// appearance.
pub open spec fn distinct_names(authors: Seq<Option<String>>) -> Seq<Seq<char>>
    decreases authors.len(),
{
    if authors.len() == 0 {
        Seq::empty()
    } else {
        let d = distinct_names(authors.drop_last());
        if d.contains(filed_name(authors.last())) {
            d
        } else {
            d.push(filed_name(authors.last()))
        }
    }
}

/// The names of the entries, in order.
pub open spec fn entry_names(t: Seq<(String, usize)>) -> Seq<Seq<char>> {
    t.map_values(|e: (String, usize)| e.0@)
}

impl Ranked for (String, usize) {
    open spec fn precedes(&self, other: &Self) -> bool {
        self.1 >= other.1
    }

    fn ranks_before(&self, other: &Self) -> (b: bool) {
        self.1 >= other.1
    }

    proof fn lemma_total(a: &Self, b: &Self) {
    }

    proof fn lemma_transitive(a: &Self, b: &Self, c: &Self) {
    }
}

proof fn lemma_name_count_bound(authors: Seq<Option<String>>, name: Seq<char>)
    ensures
        name_count(authors, name) <= authors.len(),
        name_count(authors, name) > 0 <==> distinct_names(authors).contains(name),
        distinct_names(authors).no_duplicates(),
    decreases authors.len(),
{
    if authors.len() > 0 {
        let t = authors.drop_last();
        lemma_name_count_bound(t, name);
        lemma_name_count_bound(t, filed_name(authors.last()));
        let d = distinct_names(t);
        if !d.contains(filed_name(authors.last())) {
            let e = d.push(filed_name(authors.last()));
            assert(e[e.len() - 1] == filed_name(authors.last()));
            assert forall|i: int, j: int| 0 <= i < j < e.len() implies e[i] != e[j] by {
                if j == e.len() - 1 {
                    assert(d.contains(d[i]));
                } else {
                    assert(e[i] == d[i] && e[j] == d[j]);
                }
            }
            if d.contains(name) {
                let i = choose|i: int| 0 <= i < d.len() && d[i] == name;
                assert(e[i] == name);
            }
            if e.contains(name) && name != filed_name(authors.last()) {
                let i = choose|i: int| 0 <= i < e.len() && e[i] == name;
                assert(d[i] == name);
            }
        }
    }
}

/// The `k` authors with the most commits, each name with its number of
/// commits (a commit without an author name counts for `Unknown`), most
/// first.
pub fn top_contributors(authors: &[Option<String>], k: usize) -> (r: Vec<(String, usize)>)
    ensures
        entry_names(r@).no_duplicates(),
        forall|i: int|
            #![trigger r@[i]]
            0 <= i < r@.len() ==> r@[i].1 == name_count(authors@, r@[i].0@) && r@[i].1 > 0,
        sorted_by_rank(r@),
        forall|i: int, j: int| #![trigger r@[i], r@[j]] 0 <= i < j < r@.len() ==> r@[j].1 <= r@[i].1,
        r@.len() == if k < distinct_names(authors@).len() {
            k as int
        } else {
            distinct_names(authors@).len() as int
        },
        forall|name: Seq<char>|
            name_count(authors@, name) > 0 && !entry_names(r@).contains(name) ==> r@.len() == k
                && (k > 0 ==> name_count(authors@, name) <= r@[k - 1].1),
{
    let mut acc: Vec<(String, usize)> = Vec::new();
    let mut i: usize = 0;
    proof {
        assert(entry_names(acc@) =~= distinct_names(authors@.subrange(0, 0)));
    }
    while i < authors.len()
        invariant
            i <= authors.len(),
            entry_names(acc@) == distinct_names(authors@.subrange(0, i as int)),
            forall|j: int|
                #![trigger acc@[j]]
                0 <= j < acc@.len() ==> acc@[j].1 == name_count(
                    authors@.subrange(0, i as int),
                    acc@[j].0@,
                ),
        decreases authors.len() - i,
    {
        let ghost prev = authors@.subrange(0, i as int);
        let ghost next = authors@.subrange(0, i + 1);
        proof {
            assert(next.drop_last() =~= prev);
            assert(next.last() == authors@[i as int]);
        }
        let name = match &authors[i] {
            Some(n) => n.clone(),
            None => String::from_str("Unknown"),
        };
        assert(name@ == filed_name(authors@[i as int]));
        let mut k2: usize = 0;
        let mut found: Option<usize> = None;
        while k2 < acc.len()
            invariant_except_break
                found is None,
            invariant
                k2 <= acc.len(),
                forall|j: int| 0 <= j < k2 ==> acc@[j].0@ != name@,
            ensures
                match found {
                    Some(x) => x < acc.len() && acc@[x as int].0@ == name@,
                    None => forall|j: int| 0 <= j < acc.len() ==> acc@[j].0@ != name@,
                },
            decreases acc.len() - k2,
        {
            if acc[k2].0 == name {
                found = Some(k2);
                break;
            }
            k2 += 1;
        }
        let ghost before = acc@;
        proof {
            lemma_name_count_bound(prev, name@);
        }
        match found {
            Some(x) => {
                proof {
                    assert(entry_names(before)[x as int] == name@);
                    assert(distinct_names(prev).contains(name@));
                    assert(name_count(prev, name@) < i + 1);
                }
                let c = acc[x].1 + 1;
                let e = (acc[x].0.clone(), c);
                acc.set(x, e);
                proof {
                    assert(entry_names(acc@) =~= entry_names(before));
                    assert forall|j: int|
                        #![trigger acc@[j]]
                        0 <= j < acc@.len() implies acc@[j].1 == name_count(next, acc@[j].0@) by {
                        if j != x {
                            assert(acc@[j] == before[j]);
                            assert(before[j].0@ != name@) by {
                                lemma_name_count_bound(prev, name@);
                                assert(entry_names(before)[j] == before[j].0@);
                                assert(entry_names(before)[x as int] == before[x as int].0@);
                            }
                        }
                    }
                }
            },
            None => {
                proof {
                    assert(!distinct_names(prev).contains(name@)) by {
                        if distinct_names(prev).contains(name@) {
                            let j = choose|j: int|
                                0 <= j < distinct_names(prev).len() && distinct_names(prev)[j]
                                    == name@;
                            assert(entry_names(before)[j] == before[j].0@);
                        }
                    }
                    assert(name_count(prev, name@) == 0);
                }
                acc.push((name, 1));
                proof {
                    assert(entry_names(acc@) =~= entry_names(before).push(filed_name(
                        authors@[i as int],
                    )));
                    assert forall|j: int|
                        #![trigger acc@[j]]
                        0 <= j < acc@.len() implies acc@[j].1 == name_count(next, acc@[j].0@) by {
                        if j < before.len() {
                            assert(acc@[j] == before[j]);
                            assert(entry_names(before)[j] == before[j].0@);
                        }
                    }
                }
            },
        }
        i += 1;
    }
    proof {
        assert(authors@.subrange(0, authors@.len() as int) =~= authors@);
        lemma_name_count_bound(authors@, Seq::empty());
    }
    let ghost unsorted = acc@;
    sort_ranked(&mut acc);
    let ghost sorted = acc@;
    proof {
        lemma_permutation_members(unsorted, sorted);
        assert forall|j: int|
            #![trigger sorted[j]]
            0 <= j < sorted.len() implies sorted[j].1 == name_count(authors@, sorted[j].0@)
            && sorted[j].1 > 0 && distinct_names(authors@).contains(sorted[j].0@) by {
            let p = choose|p: int| 0 <= p < unsorted.len() && unsorted[p] == sorted[j];
            assert(entry_names(unsorted)[p] == unsorted[p].0@);
            lemma_name_count_bound(authors@, sorted[j].0@);
        }
        assert forall|a: int, b: int|
            0 <= a < b < sorted.len() implies sorted[a].0@ != sorted[b].0@ by {
            let p = choose|p: int| 0 <= p < unsorted.len() && unsorted[p] == sorted[a];
            let q = choose|q: int| 0 <= q < unsorted.len() && unsorted[q] == sorted[b];
            assert(entry_names(unsorted)[p] == unsorted[p].0@);
            assert(entry_names(unsorted)[q] == unsorted[q].0@);
            lemma_name_count_bound(authors@, Seq::empty());
            if p == q {
                let idx = choose|idx: Seq<int>| is_stable_arrangement(sorted, unsorted, idx);
                assert(sorted[a] == unsorted[idx[a]] && sorted[b] == unsorted[idx[b]]);
                assert(idx[a] != idx[b]);
                assert(entry_names(unsorted)[idx[a]] == unsorted[idx[a]].0@);
                assert(entry_names(unsorted)[idx[b]] == unsorted[idx[b]].0@);
            }
        }
        assert forall|name: Seq<char>| #[trigger] name_count(authors@, name) > 0 implies exists|j: int|
            0 <= j < sorted.len() && sorted[j].0@ == name by {
            lemma_name_count_bound(authors@, name);
            let p = choose|p: int| 0 <= p < unsorted.len() && entry_names(unsorted)[p] == name;
            assert(sorted.contains(unsorted[p]));
            let j = choose|j: int| 0 <= j < sorted.len() && sorted[j] == unsorted[p];
        }
    }
    acc.truncate(k);
    proof {
        assert(acc@.len() <= sorted.len());
        assert(acc@ =~= sorted.subrange(0, acc@.len() as int));
        assert(acc@.len() < sorted.len() ==> acc@.len() == k);
        assert forall|a: int, b: int|
            0 <= a < b < entry_names(acc@).len() implies entry_names(acc@)[a] != entry_names(
                acc@,
            )[b] by {
            assert(acc@[a] == sorted[a] && acc@[b] == sorted[b]);
        }
        assert forall|j: int| #![trigger acc@[j]] 0 <= j < acc@.len() implies acc@[j].1
            == name_count(authors@, acc@[j].0@) && acc@[j].1 > 0 by {
            assert(acc@[j] == sorted[j]);
        }
        assert forall|a: int, b: int|
            #![trigger acc@[a], acc@[b]]
            0 <= a < b < acc@.len() implies acc@[a].precedes(&acc@[b]) && acc@[b].1 <= acc@[a].1 by {
            assert(acc@[a] == sorted[a] && acc@[b] == sorted[b]);
        }
        assert forall|name: Seq<char>|
            name_count(authors@, name) > 0 && !entry_names(acc@).contains(name) implies acc@.len()
            == k && (k > 0 ==> name_count(authors@, name) <= acc@[k - 1].1) by {
            let j = choose|j: int| 0 <= j < sorted.len() && sorted[j].0@ == name;
            if j < acc@.len() {
                assert(entry_names(acc@)[j] == name);
            } else {
                assert(acc@.len() == k);
                if k > 0 {
                    assert(sorted[k - 1].precedes(&sorted[j]));
                    assert(acc@[k - 1] == sorted[k - 1]);
                }
            }
        }
    }
    acc
}

} // verus!
