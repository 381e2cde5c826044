//! Files by changed lines: the integer side of the hotspot ranking. The
//! recency weight of each change, a power of one half in floating point, is
//! applied to the changes listed here.
use vstd::prelude::*;

use crate::stats::path_filter::{path_passes, CompiledPathFilters};
use crate::tally::{lemma_seq_total_insert, lemma_seq_total_raise, seq_total};

verus! {

/// One file change of a commit in the analysis: the commit's time, the
/// path, and the lines added and deleted.
#[derive(Debug, Clone)]
pub struct HotspotChange {
    pub ts: i64,
    pub path: String,
    pub adds: u64,
    pub dels: u64,
}

/// A file's added and deleted lines over the analysis, their sum, and each
/// change's time and lines, in order, for the recency weighting.
#[derive(Debug, Clone)]
pub struct FileChurn {
    pub path: String,
    pub adds: u64,
    pub dels: u64,
    pub churn: u64,
    pub changes: Vec<(i64, u64)>,
}

pub open spec fn hotspot_hit(
    c: HotspotChange,
    inc: Option<Seq<char>>,
    exc: Option<Seq<char>>,
    p: Seq<char>,
) -> bool {
    c.path@ == p && path_passes(inc, exc, p)
}

pub open spec fn file_adds(
    s: Seq<HotspotChange>,
    inc: Option<Seq<char>>,
    exc: Option<Seq<char>>,
    p: Seq<char>,
) -> nat
    decreases s.len(),
{
    if s.len() == 0 {
        0
    } else {
        file_adds(s.drop_last(), inc, exc, p) + if hotspot_hit(s.last(), inc, exc, p) {
            s.last().adds as nat
        } else {
            0nat
        }
    }
}

pub open spec fn file_dels(
    s: Seq<HotspotChange>,
    inc: Option<Seq<char>>,
    exc: Option<Seq<char>>,
    p: Seq<char>,
) -> nat
    decreases s.len(),
{
    if s.len() == 0 {
        0
    } else {
        file_dels(s.drop_last(), inc, exc, p) + if hotspot_hit(s.last(), inc, exc, p) {
            s.last().dels as nat
        } else {
            0nat
        }
    }
}

/// The time and lines of each change of `p`, in order.
pub open spec fn file_changes(
    s: Seq<HotspotChange>,
    inc: Option<Seq<char>>,
    exc: Option<Seq<char>>,
    p: Seq<char>,
) -> Seq<(i64, int)>
    decreases s.len(),
{
    if s.len() == 0 {
        Seq::empty()
    } else {
        file_changes(s.drop_last(), inc, exc, p) + if hotspot_hit(s.last(), inc, exc, p) {
            seq![(s.last().ts, s.last().adds + s.last().dels)]
        } else {
            Seq::empty()
        }
    }
}

pub open spec fn change_view(c: Seq<(i64, u64)>) -> Seq<(i64, int)> {
    c.map_values(|x: (i64, u64)| (x.0, x.1 as int))
}

/// No file's added plus deleted lines exceed `u64`.
pub open spec fn hotspot_totals_fit(
    s: Seq<HotspotChange>,
    inc: Option<Seq<char>>,
    exc: Option<Seq<char>>,
) -> bool {
    forall|p: Seq<char>| #[trigger] file_adds(s, inc, exc, p) + file_dels(s, inc, exc, p) <= u64::MAX
}

/// `r` holds one entry per file with a change passing the filters, with its
/// totals and its changes.
pub open spec fn is_churn_table(
    r: Seq<FileChurn>,
    s: Seq<HotspotChange>,
    inc: Option<Seq<char>>,
    exc: Option<Seq<char>>,
) -> bool {
    &&& forall|i: int, j: int|
        #![trigger r[i], r[j]]
        0 <= i < j < r.len() ==> r[i].path@ != r[j].path@
    &&& forall|i: int|
        #![trigger r[i]]
        0 <= i < r.len() ==> {
            &&& r[i].changes@.len() > 0
            &&& change_view(r[i].changes@) == file_changes(s, inc, exc, r[i].path@)
            &&& r[i].adds == file_adds(s, inc, exc, r[i].path@)
            &&& r[i].dels == file_dels(s, inc, exc, r[i].path@)
            &&& r[i].churn == r[i].adds + r[i].dels
        }
    &&& forall|k: int|
        #![trigger s[k]]
        0 <= k < s.len() && path_passes(inc, exc, s[k].path@) ==> exists|i: int|
            0 <= i < r.len() && r[i].path@ == s[k].path@
}

/// The changed lines of the changes of `s` that pass the filters.
pub open spec fn passing_lines(
    s: Seq<HotspotChange>,
    inc: Option<Seq<char>>,
    exc: Option<Seq<char>>,
) -> int
    decreases s.len(),
{
    if s.len() == 0 {
        0
    } else {
        passing_lines(s.drop_last(), inc, exc) + if path_passes(inc, exc, s.last().path@) {
            s.last().adds + s.last().dels
        } else {
            0
        }
    }
}

/// The churn of a table's files, summed.
pub open spec fn table_churn(r: Seq<FileChurn>) -> int {
    seq_total(r.map_values(|f: FileChurn| f.churn as int))
}

proof fn lemma_file_prefix(
    s: Seq<HotspotChange>,
    n: int,
    inc: Option<Seq<char>>,
    exc: Option<Seq<char>>,
    p: Seq<char>,
)
    requires
        0 <= n <= s.len(),
    ensures
        file_adds(s.subrange(0, n), inc, exc, p) <= file_adds(s, inc, exc, p),
        file_dels(s.subrange(0, n), inc, exc, p) <= file_dels(s, inc, exc, p),
    decreases s.len(),
{
    if n == s.len() {
        assert(s.subrange(0, n) =~= s);
    } else {
        let t = s.drop_last();
        assert(t.subrange(0, n) =~= s.subrange(0, n));
        lemma_file_prefix(t, n, inc, exc, p);
    }
}

proof fn lemma_file_absent(
    s: Seq<HotspotChange>,
    inc: Option<Seq<char>>,
    exc: Option<Seq<char>>,
    p: Seq<char>,
)
    requires
        forall|k: int| 0 <= k < s.len() ==> !hotspot_hit(#[trigger] s[k], inc, exc, p),
    ensures
        file_adds(s, inc, exc, p) == 0,
        file_dels(s, inc, exc, p) == 0,
        file_changes(s, inc, exc, p) == Seq::<(i64, int)>::empty(),
    decreases s.len(),
{
    if s.len() > 0 {
        let t = s.drop_last();
        assert forall|k: int| 0 <= k < t.len() implies !hotspot_hit(#[trigger] t[k], inc, exc, p) by {
            assert(t[k] == s[k]);
        }
        assert(s[s.len() - 1] == s.last());
        lemma_file_absent(t, inc, exc, p);
    }
}

/// Lines added and deleted per file over the changes that pass the
/// filters, with each file's changes for the recency weighting. The order
/// of the files is left open. Every line of a passing change is counted in
/// exactly one file.
#[verifier::rlimit(60)]
#[verifier::spinoff_prover]
pub fn compute_file_churn(changes: &[HotspotChange], filters: &CompiledPathFilters) -> (r: Vec<
    FileChurn,
>)
    requires
        hotspot_totals_fit(changes@, filters.include_pattern(), filters.exclude_pattern()),
    ensures
        is_churn_table(r@, changes@, filters.include_pattern(), filters.exclude_pattern()),
        table_churn(r@) == passing_lines(changes@, filters.include_pattern(), filters.exclude_pattern()),
{
    let ghost inc = filters.include_pattern();
    let ghost exc = filters.exclude_pattern();
    let mut acc: Vec<FileChurn> = Vec::new();
    let mut i: usize = 0;
    proof {
        assert(acc@.map_values(|f: FileChurn| f.churn as int) =~= Seq::<int>::empty());
    }
    while i < changes.len()
        invariant
            i <= changes.len(),
            inc == filters.include_pattern(),
            exc == filters.exclude_pattern(),
            hotspot_totals_fit(changes@, inc, exc),
            is_churn_table(acc@, changes@.subrange(0, i as int), inc, exc),
            table_churn(acc@) == passing_lines(changes@.subrange(0, i as int), inc, exc),
        decreases changes.len() - i,
    {
        let ghost prev = changes@.subrange(0, i as int);
        let ghost next = changes@.subrange(0, i + 1);
        proof {
            assert(next.drop_last() =~= prev);
            assert(next.last() == changes@[i as int]);
        }
        let c = &changes[i];
        if !filters.matches(c.path.as_str()) {
            proof {
                assert forall|k: int|
                    #![trigger next[k]]
                    0 <= k < next.len() && path_passes(inc, exc, next[k].path@) implies exists|j: int|
                    0 <= j < acc@.len() && acc@[j].path@ == next[k].path@ by {
                    assert(next[k] == prev[k]);
                }
            }
        } else {
            proof {
                lemma_file_prefix(changes@, i + 1, inc, exc, c.path@);
                assert(file_adds(changes@, inc, exc, c.path@) + file_dels(changes@, inc, exc, c.path@)
                    <= u64::MAX);
            }
            let mut k: usize = 0;
            let mut found: Option<usize> = None;
            while k < acc.len()
                invariant_except_break
                    found is None,
                invariant
                    k <= acc.len(),
                    forall|j: int| 0 <= j < k ==> acc@[j].path@ != c.path@,
                ensures
                    match found {
                        Some(x) => x < acc.len() && acc@[x as int].path@ == c.path@,
                        None => forall|j: int| 0 <= j < acc.len() ==> acc@[j].path@ != c.path@,
                    },
                decreases acc.len() - k,
            {
                if acc[k].path == c.path {
                    found = Some(k);
                    break;
                }
                k += 1;
            }
            let ghost before = acc@;
            let ghost mut pos: int = 0;
            match found {
                Some(x) => {
                    let mut e = acc.remove(x);
                    let ghost old_changes = e.changes@;
                    e.adds = e.adds + c.adds;
                    e.dels = e.dels + c.dels;
                    e.churn = e.adds + e.dels;
                    e.changes.push((c.ts, c.adds + c.dels));
                    proof {
                        assert(change_view(e.changes@) =~= change_view(old_changes).push(
                            (c.ts, c.adds + c.dels),
                        ));
                    }
                    acc.insert(x, e);
                    proof {
                        pos = x as int;
                        assert forall|j: int| 0 <= j < acc@.len() && j != x implies #[trigger] acc@[j]
                            == before[j] by {
                            if j < x {
                            } else {
                            }
                        }
                    }
                    assert(table_churn(acc@) == table_churn(before) + c.adds + c.dels) by {
                        let ch = before.map_values(|f: FileChurn| f.churn as int);
                        assert(acc@.map_values(|f: FileChurn| f.churn as int) =~= ch.update(
                            x as int,
                            ch[x as int] + c.adds + c.dels,
                        ));
                        lemma_seq_total_raise(ch, x as int, c.adds + c.dels);
                    }
                },
                None => {
                    proof {
                        assert forall|m: int| 0 <= m < prev.len() implies !hotspot_hit(
                            #[trigger] prev[m],
                            inc,
                            exc,
                            c.path@,
                        ) by {
                            if hotspot_hit(prev[m], inc, exc, c.path@) {
                                let j = choose|j: int|
                                    0 <= j < before.len() && before[j].path@ == prev[m].path@;
                            }
                        }
                        lemma_file_absent(prev, inc, exc, c.path@);
                        pos = acc@.len() as int;
                    }
                    let mut list: Vec<(i64, u64)> = Vec::new();
                    list.push((c.ts, c.adds + c.dels));
                    proof {
                        assert(change_view(list@) =~= seq![(c.ts, c.adds + c.dels)]);
                    }
                    acc.push(
                        FileChurn {
                            path: c.path.clone(),
                            adds: c.adds,
                            dels: c.dels,
                            churn: c.adds + c.dels,
                            changes: list,
                        },
                    );
                    assert(table_churn(acc@) == table_churn(before) + c.adds + c.dels) by {
                        let ch = before.map_values(|f: FileChurn| f.churn as int);
                        assert(acc@.map_values(|f: FileChurn| f.churn as int) =~= ch.insert(
                            before.len() as int,
                            c.adds + c.dels,
                        ));
                        lemma_seq_total_insert(ch, before.len() as int, c.adds + c.dels);
                    }
                },
            }
            proof {
                assert forall|k: int|
                    #![trigger next[k]]
                    0 <= k < next.len() && path_passes(inc, exc, next[k].path@) implies exists|j: int|
                    0 <= j < acc@.len() && acc@[j].path@ == next[k].path@ by {
                    if k < i {
                        assert(next[k] == prev[k]);
                        let j = choose|j: int| 0 <= j < before.len() && before[j].path@ == prev[k].path@;
                        if j == pos {
                            assert(acc@[pos].path@ == c.path@);
                        } else {
                            assert(acc@[j] == before[j]);
                        }
                    } else {
                        assert(acc@[pos].path@ == c.path@);
                    }
                }
                assert forall|a: int|
                    #![trigger acc@[a]]
                    0 <= a < acc@.len() implies {
                        &&& acc@[a].changes@.len() > 0
                        &&& change_view(acc@[a].changes@) == file_changes(next, inc, exc, acc@[a].path@)
                        &&& acc@[a].adds == file_adds(next, inc, exc, acc@[a].path@)
                        &&& acc@[a].dels == file_dels(next, inc, exc, acc@[a].path@)
                        &&& acc@[a].churn == acc@[a].adds + acc@[a].dels
                    } by {
                    if a != pos {
                        assert(acc@[a] == before[a]);
                    }
                }
                assert forall|a: int, b: int|
                    #![trigger acc@[a], acc@[b]]
                    0 <= a < b < acc@.len() implies acc@[a].path@ != acc@[b].path@ by {
                    if a != pos {
                        assert(acc@[a] == before[a]);
                    }
                    if b != pos {
                        assert(acc@[b] == before[b]);
                    }
                }
            }
        }
        i += 1;
    }
    proof {
        assert(changes@.subrange(0, changes@.len() as int) =~= changes@);
    }
    acc
}

} // verus!
