//! Commits and changed lines per author, ranked.
use vstd::prelude::*;

use crate::sorting::{lemma_permutation_members, sort_ranked, sorted_by_rank, Ranked};
use crate::stats::{in_window, within_window, AuthorMetric};
use crate::tally::{
    lemma_seq_total_insert, lemma_seq_total_permutation, lemma_seq_total_raise, seq_total,
};

verus! {

/// Commits and lines added and deleted by one author.
#[derive(Debug, Clone)]
pub struct AuthorStats {
    pub author: String,
    pub commits: u64,
    pub adds: u64,
    pub dels: u64,
}

/// One commit as the author ranking sees it: its time, its author's name
/// (absent when the signature carries none), its number of parents, and the
/// lines added and deleted against its first parent (against the empty tree
/// for a root commit).
#[derive(Debug, Clone)]
pub struct AuthorSample {
    pub ts: i64,
    pub author: Option<String>,
    pub parents: u32,
    pub adds: u64,
    pub dels: u64,
}

/// The name a commit is filed under: its author's, or `Unknown`.
pub open spec fn sample_author(s: AuthorSample) -> Seq<char> {
    match s.author {
        Some(n) => n@,
        None => "Unknown"@,
    }
}

/// A commit counts when it lies in the window, and is not a merge where
/// merges are excluded.
pub open spec fn author_counted(
    s: AuthorSample,
    since: Option<i64>,
    until: Option<i64>,
    no_merges: bool,
) -> bool {
    in_window(s.ts, since, until) && !(no_merges && s.parents > 1)
}

/// Which commits the author table counts: every commit in the window where
/// merges are kept; where they are left out, exactly the commits in the
/// window with at most one parent. A commit without an author name is
/// filed under `Unknown`.
pub proof fn lemma_author_counts_which(c: AuthorSample, since: Option<i64>, until: Option<i64>)
    ensures
        author_counted(c, since, until, false) <==> (since matches Some(s) ==> c.ts >= s) && (
        until matches Some(u) ==> c.ts <= u),
        author_counted(c, since, until, true) <==> author_counted(c, since, until, false)
            && c.parents <= 1,
        c.author is None ==> sample_author(c) == "Unknown"@,
        c.author matches Some(n) ==> sample_author(c) == n@,
{
}

pub open spec fn author_hit(
    s: AuthorSample,
    since: Option<i64>,
    until: Option<i64>,
    no_merges: bool,
    name: Seq<char>,
) -> bool {
    author_counted(s, since, until, no_merges) && sample_author(s) == name
}

/// Counted commits filed under `name`.
pub open spec fn author_commits(
    s: Seq<AuthorSample>,
    since: Option<i64>,
    until: Option<i64>,
    no_merges: bool,
    name: Seq<char>,
) -> nat
    decreases s.len(),
{
    if s.len() == 0 {
        0
    } else {
        author_commits(s.drop_last(), since, until, no_merges, name) + if author_hit(
            s.last(),
            since,
            until,
            no_merges,
            name,
        ) {
            1nat
        } else {
            0nat
        }
    }
}

/// Lines added by the counted commits filed under `name`.
/// An author's commits are exactly the counted commits filed under the
/// author's name.
pub proof fn lemma_author_commits_count(
    s: Seq<AuthorSample>,
    since: Option<i64>,
    until: Option<i64>,
    no_merges: bool,
    name: Seq<char>,
)
    ensures
        author_commits(s, since, until, no_merges, name) == s.filter(
            |c: AuthorSample| author_counted(c, since, until, no_merges) && sample_author(c) == name,
        ).len(),
    decreases s.len(),
{
    reveal(Seq::filter);
    if s.len() > 0 {
        lemma_author_commits_count(s.drop_last(), since, until, no_merges, name);
    }
}

pub open spec fn author_adds(
    s: Seq<AuthorSample>,
    since: Option<i64>,
    until: Option<i64>,
    no_merges: bool,
    name: Seq<char>,
) -> nat
    decreases s.len(),
{
    if s.len() == 0 {
        0
    } else {
        author_adds(s.drop_last(), since, until, no_merges, name) + if author_hit(
            s.last(),
            since,
            until,
            no_merges,
            name,
        ) {
            s.last().adds as nat
        } else {
            0nat
        }
    }
}

/// Lines deleted by the counted commits filed under `name`.
pub open spec fn author_dels(
    s: Seq<AuthorSample>,
    since: Option<i64>,
    until: Option<i64>,
    no_merges: bool,
    name: Seq<char>,
) -> nat
    decreases s.len(),
{
    if s.len() == 0 {
        0
    } else {
        author_dels(s.drop_last(), since, until, no_merges, name) + if author_hit(
            s.last(),
            since,
            until,
            no_merges,
            name,
        ) {
            s.last().dels as nat
        } else {
            0nat
        }
    }
}

/// No author's added plus deleted lines exceed `u64`.
pub open spec fn author_totals_fit(
    s: Seq<AuthorSample>,
    since: Option<i64>,
    until: Option<i64>,
    no_merges: bool,
) -> bool {
    forall|name: Seq<char>|
        #[trigger] author_adds(s, since, until, no_merges, name) + author_dels(
            s,
            since,
            until,
            no_merges,
            name,
        ) <= u64::MAX
}

/// The ranking order: more commits first, then more changed lines.
pub open spec fn author_precedes(a: AuthorStats, b: AuthorStats) -> bool {
    a.commits > b.commits || (a.commits == b.commits && a.adds + a.dels >= b.adds + b.dels)
}

impl Ranked for AuthorStats {
    open spec fn precedes(&self, other: &Self) -> bool {
        author_precedes(*self, *other)
    }

    fn ranks_before(&self, other: &Self) -> (b: bool) {
        if self.commits != other.commits {
            self.commits > other.commits
        } else {
            let mine: u128 = self.adds as u128 + self.dels as u128;
            let theirs: u128 = other.adds as u128 + other.dels as u128;
            mine >= theirs
        }
    }

    proof fn lemma_total(a: &Self, b: &Self) {
    }

    proof fn lemma_transitive(a: &Self, b: &Self, c: &Self) {
    }
}

/// Each entry carries the totals of the commits filed under its name.
pub open spec fn author_entry_exact(
    e: AuthorStats,
    s: Seq<AuthorSample>,
    since: Option<i64>,
    until: Option<i64>,
    no_merges: bool,
) -> bool {
    &&& e.commits > 0
    &&& e.commits == author_commits(s, since, until, no_merges, e.author@)
    &&& e.adds == author_adds(s, since, until, no_merges, e.author@)
    &&& e.dels == author_dels(s, since, until, no_merges, e.author@)
}

/// `r` holds one entry per author of a counted commit of `s`, each with its
/// exact totals.
pub open spec fn is_author_table(
    r: Seq<AuthorStats>,
    s: Seq<AuthorSample>,
    since: Option<i64>,
    until: Option<i64>,
    no_merges: bool,
) -> bool {
    &&& forall|i: int, j: int|
        #![trigger r[i], r[j]]
        0 <= i < j < r.len() ==> r[i].author@ != r[j].author@
    &&& forall|i: int|
        #![trigger r[i]]
        0 <= i < r.len() ==> author_entry_exact(r[i], s, since, until, no_merges)
    &&& forall|k: int|
        #![trigger s[k]]
        0 <= k < s.len() && author_counted(s[k], since, until, no_merges) ==> exists|i: int|
            0 <= i < r.len() && r[i].author@ == sample_author(s[k])
}

/// The counted commits of `s`, with their added and deleted lines.
pub open spec fn counted_totals(
    s: Seq<AuthorSample>,
    since: Option<i64>,
    until: Option<i64>,
    no_merges: bool,
) -> (int, int, int)
    decreases s.len(),
{
    if s.len() == 0 {
        (0, 0, 0)
    } else {
        let t = counted_totals(s.drop_last(), since, until, no_merges);
        if author_counted(s.last(), since, until, no_merges) {
            (t.0 + 1, t.1 + s.last().adds, t.2 + s.last().dels)
        } else {
            t
        }
    }
}

/// The commits, added and deleted lines of a table's entries, summed.
pub open spec fn table_totals(r: Seq<AuthorStats>) -> (int, int, int) {
    (
        seq_total(r.map_values(|a: AuthorStats| a.commits as int)),
        seq_total(r.map_values(|a: AuthorStats| a.adds as int)),
        seq_total(r.map_values(|a: AuthorStats| a.dels as int)),
    )
}

proof fn lemma_author_prefix_sums(
    s: Seq<AuthorSample>,
    n: int,
    since: Option<i64>,
    until: Option<i64>,
    no_merges: bool,
    name: Seq<char>,
)
    requires
        0 <= n <= s.len(),
    ensures
        author_adds(s.subrange(0, n), since, until, no_merges, name) <= author_adds(
            s,
            since,
            until,
            no_merges,
            name,
        ),
        author_dels(s.subrange(0, n), since, until, no_merges, name) <= author_dels(
            s,
            since,
            until,
            no_merges,
            name,
        ),
        author_commits(s, since, until, no_merges, name) <= s.len(),
    decreases s.len(),
{
    if s.len() > 0 {
        let t = s.drop_last();
        if n == s.len() {
            assert(s.subrange(0, n) =~= s);
            lemma_author_prefix_sums(t, 0, since, until, no_merges, name);
        } else {
            assert(t.subrange(0, n) =~= s.subrange(0, n));
            lemma_author_prefix_sums(t, n, since, until, no_merges, name);
        }
    } else {
        assert(s.subrange(0, n) =~= s);
    }
}

/// The name under which `s` is filed.
fn author_name_of(s: &AuthorSample) -> (n: String)
    ensures
        n@ == sample_author(*s),
{
    match &s.author {
        Some(name) => name.clone(),
        None => String::from_str("Unknown"),
    }
}

fn locate_author(acc: &Vec<AuthorStats>, name: &String) -> (r: Option<usize>)
    ensures
        match r {
            Some(k) => k < acc.len() && acc@[k as int].author@ == name@,
            None => forall|k: int| 0 <= k < acc.len() ==> acc@[k].author@ != name@,
        },
{
    let mut k: usize = 0;
    while k < acc.len()
        invariant
            k <= acc.len(),
            forall|j: int| 0 <= j < k ==> acc@[j].author@ != name@,
        decreases acc.len() - k,
    {
        if acc[k].author == *name {
            return Some(k);
        }
        k += 1;
    }
    None
}

/// Files sample `i` into the table built over the samples before it.
#[verifier::rlimit(60)]
#[verifier::spinoff_prover]
fn absorb_author_sample(
    acc: &mut Vec<AuthorStats>,
    samples: &[AuthorSample],
    i: usize,
    since: Option<i64>,
    until: Option<i64>,
    no_merges: bool,
)
    requires
        i < samples.len(),
        author_totals_fit(samples@, since, until, no_merges),
        is_author_table(old(acc)@, samples@.subrange(0, i as int), since, until, no_merges),
    ensures
        is_author_table(final(acc)@, samples@.subrange(0, i + 1), since, until, no_merges),
        table_totals(final(acc)@) == if author_counted(samples@[i as int], since, until, no_merges) {
            let t = table_totals(old(acc)@);
            (t.0 + 1, t.1 + samples@[i as int].adds, t.2 + samples@[i as int].dels)
        } else {
            table_totals(old(acc)@)
        },
{
    let ghost prev = samples@.subrange(0, i as int);
    let ghost next = samples@.subrange(0, i + 1);
    proof {
        assert(next.drop_last() =~= prev);
        assert(next.last() == samples@[i as int]);
    }
    let s = &samples[i];
    let counted = within_window(s.ts, since, until) && !(no_merges && s.parents > 1);
    if !counted {
        proof {
            assert forall|k: int|
                #![trigger next[k]]
                0 <= k < next.len() && author_counted(
                    next[k],
                    since,
                    until,
                    no_merges,
                ) implies exists|j: int|
                0 <= j < acc@.len() && acc@[j].author@ == sample_author(next[k]) by {
                assert(next[k] == prev[k]);
            }
        }
        return ;
    }
    let name = author_name_of(s);
    proof {
        lemma_author_prefix_sums(samples@, i + 1, since, until, no_merges, name@);
        lemma_author_prefix_sums(next, 0, since, until, no_merges, name@);
        assert(author_adds(samples@, since, until, no_merges, name@) + author_dels(
            samples@,
            since,
            until,
            no_merges,
            name@,
        ) <= u64::MAX);
    }
    let ghost mut pos: int = 0;
    match locate_author(acc, &name) {
        Some(k) => {
            proof {
                pos = k as int;
            }
            let e = AuthorStats {
                author: acc[k].author.clone(),
                commits: acc[k].commits + 1,
                adds: acc[k].adds + s.adds,
                dels: acc[k].dels + s.dels,
            };
            let ghost before = acc@;
            acc.set(k, e);
            assert(table_totals(acc@) == (
                table_totals(before).0 + 1,
                table_totals(before).1 + s.adds,
                table_totals(before).2 + s.dels,
            )) by {
                let c = before.map_values(|a: AuthorStats| a.commits as int);
                let ad = before.map_values(|a: AuthorStats| a.adds as int);
                let de = before.map_values(|a: AuthorStats| a.dels as int);
                assert(acc@.map_values(|a: AuthorStats| a.commits as int) =~= c.update(
                    k as int,
                    c[k as int] + 1,
                ));
                assert(acc@.map_values(|a: AuthorStats| a.adds as int) =~= ad.update(
                    k as int,
                    ad[k as int] + s.adds,
                ));
                assert(acc@.map_values(|a: AuthorStats| a.dels as int) =~= de.update(
                    k as int,
                    de[k as int] + s.dels,
                ));
                lemma_seq_total_raise(c, k as int, 1);
                lemma_seq_total_raise(ad, k as int, s.adds as int);
                lemma_seq_total_raise(de, k as int, s.dels as int);
            }
        },
        None => {
            proof {
                assert(author_commits(prev, since, until, no_merges, name@) == 0) by {
                    if author_commits(prev, since, until, no_merges, name@) > 0 {
                        lemma_author_hit_witness(prev, since, until, no_merges, name@);
                    }
                }
                lemma_author_zero_sums(prev, since, until, no_merges, name@);
            }
            proof {
                pos = acc@.len() as int;
            }
            let ghost before = acc@;
            acc.push(AuthorStats { author: name, commits: 1, adds: s.adds, dels: s.dels });
            assert(table_totals(acc@) == (
                table_totals(before).0 + 1,
                table_totals(before).1 + s.adds,
                table_totals(before).2 + s.dels,
            )) by {
                let n = before.len() as int;
                let c = before.map_values(|a: AuthorStats| a.commits as int);
                let ad = before.map_values(|a: AuthorStats| a.adds as int);
                let de = before.map_values(|a: AuthorStats| a.dels as int);
                assert(acc@.map_values(|a: AuthorStats| a.commits as int) =~= c.insert(n, 1));
                assert(acc@.map_values(|a: AuthorStats| a.adds as int) =~= ad.insert(n, s.adds as int));
                assert(acc@.map_values(|a: AuthorStats| a.dels as int) =~= de.insert(n, s.dels as int));
                lemma_seq_total_insert(c, n, 1);
                lemma_seq_total_insert(ad, n, s.adds as int);
                lemma_seq_total_insert(de, n, s.dels as int);
            }
        },
    }
    proof {
        assert forall|k: int|
            #![trigger next[k]]
            0 <= k < next.len() && author_counted(
                next[k],
                since,
                until,
                no_merges,
            ) implies exists|j: int|
            0 <= j < acc@.len() && acc@[j].author@ == sample_author(next[k]) by {
            if k < i {
                assert(next[k] == prev[k]);
                let j = choose|j: int|
                    0 <= j < old(acc)@.len() && old(acc)@[j].author@ == sample_author(prev[k]);
                assert(acc@[j].author@ == old(acc)@[j].author@);
            } else {
                assert(next[k] == samples@[i as int]);
                assert(acc@[pos].author@ == sample_author(next[k]));
            }
        }
    }
}

/// A name with a counted commit is the name of some counted commit.
proof fn lemma_author_hit_witness(
    s: Seq<AuthorSample>,
    since: Option<i64>,
    until: Option<i64>,
    no_merges: bool,
    name: Seq<char>,
)
    requires
        author_commits(s, since, until, no_merges, name) > 0,
    ensures
        exists|k: int|
            #![trigger s[k]]
            0 <= k < s.len() && author_counted(s[k], since, until, no_merges) && sample_author(
                s[k],
            ) == name,
    decreases s.len(),
{
    let t = s.drop_last();
    if author_hit(s.last(), since, until, no_merges, name) {
        assert(s[s.len() - 1] == s.last());
    } else {
        lemma_author_hit_witness(t, since, until, no_merges, name);
        let k = choose|k: int|
            #![trigger t[k]]
            0 <= k < t.len() && author_counted(t[k], since, until, no_merges) && sample_author(
                t[k],
            ) == name;
        assert(s[k] == t[k]);
    }
}

/// A name without counted commits has no added or deleted lines.
proof fn lemma_author_zero_sums(
    s: Seq<AuthorSample>,
    since: Option<i64>,
    until: Option<i64>,
    no_merges: bool,
    name: Seq<char>,
)
    requires
        author_commits(s, since, until, no_merges, name) == 0,
    ensures
        author_adds(s, since, until, no_merges, name) == 0,
        author_dels(s, since, until, no_merges, name) == 0,
    decreases s.len(),
{
    if s.len() > 0 {
        lemma_author_zero_sums(s.drop_last(), since, until, no_merges, name);
    }
}

/// The commit ranking: of two authors listed in this order, the earlier has
/// at least as many commits, and where their commits are equal, at least as
/// many changed (added plus deleted) lines.
pub proof fn lemma_commit_ranking(r: Seq<AuthorStats>)
    requires
        sorted_by_rank(r),
    ensures
        forall|i: int, j: int|
            #![trigger r[i], r[j]]
            0 <= i < j < r.len() ==> r[j].commits <= r[i].commits && (r[j].commits == r[i].commits
                ==> r[j].adds + r[j].dels <= r[i].adds + r[i].dels),
{
    assert forall|i: int, j: int|
        #![trigger r[i], r[j]]
        0 <= i < j < r.len() implies r[j].commits <= r[i].commits && (r[j].commits == r[i].commits
            ==> r[j].adds + r[j].dels <= r[i].adds + r[i].dels) by {
        assert(r[i].precedes(&r[j]));
    }
}

/// The churn ranking: of two authors listed in this order, the earlier has
/// at least as many changed (added plus deleted) lines, and where those are
/// equal, at least as many commits.
pub proof fn lemma_churn_ranking(r: Seq<AuthorStats>)
    requires
        forall|i: int, j: int|
            0 <= i < j < r.len() ==> churn_precedes(#[trigger] r[i], #[trigger] r[j]),
    ensures
        forall|i: int, j: int|
            #![trigger r[i], r[j]]
            0 <= i < j < r.len() ==> r[j].adds + r[j].dels <= r[i].adds + r[i].dels && (r[j].adds
                + r[j].dels == r[i].adds + r[i].dels ==> r[j].commits <= r[i].commits),
{
}

/// Commits, added and deleted lines per author over the commits in `samples`
/// that lie in the window `[since, until]`, skipping merge commits when
/// `no_merges`; ranked by commits, then by changed lines, both descending.
/// Every counted commit, with its lines, is credited to exactly one author.
/// Among authors equal on both, the order is left open.
pub fn compute_authors(
    samples: &[AuthorSample],
    since: Option<i64>,
    until: Option<i64>,
    no_merges: bool,
) -> (r: Vec<AuthorStats>)
    requires
        author_totals_fit(samples@, since, until, no_merges),
    ensures
        is_author_table(r@, samples@, since, until, no_merges),
        sorted_by_rank(r@),
        forall|i: int, j: int|
            #![trigger r@[i], r@[j]]
            0 <= i < j < r@.len() ==> r@[j].commits <= r@[i].commits && (r@[j].commits
                == r@[i].commits ==> r@[j].adds + r@[j].dels <= r@[i].adds + r@[i].dels),
        table_totals(r@) == counted_totals(samples@, since, until, no_merges),
{
    let mut acc: Vec<AuthorStats> = Vec::new();
    let mut i: usize = 0;
    proof {
        assert(acc@.map_values(|a: AuthorStats| a.commits as int) =~= Seq::<int>::empty());
        assert(acc@.map_values(|a: AuthorStats| a.adds as int) =~= Seq::<int>::empty());
        assert(acc@.map_values(|a: AuthorStats| a.dels as int) =~= Seq::<int>::empty());
    }
    while i < samples.len()
        invariant
            i <= samples.len(),
            author_totals_fit(samples@, since, until, no_merges),
            is_author_table(acc@, samples@.subrange(0, i as int), since, until, no_merges),
            table_totals(acc@) == counted_totals(samples@.subrange(0, i as int), since, until, no_merges),
        decreases samples.len() - i,
    {
        absorb_author_sample(&mut acc, samples, i, since, until, no_merges);
        proof {
            let next = samples@.subrange(0, i + 1);
            assert(next.drop_last() =~= samples@.subrange(0, i as int));
            assert(next.last() == samples@[i as int]);
        }
        i += 1;
    }
    proof {
        assert(samples@.subrange(0, samples@.len() as int) =~= samples@);
    }
    let ghost unsorted = acc@;
    sort_ranked(&mut acc);
    proof {
        lemma_seq_total_permutation(unsorted, acc@, |a: AuthorStats| a.commits as int);
        lemma_seq_total_permutation(unsorted, acc@, |a: AuthorStats| a.adds as int);
        lemma_seq_total_permutation(unsorted, acc@, |a: AuthorStats| a.dels as int);
        lemma_permutation_members(unsorted, acc@);
        lemma_permutation_members(acc@, unsorted);
        assert(unsorted.no_duplicates()) by {
            assert forall|i: int, j: int|
                0 <= i < unsorted.len() && 0 <= j < unsorted.len() && i != j implies unsorted[i]
                != unsorted[j] by {
                if i < j {
                    assert(unsorted[i].author@ != unsorted[j].author@);
                } else {
                    assert(unsorted[j].author@ != unsorted[i].author@);
                }
            }
        }
        assert forall|i: int, j: int|
            #![trigger acc@[i], acc@[j]]
            0 <= i < j < acc@.len() implies acc@[i].author@ != acc@[j].author@ by {
            let p = choose|p: int| 0 <= p < unsorted.len() && unsorted[p] == acc@[i];
            let q = choose|q: int| 0 <= q < unsorted.len() && unsorted[q] == acc@[j];
            if p != q {
                if p < q {
                    assert(unsorted[p].author@ != unsorted[q].author@);
                } else {
                    assert(unsorted[q].author@ != unsorted[p].author@);
                }
            }
        }
        assert forall|i: int|
            #![trigger acc@[i]]
            0 <= i < acc@.len() implies author_entry_exact(
            acc@[i],
            samples@,
            since,
            until,
            no_merges,
        ) by {
            let p = choose|p: int| 0 <= p < unsorted.len() && unsorted[p] == acc@[i];
            assert(unsorted[p] == acc@[i]);
        }
        assert forall|k: int|
            #![trigger samples@[k]]
            0 <= k < samples@.len() && author_counted(
                samples@[k],
                since,
                until,
                no_merges,
            ) implies exists|i: int|
            0 <= i < acc@.len() && acc@[i].author@ == sample_author(samples@[k]) by {
            let p = choose|p: int|
                0 <= p < unsorted.len() && unsorted[p].author@ == sample_author(samples@[k]);
            assert(acc@.contains(unsorted[p]));
            let i = choose|i: int| 0 <= i < acc@.len() && acc@[i] == unsorted[p];
            assert(acc@[i].author@ == sample_author(samples@[k]));
        }
    }
    proof {
        lemma_commit_ranking(acc@);
    }
    acc
}

/// An author ranked by changed lines first, then by commits.
pub struct ByChurn {
    pub stats: AuthorStats,
}

pub open spec fn churn_precedes(a: AuthorStats, b: AuthorStats) -> bool {
    a.adds + a.dels > b.adds + b.dels || (a.adds + a.dels == b.adds + b.dels && a.commits
        >= b.commits)
}

impl Ranked for ByChurn {
    open spec fn precedes(&self, other: &Self) -> bool {
        churn_precedes(self.stats, other.stats)
    }

    fn ranks_before(&self, other: &Self) -> (b: bool) {
        let mine: u128 = self.stats.adds as u128 + self.stats.dels as u128;
        let theirs: u128 = other.stats.adds as u128 + other.stats.dels as u128;
        if mine != theirs {
            mine > theirs
        } else {
            self.stats.commits >= other.stats.commits
        }
    }

    proof fn lemma_total(a: &Self, b: &Self) {
    }

    proof fn lemma_transitive(a: &Self, b: &Self, c: &Self) {
    }
}

spec fn stats_of(w: Seq<ByChurn>) -> Seq<AuthorStats> {
    w.map_values(|b: ByChurn| b.stats)
}

/// The ranking of the report: the author table re-ranked by the chosen
/// metric (by commits it keeps its order; by churn, changed lines first and
/// commits among equals), cut to the first `top`. Authors left out rank no
/// higher than any kept.
pub fn rank_authors(authors: Vec<AuthorStats>, metric: AuthorMetric, top: usize) -> (r: Vec<
    AuthorStats,
>)
    requires
        sorted_by_rank(authors@),
        forall|i: int, j: int|
            0 <= i < j < authors@.len() ==> (#[trigger] authors@[i]).author@ != (#[trigger] authors@[j]).author@,
    ensures
        r@.len() == if top < authors@.len() {
            top as int
        } else {
            authors@.len() as int
        },
        forall|i: int| 0 <= i < r@.len() ==> authors@.contains(#[trigger] r@[i]),
        forall|i: int, j: int| 0 <= i < j < r@.len() ==> (#[trigger] r@[i]).author@ != (#[trigger] r@[j]).author@,
        metric == AuthorMetric::Commits ==> r@ == authors@.subrange(0, r@.len() as int),
        metric == AuthorMetric::Churn ==> forall|i: int, j: int|
            0 <= i < j < r@.len() ==> churn_precedes(#[trigger] r@[i], #[trigger] r@[j]),
        metric == AuthorMetric::Churn ==> forall|k: int, i: int|
            #![trigger authors@[k], r@[i]]
            0 <= k < authors@.len() && 0 <= i < r@.len() && !r@.contains(authors@[k])
                ==> churn_precedes(r@[i], authors@[k]),
        metric == AuthorMetric::Commits ==> forall|i: int, j: int|
            #![trigger r@[i], r@[j]]
            0 <= i < j < r@.len() ==> r@[j].commits <= r@[i].commits && (r@[j].commits
                == r@[i].commits ==> r@[j].adds + r@[j].dels <= r@[i].adds + r@[i].dels),
        metric == AuthorMetric::Churn ==> forall|i: int, j: int|
            #![trigger r@[i], r@[j]]
            0 <= i < j < r@.len() ==> r@[j].adds + r@[j].dels <= r@[i].adds + r@[i].dels && (r@[j].adds
                + r@[j].dels == r@[i].adds + r@[i].dels ==> r@[j].commits <= r@[i].commits),
        metric == AuthorMetric::Churn ==> forall|k: int, i: int|
            #![trigger authors@[k], r@[i]]
            0 <= k < authors@.len() && 0 <= i < r@.len() && !r@.contains(authors@[k])
                ==> authors@[k].adds + authors@[k].dels <= r@[i].adds + r@[i].dels,
{
    let mut v = authors;
    match metric {
        AuthorMetric::Commits => {
            v.truncate(top);
            proof {
                assert(v@ =~= authors@.subrange(0, v@.len() as int));
                assert forall|i: int| 0 <= i < v@.len() implies authors@.contains(#[trigger] v@[i]) by {
                    assert(authors@[i] == v@[i]);
                }
                lemma_commit_ranking(authors@);
                assert forall|i: int, j: int|
                    #![trigger v@[i], v@[j]]
                    0 <= i < j < v@.len() implies v@[j].commits <= v@[i].commits && (v@[j].commits
                        == v@[i].commits ==> v@[j].adds + v@[j].dels <= v@[i].adds + v@[i].dels) by {
                    assert(v@[i] == authors@[i] && v@[j] == authors@[j]);
                }
            }
            v
        },
        AuthorMetric::Churn => {
            let mut w: Vec<ByChurn> = Vec::new();
            while v.len() > 0
                invariant
                    stats_of(w@) + v@ == authors@,
                decreases v.len(),
            {
                let ghost before_w = w@;
                let ghost before_v = v@;
                let x = v.remove(0);
                w.push(ByChurn { stats: x });
                proof {
                    assert(stats_of(w@) =~= stats_of(before_w).push(x));
                    assert(stats_of(w@) + v@ =~= stats_of(before_w) + before_v);
                }
            }
            proof {
                assert(stats_of(w@) =~= authors@);
            }
            let ghost unsorted = w@;
            sort_ranked(&mut w);
            let ghost sorted = w@;
            proof {
                lemma_permutation_members(unsorted, sorted);
                lemma_permutation_members(sorted, unsorted);
            }
            w.truncate(top);
            let ghost kept = w@;
            let mut out: Vec<AuthorStats> = Vec::new();
            while w.len() > 0
                invariant
                    out@ + stats_of(w@) == stats_of(kept),
                decreases w.len(),
            {
                let ghost before_w = w@;
                let ghost before_o = out@;
                let b = w.remove(0);
                out.push(b.stats);
                proof {
                    assert(stats_of(before_w) =~= seq![b.stats] + stats_of(w@));
                    assert(out@ + stats_of(w@) =~= before_o + stats_of(before_w));
                }
            }
            proof {
                assert(out@ =~= stats_of(kept));
                assert forall|i: int| 0 <= i < kept.len() implies kept[i] == sorted[i] by {}
                assert forall|i: int| 0 <= i < out@.len() implies authors@.contains(#[trigger] out@[i]) by {
                    assert(out@[i] == kept[i].stats);
                    assert(unsorted.contains(sorted[i]));
                    let p = choose|p: int| 0 <= p < unsorted.len() && unsorted[p] == sorted[i];
                    assert(authors@[p] == unsorted[p].stats);
                }
                assert forall|a: int, b: int|
                    0 <= a < b < out@.len() implies churn_precedes(#[trigger] out@[a], #[trigger] out@[b]) by {
                    assert(out@[a] == sorted[a].stats);
                    assert(out@[b] == sorted[b].stats);
                    assert(sorted[a].precedes(&sorted[b]));
                }
                assert forall|a: int, b: int|
                    0 <= a < b < out@.len() implies (#[trigger] out@[a]).author@ != (#[trigger] out@[b]).author@ by {
                    let p = choose|p: int| 0 <= p < unsorted.len() && unsorted[p] == sorted[a];
                    let q = choose|q: int| 0 <= q < unsorted.len() && unsorted[q] == sorted[b];
                    assert(unsorted.no_duplicates()) by {
                        assert forall|x: int, y: int|
                            0 <= x < unsorted.len() && 0 <= y < unsorted.len() && x != y implies unsorted[x]
                            != unsorted[y] by {
                            assert(authors@[x] == unsorted[x].stats);
                            assert(authors@[y] == unsorted[y].stats);
                            if x < y {
                                assert(authors@[x].author@ != authors@[y].author@);
                            } else {
                                assert(authors@[y].author@ != authors@[x].author@);
                            }
                        }
                    }
                    assert(authors@[p] == unsorted[p].stats);
                    assert(authors@[q] == unsorted[q].stats);
                    if p != q {
                        if p < q {
                            assert(authors@[p].author@ != authors@[q].author@);
                        } else {
                            assert(authors@[q].author@ != authors@[p].author@);
                        }
                    }
                }
                assert forall|k: int, i: int|
                    #![trigger authors@[k], out@[i]]
                    0 <= k < authors@.len() && 0 <= i < out@.len() && !out@.contains(authors@[k])
                        implies churn_precedes(out@[i], authors@[k]) by {
                    assert(authors@[k] == unsorted[k].stats);
                    assert(sorted.contains(unsorted[k]));
                    let m = choose|m: int| 0 <= m < sorted.len() && sorted[m] == unsorted[k];
                    if m < out@.len() {
                        assert(out@[m] == sorted[m].stats);
                    }
                    assert(out@[i] == sorted[i].stats);
                    assert(sorted[i].precedes(&sorted[m]));
                }
                lemma_churn_ranking(out@);
            }
            out
        },
    }
}

} // verus!
