//! Branch activity: the commits of a branch that its base lacks, and what
//! they changed.
use vstd::prelude::*;

use crate::sorting::{is_stable_arrangement, sort_ranked, Ranked};
use crate::stats::{in_window, within_window};

verus! {

/// One commit reachable from a branch but not from its base: its time, its
/// number of parents, and its lines added and deleted against its first
/// parent where the diff could be computed.
#[derive(Debug, Clone, Copy)]
pub struct BranchCommit {
    pub ts: i64,
    pub parents: u32,
    pub churn: Option<(u64, u64)>,
}

/// The activity of a branch in the window. The merge ratio is
/// `merge_commits / ratio_base` in floating point (0 where the base is 0).
#[derive(Debug, Clone, Copy, PartialEq, Eq, Structural)]
pub struct BranchActivity {
    pub commits: u64,
    pub merge_commits: u64,
    pub adds: u64,
    pub dels: u64,
    /// The counted commits, plus the merges again where merges are counted.
    pub ratio_base: u64,
}

/// Commits in the window that are merges.
pub open spec fn window_merges(s: Seq<BranchCommit>, since: Option<i64>, until: Option<i64>) -> nat
    decreases s.len(),
{
    if s.len() == 0 {
        0
    } else {
        window_merges(s.drop_last(), since, until) + if in_window(s.last().ts, since, until)
            && s.last().parents > 1 {
            1nat
        } else {
            0nat
        }
    }
}

pub open spec fn branch_counted(c: BranchCommit, since: Option<i64>, until: Option<i64>, no_merges: bool) -> bool {
    in_window(c.ts, since, until) && !(no_merges && c.parents > 1)
}

/// Commits in the window, merges left out where excluded.
pub open spec fn window_commits(
    s: Seq<BranchCommit>,
    since: Option<i64>,
    until: Option<i64>,
    no_merges: bool,
) -> nat
    decreases s.len(),
{
    if s.len() == 0 {
        0
    } else {
        window_commits(s.drop_last(), since, until, no_merges) + if branch_counted(
            s.last(),
            since,
            until,
            no_merges,
        ) {
            1nat
        } else {
            0nat
        }
    }
}

/// Lines added by the counted commits whose diff is known.
pub open spec fn window_adds(
    s: Seq<BranchCommit>,
    since: Option<i64>,
    until: Option<i64>,
    no_merges: bool,
) -> nat
    decreases s.len(),
{
    if s.len() == 0 {
        0
    } else {
        window_adds(s.drop_last(), since, until, no_merges) + match s.last().churn {
            Some(c) if branch_counted(s.last(), since, until, no_merges) => c.0 as nat,
            _ => 0nat,
        }
    }
}

/// Lines deleted by the counted commits whose diff is known.
pub open spec fn window_dels(
    s: Seq<BranchCommit>,
    since: Option<i64>,
    until: Option<i64>,
    no_merges: bool,
) -> nat
    decreases s.len(),
{
    if s.len() == 0 {
        0
    } else {
        window_dels(s.drop_last(), since, until, no_merges) + match s.last().churn {
            Some(c) if branch_counted(s.last(), since, until, no_merges) => c.1 as nat,
            _ => 0nat,
        }
    }
}

/// Commits of a branch in the window: with merges counted they are all the
/// commits whose time lies in the window, and leaving merges out removes
/// exactly the merges in the window.
pub proof fn lemma_branch_merges_partition(s: Seq<BranchCommit>, since: Option<i64>, until: Option<i64>)
    ensures
        window_commits(s, since, until, false) == s.filter(
            |c: BranchCommit| in_window(c.ts, since, until),
        ).len(),
        window_commits(s, since, until, false) == window_commits(s, since, until, true)
            + window_merges(s, since, until),
        window_merges(s, since, until) == s.filter(
            |c: BranchCommit| in_window(c.ts, since, until) && c.parents > 1,
        ).len(),
    decreases s.len(),
{
    reveal(Seq::filter);
    if s.len() > 0 {
        lemma_branch_merges_partition(s.drop_last(), since, until);
    }
}

proof fn lemma_branch_prefix(
    s: Seq<BranchCommit>,
    n: int,
    since: Option<i64>,
    until: Option<i64>,
    no_merges: bool,
)
    requires
        0 <= n <= s.len(),
    ensures
        window_adds(s.subrange(0, n), since, until, no_merges) <= window_adds(s, since, until, no_merges),
        window_dels(s.subrange(0, n), since, until, no_merges) <= window_dels(s, since, until, no_merges),
        window_commits(s.subrange(0, n), since, until, no_merges) + window_merges(s.subrange(0, n), since, until)
            <= window_commits(s, since, until, no_merges) + window_merges(s, since, until),
    decreases s.len(),
{
    if n == s.len() {
        assert(s.subrange(0, n) =~= s);
    } else {
        let t = s.drop_last();
        assert(t.subrange(0, n) =~= s.subrange(0, n));
        lemma_branch_prefix(t, n, since, until, no_merges);
    }
}

/// The activity of a branch over its commits in the window `[since,
/// until]`: merges in the window are counted, and left out of the commits
/// and lines where `no_merges`.
pub fn compute_branch_activity(
    commits: &[BranchCommit],
    since: Option<i64>,
    until: Option<i64>,
    no_merges: bool,
) -> (a: BranchActivity)
    requires
        window_adds(commits@, since, until, no_merges) <= u64::MAX,
        window_dels(commits@, since, until, no_merges) <= u64::MAX,
        window_commits(commits@, since, until, no_merges) + window_merges(commits@, since, until)
            <= u64::MAX,
    ensures
        a.commits == window_commits(commits@, since, until, no_merges),
        a.merge_commits == window_merges(commits@, since, until),
        a.adds == window_adds(commits@, since, until, no_merges),
        a.dels == window_dels(commits@, since, until, no_merges),
        a.ratio_base == a.commits + if no_merges {
            0
        } else {
            a.merge_commits
        },
{
    let mut a = BranchActivity { commits: 0, merge_commits: 0, adds: 0, dels: 0, ratio_base: 0 };
    let mut i: usize = 0;
    while i < commits.len()
        invariant
            i <= commits.len(),
            window_adds(commits@, since, until, no_merges) <= u64::MAX,
            window_dels(commits@, since, until, no_merges) <= u64::MAX,
            window_commits(commits@, since, until, no_merges) + window_merges(commits@, since, until)
                <= u64::MAX,
            a.commits == window_commits(commits@.subrange(0, i as int), since, until, no_merges),
            a.merge_commits == window_merges(commits@.subrange(0, i as int), since, until),
            a.adds == window_adds(commits@.subrange(0, i as int), since, until, no_merges),
            a.dels == window_dels(commits@.subrange(0, i as int), since, until, no_merges),
        decreases commits.len() - i,
    {
        proof {
            let next = commits@.subrange(0, i + 1);
            assert(next.drop_last() =~= commits@.subrange(0, i as int));
            assert(next.last() == commits@[i as int]);
            lemma_branch_prefix(commits@, i + 1, since, until, no_merges);
        }
        let c = commits[i];
        if within_window(c.ts, since, until) {
            let is_merge = c.parents > 1;
            if is_merge {
                a.merge_commits = a.merge_commits + 1;
            }
            if !(no_merges && is_merge) {
                a.commits = a.commits + 1;
                if let Some((adds, dels)) = c.churn {
                    a.adds = a.adds + adds;
                    a.dels = a.dels + dels;
                }
            }
        }
        i += 1;
    }
    proof {
        assert(commits@.subrange(0, commits@.len() as int) =~= commits@);
    }
    a.ratio_base = a.commits + if no_merges {
        0
    } else {
        a.merge_commits
    };
    a
}

/// A branch's number of commits and its position among the branches as
/// read; the listing puts more commits first.
impl Ranked for (u64, usize) {
    open spec fn precedes(&self, other: &Self) -> bool {
        self.0 >= other.0
    }

    fn ranks_before(&self, other: &Self) -> (b: bool) {
        self.0 >= other.0
    }

    proof fn lemma_total(a: &Self, b: &Self) {
    }

    proof fn lemma_transitive(a: &Self, b: &Self, c: &Self) {
    }
}

/// The order in which the branches are listed, as positions into
/// `commits` (each branch's number of commits): every position once, most
/// commits first, branches with equally many in the order given.
pub fn branch_order(commits: &[u64]) -> (r: Vec<usize>)
    ensures
        r@.len() == commits@.len(),
        forall|k: int| #![trigger r@[k]] 0 <= k < r@.len() ==> r@[k] < commits@.len(),
        forall|k: int, l: int| #![trigger r@[k], r@[l]] 0 <= k < l < r@.len() ==> r@[k] != r@[l],
        forall|k: int, l: int|
            #![trigger r@[k], r@[l]]
            0 <= k < l < r@.len() ==> commits@[r@[k] as int] > commits@[r@[l] as int] || (
            commits@[r@[k] as int] == commits@[r@[l] as int] && r@[k] < r@[l]),
{
    let n = commits.len();
    let mut v: Vec<(u64, usize)> = Vec::new();
    let mut i: usize = 0;
    while i < n
        invariant
            n == commits@.len(),
            i <= n,
            v@.len() == i,
            forall|j: int| #![trigger v@[j]] 0 <= j < i ==> v@[j] == (commits@[j], j as usize),
        decreases n - i,
    {
        v.push((commits[i], i));
        i += 1;
    }
    let ghost inp = v@;
    sort_ranked(&mut v);
    let ghost out = v@;
    let ghost idx = choose|idx: Seq<int>| is_stable_arrangement(out, inp, idx);
    proof {
        assert forall|k: int| #![trigger out[k]] 0 <= k < out.len() implies out[k].1 == idx[k]
            && out[k].0 == commits@[idx[k]] && 0 <= idx[k] < n by {
            assert(out[k] == inp[idx[k]]);
        }
    }
    let mut r: Vec<usize> = Vec::new();
    let mut k: usize = 0;
    while k < n
        invariant
            n == commits@.len(),
            out == v@,
            out.len() == n,
            k <= n,
            r@.len() == k,
            forall|j: int| #![trigger r@[j]] 0 <= j < k ==> r@[j] == out[j].1,
        decreases n - k,
    {
        r.push(v[k].1);
        k += 1;
    }
    proof {
        assert forall|a: int, b: int| #![trigger r@[a], r@[b]] 0 <= a < b < r@.len() implies r@[a]
            != r@[b] && (commits@[r@[a] as int] > commits@[r@[b] as int] || (commits@[r@[a] as int]
            == commits@[r@[b] as int] && r@[a] < r@[b])) by {
            assert(r@[a] == out[a].1 && r@[b] == out[b].1);
            assert(out[a].precedes(&out[b]));
            assert(idx[a] != idx[b]);
            if out[b].precedes(&out[a]) {
                assert(idx[a] < idx[b]);
            }
        }
    }
    r
}

} // verus!
