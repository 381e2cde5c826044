//! Releases: the repository's tags, newest first, with the commits and
//! changed lines between each and the one before it.
use vstd::prelude::*;

use crate::clock::trunc_div;
use crate::stats::coupling::{lemma_path_less_total, lemma_path_less_transitive, path_less, str_less};
use crate::sorting::{
    is_stable_arrangement, lemma_permutation_members, sort_ranked, sorted_by_rank, Ranked,
};

verus! {

/// How a tag was made.
#[derive(Copy, Clone, Debug, PartialEq, Eq, Structural)]
pub enum TagType {
    Lightweight,
    Annotated,
}

/// A tag as read from the repository: its name without `refs/tags/`, its
/// kind, its date (the tagger's for an annotated tag, the commit's for a
/// lightweight one), tagger name and message where annotated, and the
/// object it points to.
#[derive(Debug, Clone)]
pub struct TagInfo {
    pub name: String,
    pub tag_type: TagType,
    pub date: i64,
    pub tagger: Option<String>,
    pub message: Option<String>,
    pub target_oid: String,
}

/// What the history gives for a tag once the tags are ordered: the commits
/// reachable from it, and the commits and changed lines since the previous
/// (newer-ordered) tag, or, for the first tag, since the start of history.
#[derive(Debug, Clone, Copy, PartialEq, Eq, Structural)]
pub struct TagCounts {
    pub commits_total: u32,
    pub commits_since_previous: u32,
    pub churn_adds: u32,
    pub churn_dels: u32,
}

impl TagCounts {
    /// The counts of a tag from what the history gave: `between` is the
    /// number of commits since the release it is compared with, absent for
    /// the oldest release, which counts every commit reachable from it.
    pub fn new(commits_total: u32, between: Option<u32>, churn_adds: u32, churn_dels: u32) -> (c:
        TagCounts)
        ensures
            c.commits_total == commits_total,
            c.commits_since_previous == match between {
                Some(b) => b,
                None => commits_total,
            },
            c.churn_adds == churn_adds,
            c.churn_dels == churn_dels,
    {
        let commits_since_previous = match between {
            Some(b) => b,
            None => commits_total,
        };
        TagCounts { commits_total, commits_since_previous, churn_adds, churn_dels }
    }
}

/// One release of the report.
#[derive(Debug, Clone)]
pub struct Release {
    pub name: String,
    pub tag_type: TagType,
    pub date: i64,
    pub commits: u32,
    pub commits_since_previous: u32,
    pub churn_adds: u32,
    pub churn_dels: u32,
    pub churn_total: u32,
    pub days_since_previous: u32,
    pub tagger: Option<String>,
    pub message: Option<String>,
    pub commit_oid: String,
}

/// Newer tags first; of tags with the same date, the greater name first
/// (later versions carry greater names), so that the next tag in the order
/// is the release before.
impl Ranked for TagInfo {
    open spec fn precedes(&self, other: &Self) -> bool {
        self.date > other.date || (self.date == other.date && !path_less(self.name@, other.name@))
    }

    fn ranks_before(&self, other: &Self) -> (b: bool) {
        if self.date != other.date {
            self.date > other.date
        } else {
            !str_less(&self.name, &other.name)
        }
    }

    proof fn lemma_total(a: &Self, b: &Self) {
        lemma_path_less_total(a.name@, b.name@);
    }

    proof fn lemma_transitive(a: &Self, b: &Self, c: &Self) {
        if a.date == b.date && b.date == c.date && path_less(a.name@, c.name@) {
            lemma_path_less_total(a.name@, b.name@);
            if a.name@ != b.name@ {
                lemma_path_less_transitive(b.name@, a.name@, c.name@);
            }
        }
    }
}

/// The tag order: a tag listed earlier is dated no earlier than one listed
/// later, and of two tags of the same date the earlier-listed name is not
/// the smaller one.
pub proof fn lemma_tags_newest_first(r: Seq<TagInfo>)
    requires
        sorted_by_rank(r),
    ensures
        forall|i: int, j: int|
            #![trigger r[i], r[j]]
            0 <= i < j < r.len() ==> r[j].date <= r[i].date && (r[j].date == r[i].date
                ==> !path_less(r[i].name@, r[j].name@)),
{
    assert forall|i: int, j: int|
        #![trigger r[i], r[j]]
        0 <= i < j < r.len() implies r[j].date <= r[i].date && (r[j].date == r[i].date
            ==> !path_less(r[i].name@, r[j].name@)) by {
        assert(r[i].precedes(&r[j]));
    }
}

/// The tags newest first, cut to `limit` where one is given: the kept tags
/// are tags of the input, no date of a left-out tag is later than any kept
/// one, and each tag is kept at most as often as it occurs. Tags of equal
/// date come greater name first, and equal tags keep their input order:
/// the result is the first tags of a stable arrangement of the input.
pub fn order_tags(tags: Vec<TagInfo>, limit: Option<usize>) -> (r: Vec<TagInfo>)
    ensures
        sorted_by_rank(r@),
        forall|i: int, j: int|
            #![trigger r@[i], r@[j]]
            0 <= i < j < r@.len() ==> r@[j].date <= r@[i].date && (r@[j].date == r@[i].date
                ==> !path_less(r@[i].name@, r@[j].name@)),
        exists|all: Seq<TagInfo>, idx: Seq<int>|
            #![trigger is_stable_arrangement(all, tags@, idx)]
            sorted_by_rank(all) && is_stable_arrangement(all, tags@, idx) && r@ == all.subrange(
                0,
                r@.len() as int,
            ),
        r@.len() == match limit {
            Some(n) => if n < tags@.len() {
                n as int
            } else {
                tags@.len() as int
            },
            None => tags@.len() as int,
        },
        r@.to_multiset().subset_of(tags@.to_multiset()),
        forall|i: int| 0 <= i < r@.len() ==> tags@.contains(#[trigger] r@[i]),
        forall|x: TagInfo, i: int|
            #![trigger tags@.to_multiset().count(x), r@[i]]
            0 <= i < r@.len() && tags@.to_multiset().count(x) > r@.to_multiset().count(x)
                ==> x.date <= r@[i].date,
{
    let mut v = tags;
    let ghost input = v@;
    sort_ranked(&mut v);
    let ghost sorted = v@;
    proof {
        lemma_permutation_members(input, sorted);
    }
    let n = match limit {
        Some(n) => n,
        None => v.len(),
    };
    v.truncate(n);
    proof {
        let k = v@.len() as int;
        assert(v@ =~= sorted.subrange(0, k));
        let idx = choose|idx: Seq<int>| is_stable_arrangement(sorted, input, idx);
        assert(is_stable_arrangement(sorted, input, idx));
        assert(sorted =~= v@ + sorted.subrange(k, sorted.len() as int));
        vstd::seq_lib::lemma_multiset_commutative(v@, sorted.subrange(k, sorted.len() as int));
        assert forall|x: TagInfo, i: int|
            #![trigger input.to_multiset().count(x), v@[i]]
            0 <= i < v@.len() && input.to_multiset().count(x) > v@.to_multiset().count(x) implies x.date
            <= v@[i].date by {
            let rest = sorted.subrange(k, sorted.len() as int);
            assert(rest.to_multiset().count(x) > 0);
            vstd::seq_lib::to_multiset_contains(rest, x);
            let j = choose|j: int| 0 <= j < rest.len() && rest[j] == x;
            assert(sorted[k + j] == x);
            assert(sorted[i] == v@[i]);
            assert(sorted[i].precedes(&sorted[k + j]));
        }
        assert forall|i: int| 0 <= i < v@.len() implies input.contains(#[trigger] v@[i]) by {
            assert(sorted[i] == v@[i]);
        }
        assert(v@.to_multiset().subset_of(input.to_multiset()));
        assert forall|a: int, b: int|
            #![trigger v@[a], v@[b]]
            0 <= a < b < v@.len() implies v@[a].precedes(&v@[b]) by {
            assert(sorted[a] == v@[a]);
            assert(sorted[b] == v@[b]);
        }
        lemma_tags_newest_first(v@);
    }
    v
}

/// Each release with the release it is compared with: the next tag in the
/// order (the next older one), none for the last. Commits and churn "since
/// the previous release" are counted from the tag back to that one.
pub fn release_pairs(tags: &[TagInfo]) -> (r: Vec<(String, Option<String>)>)
    ensures
        r@.len() == tags@.len(),
        forall|i: int|
            #![trigger r@[i]]
            0 <= i < r@.len() ==> r@[i].0@ == tags@[i].target_oid@ && match r@[i].1 {
                Some(p) => i + 1 < tags@.len() && p@ == tags@[i + 1].target_oid@,
                None => i + 1 == tags@.len(),
            },
{
    let mut r: Vec<(String, Option<String>)> = Vec::new();
    let mut i: usize = 0;
    while i < tags.len()
        invariant
            i <= tags.len(),
            r@.len() == i,
            forall|j: int|
                #![trigger r@[j]]
                0 <= j < i ==> r@[j].0@ == tags@[j].target_oid@ && match r@[j].1 {
                    Some(p) => j + 1 < tags@.len() && p@ == tags@[j + 1].target_oid@,
                    None => j + 1 == tags@.len(),
                },
        decreases tags.len() - i,
    {
        let previous = if i + 1 < tags.len() {
            Some(tags[i + 1].target_oid.clone())
        } else {
            None
        };
        r.push((tags[i].target_oid.clone(), previous));
        i += 1;
    }
    r
}

/// Whole days from the previous (newer) tag to this one, for every tag but
/// the first and the last; 0 for those two.
pub open spec fn days_since_previous_of(tags: Seq<TagInfo>, i: int) -> u32 {
    if 0 < i && i < tags.len() - 1 {
        trunc_div(tags[i - 1].date - tags[i].date, 86_400) as u32
    } else {
        0u32
    }
}

pub open spec fn opt_string_view(o: Option<String>) -> Option<Seq<char>> {
    match o {
        Some(s) => Some(s@),
        None => None,
    }
}

/// `r` is the release made of tag `t` with counts `c` at position `i` of
/// the ordered tags.
pub open spec fn is_release(r: Release, tags: Seq<TagInfo>, c: TagCounts, i: int) -> bool {
    let t = tags[i];
    &&& r.name@ == t.name@
    &&& r.tag_type == t.tag_type
    &&& r.date == t.date
    &&& r.commits == c.commits_total
    &&& r.commits_since_previous == c.commits_since_previous
    &&& r.churn_adds == c.churn_adds
    &&& r.churn_dels == c.churn_dels
    &&& r.churn_total == c.churn_adds + c.churn_dels
    &&& r.days_since_previous == days_since_previous_of(tags, i)
    &&& opt_string_view(r.tagger) == opt_string_view(t.tagger)
    &&& opt_string_view(r.message) == opt_string_view(t.message)
    &&& r.commit_oid@ == t.target_oid@
}

fn copy_opt_string(o: &Option<String>) -> (r: Option<String>)
    ensures
        opt_string_view(r) == opt_string_view(*o),
{
    match o {
        Some(s) => Some(s.clone()),
        None => None,
    }
}

/// Days between consecutive releases, newest first: a release strictly
/// between the first and the last is given the whole days from the date of
/// the release just before it (the next newer one) to its own date, where
/// that is not negative and fits `u32`; the first and the last are given 0.
pub proof fn lemma_days_between_neighbours(r: Seq<Release>, tags: Seq<TagInfo>, counts: Seq<TagCounts>)
    requires
        r.len() == tags.len(),
        forall|i: int| 0 <= i < r.len() ==> is_release(#[trigger] r[i], tags, counts[i], i),
    ensures
        forall|i: int|
            #![trigger r[i]]
            0 < i < r.len() - 1 && r[i].date <= r[i - 1].date && r[i - 1].date - r[i].date
                < 86_400 * 4_294_967_296 ==> r[i].days_since_previous * 86_400 <= r[i - 1].date
                - r[i].date < r[i].days_since_previous * 86_400 + 86_400,
        r.len() > 0 ==> r[0].days_since_previous == 0 && r[r.len() - 1].days_since_previous == 0,
{
    assert forall|i: int|
        #![trigger r[i]]
        0 < i < r.len() - 1 && r[i].date <= r[i - 1].date && r[i - 1].date - r[i].date
            < 86_400 * 4_294_967_296 implies r[i].days_since_previous * 86_400 <= r[i - 1].date
            - r[i].date < r[i].days_since_previous * 86_400 + 86_400 by {
        assert(is_release(r[i - 1], tags, counts[i - 1], i - 1));
        assert(is_release(r[i], tags, counts[i], i));
        let d = tags[i - 1].date - tags[i].date;
        let q = d / 86_400;
        assert(0 <= q < 4_294_967_296 && q * 86_400 <= d < q * 86_400 + 86_400) by (nonlinear_arith)
            requires
                0 <= d < 86_400 * 4_294_967_296,
                q == d / 86_400,
        ;
        assert(r[i].days_since_previous == q);
    }
    if r.len() > 0 {
        assert(is_release(r[0], tags, counts[0], 0));
        assert(is_release(r[r.len() - 1], tags, counts[r.len() - 1], r.len() - 1));
    }
}

/// The releases of the ordered tags with their counts.
pub fn assemble_releases(tags: &[TagInfo], counts: &[TagCounts]) -> (r: Vec<Release>)
    requires
        tags.len() == counts.len(),
        forall|i: int| 0 <= i < counts.len() ==> #[trigger] counts@[i].churn_adds + counts@[i].churn_dels <= u32::MAX,
        forall|i: int|
            0 < i < tags.len() ==> i64::MIN <= #[trigger] tags@[i - 1].date - tags@[i].date <= i64::MAX,
    ensures
        r@.len() == tags.len(),
        forall|i: int| 0 <= i < r@.len() ==> is_release(#[trigger] r@[i], tags@, counts@[i], i),
        forall|i: int|
            #![trigger r@[i]]
            0 < i < r@.len() - 1 && tags@[i].date <= tags@[i - 1].date && tags@[i - 1].date
                - tags@[i].date < 86_400 * 4_294_967_296 ==> r@[i].days_since_previous * 86_400
                <= tags@[i - 1].date - tags@[i].date < r@[i].days_since_previous * 86_400 + 86_400,
        r@.len() > 0 ==> r@[0].days_since_previous == 0 && r@[r@.len() - 1].days_since_previous
            == 0,
{
    let mut r: Vec<Release> = Vec::new();
    let mut i: usize = 0;
    while i < tags.len()
        invariant
            i <= tags.len(),
            tags.len() == counts.len(),
            r@.len() == i,
            forall|k: int| 0 <= k < counts.len() ==> #[trigger] counts@[k].churn_adds + counts@[k].churn_dels <= u32::MAX,
            forall|k: int|
                0 < k < tags.len() ==> i64::MIN <= #[trigger] tags@[k - 1].date - tags@[k].date <= i64::MAX,
            forall|k: int| 0 <= k < i ==> is_release(#[trigger] r@[k], tags@, counts@[k], k),
        decreases tags.len() - i,
    {
        let t = &tags[i];
        let c = counts[i];
        let days: u32 = if 0 < i && i < tags.len() - 1 {
            proof {
                assert(i64::MIN <= tags@[i - 1].date - tags@[i as int].date <= i64::MAX);
            }
            let d: i64 = (tags[i - 1].date - t.date) / 86_400;
            #[verifier::truncate]
            (d as u32)
        } else {
            0
        };
        r.push(
            Release {
                name: t.name.clone(),
                tag_type: t.tag_type,
                date: t.date,
                commits: c.commits_total,
                commits_since_previous: c.commits_since_previous,
                churn_adds: c.churn_adds,
                churn_dels: c.churn_dels,
                churn_total: c.churn_adds + c.churn_dels,
                days_since_previous: days,
                tagger: copy_opt_string(&t.tagger),
                message: copy_opt_string(&t.message),
                commit_oid: t.target_oid.clone(),
            },
        );
        i += 1;
    }
    proof {
        lemma_days_between_neighbours(r@, tags@, counts@);
        assert forall|i: int| #![trigger r@[i]] 0 < i < r@.len() - 1 implies r@[i].date
            == tags@[i].date && r@[i - 1].date == tags@[i - 1].date by {
            assert(is_release(r@[i], tags@, counts@[i], i));
            assert(is_release(r@[i - 1], tags@, counts@[i - 1], i - 1));
        }
    }
    r
}

/// Whole days from the oldest release to the newest, for two or more
/// releases; 0 otherwise.
pub fn release_date_range_days(releases: &[Release]) -> (d: u32)
    requires
        releases.len() >= 2 ==> i64::MIN <= releases@[0].date - releases@[releases.len() - 1].date
            <= i64::MAX,
    ensures
        d == if releases.len() >= 2 {
            trunc_div(releases@[0].date - releases@[releases.len() - 1].date, 86_400) as u32
        } else {
            0u32
        },
{
    if releases.len() >= 2 {
        let first_date = releases[releases.len() - 1].date;
        let last_date = releases[0].date;
        let days: i64 = (last_date - first_date) / 86_400;
        #[verifier::truncate]
        (days as u32)
    } else {
        0
    }
}

pub open spec fn sum_since_previous(r: Seq<Release>) -> int
    decreases r.len(),
{
    if r.len() == 0 {
        0
    } else {
        sum_since_previous(r.drop_last()) + r.last().commits_since_previous
    }
}

pub open spec fn sum_churn(r: Seq<Release>) -> int
    decreases r.len(),
{
    if r.len() == 0 {
        0
    } else {
        sum_churn(r.drop_last()) + r.last().churn_total
    }
}

pub open spec fn sum_days(r: Seq<Release>) -> int
    decreases r.len(),
{
    if r.len() == 0 {
        0
    } else {
        sum_days(r.drop_last()) + r.last().days_since_previous
    }
}

/// The integer side of the release summary: the sums of commits since the
/// previous release, of changed lines and of days between releases, and
/// the names of the releases with the most commits and the most changed
/// lines (the last of them where several tie). The averages are computed
/// from these sums in floating point.
#[derive(Debug, Clone)]
pub struct ReleaseTotals {
    pub total_commits: u32,
    pub total_churn: u32,
    pub total_days: u32,
    pub most_active_release: Option<String>,
    pub largest_churn_release: Option<String>,
}

proof fn lemma_sums_prefix(r: Seq<Release>, n: int)
    requires
        0 <= n <= r.len(),
    ensures
        0 <= sum_since_previous(r.subrange(0, n)) <= sum_since_previous(r),
        0 <= sum_churn(r.subrange(0, n)) <= sum_churn(r),
        0 <= sum_days(r.subrange(0, n)) <= sum_days(r),
    decreases r.len(),
{
    if n == r.len() {
        assert(r.subrange(0, n) =~= r);
        if r.len() > 0 {
            lemma_sums_prefix(r.drop_last(), 0);
            assert(r.drop_last().subrange(0, 0) =~= Seq::<Release>::empty());
        }
    } else {
        let t = r.drop_last();
        assert(t.subrange(0, n) =~= r.subrange(0, n));
        lemma_sums_prefix(t, n);
    }
}

fn release_sums(releases: &[Release]) -> (r: (u32, u32, u32))
    requires
        sum_since_previous(releases@) <= u32::MAX,
        sum_churn(releases@) <= u32::MAX,
        sum_days(releases@) <= u32::MAX,
    ensures
        r.0 == sum_since_previous(releases@),
        r.1 == sum_churn(releases@),
        r.2 == sum_days(releases@),
{
    let mut commits: u32 = 0;
    let mut churn: u32 = 0;
    let mut days: u32 = 0;
    let mut i: usize = 0;
    while i < releases.len()
        invariant
            i <= releases.len(),
            sum_since_previous(releases@) <= u32::MAX,
            sum_churn(releases@) <= u32::MAX,
            sum_days(releases@) <= u32::MAX,
            commits == sum_since_previous(releases@.subrange(0, i as int)),
            churn == sum_churn(releases@.subrange(0, i as int)),
            days == sum_days(releases@.subrange(0, i as int)),
        decreases releases.len() - i,
    {
        proof {
            let next = releases@.subrange(0, i + 1);
            assert(next.drop_last() =~= releases@.subrange(0, i as int));
            assert(next.last() == releases@[i as int]);
            lemma_sums_prefix(releases@, i + 1);
        }
        let r = &releases[i];
        commits = commits + r.commits_since_previous;
        churn = churn + r.churn_total;
        days = days + r.days_since_previous;
        i += 1;
    }
    proof {
        assert(releases@.subrange(0, releases@.len() as int) =~= releases@);
    }
    (commits, churn, days)
}

/// `k` holds a largest value of `v`, and every later position a smaller
/// one: the element that `max_by_key` picks.
pub open spec fn last_max_at(v: Seq<u32>, k: int) -> bool {
    &&& forall|j: int| 0 <= j < v.len() ==> #[trigger] v[j] <= v[k]
    &&& forall|j: int| k < j < v.len() ==> #[trigger] v[j] < v[k]
}

/// The position of the last largest of `v`, as `max_by_key` picks it.
fn last_max_index(v: &Vec<u32>) -> (k: usize)
    requires
        v.len() > 0,
    ensures
        k < v.len(),
        forall|j: int| 0 <= j < v.len() ==> #[trigger] v@[j] <= v@[k as int],
        forall|j: int| k < j < v.len() ==> #[trigger] v@[j] < v@[k as int],
{
    let mut k: usize = 0;
    let mut i: usize = 1;
    while i < v.len()
        invariant
            1 <= i <= v.len(),
            k < i,
            forall|j: int| 0 <= j < i ==> #[trigger] v@[j] <= v@[k as int],
            forall|j: int| k < j < i ==> #[trigger] v@[j] < v@[k as int],
        decreases v.len() - i,
    {
        if v[i] >= v[k] {
            k = i;
        }
        i += 1;
    }
    k
}

/// The summary sums and the most active and largest releases.
pub fn release_totals(releases: &[Release]) -> (t: ReleaseTotals)
    requires
        sum_since_previous(releases@) <= u32::MAX,
        sum_churn(releases@) <= u32::MAX,
        sum_days(releases@) <= u32::MAX,
    ensures
        t.total_commits == sum_since_previous(releases@),
        t.total_churn == sum_churn(releases@),
        t.total_days == sum_days(releases@),
        releases.len() == 0 ==> t.most_active_release is None && t.largest_churn_release is None,
        releases.len() > 0 ==> exists|k: int|
            0 <= k < releases.len() && t.most_active_release == Some(releases@[k].name)
                && last_max_at(releases@.map_values(|r: Release| r.commits_since_previous), k),
        releases.len() > 0 ==> exists|k: int|
            0 <= k < releases.len() && t.largest_churn_release == Some(releases@[k].name)
                && last_max_at(releases@.map_values(|r: Release| r.churn_total), k),
{
    let (commits, churn, days) = release_sums(releases);
    if releases.len() == 0 {
        return ReleaseTotals {
            total_commits: commits,
            total_churn: churn,
            total_days: days,
            most_active_release: None,
            largest_churn_release: None,
        };
    }
    let mut by_commits: Vec<u32> = Vec::new();
    let mut by_churn: Vec<u32> = Vec::new();
    let mut i: usize = 0;
    while i < releases.len()
        invariant
            i <= releases.len(),
            by_commits@.len() == i,
            by_churn@.len() == i,
            forall|j: int| 0 <= j < i ==> #[trigger] by_commits@[j] == releases@[j].commits_since_previous,
            forall|j: int| 0 <= j < i ==> #[trigger] by_churn@[j] == releases@[j].churn_total,
        decreases releases.len() - i,
    {
        by_commits.push(releases[i].commits_since_previous);
        by_churn.push(releases[i].churn_total);
        i += 1;
    }
    let a = last_max_index(&by_commits);
    let l = last_max_index(&by_churn);
    let t = ReleaseTotals {
        total_commits: commits,
        total_churn: churn,
        total_days: days,
        most_active_release: Some(releases[a].name.clone()),
        largest_churn_release: Some(releases[l].name.clone()),
    };
    proof {
        assert(by_commits@ =~= releases@.map_values(|r: Release| r.commits_since_previous));
        assert(by_churn@ =~= releases@.map_values(|r: Release| r.churn_total));
        assert(last_max_at(by_commits@, a as int));
        assert(last_max_at(by_churn@, l as int));
    }
    t
}

} // verus!
