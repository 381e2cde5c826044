//! Lines added and deleted per time bucket.
use vstd::prelude::*;

use crate::stats::activity::{bucket_fits, bucket_start, spec_bucket_start};
use crate::stats::{in_window, within_window, Bucket};
use crate::tally::{lemma_seq_total_insert, lemma_seq_total_raise, seq_total};

verus! {

/// Lines added and deleted in one bucket of the churn series.
#[derive(Debug, Clone, Copy, PartialEq, Eq, Structural)]
pub struct ChurnPoint {
    pub bucket_start: i64,
    pub adds: u64,
    pub dels: u64,
}

/// One commit as the churn series sees it: its time, its number of parents,
/// and the lines added and deleted against its first parent (against the
/// empty tree for a root commit).
#[derive(Debug, Clone, Copy, PartialEq, Eq, Structural)]
pub struct ChurnSample {
    pub ts: i64,
    pub parents: u32,
    pub adds: u64,
    pub dels: u64,
}

/// A commit counts when it lies in the window, and is not a merge where
/// merges are excluded.
pub open spec fn churn_counted(
    c: ChurnSample,
    since: Option<i64>,
    until: Option<i64>,
    no_merges: bool,
) -> bool {
    in_window(c.ts, since, until) && !(no_merges && c.parents > 1)
}

/// Which commits the churn counts: every commit in the window where merges
/// are kept; where they are left out, exactly the commits in the window with
/// at most one parent.
pub proof fn lemma_churn_counts_which(c: ChurnSample, since: Option<i64>, until: Option<i64>)
    ensures
        churn_counted(c, since, until, false) <==> (since matches Some(s) ==> c.ts >= s) && (
        until matches Some(u) ==> c.ts <= u),
        churn_counted(c, since, until, true) <==> churn_counted(c, since, until, false) && c.parents
            <= 1,
{
}

/// Whether the sample counts and falls in the bucket starting at `key`.
pub open spec fn churn_hit(
    c: ChurnSample,
    since: Option<i64>,
    until: Option<i64>,
    no_merges: bool,
    bucket: Bucket,
    key: int,
) -> bool {
    churn_counted(c, since, until, no_merges) && spec_bucket_start(c.ts, bucket) == key
}

pub open spec fn churn_commits(
    s: Seq<ChurnSample>,
    since: Option<i64>,
    until: Option<i64>,
    no_merges: bool,
    bucket: Bucket,
    key: int,
) -> nat
    decreases s.len(),
{
    if s.len() == 0 {
        0
    } else {
        churn_commits(s.drop_last(), since, until, no_merges, bucket, key) + if churn_hit(
            s.last(),
            since,
            until,
            no_merges,
            bucket,
            key,
        ) {
            1nat
        } else {
            0nat
        }
    }
}

/// A bucket's commits are exactly the counted commits whose bucket starts
/// at its key.
pub proof fn lemma_churn_commits_count(
    s: Seq<ChurnSample>,
    since: Option<i64>,
    until: Option<i64>,
    no_merges: bool,
    bucket: Bucket,
    key: int,
)
    ensures
        churn_commits(s, since, until, no_merges, bucket, key) == s.filter(
            |c: ChurnSample| churn_counted(c, since, until, no_merges) && spec_bucket_start(c.ts, bucket)
                == key,
        ).len(),
    decreases s.len(),
{
    reveal(Seq::filter);
    if s.len() > 0 {
        lemma_churn_commits_count(s.drop_last(), since, until, no_merges, bucket, key);
    }
}

pub open spec fn churn_adds(
    s: Seq<ChurnSample>,
    since: Option<i64>,
    until: Option<i64>,
    no_merges: bool,
    bucket: Bucket,
    key: int,
) -> nat
    decreases s.len(),
{
    if s.len() == 0 {
        0
    } else {
        churn_adds(s.drop_last(), since, until, no_merges, bucket, key) + if churn_hit(
            s.last(),
            since,
            until,
            no_merges,
            bucket,
            key,
        ) {
            s.last().adds as nat
        } else {
            0nat
        }
    }
}

pub open spec fn churn_dels(
    s: Seq<ChurnSample>,
    since: Option<i64>,
    until: Option<i64>,
    no_merges: bool,
    bucket: Bucket,
    key: int,
) -> nat
    decreases s.len(),
{
    if s.len() == 0 {
        0
    } else {
        churn_dels(s.drop_last(), since, until, no_merges, bucket, key) + if churn_hit(
            s.last(),
            since,
            until,
            no_merges,
            bucket,
            key,
        ) {
            s.last().dels as nat
        } else {
            0nat
        }
    }
}

/// Every counted commit has a bucket start that an `i64` can hold.
pub open spec fn counted_buckets_fit(
    s: Seq<ChurnSample>,
    since: Option<i64>,
    until: Option<i64>,
    no_merges: bool,
    bucket: Bucket,
) -> bool {
    forall|i: int|
        0 <= i < s.len() && churn_counted(s[i], since, until, no_merges) ==> bucket_fits(
            (#[trigger] s[i]).ts,
            bucket,
        )
}

/// No bucket's totals exceed `u64`.
pub open spec fn churn_fits(
    s: Seq<ChurnSample>,
    since: Option<i64>,
    until: Option<i64>,
    no_merges: bool,
    bucket: Bucket,
) -> bool {
    forall|key: int|
        churn_adds(s, since, until, no_merges, bucket, key) <= u64::MAX && churn_dels(
            s,
            since,
            until,
            no_merges,
            bucket,
            key,
        ) <= u64::MAX
}

pub open spec fn churn_keys_increasing(points: Seq<ChurnPoint>) -> bool {
    forall|i: int, j: int|
        0 <= i < j < points.len() ==> points[i].bucket_start < points[j].bucket_start
}

/// `points` is the churn series of `s`: one point per bucket holding a
/// counted commit, in increasing order of bucket start, with the bucket's
/// added and deleted lines.
pub open spec fn is_churn_series(
    points: Seq<ChurnPoint>,
    s: Seq<ChurnSample>,
    since: Option<i64>,
    until: Option<i64>,
    no_merges: bool,
    bucket: Bucket,
) -> bool {
    &&& churn_keys_increasing(points)
    &&& forall|i: int|
        #![trigger points[i]]
        0 <= i < points.len() ==> {
            let k = points[i].bucket_start as int;
            &&& churn_commits(s, since, until, no_merges, bucket, k) > 0
            &&& points[i].adds == churn_adds(s, since, until, no_merges, bucket, k)
            &&& points[i].dels == churn_dels(s, since, until, no_merges, bucket, k)
        }
    &&& forall|key: int|
        churn_commits(s, since, until, no_merges, bucket, key) > 0 ==> exists|i: int|
            0 <= i < points.len() && points[i].bucket_start == key
}

/// Lines added by the counted commits of `s`.
pub open spec fn counted_adds(
    s: Seq<ChurnSample>,
    since: Option<i64>,
    until: Option<i64>,
    no_merges: bool,
) -> int
    decreases s.len(),
{
    if s.len() == 0 {
        0
    } else {
        counted_adds(s.drop_last(), since, until, no_merges) + if churn_counted(
            s.last(),
            since,
            until,
            no_merges,
        ) {
            s.last().adds as int
        } else {
            0
        }
    }
}

/// Lines deleted by the counted commits of `s`.
pub open spec fn counted_dels(
    s: Seq<ChurnSample>,
    since: Option<i64>,
    until: Option<i64>,
    no_merges: bool,
) -> int
    decreases s.len(),
{
    if s.len() == 0 {
        0
    } else {
        counted_dels(s.drop_last(), since, until, no_merges) + if churn_counted(
            s.last(),
            since,
            until,
            no_merges,
        ) {
            s.last().dels as int
        } else {
            0
        }
    }
}

/// The added lines of a series, in order.
pub open spec fn point_adds(points: Seq<ChurnPoint>) -> Seq<int> {
    points.map_values(|p: ChurnPoint| p.adds as int)
}

/// The deleted lines of a series, in order.
pub open spec fn point_dels(points: Seq<ChurnPoint>) -> Seq<int> {
    points.map_values(|p: ChurnPoint| p.dels as int)
}

/// The series accounts for every line of every counted commit.
pub open spec fn churn_totals_kept(
    points: Seq<ChurnPoint>,
    s: Seq<ChurnSample>,
    since: Option<i64>,
    until: Option<i64>,
    no_merges: bool,
) -> bool {
    &&& seq_total(point_adds(points)) == counted_adds(s, since, until, no_merges)
    &&& seq_total(point_dels(points)) == counted_dels(s, since, until, no_merges)
}

proof fn lemma_churn_prefix_sums(
    s: Seq<ChurnSample>,
    n: int,
    since: Option<i64>,
    until: Option<i64>,
    no_merges: bool,
    bucket: Bucket,
    key: int,
)
    requires
        0 <= n <= s.len(),
    ensures
        churn_adds(s.subrange(0, n), since, until, no_merges, bucket, key) <= churn_adds(
            s,
            since,
            until,
            no_merges,
            bucket,
            key,
        ),
        churn_dels(s.subrange(0, n), since, until, no_merges, bucket, key) <= churn_dels(
            s,
            since,
            until,
            no_merges,
            bucket,
            key,
        ),
    decreases s.len(),
{
    if n == s.len() {
        assert(s.subrange(0, n) =~= s);
    } else {
        let t = s.drop_last();
        assert(t.subrange(0, n) =~= s.subrange(0, n));
        lemma_churn_prefix_sums(t, n, since, until, no_merges, bucket, key);
    }
}

fn locate_churn(points: &Vec<ChurnPoint>, key: i64) -> (r: (usize, bool))
    requires
        churn_keys_increasing(points@),
    ensures
        r.0 <= points.len(),
        forall|j: int| 0 <= j < r.0 ==> points@[j].bucket_start < key,
        forall|j: int| r.0 <= j < points.len() ==> points@[j].bucket_start >= key,
        r.1 <==> (r.0 < points.len() && points@[r.0 as int].bucket_start == key),
{
    let mut i: usize = 0;
    while i < points.len()
        invariant
            i <= points.len(),
            churn_keys_increasing(points@),
            forall|j: int| 0 <= j < i ==> points@[j].bucket_start < key,
        decreases points.len() - i,
    {
        if points[i].bucket_start >= key {
            return (i, points[i].bucket_start == key);
        }
        i += 1;
    }
    (i, false)
}

/// Lines added and deleted per bucket over the commits in `samples` that lie
/// in the window `[since, until]`, skipping merge commits when `no_merges`;
/// the buckets' lines add up to the lines of the counted commits.
pub fn compute_churn(
    samples: &[ChurnSample],
    since: Option<i64>,
    until: Option<i64>,
    no_merges: bool,
    bucket: Bucket,
) -> (points: Vec<ChurnPoint>)
    requires
        churn_fits(samples@, since, until, no_merges, bucket),
        counted_buckets_fit(samples@, since, until, no_merges, bucket),
    ensures
        is_churn_series(points@, samples@, since, until, no_merges, bucket),
        churn_totals_kept(points@, samples@, since, until, no_merges),
{
    let mut points: Vec<ChurnPoint> = Vec::new();
    let mut i: usize = 0;
    proof {
        assert(point_adds(points@) =~= Seq::<int>::empty());
        assert(point_dels(points@) =~= Seq::<int>::empty());
    }
    while i < samples.len()
        invariant
            i <= samples.len(),
            churn_fits(samples@, since, until, no_merges, bucket),
            counted_buckets_fit(samples@, since, until, no_merges, bucket),
            is_churn_series(
                points@,
                samples@.subrange(0, i as int),
                since,
                until,
                no_merges,
                bucket,
            ),
            churn_totals_kept(points@, samples@.subrange(0, i as int), since, until, no_merges),
        decreases samples.len() - i,
    {
        assert(churn_counted(samples@[i as int], since, until, no_merges) ==> bucket_fits(
            samples@[i as int].ts,
            bucket,
        ));
        churn_step(&mut points, samples, i, since, until, no_merges, bucket);
        proof {
            let next = samples@.subrange(0, i + 1);
            assert(next.drop_last() =~= samples@.subrange(0, i as int));
            assert(next.last() == samples@[i as int]);
        }
        i += 1;
    }
    assert(samples@.subrange(0, samples.len() as int) =~= samples@);
    points
}


/// Folds `samples[i]` into the series of `samples[..i]`.
#[verifier::rlimit(100)]
#[verifier::spinoff_prover]
fn churn_step(
    points: &mut Vec<ChurnPoint>,
    samples: &[ChurnSample],
    i: usize,
    since: Option<i64>,
    until: Option<i64>,
    no_merges: bool,
    bucket: Bucket,
)
    requires
        i < samples.len(),
        churn_fits(samples@, since, until, no_merges, bucket),
        churn_counted(samples@[i as int], since, until, no_merges) ==> bucket_fits(
            samples@[i as int].ts,
            bucket,
        ),
        is_churn_series(old(points)@, samples@.subrange(0, i as int), since, until, no_merges, bucket),
    ensures
        is_churn_series(final(points)@, samples@.subrange(0, i + 1), since, until, no_merges, bucket),
        seq_total(point_adds(final(points)@)) == seq_total(point_adds(old(points)@)) + if churn_counted(
            samples@[i as int],
            since,
            until,
            no_merges,
        ) {
            samples@[i as int].adds as int
        } else {
            0
        },
        seq_total(point_dels(final(points)@)) == seq_total(point_dels(old(points)@)) + if churn_counted(
            samples@[i as int],
            since,
            until,
            no_merges,
        ) {
            samples@[i as int].dels as int
        } else {
            0
        },
{
        let ghost prev = samples@.subrange(0, i as int);
    let ghost next = samples@.subrange(0, i + 1);
    let ghost old_points = points@;
    assert(next.drop_last() =~= prev);
    let c = samples[i];
    assert(next.last() == c);
    let counted = within_window(c.ts, since, until) && !(no_merges && c.parents > 1);
    if counted {
        let key = bucket_start(c.ts, bucket);
        assert forall|k: int| k != key implies {
            &&& churn_commits(next, since, until, no_merges, bucket, k) == churn_commits(
                prev,
                since,
                until,
                no_merges,
                bucket,
                k,
            )
            &&& churn_adds(next, since, until, no_merges, bucket, k) == churn_adds(
                prev,
                since,
                until,
                no_merges,
                bucket,
                k,
            )
            &&& churn_dels(next, since, until, no_merges, bucket, k) == churn_dels(
                prev,
                since,
                until,
                no_merges,
                bucket,
                k,
            )
        } by {}
        assert(churn_adds(next, since, until, no_merges, bucket, key as int) == churn_adds(
            prev,
            since,
            until,
            no_merges,
            bucket,
            key as int,
        ) + c.adds);
        assert(churn_dels(next, since, until, no_merges, bucket, key as int) == churn_dels(
            prev,
            since,
            until,
            no_merges,
            bucket,
            key as int,
        ) + c.dels);
        proof {
            lemma_churn_prefix_sums(
                samples@,
                i + 1,
                since,
                until,
                no_merges,
                bucket,
                key as int,
            );
        }
        let (pos, found) = locate_churn(&points, key);
        if found {
            let old = points[pos];
            points.set(
                pos,
                ChurnPoint { bucket_start: key, adds: old.adds + c.adds, dels: old.dels + c.dels },
            );
            let ghost now_points = points@;
            assert(seq_total(point_adds(now_points)) == seq_total(point_adds(old_points)) + c.adds
                && seq_total(point_dels(now_points)) == seq_total(point_dels(old_points)) + c.dels)
                by {
                let oa = point_adds(old_points);
                let od = point_dels(old_points);
                assert(point_adds(now_points) =~= oa.update(pos as int, oa[pos as int] + c.adds));
                assert(point_dels(now_points) =~= od.update(pos as int, od[pos as int] + c.dels));
                lemma_seq_total_raise(oa, pos as int, c.adds as int);
                lemma_seq_total_raise(od, pos as int, c.dels as int);
            }
            assert forall|k: int|
                churn_commits(next, since, until, no_merges, bucket, k) > 0 implies exists|
                    j: int,
                |
                    0 <= j < points@.len() && points@[j].bucket_start == k by {
                if k != key {
                    let j = choose|j: int|
                        0 <= j < old_points.len() && old_points[j].bucket_start == k;
                    assert(points@[j].bucket_start == k);
                } else {
                    assert(points@[pos as int].bucket_start == k);
                }
            }
        } else {
            points.insert(pos, ChurnPoint { bucket_start: key, adds: c.adds, dels: c.dels });
            let ghost now_points = points@;
            assert(seq_total(point_adds(now_points)) == seq_total(point_adds(old_points)) + c.adds
                && seq_total(point_dels(now_points)) == seq_total(point_dels(old_points)) + c.dels)
                by {
                let oa = point_adds(old_points);
                let od = point_dels(old_points);
                assert(point_adds(now_points) =~= oa.insert(pos as int, c.adds as int));
                assert(point_dels(now_points) =~= od.insert(pos as int, c.dels as int));
                lemma_seq_total_insert(oa, pos as int, c.adds as int);
                lemma_seq_total_insert(od, pos as int, c.dels as int);
            }
            assert(churn_commits(prev, since, until, no_merges, bucket, key as int) == 0) by {
                if churn_commits(prev, since, until, no_merges, bucket, key as int) > 0 {
                    let j = choose|j: int|
                        0 <= j < old_points.len() && old_points[j].bucket_start == key;
                    if j < pos {
                    } else {
                    }
                }
            }
            assert(churn_adds(prev, since, until, no_merges, bucket, key as int) == 0) by {
                lemma_commits_zero_sums_zero(prev, since, until, no_merges, bucket, key as int);
            }
            assert(churn_dels(prev, since, until, no_merges, bucket, key as int) == 0) by {
                lemma_commits_zero_sums_zero(prev, since, until, no_merges, bucket, key as int);
            }
            assert forall|a: int, b: int|
                0 <= a < b < points@.len() implies points@[a].bucket_start
                < points@[b].bucket_start by {
                if a < pos && b > pos {
                    assert(points@[b] == old_points[b - 1]);
                } else if a < pos && b == pos {
                } else if a == pos {
                    assert(points@[b] == old_points[b - 1]);
                } else if a > pos {
                    assert(points@[a] == old_points[a - 1]);
                    assert(points@[b] == old_points[b - 1]);
                }
            }
            assert forall|j: int| #![trigger points@[j]] 0 <= j < points@.len() implies {
                let k = points@[j].bucket_start as int;
                &&& churn_commits(next, since, until, no_merges, bucket, k) > 0
                &&& points@[j].adds == churn_adds(next, since, until, no_merges, bucket, k)
                &&& points@[j].dels == churn_dels(next, since, until, no_merges, bucket, k)
            } by {
                if j < pos {
                    assert(points@[j] == old_points[j]);
                } else if j > pos {
                    assert(points@[j] == old_points[j - 1]);
                }
            }
            assert forall|k: int|
                churn_commits(next, since, until, no_merges, bucket, k) > 0 implies exists|
                    j: int,
                |
                    0 <= j < points@.len() && points@[j].bucket_start == k by {
                if k != key {
                    let j = choose|j: int|
                        0 <= j < old_points.len() && old_points[j].bucket_start == k;
                    if j < pos {
                        assert(points@[j].bucket_start == k);
                    } else {
                        assert(points@[j + 1].bucket_start == k);
                    }
                } else {
                    assert(points@[pos as int].bucket_start == k);
                }
            }
        }
    } else {
        assert forall|k: int|
            {
                &&& churn_commits(next, since, until, no_merges, bucket, k) == churn_commits(
                    prev,
                    since,
                    until,
                    no_merges,
                    bucket,
                    k,
                )
                &&& churn_adds(next, since, until, no_merges, bucket, k) == churn_adds(
                    prev,
                    since,
                    until,
                    no_merges,
                    bucket,
                    k,
                )
                &&& churn_dels(next, since, until, no_merges, bucket, k) == churn_dels(
                    prev,
                    since,
                    until,
                    no_merges,
                    bucket,
                    k,
                )
            } by {}
    }
}

proof fn lemma_commits_zero_sums_zero(
    s: Seq<ChurnSample>,
    since: Option<i64>,
    until: Option<i64>,
    no_merges: bool,
    bucket: Bucket,
    key: int,
)
    requires
        churn_commits(s, since, until, no_merges, bucket, key) == 0,
    ensures
        churn_adds(s, since, until, no_merges, bucket, key) == 0,
        churn_dels(s, since, until, no_merges, bucket, key) == 0,
    decreases s.len(),
{
    if s.len() > 0 {
        lemma_commits_zero_sums_zero(s.drop_last(), since, until, no_merges, bucket, key);
    }
}

} // verus!
