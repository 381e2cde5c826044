//! Commit activity per time bucket, bucket boundaries, and the parser for
//! the `--since` / `--until` time specifications.
use vstd::prelude::*;

use crate::clock::{
    date_timestamp, now_unix, spec_date_timestamp, spec_utc_fields,
    utc_fields, TIMESTAMP_BOUND,
};
use crate::stats::{in_window, within_window, Bucket};
use crate::tally::{lemma_seq_total_raise, lemma_seq_total_insert, seq_total};
use crate::text::{chars_of, parse_i32, parse_i64, parse_int_spec, parse_u8, slice_to_vec};

verus! {

/// Number of commits in one bucket of the activity series.
#[derive(Debug, Clone, Copy, PartialEq, Eq, Structural)]
pub struct ActivityPoint {
    pub bucket_start: i64,
    pub commits: u64,
}

// ---------------------------------------------------------------------------
// Buckets
// ---------------------------------------------------------------------------

/// Midnight UTC of the first day of the month holding `ts`; the epoch's
/// month where `ts` is outside the range of the calendar.
pub open spec fn spec_month_floor(ts: i64) -> int {
    match spec_utc_fields(ts) {
        Some(f) => spec_date_timestamp(f.0, f.1, 1)->0 as int,
        None => 0,
    }
}

/// The start of the bucket holding `ts`: the midnight UTC that begins its
/// day, or the start of its 7-day window counted from the Unix epoch (weeks
/// are not ISO weeks), rounding down for times before the epoch as well;
/// months are calendar months in UTC.
pub open spec fn spec_bucket_start(ts: i64, bucket: Bucket) -> int {
    match bucket {
        Bucket::Day => ts - (ts as int) % 86_400,
        Bucket::Week => {
            let day = (ts as int) / 86_400;
            (day - day % 7) * 86_400
        },
        Bucket::Month => spec_month_floor(ts),
    }
}

/// Day and week buckets: a time's bucket starts at most one bucket width
/// before it and no later than it, on a whole day for days and on a whole
/// 7-day period counted from the epoch for weeks.
pub proof fn lemma_bucket_floor(ts: i64)
    ensures
        spec_bucket_start(ts, Bucket::Day) <= ts < spec_bucket_start(ts, Bucket::Day) + 86_400,
        spec_bucket_start(ts, Bucket::Day) % 86_400 == 0,
        spec_bucket_start(ts, Bucket::Week) <= ts < spec_bucket_start(ts, Bucket::Week) + 604_800,
        spec_bucket_start(ts, Bucket::Week) % 604_800 == 0,
{
    let t = ts as int;
    let day = t / 86_400;
    let r = t % 86_400;
    assert(t == day * 86_400 + r && 0 <= r < 86_400) by (nonlinear_arith)
        requires
            day == t / 86_400,
            r == t % 86_400,
    ;
    assert((t - r) % 86_400 == 0) by (nonlinear_arith)
        requires
            t == day * 86_400 + r,
    ;
    let w = day % 7;
    let wk = day / 7;
    assert(day == wk * 7 + w && 0 <= w < 7) by (nonlinear_arith)
        requires
            wk == day / 7,
            w == day % 7,
    ;
    let start = (day - w) * 86_400;
    assert(start == wk * 604_800) by (nonlinear_arith)
        requires
            day == wk * 7 + w,
            start == (day - w) * 86_400,
    ;
    assert(start % 604_800 == 0) by (nonlinear_arith)
        requires
            start == wk * 604_800,
    ;
    assert(start <= t < start + 604_800) by (nonlinear_arith)
        requires
            t == day * 86_400 + r,
            0 <= r < 86_400,
            day == wk * 7 + w,
            0 <= w < 7,
            start == wk * 604_800,
    ;
}

/// Every time in the window has a bucket start that an `i64` can hold.
pub open spec fn window_buckets_fit(
    times: Seq<i64>,
    since: Option<i64>,
    until: Option<i64>,
    bucket: Bucket,
) -> bool {
    forall|i: int|
        0 <= i < times.len() && in_window(times[i], since, until) ==> bucket_fits(
            #[trigger] times[i],
            bucket,
        )
}

/// The bucket start of `ts` can be written as an `i64` (it cannot for the
/// few earliest times, whose day or week begins before `i64::MIN`).
pub open spec fn bucket_fits(ts: i64, bucket: Bucket) -> bool {
    spec_bucket_start(ts, bucket) >= i64::MIN
}

/// Midnight UTC of the first day of the month holding `ts`.
pub fn month_floor(ts: i64) -> (r: i64)
    ensures
        r == spec_month_floor(ts),
{
    let (y, m) = match utc_fields(ts) {
        Some(f) => (f.0, f.1),
        None => (1970i32, 1u8),
    };
    match date_timestamp(y, m, 1) {
        Some(t) => t,
        None => {
            assert(false);
            0
        },
    }
}

/// The start of the bucket that holds `ts`: a day or week bucket begins at
/// or before `ts` and ends after it.
pub fn bucket_start(ts: i64, bucket: Bucket) -> (r: i64)
    requires
        bucket_fits(ts, bucket),
    ensures
        r == spec_bucket_start(ts, bucket),
        bucket is Day ==> r <= ts < r + 86_400 && r % 86_400 == 0,
        bucket is Week ==> r <= ts < r + 604_800 && r % 604_800 == 0,
{
    let rem = ts % 86_400;
    let day_rem: i64 = if rem < 0 {
        rem + 86_400
    } else {
        rem
    };
    proof {
        assert(day_rem as int == (ts as int) % 86_400 && 0 <= day_rem < 86_400) by (nonlinear_arith)
            requires
                rem as int == (if ts >= 0 { (ts as int) % 86_400 } else { -((-(ts as int)) % 86_400) }),
                day_rem == (if rem < 0 { rem + 86_400 } else { rem as int }),
        ;
    }
    match bucket {
        Bucket::Day => {
            proof {
                assert((ts as int - day_rem) % 86_400 == 0 && ts - day_rem <= ts < ts - day_rem + 86_400)
                    by (nonlinear_arith)
                    requires
                        day_rem as int == (ts as int) % 86_400,
                        0 <= day_rem < 86_400,
                ;
            }
            ts - day_rem
        },
        Bucket::Week => {
            let day: i64 = (ts - day_rem) / 86_400;
            let m = day % 7;
            let wrem: i64 = if m < 0 {
                m + 7
            } else {
                m
            };
            proof {
                let d = (ts as int) / 86_400;
                assert(day as int == d && (ts as int - day_rem) == d * 86_400) by (nonlinear_arith)
                    requires
                        day_rem as int == (ts as int) % 86_400,
                        day as int == (if ts - day_rem >= 0 { (ts - day_rem) / 86_400 } else { -((-(ts - day_rem)) / 86_400) }),
                        d == (ts as int) / 86_400,
                ;
                assert(wrem as int == d % 7 && 0 <= wrem < 7) by (nonlinear_arith)
                    requires
                        day as int == d,
                        m as int == (if day >= 0 { (day as int) % 7 } else { -((-(day as int)) % 7) }),
                        wrem == (if m < 0 { m + 7 } else { m as int }),
                ;
                let w = d - d % 7;
                assert(w * 86_400 <= ts < w * 86_400 + 604_800 && (w * 86_400) % 604_800 == 0
                    && w * 86_400 <= i64::MAX) by (nonlinear_arith)
                    requires
                        w == d - d % 7,
                        0 <= d % 7 < 7,
                        (d - d % 7) % 7 == 0,
                        ts as int - day_rem == d * 86_400,
                        0 <= day_rem < 86_400,
                        ts <= i64::MAX,
                ;
            }
            (day - wrem) * 86_400
        },
        Bucket::Month => month_floor(ts),
    }
}

// ---------------------------------------------------------------------------
// Activity series
// ---------------------------------------------------------------------------

/// How many of `times` lie in the window and in the bucket starting at `key`.
pub open spec fn activity_count(
    times: Seq<i64>,
    since: Option<i64>,
    until: Option<i64>,
    bucket: Bucket,
    key: int,
) -> nat
    decreases times.len(),
{
    if times.len() == 0 {
        0
    } else {
        activity_count(times.drop_last(), since, until, bucket, key) + if in_window(
            times.last(),
            since,
            until,
        ) && spec_bucket_start(times.last(), bucket) == key {
            1nat
        } else {
            0nat
        }
    }
}

pub open spec fn keys_increasing(points: Seq<ActivityPoint>) -> bool {
    forall|i: int, j: int|
        0 <= i < j < points.len() ==> points[i].bucket_start < points[j].bucket_start
}

/// `points` is the activity series of `times`: one point per non-empty
/// bucket, in increasing order of bucket start, each holding the number of
/// commits in its bucket.
pub open spec fn is_activity_series(
    points: Seq<ActivityPoint>,
    times: Seq<i64>,
    since: Option<i64>,
    until: Option<i64>,
    bucket: Bucket,
) -> bool {
    &&& keys_increasing(points)
    &&& forall|i: int|
        0 <= i < points.len() ==> {
            &&& points[i].commits > 0
            &&& points[i].commits == activity_count(
                times,
                since,
                until,
                bucket,
                points[i].bucket_start as int,
            )
        }
    &&& forall|key: int|
        activity_count(times, since, until, bucket, key) > 0 ==> exists|i: int|
            0 <= i < points.len() && points[i].bucket_start == key
}

/// How many of `times` lie in the window.
pub open spec fn window_count(times: Seq<i64>, since: Option<i64>, until: Option<i64>) -> nat
    decreases times.len(),
{
    if times.len() == 0 {
        0
    } else {
        window_count(times.drop_last(), since, until) + if in_window(times.last(), since, until) {
            1nat
        } else {
            0nat
        }
    }
}

/// The counts of the series: a bucket holds exactly the times in the window
/// whose bucket starts at its key, and the window holds exactly the times
/// between its ends.
pub proof fn lemma_activity_counts(times: Seq<i64>, since: Option<i64>, until: Option<i64>, bucket: Bucket, key: int)
    ensures
        activity_count(times, since, until, bucket, key) == times.filter(
            |t: i64| in_window(t, since, until) && spec_bucket_start(t, bucket) == key,
        ).len(),
        window_count(times, since, until) == times.filter(|t: i64| in_window(t, since, until)).len(),
    decreases times.len(),
{
    reveal(Seq::filter);
    if times.len() > 0 {
        lemma_activity_counts(times.drop_last(), since, until, bucket, key);
    }
}

/// The commit counts of a series, in order.
pub open spec fn point_counts(points: Seq<ActivityPoint>) -> Seq<int> {
    points.map_values(|p: ActivityPoint| p.commits as int)
}

proof fn lemma_activity_count_bound(
    times: Seq<i64>,
    since: Option<i64>,
    until: Option<i64>,
    bucket: Bucket,
    key: int,
)
    ensures
        activity_count(times, since, until, bucket, key) <= times.len(),
    decreases times.len(),
{
    if times.len() > 0 {
        lemma_activity_count_bound(times.drop_last(), since, until, bucket, key);
    }
}

/// Finds where `key` stands among the points: the first index whose bucket
/// start is not below `key`, and whether that point starts at `key`.
fn locate_activity(points: &Vec<ActivityPoint>, key: i64) -> (r: (usize, bool))
    requires
        keys_increasing(points@),
    ensures
        r.0 <= points.len(),
        forall|j: int| 0 <= j < r.0 ==> points@[j].bucket_start < key,
        forall|j: int| r.0 <= j < points.len() ==> points@[j].bucket_start >= key,
        r.1 <==> (r.0 < points.len() && points@[r.0 as int].bucket_start == key),
{
    let mut i: usize = 0;
    while i < points.len()
        invariant
            i <= points.len(),
            keys_increasing(points@),
            forall|j: int| 0 <= j < i ==> points@[j].bucket_start < key,
        decreases points.len() - i,
    {
        if points[i].bucket_start >= key {
            return (i, points[i].bucket_start == key);
        }
        i += 1;
    }
    (i, false)
}

/// Commits per bucket over the commits whose times are `times`, keeping
/// those in the window `[since, until]`; the buckets' counts add up to the
/// commits in the window.
pub fn compute_activity(
    times: &[i64],
    since: Option<i64>,
    until: Option<i64>,
    bucket: Bucket,
) -> (points: Vec<ActivityPoint>)
    requires
        window_buckets_fit(times@, since, until, bucket),
    ensures
        is_activity_series(points@, times@, since, until, bucket),
        seq_total(point_counts(points@)) == window_count(times@, since, until),
{
    let mut points: Vec<ActivityPoint> = Vec::new();
    let mut i: usize = 0;
    proof {
        assert(point_counts(points@) =~= Seq::<int>::empty());
    }
    while i < times.len()
        invariant
            i <= times.len(),
            window_buckets_fit(times@, since, until, bucket),
            is_activity_series(points@, times@.subrange(0, i as int), since, until, bucket),
            seq_total(point_counts(points@)) == window_count(times@.subrange(0, i as int), since, until),
        decreases times.len() - i,
    {
        let ghost prev = times@.subrange(0, i as int);
        let ghost next = times@.subrange(0, i + 1);
        let ghost old_points = points@;
        assert(next.drop_last() =~= prev);
        let ts = times[i];
        assert(next.last() == ts);
        assert forall|k: int|
            activity_count(next, since, until, bucket, k) == activity_count(
                prev,
                since,
                until,
                bucket,
                k,
            ) + if in_window(ts, since, until) && spec_bucket_start(ts, bucket) == k {
                1nat
            } else {
                0nat
            } by {}
        if within_window(ts, since, until) {
            let key = bucket_start(ts, bucket);
            let (pos, found) = locate_activity(&points, key);
            if found {
                let old = points[pos];
                proof {
                    lemma_activity_count_bound(prev, since, until, bucket, key as int);
                }
                points.set(pos, ActivityPoint { bucket_start: key, commits: old.commits + 1 });
                proof {
                    let oc = point_counts(old_points);
                    assert(point_counts(points@) =~= oc.update(pos as int, oc[pos as int] + 1));
                    lemma_seq_total_raise(oc, pos as int, 1);
                }
                assert forall|k: int|
                    activity_count(next, since, until, bucket, k) > 0 implies exists|j: int|
                        0 <= j < points@.len() && points@[j].bucket_start == k by {
                    if k != key {
                        let j = choose|j: int|
                            0 <= j < old_points.len() && old_points[j].bucket_start == k;
                        assert(points@[j].bucket_start == k);
                    } else {
                        assert(points@[pos as int].bucket_start == k);
                    }
                }
            } else {
                points.insert(pos, ActivityPoint { bucket_start: key, commits: 1 });
                proof {
                    let oc = point_counts(old_points);
                    assert(point_counts(points@) =~= oc.insert(pos as int, 1));
                    lemma_seq_total_insert(oc, pos as int, 1);
                }
                assert(activity_count(prev, since, until, bucket, key as int) == 0) by {
                    if activity_count(prev, since, until, bucket, key as int) > 0 {
                        let j = choose|j: int|
                            0 <= j < old_points.len() && old_points[j].bucket_start == key;
                        if j < pos {
                        } else {
                        }
                    }
                }
                assert forall|a: int, b: int|
                    0 <= a < b < points@.len() implies points@[a].bucket_start
                    < points@[b].bucket_start by {
                    if a < pos && b > pos {
                        assert(points@[b] == old_points[b - 1]);
                    } else if a < pos && b == pos {
                    } else if a == pos {
                        assert(points@[b] == old_points[b - 1]);
                    } else if a > pos {
                        assert(points@[a] == old_points[a - 1]);
                        assert(points@[b] == old_points[b - 1]);
                    }
                }
                assert forall|j: int| 0 <= j < points@.len() implies {
                    &&& points@[j].commits > 0
                    &&& points@[j].commits == activity_count(
                        next,
                        since,
                        until,
                        bucket,
                        points@[j].bucket_start as int,
                    )
                } by {
                    if j < pos {
                        assert(points@[j] == old_points[j]);
                    } else if j > pos {
                        assert(points@[j] == old_points[j - 1]);
                    }
                }
                assert forall|k: int|
                    activity_count(next, since, until, bucket, k) > 0 implies exists|j: int|
                        0 <= j < points@.len() && points@[j].bucket_start == k by {
                    if k != key {
                        let j = choose|j: int|
                            0 <= j < old_points.len() && old_points[j].bucket_start == k;
                        if j < pos {
                            assert(points@[j].bucket_start == k);
                        } else {
                            assert(points@[j + 1].bucket_start == k);
                        }
                    } else {
                        assert(points@[pos as int].bucket_start == k);
                    }
                }
            }
        }
        i += 1;
    }
    assert(times@.subrange(0, times.len() as int) =~= times@);
    points
}

// ---------------------------------------------------------------------------
// Time specifications
// ---------------------------------------------------------------------------

/// Seconds in one unit of a relative time specification (`d`, `w`, `m` for
/// 30 days, `y` for 365 days), or 0 for any other character.
pub open spec fn unit_seconds(c: char) -> int {
    if c == 'd' {
        86_400
    } else if c == 'w' {
        604_800
    } else if c == 'm' {
        2_592_000
    } else if c == 'y' {
        31_536_000
    } else {
        0
    }
}

pub open spec fn i64_numeral(s: Seq<char>) -> Option<int> {
    parse_int_spec(s, true, i64::MIN as int, i64::MAX as int)
}

/// The offset in seconds that a relative specification such as `30d`,
/// `2w`, `6m`, `1y` or `-5d` denotes, if `s` is one.
pub open spec fn relative_offset(s: Seq<char>) -> Option<int> {
    if s.len() > 0 && unit_seconds(s.last()) != 0 && i64_numeral(s.drop_last()) is Some {
        Some(i64_numeral(s.drop_last())->0 * unit_seconds(s.last()))
    } else {
        None
    }
}

/// The index of the first occurrence of `c` in `s`.
pub open spec fn first_index(s: Seq<char>, c: char) -> Option<int> {
    if exists|i: int| 0 <= i < s.len() && s[i] == c {
        Some(
            choose|i: int|
                0 <= i < s.len() && s[i] == c && forall|j: int| 0 <= j < i ==> s[j] != c,
        )
    } else {
        None
    }
}

/// Midnight UTC of a date written `YEAR-MONTH-DAY` (split at the first two
/// dashes; year as `i32`, month and day as `u8`), if it is a valid date.
pub open spec fn date_instant(s: Seq<char>) -> Option<i64> {
    match first_index(s, '-') {
        None => None,
        Some(a) => {
            let y = s.subrange(0, a);
            let rest = s.subrange(a + 1, s.len() as int);
            match first_index(rest, '-') {
                None => None,
                Some(b) => {
                    let mo = rest.subrange(0, b);
                    let d = rest.subrange(b + 1, rest.len() as int);
                    let py = parse_int_spec(y, true, i32::MIN as int, i32::MAX as int);
                    let pm = parse_int_spec(mo, false, 0, 255);
                    let pd = parse_int_spec(d, false, 0, 255);
                    if py is Some && pm is Some && pd is Some {
                        spec_date_timestamp(py->0 as i32, pm->0 as u8, pd->0 as u8)
                    } else {
                        None
                    }
                },
            }
        },
    }
}

/// What a time specification denotes at the clock reading `now`.
pub open spec fn spec_parse_instant(s: Seq<char>, now: int) -> Option<int> {
    match relative_offset(s) {
        Some(off) => Some(now - off),
        None => match date_instant(s) {
            Some(t) => Some(t as int),
            None => None,
        },
    }
}

/// Relative instants count back from the clock: `Nd`, `Nw`, `Nm` and `Ny`
/// (N a signed 64-bit numeral) lie N days, 7-day weeks, 30-day months or
/// 365-day years before `now`, so a later reading gives an instant later by
/// as much; a date does not depend on the reading.
pub proof fn lemma_instant_counts_back(n: Seq<char>, now: int, later: int)
    ensures
        i64_numeral(n) is Some ==> {
            let v = i64_numeral(n)->0;
            &&& spec_parse_instant(n.push('d'), now) == Some(now - v * 86_400)
            &&& spec_parse_instant(n.push('w'), now) == Some(now - v * 7 * 86_400)
            &&& spec_parse_instant(n.push('m'), now) == Some(now - v * 30 * 86_400)
            &&& spec_parse_instant(n.push('y'), now) == Some(now - v * 365 * 86_400)
        },
        forall|s: Seq<char>|
            #![trigger spec_parse_instant(s, now), spec_parse_instant(s, later)]
            relative_offset(s) is Some ==> spec_parse_instant(s, later)->0 - spec_parse_instant(
                s,
                now,
            )->0 == later - now,
        forall|s: Seq<char>|
            #![trigger spec_parse_instant(s, now), spec_parse_instant(s, later)]
            relative_offset(s) is None ==> spec_parse_instant(s, later) == spec_parse_instant(s, now),
{
    assert(n.push('d').drop_last() =~= n);
    assert(n.push('w').drop_last() =~= n);
    assert(n.push('m').drop_last() =~= n);
    assert(n.push('y').drop_last() =~= n);
    if i64_numeral(n) is Some {
        let v = i64_numeral(n)->0;
        assert(v * 7 * 86_400 == v * 604_800) by (nonlinear_arith);
        assert(v * 30 * 86_400 == v * 2_592_000) by (nonlinear_arith);
        assert(v * 365 * 86_400 == v * 31_536_000) by (nonlinear_arith);
    }
}

/// The arithmetic of a relative specification stays within `i64` at `now`.
pub open spec fn instant_arith_fits(s: Seq<char>, now: int) -> bool {
    relative_offset(s) matches Some(off) ==> {
        &&& i64::MIN <= off <= i64::MAX
        &&& i64::MIN <= now - off <= i64::MAX
    }
}

/// The arithmetic of a relative specification stays within `i64` whatever
/// the clock reads.
pub open spec fn instant_in_range_spec(s: Seq<char>) -> bool {
    relative_offset(s) matches Some(off) ==> -(i64::MAX - TIMESTAMP_BOUND) <= off <= i64::MAX
        - TIMESTAMP_BOUND
}

fn find_first(s: &[char], c: char) -> (r: Option<usize>)
    ensures
        r is Some <==> first_index(s@, c) is Some,
        r matches Some(i) ==> first_index(s@, c) == Some(i as int) && i < s.len(),
{
    let mut i: usize = 0;
    while i < s.len()
        invariant
            i <= s.len(),
            forall|j: int| 0 <= j < i ==> s@[j] != c,
        decreases s.len() - i,
    {
        if s[i] == c {
            let ghost k = choose|k: int|
                0 <= k < s@.len() && s@[k] == c && forall|j: int| 0 <= j < k ==> s@[j] != c;
            assert(k == i) by {
                if k < i {
                } else if k > i {
                }
            }
            return Some(i);
        }
        i += 1;
    }
    None
}

pub(crate) fn parse_date_instant(s: &[char]) -> (r: Option<i64>)
    ensures
        r == date_instant(s@),
{
    let a = match find_first(s, '-') {
        Some(a) => a,
        None => return None,
    };
    let y = slice_to_vec(s, 0, a);
    let rest = slice_to_vec(s, a + 1, s.len());
    let b = match find_first(rest.as_slice(), '-') {
        Some(b) => b,
        None => return None,
    };
    let mo = slice_to_vec(rest.as_slice(), 0, b);
    let d = slice_to_vec(rest.as_slice(), b + 1, rest.len());
    let year = match parse_i32(y.as_slice()) {
        Some(v) => v,
        None => return None,
    };
    let (month, day) = match (parse_u8(mo.as_slice()), parse_u8(d.as_slice())) {
        (Some(m), Some(dd)) => (m, dd),
        _ => return None,
    };
    date_timestamp(year, month, day)
}

fn relative_unit_seconds(c: char) -> (r: i64)
    ensures
        r == unit_seconds(c),
{
    if c == 'd' {
        86_400
    } else if c == 'w' {
        7 * 86_400
    } else if c == 'm' {
        30 * 86_400
    } else if c == 'y' {
        365 * 86_400
    } else {
        0
    }
}

/// The number of seconds a relative specification denotes, when `s` is one.
fn parse_relative(s: &[char]) -> (r: Option<(i64, i64)>)
    ensures
        r is Some <==> relative_offset(s@) is Some,
        r matches Some(p) ==> p.1 == unit_seconds(s@.last()) && p.0 * p.1 == relative_offset(
            s@,
        )->0 && p.1 > 0,
{
    if s.len() == 0 {
        return None;
    }
    let unit = relative_unit_seconds(s[s.len() - 1]);
    if unit == 0 {
        return None;
    }
    let body = slice_to_vec(s, 0, s.len() - 1);
    assert(body@ =~= s@.drop_last());
    match parse_i64(body.as_slice()) {
        Some(n) => Some((n, unit)),
        None => None,
    }
}

/// Whether the relative form of `s`, if it has one, can be applied to any
/// clock reading without overflowing `i64`.
pub fn instant_in_range(s: &str) -> (b: bool)
    ensures
        b == instant_in_range_spec(s@),
{
    let v = chars_of(s);
    match parse_relative(v.as_slice()) {
        Some((n, unit)) => {
            let bound: i128 = (0x7fff_ffff_ffff_ffffi64 - TIMESTAMP_BOUND) as i128;
            let off: i128 = n as i128 * unit as i128;
            -bound <= off && off <= bound
        },
        None => true,
    }
}

/// The instant a time specification denotes at the clock reading `now`:
/// `N` days, weeks, 30-day months or 365-day years before `now` for `Nd`,
/// `Nw`, `Nm`, `Ny` (`N` a signed 64-bit integer), else midnight UTC of a
/// `YEAR-MONTH-DAY` date, else `None`.
pub fn parse_instant_at(s: &str, now: i64) -> (r: Option<i64>)
    requires
        instant_arith_fits(s@, now as int),
    ensures
        r matches Some(v) ==> spec_parse_instant(s@, now as int) == Some(v as int),
        r is None ==> spec_parse_instant(s@, now as int) is None,
{
    let v = chars_of(s);
    match parse_relative(v.as_slice()) {
        Some((n, unit)) => {
            let off = n * unit;
            Some(now - off)
        },
        None => match parse_date_instant(v.as_slice()) {
            Some(t) => Some(t),
            None => None,
        },
    }
}

/// The instant a time specification denotes now (see `parse_instant_at`);
/// `None` for no specification or one that is not understood.
pub fn parse_instant(s: Option<&str>) -> (r: Option<i64>)
    requires
        s matches Some(t) ==> instant_in_range_spec(t@),
    ensures
        s is None ==> r is None,
        s matches Some(t) ==> {
            &&& r is Some <==> spec_parse_instant(t@, 0) is Some
            &&& r matches Some(v) ==> match relative_offset(t@) {
                Some(off) => -TIMESTAMP_BOUND <= v + off <= TIMESTAMP_BOUND,
                None => date_instant(t@) == Some(v),
            }
        },
{
    match s {
        None => None,
        Some(t) => {
            let now = now_unix();
            parse_instant_at(t, now)
        },
    }
}

/// The instant a time specification denotes now, as `parse_instant` gives
/// it, or `None` where the arithmetic of a relative specification leaves
/// `i64` at the clock reading; that happens only beyond the range that
/// `instant_in_range` accepts.
pub fn parse_instant_checked(s: Option<&str>) -> (r: Option<Option<i64>>)
    ensures
        s is None ==> r == Some(None::<i64>),
        s matches Some(t) ==> match r {
            None => relative_offset(t@) is Some && !instant_in_range_spec(t@),
            Some(x) => {
                &&& x is Some <==> spec_parse_instant(t@, 0) is Some
                &&& x matches Some(v) ==> match relative_offset(t@) {
                    Some(off) => -TIMESTAMP_BOUND <= v + off <= TIMESTAMP_BOUND,
                    None => date_instant(t@) == Some(v),
                }
            },
        },
{
    match s {
        None => Some(None),
        Some(t) => {
            let now = now_unix();
            let v = chars_of(t);
            if let Some((n, unit)) = parse_relative(v.as_slice()) {
                proof {
                    assert(n as int * unit as int <= i64::MAX as int * 31_536_000) by (nonlinear_arith)
                        requires
                            n <= i64::MAX,
                            0 < unit <= 31_536_000,
                    ;
                    assert(n as int * unit as int >= i64::MIN as int * 31_536_000) by (nonlinear_arith)
                        requires
                            n >= i64::MIN,
                            0 < unit <= 31_536_000,
                    ;
                }
                let off: i128 = n as i128 * unit as i128;
                let at: i128 = now as i128 - off;
                if off < i64::MIN as i128 || off > i64::MAX as i128 || at < i64::MIN as i128 || at
                    > i64::MAX as i128 {
                    return None;
                }
            }
            Some(parse_instant_at(t, now))
        },
    }
}

} // verus!
