//! Timing of the tool's own operations: spans of time, timers, and a
//! collector that summarises the recorded spans per operation.
use vstd::prelude::*;

use crate::sorting::{lemma_permutation_members, sort_ranked, sorted_by_rank, Ranked};

verus! {

broadcast use vstd::std_specs::vec::group_vec_axioms;

pub const NANOS_PER_SEC: u64 = 1_000_000_000;

/// A span of time: whole seconds and the nanoseconds beyond them.
#[derive(Copy, Clone, Debug, PartialEq, Eq, Structural)]
pub struct TimeSpan {
    pub secs: u64,
    pub nanos: u32,
}

impl TimeSpan {
    /// The span in nanoseconds.
    pub open spec fn total_nanos(self) -> int {
        self.secs * 1_000_000_000 + self.nanos
    }

    /// The nanoseconds are below one second.
    pub open spec fn wf(self) -> bool {
        self.nanos < 1_000_000_000
    }

    /// The span of `ms` milliseconds.
    pub fn from_millis(ms: u64) -> (r: TimeSpan)
        ensures
            r.wf(),
            r.total_nanos() == ms * 1_000_000,
    {
        let secs = ms / 1000;
        let rest = ms % 1000;
        let nanos = (rest * 1_000_000) as u32;
        TimeSpan { secs, nanos }
    }

    /// The span of `n` nanoseconds.
    pub fn from_nanos(n: u128) -> (r: TimeSpan)
        requires
            n / 1_000_000_000 <= u64::MAX,
        ensures
            r.wf(),
            r.total_nanos() == n,
    {
        let secs = (n / 1_000_000_000) as u64;
        let nanos = (n % 1_000_000_000) as u32;
        TimeSpan { secs, nanos }
    }

    /// The span in nanoseconds.
    pub fn as_nanos(&self) -> (n: u128)
        ensures
            n == self.total_nanos(),
    {
        self.secs as u128 * 1_000_000_000 + self.nanos as u128
    }
}

// ---------------------------------------------------------------------------
// Timers
// ---------------------------------------------------------------------------

#[verifier::external_type_specification]
#[verifier::external_body]
pub struct ExInstant(std::time::Instant);

/// `std::time::Instant::now`. Trusted for nothing but its type: the reading
/// depends on the clock.
#[verifier::external_body]
fn instant_now() -> (r: std::time::Instant) {
    std::time::Instant::now()
}

/// `std::time::Instant::elapsed`, as seconds and nanoseconds. Trusted: the
/// span depends on the clock; a `Duration` keeps its nanoseconds below one
/// second.
#[verifier::external_body]
fn elapsed_since(start: &std::time::Instant) -> (r: TimeSpan)
    ensures
        r.wf(),
{
    let d = start.elapsed();
    TimeSpan { secs: d.as_secs(), nanos: d.subsec_nanos() }
}

/// Measures the time an operation takes.
#[derive(Debug)]
pub struct Timer {
    start: std::time::Instant,
    name: String,
    enabled: bool,
}

impl Timer {
    /// Starts timing the operation `name`; an enabled timer is reported.
    pub fn new(name: &str, enabled: bool) -> (t: Timer)
        ensures
            t.name()@ == name@,
            t.enabled() == enabled,
    {
        Timer { start: instant_now(), name: String::from_str(name), enabled }
    }

    pub closed spec fn name(&self) -> String {
        self.name
    }

    pub closed spec fn enabled(&self) -> bool {
        self.enabled
    }

    /// The operation's name.
    pub fn operation(&self) -> (n: &str)
        ensures
            n@ == self.name()@,
    {
        self.name.as_str()
    }

    /// Whether the timer is reported.
    pub fn is_enabled(&self) -> (b: bool)
        ensures
            b == self.enabled(),
    {
        self.enabled
    }

    /// Stops the timer: the time since it started.
    pub fn stop(self) -> (d: TimeSpan)
        ensures
            d.wf(),
    {
        elapsed_since(&self.start)
    }
}

// ---------------------------------------------------------------------------
// Collected timings
// ---------------------------------------------------------------------------

/// The spans recorded under `name`, or none.
pub open spec fn spans_of(e: Seq<(String, Vec<TimeSpan>)>, name: Seq<char>) -> Seq<TimeSpan>
    decreases e.len(),
{
    if e.len() == 0 {
        Seq::empty()
    } else if e.last().0@ == name {
        e.last().1@
    } else {
        spans_of(e.drop_last(), name)
    }
}

pub open spec fn names_distinct(e: Seq<(String, Vec<TimeSpan>)>) -> bool {
    forall|i: int, j: int| 0 <= i < j < e.len() ==> #[trigger] e[i].0@ != #[trigger] e[j].0@
}

/// Sum of the spans, in nanoseconds.
pub open spec fn span_sum(s: Seq<TimeSpan>) -> int
    decreases s.len(),
{
    if s.len() == 0 {
        0
    } else {
        span_sum(s.drop_last()) + s.last().total_nanos()
    }
}

/// Collects the time spans of named operations.
#[derive(Debug)]
pub struct PerfMetrics {
    timings: Vec<(String, Vec<TimeSpan>)>,
    enabled: bool,
}

/// Statistics of one operation's recorded spans.
#[derive(Debug, Clone)]
pub struct OperationStats {
    pub name: String,
    pub count: usize,
    pub total: TimeSpan,
    pub avg: TimeSpan,
    pub min: TimeSpan,
    pub max: TimeSpan,
}

/// Statistics of every operation, the longest in total first.
#[derive(Debug, Clone)]
pub struct PerformanceSummary {
    pub operations: Vec<OperationStats>,
}

impl PerfMetrics {
    /// The recorded spans of each operation.
    pub closed spec fn recorded(&self) -> Map<Seq<char>, Seq<TimeSpan>> {
        Map::new(
            |k: Seq<char>| spans_of(self.timings@, k).len() > 0,
            |k: Seq<char>| spans_of(self.timings@, k),
        )
    }

    pub closed spec fn enabled(&self) -> bool {
        self.enabled
    }

    /// Operations are filed once each, never with an empty list.
    pub closed spec fn wf(&self) -> bool {
        &&& names_distinct(self.timings@)
        &&& forall|i: int| 0 <= i < self.timings@.len() ==> #[trigger] self.timings@[i].1@.len() > 0
    }

    /// An empty collector; a disabled one records nothing.
    pub fn new(enabled: bool) -> (m: PerfMetrics)
        ensures
            m.wf(),
            m.enabled() == enabled,
            m.recorded() == Map::<Seq<char>, Seq<TimeSpan>>::empty(),
    {
        let m = PerfMetrics { timings: Vec::new(), enabled };
        assert(m.recorded() =~= Map::<Seq<char>, Seq<TimeSpan>>::empty());
        m
    }

    /// Whether the collector records.
    pub fn is_enabled(&self) -> (b: bool)
        ensures
            b == self.enabled(),
    {
        self.enabled
    }

    /// Starts a timer for `operation`, reported where the collector records.
    pub fn timer(&self, operation: &str) -> (t: Timer)
        ensures
            t.name()@ == operation@,
            t.enabled() == self.enabled(),
    {
        Timer::new(operation, self.enabled)
    }

    /// Forgets every recorded span.
    pub fn clear(&mut self)
        ensures
            final(self).wf(),
            final(self).enabled() == old(self).enabled(),
            final(self).recorded() == Map::<Seq<char>, Seq<TimeSpan>>::empty(),
    {
        self.timings = Vec::new();
        assert(self.recorded() =~= Map::<Seq<char>, Seq<TimeSpan>>::empty());
    }

    /// Records a span of `operation`, where the collector records.
    pub fn record(&mut self, operation: &str, duration: TimeSpan)
        requires
            old(self).wf(),
        ensures
            final(self).wf(),
            final(self).enabled() == old(self).enabled(),
            final(self).recorded() == if old(self).enabled() {
                old(self).recorded().insert(
                    operation@,
                    if old(self).recorded().contains_key(operation@) {
                        old(self).recorded()[operation@].push(duration)
                    } else {
                        seq![duration]
                    },
                )
            } else {
                old(self).recorded()
            },
    {
        if !self.enabled {
            return ;
        }
        let ghost before = self.timings@;
        let key = String::from_str(operation);
        match find_operation(&self.timings, &key) {
            Some(k) => {
                let (name, mut spans) = self.timings.remove(k);
                let ghost removed = self.timings@;
                let ghost old_spans = spans@;
                proof {
                    assert(name@ == operation@);
                    assert(old_spans == before[k as int].1@);
                }
                spans.push(duration);
                self.timings.insert(k, (name, spans));
                proof {
                    assert forall|i: int|
                        0 <= i < self.timings@.len() && i != k implies #[trigger] self.timings@[i]
                        == before[i] by {
                        if i < k {
                            assert(self.timings@[i] == removed[i]);
                        } else {
                            assert(self.timings@[i] == removed[i - 1]);
                        }
                    }
                    assert(names_distinct(self.timings@));
                    lemma_spans_of_index(before, k as int);
                    assert forall|q: Seq<char>| #[trigger]
                        spans_of(self.timings@, q) == if q == operation@ {
                            spans_of(before, q).push(duration)
                        } else {
                            spans_of(before, q)
                        } by {
                        lemma_spans_of_lookup(self.timings@, q);
                        lemma_spans_of_lookup(before, q);
                        if q == operation@ {
                            assert(self.timings@[k as int].0@ == q);
                            assert(self.timings@[k as int].1@ == old_spans.push(duration));
                        } else {
                            if exists|i: int| 0 <= i < before.len() && #[trigger] before[i].0@ == q {
                                let i = choose|i: int| 0 <= i < before.len() && #[trigger] before[i].0@ == q;
                                assert(i != k);
                                assert(self.timings@[i] == before[i]);
                            } else {
                                assert forall|i: int| 0 <= i < self.timings@.len() implies #[trigger] self.timings@[i].0@ != q by {
                                    if i != k {
                                        assert(self.timings@[i] == before[i]);
                                    }
                                }
                            }
                        }
                    }
                }
            },
            None => {
                let mut spans: Vec<TimeSpan> = Vec::new();
                spans.push(duration);
                self.timings.push((key, spans));
                proof {
                    assert forall|q: Seq<char>| #[trigger]
                        spans_of(self.timings@, q) == if q == operation@ {
                            seq![duration]
                        } else {
                            spans_of(before, q)
                        } by {
                        lemma_spans_of_lookup(self.timings@, q);
                        lemma_spans_of_lookup(before, q);
                        if q == operation@ {
                            assert(self.timings@[before.len() as int].0@ == q);
                            assert(spans_of(self.timings@, q) =~= seq![duration]);
                        } else {
                            if exists|i: int| 0 <= i < before.len() && #[trigger] before[i].0@ == q {
                                let i = choose|i: int| 0 <= i < before.len() && #[trigger] before[i].0@ == q;
                                assert(self.timings@[i] == before[i]);
                            }
                        }
                    }
                    lemma_spans_of_lookup(before, operation@);
                }
            },
        }
        proof {
            assert(self.recorded() =~= old(self).recorded().insert(
                operation@,
                if old(self).recorded().contains_key(operation@) {
                    old(self).recorded()[operation@].push(duration)
                } else {
                    seq![duration]
                },
            ));
        }
    }
}

/// Where the operation `name` is filed, if it is.
fn find_operation(e: &Vec<(String, Vec<TimeSpan>)>, name: &String) -> (r: Option<usize>)
    ensures
        match r {
            Some(k) => k < e.len() && e@[k as int].0@ == name@,
            None => forall|k: int| 0 <= k < e.len() ==> e@[k].0@ != name@,
        },
{
    let mut k: usize = 0;
    while k < e.len()
        invariant
            k <= e.len(),
            forall|j: int| 0 <= j < k ==> e@[j].0@ != name@,
        decreases e.len() - k,
    {
        if e[k].0 == *name {
            return Some(k);
        }
        k += 1;
    }
    None
}

/// Where names are distinct, the spans of a filed name are those filed with
/// it, and an unfiled name has none.
proof fn lemma_spans_of_lookup(e: Seq<(String, Vec<TimeSpan>)>, name: Seq<char>)
    requires
        names_distinct(e),
    ensures
        forall|i: int| 0 <= i < e.len() && #[trigger] e[i].0@ == name ==> spans_of(e, name) == e[i].1@,
        (forall|i: int| 0 <= i < e.len() ==> #[trigger] e[i].0@ != name) ==> spans_of(e, name) == Seq::<TimeSpan>::empty(),
    decreases e.len(),
{
    if e.len() > 0 {
        let t = e.drop_last();
        assert(names_distinct(t)) by {
            assert forall|i: int, j: int| 0 <= i < j < t.len() implies #[trigger] t[i].0@ != #[trigger] t[j].0@ by {
                assert(t[i] == e[i]);
                assert(t[j] == e[j]);
            }
        }
        lemma_spans_of_lookup(t, name);
        assert forall|i: int| 0 <= i < e.len() && #[trigger] e[i].0@ == name implies spans_of(e, name) == e[i].1@ by {
            if i < e.len() - 1 {
                assert(e[i] == t[i]);
                assert(e.last().0@ != name);
            }
        }
        if forall|i: int| 0 <= i < e.len() ==> #[trigger] e[i].0@ != name {
            assert(e[e.len() - 1].0@ != name);
            assert forall|i: int| 0 <= i < t.len() implies #[trigger] t[i].0@ != name by {
                assert(t[i] == e[i]);
            }
        }
    }
}

proof fn lemma_spans_of_index(e: Seq<(String, Vec<TimeSpan>)>, k: int)
    requires
        names_distinct(e),
        0 <= k < e.len(),
    ensures
        spans_of(e, e[k].0@) == e[k].1@,
{
    lemma_spans_of_lookup(e, e[k].0@);
}

/// `o` summarises `spans`: their count, their sum, their average (the sum
/// divided by the count taken as a `u32`, rounded down, as `Duration`
/// division gives it), and a shortest and a longest span.
pub open spec fn is_operation_stats(o: OperationStats, spans: Seq<TimeSpan>) -> bool {
    &&& o.count == spans.len()
    &&& o.total.wf() && o.total.total_nanos() == span_sum(spans)
    &&& o.avg.wf() && o.avg.total_nanos() == span_sum(spans) / ((spans.len() as u32) as int)
    &&& spans.contains(o.min)
    &&& forall|j: int| 0 <= j < spans.len() ==> o.min.total_nanos() <= #[trigger] spans[j].total_nanos()
    &&& spans.contains(o.max)
    &&& forall|j: int| 0 <= j < spans.len() ==> #[trigger] spans[j].total_nanos() <= o.max.total_nanos()
}

/// Every span lies between `lo` and `hi`, so their sum lies between `n * lo`
/// and `n * hi`.
proof fn lemma_span_sum_bounds(s: Seq<TimeSpan>, lo: int, hi: int)
    requires
        forall|j: int| 0 <= j < s.len() ==> lo <= #[trigger] s[j].total_nanos() <= hi,
    ensures
        s.len() * lo <= span_sum(s) <= s.len() * hi,
    decreases s.len(),
{
    if s.len() > 0 {
        let t = s.drop_last();
        assert forall|j: int| 0 <= j < t.len() implies lo <= #[trigger] t[j].total_nanos() <= hi by {
            assert(t[j] == s[j]);
        }
        lemma_span_sum_bounds(t, lo, hi);
        assert(s[s.len() - 1] == s.last());
        assert(s.len() * lo == t.len() * lo + lo && s.len() * hi == t.len() * hi + hi) by (nonlinear_arith)
            requires
                s.len() == t.len() + 1,
        ;
    }
}

/// An operation's average lies between its shortest and its longest span,
/// where its spans are counted exactly (fewer than 2^32 of them).
pub proof fn lemma_average_between_extremes(o: OperationStats, spans: Seq<TimeSpan>)
    requires
        is_operation_stats(o, spans),
        0 < spans.len() <= u32::MAX,
    ensures
        o.min.total_nanos() <= o.avg.total_nanos() <= o.max.total_nanos(),
{
    let n = spans.len() as int;
    assert((spans.len() as u32) as int == n);
    lemma_span_sum_bounds(spans, o.min.total_nanos(), o.max.total_nanos());
    let lo = o.min.total_nanos();
    let hi = o.max.total_nanos();
    let sum = span_sum(spans);
    assert(lo <= sum / n <= hi) by (nonlinear_arith)
        requires
            n > 0,
            n * lo <= sum <= n * hi,
    ;
}

impl Ranked for OperationStats {
    open spec fn precedes(&self, other: &Self) -> bool {
        self.total.total_nanos() >= other.total.total_nanos()
    }

    fn ranks_before(&self, other: &Self) -> (b: bool) {
        self.total.as_nanos() >= other.total.as_nanos()
    }

    proof fn lemma_total(a: &Self, b: &Self) {
    }

    proof fn lemma_transitive(a: &Self, b: &Self, c: &Self) {
    }
}

proof fn lemma_span_sum_prefix(s: Seq<TimeSpan>, n: int)
    requires
        0 <= n <= s.len(),
    ensures
        0 <= span_sum(s.subrange(0, n)) <= span_sum(s),
    decreases s.len(),
{
    if n == s.len() {
        assert(s.subrange(0, n) =~= s);
        lemma_span_sum_nonneg(s);
    } else {
        let t = s.drop_last();
        assert(t.subrange(0, n) =~= s.subrange(0, n));
        lemma_span_sum_prefix(t, n);
    }
}

proof fn lemma_span_sum_nonneg(s: Seq<TimeSpan>)
    ensures
        span_sum(s) >= 0,
    decreases s.len(),
{
    if s.len() > 0 {
        lemma_span_sum_nonneg(s.drop_last());
    }
}

/// The spans' sum fits a `Duration`, and their count taken as a `u32` is
/// not 0.
pub open spec fn spans_in_range(s: Seq<TimeSpan>) -> bool {
    span_sum(s) / 1_000_000_000 <= u64::MAX && (s.len() as u32) != 0
}

/// Whether `spans_in_range` holds of the spans.
fn spans_fit(spans: &Vec<TimeSpan>) -> (b: bool)
    ensures
        b == spans_in_range(spans@),
{
    // (u64::MAX + 1) seconds in nanoseconds: the first sum a `Duration`
    // cannot hold.
    let limit: u128 = 18_446_744_073_709_551_616_000_000_000;
    let n = spans.len();
    let mut sum: u128 = 0;
    let mut i: usize = 0;
    while i < n
        invariant
            n == spans@.len(),
            i <= n,
            sum == span_sum(spans@.subrange(0, i as int)),
            sum < limit,
            limit == 18_446_744_073_709_551_616_000_000_000u128,
        decreases n - i,
    {
        proof {
            let next = spans@.subrange(0, i + 1);
            assert(next.drop_last() =~= spans@.subrange(0, i as int));
            assert(next.last() == spans@[i as int]);
        }
        sum = sum + spans[i].as_nanos();
        if sum >= limit {
            proof {
                lemma_span_sum_prefix(spans@, i + 1);
                let t = span_sum(spans@);
                assert(t / 1_000_000_000 > u64::MAX) by (nonlinear_arith)
                    requires
                        t >= 18_446_744_073_709_551_616_000_000_000int,
                ;
            }
            return false;
        }
        i += 1;
    }
    proof {
        assert(spans@.subrange(0, n as int) =~= spans@);
        let t = span_sum(spans@);
        lemma_span_sum_nonneg(spans@);
        assert(t / 1_000_000_000 <= u64::MAX) by (nonlinear_arith)
            requires
                0 <= t < 18_446_744_073_709_551_616_000_000_000int,
        ;
    }
    #[verifier::truncate]
    let count = n as u32;
    count != 0
}

/// The statistics of one operation's spans.
fn operation_stats(name: &String, spans: &Vec<TimeSpan>) -> (o: OperationStats)
    requires
        spans@.len() > 0,
        span_sum(spans@) / 1_000_000_000 <= u64::MAX,
        (spans@.len() as u32) != 0,
    ensures
        o.name@ == name@,
        is_operation_stats(o, spans@),
{
    let n = spans.len();
    let mut sum: u128 = 0;
    let mut lo = spans[0];
    let mut hi = spans[0];
    let mut lo_at: usize = 0;
    let mut hi_at: usize = 0;
    let mut i: usize = 0;
    while i < n
        invariant
            n == spans@.len(),
            n > 0,
            i <= n,
            span_sum(spans@) / 1_000_000_000 <= u64::MAX,
            sum == span_sum(spans@.subrange(0, i as int)),
            lo_at < n,
            hi_at < n,
            lo == spans@[lo_at as int],
            hi == spans@[hi_at as int],
            forall|j: int| 0 <= j < i ==> lo.total_nanos() <= #[trigger] spans@[j].total_nanos(),
            forall|j: int| 0 <= j < i ==> #[trigger] spans@[j].total_nanos() <= hi.total_nanos(),
        decreases n - i,
    {
        proof {
            let next = spans@.subrange(0, i + 1);
            assert(next.drop_last() =~= spans@.subrange(0, i as int));
            assert(next.last() == spans@[i as int]);
            lemma_span_sum_prefix(spans@, i + 1);
        }
        let d = spans[i];
        sum = sum + d.as_nanos();
        if d.as_nanos() < lo.as_nanos() {
            lo = d;
            lo_at = i;
        }
        if d.as_nanos() > hi.as_nanos() {
            hi = d;
            hi_at = i;
        }
        i += 1;
    }
    proof {
        assert(spans@.subrange(0, n as int) =~= spans@);
        assert(spans@.contains(lo));
        assert(spans@.contains(hi));
    }
    #[verifier::truncate]
    let divisor = n as u32;
    let avg_nanos = sum / (divisor as u128);
    proof {
        assert(avg_nanos <= sum) by (nonlinear_arith)
            requires
                avg_nanos == sum / (divisor as u128),
                divisor >= 1,
        ;
    }
    OperationStats {
        name: name.clone(),
        count: n,
        total: TimeSpan::from_nanos(sum),
        avg: TimeSpan::from_nanos(avg_nanos),
        min: lo,
        max: hi,
    }
}

impl PerfMetrics {
    /// Every recorded operation's span sum fits a `Duration`, and its count
    /// taken as a `u32` is not 0.
    pub open spec fn summary_in_range(&self) -> bool {
        forall|k: Seq<char>|
            #[trigger] self.recorded().contains_key(k) ==> spans_in_range(self.recorded()[k])
    }

    /// Whether `summary` can be computed without fault.
    pub fn summary_fits(&self) -> (b: bool)
        requires
            self.wf(),
        ensures
            b == self.summary_in_range(),
    {
        let ghost e = self.timings@;
        let mut i: usize = 0;
        while i < self.timings.len()
            invariant
                e == self.timings@,
                self.wf(),
                i <= e.len(),
                forall|j: int| 0 <= j < i ==> spans_in_range(#[trigger] e[j].1@),
            decreases e.len() - i,
        {
            if !spans_fit(&self.timings[i].1) {
                proof {
                    lemma_spans_of_index(e, i as int);
                    assert(self.recorded().contains_key(e[i as int].0@));
                }
                return false;
            }
            i += 1;
        }
        proof {
            assert forall|k: Seq<char>| #[trigger] self.recorded().contains_key(k) implies spans_in_range(
                self.recorded()[k],
            ) by {
                lemma_spans_of_lookup(e, k);
                if forall|p: int| 0 <= p < e.len() ==> #[trigger] e[p].0@ != k {
                    assert(spans_of(e, k).len() == 0);
                } else {
                    let p = choose|p: int| 0 <= p < e.len() && #[trigger] e[p].0@ == k;
                    assert(spans_in_range(e[p].1@));
                }
            }
        }
        true
    }

    /// The statistics of every recorded operation, each once, the longest in
    /// total first (the order of operations of equal total is left open).
    #[verifier::spinoff_prover]
    pub fn summary(&self) -> (s: PerformanceSummary)
        requires
            self.wf(),
            self.summary_in_range(),
        ensures
            forall|i: int, j: int|
                0 <= i < j < s.operations@.len() ==> #[trigger] s.operations@[i].name@
                    != #[trigger] s.operations@[j].name@,
            forall|i: int|
                0 <= i < s.operations@.len() ==> self.recorded().contains_key(
                    #[trigger] s.operations@[i].name@,
                ) && is_operation_stats(s.operations@[i], self.recorded()[s.operations@[i].name@]),
            forall|k: Seq<char>|
                #[trigger] self.recorded().contains_key(k) ==> exists|i: int|
                    0 <= i < s.operations@.len() && s.operations@[i].name@ == k,
            sorted_by_rank(s.operations@),
            forall|i: int, j: int|
                #![trigger s.operations@[i], s.operations@[j]]
                0 <= i < j < s.operations@.len() ==> s.operations@[j].total.total_nanos()
                    <= s.operations@[i].total.total_nanos(),
    {
        let mut ops: Vec<OperationStats> = Vec::new();
        let mut i: usize = 0;
        let ghost e = self.timings@;
        while i < self.timings.len()
            invariant
                e == self.timings@,
                self.wf(),
                self.summary_in_range(),
                i <= e.len(),
                ops@.len() == i,
                forall|k: int| 0 <= k < i ==> #[trigger] ops@[k].name@ == e[k].0@,
                forall|k: int| 0 <= k < i ==> is_operation_stats(#[trigger] ops@[k], e[k].1@),
            decreases e.len() - i,
        {
            proof {
                lemma_spans_of_index(e, i as int);
                assert(self.recorded().contains_key(e[i as int].0@));
            }
            let o = operation_stats(&self.timings[i].0, &self.timings[i].1);
            let ghost before = ops@;
            ops.push(o);
            proof {
                assert(ops@[i as int] == o);
                assert forall|k: int| 0 <= k < i implies ops@[k] == before[k] by {}
            }
            i += 1;
        }
        let ghost unsorted = ops@;
        proof {
            assert(unsorted.no_duplicates()) by {
                assert forall|a: int, b: int|
                    0 <= a < unsorted.len() && 0 <= b < unsorted.len() && a != b implies unsorted[a]
                    != unsorted[b] by {
                    assert(unsorted[a].name@ == e[a].0@);
                    assert(unsorted[b].name@ == e[b].0@);
                    assert(names_distinct(e));
                    if a < b {
                        assert(e[a].0@ != e[b].0@);
                    } else {
                        assert(e[b].0@ != e[a].0@);
                    }
                }
            }
        }
        sort_ranked(&mut ops);
        proof {
            lemma_permutation_members(unsorted, ops@);
            lemma_permutation_members(ops@, unsorted);
            assert forall|a: int, b: int|
                0 <= a < b < ops@.len() implies #[trigger] ops@[a].name@ != #[trigger] ops@[b].name@ by {
                let p = choose|p: int| 0 <= p < unsorted.len() && unsorted[p] == ops@[a];
                let q = choose|q: int| 0 <= q < unsorted.len() && unsorted[q] == ops@[b];
                assert(unsorted[p].name@ == e[p].0@);
                assert(unsorted[q].name@ == e[q].0@);
                assert(names_distinct(e));
                if p != q {
                    if p < q {
                        assert(e[p].0@ != e[q].0@);
                    } else {
                        assert(e[q].0@ != e[p].0@);
                    }
                }
            }
            assert forall|a: int|
                0 <= a < ops@.len() implies self.recorded().contains_key(#[trigger] ops@[a].name@)
                && is_operation_stats(ops@[a], self.recorded()[ops@[a].name@]) by {
                let p = choose|p: int| 0 <= p < unsorted.len() && unsorted[p] == ops@[a];
                assert(unsorted[p].name@ == e[p].0@);
                lemma_spans_of_index(e, p);
            }
            assert forall|k: Seq<char>| #[trigger] self.recorded().contains_key(k) implies exists|a: int|
                0 <= a < ops@.len() && ops@[a].name@ == k by {
                lemma_spans_of_lookup(e, k);
                if forall|p: int| 0 <= p < e.len() ==> #[trigger] e[p].0@ != k {
                    assert(spans_of(e, k).len() == 0);
                } else {
                    let p = choose|p: int| 0 <= p < e.len() && #[trigger] e[p].0@ == k;
                    assert(unsorted[p].name@ == e[p].0@);
                    assert(unsorted[p].name@ == k);
                    assert(ops@.contains(unsorted[p]));
                    let a = choose|a: int| 0 <= a < ops@.len() && ops@[a] == unsorted[p];
                    assert(ops@[a].name@ == k);
                }
            }
        }
        proof {
            assert forall|a: int, b: int|
                #![trigger ops@[a], ops@[b]]
                0 <= a < b < ops@.len() implies ops@[b].total.total_nanos()
                <= ops@[a].total.total_nanos() by {
                assert(ops@[a].precedes(&ops@[b]));
            }
        }
        let s = PerformanceSummary { operations: ops };
        assert forall|k: Seq<char>| #[trigger] self.recorded().contains_key(k) implies exists|a: int|
            0 <= a < s.operations@.len() && s.operations@[a].name@ == k by {
            let a = choose|a: int| 0 <= a < ops@.len() && ops@[a].name@ == k;
            assert(s.operations@[a].name@ == k);
        }
        s
    }
}

/// Whether debug messages are shown.
#[derive(Debug, Clone, Copy, PartialEq, Eq, Structural)]
pub struct DebugLogger {
    enabled: bool,
}

impl DebugLogger {
    pub closed spec fn enabled(&self) -> bool {
        self.enabled
    }

    pub fn new(enabled: bool) -> (l: DebugLogger)
        ensures
            l.enabled() == enabled,
    {
        DebugLogger { enabled }
    }

    /// Whether messages are shown.
    pub fn is_enabled(&self) -> (b: bool)
        ensures
            b == self.enabled(),
    {
        self.enabled
    }
}

} // verus!
