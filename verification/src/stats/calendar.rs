//! Commits by weekday and hour of day (UTC).
use vstd::prelude::*;

use crate::clock::{spec_utc_fields, utc_fields};
use crate::tally::{lemma_seq_total_raise, lemma_seq_total_zeros, seq_total};

verus! {

/// Commit counts: one row per weekday (Monday first), one column per hour
/// of the day in UTC.
#[derive(Debug, Clone, Copy)]
pub struct CalendarHeatmap {
    pub matrix: [[u64; 24]; 7],
}

/// The weekday (Monday = 0) and hour in UTC of a commit time; a time beyond
/// the calendar's range counts as the Unix epoch, a Thursday at hour 0.
pub open spec fn calendar_cell(ts: i64) -> (int, int) {
    match spec_utc_fields(ts) {
        Some(f) => (f.2 as int, f.3 as int),
        None => (3, 0),
    }
}

/// Commits in the cell of weekday `w` and hour `h`.
pub open spec fn cell_count(s: Seq<i64>, w: int, h: int) -> nat
    decreases s.len(),
{
    if s.len() == 0 {
        0
    } else {
        cell_count(s.drop_last(), w, h) + if calendar_cell(s.last()) == (w, h) {
            1nat
        } else {
            0nat
        }
    }
}

proof fn lemma_cell_count_bound(s: Seq<i64>, w: int, h: int)
    ensures
        cell_count(s, w, h) <= s.len(),
    decreases s.len(),
{
    if s.len() > 0 {
        lemma_cell_count_bound(s.drop_last(), w, h);
    }
}

/// The counts of one weekday's row.
pub open spec fn row_counts(m: [[u64; 24]; 7], w: int) -> Seq<int> {
    Seq::new(24, |h: int| m@[w]@[h] as int)
}

/// The sum of every cell of the table.
pub open spec fn heatmap_total(m: [[u64; 24]; 7]) -> int {
    seq_total(Seq::new(7, |w: int| seq_total(row_counts(m, w))))
}

/// Raising one cell by one raises the table's sum by one.
proof fn lemma_heatmap_bump(before: [[u64; 24]; 7], after: [[u64; 24]; 7], w: int, h: int)
    requires
        0 <= w < 7,
        0 <= h < 24,
        after@[w]@[h] == before@[w]@[h] + 1,
        forall|a: int, b: int|
            0 <= a < 7 && 0 <= b < 24 && (a != w || b != h) ==> #[trigger] after@[a]@[b]
                == before@[a]@[b],
    ensures
        heatmap_total(after) == heatmap_total(before) + 1,
{
    let rb = row_counts(before, w);
    assert(row_counts(after, w) =~= rb.update(h, rb[h] + 1));
    lemma_seq_total_raise(rb, h, 1);
    let tb = Seq::new(7, |a: int| seq_total(row_counts(before, a)));
    let ta = Seq::new(7, |a: int| seq_total(row_counts(after, a)));
    assert forall|a: int| 0 <= a < 7 && a != w implies row_counts(after, a) =~= row_counts(
        before,
        a,
    ) by {}
    assert(ta =~= tb.update(w, tb[w] + 1));
    lemma_seq_total_raise(tb, w, 1);
}

/// The weekday-by-hour table of the commits at the given times; each commit
/// is counted in exactly one cell, so the cells add up to the commits.
pub fn compute_calendar(timestamps: &[i64]) -> (c: CalendarHeatmap)
    ensures
        forall|w: int, h: int|
            0 <= w < 7 && 0 <= h < 24 ==> #[trigger] c.matrix@[w]@[h] == cell_count(timestamps@, w, h),
        heatmap_total(c.matrix) == timestamps@.len(),
{
    let mut m = [[0u64; 24]; 7];
    proof {
        assert(heatmap_total(m) == 0) by {
            assert forall|a: int| 0 <= a < 7 implies seq_total(#[trigger] row_counts(m, a)) == 0 by {
                assert(row_counts(m, a) =~= Seq::new(24, |h: int| 0int));
                lemma_seq_total_zeros(24);
            }
            assert(Seq::new(7, |a: int| seq_total(row_counts(m, a))) =~= Seq::new(7, |a: int| 0int));
            lemma_seq_total_zeros(7);
        }
    }
    let mut i: usize = 0;
    while i < timestamps.len()
        invariant
            i <= timestamps.len(),
            forall|w: int, h: int|
                0 <= w < 7 && 0 <= h < 24 ==> #[trigger] m@[w]@[h] == cell_count(
                    timestamps@.subrange(0, i as int),
                    w,
                    h,
                ),
            heatmap_total(m) == i,
        decreases timestamps.len() - i,
    {
        let ghost prev = timestamps@.subrange(0, i as int);
        let ghost next = timestamps@.subrange(0, i + 1);
        proof {
            assert(next.drop_last() =~= prev);
            assert(next.last() == timestamps@[i as int]);
        }
        let ts = timestamps[i];
        let (w, h): (usize, usize) = match utc_fields(ts) {
            Some(f) => (f.2 as usize, f.3 as usize),
            None => (3, 0),
        };
        proof {
            assert(calendar_cell(ts) == (w as int, h as int));
            lemma_cell_count_bound(prev, w as int, h as int);
            assert(prev.len() == i);
        }
        let ghost before = m;
        let v = m[w][h] + 1;
        m[w][h] = v;
        proof {
            assert forall|a: int, b: int|
                0 <= a < 7 && 0 <= b < 24 implies #[trigger] m@[a]@[b] == cell_count(next, a, b) by {
                if a != w as int || b != h as int {
                    assert(m@[a]@[b] == before@[a]@[b]);
                }
            }
            lemma_heatmap_bump(before, m, w as int, h as int);
        }
        i += 1;
    }
    proof {
        assert(timestamps@.subrange(0, timestamps@.len() as int) =~= timestamps@);
    }
    CalendarHeatmap { matrix: m }
}

} // verus!
