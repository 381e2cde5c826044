//! Repository statistics. Each analysis takes plain commit records that the
//! caller read from the repository and returns plain results.
use vstd::prelude::*;

pub mod activity;
pub mod authors;
pub mod branches;
pub mod calendar;
pub mod churn;
pub mod contributors;
pub mod coupling;
pub mod hotspots;
pub mod ownership;
pub mod path_filter;
pub mod releases;
pub mod stability;

verus! {

/// Aggregation bucket of a time series.
#[derive(Copy, Clone, Debug, PartialEq, Eq, Structural)]
pub enum Bucket {
    Day,
    Week,
    Month,
}

/// How a report is rendered.
#[derive(Copy, Clone, Debug, PartialEq, Eq, Structural)]
pub enum OutputFormat {
    Json,
    Table,
    Chart,
}

/// Which repository-level series is computed.
#[derive(Copy, Clone, Debug, PartialEq, Eq, Structural)]
pub enum StatsMetric {
    Activity,
    Churn,
}

/// How authors are ranked.
#[derive(Copy, Clone, Debug, PartialEq, Eq, Structural)]
pub enum AuthorMetric {
    Commits,
    Churn,
}

/// The options shared by the statistics commands.
#[derive(Debug, Clone)]
pub struct StatsContext {
    pub repo_path: String,
    pub since: Option<String>,
    pub until: Option<String>,
    pub bucket: Bucket,
    pub no_merges: bool,
    pub include_pattern: Option<String>,
    pub exclude_pattern: Option<String>,
}

/// Whether a commit time lies in the window `[since, until]`; either end may
/// be open.
pub open spec fn in_window(ts: i64, since: Option<i64>, until: Option<i64>) -> bool {
    &&& since matches Some(s) ==> ts >= s
    &&& until matches Some(u) ==> ts <= u
}

/// The window is closed at both ends: a time lies in it exactly when it is
/// not before `since` and not after `until`, an absent end bounding
/// nothing.
pub proof fn lemma_window_closed(ts: i64, s: i64, u: i64)
    ensures
        in_window(ts, Some(s), Some(u)) <==> s <= ts <= u,
        in_window(ts, Some(s), None) <==> s <= ts,
        in_window(ts, None, Some(u)) <==> ts <= u,
        in_window(ts, None, None),
{
}

pub fn within_window(ts: i64, since: Option<i64>, until: Option<i64>) -> (b: bool)
    ensures
        b == in_window(ts, since, until),
{
    if let Some(s) = since {
        if ts < s {
            return false;
        }
    }
    if let Some(u) = until {
        if ts > u {
            return false;
        }
    }
    true
}

} // verus!
