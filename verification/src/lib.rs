//! Statistics over the history of a Git repository: activity and churn
//! series, author rankings, file hotspots, coupling, ownership, stability and
//! release metrics, computed from plain commit records.
use vstd::prelude::*;

pub mod cache;
pub mod clock;
pub mod config;
pub mod labels;
pub mod locations;
pub mod parallel;
pub mod session;
pub mod sorting;
pub mod stats;
pub mod tally;
pub mod telemetry;
pub mod text;

verus! {
} // verus!
