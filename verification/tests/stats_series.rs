use crabgit::stats::activity::{
    bucket_start, compute_activity, instant_in_range, month_floor, parse_instant,
    parse_instant_at, parse_instant_checked, ActivityPoint,
};
use crabgit::stats::authors::{compute_authors, rank_authors, AuthorSample, AuthorStats};
use crabgit::stats::branches::{compute_branch_activity, BranchCommit};
use crabgit::stats::calendar::{compute_calendar, CalendarHeatmap};
use crabgit::stats::churn::{compute_churn, ChurnPoint, ChurnSample};
use crabgit::stats::{within_window, AuthorMetric, Bucket};
use std::time::{SystemTime, UNIX_EPOCH};
use time::{Date, Month};

fn now_secs() -> i64 {
    SystemTime::now().duration_since(UNIX_EPOCH).unwrap().as_secs() as i64
}

fn month_start(year: i32, month: Month) -> i64 {
    let d = Date::from_calendar_date(year, month, 1).unwrap();
    time::PrimitiveDateTime::new(d, time::Time::MIDNIGHT).assume_utc().unix_timestamp()
}

#[test]
fn test_bucket_start_day() {
    let ts = 1609459200 + 3661;
    let expected = 1609459200;
    assert_eq!(bucket_start(ts, Bucket::Day), expected);

    let ts2 = 1609459200 + 86399;
    assert_eq!(bucket_start(ts2, Bucket::Day), expected);
}

#[test]
fn test_bucket_start_week() {
    let ts: i64 = 1609459200;
    let day = ts / 86_400;
    let week_day0 = day - (day % 7);
    let expected = week_day0 * 86_400;

    assert_eq!(bucket_start(ts, Bucket::Week), expected);

    let ts2 = ts + (2 * 86_400);
    assert_eq!(bucket_start(ts2, Bucket::Week), expected);
}

#[test]
fn test_bucket_start_month() {
    let ts = 1609459200 + 15 * 86_400;
    assert_eq!(bucket_start(ts, Bucket::Month), month_start(2021, Month::January));
}

#[test]
fn test_month_floor() {
    let ts = 1609459200 + 15 * 86_400;
    assert_eq!(month_floor(ts), month_start(2021, Month::January));

    let feb_ts = 1612137600;
    assert_eq!(month_floor(feb_ts + 10 * 86_400), month_start(2021, Month::February));
}

#[test]
fn bucket_start_of_negative_times_rounds_down() {
    assert_eq!(bucket_start(-1, Bucket::Day), -86_400);
    assert_eq!(bucket_start(-86_400, Bucket::Day), -86_400);
    assert_eq!(bucket_start(-86_401, Bucket::Day), -172_800);
    assert_eq!(bucket_start(-1, Bucket::Week), -604_800);
    assert_eq!(bucket_start(604_799, Bucket::Week), 0);
    assert_eq!(bucket_start(i64::MAX, Bucket::Day) % 86_400, 0);
    assert_eq!(month_floor(-1), month_start(1969, Month::December));
}

#[test]
fn test_parse_instant_relative_formats() {
    let now = now_secs();
    let result = parse_instant(Some("7d")).unwrap();
    assert!((result - (now - 7 * 86_400)).abs() <= 1, "7d parsing should be accurate");
    let result = parse_instant(Some("2w")).unwrap();
    assert!((result - (now - 2 * 7 * 86_400)).abs() <= 1, "2w parsing should be accurate");
    let result = parse_instant(Some("3m")).unwrap();
    assert!((result - (now - 3 * 30 * 86_400)).abs() <= 1, "3m parsing should be accurate");
    let result = parse_instant(Some("1y")).unwrap();
    assert!((result - (now - 365 * 86_400)).abs() <= 1, "1y parsing should be accurate");
    let result = parse_instant(Some("0d")).unwrap();
    assert!((result - now).abs() <= 1, "0d should be approximately now");
}

#[test]
fn test_parse_instant_absolute_dates() {
    let day = |y: i32, m: Month, d: u8| {
        let date = Date::from_calendar_date(y, m, d).unwrap();
        time::PrimitiveDateTime::new(date, time::Time::MIDNIGHT).assume_utc().unix_timestamp()
    };
    assert_eq!(parse_instant(Some("2021-01-01")), Some(day(2021, Month::January, 1)));
    assert_eq!(parse_instant(Some("2023-12-25")), Some(day(2023, Month::December, 25)));
    assert_eq!(parse_instant(Some("2020-02-29")), Some(day(2020, Month::February, 29)));
}

#[test]
fn test_parse_instant_edge_cases() {
    assert_eq!(parse_instant(None), None);
    assert_eq!(parse_instant(Some("")), None);
    assert_eq!(parse_instant(Some("invalid")), None);
    assert_eq!(parse_instant(Some("30x")), None);
    assert_eq!(parse_instant(Some("2021-13-01")), None);
    assert_eq!(parse_instant(Some("2021-02-30")), None);
    assert_eq!(parse_instant(Some("abc-def-ghi")), None);
    assert_eq!(parse_instant(Some("d")), None);
    assert_eq!(parse_instant(Some("10")), None);
    assert!(parse_instant(Some("-5d")).is_some());
}

#[test]
fn test_parse_instant_boundary_values() {
    assert!(parse_instant(Some("999d")).is_some(), "Should handle large day values");
    assert!(parse_instant(Some("52w")).is_some(), "Should handle large week values");
    assert!(parse_instant(Some("12m")).is_some(), "Should handle large month values");
    assert!(parse_instant(Some("100y")).is_some(), "Should handle large year values");
}

#[test]
fn parse_instant_at_fixed_clock() {
    assert_eq!(parse_instant_at("2d", 1_000_000), Some(1_000_000 - 172_800));
    assert_eq!(parse_instant_at("-1w", 0), Some(604_800));
    assert_eq!(parse_instant_at("1970-01-01", 5), Some(0));
    assert_eq!(parse_instant_at("nope", 5), None);
    assert!(instant_in_range("30d"));
    assert!(!instant_in_range("9223372036854775807y"));
}

#[test]
fn test_time_parsing_consistency() {
    for test_case in ["30d", "2w", "6m", "1y", "2023-01-15", "2024-12-31"] {
        if let Some(timestamp) = parse_instant(Some(test_case)) {
            assert!(timestamp > 0, "Timestamp should be positive for: {}", test_case);
        }
    }
}

#[test]
fn test_activity_point_creation() {
    let point = ActivityPoint { bucket_start: 1609459200, commits: 42 };
    assert_eq!(point.bucket_start, 1609459200);
    assert_eq!(point.commits, 42);
}

#[test]
fn activity_series_counts_per_bucket_in_window() {
    let day = 86_400;
    let times = vec![5 * day + 10, 5 * day + 20, 2 * day, 9 * day, 1 * day];
    let series = compute_activity(&times, Some(2 * day), Some(6 * day), Bucket::Day);
    assert_eq!(
        series,
        vec![
            ActivityPoint { bucket_start: 2 * day, commits: 1 },
            ActivityPoint { bucket_start: 5 * day, commits: 2 },
        ]
    );
    let all = compute_activity(&times, None, None, Bucket::Day);
    let total: u64 = all.iter().map(|p| p.commits).sum();
    assert_eq!(total, times.len() as u64);
}

#[test]
fn churn_series_skips_merges_when_asked() {
    let day = 86_400;
    let samples = vec![
        ChurnSample { ts: day, parents: 1, adds: 10, dels: 2 },
        ChurnSample { ts: day + 5, parents: 2, adds: 100, dels: 100 },
        ChurnSample { ts: 3 * day, parents: 0, adds: 1, dels: 0 },
    ];
    let with_merges = compute_churn(&samples, None, None, false, Bucket::Day);
    assert_eq!(
        with_merges,
        vec![
            ChurnPoint { bucket_start: day, adds: 110, dels: 102 },
            ChurnPoint { bucket_start: 3 * day, adds: 1, dels: 0 },
        ]
    );
    let no_merges = compute_churn(&samples, None, None, true, Bucket::Day);
    assert_eq!(no_merges[0], ChurnPoint { bucket_start: day, adds: 10, dels: 2 });
}

#[test]
fn window_bounds_are_inclusive() {
    assert!(within_window(5, Some(5), Some(5)));
    assert!(!within_window(4, Some(5), None));
    assert!(!within_window(6, None, Some(5)));
    assert!(within_window(i64::MIN, None, None));
}

fn sample(ts: i64, author: Option<&str>, parents: u32, adds: u64, dels: u64) -> AuthorSample {
    AuthorSample { ts, author: author.map(|s| s.to_string()), parents, adds, dels }
}

#[test]
fn test_author_stats_creation() {
    let stats = AuthorStats {
        author: "Alice Developer".to_string(),
        commits: 42,
        adds: 1500,
        dels: 750,
    };
    assert_eq!(stats.author, "Alice Developer");
    assert_eq!(stats.commits, 42);
    assert_eq!(stats.adds, 1500);
    assert_eq!(stats.dels, 750);
    let total_churn = stats.adds + stats.dels;
    assert_eq!(total_churn, 2250);
}

#[test]
fn test_author_stats_ordering() {
    let alice = AuthorStats { author: "Alice".to_string(), commits: 100, adds: 2000, dels: 500 };
    let bob = AuthorStats { author: "Bob".to_string(), commits: 75, adds: 1500, dels: 300 };
    let charlie = AuthorStats { author: "Charlie".to_string(), commits: 100, adds: 1800, dels: 400 };

    assert!(alice.commits > bob.commits);
    assert_eq!(alice.commits, charlie.commits);

    let alice_churn = alice.adds + alice.dels;
    let bob_churn = bob.adds + bob.dels;
    let charlie_churn = charlie.adds + charlie.dels;

    assert!(alice_churn > bob_churn);
    assert!(alice_churn > charlie_churn);
    assert!(charlie_churn > bob_churn);
}

#[test]
fn test_author_stats_cloning() {
    let original = AuthorStats { author: "Original Author".to_string(), commits: 25, adds: 800, dels: 200 };
    let cloned = original.clone();
    assert_eq!(original.author, cloned.author);
    assert_eq!(original.commits, cloned.commits);
    assert_eq!(original.adds, cloned.adds);
    assert_eq!(original.dels, cloned.dels);
}

#[test]
fn test_author_stats_debug_format() {
    let stats = AuthorStats { author: "Debug Test".to_string(), commits: 5, adds: 100, dels: 25 };
    let debug_str = format!("{:?}", stats);
    assert!(debug_str.contains("Debug Test"));
    assert!(debug_str.contains("5"));
    assert!(debug_str.contains("100"));
    assert!(debug_str.contains("25"));
    assert!(debug_str.contains("AuthorStats"));
}

#[test]
fn test_author_stats_edge_cases() {
    let commits_only = AuthorStats { author: "Commits Only".to_string(), commits: 10, adds: 0, dels: 0 };
    assert_eq!(commits_only.adds + commits_only.dels, 0);

    let deletions_only = AuthorStats { author: "Cleanup Expert".to_string(), commits: 5, adds: 0, dels: 1000 };
    assert_eq!(deletions_only.adds, 0);
    assert_eq!(deletions_only.dels, 1000);

    let additions_only = AuthorStats { author: "Feature Creator".to_string(), commits: 3, adds: 2000, dels: 0 };
    assert_eq!(additions_only.adds, 2000);
    assert_eq!(additions_only.dels, 0);
}

#[test]
fn authors_are_grouped_filtered_and_ranked() {
    let samples = vec![
        sample(100, Some("Bob"), 1, 5, 5),
        sample(200, Some("Alice"), 1, 1, 0),
        sample(300, Some("Alice"), 1, 1, 0),
        sample(400, None, 1, 7, 0),
        sample(500, Some("Bob"), 2, 50, 50),
        sample(10, Some("Carol"), 1, 9, 9),
    ];
    let table = compute_authors(&samples, Some(100), None, true);
    let names: Vec<&str> = table.iter().map(|a| a.author.as_str()).collect();
    assert_eq!(names, vec!["Alice", "Bob", "Unknown"]);
    assert_eq!(table[0].commits, 2);
    assert_eq!(table[1].commits, 1);
    assert_eq!(table[1].adds + table[1].dels, 10);
    assert_eq!(table[2].adds, 7);

    let with_merges = compute_authors(&samples, Some(100), None, false);
    assert_eq!(with_merges[0].author, "Bob");
    assert_eq!(with_merges[0].commits, 2);
    assert_eq!(with_merges[0].adds, 55);
    let total: u64 = with_merges.iter().map(|a| a.commits).sum();
    assert_eq!(total, 5);
}

#[test]
fn author_ranking_by_churn_and_top() {
    let samples = vec![
        sample(1, Some("A"), 1, 1, 1),
        sample(2, Some("A"), 1, 1, 1),
        sample(3, Some("B"), 1, 100, 0),
        sample(4, Some("C"), 1, 3, 0),
    ];
    let table = compute_authors(&samples, None, None, false);
    assert_eq!(table[0].author, "A");
    let by_churn = rank_authors(table.clone(), AuthorMetric::Churn, 2);
    let names: Vec<&str> = by_churn.iter().map(|a| a.author.as_str()).collect();
    assert_eq!(names, vec!["B", "A"]);
    let by_commits = rank_authors(table, AuthorMetric::Commits, 10);
    assert_eq!(by_commits.len(), 3);
    assert_eq!(by_commits[0].author, "A");
}

#[test]
fn test_calendar_heatmap_creation() {
    let matrix = [[0u64; 24]; 7];
    let heatmap = CalendarHeatmap { matrix };
    assert_eq!(heatmap.matrix.len(), 7);
    assert_eq!(heatmap.matrix[0].len(), 24);
    for day in 0..7 {
        for hour in 0..24 {
            assert_eq!(heatmap.matrix[day][hour], 0);
        }
    }
}

#[test]
fn test_calendar_matrix_indexing() {
    let mut matrix = [[0u64; 24]; 7];
    matrix[0][10] = 10;
    matrix[6][22] = 20;
    let heatmap = CalendarHeatmap { matrix };
    assert_eq!(heatmap.matrix[0][10], 10);
    assert_eq!(heatmap.matrix[6][22], 20);
    assert_eq!(heatmap.matrix[0][9], 0);
    assert_eq!(heatmap.matrix[6][21], 0);
}

#[test]
fn test_calendar_matrix_boundaries() {
    let mut matrix = [[0u64; 24]; 7];
    matrix[0][0] = 1;
    matrix[0][23] = 2;
    matrix[6][0] = 3;
    matrix[6][23] = 4;
    let heatmap = CalendarHeatmap { matrix };
    assert_eq!(heatmap.matrix[0][0], 1);
    assert_eq!(heatmap.matrix[0][23], 2);
    assert_eq!(heatmap.matrix[6][0], 3);
    assert_eq!(heatmap.matrix[6][23], 4);
}

#[test]
fn test_calendar_large_values() {
    let mut matrix = [[0u64; 24]; 7];
    matrix[3][15] = u64::MAX / 2;
    let heatmap = CalendarHeatmap { matrix };
    assert_eq!(heatmap.matrix[3][15], u64::MAX / 2);
}

#[test]
fn test_calendar_clone_and_debug() {
    let mut matrix = [[0u64; 24]; 7];
    matrix[2][12] = 42;
    let original = CalendarHeatmap { matrix };
    let cloned = original.clone();
    assert_eq!(original.matrix[2][12], cloned.matrix[2][12]);
    let debug_str = format!("{:?}", original);
    assert!(debug_str.contains("CalendarHeatmap"));
    assert!(debug_str.contains("matrix"));
}

#[test]
fn test_calendar_time_consistency() {
    // 2021-01-01 (Friday), 2021-01-02 (Saturday), 2021-01-03 (Sunday), all at 00:00 UTC.
    let m = compute_calendar(&[1609459200, 1609545600, 1609632000, 1609632000 + 13 * 3600]);
    assert_eq!(m.matrix[4][0], 1);
    assert_eq!(m.matrix[5][0], 1);
    assert_eq!(m.matrix[6][0], 1);
    assert_eq!(m.matrix[6][13], 1);
    let total: u64 = m.matrix.iter().flatten().sum();
    assert_eq!(total, 4);
}

#[test]
fn calendar_out_of_range_times_count_as_epoch() {
    let m = compute_calendar(&[i64::MAX, 0]);
    assert_eq!(m.matrix[3][0], 2);
}

#[test]
fn branch_activity_counts_merges_twice_in_the_ratio_base() {
    let commits = vec![
        BranchCommit { ts: 10, parents: 1, churn: Some((3, 1)) },
        BranchCommit { ts: 20, parents: 2, churn: Some((5, 5)) },
        BranchCommit { ts: 30, parents: 1, churn: None },
        BranchCommit { ts: 99, parents: 1, churn: Some((1, 1)) },
    ];
    let a = compute_branch_activity(&commits, None, Some(50), false);
    assert_eq!(a.commits, 3);
    assert_eq!(a.merge_commits, 1);
    assert_eq!((a.adds, a.dels), (8, 6));
    assert_eq!(a.ratio_base, 4);
    let b = compute_branch_activity(&commits, None, Some(50), true);
    assert_eq!(b.commits, 2);
    assert_eq!(b.merge_commits, 1);
    assert_eq!((b.adds, b.dels), (3, 1));
    assert_eq!(b.ratio_base, 2);
}

#[test]
fn test_recency_weight_calculation() {
    let half_life_days = 90.0;
    let reference_ts: i64 = 1_640_995_200;

    let test_cases = vec![
        (reference_ts, 1.0),
        (reference_ts - 90 * 86_400, 0.5),
        (reference_ts - 180 * 86_400, 0.25),
        (reference_ts - 270 * 86_400, 0.125),
    ];

    for (commit_ts, expected_weight) in test_cases {
        let age_days = ((reference_ts - commit_ts) as f64) / 86_400.0;
        let weight: f64 = 0.5f64.powf(age_days / half_life_days);
        assert!(
            (weight - expected_weight).abs() < 0.001,
            "Weight for age {} days should be approximately {}",
            age_days,
            expected_weight
        );
    }
}

#[test]
fn parse_instant_checked_refuses_only_overflow() {
    assert_eq!(parse_instant_checked(None), Some(None));
    assert_eq!(parse_instant_checked(Some("2024-01-01")), Some(Some(1_704_067_200)));
    assert_eq!(parse_instant_checked(Some("nonsense")), Some(None));
    let t = parse_instant_checked(Some("1d")).unwrap().unwrap();
    let now = std::time::SystemTime::now().duration_since(std::time::UNIX_EPOCH).unwrap().as_secs() as i64;
    assert!((t - (now - 86_400)).abs() <= 2);
    assert_eq!(parse_instant_checked(Some("9223372036854775807y")), None);
    assert_eq!(parse_instant_checked(Some("-9223372036854775807d")), None);
}
