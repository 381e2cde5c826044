use crabgit::cache::cache_dir_from;
use crabgit::config::{
    config_path_from, duration_fits, parse_duration_to_days, parse_duration_to_days_checked,
    ConfigOverrides, GlobalConfig,
};
use crabgit::stats::contributors::top_contributors;
use crabgit::telemetry::{PerfMetrics, TimeSpan};
use crabgit::parallel::chunk_ranges;
use crabgit::session::{tui_next, TuiAction, TuiKey, TAB_COUNT};
use crabgit::stats::activity::{compute_activity, parse_instant};
use crabgit::stats::authors::{compute_authors, AuthorSample};
use crabgit::stats::branches::{branch_order, compute_branch_activity};
use crabgit::stats::calendar::compute_calendar;
use crabgit::stats::churn::{compute_churn, ChurnSample};
use crabgit::stats::coupling::analyze_coupling;
use crabgit::stats::hotspots::{compute_file_churn, HotspotChange};
use crabgit::stats::ownership::{
    calculate_overall_ownership, last_modification, select_blame_files, OwnedFile,
};
use crabgit::stats::path_filter::CompiledPathFilters;
use crabgit::stats::releases::{
    assemble_releases, order_tags, release_date_range_days, release_pairs, release_totals, TagCounts,
    TagInfo,
    TagType,
};
use crabgit::stats::Bucket;
use time::OffsetDateTime;

#[test]
fn right_then_left_returns_to_the_tab() {
    for start in 0..TAB_COUNT {
        for (first, back) in [(TuiKey::Right, TuiKey::Left), (TuiKey::Left, TuiKey::Right)] {
            let TuiAction::Show(t) = tui_next(start, TAB_COUNT, first) else { panic!("quit") };
            assert_eq!(tui_next(t, TAB_COUNT, back), TuiAction::Show(start));
        }
    }
}

#[test]
fn overrides_applied_twice_equal_once() {
    let o = ConfigOverrides {
        debug: Some(true),
        cache_enabled: Some(false),
        parallel_enabled: None,
        max_threads: Some(3),
    };
    let once = GlobalConfig::default().with_overrides(o);
    let twice = GlobalConfig::default().with_overrides(o).with_overrides(o);
    assert_eq!(once.debug.enabled, twice.debug.enabled);
    assert_eq!(once.debug.timing, twice.debug.timing);
    assert_eq!(once.cache.enabled, twice.cache.enabled);
    assert_eq!(once.parallel, twice.parallel);
    assert_eq!(once.default_window, twice.default_window);
    assert_eq!(twice.parallel.max_threads, 3);
}

#[test]
fn duration_unit_case_does_not_matter() {
    for (lower, upper) in [("7d", "7D"), ("2w", "2W"), ("3m", "3M"), ("1y", "1Y"), ("5x", "5X")] {
        assert_eq!(parse_duration_to_days(lower), parse_duration_to_days(upper));
    }
}

#[test]
fn batches_cover_the_items_once() {
    assert_eq!(chunk_ranges(10, 3), vec![(0, 3), (3, 6), (6, 9), (9, 10)]);
    assert_eq!(chunk_ranges(6, 3), vec![(0, 3), (3, 6)]);
    assert_eq!(chunk_ranges(2, 5), vec![(0, 2)]);
    assert!(chunk_ranges(0, 4).is_empty());
}

#[test]
fn heatmap_cells_add_up_to_the_commits() {
    let times: Vec<i64> = vec![0, 3_600, 90_000, 1_609_459_200, 1_609_459_200, -86_400, i64::MAX];
    let c = compute_calendar(&times);
    let total: u64 = c.matrix.iter().flatten().sum();
    assert_eq!(total, times.len() as u64);
}

#[test]
fn activity_buckets_add_up_to_the_window() {
    let day = 86_400;
    let times = vec![0, 10, day, day + 5, 3 * day, 10 * day];
    let points = compute_activity(&times, Some(5), Some(3 * day), Bucket::Day);
    let total: u64 = points.iter().map(|p| p.commits).sum();
    assert_eq!(total, 4);
}

#[test]
fn churn_buckets_add_up_to_the_counted_lines() {
    let s = |ts: i64, parents: u32, adds: u64, dels: u64| ChurnSample { ts, parents, adds, dels };
    let samples = vec![s(0, 1, 5, 1), s(100, 2, 7, 7), s(200_000, 1, 3, 0), s(900_000, 1, 1, 1)];
    let points = compute_churn(&samples, None, Some(200_000), true, Bucket::Week);
    let adds: u64 = points.iter().map(|p| p.adds).sum();
    let dels: u64 = points.iter().map(|p| p.dels).sum();
    assert_eq!((adds, dels), (8, 1));
}

#[test]
fn author_table_credits_each_commit_once() {
    let s = |author: Option<&str>, parents: u32, adds: u64| AuthorSample {
        ts: 1_000,
        author: author.map(|a| a.to_string()),
        parents,
        adds,
        dels: 1,
    };
    let samples = vec![s(Some("a"), 1, 3), s(Some("b"), 1, 4), s(None, 1, 5), s(Some("a"), 2, 6)];
    let table = compute_authors(&samples, None, None, false);
    let commits: u64 = table.iter().map(|a| a.commits).sum();
    let adds: u64 = table.iter().map(|a| a.adds).sum();
    let dels: u64 = table.iter().map(|a| a.dels).sum();
    assert_eq!((commits, adds, dels), (4, 18, 4));
    let no_merges = compute_authors(&samples, None, None, true);
    assert_eq!(no_merges.iter().map(|a| a.commits).sum::<u64>(), 3);
}

#[test]
fn test_merge_ratio_calculation() {
    // A branch at the same commit as its base has no commits of its own.
    let activity = compute_branch_activity(&[], None, None, false);
    let merge_ratio = if activity.ratio_base > 0 {
        activity.merge_commits as f64 / activity.ratio_base as f64
    } else {
        0.0
    };
    assert_eq!(activity.commits, 0);
    assert_eq!(merge_ratio, 0.0);
}

#[test]
fn test_time_parsing_integration() {
    let test_cases = vec!["1d", "7d", "30d", "1w", "2w", "4w", "2023-01-01", "2024-06-15"];
    for test_case in test_cases {
        let result = parse_instant(Some(test_case));
        if let Some(timestamp) = result {
            assert!(timestamp > 0, "Parsed timestamp should be positive for: {}", test_case);
            let dt = OffsetDateTime::from_unix_timestamp(timestamp)
                .unwrap_or(OffsetDateTime::UNIX_EPOCH);
            let weekday_index = dt.date().weekday().number_from_monday() as usize - 1;
            let hour = dt.hour() as usize;
            assert!(weekday_index < 7);
            assert!(hour < 24);
        }
    }
}

#[test]
fn test_time_filtering() {
    // A single commit older than the one-day window: no commit is analysed.
    let since = parse_instant(Some("1d")).unwrap();
    let commit_time = since - 86_400;
    let changed: Vec<Vec<String>> = if commit_time >= since {
        vec![vec!["test.txt".to_string()]]
    } else {
        vec![]
    };
    let counts = analyze_coupling(&changed, 100);
    assert_eq!(counts.total_commits, 0);
    assert!(counts.pairs.is_empty());
}

fn tag(name: &str, date: i64, annotated: bool) -> TagInfo {
    TagInfo {
        name: name.to_string(),
        tag_type: if annotated { TagType::Annotated } else { TagType::Lightweight },
        date,
        tagger: if annotated { Some("Test User".to_string()) } else { None },
        message: if annotated { Some(format!("Release {}", name)) } else { None },
        target_oid: format!("oid-{}", name),
    }
}

/// The tag repository of the release tests, as plain data: commit 1 adds
/// `README.md` (one line) and is tagged `v1.0.0` (lightweight); commit 2, its
/// child, adds `feature.txt` (one line) and is tagged `v2.0.0` (annotated);
/// both tags are made in the same second. `reach` lists the commits
/// reachable from a tag's target.
fn reach(oid: &str) -> Vec<u32> {
    if oid == "oid-v1.0.0" { vec![1] } else { vec![1, 2] }
}

/// The releases that the history walk gives for the tags, each compared
/// with the release `release_pairs` names.
fn releases_of(limit: Option<usize>) -> Vec<crabgit::stats::releases::Release> {
    let now = 1_700_000_000;
    let ordered = order_tags(vec![tag("v1.0.0", now, false), tag("v2.0.0", now, true)], limit);
    let counts: Vec<TagCounts> = release_pairs(&ordered)
        .iter()
        .map(|(oid, previous)| {
            let mine = reach(oid);
            let before = previous.as_deref().map(reach).unwrap_or_default();
            let since = mine.iter().filter(|c| !before.contains(c)).count() as u32;
            TagCounts {
                commits_total: mine.len() as u32,
                commits_since_previous: since,
                churn_adds: since,
                churn_dels: 0,
            }
        })
        .collect();
    assemble_releases(&ordered, &counts)
}

fn tagged_releases() -> Vec<crabgit::stats::releases::Release> {
    releases_of(None)
}

#[test]
fn test_analyze_releases() {
    let releases = releases_of(None);
    assert_eq!(releases.len(), 2);
    let names: Vec<&str> = releases.iter().map(|r| r.name.as_str()).collect();
    assert!(names.contains(&"v1.0.0"));
    assert!(names.contains(&"v2.0.0"));
}

#[test]
fn test_analyze_releases_with_limit() {
    let releases = releases_of(Some(1));
    assert_eq!(releases.len(), 1);
    assert!(releases[0].name == "v1.0.0" || releases[0].name == "v2.0.0");
}

#[test]
fn each_release_is_compared_with_the_next_older() {
    let day = 86_400;
    let ordered = order_tags(vec![tag("a", 0, false), tag("c", 2 * day, false), tag("b", day, false)], None);
    let pairs = release_pairs(&ordered);
    assert_eq!(pairs[0], ("oid-c".to_string(), Some("oid-b".to_string())));
    assert_eq!(pairs[1], ("oid-b".to_string(), Some("oid-a".to_string())));
    assert_eq!(pairs[2], ("oid-a".to_string(), None));
}

#[test]
fn test_commit_counting() {
    let releases = tagged_releases();
    let v2 = releases.iter().find(|r| r.name == "v2.0.0").unwrap();
    assert_eq!(v2.commits, 2);
    assert_eq!(v2.commits_since_previous, 1);
    let v1 = releases.iter().find(|r| r.name == "v1.0.0").unwrap();
    assert_eq!(v1.commits, 1);
    assert_eq!(v1.commits_since_previous, 1);
}

#[test]
fn test_churn_calculation() {
    for release in &tagged_releases() {
        assert!(release.churn_total > 0);
        assert!(release.churn_adds > 0);
    }
}

#[test]
fn test_summary_calculation() {
    let releases = tagged_releases();
    let totals = release_totals(&releases);
    let n = releases.len() as f64;
    assert!(totals.total_commits as f64 / n > 0.0);
    assert!(totals.total_churn as f64 / n > 0.0);
    assert!(totals.most_active_release.is_some());
    assert!(totals.largest_churn_release.is_some());
}

#[test]
fn test_empty_repository() {
    let releases = assemble_releases(&order_tags(vec![], None), &[]);
    let totals = release_totals(&releases);
    assert_eq!(releases.len(), 0);
    assert!(releases.is_empty());
    let avg = if releases.is_empty() { 0.0 } else { totals.total_commits as f64 / releases.len() as f64 };
    assert_eq!(avg, 0.0);
    assert!(totals.most_active_release.is_none());
    assert_eq!(release_date_range_days(&releases), 0);
}

#[test]
fn tags_of_equal_date_come_greater_name_first() {
    let ordered = order_tags(
        vec![tag("b", 5, false), tag("a", 5, true), tag("c", 9, false), tag("d", 5, false)],
        None,
    );
    let names: Vec<&str> = ordered.iter().map(|t| t.name.as_str()).collect();
    assert_eq!(names, vec!["c", "d", "b", "a"]);
    let first_two = order_tags(
        vec![tag("b", 5, false), tag("a", 5, true), tag("c", 9, false), tag("d", 5, false)],
        Some(2),
    );
    let names: Vec<&str> = first_two.iter().map(|t| t.name.as_str()).collect();
    assert_eq!(names, vec!["c", "d"]);
}

#[test]
fn every_file_is_credited_to_one_owner() {
    let f = |o: &str, n: usize| OwnedFile { primary_owner: o.to_string(), total_lines: n };
    let files = vec![f("a", 10), f("b", 3), f("a", 5), f("c", 0), f("b", 1)];
    let shares = calculate_overall_ownership(&files);
    assert_eq!(shares.iter().map(|s| s.files_owned).sum::<usize>(), 5);
    assert_eq!(shares.iter().map(|s| s.total_lines_owned).sum::<usize>(), 19);
    assert_eq!(shares[0].author, "a");
}

#[test]
fn hotspot_churn_adds_up_to_the_passing_lines() {
    let c = |path: &str, adds: u64, dels: u64| HotspotChange { ts: 0, path: path.to_string(), adds, dels };
    let changes = vec![c("src/a.rs", 3, 1), c("docs/x.md", 9, 9), c("src/a.rs", 2, 0), c("src/b.rs", 0, 4)];
    let filters = CompiledPathFilters::from_patterns(Some("src/**"), None).unwrap();
    let table = compute_file_churn(&changes, &filters);
    assert_eq!(table.iter().map(|f| f.churn).sum::<u64>(), 10);
    let all = CompiledPathFilters::from_patterns(None, None).unwrap();
    let table = compute_file_churn(&changes, &all);
    assert_eq!(table.iter().map(|f| f.churn).sum::<u64>(), 28);
}

#[test]
fn files_change_together_at_most_as_often_as_alone() {
    let p = |l: &[&str]| l.iter().map(|s| s.to_string()).collect::<Vec<String>>();
    let commits = vec![p(&["a", "b", "c"]), p(&["a"]), p(&["b", "a"]), p(&["c", "b"]), p(&[])];
    let counts = analyze_coupling(&commits, 2);
    for (x, y, co) in &counts.pairs {
        let fx = counts.files.iter().find(|f| &f.0 == x).unwrap().1;
        let fy = counts.files.iter().find(|f| &f.0 == y).unwrap().1;
        assert!(*co <= fx && *co <= fy);
    }
    let ab = counts.pairs.iter().find(|q| q.0 == "a" && q.1 == "b").unwrap().2;
    assert_eq!(ab, 2);
}

#[test]
fn directories_are_chosen_in_order() {
    let p = |s: &str| s.to_string();
    assert_eq!(cache_dir_from(Some("/c".to_string()), "/tmp".to_string()), p("/c/crabgit/commit_stats"));
    assert_eq!(cache_dir_from(None, "/tmp".to_string()), p("/tmp/crabgit/commit_stats"));
    assert_eq!(config_path_from(Some("/cfg".to_string()), Some("/home".to_string())), p("/cfg/crabgit/config.toml"));
    assert_eq!(config_path_from(None, Some("/home".to_string())), p("/home/crabgit/config.toml"));
    assert_eq!(config_path_from(None, None), p("./crabgit/config.toml"));
}

#[test]
fn blame_files_are_filtered_then_cut() {
    let paths: Vec<String> = ["src/a.rs", "target/x.rs", "src/b.rs", "README.md", "src/c.rs"]
        .iter()
        .map(|s| s.to_string())
        .collect();
    assert_eq!(select_blame_files(&paths, 2, Some("src/*"), None), vec!["src/a.rs", "src/b.rs"]);
    assert_eq!(select_blame_files(&paths, 10, None, Some("*.rs")), vec!["README.md"]);
    assert_eq!(select_blame_files(&paths, 0, None, None).len(), 0);
}

#[test]
fn latest_line_is_the_strictly_latest() {
    let l = |t: i64, a: &str| (t, a.to_string());
    assert_eq!(last_modification(&[]), (0, "(unknown)".to_string()));
    assert_eq!(last_modification(&[l(5, "a"), l(9, "b"), l(9, "c"), l(3, "d")]), (9, "b".to_string()));
    assert_eq!(last_modification(&[l(-4, "a")]), (0, "(unknown)".to_string()));
}

#[test]
fn average_lies_between_shortest_and_longest() {
    let mut m = PerfMetrics::new(true);
    for ms in [7u64, 1, 30, 2] {
        m.record("op", TimeSpan::from_millis(ms));
    }
    let s = m.summary();
    let o = &s.operations[0];
    assert!(o.min.as_nanos() <= o.avg.as_nanos() && o.avg.as_nanos() <= o.max.as_nanos());
    assert_eq!(o.avg, TimeSpan::from_millis(10));
}

#[test]
fn summary_fits_on_ordinary_timings() {
    let mut m = PerfMetrics::new(true);
    assert!(m.summary_fits());
    m.record("op", TimeSpan::from_millis(3));
    m.record("other", TimeSpan::from_millis(5));
    assert!(m.summary_fits());
    assert_eq!(m.summary().operations.len(), 2);
}

#[test]
fn summary_does_not_fit_beyond_a_duration() {
    let mut m = PerfMetrics::new(true);
    m.record("op", TimeSpan { secs: u64::MAX, nanos: 0 });
    assert!(m.summary_fits());
    m.record("op", TimeSpan { secs: 1, nanos: 0 });
    assert!(!m.summary_fits());
}

#[test]
fn duration_fits_and_checked_parse() {
    assert!(duration_fits("90d"));
    assert!(duration_fits(""));
    assert!(duration_fits("7x"));
    assert!(duration_fits("18446744073709551615"));
    assert!(!duration_fits("18446744073709551615w"));
    assert!(!duration_fits("5é"));
    assert_eq!(parse_duration_to_days_checked("2w"), Some(Ok(14)));
    assert_eq!(parse_duration_to_days_checked("18446744073709551615y"), None);
    assert_eq!(parse_duration_to_days_checked("5é"), None);
}

#[test]
fn top_contributors_counts_and_ranks() {
    let a = |s: &str| Some(s.to_string());
    let authors = vec![a("ann"), a("bob"), None, a("bob"), a("cy"), None, a("bob")];
    let top = top_contributors(&authors, 5);
    assert_eq!(top[0], ("bob".to_string(), 3));
    assert_eq!(top[1], ("Unknown".to_string(), 2));
    assert_eq!(top.len(), 4);
    assert!(top[2..].iter().all(|(_, c)| *c == 1));
    let two = top_contributors(&authors, 2);
    assert_eq!(two, vec![("bob".to_string(), 3), ("Unknown".to_string(), 2)]);
    assert!(top_contributors(&authors, 0).is_empty());
    assert!(top_contributors(&[], 5).is_empty());
}

#[test]
fn branches_listed_most_commits_first_ties_in_order() {
    assert_eq!(branch_order(&[3, 9, 3, 0, 9]), vec![1, 4, 0, 2, 3]);
    assert!(branch_order(&[]).is_empty());
}

#[test]
fn oldest_release_counts_every_commit() {
    let c = TagCounts::new(40, None, 5, 6);
    assert_eq!(c.commits_since_previous, 40);
    let c = TagCounts::new(40, Some(7), 5, 6);
    assert_eq!(c.commits_since_previous, 7);
    assert_eq!((c.commits_total, c.churn_adds, c.churn_dels), (40, 5, 6));
}
