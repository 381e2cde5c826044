use crabgit::stats::coupling::{analyze_coupling, str_less, CouplingCounts};
use crabgit::stats::hotspots::{compute_file_churn, HotspotChange};
use crabgit::stats::ownership::{
    analyze_ownership_fast, calculate_overall_ownership, glob_match, OwnedFile, OwnershipMode,
    OwnershipRecord,
};
use crabgit::stats::path_filter::{
    collect_changed_paths, commit_has_matching_paths, compute_commit_churn, passes_filters,
    scan_commit_changes, CompiledGlob, CompiledPathFilters, FileChange, ScanOutcome,
};
use crabgit::stats::releases::{
    assemble_releases, order_tags, release_date_range_days, release_totals, TagCounts, TagInfo,
    TagType,
};
use crabgit::stats::stability::{
    calculate_file_stability, collect_file_histories, is_fix_commit,
    is_likely_binary_or_non_code, is_revert_commit, parse_time_range, parse_time_spec,
    parse_time_spec_at, stability_date_range_days, stability_figures, StabilityCommit,
    StabilityRecord, TimeSpecError,
};
use std::time::{SystemTime, UNIX_EPOCH};

fn now_secs() -> i64 {
    SystemTime::now().duration_since(UNIX_EPOCH).unwrap().as_secs() as i64
}

fn commit(ts: i64, author: &str, message: &str) -> StabilityCommit {
    StabilityCommit { timestamp: ts, author: author.to_string(), message: message.to_string() }
}

#[test]
fn test_is_revert_commit() {
    assert!(is_revert_commit("Revert 'Add new feature'"));
    assert!(is_revert_commit("revert: broken change"));
    assert!(is_revert_commit("This reverts commit abc123"));
    assert!(is_revert_commit("Rollback previous changes"));

    assert!(!is_revert_commit("Add new feature"));
    assert!(!is_revert_commit("Fix bug in parser"));
    assert!(!is_revert_commit("Update documentation"));
}

#[test]
fn test_is_fix_commit() {
    assert!(is_fix_commit("Fix parser bug"));
    assert!(is_fix_commit("fix: memory leak"));
    assert!(is_fix_commit("Hotfix for production issue"));
    assert!(is_fix_commit("Bugfix: handle edge case"));
    assert!(is_fix_commit("Patch for security vulnerability"));
    assert!(is_fix_commit("Urgent fix for crash"));
    assert!(is_fix_commit("Bug: null pointer exception"));

    assert!(!is_fix_commit("Add new feature"));
    assert!(!is_fix_commit("Refactor code"));
    assert!(!is_fix_commit("Update documentation"));
}

#[test]
fn test_is_likely_binary_or_non_code() {
    assert!(is_likely_binary_or_non_code("image.png"));
    assert!(is_likely_binary_or_non_code("document.pdf"));
    assert!(is_likely_binary_or_non_code("archive.zip"));
    assert!(is_likely_binary_or_non_code("app.exe"));
    assert!(is_likely_binary_or_non_code("library.dll"));

    assert!(is_likely_binary_or_non_code("app.min.js"));
    assert!(is_likely_binary_or_non_code("style.min.css"));

    assert!(is_likely_binary_or_non_code("node_modules/package/index.js"));
    assert!(is_likely_binary_or_non_code("target/debug/app.exe"));
    assert!(is_likely_binary_or_non_code("vendor/library/src.rs"));

    assert!(!is_likely_binary_or_non_code("src/main.rs"));
    assert!(!is_likely_binary_or_non_code("app.js"));
    assert!(!is_likely_binary_or_non_code("style.css"));
    assert!(!is_likely_binary_or_non_code("README.md"));
    assert!(!is_likely_binary_or_non_code("Cargo.toml"));
}

#[test]
fn extensions_are_matched_case_blind_but_directories_are_not() {
    assert!(is_likely_binary_or_non_code("IMAGE.PNG"));
    assert!(!is_likely_binary_or_non_code("Vendor/lib.rs"));
}

#[test]
fn non_code_directories_match_whole_components() {
    assert!(!is_likely_binary_or_non_code("src/layout/mod.rs"));
    assert!(!is_likely_binary_or_non_code("src/rebuild/main.rs"));
    assert!(is_likely_binary_or_non_code("src/target/release/app"));
    assert!(is_likely_binary_or_non_code("web/out/bundle.rs"));
    assert!(is_likely_binary_or_non_code("out/gen.rs"));
    assert!(is_likely_binary_or_non_code("py/.coverage/x.py"));
}

#[test]
fn absolute_dates_are_accepted() {
    assert_eq!(parse_time_spec("2024-01-01"), Ok(1_704_067_200));
    assert_eq!(parse_time_range(Some("2024-01-01"), Some("2024-01-31")), Ok((Some(1_704_067_200), Some(1_706_659_200))));
    assert_eq!(parse_time_spec("2024-02-30"), Err(TimeSpecError::UnsupportedFormat));
}

#[test]
fn test_parse_time_spec() {
    let now = now_secs();
    let result = parse_time_spec("7d").unwrap();
    assert!((result - (now - 7 * 24 * 3600)).abs() <= 1, "7d should parse to 7 days ago");
    let result = parse_time_spec("2w").unwrap();
    assert!((result - (now - 2 * 7 * 24 * 3600)).abs() <= 1, "2w should parse to 2 weeks ago");
    let result = parse_time_spec("3m").unwrap();
    assert!((result - (now - 3 * 30 * 24 * 3600)).abs() <= 1, "3m should parse to 3 months ago");
    let result = parse_time_spec("1y").unwrap();
    assert!((result - (now - 365 * 24 * 3600)).abs() <= 1, "1y should parse to 1 year ago");

    assert!(parse_time_spec("invalid").is_err());
    assert!(parse_time_spec("30x").is_err());
}

#[test]
fn test_time_parsing_edge_cases() {
    let result = parse_time_spec("0d").unwrap();
    let now = now_secs();
    assert!((result - now).abs() <= 1);

    assert!(parse_time_spec("999d").is_ok());
    assert!(parse_time_spec("52w").is_ok());
    assert!(parse_time_spec("12m").is_ok());
    assert!(parse_time_spec("10y").is_ok());

    assert!(parse_time_spec("d").is_err());
    assert!(parse_time_spec("10").is_err());
    assert!(parse_time_spec("-5d").is_err());
    assert!(parse_time_spec("5.5d").is_err());
}

#[test]
fn time_spec_errors_and_fixed_clock() {
    assert_eq!(parse_time_spec_at("3d", 1_000_000), Ok(1_000_000 - 3 * 86_400));
    assert_eq!(parse_time_spec_at("7d", 1_700_000_000), Ok(1_699_395_200));
    assert_eq!(parse_time_spec_at("2w", 1_700_000_000), Ok(1_698_790_400));
    assert_eq!(parse_time_spec_at("3m", 1_700_000_000), Ok(1_692_224_000));
    assert_eq!(parse_time_spec_at("1y", 1_700_000_000), Ok(1_668_464_000));
    assert_eq!(parse_time_spec_at("0d", 1_700_000_000), Ok(1_700_000_000));
    assert_eq!(parse_time_spec_at("1y", 0), Ok(-31_536_000));
    assert_eq!(parse_time_spec_at("x5d", 0), Err(TimeSpecError::InvalidNumber));
    assert_eq!(parse_time_spec_at("", 0), Err(TimeSpecError::UnsupportedFormat));
    assert_eq!(parse_time_spec_at("2023-01-01", 0), Ok(1_672_531_200));
    assert_eq!(parse_time_spec_at("2023-13-01", 0), Err(TimeSpecError::UnsupportedFormat));
    assert_eq!(parse_time_range(None, None), Ok((None, None)));
    assert_eq!(parse_time_range(Some("xyz"), Some("1d")), Err(TimeSpecError::UnsupportedFormat));
    assert_eq!(parse_time_range(Some("1d"), Some("bad")), Err(TimeSpecError::InvalidNumber));
    assert_eq!(parse_time_range(Some("bad"), Some("xyz")), Err(TimeSpecError::InvalidNumber));
    let (a, b) = parse_time_range(Some("2d"), Some("1d")).unwrap();
    assert!(a.unwrap() < b.unwrap());
}

#[test]
fn stability_date_range() {
    assert_eq!(stability_date_range_days(Some(0), Some(10 * 86_400 + 5)), 10);
    assert_eq!(stability_date_range_days(None, Some(5)), 365);
    assert_eq!(stability_date_range_days(Some(0), None), 365);
}

#[test]
fn test_calculate_file_stability_single_change() {
    let result = calculate_file_stability(
        "src/main.rs".to_string(),
        &[commit(1000000, "Alice", "Add feature")],
        now_secs(),
    );
    assert_eq!(result.path, "src/main.rs");
    assert_eq!(result.changes, 1);
    assert_eq!(result.authors, 1);
    assert_eq!(result.reverts, 0);
    assert_eq!(result.fixes, 0);
    assert_eq!(result.span_days, 0);
    assert_eq!(result.primary_author, "Alice");
    assert_eq!(result.primary_author_changes, 1);
}

#[test]
fn test_calculate_file_stability_multiple_changes() {
    let now = now_secs();
    let commits = vec![
        commit(now - 30 * 24 * 3600, "Alice", "Add feature"),
        commit(now - 20 * 24 * 3600, "Bob", "Fix bug in feature"),
        commit(now - 10 * 24 * 3600, "Alice", "Revert previous fix"),
    ];
    let result = calculate_file_stability("src/unstable.rs".to_string(), &commits, now);
    assert_eq!(result.path, "src/unstable.rs");
    assert_eq!(result.changes, 3);
    assert_eq!(result.authors, 2);
    assert_eq!(result.reverts, 1);
    assert_eq!(result.fixes, 1);
    assert_eq!(result.span_days, 20);
    assert_eq!(result.last_change_days_ago, 10);
    assert_eq!(result.primary_author, "Alice");
    assert_eq!(result.primary_author_changes, 2);
}

#[test]
fn test_calculate_file_stability_scoring() {
    let unstable = vec![
        commit(1000000, "Alice", "Add feature"),
        commit(1001000, "Bob", "Fix critical bug"),
        commit(1002000, "Charlie", "Revert broken change"),
        commit(1003000, "Dave", "Hotfix for production"),
    ];
    let result = calculate_file_stability("unstable.rs".to_string(), &unstable, 2000000);
    assert_eq!(result.authors, 4);
    assert_eq!(result.reverts, 1);
    assert_eq!(result.fixes, 2);
    assert_eq!(result.last_change_days_ago, 11);
}

#[test]
fn test_author_commit_counting() {
    let commits = vec![
        commit(1000000, "Alice", "Commit 1"),
        commit(1001000, "Alice", "Commit 2"),
        commit(1002000, "Bob", "Commit 3"),
        commit(1003000, "Alice", "Commit 4"),
    ];
    let result = calculate_file_stability("test.rs".to_string(), &commits, 1003000);
    assert_eq!(result.primary_author, "Alice");
    assert_eq!(result.primary_author_changes, 3);
    assert_eq!(result.authors, 2);
    assert_eq!(result.changes, 4);
}

#[test]
fn test_stability_edge_cases() {
    let result = calculate_file_stability("empty.rs".to_string(), &[], 0);
    assert_eq!(result.path, "empty.rs");
    assert_eq!(result.changes, 0);
    assert_eq!(result.authors, 0);
    assert_eq!(result.primary_author, "Unknown");
    assert_eq!(result.primary_author_changes, 0);

    assert!(is_fix_commit("FIX: uppercase"));
    assert!(is_fix_commit("emergency hotfix"));
    assert!(is_revert_commit("REVERT: uppercase"));
    assert!(!is_fix_commit(""));
    assert!(!is_revert_commit(""));

    assert!(is_likely_binary_or_non_code("path/to/node_modules/lib.js"));
    assert!(is_likely_binary_or_non_code("src/target/release/app"));
    assert!(!is_likely_binary_or_non_code("package.json"));
    assert!(!is_likely_binary_or_non_code("Makefile"));
}

fn record(ts: i64, author: Option<&str>, message: &str, parents: u32, paths: &[&str]) -> StabilityRecord {
    StabilityRecord {
        ts,
        author: author.map(|a| a.to_string()),
        message: Some(message.to_string()),
        parents,
        paths: paths.iter().map(|p| p.to_string()).collect(),
    }
}

#[test]
fn stability_histories_follow_the_walk() {
    // Newest first, as the history walk gives them.
    let records = vec![
        record(500, Some("Alice"), "Fix it", 1, &["src/a.rs", "logo.png"]),
        record(400, None, "Merge", 2, &["src/a.rs"]),
        record(300, Some("Bob"), "Add b", 1, &["src/b.rs", "docs/x.md"]),
        record(100, Some("Alice"), "Old", 1, &["src/a.rs"]),
        record(200, Some("Alice"), "Older but after the stop", 1, &["src/c.rs"]),
    ];
    let mut h = collect_file_histories(&records, Some(150), None, None, Some("src/"), true);
    h.sort_by(|x, y| x.path.cmp(&y.path));
    let paths: Vec<&str> = h.iter().map(|f| f.path.as_str()).collect();
    assert_eq!(paths, vec!["src/a.rs", "src/b.rs"]);
    assert_eq!(h[0].commits.len(), 1);
    assert_eq!(h[0].commits[0].author, "Alice");
    assert_eq!(h[0].commits[0].message, "Fix it");

    let h2 = collect_file_histories(&records, None, Some(450), Some("li"), None, false);
    let paths2: Vec<&str> = h2.iter().map(|f| f.path.as_str()).collect();
    assert!(paths2.contains(&"src/a.rs") && paths2.contains(&"src/c.rs"));
    assert!(!paths2.contains(&"src/b.rs"));

    let figures = stability_figures(&h, 1000);
    assert_eq!(figures.len(), 2);
    assert_eq!(figures[0].fixes, 1);
}

#[test]
fn test_glob_matching() {
    assert!(glob_match("test.txt", "*"));
    assert!(glob_match("src/main.rs", "src/*"));
    assert!(glob_match("test.rs", "*.rs"));
    assert!(!glob_match("test.txt", "*.rs"));
    assert!(glob_match("exact_match", "exact_match"));
}

#[test]
fn glob_with_two_stars_matches_only_itself() {
    assert!(!glob_match("src/a/b.rs", "src/*/*.rs"));
    assert!(glob_match("src/*/*.rs", "src/*/*.rs"));
}

#[test]
fn glob_star_needs_room_for_prefix_and_suffix() {
    assert!(!glob_match("ab", "ab*b"));
    assert!(glob_match("abb", "ab*b"));
    assert!(glob_match("ab", "a*b"));
    assert!(!glob_match("a", "a*a"));
}

fn orec(ts: i64, author: &str, paths: &[&str]) -> OwnershipRecord {
    OwnershipRecord { ts, author: Some(author.to_string()), paths: paths.iter().map(|p| p.to_string()).collect() }
}

#[test]
fn test_ownership_fast_analysis() {
    // Newest first: Bob changed file1 after Alice created both files.
    let records = vec![
        orec(2000, "Bob", &["file1.txt"]),
        orec(1000, "Alice", &["file1.txt", "file2.txt"]),
    ];
    let stats = analyze_ownership_fast(&records, None, None, 10, None, None);
    assert_eq!(stats.total_files_seen, 2);
    assert_eq!(stats.files.len(), 2);
    assert_eq!(stats.files[0].path, "file1.txt");
    assert_eq!(stats.files[0].author, "Bob");
    assert_eq!(stats.files[1].author, "Alice");
    assert_eq!(OwnershipMode::LastModified, OwnershipMode::LastModified);
}

#[test]
fn ownership_filters_window_and_top() {
    let records = vec![
        orec(4000, "Dan", &["new.rs"]),
        orec(3000, "Carol", &["a.rs", "b.txt"]),
        orec(2000, "Bob", &["c.rs"]),
        orec(1000, "Alice", &["d.rs"]),
    ];
    let s = analyze_ownership_fast(&records, Some(1500), Some(3500), 1, Some("*.rs"), None);
    assert_eq!(s.total_files_seen, 2);
    assert_eq!(s.files.len(), 1);
    assert_eq!(s.files[0].path, "a.rs");
    let s2 = analyze_ownership_fast(&records, None, None, 10, None, Some("*.txt"));
    assert_eq!(s2.total_files_seen, 4);
}

#[test]
fn test_overall_ownership_calculation() {
    let files = vec![
        OwnedFile { primary_owner: "Alice".to_string(), total_lines: 100 },
        OwnedFile { primary_owner: "Bob".to_string(), total_lines: 50 },
        OwnedFile { primary_owner: "Alice".to_string(), total_lines: 1 },
    ];
    let overall = calculate_overall_ownership(&files);
    assert_eq!(overall.len(), 2);
    assert_eq!(overall[0].author, "Alice");
    assert_eq!(overall[0].files_owned, 2);
    assert_eq!(overall[0].total_lines_owned, 101);
    assert_eq!(overall[1].author, "Bob");
    assert_eq!(overall[1].files_owned, 1);
}

#[test]
fn test_compiled_filter_patterns() {
    for pattern in ["*.rs", "src/**/*.rs", "lib/**", "test_*.py", "**/*.{js,ts}"] {
        let result = CompiledPathFilters::from_patterns(Some(pattern), None);
        assert!(result.is_ok(), "pattern should compile: {}", pattern);
    }
}

#[test]
fn test_compiled_filter_none() {
    let result = CompiledPathFilters::from_patterns(None, None);
    assert!(result.is_ok());
    assert!(!result.unwrap().is_active());
}

#[test]
fn test_filters_include_exclude() {
    let filters = CompiledPathFilters::from_patterns(Some("*.rs"), Some("test_*")).expect("filters build");
    assert!(filters.matches("main.rs"));
    assert!(!filters.matches("lib.py"));
    assert!(!filters.matches("test_main.rs"));

    let exclude_only = CompiledPathFilters::from_patterns(None, Some("test_*")).expect("filters build");
    assert!(exclude_only.matches("main.rs"));
    assert!(!exclude_only.matches("test_lib.py"));
}

#[test]
fn test_filters_no_rules_match_everything() {
    let filters = CompiledPathFilters::from_patterns(None, None).unwrap();
    for path in ["main.rs", "lib.py", "test.js", "README.md", "src/utils.rs"] {
        assert!(filters.matches(path), "{} should match", path);
    }
}

#[test]
fn matches_respects_include_and_exclude() {
    let filters = CompiledPathFilters::from_patterns(Some("src/**"), Some("src/tests/**")).unwrap();
    assert!(filters.matches("src/lib.rs"));
    assert!(!filters.matches("README.md"));
    assert!(!filters.matches("src/tests/mod.rs"));
}

#[test]
fn inactive_filters_match_everything() {
    let filters = CompiledPathFilters::from_patterns(None, None).unwrap();
    assert!(filters.matches("any/path.rs"));
    assert!(!filters.is_active() || filters.matches("foo"));
}

#[test]
fn invalid_glob_is_refused() {
    assert!(CompiledPathFilters::from_patterns(Some("a[b"), None).is_err());
    assert!(CompiledPathFilters::from_patterns(None, Some("{x")).is_err());
    assert!(CompiledGlob::compile("*.rs").unwrap().is_match("main.rs"));
    assert!(!CompiledGlob::compile("*.rs").unwrap().is_match("src/main.rs"));
}

fn change(path: &str, adds: u64, dels: u64) -> FileChange {
    FileChange { path: path.to_string(), adds, dels }
}

#[test]
fn scanning_changes_through_filters() {
    let f = CompiledPathFilters::from_patterns(Some("*.rs"), None).unwrap();
    let changes = vec![change("a.rs", 1, 2), change("b.md", 10, 10), change("c.rs", 3, 4)];
    assert_eq!(
        scan_commit_changes(&changes, &f),
        ScanOutcome { matched_files: 2, total_adds: 4, total_dels: 6 }
    );
    assert!(commit_has_matching_paths(&changes, &f));
    assert!(!commit_has_matching_paths(&[change("x.md", 1, 1)], &f));
    assert_eq!(compute_commit_churn(&changes, &f, 99, 99), Some((4, 6)));
    assert_eq!(compute_commit_churn(&[change("x.md", 1, 1)], &f, 99, 99), None);
    let none = CompiledPathFilters::from_patterns(None, None).unwrap();
    assert_eq!(compute_commit_churn(&changes, &none, 99, 98), Some((99, 98)));
    let diff = vec!["a.rs".to_string(), "b.md".to_string()];
    let tree = vec!["t.rs".to_string()];
    assert_eq!(collect_changed_paths(&diff, true, &tree, &f), vec!["a.rs".to_string()]);
    assert_eq!(collect_changed_paths(&diff, true, &tree, &none), tree);
    assert_eq!(collect_changed_paths(&diff, false, &tree, &none), diff);
    assert!(passes_filters(10, 1, Some(5), Some(20), true, true, true));
    assert!(!passes_filters(10, 2, None, None, true, false, false));
    assert!(!passes_filters(10, 1, None, None, false, true, false));
    assert!(passes_filters(10, 1, None, None, false, false, false));
}

#[test]
fn file_churn_groups_changes_per_path() {
    let f = CompiledPathFilters::from_patterns(None, Some("*.lock")).unwrap();
    let changes = vec![
        HotspotChange { ts: 10, path: "a.rs".to_string(), adds: 1, dels: 1 },
        HotspotChange { ts: 20, path: "b.rs".to_string(), adds: 5, dels: 0 },
        HotspotChange { ts: 30, path: "a.rs".to_string(), adds: 2, dels: 3 },
        HotspotChange { ts: 40, path: "Cargo.lock".to_string(), adds: 100, dels: 100 },
    ];
    let mut r = compute_file_churn(&changes, &f);
    r.sort_by(|x, y| x.path.cmp(&y.path));
    assert_eq!(r.len(), 2);
    assert_eq!(r[0].path, "a.rs");
    assert_eq!((r[0].adds, r[0].dels, r[0].churn), (3, 4, 7));
    assert_eq!(r[0].changes, vec![(10, 2), (30, 5)]);
    assert_eq!(r[1].churn, 5);
}

fn paths(list: &[&str]) -> Vec<String> {
    list.iter().map(|p| p.to_string()).collect()
}

fn pair_count(c: &CouplingCounts, a: &str, b: &str) -> u64 {
    c.pairs.iter().find(|p| p.0 == a && p.1 == b).map(|p| p.2).unwrap_or(0)
}

fn file_count(c: &CouplingCounts, a: &str) -> u64 {
    c.files.iter().find(|p| p.0 == a).map(|p| p.1).unwrap_or(0)
}

#[test]
fn test_coupling_analysis_basic() {
    let commits = vec![paths(&["a.txt", "b.txt"]), paths(&["b.txt", "a.txt"]), paths(&[])];
    let c = analyze_coupling(&commits, 100);
    assert_eq!(c.total_commits, 2);
    assert_eq!(file_count(&c, "a.txt"), 2);
    assert_eq!(pair_count(&c, "a.txt", "b.txt"), 2);
    assert_eq!(pair_count(&c, "b.txt", "a.txt"), 0);
}

#[test]
fn test_memory_safe_chunking() {
    let commits = vec![
        paths(&["a", "b", "c"]),
        paths(&["a", "c"]),
        paths(&["b"]),
        paths(&["c", "a"]),
        paths(&[]),
    ];
    let whole = analyze_coupling(&commits, 1000);
    for window in [0usize, 1, 2, 3, 10] {
        let w = analyze_coupling(&commits, window);
        assert_eq!(w.total_commits, whole.total_commits);
        for f in ["a", "b", "c"] {
            assert_eq!(file_count(&w, f), file_count(&whole, f));
        }
        for (x, y) in [("a", "b"), ("a", "c"), ("b", "c")] {
            assert_eq!(pair_count(&w, x, y), pair_count(&whole, x, y));
        }
    }
    assert_eq!(pair_count(&whole, "a", "c"), 3);
    assert_eq!(whole.total_commits, 4);
}

#[test]
fn path_order_is_string_order() {
    assert!(str_less(&"a".to_string(), &"b".to_string()));
    assert!(str_less(&"ab".to_string(), &"abc".to_string()));
    assert!(!str_less(&"abc".to_string(), &"abc".to_string()));
    assert!(str_less(&"Z".to_string(), &"a".to_string()));
    assert!(!str_less(&"é".to_string(), &"z".to_string()));
}

fn tag(name: &str, date: i64, annotated: bool) -> TagInfo {
    TagInfo {
        name: name.to_string(),
        tag_type: if annotated { TagType::Annotated } else { TagType::Lightweight },
        date,
        tagger: if annotated { Some("Test User".to_string()) } else { None },
        message: if annotated { Some(format!("Release {}", name)) } else { None },
        target_oid: format!("oid-{}", name),
    }
}

#[test]
fn test_tag_message_and_tagger() {
    let ordered = order_tags(vec![tag("v1.0.0", 1000, false), tag("v2.0.0", 2000, true)], None);
    let counts = vec![
        TagCounts { commits_total: 2, commits_since_previous: 2, churn_adds: 2, churn_dels: 0 },
        TagCounts { commits_total: 1, commits_since_previous: 1, churn_adds: 1, churn_dels: 0 },
    ];
    let releases = assemble_releases(&ordered, &counts);
    assert!(matches!(releases[0].tag_type, TagType::Annotated));
    assert_eq!(releases[0].message.as_deref(), Some("Release v2.0.0"));
    assert!(releases[0].tagger.is_some());
    assert!(matches!(releases[1].tag_type, TagType::Lightweight));
    assert!(releases[1].tagger.is_none());
    assert!(releases[1].message.is_none());
}

#[test]
fn releases_days_between_and_totals() {
    let day = 86_400;
    let ordered = order_tags(
        vec![tag("a", 0, false), tag("c", 30 * day, false), tag("b", 10 * day, false)],
        None,
    );
    let counts = vec![
        TagCounts { commits_total: 9, commits_since_previous: 9, churn_adds: 5, churn_dels: 5 },
        TagCounts { commits_total: 4, commits_since_previous: 3, churn_adds: 1, churn_dels: 1 },
        TagCounts { commits_total: 1, commits_since_previous: 1, churn_adds: 10, churn_dels: 0 },
    ];
    let r = assemble_releases(&ordered, &counts);
    let names: Vec<&str> = r.iter().map(|x| x.name.as_str()).collect();
    assert_eq!(names, vec!["c", "b", "a"]);
    assert_eq!(r[0].days_since_previous, 0);
    assert_eq!(r[1].days_since_previous, 20);
    assert_eq!(r[2].days_since_previous, 0);
    assert_eq!(r[0].churn_total, 10);
    assert_eq!(release_date_range_days(&r), 30);
    let t = release_totals(&r);
    assert_eq!((t.total_commits, t.total_churn, t.total_days), (13, 22, 20));
    assert_eq!(t.most_active_release.as_deref(), Some("c"));
    assert_eq!(t.largest_churn_release.as_deref(), Some("a"));
    let empty = release_totals(&[]);
    assert!(empty.most_active_release.is_none());
    assert_eq!(release_date_range_days(&r[..1]), 0);
}
