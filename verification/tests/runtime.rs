use crabgit::session::{menu_action, repository_age_days, tui_next, MenuAction, TuiAction, TuiKey, MENU_ITEMS, TAB_COUNT};
use crabgit::telemetry::{DebugLogger, PerfMetrics, TimeSpan, Timer};

#[test]
fn test_perf_metrics() {
    let mut metrics = PerfMetrics::new(true);

    metrics.record("operation1", TimeSpan::from_millis(100));
    metrics.record("operation1", TimeSpan::from_millis(200));
    metrics.record("operation2", TimeSpan::from_millis(50));

    let summary = metrics.summary();

    assert_eq!(summary.operations.len(), 2);

    let op1_stats = summary.operations.iter().find(|s| s.name == "operation1").unwrap();

    assert_eq!(op1_stats.count, 2);
    assert_eq!(op1_stats.total, TimeSpan::from_millis(300));
    assert_eq!(op1_stats.avg, TimeSpan::from_millis(150));
    assert_eq!(op1_stats.min, TimeSpan::from_millis(100));
    assert_eq!(op1_stats.max, TimeSpan::from_millis(200));
}

#[test]
fn test_perf_metrics_disabled() {
    let mut metrics = PerfMetrics::new(false);
    metrics.record("operation1", TimeSpan::from_millis(100));
    let summary = metrics.summary();
    assert_eq!(summary.operations.len(), 0);
}

#[test]
fn summary_is_longest_total_first_and_clear_empties() {
    let mut metrics = PerfMetrics::new(true);
    metrics.record("short", TimeSpan::from_millis(5));
    metrics.record("long", TimeSpan::from_millis(1500));
    metrics.record("mid", TimeSpan::from_millis(700));
    metrics.record("mid", TimeSpan::from_millis(700));
    let s = metrics.summary();
    let names: Vec<&str> = s.operations.iter().map(|o| o.name.as_str()).collect();
    assert_eq!(names, vec!["long", "mid", "short"]);
    assert_eq!(s.operations[0].total, TimeSpan { secs: 1, nanos: 500_000_000 });
    metrics.clear();
    assert!(metrics.summary().operations.is_empty());
    assert!(metrics.is_enabled());
}

#[test]
fn average_rounds_down_to_the_nanosecond() {
    let mut metrics = PerfMetrics::new(true);
    metrics.record("op", TimeSpan::from_nanos(1));
    metrics.record("op", TimeSpan::from_nanos(2));
    metrics.record("op", TimeSpan::from_nanos(2));
    let s = metrics.summary();
    assert_eq!(s.operations[0].avg, TimeSpan::from_nanos(1));
    assert_eq!(s.operations[0].total.as_nanos(), 5);
    assert_eq!(s.operations[0].min, TimeSpan::from_nanos(1));
}

#[test]
fn timers_and_loggers_keep_their_settings() {
    let metrics = PerfMetrics::new(false);
    let t = metrics.timer("work");
    assert_eq!(t.operation(), "work");
    assert!(!t.is_enabled());
    let d = t.stop();
    assert!(d.nanos < 1_000_000_000);
    let t2 = Timer::new("other", true);
    assert!(t2.is_enabled());
    assert!(DebugLogger::new(true).is_enabled());
    assert!(!DebugLogger::new(false).is_enabled());
}

#[test]
fn tui_keys_move_between_tabs() {
    assert_eq!(tui_next(0, TAB_COUNT, TuiKey::Right), TuiAction::Show(1));
    assert_eq!(tui_next(3, TAB_COUNT, TuiKey::Right), TuiAction::Show(0));
    assert_eq!(tui_next(0, TAB_COUNT, TuiKey::Left), TuiAction::Show(3));
    assert_eq!(tui_next(2, TAB_COUNT, TuiKey::Left), TuiAction::Show(1));
    assert_eq!(tui_next(2, TAB_COUNT, TuiKey::Char('q')), TuiAction::Quit);
    assert_eq!(tui_next(2, TAB_COUNT, TuiKey::Char('x')), TuiAction::Show(2));
    assert_eq!(tui_next(2, TAB_COUNT, TuiKey::Other), TuiAction::Show(2));
}

#[test]
fn menu_choices_map_to_actions() {
    assert_eq!(MENU_ITEMS, 6);
    assert_eq!(menu_action(0), MenuAction::Status);
    assert_eq!(menu_action(2), MenuAction::Log(10));
    assert_eq!(menu_action(4), MenuAction::Tui);
    assert_eq!(menu_action(5), MenuAction::Exit);
    assert_eq!(repository_age_days(10 * 86_400 + 5, 0), 10);
    assert_eq!(repository_age_days(0, 86_401), -1);
}
