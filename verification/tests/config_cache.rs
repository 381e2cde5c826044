use crabgit::cache::{generate_cache_key, CacheConfig, CacheStats, CachedCommitStats};
use crabgit::config::{
    default_chunk_size, default_log_level, default_parallel_enabled, default_top,
    default_window, get_config_file_path, parse_duration_to_days,
    parse_duration_to_days_checked, ConfigOverrides, DebugConfig, DurationError, GlobalConfig,
    ParallelConfig,
};
use crabgit::locations::join_path;

#[test]
fn test_cache_config_default() {
    let config = CacheConfig::default();
    assert!(config.enabled);
    assert_eq!(config.max_size_mb, 100);
    assert!(config.cache_dir.contains("crabgit"));
}

#[test]
fn cache_dir_ends_in_commit_stats() {
    let config = CacheConfig::default();
    assert!(config.cache_dir.ends_with("crabgit/commit_stats"));
}

#[test]
fn test_generate_cache_key() {
    let key1 = generate_cache_key("/path/to/repo1", 12345);
    let key2 = generate_cache_key("/path/to/repo2", 12345);
    let key3 = generate_cache_key("/path/to/repo1", 54321);

    assert_ne!(key1, key2);
    assert_ne!(key1, key3);
    assert_ne!(key2, key3);

    let key1_again = generate_cache_key("/path/to/repo1", 12345);
    assert_eq!(key1, key1_again);
}

#[test]
fn cache_key_is_sha256_hex_of_path_and_le_bytes() {
    // SHA-256 of the empty path followed by eight zero bytes.
    let key = generate_cache_key("", 0);
    assert_eq!(
        key,
        "af5570f5a1810b7af78caf4bc70a660f0df51e42baf91d4de5b2328de0e83dfc"
    );
    assert_eq!(key.len(), 64);
    assert_eq!(
        generate_cache_key("/path/to/repo1", 12345),
        "63bb4e82d6208ad6838c785e3e11a6e91f2e6ed9007bcf1cc29979accb066054"
    );
    assert!(key.chars().all(|c| c.is_ascii_hexdigit() && !c.is_ascii_uppercase()));
}

#[test]
fn cached_commit_stats_and_cache_stats_hold_their_fields() {
    let stats = CachedCommitStats {
        oid: "1234567890abcdef1234567890abcdef12345678".to_string(),
        timestamp: 1234567890,
        additions: 100,
        deletions: 50,
        files_changed: 5,
    };
    let copy = stats.clone();
    assert_eq!(copy.oid, stats.oid);
    assert_eq!(copy.additions, 100);
    let cs = CacheStats { memory_entries: 2, disk_entries: 3, disk_size_bytes: 10, enabled: true };
    assert_eq!(cs, CacheStats { memory_entries: 2, disk_entries: 3, disk_size_bytes: 10, enabled: true });
}

#[test]
fn test_default_config() {
    let config = GlobalConfig::default();
    assert_eq!(config.default_window, "90d");
    assert_eq!(config.default_top, 25);
    assert!(config.cache.enabled);
    assert!(config.parallel.enabled);
    assert!(!config.debug.enabled);
}

#[test]
fn default_values_of_each_section() {
    assert_eq!(default_window(), "90d");
    assert_eq!(default_top(), 25);
    assert!(default_parallel_enabled());
    assert_eq!(default_chunk_size(), 1000);
    assert_eq!(default_log_level(), "info");
    let p = ParallelConfig::default();
    assert_eq!(p, ParallelConfig { enabled: true, max_threads: 0, chunk_size: 1000 });
    let d = DebugConfig::default();
    assert!(!d.enabled && !d.timing);
    assert_eq!(d.log_level, "info");
}

#[test]
fn test_config_overrides() {
    let config = GlobalConfig::default();

    let overrides = ConfigOverrides {
        debug: Some(true),
        cache_enabled: Some(false),
        parallel_enabled: Some(false),
        max_threads: Some(4),
    };

    let config_with_overrides = config.with_overrides(overrides);

    assert!(config_with_overrides.debug.enabled);
    assert!(config_with_overrides.debug.timing);
    assert!(!config_with_overrides.cache.enabled);
    assert!(!config_with_overrides.parallel.enabled);
    assert_eq!(config_with_overrides.parallel.max_threads, 4);
}

#[test]
fn empty_overrides_change_nothing() {
    let config = GlobalConfig::default();
    let before = config.clone();
    let after = config.with_overrides(ConfigOverrides::default());
    assert_eq!(after.default_window, before.default_window);
    assert_eq!(after.default_top, before.default_top);
    assert_eq!(after.cache.enabled, before.cache.enabled);
    assert_eq!(after.cache.cache_dir, before.cache.cache_dir);
    assert_eq!(after.parallel, before.parallel);
    assert_eq!(after.debug.enabled, before.debug.enabled);
    assert_eq!(after.debug.timing, before.debug.timing);
}

#[test]
fn debug_override_false_turns_timing_off() {
    let mut config = GlobalConfig::default();
    config.debug.timing = true;
    let after = config.with_overrides(ConfigOverrides { debug: Some(false), ..ConfigOverrides::default() });
    assert!(!after.debug.enabled);
    assert!(!after.debug.timing);
}

#[test]
fn test_parse_duration_to_days() {
    assert_eq!(parse_duration_to_days("7d"), Ok(7));
    assert_eq!(parse_duration_to_days("2w"), Ok(14));
    assert_eq!(parse_duration_to_days("3m"), Ok(90));
    assert_eq!(parse_duration_to_days("1y"), Ok(365));
    assert_eq!(parse_duration_to_days("30"), Ok(30));

    assert_eq!(parse_duration_to_days("7D"), Ok(7));
    assert_eq!(parse_duration_to_days("2W"), Ok(14));
}

#[test]
fn test_parse_duration_errors() {
    assert!(parse_duration_to_days("").is_err());
    assert!(parse_duration_to_days("abc").is_err());
    assert!(parse_duration_to_days("7x").is_err());
}

#[test]
fn duration_error_kinds() {
    assert_eq!(parse_duration_to_days(""), Err(DurationError::Empty));
    assert_eq!(parse_duration_to_days("abc"), Err(DurationError::InvalidNumber));
    assert_eq!(parse_duration_to_days("7x"), Err(DurationError::InvalidUnit));
    assert_eq!(parse_duration_to_days("7."), Err(DurationError::InvalidNumber));
    assert_eq!(parse_duration_to_days("+5"), Ok(5));
}

#[test]
fn checked_duration_refuses_faulting_inputs() {
    assert_eq!(parse_duration_to_days_checked("7d"), Some(Ok(7)));
    assert_eq!(parse_duration_to_days_checked("7é"), None);
    assert_eq!(parse_duration_to_days_checked("18446744073709551615y"), None);
    assert_eq!(
        parse_duration_to_days_checked("18446744073709551615d"),
        Some(Ok(18446744073709551615))
    );
    assert_eq!(parse_duration_to_days_checked(""), Some(Err(DurationError::Empty)));
}

#[test]
fn test_config_system() {
    let default_config = GlobalConfig::default();
    assert_eq!(default_config.default_window, "90d");
    assert_eq!(default_config.default_top, 25);
    assert!(default_config.cache.enabled);
    assert!(default_config.parallel.enabled);
    assert!(!default_config.debug.enabled);

    let overrides = ConfigOverrides {
        debug: Some(true),
        cache_enabled: Some(false),
        parallel_enabled: Some(false),
        max_threads: Some(8),
    };

    let config_with_overrides = default_config.with_overrides(overrides);
    assert!(config_with_overrides.debug.enabled);
    assert!(config_with_overrides.debug.timing);
    assert!(!config_with_overrides.cache.enabled);
    assert!(!config_with_overrides.parallel.enabled);
    assert_eq!(config_with_overrides.parallel.max_threads, 8);

    assert_eq!(parse_duration_to_days("7d"), Ok(7));
    assert_eq!(parse_duration_to_days("2w"), Ok(14));
    assert_eq!(parse_duration_to_days("3m"), Ok(90));
    assert_eq!(parse_duration_to_days("1y"), Ok(365));
    assert_eq!(parse_duration_to_days("30"), Ok(30));

    assert_eq!(parse_duration_to_days("7D"), Ok(7));
    assert_eq!(parse_duration_to_days("2W"), Ok(14));

    assert!(parse_duration_to_days("").is_err());
    assert!(parse_duration_to_days("abc").is_err());
    assert!(parse_duration_to_days("7x").is_err());
}

#[test]
fn config_file_path_ends_with_crabgit_config() {
    let p = get_config_file_path();
    assert!(p.ends_with("crabgit/config.toml"));
    assert_eq!(GlobalConfig::config_file_path(), p);
}

#[test]
fn join_path_adds_one_separator() {
    assert_eq!(join_path("/home/a", "crabgit"), "/home/a/crabgit");
    assert_eq!(join_path("/home/a/", "crabgit"), "/home/a/crabgit");
    assert_eq!(join_path("", "crabgit"), "crabgit");
}
