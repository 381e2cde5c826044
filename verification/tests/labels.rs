use crabgit::labels::{
    truncate_author, truncate_branch_name, truncate_file_path, truncate_path, truncate_release_name,
};

#[test]
fn short_labels_are_kept() {
    assert_eq!(truncate_path("src/main.rs", 30), "src/main.rs");
    assert_eq!(truncate_branch_name("main", 4), "main");
    assert_eq!(truncate_author("", 0), "");
}

#[test]
fn long_path_keeps_its_end() {
    assert_eq!(truncate_path("src/stats/coupling.rs", 10), "…upling.rs");
    assert_eq!(truncate_file_path("abcdef", 3), "…ef");
    assert_eq!(truncate_path("abcdef", 1), "…");
}

#[test]
fn long_name_keeps_its_start() {
    assert_eq!(truncate_branch_name("feature/long-name", 8), "feature…");
    assert_eq!(truncate_author("Alice Wonderland", 6), "Alice…");
    assert_eq!(truncate_release_name("v1.2.3-beta", 0), "…");
    assert_eq!(truncate_release_name("v1.2.3-beta", 1), "…");
}

#[test]
fn cut_on_multibyte_boundary() {
    // "é" is two bytes; the cut after it falls on a boundary.
    assert_eq!(truncate_author("éab", 3), "é…");
    assert_eq!(truncate_path("abé", 3), "…é");
}
