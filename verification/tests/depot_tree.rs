use crv_core::tree::depot_tree::DepotTree;
use crv_core::tree::FileTree;

#[test]
fn test_file_count_cache() {
    let mut depot = DepotTree::new();
    assert_eq!(depot.get_file_count("branch_main"), 0);

    depot.set_file_count("branch_main", 42);
    assert_eq!(depot.get_file_count("branch_main"), 42);
}

#[test]
fn test_file_locking_basic() {
    let mut depot = DepotTree::new();

    let (locked, conflicted) = depot.try_lock_files("branch_main", ["f1", "f2", "f1"].as_ref());
    // f1 and f2 are locked once each; the repeated f1 changes nothing
    assert_eq!(locked.len(), 2);
    assert!(locked.contains(&"f1".to_string()));
    assert!(locked.contains(&"f2".to_string()));
    assert!(conflicted.is_empty());

    // locking f1 again conflicts
    let (_locked2, conflicted2) = depot.try_lock_files("branch_main", ["f1"].as_ref());
    assert_eq!(conflicted2, vec!["f1".to_string()]);
    assert!(depot.is_locked("branch_main", "f1"));

    // after unlocking, f1 can be locked again
    depot.unlock_files("branch_main", ["f1"].as_ref());
    assert!(!depot.is_locked("branch_main", "f1"));
    let (locked3, conflicted3) = depot.try_lock_files("branch_main", ["f1"].as_ref());
    assert_eq!(locked3, vec!["f1".to_string()]);
    assert!(conflicted3.is_empty());
}

#[test]
fn test_branch_isolation_for_locks() {
    let mut depot = DepotTree::new();

    let (_locked_a, conflicted_a) = depot.try_lock_files("branch_a", ["f1"].as_ref());
    assert!(conflicted_a.is_empty());

    // the same file id on another branch does not conflict
    let (_locked_b, conflicted_b) = depot.try_lock_files("branch_b", ["f1"].as_ref());
    assert!(conflicted_b.is_empty());

    assert!(depot.is_locked("branch_a", "f1"));
    assert!(depot.is_locked("branch_b", "f1"));
}

#[test]
fn test_file_tree_cache_per_branch_and_changelist() {
    let mut depot = DepotTree::new();

    let tree_a = FileTree { nodes: vec![] };
    let tree_b = FileTree { nodes: vec![] };

    depot.cache_file_tree("branch_main", 100, "//src/module/...", tree_a.clone());
    depot.cache_file_tree("branch_main", 200, "//src/module/...", tree_b.clone());

    assert!(depot.get_cached_file_tree("branch_main", 100, "//src/module/...").is_some());
    assert!(depot.get_cached_file_tree("branch_main", 200, "//src/module/...").is_some());
    assert!(depot.get_cached_file_tree("branch_main", 300, "//src/module/...").is_none());

    depot.clear_file_tree_cache_for_changelist("branch_main", 100);
    assert!(depot.get_cached_file_tree("branch_main", 100, "//src/module/...").is_none());
    assert!(depot.get_cached_file_tree("branch_main", 200, "//src/module/...").is_some());

    depot.clear_all_file_tree_cache("branch_main");
    assert!(depot.get_cached_file_tree("branch_main", 200, "//src/module/...").is_none());
}

#[test]
fn lock_conflict_is_all_or_nothing() {
    let mut depot = DepotTree::new();
    let (_l, c) = depot.try_lock_files("b", ["f1"].as_ref());
    assert!(c.is_empty());
    let (locked, conflicted) = depot.try_lock_files("b", ["f2", "f1"].as_ref());
    assert!(locked.is_empty());
    assert_eq!(conflicted, vec!["f1".to_string()]);
    assert!(!depot.is_locked("b", "f2"));
}

#[test]
fn cached_tree_reads_back_what_was_cached() {
    let mut depot = DepotTree::new();
    let tree = FileTree { nodes: vec![] };
    depot.cache_file_tree("b", 7, "//a/...", tree);
    let got = depot.get_cached_file_tree("b", 7, "//a/...");
    assert!(got.is_some());
    assert!(got.unwrap().nodes.is_empty());
    assert!(depot.get_cached_file_tree("b", 7, "//other/...").is_none());
    assert!(depot.get_cached_file_tree("c", 7, "//a/...").is_none());
}

#[test]
fn lock_then_unlock_restores_the_locks() {
    let mut depot = DepotTree::new();
    depot.try_lock_files("b", ["keep"].as_ref());
    let (locked, conflicted) = depot.try_lock_files("b", ["x", "y"].as_ref());
    assert_eq!(locked.len(), 2);
    assert!(conflicted.is_empty());
    depot.unlock_files("b", ["x", "y"].as_ref());
    assert!(depot.is_locked("b", "keep"));
    assert!(!depot.is_locked("b", "x"));
    assert!(!depot.is_locked("b", "y"));
    let (again, conflicted_again) = depot.try_lock_files("b", ["x", "y"].as_ref());
    assert_eq!(again.len(), 2);
    assert!(conflicted_again.is_empty());
}
