use zoocache::trie::{build_dependency_snapshots, validate_dependencies, DepSnapshot, PrefixTrie};

#[test]
fn test_trie_basic() {
    let mut trie = PrefixTrie::new();
    let parts = vec!["user".to_string(), "1".to_string()];
    assert_eq!(trie.get_path_versions(&parts, 0), vec![0, 0, 0]);

    trie.invalidate("user:1", 0);
    assert_eq!(trie.get_path_versions(&parts, 0), vec![0, 0, 1]);

    trie.invalidate("user:1", 0);
    assert_eq!(trie.get_path_versions(&parts, 0), vec![0, 0, 2]);
}

#[test]
fn test_trie_prefix_invalidation() {
    let mut trie = PrefixTrie::new();
    let tag_parts = vec![
        "org".to_string(),
        "1".to_string(),
        "user".to_string(),
        "1".to_string(),
    ];

    let v0 = trie.get_path_versions(&tag_parts, 0);
    assert!(trie.is_valid_path(&tag_parts, &v0));

    trie.invalidate("org:1:user:1", 0);
    let v1 = trie.get_path_versions(&tag_parts, 0);
    assert!(!trie.is_valid_path(&tag_parts, &v0));
    assert!(trie.is_valid_path(&tag_parts, &v1));

    trie.invalidate("org:1", 0);
    assert!(!trie.is_valid_path(&tag_parts, &v1));
}

#[test]
fn test_trie_deep_hierarchy() {
    let mut trie = PrefixTrie::new();
    let deep_tag = "a:b:c:d:e:f:g:h:i:j";
    let parts: Vec<String> = deep_tag.split(':').map(|s| s.to_string()).collect();

    let path_v0 = trie.get_path_versions(&parts, 0);
    trie.invalidate(deep_tag, 0);
    let path_v1 = trie.get_path_versions(&parts, 0);

    assert!(!trie.is_valid_path(&parts, &path_v0));
    assert!(trie.is_valid_path(&parts, &path_v1));

    trie.invalidate("a:b:c", 0);
    assert!(!trie.is_valid_path(&parts, &path_v1));
}

#[test]
fn test_trie_clear() {
    let mut trie = PrefixTrie::new();
    trie.invalidate("user:1", 0);
    trie.invalidate("user:2", 0);

    let parts = vec!["user".to_string(), "1".to_string()];
    let v1 = trie.get_path_versions(&parts, 0);
    assert_eq!(v1[2], 1);

    trie.clear();
    let v2 = trie.get_path_versions(&parts, 0);
    assert_eq!(v2, vec![0, 0, 0]);
}

#[test]
fn test_validate_dependencies_empty() {
    let trie = PrefixTrie::new();
    let deps: Vec<(String, DepSnapshot)> = Vec::new();
    assert!(validate_dependencies(&trie, &deps));
}

#[test]
fn test_validate_dependencies_valid() {
    let mut trie = PrefixTrie::new();
    let deps = build_dependency_snapshots(&mut trie, vec!["user:1".to_string()], 0);
    assert!(validate_dependencies(&trie, &deps));
}

#[test]
fn test_validate_dependencies_invalidated() {
    let mut trie = PrefixTrie::new();
    let deps = build_dependency_snapshots(&mut trie, vec!["user:1".to_string()], 0);
    trie.invalidate("user:1", 0);
    assert!(!validate_dependencies(&trie, &deps));
}

#[test]
fn test_validate_dependencies_parent_invalidated() {
    let mut trie = PrefixTrie::new();
    let deps = build_dependency_snapshots(&mut trie, vec!["org:1:user:5".to_string()], 0);
    trie.invalidate("org:1", 0);
    assert!(!validate_dependencies(&trie, &deps));
}

#[test]
fn test_build_dependency_snapshots() {
    let mut trie = PrefixTrie::new();
    trie.invalidate("user:1", 0);

    let snapshots = build_dependency_snapshots(
        &mut trie,
        vec!["user:1".to_string(), "user:2".to_string()],
        0,
    );

    assert_eq!(snapshots.len(), 2);
    assert_eq!(snapshots[0].0, "user:1");
    assert_eq!(snapshots[0].1.parts, vec!["user", "1"]);
    assert_eq!(snapshots[0].1.path_versions, vec![0, 0, 1]);
    assert_eq!(snapshots[1].0, "user:2");
    assert_eq!(snapshots[1].1.path_versions, vec![0, 0, 0]);
}

#[test]
fn set_min_version_converges_and_is_idempotent() {
    let mut trie = PrefixTrie::new();
    trie.set_min_version("user:9", 5, 0);
    assert_eq!(trie.get_tag_version("user:9"), 5);

    // the same floor again changes nothing
    trie.set_min_version("user:9", 5, 1);
    assert_eq!(trie.get_tag_version("user:9"), 5);

    // a lower floor changes nothing
    trie.set_min_version("user:9", 4, 2);
    assert_eq!(trie.get_tag_version("user:9"), 5);

    // a local invalidation bumps past the merged floor
    let v = trie.invalidate("user:9", 3);
    assert_eq!(v, 6);
    assert_eq!(trie.get_tag_version("user:9"), 6);
}

#[test]
fn invalidate_bumps_by_exactly_one_per_call() {
    let mut trie = PrefixTrie::new();
    let mut expected = 0u64;
    for _ in 0..5 {
        expected += 1;
        assert_eq!(trie.invalidate("org:7:item", 0), expected);
        assert_eq!(trie.get_tag_version("org:7:item"), expected);
    }
    assert_eq!(trie.get_global_version(), 5);
}

#[test]
fn prune_drops_idle_subtrees_and_keeps_recent_ones() {
    let mut trie = PrefixTrie::new();
    trie.invalidate("a:b", 0);
    trie.invalidate("c", 100);
    assert_eq!(trie.get_tag_version("a:b"), 1);
    assert_eq!(trie.get_tag_version("c"), 1);

    trie.prune(10, 100);
    assert_eq!(trie.get_tag_version("a:b"), 0);
    assert_eq!(trie.get_tag_version("c"), 1);
}
