use zoocache::cache::{Core, GetOrEntry, HitDecision, WorkerMsg};
use zoocache::codec::CacheEntry;
use zoocache::errors::CacheError;
use zoocache::trie::{build_dependency_snapshots, PrefixTrie};

fn plain_core() -> Core {
    Core::new(None, None, 60, true)
}

#[test]
fn invalidated_dependency_evicts_on_read() {
    let mut core = plain_core();
    core.set("u:1:profile", b"blob1".to_vec(), vec!["user:1".to_string()], None, 0)
        .unwrap();
    core.invalidate("user:1", 1).unwrap();
    assert_eq!(core.get("u:1:profile", 2), None);
    assert_eq!(core.len(), 0);
}

#[test]
fn unrelated_invalidation_leaves_the_entry_served() {
    let mut core = plain_core();
    core.set("u:1:profile", b"blob1".to_vec(), vec!["user:1".to_string()], None, 0)
        .unwrap();
    core.invalidate("user:2", 1).unwrap();
    assert_eq!(core.get("u:1:profile", 2), Some(b"blob1".to_vec()));
}

#[test]
fn parent_prefix_invalidation_evicts() {
    let mut core = plain_core();
    core.set(
        "u:1:profile",
        b"blob1".to_vec(),
        vec!["org:42:user:1".to_string()],
        None,
        0,
    )
    .unwrap();
    core.invalidate("org:42", 1).unwrap();
    assert_eq!(core.get("u:1:profile", 2), None);
}

#[test]
fn empty_dependency_list_always_serves() {
    let mut core = plain_core();
    core.set("k", b"v".to_vec(), vec![], None, 0).unwrap();
    core.invalidate("other:tag", 1).unwrap();
    assert_eq!(core.get("k", 2), Some(b"v".to_vec()));
}

#[test]
fn cold_key_elects_one_leader_and_shares_the_result() {
    let mut core = plain_core();
    let a = core.get_or_entry("k", 0);
    let id_a = match a {
        GetOrEntry::Leader(id) => id,
        _ => panic!("first caller must lead"),
    };
    let b = core.get_or_entry("k", 0);
    let id_b = match b {
        GetOrEntry::Wait(id) => id,
        _ => panic!("second caller must wait"),
    };
    assert_eq!(id_a, id_b);
    core.finish_flight("k", false, Some(b"v".to_vec()));
    assert_eq!(core.resolve_wait(id_b, false), Ok(Some(b"v".to_vec())));
}

#[test]
fn bus_payload_restores_the_version_on_the_peer() {
    let mut p1 = plain_core();
    let mut p2 = plain_core();

    p2.set("e", b"cached".to_vec(), vec!["user:9".to_string()], None, 0)
        .unwrap();

    let ver = p1.invalidate("user:9", 1).unwrap();
    assert_eq!(ver, 1);
    let payload = zoocache::bus::encode_invalidation("user:9", ver);
    assert_eq!(payload, "user:9|1");

    let (tag, v) = zoocache::bus::parse_invalidation(&payload).unwrap();
    p2.set_min_version(&tag, v, 2);

    assert_eq!(p2.get("e", 3), None);
}

#[test]
fn over_capacity_writes_evict_the_oldest_keys() {
    let mut core = Core::new(None, Some(100), 60, true);
    for i in 0..120u64 {
        let key = format!("key{}", i);
        core.set(&key, b"v".to_vec(), vec![], None, i).unwrap();
        if i == 100 {
            // the 101st write overflows: 1 + 100/10 entries leave
            assert_eq!(core.len(), 90);
        }
        assert!(core.len() <= 100);
    }
    assert!(core.len() <= 100);
    // the oldest keys from the first overflow are gone
    for i in 0..11u64 {
        let key = format!("key{}", i);
        assert_eq!(core.get(&key, 200), None);
    }
}

#[test]
fn invalid_tags_are_rejected_on_set_and_invalidate() {
    let mut core = plain_core();
    assert_eq!(
        core.set("k", b"v".to_vec(), vec!["".to_string()], None, 0),
        Err(CacheError::InvalidTag)
    );
    assert_eq!(core.invalidate(":starts:bad", 0), Err(CacheError::InvalidTag));
    assert_eq!(core.len(), 0);
}

#[test]
fn expired_entries_read_as_missing_and_defer_a_delete() {
    let mut core = plain_core();
    core.set("k", b"v".to_vec(), vec![], Some(5), 0).unwrap();
    assert_eq!(core.get("k", 3), Some(b"v".to_vec()));
    assert_eq!(core.get("k", 10), None);
    let msgs = core.drain_tti_msgs();
    assert!(msgs
        .iter()
        .any(|m| matches!(m, WorkerMsg::Delete(k) if k == "k")));
}

#[test]
fn stale_epoch_reads_defer_a_rewrite() {
    let mut core = plain_core();
    core.set("k", b"v".to_vec(), vec!["user:1".to_string()], None, 0)
        .unwrap();
    // an unrelated invalidation moves the epoch but keeps the entry valid
    core.invalidate("other:tag", 1).unwrap();
    core.drain_tti_msgs();
    assert_eq!(core.get("k", 2), Some(b"v".to_vec()));
    let msgs = core.drain_tti_msgs();
    assert!(msgs
        .iter()
        .any(|m| matches!(m, WorkerMsg::Update(k, _, _) if k == "k")));
}

#[test]
fn clear_empties_storage_and_versions() {
    let mut core = plain_core();
    core.set("k", b"v".to_vec(), vec!["user:1".to_string()], None, 0)
        .unwrap();
    core.invalidate("user:1", 1).unwrap();
    core.clear();
    assert_eq!(core.len(), 0);
    assert_eq!(core.tag_version("user:1"), 0);
}

#[test]
fn dropped_message_counter_starts_at_zero() {
    let mut core = plain_core();
    assert_eq!(core.tti_dropped_messages(), 0);
    core.flush_metrics();
    core.request_prune(3600);
    let msgs = core.drain_tti_msgs();
    assert_eq!(msgs.len(), 2);
    assert!(matches!(msgs[0], WorkerMsg::FlushMetrics));
    assert!(matches!(msgs[1], WorkerMsg::Prune(3600)));
    assert_eq!(core.tti_dropped_messages(), 0);
}

#[test]
fn hit_decisions_follow_the_epoch_and_the_snapshots() {
    let mut trie = PrefixTrie::new();
    let deps = build_dependency_snapshots(&mut trie, vec!["user:1".to_string()], 0);
    let entry = CacheEntry { value: b"v".to_vec(), dependencies: deps, trie_version: 0 };

    // written at the current epoch: the fast path serves without validation
    assert!(matches!(
        Core::evaluate_hit(&trie, &entry, None, 1, None),
        HitDecision::ServeFresh
    ));

    // an unrelated invalidation moves the epoch: still valid, so rewrite
    let _ = trie.invalidate("other:tag", 1);
    match Core::evaluate_hit(&trie, &entry, Some(100), 10, None) {
        HitDecision::ServeAndRewrite(bytes, ttl) => {
            assert_eq!(ttl, Some(90));
            let rewritten = CacheEntry::deserialize(&bytes).unwrap();
            assert_eq!(rewritten.trie_version, 1);
            assert_eq!(rewritten.value, b"v".to_vec());
        }
        _ => panic!("expected a rewrite decision"),
    }

    // the dependency itself moves: the record is stale
    let _ = trie.invalidate("user:1", 2);
    assert!(matches!(
        Core::evaluate_hit(&trie, &entry, None, 10, None),
        HitDecision::Stale
    ));
}

#[test]
fn duplicate_dependencies_behave_like_one() {
    let mut core = plain_core();
    core.set(
        "k",
        b"v".to_vec(),
        vec!["user:1".to_string(), "user:1".to_string()],
        None,
        0,
    )
    .unwrap();
    assert_eq!(core.get("k", 1), Some(b"v".to_vec()));
    core.invalidate("user:1", 2).unwrap();
    assert_eq!(core.get("k", 3), None);
}

#[test]
fn rewrite_at_the_deadline_second_floors_the_ttl() {
    let mut trie = PrefixTrie::new();
    let entry = CacheEntry { value: b"v".to_vec(), dependencies: Vec::new(), trie_version: 0 };
    let _ = trie.invalidate("other:tag", 1);
    // read at exactly the deadline second: still served, rewritten with a
    // one-second floor instead of an immediate expiry
    match Core::evaluate_hit(&trie, &entry, Some(10), 10, None) {
        HitDecision::ServeAndRewrite(_, ttl) => assert_eq!(ttl, Some(1)),
        _ => panic!("expected a rewrite decision"),
    }
}
