use zoocache::embedded::{classify_commit_error, contains_substr, effective_deadline,
    index_key_to_key, make_index_key, parse_u64_cell, u64_cell};
use zoocache::errors::CacheError;
use zoocache::hashing::hash_key;
use zoocache::remote::{full_key, heartbeat_key, invalidate_channel, lru_key, metrics_key,
    node_channel, pttl_to_deadline};
use zoocache::storage::{InMemoryStorage, StorageResult};
use zoocache::tags::{dedup_tags, validate_tag};
use zoocache::utils::{now_nanos, now_secs};

#[test]
fn empty_tag_is_invalid() {
    assert_eq!(validate_tag(""), Err(CacheError::InvalidTag));
}

#[test]
fn depth_seventeen_is_invalid() {
    let tag = vec!["x"; 18].join(":");
    assert_eq!(tag.matches(':').count(), 17);
    assert_eq!(validate_tag(&tag), Err(CacheError::InvalidTag));
}

#[test]
fn depth_sixteen_is_accepted() {
    let tag = vec!["x"; 17].join(":");
    assert_eq!(tag.matches(':').count(), 16);
    assert_eq!(validate_tag(&tag), Ok(()));
}

#[test]
fn tag_character_rules() {
    assert_eq!(validate_tag("org:42:user_7.cache"), Ok(()));
    assert_eq!(validate_tag("a!b"), Err(CacheError::InvalidTag));
    assert_eq!(validate_tag(":leading"), Err(CacheError::InvalidTag));
    assert_eq!(validate_tag("trailing:"), Err(CacheError::InvalidTag));
    assert_eq!(validate_tag(".leading"), Err(CacheError::InvalidTag));
    // letters beyond ASCII count as alphanumeric
    assert_eq!(validate_tag("бета:7"), Ok(()));
    let long = "x".repeat(257);
    assert_eq!(validate_tag(&long), Err(CacheError::InvalidTag));
    let edge = "x".repeat(256);
    assert_eq!(validate_tag(&edge), Ok(()));
}

#[test]
fn evict_zero_removes_nothing() {
    let mut s = InMemoryStorage::new();
    let entry = zoocache::codec::CacheEntry {
        value: b"v".to_vec(),
        dependencies: Vec::new(),
        trie_version: 0,
    };
    s.set("a", entry, None, 1);
    let evicted = s.evict_lru(0);
    assert!(evicted.is_empty());
    assert_eq!(s.len(), 1);
}

#[test]
fn evict_removes_the_oldest_first() {
    let mut s = InMemoryStorage::new();
    for (key, when) in [("old", 1u64), ("mid", 2), ("new", 3)] {
        let entry = zoocache::codec::CacheEntry {
            value: b"v".to_vec(),
            dependencies: Vec::new(),
            trie_version: 0,
        };
        s.set(key, entry, None, when);
    }
    let mut evicted = s.evict_lru(2);
    evicted.sort();
    assert_eq!(evicted, vec!["mid".to_string(), "old".to_string()]);
    assert_eq!(s.len(), 1);
    assert!(matches!(s.get("new", 4), StorageResult::Hit(_, _)));
}

#[test]
fn storage_expiry_deletes_on_read() {
    let mut s = InMemoryStorage::new();
    let entry = zoocache::codec::CacheEntry {
        value: b"v".to_vec(),
        dependencies: Vec::new(),
        trie_version: 0,
    };
    s.set("a", entry, Some(5), 0);
    assert!(matches!(s.get("a", 5), StorageResult::Hit(_, _)));
    assert!(matches!(s.get("a", 6), StorageResult::Expired));
    assert!(matches!(s.get("a", 7), StorageResult::NotFound));
}

#[test]
fn hash_key_digests_hex_truncates_and_prefixes() {
    let value = b"hello".to_vec();
    assert_eq!(hash_key(&value, None), "2cf24dba5fb0a30e");
    assert_eq!(hash_key(&value, Some("zoocache")), "zoocache:2cf24dba5fb0a30e");
}

#[test]
fn index_keys_round_trip_their_key() {
    let raw = make_index_key(123456789, "org:42:user");
    assert_eq!(raw.len(), 8 + "org:42:user".len());
    assert_eq!(index_key_to_key(&raw), Some("org:42:user".to_string()));
    assert_eq!(index_key_to_key(&raw[..4]), None);
}

#[test]
fn index_keys_order_by_timestamp_then_key() {
    let a = make_index_key(1, "zzz");
    let b = make_index_key(2, "aaa");
    assert!(a < b);
}

#[test]
fn ttl_cells_round_trip() {
    let cell = u64_cell(987654321);
    assert_eq!(parse_u64_cell(&cell), Some(987654321));
    assert_eq!(parse_u64_cell(&cell[..7]), None);
    assert_eq!(effective_deadline(Some(0)), None);
    assert_eq!(effective_deadline(Some(9)), Some(9));
    assert_eq!(effective_deadline(None), None);
}

#[test]
fn commit_errors_classify_into_the_taxonomy() {
    assert!(contains_substr("xx MDB_MAP_FULL: oops", "MDB_MAP_FULL"));
    assert!(!contains_substr("fine", "MDB_MAP_FULL"));
    assert_eq!(
        classify_commit_error("commit failed: MDB_MAP_FULL"),
        CacheError::StorageFull
    );
    assert_eq!(classify_commit_error("disk exploded"), CacheError::Runtime);
    assert_eq!(CacheError::StorageFull.name(), "storage_full");
    assert_eq!(CacheError::Connection.name(), "connection");
    assert_eq!(CacheError::Io.name(), "io");
    assert_eq!(CacheError::Type.name(), "type");
}

#[test]
fn remote_namespacing_matches_the_wire_layout() {
    assert_eq!(full_key("zoocache", "u:1"), "zoocache:u:1");
    assert_eq!(lru_key("zoocache"), "zoocache:_lru");
    assert_eq!(metrics_key("zoocache", "hits"), "zoocache:metrics:hits");
    assert_eq!(invalidate_channel("zoocache"), "zoocache:invalidate");
    assert_eq!(node_channel("zoocache", "n1"), "zoocache:node:n1:invalidate");
    assert_eq!(heartbeat_key("zoocache", "n1"), "zoocache:node:n1");
    assert_eq!(pttl_to_deadline(2500, 100), Some(102));
    assert_eq!(pttl_to_deadline(-1, 100), None);
    assert_eq!(pttl_to_deadline(0, 100), None);
}

#[test]
fn clock_readers_run() {
    assert!(now_secs() > 1000000000);
    assert!(now_nanos() > 0);
}

#[test]
fn scan_lists_live_matching_keys() {
    let mut s = InMemoryStorage::new();
    for (key, ttl) in [("a:1", None), ("a:2", Some(5)), ("b:1", None)] {
        let entry = zoocache::codec::CacheEntry {
            value: b"v".to_vec(),
            dependencies: Vec::new(),
            trie_version: 0,
        };
        s.set(key, entry, ttl, 0);
    }
    // at second 10 the TTL'd key has expired and is passed over
    let mut listed = s.scan_keys("a", 10);
    listed.sort();
    assert_eq!(listed, vec![("a:1".to_string(), None)]);
    // before the deadline both a-keys show, with their deadlines
    let mut early = s.scan_keys("a", 1);
    early.sort();
    assert_eq!(
        early,
        vec![("a:1".to_string(), None), ("a:2".to_string(), Some(5))]
    );
    assert_eq!(s.scan_keys("", 1).len(), 3);
    assert_eq!(s.scan_keys("zzz", 1).len(), 0);
}

#[test]
fn repeated_tags_collapse_to_one() {
    let tags = vec![
        "a".to_string(),
        "b".to_string(),
        "a".to_string(),
        "c".to_string(),
        "b".to_string(),
    ];
    assert_eq!(dedup_tags(&tags), vec!["a", "b", "c"]);
    assert_eq!(dedup_tags(&Vec::new()), Vec::<String>::new());
}
