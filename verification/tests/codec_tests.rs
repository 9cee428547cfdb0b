use zoocache::codec::CacheEntry;
use zoocache::errors::CacheError;
use zoocache::trie::DepSnapshot;

fn sample_entry() -> CacheEntry {
    CacheEntry {
        value: vec![1, 2, 3, 250, 0, 7],
        dependencies: vec![
            (
                "user:1".to_string(),
                DepSnapshot {
                    parts: vec!["user".to_string(), "1".to_string()],
                    path_versions: vec![0, 0, 3],
                },
            ),
            (
                "org:42".to_string(),
                DepSnapshot {
                    parts: vec!["org".to_string(), "42".to_string()],
                    path_versions: vec![0, 1, 0],
                },
            ),
        ],
        trie_version: 17,
    }
}

#[test]
fn serialize_then_deserialize_returns_the_entry() {
    let entry = sample_entry();
    let data = entry.serialize();
    let back = CacheEntry::deserialize(&data).unwrap();
    assert_eq!(back.value, entry.value);
    assert_eq!(back.trie_version, entry.trie_version);
    assert_eq!(back.dependencies.len(), entry.dependencies.len());
    for (a, b) in back.dependencies.iter().zip(entry.dependencies.iter()) {
        assert_eq!(a.0, b.0);
        assert_eq!(a.1.parts, b.1.parts);
        assert_eq!(a.1.path_versions, b.1.path_versions);
    }
}

#[test]
fn round_trip_keeps_empty_entries() {
    let entry = CacheEntry { value: Vec::new(), dependencies: Vec::new(), trie_version: 0 };
    let data = entry.serialize();
    let back = CacheEntry::deserialize(&data).unwrap();
    assert_eq!(back.value, Vec::<u8>::new());
    assert_eq!(back.dependencies.len(), 0);
    assert_eq!(back.trie_version, 0);
}

#[test]
fn serialized_bytes_start_with_the_magic() {
    let data = sample_entry().serialize();
    assert_eq!(&data[..4], b"ZOO1");
}

#[test]
fn short_or_mismatched_magic_is_corrupted() {
    assert!(matches!(CacheEntry::deserialize(&[1, 2, 3]), Err(CacheError::Corrupted)));
    let bad = [b'X', b'O', b'O', b'1', 0, 0, 0, 0];
    assert!(matches!(CacheEntry::deserialize(&bad), Err(CacheError::Corrupted)));
}

#[test]
fn garbage_after_the_magic_is_corrupted() {
    let bad = [b'Z', b'O', b'O', b'1', 9, 9, 9];
    assert!(matches!(CacheEntry::deserialize(&bad), Err(CacheError::Corrupted)));
}

#[test]
fn round_trip_keeps_tags_beyond_ascii() {
    let entry = CacheEntry {
        value: vec![42],
        dependencies: vec![(
            "бета:7".to_string(),
            DepSnapshot {
                parts: vec!["бета".to_string(), "7".to_string()],
                path_versions: vec![0, 0, 1],
            },
        )],
        trie_version: 1,
    };
    let back = CacheEntry::deserialize(&entry.serialize()).unwrap();
    assert_eq!(back.dependencies[0].0, "бета:7");
    assert_eq!(back.dependencies[0].1.parts, vec!["бета", "7"]);
}
