//! Pure layout helpers for the embedded file store: its LRU index keys are
//! a big-endian timestamp followed by the key bytes, its TTL and count cells
//! are little-endian words, and a full map maps to `StorageFull`.

use vstd::prelude::*;
use vstd::bytes::{lemma_auto_spec_u64_to_from_le_bytes, spec_u64_from_le_bytes,
    spec_u64_to_le_bytes, u64_from_le_bytes, u64_to_le_bytes};
use vstd::string::StrSliceExecFns;
use vstd::utf8::{encode_utf8, encode_utf8_decode_utf8, encode_utf8_valid_utf8, valid_utf8};

use crate::errors::CacheError;

verus! {

/// Big-endian bytes of a word: the little-endian bytes reversed.
pub open spec fn spec_u64_to_be_bytes(x: u64) -> Seq<u8> {
    spec_u64_to_le_bytes(x).reverse()
}

/// Encodes a word big-endian, so ordered scans of index keys run
/// oldest-first.
pub fn u64_to_be_bytes(x: u64) -> (r: Vec<u8>)
    ensures
        r@ == spec_u64_to_be_bytes(x),
        r@.len() == 8,
{
    proof {
        lemma_auto_spec_u64_to_from_le_bytes();
    }
    let le = u64_to_le_bytes(x);
    let mut r: Vec<u8> = Vec::new();
    let mut i: usize = 0;
    while i < 8
        invariant
            i <= 8,
            le@ == spec_u64_to_le_bytes(x),
            le@.len() == 8,
            r@.len() == i,
            forall|j: int| 0 <= j < i ==> r@[j] == le@[7 - j],
        decreases 8 - i,
    {
        r.push(le[7 - i]);
        i = i + 1;
    }
    proof {
        assert(r@ =~= spec_u64_to_le_bytes(x).reverse());
    }
    r
}

/// The row key of the LRU index: 8 bytes of big-endian timestamp, then the
/// key's bytes.
pub fn make_index_key(ts: u64, key: &str) -> (r: Vec<u8>)
    ensures
        r@ == spec_u64_to_be_bytes(ts) + encode_utf8(key@),
{
    let mut r = u64_to_be_bytes(ts);
    let bytes = key.as_bytes();
    let ghost base = r@;
    let mut i: usize = 0;
    while i < bytes.len()
        invariant
            i <= bytes.len(),
            bytes@ == encode_utf8(key@),
            r@ =~= base + bytes@.take(i as int),
        decreases bytes.len() - i,
    {
        r.push(bytes[i]);
        i = i + 1;
    }
    proof {
        assert(bytes@.take(bytes@.len() as int) =~= bytes@);
        assert(r@ =~= spec_u64_to_be_bytes(ts) + encode_utf8(key@));
    }
    r
}

/// Recovers the key from an LRU index row: strip the 8-byte prefix and
/// decode the rest as text; malformed rows are skipped.
pub fn index_key_to_key(raw: &[u8]) -> (r: Option<String>)
    ensures
        match r {
            Some(s) => raw@.len() >= 8 && encode_utf8(s@) == raw@.skip(8),
            None => raw@.len() < 8 || !valid_utf8(raw@.skip(8)),
        },
{
    if raw.len() < 8 {
        return None;
    }
    let tail = vstd::slice::slice_subrange(raw, 8, raw.len());
    let v = vstd::slice::slice_to_vec(tail);
    proof {
        assert(v@ =~= raw@.skip(8));
    }
    crate::codec::string_from_utf8(v)
}

/// An index row built for a key parses back to that key.
pub proof fn lemma_index_key_round_trip(ts: u64, key: Seq<char>)
    ensures
        (spec_u64_to_be_bytes(ts) + encode_utf8(key)).len() >= 8,
        (spec_u64_to_be_bytes(ts) + encode_utf8(key)).skip(8) == encode_utf8(key),
{
    lemma_auto_spec_u64_to_from_le_bytes();
    assert(spec_u64_to_be_bytes(ts).len() == 8);
    assert((spec_u64_to_be_bytes(ts) + encode_utf8(key)).skip(8) =~= encode_utf8(key));
}

/// A TTL or count cell: one little-endian word.
pub fn u64_cell(v: u64) -> (r: Vec<u8>)
    ensures
        r@ == spec_u64_to_le_bytes(v),
{
    u64_to_le_bytes(v)
}

/// Reads a TTL or count cell; anything but 8 bytes is refused.
pub fn parse_u64_cell(b: &[u8]) -> (r: Option<u64>)
    ensures
        match r {
            Some(v) => b@.len() == 8 && v == spec_u64_from_le_bytes(b@),
            None => b@.len() != 8,
        },
{
    if b.len() == 8 {
        Some(u64_from_le_bytes(b))
    } else {
        None
    }
}

/// The deadline a stored TTL cell means: absent or zero is "no expiry".
pub fn effective_deadline(cell: Option<u64>) -> (r: Option<u64>)
    ensures
        r == (match cell {
            Some(v) => if v == 0 {
                None::<u64>
            } else {
                Some(v)
            },
            None => None::<u64>,
        }),
{
    match cell {
        Some(v) => if v == 0 {
            None
        } else {
            Some(v)
        },
        None => None,
    }
}

/// A deadline has passed at `now`.
pub fn deadline_passed(deadline: Option<u64>, now: u64) -> (r: bool)
    ensures
        r == (match deadline {
            Some(d) => now > d,
            None => false,
        }),
{
    match deadline {
        Some(d) => now > d,
        None => false,
    }
}

/// The persisted count after removals, never below zero.
pub fn count_after_removals(count: u64, removed: u64) -> (r: u64)
    ensures
        r == (if count >= removed {
            (count - removed) as u64
        } else {
            0u64
        }),
{
    if count >= removed {
        count - removed
    } else {
        0
    }
}

/// `needle` occurs in `hay` starting at some position.
pub open spec fn contains_seq(hay: Seq<char>, needle: Seq<char>) -> bool {
    exists|i: int|
        0 <= i <= hay.len() - needle.len() && #[trigger] hay.subrange(i, i + needle.len())
            == needle
}

/// Substring search, character by character.
pub fn contains_substr(hay: &str, needle: &str) -> (r: bool)
    ensures
        r == contains_seq(hay@, needle@),
{
    let hn = hay.unicode_len();
    let nn = needle.unicode_len();
    if nn > hn {
        proof {
            assert(!contains_seq(hay@, needle@));
        }
        return false;
    }
    if nn == 0 {
        proof {
            assert(hay@.subrange(0, 0 + needle@.len() as int) =~= needle@);
            assert(contains_seq(hay@, needle@));
        }
        return true;
    }
    let mut i: usize = 0;
    while i <= hn - nn
        invariant
            1 <= nn <= hn,
            hn == hay@.len(),
            nn == needle@.len(),
            i <= hn - nn + 1,
            forall|a: int|
                0 <= a < i ==> #[trigger] hay@.subrange(a, a + needle@.len()) != needle@,
        decreases hn - i,
    {
        let mut j: usize = 0;
        let mut matched = true;
        while j < nn
            invariant
                matched ==> forall|b: int| 0 <= b < j ==> hay@[i + b] == needle@[b],
                j <= nn,
                i + nn <= hn,
                hn == hay@.len(),
                nn == needle@.len(),
                !matched ==> hay@.subrange(i as int, i + needle@.len()) != needle@,
            decreases nn - j,
        {
            if hay.get_char(i + j) != needle.get_char(j) {
                proof {
                    if matched {
                        assert(hay@.subrange(i as int, i + needle@.len())[j as int] == hay@[i
                            + j]);
                    }
                }
                matched = false;
            }
            j = j + 1;
        }
        if matched {
            proof {
                assert(hay@.subrange(i as int, i + needle@.len()) =~= needle@);
            }
            return true;
        }
        i = i + 1;
    }
    proof {
        if contains_seq(hay@, needle@) {
            let a = choose|a: int|
                0 <= a <= hay@.len() - needle@.len() && #[trigger] hay@.subrange(
                    a,
                    a + needle@.len(),
                ) == needle@;
            assert(false);
        }
    }
    false
}

/// Sorts a commit failure into the error taxonomy: a full map is
/// `StorageFull` with remediation guidance, anything else `Runtime`.
pub fn classify_commit_error(msg: &str) -> (r: CacheError)
    ensures
        r == (if contains_seq(msg@, "MDB_MAP_FULL"@) || contains_seq(msg@, "MAP_FULL"@) {
            CacheError::StorageFull
        } else {
            CacheError::Runtime
        }),
{
    if contains_substr(msg, "MDB_MAP_FULL") || contains_substr(msg, "MAP_FULL") {
        CacheError::StorageFull
    } else {
        CacheError::Runtime
    }
}

} // verus!
