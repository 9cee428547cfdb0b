//! Key derivation: hash the host-encoded value bytes, hex-encode, truncate
//! to 16 characters, and optionally prepend a namespace prefix.

use vstd::prelude::*;
use vstd::string::StrSliceExecFns;
use vstd::string::StringExecFns;

use sha2::Digest;

verus! {

/// Names the SHA-256 digest of a byte string: a function of the bytes alone.
pub uninterp spec fn sha256_of(s: Seq<u8>) -> Seq<u8>;

/// Relies on sha2::Sha256 (the Digest::digest shortcut): a pure 32-byte
/// digest of the input bytes.
#[verifier::external_body]
fn sha256(b: &Vec<u8>) -> (r: Vec<u8>)
    ensures
        r@ == sha256_of(b@),
        r@.len() == 32,
{
    let digest = sha2::Sha256::digest(b.as_slice());
    digest.as_slice().to_vec()
}

/// The lowercase hex digit for a value below sixteen.
pub open spec fn hex_digit(d: int) -> char {
    if d == 0 {
        '0'
    } else if d == 1 {
        '1'
    } else if d == 2 {
        '2'
    } else if d == 3 {
        '3'
    } else if d == 4 {
        '4'
    } else if d == 5 {
        '5'
    } else if d == 6 {
        '6'
    } else if d == 7 {
        '7'
    } else if d == 8 {
        '8'
    } else if d == 9 {
        '9'
    } else if d == 10 {
        'a'
    } else if d == 11 {
        'b'
    } else if d == 12 {
        'c'
    } else if d == 13 {
        'd'
    } else if d == 14 {
        'e'
    } else {
        'f'
    }
}

/// Lowercase hex of a byte string, two digits per byte.
pub open spec fn hex_of(bytes: Seq<u8>) -> Seq<char>
    decreases bytes.len(),
{
    if bytes.len() == 0 {
        Seq::empty()
    } else {
        hex_of(bytes.drop_last()) + seq![
            hex_digit(bytes.last() as int / 16),
            hex_digit(bytes.last() as int % 16),
        ]
    }
}

pub proof fn lemma_hex_len(bytes: Seq<u8>)
    ensures
        hex_of(bytes).len() == 2 * bytes.len(),
    decreases bytes.len(),
{
    if bytes.len() > 0 {
        lemma_hex_len(bytes.drop_last());
    }
}

/// One hex digit as text.
fn hex_digit_str(d: u8) -> (r: &'static str)
    requires
        d < 16,
    ensures
        r@ == seq![hex_digit(d as int)],
{
    proof {
        reveal_strlit("0");
        reveal_strlit("1");
        reveal_strlit("2");
        reveal_strlit("3");
        reveal_strlit("4");
        reveal_strlit("5");
        reveal_strlit("6");
        reveal_strlit("7");
        reveal_strlit("8");
        reveal_strlit("9");
        reveal_strlit("a");
        reveal_strlit("b");
        reveal_strlit("c");
        reveal_strlit("d");
        reveal_strlit("e");
        reveal_strlit("f");
    }
    let r = if d == 0 {
        "0"
    } else if d == 1 {
        "1"
    } else if d == 2 {
        "2"
    } else if d == 3 {
        "3"
    } else if d == 4 {
        "4"
    } else if d == 5 {
        "5"
    } else if d == 6 {
        "6"
    } else if d == 7 {
        "7"
    } else if d == 8 {
        "8"
    } else if d == 9 {
        "9"
    } else if d == 10 {
        "a"
    } else if d == 11 {
        "b"
    } else if d == 12 {
        "c"
    } else if d == 13 {
        "d"
    } else if d == 14 {
        "e"
    } else {
        "f"
    };
    proof {
        assert(r@ =~= seq![hex_digit(d as int)]);
    }
    r
}

/// Hex-encodes a byte string, lowercase, two digits per byte.
pub fn hex_string(bytes: &Vec<u8>) -> (r: String)
    ensures
        r@ == hex_of(bytes@),
        r@.len() == 2 * bytes@.len(),
{
    let mut r = String::new();
    let mut i: usize = 0;
    while i < bytes.len()
        invariant
            i <= bytes.len(),
            r@ == hex_of(bytes@.take(i as int)),
            r@.len() == 2 * i,
        decreases bytes.len() - i,
    {
        let b = bytes[i];
        r.append(hex_digit_str(b / 16));
        r.append(hex_digit_str(b % 16));
        proof {
            assert(bytes@.take(i + 1).drop_last() =~= bytes@.take(i as int));
            assert(bytes@.take(i + 1).last() == bytes@[i as int]);
            assert(r@ =~= hex_of(bytes@.take(i + 1)));
        }
        i = i + 1;
    }
    proof {
        assert(bytes@.take(bytes@.len() as int) =~= bytes@);
    }
    r
}

/// What a derived key looks like for a given digest: the first 16 hex
/// characters, optionally namespaced as `prefix:short`.
pub open spec fn spec_format_hash_key(digest: Seq<u8>, prefix: Option<Seq<char>>) -> Seq<char> {
    let short = hex_of(digest).take(16);
    match prefix {
        Some(p) => p + seq![':'] + short,
        None => short,
    }
}

/// Formats a digest into a cache key: 16 hex characters, with an optional
/// `prefix:` namespace.
pub fn format_hash_key(digest: &Vec<u8>, prefix: Option<&str>) -> (r: String)
    requires
        digest@.len() >= 8,
    ensures
        r@ == spec_format_hash_key(
            digest@,
            match prefix {
                Some(p) => Some(p@),
                None => None::<Seq<char>>,
            },
        ),
        prefix is None ==> r@.len() == 16,
        prefix matches Some(p) ==> r@.len() == p@.len() + 17,
{
    let full = hex_string(digest);
    let short = full.as_str().substring_char(0, 16).to_owned();
    proof {
        assert(short@ =~= hex_of(digest@).take(16));
    }
    match prefix {
        Some(p) => {
            let mut out = p.to_owned();
            out.append(":");
            out.append(short.as_str());
            proof {
                reveal_strlit(":");
                assert(out@ =~= p@ + seq![':'] + hex_of(digest@).take(16));
            }
            out
        },
        None => short,
    }
}

/// Derives a cache key from host-encoded value bytes: SHA-256, hex, the
/// first 16 characters, optionally under `prefix:`.
pub fn hash_key(value: &Vec<u8>, prefix: Option<&str>) -> (r: String)
    ensures
        r@ == spec_format_hash_key(
            sha256_of(value@),
            match prefix {
                Some(p) => Some(p@),
                None => None::<Seq<char>>,
            },
        ),
        prefix is None ==> r@.len() == 16,
        prefix matches Some(p) ==> r@.len() == p@.len() + 17,
{
    let digest = sha256(value);
    format_hash_key(&digest, prefix)
}

} // verus!
