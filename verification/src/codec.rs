//! Cache-entry codec: `{value bytes, dependency snapshots, trie epoch}` is
//! packed into a length-prefixed binary payload, block-compressed, and
//! prefixed with the 4-byte ASCII magic `ZOO1`. A magic mismatch or any
//! decode failure surfaces as `Corrupted`.

use vstd::prelude::*;
use vstd::bytes::{lemma_auto_spec_u64_to_from_le_bytes, spec_u64_from_le_bytes,
    spec_u64_to_le_bytes, u64_from_le_bytes, u64_to_le_bytes};
use vstd::slice::slice_subrange;
use vstd::utf8::{decode_utf8, encode_utf8, encode_utf8_decode_utf8, encode_utf8_valid_utf8,
    valid_utf8};

use crate::errors::CacheError;
use crate::trie::DepSnapshot;

verus! {

/// Mathematical content of one dependency: the tag, its parts, and the
/// recorded path versions.
#[verifier::ext_equal]
pub ghost struct DepModel {
    pub tag: Seq<char>,
    pub parts: Seq<Seq<char>>,
    pub versions: Seq<u64>,
}

/// Mathematical content of a cache entry.
#[verifier::ext_equal]
pub ghost struct EntryModel {
    pub value: Seq<u8>,
    pub deps: Seq<DepModel>,
    pub trie_version: u64,
}

/// A logical cache entry: the host's opaque value bytes, the dependency
/// snapshots keyed by tag, and the global epoch observed at write time.
pub struct CacheEntry {
    pub value: Vec<u8>,
    pub dependencies: Vec<(String, DepSnapshot)>,
    pub trie_version: u64,
}

/// The model of one stored dependency pair.
pub open spec fn dep_model_of(pair: (String, DepSnapshot)) -> DepModel {
    DepModel {
        tag: pair.0@,
        parts: pair.1.parts.deep_view(),
        versions: pair.1.path_versions@,
    }
}

impl View for CacheEntry {
    type V = EntryModel;

    open spec fn view(&self) -> EntryModel {
        EntryModel {
            value: self.value@,
            deps: Seq::new(self.dependencies@.len(), |i: int| dep_model_of(self.dependencies@[i])),
            trie_version: self.trie_version,
        }
    }
}

/// The 4-byte ASCII magic `ZOO1`.
pub open spec fn magic_seq() -> Seq<u8> {
    seq![0x5au8, 0x4fu8, 0x4fu8, 0x31u8]
}

// --- encoders ---

pub open spec fn enc_u64(x: u64) -> Seq<u8> {
    spec_u64_to_le_bytes(x)
}

/// Length-prefixed raw bytes.
pub open spec fn enc_bytes(b: Seq<u8>) -> Seq<u8> {
    enc_u64(b.len() as u64) + b
}

/// Length-prefixed UTF-8 text.
pub open spec fn enc_str(s: Seq<char>) -> Seq<u8> {
    enc_bytes(encode_utf8(s))
}

pub open spec fn enc_u64s(vs: Seq<u64>) -> Seq<u8>
    decreases vs.len(),
{
    if vs.len() == 0 {
        Seq::empty()
    } else {
        enc_u64(vs[0]) + enc_u64s(vs.skip(1))
    }
}

pub open spec fn enc_strs(ps: Seq<Seq<char>>) -> Seq<u8>
    decreases ps.len(),
{
    if ps.len() == 0 {
        Seq::empty()
    } else {
        enc_str(ps[0]) + enc_strs(ps.skip(1))
    }
}

pub open spec fn enc_dep(d: DepModel) -> Seq<u8> {
    enc_str(d.tag) + enc_u64(d.parts.len() as u64) + enc_strs(d.parts) + enc_u64(
        d.versions.len() as u64,
    ) + enc_u64s(d.versions)
}

pub open spec fn enc_deps(ds: Seq<DepModel>) -> Seq<u8>
    decreases ds.len(),
{
    if ds.len() == 0 {
        Seq::empty()
    } else {
        enc_dep(ds[0]) + enc_deps(ds.skip(1))
    }
}

/// The uncompressed payload: epoch, value, dependency count, dependencies.
pub open spec fn encode_payload(e: EntryModel) -> Seq<u8> {
    enc_u64(e.trie_version) + enc_bytes(e.value) + enc_u64(e.deps.len() as u64) + enc_deps(e.deps)
}

/// Every length in the model fits its 64-bit header. The view of any
/// in-memory entry satisfies this.
pub open spec fn dep_wf(d: DepModel) -> bool {
    &&& encode_utf8(d.tag).len() <= u64::MAX
    &&& d.parts.len() <= u64::MAX
    &&& (forall|i: int| 0 <= i < d.parts.len() ==> encode_utf8(#[trigger] d.parts[i]).len()
        <= u64::MAX)
    &&& d.versions.len() <= u64::MAX
}

pub open spec fn model_wf(e: EntryModel) -> bool {
    &&& e.value.len() <= u64::MAX
    &&& e.deps.len() <= u64::MAX
    &&& (forall|k: int| 0 <= k < e.deps.len() ==> dep_wf(#[trigger] e.deps[k]))
}

/// The payload fits the compressed block's 32-bit size header, so the
/// stored bytes decode back to the entry.
pub open spec fn encodable(e: EntryModel) -> bool {
    encode_payload(e).len() < 0x1_0000_0000
}

// --- decoders ---

pub open spec fn dec_u64_at(b: Seq<u8>, pos: int) -> Option<(u64, int)> {
    if 0 <= pos && pos + 8 <= b.len() {
        Some((spec_u64_from_le_bytes(b.subrange(pos, pos + 8)), pos + 8))
    } else {
        None
    }
}

pub open spec fn dec_bytes_at(b: Seq<u8>, pos: int) -> Option<(Seq<u8>, int)> {
    match dec_u64_at(b, pos) {
        Some((n, p)) => if p + n <= b.len() {
            Some((b.subrange(p, p + n as int), p + n as int))
        } else {
            None
        },
        None => None,
    }
}

pub open spec fn dec_str_at(b: Seq<u8>, pos: int) -> Option<(Seq<char>, int)> {
    match dec_bytes_at(b, pos) {
        Some((bs, p)) => if valid_utf8(bs) {
            Some((decode_utf8(bs), p))
        } else {
            None
        },
        None => None,
    }
}

pub open spec fn dec_u64s_at(b: Seq<u8>, pos: int, count: nat) -> Option<(Seq<u64>, int)>
    decreases count,
{
    if count == 0 {
        Some((Seq::empty(), pos))
    } else {
        match dec_u64_at(b, pos) {
            Some((x, p)) => match dec_u64s_at(b, p, (count - 1) as nat) {
                Some((xs, p2)) => Some((seq![x] + xs, p2)),
                None => None,
            },
            None => None,
        }
    }
}

pub open spec fn dec_strs_at(b: Seq<u8>, pos: int, count: nat) -> Option<(Seq<Seq<char>>, int)>
    decreases count,
{
    if count == 0 {
        Some((Seq::empty(), pos))
    } else {
        match dec_str_at(b, pos) {
            Some((s, p)) => match dec_strs_at(b, p, (count - 1) as nat) {
                Some((ss, p2)) => Some((seq![s] + ss, p2)),
                None => None,
            },
            None => None,
        }
    }
}

pub open spec fn dec_dep_at(b: Seq<u8>, pos: int) -> Option<(DepModel, int)> {
    match dec_str_at(b, pos) {
        Some((tag, p1)) => match dec_u64_at(b, p1) {
            Some((np, p2)) => match dec_strs_at(b, p2, np as nat) {
                Some((parts, p3)) => match dec_u64_at(b, p3) {
                    Some((nv, p4)) => match dec_u64s_at(b, p4, nv as nat) {
                        Some((vers, p5)) => Some(
                            (DepModel { tag, parts, versions: vers }, p5),
                        ),
                        None => None,
                    },
                    None => None,
                },
                None => None,
            },
            None => None,
        },
        None => None,
    }
}

pub open spec fn dec_deps_at(b: Seq<u8>, pos: int, count: nat) -> Option<(Seq<DepModel>, int)>
    decreases count,
{
    if count == 0 {
        Some((Seq::empty(), pos))
    } else {
        match dec_dep_at(b, pos) {
            Some((d, p)) => match dec_deps_at(b, p, (count - 1) as nat) {
                Some((ds, p2)) => Some((seq![d] + ds, p2)),
                None => None,
            },
            None => None,
        }
    }
}

/// Decodes a full payload; trailing bytes are refused.
pub open spec fn decode_payload(b: Seq<u8>) -> Option<EntryModel> {
    match dec_u64_at(b, 0) {
        Some((tv, p1)) => match dec_bytes_at(b, p1) {
            Some((val, p2)) => match dec_u64_at(b, p2) {
                Some((nd, p3)) => match dec_deps_at(b, p3, nd as nat) {
                    Some((deps, p4)) => if p4 == b.len() {
                        Some(EntryModel { value: val, deps, trie_version: tv })
                    } else {
                        None
                    },
                    None => None,
                },
                None => None,
            },
            None => None,
        },
        None => None,
    }
}

// --- round-trip lemmas ---

proof fn lemma_dec_u64(pre: Seq<u8>, x: u64, suf: Seq<u8>)
    ensures
        dec_u64_at(pre + enc_u64(x) + suf, pre.len() as int) == Some(
            (x, pre.len() as int + 8),
        ),
{
    lemma_auto_spec_u64_to_from_le_bytes();
    let b = pre + enc_u64(x) + suf;
    assert(enc_u64(x).len() == 8);
    assert(b.subrange(pre.len() as int, pre.len() as int + 8) =~= enc_u64(x));
}

proof fn lemma_dec_bytes(pre: Seq<u8>, s: Seq<u8>, suf: Seq<u8>)
    requires
        s.len() <= u64::MAX,
    ensures
        dec_bytes_at(pre + enc_bytes(s) + suf, pre.len() as int) == Some(
            (s, pre.len() as int + 8 + s.len() as int),
        ),
{
    let b = pre + enc_bytes(s) + suf;
    assert(pre + enc_bytes(s) + suf =~= pre + enc_u64(s.len() as u64) + (s + suf));
    lemma_dec_u64(pre, s.len() as u64, s + suf);
    lemma_auto_spec_u64_to_from_le_bytes();
    assert(b.subrange(pre.len() as int + 8, pre.len() as int + 8 + s.len() as int) =~= s);
}

proof fn lemma_dec_str(pre: Seq<u8>, s: Seq<char>, suf: Seq<u8>)
    requires
        encode_utf8(s).len() <= u64::MAX,
    ensures
        dec_str_at(pre + enc_str(s) + suf, pre.len() as int) == Some(
            (s, pre.len() as int + 8 + encode_utf8(s).len() as int),
        ),
{
    lemma_dec_bytes(pre, encode_utf8(s), suf);
    encode_utf8_valid_utf8(s);
    encode_utf8_decode_utf8(s);
}

proof fn lemma_dec_u64s(pre: Seq<u8>, vs: Seq<u64>, suf: Seq<u8>)
    ensures
        dec_u64s_at(pre + enc_u64s(vs) + suf, pre.len() as int, vs.len()) == Some(
            (vs, pre.len() as int + enc_u64s(vs).len() as int),
        ),
    decreases vs.len(),
{
    lemma_auto_spec_u64_to_from_le_bytes();
    if vs.len() == 0 {
        assert(pre + enc_u64s(vs) + suf =~= pre + suf);
        assert(dec_u64s_at(pre + enc_u64s(vs) + suf, pre.len() as int, 0) == Some(
            (Seq::<u64>::empty(), pre.len() as int),
        ));
        assert(vs =~= Seq::<u64>::empty());
    } else {
        let b = pre + enc_u64s(vs) + suf;
        assert(b =~= pre + enc_u64(vs[0]) + (enc_u64s(vs.skip(1)) + suf));
        lemma_dec_u64(pre, vs[0], enc_u64s(vs.skip(1)) + suf);
        let pre2 = pre + enc_u64(vs[0]);
        assert(b =~= pre2 + enc_u64s(vs.skip(1)) + suf);
        lemma_dec_u64s(pre2, vs.skip(1), suf);
        assert(seq![vs[0]] + vs.skip(1) =~= vs);
        assert(enc_u64(vs[0]).len() == 8);
    }
}

proof fn lemma_dec_strs(pre: Seq<u8>, ps: Seq<Seq<char>>, suf: Seq<u8>)
    requires
        forall|i: int| 0 <= i < ps.len() ==> encode_utf8(#[trigger] ps[i]).len() <= u64::MAX,
    ensures
        dec_strs_at(pre + enc_strs(ps) + suf, pre.len() as int, ps.len()) == Some(
            (ps, pre.len() as int + enc_strs(ps).len() as int),
        ),
    decreases ps.len(),
{
    lemma_auto_spec_u64_to_from_le_bytes();
    if ps.len() == 0 {
        assert(pre + enc_strs(ps) + suf =~= pre + suf);
        assert(ps =~= Seq::<Seq<char>>::empty());
    } else {
        let b = pre + enc_strs(ps) + suf;
        assert(b =~= pre + enc_str(ps[0]) + (enc_strs(ps.skip(1)) + suf));
        lemma_dec_str(pre, ps[0], enc_strs(ps.skip(1)) + suf);
        let pre2 = pre + enc_str(ps[0]);
        assert(b =~= pre2 + enc_strs(ps.skip(1)) + suf);
        assert forall|i: int| 0 <= i < ps.skip(1).len() implies encode_utf8(
            #[trigger] ps.skip(1)[i],
        ).len() <= u64::MAX by {
            assert(ps.skip(1)[i] == ps[i + 1]);
        }
        lemma_dec_strs(pre2, ps.skip(1), suf);
        assert(seq![ps[0]] + ps.skip(1) =~= ps);
        assert(enc_str(ps[0]).len() == 8 + encode_utf8(ps[0]).len());
    }
}

#[verifier::rlimit(30)]
proof fn lemma_dec_dep(pre: Seq<u8>, d: DepModel, suf: Seq<u8>)
    requires
        dep_wf(d),
    ensures
        dec_dep_at(pre + enc_dep(d) + suf, pre.len() as int) == Some(
            (d, pre.len() as int + enc_dep(d).len() as int),
        ),
{
    lemma_auto_spec_u64_to_from_le_bytes();
    let b = pre + enc_dep(d) + suf;
    let e_tag = enc_str(d.tag);
    let e_np = enc_u64(d.parts.len() as u64);
    let e_ps = enc_strs(d.parts);
    let e_nv = enc_u64(d.versions.len() as u64);
    let e_vs = enc_u64s(d.versions);
    assert(b =~= pre + e_tag + (e_np + e_ps + e_nv + e_vs + suf));
    lemma_dec_str(pre, d.tag, e_np + e_ps + e_nv + e_vs + suf);
    let p1 = pre + e_tag;
    assert(b =~= p1 + e_np + (e_ps + e_nv + e_vs + suf));
    lemma_dec_u64(p1, d.parts.len() as u64, e_ps + e_nv + e_vs + suf);
    let p2 = p1 + e_np;
    assert(b =~= p2 + e_ps + (e_nv + e_vs + suf));
    lemma_dec_strs(p2, d.parts, e_nv + e_vs + suf);
    let p3 = p2 + e_ps;
    assert(b =~= p3 + e_nv + (e_vs + suf));
    lemma_dec_u64(p3, d.versions.len() as u64, e_vs + suf);
    let p4 = p3 + e_nv;
    assert(b =~= p4 + e_vs + suf);
    lemma_dec_u64s(p4, d.versions, suf);
    assert((d.parts.len() as u64) as nat == d.parts.len());
    assert((d.versions.len() as u64) as nat == d.versions.len());
}

proof fn lemma_dec_deps(pre: Seq<u8>, ds: Seq<DepModel>, suf: Seq<u8>)
    requires
        forall|k: int| 0 <= k < ds.len() ==> dep_wf(#[trigger] ds[k]),
    ensures
        dec_deps_at(pre + enc_deps(ds) + suf, pre.len() as int, ds.len()) == Some(
            (ds, pre.len() as int + enc_deps(ds).len() as int),
        ),
    decreases ds.len(),
{
    if ds.len() == 0 {
        assert(pre + enc_deps(ds) + suf =~= pre + suf);
        assert(ds =~= Seq::<DepModel>::empty());
    } else {
        let b = pre + enc_deps(ds) + suf;
        assert(b =~= pre + enc_dep(ds[0]) + (enc_deps(ds.skip(1)) + suf));
        lemma_dec_dep(pre, ds[0], enc_deps(ds.skip(1)) + suf);
        let pre2 = pre + enc_dep(ds[0]);
        assert(b =~= pre2 + enc_deps(ds.skip(1)) + suf);
        assert forall|k: int| 0 <= k < ds.skip(1).len() implies dep_wf(
            #[trigger] ds.skip(1)[k],
        ) by {
            assert(ds.skip(1)[k] == ds[k + 1]);
        }
        lemma_dec_deps(pre2, ds.skip(1), suf);
        assert(seq![ds[0]] + ds.skip(1) =~= ds);
    }
}

/// Appending one element extends the word-list encoding on the right.
proof fn lemma_enc_u64s_push(vs: Seq<u64>, x: u64)
    ensures
        enc_u64s(vs.push(x)) == enc_u64s(vs) + enc_u64(x),
    decreases vs.len(),
{
    if vs.len() == 0 {
        assert(vs.push(x)[0] == x);
        assert(vs.push(x).skip(1) =~= Seq::<u64>::empty());
        assert(enc_u64s(Seq::<u64>::empty()) == Seq::<u8>::empty());
        assert(enc_u64s(vs.push(x)) =~= enc_u64(x));
        assert(enc_u64s(vs) + enc_u64(x) =~= enc_u64(x));
    } else {
        lemma_enc_u64s_push(vs.skip(1), x);
        assert(vs.push(x).skip(1) =~= vs.skip(1).push(x));
        assert(vs.push(x)[0] == vs[0]);
        assert(enc_u64s(vs.push(x)) =~= enc_u64s(vs) + enc_u64(x));
    }
}

proof fn lemma_enc_strs_push(ps: Seq<Seq<char>>, x: Seq<char>)
    ensures
        enc_strs(ps.push(x)) == enc_strs(ps) + enc_str(x),
    decreases ps.len(),
{
    if ps.len() == 0 {
        assert(ps.push(x)[0] == x);
        assert(ps.push(x).skip(1) =~= Seq::<Seq<char>>::empty());
        assert(enc_strs(Seq::<Seq<char>>::empty()) == Seq::<u8>::empty());
        assert(enc_strs(ps.push(x)) =~= enc_str(x));
        assert(enc_strs(ps) + enc_str(x) =~= enc_str(x));
    } else {
        lemma_enc_strs_push(ps.skip(1), x);
        assert(ps.push(x).skip(1) =~= ps.skip(1).push(x));
        assert(ps.push(x)[0] == ps[0]);
        assert(enc_strs(ps.push(x)) =~= enc_strs(ps) + enc_str(x));
    }
}

proof fn lemma_enc_deps_push(ds: Seq<DepModel>, x: DepModel)
    ensures
        enc_deps(ds.push(x)) == enc_deps(ds) + enc_dep(x),
    decreases ds.len(),
{
    if ds.len() == 0 {
        assert(ds.push(x)[0] == x);
        assert(ds.push(x).skip(1) =~= Seq::<DepModel>::empty());
        assert(enc_deps(Seq::<DepModel>::empty()) == Seq::<u8>::empty());
        assert(enc_deps(ds.push(x)) =~= enc_dep(x));
        assert(enc_deps(ds) + enc_dep(x) =~= enc_dep(x));
    } else {
        lemma_enc_deps_push(ds.skip(1), x);
        assert(ds.push(x).skip(1) =~= ds.skip(1).push(x));
        assert(ds.push(x)[0] == ds[0]);
        assert(enc_deps(ds.push(x)) =~= enc_deps(ds) + enc_dep(x));
    }
}

/// Decoding an encoded payload yields the entry back: the codec's round
/// trip, for every entry whose lengths fit their headers.
pub proof fn lemma_payload_round_trip(e: EntryModel)
    requires
        model_wf(e),
    ensures
        decode_payload(encode_payload(e)) == Some(e),
{
    lemma_auto_spec_u64_to_from_le_bytes();
    let b = encode_payload(e);
    let e_tv = enc_u64(e.trie_version);
    let e_val = enc_bytes(e.value);
    let e_nd = enc_u64(e.deps.len() as u64);
    let e_ds = enc_deps(e.deps);
    let pre0 = Seq::<u8>::empty();
    assert(b =~= pre0 + e_tv + (e_val + e_nd + e_ds));
    lemma_dec_u64(pre0, e.trie_version, e_val + e_nd + e_ds);
    let p1 = pre0 + e_tv;
    assert(b =~= p1 + e_val + (e_nd + e_ds));
    lemma_dec_bytes(p1, e.value, e_nd + e_ds);
    let p2 = p1 + e_val;
    assert(b =~= p2 + e_nd + e_ds);
    lemma_dec_u64(p2, e.deps.len() as u64, e_ds);
    let p3 = p2 + e_nd;
    assert(b =~= p3 + e_ds + Seq::<u8>::empty());
    lemma_dec_deps(p3, e.deps, Seq::empty());
    assert((e.deps.len() as u64) as nat == e.deps.len());
    assert(p3.len() + e_ds.len() == b.len());
    assert(dec_u64_at(b, 0) == Some((e.trie_version, 8 as int)));
}


// --- trusted wrappers around the outside calls ---

/// Names the block-compressed form of a byte string: a pure function of the
/// input bytes.
pub uninterp spec fn lz4_block_of(s: Seq<u8>) -> Seq<u8>;

/// Names the decoding of a size-prepended block: a pure function of the
/// input; `None` where the block does not decode.
pub uninterp spec fn lz4_block_decoded(s: Seq<u8>) -> Option<Seq<u8>>;

/// Relies on lz4_flex::block::compress_prepend_size: a pure function of the
/// input bytes. The block carries the uncompressed length in a 32-bit
/// header, so decompress_size_prepended reverses it only for inputs shorter
/// than 2^32 bytes; for longer inputs the header truncates and nothing is
/// claimed of the decoding.
#[verifier::external_body]
fn lz4_compress(b: &Vec<u8>) -> (r: Vec<u8>)
    ensures
        r@ == lz4_block_of(b@),
        b@.len() < 0x1_0000_0000 ==> lz4_block_decoded(r@) == Some(b@),
{
    lz4_flex::block::compress_prepend_size(b.as_slice())
}

/// Relies on lz4_flex::block::decompress_size_prepended: a pure function of
/// the input that errors exactly where the block does not decode.
#[verifier::external_body]
fn lz4_decompress(b: &[u8]) -> (r: Result<Vec<u8>, CacheError>)
    ensures
        match r {
            Ok(v) => lz4_block_decoded(b@) == Some(v@),
            Err(e) => lz4_block_decoded(b@) is None && e == CacheError::Corrupted,
        },
{
    match lz4_flex::block::decompress_size_prepended(b) {
        Ok(v) => Ok(v),
        Err(_) => Err(CacheError::Corrupted),
    }
}

/// Relies on String::from_utf8: accepts exactly the valid UTF-8 byte
/// strings and returns the text those bytes encode.
#[verifier::external_body]
pub(crate) fn string_from_utf8(v: Vec<u8>) -> (r: Option<String>)
    ensures
        match r {
            Some(s) => encode_utf8(s@) == v@,
            None => !valid_utf8(v@),
        },
{
    String::from_utf8(v).ok()
}

// --- executable encoders ---

fn push_u64(out: &mut Vec<u8>, x: u64)
    ensures
        final(out)@ == old(out)@ + enc_u64(x),
{
    let mut bs = u64_to_le_bytes(x);
    out.append(&mut bs);
}

fn push_bytes(out: &mut Vec<u8>, b: &Vec<u8>)
    ensures
        final(out)@ == old(out)@ + enc_bytes(b@),
        b@.len() <= u64::MAX,
{
    push_u64(out, b.len() as u64);
    let ghost base = out@;
    let mut i: usize = 0;
    while i < b.len()
        invariant
            i <= b.len(),
            out@ =~= base + b@.take(i as int),
        decreases b.len() - i,
    {
        out.push(b[i]);
        i = i + 1;
    }
    proof {
        assert(b@.take(b@.len() as int) =~= b@);
        assert(out@ =~= old(out)@ + enc_bytes(b@));
    }
}

fn push_str(out: &mut Vec<u8>, s: &String)
    ensures
        final(out)@ == old(out)@ + enc_str(s@),
        encode_utf8(s@).len() <= u64::MAX,
{
    let bytes = s.as_str().as_bytes();
    push_u64(out, bytes.len() as u64);
    let ghost base = out@;
    let mut i: usize = 0;
    while i < bytes.len()
        invariant
            i <= bytes.len(),
            bytes@ == encode_utf8(s@),
            out@ =~= base + bytes@.take(i as int),
        decreases bytes.len() - i,
    {
        out.push(bytes[i]);
        i = i + 1;
    }
    proof {
        assert(bytes@.take(bytes@.len() as int) =~= bytes@);
        assert(out@ =~= old(out)@ + enc_str(s@));
    }
}

fn push_dep(out: &mut Vec<u8>, pair: &(String, DepSnapshot))
    ensures
        final(out)@ == old(out)@ + enc_dep(dep_model_of(*pair)),
        dep_wf(dep_model_of(*pair)),
{
    let ghost d = dep_model_of(*pair);
    push_str(out, &pair.0);
    push_u64(out, pair.1.parts.len() as u64);
    let ghost base = out@;
    let mut j: usize = 0;
    while j < pair.1.parts.len()
        invariant
            j <= pair.1.parts.len(),
            out@ =~= base + enc_strs(pair.1.parts.deep_view().take(j as int)),
            forall|i: int|
                0 <= i < j ==> encode_utf8(#[trigger] pair.1.parts.deep_view()[i]).len()
                    <= u64::MAX,
        decreases pair.1.parts.len() - j,
    {
        proof {
            assert(pair.1.parts.deep_view()[j as int] == pair.1.parts@[j as int]@);
            lemma_enc_strs_push(
                pair.1.parts.deep_view().take(j as int),
                pair.1.parts.deep_view()[j as int],
            );
            assert(pair.1.parts.deep_view().take(j as int).push(
                pair.1.parts.deep_view()[j as int],
            ) =~= pair.1.parts.deep_view().take(j + 1));
        }
        push_str(out, &pair.1.parts[j]);
        j = j + 1;
    }
    proof {
        assert(pair.1.parts.deep_view().take(pair.1.parts.deep_view().len() as int)
            =~= pair.1.parts.deep_view());
    }
    push_u64(out, pair.1.path_versions.len() as u64);
    let ghost base2 = out@;
    let mut k: usize = 0;
    while k < pair.1.path_versions.len()
        invariant
            k <= pair.1.path_versions.len(),
            out@ =~= base2 + enc_u64s(pair.1.path_versions@.take(k as int)),
        decreases pair.1.path_versions.len() - k,
    {
        proof {
            lemma_enc_u64s_push(
                pair.1.path_versions@.take(k as int),
                pair.1.path_versions@[k as int],
            );
            assert(pair.1.path_versions@.take(k as int).push(pair.1.path_versions@[k as int])
                =~= pair.1.path_versions@.take(k + 1));
        }
        push_u64(out, pair.1.path_versions[k]);
        k = k + 1;
    }
    proof {
        assert(pair.1.path_versions@.take(pair.1.path_versions@.len() as int)
            =~= pair.1.path_versions@);
        assert(out@ =~= old(out)@ + enc_dep(d));
    }
}

/// Packs an entry into the uncompressed payload bytes.
fn encode_payload_exec(e: &CacheEntry) -> (r: Vec<u8>)
    ensures
        r@ == encode_payload(e@),
        model_wf(e@),
{
    let mut out: Vec<u8> = Vec::new();
    push_u64(&mut out, e.trie_version);
    push_bytes(&mut out, &e.value);
    push_u64(&mut out, e.dependencies.len() as u64);
    let ghost base = out@;
    let mut k: usize = 0;
    while k < e.dependencies.len()
        invariant
            k <= e.dependencies.len(),
            out@ =~= base + enc_deps(e@.deps.take(k as int)),
            e@.deps.len() == e.dependencies@.len(),
            forall|i: int| 0 <= i < k ==> dep_wf(#[trigger] e@.deps[i]),
        decreases e.dependencies.len() - k,
    {
        proof {
            assert(e@.deps[k as int] == dep_model_of(e.dependencies@[k as int]));
            lemma_enc_deps_push(e@.deps.take(k as int), e@.deps[k as int]);
            assert(e@.deps.take(k as int).push(e@.deps[k as int]) =~= e@.deps.take(k + 1));
        }
        push_dep(&mut out, &e.dependencies[k]);
        k = k + 1;
    }
    proof {
        assert(e@.deps.take(e@.deps.len() as int) =~= e@.deps);
        assert(out@ =~= encode_payload(e@));
    }
    out
}

// --- executable decoders ---

fn read_u64(b: &Vec<u8>, pos: usize) -> (r: Option<(u64, usize)>)
    ensures
        match r {
            Some((x, p)) => dec_u64_at(b@, pos as int) == Some((x, p as int)) && p <= b.len(),
            None => dec_u64_at(b@, pos as int) is None,
        },
{
    if pos <= b.len() && b.len() - pos >= 8 {
        let s = vstd::slice::slice_subrange(b.as_slice(), pos, pos + 8);
        let x = u64_from_le_bytes(s);
        Some((x, pos + 8))
    } else {
        None
    }
}

fn read_bytes(b: &Vec<u8>, pos: usize) -> (r: Option<(Vec<u8>, usize)>)
    ensures
        match r {
            Some((v, p)) => dec_bytes_at(b@, pos as int) == Some((v@, p as int)) && p <= b.len(),
            None => dec_bytes_at(b@, pos as int) is None,
        },
{
    match read_u64(b, pos) {
        Some((n, p)) => {
            if n <= (b.len() - p) as u64 {
                let m = n as usize;
                let s = vstd::slice::slice_subrange(b.as_slice(), p, p + m);
                Some((vstd::slice::slice_to_vec(s), p + m))
            } else {
                None
            }
        },
        None => None,
    }
}

fn read_str(b: &Vec<u8>, pos: usize) -> (r: Option<(String, usize)>)
    ensures
        match r {
            Some((s, p)) => dec_str_at(b@, pos as int) == Some((s@, p as int)) && p <= b.len(),
            None => dec_str_at(b@, pos as int) is None,
        },
{
    match read_bytes(b, pos) {
        Some((v, p)) => {
            let ghost vseq = v@;
            match string_from_utf8(v) {
                Some(s) => {
                    proof {
                        encode_utf8_valid_utf8(s@);
                        encode_utf8_decode_utf8(s@);
                    }
                    Some((s, p))
                },
                None => None,
            }
        },
        None => None,
    }
}

fn read_u64s(b: &Vec<u8>, pos: usize, count: u64) -> (r: Option<(Vec<u64>, usize)>)
    requires
        pos <= b.len(),
    ensures
        match r {
            Some((v, p)) => dec_u64s_at(b@, pos as int, count as nat) == Some((v@, p as int))
                && p <= b.len(),
            None => dec_u64s_at(b@, pos as int, count as nat) is None,
        },
{
    let mut out: Vec<u64> = Vec::new();
    let mut p: usize = pos;
    let mut c: u64 = count;
    while c > 0
        invariant
            p <= b.len(),
            c <= count,
            dec_u64s_at(b@, pos as int, count as nat) == (match dec_u64s_at(
                b@,
                p as int,
                c as nat,
            ) {
                Some((xs, p2)) => Some::<(Seq<u64>, int)>((out@ + xs, p2)),
                None => None::<(Seq<u64>, int)>,
            }),
        decreases c,
    {
        match read_u64(b, p) {
            Some((x, p2)) => {
                let ghost old_out = out@;
                out.push(x);
                proof {
                    let rest = dec_u64s_at(b@, p2 as int, (c - 1) as nat);
                    if rest is Some {
                        let (xs, pe) = rest->Some_0;
                        assert(old_out + (seq![x] + xs) =~= out@ + xs);
                    }
                }
                p = p2;
                c = c - 1;
            },
            None => {
                return None;
            },
        }
    }
    proof {
        assert(out@ + Seq::<u64>::empty() =~= out@);
    }
    Some((out, p))
}

fn read_strs(b: &Vec<u8>, pos: usize, count: u64) -> (r: Option<(Vec<String>, usize)>)
    requires
        pos <= b.len(),
    ensures
        match r {
            Some((v, p)) => dec_strs_at(b@, pos as int, count as nat) == Some(
                (v.deep_view(), p as int),
            ) && p <= b.len(),
            None => dec_strs_at(b@, pos as int, count as nat) is None,
        },
{
    let mut out: Vec<String> = Vec::new();
    let mut p: usize = pos;
    let mut c: u64 = count;
    proof {
        assert(out.deep_view() =~= Seq::<Seq<char>>::empty());
    }
    while c > 0
        invariant
            p <= b.len(),
            c <= count,
            dec_strs_at(b@, pos as int, count as nat) == (match dec_strs_at(
                b@,
                p as int,
                c as nat,
            ) {
                Some((xs, p2)) => Some::<(Seq<Seq<char>>, int)>((out.deep_view() + xs, p2)),
                None => None::<(Seq<Seq<char>>, int)>,
            }),
        decreases c,
    {
        match read_str(b, p) {
            Some((x, p2)) => {
                let ghost old_out = out.deep_view();
                let ghost xv = x@;
                out.push(x);
                proof {
                    assert(out.deep_view() =~= old_out.push(xv));
                    let rest = dec_strs_at(b@, p2 as int, (c - 1) as nat);
                    if rest is Some {
                        let (xs, pe) = rest->Some_0;
                        assert(old_out + (seq![xv] + xs) =~= out.deep_view() + xs);
                    }
                }
                p = p2;
                c = c - 1;
            },
            None => {
                return None;
            },
        }
    }
    proof {
        assert(out.deep_view() + Seq::<Seq<char>>::empty() =~= out.deep_view());
    }
    Some((out, p))
}

fn read_dep(b: &Vec<u8>, pos: usize) -> (r: Option<((String, DepSnapshot), usize)>)
    requires
        pos <= b.len(),
    ensures
        match r {
            Some((pair, p)) => dec_dep_at(b@, pos as int) == Some((dep_model_of(pair), p as int))
                && p <= b.len(),
            None => dec_dep_at(b@, pos as int) is None,
        },
{
    match read_str(b, pos) {
        Some((tag, p1)) => match read_u64(b, p1) {
            Some((np, p2)) => match read_strs(b, p2, np) {
                Some((parts, p3)) => match read_u64(b, p3) {
                    Some((nv, p4)) => match read_u64s(b, p4, nv) {
                        Some((vers, p5)) => Some(
                            ((tag, DepSnapshot { parts, path_versions: vers }), p5),
                        ),
                        None => None,
                    },
                    None => None,
                },
                None => None,
            },
            None => None,
        },
        None => None,
    }
}

fn read_deps(b: &Vec<u8>, pos: usize, count: u64) -> (r: Option<
    (Vec<(String, DepSnapshot)>, usize),
>)
    requires
        pos <= b.len(),
    ensures
        match r {
            Some((v, p)) => dec_deps_at(b@, pos as int, count as nat) == Some(
                (Seq::new(v@.len(), |i: int| dep_model_of(v@[i])), p as int),
            ) && p <= b.len(),
            None => dec_deps_at(b@, pos as int, count as nat) is None,
        },
{
    let mut out: Vec<(String, DepSnapshot)> = Vec::new();
    let mut p: usize = pos;
    let mut c: u64 = count;
    proof {
        assert(Seq::new(out@.len(), |i: int| dep_model_of(out@[i]))
            =~= Seq::<DepModel>::empty());
    }
    while c > 0
        invariant
            p <= b.len(),
            c <= count,
            dec_deps_at(b@, pos as int, count as nat) == (match dec_deps_at(
                b@,
                p as int,
                c as nat,
            ) {
                Some((xs, p2)) => Some::<(Seq<DepModel>, int)>(
                    (Seq::new(out@.len(), |i: int| dep_model_of(out@[i])) + xs, p2),
                ),
                None => None::<(Seq<DepModel>, int)>,
            }),
        decreases c,
    {
        match read_dep(b, p) {
            Some((pair, p2)) => {
                let ghost old_out = Seq::new(out@.len(), |i: int| dep_model_of(out@[i]));
                let ghost xv = dep_model_of(pair);
                out.push(pair);
                proof {
                    assert(Seq::new(out@.len(), |i: int| dep_model_of(out@[i])) =~= old_out.push(
                        xv,
                    ));
                    let rest = dec_deps_at(b@, p2 as int, (c - 1) as nat);
                    if rest is Some {
                        let (xs, pe) = rest->Some_0;
                        assert(old_out + (seq![xv] + xs) =~= old_out.push(xv) + xs);
                    }
                }
                p = p2;
                c = c - 1;
            },
            None => {
                return None;
            },
        }
    }
    proof {
        assert(Seq::new(out@.len(), |i: int| dep_model_of(out@[i])) + Seq::<DepModel>::empty()
            =~= Seq::new(out@.len(), |i: int| dep_model_of(out@[i])));
    }
    Some((out, p))
}

/// Unpacks the uncompressed payload bytes into an entry.
fn decode_payload_exec(b: &Vec<u8>) -> (r: Option<CacheEntry>)
    ensures
        match r {
            Some(e) => decode_payload(b@) == Some(e@),
            None => decode_payload(b@) is None,
        },
{
    match read_u64(b, 0) {
        Some((tv, p1)) => match read_bytes(b, p1) {
            Some((val, p2)) => match read_u64(b, p2) {
                Some((nd, p3)) => match read_deps(b, p3, nd) {
                    Some((deps, p4)) => {
                        if p4 == b.len() {
                            let e = CacheEntry {
                                value: val,
                                dependencies: deps,
                                trie_version: tv,
                            };
                            proof {
                                assert(decode_payload(b@) == Some(e@)) by {
                                    assert(e@ =~= decode_payload(b@)->Some_0);
                                }
                            }
                            Some(e)
                        } else {
                            None
                        }
                    },
                    None => None,
                },
                None => None,
            },
            None => None,
        },
        None => None,
    }
}

/// What `deserialize` accepts and yields: magic, block decode, payload
/// decode.
pub open spec fn spec_deserialize(b: Seq<u8>) -> Option<EntryModel> {
    if b.len() >= 4 && b.take(4) == magic_seq() {
        match lz4_block_decoded(b.skip(4)) {
            Some(p) => decode_payload(p),
            None => None,
        }
    } else {
        None
    }
}

/// A serialized entry deserializes back to itself: `deserialize ∘ serialize`
/// is the identity on the `(value bytes, dependencies, trie version)` triple.
/// The premises are exactly what `serialize` ensures for an encodable entry.
pub proof fn lemma_entry_round_trip(e: EntryModel, bytes: Seq<u8>)
    requires
        model_wf(e),
        bytes == magic_seq() + lz4_block_of(encode_payload(e)),
        lz4_block_decoded(lz4_block_of(encode_payload(e))) == Some(encode_payload(e)),
    ensures
        spec_deserialize(bytes) == Some(e),
{
    lemma_payload_round_trip(e);
    assert(bytes.take(4) =~= magic_seq());
    assert(bytes.skip(4) =~= lz4_block_of(encode_payload(e)));
}

impl Clone for CacheEntry {
    /// A copy with the same value bytes, dependencies and epoch.
    fn clone(&self) -> (r: Self)
        ensures
            r@ == self@,
    {
        let mut deps: Vec<(String, DepSnapshot)> = Vec::new();
        let mut i: usize = 0;
        while i < self.dependencies.len()
            invariant
                i <= self.dependencies.len(),
                deps@.len() == i,
                forall|j: int|
                    0 <= j < i ==> dep_model_of(#[trigger] deps@[j]) == dep_model_of(
                        self.dependencies@[j],
                    ),
            decreases self.dependencies.len() - i,
        {
            let pair = &self.dependencies[i];
            deps.push((pair.0.clone(), pair.1.clone()));
            i = i + 1;
        }
        let r = CacheEntry {
            value: crate::utils::clone_byte_vec(&self.value),
            dependencies: deps,
            trie_version: self.trie_version,
        };
        proof {
            assert(r@ =~= self@);
        }
        r
    }
}

impl CacheEntry {
    /// Serializes the entry: payload, block compression, magic. For an
    /// entry whose payload fits the block's 32-bit size header, the result
    /// carries everything needed to decode it back (`lemma_entry_round_trip`).
    pub fn serialize(&self) -> (r: Vec<u8>)
        ensures
            model_wf(self@),
            r@ == magic_seq() + lz4_block_of(encode_payload(self@)),
            encodable(self@) ==> lz4_block_decoded(lz4_block_of(encode_payload(self@))) == Some(
                encode_payload(self@),
            ),
    {
        let payload = encode_payload_exec(self);
        let mut compressed = lz4_compress(&payload);
        let mut out: Vec<u8> = Vec::new();
        out.push(0x5au8);
        out.push(0x4fu8);
        out.push(0x4fu8);
        out.push(0x31u8);
        out.append(&mut compressed);
        proof {
            assert(out@ =~= magic_seq() + lz4_block_of(encode_payload(self@)));
        }
        out
    }

    /// Deserializes stored bytes; a missing magic, a bad block or a bad
    /// payload is `Corrupted`.
    pub fn deserialize(data: &[u8]) -> (r: Result<CacheEntry, CacheError>)
        ensures
            match r {
                Ok(e) => spec_deserialize(data@) == Some(e@),
                Err(err) => spec_deserialize(data@) is None && err == CacheError::Corrupted,
            },
    {
        if data.len() < 4 {
            return Err(CacheError::Corrupted);
        }
        let m0 = *vstd::slice::slice_index_get(data, 0);
        let m1 = *vstd::slice::slice_index_get(data, 1);
        let m2 = *vstd::slice::slice_index_get(data, 2);
        let m3 = *vstd::slice::slice_index_get(data, 3);
        if !(m0 == 0x5au8 && m1 == 0x4fu8 && m2 == 0x4fu8 && m3 == 0x31u8) {
            proof {
                if data@.take(4) == magic_seq() {
                    assert(data@.take(4)[0] == data@[0]);
                    assert(data@.take(4)[1] == data@[1]);
                    assert(data@.take(4)[2] == data@[2]);
                    assert(data@.take(4)[3] == data@[3]);
                    assert(false);
                }
            }
            return Err(CacheError::Corrupted);
        }
        proof {
            assert(data@.take(4) =~= magic_seq());
        }
        let rest = vstd::slice::slice_subrange(data, 4, data.len());
        proof {
            assert(rest@ =~= data@.skip(4));
        }
        let payload = match lz4_decompress(rest) {
            Ok(p) => p,
            Err(e) => {
                return Err(e);
            },
        };
        match decode_payload_exec(&payload) {
            Some(e) => Ok(e),
            None => Err(CacheError::Corrupted),
        }
    }
}

} // verus!
