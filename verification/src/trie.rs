//! Hierarchical counter store: a prefix-keyed map of monotonic versions.
//!
//! Every tag prefix (split at `:`) owns a version counter and a last-touched
//! timestamp. Invalidating a tag creates the nodes on its path and bumps the
//! terminal counter; reads treat missing paths as version 0. A separate
//! global epoch counts all version bumps, enabling a fast equivalence check
//! for "nothing changed since this entry was written".

use vstd::prelude::*;
use vstd::string::StrSliceExecFns;

use crate::tags::{join_colon, joined_prefixes, lemma_join_push, lemma_join_split,
    lemma_first_colon_bounds, lemma_split_nonempty, split_colon, split_tag, part_prefixes};

verus! {

/// Version counter and last-touched second for one path.
#[derive(Clone, Copy, PartialEq, Eq, Structural, Debug)]
pub struct NodeData {
    pub version: u64,
    pub touched: u64,
}

/// Mathematical model of the trie: versions and touch times per non-root
/// path, the root's own counters, and the global epoch.
#[verifier::ext_equal]
pub ghost struct TrieModel {
    pub nodes: Map<Seq<char>, NodeData>,
    pub root_version: u64,
    pub root_touched: u64,
    pub epoch: u64,
}

/// Version of the node at `path`; the empty path is the root, missing paths
/// read as 0.
pub open spec fn version_of(m: TrieModel, path: Seq<char>) -> u64 {
    if path.len() == 0 {
        m.root_version
    } else if m.nodes.dom().contains(path) {
        m.nodes[path].version
    } else {
        0
    }
}

/// The prefixes of `tag` at `:` boundaries, the tag itself last.
pub open spec fn tag_prefixes(tag: Seq<char>) -> Seq<Seq<char>> {
    joined_prefixes(split_colon(tag))
}

/// Joined prefixes of a part list with a non-empty head are non-empty,
/// strictly growing in length, pairwise distinct, and end with the full join.
pub proof fn lemma_joined_prefixes(ps: Seq<Seq<char>>)
    requires
        ps.len() > 0,
        ps[0].len() > 0,
    ensures
        joined_prefixes(ps).len() == ps.len(),
        joined_prefixes(ps).last() == join_colon(ps),
        forall|k: int| 0 <= k < ps.len() ==> #[trigger] joined_prefixes(ps)[k].len() > 0,
        forall|j: int, k: int|
            0 <= j < k < ps.len() ==> #[trigger] joined_prefixes(ps)[j].len()
                < #[trigger] joined_prefixes(ps)[k].len(),
        forall|j: int, k: int|
            0 <= j < k < ps.len() ==> joined_prefixes(ps)[j] != joined_prefixes(ps)[k],
{
    assert(ps.take(ps.len() as int) =~= ps);
    assert(ps.take(1) =~= seq![ps[0]]);
    assert(join_colon(ps.take(1)) == ps[0]);
    assert forall|k: int| 0 <= k < ps.len() implies #[trigger] joined_prefixes(ps)[k].len()
        > 0 by {
        lemma_jp_len_mono(ps, 0, k);
    }
    assert forall|j: int, k: int| 0 <= j < k < ps.len() implies #[trigger] joined_prefixes(
        ps,
    )[j].len() < #[trigger] joined_prefixes(ps)[k].len() by {
        lemma_jp_len_mono(ps, j, k);
    }
    assert forall|j: int, k: int| 0 <= j < k < ps.len() implies joined_prefixes(ps)[j]
        != joined_prefixes(ps)[k] by {
        assert(joined_prefixes(ps)[j].len() < joined_prefixes(ps)[k].len());
    }
}

/// Joined prefix strings grow with the index.
proof fn lemma_jp_len_mono(ps: Seq<Seq<char>>, j: int, k: int)
    requires
        0 <= j <= k < ps.len(),
    ensures
        j < k ==> joined_prefixes(ps)[j].len() < joined_prefixes(ps)[k].len(),
        joined_prefixes(ps)[j].len() <= joined_prefixes(ps)[k].len(),
    decreases k - j,
{
    if j < k {
        lemma_jp_len_mono(ps, j, k - 1);
        lemma_join_push(ps.take(k), ps[k]);
        assert(ps.take(k).push(ps[k]) =~= ps.take(k + 1));
        assert(ps.take(k).len() == k);
    }
}

/// The prefixes of a non-root tag are pairwise distinct, non-empty, strictly
/// growing in length, and end with the tag itself.
pub proof fn lemma_tag_prefixes(tag: Seq<char>)
    requires
        tag.len() > 0,
        tag[0] != ':',
    ensures
        tag_prefixes(tag).len() >= 1,
        tag_prefixes(tag).last() == tag,
        forall|k: int| 0 <= k < tag_prefixes(tag).len() ==> #[trigger] tag_prefixes(tag)[k].len()
            > 0,
        forall|j: int, k: int|
            0 <= j < k < tag_prefixes(tag).len()
                ==> #[trigger] tag_prefixes(tag)[j].len() < #[trigger] tag_prefixes(tag)[k].len(),
        forall|k: int|
            0 <= k < tag_prefixes(tag).len() - 1 ==> #[trigger] tag_prefixes(tag)[k] != tag,
{
    let ps = split_colon(tag);
    lemma_split_nonempty(tag);
    lemma_join_split(tag);
    assert(ps.take(ps.len() as int) =~= ps);
    lemma_first_colon_bounds(tag);
    assert(ps[0] == tag.take(crate::tags::first_colon(tag)));
    assert(crate::tags::first_colon(tag) >= 1);
    lemma_joined_prefixes(ps);
    assert forall|k: int| 0 <= k < tag_prefixes(tag).len() - 1 implies #[trigger] tag_prefixes(
        tag,
    )[k] != tag by {
        assert(tag_prefixes(tag)[k].len() < tag_prefixes(tag)[ps.len() - 1].len());
    }
}

/// Whether an invalidation of `tag` can bump counters without overflow;
/// at saturation the trie freezes rather than wrap.
pub open spec fn can_bump(m: TrieModel, tag: Seq<char>) -> bool {
    m.epoch < u64::MAX && version_of(m, tag) < u64::MAX
}

/// The trie after `invalidate(tag)` at time `now`: every node on the path is
/// created if missing and touched; the terminal version and the epoch move
/// up by one (unless saturated).
pub open spec fn spec_invalidate(m: TrieModel, tag: Seq<char>, now: u64) -> TrieModel {
    spec_apply_bump(
        m,
        tag,
        now,
        (version_of(m, tag) + 1) as u64,
        can_bump(m, tag),
    )
}

/// Whether `set_min_version(tag, v)` raises the terminal version.
pub open spec fn can_raise(m: TrieModel, tag: Seq<char>, v: u64) -> bool {
    v > version_of(m, tag) && m.epoch < u64::MAX
}

/// The trie after merging a remote version floor: the terminal version
/// becomes the maximum of the current value and `v`; the epoch moves only on
/// a strict raise.
pub open spec fn spec_set_min(m: TrieModel, tag: Seq<char>, v: u64, now: u64) -> TrieModel {
    spec_apply_bump(m, tag, now, v, can_raise(m, tag, v))
}

/// Common shape of `invalidate` and `set_min_version`: create and touch the
/// path, set the terminal version to `new_ver` when `raise` holds, move the
/// epoch with it.
pub open spec fn spec_apply_bump(
    m: TrieModel,
    tag: Seq<char>,
    now: u64,
    new_ver: u64,
    raise: bool,
) -> TrieModel {
    TrieModel {
        nodes: Map::new(
            |p: Seq<char>| m.nodes.dom().contains(p) || tag_prefixes(tag).contains(p),
            |p: Seq<char>|
                NodeData {
                    version: if p == tag && raise {
                        new_ver
                    } else {
                        version_of(m, p)
                    },
                    touched: if tag_prefixes(tag).contains(p) {
                        now
                    } else {
                        m.nodes[p].touched
                    },
                },
        ),
        root_version: m.root_version,
        root_touched: now,
        epoch: if raise {
            (m.epoch + 1) as u64
        } else {
            m.epoch
        },
    }
}

/// The trie after a snapshot read along `prefixes`: existing nodes on the
/// path are touched, nothing else moves.
pub open spec fn spec_touch_path(m: TrieModel, prefixes: Seq<Seq<char>>, now: u64) -> TrieModel {
    TrieModel {
        nodes: Map::new(
            |p: Seq<char>| m.nodes.dom().contains(p),
            |p: Seq<char>|
                NodeData {
                    version: m.nodes[p].version,
                    touched: if prefixes.contains(p) {
                        now
                    } else {
                        m.nodes[p].touched
                    },
                },
        ),
        root_version: m.root_version,
        root_touched: now,
        epoch: m.epoch,
    }
}

/// A dependency snapshot over `parts` is valid against the trie while every
/// version on the root-to-terminal path is at most what the snapshot
/// recorded at that index.
pub open spec fn spec_path_valid(m: TrieModel, ps: Seq<Seq<char>>, snap: Seq<u64>) -> bool {
    &&& m.root_version <= snap[0]
    &&& forall|k: int|
        0 <= k < ps.len() ==> version_of(m, #[trigger] joined_prefixes(ps)[k]) <= snap[k + 1]
}

/// `p` lies on the path from the root to `q` (both non-root paths).
pub open spec fn path_prefix(p: Seq<char>, q: Seq<char>) -> bool {
    p == q || (p.len() < q.len() && q.take(p.len() as int) == p && q[p.len() as int] == ':')
}

/// `q` is a live descendant that saves `p` from pruning.
pub open spec fn prune_witness(m: TrieModel, p: Seq<char>, q: Seq<char>, cutoff: u64) -> bool {
    m.nodes.dom().contains(q) && path_prefix(p, q) && m.nodes[q].touched >= cutoff
}

/// A pruned node survives when some node at or below it was touched at or
/// after the cutoff.
pub open spec fn kept_after_prune(m: TrieModel, p: Seq<char>, cutoff: u64) -> bool {
    exists|q: Seq<char>| #[trigger] prune_witness(m, p, q, cutoff)
}

/// The trie after `prune`: subtrees whose every node was last touched before
/// the cutoff are dropped; the root never is.
pub open spec fn spec_prune(m: TrieModel, cutoff: u64) -> TrieModel {
    TrieModel {
        nodes: Map::new(
            |p: Seq<char>| m.nodes.dom().contains(p) && kept_after_prune(m, p, cutoff),
            |p: Seq<char>| m.nodes[p],
        ),
        root_version: m.root_version,
        root_touched: m.root_touched,
        epoch: m.epoch,
    }
}

/// The trie after `clear`: all children dropped, root version reset; the
/// lifetime epoch is kept.
pub open spec fn spec_clear(m: TrieModel) -> TrieModel {
    TrieModel {
        nodes: Map::empty(),
        root_version: 0,
        root_touched: m.root_touched,
        epoch: m.epoch,
    }
}

/// The concurrent prefix trie, modelled as a path-keyed version store.
pub struct PrefixTrie {
    nodes: vstd::hash_map::StringHashMap<NodeData>,
    keys: Vec<String>,
    root_version: u64,
    root_touched: u64,
    epoch: u64,
}

impl View for PrefixTrie {
    type V = TrieModel;

    closed spec fn view(&self) -> TrieModel {
        TrieModel {
            nodes: self.nodes@,
            root_version: self.root_version,
            root_touched: self.root_touched,
            epoch: self.epoch,
        }
    }
}

/// Character-wise check that `p` lies on the root path of `q`.
fn is_path_prefix_str(p: &String, q: &String) -> (r: bool)
    ensures
        r == path_prefix(p@, q@),
{
    let pl = p.as_str().unicode_len();
    let ql = q.as_str().unicode_len();
    if pl > ql {
        return false;
    }
    let mut i: usize = 0;
    while i < pl
        invariant
            i <= pl,
            pl == p@.len(),
            ql == q@.len(),
            pl <= ql,
            forall|j: int| 0 <= j < i ==> p@[j] == q@[j],
        decreases pl - i,
    {
        if p.as_str().get_char(i) != q.as_str().get_char(i) {
            proof {
                assert(p@[i as int] != q@[i as int]);
                if p@ == q@ {
                    assert(false);
                }
                if q@.take(pl as int) == p@ {
                    assert(q@.take(pl as int)[i as int] == q@[i as int]);
                    assert(false);
                }
            }
            return false;
        }
        i = i + 1;
    }
    if pl == ql {
        proof {
            assert(p@ =~= q@);
        }
        true
    } else {
        proof {
            assert(q@.take(pl as int) =~= p@);
        }
        let c = q.as_str().get_char(pl);
        c == ':'
    }
}

/// Well-formedness from its parts, in a clean proof context.
proof fn lemma_wf_from_parts(t: &PrefixTrie)
    requires
        forall|i: int, j: int|
            0 <= i < j < t.keys.len() ==> (#[trigger] t.keys@[i]@) != (#[trigger] t.keys@[j]@),
        forall|i: int|
            0 <= i < t.keys.len() ==> t.nodes@.dom().contains(#[trigger] t.keys@[i]@),
        forall|p: Seq<char>|
            #[trigger] t.nodes@.dom().contains(p) ==> exists|i: int|
                0 <= i < t.keys.len() && #[trigger] t.keys@[i]@ == p,
        forall|p: Seq<char>| #[trigger] t.nodes@.dom().contains(p) ==> p.len() > 0,
    ensures
        t.wf(),
{
}

impl PrefixTrie {
    /// The key list mirrors the map's domain, without duplicates or a root
    /// entry.
    pub closed spec fn wf(&self) -> bool {
        &&& (forall|i: int, j: int|
            0 <= i < j < self.keys.len() ==> (#[trigger] self.keys@[i]@) != (
            #[trigger] self.keys@[j]@))
        &&& (forall|i: int|
            0 <= i < self.keys.len() ==> self.nodes@.dom().contains(#[trigger] self.keys@[i]@))
        &&& (forall|p: Seq<char>|
            #[trigger] self.nodes@.dom().contains(p) ==> exists|i: int|
                0 <= i < self.keys.len() && #[trigger] self.keys@[i]@ == p)
        &&& (forall|p: Seq<char>| #[trigger] self.nodes@.dom().contains(p) ==> p.len() > 0)
    }

    /// An empty trie: no nodes, root at version 0, epoch 0.
    pub fn new() -> (t: Self)
        ensures
            t.wf(),
            t@.nodes == Map::<Seq<char>, NodeData>::empty(),
            t@.root_version == 0,
            t@.epoch == 0,
    {
        PrefixTrie {
            nodes: vstd::hash_map::StringHashMap::new(),
            keys: Vec::new(),
            root_version: 0,
            root_touched: 0,
            epoch: 0,
        }
    }

    /// The version of `tag`'s terminal node; 0 when the path was never
    /// invalidated.
    pub fn get_tag_version(&self, tag: &str) -> (v: u64)
        requires
            self.wf(),
        ensures
            v == version_of(self@, tag@),
    {
        if tag.is_empty() {
            return self.root_version;
        }
        match self.nodes.get(tag) {
            Some(nd) => nd.version,
            None => 0,
        }
    }

    /// The global epoch: the count of all version bumps this trie observed.
    pub fn get_global_version(&self) -> (e: u64)
        ensures
            e == self@.epoch,
    {
        self.epoch
    }

    /// Walks the path of `tag`, creating and touching every node, and sets
    /// the terminal version to `new_ver` when `raise` holds; the epoch moves
    /// with the raise.
    fn apply_bump(&mut self, tag: &str, now: u64, new_ver: u64, raise: bool)
        requires
            old(self).wf(),
            tag@.len() > 0,
            tag@[0] != ':',
            raise ==> old(self)@.epoch < u64::MAX,
        ensures
            final(self).wf(),
            final(self)@ == spec_apply_bump(old(self)@, tag@, now, new_ver, raise),
    {
        let ghost m0 = self@;
        proof {
            lemma_tag_prefixes(tag@);
        }
        let parts = split_tag(tag);
        let prefs = part_prefixes(&parts);
        let ghost pseq = tag_prefixes(tag@);
        proof {
            assert(prefs.deep_view() == pseq);
        }
        self.root_touched = now;
        proof {
            assert(self.wf());
            assert forall|i: int, j: int| 0 <= i < j < pseq.len() implies pseq[i] != pseq[j] by {
                assert(pseq[i].len() < pseq[j].len());
            }
            assert(pseq.take(0).contains(pseq[0]) == false);
        }
        let n = prefs.len();
        let mut k: usize = 0;
        while k < n
            invariant
                self.wf(),
                n == prefs.len(),
                k <= n,
                prefs.deep_view() == pseq,
                pseq == tag_prefixes(tag@),
                tag@.len() > 0,
                tag@[0] != ':',
                pseq.len() == n,
                pseq.last() == tag@,
                forall|i: int| 0 <= i < n ==> #[trigger] pseq[i].len() > 0,
                forall|i: int, j: int| 0 <= i < j < n ==> pseq[i] != pseq[j],
                forall|i: int| 0 <= i < n - 1 ==> #[trigger] pseq[i] != tag@,
                self@.root_version == m0.root_version,
                self@.root_touched == now,
                self@.epoch == m0.epoch,
                forall|p: Seq<char>|
                    #[trigger] self@.nodes.dom().contains(p) <==> (m0.nodes.dom().contains(p)
                        || pseq.take(k as int).contains(p)),
                forall|i: int|
                    0 <= i < k ==> self@.nodes[#[trigger] pseq[i]] == (NodeData {
                        version: if pseq[i] == tag@ && raise {
                            new_ver
                        } else {
                            version_of(m0, pseq[i])
                        },
                        touched: now,
                    }),
                forall|p: Seq<char>|
                    m0.nodes.dom().contains(p) && !pseq.take(k as int).contains(p)
                        ==> self@.nodes[p] == m0.nodes[p],
            decreases n - k,
        {
            let is_terminal = k == n - 1;
            proof {
                assert(prefs.deep_view()[k as int] == prefs@[k as int]@);
            }
            let existing = match self.nodes.get(prefs[k].as_str()) {
                Some(nd) => Some(*nd),
                None => None,
            };
            let old_ver: u64 = match existing {
                Some(nd) => nd.version,
                None => 0,
            };
            proof {
                let key = pseq[k as int];
                assert(key.len() > 0);
                if pseq.take(k as int).contains(key) {
                    let i = choose|i: int|
                        0 <= i < k && (#[trigger] pseq.take(k as int)[i]) == key;
                    assert(pseq[i] == key);
                    assert(false);
                }
                if m0.nodes.dom().contains(key) {
                    assert(self@.nodes.dom().contains(key));
                    assert(self@.nodes[key] == m0.nodes[key]);
                    assert(old_ver == m0.nodes[key].version);
                } else {
                    assert(!self@.nodes.dom().contains(key));
                    assert(old_ver == 0);
                }
                assert(old_ver == version_of(m0, key));
            }
            let ghost old_keys = self.keys@;
            if existing.is_none() {
                self.keys.push(prefs[k].clone());
            }
            let ver = if is_terminal && raise {
                new_ver
            } else {
                old_ver
            };
            let ghost before = self@.nodes;
            self.nodes.insert(prefs[k].clone(), NodeData { version: ver, touched: now });
            proof {
                assert(pseq.take(k + 1)[k as int] == pseq[k as int]);
                assert(pseq.take(k + 1).contains(pseq[k as int]));
                assert forall|p: Seq<char>| #[trigger] self@.nodes.dom().contains(p) <==> (
                    m0.nodes.dom().contains(p) || pseq.take(k + 1).contains(p)) by {
                    if self@.nodes.dom().contains(p) && p != pseq[k as int] {
                        assert(before.dom().contains(p));
                        if pseq.take(k as int).contains(p) {
                            let i = choose|i: int| 0 <= i < k && (#[trigger] pseq.take(k as int)[i]) == p;
                            assert(pseq.take(k + 1)[i] == p);
                        }
                    }
                    if m0.nodes.dom().contains(p) || pseq.take(k + 1).contains(p) {
                        if pseq.take(k + 1).contains(p) && p != pseq[k as int] {
                            let i = choose|i: int| 0 <= i < k + 1 && (#[trigger] pseq.take(k + 1)[i]) == p;
                            assert(pseq.take(k as int)[i] == p);
                        }
                    }
                }
                assert forall|i: int| 0 <= i < k + 1 implies self@.nodes[#[trigger] pseq[i]]
                    == NodeData {
                    version: if pseq[i] == tag@ && raise {
                        new_ver
                    } else {
                        version_of(m0, pseq[i])
                    },
                    touched: now,
                } by {
                    assert(pseq.take(k + 1)[i] == pseq[i]);
                    assert(pseq.take(k + 1).contains(pseq[i]));
                    assert(self@.nodes.dom().contains(pseq[i]));
                    if i == k {
                        if is_terminal {
                            assert(pseq[i] == tag@);
                        } else {
                            assert(pseq[i] != tag@);
                        }
                    } else {
                        assert(pseq[i] != pseq[k as int]);
                        assert(self@.nodes[pseq[i]] == before[pseq[i]]);
                    }
                }
                assert forall|p: Seq<char>|
                    m0.nodes.dom().contains(p) && !pseq.take(k + 1).contains(p)
                        implies self@.nodes[p] == m0.nodes[p] by {
                    assert(p != pseq[k as int]);
                    if pseq.take(k as int).contains(p) {
                        let i = choose|i: int| 0 <= i < k && (#[trigger] pseq.take(k as int)[i]) == p;
                        assert(pseq.take(k + 1)[i] == p);
                    }
                }
                // the key list still mirrors the map's domain
                let key = pseq[k as int];
                if existing is None {
                    assert(!before.dom().contains(key));
                    assert(self.keys@ == old_keys.push(prefs@[k as int]));
                    assert(self.keys@[self.keys.len() - 1]@ == key);
                    assert forall|i: int, j: int| 0 <= i < j < self.keys.len()
                        implies self.keys@[i]@ != self.keys@[j]@ by {
                        if j == self.keys.len() - 1 {
                            assert(before.dom().contains(old_keys[i]@));
                        }
                    }
                } else {
                    assert(before.dom().contains(key));
                    assert(self.keys@ == old_keys);
                }
                assert forall|p: Seq<char>| self@.nodes.dom().contains(p) implies exists|i: int|
                    0 <= i < self.keys.len() && #[trigger] self.keys@[i]@ == p by {
                    if p != key {
                        assert(before.dom().contains(p));
                        let i = choose|i: int|
                            0 <= i < old_keys.len() && (#[trigger] old_keys[i]@) == p;
                        assert(self.keys@[i]@ == p);
                    } else {
                        if !before.dom().contains(p) {
                            assert(self.keys@[self.keys.len() - 1]@ == p);
                        } else {
                            let i = choose|i: int|
                                0 <= i < old_keys.len() && (#[trigger] old_keys[i]@) == p;
                            assert(self.keys@[i]@ == p);
                        }
                    }
                }
                assert forall|i: int| 0 <= i < self.keys.len()
                    implies self@.nodes.dom().contains(#[trigger] self.keys@[i]@) by {
                    if i < old_keys.len() {
                        assert(before.dom().contains(old_keys[i]@));
                    }
                }
            }
            k = k + 1;
        }
        if raise {
            self.epoch = self.epoch + 1;
        }
        proof {
            assert(self.wf());
            let target = spec_apply_bump(m0, tag@, now, new_ver, raise);
            assert(pseq.take(n as int) =~= pseq);
            assert forall|p: Seq<char>| self@.nodes.dom().contains(p)
                <==> target.nodes.dom().contains(p) by {}
            assert forall|p: Seq<char>| #[trigger] target.nodes.dom().contains(p)
                implies self@.nodes[p] == target.nodes[p] by {
                if pseq.contains(p) {
                    let i = choose|i: int| 0 <= i < n && (#[trigger] pseq[i]) == p;
                    if p == tag@ {
                        assert(version_of(m0, pseq[i]) == version_of(m0, tag@));
                    }
                } else {
                    assert(m0.nodes.dom().contains(p));
                    assert(p != tag@) by {
                        assert(pseq.last() == tag@);
                        assert(pseq.contains(pseq.last()));
                    }
                    assert(p.len() > 0);
                    assert(version_of(m0, p) == m0.nodes[p].version);
                }
            }
            assert(self@.nodes =~= target.nodes);
            assert(self@ =~= target);
        }
    }

    /// Bumps the terminal version of `tag` by one, creating missing nodes on
    /// the way, touching the whole path, and moving the global epoch with it;
    /// returns the version after the call. At a saturated counter or epoch
    /// the trie freezes instead of wrapping.
    pub fn invalidate(&mut self, tag: &str, now: u64) -> (ver: u64)
        requires
            old(self).wf(),
            tag@.len() > 0,
            tag@[0] != ':',
        ensures
            final(self).wf(),
            final(self)@ == spec_invalidate(old(self)@, tag@, now),
            ver == version_of(final(self)@, tag@),
    {
        proof {
            lemma_tag_prefixes(tag@);
        }
        let cur = self.get_tag_version(tag);
        let bump = self.epoch < u64::MAX && cur < u64::MAX;
        let new_ver = if bump {
            cur + 1
        } else {
            cur
        };
        self.apply_bump(tag, now, new_ver, bump);
        proof {
            let target = spec_invalidate(old(self)@, tag@, now);
            assert(self@.nodes =~= target.nodes);
            assert(self@ =~= target);
            assert(tag_prefixes(tag@).contains(tag@)) by {
                assert(tag_prefixes(tag@).last() == tag@);
            }
            assert(self@.nodes.dom().contains(tag@));
        }
        new_ver
    }

    /// Merges a remote version floor: the terminal version of `tag` becomes
    /// `max(current, v)`; the epoch moves only on a strict raise. Applying
    /// the same floor again, or a lower one, changes nothing.
    pub fn set_min_version(&mut self, tag: &str, v: u64, now: u64)
        requires
            old(self).wf(),
            tag@.len() > 0,
            tag@[0] != ':',
        ensures
            final(self).wf(),
            final(self)@ == spec_set_min(old(self)@, tag@, v, now),
    {
        proof {
            lemma_tag_prefixes(tag@);
        }
        let cur = self.get_tag_version(tag);
        let raise = v > cur && self.epoch < u64::MAX;
        self.apply_bump(tag, now, v, raise);
    }

    /// Reads the versions along a path: the root's version first, then the
    /// version after each consumed part; missing nodes read as 0. Existing
    /// nodes on the path are touched, versions do not move.
    pub fn get_path_versions(&mut self, parts: &Vec<String>, now: u64) -> (out: Vec<u64>)
        requires
            old(self).wf(),
            parts.len() > 0 ==> parts.deep_view()[0].len() > 0,
        ensures
            final(self).wf(),
            final(self)@ == spec_touch_path(
                old(self)@,
                joined_prefixes(parts.deep_view()),
                now,
            ),
            out@.len() == parts.len() + 1,
            out@[0] == old(self)@.root_version,
            forall|k: int|
                0 <= k < parts.len() ==> out@[k + 1] == version_of(
                    old(self)@,
                    joined_prefixes(parts.deep_view())[k],
                ),
    {
        let ghost m0 = self@;
        let ghost pseq = joined_prefixes(parts.deep_view());
        proof {
            if parts.len() > 0 {
                lemma_joined_prefixes(parts.deep_view());
            }
            assert(parts.deep_view().len() == parts@.len());
        }
        let prefs = part_prefixes(parts);
        let mut out: Vec<u64> = Vec::new();
        out.push(self.root_version);
        self.root_touched = now;
        proof {
            assert(self.wf());
            assert(prefs.deep_view().len() == prefs@.len());
        }
        let n = prefs.len();
        let mut k: usize = 0;
        while k < n
            invariant
                self.wf(),
                n == prefs.len(),
                k <= n,
                prefs.deep_view() == pseq,
                pseq.len() == n,
                forall|i: int| 0 <= i < n ==> #[trigger] pseq[i].len() > 0,
                self@.root_version == m0.root_version,
                self@.root_touched == now,
                self@.epoch == m0.epoch,
                self@.nodes.dom() == m0.nodes.dom(),
                forall|p: Seq<char>|
                    #[trigger] m0.nodes.dom().contains(p) ==> self@.nodes[p].version
                        == m0.nodes[p].version,
                forall|p: Seq<char>|
                    m0.nodes.dom().contains(p) ==> self@.nodes[p].touched == (
                    if pseq.take(k as int).contains(p) {
                        now
                    } else {
                        m0.nodes[p].touched
                    }),
                out@.len() == k + 1,
                out@[0] == m0.root_version,
                forall|i: int| 0 <= i < k ==> out@[i + 1] == version_of(m0, #[trigger] pseq[i]),
            decreases n - k,
        {
            let ghost entry_t = *self;
            proof {
                assert(prefs.deep_view()[k as int] == prefs@[k as int]@);
                assert(entry_t.wf());
            }
            let ghost before = self@.nodes;
            let existing = match self.nodes.get(prefs[k].as_str()) {
                Some(nd) => Some(*nd),
                None => None,
            };
            match existing {
                Some(nd) => {
                    out.push(nd.version);
                    self.nodes.insert(
                        prefs[k].clone(),
                        NodeData { version: nd.version, touched: now },
                    );
                    proof {
                        assert(self@.nodes.dom() =~= before.dom());
                    }
                },
                None => {
                    out.push(0);
                },
            }
            proof {
                let key = pseq[k as int];
                assert(pseq.take(k + 1)[k as int] == key);
                assert(pseq.take(k + 1).contains(key));
                assert forall|p: Seq<char>| m0.nodes.dom().contains(p)
                    implies self@.nodes[p].touched == (
                    if pseq.take(k + 1).contains(p) {
                        now
                    } else {
                        m0.nodes[p].touched
                    }) by {
                    if p != key {
                        if pseq.take(k as int).contains(p) {
                            let i = choose|i: int|
                                0 <= i < k && (#[trigger] pseq.take(k as int)[i]) == p;
                            assert(pseq.take(k + 1)[i] == p);
                        }
                        if pseq.take(k + 1).contains(p) {
                            let i = choose|i: int|
                                0 <= i < k + 1 && (#[trigger] pseq.take(k + 1)[i]) == p;
                            if i < k {
                                assert(pseq.take(k as int)[i] == p);
                            }
                        }
                    }
                }
                assert(out@[k + 1] == version_of(m0, key));
                assert(self@.nodes.dom() == m0.nodes.dom());
                assert(self.keys == entry_t.keys);
                assert(self@.nodes.dom() == entry_t.nodes@.dom());
                assert forall|p: Seq<char>| #[trigger] self.nodes@.dom().contains(p)
                    implies exists|i2: int|
                    0 <= i2 < self.keys.len() && #[trigger] self.keys@[i2]@ == p by {
                    assert(entry_t.nodes@.dom().contains(p));
                    let i2 = choose|i2: int|
                        0 <= i2 < entry_t.keys.len() && (#[trigger] entry_t.keys@[i2]@) == p;
                    assert(self.keys@[i2]@ == p);
                }
                lemma_wf_from_parts(self);
            }
            k = k + 1;
        }
        proof {
            let target = spec_touch_path(m0, pseq, now);
            assert(pseq.take(n as int) =~= pseq);
            assert forall|p: Seq<char>| #[trigger] target.nodes.dom().contains(p)
                implies self@.nodes[p] == target.nodes[p] by {}
            assert(self@.nodes =~= target.nodes);
            assert(self@ =~= target);
        }
        out
    }

    /// Compares the current versions along a path with a snapshot: valid
    /// while no version moved past what the snapshot recorded. An absent
    /// subtree cannot have been invalidated after the snapshot, so missing
    /// nodes (version 0) never invalidate it.
    pub fn is_valid_path(&self, parts: &Vec<String>, snapshot_versions: &Vec<u64>) -> (r: bool)
        requires
            self.wf(),
            snapshot_versions.len() == parts.len() + 1,
            parts.len() > 0 ==> parts.deep_view()[0].len() > 0,
        ensures
            r == spec_path_valid(self@, parts.deep_view(), snapshot_versions@),
    {
        if self.root_version > snapshot_versions[0] {
            return false;
        }
        proof {
            if parts.len() > 0 {
                lemma_joined_prefixes(parts.deep_view());
            }
            assert(parts.deep_view().len() == parts@.len());
        }
        let ghost pseq = joined_prefixes(parts.deep_view());
        let prefs = part_prefixes(parts);
        proof {
            assert(prefs.deep_view().len() == prefs@.len());
        }
        let n = prefs.len();
        let mut k: usize = 0;
        while k < n
            invariant
                self.wf(),
                n == prefs.len(),
                k <= n,
                n == parts.len(),
                prefs.deep_view() == pseq,
                pseq == joined_prefixes(parts.deep_view()),
                snapshot_versions.len() == n + 1,
                self@.root_version <= snapshot_versions@[0],
                forall|i: int| 0 <= i < n ==> #[trigger] pseq[i].len() > 0,
                forall|i: int|
                    0 <= i < k ==> version_of(self@, #[trigger] pseq[i])
                        <= snapshot_versions@[i + 1],
            decreases n - k,
        {
            proof {
                assert(prefs.deep_view()[k as int] == prefs@[k as int]@);
            }
            let ver = match self.nodes.get(prefs[k].as_str()) {
                Some(nd) => nd.version,
                None => 0,
            };
            proof {
                assert(ver == version_of(self@, pseq[k as int]));
            }
            if ver > snapshot_versions[k + 1] {
                return false;
            }
            k = k + 1;
        }
        true
    }

    /// Drops every subtree none of whose nodes was touched in the last
    /// `max_age_secs` seconds; the root always stays. Surviving nodes keep
    /// their versions and timestamps.
    pub fn prune(&mut self, max_age_secs: u64, now: u64)
        requires
            old(self).wf(),
        ensures
            final(self).wf(),
            final(self)@ == spec_prune(
                old(self)@,
                if now >= max_age_secs {
                    (now - max_age_secs) as u64
                } else {
                    0
                },
            ),
    {
        let cutoff: u64 = if now >= max_age_secs {
            now - max_age_secs
        } else {
            0
        };
        let ghost m0 = self@;
        let mut new_nodes = vstd::hash_map::StringHashMap::<NodeData>::new();
        let mut new_keys: Vec<String> = Vec::new();
        let n = self.keys.len();
        let mut i: usize = 0;
        while i < n
            invariant
                self.wf(),
                self@ == m0,
                n == self.keys.len(),
                i <= n,
                forall|a: int, b: int|
                    0 <= a < b < new_keys.len() ==> (#[trigger] new_keys@[a]@) != (
                    #[trigger] new_keys@[b]@),
                forall|a: int|
                    0 <= a < new_keys.len() ==> new_nodes@.dom().contains(
                        #[trigger] new_keys@[a]@,
                    ),
                forall|p: Seq<char>|
                    #[trigger] new_nodes@.dom().contains(p) ==> exists|a: int|
                        0 <= a < new_keys.len() && #[trigger] new_keys@[a]@ == p,
                forall|p: Seq<char>|
                    #[trigger] new_nodes@.dom().contains(p) <==> ((exists|j: int|
                        0 <= j < i && (#[trigger] self.keys@[j]@) == p) && kept_after_prune(
                        m0,
                        p,
                        cutoff,
                    )),
                forall|p: Seq<char>|
                    #[trigger] new_nodes@.dom().contains(p) ==> new_nodes@[p] == m0.nodes[p],
            decreases n - i,
        {
            let mut kept = false;
            let mut j: usize = 0;
            while j < n && !kept
                invariant
                    self.wf(),
                    self@ == m0,
                    n == self.keys.len(),
                    i < n,
                    j <= n,
                    kept ==> kept_after_prune(m0, self.keys@[i as int]@, cutoff),
                    !kept ==> forall|jj: int|
                        0 <= jj < j ==> !prune_witness(
                            m0,
                            self.keys@[i as int]@,
                            #[trigger] self.keys@[jj]@,
                            cutoff,
                        ),
                decreases n - j,
            {
                if is_path_prefix_str(&self.keys[i], &self.keys[j]) {
                    let touched = match self.nodes.get(self.keys[j].as_str()) {
                        Some(nd) => nd.touched,
                        None => 0,
                    };
                    proof {
                        assert(self@.nodes.dom().contains(self.keys@[j as int]@));
                    }
                    if touched >= cutoff {
                        kept = true;
                        proof {
                            assert(prune_witness(
                                m0,
                                self.keys@[i as int]@,
                                self.keys@[j as int]@,
                                cutoff,
                            ));
                        }
                    }
                }
                j = j + 1;
            }
            let ghost pkey = self.keys@[i as int]@;
            if kept {
                let nd = match self.nodes.get(self.keys[i].as_str()) {
                    Some(nd) => *nd,
                    None => {
                        proof {
                            assert(self@.nodes.dom().contains(pkey));
                            assert(false);
                        }
                        NodeData { version: 0, touched: 0 }
                    },
                };
                let ghost prev_keys = new_keys@;
                let ghost prev_nodes = new_nodes@;
                new_keys.push(self.keys[i].clone());
                new_nodes.insert(self.keys[i].clone(), nd);
                proof {
                    assert(new_keys@ == prev_keys.push(self.keys@[i as int]));
                    assert(new_keys@[new_keys.len() - 1]@ == pkey);
                    assert forall|a: int, b: int| 0 <= a < b < new_keys.len() implies (
                    #[trigger] new_keys@[a]@) != (#[trigger] new_keys@[b]@) by {
                        if b == new_keys.len() - 1 {
                            assert(prev_nodes.dom().contains(prev_keys[a]@));
                            if prev_keys[a]@ == pkey {
                                let j2 = choose|j2: int|
                                    0 <= j2 < i && (#[trigger] self.keys@[j2]@) == pkey;
                                assert(self.keys@[j2]@ == self.keys@[i as int]@);
                                assert(false);
                            }
                        }
                    }
                    assert forall|p: Seq<char>| #[trigger] new_nodes@.dom().contains(p)
                        implies exists|a: int|
                        0 <= a < new_keys.len() && #[trigger] new_keys@[a]@ == p by {
                        if p == pkey {
                            assert(new_keys@[new_keys.len() - 1]@ == p);
                        } else {
                            assert(prev_nodes.dom().contains(p));
                            let a = choose|a: int|
                                0 <= a < prev_keys.len() && (#[trigger] prev_keys[a]@) == p;
                            assert(new_keys@[a]@ == p);
                        }
                    }
                    assert forall|p: Seq<char>| #[trigger] new_nodes@.dom().contains(p) <==> ((
                    exists|j2: int| 0 <= j2 < i + 1 && (#[trigger] self.keys@[j2]@) == p)
                        && kept_after_prune(m0, p, cutoff)) by {
                        if p == pkey {
                            assert(self.keys@[i as int]@ == p);
                        }
                    }
                }
            } else {
                proof {
                    assert forall|q: Seq<char>| !prune_witness(m0, pkey, q, cutoff) by {
                        if m0.nodes.dom().contains(q) {
                            let jj = choose|jj: int|
                                0 <= jj < self.keys.len() && (#[trigger] self.keys@[jj]@) == q;
                            assert(!prune_witness(m0, pkey, self.keys@[jj]@, cutoff));
                        }
                    }
                    assert(!kept_after_prune(m0, pkey, cutoff));
                    assert forall|p: Seq<char>| #[trigger] new_nodes@.dom().contains(p) <==> ((
                    exists|j2: int| 0 <= j2 < i + 1 && (#[trigger] self.keys@[j2]@) == p)
                        && kept_after_prune(m0, p, cutoff)) by {
                        if !new_nodes@.dom().contains(p) && kept_after_prune(m0, p, cutoff) {
                            if exists|j2: int| 0 <= j2 < i + 1 && (#[trigger] self.keys@[j2]@)
                                == p {
                                let j2 = choose|j2: int|
                                    0 <= j2 < i + 1 && (#[trigger] self.keys@[j2]@) == p;
                                assert(j2 == i ==> p == pkey);
                            }
                        }
                    }
                }
            }
            i = i + 1;
        }
        let ghost old_keys = self.keys@;
        self.nodes = new_nodes;
        self.keys = new_keys;
        proof {
            let target = spec_prune(m0, cutoff);
            assert forall|p: Seq<char>| self@.nodes.dom().contains(p)
                <==> target.nodes.dom().contains(p) by {
                if m0.nodes.dom().contains(p) && kept_after_prune(m0, p, cutoff) {
                    let j = choose|j: int|
                        0 <= j < old_keys.len() && (#[trigger] old_keys[j]@) == p;
                    assert(self@.nodes.dom().contains(p));
                }
            }
            assert forall|p: Seq<char>| #[trigger] target.nodes.dom().contains(p)
                implies self@.nodes[p] == target.nodes[p] by {}
            assert(self@.nodes =~= target.nodes);
            assert(self@ =~= target);
            lemma_wf_from_parts(self);
        }
    }

    /// Drops all children of the root and resets the root version; the
    /// lifetime epoch is kept.
    pub fn clear(&mut self)
        requires
            old(self).wf(),
        ensures
            final(self).wf(),
            final(self)@ == spec_clear(old(self)@),
    {
        self.nodes.clear();
        self.keys.clear();
        self.root_version = 0;
        proof {
            assert(self@.nodes =~= spec_clear(old(self)@).nodes);
        }
    }
}

/// One dependency's snapshot: the tag's parts and the versions recorded
/// along the root-to-terminal path at write time. Index 0 is the root.
pub struct DepSnapshot {
    pub parts: Vec<String>,
    pub path_versions: Vec<u64>,
}

impl Clone for DepSnapshot {
    fn clone(&self) -> (r: Self)
        ensures
            r.parts@ == self.parts@,
            r.path_versions@ == self.path_versions@,
    {
        DepSnapshot {
            parts: crate::utils::clone_string_vec(&self.parts),
            path_versions: crate::utils::clone_u64_vec(&self.path_versions),
        }
    }
}

/// Shape of a usable snapshot: one version per path level plus the root.
pub open spec fn snapshot_wf(d: DepSnapshot) -> bool {
    &&& d.path_versions.len() == d.parts.len() + 1
    &&& d.parts.len() > 0 ==> d.parts.deep_view()[0].len() > 0
}

/// `d` records exactly the versions `m` holds along the path of `tag`.
pub open spec fn snapshot_matches(m: TrieModel, tag: Seq<char>, d: DepSnapshot) -> bool {
    &&& d.parts.deep_view() == split_colon(tag)
    &&& d.path_versions.len() == split_colon(tag).len() + 1
    &&& d.path_versions@[0] == m.root_version
    &&& forall|k: int|
        0 <= k < split_colon(tag).len() ==> d.path_versions@[k + 1] == version_of(
            m,
            #[trigger] tag_prefixes(tag)[k],
        )
}

/// All snapshots in a dependency list are valid against `m`.
pub open spec fn deps_valid(m: TrieModel, deps: Seq<(String, DepSnapshot)>) -> bool {
    forall|k: int|
        0 <= k < deps.len() ==> spec_path_valid(
            m,
            (#[trigger] deps[k]).1.parts.deep_view(),
            deps[k].1.path_versions@,
        )
}

/// Checks every dependency snapshot against the current trie; any failure
/// means some prefix of that tag was invalidated after the snapshot.
pub fn validate_dependencies(trie: &PrefixTrie, deps: &Vec<(String, DepSnapshot)>) -> (r: bool)
    requires
        trie.wf(),
        forall|k: int| 0 <= k < deps.len() ==> snapshot_wf((#[trigger] deps@[k]).1),
    ensures
        r == deps_valid(trie@, deps@),
{
    let mut k: usize = 0;
    while k < deps.len()
        invariant
            trie.wf(),
            k <= deps.len(),
            forall|i: int| 0 <= i < deps.len() ==> snapshot_wf((#[trigger] deps@[i]).1),
            forall|i: int|
                0 <= i < k ==> spec_path_valid(
                    trie@,
                    (#[trigger] deps@[i]).1.parts.deep_view(),
                    deps@[i].1.path_versions@,
                ),
        decreases deps.len() - k,
    {
        let snap = &deps[k].1;
        if !trie.is_valid_path(&snap.parts, &snap.path_versions) {
            return false;
        }
        k = k + 1;
    }
    true
}

/// The versions and the epoch agree between two trie states; only touch
/// times may differ.
pub open spec fn trie_versions_unchanged(m0: TrieModel, m1: TrieModel) -> bool {
    &&& m1.nodes.dom() == m0.nodes.dom()
    &&& forall|p: Seq<char>|
        #[trigger] m0.nodes.dom().contains(p) ==> m1.nodes[p].version == m0.nodes[p].version
    &&& m1.root_version == m0.root_version
    &&& m1.epoch == m0.epoch
}

pub proof fn lemma_versions_unchanged_reads(m0: TrieModel, m1: TrieModel)
    requires
        trie_versions_unchanged(m0, m1),
    ensures
        forall|p: Seq<char>| version_of(m1, p) == version_of(m0, p),
{
}

/// Takes a snapshot of every dependency's path versions at the current trie
/// state; the traversal touches existing nodes but moves no version.
pub fn build_dependency_snapshots(
    trie: &mut PrefixTrie,
    dependencies: Vec<String>,
    now: u64,
) -> (out: Vec<(String, DepSnapshot)>)
    requires
        old(trie).wf(),
        forall|k: int|
            0 <= k < dependencies.len() ==> (#[trigger] dependencies@[k]@).len() > 0
                && dependencies@[k]@[0] != ':',
    ensures
        final(trie).wf(),
        trie_versions_unchanged(old(trie)@, final(trie)@),
        out@.len() == dependencies@.len(),
        forall|k: int|
            0 <= k < out@.len() ==> (#[trigger] out@[k]).0 == dependencies@[k] && snapshot_wf(
                out@[k].1,
            ) && snapshot_matches(old(trie)@, dependencies@[k]@, out@[k].1),
{
    let ghost m0 = trie@;
    let mut out: Vec<(String, DepSnapshot)> = Vec::new();
    let mut k: usize = 0;
    while k < dependencies.len()
        invariant
            trie.wf(),
            k <= dependencies.len(),
            forall|i: int|
                0 <= i < dependencies.len() ==> (#[trigger] dependencies@[i]@).len() > 0
                    && dependencies@[i]@[0] != ':',
            trie_versions_unchanged(m0, trie@),
            out@.len() == k,
            forall|i: int|
                0 <= i < k ==> (#[trigger] out@[i]).0 == dependencies@[i] && snapshot_wf(out@[i].1)
                    && snapshot_matches(m0, dependencies@[i]@, out@[i].1),
        decreases dependencies.len() - k,
    {
        let ghost mk = trie@;
        let tag = &dependencies[k];
        proof {
            crate::tags::lemma_first_colon_bounds(tag@);
            crate::tags::lemma_split_nonempty(tag@);
            assert(split_colon(tag@)[0] == tag@.take(crate::tags::first_colon(tag@)));
            assert(crate::tags::first_colon(tag@) >= 1);
        }
        let parts = split_tag(tag.as_str());
        proof {
            assert(parts.deep_view().len() == parts@.len());
            assert(parts.deep_view()[0].len() > 0);
        }
        let path_versions = trie.get_path_versions(&parts, now);
        proof {
            // a touch keeps every version and the whole domain
            let mt = trie@;
            assert(mt.nodes.dom() =~= mk.nodes.dom());
            assert(trie_versions_unchanged(m0, mt));
            lemma_versions_unchanged_reads(m0, mk);
        }
        let snap = DepSnapshot { parts, path_versions };
        out.push((tag.clone(), snap));
        proof {
            assert((out@[k as int]).0 == dependencies@[k as int]);
            assert(snapshot_matches(m0, dependencies@[k as int]@, out@[k as int].1));
        }
        k = k + 1;
    }
    out
}

/// One observable step of the trie: an invalidation, a remote floor merge, a
/// snapshot read, a prune, or a clear.
pub open spec fn trie_step(m: TrieModel, m2: TrieModel) -> bool {
    ||| exists|tag: Seq<char>, now: u64|
        tag.len() > 0 && tag[0] != ':' && m2 == #[trigger] spec_invalidate(m, tag, now)
    ||| exists|tag: Seq<char>, v: u64, now: u64|
        tag.len() > 0 && tag[0] != ':' && m2 == #[trigger] spec_set_min(m, tag, v, now)
    ||| exists|ps: Seq<Seq<char>>, now: u64| m2 == #[trigger] spec_touch_path(m, ps, now)
    ||| exists|cutoff: u64| m2 == #[trigger] spec_prune(m, cutoff)
    ||| m2 == spec_clear(m)
}

/// Bumping a live counter raises exactly that tag's version by one and the
/// epoch with it: over a run of invalidations of one tag, its version
/// strictly increases by one per call.
pub proof fn lemma_invalidate_bumps(m: TrieModel, tag: Seq<char>, now: u64)
    requires
        tag.len() > 0,
        tag[0] != ':',
        m.epoch < u64::MAX,
        version_of(m, tag) < u64::MAX,
    ensures
        version_of(spec_invalidate(m, tag, now), tag) == version_of(m, tag) + 1,
        spec_invalidate(m, tag, now).epoch == m.epoch + 1,
        forall|p: Seq<char>|
            p != tag ==> version_of(spec_invalidate(m, tag, now), p) == version_of(m, p),
{
    lemma_tag_prefixes(tag);
    assert(tag_prefixes(tag).contains(tag)) by {
        assert(tag_prefixes(tag).last() == tag);
    }
    let m2 = spec_invalidate(m, tag, now);
    assert(m2.nodes.dom().contains(tag));
    assert forall|p: Seq<char>| p != tag implies version_of(m2, p) == version_of(m, p) by {
        if p.len() > 0 && m2.nodes.dom().contains(p) {
            assert(m2.nodes[p].version == version_of(m, p));
        }
    }
}

/// Convergence over the bus: merging a floor at or above the local version
/// leaves the reader at exactly that floor, so two processes that exchanged
/// the bump agree on the tag's version.
pub proof fn lemma_set_min_converges(m: TrieModel, tag: Seq<char>, v: u64, now: u64)
    requires
        tag.len() > 0,
        tag[0] != ':',
        version_of(m, tag) <= v,
        m.epoch < u64::MAX,
    ensures
        version_of(spec_set_min(m, tag, v, now), tag) == v,
{
    lemma_tag_prefixes(tag);
    assert(tag_prefixes(tag).contains(tag)) by {
        assert(tag_prefixes(tag).last() == tag);
    }
    assert(spec_set_min(m, tag, v, now).nodes.dom().contains(tag));
}

/// Idempotence and monotonicity of the floor merge: repeating a merge, or
/// merging a lower floor afterwards, moves no version and not the epoch.
pub proof fn lemma_set_min_idempotent(
    m: TrieModel,
    tag: Seq<char>,
    v: u64,
    v2: u64,
    now1: u64,
    now2: u64,
)
    requires
        tag.len() > 0,
        tag[0] != ':',
        v2 <= v,
    ensures
        forall|p: Seq<char>|
            version_of(spec_set_min(spec_set_min(m, tag, v, now1), tag, v2, now2), p)
                == version_of(spec_set_min(m, tag, v, now1), p),
        spec_set_min(spec_set_min(m, tag, v, now1), tag, v2, now2).epoch == spec_set_min(
            m,
            tag,
            v,
            now1,
        ).epoch,
{
    lemma_tag_prefixes(tag);
    assert(tag_prefixes(tag).contains(tag)) by {
        assert(tag_prefixes(tag).last() == tag);
    }
    let m1 = spec_set_min(m, tag, v, now1);
    let m2 = spec_set_min(m1, tag, v2, now2);
    assert(m1.nodes.dom().contains(tag));
    assert(!can_raise(m1, tag, v2)) by {
        if can_raise(m, tag, v) {
            assert(version_of(m1, tag) == v);
        } else {
            if v > version_of(m, tag) {
                assert(m.epoch == u64::MAX);
                assert(m1.epoch == u64::MAX);
            } else {
                assert(version_of(m1, tag) == version_of(m, tag));
            }
        }
    }
    assert forall|p: Seq<char>| version_of(m2, p) == version_of(m1, p) by {
        if p.len() > 0 && m2.nodes.dom().contains(p) {
            assert(m2.nodes[p].version == version_of(m1, p));
        }
    }
}

/// While the epoch stands still, no version moves up.
pub proof fn lemma_step_epoch_guard(m: TrieModel, m2: TrieModel)
    requires
        trie_step(m, m2),
    ensures
        m2.epoch >= m.epoch,
        m2.epoch == m.epoch ==> forall|p: Seq<char>|
            version_of(m2, p) <= version_of(m, p),
{
    if exists|tag: Seq<char>, now: u64|
        tag.len() > 0 && tag[0] != ':' && m2 == #[trigger] spec_invalidate(m, tag, now) {
        let (tag, now) = choose|tag: Seq<char>, now: u64|
            tag.len() > 0 && tag[0] != ':' && m2 == #[trigger] spec_invalidate(m, tag, now);
        if !can_bump(m, tag) {
            assert forall|p: Seq<char>| version_of(m2, p) <= version_of(m, p) by {
                if p.len() > 0 && m2.nodes.dom().contains(p) {
                    assert(m2.nodes[p].version == version_of(m, p));
                }
            }
        }
    } else if exists|tag: Seq<char>, v: u64, now: u64|
        tag.len() > 0 && tag[0] != ':' && m2 == #[trigger] spec_set_min(m, tag, v, now) {
        let (tag, v, now) = choose|tag: Seq<char>, v: u64, now: u64|
            tag.len() > 0 && tag[0] != ':' && m2 == #[trigger] spec_set_min(m, tag, v, now);
        if !can_raise(m, tag, v) {
            assert forall|p: Seq<char>| version_of(m2, p) <= version_of(m, p) by {
                if p.len() > 0 && m2.nodes.dom().contains(p) {
                    assert(m2.nodes[p].version == version_of(m, p));
                }
            }
        }
    } else if exists|ps: Seq<Seq<char>>, now: u64| m2 == #[trigger] spec_touch_path(m, ps, now) {
        assert forall|p: Seq<char>| version_of(m2, p) <= version_of(m, p) by {
            if p.len() > 0 && m2.nodes.dom().contains(p) {
                assert(m2.nodes[p].version == version_of(m, p));
            }
        }
    } else if exists|cutoff: u64| m2 == #[trigger] spec_prune(m, cutoff) {
        assert forall|p: Seq<char>| version_of(m2, p) <= version_of(m, p) by {
            if p.len() > 0 && m2.nodes.dom().contains(p) {
                assert(m2.nodes[p].version == version_of(m, p));
            }
        }
    } else {
        assert(m2 == spec_clear(m));
    }
}

/// Over any run of steps that leaves the epoch unchanged, every version is
/// at most what it was at the start.
pub proof fn lemma_run_epoch_guard(ms: Seq<TrieModel>)
    requires
        ms.len() >= 1,
        forall|i: int| 0 <= i < ms.len() - 1 ==> trie_step(#[trigger] ms[i], ms[i + 1]),
    ensures
        ms.last().epoch >= ms[0].epoch,
        ms.last().epoch == ms[0].epoch ==> forall|p: Seq<char>|
            version_of(ms.last(), p) <= version_of(ms[0], p),
    decreases ms.len(),
{
    if ms.len() >= 2 {
        let front = ms.drop_last();
        assert forall|i: int| 0 <= i < front.len() - 1 implies trie_step(
            #[trigger] front[i],
            front[i + 1],
        ) by {
            assert(front[i] == ms[i]);
            assert(front[i + 1] == ms[i + 1]);
        }
        lemma_run_epoch_guard(front);
        assert(front.last() == ms[ms.len() - 2]);
        lemma_step_epoch_guard(ms[ms.len() - 2], ms.last());
    }
}

/// The epoch fast path is sound: a snapshot taken when the epoch had its
/// current value is still valid, whatever ran in between.
pub proof fn lemma_epoch_fast_path(ms: Seq<TrieModel>, tag: Seq<char>, d: DepSnapshot)
    requires
        ms.len() >= 1,
        forall|i: int| 0 <= i < ms.len() - 1 ==> trie_step(#[trigger] ms[i], ms[i + 1]),
        ms.last().epoch == ms[0].epoch,
        snapshot_matches(ms[0], tag, d),
    ensures
        spec_path_valid(ms.last(), d.parts.deep_view(), d.path_versions@),
{
    lemma_run_epoch_guard(ms);
    assert(version_of(ms.last(), Seq::<char>::empty()) <= version_of(ms[0], Seq::<char>::empty()));
    assert forall|k: int| 0 <= k < d.parts.deep_view().len() implies version_of(
        ms.last(),
        #[trigger] joined_prefixes(d.parts.deep_view())[k],
    ) <= d.path_versions@[k + 1] by {
        assert(joined_prefixes(d.parts.deep_view())[k] == tag_prefixes(tag)[k]);
        assert(version_of(ms.last(), tag_prefixes(tag)[k]) <= version_of(
            ms[0],
            tag_prefixes(tag)[k],
        ));
    }
}

} // verus!
