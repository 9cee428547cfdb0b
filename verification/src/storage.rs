//! In-memory storage backend: a string-keyed map of entries with absolute
//! expiry deadlines and last-access stamps for LRU eviction.

use vstd::prelude::*;

use crate::codec::{CacheEntry, EntryModel};
use crate::errors::CacheError;
use crate::strmap::StrMap;

verus! {

/// One stored record: the entry, its absolute expiry second (none for no
/// TTL), and the second of its last access.
pub struct StoredEntry {
    pub entry: CacheEntry,
    pub expires_at: Option<u64>,
    pub last_access: u64,
}

/// The mathematical content of a stored record.
#[verifier::ext_equal]
pub ghost struct RecordModel {
    pub entry: EntryModel,
    pub expires_at: Option<u64>,
    pub last_access: u64,
}

impl View for StoredEntry {
    type V = RecordModel;

    open spec fn view(&self) -> RecordModel {
        RecordModel {
            entry: self.entry@,
            expires_at: self.expires_at,
            last_access: self.last_access,
        }
    }
}

/// What a read returns: a live entry with its deadline, a record past its
/// deadline, or nothing.
pub enum StorageResult {
    Hit(CacheEntry, Option<u64>),
    Expired,
    NotFound,
}

/// A record is past its deadline at `now`.
pub open spec fn is_expired(e: RecordModel, now: u64) -> bool {
    match e.expires_at {
        Some(deadline) => now > deadline,
        None => false,
    }
}

/// Addition capped at the largest representable second.
pub open spec fn sat_add(a: u64, b: u64) -> u64 {
    if a + b > u64::MAX {
        u64::MAX
    } else {
        (a + b) as u64
    }
}

/// The deadline a write with this TTL sets at `now`.
pub open spec fn deadline_of(now: u64, ttl: Option<u64>) -> Option<u64> {
    match ttl {
        Some(t) => Some(sat_add(now, t)),
        None => None,
    }
}

/// One touch: refresh the stamp, extend the deadline when a TTL is given.
pub open spec fn spec_touch_one(
    m: Map<Seq<char>, RecordModel>,
    key: Seq<char>,
    ttl: Option<u64>,
    now: u64,
) -> Map<Seq<char>, RecordModel> {
    if m.dom().contains(key) {
        m.insert(
            key,
            RecordModel {
                entry: m[key].entry,
                expires_at: match ttl {
                    Some(t) => Some(sat_add(now, t)),
                    None => m[key].expires_at,
                },
                last_access: now,
            },
        )
    } else {
        m
    }
}

/// A batch of touches, applied in order.
pub open spec fn spec_touch_batch(
    m: Map<Seq<char>, RecordModel>,
    updates: Seq<(String, Option<u64>)>,
    now: u64,
) -> Map<Seq<char>, RecordModel>
    decreases updates.len(),
{
    if updates.len() == 0 {
        m
    } else {
        spec_touch_batch(spec_touch_one(m, updates[0].0@, updates[0].1, now), updates.skip(1), now)
    }
}

/// The set of keys a list of strings names.
pub open spec fn key_set_of(ks: Seq<String>) -> Set<Seq<char>> {
    Set::new(|p: Seq<char>| exists|i: int| 0 <= i < ks.len() && (#[trigger] ks[i]@) == p)
}

/// The in-memory backend, modelled as a plain map from key to record.
pub struct InMemoryStorage {
    map: StrMap<StoredEntry>,
}

impl View for InMemoryStorage {
    type V = Map<Seq<char>, RecordModel>;

    closed spec fn view(&self) -> Map<Seq<char>, RecordModel> {
        self.map@.map_values(|s: StoredEntry| s@)
    }
}

impl InMemoryStorage {
    pub closed spec fn wf(&self) -> bool {
        self.map.wf()
    }

    pub fn new() -> (r: Self)
        ensures
            r.wf(),
            r@ == Map::<Seq<char>, RecordModel>::empty(),
    {
        let r = InMemoryStorage { map: StrMap::new() };
        proof {
            assert(r@ =~= Map::<Seq<char>, RecordModel>::empty());
        }
        r
    }

    /// Looks a key up at `now`: a hit refreshes the last-access stamp, a
    /// record past its deadline is deleted on the spot.
    pub fn get(&mut self, key: &str, now: u64) -> (r: StorageResult)
        requires
            old(self).wf(),
        ensures
            final(self).wf(),
            !old(self)@.dom().contains(key@) ==> (r is NotFound && final(self)@ == old(self)@),
            old(self)@.dom().contains(key@) && is_expired(old(self)@[key@], now) ==> (r is Expired
                && final(self)@ == old(self)@.remove(key@)),
            old(self)@.dom().contains(key@) && !is_expired(old(self)@[key@], now) ==> (match r {
                StorageResult::Hit(e, exp) => e@ == old(self)@[key@].entry && exp == old(
                    self,
                )@[key@].expires_at && final(self)@ == spec_touch_one(old(self)@, key@, None, now),
                _ => false,
            }),
    {
        let hit: Option<(CacheEntry, Option<u64>)> = match self.map.get(key) {
            Some(stored) => {
                let expired = match stored.expires_at {
                    Some(deadline) => now > deadline,
                    None => false,
                };
                if expired {
                    None
                } else {
                    Some((stored.entry.clone(), stored.expires_at))
                }
            },
            None => {
                return StorageResult::NotFound;
            },
        };
        match hit {
            Some((entry, expires_at)) => {
                let refreshed = StoredEntry {
                    entry: entry.clone(),
                    expires_at,
                    last_access: now,
                };
                self.map.insert(key.to_owned(), refreshed);
                proof {
                    assert(final(self)@ =~= spec_touch_one(old(self)@, key@, None, now));
                }
                StorageResult::Hit(entry, expires_at)
            },
            None => {
                self.map.remove(key);
                proof {
                    assert(final(self)@ =~= old(self)@.remove(key@));
                }
                StorageResult::Expired
            },
        }
    }

    /// Writes or overwrites a key with a fresh last-access stamp; the
    /// deadline is `now + ttl` (capped), or none for no expiry.
    pub fn set(&mut self, key: &str, entry: CacheEntry, ttl: Option<u64>, now: u64)
        requires
            old(self).wf(),
        ensures
            final(self).wf(),
            final(self)@ == old(self)@.insert(
                key@,
                RecordModel { entry: entry@, expires_at: deadline_of(now, ttl), last_access: now },
            ),
    {
        let ghost ev = entry@;
        let expires_at = match ttl {
            Some(t) => {
                if t <= u64::MAX - now {
                    Some(now + t)
                } else {
                    Some(u64::MAX)
                }
            },
            None => None,
        };
        self.map.insert(key.to_owned(), StoredEntry { entry, expires_at, last_access: now });
        proof {
            assert(final(self)@ =~= old(self)@.insert(
                key@,
                RecordModel { entry: ev, expires_at: deadline_of(now, ttl), last_access: now },
            ));
        }
    }

    /// Writes pre-serialized bytes, as the maintenance worker does for
    /// deferred rewrites; bytes that do not decode are `Corrupted`.
    pub fn set_raw(&mut self, key: &str, data: &[u8], ttl: Option<u64>, now: u64) -> (r: Result<
        (),
        CacheError,
    >)
        requires
            old(self).wf(),
        ensures
            final(self).wf(),
            match crate::codec::spec_deserialize(data@) {
                Some(em) => r is Ok && final(self)@ == old(self)@.insert(
                    key@,
                    RecordModel {
                        entry: em,
                        expires_at: deadline_of(now, ttl),
                        last_access: now,
                    },
                ),
                None => r == Err::<(), CacheError>(CacheError::Corrupted) && final(self)@ == old(
                    self,
                )@,
            },
    {
        match CacheEntry::deserialize(data) {
            Ok(entry) => {
                self.set(key, entry, ttl, now);
                Ok(())
            },
            Err(e) => Err(e),
        }
    }

    /// Applies a batch of touches in order; keys that are gone are skipped.
    pub fn touch_batch(&mut self, updates: &Vec<(String, Option<u64>)>, now: u64)
        requires
            old(self).wf(),
        ensures
            final(self).wf(),
            final(self)@ == spec_touch_batch(old(self)@, updates@, now),
    {
        let mut i: usize = 0;
        proof {
            assert(updates@.skip(0) =~= updates@);
        }
        while i < updates.len()
            invariant
                i <= updates.len(),
                self.wf(),
                spec_touch_batch(old(self)@, updates@, now) == spec_touch_batch(
                    self@,
                    updates@.skip(i as int),
                    now,
                ),
            decreases updates.len() - i,
        {
            let ghost pre = self@;
            let key = &updates[i].0;
            let ttl = updates[i].1;
            match self.map.get(key.as_str()) {
                Some(stored) => {
                    let expires_at = match ttl {
                        Some(t) => {
                            if t <= u64::MAX - now {
                                Some(now + t)
                            } else {
                                Some(u64::MAX)
                            }
                        },
                        None => stored.expires_at,
                    };
                    let refreshed = StoredEntry {
                        entry: stored.entry.clone(),
                        expires_at,
                        last_access: now,
                    };
                    self.map.insert(key.clone(), refreshed);
                    proof {
                        assert(self@ =~= spec_touch_one(pre, key@, ttl, now));
                    }
                },
                None => {
                    proof {
                        assert(self@ =~= spec_touch_one(pre, key@, ttl, now));
                    }
                },
            }
            proof {
                assert(updates@.skip(i as int)[0] == updates@[i as int]);
                assert(updates@.skip(i as int).skip(1) =~= updates@.skip(i + 1));
            }
            i = i + 1;
        }
        proof {
            assert(updates@.skip(updates@.len() as int) =~= Seq::<(String, Option<u64>)>::empty());
        }
    }

    /// Removes a key; absent keys are no error.
    pub fn remove(&mut self, key: &str)
        requires
            old(self).wf(),
        ensures
            final(self).wf(),
            final(self)@ == old(self)@.remove(key@),
    {
        self.map.remove(key);
        proof {
            assert(final(self)@ =~= old(self)@.remove(key@));
        }
    }

    /// Removes every entry.
    pub fn clear(&mut self)
        ensures
            final(self).wf(),
            final(self)@ == Map::<Seq<char>, RecordModel>::empty(),
    {
        self.map.clear();
        proof {
            assert(final(self)@ =~= Map::<Seq<char>, RecordModel>::empty());
        }
    }

    /// Lists the live entries whose key starts with `prefix`, with their
    /// deadlines, for inspection; records past their deadline are passed
    /// over.
    #[verifier::rlimit(50)]
    pub fn scan_keys(&self, prefix: &str, now: u64) -> (r: Vec<(String, Option<u64>)>)
        requires
            self.wf(),
        ensures
            forall|i: int|
                0 <= i < r@.len() ==> self@.dom().contains((#[trigger] r@[i]).0@)
                    && crate::strmap::str_has_prefix(r@[i].0@, prefix@) && !is_expired(
                    self@[r@[i].0@],
                    now,
                ) && r@[i].1 == self@[r@[i].0@].expires_at,
            forall|i: int, j: int|
                0 <= i < j < r@.len() ==> (#[trigger] r@[i].0@) != (#[trigger] r@[j].0@),
            forall|p: Seq<char>|
                self@.dom().contains(p) && crate::strmap::str_has_prefix(p, prefix@)
                    && !is_expired(#[trigger] self@[p], now) ==> exists|i: int|
                    0 <= i < r@.len() && (#[trigger] r@[i]).0@ == p,
    {
        proof {
            self.map.lemma_key_seq();
        }
        let ghost ks = self.map.key_seq();
        let n = self.map.key_count();
        let mut out: Vec<(String, Option<u64>)> = Vec::new();
        let mut i: usize = 0;
        while i < n
            invariant
                self.wf(),
                ks == self.map.key_seq(),
                n == ks.len(),
                i <= n,
                forall|a: int, b: int| 0 <= a < b < n ==> ks[a] != ks[b],
                forall|a: int| 0 <= a < n ==> self.map@.dom().contains(#[trigger] ks[a]),
                forall|p: Seq<char>|
                    #[trigger] self.map@.dom().contains(p) ==> exists|a: int|
                        0 <= a < n && #[trigger] ks[a] == p,
                forall|a: int|
                    0 <= a < out@.len() ==> exists|m: int|
                        0 <= m < i && (#[trigger] out@[a].0@) == ks[m],
                forall|a: int|
                    0 <= a < out@.len() ==> self@.dom().contains((#[trigger] out@[a]).0@)
                        && crate::strmap::str_has_prefix(out@[a].0@, prefix@) && !is_expired(
                        self@[out@[a].0@],
                        now,
                    ) && out@[a].1 == self@[out@[a].0@].expires_at,
                forall|a: int, b: int|
                    0 <= a < b < out@.len() ==> (#[trigger] out@[a].0@) != (#[trigger] out@[b].0@),
                forall|m: int|
                    0 <= m < i && self.map@.dom().contains(#[trigger] ks[m])
                        && crate::strmap::str_has_prefix(ks[m], prefix@) && !is_expired(
                        self@[ks[m]],
                        now,
                    ) ==> exists|a: int| 0 <= a < out@.len() && (#[trigger] out@[a]).0@ == ks[m],
            decreases n - i,
        {
            let ghost pre_out = out@;
            let key = self.map.key_at(i);
            let matching = crate::strmap::starts_with_str(key.as_str(), prefix);
            let mut kept = false;
            if matching {
                match self.map.get(key.as_str()) {
                    None => {
                        proof {
                            assert(false);
                        }
                    },
                    Some(stored) => {
                        proof {
                            assert(self@[ks[i as int]] == stored@);
                        }
                        let expired = match stored.expires_at {
                            Some(deadline) => now > deadline,
                            None => false,
                        };
                        if !expired {
                            kept = true;
                            let ghost prev = out@;
                            let pair = (key.clone(), stored.expires_at);
                            out.push(pair);
                            proof {
                                assert(out@[out@.len() - 1].0@ == ks[i as int]);
                                assert forall|a: int, b: int| 0 <= a < b < out@.len() implies (
                                #[trigger] out@[a].0@) != (#[trigger] out@[b].0@) by {
                                    if b == out@.len() - 1 {
                                        let m = choose|m: int|
                                            0 <= m < i && (#[trigger] prev[a].0@) == ks[m];
                                        assert(ks[m] != ks[i as int]);
                                    }
                                }
                                assert forall|a: int| 0 <= a < out@.len() implies exists|m: int|
                                    0 <= m < i + 1 && (#[trigger] out@[a].0@) == ks[m] by {
                                    if a < out@.len() - 1 {
                                        let m = choose|m: int|
                                            0 <= m < i && (#[trigger] prev[a].0@) == ks[m];
                                        assert(out@[a].0@ == ks[m]);
                                    } else {
                                        assert(out@[a].0@ == ks[i as int]);
                                    }
                                }
                            }
                        }
                    },
                }
            }
            proof {
                if !kept && self@.dom().contains(ks[i as int]) {
                    assert(self@[ks[i as int]] == self.map@[ks[i as int]]@);
                }
                assert forall|m: int|
                    0 <= m < i + 1 && self.map@.dom().contains(#[trigger] ks[m])
                        && crate::strmap::str_has_prefix(ks[m], prefix@) && !is_expired(
                        self@[ks[m]],
                        now,
                    ) implies exists|a: int|
                    0 <= a < out@.len() && (#[trigger] out@[a]).0@ == ks[m] by {
                    if m < i {
                        let a = choose|a: int|
                            0 <= a < pre_out.len() && (#[trigger] pre_out[a]).0@ == ks[m];
                        assert(out@[a].0@ == ks[m]);
                    } else {
                        assert(out@[out@.len() - 1].0@ == ks[m]);
                    }
                }
            }
            i = i + 1;
        }
        proof {
            assert forall|p: Seq<char>|
                self@.dom().contains(p) && crate::strmap::str_has_prefix(p, prefix@)
                    && !is_expired(#[trigger] self@[p], now) implies exists|a: int|
                0 <= a < out@.len() && (#[trigger] out@[a]).0@ == p by {
                assert(self.map@.dom().contains(p));
                let m = choose|m: int| 0 <= m < n && (#[trigger] ks[m]) == p;
            }
        }
        out
    }

    /// This backend refreshes access stamps synchronously on read.
    pub fn needs_tti_worker(&self) -> (r: bool)
        ensures
            r == false,
    {
        false
    }

    /// Evicts up to `count` entries, oldest access first, and returns the
    /// keys actually removed. `evict_lru(0)` removes nothing. Every evicted
    /// entry was accessed no later than any survivor.
    pub fn evict_lru(&mut self, count: usize) -> (evicted: Vec<String>)
        requires
            old(self).wf(),
        ensures
            final(self).wf(),
            evicted@.len() <= count,
            evicted@.len() < count ==> final(self)@.len() == 0,
            final(self)@.len() + evicted@.len() == old(self)@.len(),
            forall|a: int, b: int|
                0 <= a < b < evicted@.len() ==> (#[trigger] evicted@[a]@) != (
                #[trigger] evicted@[b]@),
            forall|a: int|
                0 <= a < evicted@.len() ==> old(self)@.dom().contains(#[trigger] evicted@[a]@),
            final(self)@.dom() == old(self)@.dom().difference(key_set_of(evicted@)),
            forall|p: Seq<char>|
                #[trigger] final(self)@.dom().contains(p) ==> final(self)@[p] == old(self)@[p],
            forall|a: int, p: Seq<char>|
                0 <= a < evicted@.len() && #[trigger] final(self)@.dom().contains(p) ==> old(
                    self,
                )@[#[trigger] evicted@[a]@].last_access <= old(self)@[p].last_access,
    {
        let mut evicted: Vec<String> = Vec::new();
        let mut j: usize = 0;
        proof {
            self.map.lemma_dom_finite();
            assert(self@.dom() =~= self.map@.dom());
            assert(self@.dom() =~= old(self)@.dom().difference(key_set_of(evicted@)));
        }
        while j < count
            invariant
                self.wf(),
                j <= count,
                j == evicted@.len(),
                forall|a: int, b: int|
                    0 <= a < b < evicted@.len() ==> (#[trigger] evicted@[a]@) != (
                    #[trigger] evicted@[b]@),
                forall|a: int|
                    0 <= a < evicted@.len() ==> old(self)@.dom().contains(#[trigger] evicted@[a]@),
                self@.dom() == old(self)@.dom().difference(key_set_of(evicted@)),
                forall|p: Seq<char>|
                    #[trigger] self@.dom().contains(p) ==> self@[p] == old(self)@[p],
                forall|a: int, p: Seq<char>|
                    0 <= a < evicted@.len() && #[trigger] self@.dom().contains(p) ==> old(
                        self,
                    )@[#[trigger] evicted@[a]@].last_access <= old(self)@[p].last_access,
                self@.len() + j == old(self)@.len(),
                old(self)@.dom().finite(),
            decreases count - j,
        {
            let n = self.map.key_count();
            proof {
                self.map.lemma_key_seq();
                self.map.lemma_dom_finite();
                assert(self@.dom() =~= self.map@.dom());
            }
            if n == 0 {
                proof {
                    if self@.len() != 0 {
                        let p = self@.dom().choose();
                        assert(self@.dom().contains(p)) by {
                            vstd::set_lib::lemma_set_empty_equivalency_len(self@.dom());
                            if !self@.dom().contains(p) {
                                assert(self@.dom() =~= Set::<Seq<char>>::empty());
                            }
                        }
                        assert(self.map@.dom().contains(p));
                        assert(false);
                    }
                }
                return evicted;
            }
            // scan for the oldest access stamp
            let ghost ks = self.map.key_seq();
            let mut best: usize = 0;
            let mut best_la: u64 = match self.map.get(self.map.key_at(0).as_str()) {
                Some(s) => s.last_access,
                None => {
                    proof {
                        assert(false);
                    }
                    0
                },
            };
            let mut idx: usize = 1;
            while idx < n
                invariant
                    self.wf(),
                    ks == self.map.key_seq(),
                    n == ks.len(),
                    0 < n,
                    best < idx <= n,
                    forall|m: int|
                        0 <= m < ks.len() ==> self.map@.dom().contains(#[trigger] ks[m]),
                    best_la == self.map@[ks[best as int]].last_access,
                    forall|m: int|
                        0 <= m < idx ==> best_la <= self.map@[#[trigger] ks[m]].last_access,
                decreases n - idx,
            {
                let la = match self.map.get(self.map.key_at(idx).as_str()) {
                    Some(s) => s.last_access,
                    None => {
                        proof {
                            assert(false);
                        }
                        0
                    },
                };
                if la < best_la {
                    best = idx;
                    best_la = la;
                }
                idx = idx + 1;
            }
            let victim: String = self.map.key_at(best).clone();
            let ghost pre = self@;
            let ghost pre_map = self.map@;
            self.map.remove(victim.as_str());
            let ghost old_evicted = evicted@;
            evicted.push(victim);
            j = j + 1;
            proof {
                let v = evicted@[evicted@.len() - 1]@;
                assert(v == ks[best as int]);
                assert(pre.dom().contains(v));
                assert(old(self)@.dom().contains(v));
                // the victim had not been evicted before
                assert forall|a: int, b: int| 0 <= a < b < evicted@.len() implies (
                #[trigger] evicted@[a]@) != (#[trigger] evicted@[b]@) by {
                    if b == evicted@.len() - 1 {
                        if evicted@[a]@ == v {
                            assert(key_set_of(old_evicted).contains(v));
                            assert(!pre.dom().contains(v));
                        }
                    }
                }
                assert(self@.dom() =~= self.map@.dom());
                assert(self@.dom() =~= old(self)@.dom().difference(key_set_of(evicted@))) by {
                    assert forall|p: Seq<char>| key_set_of(evicted@).contains(p) implies (
                    key_set_of(old_evicted).contains(p) || p == v) by {
                        let a = choose|a: int|
                            0 <= a < evicted@.len() && (#[trigger] evicted@[a]@) == p;
                        if a < evicted@.len() - 1 {
                            assert(old_evicted[a]@ == p);
                        }
                    }
                    assert forall|p: Seq<char>| key_set_of(old_evicted).contains(p)
                        implies key_set_of(evicted@).contains(p) by {
                        let a = choose|a: int|
                            0 <= a < old_evicted.len() && (#[trigger] old_evicted[a]@) == p;
                        assert(evicted@[a]@ == p);
                    }
                    assert(key_set_of(evicted@).contains(v)) by {
                        assert(evicted@[evicted@.len() - 1]@ == v);
                    }
                }
                // the victim is no newer than any survivor
                assert forall|a: int, p: Seq<char>|
                    0 <= a < evicted@.len() && #[trigger] self@.dom().contains(p) implies old(
                    self,
                )@[#[trigger] evicted@[a]@].last_access <= old(self)@[p].last_access by {
                    assert(pre.dom().contains(p));
                    if a == evicted@.len() - 1 {
                        let m = choose|m: int| 0 <= m < ks.len() && (#[trigger] ks[m]) == p;
                        assert(best_la <= pre_map[ks[m]].last_access);
                        assert(pre[p] == old(self)@[p]);
                        assert(pre[v] == old(self)@[v]);
                        assert(pre[p].last_access == pre_map[p].last_access);
                        assert(pre[v].last_access == pre_map[ks[best as int]].last_access);
                    }
                }
                // the count drops by exactly one
                assert(pre.len() == 1 + self@.len()) by {
                    assert(pre.dom().finite()) by {
                        vstd::set_lib::lemma_len_subset(self@.dom(), old(self)@.dom());
                        assert(pre.dom() =~= old(self)@.dom().difference(
                            key_set_of(old_evicted),
                        ));
                        vstd::set_lib::lemma_len_subset(pre.dom(), old(self)@.dom());
                    }
                    pre.lemma_remove_key_len(v);
                    assert(self@ =~= pre.remove(v));
                }
            }
        }
        evicted
    }

    /// The live entry count.
    pub fn len(&self) -> (n: usize)
        ensures
            n == self@.len(),
    {
        proof {
            assert(self@.dom() =~= self.map@.dom());
        }
        self.map.len()
    }
}

} // verus!
