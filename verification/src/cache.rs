//! The cache core orchestrator: composes the trie, the in-memory storage,
//! the single-flight registry and the deferred-maintenance queue. Reads take
//! the epoch fast path or validate dependency snapshots; writes snapshot the
//! trie and may evict over capacity; invalidations bump the trie and hand
//! the bus payload to the embedding.

use vstd::prelude::*;

use crate::codec::{CacheEntry, DepModel, EntryModel, encode_payload, lz4_block_of, magic_seq};
use crate::errors::CacheError;
use crate::flight::{FlightRegistry, RegistryModel, registry_inv, spec_complete, spec_try_enter};
use crate::storage::{InMemoryStorage, RecordModel, StorageResult, deadline_of, is_expired,
    spec_touch_one};
use crate::tags::{valid_tag, validate_tag};
use crate::trie::{DepSnapshot, PrefixTrie, TrieModel, build_dependency_snapshots, snapshot_wf,
    spec_clear, spec_invalidate, spec_path_valid, spec_prune, trie_versions_unchanged,
    validate_dependencies, version_of};

verus! {

/// The deferred-maintenance queue holds at most this many messages; senders
/// drop and count rather than block.
pub const TTI_QUEUE_CAPACITY: usize = 1000000;

/// A message to the maintenance worker.
pub enum WorkerMsg {
    /// Record an access, optionally extending the TTL.
    Touch(String, Option<u64>),
    /// Prune trie subtrees idle for this many seconds.
    Prune(u64),
    /// Remove a key whose record expired.
    Delete(String),
    /// Rewrite a key with pre-serialized bytes and a remaining TTL.
    Update(String, Vec<u8>, Option<u64>),
    /// Flush accumulated metrics to the backends.
    FlushMetrics,
}

/// Mathematical content of a worker message.
pub ghost enum MsgModel {
    Touch(Seq<char>, Option<u64>),
    Prune(u64),
    Delete(Seq<char>),
    Update(Seq<char>, Seq<u8>, Option<u64>),
    FlushMetrics,
}

impl View for WorkerMsg {
    type V = MsgModel;

    open spec fn view(&self) -> MsgModel {
        match self {
            WorkerMsg::Touch(k, ttl) => MsgModel::Touch(k@, *ttl),
            WorkerMsg::Prune(age) => MsgModel::Prune(*age),
            WorkerMsg::Delete(k) => MsgModel::Delete(k@),
            WorkerMsg::Update(k, data, ttl) => MsgModel::Update(k@, data@, *ttl),
            WorkerMsg::FlushMetrics => MsgModel::FlushMetrics,
        }
    }
}

/// A snapshot in the model is well shaped.
pub open spec fn dep_shape_ok(d: DepModel) -> bool {
    &&& d.versions.len() == d.parts.len() + 1
    &&& d.parts.len() > 0 ==> d.parts[0].len() > 0
}

/// The snapshot is valid against the trie.
pub open spec fn dep_snapshot_valid(t: TrieModel, d: DepModel) -> bool {
    spec_path_valid(t, d.parts, d.versions)
}

/// Every dependency of the entry is well shaped and valid.
pub open spec fn entry_deps_valid(t: TrieModel, e: EntryModel) -> bool {
    forall|k: int|
        0 <= k < e.deps.len() ==> dep_shape_ok(#[trigger] e.deps[k]) && dep_snapshot_valid(
            t,
            e.deps[k],
        )
}

/// The entry was written at the current epoch: nothing was invalidated since.
pub open spec fn entry_fresh(t: TrieModel, e: EntryModel) -> bool {
    e.trie_version == t.epoch
}

/// The epoch fast path at the orchestrator: a dependency snapshot recorded
/// at a write (exactly as `set`'s contract states it) is still valid at any
/// later trie state reached by steps that leave the epoch unchanged. Serving
/// a record whose write epoch equals the current epoch therefore needs no
/// validation, whatever ran in between.
pub proof fn lemma_stored_deps_stay_valid(ms: Seq<TrieModel>, tag: Seq<char>, d: DepModel)
    requires
        ms.len() >= 1,
        forall|i: int|
            0 <= i < ms.len() - 1 ==> crate::trie::trie_step(#[trigger] ms[i], ms[i + 1]),
        ms.last().epoch == ms[0].epoch,
        snapshot_model_matches(ms[0], tag, d),
    ensures
        dep_snapshot_valid(ms.last(), d),
{
    crate::trie::lemma_run_epoch_guard(ms);
    assert(version_of(ms.last(), Seq::<char>::empty()) <= version_of(
        ms[0],
        Seq::<char>::empty(),
    ));
    assert forall|k: int| 0 <= k < d.parts.len() implies version_of(
        ms.last(),
        #[trigger] crate::tags::joined_prefixes(d.parts)[k],
    ) <= d.versions[k + 1] by {
        assert(crate::tags::joined_prefixes(d.parts)[k] == crate::trie::tag_prefixes(tag)[k]);
        assert(version_of(ms.last(), crate::trie::tag_prefixes(tag)[k]) <= version_of(
            ms[0],
            crate::trie::tag_prefixes(tag)[k],
        ));
    }
}

/// Whether `get` serves a stored record at `now`: a live record is served
/// on the epoch fast path or when every dependency snapshot is still valid.
pub open spec fn spec_serves(
    m: Map<Seq<char>, RecordModel>,
    t: TrieModel,
    key: Seq<char>,
    now: u64,
) -> bool {
    &&& m.dom().contains(key)
    &&& !is_expired(m[key], now)
    &&& (entry_fresh(t, m[key].entry) || entry_deps_valid(t, m[key].entry))
}

/// The storage contents after a `get`: a miss leaves it alone, an expired or
/// stale record is removed, a served record is touched.
pub open spec fn spec_get_storage(
    m: Map<Seq<char>, RecordModel>,
    t: TrieModel,
    key: Seq<char>,
    now: u64,
) -> Map<Seq<char>, RecordModel> {
    if !m.dom().contains(key) {
        m
    } else if is_expired(m[key], now) || !(entry_fresh(t, m[key].entry) || entry_deps_valid(
        t,
        m[key].entry,
    )) {
        m.remove(key)
    } else {
        spec_touch_one(m, key, None, now)
    }
}

/// Appending one message to the bounded queue: at capacity the message is
/// dropped and counted; with the worker disabled it vanishes silently.
pub open spec fn spec_send(
    q: Seq<MsgModel>,
    dropped: u64,
    enabled: bool,
    msg: MsgModel,
) -> (Seq<MsgModel>, u64) {
    if !enabled {
        (q, dropped)
    } else if q.len() >= TTI_QUEUE_CAPACITY {
        (q, if dropped < u64::MAX {
            (dropped + 1) as u64
        } else {
            dropped
        })
    } else {
        (q.push(msg), dropped)
    }
}

/// The message a served `get` defers: a rewrite with the current epoch when
/// the record is older than the epoch, otherwise a plain touch.
pub open spec fn spec_get_msg(
    m: Map<Seq<char>, RecordModel>,
    t: TrieModel,
    key: Seq<char>,
    now: u64,
    default_ttl: Option<u64>,
) -> Option<MsgModel> {
    if !m.dom().contains(key) {
        None
    } else if is_expired(m[key], now) {
        Some(MsgModel::Delete(key))
    } else if entry_fresh(t, m[key].entry) {
        None
    } else if !entry_deps_valid(t, m[key].entry) {
        None
    } else if m[key].entry.trie_version < t.epoch {
        Some(
            MsgModel::Update(
                key,
                magic_seq() + lz4_block_of(
                    encode_payload(
                        EntryModel {
                            value: m[key].entry.value,
                            deps: m[key].entry.deps,
                            trie_version: t.epoch,
                        },
                    ),
                ),
                remaining_ttl(m[key].expires_at, now),
            ),
        )
    } else {
        Some(MsgModel::Touch(key, default_ttl))
    }
}

/// The TTL still left on a deadline at `now`; none when there is no deadline
/// or it has passed. A record rewritten at exactly its deadline second keeps
/// a one-second floor rather than an immediate expiry: that is this core's
/// policy for deferred rewrites whose TTL ran out in flight.
pub open spec fn remaining_ttl(expires_at: Option<u64>, now: u64) -> Option<u64> {
    match expires_at {
        Some(deadline) => if deadline >= now {
            Some(
                if deadline - now == 0 {
                    1u64
                } else {
                    (deadline - now) as u64
                },
            )
        } else {
            None
        },
        None => None,
    }
}

/// What `get_or_entry` reports: a cache hit, leadership of a fresh flight,
/// or a flight slot to wait on.
pub enum GetOrEntry {
    Hit(Vec<u8>),
    Leader(usize),
    Wait(usize),
}

/// The cache core.
pub struct Core {
    storage: InMemoryStorage,
    trie: PrefixTrie,
    flights: FlightRegistry,
    pending: Vec<WorkerMsg>,
    dropped_tti_msgs: u64,
    default_ttl: Option<u64>,
    max_entries: Option<usize>,
    flight_timeout: u64,
    worker_enabled: bool,
}

/// Mathematical content of the core.
#[verifier::ext_equal]
pub ghost struct CoreModel {
    pub storage: Map<Seq<char>, RecordModel>,
    pub trie: TrieModel,
    pub flights: RegistryModel,
    pub pending: Seq<MsgModel>,
    pub dropped: u64,
    pub default_ttl: Option<u64>,
    pub max_entries: Option<usize>,
    pub flight_timeout: u64,
    pub worker_enabled: bool,
}

impl View for Core {
    type V = CoreModel;

    closed spec fn view(&self) -> CoreModel {
        CoreModel {
            storage: self.storage@,
            trie: self.trie@,
            flights: self.flights@,
            pending: Seq::new(self.pending@.len(), |i: int| self.pending@[i]@),
            dropped: self.dropped_tti_msgs,
            default_ttl: self.default_ttl,
            max_entries: self.max_entries,
            flight_timeout: self.flight_timeout,
            worker_enabled: self.worker_enabled,
        }
    }
}

impl Core {
    pub closed spec fn wf(&self) -> bool {
        &&& self.storage.wf()
        &&& self.trie.wf()
        &&& self.flights.wf()
        &&& registry_inv(self.flights@)
    }

    /// A fresh core over the in-memory backend. A zero default TTL is not
    /// permitted: no expiry is spelled `None`.
    pub fn new(
        default_ttl: Option<u64>,
        max_entries: Option<usize>,
        flight_timeout: u64,
        worker_enabled: bool,
    ) -> (r: Core)
        requires
            default_ttl != Some(0u64),
        ensures
            r.wf(),
            r@.storage == Map::<Seq<char>, RecordModel>::empty(),
            r@.trie.nodes == Map::<Seq<char>, crate::trie::NodeData>::empty(),
            r@.trie.epoch == 0,
            r@.trie.root_version == 0,
            r@.flights.active == Map::<Seq<char>, usize>::empty(),
            r@.flights.flights == Seq::<crate::flight::FlightModel>::empty(),
            r@.pending == Seq::<MsgModel>::empty(),
            r@.dropped == 0,
            r@.default_ttl == default_ttl,
            r@.max_entries == max_entries,
            r@.flight_timeout == flight_timeout,
            r@.worker_enabled == worker_enabled,
    {
        let r = Core {
            storage: InMemoryStorage::new(),
            trie: PrefixTrie::new(),
            flights: FlightRegistry::new(),
            pending: Vec::new(),
            dropped_tti_msgs: 0,
            default_ttl,
            max_entries,
            flight_timeout,
            worker_enabled,
        };
        proof {
            assert(r@.pending =~= Seq::<MsgModel>::empty());
        }
        r
    }

    /// Queues a deferred-maintenance message; at capacity the message is
    /// dropped and counted.
    fn send_tti_msg(&mut self, msg: WorkerMsg)
        ensures
            final(self)@ == (CoreModel {
                pending: spec_send(
                    old(self)@.pending,
                    old(self)@.dropped,
                    old(self)@.worker_enabled,
                    msg@,
                ).0,
                dropped: spec_send(
                    old(self)@.pending,
                    old(self)@.dropped,
                    old(self)@.worker_enabled,
                    msg@,
                ).1,
                ..old(self)@
            }),
            final(self).wf() == old(self).wf(),
    {
        if !self.worker_enabled {
            proof {
                assert(final(self)@ =~= old(self)@);
            }
            return ;
        }
        if self.pending.len() >= TTI_QUEUE_CAPACITY {
            if self.dropped_tti_msgs < u64::MAX {
                self.dropped_tti_msgs = self.dropped_tti_msgs + 1;
            }
            proof {
                assert(final(self)@ =~= (CoreModel {
                    dropped: spec_send(
                        old(self)@.pending,
                        old(self)@.dropped,
                        old(self)@.worker_enabled,
                        msg@,
                    ).1,
                    ..old(self)@
                }));
            }
        } else {
            let ghost mv = msg@;
            self.pending.push(msg);
            proof {
                assert(self@.pending =~= old(self)@.pending.push(mv));
                assert(final(self)@ =~= (CoreModel { pending: old(self)@.pending.push(mv), ..old(self)@ }));
            }
        }
    }

    /// Hands the queued maintenance messages to the embedding's worker.
    pub fn drain_tti_msgs(&mut self) -> (msgs: Vec<WorkerMsg>)
        ensures
            final(self)@ == (CoreModel { pending: Seq::<MsgModel>::empty(), ..old(self)@ }),
            final(self).wf() == old(self).wf(),
            msgs@.len() == old(self)@.pending.len(),
            forall|i: int| 0 <= i < msgs@.len() ==> (#[trigger] msgs@[i])@ == old(self)@.pending[i],
    {
        let mut out: Vec<WorkerMsg> = Vec::new();
        std::mem::swap(&mut out, &mut self.pending);
        proof {
            assert(final(self)@ =~= (CoreModel { pending: Seq::<MsgModel>::empty(), ..old(self)@ }));
        }
        out
    }

    /// Reads a key at `now`. A hit on the epoch fast path or with valid
    /// dependency snapshots is served; an expired record is dropped via the
    /// worker; a stale record is removed on the spot. An entry written at an
    /// older epoch is rewritten through the worker, a fresh-enough one only
    /// touched.
    pub fn get(&mut self, key: &str, now: u64) -> (r: Option<Vec<u8>>)
        requires
            old(self).wf(),
        ensures
            final(self).wf(),
            // what is served, and when: the dependency rule
            (r is Some) == spec_serves(old(self)@.storage, old(self)@.trie, key@, now),
            r matches Some(v) ==> v@ == old(self)@.storage[key@].entry.value,
            // the storage afterwards
            final(self)@.storage == spec_get_storage(
                old(self)@.storage,
                old(self)@.trie,
                key@,
                now,
            ),
            // everything else moves only by the deferred message
            final(self)@.trie == old(self)@.trie,
            final(self)@.flights == old(self)@.flights,
            ({
                let msg = spec_get_msg(
                    old(self)@.storage,
                    old(self)@.trie,
                    key@,
                    now,
                    old(self)@.default_ttl,
                );
                match msg {
                    Some(mm) => (final(self)@.pending, final(self)@.dropped) == spec_send(
                        old(self)@.pending,
                        old(self)@.dropped,
                        old(self)@.worker_enabled,
                        mm,
                    ),
                    None => final(self)@.pending == old(self)@.pending && final(self)@.dropped
                        == old(self)@.dropped,
                }
            }),
            final(self)@.default_ttl == old(self)@.default_ttl,
            final(self)@.max_entries == old(self)@.max_entries,
            final(self)@.worker_enabled == old(self)@.worker_enabled,
            final(self)@.flight_timeout == old(self)@.flight_timeout,
    {
        let ghost m0 = self@.storage;
        let ghost t0 = self@.trie;
        let outcome = self.storage.get(key, now);
        let (entry, expires_at) = match outcome {
            StorageResult::NotFound => {
                return None;
            },
            StorageResult::Expired => {
                self.send_tti_msg(WorkerMsg::Delete(key.to_owned()));
                return None;
            },
            StorageResult::Hit(entry, expires_at) => (entry, expires_at),
        };
        let epoch = self.trie.get_global_version();
        if entry.trie_version == epoch {
            proof {
                assert(entry_fresh(t0, m0[key@].entry));
                assert(final(self)@.storage =~= spec_get_storage(m0, t0, key@, now));
            }
            return Some(entry.value);
        }
        let shape_ok = deps_shape_ok(&entry.dependencies);
        let valid = shape_ok && validate_dependencies(&self.trie, &entry.dependencies);
        proof {
            assert(entry@ == m0[key@].entry);
            assert(valid == entry_deps_valid(t0, m0[key@].entry)) by {
                let e = m0[key@].entry;
                if shape_ok {
                    assert(forall|k: int|
                        0 <= k < e.deps.len() ==> dep_shape_ok(#[trigger] e.deps[k]));
                    if valid {
                        assert forall|k: int| 0 <= k < e.deps.len() implies dep_snapshot_valid(
                            t0,
                            #[trigger] e.deps[k],
                        ) by {
                            assert(e.deps[k] == crate::codec::dep_model_of(
                                entry.dependencies@[k],
                            ));
                        }
                    } else {
                        let k = choose|k: int|
                            0 <= k < entry.dependencies@.len() && !spec_path_valid(
                                t0,
                                (#[trigger] entry.dependencies@[k]).1.parts.deep_view(),
                                entry.dependencies@[k].1.path_versions@,
                            );
                        assert(!dep_snapshot_valid(t0, e.deps[k]));
                    }
                } else {
                    let k = choose|k: int|
                        0 <= k < entry.dependencies@.len() && !snapshot_wf(
                            (#[trigger] entry.dependencies@[k]).1,
                        );
                    assert(!dep_shape_ok(e.deps[k]));
                }
            }
        }
        if !valid {
            self.storage.remove(key);
            proof {
                assert(final(self)@.storage =~= m0.remove(key@));
                assert(final(self)@.storage =~= spec_get_storage(m0, t0, key@, now));
            }
            return None;
        }
        if entry.trie_version < epoch {
            let updated = CacheEntry {
                value: crate::utils::clone_byte_vec(&entry.value),
                dependencies: entry.dependencies,
                trie_version: epoch,
            };
            let data = updated.serialize();
            let ttl = match expires_at {
                Some(deadline) => if deadline >= now {
                    if deadline - now == 0 {
                        Some(1)
                    } else {
                        Some(deadline - now)
                    }
                } else {
                    None
                },
                None => None,
            };
            proof {
                assert(updated@ =~= (EntryModel {
                    value: m0[key@].entry.value,
                    deps: m0[key@].entry.deps,
                    trie_version: t0.epoch,
                }));
            }
            self.send_tti_msg(WorkerMsg::Update(key.to_owned(), data, ttl));
        } else {
            self.send_tti_msg(WorkerMsg::Touch(key.to_owned(), self.default_ttl));
        }
        proof {
            assert(final(self)@.storage =~= spec_get_storage(m0, t0, key@, now));
        }
        Some(entry.value)
    }
}

/// The snapshot model records exactly the versions `t` holds for `tag`.
pub open spec fn snapshot_model_matches(t: TrieModel, tag: Seq<char>, d: DepModel) -> bool {
    &&& d.tag == tag
    &&& d.parts == crate::tags::split_colon(tag)
    &&& d.versions.len() == d.parts.len() + 1
    &&& d.versions[0] == t.root_version
    &&& forall|k: int|
        0 <= k < d.parts.len() ==> d.versions[k + 1] == version_of(
            t,
            #[trigger] crate::trie::tag_prefixes(tag)[k],
        )
}

/// The record a successful `set` writes: the value bytes, the write-time
/// epoch, one exact snapshot per dependency, the effective TTL's deadline,
/// and a fresh access stamp.
pub open spec fn stored_entry_ok(
    t0: TrieModel,
    value: Seq<u8>,
    deps: Seq<String>,
    eff_ttl: Option<u64>,
    now: u64,
    rec: RecordModel,
) -> bool {
    &&& rec.entry.value == value
    &&& rec.entry.trie_version == t0.epoch
    &&& rec.expires_at == deadline_of(now, eff_ttl)
    &&& rec.last_access == now
    &&& rec.entry.deps.len() == deps.len()
    &&& forall|k: int|
        0 <= k < deps.len() ==> snapshot_model_matches(
            t0,
            deps[k]@,
            #[trigger] rec.entry.deps[k],
        )
}

/// Everything a successful `set` did, given the record it wrote: the store
/// holds the prior contents plus the record, minus an over-capacity eviction
/// whose residue count `len_after_evict` pins down and which only removes
/// entries accessed no later than every survivor.
pub open spec fn set_post(
    c0: CoreModel,
    c1: CoreModel,
    value: Seq<u8>,
    deps: Seq<String>,
    key: Seq<char>,
    ttl: Option<u64>,
    now: u64,
    rec: RecordModel,
) -> bool {
    let eff_ttl = if ttl is Some {
        ttl
    } else {
        c0.default_ttl
    };
    let m1 = c0.storage.insert(key, rec);
    &&& stored_entry_ok(c0.trie, value, deps, eff_ttl, now, rec)
    &&& (forall|j: int, k: int|
        0 <= j < k < rec.entry.deps.len() ==> (#[trigger] rec.entry.deps[j]).tag != (
        #[trigger] rec.entry.deps[k]).tag)
    &&& c1.storage.dom().subset_of(m1.dom())
    &&& (forall|p: Seq<char>, q: Seq<char>|
        #![trigger m1[p], c1.storage[q]]
        m1.dom().contains(p) && !c1.storage.dom().contains(p) && c1.storage.dom().contains(q)
            ==> m1[p].last_access <= m1[q].last_access)
    &&& (forall|p: Seq<char>| #[trigger] c1.storage.dom().contains(p) ==> c1.storage[p] == m1[p])
    &&& c1.storage.len() == len_after_evict(m1.len() as int, c0.max_entries)
    &&& ((c0.max_entries is None || m1.len() <= c0.max_entries->Some_0) ==> c1.storage == m1
        && trie_versions_unchanged(c0.trie, c1.trie))
}

/// How many entries an over-capacity write evicts: the overshoot plus a
/// tenth of the bound (at least one).
pub open spec fn to_evict_of(n: int, max: int) -> int {
    n - max + (if max / 10 > 0 {
        max / 10
    } else {
        1
    })
}

/// The count after an over-capacity eviction.
pub open spec fn len_after_evict(n: int, max: Option<usize>) -> int {
    match max {
        None => n,
        Some(m) => if n <= m {
            n
        } else if to_evict_of(n, m as int) <= n {
            n - to_evict_of(n, m as int)
        } else {
            0
        },
    }
}

impl Core {
    /// Validates every tag, snapshots their path versions at the current
    /// epoch (repeated tags collapse to one snapshot, keeping the entry's
    /// dependencies a mapping), stores the entry under the effective TTL,
    /// and evicts the oldest entries when the store exceeds `max_entries`.
    /// A zero TTL is not permitted: no expiry is spelled `None`.
    pub fn set(
        &mut self,
        key: &str,
        value: Vec<u8>,
        dependencies: Vec<String>,
        ttl: Option<u64>,
        now: u64,
    ) -> (r: Result<(), CacheError>)
        requires
            old(self).wf(),
            ttl != Some(0u64),
        ensures
            final(self).wf(),
            (r is Ok) == (forall|k: int|
                0 <= k < dependencies@.len() ==> valid_tag((#[trigger] dependencies@[k])@)),
            r is Err ==> r == Err::<(), CacheError>(CacheError::InvalidTag) && final(self)@ == old(self)@,
            r is Ok ==> exists|rec: RecordModel|
                #[trigger] set_post(
                    old(self)@,
                    final(self)@,
                    value@,
                    crate::tags::dedup_first(dependencies@),
                    key@,
                    ttl,
                    now,
                    rec,
                ),
            r is Ok ==> final(self)@.trie.epoch == old(self)@.trie.epoch && (forall|p: Seq<char>|
                version_of(final(self)@.trie, p) <= version_of(old(self)@.trie, p)),
            final(self)@.flights == old(self)@.flights,
            final(self)@.pending == old(self)@.pending,
            final(self)@.dropped == old(self)@.dropped,
            final(self)@.default_ttl == old(self)@.default_ttl,
            final(self)@.max_entries == old(self)@.max_entries,
            final(self)@.worker_enabled == old(self)@.worker_enabled,
            final(self)@.flight_timeout == old(self)@.flight_timeout,
    {
        let ghost t0 = self@.trie;
        let ghost m0 = self@.storage;
        let mut k: usize = 0;
        while k < dependencies.len()
            invariant
                self.wf(),
                self@ == old(self)@,
                k <= dependencies.len(),
                forall|i: int| 0 <= i < k ==> valid_tag((#[trigger] dependencies@[i])@),
            decreases dependencies.len() - k,
        {
            match validate_tag(dependencies[k].as_str()) {
                Ok(_) => {},
                Err(e) => {
                    return Err(e);
                },
            }
            k = k + 1;
        }
        let epoch = self.trie.get_global_version();
        proof {
            assert forall|i: int| 0 <= i < dependencies@.len() implies (
            #[trigger] dependencies@[i]@).len() > 0 && dependencies@[i]@[0] != ':' by {
                assert(valid_tag(dependencies@[i]@));
            }
        }
        let unique = crate::tags::dedup_tags(&dependencies);
        let ghost deps_in = crate::tags::dedup_first(dependencies@);
        proof {
            crate::tags::lemma_dedup_distinct(dependencies@);
            assert forall|i: int| 0 <= i < unique@.len() implies (
            #[trigger] unique@[i]@).len() > 0 && unique@[i]@[0] != ':' by {
                let m = choose|m: int|
                    0 <= m < dependencies@.len() && unique@[i]@ == (
                    #[trigger] dependencies@[m])@;
                assert(valid_tag(dependencies@[m]@));
            }
        }
        let snapshots = build_dependency_snapshots(&mut self.trie, unique, now);
        let ghost value_v = value@;
        let entry = CacheEntry { value, dependencies: snapshots, trie_version: epoch };
        let ghost rec = RecordModel {
            entry: entry@,
            expires_at: deadline_of(
                now,
                if ttl is Some {
                    ttl
                } else {
                    self.default_ttl
                },
            ),
            last_access: now,
        };
        let eff_ttl = match ttl {
            Some(t) => Some(t),
            None => self.default_ttl,
        };
        self.storage.set(key, entry, eff_ttl, now);
        proof {
            assert(stored_entry_ok(t0, value_v, deps_in, eff_ttl, now, rec)) by {
                assert forall|i: int| 0 <= i < deps_in.len() implies snapshot_model_matches(
                    t0,
                    deps_in[i]@,
                    #[trigger] rec.entry.deps[i],
                ) by {
                    assert(rec.entry.deps[i] == crate::codec::dep_model_of(snapshots@[i]));
                    assert(crate::trie::snapshot_matches(t0, deps_in[i]@, snapshots@[i].1));
                }
            }
            assert(self@.storage =~= m0.insert(key@, rec));
        }
        let ghost m1 = self@.storage;
        match self.max_entries {
            Some(max) => {
                let current = self.storage.len();
                if current > max {
                    let extra = if max / 10 > 0 {
                        max / 10
                    } else {
                        1
                    };
                    let to_evict = if current - max <= usize::MAX - extra {
                        current - max + extra
                    } else {
                        usize::MAX
                    };
                    let ghost pre_evict = self@.storage;
                    let evicted = self.storage.evict_lru(to_evict);
                    proof {
                        let n = m1.len() as int;
                        let te = to_evict_of(n, max as int);
                        assert(pre_evict == m1);
                        assert(self@.storage.len() + evicted@.len() == n);
                        if te <= usize::MAX {
                            assert(to_evict == te);
                            if te <= n {
                                if evicted@.len() < to_evict {
                                    assert(self@.storage.len() == 0);
                                    assert(evicted@.len() == n);
                                    assert(false);
                                }
                                assert(evicted@.len() == to_evict);
                            } else {
                                assert(evicted@.len() <= n < te);
                                assert(self@.storage.len() == 0);
                            }
                        } else {
                            assert(to_evict == usize::MAX);
                            assert(n <= usize::MAX < te);
                            if evicted@.len() < to_evict {
                                assert(self@.storage.len() == 0);
                            } else {
                                assert(self@.storage.len() == 0);
                            }
                        }
                        assert(self@.storage.len() == len_after_evict(n, Some(max)));
                        assert(self@.storage.dom().subset_of(m1.dom()));
                        assert forall|p: Seq<char>| #[trigger] self@.storage.dom().contains(p)
                            implies self@.storage[p] == m1[p] by {}
                        // whatever left was accessed no later than any survivor
                        assert forall|p: Seq<char>, q: Seq<char>|
                            #![trigger m1[p], self@.storage[q]]
                            m1.dom().contains(p) && !self@.storage.dom().contains(p)
                                && self@.storage.dom().contains(q) implies m1[p].last_access
                            <= m1[q].last_access by {
                            assert(crate::storage::key_set_of(evicted@).contains(p));
                            let a = choose|a: int|
                                0 <= a < evicted@.len() && (#[trigger] evicted@[a]@) == p;
                            assert(m1[evicted@[a]@].last_access <= m1[q].last_access);
                        }
                    }
                    let ghost t_build = self@.trie;
                    self.trie.prune(0, now);
                    proof {
                        let tp = self@.trie;
                        crate::trie::lemma_versions_unchanged_reads(t0, t_build);
                        assert forall|p: Seq<char>| version_of(tp, p) <= version_of(t0, p) by {
                            if p.len() > 0 && tp.nodes.dom().contains(p) {
                                assert(tp.nodes[p] == t_build.nodes[p]);
                                assert(t_build.nodes.dom().contains(p));
                            }
                        }
                    }
                } else {
                    proof {
                        crate::trie::lemma_versions_unchanged_reads(t0, self@.trie);
                    }
                }
            },
            None => {
                proof {
                    crate::trie::lemma_versions_unchanged_reads(t0, self@.trie);
                }
            },
        }
        proof {
            let eff = if ttl is Some {
                ttl
            } else {
                old(self)@.default_ttl
            };
            assert(eff == eff_ttl);
            let m1g = old(self)@.storage.insert(key@, rec);
            assert(m1 == m1g);
            assert(stored_entry_ok(t0, value_v, deps_in, eff, now, rec));
            crate::tags::lemma_dedup_distinct(dependencies@);
            assert forall|j: int, k: int| 0 <= j < k < rec.entry.deps.len() implies (
            #[trigger] rec.entry.deps[j]).tag != (#[trigger] rec.entry.deps[k]).tag by {
                assert(rec.entry.deps[j].tag == deps_in[j]@);
                assert(rec.entry.deps[k].tag == deps_in[k]@);
            }
            assert(final(self)@.storage.dom().subset_of(m1g.dom()));
            assert(forall|p: Seq<char>|
                #[trigger] final(self)@.storage.dom().contains(p) ==> final(self)@.storage[p]
                    == m1g[p]);
            assert(final(self)@.storage.len() == len_after_evict(
                m1g.len() as int,
                old(self)@.max_entries,
            ));
            assert((old(self)@.max_entries is None || m1g.len() <= old(
                self,
            )@.max_entries->Some_0) ==> final(self)@.storage == m1g && trie_versions_unchanged(
                t0,
                final(self)@.trie,
            ));
            assert(set_post(old(self)@, final(self)@, value_v, deps_in, key@, ttl, now, rec));
        }
        Ok(())
    }
}

impl Core {
    /// Validates the tag, bumps its version, and returns the new version for
    /// the embedding to publish on the bus as `TAG|VERSION`.
    pub fn invalidate(&mut self, tag: &str, now: u64) -> (r: Result<u64, CacheError>)
        requires
            old(self).wf(),
        ensures
            final(self).wf(),
            (r is Ok) == valid_tag(tag@),
            r is Err ==> r == Err::<u64, CacheError>(CacheError::InvalidTag) && final(self)@ == old(
                self,
            )@,
            r is Ok ==> final(self)@ == (CoreModel {
                trie: spec_invalidate(old(self)@.trie, tag@, now),
                ..old(self)@
            }) && r == Ok::<u64, CacheError>(
                version_of(spec_invalidate(old(self)@.trie, tag@, now), tag@),
            ),
    {
        match validate_tag(tag) {
            Ok(_) => {},
            Err(e) => {
                return Err(e);
            },
        }
        let ver = self.trie.invalidate(tag, now);
        proof {
            assert(final(self)@ =~= (CoreModel {
                trie: spec_invalidate(old(self)@.trie, tag@, now),
                ..old(self)@
            }));
        }
        Ok(ver)
    }

    /// Merges a remote version floor for `tag`, as the bus listener does for
    /// each received `TAG|VERSION` payload.
    pub fn set_min_version(&mut self, tag: &str, version: u64, now: u64)
        requires
            old(self).wf(),
            tag@.len() > 0,
            tag@[0] != ':',
        ensures
            final(self).wf(),
            final(self)@ == (CoreModel {
                trie: crate::trie::spec_set_min(old(self)@.trie, tag@, version, now),
                ..old(self)@
            }),
    {
        self.trie.set_min_version(tag, version, now);
        proof {
            assert(final(self)@ =~= (CoreModel {
                trie: crate::trie::spec_set_min(old(self)@.trie, tag@, version, now),
                ..old(self)@
            }));
        }
    }

    /// Empties the storage and the trie; the lifetime epoch stays.
    pub fn clear(&mut self)
        requires
            old(self).wf(),
        ensures
            final(self).wf(),
            final(self)@ == (CoreModel {
                storage: Map::<Seq<char>, RecordModel>::empty(),
                trie: spec_clear(old(self)@.trie),
                ..old(self)@
            }),
    {
        self.storage.clear();
        self.trie.clear();
        proof {
            assert(final(self)@ =~= (CoreModel {
                storage: Map::<Seq<char>, RecordModel>::empty(),
                trie: spec_clear(old(self)@.trie),
                ..old(self)@
            }));
        }
    }

    /// A read that coalesces producers on a miss: a hit is returned, the
    /// first caller on a missing key leads the flight, later callers get the
    /// slot to wait on.
    pub fn get_or_entry(&mut self, key: &str, now: u64) -> (r: GetOrEntry)
        requires
            old(self).wf(),
        ensures
            final(self).wf(),
            (r is Hit) == spec_serves(old(self)@.storage, old(self)@.trie, key@, now),
            r matches GetOrEntry::Hit(v) ==> v@ == old(self)@.storage[key@].entry.value
                && final(self)@.flights == old(self)@.flights,
            final(self)@.storage == spec_get_storage(
                old(self)@.storage,
                old(self)@.trie,
                key@,
                now,
            ),
            final(self)@.trie == old(self)@.trie,
            !(r is Hit) ==> ({
                let entered = spec_try_enter(old(self)@.flights, key@);
                &&& final(self)@.flights == entered.0
                &&& (r matches GetOrEntry::Leader(id) ==> id == entered.1 && entered.2)
                &&& (r matches GetOrEntry::Wait(id) ==> id == entered.1 && !entered.2)
                &&& (r is Leader) == !old(self)@.flights.active.dom().contains(key@)
                &&& entered.1 < final(self)@.flights.flights.len()
            }),
    {
        let hit = self.get(key, now);
        match hit {
            Some(v) => GetOrEntry::Hit(v),
            None => {
                let (id, leader) = self.flights.try_enter_flight(key);
                if leader {
                    GetOrEntry::Leader(id)
                } else {
                    GetOrEntry::Wait(id)
                }
            },
        }
    }

    /// Completes the flight for `key` with the leader's outcome and frees
    /// the key; returns any host completion handle registered on it.
    pub fn finish_flight(&mut self, key: &str, is_error: bool, value: Option<Vec<u8>>) -> (r:
        Option<u64>)
        requires
            old(self).wf(),
        ensures
            final(self).wf(),
            (final(self)@.flights, r) == spec_complete(
                old(self)@.flights,
                key@,
                is_error,
                match value {
                    Some(v) => Some(v@),
                    None => None::<Seq<u8>>,
                },
            ),
            final(self)@ == (CoreModel { flights: final(self)@.flights, ..old(self)@ }),
    {
        let r = self.flights.complete_flight(key, is_error, value);
        proof {
            assert(final(self)@ =~= (CoreModel { flights: final(self)@.flights, ..old(self)@ }));
        }
        r
    }

    /// Registers a host completion handle on the pending flight for `key`.
    pub fn register_flight_future(&mut self, key: &str, handle: u64)
        requires
            old(self).wf(),
        ensures
            final(self).wf(),
            final(self)@.flights.active == old(self)@.flights.active,
            old(self)@.flights.active.dom().contains(key@) ==> final(self)@.flights.flights
                == old(self)@.flights.flights.update(
                old(self)@.flights.active[key@] as int,
                crate::flight::FlightModel {
                    status: old(self)@.flights.flights[old(self)@.flights.active[key@] as int].status,
                    value: old(self)@.flights.flights[old(self)@.flights.active[key@] as int].value,
                    handle: Some(handle),
                },
            ),
            !old(self)@.flights.active.dom().contains(key@) ==> final(self)@ == old(self)@,
            final(self)@ == (CoreModel { flights: final(self)@.flights, ..old(self)@ }),
    {
        self.flights.register_flight_future(key, handle);
        proof {
            assert(final(self)@ =~= (CoreModel { flights: final(self)@.flights, ..old(self)@ }));
        }
    }

    /// What a follower's wait on flight `id` resolves to.
    pub fn resolve_wait(&self, id: usize, timed_out: bool) -> (r: Result<
        Option<Vec<u8>>,
        CacheError,
    >)
        requires
            id < self@.flights.flights.len(),
        ensures
            match r {
                Ok(v) => self@.flights.flights[id as int].status
                    == crate::flight::FlightStatus::Done && (match v {
                    Some(b) => self@.flights.flights[id as int].value == Some(b@),
                    None => self@.flights.flights[id as int].value is None,
                }),
                Err(e) => e == CacheError::FlightLeaderFailed && (self@.flights.flights[
                    id as int
                ].status != crate::flight::FlightStatus::Done || timed_out),
            },
    {
        self.flights.resolve_wait(id, timed_out)
    }

    /// The host completion handle registered on flight `id`, for async
    /// followers to await.
    pub fn flight_handle(&self, id: usize) -> (r: Option<u64>)
        requires
            id < self@.flights.flights.len(),
        ensures
            r == self@.flights.flights[id as int].handle,
    {
        self.flights.flight_handle(id)
    }

    /// The status of flight `id`, as a waiter observes it.
    pub fn flight_status(&self, id: usize) -> (r: crate::flight::FlightStatus)
        requires
            id < self@.flights.flights.len(),
        ensures
            r == self@.flights.flights[id as int].status,
    {
        self.flights.flight_status(id)
    }

    /// The current version of a tag's terminal node.
    pub fn tag_version(&self, tag: &str) -> (v: u64)
        requires
            self.wf(),
        ensures
            v == version_of(self@.trie, tag@),
    {
        self.trie.get_tag_version(tag)
    }

    /// The global epoch of this process.
    pub fn global_version(&self) -> (e: u64)
        ensures
            e == self@.trie.epoch,
    {
        self.trie.get_global_version()
    }

    /// The live entry count of the storage backend.
    pub fn len(&self) -> (n: usize)
        ensures
            n == self@.storage.len(),
    {
        self.storage.len()
    }

    /// How many deferred-maintenance messages were dropped on a full queue.
    pub fn tti_dropped_messages(&self) -> (n: u64)
        ensures
            n == self@.dropped,
    {
        self.dropped_tti_msgs
    }

    /// Defers a metrics flush to the worker.
    pub fn flush_metrics(&mut self)
        ensures
            final(self).wf() == old(self).wf(),
            final(self)@ == (CoreModel {
                pending: spec_send(
                    old(self)@.pending,
                    old(self)@.dropped,
                    old(self)@.worker_enabled,
                    MsgModel::FlushMetrics,
                ).0,
                dropped: spec_send(
                    old(self)@.pending,
                    old(self)@.dropped,
                    old(self)@.worker_enabled,
                    MsgModel::FlushMetrics,
                ).1,
                ..old(self)@
            }),
    {
        self.send_tti_msg(WorkerMsg::FlushMetrics);
    }

    /// Defers a trie prune to the worker.
    pub fn request_prune(&mut self, max_age_secs: u64)
        ensures
            final(self).wf() == old(self).wf(),
            final(self)@ == (CoreModel {
                pending: spec_send(
                    old(self)@.pending,
                    old(self)@.dropped,
                    old(self)@.worker_enabled,
                    MsgModel::Prune(max_age_secs),
                ).0,
                dropped: spec_send(
                    old(self)@.pending,
                    old(self)@.dropped,
                    old(self)@.worker_enabled,
                    MsgModel::Prune(max_age_secs),
                ).1,
                ..old(self)@
            }),
    {
        self.send_tti_msg(WorkerMsg::Prune(max_age_secs));
    }

    /// Prunes trie subtrees idle for `max_age_secs`, on the spot.
    pub fn prune(&mut self, max_age_secs: u64, now: u64)
        requires
            old(self).wf(),
        ensures
            final(self).wf(),
            final(self)@ == (CoreModel {
                trie: spec_prune(
                    old(self)@.trie,
                    if now >= max_age_secs {
                        (now - max_age_secs) as u64
                    } else {
                        0
                    },
                ),
                ..old(self)@
            }),
    {
        self.trie.prune(max_age_secs, now);
        proof {
            assert(final(self)@ =~= (CoreModel { trie: final(self)@.trie, ..old(self)@ }));
        }
    }

    /// Applies a drained batch of touches to the storage, as the worker's
    /// embedding does after a flush.
    pub fn apply_touch_batch(&mut self, updates: &Vec<(String, Option<u64>)>, now: u64)
        requires
            old(self).wf(),
        ensures
            final(self).wf(),
            final(self)@ == (CoreModel {
                storage: crate::storage::spec_touch_batch(old(self)@.storage, updates@, now),
                ..old(self)@
            }),
    {
        self.storage.touch_batch(updates, now);
        proof {
            assert(final(self)@ =~= (CoreModel { storage: final(self)@.storage, ..old(self)@ }));
        }
    }

    /// Applies a deferred delete to the storage.
    pub fn apply_remove(&mut self, key: &str)
        requires
            old(self).wf(),
        ensures
            final(self).wf(),
            final(self)@ == (CoreModel {
                storage: old(self)@.storage.remove(key@),
                ..old(self)@
            }),
    {
        self.storage.remove(key);
        proof {
            assert(final(self)@ =~= (CoreModel { storage: final(self)@.storage, ..old(self)@ }));
        }
    }

    /// Applies a deferred rewrite of pre-serialized bytes to the storage;
    /// bytes that do not decode are `Corrupted` and change nothing.
    pub fn apply_set_raw(&mut self, key: &str, data: &[u8], ttl: Option<u64>, now: u64) -> (r:
        Result<(), CacheError>)
        requires
            old(self).wf(),
        ensures
            final(self).wf(),
            match crate::codec::spec_deserialize(data@) {
                Some(em) => r is Ok && final(self)@ == (CoreModel {
                    storage: old(self)@.storage.insert(
                        key@,
                        RecordModel {
                            entry: em,
                            expires_at: deadline_of(now, ttl),
                            last_access: now,
                        },
                    ),
                    ..old(self)@
                }),
                None => r == Err::<(), CacheError>(CacheError::Corrupted) && final(self)@ == old(
                    self,
                )@,
            },
    {
        let r = self.storage.set_raw(key, data, ttl, now);
        proof {
            assert(final(self)@ =~= (CoreModel { storage: final(self)@.storage, ..old(self)@ }));
        }
        r
    }

    /// The configured single-flight wait bound, in seconds.
    pub fn flight_timeout(&self) -> (t: u64)
        ensures
            t == self@.flight_timeout,
    {
        self.flight_timeout
    }
}

/// What a read should do with a live record fetched from a storage backend.
pub enum HitDecision {
    /// Some prefix of a dependency moved past its snapshot: remove the
    /// record and report a miss.
    Stale,
    /// Written at the current epoch: serve as is.
    ServeFresh,
    /// Still valid but older than the epoch: serve, and rewrite the record
    /// with these bytes under the remaining TTL.
    ServeAndRewrite(Vec<u8>, Option<u64>),
    /// Still valid: serve and record the access.
    ServeAndTouch(Option<u64>),
}

impl Core {
    /// Decides the fate of a record a backend returned as a live hit: the
    /// epoch fast path, dependency validation, and the deferred rewrite or
    /// touch, exactly as the in-process `get` does. Embeddings around
    /// network or file backends fetch the bytes and act on the decision.
    pub fn evaluate_hit(
        trie: &PrefixTrie,
        entry: &CacheEntry,
        expires_at: Option<u64>,
        now: u64,
        default_ttl: Option<u64>,
    ) -> (r: HitDecision)
        requires
            trie.wf(),
        ensures
            entry_fresh(trie@, entry@) ==> r is ServeFresh,
            !entry_fresh(trie@, entry@) && !entry_deps_valid(trie@, entry@) ==> r is Stale,
            !entry_fresh(trie@, entry@) && entry_deps_valid(trie@, entry@)
                && entry@.trie_version < trie@.epoch ==> (r matches HitDecision::ServeAndRewrite(
                bytes,
                ttl,
            ) && bytes@ == magic_seq() + lz4_block_of(
                encode_payload(
                    EntryModel {
                        value: entry@.value,
                        deps: entry@.deps,
                        trie_version: trie@.epoch,
                    },
                ),
            ) && ttl == remaining_ttl(expires_at, now)),
            !entry_fresh(trie@, entry@) && entry_deps_valid(trie@, entry@)
                && entry@.trie_version > trie@.epoch ==> r == HitDecision::ServeAndTouch(
                default_ttl,
            ),
    {
        let epoch = trie.get_global_version();
        if entry.trie_version == epoch {
            return HitDecision::ServeFresh;
        }
        let shape_ok = deps_shape_ok(&entry.dependencies);
        let valid = shape_ok && validate_dependencies(trie, &entry.dependencies);
        proof {
            assert(valid == entry_deps_valid(trie@, entry@)) by {
                let e = entry@;
                if shape_ok {
                    if valid {
                        assert forall|k: int| 0 <= k < e.deps.len() implies dep_shape_ok(
                            #[trigger] e.deps[k],
                        ) && dep_snapshot_valid(trie@, e.deps[k]) by {
                            assert(e.deps[k] == crate::codec::dep_model_of(
                                entry.dependencies@[k],
                            ));
                        }
                    } else {
                        let k = choose|k: int|
                            0 <= k < entry.dependencies@.len() && !spec_path_valid(
                                trie@,
                                (#[trigger] entry.dependencies@[k]).1.parts.deep_view(),
                                entry.dependencies@[k].1.path_versions@,
                            );
                        assert(!dep_snapshot_valid(trie@, e.deps[k]));
                    }
                } else {
                    let k = choose|k: int|
                        0 <= k < entry.dependencies@.len() && !snapshot_wf(
                            (#[trigger] entry.dependencies@[k]).1,
                        );
                    assert(!dep_shape_ok(e.deps[k]));
                }
            }
        }
        if !valid {
            return HitDecision::Stale;
        }
        if entry.trie_version < epoch {
            let mut updated = entry.clone();
            updated.trie_version = epoch;
            let data = updated.serialize();
            let ttl = match expires_at {
                Some(deadline) => if deadline >= now {
                    if deadline - now == 0 {
                        Some(1)
                    } else {
                        Some(deadline - now)
                    }
                } else {
                    None
                },
                None => None,
            };
            proof {
                assert(updated@ =~= (EntryModel {
                    value: entry@.value,
                    deps: entry@.deps,
                    trie_version: trie@.epoch,
                }));
            }
            HitDecision::ServeAndRewrite(data, ttl)
        } else {
            HitDecision::ServeAndTouch(default_ttl)
        }
    }
}

/// Every snapshot in the list has a usable shape.
fn deps_shape_ok(deps: &Vec<(String, DepSnapshot)>) -> (r: bool)
    ensures
        r == forall|k: int| 0 <= k < deps@.len() ==> snapshot_wf((#[trigger] deps@[k]).1),
{
    let mut k: usize = 0;
    while k < deps.len()
        invariant
            k <= deps.len(),
            forall|i: int| 0 <= i < k ==> snapshot_wf((#[trigger] deps@[i]).1),
        decreases deps.len() - k,
    {
        let snap = &deps[k].1;
        let pv_len = snap.path_versions.len();
        let parts_len = snap.parts.len();
        if pv_len < 1 || pv_len - 1 != parts_len {
            return false;
        }
        if snap.parts.len() > 0 {
            if snap.parts[0].as_str().unicode_len() == 0 {
                proof {
                    assert(snap.parts.deep_view()[0] == snap.parts@[0]@);
                }
                return false;
            }
            proof {
                assert(snap.parts.deep_view()[0] == snap.parts@[0]@);
            }
        }
        k = k + 1;
    }
    true
}

} // verus!
