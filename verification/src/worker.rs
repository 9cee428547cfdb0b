//! Maintenance worker state machine: batches LRU touches (coalesced per key
//! within a window), forwards deletes and rewrites, and schedules periodic
//! trie pruning. The embedding runs the receive loop and performs the
//! returned actions; the decisions live here.

use vstd::prelude::*;

use crate::cache::{MsgModel, WorkerMsg};
use crate::strmap::StrMap;

verus! {

/// The bounded recency cache the worker coalesces touches with; it wraps
/// the outside crate's LRU cache, which Verus sees only through the named
/// contents below.
#[verifier::external_body]
pub struct TouchCache {
    inner: lru::LruCache<String, u64>,
}

/// Names what the bounded recency cache holds: a map from key to stored
/// stamp.
pub uninterp spec fn lru_contents(c: TouchCache) -> Map<Seq<char>, u64>;

/// No touches recorded yet.
pub open spec fn no_touches() -> Map<Seq<char>, u64> {
    Map::empty()
}

/// Relies on lru::LruCache::new: an empty cache, sized for ten thousand
/// recent touches.
#[verifier::external_body]
fn lru_new() -> (r: TouchCache)
    ensures
        lru_contents(r) == no_touches(),
{
    TouchCache { inner: lru::LruCache::new(std::num::NonZeroUsize::new(10000).unwrap()) }
}

/// Relies on lru::LruCache::get: returns the stored value for the key and
/// only refreshes its recency; the contents stay.
#[verifier::external_body]
fn lru_get(c: &mut TouchCache, k: &String) -> (r: Option<u64>)
    ensures
        lru_contents(*final(c)) == lru_contents(*old(c)),
        r == (if lru_contents(*old(c)).dom().contains(k@) {
            Some(lru_contents(*old(c))[k@])
        } else {
            None::<u64>
        }),
{
    c.inner.get(k).copied()
}

/// Relies on lru::LruCache::put: stores the pair; at capacity the least
/// recently used entry leaves, so every surviving other key keeps its value.
#[verifier::external_body]
fn lru_put(c: &mut TouchCache, k: String, v: u64)
    ensures
        lru_contents(*final(c)).dom().contains(k@),
        lru_contents(*final(c))[k@] == v,
        forall|p: Seq<char>|
            p != k@ && #[trigger] lru_contents(*final(c)).dom().contains(p) ==> lru_contents(
                *old(c),
            ).dom().contains(p) && lru_contents(*final(c))[p] == lru_contents(*old(c))[p],
{
    c.inner.put(k, v);
}

/// An operation the worker asks the embedding to perform.
pub enum WorkerAction {
    /// Apply a drained batch of touches to the storage backend.
    TouchBatch(Vec<(String, Option<u64>)>),
    /// Remove a key.
    Remove(String),
    /// Rewrite a key with pre-serialized bytes.
    SetRaw(String, Vec<u8>, Option<u64>),
    /// Prune trie subtrees idle for this many seconds.
    PruneTrie(u64),
    /// Flush accumulated metrics to storage and bus.
    FlushMetrics,
}

/// Mathematical content of a worker action.
pub ghost enum ActionModel {
    TouchBatch(Seq<(Seq<char>, Option<u64>)>),
    Remove(Seq<char>),
    SetRaw(Seq<char>, Seq<u8>, Option<u64>),
    PruneTrie(u64),
    FlushMetrics,
}

impl View for WorkerAction {
    type V = ActionModel;

    open spec fn view(&self) -> ActionModel {
        match self {
            WorkerAction::TouchBatch(items) => ActionModel::TouchBatch(
                Seq::new(items@.len(), |i: int| (items@[i].0@, items@[i].1)),
            ),
            WorkerAction::Remove(k) => ActionModel::Remove(k@),
            WorkerAction::SetRaw(k, data, ttl) => ActionModel::SetRaw(k@, data@, *ttl),
            WorkerAction::PruneTrie(age) => ActionModel::PruneTrie(*age),
            WorkerAction::FlushMetrics => ActionModel::FlushMetrics,
        }
    }
}

/// Seconds elapsed since `since` at `now`; a clock running backwards reads
/// as no time passed.
pub open spec fn elapsed(since: u64, now: u64) -> int {
    if now >= since {
        now - since
    } else {
        0
    }
}

/// Mathematical content of the worker.
#[verifier::ext_equal]
pub ghost struct WorkerModel {
    pub touches: Map<Seq<char>, u64>,
    pub batch: Map<Seq<char>, Option<u64>>,
    pub last_flush: u64,
    pub last_auto_prune: u64,
    pub lru_update_interval: u64,
    pub flush_secs: u64,
    pub auto_prune_interval: u64,
    pub auto_prune_age: u64,
}

/// A drained batch lists every coalesced touch exactly once.
pub open spec fn drained_matches(
    b: Map<Seq<char>, Option<u64>>,
    items: Seq<(String, Option<u64>)>,
) -> bool {
    &&& forall|i: int, j: int|
        0 <= i < j < items.len() ==> (#[trigger] items[i].0@) != (#[trigger] items[j].0@)
    &&& forall|i: int|
        0 <= i < items.len() ==> b.dom().contains((#[trigger] items[i]).0@) && b[items[i].0@]
            == items[i].1
    &&& forall|p: Seq<char>|
        #[trigger] b.dom().contains(p) ==> exists|i: int|
            0 <= i < items.len() && (#[trigger] items[i].0@) == p
}

/// Whether the tail of a step flushes the touch batch and/or auto-prunes.
pub open spec fn flush_due(w: WorkerModel, now: u64) -> bool {
    (w.batch.len() >= 1000 || elapsed(w.last_flush, now) > w.flush_secs) && w.batch.len() > 0
}

pub open spec fn prune_due(w: WorkerModel, now: u64) -> bool {
    elapsed(w.last_auto_prune, now) > w.auto_prune_interval
}

/// The flush-and-prune tail every loop turn runs: a due flush drains the
/// whole batch into one `TouchBatch` action; a due auto-prune appends a
/// `PruneTrie` action.
pub open spec fn maintenance_post(
    w0: WorkerModel,
    w1: WorkerModel,
    now: u64,
    appended: Seq<ActionModel>,
) -> bool {
    &&& w1.touches == w0.touches
    &&& w1.batch == (if flush_due(w0, now) {
        Map::<Seq<char>, Option<u64>>::empty()
    } else {
        w0.batch
    })
    &&& w1.last_flush == (if flush_due(w0, now) {
        now
    } else {
        w0.last_flush
    })
    &&& w1.last_auto_prune == (if prune_due(w0, now) {
        now
    } else {
        w0.last_auto_prune
    })
    &&& w1.lru_update_interval == w0.lru_update_interval
    &&& w1.flush_secs == w0.flush_secs
    &&& w1.auto_prune_interval == w0.auto_prune_interval
    &&& w1.auto_prune_age == w0.auto_prune_age
    &&& (if flush_due(w0, now) {
        &&& appended.len() == (if prune_due(w0, now) {
            2int
        } else {
            1int
        })
        &&& (appended[0] matches ActionModel::TouchBatch(items) && exists|
            v: Vec<(String, Option<u64>)>,
        |
            {
                &&& #[trigger] drained_matches(w0.batch, v@)
                &&& items == Seq::new(v@.len(), |i: int| (v@[i].0@, v@[i].1))
            })
        &&& (prune_due(w0, now) ==> appended[1] == ActionModel::PruneTrie(w0.auto_prune_age))
    } else if prune_due(w0, now) {
        appended == seq![ActionModel::PruneTrie(w0.auto_prune_age)]
    } else {
        appended == Seq::<ActionModel>::empty()
    })
}

/// The first half of a non-coalesced touch: the pair joins the batch, the
/// key's stamp becomes `now`, other stamps survive unchanged or leave with
/// the cache's bounded capacity; clocks and configuration stay.
pub open spec fn touch_applied(
    w0: WorkerModel,
    wmid: WorkerModel,
    k: Seq<char>,
    ttl: Option<u64>,
    now: u64,
) -> bool {
    &&& wmid.batch == w0.batch.insert(k, ttl)
    &&& wmid.touches.dom().contains(k)
    &&& wmid.touches[k] == now
    &&& (forall|p: Seq<char>|
        p != k && #[trigger] wmid.touches.dom().contains(p) ==> w0.touches.dom().contains(p)
            && wmid.touches[p] == w0.touches[p])
    &&& wmid.last_flush == w0.last_flush
    &&& wmid.last_auto_prune == w0.last_auto_prune
    &&& wmid.lru_update_interval == w0.lru_update_interval
    &&& wmid.flush_secs == w0.flush_secs
    &&& wmid.auto_prune_interval == w0.auto_prune_interval
    &&& wmid.auto_prune_age == w0.auto_prune_age
}

/// A touch of this key at `now` is coalesced away: the key was touched
/// within the update interval.
pub open spec fn touch_coalesced(w: WorkerModel, key: Seq<char>, now: u64) -> bool {
    w.touches.dom().contains(key) && elapsed(w.touches[key], now) < w.lru_update_interval
}

/// The maintenance worker's state.
pub struct WorkerState {
    last_touches: TouchCache,
    batch: StrMap<Option<u64>>,
    last_flush: u64,
    last_auto_prune: u64,
    lru_update_interval: u64,
    flush_secs: u64,
    auto_prune_interval: u64,
    auto_prune_age: u64,
}

impl View for WorkerState {
    type V = WorkerModel;

    closed spec fn view(&self) -> WorkerModel {
        WorkerModel {
            touches: lru_contents(self.last_touches),
            batch: self.batch@,
            last_flush: self.last_flush,
            last_auto_prune: self.last_auto_prune,
            lru_update_interval: self.lru_update_interval,
            flush_secs: self.flush_secs,
            auto_prune_interval: self.auto_prune_interval,
            auto_prune_age: self.auto_prune_age,
        }
    }
}

impl WorkerState {
    pub closed spec fn wf(&self) -> bool {
        self.batch.wf()
    }

    /// A fresh worker: empty coalescing cache and batch, both clocks at
    /// `now`.
    pub fn new(
        now: u64,
        lru_update_interval: u64,
        flush_secs: u64,
        auto_prune_interval: u64,
        auto_prune_age: u64,
    ) -> (r: WorkerState)
        ensures
            r.wf(),
            r@ == (WorkerModel {
                touches: Map::<Seq<char>, u64>::empty(),
                batch: Map::<Seq<char>, Option<u64>>::empty(),
                last_flush: now,
                last_auto_prune: now,
                lru_update_interval,
                flush_secs,
                auto_prune_interval,
                auto_prune_age,
            }),
    {
        let r = WorkerState {
            last_touches: lru_new(),
            batch: StrMap::new(),
            last_flush: now,
            last_auto_prune: now,
            lru_update_interval,
            flush_secs,
            auto_prune_interval,
            auto_prune_age,
        };
        proof {
            assert(r@ =~= (WorkerModel {
                touches: Map::<Seq<char>, u64>::empty(),
                batch: Map::<Seq<char>, Option<u64>>::empty(),
                last_flush: now,
                last_auto_prune: now,
                lru_update_interval,
                flush_secs,
                auto_prune_interval,
                auto_prune_age,
            }));
        }
        r
    }

    /// Drains the coalesced batch into a list, one item per key.
    fn drain_batch(&mut self) -> (items: Vec<(String, Option<u64>)>)
        requires
            old(self).wf(),
        ensures
            final(self).wf(),
            final(self)@ == (WorkerModel {
                batch: Map::<Seq<char>, Option<u64>>::empty(),
                ..old(self)@
            }),
            drained_matches(old(self)@.batch, items@),
    {
        let mut items: Vec<(String, Option<u64>)> = Vec::new();
        proof {
            self.batch.lemma_key_seq();
        }
        let ghost ks = self.batch.key_seq();
        let n = self.batch.key_count();
        let mut i: usize = 0;
        while i < n
            invariant
                self.wf(),
                self@ == old(self)@,
                ks == self.batch.key_seq(),
                n == ks.len(),
                i <= n,
                items@.len() == i,
                forall|j: int| 0 <= j < i ==> (#[trigger] items@[j].0@) == ks[j],
                forall|j: int|
                    0 <= j < i ==> self.batch@.dom().contains((#[trigger] items@[j]).0@)
                        && self.batch@[items@[j].0@] == items@[j].1,
                forall|a: int, b: int| 0 <= a < b < n ==> ks[a] != ks[b],
                forall|a: int| 0 <= a < n ==> self.batch@.dom().contains(#[trigger] ks[a]),
                forall|p: Seq<char>|
                    #[trigger] self.batch@.dom().contains(p) ==> exists|a: int|
                        0 <= a < n && #[trigger] ks[a] == p,
            decreases n - i,
        {
            let k = self.batch.key_at(i).clone();
            let ttl: Option<u64> = match self.batch.get(k.as_str()) {
                Some(t) => *t,
                None => {
                    proof {
                        assert(false);
                    }
                    None
                },
            };
            items.push((k, ttl));
            i = i + 1;
        }
        self.batch.clear();
        proof {
            assert(final(self)@ =~= (WorkerModel {
                batch: Map::<Seq<char>, Option<u64>>::empty(),
                ..old(self)@
            }));
            assert forall|p: Seq<char>| #[trigger] old(self)@.batch.dom().contains(p)
                implies exists|j: int| 0 <= j < items@.len() && (#[trigger] items@[j].0@)
                == p by {
                let a = choose|a: int| 0 <= a < n && (#[trigger] ks[a]) == p;
                assert(items@[a].0@ == p);
            }
        }
        items
    }

    /// The flush-and-prune tail of every loop turn.
    fn maintenance(&mut self, now: u64, actions: &mut Vec<WorkerAction>)
        requires
            old(self).wf(),
        ensures
            final(self).wf(),
            final(actions)@.len() >= old(actions)@.len(),
            final(actions)@.take(old(actions)@.len() as int) == old(actions)@,
            maintenance_post(
                old(self)@,
                final(self)@,
                now,
                Seq::new(
                    (final(actions)@.len() - old(actions)@.len()) as nat,
                    |i: int| final(actions)@[old(actions)@.len() + i]@,
                ),
            ),
    {
        let ghost w0 = self@;
        let ghost base = actions@;
        let blen = self.batch.len();
        let els = if now >= self.last_flush {
            now - self.last_flush
        } else {
            0
        };
        if (blen >= 1000 || els > self.flush_secs) && blen > 0 {
            let items = self.drain_batch();
            let ghost items_view = items@;
            actions.push(WorkerAction::TouchBatch(items));
            self.last_flush = now;
            proof {
                assert(flush_due(w0, now));
                assert(actions@[base.len() as int]@ matches ActionModel::TouchBatch(its)
                    && its == Seq::new(items_view.len(), |i: int| (items_view[i].0@,
                items_view[i].1)));
            }
        } else {
            proof {
                assert(!flush_due(w0, now));
            }
        }
        let elp = if now >= self.last_auto_prune {
            now - self.last_auto_prune
        } else {
            0
        };
        if elp > self.auto_prune_interval {
            actions.push(WorkerAction::PruneTrie(self.auto_prune_age));
            self.last_auto_prune = now;
        }
        proof {
            assert(final(actions)@.take(base.len() as int) =~= base);
            let appended = Seq::new(
                (final(actions)@.len() - base.len()) as nat,
                |i: int| final(actions)@[base.len() + i]@,
            );
            if flush_due(w0, now) {
                if prune_due(w0, now) {
                    assert(appended.len() == 2);
                } else {
                    assert(appended.len() == 1);
                }
            } else if prune_due(w0, now) {
                assert(appended =~= seq![ActionModel::PruneTrie(w0.auto_prune_age)]);
            } else {
                assert(appended =~= Seq::<ActionModel>::empty());
            }
            assert(final(self)@ =~= (WorkerModel {
                batch: if flush_due(w0, now) {
                    Map::<Seq<char>, Option<u64>>::empty()
                } else {
                    w0.batch
                },
                last_flush: if flush_due(w0, now) {
                    now
                } else {
                    w0.last_flush
                },
                last_auto_prune: if prune_due(w0, now) {
                    now
                } else {
                    w0.last_auto_prune
                },
                ..w0
            }));
        }
    }

    /// Handles one message at `now` and returns the actions to perform. A
    /// touch of a key already touched within `lru_update_interval` is
    /// dropped whole: over a window, the backend receives at most one touch
    /// per key.
    pub fn step(&mut self, msg: WorkerMsg, now: u64) -> (actions: Vec<WorkerAction>)
        requires
            old(self).wf(),
        ensures
            final(self).wf(),
            ({
                let w0 = old(self)@;
                let w1 = final(self)@;
                match msg@ {
                    MsgModel::Touch(k, ttl) => {
                        if touch_coalesced(w0, k, now) {
                            w1 == w0 && actions@ == Seq::<WorkerAction>::empty()
                        } else {
                            exists|wmid: WorkerModel|
                                #[trigger] touch_applied(w0, wmid, k, ttl, now)
                                    && maintenance_post(
                                    wmid,
                                    w1,
                                    now,
                                    Seq::new(actions@.len(), |i: int| actions@[i]@),
                                )
                        }
                    },
                    MsgModel::Prune(age) => actions@.len() >= 1 && actions@[0]@
                        == ActionModel::PruneTrie(age) && maintenance_post(
                        w0,
                        w1,
                        now,
                        Seq::new((actions@.len() - 1) as nat, |i: int| actions@[1 + i]@),
                    ),
                    MsgModel::Delete(k) => actions@.len() >= 1 && actions@[0]@
                        == ActionModel::Remove(k) && maintenance_post(
                        w0,
                        w1,
                        now,
                        Seq::new((actions@.len() - 1) as nat, |i: int| actions@[1 + i]@),
                    ),
                    MsgModel::Update(k, data, ttl) => actions@.len() >= 1 && actions@[0]@
                        == ActionModel::SetRaw(k, data, ttl) && maintenance_post(
                        w0,
                        w1,
                        now,
                        Seq::new((actions@.len() - 1) as nat, |i: int| actions@[1 + i]@),
                    ),
                    MsgModel::FlushMetrics => actions@.len() >= 1 && actions@[0]@
                        == ActionModel::FlushMetrics && maintenance_post(
                        w0,
                        w1,
                        now,
                        Seq::new((actions@.len() - 1) as nat, |i: int| actions@[1 + i]@),
                    ),
                }
            }),
    {
        let ghost w0 = self@;
        let mut actions: Vec<WorkerAction> = Vec::new();
        match msg {
            WorkerMsg::Touch(key, ttl) => {
                let last = lru_get(&mut self.last_touches, &key);
                let coalesced = match last {
                    Some(t) => {
                        let e = if now >= t {
                            now - t
                        } else {
                            0
                        };
                        e < self.lru_update_interval
                    },
                    None => false,
                };
                if coalesced {
                    proof {
                        assert(touch_coalesced(w0, key@, now));
                        assert(final(self)@ =~= w0);
                        assert(actions@ =~= Seq::<WorkerAction>::empty());
                    }
                    return actions;
                }
                proof {
                    assert(!touch_coalesced(w0, key@, now));
                }
                self.batch.insert(key.clone(), ttl);
                lru_put(&mut self.last_touches, key, now);
                let ghost wmid = self@;
                self.maintenance(now, &mut actions);
                proof {
                    assert(touch_applied(w0, wmid, key@, ttl, now));
                    assert(Seq::new(actions@.len(), |i: int| actions@[i]@) =~= Seq::new(
                        (actions@.len() - 0) as nat,
                        |i: int| actions@[0 + i]@,
                    ));
                }
            },
            WorkerMsg::Prune(age) => {
                actions.push(WorkerAction::PruneTrie(age));
                let ghost pre = actions@;
                self.maintenance(now, &mut actions);
                proof {
                    assert(actions@[0] == pre[0]);
                    assert(Seq::new((actions@.len() - 1) as nat, |i: int| actions@[1 + i]@)
                        =~= Seq::new(
                        (actions@.len() - pre.len()) as nat,
                        |i: int| actions@[pre.len() + i]@,
                    ));
                }
            },
            WorkerMsg::Delete(key) => {
                actions.push(WorkerAction::Remove(key));
                let ghost pre = actions@;
                self.maintenance(now, &mut actions);
                proof {
                    assert(actions@[0] == pre[0]);
                    assert(Seq::new((actions@.len() - 1) as nat, |i: int| actions@[1 + i]@)
                        =~= Seq::new(
                        (actions@.len() - pre.len()) as nat,
                        |i: int| actions@[pre.len() + i]@,
                    ));
                }
            },
            WorkerMsg::Update(key, data, ttl) => {
                actions.push(WorkerAction::SetRaw(key, data, ttl));
                let ghost pre = actions@;
                self.maintenance(now, &mut actions);
                proof {
                    assert(actions@[0] == pre[0]);
                    assert(Seq::new((actions@.len() - 1) as nat, |i: int| actions@[1 + i]@)
                        =~= Seq::new(
                        (actions@.len() - pre.len()) as nat,
                        |i: int| actions@[pre.len() + i]@,
                    ));
                }
            },
            WorkerMsg::FlushMetrics => {
                actions.push(WorkerAction::FlushMetrics);
                let ghost pre = actions@;
                self.maintenance(now, &mut actions);
                proof {
                    assert(actions@[0] == pre[0]);
                    assert(Seq::new((actions@.len() - 1) as nat, |i: int| actions@[1 + i]@)
                        =~= Seq::new(
                        (actions@.len() - pre.len()) as nat,
                        |i: int| actions@[pre.len() + i]@,
                    ));
                }
            },
        }
        actions
    }

    /// The one-second receive-timeout turn: no message, only the flush and
    /// auto-prune checks.
    pub fn tick(&mut self, now: u64) -> (actions: Vec<WorkerAction>)
        requires
            old(self).wf(),
        ensures
            final(self).wf(),
            maintenance_post(
                old(self)@,
                final(self)@,
                now,
                Seq::new(actions@.len(), |i: int| actions@[i]@),
            ),
    {
        let mut actions: Vec<WorkerAction> = Vec::new();
        self.maintenance(now, &mut actions);
        proof {
            assert(Seq::new(actions@.len(), |i: int| actions@[i]@) =~= Seq::new(
                (actions@.len() - 0) as nat,
                |i: int| actions@[0 + i]@,
            ));
        }
        actions
    }
}

} // verus!
