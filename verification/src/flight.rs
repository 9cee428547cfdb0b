//! Single-flight registry: per-key flights with leader election, so at most
//! one concurrent producer computes a missing key. Followers share the
//! leader's flight and observe its final state; the embedding does the
//! blocking, the registry owns the state machine.

use vstd::prelude::*;

use crate::errors::CacheError;
use crate::strmap::StrMap;
use crate::utils::clone_byte_vec;

verus! {

/// A flight moves from `Pending` to exactly one of `Done` or `Error`.
#[derive(Clone, Copy, Debug, PartialEq, Eq, Structural)]
pub enum FlightStatus {
    Pending,
    Done,
    Error,
}

/// One flight: its state, the leader's value once done, and an optional
/// host-registered completion handle.
pub struct Flight {
    pub status: FlightStatus,
    pub value: Option<Vec<u8>>,
    pub handle: Option<u64>,
}

/// Mathematical content of a flight.
#[verifier::ext_equal]
pub ghost struct FlightModel {
    pub status: FlightStatus,
    pub value: Option<Seq<u8>>,
    pub handle: Option<u64>,
}

impl View for Flight {
    type V = FlightModel;

    open spec fn view(&self) -> FlightModel {
        FlightModel {
            status: self.status,
            value: match self.value {
                Some(ref v) => Some(v@),
                None => None,
            },
            handle: self.handle,
        }
    }
}

/// Mathematical content of the registry: every flight ever started, and the
/// active (pending) flight per key.
#[verifier::ext_equal]
pub ghost struct RegistryModel {
    pub flights: Seq<FlightModel>,
    pub active: Map<Seq<char>, usize>,
}

/// Result of `spec_try_enter`: the new registry, the flight's slot, and
/// whether the caller leads it.
pub open spec fn spec_try_enter(m: RegistryModel, key: Seq<char>) -> (RegistryModel, usize, bool) {
    if m.active.dom().contains(key) {
        (m, m.active[key], false)
    } else {
        (
            RegistryModel {
                flights: m.flights.push(
                    FlightModel { status: FlightStatus::Pending, value: None, handle: None },
                ),
                active: m.active.insert(key, m.flights.len() as usize),
            },
            m.flights.len() as usize,
            true,
        )
    }
}

/// Result of `spec_complete`: the new registry and the handle that had been
/// registered on the completed flight, if any.
pub open spec fn spec_complete(
    m: RegistryModel,
    key: Seq<char>,
    is_error: bool,
    value: Option<Seq<u8>>,
) -> (RegistryModel, Option<u64>) {
    if m.active.dom().contains(key) {
        let id = m.active[key];
        (
            RegistryModel {
                flights: m.flights.update(
                    id as int,
                    FlightModel {
                        status: if is_error {
                            FlightStatus::Error
                        } else {
                            FlightStatus::Done
                        },
                        value,
                        handle: m.flights[id as int].handle,
                    },
                ),
                active: m.active.remove(key),
            },
            m.flights[id as int].handle,
        )
    } else {
        (m, None)
    }
}

/// The per-key flight coalescing mechanism.
pub struct FlightRegistry {
    flights: Vec<Flight>,
    active: StrMap<usize>,
}

impl View for FlightRegistry {
    type V = RegistryModel;

    closed spec fn view(&self) -> RegistryModel {
        RegistryModel {
            flights: Seq::new(self.flights@.len(), |i: int| self.flights@[i]@),
            active: self.active@,
        }
    }
}

/// Every active flight exists and is pending: at most one leader per key at
/// any instant.
pub open spec fn registry_inv(m: RegistryModel) -> bool {
    &&& forall|k: Seq<char>|
        #[trigger] m.active.dom().contains(k) ==> m.active[k] < m.flights.len()
            && m.flights[m.active[k] as int].status == FlightStatus::Pending
    &&& forall|k1: Seq<char>, k2: Seq<char>|
        #[trigger] m.active.dom().contains(k1) && #[trigger] m.active.dom().contains(k2) && k1
            != k2 ==> m.active[k1] != m.active[k2]
}

impl FlightRegistry {
    pub closed spec fn wf(&self) -> bool {
        self.active.wf()
    }

    pub fn new() -> (r: Self)
        ensures
            r.wf(),
            registry_inv(r@),
            r@.flights == Seq::<FlightModel>::empty(),
            r@.active == Map::<Seq<char>, usize>::empty(),
    {
        let r = FlightRegistry { flights: Vec::new(), active: StrMap::new() };
        proof {
            assert(r@.flights =~= Seq::<FlightModel>::empty());
        }
        r
    }

    /// Joins or starts the flight for `key`: the first caller per missing
    /// key becomes the leader, all later callers share its flight.
    pub fn try_enter_flight(&mut self, key: &str) -> (r: (usize, bool))
        requires
            old(self).wf(),
            registry_inv(old(self)@),
        ensures
            final(self).wf(),
            registry_inv(final(self)@),
            (final(self)@, r.0, r.1) == spec_try_enter(old(self)@, key@),
            r.1 <==> !old(self)@.active.dom().contains(key@),
            r.0 < final(self)@.flights.len(),
            final(self)@.active.dom().contains(key@),
            final(self)@.active[key@] == r.0,
            final(self)@.flights[r.0 as int].status == FlightStatus::Pending,
    {
        match self.active.get(key) {
            Some(id) => {
                let id = *id;
                proof {
                    assert((final(self)@, id, false) =~= spec_try_enter(old(self)@, key@));
                }
                (id, false)
            },
            None => {
                let id = self.flights.len();
                self.flights.push(
                    Flight { status: FlightStatus::Pending, value: None, handle: None },
                );
                self.active.insert(key.to_owned(), id);
                proof {
                    assert(self@.flights =~= old(self)@.flights.push(
                        FlightModel { status: FlightStatus::Pending, value: None, handle: None },
                    ));
                    assert((final(self)@, id, true) =~= spec_try_enter(old(self)@, key@));
                }
                (id, true)
            },
        }
    }

    /// Registers a host completion handle on the pending flight for `key`,
    /// for async followers to await.
    pub fn register_flight_future(&mut self, key: &str, handle: u64)
        requires
            old(self).wf(),
            registry_inv(old(self)@),
        ensures
            final(self).wf(),
            registry_inv(final(self)@),
            final(self)@.active == old(self)@.active,
            old(self)@.active.dom().contains(key@) ==> final(self)@.flights == old(
                self,
            )@.flights.update(
                old(self)@.active[key@] as int,
                FlightModel {
                    status: old(self)@.flights[old(self)@.active[key@] as int].status,
                    value: old(self)@.flights[old(self)@.active[key@] as int].value,
                    handle: Some(handle),
                },
            ),
            !old(self)@.active.dom().contains(key@) ==> final(self)@ == old(self)@,
    {
        match self.active.get(key) {
            Some(id) => {
                let id = *id;
                let old_flight = &self.flights[id];
                let replacement = Flight {
                    status: old_flight.status,
                    value: match &old_flight.value {
                        Some(v) => Some(clone_byte_vec(v)),
                        None => None,
                    },
                    handle: Some(handle),
                };
                self.flights.set(id, replacement);
                proof {
                    assert(self@.flights =~= old(self)@.flights.update(
                        id as int,
                        FlightModel {
                            status: old(self)@.flights[id as int].status,
                            value: old(self)@.flights[id as int].value,
                            handle: Some(handle),
                        },
                    ));
                }
            },
            None => {
                proof {
                    assert(final(self)@ =~= old(self)@);
                }
            },
        }
    }

    /// Completes the flight for `key` and removes it from the active set, so
    /// the next caller starts fresh; waiters that hold the slot still read
    /// the final state. Returns the registered handle, if any.
    pub fn complete_flight(&mut self, key: &str, is_error: bool, value: Option<Vec<u8>>) -> (r:
        Option<u64>)
        requires
            old(self).wf(),
            registry_inv(old(self)@),
        ensures
            final(self).wf(),
            registry_inv(final(self)@),
            (final(self)@, r) == spec_complete(
                old(self)@,
                key@,
                is_error,
                match value {
                    Some(v) => Some(v@),
                    None => None::<Seq<u8>>,
                },
            ),
    {
        let ghost vmodel = match value {
            Some(ref v) => Some(v@),
            None => None::<Seq<u8>>,
        };
        match self.active.get(key) {
            Some(id) => {
                let id = *id;
                let handle = self.flights[id].handle;
                let replacement = Flight {
                    status: if is_error {
                        FlightStatus::Error
                    } else {
                        FlightStatus::Done
                    },
                    value,
                    handle,
                };
                self.flights.set(id, replacement);
                self.active.remove(key);
                proof {
                    assert(self@.flights =~= spec_complete(
                        old(self)@,
                        key@,
                        is_error,
                        vmodel,
                    ).0.flights);
                    assert((final(self)@, handle) =~= spec_complete(
                        old(self)@,
                        key@,
                        is_error,
                        vmodel,
                    ));
                }
                handle
            },
            None => {
                proof {
                    assert((final(self)@, None::<u64>) =~= spec_complete(
                        old(self)@,
                        key@,
                        is_error,
                        vmodel,
                    ));
                }
                None
            },
        }
    }

    /// The host completion handle registered on flight `id`, for async
    /// followers to await.
    pub fn flight_handle(&self, id: usize) -> (r: Option<u64>)
        requires
            id < self@.flights.len(),
        ensures
            r == self@.flights[id as int].handle,
    {
        self.flights[id].handle
    }

    /// Whether a pending flight exists for `key`.
    pub fn has_active_flight(&self, key: &str) -> (r: bool)
        ensures
            r == self@.active.dom().contains(key@),
    {
        self.active.contains_key(key)
    }

    /// The state a waiter observes on the flight in slot `id`.
    pub fn flight_status(&self, id: usize) -> (r: FlightStatus)
        requires
            id < self@.flights.len(),
        ensures
            r == self@.flights[id as int].status,
    {
        self.flights[id].status
    }

    /// The value the leader stored, shared with every waiter.
    pub fn flight_value(&self, id: usize) -> (r: Option<Vec<u8>>)
        requires
            id < self@.flights.len(),
        ensures
            match r {
                Some(v) => self@.flights[id as int].value == Some(v@),
                None => self@.flights[id as int].value is None,
            },
    {
        match &self.flights[id].value {
            Some(v) => Some(clone_byte_vec(v)),
            None => None,
        }
    }

    /// What a follower's wait resolves to: the leader's value on `Done`;
    /// `FlightLeaderFailed` on `Error` or on a timeout that left the flight
    /// pending.
    pub fn resolve_wait(&self, id: usize, timed_out: bool) -> (r: Result<
        Option<Vec<u8>>,
        CacheError,
    >)
        requires
            id < self@.flights.len(),
        ensures
            match r {
                Ok(v) => self@.flights[id as int].status == FlightStatus::Done && (match v {
                    Some(b) => self@.flights[id as int].value == Some(b@),
                    None => self@.flights[id as int].value is None,
                }),
                Err(e) => e == CacheError::FlightLeaderFailed && (self@.flights[
                    id as int
                ].status != FlightStatus::Done || timed_out),
            },
    {
        if timed_out {
            return Err(CacheError::FlightLeaderFailed);
        }
        match self.flight_status(id) {
            FlightStatus::Done => Ok(self.flight_value(id)),
            _ => Err(CacheError::FlightLeaderFailed),
        }
    }
}

/// Exactly one leader per key until the flight completes: a second entry on
/// the same key joins the same pending flight as a follower, and entering
/// again still yields no leader until `complete_flight` runs.
pub proof fn lemma_single_leader(m: RegistryModel, key: Seq<char>)
    requires
        registry_inv(m),
    ensures
        spec_try_enter(m, key).2 <==> !m.active.dom().contains(key),
        !spec_try_enter(spec_try_enter(m, key).0, key).2,
        spec_try_enter(spec_try_enter(m, key).0, key).1 == spec_try_enter(m, key).1,
{
}

/// After the leader completes, the key is free again: the next caller
/// becomes a fresh leader, while the completed flight still shows the final
/// state to its waiters.
pub proof fn lemma_fresh_leader_after_complete(
    m: RegistryModel,
    key: Seq<char>,
    is_error: bool,
    value: Option<Seq<u8>>,
)
    requires
        registry_inv(m),
    ensures
        spec_try_enter(spec_complete(m, key, is_error, value).0, key).2,
        m.active.dom().contains(key) ==> spec_complete(
            m,
            key,
            is_error,
            value,
        ).0.flights[m.active[key] as int].status == (if is_error {
            FlightStatus::Error
        } else {
            FlightStatus::Done
        }),
{
}

} // verus!
