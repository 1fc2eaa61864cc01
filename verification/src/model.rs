//! The mathematical model of the broker.
//!
//! A [`Pool`] is the pool of ports in pool order together with the live
//! sessions in the order in which they were granted. The three operations of
//! the engine are total functions on it, and [`Pool::valid`] is the invariant
//! that they keep.

use crate::engine::AvailablePort;
use crate::error::BackendError;
use vstd::prelude::*;

verus! {

/// One live session: the token a client holds and the port it was granted.
pub struct Binding {
    pub token: Seq<char>,
    pub port: u16,
}

/// The state of the broker.
pub struct Pool {
    /// The ports of the pool, in pool order, each free or taken.
    pub slots: Seq<AvailablePort>,
    /// The live sessions, oldest first.
    pub sessions: Seq<Binding>,
}

/// How the gateway answers a request.
pub enum Answer {
    /// The request goes on to the backend on this port.
    Forward(u16),
    /// The request presents no token of a live session: the client is sent
    /// to session creation, and nothing is granted yet.
    CreateSession,
    /// A session was granted: its token goes to the client, which is sent back
    /// to try again with it.
    Issue(Binding),
    /// The request fails.
    Refuse(BackendError),
}

/// One call that changes the broker.
pub enum Call {
    /// `acquire`, with the token that was drawn for it.
    Acquire(Seq<char>),
    /// `release` of the given token.
    Release(Seq<char>),
}

/// The index of the first free slot, or `slots.len()` where none is free.
pub open spec fn first_free(slots: Seq<AvailablePort>) -> int
    decreases slots.len(),
{
    if slots.len() == 0 {
        0
    } else if slots[0].is_available {
        0
    } else {
        1 + first_free(slots.skip(1))
    }
}

/// How many slots are taken.
pub open spec fn busy_count(slots: Seq<AvailablePort>) -> nat
    decreases slots.len(),
{
    if slots.len() == 0 {
        0
    } else {
        busy_count(slots.drop_last()) + if slots.last().is_available {
            0nat
        } else {
            1nat
        }
    }
}

/// How many slots are free.
pub open spec fn free_count(slots: Seq<AvailablePort>) -> int {
    slots.len() - busy_count(slots)
}

impl Pool {
    /// A pool of `size` consecutive ports from `start` on, all free, with no
    /// session.
    pub open spec fn fresh(start: u16, size: nat) -> Pool {
        Pool {
            slots: Seq::new(
                size,
                |i: int| (AvailablePort { port: (start + i) as u16, is_available: true }),
            ),
            sessions: Seq::empty(),
        }
    }

    /// The position in the pool of the slot with port `port`.
    pub open spec fn slot_of(self, port: u16) -> int {
        port - self.slots[0].port
    }

    /// Whether `token` belongs to a live session.
    pub open spec fn holds(self, token: Seq<char>) -> bool {
        exists|i: int| 0 <= i < self.sessions.len() && (#[trigger] self.sessions[i]).token == token
    }

    /// The position among the sessions of the one with `token`.
    pub open spec fn index_of(self, token: Seq<char>) -> int {
        choose|i: int| 0 <= i < self.sessions.len() && (#[trigger] self.sessions[i]).token == token
    }

    /// Whether a session holds `port`.
    pub open spec fn port_in_use(self, port: u16) -> bool {
        exists|i: int| 0 <= i < self.sessions.len() && (#[trigger] self.sessions[i]).port == port
    }

    /// The invariant of the broker.
    #[verifier::opaque]
    pub open spec fn valid(self) -> bool {
        // the pool is a run of consecutive ports
        &&& forall|k: int|
            0 <= k < self.slots.len() ==> (#[trigger] self.slots[k]).port == self.slots[0].port + k
        // no token is held twice
        &&& forall|i: int, j: int|
            0 <= i < j < self.sessions.len() ==> (#[trigger] self.sessions[i]).token != (
            #[trigger] self.sessions[j]).token
        // no port is held twice
        &&& forall|i: int, j: int|
            0 <= i < j < self.sessions.len() ==> (#[trigger] self.sessions[i]).port != (
            #[trigger] self.sessions[j]).port
        // every session holds a slot of the pool, and that slot is taken
        &&& forall|i: int|
            0 <= i < self.sessions.len() ==> {
                let k = self.slot_of((#[trigger] self.sessions[i]).port);
                0 <= k < self.slots.len() && !self.slots[k].is_available
            }
        // every taken slot is held by a session
        &&& forall|k: int|
            0 <= k < self.slots.len() && !(#[trigger] self.slots[k]).is_available
                ==> self.port_in_use(self.slots[k].port)
        // as many sessions as taken slots
        &&& self.sessions.len() == busy_count(self.slots)
    }

    /// `acquire` with `token` as the token drawn: the state after the call and
    /// what the call returns.
    ///
    /// The first free slot in pool order is taken. An exhausted pool, or a
    /// token that is already in use, leaves the state as it was.
    pub open spec fn acquire(self, token: Seq<char>) -> (Pool, Result<Binding, BackendError>) {
        let k = first_free(self.slots);
        if k >= self.slots.len() {
            (self, Err(BackendError::NoSlotsAvailable))
        } else if self.holds(token) {
            (self, Err(BackendError::InternalError))
        } else {
            let port = self.slots[k].port;
            let granted = Binding { token, port };
            (
                Pool {
                    slots: self.slots.update(k, AvailablePort { port, is_available: false }),
                    sessions: self.sessions.push(granted),
                },
                Ok(granted),
            )
        }
    }

    /// What `lookup` of `token` returns.
    pub open spec fn lookup(self, token: Seq<char>) -> Result<Binding, BackendError> {
        if self.holds(token) {
            Ok(self.sessions[self.index_of(token)])
        } else {
            Err(BackendError::UnknownSession)
        }
    }

    /// `release` of `token`: the state after the call and what the call
    /// returns, which on success is the port that was freed.
    pub open spec fn release(self, token: Seq<char>) -> (Pool, Result<u16, BackendError>) {
        if self.holds(token) {
            let i = self.index_of(token);
            let port = self.sessions[i].port;
            (
                Pool {
                    slots: self.slots.update(
                        self.slot_of(port),
                        AvailablePort { port, is_available: true },
                    ),
                    sessions: self.sessions.remove(i),
                },
                Ok(port),
            )
        } else {
            (self, Err(BackendError::UnknownSession))
        }
    }

    /// How the gateway answers a request to connect that presents
    /// `presented`. The state is only read.
    ///
    /// A token that a live session holds is forwarded to that session's port.
    /// Every other request, with no token or with one that no session holds,
    /// is sent to session creation.
    pub open spec fn connect(self, presented: Option<Seq<char>>) -> Answer {
        if presented is Some && self.holds(presented->Some_0) {
            Answer::Forward(self.sessions[self.index_of(presented->Some_0)].port)
        } else {
            Answer::CreateSession
        }
    }

    /// A request to create a session, with `drawn` as the token drawn for it:
    /// the state after it and the answer. It is `acquire`, with the session
    /// issued or the failure reported.
    pub open spec fn create(self, drawn: Seq<char>) -> (Pool, Answer) {
        match self.acquire(drawn).1 {
            Ok(granted) => (self.acquire(drawn).0, Answer::Issue(granted)),
            Err(e) => (self, Answer::Refuse(e)),
        }
    }

    /// The state after one call.
    pub open spec fn step(self, call: Call) -> Pool {
        match call {
            Call::Acquire(token) => self.acquire(token).0,
            Call::Release(token) => self.release(token).0,
        }
    }

    /// The state after a history of calls, first call first.
    pub open spec fn run(self, calls: Seq<Call>) -> Pool
        decreases calls.len(),
    {
        if calls.len() == 0 {
            self
        } else {
            self.run(calls.drop_last()).step(calls.last())
        }
    }
}

/// `first_free` is the lowest index of a free slot: nothing before it is free,
/// and it is free itself unless it is past the end.
pub proof fn lemma_first_free(slots: Seq<AvailablePort>)
    ensures
        0 <= first_free(slots) <= slots.len(),
        forall|j: int| 0 <= j < first_free(slots) ==> !(#[trigger] slots[j]).is_available,
        first_free(slots) < slots.len() ==> slots[first_free(slots)].is_available,
    decreases slots.len(),
{
    if slots.len() > 0 && !slots[0].is_available {
        let rest = slots.skip(1);
        lemma_first_free(rest);
        assert forall|j: int| 0 <= j < first_free(slots) implies !(#[trigger] slots[j]).is_available by {
            if j > 0 {
                assert(slots[j] == rest[j - 1]);
            }
        }
    }
}

/// An index with nothing free before it, and free itself unless it is past
/// the end, is `first_free`.
pub proof fn lemma_first_free_is(slots: Seq<AvailablePort>, k: int)
    requires
        0 <= k <= slots.len(),
        forall|j: int| 0 <= j < k ==> !(#[trigger] slots[j]).is_available,
        k < slots.len() ==> slots[k].is_available,
    ensures
        first_free(slots) == k,
{
    lemma_first_free(slots);
    let r = first_free(slots);
    if r < k {
        assert(!slots[r].is_available);
    }
}

/// No more slots are taken than there are.
pub proof fn lemma_busy_count_bound(slots: Seq<AvailablePort>)
    ensures
        busy_count(slots) <= slots.len(),
    decreases slots.len(),
{
    if slots.len() > 0 {
        lemma_busy_count_bound(slots.drop_last());
    }
}

/// Changing one slot changes the number of taken slots by that slot alone.
pub proof fn lemma_busy_count_update(slots: Seq<AvailablePort>, k: int, slot: AvailablePort)
    requires
        0 <= k < slots.len(),
    ensures
        busy_count(slots.update(k, slot)) + (if slots[k].is_available {
            0int
        } else {
            1int
        }) == busy_count(slots) + (if slot.is_available {
            0int
        } else {
            1int
        }),
    decreases slots.len(),
{
    let changed = slots.update(k, slot);
    if k == slots.len() - 1 {
        assert(changed.drop_last() =~= slots.drop_last());
    } else {
        assert(changed.drop_last() =~= slots.drop_last().update(k, slot));
        lemma_busy_count_update(slots.drop_last(), k, slot);
    }
}

/// A pool with no free slot has every slot taken.
pub proof fn lemma_busy_count_full(slots: Seq<AvailablePort>)
    requires
        forall|k: int| 0 <= k < slots.len() ==> !(#[trigger] slots[k]).is_available,
    ensures
        busy_count(slots) == slots.len(),
    decreases slots.len(),
{
    if slots.len() > 0 {
        let rest = slots.drop_last();
        assert forall|k: int| 0 <= k < rest.len() implies !(#[trigger] rest[k]).is_available by {
            assert(rest[k] == slots[k]);
        }
        lemma_busy_count_full(rest);
    }
}

/// A pool with every slot free has none taken.
pub proof fn lemma_busy_count_none(slots: Seq<AvailablePort>)
    requires
        forall|k: int| 0 <= k < slots.len() ==> (#[trigger] slots[k]).is_available,
    ensures
        busy_count(slots) == 0,
    decreases slots.len(),
{
    if slots.len() > 0 {
        let rest = slots.drop_last();
        assert forall|k: int| 0 <= k < rest.len() implies (#[trigger] rest[k]).is_available by {
            assert(rest[k] == slots[k]);
        }
        lemma_busy_count_none(rest);
    }
}

} // verus!
