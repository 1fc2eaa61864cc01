//! The allocation engine.
//!
//! [`DaemonState`] owns the pool of ports and the live sessions. Its fields are
//! private: the state changes only through `acquire`, `release` and their
//! variants, each of which is specified as a function of the model
//! ([`Pool`]) and keeps its invariant.
//!
//! The engine starts and stops no backend itself. `acquire` hands back the
//! session whose port the caller is to start a backend on, `release` the port
//! whose backend the caller is to stop; in both the slot is already booked
//! when the call returns, so the caller can do that work without holding the
//! engine.

use crate::error::BackendError;
use crate::laws::{
    lemma_acquire_at, lemma_fresh_valid, lemma_index_of, lemma_release_at, lemma_valid_bounds,
};
use crate::model::{first_free, free_count, lemma_first_free_is, Binding, Pool};
use crate::token::{fresh_token, is_token_text};
use vstd::prelude::*;

verus! {

/// One port of the pool and whether it is free.
#[derive(Clone, Copy, Debug, PartialEq, Eq, Structural)]
pub struct AvailablePort {
    pub port: u16,
    pub is_available: bool,
}

/// A client's claim on a port.
#[derive(Debug)]
pub struct Session {
    /// The token that the client presents.
    pub session_id: String,
    /// The port granted.
    pub port: u16,
}

impl View for Session {
    type V = Binding;

    open spec fn view(&self) -> Binding {
        Binding { token: self.session_id@, port: self.port }
    }
}

impl Clone for Session {
    fn clone(&self) -> (copy: Self)
        ensures
            copy@ == self@,
    {
        Session { session_id: self.session_id.clone(), port: self.port }
    }
}

/// What a call that returns a session returns, as the model sees it.
pub open spec fn outcome_view(r: Result<Session, BackendError>) -> Result<Binding, BackendError> {
    match r {
        Ok(session) => Ok(session@),
        Err(e) => Err(e),
    }
}

/// The sessions of a list, as the model sees them.
pub open spec fn bindings(sessions: Seq<Session>) -> Seq<Binding> {
    sessions.map_values(|s: Session| s@)
}

/// Adding a session at the end adds its binding at the end.
proof fn lemma_bindings_push(sessions: Seq<Session>, session: Session)
    ensures
        bindings(sessions.push(session)) == bindings(sessions).push(session@),
{
    assert(bindings(sessions.push(session)) =~= bindings(sessions).push(session@));
}

/// Removing a session removes its binding.
proof fn lemma_bindings_remove(sessions: Seq<Session>, i: int)
    requires
        0 <= i < sessions.len(),
    ensures
        bindings(sessions.remove(i)) == bindings(sessions).remove(i),
{
    assert(bindings(sessions.remove(i)) =~= bindings(sessions).remove(i));
}

/// What `acquire_with` does to the two lists is what the model's `acquire`
/// does to the pool.
proof fn lemma_acquired(
    sessions: Seq<Session>,
    ports: Seq<AvailablePort>,
    k: int,
    record: Session,
)
    requires
        (Pool { slots: ports, sessions: bindings(sessions) }).valid(),
        0 <= k < ports.len(),
        first_free(ports) == k,
        !(Pool { slots: ports, sessions: bindings(sessions) }).holds(record.session_id@),
        record.port == ports[k].port,
    ensures
        (Pool { slots: ports, sessions: bindings(sessions) }).acquire(record.session_id@) == (
            Pool {
                slots: ports.update(k, AvailablePort { port: record.port, is_available: false }),
                sessions: bindings(sessions.push(record)),
            },
            Ok::<Binding, BackendError>(record@),
        ),
        (Pool { slots: ports, sessions: bindings(sessions) }).acquire(
            record.session_id@,
        ).0.valid(),
{
    lemma_acquire_at(Pool { slots: ports, sessions: bindings(sessions) }, record.session_id@, k);
    lemma_bindings_push(sessions, record);
}

/// What `release` does to the two lists is what the model's `release` does to
/// the pool, and the slot it frees lies in the pool.
proof fn lemma_released(sessions: Seq<Session>, ports: Seq<AvailablePort>, i: int)
    requires
        (Pool { slots: ports, sessions: bindings(sessions) }).valid(),
        0 <= i < sessions.len(),
    ensures
        0 <= sessions[i].port - ports[0].port < ports.len(),
        (Pool { slots: ports, sessions: bindings(sessions) }).release(sessions[i].session_id@) == (
            Pool {
                slots: ports.update(
                    sessions[i].port - ports[0].port,
                    AvailablePort { port: sessions[i].port, is_available: true },
                ),
                sessions: bindings(sessions.remove(i)),
            },
            Ok::<u16, BackendError>(sessions[i].port),
        ),
        (Pool { slots: ports, sessions: bindings(sessions) }).release(
            sessions[i].session_id@,
        ).0.valid(),
{
    lemma_release_at(
        Pool { slots: ports, sessions: bindings(sessions) },
        sessions[i].session_id@,
        i,
    );
    lemma_bindings_remove(sessions, i);
}

/// The broker's state: the pool and the live sessions.
#[derive(Debug)]
pub struct DaemonState {
    running_sessions: Vec<Session>,
    available_ports: Vec<AvailablePort>,
}

impl View for DaemonState {
    type V = Pool;

    closed spec fn view(&self) -> Pool {
        Pool { slots: self.available_ports@, sessions: bindings(self.running_sessions@) }
    }
}

impl DaemonState {
    /// Whether the state satisfies the broker's invariant.
    pub open spec fn wf(&self) -> bool {
        self@.valid()
    }

    /// A broker over the `pool_size` consecutive ports that start at
    /// `pool_start`, all free.
    pub fn new(pool_start: u16, pool_size: usize) -> (state: Self)
        requires
            pool_start + pool_size <= 0x1_0000,
        ensures
            state.wf(),
            state@ == Pool::fresh(pool_start, pool_size as nat),
    {
        let mut ports: Vec<AvailablePort> = Vec::with_capacity(pool_size);
        let mut i: usize = 0;
        while i < pool_size
            invariant
                i <= pool_size,
                pool_start + pool_size <= 0x1_0000,
                ports@.len() == i,
                forall|k: int|
                    0 <= k < i ==> #[trigger] ports@[k] == (AvailablePort {
                        port: (pool_start + k) as u16,
                        is_available: true,
                    }),
            decreases pool_size - i,
        {
            ports.push(AvailablePort { port: (pool_start as usize + i) as u16, is_available: true });
            i += 1;
        }
        let state = DaemonState { running_sessions: Vec::new(), available_ports: ports };
        proof {
            lemma_fresh_valid(pool_start, pool_size as nat);
            assert(state@.slots =~= Pool::fresh(pool_start, pool_size as nat).slots);
            assert(state@.sessions =~= Pool::fresh(pool_start, pool_size as nat).sessions);
        }
        state
    }

    /// The index of the first free slot in pool order, if there is one.
    fn find_free(&self) -> (found: Option<usize>)
        ensures
            match found {
                Some(k) => k < self@.slots.len() && k == first_free(self@.slots),
                None => first_free(self@.slots) == self@.slots.len(),
            },
    {
        let mut k: usize = 0;
        while k < self.available_ports.len()
            invariant
                k <= self.available_ports@.len(),
                forall|j: int| 0 <= j < k ==> !(#[trigger] self.available_ports@[j]).is_available,
            decreases self.available_ports@.len() - k,
        {
            if self.available_ports[k].is_available {
                proof {
                    lemma_first_free_is(self@.slots, k as int);
                }
                return Some(k);
            }
            k += 1;
        }
        proof {
            lemma_first_free_is(self@.slots, k as int);
        }
        None
    }

    /// The position of the session that holds `token`, if there is one.
    fn position(&self, token: &String) -> (found: Option<usize>)
        ensures
            match found {
                Some(i) => i < self@.sessions.len() && self@.sessions[i as int].token == token@,
                None => !self@.holds(token@),
            },
    {
        let mut i: usize = 0;
        while i < self.running_sessions.len()
            invariant
                i <= self.running_sessions@.len(),
                forall|j: int|
                    0 <= j < i ==> (#[trigger] self.running_sessions@[j]).session_id@ != token@,
            decreases self.running_sessions@.len() - i,
        {
            if self.running_sessions[i].session_id == *token {
                return Some(i);
            }
            i += 1;
        }
        proof {
            assert forall|j: int| 0 <= j < self@.sessions.len() implies (
            #[trigger] self@.sessions[j]).token != token@ by {
                assert(self@.sessions[j] == self.running_sessions@[j]@);
            }
        }
        None
    }
    /// Grants the first free port in pool order to a new session with the
    /// token `token`.
    ///
    /// With the pool exhausted the call fails with `NoSlotsAvailable`; with
    /// `token` already held by a live session it fails with `InternalError`.
    /// A failed call changes nothing. On success the slot is marked taken and
    /// the session is on record before the call returns, so the caller can
    /// start the backend on the session's port afterwards.
    pub fn acquire_with(&mut self, token: String) -> (granted: Result<Session, BackendError>)
        requires
            old(self).wf(),
        ensures
            final(self).wf(),
            final(self)@ == old(self)@.acquire(token@).0,
            outcome_view(granted) == old(self)@.acquire(token@).1,
    {
        match self.find_free() {
            None => Err(BackendError::NoSlotsAvailable),
            Some(k) => {
                if self.position(&token).is_some() {
                    return Err(BackendError::InternalError);
                }
                let port = self.available_ports[k].port;
                let record = Session { session_id: token.clone(), port };
                let granted = Session { session_id: token, port };
                proof {
                    lemma_acquired(
                        self.running_sessions@,
                        self.available_ports@,
                        k as int,
                        record,
                    );
                }
                self.available_ports.set(k, AvailablePort { port, is_available: false });
                self.running_sessions.push(record);
                Ok(granted)
            },
        }
    }

    /// Grants the first free port in pool order to a new session under a
    /// freshly drawn token.
    ///
    /// The pool is scanned first: with no free slot the call fails with
    /// `NoSlotsAvailable`, draws no token and changes nothing. Otherwise a
    /// token is drawn, which has the shape of every issued token, and the
    /// outcome is that of [`DaemonState::acquire_with`] on it. So with a free
    /// slot the call succeeds unless a live session already holds the very
    /// token drawn, which it reports as `InternalError`; with a free slot and
    /// no live session it always succeeds.
    pub fn acquire(&mut self) -> (granted: Result<Session, BackendError>)
        requires
            old(self).wf(),
        ensures
            final(self).wf(),
            first_free(old(self)@.slots) >= old(self)@.slots.len() ==> final(self)@ == old(self)@
                && granted == Err::<Session, BackendError>(BackendError::NoSlotsAvailable),
            first_free(old(self)@.slots) < old(self)@.slots.len() ==> exists|token: Seq<char>|
                is_token_text(token) && final(self)@ == (#[trigger] old(self)@.acquire(token)).0
                    && outcome_view(granted) == old(self)@.acquire(token).1,
            granted is Ok ==> granted->Ok_0.port == old(self)@.slots[first_free(
                old(self)@.slots,
            )].port && is_token_text(granted->Ok_0.session_id@) && !old(self)@.holds(
                granted->Ok_0.session_id@,
            ) && final(self)@.sessions == old(self)@.sessions.push(granted->Ok_0@),
            granted is Err ==> final(self)@ == old(self)@,
            granted is Err && first_free(old(self)@.slots) < old(self)@.slots.len() ==> granted
                == Err::<Session, BackendError>(BackendError::InternalError)
                && old(self)@.sessions.len() > 0,
    {
        match self.find_free() {
            None => Err(BackendError::NoSlotsAvailable),
            Some(_) => {
                let token = fresh_token();
                let granted = self.acquire_with(token);
                proof {
                    assert(self@ == old(self)@.acquire(token@).0);
                }
                granted
            },
        }
    }

    /// The session that holds `token`, or `UnknownSession` where none does.
    /// The state is only read.
    pub fn lookup(&self, token: &str) -> (found: Result<Session, BackendError>)
        requires
            self.wf(),
        ensures
            outcome_view(found) == self@.lookup(token@),
    {
        let key = token.to_owned();
        match self.position(&key) {
            None => Err(BackendError::UnknownSession),
            Some(i) => {
                proof {
                    lemma_index_of(self@, token@, i as int);
                }
                Ok(self.running_sessions[i].clone())
            },
        }
    }

    /// Ends the session that holds `token` and frees its port, which is
    /// returned so that the caller can stop the backend on it. With no such
    /// session the call fails with `UnknownSession` and changes nothing.
    pub fn release(&mut self, token: &str) -> (freed: Result<u16, BackendError>)
        requires
            old(self).wf(),
        ensures
            final(self).wf(),
            final(self)@ == old(self)@.release(token@).0,
            freed == old(self)@.release(token@).1,
    {
        let key = token.to_owned();
        match self.position(&key) {
            None => Err(BackendError::UnknownSession),
            Some(i) => {
                proof {
                    lemma_released(self.running_sessions@, self.available_ports@, i as int);
                }
                let port = self.running_sessions[i].port;
                let k: usize = (port - self.available_ports[0].port) as usize;
                self.available_ports.set(k, AvailablePort { port, is_available: true });
                self.running_sessions.remove(i);
                Ok(port)
            },
        }
    }

    /// The number of ports in the pool.
    pub fn pool_size(&self) -> (n: usize)
        ensures
            n == self@.slots.len(),
    {
        self.available_ports.len()
    }

    /// The number of live sessions.
    pub fn session_count(&self) -> (n: usize)
        ensures
            n == self@.sessions.len(),
    {
        self.running_sessions.len()
    }

    /// The number of free ports.
    pub fn available_count(&self) -> (n: usize)
        requires
            self.wf(),
        ensures
            n == free_count(self@.slots),
            n + self@.sessions.len() == self@.slots.len(),
    {
        proof {
            lemma_valid_bounds(self@);
        }
        self.available_ports.len() - self.running_sessions.len()
    }

    /// The slot at position `index` of the pool, if there is one.
    pub fn slot(&self, index: usize) -> (found: Option<AvailablePort>)
        ensures
            found == if index < self@.slots.len() {
                Some(self@.slots[index as int])
            } else {
                None
            },
    {
        if index < self.available_ports.len() {
            Some(self.available_ports[index])
        } else {
            None
        }
    }
}

impl Default for DaemonState {
    /// The broker over the ten ports 3500 to 3509.
    fn default() -> (state: Self)
        ensures
            state.wf(),
            state@ == Pool::fresh(3500, 10),
    {
        DaemonState::new(3500, 10)
    }
}

} // verus!
