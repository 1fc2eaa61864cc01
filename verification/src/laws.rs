//! What holds of the broker over any history of calls.

use crate::engine::AvailablePort;
use crate::error::BackendError;
use crate::model::{
    busy_count, first_free, free_count, lemma_busy_count_bound, lemma_busy_count_full,
    lemma_busy_count_none, lemma_busy_count_update, lemma_first_free, lemma_first_free_is,
    Answer, Binding, Call, Pool,
};
use vstd::prelude::*;

verus! {

/// A pool that was just made is valid, whatever its size, provided its ports
/// fit in sixteen bits.
pub proof fn lemma_fresh_valid(start: u16, size: nat)
    requires
        start + size <= 0x1_0000,
    ensures
        Pool::fresh(start, size).valid(),
        Pool::fresh(start, size).sessions.len() == 0,
        free_count(Pool::fresh(start, size).slots) == size,
{
    reveal(Pool::valid);
    let p = Pool::fresh(start, size);
    lemma_busy_count_none(p.slots);
}

/// `acquire` keeps the invariant, whichever token is drawn.
pub proof fn lemma_acquire_valid(p: Pool, token: Seq<char>)
    requires
        p.valid(),
    ensures
        p.acquire(token).0.valid(),
        p.acquire(token).0.slots.len() == p.slots.len(),
{
    reveal(Pool::valid);
    let k = first_free(p.slots);
    lemma_first_free(p.slots);
    if k < p.slots.len() && !p.holds(token) {
        let q = p.acquire(token).0;
        let port = p.slots[k].port;
        let n = p.sessions.len() as int;
        lemma_busy_count_update(p.slots, k, AvailablePort { port, is_available: false });
        assert(q.slots[0].port == p.slots[0].port);
        assert forall|i: int| 0 <= i < n implies (#[trigger] p.sessions[i]).token != token
            && p.sessions[i].port != port by {
            assert(p.slot_of(p.sessions[i].port) != k);
        }
        assert forall|i: int| 0 <= i < q.sessions.len() implies {
            let j = q.slot_of((#[trigger] q.sessions[i]).port);
            0 <= j < q.slots.len() && !q.slots[j].is_available
        } by {
            if i < n {
                assert(q.sessions[i] == p.sessions[i]);
            }
        }
        assert forall|j: int|
            0 <= j < q.slots.len() && !(#[trigger] q.slots[j]).is_available implies q.port_in_use(
            q.slots[j].port,
        ) by {
            if j == k {
                assert(q.sessions[n].port == q.slots[j].port);
            } else {
                assert(!p.slots[j].is_available);
                assert(p.port_in_use(p.slots[j].port));
                let w = choose|w: int|
                    0 <= w < p.sessions.len() && (#[trigger] p.sessions[w]).port
                        == p.slots[j].port;
                assert(q.sessions[w].port == q.slots[j].port);
            }
        }
    }
}

/// Among valid sessions, the one that holds a token is the only one that does.
pub proof fn lemma_index_of(p: Pool, token: Seq<char>, i: int)
    requires
        p.valid(),
        0 <= i < p.sessions.len(),
        p.sessions[i].token == token,
    ensures
        p.holds(token),
        p.index_of(token) == i,
{
    reveal(Pool::valid);
    let j = p.index_of(token);
    assert(0 <= j < p.sessions.len() && p.sessions[j].token == token);
    if j < i {
        assert(p.sessions[j].token != p.sessions[i].token);
    } else if i < j {
        assert(p.sessions[i].token != p.sessions[j].token);
    }
}

/// `release` keeps the invariant.
pub proof fn lemma_release_valid(p: Pool, token: Seq<char>)
    requires
        p.valid(),
    ensures
        p.release(token).0.valid(),
        p.release(token).0.slots.len() == p.slots.len(),
{
    reveal(Pool::valid);
    if p.holds(token) {
        let i = p.index_of(token);
        let port = p.sessions[i].port;
        let k = p.slot_of(port);
        let q = p.release(token).0;
        assert(0 <= i < p.sessions.len() && p.sessions[i].token == token);
        assert(0 <= k < p.slots.len() && !p.slots[k].is_available);
        assert(p.slots[k].port == port);
        lemma_busy_count_update(p.slots, k, AvailablePort { port, is_available: true });
        assert(q.slots[0].port == p.slots[0].port);
        assert forall|a: int| 0 <= a < q.sessions.len() implies (#[trigger] q.sessions[a])
            == p.sessions[if a < i {
            a
        } else {
            a + 1
        }] by {}
        assert forall|a: int| 0 <= a < p.sessions.len() && a != i implies (
        #[trigger] p.sessions[a]).port != port by {
            if a < i {
                assert(p.sessions[a].port != p.sessions[i].port);
            } else {
                assert(p.sessions[i].port != p.sessions[a].port);
            }
        }
        assert forall|a: int, b: int| 0 <= a < b < q.sessions.len() implies (
        #[trigger] q.sessions[a]).token != (#[trigger] q.sessions[b]).token && q.sessions[a].port
            != q.sessions[b].port by {
            let a0 = if a < i { a } else { a + 1 };
            let b0 = if b < i { b } else { b + 1 };
            assert(p.sessions[a0].token != p.sessions[b0].token);
            assert(p.sessions[a0].port != p.sessions[b0].port);
        }
        assert forall|a: int| 0 <= a < q.sessions.len() implies {
            let j = q.slot_of((#[trigger] q.sessions[a]).port);
            0 <= j < q.slots.len() && !q.slots[j].is_available
        } by {
            let a0 = if a < i { a } else { a + 1 };
            assert(q.sessions[a] == p.sessions[a0]);
            assert(p.sessions[a0].port != port);
        }
        assert forall|j: int|
            0 <= j < q.slots.len() && !(#[trigger] q.slots[j]).is_available implies q.port_in_use(
            q.slots[j].port,
        ) by {
            assert(j != k);
            assert(!p.slots[j].is_available);
            assert(p.port_in_use(p.slots[j].port));
            let w = choose|w: int|
                0 <= w < p.sessions.len() && (#[trigger] p.sessions[w]).port == p.slots[j].port;
            assert(w != i);
            let w1 = if w < i { w } else { w - 1 };
            assert(q.sessions[w1].port == q.slots[j].port);
        }
    }
}

/// `acquire` spelled out where it succeeds: with slot `k` the first free one
/// and `token` held by nobody, that slot is marked taken, the session is
/// added at the end, and the invariant is kept.
pub proof fn lemma_acquire_at(p: Pool, token: Seq<char>, k: int)
    requires
        p.valid(),
        0 <= k < p.slots.len(),
        first_free(p.slots) == k,
        !p.holds(token),
    ensures
        p.acquire(token) == (
            Pool {
                slots: p.slots.update(
                    k,
                    AvailablePort { port: p.slots[k].port, is_available: false },
                ),
                sessions: p.sessions.push(Binding { token, port: p.slots[k].port }),
            },
            Ok::<Binding, BackendError>(Binding { token, port: p.slots[k].port }),
        ),
        p.acquire(token).0.valid(),
{
    lemma_acquire_valid(p, token);
}

/// `release` spelled out where it succeeds: with `token` held by session `i`,
/// that session is removed, its slot, which lies in the pool, is marked free,
/// and the invariant is kept.
pub proof fn lemma_release_at(p: Pool, token: Seq<char>, i: int)
    requires
        p.valid(),
        0 <= i < p.sessions.len(),
        p.sessions[i].token == token,
    ensures
        0 <= p.slot_of(p.sessions[i].port) < p.slots.len(),
        p.slots[p.slot_of(p.sessions[i].port)].port == p.sessions[i].port,
        p.release(token) == (
            Pool {
                slots: p.slots.update(
                    p.slot_of(p.sessions[i].port),
                    AvailablePort { port: p.sessions[i].port, is_available: true },
                ),
                sessions: p.sessions.remove(i),
            },
            Ok::<u16, BackendError>(p.sessions[i].port),
        ),
        p.release(token).0.valid(),
{
    lemma_index_of(p, token, i);
    lemma_release_valid(p, token);
    assert(0 <= p.slot_of(p.sessions[i].port) < p.slots.len() && p.slots[p.slot_of(
        p.sessions[i].port,
    )].port == p.sessions[i].port) by {
        reveal(Pool::valid);
    }
}

/// The invariant bounds the sessions: there are never more of them than
/// ports in the pool, no two of them hold the same port or the same token, and
/// there are exactly as many as there are taken slots.
pub proof fn lemma_valid_bounds(p: Pool)
    requires
        p.valid(),
    ensures
        p.sessions.len() <= p.slots.len(),
        p.sessions.len() == busy_count(p.slots),
        p.sessions.len() + free_count(p.slots) == p.slots.len(),
        forall|i: int, j: int|
            0 <= i < p.sessions.len() && 0 <= j < p.sessions.len() && i != j ==> (
            #[trigger] p.sessions[i]).port != (#[trigger] p.sessions[j]).port,
        forall|i: int, j: int|
            0 <= i < p.sessions.len() && 0 <= j < p.sessions.len() && i != j ==> (
            #[trigger] p.sessions[i]).token != (#[trigger] p.sessions[j]).token,
{
    reveal(Pool::valid);
    lemma_busy_count_bound(p.slots);
    assert forall|i: int, j: int|
        0 <= i < p.sessions.len() && 0 <= j < p.sessions.len() && i != j implies (
    #[trigger] p.sessions[i]).port != (#[trigger] p.sessions[j]).port && p.sessions[i].token
        != p.sessions[j].token by {
        if i < j {
            assert(p.sessions[i].port != p.sessions[j].port);
        } else {
            assert(p.sessions[j].port != p.sessions[i].port);
        }
    }
}

/// Over every history of `acquire` and `release` calls, started from a valid
/// pool, the pool stays valid and keeps its ports: so at every point there
/// are at most as many sessions as ports, and no two sessions hold the same
/// port.
pub proof fn lemma_run_valid(p: Pool, calls: Seq<Call>)
    requires
        p.valid(),
    ensures
        p.run(calls).valid(),
        p.run(calls).slots.len() == p.slots.len(),
        p.run(calls).sessions.len() <= p.slots.len(),
        forall|i: int, j: int|
            0 <= i < p.run(calls).sessions.len() && 0 <= j < p.run(calls).sessions.len() && i != j
                ==> (#[trigger] p.run(calls).sessions[i]).port != (
            #[trigger] p.run(calls).sessions[j]).port,
    decreases calls.len(),
{
    if calls.len() > 0 {
        let before = p.run(calls.drop_last());
        lemma_run_valid(p, calls.drop_last());
        match calls.last() {
            Call::Acquire(token) => {
                lemma_acquire_valid(before, token);
            },
            Call::Release(token) => {
                lemma_release_valid(before, token);
            },
        }
    }
    lemma_valid_bounds(p.run(calls));
}

/// A call that fails changes nothing.
pub proof fn lemma_failure_changes_nothing(p: Pool, token: Seq<char>)
    ensures
        p.acquire(token).1 is Err ==> p.acquire(token).0 == p,
        p.release(token).1 is Err ==> p.release(token).0 == p,
{
}

/// `acquire` fails for want of a slot exactly when there are as many sessions
/// as ports, whatever the token; otherwise it fails only on a token that is
/// already held, and else grants the free port that comes first in the pool,
/// which is also the lowest free port.
pub proof fn lemma_acquire_outcome(p: Pool, token: Seq<char>)
    requires
        p.valid(),
    ensures
        p.acquire(token).1 == Err::<Binding, BackendError>(BackendError::NoSlotsAvailable) <==> p.sessions.len()
            == p.slots.len(),
        p.acquire(token).1 == Err::<Binding, BackendError>(BackendError::InternalError) <==> p.sessions.len()
            < p.slots.len() && p.holds(token),
        p.acquire(token).1 is Ok <==> p.sessions.len() < p.slots.len() && !p.holds(token),
        p.acquire(token).1 is Ok ==> {
            let granted = p.acquire(token).1->Ok_0;
            let after = p.acquire(token).0;
            &&& granted.token == token
            &&& after.sessions.len() == p.sessions.len() + 1
            &&& after.sessions.last() == granted
            &&& free_count(after.slots) == free_count(p.slots) - 1
            &&& forall|k: int|
                0 <= k < p.slots.len() && (#[trigger] p.slots[k]).is_available ==> granted.port
                    <= p.slots[k].port
            &&& exists|k: int|
                0 <= k < p.slots.len() && (#[trigger] p.slots[k]).is_available && p.slots[k].port
                    == granted.port
        },
{
    reveal(Pool::valid);
    let k = first_free(p.slots);
    lemma_first_free(p.slots);
    lemma_busy_count_bound(p.slots);
    if k < p.slots.len() {
        let port = p.slots[k].port;
        lemma_busy_count_update(p.slots, k, AvailablePort { port, is_available: false });
        lemma_busy_count_bound(p.slots.update(k, AvailablePort { port, is_available: false }));
        if !p.holds(token) {
            assert forall|j: int|
                0 <= j < p.slots.len() && (#[trigger] p.slots[j]).is_available implies port
                <= p.slots[j].port by {
                if j < k {
                    assert(!p.slots[j].is_available);
                }
            }
            assert(p.slots[k].is_available && p.slots[k].port == port);
        }
    } else {
        lemma_busy_count_full(p.slots);
    }
}

/// `release` succeeds exactly on the token of a live session. It then ends
/// that session and no other, and its slot is free again: the first free slot
/// is now the freed one or the one that was first before, whichever comes
/// first in the pool.
pub proof fn lemma_release_outcome(p: Pool, token: Seq<char>)
    requires
        p.valid(),
    ensures
        p.release(token).1 is Ok <==> p.holds(token),
        p.release(token).1 is Err ==> p.release(token).1 == Err::<u16, BackendError>(
            BackendError::UnknownSession,
        ),
        !p.release(token).0.holds(token),
        forall|other: Seq<char>|
            other != token ==> (#[trigger] p.release(token).0.holds(other) <==> p.holds(other)),
        p.holds(token) ==> {
            let port = p.release(token).1->Ok_0;
            let after = p.release(token).0;
            let k = p.slot_of(port);
            &&& p.lookup(token) == Ok::<Binding, BackendError>(Binding { token, port })
            &&& 0 <= k < p.slots.len()
            &&& after.slots[k] == (AvailablePort { port, is_available: true })
            &&& after.sessions.len() == p.sessions.len() - 1
            &&& free_count(after.slots) == free_count(p.slots) + 1
            &&& first_free(after.slots) == if k < first_free(p.slots) {
                k
            } else {
                first_free(p.slots)
            }
        },
{
    reveal(Pool::valid);
    let q = p.release(token).0;
    if p.holds(token) {
        let i = p.index_of(token);
        let port = p.sessions[i].port;
        let k = p.slot_of(port);
        assert(0 <= i < p.sessions.len() && p.sessions[i].token == token);
        assert(0 <= k < p.slots.len() && !p.slots[k].is_available);
        assert(p.slots[k].port == port);
        lemma_busy_count_update(p.slots, k, AvailablePort { port, is_available: true });
        lemma_first_free(p.slots);
        let f = first_free(p.slots);
        let g = if k < f { k } else { f };
        assert forall|j: int| 0 <= j < g implies !(#[trigger] q.slots[j]).is_available by {
            assert(!p.slots[j].is_available);
        }
        lemma_first_free_is(q.slots, g);
        assert forall|a: int| 0 <= a < q.sessions.len() implies (#[trigger] q.sessions[a])
            == p.sessions[if a < i {
            a
        } else {
            a + 1
        }] by {}
        assert forall|a: int| 0 <= a < q.sessions.len() implies (#[trigger] q.sessions[a]).token
            != token by {
            let a0 = if a < i { a } else { a + 1 };
            if a0 < i {
                assert(p.sessions[a0].token != p.sessions[i].token);
            } else {
                assert(p.sessions[i].token != p.sessions[a0].token);
            }
        }
        assert forall|other: Seq<char>| other != token implies (#[trigger] q.holds(other)
            <==> p.holds(other)) by {
            if q.holds(other) {
                let a = q.index_of(other);
                let a0 = if a < i { a } else { a + 1 };
                assert(p.sessions[a0].token == other);
            }
            if p.holds(other) {
                let b = p.index_of(other);
                assert(p.sessions[b].token == other);
                let b1 = if b < i { b } else { b - 1 };
                assert(q.sessions[b1].token == other);
            }
        }
    }
}

/// A freed slot can be granted again. Releasing a session whose slot comes
/// before every free slot of the pool, as it does on a full pool, and then
/// acquiring at once under a token that no remaining session holds, grants
/// the port that was just freed: its slot is taken again, so the pool is as
/// it was before the release, and there are as many sessions as before.
pub proof fn lemma_release_then_acquire(p: Pool, released: Seq<char>, token: Seq<char>)
    requires
        p.valid(),
        p.holds(released),
        p.slot_of(p.sessions[p.index_of(released)].port) <= first_free(p.slots),
        token == released || !p.holds(token),
    ensures
        p.release(released).1 == Ok::<u16, BackendError>(p.sessions[p.index_of(released)].port),
        p.release(released).0.acquire(token).1 == Ok::<Binding, BackendError>(
            Binding { token, port: p.sessions[p.index_of(released)].port },
        ),
        p.release(released).0.acquire(token).0.slots == p.slots,
        p.release(released).0.acquire(token).0.sessions.len() == p.sessions.len(),
        p.release(released).0.acquire(token).0.valid(),
{
    let i = p.index_of(released);
    let port = p.sessions[i].port;
    let k = p.slot_of(port);
    let q = p.release(released).0;
    lemma_release_at(p, released, i);
    lemma_release_outcome(p, released);
    lemma_acquire_valid(q, token);
    assert(!q.holds(token));
    assert(first_free(q.slots) == k);
    assert(!p.slots[k].is_available) by {
        reveal(Pool::valid);
    }
    assert(p.slots[k] == (AvailablePort { port, is_available: false }));
    assert(q.acquire(token).0.slots =~= p.slots);
}

/// A token that no live session holds is unknown to `lookup` and to
/// `release`; one that a session holds is found with that session's port.
pub proof fn lemma_lookup_outcome(p: Pool, token: Seq<char>)
    requires
        p.valid(),
    ensures
        p.lookup(token) is Ok <==> p.holds(token),
        !p.holds(token) ==> p.lookup(token) == Err::<Binding, BackendError>(
            BackendError::UnknownSession,
        ),
        p.lookup(token) is Ok ==> p.lookup(token)->Ok_0.token == token && p.port_in_use(
            p.lookup(token)->Ok_0.port,
        ),
        forall|i: int|
            0 <= i < p.sessions.len() ==> p.lookup((#[trigger] p.sessions[i]).token) == Ok::<
                Binding,
                BackendError,
            >(p.sessions[i]),
{
    reveal(Pool::valid);
    if p.holds(token) {
        let i = p.index_of(token);
        assert(p.sessions[i].token == token);
    }
    assert forall|i: int| 0 <= i < p.sessions.len() implies p.lookup(
        (#[trigger] p.sessions[i]).token,
    ) == Ok::<Binding, BackendError>(p.sessions[i]) by {
        lemma_index_of(p, p.sessions[i].token, i);
    }
}

/// A session that was just granted is found by its token, and a session that
/// was just released is not.
pub proof fn lemma_lookup_after(p: Pool, token: Seq<char>)
    requires
        p.valid(),
    ensures
        p.acquire(token).1 is Ok ==> p.acquire(token).0.lookup(token) == p.acquire(token).1,
        p.release(token).0.lookup(token) == Err::<Binding, BackendError>(
            BackendError::UnknownSession,
        ),
{
    lemma_release_outcome(p, token);
    if p.acquire(token).1 is Ok {
        let q = p.acquire(token).0;
        lemma_acquire_valid(p, token);
        lemma_index_of(q, token, p.sessions.len() as int);
    }
}

/// Whether `calls` holds an `acquire` that draws `token`.
pub open spec fn issues(calls: Seq<Call>, token: Seq<char>) -> bool {
    exists|i: int| 0 <= i < calls.len() && #[trigger] calls[i] == Call::Acquire(token)
}

/// A token that was never issued is unknown: if no session holds it at the
/// start and no `acquire` of the history draws it, no session holds it at the
/// end, so `lookup` fails with `UnknownSession`.
pub proof fn lemma_never_issued(p: Pool, calls: Seq<Call>, token: Seq<char>)
    requires
        p.valid(),
        !p.holds(token),
        !issues(calls, token),
    ensures
        !p.run(calls).holds(token),
        p.run(calls).lookup(token) == Err::<Binding, BackendError>(BackendError::UnknownSession),
    decreases calls.len(),
{
    if calls.len() > 0 {
        let earlier = calls.drop_last();
        let before = p.run(earlier);
        assert(!issues(earlier, token)) by {
            if issues(earlier, token) {
                let i = choose|i: int|
                    0 <= i < earlier.len() && #[trigger] earlier[i] == Call::Acquire(token);
                assert(calls[i] == Call::Acquire(token));
            }
        }
        lemma_never_issued(p, earlier, token);
        lemma_run_valid(p, earlier);
        let after = p.run(calls);
        match calls.last() {
            Call::Acquire(drawn) => {
                assert(calls[calls.len() - 1] == Call::Acquire(drawn));
                assert(drawn != token);
                if after.holds(token) {
                    let i = after.index_of(token);
                    assert(after.sessions[i].token == token);
                    if i < before.sessions.len() {
                        assert(before.sessions[i].token == token);
                    }
                }
            },
            Call::Release(gone) => {
                lemma_release_outcome(before, gone);
            },
        }
    }
}

/// The calls that acquire under each of `tokens` in turn.
pub open spec fn acquisitions(tokens: Seq<Seq<char>>) -> Seq<Call> {
    Seq::new(tokens.len(), |i: int| Call::Acquire(tokens[i]))
}

/// The pool of `size` ports from `start` on after its first `count` ports were
/// granted, in order, under the first `count` of `tokens`.
pub open spec fn filled(start: u16, size: nat, tokens: Seq<Seq<char>>, count: int) -> Pool {
    Pool {
        slots: Seq::new(
            size,
            |k: int| (AvailablePort { port: (start + k) as u16, is_available: k >= count }),
        ),
        sessions: Seq::new(
            count as nat,
            |i: int| (Binding { token: tokens[i], port: (start + i) as u16 }),
        ),
    }
}

/// Whether no two of `tokens` are the same.
pub open spec fn pairwise_distinct(tokens: Seq<Seq<char>>) -> bool {
    forall|i: int, j: int| 0 <= i < j < tokens.len() ==> #[trigger] tokens[i] != #[trigger] tokens[j]
}

/// Acquiring again and again on a new pool, with no release in between and a
/// new token each time, succeeds once for each port of the pool and grants
/// the ports in pool order, so all of them differ. The call after the last
/// port fails with `NoSlotsAvailable`, whatever its token, and changes
/// nothing.
pub proof fn lemma_fill_pool(start: u16, size: nat, tokens: Seq<Seq<char>>, count: int)
    requires
        start + size <= 0x1_0000,
        0 <= count <= size,
        count <= tokens.len(),
        pairwise_distinct(tokens),
    ensures
        Pool::fresh(start, size).run(acquisitions(tokens.take(count))) == filled(
            start,
            size,
            tokens,
            count,
        ),
        filled(start, size, tokens, count).valid(),
        count < size && count < tokens.len() ==> filled(start, size, tokens, count).acquire(
            tokens[count],
        ) == (
            filled(start, size, tokens, count + 1),
            Ok::<Binding, BackendError>(
                Binding { token: tokens[count], port: (start + count) as u16 },
            ),
        ),
        count == size ==> forall|extra: Seq<char>|
            (#[trigger] filled(start, size, tokens, count).acquire(extra)) == (
                filled(start, size, tokens, count),
                Err::<Binding, BackendError>(BackendError::NoSlotsAvailable),
            ),
    decreases count,
{
    let fresh = Pool::fresh(start, size);
    let now = filled(start, size, tokens, count);
    let calls = acquisitions(tokens.take(count));
    lemma_fresh_valid(start, size);
    if count == 0 {
        assert(now.slots =~= fresh.slots);
        assert(now.sessions =~= fresh.sessions);
    } else {
        let before = filled(start, size, tokens, count - 1);
        lemma_fill_pool(start, size, tokens, count - 1);
        assert(calls.drop_last() =~= acquisitions(tokens.take(count - 1)));
        assert(calls.last() == Call::Acquire(tokens[count - 1]));
        assert(fresh.run(calls) == before.acquire(tokens[count - 1]).0);
        lemma_acquire_valid(before, tokens[count - 1]);
    }
    lemma_first_free_is(now.slots, count);
    if count < size && count < tokens.len() {
        let next = filled(start, size, tokens, count + 1);
        assert(!now.holds(tokens[count])) by {
            if now.holds(tokens[count]) {
                let i = now.index_of(tokens[count]);
                assert(now.sessions[i].token == tokens[i]);
            }
        }
        let got = now.acquire(tokens[count]).0;
        assert(got.slots =~= next.slots);
        assert(got.sessions =~= next.sessions);
    }
}

/// A request to connect that presents a token unknown to the engine is
/// answered exactly as one that presents none: the client is sent to session
/// creation.
pub proof fn lemma_unknown_token_is_no_token(p: Pool, token: Seq<char>)
    requires
        !p.holds(token),
    ensures
        p.connect(Some(token)) == p.connect(None),
        p.connect(None) == Answer::CreateSession,
{
}

/// What a request to connect is answered. It is forwarded exactly when it
/// presents the token of a live session, and then to that session's port.
/// Every other request is sent to session creation, whatever the pool holds:
/// connecting never issues a token and never fails.
pub proof fn lemma_connect_outcome(p: Pool, presented: Option<Seq<char>>)
    requires
        p.valid(),
    ensures
        p.connect(presented) is Forward <==> presented is Some && p.holds(presented->Some_0),
        p.connect(presented) is Forward ==> p.lookup(presented->Some_0) == Ok::<
            Binding,
            BackendError,
        >(Binding { token: presented->Some_0, port: p.connect(presented)->Forward_0 }),
        !(p.connect(presented) is Forward) ==> p.connect(presented) == Answer::CreateSession,
        presented is Some ==> (p.connect(presented) == Answer::CreateSession <==> p.lookup(
            presented->Some_0,
        ) == Err::<Binding, BackendError>(BackendError::UnknownSession)),
{
    if presented is Some && p.holds(presented->Some_0) {
        let i = p.index_of(presented->Some_0);
        assert(p.sessions[i].token == presented->Some_0);
    }
}

/// What a request to create a session is answered. A session is issued
/// exactly when a slot is free and the token drawn is held by no live
/// session; it is refused for want of a slot exactly when the pool is full.
/// A refusal changes nothing, a request is never forwarded from here, and the
/// invariant holds afterwards.
pub proof fn lemma_create_outcome(p: Pool, drawn: Seq<char>)
    requires
        p.valid(),
    ensures
        p.create(drawn).0.valid(),
        p.create(drawn).0 == p.acquire(drawn).0,
        p.create(drawn).1 is Issue <==> p.sessions.len() < p.slots.len() && !p.holds(drawn),
        p.create(drawn).1 is Issue ==> p.acquire(drawn).1 == Ok::<Binding, BackendError>(
            p.create(drawn).1->Issue_0,
        ) && p.create(drawn).0.connect(Some(drawn)) == Answer::Forward(
            p.create(drawn).1->Issue_0.port,
        ),
        p.create(drawn).1 is Refuse ==> p.create(drawn).0 == p,
        p.create(drawn).1 == Answer::Refuse(BackendError::NoSlotsAvailable) <==> p.sessions.len()
            == p.slots.len(),
        p.create(drawn).1 == Answer::Refuse(BackendError::InternalError) <==> p.sessions.len()
            < p.slots.len() && p.holds(drawn),
        p.create(drawn).1 is Issue || p.create(drawn).1 is Refuse,
        p.create(drawn).1 != Answer::Refuse(BackendError::UnknownSession),
{
    lemma_acquire_valid(p, drawn);
    lemma_acquire_outcome(p, drawn);
    if p.acquire(drawn).1 is Ok {
        let q = p.acquire(drawn).0;
        lemma_index_of(q, drawn, p.sessions.len() as int);
    }
}

} // verus!
