use session_broker::engine::{AvailablePort, DaemonState};
use session_broker::error::BackendError;

fn ports_of(state: &DaemonState) -> Vec<(u16, bool)> {
    let mut out = Vec::new();
    let mut i = 0;
    while let Some(slot) = state.slot(i) {
        out.push((slot.port, slot.is_available));
        i += 1;
    }
    out
}

#[test]
fn new_pool_is_all_free_and_consecutive() {
    let state = DaemonState::new(100, 3);
    assert_eq!(state.pool_size(), 3);
    assert_eq!(state.session_count(), 0);
    assert_eq!(state.available_count(), 3);
    assert_eq!(ports_of(&state), vec![(100, true), (101, true), (102, true)]);
    assert_eq!(state.slot(3), None);
}

#[test]
fn default_pool_is_3500_to_3509() {
    let state = DaemonState::default();
    assert_eq!(state.pool_size(), 10);
    assert_eq!(state.available_count(), 10);
    assert_eq!(state.slot(0), Some(AvailablePort { port: 3500, is_available: true }));
    assert_eq!(state.slot(9), Some(AvailablePort { port: 3509, is_available: true }));
    assert_eq!(state.slot(10), None);
}

#[test]
fn empty_pool_never_grants() {
    let mut state = DaemonState::new(4000, 0);
    assert_eq!(state.pool_size(), 0);
    assert_eq!(state.acquire().unwrap_err(), BackendError::NoSlotsAvailable);
    assert_eq!(state.acquire_with("t".to_string()).unwrap_err(), BackendError::NoSlotsAvailable);
    assert_eq!(state.session_count(), 0);
}

#[test]
fn pool_may_end_at_the_highest_port() {
    let mut state = DaemonState::new(65535, 1);
    let session = state.acquire().unwrap();
    assert_eq!(session.port, 65535);
    assert_eq!(state.acquire().unwrap_err(), BackendError::NoSlotsAvailable);
    let mut whole = DaemonState::new(0, 65536);
    assert_eq!(whole.pool_size(), 65536);
    assert_eq!(whole.acquire().unwrap().port, 0);
    assert_eq!(whole.slot(65535), Some(AvailablePort { port: 65535, is_available: true }));
}

#[test]
fn two_port_pool_scenario() {
    let mut state = DaemonState::new(100, 2);
    let a = state.acquire().unwrap();
    assert_eq!(a.port, 100);
    let b = state.acquire().unwrap();
    assert_eq!(b.port, 101);
    assert_ne!(a.session_id, b.session_id);
    assert_eq!(state.acquire().unwrap_err(), BackendError::NoSlotsAvailable);
    assert_eq!(state.release(&a.session_id), Ok(100));
    let c = state.acquire().unwrap();
    assert_eq!(c.port, 100);
    assert_ne!(c.session_id, a.session_id);
    assert_eq!(state.lookup(&a.session_id).unwrap_err(), BackendError::UnknownSession);
    assert_eq!(state.lookup(&b.session_id).unwrap().port, 101);
    assert_eq!(state.lookup(&c.session_id).unwrap().port, 100);
}

#[test]
fn filling_the_pool_grants_each_port_once() {
    let mut state = DaemonState::default();
    let mut ports = Vec::new();
    let mut tokens = Vec::new();
    for _ in 0..state.pool_size() {
        let session = state.acquire().unwrap();
        ports.push(session.port);
        tokens.push(session.session_id);
    }
    assert_eq!(ports, vec![3500, 3501, 3502, 3503, 3504, 3505, 3506, 3507, 3508, 3509]);
    for i in 0..tokens.len() {
        for j in 0..i {
            assert_ne!(tokens[i], tokens[j]);
        }
    }
    let before = ports_of(&state);
    assert_eq!(state.session_count(), 10);
    assert_eq!(state.available_count(), 0);
    assert_eq!(state.acquire().unwrap_err(), BackendError::NoSlotsAvailable);
    assert_eq!(ports_of(&state), before);
    assert_eq!(state.session_count(), 10);
    for (i, token) in tokens.iter().enumerate() {
        let found = state.lookup(token).unwrap();
        assert_eq!(found.port, ports[i]);
        assert_eq!(&found.session_id, token);
    }
}

#[test]
fn released_port_is_granted_again() {
    let mut state = DaemonState::new(7000, 4);
    let held: Vec<_> = (0..4).map(|_| state.acquire().unwrap()).collect();
    assert_eq!(state.release(&held[2].session_id), Ok(7002));
    assert_eq!(state.slot(2), Some(AvailablePort { port: 7002, is_available: true }));
    assert_eq!(state.available_count(), 1);
    assert_eq!(state.session_count(), 3);
    let again = state.acquire().unwrap();
    assert_eq!(again.port, 7002);
    assert_eq!(state.slot(2), Some(AvailablePort { port: 7002, is_available: false }));
    assert_eq!(state.available_count(), 0);
}

#[test]
fn lowest_free_port_comes_first() {
    let mut state = DaemonState::new(10, 5);
    let held: Vec<_> = (0..5).map(|_| state.acquire().unwrap()).collect();
    assert_eq!(state.release(&held[3].session_id), Ok(13));
    assert_eq!(state.release(&held[1].session_id), Ok(11));
    assert_eq!(state.release(&held[4].session_id), Ok(14));
    assert_eq!(state.acquire().unwrap().port, 11);
    assert_eq!(state.acquire().unwrap().port, 13);
    assert_eq!(state.acquire().unwrap().port, 14);
    assert_eq!(state.acquire().unwrap_err(), BackendError::NoSlotsAvailable);
}

#[test]
fn unknown_and_released_tokens_are_not_found() {
    let mut state = DaemonState::new(100, 2);
    assert_eq!(state.lookup("never-issued").unwrap_err(), BackendError::UnknownSession);
    assert_eq!(state.lookup("").unwrap_err(), BackendError::UnknownSession);
    let a = state.acquire().unwrap();
    assert_eq!(state.lookup("never-issued").unwrap_err(), BackendError::UnknownSession);
    assert_eq!(state.lookup(&a.session_id).unwrap().port, 100);
    assert_eq!(state.release(&a.session_id), Ok(100));
    assert_eq!(state.lookup(&a.session_id).unwrap_err(), BackendError::UnknownSession);
}

#[test]
fn release_of_unknown_token_changes_nothing() {
    let mut state = DaemonState::new(100, 2);
    let a = state.acquire().unwrap();
    let before = ports_of(&state);
    assert_eq!(state.release("never-issued"), Err(BackendError::UnknownSession));
    assert_eq!(ports_of(&state), before);
    assert_eq!(state.session_count(), 1);
    assert_eq!(state.release(&a.session_id), Ok(100));
    assert_eq!(state.release(&a.session_id), Err(BackendError::UnknownSession));
    assert_eq!(state.session_count(), 0);
    assert_eq!(state.available_count(), 2);
}

#[test]
fn acquire_with_a_held_token_is_an_internal_error() {
    let mut state = DaemonState::new(100, 3);
    let first = state.acquire_with("alpha".to_string()).unwrap();
    assert_eq!(first.port, 100);
    assert_eq!(first.session_id, "alpha");
    let before = ports_of(&state);
    assert_eq!(state.acquire_with("alpha".to_string()).unwrap_err(), BackendError::InternalError);
    assert_eq!(ports_of(&state), before);
    assert_eq!(state.session_count(), 1);
    let second = state.acquire_with("beta".to_string()).unwrap();
    assert_eq!(second.port, 101);
    assert_eq!(state.release("alpha"), Ok(100));
    assert_eq!(state.acquire_with("alpha".to_string()).unwrap().port, 100);
}

#[test]
fn exhaustion_is_reported_before_a_held_token() {
    let mut state = DaemonState::new(100, 1);
    state.acquire_with("alpha".to_string()).unwrap();
    assert_eq!(state.acquire_with("alpha".to_string()).unwrap_err(), BackendError::NoSlotsAvailable);
}

#[test]
fn issued_tokens_have_the_hyphenated_shape() {
    let mut state = DaemonState::default();
    for _ in 0..10 {
        let session = state.acquire().unwrap();
        let chars: Vec<char> = session.session_id.chars().collect();
        assert_eq!(chars.len(), 36);
        for (i, c) in chars.iter().enumerate() {
            if i == 8 || i == 13 || i == 18 || i == 23 {
                assert_eq!(*c, '-');
            } else {
                assert!(matches!(*c, '0'..='9' | 'a'..='f'));
            }
        }
        assert_eq!(chars[14], '4');
    }
}

#[test]
fn sessions_never_exceed_the_pool_nor_share_a_port() {
    let mut state = DaemonState::new(200, 3);
    let mut live: Vec<(String, u16)> = Vec::new();
    let script = [1, 1, 0, 1, 1, 1, 0, 0, 1, 0, 0, 0, 1, 1, 1, 1, 0, 1];
    for (step, &grow) in script.iter().enumerate() {
        if grow == 1 {
            match state.acquire() {
                Ok(session) => {
                    assert!(live.len() < 3);
                    live.push((session.session_id, session.port));
                }
                Err(e) => {
                    assert_eq!(e, BackendError::NoSlotsAvailable);
                    assert_eq!(live.len(), 3);
                }
            }
        } else if !live.is_empty() {
            let (token, port) = live.remove(step % live.len());
            assert_eq!(state.release(&token), Ok(port));
        } else {
            assert_eq!(state.release("nobody"), Err(BackendError::UnknownSession));
        }
        assert!(state.session_count() <= state.pool_size());
        assert_eq!(state.session_count(), live.len());
        assert_eq!(state.session_count() + state.available_count(), state.pool_size());
        for i in 0..live.len() {
            assert!((200..203).contains(&live[i].1));
            for j in 0..i {
                assert_ne!(live[i].1, live[j].1);
            }
            assert_eq!(state.lookup(&live[i].0).unwrap().port, live[i].1);
        }
        let busy = ports_of(&state).iter().filter(|(_, free)| !free).count();
        assert_eq!(busy, live.len());
    }
}

#[test]
fn more_callers_than_ports() {
    let mut state = DaemonState::new(9000, 4);
    let callers = 11;
    let mut granted = Vec::new();
    let mut refused = 0;
    for _ in 0..callers {
        match state.acquire() {
            Ok(session) => granted.push(session.port),
            Err(e) => {
                assert_eq!(e, BackendError::NoSlotsAvailable);
                refused += 1;
            }
        }
    }
    assert_eq!(granted.len(), 4);
    assert_eq!(refused, 7);
    granted.sort();
    assert_eq!(granted, vec![9000, 9001, 9002, 9003]);
    assert_eq!(state.available_count(), 0);
}

#[test]
fn session_clone_keeps_token_and_port() {
    let mut state = DaemonState::new(100, 1);
    let session = state.acquire().unwrap();
    let copy = session.clone();
    assert_eq!(copy.session_id, session.session_id);
    assert_eq!(copy.port, 100);
}
