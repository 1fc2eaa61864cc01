use session_broker::engine::{AvailablePort, DaemonState};
use session_broker::error::BackendError;
use session_broker::gateway::{
    connect_client, create_session, create_session_with, GatewayReply, CONNECT_PATH,
    CREATE_SESSION_PATH, SESSION_COOKIE,
};

fn issued(reply: GatewayReply) -> (String, u16) {
    match reply {
        GatewayReply::Issue { session } => (session.session_id, session.port),
        other => panic!("expected a new session, got {:?}", other),
    }
}

fn snapshot(state: &DaemonState) -> (usize, Vec<AvailablePort>) {
    let mut slots = Vec::new();
    let mut i = 0;
    while let Some(slot) = state.slot(i) {
        slots.push(slot);
        i += 1;
    }
    (state.session_count(), slots)
}

fn assert_sent_to_creation(reply: &GatewayReply) {
    assert!(matches!(reply, GatewayReply::CreateSession));
    assert_eq!(reply.status_code(), 303);
    assert_eq!(reply.redirect_to(), Some("/gen_session"));
    assert!(reply.issued_token().is_none());
}

#[test]
fn names_of_cookie_and_paths() {
    assert_eq!(SESSION_COOKIE, "session_id");
    assert_eq!(CONNECT_PATH, "/connect");
    assert_eq!(CREATE_SESSION_PATH, "/gen_session");
}

#[test]
fn connect_without_token_is_sent_to_creation() {
    let state = DaemonState::default();
    let before = snapshot(&state);
    let reply = connect_client(&state, None);
    assert_sent_to_creation(&reply);
    assert_eq!(snapshot(&state), before);
    assert_eq!(state.session_count(), 0);
    assert_eq!(state.available_count(), 10);
}

#[test]
fn connect_with_unknown_token_is_sent_to_creation() {
    let state = DaemonState::default();
    let before = snapshot(&state);
    assert_eq!(state.lookup("nope").unwrap_err(), BackendError::UnknownSession);
    let reply = connect_client(&state, Some("nope"));
    assert_sent_to_creation(&reply);
    assert_eq!(snapshot(&state), before);
    assert_eq!(state.slot(0), Some(AvailablePort { port: 3500, is_available: true }));
}

#[test]
fn connect_with_stale_token_on_a_full_pool_is_sent_to_creation() {
    let mut state = DaemonState::new(100, 2);
    assert_eq!(state.acquire_with("A".to_string()).unwrap().port, 100);
    assert_eq!(state.acquire_with("B".to_string()).unwrap().port, 101);
    assert_eq!(state.release("A"), Ok(100));
    assert_eq!(state.acquire_with("C".to_string()).unwrap().port, 100);
    let before = snapshot(&state);
    assert_eq!(state.lookup("A").unwrap_err(), BackendError::UnknownSession);
    let reply = connect_client(&state, Some("A"));
    assert_sent_to_creation(&reply);
    assert_eq!(snapshot(&state), before);
    assert!(matches!(connect_client(&state, Some("C")), GatewayReply::Forward { port: 100 }));
    assert!(matches!(connect_client(&state, Some("B")), GatewayReply::Forward { port: 101 }));
}

#[test]
fn unknown_token_is_served_like_no_token() {
    let mut state = DaemonState::new(100, 3);
    let pools = [0usize, 1, 2, 3];
    for held in pools {
        while state.session_count() < held {
            state.acquire().unwrap();
        }
        let before = snapshot(&state);
        let with_token = connect_client(&state, Some("forged"));
        let without = connect_client(&state, None);
        assert_sent_to_creation(&with_token);
        assert_sent_to_creation(&without);
        assert_eq!(with_token.status_code(), without.status_code());
        assert_eq!(with_token.redirect_to(), without.redirect_to());
        assert!(with_token.status_code() < 400);
        assert_eq!(snapshot(&state), before);
    }
}

#[test]
fn connect_with_live_token_is_forwarded() {
    let mut state = DaemonState::new(100, 2);
    let (first, _) = issued(create_session(&mut state));
    let (second, _) = issued(create_session(&mut state));
    let before = snapshot(&state);
    for _ in 0..3 {
        let reply = connect_client(&state, Some(&second));
        assert_eq!(reply.status_code(), 200);
        assert_eq!(reply.redirect_to(), None);
        assert!(reply.issued_token().is_none());
        assert!(matches!(reply, GatewayReply::Forward { port: 101 }));
        let reply = connect_client(&state, Some(&first));
        assert!(matches!(reply, GatewayReply::Forward { port: 100 }));
    }
    assert_eq!(snapshot(&state), before);
}

#[test]
fn create_session_issues_a_token_and_sends_back_to_connect() {
    let mut state = DaemonState::new(100, 2);
    let reply = create_session(&mut state);
    assert_eq!(reply.status_code(), 303);
    assert_eq!(reply.redirect_to(), Some("/connect"));
    let token = reply.issued_token().unwrap().clone();
    let (id, port) = issued(reply);
    assert_eq!(id, token);
    assert_eq!(port, 100);
    assert_eq!(state.lookup(&token).unwrap().port, 100);
    assert!(matches!(connect_client(&state, Some(&token)), GatewayReply::Forward { port: 100 }));
}

#[test]
fn connect_then_create_then_connect() {
    let mut state = DaemonState::new(100, 1);
    assert_sent_to_creation(&connect_client(&state, None));
    let (token, port) = issued(create_session(&mut state));
    assert_eq!(port, 100);
    assert!(matches!(connect_client(&state, Some(&token)), GatewayReply::Forward { port: 100 }));
    assert_eq!(state.release(&token), Ok(100));
    assert_sent_to_creation(&connect_client(&state, Some(&token)));
    let (again, port) = issued(create_session(&mut state));
    assert_eq!(port, 100);
    assert_ne!(again, token);
}

#[test]
fn create_session_on_a_full_pool_is_service_unavailable() {
    let mut state = DaemonState::new(100, 1);
    let (held, _) = issued(create_session(&mut state));
    let before = snapshot(&state);
    let reply = create_session(&mut state);
    assert_eq!(reply.status_code(), 503);
    assert_eq!(reply.redirect_to(), None);
    assert!(reply.issued_token().is_none());
    assert!(matches!(reply, GatewayReply::Refuse { error: BackendError::NoSlotsAvailable }));
    let reply = create_session_with(&mut state, "other".to_string());
    assert!(matches!(reply, GatewayReply::Refuse { error: BackendError::NoSlotsAvailable }));
    assert_eq!(snapshot(&state), before);
    assert_sent_to_creation(&connect_client(&state, Some("forged")));
    assert_sent_to_creation(&connect_client(&state, None));
    assert!(matches!(connect_client(&state, Some(&held)), GatewayReply::Forward { port: 100 }));
}

#[test]
fn create_session_with_a_given_token() {
    let mut state = DaemonState::new(100, 2);
    let reply = create_session_with(&mut state, "next".to_string());
    assert_eq!(reply.status_code(), 303);
    assert_eq!(issued(reply), ("next".to_string(), 100));
    assert_eq!(state.session_count(), 1);
    assert_eq!(state.slot(0), Some(AvailablePort { port: 100, is_available: false }));
}

#[test]
fn drawn_token_already_held_is_an_internal_error() {
    let mut state = DaemonState::new(100, 2);
    state.acquire_with("held".to_string()).unwrap();
    let before = snapshot(&state);
    let reply = create_session_with(&mut state, "held".to_string());
    assert_eq!(reply.status_code(), 500);
    assert_eq!(reply.redirect_to(), None);
    assert!(matches!(reply, GatewayReply::Refuse { error: BackendError::InternalError }));
    assert_eq!(snapshot(&state), before);
}

#[test]
fn error_status_and_message() {
    assert_eq!(BackendError::InternalError.status_code(), 500);
    assert_eq!(BackendError::NoSlotsAvailable.status_code(), 503);
    assert_eq!(BackendError::UnknownSession.status_code(), 404);
    assert_eq!(BackendError::InternalError.message(), "internal server error");
    assert_eq!(BackendError::NoSlotsAvailable.message(), "no slots available");
    assert_eq!(BackendError::UnknownSession.message(), "unknown session");
}
