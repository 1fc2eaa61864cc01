//! The request protocol on top of the engine.
//!
//! A request to connect only reads the engine. If it presents the token of a
//! live session it is forwarded to that session's port; otherwise, whether it
//! presents no token or one that no session holds, the client is sent to
//! session creation. A request to create a session is the one that acquires.
//! So each request consults the engine once.

use crate::engine::{outcome_view, DaemonState, Session};
use crate::error::{status_of, BackendError};
use crate::model::{first_free, Answer};
use crate::token::is_token_text;
use vstd::prelude::*;

verus! {

/// The name of the cookie that carries the token.
pub const SESSION_COOKIE: &'static str = "session_id";

/// Where a client connects, and where it is sent once it has a token.
pub const CONNECT_PATH: &'static str = "/connect";

/// Where a client without a live session is sent to get one.
pub const CREATE_SESSION_PATH: &'static str = "/gen_session";

/// How the gateway answers a request.
#[derive(Debug)]
pub enum GatewayReply {
    /// The request goes on to the backend on this port.
    Forward { port: u16 },
    /// The request presents no token of a live session: the client is sent
    /// to session creation, and nothing is granted yet.
    CreateSession,
    /// A session was granted: its token goes to the client, which is sent
    /// back to try again with it.
    Issue { session: Session },
    /// The request fails.
    Refuse { error: BackendError },
}

impl View for GatewayReply {
    type V = Answer;

    open spec fn view(&self) -> Answer {
        match self {
            GatewayReply::Forward { port } => Answer::Forward(*port),
            GatewayReply::CreateSession => Answer::CreateSession,
            GatewayReply::Issue { session } => Answer::Issue(session@),
            GatewayReply::Refuse { error } => Answer::Refuse(*error),
        }
    }
}

/// The HTTP status that stands for each answer: success, a redirect, or the
/// status of the failure.
pub open spec fn answer_status(answer: Answer) -> u16 {
    match answer {
        Answer::Forward(_) => 200,
        Answer::CreateSession => 303,
        Answer::Issue(_) => 303,
        Answer::Refuse(e) => status_of(e),
    }
}

/// Where each answer sends the client, if anywhere: to session creation, or
/// back to connect once a session was issued.
pub open spec fn answer_location(answer: Answer) -> Option<Seq<char>> {
    match answer {
        Answer::CreateSession => Some(CREATE_SESSION_PATH@),
        Answer::Issue(_) => Some(CONNECT_PATH@),
        _ => None,
    }
}

/// The token that a request presents, as the model sees it.
pub open spec fn presented_view(presented: Option<&str>) -> Option<Seq<char>> {
    match presented {
        Some(token) => Some(token@),
        None => None,
    }
}

impl GatewayReply {
    /// The HTTP status code to answer with.
    pub fn status_code(&self) -> (code: u16)
        ensures
            code == answer_status(self@),
    {
        match self {
            GatewayReply::Forward { .. } => 200,
            GatewayReply::CreateSession => 303,
            GatewayReply::Issue { .. } => 303,
            GatewayReply::Refuse { error } => error.status_code(),
        }
    }

    /// The path to redirect the client to, if the answer is a redirect.
    pub fn redirect_to(&self) -> (path: Option<&'static str>)
        ensures
            match answer_location(self@) {
                Some(text) => path is Some && path->Some_0@ == text,
                None => path is None,
            },
    {
        match self {
            GatewayReply::CreateSession => Some(CREATE_SESSION_PATH),
            GatewayReply::Issue { .. } => Some(CONNECT_PATH),
            _ => None,
        }
    }

    /// The token to hand to the client: that of the session granted, if one
    /// was. No other answer issues a token.
    pub fn issued_token(&self) -> (token: Option<&String>)
        ensures
            match self@ {
                Answer::Issue(granted) => token is Some && token->Some_0@ == granted.token,
                _ => token is None,
            },
    {
        match self {
            GatewayReply::Issue { session } => Some(&session.session_id),
            _ => None,
        }
    }
}

/// Serves a request to connect that presents `presented`.
///
/// The state is only read: no slot is taken or freed and no session is added
/// or removed. The token of a live session is forwarded to that session's
/// port. Every other request gets the one answer `CreateSession`, whatever
/// the pool holds: an unknown token is handled exactly as no token, and is
/// never reported as a failure.
pub fn connect_client(state: &DaemonState, presented: Option<&str>) -> (reply: GatewayReply)
    requires
        state.wf(),
    ensures
        reply@ == state@.connect(presented_view(presented)),
{
    if let Some(token) = presented {
        if let Ok(session) = state.lookup(token) {
            return GatewayReply::Forward { port: session.port };
        }
    }
    GatewayReply::CreateSession
}

/// Serves a request for a new session with `drawn` as the token drawn for it:
/// the session is issued, or the failure of `acquire_with` is reported.
pub fn create_session_with(state: &mut DaemonState, drawn: String) -> (reply: GatewayReply)
    requires
        old(state).wf(),
    ensures
        final(state).wf(),
        final(state)@ == old(state)@.create(drawn@).0,
        reply@ == old(state)@.create(drawn@).1,
{
    match state.acquire_with(drawn) {
        Ok(session) => GatewayReply::Issue { session },
        Err(error) => GatewayReply::Refuse { error },
    }
}

/// Serves a request for a new session: grants the first free port under a
/// freshly drawn token, or fails as the engine's `acquire` does.
///
/// With no free slot the answer is the refusal `NoSlotsAvailable` and nothing
/// changes. With a free slot a token of the issued shape is drawn and the
/// outcome is that of [`create_session_with`] on it: the session on the first
/// free port, or `InternalError` should a live session hold that very token.
pub fn create_session(state: &mut DaemonState) -> (reply: GatewayReply)
    requires
        old(state).wf(),
    ensures
        final(state).wf(),
        first_free(old(state)@.slots) >= old(state)@.slots.len() ==> final(state)@ == old(state)@
            && reply@ == Answer::Refuse(BackendError::NoSlotsAvailable),
        first_free(old(state)@.slots) < old(state)@.slots.len() ==> exists|drawn: Seq<char>|
            is_token_text(drawn) && final(state)@ == (#[trigger] old(state)@.create(drawn)).0
                && reply@ == old(state)@.create(drawn).1,
        reply@ is Issue || reply@ is Refuse,
        reply@ is Refuse ==> final(state)@ == old(state)@,
        reply@ is Refuse && first_free(old(state)@.slots) < old(state)@.slots.len() ==> reply@
            == Answer::Refuse(BackendError::InternalError) && old(state)@.sessions.len() > 0,
        reply@ is Issue ==> reply@->Issue_0.port == old(state)@.slots[first_free(
            old(state)@.slots,
        )].port && is_token_text(reply@->Issue_0.token),
{
    let granted = state.acquire();
    proof {
        if first_free(old(state)@.slots) < old(state)@.slots.len() {
            let drawn = choose|drawn: Seq<char>|
                is_token_text(drawn) && state@ == (#[trigger] old(state)@.acquire(drawn)).0
                    && outcome_view(granted) == old(state)@.acquire(drawn).1;
            assert(state@ == old(state)@.create(drawn).0);
        }
    }
    match granted {
        Ok(session) => GatewayReply::Issue { session },
        Err(error) => GatewayReply::Refuse { error },
    }
}

} // verus!
