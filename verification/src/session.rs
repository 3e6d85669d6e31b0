//! Obtaining a Last.fm session key. The handshake alternates outside work (the
//! key file, HTTP requests, the web browser) and decisions; the decisions are a
//! state machine here, and whoever drives it performs each action and hands
//! back what came of it.
use vstd::prelude::*;
use crate::lastfm_api::{build_url, request_url};
use crate::json::{
    json_member_str, json_nested_member_str, json_str_member, json_str_nested_member, lookup_view,
};

verus! {

/// Where the handshake stands.
#[derive(Debug, Clone, PartialEq, Eq)]
pub enum SessionState {
    /// Waiting for the contents of the saved key file.
    AwaitStoredKey { api_key: String },
    /// Waiting for the token that `auth.getToken` returned.
    AwaitToken { api_key: String },
    /// Waiting for the user to authorize the token in the browser.
    AwaitAuthorization { api_key: String, token: String },
    /// Waiting for the session key that `auth.getSession` returned.
    AwaitSession,
    /// Waiting for the new session key to be saved.
    AwaitSaved { session_key: String },
    /// The handshake is over.
    Finished,
}

/// What came of the last action.
#[derive(Debug, Clone, PartialEq, Eq)]
pub enum SessionEvent {
    /// The saved session key, if the key file held one.
    StoredKey(Option<String>),
    /// The body of the response to a `Fetch`.
    Response(Vec<u8>),
    /// Whether the browser exited successfully.
    BrowserExited(bool),
    /// The session key was saved.
    Saved,
}

/// What to do next.
#[derive(Debug, Clone, PartialEq, Eq)]
pub enum SessionAction {
    /// Read the saved session key.
    LoadSessionKey,
    /// Send a GET request to the URL and hand back the response body.
    Fetch(String),
    /// Open the link in the web browser, wait for it to exit, then wait fifteen seconds.
    OpenBrowser(String),
    /// Save the session key.
    SaveSessionKey(String),
    /// The handshake ends with this session key, or with none.
    Finish(Option<String>),
    /// The handshake cannot go on: a response lacked what it must hold.
    Abort,
}

/// The mathematical value of a [`SessionState`].
pub enum StateView {
    AwaitStoredKey { api_key: Seq<char> },
    AwaitToken { api_key: Seq<char> },
    AwaitAuthorization { api_key: Seq<char>, token: Seq<char> },
    AwaitSession,
    AwaitSaved { session_key: Seq<char> },
    Finished,
}

/// The mathematical value of a [`SessionEvent`].
pub enum EventView {
    StoredKey(Option<Seq<char>>),
    Response(Seq<u8>),
    BrowserExited(bool),
    Saved,
}

/// The mathematical value of a [`SessionAction`].
pub enum ActionView {
    LoadSessionKey,
    Fetch(Seq<char>),
    OpenBrowser(Seq<char>),
    SaveSessionKey(Seq<char>),
    Finish(Option<Seq<char>>),
    Abort,
}

/// The view of an optional string.
pub open spec fn opt_view(o: Option<String>) -> Option<Seq<char>> {
    match o {
        Some(s) => Some(s@),
        None => None,
    }
}

impl View for SessionState {
    type V = StateView;

    open spec fn view(&self) -> StateView {
        match self {
            SessionState::AwaitStoredKey { api_key } => StateView::AwaitStoredKey { api_key: api_key@ },
            SessionState::AwaitToken { api_key } => StateView::AwaitToken { api_key: api_key@ },
            SessionState::AwaitAuthorization { api_key, token } => StateView::AwaitAuthorization {
                api_key: api_key@,
                token: token@,
            },
            SessionState::AwaitSession => StateView::AwaitSession,
            SessionState::AwaitSaved { session_key } => StateView::AwaitSaved {
                session_key: session_key@,
            },
            SessionState::Finished => StateView::Finished,
        }
    }
}

impl View for SessionEvent {
    type V = EventView;

    open spec fn view(&self) -> EventView {
        match self {
            SessionEvent::StoredKey(k) => EventView::StoredKey(opt_view(*k)),
            SessionEvent::Response(body) => EventView::Response(body@),
            SessionEvent::BrowserExited(ok) => EventView::BrowserExited(*ok),
            SessionEvent::Saved => EventView::Saved,
        }
    }
}

impl View for SessionAction {
    type V = ActionView;

    open spec fn view(&self) -> ActionView {
        match self {
            SessionAction::LoadSessionKey => ActionView::LoadSessionKey,
            SessionAction::Fetch(u) => ActionView::Fetch(u@),
            SessionAction::OpenBrowser(l) => ActionView::OpenBrowser(l@),
            SessionAction::SaveSessionKey(k) => ActionView::SaveSessionKey(k@),
            SessionAction::Finish(k) => ActionView::Finish(opt_view(*k)),
            SessionAction::Abort => ActionView::Abort,
        }
    }
}

/// The URL that asks for a request token.
pub open spec fn token_url(api_key: Seq<char>) -> Seq<char> {
    "http://ws.audioscrobbler.com/2.0/?method=auth.getToken&api_key="@ + api_key + "&format=json"@
}

/// The page where the user authorizes a token.
pub open spec fn auth_link(api_key: Seq<char>, token: Seq<char>) -> Seq<char> {
    "http://www.last.fm/api/auth/?api_key="@ + api_key + "&token="@ + token
}

/// The signed URL that exchanges an authorized token for a session key.
pub open spec fn session_url(api_key: Seq<char>, token: Seq<char>) -> Seq<char> {
    request_url(seq![("method"@, "auth.getSession"@), ("api_key"@, api_key), ("token"@, token)])
}

/// The handshake's first state and action.
pub open spec fn session_begin(api_key: Seq<char>) -> (StateView, ActionView) {
    (StateView::AwaitStoredKey { api_key }, ActionView::LoadSessionKey)
}

/// What follows the lookup of the token in the response: a string token is
/// authorized in the browser; a body that is not JSON, or has no string token, aborts.
pub open spec fn after_token(api_key: Seq<char>, lookup: Option<Option<Seq<char>>>) -> (
    StateView,
    ActionView,
) {
    match lookup {
        Some(Some(token)) => (
            StateView::AwaitAuthorization { api_key, token },
            ActionView::OpenBrowser(auth_link(api_key, token)),
        ),
        _ => (StateView::Finished, ActionView::Abort),
    }
}

/// What follows the lookup of the session key in the response: a string key is
/// saved; a body that is not JSON, or has no string key, aborts.
pub open spec fn after_session_key(lookup: Option<Option<Seq<char>>>) -> (StateView, ActionView) {
    match lookup {
        Some(Some(key)) => (StateView::AwaitSaved { session_key: key }, ActionView::SaveSessionKey(key)),
        _ => (StateView::Finished, ActionView::Abort),
    }
}

/// One step of the handshake: a saved key ends it at once; otherwise a token is
/// fetched (the `token` string of the JSON response), authorized in the browser
/// and exchanged for a session key (the `session.key` string), which is saved
/// and then returned. A response that is not JSON or lacks that string, or an
/// event that does not fit the state, aborts; a browser that fails ends the
/// handshake without a key.
pub open spec fn session_transition(s: StateView, e: EventView) -> (StateView, ActionView) {
    match (s, e) {
        (StateView::AwaitStoredKey { api_key }, EventView::StoredKey(stored)) => match stored {
            Some(k) => (StateView::Finished, ActionView::Finish(Some(k))),
            None => (StateView::AwaitToken { api_key }, ActionView::Fetch(token_url(api_key))),
        },
        (StateView::AwaitToken { api_key }, EventView::Response(body)) => after_token(
            api_key,
            json_str_member(body, "token"@),
        ),
        (StateView::AwaitAuthorization { api_key, token }, EventView::BrowserExited(ok)) => if ok {
            (StateView::AwaitSession, ActionView::Fetch(session_url(api_key, token)))
        } else {
            (StateView::Finished, ActionView::Finish(None))
        },
        (StateView::AwaitSession, EventView::Response(body)) => after_session_key(
            json_str_nested_member(body, "session"@, "key"@),
        ),
        (StateView::AwaitSaved { session_key }, EventView::Saved) => (
            StateView::Finished,
            ActionView::Finish(Some(session_key)),
        ),
        _ => (StateView::Finished, ActionView::Abort),
    }
}

/// Starts the handshake for the application key `api_key`.
pub fn session_start(api_key: &str) -> (r: (SessionState, SessionAction))
    ensures
        (r.0@, r.1@) == session_begin(api_key@),
{
    (SessionState::AwaitStoredKey { api_key: String::from_str(api_key) }, SessionAction::LoadSessionKey)
}

/// The next state and action once the token was looked up in the response:
/// `lookup` is `None` where the body is not JSON, `Some(None)` where it has no
/// string `token`.
pub fn token_received(api_key: String, lookup: Option<Option<String>>) -> (r: (
    SessionState,
    SessionAction,
))
    ensures
        (r.0@, r.1@) == after_token(api_key@, lookup_view(lookup)),
{
    match lookup {
        Some(Some(token)) => {
            let mut link = String::from_str("http://www.last.fm/api/auth/?api_key=");
            link.append(api_key.as_str());
            link.append("&token=");
            link.append(token.as_str());
            (SessionState::AwaitAuthorization { api_key, token }, SessionAction::OpenBrowser(link))
        },
        _ => (SessionState::Finished, SessionAction::Abort),
    }
}

/// The next state and action once the session key was looked up in the
/// response: `lookup` is `None` where the body is not JSON, `Some(None)` where
/// it has no string `session.key`.
pub fn session_key_received(lookup: Option<Option<String>>) -> (r: (SessionState, SessionAction))
    ensures
        (r.0@, r.1@) == after_session_key(lookup_view(lookup)),
{
    match lookup {
        Some(Some(key)) => {
            let saved = key.clone();
            (SessionState::AwaitSaved { session_key: key }, SessionAction::SaveSessionKey(saved))
        },
        _ => (SessionState::Finished, SessionAction::Abort),
    }
}

/// Decides the next state and action from what came of the last action.
pub fn session_step(state: SessionState, event: SessionEvent) -> (r: (SessionState, SessionAction))
    ensures
        (r.0@, r.1@) == session_transition(state@, event@),
{
    match (state, event) {
        (SessionState::AwaitStoredKey { api_key }, SessionEvent::StoredKey(stored)) => match stored {
            Some(k) => (SessionState::Finished, SessionAction::Finish(Some(k))),
            None => {
                let mut url = String::from_str(
                    "http://ws.audioscrobbler.com/2.0/?method=auth.getToken&api_key=",
                );
                url.append(api_key.as_str());
                url.append("&format=json");
                (SessionState::AwaitToken { api_key }, SessionAction::Fetch(url))
            },
        },
        (SessionState::AwaitToken { api_key }, SessionEvent::Response(body)) => {
            let lookup = json_member_str(body.as_slice(), "token");
            token_received(api_key, lookup)
        },
        (SessionState::AwaitAuthorization { api_key, token }, SessionEvent::BrowserExited(ok)) => {
            if ok {
                let mut params: Vec<(&str, &str)> = Vec::new();
                params.push(("method", "auth.getSession"));
                params.push(("api_key", api_key.as_str()));
                params.push(("token", token.as_str()));
                let url = build_url(&params);
                proof {
                    assert(crate::sorting::str_param_views(params@) =~= seq![
                        ("method"@, "auth.getSession"@),
                        ("api_key"@, api_key@),
                        ("token"@, token@),
                    ]);
                }
                (SessionState::AwaitSession, SessionAction::Fetch(url))
            } else {
                (SessionState::Finished, SessionAction::Finish(None))
            }
        },
        (SessionState::AwaitSession, SessionEvent::Response(body)) => {
            let lookup = json_nested_member_str(body.as_slice(), "session", "key");
            session_key_received(lookup)
        },
        (SessionState::AwaitSaved { session_key }, SessionEvent::Saved) => (
            SessionState::Finished,
            SessionAction::Finish(Some(session_key)),
        ),
        _ => (SessionState::Finished, SessionAction::Abort),
    }
}

/// The session key that a key file with the contents `contents` holds: none
/// when the file is empty.
pub open spec fn stored_session_key(contents: Seq<char>) -> Option<Seq<char>> {
    if contents.len() == 0 {
        None
    } else {
        Some(contents)
    }
}

/// The session key that the contents of the key file hold.
pub fn session_key_from_contents(contents: String) -> (key: Option<String>)
    ensures
        opt_view(key) == stored_session_key(contents@),
{
    if contents.as_str().is_empty() {
        None
    } else {
        Some(contents)
    }
}

/// A key that the service returned is saved before the handshake ends, and the
/// handshake then ends with that very key.
pub proof fn lemma_returned_key_is_saved(body: Seq<u8>)
    ensures
        json_str_nested_member(body, "session"@, "key"@) matches Some(Some(key)) ==> ({
            let (s1, a1) = session_transition(StateView::AwaitSession, EventView::Response(body));
            let (s2, a2) = session_transition(s1, EventView::Saved);
            a1 == ActionView::SaveSessionKey(key) && a2 == ActionView::Finish(Some(key))
                && s2 == StateView::Finished
        }),
{
}

/// A key that one handshake obtained and saved ends the next handshake at once,
/// for any application key, with nothing fetched and no browser opened, when
/// the key file then holds what was saved and the key is not empty.
pub proof fn lemma_saved_key_reused(body: Seq<u8>, next_api_key: Seq<char>)
    ensures
        json_str_nested_member(body, "session"@, "key"@) matches Some(Some(key)) ==> (key.len() > 0
            ==> {
            let (s1, a1) = session_transition(StateView::AwaitSession, EventView::Response(body));
            let (t0, b0) = session_begin(next_api_key);
            let (t1, b1) = session_transition(t0, EventView::StoredKey(stored_session_key(key)));
            a1 == ActionView::SaveSessionKey(key) && b0 == ActionView::LoadSessionKey && b1
                == ActionView::Finish(Some(key)) && t1 == StateView::Finished
        }),
{
}

/// Once the browser authorized the token, the session key is asked for with
/// the signed request URL of exactly the method, the application key and the
/// token: the signature covers all three.
pub proof fn lemma_session_request_signed(api_key: Seq<char>, token: Seq<char>)
    ensures
        session_transition(
            StateView::AwaitAuthorization { api_key, token },
            EventView::BrowserExited(true),
        ) == (StateView::AwaitSession, ActionView::Fetch(
            request_url(
                seq![("method"@, "auth.getSession"@), ("api_key"@, api_key), ("token"@, token)],
            ),
        )),
{
}

/// A saved key ends the handshake at once with that key, and nothing is fetched.
pub proof fn lemma_stored_key_used(api_key: Seq<char>, contents: Seq<char>)
    requires
        contents.len() > 0,
    ensures
        ({
            let (s0, a0) = session_begin(api_key);
            let (s1, a1) = session_transition(s0, EventView::StoredKey(stored_session_key(contents)));
            a0 == ActionView::LoadSessionKey && a1 == ActionView::Finish(Some(contents))
                && s1 == StateView::Finished
        }),
{
}

} // verus!
