use rastfm::session::{
    session_key_from_contents, session_key_received, session_start, session_step, token_received,
    SessionAction, SessionEvent, SessionState,
};

#[test]
fn stored_key_ends_the_handshake() {
    let (state, action) = session_start("KEY");
    assert_eq!(action, SessionAction::LoadSessionKey);
    let (state, action) = session_step(state, SessionEvent::StoredKey(Some("sk".to_string())));
    assert_eq!(state, SessionState::Finished);
    assert_eq!(action, SessionAction::Finish(Some("sk".to_string())));
}

#[test]
fn full_handshake_saves_then_returns_the_key() {
    let (state, _) = session_start("KEY");
    let (state, action) = session_step(state, SessionEvent::StoredKey(None));
    assert_eq!(
        action,
        SessionAction::Fetch(
            "http://ws.audioscrobbler.com/2.0/?method=auth.getToken&api_key=KEY&format=json".to_string()
        )
    );
    let (state, action) = session_step(state, SessionEvent::Response(b"{\"token\": \"TOK\"}".to_vec()));
    assert_eq!(
        action,
        SessionAction::OpenBrowser("http://www.last.fm/api/auth/?api_key=KEY&token=TOK".to_string())
    );
    let (state, action) = session_step(state, SessionEvent::BrowserExited(true));
    match action {
        SessionAction::Fetch(url) => assert!(url.starts_with(
            "http://ws.audioscrobbler.com/2.0/?method=auth.getSession&api_key=KEY&token=TOK&api_sig="
        ) && url.ends_with("&format=json")),
        other => panic!("unexpected {:?}", other),
    }
    let (state, action) = session_step(state, SessionEvent::Response(b"{\"session\": {\"name\": \"u\", \"key\": \"S\"}}".to_vec()));
    assert_eq!(action, SessionAction::SaveSessionKey("S".to_string()));
    let (state, action) = session_step(state, SessionEvent::Saved);
    assert_eq!(state, SessionState::Finished);
    assert_eq!(action, SessionAction::Finish(Some("S".to_string())));
}

#[test]
fn missing_token_aborts_and_failed_browser_gives_no_key() {
    let (state, _) = session_start("");
    let (state, _) = session_step(state, SessionEvent::StoredKey(None));
    let (_, action) = session_step(state, SessionEvent::Response(b"{\"error\": 4}".to_vec()));
    assert_eq!(action, SessionAction::Abort);
    let state = SessionState::AwaitAuthorization { api_key: "k".to_string(), token: "t".to_string() };
    let (_, action) = session_step(state, SessionEvent::BrowserExited(false));
    assert_eq!(action, SessionAction::Finish(None));
    let (_, action) = session_step(SessionState::AwaitSession, SessionEvent::Response(b"not json".to_vec()));
    assert_eq!(action, SessionAction::Abort);
    let (_, action) = session_step(SessionState::AwaitSession, SessionEvent::Response(b"{\"session\": {\"key\": 5}}".to_vec()));
    assert_eq!(action, SessionAction::Abort);
    let (_, action) = session_step(SessionState::Finished, SessionEvent::Saved);
    assert_eq!(action, SessionAction::Abort);
}

#[test]
fn key_file_contents() {
    assert_eq!(session_key_from_contents(String::new()), None);
    assert_eq!(session_key_from_contents("lolxdkey".to_string()), Some("lolxdkey".to_string()));
}

#[test]
fn token_that_is_no_string_aborts() {
    let state = SessionState::AwaitToken { api_key: "k".to_string() };
    let (_, action) = session_step(state, SessionEvent::Response(b"{\"token\": null}".to_vec()));
    assert_eq!(action, SessionAction::Abort);
    let state = SessionState::AwaitToken { api_key: "k".to_string() };
    let (_, action) = session_step(state, SessionEvent::Response(b"[\"token\"]".to_vec()));
    assert_eq!(action, SessionAction::Abort);
}

#[test]
fn lookups_decide_the_next_step() {
    let (state, action) = token_received("K".to_string(), Some(Some("T".to_string())));
    assert_eq!(state, SessionState::AwaitAuthorization { api_key: "K".to_string(), token: "T".to_string() });
    assert_eq!(action, SessionAction::OpenBrowser("http://www.last.fm/api/auth/?api_key=K&token=T".to_string()));
    assert_eq!(token_received("K".to_string(), Some(None)).1, SessionAction::Abort);
    assert_eq!(token_received("K".to_string(), None).1, SessionAction::Abort);
    let (state, action) = session_key_received(Some(Some("S".to_string())));
    assert_eq!(state, SessionState::AwaitSaved { session_key: "S".to_string() });
    assert_eq!(action, SessionAction::SaveSessionKey("S".to_string()));
    assert_eq!(session_key_received(Some(None)).1, SessionAction::Abort);
    assert_eq!(session_key_received(None).1, SessionAction::Abort);
}
