//! A credentials-based interface to the Last.fm web API whose operations are
//! placeholders: authorization yields fixed credentials, the session key is a
//! fixed default, and scrobbling leaves the tracks as they are.
use vstd::prelude::*;
use crate::logfile::TrackInfo;

verus! {

/// Credentials for the Last.fm web API.
pub struct ApiCredentials {
    username: String,
    password: String,
    api_key: String,
    api_secret: String,
}

/// Credentials for the Last.fm web API with a session key.
pub struct AuthorizedApiCredentials {
    username: String,
    password: String,
    api_key: String,
    api_secret: String,
    session_key: String,
}

impl ApiCredentials {
    /// The username.
    pub closed spec fn username(&self) -> Seq<char> {
        self.username@
    }

    /// The password.
    pub closed spec fn password(&self) -> Seq<char> {
        self.password@
    }

    /// The API key.
    pub closed spec fn api_key(&self) -> Seq<char> {
        self.api_key@
    }

    /// The API secret.
    pub closed spec fn api_secret(&self) -> Seq<char> {
        self.api_secret@
    }

    /// Credentials with the given user name, password, API key and API secret.
    pub fn new(username: &str, password: &str, api_key: &str, api_secret: &str) -> (c: Self)
        ensures
            c.username() == username@,
            c.password() == password@,
            c.api_key() == api_key@,
            c.api_secret() == api_secret@,
    {
        ApiCredentials {
            username: String::from_str(username),
            password: String::from_str(password),
            api_key: String::from_str(api_key),
            api_secret: String::from_str(api_secret),
        }
    }

    /// Authorizes the credentials; the result is always the same fixed set of
    /// credentials, whatever `self` holds.
    pub fn authorize(&self) -> (r: Option<AuthorizedApiCredentials>)
        ensures
            r matches Some(a) && a.username() == "lol"@ && a.password() == "kek"@ && a.api_key()
                == "omg"@ && a.api_secret() == "lmao"@ && a.session_key() == "rofl"@,
    {
        Some(
            AuthorizedApiCredentials {
                username: String::from_str("lol"),
                password: String::from_str("kek"),
                api_key: String::from_str("omg"),
                api_secret: String::from_str("lmao"),
                session_key: String::from_str("rofl"),
            },
        )
    }

    /// The session key: always `default`.
    fn get_session(&self) -> (r: Option<String>)
        ensures
            r matches Some(k) && k@ == "default"@,
    {
        Some(String::from_str("default"))
    }

    /// Saving a session key does nothing.
    fn save_session_key(session_key: &String) {
    }

    /// The saved session key: always `default`.
    fn load_session_key() -> (r: Option<String>)
        ensures
            r matches Some(k) && k@ == "default"@,
    {
        Some(String::from_str("default"))
    }
}

impl AuthorizedApiCredentials {
    /// The username.
    pub closed spec fn username(&self) -> Seq<char> {
        self.username@
    }

    /// The password.
    pub closed spec fn password(&self) -> Seq<char> {
        self.password@
    }

    /// The API key.
    pub closed spec fn api_key(&self) -> Seq<char> {
        self.api_key@
    }

    /// The API secret.
    pub closed spec fn api_secret(&self) -> Seq<char> {
        self.api_secret@
    }

    /// The session key.
    pub closed spec fn session_key(&self) -> Seq<char> {
        self.session_key@
    }

    /// Scrobbling through these credentials leaves the tracks as they are.
    pub fn scrobble_tracks(tracks: &mut Vec<TrackInfo>)
        ensures
            final(tracks)@ == old(tracks)@,
    {
    }
}

} // verus!
