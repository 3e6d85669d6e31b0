//! Verified core of a Last.fm scrobbler: reading a portable player's
//! scrobble log, building the signed request parameters of the Last.fm
//! web API, batching tracks for submission, and the decisions of the
//! session-key handshake.
pub mod text;
pub mod logfile;
pub mod lastfm_api;
pub mod sorting;
pub mod digest;
pub mod form;
pub mod session;
pub mod api;
pub mod json;
