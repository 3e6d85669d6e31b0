use rastfm::api::{ApiCredentials, AuthorizedApiCredentials};
use rastfm::logfile::TrackInfo;

#[test]
fn authorize_always_succeeds() {
    let c = ApiCredentials::new("u", "p", "k", "s");
    assert!(c.authorize().is_some());
}

#[test]
fn placeholder_scrobble_keeps_tracks() {
    let mut tracks = vec![TrackInfo {
        artist: "Rush".to_string(),
        track_name: "Tom Sawyer".to_string(),
        timestamp: 1,
        album: None,
        track_number: None,
        duration: None,
        status: None,
        uid: None,
    }];
    AuthorizedApiCredentials::scrobble_tracks(&mut tracks);
    assert_eq!(tracks.len(), 1);
    assert_eq!(tracks[0].artist, "Rush");
}
