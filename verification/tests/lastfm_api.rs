use rastfm::lastfm_api::{
    build_signature, build_url, make_req_body, make_req_body_urlencoded, make_track_params,
    scrobble_request, scrobble_tracks,
};
use rastfm::logfile::TrackInfo;

fn track(artist: &str, name: &str, timestamp: u64) -> TrackInfo {
    TrackInfo {
        artist: artist.to_string(),
        track_name: name.to_string(),
        timestamp,
        album: None,
        track_number: None,
        duration: None,
        status: None,
        uid: None,
    }
}

fn pairs(v: &[(&str, &str)]) -> Vec<(String, String)> {
    v.iter().map(|(k, x)| (k.to_string(), x.to_string())).collect()
}

#[test]
fn test_track_scrobble_url() {
    let mut tracks = Vec::new();
    tracks.push(TrackInfo {
        artist: "Rush".to_string(),
        track_name: "Tom Sawyer".to_string(),
        timestamp: 223223,
        duration: Some(12345),
        album: Some("None".to_string()),
        track_number: None,
        status: None,
        uid: None,
    });
    let track_params = make_track_params(0, &tracks[0]);

    let mut params = Vec::new();
    for &(ref k, ref v) in &track_params {
        params.push((k.as_str(), v.as_str()));
    }

    println!("{}", build_url(&params));
}

#[test]
fn test_scrobbling() {
    println!("Testing scrobbling");
    let mut tracks = Vec::new();
    tracks.push(TrackInfo {
        artist: "Rush".to_string(),
        track_name: "Tom Sawyer".to_string(),
        timestamp: 228228,
        duration: Some(12345),
        album: Some("None".to_string()),
        track_number: None,
        status: None,
        uid: None,
    });
    let batches = scrobble_tracks(&mut tracks);
    assert!(tracks.is_empty());
    assert_eq!(batches.len(), 1);
    assert_eq!(
        batches[0],
        pairs(&[
            ("artist[0]", "Rush"),
            ("track[0]", "Tom Sawyer"),
            ("timestamp[0]", "228228"),
            ("album[0]", "None"),
            ("duration[0]", "12345"),
        ])
    );
}

#[test]
fn test_make_req_body() {
    let params = Vec::new();
    println!("Testing make_req_body \n {}", make_req_body(&params));
}

#[test]
fn track_params_list_every_known_field() {
    let t = TrackInfo {
        artist: "A".to_string(),
        track_name: "T".to_string(),
        timestamp: 0,
        album: Some("Al".to_string()),
        track_number: Some(7),
        duration: Some(300),
        status: Some("L".to_string()),
        uid: Some("u".to_string()),
    };
    assert_eq!(
        make_track_params(12, &t),
        pairs(&[
            ("artist[12]", "A"),
            ("track[12]", "T"),
            ("timestamp[12]", "0"),
            ("album[12]", "Al"),
            ("trackNumber[12]", "7"),
            ("duration[12]", "300"),
        ])
    );
    let bare = track("B", "C", 18446744073709551615);
    assert_eq!(
        make_track_params(65535, &bare),
        pairs(&[
            ("artist[65535]", "B"),
            ("track[65535]", "C"),
            ("timestamp[65535]", "18446744073709551615"),
        ])
    );
}

#[test]
fn signature_is_md5_of_sorted_params_and_secret() {
    let params = vec![("lol2", "xd2"), ("lol", "xd")];
    let sig = build_signature(&params);
    assert_eq!(sig, "63535db7882a339dca17aa4ef616588e");
    assert_eq!(build_signature(&Vec::new()), "df1496eb6bf11fdbd08efade5300afc1");
}

#[test]
fn signature_does_not_depend_on_param_order() {
    let a = vec![("method", "auth.getSession"), ("api_key", ""), ("token", "TOK")];
    let b = vec![("token", "TOK"), ("method", "auth.getSession"), ("api_key", "")];
    assert_eq!(build_signature(&a), build_signature(&b));
    assert_eq!(build_signature(&a), "9fe3b7978c354da23936d9ab9788a1ca");
}

#[test]
fn url_holds_params_signature_and_format() {
    let params = vec![("lol", "xd"), ("lol2", "xd2")];
    assert_eq!(
        build_url(&params),
        "http://ws.audioscrobbler.com/2.0/?lol=xd&lol2=xd2&api_sig=63535db7882a339dca17aa4ef616588e&format=json"
    );
    assert_eq!(
        build_url(&Vec::new()),
        "http://ws.audioscrobbler.com/2.0/?api_sig=df1496eb6bf11fdbd08efade5300afc1&format=json"
    );
}

#[test]
fn json_body_lists_params_then_signature() {
    let params = vec![("lol", "xd"), ("lol2", "xd2")];
    assert_eq!(
        make_req_body(&params),
        "{ \"lol\": \"xd\", \"lol2\": \"xd2\", \"api_sig\": \"63535db7882a339dca17aa4ef616588e\" }"
    );
    assert_eq!(
        make_req_body(&Vec::new()),
        ", \"api_sig\": \"df1496eb6bf11fdbd08efade5300afc1\" }"
    );
}

#[test]
fn urlencoded_body_ends_with_signature() {
    let params = vec![("lol", "x d"), ("lol2", "xd2")];
    let body = make_req_body_urlencoded(&params).ok().unwrap();
    let sig = build_signature(&params);
    assert_eq!(body, format!("lol=x+d&lol2=xd2&api_sig={}", sig));
}

#[test]
fn scrobble_request_is_signed_form() {
    let params = pairs(&[("artist[0]", "Rush"), ("track[0]", "Tom Sawyer")]);
    let req = scrobble_request("SK", &params).ok().unwrap();
    assert_eq!(
        req.url,
        "http://ws.audioscrobbler.com/2.0/?method=track.scrobble&api_key=&format=json"
    );
    assert_eq!(
        req.body,
        "method=track.scrobble&api_key=&sk=SK&artist%5B0%5D=Rush&track%5B0%5D=Tom+Sawyer&api_sig=441162e069c904bdae4f0a5930492eb4"
    );
}

#[test]
fn twelve_tracks_give_a_submission_of_nine_and_one_of_three() {
    let mut tracks: Vec<TrackInfo> = (0..12).map(|i| track("A", &format!("t{}", i), i)).collect();
    let batches = scrobble_tracks(&mut tracks);
    assert!(tracks.is_empty());
    assert_eq!(batches.len(), 2);
    assert_eq!(batches[0].len(), 27);
    assert_eq!(batches[0][0], ("artist[0]".to_string(), "A".to_string()));
    assert_eq!(batches[0][1], ("track[0]".to_string(), "t11".to_string()));
    assert_eq!(batches[0][26], ("timestamp[8]".to_string(), "3".to_string()));
    assert_eq!(batches[1].len(), 9);
    assert_eq!(batches[1][1], ("track[0]".to_string(), "t2".to_string()));
    assert_eq!(batches[1][8], ("timestamp[2]".to_string(), "0".to_string()));
}

#[test]
fn few_tracks_go_in_one_submission_in_reverse_order() {
    let mut tracks: Vec<TrackInfo> = (0..3).map(|i| track("A", &format!("t{}", i), i)).collect();
    let batches = scrobble_tracks(&mut tracks);
    assert_eq!(batches.len(), 1);
    let names: Vec<&str> = batches[0]
        .iter()
        .filter(|(k, _)| k.starts_with("track["))
        .map(|(_, v)| v.as_str())
        .collect();
    assert_eq!(names, vec!["t2", "t1", "t0"]);
}

#[test]
fn eighteen_tracks_give_two_submissions() {
    let mut tracks: Vec<TrackInfo> = (0..18).map(|i| track("A", "t", i)).collect();
    let batches = scrobble_tracks(&mut tracks);
    assert_eq!(batches.len(), 2);
    assert_eq!(batches[1][2], ("timestamp[0]".to_string(), "8".to_string()));
}

#[test]
fn no_tracks_no_submission() {
    let mut tracks: Vec<TrackInfo> = Vec::new();
    assert!(scrobble_tracks(&mut tracks).is_empty());
}

#[test]
fn signature_keeps_equal_names_in_order_only() {
    let a = vec![("b", "1"), ("a", "x"), ("a", "y")];
    let b = vec![("a", "x"), ("b", "1"), ("a", "y")];
    let c = vec![("a", "y"), ("b", "1"), ("a", "x")];
    assert_eq!(build_signature(&a), build_signature(&b));
    assert_ne!(build_signature(&a), build_signature(&c));
    let sig = build_signature(&a);
    assert!(sig.chars().all(|ch| ch.is_ascii_digit() || ('a'..='f').contains(&ch)));
}

#[test]
fn form_encoding_of_special_characters() {
    let params = vec![("k*-._", "<é> /&=")];
    let body = make_req_body_urlencoded(&params).ok().unwrap();
    let sig = build_signature(&params);
    assert_eq!(body, format!("k*-._=%3C%C3%A9%3E+%2F%26%3D&api_sig={}", sig));
}

#[test]
fn track_params_differ_only_in_index() {
    let t = TrackInfo {
        artist: "A".to_string(),
        track_name: "T".to_string(),
        timestamp: 9,
        album: None,
        track_number: Some(2),
        duration: None,
        status: None,
        uid: None,
    };
    let a = make_track_params(0, &t);
    let b = make_track_params(41, &t);
    assert_eq!(a.len(), b.len());
    for (x, y) in a.iter().zip(b.iter()) {
        assert_eq!(x.1, y.1);
        assert_eq!(x.0.replace("[0]", "[41]"), y.0);
    }
}

#[test]
fn urlencoded_body_reads_back_as_params_and_signature() {
    let params = vec![("k*-._", "<é> /&="), ("a", ""), ("", "+%")];
    let body = make_req_body_urlencoded(&params).ok().unwrap();
    let decoded: Vec<(String, String)> = serde_urlencoded::from_str(&body).unwrap();
    let mut expected = pairs(&params);
    expected.push(("api_sig".to_string(), build_signature(&params)));
    assert_eq!(decoded, expected);
}
