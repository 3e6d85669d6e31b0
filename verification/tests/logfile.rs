use rastfm::logfile::{extract_track_info, log_is_readable, match_track_line, parse_log};

#[test]
fn track_line_yields_all_fields() {
    let c = match_track_line("Rush\tMoving Pictures\tTom Sawyer\t1\t276\tL\t1500000000\tabc-123").unwrap();
    assert_eq!(c.artist.as_deref(), Some("Rush"));
    assert_eq!(c.album.as_deref(), Some("Moving Pictures"));
    assert_eq!(c.track_name.as_deref(), Some("Tom Sawyer"));
    assert_eq!(c.track_number.as_deref(), Some("1"));
    assert_eq!(c.duration.as_deref(), Some("276"));
    assert_eq!(c.status.as_deref(), Some("L"));
    assert_eq!(c.timestamp.as_deref(), Some("1500000000"));
    assert_eq!(c.uid.as_deref(), Some("abc-123"));
    let t = extract_track_info(&c).unwrap();
    assert_eq!(t.artist, "Rush");
    assert_eq!(t.track_name, "Tom Sawyer");
    assert_eq!(t.timestamp, 1500000000);
    assert_eq!(t.album.as_deref(), Some("Moving Pictures"));
    assert_eq!(t.track_number, Some(1));
    assert_eq!(t.duration, Some(276));
    assert_eq!(t.status.as_deref(), Some("L"));
    assert_eq!(t.uid.as_deref(), Some("abc-123"));
}

#[test]
fn empty_last_field_means_no_track_id() {
    let c = match_track_line("a\tb\tc\td\te\tf\t7\t").unwrap();
    assert_eq!(c.uid, None);
    let t = extract_track_info(&c).unwrap();
    assert_eq!(t.timestamp, 7);
    assert_eq!(t.track_number, None);
    assert_eq!(t.duration, None);
}

#[test]
fn lines_of_other_shapes_do_not_match() {
    assert!(match_track_line("#AUDIOSCROBBLER/1.1").is_none());
    assert!(match_track_line("a\tb\tc\td\te\tf\t7").is_none());
    assert!(match_track_line("a\tb\tc\td\te\tf\t7\tu\tv").is_none());
    assert!(match_track_line("a\t\tc\td\te\tf\t7\tu").is_none());
    assert!(match_track_line("").is_none());
}

#[test]
fn numbers_parse_as_the_standard_library_does() {
    let t = extract_track_info(&match_track_line("a\tb\tc\t+12\t4294967295\tL\t+0\t").unwrap()).unwrap();
    assert_eq!(t.track_number, Some(12));
    assert_eq!(t.duration, Some(4294967295));
    assert_eq!(t.timestamp, 0);
    let t = extract_track_info(&match_track_line("a\tb\tc\t65536\t4294967296\tL\t18446744073709551615\t").unwrap()).unwrap();
    assert_eq!(t.track_number, None);
    assert_eq!(t.duration, None);
    assert_eq!(t.timestamp, 18446744073709551615);
    let t = extract_track_info(&match_track_line("a\tb\tc\t-1\t+\tL\t00042\t").unwrap()).unwrap();
    assert_eq!(t.track_number, None);
    assert_eq!(t.duration, None);
    assert_eq!(t.timestamp, 42);
}

#[test]
fn log_yields_tracks_of_track_lines_in_order() {
    let log = "#AUDIOSCROBBLER/1.1\n#TZ/UNKNOWN\r\n\
               Rush\tMP\tTom Sawyer\t1\t276\tL\t100\t\r\n\
               not a track\n\
               Yes\tFragile\tRoundabout\t1\t510\tS\t200\tid\n\
               Yes\tFragile\tSouth Side\tx\ty\tL\t300\t";
    assert!(log_is_readable(log));
    let tracks = parse_log(log);
    assert_eq!(tracks.len(), 3);
    assert_eq!(tracks[0].track_name, "Tom Sawyer");
    assert_eq!(tracks[0].uid, None);
    assert_eq!(tracks[1].track_name, "Roundabout");
    assert_eq!(tracks[1].uid.as_deref(), Some("id"));
    assert_eq!(tracks[2].timestamp, 300);
    assert_eq!(tracks[2].track_number, None);
}

#[test]
fn carriage_return_without_newline_stays_in_the_line() {
    let tracks = parse_log("a\tb\tc\t1\t2\tL\t5\tu\r");
    assert_eq!(tracks.len(), 1);
    assert_eq!(tracks[0].uid.as_deref(), Some("u\r"));
}

#[test]
fn empty_log_has_no_tracks() {
    assert!(log_is_readable(""));
    assert!(parse_log("").is_empty());
    assert!(parse_log("\n\n").is_empty());
}

#[test]
fn bad_timestamp_makes_the_log_unreadable() {
    assert!(!log_is_readable("a\tb\tc\t1\t2\tL\tsoon\t\n"));
    assert!(!log_is_readable("x\na\tb\tc\t1\t2\tL\t18446744073709551616\tu"));
    assert!(log_is_readable("a\tb\tc\t1\t2\tL\tsoon"));
}

#[test]
fn tracks_of_concatenated_logs_are_concatenated() {
    let c1 = "a\tb\tc\t1\t2\tL\t5\t\nheader\n";
    let c2 = "d\te\tf\t3\t4\tS\t6\tu";
    let whole = format!("{}{}", c1, c2);
    let mut expected = parse_log(c1);
    expected.extend(parse_log(c2));
    assert_eq!(parse_log(&whole), expected);
    assert_eq!(expected.len(), 2);
}
