//! The scrobble log of a portable player: one track per line, eight fields
//! separated by tabs (artist, album, title, track number, duration, status,
//! timestamp, and an optional track id).
use vstd::prelude::*;
use crate::text::{chars_of, parse_unsigned, parse_unsigned_chars, string_push};

verus! {

/// One track of the log, as the player recorded it.
#[derive(Debug, Clone, PartialEq, Eq)]
pub struct TrackInfo {
    pub artist: String,
    pub track_name: String,
    pub timestamp: u64,
    pub album: Option<String>,
    pub track_number: Option<u16>,
    pub duration: Option<u32>,
    pub status: Option<String>,
    pub uid: Option<String>,
}

/// The mathematical value of a [`TrackInfo`].
pub struct TrackRecord {
    pub artist: Seq<char>,
    pub track_name: Seq<char>,
    pub timestamp: u64,
    pub album: Option<Seq<char>>,
    pub track_number: Option<u16>,
    pub duration: Option<u32>,
    pub status: Option<Seq<char>>,
    pub uid: Option<Seq<char>>,
}

/// The view of an optional string.
pub open spec fn opt_str(o: Option<String>) -> Option<Seq<char>> {
    match o {
        Some(s) => Some(s@),
        None => None,
    }
}

impl View for TrackInfo {
    type V = TrackRecord;

    open spec fn view(&self) -> TrackRecord {
        TrackRecord {
            artist: self.artist@,
            track_name: self.track_name@,
            timestamp: self.timestamp,
            album: opt_str(self.album),
            track_number: self.track_number,
            duration: self.duration,
            status: opt_str(self.status),
            uid: opt_str(self.uid),
        }
    }
}

/// The named fields that a log line yields, each present or not.
#[derive(Debug, Clone, PartialEq, Eq)]
pub struct TrackCaptures {
    pub artist: Option<String>,
    pub album: Option<String>,
    pub track_name: Option<String>,
    pub track_number: Option<String>,
    pub duration: Option<String>,
    pub status: Option<String>,
    pub timestamp: Option<String>,
    pub uid: Option<String>,
}

/// The mathematical value of a [`TrackCaptures`].
pub struct CapturesView {
    pub artist: Option<Seq<char>>,
    pub album: Option<Seq<char>>,
    pub track_name: Option<Seq<char>>,
    pub track_number: Option<Seq<char>>,
    pub duration: Option<Seq<char>>,
    pub status: Option<Seq<char>>,
    pub timestamp: Option<Seq<char>>,
    pub uid: Option<Seq<char>>,
}

impl View for TrackCaptures {
    type V = CapturesView;

    open spec fn view(&self) -> CapturesView {
        CapturesView {
            artist: opt_str(self.artist),
            album: opt_str(self.album),
            track_name: opt_str(self.track_name),
            track_number: opt_str(self.track_number),
            duration: opt_str(self.duration),
            status: opt_str(self.status),
            timestamp: opt_str(self.timestamp),
            uid: opt_str(self.uid),
        }
    }
}

/// The pieces of `s` between occurrences of `sep`; there is always at least one.
pub open spec fn split_on(s: Seq<char>, sep: char) -> Seq<Seq<char>>
    decreases s.len(),
{
    if s.len() == 0 {
        seq![Seq::empty()]
    } else {
        let pieces = split_on(s.drop_last(), sep);
        if s.last() == sep {
            pieces.push(Seq::empty())
        } else {
            pieces.update(pieces.len() - 1, pieces.last().push(s.last()))
        }
    }
}

/// A line without the carriage return that ended it before its newline.
pub open spec fn strip_cr(l: Seq<char>) -> Seq<char> {
    if l.len() > 0 && l.last() == '\r' {
        l.drop_last()
    } else {
        l
    }
}

/// The lines of a text as `str::lines` yields them: split at `\n`, a `\r` just
/// before a `\n` dropped, and no empty line after a final `\n`.
pub open spec fn lines(t: Seq<char>) -> Seq<Seq<char>> {
    let p = split_on(t, '\n');
    let done = p.drop_last().map_values(|l: Seq<char>| strip_cr(l));
    if p.last().len() == 0 {
        done
    } else {
        done.push(p.last())
    }
}

/// The fields of a log line: exactly eight tab-separated fields, the first seven
/// non-empty; an empty eighth field means that the line has no track id.
pub open spec fn match_line(line: Seq<char>) -> Option<CapturesView> {
    let f = split_on(line, '\t');
    if f.len() == 8 && f[0].len() > 0 && f[1].len() > 0 && f[2].len() > 0 && f[3].len() > 0
        && f[4].len() > 0 && f[5].len() > 0 && f[6].len() > 0 {
        Some(
            CapturesView {
                artist: Some(f[0]),
                album: Some(f[1]),
                track_name: Some(f[2]),
                track_number: Some(f[3]),
                duration: Some(f[4]),
                status: Some(f[5]),
                timestamp: Some(f[6]),
                uid: if f[7].len() == 0 {
                    None
                } else {
                    Some(f[7])
                },
            },
        )
    } else {
        None
    }
}

/// An optional field read as an unsigned number no larger than `max`; a field
/// that does not parse counts as absent.
pub open spec fn opt_number(o: Option<Seq<char>>, max: nat) -> Option<nat> {
    match o {
        Some(s) => parse_unsigned(s, max),
        None => None,
    }
}

/// A present timestamp parses as a `u64`.
pub open spec fn timestamp_parses(c: CapturesView) -> bool {
    c.timestamp matches Some(t) ==> parse_unsigned(t, u64::MAX as nat) is Some
}

/// The track that captured fields describe: artist, title and timestamp are
/// required; track number and duration are kept only where they parse.
pub open spec fn extract(c: CapturesView) -> Option<TrackRecord> {
    if c.artist is Some && c.track_name is Some && c.timestamp is Some {
        Some(
            TrackRecord {
                artist: c.artist->0,
                track_name: c.track_name->0,
                timestamp: parse_unsigned(c.timestamp->0, u64::MAX as nat)->0 as u64,
                album: c.album,
                track_number: match opt_number(c.track_number, u16::MAX as nat) {
                    Some(n) => Some(n as u16),
                    None => None,
                },
                duration: match opt_number(c.duration, u32::MAX as nat) {
                    Some(n) => Some(n as u32),
                    None => None,
                },
                status: c.status,
                uid: c.uid,
            },
        )
    } else {
        None
    }
}

/// Reading a line cannot fail: a line that matches has a timestamp that parses.
pub open spec fn line_readable(l: Seq<char>) -> bool {
    match_line(l) matches Some(c) ==> timestamp_parses(c)
}

/// Every line of the log is readable.
pub open spec fn log_readable(t: Seq<char>) -> bool {
    forall|k: int| 0 <= k < lines(t).len() ==> line_readable(#[trigger] lines(t)[k])
}

/// The track of a line, if it is one.
pub open spec fn line_track(l: Seq<char>) -> Option<TrackRecord> {
    match match_line(l) {
        Some(c) => extract(c),
        None => None,
    }
}

/// What a track read from a line holds, field by field of the line's
/// tab-separated fields: artist, album, title and status as written, whatever
/// the other fields hold; track number, duration and timestamp as the numbers
/// their fields read as (track number and duration only where they do); the
/// track id where the last field is not empty.
pub proof fn lemma_line_track_fields(l: Seq<char>)
    ensures
        line_track(l) matches Some(t) ==> {
            let f = split_on(l, '\t');
            &&& f.len() == 8
            &&& t.artist == f[0]
            &&& t.album == Some(f[1])
            &&& t.track_name == f[2]
            &&& t.status == Some(f[5])
            &&& (t.track_number is Some <==> parse_unsigned(f[3], u16::MAX as nat) is Some)
            &&& (t.track_number matches Some(n) ==> parse_unsigned(f[3], u16::MAX as nat) == Some(
                n as nat,
            ))
            &&& (t.duration is Some <==> parse_unsigned(f[4], u32::MAX as nat) is Some)
            &&& (t.duration matches Some(d) ==> parse_unsigned(f[4], u32::MAX as nat) == Some(
                d as nat,
            ))
            &&& (parse_unsigned(f[6], u64::MAX as nat) is Some ==> parse_unsigned(
                f[6],
                u64::MAX as nat,
            ) == Some(t.timestamp as nat))
            &&& (t.uid is None <==> f[7].len() == 0)
            &&& (t.uid matches Some(u) ==> u == f[7])
        },
        ({
            let f = split_on(l, '\t');
            f.len() == 8 && f[0].len() > 0 && f[1].len() > 0 && f[2].len() > 0 && f[3].len() > 0
                && f[4].len() > 0 && f[5].len() > 0 && f[6].len() > 0
        }) <==> line_track(l) is Some,
{
}

/// The tracks of the lines, in order, skipping lines that are no tracks.
pub open spec fn tracks_of_lines(ls: Seq<Seq<char>>) -> Seq<TrackRecord>
    decreases ls.len(),
{
    if ls.len() == 0 {
        Seq::empty()
    } else {
        let r = tracks_of_lines(ls.drop_last());
        match line_track(ls.last()) {
            Some(t) => r.push(t),
            None => r,
        }
    }
}

/// The tracks of a whole log.
pub open spec fn log_tracks(t: Seq<char>) -> Seq<TrackRecord> {
    tracks_of_lines(lines(t))
}

/// The views of a sequence of tracks.
pub open spec fn track_views(v: Seq<TrackInfo>) -> Seq<TrackRecord> {
    v.map_values(|t: TrackInfo| t@)
}

/// The views of a sequence of strings.
pub open spec fn str_views(v: Seq<String>) -> Seq<Seq<char>> {
    v.map_values(|s: String| s@)
}

pub(crate) proof fn lemma_split_on_len(s: Seq<char>, sep: char)
    ensures
        split_on(s, sep).len() >= 1,
    decreases s.len(),
{
    if s.len() > 0 {
        lemma_split_on_len(s.drop_last(), sep);
    }
}

/// How `split_on` grows by one character.
pub(crate) proof fn lemma_split_on_push(s: Seq<char>, sep: char, c: char)
    ensures
        split_on(s.push(c), sep) == (if c == sep {
            split_on(s, sep).push(Seq::empty())
        } else {
            split_on(s, sep).update(
                split_on(s, sep).len() - 1,
                split_on(s, sep).last().push(c),
            )
        }),
{
    assert(s.push(c).drop_last() =~= s);
}

/// Splitting text that follows a separator continues the pieces before it.
pub(crate) proof fn lemma_split_on_append(a: Seq<char>, b: Seq<char>, sep: char)
    requires
        split_on(a, sep).last() == Seq::<char>::empty(),
    ensures
        split_on(a + b, sep) == split_on(a, sep).drop_last() + split_on(b, sep),
    decreases b.len(),
{
    lemma_split_on_len(a, sep);
    let d = split_on(a, sep).drop_last();
    if b.len() == 0 {
        assert(a + b =~= a);
        assert(d + split_on(b, sep) =~= split_on(a, sep));
    } else {
        let b2 = b.drop_last();
        let c = b.last();
        lemma_split_on_append(a, b2, sep);
        lemma_split_on_len(b2, sep);
        assert(a + b =~= (a + b2).push(c));
        assert(b2.push(c) =~= b);
        lemma_split_on_push(a + b2, sep, c);
        lemma_split_on_push(b2, sep, c);
        let sv = split_on(b2, sep);
        if c == sep {
            assert((d + sv).push(Seq::empty()) =~= d + sv.push(Seq::empty()));
        } else {
            assert((d + sv).last() == sv.last());
            assert((d + sv).update((d + sv).len() - 1, sv.last().push(c)) =~= d + sv.update(
                sv.len() - 1,
                sv.last().push(c),
            ));
        }
    }
}

/// The lines of text whose first part is empty or ends with a newline are the
/// lines of the first part followed by those of the rest.
proof fn lemma_lines_append(a: Seq<char>, b: Seq<char>)
    requires
        a.len() == 0 || a.last() == '\n',
    ensures
        lines(a + b) == lines(a) + lines(b),
{
    if a.len() > 0 {
        assert(a.drop_last().push(a.last()) =~= a);
        lemma_split_on_push(a.drop_last(), '\n', '\n');
    }
    lemma_split_on_append(a, b, '\n');
    lemma_split_on_len(a, '\n');
    lemma_split_on_len(b, '\n');
    let d = split_on(a, '\n').drop_last();
    let pb = split_on(b, '\n');
    let p = split_on(a + b, '\n');
    assert(p.drop_last() =~= d + pb.drop_last());
    assert(p.last() == pb.last());
    let f = |l: Seq<char>| strip_cr(l);
    assert((d + pb.drop_last()).map_values(f) =~= d.map_values(f) + pb.drop_last().map_values(f));
    assert(split_on(a, '\n').drop_last() == d);
    if pb.last().len() == 0 {
        assert(lines(a + b) =~= lines(a) + lines(b));
    } else {
        assert(lines(a + b) =~= lines(a) + lines(b));
    }
}

proof fn lemma_tracks_of_lines_append(l1: Seq<Seq<char>>, l2: Seq<Seq<char>>)
    ensures
        tracks_of_lines(l1 + l2) == tracks_of_lines(l1) + tracks_of_lines(l2),
    decreases l2.len(),
{
    if l2.len() == 0 {
        assert(l1 + l2 =~= l1);
        assert(tracks_of_lines(l1) + tracks_of_lines(l2) =~= tracks_of_lines(l1));
    } else {
        lemma_tracks_of_lines_append(l1, l2.drop_last());
        assert((l1 + l2).drop_last() =~= l1 + l2.drop_last());
        assert((l1 + l2).last() == l2.last());
        if let Some(t) = line_track(l2.last()) {
            assert((tracks_of_lines(l1) + tracks_of_lines(l2.drop_last())).push(t) =~= tracks_of_lines(
                l1,
            ) + tracks_of_lines(l2.drop_last()).push(t));
        }
    }
}

/// Lines are read independently: the tracks of a log whose first part is empty
/// or ends with a newline are the tracks of the first part followed by those of
/// the rest, and the log can be read exactly where both parts can.
pub proof fn lemma_log_tracks_append(c1: Seq<char>, c2: Seq<char>)
    requires
        c1.len() == 0 || c1.last() == '\n',
    ensures
        log_tracks(c1 + c2) == log_tracks(c1) + log_tracks(c2),
        log_readable(c1 + c2) == (log_readable(c1) && log_readable(c2)),
{
    lemma_lines_append(c1, c2);
    lemma_tracks_of_lines_append(lines(c1), lines(c2));
    let l1 = lines(c1);
    let l2 = lines(c2);
    let l = lines(c1 + c2);
    if log_readable(c1) && log_readable(c2) {
        assert forall|k: int| 0 <= k < l.len() implies line_readable(#[trigger] l[k]) by {
            if k < l1.len() {
                assert(l[k] == l1[k]);
            } else {
                assert(l[k] == l2[k - l1.len()]);
            }
        }
    }
    if log_readable(c1 + c2) {
        assert forall|k: int| 0 <= k < l1.len() implies line_readable(#[trigger] l1[k]) by {
            assert(l[k] == l1[k]);
        }
        assert forall|k: int| 0 <= k < l2.len() implies line_readable(#[trigger] l2[k]) by {
            assert(l[k + l1.len()] == l2[k]);
        }
    }
}

/// Splits the characters `chars[start..end]` at `sep`.
fn split_range(chars: &Vec<char>, start: usize, end: usize, sep: char) -> (pieces: Vec<String>)
    requires
        start <= end <= chars.len(),
    ensures
        str_views(pieces@) == split_on(chars@.subrange(start as int, end as int), sep),
{
    let mut pieces: Vec<String> = Vec::new();
    let mut cur: String = String::new();
    let mut j: usize = start;
    assert(chars@.subrange(start as int, start as int) =~= Seq::<char>::empty());
    while j < end
        invariant
            start <= j <= end <= chars.len(),
            str_views(pieces@).push(cur@) =~= split_on(chars@.subrange(start as int, j as int), sep),
        decreases end - j,
    {
        let c: char = chars[j];
        proof {
            assert(chars@.subrange(start as int, j + 1) =~= chars@.subrange(start as int, j as int).push(c));
            lemma_split_on_push(chars@.subrange(start as int, j as int), sep, c);
        }
        if c == sep {
            let ghost before = pieces@;
            pieces.push(cur);
            cur = String::new();
            assert(str_views(pieces@) =~= str_views(before).push(split_on(chars@.subrange(start as int, j as int), sep).last()));
        } else {
            string_push(&mut cur, c);
        }
        j = j + 1;
    }
    let ghost before = pieces@;
    pieces.push(cur);
    assert(str_views(pieces@) =~= str_views(before).push(cur@));
    pieces
}


/// The view of an optional captured-fields value.
pub open spec fn opt_captures(o: Option<TrackCaptures>) -> Option<CapturesView> {
    match o {
        Some(c) => Some(c@),
        None => None,
    }
}

/// The view of an optional track.
pub open spec fn opt_track(o: Option<TrackInfo>) -> Option<TrackRecord> {
    match o {
        Some(t) => Some(t@),
        None => None,
    }
}

/// Matches the characters `chars[start..end]` against the line format.
fn match_range(chars: &Vec<char>, start: usize, end: usize) -> (r: Option<TrackCaptures>)
    requires
        start <= end <= chars.len(),
    ensures
        opt_captures(r) == match_line(chars@.subrange(start as int, end as int)),
{
    let pieces = split_range(chars, start, end, '\t');
    let ghost f = split_on(chars@.subrange(start as int, end as int), '\t');
    assert(str_views(pieces@).len() == pieces@.len());
    if pieces.len() != 8 {
        return None;
    }
    assert(forall|k: int| 0 <= k < 8 ==> #[trigger] f[k] == pieces@[k]@);
    if pieces[0].as_str().is_empty() || pieces[1].as_str().is_empty() || pieces[2].as_str().is_empty()
        || pieces[3].as_str().is_empty() || pieces[4].as_str().is_empty()
        || pieces[5].as_str().is_empty() || pieces[6].as_str().is_empty() {
        return None;
    }
    let uid: Option<String> = if pieces[7].as_str().is_empty() {
        None
    } else {
        Some(pieces[7].clone())
    };
    Some(
        TrackCaptures {
            artist: Some(pieces[0].clone()),
            album: Some(pieces[1].clone()),
            track_name: Some(pieces[2].clone()),
            track_number: Some(pieces[3].clone()),
            duration: Some(pieces[4].clone()),
            status: Some(pieces[5].clone()),
            timestamp: Some(pieces[6].clone()),
            uid,
        },
    )
}

/// The fields of one log line, or `None` where the line does not have the
/// format of a track line.
pub fn match_track_line(line: &str) -> (r: Option<TrackCaptures>)
    ensures
        opt_captures(r) == match_line(line@),
{
    let chars = chars_of(line);
    assert(chars@.subrange(0, chars@.len() as int) =~= chars@);
    match_range(&chars, 0, chars.len())
}

/// The bounds `(start, end)` of each line of `chars`, as `str::lines` cuts them.
fn line_bounds(chars: &Vec<char>) -> (r: Vec<(usize, usize)>)
    ensures
        r@.len() == lines(chars@).len(),
        forall|k: int|
            0 <= k < r@.len() ==> {
                &&& (#[trigger] r@[k]).0 <= r@[k].1 <= chars.len()
                &&& chars@.subrange(r@[k].0 as int, r@[k].1 as int) == lines(chars@)[k]
            },
{
    let mut r: Vec<(usize, usize)> = Vec::new();
    let mut start: usize = 0;
    let mut i: usize = 0;
    assert(chars@.take(0) =~= Seq::<char>::empty());
    assert(chars@.subrange(0, 0) =~= Seq::<char>::empty());
    while i < chars.len()
        invariant
            start <= i <= chars.len(),
            split_on(chars@.take(i as int), '\n').len() == r@.len() + 1,
            split_on(chars@.take(i as int), '\n').last() == chars@.subrange(start as int, i as int),
            forall|k: int|
                0 <= k < r@.len() ==> {
                    &&& (#[trigger] r@[k]).0 <= r@[k].1 <= chars.len()
                    &&& chars@.subrange(r@[k].0 as int, r@[k].1 as int) == strip_cr(
                        split_on(chars@.take(i as int), '\n')[k],
                    )
                },
        decreases chars.len() - i,
    {
        let c: char = chars[i];
        let ghost before = split_on(chars@.take(i as int), '\n');
        proof {
            assert(chars@.take(i + 1) =~= chars@.take(i as int).push(c));
            lemma_split_on_push(chars@.take(i as int), '\n', c);
        }
        if c == '\n' {
            let end: usize = if i > start && chars[i - 1] == '\r' {
                i - 1
            } else {
                i
            };
            assert(chars@.subrange(start as int, end as int) == strip_cr(before.last())) by {
                if i > start && chars@[i - 1] == '\r' {
                    assert(chars@.subrange(start as int, end as int) =~= chars@.subrange(
                        start as int,
                        i as int,
                    ).drop_last());
                }
            }
            r.push((start, end));
            start = i + 1;
            assert(chars@.subrange(start as int, start as int) =~= Seq::<char>::empty());
        } else {
            assert(chars@.subrange(start as int, i + 1) =~= chars@.subrange(start as int, i as int).push(c));
        }
        i = i + 1;
    }
    assert(chars@.take(i as int) =~= chars@);
    let ghost p = split_on(chars@, '\n');
    let ghost done = p.drop_last().map_values(|l: Seq<char>| strip_cr(l));
    if start < chars.len() {
        r.push((start, chars.len()));
    }
    assert(forall|k: int| 0 <= k < done.len() ==> #[trigger] done[k] == strip_cr(p[k]));
    r
}

/// Clones an optional string.
fn clone_opt(o: &Option<String>) -> (r: Option<String>)
    ensures
        opt_str(r) == opt_str(*o),
{
    match o {
        Some(s) => Some(s.clone()),
        None => None,
    }
}

/// Reads an optional field as an unsigned number no larger than `max`.
fn parse_opt_number(o: &Option<String>, max: u64) -> (r: Option<u64>)
    ensures
        match r {
            Some(v) => opt_number(opt_str(*o), max as nat) == Some(v as nat),
            None => opt_number(opt_str(*o), max as nat) is None,
        },
{
    match o {
        Some(s) => parse_unsigned_chars(&chars_of(s.as_str()), max),
        None => None,
    }
}

/// The track that the captured fields of a line describe, or `None` where
/// the artist, the title or the timestamp is missing.
pub fn extract_track_info(captures: &TrackCaptures) -> (r: Option<TrackInfo>)
    requires
        timestamp_parses(captures@),
    ensures
        opt_track(r) == extract(captures@),
{
    if captures.artist.is_some() && captures.track_name.is_some() && captures.timestamp.is_some() {
        let track_number: Option<u16> = match parse_opt_number(&captures.track_number, 65535) {
            Some(n) => Some(n as u16),
            None => None,
        };
        let duration: Option<u32> = match parse_opt_number(&captures.duration, 4294967295) {
            Some(n) => Some(n as u32),
            None => None,
        };
        let timestamp: u64 = parse_opt_number(&captures.timestamp, 18446744073709551615).unwrap();
        let artist: String = clone_opt(&captures.artist).unwrap();
        let track_name: String = clone_opt(&captures.track_name).unwrap();
        let t = TrackInfo {
            artist,
            track_name,
            timestamp,
            album: clone_opt(&captures.album),
            track_number,
            duration,
            status: clone_opt(&captures.status),
            uid: clone_opt(&captures.uid),
        };
        Some(t)
    } else {
        None
    }
}

/// Whether every line of the log can be read; where one cannot, reading the
/// log as [`parse_log`] does is not defined.
pub fn log_is_readable(text: &str) -> (b: bool)
    ensures
        b == log_readable(text@),
{
    let chars = chars_of(text);
    let bounds = line_bounds(&chars);
    let mut k: usize = 0;
    while k < bounds.len()
        invariant
            k <= bounds@.len() == lines(text@).len(),
            chars@ == text@,
            forall|j: int|
                0 <= j < bounds@.len() ==> {
                    &&& (#[trigger] bounds@[j]).0 <= bounds@[j].1 <= chars.len()
                    &&& chars@.subrange(bounds@[j].0 as int, bounds@[j].1 as int) == lines(chars@)[j]
                },
            forall|j: int| 0 <= j < k ==> line_readable(#[trigger] lines(text@)[j]),
        decreases bounds.len() - k,
    {
        let (s, e) = bounds[k];
        if let Some(c) = match_range(&chars, s, e) {
            if parse_opt_number(&c.timestamp, 18446744073709551615).is_none() {
                assert(!line_readable(lines(text@)[k as int]));
                return false;
            }
        }
        k = k + 1;
    }
    true
}

/// The tracks of a scrobble log, in the order of its lines; lines that are no
/// track lines, or lack the artist, title or timestamp, are skipped.
pub fn parse_log(text: &str) -> (tracks: Vec<TrackInfo>)
    requires
        log_readable(text@),
    ensures
        track_views(tracks@) == log_tracks(text@),
{
    let chars = chars_of(text);
    let bounds = line_bounds(&chars);
    let mut out: Vec<TrackInfo> = Vec::new();
    let ghost ls = lines(text@);
    let mut k: usize = 0;
    assert(ls.take(0) =~= Seq::<Seq<char>>::empty());
    assert(track_views(out@) =~= Seq::<TrackRecord>::empty());
    while k < bounds.len()
        invariant
            k <= bounds@.len() == ls.len(),
            ls == lines(text@),
            chars@ == text@,
            log_readable(text@),
            forall|j: int|
                0 <= j < bounds@.len() ==> {
                    &&& (#[trigger] bounds@[j]).0 <= bounds@[j].1 <= chars.len()
                    &&& chars@.subrange(bounds@[j].0 as int, bounds@[j].1 as int) == lines(chars@)[j]
                },
            track_views(out@) == tracks_of_lines(ls.take(k as int)),
        decreases bounds.len() - k,
    {
        let (s, e) = bounds[k];
        assert(ls.take(k + 1).drop_last() =~= ls.take(k as int));
        assert(ls.take(k + 1).last() == ls[k as int]);
        assert(line_readable(ls[k as int]));
        if let Some(c) = match_range(&chars, s, e) {
            if let Some(t) = extract_track_info(&c) {
                let ghost before = out@;
                out.push(t);
                assert(track_views(out@) =~= track_views(before).push(t@));
            }
        }
        k = k + 1;
    }
    assert(ls.take(k as int) =~= ls);
    out
}

} // verus!
