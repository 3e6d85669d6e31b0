//! The Last.fm web API side: the parameters that describe a scrobbled track,
//! how a list of tracks is cut into submissions, and the requests that carry them.
use vstd::prelude::*;
use crate::logfile::{TrackInfo, TrackRecord, track_views};
use crate::text::{decimal, push_decimal, string_push};
use crate::sorting::{
    ParamView, lemma_sort_order_independent, lemma_sort_stable_order_independent, names_distinct,
    same_per_name, sort_by_name, sort_params_by_name, str_param_views,
};
use crate::digest::{is_lower_hex, md5_hex, md5_hex_digest};
use crate::form::{form_decode, form_urlencoded, lemma_form_urlencoded_decodes, urlencode_pairs};
use vstd::utf8::encode_utf8;

verus! {

/// Credentials for the Last.fm web API.
pub struct ApiCredentials {
    username: String,
    password: String,
    api_key: String,
    api_secret: String,
}

/// Credentials for the Last.fm web API together with a session key, if one was obtained.
pub struct AuthorizedApiCredentials {
    username: String,
    password: String,
    api_key: String,
    api_secret: String,
    session_key: Option<String>,
}

/// The views of a sequence of parameters.
pub open spec fn param_views(v: Seq<(String, String)>) -> Seq<(Seq<char>, Seq<char>)> {
    v.map_values(|p: (String, String)| (p.0@, p.1@))
}

/// The name of a parameter of the track at position `index` of a submission: `name[index]`.
pub open spec fn indexed(name: Seq<char>, index: nat) -> Seq<char> {
    name + seq!['['] + decimal(index) + seq![']']
}

/// The parameters that describe a track at position `index` of a submission:
/// artist, title and timestamp, then album, track number and duration where known.
pub open spec fn track_params(index: nat, t: TrackRecord) -> Seq<(Seq<char>, Seq<char>)> {
    let base = seq![
        (indexed("artist"@, index), t.artist),
        (indexed("track"@, index), t.track_name),
        (indexed("timestamp"@, index), decimal(t.timestamp as nat)),
    ];
    let with_album = match t.album {
        Some(a) => base.push((indexed("album"@, index), a)),
        None => base,
    };
    let with_number = match t.track_number {
        Some(n) => with_album.push((indexed("trackNumber"@, index), decimal(n as nat))),
        None => with_album,
    };
    match t.duration {
        Some(d) => with_number.push((indexed("duration"@, index), decimal(d as nat))),
        None => with_number,
    }
}

/// Each field of a track contributes its own parameter, independently of the
/// others: artist, title and timestamp always; album, track number and duration
/// exactly when the track has them, each with its own value; and nothing else.
pub proof fn lemma_track_params_fields(i: nat, t: TrackRecord)
    ensures
        track_params(i, t).len() == 3 + (if t.album is Some { 1int } else { 0 }) + (
        if t.track_number is Some { 1int } else { 0 }) + (if t.duration is Some { 1int } else { 0 }),
        track_params(i, t).contains((indexed("artist"@, i), t.artist)),
        track_params(i, t).contains((indexed("track"@, i), t.track_name)),
        track_params(i, t).contains((indexed("timestamp"@, i), decimal(t.timestamp as nat))),
        t.album matches Some(a) ==> track_params(i, t).contains((indexed("album"@, i), a)),
        t.track_number matches Some(n) ==> track_params(i, t).contains(
            (indexed("trackNumber"@, i), decimal(n as nat)),
        ),
        t.duration matches Some(d) ==> track_params(i, t).contains(
            (indexed("duration"@, i), decimal(d as nat)),
        ),
{
    let p = track_params(i, t);
    assert(p[0] == (indexed("artist"@, i), t.artist));
    assert(p[1] == (indexed("track"@, i), t.track_name));
    assert(p[2] == (indexed("timestamp"@, i), decimal(t.timestamp as nat)));
    let na: int = if t.album is Some { 1 } else { 0 };
    let nn: int = if t.track_number is Some { 1 } else { 0 };
    if let Some(a) = t.album {
        assert(p[3] == (indexed("album"@, i), a));
    }
    if let Some(n) = t.track_number {
        assert(p[3 + na] == (indexed("trackNumber"@, i), decimal(n as nat)));
    }
    if let Some(d) = t.duration {
        assert(p[3 + na + nn] == (indexed("duration"@, i), decimal(d as nat)));
    }
}

/// The bare names of the parameters that describe a track, in the order of
/// [`track_params`].
pub open spec fn track_param_names(t: TrackRecord) -> Seq<Seq<char>> {
    let base = seq!["artist"@, "track"@, "timestamp"@];
    let with_album = if t.album is Some {
        base.push("album"@)
    } else {
        base
    };
    let with_number = if t.track_number is Some {
        with_album.push("trackNumber"@)
    } else {
        with_album
    };
    if t.duration is Some {
        with_number.push("duration"@)
    } else {
        with_number
    }
}

/// The parameters of a track under two indices differ only in the index: they
/// have the same names, in the same order, each suffixed with its own index,
/// and the same values.
pub proof fn lemma_track_params_reindex(i: nat, j: nat, t: TrackRecord)
    ensures
        track_params(i, t).len() == track_params(j, t).len(),
        track_params(i, t).len() == track_param_names(t).len(),
        forall|k: int|
            0 <= k < track_params(i, t).len() ==> {
                &&& (#[trigger] track_params(i, t)[k]).0 == indexed(track_param_names(t)[k], i)
                &&& track_params(j, t)[k].0 == indexed(track_param_names(t)[k], j)
                &&& track_params(j, t)[k].1 == track_params(i, t)[k].1
            },
{
}

/// `name[index]`.
fn indexed_name(name: &str, index: u16) -> (r: String)
    ensures
        r@ == indexed(name@, index as nat),
{
    let mut r = String::from_str(name);
    string_push(&mut r, '[');
    push_decimal(&mut r, index as u64);
    string_push(&mut r, ']');
    r
}

/// The decimal rendering of `n`.
fn decimal_string(n: u64) -> (r: String)
    ensures
        r@ == decimal(n as nat),
{
    let mut r = String::new();
    push_decimal(&mut r, n);
    r
}

/// The parameters that describe `track` at position `index` of a submission.
pub fn make_track_params(index: u16, track: &TrackInfo) -> (params: Vec<(String, String)>)
    ensures
        param_views(params@) == track_params(index as nat, track@),
{
    let mut params: Vec<(String, String)> = Vec::new();
    params.push((indexed_name("artist", index), track.artist.clone()));
    params.push((indexed_name("track", index), track.track_name.clone()));
    params.push((indexed_name("timestamp", index), decimal_string(track.timestamp)));
    if let Some(album) = &track.album {
        params.push((indexed_name("album", index), album.clone()));
    }
    if let Some(track_num) = track.track_number {
        params.push((indexed_name("trackNumber", index), decimal_string(track_num as u64)));
    }
    if let Some(duration) = track.duration {
        params.push((indexed_name("duration", index), decimal_string(duration as u64)));
    }
    assert(param_views(params@) =~= track_params(index as nat, track@));
    params
}


/// The parameters of a submission of the tracks `ts`, the track at position `i`
/// under index `i`.
pub open spec fn batch_params(ts: Seq<TrackRecord>) -> Seq<(Seq<char>, Seq<char>)>
    decreases ts.len(),
{
    if ts.len() == 0 {
        Seq::empty()
    } else {
        batch_params(ts.drop_last()) + track_params((ts.len() - 1) as nat, ts.last())
    }
}

/// Where the submission numbered `j` ends among `n` tracks: after nine tracks,
/// or at the end of the list.
pub open spec fn batch_end(j: int, n: int) -> int {
    if 9 * j + 9 <= n {
        9 * j + 9
    } else {
        n
    }
}

/// The submissions made from the list of tracks `ts`: tracks are taken from the
/// end of the list, nine at a time, the last submission holding the rest; every
/// track is sent exactly once.
pub open spec fn scrobble_batches(ts: Seq<TrackRecord>) -> Seq<Seq<(Seq<char>, Seq<char>)>> {
    let n = ts.len() as int;
    let popped = ts.reverse();
    Seq::new(((n + 8) / 9) as nat, |j: int| batch_params(popped.subrange(9 * j, batch_end(j, n))))
}

/// Every track goes into exactly one submission: the track taken `t`-th from
/// the end of the list is at position `t % 9` of submission `t / 9`, which holds
/// between one and nine tracks; no submission is empty.
pub proof fn lemma_every_track_sent_once(ts: Seq<TrackRecord>)
    ensures
        forall|t: int|
            0 <= t < ts.len() ==> {
                &&& 0 <= #[trigger] (t / 9) < scrobble_batches(ts).len()
                &&& 9 * (t / 9) <= t < batch_end(t / 9, ts.len() as int)
            },
        forall|j: int|
            0 <= j < scrobble_batches(ts).len() ==> 1 <= #[trigger] batch_end(j, ts.len() as int) - 9
                * j <= 9,
{
    let n = ts.len() as int;
    assert forall|t: int| 0 <= t < n implies {
        &&& 0 <= #[trigger] (t / 9) < scrobble_batches(ts).len()
        &&& 9 * (t / 9) <= t < batch_end(t / 9, n)
    } by {
        vstd::arithmetic::div_mod::lemma_fundamental_div_mod(t, 9);
        vstd::arithmetic::div_mod::lemma_fundamental_div_mod(n + 8, 9);
    }
    assert forall|j: int| 0 <= j < scrobble_batches(ts).len() implies 1 <= #[trigger] batch_end(
        j,
        n,
    ) - 9 * j <= 9 by {
        vstd::arithmetic::div_mod::lemma_fundamental_div_mod(n + 8, 9);
    }
}

/// The parameters of the tracks `ps`, in order, each track under its position
/// modulo nine.
pub open spec fn params_in_turn(ps: Seq<TrackRecord>) -> Seq<(Seq<char>, Seq<char>)>
    decreases ps.len(),
{
    if ps.len() == 0 {
        Seq::empty()
    } else {
        params_in_turn(ps.drop_last()) + track_params(((ps.len() - 1) % 9) as nat, ps.last())
    }
}

proof fn lemma_batch_in_turn(p: Seq<TrackRecord>, j: int, e: int)
    requires
        0 <= j,
        9 * j <= e <= 9 * j + 9,
        e <= p.len(),
    ensures
        params_in_turn(p.take(e)) == params_in_turn(p.take(9 * j)) + batch_params(
            p.subrange(9 * j, e),
        ),
    decreases e - 9 * j,
{
    if e == 9 * j {
        assert(p.subrange(9 * j, e) =~= Seq::<TrackRecord>::empty());
        assert(params_in_turn(p.take(9 * j)) + Seq::<(Seq<char>, Seq<char>)>::empty() =~= params_in_turn(
            p.take(9 * j),
        ));
    } else {
        lemma_batch_in_turn(p, j, e - 1);
        assert(p.take(e).drop_last() =~= p.take(e - 1));
        assert(p.take(e).last() == p[e - 1]);
        let sub = p.subrange(9 * j, e);
        assert(sub.drop_last() =~= p.subrange(9 * j, e - 1));
        assert(sub.last() == p[e - 1]);
        vstd::arithmetic::div_mod::lemma_fundamental_div_mod_converse(e - 1, 9, j, e - 1 - 9 * j);
        assert((e - 1) % 9 == e - 1 - 9 * j);
        assert(params_in_turn(p.take(e)) == params_in_turn(p.take(e - 1)) + track_params(
            (e - 1 - 9 * j) as nat,
            p[e - 1],
        ));
        assert(batch_params(sub) == batch_params(p.subrange(9 * j, e - 1)) + track_params(
            (e - 1 - 9 * j) as nat,
            p[e - 1],
        ));
    }
}

proof fn lemma_batch_params_first(s: Seq<TrackRecord>)
    requires
        s.len() > 0,
    ensures
        batch_params(s).len() >= 3,
        batch_params(s)[0] == (indexed("artist"@, 0), s[0].artist),
    decreases s.len(),
{
    if s.len() == 1 {
        assert(s.drop_last() =~= Seq::<TrackRecord>::empty());
        assert(batch_params(s.drop_last()) =~= Seq::<(Seq<char>, Seq<char>)>::empty());
    } else {
        lemma_batch_params_first(s.drop_last());
        assert(s.drop_last()[0] == s[0]);
    }
}

proof fn lemma_submissions_prefix(ts: Seq<TrackRecord>, k: int)
    requires
        0 <= k <= scrobble_batches(ts).len(),
    ensures
        scrobble_batches(ts).take(k).flatten() == params_in_turn(
            ts.reverse().take(if 9 * k <= ts.len() { 9 * k } else { ts.len() as int }),
        ),
    decreases k,
{
    let n = ts.len() as int;
    let p = ts.reverse();
    let bs = scrobble_batches(ts);
    vstd::arithmetic::div_mod::lemma_fundamental_div_mod(n + 8, 9);
    if k == 0 {
        assert(bs.take(0) =~= Seq::<Seq<(Seq<char>, Seq<char>)>>::empty());
        assert(p.take(0) =~= Seq::<TrackRecord>::empty());
    } else {
        lemma_submissions_prefix(ts, k - 1);
        let j = k - 1;
        lemma_batch_in_turn(p, j, batch_end(j, n));
        bs.take(j).lemma_flatten_push(bs[j]);
        assert(bs.take(k) =~= bs.take(j).push(bs[j]));
    }
}

/// The submissions hand out every track exactly once: one after another they
/// hold the parameters of all tracks, taken from the end of the list, each
/// under its position modulo nine; there are ⌈n/9⌉ of them, and each starts
/// with the artist of track `9j` (counted from the end) under index 0.
pub proof fn lemma_submissions_cover_all_tracks(ts: Seq<TrackRecord>)
    ensures
        scrobble_batches(ts).flatten() == params_in_turn(ts.reverse()),
        scrobble_batches(ts).len() == (ts.len() + 8) / 9,
        forall|j: int|
            0 <= j < scrobble_batches(ts).len() ==> #[trigger] scrobble_batches(ts)[j].len() > 0
                && scrobble_batches(ts)[j][0] == (indexed("artist"@, 0), ts.reverse()[9 * j].artist),
{
    let n = ts.len() as int;
    let p = ts.reverse();
    let bs = scrobble_batches(ts);
    let m = bs.len() as int;
    vstd::arithmetic::div_mod::lemma_fundamental_div_mod(n + 8, 9);
    assert(9 * m <= n + 8 && n + 8 < 9 * m + 9);
    assert forall|j: int| 0 <= j < m implies #[trigger] bs[j].len() > 0 && bs[j][0] == (
        indexed("artist"@, 0),
        p[9 * j].artist,
    ) by {
        let sub = p.subrange(9 * j, batch_end(j, n));
        assert(sub.len() > 0);
        lemma_batch_params_first(sub);
        assert(sub[0] == p[9 * j]);
    }
    lemma_submissions_prefix(ts, m);
    assert(bs.take(m) =~= bs);
    assert(p.take(n) =~= p);
}

/// The views of a sequence of submissions.
pub open spec fn batch_views(v: Seq<Vec<(String, String)>>) -> Seq<Seq<(Seq<char>, Seq<char>)>> {
    v.map_values(|b: Vec<(String, String)>| param_views(b@))
}

/// Moves the parameters of `more` to the end of `params`.
fn append_params(params: &mut Vec<(String, String)>, more: Vec<(String, String)>)
    ensures
        param_views(final(params)@) == param_views(old(params)@) + param_views(more@),
{
    let mut more = more;
    let ghost pv = param_views(params@);
    let ghost mv = param_views(more@);
    params.append(&mut more);
    assert(param_views(params@) =~= pv + mv);
}

/// Empties `tracks`, taking tracks from its end, and returns the parameters of
/// each submission to make, in order: nine tracks each, the last one the rest.
pub fn scrobble_tracks(tracks: &mut Vec<TrackInfo>) -> (batches: Vec<Vec<(String, String)>>)
    ensures
        final(tracks)@.len() == 0,
        batch_views(batches@) == scrobble_batches(track_views(old(tracks)@)),
{
    let ghost all = track_views(tracks@);
    let ghost n = tracks@.len() as int;
    let ghost popped = all.reverse();
    let mut batches: Vec<Vec<(String, String)>> = Vec::new();
    let mut params: Vec<(String, String)> = Vec::new();
    let mut i: u16 = 0;
    // The number of tracks that remain when a submission starts.
    let mut tracks_len: usize = tracks.len();
    let ghost mut base: int = 0;
    assert(popped.subrange(0, 0) =~= Seq::<TrackRecord>::empty());
    assert(tracks@.take(tracks@.len() as int) =~= tracks@);
    assert(track_views(tracks@) =~= all.take(tracks@.len() as int));
    while tracks.len() > 0
        invariant
            n == all.len(),
            popped == all.reverse(),
            track_views(tracks@) == all.take(tracks@.len() as int),
            tracks@.len() <= n,
            0 <= base <= n,
            tracks_len == n - base,
            base == 9 * batches@.len() || (base == n && i == 0),
            batches@.len() > 0 ==> 9 * (batches@.len() - 1) < n,
            base == n ==> 9 * batches@.len() >= n,
            0 <= i < 9,
            i == 0 || i < tracks_len,
            n - tracks@.len() == base + i,
            param_views(params@) == batch_params(popped.subrange(base, base + i)),
            forall|j: int|
                0 <= j < batches@.len() ==> #[trigger] param_views(batches@[j]@) == batch_params(
                    popped.subrange(9 * j, batch_end(j, n)),
                ),
        decreases tracks@.len(),
    {
        let ghost before = tracks@;
        let ghost p = n - tracks@.len();
        let track = tracks.pop().unwrap();
        proof {
            assert(track_views(before)[before.len() - 1] == track@);
            assert(track_views(tracks@) =~= all.take(tracks@.len() as int));
            assert(track@ == all[n - 1 - p]);
            assert(popped[p as int] == track@);
            let sub = popped.subrange(base, base + i + 1);
            assert(sub.drop_last() =~= popped.subrange(base, base + i));
            assert(sub.last() == track@);
        }
        let new_params = make_track_params(i, &track);
        append_params(&mut params, new_params);
        proof {
            let sub = popped.subrange(base, base + i + 1);
            assert(sub.len() == i + 1);
            assert(batch_params(sub) == batch_params(sub.drop_last()) + track_params(
                i as nat,
                sub.last(),
            ));
            assert(param_views(params@) == batch_params(sub));
        }
        i = i + 1;
        if i >= 9 || i as usize >= tracks_len {
            let ghost prev = batches@;
            let ghost b = prev.len() as int;
            let ghost old_base = base;
            assert(old_base == 9 * b);
            assert(old_base + i == batch_end(b, n));
            batches.push(params);
            params = Vec::new();
            proof {
                base = base + i;
                assert forall|j: int| 0 <= j < batches@.len() implies #[trigger] param_views(
                    batches@[j]@,
                ) == batch_params(popped.subrange(9 * j, batch_end(j, n))) by {
                    if j < prev.len() {
                        assert(batches@[j] == prev[j]);
                    } else {
                        assert(j == b);
                    }
                }
                assert(popped.subrange(base, base) =~= Seq::<TrackRecord>::empty());
            }
            i = 0;
            tracks_len = tracks.len();
        }
    }
    proof {
        assert(base == n);
        vstd::arithmetic::div_mod::lemma_fundamental_div_mod_converse(
            n + 8,
            9,
            batches@.len() as int,
            n + 8 - 9 * batches@.len(),
        );
        assert(batch_views(batches@) =~= scrobble_batches(all));
    }
    batches
}

/// The secret shared with Last.fm that every signature ends with.
pub open spec fn shared_secret() -> Seq<char> {
    "<your_shared_secret>"@
}

/// Each name followed by its value, in order.
pub open spec fn concat_params(ps: Seq<ParamView>) -> Seq<char>
    decreases ps.len(),
{
    if ps.len() == 0 {
        Seq::empty()
    } else {
        concat_params(ps.drop_last()) + ps.last().0 + ps.last().1
    }
}

/// The text that is hashed to sign a request: the parameters ordered by name,
/// each name followed by its value, then the shared secret.
pub open spec fn signature_base(ps: Seq<ParamView>) -> Seq<char> {
    concat_params(sort_by_name(ps)) + shared_secret()
}

/// The signature of a request with the parameters `ps`.
pub open spec fn api_signature(ps: Seq<ParamView>) -> Seq<char> {
    md5_hex_digest(encode_utf8(signature_base(ps)))
}

/// The signature of a request with the parameters `params`: the MD5 digest of
/// the parameters ordered by name, each name followed by its value, then the
/// shared secret.
pub fn build_signature(params: &Vec<(&str, &str)>) -> (sig: String)
    ensures
        sig@ == api_signature(str_param_views(params@)),
        sig@.len() == 32,
        forall|i: int| 0 <= i < 32 ==> is_lower_hex(#[trigger] sig@[i]),
{
    let sorted = sort_params_by_name(params);
    let ghost sv = str_param_views(sorted@);
    let mut sig = String::new();
    let mut i: usize = 0;
    assert(sv.take(0) =~= Seq::<ParamView>::empty());
    while i < sorted.len()
        invariant
            i <= sorted@.len(),
            sv == str_param_views(sorted@),
            sig@ == concat_params(sv.take(i as int)),
        decreases sorted@.len() - i,
    {
        let (k, v) = sorted[i];
        sig.append(k);
        sig.append(v);
        assert(sv.take(i + 1).drop_last() =~= sv.take(i as int));
        i = i + 1;
    }
    assert(sv.take(i as int) =~= sv);
    sig.append("<your_shared_secret>");
    md5_hex(sig.as_str().as_bytes())
}

/// Where no two parameters share a name, the signature does not depend on the
/// order in which the parameters are given.
pub proof fn lemma_signature_order_independent(p1: Seq<ParamView>, p2: Seq<ParamView>)
    requires
        p1.to_multiset() == p2.to_multiset(),
        names_distinct(p1),
    ensures
        api_signature(p1) == api_signature(p2),
{
    lemma_sort_order_independent(p1, p2);
}

/// Any reordering of the parameters that keeps the parameters of each name in
/// their relative order leaves the signature as it is.
pub proof fn lemma_signature_stable_order_independent(p1: Seq<ParamView>, p2: Seq<ParamView>)
    requires
        same_per_name(p1, p2),
    ensures
        api_signature(p1) == api_signature(p2),
{
    lemma_sort_stable_order_independent(p1, p2);
}

/// `items` joined by `sep`.
pub open spec fn join_with(items: Seq<Seq<char>>, sep: Seq<char>) -> Seq<char>
    decreases items.len(),
{
    if items.len() == 0 {
        Seq::empty()
    } else if items.len() == 1 {
        items[0]
    } else {
        join_with(items.drop_last(), sep) + sep + items.last()
    }
}

/// The query items of a request URL: `name=value` for each parameter, then the
/// signature and the response format.
pub open spec fn url_items(ps: Seq<ParamView>) -> Seq<Seq<char>> {
    ps.map_values(|p: ParamView| p.0 + "="@ + p.1) + seq![
        "api_sig="@ + api_signature(ps),
        "format=json"@,
    ]
}

/// The address of the Last.fm web API.
pub open spec fn api_root() -> Seq<char> {
    "http://ws.audioscrobbler.com/2.0/?"@
}

/// A signed request URL for the parameters `ps`.
pub open spec fn request_url(ps: Seq<ParamView>) -> Seq<char> {
    api_root() + join_with(url_items(ps), "&"@)
}

/// Each item followed by the separator.
pub open spec fn items_then_sep(items: Seq<Seq<char>>, sep: Seq<char>) -> Seq<char>
    decreases items.len(),
{
    if items.len() == 0 {
        Seq::empty()
    } else {
        items_then_sep(items.drop_last(), sep) + items.last() + sep
    }
}

proof fn lemma_join_with_push(items: Seq<Seq<char>>, x: Seq<char>, sep: Seq<char>)
    ensures
        join_with(items.push(x), sep) == items_then_sep(items, sep) + x,
    decreases items.len(),
{
    assert(items.push(x).drop_last() =~= items);
    if items.len() == 0 {
        assert(items.push(x) =~= seq![x]);
        assert(Seq::<char>::empty() + x =~= x);
    } else {
        lemma_join_with_push(items.drop_last(), items.last(), sep);
        assert(items.drop_last().push(items.last()) =~= items);
        assert(items_then_sep(items.drop_last(), sep) + items.last() + sep + x =~= items_then_sep(
            items,
            sep,
        ) + x);
    }
}

/// `name=value&` for each parameter, in order.
pub open spec fn query_pairs(ps: Seq<ParamView>) -> Seq<char>
    decreases ps.len(),
{
    if ps.len() == 0 {
        Seq::empty()
    } else {
        query_pairs(ps.drop_last()) + ps.last().0 + "="@ + ps.last().1 + "&"@
    }
}

proof fn lemma_query_pairs(ps: Seq<ParamView>)
    ensures
        items_then_sep(ps.map_values(|p: ParamView| p.0 + "="@ + p.1), "&"@) == query_pairs(ps),
    decreases ps.len(),
{
    if ps.len() > 0 {
        lemma_query_pairs(ps.drop_last());
        assert(ps.map_values(|p: ParamView| p.0 + "="@ + p.1).drop_last() =~= ps.drop_last().map_values(
            |p: ParamView| p.0 + "="@ + p.1,
        ));
        let l = ps.last();
        assert(query_pairs(ps.drop_last()) + (l.0 + "="@ + l.1) + "&"@ =~= query_pairs(ps.drop_last())
            + l.0 + "="@ + l.1 + "&"@);
    }
}

/// A signed request URL lists every parameter as `name=value`, in the order
/// given, then carries the signature of exactly those parameters, then the
/// response format.
pub proof fn lemma_request_url_signs_listed_params(ps: Seq<ParamView>)
    ensures
        request_url(ps) == api_root() + query_pairs(ps) + "api_sig="@ + api_signature(ps) + "&"@
            + "format=json"@,
{
    let kv = ps.map_values(|p: ParamView| p.0 + "="@ + p.1);
    let sig = "api_sig="@ + api_signature(ps);
    assert(url_items(ps) =~= kv.push(sig).push("format=json"@));
    lemma_join_with_push(kv.push(sig), "format=json"@, "&"@);
    assert(kv.push(sig).drop_last() =~= kv);
    assert(items_then_sep(kv.push(sig), "&"@) == items_then_sep(kv, "&"@) + sig + "&"@);
    lemma_query_pairs(ps);
    assert(api_root() + (query_pairs(ps) + sig + "&"@ + "format=json"@) =~= api_root() + query_pairs(
        ps,
    ) + "api_sig="@ + api_signature(ps) + "&"@ + "format=json"@);
}

/// Joins `items` with `&`.
fn join_amp(items: &Vec<String>) -> (r: String)
    ensures
        r@ == join_with(items@.map_values(|s: String| s@), "&"@),
{
    let ghost iv = items@.map_values(|s: String| s@);
    let mut r = String::new();
    let mut i: usize = 0;
    assert(iv.take(0) =~= Seq::<Seq<char>>::empty());
    while i < items.len()
        invariant
            i <= items@.len(),
            iv == items@.map_values(|s: String| s@),
            r@ == join_with(iv.take(i as int), "&"@),
        decreases items@.len() - i,
    {
        assert(iv.take(i + 1).drop_last() =~= iv.take(i as int));
        if i > 0 {
            r.append("&");
        } else {
            assert(r@ =~= Seq::<char>::empty());
        }
        r.append(items[i].as_str());
        i = i + 1;
    }
    assert(iv.take(i as int) =~= iv);
    r
}

/// A signed request URL for `params`: the API address, then `name=value` for
/// each parameter, the signature and the response format, joined by `&`.
pub fn build_url(params: &Vec<(&str, &str)>) -> (url: String)
    ensures
        url@ == request_url(str_param_views(params@)),
{
    let ghost pv = str_param_views(params@);
    let mut items: Vec<String> = Vec::new();
    let mut i: usize = 0;
    while i < params.len()
        invariant
            i <= params@.len(),
            pv == str_param_views(params@),
            items@.len() == i,
            forall|j: int| 0 <= j < i ==> #[trigger] items@[j]@ == pv[j].0 + "="@ + pv[j].1,
        decreases params@.len() - i,
    {
        let (k, v) = params[i];
        let mut item = String::from_str(k);
        item.append("=");
        item.append(v);
        items.push(item);
        i = i + 1;
    }
    let sig = build_signature(params);
    let mut sig_item = String::from_str("api_sig=");
    sig_item.append(sig.as_str());
    items.push(sig_item);
    items.push(String::from_str("format=json"));
    assert(items@.map_values(|s: String| s@) =~= url_items(pv));
    let mut url = String::from_str("http://ws.audioscrobbler.com/2.0/?");
    let query = join_amp(&items);
    url.append(query.as_str());
    url
}

/// The JSON-like body text of a request: `{ "name": "value"` for the first
/// parameter, `, "name": "value"` for each further one, then the signature and
/// ` }`. With no parameters the text starts with the signature's `, `.
pub open spec fn json_fields(ps: Seq<ParamView>) -> Seq<char>
    decreases ps.len(),
{
    if ps.len() == 0 {
        Seq::empty()
    } else if ps.len() == 1 {
        "{ \""@ + ps[0].0 + "\": \""@ + ps[0].1 + "\""@
    } else {
        json_fields(ps.drop_last()) + ", \""@ + ps.last().0 + "\": \""@ + ps.last().1 + "\""@
    }
}

/// The body that [`make_req_body`] writes.
pub open spec fn json_body(ps: Seq<ParamView>) -> Seq<char> {
    json_fields(ps) + ", \"api_sig\": \""@ + api_signature(ps) + "\""@ + " }"@
}

/// A JSON-like request body for `params`, with the signature.
pub fn make_req_body(params: &Vec<(&str, &str)>) -> (json: String)
    ensures
        json@ == json_body(str_param_views(params@)),
{
    let ghost pv = str_param_views(params@);
    let mut json = String::new();
    let mut first_run: bool = true;
    let mut i: usize = 0;
    assert(pv.take(0) =~= Seq::<ParamView>::empty());
    while i < params.len()
        invariant
            i <= params@.len(),
            pv == str_param_views(params@),
            first_run == (i == 0),
            json@ == json_fields(pv.take(i as int)),
        decreases params@.len() - i,
    {
        let (k, v) = params[i];
        assert(pv.take(i + 1).drop_last() =~= pv.take(i as int));
        if first_run {
            assert(json@ =~= Seq::<char>::empty());
            json.append("{ \"");
            json.append(k);
            json.append("\": \"");
            json.append(v);
            json.append("\"");
            first_run = false;
        } else {
            json.append(", \"");
            json.append(k);
            json.append("\": \"");
            json.append(v);
            json.append("\"");
        }
        i = i + 1;
    }
    assert(pv.take(i as int) =~= pv);
    let sig = build_signature(params);
    json.append(", \"api_sig\": \"");
    json.append(sig.as_str());
    json.append("\"");
    json.append(" }");
    json
}

/// The parameters of a request followed by its signature.
pub open spec fn signed_params(ps: Seq<ParamView>) -> Seq<ParamView> {
    ps.push(("api_sig"@, api_signature(ps)))
}

/// A form-encoded request body reads back as the request's parameters followed
/// by their signature, taken over the parameters alone.
pub proof fn lemma_req_body_decodes(ps: Seq<ParamView>)
    ensures
        form_decode(form_urlencoded(signed_params(ps))) == ps.push(("api_sig"@, api_signature(ps))),
{
    lemma_form_urlencoded_decodes(signed_params(ps));
}

/// Why a request body could not be written.
#[derive(Debug, Clone, PartialEq, Eq)]
pub enum RequestBodyError {
    /// The form encoder refused the parameters.
    Encoding,
}

/// A form-encoded request body for `params` followed by their signature.
pub fn make_req_body_urlencoded(params: &Vec<(&str, &str)>) -> (r: Result<String, RequestBodyError>)
    ensures
        r matches Ok(body) && body@ == form_urlencoded(signed_params(str_param_views(params@))),
{
    let sig = build_signature(params);
    let mut params_copy: Vec<(&str, &str)> = Vec::new();
    let mut i: usize = 0;
    while i < params.len()
        invariant
            i <= params@.len(),
            params_copy@ == params@.take(i as int),
        decreases params@.len() - i,
    {
        params_copy.push(params[i]);
        assert(params@.take(i + 1) =~= params@.take(i as int).push(params@[i as int]));
        i = i + 1;
    }
    assert(params@.take(i as int) =~= params@);
    params_copy.push(("api_sig", sig.as_str()));
    assert(str_param_views(params_copy@) =~= signed_params(str_param_views(params@)));
    match urlencode_pairs(params_copy) {
        Ok(body) => Ok(body),
        Err(_) => Err(RequestBodyError::Encoding),
    }
}


/// The application's API key.
pub const API_KEY: &'static str = "";

/// The parameters of a scrobble request: method, API key and session key, then
/// the parameters of the tracks.
pub open spec fn scrobble_params(session_key: Seq<char>, ps: Seq<ParamView>) -> Seq<ParamView> {
    seq![("method"@, "track.scrobble"@), ("api_key"@, API_KEY@), ("sk"@, session_key)] + ps
}

/// The URL that scrobble requests are posted to.
pub open spec fn scrobble_url() -> Seq<char> {
    "http://ws.audioscrobbler.com/2.0/?method=track.scrobble&api_key="@ + API_KEY@ + "&format=json"@
}

/// A request to post: its URL and its body.
#[derive(Debug, Clone, PartialEq, Eq)]
pub struct ScrobbleRequest {
    pub url: String,
    pub body: String,
}

/// The request that scrobbles a submission with the parameters `params` under
/// the session key `session_key`: posted to the scrobble URL with a form-encoded,
/// signed body.
pub fn scrobble_request(session_key: &str, params: &Vec<(String, String)>) -> (r: Result<
    ScrobbleRequest,
    RequestBodyError,
>)
    ensures
        r matches Ok(req) && req.url@ == scrobble_url() && req.body@ == form_urlencoded(
            signed_params(scrobble_params(session_key@, param_views(params@))),
        ),
{
    let mut params_slice: Vec<(&str, &str)> = Vec::new();
    params_slice.push(("method", "track.scrobble"));
    params_slice.push(("api_key", API_KEY));
    params_slice.push(("sk", session_key));
    let ghost head = str_param_views(params_slice@);
    let mut i: usize = 0;
    while i < params.len()
        invariant
            i <= params@.len(),
            str_param_views(params_slice@) == head + param_views(params@).take(i as int),
        decreases params@.len() - i,
    {
        let ghost before = params_slice@;
        params_slice.push((params[i].0.as_str(), params[i].1.as_str()));
        assert(param_views(params@).take(i + 1) =~= param_views(params@).take(i as int).push(
            param_views(params@)[i as int],
        ));
        assert(str_param_views(params_slice@) =~= str_param_views(before).push(
            param_views(params@)[i as int],
        ));
        i = i + 1;
    }
    assert(param_views(params@).take(i as int) =~= param_views(params@));
    assert(str_param_views(params_slice@) =~= scrobble_params(session_key@, param_views(params@)));
    let body = make_req_body_urlencoded(&params_slice)?;
    let mut url = String::from_str("http://ws.audioscrobbler.com/2.0/?method=track.scrobble&api_key=");
    url.append(API_KEY);
    url.append("&format=json");
    Ok(ScrobbleRequest { url, body })
}

} // verus!
