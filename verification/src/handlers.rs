//! What requests for tracks are answered.
use crate::duplicates::tracks_at;
use crate::grouping::{lemma_sort_ascends, lemma_sort_members, lemma_sort_rearranges};
use crate::lists::lemma_filter_members;
use crate::order::{
    as_ints, is_order, is_rearrangement, is_stable_order, lemma_order_ranks, lemma_stable_sort,
    lemma_text_not_lt, position_lt, stable_order, stable_sort,
};
use crate::page::{
    cap_limit, holds_needle, keep_where, law_items_of_a_page, law_pages_are_capped,
    law_searching_looks_everywhere, needle_of, opt_str, page_limit, paged, search_needle,
    stands_in, take_page, text_holds_needle,
};
use crate::paths::{joined, law_path_below_a_folder};
use crate::state::{
    base_dir, etag, etag_of, found, infos, track_abs_path, Track, TrackIndex, TrackInfo,
    TrackMap,
};
use crate::text::{
    ascii_lowered, chars_before, chars_of, decimal, decimal_text, digits_value, is_blank, join,
    join_texts, law_numbers_are_read_back, lemma_find_props, lemma_split_push,
    lemma_text_lt_irreflexive, lemma_text_lt_total, lowered, parse_number, pieces, same_chars,
    same_text, split, split_chars, text_lt, text_of, texts,
};
use crate::transcode::{
    clamp_bitrate, clamped_bitrate, format_named, law_formats_go_by_name, parse_range_start,
    range_start, TranscodeFormat,
};
use vstd::prelude::*;
use vstd::utf8::encode_utf8;

verus! {

/// How long after a scan the next one may be asked for, in nanoseconds.
pub const MIN_RESCAN_INTERVAL_NANOS: u128 = 10000000000;

/// The first second after which no HTTP date can be written: the year 10000 begins.
pub const HTTP_DATE_END: u64 = 253402300800;

/// Whether a request may pass: where a token is set, its `Authorization` header must be exactly
/// `Bearer` and that token.
pub open spec fn may_pass(expected: Option<Seq<char>>, header: Option<Seq<char>>) -> bool {
    match expected {
        Some(token) => header == Some("Bearer "@ + token),
        None => true,
    }
}

/// Whether a request may pass, by its `Authorization` header.
pub fn is_authorized(expected: Option<&str>, header: Option<&str>) -> (r: bool)
    ensures
        r == may_pass(opt_str(expected), opt_str(header)),
{
    match expected {
        Some(token) => {
            let mut want = "Bearer ".to_owned();
            want.append(token);
            match header {
                Some(h) => same_text(h, want.as_str()),
                None => false,
            }
        },
        None => true,
    }
}

/// The orders in which tracks can be listed.
#[derive(Debug, Clone, Copy, PartialEq, Eq, Structural)]
pub enum TrackOrder {
    AddedDesc,
    AddedAsc,
    Title,
    ArtistTitle,
}

/// The order that a request names: by artist and title where it names none that is known.
pub open spec fn order_named(sort: Option<Seq<char>>) -> TrackOrder {
    match sort {
        Some(s) => if s == "added_desc"@ {
            TrackOrder::AddedDesc
        } else if s == "added_asc"@ {
            TrackOrder::AddedAsc
        } else if s == "title"@ {
            TrackOrder::Title
        } else {
            TrackOrder::ArtistTitle
        },
        None => TrackOrder::ArtistTitle,
    }
}

impl TrackOrder {
    /// Which of two tracks comes first.
    pub open spec fn lt(self) -> spec_fn(TrackInfo, TrackInfo) -> bool {
        match self {
            TrackOrder::AddedDesc => |a: TrackInfo, b: TrackInfo| a.added_at > b.added_at,
            TrackOrder::AddedAsc => |a: TrackInfo, b: TrackInfo| a.added_at < b.added_at,
            TrackOrder::Title => |a: TrackInfo, b: TrackInfo| text_lt(a.title, b.title),
            TrackOrder::ArtistTitle => |a: TrackInfo, b: TrackInfo|
                text_lt(a.artist, b.artist) || (a.artist == b.artist && text_lt(a.title, b.title)),
        }
    }

    /// The order that a request names.
    pub fn parse(sort: Option<&str>) -> (r: Self)
        ensures
            r == order_named(opt_str(sort)),
    {
        match sort {
            Some(s) => if same_text(s, "added_desc") {
                TrackOrder::AddedDesc
            } else if same_text(s, "added_asc") {
                TrackOrder::AddedAsc
            } else if same_text(s, "title") {
                TrackOrder::Title
            } else {
                TrackOrder::ArtistTitle
            },
            None => TrackOrder::ArtistTitle,
        }
    }
}

/// Whatever the order, it is one.
pub proof fn lemma_track_orders(o: TrackOrder)
    ensures
        is_order(o.lt()),
{
    let lt = o.lt();
    assert forall|a: TrackInfo, b: TrackInfo| #[trigger] lt(a, b) implies !lt(b, a) by {
        lemma_text_not_lt(a.artist, b.artist, a.artist);
        lemma_text_not_lt(a.title, b.title, a.title);
        lemma_text_lt_irreflexive(a.artist);
    }
    assert forall|a: TrackInfo, b: TrackInfo, c: TrackInfo|
        #![trigger lt(a, b), lt(b, c)]
        !lt(a, b) && !lt(b, c) implies !lt(a, c) by {
        lemma_text_not_lt(a.artist, b.artist, c.artist);
        lemma_text_not_lt(a.title, b.title, c.title);
        lemma_text_lt_total(a.artist, b.artist);
        lemma_text_lt_total(b.artist, c.artist);
        lemma_text_not_lt(b.artist, c.artist, b.artist);
        lemma_text_not_lt(a.artist, b.artist, a.artist);
        lemma_text_lt_irreflexive(a.artist);
    }
}

fn order_by_added(tracks: &[Track], newest_first: bool) -> (r: Vec<usize>)
    ensures
        is_stable_order(
            as_ints(r@),
            tracks@.len() as int,
            position_lt(
                infos(tracks@),
                if newest_first {
                    TrackOrder::AddedDesc.lt()
                } else {
                    TrackOrder::AddedAsc.lt()
                },
            ),
        ),
        forall|i: int| 0 <= i < r.len() ==> #[trigger] r@[i] < tracks.len(),
{
    let n = tracks.len();
    let ghost o = if newest_first {
        TrackOrder::AddedDesc
    } else {
        TrackOrder::AddedAsc
    };
    let less = |a: usize, b: usize| -> (r: bool)
        requires
            a < n,
            b < n,
            n == tracks@.len(),
        ensures
            r == if newest_first {
                tracks@[a as int].added_at > tracks@[b as int].added_at
            } else {
                tracks@[a as int].added_at < tracks@[b as int].added_at
            },
        {
            if newest_first {
                tracks[a].added_at > tracks[b].added_at
            } else {
                tracks[a].added_at < tracks[b].added_at
            }
        };
    proof {
        lemma_track_orders(o);
        lemma_order_ranks(infos(tracks@), o.lt());
    }
    stable_order(n, &less, Ghost(position_lt(infos(tracks@), o.lt())))
}

fn order_by_texts(tracks: &[Track], with_artist: bool) -> (r: Vec<usize>)
    ensures
        is_stable_order(
            as_ints(r@),
            tracks@.len() as int,
            position_lt(
                infos(tracks@),
                if with_artist {
                    TrackOrder::ArtistTitle.lt()
                } else {
                    TrackOrder::Title.lt()
                },
            ),
        ),
        forall|i: int| 0 <= i < r.len() ==> #[trigger] r@[i] < tracks.len(),
{
    let n = tracks.len();
    let ghost o = if with_artist {
        TrackOrder::ArtistTitle
    } else {
        TrackOrder::Title
    };
    let ghost s = infos(tracks@);
    let mut keys: Vec<(Vec<char>, Vec<char>)> = Vec::new();
    let mut i: usize = 0;
    while i < n
        invariant
            0 <= i <= n,
            n == tracks.len(),
            keys.len() == i,
            forall|k: int|
                0 <= k < i ==> (#[trigger] keys@[k]).0@ == tracks@[k].artist@ && keys@[k].1@
                    == tracks@[k].title@,
        decreases n - i,
    {
        keys.push((chars_of(tracks[i].artist.as_str()), chars_of(tracks[i].title.as_str())));
        i += 1;
    }
    let less = |a: usize, b: usize| -> (r: bool)
        requires
            a < n,
            b < n,
            n == keys@.len(),
        ensures
            r == if with_artist {
                text_lt(keys@[a as int].0@, keys@[b as int].0@) || (keys@[a as int].0@
                    == keys@[b as int].0@ && text_lt(keys@[a as int].1@, keys@[b as int].1@))
            } else {
                text_lt(keys@[a as int].1@, keys@[b as int].1@)
            },
        {
            if with_artist {
                chars_before(keys[a].0.as_slice(), keys[b].0.as_slice()) || (same_chars(
                    keys[a].0.as_slice(),
                    keys[b].0.as_slice(),
                ) && chars_before(keys[a].1.as_slice(), keys[b].1.as_slice()))
            } else {
                chars_before(keys[a].1.as_slice(), keys[b].1.as_slice())
            }
        };
    proof {
        lemma_track_orders(o);
        lemma_order_ranks(s, o.lt());
        assert forall|a: int| 0 <= a < n implies (#[trigger] s[a]).artist == keys@[a].0@
            && s[a].title == keys@[a].1@ by {}
    }
    stable_order(n, &less, Ghost(position_lt(s, o.lt())))
}

/// Sorts tracks in the order that a request names; tracks that it does not tell apart keep their
/// order.
pub fn sort_tracks(tracks: &mut Vec<Track>, sort: Option<&str>)
    ensures
        infos(final(tracks)@) == stable_sort(
            infos(old(tracks)@),
            order_named(opt_str(sort)).lt(),
        ),
{
    let ghost s = infos(tracks@);
    let o = TrackOrder::parse(sort);
    let order = match o {
        TrackOrder::AddedDesc => order_by_added(tracks.as_slice(), true),
        TrackOrder::AddedAsc => order_by_added(tracks.as_slice(), false),
        TrackOrder::Title => order_by_texts(tracks.as_slice(), false),
        TrackOrder::ArtistTitle => order_by_texts(tracks.as_slice(), true),
    };
    proof {
        lemma_track_orders(o);
        lemma_order_ranks(s, o.lt());
        lemma_stable_sort(s, o.lt(), as_ints(order@));
    }
    let sorted = tracks_at(tracks.as_slice(), order.as_slice());
    *tracks = sorted;
}

/// Whether a track answers a search: by its title, its artist or its album.
pub open spec fn track_matches(t: TrackInfo, needle: Seq<char>) -> bool {
    holds_needle(t.title, needle) || holds_needle(t.artist, needle) || holds_needle(
        t.album,
        needle,
    )
}

/// The tracks that answer a search, all of them where nothing is searched for.
pub open spec fn tracks_found(s: Seq<TrackInfo>, q: Option<Seq<char>>) -> Seq<TrackInfo> {
    match needle_of(q) {
        Some(n) => s.filter(|t: TrackInfo| track_matches(t, n)),
        None => s,
    }
}

/// The tracks that answer a search, in the order that is asked for.
pub open spec fn tracks_listed(
    s: Seq<TrackInfo>,
    q: Option<Seq<char>>,
    sort: Option<Seq<char>>,
) -> Seq<TrackInfo> {
    stable_sort(tracks_found(s, q), order_named(sort).lt())
}

/// How `httpdate` writes a second of the Unix epoch.
pub uninterp spec fn http_date_text(secs: u64) -> Seq<char>;

/// `httpdate::fmt_http_date` writes a time as an HTTP date, from its whole seconds since the Unix
/// epoch alone. It panics from the year 10000 on. Of the text nothing is said but that the second
/// alone decides it.
#[verifier::external_body]
fn http_date(secs: u64) -> (r: String)
    requires
        secs < HTTP_DATE_END,
    ensures
        r@ == http_date_text(secs),
{
    httpdate::fmt_http_date(std::time::UNIX_EPOCH + std::time::Duration::from_secs(secs))
}

/// A page of tracks, with what its headers say.
#[derive(Debug)]
pub struct TrackPage {
    pub tracks: Vec<Track>,
    pub total: usize,
    pub etag: String,
    pub last_modified: String,
}

/// The answer to a request for tracks.
#[derive(Debug)]
pub enum TrackListReply {
    /// The client has the list as it is.
    NotModified,
    Page(TrackPage),
}

/// Lists a page of the tracks that answer a search, in the order that is asked for; a client that
/// names the current version of the list is told that nothing has changed.
pub fn list_tracks(
    index: &TrackIndex,
    last_scan_secs: u64,
    if_none_match: Option<&str>,
    q: Option<&str>,
    sort: Option<&str>,
    offset: Option<usize>,
    limit: Option<usize>,
) -> (r: TrackListReply)
    requires
        last_scan_secs < HTTP_DATE_END,
    ensures
        r is NotModified <==> opt_str(if_none_match) == Some(
            etag_of(last_scan_secs as nat, index.version()),
        ),
        r matches TrackListReply::Page(p) ==> {
            &&& infos(p.tracks@) == paged(
                tracks_listed(index@, opt_str(q), opt_str(sort)),
                offset,
                Some(page_limit(limit)),
            )
            &&& p.total == tracks_found(index@, opt_str(q)).len()
            &&& p.etag@ == etag_of(last_scan_secs as nat, index.version())
            &&& p.last_modified@ == http_date_text(last_scan_secs)
        },
{
    let tracks = index.tracks();
    let tag = etag(last_scan_secs, index.revision());
    if let Some(known) = if_none_match {
        if same_text(known, tag.as_str()) {
            return TrackListReply::NotModified;
        }
    }
    let mut result = copied_all(tracks);
    let ghost view = |t: Track| t@;
    assert(result@.map_values(view) =~= tracks@);
    if let Some(needle) = search_needle(q) {
        let keep = |t: &Track| -> (b: bool)
            ensures
                b == track_matches(t@, needle@),
            {
                text_holds_needle(t.title.as_str(), needle.as_str()) || text_holds_needle(
                    t.artist.as_str(),
                    needle.as_str(),
                ) || text_holds_needle(t.album.as_str(), needle.as_str())
            };
        let ghost n = needle@;
        result =
        keep_where::<Track, TrackInfo, _>(
            result,
            &keep,
            Ghost(view),
            Ghost(|t: TrackInfo| track_matches(t, n)),
        );
    }
    assert(infos(result@) =~= tracks_found(tracks@, opt_str(q))) by {
        assert(infos(result@) =~= result@.map_values(view));
    }
    let total = result.len();
    sort_tracks(&mut result, sort);
    let capped = cap_limit(limit);
    let ghost listed = result@;
    let page = take_page(result, offset, Some(capped));
    assert(infos(page@) =~= paged(infos(listed), offset, Some(capped)));
    TrackListReply::Page(
        TrackPage { tracks: page, total, etag: tag, last_modified: http_date(last_scan_secs) },
    )
}

fn copied_all(tracks: &TrackMap) -> (r: Vec<Track>)
    ensures
        infos(r@) == tracks@,
{
    let all = tracks.all();
    let mut r: Vec<Track> = Vec::new();
    let mut i: usize = 0;
    while i < all.len()
        invariant
            0 <= i <= all.len(),
            r.len() == i,
            forall|k: int| 0 <= k < i ==> #[trigger] r@[k] == all@[k],
        decreases all.len() - i,
    {
        r.push(all[i].clone());
        i += 1;
    }
    assert(infos(r@) =~= infos(all@));
    r
}

/// The digit with the value `d` in hexadecimal, in upper case.
pub open spec fn upper_hex(d: nat) -> char {
    if d < 10 {
        ('0' as nat + d) as char
    } else {
        ('A' as nat + d - 10) as char
    }
}

/// Whether a byte is an ASCII letter or digit.
pub open spec fn is_alphanumeric_byte(b: u8) -> bool {
    48 <= b <= 57 || 65 <= b <= 90 || 97 <= b <= 122
}

/// Bytes in percent encoding: ASCII letters and digits stand for themselves, every other byte is
/// a percent sign and two hexadecimal digits.
pub open spec fn percent_encoded(bytes: Seq<u8>) -> Seq<char>
    decreases bytes.len(),
{
    if bytes.len() == 0 {
        Seq::empty()
    } else if is_alphanumeric_byte(bytes[0]) {
        seq![bytes[0] as char] + percent_encoded(bytes.skip(1))
    } else {
        seq!['%', upper_hex(bytes[0] as nat / 16), upper_hex(bytes[0] as nat % 16)]
            + percent_encoded(bytes.skip(1))
    }
}

/// `percent_encoding::utf8_percent_encode` with the set `NON_ALPHANUMERIC` writes the UTF-8 bytes
/// of a text in percent encoding, all but the ASCII letters and digits as escapes with upper-case
/// digits.
#[verifier::external_body]
fn percent_encode(segment: &str) -> (r: String)
    ensures
        r@ == percent_encoded(encode_utf8(segment@)),
{
    percent_encoding::utf8_percent_encode(segment, percent_encoding::NON_ALPHANUMERIC).to_string()
}

/// A path with each of its segments in percent encoding.
pub open spec fn encoded_path(path: Seq<char>) -> Seq<char> {
    join(
        split(path, '/').map_values(|p: Seq<char>| percent_encoded(encode_utf8(p))),
        "/"@,
    )
}

/// Where a file of a music folder is served.
pub open spec fn file_url_of(root: usize, path: Seq<char>) -> Seq<char> {
    "/files/"@ + decimal(root as nat) + "/"@ + encoded_path(path)
}

/// Where a file of a music folder is served.
pub fn file_url(root: usize, relative_path: &str) -> (r: String)
    ensures
        r@ == file_url_of(root, relative_path@),
{
    let chars = chars_of(relative_path);
    let parts = split_chars(chars.as_slice(), '/');
    let ghost f = |p: Seq<char>| percent_encoded(encode_utf8(p));
    let ghost want = split(relative_path@, '/').map_values(f);
    let mut encoded: Vec<String> = Vec::new();
    let mut i: usize = 0;
    while i < parts.len()
        invariant
            0 <= i <= parts.len(),
            f == (|p: Seq<char>| percent_encoded(encode_utf8(p))),
            encoded.len() == i,
            forall|k: int| 0 <= k < i ==> (#[trigger] encoded@[k])@ == f(parts@[k]@),
        decreases parts.len() - i,
    {
        let segment = text_of(parts[i]);
        encoded.push(percent_encode(segment.as_str()));
        i += 1;
    }
    assert(texts(encoded@) =~= want) by {
        assert(pieces(parts@).len() == parts@.len());
    }
    let mut r = "/files/".to_owned();
    r.append(decimal_text(root as u64).as_str());
    r.append("/");
    r.append(join_texts(encoded.as_slice(), "/").as_str());
    r
}

/// What is to be transcoded, and from where on.
#[derive(Debug)]
pub struct TranscodeJob {
    pub source: String,
    pub format: TranscodeFormat,
    pub bitrate_kbps: u32,
    /// The byte that the client wants to go on from.
    pub range_start: Option<u64>,
}

/// The answer to a request for the audio of a track.
#[derive(Debug)]
pub enum StreamReply {
    NotFound,
    /// The file is served as it is, elsewhere.
    Redirect(String),
    UnsupportedFormat,
    /// There is no encoder on this machine.
    NoEncoder,
    Transcode(TranscodeJob),
}

/// A number as a plain value.
pub open spec fn opt_nat(n: Option<u64>) -> Option<nat> {
    match n {
        Some(v) => Some(v as nat),
        None => None,
    }
}

/// Where in the stream a range header asks to start.
pub open spec fn asked_start(range: Option<Seq<char>>) -> Option<nat> {
    match range {
        Some(h) => range_start(h),
        None => None,
    }
}

/// Whether an answer is the right one to a request for the audio of a track.
pub open spec fn is_stream_reply(
    r: StreamReply,
    track: Option<TrackInfo>,
    format: Option<Seq<char>>,
    bitrate: Option<u32>,
    range: Option<Seq<char>>,
    encoder_available: bool,
    music_dirs: Seq<Seq<char>>,
) -> bool {
    match track {
        None => r is NotFound,
        Some(t) => match format {
            None => r matches StreamReply::Redirect(url) && url@ == file_url_of(
                t.root,
                t.relative_path,
            ),
            Some(f) => match format_named(f) {
                None => r is UnsupportedFormat,
                Some(named) => if !encoder_available {
                    r is NoEncoder
                } else {
                    r matches StreamReply::Transcode(job) && job.source@ == joined(
                        base_dir(music_dirs, t.root as int),
                        t.relative_path,
                    ) && job.format == named && job.bitrate_kbps == clamped_bitrate(bitrate)
                        && opt_nat(job.range_start) == asked_start(range)
                },
            },
        },
    }
}

/// Decides how the audio of a track is served: from its file, or transcoded where a format is
/// asked for.
pub fn stream_track(
    tracks: &TrackMap,
    id: &str,
    format: Option<&str>,
    bitrate: Option<u32>,
    range: Option<&str>,
    encoder_available: bool,
    music_dirs: &[String],
) -> (r: StreamReply)
    ensures
        is_stream_reply(
            r,
            found(tracks@, id@),
            opt_str(format),
            bitrate,
            opt_str(range),
            encoder_available,
            texts(music_dirs@),
        ),
{
    let track = match tracks.get(id) {
        Some(t) => t,
        None => {
            return StreamReply::NotFound;
        },
    };
    let name = match format {
        Some(f) => f,
        None => {
            return StreamReply::Redirect(file_url(track.root, track.relative_path.as_str()));
        },
    };
    let named = match TranscodeFormat::parse(name) {
        Some(f) => f,
        None => {
            return StreamReply::UnsupportedFormat;
        },
    };
    if !encoder_available {
        return StreamReply::NoEncoder;
    }
    let start = match range {
        Some(h) => parse_range_start(h),
        None => None,
    };
    StreamReply::Transcode(
        TranscodeJob {
            source: track_abs_path(music_dirs, track),
            format: named,
            bitrate_kbps: clamp_bitrate(bitrate),
            range_start: start,
        },
    )
}

/// The `Content-Range` of a transcoded stream from a byte on, whose length is not known.
pub open spec fn content_range_of(start: nat) -> Seq<char> {
    "bytes "@ + decimal(start) + "-*/*"@
}

/// The `Content-Range` of a transcoded stream from a byte on.
pub fn content_range(start: u64) -> (r: String)
    ensures
        r@ == content_range_of(start as nat),
{
    let mut r = "bytes ".to_owned();
    r.append(decimal_text(start).as_str());
    r.append("-*/*");
    r
}

/// How many seconds to wait before the next scan may be asked for, where it is too early. The time
/// since the last scan is not known where the clock was set back.
pub open spec fn seconds_to_wait(elapsed_nanos: Option<u128>) -> Option<u64> {
    match elapsed_nanos {
        Some(e) => if e < MIN_RESCAN_INTERVAL_NANOS {
            let left = (MIN_RESCAN_INTERVAL_NANOS - e) / 1000000000;
            Some(
                if left < 1 {
                    1
                } else {
                    left as u64
                },
            )
        } else {
            None
        },
        None => None,
    }
}

/// How many seconds to wait before the next scan may be asked for, where it is too early.
pub fn rescan_wait(elapsed_nanos: Option<u128>) -> (r: Option<u64>)
    ensures
        r == seconds_to_wait(elapsed_nanos),
{
    match elapsed_nanos {
        Some(e) => if e < MIN_RESCAN_INTERVAL_NANOS {
            let left: u128 = (MIN_RESCAN_INTERVAL_NANOS - e) / 1000000000;
            if left < 1 {
                Some(1)
            } else {
                Some(left as u64)
            }
        } else {
            None
        },
        None => None,
    }
}

/// A scan is refused for ten seconds after the last one. The client is told to wait for one to ten
/// seconds, whole ones only, so that one second more is always enough.
pub proof fn law_rescan_wait_is_short(elapsed_nanos: u128)
    ensures
        match seconds_to_wait(Some(elapsed_nanos)) {
            Some(s) => {
                &&& elapsed_nanos < 10 * 1000000000
                &&& 1 <= s <= 10
                &&& seconds_to_wait(Some((elapsed_nanos + (s + 1) * 1000000000) as u128)) is None
            },
            None => elapsed_nanos >= 10 * 1000000000,
        },
{
}

/// Where no token is set every request passes; where one is, only those with that token do.
pub proof fn law_only_the_token_passes(token: Seq<char>, header: Option<Seq<char>>)
    ensures
        may_pass(None, header),
        may_pass(Some(token), Some("Bearer "@ + token)),
        may_pass(Some(token), header) ==> header == Some("Bearer "@ + token),
{
}

/// A list has the tracks that answer the search, each once, in the order that is asked for.
pub proof fn law_list_is_in_order(
    s: Seq<TrackInfo>,
    q: Option<Seq<char>>,
    sort: Option<Seq<char>>,
)
    ensures
        is_rearrangement(tracks_listed(s, q, sort), tracks_found(s, q)),
        forall|i: int, j: int|
            0 <= i < j < tracks_listed(s, q, sort).len() ==> !order_named(sort).lt()(
                #[trigger] tracks_listed(s, q, sort)[j],
                #[trigger] tracks_listed(s, q, sort)[i],
            ),
{
    let lt = order_named(sort).lt();
    let s = tracks_found(s, q);
    lemma_track_orders(order_named(sort));
    let places = lemma_sort_rearranges(s, lt);
    let listed = stable_sort(s, lt);
    assert forall|i: int, j: int| 0 <= i < j < listed.len() implies !lt(
        #[trigger] listed[j],
        #[trigger] listed[i],
    ) by {
        lemma_sort_ascends(s, lt, i, j);
    }
}

/// Whether a track has a text somewhere in its title, its artist or its album, all in lower case.
pub open spec fn has_somewhere(t: TrackInfo, text: Seq<char>) -> bool {
    stands_in(text, lowered(t.title)) || stands_in(text, lowered(t.artist)) || stands_in(
        text,
        lowered(t.album),
    )
}

/// A search finds every track that has what is searched for anywhere in its title, its artist or
/// its album, whatever the case of the letters, and no other track; where nothing is searched for
/// all tracks are found.
pub proof fn law_search_finds_all_that_hold_it(s: Seq<TrackInfo>, q: Seq<char>, t: TrackInfo)
    ensures
        !is_blank(q) ==> (tracks_found(s, Some(q)).contains(t) <==> s.contains(t)
            && has_somewhere(t, lowered(q))),
        is_blank(q) ==> tracks_found(s, Some(q)) == s,
        tracks_found(s, None) == s,
{
    law_searching_looks_everywhere(q, t.title);
    law_searching_looks_everywhere(q, t.artist);
    law_searching_looks_everywhere(q, t.album);
    if !is_blank(q) {
        lemma_filter_members(s, |u: TrackInfo| track_matches(u, lowered(q)), t);
    }
}

/// A track more in the index is one track more that is found where it has what is searched for, and
/// changes nothing where it has not.
pub proof fn law_search_goes_track_by_track(s: Seq<TrackInfo>, q: Seq<char>, t: TrackInfo)
    requires
        !is_blank(q),
    ensures
        tracks_found(Seq::empty(), Some(q)) == Seq::<TrackInfo>::empty(),
        tracks_found(s.push(t), Some(q)) == if has_somewhere(t, lowered(q)) {
            tracks_found(s, Some(q)).push(t)
        } else {
            tracks_found(s, Some(q))
        },
{
    reveal(Seq::filter);
    law_searching_looks_everywhere(q, t.title);
    law_searching_looks_everywhere(q, t.artist);
    law_searching_looks_everywhere(q, t.album);
    assert(s.push(t).drop_last() =~= s);
}

/// The orders of a list: `added_desc` puts the latest first and `added_asc` the earliest, `title`
/// goes by the titles, and every other order, like none at all, by the artists and among the tracks
/// of one artist by the titles.
pub proof fn law_orders_of_a_list(
    s: Seq<TrackInfo>,
    q: Option<Seq<char>>,
    other: Seq<char>,
    i: int,
    j: int,
)
    requires
        0 <= i < j < tracks_found(s, q).len(),
        other != "added_desc"@,
        other != "added_asc"@,
        other != "title"@,
    ensures
        ({
            let l = tracks_listed(s, q, Some("added_desc"@));
            l[i].added_at >= l[j].added_at
        }),
        ({
            let l = tracks_listed(s, q, Some("added_asc"@));
            l[i].added_at <= l[j].added_at
        }),
        ({
            let l = tracks_listed(s, q, Some("title"@));
            !text_lt(l[j].title, l[i].title)
        }),
        ({
            let l = tracks_listed(s, q, None);
            &&& !text_lt(l[j].artist, l[i].artist)
            &&& l[j].artist == l[i].artist ==> !text_lt(l[j].title, l[i].title)
        }),
        tracks_listed(s, q, Some(other)) == tracks_listed(s, q, None),
        tracks_listed(s, q, Some("artist"@)) == tracks_listed(s, q, None),
{
    reveal_strlit("added_desc");
    reveal_strlit("added_asc");
    reveal_strlit("title");
    reveal_strlit("artist");
    assert("added_desc"@.len() == 10 && "added_asc"@.len() == 9 && "title"@.len() == 5
        && "artist"@.len() == 6);
    let found = tracks_found(s, q);
    lemma_track_orders(TrackOrder::AddedDesc);
    lemma_sort_ascends(found, TrackOrder::AddedDesc.lt(), i, j);
    lemma_track_orders(TrackOrder::AddedAsc);
    lemma_sort_ascends(found, TrackOrder::AddedAsc.lt(), i, j);
    lemma_track_orders(TrackOrder::Title);
    lemma_sort_ascends(found, TrackOrder::Title.lt(), i, j);
    lemma_track_orders(TrackOrder::ArtistTitle);
    lemma_sort_ascends(found, TrackOrder::ArtistTitle.lt(), i, j);
}

/// A page of the list shows only tracks that were found, each as it is in the index; the total
/// counts all that were found; and a page from the start that is long enough shows every one.
pub proof fn law_page_shows_what_was_found(
    p: TrackPage,
    s: Seq<TrackInfo>,
    q: Option<Seq<char>>,
    sort: Option<Seq<char>>,
    offset: Option<usize>,
    limit: Option<usize>,
)
    requires
        infos(p.tracks@) == paged(tracks_listed(s, q, sort), offset, Some(page_limit(limit))),
        p.total == tracks_found(s, q).len(),
    ensures
        p.tracks.len() <= 2000,
        forall|k: int| 0 <= k < p.tracks.len() ==> s.contains(#[trigger] p.tracks@[k]@),
        forall|k: int|
            0 <= k < p.tracks.len() ==> tracks_found(s, q).contains(#[trigger] p.tracks@[k]@),
        offset is None && limit is None && p.total <= 2000 ==> {
            &&& p.tracks.len() == p.total
            &&& forall|t: TrackInfo| #[trigger]
                tracks_found(s, q).contains(t) ==> infos(p.tracks@).contains(t)
        },
{
    let found = tracks_found(s, q);
    let listed = tracks_listed(s, q, sort);
    let lt = order_named(sort).lt();
    let page = infos(p.tracks@);
    lemma_track_orders(order_named(sort));
    let places = lemma_sort_rearranges(found, lt);
    assert(listed.len() == found.len());
    let start: usize = match offset {
        Some(n) => n,
        None => 0,
    };
    law_items_of_a_page(listed, start, page_limit(limit));
    law_pages_are_capped(listed, offset, limit);
    assert(page == paged(listed, Some(start), Some(page_limit(limit))));
    assert(page.len() == p.tracks@.len());
    assert forall|k: int| 0 <= k < p.tracks.len() implies found.contains(
        #[trigger] p.tracks@[k]@,
    ) && s.contains(p.tracks@[k]@) by {
        let t = p.tracks@[k]@;
        assert(page[k] == t);
        assert(listed[start + k] == t);
        assert(listed.contains(t));
        lemma_sort_members(found, lt, t);
        match needle_of(q) {
            Some(n) => {
                lemma_filter_members(s, |u: TrackInfo| track_matches(u, n), t);
            },
            None => {},
        }
    }
    if offset is None && limit is None && p.total <= 2000 {
        assert(page =~= listed);
        assert forall|t: TrackInfo| #[trigger] found.contains(t) implies page.contains(t) by {
            lemma_sort_members(found, lt, t);
        }
    }
}

/// What a request for the audio of a track is answered: nothing where there is no such track; the
/// address of its file where no format is asked for; and otherwise a job for the encoder, at the
/// bitrate that is asked for as far as it is from 64 to 320, from the file of the track in its
/// music folder.
pub proof fn law_stream_is_as_asked(
    r: StreamReply,
    track: Option<TrackInfo>,
    format: Option<Seq<char>>,
    bitrate: Option<u32>,
    range: Option<Seq<char>>,
    encoder_available: bool,
    music_dirs: Seq<Seq<char>>,
)
    requires
        is_stream_reply(r, track, format, bitrate, range, encoder_available, music_dirs),
    ensures
        r is NotFound <==> track is None,
        r is Redirect <==> track is Some && format is None,
        r is UnsupportedFormat <==> (track is Some && format is Some && !(
        ascii_lowered(format->0) == "mp3"@ || ascii_lowered(format->0) == "opus"@ || ascii_lowered(
            format->0,
        ) == "aac"@)),
        r matches StreamReply::Redirect(url) ==> url@ == "/files/"@ + decimal(
            (track->0).root as nat,
        ) + "/"@ + encoded_path((track->0).relative_path),
        r is NoEncoder ==> !encoder_available,
        r is Transcode ==> encoder_available,
        r matches StreamReply::Transcode(job) ==> {
            &&& bitrate matches Some(b) ==> (64 <= b <= 320 ==> job.bitrate_kbps == b) && (b < 64
                ==> job.bitrate_kbps == 64) && (b > 320 ==> job.bitrate_kbps == 320)
            &&& bitrate is None ==> job.bitrate_kbps == 192
            &&& job.format is Mp3 <==> ascii_lowered(format->0) == "mp3"@
            &&& job.format is Opus <==> ascii_lowered(format->0) == "opus"@
            &&& job.format is Aac <==> ascii_lowered(format->0) == "aac"@
            &&& range is None ==> job.range_start is None
            &&& job.range_start matches Some(n) ==> range is Some && range_start(range->0) == Some(
                n as nat,
            )
            &&& job.range_start is None ==> range is None || range_start(range->0) is None
        },
        r matches StreamReply::Transcode(job) ==> {
            let t = track->0;
            t.root < music_dirs.len() && music_dirs[t.root as int].len() > 0
                && music_dirs[t.root as int].last() != '/' && t.relative_path.len() > 0
                && t.relative_path[0] != '/' ==> job.source@ == music_dirs[t.root as int]
                + seq!['/'] + t.relative_path
        },
{
    if format is Some {
        let f = format->0;
        law_formats_go_by_name(f);
        reveal_strlit("mp3");
        reveal_strlit("opus");
        reveal_strlit("aac");
        assert("opus"@.len() == 4 && "mp3"@.len() == 3 && "aac"@.len() == 3);
        assert("mp3"@[0] != "aac"@[0]);
    }
    if track is Some {
        let t = track->0;
        if t.root < music_dirs.len() && music_dirs[t.root as int].len() > 0
            && t.relative_path.len() > 0 && t.relative_path[0] != '/' {
            law_path_below_a_folder(music_dirs[t.root as int], t.relative_path);
        }
    }
}

/// The address of a file names its music folder by number and stays under it: after the number come
/// as many segments as the path has, made of ASCII letters, digits and percent signs alone.
pub proof fn law_file_url_is_plain(root: usize, path: Seq<char>, i: int)
    ensures
        file_url_of(root, path) == "/files/"@ + decimal(root as nat) + "/"@ + encoded_path(path),
        split(encoded_path(path), '/').len() == split(path, '/').len(),
        0 <= i < encoded_path(path).len() ==> encoded_path(path)[i] == '/' || encoded_path(path)[i]
            == '%' || 'a' <= encoded_path(path)[i] <= 'z' || 'A' <= encoded_path(path)[i] <= 'Z'
            || '0' <= encoded_path(path)[i] <= '9',
{
    law_file_url_leads_back(path);
    let decode = |p: Seq<char>| percent_decoded(p);
    assert(split(encoded_path(path), '/').map_values(decode).len() == split(path, '/').len());
    let f = |p: Seq<char>| percent_encoded(encode_utf8(p));
    lemma_joined_is_plain(split(path, '/').map_values(f), encoded_path(path), split(path, '/'));
}

/// Whether a text is made of ASCII letters, digits, percent signs and slashes.
spec fn is_plain(s: Seq<char>) -> bool {
    forall|i: int|
        0 <= i < s.len() ==> #[trigger] s[i] == '/' || s[i] == '%' || 'a' <= s[i] <= 'z' || 'A'
            <= s[i] <= 'Z' || '0' <= s[i] <= '9'
}

proof fn lemma_encoded_is_plain(bytes: Seq<u8>)
    ensures
        is_plain(percent_encoded(bytes)),
    decreases bytes.len(),
{
    if bytes.len() > 0 {
        lemma_encoded_is_plain(bytes.skip(1));
        let rest = percent_encoded(bytes.skip(1));
        let s = percent_encoded(bytes);
        let n = s.len() - rest.len();
        assert forall|i: int| 0 <= i < s.len() implies #[trigger] s[i] == '/' || s[i] == '%' || 'a'
            <= s[i] <= 'z' || 'A' <= s[i] <= 'Z' || '0' <= s[i] <= '9' by {
            if i >= n {
                assert(s[i] == rest[i - n]);
            }
        }
    }
}

proof fn lemma_joined_is_plain(
    encoded: Seq<Seq<char>>,
    whole: Seq<char>,
    parts: Seq<Seq<char>>,
)
    requires
        encoded == parts.map_values(|p: Seq<char>| percent_encoded(encode_utf8(p))),
        whole == join(encoded, "/"@),
    ensures
        is_plain(whole),
    decreases encoded.len(),
{
    reveal_strlit("/");
    if encoded.len() > 0 {
        let e = encoded.last();
        lemma_encoded_is_plain(encode_utf8(parts.last()));
        assert(e == percent_encoded(encode_utf8(parts.last())));
        if encoded.len() > 1 {
            let front = encoded.drop_last();
            assert(front =~= parts.drop_last().map_values(
                |p: Seq<char>| percent_encoded(encode_utf8(p)),
            ));
            lemma_joined_is_plain(front, join(front, "/"@), parts.drop_last());
            let head = join(front, "/"@);
            assert forall|i: int| 0 <= i < whole.len() implies #[trigger] whole[i] == '/'
                || whole[i] == '%' || 'a' <= whole[i] <= 'z' || 'A' <= whole[i] <= 'Z' || '0'
                <= whole[i] <= '9' by {
                if i < head.len() {
                    assert(whole[i] == head[i]);
                } else if i > head.len() {
                    assert(whole[i] == e[i - head.len() - 1]);
                }
            }
        }
    }
}

/// The range of a stream is given by its first byte; neither its end nor its length is known.
pub proof fn law_content_range(start: nat)
    ensures
        exists|digits: Seq<char>|
            content_range_of(start) == #[trigger] ("bytes "@ + digits + "-*/*"@) && digits_value(
                digits,
            ) == start && parse_number(digits, start) == Some(start),
{
    law_numbers_are_read_back(start, start);
    assert(content_range_of(start) == "bytes "@ + decimal(start) + "-*/*"@);
}

/// The seconds to wait are what is left of ten seconds, rounded down but never to nothing.
pub proof fn law_rescan_wait_in_seconds(elapsed_nanos: u128, s: u64)
    requires
        seconds_to_wait(Some(elapsed_nanos)) == Some(s),
    ensures
        s > 1 ==> s * 1000000000 <= 10000000000 - elapsed_nanos,
        10000000000 - elapsed_nanos < (s + 1) * 1000000000,
        seconds_to_wait(None) is None,
{
}

/// The value of a hexadecimal digit in upper case.
pub open spec fn hex_value(c: char) -> nat {
    if '0' <= c <= '9' {
        (c as nat - '0' as nat) as nat
    } else {
        (c as nat - 'A' as nat + 10) as nat
    }
}

/// The bytes that a text in percent encoding stands for.
pub open spec fn percent_decoded(s: Seq<char>) -> Seq<u8>
    decreases s.len(),
{
    if s.len() == 0 {
        Seq::empty()
    } else if s[0] == '%' && s.len() >= 3 {
        seq![(hex_value(s[1]) * 16 + hex_value(s[2])) as u8] + percent_decoded(s.skip(3))
    } else {
        seq![s[0] as u8] + percent_decoded(s.skip(1))
    }
}

proof fn lemma_percent_decoded(bytes: Seq<u8>)
    ensures
        percent_decoded(percent_encoded(bytes)) == bytes,
        !percent_encoded(bytes).contains('/'),
    decreases bytes.len(),
{
    let s = percent_encoded(bytes);
    if bytes.len() == 0 {
        assert(percent_decoded(s) =~= bytes);
    } else {
        let b = bytes[0];
        let rest = percent_encoded(bytes.skip(1));
        lemma_percent_decoded(bytes.skip(1));
        let hi = upper_hex(b as nat / 16);
        let lo = upper_hex(b as nat % 16);
        if is_alphanumeric_byte(b) {
            assert(s.skip(1) =~= rest);
            assert(s[0] == b as char);
        } else {
            assert(s.skip(3) =~= rest);
            assert(s[1] == hi && s[2] == lo);
            assert(hex_value(hi) == b as nat / 16);
            assert(hex_value(lo) == b as nat % 16);
        }
        assert(percent_decoded(s) =~= bytes);
        if s.contains('/') {
            let i = choose|i: int| 0 <= i < s.len() && s[i] == '/';
            let n = s.len() - rest.len();
            if i >= n {
                assert(rest[i - n] == '/');
            }
        }
    }
}

proof fn lemma_split_join(segments: Seq<Seq<char>>)
    requires
        segments.len() > 0,
        forall|i: int| 0 <= i < segments.len() ==> !(#[trigger] segments[i]).contains('/'),
    ensures
        split(join(segments, "/"@), '/') == segments,
    decreases segments.len(),
{
    reveal_strlit("/");
    assert("/"@ =~= seq!['/']);
    if segments.len() == 1 {
        let s = segments[0];
        lemma_find_props(s, '/');
        assert(split(s, '/') =~= segments);
    } else {
        let front = segments.drop_last();
        assert forall|i: int| 0 <= i < front.len() implies !(#[trigger] front[i]).contains(
            '/',
        ) by {
            assert(front[i] == segments[i]);
        }
        lemma_split_join(front);
        assert(!segments[segments.len() - 1].contains('/'));
        lemma_split_push(join(front, "/"@), segments.last(), '/');
        assert(front.push(segments.last()) =~= segments);
    }
}

/// The address of a file leads back to it: cut at its slashes and decoded, its path has the
/// segments of the path of the file, whatever characters they hold.
pub proof fn law_file_url_leads_back(path: Seq<char>)
    ensures
        split(encoded_path(path), '/').map_values(|p: Seq<char>| percent_decoded(p)) == split(
            path,
            '/',
        ).map_values(|p: Seq<char>| encode_utf8(p)),
{
    let f = |p: Seq<char>| percent_encoded(encode_utf8(p));
    let g = |p: Seq<char>| percent_decoded(p);
    let h = |p: Seq<char>| encode_utf8(p);
    let parts = split(path, '/');
    let segments = parts.map_values(f);
    lemma_find_props(path, '/');
    assert(segments.len() > 0);
    assert forall|i: int| 0 <= i < segments.len() implies !(#[trigger] segments[i]).contains(
        '/',
    ) && g(segments[i]) == h(parts[i]) by {
        lemma_percent_decoded(encode_utf8(parts[i]));
    }
    lemma_split_join(segments);
    assert(segments.map_values(g) =~= parts.map_values(h));
}

} // verus!
