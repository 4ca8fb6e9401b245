use sonum::handlers::{
    content_range, file_url, is_authorized, list_tracks, rescan_wait, sort_tracks, stream_track,
    StreamReply, TrackListReply, TrackPage,
};
use sonum::page::take_page;
use sonum::state::{Track, TrackIndex, TrackMap};
use sonum::transcode::TranscodeFormat;

fn track(id: &str, artist: &str, title: &str, added_at: u64) -> Track {
    Track {
        id: id.to_string(),
        title: title.to_string(),
        artist: artist.to_string(),
        album_artist: None,
        album: "Album".to_string(),
        duration_seconds: 100,
        bitrate_kbps: Some(320),
        format: "mp3".to_string(),
        stream_url: format!("/tracks/{id}/stream"),
        has_embedded_lyrics: false,
        has_embedded_art: false,
        genre: None,
        year: None,
        track_number: None,
        disc_number: None,
        added_at,
        root: 0,
        relative_path: format!("{artist}/{title}.mp3"),
    }
}

fn index(tracks: Vec<Track>) -> TrackMap {
    let mut map = TrackMap::new();
    for t in tracks {
        map.insert(t);
    }
    map
}

fn state(tracks: Vec<Track>) -> TrackIndex {
    TrackIndex::new(index(tracks))
}

fn page(r: TrackListReply) -> TrackPage {
    match r {
        TrackListReply::Page(p) => p,
        TrackListReply::NotModified => panic!("expected a page"),
    }
}

#[test]
fn default_sort_is_artist_then_title() {
    let mut tracks = vec![
        track("1", "B Artist", "Z", 1),
        track("2", "A Artist", "Z", 2),
    ];
    sort_tracks(&mut tracks, None);
    assert_eq!(tracks[0].artist, "A Artist");
}

#[test]
fn added_desc_sorts_newest_first() {
    let mut tracks = vec![
        track("1", "A", "T", 10),
        track("2", "A", "T", 30),
        track("3", "A", "T", 20),
    ];
    sort_tracks(&mut tracks, Some("added_desc"));
    let order: Vec<u64> = tracks.iter().map(|t| t.added_at).collect();
    assert_eq!(order, vec![30, 20, 10]);
}

#[test]
fn added_asc_sorts_oldest_first() {
    let mut tracks = vec![
        track("1", "A", "T", 10),
        track("2", "A", "T", 30),
        track("3", "A", "T", 20),
    ];
    sort_tracks(&mut tracks, Some("added_asc"));
    let order: Vec<u64> = tracks.iter().map(|t| t.added_at).collect();
    assert_eq!(order, vec![10, 20, 30]);
}

#[test]
fn unknown_sort_value_falls_back_to_default() {
    let mut tracks = vec![
        track("1", "B Artist", "Z", 1),
        track("2", "A Artist", "Z", 2),
    ];
    sort_tracks(&mut tracks, Some("nonsense"));
    assert_eq!(tracks[0].artist, "A Artist");
}

#[test]
fn tracks_that_an_order_does_not_tell_apart_keep_their_order() {
    let mut tracks = vec![
        track("1", "B", "T", 5),
        track("2", "A", "T", 5),
        track("3", "C", "S", 5),
    ];
    sort_tracks(&mut tracks, Some("title"));
    let ids: Vec<&str> = tracks.iter().map(|t| t.id.as_str()).collect();
    assert_eq!(ids, vec!["3", "1", "2"]);
    sort_tracks(&mut tracks, Some("added_desc"));
    let ids: Vec<&str> = tracks.iter().map(|t| t.id.as_str()).collect();
    assert_eq!(ids, vec!["3", "1", "2"]);
}

#[test]
fn only_the_exact_bearer_token_passes() {
    assert!(is_authorized(None, None));
    assert!(is_authorized(None, Some("anything")));
    assert!(is_authorized(Some("t0k"), Some("Bearer t0k")));
    assert!(!is_authorized(Some("t0k"), Some("bearer t0k")));
    assert!(!is_authorized(Some("t0k"), Some("Bearer t0k ")));
    assert!(!is_authorized(Some("t0k"), None));
}

#[test]
fn lists_search_in_title_artist_and_album_and_count_all_matches() {
    let tracks = state(vec![
        track("1", "Abba", "Fernando", 1),
        track("2", "Queen", "Bohemian", 2),
        track("3", "Queen", "Abbatoir", 3),
    ]);
    let p = page(list_tracks(&tracks, 0, None, Some("ABBA"), None, None, Some(1)));
    assert_eq!(p.total, 2);
    assert_eq!(p.tracks.len(), 1);
    assert_eq!(p.tracks[0].id, "1");
    assert_eq!(p.etag, "\"0-0\"");
    assert_eq!(p.last_modified, "Thu, 01 Jan 1970 00:00:00 GMT");
    let p = page(list_tracks(&tracks, 0, None, Some("album"), Some("added_desc"), Some(1), None));
    let ids: Vec<&str> = p.tracks.iter().map(|t| t.id.as_str()).collect();
    assert_eq!((p.total, ids), (3, vec!["2", "1"]));
}

#[test]
fn dates_are_written_for_http() {
    let tracks = state(vec![]);
    let p = page(list_tracks(&tracks, 1_475_419_451, Some("\"0-0\""), None, None, None, None));
    assert_eq!(p.last_modified, "Sun, 02 Oct 2016 14:44:11 GMT");
    assert_eq!(p.etag, "\"57f11d3b-0\"");
}

#[test]
fn a_client_with_the_current_version_is_told_so() {
    let mut tracks = state(vec![track("1", "A", "T", 1)]);
    let r = list_tracks(&tracks, 255, Some("\"ff-0\""), None, None, None, None);
    assert!(matches!(r, TrackListReply::NotModified));
    let r = list_tracks(&tracks, 256, Some("\"ff-0\""), None, None, None, None);
    assert!(matches!(r, TrackListReply::Page(_)));
    tracks.insert(track("1", "A", "U", 1));
    let r = list_tracks(&tracks, 255, Some("\"ff-0\""), None, None, None, None);
    assert_eq!(page(r).tracks[0].title, "U");
    let r = list_tracks(&tracks, 255, Some("\"ff-1\""), None, None, None, None);
    assert!(matches!(r, TrackListReply::NotModified));
}

#[test]
fn pages_hold_at_most_two_thousand_tracks() {
    let mut all = TrackMap::new();
    for i in 0..2005u64 {
        all.insert(track(&format!("{i}"), "A", "T", i));
    }
    let all = TrackIndex::new(all);
    let p = page(list_tracks(&all, 0, None, None, Some("added_asc"), None, Some(999_999)));
    assert_eq!((p.total, p.tracks.len()), (2005, 2000));
    let p = page(list_tracks(&all, 0, None, None, Some("added_asc"), Some(2000), None));
    assert_eq!(p.tracks.len(), 5);
    assert_eq!(p.tracks[0].id, "2000");
}

#[test]
fn two_pages_follow_each_other() {
    let all: Vec<u32> = (0..10).collect();
    let mut first = take_page(all.clone(), Some(2), Some(3));
    first.extend(take_page(all.clone(), Some(5), Some(9)));
    assert_eq!(first, take_page(all.clone(), Some(2), Some(12)));
    assert_eq!(take_page(all.clone(), None, None), all);
    assert_eq!(take_page(all, Some(11), Some(1)), vec![]);
}

#[test]
fn file_urls_encode_each_segment() {
    assert_eq!(file_url(0, "a/b c.mp3"), "/files/0/a/b%20c%2Emp3");
    assert_eq!(file_url(12, "\u{e9}?"), "/files/12/%C3%A9%3F");
    assert_eq!(file_url(3, "100%/x"), "/files/3/100%25/x");
}

#[test]
fn streams_redirect_to_the_file_unless_a_format_is_asked_for() {
    let mut t = track("1", "A B", "T", 1);
    t.root = 1;
    let tracks = index(vec![t]);
    let dirs = vec!["/one".to_string(), "/two".to_string()];
    let ask = |id: &str, format: Option<&str>, encoder: bool| {
        stream_track(&tracks, id, format, Some(1000), Some("bytes=500-"), encoder, &dirs)
    };
    assert!(matches!(ask("9", None, true), StreamReply::NotFound));
    match ask("1", None, false) {
        StreamReply::Redirect(url) => assert_eq!(url, "/files/1/A%20B/T%2Emp3"),
        other => panic!("unexpected {other:?}"),
    }
    assert!(matches!(ask("1", Some("wma"), true), StreamReply::UnsupportedFormat));
    assert!(matches!(ask("1", Some("opus"), false), StreamReply::NoEncoder));
    match ask("1", Some("Opus"), true) {
        StreamReply::Transcode(job) => {
            assert_eq!(job.source, "/two/A B/T.mp3");
            assert_eq!(job.format, TranscodeFormat::Opus);
            assert_eq!(job.bitrate_kbps, 320);
            assert_eq!(job.range_start, Some(500));
        }
        other => panic!("unexpected {other:?}"),
    }
}

#[test]
fn content_ranges_leave_the_length_open() {
    assert_eq!(content_range(500), "bytes 500-*/*");
}

#[test]
fn a_rescan_waits_for_ten_seconds() {
    assert_eq!(rescan_wait(None), None);
    assert_eq!(rescan_wait(Some(0)), Some(10));
    assert_eq!(rescan_wait(Some(1)), Some(9));
    assert_eq!(rescan_wait(Some(1_000_000_000)), Some(9));
    assert_eq!(rescan_wait(Some(1_000_000_001)), Some(8));
    assert_eq!(rescan_wait(Some(9_500_000_000)), Some(1));
    assert_eq!(rescan_wait(Some(10_000_000_000)), None);
}
