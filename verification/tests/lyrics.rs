use sonum::lyrics::{
    count_in_folder, find_case_insensitive_sibling, find_shared_lrc_candidate,
    is_lrc_metadata_header, is_shared_lrc, parse_lrc_lines, parse_lrc_timestamp,
    parse_lyrics_content, resolve_lyrics, resolve_lyrics_texts, LyricLine, LyricsResponse,
};
use sonum::state::{Track, TrackMap};

fn time(tag: &str) -> Option<u64> {
    let chars: Vec<char> = tag.chars().collect();
    parse_lrc_timestamp(&chars)
}

fn header(line: &str) -> bool {
    let chars: Vec<char> = line.chars().collect();
    is_lrc_metadata_header(&chars)
}

fn line(time_ms: u64, text: &str) -> LyricLine {
    LyricLine {
        time_ms,
        text: text.to_string(),
    }
}

fn names(v: &[&str]) -> Vec<String> {
    v.iter().map(|s| s.to_string()).collect()
}

fn track(id: &str, root: usize, path: &str) -> Track {
    Track {
        id: id.to_string(),
        title: "t".to_string(),
        artist: "a".to_string(),
        album_artist: None,
        album: "al".to_string(),
        duration_seconds: 1,
        bitrate_kbps: None,
        format: "mp3".to_string(),
        stream_url: String::new(),
        has_embedded_lyrics: false,
        has_embedded_art: false,
        genre: None,
        year: None,
        track_number: None,
        disc_number: None,
        added_at: 0,
        root,
        relative_path: path.to_string(),
    }
}

#[test]
fn times_are_read_with_tenths_hundredths_and_thousandths() {
    assert_eq!(time("00:12.5"), Some(12_500));
    assert_eq!(time("01:02.03"), Some(62_030));
    assert_eq!(time("01:02.003"), Some(62_003));
    assert_eq!(time("01:02:03"), Some(62_030));
    assert_eq!(time(" 1 : 2 "), Some(62_000));
    assert_eq!(time("01:02."), Some(62_000));
    assert_eq!(time("01:02.12345"), Some(62_345));
}

#[test]
fn other_tags_are_no_times() {
    assert_eq!(time("ar:Somebody"), None);
    assert_eq!(time("0102"), None);
    assert_eq!(time("01:60.00"), None);
    assert_eq!(time("01:02.x"), None);
    assert_eq!(time("-1:02"), None);
}

#[test]
fn huge_times_wrap_around() {
    // 307445734561826 minutes are 8384 milliseconds more than the counter holds.
    assert_eq!(time("307445734561826:00"), Some(8_384));
}

#[test]
fn timed_lines_are_sorted_and_repeated_for_each_time() {
    let content = "[ar:Band]\n[00:20.00][00:05.00] chorus \n[00:10.00]verse\nno time\n[00:10.00]second";
    assert_eq!(
        parse_lrc_lines(content),
        vec![
            line(5_000, "chorus"),
            line(10_000, "verse"),
            line(10_000, "second"),
            line(20_000, "chorus"),
        ]
    );
}

#[test]
fn headers_are_two_letters_and_a_colon_in_brackets() {
    assert!(header("[ar:Somebody]"));
    assert!(header("[ti:]"));
    assert!(!header("[art:x]"));
    assert!(!header("[a1:x]"));
    assert!(!header("[ar:x"));
    assert!(!header("[\u{e9}a:x]"));
    assert!(!header("ar:"));
}

#[test]
fn plain_lyrics_lose_headers_and_blank_lines() {
    let parsed = parse_lyrics_content("[ti:Song]\n\n  first \r\nsecond\n");
    assert!(!parsed.synced);
    assert!(parsed.lines.is_empty());
    assert_eq!(parsed.text, "first\nsecond");
}

#[test]
fn timed_answers_have_lines_and_plain_ones_have_text() {
    let r = resolve_lyrics_texts("id", Some("[00:01.00]one"), None, None, 2);
    assert_eq!(
        r,
        LyricsResponse {
            track_id: "id".to_string(),
            source: "embedded",
            synced: true,
            lines: Some(vec![line(1_000, "one")]),
            text: None,
        }
    );
    let r = resolve_lyrics_texts("id", None, Some("words"), None, 2);
    assert_eq!((r.source, r.synced), ("track_lrc", false));
    assert_eq!(r.lines, Some(vec![]));
    assert_eq!(r.text.as_deref(), Some("words"));
    let r = resolve_lyrics_texts("id", None, None, None, 1);
    assert_eq!(r, LyricsResponse::none("id"));
    assert_eq!((r.source, r.lines, r.text), ("none", None, None));
}

#[test]
fn sources_are_tried_in_order_and_empty_ones_passed_over() {
    let ask = |e: Option<&str>, t: Option<&str>, s: Option<&str>, n: usize| {
        resolve_lyrics_texts("id", e, t, s, n).source
    };
    assert_eq!(ask(Some("a"), Some("b"), Some("c"), 1), "embedded");
    assert_eq!(ask(Some("  "), Some("b"), Some("c"), 1), "track_lrc");
    assert_eq!(ask(None, Some("[ar:x]"), Some("c"), 1), "shared_lrc");
    assert_eq!(ask(None, None, Some("c"), 2), "none");
    assert_eq!(ask(Some("[00:01.00]"), None, None, 1), "none");
}

#[test]
fn files_are_read_as_text_even_where_they_are_not_utf8() {
    let r = resolve_lyrics("id", None, Some("caf\u{e9}".as_bytes()), None, 1);
    assert_eq!(r.text.as_deref(), Some("caf\u{e9}"));
    let r = resolve_lyrics("id", None, None, Some(b"caf\xe9"), 1);
    assert_eq!(r.source, "shared_lrc");
    assert_eq!(r.text.as_deref(), Some("caf\u{fffd}"));
}

#[test]
fn siblings_are_found_whatever_their_case() {
    let files = names(&["Song.mp3", "other.lrc", "SONG.LRC", "song.lrc"]);
    assert_eq!(find_case_insensitive_sibling(&files, "Song", "lrc"), Some(2));
    assert_eq!(find_case_insensitive_sibling(&files, "none", "lrc"), None);
}

#[test]
fn shared_lyrics_are_called_lyrics_or_as_the_folder() {
    let files = names(&["a.lrc", "Lyrics.txt", "My ALBUM.lrc", "lyrics.lrc"]);
    assert_eq!(find_shared_lrc_candidate(&files, Some("my album")), Some(2));
    assert_eq!(find_shared_lrc_candidate(&files, Some("x")), Some(3));
    assert_eq!(find_shared_lrc_candidate(&files[..2], None), None);
    assert!(is_shared_lrc("lyrics", "lrc", None));
    assert!(is_shared_lrc("x", "lrc", Some("x")));
    assert!(!is_shared_lrc("lyrics", "txt", Some("lyrics")));
    assert!(!is_shared_lrc("x", "lrc", Some("y")));
}

#[test]
fn only_tracks_of_the_same_folder_are_counted() {
    let mut tracks = TrackMap::new();
    tracks.insert(track("1", 0, "A/one.mp3"));
    tracks.insert(track("2", 0, "A/two.mp3"));
    tracks.insert(track("3", 0, "A/B/three.mp3"));
    tracks.insert(track("4", 1, "A/four.mp3"));
    tracks.insert(track("5", 0, "top.mp3"));
    assert_eq!(count_in_folder(&tracks, tracks.get("1").unwrap()), 2);
    assert_eq!(count_in_folder(&tracks, tracks.get("4").unwrap()), 1);
    assert_eq!(count_in_folder(&tracks, tracks.get("5").unwrap()), 1);
}
