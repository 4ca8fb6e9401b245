use sonum::duplicates::{find_duplicates, find_duplicates_with};
use sonum::state::{Track, TrackMap};

fn track(
    id: &str,
    title: &str,
    artist: &str,
    duration_seconds: u64,
    relative_path: &str,
) -> Track {
    Track {
        id: id.to_string(),
        title: title.to_string(),
        artist: artist.to_string(),
        album_artist: None,
        album: "Album".to_string(),
        duration_seconds,
        bitrate_kbps: Some(320),
        format: "mp3".to_string(),
        stream_url: format!("/tracks/{id}/stream"),
        has_embedded_lyrics: false,
        has_embedded_art: false,
        genre: None,
        year: None,
        track_number: None,
        disc_number: None,
        added_at: 0,
        root: 0,
        relative_path: relative_path.to_string(),
    }
}

#[test]
fn flags_same_title_artist_and_close_duration_as_duplicates() {
    let mut tracks = TrackMap::new();
    tracks.insert(track("1", "Song", "Artist", 200, "a/song.mp3"));
    tracks.insert(track("2", "song (Remaster)".trim(), "artist", 201, "b/song.flac"));
    // note: "song (Remaster)" normalizes differently than "Song" due to
    // the extra word, so use identical normalized text for this case
    tracks.insert(track("2", "Song", "Artist", 201, "b/song.flac"));

    let groups = find_duplicates(&tracks);
    assert_eq!(groups.len(), 1);
    assert_eq!(groups[0].tracks.len(), 2);
}

#[test]
fn different_duration_is_not_flagged() {
    let mut tracks = TrackMap::new();
    tracks.insert(track("1", "Song", "Artist", 100, "a.mp3"));
    tracks.insert(track("2", "Song", "Artist", 400, "b.mp3"));

    assert!(find_duplicates(&tracks).is_empty());
}

#[test]
fn unique_tracks_produce_no_groups() {
    let mut tracks = TrackMap::new();
    tracks.insert(track("1", "Song A", "Artist", 100, "a.mp3"));
    tracks.insert(track("2", "Song B", "Artist", 100, "b.mp3"));

    assert!(find_duplicates(&tracks).is_empty());
}

#[test]
fn case_and_punctuation_do_not_matter() {
    let mut tracks = TrackMap::new();
    tracks.insert(track("1", "Don't Stop!", "The Band", 100, "a.mp3"));
    tracks.insert(track("2", "dont stop", "the-band", 103, "b.mp3"));
    let groups = find_duplicates(&tracks);
    assert_eq!(groups.len(), 1);
    assert_eq!(groups[0].reason, "same title/artist, similar duration");
}

#[test]
fn groups_are_runs_of_close_lengths_sorted_by_first_title() {
    let mut tracks = TrackMap::new();
    tracks.insert(track("1", "zeta", "A", 109, "1"));
    tracks.insert(track("2", "ZETA", "A", 100, "2"));
    tracks.insert(track("3", "Zeta", "A", 103, "3"));
    tracks.insert(track("4", "Zeta", "A", 110, "4"));
    tracks.insert(track("5", "Alpha", "A", 7, "5"));
    tracks.insert(track("6", "alpha", "A", 5, "6"));
    tracks.insert(track("7", "!!!", "A", 5, "7"));
    tracks.insert(track("8", "???", "A", 5, "8"));
    let ids: Vec<Vec<String>> = find_duplicates(&tracks)
        .iter()
        .map(|g| g.tracks.iter().map(|t| t.id.clone()).collect())
        .collect();
    assert_eq!(
        ids,
        vec![
            vec!["2".to_string(), "3".to_string()],
            vec!["6".to_string(), "5".to_string()],
            vec!["1".to_string(), "4".to_string()],
        ]
    );
}

#[test]
fn the_given_keys_decide_what_matches() {
    let tracks = vec![
        track("1", "a", "x", 1, "1"),
        track("2", "b", "y", 2, "2"),
        track("3", "c", "z", 3, "3"),
    ];
    let keys = vec![
        (vec!['k'], vec![]),
        (vec!['k'], vec![]),
        (vec![], vec![]),
    ];
    let groups = find_duplicates_with(&tracks, &keys);
    assert_eq!(groups.len(), 1);
    assert_eq!(groups[0].tracks.len(), 2);
    assert_eq!(groups[0].tracks[0].id, "1");
}

#[test]
fn a_track_is_in_one_group_at_most() {
    let mut tracks = TrackMap::new();
    for (id, title, secs) in [
        ("1", "One", 10),
        ("2", "one", 12),
        ("3", "ONE", 15),
        ("4", "One!", 30),
        ("5", "(one)", 31),
        ("6", "Two", 10),
        ("7", "two", 10),
        ("8", "two", 90),
    ] {
        tracks.insert(track(id, title, "A", secs, id));
    }
    let groups = find_duplicates(&tracks);
    assert!(groups.iter().all(|g| g.tracks.len() > 1));
    let mut ids: Vec<&str> =
        groups.iter().flat_map(|g| g.tracks.iter().map(|t| t.id.as_str())).collect();
    ids.sort();
    assert_eq!(ids, vec!["1", "2", "3", "4", "5", "6", "7"]);
    let titles: Vec<&str> = groups.iter().map(|g| g.tracks[0].title.as_str()).collect();
    assert_eq!(titles, vec!["One", "One!", "Two"]);
}
