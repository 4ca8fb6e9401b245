use sonum::groups::{group_albums, group_artists, grouping_artist, list_albums, list_artists};
use sonum::state::{Track, TrackMap};

fn track(id: &str, title: &str, artist: &str, album: &str, year: Option<u32>) -> Track {
    track_with_album_artist(id, title, artist, None, album, year)
}

fn track_with_album_artist(
    id: &str,
    title: &str,
    artist: &str,
    album_artist: Option<&str>,
    album: &str,
    year: Option<u32>,
) -> Track {
    Track {
        id: id.to_string(),
        title: title.to_string(),
        artist: artist.to_string(),
        album_artist: album_artist.map(|s| s.to_string()),
        album: album.to_string(),
        duration_seconds: 180,
        bitrate_kbps: Some(320),
        format: "mp3".to_string(),
        stream_url: format!("/tracks/{id}/stream"),
        has_embedded_lyrics: false,
        has_embedded_art: false,
        genre: None,
        year,
        track_number: None,
        disc_number: None,
        added_at: 0,
        root: 0,
        relative_path: format!("{artist}/{album}/{title}.mp3"),
    }
}

fn index(tracks: Vec<Track>) -> TrackMap {
    let mut map = TrackMap::new();
    for t in tracks {
        map.insert(t);
    }
    map
}

fn sample_tracks() -> TrackMap {
    index(vec![
        track("1", "Song A", "Artist X", "Album One", Some(2020)),
        track("2", "Song B", "Artist X", "Album One", Some(2020)),
        track("3", "Song C", "Artist X", "Album Two", Some(2022)),
        track("4", "Song D", "Artist Y", "Album Three", None),
    ])
}

#[test]
fn groups_tracks_into_albums() {
    let tracks = sample_tracks();
    let albums = group_albums(&tracks);

    assert_eq!(albums.len(), 3);

    let album_one = albums
        .iter()
        .find(|a| a.name == "Album One" && a.artist == "Artist X")
        .expect("Album One should be present");
    assert_eq!(album_one.track_count, 2);
    assert_eq!(album_one.track_ids, vec!["1".to_string(), "2".to_string()]);
    assert_eq!(album_one.year, Some(2020));
    assert!(!album_one.is_compilation);
}

#[test]
fn same_album_name_different_artist_stays_separate() {
    let tracks = index(vec![
        track("1", "Song A", "Artist X", "Greatest Hits", Some(2000)),
        track("2", "Song B", "Artist Y", "Greatest Hits", Some(2010)),
    ]);

    let albums = group_albums(&tracks);
    assert_eq!(albums.len(), 2);
}

#[test]
fn shared_album_artist_groups_mismatched_track_artists_and_flags_compilation() {
    let tracks = index(vec![
        track_with_album_artist(
            "1",
            "Track A",
            "Featured Artist One",
            Some("Various Artists"),
            "Big Compilation",
            Some(2019),
        ),
        track_with_album_artist(
            "2",
            "Track B",
            "Featured Artist Two",
            Some("Various Artists"),
            "Big Compilation",
            Some(2019),
        ),
    ]);

    let albums = group_albums(&tracks);
    assert_eq!(albums.len(), 1);
    assert_eq!(albums[0].artist, "Various Artists");
    assert_eq!(albums[0].track_count, 2);
    assert!(albums[0].is_compilation);
}

#[test]
fn single_artist_album_with_album_artist_tag_is_not_a_compilation() {
    let mut tracks = TrackMap::new();
    for (id, title) in [("1", "A"), ("2", "B")] {
        tracks.insert(track_with_album_artist(
            id,
            title,
            "Artist X",
            Some("Artist X"),
            "Album",
            Some(2020),
        ));
    }
    let albums = group_albums(&tracks);
    assert_eq!(albums.len(), 1);
    assert!(!albums[0].is_compilation);
}

#[test]
fn albums_are_sorted_by_artist_then_name() {
    let tracks = sample_tracks();
    let albums = group_albums(&tracks);
    let names: Vec<(&str, &str)> = albums
        .iter()
        .map(|a| (a.artist.as_str(), a.name.as_str()))
        .collect();
    assert_eq!(
        names,
        vec![
            ("Artist X", "Album One"),
            ("Artist X", "Album Two"),
            ("Artist Y", "Album Three"),
        ]
    );
}

#[test]
fn groups_tracks_into_artists_with_album_counts() {
    let tracks = sample_tracks();
    let artists = group_artists(&tracks);

    assert_eq!(artists.len(), 2);

    let artist_x = artists
        .iter()
        .find(|a| a.name == "Artist X")
        .expect("Artist X should be present");
    assert_eq!(artist_x.track_count, 3);
    assert_eq!(artist_x.album_count, 2);

    let artist_y = artists
        .iter()
        .find(|a| a.name == "Artist Y")
        .expect("Artist Y should be present");
    assert_eq!(artist_y.track_count, 1);
    assert_eq!(artist_y.album_count, 1);
}

#[test]
fn an_album_takes_its_year_and_art_from_its_first_tracks_and_sorts_its_ids() {
    let tracks = index(vec![
        track("b", "One", "X", "A", None),
        track("c", "Two", "X", "A", Some(1999)),
        track("a", "Three", "X", "A", Some(2001)),
    ]);
    let albums = group_albums(&tracks);
    assert_eq!(albums.len(), 1);
    assert_eq!(albums[0].year, Some(1999));
    assert_eq!(albums[0].art_url, "/art/b");
    assert_eq!(
        albums[0].track_ids,
        vec!["a".to_string(), "b".to_string(), "c".to_string()]
    );
}

#[test]
fn a_blank_album_artist_does_not_count() {
    let t = track_with_album_artist("1", "T", "Own", Some("  "), "A", None);
    assert_eq!(grouping_artist(&t), "Own");
    let u = track_with_album_artist("1", "T", "Own", Some("Shared"), "A", None);
    assert_eq!(grouping_artist(&u), "Shared");
}

#[test]
fn every_track_is_counted_in_one_album() {
    let tracks = sample_tracks();
    let albums = group_albums(&tracks);
    let total: usize = albums.iter().map(|a| a.track_count).sum();
    assert_eq!(total, tracks.len());
    for t in tracks.all() {
        let holders = albums.iter().filter(|a| a.track_ids.contains(&t.id)).count();
        assert_eq!(holders, 1);
    }
    let artists = group_artists(&tracks);
    for t in tracks.all() {
        let names: Vec<&str> = artists
            .iter()
            .filter(|a| a.track_ids.contains(&t.id))
            .map(|a| a.name.as_str())
            .collect();
        assert_eq!(names, vec![t.artist.as_str()]);
    }
}

#[test]
fn albums_are_searched_by_name_and_artist_and_paged() {
    let tracks = sample_tracks();
    let (total, page) = list_albums(&tracks, Some("ARTIST x"), None, None);
    assert_eq!((total, page.len()), (2, 2));
    let (total, page) = list_albums(&tracks, Some("three"), None, None);
    assert_eq!((total, page[0].name.as_str()), (1, "Album Three"));
    let (total, page) = list_albums(&tracks, Some("  "), Some(1), Some(1));
    assert_eq!((total, page.len(), page[0].name.as_str()), (3, 1, "Album Two"));
    let (total, page) = list_albums(&tracks, None, Some(9), None);
    assert_eq!((total, page.len()), (3, 0));
}

#[test]
fn artists_are_searched_by_name_only() {
    let tracks = sample_tracks();
    let (total, page) = list_artists(&tracks, Some("artist y"), None, None);
    assert_eq!((total, page[0].name.as_str()), (1, "Artist Y"));
    let (total, page) = list_artists(&tracks, Some("album"), None, Some(5));
    assert_eq!((total, page.len()), (0, 0));
}

#[test]
fn artists_are_sorted_by_name() {
    let names: Vec<String> = group_artists(&index(vec![
        track("1", "A", "Zed", "X", None),
        track("2", "B", "Abba", "Y", None),
        track("3", "C", "abba", "Y", None),
    ]))
    .into_iter()
    .map(|a| a.name)
    .collect();
    assert_eq!(names, vec!["Abba", "Zed", "abba"]);
}

#[test]
fn pages_hold_at_most_two_thousand_albums_or_artists() {
    let mut all = TrackMap::new();
    for i in 0..2003u32 {
        let name = format!("{i:04}");
        all.insert(track(&name, "Song", &name, &name, None));
    }
    let (total, page) = list_albums(&all, None, None, Some(999_999));
    assert_eq!((total, page.len()), (2003, 2000));
    let (total, page) = list_albums(&all, None, None, None);
    assert_eq!((total, page.len()), (2003, 2000));
    let (total, page) = list_artists(&all, None, Some(2000), None);
    assert_eq!((total, page.len()), (2003, 3));
    let (total, page) = list_artists(&all, None, None, Some(2001));
    assert_eq!((total, page.len()), (2003, 2000));
}
