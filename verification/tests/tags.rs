use sonum::state::{etag, Track, TrackIndex, TrackMap};
use sonum::tags::{
    apply_edits_in_place, finish_patch, plan_tag_write, start_patch, PatchStart, TagEdits, TagPlan,
    TagWrite,
};

fn track(id: &str) -> Track {
    Track {
        id: id.to_string(),
        title: "Title".to_string(),
        artist: "Artist".to_string(),
        album_artist: Some("Shared".to_string()),
        album: "Album".to_string(),
        duration_seconds: 1,
        bitrate_kbps: None,
        format: "mp3".to_string(),
        stream_url: String::new(),
        has_embedded_lyrics: false,
        has_embedded_art: false,
        genre: Some("Rock".to_string()),
        year: Some(1990),
        track_number: None,
        disc_number: Some(2),
        added_at: 5,
        root: 0,
        relative_path: "a/b.mp3".to_string(),
    }
}

fn text(s: &str) -> Option<String> {
    Some(s.to_string())
}

#[test]
fn blank_titles_and_albums_change_nothing_and_other_blanks_clear() {
    let mut t = track("1");
    let edits = TagEdits {
        title: text(" "),
        artist: text(""),
        album: text(""),
        album_artist: text(" "),
        genre: text(""),
        year: None,
        track_number: Some(7),
        disc_number: None,
    };
    apply_edits_in_place(&mut t, &edits);
    assert_eq!((t.title.as_str(), t.artist.as_str(), t.album.as_str()), ("Title", "Unknown Artist", "Album"));
    assert_eq!((t.album_artist, t.genre), (None, None));
    assert_eq!((t.year, t.track_number, t.disc_number), (Some(1990), Some(7), Some(2)));
    assert_eq!(
        plan_tag_write(&edits),
        TagPlan {
            title: TagWrite::Keep,
            artist: TagWrite::Remove,
            album: TagWrite::Keep,
            album_artist: TagWrite::Remove,
            genre: TagWrite::Remove,
            year: None,
            track: Some(7),
            disk: None,
        }
    );
}

#[test]
fn edits_are_made_in_the_track_and_planned_for_the_file() {
    let mut t = track("1");
    let edits = TagEdits {
        title: text("New"),
        artist: text("Somebody"),
        genre: text("Jazz"),
        year: Some(2024),
        ..TagEdits::default()
    };
    apply_edits_in_place(&mut t, &edits);
    assert_eq!((t.title.as_str(), t.artist.as_str(), t.album.as_str()), ("New", "Somebody", "Album"));
    assert_eq!((t.album_artist.as_deref(), t.genre.as_deref()), (Some("Shared"), Some("Jazz")));
    assert_eq!(t.year, Some(2024));
    let plan = plan_tag_write(&edits);
    assert_eq!(plan.title, TagWrite::Write("New".to_string()));
    assert_eq!(plan.album, TagWrite::Keep);
    assert_eq!(plan.album_artist, TagWrite::Keep);
    assert_eq!(plan.year, Some(2024));
}

#[test]
fn requests_without_fields_or_for_unknown_tracks_are_refused() {
    let mut tracks = TrackMap::new();
    tracks.insert(track("1"));
    let dirs = vec!["/m".to_string()];
    let empty = TagEdits::default();
    assert!(empty.is_empty());
    assert!(matches!(start_patch(&tracks, "9", &empty, &dirs), PatchStart::NoFields));
    let edits = TagEdits {
        disc_number: Some(1),
        ..TagEdits::default()
    };
    assert!(!edits.is_empty());
    assert!(matches!(start_patch(&tracks, "9", &edits, &dirs), PatchStart::NotFound));
    match start_patch(&tracks, "1", &edits, &dirs) {
        PatchStart::Write { path, plan } => {
            assert_eq!(path, "/m/a/b.mp3");
            assert_eq!(plan.disk, Some(1));
        }
        other => panic!("unexpected {other:?}"),
    }
}

#[test]
fn a_written_change_is_made_in_the_index() {
    let mut tracks = TrackMap::new();
    tracks.insert(track("0"));
    tracks.insert(track("1"));
    let edits = TagEdits {
        album: text("Other"),
        ..TagEdits::default()
    };
    let mut index = TrackIndex::new(tracks);
    let tag = etag(9, index.revision());
    let changed = finish_patch(&mut index, "1", &edits).unwrap();
    assert_eq!(changed.album, "Other");
    assert_eq!(index.tracks().get("1").unwrap().album, "Other");
    assert_eq!(index.tracks().get("0").unwrap().album, "Album");
    assert_eq!(index.tracks().len(), 2);
    assert_ne!(etag(9, index.revision()), tag);
    assert!(finish_patch(&mut index, "7", &edits).is_none());
    assert_eq!(index.revision(), 1);
}
