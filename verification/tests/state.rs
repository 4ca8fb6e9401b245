use sonum::state::{compute_music_dir_labels, etag, track_abs_path, Track, TrackIndex, TrackMap};

fn track(id: &str, title: &str) -> Track {
    Track {
        id: id.to_string(),
        title: title.to_string(),
        artist: "Artist".to_string(),
        album_artist: None,
        album: "Album".to_string(),
        duration_seconds: 0,
        bitrate_kbps: None,
        format: "mp3".to_string(),
        stream_url: format!("/tracks/{id}/stream"),
        has_embedded_lyrics: false,
        has_embedded_art: false,
        genre: None,
        year: None,
        track_number: None,
        disc_number: None,
        added_at: 0,
        root: 0,
        relative_path: "a/b.mp3".to_string(),
    }
}

#[test]
fn labels_use_plain_basename_when_unique() {
    let dirs = vec!["/home/x/Music".to_string(), "/mnt/nas/Podcasts".to_string()];
    assert_eq!(
        compute_music_dir_labels(&dirs),
        vec!["Music".to_string(), "Podcasts".to_string()]
    );
}

#[test]
fn labels_disambiguate_collisions() {
    let dirs = vec!["/mnt/a/Music".to_string(), "/mnt/b/Music".to_string()];
    assert_eq!(
        compute_music_dir_labels(&dirs),
        vec!["Music (1)".to_string(), "Music (2)".to_string()]
    );
}

#[test]
fn a_folder_without_a_name_is_labelled_by_its_path() {
    assert_eq!(
        compute_music_dir_labels(&["/".to_string(), "/m/music".to_string(), "x/..".to_string()]),
        vec!["/".to_string(), "music".to_string(), "x/..".to_string()]
    );
}

#[test]
fn inserting_a_track_under_a_known_id_replaces_it() {
    let mut map = TrackMap::new();
    map.insert(track("a", "one"));
    map.insert(track("b", "two"));
    map.insert(track("a", "three"));
    assert_eq!(map.len(), 2);
    assert_eq!(map.get("a").map(|t| t.title.as_str()), Some("three"));
    assert_eq!(map.get("b").map(|t| t.title.as_str()), Some("two"));
    assert!(map.get("c").is_none());
}

#[test]
fn the_etag_names_the_last_scan_and_the_revision() {
    assert_eq!(etag(1700000000, 3), "\"6553f100-3\"");
    assert_eq!(etag(0, 0), "\"0-0\"");
    assert_eq!(etag(16, 255), "\"10-ff\"");
}

#[test]
fn a_track_lies_under_its_own_folder() {
    let dirs = vec!["/one".to_string(), "/two".to_string()];
    let mut t = track("a", "t");
    assert_eq!(track_abs_path(&dirs, &t), "/one/a/b.mp3");
    t.root = 1;
    assert_eq!(track_abs_path(&dirs, &t), "/two/a/b.mp3");
}

#[test]
fn the_etags_of_two_states_differ() {
    assert_ne!(etag(0x1f, 0), etag(0x1f0, 0));
    assert_ne!(etag(15, 0), etag(16, 0));
    assert_ne!(etag(5, 0), etag(5, 1));
    assert_ne!(etag(1, 0x11), etag(0x11, 1));
}

#[test]
fn every_change_of_the_index_is_another_revision() {
    let mut index = TrackIndex::new(TrackMap::new());
    assert_eq!((index.revision(), index.tracks().len()), (0, 0));
    let before = etag(7, index.revision());
    index.insert(track("a", "one"));
    assert_eq!((index.revision(), index.tracks().len()), (1, 1));
    assert_ne!(etag(7, index.revision()), before);
    index.insert(track("a", "two"));
    assert_eq!((index.revision(), index.tracks().len()), (2, 1));
    assert_eq!(index.tracks().get("a").unwrap().title, "two");
    index.replace(TrackMap::new());
    assert_eq!((index.revision(), index.tracks().len()), (3, 0));
}
