use sonum::fingerprint::{fingerprint_sample, sample_span, FileFingerprint};
use sonum::library_db::LibraryDb;
use sonum::metadata::{
    candidate, candidate_with, file_added_at, is_audio_extension, lowered_extension_of, make_track,
    RawTags, ScannedFile, Stamp,
};
use sonum::scan::{
    apply_path_change, find_root_for_path, index_file_with, order_changes, preserve_added_at, read_track_metadata,
    read_track_metadata_with, remove_prefixed, resolve_guid_collision, scan_all_libraries,
    scan_library_into, seen_guids, PathChange,
};
use sonum::state::{Track, TrackMap};

/// Files by their paths, in the order in which a walk would find them.
struct Disk {
    files: Vec<(String, Vec<u8>)>,
}

impl Disk {
    fn new() -> Self {
        Disk { files: Vec::new() }
    }

    fn write(&mut self, path: &str, data: &[u8]) {
        self.remove(path);
        self.files.push((path.to_string(), data.to_vec()));
    }

    fn write_wav(&mut self, path: &str, num_samples: u32) {
        let data = vec![0u8; num_samples as usize * 2];
        self.write(path, &data);
    }

    fn remove(&mut self, path: &str) {
        self.files.retain(|(p, _)| p != path);
    }

    fn rename(&mut self, from: &str, to: &str) {
        for (p, _) in self.files.iter_mut() {
            if p == from {
                *p = to.to_string();
            } else if p.starts_with(&format!("{from}/")) {
                *p = format!("{to}{}", &p[from.len()..]);
            }
        }
    }

    fn has(&self, path: &str) -> bool {
        self.files.iter().any(|(p, _)| p == path)
    }

    fn read(&self, dir: &str, path: &str) -> Option<ScannedFile> {
        let (_, data) = self.files.iter().find(|(p, _)| p == path)?;
        let c = candidate(dir, path)?;
        Some(ScannedFile {
            path: path.to_string(),
            relative_path: c.relative_path,
            ext: c.ext,
            tags: no_tags(),
            duration_seconds: 1,
            bitrate_kbps: None,
            fingerprint: fingerprint(data),
            added_at: 1,
        })
    }

    fn walk(&self, dir: &str, below: &str) -> Vec<ScannedFile> {
        self.files
            .iter()
            .filter(|(p, _)| p.starts_with(&format!("{below}/")))
            .filter_map(|(p, _)| self.read(dir, p))
            .collect()
    }

    fn change_at(&self, dir: &str, path: &str) -> PathChange {
        if self.has(path) {
            PathChange::File(self.read(dir, path))
        } else if self.files.iter().any(|(p, _)| p.starts_with(&format!("{path}/"))) {
            PathChange::Directory(self.walk(dir, path))
        } else {
            PathChange::Missing
        }
    }
}

fn fingerprint(data: &[u8]) -> FileFingerprint {
    let (start, len) = sample_span(data.len() as u64);
    fingerprint_sample(
        data.len() as u64,
        &data[start as usize..(start + len) as usize],
    )
}

fn no_tags() -> RawTags {
    RawTags {
        title: None,
        artist: None,
        album: None,
        album_artist: None,
        lyrics: None,
        has_pictures: false,
        genre: None,
        year: None,
        track: None,
        disk: None,
    }
}

fn scan_library(disk: &Disk, root: usize, dir: &str, db: &mut LibraryDb) -> TrackMap {
    let mut tracks = TrackMap::new();
    let mut dirs = vec![String::new(); root + 1];
    dirs[root] = dir.to_string();
    let files = disk.walk(dir, dir);
    scan_library_into(root, &files, &mut tracks, db, &dirs, None, &|p: &str| disk.has(p));
    tracks
}

fn scan_all(disk: &Disk, dirs: &[&str], db: &mut LibraryDb) -> TrackMap {
    let files: Vec<Vec<ScannedFile>> = dirs.iter().map(|d| disk.walk(d, d)).collect();
    scan_all_libraries(&files, db)
}

fn change(disk: &Disk, dir: &str, path: &str, tracks: &mut TrackMap, db: &mut LibraryDb) {
    let dirs = vec![dir.to_string()];
    apply_path_change(
        0,
        path,
        &disk.change_at(dir, path),
        tracks,
        db,
        &dirs,
        &|p: &str| disk.has(p),
    );
}

fn test_track(id: &str, added_at: u64) -> Track {
    Track {
        id: id.to_string(),
        title: "t".to_string(),
        artist: "a".to_string(),
        album_artist: None,
        album: "al".to_string(),
        duration_seconds: 1,
        bitrate_kbps: None,
        format: "mp3".to_string(),
        stream_url: String::new(),
        has_embedded_lyrics: false,
        has_embedded_art: false,
        genre: None,
        year: None,
        track_number: None,
        disc_number: None,
        added_at,
        root: 0,
        relative_path: "song.mp3".to_string(),
    }
}

fn titles(tracks: &TrackMap) -> Vec<String> {
    let mut v: Vec<String> = tracks.all().iter().map(|t| t.title.clone()).collect();
    v.sort();
    v
}

#[test]
fn recognizes_supported_audio_extensions_case_insensitively() {
    assert!(is_audio_extension("mp3"));
    assert!(is_audio_extension("flac"));
    assert!(is_audio_extension("wav"));
    assert!(!is_audio_extension("MP3")); // callers lowercase before checking
    assert!(!is_audio_extension("txt"));
    assert!(!is_audio_extension(""));
}

#[test]
fn scan_library_indexes_audio_and_skips_everything_else() {
    let mut disk = Disk::new();
    disk.write_wav("/m/song.wav", 1000);
    disk.write("/m/readme.txt", b"not audio");
    disk.write_wav("/m/Artist/another.wav", 500);

    let tracks = scan_library(&disk, 0, "/m", &mut LibraryDb::new());

    assert_eq!(tracks.len(), 2);
    let titles = titles(&tracks);
    assert!(titles.contains(&"song".to_string()));
    assert!(titles.contains(&"another".to_string()));
}

#[test]
fn untagged_file_falls_back_to_filename_and_folder_name() {
    let mut disk = Disk::new();
    disk.write_wav("/m/My Album/Track One.wav", 200);

    let tracks = scan_library(&disk, 0, "/m", &mut LibraryDb::new());
    assert_eq!(tracks.len(), 1);
    let track = &tracks.all()[0];
    assert_eq!(track.title, "Track One");
    assert_eq!(track.artist, "Unknown Artist");
    assert_eq!(track.album, "My Album");
}

#[test]
fn two_roots_with_identical_relative_paths_dont_collide() {
    let mut disk = Disk::new();
    disk.write_wav("/a/song.wav", 100);
    disk.write_wav("/b/song.wav", 100);

    let tracks = scan_all(&disk, &["/a", "/b"], &mut LibraryDb::new());
    assert_eq!(tracks.len(), 2);
    let mut roots: Vec<usize> = tracks.all().iter().map(|t| t.root).collect();
    roots.sort();
    assert_eq!(roots, vec![0, 1]);
}

#[test]
fn apply_path_change_adds_a_new_file() {
    let mut disk = Disk::new();
    let mut tracks = TrackMap::new();

    disk.write_wav("/m/new_song.wav", 100);
    change(&disk, "/m", "/m/new_song.wav", &mut tracks, &mut LibraryDb::new());

    assert_eq!(tracks.len(), 1);
    assert_eq!(tracks.all()[0].title, "new_song");
}

#[test]
fn apply_path_change_removes_a_deleted_file() {
    let mut disk = Disk::new();
    disk.write_wav("/m/song.wav", 100);

    let mut db = LibraryDb::new();
    let mut tracks = scan_library(&disk, 0, "/m", &mut db);
    assert_eq!(tracks.len(), 1);

    disk.remove("/m/song.wav");
    change(&disk, "/m", "/m/song.wav", &mut tracks, &mut db);

    assert_eq!(tracks.len(), 0);
    assert!(db.rows().is_empty());
}

#[test]
fn apply_path_change_on_deleted_directory_removes_nested_tracks() {
    let mut disk = Disk::new();
    disk.write_wav("/m/Album/one.wav", 100);
    disk.write_wav("/m/Album/two.wav", 100);
    // a track outside the directory that's about to be deleted
    disk.write_wav("/m/unrelated.wav", 100);

    let mut db = LibraryDb::new();
    let mut tracks = scan_library(&disk, 0, "/m", &mut db);
    assert_eq!(tracks.len(), 3);

    disk.remove("/m/Album/one.wav");
    disk.remove("/m/Album/two.wav");
    change(&disk, "/m", "/m/Album", &mut tracks, &mut db);

    assert_eq!(tracks.len(), 1);
    assert_eq!(tracks.all()[0].title, "unrelated");
}

#[test]
fn apply_path_change_resyncs_an_existing_directory() {
    let mut disk = Disk::new();
    disk.write_wav("/m/Album/one.wav", 100);

    let mut db = LibraryDb::new();
    let mut tracks = scan_library(&disk, 0, "/m", &mut db);
    assert_eq!(tracks.len(), 1);

    // a second file shows up in the same directory
    disk.write_wav("/m/Album/two.wav", 100);
    change(&disk, "/m", "/m/Album", &mut tracks, &mut db);

    assert_eq!(tracks.len(), 2);
}

#[test]
fn renaming_a_file_keeps_its_track_id() {
    let mut disk = Disk::new();
    disk.write_wav("/m/old_name.wav", 100);

    let mut db = LibraryDb::new();
    let mut tracks = scan_library(&disk, 0, "/m", &mut db);
    assert_eq!(tracks.len(), 1);
    let original_id = tracks.all()[0].id.clone();

    disk.rename("/m/old_name.wav", "/m/new_name.wav");

    change(&disk, "/m", "/m/new_name.wav", &mut tracks, &mut db);
    change(&disk, "/m", "/m/old_name.wav", &mut tracks, &mut db);

    assert_eq!(tracks.len(), 1);
    let renamed = &tracks.all()[0];
    assert_eq!(renamed.id, original_id);
    assert_eq!(renamed.relative_path, "new_name.wav");
}

#[test]
fn moving_the_whole_library_dir_preserves_all_track_ids() {
    let mut disk = Disk::new();
    disk.write_wav("/old/a.wav", 100);
    disk.write_wav("/old/b.wav", 200);

    let mut db = LibraryDb::new();
    let before = scan_library(&disk, 0, "/old", &mut db);
    let mut ids_before: Vec<String> = before.all().iter().map(|t| t.id.clone()).collect();
    ids_before.sort();

    disk.rename("/old", "/new/moved");

    let after = scan_library(&disk, 0, "/new/moved", &mut db);
    let mut ids_after: Vec<String> = after.all().iter().map(|t| t.id.clone()).collect();
    ids_after.sort();

    assert_eq!(ids_before, ids_after);
}

#[test]
fn preserve_added_at_keeps_earliest_known_timestamp() {
    let mut old = TrackMap::new();
    old.insert(test_track("abc", 1_000));
    let mut new_tracks = TrackMap::new();
    new_tracks.insert(test_track("abc", 5_000));

    preserve_added_at(&mut new_tracks, &old);
    assert_eq!(new_tracks.get("abc").unwrap().added_at, 1_000);
}

#[test]
fn preserve_added_at_leaves_new_and_older_tracks() {
    let mut old = TrackMap::new();
    old.insert(test_track("a", 9));
    let mut new_tracks = TrackMap::new();
    new_tracks.insert(test_track("a", 3));
    new_tracks.insert(test_track("b", 7));
    preserve_added_at(&mut new_tracks, &old);
    assert_eq!(new_tracks.get("a").unwrap().added_at, 3);
    assert_eq!(new_tracks.get("b").unwrap().added_at, 7);
}

#[test]
fn a_rescan_keeps_all_ids_and_forgets_what_is_gone() {
    let mut disk = Disk::new();
    disk.write_wav("/m/a.wav", 1);
    disk.write_wav("/m/b.wav", 2);
    disk.write_wav("/n/c.wav", 3);
    let mut db = LibraryDb::new();
    let first = scan_all(&disk, &["/m", "/n"], &mut db);
    let again = scan_all(&disk, &["/m", "/n"], &mut db);
    let ids = |t: &TrackMap| -> Vec<String> { t.all().iter().map(|x| x.id.clone()).collect() };
    assert_eq!(ids(&first), ids(&again));
    assert_eq!(db.rows().len(), 3);
    disk.remove("/m/b.wav");
    let third = scan_all(&disk, &["/m", "/n"], &mut db);
    assert_eq!(third.len(), 2);
    assert_eq!(db.rows().len(), 2);
}

fn id_at(tracks: &TrackMap, root: usize, relative_path: &str) -> String {
    tracks
        .all()
        .iter()
        .find(|t| t.root == root && t.relative_path == relative_path)
        .map(|t| t.id.clone())
        .expect("no track there")
}

#[test]
fn a_rescan_knows_files_that_moved_from_folder_to_folder() {
    let mut disk = Disk::new();
    disk.write_wav("/a/down.wav", 100);
    disk.write_wav("/b/up.wav", 200);
    let mut db = LibraryDb::new();
    let before = scan_all(&disk, &["/a", "/b"], &mut db);

    disk.rename("/a/down.wav", "/b/x/down.wav");
    disk.rename("/b/up.wav", "/a/y/up.wav");
    disk.write_wav("/a/new.wav", 300);
    let after = scan_all(&disk, &["/a", "/b"], &mut db);

    assert_eq!(after.len(), 3);
    assert_eq!(id_at(&after, 1, "x/down.wav"), id_at(&before, 0, "down.wav"));
    assert_eq!(id_at(&after, 0, "y/up.wav"), id_at(&before, 1, "up.wav"));
    assert_eq!(db.rows().len(), 3);
}

#[test]
fn a_copy_beside_its_original_gets_an_id_of_its_own() {
    let mut disk = Disk::new();
    disk.write_wav("/m/a.wav", 5);
    disk.write_wav("/m/b.wav", 5);
    let mut db = LibraryDb::new();
    let tracks = scan_library(&disk, 0, "/m", &mut db);
    assert_eq!(tracks.len(), 2);
    assert_ne!(tracks.all()[0].id, tracks.all()[1].id);
}

#[test]
fn a_rescan_keeps_the_ids_of_files_with_equal_contents() {
    let mut disk = Disk::new();
    disk.write_wav("/m/b.wav", 5);
    disk.write_wav("/m/a.wav", 5);
    disk.write_wav("/n/c.wav", 5);
    let mut db = LibraryDb::new();
    let before = scan_all(&disk, &["/m", "/n"], &mut db);
    assert_eq!(before.len(), 3);
    disk.files.reverse();
    let after = scan_all(&disk, &["/m", "/n"], &mut db);
    for (root, path) in [(0, "a.wav"), (0, "b.wav"), (1, "c.wav")] {
        assert_eq!(id_at(&after, root, path), id_at(&before, root, path));
    }
    assert_eq!(db.rows().len(), 3);
}

#[test]
fn a_new_copy_takes_no_id_from_a_file_that_stays() {
    let mut disk = Disk::new();
    disk.write_wav("/n/old.wav", 5);
    let mut db = LibraryDb::new();
    let before = scan_all(&disk, &["/m", "/n"], &mut db);
    disk.write_wav("/m/copy.wav", 5);
    let after = scan_all(&disk, &["/m", "/n"], &mut db);
    assert_eq!(after.len(), 2);
    assert_eq!(id_at(&after, 1, "old.wav"), id_at(&before, 1, "old.wav"));
    assert_ne!(id_at(&after, 0, "copy.wav"), id_at(&before, 1, "old.wav"));
}

#[test]
fn a_file_that_moves_onto_a_known_path_of_another_folder_keeps_its_id() {
    let mut disk = Disk::new();
    disk.write_wav("/a/song.wav", 100);
    disk.write_wav("/b/song.wav", 200);
    let mut db = LibraryDb::new();
    let before = scan_all(&disk, &["/a", "/b"], &mut db);
    disk.remove("/b/song.wav");
    disk.rename("/a/song.wav", "/b/song.wav");
    let after = scan_all(&disk, &["/a", "/b"], &mut db);
    assert_eq!(after.len(), 1);
    assert_eq!(id_at(&after, 1, "song.wav"), id_at(&before, 0, "song.wav"));
    assert_eq!(db.rows().len(), 1);
}

#[test]
fn a_moved_file_keeps_its_id_though_another_comes_in_its_place() {
    let mut disk = Disk::new();
    disk.write_wav("/m/a.wav", 100);
    let mut db = LibraryDb::new();
    let before = scan_all(&disk, &["/m"], &mut db);
    disk.rename("/m/a.wav", "/m/z.wav");
    disk.files.insert(0, ("/m/a.wav".to_string(), vec![0u8; 600]));
    let after = scan_all(&disk, &["/m"], &mut db);
    assert_eq!(after.len(), 2);
    assert_eq!(id_at(&after, 0, "z.wav"), id_at(&before, 0, "a.wav"));
    assert_ne!(id_at(&after, 0, "a.wav"), id_at(&before, 0, "a.wav"));
}

#[test]
fn a_scan_leaves_no_rows_but_those_of_its_files() {
    let mut disk = Disk::new();
    disk.write_wav("/m/a.wav", 100);
    disk.write_wav("/n/b.wav", 200);
    let mut db = LibraryDb::new();
    scan_all(&disk, &["/m", "/n"], &mut db);
    let tracks = scan_all(&disk, &["/m"], &mut db);
    assert_eq!(tracks.len(), 1);
    let rows: Vec<(usize, &str)> =
        db.rows().iter().map(|r| (r.root, r.relative_path.as_str())).collect();
    assert_eq!(rows, vec![(0, "a.wav")]);
    assert_eq!(seen_guids(&tracks, 0), vec![db.rows()[0].guid.clone()]);
    assert!(seen_guids(&tracks, 1).is_empty());
}

#[test]
fn a_file_takes_the_id_where_the_original_is_gone() {
    let mut disk = Disk::new();
    disk.write_wav("/m/a.wav", 5);
    let mut db = LibraryDb::new();
    let mut tracks = scan_library(&disk, 0, "/m", &mut db);
    let id = id_at(&tracks, 0, "a.wav");
    disk.rename("/m/a.wav", "/m/b.wav");
    let dirs = vec!["/m".to_string()];
    let files = disk.walk("/m", "/m");
    scan_library_into(0, &files, &mut tracks, &mut db, &dirs, Some(0), &|p: &str| disk.has(p));
    assert_eq!(tracks.len(), 1);
    assert_eq!(id_at(&tracks, 0, "b.wav"), id);
}

#[test]
fn a_change_in_content_keeps_the_id_of_the_path() {
    let mut disk = Disk::new();
    disk.write_wav("/m/a.wav", 5);
    let mut db = LibraryDb::new();
    let mut tracks = scan_library(&disk, 0, "/m", &mut db);
    let id = id_at(&tracks, 0, "a.wav");
    disk.write_wav("/m/a.wav", 6);
    change(&disk, "/m", "/m/a.wav", &mut tracks, &mut db);
    assert_eq!(tracks.len(), 1);
    assert_eq!(id_at(&tracks, 0, "a.wav"), id);
}

#[test]
fn a_copy_that_turns_up_takes_nothing_from_its_original() {
    let mut disk = Disk::new();
    disk.write_wav("/m/a.wav", 5);
    let mut db = LibraryDb::new();
    let mut tracks = scan_library(&disk, 0, "/m", &mut db);
    let id = id_at(&tracks, 0, "a.wav");
    disk.write_wav("/m/b.wav", 5);
    change(&disk, "/m", "/m/b.wav", &mut tracks, &mut db);
    assert_eq!(tracks.len(), 2);
    assert_eq!(id_at(&tracks, 0, "a.wav"), id);
    assert_ne!(id_at(&tracks, 0, "b.wav"), id);
    assert_eq!(db.rows().len(), 2);
}

#[test]
fn what_comes_from_outside_decides_the_id() {
    let mut disk = Disk::new();
    disk.write_wav("/m/a.wav", 5);
    disk.write_wav("/m/b.wav", 5);
    let a = disk.read("/m", "/m/a.wav").unwrap();
    let b = disk.read("/m", "/m/b.wav").unwrap();
    let dirs = vec!["/m".to_string()];
    let mut db = LibraryDb::new();
    let mut known = TrackMap::new();
    let t = read_track_metadata_with(0, &a, &mut db, &[], "one".to_string(), 7).unwrap();
    assert_eq!(t.id, "one");
    assert_eq!(t.stream_url, "/tracks/one/stream");
    known.insert(t);
    let found = vec![(0, &b)];
    let gone = resolve_guid_collision(&found, &known, &db, &dirs, None, &|_: &str| false);
    assert!(gone.is_empty());
    let elsewhere = resolve_guid_collision(&found, &known, &db, &dirs, Some(1), &|_: &str| true);
    assert!(elsewhere.is_empty());
    let unasked = resolve_guid_collision(&[], &known, &db, &dirs, None, &|_: &str| true);
    assert!(unasked.is_empty());
    let held =
        resolve_guid_collision(&found, &known, &db, &dirs, None, &|p: &str| p == "/m/a.wav");
    assert_eq!(held, vec!["one".to_string()]);
    let mut other = LibraryDb::from_rows(vec![]).unwrap();
    let alone = read_track_metadata_with(0, &b, &mut other, &held, "one".to_string(), 8);
    assert_eq!(alone.unwrap().id, "one");
    let copy = read_track_metadata_with(0, &b, &mut db, &held, "two".to_string(), 8).unwrap();
    assert_eq!(copy.id, "two");
    assert_eq!(copy.stream_url, "/tracks/two/stream");
    assert_eq!(db.rows().len(), 2);
    let taken = read_track_metadata_with(1, &b, &mut db, &[], "two".to_string(), 9).unwrap();
    assert_eq!(taken.id, "one");
    let both = vec!["one".to_string(), "two".to_string()];
    let third = read_track_metadata(0, &a, &mut db, &both).unwrap();
    assert_eq!(third.id.len(), 36);
}

#[test]
fn clearing_a_place_spares_names_that_only_begin_alike() {
    let mut tracks = TrackMap::new();
    for (id, path) in [("1", "Al/x.mp3"), ("2", "Album/x.mp3"), ("3", "Al"), ("4", "al/x.mp3")] {
        let mut t = test_track(id, 0);
        t.relative_path = path.to_string();
        tracks.insert(t);
    }
    let mut other = test_track("5", 0);
    other.root = 1;
    other.relative_path = "Al/x.mp3".to_string();
    tracks.insert(other);
    remove_prefixed(&mut tracks, 0, "Al");
    let ids: Vec<&str> = tracks.all().iter().map(|t| t.id.as_str()).collect();
    assert_eq!(ids, vec!["2", "4", "5"]);
}

#[test]
fn changes_outside_and_at_the_folder_itself_do_nothing() {
    let mut disk = Disk::new();
    disk.write_wav("/m/a.wav", 1);
    let mut db = LibraryDb::new();
    let mut tracks = scan_library(&disk, 0, "/m", &mut db);
    change(&disk, "/m", "/m", &mut tracks, &mut db);
    change(&disk, "/m", "/elsewhere", &mut tracks, &mut db);
    assert_eq!(tracks.len(), 1);
    assert_eq!(db.rows().len(), 1);
}

#[test]
fn what_is_there_is_dealt_with_before_what_is_gone() {
    let dirs = vec!["/m".to_string(), "/n".to_string()];
    let paths = vec![
        "/m/old".to_string(),
        "/x/other".to_string(),
        "/n/new".to_string(),
        "/m/also".to_string(),
    ];
    let order = order_changes(&dirs, &paths, &[false, true, true, true]);
    assert_eq!(order, vec![(1, 2), (0, 3), (0, 0)]);
}

#[test]
fn a_path_belongs_to_the_first_folder_that_holds_it() {
    let dirs = vec!["/m/sub".to_string(), "/m".to_string(), "/m/sub".to_string()];
    assert_eq!(find_root_for_path(&dirs, "/m/sub/a.mp3"), Some(0));
    assert_eq!(find_root_for_path(&dirs, "/m/subway/a.mp3"), Some(1));
    assert_eq!(find_root_for_path(&dirs, "/n/a.mp3"), None);
}

#[test]
fn candidates_lie_in_the_folder_and_are_audio_whatever_their_case() {
    let c = candidate("/m", "/m/A\\B/Song.MP3").unwrap();
    assert_eq!(c.relative_path, "A/B/Song.MP3");
    assert_eq!(c.ext, "mp3");
    assert!(candidate("/m", "/m/notes.txt").is_none());
    assert!(candidate("/m", "/n/song.mp3").is_none());
    assert!(candidate("/m", "/m/.mp3").is_none());
    assert_eq!(lowered_extension_of("/m/x.FLAC"), "flac");
    assert!(candidate_with("/m", "/m/x.bin", "ogg".to_string()).is_some());
}

#[test]
fn tags_win_over_fallbacks_unless_they_are_blank() {
    let mut disk = Disk::new();
    disk.write_wav("/m/Folder/name.wav", 1);
    let mut f = disk.read("/m", "/m/Folder/name.wav").unwrap();
    f.tags = RawTags {
        title: Some("Title".to_string()),
        artist: Some(" ".to_string()),
        album: Some("Album".to_string()),
        album_artist: Some("\t".to_string()),
        lyrics: Some("la".to_string()),
        has_pictures: true,
        genre: Some("Rock".to_string()),
        year: Some(1994),
        track: Some(3),
        disk: Some(1),
    };
    let t = make_track(0, &f, "id".to_string());
    assert_eq!((t.title.as_str(), t.artist.as_str(), t.album.as_str()), ("Title", "Unknown Artist", "Album"));
    assert_eq!((t.album_artist, t.genre.as_deref()), (None, Some("Rock")));
    assert!(t.has_embedded_lyrics && t.has_embedded_art);
    assert_eq!((t.year, t.track_number, t.disc_number), (Some(1994), Some(3), Some(1)));
    assert_eq!(t.format, "wav");
}

#[test]
fn birth_comes_before_modification_and_now_is_the_last_resort() {
    let s = |n: u64| Some(Stamp::Second(n));
    assert_eq!(file_added_at(s(5), s(9), 100), 5);
    assert_eq!(file_added_at(None, s(9), 100), 9);
    assert_eq!(file_added_at(None, None, 100), 100);
    assert_eq!(file_added_at(Some(Stamp::BeforeEpoch), s(9), 100), 100);
    assert_eq!(file_added_at(None, Some(Stamp::BeforeEpoch), 100), 100);
}

#[test]
fn a_file_is_indexed_under_the_given_id_unless_it_is_known() {
    let mut disk = Disk::new();
    disk.write_wav("/m/a.wav", 5);
    disk.write_wav("/m/b.wav", 5);
    let a = disk.read("/m", "/m/a.wav").unwrap();
    let b = disk.read("/m", "/m/b.wav").unwrap();
    let mut db = LibraryDb::new();
    let mut tracks = TrackMap::new();
    let mut held = Vec::new();
    let mut index = |f: &ScannedFile, id: &str, now: u64| {
        index_file_with(0, f, &mut tracks, &mut db, &mut held, id.to_string(), now);
    };
    index(&a, "one", 7);
    index(&b, "two", 8);
    index(&a, "three", 9);
    assert_eq!(held, vec!["one".to_string(), "two".to_string(), "one".to_string()]);
    assert_eq!((id_at(&tracks, 0, "a.wav"), id_at(&tracks, 0, "b.wav")), ("one".into(), "two".into()));
    let seen: Vec<(u64, u64)> = db.rows().iter().map(|r| (r.added_at, r.last_seen)).collect();
    assert_eq!(seen, vec![(7, 9), (8, 8)]);
}

#[test]
fn a_file_whose_id_is_taken_is_left_out() {
    let mut disk = Disk::new();
    disk.write_wav("/m/a.wav", 5);
    disk.write_wav("/m/b.wav", 6);
    let mut db = LibraryDb::new();
    let mut tracks = TrackMap::new();
    let mut held = Vec::new();
    for path in ["/m/a.wav", "/m/b.wav"] {
        let f = disk.read("/m", path).unwrap();
        index_file_with(0, &f, &mut tracks, &mut db, &mut held, "one".to_string(), 1);
    }
    assert_eq!((tracks.len(), db.rows().len(), held.len()), (1, 1, 1));
    assert_eq!(id_at(&tracks, 0, "a.wav"), "one");
}

#[test]
fn a_changed_file_leaves_all_other_tracks_as_they_are() {
    let mut disk = Disk::new();
    let mut tracks = TrackMap::new();
    let mut below = test_track("1", 0);
    below.relative_path = "x.wav/old.mp3".to_string();
    tracks.insert(below);
    let mut beside = test_track("2", 0);
    beside.relative_path = "y.wav".to_string();
    tracks.insert(beside);
    disk.write_wav("/m/x.wav", 5);
    change(&disk, "/m", "/m/x.wav", &mut tracks, &mut LibraryDb::new());
    assert_eq!(tracks.len(), 3);
    assert_eq!(id_at(&tracks, 0, "x.wav/old.mp3"), "1");
    assert_eq!(id_at(&tracks, 0, "y.wav"), "2");
}

#[test]
fn a_file_does_not_hold_its_id_against_itself() {
    let mut disk = Disk::new();
    disk.write_wav("/m/a.wav", 5);
    let mut db = LibraryDb::new();
    let mut tracks = scan_library(&disk, 0, "/m", &mut db);
    let id = id_at(&tracks, 0, "a.wav");
    let mut moved = tracks.get(&id).unwrap().clone();
    moved.relative_path = "b.wav".to_string();
    tracks.insert(moved);
    disk.rename("/m/a.wav", "/m/b.wav");
    change(&disk, "/m", "/m/b.wav", &mut tracks, &mut db);
    assert_eq!(tracks.len(), 1);
    assert_eq!(id_at(&tracks, 0, "b.wav"), id);
    assert_eq!(db.rows()[0].relative_path, "b.wav");
}
