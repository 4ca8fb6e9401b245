use sonum::clock::{now_unix, second_of_reading};
use sonum::fingerprint::{fingerprint_sample, hex_text, sample_span, FileFingerprint};
use sonum::library_db::{DbError, DbRow, LibraryDb};

fn fp(hash: &str, size_bytes: u64) -> FileFingerprint {
    FileFingerprint {
        hash: hash.to_string(),
        size_bytes,
    }
}

fn row(guid: &str, root: usize, path: &str) -> DbRow {
    DbRow {
        guid: guid.to_string(),
        root,
        relative_path: path.to_string(),
        fingerprint: format!("hash of {path}"),
        size_bytes: 1,
        added_at: 2,
        last_seen: 3,
    }
}

fn fingerprint_bytes(data: &[u8]) -> FileFingerprint {
    let (start, len) = sample_span(data.len() as u64);
    let sample = &data[start as usize..(start + len) as usize];
    fingerprint_sample(data.len() as u64, sample)
}

#[test]
fn new_file_gets_a_fresh_guid() {
    let mut db = LibraryDb::new();
    let guid = db.resolve_guid(0, "song.mp3", &fp("aaa", 100)).unwrap();
    assert_eq!(guid.len(), 36);
}

#[test]
fn rescanning_the_same_file_keeps_the_same_guid() {
    let mut db = LibraryDb::new();
    let first = db.resolve_guid(0, "song.mp3", &fp("aaa", 100)).unwrap();
    let second = db.resolve_guid(0, "song.mp3", &fp("aaa", 100)).unwrap();
    assert_eq!(first, second);
}

#[test]
fn renamed_file_with_same_content_keeps_its_guid() {
    let mut db = LibraryDb::new();
    let original = db.resolve_guid(0, "old_name.mp3", &fp("aaa", 100)).unwrap();

    let renamed = db.resolve_guid(0, "new_name.mp3", &fp("aaa", 100)).unwrap();
    assert_eq!(original, renamed);

    db.remove_path(0, "old_name.mp3");
    let renamed_again = db.resolve_guid(0, "new_name.mp3", &fp("aaa", 100)).unwrap();
    assert_eq!(original, renamed_again);
}

#[test]
fn moved_across_roots_keeps_its_guid() {
    let mut db = LibraryDb::new();
    let original = db
        .resolve_guid(0, "Music/song.mp3", &fp("bbb", 100))
        .unwrap();
    let moved = db.resolve_guid(1, "song.mp3", &fp("bbb", 100)).unwrap();
    assert_eq!(original, moved);
}

#[test]
fn different_content_at_a_reused_path_keeps_the_paths_guid() {
    let mut db = LibraryDb::new();
    let original = db.resolve_guid(0, "song.mp3", &fp("aaa", 100)).unwrap();
    let replaced = db.resolve_guid(0, "song.mp3", &fp("ccc", 250)).unwrap();
    assert_eq!(original, replaced);
}

#[test]
fn distinct_files_get_distinct_guids() {
    let mut db = LibraryDb::new();
    let a = db.resolve_guid(0, "a.mp3", &fp("aaa", 100)).unwrap();
    let b = db.resolve_guid(0, "b.mp3", &fp("bbb", 200)).unwrap();
    assert_ne!(a, b);
}

#[test]
fn prune_missing_for_root_deletes_untouched_rows_only() {
    let mut db = LibraryDb::new();
    let kept = db.resolve_guid(0, "keep.mp3", &fp("aaa", 100)).unwrap();
    let gone = db.resolve_guid(0, "gone.mp3", &fp("bbb", 200)).unwrap();

    let seen = vec![kept.clone()];
    let removed = db.prune_missing_for_root(0, &seen);
    assert_eq!(removed, 1);

    let fresh = db.resolve_guid(0, "other.mp3", &fp("ccc", 300)).unwrap();
    assert_ne!(fresh, gone);
}

#[test]
fn prune_missing_ignores_other_roots() {
    let mut db = LibraryDb::new();
    let other_root = db.resolve_guid(1, "song.mp3", &fp("aaa", 100)).unwrap();
    let removed = db.prune_missing_for_root(0, &[]);
    assert_eq!(removed, 0);
    let again = db.resolve_guid(1, "song.mp3", &fp("aaa", 100)).unwrap();
    assert_eq!(other_root, again);
}

#[test]
fn remove_prefix_deletes_directory_contents_but_not_siblings() {
    let mut db = LibraryDb::new();
    db.resolve_guid(0, "Album/one.mp3", &fp("a", 1)).unwrap();
    db.resolve_guid(0, "Album/two.mp3", &fp("b", 2)).unwrap();
    db.resolve_guid(0, "Unrelated.mp3", &fp("c", 3)).unwrap();

    db.remove_prefix(0, "Album");

    let leftover_count = db.prune_missing_for_root(0, &[]);
    assert_eq!(leftover_count, 1);
}

#[test]
fn remove_path_is_a_noop_if_the_guid_already_moved_away() {
    let mut db = LibraryDb::new();
    let guid = db.resolve_guid(0, "old.mp3", &fp("aaa", 100)).unwrap();
    let moved = db.resolve_guid(0, "new.mp3", &fp("aaa", 100)).unwrap();
    assert_eq!(guid, moved);
    db.remove_path(0, "old.mp3");
    let still_there = db.resolve_guid(0, "new.mp3", &fp("aaa", 100)).unwrap();
    assert_eq!(still_there, guid);
}

#[test]
fn fingerprint_is_stable_and_survives_a_copy_to_a_new_path() {
    let a = vec![7u8; 500_000];
    let b = a.clone();

    let fa = fingerprint_bytes(&a);
    let fb = fingerprint_bytes(&b);
    assert_eq!(fa.hash, fb.hash);
    assert_eq!(fa.size_bytes, 500_000);
}

#[test]
fn fingerprint_differs_for_different_content() {
    assert_ne!(
        fingerprint_bytes(&vec![1u8; 10_000]).hash,
        fingerprint_bytes(&vec![2u8; 10_000]).hash
    );
}

#[test]
fn an_empty_file_is_hashed_by_its_size_alone() {
    // SHA-256 of eight zero bytes.
    let hash = "af5570f5a1810b7af78caf4bc70a660f0df51e42baf91d4de5b2328de0e83dfc";
    assert_eq!(fingerprint_sample(0, &[]).hash, hash);
    assert_eq!(fingerprint_sample(0, &[1, 2, 3]).hash, hash);
}

#[test]
fn the_sample_lies_in_the_middle_of_the_file() {
    assert_eq!(sample_span(0), (0, 0));
    assert_eq!(sample_span(10), (0, 10));
    assert_eq!(sample_span(11), (0, 11));
    assert_eq!(sample_span(262_144), (0, 262_144));
    assert_eq!(sample_span(1_000_000), (368_928, 262_144));
}

#[test]
fn hex_writes_two_small_digits_for_each_byte() {
    assert_eq!(hex_text(&[0, 10, 255, 16]), "000aff10");
    assert_eq!(hex_text(&[]), "");
}

#[test]
fn guids_are_lower_case_and_of_version_four() {
    let mut db = LibraryDb::new();
    let guid = db.resolve_guid(0, "a.mp3", &fp("a", 1)).unwrap();
    let chars: Vec<char> = guid.chars().collect();
    assert_eq!(chars[14], '4');
    assert!(matches!(chars[19], '8' | '9' | 'a' | 'b'));
    for (i, c) in chars.iter().enumerate() {
        if [8, 13, 18, 23].contains(&i) {
            assert_eq!(*c, '-');
        } else {
            assert!(c.is_ascii_digit() || ('a'..='f').contains(c));
        }
    }
}

#[test]
fn a_new_file_is_recorded_with_the_given_id_and_time() {
    let mut db = LibraryDb::new();
    let id = db
        .resolve_guid_with(2, "a.mp3", &fp("h", 9), &[], "fresh".to_string(), 77)
        .unwrap();
    assert_eq!(id, "fresh");
    assert_eq!(db.rows().len(), 1);
    let r = &db.rows()[0];
    assert_eq!(
        (r.guid.as_str(), r.root, r.relative_path.as_str(), r.fingerprint.as_str()),
        ("fresh", 2, "a.mp3", "h")
    );
    assert_eq!((r.size_bytes, r.added_at, r.last_seen), (9, 77, 77));
}

fn place_of<'a>(db: &'a LibraryDb, guid: &str) -> (usize, &'a str) {
    let r = db.rows().iter().find(|r| r.guid == guid).expect("no such row");
    (r.root, r.relative_path.as_str())
}

#[test]
fn a_file_that_moves_onto_another_keeps_its_id() {
    let mut db = LibraryDb::new();
    let a = db.resolve_guid(0, "a.mp3", &fp("aaa", 100)).unwrap();
    let b = db.resolve_guid(0, "b.mp3", &fp("bbb", 200)).unwrap();
    assert_eq!(db.resolve_guid(0, "b.mp3", &fp("aaa", 100)), Ok(a.clone()));
    assert_eq!(place_of(&db, &a), (0, "b.mp3"));
    assert_eq!(place_of(&db, &b), (0, "a.mp3"));
}

#[test]
fn files_that_trade_places_keep_their_ids() {
    let mut db = LibraryDb::new();
    let a = db.resolve_guid(0, "a.mp3", &fp("aaa", 100)).unwrap();
    let b = db.resolve_guid(1, "b.mp3", &fp("bbb", 200)).unwrap();
    assert_eq!(db.resolve_guid(1, "b.mp3", &fp("aaa", 100)), Ok(a.clone()));
    assert_eq!(db.resolve_guid(0, "a.mp3", &fp("bbb", 200)), Ok(b.clone()));
    assert_eq!(place_of(&db, &a), (1, "b.mp3"));
    assert_eq!(place_of(&db, &b), (0, "a.mp3"));
    assert_eq!(db.rows().len(), 2);
}

#[test]
fn a_held_id_is_not_given_to_a_copy() {
    let mut db = LibraryDb::new();
    db.resolve_guid_with(0, "a.mp3", &fp("a", 1), &[], "1".to_string(), 1)
        .unwrap();
    let held = vec!["1".to_string()];
    let copy = db.resolve_guid_with(0, "b.mp3", &fp("a", 1), &held, "2".to_string(), 2);
    assert_eq!(copy, Ok("2".to_string()));
    let again = db.resolve_guid_with(0, "a.mp3", &fp("a", 1), &held, "3".to_string(), 3);
    assert_eq!(again, Ok("1".to_string()));
    let copy_again = db.resolve_guid_with(0, "b.mp3", &fp("a", 1), &[], "3".to_string(), 3);
    assert_eq!(copy_again, Ok("2".to_string()));
    assert_eq!(db.rows().len(), 2);
}

#[test]
fn a_content_is_known_at_its_place_or_where_its_id_is_free() {
    let db = LibraryDb::from_rows(vec![row("1", 0, "a.mp3"), row("2", 1, "b.mp3")]).unwrap();
    assert!(db.knows_at_place(0, "a.mp3", "hash of a.mp3"));
    assert!(!db.knows_at_place(0, "a.mp3", "hash of b.mp3"));
    assert!(!db.knows_at_place(1, "a.mp3", "hash of a.mp3"));
    let held = vec!["1".to_string()];
    assert!(db.knows_content(5, "x.mp3", "hash of a.mp3", &[]));
    assert!(!db.knows_content(5, "x.mp3", "hash of a.mp3", &held));
    assert!(db.knows_content(0, "a.mp3", "hash of a.mp3", &held));
    assert!(!db.knows_content(0, "a.mp3", "other", &[]));
}

#[test]
fn an_id_is_given_only_once() {
    let mut db = LibraryDb::new();
    db.resolve_guid_with(0, "a.mp3", &fp("a", 1), &[], "1".to_string(), 1)
        .unwrap();
    let r = db.resolve_guid_with(0, "b.mp3", &fp("b", 1), &[], "1".to_string(), 1);
    assert_eq!(r, Err(DbError::GuidTaken));
    let r = db.assign_new_guid_with(0, "c.mp3", &fp("a", 1), "1".to_string(), 1);
    assert_eq!(r, Err(DbError::GuidTaken));
    assert_eq!(db.rows().len(), 1);
}

#[test]
fn a_fresh_id_replaces_that_of_the_place_and_keeps_when_it_was_added() {
    let mut db = LibraryDb::new();
    db.resolve_guid_with(0, "a.mp3", &fp("a", 1), &[], "1".to_string(), 5)
        .unwrap();
    db.assign_new_guid_with(0, "a.mp3", &fp("b", 2), "2".to_string(), 9)
        .unwrap();
    let r = &db.rows()[0];
    assert_eq!((r.guid.as_str(), r.fingerprint.as_str()), ("2", "b"));
    assert_eq!((r.size_bytes, r.added_at, r.last_seen), (2, 5, 9));
    let other = db.assign_new_guid(0, "x.mp3", &fp("b", 2)).unwrap();
    assert_eq!(other.len(), 36);
    assert_eq!(db.rows().len(), 2);
}

#[test]
fn removing_a_folder_spares_what_is_only_named_alike() {
    let mut db = LibraryDb::from_rows(vec![
        row("1", 0, "Album"),
        row("2", 0, "album/two.mp3"),
        row("3", 0, "Album2/x.mp3"),
        row("4", 1, "Album/one.mp3"),
        row("5", 0, "Al_um/one.mp3"),
        row("6", 0, "Album/one.mp3"),
        row("7", 0, "Album/CD 1/one.mp3"),
    ])
    .unwrap();
    db.remove_prefix(0, "Album");
    let left: Vec<&str> = db.rows().iter().map(|r| r.guid.as_str()).collect();
    assert_eq!(left, vec!["2", "3", "4", "5"]);
    db.remove_prefix(0, "Al_um");
    let left: Vec<&str> = db.rows().iter().map(|r| r.guid.as_str()).collect();
    assert_eq!(left, vec!["2", "3", "4"]);
    db.remove_path(0, "Album");
    db.remove_path(0, "album/two.mp3");
    assert_eq!(db.rows().len(), 2);
}

#[test]
fn rows_of_folders_that_are_no_longer_configured_are_forgotten() {
    let mut db = LibraryDb::from_rows(vec![
        row("1", 0, "a.mp3"),
        row("2", 1, "a.mp3"),
        row("3", 2, "a.mp3"),
    ])
    .unwrap();
    db.prune_roots_from(1);
    let left: Vec<&str> = db.rows().iter().map(|r| r.guid.as_str()).collect();
    assert_eq!(left, vec!["1"]);
}

#[test]
fn rows_with_a_shared_id_or_place_are_no_table() {
    assert!(LibraryDb::from_rows(vec![row("1", 0, "a"), row("1", 0, "b")]).is_none());
    assert!(LibraryDb::from_rows(vec![row("1", 0, "a"), row("2", 0, "a")]).is_none());
    assert!(LibraryDb::from_rows(vec![row("1", 0, "a"), row("2", 1, "a")]).is_some());
}

#[test]
fn the_clock_is_read_in_seconds() {
    assert!(now_unix() > 1_600_000_000);
    assert_eq!(second_of_reading(Some(5)), 5);
    assert_eq!(second_of_reading(None), 0);
}
