//! Scanning: how the files that were read enter the index and the table of known files.
use crate::clock::now_unix;
use crate::library_db::{
    content_row, fresh_guid, is_guid_text, is_own, pruned, resolved, row_views, without_place,
    without_prefix, DbError, LibraryDb, Row,
};
use crate::lists::{first_where, lemma_first_where};
use crate::metadata::{make_track, slashed, slashed_text, track_of, FileInfo, ScannedFile};
use crate::paths::{is_under, join_path, joined, path_is_under, relative_part, relative_to};
use crate::state::{found, put, Track, TrackInfo, TrackMap};
use crate::text::{chars_of, chars_start_with, same_text, starts_with, texts};
use vstd::prelude::*;

verus! {

/// The index and the table of known files.
#[verifier::ext_equal]
pub struct Library {
    pub tracks: Seq<TrackInfo>,
    pub rows: Seq<Row>,
}

/// The two of them at hand, as plain values.
pub open spec fn library(tracks: TrackMap, db: LibraryDb) -> Library {
    Library { tracks: tracks@, rows: db@ }
}

/// A library while files are indexed, with the ids that files hold by now.
#[verifier::ext_equal]
pub struct Underway {
    pub tracks: Seq<TrackInfo>,
    pub rows: Seq<Row>,
    pub held: Seq<Seq<char>>,
}

/// A library in which files are about to be indexed, while others hold some ids.
pub open spec fn underway(lib: Library, held: Seq<Seq<char>>) -> Underway {
    Underway { tracks: lib.tracks, rows: lib.rows, held }
}

/// Gives the track of a file that was read, under the id that the table has for it at the given
/// time, where other files hold some ids; a new file takes the fresh one.
pub fn read_track_metadata_with(
    root: usize,
    file: &ScannedFile,
    db: &mut LibraryDb,
    held: &[String],
    fresh: String,
    now: u64,
) -> (r: Result<Track, DbError>)
    requires
        old(db).wf(),
    ensures
        final(db).wf(),
        match resolved(
            old(db)@,
            texts(held@),
            root,
            file@.relative_path,
            file@.hash,
            file@.size_bytes,
            fresh@,
            now,
        ) {
            Ok((rows, id)) => r matches Ok(t) && t@ == track_of(root, file@, id) && final(db)@
                == rows,
            Err(e) => r matches Err(x) && x == e && final(db)@ == old(db)@,
        },
{
    match db.resolve_guid_with(
        root,
        file.relative_path.as_str(),
        &file.fingerprint,
        held,
        fresh,
        now,
    ) {
        Ok(id) => Ok(make_track(root, file, id)),
        Err(e) => Err(e),
    }
}

/// Gives the track of a file that was read, under the id that the table has for it now, where
/// other files hold some ids; a new file gets a random one.
pub fn read_track_metadata(
    root: usize,
    file: &ScannedFile,
    db: &mut LibraryDb,
    held: &[String],
) -> (r: Result<Track, DbError>)
    requires
        old(db).wf(),
    ensures
        final(db).wf(),
        exists|fresh: Seq<char>, now: u64|
            is_guid_text(fresh) && match #[trigger] resolved(
                old(db)@,
                texts(held@),
                root,
                file@.relative_path,
                file@.hash,
                file@.size_bytes,
                fresh,
                now,
            ) {
                Ok((rows, id)) => r matches Ok(t) && t@ == track_of(root, file@, id) && final(db)@
                    == rows,
                Err(e) => r matches Err(x) && x == e && final(db)@ == old(db)@,
            },
{
    let now = now_unix();
    let fresh = fresh_guid();
    let ghost id = fresh@;
    let r = read_track_metadata_with(root, file, db, held, fresh, now);
    assert(is_guid_text(id));
    r
}

/// Where to look whether a file is still there: under its folder, where that is one of those
/// looked at.
pub open spec fn place_to_look(
    music_dirs: Seq<Seq<char>>,
    only: Option<usize>,
    root: usize,
    relative_path: Seq<char>,
) -> Option<Seq<char>> {
    if root < music_dirs.len() && (only is None || only == Some(root)) {
        Some(joined(music_dirs[root as int], relative_path))
    } else {
        None
    }
}

/// Whether `on_disk` may give an answer on a path.
pub open spec fn may_answer<E: Fn(&str) -> bool>(
    on_disk: E,
    path: Seq<char>,
    answer: bool,
) -> bool {
    exists|p: &str| p@ == path && #[trigger] call_ensures(on_disk, (p,), answer)
}

/// Whether a file may turn out to be still there or not: where nothing is looked at it is not.
pub open spec fn may_be_there<E: Fn(&str) -> bool>(
    on_disk: E,
    place: Option<Seq<char>>,
    there: bool,
) -> bool {
    match place {
        Some(p) => may_answer(on_disk, p, there),
        None => !there,
    }
}

fn is_still_there<E: Fn(&str) -> bool>(
    on_disk: &E,
    music_dirs: &[String],
    only: Option<usize>,
    root: usize,
    relative_path: &str,
) -> (there: bool)
    requires
        forall|p: &str| call_requires(*on_disk, (p,)),
    ensures
        may_be_there(
            *on_disk,
            place_to_look(texts(music_dirs@), only, root, relative_path@),
            there,
        ),
{
    let looked_at = match only {
        Some(r) => r == root,
        None => true,
    };
    if root < music_dirs.len() && looked_at {
        let place = join_path(music_dirs[root].as_str(), relative_path);
        let p = place.as_str();
        let there = on_disk(p);
        assert(call_ensures(*on_disk, (p,), there));
        there
    } else {
        false
    }
}

/// Files with the numbers of their music folders, as plain values.
pub open spec fn placed(v: Seq<(usize, &ScannedFile)>) -> Seq<(usize, FileInfo)> {
    Seq::new(v.len(), |i: int| (v[i].0, v[i].1@))
}

/// Whether one of some files has a content.
pub open spec fn has_content(files: Seq<(usize, FileInfo)>, hash: Seq<char>) -> bool {
    exists|i: int| 0 <= i < files.len() && (#[trigger] files[i]).1.hash == hash
}

/// Whether one of some files is at a place.
pub open spec fn has_place(
    files: Seq<(usize, FileInfo)>,
    root: usize,
    relative_path: Seq<char>,
) -> bool {
    exists|i: int|
        0 <= i < files.len() && (#[trigger] files[i]).0 == root && files[i].1.relative_path
            == relative_path
}

/// Whether the id of a row may turn out to be held or not: it is where the index has a track under
/// it whose file is none of those that were read and is still there.
pub open spec fn may_be_held<E: Fn(&str) -> bool>(
    on_disk: E,
    music_dirs: Seq<Seq<char>>,
    only: Option<usize>,
    tracks: Seq<TrackInfo>,
    files: Seq<(usize, FileInfo)>,
    row: Row,
    is_held: bool,
) -> bool {
    match found(tracks, row.guid) {
        Some(t) => if has_place(files, t.root, t.relative_path) {
            !is_held
        } else {
            may_be_there(
                on_disk,
                place_to_look(music_dirs, only, t.root, t.relative_path),
                is_held,
            )
        },
        None => !is_held,
    }
}

/// Whether these may be the ids that are held among those by which the contents of some files are
/// known.
pub open spec fn may_all_be_held<E: Fn(&str) -> bool>(
    on_disk: E,
    music_dirs: Seq<Seq<char>>,
    only: Option<usize>,
    lib: Library,
    files: Seq<(usize, FileInfo)>,
    held: Seq<Seq<char>>,
) -> bool {
    forall|i: int|
        0 <= i < lib.rows.len() ==> if has_content(files, (#[trigger] lib.rows[i]).fingerprint) {
            may_be_held(
                on_disk,
                music_dirs,
                only,
                lib.tracks,
                files,
                lib.rows[i],
                held.contains(lib.rows[i].guid),
            )
        } else {
            !held.contains(lib.rows[i].guid)
        }
}

fn some_has_content(files: &[(usize, &ScannedFile)], hash: &str) -> (r: bool)
    ensures
        r == has_content(placed(files@), hash@),
{
    let mut i: usize = 0;
    while i < files.len()
        invariant
            0 <= i <= files.len(),
            forall|k: int| 0 <= k < i ==> (#[trigger] placed(files@)[k]).1.hash != hash@,
        decreases files.len() - i,
    {
        assert(placed(files@)[i as int].1 == files@[i as int].1@);
        if same_text(files[i].1.fingerprint.hash.as_str(), hash) {
            return true;
        }
        i += 1;
    }
    false
}

fn some_has_place(files: &[(usize, &ScannedFile)], root: usize, relative_path: &str) -> (r: bool)
    ensures
        r == has_place(placed(files@), root, relative_path@),
{
    let mut i: usize = 0;
    while i < files.len()
        invariant
            0 <= i <= files.len(),
            forall|k: int|
                0 <= k < i ==> (#[trigger] placed(files@)[k]).0 != root
                    || placed(files@)[k].1.relative_path != relative_path@,
        decreases files.len() - i,
    {
        assert(placed(files@)[i as int] == (files@[i as int].0, files@[i as int].1@));
        if files[i].0 == root && same_text(files[i].1.relative_path.as_str(), relative_path) {
            return true;
        }
        i += 1;
    }
    false
}

/// The ids that files in the index hold, among those by which the contents of some files are
/// known: a file of one of these contents is a copy, unless its own place is known with it.
/// `on_disk` tells whether there is a file at a path; it is asked of the files in the index that
/// are none of those given, in their music folders, and in no folder but `only` where that is
/// given.
pub fn resolve_guid_collision<E: Fn(&str) -> bool>(
    files: &[(usize, &ScannedFile)],
    known: &TrackMap,
    db: &LibraryDb,
    music_dirs: &[String],
    only: Option<usize>,
    on_disk: &E,
) -> (held: Vec<String>)
    requires
        db.wf(),
        forall|p: &str| call_requires(*on_disk, (p,)),
    ensures
        may_all_be_held(
            *on_disk,
            texts(music_dirs@),
            only,
            library(*known, *db),
            placed(files@),
            texts(held@),
        ),
{
    let ghost lib = library(*known, *db);
    let ghost dirs = texts(music_dirs@);
    let ghost all = placed(files@);
    let ghost ids = lib.rows.map_values(|r: Row| r.guid);
    let mut held: Vec<String> = Vec::new();
    let rows = db.rows();
    let mut i: usize = 0;
    while i < rows.len()
        invariant
            0 <= i <= rows.len(),
            db.wf(),
            row_views(rows@) == db@,
            lib == library(*known, *db),
            dirs == texts(music_dirs@),
            all == placed(files@),
            forall|p: &str| call_requires(*on_disk, (p,)),
            ids == lib.rows.map_values(|r: Row| r.guid),
            forall|a: int|
                0 <= a < held.len() ==> ids.take(i as int).contains(#[trigger] texts(held@)[a]),
            forall|k: int|
                0 <= k < i ==> if has_content(all, (#[trigger] lib.rows[k]).fingerprint) {
                    may_be_held(
                        *on_disk,
                        dirs,
                        only,
                        lib.tracks,
                        all,
                        lib.rows[k],
                        texts(held@).contains(lib.rows[k].guid),
                    )
                } else {
                    !texts(held@).contains(lib.rows[k].guid)
                },
        decreases rows.len() - i,
    {
        let ghost before = texts(held@);
        let ghost row = lib.rows[i as int];
        assert(row == rows@[i as int]@);
        let mut hold = false;
        if some_has_content(files, rows[i].fingerprint.as_str()) {
            match known.get(rows[i].guid.as_str()) {
                Some(t) => {
                    hold = !some_has_place(files, t.root, t.relative_path.as_str())
                        && is_still_there(
                        on_disk,
                        music_dirs,
                        only,
                        t.root,
                        t.relative_path.as_str(),
                    );
                },
                None => {},
            }
        }
        assert(!before.contains(row.guid)) by {
            if before.contains(row.guid) {
                let a = choose|a: int| 0 <= a < before.len() && before[a] == row.guid;
                assert(ids.take(i as int).contains(texts(held@)[a]));
                let k = choose|k: int| 0 <= k < i && ids.take(i as int)[k] == before[a];
                assert(lib.rows[k].guid != lib.rows[i as int].guid);
            }
        }
        if hold {
            held.push(rows[i].guid.clone());
            assert(texts(held@) =~= before.push(row.guid));
        }
        proof {
            let after = texts(held@);
            if hold {
                assert(after[before.len() as int] == row.guid);
            }
            assert forall|k: int| 0 <= k < i implies after.contains((#[trigger] lib.rows[k]).guid)
                == before.contains(lib.rows[k].guid) by {
                assert(lib.rows[k].guid != row.guid);
                if before.contains(lib.rows[k].guid) {
                    let a = choose|a: int| 0 <= a < before.len() && before[a] == lib.rows[k].guid;
                    assert(after[a] == lib.rows[k].guid);
                }
            }
            assert forall|a: int| 0 <= a < after.len() implies ids.take(i + 1).contains(
                #[trigger] after[a],
            ) by {
                if a < before.len() {
                    assert(after[a] == before[a]);
                    assert(ids.take(i as int).contains(before[a]));
                    let k = choose|k: int| 0 <= k < i && ids.take(i as int)[k] == before[a];
                    assert(ids.take(i + 1)[k] == after[a]);
                } else {
                    assert(ids.take(i + 1)[i as int] == after[a]);
                }
            }
        }
        i += 1;
    }
    held
}

/// The library once a file that was read is indexed, and it holds its id. A file that the table
/// refuses is left out.
pub open spec fn indexed(
    u: Underway,
    root: usize,
    f: FileInfo,
    fresh: Seq<char>,
    now: u64,
) -> Underway {
    match resolved(u.rows, u.held, root, f.relative_path, f.hash, f.size_bytes, fresh, now) {
        Ok((rows, id)) => Underway {
            tracks: put(u.tracks, track_of(root, f, id)),
            rows,
            held: u.held.push(id),
        },
        Err(_) => u,
    }
}

/// Whether indexing a file may turn one library into another, by the random id and the time.
pub open spec fn may_index(before: Underway, root: usize, f: FileInfo, after: Underway) -> bool {
    exists|fresh: Seq<char>, now: u64|
        is_guid_text(fresh) && after == #[trigger] indexed(before, root, f, fresh, now)
}

/// Whether indexing some files in order may turn one library into another.
pub open spec fn may_index_all(
    before: Underway,
    files: Seq<(usize, FileInfo)>,
    after: Underway,
) -> bool
    decreases files.len(),
{
    if files.len() == 0 {
        after == before
    } else {
        exists|mid: Underway|
            may_index_all(before, files.drop_last(), mid) && #[trigger] may_index(
                mid,
                files.last().0,
                files.last().1,
                after,
            )
    }
}

/// Whether the content of a file is known, but for the ids that other files hold.
pub open spec fn is_known(u: Underway, root: usize, f: FileInfo) -> bool {
    content_row(u.rows, u.held, root, f.relative_path, f.hash) < u.rows.len()
}

/// Whether a file may be passed by, or indexed where its content is known: `left` are the files
/// that were passed by before it and `after_left` those after it.
pub open spec fn may_index_if_known(
    before: Underway,
    left: Seq<(usize, FileInfo)>,
    file: (usize, FileInfo),
    after: Underway,
    after_left: Seq<(usize, FileInfo)>,
) -> bool {
    if is_known(before, file.0, file.1) {
        may_index(before, file.0, file.1, after) && after_left == left
    } else {
        after == before && after_left == left.push(file)
    }
}

/// Whether indexing those of some files whose contents are known may turn one library into
/// another, and leave the given files.
pub open spec fn may_index_known(
    before: Underway,
    files: Seq<(usize, FileInfo)>,
    after: Underway,
    left: Seq<(usize, FileInfo)>,
) -> bool
    decreases files.len(),
{
    if files.len() == 0 {
        after == before && left.len() == 0
    } else {
        exists|mid: Underway, l: Seq<(usize, FileInfo)>|
            may_index_known(before, files.drop_last(), mid, l) && #[trigger] may_index_if_known(
                mid,
                l,
                files.last(),
                after,
                left,
            )
    }
}

/// Those of some files whose places are known with their contents, or those whose are not.
pub open spec fn unchanged(
    rows: Seq<Row>,
    files: Seq<(usize, FileInfo)>,
    wanted: bool,
) -> Seq<(usize, FileInfo)> {
    files.filter(
        |x: (usize, FileInfo)| is_own(rows, x.0, x.1.relative_path, x.1.hash) == wanted,
    )
}

/// Whether indexing some files may turn one library into another. Files that are where they were
/// come first, then those whose contents are known, wherever they moved from, and then the rest:
/// so none takes the id of another that is still to come.
pub open spec fn may_index_files(
    before: Underway,
    files: Seq<(usize, FileInfo)>,
    after: Underway,
) -> bool {
    exists|settled: Underway, moved: Underway, left: Seq<(usize, FileInfo)>|
        {
            &&& may_index_all(before, unchanged(before.rows, files, true), settled)
            &&& #[trigger] may_index_known(
                settled,
                unchanged(before.rows, files, false),
                moved,
                left,
            )
            &&& #[trigger] may_index_all(moved, left, after)
        }
}

/// Indexes a file that was read, told the id that it gets where it is new and the time.
pub fn index_file_with(
    root: usize,
    file: &ScannedFile,
    tracks: &mut TrackMap,
    db: &mut LibraryDb,
    held: &mut Vec<String>,
    fresh: String,
    now: u64,
)
    requires
        old(tracks).wf(),
        old(db).wf(),
    ensures
        final(tracks).wf(),
        final(db).wf(),
        underway(library(*final(tracks), *final(db)), texts(final(held)@)) == indexed(
            underway(library(*old(tracks), *old(db)), texts(old(held)@)),
            root,
            file@,
            fresh@,
            now,
        ),
{
    let ghost before = texts(held@);
    match read_track_metadata_with(root, file, db, held.as_slice(), fresh, now) {
        Ok(track) => {
            let id = track.id.clone();
            let ghost id_text = id@;
            held.push(id);
            assert(texts(held@) =~= before.push(id_text));
            tracks.insert(track);
        },
        Err(_) => {},
    }
}

/// Indexes a file that was read.
fn index_file(
    root: usize,
    file: &ScannedFile,
    tracks: &mut TrackMap,
    db: &mut LibraryDb,
    held: &mut Vec<String>,
)
    requires
        old(tracks).wf(),
        old(db).wf(),
    ensures
        final(tracks).wf(),
        final(db).wf(),
        may_index(
            underway(library(*old(tracks), *old(db)), texts(old(held)@)),
            root,
            file@,
            underway(library(*final(tracks), *final(db)), texts(final(held)@)),
        ),
{
    let now = now_unix();
    let fresh = fresh_guid();
    assert(is_guid_text(fresh@));
    index_file_with(root, file, tracks, db, held, fresh, now);
}

fn index_all(
    files: &[(usize, &ScannedFile)],
    tracks: &mut TrackMap,
    db: &mut LibraryDb,
    held: &mut Vec<String>,
)
    requires
        old(tracks).wf(),
        old(db).wf(),
    ensures
        final(tracks).wf(),
        final(db).wf(),
        may_index_all(
            underway(library(*old(tracks), *old(db)), texts(old(held)@)),
            placed(files@),
            underway(library(*final(tracks), *final(db)), texts(final(held)@)),
        ),
{
    let ghost before = underway(library(*tracks, *db), texts(held@));
    let ghost all = placed(files@);
    let mut i: usize = 0;
    while i < files.len()
        invariant
            0 <= i <= files.len(),
            all == placed(files@),
            tracks.wf(),
            db.wf(),
            may_index_all(
                before,
                all.take(i as int),
                underway(library(*tracks, *db), texts(held@)),
            ),
        decreases files.len() - i,
    {
        let ghost mid = underway(library(*tracks, *db), texts(held@));
        index_file(files[i].0, files[i].1, tracks, db, held);
        proof {
            let next = all.take(i + 1);
            assert(next.drop_last() =~= all.take(i as int));
            assert(next.last() == (files@[i as int].0, files@[i as int].1@));
            assert(may_index(
                mid,
                next.last().0,
                next.last().1,
                underway(library(*tracks, *db), texts(held@)),
            ));
        }
        i += 1;
    }
    assert(all.take(i as int) =~= all);
}

fn index_known<'a>(
    files: &[(usize, &'a ScannedFile)],
    tracks: &mut TrackMap,
    db: &mut LibraryDb,
    held: &mut Vec<String>,
) -> (left: Vec<(usize, &'a ScannedFile)>)
    requires
        old(tracks).wf(),
        old(db).wf(),
    ensures
        final(tracks).wf(),
        final(db).wf(),
        may_index_known(
            underway(library(*old(tracks), *old(db)), texts(old(held)@)),
            placed(files@),
            underway(library(*final(tracks), *final(db)), texts(final(held)@)),
            placed(left@),
        ),
{
    let ghost before = underway(library(*tracks, *db), texts(held@));
    let ghost all = placed(files@);
    let mut left: Vec<(usize, &'a ScannedFile)> = Vec::new();
    let mut i: usize = 0;
    while i < files.len()
        invariant
            0 <= i <= files.len(),
            all == placed(files@),
            tracks.wf(),
            db.wf(),
            may_index_known(
                before,
                all.take(i as int),
                underway(library(*tracks, *db), texts(held@)),
                placed(left@),
            ),
        decreases files.len() - i,
    {
        let ghost mid = underway(library(*tracks, *db), texts(held@));
        let ghost l = placed(left@);
        let (root, file) = files[i];
        if db.knows_content(
            root,
            file.relative_path.as_str(),
            file.fingerprint.hash.as_str(),
            held.as_slice(),
        ) {
            index_file(root, file, tracks, db, held);
        } else {
            left.push((root, file));
            assert(placed(left@) =~= l.push((root, file@)));
        }
        proof {
            let next = all.take(i + 1);
            assert(next.drop_last() =~= all.take(i as int));
            assert(next.last() == (root, file@));
            assert(may_index_if_known(
                mid,
                l,
                next.last(),
                underway(library(*tracks, *db), texts(held@)),
                placed(left@),
            ));
        }
        i += 1;
    }
    assert(all.take(i as int) =~= all);
    left
}

fn pick_unchanged<'a>(
    files: &[(usize, &'a ScannedFile)],
    db: &LibraryDb,
    wanted: bool,
) -> (r: Vec<(usize, &'a ScannedFile)>)
    ensures
        placed(r@) == unchanged(db@, placed(files@), wanted),
{
    let ghost p = |x: (usize, FileInfo)|
        is_own(db@, x.0, x.1.relative_path, x.1.hash) == wanted;
    let ghost all = placed(files@);
    let mut r: Vec<(usize, &'a ScannedFile)> = Vec::new();
    let mut i: usize = 0;
    assert(placed(r@) =~= all.take(0).filter(p)) by {
        reveal(Seq::filter);
    }
    while i < files.len()
        invariant
            0 <= i <= files.len(),
            all == placed(files@),
            p == (|x: (usize, FileInfo)|
                is_own(db@, x.0, x.1.relative_path, x.1.hash) == wanted),
            placed(r@) == all.take(i as int).filter(p),
        decreases files.len() - i,
    {
        let ghost before = placed(r@);
        let (root, file) = files[i];
        proof {
            reveal(Seq::filter);
            assert(all.take(i + 1).drop_last() =~= all.take(i as int));
            assert(all.take(i + 1).last() == (root, file@));
        }
        if db.knows_at_place(
            root,
            file.relative_path.as_str(),
            file.fingerprint.hash.as_str(),
        ) == wanted {
            r.push((root, file));
            assert(placed(r@) =~= before.push((root, file@)));
        }
        i += 1;
    }
    assert(all.take(i as int) =~= all);
    r
}

/// Indexes files that were read, while others hold some ids.
fn index_files(
    files: &[(usize, &ScannedFile)],
    tracks: &mut TrackMap,
    db: &mut LibraryDb,
    held: &mut Vec<String>,
)
    requires
        old(tracks).wf(),
        old(db).wf(),
    ensures
        final(tracks).wf(),
        final(db).wf(),
        may_index_files(
            underway(library(*old(tracks), *old(db)), texts(old(held)@)),
            placed(files@),
            underway(library(*final(tracks), *final(db)), texts(final(held)@)),
        ),
{
    let ghost before = underway(library(*tracks, *db), texts(held@));
    let same = pick_unchanged(files, db, true);
    let others = pick_unchanged(files, db, false);
    index_all(same.as_slice(), tracks, db, held);
    let ghost settled = underway(library(*tracks, *db), texts(held@));
    let left = index_known(others.as_slice(), tracks, db, held);
    let ghost moved = underway(library(*tracks, *db), texts(held@));
    index_all(left.as_slice(), tracks, db, held);
    assert(may_index_known(
        settled,
        unchanged(before.rows, placed(files@), false),
        moved,
        placed(left@),
    ));
}

/// Files as plain values.
pub open spec fn file_infos(v: Seq<ScannedFile>) -> Seq<FileInfo> {
    Seq::new(v.len(), |i: int| v[i]@)
}

/// The files of a music folder, each with the number of the folder.
pub open spec fn in_root(root: usize, files: Seq<FileInfo>) -> Seq<(usize, FileInfo)> {
    files.map_values(|f: FileInfo| (root, f))
}

/// Whether indexing some files may turn one library into another, by what is still there of the
/// files in the index.
pub open spec fn may_scan_into<E: Fn(&str) -> bool>(
    on_disk: E,
    music_dirs: Seq<Seq<char>>,
    only: Option<usize>,
    before: Library,
    files: Seq<(usize, FileInfo)>,
    after: Library,
) -> bool {
    exists|held: Seq<Seq<char>>, end: Underway|
        {
            &&& may_all_be_held(on_disk, music_dirs, only, before, files, held)
            &&& #[trigger] may_index_files(underway(before, held), files, end)
            &&& after == (Library { tracks: end.tracks, rows: end.rows })
        }
}

fn push_placed<'a>(v: &mut Vec<(usize, &'a ScannedFile)>, root: usize, files: &'a [ScannedFile])
    ensures
        placed(final(v)@) == placed(old(v)@) + in_root(root, file_infos(files@)),
{
    let ghost before = placed(v@);
    let ghost all = in_root(root, file_infos(files@));
    let mut i: usize = 0;
    assert(placed(v@) =~= before + all.take(0));
    while i < files.len()
        invariant
            0 <= i <= files.len(),
            all == in_root(root, file_infos(files@)),
            placed(v@) == before + all.take(i as int),
        decreases files.len() - i,
    {
        let ghost mid = placed(v@);
        v.push((root, &files[i]));
        i += 1;
        assert(placed(v@) =~= mid.push((root, files@[i - 1]@)));
        assert(placed(v@) =~= before + all.take(i as int));
    }
    assert(all.take(i as int) =~= all);
}

fn scan_placed_into<E: Fn(&str) -> bool>(
    files: &[(usize, &ScannedFile)],
    tracks: &mut TrackMap,
    db: &mut LibraryDb,
    music_dirs: &[String],
    only: Option<usize>,
    on_disk: &E,
)
    requires
        old(tracks).wf(),
        old(db).wf(),
        forall|p: &str| call_requires(*on_disk, (p,)),
    ensures
        final(tracks).wf(),
        final(db).wf(),
        may_scan_into(
            *on_disk,
            texts(music_dirs@),
            only,
            library(*old(tracks), *old(db)),
            placed(files@),
            library(*final(tracks), *final(db)),
        ),
{
    let ghost before = library(*tracks, *db);
    let mut held = resolve_guid_collision(files, tracks, db, music_dirs, only, on_disk);
    let ghost held_before = texts(held@);
    index_files(files, tracks, db, &mut held);
    proof {
        let end = underway(library(*tracks, *db), texts(held@));
        assert(may_index_files(underway(before, held_before), placed(files@), end));
        assert(library(*tracks, *db) =~= (Library { tracks: end.tracks, rows: end.rows }));
    }
}

/// Indexes the files that were read in a music folder.
pub fn scan_library_into<E: Fn(&str) -> bool>(
    root: usize,
    files: &[ScannedFile],
    tracks: &mut TrackMap,
    db: &mut LibraryDb,
    music_dirs: &[String],
    only: Option<usize>,
    on_disk: &E,
)
    requires
        old(tracks).wf(),
        old(db).wf(),
        forall|p: &str| call_requires(*on_disk, (p,)),
    ensures
        final(tracks).wf(),
        final(db).wf(),
        may_scan_into(
            *on_disk,
            texts(music_dirs@),
            only,
            library(*old(tracks), *old(db)),
            in_root(root, file_infos(files@)),
            library(*final(tracks), *final(db)),
        ),
{
    let mut list: Vec<(usize, &ScannedFile)> = Vec::new();
    push_placed(&mut list, root, files);
    assert(placed(list@) =~= in_root(root, file_infos(files@)));
    scan_placed_into(list.as_slice(), tracks, db, music_dirs, only, on_disk);
}

/// The ids of the tracks of a music folder.
pub open spec fn ids_of_root(tracks: Seq<TrackInfo>, root: usize) -> Seq<Seq<char>> {
    tracks.filter(|t: TrackInfo| t.root == root).map_values(|t: TrackInfo| t.id)
}

/// The ids of the tracks of a music folder.
pub fn seen_guids(tracks: &TrackMap, root: usize) -> (r: Vec<String>)
    ensures
        texts(r@) == ids_of_root(tracks@, root),
{
    let ghost p = |t: TrackInfo| t.root == root;
    let ghost id = |t: TrackInfo| t.id;
    let mut r: Vec<String> = Vec::new();
    let all = tracks.all();
    let mut i: usize = 0;
    assert(texts(r@) =~= tracks@.take(0).filter(p).map_values(id)) by {
        reveal(Seq::filter);
    }
    while i < all.len()
        invariant
            0 <= i <= all.len(),
            p == (|t: TrackInfo| t.root == root),
            id == (|t: TrackInfo| t.id),
            tracks@ == crate::state::infos(all@),
            texts(r@) == tracks@.take(i as int).filter(p).map_values(id),
        decreases all.len() - i,
    {
        let ghost before = texts(r@);
        let ghost t = all@[i as int]@;
        let ghost front = tracks@.take(i as int);
        proof {
            reveal(Seq::filter);
            assert(tracks@.take(i + 1).drop_last() =~= front);
            assert(tracks@.take(i + 1).last() == t);
            assert(front.filter(p).push(t).map_values(id) =~= front.filter(p).map_values(id).push(
                t.id,
            ));
        }
        if all[i].root == root {
            r.push(all[i].id.clone());
            assert(texts(r@) =~= before.push(t.id));
        }
        i += 1;
    }
    assert(tracks@.take(i as int) =~= tracks@);
    r
}

/// The library once the files of a music folder that were not seen are forgotten.
pub open spec fn with_missing_forgotten(lib: Library, root: usize) -> Library {
    Library {
        tracks: lib.tracks,
        rows: pruned(lib.rows, root, ids_of_root(lib.tracks, root)),
    }
}

/// The library once the files of the first music folders that were not seen are forgotten.
pub open spec fn with_all_missing_forgotten(lib: Library, roots: nat) -> Library
    decreases roots,
{
    if roots == 0 {
        lib
    } else {
        with_missing_forgotten(
            with_all_missing_forgotten(lib, (roots - 1) as nat),
            (roots - 1) as usize,
        )
    }
}

/// The library once all files that were not seen are forgotten, also those of folders that are no
/// longer configured.
pub open spec fn with_unseen_forgotten(lib: Library, roots: nat) -> Library {
    Library {
        tracks: lib.tracks,
        rows: with_all_missing_forgotten(lib, roots).rows.filter(|r: Row| r.root < roots),
    }
}

/// The files of all music folders, each with the number of its folder.
pub open spec fn all_files(files: Seq<Seq<FileInfo>>) -> Seq<(usize, FileInfo)>
    decreases files.len(),
{
    if files.len() == 0 {
        Seq::empty()
    } else {
        all_files(files.drop_last()) + in_root((files.len() - 1) as usize, files.last())
    }
}

/// Whether scanning the music folders from scratch may give a library. Files are forgotten only
/// once all folders were read, so that one that moved from folder to folder is known by then.
pub open spec fn may_scan(rows: Seq<Row>, files: Seq<Seq<FileInfo>>, after: Library) -> bool {
    exists|end: Underway|
        {
            &&& #[trigger] may_index_files(
                Underway { tracks: Seq::empty(), rows, held: Seq::empty() },
                all_files(files),
                end,
            )
            &&& after == with_unseen_forgotten(
                Library { tracks: end.tracks, rows: end.rows },
                files.len(),
            )
        }
}

/// The files of several folders as plain values.
pub open spec fn folder_infos(v: Seq<Vec<ScannedFile>>) -> Seq<Seq<FileInfo>> {
    Seq::new(v.len(), |i: int| file_infos(v[i]@))
}

/// Scans all music folders from scratch, given the files that were read in each of them. The files
/// that are found nowhere any more are forgotten.
pub fn scan_all_libraries(files: &[Vec<ScannedFile>], db: &mut LibraryDb) -> (tracks: TrackMap)
    requires
        old(db).wf(),
    ensures
        tracks.wf(),
        final(db).wf(),
        may_scan(old(db)@, folder_infos(files@), library(tracks, *final(db))),
{
    let ghost rows = db@;
    let ghost all = folder_infos(files@);
    let mut list: Vec<(usize, &ScannedFile)> = Vec::new();
    let mut i: usize = 0;
    assert(placed(list@) =~= all_files(all.take(0)));
    while i < files.len()
        invariant
            0 <= i <= files.len(),
            all == folder_infos(files@),
            placed(list@) == all_files(all.take(i as int)),
        decreases files.len() - i,
    {
        push_placed(&mut list, i, files[i].as_slice());
        proof {
            let next = all.take(i + 1);
            assert(next.drop_last() =~= all.take(i as int));
            assert(next.last() == file_infos(files@[i as int]@));
            assert((next.len() - 1) as usize == i);
        }
        i += 1;
    }
    assert(all.take(i as int) =~= all);
    let mut tracks = TrackMap::new();
    let mut held: Vec<String> = Vec::new();
    let ghost start = Underway { tracks: Seq::empty(), rows, held: Seq::empty() };
    assert(underway(library(tracks, *db), texts(held@)) =~= start);
    index_files(list.as_slice(), &mut tracks, db, &mut held);
    let ghost end = underway(library(tracks, *db), texts(held@));
    let ghost lib = library(tracks, *db);
    assert(may_index_files(start, all_files(all), end));
    assert(lib =~= (Library { tracks: end.tracks, rows: end.rows }));
    let mut root: usize = 0;
    while root < files.len()
        invariant
            0 <= root <= files.len(),
            tracks.wf(),
            db.wf(),
            tracks@ == lib.tracks,
            library(tracks, *db) == with_all_missing_forgotten(lib, root as nat),
        decreases files.len() - root,
    {
        let seen = seen_guids(&tracks, root);
        db.prune_missing_for_root(root, seen.as_slice());
        root += 1;
    }
    let ghost pruned = library(tracks, *db);
    let n = files.len();
    db.prune_roots_from(n);
    proof {
        assert(pruned.rows.filter(|r: Row| r.root < n) =~= pruned.rows.filter(
            |r: Row| r.root < all.len(),
        )) by {
            assert((|r: Row| r.root < n) =~= (|r: Row| r.root < all.len()));
        }
        assert(library(tracks, *db) =~= with_unseen_forgotten(lib, all.len()));
    }
    tracks
}

/// The tracks but for those at a place of a music folder or under it.
pub open spec fn without_below(tracks: Seq<TrackInfo>, root: usize, rel_path: Seq<char>) -> Seq<
    TrackInfo,
> {
    tracks.filter(
        |t: TrackInfo|
            t.root != root || (t.relative_path != rel_path && !starts_with(
                t.relative_path,
                rel_path.push('/'),
            )),
    )
}

/// Takes the tracks at a place of a music folder, and those under it, out of the index.
pub fn remove_prefixed(tracks: &mut TrackMap, root: usize, rel_path: &str)
    requires
        old(tracks).wf(),
    ensures
        final(tracks).wf(),
        final(tracks)@ == without_below(old(tracks)@, root, rel_path@),
{
    let mut prefix = chars_of(rel_path);
    prefix.push('/');
    let keep = |t: &Track| -> (b: bool)
        ensures
            b == (t@.root != root || (t@.relative_path != rel_path@ && !starts_with(
                t@.relative_path,
                prefix@,
            ))),
        {
            t.root != root || (!same_text(t.relative_path.as_str(), rel_path) && !chars_start_with(
                chars_of(t.relative_path.as_str()).as_slice(),
                prefix.as_slice(),
            ))
        };
    let ghost p = |t: TrackInfo|
        t.root != root || (t.relative_path != rel_path@ && !starts_with(
            t.relative_path,
            rel_path@.push('/'),
        ));
    tracks.retain(&keep, Ghost(p));
}

/// What is found where something has changed.
#[derive(Debug)]
pub enum PathChange {
    /// A folder, with the files that were read in it.
    Directory(Vec<ScannedFile>),
    /// A file; it was read unless it is none of those that are indexed.
    File(Option<ScannedFile>),
    /// Nothing any more.
    Missing,
}

/// The library once what was at a place, and under it, is gone.
pub open spec fn without_missing(lib: Library, root: usize, rel_path: Seq<char>) -> Library {
    Library {
        tracks: without_below(lib.tracks, root, rel_path),
        rows: without_prefix(without_place(lib.rows, root, rel_path), root, rel_path),
    }
}

/// Whether a change at a place of a music folder may turn one library into another. What was
/// indexed in a folder makes room for the files that were read there.
pub open spec fn may_change_at<E: Fn(&str) -> bool>(
    on_disk: E,
    music_dirs: Seq<Seq<char>>,
    before: Library,
    root: usize,
    rel_path: Seq<char>,
    change: PathChange,
    after: Library,
) -> bool {
    match change {
        PathChange::File(None) => after == before,
        PathChange::File(Some(f)) => may_scan_into(
            on_disk,
            music_dirs,
            Some(root),
            before,
            seq![(root, f@)],
            after,
        ),
        PathChange::Directory(files) => may_scan_into(
            on_disk,
            music_dirs,
            Some(root),
            Library { tracks: without_below(before.tracks, root, rel_path), rows: before.rows },
            in_root(root, file_infos(files@)),
            after,
        ),
        PathChange::Missing => after == without_missing(before, root, rel_path),
    }
}

/// The place of a path in a music folder; nothing where it lies elsewhere or is that folder.
pub open spec fn changed_place(dir: Seq<char>, path: Seq<char>) -> Option<Seq<char>> {
    match relative_part(path, dir) {
        Some(p) => if p.len() == 0 {
            None
        } else {
            Some(slashed(p))
        },
        None => None,
    }
}

/// Brings the library up to date with a change at a path in a music folder.
pub fn apply_path_change<E: Fn(&str) -> bool>(
    root: usize,
    changed_path: &str,
    change: &PathChange,
    tracks: &mut TrackMap,
    db: &mut LibraryDb,
    music_dirs: &[String],
    on_disk: &E,
)
    requires
        root < music_dirs.len(),
        old(tracks).wf(),
        old(db).wf(),
        forall|p: &str| call_requires(*on_disk, (p,)),
    ensures
        final(tracks).wf(),
        final(db).wf(),
        match changed_place(texts(music_dirs@)[root as int], changed_path@) {
            Some(rel_path) => may_change_at(
                *on_disk,
                texts(music_dirs@),
                library(*old(tracks), *old(db)),
                root,
                rel_path,
                *change,
                library(*final(tracks), *final(db)),
            ),
            None => library(*final(tracks), *final(db)) == library(*old(tracks), *old(db)),
        },
{
    let rel = match relative_to(changed_path, music_dirs[root].as_str()) {
        Some(p) => p,
        None => {
            return ;
        },
    };
    let rel_path = slashed_text(rel.as_str());
    assert(rel_path@.len() == rel@.len());
    if rel_path.as_str().is_empty() {
        return ;
    }
    match change {
        PathChange::Directory(files) => {
            remove_prefixed(tracks, root, rel_path.as_str());
            scan_library_into(
                root,
                files.as_slice(),
                tracks,
                db,
                music_dirs,
                Some(root),
                on_disk,
            );
        },
        PathChange::File(Some(file)) => {
            let mut list: Vec<(usize, &ScannedFile)> = Vec::new();
            list.push((root, file));
            assert(placed(list@) =~= seq![(root, file@)]);
            scan_placed_into(list.as_slice(), tracks, db, music_dirs, Some(root), on_disk);
        },
        PathChange::File(None) => {},
        PathChange::Missing => {
            remove_prefixed(tracks, root, rel_path.as_str());
            db.remove_path(root, rel_path.as_str());
            db.remove_prefix(root, rel_path.as_str());
        },
    }
}

/// The music folder that a path lies in: the first of them, or their number where it lies in
/// none.
pub open spec fn root_of(music_dirs: Seq<Seq<char>>, path: Seq<char>) -> int {
    first_where(music_dirs, |d: Seq<char>| is_under(path, d))
}

/// The music folder that a path lies in, where there is one.
pub fn find_root_for_path(music_dirs: &[String], path: &str) -> (r: Option<usize>)
    ensures
        match r {
            Some(i) => i < music_dirs@.len() && i == root_of(texts(music_dirs@), path@),
            None => root_of(texts(music_dirs@), path@) == music_dirs@.len(),
        },
{
    let ghost p = |d: Seq<char>| is_under(path@, d);
    let ghost all = texts(music_dirs@);
    let mut i: usize = 0;
    while i < music_dirs.len()
        invariant
            0 <= i <= music_dirs.len(),
            all == texts(music_dirs@),
            p == (|d: Seq<char>| is_under(path@, d)),
            forall|k: int| 0 <= k < i ==> !p(#[trigger] all[k]),
        decreases music_dirs.len() - i,
    {
        if path_is_under(path, music_dirs[i].as_str()) {
            proof {
                assert(p(all[i as int]));
                lemma_first_where(all, p, i as int);
            }
            return Some(i);
        }
        i += 1;
    }
    proof {
        lemma_first_where(all, p, i as int);
    }
    None
}

/// Those of the first changed paths that lie in a music folder and are still there, or are not,
/// each with its folder.
pub open spec fn changes_in_roots(
    music_dirs: Seq<Seq<char>>,
    paths: Seq<Seq<char>>,
    present: Seq<bool>,
    wanted: bool,
    n: int,
) -> Seq<(usize, usize)>
    decreases n,
{
    if n <= 0 {
        Seq::empty()
    } else {
        let before = changes_in_roots(music_dirs, paths, present, wanted, n - 1);
        let root = root_of(music_dirs, paths[n - 1]);
        if root < music_dirs.len() && present[n - 1] == wanted {
            before.push((root as usize, (n - 1) as usize))
        } else {
            before
        }
    }
}

/// The order in which changed paths are dealt with, each with the music folder that it lies in:
/// what is there comes before what is gone, so that a file that moved is known at its new place
/// when its old one is cleared.
pub fn order_changes(music_dirs: &[String], paths: &[String], present: &[bool]) -> (r: Vec<
    (usize, usize),
>)
    requires
        paths.len() == present.len(),
    ensures
        r@ == changes_in_roots(
            texts(music_dirs@),
            texts(paths@),
            present@,
            true,
            paths@.len() as int,
        ) + changes_in_roots(
            texts(music_dirs@),
            texts(paths@),
            present@,
            false,
            paths@.len() as int,
        ),
{
    let ghost dirs = texts(music_dirs@);
    let ghost all = texts(paths@);
    let mut r: Vec<(usize, usize)> = Vec::new();
    let mut missing: Vec<(usize, usize)> = Vec::new();
    let mut i: usize = 0;
    while i < paths.len()
        invariant
            0 <= i <= paths.len(),
            paths.len() == present.len(),
            dirs == texts(music_dirs@),
            all == texts(paths@),
            r@ == changes_in_roots(dirs, all, present@, true, i as int),
            missing@ == changes_in_roots(dirs, all, present@, false, i as int),
        decreases paths.len() - i,
    {
        match find_root_for_path(music_dirs, paths[i].as_str()) {
            Some(root) => {
                if present[i] {
                    r.push((root, i));
                } else {
                    missing.push((root, i));
                }
            },
            None => {},
        }
        i += 1;
    }
    let ghost there = r@;
    let mut j: usize = 0;
    assert(r@ =~= there + missing@.take(0));
    while j < missing.len()
        invariant
            0 <= j <= missing.len(),
            r@ == there + missing@.take(j as int),
        decreases missing.len() - j,
    {
        r.push(missing[j]);
        j += 1;
        assert(r@ =~= there + missing@.take(j as int));
    }
    assert(missing@.take(j as int) =~= missing@);
    r
}

/// A track with the earlier of the times at which it and the track of the old index under its id
/// were added.
pub open spec fn with_earliest(t: TrackInfo, old_tracks: Seq<TrackInfo>) -> TrackInfo {
    match found(old_tracks, t.id) {
        Some(o) => TrackInfo {
            added_at: if o.added_at < t.added_at {
                o.added_at
            } else {
                t.added_at
            },
            ..t
        },
        None => t,
    }
}

/// Keeps the time at which each track was first added, over a new scan.
pub fn preserve_added_at(new_tracks: &mut TrackMap, old_tracks: &TrackMap)
    requires
        old(new_tracks).wf(),
    ensures
        final(new_tracks).wf(),
        final(new_tracks)@ == old(new_tracks)@.map_values(
            |t: TrackInfo| with_earliest(t, old_tracks@),
        ),
{
    let ghost start = new_tracks@;
    let ghost f = |t: TrackInfo| with_earliest(t, old_tracks@);
    let n = new_tracks.len();
    let mut i: usize = 0;
    while i < n
        invariant
            0 <= i <= n,
            n == start.len(),
            new_tracks.wf(),
            new_tracks@.len() == n,
            f == (|t: TrackInfo| with_earliest(t, old_tracks@)),
            forall|k: int| 0 <= k < i ==> #[trigger] new_tracks@[k] == f(start[k]),
            forall|k: int| i <= k < n ==> #[trigger] new_tracks@[k] == start[k],
        decreases n - i,
    {
        let ghost before = new_tracks@;
        let all = new_tracks.all();
        let added = all[i].added_at;
        assert(crate::state::infos(all@)[i as int] == all@[i as int]@);
        let earliest = match old_tracks.get(all[i].id.as_str()) {
            Some(o) => if o.added_at < added {
                o.added_at
            } else {
                added
            },
            None => added,
        };
        new_tracks.set_added_at(i, earliest);
        assert(new_tracks@[i as int] == f(start[i as int]));
        i += 1;
    }
    assert(new_tracks@ =~= start.map_values(f));
}

} // verus!
