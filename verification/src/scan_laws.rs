//! What holds of scans whatever the outside adds to them.
use crate::library_db::{
    at_place, content_row, distinct_rows, free_with_fingerprint, is_below, is_guid_text, is_kept,
    is_own, law_removing_a_folder_spares_its_neighbours, lemma_filter_distinct,
    lemma_resolved_rows, lemma_row_at_place, new_row, resolved, row_of, without_place,
    without_prefix, Row,
};
use crate::lists::{
    first_where, lemma_filter_from, lemma_filter_members, lemma_first_where,
    lemma_first_where_props,
};
use crate::metadata::{slashed, track_of, FileInfo, ScannedFile};
use crate::paths::{
    components, is_segment, is_under, joined, law_file_in_a_folder, law_path_below_a_folder,
};
use crate::scan::{
    all_files, changed_place, changes_in_roots, file_infos, has_content, has_place, ids_of_root,
    in_root, indexed, is_known, may_all_be_held, may_answer, may_be_held, may_change_at, may_index,
    may_index_all, may_index_files, may_index_if_known, may_index_known, may_scan, place_to_look,
    root_of, unchanged, underway, with_all_missing_forgotten, with_earliest, with_unseen_forgotten,
    without_below, without_missing, Library, PathChange, Underway,
};
use crate::state::{
    distinct_ids, found, having_id, id_position, law_put_then_get, lemma_filter_keeps_ids_distinct,
    lemma_found_at, put, TrackInfo,
};
use crate::text::starts_with;
use vstd::prelude::*;

verus! {

/// Whether two files, each with its music folder, are at the same place.
pub open spec fn same_place(x: (usize, FileInfo), y: (usize, FileInfo)) -> bool {
    x.0 == y.0 && x.1.relative_path == y.1.relative_path
}

/// Whether no two of some files are at the same place, as in every reading of the music folders.
pub open spec fn distinct_places(files: Seq<(usize, FileInfo)>) -> bool {
    forall|i: int, j: int|
        0 <= i < j < files.len() ==> !same_place(#[trigger] files[i], #[trigger] files[j])
}

/// Whether no other file of a list has the content of one of them.
pub open spec fn is_only_one(files: Seq<(usize, FileInfo)>, i: int) -> bool {
    forall|j: int|
        0 <= j < files.len() && j != i ==> (#[trigger] files[j]).1.hash != files[i].1.hash
}

/// Whether a row has an id, and a file with its content at its place.
pub open spec fn is_row_of(r: Row, id: Seq<char>, x: (usize, FileInfo)) -> bool {
    r.guid == id && r.root == x.0 && r.relative_path == x.1.relative_path && r.fingerprint
        == x.1.hash
}

/// Whether a table has the row of a file under an id.
pub open spec fn has_row(rows: Seq<Row>, id: Seq<char>, x: (usize, FileInfo)) -> bool {
    exists|k: int| 0 <= k < rows.len() && is_row_of(#[trigger] rows[k], id, x)
}

/// Whether the files of one list are at other places than those of another.
spec fn are_apart(a: Seq<(usize, FileInfo)>, b: Seq<(usize, FileInfo)>) -> bool {
    forall|i: int, j: int|
        0 <= i < a.len() && 0 <= j < b.len() ==> !same_place(#[trigger] a[i], #[trigger] b[j])
}

/// Whether some files are those that were indexed from scratch so far: each has its track, its id
/// is held, and the table has its row.
spec fn is_tracked(u: Underway, done: Seq<(usize, FileInfo)>) -> bool {
    &&& distinct_rows(u.rows)
    &&& u.tracks.len() == done.len()
    &&& u.held.len() == done.len()
    &&& forall|a: int|
        0 <= a < done.len() ==> #[trigger] u.tracks[a] == track_of(
            done[a].0,
            done[a].1,
            u.held[a],
        )
    &&& forall|a: int| 0 <= a < done.len() ==> has_row(u.rows, #[trigger] u.held[a], done[a])
}

/// Whether one list goes on where another ends.
spec fn goes_on<A>(a: Seq<A>, b: Seq<A>) -> bool {
    a.len() <= b.len() && b.take(a.len() as int) == a
}

/// Whether each file of a list is in one of two others.
spec fn come_from(
    s: Seq<(usize, FileInfo)>,
    a: Seq<(usize, FileInfo)>,
    b: Seq<(usize, FileInfo)>,
) -> bool {
    forall|i: int| 0 <= i < s.len() ==> a.contains(#[trigger] s[i]) || b.contains(s[i])
}

proof fn lemma_not_found(tracks: Seq<TrackInfo>, id: Seq<char>)
    requires
        forall|i: int| 0 <= i < tracks.len() ==> (#[trigger] tracks[i]).id != id,
    ensures
        found(tracks, id) is None,
        id_position(tracks, id) == tracks.len(),
{
    let p = having_id(id);
    assert forall|k: int| 0 <= k < tracks.len() implies !p(#[trigger] tracks[k]) by {
        assert(tracks[k].id != id);
    }
    lemma_first_where(tracks, p, tracks.len() as int);
}

/// A file at a new place gives one more track, unless the table refuses it.
proof fn lemma_tracked_step(
    u: Underway,
    done: Seq<(usize, FileInfo)>,
    x: (usize, FileInfo),
    fresh: Seq<char>,
    now: u64,
)
    requires
        is_tracked(u, done),
        forall|a: int| 0 <= a < done.len() ==> !same_place(#[trigger] done[a], x),
    ensures
        ({
            let (root, f) = x;
            let after = indexed(u, root, f, fresh, now);
            match resolved(
                u.rows,
                u.held,
                root,
                f.relative_path,
                f.hash,
                f.size_bytes,
                fresh,
                now,
            ) {
                Ok((rows, id)) => {
                    &&& is_tracked(after, done.push(x))
                    &&& after.tracks == u.tracks.push(track_of(root, f, id))
                    &&& after.held == u.held.push(id)
                    &&& after.rows == rows
                },
                Err(_) => after == u,
            }
        }),
{
    let (root, f) = x;
    let seen = resolved(
        u.rows,
        u.held,
        root,
        f.relative_path,
        f.hash,
        f.size_bytes,
        fresh,
        now,
    );
    if seen is Ok {
        let (t, id) = seen->Ok_0;
        let s = u.rows;
        let q = at_place(root, f.relative_path);
        lemma_resolved_rows(s, u.held, root, f.relative_path, f.hash, f.size_bytes, fresh, now);
        let k = row_of(s, u.held, root, f.relative_path, f.hash);
        let after = indexed(u, root, f, fresh, now);
        let next = done.push(x);
        assert forall|a: int| 0 <= a < done.len() implies has_row(t, #[trigger] u.held[a], done[a])
            && u.held[a] != id by {
            assert(has_row(s, u.held[a], done[a]));
            let n = choose|n: int|
                0 <= n < s.len() && is_row_of(#[trigger] s[n], u.held[a], done[a]);
            assert(!same_place(done[a], x));
            assert(!q(s[n]));
            assert(u.held.contains(s[n].guid));
            assert(n != k);
            assert(t[n] == s[n]);
            assert(is_row_of(t[n], u.held[a], done[a]));
            assert(t[if n < k {
                n
            } else {
                k
            }].guid != t[if n < k {
                k
            } else {
                n
            }].guid);
        }
        assert forall|a: int| 0 <= a < u.tracks.len() implies (#[trigger] u.tracks[a]).id != id by {
            assert(u.held[a] != id);
        }
        lemma_not_found(u.tracks, id);
        assert(after.tracks == u.tracks.push(track_of(root, f, id)));
        assert(is_row_of(t[k], id, x));
        assert forall|a: int| 0 <= a < next.len() implies has_row(
            after.rows,
            #[trigger] after.held[a],
            next[a],
        ) by {
            if a < done.len() {
                assert(after.held[a] == u.held[a]);
            }
        }
        assert forall|a: int| 0 <= a < next.len() implies #[trigger] after.tracks[a] == track_of(
            next[a].0,
            next[a].1,
            after.held[a],
        ) by {
            if a < done.len() {
                assert(after.tracks[a] == u.tracks[a]);
            }
        }
    }
}

proof fn lemma_come_from_push(
    s: Seq<(usize, FileInfo)>,
    done: Seq<(usize, FileInfo)>,
    files: Seq<(usize, FileInfo)>,
)
    requires
        files.len() > 0,
        come_from(s, done, files.drop_last()),
    ensures
        come_from(s, done, files),
        come_from(s.push(files.last()), done, files),
{
    let front = files.drop_last();
    assert forall|i: int| 0 <= i < s.len() implies done.contains(#[trigger] s[i])
        || files.contains(s[i]) by {
        if front.contains(s[i]) {
            let k = choose|k: int| 0 <= k < front.len() && front[k] == s[i];
            assert(files[k] == s[i]);
        }
    }
    let t = s.push(files.last());
    assert forall|i: int| 0 <= i < t.len() implies done.contains(#[trigger] t[i])
        || files.contains(t[i]) by {
        if i < s.len() {
            assert(t[i] == s[i]);
        } else {
            assert(files[files.len() - 1] == t[i]);
        }
    }
}

proof fn lemma_come_from_apart(
    s: Seq<(usize, FileInfo)>,
    done: Seq<(usize, FileInfo)>,
    files: Seq<(usize, FileInfo)>,
    rest: Seq<(usize, FileInfo)>,
)
    requires
        come_from(s, done, files),
        are_apart(done, rest),
        are_apart(files, rest),
    ensures
        are_apart(s, rest),
{
    assert forall|i: int, j: int| 0 <= i < s.len() && 0 <= j < rest.len() implies !same_place(
        #[trigger] s[i],
        #[trigger] rest[j],
    ) by {
        if done.contains(s[i]) {
            let k = choose|k: int| 0 <= k < done.len() && done[k] == s[i];
            assert(!same_place(done[k], rest[j]));
        } else {
            let k = choose|k: int| 0 <= k < files.len() && files[k] == s[i];
            assert(!same_place(files[k], rest[j]));
        }
    }
}

/// The last of some files, with the others before it.
proof fn lemma_last_apart(done: Seq<(usize, FileInfo)>, files: Seq<(usize, FileInfo)>)
    requires
        files.len() > 0,
        distinct_places(files),
        are_apart(done, files),
    ensures
        distinct_places(files.drop_last()),
        are_apart(done, files.drop_last()),
        are_apart(done, seq![files.last()]),
        are_apart(files.drop_last(), seq![files.last()]),
{
    let front = files.drop_last();
    let one = seq![files.last()];
    assert forall|i: int, j: int| 0 <= i < j < front.len() implies !same_place(
        #[trigger] front[i],
        #[trigger] front[j],
    ) by {
        assert(!same_place(files[i], files[j]));
    }
    assert forall|i: int, j: int| 0 <= i < done.len() && 0 <= j < front.len() implies !same_place(
        #[trigger] done[i],
        #[trigger] front[j],
    ) by {
        assert(!same_place(done[i], files[j]));
    }
    assert forall|i: int, j: int| 0 <= i < done.len() && 0 <= j < one.len() implies !same_place(
        #[trigger] done[i],
        #[trigger] one[j],
    ) by {
        assert(!same_place(done[i], files[files.len() - 1]));
    }
    assert forall|i: int, j: int| 0 <= i < front.len() && 0 <= j < one.len() implies !same_place(
        #[trigger] front[i],
        #[trigger] one[j],
    ) by {
        assert(!same_place(files[i], files[files.len() - 1]));
    }
}

/// Indexing files at new places gives the tracks of those that the table does not refuse.
proof fn lemma_index_all(
    u: Underway,
    files: Seq<(usize, FileInfo)>,
    after: Underway,
    done: Seq<(usize, FileInfo)>,
) -> (next: Seq<(usize, FileInfo)>)
    requires
        is_tracked(u, done),
        distinct_places(files),
        are_apart(done, files),
        may_index_all(u, files, after),
    ensures
        is_tracked(after, next),
        come_from(next, done, files),
        goes_on(u.tracks, after.tracks),
    decreases files.len(),
{
    if files.len() == 0 {
        assert(u.tracks.take(u.tracks.len() as int) =~= u.tracks);
        assert forall|i: int| 0 <= i < done.len() implies done.contains(#[trigger] done[i]) by {}
        done
    } else {
        let front = files.drop_last();
        let x = files.last();
        let mid = choose|mid: Underway|
            may_index_all(u, front, mid) && #[trigger] may_index(mid, x.0, x.1, after);
        lemma_last_apart(done, files);
        let before = lemma_index_all(u, front, mid, done);
        lemma_index_one(mid, before, x, after, done, front, files)
    }
}

/// One more of some files.
proof fn lemma_index_one(
    mid: Underway,
    before: Seq<(usize, FileInfo)>,
    x: (usize, FileInfo),
    after: Underway,
    done: Seq<(usize, FileInfo)>,
    front: Seq<(usize, FileInfo)>,
    files: Seq<(usize, FileInfo)>,
) -> (next: Seq<(usize, FileInfo)>)
    requires
        files.len() > 0,
        front == files.drop_last(),
        x == files.last(),
        is_tracked(mid, before),
        come_from(before, done, front),
        are_apart(done, seq![x]),
        are_apart(front, seq![x]),
        may_index(mid, x.0, x.1, after),
    ensures
        is_tracked(after, next),
        come_from(next, done, files),
        next == before || next == before.push(x),
        forall|s: Seq<TrackInfo>| goes_on(s, mid.tracks) ==> goes_on(s, after.tracks),
        after == mid || exists|fresh: Seq<char>, now: u64|
            resolved(
                mid.rows,
                mid.held,
                x.0,
                x.1.relative_path,
                x.1.hash,
                x.1.size_bytes,
                fresh,
                now,
            ) is Ok && after == #[trigger] indexed(mid, x.0, x.1, fresh, now) && after.tracks
                == mid.tracks.push(
                track_of(
                    x.0,
                    x.1,
                    resolved(
                        mid.rows,
                        mid.held,
                        x.0,
                        x.1.relative_path,
                        x.1.hash,
                        x.1.size_bytes,
                        fresh,
                        now,
                    )->Ok_0.1,
                ),
            ),
        is_known(mid, x.0, x.1) ==> next == before.push(x),
{
    let (fresh, now) = choose|fresh: Seq<char>, now: u64|
        after == #[trigger] indexed(mid, x.0, x.1, fresh, now);
    lemma_come_from_apart(before, done, front, seq![x]);
    assert forall|a: int| 0 <= a < before.len() implies !same_place(#[trigger] before[a], x) by {
        assert(!same_place(before[a], seq![x][0]));
    }
    lemma_tracked_step(mid, before, x, fresh, now);
    lemma_come_from_push(before, done, files);
    let seen = resolved(
        mid.rows,
        mid.held,
        x.0,
        x.1.relative_path,
        x.1.hash,
        x.1.size_bytes,
        fresh,
        now,
    );
    assert forall|s: Seq<TrackInfo>| goes_on(s, mid.tracks) implies goes_on(s, after.tracks) by {
        assert(after.tracks.take(s.len() as int) =~= mid.tracks.take(s.len() as int));
    }
    if seen is Ok {
        before.push(x)
    } else {
        before
    }
}

/// Whether two tables have the same ids, contents and places.
spec fn same_rows(a: Seq<Row>, b: Seq<Row>) -> bool {
    &&& same_contents(a, b)
    &&& forall|i: int|
        0 <= i < a.len() ==> (#[trigger] a[i]).root == b[i].root && a[i].relative_path
            == b[i].relative_path
}

/// Whether two tables have the same ids and contents.
spec fn same_contents(a: Seq<Row>, b: Seq<Row>) -> bool {
    &&& a.len() == b.len()
    &&& forall|i: int|
        0 <= i < a.len() ==> (#[trigger] a[i]).guid == b[i].guid && a[i].fingerprint
            == b[i].fingerprint
}

/// Whether the place of a file is known with its content.
pub open spec fn is_unchanged(rows: Seq<Row>, x: (usize, FileInfo)) -> bool {
    is_own(rows, x.0, x.1.relative_path, x.1.hash)
}

/// The id of the place of a file.
pub open spec fn place_id(rows: Seq<Row>, x: (usize, FileInfo)) -> Seq<char> {
    rows[first_where(rows, at_place(x.0, x.1.relative_path))].guid
}

proof fn lemma_same_place_row(a: Seq<Row>, b: Seq<Row>, x: (usize, FileInfo))
    requires
        same_rows(a, b),
    ensures
        first_where(a, at_place(x.0, x.1.relative_path)) == first_where(
            b,
            at_place(x.0, x.1.relative_path),
        ),
        is_unchanged(a, x) == is_unchanged(b, x),
        is_unchanged(b, x) ==> place_id(a, x) == place_id(b, x),
{
    let q = at_place(x.0, x.1.relative_path);
    lemma_first_where_props(b, q);
    let h = first_where(b, q);
    assert forall|k: int| 0 <= k < h implies !q(#[trigger] a[k]) by {
        assert(!q(b[k]));
    }
    if h < b.len() {
        assert(q(b[h]));
        assert(a[h].root == b[h].root);
    }
    lemma_first_where(a, q, h);
}

/// Indexing files that are where they were gives each of them its track under the id of its place
/// and leaves the table as it was, but for the times.
proof fn lemma_unchanged_files(
    rows: Seq<Row>,
    u: Underway,
    files: Seq<(usize, FileInfo)>,
    after: Underway,
    done: Seq<(usize, FileInfo)>,
)
    requires
        is_tracked(u, done),
        distinct_places(files),
        are_apart(done, files),
        same_rows(u.rows, rows),
        forall|i: int| 0 <= i < files.len() ==> is_unchanged(rows, #[trigger] files[i]),
        may_index_all(u, files, after),
    ensures
        is_tracked(after, done + files),
        same_rows(after.rows, rows),
        after.tracks.len() == u.tracks.len() + files.len(),
        goes_on(u.tracks, after.tracks),
        forall|i: int|
            0 <= i < files.len() ==> after.tracks[u.tracks.len() + i] == track_of(
                (#[trigger] files[i]).0,
                files[i].1,
                place_id(rows, files[i]),
            ),
    decreases files.len(),
{
    if files.len() == 0 {
        assert(done + files =~= done);
        assert(u.tracks.take(u.tracks.len() as int) =~= u.tracks);
    } else {
        let front = files.drop_last();
        let x = files.last();
        let mid = choose|mid: Underway|
            may_index_all(u, front, mid) && #[trigger] may_index(mid, x.0, x.1, after);
        lemma_last_apart(done, files);
        assert forall|i: int| 0 <= i < front.len() implies is_unchanged(
            rows,
            #[trigger] front[i],
        ) by {
            assert(front[i] == files[i]);
        }
        lemma_unchanged_files(rows, u, front, mid, done);
        let before = done + front;
        let (fresh, now) = choose|fresh: Seq<char>, now: u64|
            after == #[trigger] indexed(mid, x.0, x.1, fresh, now);
        assert forall|a: int| 0 <= a < before.len() implies !same_place(
            #[trigger] before[a],
            x,
        ) by {
            assert(seq![x][0] == x);
            if a < done.len() {
                assert(!same_place(done[a], seq![x][0]));
            } else {
                assert(!same_place(front[a - done.len()], seq![x][0]));
            }
        }
        assert(is_unchanged(rows, files[files.len() - 1]));
        lemma_same_place_row(mid.rows, rows, x);
        lemma_first_where_props(mid.rows, at_place(x.0, x.1.relative_path));
        lemma_tracked_step(mid, before, x, fresh, now);
        let h = first_where(mid.rows, at_place(x.0, x.1.relative_path));
        assert(at_place(x.0, x.1.relative_path)(mid.rows[h]));
        assert(same_rows(after.rows, rows)) by {
            assert forall|i: int| 0 <= i < after.rows.len() implies (#[trigger] after.rows[i]).guid
                == rows[i].guid && after.rows[i].fingerprint == rows[i].fingerprint
                && after.rows[i].root == rows[i].root && after.rows[i].relative_path
                == rows[i].relative_path by {
                assert(mid.rows[i].guid == rows[i].guid);
            }
        }
        assert(before.push(x) =~= done + files);
        assert(after.tracks.take(u.tracks.len() as int) =~= mid.tracks.take(
            u.tracks.len() as int,
        ));
        assert forall|i: int| 0 <= i < files.len() implies after.tracks[u.tracks.len() + i]
            == track_of((#[trigger] files[i]).0, files[i].1, place_id(rows, files[i])) by {
            if i < front.len() {
                assert(files[i] == front[i]);
            }
        }
    }
}

/// Whether a row is the only one of a content.
pub open spec fn is_only_row(rows: Seq<Row>, k: int, hash: Seq<char>) -> bool {
    &&& 0 <= k < rows.len()
    &&& rows[k].fingerprint == hash
    &&& forall|i: int| 0 <= i < rows.len() && i != k ==> (#[trigger] rows[i]).fingerprint != hash
}

/// A file whose content has one row, which no indexed file has, is known by that row.
proof fn lemma_known_by_only_row(
    rows: Seq<Row>,
    u: Underway,
    done: Seq<(usize, FileInfo)>,
    x: (usize, FileInfo),
    k: int,
)
    requires
        is_tracked(u, done),
        same_contents(u.rows, rows),
        is_only_row(rows, k, x.1.hash),
        forall|a: int| 0 <= a < done.len() ==> (#[trigger] done[a]).1.hash != x.1.hash,
    ensures
        is_known(u, x.0, x.1),
        content_row(u.rows, u.held, x.0, x.1.relative_path, x.1.hash) == k,
        u.rows[k].guid == rows[k].guid,
{
    let s = u.rows;
    let hash = x.1.hash;
    let p = free_with_fingerprint(hash, u.held);
    let q = at_place(x.0, x.1.relative_path);
    lemma_first_where_props(s, p);
    lemma_first_where_props(s, q);
    assert(s[k].guid == rows[k].guid);
    assert(!u.held.contains(s[k].guid)) by {
        if u.held.contains(s[k].guid) {
            let a = choose|a: int| 0 <= a < u.held.len() && u.held[a] == s[k].guid;
            assert(has_row(s, u.held[a], done[a]));
            let n = choose|n: int|
                0 <= n < s.len() && is_row_of(#[trigger] s[n], u.held[a], done[a]);
            assert(s[n].guid == rows[n].guid);
            if n != k {
                assert(s[if n < k {
                    n
                } else {
                    k
                }].guid != s[if n < k {
                    k
                } else {
                    n
                }].guid);
            }
            assert(done[a].1.hash != hash);
        }
    }
    assert(p(s[k]));
    let c = content_row(s, u.held, x.0, x.1.relative_path, hash);
    if c != k {
        assert(s[c].fingerprint == hash);
        assert(rows[c].fingerprint == s[c].fingerprint);
    }
}

/// Indexing the files whose contents are known: no id and no content of the table changes, what is
/// left is apart from what was indexed, and a file whose content is that of one row only gets the
/// id of that row.
proof fn lemma_known_files(
    rows: Seq<Row>,
    u: Underway,
    files: Seq<(usize, FileInfo)>,
    after: Underway,
    left: Seq<(usize, FileInfo)>,
    done: Seq<(usize, FileInfo)>,
) -> (next: Seq<(usize, FileInfo)>)
    requires
        is_tracked(u, done),
        distinct_places(files),
        are_apart(done, files),
        same_contents(u.rows, rows),
        may_index_known(u, files, after, left),
    ensures
        is_tracked(after, next),
        come_from(next, done, files),
        same_contents(after.rows, rows),
        goes_on(u.tracks, after.tracks),
        distinct_places(left),
        are_apart(next, left),
        come_from(left, files, files),
        forall|j: int, k: int|
            0 <= j < files.len() && is_only_one(files, j) && #[trigger] is_only_row(
                rows,
                k,
                (#[trigger] files[j]).1.hash,
            ) && (forall|a: int| 0 <= a < done.len() ==> (#[trigger] done[a]).1.hash
                != files[j].1.hash) ==> after.tracks.contains(
                track_of(files[j].0, files[j].1, rows[k].guid),
            ),
    decreases files.len(),
{
    if files.len() == 0 {
        assert(u.tracks.take(u.tracks.len() as int) =~= u.tracks);
        assert forall|i: int| 0 <= i < done.len() implies done.contains(#[trigger] done[i]) by {}
        done
    } else {
        let front = files.drop_last();
        let x = files.last();
        let (mid, l) = choose|mid: Underway, l: Seq<(usize, FileInfo)>|
            may_index_known(u, front, mid, l) && #[trigger] may_index_if_known(
                mid,
                l,
                x,
                after,
                left,
            );
        lemma_last_apart(done, files);
        let before = lemma_known_files(rows, u, front, mid, l, done);
        lemma_come_from_apart(before, done, front, seq![x]);
        lemma_come_from_apart(l, front, front, seq![x]);
        lemma_come_from_push(l, files, files);
        let known = is_known(mid, x.0, x.1);
        let next = if known {
            lemma_index_one(mid, before, x, after, done, front, files)
        } else {
            lemma_come_from_push(before, done, files);
            before
        };
        assert(come_from(l, files, files)) by {
            assert forall|i: int| 0 <= i < l.len() implies files.contains(#[trigger] l[i]) by {
                assert(front.contains(l[i]));
                let k = choose|k: int| 0 <= k < front.len() && front[k] == l[i];
                assert(files[k] == l[i]);
            }
        }
        if known {
            assert(next == before.push(x));
            lemma_known_step_keeps_contents(rows, mid, before, x, after);
        }
        assert(come_from(left, files, files)) by {
            assert forall|i: int| 0 <= i < left.len() implies files.contains(
                #[trigger] left[i],
            ) by {
                if i < l.len() {
                    assert(left[i] == l[i]);
                    assert(files.contains(l[i]));
                } else {
                    assert(files[files.len() - 1] == left[i]);
                }
            }
        }
        assert forall|i: int, j: int| 0 <= i < j < left.len() implies !same_place(
            #[trigger] left[i],
            #[trigger] left[j],
        ) by {
            if j < l.len() {
                assert(!same_place(l[i], l[j]));
            } else {
                assert(!same_place(l[i], seq![x][0]));
            }
        }
        assert forall|i: int, j: int|
            0 <= i < next.len() && 0 <= j < left.len() implies !same_place(
            #[trigger] next[i],
            #[trigger] left[j],
        ) by {
            if i < before.len() {
                if j < l.len() {
                    assert(!same_place(before[i], l[j]));
                } else {
                    assert(!same_place(before[i], seq![x][0]));
                }
            } else {
                assert(!same_place(l[j], seq![x][0]));
            }
        }
        assert forall|j: int, k: int|
            0 <= j < files.len() && is_only_one(files, j) && #[trigger] is_only_row(
                rows,
                k,
                (#[trigger] files[j]).1.hash,
            ) && (forall|a: int| 0 <= a < done.len() ==> (#[trigger] done[a]).1.hash
                != files[j].1.hash) implies after.tracks.contains(
            track_of(files[j].0, files[j].1, rows[k].guid),
        ) by {
            let t = track_of(files[j].0, files[j].1, rows[k].guid);
            if j < front.len() {
                assert(files[j] == front[j]);
                assert(is_only_one(front, j)) by {
                    assert forall|i: int| 0 <= i < front.len() && i != j implies (
                    #[trigger] front[i]).1.hash != front[j].1.hash by {
                        assert(front[i] == files[i]);
                    }
                }
                assert(is_only_row(rows, k, front[j].1.hash));
                assert(mid.tracks.contains(t));
                let a = choose|a: int| 0 <= a < mid.tracks.len() && mid.tracks[a] == t;
                if known {
                    assert(goes_on(mid.tracks, mid.tracks)) by {
                        assert(mid.tracks.take(mid.tracks.len() as int) =~= mid.tracks);
                    }
                    assert(goes_on(mid.tracks, after.tracks));
                    assert(after.tracks.take(mid.tracks.len() as int)[a] == after.tracks[a]);
                }
                assert(after.tracks[a] == t);
            } else {
                assert(files[j] == x);
                assert forall|a: int| 0 <= a < before.len() implies (#[trigger] before[a]).1.hash
                    != x.1.hash by {
                    if done.contains(before[a]) {
                        let b = choose|b: int| 0 <= b < done.len() && done[b] == before[a];
                        assert(done[b].1.hash != files[j].1.hash);
                    } else {
                        let b = choose|b: int| 0 <= b < front.len() && front[b] == before[a];
                        assert(files[b] == front[b]);
                    }
                }
                lemma_known_by_only_row(rows, mid, before, x, k);
                let (fresh, now) = choose|fresh: Seq<char>, now: u64|
                    after == #[trigger] indexed(mid, x.0, x.1, fresh, now);
                assert forall|a: int| 0 <= a < before.len() implies !same_place(
                    #[trigger] before[a],
                    x,
                ) by {
                    assert(!same_place(before[a], seq![x][0]));
                }
                lemma_tracked_step(mid, before, x, fresh, now);
                assert(after.tracks[mid.tracks.len() as int] == t);
            }
        }
        next
    }
}

/// Seeing a file whose content is known changes no id and no content of the table.
proof fn lemma_known_step_keeps_contents(
    rows: Seq<Row>,
    mid: Underway,
    before: Seq<(usize, FileInfo)>,
    x: (usize, FileInfo),
    after: Underway,
)
    requires
        is_tracked(mid, before),
        same_contents(mid.rows, rows),
        is_known(mid, x.0, x.1),
        may_index(mid, x.0, x.1, after),
    ensures
        same_contents(after.rows, rows),
{
    let (fresh, now) = choose|fresh: Seq<char>, now: u64|
        after == #[trigger] indexed(mid, x.0, x.1, fresh, now);
    let f = x.1;
    lemma_resolved_rows(
        mid.rows,
        mid.held,
        x.0,
        f.relative_path,
        f.hash,
        f.size_bytes,
        fresh,
        now,
    );
    assert forall|i: int| 0 <= i < after.rows.len() implies (#[trigger] after.rows[i]).guid
        == rows[i].guid && after.rows[i].fingerprint == rows[i].fingerprint by {
        assert(mid.rows[i].guid == rows[i].guid);
    }
}

proof fn lemma_filter_places(files: Seq<(usize, FileInfo)>, p: spec_fn((usize, FileInfo)) -> bool)
    requires
        distinct_places(files),
    ensures
        distinct_places(files.filter(p)),
    decreases files.len(),
{
    reveal(Seq::filter);
    if files.len() > 0 {
        let front = files.drop_last();
        assert forall|i: int, j: int| 0 <= i < j < front.len() implies !same_place(
            #[trigger] front[i],
            #[trigger] front[j],
        ) by {
            assert(!same_place(files[i], files[j]));
        }
        lemma_filter_places(front, p);
        let t = files.filter(p);
        let f = front.filter(p);
        assert forall|i: int, j: int| 0 <= i < j < t.len() implies !same_place(
            #[trigger] t[i],
            #[trigger] t[j],
        ) by {
            assert(t[i] == f[i]);
            if j < f.len() {
                assert(t[j] == f[j]);
            } else {
                let k = lemma_filter_from(front, p, i);
                assert(!same_place(files[k], files[files.len() - 1]));
            }
        }
    }
}

/// The files that are where they were and the others are at places of their own.
proof fn lemma_split(rows: Seq<Row>, files: Seq<(usize, FileInfo)>)
    requires
        distinct_places(files),
    ensures
        distinct_places(unchanged(rows, files, true)),
        distinct_places(unchanged(rows, files, false)),
        are_apart(unchanged(rows, files, true), unchanged(rows, files, false)),
        forall|i: int|
            0 <= i < unchanged(rows, files, true).len() ==> is_unchanged(
                rows,
                #[trigger] unchanged(rows, files, true)[i],
            ),
{
    let p = |x: (usize, FileInfo)| is_own(rows, x.0, x.1.relative_path, x.1.hash) == true;
    let q = |x: (usize, FileInfo)| is_own(rows, x.0, x.1.relative_path, x.1.hash) == false;
    lemma_filter_places(files, p);
    lemma_filter_places(files, q);
    let a = files.filter(p);
    let b = files.filter(q);
    assert forall|i: int, j: int| 0 <= i < a.len() && 0 <= j < b.len() implies !same_place(
        #[trigger] a[i],
        #[trigger] b[j],
    ) by {
        let m = lemma_filter_from(files, p, i);
        let n = lemma_filter_from(files, q, j);
        assert(m != n);
        assert(!same_place(
            files[if m < n {
                m
            } else {
                n
            }],
            files[if m < n {
                n
            } else {
                m
            }],
        ));
    }
    assert forall|i: int| 0 <= i < a.len() implies is_unchanged(rows, #[trigger] a[i]) by {
        let m = lemma_filter_from(files, p, i);
    }
}

/// The library before a scan from scratch.
spec fn blank(rows: Seq<Row>) -> Underway {
    Underway { tracks: Seq::empty(), rows, held: Seq::empty() }
}

/// What indexing all files from scratch gives.
proof fn lemma_index_files(
    rows: Seq<Row>,
    files: Seq<(usize, FileInfo)>,
    end: Underway,
) -> (done: Seq<(usize, FileInfo)>)
    requires
        distinct_rows(rows),
        distinct_places(files),
        may_index_files(blank(rows), files, end),
    ensures
        is_tracked(end, done),
        come_from(done, files, files),
        forall|j: int|
            0 <= j < files.len() && is_unchanged(rows, #[trigger] files[j])
                ==> end.tracks.contains(
                track_of(files[j].0, files[j].1, place_id(rows, files[j])),
            ),
        forall|j: int, k: int|
            0 <= j < files.len() && is_only_one(files, j) && #[trigger] is_only_row(
                rows,
                k,
                (#[trigger] files[j]).1.hash,
            ) ==> end.tracks.contains(track_of(files[j].0, files[j].1, rows[k].guid)),
        (forall|j: int| 0 <= j < files.len() ==> is_unchanged(rows, #[trigger] files[j])) ==> {
            &&& end.tracks.len() == files.len()
            &&& forall|j: int|
                0 <= j < files.len() ==> end.tracks[j] == track_of(
                    (#[trigger] files[j]).0,
                    files[j].1,
                    place_id(rows, files[j]),
                )
        },
{
    let start = blank(rows);
    let none = Seq::<(usize, FileInfo)>::empty();
    let same = unchanged(rows, files, true);
    let others = unchanged(rows, files, false);
    let (settled, moved, left) = choose|
        settled: Underway,
        moved: Underway,
        left: Seq<(usize, FileInfo)>,
    |
        {
            &&& may_index_all(start, same, settled)
            &&& #[trigger] may_index_known(settled, others, moved, left)
            &&& #[trigger] may_index_all(moved, left, end)
        };
    lemma_split(rows, files);
    assert(is_tracked(start, none));
    lemma_unchanged_files(rows, start, same, settled, none);
    assert(none + same =~= same);
    let next = lemma_known_files(rows, settled, others, moved, left, same);
    let done = lemma_index_all(moved, left, end, next);
    let p = |x: (usize, FileInfo)| is_own(rows, x.0, x.1.relative_path, x.1.hash) == true;
    let q = |x: (usize, FileInfo)| is_own(rows, x.0, x.1.relative_path, x.1.hash) == false;
    assert forall|i: int| 0 <= i < done.len() implies files.contains(#[trigger] done[i]) by {
        let x = done[i];
        lemma_filter_members(files, p, x);
        lemma_filter_members(files, q, x);
        if next.contains(x) {
            let a = choose|a: int| 0 <= a < next.len() && next[a] == x;
            assert(same.contains(next[a]) || others.contains(next[a]));
        } else {
            let b = choose|b: int| 0 <= b < left.len() && left[b] == x;
            assert(others.contains(left[b]));
        }
    }
    assert forall|t: TrackInfo| settled.tracks.contains(t) implies end.tracks.contains(t) by {
        let a = choose|a: int| 0 <= a < settled.tracks.len() && settled.tracks[a] == t;
        assert(moved.tracks.take(settled.tracks.len() as int)[a] == t);
        assert(moved.tracks[a] == t);
        assert(end.tracks.take(moved.tracks.len() as int)[a] == t);
        assert(end.tracks[a] == t);
    }
    assert forall|t: TrackInfo| moved.tracks.contains(t) implies end.tracks.contains(t) by {
        let a = choose|a: int| 0 <= a < moved.tracks.len() && moved.tracks[a] == t;
        assert(end.tracks.take(moved.tracks.len() as int)[a] == t);
        assert(end.tracks[a] == t);
    }
    assert forall|j: int| 0 <= j < files.len() && is_unchanged(rows, #[trigger] files[j]) implies
        end.tracks.contains(track_of(files[j].0, files[j].1, place_id(rows, files[j]))) by {
        lemma_filter_members(files, p, files[j]);
        assert(files.contains(files[j]));
        let i = choose|i: int| 0 <= i < same.len() && same[i] == files[j];
        assert(settled.tracks[start.tracks.len() + i] == track_of(
            same[i].0,
            same[i].1,
            place_id(rows, same[i]),
        ));
    }
    assert forall|j: int, k: int|
        0 <= j < files.len() && is_only_one(files, j) && #[trigger] is_only_row(
            rows,
            k,
            (#[trigger] files[j]).1.hash,
        ) implies end.tracks.contains(track_of(files[j].0, files[j].1, rows[k].guid)) by {
        let x = files[j];
        lemma_filter_members(files, p, x);
        lemma_filter_members(files, q, x);
        assert(files.contains(x));
        if is_unchanged(rows, x) {
            let h = first_where(rows, at_place(x.0, x.1.relative_path));
            lemma_first_where_props(rows, at_place(x.0, x.1.relative_path));
            assert(rows[h].fingerprint == x.1.hash);
            assert(h == k);
        } else {
            assert(others.contains(x));
            let i = choose|i: int| 0 <= i < others.len() && others[i] == x;
            assert(is_only_one(others, i)) by {
                assert forall|m: int| 0 <= m < others.len() && m != i implies (
                #[trigger] others[m]).1.hash != others[i].1.hash by {
                    let n = lemma_filter_from(files, q, m);
                    if n == j {
                        assert(same_place(others[m], others[i]));
                        assert(!same_place(
                            others[if m < i {
                                m
                            } else {
                                i
                            }],
                            others[if m < i {
                                i
                            } else {
                                m
                            }],
                        ));
                    }
                }
            }
            assert forall|a: int| 0 <= a < same.len() implies (#[trigger] same[a]).1.hash
                != x.1.hash by {
                let n = lemma_filter_from(files, p, a);
                assert(n != j);
            }
            assert(is_only_row(rows, k, others[i].1.hash));
            assert(moved.tracks.contains(track_of(others[i].0, others[i].1, rows[k].guid)));
        }
    }
    if forall|j: int| 0 <= j < files.len() ==> is_unchanged(rows, #[trigger] files[j]) {
        assert(same =~= files) by {
            crate::lists::lemma_filter_all(files, p);
        }
        assert(others.len() == 0) by {
            if others.len() > 0 {
                let n = lemma_filter_from(files, q, 0);
                assert(is_unchanged(rows, files[n]));
            }
        }
        assert(moved == settled && left.len() == 0);
        assert(end == moved);
    }
    done
}

/// What is forgotten after a scan: the rows of the ids that were not seen in their folders.
proof fn lemma_forgotten_members(lib: Library, roots: nat, r: Row)
    requires
        roots <= usize::MAX,
    ensures
        with_all_missing_forgotten(lib, roots).tracks == lib.tracks,
        with_all_missing_forgotten(lib, roots).rows.contains(r) <==> lib.rows.contains(r) && (
        r.root < roots ==> ids_of_root(lib.tracks, r.root).contains(r.guid)),
    decreases roots,
{
    if roots > 0 {
        let before = with_all_missing_forgotten(lib, (roots - 1) as nat);
        let root = (roots - 1) as usize;
        lemma_forgotten_members(lib, (roots - 1) as nat, r);
        lemma_filter_members(
            before.rows,
            |x: Row| is_kept(x, root, ids_of_root(before.tracks, root)),
            r,
        );
    }
}

proof fn lemma_forgotten_distinct(lib: Library, roots: nat)
    requires
        distinct_rows(lib.rows),
    ensures
        distinct_rows(with_all_missing_forgotten(lib, roots).rows),
    decreases roots,
{
    if roots > 0 {
        let before = with_all_missing_forgotten(lib, (roots - 1) as nat);
        let root = (roots - 1) as usize;
        lemma_forgotten_distinct(lib, (roots - 1) as nat);
        lemma_filter_distinct(
            before.rows,
            |x: Row| is_kept(x, root, ids_of_root(before.tracks, root)),
        );
    }
}

proof fn lemma_unseen_members(lib: Library, roots: nat, r: Row)
    requires
        roots <= usize::MAX,
    ensures
        with_unseen_forgotten(lib, roots).rows.contains(r) <==> lib.rows.contains(r) && r.root
            < roots && ids_of_root(lib.tracks, r.root).contains(r.guid),
{
    lemma_forgotten_members(lib, roots, r);
    lemma_filter_members(
        with_all_missing_forgotten(lib, roots).rows,
        |x: Row| x.root < roots,
        r,
    );
}

/// The ids of the tracks of a folder, as a list of its own.
proof fn lemma_ids_of_root(tracks: Seq<TrackInfo>, root: usize, id: Seq<char>)
    ensures
        ids_of_root(tracks, root).contains(id) <==> exists|i: int|
            0 <= i < tracks.len() && (#[trigger] tracks[i]).root == root && tracks[i].id == id,
{
    let p = |t: TrackInfo| t.root == root;
    let kept = tracks.filter(p);
    let ids = ids_of_root(tracks, root);
    if ids.contains(id) {
        let k = choose|k: int| 0 <= k < ids.len() && ids[k] == id;
        let i = lemma_filter_from(tracks, p, k);
        assert(tracks[i].root == root && tracks[i].id == id);
    }
    if exists|i: int|
        0 <= i < tracks.len() && (#[trigger] tracks[i]).root == root && tracks[i].id == id {
        let i = choose|i: int|
            0 <= i < tracks.len() && (#[trigger] tracks[i]).root == root && tracks[i].id == id;
        lemma_filter_members(tracks, p, tracks[i]);
        assert(tracks.contains(tracks[i]));
        let k = choose|k: int| 0 <= k < kept.len() && kept[k] == tracks[i];
        assert(ids[k] == id);
    }
}

proof fn lemma_all_files_roots(files: Seq<Seq<FileInfo>>, i: int)
    requires
        files.len() <= usize::MAX,
        0 <= i < all_files(files).len(),
    ensures
        all_files(files)[i].0 < files.len(),
    decreases files.len(),
{
    if files.len() > 0 {
        let front = all_files(files.drop_last());
        if i < front.len() {
            lemma_all_files_roots(files.drop_last(), i);
            assert(all_files(files)[i] == front[i]);
        }
    }
}

/// What a scan from scratch gives, once the unseen files are forgotten.
proof fn lemma_scan(rows: Seq<Row>, files: Seq<Seq<FileInfo>>, after: Library) -> (r: (
    Underway,
    Seq<(usize, FileInfo)>,
))
    requires
        distinct_rows(rows),
        distinct_places(all_files(files)),
        may_scan(rows, files, after),
    ensures
        may_index_files(blank(rows), all_files(files), r.0),
        after == with_unseen_forgotten(
            Library { tracks: r.0.tracks, rows: r.0.rows },
            files.len(),
        ),
        is_tracked(r.0, r.1),
        come_from(r.1, all_files(files), all_files(files)),
        distinct_rows(after.rows),
        after.tracks == r.0.tracks,
{
    let end = choose|end: Underway|
        {
            &&& #[trigger] may_index_files(
                Underway { tracks: Seq::empty(), rows, held: Seq::empty() },
                all_files(files),
                end,
            )
            &&& after == with_unseen_forgotten(
                Library { tracks: end.tracks, rows: end.rows },
                files.len(),
            )
        };
    let done = lemma_index_files(rows, all_files(files), end);
    let lib = Library { tracks: end.tracks, rows: end.rows };
    lemma_forgotten_distinct(lib, files.len());
    let roots = files.len();
    lemma_filter_distinct(
        with_all_missing_forgotten(lib, roots).rows,
        |x: Row| x.root < roots,
    );
    (end, done)
}

/// After a scan every track is that of a file that was read, and the table has the row of that file
/// under its id.
pub proof fn law_every_track_has_its_row(
    rows: Seq<Row>,
    files: Seq<Seq<FileInfo>>,
    after: Library,
    t: TrackInfo,
)
    requires
        files.len() <= usize::MAX,
        distinct_rows(rows),
        distinct_places(all_files(files)),
        may_scan(rows, files, after),
        after.tracks.contains(t),
    ensures
        distinct_rows(after.rows),
        exists|j: int|
            {
                &&& 0 <= j < all_files(files).len()
                &&& t == track_of(
                    (#[trigger] all_files(files)[j]).0,
                    all_files(files)[j].1,
                    t.id,
                )
                &&& has_row(after.rows, t.id, all_files(files)[j])
            },
{
    let all = all_files(files);
    let (end, done) = lemma_scan(rows, files, after);
    let lib = Library { tracks: end.tracks, rows: end.rows };
    let a = choose|a: int| 0 <= a < end.tracks.len() && end.tracks[a] == t;
    assert(end.tracks[a] == track_of(done[a].0, done[a].1, end.held[a]));
    assert(all.contains(done[a]));
    let j = choose|j: int| 0 <= j < all.len() && all[j] == done[a];
    assert(has_row(end.rows, end.held[a], done[a]));
    let k = choose|k: int|
        0 <= k < end.rows.len() && is_row_of(#[trigger] end.rows[k], end.held[a], done[a]);
    let r = end.rows[k];
    lemma_all_files_roots(files, j);
    lemma_unseen_members(lib, files.len(), r);
    lemma_ids_of_root(lib.tracks, r.root, r.guid);
    assert(lib.tracks[a].root == r.root && lib.tracks[a].id == r.guid);
    assert(end.rows.contains(r));
    let n = choose|n: int| 0 <= n < after.rows.len() && after.rows[n] == r;
    assert(is_row_of(after.rows[n], t.id, all[j]));
    assert(t == track_of(all[j].0, all[j].1, t.id));
}

/// After a scan the table has no other rows than those of the tracks: what was not found is
/// forgotten, also of music folders that are no longer configured.
pub proof fn law_scan_leaves_no_stale_rows(
    rows: Seq<Row>,
    files: Seq<Seq<FileInfo>>,
    after: Library,
    r: Row,
)
    requires
        files.len() <= usize::MAX,
        distinct_rows(rows),
        distinct_places(all_files(files)),
        may_scan(rows, files, after),
        after.rows.contains(r),
    ensures
        exists|j: int|
            {
                &&& 0 <= j < all_files(files).len()
                &&& is_row_of(r, r.guid, #[trigger] all_files(files)[j])
                &&& after.tracks.contains(
                    track_of(all_files(files)[j].0, all_files(files)[j].1, r.guid),
                )
            },
{
    let all = all_files(files);
    let (end, done) = lemma_scan(rows, files, after);
    let lib = Library { tracks: end.tracks, rows: end.rows };
    lemma_unseen_members(lib, files.len(), r);
    lemma_ids_of_root(lib.tracks, r.root, r.guid);
    let a = choose|a: int|
        0 <= a < lib.tracks.len() && (#[trigger] lib.tracks[a]).root == r.root && lib.tracks[a].id
            == r.guid;
    assert(end.tracks[a] == track_of(done[a].0, done[a].1, end.held[a]));
    assert(has_row(end.rows, end.held[a], done[a]));
    let k = choose|k: int|
        0 <= k < end.rows.len() && is_row_of(#[trigger] end.rows[k], end.held[a], done[a]);
    let n = choose|n: int| 0 <= n < end.rows.len() && end.rows[n] == r;
    if n != k {
        assert(end.rows[if n < k {
            n
        } else {
            k
        }].guid != end.rows[if n < k {
            k
        } else {
            n
        }].guid);
    }
    assert(all.contains(done[a]));
    let j = choose|j: int| 0 <= j < all.len() && all[j] == done[a];
    assert(is_row_of(r, r.guid, all[j]));
    assert(after.tracks[a] == track_of(all[j].0, all[j].1, r.guid));
}

/// A scan gives a file that is where it was, with its content, its track under the id of its row,
/// whatever else has changed and whatever other files have the same content.
pub proof fn law_unchanged_file_keeps_its_id(
    rows: Seq<Row>,
    files: Seq<Seq<FileInfo>>,
    after: Library,
    j: int,
    k: int,
)
    requires
        distinct_rows(rows),
        distinct_places(all_files(files)),
        may_scan(rows, files, after),
        0 <= j < all_files(files).len(),
        0 <= k < rows.len(),
        is_row_of(rows[k], rows[k].guid, all_files(files)[j]),
    ensures
        after.tracks.contains(
            track_of(all_files(files)[j].0, all_files(files)[j].1, rows[k].guid),
        ),
{
    let all = all_files(files);
    let (end, done) = lemma_scan(rows, files, after);
    let again = lemma_index_files(rows, all, end);
    lemma_row_at_place(rows, k);
    assert(is_unchanged(rows, all[j]));
}

/// A scan gives a file whose content has one row in the table and stands in no other file its track
/// under the id of that row, wherever the file is found, whatever was known at that place, and
/// whatever else has changed.
pub proof fn law_known_content_keeps_its_id(
    rows: Seq<Row>,
    files: Seq<Seq<FileInfo>>,
    after: Library,
    j: int,
    k: int,
)
    requires
        distinct_rows(rows),
        distinct_places(all_files(files)),
        may_scan(rows, files, after),
        0 <= j < all_files(files).len(),
        is_only_one(all_files(files), j),
        is_only_row(rows, k, all_files(files)[j].1.hash),
    ensures
        after.tracks.contains(
            track_of(all_files(files)[j].0, all_files(files)[j].1, rows[k].guid),
        ),
{
    let all = all_files(files);
    let (end, done) = lemma_scan(rows, files, after);
    let again = lemma_index_files(rows, all, end);
    assert(is_only_row(rows, k, all[j].1.hash));
}

/// Once two scans have run, a file has the id that it had, however it was renamed or moved in
/// between, within its music folder or to another one, whatever was at its new place before and
/// whatever stands at its old one now: where it is still at its place, or where no other file had
/// or has its content. Nothing is asked of the other files.
pub proof fn law_rescan_keeps_the_id_of_a_file(
    rows: Seq<Row>,
    files: Seq<Seq<FileInfo>>,
    first: Library,
    later_files: Seq<Seq<FileInfo>>,
    second: Library,
    i: int,
    j: int,
    id: Seq<char>,
)
    requires
        files.len() <= usize::MAX,
        distinct_rows(rows),
        distinct_places(all_files(files)),
        distinct_places(all_files(later_files)),
        may_scan(rows, files, first),
        may_scan(first.rows, later_files, second),
        0 <= i < all_files(files).len(),
        0 <= j < all_files(later_files).len(),
        first.tracks.contains(track_of(all_files(files)[i].0, all_files(files)[i].1, id)),
        all_files(files)[i].1.hash == all_files(later_files)[j].1.hash,
        same_place(all_files(files)[i], all_files(later_files)[j]) || (is_only_one(
            all_files(files),
            i,
        ) && is_only_one(all_files(later_files), j)),
    ensures
        second.tracks.contains(
            track_of(all_files(later_files)[j].0, all_files(later_files)[j].1, id),
        ),
{
    let a = all_files(files);
    let b = all_files(later_files);
    let t = track_of(a[i].0, a[i].1, id);
    law_every_track_has_its_row(rows, files, first, t);
    let m = choose|m: int|
        {
            &&& 0 <= m < a.len()
            &&& t == track_of((#[trigger] a[m]).0, a[m].1, t.id)
            &&& has_row(first.rows, t.id, a[m])
        };
    assert(t.root == a[i].0 && t.relative_path == a[i].1.relative_path);
    if m != i {
        assert(same_place(a[m], a[i]));
        assert(!same_place(
            a[if m < i {
                m
            } else {
                i
            }],
            a[if m < i {
                i
            } else {
                m
            }],
        ));
    }
    let k = choose|k: int|
        0 <= k < first.rows.len() && is_row_of(#[trigger] first.rows[k], id, a[i]);
    if same_place(a[i], b[j]) {
        law_unchanged_file_keeps_its_id(first.rows, later_files, second, j, k);
    } else {
        assert(is_only_row(first.rows, k, b[j].1.hash)) by {
            assert forall|n: int| 0 <= n < first.rows.len() && n != k implies (
            #[trigger] first.rows[n]).fingerprint != b[j].1.hash by {
                let r = first.rows[n];
                assert(first.rows.contains(r));
                law_scan_leaves_no_stale_rows(rows, files, first, r);
                let l = choose|l: int|
                    {
                        &&& 0 <= l < a.len()
                        &&& is_row_of(r, r.guid, #[trigger] a[l])
                        &&& first.tracks.contains(track_of(a[l].0, a[l].1, r.guid))
                    };
                if r.fingerprint == b[j].1.hash {
                    assert(l == i);
                    lemma_row_at_place(first.rows, n);
                    lemma_row_at_place(first.rows, k);
                }
            }
        }
        law_known_content_keeps_its_id(first.rows, later_files, second, j, k);
    }
}

/// Whether two readings of a library find the same contents at the same places.
pub open spec fn same_files(a: Seq<(usize, FileInfo)>, b: Seq<(usize, FileInfo)>) -> bool {
    &&& a.len() == b.len()
    &&& forall|i: int|
        0 <= i < a.len() ==> same_place(#[trigger] a[i], b[i]) && a[i].1.hash == b[i].1.hash
}

/// Whether a library has a track of a file.
pub open spec fn has_track(lib: Library, x: (usize, FileInfo)) -> bool {
    exists|id: Seq<char>| lib.tracks.contains(#[trigger] track_of(x.0, x.1, id))
}

/// A library that is scanned again gives every place the id that it had and no other ids, also
/// where its folders were moved as a whole in between and where files share their content.
pub proof fn law_rescan_keeps_all_ids(
    rows: Seq<Row>,
    files: Seq<Seq<FileInfo>>,
    first: Library,
    later_files: Seq<Seq<FileInfo>>,
    second: Library,
)
    requires
        files.len() <= usize::MAX,
        distinct_rows(rows),
        distinct_places(all_files(files)),
        may_scan(rows, files, first),
        forall|i: int|
            0 <= i < all_files(files).len() ==> has_track(first, #[trigger] all_files(files)[i]),
        same_files(all_files(files), all_files(later_files)),
        may_scan(first.rows, later_files, second),
    ensures
        second.tracks.len() == all_files(files).len(),
        forall|i: int|
            0 <= i < all_files(files).len() ==> {
                &&& first.tracks.contains(
                    track_of(
                        (#[trigger] all_files(files)[i]).0,
                        all_files(files)[i].1,
                        second.tracks[i].id,
                    ),
                )
                &&& second.tracks[i] == track_of(
                    all_files(later_files)[i].0,
                    all_files(later_files)[i].1,
                    second.tracks[i].id,
                )
            },
{
    let a = all_files(files);
    let b = all_files(later_files);
    assert(distinct_places(b)) by {
        assert forall|i: int, j: int| 0 <= i < j < b.len() implies !same_place(
            #[trigger] b[i],
            #[trigger] b[j],
        ) by {
            assert(!same_place(a[i], a[j]));
            assert(same_place(a[i], b[i]) && same_place(a[j], b[j]));
        }
    }
    assert forall|i: int| 0 <= i < a.len() implies is_unchanged(first.rows, #[trigger] b[i])
        && first.tracks.contains(track_of(a[i].0, a[i].1, place_id(first.rows, b[i]))) by {
        assert(has_track(first, a[i]));
        assert(same_place(a[i], b[i]));
        let id = choose|id: Seq<char>|
            first.tracks.contains(#[trigger] track_of(a[i].0, a[i].1, id));
        let t = track_of(a[i].0, a[i].1, id);
        law_every_track_has_its_row(rows, files, first, t);
        let m = choose|m: int|
            {
                &&& 0 <= m < a.len()
                &&& t == track_of((#[trigger] a[m]).0, a[m].1, t.id)
                &&& has_row(first.rows, t.id, a[m])
            };
        assert(t.root == a[i].0 && t.relative_path == a[i].1.relative_path);
        if m != i {
            assert(same_place(a[m], a[i]));
            assert(!same_place(
                a[if m < i {
                    m
                } else {
                    i
                }],
                a[if m < i {
                    i
                } else {
                    m
                }],
            ));
        }
        let k = choose|k: int|
            0 <= k < first.rows.len() && is_row_of(#[trigger] first.rows[k], id, a[i]);
        lemma_row_at_place(first.rows, k);
    }
    let (none, nothing) = lemma_scan(rows, files, first);
    let (end, done) = lemma_scan(first.rows, later_files, second);
    let again = lemma_index_files(first.rows, b, end);
    assert forall|j: int| 0 <= j < b.len() implies is_unchanged(first.rows, #[trigger] b[j]) by {
        assert(same_place(a[j], b[j]));
    }
    assert forall|i: int| 0 <= i < a.len() implies {
        &&& first.tracks.contains(track_of((#[trigger] a[i]).0, a[i].1, second.tracks[i].id))
        &&& second.tracks[i] == track_of(b[i].0, b[i].1, second.tracks[i].id)
    } by {
        assert(end.tracks[i] == track_of(b[i].0, b[i].1, place_id(first.rows, b[i])));
    }
}

proof fn lemma_put_members(s: Seq<TrackInfo>, t: TrackInfo, x: TrackInfo)
    requires
        put(s, t).contains(x),
    ensures
        x == t || s.contains(x),
{
    lemma_first_where_props(s, having_id(t.id));
    let k = choose|k: int| 0 <= k < put(s, t).len() && put(s, t)[k] == x;
    if k < s.len() && x != t {
        assert(s[k] == x);
    }
}

/// Whether a track was in an index, or is that of one of some files.
pub open spec fn comes_from(
    t: TrackInfo,
    tracks: Seq<TrackInfo>,
    files: Seq<(usize, FileInfo)>,
) -> bool {
    tracks.contains(t) || exists|i: int|
        0 <= i < files.len() && t == track_of((#[trigger] files[i]).0, files[i].1, t.id)
}

proof fn lemma_one_comes_from(
    tracks: Seq<TrackInfo>,
    mid: Underway,
    after: Underway,
    files: Seq<(usize, FileInfo)>,
    t: TrackInfo,
)
    requires
        files.len() > 0,
        may_index(mid, files.last().0, files.last().1, after),
        after.tracks.contains(t),
        mid.tracks.contains(t) ==> comes_from(t, tracks, files.drop_last()),
    ensures
        comes_from(t, tracks, files),
{
    let x = files.last();
    let front = files.drop_last();
    let (fresh, now) = choose|fresh: Seq<char>, now: u64|
        after == #[trigger] indexed(mid, x.0, x.1, fresh, now);
    if let Ok((rows, id)) = resolved(
        mid.rows,
        mid.held,
        x.0,
        x.1.relative_path,
        x.1.hash,
        x.1.size_bytes,
        fresh,
        now,
    ) {
        lemma_put_members(mid.tracks, track_of(x.0, x.1, id), t);
    }
    if mid.tracks.contains(t) {
        lemma_comes_from_more(t, tracks, files);
    } else {
        assert(files[files.len() - 1] == x);
    }
}

proof fn lemma_comes_from_more(
    t: TrackInfo,
    tracks: Seq<TrackInfo>,
    files: Seq<(usize, FileInfo)>,
)
    requires
        files.len() > 0,
        comes_from(t, tracks, files.drop_last()),
    ensures
        comes_from(t, tracks, files),
{
    let front = files.drop_last();
    if !tracks.contains(t) {
        let i = choose|i: int|
            0 <= i < front.len() && t == track_of((#[trigger] front[i]).0, front[i].1, t.id);
        assert(files[i] == front[i]);
    }
}

proof fn lemma_all_come_from(
    before: Underway,
    files: Seq<(usize, FileInfo)>,
    after: Underway,
    t: TrackInfo,
)
    requires
        may_index_all(before, files, after),
        after.tracks.contains(t),
    ensures
        comes_from(t, before.tracks, files),
    decreases files.len(),
{
    if files.len() > 0 {
        let x = files.last();
        let mid = choose|mid: Underway|
            may_index_all(before, files.drop_last(), mid) && #[trigger] may_index(
                mid,
                x.0,
                x.1,
                after,
            );
        if mid.tracks.contains(t) {
            lemma_all_come_from(before, files.drop_last(), mid, t);
        }
        lemma_one_comes_from(before.tracks, mid, after, files, t);
    }
}

proof fn lemma_known_come_from(
    before: Underway,
    files: Seq<(usize, FileInfo)>,
    after: Underway,
    left: Seq<(usize, FileInfo)>,
)
    requires
        may_index_known(before, files, after, left),
    ensures
        come_from(left, files, files),
        forall|t: TrackInfo| after.tracks.contains(t) ==> comes_from(t, before.tracks, files),
    decreases files.len(),
{
    if files.len() > 0 {
        let x = files.last();
        let front = files.drop_last();
        let (mid, l) = choose|mid: Underway, l: Seq<(usize, FileInfo)>|
            may_index_known(before, front, mid, l) && #[trigger] may_index_if_known(
                mid,
                l,
                x,
                after,
                left,
            );
        lemma_known_come_from(before, front, mid, l);
        assert forall|i: int| 0 <= i < left.len() implies files.contains(#[trigger] left[i]) by {
            if i < l.len() {
                assert(left[i] == l[i]);
                let k = choose|k: int| 0 <= k < front.len() && front[k] == l[i];
                assert(files[k] == l[i]);
            } else {
                assert(files[files.len() - 1] == left[i]);
            }
        }
        assert forall|t: TrackInfo| after.tracks.contains(t) implies comes_from(
            t,
            before.tracks,
            files,
        ) by {
            if is_known(mid, x.0, x.1) {
                lemma_one_comes_from(before.tracks, mid, after, files, t);
            } else {
                lemma_comes_from_more(t, before.tracks, files);
            }
        }
    }
}

/// Every track that indexing some files leaves in the index was there before or is the track of one
/// of them.
pub proof fn law_tracks_come_from_files(
    before: Underway,
    files: Seq<(usize, FileInfo)>,
    after: Underway,
    t: TrackInfo,
)
    requires
        may_index_files(before, files, after),
        after.tracks.contains(t),
    ensures
        comes_from(t, before.tracks, files),
{
    let same = unchanged(before.rows, files, true);
    let others = unchanged(before.rows, files, false);
    let (settled, moved, left) = choose|
        settled: Underway,
        moved: Underway,
        left: Seq<(usize, FileInfo)>,
    |
        {
            &&& may_index_all(before, same, settled)
            &&& #[trigger] may_index_known(settled, others, moved, left)
            &&& #[trigger] may_index_all(moved, left, after)
        };
    let p = |x: (usize, FileInfo)|
        is_own(before.rows, x.0, x.1.relative_path, x.1.hash) == true;
    let q = |x: (usize, FileInfo)|
        is_own(before.rows, x.0, x.1.relative_path, x.1.hash) == false;
    lemma_all_come_from(moved, left, after, t);
    lemma_known_come_from(settled, others, moved, left);
    if moved.tracks.contains(t) {
        if settled.tracks.contains(t) {
            lemma_all_come_from(before, same, settled, t);
            if !before.tracks.contains(t) {
                let i = choose|i: int|
                    0 <= i < same.len() && t == track_of((#[trigger] same[i]).0, same[i].1, t.id);
                let k = lemma_filter_from(files, p, i);
                assert(files[k] == same[i]);
            }
        } else {
            let i = choose|i: int|
                0 <= i < others.len() && t == track_of((#[trigger] others[i]).0, others[i].1, t.id);
            let k = lemma_filter_from(files, q, i);
            assert(files[k] == others[i]);
        }
    } else {
        let i = choose|i: int|
            0 <= i < left.len() && t == track_of((#[trigger] left[i]).0, left[i].1, t.id);
        assert(others.contains(left[i]));
        let m = choose|m: int| 0 <= m < others.len() && others[m] == left[i];
        let k = lemma_filter_from(files, q, m);
        assert(files[k] == left[i]);
    }
}

/// Where all files that a content is known by are still there, a file of that content at a new
/// place is a copy: it gets a track of its own under the fresh id and a row of its own, and every
/// other track and row stays as it is.
pub proof fn law_copy_gets_its_own_track(
    u: Underway,
    root: usize,
    f: FileInfo,
    fresh: Seq<char>,
    now: u64,
    id: Seq<char>,
)
    requires
        distinct_ids(u.tracks),
        content_row(u.rows, u.held, root, f.relative_path, f.hash) == u.rows.len(),
        first_where(u.rows, at_place(root, f.relative_path)) == u.rows.len(),
        forall|i: int| 0 <= i < u.rows.len() ==> (#[trigger] u.rows[i]).guid != fresh,
        id != fresh,
    ensures
        indexed(u, root, f, fresh, now).rows == u.rows.push(
            new_row(fresh, root, f.relative_path, f.hash, f.size_bytes, now),
        ),
        found(indexed(u, root, f, fresh, now).tracks, fresh) == Some(track_of(root, f, fresh)),
        found(indexed(u, root, f, fresh, now).tracks, id) == found(u.tracks, id),
{
    let g = crate::library_db::with_guid(fresh);
    assert forall|i: int| 0 <= i < u.rows.len() implies !g(#[trigger] u.rows[i]) by {
        assert(u.rows[i].guid != fresh);
    }
    lemma_first_where(u.rows, g, u.rows.len() as int);
    law_put_then_get(u.tracks, track_of(root, f, fresh), id);
}

/// After the place of a missing file or folder is cleared, no track is left there or under it, and
/// every other one stays.
pub proof fn law_missing_place_is_cleared(
    lib: Library,
    root: usize,
    rel_path: Seq<char>,
    t: TrackInfo,
)
    ensures
        without_missing(lib, root, rel_path).tracks.contains(t) <==> lib.tracks.contains(t) && !(
        t.root == root && (t.relative_path == rel_path || starts_with(
            t.relative_path,
            rel_path.push('/'),
        ))),
{
    lemma_filter_members(
        lib.tracks,
        |t: TrackInfo|
            t.root != root || (t.relative_path != rel_path && !starts_with(
                t.relative_path,
                rel_path.push('/'),
            )),
        t,
    );
}

proof fn lemma_found_after_filter(
    tracks: Seq<TrackInfo>,
    keep: spec_fn(TrackInfo) -> bool,
    id: Seq<char>,
)
    requires
        distinct_ids(tracks),
        found(tracks, id) is Some,
        keep(found(tracks, id)->0),
    ensures
        found(tracks.filter(keep), id) == found(tracks, id),
{
    let t = found(tracks, id)->0;
    lemma_first_where_props(tracks, having_id(id));
    assert(tracks.contains(t));
    lemma_filter_members(tracks, keep, t);
    lemma_filter_keeps_ids_distinct(tracks, keep);
    let kept = tracks.filter(keep);
    let k = choose|k: int| 0 <= k < kept.len() && kept[k] == t;
    lemma_found_at(kept, k);
}

/// A file that is renamed or moved keeps its track: once it was found at its new place, whatever
/// was known there, and its old place was cleared, the index has it under its old id, at the new
/// place, and so has the table. Its content must have no other row, and its old place must be gone.
pub proof fn law_renamed_file_keeps_its_track(
    u: Underway,
    k: int,
    root: usize,
    f: FileInfo,
    fresh: Seq<char>,
    now: u64,
)
    requires
        distinct_rows(u.rows),
        distinct_ids(u.tracks),
        is_only_row(u.rows, k, f.hash),
        !u.held.contains(u.rows[k].guid),
        u.rows[k].root != root || (u.rows[k].relative_path != f.relative_path && !is_below(
            f.relative_path,
            u.rows[k].relative_path,
        )),
    ensures
        ({
            let id = u.rows[k].guid;
            let end = indexed(u, root, f, fresh, now);
            let after = without_missing(
                Library { tracks: end.tracks, rows: end.rows },
                u.rows[k].root,
                u.rows[k].relative_path,
            );
            &&& found(after.tracks, id) == Some(track_of(root, f, id))
            &&& has_row(after.rows, id, (root, f))
        }),
{
    let s = u.rows;
    let p = free_with_fingerprint(f.hash, u.held);
    let q = at_place(root, f.relative_path);
    lemma_first_where_props(s, p);
    lemma_first_where_props(s, q);
    assert(p(s[k]));
    assert(content_row(s, u.held, root, f.relative_path, f.hash) == k);
    lemma_resolved_rows(s, u.held, root, f.relative_path, f.hash, f.size_bytes, fresh, now);
    let id = s[k].guid;
    let end = indexed(u, root, f, fresh, now);
    let old_root = s[k].root;
    let old_path = s[k].relative_path;
    let t = track_of(root, f, id);
    law_put_then_get(u.tracks, t, id);
    let keep = |x: TrackInfo|
        x.root != old_root || (x.relative_path != old_path && !starts_with(
            x.relative_path,
            old_path.push('/'),
        ));
    lemma_found_after_filter(end.tracks, keep, id);
    let r = end.rows[k];
    assert(end.rows.contains(r));
    lemma_filter_members(
        end.rows,
        |x: Row| !(x.root == old_root && x.relative_path == old_path),
        r,
    );
    let mid = without_place(end.rows, old_root, old_path);
    lemma_filter_members(
        mid,
        |x: Row|
            !(x.root == old_root && (x.relative_path == old_path || is_below(
                x.relative_path,
                old_path,
            ))),
        r,
    );
    let after = without_prefix(mid, old_root, old_path);
    let n = choose|n: int| 0 <= n < after.len() && after[n] == r;
    assert(is_row_of(after[n], id, (root, f)));
}

/// The time at which a track was added is never moved on by a scan: a track that the old index has
/// under its id keeps the earlier of the two times, and nothing else of any track changes.
pub proof fn law_time_added_is_kept(new: Seq<TrackInfo>, old_tracks: Seq<TrackInfo>, i: int)
    requires
        0 <= i < new.len(),
    ensures
        ({
            let t = new.map_values(|t: TrackInfo| with_earliest(t, old_tracks))[i];
            &&& t == (TrackInfo { added_at: t.added_at, ..new[i] })
            &&& t.added_at <= new[i].added_at
            &&& match found(old_tracks, new[i].id) {
                Some(o) => t.added_at <= o.added_at && (t.added_at == o.added_at || t.added_at
                    == new[i].added_at),
                None => t == new[i],
            }
        }),
{
}

/// Whether a path is a place or lies under it.
pub open spec fn is_at_or_under(path: Seq<char>, place: Seq<char>) -> bool {
    path == place || exists|more: Seq<char>| path == #[trigger] (place + seq!['/'] + more)
}

proof fn lemma_at_or_under(path: Seq<char>, place: Seq<char>)
    ensures
        is_at_or_under(path, place) <==> path == place || starts_with(path, place.push('/')),
{
    let start = place.push('/');
    if is_at_or_under(path, place) && path != place {
        let more = choose|more: Seq<char>| path == #[trigger] (place + seq!['/'] + more);
        assert(path.take(start.len() as int) =~= start);
    }
    if starts_with(path, start) {
        let more = path.skip(start.len() as int);
        assert(path =~= path.take(start.len() as int) + more);
        assert(path =~= place + seq!['/'] + more);
    }
}

/// After a change at a folder every track of that music folder at or under the place is the track
/// of one of the files that were read there: what was indexed of files that are gone is gone.
pub proof fn law_changed_folder_holds_what_was_read<E: Fn(&str) -> bool>(
    on_disk: E,
    music_dirs: Seq<Seq<char>>,
    before: Library,
    root: usize,
    rel_path: Seq<char>,
    files: Vec<ScannedFile>,
    after: Library,
    t: TrackInfo,
)
    requires
        may_change_at(
            on_disk,
            music_dirs,
            before,
            root,
            rel_path,
            PathChange::Directory(files),
            after,
        ),
        after.tracks.contains(t),
        t.root == root,
        is_at_or_under(t.relative_path, rel_path),
    ensures
        exists|i: int| 0 <= i < files.len() && t == track_of(root, (#[trigger] files@[i])@, t.id),
{
    let kept = without_below(before.tracks, root, rel_path);
    let start = Library { tracks: kept, rows: before.rows };
    let list = in_root(root, file_infos(files@));
    let (held, end) = choose|held: Seq<Seq<char>>, end: Underway|
        {
            &&& may_all_be_held(on_disk, music_dirs, Some(root), start, list, held)
            &&& #[trigger] may_index_files(underway(start, held), list, end)
            &&& after == (Library { tracks: end.tracks, rows: end.rows })
        };
    law_tracks_come_from_files(underway(start, held), list, end, t);
    lemma_at_or_under(t.relative_path, rel_path);
    lemma_filter_members(
        before.tracks,
        |u: TrackInfo|
            u.root != root || (u.relative_path != rel_path && !starts_with(
                u.relative_path,
                rel_path.push('/'),
            )),
        t,
    );
    assert(!kept.contains(t));
    let i = choose|i: int|
        0 <= i < list.len() && t == track_of((#[trigger] list[i]).0, list[i].1, t.id);
    assert(list[i] == (root, files@[i]@));
}

/// After a change at a file, or at a folder, every track is one that was there or that of a file
/// that was read.
pub proof fn law_changed_file_adds_its_track_only<E: Fn(&str) -> bool>(
    on_disk: E,
    music_dirs: Seq<Seq<char>>,
    before: Library,
    root: usize,
    rel_path: Seq<char>,
    file: ScannedFile,
    after: Library,
    t: TrackInfo,
)
    requires
        may_change_at(
            on_disk,
            music_dirs,
            before,
            root,
            rel_path,
            PathChange::File(Some(file)),
            after,
        ),
        after.tracks.contains(t),
    ensures
        before.tracks.contains(t) || t == track_of(root, file@, t.id),
{
    let list = seq![(root, file@)];
    let (held, end) = choose|held: Seq<Seq<char>>, end: Underway|
        {
            &&& may_all_be_held(on_disk, music_dirs, Some(root), before, list, held)
            &&& #[trigger] may_index_files(underway(before, held), list, end)
            &&& after == (Library { tracks: end.tracks, rows: end.rows })
        };
    law_tracks_come_from_files(underway(before, held), list, end, t);
}

/// Whether a track is that of one of some files.
pub open spec fn is_of_one(t: TrackInfo, files: Seq<(usize, FileInfo)>) -> bool {
    exists|i: int| 0 <= i < files.len() && t == track_of((#[trigger] files[i]).0, files[i].1, t.id)
}

/// Whether an id finds what it found before, or the track of one of some files.
spec fn is_kept_or_read(
    before: Seq<TrackInfo>,
    files: Seq<(usize, FileInfo)>,
    after: Seq<TrackInfo>,
    id: Seq<char>,
) -> bool {
    found(after, id) == found(before, id) || (found(after, id) is Some && is_of_one(
        found(after, id)->0,
        files,
    ))
}

proof fn lemma_of_one_of_more(
    t: TrackInfo,
    files: Seq<(usize, FileInfo)>,
    all: Seq<(usize, FileInfo)>,
)
    requires
        is_of_one(t, files),
        forall|i: int| 0 <= i < files.len() ==> all.contains(#[trigger] files[i]),
    ensures
        is_of_one(t, all),
{
    let i = choose|i: int|
        0 <= i < files.len() && t == track_of((#[trigger] files[i]).0, files[i].1, t.id);
    assert(all.contains(files[i]));
    let k = choose|k: int| 0 <= k < all.len() && all[k] == files[i];
    assert(t == track_of(all[k].0, all[k].1, t.id));
}

proof fn lemma_one_keeps_found(
    mid: Underway,
    x: (usize, FileInfo),
    after: Underway,
    id: Seq<char>,
)
    requires
        distinct_ids(mid.tracks),
        may_index(mid, x.0, x.1, after),
    ensures
        distinct_ids(after.tracks),
        is_kept_or_read(mid.tracks, seq![x], after.tracks, id),
{
    let (fresh, now) = choose|fresh: Seq<char>, now: u64|
        is_guid_text(fresh) && after == #[trigger] indexed(mid, x.0, x.1, fresh, now);
    if let Ok((rows, given)) = resolved(
        mid.rows,
        mid.held,
        x.0,
        x.1.relative_path,
        x.1.hash,
        x.1.size_bytes,
        fresh,
        now,
    ) {
        let t = track_of(x.0, x.1, given);
        law_put_then_get(mid.tracks, t, id);
        let one = seq![x];
        assert(one[0] == x);
        assert(is_of_one(t, one));
    }
}

proof fn lemma_all_keep_found(
    before: Underway,
    files: Seq<(usize, FileInfo)>,
    after: Underway,
    id: Seq<char>,
)
    requires
        distinct_ids(before.tracks),
        may_index_all(before, files, after),
    ensures
        distinct_ids(after.tracks),
        is_kept_or_read(before.tracks, files, after.tracks, id),
    decreases files.len(),
{
    if files.len() > 0 {
        let x = files.last();
        let front = files.drop_last();
        let mid = choose|mid: Underway|
            may_index_all(before, front, mid) && #[trigger] may_index(mid, x.0, x.1, after);
        lemma_all_keep_found(before, front, mid, id);
        lemma_one_keeps_found(mid, x, after, id);
        lemma_front_and_last(files);
        lemma_kept_by_two(before.tracks, front, mid.tracks, seq![x], after.tracks, files, id);
    }
}

proof fn lemma_kept_by_two(
    before: Seq<TrackInfo>,
    a: Seq<(usize, FileInfo)>,
    mid: Seq<TrackInfo>,
    b: Seq<(usize, FileInfo)>,
    after: Seq<TrackInfo>,
    all: Seq<(usize, FileInfo)>,
    id: Seq<char>,
)
    requires
        is_kept_or_read(before, a, mid, id),
        is_kept_or_read(mid, b, after, id),
        forall|i: int| 0 <= i < a.len() ==> all.contains(#[trigger] a[i]),
        forall|i: int| 0 <= i < b.len() ==> all.contains(#[trigger] b[i]),
    ensures
        is_kept_or_read(before, all, after, id),
{
    if found(after, id) is Some && is_of_one(found(after, id)->0, b) {
        lemma_of_one_of_more(found(after, id)->0, b, all);
    } else if found(mid, id) is Some && is_of_one(found(mid, id)->0, a) {
        lemma_of_one_of_more(found(mid, id)->0, a, all);
    }
}

proof fn lemma_front_and_last(files: Seq<(usize, FileInfo)>)
    requires
        files.len() > 0,
    ensures
        forall|i: int|
            0 <= i < files.drop_last().len() ==> files.contains(#[trigger] files.drop_last()[i]),
        forall|i: int|
            0 <= i < seq![files.last()].len() ==> files.contains(#[trigger] seq![files.last()][i]),
{
    assert forall|i: int| 0 <= i < files.drop_last().len() implies files.contains(
        #[trigger] files.drop_last()[i],
    ) by {
        assert(files[i] == files.drop_last()[i]);
    }
    assert(files[files.len() - 1] == files.last());
}

proof fn lemma_known_keep_found(
    before: Underway,
    files: Seq<(usize, FileInfo)>,
    after: Underway,
    left: Seq<(usize, FileInfo)>,
    id: Seq<char>,
)
    requires
        distinct_ids(before.tracks),
        may_index_known(before, files, after, left),
    ensures
        distinct_ids(after.tracks),
        is_kept_or_read(before.tracks, files, after.tracks, id),
    decreases files.len(),
{
    if files.len() > 0 {
        let x = files.last();
        let front = files.drop_last();
        let (mid, l) = choose|mid: Underway, l: Seq<(usize, FileInfo)>|
            may_index_known(before, front, mid, l) && #[trigger] may_index_if_known(
                mid,
                l,
                x,
                after,
                left,
            );
        lemma_known_keep_found(before, front, mid, l, id);
        if is_known(mid, x.0, x.1) {
            lemma_one_keeps_found(mid, x, after, id);
        }
        lemma_front_and_last(files);
        lemma_kept_by_two(before.tracks, front, mid.tracks, seq![x], after.tracks, files, id);
    }
}

proof fn lemma_files_keep_found(
    before: Underway,
    files: Seq<(usize, FileInfo)>,
    after: Underway,
    id: Seq<char>,
)
    requires
        distinct_ids(before.tracks),
        may_index_files(before, files, after),
    ensures
        is_kept_or_read(before.tracks, files, after.tracks, id),
{
    let same = unchanged(before.rows, files, true);
    let others = unchanged(before.rows, files, false);
    let (settled, moved, left) = choose|
        settled: Underway,
        moved: Underway,
        left: Seq<(usize, FileInfo)>,
    |
        {
            &&& may_index_all(before, same, settled)
            &&& #[trigger] may_index_known(settled, others, moved, left)
            &&& #[trigger] may_index_all(moved, left, after)
        };
    let p = |x: (usize, FileInfo)|
        is_own(before.rows, x.0, x.1.relative_path, x.1.hash) == true;
    let q = |x: (usize, FileInfo)|
        is_own(before.rows, x.0, x.1.relative_path, x.1.hash) == false;
    lemma_all_keep_found(before, same, settled, id);
    lemma_known_keep_found(settled, others, moved, left, id);
    lemma_all_keep_found(moved, left, after, id);
    lemma_known_come_from(settled, others, moved, left);
    assert forall|i: int| 0 <= i < same.len() implies files.contains(#[trigger] same[i]) by {
        let k = lemma_filter_from(files, p, i);
        assert(files[k] == same[i]);
    }
    assert forall|i: int| 0 <= i < others.len() implies files.contains(#[trigger] others[i]) by {
        let k = lemma_filter_from(files, q, i);
        assert(files[k] == others[i]);
    }
    assert forall|i: int| 0 <= i < left.len() implies files.contains(#[trigger] left[i]) by {
        assert(others.contains(left[i]));
        let m = choose|m: int| 0 <= m < others.len() && others[m] == left[i];
        assert(files.contains(others[m]));
    }
    lemma_kept_by_two(before.tracks, same, settled.tracks, others, moved.tracks, files, id);
    lemma_kept_by_two(before.tracks, files, moved.tracks, left, after.tracks, files, id);
}

/// A change leaves every track that is not at its place as it is, unless one of the files that were
/// read there has taken its id with it.
pub proof fn law_change_spares_what_is_elsewhere<E: Fn(&str) -> bool>(
    on_disk: E,
    music_dirs: Seq<Seq<char>>,
    before: Library,
    root: usize,
    rel_path: Seq<char>,
    change: PathChange,
    after: Library,
    t: TrackInfo,
)
    requires
        may_change_at(on_disk, music_dirs, before, root, rel_path, change, after),
        distinct_ids(before.tracks),
        before.tracks.contains(t),
        t.root != root || !is_at_or_under(t.relative_path, rel_path) || change is File,
    ensures
        ({
            let files = match change {
                PathChange::Directory(files) => in_root(root, file_infos(files@)),
                PathChange::File(Some(f)) => seq![(root, f@)],
                _ => Seq::empty(),
            };
            found(after.tracks, t.id) == Some(t) || (found(after.tracks, t.id) is Some && is_of_one(
                found(after.tracks, t.id)->0,
                files,
            ))
        }),
{
    let keep = |u: TrackInfo|
        u.root != root || (u.relative_path != rel_path && !starts_with(
            u.relative_path,
            rel_path.push('/'),
        ));
    let kept = without_below(before.tracks, root, rel_path);
    lemma_at_or_under(t.relative_path, rel_path);
    let k = choose|k: int| 0 <= k < before.tracks.len() && before.tracks[k] == t;
    lemma_found_at(before.tracks, k);
    lemma_filter_members(before.tracks, keep, t);
    lemma_filter_keeps_ids_distinct(before.tracks, keep);
    if kept.contains(t) {
        let m = choose|m: int| 0 <= m < kept.len() && kept[m] == t;
        lemma_found_at(kept, m);
    }
    match change {
        PathChange::Directory(files) => {
            let start = Library { tracks: kept, rows: before.rows };
            let list = in_root(root, file_infos(files@));
            let (held, end) = choose|held: Seq<Seq<char>>, end: Underway|
                {
                    &&& may_all_be_held(on_disk, music_dirs, Some(root), start, list, held)
                    &&& #[trigger] may_index_files(underway(start, held), list, end)
                    &&& after == (Library { tracks: end.tracks, rows: end.rows })
                };
            lemma_files_keep_found(underway(start, held), list, end, t.id);
        },
        PathChange::File(Some(f)) => {
            let list = seq![(root, f@)];
            let (held, end) = choose|held: Seq<Seq<char>>, end: Underway|
                {
                    &&& may_all_be_held(on_disk, music_dirs, Some(root), before, list, held)
                    &&& #[trigger] may_index_files(underway(before, held), list, end)
                    &&& after == (Library { tracks: end.tracks, rows: end.rows })
                };
            lemma_files_keep_found(underway(before, held), list, end, t.id);
        },
        _ => {},
    }
}

/// After a change at a place where there is nothing any more, the tracks and the rows that were at
/// it or under it are gone and all others stay; one at a file that is not indexed changes nothing.
pub proof fn law_missing_place_is_forgotten<E: Fn(&str) -> bool>(
    on_disk: E,
    music_dirs: Seq<Seq<char>>,
    before: Library,
    root: usize,
    rel_path: Seq<char>,
    after: Library,
    t: TrackInfo,
    r: Row,
)
    requires
        may_change_at(on_disk, music_dirs, before, root, rel_path, PathChange::Missing, after),
    ensures
        after.tracks.contains(t) <==> before.tracks.contains(t) && !(t.root == root
            && is_at_or_under(t.relative_path, rel_path)),
        after.rows.contains(r) <==> before.rows.contains(r) && !(r.root == root && is_at_or_under(
            r.relative_path,
            rel_path,
        )),
        forall|other: Library|
            #[trigger] may_change_at(
                on_disk,
                music_dirs,
                before,
                root,
                rel_path,
                PathChange::File(None),
                other,
            ) ==> other == before,
{
    lemma_at_or_under(t.relative_path, rel_path);
    lemma_at_or_under(r.relative_path, rel_path);
    law_missing_place_is_cleared(before, root, rel_path, t);
    let rows = without_place(before.rows, root, rel_path);
    law_removing_a_folder_spares_its_neighbours(rows, root, rel_path, r);
    lemma_filter_members(
        before.rows,
        |x: Row| !(x.root == root && x.relative_path == rel_path),
        r,
    );
}

/// Whether a table has a row for a place.
pub open spec fn has_row_at(rows: Seq<Row>, root: usize, path: Seq<char>) -> bool {
    exists|i: int|
        0 <= i < rows.len() && (#[trigger] rows[i]).root == root && rows[i].relative_path == path
}

/// Whether a table has a row for a content whose id no other file holds.
pub open spec fn has_free_row(rows: Seq<Row>, held: Seq<Seq<char>>, hash: Seq<char>) -> bool {
    exists|i: int|
        0 <= i < rows.len() && (#[trigger] rows[i]).fingerprint == hash && !held.contains(
            rows[i].guid,
        )
}

/// A file that is indexed has its track in the index under the id that it is given, its row in the
/// table under that id, and that id is held from then on; it is refused only where it is new and
/// the id drawn for it is taken.
pub proof fn law_indexed_file_has_its_track(
    u: Underway,
    root: usize,
    f: FileInfo,
    fresh: Seq<char>,
    now: u64,
)
    requires
        distinct_rows(u.rows),
        distinct_ids(u.tracks),
    ensures
        ({
            let end = indexed(u, root, f, fresh, now);
            let id = end.held.last();
            if has_row_at(u.rows, root, f.relative_path) || has_free_row(u.rows, u.held, f.hash)
                || (forall|i: int| 0 <= i < u.rows.len() ==> (#[trigger] u.rows[i]).guid != fresh) {
                &&& end.held == u.held.push(id)
                &&& found(end.tracks, id) == Some(track_of(root, f, id))
                &&& has_row(end.rows, id, (root, f))
            } else {
                end == u
            }
        }),
{
    let g = crate::library_db::with_guid(fresh);
    lemma_first_where_props(u.rows, g);
    lemma_first_where_props(u.rows, at_place(root, f.relative_path));
    lemma_first_where_props(u.rows, free_with_fingerprint(f.hash, u.held));
    let p = at_place(root, f.relative_path);
    let q = free_with_fingerprint(f.hash, u.held);
    if has_row_at(u.rows, root, f.relative_path) {
        let i = choose|i: int|
            0 <= i < u.rows.len() && (#[trigger] u.rows[i]).root == root && u.rows[i].relative_path
                == f.relative_path;
        assert(p(u.rows[i]));
    }
    if has_free_row(u.rows, u.held, f.hash) {
        let i = choose|i: int|
            0 <= i < u.rows.len() && (#[trigger] u.rows[i]).fingerprint == f.hash
                && !u.held.contains(u.rows[i].guid);
        assert(q(u.rows[i]));
    }
    let seen = resolved(
        u.rows,
        u.held,
        root,
        f.relative_path,
        f.hash,
        f.size_bytes,
        fresh,
        now,
    );
    if seen is Ok {
        let (t, id) = seen->Ok_0;
        lemma_resolved_rows(
            u.rows,
            u.held,
            root,
            f.relative_path,
            f.hash,
            f.size_bytes,
            fresh,
            now,
        );
        let k = row_of(u.rows, u.held, root, f.relative_path, f.hash);
        assert(is_row_of(t[k], id, (root, f)));
        law_put_then_get(u.tracks, track_of(root, f, id), id);
        assert(u.held.push(id).last() == id);
    }
}

/// The files of all music folders together are those of each, with the number of their folder.
pub proof fn law_files_of_all_folders(files: Seq<Seq<FileInfo>>, root: usize, f: FileInfo)
    requires
        files.len() <= usize::MAX,
    ensures
        all_files(files).contains((root, f)) <==> root < files.len() && files[root as int].contains(
            f,
        ),
    decreases files.len(),
{
    if files.len() > 0 {
        let front = files.drop_last();
        let n = (files.len() - 1) as usize;
        let a = all_files(front);
        let b = in_root(n, files.last());
        let all = all_files(files);
        law_files_of_all_folders(front, root, f);
        if all.contains((root, f)) {
            let i = choose|i: int| 0 <= i < all.len() && all[i] == (root, f);
            if i < a.len() {
                assert(a[i] == (root, f));
                assert(a.contains((root, f)));
            } else {
                assert(b[i - a.len()] == (root, f));
                assert(files.last()[i - a.len()] == f);
            }
        }
        if root < files.len() && files[root as int].contains(f) {
            if root < n {
                assert(front[root as int] == files[root as int]);
                let i = choose|i: int| 0 <= i < a.len() && a[i] == (root, f);
                assert(all[i] == (root, f));
            } else {
                let i = choose|i: int| 0 <= i < files.last().len() && files.last()[i] == f;
                assert(b[i] == (root, f));
                assert(all[a.len() + i] == (root, f));
            }
        }
    }
}

/// A path belongs to the first of the music folders that it lies in, and to none where it lies in
/// none.
pub proof fn law_folder_of_a_change(music_dirs: Seq<Seq<char>>, path: Seq<char>, i: int)
    requires
        0 <= i < music_dirs.len(),
        is_under(path, music_dirs[i]),
    ensures
        0 <= root_of(music_dirs, path) <= i,
        is_under(path, music_dirs[root_of(music_dirs, path)]),
{
    let p = |d: Seq<char>| is_under(path, d);
    lemma_first_where_props(music_dirs, p);
    assert(p(music_dirs[i]));
}

/// Of some changed paths each one that lies in a music folder is dealt with, once and with that
/// folder, and all those where there is something before those where there is nothing.
pub proof fn law_changes_are_dealt_with_in_order(
    music_dirs: Seq<Seq<char>>,
    paths: Seq<Seq<char>>,
    present: Seq<bool>,
    root: usize,
    i: usize,
    a: int,
    b: int,
)
    requires
        paths.len() == present.len(),
        paths.len() <= usize::MAX,
        music_dirs.len() <= usize::MAX,
    ensures
        ({
            let n = paths.len() as int;
            let order = changes_in_roots(music_dirs, paths, present, true, n) + changes_in_roots(
                music_dirs,
                paths,
                present,
                false,
                n,
            );
            &&& order.contains((root, i)) <==> i < n && root < music_dirs.len() && root == root_of(
                music_dirs,
                paths[i as int],
            )
            &&& 0 <= a < b < order.len() ==> order[a].1 != order[b].1 && (
            present[order[b].1 as int] ==> present[order[a].1 as int])
        }),
{
    let n = paths.len() as int;
    let first = changes_in_roots(music_dirs, paths, present, true, n);
    let then_gone = changes_in_roots(music_dirs, paths, present, false, n);
    let order = first + then_gone;
    lemma_changes(music_dirs, paths, present, true, n);
    lemma_changes(music_dirs, paths, present, false, n);
    if order.contains((root, i)) {
        let k = choose|k: int| 0 <= k < order.len() && order[k] == (root, i);
        if k < first.len() {
            assert(first[k] == (root, i));
        } else {
            assert(then_gone[k - first.len()] == (root, i));
        }
    }
    if i < n && root < music_dirs.len() && root == root_of(music_dirs, paths[i as int]) {
        if present[i as int] {
            assert(first.contains((root_of(music_dirs, paths[i as int]) as usize, i)));
            let k = choose|k: int| 0 <= k < first.len() && first[k] == (root, i);
            assert(order[k] == (root, i));
        } else {
            assert(then_gone.contains((root_of(music_dirs, paths[i as int]) as usize, i)));
            let k = choose|k: int| 0 <= k < then_gone.len() && then_gone[k] == (root, i);
            assert(order[first.len() + k] == (root, i));
        }
    }
    if 0 <= a < b < order.len() {
        if b < first.len() {
            assert(order[a] == first[a] && order[b] == first[b]);
        } else if a >= first.len() {
            assert(order[a] == then_gone[a - first.len()]);
            assert(order[b] == then_gone[b - first.len()]);
        } else {
            assert(order[a] == first[a]);
            assert(order[b] == then_gone[b - first.len()]);
        }
    }
}

proof fn lemma_changes(
    music_dirs: Seq<Seq<char>>,
    paths: Seq<Seq<char>>,
    present: Seq<bool>,
    wanted: bool,
    n: int,
)
    requires
        0 <= n <= paths.len(),
        paths.len() == present.len(),
        paths.len() <= usize::MAX,
        music_dirs.len() <= usize::MAX,
    ensures
        ({
            let list = changes_in_roots(music_dirs, paths, present, wanted, n);
            &&& forall|k: int|
                0 <= k < list.len() ==> {
                    let (root, i) = #[trigger] list[k];
                    i < n && present[i as int] == wanted && root < music_dirs.len() && root
                        == root_of(music_dirs, paths[i as int])
                }
            &&& forall|a: int, b: int|
                0 <= a < b < list.len() ==> (#[trigger] list[a]).1 < (#[trigger] list[b]).1
            &&& forall|i: usize|
                i < n && present[i as int] == wanted && root_of(music_dirs, paths[i as int])
                    < music_dirs.len() ==> #[trigger] list.contains(
                    (root_of(music_dirs, paths[i as int]) as usize, i),
                )
        }),
    decreases n,
{
    if n > 0 {
        lemma_changes(music_dirs, paths, present, wanted, n - 1);
        let before = changes_in_roots(music_dirs, paths, present, wanted, n - 1);
        let list = changes_in_roots(music_dirs, paths, present, wanted, n);
        let root = root_of(music_dirs, paths[n - 1]);
        lemma_first_where_props(music_dirs, |d: Seq<char>| is_under(paths[n - 1], d));
        assert forall|i: usize|
            i < n && present[i as int] == wanted && root_of(music_dirs, paths[i as int])
                < music_dirs.len() implies #[trigger] list.contains(
            (root_of(music_dirs, paths[i as int]) as usize, i),
        ) by {
            let entry = (root_of(music_dirs, paths[i as int]) as usize, i);
            if i < n - 1 {
                assert(before.contains(entry));
                let k = choose|k: int| 0 <= k < before.len() && before[k] == entry;
                assert(list[k] == entry);
            } else {
                assert(list[list.len() - 1] == entry);
            }
        }
    }
}

proof fn lemma_single_file(u: Underway, x: (usize, FileInfo), end: Underway)
    requires
        may_index_files(u, seq![x], end),
    ensures
        may_index(u, x.0, x.1, end),
{
    reveal(Seq::filter);
    let one = seq![x];
    let none = Seq::<(usize, FileInfo)>::empty();
    assert(one.drop_last() =~= none);
    let same = unchanged(u.rows, one, true);
    let others = unchanged(u.rows, one, false);
    let own = is_own(u.rows, x.0, x.1.relative_path, x.1.hash);
    assert(none.push(x) =~= one);
    let p = |y: (usize, FileInfo)| is_own(u.rows, y.0, y.1.relative_path, y.1.hash) == true;
    let q = |y: (usize, FileInfo)| is_own(u.rows, y.0, y.1.relative_path, y.1.hash) == false;
    assert(none.filter(p) =~= none && none.filter(q) =~= none);
    assert(same == one.filter(p) && others == one.filter(q));
    if own {
        assert(p(x) && !q(x));
        assert(same =~= one && others =~= none);
    } else {
        assert(!p(x) && q(x));
        assert(same =~= none && others =~= one);
    }
    let (settled, moved, left) = choose|
        settled: Underway,
        moved: Underway,
        left: Seq<(usize, FileInfo)>,
    |
        {
            &&& may_index_all(u, same, settled)
            &&& #[trigger] may_index_known(settled, others, moved, left)
            &&& #[trigger] may_index_all(moved, left, end)
        };
    if own {
        assert(may_index_known(settled, none, moved, left));
        assert(left =~= none);
        lemma_single_step(u, x, settled);
    } else {
        assert(settled == u);
        let (mid, l) = choose|mid: Underway, l: Seq<(usize, FileInfo)>|
            may_index_known(settled, one.drop_last(), mid, l) && #[trigger] may_index_if_known(
                mid,
                l,
                one.last(),
                moved,
                left,
            );
        assert(mid == u && l.len() == 0);
        if is_known(mid, x.0, x.1) {
            assert(left.len() == 0);
        } else {
            assert(left =~= one);
            lemma_single_step(u, x, end);
        }
    }
}

proof fn lemma_single_step(u: Underway, x: (usize, FileInfo), end: Underway)
    requires
        may_index_all(u, seq![x], end),
    ensures
        may_index(u, x.0, x.1, end),
{
    let one = seq![x];
    let mid = choose|mid: Underway|
        may_index_all(u, one.drop_last(), mid) && #[trigger] may_index(
            mid,
            one.last().0,
            one.last().1,
            end,
        );
    assert(one.drop_last().len() == 0);
}

/// After a change at a file that was read, the index has its track and the table its row under the
/// same id. Only a file at a place that is new to the table can be left out, where the id that was
/// drawn for it is already that of a row, and then nothing changes.
pub proof fn law_changed_file_is_indexed<E: Fn(&str) -> bool>(
    on_disk: E,
    music_dirs: Seq<Seq<char>>,
    before: Library,
    root: usize,
    rel_path: Seq<char>,
    file: ScannedFile,
    after: Library,
)
    requires
        may_change_at(
            on_disk,
            music_dirs,
            before,
            root,
            rel_path,
            PathChange::File(Some(file)),
            after,
        ),
        distinct_rows(before.rows),
        distinct_ids(before.tracks),
    ensures
        (exists|id: Seq<char>|
            found(after.tracks, id) == Some(#[trigger] track_of(root, file@, id)) && has_row(
                after.rows,
                id,
                (root, file@),
            )) || (after == before && !has_row_at(before.rows, root, file@.relative_path) && exists|
            i: int,
        |
            0 <= i < before.rows.len() && is_guid_text((#[trigger] before.rows[i]).guid)),
{
    let x = (root, file@);
    let list = seq![x];
    let (held, end) = choose|held: Seq<Seq<char>>, end: Underway|
        {
            &&& may_all_be_held(on_disk, music_dirs, Some(root), before, list, held)
            &&& #[trigger] may_index_files(underway(before, held), list, end)
            &&& after == (Library { tracks: end.tracks, rows: end.rows })
        };
    let u = underway(before, held);
    lemma_single_file(u, x, end);
    let (fresh, now) = choose|fresh: Seq<char>, now: u64|
        is_guid_text(fresh) && end == #[trigger] indexed(u, root, file@, fresh, now);
    law_indexed_file_has_its_track(u, root, file@, fresh, now);
    let is_new = forall|i: int| 0 <= i < u.rows.len() ==> (#[trigger] u.rows[i]).guid != fresh;
    if has_row_at(u.rows, root, file@.relative_path) || has_free_row(u.rows, u.held, file@.hash)
        || is_new {
        let id = end.held.last();
        assert(found(after.tracks, id) == Some(track_of(root, file@, id)));
    } else {
        let i = choose|i: int| 0 <= i < u.rows.len() && (#[trigger] u.rows[i]).guid == fresh;
        assert(is_guid_text(before.rows[i].guid));
    }
}

/// The first file of a library without rows is indexed.
pub proof fn law_first_file_is_indexed(
    files: Seq<Seq<FileInfo>>,
    x: (usize, FileInfo),
    after: Library,
)
    requires
        all_files(files) == seq![x],
        may_scan(Seq::empty(), files, after),
    ensures
        has_track(after, x),
        after.tracks.len() == 1,
{
    let start = Underway {
        tracks: Seq::<TrackInfo>::empty(),
        rows: Seq::<Row>::empty(),
        held: Seq::empty(),
    };
    let end = choose|end: Underway|
        {
            &&& #[trigger] may_index_files(start, all_files(files), end)
            &&& after == with_unseen_forgotten(
                Library { tracks: end.tracks, rows: end.rows },
                files.len(),
            )
        };
    lemma_single_file(start, x, end);
    let (fresh, now) = choose|fresh: Seq<char>, now: u64|
        is_guid_text(fresh) && end == #[trigger] indexed(start, x.0, x.1, fresh, now);
    law_indexed_file_has_its_track(start, x.0, x.1, fresh, now);
    let id = end.held.last();
    lemma_not_found(start.tracks, id);
    assert(end.tracks =~= seq![track_of(x.0, x.1, id)]);
    assert(end.tracks[0] == track_of(x.0, x.1, id));
    assert(after.tracks.contains(track_of(x.0, x.1, id)));
}

/// Whether the only answer to be had on a path is the given one.
pub open spec fn always_answers<E: Fn(&str) -> bool>(
    on_disk: E,
    path: Seq<char>,
    answer: bool,
) -> bool {
    forall|b: bool| #[trigger] may_answer(on_disk, path, b) ==> b == answer
}

/// A file that turns up with the content of another one, at a place that is new, is a copy where
/// the other is still there and a file that was moved where it is not: in the one case the other
/// keeps its track and its id, in the other the id and its track follow the file.
pub proof fn law_copy_or_move<E: Fn(&str) -> bool>(
    on_disk: E,
    music_dirs: Seq<Seq<char>>,
    before: Library,
    root: usize,
    rel_path: Seq<char>,
    file: ScannedFile,
    after: Library,
    k: int,
    t: TrackInfo,
)
    requires
        may_change_at(
            on_disk,
            music_dirs,
            before,
            root,
            rel_path,
            PathChange::File(Some(file)),
            after,
        ),
        distinct_rows(before.rows),
        distinct_ids(before.tracks),
        root < music_dirs.len(),
        is_only_row(before.rows, k, file@.hash),
        !has_row_at(before.rows, root, file@.relative_path),
        found(before.tracks, before.rows[k].guid) == Some(t),
        t.root == root,
        t.relative_path != file@.relative_path,
    ensures
        always_answers(on_disk, joined(music_dirs[root as int], t.relative_path), true) ==> found(
            after.tracks,
            before.rows[k].guid,
        ) == Some(t),
        always_answers(on_disk, joined(music_dirs[root as int], t.relative_path), false) ==> found(
            after.tracks,
            before.rows[k].guid,
        ) == Some(track_of(root, file@, before.rows[k].guid)),
{
    let x = (root, file@);
    let list = seq![x];
    let id = before.rows[k].guid;
    let (held, end) = choose|held: Seq<Seq<char>>, end: Underway|
        {
            &&& may_all_be_held(on_disk, music_dirs, Some(root), before, list, held)
            &&& #[trigger] may_index_files(underway(before, held), list, end)
            &&& after == (Library { tracks: end.tracks, rows: end.rows })
        };
    let u = underway(before, held);
    lemma_single_file(u, x, end);
    let (fresh, now) = choose|fresh: Seq<char>, now: u64|
        is_guid_text(fresh) && end == #[trigger] indexed(u, root, file@, fresh, now);
    assert(list[0] == x);
    assert(has_content(list, before.rows[k].fingerprint));
    assert(!has_place(list, t.root, t.relative_path)) by {
        if has_place(list, t.root, t.relative_path) {
            let i = choose|i: int|
                0 <= i < list.len() && (#[trigger] list[i]).0 == t.root && list[i].1.relative_path
                    == t.relative_path;
            assert(list[i] == x);
        }
    }
    assert(may_be_held(
        on_disk,
        music_dirs,
        Some(root),
        before.tracks,
        list,
        before.rows[k],
        held.contains(id),
    ));
    assert(may_answer(
        on_disk,
        joined(music_dirs[root as int], t.relative_path),
        held.contains(id),
    ));
    law_indexed_file_has_its_track(u, root, file@, fresh, now);
    let p = at_place(root, file@.relative_path);
    let q = free_with_fingerprint(file@.hash, held);
    lemma_first_where_props(u.rows, p);
    lemma_first_where_props(u.rows, q);
    let at = first_where(u.rows, p);
    if at < u.rows.len() {
        assert(p(u.rows[at]));
        assert(u.rows[at].root == root && u.rows[at].relative_path == file@.relative_path);
    }
    if held.contains(id) {
        let f = first_where(u.rows, q);
        if f < u.rows.len() {
            assert(q(u.rows[f]));
            assert(f == k);
        }
        let g = crate::library_db::with_guid(fresh);
        lemma_first_where_props(u.rows, g);
        if fresh == id {
            assert(g(u.rows[k]));
        } else {
            law_put_then_get(u.tracks, track_of(root, file@, fresh), id);
        }
    } else {
        assert(q(u.rows[k]));
        let f = first_where(u.rows, q);
        assert(q(u.rows[f]));
        assert(f == k);
        law_put_then_get(u.tracks, track_of(root, file@, id), id);
    }
}

/// The place of a change is its path below the music folder. The music folder itself is no such
/// place, and neither is what lies elsewhere.
pub proof fn law_place_of_a_change(
    dir: Seq<char>,
    folder: Seq<char>,
    name: Seq<char>,
    path: Seq<char>,
)
    requires
        dir.len() > 0,
        is_segment(folder),
        is_segment(name),
        !folder.contains('\\'),
        !name.contains('\\'),
        !is_under(path, dir),
    ensures
        changed_place(dir, dir + seq!['/'] + name) == Some(name),
        changed_place(dir, dir + seq!['/'] + folder + seq!['/'] + name) == Some(
            folder + seq!['/'] + name,
        ),
        changed_place(dir, dir) is None,
        changed_place(dir, path) is None,
{
    law_file_in_a_folder(dir, folder, name);
    let deep = folder + seq!['/'] + name;
    assert forall|i: int| 0 <= i < deep.len() implies #[trigger] deep[i] != '\\' by {
        if i < folder.len() {
            assert(deep[i] == folder[i]);
            assert(folder.contains(folder[i]));
        } else if i > folder.len() {
            assert(deep[i] == name[i - folder.len() - 1]);
            assert(name.contains(name[i - folder.len() - 1]));
        }
    }
    assert forall|i: int| 0 <= i < name.len() implies #[trigger] name[i] != '\\' by {
        assert(name.contains(name[i]));
    }
    assert(slashed(deep) =~= deep);
    assert(slashed(name) =~= name);
    let c = components(dir);
    assert(c.take(c.len() as int) =~= c);
    assert(c.skip(c.len() as int) =~= Seq::<Seq<char>>::empty());
}

/// Whether a file is still there is looked up at its path below its own music folder; where only
/// one music folder counts, nothing is looked up in the others.
pub proof fn law_where_files_are_looked_for(
    music_dirs: Seq<Seq<char>>,
    root: usize,
    other: usize,
    path: Seq<char>,
)
    requires
        root < music_dirs.len(),
        music_dirs[root as int].len() > 0,
        music_dirs[root as int].last() != '/',
        path.len() > 0,
        path[0] != '/',
        other != root,
    ensures
        place_to_look(music_dirs, None, root, path) == Some(
            music_dirs[root as int] + seq!['/'] + path,
        ),
        place_to_look(music_dirs, Some(root), root, path) == Some(
            music_dirs[root as int] + seq!['/'] + path,
        ),
        place_to_look(music_dirs, Some(other), root, path) is None,
        other >= music_dirs.len() ==> place_to_look(music_dirs, None, other, path) is None,
{
    law_path_below_a_folder(music_dirs[root as int], path);
}

/// A file keeps the id under which the index has a track at its own place: it is no copy of itself,
/// whatever is on disk.
pub proof fn law_file_is_no_copy_of_itself<E: Fn(&str) -> bool>(
    on_disk: E,
    music_dirs: Seq<Seq<char>>,
    before: Library,
    root: usize,
    rel_path: Seq<char>,
    file: ScannedFile,
    after: Library,
    k: int,
    t: TrackInfo,
)
    requires
        may_change_at(
            on_disk,
            music_dirs,
            before,
            root,
            rel_path,
            PathChange::File(Some(file)),
            after,
        ),
        distinct_rows(before.rows),
        distinct_ids(before.tracks),
        is_only_row(before.rows, k, file@.hash),
        found(before.tracks, before.rows[k].guid) == Some(t),
        t.root == root,
        t.relative_path == file@.relative_path,
    ensures
        found(after.tracks, before.rows[k].guid) == Some(
            track_of(root, file@, before.rows[k].guid),
        ),
{
    let x = (root, file@);
    let list = seq![x];
    let id = before.rows[k].guid;
    let (held, end) = choose|held: Seq<Seq<char>>, end: Underway|
        {
            &&& may_all_be_held(on_disk, music_dirs, Some(root), before, list, held)
            &&& #[trigger] may_index_files(underway(before, held), list, end)
            &&& after == (Library { tracks: end.tracks, rows: end.rows })
        };
    let u = underway(before, held);
    lemma_single_file(u, x, end);
    let (fresh, now) = choose|fresh: Seq<char>, now: u64|
        is_guid_text(fresh) && end == #[trigger] indexed(u, root, file@, fresh, now);
    assert(list[0] == x);
    assert(has_content(list, before.rows[k].fingerprint));
    assert(has_place(list, t.root, t.relative_path));
    assert(may_be_held(
        on_disk,
        music_dirs,
        Some(root),
        before.tracks,
        list,
        before.rows[k],
        held.contains(id),
    ));
    assert(!held.contains(id));
    let p = at_place(root, file@.relative_path);
    let q = free_with_fingerprint(file@.hash, held);
    lemma_first_where_props(u.rows, p);
    lemma_first_where_props(u.rows, q);
    assert(q(u.rows[k]));
    let f = first_where(u.rows, q);
    assert(q(u.rows[f]));
    assert(f == k);
    law_put_then_get(u.tracks, track_of(root, file@, id), id);
}

} // verus!
