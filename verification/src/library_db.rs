//! The table of known files, which gives each its lasting id.
use crate::clock::now_unix;
use crate::fingerprint::FileFingerprint;
use crate::lists::{
    first_where, holds_text, lemma_filter_all, lemma_filter_from, lemma_filter_members,
    lemma_first_where, lemma_first_where_props,
};
use crate::text::{chars_of, chars_start_with, is_digit, same_text, starts_with, texts};
use vstd::prelude::*;

verus! {

/// What the table holds of one file.
#[derive(Debug)]
pub struct DbRow {
    pub guid: String,
    pub root: usize,
    pub relative_path: String,
    pub fingerprint: String,
    pub size_bytes: u64,
    pub added_at: u64,
    pub last_seen: u64,
}

/// A row as plain values.
#[verifier::ext_equal]
pub struct Row {
    pub guid: Seq<char>,
    pub root: usize,
    pub relative_path: Seq<char>,
    pub fingerprint: Seq<char>,
    pub size_bytes: u64,
    pub added_at: u64,
    pub last_seen: u64,
}

impl View for DbRow {
    type V = Row;

    open spec fn view(&self) -> Row {
        Row {
            guid: self.guid@,
            root: self.root,
            relative_path: self.relative_path@,
            fingerprint: self.fingerprint@,
            size_bytes: self.size_bytes,
            added_at: self.added_at,
            last_seen: self.last_seen,
        }
    }
}

impl Clone for DbRow {
    fn clone(&self) -> (r: Self)
        ensures
            r == *self,
    {
        DbRow {
            guid: self.guid.clone(),
            root: self.root,
            relative_path: self.relative_path.clone(),
            fingerprint: self.fingerprint.clone(),
            size_bytes: self.size_bytes,
            added_at: self.added_at,
            last_seen: self.last_seen,
        }
    }
}

/// Why the table refuses a change.
#[derive(Debug, Clone, Copy, PartialEq, Eq, Structural)]
pub enum DbError {
    /// A row holds the id already.
    GuidTaken,
}

/// The rows of a content.
pub open spec fn with_fingerprint(hash: Seq<char>) -> spec_fn(Row) -> bool {
    |r: Row| r.fingerprint == hash
}

/// The rows of a place: a folder and a path under it.
pub open spec fn at_place(root: usize, path: Seq<char>) -> spec_fn(Row) -> bool {
    |r: Row| r.root == root && r.relative_path == path
}

/// The rows of an id.
pub open spec fn with_guid(guid: Seq<char>) -> spec_fn(Row) -> bool {
    |r: Row| r.guid == guid
}

/// Whether the rows have ids and places of their own.
pub open spec fn distinct_rows(s: Seq<Row>) -> bool {
    forall|i: int, j: int|
        0 <= i < j < s.len() ==> (#[trigger] s[i]).guid != (#[trigger] s[j]).guid && !(s[i].root
            == s[j].root && s[i].relative_path == s[j].relative_path)
}

/// The rows of a content, but for those whose ids are held by other files.
pub open spec fn free_with_fingerprint(
    hash: Seq<char>,
    held: Seq<Seq<char>>,
) -> spec_fn(Row) -> bool {
    |r: Row| r.fingerprint == hash && !held.contains(r.guid)
}

/// Whether the row of a place has the given content.
pub open spec fn is_own(s: Seq<Row>, root: usize, path: Seq<char>, hash: Seq<char>) -> bool {
    let here = first_where(s, at_place(root, path));
    here < s.len() && s[here].fingerprint == hash
}

/// The row by which the content of a file is known: that of its own place where that has the
/// content, and else the first one of the content whose id no other file holds. It is the length
/// of the table where the content is not known.
pub open spec fn content_row(
    s: Seq<Row>,
    held: Seq<Seq<char>>,
    root: usize,
    path: Seq<char>,
    hash: Seq<char>,
) -> int {
    if is_own(s, root, path, hash) {
        first_where(s, at_place(root, path))
    } else {
        first_where(s, free_with_fingerprint(hash, held))
    }
}

/// The rows once one of them follows its file to a place. Where another row has that place, the
/// two trade theirs, so that the other file is still known should it turn up.
pub open spec fn followed(
    s: Seq<Row>,
    k: int,
    root: usize,
    path: Seq<char>,
    size_bytes: u64,
    now: u64,
) -> Seq<Row> {
    let here = first_where(s, at_place(root, path));
    let moved = s.update(
        k,
        Row { root, relative_path: path, size_bytes, last_seen: now, ..s[k] },
    );
    if here < s.len() && here != k {
        moved.update(
            here,
            Row { root: s[k].root, relative_path: s[k].relative_path, ..s[here] },
        )
    } else {
        moved
    }
}

/// What becomes of the table when a file is seen, and the id that the file then has, where other
/// files hold some ids.
///
/// Content comes first: a file whose content is known keeps the id of that row, which follows it to
/// its place. Else a file at a known place keeps the id of the place. Else it is new and takes the
/// fresh id.
pub open spec fn resolved(
    s: Seq<Row>,
    held: Seq<Seq<char>>,
    root: usize,
    path: Seq<char>,
    hash: Seq<char>,
    size_bytes: u64,
    fresh: Seq<char>,
    now: u64,
) -> Result<(Seq<Row>, Seq<char>), DbError> {
    let known = content_row(s, held, root, path, hash);
    let here = first_where(s, at_place(root, path));
    if known < s.len() {
        Ok((followed(s, known, root, path, size_bytes, now), s[known].guid))
    } else if here < s.len() {
        let row = Row { fingerprint: hash, size_bytes, last_seen: now, ..s[here] };
        Ok((s.update(here, row), s[here].guid))
    } else {
        match reassigned(s, root, path, hash, size_bytes, fresh, now) {
            Ok(rows) => Ok((rows, fresh)),
            Err(e) => Err(e),
        }
    }
}

/// The row of a file that is seen for the first time.
pub open spec fn new_row(
    guid: Seq<char>,
    root: usize,
    path: Seq<char>,
    hash: Seq<char>,
    size_bytes: u64,
    now: u64,
) -> Row {
    Row {
        guid,
        root,
        relative_path: path,
        fingerprint: hash,
        size_bytes,
        added_at: now,
        last_seen: now,
    }
}

/// What becomes of the table when a file gets a fresh id whatever its content: the row of its
/// place takes it, and where there is none a new row.
pub open spec fn reassigned(
    s: Seq<Row>,
    root: usize,
    path: Seq<char>,
    hash: Seq<char>,
    size_bytes: u64,
    fresh: Seq<char>,
    now: u64,
) -> Result<Seq<Row>, DbError> {
    let here = first_where(s, at_place(root, path));
    if first_where(s, with_guid(fresh)) < s.len() {
        Err(DbError::GuidTaken)
    } else if here < s.len() {
        let row = Row { guid: fresh, fingerprint: hash, size_bytes, last_seen: now, ..s[here] };
        Ok(s.update(here, row))
    } else {
        Ok(s.push(new_row(fresh, root, path, hash, size_bytes, now)))
    }
}

/// Whether a text is a random UUID in its usual form: lower-case hexadecimal digits in groups of
/// eight, four, four, four and twelve with hyphens between, of version 4.
pub open spec fn is_guid_text(s: Seq<char>) -> bool {
    &&& s.len() == 36
    &&& forall|i: int|
        #![trigger s[i]]
        0 <= i < 36 ==> if i == 8 || i == 13 || i == 18 || i == 23 {
            s[i] == '-'
        } else {
            is_digit(s[i]) || 'a' <= s[i] <= 'f'
        }
    &&& s[14] == '4'
    &&& s[19] == '8' || s[19] == '9' || s[19] == 'a' || s[19] == 'b'
}

/// `uuid::Uuid::new_v4` makes a random UUID of version 4, written out in the hyphenated
/// lower-case form. That no two of them are equal is overwhelmingly likely and not claimed. It
/// panics where the operating system has no random bytes to give.
#[verifier::external_body]
pub(crate) fn fresh_guid() -> (r: String)
    ensures
        is_guid_text(r@),
{
    uuid::Uuid::new_v4().to_string()
}

/// The known files, each with its id, in the order in which they were first seen.
#[derive(Debug)]
pub struct LibraryDb {
    rows: Vec<DbRow>,
}

/// Rows as plain values.
pub open spec fn row_views(rows: Seq<DbRow>) -> Seq<Row> {
    Seq::new(rows.len(), |i: int| rows[i]@)
}

impl View for LibraryDb {
    type V = Seq<Row>;

    closed spec fn view(&self) -> Seq<Row> {
        row_views(self.rows@)
    }
}

impl LibraryDb {
    /// No two rows share an id or a place.
    pub open spec fn wf(self) -> bool {
        distinct_rows(self@)
    }

    /// An empty table.
    pub fn new() -> (r: Self)
        ensures
            r@ == Seq::<Row>::empty(),
            r.wf(),
    {
        let r = LibraryDb { rows: Vec::new() };
        assert(r@ =~= Seq::<Row>::empty());
        r
    }

    /// The table with the given rows, in their order; nothing where two of them share an id or a
    /// place.
    pub fn from_rows(rows: Vec<DbRow>) -> (r: Option<Self>)
        ensures
            match r {
                Some(db) => db@ == row_views(rows@) && db.wf(),
                None => !distinct_rows(row_views(rows@)),
            },
    {
        let ghost all = row_views(rows@);
        let mut i: usize = 0;
        while i < rows.len()
            invariant
                0 <= i <= rows.len(),
                all == row_views(rows@),
                distinct_rows(all.take(i as int)),
            decreases rows.len() - i,
        {
            let mut j: usize = 0;
            while j < i
                invariant
                    0 <= j <= i < rows.len(),
                    all == row_views(rows@),
                    forall|k: int|
                        0 <= k < j ==> (#[trigger] all[k]).guid != all[i as int].guid && !(
                        all[k].root == all[i as int].root && all[k].relative_path
                            == all[i as int].relative_path),
                decreases i - j,
            {
                assert(all[j as int] == rows@[j as int]@ && all[i as int] == rows@[i as int]@);
                if same_text(rows[j].guid.as_str(), rows[i].guid.as_str()) {
                    return None;
                }
                if rows[j].root == rows[i].root && same_text(
                    rows[j].relative_path.as_str(),
                    rows[i].relative_path.as_str(),
                ) {
                    return None;
                }
                j += 1;
            }
            proof {
                let next = all.take(i + 1);
                assert forall|a: int, b: int| 0 <= a < b < next.len() implies (
                #[trigger] next[a]).guid != (#[trigger] next[b]).guid && !(next[a].root
                    == next[b].root && next[a].relative_path == next[b].relative_path) by {
                    assert(next[a] == all[a] && next[b] == all[b]);
                    if b < i {
                        assert(all.take(i as int)[a] == all[a]);
                        assert(all.take(i as int)[b] == all[b]);
                    }
                }
            }
            i += 1;
        }
        assert(all.take(i as int) =~= all);
        Some(LibraryDb { rows })
    }

    /// The rows, in order.
    pub fn rows(&self) -> (r: &Vec<DbRow>)
        ensures
            row_views(r@) == self@,
    {
        &self.rows
    }

    fn position_of_free(&self, hash: &str, held: &[String]) -> (r: usize)
        ensures
            r == first_where(self@, free_with_fingerprint(hash@, texts(held@))),
    {
        let ghost p = free_with_fingerprint(hash@, texts(held@));
        let mut i: usize = 0;
        while i < self.rows.len()
            invariant
                0 <= i <= self.rows.len(),
                p == free_with_fingerprint(hash@, texts(held@)),
                forall|k: int| 0 <= k < i ==> !p(#[trigger] self@[k]),
            decreases self.rows.len() - i,
        {
            assert(self@[i as int] == self.rows@[i as int]@);
            if same_text(self.rows[i].fingerprint.as_str(), hash) && !holds_text(
                held,
                self.rows[i].guid.as_str(),
            ) {
                proof {
                    lemma_first_where(self@, p, i as int);
                }
                return i;
            }
            i += 1;
        }
        proof {
            lemma_first_where(self@, p, i as int);
        }
        i
    }

    fn position_of_place(&self, root: usize, path: &str) -> (r: usize)
        ensures
            r == first_where(self@, at_place(root, path@)),
    {
        let ghost p = at_place(root, path@);
        let mut i: usize = 0;
        while i < self.rows.len()
            invariant
                0 <= i <= self.rows.len(),
                p == at_place(root, path@),
                forall|k: int| 0 <= k < i ==> !p(#[trigger] self@[k]),
            decreases self.rows.len() - i,
        {
            assert(self@[i as int] == self.rows@[i as int]@);
            if self.rows[i].root == root && same_text(self.rows[i].relative_path.as_str(), path) {
                proof {
                    lemma_first_where(self@, p, i as int);
                }
                return i;
            }
            i += 1;
        }
        proof {
            lemma_first_where(self@, p, i as int);
        }
        i
    }

    fn position_of_guid(&self, guid: &str) -> (r: usize)
        ensures
            r == first_where(self@, with_guid(guid@)),
    {
        let ghost p = with_guid(guid@);
        let mut i: usize = 0;
        while i < self.rows.len()
            invariant
                0 <= i <= self.rows.len(),
                p == with_guid(guid@),
                forall|k: int| 0 <= k < i ==> !p(#[trigger] self@[k]),
            decreases self.rows.len() - i,
        {
            assert(self@[i as int] == self.rows@[i as int]@);
            if same_text(self.rows[i].guid.as_str(), guid) {
                proof {
                    lemma_first_where(self@, p, i as int);
                }
                return i;
            }
            i += 1;
        }
        proof {
            lemma_first_where(self@, p, i as int);
        }
        i
    }

    /// Whether the place of a file is known with the content of the file.
    pub fn knows_at_place(&self, root: usize, relative_path: &str, hash: &str) -> (r: bool)
        ensures
            r == is_own(self@, root, relative_path@, hash@),
    {
        let here = self.position_of_place(root, relative_path);
        proof {
            lemma_first_where_props(self@, at_place(root, relative_path@));
        }
        if here < self.rows.len() {
            assert(self@[here as int] == self.rows@[here as int]@);
            same_text(self.rows[here].fingerprint.as_str(), hash)
        } else {
            false
        }
    }

    /// Whether the content of a file is known, but for the ids that other files hold.
    pub fn knows_content(
        &self,
        root: usize,
        relative_path: &str,
        hash: &str,
        held: &[String],
    ) -> (r: bool)
        ensures
            r == (content_row(self@, texts(held@), root, relative_path@, hash@) < self@.len()),
    {
        proof {
            lemma_first_where_props(self@, at_place(root, relative_path@));
        }
        self.knows_at_place(root, relative_path, hash) || self.position_of_free(hash, held)
            < self.rows.len()
    }

    /// Has the row of a content follow its file to a place.
    fn follow(&mut self, known: usize, root: usize, relative_path: &str, size_bytes: u64, now: u64)
        requires
            known < old(self)@.len(),
        ensures
            final(self)@ == followed(
                old(self)@,
                known as int,
                root,
                relative_path@,
                size_bytes,
                now,
            ),
    {
        let ghost before = self@;
        let here = self.position_of_place(root, relative_path);
        proof {
            lemma_first_where_props(self@, at_place(root, relative_path@));
        }
        let mut row = self.rows[known].clone();
        let left_root = row.root;
        let left_path = row.relative_path.clone();
        row.root = root;
        row.relative_path = relative_path.to_owned();
        row.size_bytes = size_bytes;
        row.last_seen = now;
        let ghost view = row@;
        self.rows.set(known, row);
        assert(self@ =~= before.update(known as int, view));
        if here < self.rows.len() && here != known {
            let ghost mid = self@;
            let mut other = self.rows[here].clone();
            other.root = left_root;
            other.relative_path = left_path;
            let ghost view = other@;
            assert(mid[here as int] == before[here as int]);
            self.rows.set(here, other);
            assert(self@ =~= mid.update(here as int, view));
        }
    }

    /// Records a file that was seen at the given time and gives its id, where other files hold
    /// some ids; a new file takes the fresh one.
    pub fn resolve_guid_with(
        &mut self,
        root: usize,
        relative_path: &str,
        fingerprint: &FileFingerprint,
        held: &[String],
        fresh: String,
        now: u64,
    ) -> (r: Result<String, DbError>)
        requires
            old(self).wf(),
        ensures
            final(self).wf(),
            match resolved(
                old(self)@,
                texts(held@),
                root,
                relative_path@,
                fingerprint.hash@,
                fingerprint.size_bytes,
                fresh@,
                now,
            ) {
                Ok((rows, id)) => r matches Ok(g) && g@ == id && final(self)@ == rows,
                Err(e) => r matches Err(x) && x == e && final(self)@ == old(self)@,
            },
    {
        proof {
            law_resolving_keeps_rows_distinct(
                self@,
                texts(held@),
                root,
                relative_path@,
                fingerprint.hash@,
                fingerprint.size_bytes,
                fresh@,
                now,
            );
            lemma_first_where_props(
                self@,
                free_with_fingerprint(fingerprint.hash@, texts(held@)),
            );
            lemma_first_where_props(self@, at_place(root, relative_path@));
        }
        let ghost before = self@;
        let here = self.position_of_place(root, relative_path);
        let known = if self.knows_at_place(root, relative_path, fingerprint.hash.as_str()) {
            here
        } else {
            self.position_of_free(fingerprint.hash.as_str(), held)
        };
        if known < self.rows.len() {
            let id = self.rows[known].guid.clone();
            assert(self@[known as int] == self.rows@[known as int]@);
            self.follow(known, root, relative_path, fingerprint.size_bytes, now);
            return Ok(id);
        }
        if here < self.rows.len() {
            let mut row = self.rows[here].clone();
            let id = row.guid.clone();
            row.fingerprint = fingerprint.hash.clone();
            row.size_bytes = fingerprint.size_bytes;
            row.last_seen = now;
            let ghost view = row@;
            self.rows.set(here, row);
            assert(self@ =~= before.update(here as int, view));
            return Ok(id);
        }
        self.assign_new_guid_with(root, relative_path, fingerprint, fresh, now)
    }

    /// Records a file that is seen now and gives its id; a new file gets a random one.
    pub fn resolve_guid(
        &mut self,
        root: usize,
        relative_path: &str,
        fingerprint: &FileFingerprint,
    ) -> (r: Result<String, DbError>)
        requires
            old(self).wf(),
        ensures
            final(self).wf(),
            exists|fresh: Seq<char>, now: u64|
                is_guid_text(fresh) && match #[trigger] resolved(
                    old(self)@,
                    Seq::empty(),
                    root,
                    relative_path@,
                    fingerprint.hash@,
                    fingerprint.size_bytes,
                    fresh,
                    now,
                ) {
                    Ok((rows, id)) => r matches Ok(g) && g@ == id && final(self)@ == rows,
                    Err(e) => r matches Err(x) && x == e && final(self)@ == old(self)@,
                },
    {
        let now = now_unix();
        let fresh = fresh_guid();
        let ghost id = fresh@;
        let held: Vec<String> = Vec::new();
        assert(texts(held@) =~= Seq::empty());
        let r = self.resolve_guid_with(
            root,
            relative_path,
            fingerprint,
            held.as_slice(),
            fresh,
            now,
        );
        assert(is_guid_text(id));
        r
    }

    /// Records a file that was seen at the given time under the fresh id, whatever its content.
    pub fn assign_new_guid_with(
        &mut self,
        root: usize,
        relative_path: &str,
        fingerprint: &FileFingerprint,
        fresh: String,
        now: u64,
    ) -> (r: Result<String, DbError>)
        requires
            old(self).wf(),
        ensures
            final(self).wf(),
            match reassigned(
                old(self)@,
                root,
                relative_path@,
                fingerprint.hash@,
                fingerprint.size_bytes,
                fresh@,
                now,
            ) {
                Ok(rows) => r matches Ok(g) && g@ == fresh@ && final(self)@ == rows,
                Err(e) => r matches Err(x) && x == e && final(self)@ == old(self)@,
            },
    {
        proof {
            law_reassigning_keeps_rows_distinct(
                self@,
                root,
                relative_path@,
                fingerprint.hash@,
                fingerprint.size_bytes,
                fresh@,
                now,
            );
            lemma_first_where_props(self@, at_place(root, relative_path@));
        }
        let ghost before = self@;
        let here = self.position_of_place(root, relative_path);
        if self.position_of_guid(fresh.as_str()) < self.rows.len() {
            return Err(DbError::GuidTaken);
        }
        if here < self.rows.len() {
            let mut row = self.rows[here].clone();
            row.guid = fresh.clone();
            row.fingerprint = fingerprint.hash.clone();
            row.size_bytes = fingerprint.size_bytes;
            row.last_seen = now;
            let ghost view = row@;
            self.rows.set(here, row);
            assert(self@ =~= before.update(here as int, view));
            return Ok(fresh);
        }
        let row = DbRow {
            guid: fresh.clone(),
            root,
            relative_path: relative_path.to_owned(),
            fingerprint: fingerprint.hash.clone(),
            size_bytes: fingerprint.size_bytes,
            added_at: now,
            last_seen: now,
        };
        let ghost view = row@;
        self.rows.push(row);
        assert(self@ =~= before.push(view));
        Ok(fresh)
    }

    /// Records a file that is seen now under a random id of its own, whatever its content.
    pub fn assign_new_guid(
        &mut self,
        root: usize,
        relative_path: &str,
        fingerprint: &FileFingerprint,
    ) -> (r: Result<String, DbError>)
        requires
            old(self).wf(),
        ensures
            final(self).wf(),
            exists|fresh: Seq<char>, now: u64|
                is_guid_text(fresh) && match #[trigger] reassigned(
                    old(self)@,
                    root,
                    relative_path@,
                    fingerprint.hash@,
                    fingerprint.size_bytes,
                    fresh,
                    now,
                ) {
                    Ok(rows) => r matches Ok(g) && g@ == fresh && final(self)@ == rows,
                    Err(e) => r matches Err(x) && x == e && final(self)@ == old(self)@,
                },
    {
        let now = now_unix();
        let fresh = fresh_guid();
        let ghost id = fresh@;
        let r = self.assign_new_guid_with(root, relative_path, fingerprint, fresh, now);
        assert(is_guid_text(id));
        r
    }

    fn retain<F: Fn(&DbRow) -> bool>(&mut self, keep: &F, Ghost(p): Ghost<spec_fn(Row) -> bool>)
        requires
            old(self).wf(),
            forall|x: &DbRow| call_requires(*keep, (x,)),
            forall|x: &DbRow, b: bool| call_ensures(*keep, (x,), b) ==> b == p(x@),
        ensures
            final(self).wf(),
            final(self)@ == old(self)@.filter(p),
    {
        proof {
            lemma_filter_distinct(self@, p);
            reveal(Seq::filter);
        }
        let mut kept: Vec<DbRow> = Vec::new();
        let mut i: usize = 0;
        assert(row_views(kept@) =~= self@.take(0).filter(p));
        while i < self.rows.len()
            invariant
                0 <= i <= self.rows.len(),
                row_views(kept@) == self@.take(i as int).filter(p),
                forall|x: &DbRow| call_requires(*keep, (x,)),
                forall|x: &DbRow, b: bool| call_ensures(*keep, (x,), b) ==> b == p(x@),
            decreases self.rows.len() - i,
        {
            let ghost before = row_views(kept@);
            let ghost view = self.rows@[i as int]@;
            proof {
                reveal(Seq::filter);
                assert(self@.take(i + 1).drop_last() =~= self@.take(i as int));
                assert(self@.take(i + 1).last() == view);
            }
            if keep(&self.rows[i]) {
                kept.push(self.rows[i].clone());
                assert(row_views(kept@) =~= before.push(view));
            }
            i += 1;
        }
        assert(self@.take(i as int) =~= self@);
        self.rows = kept;
    }

    /// Forgets the files of a folder whose ids are not among the seen ones, and counts them.
    pub fn prune_missing_for_root(&mut self, root: usize, seen: &[String]) -> (n: usize)
        requires
            old(self).wf(),
        ensures
            final(self).wf(),
            final(self)@ == pruned(old(self)@, root, texts(seen@)),
            n == old(self)@.len() - final(self)@.len(),
    {
        let keep = |row: &DbRow| -> (b: bool)
            ensures
                b == is_kept(row@, root, texts(seen@)),
            { row.root != root || holds_text(seen, row.guid.as_str()) };
        let ghost p = |r: Row| is_kept(r, root, texts(seen@));
        let before = self.rows.len();
        proof {
            self@.lemma_filter_len(p);
        }
        self.retain(&keep, Ghost(p));
        before - self.rows.len()
    }

    /// Forgets the files of all folders from the given number on.
    pub fn prune_roots_from(&mut self, roots: usize)
        requires
            old(self).wf(),
        ensures
            final(self).wf(),
            final(self)@ == old(self)@.filter(|r: Row| r.root < roots),
    {
        let keep = |row: &DbRow| -> (b: bool)
            ensures
                b == (row@.root < roots),
            { row.root < roots };
        let ghost p = |r: Row| r.root < roots;
        self.retain(&keep, Ghost(p));
    }

    /// Forgets the file at a place.
    pub fn remove_path(&mut self, root: usize, relative_path: &str)
        requires
            old(self).wf(),
        ensures
            final(self).wf(),
            final(self)@ == without_place(old(self)@, root, relative_path@),
    {
        let keep = |row: &DbRow| -> (b: bool)
            ensures
                b == !(row@.root == root && row@.relative_path == relative_path@),
            { !(row.root == root && same_text(row.relative_path.as_str(), relative_path)) };
        let ghost p = |r: Row| !(r.root == root && r.relative_path == relative_path@);
        self.retain(&keep, Ghost(p));
    }

    /// Forgets the file at a place and all files under it.
    pub fn remove_prefix(&mut self, root: usize, rel_prefix: &str)
        requires
            old(self).wf(),
        ensures
            final(self).wf(),
            final(self)@ == without_prefix(old(self)@, root, rel_prefix@),
    {
        let keep = |row: &DbRow| -> (b: bool)
            ensures
                b == !(row@.root == root && (row@.relative_path == rel_prefix@ || is_below(
                    row@.relative_path,
                    rel_prefix@,
                ))),
            {
                !(row.root == root && (same_text(row.relative_path.as_str(), rel_prefix)
                    || path_is_below(row.relative_path.as_str(), rel_prefix)))
            };
        let ghost p = |r: Row|
            !(r.root == root && (r.relative_path == rel_prefix@ || is_below(
                r.relative_path,
                rel_prefix@,
            )));
        self.retain(&keep, Ghost(p));
    }
}

/// Whether a row outlives a scan of a folder that saw the given ids.
pub open spec fn is_kept(r: Row, root: usize, seen: Seq<Seq<char>>) -> bool {
    r.root != root || seen.contains(r.guid)
}

/// The rows that outlive a scan of a folder that saw the given ids.
pub open spec fn pruned(s: Seq<Row>, root: usize, seen: Seq<Seq<char>>) -> Seq<Row> {
    s.filter(|r: Row| is_kept(r, root, seen))
}

/// The rows but for the one at a place.
pub open spec fn without_place(s: Seq<Row>, root: usize, path: Seq<char>) -> Seq<Row> {
    s.filter(|r: Row| !(r.root == root && r.relative_path == path))
}

/// Whether a path lies under another.
pub open spec fn is_below(path: Seq<char>, prefix: Seq<char>) -> bool {
    starts_with(path, prefix.push('/'))
}

/// The rows but for those at a place or under it.
pub open spec fn without_prefix(s: Seq<Row>, root: usize, prefix: Seq<char>) -> Seq<Row> {
    s.filter(
        |r: Row|
            !(r.root == root && (r.relative_path == prefix || is_below(r.relative_path, prefix))),
    )
}

/// Whether a path lies under another.
pub fn path_is_below(path: &str, prefix: &str) -> (r: bool)
    ensures
        r == is_below(path@, prefix@),
{
    let mut p = chars_of(prefix);
    p.push('/');
    chars_start_with(chars_of(path).as_slice(), p.as_slice())
}

pub proof fn lemma_filter_distinct(s: Seq<Row>, p: spec_fn(Row) -> bool)
    requires
        distinct_rows(s),
    ensures
        distinct_rows(s.filter(p)),
    decreases s.len(),
{
    reveal(Seq::filter);
    if s.len() > 0 {
        let front = s.drop_last();
        assert(distinct_rows(front)) by {
            assert forall|i: int, j: int| 0 <= i < j < front.len() implies (
            #[trigger] front[i]).guid != (#[trigger] front[j]).guid && !(front[i].root
                == front[j].root && front[i].relative_path == front[j].relative_path) by {
                assert(front[i] == s[i] && front[j] == s[j]);
            }
        }
        lemma_filter_distinct(front, p);
        let t = s.filter(p);
        let f = front.filter(p);
        assert forall|i: int, j: int| 0 <= i < j < t.len() implies (#[trigger] t[i]).guid != (
        #[trigger] t[j]).guid && !(t[i].root == t[j].root && t[i].relative_path
            == t[j].relative_path) by {
            assert(t[i] == f[i]);
            if j < f.len() {
                assert(t[j] == f[j]);
            } else {
                let k = lemma_filter_from(front, p, i);
                assert(s[k] == front[k]);
                assert(t[j] == s[s.len() - 1]);
            }
        }
    }
}

/// Which row a file gets: that of its content, or else that of its place, or else a new one.
pub open spec fn row_of(
    s: Seq<Row>,
    held: Seq<Seq<char>>,
    root: usize,
    path: Seq<char>,
    hash: Seq<char>,
) -> int {
    if content_row(s, held, root, path, hash) < s.len() {
        content_row(s, held, root, path, hash)
    } else {
        first_where(s, at_place(root, path))
    }
}

/// What seeing a file does to each row.
pub proof fn lemma_resolved_rows(
    s: Seq<Row>,
    held: Seq<Seq<char>>,
    root: usize,
    path: Seq<char>,
    hash: Seq<char>,
    size_bytes: u64,
    fresh: Seq<char>,
    now: u64,
)
    requires
        distinct_rows(s),
        resolved(s, held, root, path, hash, size_bytes, fresh, now) is Ok,
    ensures
        ({
            let (t, id) = resolved(s, held, root, path, hash, size_bytes, fresh, now)->Ok_0;
            let k = row_of(s, held, root, path, hash);
            &&& distinct_rows(t)
            &&& 0 <= k <= s.len()
            &&& k < s.len() ==> t.len() == s.len() && id == s[k].guid
            &&& k == s.len() ==> t.len() == s.len() + 1 && id == fresh
            &&& k == s.len() ==> forall|i: int| 0 <= i < s.len() ==> (#[trigger] s[i]).guid != fresh
            &&& t[k].guid == id
            &&& t[k].root == root
            &&& t[k].relative_path == path
            &&& t[k].fingerprint == hash
            &&& forall|i: int| 0 <= i < s.len() ==> (#[trigger] t[i]).guid == s[i].guid
            &&& forall|i: int|
                0 <= i < s.len() && i != k ==> (#[trigger] t[i]).fingerprint == s[i].fingerprint
            &&& forall|i: int|
                0 <= i < s.len() && i != k && !at_place(root, path)(s[i]) ==> #[trigger] t[i]
                    == s[i]
            &&& k < s.len() ==> at_place(root, path)(s[k]) || !held.contains(s[k].guid)
            &&& content_row(s, held, root, path, hash) < s.len() ==> k < s.len()
                && s[k].fingerprint == hash
        }),
{
    let p = free_with_fingerprint(hash, held);
    let q = at_place(root, path);
    let g = with_guid(fresh);
    lemma_first_where_props(s, p);
    lemma_first_where_props(s, q);
    lemma_first_where_props(s, g);
    let here = first_where(s, q);
    let k = row_of(s, held, root, path, hash);
    let (t, id) = resolved(s, held, root, path, hash, size_bytes, fresh, now)->Ok_0;
    if k == s.len() {
        assert forall|i: int| 0 <= i < s.len() implies (#[trigger] s[i]).guid != fresh by {
            assert(!g(s[i]));
        }
    }
    if here < s.len() {
        assert(q(s[here]));
    }
    if k < s.len() {
        assert(k == here || p(s[k]));
    }
    assert forall|i: int, j: int| 0 <= i < j < t.len() implies (#[trigger] t[i]).guid != (
    #[trigger] t[j]).guid && !(t[i].root == t[j].root && t[i].relative_path
        == t[j].relative_path) by {
        if j < s.len() {
            assert(s[i].guid != s[j].guid);
            assert(!(s[i].root == s[j].root && s[i].relative_path == s[j].relative_path));
            let o = if i == k {
                j
            } else {
                i
            };
            if o != here {
                lemma_place_is_free(s, root, path, here, o);
            }
            if j != here && j != k {
                lemma_place_is_free(s, root, path, here, j);
            }
            if k < s.len() && k != here {
                lemma_place_is_free(s, root, path, here, k);
                if i != k && i != here {
                    assert(s[if i < k {
                        i
                    } else {
                        k
                    }].guid != s[if i < k {
                        k
                    } else {
                        i
                    }].guid);
                }
                if j != k && j != here {
                    assert(s[if j < k {
                        j
                    } else {
                        k
                    }].guid != s[if j < k {
                        k
                    } else {
                        j
                    }].guid);
                }
            }
        } else {
            lemma_place_is_free(s, root, path, here, i);
        }
    }
}

/// Whatever file is seen, the rows keep ids and places of their own.
pub proof fn law_resolving_keeps_rows_distinct(
    s: Seq<Row>,
    held: Seq<Seq<char>>,
    root: usize,
    path: Seq<char>,
    hash: Seq<char>,
    size_bytes: u64,
    fresh: Seq<char>,
    now: u64,
)
    requires
        distinct_rows(s),
    ensures
        resolved(s, held, root, path, hash, size_bytes, fresh, now) matches Ok((t, id))
            ==> distinct_rows(t),
{
    if resolved(s, held, root, path, hash, size_bytes, fresh, now) is Ok {
        lemma_resolved_rows(s, held, root, path, hash, size_bytes, fresh, now);
    }
}

proof fn lemma_place_is_free(s: Seq<Row>, root: usize, path: Seq<char>, here: int, o: int)
    requires
        distinct_rows(s),
        here == first_where(s, at_place(root, path)),
        0 <= o < s.len(),
        o != here,
    ensures
        !(s[o].root == root && s[o].relative_path == path),
{
    lemma_first_where_props(s, at_place(root, path));
    if s[o].root == root && s[o].relative_path == path {
        assert(at_place(root, path)(s[o]));
        assert(here < o);
        assert(at_place(root, path)(s[here]));
    }
}

/// Giving a file a fresh id keeps the rows' ids and places distinct.
pub proof fn law_reassigning_keeps_rows_distinct(
    s: Seq<Row>,
    root: usize,
    path: Seq<char>,
    hash: Seq<char>,
    size_bytes: u64,
    fresh: Seq<char>,
    now: u64,
)
    requires
        distinct_rows(s),
    ensures
        reassigned(s, root, path, hash, size_bytes, fresh, now) matches Ok(t) ==> distinct_rows(t),
{
    let here = first_where(s, at_place(root, path));
    lemma_first_where_props(s, at_place(root, path));
    lemma_first_where_props(s, with_guid(fresh));
    if let Ok(t) = reassigned(s, root, path, hash, size_bytes, fresh, now) {
        let k = if here < s.len() {
            here
        } else {
            s.len() as int
        };
        assert forall|i: int, j: int| 0 <= i < j < t.len() implies (#[trigger] t[i]).guid != (
        #[trigger] t[j]).guid && !(t[i].root == t[j].root && t[i].relative_path
            == t[j].relative_path) by {
            let o = if i == k {
                j
            } else {
                i
            };
            if i == k || j == k {
                assert(t[o] == s[o]);
                assert(!with_guid(fresh)(s[o]));
                lemma_place_is_free(s, root, path, here, o);
            } else {
                assert(t[i] == s[i] && t[j] == s[j]);
            }
        }
    }
}

/// A file that is seen again where it was, with the same content, keeps its id, whatever ids other
/// files hold.
pub proof fn law_seen_again_keeps_id(
    s: Seq<Row>,
    held: Seq<Seq<char>>,
    root: usize,
    path: Seq<char>,
    hash: Seq<char>,
    size_bytes: u64,
    fresh: Seq<char>,
    now: u64,
    later_held: Seq<Seq<char>>,
    later_fresh: Seq<char>,
    later: u64,
)
    requires
        distinct_rows(s),
        resolved(s, held, root, path, hash, size_bytes, fresh, now) is Ok,
    ensures
        ({
            let (t, id) = resolved(s, held, root, path, hash, size_bytes, fresh, now)->Ok_0;
            resolved(t, later_held, root, path, hash, size_bytes, later_fresh, later) matches Ok(
                (u, again),
            ) && again == id
        }),
{
    lemma_resolved_rows(s, held, root, path, hash, size_bytes, fresh, now);
    let (t, id) = resolved(s, held, root, path, hash, size_bytes, fresh, now)->Ok_0;
    let k = row_of(s, held, root, path, hash);
    lemma_row_at_place(t, k);
}

/// In a table with distinct places, a row is the first one of its place.
pub proof fn lemma_row_at_place(s: Seq<Row>, k: int)
    requires
        distinct_rows(s),
        0 <= k < s.len(),
    ensures
        first_where(s, at_place(s[k].root, s[k].relative_path)) == k,
        is_own(s, s[k].root, s[k].relative_path, s[k].fingerprint),
{
    let q = at_place(s[k].root, s[k].relative_path);
    lemma_first_where_props(s, q);
    assert(q(s[k]));
    let here = first_where(s, q);
    if here != k {
        lemma_place_is_free(s, s[k].root, s[k].relative_path, here, k);
    }
}

/// A file that is moved or renamed, within its folder or to another one, keeps its id, also where
/// another file was known at its new place, so long as no other file is known by its content. Where
/// no file was known at its new place, its old one is left free.
pub proof fn law_moved_file_keeps_id(
    s: Seq<Row>,
    k: int,
    new_root: usize,
    new_path: Seq<char>,
    size_bytes: u64,
    fresh: Seq<char>,
    now: u64,
)
    requires
        distinct_rows(s),
        0 <= k < s.len(),
        forall|i: int| 0 <= i < s.len() && i != k ==> (#[trigger] s[i]).fingerprint
            != s[k].fingerprint,
    ensures
        ({
            &&& resolved(
                s,
                Seq::empty(),
                new_root,
                new_path,
                s[k].fingerprint,
                size_bytes,
                fresh,
                now,
            ) matches Ok((u, id))
            &&& id == s[k].guid
            &&& u.len() == s.len()
            &&& first_where(s, at_place(new_root, new_path)) == s.len() ==> without_place(
                u,
                s[k].root,
                s[k].relative_path,
            ) == u
        }),
{
    let hash = s[k].fingerprint;
    let p = free_with_fingerprint(hash, Seq::empty());
    let q = at_place(new_root, new_path);
    lemma_first_where_props(s, p);
    lemma_first_where_props(s, q);
    assert(p(s[k]));
    assert(content_row(s, Seq::empty(), new_root, new_path, hash) == k);
    lemma_resolved_rows(s, Seq::empty(), new_root, new_path, hash, size_bytes, fresh, now);
    let (u, id) = resolved(
        s,
        Seq::empty(),
        new_root,
        new_path,
        hash,
        size_bytes,
        fresh,
        now,
    )->Ok_0;
    if first_where(s, q) == s.len() {
        let keep = |r: Row| !(r.root == s[k].root && r.relative_path == s[k].relative_path);
        assert forall|i: int| 0 <= i < u.len() implies keep(#[trigger] u[i]) by {
            if i == k {
                assert(!q(s[k]));
            } else {
                assert(!q(s[i]));
                assert(u[i] == s[i]);
                lemma_row_at_place(s, k);
                lemma_row_at_place(s, i);
            }
        }
        lemma_filter_all(u, keep);
    }
}

/// Two files that trade places keep their ids, so long as no other file is known by the content of
/// either.
pub proof fn law_swapped_files_keep_ids(
    s: Seq<Row>,
    a: int,
    b: int,
    size_a: u64,
    size_b: u64,
    fresh: Seq<char>,
    now: u64,
    later_fresh: Seq<char>,
    later: u64,
)
    requires
        distinct_rows(s),
        0 <= a < s.len(),
        0 <= b < s.len(),
        a != b,
        s[a].fingerprint != s[b].fingerprint,
        forall|i: int|
            0 <= i < s.len() && i != a && i != b ==> (#[trigger] s[i]).fingerprint
                != s[a].fingerprint && s[i].fingerprint != s[b].fingerprint,
    ensures
        ({
            &&& resolved(
                s,
                Seq::empty(),
                s[a].root,
                s[a].relative_path,
                s[b].fingerprint,
                size_b,
                fresh,
                now,
            ) matches Ok((t, first))
            &&& first == s[b].guid
            &&& resolved(
                t,
                Seq::empty(),
                s[b].root,
                s[b].relative_path,
                s[a].fingerprint,
                size_a,
                later_fresh,
                later,
            ) matches Ok((u, second))
            &&& second == s[a].guid
        }),
{
    law_moved_file_keeps_id(s, b, s[a].root, s[a].relative_path, size_b, fresh, now);
    lemma_resolved_rows(
        s,
        Seq::empty(),
        s[a].root,
        s[a].relative_path,
        s[b].fingerprint,
        size_b,
        fresh,
        now,
    );
    let p = free_with_fingerprint(s[b].fingerprint, Seq::empty());
    lemma_first_where_props(s, p);
    assert(p(s[b]));
    lemma_row_at_place(s, a);
    assert(row_of(s, Seq::empty(), s[a].root, s[a].relative_path, s[b].fingerprint) == b);
    let t = resolved(
        s,
        Seq::empty(),
        s[a].root,
        s[a].relative_path,
        s[b].fingerprint,
        size_b,
        fresh,
        now,
    )->Ok_0.0;
    assert forall|i: int| 0 <= i < t.len() && i != a implies (#[trigger] t[i]).fingerprint
        != t[a].fingerprint by {
        if i != b {
            assert(t[i].fingerprint == s[i].fingerprint);
        }
    }
    law_moved_file_keeps_id(t, a, s[b].root, s[b].relative_path, size_a, later_fresh, later);
}

/// A file whose content is new keeps the id of the place it is found at.
pub proof fn law_reused_path_keeps_id(
    s: Seq<Row>,
    held: Seq<Seq<char>>,
    i: int,
    hash: Seq<char>,
    size_bytes: u64,
    fresh: Seq<char>,
    now: u64,
)
    requires
        distinct_rows(s),
        0 <= i < s.len(),
        first_where(s, with_fingerprint(hash)) == s.len(),
    ensures
        resolved(s, held, s[i].root, s[i].relative_path, hash, size_bytes, fresh, now) == Ok::<
            (Seq<Row>, Seq<char>),
            DbError,
        >(
            (
                s.update(i, Row { fingerprint: hash, size_bytes, last_seen: now, ..s[i] }),
                s[i].guid,
            ),
        ),
{
    lemma_row_at_place(s, i);
    lemma_unknown_content(s, held, s[i].root, s[i].relative_path, hash);
}

proof fn lemma_unknown_content(
    s: Seq<Row>,
    held: Seq<Seq<char>>,
    root: usize,
    path: Seq<char>,
    hash: Seq<char>,
)
    requires
        first_where(s, with_fingerprint(hash)) == s.len(),
    ensures
        content_row(s, held, root, path, hash) == s.len(),
{
    let p = free_with_fingerprint(hash, held);
    lemma_first_where_props(s, with_fingerprint(hash));
    lemma_first_where_props(s, at_place(root, path));
    assert forall|k: int| 0 <= k < s.len() implies !p(#[trigger] s[k]) by {
        assert(!with_fingerprint(hash)(s[k]));
    }
    lemma_first_where(s, p, s.len() as int);
    let here = first_where(s, at_place(root, path));
    if here < s.len() {
        assert(!with_fingerprint(hash)(s[here]));
    }
}

/// Two new files get ids of their own.
pub proof fn law_new_files_get_distinct_ids(
    s: Seq<Row>,
    held: Seq<Seq<char>>,
    root: usize,
    path: Seq<char>,
    hash: Seq<char>,
    size_bytes: u64,
    fresh: Seq<char>,
    now: u64,
    i: int,
)
    requires
        0 <= i < s.len(),
        first_where(s, with_fingerprint(hash)) == s.len(),
        first_where(s, at_place(root, path)) == s.len(),
    ensures
        match resolved(s, held, root, path, hash, size_bytes, fresh, now) {
            Ok((t, id)) => id == fresh && id != s[i].guid && t == s.push(
                new_row(fresh, root, path, hash, size_bytes, now),
            ),
            Err(e) => e == DbError::GuidTaken && s.any(with_guid(fresh)),
        },
{
    lemma_unknown_content(s, held, root, path, hash);
    lemma_first_where_props(s, with_guid(fresh));
    if first_where(s, with_guid(fresh)) == s.len() {
        assert(!with_guid(fresh)(s[i]));
    } else {
        let k = first_where(s, with_guid(fresh));
        assert(with_guid(fresh)(s[k]));
    }
}

/// After a scan of a folder the rows of the files that it did not see are gone, and no others.
pub proof fn law_pruning_forgets_missing_files_only(
    s: Seq<Row>,
    root: usize,
    seen: Seq<Seq<char>>,
    r: Row,
)
    ensures
        pruned(s, root, seen).contains(r) <==> s.contains(r) && (r.root != root || seen.contains(
            r.guid,
        )),
{
    lemma_filter_members(s, |x: Row| is_kept(x, root, seen), r);
}

/// Once a folder is removed no row at its place or under it is left, and every row of another
/// folder or beside it stays.
pub proof fn law_removing_a_folder_spares_its_neighbours(
    s: Seq<Row>,
    root: usize,
    prefix: Seq<char>,
    r: Row,
)
    ensures
        without_prefix(s, root, prefix).contains(r) <==> s.contains(r) && !(r.root == root && (
        r.relative_path == prefix || is_below(r.relative_path, prefix))),
{
    lemma_filter_members(
        s,
        |x: Row|
            !(x.root == root && (x.relative_path == prefix || is_below(x.relative_path, prefix))),
        r,
    );
}

/// The table notes what it is told of a file: its place, its content and its size, and when it was
/// seen; when it was added is the time at which its row was made and does not change again.
pub proof fn law_table_notes_what_was_seen(
    s: Seq<Row>,
    held: Seq<Seq<char>>,
    root: usize,
    path: Seq<char>,
    hash: Seq<char>,
    size_bytes: u64,
    fresh: Seq<char>,
    now: u64,
)
    requires
        distinct_rows(s),
        resolved(s, held, root, path, hash, size_bytes, fresh, now) is Ok,
    ensures
        ({
            let (t, id) = resolved(s, held, root, path, hash, size_bytes, fresh, now)->Ok_0;
            exists|k: int|
                {
                    &&& 0 <= k < t.len()
                    &&& (#[trigger] t[k]).guid == id
                    &&& t[k].root == root
                    &&& t[k].relative_path == path
                    &&& t[k].fingerprint == hash
                    &&& t[k].size_bytes == size_bytes
                    &&& t[k].last_seen == now
                    &&& t[k].added_at == if k < s.len() {
                        s[k].added_at
                    } else {
                        now
                    }
                    &&& forall|i: int|
                        0 <= i < s.len() ==> (#[trigger] t[i]).added_at == s[i].added_at
                    &&& forall|i: int|
                        0 <= i < s.len() && i != k ==> (#[trigger] t[i]).size_bytes
                            == s[i].size_bytes && t[i].last_seen == s[i].last_seen
                }
        }),
{
    lemma_resolved_rows(s, held, root, path, hash, size_bytes, fresh, now);
    lemma_first_where_props(s, at_place(root, path));
    lemma_first_where_props(s, free_with_fingerprint(hash, held));
    let (t, id) = resolved(s, held, root, path, hash, size_bytes, fresh, now)->Ok_0;
    let k = row_of(s, held, root, path, hash);
    assert(t[k].guid == id);
}

/// A fresh id that no row has is given to the place, whatever was known of it: its row, or a new
/// one, has that id and the content from then on, and no other row changes. One that a row has is
/// refused.
pub proof fn law_fresh_id_is_given(
    s: Seq<Row>,
    root: usize,
    path: Seq<char>,
    hash: Seq<char>,
    size_bytes: u64,
    fresh: Seq<char>,
    now: u64,
)
    requires
        distinct_rows(s),
    ensures
        match reassigned(s, root, path, hash, size_bytes, fresh, now) {
            Ok(t) => {
                &&& forall|i: int| 0 <= i < s.len() ==> (#[trigger] s[i]).guid != fresh
                &&& exists|k: int|
                    {
                        &&& 0 <= k < t.len()
                        &&& (#[trigger] t[k]).guid == fresh
                        &&& t[k].root == root
                        &&& t[k].relative_path == path
                        &&& t[k].fingerprint == hash
                        &&& t[k].size_bytes == size_bytes
                        &&& t[k].last_seen == now
                        &&& t.len() == if k < s.len() {
                            s.len()
                        } else {
                            s.len() + 1
                        }
                        &&& forall|i: int| 0 <= i < s.len() && i != k ==> #[trigger] t[i] == s[i]
                    }
            },
            Err(e) => e == DbError::GuidTaken && exists|i: int|
                0 <= i < s.len() && (#[trigger] s[i]).guid == fresh,
        },
{
    lemma_first_where_props(s, at_place(root, path));
    lemma_first_where_props(s, with_guid(fresh));
    let g = with_guid(fresh);
    match reassigned(s, root, path, hash, size_bytes, fresh, now) {
        Ok(t) => {
            assert forall|i: int| 0 <= i < s.len() implies (#[trigger] s[i]).guid != fresh by {
                assert(!g(s[i]));
            }
            let k = first_where(s, at_place(root, path));
            assert(t[k].guid == fresh);
        },
        Err(e) => {
            assert(g(s[first_where(s, g)]));
        },
    }
}

/// What lies below a folder is what its path and a slash begin, case by case.
pub proof fn law_what_lies_below(folder: Seq<char>, name: Seq<char>, path: Seq<char>)
    ensures
        is_below(folder + seq!['/'] + name, folder),
        is_below(path, folder) ==> exists|more: Seq<char>| path == #[trigger] (folder + seq!['/']
            + more),
{
    let start = folder.push('/');
    let whole = folder + seq!['/'] + name;
    assert(whole.take(start.len() as int) =~= start);
    if is_below(path, folder) {
        let more = path.skip(start.len() as int);
        assert(path =~= path.take(start.len() as int) + more);
        assert(path =~= folder + seq!['/'] + more);
    }
}

} // verus!
