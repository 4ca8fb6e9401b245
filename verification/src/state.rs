//! The track index and what is derived from the configured folders.
use crate::lists::{
    first_where, lemma_filter_from, lemma_filter_members, lemma_first_where,
    lemma_first_where_props,
};
use crate::paths::{file_name, file_name_of, is_segment, join_path, joined, law_file_in_a_folder};
use crate::text::{
    decimal, decimal_text, digit_char, lemma_digits_differ, number_text, opt_text, push_number,
    same_text, texts,
};
use vstd::prelude::*;

verus! {

/// What is known of one audio file.
#[derive(Debug)]
pub struct Track {
    pub id: String,
    pub title: String,
    pub artist: String,
    pub album_artist: Option<String>,
    pub album: String,
    pub duration_seconds: u64,
    pub bitrate_kbps: Option<u32>,
    pub format: String,
    pub stream_url: String,
    pub has_embedded_lyrics: bool,
    pub has_embedded_art: bool,
    pub genre: Option<String>,
    pub year: Option<u32>,
    pub track_number: Option<u32>,
    pub disc_number: Option<u32>,
    pub added_at: u64,
    pub root: usize,
    pub relative_path: String,
}

impl Clone for Track {
    fn clone(&self) -> (r: Self)
        ensures
            r == *self,
    {
        Track {
            id: self.id.clone(),
            title: self.title.clone(),
            artist: self.artist.clone(),
            album_artist: self.album_artist.clone(),
            album: self.album.clone(),
            duration_seconds: self.duration_seconds,
            bitrate_kbps: self.bitrate_kbps,
            format: self.format.clone(),
            stream_url: self.stream_url.clone(),
            has_embedded_lyrics: self.has_embedded_lyrics,
            has_embedded_art: self.has_embedded_art,
            genre: self.genre.clone(),
            year: self.year,
            track_number: self.track_number,
            disc_number: self.disc_number,
            added_at: self.added_at,
            root: self.root,
            relative_path: self.relative_path.clone(),
        }
    }
}

/// What is known of one audio file, as plain values.
#[verifier::ext_equal]
pub struct TrackInfo {
    pub id: Seq<char>,
    pub title: Seq<char>,
    pub artist: Seq<char>,
    pub album_artist: Option<Seq<char>>,
    pub album: Seq<char>,
    pub duration_seconds: u64,
    pub bitrate_kbps: Option<u32>,
    pub format: Seq<char>,
    pub stream_url: Seq<char>,
    pub has_embedded_lyrics: bool,
    pub has_embedded_art: bool,
    pub genre: Option<Seq<char>>,
    pub year: Option<u32>,
    pub track_number: Option<u32>,
    pub disc_number: Option<u32>,
    pub added_at: u64,
    pub root: usize,
    pub relative_path: Seq<char>,
}

impl View for Track {
    type V = TrackInfo;

    open spec fn view(&self) -> TrackInfo {
        TrackInfo {
            id: self.id@,
            title: self.title@,
            artist: self.artist@,
            album_artist: opt_text(self.album_artist),
            album: self.album@,
            duration_seconds: self.duration_seconds,
            bitrate_kbps: self.bitrate_kbps,
            format: self.format@,
            stream_url: self.stream_url@,
            has_embedded_lyrics: self.has_embedded_lyrics,
            has_embedded_art: self.has_embedded_art,
            genre: opt_text(self.genre),
            year: self.year,
            track_number: self.track_number,
            disc_number: self.disc_number,
            added_at: self.added_at,
            root: self.root,
            relative_path: self.relative_path@,
        }
    }
}

/// Tracks as plain values.
pub open spec fn infos(v: Seq<Track>) -> Seq<TrackInfo> {
    Seq::new(v.len(), |i: int| v[i]@)
}

/// Whether no two tracks of a list share an id.
pub open spec fn distinct_ids(s: Seq<TrackInfo>) -> bool {
    forall|i: int, j: int| 0 <= i < j < s.len() ==> (#[trigger] s[i]).id != (#[trigger] s[j]).id
}

/// The tracks with an id.
pub open spec fn having_id(id: Seq<char>) -> spec_fn(TrackInfo) -> bool {
    |t: TrackInfo| t.id == id
}

/// Where the track with the id stands, or the length of the list where there is none.
pub open spec fn id_position(s: Seq<TrackInfo>, id: Seq<char>) -> int {
    first_where(s, having_id(id))
}

/// The track with the id, where there is one.
pub open spec fn found(s: Seq<TrackInfo>, id: Seq<char>) -> Option<TrackInfo> {
    if id_position(s, id) < s.len() {
        Some(s[id_position(s, id)])
    } else {
        None
    }
}

/// The list with a track put in: in the place of the one with its id, or at the end.
pub open spec fn put(s: Seq<TrackInfo>, t: TrackInfo) -> Seq<TrackInfo> {
    if id_position(s, t.id) < s.len() {
        s.update(id_position(s, t.id), t)
    } else {
        s.push(t)
    }
}

/// The indexed tracks, each under its id, in the order in which they came.
#[derive(Debug)]
pub struct TrackMap {
    tracks: Vec<Track>,
}

impl View for TrackMap {
    type V = Seq<TrackInfo>;

    closed spec fn view(&self) -> Seq<TrackInfo> {
        infos(self.tracks@)
    }
}

impl TrackMap {
    /// No two tracks share an id.
    pub open spec fn wf(self) -> bool {
        distinct_ids(self@)
    }

    /// An index without tracks.
    pub fn new() -> (r: Self)
        ensures
            r@ == Seq::<TrackInfo>::empty(),
            r.wf(),
    {
        let r = TrackMap { tracks: Vec::new() };
        assert(r@ =~= Seq::<TrackInfo>::empty());
        r
    }

    /// The number of tracks.
    pub fn len(&self) -> (n: usize)
        ensures
            n == self@.len(),
    {
        self.tracks.len()
    }

    /// The tracks, in order.
    pub fn all(&self) -> (r: &Vec<Track>)
        ensures
            infos(r@) == self@,
    {
        &self.tracks
    }

    fn position(&self, id: &str) -> (r: usize)
        ensures
            r == id_position(self@, id@),
            r <= self.tracks@.len(),
    {
        let ghost p = having_id(id@);
        let mut i: usize = 0;
        while i < self.tracks.len()
            invariant
                0 <= i <= self.tracks.len(),
                p == having_id(id@),
                forall|k: int| 0 <= k < i ==> !p(#[trigger] self@[k]),
            decreases self.tracks.len() - i,
        {
            assert(self@[i as int] == self.tracks@[i as int]@);
            if same_text(self.tracks[i].id.as_str(), id) {
                proof {
                    lemma_first_where(self@, p, i as int);
                }
                return i;
            }
            i += 1;
        }
        proof {
            lemma_first_where(self@, p, i as int);
        }
        i
    }

    /// The track with the id, where there is one.
    pub fn get(&self, id: &str) -> (r: Option<&Track>)
        ensures
            match r {
                Some(t) => found(self@, id@) == Some(t@) && t.id@ == id@,
                None => found(self@, id@) is None,
            },
    {
        let i = self.position(id);
        if i < self.tracks.len() {
            proof {
                lemma_first_where_props(self@, having_id(id@));
            }
            Some(&self.tracks[i])
        } else {
            None
        }
    }

    /// Puts a track in, in the place of the one with its id where there is one.
    pub fn insert(&mut self, track: Track)
        requires
            old(self).wf(),
        ensures
            final(self)@ == put(old(self)@, track@),
            final(self).wf(),
    {
        proof {
            law_put_then_get(self@, track@, track@.id);
        }
        let i = self.position(track.id.as_str());
        if i < self.tracks.len() {
            self.tracks.set(i, track);
        } else {
            self.tracks.push(track);
        }
        assert(self@ =~= put(old(self)@, track@));
    }

    /// Sets when a track was added.
    pub(crate) fn set_added_at(&mut self, i: usize, added_at: u64)
        requires
            old(self).wf(),
            i < old(self)@.len(),
        ensures
            final(self).wf(),
            final(self)@ == old(self)@.update(
                i as int,
                (TrackInfo { added_at, ..old(self)@[i as int] }),
            ),
    {
        let mut track = self.tracks[i].clone();
        track.added_at = added_at;
        let ghost view = track@;
        self.tracks.set(i, track);
        assert(self@ =~= old(self)@.update(i as int, view));
        assert forall|a: int, b: int| 0 <= a < b < self@.len() implies (#[trigger] self@[a]).id != (
        #[trigger] self@[b]).id by {
            assert(self@[a].id == old(self)@[a].id && self@[b].id == old(self)@[b].id);
        }
    }

    /// Takes out the tracks that a test does not hold of.
    pub(crate) fn retain<F: Fn(&Track) -> bool>(
        &mut self,
        keep: &F,
        Ghost(p): Ghost<spec_fn(TrackInfo) -> bool>,
    )
        requires
            old(self).wf(),
            forall|x: &Track| call_requires(*keep, (x,)),
            forall|x: &Track, b: bool| call_ensures(*keep, (x,), b) ==> b == p(x@),
        ensures
            final(self).wf(),
            final(self)@ == old(self)@.filter(p),
    {
        proof {
            lemma_filter_keeps_ids_distinct(self@, p);
            reveal(Seq::filter);
        }
        let mut kept: Vec<Track> = Vec::new();
        let mut i: usize = 0;
        assert(infos(kept@) =~= self@.take(0).filter(p));
        while i < self.tracks.len()
            invariant
                0 <= i <= self.tracks.len(),
                infos(kept@) == self@.take(i as int).filter(p),
                forall|x: &Track| call_requires(*keep, (x,)),
                forall|x: &Track, b: bool| call_ensures(*keep, (x,), b) ==> b == p(x@),
            decreases self.tracks.len() - i,
        {
            let ghost before = infos(kept@);
            let ghost view = self.tracks@[i as int]@;
            proof {
                reveal(Seq::filter);
                assert(self@.take(i + 1).drop_last() =~= self@.take(i as int));
                assert(self@.take(i + 1).last() == view);
            }
            if keep(&self.tracks[i]) {
                kept.push(self.tracks[i].clone());
                assert(infos(kept@) =~= before.push(view));
            }
            i += 1;
        }
        assert(self@.take(i as int) =~= self@);
        self.tracks = kept;
    }
}

impl Clone for TrackMap {
    fn clone(&self) -> (r: Self)
        ensures
            r@ == self@,
    {
        let mut tracks: Vec<Track> = Vec::new();
        let mut i: usize = 0;
        while i < self.tracks.len()
            invariant
                0 <= i <= self.tracks.len(),
                infos(tracks@) == self@.take(i as int),
            decreases self.tracks.len() - i,
        {
            let ghost before = infos(tracks@);
            tracks.push(self.tracks[i].clone());
            assert(infos(tracks@) =~= before.push(self.tracks@[i as int]@));
            i += 1;
            assert(infos(tracks@) =~= self@.take(i as int));
        }
        assert(self@.take(i as int) =~= self@);
        TrackMap { tracks }
    }
}

pub proof fn lemma_filter_keeps_ids_distinct(s: Seq<TrackInfo>, p: spec_fn(TrackInfo) -> bool)
    requires
        distinct_ids(s),
    ensures
        distinct_ids(s.filter(p)),
    decreases s.len(),
{
    reveal(Seq::filter);
    if s.len() > 0 {
        let front = s.drop_last();
        assert(distinct_ids(front)) by {
            assert forall|i: int, j: int| 0 <= i < j < front.len() implies (
            #[trigger] front[i]).id != (#[trigger] front[j]).id by {
                assert(front[i] == s[i] && front[j] == s[j]);
            }
        }
        lemma_filter_keeps_ids_distinct(front, p);
        let t = s.filter(p);
        let f = front.filter(p);
        assert forall|i: int, j: int| 0 <= i < j < t.len() implies (#[trigger] t[i]).id != (
        #[trigger] t[j]).id by {
            assert(t[i] == f[i]);
            if j < f.len() {
                assert(t[j] == f[j]);
            } else {
                let k = lemma_filter_from(front, p, i);
                assert(s[k] == front[k]);
                assert(t[j] == s[s.len() - 1]);
            }
        }
    }
}

/// In a list without repeated ids, the track at a position is the one found under its id.
pub proof fn lemma_found_at(s: Seq<TrackInfo>, i: int)
    requires
        distinct_ids(s),
        0 <= i < s.len(),
    ensures
        id_position(s, s[i].id) == i,
        found(s, s[i].id) == Some(s[i]),
{
    let p = having_id(s[i].id);
    assert forall|k: int| 0 <= k < i implies !p(#[trigger] s[k]) by {
        assert(s[k].id != s[i].id);
    }
    lemma_first_where(s, p, i);
}

/// A track that was put in is the one found under its id, and every other id finds what it found
/// before.
pub proof fn law_put_then_get(s: Seq<TrackInfo>, t: TrackInfo, id: Seq<char>)
    requires
        distinct_ids(s),
    ensures
        distinct_ids(put(s, t)),
        found(put(s, t), t.id) == Some(t),
        id != t.id ==> found(put(s, t), id) == found(s, id),
{
    let p = put(s, t);
    let k = id_position(s, t.id);
    lemma_first_where_props(s, having_id(t.id));
    assert forall|i: int, j: int| 0 <= i < j < p.len() implies (#[trigger] p[i]).id != (
    #[trigger] p[j]).id by {
        if i != k && j != k {
            assert(p[i] == s[i] && p[j] == s[j]);
        } else if k < s.len() {
            assert(having_id(t.id)(s[k]));
            assert(s[i].id != s[j].id);
        } else {
            assert(p[i] == s[i]);
            assert(!having_id(t.id)(s[i]));
        }
    }
    assert(p[k] == t);
    lemma_found_at(p, k);
    if id != t.id {
        lemma_first_where_props(s, having_id(id));
        lemma_first_where_props(p, having_id(id));
        let i = id_position(s, id);
        let q = id_position(p, id);
        if i < s.len() {
            assert(having_id(id)(s[i]));
            assert(i != k);
            assert(p[i] == s[i]);
            lemma_found_at(p, i);
        } else if q < p.len() {
            assert(having_id(id)(p[q]));
            assert(q != k);
            assert(s[q] == p[q]);
            assert(!having_id(id)(s[q]));
        }
    }
}

/// The index that is served, with a number that every change of it raises.
#[derive(Debug)]
pub struct TrackIndex {
    tracks: TrackMap,
    revision: u64,
}

impl View for TrackIndex {
    type V = Seq<TrackInfo>;

    closed spec fn view(&self) -> Seq<TrackInfo> {
        self.tracks@
    }
}

impl TrackIndex {
    /// No two tracks share an id.
    pub open spec fn wf(self) -> bool {
        distinct_ids(self@)
    }

    /// How often the index was changed.
    pub closed spec fn version(self) -> nat {
        self.revision as nat
    }

    /// An index that was not changed yet.
    pub fn new(tracks: TrackMap) -> (r: Self)
        requires
            tracks.wf(),
        ensures
            r@ == tracks@,
            r.wf(),
            r.version() == 0,
    {
        TrackIndex { tracks, revision: 0 }
    }

    /// The tracks.
    pub fn tracks(&self) -> (r: &TrackMap)
        ensures
            r@ == self@,
            self.wf() ==> r.wf(),
    {
        &self.tracks
    }

    /// How often the index was changed.
    pub fn revision(&self) -> (r: u64)
        ensures
            r == self.version(),
    {
        self.revision
    }

    /// Puts the tracks of a new scan in the place of the old ones.
    pub fn replace(&mut self, tracks: TrackMap)
        requires
            tracks.wf(),
            old(self).version() < u64::MAX,
        ensures
            final(self).wf(),
            final(self)@ == tracks@,
            final(self).version() == old(self).version() + 1,
            gets_another_tag(old(self).version(), final(self).version()),
    {
        proof {
            lemma_another_tag(self.version(), self.version() + 1);
        }
        self.tracks = tracks;
        self.revision = self.revision + 1;
    }

    /// Puts a track in, in the place of the one with its id where there is one.
    pub fn insert(&mut self, track: Track)
        requires
            old(self).wf(),
            old(self).version() < u64::MAX,
        ensures
            final(self).wf(),
            final(self)@ == put(old(self)@, track@),
            final(self).version() == old(self).version() + 1,
            gets_another_tag(old(self).version(), final(self).version()),
    {
        proof {
            lemma_another_tag(self.version(), self.version() + 1);
        }
        self.tracks.insert(track);
        self.revision = self.revision + 1;
    }
}

/// The version tag of a track list: the second of the last scan and how often the index was
/// changed, in quoted hexadecimal.
pub open spec fn etag_of(last_scan_secs: nat, version: nat) -> Seq<char> {
    "\""@ + number_text(last_scan_secs, 16) + "-"@ + number_text(version, 16) + "\""@
}

/// The version tag of a track list whose last scan was at the given Unix second.
pub fn etag(last_scan_secs: u64, revision: u64) -> (r: String)
    ensures
        r@ == etag_of(last_scan_secs as nat, revision as nat),
{
    let mut r = "\"".to_owned();
    push_number(&mut r, last_scan_secs, 16);
    r.append("-");
    push_number(&mut r, revision, 16);
    r.append("\"");
    r
}

/// Whether the tags of two versions differ, whenever the last scans were.
pub open spec fn gets_another_tag(version: nat, later: nat) -> bool {
    forall|s: nat, t: nat| #[trigger] etag_of(s, version) != #[trigger] etag_of(t, later)
}

/// The folder that a track is looked up in: the one its root index names, or else the first.
pub open spec fn base_dir(music_dirs: Seq<Seq<char>>, root: int) -> Seq<char> {
    if 0 <= root < music_dirs.len() {
        music_dirs[root]
    } else if music_dirs.len() > 0 {
        music_dirs[0]
    } else {
        Seq::empty()
    }
}

/// Where the file of a track is.
pub fn track_abs_path(music_dirs: &[String], track: &Track) -> (r: String)
    ensures
        r@ == joined(
            base_dir(texts(music_dirs@), track.root as int),
            track.relative_path@,
        ),
{
    let base = if track.root < music_dirs.len() {
        music_dirs[track.root].clone()
    } else if music_dirs.len() > 0 {
        music_dirs[0].clone()
    } else {
        String::new()
    };
    join_path(base.as_str(), track.relative_path.as_str())
}

/// What a music folder is called: the last component of its path, or the whole path.
pub open spec fn dir_name(dir: Seq<char>) -> Seq<char> {
    match file_name(dir) {
        Some(n) => n,
        None => dir,
    }
}

/// How often a name occurs in a list.
pub open spec fn occurrences(names: Seq<Seq<char>>, name: Seq<char>) -> nat
    decreases names.len(),
{
    if names.len() == 0 {
        0
    } else {
        occurrences(names.drop_last(), name) + if names.last() == name {
            1nat
        } else {
            0nat
        }
    }
}

/// The label of a folder: its name where no other folder has it, and otherwise the name with the
/// folder's number among those that share it.
pub open spec fn label_of(names: Seq<Seq<char>>, i: int) -> Seq<char> {
    if occurrences(names, names[i]) <= 1 {
        names[i]
    } else {
        names[i] + " ("@ + decimal(occurrences(names.take(i + 1), names[i])) + ")"@
    }
}

/// The names of the folders.
pub open spec fn dir_names(dirs: Seq<Seq<char>>) -> Seq<Seq<char>> {
    dirs.map_values(|d: Seq<char>| dir_name(d))
}

/// The labels of the folders.
pub open spec fn labels(dirs: Seq<Seq<char>>) -> Seq<Seq<char>> {
    Seq::new(dirs.len(), |i: int| label_of(dir_names(dirs), i))
}

fn count_name(names: &[String], upto: usize, name: &str) -> (n: usize)
    requires
        upto <= names.len(),
    ensures
        n == occurrences(texts(names@).take(upto as int), name@),
        n <= upto,
{
    let mut n: usize = 0;
    let mut i: usize = 0;
    let ghost all = texts(names@);
    while i < upto
        invariant
            0 <= i <= upto <= names.len(),
            n <= i,
            all == texts(names@),
            n == occurrences(all.take(i as int), name@),
        decreases upto - i,
    {
        assert(all.take(i + 1).drop_last() =~= all.take(i as int));
        assert(all.take(i + 1).last() == names@[i as int]@);
        if same_text(names[i].as_str(), name) {
            n += 1;
        }
        i += 1;
    }
    n
}

/// The labels of the music folders, in their order.
pub fn compute_music_dir_labels(dirs: &[String]) -> (r: Vec<String>)
    ensures
        texts(r@) == labels(texts(dirs@)),
{
    let mut names: Vec<String> = Vec::new();
    let mut i: usize = 0;
    while i < dirs.len()
        invariant
            0 <= i <= dirs.len(),
            names.len() == i,
            forall|k: int| 0 <= k < i ==> #[trigger] names@[k]@ == dir_name(dirs@[k]@),
        decreases dirs.len() - i,
    {
        let name = match file_name_of(dirs[i].as_str()) {
            Some(n) => n,
            None => dirs[i].clone(),
        };
        names.push(name);
        i += 1;
    }
    let ghost all = texts(names@);
    assert(all =~= dir_names(texts(dirs@)));
    let mut r: Vec<String> = Vec::new();
    let mut i: usize = 0;
    while i < names.len()
        invariant
            0 <= i <= names.len(),
            all == texts(names@),
            r.len() == i,
            forall|k: int| 0 <= k < i ==> #[trigger] r@[k]@ == label_of(all, k),
        decreases names.len() - i,
    {
        let name = names[i].as_str();
        let total = count_name(names.as_slice(), names.len(), name);
        assert(all.take(names@.len() as int) =~= all);
        let mut label = names[i].clone();
        if total > 1 {
            let n = count_name(names.as_slice(), i + 1, name);
            label.append(" (");
            label.append(decimal_text(n as u64).as_str());
            label.append(")");
        }
        r.push(label);
        i += 1;
    }
    assert(texts(r@) =~= labels(texts(dirs@)));
    r
}

/// Different numbers are written differently.
pub proof fn lemma_number_injective(a: nat, b: nat, base: nat)
    requires
        2 <= base <= 16,
        number_text(a, base) == number_text(b, base),
    ensures
        a == b,
    decreases a,
{
    let x = number_text(a, base);
    let y = number_text(b, base);
    if a < base || b < base {
        lemma_number_len(a, base);
        lemma_number_len(b, base);
        assert(x[0] == y[0]);
        lemma_digits_differ(a, b);
    } else {
        vstd::arithmetic::div_mod::lemma_div_decreases(a as int, base as int);
        vstd::arithmetic::div_mod::lemma_fundamental_div_mod(a as int, base as int);
        vstd::arithmetic::div_mod::lemma_fundamental_div_mod(b as int, base as int);
        vstd::arithmetic::div_mod::lemma_mod_bound(a as int, base as int);
        vstd::arithmetic::div_mod::lemma_mod_bound(b as int, base as int);
        assert(x.last() == digit_char(a % base));
        assert(y.last() == digit_char(b % base));
        lemma_digits_differ(a % base, b % base);
        assert(x.drop_last() =~= number_text(a / base, base));
        assert(y.drop_last() =~= number_text(b / base, base));
        lemma_number_injective(a / base, b / base, base);
    }
}

proof fn lemma_number_len(a: nat, base: nat)
    requires
        base >= 2,
    ensures
        number_text(a, base).len() >= 1,
        a >= base ==> number_text(a, base).len() >= 2,
    decreases a,
{
    if a >= base {
        vstd::arithmetic::div_mod::lemma_div_decreases(a as int, base as int);
        lemma_number_len(a / base, base);
    }
}

proof fn lemma_number_has_no_hyphen(a: nat, base: nat, i: int)
    requires
        2 <= base <= 16,
        0 <= i < number_text(a, base).len(),
    ensures
        number_text(a, base)[i] != '-',
    decreases a,
{
    if a >= base {
        vstd::arithmetic::div_mod::lemma_div_decreases(a as int, base as int);
        vstd::arithmetic::div_mod::lemma_mod_bound(a as int, base as int);
        let front = number_text(a / base, base);
        if i < front.len() {
            lemma_number_has_no_hyphen(a / base, base, i);
        }
    }
}

/// The version tags of two lists are the same only where both their last scans were in the same
/// second and the index was changed as often.
pub proof fn law_etags_tell_states_apart(a: nat, v: nat, b: nat, w: nat)
    ensures
        etag_of(a, v) == etag_of(b, w) <==> a == b && v == w,
{
    if etag_of(a, v) == etag_of(b, w) {
        reveal_strlit("\"");
        reveal_strlit("-");
        let x = etag_of(a, v);
        let y = etag_of(b, w);
        let m = number_text(a, 16).len() as int;
        let n = number_text(b, 16).len() as int;
        assert(x[1 + m] == '-');
        assert(y[1 + n] == '-');
        if m < n {
            assert(y[1 + m] == number_text(b, 16)[m]);
            lemma_number_has_no_hyphen(b, 16, m);
        }
        if n < m {
            assert(x[1 + n] == number_text(a, 16)[n]);
            lemma_number_has_no_hyphen(a, 16, n);
        }
        assert(number_text(a, 16) =~= x.subrange(1, 1 + m));
        assert(number_text(b, 16) =~= y.subrange(1, 1 + m));
        assert(number_text(v, 16) =~= x.subrange(2 + m, x.len() - 1));
        assert(number_text(w, 16) =~= y.subrange(2 + m, y.len() - 1));
        lemma_number_injective(a, b, 16);
        lemma_number_injective(v, w, 16);
    }
}

proof fn lemma_another_tag(v: nat, w: nat)
    requires
        v != w,
    ensures
        gets_another_tag(v, w),
{
    assert forall|s: nat, t: nat| #[trigger] etag_of(s, v) != #[trigger] etag_of(t, w) by {
        law_etags_tell_states_apart(s, v, t, w);
    }
}

proof fn lemma_occurrences_grow(names: Seq<Seq<char>>, name: Seq<char>, i: int, j: int)
    requires
        0 <= i < j < names.len(),
        names[j] == name,
    ensures
        occurrences(names.take(i + 1), name) < occurrences(names.take(j + 1), name),
    decreases j - i,
{
    assert(names.take(j + 1).drop_last() =~= names.take(j));
    lemma_occurrences_monotonic(names, name, i + 1, j);
}

proof fn lemma_occurrences_monotonic(names: Seq<Seq<char>>, name: Seq<char>, i: int, j: int)
    requires
        0 <= i <= j <= names.len(),
    ensures
        occurrences(names.take(i), name) <= occurrences(names.take(j), name),
    decreases j - i,
{
    if i < j {
        assert(names.take(j).drop_last() =~= names.take(j - 1));
        lemma_occurrences_monotonic(names, name, i, j - 1);
    }
}

/// Folders that share a name get different labels.
pub proof fn law_labels_disambiguate(dirs: Seq<Seq<char>>, i: int, j: int)
    requires
        0 <= i < j < dirs.len(),
        dir_name(dirs[i]) == dir_name(dirs[j]),
    ensures
        labels(dirs)[i] != labels(dirs)[j],
{
    let names = dir_names(dirs);
    let name = names[i];
    assert(names[j] == name);
    lemma_occurrences_grow(names, name, i, j);
    lemma_occurrences_monotonic(names, name, j + 1, names.len() as int);
    assert(names.take(names.len() as int) =~= names);
    assert(names.take(i + 1).last() == name);
    assert(occurrences(names, name) > 1);
    let a = occurrences(names.take(i + 1), name);
    let b = occurrences(names.take(j + 1), name);
    let head = name + " ("@;
    if labels(dirs)[i] == labels(dirs)[j] {
        let x = head + decimal(a) + ")"@;
        let y = head + decimal(b) + ")"@;
        assert(x == y);
        let end = ")"@.len() as int;
        assert(x.subrange(head.len() as int, x.len() - end) =~= decimal(a));
        assert(y.subrange(head.len() as int, y.len() - end) =~= decimal(b));
        lemma_number_injective(a, b, 10);
    }
}

/// What is found under an id is the track of the index that has it, and nothing is found only where
/// no track has it.
pub proof fn law_finding_by_id(s: Seq<TrackInfo>, id: Seq<char>, i: int)
    requires
        distinct_ids(s),
        0 <= i < s.len(),
    ensures
        s[i].id == id ==> found(s, id) == Some(s[i]),
        found(s, id) matches Some(t) ==> s.contains(t) && t.id == id,
        found(s, id) is None ==> s[i].id != id,
{
    let p = having_id(id);
    lemma_first_where_props(s, p);
    let k = id_position(s, id);
    if s[i].id == id {
        assert(p(s[i]));
        if k < i {
            assert(p(s[k]));
            assert(s[k].id != s[i].id);
        }
    }
    if k < s.len() {
        assert(p(s[k]));
    }
}

/// A track lies in the music folder that its number names.
pub proof fn law_folder_of_a_track(music_dirs: Seq<Seq<char>>, root: int)
    requires
        0 <= root < music_dirs.len(),
    ensures
        base_dir(music_dirs, root) == music_dirs[root],
{
}

/// A music folder is labelled by its own name where no other one has that name, and otherwise by
/// the name and, in round brackets, its number among those that share it.
pub proof fn law_labels_are_names(dirs: Seq<Seq<char>>, i: int)
    requires
        0 <= i < dirs.len(),
    ensures
        labels(dirs).len() == dirs.len(),
        (forall|j: int| 0 <= j < dirs.len() && j != i ==> dir_name(#[trigger] dirs[j]) != dir_name(
            dirs[i],
        )) ==> labels(dirs)[i] == dir_name(dirs[i]),
        (exists|j: int| 0 <= j < dirs.len() && j != i && dir_name(#[trigger] dirs[j]) == dir_name(
            dirs[i],
        )) ==> labels(dirs)[i] == dir_name(dirs[i]) + " ("@ + decimal(
            dirs.take(i + 1).filter(|d: Seq<char>| dir_name(d) == dir_name(dirs[i])).len(),
        ) + ")"@,
{
    let names = dir_names(dirs);
    let name = dir_name(dirs[i]);
    assert(names[i] == name);
    assert(names.take(i + 1) =~= dir_names(dirs.take(i + 1)));
    lemma_occurrences_filter(dirs, name);
    lemma_occurrences_filter(dirs.take(i + 1), name);
    let p = |d: Seq<char>| dir_name(d) == name;
    lemma_filter_counts(dirs, p, i);
}

proof fn lemma_occurrences_filter(dirs: Seq<Seq<char>>, name: Seq<char>)
    ensures
        occurrences(dir_names(dirs), name) == dirs.filter(
            |d: Seq<char>| dir_name(d) == name,
        ).len(),
    decreases dirs.len(),
{
    reveal(Seq::filter);
    if dirs.len() > 0 {
        lemma_occurrences_filter(dirs.drop_last(), name);
        assert(dir_names(dirs).drop_last() =~= dir_names(dirs.drop_last()));
    }
}

/// One of the items that are kept is the only one just where no other place has one.
proof fn lemma_filter_counts<A>(s: Seq<A>, p: spec_fn(A) -> bool, i: int)
    requires
        0 <= i < s.len(),
        p(s[i]),
    ensures
        s.filter(p).len() >= 1,
        s.filter(p).len() == 1 <==> forall|j: int| 0 <= j < s.len() && j != i ==> !p(
            #[trigger] s[j],
        ),
    decreases s.len(),
{
    reveal(Seq::filter);
    let front = s.drop_last();
    if i < front.len() {
        lemma_filter_counts(front, p, i);
        assert(front[i] == s[i]);
        if s.filter(p).len() == 1 {
            assert forall|j: int| 0 <= j < s.len() && j != i implies !p(#[trigger] s[j]) by {
                if j < front.len() {
                    assert(!p(front[j]));
                }
            }
        }
        if forall|j: int| 0 <= j < s.len() && j != i ==> !p(#[trigger] s[j]) {
            assert forall|j: int| 0 <= j < front.len() && j != i implies !p(
                #[trigger] front[j],
            ) by {
                assert(!p(s[j]));
            }
            assert(!p(s[s.len() - 1]));
        }
    } else {
        if front.filter(p).len() == 0 {
            assert forall|j: int| 0 <= j < s.len() && j != i implies !p(#[trigger] s[j]) by {
                lemma_filter_members(front, p, s[j]);
                assert(front[j] == s[j]);
                assert(front.contains(s[j]));
                if p(s[j]) {
                    assert(front.filter(p).contains(s[j]));
                }
            }
        } else {
            let k = lemma_filter_from(front, p, 0);
            assert(p(s[k]));
        }
    }
}

/// What a music folder is called is the last part of its path.
pub proof fn law_name_of_a_folder(dir: Seq<char>, name: Seq<char>)
    requires
        dir.len() > 0,
        is_segment(name),
    ensures
        dir_name(dir + seq!['/'] + name) == name,
{
    law_file_in_a_folder(dir, name, name);
}

/// What a track stands for are its fields.
pub proof fn law_tracks_are_shown(t: Track)
    ensures
        t@.id == t.id@,
        t@.title == t.title@,
        t@.artist == t.artist@,
        t@.album == t.album@,
        t@.duration_seconds == t.duration_seconds,
        t@.bitrate_kbps == t.bitrate_kbps,
        t@.format == t.format@,
        t@.stream_url == t.stream_url@,
        t@.has_embedded_lyrics == t.has_embedded_lyrics,
        t@.has_embedded_art == t.has_embedded_art,
        t@.year == t.year,
        t@.track_number == t.track_number,
        t@.disc_number == t.disc_number,
        t@.added_at == t.added_at,
        t@.root == t.root,
        t@.relative_path == t.relative_path@,
        t.album_artist matches Some(a) ==> t@.album_artist == Some(a@),
        t.album_artist is None ==> t@.album_artist is None,
        t.genre matches Some(g) ==> t@.genre == Some(g@),
        t.genre is None ==> t@.genre is None,
{
}

} // verus!
