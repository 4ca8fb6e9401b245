//! Tracks grouped into albums and artists.
use crate::grouping::{
    count_by_keys, group_positions, having_key, is_key_list, is_total_order, lemma_at_positions_of,
    lemma_count_by_all_keys, lemma_sort_ascends, lemma_sort_members, lemma_sorted_keys,
    positions_of, sorted_keys,
};
use crate::lists::{
    first_where, lemma_filter_from, lemma_filter_members, lemma_filter_same, lemma_first_where,
    lemma_first_where_props,
};
use crate::metadata::{keep_non_blank, non_blank};
use crate::order::{
    as_ints, at_positions, by_text, lemma_by_text, lemma_text_not_lt, sort_texts, stable_sort,
};
use crate::page::{
    cap_limit, holds_needle, keep_where, law_searching_looks_everywhere, needle_of, opt_str,
    page_limit, paged, search_needle, stands_in, take_page, text_holds_needle,
};
use crate::state::{distinct_ids, infos, Track, TrackInfo, TrackMap};
use crate::text::{
    chars_before, chars_of, is_blank, lemma_text_lt_irreflexive, lemma_text_lt_total, lowered,
    same_chars, same_text, text_lt, texts,
};
use vstd::prelude::*;

verus! {

/// An album, as it is listed.
#[derive(Debug, PartialEq)]
pub struct AlbumSummary {
    pub name: String,
    pub artist: String,
    pub is_compilation: bool,
    pub year: Option<u32>,
    pub track_count: usize,
    pub track_ids: Vec<String>,
    pub art_url: String,
}

/// An artist, as they are listed.
#[derive(Debug, PartialEq)]
pub struct ArtistSummary {
    pub name: String,
    pub album_count: usize,
    pub track_count: usize,
    pub track_ids: Vec<String>,
}

/// An album as plain values.
#[verifier::ext_equal]
pub struct AlbumInfo {
    pub name: Seq<char>,
    pub artist: Seq<char>,
    pub is_compilation: bool,
    pub year: Option<u32>,
    pub track_count: nat,
    pub track_ids: Seq<Seq<char>>,
    pub art_url: Seq<char>,
}

/// An artist as plain values.
#[verifier::ext_equal]
pub struct ArtistInfo {
    pub name: Seq<char>,
    pub album_count: nat,
    pub track_count: nat,
    pub track_ids: Seq<Seq<char>>,
}

impl View for AlbumSummary {
    type V = AlbumInfo;

    open spec fn view(&self) -> AlbumInfo {
        AlbumInfo {
            name: self.name@,
            artist: self.artist@,
            is_compilation: self.is_compilation,
            year: self.year,
            track_count: self.track_count as nat,
            track_ids: texts(self.track_ids@),
            art_url: self.art_url@,
        }
    }
}

impl View for ArtistSummary {
    type V = ArtistInfo;

    open spec fn view(&self) -> ArtistInfo {
        ArtistInfo {
            name: self.name@,
            album_count: self.album_count as nat,
            track_count: self.track_count as nat,
            track_ids: texts(self.track_ids@),
        }
    }
}

/// Albums as plain values.
pub open spec fn album_infos(v: Seq<AlbumSummary>) -> Seq<AlbumInfo> {
    Seq::new(v.len(), |i: int| v[i]@)
}

/// Artists as plain values.
pub open spec fn artist_infos(v: Seq<ArtistSummary>) -> Seq<ArtistInfo> {
    Seq::new(v.len(), |i: int| v[i]@)
}

/// The artist that a track is filed under: its album artist, or else its own.
pub open spec fn filing_artist(t: TrackInfo) -> Seq<char> {
    match non_blank(t.album_artist) {
        Some(a) => a,
        None => t.artist,
    }
}

/// The artist that a track is filed under: its album artist, or else its own.
pub fn grouping_artist(track: &Track) -> (r: String)
    ensures
        r@ == filing_artist(track@),
{
    match keep_non_blank(&track.album_artist) {
        Some(a) => a,
        None => track.artist.clone(),
    }
}

/// What an album is known by: the artist that its tracks are filed under, and its name.
pub open spec fn album_key() -> spec_fn(TrackInfo) -> (Seq<char>, Seq<char>) {
    |t: TrackInfo| (filing_artist(t), t.album)
}

/// What an artist is known by: their name.
pub open spec fn artist_key() -> spec_fn(TrackInfo) -> Seq<char> {
    |t: TrackInfo| t.artist
}

/// The order of pairs of texts: by the first, then by the second.
pub open spec fn by_pair() -> spec_fn((Seq<char>, Seq<char>), (Seq<char>, Seq<char>)) -> bool {
    |a: (Seq<char>, Seq<char>), b: (Seq<char>, Seq<char>)|
        text_lt(a.0, b.0) || (a.0 == b.0 && text_lt(a.1, b.1))
}

/// The ids of some tracks, in their order as texts.
pub open spec fn sorted_ids(ts: Seq<TrackInfo>) -> Seq<Seq<char>> {
    stable_sort(ts.map_values(|t: TrackInfo| t.id), by_text())
}

/// Whether the artists of some tracks differ.
pub open spec fn artists_differ(ts: Seq<TrackInfo>) -> bool {
    exists|i: int, j: int|
        0 <= i < ts.len() && 0 <= j < ts.len() && (#[trigger] ts[i]).artist != (
        #[trigger] ts[j]).artist
}

/// The year of the first track that has one.
pub open spec fn first_year(ts: Seq<TrackInfo>) -> Option<u32> {
    let i = first_where(ts, |t: TrackInfo| t.year is Some);
    if i < ts.len() {
        ts[i].year
    } else {
        None
    }
}

/// The album with the given key and tracks.
pub open spec fn album_of(key: (Seq<char>, Seq<char>), ts: Seq<TrackInfo>) -> AlbumInfo {
    AlbumInfo {
        name: key.1,
        artist: key.0,
        is_compilation: artists_differ(ts),
        year: first_year(ts),
        track_count: ts.len(),
        track_ids: sorted_ids(ts),
        art_url: "/art/"@ + ts[0].id,
    }
}

/// The artist with the given name and tracks.
pub open spec fn artist_of(name: Seq<char>, ts: Seq<TrackInfo>) -> ArtistInfo {
    ArtistInfo {
        name,
        album_count: sorted_keys(ts.map_values(|t: TrackInfo| t.album), by_text()).len(),
        track_count: ts.len(),
        track_ids: sorted_ids(ts),
    }
}

/// The tracks of an album.
pub open spec fn tracks_of_album(s: Seq<TrackInfo>, key: (Seq<char>, Seq<char>)) -> Seq<TrackInfo> {
    s.filter(having_key(album_key(), key))
}

/// The tracks of an artist.
pub open spec fn tracks_of_artist(s: Seq<TrackInfo>, name: Seq<char>) -> Seq<TrackInfo> {
    s.filter(having_key(artist_key(), name))
}

/// The albums of some tracks, by artist and then by name.
pub open spec fn albums_of(s: Seq<TrackInfo>) -> Seq<AlbumInfo> {
    sorted_keys(s.map_values(album_key()), by_pair()).map_values(
        |k: (Seq<char>, Seq<char>)| album_of(k, tracks_of_album(s, k)),
    )
}

/// The artists of some tracks, by name.
pub open spec fn artists_of(s: Seq<TrackInfo>) -> Seq<ArtistInfo> {
    sorted_keys(s.map_values(artist_key()), by_text()).map_values(
        |k: Seq<char>| artist_of(k, tracks_of_artist(s, k)),
    )
}

pub proof fn lemma_by_text_total()
    ensures
        is_total_order(by_text()),
{
    lemma_by_text();
    let lt = by_text();
    assert forall|a: Seq<char>, b: Seq<char>| a != b implies lt(a, b) || #[trigger] lt(b, a) by {
        lemma_text_lt_total(a, b);
    }
}

pub proof fn lemma_by_pair_total()
    ensures
        is_total_order(by_pair()),
{
    let lt = by_pair();
    assert forall|a: (Seq<char>, Seq<char>), b: (Seq<char>, Seq<char>)| #[trigger]
        lt(a, b) implies !lt(b, a) by {
        lemma_text_not_lt(a.0, b.0, a.0);
        lemma_text_not_lt(a.1, b.1, a.1);
        lemma_text_lt_irreflexive(a.0);
    }
    assert forall|
        a: (Seq<char>, Seq<char>),
        b: (Seq<char>, Seq<char>),
        c: (Seq<char>, Seq<char>),
    |
        #![trigger lt(a, b), lt(b, c)]
        !lt(a, b) && !lt(b, c) implies !lt(a, c) by {
        lemma_text_not_lt(a.0, b.0, c.0);
        lemma_text_not_lt(a.1, b.1, c.1);
        lemma_text_lt_total(a.0, b.0);
        lemma_text_lt_total(b.0, c.0);
        lemma_text_not_lt(b.0, c.0, b.0);
        lemma_text_not_lt(a.0, b.0, a.0);
        lemma_text_lt_irreflexive(a.0);
    }
    assert forall|a: (Seq<char>, Seq<char>), b: (Seq<char>, Seq<char>)| a != b implies lt(a, b)
        || #[trigger] lt(b, a) by {
        lemma_text_lt_total(a.0, b.0);
        lemma_text_lt_total(a.1, b.1);
    }
}

/// The positions of some texts in groups of equal ones, the groups in the order of the texts.
pub fn group_texts(v: &[Vec<char>]) -> (r: Vec<Vec<usize>>)
    ensures
        ({
            let keys = Seq::new(v@.len(), |i: int| v@[i]@);
            let ks = sorted_keys(keys, by_text());
            &&& r.len() == ks.len()
            &&& is_key_list(ks, keys, by_text())
            &&& forall|g: int|
                0 <= g < r.len() ==> as_ints((#[trigger] r@[g])@) == positions_of(keys, ks[g])
            &&& forall|g: int| 0 <= g < r.len() ==> (#[trigger] r@[g]).len() > 0
            &&& forall|g: int, i: int|
                0 <= g < r.len() && 0 <= i < r@[g].len() ==> (#[trigger] r@[g]@[i]) < v.len()
                    && keys[r@[g]@[i] as int] == ks[g]
        }),
{
    let n = v.len();
    let ghost keys = Seq::new(v@.len(), |i: int| v@[i]@);
    let less = |a: usize, b: usize| -> (r: bool)
        requires
            a < n,
            b < n,
            n == v@.len(),
        ensures
            r == text_lt(v@[a as int]@, v@[b as int]@),
        { chars_before(v[a].as_slice(), v[b].as_slice()) };
    proof {
        lemma_by_text_total();
    }
    group_positions::<Seq<char>, _>(n, &less, Ghost(keys), Ghost(by_text()))
}

/// The positions of some pairs of texts in groups of equal ones, the groups in the order of the
/// pairs.
pub fn group_pairs(v: &[(Vec<char>, Vec<char>)]) -> (r: Vec<Vec<usize>>)
    ensures
        ({
            let keys = Seq::new(v@.len(), |i: int| (v@[i].0@, v@[i].1@));
            let ks = sorted_keys(keys, by_pair());
            &&& r.len() == ks.len()
            &&& is_key_list(ks, keys, by_pair())
            &&& forall|g: int|
                0 <= g < r.len() ==> as_ints((#[trigger] r@[g])@) == positions_of(keys, ks[g])
            &&& forall|g: int| 0 <= g < r.len() ==> (#[trigger] r@[g]).len() > 0
            &&& forall|g: int, i: int|
                0 <= g < r.len() && 0 <= i < r@[g].len() ==> (#[trigger] r@[g]@[i]) < v.len()
                    && keys[r@[g]@[i] as int] == ks[g]
        }),
{
    let n = v.len();
    let ghost keys = Seq::new(v@.len(), |i: int| (v@[i].0@, v@[i].1@));
    let less = |a: usize, b: usize| -> (r: bool)
        requires
            a < n,
            b < n,
            n == v@.len(),
        ensures
            r == (text_lt(v@[a as int].0@, v@[b as int].0@) || (v@[a as int].0@ == v@[b as int].0@
                && text_lt(v@[a as int].1@, v@[b as int].1@))),
        {
            chars_before(v[a].0.as_slice(), v[b].0.as_slice()) || (same_chars(
                v[a].0.as_slice(),
                v[b].0.as_slice(),
            ) && chars_before(v[a].1.as_slice(), v[b].1.as_slice()))
        };
    proof {
        lemma_by_pair_total();
    }
    group_positions::<(Seq<char>, Seq<char>), _>(n, &less, Ghost(keys), Ghost(by_pair()))
}

/// The tracks at some positions.
pub open spec fn picked(s: Seq<TrackInfo>, group: Seq<usize>) -> Seq<TrackInfo> {
    at_positions(s, as_ints(group))
}

fn ids_at(tracks: &[Track], group: &[usize]) -> (r: Vec<String>)
    requires
        forall|i: int| 0 <= i < group.len() ==> #[trigger] group@[i] < tracks.len(),
    ensures
        texts(r@) == sorted_ids(picked(infos(tracks@), group@)),
{
    let ghost ts = picked(infos(tracks@), group@);
    let mut ids: Vec<String> = Vec::new();
    let mut i: usize = 0;
    while i < group.len()
        invariant
            0 <= i <= group.len(),
            forall|k: int| 0 <= k < group.len() ==> #[trigger] group@[k] < tracks.len(),
            ids.len() == i,
            forall|k: int| 0 <= k < i ==> (#[trigger] ids@[k])@ == tracks@[group@[k] as int].id@,
        decreases group.len() - i,
    {
        ids.push(tracks[group[i]].id.clone());
        i += 1;
    }
    assert(texts(ids@) =~= ts.map_values(|t: TrackInfo| t.id));
    sort_texts(ids.as_slice())
}

fn artists_differ_at(tracks: &[Track], group: &[usize]) -> (r: bool)
    requires
        forall|i: int| 0 <= i < group.len() ==> #[trigger] group@[i] < tracks.len(),
    ensures
        r == artists_differ(picked(infos(tracks@), group@)),
{
    let ghost ts = picked(infos(tracks@), group@);
    let mut i: usize = 0;
    while i < group.len()
        invariant
            0 <= i <= group.len(),
            forall|k: int| 0 <= k < group.len() ==> #[trigger] group@[k] < tracks.len(),
            ts == picked(infos(tracks@), group@),
            forall|k: int| 0 <= k < i ==> (#[trigger] ts[k]).artist == ts[0].artist,
        decreases group.len() - i,
    {
        assert(ts[i as int] == tracks@[group@[i as int] as int]@);
        assert(ts[0] == tracks@[group@[0] as int]@);
        if !same_text(tracks[group[i]].artist.as_str(), tracks[group[0]].artist.as_str()) {
            assert(ts[i as int].artist != ts[0].artist);
            return true;
        }
        i += 1;
    }
    false
}

fn first_year_at(tracks: &[Track], group: &[usize]) -> (r: Option<u32>)
    requires
        forall|i: int| 0 <= i < group.len() ==> #[trigger] group@[i] < tracks.len(),
    ensures
        r == first_year(picked(infos(tracks@), group@)),
{
    let ghost ts = picked(infos(tracks@), group@);
    let ghost p = |t: TrackInfo| t.year is Some;
    let mut i: usize = 0;
    while i < group.len()
        invariant
            0 <= i <= group.len(),
            forall|k: int| 0 <= k < group.len() ==> #[trigger] group@[k] < tracks.len(),
            ts == picked(infos(tracks@), group@),
            p == (|t: TrackInfo| t.year is Some),
            forall|k: int| 0 <= k < i ==> !p(#[trigger] ts[k]),
        decreases group.len() - i,
    {
        assert(ts[i as int] == tracks@[group@[i as int] as int]@);
        let year = tracks[group[i]].year;
        if year.is_some() {
            proof {
                lemma_first_where(ts, p, i as int);
            }
            return year;
        }
        i += 1;
    }
    proof {
        lemma_first_where(ts, p, i as int);
    }
    None
}

/// The tracks grouped into albums, sorted by artist and then by name. Tracks that share their
/// album name and the artist that they are filed under are one album.
pub fn group_albums(tracks: &TrackMap) -> (r: Vec<AlbumSummary>)
    ensures
        album_infos(r@) == albums_of(tracks@),
{
    let all = tracks.all();
    let ghost s = tracks@;
    let mut keys: Vec<(Vec<char>, Vec<char>)> = Vec::new();
    let mut i: usize = 0;
    while i < all.len()
        invariant
            0 <= i <= all.len(),
            s == infos(all@),
            keys.len() == i,
            forall|k: int|
                0 <= k < i ==> ((#[trigger] keys@[k]).0@, keys@[k].1@) == album_key()(s[k]),
        decreases all.len() - i,
    {
        let artist = grouping_artist(&all[i]);
        keys.push((chars_of(artist.as_str()), chars_of(all[i].album.as_str())));
        i += 1;
    }
    let groups = group_pairs(keys.as_slice());
    let ghost want = s.map_values(album_key());
    let ghost ks = sorted_keys(want, by_pair());
    proof {
        assert(Seq::new(keys@.len(), |i: int| (keys@[i].0@, keys@[i].1@)) =~= want);
    }
    let mut r: Vec<AlbumSummary> = Vec::new();
    let mut g: usize = 0;
    while g < groups.len()
        invariant
            0 <= g <= groups.len(),
            s == infos(all@),
            want == s.map_values(album_key()),
            ks == sorted_keys(want, by_pair()),
            groups.len() == ks.len(),
            forall|h: int|
                0 <= h < groups.len() ==> as_ints((#[trigger] groups@[h])@) == positions_of(
                    want,
                    ks[h],
                ),
            forall|h: int| 0 <= h < groups.len() ==> (#[trigger] groups@[h]).len() > 0,
            forall|h: int, i: int|
                0 <= h < groups.len() && 0 <= i < groups@[h].len() ==> (#[trigger] groups@[h]@[i])
                    < all.len(),
            forall|h: int, i: int|
                0 <= h < groups.len() && 0 <= i < groups@[h].len() ==> want[(
                #[trigger] groups@[h]@[i]) as int] == ks[h],
            r.len() == g,
            forall|h: int|
                0 <= h < g ==> (#[trigger] r@[h])@ == album_of(ks[h], tracks_of_album(s, ks[h])),
        decreases groups.len() - g,
    {
        let group = groups[g].as_slice();
        let ghost ts = picked(s, group@);
        proof {
            lemma_at_positions_of(s, album_key(), ks[g as int]);
            assert(ts == tracks_of_album(s, ks[g as int]));
            assert(group@[0] == groups@[g as int]@[0]);
            assert(ts[0] == s[group@[0] as int]);
            assert(want[group@[0] as int] == ks[g as int]);
        }
        let first = &all[group[0]];
        let mut art_url = "/art/".to_owned();
        art_url.append(first.id.as_str());
        let album = AlbumSummary {
            name: first.album.clone(),
            artist: grouping_artist(first),
            is_compilation: artists_differ_at(all.as_slice(), group),
            year: first_year_at(all.as_slice(), group),
            track_count: group.len(),
            track_ids: ids_at(all.as_slice(), group),
            art_url,
        };
        assert(album@ =~= album_of(ks[g as int], ts));
        r.push(album);
        g += 1;
    }
    assert(album_infos(r@) =~= albums_of(s));
    r
}

fn count_albums_at(tracks: &[Track], group: &[usize]) -> (r: usize)
    requires
        forall|i: int| 0 <= i < group.len() ==> #[trigger] group@[i] < tracks.len(),
    ensures
        r == sorted_keys(
            picked(infos(tracks@), group@).map_values(|t: TrackInfo| t.album),
            by_text(),
        ).len(),
{
    let ghost ts = picked(infos(tracks@), group@);
    let mut names: Vec<Vec<char>> = Vec::new();
    let mut i: usize = 0;
    while i < group.len()
        invariant
            0 <= i <= group.len(),
            forall|k: int| 0 <= k < group.len() ==> #[trigger] group@[k] < tracks.len(),
            names.len() == i,
            forall|k: int|
                0 <= k < i ==> (#[trigger] names@[k])@ == tracks@[group@[k] as int].album@,
        decreases group.len() - i,
    {
        names.push(chars_of(tracks[group[i]].album.as_str()));
        i += 1;
    }
    assert(Seq::new(names@.len(), |i: int| names@[i]@) =~= ts.map_values(|t: TrackInfo| t.album));
    group_texts(names.as_slice()).len()
}

/// The tracks grouped by their own artists, sorted by name.
pub fn group_artists(tracks: &TrackMap) -> (r: Vec<ArtistSummary>)
    ensures
        artist_infos(r@) == artists_of(tracks@),
{
    let all = tracks.all();
    let ghost s = tracks@;
    let mut keys: Vec<Vec<char>> = Vec::new();
    let mut i: usize = 0;
    while i < all.len()
        invariant
            0 <= i <= all.len(),
            s == infos(all@),
            keys.len() == i,
            forall|k: int| 0 <= k < i ==> (#[trigger] keys@[k])@ == artist_key()(s[k]),
        decreases all.len() - i,
    {
        keys.push(chars_of(all[i].artist.as_str()));
        i += 1;
    }
    let groups = group_texts(keys.as_slice());
    let ghost want = s.map_values(artist_key());
    let ghost ks = sorted_keys(want, by_text());
    proof {
        assert(Seq::new(keys@.len(), |i: int| keys@[i]@) =~= want);
    }
    let mut r: Vec<ArtistSummary> = Vec::new();
    let mut g: usize = 0;
    while g < groups.len()
        invariant
            0 <= g <= groups.len(),
            s == infos(all@),
            want == s.map_values(artist_key()),
            ks == sorted_keys(want, by_text()),
            groups.len() == ks.len(),
            forall|h: int|
                0 <= h < groups.len() ==> as_ints((#[trigger] groups@[h])@) == positions_of(
                    want,
                    ks[h],
                ),
            forall|h: int| 0 <= h < groups.len() ==> (#[trigger] groups@[h]).len() > 0,
            forall|h: int, i: int|
                0 <= h < groups.len() && 0 <= i < groups@[h].len() ==> (#[trigger] groups@[h]@[i])
                    < all.len(),
            forall|h: int, i: int|
                0 <= h < groups.len() && 0 <= i < groups@[h].len() ==> want[(
                #[trigger] groups@[h]@[i]) as int] == ks[h],
            r.len() == g,
            forall|h: int|
                0 <= h < g ==> (#[trigger] r@[h])@ == artist_of(ks[h], tracks_of_artist(s, ks[h])),
        decreases groups.len() - g,
    {
        let group = groups[g].as_slice();
        let ghost ts = picked(s, group@);
        proof {
            lemma_at_positions_of(s, artist_key(), ks[g as int]);
            assert(ts == tracks_of_artist(s, ks[g as int]));
            assert(group@[0] == groups@[g as int]@[0]);
            assert(ts[0] == s[group@[0] as int]);
            assert(want[group@[0] as int] == ks[g as int]);
        }
        let artist = ArtistSummary {
            name: all[group[0]].artist.clone(),
            album_count: count_albums_at(all.as_slice(), group),
            track_count: group.len(),
            track_ids: ids_at(all.as_slice(), group),
        };
        assert(artist@ =~= artist_of(ks[g as int], ts));
        r.push(artist);
        g += 1;
    }
    assert(artist_infos(r@) =~= artists_of(s));
    r
}

/// Whether an album answers a search.
pub open spec fn album_matches(a: AlbumInfo, needle: Seq<char>) -> bool {
    holds_needle(a.name, needle) || holds_needle(a.artist, needle)
}

/// Whether an artist answers a search.
pub open spec fn artist_matches(a: ArtistInfo, needle: Seq<char>) -> bool {
    holds_needle(a.name, needle)
}

/// The albums that answer a search, all of them where nothing is searched for.
pub open spec fn albums_found(s: Seq<AlbumInfo>, q: Option<Seq<char>>) -> Seq<AlbumInfo> {
    match needle_of(q) {
        Some(n) => s.filter(|a: AlbumInfo| album_matches(a, n)),
        None => s,
    }
}

/// The artists that answer a search, all of them where nothing is searched for.
pub open spec fn artists_found(s: Seq<ArtistInfo>, q: Option<Seq<char>>) -> Seq<ArtistInfo> {
    match needle_of(q) {
        Some(n) => s.filter(|a: ArtistInfo| artist_matches(a, n)),
        None => s,
    }
}

/// A page of the albums that answer a search, and the number of all that do.
pub fn list_albums(
    tracks: &TrackMap,
    q: Option<&str>,
    offset: Option<usize>,
    limit: Option<usize>,
) -> (r: (usize, Vec<AlbumSummary>))
    ensures
        r.0 == albums_found(albums_of(tracks@), opt_str(q)).len(),
        album_infos(r.1@) == paged(
            albums_found(albums_of(tracks@), opt_str(q)),
            offset,
            Some(page_limit(limit)),
        ),
{
    let mut albums = group_albums(tracks);
    let ghost view = |a: AlbumSummary| a@;
    assert(albums@.map_values(view) =~= album_infos(albums@));
    if let Some(needle) = search_needle(q) {
        let keep = |a: &AlbumSummary| -> (b: bool)
            ensures
                b == album_matches(a@, needle@),
            {
                text_holds_needle(a.name.as_str(), needle.as_str()) || text_holds_needle(
                    a.artist.as_str(),
                    needle.as_str(),
                )
            };
        let ghost n = needle@;
        albums =
        keep_where::<AlbumSummary, AlbumInfo, _>(
            albums,
            &keep,
            Ghost(view),
            Ghost(|a: AlbumInfo| album_matches(a, n)),
        );
    }
    let total = albums.len();
    let ghost matched = albums@;
    assert(matched.map_values(view) =~= album_infos(matched));
    let capped = cap_limit(limit);
    let page = take_page(albums, offset, Some(capped));
    assert(album_infos(page@) =~= paged(matched.map_values(view), offset, Some(capped)));
    (total, page)
}

/// A page of the artists that answer a search, and the number of all that do.
pub fn list_artists(
    tracks: &TrackMap,
    q: Option<&str>,
    offset: Option<usize>,
    limit: Option<usize>,
) -> (r: (usize, Vec<ArtistSummary>))
    ensures
        r.0 == artists_found(artists_of(tracks@), opt_str(q)).len(),
        artist_infos(r.1@) == paged(
            artists_found(artists_of(tracks@), opt_str(q)),
            offset,
            Some(page_limit(limit)),
        ),
{
    let mut artists = group_artists(tracks);
    let ghost view = |a: ArtistSummary| a@;
    assert(artists@.map_values(view) =~= artist_infos(artists@));
    if let Some(needle) = search_needle(q) {
        let keep = |a: &ArtistSummary| -> (b: bool)
            ensures
                b == artist_matches(a@, needle@),
            { text_holds_needle(a.name.as_str(), needle.as_str()) };
        let ghost n = needle@;
        artists =
        keep_where::<ArtistSummary, ArtistInfo, _>(
            artists,
            &keep,
            Ghost(view),
            Ghost(|a: ArtistInfo| artist_matches(a, n)),
        );
    }
    let total = artists.len();
    let ghost matched = artists@;
    assert(matched.map_values(view) =~= artist_infos(matched));
    let capped = cap_limit(limit);
    let page = take_page(artists, offset, Some(capped));
    assert(artist_infos(page@) =~= paged(matched.map_values(view), offset, Some(capped)));
    (total, page)
}

/// The keys of the albums of some tracks, in order.
pub open spec fn album_keys(s: Seq<TrackInfo>) -> Seq<(Seq<char>, Seq<char>)> {
    sorted_keys(s.map_values(album_key()), by_pair())
}

proof fn lemma_ascending_keys_differ<K>(ks: Seq<K>, lt: spec_fn(K, K) -> bool)
    requires
        is_total_order(lt),
        crate::grouping::ascends(ks, lt),
    ensures
        ks.no_duplicates(),
{
    assert forall|i: int, j: int| 0 <= i < ks.len() && 0 <= j < ks.len() && i != j implies ks[i]
        != ks[j] by {
        if i < j {
            assert(lt(ks[i], ks[j]));
        } else {
            assert(lt(ks[j], ks[i]));
        }
    }
}

proof fn lemma_ids_listed(ts: Seq<TrackInfo>, id: Seq<char>)
    ensures
        sorted_ids(ts).contains(id) <==> exists|i: int|
            0 <= i < ts.len() && (#[trigger] ts[i]).id == id,
{
    let ids = ts.map_values(|t: TrackInfo| t.id);
    lemma_by_text();
    lemma_sort_members(ids, by_text(), id);
    if ids.contains(id) {
        let i = choose|i: int| 0 <= i < ids.len() && ids[i] == id;
        assert(ts[i].id == id);
    }
    if exists|i: int| 0 <= i < ts.len() && (#[trigger] ts[i]).id == id {
        let i = choose|i: int| 0 <= i < ts.len() && (#[trigger] ts[i]).id == id;
        assert(ids[i] == id);
    }
}

/// Every track is in one album and no other: that with its album name and the artist that it is
/// filed under.
pub proof fn law_every_track_is_in_one_album(s: Seq<TrackInfo>, i: int)
    requires
        distinct_ids(s),
        0 <= i < s.len(),
    ensures
        exists|a: int|
            {
                &&& 0 <= a < albums_of(s).len()
                &&& (#[trigger] albums_of(s)[a]).name == s[i].album
                &&& albums_of(s)[a].artist == filing_artist(s[i])
                &&& albums_of(s)[a].track_ids.contains(s[i].id)
                &&& forall|b: int|
                    0 <= b < albums_of(s).len() && #[trigger] albums_of(s)[b].track_ids.contains(
                        s[i].id,
                    ) ==> b == a
            },
{
    let keys = s.map_values(album_key());
    let ks = album_keys(s);
    let albums = albums_of(s);
    lemma_by_pair_total();
    lemma_sorted_keys(keys, by_pair());
    lemma_ascending_keys_differ(ks, by_pair());
    let key = album_key()(s[i]);
    assert(keys[i] == key);
    assert(keys.contains(key));
    assert(ks.contains(key));
    let a = choose|a: int| 0 <= a < ks.len() && ks[a] == key;
    let p = having_key(album_key(), key);
    lemma_filter_members(s, p, s[i]);
    assert(s.contains(s[i]));
    let ts = tracks_of_album(s, key);
    assert(ts.contains(s[i]));
    let m = choose|m: int| 0 <= m < ts.len() && ts[m] == s[i];
    lemma_ids_listed(ts, s[i].id);
    assert(albums[a] == album_of(key, ts));
    assert forall|b: int| 0 <= b < albums.len() && #[trigger] albums[b].track_ids.contains(
        s[i].id,
    ) implies b == a by {
        let us = tracks_of_album(s, ks[b]);
        assert(albums[b] == album_of(ks[b], us));
        lemma_ids_listed(us, s[i].id);
        let n = choose|n: int| 0 <= n < us.len() && (#[trigger] us[n]).id == s[i].id;
        let q = having_key(album_key(), ks[b]);
        let j = lemma_filter_from(s, q, n);
        if j != i {
            assert(s[if i < j {
                i
            } else {
                j
            }].id != s[if i < j {
                j
            } else {
                i
            }].id);
        }
        assert(ks[b] == key);
    }
}

/// The tracks of all albums together.
pub open spec fn total_of_albums(albums: Seq<AlbumInfo>) -> nat
    decreases albums.len(),
{
    if albums.len() == 0 {
        0
    } else {
        total_of_albums(albums.drop_last()) + albums.last().track_count
    }
}

proof fn lemma_total_counts(s: Seq<TrackInfo>, ks: Seq<(Seq<char>, Seq<char>)>)
    ensures
        total_of_albums(
            ks.map_values(|k: (Seq<char>, Seq<char>)| album_of(k, tracks_of_album(s, k))),
        ) == count_by_keys(s, album_key(), ks),
    decreases ks.len(),
{
    let f = |k: (Seq<char>, Seq<char>)| album_of(k, tracks_of_album(s, k));
    if ks.len() > 0 {
        lemma_total_counts(s, ks.drop_last());
        assert(ks.map_values(f).drop_last() =~= ks.drop_last().map_values(f));
    }
}

/// The track counts of the albums add up to the number of tracks.
pub proof fn law_album_counts_add_up(s: Seq<TrackInfo>)
    ensures
        total_of_albums(albums_of(s)) == s.len(),
{
    let keys = s.map_values(album_key());
    let ks = album_keys(s);
    lemma_by_pair_total();
    lemma_sorted_keys(keys, by_pair());
    lemma_ascending_keys_differ(ks, by_pair());
    assert forall|i: int| 0 <= i < s.len() implies ks.contains(album_key()(#[trigger] s[i])) by {
        assert(keys[i] == album_key()(s[i]));
        assert(keys.contains(keys[i]));
    }
    lemma_count_by_all_keys(s, album_key(), ks);
    lemma_total_counts(s, ks);
}

/// Albums come sorted by artist and then by name, and no two share both.
pub proof fn law_albums_are_sorted(s: Seq<TrackInfo>, a: int, b: int)
    requires
        0 <= a < b < albums_of(s).len(),
    ensures
        text_lt(albums_of(s)[a].artist, albums_of(s)[b].artist) || (albums_of(s)[a].artist
            == albums_of(s)[b].artist && text_lt(albums_of(s)[a].name, albums_of(s)[b].name)),
{
    let ks = album_keys(s);
    lemma_by_pair_total();
    lemma_sorted_keys(s.map_values(album_key()), by_pair());
    assert(by_pair()(ks[a], ks[b]));
}

/// Tracks of one album name that share an album artist stay in one album, whoever their own
/// artists are.
pub proof fn law_album_artist_keeps_album_together(t: TrackInfo, u: TrackInfo)
    requires
        t.album == u.album,
        non_blank(t.album_artist) is Some,
        non_blank(t.album_artist) == non_blank(u.album_artist),
    ensures
        album_key()(t) == album_key()(u),
{
}

/// Every track is listed under its own artist and under no other.
pub proof fn law_every_track_is_under_its_artist(s: Seq<TrackInfo>, i: int)
    requires
        distinct_ids(s),
        0 <= i < s.len(),
    ensures
        exists|a: int|
            {
                &&& 0 <= a < artists_of(s).len()
                &&& (#[trigger] artists_of(s)[a]).name == s[i].artist
                &&& artists_of(s)[a].track_ids.contains(s[i].id)
                &&& forall|b: int|
                    0 <= b < artists_of(s).len() && #[trigger] artists_of(s)[b].track_ids.contains(
                        s[i].id,
                    ) ==> b == a
            },
{
    let keys = s.map_values(artist_key());
    let ks = sorted_keys(keys, by_text());
    let artists = artists_of(s);
    lemma_by_text_total();
    lemma_sorted_keys(keys, by_text());
    lemma_ascending_keys_differ(ks, by_text());
    let key = artist_key()(s[i]);
    assert(keys[i] == key);
    assert(keys.contains(key));
    assert(ks.contains(key));
    let a = choose|a: int| 0 <= a < ks.len() && ks[a] == key;
    let p = having_key(artist_key(), key);
    lemma_filter_members(s, p, s[i]);
    assert(s.contains(s[i]));
    let ts = tracks_of_artist(s, key);
    assert(ts.contains(s[i]));
    let m = choose|m: int| 0 <= m < ts.len() && ts[m] == s[i];
    lemma_ids_listed(ts, s[i].id);
    assert(artists[a] == artist_of(key, ts));
    assert forall|b: int| 0 <= b < artists.len() && #[trigger] artists[b].track_ids.contains(
        s[i].id,
    ) implies b == a by {
        let us = tracks_of_artist(s, ks[b]);
        assert(artists[b] == artist_of(ks[b], us));
        lemma_ids_listed(us, s[i].id);
        let n = choose|n: int| 0 <= n < us.len() && (#[trigger] us[n]).id == s[i].id;
        let q = having_key(artist_key(), ks[b]);
        let j = lemma_filter_from(s, q, n);
        if j != i {
            assert(s[if i < j {
                i
            } else {
                j
            }].id != s[if i < j {
                j
            } else {
                i
            }].id);
        }
        assert(ks[b] == key);
    }
}

/// Artists come sorted by name, and no two share theirs.
pub proof fn law_artists_are_sorted(s: Seq<TrackInfo>, a: int, b: int)
    requires
        0 <= a < b < artists_of(s).len(),
    ensures
        text_lt(artists_of(s)[a].name, artists_of(s)[b].name),
{
    let ks = sorted_keys(s.map_values(artist_key()), by_text());
    lemma_by_text_total();
    lemma_sorted_keys(s.map_values(artist_key()), by_text());
    assert(by_text()(ks[a], ks[b]));
}

/// The tracks of an album name that are filed under an artist.
pub open spec fn filed_under(s: Seq<TrackInfo>, artist: Seq<char>, album: Seq<char>) -> Seq<
    TrackInfo,
> {
    s.filter(|t: TrackInfo| t.album == album && filing_artist(t) == artist)
}

/// A track is filed under its album artist, or under its own artist where it has none or a blank
/// one.
pub proof fn law_filing(t: TrackInfo)
    ensures
        t.album_artist matches Some(a) ==> (!is_blank(a) ==> filing_artist(t) == a),
        t.album_artist is None || is_blank(t.album_artist->0) ==> filing_artist(t) == t.artist,
{
}

/// An album tells of its tracks, which are all of its name and artist: how many they are, their ids
/// in order, the year of the first that has one, whether they are of different artists, and an
/// address of art that belongs to the first of them.
pub proof fn law_album_tells_of_its_tracks(s: Seq<TrackInfo>, a: int, k: int, id: Seq<char>)
    requires
        0 <= a < albums_of(s).len(),
    ensures
        ({
            let album = albums_of(s)[a];
            let ts = filed_under(s, album.artist, album.name);
            &&& ts.len() > 0
            &&& album.track_count == ts.len()
            &&& album.track_ids.len() == ts.len()
            &&& album.track_ids.contains(id) <==> exists|i: int|
                0 <= i < ts.len() && (#[trigger] ts[i]).id == id
            &&& album.is_compilation <==> exists|i: int, j: int|
                0 <= i < ts.len() && 0 <= j < ts.len() && (#[trigger] ts[i]).artist != (
                #[trigger] ts[j]).artist
            &&& 0 <= k < ts.len() && ts[k].year is Some && (forall|i: int|
                0 <= i < k ==> (#[trigger] ts[i]).year is None) ==> album.year == ts[k].year
            &&& 0 <= k < ts.len() && album.year is None ==> ts[k].year is None
            &&& album.art_url == "/art/"@ + ts[0].id
        }),
        forall|i: int, j: int|
            0 <= i < j < albums_of(s)[a].track_ids.len() ==> !text_lt(
                #[trigger] albums_of(s)[a].track_ids[j],
                #[trigger] albums_of(s)[a].track_ids[i],
            ),
{
    let keys = s.map_values(album_key());
    let ks = album_keys(s);
    lemma_by_pair_total();
    lemma_sorted_keys(keys, by_pair());
    let key = ks[a];
    let album = albums_of(s)[a];
    assert(album == album_of(key, tracks_of_album(s, key)));
    let p = having_key(album_key(), key);
    let q = |t: TrackInfo| t.album == album.name && filing_artist(t) == album.artist;
    assert forall|i: int| 0 <= i < s.len() implies p(#[trigger] s[i]) == q(s[i]) by {}
    lemma_filter_same(s, p, q);
    let ts = s.filter(q);
    assert(ts == tracks_of_album(s, key));
    assert(ks.contains(key));
    assert(keys.contains(key));
    let n = choose|n: int| 0 <= n < keys.len() && keys[n] == key;
    lemma_filter_members(s, q, s[n]);
    assert(s.contains(s[n]));
    assert(ts.contains(s[n]));
    lemma_ids_of(ts, id);
    let has = |t: TrackInfo| t.year is Some;
    lemma_first_where_props(ts, has);
    if 0 <= k < ts.len() && ts[k].year is Some {
        assert(has(ts[k]));
        let f = first_where(ts, has);
        if f < k {
            assert(has(ts[f]));
        }
    }
}

proof fn lemma_ids_of(ts: Seq<TrackInfo>, id: Seq<char>)
    ensures
        sorted_ids(ts).len() == ts.len(),
        sorted_ids(ts).contains(id) <==> exists|i: int|
            0 <= i < ts.len() && (#[trigger] ts[i]).id == id,
        forall|i: int, j: int|
            0 <= i < j < sorted_ids(ts).len() ==> !text_lt(
                #[trigger] sorted_ids(ts)[j],
                #[trigger] sorted_ids(ts)[i],
            ),
{
    let ids = ts.map_values(|t: TrackInfo| t.id);
    lemma_by_text();
    lemma_sort_members(ids, by_text(), id);
    if ids.contains(id) {
        let i = choose|i: int| 0 <= i < ids.len() && ids[i] == id;
        assert(ts[i].id == id);
    }
    if exists|i: int| 0 <= i < ts.len() && (#[trigger] ts[i]).id == id {
        let i = choose|i: int| 0 <= i < ts.len() && (#[trigger] ts[i]).id == id;
        assert(ids[i] == id);
    }
    assert forall|i: int, j: int| 0 <= i < j < sorted_ids(ts).len() implies !text_lt(
        #[trigger] sorted_ids(ts)[j],
        #[trigger] sorted_ids(ts)[i],
    ) by {
        lemma_sort_ascends(ids, by_text(), i, j);
    }
}

/// An artist tells of the tracks of their name: how many they are, their ids in order, and how many
/// different albums they are on.
pub proof fn law_artist_tells_of_their_tracks(s: Seq<TrackInfo>, a: int, id: Seq<char>)
    requires
        0 <= a < artists_of(s).len(),
    ensures
        ({
            let artist = artists_of(s)[a];
            let ts = s.filter(|t: TrackInfo| t.artist == artist.name);
            &&& ts.len() > 0
            &&& artist.track_count == ts.len()
            &&& artist.track_ids.len() == ts.len()
            &&& artist.track_ids.contains(id) <==> exists|i: int|
                0 <= i < ts.len() && (#[trigger] ts[i]).id == id
            &&& artist.album_count == ts.map_values(|t: TrackInfo| t.album).to_set().len()
        }),
        forall|i: int, j: int|
            0 <= i < j < artists_of(s)[a].track_ids.len() ==> !text_lt(
                #[trigger] artists_of(s)[a].track_ids[j],
                #[trigger] artists_of(s)[a].track_ids[i],
            ),
{
    let keys = s.map_values(artist_key());
    let ks = sorted_keys(keys, by_text());
    lemma_by_text_total();
    lemma_sorted_keys(keys, by_text());
    let name = ks[a];
    let artist = artists_of(s)[a];
    assert(artist == artist_of(name, tracks_of_artist(s, name)));
    let p = having_key(artist_key(), name);
    let q = |t: TrackInfo| t.artist == artist.name;
    assert forall|i: int| 0 <= i < s.len() implies p(#[trigger] s[i]) == q(s[i]) by {}
    lemma_filter_same(s, p, q);
    let ts = s.filter(q);
    assert(ks.contains(name));
    assert(keys.contains(name));
    let n = choose|n: int| 0 <= n < keys.len() && keys[n] == name;
    lemma_filter_members(s, q, s[n]);
    assert(s.contains(s[n]));
    assert(ts.contains(s[n]));
    lemma_ids_of(ts, id);
    let albums = ts.map_values(|t: TrackInfo| t.album);
    let different = sorted_keys(albums, by_text());
    lemma_sorted_keys(albums, by_text());
    assert(different.to_set() =~= albums.to_set());
    assert(different.no_duplicates()) by {
        assert forall|i: int, j: int| 0 <= i < different.len() && 0 <= j < different.len() && i
            != j implies different[i] != different[j] by {
            if i < j {
                assert(by_text()(different[i], different[j]));
                lemma_text_lt_irreflexive(different[i]);
            } else {
                assert(by_text()(different[j], different[i]));
                lemma_text_lt_irreflexive(different[i]);
            }
        }
    }
    different.unique_seq_to_set();
}

/// A search among albums finds those that have what is searched for anywhere in their name or
/// artist, and one among artists those that have it in their name, whatever the case of the
/// letters.
pub proof fn law_search_among_albums_and_artists(
    albums: Seq<AlbumInfo>,
    artists: Seq<ArtistInfo>,
    q: Seq<char>,
    album: AlbumInfo,
    artist: ArtistInfo,
)
    ensures
        !is_blank(q) ==> (albums_found(albums, Some(q)).contains(album) <==> albums.contains(album)
            && (stands_in(lowered(q), lowered(album.name)) || stands_in(
            lowered(q),
            lowered(album.artist),
        ))),
        !is_blank(q) ==> (artists_found(artists, Some(q)).contains(artist) <==> artists.contains(
            artist,
        ) && stands_in(lowered(q), lowered(artist.name))),
        is_blank(q) ==> albums_found(albums, Some(q)) == albums && artists_found(artists, Some(q))
            == artists,
        albums_found(albums, None) == albums,
        artists_found(artists, None) == artists,
{
    law_searching_looks_everywhere(q, album.name);
    law_searching_looks_everywhere(q, album.artist);
    law_searching_looks_everywhere(q, artist.name);
    if !is_blank(q) {
        lemma_filter_members(albums, |x: AlbumInfo| album_matches(x, lowered(q)), album);
        lemma_filter_members(artists, |x: ArtistInfo| artist_matches(x, lowered(q)), artist);
    }
}

/// What is found comes in the order of the whole list, each as often as it stands there.
pub proof fn law_search_keeps_the_order(
    albums: Seq<AlbumInfo>,
    artists: Seq<ArtistInfo>,
    q: Seq<char>,
    album: AlbumInfo,
    artist: ArtistInfo,
)
    requires
        !is_blank(q),
    ensures
        albums_found(albums.push(album), Some(q)) == if stands_in(lowered(q), lowered(album.name))
            || stands_in(lowered(q), lowered(album.artist)) {
            albums_found(albums, Some(q)).push(album)
        } else {
            albums_found(albums, Some(q))
        },
        artists_found(artists.push(artist), Some(q)) == if stands_in(
            lowered(q),
            lowered(artist.name),
        ) {
            artists_found(artists, Some(q)).push(artist)
        } else {
            artists_found(artists, Some(q))
        },
{
    reveal(Seq::filter);
    law_searching_looks_everywhere(q, album.name);
    law_searching_looks_everywhere(q, album.artist);
    law_searching_looks_everywhere(q, artist.name);
    assert(albums.push(album).drop_last() =~= albums);
    assert(artists.push(artist).drop_last() =~= artists);
}

/// What an album and an artist stand for are their fields.
pub proof fn law_summaries_are_shown(album: AlbumSummary, artist: ArtistSummary)
    ensures
        album@.name == album.name@,
        album@.artist == album.artist@,
        album@.is_compilation == album.is_compilation,
        album@.year == album.year,
        album@.track_count == album.track_count,
        album@.track_ids == texts(album.track_ids@),
        album@.art_url == album.art_url@,
        artist@.name == artist.name@,
        artist@.album_count == artist.album_count,
        artist@.track_count == artist.track_count,
        artist@.track_ids == texts(artist.track_ids@),
{
}

} // verus!
