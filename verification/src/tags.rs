//! Editing tags: what a request changes in a track and what is written to its file.
use crate::metadata::{non_blank, non_blank_or, track_of, FileInfo, TagInfo};
use crate::paths::joined;
use crate::state::{
    base_dir, found, gets_another_tag, id_position, track_abs_path, Track, TrackIndex, TrackInfo,
    TrackMap,
};
use crate::text::{is_blank, opt_text, text_is_blank, texts};
use vstd::prelude::*;

verus! {

/// The changes that a request makes to the tags of a track.
#[derive(Debug)]
pub struct TagEdits {
    pub title: Option<String>,
    pub artist: Option<String>,
    pub album: Option<String>,
    pub album_artist: Option<String>,
    pub genre: Option<String>,
    pub year: Option<u32>,
    pub track_number: Option<u32>,
    pub disc_number: Option<u32>,
}

/// The changes of a request as plain values.
#[verifier::ext_equal]
pub struct EditInfo {
    pub title: Option<Seq<char>>,
    pub artist: Option<Seq<char>>,
    pub album: Option<Seq<char>>,
    pub album_artist: Option<Seq<char>>,
    pub genre: Option<Seq<char>>,
    pub year: Option<u32>,
    pub track_number: Option<u32>,
    pub disc_number: Option<u32>,
}

impl View for TagEdits {
    type V = EditInfo;

    open spec fn view(&self) -> EditInfo {
        EditInfo {
            title: opt_text(self.title),
            artist: opt_text(self.artist),
            album: opt_text(self.album),
            album_artist: opt_text(self.album_artist),
            genre: opt_text(self.genre),
            year: self.year,
            track_number: self.track_number,
            disc_number: self.disc_number,
        }
    }
}

/// Whether a request changes nothing.
pub open spec fn no_edits(e: EditInfo) -> bool {
    e.title is None && e.artist is None && e.album is None && e.album_artist is None && e.genre
        is None && e.year is None && e.track_number is None && e.disc_number is None
}

impl Default for TagEdits {
    fn default() -> (r: Self)
        ensures
            no_edits(r@),
    {
        TagEdits {
            title: None,
            artist: None,
            album: None,
            album_artist: None,
            genre: None,
            year: None,
            track_number: None,
            disc_number: None,
        }
    }
}

impl TagEdits {
    /// Whether the request changes nothing.
    pub fn is_empty(&self) -> (r: bool)
        ensures
            r == no_edits(self@),
    {
        self.title.is_none() && self.artist.is_none() && self.album.is_none()
            && self.album_artist.is_none() && self.genre.is_none() && self.year.is_none()
            && self.track_number.is_none() && self.disc_number.is_none()
    }
}

/// A number that is changed where the request gives one.
pub open spec fn edited_number(edit: Option<u32>, old_value: Option<u32>) -> Option<u32> {
    match edit {
        Some(n) => Some(n),
        None => old_value,
    }
}

/// A track once the changes are made. A blank title or album changes nothing; a blank artist
/// becomes the unknown one; a blank album artist or genre is taken away.
pub open spec fn edited(t: TrackInfo, e: EditInfo) -> TrackInfo {
    TrackInfo {
        title: non_blank_or(e.title, t.title),
        artist: match e.artist {
            Some(_) => non_blank_or(e.artist, "Unknown Artist"@),
            None => t.artist,
        },
        album: non_blank_or(e.album, t.album),
        album_artist: match e.album_artist {
            Some(_) => non_blank(e.album_artist),
            None => t.album_artist,
        },
        genre: match e.genre {
            Some(_) => non_blank(e.genre),
            None => t.genre,
        },
        year: edited_number(e.year, t.year),
        track_number: edited_number(e.track_number, t.track_number),
        disc_number: edited_number(e.disc_number, t.disc_number),
        ..t
    }
}

/// Makes the changes in a track.
pub fn apply_edits_in_place(track: &mut Track, edits: &TagEdits)
    ensures
        final(track)@ == edited(old(track)@, edits@),
{
    if let Some(title) = &edits.title {
        if !text_is_blank(title.as_str()) {
            track.title = title.clone();
        }
    }
    if let Some(artist) = &edits.artist {
        track.artist =
        if text_is_blank(artist.as_str()) {
            "Unknown Artist".to_owned()
        } else {
            artist.clone()
        };
    }
    if let Some(album) = &edits.album {
        if !text_is_blank(album.as_str()) {
            track.album = album.clone();
        }
    }
    if let Some(album_artist) = &edits.album_artist {
        track.album_artist =
        if text_is_blank(album_artist.as_str()) {
            None
        } else {
            Some(album_artist.clone())
        };
    }
    if let Some(genre) = &edits.genre {
        track.genre =
        if text_is_blank(genre.as_str()) {
            None
        } else {
            Some(genre.clone())
        };
    }
    if edits.year.is_some() {
        track.year = edits.year;
    }
    if edits.track_number.is_some() {
        track.track_number = edits.track_number;
    }
    if edits.disc_number.is_some() {
        track.disc_number = edits.disc_number;
    }
}

/// What is done to one text tag of a file.
#[derive(Debug, PartialEq)]
pub enum TagWrite {
    Keep,
    Remove,
    Write(String),
}

/// What is done to the tags of a file.
#[derive(Debug, PartialEq)]
pub struct TagPlan {
    pub title: TagWrite,
    pub artist: TagWrite,
    pub album: TagWrite,
    pub album_artist: TagWrite,
    pub genre: TagWrite,
    pub year: Option<u32>,
    pub track: Option<u32>,
    pub disk: Option<u32>,
}

impl TagWrite {
    /// The tag once it was written.
    pub open spec fn written(self, tag: Option<Seq<char>>) -> Option<Seq<char>> {
        match self {
            TagWrite::Keep => tag,
            TagWrite::Remove => None,
            TagWrite::Write(s) => Some(s@),
        }
    }
}

/// Whether a write sets a tag as a change asks, and leaves it where the change is blank.
pub open spec fn sets_unless_blank(w: TagWrite, edit: Option<Seq<char>>) -> bool {
    match non_blank(edit) {
        Some(s) => w matches TagWrite::Write(x) && x@ == s,
        None => w is Keep,
    }
}

/// Whether a write sets a tag as a change asks, and removes it where the change is blank.
pub open spec fn sets_or_clears(w: TagWrite, edit: Option<Seq<char>>) -> bool {
    match edit {
        Some(s) => if is_blank(s) {
            w is Remove
        } else {
            w matches TagWrite::Write(x) && x@ == s
        },
        None => w is Keep,
    }
}

/// Whether a plan is the one for the changes of a request.
pub open spec fn is_plan_for(p: TagPlan, e: EditInfo) -> bool {
    &&& sets_unless_blank(p.title, e.title)
    &&& sets_or_clears(p.artist, e.artist)
    &&& sets_unless_blank(p.album, e.album)
    &&& sets_or_clears(p.album_artist, e.album_artist)
    &&& sets_or_clears(p.genre, e.genre)
    &&& p.year == e.year
    &&& p.track == e.track_number
    &&& p.disk == e.disc_number
}

fn set_unless_blank(edit: &Option<String>) -> (w: TagWrite)
    ensures
        sets_unless_blank(w, opt_text(*edit)),
{
    match edit {
        Some(s) => if text_is_blank(s.as_str()) {
            TagWrite::Keep
        } else {
            TagWrite::Write(s.clone())
        },
        None => TagWrite::Keep,
    }
}

fn set_or_clear(edit: &Option<String>) -> (w: TagWrite)
    ensures
        sets_or_clears(w, opt_text(*edit)),
{
    match edit {
        Some(s) => if text_is_blank(s.as_str()) {
            TagWrite::Remove
        } else {
            TagWrite::Write(s.clone())
        },
        None => TagWrite::Keep,
    }
}

/// What is to be done to the tags of a file for the changes of a request.
pub fn plan_tag_write(edits: &TagEdits) -> (p: TagPlan)
    ensures
        is_plan_for(p, edits@),
{
    TagPlan {
        title: set_unless_blank(&edits.title),
        artist: set_or_clear(&edits.artist),
        album: set_unless_blank(&edits.album),
        album_artist: set_or_clear(&edits.album_artist),
        genre: set_or_clear(&edits.genre),
        year: edits.year,
        track: edits.track_number,
        disk: edits.disc_number,
    }
}

/// The tags of a file once a plan was carried out.
pub open spec fn tags_after(tags: TagInfo, p: TagPlan) -> TagInfo {
    TagInfo {
        title: p.title.written(tags.title),
        artist: p.artist.written(tags.artist),
        album: p.album.written(tags.album),
        album_artist: p.album_artist.written(tags.album_artist),
        genre: p.genre.written(tags.genre),
        year: edited_number(p.year, tags.year),
        track: edited_number(p.track, tags.track),
        disk: edited_number(p.disk, tags.disk),
        ..tags
    }
}

/// What a request to change tags is answered before the file is touched.
#[derive(Debug)]
pub enum PatchStart {
    /// It changes nothing.
    NoFields,
    NotFound,
    /// The file at a path is to be written.
    Write { path: String, plan: TagPlan },
}

/// Decides on a request to change the tags of a track.
pub fn start_patch(tracks: &TrackMap, id: &str, edits: &TagEdits, music_dirs: &[String]) -> (r:
    PatchStart)
    ensures
        r is NoFields <==> no_edits(edits@),
        r is NotFound <==> !no_edits(edits@) && found(tracks@, id@) is None,
        r matches PatchStart::Write { path, plan } ==> {
            let t = found(tracks@, id@)->0;
            path@ == joined(base_dir(texts(music_dirs@), t.root as int), t.relative_path)
                && is_plan_for(plan, edits@)
        },
{
    if edits.is_empty() {
        return PatchStart::NoFields;
    }
    match tracks.get(id) {
        Some(track) => PatchStart::Write {
            path: track_abs_path(music_dirs, track),
            plan: plan_tag_write(edits),
        },
        None => PatchStart::NotFound,
    }
}

/// Makes the changes in the index once the file was written, and gives the changed track; nothing
/// where the track is no longer there. The index then has another version tag.
pub fn finish_patch(index: &mut TrackIndex, id: &str, edits: &TagEdits) -> (r: Option<Track>)
    requires
        old(index).wf(),
        old(index).version() < u64::MAX,
    ensures
        final(index).wf(),
        match found(old(index)@, id@) {
            Some(t) => {
                &&& r matches Some(u)
                &&& u@ == edited(t, edits@)
                &&& final(index)@ == old(index)@.update(
                    id_position(old(index)@, id@),
                    edited(t, edits@),
                )
                &&& final(index).version() == old(index).version() + 1
                &&& gets_another_tag(old(index).version(), final(index).version())
            },
            None => r is None && *final(index) == *old(index),
        },
{
    let mut track = match index.tracks().get(id) {
        Some(t) => t.clone(),
        None => {
            return None;
        },
    };
    apply_edits_in_place(&mut track, edits);
    let r = track.clone();
    index.insert(track);
    Some(r)
}

/// A change lasts: the track as it is changed in the index is the track that a new scan makes of
/// the file as it was written.
pub proof fn law_edits_survive_a_rescan(
    root: usize,
    f: FileInfo,
    id: Seq<char>,
    e: EditInfo,
    p: TagPlan,
)
    requires
        is_plan_for(p, e),
    ensures
        edited(track_of(root, f, id), e) == track_of(
            root,
            FileInfo { tags: tags_after(f.tags, p), ..f },
            id,
        ),
{
    assert(edited(track_of(root, f, id), e) =~= track_of(
        root,
        FileInfo { tags: tags_after(f.tags, p), ..f },
        id,
    ));
}

/// A changed track keeps its id, its place and the time at which it was added.
pub proof fn law_edits_keep_the_track(t: TrackInfo, e: EditInfo)
    ensures
        edited(t, e).id == t.id,
        edited(t, e).root == t.root,
        edited(t, e).relative_path == t.relative_path,
        edited(t, e).added_at == t.added_at,
        no_edits(e) ==> edited(t, e) == t,
{
}

/// A text that is given and not blank becomes the title, artist, album, album artist or genre; a
/// number that is given becomes the year or the number; and what is not given stays.
pub proof fn law_edits_are_made(t: TrackInfo, e: EditInfo, text: Seq<char>, n: u32)
    requires
        !is_blank(text),
    ensures
        e.title == Some(text) ==> edited(t, e).title == text,
        e.artist == Some(text) ==> edited(t, e).artist == text,
        e.album == Some(text) ==> edited(t, e).album == text,
        e.album_artist == Some(text) ==> edited(t, e).album_artist == Some(text),
        e.genre == Some(text) ==> edited(t, e).genre == Some(text),
        e.year == Some(n) ==> edited(t, e).year == Some(n),
        e.track_number == Some(n) ==> edited(t, e).track_number == Some(n),
        e.disc_number == Some(n) ==> edited(t, e).disc_number == Some(n),
        e.title is None ==> edited(t, e).title == t.title,
        e.artist is None ==> edited(t, e).artist == t.artist,
        e.album is None ==> edited(t, e).album == t.album,
        e.album_artist is None ==> edited(t, e).album_artist == t.album_artist,
        e.genre is None ==> edited(t, e).genre == t.genre,
        e.year is None ==> edited(t, e).year == t.year,
        e.track_number is None ==> edited(t, e).track_number == t.track_number,
        e.disc_number is None ==> edited(t, e).disc_number == t.disc_number,
        edited(t, e).duration_seconds == t.duration_seconds,
        edited(t, e).bitrate_kbps == t.bitrate_kbps,
        edited(t, e).format == t.format,
        edited(t, e).stream_url == t.stream_url,
        edited(t, e).has_embedded_lyrics == t.has_embedded_lyrics,
        edited(t, e).has_embedded_art == t.has_embedded_art,
{
}

/// A blank text takes an album artist or a genre away, makes the artist unknown, and leaves a title
/// or an album as it is.
pub proof fn law_blank_edits(t: TrackInfo, e: EditInfo, blank: Seq<char>)
    requires
        is_blank(blank),
    ensures
        e.title == Some(blank) ==> edited(t, e).title == t.title,
        e.album == Some(blank) ==> edited(t, e).album == t.album,
        e.artist == Some(blank) ==> edited(t, e).artist == "Unknown Artist"@,
        e.album_artist == Some(blank) ==> edited(t, e).album_artist is None,
        e.genre == Some(blank) ==> edited(t, e).genre is None,
{
}

/// What is written to a file are the changes that were asked for: a tag that is given and not blank
/// is written, a blank artist, album artist or genre is taken out, and nothing else is touched.
pub proof fn law_what_is_written(p: TagPlan, e: EditInfo, tags: TagInfo, text: Seq<char>)
    requires
        is_plan_for(p, e),
        !is_blank(text),
    ensures
        ({
            let after = tags_after(tags, p);
            &&& e.title == Some(text) ==> after.title == Some(text)
            &&& e.artist == Some(text) ==> after.artist == Some(text)
            &&& e.album == Some(text) ==> after.album == Some(text)
            &&& e.album_artist == Some(text) ==> after.album_artist == Some(text)
            &&& e.genre == Some(text) ==> after.genre == Some(text)
            &&& e.title is None || is_blank(e.title->0) ==> after.title == tags.title
            &&& e.album is None || is_blank(e.album->0) ==> after.album == tags.album
            &&& e.artist is None ==> after.artist == tags.artist
            &&& e.artist is Some && is_blank(e.artist->0) ==> after.artist is None
            &&& e.album_artist is None ==> after.album_artist == tags.album_artist
            &&& e.album_artist is Some && is_blank(e.album_artist->0) ==> after.album_artist is None
            &&& e.genre is None ==> after.genre == tags.genre
            &&& e.genre is Some && is_blank(e.genre->0) ==> after.genre is None
            &&& p.year == e.year
            &&& p.track == e.track_number
            &&& p.disk == e.disc_number
        }),
{
}

/// A request counts as empty just where none of its fields is given.
pub proof fn law_empty_requests(e: TagEdits)
    ensures
        no_edits(e@) <==> {
            &&& e.title is None
            &&& e.artist is None
            &&& e.album is None
            &&& e.album_artist is None
            &&& e.genre is None
            &&& e.year is None
            &&& e.track_number is None
            &&& e.disc_number is None
        },
{
}

/// What a request stands for are its fields.
pub proof fn law_requests_are_shown(e: TagEdits)
    ensures
        e.title matches Some(s) ==> e@.title == Some(s@),
        e.artist matches Some(s) ==> e@.artist == Some(s@),
        e.album matches Some(s) ==> e@.album == Some(s@),
        e.album_artist matches Some(s) ==> e@.album_artist == Some(s@),
        e.genre matches Some(s) ==> e@.genre == Some(s@),
        e@.year == e.year,
        e@.track_number == e.track_number,
        e@.disc_number == e.disc_number,
{
}

} // verus!
