//! From what was read of an audio file to its track.
use crate::fingerprint::FileFingerprint;
use crate::paths::{
    extension_of, file_extension, file_name, file_name_of, file_stem, folder_name, folder_name_of,
    is_segment, is_under, law_file_in_a_folder, law_stem_and_extension, relative_part, relative_to,
    stem_of,
};
use crate::state::{Track, TrackInfo};
use crate::text::{
    is_blank, lowercase, lowered, opt_text, same_text, text_is_blank,
};
use vstd::prelude::*;

verus! {

/// The extensions of the files that are indexed.
pub open spec fn audio_extensions() -> Seq<Seq<char>> {
    seq!["mp3"@, "flac"@, "ogg"@, "opus"@, "m4a"@, "wav"@, "aac"@]
}

/// Whether files with an extension, given in lower case, are indexed.
pub fn is_audio_extension(ext: &str) -> (r: bool)
    ensures
        r == audio_extensions().contains(ext@),
{
    let known: [&str; 7] = ["mp3", "flac", "ogg", "opus", "m4a", "wav", "aac"];
    let mut i: usize = 0;
    let ghost all = audio_extensions();
    while i < 7
        invariant
            0 <= i <= 7,
            all == audio_extensions(),
            known@.len() == 7,
            forall|k: int| 0 <= k < 7 ==> (#[trigger] known@[k])@ == all[k],
            forall|k: int| 0 <= k < i ==> #[trigger] all[k] != ext@,
        decreases 7 - i,
    {
        if same_text(known[i], ext) {
            assert(all[i as int] == ext@);
            return true;
        }
        i += 1;
    }
    false
}

/// The extension of a path in lower case; nothing where it has none.
pub open spec fn lowered_extension(path: Seq<char>) -> Seq<char> {
    match file_name(path) {
        Some(n) => match extension_of(n) {
            Some(e) => lowered(e),
            None => Seq::empty(),
        },
        None => Seq::empty(),
    }
}

/// The extension of a path in lower case; nothing where it has none.
pub fn lowered_extension_of(path: &str) -> (r: String)
    ensures
        r@ == lowered_extension(path@),
{
    match file_name_of(path) {
        Some(name) => match file_extension(name.as_str()) {
            Some(ext) => lowercase(ext.as_str()),
            None => String::new(),
        },
        None => String::new(),
    }
}

/// A path with slashes in the place of backslashes.
pub open spec fn slashed(s: Seq<char>) -> Seq<char> {
    s.map_values(
        |c: char|
            if c == '\\' {
                '/'
            } else {
                c
            },
    )
}

/// A path with slashes in the place of backslashes.
pub fn slashed_text(s: &str) -> (r: String)
    ensures
        r@ == slashed(s@),
{
    let mut r = String::new();
    for c in it: s.chars()
        invariant
            it.seq() == s@,
            r@ == slashed(s@.take(it.index() as int)),
    {
        let ghost i = it.index() as int;
        assert(s@.take(i + 1) =~= s@.take(i).push(c));
        assert(slashed(s@.take(i + 1)) =~= slashed(s@.take(i)).push(
            if c == '\\' {
                '/'
            } else {
                c
            },
        ));
        if c == '\\' {
            r.push('/');
        } else {
            r.push(c);
        }
    }
    assert(s@.take(s@.len() as int) =~= s@);
    r
}

/// A file in a music folder that is worth reading: its path under the folder and its extension.
#[derive(Debug, PartialEq)]
pub struct Candidate {
    pub relative_path: String,
    pub ext: String,
}

/// The path of a file under a music folder, where the file is to be indexed.
pub open spec fn candidate_path(dir: Seq<char>, path: Seq<char>, ext: Seq<char>) -> Option<
    Seq<char>,
> {
    if !audio_extensions().contains(ext) {
        None
    } else {
        match relative_part(path, dir) {
            Some(p) => Some(slashed(p)),
            None => None,
        }
    }
}

/// The file at a path, with its extension in lower case, as one to be indexed from a music
/// folder; nothing where it is no audio file or lies elsewhere.
pub fn candidate_with(dir: &str, path: &str, ext: String) -> (r: Option<Candidate>)
    ensures
        match r {
            Some(c) => candidate_path(dir@, path@, ext@) == Some(c.relative_path@) && c.ext@
                == ext@,
            None => candidate_path(dir@, path@, ext@) is None,
        },
{
    if !is_audio_extension(ext.as_str()) {
        return None;
    }
    match relative_to(path, dir) {
        Some(p) => Some(Candidate { relative_path: slashed_text(p.as_str()), ext }),
        None => None,
    }
}

/// The file at a path as one to be indexed from a music folder; nothing where it is no audio file
/// or lies elsewhere.
pub fn candidate(dir: &str, path: &str) -> (r: Option<Candidate>)
    ensures
        match r {
            Some(c) => candidate_path(dir@, path@, lowered_extension(path@)) == Some(
                c.relative_path@,
            ) && c.ext@ == lowered_extension(path@),
            None => candidate_path(dir@, path@, lowered_extension(path@)) is None,
        },
{
    candidate_with(dir, path, lowered_extension_of(path))
}

/// The tags of an audio file as they were read.
#[derive(Debug)]
pub struct RawTags {
    pub title: Option<String>,
    pub artist: Option<String>,
    pub album: Option<String>,
    pub album_artist: Option<String>,
    pub lyrics: Option<String>,
    pub has_pictures: bool,
    pub genre: Option<String>,
    pub year: Option<u32>,
    pub track: Option<u32>,
    pub disk: Option<u32>,
}

/// What was read of one audio file.
#[derive(Debug)]
pub struct ScannedFile {
    pub path: String,
    pub relative_path: String,
    pub ext: String,
    pub tags: RawTags,
    pub duration_seconds: u64,
    pub bitrate_kbps: Option<u32>,
    pub fingerprint: FileFingerprint,
    pub added_at: u64,
}

/// Tags as plain values.
#[verifier::ext_equal]
pub struct TagInfo {
    pub title: Option<Seq<char>>,
    pub artist: Option<Seq<char>>,
    pub album: Option<Seq<char>>,
    pub album_artist: Option<Seq<char>>,
    pub lyrics: Option<Seq<char>>,
    pub has_pictures: bool,
    pub genre: Option<Seq<char>>,
    pub year: Option<u32>,
    pub track: Option<u32>,
    pub disk: Option<u32>,
}

/// What was read of one audio file, as plain values.
#[verifier::ext_equal]
pub struct FileInfo {
    pub path: Seq<char>,
    pub relative_path: Seq<char>,
    pub ext: Seq<char>,
    pub tags: TagInfo,
    pub duration_seconds: u64,
    pub bitrate_kbps: Option<u32>,
    pub hash: Seq<char>,
    pub size_bytes: u64,
    pub added_at: u64,
}

impl View for RawTags {
    type V = TagInfo;

    open spec fn view(&self) -> TagInfo {
        TagInfo {
            title: opt_text(self.title),
            artist: opt_text(self.artist),
            album: opt_text(self.album),
            album_artist: opt_text(self.album_artist),
            lyrics: opt_text(self.lyrics),
            has_pictures: self.has_pictures,
            genre: opt_text(self.genre),
            year: self.year,
            track: self.track,
            disk: self.disk,
        }
    }
}

impl View for ScannedFile {
    type V = FileInfo;

    open spec fn view(&self) -> FileInfo {
        FileInfo {
            path: self.path@,
            relative_path: self.relative_path@,
            ext: self.ext@,
            tags: self.tags@,
            duration_seconds: self.duration_seconds,
            bitrate_kbps: self.bitrate_kbps,
            hash: self.fingerprint.hash@,
            size_bytes: self.fingerprint.size_bytes,
            added_at: self.added_at,
        }
    }
}

/// A tag, unless it is blank.
pub open spec fn non_blank(tag: Option<Seq<char>>) -> Option<Seq<char>> {
    match tag {
        Some(s) => if is_blank(s) {
            None
        } else {
            Some(s)
        },
        None => None,
    }
}

/// A tag that is not blank, or else a text in its place.
pub open spec fn non_blank_or(tag: Option<Seq<char>>, otherwise: Seq<char>) -> Seq<char> {
    match non_blank(tag) {
        Some(s) => s,
        None => otherwise,
    }
}

/// What a file without a title tag is called: its name without the extension.
pub open spec fn fallback_title(path: Seq<char>) -> Seq<char> {
    match file_name(path) {
        Some(n) => stem_of(n),
        None => "Unknown Track"@,
    }
}

/// What the album of a file without an album tag is called: as the folder that it lies in.
pub open spec fn fallback_album(path: Seq<char>) -> Seq<char> {
    non_blank_or(folder_name(path), "Unknown Album"@)
}

/// Where a track is streamed from.
pub open spec fn stream_url_of(id: Seq<char>) -> Seq<char> {
    "/tracks/"@ + id + "/stream"@
}

/// The track of a file that was read, under an id.
pub open spec fn track_of(root: usize, f: FileInfo, id: Seq<char>) -> TrackInfo {
    TrackInfo {
        id,
        title: non_blank_or(f.tags.title, fallback_title(f.path)),
        artist: non_blank_or(f.tags.artist, "Unknown Artist"@),
        album_artist: non_blank(f.tags.album_artist),
        album: non_blank_or(f.tags.album, fallback_album(f.path)),
        duration_seconds: f.duration_seconds,
        bitrate_kbps: f.bitrate_kbps,
        format: f.ext,
        stream_url: stream_url_of(id),
        has_embedded_lyrics: non_blank(f.tags.lyrics) is Some,
        has_embedded_art: f.tags.has_pictures,
        genre: non_blank(f.tags.genre),
        year: f.tags.year,
        track_number: f.tags.track,
        disc_number: f.tags.disk,
        added_at: f.added_at,
        root,
        relative_path: f.relative_path,
    }
}

/// A tag, unless it is blank.
pub fn keep_non_blank(tag: &Option<String>) -> (r: Option<String>)
    ensures
        opt_text(r) == non_blank(opt_text(*tag)),
{
    match tag {
        Some(s) => if text_is_blank(s.as_str()) {
            None
        } else {
            Some(s.clone())
        },
        None => None,
    }
}

/// Where a track is streamed from.
pub fn stream_url_text(id: &str) -> (r: String)
    ensures
        r@ == stream_url_of(id@),
{
    let mut r = "/tracks/".to_owned();
    r.append(id);
    r.append("/stream");
    r
}

/// The track of a file that was read, under an id.
pub fn make_track(root: usize, file: &ScannedFile, id: String) -> (r: Track)
    ensures
        r@ == track_of(root, file@, id@),
{
    let title = match keep_non_blank(&file.tags.title) {
        Some(s) => s,
        None => match file_name_of(file.path.as_str()) {
            Some(name) => file_stem(name.as_str()),
            None => "Unknown Track".to_owned(),
        },
    };
    let artist = match keep_non_blank(&file.tags.artist) {
        Some(s) => s,
        None => "Unknown Artist".to_owned(),
    };
    let album = match keep_non_blank(&file.tags.album) {
        Some(s) => s,
        None => {
            let folder = folder_name_of(file.path.as_str());
            match keep_non_blank(&folder) {
                Some(s) => s,
                None => "Unknown Album".to_owned(),
            }
        },
    };
    let stream_url = stream_url_text(id.as_str());
    let r = Track {
        id,
        title,
        artist,
        album_artist: keep_non_blank(&file.tags.album_artist),
        album,
        duration_seconds: file.duration_seconds,
        bitrate_kbps: file.bitrate_kbps,
        format: file.ext.clone(),
        stream_url,
        has_embedded_lyrics: keep_non_blank(&file.tags.lyrics).is_some(),
        has_embedded_art: file.tags.has_pictures,
        genre: keep_non_blank(&file.tags.genre),
        year: file.tags.year,
        track_number: file.tags.track,
        disc_number: file.tags.disk,
        added_at: file.added_at,
        root,
        relative_path: file.relative_path.clone(),
    };
    r
}

/// A time that the file system gives.
#[derive(Debug, Clone, Copy, PartialEq, Eq, Structural)]
pub enum Stamp {
    /// So many seconds after the Unix epoch.
    Second(u64),
    /// Some time before the epoch.
    BeforeEpoch,
}

/// When a file was added, as far as the file system tells.
pub open spec fn added_at_of(created: Option<Stamp>, modified: Option<Stamp>, now: u64) -> u64 {
    match (created, modified) {
        (Some(Stamp::Second(s)), _) => s,
        (Some(Stamp::BeforeEpoch), _) => now,
        (None, Some(Stamp::Second(s))) => s,
        _ => now,
    }
}

/// When a file was added: at its birth, where the file system tells, else when it was last
/// modified, and now where neither is known or the time lies before the epoch.
pub fn file_added_at(created: Option<Stamp>, modified: Option<Stamp>, now: u64) -> (r: u64)
    ensures
        r == added_at_of(created, modified, now),
{
    let stamp = match created {
        Some(s) => Some(s),
        None => modified,
    };
    match stamp {
        Some(Stamp::Second(s)) => s,
        _ => now,
    }
}

/// A file without tags is still shown under its own name, the name of its folder and an unknown
/// artist.
pub proof fn law_untagged_file_is_named_after_its_path(root: usize, f: FileInfo, id: Seq<char>)
    requires
        f.tags.title is None,
        f.tags.artist is None,
        f.tags.album is None,
        file_name(f.path) is Some,
        folder_name(f.path) is Some,
        !is_blank(folder_name(f.path)->0),
    ensures
        track_of(root, f, id).title == stem_of(file_name(f.path)->0),
        track_of(root, f, id).artist == "Unknown Artist"@,
        track_of(root, f, id).album == folder_name(f.path)->0,
{
}

/// The track of a file that was read has just the length, the bitrate, the numbers and the place
/// that were read of the file, and leads to its stream by its id.
pub proof fn law_track_has_what_was_read(root: usize, file: ScannedFile, id: Seq<char>, t: Track)
    requires
        t@ == track_of(root, file@, id),
    ensures
        t.id@ == id,
        t.duration_seconds == file.duration_seconds,
        t.bitrate_kbps == file.bitrate_kbps,
        t.format@ == file.ext@,
        t.year == file.tags.year,
        t.track_number == file.tags.track,
        t.disc_number == file.tags.disk,
        t.added_at == file.added_at,
        t.root == root,
        t.relative_path@ == file.relative_path@,
        t.has_embedded_art == file.tags.has_pictures,
        t.stream_url@ == "/tracks/"@ + id + "/stream"@,
{
    assert(t@.duration_seconds == file@.duration_seconds);
}

/// A tag that is not blank is taken over as it is. Of one that is missing or blank, an album artist
/// and a genre are left out, an artist is unknown, and lyrics do not count as such.
pub proof fn law_tags_are_taken_over(
    root: usize,
    file: ScannedFile,
    id: Seq<char>,
    t: Track,
    tag: String,
)
    requires
        t@ == track_of(root, file@, id),
        !is_blank(tag@),
    ensures
        file.tags.title == Some(tag) ==> t.title@ == tag@,
        file.tags.artist == Some(tag) ==> t.artist@ == tag@,
        file.tags.album == Some(tag) ==> t.album@ == tag@,
        file.tags.album_artist == Some(tag) ==> (t.album_artist matches Some(x)
            && x@ == tag@),
        file.tags.genre == Some(tag) ==> (t.genre matches Some(x) && x@ == tag@),
        file.tags.lyrics == Some(tag) ==> t.has_embedded_lyrics,
        is_absent(file.tags.artist) ==> t.artist@ == "Unknown Artist"@,
        is_absent(file.tags.album_artist) ==> t.album_artist is None,
        is_absent(file.tags.genre) ==> t.genre is None,
        is_absent(file.tags.lyrics) ==> !t.has_embedded_lyrics,
{
    assert(t@.title == t.title@);
    assert(opt_text(t.album_artist) == t@.album_artist);
    assert(opt_text(t.genre) == t@.genre);
}

/// Whether a tag is missing or blank.
pub open spec fn is_absent(tag: Option<String>) -> bool {
    match tag {
        Some(s) => is_blank(s@),
        None => true,
    }
}

/// A file whose title and album are missing or blank is called by its name up to the last dot, and
/// its album as the folder that it lies in.
pub proof fn law_names_of_untagged_files(
    root: usize,
    file: ScannedFile,
    id: Seq<char>,
    t: Track,
    dir: Seq<char>,
    folder: Seq<char>,
    stem: Seq<char>,
    ext: Seq<char>,
)
    requires
        t@ == track_of(root, file@, id),
        dir.len() > 0,
        is_segment(folder),
        !is_blank(folder),
        stem.len() > 0,
        !ext.contains('.'),
        is_segment(stem + seq!['.'] + ext),
        file.path@ == dir + seq!['/'] + folder + seq!['/'] + (stem + seq!['.'] + ext),
    ensures
        is_absent(file.tags.title) ==> t.title@ == stem,
        is_absent(file.tags.album) ==> t.album@ == folder,
{
    let name = stem + seq!['.'] + ext;
    law_file_in_a_folder(dir + seq!['/'] + folder, folder, name);
    law_file_in_a_folder(dir, folder, name);
    law_stem_and_extension(stem, ext);
    assert(t@.title == t.title@);
}

/// A file in a music folder is indexed, under its path in that folder, just where its extension is
/// one of those of the supported formats in whatever case, and one elsewhere never is.
pub proof fn law_which_files_are_indexed(
    dir: Seq<char>,
    folder: Seq<char>,
    stem: Seq<char>,
    ext: Seq<char>,
    path: Seq<char>,
)
    requires
        dir.len() > 0,
        is_segment(folder),
        stem.len() > 0,
        !ext.contains('.'),
        is_segment(stem + seq!['.'] + ext),
        !folder.contains('\\'),
        !(stem + seq!['.'] + ext).contains('\\'),
        path == dir + seq!['/'] + folder + seq!['/'] + (stem + seq!['.'] + ext),
    ensures
        lowered_extension(path) == lowered(ext),
        candidate_path(dir, path, lowered(ext)) == if lowered(ext) == "mp3"@ || lowered(ext)
            == "flac"@ || lowered(ext) == "ogg"@ || lowered(ext) == "opus"@ || lowered(ext)
            == "m4a"@ || lowered(ext) == "wav"@ || lowered(ext) == "aac"@ {
            Some(folder + seq!['/'] + (stem + seq!['.'] + ext))
        } else {
            None
        },
        !is_under(path, folder) ==> candidate_path(folder, path, lowered(ext)) is None,
{
    let name = stem + seq!['.'] + ext;
    law_file_in_a_folder(dir + seq!['/'] + folder, folder, name);
    law_file_in_a_folder(dir, folder, name);
    law_stem_and_extension(stem, ext);
    let e = lowered(ext);
    let known = audio_extensions();
    assert(known[0] == "mp3"@ && known[1] == "flac"@ && known[2] == "ogg"@ && known[3] == "opus"@
        && known[4] == "m4a"@ && known[5] == "wav"@ && known[6] == "aac"@);
    let rel = folder + seq!['/'] + name;
    assert(slashed(rel) =~= rel) by {
        assert forall|i: int| 0 <= i < rel.len() implies #[trigger] rel[i] != '\\' by {
            if i < folder.len() {
                assert(rel[i] == folder[i]);
                assert(folder.contains(folder[i]));
            } else if i > folder.len() {
                assert(rel[i] == name[i - folder.len() - 1]);
                assert(name.contains(name[i - folder.len() - 1]));
            }
        }
    }
}

/// A file was added when it came into being, or where that is not known when it was last modified,
/// or now where neither is known or the first that is lies before the epoch.
pub proof fn law_time_of_a_file(created: u64, modified: Option<Stamp>, now: u64)
    ensures
        added_at_of(Some(Stamp::Second(created)), modified, now) == created,
        added_at_of(Some(Stamp::BeforeEpoch), modified, now) == now,
        added_at_of(None, Some(Stamp::Second(created)), now) == created,
        added_at_of(None, Some(Stamp::BeforeEpoch), now) == now,
        added_at_of(None, None, now) == now,
{
}

/// Backslashes in a path become slashes, and every other character stays.
pub proof fn law_slashes(path: Seq<char>, i: int)
    requires
        0 <= i < path.len(),
    ensures
        slashed(path).len() == path.len(),
        path[i] == '\\' ==> slashed(path)[i] == '/',
        path[i] != '\\' ==> slashed(path)[i] == path[i],
{
}

/// A file whose path tells neither its name nor its folder is an unknown track of an unknown album.
pub proof fn law_names_of_last_resort(root: usize, f: FileInfo, id: Seq<char>)
    requires
        non_blank(f.tags.title) is None,
        non_blank(f.tags.album) is None,
    ensures
        file_name(f.path) is None ==> track_of(root, f, id).title == "Unknown Track"@,
        folder_name(f.path) is None || is_blank(folder_name(f.path)->0) ==> track_of(
            root,
            f,
            id,
        ).album == "Unknown Album"@,
{
}

/// What was read of a file, and its tags, stand for their fields.
pub proof fn law_files_are_shown(f: ScannedFile)
    ensures
        f@.path == f.path@,
        f@.relative_path == f.relative_path@,
        f@.ext == f.ext@,
        f@.hash == f.fingerprint.hash@,
        f@.size_bytes == f.fingerprint.size_bytes,
        f@.added_at == f.added_at,
        f@.duration_seconds == f.duration_seconds,
        f@.bitrate_kbps == f.bitrate_kbps,
        f.tags.title matches Some(s) ==> f@.tags.title == Some(s@),
        f.tags.artist matches Some(s) ==> f@.tags.artist == Some(s@),
        f.tags.album matches Some(s) ==> f@.tags.album == Some(s@),
        f.tags.album_artist matches Some(s) ==> f@.tags.album_artist == Some(s@),
        f.tags.genre matches Some(s) ==> f@.tags.genre == Some(s@),
        f.tags.lyrics matches Some(s) ==> f@.tags.lyrics == Some(s@),
{
}

} // verus!
