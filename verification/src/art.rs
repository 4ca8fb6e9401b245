//! Album art: where it is looked for, and what is answered.
use crate::lists::{first_where, lemma_first_where, lemma_first_where_props};
use crate::page::opt_str;
use crate::paths::{extension_of, file_extension, law_stem_and_extension};
use crate::text::{lowercase, lowered, same_text};
use vstd::prelude::*;

verus! {

/// What is shown for a track without art.
pub const PLACEHOLDER_ART_SVG: &'static str =
    "<svg xmlns=\"http://www.w3.org/2000/svg\" viewBox=\"0 0 300 300\">\n  <rect width=\"300\" height=\"300\" fill=\"#2a2a2e\"/>\n  <path d=\"M120 210c0 16.6-13.4 30-30 30s-30-13.4-30-30 13.4-30 30-30c5.5 0 10.6 1.5 15 4V70l120-24v130c0 16.6-13.4 30-30 30s-30-13.4-30-30 13.4-30 30-30c5.5 0 10.6 1.5 15 4V96l-90 18v96z\" fill=\"#6b6b72\"/>\n</svg>";

/// The side of the square that a thumbnail fits into, in pixels.
pub const THUMBNAIL_SIDE: u32 = 300;

/// The sizes in which art is given.
#[derive(Debug, Clone, Copy, PartialEq, Eq, Hash, Structural)]
pub enum ArtSize {
    /// As it was found.
    Full,
    Thumbnail,
}

/// The size that a request names, the full one where it names none that is known.
pub open spec fn size_named(size: Option<Seq<char>>) -> ArtSize {
    if size == Some("thumbnail"@) || size == Some("thumb"@) {
        ArtSize::Thumbnail
    } else {
        ArtSize::Full
    }
}

impl ArtSize {
    /// The size that a request names.
    pub fn parse(size: Option<&str>) -> (r: Self)
        ensures
            r == size_named(opt_str(size)),
    {
        match size {
            Some(s) => if same_text(s, "thumbnail") || same_text(s, "thumb") {
                ArtSize::Thumbnail
            } else {
                ArtSize::Full
            },
            None => ArtSize::Full,
        }
    }
}

/// The larger of a number and one.
pub open spec fn at_least_one(n: int) -> u32 {
    if n < 1 {
        1
    } else {
        n as u32
    }
}

/// The size of a thumbnail: that of the image where it fits into the square, or else as large as
/// fits, with the same proportions.
pub open spec fn thumbnail_dims(width: u32, height: u32) -> (u32, u32) {
    if width <= THUMBNAIL_SIDE && height <= THUMBNAIL_SIDE {
        (width, height)
    } else if width >= height {
        (THUMBNAIL_SIDE, at_least_one(height * THUMBNAIL_SIDE / width as int))
    } else {
        (at_least_one(width * THUMBNAIL_SIDE / height as int), THUMBNAIL_SIDE)
    }
}

proof fn lemma_scaled(a: u32, b: u32)
    requires
        a <= b,
        b > 0,
    ensures
        0 <= a * THUMBNAIL_SIDE / b as int <= THUMBNAIL_SIDE,
{
    assert(0 <= a * THUMBNAIL_SIDE / b as int <= THUMBNAIL_SIDE) by (nonlinear_arith)
        requires
            0 <= a <= b,
            b > 0,
    ;
}

/// The size of the thumbnail of an image.
pub fn thumbnail_size(width: u32, height: u32) -> (r: (u32, u32))
    ensures
        r == thumbnail_dims(width, height),
{
    if width <= THUMBNAIL_SIDE && height <= THUMBNAIL_SIDE {
        (width, height)
    } else if width >= height {
        proof {
            lemma_scaled(height, width);
        }
        let h: u64 = height as u64 * THUMBNAIL_SIDE as u64 / width as u64;
        (
            THUMBNAIL_SIDE,
            if h < 1 {
                1
            } else {
                h as u32
            },
        )
    } else {
        proof {
            lemma_scaled(width, height);
        }
        let w: u64 = width as u64 * THUMBNAIL_SIDE as u64 / height as u64;
        (
            if w < 1 {
                1
            } else {
                w as u32
            },
            THUMBNAIL_SIDE,
        )
    }
}

/// A thumbnail fits into the square, and it is never empty where the image is not.
pub proof fn law_thumbnail_fits(width: u32, height: u32)
    ensures
        thumbnail_dims(width, height).0 <= THUMBNAIL_SIDE,
        thumbnail_dims(width, height).1 <= THUMBNAIL_SIDE,
        width > 0 && height > 0 ==> thumbnail_dims(width, height).0 > 0 && thumbnail_dims(
            width,
            height,
        ).1 > 0,
{
    if width > THUMBNAIL_SIDE || height > THUMBNAIL_SIDE {
        if width >= height {
            lemma_scaled(height, width);
        } else {
            lemma_scaled(width, height);
        }
    }
}

/// The names, in lower case, of the image files that show a whole folder.
pub open spec fn folder_art_names() -> Seq<Seq<char>> {
    seq![
        "cover.jpg"@,
        "cover.jpeg"@,
        "cover.png"@,
        "cover.webp"@,
        "folder.jpg"@,
        "folder.jpeg"@,
        "folder.png"@,
        "folder.webp"@,
        "front.jpg"@,
        "front.jpeg"@,
        "front.png"@,
        "front.webp"@,
    ]
}

/// Whether a file shows a whole folder, by its name in lower case.
pub fn is_folder_art_name(name_lower: &str) -> (r: bool)
    ensures
        r == folder_art_names().contains(name_lower@),
{
    let known: [&str; 12] = [
        "cover.jpg",
        "cover.jpeg",
        "cover.png",
        "cover.webp",
        "folder.jpg",
        "folder.jpeg",
        "folder.png",
        "folder.webp",
        "front.jpg",
        "front.jpeg",
        "front.png",
        "front.webp",
    ];
    let ghost all = folder_art_names();
    let mut i: usize = 0;
    while i < 12
        invariant
            0 <= i <= 12,
            all == folder_art_names(),
            known@.len() == 12,
            forall|k: int| 0 <= k < 12 ==> (#[trigger] known@[k])@ == all[k],
            forall|k: int| 0 <= k < i ==> #[trigger] all[k] != name_lower@,
        decreases 12 - i,
    {
        if same_text(known[i], name_lower) {
            assert(all[i as int] == name_lower@);
            return true;
        }
        i += 1;
    }
    false
}

/// The names of the files in a folder, as far as they are text.
pub open spec fn name_texts(names: Seq<Option<String>>) -> Seq<Option<Seq<char>>> {
    Seq::new(names.len(), |i: int| crate::text::opt_text(names[i]))
}

/// Whether a file shows a whole folder.
pub open spec fn is_folder_art(name: Option<Seq<char>>) -> bool {
    name matches Some(n) && folder_art_names().contains(lowered(n))
}

/// The folder art among the files of a folder: the first that there is.
pub open spec fn folder_art(names: Seq<Option<Seq<char>>>) -> Option<Seq<char>> {
    let i = first_where(names, |n: Option<Seq<char>>| is_folder_art(n));
    if i < names.len() {
        names[i]
    } else {
        None
    }
}

/// The folder art among the files of a folder: the first that there is. Files whose names are no
/// text are passed by.
pub fn try_folder_art(names: &[Option<String>]) -> (r: Option<String>)
    ensures
        crate::text::opt_text(r) == folder_art(name_texts(names@)),
{
    let ghost all = name_texts(names@);
    let ghost p = |n: Option<Seq<char>>| is_folder_art(n);
    let mut i: usize = 0;
    while i < names.len()
        invariant
            0 <= i <= names.len(),
            all == name_texts(names@),
            p == (|n: Option<Seq<char>>| is_folder_art(n)),
            forall|k: int| 0 <= k < i ==> !p(#[trigger] all[k]),
        decreases names.len() - i,
    {
        assert(all[i as int] == crate::text::opt_text(names@[i as int]));
        if let Some(name) = &names[i] {
            let name_lower = lowercase(name.as_str());
            if is_folder_art_name(name_lower.as_str()) {
                proof {
                    lemma_first_where(all, p, i as int);
                }
                return Some(name.clone());
            }
        }
        i += 1;
    }
    proof {
        lemma_first_where(all, p, i as int);
    }
    None
}

/// The name of an image beside a track.
pub open spec fn beside(stem: Seq<char>, ext: Seq<char>) -> Seq<char> {
    stem + "."@ + ext
}

/// The image with the name of a track among the files of its folder, the first extension that
/// there is one with.
pub open spec fn track_art(names: Seq<Option<Seq<char>>>, stem: Seq<char>) -> Option<Seq<char>> {
    if stem.len() == 0 {
        None
    } else if names.contains(Some(beside(stem, "jpg"@))) {
        Some(beside(stem, "jpg"@))
    } else if names.contains(Some(beside(stem, "jpeg"@))) {
        Some(beside(stem, "jpeg"@))
    } else if names.contains(Some(beside(stem, "png"@))) {
        Some(beside(stem, "png"@))
    } else if names.contains(Some(beside(stem, "webp"@))) {
        Some(beside(stem, "webp"@))
    } else {
        None
    }
}

fn has_name(names: &[Option<String>], name: &str) -> (r: bool)
    ensures
        r == name_texts(names@).contains(Some(name@)),
{
    let ghost all = name_texts(names@);
    let mut i: usize = 0;
    while i < names.len()
        invariant
            0 <= i <= names.len(),
            all == name_texts(names@),
            forall|k: int| 0 <= k < i ==> #[trigger] all[k] != Some(name@),
        decreases names.len() - i,
    {
        assert(all[i as int] == crate::text::opt_text(names@[i as int]));
        if let Some(n) = &names[i] {
            if same_text(n.as_str(), name) {
                assert(all[i as int] == Some(name@));
                return true;
            }
        }
        i += 1;
    }
    false
}

fn name_beside(stem: &str, ext: &str) -> (r: String)
    ensures
        r@ == beside(stem@, ext@),
{
    let mut r = stem.to_owned();
    r.append(".");
    r.append(ext);
    r
}

/// The image with the name of a track among the files of its folder.
pub fn try_track_named_art(names: &[Option<String>], stem: &str) -> (r: Option<String>)
    ensures
        crate::text::opt_text(r) == track_art(name_texts(names@), stem@),
{
    if stem.is_empty() {
        return None;
    }
    let jpg = name_beside(stem, "jpg");
    if has_name(names, jpg.as_str()) {
        return Some(jpg);
    }
    let jpeg = name_beside(stem, "jpeg");
    if has_name(names, jpeg.as_str()) {
        return Some(jpeg);
    }
    let png = name_beside(stem, "png");
    if has_name(names, png.as_str()) {
        return Some(png);
    }
    let webp = name_beside(stem, "webp");
    if has_name(names, webp.as_str()) {
        return Some(webp);
    }
    None
}

/// The media type of an image file, by its extension in lower case.
pub open spec fn mime_of_extension(ext_lower: Seq<char>) -> Seq<char> {
    if ext_lower == "png"@ {
        "image/png"@
    } else if ext_lower == "webp"@ {
        "image/webp"@
    } else {
        "image/jpeg"@
    }
}

/// The media type of an image file, by its extension in lower case.
pub fn extension_mime(ext_lower: &str) -> (r: &'static str)
    ensures
        r@ == mime_of_extension(ext_lower@),
{
    if same_text(ext_lower, "png") {
        "image/png"
    } else if same_text(ext_lower, "webp") {
        "image/webp"
    } else {
        "image/jpeg"
    }
}

/// The media type of an image file, by its name.
pub open spec fn mime_of_name(name: Seq<char>) -> Seq<char> {
    mime_of_extension(
        match extension_of(name) {
            Some(e) => lowered(e),
            None => lowered(""@),
        },
    )
}

fn image_mime(name: &str) -> (r: String)
    ensures
        r@ == mime_of_name(name@),
{
    let lower = match file_extension(name) {
        Some(e) => lowercase(e.as_str()),
        None => lowercase(""),
    };
    extension_mime(lower.as_str()).to_owned()
}

/// A picture that was found in the tags of a file.
#[derive(Debug)]
pub struct Picture {
    pub data: Vec<u8>,
    pub mime: Option<String>,
}

/// Art that was found: the image, its media type and where it is from.
#[derive(Debug)]
pub struct CachedArt {
    pub bytes: Vec<u8>,
    pub mime: String,
    pub source: &'static str,
}

/// Whether art is the given image of the given type from the given source.
pub open spec fn is_art(a: CachedArt, bytes: Seq<u8>, mime: Seq<char>, source: Seq<char>) -> bool {
    a.bytes@ == bytes && a.mime@ == mime && a.source@ == source
}

/// The media type of a picture in the tags: as given there, and JPEG where nothing is.
pub open spec fn picture_mime(mime: Option<Seq<char>>) -> Seq<char> {
    match mime {
        Some(m) => if m.len() > 0 {
            m
        } else {
            "image/jpeg"@
        },
        None => "image/jpeg"@,
    }
}

/// What came of the last step of a search for art.
#[derive(Debug)]
pub enum ArtEvent {
    /// The tags of the file were read.
    Embedded(Option<Picture>),
    /// The image of the folder was read, if it could be.
    Folder { name: String, bytes: Option<Vec<u8>> },
    /// The image with the name of the track was read, if it could be.
    TrackNamed { name: String, bytes: Option<Vec<u8>> },
}

/// The next step of a search for art.
#[derive(Debug)]
pub enum ArtStep {
    /// Read the image of the folder.
    ReadFolder(String),
    /// Read the image with the name of the track.
    ReadTrackNamed(String),
    /// The search is over.
    Done(Option<CachedArt>),
}

/// Whether a step is the right one where neither the tags nor the folder have art.
pub open spec fn is_step_to_track(
    r: ArtStep,
    names: Seq<Option<Seq<char>>>,
    stem: Seq<char>,
) -> bool {
    match track_art(names, stem) {
        Some(n) => r matches ArtStep::ReadTrackNamed(x) && x@ == n,
        None => r matches ArtStep::Done(a) && a is None,
    }
}

/// Whether a step is the right one after what came of the last. Art in the tags comes first, then
/// that of the folder, then that with the name of the track.
pub open spec fn is_next_step(
    r: ArtStep,
    event: ArtEvent,
    names: Seq<Option<Seq<char>>>,
    stem: Seq<char>,
) -> bool {
    match event {
        ArtEvent::Embedded(Some(p)) => r matches ArtStep::Done(Some(a)) && is_art(
            a,
            p.data@,
            picture_mime(crate::text::opt_text(p.mime)),
            "embedded"@,
        ),
        ArtEvent::Embedded(None) => match folder_art(names) {
            Some(n) => r matches ArtStep::ReadFolder(x) && x@ == n,
            None => is_step_to_track(r, names, stem),
        },
        ArtEvent::Folder { name, bytes: Some(b) } => r matches ArtStep::Done(Some(a)) && is_art(
            a,
            b@,
            mime_of_name(name@),
            "folder"@,
        ),
        ArtEvent::Folder { name, bytes: None } => is_step_to_track(r, names, stem),
        ArtEvent::TrackNamed { name, bytes: Some(b) } => r matches ArtStep::Done(Some(a))
            && is_art(a, b@, mime_of_name(name@), "track_named"@),
        ArtEvent::TrackNamed { name, bytes: None } => r matches ArtStep::Done(a) && a is None,
    }
}

fn step_to_track(names: &[Option<String>], stem: &str) -> (r: ArtStep)
    ensures
        is_step_to_track(r, name_texts(names@), stem@),
{
    match try_track_named_art(names, stem) {
        Some(n) => ArtStep::ReadTrackNamed(n),
        None => ArtStep::Done(None),
    }
}

/// The next step of a search for the art of a track, in the folder with the given files.
pub fn resolve_art(event: ArtEvent, names: &[Option<String>], stem: &str) -> (r: ArtStep)
    ensures
        is_next_step(r, event, name_texts(names@), stem@),
{
    match event {
        ArtEvent::Embedded(Some(p)) => {
            let mime = match p.mime {
                Some(m) => if m.as_str().is_empty() {
                    "image/jpeg".to_owned()
                } else {
                    m
                },
                None => "image/jpeg".to_owned(),
            };
            ArtStep::Done(Some(CachedArt { bytes: p.data, mime, source: "embedded" }))
        },
        ArtEvent::Embedded(None) => match try_folder_art(names) {
            Some(n) => ArtStep::ReadFolder(n),
            None => step_to_track(names, stem),
        },
        ArtEvent::Folder { name, bytes: Some(b) } => ArtStep::Done(
            Some(CachedArt { bytes: b, mime: image_mime(name.as_str()), source: "folder" }),
        ),
        ArtEvent::Folder { name, bytes: None } => step_to_track(names, stem),
        ArtEvent::TrackNamed { name, bytes: Some(b) } => ArtStep::Done(
            Some(CachedArt { bytes: b, mime: image_mime(name.as_str()), source: "track_named" }),
        ),
        ArtEvent::TrackNamed { name, bytes: None } => ArtStep::Done(None),
    }
}

/// A search for art goes from the tags to the folder to the image with the name of the track and
/// never back, ends at the first art that it comes upon, and finds none only where no place that
/// is left has any.
pub proof fn law_art_search_goes_in_order(
    r: ArtStep,
    event: ArtEvent,
    names: Seq<Option<Seq<char>>>,
    stem: Seq<char>,
)
    requires
        is_next_step(r, event, names, stem),
    ensures
        match event {
            ArtEvent::Embedded(p) => p is Some <==> r matches ArtStep::Done(Some(_)),
            ArtEvent::Folder { name, bytes } => r !is ReadFolder && (bytes is Some <==> r matches
                ArtStep::Done(Some(_))),
            ArtEvent::TrackNamed { name, bytes } => r is Done && (bytes is Some <==> r matches
                ArtStep::Done(Some(_))),
        },
        r is ReadFolder ==> folder_art(names) is Some,
        r matches ArtStep::Done(None) ==> event is TrackNamed || track_art(names, stem) is None,
        r matches ArtStep::Done(None) ==> event !is Embedded || folder_art(names) is None,
{
}

/// What a request for art is answered.
#[derive(Debug, Clone, Copy, PartialEq, Eq, Structural)]
pub enum ArtReply {
    /// The art that was found.
    Image,
    Placeholder,
    NotFound,
}

/// The answer to a request for art: the art where there is some, or else a placeholder unless the
/// request does not want one.
pub open spec fn art_reply(has_art: bool, placeholder: Option<bool>) -> ArtReply {
    if has_art {
        ArtReply::Image
    } else if placeholder == Some(false) {
        ArtReply::NotFound
    } else {
        ArtReply::Placeholder
    }
}

/// The answer to a request for art.
pub fn render_art_reply(has_art: bool, placeholder: Option<bool>) -> (r: ArtReply)
    ensures
        r == art_reply(has_art, placeholder),
{
    let want_placeholder = match placeholder {
        Some(b) => b,
        None => true,
    };
    if has_art {
        ArtReply::Image
    } else if want_placeholder {
        ArtReply::Placeholder
    } else {
        ArtReply::NotFound
    }
}

/// A thumbnail is the whole image where that is at most 300 pixels wide and high. A larger one has
/// its longer side brought down to 300 and the other in proportion, rounded down to whole pixels
/// but never to none.
pub proof fn law_thumbnail_keeps_proportions(width: u32, height: u32)
    requires
        width > 0,
        height > 0,
    ensures
        ({
            let (w, h) = thumbnail_dims(width, height);
            &&& width <= 300 && height <= 300 ==> w == width && h == height
            &&& width >= height && width > 300 ==> w == 300 && h * width <= 300 * height + width
                && 300 * height < (h + 1) * width && (h > 1 ==> h * width <= 300 * height)
            &&& height > width && height > 300 ==> h == 300 && 300 * width < (w + 1) * height && (w
                > 1 ==> w * height <= 300 * width)
        }),
{
    let (w, h) = thumbnail_dims(width, height);
    if width >= height && width > 300 {
        let q = height * 300 / width as int;
        vstd::arithmetic::div_mod::lemma_fundamental_div_mod(height * 300, width as int);
        vstd::arithmetic::div_mod::lemma_mod_bound(height * 300, width as int);
        assert(q * width <= height * 300 < (q + 1) * width) by (nonlinear_arith)
            requires
                height * 300 == width * q + (height * 300) % (width as int),
                0 <= (height * 300) % (width as int) < width,
        ;
        assert(q <= 300) by (nonlinear_arith)
            requires
                q * width <= height * 300,
                height <= width,
                width > 0,
        ;
        assert(q >= 0) by (nonlinear_arith)
            requires
                height * 300 < (q + 1) * width,
                width > 0,
                height >= 0,
        ;
        assert(h == if q < 1 {
            1
        } else {
            q
        });
        assert(q < 1 ==> 300 * height < 2 * width) by (nonlinear_arith)
            requires
                height * 300 < (q + 1) * width,
                width > 0,
        ;
    } else if height > width && height > 300 {
        let q = width * 300 / height as int;
        vstd::arithmetic::div_mod::lemma_fundamental_div_mod(width * 300, height as int);
        vstd::arithmetic::div_mod::lemma_mod_bound(width * 300, height as int);
        assert(q * height <= width * 300 < (q + 1) * height) by (nonlinear_arith)
            requires
                width * 300 == height * q + (width * 300) % (height as int),
                0 <= (width * 300) % (height as int) < height,
        ;
        assert(q <= 300) by (nonlinear_arith)
            requires
                q * height <= width * 300,
                width <= height,
                height > 0,
        ;
        assert(q >= 0) by (nonlinear_arith)
            requires
                width * 300 < (q + 1) * height,
                height > 0,
                width >= 0,
        ;
        assert(w == if q < 1 {
            1
        } else {
            q
        });
        assert(q < 1 ==> 300 * width < 2 * height) by (nonlinear_arith)
            requires
                width * 300 < (q + 1) * height,
                height > 0,
        ;
    }
}

/// The sizes that can be asked for: a thumbnail under two names, and the full one under every other
/// name and without one.
pub proof fn law_sizes_by_name(size: Seq<char>)
    ensures
        size_named(Some("thumbnail"@)) is Thumbnail,
        size_named(Some("thumb"@)) is Thumbnail,
        size_named(None) is Full,
        size != "thumbnail"@ && size != "thumb"@ ==> size_named(Some(size)) is Full,
{
}

/// The art of a folder is called `cover`, `folder` or `front` and is a JPEG, PNG or WebP file,
/// whatever the case of the letters; the first such file of the folder is taken, and none only
/// where there is none.
pub proof fn law_art_of_a_folder(names: Seq<Option<Seq<char>>>, name: Seq<char>, i: int)
    requires
        0 <= i < names.len(),
    ensures
        is_folder_art(Some(name)) <==> {
            ||| lowered(name) == "cover.jpg"@
            ||| lowered(name) == "cover.jpeg"@
            ||| lowered(name) == "cover.png"@
            ||| lowered(name) == "cover.webp"@
            ||| lowered(name) == "folder.jpg"@
            ||| lowered(name) == "folder.jpeg"@
            ||| lowered(name) == "folder.png"@
            ||| lowered(name) == "folder.webp"@
            ||| lowered(name) == "front.jpg"@
            ||| lowered(name) == "front.jpeg"@
            ||| lowered(name) == "front.png"@
            ||| lowered(name) == "front.webp"@
        },
        !is_folder_art(None),
        folder_art(names) is None ==> !is_folder_art(names[i]),
        folder_art(names) matches Some(n) ==> is_folder_art(Some(n)) && names.contains(Some(n)),
        is_folder_art(names[i]) && (forall|k: int|
            0 <= k < i ==> !is_folder_art(#[trigger] names[k])) ==> folder_art(names) == names[i],
{
    let known = folder_art_names();
    assert(known[0] == "cover.jpg"@ && known[1] == "cover.jpeg"@ && known[2] == "cover.png"@
        && known[3] == "cover.webp"@ && known[4] == "folder.jpg"@ && known[5] == "folder.jpeg"@
        && known[6] == "folder.png"@ && known[7] == "folder.webp"@ && known[8] == "front.jpg"@
        && known[9] == "front.jpeg"@ && known[10] == "front.png"@ && known[11] == "front.webp"@);
    let p = |n: Option<Seq<char>>| is_folder_art(n);
    lemma_first_where_props(names, p);
    let k = first_where(names, p);
    if k < names.len() {
        assert(p(names[k]));
    }
    if is_folder_art(names[i]) {
        assert(p(names[i]));
    }
}

/// The art of a track is the image file of its own name: the JPEG file before the others, then PNG,
/// then WebP, and nothing only where there is none of them.
pub proof fn law_art_of_a_track(names: Seq<Option<Seq<char>>>, stem: Seq<char>)
    requires
        stem.len() > 0,
    ensures
        ({
            let named = |ext: Seq<char>| Some(stem + "."@ + ext);
            let art = track_art(names, stem);
            &&& names.contains(named("jpg"@)) ==> art == named("jpg"@)
            &&& names.contains(named("jpeg"@)) ==> art == named("jpg"@) || art == named("jpeg"@)
            &&& names.contains(named("png"@)) ==> art is Some && art != named("webp"@)
            &&& names.contains(named("webp"@)) ==> art is Some
            &&& art is Some ==> names.contains(art) && (art == named("jpg"@) || art == named(
                "jpeg"@,
            ) || art == named("png"@) || art == named("webp"@))
            &&& art == named("jpeg"@) ==> !names.contains(named("jpg"@))
        }),
{
    reveal_strlit("jpg");
    reveal_strlit("jpeg");
    reveal_strlit("png");
    reveal_strlit("webp");
    reveal_strlit(".");
    let a = stem + "."@ + "jpg"@;
    let b = stem + "."@ + "jpeg"@;
    let c = stem + "."@ + "png"@;
    let d = stem + "."@ + "webp"@;
    let n = stem.len() as int;
    assert(a.len() == n + 4 && b.len() == n + 5 && c.len() == n + 4 && d.len() == n + 5);
    assert(a[n + 1] == 'j' && b[n + 1] == 'j' && c[n + 1] == 'p' && d[n + 1] == 'w');
}

/// Art is given as it was found, byte for byte, with the place where it was: a picture in the tags
/// with the type that the tags give, and an image file with that of its extension.
pub proof fn law_art_is_given_as_found(
    r: ArtStep,
    event: ArtEvent,
    names: Seq<Option<Seq<char>>>,
    stem: Seq<char>,
    art: CachedArt,
)
    requires
        is_next_step(r, event, names, stem),
        r == ArtStep::Done(Some(art)),
    ensures
        match event {
            ArtEvent::Embedded(Some(p)) => {
                &&& art.bytes@ == p.data@
                &&& art.source@ == "embedded"@
                &&& p.mime matches Some(m) ==> (m@.len() > 0 ==> art.mime@ == m@)
                &&& p.mime is None ==> art.mime@ == "image/jpeg"@
            },
            ArtEvent::Folder { name, bytes: Some(b) } => art.bytes@ == b@ && art.source@
                == "folder"@ && art.mime@ == mime_of_name(name@),
            ArtEvent::TrackNamed { name, bytes: Some(b) } => art.bytes@ == b@ && art.source@
                == "track_named"@ && art.mime@ == mime_of_name(name@),
            _ => false,
        },
{
}

/// The type of an image file is that of its extension, whatever the case of the letters.
pub proof fn law_types_of_image_files(stem: Seq<char>, ext: Seq<char>)
    requires
        stem.len() > 0,
        !ext.contains('.'),
    ensures
        lowered(ext) == "png"@ ==> mime_of_name(stem + seq!['.'] + ext) == "image/png"@,
        lowered(ext) == "webp"@ ==> mime_of_name(stem + seq!['.'] + ext) == "image/webp"@,
        lowered(ext) == "jpg"@ || lowered(ext) == "jpeg"@ ==> mime_of_name(
            stem + seq!['.'] + ext,
        ) == "image/jpeg"@,
{
    reveal_strlit("jpg");
    reveal_strlit("jpeg");
    reveal_strlit("png");
    reveal_strlit("webp");
    assert("jpg"@[0] == 'j' && "jpeg"@[0] == 'j' && "png"@[0] == 'p' && "webp"@[0] == 'w');
    law_stem_and_extension(stem, ext);
}

/// Where there is no art a placeholder is shown, unless the request says that it wants none.
pub proof fn law_placeholder(placeholder: Option<bool>)
    ensures
        art_reply(true, placeholder) is Image,
        art_reply(false, None) is Placeholder,
        art_reply(false, Some(true)) is Placeholder,
        art_reply(false, Some(false)) is NotFound,
{
}

} // verus!
