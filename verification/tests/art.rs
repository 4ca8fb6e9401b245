use sonum::art::{
    extension_mime, is_folder_art_name, render_art_reply, resolve_art, thumbnail_size,
    try_folder_art, try_track_named_art, ArtEvent, ArtReply, ArtSize, ArtStep, CachedArt, Picture,
    PLACEHOLDER_ART_SVG,
};

fn names(v: &[&str]) -> Vec<Option<String>> {
    v.iter().map(|s| Some(s.to_string())).collect()
}

fn done(step: ArtStep) -> Option<CachedArt> {
    match step {
        ArtStep::Done(a) => a,
        other => panic!("unexpected {other:?}"),
    }
}

#[test]
fn folder_art_is_found_whatever_its_case() {
    assert_eq!(
        try_folder_art(&names(&["a.mp3", "Cover.JPG", "folder.png"])).as_deref(),
        Some("Cover.JPG")
    );
    assert_eq!(try_folder_art(&names(&["cover.gif", "my cover.jpg"])), None);
    for known in ["cover.jpg", "folder.jpeg", "front.webp", "cover.png"] {
        assert!(is_folder_art_name(known));
    }
    assert!(!is_folder_art_name("Cover.jpg"));
}

#[test]
fn a_name_that_is_no_text_is_passed_by() {
    let files = vec![None, Some("a.mp3".to_string()), None, Some("cover.jpg".to_string())];
    assert_eq!(try_folder_art(&files).as_deref(), Some("cover.jpg"));
    assert_eq!(try_folder_art(&[None, None]), None);
}

#[test]
fn track_art_goes_by_its_extensions_in_order() {
    let files = names(&["song.webp", "song.png", "Song.jpg"]);
    assert_eq!(try_track_named_art(&files, "song").as_deref(), Some("song.png"));
    assert_eq!(try_track_named_art(&files, ""), None);
    assert_eq!(try_track_named_art(&files, "other"), None);
}

#[test]
fn art_in_the_tags_comes_first() {
    let files = names(&["cover.jpg"]);
    let picture = |mime: Option<&str>| {
        ArtEvent::Embedded(Some(Picture {
            data: vec![1, 2],
            mime: mime.map(|m| m.to_string()),
        }))
    };
    let art = done(resolve_art(picture(Some("image/png")), &files, "song")).unwrap();
    assert_eq!((art.bytes, art.mime.as_str(), art.source), (vec![1, 2], "image/png", "embedded"));
    let art = done(resolve_art(picture(Some("")), &files, "song")).unwrap();
    assert_eq!(art.mime, "image/jpeg");
    let art = done(resolve_art(picture(None), &files, "song")).unwrap();
    assert_eq!(art.mime, "image/jpeg");
}

#[test]
fn the_folder_comes_before_the_name_of_the_track() {
    let files = names(&["song.webp", "Folder.PNG"]);
    let name = match resolve_art(ArtEvent::Embedded(None), &files, "song") {
        ArtStep::ReadFolder(name) => name,
        other => panic!("unexpected {other:?}"),
    };
    assert_eq!(name, "Folder.PNG");
    let read = ArtEvent::Folder {
        name: name.clone(),
        bytes: Some(vec![7]),
    };
    let art = done(resolve_art(read, &files, "song")).unwrap();
    assert_eq!((art.bytes, art.mime.as_str(), art.source), (vec![7], "image/png", "folder"));
    let name = match resolve_art(ArtEvent::Folder { name, bytes: None }, &files, "song") {
        ArtStep::ReadTrackNamed(name) => name,
        other => panic!("unexpected {other:?}"),
    };
    assert_eq!(name, "song.webp");
    let read = ArtEvent::TrackNamed {
        name: name.clone(),
        bytes: Some(vec![8]),
    };
    let art = done(resolve_art(read, &files, "song")).unwrap();
    assert_eq!((art.mime.as_str(), art.source), ("image/webp", "track_named"));
    assert!(done(resolve_art(ArtEvent::TrackNamed { name, bytes: None }, &files, "song")).is_none());
    assert!(done(resolve_art(ArtEvent::Embedded(None), &[], "song")).is_none());
}

#[test]
fn a_placeholder_is_shown_unless_it_is_not_wanted() {
    assert_eq!(render_art_reply(true, Some(false)), ArtReply::Image);
    assert_eq!(render_art_reply(false, None), ArtReply::Placeholder);
    assert_eq!(render_art_reply(false, Some(true)), ArtReply::Placeholder);
    assert_eq!(render_art_reply(false, Some(false)), ArtReply::NotFound);
    assert!(PLACEHOLDER_ART_SVG.starts_with("<svg xmlns=\"http://www.w3.org/2000/svg\""));
}

#[test]
fn thumbnails_fit_and_keep_their_proportions() {
    assert_eq!(thumbnail_size(300, 200), (300, 200));
    assert_eq!(thumbnail_size(600, 200), (300, 100));
    assert_eq!(thumbnail_size(200, 600), (100, 300));
    assert_eq!(thumbnail_size(100_000, 1), (300, 1));
    assert_eq!(thumbnail_size(u32::MAX, u32::MAX), (300, 300));
}

#[test]
fn sizes_are_named() {
    assert_eq!(ArtSize::parse(None), ArtSize::Full);
    assert_eq!(ArtSize::parse(Some("full")), ArtSize::Full);
    assert_eq!(ArtSize::parse(Some("thumbnail")), ArtSize::Thumbnail);
    assert_eq!(ArtSize::parse(Some("thumb")), ArtSize::Thumbnail);
    assert_eq!(ArtSize::parse(Some("huge")), ArtSize::Full);
}

#[test]
fn media_types_go_by_the_extension() {
    assert_eq!(extension_mime("png"), "image/png");
    assert_eq!(extension_mime("webp"), "image/webp");
    assert_eq!(extension_mime("jpeg"), "image/jpeg");
    assert_eq!(extension_mime(""), "image/jpeg");
}
