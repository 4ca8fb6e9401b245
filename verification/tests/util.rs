use sonum::util::{keep_alphanumerics, normalize_for_match, parent_rel};

#[test]
fn parent_rel_returns_directory_part() {
    assert_eq!(parent_rel("Artist/Album/Song.mp3"), "Artist/Album");
    assert_eq!(parent_rel("Album/Song.mp3"), "Album");
}

#[test]
fn parent_rel_of_top_level_file_is_empty() {
    assert_eq!(parent_rel("Song.mp3"), "");
}

#[test]
fn parent_rel_keeps_non_ascii_names_whole() {
    assert_eq!(parent_rel("Björk/Début/é.mp3"), "Björk/Début");
    assert_eq!(parent_rel("/Song.mp3"), "");
}

#[test]
fn normalize_for_match_strips_case_and_punctuation() {
    assert_eq!(
        normalize_for_match("Song (Remastered 2011)!"),
        normalize_for_match("song remastered 2011")
    );
    assert_eq!(normalize_for_match("Hello, World!"), "helloworld");
}

#[test]
fn normalize_for_match_lowers_beyond_ascii() {
    assert_eq!(normalize_for_match("ÉTÉ - 7"), "été7");
    assert_eq!(keep_alphanumerics("a-b_c 1!é"), "abc1é");
}

#[test]
fn the_form_of_a_form_is_that_form() {
    let form = normalize_for_match("A.B-c 12 (Live)");
    assert_eq!(form, "abc12live");
    assert_eq!(normalize_for_match(&form), form);
    assert_eq!(normalize_for_match("!?"), "");
}
