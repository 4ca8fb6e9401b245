use sonum::paths::{
    file_extension, file_name_of, file_stem, folder_name_of, join_path, path_is_under, relative_to,
    same_path,
};

#[test]
fn file_names_are_the_last_components() {
    assert_eq!(file_name_of("/a/b.mp3").as_deref(), Some("b.mp3"));
    assert_eq!(file_name_of("/a/b/").as_deref(), Some("b"));
    assert_eq!(file_name_of("/a/..").as_deref(), None);
    assert_eq!(file_name_of("/").as_deref(), None);
    assert_eq!(file_name_of("").as_deref(), None);
}

#[test]
fn folders_are_the_components_before_the_last() {
    assert_eq!(folder_name_of("/m/Album/song.mp3").as_deref(), Some("Album"));
    assert_eq!(folder_name_of("/song.mp3").as_deref(), None);
    assert_eq!(folder_name_of("song.mp3").as_deref(), None);
    assert_eq!(folder_name_of("a/../song.mp3").as_deref(), None);
}

#[test]
fn names_split_at_their_last_dot() {
    assert_eq!((file_stem("a.b.c").as_str(), file_extension("a.b.c").as_deref()), ("a.b", Some("c")));
    assert_eq!((file_stem(".hidden").as_str(), file_extension(".hidden").as_deref()), (".hidden", None));
    assert_eq!((file_stem("x.").as_str(), file_extension("x.").as_deref()), ("x", Some("")));
    assert_eq!((file_stem("x").as_str(), file_extension("x").as_deref()), ("x", None));
}

#[test]
fn paths_are_the_same_by_their_components() {
    assert!(same_path("/a//b/", "/a/./b"));
    assert!(!same_path("a/b", "/a/b"));
    assert!(!same_path("./a", "a"));
}

#[test]
fn a_path_lies_under_another_by_whole_components() {
    assert!(path_is_under("/a/b/c", "/a/b/"));
    assert!(path_is_under("/a/b", "/a/b"));
    assert!(!path_is_under("/a/bc", "/a/b"));
    assert_eq!(relative_to("/a//b/c", "/a").as_deref(), Some("b/c"));
    assert_eq!(relative_to("/a", "/a/").as_deref(), Some(""));
    assert_eq!(relative_to("/b", "/a").as_deref(), None);
}

#[test]
fn joining_puts_one_slash_between() {
    assert_eq!(join_path("/a", "b"), "/a/b");
    assert_eq!(join_path("/a/", "b"), "/a/b");
    assert_eq!(join_path("", "b"), "b");
    assert_eq!(join_path("/a", "/b"), "/b");
}
