use sonum::state::{Track, TrackMap};
use sonum::tree::{get_tree, insert_into_tree, sort_tree, TreeNode};

fn track(id: &str, root: usize, path: &str) -> Track {
    Track {
        id: id.to_string(),
        title: "t".to_string(),
        artist: "a".to_string(),
        album_artist: None,
        album: "al".to_string(),
        duration_seconds: 1,
        bitrate_kbps: None,
        format: "mp3".to_string(),
        stream_url: String::new(),
        has_embedded_lyrics: false,
        has_embedded_art: false,
        genre: None,
        year: None,
        track_number: None,
        disc_number: None,
        added_at: 0,
        root,
        relative_path: path.to_string(),
    }
}

fn show(n: &TreeNode) -> String {
    let children: Vec<String> = n.children.iter().map(show).collect();
    format!("{}({})[{}]", n.name, n.track_ids.join(","), children.join(" "))
}

fn parts(v: &[&str]) -> Vec<String> {
    v.iter().map(|s| s.to_string()).collect()
}

#[test]
fn each_music_folder_is_a_branch_of_its_own() {
    let mut tracks = TrackMap::new();
    tracks.insert(track("3", 1, "Beatles/x.mp3"));
    tracks.insert(track("2", 0, "Beatles/b.mp3"));
    tracks.insert(track("1", 0, "Beatles/a.mp3"));
    tracks.insert(track("4", 0, "Abba/Gold//c.mp3"));
    tracks.insert(track("5", 0, "top.mp3"));
    tracks.insert(track("6", 0, "//"));
    let labels = vec!["Zed".to_string(), "Music".to_string()];
    assert_eq!(
        show(&get_tree(&tracks, &labels)),
        "root()[Zed(5)[Abba()[Gold(4)[]] Beatles(1,2)[]] Music()[Beatles(3)[]]]"
    );
}

#[test]
fn a_library_without_tracks_still_has_its_folders() {
    let labels = vec!["Music".to_string()];
    assert_eq!(show(&get_tree(&TrackMap::new(), &labels)), "root()[Music()[]]");
}

#[test]
fn tracks_are_put_below_the_folders_of_their_paths() {
    let mut node = TreeNode {
        name: "n".to_string(),
        children: vec![],
        track_ids: vec![],
    };
    insert_into_tree(&mut node, &parts(&["b", "x.mp3"]), "2");
    insert_into_tree(&mut node, &parts(&["a", "c", "y.mp3"]), "3");
    insert_into_tree(&mut node, &parts(&["b", "z.mp3"]), "1");
    insert_into_tree(&mut node, &parts(&["w.mp3"]), "0");
    assert_eq!(show(&node), "n(0)[b(2,1)[] a()[c(3)[]]]");
    sort_tree(&mut node);
    assert_eq!(show(&node), "n(0)[a()[c(3)[]] b(1,2)[]]");
}

#[test]
fn sorting_reaches_every_depth_and_changes_nothing_twice() {
    let mut node = TreeNode {
        name: "n".to_string(),
        children: vec![],
        track_ids: vec![],
    };
    for (path, id) in [
        (vec!["b", "y", "1.mp3"], "9"),
        (vec!["b", "x", "2.mp3"], "8"),
        (vec!["b", "x", "3.mp3"], "7"),
        (vec!["a", "4.mp3"], "6"),
        (vec!["5.mp3"], "5"),
        (vec!["6.mp3"], "5"),
        (vec!["7.mp3"], "4"),
    ] {
        insert_into_tree(&mut node, &parts(&path), id);
    }
    sort_tree(&mut node);
    let once = show(&node);
    assert_eq!(once, "n(4,5,5)[a(6)[] b()[x(7,8)[] y(9)[]]]");
    sort_tree(&mut node);
    assert_eq!(show(&node), once);
}
