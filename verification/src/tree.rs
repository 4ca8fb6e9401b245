//! The folder tree of the library.
use crate::grouping::{
    lemma_sort_ascends, lemma_sort_members, lemma_sort_of_sorted, lemma_sort_rearranges,
};
use crate::lists::{first_where, lemma_first_where, lemma_first_where_props};
use crate::order::{
    as_ints, at_positions, by_text, goes_before, is_order, is_rearrangement, lemma_by_text,
    lemma_order_ranks, lemma_stable_sort, lemma_text_not_lt, position_lt, sort_texts, stable_order,
    stable_sort,
};
use crate::state::{distinct_ids, infos, TrackInfo, TrackMap};
use crate::text::{
    chars_before, chars_of, find, lemma_find_props, lemma_split_push, pieces, same_text, split,
    split_chars, text_lt, text_of, texts,
};
use vstd::prelude::*;
use vstd::slice::slice_subrange;

verus! {

/// A folder: the folders in it and the ids of the tracks directly in it.
#[derive(Debug)]
pub struct TreeNode {
    pub name: String,
    pub children: Vec<TreeNode>,
    pub track_ids: Vec<String>,
}

/// A folder as plain values.
#[verifier::ext_equal]
pub struct TreeInfo {
    pub name: Seq<char>,
    pub children: Seq<TreeInfo>,
    pub track_ids: Seq<Seq<char>>,
}

/// A folder as plain values.
pub open spec fn node_info(n: TreeNode) -> TreeInfo
    decreases n,
{
    TreeInfo {
        name: n.name@,
        children: Seq::new(
            n.children@.len(),
            |i: int|
                if 0 <= i < n.children@.len() {
                    node_info(n.children@[i])
                } else {
                    arbitrary()
                },
        ),
        track_ids: texts(n.track_ids@),
    }
}

/// Folders as plain values.
pub open spec fn node_infos(v: Seq<TreeNode>) -> Seq<TreeInfo> {
    Seq::new(v.len(), |i: int| node_info(v[i]))
}

/// A folder without anything in it.
pub open spec fn empty_folder(name: Seq<char>) -> TreeInfo {
    TreeInfo { name, children: Seq::empty(), track_ids: Seq::empty() }
}

/// The folders of a name.
pub open spec fn called(name: Seq<char>) -> spec_fn(TreeInfo) -> bool {
    |n: TreeInfo| n.name == name
}

/// A folder with a track put in, at the path that its parts give: all but the last are folders.
pub open spec fn inserted(n: TreeInfo, parts: Seq<Seq<char>>, id: Seq<char>) -> TreeInfo
    decreases parts.len(),
{
    if parts.len() <= 1 {
        TreeInfo { track_ids: n.track_ids.push(id), ..n }
    } else {
        let i = first_where(n.children, called(parts[0]));
        let rest = parts.skip(1);
        if i < n.children.len() {
            TreeInfo { children: n.children.update(i, inserted(n.children[i], rest, id)), ..n }
        } else {
            TreeInfo {
                children: n.children.push(inserted(empty_folder(parts[0]), rest, id)),
                ..n
            }
        }
    }
}

proof fn lemma_node_info(n: TreeNode)
    ensures
        node_info(n) == (TreeInfo {
            name: n.name@,
            children: node_infos(n.children@),
            track_ids: texts(n.track_ids@),
        }),
{
    assert(node_info(n).children =~= node_infos(n.children@));
}

fn child_called(n: &TreeNode, name: &str) -> (r: usize)
    ensures
        r == first_where(node_info(*n).children, called(name@)),
        r <= n.children.len(),
{
    let ghost all = node_info(*n).children;
    let ghost p = called(name@);
    proof {
        lemma_node_info(*n);
    }
    let mut i: usize = 0;
    while i < n.children.len()
        invariant
            0 <= i <= n.children.len(),
            all == node_infos(n.children@),
            all == node_info(*n).children,
            p == called(name@),
            forall|k: int| 0 <= k < i ==> !p(#[trigger] all[k]),
        decreases n.children.len() - i,
    {
        assert(all[i as int].name == n.children@[i as int].name@);
        if same_text(n.children[i].name.as_str(), name) {
            proof {
                lemma_first_where(all, p, i as int);
            }
            return i;
        }
        i += 1;
    }
    proof {
        lemma_first_where(all, p, i as int);
    }
    i
}

/// Puts a track into a folder, at the path that its parts give: all but the last are folders.
pub fn insert_into_tree(node: &mut TreeNode, parts: &[String], track_id: &str)
    ensures
        node_info(*final(node)) == inserted(node_info(*old(node)), texts(parts@), track_id@),
    decreases parts.len(),
{
    let ghost ps = texts(parts@);
    proof {
        lemma_node_info(*node);
    }
    if parts.len() <= 1 {
        let ghost ids = texts(node.track_ids@);
        node.track_ids.push(track_id.to_owned());
        proof {
            lemma_node_info(*node);
            assert(texts(node.track_ids@) =~= ids.push(track_id@));
        }
        return ;
    }
    let ghost kids = node_infos(node.children@);
    let head = parts[0].as_str();
    let rest = slice_subrange(parts, 1, parts.len());
    assert(ps.skip(1) =~= texts(rest@));
    let idx = child_called(node, head);
    if idx >= node.children.len() {
        node.children.push(
            TreeNode { name: head.to_owned(), children: Vec::new(), track_ids: Vec::new() },
        );
        proof {
            let fresh = node.children@[idx as int];
            lemma_node_info(fresh);
            assert(node_infos(fresh.children@) =~= Seq::empty());
            assert(texts(fresh.track_ids@) =~= Seq::empty());
        }
    }
    insert_into_tree(&mut node.children[idx], rest, track_id);
    proof {
        lemma_node_info(*node);
        let after = node_infos(node.children@);
        let child = node_info(node.children@[idx as int]);
        assert(after =~= if idx < kids.len() {
            kids.update(idx as int, child)
        } else {
            kids.push(child)
        });
    }
}

/// The order of folders by their names.
pub open spec fn by_name() -> spec_fn(TreeInfo, TreeInfo) -> bool {
    |a: TreeInfo, b: TreeInfo| text_lt(a.name, b.name)
}

/// A folder with all folders and tracks in it sorted, at every depth.
pub open spec fn tidied(n: TreeInfo) -> TreeInfo
    decreases n,
{
    TreeInfo {
        name: n.name,
        children: stable_sort(all_tidied(n.children), by_name()),
        track_ids: stable_sort(n.track_ids, by_text()),
    }
}

/// Folders with everything in them sorted.
pub open spec fn all_tidied(s: Seq<TreeInfo>) -> Seq<TreeInfo>
    decreases s,
{
    if s.len() == 0 {
        Seq::empty()
    } else {
        all_tidied(s.subrange(0, s.len() - 1)).push(tidied(s[s.len() - 1]))
    }
}

proof fn lemma_all_tidied(s: Seq<TreeInfo>)
    ensures
        all_tidied(s).len() == s.len(),
        forall|i: int| 0 <= i < s.len() ==> #[trigger] all_tidied(s)[i] == tidied(s[i]),
    decreases s.len(),
{
    if s.len() > 0 {
        let front = s.subrange(0, s.len() - 1);
        lemma_all_tidied(front);
        assert forall|i: int| 0 <= i < s.len() implies #[trigger] all_tidied(s)[i] == tidied(
            s[i],
        ) by {
            if i < front.len() {
                assert(all_tidied(s)[i] == all_tidied(front)[i]);
                assert(front[i] == s[i]);
            }
        }
    }
}

pub proof fn lemma_by_name()
    ensures
        is_order(by_name()),
{
    let lt = by_name();
    assert forall|a: TreeInfo, b: TreeInfo| #[trigger] lt(a, b) implies !lt(b, a) by {
        lemma_text_not_lt(a.name, b.name, a.name);
    }
    assert forall|a: TreeInfo, b: TreeInfo, c: TreeInfo|
        #![trigger lt(a, b), lt(b, c)]
        !lt(a, b) && !lt(b, c) implies !lt(a, c) by {
        lemma_text_not_lt(a.name, b.name, c.name);
    }
}

fn reordered(v: Vec<TreeNode>, order: &[usize]) -> (r: Vec<TreeNode>)
    requires
        forall|i: int| 0 <= i < order.len() ==> #[trigger] order@[i] < v.len(),
        forall|i: int, j: int|
            0 <= i < j < order.len() ==> #[trigger] order@[i] != #[trigger] order@[j],
    ensures
        node_infos(r@) == at_positions(node_infos(v@), as_ints(order@)),
{
    let ghost all = v@;
    let mut v = v;
    let mut r: Vec<TreeNode> = Vec::new();
    let mut i: usize = 0;
    while i < order.len()
        invariant
            0 <= i <= order.len(),
            v.len() == all.len(),
            forall|k: int| 0 <= k < order.len() ==> #[trigger] order@[k] < all.len(),
            forall|k: int, j: int|
                0 <= k < j < order.len() ==> #[trigger] order@[k] != #[trigger] order@[j],
            forall|k: int| i <= k < order.len() ==> v@[(#[trigger] order@[k]) as int]
                == all[order@[k] as int],
            r.len() == i,
            forall|k: int| 0 <= k < i ==> #[trigger] r@[k] == all[order@[k] as int],
        decreases order.len() - i,
    {
        let mut node = TreeNode {
            name: String::new(),
            children: Vec::new(),
            track_ids: Vec::new(),
        };
        let p = order[i];
        std::mem::swap(&mut node, &mut v[p]);
        r.push(node);
        i += 1;
    }
    assert(node_infos(r@) =~= at_positions(node_infos(all), as_ints(order@)));
    r
}

fn sorted_by_name(v: Vec<TreeNode>) -> (r: Vec<TreeNode>)
    ensures
        node_infos(r@) == stable_sort(node_infos(v@), by_name()),
{
    let n = v.len();
    let ghost s = node_infos(v@);
    let ghost lt = position_lt(s, by_name());
    let mut names: Vec<Vec<char>> = Vec::new();
    let mut i: usize = 0;
    while i < n
        invariant
            0 <= i <= n,
            n == v.len(),
            names.len() == i,
            forall|k: int| 0 <= k < i ==> (#[trigger] names@[k])@ == v@[k].name@,
        decreases n - i,
    {
        names.push(chars_of(v[i].name.as_str()));
        i += 1;
    }
    let less = |a: usize, b: usize| -> (r: bool)
        requires
            a < n,
            b < n,
            n == names@.len(),
        ensures
            r == text_lt(names@[a as int]@, names@[b as int]@),
        { chars_before(names[a].as_slice(), names[b].as_slice()) };
    proof {
        lemma_by_name();
        lemma_order_ranks(s, by_name());
        assert forall|a: int, b: int| 0 <= a < n && 0 <= b < n implies #[trigger] lt(a, b)
            == text_lt(names@[a]@, names@[b]@) by {
            assert(s[a].name == v@[a].name@ && s[b].name == v@[b].name@);
        }
    }
    let order = stable_order(n, &less, Ghost(lt));
    proof {
        lemma_stable_sort(s, by_name(), as_ints(order@));
        let o = as_ints(order@);
        assert forall|i: int, j: int| 0 <= i < j < order.len() implies #[trigger] order@[i]
            != #[trigger] order@[j] by {
            assert(goes_before(lt, o[i], o[j]));
            if order@[i] == order@[j] {
                assert(lt(o[i], o[i]));
                assert(!lt(o[i], o[i]));
            }
        }
    }
    reordered(v, order.as_slice())
}

/// Sorts the folders and tracks of a folder, at every depth.
pub fn sort_tree(node: &mut TreeNode)
    ensures
        node_info(*final(node)) == tidied(node_info(*old(node))),
    decreases *old(node),
{
    let ghost start = *node;
    proof {
        lemma_node_info(start);
        lemma_all_tidied(node_infos(start.children@));
    }
    let n = node.children.len();
    let mut i: usize = 0;
    while i < n
        invariant
            0 <= i <= n,
            n == start.children@.len(),
            node.children@.len() == n,
            node.name == start.name,
            node.track_ids == start.track_ids,
            forall|k: int| 0 <= k < i ==> node_info(#[trigger] node.children@[k]) == tidied(
                node_info(start.children@[k]),
            ),
            forall|k: int| i <= k < n ==> #[trigger] node.children@[k] == start.children@[k],
            *old(node) == start,
        decreases n - i,
    {
        assert(node.children@[i as int] == start.children@[i as int]);
        assert(decreases_to!(start => start.children@[i as int]));
        sort_tree(&mut node.children[i]);
        i += 1;
    }
    let ghost kids = node.children@;
    assert(node_infos(kids) =~= all_tidied(node_infos(start.children@)));
    let mut children: Vec<TreeNode> = Vec::new();
    std::mem::swap(&mut children, &mut node.children);
    node.children = sorted_by_name(children);
    node.track_ids = sort_texts(node.track_ids.as_slice());
    proof {
        lemma_node_info(*node);
    }
}

/// The folders and the file name that a path is made of.
pub open spec fn path_parts(path: Seq<char>) -> Seq<Seq<char>> {
    split(path, '/').filter(|p: Seq<char>| p.len() > 0)
}

/// A folder with the tracks of a music folder put in, in order.
pub open spec fn filled(n: TreeInfo, ts: Seq<TrackInfo>, root: usize) -> TreeInfo
    decreases ts.len(),
{
    if ts.len() == 0 {
        n
    } else {
        let before = filled(n, ts.drop_last(), root);
        let parts = path_parts(ts.last().relative_path);
        if ts.last().root == root && parts.len() > 0 {
            inserted(before, parts, ts.last().id)
        } else {
            before
        }
    }
}

/// The tree of a library: a folder for each music folder, under its label and in the order of the
/// configuration, with everything in it sorted.
pub open spec fn tree_of(ts: Seq<TrackInfo>, labels: Seq<Seq<char>>) -> TreeInfo {
    TreeInfo {
        name: "root"@,
        children: Seq::new(
            labels.len(),
            |r: int| tidied(filled(empty_folder(labels[r]), ts, r as usize)),
        ),
        track_ids: Seq::empty(),
    }
}

fn path_parts_of(path: &str) -> (r: Vec<String>)
    ensures
        texts(r@) == path_parts(path@),
{
    let chars = chars_of(path);
    let pieces_of_path = split_chars(chars.as_slice(), '/');
    let ghost all = split(path@, '/');
    let ghost p = |s: Seq<char>| s.len() > 0;
    let mut r: Vec<String> = Vec::new();
    let mut i: usize = 0;
    assert(texts(r@) =~= all.take(0).filter(p)) by {
        reveal(Seq::filter);
    }
    while i < pieces_of_path.len()
        invariant
            0 <= i <= pieces_of_path.len(),
            all == pieces(pieces_of_path@),
            p == (|s: Seq<char>| s.len() > 0),
            texts(r@) == all.take(i as int).filter(p),
        decreases pieces_of_path.len() - i,
    {
        let piece = pieces_of_path[i];
        let ghost before = texts(r@);
        proof {
            reveal(Seq::filter);
            assert(all.take(i + 1).drop_last() =~= all.take(i as int));
            assert(all.take(i + 1).last() == piece@);
        }
        if piece.len() > 0 {
            r.push(text_of(piece));
            assert(texts(r@) =~= before.push(piece@));
        }
        i += 1;
    }
    assert(all.take(i as int) =~= all);
    r
}

fn folder_tree(tracks: &TrackMap, label: &str, root: usize) -> (r: TreeNode)
    ensures
        node_info(r) == tidied(filled(empty_folder(label@), tracks@, root)),
{
    let mut node = TreeNode {
        name: label.to_owned(),
        children: Vec::new(),
        track_ids: Vec::new(),
    };
    let all = tracks.all();
    let ghost s = tracks@;
    let ghost start = empty_folder(label@);
    proof {
        lemma_node_info(node);
        assert(node_infos(node.children@) =~= Seq::empty());
        assert(texts(node.track_ids@) =~= Seq::empty());
    }
    let mut i: usize = 0;
    while i < all.len()
        invariant
            0 <= i <= all.len(),
            s == infos(all@),
            node_info(node) == filled(start, s.take(i as int), root),
        decreases all.len() - i,
    {
        proof {
            assert(s.take(i + 1).drop_last() =~= s.take(i as int));
            assert(s.take(i + 1).last() == all@[i as int]@);
        }
        if all[i].root == root {
            let parts = path_parts_of(all[i].relative_path.as_str());
            assert(texts(parts@).len() == parts@.len());
            if parts.len() > 0 {
                insert_into_tree(&mut node, parts.as_slice(), all[i].id.as_str());
            }
        }
        i += 1;
    }
    assert(s.take(i as int) =~= s);
    sort_tree(&mut node);
    node
}

/// The tree of a library, given the labels of its music folders.
pub fn get_tree(tracks: &TrackMap, labels: &[String]) -> (r: TreeNode)
    ensures
        node_info(r) == tree_of(tracks@, texts(labels@)),
{
    let mut children: Vec<TreeNode> = Vec::new();
    let ghost want = tree_of(tracks@, texts(labels@)).children;
    let mut i: usize = 0;
    while i < labels.len()
        invariant
            0 <= i <= labels.len(),
            want == tree_of(tracks@, texts(labels@)).children,
            children.len() == i,
            forall|k: int| 0 <= k < i ==> node_info(#[trigger] children@[k]) == want[k],
        decreases labels.len() - i,
    {
        children.push(folder_tree(tracks, labels[i].as_str(), i));
        i += 1;
    }
    let r = TreeNode { name: "root".to_owned(), children, track_ids: Vec::new() };
    proof {
        lemma_node_info(r);
        assert(node_infos(r.children@) =~= want);
        assert(texts(r.track_ids@) =~= Seq::empty());
    }
    r
}

/// Whether a track is listed directly in the folder at a path below another.
pub open spec fn lists(n: TreeInfo, path: Seq<Seq<char>>, id: Seq<char>) -> bool
    decreases path.len(),
{
    if path.len() == 0 {
        n.track_ids.contains(id)
    } else {
        exists|i: int|
            0 <= i < n.children.len() && (#[trigger] n.children[i]).name == path[0] && lists(
                n.children[i],
                path.skip(1),
                id,
            )
    }
}

proof fn lemma_empty_lists_nothing(name: Seq<char>, path: Seq<Seq<char>>, id: Seq<char>)
    ensures
        !lists(empty_folder(name), path, id),
{
}

/// Putting a track in lists that track in its folder and changes no other listing.
proof fn lemma_inserted_lists(
    n: TreeInfo,
    parts: Seq<Seq<char>>,
    id: Seq<char>,
    path: Seq<Seq<char>>,
    x: Seq<char>,
)
    requires
        parts.len() > 0,
    ensures
        lists(inserted(n, parts, id), path, x) <==> lists(n, path, x) || (path == parts.drop_last()
            && x == id),
    decreases parts.len(),
{
    let after = inserted(n, parts, id);
    if parts.len() == 1 {
        assert(parts.drop_last() =~= Seq::empty());
        if path.len() == 0 {
            assert(path =~= parts.drop_last());
            lemma_push_members(n.track_ids, id, x);
        } else {
            assert(after.children == n.children);
            assert(lists(after, path, x) == lists(n, path, x));
        }
    } else {
        let rest = parts.skip(1);
        let i = first_where(n.children, called(parts[0]));
        lemma_first_where_props(n.children, called(parts[0]));
        assert(rest.drop_last() =~= parts.drop_last().skip(1));
        if path.len() == 0 {
            assert(after.track_ids == n.track_ids);
        } else {
            let below = path.skip(1);
            let child = if i < n.children.len() {
                n.children[i]
            } else {
                empty_folder(parts[0])
            };
            lemma_inserted_lists(child, rest, id, below, x);
            lemma_empty_lists_nothing(parts[0], below, x);
            assert(child.name == parts[0]);
            assert(after.children[i] == inserted(child, rest, id));
            assert(after.children[i].name == parts[0]);
            if path == parts.drop_last() {
                assert(path[0] == parts[0]);
            }
            if path[0] == parts[0] && below == rest.drop_last() {
                assert(path =~= seq![path[0]] + below);
                assert(parts.drop_last() =~= seq![parts[0]] + rest.drop_last());
            }
            if lists(after, path, x) {
                let k = choose|k: int|
                    0 <= k < after.children.len() && (#[trigger] after.children[k]).name == path[0]
                        && lists(after.children[k], below, x);
                if k != i {
                    assert(n.children[k] == after.children[k]);
                } else if i < n.children.len() && lists(child, below, x) {
                    assert(n.children[i].name == path[0]);
                }
            }
            if lists(n, path, x) {
                let k = choose|k: int|
                    0 <= k < n.children.len() && (#[trigger] n.children[k]).name == path[0]
                        && lists(n.children[k], below, x);
                if k != i {
                    assert(after.children[k] == n.children[k]);
                } else {
                    assert(after.children[i].name == path[0]);
                }
            }
        }
    }
}

proof fn lemma_push_members(s: Seq<Seq<char>>, id: Seq<char>, x: Seq<char>)
    ensures
        s.push(id).contains(x) <==> s.contains(x) || x == id,
{
    let t = s.push(id);
    if t.contains(x) {
        let k = choose|k: int| 0 <= k < t.len() && t[k] == x;
        if k < s.len() {
            assert(s[k] == x);
        }
    }
    if s.contains(x) {
        let k = choose|k: int| 0 <= k < s.len() && s[k] == x;
        assert(t[k] == x);
    }
    assert(t[s.len() as int] == id);
}

/// Sorting changes no listing.
proof fn lemma_tidied_lists(n: TreeInfo, path: Seq<Seq<char>>, x: Seq<char>)
    ensures
        lists(tidied(n), path, x) <==> lists(n, path, x),
    decreases path.len(),
{
    let t = tidied(n);
    let kids = all_tidied(n.children);
    lemma_all_tidied(n.children);
    if path.len() == 0 {
        lemma_by_text();
        lemma_sort_members(n.track_ids, by_text(), x);
    } else {
        let below = path.skip(1);
        if lists(t, path, x) {
            let k = choose|k: int|
                0 <= k < t.children.len() && (#[trigger] t.children[k]).name == path[0] && lists(
                    t.children[k],
                    below,
                    x,
                );
            let c = t.children[k];
            lemma_by_name();
            lemma_sort_members(kids, by_name(), c);
            assert(t.children.contains(c));
            let i = choose|i: int| 0 <= i < kids.len() && kids[i] == c;
            assert(kids[i] == tidied(n.children[i]));
            lemma_tidied_lists(n.children[i], below, x);
            assert(n.children[i].name == path[0]);
        }
        if lists(n, path, x) {
            let i = choose|i: int|
                0 <= i < n.children.len() && (#[trigger] n.children[i]).name == path[0] && lists(
                    n.children[i],
                    below,
                    x,
                );
            let c = tidied(n.children[i]);
            lemma_tidied_lists(n.children[i], below, x);
            assert(kids[i] == c);
            assert(kids.contains(c));
            lemma_by_name();
            lemma_sort_members(kids, by_name(), c);
            let k = choose|k: int| 0 <= k < t.children.len() && t.children[k] == c;
            assert(t.children[k].name == path[0]);
        }
    }
}

/// Whether a track lies directly in the folder at a path of a music folder.
pub open spec fn lies_in(t: TrackInfo, root: usize, path: Seq<Seq<char>>) -> bool {
    t.root == root && path_parts(t.relative_path).len() > 0 && path_parts(
        t.relative_path,
    ).drop_last() == path
}

proof fn lemma_filled_lists(
    n: TreeInfo,
    ts: Seq<TrackInfo>,
    root: usize,
    path: Seq<Seq<char>>,
    x: Seq<char>,
)
    ensures
        lists(filled(n, ts, root), path, x) <==> lists(n, path, x) || exists|i: int|
            0 <= i < ts.len() && lies_in(#[trigger] ts[i], root, path) && ts[i].id == x,
    decreases ts.len(),
{
    if ts.len() > 0 {
        let front = ts.drop_last();
        let t = ts.last();
        let parts = path_parts(t.relative_path);
        lemma_filled_lists(n, front, root, path, x);
        if t.root == root && parts.len() > 0 {
            lemma_inserted_lists(filled(n, front, root), parts, t.id, path, x);
        }
        if exists|i: int|
            0 <= i < front.len() && lies_in(#[trigger] front[i], root, path) && front[i].id == x {
            let i = choose|i: int|
                0 <= i < front.len() && lies_in(#[trigger] front[i], root, path) && front[i].id
                    == x;
            assert(ts[i] == front[i]);
        }
        if exists|i: int|
            0 <= i < ts.len() && lies_in(#[trigger] ts[i], root, path) && ts[i].id == x {
            let i = choose|i: int|
                0 <= i < ts.len() && lies_in(#[trigger] ts[i], root, path) && ts[i].id == x;
            if i < front.len() {
                assert(front[i] == ts[i]);
            }
        }
        if lies_in(t, root, path) && t.id == x {
            assert(ts[ts.len() - 1] == t);
        }
    }
}

/// The tree has a folder for each music folder, labelled and in the order of the configuration,
/// and in each the folders list just those tracks that lie directly in them.
pub proof fn law_tree_lists_tracks_by_folder(
    ts: Seq<TrackInfo>,
    labels: Seq<Seq<char>>,
    r: int,
    path: Seq<Seq<char>>,
    id: Seq<char>,
)
    requires
        0 <= r < labels.len() <= usize::MAX,
    ensures
        tree_of(ts, labels).children.len() == labels.len(),
        tree_of(ts, labels).children[r].name == labels[r],
        lists(tree_of(ts, labels).children[r], path, id) <==> exists|i: int|
            0 <= i < ts.len() && lies_in(#[trigger] ts[i], r as usize, path) && ts[i].id == id,
{
    let root = r as usize;
    let n = empty_folder(labels[r]);
    lemma_filled_lists(n, ts, root, path, id);
    lemma_empty_lists_nothing(labels[r], path, id);
    lemma_tidied_lists(filled(n, ts, root), path, id);
    lemma_filled_name(n, ts, root);
}

proof fn lemma_filled_name(n: TreeInfo, ts: Seq<TrackInfo>, root: usize)
    ensures
        filled(n, ts, root).name == n.name,
    decreases ts.len(),
{
    if ts.len() > 0 {
        lemma_filled_name(n, ts.drop_last(), root);
    }
}

/// Whether the folders in a folder come in the order of their names and the tracks in that of
/// their ids, and so on in each of the folders in it.
pub open spec fn is_tidy(n: TreeInfo) -> bool
    decreases n,
{
    &&& forall|i: int, j: int|
        0 <= i < j < n.children.len() ==> !text_lt(
            (#[trigger] n.children[j]).name,
            (#[trigger] n.children[i]).name,
        )
    &&& forall|i: int, j: int|
        0 <= i < j < n.track_ids.len() ==> !text_lt(
            #[trigger] n.track_ids[j],
            #[trigger] n.track_ids[i],
        )
    &&& forall|i: int| 0 <= i < n.children.len() ==> is_tidy(#[trigger] n.children[i])
}

/// A sorted folder is in order at every depth.
pub proof fn law_sorting_orders_every_depth(n: TreeInfo)
    ensures
        is_tidy(tidied(n)),
    decreases n,
{
    let t = tidied(n);
    let kids = all_tidied(n.children);
    lemma_by_name();
    lemma_by_text();
    lemma_all_tidied(n.children);
    let order = lemma_sort_rearranges(kids, by_name());
    let places = lemma_sort_rearranges(n.track_ids, by_text());
    assert forall|i: int, j: int| 0 <= i < j < t.children.len() implies !text_lt(
        (#[trigger] t.children[j]).name,
        (#[trigger] t.children[i]).name,
    ) by {
        lemma_sort_ascends(kids, by_name(), i, j);
    }
    assert forall|i: int, j: int| 0 <= i < j < t.track_ids.len() implies !text_lt(
        #[trigger] t.track_ids[j],
        #[trigger] t.track_ids[i],
    ) by {
        lemma_sort_ascends(n.track_ids, by_text(), i, j);
    }
    assert forall|i: int| 0 <= i < t.children.len() implies is_tidy(#[trigger] t.children[i]) by {
        let k = order[i];
        assert(kids[k] == tidied(n.children[k]));
        law_sorting_orders_every_depth(n.children[k]);
    }
}

/// Sorting a folder loses nothing and adds nothing: its tracks are those that it had and its
/// folders are those that it had, each sorted in turn, in another order.
pub proof fn law_sorting_only_rearranges(n: TreeInfo)
    ensures
        tidied(n).name == n.name,
        is_rearrangement(tidied(n).track_ids, n.track_ids),
        is_rearrangement(
            tidied(n).children,
            Seq::new(n.children.len(), |i: int| tidied(n.children[i])),
        ),
{
    let kids = all_tidied(n.children);
    lemma_by_name();
    lemma_by_text();
    lemma_all_tidied(n.children);
    let order = lemma_sort_rearranges(kids, by_name());
    let places = lemma_sort_rearranges(n.track_ids, by_text());
    assert(kids =~= Seq::new(n.children.len(), |i: int| tidied(n.children[i])));
}

/// A folder that is in order at every depth stays as it is.
pub proof fn law_sorting_keeps_what_is_sorted(n: TreeInfo)
    requires
        is_tidy(n),
    ensures
        tidied(n) == n,
    decreases n,
{
    let kids = all_tidied(n.children);
    lemma_by_name();
    lemma_by_text();
    lemma_all_tidied(n.children);
    assert forall|i: int| 0 <= i < n.children.len() implies #[trigger] kids[i]
        == n.children[i] by {
        law_sorting_keeps_what_is_sorted(n.children[i]);
    }
    assert(kids =~= n.children);
    lemma_sort_of_sorted(n.children, by_name());
    lemma_sort_of_sorted(n.track_ids, by_text());
}

/// Sorting a folder twice gives what sorting it once gives.
pub proof fn law_sorting_twice_is_sorting_once(n: TreeInfo)
    ensures
        tidied(tidied(n)) == tidied(n),
{
    law_sorting_orders_every_depth(n);
    law_sorting_keeps_what_is_sorted(tidied(n));
}

/// The parts of a path are what stands between its slashes, empty ones left out: behind a folder
/// and a slash a name is one part more.
pub proof fn law_parts_of_a_path(dir: Seq<char>, name: Seq<char>)
    requires
        name.len() > 0,
        !name.contains('/'),
    ensures
        path_parts(name) == seq![name],
        path_parts(dir + seq!['/'] + name) == path_parts(dir).push(name),
        path_parts(dir + seq!['/']) == path_parts(dir),
        path_parts(Seq::empty()).len() == 0,
{
    reveal(Seq::filter);
    let p = |x: Seq<char>| x.len() > 0;
    lemma_split_push(dir, name, '/');
    let all = split(dir + seq!['/'] + name, '/');
    assert(all.drop_last() =~= split(dir, '/'));
    assert(all.last() == name);
    lemma_find_props(name, '/');
    if find(name, '/') < name.len() {
        assert(name.contains(name[find(name, '/')]));
    }
    let one = split(name, '/');
    assert(one =~= seq![name]);
    assert(one.drop_last() =~= Seq::<Seq<char>>::empty());
    assert(one.drop_last().filter(p) =~= Seq::<Seq<char>>::empty());
    assert(path_parts(name) =~= seq![name]);
    let none = Seq::<char>::empty();
    lemma_split_push(dir, none, '/');
    assert(dir + seq!['/'] + none =~= dir + seq!['/']);
    let ended = split(dir + seq!['/'], '/');
    assert(ended.drop_last() =~= split(dir, '/'));
    assert(ended.last() == none);
    assert(split(none, '/') =~= seq![none]);
    assert(split(none, '/').drop_last() =~= Seq::<Seq<char>>::empty());
    assert(split(none, '/').last() == none);
    assert(path_parts(none) =~= Seq::<Seq<char>>::empty());
}

/// The tree is called `root`, has no tracks of its own, and has one branch for each music folder,
/// in their order.
pub proof fn law_root_of_the_tree(ts: Seq<TrackInfo>, labels: Seq<Seq<char>>, i: int)
    requires
        0 <= i < labels.len() <= usize::MAX,
    ensures
        tree_of(ts, labels).name == "root"@,
        tree_of(ts, labels).track_ids.len() == 0,
        tree_of(ts, labels).children.len() == labels.len(),
        tree_of(ts, labels).children[i].name == labels[i],
        is_tidy(tree_of(ts, labels).children[i]),
{
    let n = empty_folder(labels[i]);
    lemma_filled_name(n, ts, i as usize);
    law_sorting_orders_every_depth(filled(n, ts, i as usize));
}

/// Whether the folders in a folder all have different names and no track is in it twice, and so on
/// in each of the folders in it.
pub open spec fn has_all_once(n: TreeInfo) -> bool
    decreases n,
{
    &&& forall|i: int, j: int|
        0 <= i < j < n.children.len() ==> (#[trigger] n.children[i]).name != (
        #[trigger] n.children[j]).name
    &&& n.track_ids.no_duplicates()
    &&& forall|i: int| 0 <= i < n.children.len() ==> has_all_once(#[trigger] n.children[i])
}

proof fn lemma_inserted_once(n: TreeInfo, parts: Seq<Seq<char>>, id: Seq<char>)
    requires
        has_all_once(n),
        parts.len() > 0,
        !lists(n, parts.drop_last(), id),
    ensures
        has_all_once(inserted(n, parts, id)),
    decreases parts.len(),
{
    let m = inserted(n, parts, id);
    if parts.len() <= 1 {
        assert(parts.drop_last().len() == 0);
        assert(!n.track_ids.contains(id));
        let ids = n.track_ids.push(id);
        assert forall|i: int, j: int| 0 <= i < ids.len() && 0 <= j < ids.len() && i != j implies
            ids[i] != ids[j] by {
            if i < n.track_ids.len() {
                assert(n.track_ids.contains(n.track_ids[i]));
            }
            if j < n.track_ids.len() {
                assert(n.track_ids.contains(n.track_ids[j]));
            }
        }
        assert(m.track_ids == ids);
        assert(m.children == n.children);
        assert(has_all_once(m));
    } else {
        let rest = parts.skip(1);
        let p = called(parts[0]);
        lemma_first_where_props(n.children, p);
        let i = first_where(n.children, p);
        let below = parts.drop_last().skip(1);
        assert(below =~= rest.drop_last());
        assert(parts.drop_last()[0] == parts[0]);
        if i < n.children.len() {
            let c = n.children[i];
            assert(p(c));
            assert(has_all_once(c));
            if lists(c, below, id) {
                assert(lists(n, parts.drop_last(), id));
            }
            lemma_inserted_once(c, rest, id);
            let d = inserted(c, rest, id);
            lemma_inserted_name(c, rest, id);
            assert(m.children == n.children.update(i, d));
            assert forall|a: int, b: int| 0 <= a < b < m.children.len() implies (
            #[trigger] m.children[a]).name != (#[trigger] m.children[b]).name by {
                assert(n.children[a].name != n.children[b].name);
            }
            assert forall|a: int| 0 <= a < m.children.len() implies has_all_once(
                #[trigger] m.children[a],
            ) by {
                if a != i {
                    assert(m.children[a] == n.children[a]);
                }
            }
        } else {
            let c = empty_folder(parts[0]);
            lemma_empty_lists_nothing(parts[0], below, id);
            assert(has_all_once(c));
            lemma_inserted_once(c, rest, id);
            let d = inserted(c, rest, id);
            lemma_inserted_name(c, rest, id);
            assert(m.children == n.children.push(d));
            assert forall|a: int, b: int| 0 <= a < b < m.children.len() implies (
            #[trigger] m.children[a]).name != (#[trigger] m.children[b]).name by {
                if b < n.children.len() {
                    assert(n.children[a].name != n.children[b].name);
                } else {
                    assert(!p(n.children[a]));
                }
            }
            assert forall|a: int| 0 <= a < m.children.len() implies has_all_once(
                #[trigger] m.children[a],
            ) by {
                if a < n.children.len() {
                    assert(m.children[a] == n.children[a]);
                }
            }
        }
    }
}

proof fn lemma_inserted_name(n: TreeInfo, parts: Seq<Seq<char>>, id: Seq<char>)
    ensures
        inserted(n, parts, id).name == n.name,
{
}

proof fn lemma_tidied_once(n: TreeInfo)
    requires
        has_all_once(n),
    ensures
        has_all_once(tidied(n)),
    decreases n,
{
    let t = tidied(n);
    let kids = all_tidied(n.children);
    lemma_by_name();
    lemma_by_text();
    lemma_all_tidied(n.children);
    let order = lemma_sort_rearranges(kids, by_name());
    let places = lemma_sort_rearranges(n.track_ids, by_text());
    assert forall|i: int, j: int| 0 <= i < j < t.children.len() implies (
    #[trigger] t.children[i]).name != (#[trigger] t.children[j]).name by {
        let a = order[i];
        let b = order[j];
        assert(a != b);
        assert(kids[a] == tidied(n.children[a]) && kids[b] == tidied(n.children[b]));
        if a < b {
            assert(n.children[a].name != n.children[b].name);
        } else {
            assert(n.children[b].name != n.children[a].name);
        }
    }
    assert forall|i: int, j: int|
        0 <= i < t.track_ids.len() && 0 <= j < t.track_ids.len() && i != j implies t.track_ids[i]
        != t.track_ids[j] by {
        assert(places[i] != places[j]);
        assert(n.track_ids[places[i]] != n.track_ids[places[j]]);
    }
    assert forall|i: int| 0 <= i < t.children.len() implies has_all_once(
        #[trigger] t.children[i],
    ) by {
        let k = order[i];
        assert(kids[k] == tidied(n.children[k]));
        assert(has_all_once(n.children[k]));
        lemma_tidied_once(n.children[k]);
    }
}

proof fn lemma_filled_once(n: TreeInfo, ts: Seq<TrackInfo>, root: usize)
    requires
        has_all_once(n),
        distinct_ids(ts),
        forall|path: Seq<Seq<char>>, i: int|
            0 <= i < ts.len() ==> !#[trigger] lists(n, path, (#[trigger] ts[i]).id),
    ensures
        has_all_once(filled(n, ts, root)),
    decreases ts.len(),
{
    if ts.len() > 0 {
        let front = ts.drop_last();
        let last = ts.last();
        let before = filled(n, front, root);
        let parts = path_parts(last.relative_path);
        assert(distinct_ids(front)) by {
            assert forall|i: int, j: int| 0 <= i < j < front.len() implies (
            #[trigger] front[i]).id != (#[trigger] front[j]).id by {
                assert(ts[i].id != ts[j].id);
            }
        }
        assert forall|path: Seq<Seq<char>>, i: int| 0 <= i < front.len() implies !#[trigger] lists(
            n,
            path,
            (#[trigger] front[i]).id,
        ) by {
            assert(front[i] == ts[i]);
            assert(!lists(n, path, ts[i].id));
        }
        lemma_filled_once(n, front, root);
        if last.root == root && parts.len() > 0 {
            let path = parts.drop_last();
            lemma_filled_lists(n, front, root, path, last.id);
            if lists(before, path, last.id) {
                assert(!lists(n, path, ts[ts.len() - 1].id));
                let i = choose|i: int|
                    0 <= i < front.len() && lies_in(#[trigger] front[i], root, path) && front[i].id
                        == last.id;
                assert(ts[i].id != ts[ts.len() - 1].id);
            }
            lemma_inserted_once(before, parts, last.id);
        }
    }
}

/// In the tree no folder stands twice beside another of its name and no track twice in its folder.
pub proof fn law_tree_has_all_once(ts: Seq<TrackInfo>, labels: Seq<Seq<char>>, i: int)
    requires
        distinct_ids(ts),
        0 <= i < labels.len(),
    ensures
        has_all_once(tree_of(ts, labels).children[i]),
{
    let n = empty_folder(labels[i]);
    assert forall|path: Seq<Seq<char>>, k: int| 0 <= k < ts.len() implies !#[trigger] lists(
        n,
        path,
        (#[trigger] ts[k]).id,
    ) by {
        lemma_empty_lists_nothing(labels[i], path, ts[k].id);
    }
    lemma_filled_once(n, ts, i as usize);
    lemma_tidied_once(filled(n, ts, i as usize));
}

} // verus!
