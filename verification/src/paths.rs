//! Paths as text: their components, and the parts of a file name.
use crate::text::{
    chars_of, join, join_texts, lemma_find_props, lemma_rfind_props, lemma_split_push, pieces,
    push_chars, rfind, rfind_char, same_chars, split, split_chars, text_of, texts,
};
use vstd::prelude::*;
use vstd::slice::slice_subrange;

verus! {

pub open spec fn is_absolute(path: Seq<char>) -> bool {
    path.len() > 0 && path[0] == '/'
}

/// What a path that does not start at the root begins with: `.` where that is how it begins.
pub open spec fn leading_dot(path: Seq<char>) -> Seq<Seq<char>> {
    if split(path, '/')[0] == seq!['.'] {
        seq![seq!['.']]
    } else {
        Seq::empty()
    }
}

/// Whether a piece between slashes names something: it is neither empty nor a dot.
pub open spec fn names_something(piece: Seq<char>) -> bool {
    piece.len() > 0 && piece != seq!['.']
}

/// The components of a path: the root, written as a slash, or a leading dot, and the pieces
/// between the slashes that are neither empty nor a dot.
pub open spec fn components(path: Seq<char>) -> Seq<Seq<char>> {
    let lead = if is_absolute(path) {
        seq![seq!['/']]
    } else {
        leading_dot(path)
    };
    lead + split(path, '/').filter(|p: Seq<char>| names_something(p))
}

/// The last of some components, where that is the name of a file or a directory.
pub open spec fn last_name(parts: Seq<Seq<char>>) -> Option<Seq<char>> {
    if parts.len() == 0 || parts.last() == seq!['/'] || parts.last() == seq!['.'] || parts.last()
        == seq!['.', '.'] {
        None
    } else {
        Some(parts.last())
    }
}

/// The last component of a path, where that is the name of a file or a directory.
pub open spec fn file_name(path: Seq<char>) -> Option<Seq<char>> {
    last_name(components(path))
}

/// The name of the folder that a path lies in, where it has one.
pub open spec fn folder_name(path: Seq<char>) -> Option<Seq<char>> {
    let parts = components(path);
    if parts.len() == 0 {
        None
    } else {
        last_name(parts.drop_last())
    }
}

/// What follows a directory in a path that lies in it.
pub open spec fn relative_part(path: Seq<char>, dir: Seq<char>) -> Option<Seq<char>> {
    if is_under(path, dir) {
        Some(join(components(path).skip(components(dir).len() as int), seq!['/']))
    } else {
        None
    }
}

/// A file name without its extension. A dot at the start of the name begins no extension.
pub open spec fn stem_of(name: Seq<char>) -> Seq<char> {
    if rfind(name, '.') > 0 {
        name.take(rfind(name, '.'))
    } else {
        name
    }
}

/// What follows the last dot of a file name, unless the name begins with that dot.
pub open spec fn extension_of(name: Seq<char>) -> Option<Seq<char>> {
    if rfind(name, '.') > 0 {
        Some(name.skip(rfind(name, '.') + 1))
    } else {
        None
    }
}

/// A path below a directory; an absolute path stands for itself.
pub open spec fn joined(base: Seq<char>, path: Seq<char>) -> Seq<char> {
    if is_absolute(path) {
        path
    } else if base.len() > 0 && base.last() != '/' {
        base.push('/') + path
    } else {
        base + path
    }
}

/// Whether a path lies in a directory or is that directory.
pub open spec fn is_under(path: Seq<char>, dir: Seq<char>) -> bool {
    components(dir).len() <= components(path).len() && components(path).take(
        components(dir).len() as int,
    ) == components(dir)
}

fn is_dot(p: &[char]) -> (r: bool)
    ensures
        r == (p@ == seq!['.']),
{
    if p.len() == 1 && p[0] == '.' {
        assert(p@ =~= seq!['.']);
        true
    } else {
        assert(p@ == seq!['.'] ==> p@.len() == 1 && p@[0] == '.');
        false
    }
}

/// The components of a path.
pub fn components_of(path: &[char]) -> (r: Vec<&[char]>)
    ensures
        pieces(r@) == components(path@),
{
    let parts = split_chars(path, '/');
    let mut r: Vec<&[char]> = Vec::new();
    let ghost keep = |p: Seq<char>| names_something(p);
    let ghost all = split(path@, '/');
    proof {
        lemma_find_props(path@, '/');
        assert(pieces(parts@).len() == parts@.len());
        assert(all.len() > 0);
        assert(all[0] == pieces(parts@)[0]);
    }
    if path.len() > 0 && path[0] == '/' {
        let root = slice_subrange(path, 0, 1);
        assert(root@ =~= seq!['/']);
        r.push(root);
        assert(pieces(r@) =~= seq![seq!['/']]);
    } else if is_dot(parts[0]) {
        r.push(parts[0]);
        assert(pieces(r@) =~= seq![seq!['.']]);
    }
    let ghost lead = pieces(r@);
    assert(lead == if is_absolute(path@) {
        seq![seq!['/']]
    } else {
        leading_dot(path@)
    });
    let mut i: usize = 0;
    assert(lead + all.take(0).filter(keep) =~= lead) by {
        reveal(Seq::filter);
    }
    while i < parts.len()
        invariant
            0 <= i <= parts.len(),
            keep == (|p: Seq<char>| names_something(p)),
            all == pieces(parts@),
            pieces(r@) == lead + all.take(i as int).filter(keep),
        decreases parts.len() - i,
    {
        let p = parts[i];
        let ghost before = pieces(r@);
        proof {
            reveal(Seq::filter);
            assert(all.take(i + 1).drop_last() =~= all.take(i as int));
            assert(all.take(i + 1).last() == p@);
        }
        if p.len() > 0 && !is_dot(p) {
            r.push(p);
            assert(pieces(r@) =~= before.push(p@));
            assert(before.push(p@) =~= lead + all.take(i as int).filter(keep).push(p@));
        }
        i += 1;
    }
    assert(all.take(i as int) =~= all);
    r
}

fn last_name_of(parts: &[&[char]]) -> (r: Option<String>)
    ensures
        match r {
            Some(n) => last_name(pieces(parts@)) == Some(n@),
            None => last_name(pieces(parts@)) is None,
        },
{
    assert(pieces(parts@).len() == parts@.len());
    if parts.len() == 0 {
        return None;
    }
    let last = parts[parts.len() - 1];
    assert(pieces(parts@).last() == last@);
    if is_dot(last) {
        return None;
    }
    if last.len() == 1 && last[0] == '/' {
        assert(last@ =~= seq!['/']);
        return None;
    }
    if last.len() == 2 && last[0] == '.' && last[1] == '.' {
        assert(last@ =~= seq!['.', '.']);
        return None;
    }
    assert(last@ == seq!['/'] ==> last@.len() == 1 && last@[0] == '/');
    assert(last@ == seq!['.', '.'] ==> last@.len() == 2 && last@[0] == '.' && last@[1] == '.');
    Some(text_of(last))
}

/// The last component of a path, where that is the name of a file or a directory.
pub fn file_name_of(path: &str) -> (r: Option<String>)
    ensures
        match r {
            Some(n) => file_name(path@) == Some(n@),
            None => file_name(path@) is None,
        },
{
    let chars = chars_of(path);
    let parts = components_of(chars.as_slice());
    last_name_of(parts.as_slice())
}

/// The name of the folder that a path lies in, where it has one.
pub fn folder_name_of(path: &str) -> (r: Option<String>)
    ensures
        match r {
            Some(n) => folder_name(path@) == Some(n@),
            None => folder_name(path@) is None,
        },
{
    let chars = chars_of(path);
    let parts = components_of(chars.as_slice());
    if parts.len() == 0 {
        assert(components(path@).len() == parts@.len());
        return None;
    }
    let front = slice_subrange(parts.as_slice(), 0, parts.len() - 1);
    assert(pieces(front@) =~= components(path@).drop_last());
    last_name_of(front)
}

/// What follows a directory in a path that lies in it.
pub fn relative_to(path: &str, dir: &str) -> (r: Option<String>)
    ensures
        match r {
            Some(p) => relative_part(path@, dir@) == Some(p@),
            None => relative_part(path@, dir@) is None,
        },
{
    let pc = chars_of(path);
    let dc = chars_of(dir);
    let pp = components_of(pc.as_slice());
    let dp = components_of(dc.as_slice());
    assert(pieces(pp@).len() == pp@.len() && pieces(dp@).len() == dp@.len());
    assert(pieces(dp@).take(dp@.len() as int) =~= pieces(dp@));
    if dp.len() > pp.len() || !same_prefix(&pp, &dp, dp.len()) {
        return None;
    }
    let mut rest: Vec<String> = Vec::new();
    let mut i = dp.len();
    let ghost want = components(path@).skip(dp@.len() as int);
    while i < pp.len()
        invariant
            dp.len() <= i <= pp.len(),
            pieces(pp@) == components(path@),
            want == components(path@).skip(dp@.len() as int),
            texts(rest@) == want.take(i - dp.len()),
        decreases pp.len() - i,
    {
        let ghost before = texts(rest@);
        rest.push(text_of(pp[i]));
        assert(pieces(pp@)[i as int] == pp@[i as int]@);
        assert(texts(rest@) =~= before.push(pp@[i as int]@));
        i += 1;
        assert(want.take(i - dp.len()) =~= before.push(pp@[i - 1]@));
    }
    assert(want.take(i - dp.len()) =~= want);
    proof {
        reveal_strlit("/");
    }
    assert("/"@ =~= seq!['/']);
    Some(join_texts(rest.as_slice(), "/"))
}

/// A file name without its extension.
pub fn file_stem(name: &str) -> (r: String)
    ensures
        r@ == stem_of(name@),
{
    let chars = chars_of(name);
    match rfind_char(chars.as_slice(), '.') {
        Some(i) if i > 0 => {
            let s = slice_subrange(chars.as_slice(), 0, i);
            assert(s@ =~= name@.take(i as int));
            text_of(s)
        },
        _ => name.to_owned(),
    }
}

/// What follows the last dot of a file name.
pub fn file_extension(name: &str) -> (r: Option<String>)
    ensures
        match r {
            Some(e) => extension_of(name@) == Some(e@),
            None => extension_of(name@) is None,
        },
{
    let chars = chars_of(name);
    match rfind_char(chars.as_slice(), '.') {
        Some(i) if i > 0 => {
            let s = slice_subrange(chars.as_slice(), i + 1, chars.len());
            assert(s@ =~= name@.skip(i + 1));
            Some(text_of(s))
        },
        _ => None,
    }
}

/// A path below a directory.
pub fn join_path(base: &str, path: &str) -> (r: String)
    ensures
        r@ == joined(base@, path@),
{
    let b = chars_of(base);
    let p = chars_of(path);
    if p.len() > 0 && p[0] == '/' {
        return path.to_owned();
    }
    let mut r = base.to_owned();
    if b.len() > 0 && b[b.len() - 1] != '/' {
        r.push('/');
    }
    push_chars(&mut r, p.as_slice());
    r
}

fn same_prefix(a: &Vec<&[char]>, b: &Vec<&[char]>, n: usize) -> (r: bool)
    requires
        n <= a.len(),
        n <= b.len(),
    ensures
        r == (pieces(a@).take(n as int) == pieces(b@).take(n as int)),
{
    let mut i: usize = 0;
    while i < n
        invariant
            0 <= i <= n,
            n <= a.len(),
            n <= b.len(),
            forall|j: int| 0 <= j < i ==> #[trigger] a@[j]@ == b@[j]@,
        decreases n - i,
    {
        if !same_chars(a[i], b[i]) {
            assert(pieces(a@).take(n as int)[i as int] != pieces(b@).take(n as int)[i as int]);
            return false;
        }
        i += 1;
    }
    assert(pieces(a@).take(n as int) =~= pieces(b@).take(n as int));
    true
}

/// Whether two texts are the same path.
pub fn same_path(a: &str, b: &str) -> (r: bool)
    ensures
        r == (components(a@) == components(b@)),
{
    let ac = chars_of(a);
    let bc = chars_of(b);
    let ap = components_of(ac.as_slice());
    let bp = components_of(bc.as_slice());
    assert(pieces(ap@).len() == ap@.len() && pieces(bp@).len() == bp@.len());
    assert(pieces(ap@).take(ap@.len() as int) =~= pieces(ap@));
    assert(pieces(bp@).take(bp@.len() as int) =~= pieces(bp@));
    ap.len() == bp.len() && same_prefix(&ap, &bp, ap.len())
}

/// Whether a path lies in a directory or is that directory.
pub fn path_is_under(path: &str, dir: &str) -> (r: bool)
    ensures
        r == is_under(path@, dir@),
{
    let pc = chars_of(path);
    let dc = chars_of(dir);
    let pp = components_of(pc.as_slice());
    let dp = components_of(dc.as_slice());
    assert(pieces(pp@).len() == pp@.len() && pieces(dp@).len() == dp@.len());
    assert(pieces(dp@).take(dp@.len() as int) =~= pieces(dp@));
    dp.len() <= pp.len() && same_prefix(&pp, &dp, dp.len())
}

/// A path below a folder is the path of the folder, a slash and the path below it; a slash that the
/// folder ends with is not written twice.
pub proof fn law_path_below_a_folder(base: Seq<char>, path: Seq<char>)
    requires
        base.len() > 0,
        path.len() > 0 ==> path[0] != '/',
    ensures
        base.last() != '/' ==> joined(base, path) == base + seq!['/'] + path,
        base.last() == '/' ==> joined(base, path) == base + path,
{
    assert(base.push('/') + path =~= base + seq!['/'] + path);
}

/// A name with a dot within it is its stem, the last dot and its extension; one without has no
/// extension.
pub proof fn law_stem_and_extension(stem: Seq<char>, ext: Seq<char>)
    requires
        stem.len() > 0,
        !ext.contains('.'),
    ensures
        stem_of(stem + seq!['.'] + ext) == stem,
        extension_of(stem + seq!['.'] + ext) == Some(ext),
        stem_of(ext) == ext,
        extension_of(ext) is None,
        stem_of(seq!['.'] + ext) == seq!['.'] + ext,
        extension_of(seq!['.'] + ext) is None,
{
    let name = stem + seq!['.'] + ext;
    lemma_rfind_props(name, '.');
    let r = rfind(name, '.');
    assert(name[stem.len() as int] == '.');
    if r > stem.len() {
        assert(name[r] == ext[r - stem.len() - 1]);
        assert(ext.contains(ext[r - stem.len() - 1]));
    }
    assert(r == stem.len());
    assert(name.take(r) =~= stem);
    assert(name.skip(r + 1) =~= ext);
    lemma_rfind_props(ext, '.');
    if rfind(ext, '.') >= 0 {
        assert(ext.contains(ext[rfind(ext, '.')]));
    }
    let hidden = seq!['.'] + ext;
    lemma_rfind_props(hidden, '.');
    let h = rfind(hidden, '.');
    if h > 0 {
        assert(hidden[h] == ext[h - 1]);
        assert(ext.contains(ext[h - 1]));
    }
}

/// Whether a text can stand between the slashes of a path and name something there.
pub open spec fn is_segment(s: Seq<char>) -> bool {
    s.len() > 0 && !s.contains('/') && s != seq!['.'] && s != seq!['.', '.']
}

/// Behind a folder and a slash, the name of a file is one more component.
proof fn lemma_components_push(dir: Seq<char>, name: Seq<char>)
    requires
        dir.len() > 0,
        is_segment(name),
    ensures
        components(dir + seq!['/'] + name) == components(dir).push(name),
{
    let whole = dir + seq!['/'] + name;
    lemma_split_push(dir, name, '/');
    let before = split(dir, '/');
    let after = split(whole, '/');
    assert(after == before.push(name));
    assert(whole[0] == dir[0]);
    lemma_find_props(dir, '/');
    assert(before.len() > 0);
    assert(after[0] == before[0]);
    let p = |x: Seq<char>| names_something(x);
    reveal(Seq::filter);
    assert(after.drop_last() =~= before);
    assert(after.last() == name);
    assert(after.filter(p) == before.filter(p).push(name));
    assert(components(whole) =~= components(dir).push(name));
}

/// What stands behind a folder and a slash, and holds none, is the name of a file in that folder:
/// the last component of the path, in the folder of the folder's own name.
pub proof fn law_file_in_a_folder(dir: Seq<char>, folder: Seq<char>, name: Seq<char>)
    requires
        dir.len() > 0,
        is_segment(folder),
        is_segment(name),
    ensures
        file_name(dir + seq!['/'] + name) == Some(name),
        folder_name(dir + seq!['/'] + folder + seq!['/'] + name) == Some(folder),
        is_under(dir + seq!['/'] + name, dir),
        relative_part(dir + seq!['/'] + name, dir) == Some(name),
        relative_part(dir + seq!['/'] + folder + seq!['/'] + name, dir) == Some(
            folder + seq!['/'] + name,
        ),
{
    lemma_components_push(dir, name);
    lemma_components_push(dir, folder);
    let inner = dir + seq!['/'] + folder;
    lemma_components_push(inner, name);
    assert(name != seq!['/']) by {
        if name == seq!['/'] {
            assert(name[0] == '/');
            assert(name.contains('/'));
        }
    }
    assert(folder != seq!['/']) by {
        if folder == seq!['/'] {
            assert(folder[0] == '/');
            assert(folder.contains('/'));
        }
    }
    let c = components(dir);
    let n = c.len() as int;
    let whole = dir + seq!['/'] + name;
    assert(components(whole).take(n) =~= c);
    assert(components(whole).skip(n) =~= seq![name]);
    let deep = inner + seq!['/'] + name;
    assert(components(deep) =~= c.push(folder).push(name));
    assert(components(deep).take(n) =~= c);
    assert(components(deep).skip(n) =~= seq![folder, name]);
    let both = seq![folder, name];
    assert(both.drop_last() =~= seq![folder]);
    assert(join(seq![folder], seq!['/']) == folder);
    assert(join(both, seq!['/']) == folder + seq!['/'] + name);
    assert(c.push(folder).push(name).drop_last() =~= c.push(folder));
}

/// A folder lies in itself, and nothing of one folder lies in another beside it, however alike
/// their names begin.
pub proof fn law_folders_beside_each_other(
    dir: Seq<char>,
    a: Seq<char>,
    b: Seq<char>,
    name: Seq<char>,
)
    requires
        dir.len() > 0,
        is_segment(a),
        is_segment(b),
        is_segment(name),
        a != b,
    ensures
        is_under(dir, dir),
        relative_part(dir, dir) == Some(Seq::<char>::empty()),
        !is_under(dir + seq!['/'] + b + seq!['/'] + name, dir + seq!['/'] + a),
        !is_under(dir, dir + seq!['/'] + a),
{
    let c = components(dir);
    let n = c.len() as int;
    assert(c.take(n) =~= c);
    assert(c.skip(n) =~= Seq::<Seq<char>>::empty());
    lemma_components_push(dir, a);
    lemma_components_push(dir, b);
    lemma_components_push(dir + seq!['/'] + b, name);
    let inside = c.push(b).push(name);
    assert(inside.take(n + 1)[n] == b);
    assert(c.push(a)[n] == a);
}

} // verus!
