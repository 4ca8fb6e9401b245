//! Small helpers on paths and titles.
use crate::lists::{lemma_filter_all, lemma_filter_from};
use crate::text::{
    ascii_lower, ascii_lowered, chars_of, is_ascii_text, is_letter_or_digit, lemma_rfind_props,
    lowercase, lowered, rfind, rfind_char,
};
use vstd::prelude::*;
use vstd::string::*;

verus! {

/// The directory part of a relative path: what stands before its last slash, and nothing where
/// there is none.
pub open spec fn parent_of(path: Seq<char>) -> Seq<char> {
    if rfind(path, '/') >= 0 {
        path.take(rfind(path, '/'))
    } else {
        Seq::empty()
    }
}

/// The directory part of a relative path.
pub fn parent_rel(relative_path: &str) -> (r: &str)
    ensures
        r@ == parent_of(relative_path@),
{
    let chars = chars_of(relative_path);
    match rfind_char(chars.as_slice(), '/') {
        Some(i) => relative_path.substring_char(0, i),
        None => {
            proof {
                reveal_strlit("");
            }
            assert(""@ =~= Seq::<char>::empty());
            ""
        },
    }
}

/// The letters and digits of a text, in order.
pub open spec fn alphanumerics(s: Seq<char>) -> Seq<char> {
    s.filter(|c: char| is_letter_or_digit(c))
}

/// The form of a text under which titles and artists are matched: its lower case, without
/// anything that is neither a letter nor a digit.
pub open spec fn match_form(s: Seq<char>) -> Seq<char> {
    alphanumerics(lowered(s))
}

/// The letters and digits of a text that is already in lower case.
pub fn keep_alphanumerics(lowered: &str) -> (r: String)
    ensures
        r@ == alphanumerics(lowered@),
{
    let chars = chars_of(lowered);
    let mut r = String::new();
    let mut i: usize = 0;
    let ghost keep = |c: char| is_letter_or_digit(c);
    assert(chars@.take(0).filter(keep) =~= Seq::empty()) by {
        reveal(Seq::filter);
    }
    while i < chars.len()
        invariant
            0 <= i <= chars.len(),
            keep == (|c: char| is_letter_or_digit(c)),
            r@ == chars@.take(i as int).filter(keep),
        decreases chars.len() - i,
    {
        let c = chars[i];
        proof {
            reveal(Seq::filter);
            assert(chars@.take(i + 1).drop_last() =~= chars@.take(i as int));
        }
        if c.is_alphanumeric() {
            r.push(c);
        }
        i += 1;
    }
    assert(chars@.take(i as int) =~= chars@);
    r
}

/// The form of a text under which titles and artists are matched.
pub fn normalize_for_match(s: &str) -> (r: String)
    ensures
        r@ == match_form(s@),
{
    keep_alphanumerics(lowercase(s).as_str())
}

proof fn lemma_lowered_alphanumerics(s: Seq<char>)
    requires
        is_ascii_text(s),
    ensures
        alphanumerics(ascii_lowered(s)) == ascii_lowered(alphanumerics(s)),
        is_ascii_text(alphanumerics(s)),
    decreases s.len(),
{
    reveal(Seq::filter);
    let p = |c: char| is_letter_or_digit(c);
    if s.len() == 0 {
        assert(alphanumerics(ascii_lowered(s)) =~= ascii_lowered(alphanumerics(s)));
    } else {
        let front = s.drop_last();
        let c = s.last();
        assert(is_ascii_text(front)) by {
            assert forall|i: int| 0 <= i < front.len() implies #[trigger] front[i] <= '\x7f' by {
                assert(front[i] == s[i]);
            }
        }
        lemma_lowered_alphanumerics(front);
        assert(s[s.len() - 1] <= '\x7f');
        assert(ascii_lowered(s).drop_last() =~= ascii_lowered(front));
        assert(ascii_lowered(s).last() == ascii_lower(c));
        assert(p(ascii_lower(c)) == p(c));
        if p(c) {
            assert(ascii_lowered(front.filter(p).push(c)) =~= ascii_lowered(front.filter(p)).push(
                ascii_lower(c),
            ));
        }
    }
}

/// ASCII text is matched by its letters and digits in lower case, whatever its capitals, spaces and
/// punctuation; and the form of a form is that form.
pub proof fn law_ascii_match_form(s: Seq<char>)
    requires
        is_ascii_text(s),
    ensures
        match_form(s) == ascii_lowered(alphanumerics(s)),
        is_ascii_text(match_form(s)),
        match_form(match_form(s)) == match_form(s),
{
    lemma_lowered_alphanumerics(s);
    let a = alphanumerics(s);
    let f = ascii_lowered(a);
    assert(is_ascii_text(f)) by {
        assert forall|i: int| 0 <= i < f.len() implies #[trigger] f[i] <= '\x7f' by {
            assert(a[i] <= '\x7f');
        }
    }
    lemma_lowered_alphanumerics(f);
    assert(ascii_lowered(f) =~= f);
    let p = |c: char| is_letter_or_digit(c);
    assert forall|i: int| 0 <= i < f.len() implies p(#[trigger] f[i]) by {
        let k = lemma_filter_from(s, p, i);
        assert(p(a[i]));
        assert(f[i] == ascii_lower(a[i]));
        assert(a[i] <= '\x7f');
    }
    lemma_filter_all(f, p);
}

/// The folder of a path is what stands before its last slash.
pub proof fn law_folder_of_a_path(dir: Seq<char>, name: Seq<char>)
    requires
        !name.contains('/'),
    ensures
        parent_of(dir + seq!['/'] + name) == dir,
        parent_of(name) == Seq::<char>::empty(),
{
    let path = dir + seq!['/'] + name;
    lemma_rfind_props(path, '/');
    let r = rfind(path, '/');
    assert(path[dir.len() as int] == '/');
    if r > dir.len() {
        assert(path[r] == name[r - dir.len() - 1]);
        assert(name.contains(name[r - dir.len() - 1]));
    }
    assert(path.take(r) =~= dir);
    lemma_rfind_props(name, '/');
    if rfind(name, '/') >= 0 {
        assert(name.contains(name[rfind(name, '/')]));
    }
}

/// In the form under which ASCII texts are matched every letter stands in lower case and every
/// digit as it is, in their order, and nothing else.
pub proof fn law_match_form_of_ascii(s: Seq<char>, c: char)
    requires
        is_ascii_text(s),
        c <= '\x7f',
    ensures
        match_form(Seq::empty()) == Seq::<char>::empty(),
        'a' <= c <= 'z' || '0' <= c <= '9' ==> match_form(s.push(c)) == match_form(s).push(c),
        'A' <= c <= 'Z' ==> match_form(s.push(c)) == match_form(s).push(
            (c as int + 'a' as int - 'A' as int) as char,
        ),
        !('a' <= c <= 'z' || '0' <= c <= '9' || 'A' <= c <= 'Z') ==> match_form(s.push(c))
            == match_form(s),
{
    reveal(Seq::filter);
    let t = s.push(c);
    assert(is_ascii_text(t)) by {
        assert forall|i: int| 0 <= i < t.len() implies #[trigger] t[i] <= '\x7f' by {
            if i < s.len() {
                assert(t[i] == s[i]);
            }
        }
    }
    assert(lowered(t) =~= lowered(s).push(ascii_lower(c)));
    assert(lowered(t).drop_last() =~= lowered(s));
    assert(lowered(Seq::<char>::empty()) =~= Seq::<char>::empty());
}

} // verus!
