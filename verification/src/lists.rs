//! Searching and thinning out lists.
use crate::text::{same_text, texts};
use vstd::prelude::*;

verus! {

/// Where the first item with a property stands, or the length of the list where none has it.
pub open spec fn first_where<A>(s: Seq<A>, p: spec_fn(A) -> bool) -> int
    decreases s.len(),
{
    if s.len() == 0 || p(s[0]) {
        0
    } else {
        1 + first_where(s.skip(1), p)
    }
}

pub proof fn lemma_first_where<A>(s: Seq<A>, p: spec_fn(A) -> bool, i: int)
    requires
        0 <= i <= s.len(),
        forall|k: int| 0 <= k < i ==> !p(#[trigger] s[k]),
        i < s.len() ==> p(s[i]),
    ensures
        first_where(s, p) == i,
    decreases s.len(),
{
    if i > 0 {
        assert(!p(s[0]));
        let t = s.skip(1);
        assert forall|k: int| 0 <= k < i - 1 implies !p(#[trigger] t[k]) by {
            assert(t[k] == s[k + 1]);
        }
        lemma_first_where(t, p, i - 1);
    }
}

pub proof fn lemma_first_where_props<A>(s: Seq<A>, p: spec_fn(A) -> bool)
    ensures
        0 <= first_where(s, p) <= s.len(),
        first_where(s, p) < s.len() ==> p(s[first_where(s, p)]),
        forall|k: int| 0 <= k < first_where(s, p) ==> !p(#[trigger] s[k]),
    decreases s.len(),
{
    if s.len() > 0 && !p(s[0]) {
        let t = s.skip(1);
        lemma_first_where_props(t, p);
        assert forall|k: int| 0 <= k < first_where(s, p) implies !p(#[trigger] s[k]) by {
            if k > 0 {
                assert(s[k] == t[k - 1]);
            }
        }
    }
}

pub proof fn lemma_filter_from<A>(s: Seq<A>, p: spec_fn(A) -> bool, i: int) -> (k: int)
    requires
        0 <= i < s.filter(p).len(),
    ensures
        0 <= k < s.len(),
        s[k] == s.filter(p)[i],
        p(s[k]),
    decreases s.len(),
{
    reveal(Seq::filter);
    let front = s.drop_last();
    if i < front.filter(p).len() {
        let k = lemma_filter_from(front, p, i);
        assert(s[k] == front[k]);
        k
    } else {
        s.len() - 1
    }
}

/// Two of the items that are kept come from two places, in the same order.
pub proof fn lemma_filter_from_two<A>(
    s: Seq<A>,
    p: spec_fn(A) -> bool,
    i: int,
    j: int,
) -> (places: (int, int))
    requires
        0 <= i < j < s.filter(p).len(),
    ensures
        0 <= places.0 < places.1 < s.len(),
        s[places.0] == s.filter(p)[i],
        s[places.1] == s.filter(p)[j],
    decreases s.len(),
{
    reveal(Seq::filter);
    let front = s.drop_last();
    if j < front.filter(p).len() {
        let (k, l) = lemma_filter_from_two(front, p, i, j);
        assert(front[k] == s[k] && front[l] == s[l]);
        (k, l)
    } else {
        let k = lemma_filter_from(front, p, i);
        assert(front[k] == s[k]);
        (k, s.len() - 1)
    }
}

pub proof fn lemma_filter_all<A>(s: Seq<A>, p: spec_fn(A) -> bool)
    requires
        forall|i: int| 0 <= i < s.len() ==> p(#[trigger] s[i]),
    ensures
        s.filter(p) == s,
    decreases s.len(),
{
    reveal(Seq::filter);
    if s.len() > 0 {
        let front = s.drop_last();
        assert forall|i: int| 0 <= i < front.len() implies p(#[trigger] front[i]) by {
            assert(front[i] == s[i]);
        }
        lemma_filter_all(front, p);
        assert(p(s[s.len() - 1]));
        assert(front.push(s.last()) =~= s);
    }
}

pub proof fn lemma_filter_members<A>(s: Seq<A>, p: spec_fn(A) -> bool, r: A)
    ensures
        s.filter(p).contains(r) <==> s.contains(r) && p(r),
    decreases s.len(),
{
    reveal(Seq::filter);
    if s.filter(p).contains(r) {
        let i = choose|i: int| 0 <= i < s.filter(p).len() && s.filter(p)[i] == r;
        let k = lemma_filter_from(s, p, i);
        assert(s[k] == r);
    }
    if s.contains(r) && p(r) {
        let k = choose|k: int| 0 <= k < s.len() && s[k] == r;
        let front = s.drop_last();
        let f = front.filter(p);
        let t = s.filter(p);
        if k < front.len() {
            assert(front[k] == r);
            lemma_filter_members(front, p, r);
            let i = choose|i: int| 0 <= i < f.len() && f[i] == r;
            assert(t[i] == r);
        } else {
            assert(t == f.push(r));
            assert(t[t.len() - 1] == r);
        }
    }
}

/// Whether a list holds a text.
pub fn holds_text(list: &[String], s: &str) -> (r: bool)
    ensures
        r == texts(list@).contains(s@),
{
    let mut i: usize = 0;
    while i < list.len()
        invariant
            0 <= i <= list.len(),
            forall|k: int| 0 <= k < i ==> #[trigger] texts(list@)[k] != s@,
        decreases list.len() - i,
    {
        if same_text(list[i].as_str(), s) {
            assert(texts(list@)[i as int] == s@);
            return true;
        }
        i += 1;
    }
    false
}

/// Two tests that agree on every item keep the same ones.
pub proof fn lemma_filter_same<A>(s: Seq<A>, p: spec_fn(A) -> bool, q: spec_fn(A) -> bool)
    requires
        forall|i: int| 0 <= i < s.len() ==> p(#[trigger] s[i]) == q(s[i]),
    ensures
        s.filter(p) == s.filter(q),
    decreases s.len(),
{
    reveal(Seq::filter);
    if s.len() > 0 {
        let front = s.drop_last();
        assert forall|i: int| 0 <= i < front.len() implies p(#[trigger] front[i]) == q(
            front[i],
        ) by {
            assert(front[i] == s[i]);
        }
        lemma_filter_same(front, p, q);
        assert(p(s[s.len() - 1]) == q(s[s.len() - 1]));
    }
}

} // verus!
