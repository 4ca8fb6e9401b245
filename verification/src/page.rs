//! Searching a list and cutting pages out of it.
use crate::text::{
    ascii_lower, ascii_lowered, contains_text, is_ascii_text, is_blank, is_space,
    law_holding_a_text, lowercase, lowered, text_contains, text_is_blank,
};
use vstd::prelude::*;

verus! {

/// A part of a list: from an offset on, so many items at most.
pub open spec fn paged<A>(s: Seq<A>, offset: Option<usize>, limit: Option<usize>) -> Seq<A> {
    let skipped = match offset {
        Some(n) => if n < s.len() {
            n as int
        } else {
            s.len() as int
        },
        None => 0,
    };
    let end = match limit {
        Some(n) => if skipped + n < s.len() {
            skipped + n
        } else {
            s.len() as int
        },
        None => s.len() as int,
    };
    s.subrange(skipped, end)
}

/// A part of a list: from an offset on, so many items at most.
pub fn take_page<T>(items: Vec<T>, offset: Option<usize>, limit: Option<usize>) -> (r: Vec<T>)
    ensures
        r@ == paged(items@, offset, limit),
{
    let mut items = items;
    let ghost all = items@;
    let total = items.len();
    let skipped = match offset {
        Some(n) => if n < total {
            n
        } else {
            total
        },
        None => 0,
    };
    let end = match limit {
        Some(n) => if n < total - skipped {
            skipped + n
        } else {
            total
        },
        None => total,
    };
    items.truncate(end);
    let r = items.split_off(skipped);
    assert(r@ =~= all.subrange(skipped as int, end as int));
    r
}

/// The most items that one page may hold.
pub const MAX_PAGE_LIMIT: usize = 2000;

/// How many items a page may hold: so many as are asked for, but never more than the cap.
pub open spec fn page_limit(limit: Option<usize>) -> usize {
    match limit {
        Some(n) => if n < MAX_PAGE_LIMIT {
            n
        } else {
            MAX_PAGE_LIMIT
        },
        None => MAX_PAGE_LIMIT,
    }
}

/// How many items a page may hold.
pub fn cap_limit(limit: Option<usize>) -> (r: usize)
    ensures
        r == page_limit(limit),
{
    match limit {
        Some(n) => if n < MAX_PAGE_LIMIT {
            n
        } else {
            MAX_PAGE_LIMIT
        },
        None => MAX_PAGE_LIMIT,
    }
}

/// The items of a list that a test holds of. The views of the items tell what it tests.
pub(crate) fn keep_where<T, V, F: Fn(&T) -> bool>(
    items: Vec<T>,
    keep: &F,
    Ghost(view): Ghost<spec_fn(T) -> V>,
    Ghost(p): Ghost<spec_fn(V) -> bool>,
) -> (r: Vec<T>)
    requires
        forall|x: &T| call_requires(*keep, (x,)),
        forall|x: &T, b: bool| call_ensures(*keep, (x,), b) ==> b == p(view(*x)),
    ensures
        r@.map_values(view) == items@.map_values(view).filter(p),
{
    let ghost all = items@.map_values(view);
    let mut r: Vec<T> = Vec::new();
    assert(r@.map_values(view) =~= all.take(0).filter(p)) by {
        reveal(Seq::filter);
    }
    for x in it: items
        invariant
            all == it.seq().map_values(view),
            forall|x: &T| call_requires(*keep, (x,)),
            forall|x: &T, b: bool| call_ensures(*keep, (x,), b) ==> b == p(view(*x)),
            r@.map_values(view) == all.take(it.index() as int).filter(p),
    {
        let ghost i = it.index() as int;
        let ghost before = r@.map_values(view);
        proof {
            reveal(Seq::filter);
            assert(all.take(i + 1).drop_last() =~= all.take(i));
            assert(all.take(i + 1).last() == view(x));
        }
        if keep(&x) {
            let ghost v = view(x);
            r.push(x);
            assert(r@.map_values(view) =~= before.push(v));
        }
    }
    assert(all.take(all.len() as int) =~= all);
    r
}

/// What is searched for: a text that is not blank, in lower case.
pub open spec fn needle_of(q: Option<Seq<char>>) -> Option<Seq<char>> {
    match q {
        Some(s) => if is_blank(s) {
            None
        } else {
            Some(lowered(s))
        },
        None => None,
    }
}

/// An optional text as a plain value.
pub open spec fn opt_str(q: Option<&str>) -> Option<Seq<char>> {
    match q {
        Some(s) => Some(s@),
        None => None,
    }
}

/// What is searched for: a text that is not blank, in lower case.
pub fn search_needle(q: Option<&str>) -> (r: Option<String>)
    ensures
        match r {
            Some(n) => needle_of(opt_str(q)) == Some(n@),
            None => needle_of(opt_str(q)) is None,
        },
{
    match q {
        Some(s) => if text_is_blank(s) {
            None
        } else {
            Some(lowercase(s))
        },
        None => None,
    }
}

/// Whether a text holds what is searched for, whatever the case of its letters.
pub open spec fn holds_needle(s: Seq<char>, needle: Seq<char>) -> bool {
    contains_text(lowered(s), needle)
}

/// Whether a text holds what is searched for, whatever the case of its letters.
pub fn text_holds_needle(s: &str, needle: &str) -> (r: bool)
    ensures
        r == holds_needle(s@, needle@),
{
    text_contains(lowercase(s).as_str(), needle)
}

/// Two pages that follow each other are together the page of both lengths, so that a list can be
/// read page by page.
pub proof fn law_pages_follow_each_other<A>(s: Seq<A>, offset: usize, first: usize, second: usize)
    requires
        offset + first + second <= usize::MAX,
    ensures
        paged(s, Some(offset), Some(first)) + paged(
            s,
            Some((offset + first) as usize),
            Some(second),
        ) == paged(s, Some(offset), Some((first + second) as usize)),
{
    assert(paged(s, Some(offset), Some(first)) + paged(
        s,
        Some((offset + first) as usize),
        Some(second),
    ) =~= paged(s, Some(offset), Some((first + second) as usize)));
}

/// No page holds more items than the cap, whatever is asked for.
pub proof fn law_pages_are_capped<A>(s: Seq<A>, offset: Option<usize>, limit: Option<usize>)
    ensures
        paged(s, offset, Some(page_limit(limit))).len() <= MAX_PAGE_LIMIT,
        limit matches Some(n) ==> paged(s, offset, Some(page_limit(limit))).len() <= n,
{
}

/// A search in ASCII text disregards the case of letters, in what is searched for and in what is
/// searched.
pub proof fn law_search_disregards_case(q: Seq<char>, s: Seq<char>, needle: Seq<char>)
    ensures
        is_ascii_text(q) ==> needle_of(Some(ascii_lowered(q))) == needle_of(Some(q)),
        is_ascii_text(s) ==> holds_needle(ascii_lowered(s), needle) == holds_needle(s, needle),
{
    lemma_lowered_twice(q);
    lemma_lowered_twice(s);
    let small = ascii_lowered(q);
    if is_ascii_text(q) {
        assert forall|i: int| 0 <= i < q.len() implies is_space(#[trigger] small[i]) == is_space(
            q[i],
        ) by {
            assert(small[i] == ascii_lower(q[i]));
        }
        if is_blank(small) {
            assert forall|i: int| 0 <= i < q.len() implies is_space(#[trigger] q[i]) by {
                assert(is_space(small[i]));
            }
        }
        if is_blank(q) {
            assert(is_blank(small));
        }
    }
}

proof fn lemma_lowered_twice(s: Seq<char>)
    ensures
        is_ascii_text(s) ==> lowered(ascii_lowered(s)) == lowered(s),
{
    let small = ascii_lowered(s);
    if is_ascii_text(s) {
        assert forall|i: int| 0 <= i < small.len() implies #[trigger] small[i] <= '\x7f' by {
            assert(s[i] <= '\x7f');
        }
        assert(ascii_lowered(small) =~= small);
    }
}

/// A page begins with the item at its offset and goes on without a gap, until it has so many items
/// as are asked for or the list ends. Without an offset it begins with the first item, and without
/// a limit it goes on to the last.
pub proof fn law_items_of_a_page<A>(s: Seq<A>, offset: usize, limit: usize)
    ensures
        paged(s, Some(offset), Some(limit)).len() == if offset >= s.len() {
            0
        } else if s.len() - offset < limit {
            s.len() - offset
        } else {
            limit as int
        },
        forall|k: int|
            0 <= k < paged(s, Some(offset), Some(limit)).len() ==> #[trigger] paged(
                s,
                Some(offset),
                Some(limit),
            )[k] == s[offset + k],
        paged(s, None, Some(limit)) == paged(s, Some(0), Some(limit)),
        paged(s, Some(offset), None) == if offset >= s.len() {
            Seq::empty()
        } else {
            s.skip(offset as int)
        },
{
}

/// A page holds as many items as are asked for up to two thousand, and two thousand where more are
/// asked for or no number is given.
pub proof fn law_page_sizes(n: usize)
    ensures
        n <= 2000 ==> page_limit(Some(n)) == n,
        n >= 2000 ==> page_limit(Some(n)) == 2000,
        page_limit(None) == 2000,
{
}

/// Whether a text stands somewhere in another, with something before and after it.
pub open spec fn stands_in(p: Seq<char>, s: Seq<char>) -> bool {
    exists|x: Seq<char>, y: Seq<char>| s == #[trigger] (x + p + y)
}

/// What is searched for is found wherever it stands in a text, at its beginning, its end or in
/// between, both in lower case, and nowhere else. A blank search asks for nothing.
pub proof fn law_searching_looks_everywhere(q: Seq<char>, s: Seq<char>)
    ensures
        !is_blank(q) ==> needle_of(Some(q)) == Some(lowered(q)),
        is_blank(q) ==> needle_of(Some(q)) is None,
        needle_of(None) is None,
        holds_needle(s, lowered(q)) <==> stands_in(lowered(q), lowered(s)),
{
    let n = lowered(q);
    let t = lowered(s);
    law_holding_a_text(t, n, Seq::empty(), Seq::empty());
    if stands_in(n, t) {
        let (x, y) = choose|x: Seq<char>, y: Seq<char>| t == #[trigger] (x + n + y);
        law_holding_a_text(t, n, x, y);
    }
}

} // verus!
