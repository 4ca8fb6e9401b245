//! Stable sorting: the one rearrangement of a list that follows an order and keeps the list's own
//! order where that order makes no difference.
use crate::text::{
    chars_before, chars_of, lemma_text_lt_irreflexive, lemma_text_lt_total,
    lemma_text_lt_transitive, text_lt, texts,
};
use vstd::prelude::*;

verus! {

/// Whether `lt` ranks the positions below `n`: nothing ranks both before and after another, and
/// what does not rank before `b`, which does not rank before `c`, does not rank before `c`.
pub open spec fn is_ranking(lt: spec_fn(int, int) -> bool, n: int) -> bool {
    &&& forall|a: int, b: int|
        0 <= a < n && 0 <= b < n && #[trigger] lt(a, b) ==> !lt(b, a)
    &&& forall|a: int, b: int, c: int|
        #![trigger lt(a, b), lt(b, c)]
        0 <= a < n && 0 <= b < n && 0 <= c < n && !lt(a, b) && !lt(b, c) ==> !lt(a, c)
}

/// Whether position `a` goes before position `b`: it ranks before it, or it ranks no later and
/// stands earlier.
pub open spec fn goes_before(lt: spec_fn(int, int) -> bool, a: int, b: int) -> bool {
    lt(a, b) || (!lt(b, a) && a < b)
}

/// Whether each of the listed positions goes before those after it.
pub open spec fn in_order(o: Seq<int>, lt: spec_fn(int, int) -> bool) -> bool {
    forall|p: int, q: int|
        0 <= p < q < o.len() ==> goes_before(lt, #[trigger] o[p], #[trigger] o[q])
}

/// Whether `o` lists the positions from `lo` up to `hi` and no others.
pub open spec fn lists_range(o: Seq<int>, lo: int, hi: int) -> bool {
    &&& o.len() == hi - lo
    &&& forall|p: int| 0 <= p < o.len() ==> lo <= #[trigger] o[p] < hi
    &&& forall|v: int| lo <= v < hi ==> #[trigger] o.contains(v)
}

/// Whether `o` is the stable order of the positions below `n`.
pub open spec fn is_stable_order(o: Seq<int>, n: int, lt: spec_fn(int, int) -> bool) -> bool {
    lists_range(o, 0, n) && in_order(o, lt)
}

/// How the elements of a list compare, as a relation between their positions.
pub open spec fn position_lt<A>(s: Seq<A>, lt: spec_fn(A, A) -> bool) -> spec_fn(int, int) -> bool {
    |i: int, j: int| lt(s[i], s[j])
}

/// The elements of a list at the listed positions.
pub open spec fn at_positions<A>(s: Seq<A>, o: Seq<int>) -> Seq<A> {
    Seq::new(o.len(), |i: int| s[o[i]])
}

/// The stable order of the positions of a list.
pub open spec fn stable_order_of<A>(s: Seq<A>, lt: spec_fn(A, A) -> bool) -> Seq<int> {
    choose|o: Seq<int>| is_stable_order(o, s.len() as int, position_lt(s, lt))
}

/// The list rearranged to follow `lt`, equal elements keeping their order.
pub open spec fn stable_sort<A>(s: Seq<A>, lt: spec_fn(A, A) -> bool) -> Seq<A> {
    at_positions(s, stable_order_of(s, lt))
}

/// Whether `t` has the elements of `s`, each as often as `s` has it, in some order.
pub open spec fn is_rearrangement<A>(t: Seq<A>, s: Seq<A>) -> bool {
    exists|o: Seq<int>| #[trigger] lists_range(o, 0, s.len() as int) && t == at_positions(s, o)
}

/// The positions that a vector of indices lists.
pub open spec fn as_ints(v: Seq<usize>) -> Seq<int> {
    Seq::new(v.len(), |i: int| v[i] as int)
}

proof fn lemma_goes_before_transitive(
    lt: spec_fn(int, int) -> bool,
    n: int,
    a: int,
    b: int,
    c: int,
)
    requires
        is_ranking(lt, n),
        0 <= a < n,
        0 <= b < n,
        0 <= c < n,
        goes_before(lt, a, b),
        goes_before(lt, b, c),
    ensures
        goes_before(lt, a, c),
{
    // Otherwise `c` would rank no later than `a`, and one of the two steps would go backwards.
    if lt(c, a) {
        if !lt(c, b) {
            assert(lt(b, a));
        } else {
            assert(!lt(b, c));
            assert(b < c);
        }
        assert(false);
    }
    if !lt(a, c) {
        if lt(a, b) {
            assert(!lt(b, a));
            if !lt(c, b) {
                assert(!lt(a, c) && !lt(c, b));
                assert(!lt(a, b));
            }
        }
        if lt(b, c) {
            assert(!lt(c, b));
            assert(!lt(b, a) || !lt(a, b));
            if !lt(b, a) {
                assert(!lt(b, a) && !lt(a, c));
                assert(!lt(b, c));
            }
        }
    }
}

proof fn lemma_goes_before_total(lt: spec_fn(int, int) -> bool, n: int, a: int, b: int)
    requires
        is_ranking(lt, n),
        0 <= a < n,
        0 <= b < n,
        a != b,
    ensures
        goes_before(lt, a, b) != goes_before(lt, b, a),
{
    if lt(a, b) {
        assert(!lt(b, a));
    }
}

/// There is only one stable order.
pub proof fn lemma_stable_order_unique(
    x: Seq<int>,
    y: Seq<int>,
    n: int,
    lt: spec_fn(int, int) -> bool,
)
    requires
        is_ranking(lt, n),
        is_stable_order(x, n, lt),
        is_stable_order(y, n, lt),
    ensures
        x == y,
{
    assert forall|k: int| 0 <= k < n implies x[k] == y[k] by {
        lemma_same_at(x, y, n, lt, k);
    }
    assert(x =~= y);
}

proof fn lemma_same_at(x: Seq<int>, y: Seq<int>, n: int, lt: spec_fn(int, int) -> bool, k: int)
    requires
        is_ranking(lt, n),
        is_stable_order(x, n, lt),
        is_stable_order(y, n, lt),
        0 <= k < n,
    ensures
        forall|j: int| 0 <= j <= k ==> x[j] == y[j],
    decreases k,
{
    if k > 0 {
        lemma_same_at(x, y, n, lt, k - 1);
    }
    if x[k] != y[k] {
        assert(y.contains(x[k]) && x.contains(y[k]));
        let m = choose|m: int| 0 <= m < y.len() && y[m] == x[k];
        let l = choose|l: int| 0 <= l < x.len() && x[l] == y[k];
        if m < k {
            assert(x[m] == y[m]);
            assert(goes_before(lt, x[m], x[k]));
            assert(!goes_before(lt, x[k], x[k]));
        }
        if l < k {
            assert(y[l] == x[l]);
            assert(goes_before(lt, y[l], y[k]));
            assert(!goes_before(lt, y[k], y[k]));
        }
        assert(goes_before(lt, y[k], y[m]));
        assert(goes_before(lt, x[k], x[l]));
        lemma_goes_before_total(lt, n, x[k], y[k]);
    }
}

/// A list of positions that is a stable order gives the sorted list.
pub proof fn lemma_stable_sort<A>(s: Seq<A>, lt: spec_fn(A, A) -> bool, o: Seq<int>)
    requires
        is_ranking(position_lt(s, lt), s.len() as int),
        is_stable_order(o, s.len() as int, position_lt(s, lt)),
    ensures
        o == stable_order_of(s, lt),
        at_positions(s, o) == stable_sort(s, lt),
{
    lemma_stable_order_unique(
        o,
        stable_order_of(s, lt),
        s.len() as int,
        position_lt(s, lt),
    );
}

fn merge<F: Fn(usize, usize) -> bool>(
    left: &[usize],
    right: &[usize],
    less: &F,
    Ghost(lt): Ghost<spec_fn(int, int) -> bool>,
    Ghost(n): Ghost<int>,
    Ghost(lo): Ghost<int>,
    Ghost(mid): Ghost<int>,
    Ghost(hi): Ghost<int>,
) -> (r: Vec<usize>)
    requires
        is_ranking(lt, n),
        0 <= lo <= mid <= hi <= n,
        lists_range(as_ints(left@), lo, mid),
        lists_range(as_ints(right@), mid, hi),
        in_order(as_ints(left@), lt),
        in_order(as_ints(right@), lt),
        forall|a: usize, b: usize| a < n && b < n ==> less.requires((a, b)),
        forall|a: usize, b: usize, v: bool|
            a < n && b < n && less.ensures((a, b), v) ==> v == lt(a as int, b as int),
    ensures
        lists_range(as_ints(r@), lo, hi),
        in_order(as_ints(r@), lt),
{
    let mut r: Vec<usize> = Vec::new();
    let mut i: usize = 0;
    let mut j: usize = 0;
    let ghost x = as_ints(left@);
    let ghost y = as_ints(right@);
    while i < left.len() || j < right.len()
        invariant
            0 <= i <= left.len(),
            0 <= j <= right.len(),
            x == as_ints(left@),
            y == as_ints(right@),
            is_ranking(lt, n),
            0 <= lo <= mid <= hi <= n,
            lists_range(x, lo, mid),
            lists_range(y, mid, hi),
            in_order(x, lt),
            in_order(y, lt),
            forall|a: usize, b: usize| a < n && b < n ==> less.requires((a, b)),
            forall|a: usize, b: usize, v: bool|
                a < n && b < n && less.ensures((a, b), v) ==> v == lt(a as int, b as int),
            r.len() == i + j,
            forall|p: int| 0 <= p < r.len() ==> lo <= #[trigger] as_ints(r@)[p] < hi,
            in_order(as_ints(r@), lt),
            forall|p: int, q: int|
                0 <= p < r.len() && i <= q < x.len() ==> goes_before(
                    lt,
                    #[trigger] as_ints(r@)[p],
                    #[trigger] x[q],
                ),
            forall|p: int, q: int|
                0 <= p < r.len() && j <= q < y.len() ==> goes_before(
                    lt,
                    #[trigger] as_ints(r@)[p],
                    #[trigger] y[q],
                ),
            forall|q: int| 0 <= q < i ==> as_ints(r@).contains(#[trigger] x[q]),
            forall|q: int| 0 <= q < j ==> as_ints(r@).contains(#[trigger] y[q]),
        decreases left.len() + right.len() - i - j,
    {
        let ghost before = as_ints(r@);
        let ghost i0 = i as int;
        let ghost j0 = j as int;
        proof {
            if i < left.len() {
                assert(x[i as int] == left@[i as int] as int);
            }
            if j < right.len() {
                assert(y[j as int] == right@[j as int] as int);
            }
        }
        let take_right = if i >= left.len() {
            true
        } else if j >= right.len() {
            false
        } else {
            less(right[j], left[i])
        };
        let next = if take_right {
            right[j]
        } else {
            left[i]
        };
        if take_right {
            j += 1;
        } else {
            i += 1;
        }
        r.push(next);
        proof {
            let o = as_ints(r@);
            assert(o =~= before.push(next as int));
            if take_right {
                assert(next as int == y[j0]);
                assert forall|q: int| i <= q < x.len() implies goes_before(
                    lt,
                    next as int,
                    #[trigger] x[q],
                ) by {
                    assert(goes_before(lt, y[j0], x[i0]));
                    if q > i0 {
                        lemma_goes_before_transitive(lt, n, y[j0], x[i0], x[q]);
                    }
                }
            } else {
                assert(next as int == x[i0]);
                assert forall|q: int| j <= q < y.len() implies goes_before(
                    lt,
                    next as int,
                    #[trigger] y[q],
                ) by {
                    assert(goes_before(lt, x[i0], y[j0]));
                    if q > j0 {
                        lemma_goes_before_transitive(lt, n, x[i0], y[j0], y[q]);
                    }
                }
            }
            assert forall|q: int| 0 <= q < i implies o.contains(#[trigger] x[q]) by {
                if q < i0 {
                    let p = choose|p: int| 0 <= p < before.len() && before[p] == x[q];
                    assert(o[p] == x[q]);
                } else {
                    assert(o[before.len() as int] == x[q]);
                }
            }
            assert forall|q: int| 0 <= q < j implies o.contains(#[trigger] y[q]) by {
                if q < j0 {
                    let p = choose|p: int| 0 <= p < before.len() && before[p] == y[q];
                    assert(o[p] == y[q]);
                } else {
                    assert(o[before.len() as int] == y[q]);
                }
            }
        }
    }
    proof {
        let o = as_ints(r@);
        assert forall|v: int| lo <= v < hi implies #[trigger] o.contains(v) by {
            if v < mid {
                assert(x.contains(v));
                let q = choose|q: int| 0 <= q < x.len() && x[q] == v;
                assert(o.contains(x[q]));
            } else {
                assert(y.contains(v));
                let q = choose|q: int| 0 <= q < y.len() && y[q] == v;
                assert(o.contains(y[q]));
            }
        }
    }
    r
}

fn order_range<F: Fn(usize, usize) -> bool>(
    lo: usize,
    hi: usize,
    less: &F,
    Ghost(lt): Ghost<spec_fn(int, int) -> bool>,
    Ghost(n): Ghost<int>,
) -> (r: Vec<usize>)
    requires
        is_ranking(lt, n),
        lo <= hi <= n,
        forall|a: usize, b: usize| a < n && b < n ==> less.requires((a, b)),
        forall|a: usize, b: usize, v: bool|
            a < n && b < n && less.ensures((a, b), v) ==> v == lt(a as int, b as int),
    ensures
        lists_range(as_ints(r@), lo as int, hi as int),
        in_order(as_ints(r@), lt),
    decreases hi - lo,
{
    if hi - lo <= 1 {
        let mut r: Vec<usize> = Vec::new();
        if lo < hi {
            r.push(lo);
            assert(as_ints(r@)[0] == lo);
        }
        return r;
    }
    let mid = lo + (hi - lo) / 2;
    let left = order_range(lo, mid, less, Ghost(lt), Ghost(n));
    let right = order_range(mid, hi, less, Ghost(lt), Ghost(n));
    merge(
        left.as_slice(),
        right.as_slice(),
        less,
        Ghost(lt),
        Ghost(n),
        Ghost(lo as int),
        Ghost(mid as int),
        Ghost(hi as int),
    )
}

/// The stable order of the positions below `n` under the comparison `less`.
pub fn stable_order<F: Fn(usize, usize) -> bool>(
    n: usize,
    less: &F,
    Ghost(lt): Ghost<spec_fn(int, int) -> bool>,
) -> (r: Vec<usize>)
    requires
        is_ranking(lt, n as int),
        forall|a: usize, b: usize| a < n && b < n ==> less.requires((a, b)),
        forall|a: usize, b: usize, v: bool|
            a < n && b < n && less.ensures((a, b), v) ==> v == lt(a as int, b as int),
    ensures
        is_stable_order(as_ints(r@), n as int, lt),
        forall|i: int| 0 <= i < r.len() ==> #[trigger] r@[i] < n,
{
    let r = order_range(0, n, less, Ghost(lt), Ghost(n as int));
    assert forall|i: int| 0 <= i < r.len() implies #[trigger] r@[i] < n by {
        assert(as_ints(r@)[i] < n);
    }
    r
}

/// Whether `lt` orders values: nothing comes both before and after another, and what does not
/// come before `b`, which does not come before `c`, does not come before `c`.
pub open spec fn is_order<A>(lt: spec_fn(A, A) -> bool) -> bool {
    &&& forall|a: A, b: A| #[trigger] lt(a, b) ==> !lt(b, a)
    &&& forall|a: A, b: A, c: A|
        #![trigger lt(a, b), lt(b, c)]
        !lt(a, b) && !lt(b, c) ==> !lt(a, c)
}

/// An order of values ranks the positions of any list of them.
pub proof fn lemma_order_ranks<A>(s: Seq<A>, lt: spec_fn(A, A) -> bool)
    requires
        is_order(lt),
    ensures
        is_ranking(position_lt(s, lt), s.len() as int),
{
    let f = position_lt(s, lt);
    assert forall|a: int, b: int|
        0 <= a < s.len() && 0 <= b < s.len() && #[trigger] f(a, b) implies !f(b, a) by {
        assert(lt(s[a], s[b]));
    }
    assert forall|a: int, b: int, c: int|
        #![trigger f(a, b), f(b, c)]
        0 <= a < s.len() && 0 <= b < s.len() && 0 <= c < s.len() && !f(a, b) && !f(
            b,
            c,
        ) implies !f(a, c) by {
        assert(!lt(s[a], s[b]) && !lt(s[b], s[c]));
    }
}

/// What comes no earlier than something that comes no earlier than a third comes no earlier than
/// the third.
pub proof fn lemma_text_not_lt(a: Seq<char>, b: Seq<char>, c: Seq<char>)
    ensures
        text_lt(a, b) ==> !text_lt(b, a),
        !text_lt(a, b) && !text_lt(b, c) ==> !text_lt(a, c),
{
    if text_lt(a, b) && text_lt(b, a) {
        lemma_text_lt_transitive(a, b, a);
        lemma_text_lt_irreflexive(a);
    }
    if !text_lt(a, b) && !text_lt(b, c) && text_lt(a, c) {
        lemma_text_lt_total(a, b);
        lemma_text_lt_total(b, c);
        if a != b {
            lemma_text_lt_transitive(b, a, c);
        }
    }
}

/// The order of texts.
pub open spec fn by_text() -> spec_fn(Seq<char>, Seq<char>) -> bool {
    |a: Seq<char>, b: Seq<char>| text_lt(a, b)
}

/// Texts are ordered.
pub proof fn lemma_by_text()
    ensures
        is_order(by_text()),
{
    let lt = by_text();
    assert forall|a: Seq<char>, b: Seq<char>| #[trigger] lt(a, b) implies !lt(b, a) by {
        lemma_text_not_lt(a, b, a);
    }
    assert forall|a: Seq<char>, b: Seq<char>, c: Seq<char>|
        #![trigger lt(a, b), lt(b, c)]
        !lt(a, b) && !lt(b, c) implies !lt(a, c) by {
        lemma_text_not_lt(a, b, c);
    }
}

/// The texts in their order.
pub fn sort_texts(v: &[String]) -> (r: Vec<String>)
    ensures
        texts(r@) == stable_sort(texts(v@), by_text()),
{
    let mut keys: Vec<Vec<char>> = Vec::new();
    let mut i: usize = 0;
    while i < v.len()
        invariant
            0 <= i <= v.len(),
            keys.len() == i,
            forall|k: int| 0 <= k < i ==> #[trigger] keys@[k]@ == v@[k]@,
        decreases v.len() - i,
    {
        keys.push(chars_of(v[i].as_str()));
        i += 1;
    }
    let n = v.len();
    let ghost s = texts(v@);
    let ghost lt = position_lt(s, by_text());
    let less = |a: usize, b: usize| -> (r: bool)
        requires
            a < n,
            b < n,
        ensures
            r == text_lt(keys@[a as int]@, keys@[b as int]@),
        { chars_before(keys[a].as_slice(), keys[b].as_slice()) };
    proof {
        lemma_by_text();
        lemma_order_ranks(s, by_text());
    }
    let order = stable_order(n, &less, Ghost(lt));
    let mut r: Vec<String> = Vec::new();
    let mut i: usize = 0;
    while i < order.len()
        invariant
            0 <= i <= order.len(),
            order.len() == v.len(),
            forall|k: int| 0 <= k < order.len() ==> #[trigger] order@[k] < v.len(),
            r.len() == i,
            forall|k: int| 0 <= k < i ==> #[trigger] r@[k] == v@[order@[k] as int],
        decreases order.len() - i,
    {
        r.push(v[order[i]].clone());
        i += 1;
    }
    proof {
        lemma_stable_sort(s, by_text(), as_ints(order@));
        assert(texts(r@) =~= at_positions(s, as_ints(order@)));
    }
    r
}

} // verus!
