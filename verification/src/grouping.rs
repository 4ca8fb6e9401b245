//! Grouping the positions of a list by a key.
use crate::lists::{first_where, lemma_first_where_props};
use crate::order::{
    as_ints, at_positions, goes_before, is_order, is_ranking, is_rearrangement, is_stable_order,
    lemma_order_ranks, lemma_stable_sort, lists_range, position_lt, stable_order, stable_order_of,
    stable_sort,
};
use vstd::prelude::*;

verus! {

/// Whether `lt` orders values and of any two different ones puts one first.
pub open spec fn is_total_order<K>(lt: spec_fn(K, K) -> bool) -> bool {
    &&& is_order(lt)
    &&& forall|a: K, b: K| a != b ==> lt(a, b) || #[trigger] lt(b, a)
}

/// Whether each item of a list comes before those after it.
pub open spec fn ascends<K>(s: Seq<K>, lt: spec_fn(K, K) -> bool) -> bool {
    forall|i: int, j: int| 0 <= i < j < s.len() ==> lt(#[trigger] s[i], #[trigger] s[j])
}

/// Whether `ks` lists the different ones among some keys, in their order.
pub open spec fn is_key_list<K>(ks: Seq<K>, keys: Seq<K>, lt: spec_fn(K, K) -> bool) -> bool {
    &&& ascends(ks, lt)
    &&& forall|k: K| #[trigger] ks.contains(k) <==> keys.contains(k)
}

/// The different ones among some keys, in their order.
pub open spec fn sorted_keys<K>(keys: Seq<K>, lt: spec_fn(K, K) -> bool) -> Seq<K> {
    choose|ks: Seq<K>| is_key_list(ks, keys, lt)
}

/// The numbers below `n`, in order.
pub open spec fn numbers_below(n: nat) -> Seq<int> {
    Seq::new(n, |i: int| i)
}

/// The positions at which a key stands, in order.
pub open spec fn positions_of<K>(keys: Seq<K>, k: K) -> Seq<int> {
    numbers_below(keys.len()).filter(|i: int| keys[i] == k)
}

/// There is but one list of the different keys in their order.
pub proof fn lemma_key_list_unique<K>(
    a: Seq<K>,
    b: Seq<K>,
    keys: Seq<K>,
    lt: spec_fn(K, K) -> bool,
)
    requires
        is_total_order(lt),
        is_key_list(a, keys, lt),
        is_key_list(b, keys, lt),
    ensures
        a == b,
{
    lemma_ascending_unique(a, b, lt);
}

/// Two ascending lists with the same members are the same.
pub proof fn lemma_ascending_unique<K>(a: Seq<K>, b: Seq<K>, lt: spec_fn(K, K) -> bool)
    requires
        is_total_order(lt),
        ascends(a, lt),
        ascends(b, lt),
        forall|k: K| #[trigger] a.contains(k) <==> b.contains(k),
    ensures
        a == b,
    decreases a.len(),
{
    if a.len() == 0 {
        if b.len() > 0 {
            assert(b.contains(b[0]));
            assert(a.contains(b[0]));
        }
        assert(a =~= b);
    } else {
        assert(a.contains(a.last()));
        assert(b.contains(a.last()));
        assert(b.len() > 0);
        assert(b.contains(b.last()));
        assert(a.contains(b.last()));
        let i = choose|i: int| 0 <= i < a.len() && a[i] == b.last();
        let j = choose|j: int| 0 <= j < b.len() && b[j] == a.last();
        if a.last() != b.last() {
            assert(i < a.len() - 1 && j < b.len() - 1);
            assert(lt(a[i], a[a.len() - 1]));
            assert(lt(b[j], b[b.len() - 1]));
        }
        let x = a.drop_last();
        let y = b.drop_last();
        assert forall|k: K| #[trigger] x.contains(k) <==> y.contains(k) by {
            if x.contains(k) {
                let p = choose|p: int| 0 <= p < x.len() && x[p] == k;
                assert(a[p] == k);
                assert(a.contains(k));
                assert(lt(a[p], a[a.len() - 1]));
                let q = choose|q: int| 0 <= q < b.len() && b[q] == k;
                assert(q != b.len() - 1);
                assert(y[q] == k);
            }
            if y.contains(k) {
                let q = choose|q: int| 0 <= q < y.len() && y[q] == k;
                assert(b[q] == k);
                assert(b.contains(k));
                assert(lt(b[q], b[b.len() - 1]));
                assert(k != b[b.len() - 1]);
                assert(a.contains(k));
                let p = choose|p: int| 0 <= p < a.len() && a[p] == k;
                assert(p != a.len() - 1);
                assert(x[p] == k);
            }
        }
        assert forall|p: int, q: int| 0 <= p < q < x.len() implies lt(
            #[trigger] x[p],
            #[trigger] x[q],
        ) by {
            assert(x[p] == a[p] && x[q] == a[q]);
        }
        assert forall|p: int, q: int| 0 <= p < q < y.len() implies lt(
            #[trigger] y[p],
            #[trigger] y[q],
        ) by {
            assert(y[p] == b[p] && y[q] == b[q]);
        }
        lemma_ascending_unique(x, y, lt);
        assert(a =~= x.push(a.last()));
        assert(b =~= y.push(b.last()));
    }
}

/// The order of numbers.
pub open spec fn by_number() -> spec_fn(int, int) -> bool {
    |a: int, b: int| a < b
}

proof fn lemma_range_filter(n: nat, p: spec_fn(int) -> bool)
    ensures
        ascends(numbers_below(n).filter(p), by_number()),
        forall|i: int|
            #[trigger] numbers_below(n).filter(p).contains(i) <==> 0 <= i < n && p(i),
    decreases n,
{
    reveal(Seq::filter);
    let r = numbers_below(n);
    let lt = by_number();
    if n > 0 {
        let m = (n - 1) as nat;
        let s = numbers_below(m);
        assert(r.drop_last() =~= s);
        lemma_range_filter(m, p);
        let f = s.filter(p);
        let g = r.filter(p);
        assert forall|i: int, j: int| 0 <= i < j < g.len() implies lt(
            #[trigger] g[i],
            #[trigger] g[j],
        ) by {
            assert(g[i] == f[i]);
            if j < f.len() {
                assert(g[j] == f[j]);
            } else {
                assert(f.contains(f[i]));
            }
        }
        assert forall|i: int| #[trigger] g.contains(i) <==> 0 <= i < n && p(i) by {
            if g.contains(i) {
                let k = choose|k: int| 0 <= k < g.len() && g[k] == i;
                if k < f.len() {
                    assert(f[k] == i);
                    assert(f.contains(i));
                }
            }
            if 0 <= i < n && p(i) {
                if i < m {
                    assert(f.contains(i));
                    let k = choose|k: int| 0 <= k < f.len() && f[k] == i;
                    assert(g[k] == i);
                } else {
                    assert(g == f.push(i));
                    assert(g[g.len() - 1] == i);
                }
            }
        }
    }
}

/// The items with a key.
pub open spec fn having_key<A, K>(key: spec_fn(A) -> K, k: K) -> spec_fn(A) -> bool {
    |x: A| key(x) == k
}

/// The items at the positions of a key are those that the list has left when all others are taken
/// out of it.
pub proof fn lemma_at_positions_of<A, K>(s: Seq<A>, key: spec_fn(A) -> K, k: K)
    ensures
        at_positions(s, positions_of(s.map_values(key), k)) == s.filter(having_key(key, k)),
    decreases s.len(),
{
    reveal(Seq::filter);
    let keys = s.map_values(key);
    let p = |i: int| keys[i] == k;
    let q = having_key(key, k);
    let r = numbers_below(keys.len());
    if s.len() > 0 {
        let t = s.drop_last();
        let tkeys = t.map_values(key);
        let tr = numbers_below(tkeys.len());
        let tp = |i: int| tkeys[i] == k;
        lemma_at_positions_of(t, key, k);
        assert(r.drop_last() =~= tr);
        lemma_filter_same(tr, p, tp);
        lemma_range_filter(tkeys.len(), tp);
        let f = tr.filter(tp);
        assert forall|i: int| 0 <= i < f.len() implies s[#[trigger] f[i]] == t[f[i]] by {
            assert(f.contains(f[i]));
        }
        assert(at_positions(s, f) =~= at_positions(t, f));
        assert(at_positions(s, r.filter(p)) =~= s.filter(q));
    } else {
        assert(r.filter(p) =~= Seq::empty());
        assert(at_positions(s, r.filter(p)) =~= s.filter(q));
    }
}

proof fn lemma_filter_same(s: Seq<int>, p: spec_fn(int) -> bool, q: spec_fn(int) -> bool)
    requires
        forall|i: int| 0 <= i < s.len() ==> p(#[trigger] s[i]) == q(s[i]),
    ensures
        s.filter(p) == s.filter(q),
    decreases s.len(),
{
    reveal(Seq::filter);
    if s.len() > 0 {
        let t = s.drop_last();
        assert forall|i: int| 0 <= i < t.len() implies p(#[trigger] t[i]) == q(t[i]) by {
            assert(t[i] == s[i]);
        }
        lemma_filter_same(t, p, q);
        assert(p(s[s.len() - 1]) == q(s[s.len() - 1]));
    }
}

/// The positions of a list in groups of equal keys, the groups in the order of their keys.
pub fn group_positions<K, F: Fn(usize, usize) -> bool>(
    n: usize,
    less: &F,
    Ghost(keys): Ghost<Seq<K>>,
    Ghost(lt): Ghost<spec_fn(K, K) -> bool>,
) -> (r: Vec<Vec<usize>>)
    requires
        keys.len() == n,
        is_total_order(lt),
        forall|a: usize, b: usize| a < n && b < n ==> less.requires((a, b)),
        forall|a: usize, b: usize, v: bool|
            a < n && b < n && less.ensures((a, b), v) ==> v == lt(keys[a as int], keys[b as int]),
    ensures
        r.len() == sorted_keys(keys, lt).len(),
        forall|g: int|
            0 <= g < r.len() ==> as_ints((#[trigger] r@[g])@) == positions_of(
                keys,
                sorted_keys(keys, lt)[g],
            ),
        forall|g: int|
            0 <= g < r.len() ==> (#[trigger] r@[g]).len() > 0,
        forall|g: int, i: int|
            0 <= g < r.len() && 0 <= i < r@[g].len() ==> (#[trigger] r@[g]@[i]) < n,
        forall|g: int, i: int|
            0 <= g < r.len() && 0 <= i < r@[g].len() ==> keys[(#[trigger] r@[g]@[i]) as int]
                == sorted_keys(keys, lt)[g],
        is_key_list(sorted_keys(keys, lt), keys, lt),
{
    let ghost plt = position_lt(keys, lt);
    proof {
        lemma_order_ranks(keys, lt);
    }
    let order = stable_order(n, less, Ghost(plt));
    let ghost o = as_ints(order@);
    let mut r: Vec<Vec<usize>> = Vec::new();
    let ghost mut ks: Seq<K> = Seq::empty();
    let mut i: usize = 0;
    while i < order.len()
        invariant
            0 <= i <= order.len(),
            keys.len() == n,
            is_total_order(lt),
            plt == position_lt(keys, lt),
            o == as_ints(order@),
            is_stable_order(o, n as int, plt),
            forall|k: int| 0 <= k < order.len() ==> #[trigger] order@[k] < n,
            forall|a: usize, b: usize| a < n && b < n ==> less.requires((a, b)),
            forall|a: usize, b: usize, v: bool|
                a < n && b < n && less.ensures((a, b), v) ==> v == lt(
                    keys[a as int],
                    keys[b as int],
                ),
            r.len() == ks.len(),
            i > 0 ==> r.len() > 0 && keys[o[i - 1]] == ks.last() && r@.last()@.last()
                == order@[i - 1],
            i == 0 ==> r.len() == 0,
            ascends(ks, lt),
            forall|g: int| 0 <= g < r.len() ==> (#[trigger] r@[g]).len() > 0,
            forall|g: int, j: int|
                0 <= g < r.len() && 0 <= j < r@[g].len() ==> (#[trigger] r@[g]@[j]) < n
                    && keys[r@[g]@[j] as int] == ks[g],
            forall|g: int|
                0 <= g < r.len() ==> ascends(as_ints((#[trigger] r@[g])@), by_number()),
            forall|j: int|
                0 <= j < i ==> exists|g: int|
                    0 <= g < r.len() && as_ints((#[trigger] r@[g])@).contains(#[trigger] o[j]),
        decreases order.len() - i,
    {
        let p = order[i];
        assert(o[i as int] == p);
        let ghost before = r@;
        let ghost ks0 = ks;
        if i > 0 && !less(order[i - 1], p) {
            let ghost q = order@[i - 1];
            let last = r.len() - 1;
            proof {
                assert(goes_before(plt, o[i - 1], o[i as int]));
                assert(o[i - 1] == q as int);
                assert(!lt(keys[q as int], keys[p as int]));
                assert(!lt(keys[p as int], keys[q as int]));
                assert(keys[q as int] == keys[p as int]);
                assert(q < p);
            }
            let mut group: Vec<usize> = Vec::new();
            std::mem::swap(&mut group, &mut r[last]);
            let ghost members = group@;
            group.push(p);
            r.set(last, group);
            proof {
                assert(r@[last as int]@ == members.push(p));
                let up = as_ints(members.push(p));
                let old_up = as_ints(members);
                assert(members == before[last as int]@);
                assert forall|a: int, b: int| 0 <= a < b < up.len() implies by_number()(
                    #[trigger] up[a],
                    #[trigger] up[b],
                ) by {
                    assert(up[a] == old_up[a]);
                    if b < old_up.len() {
                        assert(up[b] == old_up[b]);
                    } else if a < old_up.len() - 1 {
                        assert(by_number()(old_up[a], old_up[old_up.len() - 1]));
                    }
                }
                assert forall|j: int| 0 <= j < i + 1 implies exists|g: int|
                    0 <= g < r.len() && as_ints((#[trigger] r@[g])@).contains(
                        #[trigger] o[j],
                    ) by {
                    if j < i {
                        let g = choose|g: int|
                            0 <= g < before.len() && as_ints((#[trigger] before[g])@).contains(
                                o[j],
                            );
                        let was = as_ints(before[g]@);
                        let m = choose|m: int| 0 <= m < was.len() && was[m] == o[j];
                        assert(as_ints(r@[g]@)[m] == o[j]);
                    } else {
                        assert(up[up.len() - 1] == o[j]);
                        assert(as_ints(r@[last as int]@).contains(o[j]));
                    }
                }
            }
        } else {
            let mut group: Vec<usize> = Vec::new();
            group.push(p);
            r.push(group);
            proof {
                ks = ks.push(keys[p as int]);
                if i > 0 {
                    let q = order@[i - 1];
                    assert(lt(keys[q as int], keys[p as int]));
                    assert forall|a: int, b: int| 0 <= a < b < ks.len() implies lt(
                        #[trigger] ks[a],
                        #[trigger] ks[b],
                    ) by {
                        if b == ks0.len() && a < ks0.len() - 1 {
                            assert(lt(ks0[a], ks0[ks0.len() - 1]));
                            lemma_lt_transitive(lt, ks[a], ks0.last(), ks[b]);
                        }
                    }
                }
                assert forall|j: int| 0 <= j < i + 1 implies exists|g: int|
                    0 <= g < r.len() && as_ints((#[trigger] r@[g])@).contains(
                        #[trigger] o[j],
                    ) by {
                    if j < i {
                        let g = choose|g: int|
                            0 <= g < before.len() && as_ints((#[trigger] before[g])@).contains(
                                o[j],
                            );
                        assert(r@[g] == before[g]);
                    } else {
                        let g = r.len() - 1;
                        assert(as_ints(r@[g]@)[0] == o[j]);
                    }
                }
            }
        }
        i += 1;
    }
    proof {
        assert forall|g: int, v: int| 0 <= g < r.len() && 0 <= v < n && keys[v]
            == ks[g] implies #[trigger] as_ints(r@[g]@).contains(v) by {
            assert(o.contains(v));
            let j = choose|j: int| 0 <= j < o.len() && o[j] == v;
            let h = choose|h: int|
                0 <= h < r.len() && as_ints((#[trigger] r@[h])@).contains(o[j]);
            let m = choose|m: int| 0 <= m < as_ints(r@[h]@).len() && as_ints(r@[h]@)[m] == o[j];
            assert(r@[h]@[m] == v);
            assert(keys[v] == ks[h]);
            if h != g {
                assert(lt(ks[if h < g {
                    h
                } else {
                    g
                }], ks[if h < g {
                    g
                } else {
                    h
                }]));
            }
        }
        assert forall|k: K| #[trigger] ks.contains(k) <==> keys.contains(k) by {
            if ks.contains(k) {
                let g = choose|g: int| 0 <= g < ks.len() && ks[g] == k;
                assert(r@[g].len() > 0);
                assert(keys[r@[g]@[0] as int] == k);
            }
            if keys.contains(k) {
                let v = choose|v: int| 0 <= v < keys.len() && keys[v] == k;
                assert(o.contains(v));
                let j = choose|j: int| 0 <= j < o.len() && o[j] == v;
                let h = choose|h: int|
                    0 <= h < r.len() && as_ints((#[trigger] r@[h])@).contains(o[j]);
                let m = choose|m: int|
                    0 <= m < as_ints(r@[h]@).len() && as_ints(r@[h]@)[m] == o[j];
                assert(r@[h]@[m] == v);
                assert(ks[h] == k);
            }
        }
        assert(is_key_list(ks, keys, lt));
        lemma_key_list_unique(ks, sorted_keys(keys, lt), keys, lt);
        assert(is_total_order(by_number()));
        assert forall|g: int| 0 <= g < r.len() implies as_ints((#[trigger] r@[g])@)
            == positions_of(keys, sorted_keys(keys, lt)[g]) by {
            let p = |v: int| keys[v] == ks[g];
            let mine = as_ints(r@[g]@);
            let want = positions_of(keys, ks[g]);
            lemma_range_filter(keys.len(), p);
            assert forall|v: int| #[trigger] mine.contains(v) <==> want.contains(v) by {
                if mine.contains(v) {
                    let m = choose|m: int| 0 <= m < mine.len() && mine[m] == v;
                    assert(r@[g]@[m] == v);
                }
            }
            lemma_ascending_unique(mine, want, by_number());
        }
    }
    r
}

proof fn lemma_lt_transitive<K>(lt: spec_fn(K, K) -> bool, a: K, b: K, c: K)
    requires
        is_total_order(lt),
        lt(a, b),
        lt(b, c),
    ensures
        lt(a, c),
{
    assert(!lt(b, a) && !lt(c, b));
    if !lt(a, c) {
        if a == c {
            assert(lt(b, a));
        } else {
            assert(lt(c, a));
            assert(!lt(a, c) && !lt(c, b));
            assert(!lt(a, b));
        }
    }
}

/// The different ones among some keys can always be listed in their order.
pub proof fn lemma_sorted_keys<K>(keys: Seq<K>, lt: spec_fn(K, K) -> bool)
    requires
        is_total_order(lt),
    ensures
        is_key_list(sorted_keys(keys, lt), keys, lt),
{
    let ks = lemma_key_list_exists(keys, lt);
}

proof fn lemma_key_list_exists<K>(keys: Seq<K>, lt: spec_fn(K, K) -> bool) -> (ks: Seq<K>)
    requires
        is_total_order(lt),
    ensures
        is_key_list(ks, keys, lt),
    decreases keys.len(),
{
    if keys.len() == 0 {
        let ks = Seq::<K>::empty();
        assert forall|k: K| #[trigger] ks.contains(k) <==> keys.contains(k) by {}
        ks
    } else {
        let front = keys.drop_last();
        let x = keys.last();
        let before = lemma_key_list_exists(front, lt);
        let ks = if before.contains(x) {
            before
        } else {
            let p = |y: K| lt(x, y);
            let n = first_where(before, p);
            lemma_first_where_props(before, p);
            let ks = before.insert(n, x);
            assert forall|i: int, j: int| 0 <= i < j < ks.len() implies lt(
                #[trigger] ks[i],
                #[trigger] ks[j],
            ) by {
                if j < n {
                    assert(ks[i] == before[i] && ks[j] == before[j]);
                } else if j == n {
                    assert(ks[i] == before[i]);
                    assert(!p(before[i]));
                    assert(before.contains(before[i]));
                } else {
                    assert(ks[j] == before[j - 1]);
                    if i > n {
                        assert(ks[i] == before[i - 1]);
                    } else if i == n {
                        assert(p(before[n]));
                        if j - 1 > n {
                            assert(lt(before[n], before[j - 1]));
                            lemma_lt_transitive(lt, x, before[n], before[j - 1]);
                        }
                    } else {
                        assert(ks[i] == before[i]);
                    }
                }
            }
            assert forall|k: K| #[trigger] ks.contains(k) <==> before.contains(k) || k == x by {
                if ks.contains(k) {
                    let i = choose|i: int| 0 <= i < ks.len() && ks[i] == k;
                    if i < n {
                        assert(before[i] == k);
                    } else if i > n {
                        assert(before[i - 1] == k);
                    }
                }
                if before.contains(k) {
                    let i = choose|i: int| 0 <= i < before.len() && before[i] == k;
                    if i < n {
                        assert(ks[i] == k);
                    } else {
                        assert(ks[i + 1] == k);
                    }
                }
                assert(ks[n] == x);
            }
            ks
        };
        assert forall|k: K| #[trigger] ks.contains(k) <==> keys.contains(k) by {
            assert(before.contains(k) <==> front.contains(k));
            if keys.contains(k) {
                let i = choose|i: int| 0 <= i < keys.len() && keys[i] == k;
                if i < front.len() {
                    assert(front[i] == k);
                }
            }
            if front.contains(k) {
                let i = choose|i: int| 0 <= i < front.len() && front[i] == k;
                assert(keys[i] == k);
            }
            assert(keys[keys.len() - 1] == x);
        }
        ks
    }
}

/// How many items of a list have one of some keys, counted key by key.
pub open spec fn count_by_keys<A, K>(s: Seq<A>, key: spec_fn(A) -> K, ks: Seq<K>) -> nat
    decreases ks.len(),
{
    if ks.len() == 0 {
        0
    } else {
        count_by_keys(s, key, ks.drop_last()) + s.filter(having_key(key, ks.last())).len()
    }
}

proof fn lemma_count_one_more<A, K>(s: Seq<A>, key: spec_fn(A) -> K, ks: Seq<K>, x: A)
    requires
        ks.no_duplicates(),
    ensures
        count_by_keys(s.push(x), key, ks) == count_by_keys(s, key, ks) + if ks.contains(key(x)) {
            1nat
        } else {
            0nat
        },
    decreases ks.len(),
{
    reveal(Seq::filter);
    if ks.len() > 0 {
        let front = ks.drop_last();
        lemma_count_one_more(s, key, front, x);
        assert(s.push(x).drop_last() =~= s);
        if front.contains(key(x)) {
            let i = choose|i: int| 0 <= i < front.len() && front[i] == key(x);
            assert(ks[i] == key(x));
        }
        if ks.contains(key(x)) {
            let i = choose|i: int| 0 <= i < ks.len() && ks[i] == key(x);
            if i < front.len() {
                assert(front[i] == key(x));
            }
        }
        if ks.last() == key(x) {
            assert(ks[ks.len() - 1] == key(x));
        }
    }
}

/// Counted by all its keys, a list has as many items as it has.
pub proof fn lemma_count_by_all_keys<A, K>(s: Seq<A>, key: spec_fn(A) -> K, ks: Seq<K>)
    requires
        ks.no_duplicates(),
        forall|i: int| 0 <= i < s.len() ==> ks.contains(key(#[trigger] s[i])),
    ensures
        count_by_keys(s, key, ks) == s.len(),
    decreases s.len(),
{
    if s.len() == 0 {
        lemma_count_none(s, key, ks);
    } else {
        let t = s.drop_last();
        assert forall|i: int| 0 <= i < t.len() implies ks.contains(key(#[trigger] t[i])) by {
            assert(t[i] == s[i]);
        }
        lemma_count_by_all_keys(t, key, ks);
        lemma_count_one_more(t, key, ks, s.last());
        assert(ks.contains(key(s[s.len() - 1])));
        assert(t.push(s.last()) =~= s);
    }
}

proof fn lemma_count_none<A, K>(s: Seq<A>, key: spec_fn(A) -> K, ks: Seq<K>)
    requires
        s.len() == 0,
    ensures
        count_by_keys(s, key, ks) == 0,
    decreases ks.len(),
{
    reveal(Seq::filter);
    if ks.len() > 0 {
        lemma_count_none(s, key, ks.drop_last());
    }
}

/// A list in its order has the items that it had.
pub proof fn lemma_sort_members<A>(s: Seq<A>, lt: spec_fn(A, A) -> bool, x: A)
    requires
        is_order(lt),
    ensures
        stable_sort(s, lt).contains(x) <==> s.contains(x),
        stable_sort(s, lt).len() == s.len(),
{
    let plt = position_lt(s, lt);
    let n = s.len() as int;
    lemma_order_ranks(s, lt);
    let found = lemma_stable_order_exists(plt, n);
    let o = stable_order_of(s, lt);
    assert(is_stable_order(o, n, plt));
    let t = stable_sort(s, lt);
    if t.contains(x) {
        let i = choose|i: int| 0 <= i < t.len() && t[i] == x;
        assert(s[o[i]] == x);
    }
    if s.contains(x) {
        let i = choose|i: int| 0 <= i < s.len() && s[i] == x;
        assert(o.contains(i));
        let j = choose|j: int| 0 <= j < o.len() && o[j] == i;
        assert(t[j] == x);
    }
}

/// Positions that are ranked have a stable order.
pub proof fn lemma_stable_order_exists(lt: spec_fn(int, int) -> bool, n: int) -> (o: Seq<int>)
    requires
        0 <= n,
        is_ranking(lt, n),
    ensures
        is_stable_order(o, n, lt),
    decreases n,
{
    if n == 0 {
        Seq::empty()
    } else {
        let m = n - 1;
        assert(is_ranking(lt, m));
        let before = lemma_stable_order_exists(lt, m);
        let p = |v: int| lt(m, v);
        let k = first_where(before, p);
        lemma_first_where_props(before, p);
        let o = before.insert(k, m);
        assert forall|i: int, j: int| 0 <= i < j < o.len() implies goes_before(
            lt,
            #[trigger] o[i],
            #[trigger] o[j],
        ) by {
            if j < k {
                assert(o[i] == before[i] && o[j] == before[j]);
            } else if j == k {
                assert(o[i] == before[i]);
                assert(!p(before[i]));
            } else {
                assert(o[j] == before[j - 1]);
                if i > k {
                    assert(o[i] == before[i - 1]);
                } else if i == k {
                    assert(p(before[k]));
                    if j - 1 > k {
                        assert(goes_before(lt, before[k], before[j - 1]));
                        assert(!lt(before[j - 1], before[k]));
                        if !lt(m, before[j - 1]) {
                            assert(!lt(m, before[k]));
                        }
                    }
                } else {
                    assert(o[i] == before[i]);
                }
            }
        }
        assert forall|v: int| 0 <= v < n implies #[trigger] o.contains(v) by {
            if v == m {
                assert(o[k] == m);
            } else {
                assert(before.contains(v));
                let i = choose|i: int| 0 <= i < before.len() && before[i] == v;
                if i < k {
                    assert(o[i] == v);
                } else {
                    assert(o[i + 1] == v);
                }
            }
        }
        assert forall|i: int| 0 <= i < o.len() implies 0 <= #[trigger] o[i] < n by {
            if i < k {
                assert(o[i] == before[i]);
            } else if i > k {
                assert(o[i] == before[i - 1]);
            }
        }
        o
    }
}

/// In a list in its order nothing comes before what stands earlier.
pub proof fn lemma_sort_ascends<A>(s: Seq<A>, lt: spec_fn(A, A) -> bool, i: int, j: int)
    requires
        is_order(lt),
        0 <= i < j < s.len(),
    ensures
        !lt(stable_sort(s, lt)[j], stable_sort(s, lt)[i]),
{
    let plt = position_lt(s, lt);
    let n = s.len() as int;
    lemma_order_ranks(s, lt);
    let witness = lemma_stable_order_exists(plt, n);
    let o = stable_order_of(s, lt);
    assert(is_stable_order(o, n, plt));
    assert(goes_before(plt, o[i], o[j]));
    assert(0 <= o[i] < n && 0 <= o[j] < n);
    if plt(o[i], o[j]) {
        assert(lt(s[o[i]], s[o[j]]));
    }
}

/// A list in its order is a rearrangement of the list: each place gives its item once.
pub proof fn lemma_sort_rearranges<A>(s: Seq<A>, lt: spec_fn(A, A) -> bool) -> (o: Seq<int>)
    requires
        is_order(lt),
    ensures
        stable_sort(s, lt) == at_positions(s, o),
        lists_range(o, 0, s.len() as int),
        o.no_duplicates(),
        is_rearrangement(stable_sort(s, lt), s),
{
    let plt = position_lt(s, lt);
    let n = s.len() as int;
    lemma_order_ranks(s, lt);
    let witness = lemma_stable_order_exists(plt, n);
    let o = stable_order_of(s, lt);
    assert(is_stable_order(o, n, plt));
    assert forall|p: int, q: int| 0 <= p < o.len() && 0 <= q < o.len() && p != q implies o[p]
        != o[q] by {
        if p < q {
            assert(goes_before(plt, o[p], o[q]));
        } else {
            assert(goes_before(plt, o[q], o[p]));
        }
    }
    o
}

/// A list that is in its order stays as it is.
pub proof fn lemma_sort_of_sorted<A>(s: Seq<A>, lt: spec_fn(A, A) -> bool)
    requires
        is_order(lt),
        forall|i: int, j: int| 0 <= i < j < s.len() ==> !lt(#[trigger] s[j], #[trigger] s[i]),
    ensures
        stable_sort(s, lt) == s,
{
    let o = numbers_below(s.len());
    lemma_order_ranks(s, lt);
    assert forall|v: int| 0 <= v < s.len() implies #[trigger] o.contains(v) by {
        assert(o[v] == v);
    }
    lemma_stable_sort(s, lt, o);
    assert(at_positions(s, o) =~= s);
}

/// Items that the order does not tell apart keep the order in which they stood: where one of them
/// comes before another, its place in the list was the earlier one.
pub proof fn law_sorting_is_stable<A>(s: Seq<A>, lt: spec_fn(A, A) -> bool, i: int, j: int)
    requires
        is_order(lt),
        0 <= i < j < s.len(),
    ensures
        ({
            let o = stable_order_of(s, lt);
            &&& is_stable_order(o, s.len() as int, position_lt(s, lt))
            &&& stable_sort(s, lt)[i] == s[o[i]]
            &&& stable_sort(s, lt)[j] == s[o[j]]
            &&& !lt(stable_sort(s, lt)[i], stable_sort(s, lt)[j]) ==> o[i] < o[j]
        }),
{
    let plt = position_lt(s, lt);
    lemma_order_ranks(s, lt);
    let witness = lemma_stable_order_exists(plt, s.len() as int);
    let o = stable_order_of(s, lt);
    assert(goes_before(plt, o[i], o[j]));
}

} // verus!
