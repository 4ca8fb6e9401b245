//! Finding tracks that look like the same recording.
use crate::grouping::{
    having_key, lemma_at_positions_of, lemma_sort_ascends, lemma_sort_members,
    lemma_sort_rearranges, lemma_sorted_keys, positions_of, sorted_keys,
};
use crate::groups::{by_pair, group_pairs, lemma_by_pair_total, picked};
use crate::lists::{lemma_filter_from, lemma_filter_from_two, lemma_filter_members};
use crate::order::{
    as_ints, at_positions, is_order, lemma_order_ranks, lemma_stable_sort, lemma_text_not_lt,
    position_lt, stable_order, stable_sort,
};
use crate::state::{distinct_ids, infos, Track, TrackInfo, TrackMap};
use crate::text::{chars_before, chars_of, text_lt};
use crate::util::{match_form, normalize_for_match};
use vstd::prelude::*;

verus! {

/// How many seconds two recordings of the same length may differ by.
pub const DURATION_TOLERANCE_SECS: u64 = 3;

/// Tracks that look like the same recording.
#[derive(Debug)]
pub struct DuplicateGroup {
    pub reason: &'static str,
    pub tracks: Vec<Track>,
}

/// A track with what it is matched by: the forms of its title and of its artist.
pub type Keyed = ((Seq<char>, Seq<char>), TrackInfo);

/// The tracks whose titles have something to match on.
pub open spec fn matchable(items: Seq<Keyed>) -> Seq<Keyed> {
    items.filter(|x: Keyed| x.0.0.len() > 0)
}

/// What a track is matched by.
pub open spec fn keyed_by() -> spec_fn(Keyed) -> (Seq<char>, Seq<char>) {
    |x: Keyed| x.0
}

/// The order of tracks by their length.
pub open spec fn by_duration() -> spec_fn(TrackInfo, TrackInfo) -> bool {
    |a: TrackInfo, b: TrackInfo| a.duration_seconds < b.duration_seconds
}

/// The order of groups by the title of their first tracks.
pub open spec fn by_first_title() -> spec_fn(Seq<TrackInfo>, Seq<TrackInfo>) -> bool {
    |a: Seq<TrackInfo>, b: Seq<TrackInfo>| text_lt(a[0].title, b[0].title)
}

/// The tracks that match on a key, the shortest first.
pub open spec fn matches_of(items: Seq<Keyed>, key: (Seq<char>, Seq<char>)) -> Seq<TrackInfo> {
    stable_sort(
        matchable(items).filter(having_key(keyed_by(), key)).map_values(|x: Keyed| x.1),
        by_duration(),
    )
}

/// Whether a track is at most so much longer than one before it that both may be one recording.
pub open spec fn is_close(prev: TrackInfo, next: TrackInfo) -> bool {
    next.duration_seconds - prev.duration_seconds <= DURATION_TOLERANCE_SECS
}

/// Tracks that are sorted by their length in runs, each track close to the one before it.
pub open spec fn close_runs(b: Seq<TrackInfo>) -> Seq<Seq<TrackInfo>>
    decreases b.len(),
{
    if b.len() == 0 {
        Seq::empty()
    } else {
        let before = close_runs(b.drop_last());
        if b.len() > 1 && is_close(b[b.len() - 2], b.last()) {
            before.update(before.len() - 1, before.last().push(b.last()))
        } else {
            before.push(seq![b.last()])
        }
    }
}

/// The runs of several tracks.
pub open spec fn several(runs: Seq<Seq<TrackInfo>>) -> Seq<Seq<TrackInfo>> {
    runs.filter(|g: Seq<TrackInfo>| g.len() > 1)
}

/// The groups of duplicates under some keys, key by key.
pub open spec fn groups_under(items: Seq<Keyed>, ks: Seq<(Seq<char>, Seq<char>)>) -> Seq<
    Seq<TrackInfo>,
>
    decreases ks.len(),
{
    if ks.len() == 0 {
        Seq::empty()
    } else {
        groups_under(items, ks.drop_last()) + several(close_runs(matches_of(items, ks.last())))
    }
}

/// The keys that tracks are matched by.
pub open spec fn match_keys(items: Seq<Keyed>) -> Seq<(Seq<char>, Seq<char>)> {
    sorted_keys(matchable(items).map_values(keyed_by()), by_pair())
}

/// The groups of duplicates among tracks with their keys, by the title of their first tracks.
pub open spec fn duplicates_by(items: Seq<Keyed>) -> Seq<Seq<TrackInfo>> {
    stable_sort(groups_under(items, match_keys(items)), by_first_title())
}

/// Tracks with the keys that they are matched by.
pub open spec fn keyed(s: Seq<TrackInfo>) -> Seq<Keyed> {
    s.map_values(|t: TrackInfo| ((match_form(t.title), match_form(t.artist)), t))
}

/// Groups as plain values.
pub open spec fn group_infos(v: Seq<DuplicateGroup>) -> Seq<Seq<TrackInfo>> {
    Seq::new(v.len(), |i: int| infos(v[i].tracks@))
}

/// Runs as plain values.
pub open spec fn run_infos(v: Seq<Vec<Track>>) -> Seq<Seq<TrackInfo>> {
    Seq::new(v.len(), |i: int| infos(v[i]@))
}

/// The tracks at some positions, one after the other.
pub fn tracks_at(tracks: &[Track], order: &[usize]) -> (r: Vec<Track>)
    requires
        forall|i: int| 0 <= i < order.len() ==> #[trigger] order@[i] < tracks.len(),
    ensures
        infos(r@) == picked(infos(tracks@), order@),
        r.len() == order.len(),
{
    let mut r: Vec<Track> = Vec::new();
    let mut i: usize = 0;
    while i < order.len()
        invariant
            0 <= i <= order.len(),
            forall|k: int| 0 <= k < order.len() ==> #[trigger] order@[k] < tracks.len(),
            r.len() == i,
            forall|k: int| 0 <= k < i ==> #[trigger] r@[k] == tracks@[order@[k] as int],
        decreases order.len() - i,
    {
        r.push(tracks[order[i]].clone());
        i += 1;
    }
    assert(infos(r@) =~= picked(infos(tracks@), order@));
    r
}

fn sorted_by_duration(tracks: &[Track]) -> (r: Vec<Track>)
    ensures
        infos(r@) == stable_sort(infos(tracks@), by_duration()),
{
    let n = tracks.len();
    let ghost s = infos(tracks@);
    let ghost lt = position_lt(s, by_duration());
    let less = |a: usize, b: usize| -> (r: bool)
        requires
            a < n,
            b < n,
            n == tracks@.len(),
        ensures
            r == (tracks@[a as int].duration_seconds < tracks@[b as int].duration_seconds),
        { tracks[a].duration_seconds < tracks[b].duration_seconds };
    proof {
        assert(is_order(by_duration()));
        lemma_order_ranks(s, by_duration());
    }
    let order = stable_order(n, &less, Ghost(lt));
    proof {
        lemma_stable_sort(s, by_duration(), as_ints(order@));
    }
    tracks_at(tracks, order.as_slice())
}

fn close_runs_of(tracks: &[Track]) -> (r: Vec<Vec<Track>>)
    ensures
        run_infos(r@) == close_runs(infos(tracks@)),
{
    let ghost b = infos(tracks@);
    let mut r: Vec<Vec<Track>> = Vec::new();
    let mut i: usize = 0;
    assert(run_infos(r@) =~= close_runs(b.take(0)));
    while i < tracks.len()
        invariant
            0 <= i <= tracks.len(),
            b == infos(tracks@),
            run_infos(r@) == close_runs(b.take(i as int)),
            i > 0 ==> r.len() > 0,
            i > 0 ==> r@.last()@.len() > 0,
        decreases tracks.len() - i,
    {
        let ghost next = b.take(i + 1);
        let ghost before = run_infos(r@);
        proof {
            assert(next.drop_last() =~= b.take(i as int));
            assert(next.last() == tracks@[i as int]@);
            if i > 0 {
                assert(next[next.len() - 2] == tracks@[i - 1]@);
            }
        }
        let near = if i == 0 {
            false
        } else {
            let prev = tracks[i - 1].duration_seconds;
            let cur = tracks[i].duration_seconds;
            cur <= prev || cur - prev <= DURATION_TOLERANCE_SECS
        };
        if near {
            let last = r.len() - 1;
            let mut run: Vec<Track> = Vec::new();
            std::mem::swap(&mut run, &mut r[last]);
            let ghost old_run = infos(run@);
            run.push(tracks[i].clone());
            let ghost new_run = infos(run@);
            assert(new_run =~= old_run.push(tracks@[i as int]@));
            r.set(last, run);
            assert(before.last() == old_run);
            assert(run_infos(r@) =~= before.update(last as int, new_run));
        } else {
            let mut run: Vec<Track> = Vec::new();
            run.push(tracks[i].clone());
            assert(infos(run@) =~= seq![tracks@[i as int]@]);
            let ghost new_run = infos(run@);
            r.push(run);
            assert(run_infos(r@) =~= before.push(new_run));
        }
        i += 1;
    }
    assert(b.take(i as int) =~= b);
    r
}

fn push_several(all: &mut Vec<Vec<Track>>, runs: Vec<Vec<Track>>)
    ensures
        run_infos(final(all)@) == run_infos(old(all)@) + several(run_infos(runs@)),
{
    let ghost start = run_infos(all@);
    let ghost rs = run_infos(runs@);
    let ghost p = |g: Seq<TrackInfo>| g.len() > 1;
    assert(start + rs.take(0).filter(p) =~= start) by {
        reveal(Seq::filter);
    }
    for run in it: runs
        invariant
            rs == run_infos(it.seq()),
            p == (|g: Seq<TrackInfo>| g.len() > 1),
            run_infos(all@) == start + rs.take(it.index() as int).filter(p),
    {
        let ghost i = it.index() as int;
        let ghost before = run_infos(all@);
        let ghost view = infos(run@);
        proof {
            reveal(Seq::filter);
            assert(rs.take(i + 1).drop_last() =~= rs.take(i));
            assert(rs.take(i + 1).last() == view);
        }
        if run.len() > 1 {
            all.push(run);
            assert(run_infos(all@) =~= before.push(view));
            assert(before.push(view) =~= start + rs.take(i).filter(p).push(view));
        }
    }
    assert(rs.take(rs.len() as int) =~= rs);
}

proof fn lemma_by_first_title()
    ensures
        is_order(by_first_title()),
{
    let lt = by_first_title();
    assert forall|a: Seq<TrackInfo>, b: Seq<TrackInfo>| #[trigger] lt(a, b) implies !lt(b, a) by {
        lemma_text_not_lt(a[0].title, b[0].title, a[0].title);
    }
    assert forall|a: Seq<TrackInfo>, b: Seq<TrackInfo>, c: Seq<TrackInfo>|
        #![trigger lt(a, b), lt(b, c)]
        !lt(a, b) && !lt(b, c) implies !lt(a, c) by {
        lemma_text_not_lt(a[0].title, b[0].title, c[0].title);
    }
}

fn sorted_by_first_title(all: &[Vec<Track>]) -> (r: Vec<DuplicateGroup>)
    requires
        forall|i: int| 0 <= i < all.len() ==> (#[trigger] all@[i]).len() > 0,
    ensures
        group_infos(r@) == stable_sort(run_infos(all@), by_first_title()),
        forall|i: int|
            0 <= i < r.len() ==> (#[trigger] r@[i]).reason@
                == "same title/artist, similar duration"@,
{
    let n = all.len();
    let ghost s = run_infos(all@);
    let ghost lt = position_lt(s, by_first_title());
    let mut titles: Vec<Vec<char>> = Vec::new();
    let mut i: usize = 0;
    while i < n
        invariant
            0 <= i <= n,
            n == all.len(),
            forall|k: int| 0 <= k < all.len() ==> (#[trigger] all@[k]).len() > 0,
            titles.len() == i,
            forall|k: int| 0 <= k < i ==> (#[trigger] titles@[k])@ == all@[k]@[0].title@,
        decreases n - i,
    {
        assert(all@[i as int].len() > 0);
        titles.push(chars_of(all[i][0].title.as_str()));
        i += 1;
    }
    let less = |a: usize, b: usize| -> (r: bool)
        requires
            a < n,
            b < n,
            n == titles@.len(),
        ensures
            r == text_lt(titles@[a as int]@, titles@[b as int]@),
        { chars_before(titles[a].as_slice(), titles[b].as_slice()) };
    proof {
        lemma_by_first_title();
        lemma_order_ranks(s, by_first_title());
        assert forall|a: int, b: int| 0 <= a < n && 0 <= b < n implies #[trigger] lt(a, b)
            == text_lt(titles@[a]@, titles@[b]@) by {
            assert(s[a][0] == all@[a]@[0]@ && s[b][0] == all@[b]@[0]@);
        }
    }
    let order = stable_order(n, &less, Ghost(lt));
    proof {
        lemma_stable_sort(s, by_first_title(), as_ints(order@));
    }
    let mut r: Vec<DuplicateGroup> = Vec::new();
    let mut i: usize = 0;
    while i < order.len()
        invariant
            0 <= i <= order.len(),
            s == run_infos(all@),
            forall|k: int| 0 <= k < order.len() ==> #[trigger] order@[k] < all.len(),
            r.len() == i,
            forall|k: int|
                0 <= k < i ==> infos((#[trigger] r@[k]).tracks@) == s[order@[k] as int]
                    && r@[k].reason@ == "same title/artist, similar duration"@,
        decreases order.len() - i,
    {
        let tracks = copied(all[order[i]].as_slice());
        r.push(DuplicateGroup { reason: "same title/artist, similar duration", tracks });
        i += 1;
    }
    assert(group_infos(r@) =~= at_positions(s, as_ints(order@)));
    r
}

fn copied(tracks: &[Track]) -> (r: Vec<Track>)
    ensures
        infos(r@) == infos(tracks@),
{
    let mut r: Vec<Track> = Vec::new();
    let mut i: usize = 0;
    while i < tracks.len()
        invariant
            0 <= i <= tracks.len(),
            r.len() == i,
            forall|k: int| 0 <= k < i ==> #[trigger] r@[k] == tracks@[k],
        decreases tracks.len() - i,
    {
        r.push(tracks[i].clone());
        i += 1;
    }
    assert(infos(r@) =~= infos(tracks@));
    r
}

/// Tracks and the keys given for them, together.
pub open spec fn paired(s: Seq<TrackInfo>, keys: Seq<(Vec<char>, Vec<char>)>) -> Seq<Keyed> {
    Seq::new(s.len(), |i: int| ((keys[i].0@, keys[i].1@), s[i]))
}

/// The groups of duplicates among some tracks, told what each of them is matched by.
pub fn find_duplicates_with(tracks: &[Track], keys: &[(Vec<char>, Vec<char>)]) -> (r: Vec<
    DuplicateGroup,
>)
    requires
        tracks.len() == keys.len(),
    ensures
        group_infos(r@) == duplicates_by(paired(infos(tracks@), keys@)),
        forall|i: int|
            0 <= i < r.len() ==> (#[trigger] r@[i]).reason@
                == "same title/artist, similar duration"@,
{
    let ghost items = paired(infos(tracks@), keys@);
    let ghost p = |x: Keyed| x.0.0.len() > 0;
    let ghost view = |x: Keyed| x.1;
    let mut kept: Vec<Track> = Vec::new();
    let mut kept_keys: Vec<(Vec<char>, Vec<char>)> = Vec::new();
    let mut i: usize = 0;
    assert(paired(infos(kept@), kept_keys@) =~= items.take(0).filter(p)) by {
        reveal(Seq::filter);
    }
    while i < tracks.len()
        invariant
            0 <= i <= tracks.len(),
            tracks.len() == keys.len(),
            items == paired(infos(tracks@), keys@),
            p == (|x: Keyed| x.0.0.len() > 0),
            kept.len() == kept_keys.len(),
            paired(infos(kept@), kept_keys@) == items.take(i as int).filter(p),
        decreases tracks.len() - i,
    {
        let ghost before = paired(infos(kept@), kept_keys@);
        let ghost x = items[i as int];
        proof {
            reveal(Seq::filter);
            assert(items.take(i + 1).drop_last() =~= items.take(i as int));
            assert(items.take(i + 1).last() == x);
        }
        if keys[i].0.len() > 0 {
            kept.push(tracks[i].clone());
            kept_keys.push(
                (copied_chars(keys[i].0.as_slice()), copied_chars(keys[i].1.as_slice())),
            );
            assert(paired(infos(kept@), kept_keys@) =~= before.push(x));
        }
        i += 1;
    }
    assert(items.take(i as int) =~= items);
    let ghost ms = matchable(items);
    let ghost ks = match_keys(items);
    let ghost want = ms.map_values(keyed_by());
    let groups = group_pairs(kept_keys.as_slice());
    proof {
        assert(ms.len() == kept@.len());
        assert forall|k: int| 0 <= k < ms.len() implies #[trigger] ms[k] == (
            (kept_keys@[k].0@, kept_keys@[k].1@),
            kept@[k]@,
        ) by {
            assert(ms[k] == paired(infos(kept@), kept_keys@)[k]);
        }
        assert(Seq::new(kept_keys@.len(), |i: int| (kept_keys@[i].0@, kept_keys@[i].1@)) =~= want);
    }
    let mut all: Vec<Vec<Track>> = Vec::new();
    let mut g: usize = 0;
    assert(run_infos(all@) =~= groups_under(items, ks.take(0)));
    while g < groups.len()
        invariant
            0 <= g <= groups.len(),
            ms == matchable(items),
            ks == match_keys(items),
            want == ms.map_values(keyed_by()),
            ms.len() == kept@.len(),
            forall|k: int|
                0 <= k < ms.len() ==> (#[trigger] ms[k]).1 == kept@[k]@,
            groups.len() == ks.len(),
            forall|h: int|
                0 <= h < groups.len() ==> as_ints((#[trigger] groups@[h])@) == positions_of(
                    want,
                    ks[h],
                ),
            forall|h: int, i: int|
                0 <= h < groups.len() && 0 <= i < groups@[h].len() ==> (#[trigger] groups@[h]@[i])
                    < kept.len(),
            view == (|x: Keyed| x.1),
            run_infos(all@) == groups_under(items, ks.take(g as int)),
        decreases groups.len() - g,
    {
        let group = groups[g].as_slice();
        proof {
            assert forall|i: int| 0 <= i < group@.len() implies #[trigger] group@[i]
                < kept.len() by {
                assert(group@[i] == groups@[g as int]@[i]);
            }
        }
        let members = tracks_at(kept.as_slice(), group);
        let sorted = sorted_by_duration(members.as_slice());
        let runs = close_runs_of(sorted.as_slice());
        push_several(&mut all, runs);
        proof {
            let k = ks[g as int];
            lemma_at_positions_of(ms, keyed_by(), k);
            let mine = ms.filter(having_key(keyed_by(), k));
            assert(as_ints(groups@[g as int]@) == positions_of(want, k));
            assert(at_positions(ms, as_ints(group@)) == mine);
            assert(infos(members@) =~= mine.map_values(view)) by {
                assert forall|i: int| 0 <= i < mine.len() implies #[trigger] infos(members@)[i]
                    == mine.map_values(view)[i] by {
                    assert(mine[i] == ms[as_ints(group@)[i]]);
                    assert(group@[i] < kept.len());
                }
            }
            assert(infos(sorted@) == matches_of(items, k));
            assert(ks.take(g + 1).drop_last() =~= ks.take(g as int));
        }
        g += 1;
    }
    assert(ks.take(g as int) =~= ks);
    proof {
        lemma_groups_are_several(items, ks);
        assert forall|i: int| 0 <= i < all.len() implies (#[trigger] all@[i]).len() > 0 by {
            assert(run_infos(all@)[i].len() > 1);
        }
    }
    sorted_by_first_title(all.as_slice())
}

fn copied_chars(s: &[char]) -> (r: Vec<char>)
    ensures
        r@ == s@,
{
    let mut r: Vec<char> = Vec::new();
    let mut i: usize = 0;
    while i < s.len()
        invariant
            0 <= i <= s.len(),
            r@ == s@.take(i as int),
        decreases s.len() - i,
    {
        r.push(s[i]);
        i += 1;
        assert(r@ =~= s@.take(i as int));
    }
    assert(s@.take(i as int) =~= s@);
    r
}

proof fn lemma_groups_are_several(items: Seq<Keyed>, ks: Seq<(Seq<char>, Seq<char>)>)
    ensures
        forall|i: int|
            0 <= i < groups_under(items, ks).len() ==> (#[trigger] groups_under(
                items,
                ks,
            )[i]).len() > 1,
    decreases ks.len(),
{
    if ks.len() > 0 {
        let front = groups_under(items, ks.drop_last());
        let runs = close_runs(matches_of(items, ks.last()));
        let p = |g: Seq<TrackInfo>| g.len() > 1;
        lemma_groups_are_several(items, ks.drop_last());
        assert forall|i: int| 0 <= i < groups_under(items, ks).len() implies (
        #[trigger] groups_under(items, ks)[i]).len() > 1 by {
            if i >= front.len() {
                let k = lemma_filter_from(runs, p, i - front.len());
            } else {
                assert(front[i].len() > 1);
            }
        }
    }
}

/// The groups of tracks that look like the same recording: their titles and artists match but for
/// case and punctuation, and each is at most three seconds longer than the one before it.
pub fn find_duplicates(tracks: &TrackMap) -> (r: Vec<DuplicateGroup>)
    ensures
        group_infos(r@) == duplicates_by(keyed(tracks@)),
        forall|i: int|
            0 <= i < r.len() ==> (#[trigger] r@[i]).reason@
                == "same title/artist, similar duration"@,
{
    let all = tracks.all();
    let mut keys: Vec<(Vec<char>, Vec<char>)> = Vec::new();
    let mut i: usize = 0;
    while i < all.len()
        invariant
            0 <= i <= all.len(),
            keys.len() == i,
            forall|k: int|
                0 <= k < i ==> (#[trigger] keys@[k]).0@ == match_form(all@[k].title@)
                    && keys@[k].1@ == match_form(all@[k].artist@),
        decreases all.len() - i,
    {
        let title = normalize_for_match(all[i].title.as_str());
        let artist = normalize_for_match(all[i].artist.as_str());
        keys.push((chars_of(title.as_str()), chars_of(artist.as_str())));
        i += 1;
    }
    assert(paired(infos(all@), keys@) =~= keyed(tracks@));
    find_duplicates_with(all.as_slice(), keys.as_slice())
}

/// Each run is a stretch of the sorted tracks in which every track is close to the one before it;
/// the last run reaches to the end.
proof fn lemma_run_is_stretch(b: Seq<TrackInfo>, r: int) -> (span: (int, int))
    requires
        0 <= r < close_runs(b).len(),
    ensures
        0 <= span.0 < span.1 <= b.len(),
        close_runs(b)[r] == b.subrange(span.0, span.1),
        forall|m: int| span.0 < m < span.1 ==> is_close(b[m - 1], #[trigger] b[m]),
        r == close_runs(b).len() - 1 ==> span.1 == b.len(),
    decreases b.len(),
{
    let front = b.drop_last();
    let before = close_runs(front);
    let joins = b.len() > 1 && is_close(b[b.len() - 2], b.last());
    if b.len() > 1 {
        lemma_runs_nonempty(front);
    }
    if joins && r == before.len() - 1 {
        let (lo, hi) = lemma_run_is_stretch(front, r);
        assert(front.subrange(lo, hi).push(b.last()) =~= b.subrange(lo, b.len() as int));
        assert forall|m: int| lo < m < b.len() implies is_close(b[m - 1], #[trigger] b[m]) by {
            if m < front.len() {
                assert(front[m - 1] == b[m - 1] && front[m] == b[m]);
            }
        }
        (lo, b.len() as int)
    } else if r < before.len() {
        let (lo, hi) = lemma_run_is_stretch(front, r);
        assert(front.subrange(lo, hi) =~= b.subrange(lo, hi));
        assert forall|m: int| lo < m < hi implies is_close(b[m - 1], #[trigger] b[m]) by {
            assert(front[m - 1] == b[m - 1] && front[m] == b[m]);
        }
        (lo, hi)
    } else {
        assert(b.subrange(b.len() - 1, b.len() as int) =~= seq![b.last()]);
        (b.len() - 1, b.len() as int)
    }
}

proof fn lemma_runs_nonempty(b: Seq<TrackInfo>)
    requires
        b.len() > 0,
    ensures
        close_runs(b).len() > 0,
    decreases b.len(),
{
    if b.len() > 1 {
        lemma_runs_nonempty(b.drop_last());
    }
}

/// A track from which on every track is close to the one before it is in the last run.
proof fn lemma_in_last_run(b: Seq<TrackInfo>, p: int)
    requires
        0 <= p < b.len(),
        forall|m: int| p < m < b.len() ==> is_close(b[m - 1], #[trigger] b[m]),
    ensures
        close_runs(b).len() > 0,
        close_runs(b).last().contains(b[p]),
        close_runs(b).last().contains(b.last()),
        p < b.len() - 1 ==> close_runs(b).last().len() > 1,
    decreases b.len(),
{
    let front = b.drop_last();
    let before = close_runs(front);
    if p < b.len() - 1 {
        assert forall|m: int| p < m < front.len() implies is_close(
            front[m - 1],
            #[trigger] front[m],
        ) by {
            assert(is_close(b[m - 1], b[m]));
        }
        lemma_in_last_run(front, p);
        assert(is_close(b[b.len() - 2], b[b.len() - 1]));
        let old_run = before.last();
        let run = old_run.push(b.last());
        let k = choose|k: int| 0 <= k < old_run.len() && old_run[k] == front[p];
        assert(run[k] == b[p]);
        assert(run[run.len() - 1] == b.last());
        assert(close_runs(b).last() == run);
    } else {
        if b.len() > 1 {
            lemma_runs_nonempty(front);
        }
        let run = close_runs(b).last();
        assert(run[run.len() - 1] == b.last());
    }
}

/// More tracks at the end leave the runs as they are or make one of them longer.
proof fn lemma_runs_grow(b: Seq<TrackInfo>, n: int, r: int)
    requires
        0 <= n <= b.len(),
        0 <= r < close_runs(b.take(n)).len(),
    ensures
        r < close_runs(b).len(),
        close_runs(b.take(n))[r].len() <= close_runs(b)[r].len(),
        close_runs(b)[r].take(close_runs(b.take(n))[r].len() as int) == close_runs(b.take(n))[r],
    decreases b.len() - n,
{
    let part = b.take(n);
    if n == b.len() {
        assert(part =~= b);
        assert(close_runs(b)[r].take(close_runs(b)[r].len() as int) =~= close_runs(b)[r]);
    } else {
        let next = b.take(n + 1);
        assert(next.drop_last() =~= part);
        lemma_runs_grow_by_one(next, r);
        lemma_runs_grow(b, n + 1, r);
        let small = close_runs(part)[r];
        let mid = close_runs(next)[r];
        let big = close_runs(b)[r];
        assert(big.take(small.len() as int) =~= big.take(mid.len() as int).take(
            small.len() as int,
        ));
    }
}

proof fn lemma_runs_grow_by_one(b: Seq<TrackInfo>, r: int)
    requires
        b.len() > 0,
        0 <= r < close_runs(b.drop_last()).len(),
    ensures
        r < close_runs(b).len(),
        close_runs(b.drop_last())[r].len() <= close_runs(b)[r].len(),
        close_runs(b)[r].take(close_runs(b.drop_last())[r].len() as int) == close_runs(
            b.drop_last(),
        )[r],
{
    let before = close_runs(b.drop_last());
    let small = before[r];
    let big = close_runs(b)[r];
    assert(big.take(small.len() as int) =~= small);
}

proof fn lemma_group_is_under_its_key(
    items: Seq<Keyed>,
    ks: Seq<(Seq<char>, Seq<char>)>,
    key: (Seq<char>, Seq<char>),
    run: Seq<TrackInfo>,
)
    requires
        ks.contains(key),
        several(close_runs(matches_of(items, key))).contains(run),
    ensures
        groups_under(items, ks).contains(run),
    decreases ks.len(),
{
    let i = choose|i: int| 0 <= i < ks.len() && ks[i] == key;
    let front = groups_under(items, ks.drop_last());
    let mine = several(close_runs(matches_of(items, ks.last())));
    let all = groups_under(items, ks);
    if i < ks.len() - 1 {
        assert(ks.drop_last()[i] == key);
        lemma_group_is_under_its_key(items, ks.drop_last(), key, run);
        let k = choose|k: int| 0 <= k < front.len() && front[k] == run;
        assert(all[k] == run);
    } else {
        let k = choose|k: int| 0 <= k < mine.len() && mine[k] == run;
        assert(all[front.len() + k] == run);
    }
}

proof fn lemma_by_duration_orders()
    ensures
        is_order(by_duration()),
{
}

/// A track is among those that match on its key.
proof fn lemma_matches_have(s: Seq<TrackInfo>, i: int)
    requires
        0 <= i < s.len(),
        match_form(s[i].title).len() > 0,
    ensures
        matches_of(keyed(s), keyed(s)[i].0).contains(s[i]),
        match_keys(keyed(s)).contains(keyed(s)[i].0),
{
    let items = keyed(s);
    let x = items[i];
    let key = x.0;
    let ms = matchable(items);
    assert(items.contains(x));
    lemma_filter_members(items, |y: Keyed| y.0.0.len() > 0, x);
    assert(ms.contains(x));
    lemma_filter_members(ms, having_key(keyed_by(), key), x);
    let mine = ms.filter(having_key(keyed_by(), key));
    let view = |y: Keyed| y.1;
    let ts = mine.map_values(view);
    let k = choose|k: int| 0 <= k < mine.len() && mine[k] == x;
    assert(ts[k] == s[i]);
    lemma_by_duration_orders();
    lemma_sort_members(ts, by_duration(), s[i]);
    let keys = ms.map_values(keyed_by());
    let m = choose|m: int| 0 <= m < ms.len() && ms[m] == x;
    assert(keys[m] == key);
    lemma_by_pair_total();
    lemma_sorted_keys(keys, by_pair());
    assert(keys.contains(key));
}

/// Two tracks whose titles and artists match and whose lengths are within the tolerance of each
/// other are grouped together.
pub proof fn law_close_matches_are_grouped(s: Seq<TrackInfo>, i: int, j: int)
    requires
        distinct_ids(s),
        0 <= i < s.len(),
        0 <= j < s.len(),
        i != j,
        match_form(s[i].title).len() > 0,
        match_form(s[i].title) == match_form(s[j].title),
        match_form(s[i].artist) == match_form(s[j].artist),
        s[i].duration_seconds <= s[j].duration_seconds <= s[i].duration_seconds + 3,
    ensures
        exists|g: int|
            {
                &&& 0 <= g < duplicates_by(keyed(s)).len()
                &&& (#[trigger] duplicates_by(keyed(s))[g]).contains(s[i])
                &&& duplicates_by(keyed(s))[g].contains(s[j])
            },
{
    let items = keyed(s);
    let key = items[i].0;
    assert(items[j].0 == key);
    lemma_matches_have(s, i);
    lemma_matches_have(s, j);
    let b = matches_of(items, key);
    let a = choose|a: int| 0 <= a < b.len() && b[a] == s[i];
    let c = choose|c: int| 0 <= c < b.len() && b[c] == s[j];
    assert(a != c) by {
        if a == c {
            assert(s[if i < j {
                i
            } else {
                j
            }].id != s[if i < j {
                j
            } else {
                i
            }].id);
        }
    }
    let p = if a < c {
        a
    } else {
        c
    };
    let q = if a < c {
        c
    } else {
        a
    };
    let ts = matchable(items).filter(having_key(keyed_by(), key)).map_values(|x: Keyed| x.1);
    lemma_by_duration_orders();
    assert(b.len() == ts.len()) by {
        lemma_sort_members(ts, by_duration(), s[i]);
    }
    assert forall|m: int, n: int| 0 <= m < n < b.len() implies (#[trigger] b[m]).duration_seconds
        <= (#[trigger] b[n]).duration_seconds by {
        lemma_sort_ascends(ts, by_duration(), m, n);
    }
    let part = b.take(q + 1);
    assert forall|m: int| p < m < part.len() implies is_close(part[m - 1], #[trigger] part[m]) by {
        assert(part[m - 1] == b[m - 1] && part[m] == b[m]);
        if p < m - 1 {
            assert(b[p].duration_seconds <= b[m - 1].duration_seconds);
        }
        if m < q {
            assert(b[m].duration_seconds <= b[q].duration_seconds);
        }
    }
    lemma_in_last_run(part, p);
    let r = close_runs(part).len() - 1;
    lemma_runs_grow(b, q + 1, r);
    let small = close_runs(part)[r];
    let run = close_runs(b)[r];
    assert(small.contains(b[p]) && small.contains(b[q]));
    let u = choose|u: int| 0 <= u < small.len() && small[u] == b[p];
    let v = choose|v: int| 0 <= v < small.len() && small[v] == b[q];
    assert(run[u] == run.take(small.len() as int)[u]);
    assert(run[v] == run.take(small.len() as int)[v]);
    assert(run.contains(b[p]) && run.contains(b[q]));
    assert(close_runs(b).contains(run));
    lemma_filter_members(close_runs(b), |g: Seq<TrackInfo>| g.len() > 1, run);
    let all = groups_under(items, match_keys(items));
    lemma_group_is_under_its_key(items, match_keys(items), key, run);
    lemma_by_first_title();
    lemma_sort_members(all, by_first_title(), run);
    let dups = duplicates_by(items);
    let g = choose|g: int| 0 <= g < dups.len() && dups[g] == run;
    assert(dups[g].contains(s[i]) && dups[g].contains(s[j]));
}

/// What holds of the groups under some keys: each is a run of the tracks that match on one of the
/// keys.
proof fn lemma_group_comes_from_key(
    items: Seq<Keyed>,
    ks: Seq<(Seq<char>, Seq<char>)>,
    run: Seq<TrackInfo>,
) -> (key: (Seq<char>, Seq<char>))
    requires
        groups_under(items, ks).contains(run),
    ensures
        ks.contains(key),
        close_runs(matches_of(items, key)).contains(run),
        run.len() > 1,
    decreases ks.len(),
{
    let front = groups_under(items, ks.drop_last());
    let runs = close_runs(matches_of(items, ks.last()));
    let mine = several(runs);
    let all = groups_under(items, ks);
    let i = choose|i: int| 0 <= i < all.len() && all[i] == run;
    if i < front.len() {
        assert(front[i] == run);
        let key = lemma_group_comes_from_key(items, ks.drop_last(), run);
        let k = choose|k: int| 0 <= k < ks.drop_last().len() && ks.drop_last()[k] == key;
        assert(ks[k] == key);
        key
    } else {
        assert(mine[i - front.len()] == run);
        assert(mine.contains(run));
        lemma_filter_members(runs, |g: Seq<TrackInfo>| g.len() > 1, run);
        assert(ks[ks.len() - 1] == ks.last());
        ks.last()
    }
}

/// Every group has at least two tracks, all of them tracks of the index whose titles and artists
/// match, and from one to the next the length grows by no more than the tolerance.
pub proof fn law_groups_hold_close_matches(s: Seq<TrackInfo>, g: int)
    requires
        0 <= g < duplicates_by(keyed(s)).len(),
    ensures
        ({
            let group = duplicates_by(keyed(s))[g];
            &&& group.len() > 1
            &&& forall|m: int|
                #![trigger group[m]]
                0 <= m < group.len() ==> {
                    &&& s.contains(group[m])
                    &&& match_form(group[m].title).len() > 0
                    &&& match_form(group[m].title) == match_form(group[0].title)
                    &&& match_form(group[m].artist) == match_form(group[0].artist)
                    &&& m > 0 ==> group[m - 1].duration_seconds <= group[m].duration_seconds
                        <= group[m - 1].duration_seconds + 3
                }
        }),
{
    let items = keyed(s);
    let dups = duplicates_by(items);
    let run = dups[g];
    let all = groups_under(items, match_keys(items));
    lemma_by_first_title();
    lemma_sort_members(all, by_first_title(), run);
    assert(dups.contains(run));
    let key = lemma_group_comes_from_key(items, match_keys(items), run);
    let b = matches_of(items, key);
    let r = choose|r: int| 0 <= r < close_runs(b).len() && close_runs(b)[r] == run;
    let (lo, hi) = lemma_run_is_stretch(b, r);
    lemma_match_is_of_key(s, key, lo);
    assert(run[0] == b[lo]);
    assert forall|m: int| #![trigger run[m]] 0 <= m < run.len() implies {
        &&& s.contains(run[m])
        &&& match_form(run[m].title).len() > 0
        &&& match_form(run[m].title) == match_form(run[0].title)
        &&& match_form(run[m].artist) == match_form(run[0].artist)
        &&& m > 0 ==> run[m - 1].duration_seconds <= run[m].duration_seconds
            <= run[m - 1].duration_seconds + DURATION_TOLERANCE_SECS
    } by {
        lemma_match_is_of_key(s, key, lo + m);
        assert(run[m] == b[lo + m]);
        if m > 0 {
            assert(is_close(b[lo + m - 1], b[lo + m]));
            let ts = matchable(items).filter(having_key(keyed_by(), key)).map_values(
                |x: Keyed| x.1,
            );
            lemma_by_duration_orders();
            lemma_sort_members(ts, by_duration(), run[m]);
            lemma_sort_ascends(ts, by_duration(), lo + m - 1, lo + m);
            assert(run[m - 1] == b[lo + m - 1]);
        }
    }
}

/// Whether no two of the groups share a track.
pub open spec fn are_apart(groups: Seq<Seq<TrackInfo>>) -> bool {
    forall|g: int, h: int, t: TrackInfo|
        #![trigger groups[g].contains(t), groups[h].contains(t)]
        0 <= g < h < groups.len() ==> !(groups[g].contains(t) && groups[h].contains(t))
}

/// What is in a run is among the tracks.
proof fn lemma_run_is_from(b: Seq<TrackInfo>, r: int, t: TrackInfo)
    requires
        0 <= r < close_runs(b).len(),
        close_runs(b)[r].contains(t),
    ensures
        b.contains(t),
{
    let (lo, hi) = lemma_run_is_stretch(b, r);
    let run = close_runs(b)[r];
    let m = choose|m: int| 0 <= m < run.len() && run[m] == t;
    assert(b[lo + m] == t);
}

proof fn lemma_runs_are_apart(b: Seq<TrackInfo>)
    requires
        b.no_duplicates(),
    ensures
        are_apart(close_runs(b)),
    decreases b.len(),
{
    if b.len() > 0 {
        let front = b.drop_last();
        let before = close_runs(front);
        let runs = close_runs(b);
        assert(front.no_duplicates());
        lemma_runs_are_apart(front);
        if b.len() > 1 {
            lemma_runs_nonempty(front);
        }
        assert forall|g: int, h: int, t: TrackInfo|
            #![trigger runs[g].contains(t), runs[h].contains(t)]
            0 <= g < h < runs.len() implies !(runs[g].contains(t) && runs[h].contains(t)) by {
            if runs[g].contains(t) && runs[h].contains(t) {
                assert(runs[g] == before[g]);
                lemma_run_is_from(front, g, t);
                let k = choose|k: int| 0 <= k < front.len() && front[k] == t;
                assert(b[k] == t);
                assert(t != b.last());
                let m = choose|m: int| 0 <= m < runs[h].len() && runs[h][m] == t;
                if h < before.len() {
                    assert(before[h][m] == t);
                    assert(before[h].contains(t));
                }
            }
        }
    }
}

proof fn lemma_several_are_apart(runs: Seq<Seq<TrackInfo>>)
    requires
        are_apart(runs),
    ensures
        are_apart(several(runs)),
{
    let kept = several(runs);
    assert forall|g: int, h: int, t: TrackInfo|
        #![trigger kept[g].contains(t), kept[h].contains(t)]
        0 <= g < h < kept.len() implies !(kept[g].contains(t) && kept[h].contains(t)) by {
        let (k, l) = lemma_filter_from_two(runs, |x: Seq<TrackInfo>| x.len() > 1, g, h);
        assert(runs[k] == kept[g] && runs[l] == kept[h]);
    }
}

/// Among tracks with different ids, those that match on a key are all different.
proof fn lemma_matches_differ(s: Seq<TrackInfo>, key: (Seq<char>, Seq<char>))
    requires
        distinct_ids(s),
    ensures
        matches_of(keyed(s), key).no_duplicates(),
{
    let items = keyed(s);
    let ms = matchable(items);
    let mine = ms.filter(having_key(keyed_by(), key));
    let ts = mine.map_values(|x: Keyed| x.1);
    assert forall|i: int, j: int| 0 <= i < j < ts.len() implies (#[trigger] ts[i])
        != (#[trigger] ts[j]) by {
        let (k, l) = lemma_filter_from_two(ms, having_key(keyed_by(), key), i, j);
        let (a, b) = lemma_filter_from_two(items, |x: Keyed| x.0.0.len() > 0, k, l);
        assert(ts[i] == s[a] && ts[j] == s[b]);
    }
    lemma_by_duration_orders();
    let o = lemma_sort_rearranges(ts, by_duration());
    let b = matches_of(items, key);
    assert forall|i: int, j: int| 0 <= i < b.len() && 0 <= j < b.len() && i != j implies b[i]
        != b[j] by {
        assert(o[i] != o[j]);
        if o[i] < o[j] {
            assert(ts[o[i]] != ts[o[j]]);
        } else {
            assert(ts[o[j]] != ts[o[i]]);
        }
    }
}

proof fn lemma_groups_are_apart(s: Seq<TrackInfo>, ks: Seq<(Seq<char>, Seq<char>)>)
    requires
        distinct_ids(s),
        ks.no_duplicates(),
    ensures
        are_apart(groups_under(keyed(s), ks)),
    decreases ks.len(),
{
    if ks.len() > 0 {
        let items = keyed(s);
        let key = ks.last();
        let earlier = ks.drop_last();
        let front = groups_under(items, earlier);
        let b = matches_of(items, key);
        let mine = several(close_runs(b));
        let all = groups_under(items, ks);
        assert(earlier.no_duplicates());
        lemma_groups_are_apart(s, earlier);
        lemma_matches_differ(s, key);
        lemma_runs_are_apart(b);
        lemma_several_are_apart(close_runs(b));
        assert forall|g: int, h: int, t: TrackInfo|
            #![trigger all[g].contains(t), all[h].contains(t)]
            0 <= g < h < all.len() implies !(all[g].contains(t) && all[h].contains(t)) by {
            if h < front.len() {
                assert(all[g] == front[g] && all[h] == front[h]);
            } else {
                let there = h - front.len();
                assert(all[h] == mine[there]);
                if g >= front.len() {
                    assert(all[g] == mine[g - front.len()]);
                } else if all[g].contains(t) && all[h].contains(t) {
                    let first = front[g];
                    assert(front.contains(first));
                    let other = lemma_group_comes_from_key(items, earlier, first);
                    lemma_key_of_run_member(s, other, first, t);
                    let r = lemma_filter_from(
                        close_runs(b),
                        |x: Seq<TrackInfo>| x.len() > 1,
                        there,
                    );
                    assert(close_runs(b).contains(mine[there]));
                    lemma_key_of_run_member(s, key, mine[there], t);
                    let k = choose|k: int| 0 <= k < earlier.len() && earlier[k] == other;
                    assert(ks[k] == ks[ks.len() - 1]);
                }
            }
        }
    }
}

/// A track in a run of the tracks that match on a key is matched by that key.
proof fn lemma_key_of_run_member(
    s: Seq<TrackInfo>,
    key: (Seq<char>, Seq<char>),
    run: Seq<TrackInfo>,
    t: TrackInfo,
)
    requires
        close_runs(matches_of(keyed(s), key)).contains(run),
        run.contains(t),
    ensures
        key == (match_form(t.title), match_form(t.artist)),
{
    let b = matches_of(keyed(s), key);
    let r = choose|r: int| 0 <= r < close_runs(b).len() && close_runs(b)[r] == run;
    lemma_run_is_from(b, r, t);
    let n = choose|n: int| 0 <= n < b.len() && b[n] == t;
    lemma_match_is_of_key(s, key, n);
}

/// A track is in at most one group.
pub proof fn law_track_is_in_one_group_at_most(s: Seq<TrackInfo>, g: int, h: int, t: TrackInfo)
    requires
        distinct_ids(s),
        0 <= g < duplicates_by(keyed(s)).len(),
        0 <= h < duplicates_by(keyed(s)).len(),
        duplicates_by(keyed(s))[g].contains(t),
        duplicates_by(keyed(s))[h].contains(t),
    ensures
        g == h,
{
    let items = keyed(s);
    let ks = match_keys(items);
    let all = groups_under(items, ks);
    lemma_by_pair_total();
    lemma_sorted_keys(matchable(items).map_values(keyed_by()), by_pair());
    assert(ks.no_duplicates()) by {
        assert forall|i: int, j: int| 0 <= i < ks.len() && 0 <= j < ks.len() && i != j implies ks[i]
            != ks[j] by {
            if i < j {
                assert(by_pair()(ks[i], ks[j]));
            } else {
                assert(by_pair()(ks[j], ks[i]));
            }
        }
    }
    lemma_groups_are_apart(s, ks);
    lemma_by_first_title();
    let o = lemma_sort_rearranges(all, by_first_title());
    let dups = duplicates_by(items);
    assert(dups[g] == all[o[g]] && dups[h] == all[o[h]]);
    assert(all[o[g]].contains(t) && all[o[h]].contains(t));
}

/// A group holds no track twice.
pub proof fn law_group_holds_no_track_twice(s: Seq<TrackInfo>, g: int)
    requires
        distinct_ids(s),
        0 <= g < duplicates_by(keyed(s)).len(),
    ensures
        duplicates_by(keyed(s))[g].no_duplicates(),
{
    let items = keyed(s);
    let dups = duplicates_by(items);
    let run = dups[g];
    let all = groups_under(items, match_keys(items));
    lemma_by_first_title();
    lemma_sort_members(all, by_first_title(), run);
    assert(dups.contains(run));
    let key = lemma_group_comes_from_key(items, match_keys(items), run);
    let b = matches_of(items, key);
    let r = choose|r: int| 0 <= r < close_runs(b).len() && close_runs(b)[r] == run;
    let (lo, hi) = lemma_run_is_stretch(b, r);
    lemma_matches_differ(s, key);
    assert forall|i: int, j: int| 0 <= i < run.len() && 0 <= j < run.len() && i != j implies run[i]
        != run[j] by {
        assert(run[i] == b[lo + i] && run[j] == b[lo + j]);
    }
}

/// The groups come in the order of the titles of their first tracks.
pub proof fn law_groups_are_sorted(s: Seq<TrackInfo>, g: int, h: int)
    requires
        0 <= g < h < duplicates_by(keyed(s)).len(),
    ensures
        duplicates_by(keyed(s))[g].len() > 0,
        duplicates_by(keyed(s))[h].len() > 0,
        !text_lt(duplicates_by(keyed(s))[h][0].title, duplicates_by(keyed(s))[g][0].title),
{
    let all = groups_under(keyed(s), match_keys(keyed(s)));
    law_groups_hold_close_matches(s, g);
    law_groups_hold_close_matches(s, h);
    lemma_by_first_title();
    let places = lemma_sort_rearranges(all, by_first_title());
    lemma_sort_ascends(all, by_first_title(), g, h);
}

proof fn lemma_match_is_of_key(s: Seq<TrackInfo>, key: (Seq<char>, Seq<char>), n: int)
    requires
        0 <= n < matches_of(keyed(s), key).len(),
    ensures
        ({
            let t = matches_of(keyed(s), key)[n];
            s.contains(t) && key == (match_form(t.title), match_form(t.artist)) && key.0.len() > 0
        }),
{
    let items = keyed(s);
    let ms = matchable(items);
    let mine = ms.filter(having_key(keyed_by(), key));
    let ts = mine.map_values(|x: Keyed| x.1);
    let b = matches_of(items, key);
    let t = b[n];
    assert(b.contains(t));
    lemma_by_duration_orders();
    lemma_sort_members(ts, by_duration(), t);
    let k = choose|k: int| 0 <= k < ts.len() && ts[k] == t;
    let a = lemma_filter_from(ms, having_key(keyed_by(), key), k);
    let i = lemma_filter_from(items, |y: Keyed| y.0.0.len() > 0, a);
    assert(items[i] == mine[k]);
    assert(s[i] == t);
}

} // verus!
