//! The rate limit: so many requests of each client in each window of time.
use std::collections::HashMap;
use vstd::prelude::*;

verus! {

broadcast use vstd::std_specs::hash::group_hash_axioms;

/// The address of a client.
#[derive(Debug, Clone, Copy, PartialEq, Eq, Structural)]
pub enum ClientAddr {
    V4(u32),
    V6(u128),
}

/// The requests of a client in the window that began at its first one.
#[derive(Debug, Clone, Copy, PartialEq, Eq, Structural)]
pub struct Bucket {
    pub window_start: u64,
    pub count: u32,
}

/// Whether a request may go on.
#[derive(Debug, Clone, Copy, PartialEq, Eq, Structural)]
pub enum Decision {
    Allow,
    Deny { retry_after_secs: u64 },
}

/// How much later one time is than another; nothing where it is earlier.
pub open spec fn elapsed(from: u64, to: u64) -> nat {
    if to >= from {
        (to - from) as nat
    } else {
        0
    }
}

/// The bucket that a request falls into: a new one where the client has none or its window is
/// over.
pub open spec fn current(b: Option<Bucket>, now: u64, window: u64) -> Bucket {
    match b {
        Some(b) => if elapsed(b.window_start, now) >= window {
            Bucket { window_start: now, count: 0 }
        } else {
            b
        },
        None => Bucket { window_start: now, count: 0 },
    }
}

/// The whole seconds after which a window is over, one at least.
pub open spec fn seconds_left(b: Bucket, now: u64, window: u64) -> u64 {
    let left = (b.window_start + window - now + 999999999) / 1000000000;
    if left < 1 {
        1
    } else {
        left as u64
    }
}

/// What is decided on a request, and the bucket of the client after it.
pub open spec fn decided(max: u32, window: u64, b: Option<Bucket>, now: u64) -> (
    Decision,
    Bucket,
) {
    let c = current(b, now, window);
    if c.count >= max {
        (Decision::Deny { retry_after_secs: seconds_left(c, now, window) }, c)
    } else {
        (Decision::Allow, Bucket { window_start: c.window_start, count: (c.count + 1) as u32 })
    }
}

/// Counts the requests of each client, in windows of a fixed length. Times are in nanoseconds of
/// a clock that does not go backwards.
pub struct RateLimiter {
    max_requests: u32,
    window: u64,
    v4: HashMap<u128, Bucket>,
    v6: HashMap<u128, Bucket>,
}

/// The bucket under a key, where there is one.
pub open spec fn lookup(m: Map<u128, Bucket>, key: u128) -> Option<Bucket> {
    if m.contains_key(key) {
        Some(m[key])
    } else {
        None
    }
}

fn check_in(buckets: &mut HashMap<u128, Bucket>, key: u128, max: u32, window: u64, now: u64) -> (d:
    Decision)
    ensures
        d == decided(max, window, lookup(old(buckets)@, key), now).0,
        final(buckets)@ == old(buckets)@.insert(
            key,
            decided(max, window, lookup(old(buckets)@, key), now).1,
        ),
{
    let mut bucket = match buckets.get(&key) {
        Some(b) => *b,
        None => Bucket { window_start: now, count: 0 },
    };
    let passed: u64 = if now >= bucket.window_start {
        now - bucket.window_start
    } else {
        0
    };
    if passed >= window {
        bucket = Bucket { window_start: now, count: 0 };
    }
    if bucket.count >= max {
        let end: u128 = bucket.window_start as u128 + window as u128 + 999999999;
        let left: u64 = if end > now as u128 {
            ((end - now as u128) / 1000000000) as u64
        } else {
            0
        };
        buckets.insert(key, bucket);
        return Decision::Deny {
            retry_after_secs: if left < 1 {
                1
            } else {
                left
            },
        };
    }
    buckets.insert(key, Bucket { window_start: bucket.window_start, count: bucket.count + 1 });
    Decision::Allow
}

/// Whether a bucket is kept when old ones are dropped: its window began less than four windows
/// ago.
pub open spec fn is_fresh(b: Bucket, now: u64, window: u64) -> bool {
    elapsed(b.window_start, now) < window * 4
}

/// The buckets that are kept when old ones are dropped.
pub open spec fn fresh_only(m: Map<u128, Bucket>, now: u64, window: u64) -> Map<u128, Bucket> {
    m.restrict(Set::new(|k: u128| m.contains_key(k) && is_fresh(m[k], now, window)))
}

fn pruned(buckets: &HashMap<u128, Bucket>, now: u64, window: u64) -> (r: HashMap<u128, Bucket>)
    ensures
        r@ == fresh_only(buckets@, now, window),
{
    let mut r: HashMap<u128, Bucket> = HashMap::new();
    let ghost m = buckets@;
    for (k, b) in it: buckets.iter()
        invariant
            m == buckets@,
            it.seq().len() == m.dom().len(),
            forall|i: int|
                0 <= i < it.seq().len() ==> m.contains_key(*(#[trigger] it.seq()[i]).0)
                    && m[*it.seq()[i].0] == *it.seq()[i].1,
            forall|k: u128| #[trigger] m.contains_key(k) ==> it.seq().contains((&k, &m[k])),
            forall|k: u128| #[trigger]
                r@.contains_key(k) <==> m.contains_key(k) && is_fresh(m[k], now, window) && exists|
                    i: int,
                |
                    0 <= i < it.index() && *(#[trigger] it.seq()[i]).0 == k,
            forall|k: u128| #[trigger] r@.contains_key(k) ==> r@[k] == m[k],
    {
        let ghost n = it.index() as int;
        let ghost before = r@;
        assert(it.seq()[n] == (k, b));
        let start = b.window_start;
        let passed: u64 = if now >= start {
            now - start
        } else {
            0
        };
        if (passed as u128) < window as u128 * 4 {
            r.insert(*k, *b);
        }
        proof {
            assert forall|x: u128| #[trigger]
                r@.contains_key(x) <==> m.contains_key(x) && is_fresh(m[x], now, window) && exists|
                    i: int,
                |
                    0 <= i < n + 1 && *(#[trigger] it.seq()[i]).0 == x by {
                if before.contains_key(x) {
                    let i = choose|i: int| 0 <= i < n && *(#[trigger] it.seq()[i]).0 == x;
                    assert(*it.seq()[i].0 == x);
                }
                if m.contains_key(x) && is_fresh(m[x], now, window) && exists|i: int|
                    0 <= i < n + 1 && *(#[trigger] it.seq()[i]).0 == x {
                    let i = choose|i: int| 0 <= i < n + 1 && *(#[trigger] it.seq()[i]).0 == x;
                    if i < n {
                        assert(before.contains_key(x));
                    }
                }
            }
        }
    }
    assert(r@ =~= fresh_only(m, now, window)) by {
        assert forall|k: u128| #[trigger] r@.contains_key(k) <==> m.contains_key(k) && is_fresh(
            m[k],
            now,
            window,
        ) by {
        }
    }
    r
}

impl RateLimiter {
    /// How many requests a client has in each window; zero for no limit.
    pub closed spec fn max(self) -> u32 {
        self.max_requests
    }

    /// How long a window is, in nanoseconds.
    pub closed spec fn window(self) -> u64 {
        self.window
    }

    /// The bucket of a client, where it has one.
    pub closed spec fn bucket(self, client: ClientAddr) -> Option<Bucket> {
        match client {
            ClientAddr::V4(a) => lookup(self.v4@, a as u128),
            ClientAddr::V6(a) => lookup(self.v6@, a),
        }
    }

    /// A limit of so many requests in windows of so many nanoseconds.
    pub fn new(max_requests: u32, window_nanos: u64) -> (r: Self)
        ensures
            r.max() == max_requests,
            r.window() == window_nanos,
            forall|c: ClientAddr| #[trigger] r.bucket(c) is None,
    {
        RateLimiter {
            max_requests,
            window: window_nanos,
            v4: HashMap::new(),
            v6: HashMap::new(),
        }
    }

    /// Decides on a request of a client at the given time.
    pub fn check_at(&mut self, client: ClientAddr, now: u64) -> (d: Decision)
        ensures
            final(self).max() == old(self).max(),
            final(self).window() == old(self).window(),
            old(self).max() == 0 ==> d == Decision::Allow && final(self).bucket(client) == old(
                self,
            ).bucket(client),
            old(self).max() > 0 ==> (d, final(self).bucket(client)) == ({
                let (x, b) = decided(
                    old(self).max(),
                    old(self).window(),
                    old(self).bucket(client),
                    now,
                );
                (x, Some(b))
            }),
            forall|c: ClientAddr|
                c != client ==> #[trigger] final(self).bucket(c) == old(self).bucket(c),
    {
        if self.max_requests == 0 {
            return Decision::Allow;
        }
        match client {
            ClientAddr::V4(a) => check_in(
                &mut self.v4,
                a as u128,
                self.max_requests,
                self.window,
                now,
            ),
            ClientAddr::V6(a) => check_in(&mut self.v6, a, self.max_requests, self.window, now),
        }
    }

    /// Drops the buckets whose windows began long ago.
    pub fn prune_stale(&mut self, now: u64)
        ensures
            final(self).max() == old(self).max(),
            final(self).window() == old(self).window(),
            forall|c: ClientAddr| #[trigger]
                final(self).bucket(c) == match old(self).bucket(c) {
                    Some(b) => if is_fresh(b, now, old(self).window()) {
                        Some(b)
                    } else {
                        None
                    },
                    None => None,
                },
    {
        self.v4 = pruned(&self.v4, now, self.window);
        self.v6 = pruned(&self.v6, now, self.window);
    }
}

/// What is decided on the requests of a client at some times, one after the other.
pub open spec fn decisions(max: u32, window: u64, b: Option<Bucket>, times: Seq<u64>) -> Seq<
    Decision,
>
    decreases times.len(),
{
    if times.len() == 0 {
        Seq::empty()
    } else {
        decisions(max, window, b, times.drop_last()).push(
            decided(max, window, bucket_after(max, window, b, times.drop_last()), times.last()).0,
        )
    }
}

/// The bucket of a client after requests at some times.
pub open spec fn bucket_after(max: u32, window: u64, b: Option<Bucket>, times: Seq<u64>) -> Option<
    Bucket,
>
    decreases times.len(),
{
    if times.len() == 0 {
        b
    } else {
        Some(
            decided(
                max,
                window,
                bucket_after(max, window, b, times.drop_last()),
                times.last(),
            ).1,
        )
    }
}

/// Of the requests that a client makes in the window of its first one, just so many as the limit
/// are allowed: the first ones.
pub proof fn law_limit_holds_in_a_window(max: u32, window: u64, times: Seq<u64>, i: int)
    requires
        max > 0,
        0 <= i < times.len(),
        forall|k: int| 0 <= k < times.len() ==> (#[trigger] times[k]) < times[0] + window,
    ensures
        decisions(max, window, None, times).len() == times.len(),
        decisions(max, window, None, times)[i] == Decision::Allow <==> i < max,
{
    lemma_window(max, window, times, i + 1);
    lemma_decision_at(max, window, times, i);
    lemma_window(max, window, times, i);
    assert(times.take(i + 1).drop_last() =~= times.take(i));
}

proof fn lemma_decision_at(max: u32, window: u64, times: Seq<u64>, i: int)
    requires
        0 <= i < times.len(),
    ensures
        decisions(max, window, None, times).len() == times.len(),
        decisions(max, window, None, times)[i] == decided(
            max,
            window,
            bucket_after(max, window, None, times.take(i)),
            times[i],
        ).0,
    decreases times.len(),
{
    let front = times.drop_last();
    if i < front.len() {
        lemma_decision_at(max, window, front, i);
        assert(front.take(i) =~= times.take(i));
    } else {
        if front.len() > 0 {
            lemma_decision_at(max, window, front, 0);
        }
        assert(times.take(i) =~= front);
    }
}

proof fn lemma_window(max: u32, window: u64, times: Seq<u64>, n: int)
    requires
        max > 0,
        0 <= n <= times.len(),
        forall|k: int| 0 <= k < times.len() ==> (#[trigger] times[k]) < times[0] + window,
    ensures
        n > 0 ==> bucket_after(max, window, None, times.take(n)) == Some(
            Bucket {
                window_start: times[0],
                count: if n < max {
                    n as u32
                } else {
                    max
                },
            },
        ),
        n == 0 ==> bucket_after(max, window, None, times.take(n)) is None,
    decreases n,
{
    if n > 0 {
        lemma_window(max, window, times, n - 1);
        assert(times.take(n).drop_last() =~= times.take(n - 1));
        assert(times.take(n).last() == times[n - 1]);
        assert(times[n - 1] < times[0] + window);
    }
}

/// A client that is denied and waits as long as it is told is let in, and it is told to wait for
/// less than a second more than what is left of its window.
pub proof fn law_denied_client_is_let_in_again(
    max: u32,
    window: u64,
    b: Option<Bucket>,
    now: u64,
    retry_after_secs: u64,
)
    requires
        max > 0,
        decided(max, window, b, now).0 == (Decision::Deny { retry_after_secs }),
    ensures
        retry_after_secs >= 1,
        now + retry_after_secs * 1000000000 < decided(max, window, b, now).1.window_start + window
            + 1000000000,
        now + retry_after_secs * 1000000000 <= u64::MAX ==> decided(
            max,
            window,
            Some(decided(max, window, b, now).1),
            (now + retry_after_secs * 1000000000) as u64,
        ).0 == Decision::Allow,
{
}

/// Dropping an old bucket changes no decision from then on.
pub proof fn law_pruning_changes_no_decision(
    max: u32,
    window: u64,
    b: Bucket,
    now: u64,
    later: u64,
)
    requires
        !is_fresh(b, now, window),
        now <= later,
    ensures
        decided(max, window, None, later) == decided(max, window, Some(b), later),
{
}

/// A request that comes a window or more after the window of a client began is decided as the first
/// request of a client: it is allowed and begins a new window.
pub proof fn law_new_window_starts_afresh(max: u32, window: u64, b: Bucket, now: u64)
    requires
        max > 0,
        now >= b.window_start + window,
    ensures
        decided(max, window, Some(b), now) == decided(max, window, None, now),
        decided(max, window, None, now).0 == Decision::Allow,
        decided(max, window, None, now).1.window_start == now,
        decided(max, window, None, now).1.count == 1,
{
}

/// Within a window a client is allowed one request after the other until it has had as many as the
/// limit, each counts as one, and one that is denied counts as none; the window stays the same.
pub proof fn law_requests_are_counted(max: u32, window: u64, b: Bucket, now: u64)
    requires
        b.window_start <= now < b.window_start + window,
    ensures
        decided(max, window, Some(b), now).0 == Decision::Allow <==> b.count < max,
        b.count < max ==> decided(max, window, Some(b), now).1.count == b.count + 1,
        b.count >= max ==> decided(max, window, Some(b), now).1 == b,
        decided(max, window, Some(b), now).1.window_start == b.window_start,
{
}

/// What is dropped are the windows that began at least four windows ago; one that is not over is
/// always kept.
pub proof fn law_what_is_dropped(b: Bucket, now: u64, window: u64)
    requires
        window > 0,
    ensures
        !is_fresh(b, now, window) <==> now >= b.window_start && now - b.window_start >= 4 * window,
        now < b.window_start + window ==> is_fresh(b, now, window),
{
}

} // verus!
