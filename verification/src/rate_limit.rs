//! An in-memory fixed-window rate limiter.
//!
//! The limiter counts, per client key, the instants of the requests it has
//! admitted within the trailing window. A call first discards the instants
//! that have fallen out of the window, then admits the request exactly when
//! fewer than `max_requests` instants remain, recording the new instant only
//! on admission.
//!
//! Time is a plain number handed in by the caller, so a clock can be
//! simulated; the process clock, the lock that shares one limiter between
//! concurrent request handlers, and the 429 response on denial live with the
//! HTTP stack outside this crate. The limiter permits bursts of up to twice
//! `max_requests` across a window boundary; that is the accepted cost of the
//! fixed-window policy.

use vstd::prelude::*;
use vstd::string::StrSliceExecFns;

use crate::assoc::assoc_map;
use crate::assoc::find_key;
use crate::assoc::keys_distinct;
use crate::assoc::lemma_assoc_map_dom;
use crate::assoc::lemma_assoc_map_index;
use crate::assoc::lemma_assoc_map_push;
use crate::assoc::lemma_assoc_map_update;

verus! {

/// The instant `t` still lies within the window that ends at `now`.
pub open spec fn in_window(t: u64, now: u64, window: u64) -> bool {
    t + window > now
}

/// The instants of `h` that still lie within the window ending at `now`,
/// in their stored order.
pub open spec fn live(h: Seq<u64>, now: u64, window: u64) -> Seq<u64>
    decreases h.len(),
{
    if h.len() == 0 {
        Seq::empty()
    } else if in_window(h.last(), now, window) {
        live(h.drop_last(), now, window).push(h.last())
    } else {
        live(h.drop_last(), now, window)
    }
}

/// A call at `now` against history `h` is admitted.
pub open spec fn admitted(h: Seq<u64>, now: u64, window: u64, max: usize) -> bool {
    live(h, now, window).len() < max
}

/// The history after a call at `now`: expired instants are discarded, and
/// `now` is recorded exactly when the call is admitted.
pub open spec fn step(h: Seq<u64>, now: u64, window: u64, max: usize) -> Seq<u64> {
    if admitted(h, now, window, max) {
        live(h, now, window).push(now)
    } else {
        live(h, now, window)
    }
}

/// The history after calls at each instant of `times`, in order.
pub open spec fn run(h: Seq<u64>, times: Seq<u64>, window: u64, max: usize) -> Seq<u64>
    decreases times.len(),
{
    if times.len() == 0 {
        h
    } else {
        step(run(h, times.drop_last(), window, max), times.last(), window, max)
    }
}

/// Every one of the calls at the instants of `times`, made in order, is
/// admitted.
pub open spec fn all_admitted(h: Seq<u64>, times: Seq<u64>, window: u64, max: usize) -> bool
    decreases times.len(),
{
    times.len() == 0 || (all_admitted(h, times.drop_last(), window, max) && admitted(
        run(h, times.drop_last(), window, max),
        times.last(),
        window,
        max,
    ))
}

proof fn lemma_live_push(h: Seq<u64>, t: u64, now: u64, window: u64)
    ensures
        live(h.push(t), now, window) == (if in_window(t, now, window) {
            live(h, now, window).push(t)
        } else {
            live(h, now, window)
        }),
{
    assert(h.push(t).drop_last() =~= h);
    assert(h.push(t).last() == t);
}

/// Discarding at an earlier instant first never changes what a later
/// discard leaves: an instant inside the window at `t2` is inside it at
/// `t1 <= t2` as well.
proof fn lemma_live_compose(h: Seq<u64>, t1: u64, t2: u64, window: u64)
    requires
        t1 <= t2,
    ensures
        live(live(h, t1, window), t2, window) == live(h, t2, window),
    decreases h.len(),
{
    if h.len() > 0 {
        let d = h.drop_last();
        lemma_live_compose(d, t1, t2, window);
        if in_window(h.last(), t1, window) {
            lemma_live_push(live(d, t1, window), h.last(), t2, window);
        }
    }
}

proof fn lemma_live_expired_empty(h: Seq<u64>, now: u64, window: u64)
    requires
        forall|i: int| 0 <= i < h.len() ==> #[trigger] h[i] + window <= now,
    ensures
        live(h, now, window) == Seq::<u64>::empty(),
    decreases h.len(),
{
    if h.len() > 0 {
        let d = h.drop_last();
        assert forall|i: int| 0 <= i < d.len() implies #[trigger] d[i] + window <= now by {
            assert(d[i] == h[i]);
        }
        lemma_live_expired_empty(d, now, window);
        assert(h.last() == h[h.len() - 1]);
    }
}

/// While every admitted instant still lies inside the window ending at
/// `now`, the live history after a run of admitted calls is the prior live
/// history followed by exactly those instants.
pub proof fn lemma_live_of_run(h: Seq<u64>, times: Seq<u64>, now: u64, window: u64, max: usize)
    requires
        forall|i: int| 0 <= i < times.len() ==> #[trigger] times[i] <= now,
        forall|i: int| 0 <= i < times.len() ==> in_window(#[trigger] times[i], now, window),
        all_admitted(h, times, window, max),
    ensures
        live(run(h, times, window, max), now, window) == live(h, now, window) + times,
    decreases times.len(),
{
    if times.len() == 0 {
        assert(live(h, now, window) + times =~= live(h, now, window));
    } else {
        let ts = times.drop_last();
        let t = times.last();
        assert forall|i: int| 0 <= i < ts.len() implies #[trigger] ts[i] <= now && in_window(
            ts[i],
            now,
            window,
        ) by {
            assert(ts[i] == times[i]);
        }
        lemma_live_of_run(h, ts, now, window, max);
        let r = run(h, ts, window, max);
        lemma_live_push(live(r, t, window), t, now, window);
        lemma_live_compose(r, t, now, window);
        assert(in_window(t, now, window));
        assert((live(h, now, window) + ts).push(t) =~= live(h, now, window) + times);
    }
}

proof fn lemma_live_in_window(h: Seq<u64>, now: u64, window: u64)
    ensures
        forall|i: int|
            0 <= i < live(h, now, window).len() ==> in_window(
                #[trigger] live(h, now, window)[i],
                now,
                window,
            ),
    decreases h.len(),
{
    if h.len() > 0 {
        lemma_live_in_window(h.drop_last(), now, window);
        let l = live(h, now, window);
        let d = live(h.drop_last(), now, window);
        assert forall|i: int| 0 <= i < l.len() implies in_window(#[trigger] l[i], now, window) by {
            if in_window(h.last(), now, window) {
                if i < l.len() - 1 {
                    assert(l[i] == d[i]);
                } else {
                    assert(l[i] == h.last());
                }
            } else {
                assert(l[i] == d[i]);
            }
        }
    }
}

/// The store stays fresh: right after a call at `now`, every instant kept
/// for the key lies within the window ending at `now`.
pub proof fn lemma_history_fresh_after_call(h: Seq<u64>, now: u64, window: u64, max: usize)
    requires
        window >= 1,
    ensures
        forall|i: int|
            0 <= i < step(h, now, window, max).len() ==> in_window(
                #[trigger] step(h, now, window, max)[i],
                now,
                window,
            ),
{
    lemma_live_in_window(h, now, window);
}

/// After `max` admitted calls for one key inside a single window, a further
/// call for that key inside the same window is denied.
pub proof fn lemma_quota_exhausted(h: Seq<u64>, times: Seq<u64>, now: u64, window: u64, max: usize)
    requires
        times.len() == max,
        forall|i: int| 0 <= i < times.len() ==> #[trigger] times[i] <= now,
        forall|i: int| 0 <= i < times.len() ==> in_window(#[trigger] times[i], now, window),
        all_admitted(h, times, window, max),
    ensures
        !admitted(run(h, times, window, max), now, window, max),
{
    lemma_live_of_run(h, times, now, window, max);
}

/// Once every stored instant of a key has fallen out of the window, the
/// next call for it is admitted again.
pub proof fn lemma_window_elapsed_admits(h: Seq<u64>, now: u64, window: u64, max: usize)
    requires
        max >= 1,
        forall|i: int| 0 <= i < h.len() ==> #[trigger] h[i] + window <= now,
    ensures
        admitted(h, now, window, max),
{
    lemma_live_expired_empty(h, now, window);
}

proof fn lemma_all_admitted_fresh(
    h: Seq<u64>,
    times: Seq<u64>,
    window: u64,
    max: usize,
    k: int,
)
    requires
        times.len() <= max,
        forall|i: int, j: int| 0 <= i <= j < times.len() ==> times[i] <= times[j],
        times.len() > 0 ==> forall|i: int|
            0 <= i < times.len() ==> in_window(#[trigger] times[i], times.last(), window),
        forall|i: int| 0 <= i < h.len() ==> times.len() > 0 && #[trigger] h[i] + window <= times[0],
        0 <= k <= times.len(),
    ensures
        all_admitted(h, times.take(k), window, max),
    decreases k,
{
    if k > 0 {
        lemma_all_admitted_fresh(h, times, window, max, k - 1);
        let p = times.take(k);
        assert(p.drop_last() =~= times.take(k - 1));
        assert(p.last() == times[k - 1]);
        let t = times[k - 1];
        assert forall|i: int| 0 <= i < p.drop_last().len() implies #[trigger] p.drop_last()[i]
            <= t && in_window(p.drop_last()[i], t, window) by {
            assert(p.drop_last()[i] == times[i]);
            assert(times[i] <= times[k - 1]);
            assert(times[k - 1] <= times.last());
            assert(in_window(times[i], times.last(), window));
        }
        lemma_live_of_run(h, p.drop_last(), t, window, max);
        assert forall|i: int| 0 <= i < h.len() implies #[trigger] h[i] + window <= t by {
            assert(h[i] + window <= times[0]);
            assert(times[0] <= times[k - 1]);
        }
        lemma_live_expired_empty(h, t, window);
        assert(live(run(h, p.drop_last(), window, max), t, window) =~= p.drop_last());
        assert(p.drop_last().len() == k - 1 < max);
    }
}

/// From a state whose every stored instant for the key has expired, the
/// following `max` calls inside one window are all admitted, and one more
/// call inside that window is then denied: exactly the quota is granted
/// afresh.
pub proof fn lemma_fresh_window_quota(
    h: Seq<u64>,
    times: Seq<u64>,
    now: u64,
    window: u64,
    max: usize,
)
    requires
        times.len() == max,
        max >= 1,
        forall|i: int, j: int| 0 <= i <= j < times.len() ==> times[i] <= times[j],
        forall|i: int| 0 <= i < h.len() ==> #[trigger] h[i] + window <= times[0],
        forall|i: int| 0 <= i < times.len() ==> #[trigger] times[i] <= now,
        forall|i: int| 0 <= i < times.len() ==> in_window(#[trigger] times[i], now, window),
    ensures
        all_admitted(h, times, window, max),
        !admitted(run(h, times, window, max), now, window, max),
{
    assert forall|i: int| 0 <= i < times.len() implies in_window(
        #[trigger] times[i],
        times.last(),
        window,
    ) by {
        assert(times.last() <= now);
        assert(in_window(times[i], now, window));
    }
    lemma_all_admitted_fresh(h, times, window, max, times.len() as int);
    assert(times.take(times.len() as int) =~= times);
    lemma_quota_exhausted(h, times, now, window, max);
}

/// A denied call only discards expired instants: the live history is left
/// as it stands, and a repeated call under the same conditions is denied
/// again and changes nothing.
pub proof fn lemma_denied_call_stable(h: Seq<u64>, now: u64, window: u64, max: usize)
    requires
        !admitted(h, now, window, max),
    ensures
        step(h, now, window, max) == live(h, now, window),
        !admitted(step(h, now, window, max), now, window, max),
        step(step(h, now, window, max), now, window, max) == step(h, now, window, max),
{
    lemma_live_compose(h, now, now, window);
}

/// A call for one key neither changes another key's history nor any later
/// admission decision for it.
pub proof fn lemma_distinct_keys_independent(
    pre: RateLimit,
    post: RateLimit,
    key: Seq<char>,
    now: u64,
    allowed: bool,
    other: Seq<char>,
    later: u64,
)
    requires
        RateLimit::check_transition(pre, post, key, now, allowed),
        other != key,
    ensures
        post.hist(other) == pre.hist(other),
        admitted(post.hist(other), later, post.spec_window(), post.spec_max()) == admitted(
            pre.hist(other),
            later,
            pre.spec_window(),
            pre.spec_max(),
        ),
{
}

/// The characters of `s` before its first comma.
pub open spec fn first_token(s: Seq<char>) -> Seq<char>
    decreases s.len(),
{
    if s.len() == 0 {
        Seq::empty()
    } else if s[0] == ',' {
        Seq::empty()
    } else {
        seq![s[0]] + first_token(s.drop_first())
    }
}

proof fn lemma_first_token_take(s: Seq<char>, i: int)
    requires
        0 <= i <= s.len(),
        forall|j: int| 0 <= j < i ==> s[j] != ',',
        i == s.len() || s[i] == ',',
    ensures
        first_token(s) == s.take(i),
    decreases s.len(),
{
    if i == 0 {
        assert(s.take(0) =~= Seq::<char>::empty());
    } else {
        let d = s.drop_first();
        assert forall|j: int| 0 <= j < i - 1 implies d[j] != ',' by {
            assert(d[j] == s[j + 1]);
        }
        if i < s.len() {
            assert(d[i - 1] == s[i]);
        }
        lemma_first_token_take(d, i - 1);
        assert(seq![s[0]] + d.take(i - 1) =~= s.take(i));
    }
}

/// Derive the rate-limit key from the client-supplied forwarded-address
/// header: the first comma-separated token when the header is present and
/// readable, the shared sentinel `unknown` otherwise. The key is
/// attacker-controllable; without a trusted proxy in front this is a known
/// limitation of header-based keying.
pub fn client_key<'a>(forwarded: Option<&'a str>) -> (r: &'a str)
    ensures
        forwarded is Some ==> r@ == first_token(forwarded->0@),
        forwarded is None ==> r@ == "unknown"@,
{
    match forwarded {
        Some(h) => {
            let n = h.unicode_len();
            let mut i: usize = 0;
            while i < n
                invariant
                    forwarded == Some(h),
                    i <= n,
                    n == h@.len(),
                    forall|j: int| 0 <= j < i ==> h@[j] != ',',
                decreases n - i,
            {
                if h.get_char(i) == ',' {
                    proof {
                        lemma_first_token_take(h@, i as int);
                        assert(h@.subrange(0, i as int) =~= h@.take(i as int));
                    }
                    return h.substring_char(0, i);
                }
                i = i + 1;
            }
            proof {
                lemma_first_token_take(h@, n as int);
                assert(h@.take(n as int) =~= h@);
            }
            h
        },
        None => "unknown",
    }
}

/// A simple in-memory rate limiter.
///
/// At most `max_requests` requests per client key are admitted within any
/// one trailing window.
pub struct RateLimit {
    max_requests: usize,
    window: u64,
    store: Vec<(String, Vec<u64>)>,
}

impl RateLimit {
    /// The admission bound supplied at construction.
    pub closed spec fn spec_max(self) -> usize {
        self.max_requests
    }

    /// The window length supplied at construction.
    pub closed spec fn spec_window(self) -> u64 {
        self.window
    }

    /// The stored histories, keyed by client key.
    pub closed spec fn histories(self) -> Map<Seq<char>, Seq<u64>> {
        assoc_map(self.store@)
    }

    /// The stored history of one key; empty for a key never admitted.
    pub open spec fn hist(self, k: Seq<char>) -> Seq<u64> {
        if self.histories().contains_key(k) {
            self.histories()[k]
        } else {
            Seq::empty()
        }
    }

    #[verifier::type_invariant]
    spec fn wf(self) -> bool {
        keys_distinct(self.store@) && self.max_requests >= 1 && self.window >= 1
    }

    /// Create a rate limiter that admits at most `max_requests` requests per
    /// key within a window of `window` time units. Both bounds must be
    /// positive; a zero bound is a configuration error to be rejected at
    /// startup.
    pub fn new(max_requests: usize, window: u64) -> (r: Self)
        requires
            max_requests >= 1,
            window >= 1,
        ensures
            r.spec_max() == max_requests,
            r.spec_window() == window,
            r.histories() == Map::<Seq<char>, Seq<u64>>::empty(),
    {
        RateLimit { max_requests, window, store: Vec::new() }
    }

    /// What one call of [`Self::check_rate_limit`] did: the configuration is
    /// unchanged, the key's history stepped, every other key's history kept.
    pub open spec fn check_transition(
        pre: Self,
        post: Self,
        key: Seq<char>,
        now: u64,
        allowed: bool,
    ) -> bool {
        &&& post.spec_max() == pre.spec_max()
        &&& post.spec_window() == pre.spec_window()
        &&& allowed == admitted(pre.hist(key), now, pre.spec_window(), pre.spec_max())
        &&& post.hist(key) == step(pre.hist(key), now, pre.spec_window(), pre.spec_max())
        &&& forall|k: Seq<char>| k != key ==> #[trigger] post.hist(k) == pre.hist(k)
    }

    /// Decide whether a request for `key` at instant `now` is admitted, and
    /// record the instant when it is. Denied requests are not recorded.
    pub fn check_rate_limit(&mut self, key: &str, now: u64) -> (allowed: bool)
        ensures
            Self::check_transition(*old(self), *final(self), key@, now, allowed),
    {
        proof {
            use_type_invariant(&*self);
        }
        let ghost pre = *self;
        let mut store: Vec<(String, Vec<u64>)> = Vec::new();
        core::mem::swap(&mut store, &mut self.store);
        let ghost store0 = store@;

        let idx: usize;
        match find_key(&store, key) {
            Some(j) => {
                idx = j;
                proof {
                    lemma_assoc_map_index(store0, idx as int);
                }
            },
            None => {
                let fresh: Vec<u64> = Vec::new();
                store.push((key.to_owned(), fresh));
                idx = store.len() - 1;
                proof {
                    lemma_assoc_map_dom(store0, key@);
                    lemma_assoc_map_push(store0, store@.last());
                }
            },
        }
        // In both branches the entry at idx carries key@ and the history
        // pre.hist(key@), and every other key's mapping is unchanged.
        proof {
            assert(store@[idx as int].0@ == key@);
            assert(store@[idx as int].1@ == pre.hist(key@));
            assert(keys_distinct(store@));
            assert(forall|k: Seq<char>|
                k != key@ ==> #[trigger] assoc_map(store@).contains_key(k) == assoc_map(
                    store0,
                ).contains_key(k));
            assert(forall|k: Seq<char>|
                k != key@ && assoc_map(store@).contains_key(k) ==> #[trigger] assoc_map(
                    store@,
                )[k] == assoc_map(store0)[k]);
        }
        let ghost h = store@[idx as int].1@;
        let ghost store1 = store@;

        // Discard the instants that have fallen out of the window.
        let mut kept: Vec<u64> = Vec::new();
        let mut i: usize = 0;
        while i < store[idx].1.len()
            invariant
                idx < store@.len(),
                store@ == store1,
                self.window >= 1,
                i <= h.len(),
                h == store@[idx as int].1@,
                kept@ == live(h.take(i as int), now, self.window),
            decreases h.len() - i,
        {
            let t = store[idx].1[i];
            proof {
                assert(h.take(i + 1).drop_last() =~= h.take(i as int));
                assert(h.take(i + 1).last() == h[i as int]);
            }
            if t >= now || now - t < self.window {
                proof {
                    assert(in_window(t, now, self.window));
                }
                kept.push(t);
            } else {
                proof {
                    assert(!in_window(t, now, self.window));
                }
            }
            i = i + 1;
        }
        proof {
            assert(h.take(h.len() as int) =~= h);
        }

        // Admit when the live count is under the bound, recording the call.
        let allowed = kept.len() < self.max_requests;
        if allowed {
            kept.push(now);
        }

        // Write the pruned (and possibly extended) history back.
        let prior = store.remove(idx);
        let entry = (prior.0, kept);
        store.insert(idx, entry);
        proof {
            assert(store@ =~= store1.update(idx as int, entry));
            lemma_assoc_map_update(store1, idx as int, entry);
        }
        self.store = store;
        proof {
            assert(self.hist(key@) == step(pre.hist(key@), now, pre.spec_window(), pre.spec_max()));
            assert forall|k: Seq<char>| k != key@ implies #[trigger] self.hist(k) == pre.hist(
                k,
            ) by {
                assert(assoc_map(store1.update(idx as int, entry)) == assoc_map(store1).insert(
                    key@,
                    entry.1@,
                ));
            }
        }
        allowed
    }
}

} // verus!
