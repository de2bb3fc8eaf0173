//! Per-key token buckets that limit how many messages a group or a direct
//! conversation may trigger within a cooldown window.
use vstd::prelude::*;

verus! {

/// `std::time::Instant`, carried as an opaque value.
#[verifier::external_type_specification]
#[verifier::external_body]
pub struct ExInstant(std::time::Instant);

/// Reads the monotonic clock (`Instant::now`).
#[verifier::external_body]
fn instant_now() -> (t: std::time::Instant) {
    std::time::Instant::now()
}

/// The time elapsed since `origin` (`Instant::elapsed`). Nothing is stated
/// of it: it is a reading of the clock.
#[verifier::external_body]
fn instant_elapsed(origin: &std::time::Instant) -> (d: std::time::Duration) {
    origin.elapsed()
}

/// A duration in whole nanoseconds (`Duration::as_nanos`). Nothing is stated
/// of the value: durations are opaque here, and the limiter reads any value
/// as a clock reading.
#[verifier::external_body]
fn duration_as_nanos(d: &std::time::Duration) -> (n: u128) {
    d.as_nanos()
}

pub const NANOS_PER_SEC: u128 = 1_000_000_000;

/// One bucket: the key it limits, the time of its last refill (nanoseconds
/// since the limiter was made), and the tokens left.
pub struct Bucket {
    key: String,
    last_reset: u128,
    tokens: u32,
}

/// Token-bucket rate limiter keyed by group id or sender uuid.
pub struct RateLimiter {
    max_messages: u32,
    cooldown_seconds: u64,
    buckets: Vec<Bucket>,
    /// The instant the clock readings count from.
    origin: std::time::Instant,
    /// The latest clock reading used (nanoseconds since `origin`).
    last_now: u128,
}

/// No key holds more tokens than the limit.
pub open spec fn tokens_within(m: Map<Seq<char>, (u128, u32)>, max: u32) -> bool {
    forall|k: Seq<char>| #[trigger] m.contains_key(k) ==> m[k].1 <= max
}

/// A check never gives a key more tokens than the limit.
pub proof fn law_tokens_never_exceed_limit(
    m: Map<Seq<char>, (u128, u32)>,
    max: u32,
    cooldown: u64,
    key: Seq<char>,
    now: u128,
)
    requires
        tokens_within(m, max),
    ensures
        tokens_within(step(m, max, cooldown, key, now).1, max),
{
    let m2 = step(m, max, cooldown, key, now).1;
    assert forall|k: Seq<char>| #[trigger] m2.contains_key(k) implies m2[k].1 <= max by {
        if k != key {
            assert(m.contains_key(k));
        }
    }
}

/// The bucket state of `k` in `bs`: the first bucket with that key.
pub closed spec fn lookup(bs: Seq<Bucket>, k: Seq<char>) -> Option<(u128, u32)>
    decreases bs.len(),
{
    if bs.len() == 0 {
        None
    } else if bs[0].key@ == k {
        Some((bs[0].last_reset, bs[0].tokens))
    } else {
        lookup(bs.skip(1), k)
    }
}

/// Whole seconds between two clock readings, zero when `now` is earlier
/// (`Instant::duration_since` saturates, then `Duration::as_secs`).
pub open spec fn elapsed_secs(now: u128, earlier: u128) -> int {
    if now >= earlier {
        (now - earlier) / (NANOS_PER_SEC as int)
    } else {
        0
    }
}

/// One check of `key` at time `now` against the bucket map `m`: whether the
/// message is allowed, and the bucket map afterwards. A key seen for the
/// first time starts full at `now`; a bucket whose cooldown has run out is
/// refilled at `now`; an allowed message takes one token.
pub open spec fn step(
    m: Map<Seq<char>, (u128, u32)>,
    max: u32,
    cooldown: u64,
    key: Seq<char>,
    now: u128,
) -> (bool, Map<Seq<char>, (u128, u32)>) {
    let (l, t) = if m.contains_key(key) { m[key] } else { (now, max) };
    let (l2, t2) = if elapsed_secs(now, l) >= cooldown { (now, max) } else { (l, t) };
    if t2 > 0 {
        (true, m.insert(key, (l2, (t2 - 1) as u32)))
    } else {
        (false, m.insert(key, (l2, t2)))
    }
}

/// Checks of `key` at each time in `times`, in order, from bucket map `m`:
/// how many were allowed, and the bucket map afterwards.
pub open spec fn run_key_checks(
    m: Map<Seq<char>, (u128, u32)>,
    max: u32,
    cooldown: u64,
    key: Seq<char>,
    times: Seq<u128>,
) -> (nat, Map<Seq<char>, (u128, u32)>)
    decreases times.len(),
{
    if times.len() == 0 {
        (0, m)
    } else {
        let (count, m1) = run_key_checks(m, max, cooldown, key, times.drop_last());
        let (allowed, m2) = step(m1, max, cooldown, key, times.last());
        (count + if allowed { 1nat } else { 0nat }, m2)
    }
}

/// The start of the window that a run of checks on `key` falls in: the last
/// refill of its bucket, or the first check if the key is new.
pub open spec fn window_start(m: Map<Seq<char>, (u128, u32)>, key: Seq<char>, first: u128) -> u128 {
    if m.contains_key(key) {
        m[key].0
    } else {
        first
    }
}

/// The tokens a key has at the start of that window.
pub open spec fn window_tokens(m: Map<Seq<char>, (u128, u32)>, max: u32, key: Seq<char>) -> u32 {
    if m.contains_key(key) {
        m[key].1
    } else {
        max
    }
}

/// Within one cooldown window a key is allowed exactly as many messages as
/// it had tokens at the window's start, and never more than the limit: every
/// check in the window either takes a token or is refused.
pub proof fn law_window_limit(
    m: Map<Seq<char>, (u128, u32)>,
    max: u32,
    cooldown: u64,
    key: Seq<char>,
    times: Seq<u128>,
)
    requires
        times.len() > 0,
        m.contains_key(key) ==> m[key].1 <= max,
        forall|i: int|
            0 <= i < times.len() ==> window_start(m, key, times[0]) <= #[trigger] times[i]
                && elapsed_secs(times[i], window_start(m, key, times[0])) < cooldown,
    ensures
        run_key_checks(m, max, cooldown, key, times).0 <= window_tokens(m, max, key) <= max,
        run_key_checks(m, max, cooldown, key, times).0 == min_nat(
            times.len(),
            window_tokens(m, max, key) as nat,
        ),
    decreases times.len(),
{
    lemma_window_run(m, max, cooldown, key, times);
}

/// Checking one key leaves every other key's bucket as it was.
pub proof fn law_keys_independent(
    m: Map<Seq<char>, (u128, u32)>,
    max: u32,
    cooldown: u64,
    key: Seq<char>,
    other: Seq<char>,
    now: u128,
)
    requires
        other != key,
    ensures
        step(m, max, cooldown, key, now).1.contains_key(other) == m.contains_key(other),
        m.contains_key(other) ==> step(m, max, cooldown, key, now).1[other] == m[other],
{
}

/// Once at least `cooldown` seconds' worth of nanoseconds have passed since a
/// key's last refill, its next check is allowed (when the limit is not zero),
/// whatever tokens it had left.
pub proof fn law_refill_after_cooldown_nanos(
    m: Map<Seq<char>, (u128, u32)>,
    max: u32,
    cooldown: u64,
    key: Seq<char>,
    now: u128,
)
    requires
        max > 0,
        m.contains_key(key),
        now >= m[key].0 + cooldown * 1_000_000_000,
    ensures
        step(m, max, cooldown, key, now).0,
{
    let l = m[key].0;
    assert((now - l) / 1_000_000_000 >= cooldown) by (nonlinear_arith)
        requires
            now - l >= cooldown * 1_000_000_000,
    ;
}

/// Once a key's cooldown has run out, its next message is allowed again
/// (provided the limit is not zero), and its bucket restarts full, less that
/// message.
pub proof fn law_refill_after_cooldown(
    m: Map<Seq<char>, (u128, u32)>,
    max: u32,
    cooldown: u64,
    key: Seq<char>,
    now: u128,
)
    requires
        max > 0,
        m.contains_key(key),
        elapsed_secs(now, m[key].0) >= cooldown,
    ensures
        step(m, max, cooldown, key, now).0,
        step(m, max, cooldown, key, now).1[key] == (now, (max - 1) as u32),
{
}

/// A key seen for the first time is allowed (provided the limit is not
/// zero).
pub proof fn law_new_key_allowed(
    m: Map<Seq<char>, (u128, u32)>,
    max: u32,
    cooldown: u64,
    key: Seq<char>,
    now: u128,
)
    requires
        max > 0,
        !m.contains_key(key),
    ensures
        step(m, max, cooldown, key, now).0,
{
}

/// The window that the last of a run of checks on one key falls in, for a
/// key that had no bucket before the run: its start, and how many of the
/// checks fall in it (the last one included). The first check starts a
/// window; a later check starts a new one when at least `cooldown` whole
/// seconds have passed since the current window started.
pub open spec fn window_of(cooldown: u64, times: Seq<u128>) -> (u128, nat)
    decreases times.len(),
{
    if times.len() == 0 {
        (0, 0)
    } else if times.len() == 1 {
        (times[0], 1)
    } else {
        let (w, n) = window_of(cooldown, times.drop_last());
        if elapsed_secs(times.last(), w) >= cooldown {
            (times.last(), 1)
        } else {
            (w, n + 1)
        }
    }
}

/// After a run of checks on a key that had no bucket, the key's bucket
/// starts at the current window and holds the limit less the checks in it.
proof fn lemma_window_bucket(
    m: Map<Seq<char>, (u128, u32)>,
    max: u32,
    cooldown: u64,
    key: Seq<char>,
    times: Seq<u128>,
)
    requires
        !m.contains_key(key),
        times.len() >= 1,
    ensures
        run_key_checks(m, max, cooldown, key, times).1.contains_key(key),
        run_key_checks(m, max, cooldown, key, times).1[key] == (
            window_of(cooldown, times).0,
            (max - min_nat(window_of(cooldown, times).1, max as nat)) as u32,
        ),
    decreases times.len(),
{
    if times.len() == 1 {
        assert(times.drop_last() =~= Seq::<u128>::empty());
        assert(times.last() == times[0]);
    } else {
        lemma_window_bucket(m, max, cooldown, key, times.drop_last());
    }
}

/// Every check of one key is allowed exactly when it is among the first
/// `max` checks of its window, over any number of windows: the law is
/// stated for the last check of a run, and every check is the last of the
/// run that ends with it.
pub proof fn law_check_allowed_within_window(
    m: Map<Seq<char>, (u128, u32)>,
    max: u32,
    cooldown: u64,
    key: Seq<char>,
    times: Seq<u128>,
)
    requires
        !m.contains_key(key),
        times.len() >= 1,
    ensures
        step(
            run_key_checks(m, max, cooldown, key, times.drop_last()).1,
            max,
            cooldown,
            key,
            times.last(),
        ).0 == (window_of(cooldown, times).1 <= max),
{
    if times.len() == 1 {
        assert(times.drop_last() =~= Seq::<u128>::empty());
        assert(times.last() == times[0]);
    } else {
        let init = times.drop_last();
        lemma_window_bucket(m, max, cooldown, key, init);
        assert(init.len() >= 1);
    }
}

/// Checks at each (key, time) in order, from bucket map `m`: whether each
/// was allowed, and the bucket map afterwards.
pub open spec fn run_calls(
    m: Map<Seq<char>, (u128, u32)>,
    max: u32,
    cooldown: u64,
    calls: Seq<(Seq<char>, u128)>,
) -> (Seq<bool>, Map<Seq<char>, (u128, u32)>)
    decreases calls.len(),
{
    if calls.len() == 0 {
        (Seq::empty(), m)
    } else {
        let (rs, m1) = run_calls(m, max, cooldown, calls.drop_last());
        let (ok, m2) = step(m1, max, cooldown, calls.last().0, calls.last().1);
        (rs.push(ok), m2)
    }
}

/// The calls for key `k`, in order.
pub open spec fn calls_for(calls: Seq<(Seq<char>, u128)>, k: Seq<char>) -> Seq<(Seq<char>, u128)>
    decreases calls.len(),
{
    if calls.len() == 0 {
        Seq::empty()
    } else if calls.last().0 == k {
        calls_for(calls.drop_last(), k).push(calls.last())
    } else {
        calls_for(calls.drop_last(), k)
    }
}

/// The results of the calls for key `k`, in order.
pub open spec fn results_for(calls: Seq<(Seq<char>, u128)>, rs: Seq<bool>, k: Seq<char>) -> Seq<
    bool,
>
    decreases calls.len(),
{
    if calls.len() == 0 {
        Seq::empty()
    } else if calls.last().0 == k {
        results_for(calls.drop_last(), rs.drop_last(), k).push(rs.last())
    } else {
        results_for(calls.drop_last(), rs.drop_last(), k)
    }
}

/// A key's results and bucket after a run of calls are those of the run of
/// that key's calls alone.
proof fn lemma_run_calls_for(
    m: Map<Seq<char>, (u128, u32)>,
    max: u32,
    cooldown: u64,
    calls: Seq<(Seq<char>, u128)>,
    k: Seq<char>,
)
    ensures
        run_calls(m, max, cooldown, calls).0.len() == calls.len(),
        results_for(calls, run_calls(m, max, cooldown, calls).0, k) == run_calls(
            m,
            max,
            cooldown,
            calls_for(calls, k),
        ).0,
        run_calls(m, max, cooldown, calls).1.contains_key(k) == run_calls(
            m,
            max,
            cooldown,
            calls_for(calls, k),
        ).1.contains_key(k),
        run_calls(m, max, cooldown, calls).1.contains_key(k) ==> run_calls(
            m,
            max,
            cooldown,
            calls_for(calls, k),
        ).1[k] == run_calls(m, max, cooldown, calls).1[k],
    decreases calls.len(),
{
    if calls.len() > 0 {
        let init = calls.drop_last();
        lemma_run_calls_for(m, max, cooldown, init, k);
        let r = run_calls(m, max, cooldown, calls);
        let r0 = run_calls(m, max, cooldown, init);
        assert(r.0.drop_last() =~= r0.0);
        if calls.last().0 == k {
            let f = calls_for(calls, k);
            assert(f.drop_last() =~= calls_for(init, k));
            assert(f.last() == calls.last());
        }
    }
}

/// Each key has its own allowance: two runs of calls that make the same
/// calls for a key, at the same times, give that key the same results and
/// the same bucket, however their calls for other keys differ.
pub proof fn law_keys_independent_over_runs(
    m: Map<Seq<char>, (u128, u32)>,
    max: u32,
    cooldown: u64,
    calls1: Seq<(Seq<char>, u128)>,
    calls2: Seq<(Seq<char>, u128)>,
    k: Seq<char>,
)
    requires
        calls_for(calls1, k) == calls_for(calls2, k),
    ensures
        results_for(calls1, run_calls(m, max, cooldown, calls1).0, k) == results_for(
            calls2,
            run_calls(m, max, cooldown, calls2).0,
            k,
        ),
        run_calls(m, max, cooldown, calls1).1.contains_key(k) == run_calls(
            m,
            max,
            cooldown,
            calls2,
        ).1.contains_key(k),
        run_calls(m, max, cooldown, calls1).1.contains_key(k) ==> run_calls(
            m,
            max,
            cooldown,
            calls1,
        ).1[k] == run_calls(m, max, cooldown, calls2).1[k],
{
    lemma_run_calls_for(m, max, cooldown, calls1, k);
    lemma_run_calls_for(m, max, cooldown, calls2, k);
}

/// The smaller of two naturals.
pub open spec fn min_nat(a: nat, b: nat) -> nat {
    if a <= b {
        a
    } else {
        b
    }
}

proof fn lemma_window_run(
    m: Map<Seq<char>, (u128, u32)>,
    max: u32,
    cooldown: u64,
    key: Seq<char>,
    times: Seq<u128>,
)
    requires
        times.len() > 0,
        m.contains_key(key) ==> m[key].1 <= max,
        forall|i: int|
            0 <= i < times.len() ==> window_start(m, key, times[0]) <= #[trigger] times[i]
                && elapsed_secs(times[i], window_start(m, key, times[0])) < cooldown,
    ensures
        ({
            let (count, m2) = run_key_checks(m, max, cooldown, key, times);
            &&& m2.contains_key(key)
            &&& m2[key].0 == window_start(m, key, times[0])
            &&& count + m2[key].1 == window_tokens(m, max, key)
            &&& count == min_nat(times.len(), window_tokens(m, max, key) as nat)
        }),
    decreases times.len(),
{
    let start = window_start(m, key, times[0]);
    if times.len() == 1 {
        assert(times.drop_last() =~= Seq::<u128>::empty());
        assert(times.last() == times[0]);
    } else {
        let init = times.drop_last();
        assert(init[0] == times[0]);
        assert forall|i: int|
            0 <= i < init.len() implies window_start(m, key, init[0]) <= #[trigger] init[i]
                && elapsed_secs(init[i], window_start(m, key, init[0])) < cooldown by {
            assert(init[i] == times[i]);
        }
        lemma_window_run(m, max, cooldown, key, init);
        assert(times.last() == times[times.len() - 1]);
    }
}

impl RateLimiter {
    /// No bucket holds more tokens than the limit.
    #[verifier::type_invariant]
    spec fn inv(&self) -> bool {
        tokens_within(self.buckets_view(), self.max_messages)
    }

    /// The bucket state of every key seen so far.
    pub closed spec fn buckets_view(&self) -> Map<Seq<char>, (u128, u32)> {
        Map::new(
            |k: Seq<char>| lookup(self.buckets@, k) is Some,
            |k: Seq<char>| lookup(self.buckets@, k)->0,
        )
    }

    /// The limit of messages per window.
    pub closed spec fn max_messages_spec(&self) -> u32 {
        self.max_messages
    }

    /// The length of a window, in seconds.
    pub closed spec fn cooldown_spec(&self) -> u64 {
        self.cooldown_seconds
    }

    /// The instant that clock readings count from.
    pub closed spec fn origin_view(&self) -> std::time::Instant {
        self.origin
    }

    /// The latest clock reading that `check` used.
    pub closed spec fn last_now_spec(&self) -> u128 {
        self.last_now
    }

    /// A limiter that allows `max_messages_per_minute` messages per key in
    /// each window of `cooldown_seconds`.
    pub fn new(max_messages_per_minute: u32, cooldown_seconds: u64) -> (r: Self)
        ensures
            r.max_messages_spec() == max_messages_per_minute,
            r.cooldown_spec() == cooldown_seconds,
            r.buckets_view() == Map::<Seq<char>, (u128, u32)>::empty(),
            r.last_now_spec() == 0,
    {
        let origin = instant_now();
        proof {
            let e = Seq::<Bucket>::empty();
            assert(tokens_within(
                Map::new(|k: Seq<char>| lookup(e, k) is Some, |k: Seq<char>| lookup(e, k)->0),
                max_messages_per_minute,
            ));
        }
        let r = RateLimiter {
            max_messages: max_messages_per_minute,
            cooldown_seconds,
            buckets: Vec::new(),
            origin,
            last_now: 0,
        };
        assert(r.buckets_view() =~= Map::<Seq<char>, (u128, u32)>::empty());
        r
    }

    /// Checks whether a message for `key` may go through, reading the clock.
    /// `key` is the group id, or the sender uuid for direct messages. A
    /// reading earlier than the latest one used is taken as the latest one,
    /// so time never runs backwards for the limiter.
    pub fn check(&mut self, key: &str) -> (allowed: bool)
        ensures
            final(self).max_messages_spec() == old(self).max_messages_spec(),
            final(self).cooldown_spec() == old(self).cooldown_spec(),
            final(self).origin_view() == old(self).origin_view(),
            final(self).last_now_spec() >= old(self).last_now_spec(),
            step(
                old(self).buckets_view(),
                old(self).max_messages_spec(),
                old(self).cooldown_spec(),
                key@,
                final(self).last_now_spec(),
            ) == (allowed, final(self).buckets_view()),
            tokens_within(final(self).buckets_view(), final(self).max_messages_spec()),
    {
        let d = instant_elapsed(&self.origin);
        let elapsed_nanos = duration_as_nanos(&d);
        self.check_reading(key, elapsed_nanos)
    }

    /// Checks whether a message for `key` may go through, given a reading of
    /// the clock: the nanoseconds elapsed since the limiter was made. The
    /// check happens at that reading, or at the latest reading used when
    /// this one is earlier, and that time becomes the latest reading.
    pub fn check_reading(&mut self, key: &str, elapsed_nanos: u128) -> (allowed: bool)
        ensures
            final(self).max_messages_spec() == old(self).max_messages_spec(),
            final(self).cooldown_spec() == old(self).cooldown_spec(),
            final(self).origin_view() == old(self).origin_view(),
            final(self).last_now_spec() == (if elapsed_nanos < old(self).last_now_spec() {
                old(self).last_now_spec()
            } else {
                elapsed_nanos
            }),
            step(
                old(self).buckets_view(),
                old(self).max_messages_spec(),
                old(self).cooldown_spec(),
                key@,
                final(self).last_now_spec(),
            ) == (allowed, final(self).buckets_view()),
            tokens_within(final(self).buckets_view(), final(self).max_messages_spec()),
            old(self).max_messages_spec() > 0 && old(self).buckets_view().contains_key(key@)
                && elapsed_nanos >= old(self).buckets_view()[key@].0 + old(self).cooldown_spec()
                * 1_000_000_000 ==> allowed,
    {
        let now = if elapsed_nanos < self.last_now {
            self.last_now
        } else {
            elapsed_nanos
        };
        let allowed = self.check_at(key, now);
        self.last_now = now;
        proof {
            if self.max_messages_spec() > 0 && old(self).buckets_view().contains_key(key@)
                && elapsed_nanos >= old(self).buckets_view()[key@].0 + self.cooldown_spec()
                * 1_000_000_000 {
                law_refill_after_cooldown_nanos(
                    old(self).buckets_view(),
                    self.max_messages_spec(),
                    self.cooldown_spec(),
                    key@,
                    now,
                );
            }
        }
        allowed
    }

    /// Checks whether a message for `key` may go through at time `now`
    /// (nanoseconds since the limiter was made).
    pub fn check_at(&mut self, key: &str, now: u128) -> (allowed: bool)
        ensures
            final(self).max_messages_spec() == old(self).max_messages_spec(),
            final(self).cooldown_spec() == old(self).cooldown_spec(),
            final(self).origin_view() == old(self).origin_view(),
            final(self).last_now_spec() == old(self).last_now_spec(),
            tokens_within(final(self).buckets_view(), final(self).max_messages_spec()),
            step(
                old(self).buckets_view(),
                old(self).max_messages_spec(),
                old(self).cooldown_spec(),
                key@,
                now,
            ) == (allowed, final(self).buckets_view()),
    {
        proof {
            use_type_invariant(&*self);
        }
        let k = String::from_str(key);
        let ghost old_bs = self.buckets@;
        let mut i: usize = 0;
        assert(old_bs.skip(0) =~= old_bs);
        while i < self.buckets.len()
            invariant
                i <= self.buckets.len(),
                self.buckets@ == old_bs,
                k@ == key@,
                lookup(old_bs, key@) == lookup(old_bs.skip(i as int), key@),
                forall|j: int| 0 <= j < i ==> old_bs[j].key@ != key@,
            ensures
                i <= self.buckets.len(),
                self.buckets@ == old_bs,
                lookup(old_bs, key@) == lookup(old_bs.skip(i as int), key@),
                forall|j: int| 0 <= j < i ==> old_bs[j].key@ != key@,
                i < self.buckets.len() ==> old_bs[i as int].key@ == key@,
            decreases self.buckets.len() - i,
        {
            assert(old_bs.skip(i as int).skip(1) =~= old_bs.skip(i + 1));
            if self.buckets[i].key == k {
                break;
            }
            i = i + 1;
        }
        let ghost m = self.buckets_view();
        let max = self.max_messages;
        let cooldown = self.cooldown_seconds;
        let (l, t) = if i < self.buckets.len() {
            (self.buckets[i].last_reset, self.buckets[i].tokens)
        } else {
            (now, max)
        };
        let elapsed = now.saturating_sub(l) / NANOS_PER_SEC;
        let (l2, t2) = if elapsed >= cooldown as u128 {
            (now, max)
        } else {
            (l, t)
        };
        let allowed = t2 > 0;
        let t3 = if allowed {
            t2 - 1
        } else {
            t2
        };
        let nb = Bucket { key: k, last_reset: l2, tokens: t3 };
        proof {
            if i < old_bs.len() {
                assert(old_bs.skip(i as int)[0] == old_bs[i as int]);
            } else {
                assert(old_bs.skip(i as int) =~= Seq::<Bucket>::empty());
            }
        }
        let mut bs: Vec<Bucket> = Vec::new();
        std::mem::swap(&mut bs, &mut self.buckets);
        if i < bs.len() {
            bs.set(i, nb);
            proof {
                lemma_lookup_update(old_bs, i as int, bs@[i as int]);
            }
        } else {
            bs.push(nb);
            proof {
                lemma_lookup_push(old_bs, bs@.last());
            }
        }
        proof {
            let m2 = Map::new(|k: Seq<char>| lookup(bs@, k) is Some, |k: Seq<char>| lookup(bs@, k)->0);
            assert(m2 =~= step(m, max, cooldown, key@, now).1);
            law_tokens_never_exceed_limit(m, max, cooldown, key@, now);
        }
        self.buckets = bs;
        assert(self.buckets_view() =~= step(m, max, cooldown, key@, now).1);
        allowed
    }
}

/// Replacing the first bucket of a key leaves every other key's state alone.
proof fn lemma_lookup_update_at(bs: Seq<Bucket>, i: int, b: Bucket, k: Seq<char>)
    requires
        0 <= i < bs.len(),
        bs[i].key@ == b.key@,
        forall|j: int| 0 <= j < i ==> bs[j].key@ != b.key@,
    ensures
        lookup(bs.update(i, b), k) == if k == b.key@ {
            Some((b.last_reset, b.tokens))
        } else {
            lookup(bs, k)
        },
    decreases i,
{
    let u = bs.update(i, b);
    if i == 0 {
        assert(u[0] == b);
        assert(u.skip(1) =~= bs.skip(1));
    } else {
        assert(bs[0].key@ != b.key@);
        assert(u[0] == bs[0]);
        assert forall|j: int| 0 <= j < i - 1 implies bs.skip(1)[j].key@ != b.key@ by {
            assert(bs.skip(1)[j] == bs[j + 1]);
        }
        lemma_lookup_update_at(bs.skip(1), i - 1, b, k);
        assert(u.skip(1) =~= bs.skip(1).update(i - 1, b));
    }
}

proof fn lemma_lookup_update(bs: Seq<Bucket>, i: int, b: Bucket)
    requires
        0 <= i < bs.len(),
        bs[i].key@ == b.key@,
        forall|j: int| 0 <= j < i ==> bs[j].key@ != b.key@,
    ensures
        forall|k: Seq<char>|
            #[trigger] lookup(bs.update(i, b), k) == if k == b.key@ {
                Some((b.last_reset, b.tokens))
            } else {
                lookup(bs, k)
            },
{
    assert forall|k: Seq<char>|
        #[trigger] lookup(bs.update(i, b), k) == if k == b.key@ {
            Some((b.last_reset, b.tokens))
        } else {
            lookup(bs, k)
        } by {
        lemma_lookup_update_at(bs, i, b, k);
    }
}

/// A bucket appended for a key that had none is found for that key only.
proof fn lemma_lookup_push_at(bs: Seq<Bucket>, b: Bucket, k: Seq<char>)
    requires
        lookup(bs, b.key@) is None,
    ensures
        lookup(bs.push(b), k) == if k == b.key@ {
            Some((b.last_reset, b.tokens))
        } else {
            lookup(bs, k)
        },
    decreases bs.len(),
{
    let p = bs.push(b);
    if bs.len() > 0 {
        assert(p[0] == bs[0]);
        assert(bs[0].key@ != b.key@);
        assert(p.skip(1) =~= bs.skip(1).push(b));
        if bs[0].key@ != k {
            lemma_lookup_push_at(bs.skip(1), b, k);
            assert(lookup(p, k) == lookup(p.skip(1), k));
            assert(lookup(bs, k) == lookup(bs.skip(1), k));
        } else {
            assert(lookup(p, k) == Some((bs[0].last_reset, bs[0].tokens)));
            assert(lookup(bs, k) == Some((bs[0].last_reset, bs[0].tokens)));
        }
    } else {
        assert(p[0] == b);
        assert(p.skip(1) =~= Seq::<Bucket>::empty());
        assert(lookup(p.skip(1), k) is None);
    }
}

proof fn lemma_lookup_push(bs: Seq<Bucket>, b: Bucket)
    requires
        lookup(bs, b.key@) is None,
    ensures
        forall|k: Seq<char>|
            #[trigger] lookup(bs.push(b), k) == if k == b.key@ {
                Some((b.last_reset, b.tokens))
            } else {
                lookup(bs, k)
            },
{
    assert forall|k: Seq<char>|
        #[trigger] lookup(bs.push(b), k) == if k == b.key@ {
            Some((b.last_reset, b.tokens))
        } else {
            lookup(bs, k)
        } by {
        lemma_lookup_push_at(bs, b, k);
    }
}

} // verus!
