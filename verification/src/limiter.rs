//! Rate limits: how often an absent peer is reported, and how fast a client may send.
//!
//! Time is a count of nanoseconds on a clock that does not run backwards; the caller reads it.

use vstd::prelude::*;

verus! {

/// The nanoseconds of a second.
pub const SECOND: u64 = 1_000_000_000;

/// How many absent peers are reported at once, and then each second.
pub const REPORTS: u64 = 3;

/// The nanoseconds from `earlier` to `later`, none where the clock seems to run backwards.
pub open spec fn elapsed(earlier: u64, later: u64) -> nat {
    if later > earlier {
        (later - earlier) as nat
    } else {
        0
    }
}

/// Limits reports of absent peers to three at once and then three per second. Tokens are counted
/// in billionths.
#[derive(Clone, Copy, Debug, PartialEq, Eq, Structural)]
pub struct PeerGoneLimiter {
    pub tokens: u64,
    pub updated: u64,
}

impl PeerGoneLimiter {
    /// The tokens at time `now`: three more each second, three at most.
    pub open spec fn filled(self, now: u64) -> nat {
        let have = self.tokens + REPORTS * elapsed(self.updated, now);
        if have > REPORTS * SECOND {
            (REPORTS * SECOND) as nat
        } else {
            have as nat
        }
    }

    /// Whether a report is allowed at time `now`: there is a whole token.
    pub open spec fn allows(self, now: u64) -> bool {
        self.filled(now) >= SECOND
    }

    /// The limiter after it was asked at time `now`.
    pub open spec fn asked(self, now: u64) -> PeerGoneLimiter {
        PeerGoneLimiter {
            tokens: (if self.allows(now) {
                self.filled(now) - SECOND
            } else {
                self.filled(now) as int
            }) as u64,
            updated: now,
        }
    }

    /// A full limiter.
    pub fn new(now: u64) -> (r: PeerGoneLimiter)
        ensures
            r == (PeerGoneLimiter { tokens: (REPORTS * SECOND) as u64, updated: now }),
    {
        PeerGoneLimiter { tokens: 3_000_000_000, updated: now }
    }

    /// Asks for one report at time `now`: takes a token where there is one.
    pub fn allow(&mut self, now: u64) -> (r: bool)
        ensures
            r == old(self).allows(now),
            *final(self) == old(self).asked(now),
    {
        let full: u128 = 3_000_000_000;
        let passed: u64 = if now > self.updated {
            now - self.updated
        } else {
            0
        };
        let have: u128 = self.tokens as u128 + 3 * passed as u128;
        let tokens: u64 = if have > full {
            3_000_000_000
        } else {
            have as u64
        };
        self.updated = now;
        if tokens < SECOND {
            self.tokens = tokens;
            return false;
        }
        self.tokens = tokens - SECOND;
        true
    }
}

/// The limiter after it was asked at each of these times.
pub open spec fn asked_at(l: PeerGoneLimiter, times: Seq<u64>) -> PeerGoneLimiter
    decreases times.len(),
{
    if times.len() == 0 {
        l
    } else {
        asked_at(l, times.drop_last()).asked(times.last())
    }
}

/// How many of these questions a limiter answers with yes.
pub open spec fn allowed_at(l: PeerGoneLimiter, times: Seq<u64>) -> nat
    decreases times.len(),
{
    if times.len() == 0 {
        0
    } else {
        allowed_at(l, times.drop_last()) + (if asked_at(l, times.drop_last()).allows(times.last()) {
            1nat
        } else {
            0nat
        })
    }
}

/// Whether times follow each other, none of them before `start`.
pub open spec fn in_order(start: u64, times: Seq<u64>) -> bool {
    &&& forall|i: int| 0 <= i < times.len() ==> start <= #[trigger] times[i]
    &&& forall|i: int, j: int| 0 <= i <= j < times.len() ==> times[i] <= times[j]
}

/// However often a limiter is asked, and whatever it was asked before, it allows at most three
/// reports from some moment on and three more for each second that passes from then.
pub proof fn law_reports_are_limited(l: PeerGoneLimiter, times: Seq<u64>)
    requires
        times.len() > 0,
        in_order(times[0], times),
    ensures
        allowed_at(l, times) * SECOND <= REPORTS * SECOND + REPORTS * (times.last() - times[0]),
{
    lemma_tokens_spent(l, times);
}

/// What was allowed and what is left is no more than three reports and what was earned since.
pub proof fn lemma_tokens_spent(l: PeerGoneLimiter, times: Seq<u64>)
    requires
        times.len() > 0,
        in_order(times[0], times),
    ensures
        asked_at(l, times).updated == times.last(),
        allowed_at(l, times) * SECOND + asked_at(l, times).tokens <= REPORTS * SECOND + REPORTS * (
        times.last() - times[0]),
    decreases times.len(),
{
    let before = times.drop_last();
    reveal_with_fuel(asked_at, 2);
    reveal_with_fuel(allowed_at, 2);
    if before.len() > 0 {
        assert forall|i: int, j: int| 0 <= i <= j < before.len() implies before[i] <= before[j] by {
            assert(times[i] <= times[j]);
        }
        assert forall|i: int| 0 <= i < before.len() implies before[0] <= #[trigger] before[i] by {
            assert(times[0] <= times[i]);
        }
        lemma_tokens_spent(l, before);
        assert(times[before.len() - 1] <= times[before.len() as int]);
    }
}

/// A fresh limiter allows three reports at once, and then none before time passes.
pub proof fn law_burst_of_three(now: u64)
    ensures
        ({
            let l0 = PeerGoneLimiter { tokens: (REPORTS * SECOND) as u64, updated: now };
            let l1 = l0.asked(now);
            let l2 = l1.asked(now);
            let l3 = l2.asked(now);
            l0.allows(now) && l1.allows(now) && l2.allows(now) && !l3.allows(now)
        }),
{
}

/// A limiter that has not been asked for a second allows three reports in a row again.
pub proof fn law_refill_within_a_second(l: PeerGoneLimiter, now: u64)
    requires
        now >= l.updated + SECOND,
    ensures
        l.allows(now),
        l.asked(now).allows(now),
        l.asked(now).asked(now).allows(now),
{
}

/// How long to wait: whole seconds and the nanoseconds beyond.
#[derive(Clone, Copy, Debug, PartialEq, Eq, Structural)]
pub struct Pause {
    pub secs: u64,
    pub nanos: u32,
}

impl Pause {
    /// The pause in nanoseconds.
    pub open spec fn total(self) -> nat {
        (self.secs * SECOND + self.nanos) as nat
    }
}

/// A client's allowance of bytes: `rate` more each second, `burst` at most. A rate of zero sets
/// no limit. What is in the bucket is counted in billionths of a byte.
#[derive(Clone, Copy, Debug, PartialEq, Eq, Structural)]
pub struct TokenBucket {
    rate: u64,
    burst: u64,
    tokens: u128,
    last: u64,
}

/// The model of a token bucket.
pub struct BucketView {
    pub rate: nat,
    pub burst: nat,
    pub tokens: nat,
    pub last: u64,
}

impl View for TokenBucket {
    type V = BucketView;

    closed spec fn view(&self) -> BucketView {
        BucketView {
            rate: self.rate as nat,
            burst: self.burst as nat,
            tokens: self.tokens as nat,
            last: self.last,
        }
    }
}

impl BucketView {
    /// The bucket never holds more than a burst.
    pub open spec fn wf(self) -> bool {
        self.tokens <= self.burst * SECOND
    }

    /// What is in the bucket at time `now`.
    pub open spec fn filled(self, now: u64) -> nat {
        let have = self.tokens + self.rate * elapsed(self.last, now);
        if have > self.burst * SECOND {
            (self.burst * SECOND) as nat
        } else {
            have
        }
    }

    /// Whether `n` bytes may pass at time `now` without waiting.
    pub open spec fn admits(self, n: nat, now: u64) -> bool {
        self.rate == 0 || self.filled(now) >= n * SECOND
    }

    /// The nanoseconds until the bytes that are missing have been earned, rounded to the nearest.
    pub open spec fn wait(self, n: nat, now: u64) -> nat {
        ((n * SECOND - self.filled(now) + self.rate as int / 2) / self.rate as int) as nat
    }

    /// The bucket after `n` bytes were taken at time `now`; empty where they were not there.
    pub open spec fn consumed(self, n: nat, now: u64) -> BucketView {
        if self.rate == 0 {
            self
        } else if self.admits(n, now) {
            BucketView { tokens: (self.filled(now) - n * SECOND) as nat, last: now, ..self }
        } else {
            BucketView { tokens: 0, last: now, ..self }
        }
    }
}

proof fn lemma_product_fits(a: u64, b: u64)
    ensures
        0 <= a * b <= 0xffff_ffff_ffff_ffff * 0xffff_ffff_ffff_ffff,
{
    assert(0 <= a * b <= 0xffff_ffff_ffff_ffff * 0xffff_ffff_ffff_ffff) by (nonlinear_arith)
        requires
            0 <= a <= 0xffff_ffff_ffff_ffff,
            0 <= b <= 0xffff_ffff_ffff_ffff,
    ;
}

impl TokenBucket {
    #[verifier::type_invariant]
    spec fn holds_a_burst_at_most(self) -> bool {
        self.tokens <= self.burst * SECOND
    }

    /// A full bucket.
    pub fn new(rate: u64, burst: u64, now: u64) -> (r: TokenBucket)
        ensures
            r@ == (BucketView {
                rate: rate as nat,
                burst: burst as nat,
                tokens: (burst * SECOND) as nat,
                last: now,
            }),
            r@.wf(),
    {
        proof {
            lemma_product_fits(burst, SECOND);
        }
        TokenBucket { rate, burst, tokens: burst as u128 * SECOND as u128, last: now }
    }

    /// Takes `n` bytes at time `now`. Where they are not there, the bucket is emptied and the
    /// caller is told how long to wait before it goes on; it then calls `slept`.
    pub fn consume(&mut self, n: usize, now: u64) -> (r: Option<Pause>)
        ensures
            old(self)@.wf(),
            final(self)@ == old(self)@.consumed(n as nat, now),
            match r {
                None => old(self)@.admits(n as nat, now),
                Some(p) => {
                    &&& !old(self)@.admits(n as nat, now)
                    &&& p.total() == old(self)@.wait(n as nat, now)
                    &&& p.nanos < SECOND
                },
            },
    {
        proof {
            use_type_invariant(&*self);
        }
        if self.rate == 0 {
            return None;
        }
        let full: u128 = self.burst as u128 * SECOND as u128;
        let passed: u64 = if now > self.last {
            now - self.last
        } else {
            0
        };
        proof {
            lemma_product_fits(self.rate, passed);
        }
        let earned: u128 = self.rate as u128 * passed as u128;
        let tokens: u128 = if earned > full - self.tokens {
            full
        } else {
            self.tokens + earned
        };
        let cost: u128 = n as u128 * SECOND as u128;
        if tokens >= cost {
            let left: u128 = tokens - cost;
            *self = TokenBucket { rate: self.rate, burst: self.burst, tokens: left, last: now };
            return None;
        }
        let rate: u128 = self.rate as u128;
        let missing: u128 = cost - tokens + rate / 2;
        let wait: u128 = missing / rate;
        *self = TokenBucket { rate: self.rate, burst: self.burst, tokens: 0, last: now };
        let secs: u128 = wait / SECOND as u128;
        proof {
            lemma_wait_fits(missing as int, rate as int, n as int);
        }
        Some(Pause { secs: secs as u64, nanos: (wait % SECOND as u128) as u32 })
    }

    /// Notes that the caller has waited until `now`.
    pub fn slept(&mut self, now: u64)
        ensures
            final(self)@ == (BucketView { last: now, ..old(self)@ }),
    {
        proof {
            use_type_invariant(&*self);
        }
        *self = TokenBucket { rate: self.rate, burst: self.burst, tokens: self.tokens, last: now };
    }
}

proof fn lemma_wait_fits(missing: int, rate: int, n: int)
    requires
        1 <= rate <= u64::MAX,
        0 <= n <= u64::MAX,
        0 <= missing <= n * SECOND + rate / 2,
    ensures
        0 <= missing / rate / SECOND as int <= u64::MAX,
{
    assert(missing / rate <= n * SECOND + 1) by (nonlinear_arith)
        requires
            1 <= rate,
            0 <= n,
            0 <= missing <= n * SECOND + rate / 2,
    ;
    assert(missing / rate >= 0) by (nonlinear_arith)
        requires
            1 <= rate,
            0 <= missing,
    ;
}

/// A bucket without a rate lets everything pass and is left as it was.
pub proof fn law_no_rate_no_limit(b: BucketView, n: nat, now: u64)
    requires
        b.rate == 0,
    ensures
        b.admits(n, now),
        b.consumed(n, now) == b,
{
}

/// What passes without waiting is a burst at most.
pub proof fn law_burst_bounds_what_passes(b: BucketView, n: nat, now: u64)
    requires
        b.rate > 0,
        b.admits(n, now),
    ensures
        n <= b.burst,
{
}

/// A pause earns what was missing, to half a nanosecond's allowance.
pub proof fn law_pause_earns_what_is_missing(b: BucketView, n: nat, now: u64)
    requires
        b.rate > 0,
        !b.admits(n, now),
    ensures
        2 * b.rate * b.wait(n, now) <= 2 * (n * SECOND - b.filled(now)) + b.rate,
        2 * b.rate * b.wait(n, now) >= 2 * (n * SECOND - b.filled(now)) - b.rate,
{
    let rate = b.rate as int;
    let missing = n * SECOND - b.filled(now);
    let top = missing + rate / 2;
    let w = top / rate;
    vstd::arithmetic::div_mod::lemma_fundamental_div_mod(top, rate);
    assert(0 <= top % rate < rate);
    assert(rate * w == top - top % rate);
    assert(w >= 0) by (nonlinear_arith)
        requires
            w == top / rate,
            top >= 0,
            rate > 0,
    ;
    assert(2 * b.rate * b.wait(n, now) == 2 * (rate * w)) by (nonlinear_arith)
        requires
            b.rate == rate,
            b.wait(n, now) == w,
    ;
}

/// A client's frame of `n` bytes read at time `now`; where it had to wait, it went on at `woke`.
pub struct Turn {
    pub n: nat,
    pub now: u64,
    pub woke: u64,
}

/// The bucket after a turn.
pub open spec fn turned(b: BucketView, t: Turn) -> BucketView {
    if b.admits(t.n, t.now) {
        b.consumed(t.n, t.now)
    } else {
        BucketView { last: t.woke, ..b.consumed(t.n, t.now) }
    }
}

/// The bucket after these turns.
pub open spec fn turned_all(b: BucketView, turns: Seq<Turn>) -> BucketView
    decreases turns.len(),
{
    if turns.len() == 0 {
        b
    } else {
        turned(turned_all(b, turns.drop_last()), turns.last())
    }
}

/// Whether the turns follow each other in time and none goes on before its pause is over.
pub open spec fn obedient(b: BucketView, turns: Seq<Turn>) -> bool
    decreases turns.len(),
{
    turns.len() == 0 || {
        let before = turned_all(b, turns.drop_last());
        let t = turns.last();
        &&& obedient(b, turns.drop_last())
        &&& t.now >= before.last
        &&& before.admits(t.n, t.now) || t.woke >= t.now + before.wait(t.n, t.now)
    }
}

/// The bytes that passed in these turns.
pub open spec fn passed(turns: Seq<Turn>) -> nat
    decreases turns.len(),
{
    if turns.len() == 0 {
        0
    } else {
        passed(turns.drop_last()) + turns.last().n
    }
}

/// The number of turns that had to wait.
pub open spec fn pauses(b: BucketView, turns: Seq<Turn>) -> nat
    decreases turns.len(),
{
    if turns.len() == 0 {
        0
    } else {
        pauses(b, turns.drop_last()) + (if turned_all(b, turns.drop_last()).admits(
            turns.last().n,
            turns.last().now,
        ) {
            0nat
        } else {
            1nat
        })
    }
}

/// A client that waits as it is told sends no more than a burst and what its rate earns in the
/// time that passes, up to half a nanosecond's allowance for each pause.
pub proof fn law_rate_is_kept(b: BucketView, turns: Seq<Turn>)
    requires
        b.wf(),
        b.rate > 0,
        obedient(b, turns),
    ensures
        turned_all(b, turns).last >= b.last,
        2 * (passed(turns) * SECOND) <= 2 * (b.burst * SECOND + b.rate * (turned_all(b, turns).last
            - b.last)) + b.rate * pauses(b, turns),
{
    lemma_allowance_spent(b, turns);
}

proof fn lemma_allowance_spent(b: BucketView, turns: Seq<Turn>)
    requires
        b.wf(),
        b.rate > 0,
        obedient(b, turns),
    ensures
        turned_all(b, turns).last >= b.last,
        turned_all(b, turns).rate == b.rate,
        turned_all(b, turns).burst == b.burst,
        2 * (passed(turns) * SECOND + turned_all(b, turns).tokens) <= 2 * (b.burst * SECOND + b.rate
            * (turned_all(b, turns).last - b.last)) + b.rate * pauses(b, turns),
    decreases turns.len(),
{
    let rate = b.rate as int;
    let r = turned_all(b, turns);
    if turns.len() == 0 {
        assert(rate * (r.last - b.last) == 0);
        assert(b.rate * pauses(b, turns) == 0);
    } else {
        let init = turns.drop_last();
        let t = turns.last();
        let m = turned_all(b, init);
        lemma_allowance_spent(b, init);
        let earned = m.rate * elapsed(m.last, t.now);
        let p = pauses(b, init) as int;
        assert(earned == rate * (t.now - m.last));
        lemma_split(rate, b.last as int, m.last as int, t.now as int);
        if m.admits(t.n, t.now) {
            assert(r.last == t.now);
        } else {
            law_pause_earns_what_is_missing(m, t.n, t.now);
            let w = m.wait(t.n, t.now) as int;
            lemma_split(rate, b.last as int, t.now as int, t.woke as int);
            assert(rate * w <= rate * (t.woke - t.now)) by (nonlinear_arith)
                requires
                    rate > 0,
                    w <= t.woke - t.now,
            ;
            assert(2 * m.rate * m.wait(t.n, t.now) == 2 * (rate * w)) by (nonlinear_arith)
                requires
                    m.rate == rate,
                    m.wait(t.n, t.now) == w,
            ;
            assert(rate * (p + 1) == rate * p + rate) by (nonlinear_arith);
        }
    }
}

proof fn lemma_split(rate: int, a: int, b: int, c: int)
    ensures
        rate * (c - a) == rate * (b - a) + rate * (c - b),
{
    assert(rate * (c - a) == rate * (b - a) + rate * (c - b)) by (nonlinear_arith);
}

} // verus!
