//! What clients may send, and how often they are told that a node is not here.

use vstd::arithmetic::div_mod::lemma_fundamental_div_mod;
use vstd::prelude::*;

use crate::limiter::{
    law_rate_is_kept, obedient, passed, pauses, turned_all, BucketView, Pause, PeerGoneLimiter,
    TokenBucket, Turn,
};
use crate::protocol::Frame;
use crate::relay::{Relay, SessionId};
use crate::server::{charge, frame_cost};
use crate::wire::bytes_view;

verus! {

/// The bytes of the packet that a frame brings to be relayed.
pub open spec fn to_relay(f: Frame) -> nat {
    match f {
        Frame::SendPacket { packet, .. } => bytes_view(packet).len(),
        Frame::ForwardPacket { packet, .. } => bytes_view(packet).len(),
        _ => 0,
    }
}

/// A frame costs what its packet has in bytes and 64 more, for packets of every length; a frame
/// that brings none costs 64.
pub proof fn law_frames_cost_their_bytes(f: Frame, n: usize)
    requires
        call_ensures(frame_cost, (&f,), n),
    ensures
        n == to_relay(f) + 64,
{
}

/// What a frame costs is taken from the allowance of a client that is no mesh member, at once or
/// after the pause that taking it asks for; a member's allowance is not touched.
pub proof fn law_frames_are_charged(
    relay: &Relay,
    session: SessionId,
    limiter: &mut TokenBucket,
    f: Frame,
    now: u64,
    r: Option<Pause>,
    member: bool,
    other: &mut TokenBucket,
    taken: Option<Pause>,
)
    requires
        call_ensures(charge, (relay, session, limiter, &f, now), r),
        call_ensures(Relay::is_mesh_member, (relay, session), member),
        to_relay(f) + 64 <= usize::MAX,
        call_ensures(
            TokenBucket::consume,
            (other, (to_relay(f) + 64) as usize, now),
            taken,
        ),
        *old(other) == *old(limiter),
    ensures
        member ==> r is None && final(limiter)@ == old(limiter)@,
        !member ==> final(limiter)@ == final(other)@ && (r is Some) == (taken is Some),
        !member && r is Some ==> r->0.secs == taken->0.secs && r->0.nanos == taken->0.nanos,
{
    if !member && r is Some {
        let a = r->0;
        let b = taken->0;
        assert(a.secs * 1_000_000_000 + a.nanos == b.secs * 1_000_000_000 + b.nanos);
    }
}

/// A new bucket is full: a burst may pass at once.
pub proof fn law_new_buckets_are_full(rate: u64, burst: u64, now: u64, b: TokenBucket)
    requires
        call_ensures(TokenBucket::new, (rate, burst, now), b),
    ensures
        b@.rate == rate,
        b@.burst == burst,
        b@.tokens == burst * 1_000_000_000,
        b@.last == now,
{
}

/// What a bucket holds at some time, in billionths of a byte: what it held, and its rate for each
/// nanosecond since, but no more than a burst.
pub open spec fn is_level(b: BucketView, now: u64, level: int) -> bool {
    let since: int = if now >= b.last {
        now - b.last
    } else {
        0
    };
    let earned = b.tokens + b.rate * since;
    &&& level <= earned
    &&& level <= b.burst * 1_000_000_000
    &&& level == earned || level == b.burst * 1_000_000_000
}

/// Bytes pass at once where the bucket holds them, and are taken out; where it does not, it is
/// emptied, and the pause is the time in which what is missing is earned, to the nearest nanosecond
/// and half of one up. Without a rate everything passes.
pub proof fn law_buckets_give_what_they_hold(
    b: &mut TokenBucket,
    n: usize,
    now: u64,
    r: Option<Pause>,
    level: int,
)
    requires
        call_ensures(TokenBucket::consume, (b, n, now), r),
        is_level(old(b)@, now, level),
    ensures
        ({
            let cost = n * 1_000_000_000;
            let rate = old(b)@.rate;
            &&& final(b)@.rate == rate
            &&& final(b)@.burst == old(b)@.burst
            &&& r is None <==> rate == 0 || level >= cost
            &&& rate == 0 ==> final(b)@ == old(b)@
            &&& rate > 0 ==> final(b)@.last == now
            &&& rate > 0 && level >= cost ==> final(b)@.tokens == level - cost
            &&& rate > 0 && level < cost ==> final(b)@.tokens == 0
            &&& r matches Some(p) ==> {
                let wait = p.secs * 1_000_000_000 + p.nanos;
                &&& p.nanos < 1_000_000_000
                &&& 2 * rate * wait <= 2 * (cost - level) + rate
                &&& 2 * rate * wait > 2 * (cost - level) - rate
            }
        }),
{
    let v = old(b)@;
    assert(level == v.filled(now));
    if let Some(p) = r {
        let rate = v.rate as int;
        let missing = n * 1_000_000_000 - level;
        let wait = p.secs * 1_000_000_000 + p.nanos;
        assert(wait == (missing + rate / 2) / rate);
        lemma_fundamental_div_mod(missing + rate / 2, rate);
        let over = (missing + rate / 2) % rate;
        assert(0 <= over < rate);
        assert(rate * wait == missing + rate / 2 - over);
        assert(2 * rate * wait == 2 * (rate * wait)) by (nonlinear_arith);
    }
}

/// The bytes of the packets that frames bring.
pub open spec fn all_to_relay(frames: Seq<Frame>) -> nat
    decreases frames.len(),
{
    if frames.len() == 0 {
        0
    } else {
        all_to_relay(frames.drop_last()) + to_relay(frames.last())
    }
}

proof fn lemma_packets_passed(frames: Seq<Frame>, turns: Seq<Turn>)
    requires
        frames.len() == turns.len(),
        forall|i: int|
            0 <= i < frames.len() ==> (#[trigger] turns[i]).n == to_relay(frames[i]) + 64,
    ensures
        all_to_relay(frames) + 64 * frames.len() == passed(turns),
    decreases frames.len(),
{
    if frames.len() > 0 {
        let n = frames.len() - 1;
        assert(turns[n].n == to_relay(frames[n]) + 64);
        assert forall|i: int| 0 <= i < n implies (#[trigger] turns.drop_last()[i]).n == to_relay(
            frames.drop_last()[i],
        ) + 64 by {
            assert(turns[i].n == to_relay(frames[i]) + 64);
        }
        lemma_packets_passed(frames.drop_last(), turns.drop_last());
    }
}

/// However many frames a client sends that waits as it is told, the bytes of its packets are no
/// more than a burst and its rate times the time that passes, up to half a nanosecond's allowance
/// for each pause.
pub proof fn law_packets_keep_the_rate(b: BucketView, frames: Seq<Frame>, turns: Seq<Turn>)
    requires
        b.tokens <= b.burst * 1_000_000_000,
        b.rate > 0,
        frames.len() == turns.len(),
        forall|i: int|
            0 <= i < frames.len() ==> call_ensures(
                frame_cost,
                (&#[trigger] frames[i],),
                turns[i].n as usize,
            ) && turns[i].n <= usize::MAX,
        obedient(b, turns),
    ensures
        2 * (all_to_relay(frames) * 1_000_000_000) <= 2 * (b.burst * 1_000_000_000 + b.rate * (
        turned_all(b, turns).last - b.last)) + b.rate * pauses(b, turns),
{
    assert forall|i: int| 0 <= i < frames.len() implies (#[trigger] turns[i]).n == to_relay(
        frames[i],
    ) + 64 by {
        law_frames_cost_their_bytes(frames[i], turns[i].n as usize);
    }
    lemma_packets_passed(frames, turns);
    law_rate_is_kept(b, turns);
}

/// A pause that is over is noted: time counts from then on.
pub proof fn law_pauses_are_noted(b: &mut TokenBucket, now: u64)
    requires
        call_ensures(TokenBucket::slept, (b, now), ()),
    ensures
        final(b)@.last == now,
        final(b)@.tokens == old(b)@.tokens,
        final(b)@.rate == old(b)@.rate,
        final(b)@.burst == old(b)@.burst,
{
}

/// A new limiter allows three reports.
pub proof fn law_new_limiters_are_full(now: u64, l: PeerGoneLimiter)
    requires
        call_ensures(PeerGoneLimiter::new, (now,), l),
    ensures
        l.tokens == 3_000_000_000,
        l.updated == now,
{
}

/// A report is allowed where a whole one was earned, three each second and three at most, and uses
/// it up.
pub proof fn law_reports_are_earned(
    l: &mut PeerGoneLimiter,
    now: u64,
    r: bool,
    level: int,
)
    requires
        call_ensures(PeerGoneLimiter::allow, (l, now), r),
        ({
            let since: int = if now >= old(l).updated {
                now - old(l).updated
            } else {
                0
            };
            let earned = old(l).tokens + 3 * since;
            &&& level <= earned
            &&& level <= 3_000_000_000
            &&& level == earned || level == 3_000_000_000
        }),
    ensures
        r <==> level >= 1_000_000_000,
        r ==> final(l).tokens == level - 1_000_000_000,
        !r ==> final(l).tokens == level,
        final(l).updated == now,
{
}

} // verus!
