//! Numbers in texts, and counters.

use vstd::prelude::*;
use vstd::string::*;

use crate::laws::plain::{lemma_spelled, lemma_spelled_once, spells};
use crate::metrics::{metric_text, prometheus_text, Metrics};
use crate::relay::Relay;
use crate::text::decimal;

verus! {

/// The metrics by name, type and value, in the order in which they are listed.
#[verifier::opaque]
pub open spec fn listed(m: Metrics) -> Seq<(Seq<char>, Seq<char>, u64)> {
    seq![
        ("derp_accepts_total"@, "counter"@, m.accepts),
        ("derp_current_clients"@, "gauge"@, m.current_clients),
        ("derp_preferred_clients"@, "gauge"@, m.preferred_clients),
        ("derp_home_moves_in_total"@, "counter"@, m.home_moves_in),
        ("derp_home_moves_out_total"@, "counter"@, m.home_moves_out),
        ("derp_packets_received_total"@, "counter"@, m.packets_received),
        ("derp_packets_sent_total"@, "counter"@, m.packets_sent),
        ("derp_bytes_received_total"@, "counter"@, m.bytes_received),
        ("derp_bytes_sent_total"@, "counter"@, m.bytes_sent),
        ("derp_packets_dropped_total"@, "counter"@, m.packets_dropped),
        ("derp_queue_dropped_total"@, "counter"@, m.queue_dropped),
        ("derp_unknown_frames_total"@, "counter"@, m.unknown_frames),
        ("derp_websocket_accepts_total"@, "counter"@, m.websocket_accepts),
        ("derp_stun_requests_total"@, "counter"@, m.stun_requests),
        ("derp_admission_rejected_total"@, "counter"@, m.admission_rejected),
        ("derp_mesh_forwarded_in_total"@, "counter"@, m.mesh_forwarded_in),
        ("derp_mesh_forwarded_out_total"@, "counter"@, m.mesh_forwarded_out),
    ]
}

/// What is said of a metric: a line with its name and its type, then one with its name and its
/// value.
pub open spec fn entry(metric: (Seq<char>, Seq<char>, u64), digits: Seq<char>) -> Seq<char> {
    "# TYPE "@ + metric.0 + " "@ + metric.1 + "\n"@ + metric.0 + " "@ + digits + "\n"@
}

/// Whether a text is another one with a metric added.
pub open spec fn adds_metric(
    text: Seq<char>,
    before: Seq<char>,
    metric: (Seq<char>, Seq<char>, u64),
    digits: Seq<char>,
) -> bool {
    &&& spells(digits, metric.2 as nat)
    &&& text == before + entry(metric, digits)
}

/// Whether a text is a list of metrics and nothing else.
pub open spec fn lists(text: Seq<char>, metrics: Seq<(Seq<char>, Seq<char>, u64)>) -> bool
    decreases metrics.len(),
{
    if metrics.len() == 0 {
        text.len() == 0
    } else {
        exists|before: Seq<char>, digits: Seq<char>| #[trigger]
            adds_metric(text, before, metrics.last(), digits) && lists(before, metrics.drop_last())
    }
}

/// The text of one metric.
#[verifier::opaque]
spec fn text_of_metric(metric: (Seq<char>, Seq<char>, u64)) -> Seq<char> {
    metric_text(metric.0, metric.1, metric.2)
}

proof fn lemma_one_more(before: Seq<char>, l: Seq<(Seq<char>, Seq<char>, u64)>, n: int)
    requires
        0 <= n < l.len(),
        lists(before, l.take(n)),
    ensures
        lists(before + text_of_metric(l[n]), l.take(n + 1)),
{
    reveal(text_of_metric);
    let all = l.take(n + 1);
    assert(all.drop_last() =~= l.take(n));
    assert(all.last() == l[n]);
    let value = l[n].2;
    lemma_spelled(value as nat);
    assert(adds_metric(
        before + text_of_metric(l[n]),
        before,
        all.last(),
        decimal(value as nat),
    ));
}

proof fn lemma_listed(m: Metrics)
    ensures
        lists(prometheus_text(m), listed(m)),
{
    reveal(listed);
    let l = listed(m);
    let e = Seq::<char>::empty();
    assert(l.take(0) =~= Seq::empty());
    lemma_one_more(e, l, 0);
    let a0 = text_of_metric(l[0]);
    assert(e + a0 =~= a0);
    let a1 = a0 + text_of_metric(l[1]);
    lemma_one_more(a0, l, 1);
    let a2 = a1 + text_of_metric(l[2]);
    lemma_one_more(a1, l, 2);
    let a3 = a2 + text_of_metric(l[3]);
    lemma_one_more(a2, l, 3);
    let a4 = a3 + text_of_metric(l[4]);
    lemma_one_more(a3, l, 4);
    let a5 = a4 + text_of_metric(l[5]);
    lemma_one_more(a4, l, 5);
    let a6 = a5 + text_of_metric(l[6]);
    lemma_one_more(a5, l, 6);
    let a7 = a6 + text_of_metric(l[7]);
    lemma_one_more(a6, l, 7);
    let a8 = a7 + text_of_metric(l[8]);
    lemma_one_more(a7, l, 8);
    let a9 = a8 + text_of_metric(l[9]);
    lemma_one_more(a8, l, 9);
    let a10 = a9 + text_of_metric(l[10]);
    lemma_one_more(a9, l, 10);
    let a11 = a10 + text_of_metric(l[11]);
    lemma_one_more(a10, l, 11);
    let a12 = a11 + text_of_metric(l[12]);
    lemma_one_more(a11, l, 12);
    let a13 = a12 + text_of_metric(l[13]);
    lemma_one_more(a12, l, 13);
    let a14 = a13 + text_of_metric(l[14]);
    lemma_one_more(a13, l, 14);
    let a15 = a14 + text_of_metric(l[15]);
    lemma_one_more(a14, l, 15);
    let a16 = a15 + text_of_metric(l[16]);
    lemma_one_more(a15, l, 16);
    assert(l.take(17) =~= l);
    assert(a16 == prometheus_text(m)) by {
        reveal(text_of_metric);
    }
}

/// The metrics are listed one after the other: each name with the value of its own counter, written
/// in decimal, and nothing else.
pub proof fn law_metrics_are_listed(m: Metrics, r: String)
    requires
        call_ensures(Metrics::prometheus, (&m,), r),
    ensures
        lists(r@, listed(m)),
{
    lemma_listed(m);
}

/// Entries one after the other.
spec fn entries(l: Seq<(Seq<char>, Seq<char>, u64)>) -> Seq<char>
    decreases l.len(),
{
    if l.len() == 0 {
        Seq::empty()
    } else {
        entries(l.drop_last()) + text_of_metric(l.last())
    }
}

proof fn lemma_entries(text: Seq<char>, l: Seq<(Seq<char>, Seq<char>, u64)>)
    requires
        lists(text, l),
    ensures
        text == entries(l),
    decreases l.len(),
{
    if l.len() == 0 {
        assert(text =~= Seq::empty());
    } else {
        let (before, digits) = choose|before: Seq<char>, digits: Seq<char>| #[trigger]
            adds_metric(text, before, l.last(), digits) && lists(before, l.drop_last());
        lemma_entries(before, l.drop_last());
        let value = l.last().2;
        lemma_spelled(value as nat);
        lemma_spelled_once(digits, decimal(value as nat));
        reveal(text_of_metric);
    }
}

proof fn lemma_entries_split(
    a: Seq<(Seq<char>, Seq<char>, u64)>,
    b: Seq<(Seq<char>, Seq<char>, u64)>,
)
    ensures
        entries(a + b) == entries(a) + entries(b),
    decreases b.len(),
{
    if b.len() == 0 {
        assert(a + b =~= a);
        assert(entries(a) + entries(b) =~= entries(a));
    } else {
        lemma_entries_split(a, b.drop_last());
        assert((a + b).drop_last() =~= a + b.drop_last());
        assert((a + b).last() == b.last());
        assert(entries(a) + entries(b.drop_last()) + text_of_metric(b.last()) =~= entries(a)
            + entries(b));
    }
}

/// Whether two texts are the same but for one entry.
pub open spec fn same_but_one(
    r: Seq<char>,
    s: Seq<char>,
    a: (Seq<char>, Seq<char>, u64),
    b: (Seq<char>, Seq<char>, u64),
) -> bool {
    exists|front: Seq<char>, d: Seq<char>, e: Seq<char>, back: Seq<char>|
        {
            &&& r == #[trigger] (front + entry(a, d) + back)
            &&& s == #[trigger] (front + entry(b, e) + back)
            &&& spells(d, a.2 as nat)
            &&& spells(e, b.2 as nat)
        }
}

proof fn lemma_same_but_one(
    r: Seq<char>,
    s: Seq<char>,
    p: Seq<(Seq<char>, Seq<char>, u64)>,
    q: Seq<(Seq<char>, Seq<char>, u64)>,
    k: int,
)
    requires
        lists(r, p),
        lists(s, q),
        p.len() == q.len(),
        0 <= k < p.len(),
        forall|i: int| 0 <= i < p.len() && i != k ==> #[trigger] p[i] == q[i],
    ensures
        same_but_one(r, s, p[k], q[k]),
{
    lemma_entries(r, p);
    lemma_entries(s, q);
    lemma_entry(p, k);
    lemma_entry(q, k);
    assert(p.take(k) =~= q.take(k));
    assert(p.skip(k + 1) =~= q.skip(k + 1));
    let (front, back) = (entries(p.take(k)), entries(p.skip(k + 1)));
    let (d, e) = (decimal(p[k].2 as nat), decimal(q[k].2 as nat));
    lemma_spelled(p[k].2 as nat);
    lemma_spelled(q[k].2 as nat);
    assert(r == front + entry(p[k], d) + back);
    assert(s == front + entry(q[k], e) + back);
}

proof fn lemma_seventeen(m: Metrics)
    ensures
        listed(m).len() == 17,
{
    reveal(listed);
}

/// A metric that changes changes its own entry, and no other.
pub proof fn law_each_metric_has_its_entry(m: Metrics, n: Metrics, r: String, s: String, k: int)
    requires
        call_ensures(Metrics::prometheus, (&m,), r),
        call_ensures(Metrics::prometheus, (&n,), s),
        0 <= k < 17,
        forall|i: int| 0 <= i < 17 && i != k ==> #[trigger] listed(m)[i] == listed(n)[i],
    ensures
        same_but_one(r@, s@, listed(m)[k], listed(n)[k]),
{
    law_metrics_are_listed(m, r);
    law_metrics_are_listed(n, s);
    lemma_seventeen(m);
    lemma_seventeen(n);
    lemma_same_but_one(r@, s@, listed(m), listed(n), k);
}

proof fn lemma_entry(l: Seq<(Seq<char>, Seq<char>, u64)>, k: int)
    requires
        0 <= k < l.len(),
    ensures
        entries(l) == entries(l.take(k)) + entry(l[k], decimal(l[k].2 as nat)) + entries(
            l.skip(k + 1),
        ),
{
    reveal(text_of_metric);
    let front = l.take(k + 1);
    lemma_entries_split(front, l.skip(k + 1));
    assert(front + l.skip(k + 1) =~= l);
    assert(front.drop_last() =~= l.take(k));
    assert(front.last() == l[k]);
}

/// The relay lists its own metrics.
pub proof fn law_the_relay_lists_its_metrics(relay: &Relay, r: String)
    requires
        call_ensures(Relay::prometheus, (relay,), r),
    ensures
        lists(r@, listed(relay@.metrics)),
{
    lemma_listed(relay@.metrics);
}

/// Adding to a counter adds that number, and begins again at zero after the greatest.
pub proof fn law_counters_add(v: &mut u64, n: u64)
    requires
        call_ensures(Metrics::inc, (v, n), ()),
    ensures
        *final(v) == (*old(v) + n) % 0x1_0000_0000_0000_0000,
{
}

/// Taking from a gauge takes one, and goes on at the greatest number below zero.
pub proof fn law_gauges_take_one(v: &mut u64)
    requires
        call_ensures(Metrics::dec, (v,), ()),
    ensures
        (*final(v) + 1) % 0x1_0000_0000_0000_0000 == *old(v),
{
}

/// Counting begins at zero.
pub proof fn law_counting_begins_at_zero(m: Metrics)
    requires
        call_ensures(Metrics::default, (), m),
    ensures
        forall|i: int| 0 <= i < 17 ==> (#[trigger] listed(m)[i]).2 == 0,
{
    reveal(listed);
}

} // verus!
