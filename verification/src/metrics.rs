//! Counters and gauges, and their Prometheus text.

use vstd::prelude::*;
use vstd::string::*;

use crate::text::{decimal, push_decimal};

verus! {

/// What the relay counts. Counters wrap around.
#[derive(Clone, Copy, Debug, PartialEq, Eq, Structural)]
pub struct Metrics {
    pub accepts: u64,
    pub current_clients: u64,
    pub preferred_clients: u64,
    pub home_moves_in: u64,
    pub home_moves_out: u64,
    pub packets_received: u64,
    pub packets_sent: u64,
    pub bytes_received: u64,
    pub bytes_sent: u64,
    pub packets_dropped: u64,
    pub queue_dropped: u64,
    pub unknown_frames: u64,
    pub websocket_accepts: u64,
    pub stun_requests: u64,
    pub admission_rejected: u64,
    pub mesh_forwarded_in: u64,
    pub mesh_forwarded_out: u64,
}

/// `x` and `n` added, wrapping around at 2^64.
pub open spec fn plus(x: u64, n: u64) -> u64 {
    if x + n > u64::MAX {
        (x + n - 0x1_0000_0000_0000_0000) as u64
    } else {
        (x + n) as u64
    }
}

/// `x` less one, wrapping around below zero.
pub open spec fn less_one(x: u64) -> u64 {
    if x == 0 {
        u64::MAX
    } else {
        (x - 1) as u64
    }
}

/// One metric in the Prometheus text format: its type, then its value.
pub open spec fn metric_text(name: Seq<char>, kind: Seq<char>, value: u64) -> Seq<char> {
    "# TYPE "@ + name + " "@ + kind + "\n"@ + name + " "@ + decimal(value as nat) + "\n"@
}

/// All metrics in the Prometheus text format.
pub open spec fn prometheus_text(m: Metrics) -> Seq<char> {
    metric_text("derp_accepts_total"@, "counter"@, m.accepts)
        + metric_text("derp_current_clients"@, "gauge"@, m.current_clients)
        + metric_text("derp_preferred_clients"@, "gauge"@, m.preferred_clients)
        + metric_text("derp_home_moves_in_total"@, "counter"@, m.home_moves_in)
        + metric_text("derp_home_moves_out_total"@, "counter"@, m.home_moves_out)
        + metric_text("derp_packets_received_total"@, "counter"@, m.packets_received)
        + metric_text("derp_packets_sent_total"@, "counter"@, m.packets_sent)
        + metric_text("derp_bytes_received_total"@, "counter"@, m.bytes_received)
        + metric_text("derp_bytes_sent_total"@, "counter"@, m.bytes_sent)
        + metric_text("derp_packets_dropped_total"@, "counter"@, m.packets_dropped)
        + metric_text("derp_queue_dropped_total"@, "counter"@, m.queue_dropped)
        + metric_text("derp_unknown_frames_total"@, "counter"@, m.unknown_frames)
        + metric_text("derp_websocket_accepts_total"@, "counter"@, m.websocket_accepts)
        + metric_text("derp_stun_requests_total"@, "counter"@, m.stun_requests)
        + metric_text("derp_admission_rejected_total"@, "counter"@, m.admission_rejected)
        + metric_text("derp_mesh_forwarded_in_total"@, "counter"@, m.mesh_forwarded_in)
        + metric_text("derp_mesh_forwarded_out_total"@, "counter"@, m.mesh_forwarded_out)
}

/// Every metric at zero.
pub open spec fn zero_metrics() -> Metrics {
    Metrics {
        accepts: 0,
        current_clients: 0,
        preferred_clients: 0,
        home_moves_in: 0,
        home_moves_out: 0,
        packets_received: 0,
        packets_sent: 0,
        bytes_received: 0,
        bytes_sent: 0,
        packets_dropped: 0,
        queue_dropped: 0,
        unknown_frames: 0,
        websocket_accepts: 0,
        stun_requests: 0,
        admission_rejected: 0,
        mesh_forwarded_in: 0,
        mesh_forwarded_out: 0,
    }
}

impl Default for Metrics {
    /// Every metric at zero.
    fn default() -> (r: Metrics)
        ensures
            r == zero_metrics(),
    {
        Metrics {
            accepts: 0,
            current_clients: 0,
            preferred_clients: 0,
            home_moves_in: 0,
            home_moves_out: 0,
            packets_received: 0,
            packets_sent: 0,
            bytes_received: 0,
            bytes_sent: 0,
            packets_dropped: 0,
            queue_dropped: 0,
            unknown_frames: 0,
            websocket_accepts: 0,
            stun_requests: 0,
            admission_rejected: 0,
            mesh_forwarded_in: 0,
            mesh_forwarded_out: 0,
        }
    }
}

/// Appends one metric in the Prometheus text format.
fn push_metric(out: &mut String, name: &str, kind: &str, value: u64)
    ensures
        final(out)@ == old(out)@ + metric_text(name@, kind@, value),
{
    out.append("# TYPE ");
    out.append(name);
    out.append(" ");
    out.append(kind);
    out.append("\n");
    out.append(name);
    out.append(" ");
    push_decimal(out, value);
    out.append("\n");
    proof {
        assert(out@ =~= old(out)@ + metric_text(name@, kind@, value));
    }
}

impl Metrics {
    /// Adds to a counter or gauge.
    pub fn inc(v: &mut u64, n: u64)
        ensures
            *final(v) == plus(*old(v), n),
    {
        *v = v.wrapping_add(n);
    }

    /// Takes one from a gauge.
    pub fn dec(v: &mut u64)
        ensures
            *final(v) == less_one(*old(v)),
    {
        *v = v.wrapping_sub(1);
    }

    /// All metrics in the Prometheus text format.
    pub fn prometheus(&self) -> (r: String)
        ensures
            r@ == prometheus_text(*self),
    {
        let mut out = String::new();
        push_metric(&mut out, "derp_accepts_total", "counter", self.accepts);
        push_metric(&mut out, "derp_current_clients", "gauge", self.current_clients);
        push_metric(&mut out, "derp_preferred_clients", "gauge", self.preferred_clients);
        push_metric(&mut out, "derp_home_moves_in_total", "counter", self.home_moves_in);
        push_metric(&mut out, "derp_home_moves_out_total", "counter", self.home_moves_out);
        push_metric(&mut out, "derp_packets_received_total", "counter", self.packets_received);
        push_metric(&mut out, "derp_packets_sent_total", "counter", self.packets_sent);
        push_metric(&mut out, "derp_bytes_received_total", "counter", self.bytes_received);
        push_metric(&mut out, "derp_bytes_sent_total", "counter", self.bytes_sent);
        push_metric(&mut out, "derp_packets_dropped_total", "counter", self.packets_dropped);
        push_metric(&mut out, "derp_queue_dropped_total", "counter", self.queue_dropped);
        push_metric(&mut out, "derp_unknown_frames_total", "counter", self.unknown_frames);
        push_metric(&mut out, "derp_websocket_accepts_total", "counter", self.websocket_accepts);
        push_metric(&mut out, "derp_stun_requests_total", "counter", self.stun_requests);
        push_metric(&mut out, "derp_admission_rejected_total", "counter", self.admission_rejected);
        push_metric(&mut out, "derp_mesh_forwarded_in_total", "counter", self.mesh_forwarded_in);
        push_metric(&mut out, "derp_mesh_forwarded_out_total", "counter", self.mesh_forwarded_out);
        proof {
            assert(Seq::<char>::empty() + metric_text(
                "derp_accepts_total"@,
                "counter"@,
                self.accepts,
            ) =~= metric_text("derp_accepts_total"@, "counter"@, self.accepts));
        }
        out
    }
}

} // verus!
