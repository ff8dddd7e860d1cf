//! Clock arithmetic and the round-trip-time estimator.

use vstd::prelude::*;
use crate::kcp::{Kcp, IKCP_RTO_MAX};

verus! {

pub open spec fn spec_ibound(lower: int, middle: int, upper: int) -> int {
    let m = if lower > middle { lower } else { middle };
    if m < upper { m } else { upper }
}

/// `middle` raised to `lower`, then capped at `upper`.
pub fn ibound(lower: u32, middle: u32, upper: u32) -> (r: u32)
    ensures
        r == spec_ibound(lower as int, middle as int, upper as int),
{
    let m = if lower > middle { lower } else { middle };
    if m < upper { m } else { upper }
}

/// `later - earlier` on the 32-bit millisecond clock, read as a signed
/// 32-bit difference, so that a wrap of the clock is harmless.
pub open spec fn time_diff(later: u32, earlier: u32) -> int {
    let d = if later >= earlier {
        later - earlier
    } else {
        later + 0x1_0000_0000 - earlier
    };
    if d < 0x8000_0000 { d } else { d - 0x1_0000_0000 }
}

/// `t + d` on the 32-bit millisecond clock.
pub open spec fn time_add(t: u32, d: u32) -> u32 {
    if t + d > u32::MAX { (t + d - 0x1_0000_0000) as u32 } else { (t + d) as u32 }
}

pub fn diff(later: u32, earlier: u32) -> (r: i64)
    ensures
        r == time_diff(later, earlier),
        -0x8000_0000 <= r < 0x8000_0000,
{
    let d = later.wrapping_sub(earlier);
    if d < 0x8000_0000 {
        d as i64
    } else {
        d as i64 - 0x1_0000_0000
    }
}

pub(crate) fn tadd(t: u32, d: u32) -> (r: u32)
    ensures
        r == time_add(t, d),
{
    t.wrapping_add(d)
}

pub open spec fn abs_diff(a: int, b: int) -> int {
    if a > b { a - b } else { b - a }
}

/// `(srtt, rttval, rto)` after the sample `rtt`: the first sample sets the
/// smoothed RTT and half of it as variation; later ones move them by 1/8
/// and 1/4 of the difference; the timeout is the smoothed RTT plus the
/// larger of `interval` and four variations, between `minrto` and 60000 ms.
pub open spec fn estimate(srtt: u32, rttval: u32, rtt: u32, interval: u32, minrto: u32) -> (u32, u32, u32) {
    let s: int = if srtt == 0 {
        rtt as int
    } else {
        let x = (7 * srtt + rtt) / 8;
        if x < 1 { 1 } else { x }
    };
    let v: int = if srtt == 0 {
        (rtt / 2) as int
    } else {
        (3 * rttval + abs_diff(rtt as int, srtt as int)) / 4
    };
    let r = spec_ibound(minrto as int, s + (if interval > 4 * v { interval as int } else { 4 * v }), IKCP_RTO_MAX as int);
    (s as u32, v as u32, r as u32)
}

impl Kcp {
    /// The smoothed RTT that a sample `rtt` leads to.
    pub open spec fn next_srtt(&self, rtt: u32) -> int {
        if self.rx_srtt == 0 {
            rtt as int
        } else {
            let s = (7 * self.rx_srtt + rtt) / 8;
            if s < 1 { 1 } else { s }
        }
    }

    /// The RTT variation that a sample `rtt` leads to.
    pub open spec fn next_rttval(&self, rtt: u32) -> int {
        if self.rx_srtt == 0 {
            (rtt / 2) as int
        } else {
            (3 * self.rx_rttval + abs_diff(rtt as int, self.rx_srtt as int)) / 4
        }
    }

    /// Feeds one round-trip sample to the estimator and recomputes the
    /// retransmission timeout.
    pub(crate) fn ikcp_update_ack(&mut self, rtt: u32)
        requires
            old(self).wf(),
        ensures
            final(self).wf(),
            final(self).rx_srtt == old(self).next_srtt(rtt),
            final(self).rx_rttval == old(self).next_rttval(rtt),
            final(self).rx_rto == spec_ibound(
                old(self).rx_minrto as int,
                old(self).next_srtt(rtt) + (if old(self).interval > 4 * old(self).next_rttval(rtt) {
                    old(self).interval as int
                } else {
                    4 * old(self).next_rttval(rtt)
                }),
                IKCP_RTO_MAX as int,
            ),
            old(self).rx_minrto <= final(self).rx_rto <= IKCP_RTO_MAX,
            (final(self).rx_srtt, final(self).rx_rttval, final(self).rx_rto) == estimate(
                old(self).rx_srtt,
                old(self).rx_rttval,
                rtt,
                old(self).interval,
                old(self).rx_minrto,
            ),
            final(self).same_config(old(self)),
            final(self).snd_una == old(self).snd_una && final(self).snd_nxt == old(self).snd_nxt,
            final(self).rcv_nxt == old(self).rcv_nxt,
            final(self).snd_buf@ == old(self).snd_buf@ && final(self).snd_queue@ == old(self).snd_queue@,
            final(self).rcv_buf@ == old(self).rcv_buf@ && final(self).rcv_queue@ == old(self).rcv_queue@,
            final(self).acklist@ == old(self).acklist@ && final(self).outbox@ == old(self).outbox@,
            final(self).cwnd == old(self).cwnd && final(self).incr == old(self).incr,
            final(self).ssthresh == old(self).ssthresh && final(self).rmt_wnd == old(self).rmt_wnd,
            final(self).probe == old(self).probe && final(self).xmit == old(self).xmit,
            final(self).current == old(self).current && final(self).ts_flush == old(self).ts_flush,
            final(self).updated == old(self).updated && final(self).dead == old(self).dead,
            final(self).ts_probe == old(self).ts_probe && final(self).probe_wait == old(self).probe_wait,
    {
        if self.rx_srtt == 0 {
            self.rx_srtt = rtt;
            self.rx_rttval = rtt / 2;
        } else {
            let srtt = self.rx_srtt as u64;
            let delta: u64 = if rtt as u64 > srtt {
                rtt as u64 - srtt
            } else {
                srtt - rtt as u64
            };
            let v = (3 * self.rx_rttval as u64 + delta) / 4;
            let s = (7 * srtt + rtt as u64) / 8;
            assert(v <= u32::MAX) by {
                assert(delta <= u32::MAX);
            }
            self.rx_rttval = v as u32;
            self.rx_srtt = if s < 1 { 1 } else { s as u32 };
        }
        let four_v = 4 * self.rx_rttval as u64;
        let spread = if self.interval as u64 > four_v { self.interval as u64 } else { four_v };
        let rto = self.rx_srtt as u64 + spread;
        let capped = if rto > IKCP_RTO_MAX as u64 {
            IKCP_RTO_MAX
        } else {
            rto as u32
        };
        self.rx_rto = ibound(self.rx_minrto, capped, IKCP_RTO_MAX);
    }
}

} // verus!
