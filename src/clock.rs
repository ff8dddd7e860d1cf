//! The tick: `ikcp_update` decides when to flush, `ikcp_check` tells the
//! host when the next tick is worth making.

use vstd::prelude::*;
use crate::wire::Segment;
use crate::kcp::Kcp;
use crate::flush::{datagrams_ok, flushed};
use crate::rtt::{diff, tadd, time_diff, time_add};

verus! {

/// Largest gap between the clock and the flush time that is taken as
/// ordinary; a larger one resets the flush time.
pub const IKCP_FLUSH_SLACK: i64 = 10000;

/// The flush time that an update at `current` starts from.
pub open spec fn flush_base(k: &Kcp, current: u32) -> u32 {
    let t = if !k.updated { current } else { k.ts_flush };
    let slap = time_diff(current, t);
    if slap > 10000 || slap < -10000 { current } else { t }
}

/// An update at `current` flushes.
pub open spec fn flush_due(k: &Kcp, current: u32) -> bool {
    time_diff(current, flush_base(k, current)) >= 0
}

/// The flush time after an update at `current` that flushes.
pub open spec fn next_flush(k: &Kcp, current: u32) -> u32 {
    let t = time_add(flush_base(k, current), k.interval);
    if time_diff(current, t) >= 0 { time_add(current, k.interval) } else { t }
}

/// The nearest retransmission time in `q`, in ms from `current`, or
/// `0x7fffffff` when `q` is empty.
pub open spec fn min_resend(q: Seq<Segment>, current: u32) -> int
    decreases q.len(),
{
    if q.len() == 0 {
        0x7fffffff
    } else {
        let m = min_resend(q.drop_last(), current);
        let d = time_diff(q.last().resendts, current);
        if d < m { d } else { m }
    }
}

/// `t` moved by `m` ms (either way) on the 32-bit millisecond clock.
pub open spec fn time_offset(t: u32, m: int) -> u32 {
    ((t + m) % 0x1_0000_0000) as u32
}

/// When the next update is due, as seen at `current`: the nearer of the
/// flush time and the earliest retransmission time (either may have passed
/// already), both measured from `current` on the wrapping clock, but no
/// later than one interval from `current`.
pub open spec fn next_update(k: &Kcp, current: u32) -> u32 {
    let tm_flush = time_diff(k.ts_flush, current);
    let tm_packet = min_resend(k.snd_buf@, current);
    let m = if tm_packet < tm_flush { tm_packet } else { tm_flush };
    let m2 = if m > k.interval { k.interval as int } else { m };
    time_offset(current, m2)
}

impl Kcp {
    /// Advances the clock to `current`; when the flush time has come,
    /// schedules the next one an interval later and flushes.
    pub fn ikcp_update(&mut self, current: u32)
        requires
            old(self).wf(),
        ensures
            final(self).wf(),
            old(self).in_window() ==> final(self).in_window(),
            old(self).fits_mss() ==> final(self).fits_mss(),
            final(self).current == current && final(self).updated,
            final(self).rx_rto == old(self).rx_rto,
            final(self).snd_una == old(self).snd_una && final(self).rcv_nxt == old(self).rcv_nxt,
            final(self).snd_nxt >= old(self).snd_nxt,
            final(self).same_config(old(self)),
            final(self).outbox@.take(old(self).outbox@.len() as int) == old(self).outbox@,
            datagrams_ok(
                final(self).outbox@,
                old(self).outbox@.len() as int,
                old(self).mtu,
                old(self).fits_mss(),
                old(self).conv,
            ),
            flush_due(old(self), current) ==> final(self).ts_flush == next_flush(old(self), current)
                && flushed(
                &Kcp { current: current, updated: true, ts_flush: next_flush(old(self), current), ..*old(self) },
                final(self),
            ),
            !flush_due(old(self), current) ==> final(self).ts_flush == flush_base(old(self), current)
                && final(self).outbox@ == old(self).outbox@
                && final(self).snd_buf@ == old(self).snd_buf@
                && final(self).snd_queue@ == old(self).snd_queue@
                && final(self).acklist@ == old(self).acklist@,
    {
        self.current = current;
        if !self.updated {
            self.updated = true;
            self.ts_flush = current;
        }
        let mut slap = diff(current, self.ts_flush);
        if slap > IKCP_FLUSH_SLACK || slap < -IKCP_FLUSH_SLACK {
            self.ts_flush = current;
            slap = 0;
        }
        assert(self.outbox@.take(old(self).outbox@.len() as int) =~= old(self).outbox@);
        if slap >= 0 {
            self.ts_flush = tadd(self.ts_flush, self.interval);
            if diff(current, self.ts_flush) >= 0 {
                self.ts_flush = tadd(current, self.interval);
            }
            let ghost before = self.outbox@;
            assert(*self == Kcp {
                current: current,
                updated: true,
                ts_flush: next_flush(old(self), current),
                ..*old(self)
            });
            self.ikcp_flush();
            assert(self.outbox@.take(old(self).outbox@.len() as int) =~= old(self).outbox@) by {
                assert(self.outbox@.take(before.len() as int) == before);
            }
        }
    }

    /// When the host should call `ikcp_update` next, given the time now:
    /// the nearer of the flush time and the earliest retransmission time,
    /// capped at `current + interval`.
    pub fn ikcp_check(&self, current: u32) -> (r: u32)
        ensures
            r == next_update(self, current),
    {
        let tm_flush = diff(self.ts_flush, current);
        let mut tm_packet: i64 = 0x7fffffff;
        let ghost q = self.snd_buf@;
        let mut i: usize = 0;
        assert(q.take(0) =~= Seq::<Segment>::empty());
        while i < self.snd_buf.len()
            invariant
                q == self.snd_buf@,
                i <= q.len(),
                tm_packet == min_resend(q.take(i as int), current),
                -0x8000_0000 <= tm_packet <= 0x7fffffff,
            decreases q.len() - i,
        {
            proof {
                let t = q.take(i + 1);
                assert(t.drop_last() =~= q.take(i as int));
                assert(t.last() == q[i as int]);
            }
            let d = diff(self.snd_buf[i].resendts, current);
            if d < tm_packet {
                tm_packet = d;
            }
            i = i + 1;
        }
        assert(q.take(q.len() as int) =~= q);
        let m = if tm_packet < tm_flush { tm_packet } else { tm_flush };
        let m2 = if m > self.interval as i64 { self.interval as i64 } else { m };
        let v = current as i64 + m2;
        let w = if v < 0 {
            v + 0x1_0000_0000
        } else if v >= 0x1_0000_0000 {
            v - 0x1_0000_0000
        } else {
            v
        };
        w as u32
    }
}

} // verus!
