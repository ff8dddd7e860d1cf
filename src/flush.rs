//! The flush engine: acknowledgements, window probes, promotion of queued
//! segments into the send window, first transmissions and retransmissions,
//! packed into datagrams of at most one MTU, then the congestion update.

use vstd::prelude::*;
use bytes::BytesMut;
use crate::wire::{Segment, Header, segments_well_formed, is_command, lemma_append_segment, IKCP_CMD_ACK,
    IKCP_CMD_PUSH, IKCP_CMD_WASK, IKCP_CMD_WINS, IKCP_OVERHEAD};
use crate::staging::{staged, staging_len, staging_take};
use crate::kcp::{Kcp, IKCP_ASK_SEND, IKCP_ASK_TELL, IKCP_PROBE_INIT,
    IKCP_PROBE_LIMIT, IKCP_THRESH_MIN};
use crate::rtt::{diff, tadd, time_diff, time_add};
use crate::input::sat32;

verus! {

/// Every datagram of `out` from index `from` on is a non-empty run of whole
/// segments and, when `bounded`, fits in `mtu` bytes.
pub open spec fn datagrams_ok(out: Seq<Vec<u8>>, from: int, mtu: u32, bounded: bool, conv: u32) -> bool {
    forall|i: int|
        from <= i < out.len() ==> (#[trigger] out[i])@.len() > 0 && segments_well_formed(out[i]@, conv)
            && (bounded ==> out[i]@.len() <= mtu)
}

/// The datagrams of `out`, concatenated.
pub open spec fn flatten(out: Seq<Vec<u8>>) -> Seq<u8>
    decreases out.len(),
{
    if out.len() == 0 {
        Seq::empty()
    } else {
        flatten(out.drop_last()) + out.last()@
    }
}

/// Everything a flush that started from `start` has put out so far: the
/// datagrams it added to the outbox, then what is staged.
pub open spec fn emitted(k: &Kcp, start: &Kcp) -> Seq<u8> {
    flatten(k.outbox@.skip(start.outbox@.len() as int)) + staged(k.buffer)
}

/// A segment without payload on the wire: an acknowledgement, a window
/// probe or a window announcement.
pub open spec fn control_wire(conv: u32, cmd: u8, wnd: u16, ts: u32, sn: u32, una: u32) -> Seq<u8> {
    Header { conv, cmd, frg: 0, wnd, ts, sn, una, len: 0 }.wire()
}

/// One acknowledgement for each pending `(sn, ts)`, in order.
pub open spec fn ack_bytes(acks: Seq<(u32, u32)>, conv: u32, wnd: u16, una: u32) -> Seq<u8>
    decreases acks.len(),
{
    if acks.len() == 0 {
        Seq::empty()
    } else {
        ack_bytes(acks.drop_last(), conv, wnd, una) + control_wire(
            conv,
            IKCP_CMD_ACK,
            wnd,
            acks.last().1,
            acks.last().0,
            una,
        )
    }
}

/// The `probe` bits after the probe schedule of a flush of `k`.
pub open spec fn due_probe(k: &Kcp) -> u32 {
    if k.rmt_wnd == 0 && k.probe_wait != 0 && time_diff(k.current, k.ts_probe) >= 0 {
        k.probe | IKCP_ASK_SEND
    } else {
        k.probe
    }
}

/// The window probe and the window announcement that the bits `p` ask for.
pub open spec fn probe_bytes(p: u32, conv: u32, wnd: u16, ts: u32, sn: u32, una: u32) -> Seq<u8> {
    (if p & IKCP_ASK_SEND != 0 {
        control_wire(conv, IKCP_CMD_WASK, wnd, ts, sn, una)
    } else {
        Seq::empty()
    }) + (if p & IKCP_ASK_TELL != 0 {
        control_wire(conv, IKCP_CMD_WINS, wnd, ts, sn, una)
    } else {
        Seq::empty()
    })
}

/// The segments of `q` that `mask` picks, on the wire, in order.
pub open spec fn picked_wire(q: Seq<Segment>, mask: Seq<bool>) -> Seq<u8>
    decreases q.len(),
{
    if q.len() == 0 {
        Seq::empty()
    } else {
        picked_wire(q.drop_last(), mask.drop_last()) + (if mask.last() {
            q.last().wire()
        } else {
            Seq::empty()
        })
    }
}

proof fn lemma_flatten_push(out: Seq<Vec<u8>>, v: Vec<u8>, from: int)
    requires
        0 <= from <= out.len(),
    ensures
        flatten(out.push(v).skip(from)) == flatten(out.skip(from)) + v@,
{
    assert(out.push(v).skip(from).drop_last() =~= out.skip(from));
}

/// Moves the staged bytes, if any, into a datagram of the outbox.
fn ship(buffer: &mut BytesMut, outbox: &mut Vec<Vec<u8>>)
    ensures
        staged(*final(buffer)) == Seq::<u8>::empty(),
        staged(*old(buffer)).len() == 0 ==> final(outbox)@ == old(outbox)@,
        staged(*old(buffer)).len() > 0 ==> final(outbox)@ == old(outbox)@.push(
            final(outbox)@.last(),
        ) && final(outbox)@.last()@ == staged(*old(buffer)),
{
    if staging_len(buffer) > 0 {
        let d = staging_take(buffer);
        outbox.push(d);
    } else {
        assert(staged(*buffer) =~= Seq::<u8>::empty());
    }
}

/// Stages one segment, shipping what is staged first if the segment would
/// not fit in the same datagram.
fn emit(buffer: &mut BytesMut, outbox: &mut Vec<Vec<u8>>, seg: &Segment, mtu: u32)
    requires
        seg.well_formed(),
        is_command(seg.cmd),
        segments_well_formed(staged(*old(buffer)), seg.conv),
    ensures
        segments_well_formed(staged(*final(buffer)), seg.conv),
        final(outbox)@ == old(outbox)@ && staged(*final(buffer)) == staged(*old(buffer))
            + seg.wire() || final(outbox)@ == old(outbox)@.push(final(outbox)@.last())
            && final(outbox)@.last()@ == staged(*old(buffer)) && staged(*old(buffer)).len() > 0
            && staged(*final(buffer)) == seg.wire(),
        staged(*old(buffer)).len() <= mtu && 24 + seg.data@.len() <= mtu ==> staged(
            *final(buffer),
        ).len() <= mtu,
{
    let used = staging_len(buffer);
    if used > 0 && used as u128 + IKCP_OVERHEAD as u128 + seg.data.len() as u128 > mtu as u128 {
        ship(buffer, outbox);
    }
    let ghost before = staged(*buffer);
    seg.encode(buffer);
    proof {
        lemma_append_segment(before, *seg);
        if before.len() == 0 {
            assert(before + seg.wire() =~= seg.wire());
        }
    }
}

proof fn lemma_datagrams_push(out: Seq<Vec<u8>>, new: Seq<Vec<u8>>, from: int, mtu: u32, bounded: bool, d: Seq<u8>, conv: u32)
    requires
        datagrams_ok(out, from, mtu, bounded, conv),
        0 <= from <= out.len(),
        new == out.push(new.last()),
        new.last()@ == d,
        d.len() > 0,
        segments_well_formed(d, conv),
        bounded ==> d.len() <= mtu,
    ensures
        datagrams_ok(new, from, mtu, bounded, conv),
        new.take(from) == out.take(from),
{
    assert forall|i: int| from <= i < new.len() implies (#[trigger] new[i])@.len() > 0
        && segments_well_formed(new[i]@, conv) && (bounded ==> new[i]@.len() <= mtu) by {
        if i < out.len() {
            assert(new[i] == out[i]);
        }
    }
    assert(new.take(from) =~= out.take(from));
}

/// Segments that a flush moves from the send queue into the send buffer:
/// as many as the effective window leaves room for, below `u32::MAX`.
pub open spec fn promoted_count(k: &Kcp) -> nat {
    let top = if k.snd_una + k.effective_window() > u32::MAX {
        u32::MAX as int
    } else {
        k.snd_una + k.effective_window()
    };
    let room = if top > k.snd_nxt { top - k.snd_nxt } else { 0 };
    if k.snd_queue@.len() < room { k.snd_queue@.len() } else { room as nat }
}

/// The `j`-th queued segment `q` as a flush of `pre` admits it to the send
/// window: numbered, stamped and not yet transmitted.
pub open spec fn stamped(pre: &Kcp, q: Segment, j: int, wnd: u16) -> Segment {
    Segment {
        conv: pre.conv,
        cmd: IKCP_CMD_PUSH,
        wnd: wnd,
        ts: pre.current,
        sn: (pre.snd_nxt + j) as u32,
        una: pre.rcv_nxt,
        resendts: pre.current,
        rto: pre.rx_rto,
        fastack: 0,
        xmit: 0,
        ..q
    }
}

/// The send buffer of `pre` once a flush has admitted queued segments.
pub open spec fn admitted(pre: &Kcp) -> Seq<Segment> {
    pre.snd_buf@ + Seq::new(
        promoted_count(pre),
        |j: int| stamped(pre, pre.snd_queue@[j], j, pre.spec_wnd_unused()),
    )
}

/// `(probe_wait, ts_probe)` after the probe schedule of a flush of `k`:
/// reset while the remote window is open; on a closed one, a first wait of
/// `IKCP_PROBE_INIT` ms, then half as long again each time it runs out, at
/// most `IKCP_PROBE_LIMIT` ms.
pub open spec fn scheduled_probe(k: &Kcp) -> (u32, u32) {
    if k.rmt_wnd != 0 {
        (0, 0)
    } else if k.probe_wait == 0 {
        (IKCP_PROBE_INIT, time_add(k.current, IKCP_PROBE_INIT))
    } else if time_diff(k.current, k.ts_probe) < 0 {
        (k.probe_wait, k.ts_probe)
    } else {
        let p = if k.probe_wait < IKCP_PROBE_INIT { IKCP_PROBE_INIT } else { k.probe_wait };
        let q = if p + p / 2 > IKCP_PROBE_LIMIT { IKCP_PROBE_LIMIT } else { (p + p / 2) as u32 };
        (q, time_add(k.current, q))
    }
}

/// `(ssthresh, cwnd, incr)` after a flush of `pre` that leaves `snd_nxt`
/// at `nxt`: a fast retransmission sets the threshold to half the data in
/// flight and the window that far above it; a timeout sets the threshold to
/// half the effective window and the window to 1; the window is at least 1.
pub open spec fn congestion_after(pre: &Kcp, nxt: u32, lost: bool, change: bool) -> (u32, u32, u32) {
    let (s1, c1, i1) = if change {
        let half = (nxt - pre.snd_una) / 2;
        let st: u32 = if half < IKCP_THRESH_MIN { IKCP_THRESH_MIN } else { half as u32 };
        let c = st.saturating_add(pre.resent_threshold());
        (st, c, sat32(c * pre.mss))
    } else {
        (pre.ssthresh, pre.cwnd, pre.incr)
    };
    let w = pre.effective_window();
    let (s2, c2, i2) = if lost {
        ((if w / 2 < IKCP_THRESH_MIN { IKCP_THRESH_MIN } else { (w / 2) as u32 }), 1u32, pre.mss)
    } else {
        (s1, c1, i1)
    };
    if c2 < 1 {
        (s2, 1u32, pre.mss)
    } else {
        (s2, c2, i2)
    }
}

/// What a flush of `pre` leaves in `post`: the datagrams it adds to the
/// outbox carry, in order, the pending acknowledgements, the due window probe
/// and announcement, and the data segments it transmits (among them every
/// segment sent for the first time), each datagram a run of whole segments
/// of at most one MTU when every payload fits the MSS; the segments admitted
/// to the send window; and the estimator and the receive side unchanged.
pub open spec fn flushed(pre: &Kcp, post: &Kcp) -> bool {
    let moved = post.snd_nxt - pre.snd_nxt;
    let b = pre.snd_buf@.len();
    let adm = admitted(pre);
    &&& post.snd_buf@.len() == adm.len()
    &&& forall|i: int|
        0 <= i < adm.len() ==> #[trigger] post.snd_buf@[i] == pre.refresh(adm[i], pre.spec_wnd_unused())
    &&& flatten(post.outbox@.skip(pre.outbox@.len() as int)) == ack_bytes(
        pre.acklist@,
        pre.conv,
        pre.spec_wnd_unused(),
        pre.rcv_nxt,
    ) + probe_bytes(
        due_probe(pre),
        pre.conv,
        pre.spec_wnd_unused(),
        0,
        0,
        pre.rcv_nxt,
    ) + picked_wire(post.snd_buf@, Seq::new(adm.len(), |i: int| pre.due(adm[i]) != 0))
    &&& (post.ssthresh, post.cwnd, post.incr) == congestion_after(
        pre,
        post.snd_nxt,
        any_due(pre, adm, 2),
        any_due(pre, adm, 3),
    )
    &&& (post.probe_wait, post.ts_probe) == scheduled_probe(pre)
    &&& post.rmt_wnd == pre.rmt_wnd
    &&& post.xmit >= pre.xmit
    &&& post.dead == (pre.dead || any_dead(pre, adm, pre.spec_wnd_unused()))
    &&& datagrams_ok(
        post.outbox@,
        pre.outbox@.len() as int,
        pre.mtu,
        pre.fits_mss(),
        pre.conv,
    )
    &&& post.outbox@.take(pre.outbox@.len() as int) == pre.outbox@
    &&& post.acklist@.len() == 0
    &&& post.probe == 0
    &&& post.same_config(pre)
    &&& post.same_receive_side(pre)
    &&& post.snd_una == pre.snd_una
    &&& post.rx_rto == pre.rx_rto
    &&& post.rx_srtt == pre.rx_srtt
    &&& post.rx_rttval == pre.rx_rttval
    &&& post.current == pre.current
    &&& post.ts_flush == pre.ts_flush
    &&& post.updated
    &&& post.cwnd >= 1
    &&& moved == promoted_count(pre)
    &&& post.snd_queue@ == pre.snd_queue@.skip(moved)
    &&& post.snd_buf@.len() == b + moved
}

impl Kcp {
    /// What holds all along a flush that started from `start`.
    pub open spec fn flush_progress(&self, start: &Kcp, bounded: bool) -> bool {
        &&& start.wf()
        &&& self.wf_state()
        &&& segments_well_formed(staged(self.buffer), start.conv)
        &&& bounded ==> staged(self.buffer).len() <= self.mtu
        &&& bounded == start.fits_mss()
        &&& bounded ==> self.fits_mss()
        &&& self.outbox@.len() >= start.outbox@.len()
        &&& self.outbox@.take(start.outbox@.len() as int) == start.outbox@
        &&& datagrams_ok(self.outbox@, start.outbox@.len() as int, start.mtu, bounded, start.conv)
        &&& self.same_config(start)
        &&& self.same_receive_side(start)
        &&& self.snd_una == start.snd_una
        &&& self.rx_rto == start.rx_rto && self.rx_srtt == start.rx_srtt
        &&& self.rx_rttval == start.rx_rttval
        &&& self.rmt_wnd == start.rmt_wnd
        &&& self.xmit >= start.xmit
        &&& self.updated
    }
}

proof fn lemma_emit_progress(k0: Kcp, k1: Kcp, start: Kcp, bounded: bool, seg: Segment)
    requires
        k0.flush_progress(&start, bounded),
        k1.same_protocol_state(&k0),
        bounded ==> 24 + seg.data@.len() <= k0.mtu,
        seg.conv == start.conv,
        segments_well_formed(staged(k1.buffer), start.conv),
        k1.outbox@ == k0.outbox@ && staged(k1.buffer) == staged(k0.buffer) + seg.wire()
            || k1.outbox@ == k0.outbox@.push(k1.outbox@.last()) && k1.outbox@.last()@ == staged(
            k0.buffer,
        ) && staged(k0.buffer).len() > 0 && staged(k1.buffer) == seg.wire(),
        staged(k0.buffer).len() <= k0.mtu && 24 + seg.data@.len() <= k0.mtu ==> staged(
            k1.buffer,
        ).len() <= k0.mtu,
    ensures
        k1.flush_progress(&start, bounded),
{
    let from = start.outbox@.len() as int;
    if k1.outbox@ != k0.outbox@ {
        lemma_datagrams_push(k0.outbox@, k1.outbox@, from, start.mtu, bounded, staged(k0.buffer), start.conv);
    }
}

/// While the remote window is closed, waits `IKCP_PROBE_INIT` ms, then
/// asks for a window probe, waiting half as long again each time, at most
/// `IKCP_PROBE_LIMIT` ms. An open remote window resets the wait.
fn schedule_probe(rmt_wnd: u32, current: u32, probe_wait: &mut u32, ts_probe: &mut u32, probe: &mut u32)
    requires
        *old(probe_wait) <= IKCP_PROBE_LIMIT,
    ensures
        *final(probe_wait) <= IKCP_PROBE_LIMIT,
        rmt_wnd != 0 ==> *final(probe_wait) == 0 && *final(ts_probe) == 0 && *final(probe) == *old(probe),
        rmt_wnd == 0 && *old(probe_wait) == 0 ==> *final(probe_wait) == IKCP_PROBE_INIT
            && *final(ts_probe) == crate::rtt::time_add(current, IKCP_PROBE_INIT)
            && *final(probe) == *old(probe),
        rmt_wnd == 0 && *old(probe_wait) != 0 && crate::rtt::time_diff(current, *old(ts_probe)) < 0
            ==> *final(probe_wait) == *old(probe_wait) && *final(ts_probe) == *old(ts_probe)
            && *final(probe) == *old(probe),
        rmt_wnd == 0 && *old(probe_wait) != 0 && crate::rtt::time_diff(current, *old(ts_probe)) >= 0
            ==> ({
            let p = if *old(probe_wait) < IKCP_PROBE_INIT { IKCP_PROBE_INIT } else { *old(probe_wait) };
            let q = if p + p / 2 > IKCP_PROBE_LIMIT { IKCP_PROBE_LIMIT as int } else { p + p / 2 };
            &&& *final(probe_wait) == q
            &&& *final(ts_probe) == crate::rtt::time_add(current, q as u32)
            &&& *final(probe) == *old(probe) | IKCP_ASK_SEND
        }),
{
    if rmt_wnd == 0 {
        if *probe_wait == 0 {
            *probe_wait = IKCP_PROBE_INIT;
            *ts_probe = tadd(current, *probe_wait);
        } else if diff(current, *ts_probe) >= 0 {
            if *probe_wait < IKCP_PROBE_INIT {
                *probe_wait = IKCP_PROBE_INIT;
            }
            *probe_wait = *probe_wait + *probe_wait / 2;
            if *probe_wait > IKCP_PROBE_LIMIT {
                *probe_wait = IKCP_PROBE_LIMIT;
            }
            *ts_probe = tadd(current, *probe_wait);
            *probe = *probe | IKCP_ASK_SEND;
        }
    } else {
        *ts_probe = 0;
        *probe_wait = 0;
    }
}

/// Why a segment goes out on a flush at `current`: 1 for a first
/// transmission, 2 for a retransmission on timeout, 3 for a fast
/// retransmission once `resent` later segments were acknowledged; 0 when it
/// stays back.
pub open spec fn due_kind(s: Segment, current: u32, resent: u32) -> int {
    if s.xmit == 0 {
        1
    } else if time_diff(current, s.resendts) >= 0 {
        2
    } else if s.fastack >= resent {
        3
    } else {
        0
    }
}

/// `s` after a flush at `current` has looked at it: a segment that goes out
/// is stamped with the time, the window and `una`, counts one more
/// transmission and gets its next retransmission time; on a first
/// transmission its timeout is `rx_rto`, on a timeout it grows by `rx_rto`
/// (half of it in nodelay mode), on a fast retransmission the fast-ack
/// count restarts.
pub open spec fn refreshed(
    s: Segment,
    current: u32,
    rx_rto: u32,
    rtomin: u32,
    resent: u32,
    nodelay: bool,
    wnd: u16,
    una: u32,
) -> Segment {
    let k = due_kind(s, current, resent);
    if k == 0 {
        s
    } else if k == 1 {
        Segment {
            xmit: 1,
            rto: rx_rto,
            resendts: time_add(time_add(current, rx_rto), rtomin),
            ts: current,
            wnd: wnd,
            una: una,
            ..s
        }
    } else if k == 2 {
        let rto = s.rto.saturating_add(if !nodelay { rx_rto } else { (rx_rto / 2) as u32 });
        Segment {
            xmit: s.xmit.saturating_add(1),
            rto: rto,
            resendts: time_add(current, rto),
            ts: current,
            wnd: wnd,
            una: una,
            ..s
        }
    } else {
        Segment {
            xmit: s.xmit.saturating_add(1),
            fastack: 0,
            resendts: time_add(current, s.rto),
            ts: current,
            wnd: wnd,
            una: una,
            ..s
        }
    }
}

impl Kcp {
    /// The fast-ack count that triggers a fast retransmission.
    pub open spec fn resent_threshold(&self) -> u32 {
        if self.fastresend > 0 { self.fastresend } else { u32::MAX }
    }

    /// Extra delay before the first retransmission: an eighth of `rx_rto`,
    /// none in nodelay mode.
    pub open spec fn rto_slack(&self) -> u32 {
        if !self.nodelay { (self.rx_rto / 8) as u32 } else { 0 }
    }

    /// Why `s` goes out on a flush of `self` (see `due_kind`).
    pub open spec fn due(&self, s: Segment) -> int {
        due_kind(s, self.current, self.resent_threshold())
    }

    /// `s` after a flush of `self` that announces window `wnd`.
    pub open spec fn refresh(&self, s: Segment, wnd: u16) -> Segment {
        refreshed(
            s,
            self.current,
            self.rx_rto,
            self.rto_slack(),
            self.resent_threshold(),
            self.nodelay,
            wnd,
            self.rcv_nxt,
        )
    }
}

/// Some segment of `q` is due on a flush of `k` for reason `kind`.
pub open spec fn any_due(k: &Kcp, q: Seq<Segment>, kind: int) -> bool {
    exists|j: int| 0 <= j < q.len() && k.due(#[trigger] q[j]) == kind
}

/// Some segment of `q` goes out on a flush of `k` and reaches the
/// dead-link count.
pub open spec fn any_dead(k: &Kcp, q: Seq<Segment>, wnd: u16) -> bool {
    exists|j: int|
        0 <= j < q.len() && k.due(#[trigger] q[j]) != 0 && k.refresh(q[j], wnd).xmit >= k.dead_link
}

proof fn lemma_any_step(k: &Kcp, q: Seq<Segment>, i: int, kind: int, wnd: u16)
    requires
        0 <= i < q.len(),
    ensures
        any_due(k, q.take(i + 1), kind) == (any_due(k, q.take(i), kind) || k.due(q[i]) == kind),
        any_dead(k, q.take(i + 1), wnd) == (any_dead(k, q.take(i), wnd) || (k.due(q[i]) != 0
            && k.refresh(q[i], wnd).xmit >= k.dead_link)),
{
    let t1 = q.take(i + 1);
    let t0 = q.take(i);
    assert(t1[i] == q[i]);
    if any_due(k, t1, kind) {
        let j = choose|j: int| 0 <= j < t1.len() && k.due(#[trigger] t1[j]) == kind;
        if j < i {
            assert(t0[j] == t1[j]);
        }
    }
    if any_due(k, t0, kind) {
        let j = choose|j: int| 0 <= j < t0.len() && k.due(#[trigger] t0[j]) == kind;
        assert(t1[j] == t0[j]);
    }
    if any_dead(k, t1, wnd) {
        let j = choose|j: int|
            0 <= j < t1.len() && k.due(#[trigger] t1[j]) != 0 && k.refresh(t1[j], wnd).xmit
                >= k.dead_link;
        if j < i {
            assert(t0[j] == t1[j]);
        }
    }
    if any_dead(k, t0, wnd) {
        let j = choose|j: int|
            0 <= j < t0.len() && k.due(#[trigger] t0[j]) != 0 && k.refresh(t0[j], wnd).xmit
                >= k.dead_link;
        assert(t1[j] == t0[j]);
    }
}

/// Decides whether `seg` goes out on this flush and updates its
/// bookkeeping: a first transmission, a retransmission on timeout (the
/// timeout grows), or a fast retransmission once `resent` later segments
/// were acknowledged. Returns `(send, timed_out, fast)`.
fn refresh_segment(
    seg: &mut Segment,
    current: u32,
    rx_rto: u32,
    rtomin: u32,
    resent: u32,
    nodelay: bool,
    wnd: u16,
    una: u32,
) -> (r: (bool, bool, bool))
    ensures
        final(seg).sn == old(seg).sn && final(seg).data == old(seg).data,
        final(seg).len == old(seg).len && final(seg).frg == old(seg).frg,
        final(seg).cmd == old(seg).cmd && final(seg).conv == old(seg).conv,
        old(seg).xmit == 0 ==> r.0 && final(seg).xmit == 1 && final(seg).rto == rx_rto
            && !r.1 && !r.2,
        old(seg).xmit > 0 ==> final(seg).rto >= old(seg).rto,
        r.1 ==> r.0 && old(seg).xmit > 0,
        r.2 ==> r.0 && old(seg).xmit > 0,
        r.0 ==> final(seg).ts == current && final(seg).wnd == wnd && final(seg).una == una
            && final(seg).xmit >= 1,
        !r.0 ==> *final(seg) == *old(seg),
        *final(seg) == refreshed(*old(seg), current, rx_rto, rtomin, resent, nodelay, wnd, una),
        r == (due_kind(*old(seg), current, resent) != 0, due_kind(*old(seg), current, resent) == 2,
            due_kind(*old(seg), current, resent) == 3),
{
    let mut send = false;
    let mut timed_out = false;
    let mut fast = false;
    if seg.xmit == 0 {
        send = true;
        seg.xmit = 1;
        seg.rto = rx_rto;
        seg.resendts = tadd(tadd(current, rx_rto), rtomin);
    } else if diff(current, seg.resendts) >= 0 {
        send = true;
        seg.xmit = seg.xmit.saturating_add(1);
        let inc = if !nodelay { rx_rto } else { rx_rto / 2 };
        seg.rto = seg.rto.saturating_add(inc);
        seg.resendts = tadd(current, seg.rto);
        timed_out = true;
    } else if seg.fastack >= resent {
        send = true;
        seg.xmit = seg.xmit.saturating_add(1);
        seg.fastack = 0;
        seg.resendts = tadd(current, seg.rto);
        fast = true;
    }
    if send {
        seg.ts = current;
        seg.wnd = wnd;
        seg.una = una;
    }
    (send, timed_out, fast)
}

impl Kcp {
    /// Stages an acknowledgement for each pending `(sn, ts)` and clears the list.
    #[verifier::rlimit(50)]
    #[verifier::spinoff_prover]
    fn flush_acks(&mut self, seg: &mut Segment, start: Ghost<Kcp>, bounded: Ghost<bool>)
        requires
            old(self).flush_progress(&start@, bounded@),
            old(seg).well_formed() && old(seg).cmd == IKCP_CMD_ACK && old(seg).data@.len() == 0,
            old(seg).frg == 0,
            old(seg).conv == old(self).conv,
        ensures
            final(self).flush_progress(&start@, bounded@),
            final(seg).well_formed() && final(seg).data@.len() == 0 && final(seg).frg == 0,
            final(seg).wnd == old(seg).wnd && final(seg).conv == old(seg).conv,
            final(seg).una == old(seg).una,
            old(self).acklist@.len() > 0 ==> (final(seg).sn, final(seg).ts) == old(self).acklist@.last(),
            old(self).acklist@.len() == 0 ==> final(seg).sn == old(seg).sn && final(seg).ts == old(seg).ts,
            emitted(final(self), &start@) == emitted(old(self), &start@) + ack_bytes(
                old(self).acklist@,
                old(seg).conv,
                old(seg).wnd,
                old(seg).una,
            ),
            final(self).acklist@.len() == 0,
            final(self).snd_queue@ == old(self).snd_queue@,
            final(self).snd_buf@ == old(self).snd_buf@,
            final(self).snd_nxt == old(self).snd_nxt && final(self).probe == old(self).probe,
            final(self).cwnd == old(self).cwnd && final(self).incr == old(self).incr,
            final(self).ssthresh == old(self).ssthresh && final(self).xmit == old(self).xmit,
            final(self).dead == old(self).dead && final(self).current == old(self).current,
            final(self).ts_flush == old(self).ts_flush && final(self).ts_probe == old(self).ts_probe,
            final(self).probe_wait == old(self).probe_wait,
    {
        let ghost s0 = *self;
        let mut i: usize = 0;
        assert(s0.acklist@.take(0) =~= Seq::<(u32, u32)>::empty());
        assert(emitted(self, &start@) =~= emitted(&s0, &start@) + Seq::<u8>::empty());
        while i < self.acklist.len()
            invariant
                self.flush_progress(&start@, bounded@),
                seg.well_formed() && seg.cmd == IKCP_CMD_ACK && seg.data@.len() == 0,
                seg.wnd == old(seg).wnd && seg.conv == old(seg).conv && seg.una == old(seg).una,
                seg.conv == s0.conv,
                seg.frg == 0,
                self.same_protocol_state(&s0),
                i <= s0.acklist@.len(),
                i > 0 ==> (seg.sn, seg.ts) == s0.acklist@[i - 1],
                i == 0 ==> seg.sn == old(seg).sn && seg.ts == old(seg).ts,
                emitted(self, &start@) == emitted(&s0, &start@) + ack_bytes(
                    s0.acklist@.take(i as int),
                    seg.conv,
                    seg.wnd,
                    seg.una,
                ),
            decreases self.acklist@.len() - i,
        {
            let (sn, ts) = self.acklist[i];
            seg.sn = sn;
            seg.ts = ts;
            self.stage(seg, start, bounded);
            proof {
                let t = s0.acklist@.take(i + 1);
                assert(t.drop_last() =~= s0.acklist@.take(i as int));
                assert(seg.wire() =~= control_wire(seg.conv, IKCP_CMD_ACK, seg.wnd, ts, sn, seg.una));
            }
            i = i + 1;
        }
        assert(s0.acklist@.take(i as int) =~= s0.acklist@);
        self.acklist.clear();
    }

    /// Stages one segment during a flush.
    fn stage(&mut self, seg: &Segment, start: Ghost<Kcp>, bounded: Ghost<bool>)
        requires
            old(self).flush_progress(&start@, bounded@),
            seg.well_formed(),
            is_command(seg.cmd),
            seg.conv == old(self).conv,
            bounded@ ==> 24 + seg.data@.len() <= old(self).mtu,
        ensures
            final(self).flush_progress(&start@, bounded@),
            final(self).same_protocol_state(old(self)),
            emitted(final(self), &start@) == emitted(old(self), &start@) + seg.wire(),
    {
        let ghost k0 = *self;
        emit(&mut self.buffer, &mut self.outbox, seg, self.mtu);
        proof {
            lemma_emit_progress(k0, *self, start@, bounded@, *seg);
            let from = start@.outbox@.len() as int;
            if self.outbox@ != k0.outbox@ {
                lemma_flatten_push(k0.outbox@, self.outbox@.last(), from);
                assert(self.outbox@ == k0.outbox@.push(self.outbox@.last()));
            }
        }
    }

    /// Stages the window probe and the window announcement that are due,
    /// and clears `probe`.
    #[verifier::rlimit(50)]
    #[verifier::spinoff_prover]
    fn flush_probe(&mut self, seg: &mut Segment, start: Ghost<Kcp>, bounded: Ghost<bool>)
        requires
            old(self).flush_progress(&start@, bounded@),
            old(seg).well_formed() && old(seg).data@.len() == 0 && old(seg).frg == 0,
            old(seg).conv == old(self).conv,
        ensures
            final(self).flush_progress(&start@, bounded@),
            final(seg).wnd == old(seg).wnd,
            emitted(final(self), &start@) == emitted(old(self), &start@) + probe_bytes(
                due_probe(old(self)),
                old(seg).conv,
                old(seg).wnd,
                old(seg).ts,
                old(seg).sn,
                old(seg).una,
            ),
            final(self).probe == 0,
            (final(self).probe_wait, final(self).ts_probe) == scheduled_probe(old(self)),
            final(self).acklist@ == old(self).acklist@,
            final(self).snd_queue@ == old(self).snd_queue@,
            final(self).snd_buf@ == old(self).snd_buf@,
            final(self).snd_nxt == old(self).snd_nxt,
            final(self).cwnd == old(self).cwnd && final(self).incr == old(self).incr,
            final(self).ssthresh == old(self).ssthresh && final(self).xmit == old(self).xmit,
            final(self).dead == old(self).dead && final(self).current == old(self).current,
            final(self).ts_flush == old(self).ts_flush,
    {
        let ghost s0 = *self;
        schedule_probe(
            self.rmt_wnd,
            self.current,
            &mut self.probe_wait,
            &mut self.ts_probe,
            &mut self.probe,
        );
        let ghost p = self.probe;
        let ghost e0 = emitted(self, &start@);
        assert(p == due_probe(&s0));
        if self.probe & IKCP_ASK_SEND != 0 {
            seg.cmd = IKCP_CMD_WASK;
            self.stage(seg, start, bounded);
            assert(seg.wire() =~= control_wire(seg.conv, IKCP_CMD_WASK, seg.wnd, seg.ts, seg.sn, seg.una));
        }
        let ghost e1 = emitted(self, &start@);
        if self.probe & IKCP_ASK_TELL != 0 {
            seg.cmd = IKCP_CMD_WINS;
            self.stage(seg, start, bounded);
            assert(seg.wire() =~= control_wire(seg.conv, IKCP_CMD_WINS, seg.wnd, seg.ts, seg.sn, seg.una));
        }
        assert(emitted(self, &start@) =~= e0 + probe_bytes(p, seg.conv, seg.wnd, seg.ts, seg.sn, seg.una));
        self.probe = 0;
    }

    /// Looks at the segment at index `i` of the send buffer: refreshes its
    /// bookkeeping and stages it when it is due. Returns whether it timed
    /// out and whether it was fast-retransmitted.
    #[verifier::rlimit(50)]
    #[verifier::spinoff_prover]
    fn transmit_at(&mut self, i: usize, wnd: u16, start: Ghost<Kcp>, bounded: Ghost<bool>) -> (r: (
        bool,
        bool,
    ))
        requires
            old(self).flush_progress(&start@, bounded@),
            i < old(self).snd_buf@.len(),
        ensures
            final(self).flush_progress(&start@, bounded@),
            final(self).snd_buf@ == old(self).snd_buf@.update(
                i as int,
                old(self).refresh(old(self).snd_buf@[i as int], wnd),
            ),
            r == (old(self).due(old(self).snd_buf@[i as int]) == 2, old(self).due(
                old(self).snd_buf@[i as int],
            ) == 3),
            emitted(final(self), &start@) == emitted(old(self), &start@) + (if old(self).due(
                old(self).snd_buf@[i as int],
            ) != 0 {
                final(self).snd_buf@[i as int].wire()
            } else {
                Seq::empty()
            }),
            final(self).dead == (old(self).dead || (old(self).due(old(self).snd_buf@[i as int]) != 0
                && old(self).refresh(old(self).snd_buf@[i as int], wnd).xmit >= old(self).dead_link)),
            final(self).snd_nxt == old(self).snd_nxt,
            final(self).snd_queue@ == old(self).snd_queue@,
            final(self).acklist@ == old(self).acklist@ && final(self).probe == old(self).probe,
            final(self).cwnd == old(self).cwnd && final(self).incr == old(self).incr,
            final(self).ssthresh == old(self).ssthresh,
            final(self).current == old(self).current && final(self).ts_flush == old(self).ts_flush,
            final(self).ts_probe == old(self).ts_probe && final(self).probe_wait == old(self).probe_wait,
    {
        let ghost before = self.snd_buf@;
        let ghost e_before = emitted(self, &start@);
        let rx_rto = self.rx_rto;
        let resent = if self.fastresend > 0 { self.fastresend } else { u32::MAX };
        let rtomin = if !self.nodelay { rx_rto / 8 } else { 0 };
        let (send, timed_out, fast) = refresh_segment(
            &mut self.snd_buf[i],
            self.current,
            rx_rto,
            rtomin,
            resent,
            self.nodelay,
            wnd,
            self.rcv_nxt,
        );
        proof {
            let sb = self.snd_buf@;
            let n = sb.len();
            assert forall|j: int| 0 <= j < n && j != i implies #[trigger] sb[j] == before[j] by {}
            assert(sb[i as int].well_formed()) by {
                assert(before[i as int].well_formed());
            }
            assert forall|a: int, c: int| 0 <= a < c < sb.len() implies #[trigger] sb[a].sn
                < #[trigger] sb[c].sn by {
                assert(before[a].sn < before[c].sn);
            }
            assert forall|a: int| 0 <= a < sb.len() implies self.snd_una <= (#[trigger] sb[a]).sn
                < self.snd_nxt && sb[a].cmd == IKCP_CMD_PUSH && sb[a].conv == self.conv
                && sb[a].well_formed() && (bounded@ ==> sb[a].data@.len() <= self.mss) by {
                assert(before[a].well_formed());
            }
            if sb.len() > 0 {
                assert(sb[0].sn == before[0].sn);
            }
        }
        if timed_out {
            self.xmit = self.xmit.saturating_add(1);
        }
        if send {
            let ghost k0 = *self;
            emit(&mut self.buffer, &mut self.outbox, &self.snd_buf[i], self.mtu);
            proof {
                lemma_emit_progress(k0, *self, start@, bounded@, self.snd_buf@[i as int]);
                let from = start@.outbox@.len() as int;
                if self.outbox@ != k0.outbox@ {
                    lemma_flatten_push(k0.outbox@, self.outbox@.last(), from);
                    assert(self.outbox@ == k0.outbox@.push(self.outbox@.last()));
                }
            }
            if self.snd_buf[i].xmit >= self.dead_link {
                self.dead = true;
            }
        } else {
            assert(emitted(self, &start@) =~= e_before + Seq::<u8>::empty());
        }
        (timed_out, fast)
    }

    /// Transmits what is due in the send buffer. Returns whether a segment
    /// timed out and whether one was fast-retransmitted.
    #[verifier::rlimit(80)]
    #[verifier::spinoff_prover]
    fn flush_transmit(&mut self, wnd: u16, start: Ghost<Kcp>, bounded: Ghost<bool>) -> (r: (bool, bool))
        requires
            old(self).flush_progress(&start@, bounded@),
        ensures
            final(self).flush_progress(&start@, bounded@),
            final(self).snd_buf@.len() == old(self).snd_buf@.len(),
            forall|i: int|
                0 <= i < old(self).snd_buf@.len() ==> #[trigger] final(self).snd_buf@[i] == old(
                    self,
                ).refresh(old(self).snd_buf@[i], wnd),
            emitted(final(self), &start@) == emitted(old(self), &start@) + picked_wire(
                final(self).snd_buf@,
                Seq::new(
                    old(self).snd_buf@.len(),
                    |i: int| old(self).due(old(self).snd_buf@[i]) != 0,
                ),
            ),
            r.0 == any_due(old(self), old(self).snd_buf@, 2),
            r.1 == any_due(old(self), old(self).snd_buf@, 3),
            final(self).dead == (old(self).dead || any_dead(old(self), old(self).snd_buf@, wnd)),
            final(self).snd_nxt == old(self).snd_nxt,
            final(self).snd_queue@ == old(self).snd_queue@,
            final(self).acklist@ == old(self).acklist@ && final(self).probe == old(self).probe,
            final(self).cwnd == old(self).cwnd && final(self).incr == old(self).incr,
            final(self).ssthresh == old(self).ssthresh,
            final(self).current == old(self).current && final(self).ts_flush == old(self).ts_flush,
            final(self).ts_probe == old(self).ts_probe && final(self).probe_wait == old(self).probe_wait,
    {
        let ghost s0 = *self;
        let ghost b0 = self.snd_buf@;
        let ghost mask = Seq::new(b0.len(), |i: int| s0.due(b0[i]) != 0);
        let mut lost = false;
        let mut change = false;
        let n = self.snd_buf.len();
        let mut i: usize = 0;
        assert(self.snd_buf@.take(0) =~= Seq::<Segment>::empty());
        assert(emitted(self, &start@) =~= emitted(&s0, &start@) + Seq::<u8>::empty());
        assert(!any_due(&s0, b0.take(0), 2) && !any_due(&s0, b0.take(0), 3) && !any_dead(
            &s0,
            b0.take(0),
            wnd,
        ));
        while i < n
            invariant
                self.flush_progress(&start@, bounded@),
                s0.flush_progress(&start@, bounded@),
                b0 == s0.snd_buf@,
                mask == Seq::new(b0.len(), |i: int| s0.due(b0[i]) != 0),
                n == b0.len(),
                i <= n,
                self.snd_buf@.len() == n,
                self.current == s0.current && self.rx_rto == s0.rx_rto,
                forall|j: int| 0 <= j < i ==> #[trigger] self.snd_buf@[j] == s0.refresh(b0[j], wnd),
                forall|j: int| i <= j < n ==> #[trigger] self.snd_buf@[j] == b0[j],
                lost == any_due(&s0, b0.take(i as int), 2),
                change == any_due(&s0, b0.take(i as int), 3),
                self.dead == (s0.dead || any_dead(&s0, b0.take(i as int), wnd)),
                emitted(self, &start@) == emitted(&s0, &start@) + picked_wire(
                    self.snd_buf@.take(i as int),
                    mask.take(i as int),
                ),
                self.snd_nxt == s0.snd_nxt && self.snd_queue@ == s0.snd_queue@,
                self.acklist@ == s0.acklist@ && self.probe == s0.probe,
                self.cwnd == s0.cwnd && self.incr == s0.incr && self.ssthresh == s0.ssthresh,
                self.ts_flush == s0.ts_flush,
                self.ts_probe == s0.ts_probe && self.probe_wait == s0.probe_wait,
            decreases n - i,
        {
            let ghost before = *self;
            let (timed_out, fast) = self.transmit_at(i, wnd, start, bounded);
            proof {
                let sb = self.snd_buf@;
                assert(before.snd_buf@[i as int] == b0[i as int]);
                assert(before.due(b0[i as int]) == s0.due(b0[i as int]));
                assert(before.refresh(b0[i as int], wnd) == s0.refresh(b0[i as int], wnd));
                lemma_any_step(&s0, b0, i as int, 2, wnd);
                lemma_any_step(&s0, b0, i as int, 3, wnd);
                let t = sb.take(i + 1);
                let m1 = mask.take(i + 1);
                assert(t.drop_last() =~= before.snd_buf@.take(i as int));
                assert(m1.drop_last() =~= mask.take(i as int));
                assert(t.last() == sb[i as int]);
                assert(m1.last() == mask[i as int]);
                assert(emitted(self, &start@) =~= emitted(&s0, &start@) + picked_wire(t, m1));
            }
            if timed_out {
                lost = true;
            }
            if fast {
                change = true;
            }
            i = i + 1;
        }
        assert(self.snd_buf@.take(n as int) =~= self.snd_buf@);
        assert(b0.take(n as int) =~= b0);
        assert(mask.take(n as int) =~= mask);
        (lost, change)
    }

    /// Sends what is due: pending acknowledgements, window probes, segments
    /// newly admitted to the send window, and retransmissions by timeout or
    /// by fast-ack count. The datagrams go to the outbox, each a run of whole
    /// segments of at most one MTU (when every payload fits the MSS). Then
    /// adjusts the congestion window. Does nothing before the first update.
    #[verifier::rlimit(100)]
    #[verifier::spinoff_prover]
    pub fn ikcp_flush(&mut self)
        requires
            old(self).wf(),
        ensures
            final(self).wf(),
            old(self).in_window() ==> final(self).in_window(),
            old(self).fits_mss() ==> final(self).fits_mss(),
            !old(self).updated ==> *final(self) == *old(self),
            old(self).updated ==> flushed(old(self), final(self)),
    {
        if !self.updated {
            return;
        }
        let ghost start = *self;
        let ghost bounded = self.fits_mss();
        let mut seg = Segment::empty();
        seg.conv = self.conv;
        seg.cmd = IKCP_CMD_ACK;
        seg.wnd = self.ikcp_wnd_unused();
        seg.una = self.rcv_nxt;
        assert(self.outbox@.take(start.outbox@.len() as int) =~= start.outbox@);
        assert(segments_well_formed(staged(self.buffer), start.conv)) by {
            assert(staged(self.buffer) =~= Seq::<u8>::empty());
        }
        assert(emitted(self, &start) =~= Seq::<u8>::empty()) by {
            assert(self.outbox@.skip(start.outbox@.len() as int) =~= Seq::<Vec<u8>>::empty());
        }
        self.flush_acks(&mut seg, Ghost(start), Ghost(bounded));
        let ghost s_ack = *self;
        seg.sn = 0;
        seg.ts = 0;
        self.flush_probe(&mut seg, Ghost(start), Ghost(bounded));
        let ghost s_probe = *self;
        let cwnd = self.effective_window_exec();
        let ghost s1 = *self;
        self.flush_promote(seg.wnd, Ghost(start), Ghost(bounded));
        let ghost s2 = *self;
        let (lost, change) = self.flush_transmit(seg.wnd, Ghost(start), Ghost(bounded));
        let ghost k0 = *self;
        ship(&mut self.buffer, &mut self.outbox);
        let ghost wnd = seg.wnd;
        let ghost adm = admitted(&start);
        proof {
            let b = start.snd_buf@.len();
            assert(s2.snd_buf@ =~= adm) by {
                assert forall|i: int| 0 <= i < adm.len() implies #[trigger] s2.snd_buf@[i] == adm[i] by {
                    if i < b {
                        assert(s2.snd_buf@[i] == s2.snd_buf@.take(b as int)[i]);
                    } else {
                        let jj = i - b;
                        assert(s2.snd_buf@[b + jj] == stamped(&s1, s1.snd_queue@[jj], jj, wnd));
                    }
                }
            }
        }
        proof {
            let from = start.outbox@.len() as int;
            if staged(k0.buffer).len() > 0 {
                lemma_flatten_push(k0.outbox@, self.outbox@.last(), from);
                assert(self.outbox@ == k0.outbox@.push(self.outbox@.last()));
                lemma_datagrams_push(k0.outbox@, self.outbox@, from, start.mtu, bounded, staged(k0.buffer), start.conv);
            } else {
                assert(staged(k0.buffer) =~= Seq::<u8>::empty());
            }
            assert(flatten(self.outbox@.skip(from)) =~= emitted(&k0, &start));
            let out = self.outbox@;
            assert forall|i: int| 0 <= i < out.len() implies segments_well_formed((#[trigger] out[i])@, self.conv) by {
                if i < from {
                    assert(out[i] == out.take(from)[i]);
                }
            }
            assert(Seq::new(s2.snd_buf@.len(), |i: int| s2.due(s2.snd_buf@[i]) != 0) =~= Seq::new(
                adm.len(),
                |i: int| start.due(adm[i]) != 0,
            ));
            assert(emitted(&s2, &start) == emitted(&s_probe, &start));
            assert(due_probe(&s_ack) == due_probe(&start));
            assert(emitted(&s_ack, &start) =~= ack_bytes(start.acklist@, start.conv, start.spec_wnd_unused(), start.rcv_nxt));
        }
        proof {
            assert forall|i: int| 0 <= i < adm.len() implies #[trigger] self.snd_buf@[i] == start.refresh(
                adm[i],
                start.spec_wnd_unused(),
            ) by {
                assert(self.snd_buf@[i] == s2.refresh(s2.snd_buf@[i], wnd));
            }
            assert(any_due(&s2, s2.snd_buf@, 2) == any_due(&start, adm, 2));
            assert(any_due(&s2, s2.snd_buf@, 3) == any_due(&start, adm, 3));
            assert(any_dead(&s2, s2.snd_buf@, wnd) == any_dead(&start, adm, wnd));
            assert(scheduled_probe(&s_ack) == scheduled_probe(&start));
        }
        self.adjust_window(cwnd, lost, change);
    }

    /// The congestion update at the end of a flush, with `w` the effective
    /// window the flush used: see `congestion_after`.
    fn adjust_window(&mut self, w: u32, lost: bool, change: bool)
        requires
            old(self).snd_una <= old(self).snd_nxt,
            w == old(self).effective_window(),
        ensures
            (final(self).ssthresh, final(self).cwnd, final(self).incr) == congestion_after(
                old(self),
                old(self).snd_nxt,
                lost,
                change,
            ),
            *final(self) == (Kcp {
                ssthresh: final(self).ssthresh,
                cwnd: final(self).cwnd,
                incr: final(self).incr,
                ..*old(self)
            }),
    {
        let resent = if self.fastresend > 0 { self.fastresend } else { u32::MAX };
        if change {
            let inflight = self.snd_nxt - self.snd_una;
            self.ssthresh = if inflight / 2 < IKCP_THRESH_MIN { IKCP_THRESH_MIN } else { inflight / 2 };
            self.cwnd = self.ssthresh.saturating_add(resent);
            let (cw, ms) = (self.cwnd as u64, self.mss as u64);
            assert(cw * ms <= 0xffff_ffff * 0xffff_ffff) by (nonlinear_arith)
                requires
                    cw <= 0xffff_ffff,
                    ms <= 0xffff_ffff,
            ;
            let c = cw * ms;
            self.incr = if c > u32::MAX as u64 { u32::MAX } else { c as u32 };
        }
        if lost {
            self.ssthresh = if w / 2 < IKCP_THRESH_MIN { IKCP_THRESH_MIN } else { w / 2 };
            self.cwnd = 1;
            self.incr = self.mss;
        }
        if self.cwnd < 1 {
            self.cwnd = 1;
            self.incr = self.mss;
        }
    }

    fn effective_window_exec(&self) -> (r: u32)
        ensures
            r == self.effective_window(),
    {
        let w = if self.snd_wnd < self.rmt_wnd { self.snd_wnd } else { self.rmt_wnd };
        if !self.nocwnd && self.cwnd < w { self.cwnd } else { w }
    }

    /// Moves queued segments into the send buffer while the effective window
    /// has room, numbering and stamping them.
    #[verifier::rlimit(50)]
    #[verifier::spinoff_prover]
    fn flush_promote(&mut self, wnd: u16, start: Ghost<Kcp>, bounded: Ghost<bool>)
        requires
            old(self).flush_progress(&start@, bounded@),
        ensures
            final(self).flush_progress(&start@, bounded@),
            ({
                let b = old(self).snd_buf@.len();
                let moved = final(self).snd_nxt - old(self).snd_nxt;
                &&& moved == promoted_count(old(self))
                &&& final(self).snd_queue@ == old(self).snd_queue@.skip(moved)
                &&& final(self).snd_buf@.len() == b + moved
                &&& final(self).snd_buf@.take(b as int) == old(self).snd_buf@
                &&& forall|j: int|
                    0 <= j < moved ==> (#[trigger] final(self).snd_buf@[b + j]).sn == old(self).snd_nxt + j && final(self).snd_buf@[b + j].data == old(self).snd_queue@[j].data
                        && final(self).snd_buf@[b + j].frg == old(self).snd_queue@[j].frg
                        && final(self).snd_buf@[b + j].xmit == 0
                &&& forall|j: int|
                    0 <= j < moved ==> #[trigger] final(self).snd_buf@[b + j] == stamped(
                        old(self),
                        old(self).snd_queue@[j],
                        j,
                        wnd,
                    )
            }),
            final(self).acklist@ == old(self).acklist@ && final(self).probe == old(self).probe,
            final(self).ts_probe == old(self).ts_probe && final(self).probe_wait == old(self).probe_wait,
            final(self).cwnd == old(self).cwnd && final(self).incr == old(self).incr,
            final(self).ssthresh == old(self).ssthresh && final(self).xmit == old(self).xmit,
            final(self).dead == old(self).dead && final(self).current == old(self).current,
            final(self).ts_flush == old(self).ts_flush,
            final(self).outbox@ == old(self).outbox@ && final(self).buffer == old(self).buffer,
    {
        let w = self.effective_window_exec();
        let ghost s0 = *self;
        let ghost n0 = self.snd_nxt;
        let ghost q0 = self.snd_queue@;
        let ghost b0 = self.snd_buf@;
        let ghost top: int = if self.snd_una + w > u32::MAX {
            u32::MAX as int
        } else {
            self.snd_una + w
        };
        assert(q0.skip(0) =~= q0);
        assert(b0.take(b0.len() as int) =~= b0);
        while (self.snd_nxt as u64) < self.snd_una as u64 + w as u64 && self.snd_nxt < u32::MAX
            && self.snd_queue.len() > 0
            invariant
                self.flush_progress(&start@, bounded@),
                s0.flush_progress(&start@, bounded@),
                self.acklist@ == s0.acklist@ && self.probe == s0.probe,
                self.cwnd == s0.cwnd && self.incr == s0.incr && self.ssthresh == s0.ssthresh,
                self.xmit == s0.xmit && self.dead == s0.dead,
                self.current == s0.current && self.ts_flush == s0.ts_flush,
                self.outbox@ == s0.outbox@ && self.buffer == s0.buffer,
                w == s0.effective_window(),
                top == (if s0.snd_una + w > u32::MAX {
                    u32::MAX as int
                } else {
                    s0.snd_una + w
                }),
                n0 == s0.snd_nxt,
                q0 == s0.snd_queue@,
                b0 == s0.snd_buf@,
                n0 <= self.snd_nxt,
                self.snd_nxt - n0 <= q0.len(),
                n0 < top ==> self.snd_nxt <= top,
                n0 >= top ==> self.snd_nxt == n0,
                self.snd_queue@ == q0.skip(self.snd_nxt - n0),
                self.snd_buf@.len() == b0.len() + (self.snd_nxt - n0),
                self.snd_buf@.take(b0.len() as int) == b0,
                forall|j: int|
                    0 <= j < self.snd_nxt - n0 ==> (#[trigger] self.snd_buf@[b0.len() + j]).sn
                        == n0 + j && self.snd_buf@[b0.len() + j].data == q0[j].data
                        && self.snd_buf@[b0.len() + j].frg == q0[j].frg
                        && self.snd_buf@[b0.len() + j].xmit == 0,
                forall|j: int|
                    0 <= j < self.snd_nxt - n0 ==> #[trigger] self.snd_buf@[b0.len() + j] == stamped(
                        &s0,
                        q0[j],
                        j,
                        wnd,
                    ),
                self.ts_probe == s0.ts_probe && self.probe_wait == s0.probe_wait,
            decreases self.snd_queue@.len(),
        {
            match self.snd_queue.pop_front() {
                Some(x) => {
                    let mut newseg = x;
                    newseg.conv = self.conv;
                    newseg.cmd = IKCP_CMD_PUSH;
                    newseg.wnd = wnd;
                    newseg.ts = self.current;
                    newseg.sn = self.snd_nxt;
                    newseg.una = self.rcv_nxt;
                    newseg.resendts = self.current;
                    newseg.rto = self.rx_rto;
                    newseg.fastack = 0;
                    newseg.xmit = 0;
                    let ghost before = self.snd_buf@;
                    let ghost qb = self.snd_queue@;
                    self.snd_buf.push(newseg);
                    self.snd_nxt = self.snd_nxt + 1;
                    proof {
                        let m = self.snd_nxt - 1 - n0;
                        let sb = self.snd_buf@;
                        assert(x == q0[m]) by {
                            assert(q0.skip(m)[0] == q0[m]);
                        }
                        assert(q0[m].well_formed());
                        assert(bounded@ ==> q0[m].data@.len() <= self.mss);
                        assert(self.snd_queue@ =~= q0.skip(self.snd_nxt - n0));
                        assert(sb.take(b0.len() as int) =~= before.take(b0.len() as int));
                        assert forall|a: int, c: int| 0 <= a < c < sb.len() implies #[trigger] sb[a].sn
                            < #[trigger] sb[c].sn by {
                            if c < sb.len() - 1 {
                                assert(sb[a] == before[a] && sb[c] == before[c]);
                            } else {
                                assert(sb[a] == before[a]);
                            }
                        }
                        assert forall|a: int| 0 <= a < sb.len() implies self.snd_una <= (
                        #[trigger] sb[a]).sn < self.snd_nxt && sb[a].cmd == IKCP_CMD_PUSH && sb[a].conv == self.conv
                            && sb[a].well_formed() && (bounded@ ==> sb[a].data@.len() <= self.mss) by {
                            if a < sb.len() - 1 {
                                assert(sb[a] == before[a]);
                            }
                        }
                        assert(newseg == stamped(&s0, q0[m], m, wnd));
                        assert forall|j: int| 0 <= j < self.snd_nxt - n0 implies #[trigger] sb[b0.len()
                            + j] == stamped(&s0, q0[j], j, wnd) by {
                            if j < m {
                                assert(sb[b0.len() + j] == before[b0.len() + j]);
                            }
                        }
                        assert forall|j: int| 0 <= j < self.snd_nxt - n0 implies (#[trigger] sb[b0.len()
                            + j]).sn == n0 + j && sb[b0.len() + j].data == q0[j].data && sb[b0.len()
                            + j].frg == q0[j].frg && sb[b0.len() + j].xmit == 0 by {
                            if j < m {
                                assert(sb[b0.len() + j] == before[b0.len() + j]);
                            }
                        }
                        assert forall|a: int| 0 <= a < self.snd_queue@.len() implies (
                        #[trigger] self.snd_queue@[a]).well_formed() && (bounded@
                            ==> self.snd_queue@[a].data@.len() <= self.mss) by {
                            assert(self.snd_queue@[a] == q0[a + m + 1]);
                        }
                    }
                },
                None => {},
            }
        }
    }
}

} // verus!
