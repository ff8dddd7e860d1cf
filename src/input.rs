//! Ingress: decoding a datagram of concatenated segments and dispatching
//! each on its command, then fast-ack counting and window growth.

use vstd::prelude::*;
use crate::wire::{Segment, Header, decode_header, read32, is_command, from_le16, lemma_le32_bytes,
    lemma_le16_bytes, IKCP_CMD_ACK, IKCP_CMD_PUSH,
    IKCP_CMD_WASK, IKCP_CMD_WINS};
use crate::kcp::{Kcp, KcpError, IKCP_ASK_TELL, all_well_formed, all_fit};
use crate::ack::{parse_una, parse_ack, parse_fastack, send_ordered, bump_fastack,
    lemma_retire_below, lemma_remove_sn};
use crate::receive::{parse_data, queue_extended, has_sn, in_receive_window, insert_data,
    ready_count, lemma_insert_data_from, lemma_insert_data_holds, lemma_still_held};
use crate::rtt::{diff, time_diff, estimate};

verus! {

/// What `ikcp_input` reports for the datagram `d`, read from offset `off`
/// on: the offset where reading stopped (fewer than 24 bytes left), or the
/// first failure.
pub open spec fn input_outcome(d: Seq<u8>, off: int, conv: u32) -> Result<int, KcpError>
    decreases d.len() - off,
{
    if off < 0 || d.len() - off < 24 {
        Ok(off)
    } else if read32(d, off) != conv {
        Err(KcpError::ForeignConversation)
    } else if off + 24 + read32(d, off + 20) > d.len() || !is_command(d[off + 4]) {
        Err(KcpError::MalformedDatagram)
    } else {
        input_outcome(d, off + 24 + read32(d, off + 20), conv)
    }
}

/// The header that starts at `off` in `d`.
pub open spec fn header_at(d: Seq<u8>, off: int) -> Header {
    Header {
        conv: read32(d, off),
        cmd: d[off + 4],
        frg: d[off + 5],
        wnd: from_le16(d[off + 6], d[off + 7]),
        ts: read32(d, off + 8),
        sn: read32(d, off + 12),
        una: read32(d, off + 16),
        len: read32(d, off + 20),
    }
}

/// The headers of the segments that `ikcp_input` processes in `d`, from
/// offset `off` on: up to the end, or up to the first failing one.
pub open spec fn headers_from(d: Seq<u8>, off: int, conv: u32) -> Seq<Header>
    decreases d.len() - off,
{
    if off < 0 || d.len() - off < 24 {
        Seq::empty()
    } else if read32(d, off) != conv || off + 24 + read32(d, off + 20) > d.len() || !is_command(
        d[off + 4],
    ) {
        Seq::empty()
    } else {
        seq![header_at(d, off)] + headers_from(d, off + 24 + read32(d, off + 20), conv)
    }
}

/// The payloads of the segments that `ikcp_input` processes in `d`, from
/// offset `off` on, in the order of `headers_from`.
pub open spec fn payloads_from(d: Seq<u8>, off: int, conv: u32) -> Seq<Seq<u8>>
    decreases d.len() - off,
{
    if off < 0 || d.len() - off < 24 {
        Seq::empty()
    } else if read32(d, off) != conv || off + 24 + read32(d, off + 20) > d.len() || !is_command(
        d[off + 4],
    ) {
        Seq::empty()
    } else {
        seq![d.subrange(off + 24, off + 24 + read32(d, off + 20))] + payloads_from(
            d,
            off + 24 + read32(d, off + 20),
            conv,
        )
    }
}

/// The payloads of the segments that `ikcp_input` processes in `d`.
pub open spec fn input_payloads(d: Seq<u8>, conv: u32) -> Seq<Seq<u8>> {
    if d.len() < 24 {
        Seq::empty()
    } else {
        payloads_from(d, 0, conv)
    }
}

/// `s` is the data segment made of header `h` and payload `p`, with no
/// transmission bookkeeping.
pub open spec fn made_of(s: Segment, h: Header, p: Seq<u8>) -> bool {
    &&& h.cmd == IKCP_CMD_PUSH
    &&& s.header() == h
    &&& s.data@ == p
    &&& s.resendts == 0 && s.rto == 0 && s.fastack == 0 && s.xmit == 0
}

/// `s` is made of one of the headers `hs` with its payload in `ps`.
pub open spec fn made_of_one(s: Segment, hs: Seq<Header>, ps: Seq<Seq<u8>>) -> bool {
    exists|i: int| 0 <= i < hs.len() && i < ps.len() && made_of(s, #[trigger] hs[i], ps[i])
}

/// The acknowledgements that the headers `hs` ask for, in order: one
/// `(sn, ts)` for each data segment numbered below the end of the receive
/// window, `nx[i] + wnd`, at the time its header is read.
pub open spec fn acks_of(hs: Seq<Header>, nx: Seq<u32>, wnd: u32) -> Seq<(u32, u32)>
    decreases hs.len(),
{
    if hs.len() == 0 {
        Seq::empty()
    } else {
        let rest = acks_of(hs.drop_last(), nx.drop_last(), wnd);
        let h = hs.last();
        if h.cmd == IKCP_CMD_PUSH && h.sn < nx.last() + wnd {
            rest.push((h.sn, h.ts))
        } else {
            rest
        }
    }
}

/// `nx` is a possible run of `rcv_nxt` values, one per header, from `lo`
/// up to `hi`.
pub open spec fn nxt_run(nx: Seq<u32>, lo: u32, hi: u32) -> bool {
    &&& forall|i: int| 0 <= i < nx.len() ==> lo <= #[trigger] nx[i] <= hi
    &&& forall|i: int, j: int| 0 <= i < j < nx.len() ==> #[trigger] nx[i] <= #[trigger] nx[j]
}

/// The headers of the segments that `ikcp_input` processes in `d`.
pub open spec fn input_headers(d: Seq<u8>, conv: u32) -> Seq<Header> {
    if d.len() < 24 {
        Seq::empty()
    } else {
        headers_from(d, 0, conv)
    }
}

proof fn lemma_header_at(d: Seq<u8>, off: int)
    requires
        0 <= off,
        off + 24 <= d.len(),
    ensures
        header_at(d, off).wire() == d.subrange(off, off + 24),
{
    let o = off;
    lemma_le32_bytes(d[o], d[o + 1], d[o + 2], d[o + 3]);
    lemma_le16_bytes(d[o + 6], d[o + 7]);
    lemma_le32_bytes(d[o + 8], d[o + 9], d[o + 10], d[o + 11]);
    lemma_le32_bytes(d[o + 12], d[o + 13], d[o + 14], d[o + 15]);
    lemma_le32_bytes(d[o + 16], d[o + 17], d[o + 18], d[o + 19]);
    lemma_le32_bytes(d[o + 20], d[o + 21], d[o + 22], d[o + 23]);
    assert(header_at(d, off).wire() =~= d.subrange(o, o + 24));
}

proof fn lemma_ask_tell(p: u32)
    ensures
        (p | IKCP_ASK_TELL) & IKCP_ASK_TELL == IKCP_ASK_TELL,
{
    assert((p | 2u32) & 2u32 == 2u32) by (bit_vector);
}

/// Some segment header that `ikcp_input` reads in `d`, from offset `off`
/// on, carries the ACK command.
pub open spec fn carries_ack(d: Seq<u8>, off: int) -> bool
    decreases d.len() - off,
{
    if off < 0 || d.len() - off < 24 {
        false
    } else if d[off + 4] == IKCP_CMD_ACK {
        true
    } else if off + 24 + read32(d, off + 20) > d.len() {
        false
    } else {
        carries_ack(d, off + 24 + read32(d, off + 20))
    }
}

/// What `ikcp_input` reports for the datagram `d`: the number of bytes
/// consumed, or the failure.
pub open spec fn input_result(d: Seq<u8>, conv: u32) -> Result<int, KcpError> {
    if d.len() < 24 {
        Err(KcpError::MalformedDatagram)
    } else {
        input_outcome(d, 0, conv)
    }
}

pub open spec fn sat32(x: int) -> u32 {
    if x > u32::MAX {
        u32::MAX
    } else {
        x as u32
    }
}

/// The congestion window and its byte counter after the acknowledged
/// prefix advanced: slow start below `ssthresh`, congestion avoidance
/// above, then capped at the remote window.
pub open spec fn grown_window(cwnd: u32, incr: u32, ssthresh: u32, rmt_wnd: u32, mss: u32) -> (u32, u32) {
    let (c, i) = if cwnd < ssthresh {
        ((cwnd + 1) as u32, sat32(incr + mss))
    } else {
        let i0 = if incr < mss { mss } else { incr };
        let i1 = sat32(i0 + (mss * mss) / (i0 as int) + mss / 16);
        (if (cwnd + 1) * mss <= i1 { sat32(cwnd + 1) } else { cwnd }, i1)
    };
    if c > rmt_wnd {
        (rmt_wnd, sat32(rmt_wnd * mss))
    } else {
        (c, i)
    }
}

fn grow_window(cwnd: u32, incr: u32, ssthresh: u32, rmt_wnd: u32, mss: u32) -> (r: (u32, u32))
    requires
        mss > 0,
    ensures
        r == grown_window(cwnd, incr, ssthresh, rmt_wnd, mss),
{
    let m = mss as u64;
    let (c, i) = if cwnd < ssthresh {
        let i1 = incr as u64 + m;
        (cwnd + 1, if i1 > u32::MAX as u64 { u32::MAX } else { i1 as u32 })
    } else {
        let i0 = if incr < mss { mss } else { incr };
        assert(m * m <= 0xffff_ffff * 0xffff_ffff) by (nonlinear_arith)
            requires
                m <= 0xffff_ffff,
        ;
        let q = m * m / (i0 as u64);
        assert(q <= m * m) by (nonlinear_arith)
            requires
                i0 >= 1,
                q == (m * m) as int / (i0 as int),
        ;
        assert(q <= m) by (nonlinear_arith)
            requires
                i0 >= m,
                m >= 1,
                q == (m * m) as int / (i0 as int),
        ;
        let i1 = i0 as u64 + q + m / 16;
        let i1 = if i1 > u32::MAX as u64 { u32::MAX } else { i1 as u32 };
        assert((cwnd as int + 1) * (m as int) <= 0x1_0000_0000 * 0xffff_ffff) by (nonlinear_arith)
            requires
                cwnd <= 0xffff_ffff,
                m <= 0xffff_ffff,
        ;
        let next = (cwnd as u64 + 1) * m;
        (if next <= i1 as u64 { cwnd.saturating_add(1) } else { cwnd }, i1)
    };
    if c > rmt_wnd {
        assert((rmt_wnd as int) * (m as int) <= 0xffff_ffff * 0xffff_ffff) by (nonlinear_arith)
            requires
                rmt_wnd <= 0xffff_ffff,
                m <= 0xffff_ffff,
        ;
        let w = rmt_wnd as u64 * m;
        (rmt_wnd, if w > u32::MAX as u64 { u32::MAX } else { w as u32 })
    } else {
        (c, i)
    }
}

/// The number of the head of the send buffer, or `snd_nxt` when it is empty.
fn shrink_buf(snd_buf: &Vec<Segment>, snd_nxt: u32) -> (r: u32)
    ensures
        r == (if snd_buf@.len() == 0 {
            snd_nxt
        } else {
            snd_buf@[0].sn
        }),
{
    if snd_buf.len() == 0 {
        snd_nxt
    } else {
        snd_buf[0].sn
    }
}

proof fn lemma_shrunk(q: Seq<Segment>, una: u32, nxt: u32)
    requires
        send_ordered(q, una, nxt),
        una <= nxt,
    ensures
        ({
            let u = if q.len() == 0 { nxt } else { q[0].sn };
            &&& send_ordered(q, u, nxt)
            &&& una <= u <= nxt
        }),
{
    let u = if q.len() == 0 { nxt } else { q[0].sn };
    assert forall|i: int| 0 <= i < q.len() implies u <= (#[trigger] q[i]).sn < nxt by {
        if i > 0 {
            assert(q[0].sn < q[i].sn);
        }
    }
}

proof fn lemma_sub_buffer(q: Seq<Segment>, r: Seq<Segment>, mss: u32, conv: u32)
    requires
        forall|s: Segment| #[trigger] r.contains(s) ==> q.contains(s),
    ensures
        all_well_formed(q) ==> all_well_formed(r),
        all_fit(q, mss) ==> all_fit(r, mss),
        (forall|i: int| 0 <= i < q.len() ==> (#[trigger] q[i]).cmd == IKCP_CMD_PUSH && q[i].conv == conv) ==> (forall|
            i: int,
        | 0 <= i < r.len() ==> (#[trigger] r[i]).cmd == IKCP_CMD_PUSH && r[i].conv == conv),
{
    assert forall|i: int| 0 <= i < r.len() implies q.contains(#[trigger] r[i]) by {
        assert(r.contains(r[i]));
    }
}

proof fn lemma_queue_extended_trans(q0: Seq<Segment>, q1: Seq<Segment>, q2: Seq<Segment>, n0: u32, n1: u32)
    requires
        queue_extended(q0, q1, n0),
        queue_extended(q1, q2, n1),
        n0 <= n1,
    ensures
        queue_extended(q0, q2, n0),
{
    assert(q2.take(q0.len() as int) =~= q1.take(q0.len() as int)) by {
        assert forall|i: int| 0 <= i < q0.len() implies q2[i] == q1[i] by {
            assert(q2.take(q1.len() as int)[i] == q2[i]);
        }
    }
    assert forall|i: int| q0.len() <= i < q2.len() implies (#[trigger] q2[i]).sn >= n0 by {
        if i < q1.len() {
            assert(q2.take(q1.len() as int)[i] == q2[i]);
            assert(q1[i].sn >= n0);
        }
    }
}

/// Segment number `x` is retired by the headers `hs`: one of them
/// acknowledges cumulatively past it, or acknowledges it by number.
pub open spec fn retired_by(hs: Seq<Header>, x: u32) -> bool {
    exists|i: int|
        0 <= i < hs.len() && (x < (#[trigger] hs[i]).una || (hs[i].cmd == IKCP_CMD_ACK && hs[i].sn
            == x))
}

/// The RTT sample that header `h` gives at time `current`, if any: only an
/// ACK whose timestamp is not in the future gives one.
pub open spec fn sample_of(h: Header, current: u32) -> Option<u32> {
    if h.cmd == IKCP_CMD_ACK && time_diff(current, h.ts) >= 0 {
        Some(time_diff(current, h.ts) as u32)
    } else {
        None
    }
}

/// `(srtt, rttval, rto)` after the samples of the headers `hs`, in order.
pub open spec fn estimator_after(e: (u32, u32, u32), hs: Seq<Header>, current: u32, interval: u32, minrto: u32) -> (u32, u32, u32)
    decreases hs.len(),
{
    if hs.len() == 0 {
        e
    } else {
        let e1 = estimator_after(e, hs.drop_last(), current, interval, minrto);
        match sample_of(hs.last(), current) {
            Some(rtt) => estimate(e1.0, e1.1, rtt, interval, minrto),
            None => e1,
        }
    }
}

/// The largest sequence number that an ACK among `hs` names, if any.
pub open spec fn max_ack(hs: Seq<Header>) -> Option<u32>
    decreases hs.len(),
{
    if hs.len() == 0 {
        None
    } else {
        let m = max_ack(hs.drop_last());
        let h = hs.last();
        if h.cmd == IKCP_CMD_ACK {
            match m {
                Some(x) => Some(if h.sn > x { h.sn } else { x }),
                None => Some(h.sn),
            }
        } else {
            m
        }
    }
}

/// The segment of `q` numbered `sn`.
pub open spec fn seg_with_sn(q: Seq<Segment>, sn: u32) -> Segment {
    q[choose|k: int| 0 <= k < q.len() && (#[trigger] q[k]).sn == sn]
}

/// Segment `s` after fast-ack counting for the largest acknowledged number
/// `m`, when `m` lies in `[una, nxt)`: a segment numbered below it was
/// skipped once more.
pub open spec fn after_fastack(s: Segment, m: Option<u32>, una: u32, nxt: u32) -> Segment {
    if m is Some && una <= m.unwrap() && m.unwrap() < nxt && s.sn < m.unwrap() {
        bump_fastack(s)
    } else {
        s
    }
}

/// `x` has arrived: it is below `rcv_nxt` or waits in the reorder buffer.
pub open spec fn held(k: &Kcp, x: u32) -> bool {
    x < k.rcv_nxt || has_sn(k.rcv_buf@, x)
}

/// A segment kept from the ordered buffer `q0` is the one of `q0` with its
/// number.
proof fn lemma_original(q: Seq<Segment>, q0: Seq<Segment>, j: int)
    requires
        0 <= j < q.len(),
        forall|x: Segment| #[trigger] q.contains(x) ==> q0.contains(x),
        crate::kcp::sn_increasing(q0),
    ensures
        seg_with_sn(q0, q[j].sn) == q[j],
{
    assert(q.contains(q[j]));
    let k = choose|k: int| 0 <= k < q0.len() && q0[k] == q[j];
    assert(q0[k].sn == q[j].sn);
    let c = choose|c: int| 0 <= c < q0.len() && (#[trigger] q0[c]).sn == q[j].sn;
    if c < k {
        assert(q0[c].sn < q0[k].sn);
    } else if c > k {
        assert(q0[k].sn < q0[c].sn);
    }
}

impl Kcp {
    /// Acts on one segment of an incoming datagram whose header `h` passed
    /// the checks; `payload` is its data.
    #[verifier::rlimit(100)]
    fn input_segment(&mut self, h: &Header, payload: &[u8])
        requires
            old(self).wf(),
            h.conv == old(self).conv,
            is_command(h.cmd),
            payload@.len() == h.len,
        ensures
            final(self).wf(),
            old(self).in_window() ==> final(self).in_window(),
            old(self).fits_mss() ==> final(self).fits_mss(),
            old(self).snd_una <= final(self).snd_una,
            old(self).rcv_nxt <= final(self).rcv_nxt,
            final(self).snd_nxt == old(self).snd_nxt,
            final(self).snd_queue@ == old(self).snd_queue@,
            final(self).outbox@ == old(self).outbox@,
            final(self).same_config(old(self)),
            final(self).cwnd == old(self).cwnd && final(self).incr == old(self).incr,
            final(self).ssthresh == old(self).ssthresh,
            queue_extended(old(self).rcv_queue@, final(self).rcv_queue@, old(self).rcv_nxt),
            h.cmd != IKCP_CMD_ACK ==> final(self).rx_rto == old(self).rx_rto && final(self).rx_srtt
                == old(self).rx_srtt && final(self).rx_rttval == old(self).rx_rttval,
            final(self).rmt_wnd == h.wnd,
            final(self).current == old(self).current,
            forall|x: Segment|
                #[trigger] final(self).rcv_buf@.contains(x) ==> old(self).rcv_buf@.contains(x) || made_of(
                    x,
                    *h,
                    payload@,
                ),
            forall|i: int|
                old(self).rcv_queue@.len() <= i < final(self).rcv_queue@.len() ==> old(self).rcv_buf@.contains(
                    #[trigger] final(self).rcv_queue@[i],
                ) || made_of(final(self).rcv_queue@[i], *h, payload@),
            forall|x: Segment| #[trigger] final(self).snd_buf@.contains(x) ==> old(self).snd_buf@.contains(x),
            (final(self).rx_srtt, final(self).rx_rttval, final(self).rx_rto) == (match sample_of(
                *h,
                old(self).current,
            ) {
                Some(rtt) => estimate(
                    old(self).rx_srtt,
                    old(self).rx_rttval,
                    rtt,
                    old(self).interval,
                    old(self).rx_minrto,
                ),
                None => (old(self).rx_srtt, old(self).rx_rttval, old(self).rx_rto),
            }),
            forall|x: u32| has_sn(final(self).snd_buf@, x) ==> has_sn(old(self).snd_buf@, x),
            forall|j: int|
                0 <= j < final(self).snd_buf@.len() ==> (#[trigger] final(self).snd_buf@[j]).sn
                    >= h.una,
            h.cmd == IKCP_CMD_ACK ==> !has_sn(final(self).snd_buf@, h.sn),
            forall|x: u32|
                has_sn(old(self).snd_buf@, x) && x >= h.una && !(h.cmd == IKCP_CMD_ACK && x == h.sn)
                    ==> has_sn(final(self).snd_buf@, x),
            forall|x: u32| held(old(self), x) ==> held(final(self), x),
            h.cmd == IKCP_CMD_PUSH && in_receive_window(h.sn, old(self).rcv_nxt, old(self).rcv_wnd)
                ==> held(final(self), h.sn),
            h.cmd == IKCP_CMD_PUSH && h.sn < old(self).rcv_nxt + old(self).rcv_wnd ==> final(self).acklist@ == old(self).acklist@.push((h.sn, h.ts)),
            !(h.cmd == IKCP_CMD_PUSH && h.sn < old(self).rcv_nxt + old(self).rcv_wnd) ==> final(self).acklist@ == old(self).acklist@,
            !(h.cmd == IKCP_CMD_PUSH && h.sn >= old(self).rcv_nxt) ==> final(self).same_receive_side(
                old(self),
            ),
            final(self).probe == (if h.cmd == IKCP_CMD_WASK {
                old(self).probe | IKCP_ASK_TELL
            } else {
                old(self).probe
            }),
    {
        let ghost start = *self;
        assert(self.rcv_queue@.take(self.rcv_queue@.len() as int) =~= self.rcv_queue@);
        self.rmt_wnd = h.wnd as u32;
        let ghost q0 = self.snd_buf@;
        parse_una(&mut self.snd_buf, h.una);
        proof {
            let k = q0.len() - self.snd_buf@.len();
            crate::ack::lemma_suffix(q0, k, self.snd_una, self.snd_nxt, self.mss, self.conv);
            lemma_shrunk(self.snd_buf@, self.snd_una, self.snd_nxt);
            lemma_retire_below(q0, h.una);
            let q = self.snd_buf@;
            assert forall|j: int| 0 <= j < q.len() implies (#[trigger] q[j]).sn >= h.una by {
                if j > 0 {
                    assert(q[0].sn < q[j].sn);
                }
            }
            assert forall|x: u32| has_sn(q, x) implies has_sn(q0, x) by {
                let j = choose|j: int| 0 <= j < q.len() && (#[trigger] q[j]).sn == x;
                assert(q[j] == q0[j + k]);
            }
            assert forall|x: Segment| #[trigger] q.contains(x) implies q0.contains(x) by {
                let j = choose|j: int| 0 <= j < q.len() && q[j] == x;
                assert(q[j] == q0[j + k]);
            }
            assert forall|x: u32| has_sn(q0, x) && x >= h.una implies has_sn(q, x) by {
                let j = choose|j: int| 0 <= j < q0.len() && (#[trigger] q0[j]).sn == x;
                assert(q[j - k] == q0[j]);
            }
        }
        self.snd_una = shrink_buf(&self.snd_buf, self.snd_nxt);
        if h.cmd == IKCP_CMD_ACK {
            let rtt = diff(self.current, h.ts);
            if rtt >= 0 {
                self.ikcp_update_ack(rtt as u32);
            }
            let ghost q1 = self.snd_buf@;
            parse_ack(&mut self.snd_buf, self.snd_una, self.snd_nxt, h.sn);
            proof {
                lemma_sub_buffer(q1, self.snd_buf@, self.mss, self.conv);
                lemma_shrunk(self.snd_buf@, self.snd_una, self.snd_nxt);
                lemma_remove_sn(q1, h.sn, h.sn);
                assert forall|x: u32| has_sn(self.snd_buf@, x) implies has_sn(q0, x) by {
                    lemma_remove_sn(q1, h.sn, x);
                }
                assert forall|x: u32| has_sn(q1, x) && x != h.sn implies has_sn(self.snd_buf@, x) by {
                    lemma_remove_sn(q1, h.sn, x);
                }
                let q = self.snd_buf@;
                assert forall|j: int| 0 <= j < q.len() implies (#[trigger] q[j]).sn >= h.una by {
                    assert(q1.contains(q[j]));
                }
            }
            self.snd_una = shrink_buf(&self.snd_buf, self.snd_nxt);
        } else if h.cmd == IKCP_CMD_PUSH {
            if (h.sn as u64) < self.rcv_nxt as u64 + self.rcv_wnd as u64 {
                self.acklist.push((h.sn, h.ts));
                if h.sn >= self.rcv_nxt {
                    let seg = Segment {
                        conv: h.conv,
                        cmd: h.cmd,
                        frg: h.frg,
                        wnd: h.wnd,
                        ts: h.ts,
                        sn: h.sn,
                        una: h.una,
                        len: h.len,
                        resendts: 0,
                        rto: 0,
                        fastack: 0,
                        xmit: 0,
                        data: vstd::slice::slice_to_vec(payload),
                    };
                    let ghost b0 = self.rcv_buf@;
                    let ghost n0 = self.rcv_nxt;
                    let ghost room = self.rcv_wnd - self.rcv_queue@.len();
                    let ghost q0len = self.rcv_queue@.len();
                    let ghost q0 = self.rcv_queue@;
                    parse_data(
                        &mut self.rcv_buf,
                        &mut self.rcv_queue,
                        &mut self.rcv_nxt,
                        self.rcv_wnd,
                        seg,
                    );
                    proof {
                        assert(made_of(seg, *h, payload@));
                        if in_receive_window(h.sn, n0, self.rcv_wnd) {
                            let b = insert_data(b0, seg);
                            let m = ready_count(b, n0 as int, room);
                            crate::receive::lemma_ready_count(b, n0 as int, room);
                            assert(self.rcv_buf@ == b.skip(m as int));
                            assert(self.rcv_queue@ == q0 + b.take(m as int));
                            assert forall|x: Segment| #[trigger] self.rcv_buf@.contains(x) implies b0.contains(x)
                                || made_of(x, *h, payload@) by {
                                let j = choose|j: int| 0 <= j < self.rcv_buf@.len() && self.rcv_buf@[j] == x;
                                assert(self.rcv_buf@[j] == b.skip(m as int)[j]);
                                assert(b.skip(m as int)[j] == b[j + m]);
                                assert(b.contains(x));
                                lemma_insert_data_from(b0, seg, x);
                            }
                            assert forall|i: int| q0len <= i < self.rcv_queue@.len() implies b0.contains(
                                #[trigger] self.rcv_queue@[i],
                            ) || made_of(self.rcv_queue@[i], *h, payload@) by {
                                let x = self.rcv_queue@[i];
                                assert(self.rcv_queue@[i] == b.take(m as int)[i - q0len]);
                                assert(b.take(m as int)[i - q0len] == b[i - q0len]);
                                assert(b.contains(x));
                                lemma_insert_data_from(b0, seg, x);
                            }
                            lemma_insert_data_holds(b0, seg, h.sn);
                            lemma_still_held(b, n0 as int, room, h.sn);
                            assert forall|x: u32| held(&start, x) implies held(self, x) by {
                                if has_sn(b0, x) {
                                    lemma_insert_data_holds(b0, seg, x);
                                    lemma_still_held(b, n0 as int, room, x);
                                }
                            }
                        }
                    }
                }
            }
        } else if h.cmd == IKCP_CMD_WASK {
            self.probe = self.probe | IKCP_ASK_TELL;
        }
    }

    /// Processes one incoming datagram. Returns the number of bytes
    /// consumed (trailing bytes shorter than a header are left), or the first
    /// failure; the segments before a failing one have taken effect. For the
    /// segments processed: the remote window is the last one announced; every
    /// segment numbered below an announced `una`, and every segment
    /// acknowledged by number, has left the send buffer; every data segment
    /// inside the receive window has arrived and is acknowledged on the next
    /// flush; a window probe asks for a window announcement; and when the
    /// acknowledged prefix advanced, the congestion window grows.
    #[verifier::rlimit(100)]
    pub fn ikcp_input(&mut self, data: &[u8]) -> (r: Result<usize, KcpError>)
        requires
            old(self).wf(),
        ensures
            final(self).wf(),
            old(self).in_window() ==> final(self).in_window(),
            old(self).fits_mss() ==> final(self).fits_mss(),
            match input_result(data@, old(self).conv) {
                Ok(n) => r == Ok::<usize, KcpError>(n as usize),
                Err(e) => r == Err::<usize, KcpError>(e),
            },
            data@.len() < 24 || read32(data@, 0) != old(self).conv ==> *final(self) == *old(self),
            input_headers(data@, old(self).conv).len() == 0 ==> *final(self) == *old(self),
            (forall|i: int|
                0 <= i < input_headers(data@, old(self).conv).len() && (#[trigger] input_headers(
                    data@,
                    old(self).conv,
                )[i]).cmd == IKCP_CMD_PUSH ==> input_headers(data@, old(self).conv)[i].sn < old(
                    self,
                ).rcv_nxt) ==> final(self).same_receive_side(old(self)),
            old(self).snd_una <= final(self).snd_una,
            old(self).rcv_nxt <= final(self).rcv_nxt,
            final(self).snd_nxt == old(self).snd_nxt,
            final(self).snd_queue@ == old(self).snd_queue@,
            final(self).outbox@ == old(self).outbox@,
            final(self).same_config(old(self)),
            queue_extended(old(self).rcv_queue@, final(self).rcv_queue@, old(self).rcv_nxt),
            !carries_ack(data@, 0) ==> final(self).rx_rto == old(self).rx_rto && final(self).rx_srtt
                == old(self).rx_srtt && final(self).rx_rttval == old(self).rx_rttval,
            ({
                let hs = input_headers(data@, old(self).conv);
                let ps = input_payloads(data@, old(self).conv);
                &&& forall|j: int|
                    0 <= j < final(self).snd_buf@.len() ==> #[trigger] final(self).snd_buf@[j]
                        == after_fastack(
                        seg_with_sn(old(self).snd_buf@, final(self).snd_buf@[j].sn),
                        if r is Ok { max_ack(hs) } else { None },
                        final(self).snd_una,
                        final(self).snd_nxt,
                    )
                &&& exists|nx: Seq<u32>|
                    nx.len() == hs.len() && nxt_run(nx, old(self).rcv_nxt, final(self).rcv_nxt)
                        && #[trigger] final(self).acklist@ == old(self).acklist@ + acks_of(
                        hs,
                        nx,
                        old(self).rcv_wnd,
                    )
                &&& forall|x: Segment|
                    #[trigger] final(self).rcv_buf@.contains(x) ==> old(self).rcv_buf@.contains(x)
                        || made_of_one(x, hs, ps)
                &&& forall|i: int|
                    old(self).rcv_queue@.len() <= i < final(self).rcv_queue@.len() ==> old(
                        self,
                    ).rcv_buf@.contains(#[trigger] final(self).rcv_queue@[i]) || made_of_one(
                        final(self).rcv_queue@[i],
                        hs,
                        ps,
                    )
                &&& (final(self).rx_srtt, final(self).rx_rttval, final(self).rx_rto)
                    == estimator_after(
                    (old(self).rx_srtt, old(self).rx_rttval, old(self).rx_rto),
                    hs,
                    old(self).current,
                    old(self).interval,
                    old(self).rx_minrto,
                )
                &&& hs.len() > 0 ==> final(self).rmt_wnd == hs.last().wnd
                &&& hs.len() == 0 ==> final(self).rmt_wnd == old(self).rmt_wnd
                &&& forall|x: u32|
                    #![trigger has_sn(final(self).snd_buf@, x)]
                    #![trigger has_sn(old(self).snd_buf@, x)]
                    has_sn(final(self).snd_buf@, x) <==> has_sn(old(self).snd_buf@, x) && !retired_by(
                        hs,
                        x,
                    )
                &&& forall|i: int, j: int|
                    0 <= i < hs.len() && 0 <= j < final(self).snd_buf@.len() ==> (
                    #[trigger] final(self).snd_buf@[j]).sn >= (#[trigger] hs[i]).una
                &&& forall|i: int|
                    0 <= i < hs.len() && (#[trigger] hs[i]).cmd == IKCP_CMD_ACK ==> !has_sn(
                        final(self).snd_buf@,
                        hs[i].sn,
                    )
                &&& forall|i: int|
                    0 <= i < hs.len() && (#[trigger] hs[i]).cmd == IKCP_CMD_PUSH
                        && in_receive_window(hs[i].sn, old(self).rcv_nxt, old(self).rcv_wnd)
                        ==> held(final(self), hs[i].sn)
                &&& forall|i: int|
                    0 <= i < hs.len() && (#[trigger] hs[i]).cmd == IKCP_CMD_PUSH && hs[i].sn < old(self).rcv_nxt + old(self).rcv_wnd ==> final(self).acklist@.contains((hs[i].sn, hs[i].ts))
                &&& (exists|i: int| 0 <= i < hs.len() && (#[trigger] hs[i]).cmd == IKCP_CMD_WASK)
                    ==> final(self).probe & IKCP_ASK_TELL == IKCP_ASK_TELL
                &&& r is Ok && final(self).snd_una > old(self).snd_una ==> (final(self).cwnd, final(self).incr)
                    == grown_window(
                    old(self).cwnd,
                    old(self).incr,
                    old(self).ssthresh,
                    final(self).rmt_wnd,
                    old(self).mss,
                )
                &&& !(r is Ok && final(self).snd_una > old(self).snd_una) ==> final(self).cwnd == old(self).cwnd && final(self).incr == old(self).incr
            }),
    {
        let n = data.len();
        assert(self.rcv_queue@.take(self.rcv_queue@.len() as int) =~= self.rcv_queue@);
        assert forall|x: u32| has_sn(self.snd_buf@, x) implies has_sn(old(self).snd_buf@, x) by {}
        if n < 24 {
            proof {
                let e = Seq::<u32>::empty();
                assert(input_headers(data@, self.conv) =~= Seq::<Header>::empty());
                assert(e.len() == input_headers(data@, self.conv).len());
                assert forall|j: int| 0 <= j < self.snd_buf@.len() implies #[trigger] self.snd_buf@[j]
                    == after_fastack(seg_with_sn(self.snd_buf@, self.snd_buf@[j].sn), None, self.snd_una, self.snd_nxt) by {
                    lemma_original(self.snd_buf@, self.snd_buf@, j);
                }
                assert(nxt_run(e, self.rcv_nxt, self.rcv_nxt));
                assert(self.acklist@ =~= self.acklist@ + acks_of(input_headers(data@, self.conv), e, self.rcv_wnd));
            }
            return Err(KcpError::MalformedDatagram);
        }
        let ghost d = data@;
        let ghost win = self.in_window();
        let ghost fits = self.fits_mss();
        let ghost start = *self;
        let ghost mut seen: Seq<Header> = Seq::empty();
        let ghost mut seen_p: Seq<Seq<u8>> = Seq::empty();
        let ghost mut nxs: Seq<u32> = Seq::empty();
        assert(self.acklist@ =~= self.acklist@ + acks_of(seen, nxs, self.rcv_wnd));
        let old_una = self.snd_una;
        let mut flag = false;
        let mut maxack: u32 = 0;
        let mut off: usize = 0;
        assert(input_headers(d, start.conv) == seen + headers_from(d, 0, start.conv));
        assert(input_payloads(d, start.conv) == seen_p + payloads_from(d, 0, start.conv));
        while n - off >= 24
            invariant
                d == data@,
                start == *old(self),
                n == d.len(),
                n >= 24,
                off <= n,
                input_result(d, start.conv) == input_outcome(d, off as int, start.conv),
                input_headers(d, start.conv) == seen + headers_from(d, off as int, start.conv),
                input_payloads(d, start.conv) == seen_p + payloads_from(d, off as int, start.conv),
                seen_p.len() == seen.len(),
                nxs.len() == seen.len(),
                nxt_run(nxs, start.rcv_nxt, self.rcv_nxt),
                self.acklist@ == start.acklist@ + acks_of(seen, nxs, start.rcv_wnd),
                forall|x: Segment|
                    #[trigger] self.rcv_buf@.contains(x) ==> start.rcv_buf@.contains(x) || made_of_one(
                        x,
                        seen,
                        seen_p,
                    ),
                forall|i: int|
                    start.rcv_queue@.len() <= i < self.rcv_queue@.len() ==> start.rcv_buf@.contains(
                        #[trigger] self.rcv_queue@[i],
                    ) || made_of_one(self.rcv_queue@[i], seen, seen_p),
                self.wf(),
                win == start.in_window(),
                fits == start.fits_mss(),
                win ==> self.in_window(),
                fits ==> self.fits_mss(),
                old_una == start.snd_una,
                start.snd_una <= self.snd_una,
                start.rcv_nxt <= self.rcv_nxt,
                self.snd_nxt == start.snd_nxt,
                self.snd_queue@ == start.snd_queue@,
                self.outbox@ == start.outbox@,
                self.same_config(&start),
                self.cwnd == start.cwnd && self.incr == start.incr && self.ssthresh == start.ssthresh,
                off == 0 ==> *self == start && seen.len() == 0,
                off > 0 ==> seen.len() > 0,
                (forall|i: int|
                    0 <= i < seen.len() && (#[trigger] seen[i]).cmd == IKCP_CMD_PUSH ==> seen[i].sn
                        < start.rcv_nxt) ==> self.same_receive_side(&start),
                off > 0 ==> read32(d, 0) == start.conv,
                queue_extended(start.rcv_queue@, self.rcv_queue@, start.rcv_nxt),
                carries_ack(d, off as int) ==> carries_ack(d, 0),
                !carries_ack(d, 0) ==> self.rx_rto == start.rx_rto && self.rx_srtt == start.rx_srtt
                    && self.rx_rttval == start.rx_rttval,
                seen.len() > 0 ==> self.rmt_wnd == seen.last().wnd,
                (self.rx_srtt, self.rx_rttval, self.rx_rto) == estimator_after(
                    (start.rx_srtt, start.rx_rttval, start.rx_rto),
                    seen,
                    start.current,
                    start.interval,
                    start.rx_minrto,
                ),
                self.current == start.current,
                forall|x: Segment| #[trigger] self.snd_buf@.contains(x) ==> start.snd_buf@.contains(x),
                flag == max_ack(seen) is Some,
                crate::kcp::sn_increasing(start.snd_buf@),
                flag ==> maxack == max_ack(seen).unwrap(),
                seen.len() == 0 ==> self.rmt_wnd == start.rmt_wnd,
                forall|x: u32| has_sn(self.snd_buf@, x) ==> has_sn(start.snd_buf@, x),
                forall|x: u32|
                    has_sn(start.snd_buf@, x) && !retired_by(seen, x) ==> has_sn(self.snd_buf@, x),
                forall|i: int, j: int|
                    0 <= i < seen.len() && 0 <= j < self.snd_buf@.len() ==> (
                    #[trigger] self.snd_buf@[j]).sn >= (#[trigger] seen[i]).una,
                forall|i: int|
                    0 <= i < seen.len() && (#[trigger] seen[i]).cmd == IKCP_CMD_ACK ==> !has_sn(
                        self.snd_buf@,
                        seen[i].sn,
                    ),
                forall|i: int|
                    0 <= i < seen.len() && (#[trigger] seen[i]).cmd == IKCP_CMD_PUSH
                        && in_receive_window(seen[i].sn, start.rcv_nxt, start.rcv_wnd) ==> held(
                        self,
                        seen[i].sn,
                    ),
                forall|i: int|
                    0 <= i < seen.len() && (#[trigger] seen[i]).cmd == IKCP_CMD_PUSH && seen[i].sn
                        < start.rcv_nxt + start.rcv_wnd ==> self.acklist@.contains(
                        (seen[i].sn, seen[i].ts),
                    ),
                (exists|i: int| 0 <= i < seen.len() && (#[trigger] seen[i]).cmd == IKCP_CMD_WASK)
                    ==> self.probe & IKCP_ASK_TELL == IKCP_ASK_TELL,
            decreases n - off,
        {
            let h = decode_header(data, off);
            proof {
                let o = off as int;
                lemma_header_at(d, o);
                h.lemma_wire_injective(header_at(d, o));
                crate::wire::lemma_le32_read(h.conv);
                crate::wire::lemma_le32_read(h.len);
            }
            if h.conv != self.conv {
                proof {
                    assert(headers_from(d, off as int, start.conv) =~= Seq::<Header>::empty());
                    assert(input_headers(d, start.conv) =~= seen);
                    assert(payloads_from(d, off as int, start.conv) =~= Seq::<Seq<u8>>::empty());
                    assert(input_payloads(d, start.conv) =~= seen_p);
                    assert forall|j: int| 0 <= j < self.snd_buf@.len() implies #[trigger] self.snd_buf@[j]
                        == after_fastack(
                        seg_with_sn(start.snd_buf@, self.snd_buf@[j].sn),
                        None,
                        self.snd_una,
                        self.snd_nxt,
                    ) by {
                        lemma_original(self.snd_buf@, start.snd_buf@, j);
                    }
                }
                return Err(KcpError::ForeignConversation);
            }
            let len = h.len as usize;
            if n - off - 24 < len {
                proof {
                    assert(headers_from(d, off as int, start.conv) =~= Seq::<Header>::empty());
                    assert(input_headers(d, start.conv) =~= seen);
                    assert(payloads_from(d, off as int, start.conv) =~= Seq::<Seq<u8>>::empty());
                    assert(input_payloads(d, start.conv) =~= seen_p);
                    assert forall|j: int| 0 <= j < self.snd_buf@.len() implies #[trigger] self.snd_buf@[j]
                        == after_fastack(
                        seg_with_sn(start.snd_buf@, self.snd_buf@[j].sn),
                        None,
                        self.snd_una,
                        self.snd_nxt,
                    ) by {
                        lemma_original(self.snd_buf@, start.snd_buf@, j);
                    }
                }
                return Err(KcpError::MalformedDatagram);
            }
            if h.cmd != IKCP_CMD_PUSH && h.cmd != IKCP_CMD_ACK && h.cmd != IKCP_CMD_WASK && h.cmd
                != IKCP_CMD_WINS {
                proof {
                    assert(headers_from(d, off as int, start.conv) =~= Seq::<Header>::empty());
                    assert(input_headers(d, start.conv) =~= seen);
                    assert(payloads_from(d, off as int, start.conv) =~= Seq::<Seq<u8>>::empty());
                    assert(input_payloads(d, start.conv) =~= seen_p);
                    assert forall|j: int| 0 <= j < self.snd_buf@.len() implies #[trigger] self.snd_buf@[j]
                        == after_fastack(
                        seg_with_sn(start.snd_buf@, self.snd_buf@[j].sn),
                        None,
                        self.snd_una,
                        self.snd_nxt,
                    ) by {
                        lemma_original(self.snd_buf@, start.snd_buf@, j);
                    }
                }
                return Err(KcpError::MalformedDatagram);
            }
            assert(carries_ack(d, off as int) == (h.cmd == IKCP_CMD_ACK || carries_ack(
                d,
                off + 24 + len,
            )));
            let ghost k0 = *self;
            let payload = vstd::slice::slice_subrange(data, off + 24, off + 24 + len);
            self.input_segment(&h, payload);
            proof {
                let k1 = *self;
                lemma_queue_extended_trans(start.rcv_queue@, k0.rcv_queue@, k1.rcv_queue@, start.rcv_nxt, k0.rcv_nxt);
                let s1 = seen.push(h);
                assert(s1.drop_last() =~= seen);
                assert(headers_from(d, off as int, start.conv) == seq![h] + headers_from(d, off + 24 + len, start.conv));
                assert(seen + headers_from(d, off as int, start.conv) =~= s1 + headers_from(d, off + 24 + len, start.conv));
                assert forall|i: int, j: int|
                    0 <= i < s1.len() && 0 <= j < k1.snd_buf@.len() implies (
                    #[trigger] k1.snd_buf@[j]).sn >= (#[trigger] s1[i]).una by {
                    if i < seen.len() {
                        assert(s1[i] == seen[i]);
                        assert(has_sn(k1.snd_buf@, k1.snd_buf@[j].sn));
                        assert(has_sn(k0.snd_buf@, k1.snd_buf@[j].sn));
                        let j0 = choose|j0: int| 0 <= j0 < k0.snd_buf@.len() && (#[trigger] k0.snd_buf@[j0]).sn == k1.snd_buf@[j].sn;
                        assert(k0.snd_buf@[j0].sn >= seen[i].una);
                    }
                }
                assert forall|i: int|
                    0 <= i < s1.len() && (#[trigger] s1[i]).cmd == IKCP_CMD_ACK implies !has_sn(
                        k1.snd_buf@,
                        s1[i].sn,
                    ) by {
                    if i < seen.len() {
                        assert(s1[i] == seen[i]);
                    }
                }
                assert forall|i: int|
                    0 <= i < s1.len() && (#[trigger] s1[i]).cmd == IKCP_CMD_PUSH
                        && in_receive_window(s1[i].sn, start.rcv_nxt, start.rcv_wnd) implies held(
                        &k1,
                        s1[i].sn,
                    ) by {
                    if i < seen.len() {
                        assert(s1[i] == seen[i]);
                        assert(held(&k0, seen[i].sn));
                    } else {
                        if s1[i].sn >= k0.rcv_nxt {
                            assert(in_receive_window(h.sn, k0.rcv_nxt, k0.rcv_wnd));
                        }
                    }
                }
                assert forall|i: int|
                    0 <= i < s1.len() && (#[trigger] s1[i]).cmd == IKCP_CMD_PUSH && s1[i].sn
                        < start.rcv_nxt + start.rcv_wnd implies k1.acklist@.contains(
                        (s1[i].sn, s1[i].ts),
                    ) by {
                    if i < seen.len() {
                        assert(s1[i] == seen[i]);
                        assert(k0.acklist@.contains((seen[i].sn, seen[i].ts)));
                        let a = choose|a: int| 0 <= a < k0.acklist@.len() && k0.acklist@[a] == (seen[i].sn, seen[i].ts);
                        if h.cmd == IKCP_CMD_PUSH && h.sn < k0.rcv_nxt + k0.rcv_wnd {
                            assert(k1.acklist@[a] == k0.acklist@[a]);
                        }
                    } else {
                        assert(k1.acklist@[k1.acklist@.len() - 1] == (h.sn, h.ts));
                    }
                }
                assert forall|x: u32| has_sn(start.snd_buf@, x) && !retired_by(s1, x) implies has_sn(
                    k1.snd_buf@,
                    x,
                ) by {
                    if retired_by(seen, x) {
                        let i = choose|i: int|
                            0 <= i < seen.len() && (x < (#[trigger] seen[i]).una || (seen[i].cmd
                                == IKCP_CMD_ACK && seen[i].sn == x));
                        assert(s1[i] == seen[i]);
                    }
                    let last = seen.len() as int;
                    assert(s1[last] == h);
                }
                assert forall|x: u32| has_sn(k1.snd_buf@, x) implies !retired_by(s1, x) by {
                    if retired_by(s1, x) {
                        let i = choose|i: int|
                            0 <= i < s1.len() && (x < (#[trigger] s1[i]).una || (s1[i].cmd
                                == IKCP_CMD_ACK && s1[i].sn == x));
                        let j = choose|j: int| 0 <= j < k1.snd_buf@.len() && (#[trigger] k1.snd_buf@[j]).sn == x;
                        assert(k1.snd_buf@[j].sn >= s1[i].una);
                    }
                }
                if exists|i: int| 0 <= i < s1.len() && (#[trigger] s1[i]).cmd == IKCP_CMD_WASK {
                    let i = choose|i: int| 0 <= i < s1.len() && (#[trigger] s1[i]).cmd == IKCP_CMD_WASK;
                    if i < seen.len() {
                        assert(s1[i] == seen[i]);
                        assert(k0.probe & IKCP_ASK_TELL == IKCP_ASK_TELL);
                        if h.cmd == IKCP_CMD_WASK {
                            lemma_ask_tell(k0.probe);
                        }
                    } else {
                        lemma_ask_tell(k0.probe);
                    }
                }
                if forall|i: int|
                    0 <= i < s1.len() && (#[trigger] s1[i]).cmd == IKCP_CMD_PUSH ==> s1[i].sn
                        < start.rcv_nxt {
                    assert forall|i: int|
                        0 <= i < seen.len() && (#[trigger] seen[i]).cmd == IKCP_CMD_PUSH implies seen[i].sn
                            < start.rcv_nxt by {
                        assert(s1[i] == seen[i]);
                    }
                    assert(s1[seen.len() as int] == h);
                }
                let p1 = seen_p.push(payload@);
                assert(payload@ == d.subrange(off + 24, off + 24 + len));
                assert(payloads_from(d, off as int, start.conv) == seq![payload@] + payloads_from(
                    d,
                    off + 24 + len,
                    start.conv,
                ));
                assert(seen_p + payloads_from(d, off as int, start.conv) =~= p1 + payloads_from(
                    d,
                    off + 24 + len,
                    start.conv,
                ));
                assert forall|x: Segment| made_of_one(x, seen, seen_p) implies made_of_one(x, s1, p1) by {
                    let j = choose|j: int|
                        0 <= j < seen.len() && j < seen_p.len() && made_of(x, #[trigger] seen[j], seen_p[j]);
                    assert(s1[j] == seen[j] && p1[j] == seen_p[j]);
                }
                assert forall|x: Segment| made_of(x, h, payload@) implies made_of_one(x, s1, p1) by {
                    let j = seen.len() as int;
                    assert(s1[j] == h && p1[j] == payload@);
                }
                assert forall|x: Segment| #[trigger] k1.rcv_buf@.contains(x) implies start.rcv_buf@.contains(x)
                    || made_of_one(x, s1, p1) by {
                    if k0.rcv_buf@.contains(x) {
                    }
                }
                assert forall|i: int| start.rcv_queue@.len() <= i < k1.rcv_queue@.len() implies start.rcv_buf@.contains(
                    #[trigger] k1.rcv_queue@[i],
                ) || made_of_one(k1.rcv_queue@[i], s1, p1) by {
                    if i < k0.rcv_queue@.len() {
                        assert(k1.rcv_queue@[i] == k1.rcv_queue@.take(k0.rcv_queue@.len() as int)[i]);
                        assert(k1.rcv_queue@[i] == k0.rcv_queue@[i]);
                    } else {
                        if k0.rcv_buf@.contains(k1.rcv_queue@[i]) {
                        }
                    }
                }
                let n1 = nxs.push(k0.rcv_nxt);
                assert(s1.drop_last() =~= seen && n1.drop_last() =~= nxs);
                assert(n1.last() == k0.rcv_nxt);
                assert(k1.acklist@ =~= start.acklist@ + acks_of(s1, n1, start.rcv_wnd));
                assert(nxt_run(n1, start.rcv_nxt, k1.rcv_nxt)) by {
                    assert forall|i: int, j: int| 0 <= i < j < n1.len() implies #[trigger] n1[i] <= #[trigger] n1[j] by {
                        if j < nxs.len() {
                            assert(n1[i] == nxs[i] && n1[j] == nxs[j]);
                        } else {
                            assert(n1[i] == nxs[i]);
                        }
                    }
                    assert forall|i: int| 0 <= i < n1.len() implies start.rcv_nxt <= #[trigger] n1[i] <= k1.rcv_nxt by {
                        if i < nxs.len() {
                            assert(n1[i] == nxs[i]);
                        }
                    }
                }
                seen = s1;
                seen_p = p1;
                nxs = n1;
            }
            if h.cmd == IKCP_CMD_ACK {
                if !flag {
                    flag = true;
                    maxack = h.sn;
                } else if h.sn > maxack {
                    maxack = h.sn;
                }
            }
            off = off + 24 + len;
        }
        proof {
            assert(headers_from(d, off as int, start.conv) =~= Seq::<Header>::empty());
            assert(input_headers(d, start.conv) =~= seen);
            assert(payloads_from(d, off as int, start.conv) =~= Seq::<Seq<u8>>::empty());
            assert(input_payloads(d, start.conv) =~= seen_p);
        }
        let ghost q2 = self.snd_buf@;
        if flag {
            parse_fastack(&mut self.snd_buf, self.snd_una, self.snd_nxt, maxack);
            proof {
                let q3 = self.snd_buf@;
                assert forall|i: int| 0 <= i < q3.len() implies (#[trigger] q3[i]).sn == q2[i].sn
                    && q3[i].data == q2[i].data && q3[i].len == q2[i].len && q3[i].cmd == q2[i].cmd && q3[i].conv == q2[i].conv by {}
                assert(forall|i: int| 0 <= i < q2.len() ==> (#[trigger] q2[i]).well_formed());
                assert(forall|i: int, j: int| 0 <= i < j < q2.len() ==> #[trigger] q2[i].sn < #[trigger] q2[j].sn);
                assert forall|x: u32| has_sn(q3, x) implies has_sn(q2, x) by {
                    let j = choose|j: int| 0 <= j < q3.len() && (#[trigger] q3[j]).sn == x;
                    assert(q2[j].sn == x);
                }
                assert forall|x: u32| has_sn(q2, x) implies has_sn(q3, x) by {
                    let j = choose|j: int| 0 <= j < q2.len() && (#[trigger] q2[j]).sn == x;
                    assert(q3[j].sn == x);
                }
                assert forall|i: int, j: int|
                    0 <= i < seen.len() && 0 <= j < q3.len() implies (#[trigger] q3[j]).sn >= (
                    #[trigger] seen[i]).una by {
                    assert(q3[j].sn == q2[j].sn);
                    assert(q2[j].sn >= seen[i].una);
                }
            }
        }
        proof {
            let q3 = self.snd_buf@;
            assert forall|j: int| 0 <= j < q3.len() implies #[trigger] q3[j] == after_fastack(
                seg_with_sn(start.snd_buf@, q3[j].sn),
                max_ack(seen),
                self.snd_una,
                self.snd_nxt,
            ) by {
                lemma_original(q2, start.snd_buf@, j);
                assert(q3[j].sn == q2[j].sn);
            }
        }
        if self.snd_una > old_una {
            let (c, i) = grow_window(self.cwnd, self.incr, self.ssthresh, self.rmt_wnd, self.mss);
            self.cwnd = c;
            self.incr = i;
        }
        Ok(off)
    }
}

} // verus!
