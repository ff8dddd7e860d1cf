//! The receive side: reassembly of incoming data segments in the reorder
//! buffer, promotion into the receive queue, and delivery of whole messages.

use vstd::prelude::*;
use crate::wire::Segment;
use crate::kcp::{Kcp, KcpError, sn_increasing, all_well_formed, IKCP_ASK_TELL};

verus! {

/// Number of segments at the head of `q` that continue the sequence from
/// `nxt` without a gap, taking at most `room` of them.
pub open spec fn ready_count(q: Seq<Segment>, nxt: int, room: int) -> nat
    decreases q.len(),
{
    if room > 0 && q.len() > 0 && q[0].sn == nxt {
        1 + ready_count(q.drop_first(), nxt + 1, room - 1)
    } else {
        0
    }
}

pub proof fn lemma_ready_count(q: Seq<Segment>, nxt: int, room: int)
    ensures
        ready_count(q, nxt, room) <= q.len(),
        room >= 0 ==> ready_count(q, nxt, room) <= room,
        room < 0 ==> ready_count(q, nxt, room) == 0,
        forall|i: int| 0 <= i < ready_count(q, nxt, room) ==> (#[trigger] q[i]).sn == nxt + i,
    decreases q.len(),
{
    if room > 0 && q.len() > 0 && q[0].sn == nxt {
        lemma_ready_count(q.drop_first(), nxt + 1, room - 1);
        assert forall|i: int| 0 <= i < ready_count(q, nxt, room) implies (#[trigger] q[i]).sn
            == nxt + i by {
            if i > 0 {
                assert(q[i] == q.drop_first()[i - 1]);
            }
        }
    }
}

/// The reorder buffer holds sequence numbers in `[nxt, u32::MAX)`, strictly
/// increasing; the queue holds ones below `nxt`, strictly increasing.
pub open spec fn receive_ordered(buf: Seq<Segment>, queue: Seq<Segment>, nxt: u32) -> bool {
    &&& forall|i: int| 0 <= i < buf.len() ==> nxt <= (#[trigger] buf[i]).sn < u32::MAX
    &&& sn_increasing(buf)
    &&& forall|i: int| 0 <= i < queue.len() ==> (#[trigger] queue[i]).sn < nxt
    &&& sn_increasing(queue)
    &&& all_well_formed(buf)
    &&& all_well_formed(queue)
}

pub open spec fn receive_in_window(buf: Seq<Segment>, queue: Seq<Segment>, nxt: u32, wnd: u32) -> bool {
    &&& forall|i: int| 0 <= i < buf.len() ==> (#[trigger] buf[i]).sn < nxt + wnd
    &&& queue.len() <= wnd
}

/// `q1` is `q0` with segments appended, each numbered `nxt` or above.
pub open spec fn queue_extended(q0: Seq<Segment>, q1: Seq<Segment>, nxt: u32) -> bool {
    &&& q1.len() >= q0.len()
    &&& q1.take(q0.len() as int) == q0
    &&& forall|i: int| q0.len() <= i < q1.len() ==> (#[trigger] q1[i]).sn >= nxt
}

/// Nothing more can be promoted: the reorder buffer is empty, its head is
/// not the next expected segment, or the queue holds `wnd` segments.
pub open spec fn fully_promoted(buf: Seq<Segment>, queue: Seq<Segment>, nxt: u32, wnd: u32) -> bool {
    buf.len() == 0 || buf[0].sn != nxt || queue.len() >= wnd
}

/// Moves the run of consecutive segments at the head of the reorder buffer
/// into the receive queue, while the queue has fewer than `rcv_wnd` entries.
fn move_ready(rcv_buf: &mut Vec<Segment>, rcv_queue: &mut Vec<Segment>, rcv_nxt: &mut u32, rcv_wnd: u32)
    requires
        receive_ordered(old(rcv_buf)@, old(rcv_queue)@, *old(rcv_nxt)),
    ensures
        ({
            let m = ready_count(old(rcv_buf)@, *old(rcv_nxt) as int, rcv_wnd - old(rcv_queue)@.len());
            &&& final(rcv_queue)@ == old(rcv_queue)@ + old(rcv_buf)@.take(m as int)
            &&& final(rcv_buf)@ == old(rcv_buf)@.skip(m as int)
            &&& *final(rcv_nxt) == *old(rcv_nxt) + m
        }),
        receive_ordered(final(rcv_buf)@, final(rcv_queue)@, *final(rcv_nxt)),
        receive_in_window(old(rcv_buf)@, old(rcv_queue)@, *old(rcv_nxt), rcv_wnd)
            ==> receive_in_window(final(rcv_buf)@, final(rcv_queue)@, *final(rcv_nxt), rcv_wnd),
        queue_extended(old(rcv_queue)@, final(rcv_queue)@, *old(rcv_nxt)),
        fully_promoted(final(rcv_buf)@, final(rcv_queue)@, *final(rcv_nxt), rcv_wnd),
{
    let ghost b0 = rcv_buf@;
    let ghost q0 = rcv_queue@;
    let ghost n0 = *rcv_nxt as int;
    let ghost room: int = rcv_wnd as int - q0.len() as int;
    let mut index: usize = 0;
    let mut nxt: u32 = *rcv_nxt;
    let mut nq: usize = rcv_queue.len();
    assert(b0.skip(0) =~= b0);
    while index < rcv_buf.len() && rcv_buf[index].sn == nxt && nq < rcv_wnd as usize
        invariant
            rcv_buf@ == b0,
            rcv_queue@ == q0,
            *rcv_nxt == n0,
            room == rcv_wnd - q0.len(),
            receive_ordered(b0, q0, n0 as u32),
            index <= b0.len(),
            nxt == n0 + index,
            nq == q0.len() + index,
            ready_count(b0, n0, room) == index + ready_count(b0.skip(index as int), nxt as int, room - index),
        decreases b0.len() - index,
    {
        proof {
            let s = b0.skip(index as int);
            assert(s[0] == b0[index as int]);
            assert(s.drop_first() =~= b0.skip(index + 1));
            assert(room - index > 0);
            assert(ready_count(s, nxt as int, room - index) == 1 + ready_count(s.drop_first(),
                nxt + 1, room - index - 1));
        }
        nxt = nxt + 1;
        nq = nq + 1;
        index = index + 1;
    }
    proof {
        let s = b0.skip(index as int);
        if index < b0.len() {
            assert(s[0] == b0[index as int]);
        }
        assert(ready_count(s, nxt as int, room - index) == 0);
        lemma_ready_count(b0, n0, room);
    }
    let rest = rcv_buf.split_off(index);
    rcv_queue.append(rcv_buf);
    *rcv_buf = rest;
    *rcv_nxt = nxt;
    proof {
        let m = index as int;
        let q1 = rcv_queue@;
        let b1 = rcv_buf@;
        assert(q1 =~= q0 + b0.take(m));
        assert(b1 =~= b0.skip(m));
        assert forall|i: int| 0 <= i < b1.len() implies nxt <= (#[trigger] b1[i]).sn by {
            assert(b1[i] == b0[i + m]);
            if m > 0 {
                assert(b0[m - 1].sn == n0 + m - 1);
                assert(b0[m - 1].sn < b0[i + m].sn);
            }
        }
        assert forall|i: int| 0 <= i < q1.len() implies (#[trigger] q1[i]).sn < nxt by {
            if i >= q0.len() {
                assert(q1[i] == b0[i - q0.len()]);
            }
        }
        assert forall|i: int, j: int| 0 <= i < j < q1.len() implies #[trigger] q1[i].sn
            < #[trigger] q1[j].sn by {
            if j >= q0.len() {
                assert(q1[j] == b0[j - q0.len()]);
                if i >= q0.len() {
                    assert(q1[i] == b0[i - q0.len()]);
                }
            }
        }
        assert forall|i: int, j: int| 0 <= i < j < b1.len() implies #[trigger] b1[i].sn
            < #[trigger] b1[j].sn by {
            assert(b1[i] == b0[i + m]);
            assert(b1[j] == b0[j + m]);
        }
        assert forall|i: int| 0 <= i < q1.len() implies (#[trigger] q1[i]).well_formed() by {
            if i >= q0.len() {
                assert(q1[i] == b0[i - q0.len()]);
            }
        }
        assert forall|i: int| 0 <= i < b1.len() implies (#[trigger] b1[i]).well_formed() by {
            assert(b1[i] == b0[i + m]);
        }
        assert forall|i: int| q0.len() <= i < q1.len() implies (#[trigger] q1[i]).sn >= n0 by {
            assert(q1[i] == b0[i - q0.len()]);
        }
        assert(q1.take(q0.len() as int) =~= q0);
        if b1.len() > 0 {
            assert(b1[0] == b0[m]);
        }
        if receive_in_window(b0, q0, n0 as u32, rcv_wnd) {
            assert forall|i: int| 0 <= i < b1.len() implies (#[trigger] b1[i]).sn < nxt
                + rcv_wnd by {
                assert(b1[i] == b0[i + m]);
            }
        }
    }
}

/// Some segment of `q` carries sequence number `sn`.
pub open spec fn has_sn(q: Seq<Segment>, sn: u32) -> bool {
    exists|i: int| 0 <= i < q.len() && (#[trigger] q[i]).sn == sn
}

/// Where a segment numbered `sn` goes in the ordered buffer `q`: after
/// every entry with a smaller number.
pub open spec fn slot(q: Seq<Segment>, sn: u32) -> int
    decreases q.len(),
{
    if q.len() == 0 {
        0
    } else if q.last().sn < sn {
        q.len() as int
    } else {
        slot(q.drop_last(), sn)
    }
}

/// `sn` lies in the receive window that starts at `nxt`.
pub open spec fn in_receive_window(sn: u32, nxt: u32, wnd: u32) -> bool {
    nxt <= sn && sn < nxt + wnd && sn < u32::MAX
}

/// The reorder buffer after a segment inside the window arrives: a
/// duplicate is dropped, anything else is inserted in order.
pub open spec fn insert_data(buf: Seq<Segment>, seg: Segment) -> Seq<Segment> {
    if has_sn(buf, seg.sn) {
        buf
    } else {
        buf.insert(slot(buf, seg.sn), seg)
    }
}

proof fn lemma_slot_bounds(q: Seq<Segment>, sn: u32)
    ensures
        0 <= slot(q, sn) <= q.len(),
    decreases q.len(),
{
    if q.len() > 0 && !(q.last().sn < sn) {
        lemma_slot_bounds(q.drop_last(), sn);
    }
}

/// After a segment inside the window arrives, the buffer holds it and
/// everything it held before.
pub proof fn lemma_insert_data_holds(buf: Seq<Segment>, seg: Segment, x: u32)
    ensures
        has_sn(insert_data(buf, seg), seg.sn),
        has_sn(buf, x) ==> has_sn(insert_data(buf, seg), x),
{
    if !has_sn(buf, seg.sn) {
        let k = slot(buf, seg.sn);
        lemma_slot_bounds(buf, seg.sn);
        let b = buf.insert(k, seg);
        assert(b[k] == seg);
        if has_sn(buf, x) {
            let i = choose|i: int| 0 <= i < buf.len() && (#[trigger] buf[i]).sn == x;
            if i < k {
                assert(b[i] == buf[i]);
            } else {
                assert(b[i + 1] == buf[i]);
            }
        }
    }
}

/// The buffer after a segment arrives holds only what it held and that
/// segment.
pub proof fn lemma_insert_data_from(buf: Seq<Segment>, seg: Segment, x: Segment)
    requires
        insert_data(buf, seg).contains(x),
    ensures
        buf.contains(x) || x == seg,
{
    if !has_sn(buf, seg.sn) {
        let k = slot(buf, seg.sn);
        lemma_slot_bounds(buf, seg.sn);
        let b = buf.insert(k, seg);
        let i = choose|i: int| 0 <= i < b.len() && b[i] == x;
        if i < k {
            assert(b[i] == buf[i]);
        } else if i > k {
            assert(b[i] == buf[i - 1]);
        }
    }
}

/// A segment held in `b` is still held after the ready run is promoted,
/// or its number is below the new `rcv_nxt`.
pub proof fn lemma_still_held(b: Seq<Segment>, nxt: int, room: int, x: u32)
    requires
        has_sn(b, x),
    ensures
        has_sn(b.skip(ready_count(b, nxt, room) as int), x) || x < nxt + ready_count(b, nxt, room),
{
    let m = ready_count(b, nxt, room) as int;
    lemma_ready_count(b, nxt, room);
    let i = choose|i: int| 0 <= i < b.len() && (#[trigger] b[i]).sn == x;
    if i >= m {
        assert(b.skip(m)[i - m] == b[i]);
    }
}

/// Places an incoming data segment in the reorder buffer, then promotes
/// the ready run into the receive queue. A segment outside the receive
/// window changes nothing.
#[verifier::rlimit(50)]
pub(crate) fn parse_data(
    rcv_buf: &mut Vec<Segment>,
    rcv_queue: &mut Vec<Segment>,
    rcv_nxt: &mut u32,
    rcv_wnd: u32,
    newseg: Segment,
)
    requires
        receive_ordered(old(rcv_buf)@, old(rcv_queue)@, *old(rcv_nxt)),
        newseg.well_formed(),
    ensures
        !in_receive_window(newseg.sn, *old(rcv_nxt), rcv_wnd) ==> final(rcv_buf)@ == old(rcv_buf)@ && final(rcv_queue)@ == old(rcv_queue)@ && *final(rcv_nxt) == *old(rcv_nxt),
        in_receive_window(newseg.sn, *old(rcv_nxt), rcv_wnd) ==> ({
            let b = insert_data(old(rcv_buf)@, newseg);
            let m = ready_count(b, *old(rcv_nxt) as int, rcv_wnd - old(rcv_queue)@.len());
            &&& final(rcv_queue)@ == old(rcv_queue)@ + b.take(m as int)
            &&& final(rcv_buf)@ == b.skip(m as int)
            &&& *final(rcv_nxt) == *old(rcv_nxt) + m
        }),
        receive_ordered(final(rcv_buf)@, final(rcv_queue)@, *final(rcv_nxt)),
        receive_in_window(old(rcv_buf)@, old(rcv_queue)@, *old(rcv_nxt), rcv_wnd)
            ==> receive_in_window(final(rcv_buf)@, final(rcv_queue)@, *final(rcv_nxt), rcv_wnd),
        queue_extended(old(rcv_queue)@, final(rcv_queue)@, *old(rcv_nxt)),
        in_receive_window(newseg.sn, *old(rcv_nxt), rcv_wnd) ==> fully_promoted(
            final(rcv_buf)@,
            final(rcv_queue)@,
            *final(rcv_nxt),
            rcv_wnd,
        ),
{
    let sn = newseg.sn;
    assert(rcv_queue@.take(rcv_queue@.len() as int) =~= rcv_queue@);
    if sn < *rcv_nxt || sn as u64 >= *rcv_nxt as u64 + rcv_wnd as u64 || sn == u32::MAX {
        return;
    }
    let ghost b0 = rcv_buf@;
    let len = rcv_buf.len();
    let mut index: usize = len;
    let mut repeat = false;
    let mut stop = false;
    assert(b0.take(len as int) =~= b0);
    while index > 0 && !stop
        invariant
            rcv_buf@ == b0,
            len == b0.len(),
            index <= len,
            forall|j: int| index <= j < len ==> (#[trigger] b0[j]).sn > sn,
            stop ==> index > 0 && b0[index - 1].sn <= sn,
            repeat <==> (stop && b0[index - 1].sn == sn),
            slot(b0, sn) == slot(b0.take(index as int), sn),
        decreases index + (if stop { 0int } else { 1int }),
    {
        let s = rcv_buf[index - 1].sn;
        if s == sn {
            repeat = true;
            stop = true;
        } else if s < sn {
            stop = true;
        } else {
            proof {
                let t = b0.take(index as int);
                assert(t.drop_last() =~= b0.take(index - 1));
            }
            index = index - 1;
        }
    }
    proof {
        assert(receive_ordered(b0, rcv_queue@, *rcv_nxt));
        if repeat {
            assert(b0[index - 1].sn == sn);
            assert(has_sn(b0, sn));
        } else {
            let t = b0.take(index as int);
            if index > 0 {
                assert(t.last() == b0[index - 1]);
            }
            assert(slot(t, sn) == index);
            assert forall|j: int| 0 <= j < b0.len() implies (#[trigger] b0[j]).sn != sn by {
                if j < index - 1 {
                    assert(b0[j].sn < b0[index - 1].sn);
                }
            }
        }
    }
    if !repeat {
        rcv_buf.insert(index, newseg);
        proof {
            let b1 = rcv_buf@;
            assert(b1 == insert_data(b0, newseg));
            assert forall|j: int| 0 <= j < b1.len() implies *rcv_nxt <= (#[trigger] b1[j]).sn
                < u32::MAX && b1[j].well_formed() && b1[j].sn < *rcv_nxt + rcv_wnd
                || !receive_in_window(b0, rcv_queue@, *rcv_nxt, rcv_wnd) by {
                if j < index {
                    assert(b1[j] == b0[j]);
                } else if j > index {
                    assert(b1[j] == b0[j - 1]);
                }
            }
            assert forall|i: int, j: int| 0 <= i < j < b1.len() implies #[trigger] b1[i].sn
                < #[trigger] b1[j].sn by {
                if i < index {
                    assert(b1[i] == b0[i]);
                    if index > 0 {
                        assert(b0[i].sn <= b0[index - 1].sn);
                    }
                } else if i > index {
                    assert(b1[i] == b0[i - 1]);
                }
                if j < index {
                    assert(b1[j] == b0[j]);
                } else if j > index {
                    assert(b1[j] == b0[j - 1]);
                }
            }
        }
    }
    move_ready(rcv_buf, rcv_queue, rcv_nxt, rcv_wnd);
}

/// Number of segments that make up the first message of `q`: up to and
/// including the first one with `frg == 0`, or all of `q` if none has it.
pub open spec fn msg_count(q: Seq<Segment>) -> nat
    decreases q.len(),
{
    if q.len() == 0 {
        0
    } else if q[0].frg == 0 {
        1
    } else {
        1 + msg_count(q.drop_first())
    }
}

/// The payloads of `q`, concatenated in order.
pub open spec fn concat_data(q: Seq<Segment>) -> Seq<u8>
    decreases q.len(),
{
    if q.len() == 0 {
        Seq::empty()
    } else {
        concat_data(q.drop_last()) + q.last().data@
    }
}

/// The bytes of the first message of `q`.
pub open spec fn first_message(q: Seq<Segment>) -> Seq<u8> {
    concat_data(q.take(msg_count(q) as int))
}

/// Size of the first message of the receive queue, when all of it is there.
pub open spec fn peek_size(q: Seq<Segment>) -> Option<nat> {
    if q.len() == 0 {
        None
    } else if q[0].frg != 0 && q.len() < q[0].frg + 1 {
        None
    } else {
        Some(first_message(q).len())
    }
}

pub proof fn lemma_msg_count(q: Seq<Segment>)
    ensures
        msg_count(q) <= q.len(),
        q.len() > 0 ==> msg_count(q) >= 1,
        forall|j: int| 0 <= j < msg_count(q) - 1 ==> (#[trigger] q[j]).frg != 0,
        msg_count(q) > 0 && msg_count(q) < q.len() ==> q[msg_count(q) - 1].frg == 0,
    decreases q.len(),
{
    if q.len() > 0 && q[0].frg != 0 {
        lemma_msg_count(q.drop_first());
        assert forall|j: int| 0 <= j < msg_count(q) - 1 implies (#[trigger] q[j]).frg != 0 by {
            if j > 0 {
                assert(q[j] == q.drop_first()[j - 1]);
            }
        }
        if msg_count(q) < q.len() {
            assert(q[msg_count(q) - 1] == q.drop_first()[msg_count(q) - 2]);
        }
    }
}

pub proof fn lemma_concat_step(q: Seq<Segment>, i: int)
    requires
        0 <= i < q.len(),
    ensures
        concat_data(q.take(i + 1)) == concat_data(q.take(i)) + q[i].data@,
{
    let t = q.take(i + 1);
    assert(t.drop_last() =~= q.take(i));
    assert(t.last() == q[i]);
}

impl Kcp {
    /// Size of the next whole message in the receive queue; `Eagain` when
    /// the queue is empty or the message is not complete. A size beyond
    /// `usize::MAX` is reported as `usize::MAX`.
    pub fn ikcp_peeksize(&self) -> (r: Result<usize, KcpError>)
        requires
            self.wf(),
        ensures
            peek_size(self.rcv_queue@) is None ==> r == Err::<usize, KcpError>(KcpError::Eagain),
            peek_size(self.rcv_queue@) is Some ==> r == Ok::<usize, KcpError>(
                if peek_size(self.rcv_queue@).unwrap() > usize::MAX {
                    usize::MAX
                } else {
                    peek_size(self.rcv_queue@).unwrap() as usize
                },
            ),
    {
        let n = self.rcv_queue.len();
        if n == 0 {
            return Err(KcpError::Eagain);
        }
        let frg = self.rcv_queue[0].frg;
        if frg != 0 && n < frg as usize + 1 {
            return Err(KcpError::Eagain);
        }
        let ghost q = self.rcv_queue@;
        proof {
            lemma_msg_count(q);
        }
        let mut i: usize = 0;
        let mut total: usize = 0;
        let mut done = false;
        assert(q.take(0) =~= Seq::<Segment>::empty());
        while i < n && !done
            invariant
                q == self.rcv_queue@,
                n == q.len(),
                i <= msg_count(q),
                msg_count(q) <= n,
                forall|j: int| 0 <= j < msg_count(q) - 1 ==> (#[trigger] q[j]).frg != 0,
                msg_count(q) > 0 && msg_count(q) < q.len() ==> q[msg_count(q) - 1].frg == 0,
                done ==> i == msg_count(q),
                !done && i < n ==> i < msg_count(q),
                total == (if concat_data(q.take(i as int)).len() > usize::MAX {
                    usize::MAX as int
                } else {
                    concat_data(q.take(i as int)).len() as int
                }),
                all_well_formed(q),
            decreases n - i,
        {
            proof {
                lemma_concat_step(q, i as int);
            }
            let seg = &self.rcv_queue[i];
            total = total.saturating_add(seg.data.len());
            if seg.frg == 0 {
                done = true;
            }
            i = i + 1;
        }
        Ok(total)
    }

    /// Copies the next whole message into `buf` and removes it from the
    /// receive queue, then promotes ready segments from the reorder buffer.
    /// Fails with `Eagain` when no whole message is ready and with
    /// `OversizeRecv` when `buf` is too small (a message of `usize::MAX` bytes
    /// or more never fits); on failure nothing changes.
    #[verifier::rlimit(50)]
    pub fn ikcp_recv(&mut self, buf: &mut [u8]) -> (r: Result<usize, KcpError>)
        requires
            old(self).wf(),
        ensures
            final(self).wf(),
            old(self).in_window() ==> final(self).in_window(),
            old(self).fits_mss() ==> final(self).fits_mss(),
            final(self).snd_una == old(self).snd_una,
            final(self).rcv_nxt >= old(self).rcv_nxt,
            peek_size(old(self).rcv_queue@) is None ==> r == Err::<usize, KcpError>(
                KcpError::Eagain,
            ) && *final(self) == *old(self) && final(buf)@ == old(buf)@,
            peek_size(old(self).rcv_queue@) is Some && (peek_size(old(self).rcv_queue@).unwrap()
                > old(buf)@.len() || peek_size(old(self).rcv_queue@).unwrap() >= usize::MAX) ==> r == Err::<usize, KcpError>(KcpError::OversizeRecv)
                && *final(self) == *old(self) && final(buf)@ == old(buf)@,
            peek_size(old(self).rcv_queue@) is Some && peek_size(old(self).rcv_queue@).unwrap()
                <= old(buf)@.len() && peek_size(old(self).rcv_queue@).unwrap() < usize::MAX ==> ({
                let n = peek_size(old(self).rcv_queue@).unwrap();
                let q1 = old(self).rcv_queue@.skip(msg_count(old(self).rcv_queue@) as int);
                let m = ready_count(
                    old(self).rcv_buf@,
                    old(self).rcv_nxt as int,
                    old(self).rcv_wnd - q1.len(),
                );
                &&& r == Ok::<usize, KcpError>(n as usize)
                &&& final(buf)@ == first_message(old(self).rcv_queue@) + old(buf)@.skip(n as int)
                &&& final(self).rcv_queue@ == q1 + old(self).rcv_buf@.take(m as int)
                &&& final(self).rcv_buf@ == old(self).rcv_buf@.skip(m as int)
                &&& final(self).rcv_nxt == old(self).rcv_nxt + m
                &&& fully_promoted(final(self).rcv_buf@, final(self).rcv_queue@, final(self).rcv_nxt, final(self).rcv_wnd)
                &&& final(self).probe == (if old(self).rcv_queue@.len() >= old(self).rcv_wnd
                    && final(self).rcv_queue@.len() < old(self).rcv_wnd {
                    old(self).probe | IKCP_ASK_TELL
                } else {
                    old(self).probe
                })
                &&& final(self).same_config(old(self))
                &&& final(self).same_send_side(old(self))
                &&& final(self).acklist@ == old(self).acklist@
                &&& final(self).outbox@ == old(self).outbox@
            }),
    {
        let peeksize = match self.ikcp_peeksize() {
            Ok(x) => x,
            Err(e) => return Err(e),
        };
        if peeksize == usize::MAX || peeksize > buf.len() {
            return Err(KcpError::OversizeRecv);
        }
        let ghost q = self.rcv_queue@;
        let ghost b0 = buf@;
        let ghost k = msg_count(q);
        let recover = self.rcv_queue.len() >= self.rcv_wnd as usize;
        proof {
            lemma_msg_count(q);
        }
        let n = self.rcv_queue.len();
        let mut i: usize = 0;
        let mut pos: usize = 0;
        let mut done = false;
        assert(q.take(0) =~= Seq::<Segment>::empty());
        assert(b0.subrange(0, 0) =~= Seq::<u8>::empty());
        while i < n && !done
            invariant
                q == self.rcv_queue@,
                n == q.len(),
                k == msg_count(q),
                i <= k,
                k <= n,
                forall|j: int| 0 <= j < k - 1 ==> (#[trigger] q[j]).frg != 0,
                k > 0 && k < q.len() ==> q[k - 1].frg == 0,
                done ==> i == k,
                !done && i < n ==> i < k,
                concat_data(q.take(k as int)).len() == peeksize,
                peeksize <= b0.len(),
                b0.len() <= usize::MAX,
                pos == concat_data(q.take(i as int)).len(),
                pos <= peeksize,
                buf@.len() == b0.len(),
                buf@.subrange(0, pos as int) == concat_data(q.take(i as int)),
                buf@.skip(pos as int) == b0.skip(pos as int),
                all_well_formed(q),
            decreases n - i,
        {
            proof {
                lemma_concat_step(q, i as int);
                lemma_concat_prefix(q, i as int + 1, k as int);
            }
            let seg = &self.rcv_queue[i];
            let dlen = seg.data.len();
            let mut j: usize = 0;
            while j < dlen
                invariant
                    q == self.rcv_queue@,
                    0 <= i < n,
                    n == q.len(),
                    seg == q[i as int],
                    dlen == seg.data@.len(),
                    pos + dlen <= b0.len(),
                    b0.len() <= usize::MAX,
                    j <= dlen,
                    buf@.len() == b0.len(),
                    buf@.subrange(0, pos + j) == concat_data(q.take(i as int)) + seg.data@.take(
                        j as int,
                    ),
                    buf@.skip(pos + j) == b0.skip(pos + j),
                decreases dlen - j,
            {
                let ghost before = buf@;
                buf[pos + j] = seg.data[j];
                proof {
                    assert(buf@.subrange(0, pos + j + 1) =~= before.subrange(0, pos + j).push(
                        seg.data@[j as int],
                    ));
                    assert(seg.data@.take(j + 1) =~= seg.data@.take(j as int).push(
                        seg.data@[j as int],
                    ));
                    assert(buf@.skip(pos + j + 1) =~= before.skip(pos + j).skip(1));
                    assert(b0.skip(pos + j + 1) =~= b0.skip(pos + j).skip(1));
                }
                j = j + 1;
            }
            assert(seg.data@.take(dlen as int) =~= seg.data@);
            if seg.frg == 0 {
                done = true;
            }
            pos = pos + dlen;
            i = i + 1;
        }
        assert(buf@ =~= first_message(q) + b0.skip(peeksize as int)) by {
            assert(buf@ =~= buf@.subrange(0, pos as int) + buf@.skip(pos as int));
        }
        let rest = self.rcv_queue.split_off(i);
        self.rcv_queue = rest;
        proof {
            let q1 = self.rcv_queue@;
            assert(q1 =~= q.skip(k as int));
            assert forall|a: int, b: int| 0 <= a < b < q1.len() implies #[trigger] q1[a].sn
                < #[trigger] q1[b].sn by {
                assert(q1[a] == q[a + k]);
                assert(q1[b] == q[b + k]);
            }
            assert forall|a: int| 0 <= a < q1.len() implies (#[trigger] q1[a]).sn < self.rcv_nxt
                && q1[a].well_formed() by {
                assert(q1[a] == q[a + k]);
            }
        }
        move_ready(&mut self.rcv_buf, &mut self.rcv_queue, &mut self.rcv_nxt, self.rcv_wnd);
        if self.rcv_queue.len() < self.rcv_wnd as usize && recover {
            self.probe = self.probe | IKCP_ASK_TELL;
        }
        Ok(peeksize)
    }
}

pub proof fn lemma_concat_prefix(q: Seq<Segment>, i: int, k: int)
    requires
        0 <= i <= k <= q.len(),
    ensures
        concat_data(q.take(i)).len() <= concat_data(q.take(k)).len(),
    decreases k - i,
{
    if i < k {
        lemma_concat_step(q, k - 1);
        lemma_concat_prefix(q, i, k - 1);
    }
}

} // verus!
