//! Properties that relate several operations, proved over the contracts of
//! the operations.

use vstd::prelude::*;
use crate::wire::{Segment, Header};
use crate::kcp::Kcp;
use crate::ack::{retire_below, remove_sn, send_ordered, lemma_retire_below};
use crate::receive::{has_sn, msg_count, concat_data, first_message, peek_size, queue_extended};
use crate::send::fragments_of;
use crate::input::retired_by;

verus! {

proof fn lemma_msg_count_at(q: Seq<Segment>, k: int)
    requires
        1 <= k <= q.len(),
        forall|j: int| 0 <= j < k - 1 ==> (#[trigger] q[j]).frg != 0,
        q[k - 1].frg == 0,
    ensures
        msg_count(q) == k,
    decreases k,
{
    if k > 1 {
        let r = q.drop_first();
        assert forall|j: int| 0 <= j < k - 2 implies (#[trigger] r[j]).frg != 0 by {
            assert(r[j] == q[j + 1]);
        }
        assert(r[k - 2] == q[k - 1]);
        assert(q[0].frg != 0);
        lemma_msg_count_at(r, k - 1);
    }
}

proof fn lemma_concat_same_data(a: Seq<Segment>, b: Seq<Segment>)
    requires
        a.len() == b.len(),
        forall|i: int| 0 <= i < a.len() ==> (#[trigger] a[i]).data@ == b[i].data@,
    ensures
        concat_data(a) == concat_data(b),
    decreases a.len(),
{
    if a.len() > 0 {
        let a1 = a.drop_last();
        let b1 = b.drop_last();
        assert forall|i: int| 0 <= i < a1.len() implies (#[trigger] a1[i]).data@ == b1[i].data@ by {
            assert(a1[i] == a[i] && b1[i] == b[i]);
        }
        lemma_concat_same_data(a1, b1);
        assert(a.last() == a[a.len() - 1]);
    }
}

/// Fragment reassembly: when the receive queue starts with the fragments
/// that one send of `msg` produced in message mode (same payloads, same
/// fragment numbers, in order), the next receive finds a whole message of
/// `msg.len()` bytes and delivers exactly `msg`.
pub proof fn lemma_fragment_reassembly(frags: Seq<Segment>, msg: Seq<u8>, mss: nat, q: Seq<Segment>)
    requires
        msg.len() > 0,
        mss > 0,
        fragments_of(frags, msg, mss, false),
        frags.len() <= q.len(),
        forall|i: int|
            0 <= i < frags.len() ==> (#[trigger] q[i]).data@ == frags[i].data@ && q[i].frg
                == frags[i].frg,
    ensures
        msg_count(q) == frags.len(),
        first_message(q) == msg,
        peek_size(q) == Some(msg.len()),
{
    let k = frags.len() as int;
    assert(k >= 1) by {
        assert(frags.len() == crate::send::frag_count(msg.len(), mss));
    }
    assert forall|j: int| 0 <= j < k - 1 implies (#[trigger] q[j]).frg != 0 by {
        assert(frags[j].frg == k - 1 - j);
    }
    assert(frags[k - 1].frg == 0);
    lemma_msg_count_at(q, k);
    let t = q.take(k);
    assert forall|i: int| 0 <= i < t.len() implies (#[trigger] t[i]).data@ == frags[i].data@ by {}
    lemma_concat_same_data(t, frags);
    assert(q[0].frg == frags[0].frg);
}

/// Codec round trip: the 24 bytes at the start of an encoded segment decode
/// to that segment's header; its payload and whatever follows come after.
pub proof fn lemma_segment_round_trip(s: Segment, rest: Seq<u8>, h: Header)
    requires
        s.well_formed(),
        h.wire() == (s.wire() + rest).subrange(0, 24),
    ensures
        h == s.header(),
        (s.wire() + rest).subrange(24, 24 + h.len) == s.data@,
        (s.wire() + rest).skip(24 + h.len) == rest,
{
    let d = s.wire() + rest;
    s.header().lemma_wire_len();
    assert(d.subrange(0, 24) =~= s.header().wire());
    h.lemma_wire_injective(s.header());
    assert(d.subrange(24, 24 + h.len) =~= s.data@);
    assert(d.skip(24 + h.len) =~= rest);
}

/// Idempotent acknowledgement, on the send buffer: retiring by `una` and
/// then by `sn` a second time leaves the buffer as the first time did. (The
/// RTT sample and the fast-ack counts that an ACK also feeds are counted
/// again on a second delivery.)
pub proof fn lemma_ack_retirement_idempotent(q: Seq<Segment>, lo: u32, nxt: u32, una: u32, sn: u32)
    requires
        send_ordered(q, lo, nxt),
    ensures
        ({
            let once = remove_sn(retire_below(q, una), sn);
            remove_sn(retire_below(once, una), sn) == once
        }),
{
    lemma_retire_below(q, una);
    let r = retire_below(q, una);
    let k = q.len() - r.len();
    crate::ack::lemma_suffix(q, k, lo, nxt, 0, 0);
    let once = remove_sn(r, sn);
    if has_sn(r, sn) {
        let c = choose|i: int| 0 <= i < r.len() && (#[trigger] r[i]).sn == sn;
        assert(once == r.remove(c));
        assert forall|a: int, b: int| 0 <= a < b < once.len() implies #[trigger] once[a].sn
            < #[trigger] once[b].sn by {
            let a0 = if a < c { a } else { a + 1 };
            let b0 = if b < c { b } else { b + 1 };
            assert(once[a] == r[a0] && once[b] == r[b0]);
        }
        assert forall|i: int| 0 <= i < once.len() implies (#[trigger] once[i]).sn != sn by {
            let i0 = if i < c { i } else { i + 1 };
            assert(once[i] == r[i0]);
            if i0 < c {
                assert(r[i0].sn < r[c].sn);
            } else {
                assert(r[c].sn < r[i0].sn);
            }
        }
        if once.len() > 0 {
            let i0: int = if 0 < c { 0 } else { 1 };
            assert(once[0] == r[i0]);
            if i0 > 0 {
                assert(r[0].sn < r[i0].sn);
            }
        }
    } else {
        assert forall|i: int| 0 <= i < once.len() implies (#[trigger] once[i]).sn != sn by {}
    }
    assert(retire_below(once, una) == once);
    assert(!has_sn(once, sn));
}

/// Idempotent acknowledgement, for a whole datagram: `ikcp_input` leaves
/// in the send buffer exactly the segments that the datagram's headers `hs`
/// do not retire, and grows the congestion window only when `snd_una`
/// advances. So when the same datagram is delivered a second time (taking
/// `k1` to `k2`), the send buffer holds the same segments, and `snd_una`
/// and the congestion window are as after the first delivery.
pub proof fn lemma_ack_datagram_idempotent(k0: Kcp, k1: Kcp, k2: Kcp, hs: Seq<Header>)
    requires
        k1.wf(),
        k2.wf(),
        forall|x: u32|
            #![trigger has_sn(k1.snd_buf@, x)]
            #![trigger has_sn(k0.snd_buf@, x)]
            has_sn(k1.snd_buf@, x) <==> has_sn(k0.snd_buf@, x) && !retired_by(hs, x),
        forall|x: u32|
            #![trigger has_sn(k2.snd_buf@, x)]
            #![trigger has_sn(k1.snd_buf@, x)]
            has_sn(k2.snd_buf@, x) <==> has_sn(k1.snd_buf@, x) && !retired_by(hs, x),
        k2.snd_nxt == k1.snd_nxt,
        k2.snd_una == k1.snd_una ==> k2.cwnd == k1.cwnd && k2.incr == k1.incr,
    ensures
        forall|x: u32| has_sn(k2.snd_buf@, x) <==> has_sn(k1.snd_buf@, x),
        k2.snd_una == k1.snd_una,
        k2.cwnd == k1.cwnd && k2.incr == k1.incr,
{
    let q1 = k1.snd_buf@;
    let q2 = k2.snd_buf@;
    assert forall|x: u32| has_sn(q2, x) <==> has_sn(q1, x) by {
        if has_sn(q1, x) {
            assert(has_sn(k1.snd_buf@, x));
        }
    }
    if q1.len() > 0 {
        assert(has_sn(q1, q1[0].sn));
        assert(has_sn(q2, q1[0].sn));
        let j = choose|j: int| 0 <= j < q2.len() && (#[trigger] q2[j]).sn == q1[0].sn;
        assert(q2.len() > 0);
        assert(has_sn(q2, q2[0].sn));
        let i = choose|i: int| 0 <= i < q1.len() && (#[trigger] q1[i]).sn == q2[0].sn;
        if i > 0 {
            assert(q1[0].sn < q1[i].sn);
        }
        if j > 0 {
            assert(q2[0].sn < q2[j].sn);
        }
        assert(q2[0].sn == q1[0].sn);
    } else {
        if q2.len() > 0 {
            assert(has_sn(q2, q2[0].sn));
            assert(has_sn(q1, q2[0].sn));
        }
    }
    assert(k2.snd_una == k1.snd_una);
}

/// Receive order: in every state the reorder buffer holds sequence numbers
/// from `rcv_nxt` on, strictly increasing (so each at most once), below
/// `rcv_nxt + rcv_wnd` while the window was never shrunk; and the receive
/// queue followed by the reorder buffer is strictly increasing as a whole.
pub proof fn lemma_receive_order(k: Kcp)
    requires
        k.wf(),
    ensures
        forall|i: int|
            0 <= i < k.rcv_buf@.len() ==> k.rcv_nxt <= (#[trigger] k.rcv_buf@[i]).sn,
        k.in_window() ==> forall|i: int|
            0 <= i < k.rcv_buf@.len() ==> (#[trigger] k.rcv_buf@[i]).sn < k.rcv_nxt + k.rcv_wnd,
        crate::kcp::sn_increasing(k.rcv_buf@),
        crate::kcp::sn_increasing(k.rcv_queue@ + k.rcv_buf@),
{
    let q = k.rcv_queue@;
    let b = k.rcv_buf@;
    let c = q + b;
    assert forall|i: int, j: int| 0 <= i < j < c.len() implies #[trigger] c[i].sn < #[trigger] c[j].sn by {
        if j < q.len() {
            assert(c[i] == q[i] && c[j] == q[j]);
        } else if i < q.len() {
            assert(c[i] == q[i] && c[j] == b[j - q.len()]);
        } else {
            assert(c[i] == b[i - q.len()] && c[j] == b[j - q.len()]);
        }
    }
}

/// Duplicate suppression: the segments that an input appends to the receive
/// queue are all numbered at or above the old `rcv_nxt`, and every segment
/// already delivered or queued is numbered below it; so a data segment whose
/// number was promoted before never reaches the application again.
pub proof fn lemma_duplicate_not_redelivered(before: Kcp, after: Kcp, sn: u32)
    requires
        before.wf(),
        queue_extended(before.rcv_queue@, after.rcv_queue@, before.rcv_nxt),
        sn < before.rcv_nxt,
    ensures
        forall|i: int|
            before.rcv_queue@.len() <= i < after.rcv_queue@.len() ==> (#[trigger] after.rcv_queue@[i]).sn
                != sn,
{
}

} // verus!
