//! Acknowledgement bookkeeping on the send buffer: cumulative retirement by
//! `una`, selective retirement by `sn`, and fast-retransmit counting.

use vstd::prelude::*;
use crate::wire::{Segment, IKCP_CMD_PUSH};
use crate::kcp::{sn_increasing, all_well_formed, all_fit};
use crate::receive::has_sn;

verus! {

/// `q` without its leading segments numbered below `una`.
pub open spec fn retire_below(q: Seq<Segment>, una: u32) -> Seq<Segment>
    decreases q.len(),
{
    if q.len() > 0 && q[0].sn < una {
        retire_below(q.drop_first(), una)
    } else {
        q
    }
}

/// `q` without the segment numbered `sn`, if there is one.
pub open spec fn remove_sn(q: Seq<Segment>, sn: u32) -> Seq<Segment> {
    if has_sn(q, sn) {
        q.remove(choose|i: int| 0 <= i < q.len() && (#[trigger] q[i]).sn == sn)
    } else {
        q
    }
}

/// `s` with its fast-ack counter raised by one, saturating.
pub open spec fn bump_fastack(s: Segment) -> Segment {
    Segment {
        fastack: if s.fastack == u32::MAX {
            u32::MAX
        } else {
            (s.fastack + 1) as u32
        },
        ..s
    }
}

/// `q` after an acknowledgement of `maxack`: every segment numbered below it
/// was skipped once more.
pub open spec fn count_skipped(q: Seq<Segment>, maxack: u32) -> Seq<Segment> {
    Seq::new(q.len(), |i: int| if q[i].sn < maxack { bump_fastack(q[i]) } else { q[i] })
}

/// The send buffer is ordered and its numbers lie in `[una, nxt)`.
pub open spec fn send_ordered(q: Seq<Segment>, una: u32, nxt: u32) -> bool {
    &&& forall|i: int| 0 <= i < q.len() ==> una <= (#[trigger] q[i]).sn < nxt
    &&& sn_increasing(q)
}

/// A suffix of an ordered buffer is ordered, and keeps well-formedness and
/// the MSS bound.
pub(crate) proof fn lemma_suffix(q: Seq<Segment>, k: int, una: u32, nxt: u32, mss: u32, conv: u32)
    requires
        0 <= k <= q.len(),
        send_ordered(q, una, nxt),
    ensures
        send_ordered(q.skip(k), una, nxt),
        all_well_formed(q) ==> all_well_formed(q.skip(k)),
        all_fit(q, mss) ==> all_fit(q.skip(k), mss),
        (forall|i: int| 0 <= i < q.len() ==> (#[trigger] q[i]).cmd == IKCP_CMD_PUSH && q[i].conv == conv) ==> (forall|
            i: int,
        | 0 <= i < q.skip(k).len() ==> (#[trigger] q.skip(k)[i]).cmd == IKCP_CMD_PUSH && q.skip(k)[i].conv == conv),
{
    let s = q.skip(k);
    assert forall|i: int| 0 <= i < s.len() implies s[i] == q[i + k] by {}
    assert forall|i: int, j: int| 0 <= i < j < s.len() implies #[trigger] s[i].sn
        < #[trigger] s[j].sn by {
        assert(s[i] == q[i + k] && s[j] == q[j + k]);
    }
}

/// Drops the segments that `una` acknowledges cumulatively.
pub(crate) fn parse_una(snd_buf: &mut Vec<Segment>, una: u32)
    ensures
        final(snd_buf)@ == retire_below(old(snd_buf)@, una),
        final(snd_buf)@.len() <= old(snd_buf)@.len(),
        final(snd_buf)@ == old(snd_buf)@.skip(old(snd_buf)@.len() - final(snd_buf)@.len()),
{
    let ghost q = snd_buf@;
    let mut index: usize = 0;
    assert(q.skip(0) =~= q);
    while index < snd_buf.len() && snd_buf[index].sn < una
        invariant
            snd_buf@ == q,
            index <= q.len(),
            retire_below(q, una) == retire_below(q.skip(index as int), una),
        decreases q.len() - index,
    {
        proof {
            let s = q.skip(index as int);
            assert(s[0] == q[index as int]);
            assert(s.drop_first() =~= q.skip(index + 1));
        }
        index = index + 1;
    }
    proof {
        let s = q.skip(index as int);
        if index < q.len() {
            assert(s[0] == q[index as int]);
        }
    }
    if index > 0 {
        let rest = snd_buf.split_off(index);
        *snd_buf = rest;
    }
}

/// Drops the segment numbered `sn`, when it lies in `[snd_una, snd_nxt)`.
pub(crate) fn parse_ack(snd_buf: &mut Vec<Segment>, snd_una: u32, snd_nxt: u32, sn: u32)
    requires
        send_ordered(old(snd_buf)@, snd_una, snd_nxt),
    ensures
        final(snd_buf)@ == remove_sn(old(snd_buf)@, sn),
        send_ordered(final(snd_buf)@, snd_una, snd_nxt),
        forall|s: Segment| #[trigger] final(snd_buf)@.contains(s) ==> old(snd_buf)@.contains(s),
        final(snd_buf)@.len() == 0 ==> old(snd_buf)@.len() <= 1,
        final(snd_buf)@.len() > 0 ==> final(snd_buf)@[0].sn >= old(snd_buf)@[0].sn,
{
    let ghost q = snd_buf@;
    if sn < snd_una || sn >= snd_nxt {
        assert(!has_sn(q, sn));
        return;
    }
    let mut i: usize = 0;
    let mut found = false;
    let mut stop = false;
    while i < snd_buf.len() && !stop
        invariant
            snd_buf@ == q,
            i <= q.len(),
            forall|j: int| 0 <= j < i ==> (#[trigger] q[j]).sn < sn,
            stop ==> i < q.len() && q[i as int].sn >= sn,
            found <==> stop && q[i as int].sn == sn,
        decreases q.len() - i + (if stop { 0int } else { 1int }),
    {
        if snd_buf[i].sn == sn {
            found = true;
            stop = true;
        } else if snd_buf[i].sn > sn {
            stop = true;
        } else {
            i = i + 1;
        }
    }
    if found {
        proof {
            let c = choose|j: int| 0 <= j < q.len() && (#[trigger] q[j]).sn == sn;
            assert(q[i as int].sn == sn);
            if c != i {
                if c < i {
                    assert(q[c].sn < q[i as int].sn);
                } else {
                    assert(q[i as int].sn < q[c].sn);
                }
            }
        }
        snd_buf.remove(i);
        proof {
            let r = snd_buf@;
            assert forall|a: int, b: int| 0 <= a < b < r.len() implies #[trigger] r[a].sn
                < #[trigger] r[b].sn by {
                let a0 = if a < i { a } else { a + 1 };
                let b0 = if b < i { b } else { b + 1 };
                assert(r[a] == q[a0] && r[b] == q[b0]);
            }
            assert forall|a: int| 0 <= a < r.len() implies snd_una <= (#[trigger] r[a]).sn
                < snd_nxt by {
                let a0 = if a < i { a } else { a + 1 };
                assert(r[a] == q[a0]);
            }
            assert forall|s: Segment| #[trigger] r.contains(s) implies q.contains(s) by {
                let a = choose|a: int| 0 <= a < r.len() && r[a] == s;
                let a0 = if a < i { a } else { a + 1 };
                assert(r[a] == q[a0]);
            }
            if r.len() > 0 {
                let a0: int = if 0 < i { 0 } else { 1 };
                assert(r[0] == q[a0]);
            }
        }
    } else {
        proof {
            assert forall|j: int| 0 <= j < q.len() implies (#[trigger] q[j]).sn != sn by {
                if j >= i {
                    if j > i {
                        assert(q[i as int].sn < q[j].sn);
                    }
                }
            }
        }
    }
}

/// Counts one more skip for every segment numbered below `maxack`, when
/// `maxack` lies in `[snd_una, snd_nxt)`.
pub(crate) fn parse_fastack(snd_buf: &mut Vec<Segment>, snd_una: u32, snd_nxt: u32, maxack: u32)
    requires
        send_ordered(old(snd_buf)@, snd_una, snd_nxt),
    ensures
        final(snd_buf)@ == (if maxack < snd_una || maxack >= snd_nxt {
            old(snd_buf)@
        } else {
            count_skipped(old(snd_buf)@, maxack)
        }),
{
    if maxack < snd_una || maxack >= snd_nxt {
        return;
    }
    let ghost q = snd_buf@;
    let mut i: usize = 0;
    while i < snd_buf.len() && snd_buf[i].sn < maxack
        invariant
            snd_buf@.len() == q.len(),
            send_ordered(q, snd_una, snd_nxt),
            i <= q.len(),
            forall|j: int| 0 <= j < i ==> q[j].sn < maxack && #[trigger] snd_buf@[j] == bump_fastack(q[j]),
            forall|j: int| i <= j < q.len() ==> #[trigger] snd_buf@[j] == q[j],
        decreases q.len() - i,
    {
        let f = snd_buf[i].fastack;
        snd_buf[i].fastack = if f == u32::MAX {
            u32::MAX
        } else {
            f + 1
        };
        i = i + 1;
    }
    proof {
        assert forall|j: int| i <= j < q.len() implies !(q[j].sn < maxack) by {
            if j > i {
                assert(q[i as int].sn < q[j].sn);
            }
        }
        assert(snd_buf@ =~= count_skipped(q, maxack));
    }
}

pub proof fn lemma_retire_below(q: Seq<Segment>, una: u32)
    ensures
        retire_below(q, una).len() <= q.len(),
        retire_below(q, una) == q.skip(q.len() - retire_below(q, una).len()),
        retire_below(q, una).len() > 0 ==> retire_below(q, una)[0].sn >= una,
        forall|i: int|
            0 <= i < q.len() - retire_below(q, una).len() ==> (#[trigger] q[i]).sn < una,
    decreases q.len(),
{
    if q.len() > 0 && q[0].sn < una {
        lemma_retire_below(q.drop_first(), una);
        let r = retire_below(q, una);
        assert(r == q.drop_first().skip(q.drop_first().len() - r.len()));
        assert(q.drop_first().skip(q.drop_first().len() - r.len()) =~= q.skip(q.len() - r.len()));
        assert forall|i: int| 0 <= i < q.len() - r.len() implies (#[trigger] q[i]).sn < una by {
            if i > 0 {
                assert(q[i] == q.drop_first()[i - 1]);
            }
        }
    } else {
        assert(q.skip(0) =~= q);
    }
}

/// Removing by number takes out that number and keeps only what was there.
pub proof fn lemma_remove_sn(q: Seq<Segment>, sn: u32, x: u32)
    requires
        sn_increasing(q),
    ensures
        !has_sn(remove_sn(q, sn), sn),
        has_sn(remove_sn(q, sn), x) ==> has_sn(q, x),
        has_sn(q, x) && x != sn ==> has_sn(remove_sn(q, sn), x),
{
    if has_sn(q, sn) {
        let c = choose|i: int| 0 <= i < q.len() && (#[trigger] q[i]).sn == sn;
        let r = q.remove(c);
        assert forall|i: int| 0 <= i < r.len() implies (#[trigger] r[i]).sn != sn by {
            let i0 = if i < c { i } else { i + 1 };
            assert(r[i] == q[i0]);
            if i0 < c {
                assert(q[i0].sn < q[c].sn);
            } else {
                assert(q[c].sn < q[i0].sn);
            }
        }
        if has_sn(r, x) {
            let i = choose|i: int| 0 <= i < r.len() && (#[trigger] r[i]).sn == x;
            let i0 = if i < c { i } else { i + 1 };
            assert(r[i] == q[i0]);
        }
        if has_sn(q, x) && x != sn {
            let i = choose|i: int| 0 <= i < q.len() && (#[trigger] q[i]).sn == x;
            if i < c {
                assert(r[i] == q[i]);
            } else {
                assert(r[i - 1] == q[i]);
            }
        }
    }
}

} // verus!
