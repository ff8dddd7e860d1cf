//! Application send: cutting a message into MSS-sized fragments on the send
//! queue, or topping up the last segment in stream mode.

use vstd::prelude::*;
use crate::wire::Segment;
use crate::kcp::{Kcp, KcpError, IKCP_MAX_FRAGMENTS, all_well_formed, all_fit};
use crate::receive::{concat_data, lemma_concat_step};

verus! {

/// Number of fragments that `len > 0` bytes take in pieces of `mss`.
pub open spec fn frag_count(len: nat, mss: nat) -> nat
    decreases len,
{
    if len <= mss || mss == 0 {
        1
    } else {
        1 + frag_count((len - mss) as nat, mss)
    }
}

proof fn lemma_frag_count(len: nat, mss: nat)
    requires
        len > 0,
        mss > 0,
    ensures
        frag_count(len, mss) == (len - 1) / (mss as int) + 1,
    decreases len,
{
    if len <= mss {
        assert((len - 1) / (mss as int) == 0) by (nonlinear_arith)
            requires
                0 < len <= mss,
        ;
    } else {
        lemma_frag_count((len - mss) as nat, mss);
        assert((len - 1) / (mss as int) == (len - mss - 1) / (mss as int) + 1)
            by (nonlinear_arith)
            requires
                len > mss,
                mss > 0,
        ;
    }
}

/// A new segment as `send` makes it: only the fragment index and the
/// payload are set.
pub open spec fn is_fresh(s: Segment) -> bool {
    &&& s.conv == 0 && s.cmd == 0 && s.wnd == 0 && s.ts == 0 && s.sn == 0 && s.una == 0
    &&& s.resendts == 0 && s.rto == 0 && s.fastack == 0 && s.xmit == 0
    &&& s.well_formed()
}

/// `new` is `bytes` cut into fragments of `mss` bytes (the last one may be
/// shorter), numbered down to 0, or all numbered 0 in stream mode.
pub open spec fn fragments_of(new: Seq<Segment>, bytes: Seq<u8>, mss: nat, stream: bool) -> bool {
    &&& new.len() == frag_count(bytes.len(), mss)
    &&& concat_data(new) == bytes
    &&& forall|i: int| 0 <= i < new.len() - 1 ==> (#[trigger] new[i]).data@.len() == mss
    &&& 0 < new.last().data@.len() <= mss
    &&& forall|i: int|
        0 <= i < new.len() ==> (#[trigger] new[i]).frg == (if stream {
            0
        } else {
            new.len() - 1 - i
        }) && is_fresh(new[i])
}

/// How many bytes of an `n`-byte write top up the last queued segment in
/// stream mode.
pub open spec fn stream_fill(k: &Kcp, n: nat) -> nat {
    if k.stream && k.snd_queue@.len() > 0 && k.snd_queue@.last().data@.len() < k.mss {
        let room = (k.mss - k.snd_queue@.last().data@.len()) as nat;
        if n < room { n } else { room }
    } else {
        0
    }
}

/// `q1` is `q` after the stream top-up of the last segment with the first
/// `fill` bytes of `msg`.
pub open spec fn topped_up(q1: Seq<Segment>, q: Seq<Segment>, msg: Seq<u8>, fill: nat) -> bool {
    if fill == 0 {
        q1 == q
    } else {
        let a = q1.last();
        let b = q.last();
        &&& q1.len() == q.len()
        &&& q1.drop_last() == q.drop_last()
        &&& a.data@ == b.data@ + msg.take(fill as int)
        &&& a.frg == 0 && a.len == a.data@.len()
        &&& a.conv == b.conv && a.cmd == b.cmd && a.wnd == b.wnd && a.ts == b.ts && a.sn == b.sn
        &&& a.una == b.una && a.resendts == b.resendts && a.rto == b.rto
        &&& a.fastack == b.fastack && a.xmit == b.xmit
    }
}

impl Kcp {
    /// Queues `buf` for sending. In message mode it becomes
    /// `ceil(len / mss)` fragments numbered down to 0; in stream mode it first
    /// tops up the last queued segment and its fragments are all numbered 0.
    /// Returns the number of bytes taken. Fails with `EmptySend` on an empty
    /// buffer (nothing changes) and with `TooManyFragments` when the rest
    /// after the top-up would need more than 255 fragments (the top-up stays).
    #[verifier::rlimit(50)]
    pub fn ikcp_send(&mut self, buf: &[u8]) -> (r: Result<usize, KcpError>)
        requires
            old(self).wf(),
        ensures
            final(self).wf(),
            old(self).in_window() ==> final(self).in_window(),
            old(self).fits_mss() ==> final(self).fits_mss(),
            final(self).same_but_send_queue(old(self)),
            final(self).outbox@ == old(self).outbox@,
            buf@.len() == 0 ==> r == Err::<usize, KcpError>(KcpError::EmptySend) && *final(self)
                == *old(self),
            buf@.len() > 0 ==> ({
                let n = buf@.len();
                let f = stream_fill(old(self), n);
                let k = old(self).snd_queue@.len();
                let c = frag_count((n - f) as nat, old(self).mss as nat);
                &&& topped_up(final(self).snd_queue@.take(k as int), old(self).snd_queue@, buf@, f)
                &&& f == n ==> r == Ok::<usize, KcpError>(n as usize) && final(self).snd_queue@.len() == k
                &&& f < n && c > 255 ==> r == Err::<usize, KcpError>(KcpError::TooManyFragments)
                    && final(self).snd_queue@.len() == k
                &&& f < n && c <= 255 ==> final(self).snd_queue@.len() == k + c
                &&& f < n && c <= 255 ==> r == Ok::<usize, KcpError>(n as usize) && fragments_of(
                    final(self).snd_queue@.skip(k as int),
                    buf@.skip(f as int),
                    old(self).mss as nat,
                    old(self).stream,
                )
            }),
    {
        let n = buf.len();
        if n == 0 {
            return Err(KcpError::EmptySend);
        }
        let ghost q0 = self.snd_queue@;
        let ghost s0 = *self;
        let ghost k = q0.len();
        let mss = self.mss as usize;
        let mut pos: usize = 0;
        if self.stream && self.snd_queue.len() > 0 {
            let li = self.snd_queue.len() - 1;
            let l = self.snd_queue[li].data.len();
            if l < mss {
                let room = mss - l;
                let take = if n < room { n } else { room };
                match self.snd_queue.pop_back() {
                    Some(seg) => {
                        let mut seg = seg;
                        let mut extra = vstd::slice::slice_to_vec(
                            vstd::slice::slice_subrange(buf, 0, take),
                        );
                        seg.data.append(&mut extra);
                        seg.len = seg.data.len() as u32;
                        seg.frg = 0;
                        self.snd_queue.push_back(seg);
                    },
                    None => {},
                }
                pos = take;
                proof {
                    let q1 = self.snd_queue@;
                    assert(q1.drop_last() =~= q0.drop_last());
                    assert(q1.take(k as int) =~= q1);
                    assert(buf@.take(take as int) =~= buf@.subrange(0, take as int));
                    assert forall|i: int| 0 <= i < q1.len() implies (#[trigger] q1[i]).well_formed()
                        && (all_fit(q0, s0.mss) ==> q1[i].data@.len() <= s0.mss) by {
                        if i < q1.len() - 1 {
                            assert(q1[i] == q1.drop_last()[i]);
                            assert(q0[i] == q0.drop_last()[i]);
                        }
                    }
                }
                if pos == n {
                    return Ok(n);
                }
            }
        }
        let ghost f = pos as nat;
        let ghost q1 = self.snd_queue@;
        let ghost s1 = *self;
        let rem0 = n - pos;
        assert(f == stream_fill(&s0, n as nat));
        assert(topped_up(q1, q0, buf@, f));
        assert(all_fit(q0, s0.mss) ==> all_fit(q1, s1.mss));
        assert(all_well_formed(q1));
        proof {
            assert(q1.take(k as int) =~= q1);
            lemma_frag_count(rem0 as nat, mss as nat);
        }
        let count = (rem0 - 1) / mss + 1;
        if count > IKCP_MAX_FRAGMENTS {
            return Err(KcpError::TooManyFragments);
        }
        let mut i: usize = 0;
        let mut rem = rem0;
        assert(self.snd_queue@.skip(k as int) =~= Seq::<Segment>::empty());
        assert(buf@.subrange(pos as int, pos as int) =~= Seq::<u8>::empty());
        while rem > 0
            invariant
                n == buf@.len(),
                pos + rem == n,
                f + rem0 == n,
                f <= pos,
                mss == s1.mss,
                mss > 0,
                count == frag_count(rem0 as nat, mss as nat),
                count <= 255,
                i <= count,
                rem > 0 ==> frag_count(rem as nat, mss as nat) == count - i,
                rem == 0 ==> i == count,
                self.same_but_send_queue(&s1),
                self.outbox@ == s1.outbox@,
                self.buffer == s1.buffer,
                self.snd_queue@.len() == k + i,
                self.snd_queue@.take(k as int) == q1,
                q1.len() == k,
                s1.wf(),
                all_fit(q0, s0.mss) ==> all_fit(q1, s1.mss),
                all_well_formed(q1),
                s0.mss == s1.mss,
                concat_data(self.snd_queue@.skip(k as int)) == buf@.subrange(f as int, pos as int),
                forall|j: int|
                    0 <= j < i ==> #[trigger] self.snd_queue@[k + j].frg == (if s1.stream {
                        0
                    } else {
                        count - 1 - j
                    }) && is_fresh(self.snd_queue@[k + j]) && 0 < self.snd_queue@[k + j].data@.len()
                        <= mss,
                forall|j: int|
                    0 <= j < i && (j < i - 1 || rem > 0) ==> (#[trigger] self.snd_queue@[k
                        + j]).data@.len() == mss,
            decreases rem,
        {
            let size = if rem < mss { rem } else { mss };
            let data = vstd::slice::slice_to_vec(vstd::slice::slice_subrange(buf, pos, pos + size));
            let frg: u8 = if self.stream { 0 } else { (count - i - 1) as u8 };
            let seg = Segment {
                conv: 0,
                cmd: 0,
                frg: frg,
                wnd: 0,
                ts: 0,
                sn: 0,
                una: 0,
                len: size as u32,
                resendts: 0,
                rto: 0,
                fastack: 0,
                xmit: 0,
                data: data,
            };
            let ghost before = self.snd_queue@;
            self.snd_queue.push_back(seg);
            proof {
                let q = self.snd_queue@;
                assert(q.take(k as int) =~= before.take(k as int));
                let new = q.skip(k as int);
                assert(new.take(i as int) =~= before.skip(k as int));
                assert(new =~= new.take(i as int + 1));
                lemma_concat_step(new, i as int);
                assert(new[i as int] == seg);
                assert(buf@.subrange(f as int, pos + size) =~= buf@.subrange(f as int, pos as int)
                    + buf@.subrange(pos as int, pos + size));
                if rem > mss {
                    assert(frag_count(rem as nat, mss as nat) == 1 + frag_count((rem - mss) as nat, mss as nat));
                }
            }
            pos = pos + size;
            rem = rem - size;
            i = i + 1;
        }
        proof {
            let q = self.snd_queue@;
            let new = q.skip(k as int);
            assert(buf@.subrange(f as int, n as int) =~= buf@.skip(f as int));
            assert forall|j: int| 0 <= j < new.len() implies #[trigger] new[j] == q[k + j] by {}
            assert forall|j: int| 0 <= j < q.len() implies (#[trigger] q[j]).well_formed()
                && (all_fit(q0, s0.mss) ==> q[j].data@.len() <= s0.mss) by {
                if j < k {
                    assert(q[j] == q.take(k as int)[j]);
                    assert(q1[j].well_formed());
                } else {
                    let jj = j - k;
                    assert(q[k + jj].frg == (if s1.stream { 0 } else { count - 1 - jj }));
                    assert(is_fresh(q[k + jj]));
                    assert(q[k + jj].data@.len() <= mss);
                }
            }
        }
        proof {
            let q = self.snd_queue@;
            let new = q.skip(k as int);
            assert(all_well_formed(q));
            assert(new.len() == count);
            assert(concat_data(new) == buf@.skip(f as int));
            let lj: int = count - 1;
            assert(q[k + lj].frg == (if s1.stream { 0 } else { count - 1 - lj }));
            assert(new.last() == q[k + lj]);
            assert(0 < new.last().data@.len() <= mss);
            assert forall|j: int| 0 <= j < new.len() implies (#[trigger] new[j]).frg == (if s0.stream {
                0
            } else {
                new.len() - 1 - j
            }) && is_fresh(new[j]) by {
                assert(q[k + j].frg == (if s1.stream { 0 } else { count - 1 - j }));
            }
            assert forall|j: int| 0 <= j < new.len() - 1 implies (#[trigger] new[j]).data@.len() == mss by {
                assert(q[k + j].data@.len() == mss);
            }
            assert(fragments_of(new, buf@.skip(f as int), mss as nat, s0.stream));
        }
        Ok(n)
    }
}

} // verus!
