//! The protocol control block: its state, its invariant, creation and
//! configuration.

use vstd::prelude::*;
use bytes::BytesMut;
use std::collections::VecDeque;
use crate::wire::{Segment, segments_well_formed, IKCP_OVERHEAD, IKCP_CMD_PUSH};
use crate::staging::{staged, staging_with_capacity};

verus! {

/// Minimum retransmission timeout in nodelay mode.
pub const IKCP_RTO_NDL: u32 = 30;
/// Minimum retransmission timeout in normal mode.
pub const IKCP_RTO_MIN: u32 = 100;
/// Initial retransmission timeout.
pub const IKCP_RTO_DEF: u32 = 200;
/// Upper bound of the retransmission timeout.
pub const IKCP_RTO_MAX: u32 = 60000;
/// `probe` bit: send a window probe on the next flush.
pub const IKCP_ASK_SEND: u32 = 1;
/// `probe` bit: announce the local window on the next flush.
pub const IKCP_ASK_TELL: u32 = 2;
pub const IKCP_WND_SND: u32 = 32;
/// Default and least receive window; at least the largest fragment count.
pub const IKCP_WND_RCV: u32 = 128;
pub const IKCP_MTU_DEF: u32 = 1400;
pub const IKCP_MTU_MIN: u32 = 50;
pub const IKCP_INTERVAL: u32 = 100;
pub const IKCP_INTERVAL_MIN: u32 = 10;
pub const IKCP_INTERVAL_MAX: u32 = 5000;
pub const IKCP_THRESH_INIT: u32 = 2;
pub const IKCP_THRESH_MIN: u32 = 2;
/// First wait before probing a closed remote window.
pub const IKCP_PROBE_INIT: u32 = 7000;
/// Longest wait between window probes.
pub const IKCP_PROBE_LIMIT: u32 = 120000;
/// Transmissions of one segment after which the link counts as dead.
pub const IKCP_DEADLINK: u32 = 20;
/// Largest number of fragments of one message.
pub const IKCP_MAX_FRAGMENTS: usize = 255;

/// The failures that the public operations report.
#[derive(Clone, Copy, Debug, PartialEq, Eq, Structural)]
pub enum KcpError {
    /// No complete message is ready.
    Eagain,
    /// The caller's buffer is smaller than the next message.
    OversizeRecv,
    /// Nothing to send.
    EmptySend,
    /// The message would need more than 255 fragments.
    TooManyFragments,
    /// A header carries another conversation's identifier.
    ForeignConversation,
    /// A datagram is truncated, has an unknown command or a short payload.
    MalformedDatagram,
    /// The MTU asked for is below the least one.
    MtuTooSmall,
}

/// Sequence numbers strictly increase along `q`.
pub open spec fn sn_increasing(q: Seq<Segment>) -> bool {
    forall|i: int, j: int| 0 <= i < j < q.len() ==> #[trigger] q[i].sn < #[trigger] q[j].sn
}

/// Every segment of `q` has a length field that agrees with its payload.
pub open spec fn all_well_formed(q: Seq<Segment>) -> bool {
    forall|i: int| 0 <= i < q.len() ==> (#[trigger] q[i]).well_formed()
}

/// Every payload in `q` fits in one segment of `mss` bytes.
pub open spec fn all_fit(q: Seq<Segment>, mss: u32) -> bool {
    forall|i: int| 0 <= i < q.len() ==> (#[trigger] q[i]).data@.len() <= mss
}

/// The control block of one conversation.
pub struct Kcp {
    pub conv: u32,
    pub mtu: u32,
    pub mss: u32,
    /// First sequence number not yet acknowledged by the peer.
    pub snd_una: u32,
    /// Next sequence number to assign.
    pub snd_nxt: u32,
    /// Next sequence number expected from the peer.
    pub rcv_nxt: u32,
    pub ssthresh: u32,
    pub rx_rttval: u32,
    pub rx_srtt: u32,
    pub rx_rto: u32,
    pub rx_minrto: u32,
    pub snd_wnd: u32,
    pub rcv_wnd: u32,
    /// The peer's last announced free receive window.
    pub rmt_wnd: u32,
    pub cwnd: u32,
    /// Pending `IKCP_ASK_SEND` / `IKCP_ASK_TELL` bits.
    pub probe: u32,
    pub current: u32,
    pub interval: u32,
    pub ts_flush: u32,
    /// Count of retransmissions by timeout.
    pub xmit: u32,
    pub nodelay: bool,
    pub updated: bool,
    pub ts_probe: u32,
    pub probe_wait: u32,
    /// Transmissions of one segment after which the link counts as dead.
    pub dead_link: u32,
    /// Set once a segment reached `dead_link` transmissions.
    pub dead: bool,
    pub incr: u32,
    /// Messages waiting for the send window.
    pub snd_queue: VecDeque<Segment>,
    /// Received messages in order, ready for `ikcp_recv`.
    pub rcv_queue: Vec<Segment>,
    /// Segments sent and not yet acknowledged.
    pub snd_buf: Vec<Segment>,
    /// Received segments waiting for the ones before them.
    pub rcv_buf: Vec<Segment>,
    /// Pending acknowledgements `(sn, ts)`.
    pub acklist: Vec<(u32, u32)>,
    /// Transmit staging buffer, empty between calls.
    pub buffer: BytesMut,
    /// Fast-retransmit threshold; 0 turns fast retransmit off.
    pub fastresend: u32,
    pub nocwnd: bool,
    pub stream: bool,
    /// Datagrams produced by flushing, in order, not yet taken by the host.
    pub outbox: Vec<Vec<u8>>,
}

impl Kcp {
    /// The invariant that every operation keeps.
    pub open spec fn wf(&self) -> bool {
        &&& self.wf_state()
        &&& staged(self.buffer).len() == 0
        &&& forall|i: int|
            0 <= i < self.outbox@.len() ==> segments_well_formed((#[trigger] self.outbox@[i])@, self.conv)
    }

    /// The invariant on the protocol state, which also holds while a flush
    /// is staging bytes.
    pub open spec fn wf_state(&self) -> bool {
        &&& self.mtu >= IKCP_MTU_MIN
        &&& self.mss == self.mtu - IKCP_OVERHEAD
        &&& self.snd_una <= self.snd_nxt
        &&& forall|i: int|
            0 <= i < self.snd_buf@.len() ==> self.snd_una <= (#[trigger] self.snd_buf@[i]).sn
                < self.snd_nxt
        &&& sn_increasing(self.snd_buf@)
        &&& forall|i: int|
            0 <= i < self.snd_buf@.len() ==> (#[trigger] self.snd_buf@[i]).cmd == IKCP_CMD_PUSH
                && self.snd_buf@[i].conv == self.conv
        &&& self.snd_una == (if self.snd_buf@.len() == 0 {
            self.snd_nxt
        } else {
            self.snd_buf@[0].sn
        })
        &&& forall|i: int|
            0 <= i < self.rcv_buf@.len() ==> self.rcv_nxt <= (#[trigger] self.rcv_buf@[i]).sn
                < u32::MAX
        &&& sn_increasing(self.rcv_buf@)
        &&& forall|i: int|
            0 <= i < self.rcv_queue@.len() ==> (#[trigger] self.rcv_queue@[i]).sn < self.rcv_nxt
        &&& sn_increasing(self.rcv_queue@)
        &&& all_well_formed(self.snd_queue@)
        &&& all_well_formed(self.snd_buf@)
        &&& all_well_formed(self.rcv_buf@)
        &&& all_well_formed(self.rcv_queue@)
        &&& IKCP_RTO_NDL <= self.rx_rto <= IKCP_RTO_MAX
        &&& self.rx_minrto <= self.rx_rto
        &&& self.rx_minrto == (if self.nodelay {
            IKCP_RTO_NDL
        } else {
            IKCP_RTO_MIN
        })
        &&& IKCP_INTERVAL_MIN <= self.interval <= IKCP_INTERVAL_MAX
        &&& self.snd_wnd >= 1
        &&& self.rcv_wnd >= IKCP_WND_RCV
        &&& self.probe_wait <= IKCP_PROBE_LIMIT
    }

    /// The receive side lies within the receive window: the reorder buffer
    /// holds only sequence numbers below `rcv_nxt + rcv_wnd`, and the queue
    /// holds at most `rcv_wnd` segments. Shrinking the window by
    /// `ikcp_wndsize` may break this; every other operation keeps it.
    pub open spec fn in_window(&self) -> bool {
        &&& forall|i: int|
            0 <= i < self.rcv_buf@.len() ==> (#[trigger] self.rcv_buf@[i]).sn < self.rcv_nxt
                + self.rcv_wnd
        &&& self.rcv_queue@.len() <= self.rcv_wnd
    }

    /// Every queued or unacknowledged payload fits in one segment of the
    /// current MSS. Lowering the MTU may break this.
    pub open spec fn fits_mss(&self) -> bool {
        all_fit(self.snd_queue@, self.mss) && all_fit(self.snd_buf@, self.mss)
    }

    /// Creates the control block of conversation `conv`.
    pub fn ickp_create(conv: u32) -> (r: Kcp)
        ensures
            r.wf(),
            r.in_window(),
            r.fits_mss(),
            r.conv == conv,
            r.mtu == IKCP_MTU_DEF,
            r.snd_una == 0 && r.snd_nxt == 0 && r.rcv_nxt == 0,
            r.snd_wnd == IKCP_WND_SND && r.rcv_wnd == IKCP_WND_RCV && r.rmt_wnd == IKCP_WND_RCV,
            r.rx_rto == IKCP_RTO_DEF && r.rx_minrto == IKCP_RTO_MIN && r.rx_srtt == 0,
            r.cwnd == 0 && r.ssthresh == IKCP_THRESH_INIT && r.probe == 0,
            r.interval == IKCP_INTERVAL && !r.updated && !r.dead,
            r.dead_link == IKCP_DEADLINK,
            r.fastresend == 0 && !r.nocwnd && !r.stream && !r.nodelay,
            r.snd_queue@.len() == 0 && r.snd_buf@.len() == 0,
            r.rcv_queue@.len() == 0 && r.rcv_buf@.len() == 0,
            r.acklist@.len() == 0 && r.outbox@.len() == 0,
    {
        Kcp {
            conv: conv,
            mtu: IKCP_MTU_DEF,
            mss: IKCP_MTU_DEF - IKCP_OVERHEAD,
            snd_una: 0,
            snd_nxt: 0,
            rcv_nxt: 0,
            ssthresh: IKCP_THRESH_INIT,
            rx_rttval: 0,
            rx_srtt: 0,
            rx_rto: IKCP_RTO_DEF,
            rx_minrto: IKCP_RTO_MIN,
            snd_wnd: IKCP_WND_SND,
            rcv_wnd: IKCP_WND_RCV,
            rmt_wnd: IKCP_WND_RCV,
            cwnd: 0,
            probe: 0,
            current: 0,
            interval: IKCP_INTERVAL,
            ts_flush: IKCP_INTERVAL,
            xmit: 0,
            nodelay: false,
            updated: false,
            ts_probe: 0,
            probe_wait: 0,
            dead_link: IKCP_DEADLINK,
            dead: false,
            incr: 0,
            snd_queue: VecDeque::new(),
            rcv_queue: Vec::new(),
            snd_buf: Vec::new(),
            rcv_buf: Vec::new(),
            acklist: Vec::new(),
            buffer: staging_with_capacity(((IKCP_MTU_DEF + IKCP_OVERHEAD) * 3) as usize),
            fastresend: 0,
            nocwnd: false,
            stream: false,
            outbox: Vec::new(),
        }
    }

    /// Hands over the datagrams produced so far, oldest first.
    pub fn take_output(&mut self) -> (r: Vec<Vec<u8>>)
        requires
            old(self).wf(),
        ensures
            final(self).wf(),
            r@ == old(self).outbox@,
            final(self).outbox@.len() == 0,
            final(self).same_protocol_state(old(self)),
    {
        self.outbox.split_off(0)
    }

    /// Everything but the outbox and the staging buffer is as in `other`.
    pub open spec fn same_protocol_state(&self, other: &Kcp) -> bool {
        self.same_but_send_queue(other) && self.snd_queue@ == other.snd_queue@
    }

    /// Everything but the send queue, the outbox and the staging buffer is
    /// as in `other`.
    pub open spec fn same_but_send_queue(&self, other: &Kcp) -> bool {
        &&& self.conv == other.conv && self.mtu == other.mtu && self.mss == other.mss
        &&& self.snd_una == other.snd_una && self.snd_nxt == other.snd_nxt
        &&& self.rcv_nxt == other.rcv_nxt && self.ssthresh == other.ssthresh
        &&& self.rx_rttval == other.rx_rttval && self.rx_srtt == other.rx_srtt
        &&& self.rx_rto == other.rx_rto && self.rx_minrto == other.rx_minrto
        &&& self.snd_wnd == other.snd_wnd && self.rcv_wnd == other.rcv_wnd
        &&& self.rmt_wnd == other.rmt_wnd && self.cwnd == other.cwnd && self.probe == other.probe
        &&& self.current == other.current && self.interval == other.interval
        &&& self.ts_flush == other.ts_flush && self.xmit == other.xmit
        &&& self.nodelay == other.nodelay && self.updated == other.updated
        &&& self.ts_probe == other.ts_probe && self.probe_wait == other.probe_wait
        &&& self.dead_link == other.dead_link && self.dead == other.dead
        &&& self.incr == other.incr
        &&& self.rcv_queue@ == other.rcv_queue@
        &&& self.snd_buf@ == other.snd_buf@ && self.rcv_buf@ == other.rcv_buf@
        &&& self.acklist@ == other.acklist@
        &&& self.fastresend == other.fastresend && self.nocwnd == other.nocwnd
        &&& self.stream == other.stream
    }

    /// The configuration is as in `other`.
    pub open spec fn same_config(&self, other: &Kcp) -> bool {
        &&& self.conv == other.conv && self.mtu == other.mtu && self.mss == other.mss
        &&& self.rx_minrto == other.rx_minrto && self.snd_wnd == other.snd_wnd
        &&& self.rcv_wnd == other.rcv_wnd && self.interval == other.interval
        &&& self.nodelay == other.nodelay && self.dead_link == other.dead_link
        &&& self.fastresend == other.fastresend && self.nocwnd == other.nocwnd
        &&& self.stream == other.stream
    }

    /// The sending state, the estimator and the timers are as in `other`.
    pub open spec fn same_send_side(&self, other: &Kcp) -> bool {
        &&& self.snd_una == other.snd_una && self.snd_nxt == other.snd_nxt
        &&& self.ssthresh == other.ssthresh && self.cwnd == other.cwnd && self.incr == other.incr
        &&& self.rx_rttval == other.rx_rttval && self.rx_srtt == other.rx_srtt
        &&& self.rx_rto == other.rx_rto && self.rmt_wnd == other.rmt_wnd
        &&& self.xmit == other.xmit && self.dead == other.dead
        &&& self.ts_probe == other.ts_probe && self.probe_wait == other.probe_wait
        &&& self.current == other.current && self.ts_flush == other.ts_flush
        &&& self.updated == other.updated
        &&& self.snd_queue@ == other.snd_queue@ && self.snd_buf@ == other.snd_buf@
    }

    /// The receive side is as in `other`.
    pub open spec fn same_receive_side(&self, other: &Kcp) -> bool {
        &&& self.rcv_nxt == other.rcv_nxt
        &&& self.rcv_queue@ == other.rcv_queue@
        &&& self.rcv_buf@ == other.rcv_buf@
    }

    /// The window usable for sending: the send window and the remote window,
    /// and the congestion window unless congestion control is off.
    pub open spec fn effective_window(&self) -> u32 {
        let w = if self.snd_wnd < self.rmt_wnd { self.snd_wnd } else { self.rmt_wnd };
        if !self.nocwnd && self.cwnd < w { self.cwnd } else { w }
    }

    /// Sets the MTU; fails with `MtuTooSmall` below 50 bytes.
    pub fn ikcp_setmtu(&mut self, mtu: u32) -> (r: Result<(), KcpError>)
        requires
            old(self).wf(),
        ensures
            final(self).wf(),
            old(self).in_window() ==> final(self).in_window(),
            mtu < IKCP_MTU_MIN ==> r == Err::<(), KcpError>(KcpError::MtuTooSmall) && *final(self) == *old(self),
            mtu >= IKCP_MTU_MIN ==> r is Ok && *final(self) == (Kcp {
                mtu: mtu,
                mss: (mtu - IKCP_OVERHEAD) as u32,
                ..*old(self)
            }),
            mtu >= IKCP_MTU_MIN ==> final(self).snd_queue@ == old(self).snd_queue@
                && final(self).snd_buf@ == old(self).snd_buf@,
            mtu >= old(self).mtu && old(self).fits_mss() ==> final(self).fits_mss(),
            final(self).snd_una == old(self).snd_una && final(self).rcv_nxt == old(self).rcv_nxt,
    {
        if mtu < IKCP_MTU_MIN {
            return Err(KcpError::MtuTooSmall);
        }
        self.mtu = mtu;
        self.mss = mtu - IKCP_OVERHEAD;
        Ok(())
    }

    /// Sets the flush interval, clamped to `[10, 5000]` ms.
    pub fn ikcp_interval(&mut self, interval: u32)
        requires
            old(self).wf(),
        ensures
            final(self).wf(),
            old(self).in_window() ==> final(self).in_window(),
            old(self).fits_mss() ==> final(self).fits_mss(),
            *final(self) == (Kcp { interval: clamp_interval(interval), ..*old(self) }),
    {
        self.interval = bounded_interval(interval);
    }

    /// Configures nodelay mode, the flush interval, the fast-retransmit
    /// threshold and whether congestion control is off.
    pub fn ikcp_nodelay(&mut self, nodelay: bool, interval: u32, resend: u32, nc: bool)
        requires
            old(self).wf(),
        ensures
            final(self).wf(),
            old(self).in_window() ==> final(self).in_window(),
            old(self).fits_mss() ==> final(self).fits_mss(),
            final(self).nodelay == nodelay && final(self).fastresend == resend && final(self).nocwnd == nc,
            final(self).rx_minrto == (if nodelay {
                IKCP_RTO_NDL
            } else {
                IKCP_RTO_MIN
            }),
            final(self).interval == clamp_interval(interval),
            final(self).rx_rto == (if old(self).rx_rto < final(self).rx_minrto {
                final(self).rx_minrto
            } else {
                old(self).rx_rto
            }),
            *final(self) == (Kcp {
                nodelay: nodelay,
                fastresend: resend,
                nocwnd: nc,
                rx_minrto: final(self).rx_minrto,
                interval: final(self).interval,
                rx_rto: final(self).rx_rto,
                ..*old(self)
            }),
    {
        self.nodelay = nodelay;
        self.fastresend = resend;
        self.nocwnd = nc;
        self.rx_minrto = if nodelay {
            IKCP_RTO_NDL
        } else {
            IKCP_RTO_MIN
        };
        self.interval = bounded_interval(interval);
        if self.rx_rto < self.rx_minrto {
            self.rx_rto = self.rx_minrto;
        }
    }

    /// Sets the send window (when `sndwnd > 0`) and the receive window (when
    /// `rcvwnd > 0`, at least 128).
    pub fn ikcp_wndsize(&mut self, sndwnd: u32, rcvwnd: u32)
        requires
            old(self).wf(),
        ensures
            final(self).wf(),
            old(self).fits_mss() ==> final(self).fits_mss(),
            final(self).snd_wnd == (if sndwnd > 0 {
                sndwnd
            } else {
                old(self).snd_wnd
            }),
            final(self).rcv_wnd == (if rcvwnd == 0 {
                old(self).rcv_wnd
            } else if rcvwnd > IKCP_WND_RCV {
                rcvwnd
            } else {
                IKCP_WND_RCV
            }),
            old(self).in_window() && final(self).rcv_wnd >= old(self).rcv_wnd ==> final(self).in_window(),
            *final(self) == (Kcp { snd_wnd: final(self).snd_wnd, rcv_wnd: final(self).rcv_wnd, ..*old(self) }),
    {
        if sndwnd > 0 {
            self.snd_wnd = sndwnd;
        }
        if rcvwnd > 0 {
            self.rcv_wnd = if rcvwnd > IKCP_WND_RCV {
                rcvwnd
            } else {
                IKCP_WND_RCV
            };
        }
    }

    /// Number of segments not yet acknowledged: unsent plus in flight.
    pub fn ikcp_waitsnd(&self) -> (r: usize)
        ensures
            r == (if self.snd_buf@.len() + self.snd_queue@.len() > usize::MAX {
                usize::MAX as int
            } else {
                self.snd_buf@.len() + self.snd_queue@.len() as int
            }),
    {
        self.snd_buf.len().saturating_add(self.snd_queue.len())
    }

    /// Free receive-window slots, as announced in the 16-bit `wnd` field.
    pub open spec fn spec_wnd_unused(&self) -> u16 {
        if self.rcv_queue@.len() >= self.rcv_wnd {
            0
        } else if self.rcv_wnd - self.rcv_queue@.len() > u16::MAX {
            u16::MAX
        } else {
            (self.rcv_wnd - self.rcv_queue@.len()) as u16
        }
    }

    pub fn ikcp_wnd_unused(&self) -> (r: u16)
        ensures
            r == self.spec_wnd_unused(),
    {
        let n = self.rcv_queue.len();
        if n >= self.rcv_wnd as usize {
            0
        } else if self.rcv_wnd as usize - n > u16::MAX as usize {
            u16::MAX
        } else {
            (self.rcv_wnd as usize - n) as u16
        }
    }
}

pub open spec fn clamp_interval(i: u32) -> u32 {
    if i > IKCP_INTERVAL_MAX {
        IKCP_INTERVAL_MAX
    } else if i < IKCP_INTERVAL_MIN {
        IKCP_INTERVAL_MIN
    } else {
        i
    }
}

fn bounded_interval(i: u32) -> (r: u32)
    ensures
        r == clamp_interval(i),
{
    if i > IKCP_INTERVAL_MAX {
        IKCP_INTERVAL_MAX
    } else if i < IKCP_INTERVAL_MIN {
        IKCP_INTERVAL_MIN
    } else {
        i
    }
}

} // verus!
