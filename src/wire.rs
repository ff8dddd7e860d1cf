//! Constants of the protocol and the segment codec: a 24-byte header of
//! little-endian fields, followed by the payload.

use vstd::prelude::*;
use bytes::BytesMut;
use crate::staging::{staged, staging_put};

verus! {

/// Size of the segment header on the wire.
pub const IKCP_OVERHEAD: u32 = 24;
/// Data segment.
pub const IKCP_CMD_PUSH: u8 = 81;
/// Selective acknowledgement of one sequence number.
pub const IKCP_CMD_ACK: u8 = 82;
/// Probe of the remote window.
pub const IKCP_CMD_WASK: u8 = 83;
/// Announcement of the local window.
pub const IKCP_CMD_WINS: u8 = 84;

pub open spec fn is_command(cmd: u8) -> bool {
    cmd == IKCP_CMD_PUSH || cmd == IKCP_CMD_ACK || cmd == IKCP_CMD_WASK || cmd == IKCP_CMD_WINS
}

pub open spec fn le16(x: u16) -> Seq<u8> {
    seq![x as u8, (x >> 8u16) as u8]
}

pub open spec fn le32(x: u32) -> Seq<u8> {
    seq![x as u8, (x >> 8u32) as u8, (x >> 16u32) as u8, (x >> 24u32) as u8]
}

pub open spec fn from_le16(b0: u8, b1: u8) -> u16 {
    (b0 as u16) | ((b1 as u16) << 8u16)
}

pub open spec fn from_le32(b0: u8, b1: u8, b2: u8, b3: u8) -> u32 {
    (b0 as u32) | ((b1 as u32) << 8u32) | ((b2 as u32) << 16u32) | ((b3 as u32) << 24u32)
}

/// The little-endian 32-bit integer at `off` in `d`.
pub open spec fn read32(d: Seq<u8>, off: int) -> u32 {
    from_le32(d[off], d[off + 1], d[off + 2], d[off + 3])
}

pub proof fn lemma_le32_read(x: u32)
    ensures
        from_le32(x as u8, (x >> 8u32) as u8, (x >> 16u32) as u8, (x >> 24u32) as u8) == x,
{
    assert(((x as u8) as u32) | ((((x >> 8u32) as u8) as u32) << 8u32) | ((((x >> 16u32) as u8)
        as u32) << 16u32) | ((((x >> 24u32) as u8) as u32) << 24u32) == x) by (bit_vector);
}

pub proof fn lemma_le32_bytes(b0: u8, b1: u8, b2: u8, b3: u8)
    ensures
        le32(from_le32(b0, b1, b2, b3)) == seq![b0, b1, b2, b3],
{
    let x = from_le32(b0, b1, b2, b3);
    assert(x as u8 == b0 && (x >> 8u32) as u8 == b1 && (x >> 16u32) as u8 == b2 && (x >> 24u32)
        as u8 == b3) by (bit_vector)
        requires
            x == (b0 as u32) | ((b1 as u32) << 8u32) | ((b2 as u32) << 16u32) | ((b3 as u32)
                << 24u32),
    ;
    assert(le32(x) =~= seq![b0, b1, b2, b3]);
}

pub proof fn lemma_le16_bytes(b0: u8, b1: u8)
    ensures
        le16(from_le16(b0, b1)) == seq![b0, b1],
{
    let x = from_le16(b0, b1);
    assert(x as u8 == b0 && (x >> 8u16) as u8 == b1) by (bit_vector)
        requires
            x == (b0 as u16) | ((b1 as u16) << 8u16),
    ;
    assert(le16(x) =~= seq![b0, b1]);
}

pub proof fn lemma_le32_injective(x: u32, y: u32)
    requires
        le32(x) == le32(y),
    ensures
        x == y,
{
    lemma_le32_read(x);
    lemma_le32_read(y);
    assert(le32(x)[0] == le32(y)[0] && le32(x)[1] == le32(y)[1] && le32(x)[2] == le32(y)[2]
        && le32(x)[3] == le32(y)[3]);
}

pub proof fn lemma_le16_injective(x: u16, y: u16)
    requires
        le16(x) == le16(y),
    ensures
        x == y,
{
    assert(le16(x)[0] == le16(y)[0] && le16(x)[1] == le16(y)[1]);
    assert(from_le16(x as u8, (x >> 8u16) as u8) == x) by (bit_vector);
    assert(from_le16(y as u8, (y >> 8u16) as u8) == y) by (bit_vector);
}

/// The header fields of one segment, as they stand on the wire.
#[derive(Clone, Copy)]
pub struct Header {
    pub conv: u32,
    pub cmd: u8,
    pub frg: u8,
    pub wnd: u16,
    pub ts: u32,
    pub sn: u32,
    pub una: u32,
    pub len: u32,
}

impl Header {
    /// The 24 bytes of this header on the wire.
    pub open spec fn wire(&self) -> Seq<u8> {
        le32(self.conv) + seq![self.cmd, self.frg] + le16(self.wnd) + le32(self.ts) + le32(self.sn)
            + le32(self.una) + le32(self.len)
    }

    pub proof fn lemma_wire_len(&self)
        ensures
            self.wire().len() == 24,
    {
    }

    /// Two headers with the same bytes on the wire are the same header.
    pub proof fn lemma_wire_injective(&self, other: Header)
        requires
            self.wire() == other.wire(),
        ensures
            *self == other,
    {
        let a = self.wire();
        let b = other.wire();
        assert(a.subrange(0, 4) =~= le32(self.conv));
        assert(b.subrange(0, 4) =~= le32(other.conv));
        lemma_le32_injective(self.conv, other.conv);
        assert(a[4] == b[4] && a[5] == b[5]);
        assert(a.subrange(6, 8) =~= le16(self.wnd));
        assert(b.subrange(6, 8) =~= le16(other.wnd));
        lemma_le16_injective(self.wnd, other.wnd);
        assert(a.subrange(8, 12) =~= le32(self.ts));
        assert(b.subrange(8, 12) =~= le32(other.ts));
        lemma_le32_injective(self.ts, other.ts);
        assert(a.subrange(12, 16) =~= le32(self.sn));
        assert(b.subrange(12, 16) =~= le32(other.sn));
        lemma_le32_injective(self.sn, other.sn);
        assert(a.subrange(16, 20) =~= le32(self.una));
        assert(b.subrange(16, 20) =~= le32(other.una));
        lemma_le32_injective(self.una, other.una);
        assert(a.subrange(20, 24) =~= le32(self.len));
        assert(b.subrange(20, 24) =~= le32(other.len));
        lemma_le32_injective(self.len, other.len);
    }
}

fn put_le32(v: &mut Vec<u8>, x: u32)
    ensures
        final(v)@ == old(v)@ + le32(x),
{
    v.push(x as u8);
    v.push((x >> 8u32) as u8);
    v.push((x >> 16u32) as u8);
    v.push((x >> 24u32) as u8);
    assert(final(v)@ =~= old(v)@ + le32(x));
}

/// The header as 24 bytes.
pub fn header_bytes(h: &Header) -> (r: Vec<u8>)
    ensures
        r@ == h.wire(),
{
    let mut v: Vec<u8> = Vec::with_capacity(24);
    put_le32(&mut v, h.conv);
    v.push(h.cmd);
    v.push(h.frg);
    v.push(h.wnd as u8);
    v.push((h.wnd >> 8u16) as u8);
    put_le32(&mut v, h.ts);
    put_le32(&mut v, h.sn);
    put_le32(&mut v, h.una);
    put_le32(&mut v, h.len);
    assert(v@ =~= h.wire());
    v
}

/// Reads the header that starts at `off`.
pub fn decode_header(b: &[u8], off: usize) -> (h: Header)
    requires
        off + 24 <= b@.len(),
    ensures
        h.wire() == b@.subrange(off as int, off + 24),
{
    let conv = (b[off] as u32) | ((b[off + 1] as u32) << 8u32) | ((b[off + 2] as u32) << 16u32)
        | ((b[off + 3] as u32) << 24u32);
    let wnd = (b[off + 6] as u16) | ((b[off + 7] as u16) << 8u16);
    let ts = (b[off + 8] as u32) | ((b[off + 9] as u32) << 8u32) | ((b[off + 10] as u32) << 16u32)
        | ((b[off + 11] as u32) << 24u32);
    let sn = (b[off + 12] as u32) | ((b[off + 13] as u32) << 8u32) | ((b[off + 14] as u32)
        << 16u32) | ((b[off + 15] as u32) << 24u32);
    let una = (b[off + 16] as u32) | ((b[off + 17] as u32) << 8u32) | ((b[off + 18] as u32)
        << 16u32) | ((b[off + 19] as u32) << 24u32);
    let len = (b[off + 20] as u32) | ((b[off + 21] as u32) << 8u32) | ((b[off + 22] as u32)
        << 16u32) | ((b[off + 23] as u32) << 24u32);
    let h = Header { conv, cmd: b[off + 4], frg: b[off + 5], wnd, ts, sn, una, len };
    proof {
        let s = b@;
        let o = off as int;
        lemma_le32_bytes(s[o], s[o + 1], s[o + 2], s[o + 3]);
        lemma_le16_bytes(s[o + 6], s[o + 7]);
        lemma_le32_bytes(s[o + 8], s[o + 9], s[o + 10], s[o + 11]);
        lemma_le32_bytes(s[o + 12], s[o + 13], s[o + 14], s[o + 15]);
        lemma_le32_bytes(s[o + 16], s[o + 17], s[o + 18], s[o + 19]);
        lemma_le32_bytes(s[o + 20], s[o + 21], s[o + 22], s[o + 23]);
        assert(h.wire() =~= s.subrange(o, o + 24));
    }
    h
}

/// One segment: the header fields, the transmission bookkeeping that never
/// goes on the wire, and the payload.
pub struct Segment {
    pub conv: u32,
    pub cmd: u8,
    /// Fragment index, counting down; 0 marks the last fragment of a message.
    pub frg: u8,
    pub wnd: u16,
    pub ts: u32,
    pub sn: u32,
    pub una: u32,
    pub len: u32,
    /// Time at which the segment is due for retransmission.
    pub resendts: u32,
    pub rto: u32,
    /// How many later segments were acknowledged while this one was not.
    pub fastack: u32,
    /// How many times the segment was transmitted.
    pub xmit: u32,
    pub data: Vec<u8>,
}

impl Segment {
    pub open spec fn header(&self) -> Header {
        Header {
            conv: self.conv,
            cmd: self.cmd,
            frg: self.frg,
            wnd: self.wnd,
            ts: self.ts,
            sn: self.sn,
            una: self.una,
            len: self.len,
        }
    }

    /// The bytes of this segment on the wire.
    pub open spec fn wire(&self) -> Seq<u8> {
        self.header().wire() + self.data@
    }

    /// The length field agrees with the payload.
    pub open spec fn well_formed(&self) -> bool {
        self.len == self.data@.len()
    }

    /// A segment with every field zero and no payload.
    pub fn empty() -> (r: Segment)
        ensures
            r.conv == 0 && r.cmd == 0 && r.frg == 0 && r.wnd == 0 && r.ts == 0 && r.sn == 0,
            r.una == 0 && r.len == 0 && r.resendts == 0 && r.rto == 0 && r.fastack == 0,
            r.xmit == 0 && r.data@ == Seq::<u8>::empty(),
    {
        Segment {
            conv: 0,
            cmd: 0,
            frg: 0,
            wnd: 0,
            ts: 0,
            sn: 0,
            una: 0,
            len: 0,
            resendts: 0,
            rto: 0,
            fastack: 0,
            xmit: 0,
            data: Vec::new(),
        }
    }

    /// Appends the header, then the payload, to `buf`.
    pub fn encode(&self, buf: &mut BytesMut)
        ensures
            staged(*final(buf)) == staged(*old(buf)) + self.wire(),
    {
        let h = Header {
            conv: self.conv,
            cmd: self.cmd,
            frg: self.frg,
            wnd: self.wnd,
            ts: self.ts,
            sn: self.sn,
            una: self.una,
            len: self.len,
        };
        let head = header_bytes(&h);
        staging_put(buf, head.as_slice());
        staging_put(buf, self.data.as_slice());
        assert(staged(*buf) =~= staged(*old(buf)) + self.wire());
    }
}

/// `d` is a run of whole segments of conversation `conv`, each with a known
/// command and its full payload, with no byte left over.
pub open spec fn segments_well_formed(d: Seq<u8>, conv: u32) -> bool
    decreases d.len(),
{
    if d.len() == 0 {
        true
    } else if d.len() < 24 {
        false
    } else {
        let n = 24 + read32(d, 20);
        read32(d, 0) == conv && is_command(d[4]) && n <= d.len() && segments_well_formed(
            d.skip(n),
            conv,
        )
    }
}

proof fn lemma_read_len(h: Header, rest: Seq<u8>)
    ensures
        read32(h.wire() + rest, 20) == h.len,
        read32(h.wire() + rest, 0) == h.conv,
        (h.wire() + rest)[4] == h.cmd,
{
    let d = h.wire() + rest;
    assert(d[0] == (h.conv as u8) && d[1] == ((h.conv >> 8u32) as u8) && d[2] == ((h.conv
        >> 16u32) as u8) && d[3] == ((h.conv >> 24u32) as u8));
    lemma_le32_read(h.conv);
    assert(d[20] == (h.len as u8) && d[21] == ((h.len >> 8u32) as u8) && d[22] == ((h.len
        >> 16u32) as u8) && d[23] == ((h.len >> 24u32) as u8));
    lemma_le32_read(h.len);
}

/// Appending one segment with a known command to a run of whole segments
/// gives a run of whole segments.
pub proof fn lemma_append_segment(d: Seq<u8>, s: Segment)
    requires
        segments_well_formed(d, s.conv),
        s.well_formed(),
        is_command(s.cmd),
    ensures
        segments_well_formed(d + s.wire(), s.conv),
    decreases d.len(),
{
    let e = d + s.wire();
    if d.len() == 0 {
        assert(e =~= s.header().wire() + s.data@);
        lemma_read_len(s.header(), s.data@);
        assert(e.skip(24 + s.len) =~= Seq::<u8>::empty());
        assert(segments_well_formed(e.skip(24 + s.len), s.conv));
        assert(e.len() == 24 + s.len);
    } else {
        let n = 24 + read32(d, 20);
        assert(read32(e, 20) == read32(d, 20));
        assert(read32(e, 0) == read32(d, 0));
        assert(e[4] == d[4]);
        assert(e.skip(n) =~= d.skip(n) + s.wire());
        lemma_append_segment(d.skip(n), s);
    }
}

} // verus!
