use bytes::BytesMut;
use kcp::rtt::{diff, ibound};
use kcp::wire::decode_header;
use kcp::{Header, Segment};

fn sample() -> Segment {
    let mut s = Segment::empty();
    s.conv = 0x0403_0201;
    s.cmd = 81;
    s.frg = 7;
    s.wnd = 0x0605;
    s.ts = 0x0a09_0807;
    s.sn = 0x0e0d_0c0b;
    s.una = 0x1211_100f;
    s.len = 3;
    s.data = vec![0xaa, 0xbb, 0xcc];
    s
}

#[test]
fn encode_lays_out_little_endian_header() {
    let mut buf = BytesMut::new();
    buf.extend_from_slice(&[0xee]);
    sample().encode(&mut buf);
    let expect: Vec<u8> = vec![
        0xee, 1, 2, 3, 4, 81, 7, 5, 6, 7, 8, 9, 10, 11, 12, 13, 14, 15, 16, 17, 18, 3, 0, 0, 0,
        0xaa, 0xbb, 0xcc,
    ];
    assert_eq!(&buf[..], &expect[..]);
}

#[test]
fn decode_reads_back_the_header() {
    let mut buf = BytesMut::new();
    sample().encode(&mut buf);
    let bytes = buf.to_vec();
    let h: Header = decode_header(&bytes, 0);
    assert_eq!(
        (h.conv, h.cmd, h.frg, h.wnd, h.ts, h.sn, h.una, h.len),
        (0x0403_0201, 81, 7, 0x0605, 0x0a09_0807, 0x0e0d_0c0b, 0x1211_100f, 3)
    );
}

#[test]
fn bound_and_clock_difference() {
    assert_eq!(ibound(100, 50, 60000), 100);
    assert_eq!(ibound(100, 700, 60000), 700);
    assert_eq!(ibound(100, 70000, 60000), 60000);
    assert_eq!(diff(5, 10), -5);
    assert_eq!(diff(10, 5), 5);
    assert_eq!(diff(0, 0xffff_fff0), 16);
    assert_eq!(diff(0xffff_fff0, 0), -16);
}
