use kcp::{Kcp, KcpError};

/// (cmd, frg, wnd, ts, sn, una, len) of each segment of a datagram.
fn parse(d: &[u8]) -> Vec<(u8, u8, u16, u32, u32, u32, u32)> {
    let mut out = Vec::new();
    let mut off = 0;
    while off < d.len() {
        assert!(d.len() - off >= 24, "partial header");
        let rd = |o: usize| u32::from_le_bytes([d[o], d[o + 1], d[o + 2], d[o + 3]]);
        let cmd = d[off + 4];
        let frg = d[off + 5];
        let wnd = u16::from_le_bytes([d[off + 6], d[off + 7]]);
        let ts = rd(off + 8);
        let sn = rd(off + 12);
        let una = rd(off + 16);
        let len = rd(off + 20);
        assert!(cmd >= 81 && cmd <= 84, "bad command");
        assert!(off + 24 + len as usize <= d.len(), "short payload");
        out.push((cmd, frg, wnd, ts, sn, una, len));
        off += 24 + len as usize;
    }
    out
}

fn deliver(from: &mut Kcp, to: &mut Kcp) -> usize {
    let out = from.take_output();
    for d in &out {
        assert!(d.len() as u32 <= from.mtu);
        parse(d);
        to.ikcp_input(d).unwrap();
    }
    out.len()
}

fn pump(a: &mut Kcp, b: &mut Kcp, t: u32) {
    a.ikcp_update(t);
    deliver(a, b);
    b.ikcp_update(t);
    deliver(b, a);
}

fn check_invariants(k: &Kcp) {
    assert!(k.snd_una <= k.snd_nxt);
    for (i, s) in k.snd_buf.iter().enumerate() {
        assert!(k.snd_una <= s.sn && s.sn < k.snd_nxt);
        if i > 0 {
            assert!(k.snd_buf[i - 1].sn < s.sn);
        }
    }
    for (i, s) in k.rcv_buf.iter().enumerate() {
        assert!(k.rcv_nxt <= s.sn && (s.sn as u64) < k.rcv_nxt as u64 + k.rcv_wnd as u64);
        if i > 0 {
            assert!(k.rcv_buf[i - 1].sn < s.sn);
        }
    }
    assert!(k.rcv_queue.len() <= k.rcv_wnd as usize);
    for s in &k.rcv_queue {
        assert!(s.sn < k.rcv_nxt);
    }
}

#[test]
fn test() {}

#[test]
fn single_small_message_zero_loss() {
    let mut a = Kcp::ickp_create(1);
    let mut b = Kcp::ickp_create(1);
    assert_eq!(a.ikcp_send(b"hello"), Ok(5));
    a.ikcp_update(0);
    a.ikcp_update(100);
    let out = a.take_output();
    assert_eq!(out.len(), 1);
    assert_eq!(b.ikcp_input(&out[0]), Ok(out[0].len()));
    b.ikcp_update(100);
    let acks = b.take_output();
    assert_eq!(acks.len(), 1);
    let segs = parse(&acks[0]);
    assert_eq!(segs.len(), 1);
    assert_eq!(segs[0].0, 82);
    a.ikcp_input(&acks[0]).unwrap();
    let mut buf = [0u8; 16];
    assert_eq!(b.ikcp_recv(&mut buf), Ok(5));
    assert_eq!(&buf[..5], b"hello");
    for k in [&a, &b] {
        assert!(k.snd_queue.is_empty());
        assert!(k.snd_buf.is_empty());
        assert!(k.rcv_buf.is_empty());
    }
}

#[test]
fn fragmentation_and_oversize_recv() {
    let mut a = Kcp::ickp_create(1);
    let mut b = Kcp::ickp_create(1);
    a.ikcp_setmtu(64).unwrap();
    b.ikcp_setmtu(64).unwrap();
    assert_eq!(a.mss, 40);
    let msg = vec![b'x'; 100];
    assert_eq!(a.ikcp_send(&msg), Ok(100));
    let frgs: Vec<u8> = a.snd_queue.iter().map(|s| s.frg).collect();
    let lens: Vec<u32> = a.snd_queue.iter().map(|s| s.len).collect();
    assert_eq!(frgs, vec![2, 1, 0]);
    assert_eq!(lens, vec![40, 40, 20]);
    let mut t = 0;
    while b.rcv_queue.len() < 3 && t < 10_000 {
        pump(&mut a, &mut b, t);
        t += 100;
    }
    let mut small = [0u8; 99];
    let before = b.rcv_queue.len();
    assert_eq!(b.ikcp_recv(&mut small), Err(KcpError::OversizeRecv));
    assert_eq!(b.rcv_queue.len(), before);
    assert_eq!(small, [0u8; 99]);
    let mut buf = [0u8; 100];
    assert_eq!(b.ikcp_recv(&mut buf), Ok(100));
    assert_eq!(buf.to_vec(), msg);
}

#[test]
fn single_packet_loss_fast_retransmit() {
    let mut a = Kcp::ickp_create(1);
    let mut b = Kcp::ickp_create(1);
    a.ikcp_nodelay(false, 100, 2, true);
    a.ikcp_wndsize(8, 0);
    for i in 0..8u8 {
        assert_eq!(a.ikcp_send(&[i; 10]), Ok(10));
    }
    a.ikcp_update(0);
    let out = a.take_output();
    assert_eq!(out.len(), 1);
    // split the datagram into its segments, dropping sn 3
    let d = &out[0];
    let mut off = 0;
    let mut pieces = Vec::new();
    for s in parse(d) {
        let end = off + 24 + s.6 as usize;
        if s.4 != 3 {
            pieces.push(d[off..end].to_vec());
        }
        off = end;
    }
    assert_eq!(pieces.len(), 7);
    b.ikcp_update(0);
    for p in &pieces {
        b.ikcp_input(p).unwrap();
        b.ikcp_flush();
        deliver(&mut b, &mut a);
    }
    assert_eq!(a.snd_buf.len(), 1);
    assert_eq!(a.snd_buf[0].sn, 3);
    assert!(a.snd_buf[0].fastack >= 2);
    a.ikcp_update(100);
    let out = a.take_output();
    assert_eq!(out.len(), 1);
    let segs = parse(&out[0]);
    assert_eq!(segs.len(), 1);
    assert_eq!(segs[0].0, 81);
    assert_eq!(segs[0].4, 3);
    assert_eq!(a.snd_buf[0].xmit, 2);
    assert_eq!(a.snd_buf[0].fastack, 0);
    assert!(a.ssthresh >= 2);
    assert_eq!(a.ssthresh, 2);
    assert_eq!(a.cwnd, 4);
}

#[test]
fn timeout_retransmit() {
    let mut a = Kcp::ickp_create(1);
    a.ikcp_send(b"data").unwrap();
    a.ikcp_update(0);
    a.ikcp_update(100);
    assert_eq!(a.take_output().len(), 1);
    assert_eq!(a.snd_buf[0].xmit, 1);
    let resendts = a.snd_buf[0].resendts;
    assert_eq!(resendts, 100 + 200 + 25);
    let rto = a.rx_rto;
    let mut t = 200;
    while t <= 100 + 2 * rto {
        a.ikcp_update(t);
        t += 100;
    }
    let out = a.take_output();
    assert_eq!(out.len(), 1);
    assert_eq!(parse(&out[0])[0].4, 0);
    assert_eq!(a.snd_buf[0].xmit, 2);
    assert_eq!(a.cwnd, 1);
    assert_eq!(a.snd_buf[0].rto, 400);
    assert_eq!(a.rx_rto, rto);
}

#[test]
fn window_probe() {
    let mut a = Kcp::ickp_create(1);
    let mut b = Kcp::ickp_create(1);
    a.ikcp_nodelay(false, 100, 0, true);
    a.ikcp_wndsize(256, 0);
    for i in 0..128u32 {
        a.ikcp_send(&i.to_le_bytes()).unwrap();
    }
    let mut t = 0;
    while !(b.rcv_queue.len() == 128 && a.snd_buf.is_empty() && a.rmt_wnd == 0) {
        pump(&mut a, &mut b, t);
        t += 100;
        assert!(t < 5000);
    }
    a.ikcp_send(b"more").unwrap();
    let mut saw_wask = false;
    let mut saw_wins = false;
    let start = t;
    while !(saw_wask && saw_wins) {
        a.ikcp_update(t);
        for d in a.take_output() {
            if parse(&d).iter().any(|s| s.0 == 83) {
                saw_wask = true;
                assert!(t >= start + 7000);
            }
            b.ikcp_input(&d).unwrap();
        }
        b.ikcp_update(t);
        for d in b.take_output() {
            if parse(&d).iter().any(|s| s.0 == 84) {
                saw_wins = true;
            }
            a.ikcp_input(&d).unwrap();
        }
        t += 100;
        assert!(t < start + 20_000);
    }
    assert_eq!(a.rmt_wnd, 0);
    // the application drains one message: the window reopens
    let mut buf = [0u8; 8];
    assert_eq!(b.ikcp_recv(&mut buf), Ok(4));
    assert_eq!(b.probe & 2, 2);
    b.ikcp_update(t);
    let out = b.take_output();
    let wins: Vec<_> = out.iter().flat_map(|d| parse(d)).filter(|s| s.0 == 84).collect();
    assert_eq!(wins.len(), 1);
    assert!(wins[0].2 > 0);
    for d in &out {
        a.ikcp_input(d).unwrap();
    }
    assert!(a.rmt_wnd > 0);
    a.ikcp_update(t + 100);
    let out = a.take_output();
    assert!(out.iter().flat_map(|d| parse(d)).any(|s| s.0 == 81 && s.4 == 128));
}

#[test]
fn conversation_mismatch() {
    let mut other = Kcp::ickp_create(2);
    other.ikcp_send(b"hi").unwrap();
    other.ikcp_update(0);
    other.ikcp_update(100);
    let out = other.take_output();
    let mut b = Kcp::ickp_create(1);
    let (nxt, wnd, acks) = (b.rcv_nxt, b.rmt_wnd, b.acklist.len());
    assert_eq!(b.ikcp_input(&out[0]), Err(KcpError::ForeignConversation));
    assert_eq!(b.rcv_nxt, nxt);
    assert_eq!(b.rmt_wnd, wnd);
    assert_eq!(b.acklist.len(), acks);
    assert!(b.rcv_buf.is_empty() && b.rcv_queue.is_empty());
}

#[test]
fn invariants_hold_over_a_lossy_run() {
    let mut a = Kcp::ickp_create(7);
    let mut b = Kcp::ickp_create(7);
    a.ikcp_setmtu(200).unwrap();
    b.ikcp_setmtu(200).unwrap();
    for i in 0..20u32 {
        a.ikcp_send(&vec![i as u8; (i * 37 % 500) as usize + 1]).unwrap();
    }
    let mut got = Vec::new();
    let mut n = 0u32;
    let (mut una, mut nxt) = (a.snd_una, b.rcv_nxt);
    for t in (0..40_000).step_by(50) {
        a.ikcp_update(t);
        for d in a.take_output() {
            assert!(d.len() <= 200);
            parse(&d);
            n += 1;
            if n % 3 != 0 {
                b.ikcp_input(&d).unwrap();
            }
        }
        b.ikcp_update(t);
        for d in b.take_output() {
            n += 1;
            if n % 4 != 0 {
                a.ikcp_input(&d).unwrap();
            }
        }
        let mut buf = vec![0u8; 1000];
        while let Ok(k) = b.ikcp_recv(&mut buf) {
            got.push(buf[..k].to_vec());
        }
        check_invariants(&a);
        check_invariants(&b);
        assert!(a.snd_una >= una && b.rcv_nxt >= nxt);
        una = a.snd_una;
        nxt = b.rcv_nxt;
    }
    assert_eq!(got.len(), 20);
    for (i, m) in got.iter().enumerate() {
        assert_eq!(*m, vec![i as u8; (i as u32 * 37 % 500) as usize + 1]);
    }
}

#[test]
fn rto_constant_under_timeouts_only() {
    let mut a = Kcp::ickp_create(1);
    a.ikcp_send(b"x").unwrap();
    let rx_rto = a.rx_rto;
    let mut last = 0;
    for t in (0..20_000).step_by(100) {
        a.ikcp_update(t);
        assert_eq!(a.rx_rto, rx_rto);
        if let Some(s) = a.snd_buf.first() {
            assert!(s.rto >= last);
            last = s.rto;
        }
    }
    assert!(a.snd_buf[0].xmit > 2);
}

#[test]
fn loopback_round_trip() {
    let mut a = Kcp::ickp_create(3);
    let mut b = Kcp::ickp_create(3);
    let msgs: Vec<Vec<u8>> = vec![b"one".to_vec(), vec![9u8; 5000], b"three".to_vec(), (0..=255u8).collect()];
    for m in &msgs {
        assert_eq!(a.ikcp_send(m), Ok(m.len()));
    }
    let mut got = Vec::new();
    let mut t = 0;
    while got.len() < msgs.len() && t < 20_000 {
        pump(&mut a, &mut b, t);
        let mut buf = vec![0u8; 8000];
        while let Ok(k) = b.ikcp_recv(&mut buf) {
            got.push(buf[..k].to_vec());
        }
        t += 100;
    }
    assert_eq!(got, msgs);
    assert_eq!(a.ikcp_waitsnd(), 0);
}

#[test]
fn same_ack_twice() {
    let mut a = Kcp::ickp_create(1);
    let mut b = Kcp::ickp_create(1);
    a.ikcp_nodelay(false, 100, 0, true);
    for i in 0..4u8 {
        a.ikcp_send(&[i; 3]).unwrap();
    }
    a.ikcp_update(0);
    let out = a.take_output();
    // deliver only the segment numbered 2, so that its ACK is selective
    let d = &out[0];
    let mut off = 0;
    for s in parse(d) {
        let end = off + 24 + s.6 as usize;
        if s.4 == 2 {
            b.ikcp_input(&d[off..end]).unwrap();
        }
        off = end;
    }
    b.ikcp_update(0);
    let acks = b.take_output();
    assert_eq!(acks.len(), 1);
    a.ikcp_input(&acks[0]).unwrap();
    let sns: Vec<u32> = a.snd_buf.iter().map(|s| s.sn).collect();
    let (una, cwnd) = (a.snd_una, a.cwnd);
    a.ikcp_input(&acks[0]).unwrap();
    let sns2: Vec<u32> = a.snd_buf.iter().map(|s| s.sn).collect();
    assert_eq!(sns, vec![0, 1, 3]);
    assert_eq!(sns2, sns);
    assert_eq!(a.snd_una, una);
    assert_eq!(a.cwnd, cwnd);
}

#[test]
fn duplicate_push_not_redelivered() {
    let mut a = Kcp::ickp_create(1);
    let mut b = Kcp::ickp_create(1);
    a.ikcp_send(b"once").unwrap();
    a.ikcp_update(0);
    a.ikcp_update(100);
    let out = a.take_output();
    b.ikcp_input(&out[0]).unwrap();
    let mut buf = [0u8; 8];
    assert_eq!(b.ikcp_recv(&mut buf), Ok(4));
    b.ikcp_input(&out[0]).unwrap();
    assert_eq!(b.ikcp_recv(&mut buf), Err(KcpError::Eagain));
    assert!(b.rcv_buf.is_empty());
    // the duplicate is still acknowledged
    assert_eq!(b.acklist.len(), 2);
}

#[test]
fn large_message_one_recv() {
    let mut a = Kcp::ickp_create(5);
    let mut b = Kcp::ickp_create(5);
    a.ikcp_setmtu(100).unwrap();
    b.ikcp_setmtu(100).unwrap();
    let msg: Vec<u8> = (0..1000u32).map(|i| (i % 251) as u8).collect();
    a.ikcp_send(&msg).unwrap();
    a.ikcp_send(b"next").unwrap();
    assert_eq!(a.snd_queue.len(), 15);
    let mut t = 0;
    while b.rcv_queue.len() < 15 && t < 20_000 {
        pump(&mut a, &mut b, t);
        t += 100;
    }
    assert_eq!(b.ikcp_peeksize(), Ok(1000));
    let mut buf = vec![0u8; 1000];
    assert_eq!(b.ikcp_recv(&mut buf), Ok(1000));
    assert_eq!(buf, msg);
    assert_eq!(b.ikcp_recv(&mut buf), Ok(4));
    assert_eq!(&buf[..4], b"next");
}

#[test]
fn recv_on_empty_queue_is_eagain() {
    let mut b = Kcp::ickp_create(1);
    let mut buf = [0u8; 4];
    assert_eq!(b.ikcp_recv(&mut buf), Err(KcpError::Eagain));
    assert_eq!(b.ikcp_peeksize(), Err(KcpError::Eagain));
}

#[test]
fn incomplete_message_is_eagain() {
    let mut a = Kcp::ickp_create(1);
    let mut b = Kcp::ickp_create(1);
    a.ikcp_setmtu(50).unwrap();
    a.ikcp_nodelay(false, 100, 0, true);
    a.ikcp_send(&[1u8; 60]).unwrap();
    a.ikcp_update(0);
    let out = a.take_output();
    // deliver only the first fragment
    assert_eq!(parse(&out[0])[0].1, 2);
    b.ikcp_input(&out[0]).unwrap();
    assert_eq!(b.rcv_queue.len(), 1);
    let mut buf = [0u8; 100];
    assert_eq!(b.ikcp_recv(&mut buf), Err(KcpError::Eagain));
}

#[test]
fn send_errors() {
    let mut a = Kcp::ickp_create(1);
    assert_eq!(a.ikcp_send(b""), Err(KcpError::EmptySend));
    a.ikcp_setmtu(50).unwrap();
    assert_eq!(a.ikcp_send(&vec![0u8; 255 * 26]), Ok(255 * 26));
    assert_eq!(a.snd_queue.len(), 255);
    assert_eq!(a.ikcp_send(&vec![0u8; 255 * 26 + 1]), Err(KcpError::TooManyFragments));
    assert_eq!(a.snd_queue.len(), 255);
    assert_eq!(a.ikcp_waitsnd(), 255);
}

#[test]
fn stream_mode_tops_up() {
    let mut a = Kcp::ickp_create(1);
    a.stream = true;
    a.ikcp_setmtu(50).unwrap();
    assert_eq!(a.ikcp_send(b"abc"), Ok(3));
    assert_eq!(a.ikcp_send(b"defg"), Ok(4));
    assert_eq!(a.snd_queue.len(), 1);
    assert_eq!(a.snd_queue[0].data, b"abcdefg".to_vec());
    assert_eq!(a.snd_queue[0].len, 7);
    assert_eq!(a.ikcp_send(&[b'z'; 30]), Ok(30));
    assert_eq!(a.snd_queue.len(), 2);
    assert_eq!(a.snd_queue[0].len, 26);
    assert_eq!(a.snd_queue[1].len, 11);
    assert!(a.snd_queue.iter().all(|s| s.frg == 0));
}

#[test]
fn malformed_datagrams() {
    let mut b = Kcp::ickp_create(1);
    assert_eq!(b.ikcp_input(&[0u8; 10]), Err(KcpError::MalformedDatagram));
    let mut d = vec![0u8; 24];
    d[0] = 1;
    d[4] = 99;
    assert_eq!(b.ikcp_input(&d), Err(KcpError::MalformedDatagram));
    d[4] = 81;
    d[20] = 5;
    d.extend_from_slice(&[1, 2, 3]);
    assert_eq!(b.ikcp_input(&d), Err(KcpError::MalformedDatagram));
    // a window announcement is accepted, trailing bytes shorter than a header are left
    let mut w = vec![0u8; 24];
    w[0] = 1;
    w[4] = 84;
    w[6] = 7;
    w.extend_from_slice(&[0, 0, 0]);
    assert_eq!(b.ikcp_input(&w), Ok(24));
    assert_eq!(b.rmt_wnd, 7);
}

#[test]
fn window_ask_is_answered() {
    let mut b = Kcp::ickp_create(1);
    let mut w = vec![0u8; 24];
    w[0] = 1;
    w[4] = 83;
    w[6] = 1;
    assert_eq!(b.ikcp_input(&w), Ok(24));
    assert_eq!(b.probe, 2);
    b.ikcp_update(0);
    let out = b.take_output();
    let segs = parse(&out[0]);
    assert_eq!(segs.len(), 1);
    assert_eq!(segs[0].0, 84);
    assert_eq!(segs[0].2, 128);
    assert_eq!(b.probe, 0);
}

#[test]
fn rtt_estimate_from_an_ack() {
    let mut a = Kcp::ickp_create(1);
    let mut b = Kcp::ickp_create(1);
    a.ikcp_send(b"ping").unwrap();
    a.ikcp_update(0);
    a.ikcp_update(100);
    deliver(&mut a, &mut b);
    b.ikcp_update(100);
    a.ikcp_update(130);
    deliver(&mut b, &mut a);
    assert_eq!(a.rx_srtt, 30);
    assert_eq!(a.rx_rttval, 15);
    assert_eq!(a.rx_rto, 130);
    assert!(a.snd_buf.is_empty());
    assert_eq!(a.snd_una, 1);
}

#[test]
fn rtt_estimate_second_sample() {
    let mut a = Kcp::ickp_create(1);
    let mut b = Kcp::ickp_create(1);
    a.ikcp_nodelay(true, 10, 0, true);
    a.ikcp_send(b"a").unwrap();
    a.ikcp_update(0);
    deliver(&mut a, &mut b);
    b.ikcp_update(0);
    a.ikcp_update(80);
    deliver(&mut b, &mut a);
    assert_eq!((a.rx_srtt, a.rx_rttval, a.rx_rto), (80, 40, 240));
    a.ikcp_send(b"b").unwrap();
    a.ikcp_update(90);
    deliver(&mut a, &mut b);
    b.ikcp_update(100);
    a.ikcp_update(100);
    deliver(&mut b, &mut a);
    // rtt 10: rttval = (3 * 40 + 70) / 4 = 47, srtt = (7 * 80 + 10) / 8 = 71
    assert_eq!((a.rx_srtt, a.rx_rttval), (71, 47));
    assert_eq!(a.rx_rto, 71 + 4 * 47);
}

#[test]
fn configuration_clamps() {
    let mut k = Kcp::ickp_create(1);
    assert_eq!(k.ikcp_setmtu(49), Err(KcpError::MtuTooSmall));
    assert_eq!(k.mtu, 1400);
    assert_eq!(k.ikcp_setmtu(50), Ok(()));
    assert_eq!(k.mss, 26);
    k.ikcp_interval(5);
    assert_eq!(k.interval, 10);
    k.ikcp_interval(6000);
    assert_eq!(k.interval, 5000);
    k.ikcp_interval(250);
    assert_eq!(k.interval, 250);
    k.ikcp_nodelay(true, 20, 2, true);
    assert_eq!((k.rx_minrto, k.interval, k.fastresend, k.nocwnd), (30, 20, 2, true));
    k.ikcp_nodelay(false, 1, 0, false);
    assert_eq!((k.rx_minrto, k.interval), (100, 10));
    k.ikcp_wndsize(64, 10);
    assert_eq!((k.snd_wnd, k.rcv_wnd), (64, 128));
    k.ikcp_wndsize(0, 512);
    assert_eq!((k.snd_wnd, k.rcv_wnd), (64, 512));
    assert_eq!(k.ikcp_wnd_unused(), 512);
}

#[test]
fn check_gives_next_deadline() {
    let mut a = Kcp::ickp_create(1);
    // a new block flushes first at 100
    assert_eq!(a.ikcp_check(0), 100);
    assert_eq!(a.ikcp_check(1234), 100);
    a.ikcp_update(1000);
    // next flush at 1100
    assert_eq!(a.ikcp_check(1000), 1100);
    assert_eq!(a.ikcp_check(1050), 1100);
    assert_eq!(a.ikcp_check(1100), 1100);
    a.ikcp_send(b"x").unwrap();
    a.ikcp_update(1100);
    // resend at 1100 + 200 + 25, flush at 1200
    assert_eq!(a.ikcp_check(1150), 1200);
    a.ikcp_interval(1000);
    assert_eq!(a.ikcp_check(1150), 1200);
    // an overdue flush gives its own time, not the time now
    assert_eq!(a.ikcp_check(1250), 1200);
    // a retransmission time earlier than the flush time wins
    assert_eq!(a.ikcp_check(1190), 1200);
    a.ikcp_update(1200);
    // next flush at 2200; the retransmission at 1325 comes first, even once passed
    assert_eq!(a.ikcp_check(1290), 1325);
    assert_eq!(a.ikcp_check(1330), 1325);
}

#[test]
fn flush_before_first_update_does_nothing() {
    let mut a = Kcp::ickp_create(1);
    a.ikcp_send(b"x").unwrap();
    a.ikcp_flush();
    assert!(a.take_output().is_empty());
    assert_eq!(a.snd_queue.len(), 1);
}

#[test]
fn acks_are_packed_into_mtu_sized_datagrams() {
    let mut a = Kcp::ickp_create(1);
    let mut b = Kcp::ickp_create(1);
    b.ikcp_setmtu(100).unwrap();
    a.ikcp_nodelay(false, 100, 0, true);
    for i in 0..10u8 {
        a.ikcp_send(&[i]).unwrap();
    }
    a.ikcp_update(0);
    deliver(&mut a, &mut b);
    assert_eq!(b.acklist.len(), 10);
    b.ikcp_update(0);
    let out = b.take_output();
    // four 24-byte headers fit in 100 bytes
    assert_eq!(out.iter().map(|d| d.len()).collect::<Vec<_>>(), vec![96, 96, 48]);
}

#[test]
fn dead_link_is_flagged() {
    let mut a = Kcp::ickp_create(1);
    a.dead_link = 3;
    a.ikcp_send(b"x").unwrap();
    let mut t = 0;
    while !a.dead && t < 100_000 {
        a.ikcp_update(t);
        t += 100;
    }
    assert!(a.dead);
    assert_eq!(a.snd_buf[0].xmit, 3);
}

#[test]
fn clock_wrap_is_harmless() {
    let mut a = Kcp::ickp_create(9);
    let mut b = Kcp::ickp_create(9);
    a.ikcp_send(b"across the wrap").unwrap();
    let mut t: u32 = 0xffff_ffc0;
    let mut buf = [0u8; 32];
    let mut got = None;
    for _ in 0..20 {
        pump(&mut a, &mut b, t);
        if let Ok(n) = b.ikcp_recv(&mut buf) {
            got = Some(buf[..n].to_vec());
            break;
        }
        t = t.wrapping_add(100);
    }
    assert_eq!(got, Some(b"across the wrap".to_vec()));
    // the data went out after the clock wrapped
    assert!(t < 0x1000);
}

#[test]
fn window_grows_then_caps_at_remote_window() {
    let mut a = Kcp::ickp_create(1);
    let mut b = Kcp::ickp_create(1);
    a.ikcp_send(b"x").unwrap();
    a.ikcp_update(0);
    a.ikcp_update(100);
    deliver(&mut a, &mut b);
    b.ikcp_update(100);
    // the peer announces a window of 1, below the grown congestion window
    let acks = b.take_output();
    let mut d = acks[0].clone();
    d[6] = 1;
    d[7] = 0;
    a.cwnd = 1;
    a.ssthresh = 2;
    a.ikcp_input(&d).unwrap();
    assert_eq!(a.rmt_wnd, 1);
    assert_eq!(a.cwnd, 1);
    assert_eq!(a.incr, a.mss);
}
