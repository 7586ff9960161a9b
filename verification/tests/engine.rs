use ap_kcp::config::{KcpConfig, CRYPTO_OVERHEAD};
use ap_kcp::error::KcpError;
use ap_kcp::kcp::{KcpCore, StreamState};
use ap_kcp::receiver::Receiver;
use ap_kcp::rtt::Rtt;
use ap_kcp::schedule::Outcome;
use ap_kcp::segment::{Command, Segment};
use ap_kcp::sender::Sender;

fn pair(cfg: KcpConfig) -> (KcpCore, KcpCore) {
    (KcpCore::new(7, cfg, 0, true), KcpCore::new(7, cfg, 0, false))
}

/// Hands every datagram to `to`, and returns the segments seen.
fn carry(out: Vec<Vec<u8>>, to: &mut KcpCore) -> Vec<Segment> {
    let mut seen = Vec::new();
    for d in out {
        seen.extend(Segment::decode_all(&d).unwrap());
        assert_eq!(to.input(&d), Ok(d.len()));
    }
    seen
}

/// Two engines that have shaken hands, at time 0.
fn established(cfg: KcpConfig) -> (KcpCore, KcpCore) {
    let (mut a, mut b) = pair(cfg);
    carry(a.update(0), &mut b);
    carry(b.update(0), &mut a);
    assert_eq!(a.state, StreamState::Established);
    assert_eq!(b.state, StreamState::Established);
    (a, b)
}

fn push(sn: u32, frg: u8, payload: &[u8]) -> Segment {
    Segment { conv: 7, cmd: Command::Push, frg, wnd: 1024, ts: 5, sn, una: 0, payload: payload.to_vec() }
}

#[test]
fn defaults() {
    let c = KcpConfig::default();
    assert_eq!(c.mtu, 1400);
    assert_eq!(c.interval, 10);
    assert!(!c.nodelay);
    assert_eq!(c.resend, 0);
    assert!(!c.nc);
    assert_eq!(c.snd_wnd, 1024);
    assert_eq!(c.rcv_wnd, 1024);
    assert_eq!(c.rto_min, 100);
    assert_eq!(c.rto_max, 60000);
    assert_eq!(c.dead_link, 20);
    assert_eq!(c.linger_timeout, 5000);
    assert!(c.is_valid());
    assert_eq!(c.mss(0), Some(1376));
    assert_eq!(c.mss(CRYPTO_OVERHEAD), Some(1348));
    assert_eq!(KcpConfig { mtu: 24, ..c }.mss(0), None);
    assert_eq!(KcpConfig { mtu: 25, ..c }.mss(0), Some(1));
    assert_eq!(KcpConfig { mtu: 52, ..c }.mss(28), None);
    assert!(!KcpConfig { mtu: 24, ..c }.is_valid());
    assert!(!KcpConfig { mtu: 65536, ..c }.is_valid());
    assert!(!KcpConfig { snd_wnd: 0, ..c }.is_valid());
    assert!(!KcpConfig { rcv_wnd: 0, ..c }.is_valid());
    assert!(!KcpConfig { rto_min: 0, ..c }.is_valid());
    assert!(!KcpConfig { rto_min: 200, rto_max: 100, ..c }.is_valid());
    assert!(!KcpConfig { dead_link: u32::MAX, ..c }.is_valid());
}

#[test]
fn round_trip_estimate() {
    let cfg = KcpConfig::default();
    let mut r = Rtt::new(&cfg);
    assert_eq!(r, Rtt { srtt: 0, rttvar: 0, rto: 200 });
    r.update(100, &cfg);
    assert_eq!(r, Rtt { srtt: 100, rttvar: 50, rto: 300 });
    r.update(60, &cfg);
    // rttvar = (3 * 50 + |100 - 60|) / 4, srtt = (7 * 100 + 60) / 8,
    // rto = srtt + max(interval, 4 * rttvar)
    assert_eq!(r, Rtt { srtt: 95, rttvar: 47, rto: 283 });
    let mut low = Rtt::new(&cfg);
    low.update(1, &cfg);
    assert_eq!(low, Rtt { srtt: 1, rttvar: 0, rto: 100 });
    let mut high = Rtt::new(&cfg);
    high.update(50_000, &cfg);
    assert_eq!(high, Rtt { srtt: 50_000, rttvar: 25_000, rto: 60_000 });
    let tight = KcpConfig { rto_min: 300, rto_max: 400, ..cfg };
    assert_eq!(Rtt::new(&tight).rto, 300);
    let loose = KcpConfig { rto_min: 1, rto_max: 150, ..cfg };
    assert_eq!(Rtt::new(&loose).rto, 150);
}

#[test]
fn hello_crosses_with_one_push_and_one_ack() {
    let (mut a, mut b) = pair(KcpConfig::default());
    let syn = carry(a.update(0), &mut b);
    assert_eq!(syn.len(), 1);
    assert_eq!(syn[0].cmd, Command::Syn);
    assert_eq!(syn[0].sn, 0);
    assert_eq!(b.state, StreamState::Established);
    assert_eq!(a.state, StreamState::Connecting);
    let syn_ack = carry(b.update(0), &mut a);
    assert_eq!(syn_ack.len(), 1);
    assert_eq!(syn_ack[0].cmd, Command::Ack);
    assert_eq!(syn_ack[0].una, 1);
    assert_eq!(a.state, StreamState::Established);

    a.send(b"hello").unwrap();
    let seen = carry(a.update(10), &mut b);
    assert_eq!(seen.len(), 1);
    assert_eq!(seen[0].cmd, Command::Push);
    assert_eq!(seen[0].payload, b"hello".to_vec());
    assert_eq!(seen[0].frg, 0);
    assert_eq!(seen[0].sn, 1);
    assert_eq!(seen[0].ts, 10);
    assert_eq!(seen[0].wnd, 1024);
    assert_eq!(b.recv(), Ok(b"hello".to_vec()));
    assert_eq!(b.recv(), Err(KcpError::WouldBlock));
    let back = carry(b.update(10), &mut a);
    assert_eq!(back.len(), 1);
    assert_eq!(back[0].cmd, Command::Ack);
    assert_eq!(back[0].sn, 1);
    assert_eq!(back[0].ts, 10);
    assert_eq!(back[0].una, 2);
    assert_eq!(a.tx.snd_una, 2);
    assert_eq!(a.tx.snd_nxt, 2);
    assert!(a.tx.buf.is_empty());
    assert!(carry(a.update(20), &mut b).is_empty());
    assert!(carry(b.update(20), &mut a).is_empty());
}

#[test]
fn message_is_cut_into_pieces() {
    let cfg = KcpConfig::default();
    let mut s = Sender::new(1, cfg, 100);
    let data: Vec<u8> = (0..250u32).map(|i| i as u8).collect();
    assert_eq!(s.send(&data), Ok(()));
    assert_eq!(s.queue.len(), 3);
    assert_eq!(s.queue[0].frg, 2);
    assert_eq!(s.queue[1].frg, 1);
    assert_eq!(s.queue[2].frg, 0);
    assert_eq!(s.queue[0].payload, data[..100].to_vec());
    assert_eq!(s.queue[1].payload, data[100..200].to_vec());
    assert_eq!(s.queue[2].payload, data[200..].to_vec());
    assert_eq!(s.send(&data[..200]), Ok(()));
    assert_eq!(s.queue.len(), 5);
    assert_eq!(s.queue[3].frg, 1);
    assert_eq!(s.queue[4].payload.len(), 100);
    assert_eq!(s.send(&[]), Ok(()));
    assert_eq!(s.queue.len(), 5);
    assert_eq!(s.send(&[9]), Ok(()));
    assert_eq!(s.queue[5].payload, vec![9]);
    assert_eq!(s.queue[5].frg, 0);
    assert!(s.queue.iter().all(|q| q.cmd == Command::Push && q.conv == 1));
}

#[test]
fn full_queue_and_long_message_are_refused() {
    let cfg = KcpConfig { send_queue_max: 4, ..KcpConfig::default() };
    let mut s = Sender::new(1, cfg, 10);
    assert_eq!(s.send(&[0u8; 41]), Err(KcpError::SendQueueFull));
    assert_eq!(s.queue.len(), 0);
    assert_eq!(s.send(&[0u8; 40]), Ok(()));
    assert_eq!(s.queue.len(), 4);
    assert_eq!(s.send(&[0u8; 1]), Err(KcpError::SendQueueFull));
    assert_eq!(s.send(&[]), Ok(()));
    let mut wide = Sender::new(1, KcpConfig::default(), 10);
    assert_eq!(wide.send(&[0u8; 2560]), Ok(()));
    assert_eq!(wide.queue.len(), 256);
    assert_eq!(wide.queue[0].frg, 255);
    assert_eq!(wide.send(&[0u8; 2561]), Err(KcpError::SendQueueFull));
    assert_eq!(wide.queue.len(), 256);
}

#[test]
fn out_of_order_segments_wait_for_the_gap() {
    let mut r = Receiver::new(8);
    r.on_push(push(2, 0, b"c"));
    r.on_push(push(1, 1, b"b"));
    assert_eq!(r.rcv_nxt, 0);
    assert_eq!(r.buf.len(), 2);
    assert_eq!(r.buf[0].sn, 1);
    assert_eq!(r.buf[1].sn, 2);
    assert_eq!(r.recv(), Err(KcpError::WouldBlock));
    assert_eq!(r.highest, 3);
    r.on_push(push(0, 2, b"a"));
    assert_eq!(r.rcv_nxt, 3);
    assert_eq!(r.buf.len(), 0);
    assert_eq!(r.queue.len(), 3);
    assert_eq!(r.acks.len(), 3);
    assert_eq!(r.highest, 3);
    assert!(r.acks.iter().all(|a| a.sn < r.highest));
    assert_eq!(r.window(), 5);
    assert_eq!(r.recv(), Ok(b"abc".to_vec()));
    assert_eq!(r.window(), 8);
    assert_eq!(r.recv(), Err(KcpError::WouldBlock));
}

#[test]
fn incomplete_message_is_not_handed_out() {
    let mut r = Receiver::new(8);
    r.on_push(push(0, 1, b"a"));
    assert_eq!(r.queue.len(), 1);
    assert_eq!(r.recv(), Err(KcpError::WouldBlock));
    assert_eq!(r.queue.len(), 1);
    r.on_push(push(1, 0, b"b"));
    r.on_push(push(2, 0, b"c"));
    assert_eq!(r.recv(), Ok(b"ab".to_vec()));
    assert_eq!(r.recv(), Ok(b"c".to_vec()));
}

#[test]
fn duplicate_push_is_dropped_and_acked_again() {
    let mut r = Receiver::new(8);
    r.on_push(push(0, 0, b"a"));
    r.on_push(push(1, 0, b"b"));
    assert_eq!(r.rcv_nxt, 2);
    assert_eq!(r.acks.len(), 2);
    r.on_push(Segment { ts: 99, ..push(0, 0, b"a") });
    assert_eq!(r.rcv_nxt, 2);
    assert_eq!(r.queue.len(), 2);
    assert_eq!(r.buf.len(), 0);
    assert_eq!(r.acks.len(), 3);
    assert_eq!(r.acks[2].sn, 0);
    assert_eq!(r.acks[2].ts, 99);
    // One that waits in the buffer already.
    r.on_push(push(4, 0, b"e"));
    r.on_push(push(4, 0, b"x"));
    assert_eq!(r.buf.len(), 1);
    assert_eq!(r.buf[0].payload, b"e".to_vec());
    assert_eq!(r.acks.len(), 5);
    assert_eq!(r.rcv_nxt, 2);
}

#[test]
fn segment_beyond_the_window_is_ignored() {
    let mut r = Receiver::new(4);
    r.on_push(push(4, 0, b"x"));
    assert_eq!(r.buf.len(), 0);
    assert_eq!(r.acks.len(), 0);
    r.on_push(push(3, 0, b"d"));
    assert_eq!(r.buf.len(), 1);
    assert_eq!(r.acks.len(), 1);
    r.on_push(push(u32::MAX, 0, b"x"));
    assert_eq!(r.buf.len(), 1);
    assert_eq!(r.acks.len(), 1);
}

#[test]
fn full_queue_holds_segments_back() {
    let mut r = Receiver::new(2);
    r.on_push(push(0, 1, b"a"));
    r.on_push(push(1, 0, b"b"));
    assert_eq!(r.queue.len(), 2);
    assert_eq!(r.window(), 0);
    assert_eq!(r.rcv_nxt, 2);
    r.on_push(push(2, 0, b"c"));
    assert_eq!(r.queue.len(), 2);
    assert_eq!(r.buf.len(), 1);
    assert_eq!(r.rcv_nxt, 2);
    assert_eq!(r.recv(), Ok(b"ab".to_vec()));
    assert_eq!(r.rcv_nxt, 3);
    assert_eq!(r.queue.len(), 1);
    assert_eq!(r.buf.len(), 0);
    assert_eq!(r.recv(), Ok(b"c".to_vec()));
}

#[test]
fn pull_skips_messages_without_bytes() {
    let mut r = Receiver::new(8);
    r.on_push(push(0, 0, b""));
    r.on_push(push(1, 1, b""));
    r.on_push(push(2, 0, b""));
    r.on_push(push(3, 0, b"data"));
    assert_eq!(r.pull(), b"data".to_vec());
    assert_eq!(r.queue.len(), 0);
    assert_eq!(r.pull(), Vec::<u8>::new());
}

#[test]
fn ack_removes_the_segment_and_moves_una() {
    let cfg = KcpConfig { nc: true, ..KcpConfig::default() };
    let mut s = Sender::new(1, cfg, 100);
    s.send(&[0u8; 400]).unwrap();
    s.launch(0);
    assert_eq!(s.snd_nxt, 4);
    assert_eq!(s.snd_una, 0);
    assert_eq!(s.buf.len(), 4);
    assert_eq!(s.buf[3].seg.sn, 3);
    assert_eq!(s.buf[0].resendts, 225);
    assert_eq!(s.buf[0].rto, 200);

    s.on_ack(2, 0, 30);
    assert_eq!(s.buf.len(), 3);
    assert!(s.buf.iter().all(|e| e.seg.sn != 2));
    assert_eq!(s.snd_una, 0);
    assert_eq!(s.buf[0].fastack, 1);
    assert_eq!(s.buf[1].fastack, 1);
    assert_eq!(s.buf[2].fastack, 0);
    assert_eq!(s.rtt, Rtt { srtt: 30, rttvar: 15, rto: 100 });

    s.on_ack(0, 0, 30);
    assert_eq!(s.snd_una, 1);
    assert_eq!(s.buf[0].seg.sn, 1);
    assert_eq!(s.buf[0].fastack, 1);

    // An acknowledgement for a segment that is gone changes no buffer.
    s.on_ack(0, 40, 30);
    assert_eq!(s.buf.len(), 2);
    assert_eq!(s.snd_una, 1);
    assert_eq!(s.rtt.srtt, 30);

    s.on_una(4);
    assert_eq!(s.buf.len(), 0);
    assert_eq!(s.snd_una, 4);
    assert_eq!(s.snd_una, s.snd_nxt);
    assert!(s.is_idle());
}

#[test]
fn una_removes_everything_below() {
    let cfg = KcpConfig { nc: true, ..KcpConfig::default() };
    let mut s = Sender::new(1, cfg, 100);
    s.send(&[0u8; 500]).unwrap();
    s.launch(0);
    s.on_una(3);
    assert_eq!(s.buf.len(), 2);
    assert_eq!(s.buf[0].seg.sn, 3);
    assert_eq!(s.snd_una, 3);
    s.on_una(1);
    assert_eq!(s.buf.len(), 2);
    assert_eq!(s.snd_una, 3);
    s.on_una(1000);
    assert_eq!(s.buf.len(), 0);
    assert_eq!(s.snd_una, 5);
}

#[test]
fn window_limits_what_is_in_flight() {
    let cfg = KcpConfig { snd_wnd: 3, nc: true, ..KcpConfig::default() };
    let mut s = Sender::new(1, cfg, 10);
    s.send(&[0u8; 100]).unwrap();
    assert_eq!(s.window(), 3);
    s.launch(0);
    assert_eq!(s.buf.len(), 3);
    assert_eq!(s.queue.len(), 7);
    s.launch(0);
    assert_eq!(s.buf.len(), 3);
    s.on_ack(0, 0, 0);
    s.launch(0);
    assert_eq!(s.buf.len(), 3);
    assert_eq!(s.snd_nxt, 4);
    s.rmt_wnd = 0;
    s.on_una(4);
    s.launch(0);
    assert_eq!(s.buf.len(), 0);
    s.rmt_wnd = 2;
    assert_eq!(s.window(), 2);
    s.launch(0);
    assert_eq!(s.buf.len(), 2);

    let slow = KcpConfig { snd_wnd: 3, ..KcpConfig::default() };
    let mut c = Sender::new(1, slow, 10);
    assert_eq!(c.cwnd, 1);
    assert_eq!(c.window(), 1);
    c.send(&[0u8; 100]).unwrap();
    c.launch(0);
    assert_eq!(c.buf.len(), 1);
}

#[test]
fn congestion_window_opens_with_acknowledgements() {
    let cfg = KcpConfig::default();
    let mut s = Sender::new(1, cfg, 1000);
    assert_eq!((s.cwnd, s.ssthresh, s.incr), (1, 2, 0));
    s.send(&[0u8; 1000]).unwrap();
    s.launch(0);
    s.on_ack(0, 0, 0);
    // Below the threshold: one more segment.
    assert_eq!((s.cwnd, s.incr), (2, 0));
    s.send(&[0u8; 5000]).unwrap();
    s.launch(0);
    assert_eq!(s.buf.len(), 2);
    s.on_ack(1, 0, 0);
    // At the threshold: mss / cwnd bytes towards the next segment.
    assert_eq!((s.cwnd, s.incr), (2, 500));
    s.on_ack(2, 0, 0);
    assert_eq!((s.cwnd, s.incr), (3, 0));
    s.launch(0);
    assert_eq!(s.buf.len(), 3);
    s.on_ack(3, 0, 0);
    assert_eq!((s.cwnd, s.incr), (3, 333));
    // An acknowledgement that removes nothing opens nothing.
    s.on_ack(3, 0, 0);
    assert_eq!((s.cwnd, s.incr), (3, 333));
}

#[test]
fn congestion_window_closes_after_loss() {
    let cfg = KcpConfig { resend: 2, ..KcpConfig::default() };
    let mut s = Sender::new(1, cfg, 1000);
    s.cwnd = 40;
    s.ssthresh = 64;
    s.incr = 5;
    s.react(Outcome { lost: false, fast: false, dead: false });
    assert_eq!((s.cwnd, s.ssthresh, s.incr), (40, 64, 5));
    s.react(Outcome { lost: true, fast: false, dead: false });
    assert_eq!((s.cwnd, s.ssthresh, s.incr), (1, 20, 0));
    s.cwnd = 40;
    s.send(&[0u8; 20_000]).unwrap();
    s.launch(0);
    assert_eq!(s.snd_nxt - s.snd_una, 20);
    s.react(Outcome { lost: false, fast: true, dead: false });
    // In flight 20: threshold 10, window threshold and resend.
    assert_eq!((s.cwnd, s.ssthresh, s.incr), (12, 10, 0));
    s.on_una(19);
    assert_eq!(s.snd_nxt - s.snd_una, 1);
    s.react(Outcome { lost: false, fast: true, dead: false });
    assert_eq!((s.cwnd, s.ssthresh), (4, 2));
    s.react(Outcome { lost: true, fast: true, dead: false });
    assert_eq!((s.cwnd, s.ssthresh), (1, 2));

    let off = KcpConfig { nc: true, ..KcpConfig::default() };
    let mut n = Sender::new(1, off, 1000);
    assert_eq!(n.cwnd, 1024);
    n.react(Outcome { lost: true, fast: true, dead: false });
    assert_eq!(n.cwnd, 1024);
}

#[test]
fn timeout_sends_again_and_backs_off() {
    let (mut a, mut b) = established(KcpConfig::default());
    a.send(b"x").unwrap();
    let first = a.update(10);
    assert_eq!(first.len(), 1);
    assert_eq!(a.tx.buf[0].xmit, 1);
    // The handshake measured a round trip of 0 ms: rto is rto_min.
    assert_eq!(a.tx.rtt.rto, 100);
    assert_eq!(a.tx.buf[0].rto, 100);
    assert_eq!(a.tx.buf[0].resendts, 10 + 100 + 12);
    assert_eq!(a.check(10), 20);
    assert!(a.update(20).is_empty());
    assert!(a.update(120).is_empty());
    assert_eq!(a.check(120), 122);
    let again = a.update(130);
    assert_eq!(again.len(), 1);
    assert_eq!(a.tx.buf[0].xmit, 2);
    assert_eq!(a.tx.buf[0].rto, 200);
    assert_eq!(a.tx.buf[0].resendts, 330);
    assert_eq!((a.tx.cwnd, a.tx.ssthresh), (1, 2));
    let seen = carry(again, &mut b);
    assert_eq!(seen[0].sn, 1);
    assert_eq!(seen[0].ts, 130);
    assert_eq!(b.recv(), Ok(b"x".to_vec()));
}

#[test]
fn nodelay_backs_off_by_half() {
    let cfg = KcpConfig { nodelay: true, ..KcpConfig::default() };
    let (mut a, _b) = established(cfg);
    a.send(b"x").unwrap();
    a.update(10);
    assert_eq!(a.tx.buf[0].resendts, 110);
    a.update(110);
    assert_eq!(a.tx.buf[0].xmit, 2);
    assert_eq!(a.tx.buf[0].rto, 150);
    assert_eq!(a.tx.buf[0].resendts, 260);
}

#[test]
fn timeout_stops_at_rto_max() {
    let cfg = KcpConfig { rto_max: 250, ..KcpConfig::default() };
    let (mut a, _b) = established(cfg);
    a.send(b"x").unwrap();
    a.update(10);
    a.update(130);
    assert_eq!(a.tx.buf[0].rto, 200);
    a.update(330);
    assert_eq!(a.tx.buf[0].rto, 250);
    a.update(580);
    assert_eq!(a.tx.buf[0].rto, 250);
    assert_eq!(a.tx.buf[0].xmit, 4);
}

#[test]
fn passed_over_segment_leaves_at_once() {
    let cfg = KcpConfig { resend: 2, nc: true, ..KcpConfig::default() };
    let (mut a, mut b) = established(cfg);
    a.send(b"one").unwrap();
    a.send(b"two").unwrap();
    a.send(b"three").unwrap();
    let out = a.update(10);
    let segs = Segment::decode_all(&out[0]).unwrap();
    assert_eq!(segs.len(), 3);
    // The first is lost; the other two arrive.
    let mut rest = Vec::new();
    segs[1].encode(&mut rest);
    segs[2].encode(&mut rest);
    b.input(&rest).unwrap();
    carry(b.update(10), &mut a);
    assert_eq!(a.tx.buf.len(), 1);
    assert_eq!(a.tx.buf[0].seg.sn, 1);
    assert_eq!(a.tx.buf[0].fastack, 2);
    let again = carry(a.update(20), &mut b);
    assert_eq!(again.len(), 1);
    assert_eq!(again[0].sn, 1);
    assert_eq!(a.tx.buf[0].xmit, 2);
    assert_eq!(a.tx.buf[0].fastack, 0);
    // Fast retransmission leaves the timeout as it was.
    assert_eq!(a.tx.buf[0].rto, 100);
    assert_eq!(a.tx.buf[0].resendts, 120);
    assert_eq!(b.recv(), Ok(b"one".to_vec()));
    assert_eq!(b.recv(), Ok(b"two".to_vec()));
    assert_eq!(b.recv(), Ok(b"three".to_vec()));
}

#[test]
fn segments_are_packed_up_to_the_mtu() {
    let cfg = KcpConfig { mtu: 100, nc: true, ..KcpConfig::default() };
    let (mut a, _b) = established(cfg);
    for _ in 0..5 {
        a.send(&[1u8; 10]).unwrap();
    }
    let out = a.update(10);
    // 34 bytes a segment, two to a datagram of at most 100 bytes.
    assert_eq!(out.iter().map(|d| d.len()).collect::<Vec<_>>(), vec![68, 68, 34]);
    assert!(out.iter().all(|d| d.len() <= 100));
}

#[test]
fn shut_window_is_probed() {
    let cfg = KcpConfig { rcv_wnd: 1, nc: true, ..KcpConfig::default() };
    let (mut a, mut b) = established(cfg);
    a.send(b"1").unwrap();
    a.send(b"2").unwrap();
    carry(a.update(10), &mut b);
    assert_eq!(b.rx.window(), 0);
    let acks = carry(b.update(10), &mut a);
    assert_eq!(acks[0].wnd, 0);
    assert_eq!(a.tx.rmt_wnd, 0);
    assert!(carry(a.update(20), &mut b).is_empty());
    assert_eq!(a.probe.wait, 7000);
    assert_eq!(a.probe.ts, 7020);
    assert_eq!(b.recv(), Ok(b"1".to_vec()));
    assert!(a.update(7010).is_empty());
    let ask = carry(a.update(7020), &mut b);
    assert_eq!(ask.len(), 1);
    assert_eq!(ask[0].cmd, Command::Wask);
    assert_eq!(a.probe.wait, 10500);
    assert_eq!(a.probe.ts, 17520);
    let tell = carry(b.update(7020), &mut a);
    assert_eq!(tell.len(), 1);
    assert_eq!(tell[0].cmd, Command::Wins);
    assert_eq!(tell[0].wnd, 1);
    assert_eq!(a.tx.rmt_wnd, 1);
    let data = carry(a.update(7030), &mut b);
    assert_eq!(data.len(), 1);
    assert_eq!(data[0].payload, b"2".to_vec());
    assert_eq!(a.probe.wait, 0);
    assert_eq!(b.recv(), Ok(b"2".to_vec()));
}

#[test]
fn malformed_datagram_changes_nothing() {
    let (mut a, mut b) = established(KcpConfig::default());
    a.send(b"hello").unwrap();
    let out = a.update(10);
    let mut torn = out[0].clone();
    torn.extend_from_slice(&[1, 2, 3]);
    assert_eq!(b.input(&torn), Err(KcpError::InvalidSegment));
    assert_eq!(b.rx.rcv_nxt, 1);
    assert_eq!(b.rx.acks.len(), 0);
    assert_eq!(b.recv(), Err(KcpError::WouldBlock));
    assert_eq!(b.input(&out[0]), Ok(out[0].len()));
    assert_eq!(b.recv(), Ok(b"hello".to_vec()));
}

#[test]
fn segments_of_other_conversations_are_ignored() {
    let (_a, mut b) = established(KcpConfig::default());
    let mut d = Vec::new();
    Segment { conv: 8, ..push(1, 0, b"x") }.encode(&mut d);
    assert_eq!(b.input(&d), Ok(d.len()));
    assert_eq!(b.rx.rcv_nxt, 1);
    assert_eq!(b.rx.acks.len(), 0);
}

#[test]
fn write_after_close_is_refused() {
    let (mut a, _b) = established(KcpConfig::default());
    a.close();
    assert_eq!(a.state, StreamState::Closing);
    assert_eq!(a.send(b"late"), Err(KcpError::StreamClosed));
    assert_eq!(a.tx.queue.len(), 1);
    assert_eq!(a.tx.queue[0].cmd, Command::Fin);
    a.close();
    assert_eq!(a.tx.queue.len(), 1);
}

#[test]
fn closing_stream_gives_up_after_the_linger_time() {
    let (mut a, _b) = established(KcpConfig::default());
    a.update(100);
    a.close();
    assert_eq!(a.close_at, 5100);
    a.update(5090);
    assert_eq!(a.state, StreamState::Closing);
    assert!(a.update(5100).is_empty());
    assert_eq!(a.state, StreamState::Closed);
    assert_eq!(a.error, None);
    assert_eq!(a.recv(), Err(KcpError::StreamClosed));
    assert_eq!(a.send(b"x"), Err(KcpError::StreamClosed));
}

#[test]
fn both_ends_close() {
    let (mut a, mut b) = established(KcpConfig::default());
    a.send(b"bye").unwrap();
    a.close();
    let seen = carry(a.update(10), &mut b);
    assert_eq!(seen.iter().map(|s| s.cmd).collect::<Vec<_>>(), vec![Command::Push]);
    carry(b.update(10), &mut a);
    let fin = carry(a.update(20), &mut b);
    assert_eq!(fin.len(), 1);
    assert_eq!(fin[0].cmd, Command::Fin);
    assert_eq!(fin[0].sn, 2);
    assert!(b.rx.peer_fin);
    assert_eq!(b.state, StreamState::Established);
    assert_eq!(b.recv(), Ok(b"bye".to_vec()));
    b.close();
    carry(b.update(20), &mut a);
    assert!(a.rx.peer_fin);
    assert_eq!(a.state, StreamState::Closing);
    carry(a.update(30), &mut b);
    assert_eq!(a.state, StreamState::Closed);
    assert_eq!(a.error, None);
    b.update(30);
    assert_eq!(b.state, StreamState::Closed);
    assert!(a.update(40).is_empty());
    assert!(b.update(40).is_empty());
}

#[test]
fn aborted_stream_reports_why() {
    let (mut a, _b) = established(KcpConfig::default());
    a.abort(KcpError::TransportClosed);
    assert_eq!(a.state, StreamState::Closed);
    assert_eq!(a.recv(), Err(KcpError::TransportClosed));
    assert_eq!(a.send(b"x"), Err(KcpError::StreamClosed));
    a.abort(KcpError::DeadLink);
    assert_eq!(a.error, Some(KcpError::TransportClosed));
    assert!(a.update(10).is_empty());
}

#[test]
fn silent_link_is_declared_dead() {
    let cfg = KcpConfig { dead_link: 3, ..KcpConfig::default() };
    let mut a = KcpCore::new(7, cfg, 0, true);
    let mut now = 0u32;
    let mut sent = 0;
    while a.state != StreamState::Closed {
        sent += a.update(now).len();
        now += 10;
        assert!(now < 10_000);
    }
    // Timeouts of 225, 400 and 800 ms: the third makes the fourth
    // transmission, one more than the limit.
    assert_eq!(a.error, Some(KcpError::DeadLink));
    assert_eq!(sent, 4);
    assert_eq!(a.tx.buf[0].xmit, 4);
    assert_eq!(now - 10, 230 + 400 + 800);
    assert_eq!(a.recv(), Err(KcpError::DeadLink));
    assert!(a.update(now).is_empty());
}
