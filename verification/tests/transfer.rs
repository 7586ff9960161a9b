use ap_kcp::config::KcpConfig;
use ap_kcp::error::KcpError;
use ap_kcp::kcp::StreamState;
use ap_kcp::mux::Mux;
use ap_kcp::segment::{Command, Segment};

const CONV: u32 = 42;

/// What a test does with a datagram on its way.
#[derive(Clone, Copy, PartialEq)]
enum Fate {
    Deliver,
    Drop,
}

/// A deterministic source of numbers for losses and shuffles.
struct Lcg(u64);

impl Lcg {
    fn next(&mut self) -> u32 {
        self.0 = self.0.wrapping_mul(6364136223846793005).wrapping_add(1442695040888963407);
        (self.0 >> 33) as u32
    }
}

fn pattern(len: usize) -> Vec<u8> {
    let mut rng = Lcg(len as u64 + 1);
    (0..len).map(|_| rng.next() as u8).collect()
}

/// What holds of every engine at every time.
fn check_invariants(m: &Mux) {
    for s in m.streams.iter() {
        let tx = &s.core.tx;
        assert!(tx.snd_una <= tx.snd_nxt);
        let mut last = None;
        for e in tx.buf.iter() {
            assert!(tx.snd_una <= e.seg.sn && e.seg.sn < tx.snd_nxt);
            assert!(last.map_or(true, |l| l < e.seg.sn));
            last = Some(e.seg.sn);
        }
        match tx.buf.first() {
            Some(e) => assert_eq!(tx.snd_una, e.seg.sn),
            None => assert_eq!(tx.snd_una, tx.snd_nxt),
        }
        let rx = &s.core.rx;
        let mut last = None;
        for q in rx.queue.iter() {
            assert!(q.sn < rx.rcv_nxt);
            assert!(last.map_or(true, |l| l < q.sn));
            last = Some(q.sn);
        }
        let mut last = None;
        for b in rx.buf.iter() {
            assert!(b.sn >= rx.rcv_nxt);
            assert!(last.map_or(true, |l| l < b.sn));
            last = Some(b.sn);
        }
        assert!(rx.queue.len() <= rx.rcv_wnd as usize);
    }
}

/// Two multiplexers and the wire between them.
struct World {
    a: Mux,
    b: Mux,
    now: u32,
    /// Every segment that `a` put on the wire, delivered or not.
    wire_a: Vec<Segment>,
    /// Every segment that `b` put on the wire.
    wire_b: Vec<Segment>,
    una_a: u32,
    nxt_b: u32,
}

impl World {
    fn new(cfg: KcpConfig) -> World {
        World {
            a: Mux::new(cfg, 0),
            b: Mux::new(cfg, 0),
            now: 0,
            wire_a: Vec::new(),
            wire_b: Vec::new(),
            una_a: 0,
            nxt_b: 0,
        }
    }

    /// One tick: both sides update, and what the test lets through arrives.
    fn tick(&mut self, fate_ab: &mut dyn FnMut(&[Segment]) -> Fate, fate_ba: &mut dyn FnMut(&[Segment]) -> Fate) {
        for d in self.a.update(self.now) {
            let segs = Segment::decode_all(&d).unwrap();
            let fate = fate_ab(&segs);
            self.wire_a.extend(segs);
            if fate == Fate::Deliver {
                assert_eq!(self.b.input(&d), Ok(d.len()));
            }
        }
        for d in self.b.update(self.now) {
            let segs = Segment::decode_all(&d).unwrap();
            let fate = fate_ba(&segs);
            self.wire_b.extend(segs);
            if fate == Fate::Deliver {
                assert_eq!(self.a.input(&d), Ok(d.len()));
            }
        }
        check_invariants(&self.a);
        check_invariants(&self.b);
        if let Some(s) = self.a.streams.first() {
            assert!(s.core.tx.snd_una >= self.una_a);
            self.una_a = s.core.tx.snd_una;
        }
        if let Some(s) = self.b.streams.first() {
            assert!(s.core.rx.rcv_nxt >= self.nxt_b);
            self.nxt_b = s.core.rx.rcv_nxt;
        }
        self.now += 10;
    }

    /// Sends `data` from `a` to `b` and returns what `b` read.
    fn transfer(
        &mut self,
        data: &[u8],
        limit_ms: u32,
        fate_ab: &mut dyn FnMut(&[Segment]) -> Fate,
        fate_ba: &mut dyn FnMut(&[Segment]) -> Fate,
    ) -> Vec<u8> {
        self.a.connect_with(CONV).unwrap();
        let mut sent = 0;
        let mut got = Vec::new();
        let mut accepted = false;
        while got.len() < data.len() {
            if sent < data.len() {
                match self.a.write(CONV, &data[sent..]) {
                    Ok(n) => sent += n,
                    Err(KcpError::WouldBlock) => {}
                    Err(e) => panic!("write failed: {:?}", e),
                }
            }
            self.tick(fate_ab, fate_ba);
            if !accepted {
                accepted = self.b.accept().is_ok();
            }
            if accepted {
                loop {
                    match self.b.read(CONV, 1 << 20) {
                        Ok(bytes) if !bytes.is_empty() => got.extend(bytes),
                        Ok(_) => break,
                        Err(KcpError::WouldBlock) => break,
                        Err(e) => panic!("read failed: {:?}", e),
                    }
                }
            }
            assert!(self.now < limit_ms, "transfer took too long");
        }
        got
    }
}

fn deliver(_: &[Segment]) -> Fate {
    Fate::Deliver
}

#[test]
fn handshake_counts_one_stream_on_both_sides() {
    let mut w = World::new(KcpConfig::default());
    assert_eq!(w.a.stream_count(), 0);
    let handle = w.a.connect_with(CONV).unwrap();
    assert_eq!(handle.conv, CONV);
    assert_eq!(w.a.stream_count(), 1);
    assert_eq!(w.b.stream_count(), 0);
    assert_eq!(w.b.accept().err(), Some(KcpError::WouldBlock));
    w.tick(&mut deliver, &mut deliver);
    assert_eq!(w.wire_a.len(), 1);
    assert_eq!(w.wire_a[0].cmd, Command::Syn);
    assert_eq!(w.wire_a[0].conv, CONV);
    assert_eq!(w.b.stream_count(), 1);
    let accepted = w.b.accept().unwrap();
    assert_eq!(accepted.conv, CONV);
    assert_ne!(accepted.token, u64::MAX);
    assert_eq!(w.b.accept().err(), Some(KcpError::WouldBlock));
    assert_eq!(w.a.streams[0].core.state, StreamState::Established);
    assert_eq!(w.b.streams[0].core.state, StreamState::Established);
    assert_eq!(w.a.stream_count(), 1);
    assert_eq!(w.b.stream_count(), 1);
    w.tick(&mut deliver, &mut deliver);
    assert_eq!(w.wire_a.len(), 1);
    assert_eq!(w.wire_b.len(), 1);
}

#[test]
fn small_message() {
    let mut w = World::new(KcpConfig::default());
    let got = w.transfer(b"hello", 1000, &mut deliver, &mut deliver);
    assert_eq!(got, b"hello".to_vec());
    for _ in 0..50 {
        w.tick(&mut deliver, &mut deliver);
    }
    let pushes: Vec<&Segment> = w.wire_a.iter().filter(|s| s.cmd == Command::Push).collect();
    assert_eq!(pushes.len(), 1);
    assert_eq!(pushes[0].payload, b"hello".to_vec());
    let acks: Vec<&Segment> =
        w.wire_b.iter().filter(|s| s.cmd == Command::Ack && s.sn == pushes[0].sn).collect();
    assert_eq!(acks.len(), 1);
    assert_eq!(w.wire_a.len(), 2);
    assert_eq!(w.wire_b.len(), 2);
}

#[test]
fn fragmentation_with_small_mtu() {
    let cfg = KcpConfig { mtu: 128, ..KcpConfig::default() };
    let mut w = World::new(cfg);
    let data = pattern(1024);
    let got = w.transfer(&data, 5000, &mut deliver, &mut deliver);
    assert_eq!(got, data);
    let pushes: Vec<&Segment> = w.wire_a.iter().filter(|s| s.cmd == Command::Push).collect();
    assert!(pushes.len() >= 8);
    assert_eq!(pushes.len(), 10);
    let frgs: Vec<u8> = pushes.iter().map(|s| s.frg).collect();
    assert_eq!(frgs, vec![9, 8, 7, 6, 5, 4, 3, 2, 1, 0]);
    assert!(pushes.iter().all(|s| s.payload.len() <= 104));
    assert_eq!(pushes[9].payload.len(), 1024 - 9 * 104);
}

#[test]
fn every_third_push_is_lost() {
    let mut w = World::new(KcpConfig::default());
    let data = pattern(100 * 1024);
    let mut count = 0u32;
    let mut dropped: Vec<u32> = Vec::new();
    let mut fate = |segs: &[Segment]| {
        let mut fate = Fate::Deliver;
        for s in segs {
            if s.cmd == Command::Push {
                count += 1;
                if count % 3 == 0 {
                    fate = Fate::Drop;
                }
            }
        }
        if fate == Fate::Drop {
            dropped.extend(segs.iter().filter(|s| s.cmd == Command::Push).map(|s| s.sn));
        }
        fate
    };
    let got = w.transfer(&data, 600_000, &mut fate, &mut deliver);
    assert_eq!(got.len(), data.len());
    assert_eq!(got, data);
    assert!(!dropped.is_empty());
    for sn in dropped {
        let times = w.wire_a.iter().filter(|s| s.cmd == Command::Push && s.sn == sn).count();
        assert!(times > 1, "segment {} left {} time(s)", sn, times);
    }
}

#[test]
fn ten_percent_loss_both_ways() {
    let cfg = KcpConfig { resend: 2, nodelay: true, ..KcpConfig::default() };
    let mut w = World::new(cfg);
    let data = pattern(200 * 1024);
    let mut rng_ab = Lcg(1);
    let mut rng_ba = Lcg(2);
    let mut lose_ab = |_: &[Segment]| if rng_ab.next() % 10 == 0 { Fate::Drop } else { Fate::Deliver };
    let mut lose_ba = |_: &[Segment]| if rng_ba.next() % 10 == 0 { Fate::Drop } else { Fate::Deliver };
    let got = w.transfer(&data, 600_000, &mut lose_ab, &mut lose_ba);
    assert_eq!(got, data);
    assert!(w.now > 0);
    // Bytes for each millisecond of the transfer.
    assert!(data.len() as u32 / w.now > 0);
}

#[test]
fn shuffled_datagrams_give_the_same_bytes() {
    for seed in 0..5u64 {
        let cfg = KcpConfig { nc: true, ..KcpConfig::default() };
        let mut a = Mux::new(cfg, 0);
        let mut b = Mux::new(cfg, 0);
        a.connect_with(CONV).unwrap();
        for d in a.update(0) {
            b.input(&d).unwrap();
        }
        for d in b.update(0) {
            a.input(&d).unwrap();
        }
        let data = pattern(50_000 + seed as usize);
        let mut sent = 0;
        while sent < data.len() {
            sent += a.write(CONV, &data[sent..]).unwrap();
        }
        let mut datagrams = a.update(10);
        assert!(datagrams.len() > 30);
        let mut rng = Lcg(seed);
        for i in (1..datagrams.len()).rev() {
            let j = rng.next() as usize % (i + 1);
            datagrams.swap(i, j);
        }
        // Some arrive twice.
        let twice: Vec<Vec<u8>> = datagrams.iter().step_by(3).cloned().collect();
        for d in datagrams.iter().chain(twice.iter()) {
            assert_eq!(b.input(d), Ok(d.len()));
            check_invariants(&b);
        }
        b.accept().unwrap();
        let mut got = Vec::new();
        loop {
            match b.read(CONV, 1000) {
                Ok(bytes) if !bytes.is_empty() => got.extend(bytes),
                _ => break,
            }
        }
        assert_eq!(got, data);
    }
}

#[test]
fn payload_sizes_round_trip() {
    for len in [1usize, 2, 1375, 1376, 1377, 2752, 65_536, 352_256, 352_257, 1 << 20] {
        let mut w = World::new(KcpConfig::default());
        let data = pattern(len);
        let got = w.transfer(&data, 600_000, &mut deliver, &mut deliver);
        assert_eq!(got.len(), len);
        assert!(got == data, "payload of {} bytes differs", len);
    }
}

#[test]
fn sixty_four_mebibytes_round_trip() {
    let cfg = KcpConfig { nc: true, ..KcpConfig::default() };
    let mut w = World::new(cfg);
    let data = pattern(64 << 20);
    let got = w.transfer(&data, 600_000, &mut deliver, &mut deliver);
    assert_eq!(got.len(), data.len());
    assert!(got == data);
}

#[test]
fn reads_end_after_the_peer_closes() {
    let mut w = World::new(KcpConfig::default());
    w.a.connect_with(CONV).unwrap();
    let data = pattern(3000);
    assert_eq!(w.a.write(CONV, &data), Ok(3000));
    assert_eq!(w.a.close(CONV), Ok(()));
    assert_eq!(w.a.write(CONV, b"late"), Err(KcpError::StreamClosed));
    let mut got = Vec::new();
    let mut eof = false;
    while !eof {
        w.tick(&mut deliver, &mut deliver);
        let _ = w.b.accept();
        loop {
            match w.b.read(CONV, 700) {
                Ok(bytes) if bytes.is_empty() => {
                    eof = true;
                    break;
                }
                Ok(bytes) => {
                    assert!(bytes.len() <= 700);
                    got.extend(bytes);
                }
                Err(KcpError::WouldBlock) | Err(KcpError::UnknownConv) => break,
                Err(e) => panic!("read failed: {:?}", e),
            }
        }
        assert!(w.now < 5000);
    }
    assert_eq!(got, data);
    assert_eq!(w.b.read(CONV, 700), Ok(vec![]));
    assert_eq!(w.b.read(CONV, 700), Ok(vec![]));
    // The other direction is still open.
    assert_eq!(w.b.write(CONV, b"reply"), Ok(5));
    w.tick(&mut deliver, &mut deliver);
    assert_eq!(w.a.read(CONV, 100), Ok(b"reply".to_vec()));
    assert_eq!(w.b.close(CONV), Ok(()));
    for _ in 0..5 {
        w.tick(&mut deliver, &mut deliver);
    }
    assert_eq!(w.a.streams[0].core.state, StreamState::Closed);
    assert_eq!(w.b.streams[0].core.state, StreamState::Closed);
    assert_eq!(w.a.stream_count(), 0);
    assert_eq!(w.b.stream_count(), 0);
    assert_eq!(w.a.read(CONV, 100), Ok(vec![]));
    assert_eq!(w.a.write(CONV, b"x"), Err(KcpError::StreamClosed));
    w.a.reap();
    w.b.reap();
    assert_eq!(w.a.streams.len(), 0);
    assert_eq!(w.b.streams.len(), 0);
    assert_eq!(w.a.read(CONV, 100), Err(KcpError::UnknownConv));
}

#[test]
fn dead_link_closes_the_stream() {
    let cfg = KcpConfig::default();
    let mut w = World::new(cfg);
    w.a.connect_with(CONV).unwrap();
    w.a.write(CONV, b"anyone there?").unwrap();
    let mut drop_all = |_: &[Segment]| Fate::Drop;
    while w.a.streams[0].core.state != StreamState::Closed {
        w.tick(&mut drop_all, &mut deliver);
        // No stream outlives dead_link timeouts of rto_max each.
        assert!(w.now <= cfg.dead_link * cfg.rto_max);
    }
    assert_eq!(w.a.streams[0].core.error, Some(KcpError::DeadLink));
    assert_eq!(w.a.stream_count(), 0);
    assert_eq!(w.a.read(CONV, 10), Err(KcpError::DeadLink));
    assert_eq!(w.a.write(CONV, b"x"), Err(KcpError::DeadLink));
    assert_eq!(w.b.stream_count(), 0);
    // The opening segment left 21 times, one more than the limit.
    assert_eq!(w.wire_a.iter().filter(|s| s.cmd == Command::Syn).count(), 21);
    assert!(w.wire_a.iter().all(|s| s.cmd == Command::Syn));
}

#[test]
fn one_dead_stream_leaves_the_others_alone() {
    let cfg = KcpConfig { dead_link: 2, ..KcpConfig::default() };
    let mut w = World::new(cfg);
    w.a.connect_with(1).unwrap();
    w.a.connect_with(2).unwrap();
    let mut only_two = |segs: &[Segment]| {
        if segs.iter().all(|s| s.conv == 2) {
            Fate::Deliver
        } else {
            Fate::Drop
        }
    };
    // The two streams share no datagram: a datagram is one stream's flush.
    for _ in 0..500 {
        w.tick(&mut only_two, &mut deliver);
    }
    assert_eq!(w.a.streams[0].core.state, StreamState::Closed);
    assert_eq!(w.a.streams[0].core.error, Some(KcpError::DeadLink));
    assert_eq!(w.a.streams[1].core.state, StreamState::Established);
    assert_eq!(w.a.stream_count(), 1);
    assert_eq!(w.a.write(2, b"still here"), Ok(10));
    w.tick(&mut only_two, &mut deliver);
    assert_eq!(w.b.accept().map(|s| s.conv), Ok(2));
    assert_eq!(w.b.read(2, 100), Ok(b"still here".to_vec()));
}

#[test]
fn write_takes_what_the_queue_has_room_for() {
    let cfg = KcpConfig { send_queue_max: 4, mtu: 124, ..KcpConfig::default() };
    let mut m = Mux::new(cfg, 0);
    m.connect_with(CONV).unwrap();
    // The opening segment is in the queue: room for three of 100 bytes.
    assert_eq!(m.write(CONV, &[0u8; 1000]), Ok(300));
    assert_eq!(m.write(CONV, &[0u8; 1000]), Err(KcpError::WouldBlock));
    assert_eq!(m.write(CONV, &[]), Ok(0));
    assert_eq!(m.streams[0].core.tx.queue.len(), 4);
    assert_eq!(m.streams[0].core.tx.queue[1].frg, 2);
    assert_eq!(m.write(CONV + 1, b"x"), Err(KcpError::UnknownConv));
    assert_eq!(m.read(CONV + 1, 1), Err(KcpError::UnknownConv));
    assert_eq!(m.close(CONV + 1), Err(KcpError::UnknownConv));
    assert_eq!(m.read(CONV, 1), Err(KcpError::WouldBlock));
    let wide = KcpConfig { send_queue_max: 1000, mtu: 124, ..KcpConfig::default() };
    let mut m = Mux::new(wide, 0);
    m.connect_with(CONV).unwrap();
    // One message has at most 256 pieces.
    assert_eq!(m.write(CONV, &[0u8; 100_000]), Ok(25_600));
    assert_eq!(m.write(CONV, &[0u8; 150]), Ok(150));
    assert_eq!(m.streams[0].core.tx.queue.len(), 1 + 256 + 2);
}

#[test]
fn conversation_ids_are_not_given_twice() {
    let mut m = Mux::new(KcpConfig::default(), 0);
    let first = m.connect_with(5).unwrap();
    assert_eq!(m.connect_with(5).err(), Some(KcpError::ConvExists));
    let second = m.connect_with(6).unwrap();
    assert_ne!(first.token, second.token);
    assert_eq!(m.streams.len(), 2);
    assert_eq!(m.find(5), 0);
    assert_eq!(m.find(6), 1);
    assert_eq!(m.find(7), 2);
    let mut seen = vec![5, 6];
    for _ in 0..20 {
        let s = m.connect().unwrap();
        assert!(!seen.contains(&s.conv));
        seen.push(s.conv);
    }
    assert_eq!(m.stream_count(), 22);
}

#[test]
fn unknown_conversation_without_opening_is_dropped() {
    let cfg = KcpConfig::default();
    let mut m = Mux::new(cfg, 0);
    let mut d = Vec::new();
    Segment { conv: 9, cmd: Command::Push, frg: 0, wnd: 10, ts: 0, sn: 1, una: 0, payload: vec![1] }
        .encode(&mut d);
    assert_eq!(m.input(&d), Ok(d.len()));
    assert_eq!(m.streams.len(), 0);
    assert_eq!(m.dropped, 0);
    // The same segment in a datagram that bears the opening is taken in.
    Segment::control(9, Command::Syn, 10, 0, 0, 0).encode(&mut d);
    assert_eq!(m.input(&d), Ok(d.len()));
    assert_eq!(m.streams.len(), 1);
    assert_eq!(m.streams[0].core.rx.rcv_nxt, 2);
    assert_eq!(m.accept().map(|s| s.conv), Ok(9));
    assert_eq!(m.read(9, 10), Ok(vec![1]));
    assert_eq!(m.input(&[1, 2, 3]), Err(KcpError::InvalidSegment));
    assert_eq!(m.dropped, 1);
}

#[test]
fn full_backlog_drops_the_newest() {
    let cfg = KcpConfig { accept_queue_max: 2, ..KcpConfig::default() };
    let mut m = Mux::new(cfg, 0);
    for conv in 1..=3u32 {
        let mut d = Vec::new();
        Segment::control(conv, Command::Syn, 10, 0, 0, 0).encode(&mut d);
        assert_eq!(m.input(&d), Ok(d.len()));
    }
    assert_eq!(m.streams.len(), 2);
    assert_eq!(m.accept().map(|s| s.conv), Ok(1));
    assert_eq!(m.accept().map(|s| s.conv), Ok(2));
    assert_eq!(m.accept().err(), Some(KcpError::WouldBlock));
    let mut d = Vec::new();
    Segment::control(3, Command::Syn, 10, 0, 0, 0).encode(&mut d);
    m.input(&d).unwrap();
    assert_eq!(m.accept().map(|s| s.conv), Ok(3));
}

#[test]
fn failed_transport_closes_every_stream() {
    let mut w = World::new(KcpConfig::default());
    w.a.connect_with(1).unwrap();
    w.a.connect_with(2).unwrap();
    w.tick(&mut deliver, &mut deliver);
    w.a.fail();
    assert!(w.a.failed);
    assert_eq!(w.a.stream_count(), 0);
    assert_eq!(w.a.read(1, 10), Err(KcpError::TransportClosed));
    assert_eq!(w.a.read(2, 10), Err(KcpError::TransportClosed));
    assert_eq!(w.a.write(2, b"x"), Err(KcpError::TransportClosed));
    assert_eq!(w.a.connect_with(3).err(), Some(KcpError::TransportClosed));
    assert_eq!(w.a.connect().err(), Some(KcpError::TransportClosed));
    assert_eq!(w.a.accept().err(), Some(KcpError::TransportClosed));
    assert_eq!(w.a.input(&[]), Err(KcpError::TransportClosed));
    assert!(w.a.update(1000).is_empty());
}

#[test]
fn check_names_the_next_deadline() {
    let mut m = Mux::new(KcpConfig::default(), 0);
    assert_eq!(m.check(50), 60);
    m.connect_with(1).unwrap();
    assert_eq!(m.check(50), 0);
    m.update(50);
    assert_eq!(m.check(50), 60);
    m.update(60);
    assert_eq!(m.check(60), 70);
    assert_eq!(m.streams[0].core.tx.buf[0].resendts, 275);
    m.update(270);
    assert_eq!(m.check(270), 275);
}

#[test]
fn ready_streams_are_flushed_at_once() {
    let cfg = KcpConfig { nodelay: true, ..KcpConfig::default() };
    let mut a = Mux::new(cfg, 0);
    let mut b = Mux::new(cfg, 0);
    assert!(a.flush_ready().is_empty());
    a.connect_with(1).unwrap();
    a.connect_with(2).unwrap();
    assert!(a.streams[0].core.flush_now());
    let out = a.flush_ready();
    assert_eq!(out.len(), 2);
    assert!(!a.streams[0].core.flush_now());
    assert!(a.flush_ready().is_empty());
    for d in out {
        b.input(&d).unwrap();
    }
    // In no-delay mode the acknowledgements do not wait for the tick.
    assert!(b.streams[0].core.flush_now());
    let acks = b.flush_ready();
    assert_eq!(acks.len(), 2);
    assert!(b.flush_ready().is_empty());
    for d in acks {
        a.input(&d).unwrap();
    }
    assert_eq!(a.write(2, b"now"), Ok(3));
    assert!(!a.streams[0].core.flush_now());
    assert!(a.streams[1].core.flush_now());
    let out = a.flush_ready();
    assert_eq!(out.len(), 1);
    let segs = Segment::decode_all(&out[0]).unwrap();
    assert_eq!(segs.len(), 1);
    assert_eq!((segs[0].conv, segs[0].cmd), (2, Command::Push));

    // Without no-delay an acknowledgement waits for the tick.
    let mut slow = Mux::new(KcpConfig::default(), 0);
    slow.input(&{
        let mut d = Vec::new();
        Segment::control(1, Command::Syn, 10, 0, 0, 0).encode(&mut d);
        d
    })
    .unwrap();
    assert_eq!(slow.streams[0].core.rx.acks.len(), 1);
    assert!(!slow.streams[0].core.flush_now());
    assert!(slow.flush_ready().is_empty());
    assert_eq!(slow.update(0).len(), 1);
}
