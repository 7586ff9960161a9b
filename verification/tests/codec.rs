use ap_kcp::error::KcpError;
use ap_kcp::segment::{Command, Segment, HEADER_LEN};
use ap_kcp::wire::{get_u16, get_u32, put_u16, put_u32, put_u64};

fn sample() -> Segment {
    Segment {
        conv: 0x0403_0201,
        cmd: Command::Push,
        frg: 3,
        wnd: 0x0605,
        ts: 0x0a09_0807,
        sn: 0x0e0d_0c0b,
        una: 0x1211_100f,
        payload: vec![0xaa, 0xbb, 0xcc],
    }
}

fn same(a: &Segment, b: &Segment) -> bool {
    a.conv == b.conv
        && a.cmd == b.cmd
        && a.frg == b.frg
        && a.wnd == b.wnd
        && a.ts == b.ts
        && a.sn == b.sn
        && a.una == b.una
        && a.payload == b.payload
}

#[test]
fn integers_are_little_endian() {
    let mut out = Vec::new();
    put_u16(&mut out, 0x1234);
    put_u32(&mut out, 0xdead_beef);
    put_u64(&mut out, 0x0102_0304_0506_0708);
    assert_eq!(
        out,
        vec![0x34, 0x12, 0xef, 0xbe, 0xad, 0xde, 8, 7, 6, 5, 4, 3, 2, 1]
    );
    assert_eq!(get_u16(&out, 0), 0x1234);
    assert_eq!(get_u32(&out, 2), 0xdead_beef);
}

#[test]
fn segment_has_the_documented_layout() {
    let mut out = Vec::new();
    sample().encode(&mut out);
    assert_eq!(
        out,
        vec![
            1, 2, 3, 4, // conv
            81, // cmd
            3, // frg
            5, 6, // wnd
            7, 8, 9, 10, // ts
            11, 12, 13, 14, // sn
            15, 16, 17, 18, // una
            3, 0, // len
            0, 0, // reserved
            0xaa, 0xbb, 0xcc,
        ]
    );
    assert_eq!(out.len(), HEADER_LEN + 3);
    assert_eq!(sample().encoded_len(), 27);
}

#[test]
fn command_codes_round_trip() {
    let all = [
        (Command::Push, 81u8),
        (Command::Ack, 82),
        (Command::Wask, 83),
        (Command::Wins, 84),
        (Command::Ping, 85),
        (Command::Fin, 86),
        (Command::Syn, 87),
    ];
    for (cmd, code) in all {
        assert_eq!(cmd.code(), code);
        assert_eq!(Command::from_code(code), Some(cmd));
    }
    assert_eq!(Command::from_code(0), None);
    assert_eq!(Command::from_code(80), None);
    assert_eq!(Command::from_code(88), None);
    assert!(Command::Push.is_sequenced());
    assert!(Command::Syn.is_sequenced());
    assert!(Command::Fin.is_sequenced());
    assert!(!Command::Ack.is_sequenced());
    assert!(!Command::Wask.is_sequenced());
    assert!(!Command::Wins.is_sequenced());
    assert!(!Command::Ping.is_sequenced());
}

#[test]
fn decode_gives_back_what_encode_wrote() {
    let mut out = Vec::new();
    let first = sample();
    let second = Segment::control(9, Command::Ack, 100, 5, 6, 7);
    let third = Segment { payload: vec![1u8; 1000], ..sample() };
    first.encode(&mut out);
    second.encode(&mut out);
    third.encode(&mut out);
    let back = Segment::decode_all(&out).unwrap();
    assert_eq!(back.len(), 3);
    assert!(same(&back[0], &first));
    assert!(same(&back[1], &second));
    assert!(same(&back[2], &third));
    let (one, next) = Segment::decode_at(&out, 27).unwrap();
    assert!(same(&one, &second));
    assert_eq!(next, 27 + 24);
}

#[test]
fn empty_datagram_holds_no_segment() {
    assert_eq!(Segment::decode_all(&[]).unwrap().len(), 0);
}

#[test]
fn longest_payload_round_trips() {
    let seg = Segment { payload: vec![7u8; 65535], ..sample() };
    let mut out = Vec::new();
    seg.encode(&mut out);
    let back = Segment::decode_all(&out).unwrap();
    assert_eq!(back.len(), 1);
    assert!(same(&back[0], &seg));
}

#[test]
fn short_read_fails_the_datagram() {
    let mut out = Vec::new();
    sample().encode(&mut out);
    assert_eq!(Segment::decode_all(&out[..23]).err(), Some(KcpError::InvalidSegment));
    assert_eq!(Segment::decode_all(&[1]).err(), Some(KcpError::InvalidSegment));
    // A whole segment followed by a torn header: nothing is delivered.
    let mut torn = out.clone();
    torn.extend_from_slice(&out[..10]);
    assert_eq!(Segment::decode_all(&torn).err(), Some(KcpError::InvalidSegment));
}

#[test]
fn unknown_command_fails_the_datagram() {
    let mut out = Vec::new();
    sample().encode(&mut out);
    out[4] = 99;
    assert_eq!(Segment::decode_all(&out).err(), Some(KcpError::InvalidSegment));
}

#[test]
fn length_past_the_end_fails_the_datagram() {
    let mut out = Vec::new();
    sample().encode(&mut out);
    out[20] = 4;
    assert_eq!(Segment::decode_all(&out).err(), Some(KcpError::InvalidSegment));
    out[20] = 3;
    assert!(Segment::decode_all(&out).is_ok());
    out.pop();
    assert_eq!(Segment::decode_all(&out).err(), Some(KcpError::InvalidSegment));
}

#[test]
fn reserved_bytes_are_not_read() {
    let mut out = Vec::new();
    sample().encode(&mut out);
    out[22] = 0xff;
    out[23] = 0xff;
    let back = Segment::decode_all(&out).unwrap();
    assert!(same(&back[0], &sample()));
}
