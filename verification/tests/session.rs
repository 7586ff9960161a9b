use ap_kcp::session::{copy_packet, Dispatch, SessionTable};
use ap_kcp::stream::KcpStream;

#[test]
fn known_peer_keeps_its_place() {
    let mut t = SessionTable::new();
    assert_eq!(t.len(), 0);
    assert_eq!(t.dispatch("10.0.0.1:5000".to_string(), true), Dispatch::Created(0));
    assert_eq!(t.dispatch("10.0.0.2:5000".to_string(), true), Dispatch::Created(1));
    assert_eq!(t.dispatch("10.0.0.1:5000".to_string(), true), Dispatch::Known(0));
    assert_eq!(t.dispatch("10.0.0.2:5000".to_string(), false), Dispatch::Known(1));
    assert_eq!(t.dispatch("10.0.0.1:5001".to_string(), true), Dispatch::Created(2));
    assert_eq!(t.len(), 3);
    assert_eq!(t.find(&"10.0.0.2:5000".to_string()), 1);
    assert_eq!(t.find(&"10.0.0.9:5000".to_string()), 3);
}

#[test]
fn unknown_peer_whose_datagram_does_not_open_gets_no_session() {
    let mut t = SessionTable::new();
    assert_eq!(t.dispatch("a".to_string(), false), Dispatch::Refused);
    assert_eq!(t.len(), 0);
    assert_eq!(t.dispatch("a".to_string(), true), Dispatch::Created(0));
    assert_eq!(t.dispatch("b".to_string(), false), Dispatch::Refused);
    assert_eq!(t.peers, vec!["a".to_string()]);
}

#[test]
fn closed_sessions_are_forgotten() {
    let mut t = SessionTable::new();
    for name in ["a", "b", "c", "d"] {
        t.dispatch(name.to_string(), true);
    }
    t.prune(&vec![false, true, false, true]);
    assert_eq!(t.peers, vec!["a".to_string(), "c".to_string()]);
    assert_eq!(t.dispatch("b".to_string(), true), Dispatch::Created(2));
    assert_eq!(t.dispatch("c".to_string(), true), Dispatch::Known(1));
    // A peer without a mark stays.
    t.prune(&vec![true]);
    assert_eq!(t.peers, vec!["c".to_string(), "b".to_string()]);
    t.prune(&vec![true, true, true]);
    assert_eq!(t.len(), 0);
}

#[test]
fn long_packet_is_not_copied() {
    let mut buf = vec![9u8; 4];
    assert_eq!(copy_packet(&[1, 2, 3, 4, 5], &mut buf), None);
    assert_eq!(buf, vec![9, 9, 9, 9]);
    assert_eq!(copy_packet(&[1, 2], &mut buf), Some(2));
    assert_eq!(buf, vec![1, 2, 9, 9]);
    assert_eq!(copy_packet(&[5, 6, 7, 8], &mut buf), Some(4));
    assert_eq!(buf, vec![5, 6, 7, 8]);
    assert_eq!(copy_packet(&[], &mut buf), Some(0));
    assert_eq!(buf, vec![5, 6, 7, 8]);
}

#[test]
fn halves_of_one_split_reunite() {
    let (reader, writer) = KcpStream { conv: 3, token: 10 }.split();
    assert_eq!((reader.conv, reader.token), (3, 10));
    assert_eq!((writer.conv, writer.token), (3, 10));
    assert_eq!(reader.reunite(writer), Ok(KcpStream { conv: 3, token: 10 }));
    let (r1, _w1) = KcpStream { conv: 3, token: 10 }.split();
    let (_r2, w2) = KcpStream { conv: 3, token: 11 }.split();
    let halves = r1.reunite(w2).unwrap_err();
    assert_eq!(halves.0.token, 10);
    assert_eq!(halves.1.token, 11);
    let (r3, _) = KcpStream { conv: 3, token: 10 }.split();
    let (_, w4) = KcpStream { conv: 4, token: 10 }.split();
    assert!(r3.reunite(w4).is_err());
}
