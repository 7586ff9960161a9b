use ap_kcp::config::{KcpConfig, CRYPTO_OVERHEAD};
use ap_kcp::crypto::{derive_key, frame, get_algorithm, AeadCrypto, Algorithm, NONCE_LEN, TAG_LEN};
use ap_kcp::error::KcpError;
use ap_kcp::mux::Mux;

fn hex(bytes: &[u8]) -> String {
    let mut s = String::new();
    for b in bytes {
        s.push_str(&format!("{:02x}", b));
    }
    s
}

#[test]
fn key_is_the_digest_of_the_password() {
    let c = AeadCrypto::with_prefix(b"password", Algorithm::Aes256Gcm, &[1, 2, 3, 4]);
    assert_eq!(
        hex(&c.key),
        "5e884898da28047151d0e56f8dc6292773603d0d6aabbdd62a11ef721d1542d8"
    );
    assert_eq!(c.prefix, vec![1, 2, 3, 4]);
    assert_eq!(c.counter, 0);
    let short = AeadCrypto::with_prefix(b"password", Algorithm::Aes128Gcm, &[0; 4]);
    assert_eq!(hex(&short.key), "5e884898da28047151d0e56f8dc62927");
    let chacha = AeadCrypto::with_prefix(b"password", Algorithm::ChaCha20Poly1305, &[0; 4]);
    assert_eq!(chacha.key.len(), 32);
}

#[test]
fn derive_key_cuts_the_digest() {
    let digest: Vec<u8> = (0u8..32).collect();
    assert_eq!(derive_key(&digest, Algorithm::Aes128Gcm), digest[..16].to_vec());
    assert_eq!(derive_key(&digest, Algorithm::Aes256Gcm), digest);
    assert_eq!(derive_key(&digest[..8], Algorithm::Aes256Gcm), digest[..8].to_vec());
    assert_eq!(frame(&[1, 2], &[3]), vec![1, 2, 3]);
}

#[test]
fn algorithm_names() {
    assert_eq!(Algorithm::from_name("aes-128-gcm"), Some(Algorithm::Aes128Gcm));
    assert_eq!(Algorithm::from_name("aes-256-gcm"), Some(Algorithm::Aes256Gcm));
    assert_eq!(Algorithm::from_name("chacha20-poly1305"), Some(Algorithm::ChaCha20Poly1305));
    assert_eq!(Algorithm::from_name("aes-256-gcm "), None);
    assert_eq!(Algorithm::from_name(""), None);
    assert_eq!(get_algorithm("aes-128-gcm"), Algorithm::Aes128Gcm);
    assert_eq!(get_algorithm("aes-256-gcm"), Algorithm::Aes256Gcm);
    assert_eq!(get_algorithm("chacha20-poly1305"), Algorithm::ChaCha20Poly1305);
    assert_eq!(Algorithm::Aes128Gcm.key_len(), 16);
    assert_eq!(Algorithm::Aes256Gcm.key_len(), 32);
    assert_eq!(Algorithm::ChaCha20Poly1305.key_len(), 32);
}

#[test]
fn aes_gcm_known_answer() {
    // The published answer of AES-128-GCM for a key, a nonce and sixteen
    // bytes of plaintext that are all zero.
    let mut c = AeadCrypto {
        algorithm: Algorithm::Aes128Gcm,
        key: vec![0; 16],
        prefix: vec![0; 4],
        counter: 0,
    };
    let packet = c.seal(&[0u8; 16]).unwrap();
    assert_eq!(hex(&packet[..12]), "000000000000000000000000");
    assert_eq!(hex(&packet[12..28]), "0388dace60b6a392f328c2b971b2fe78");
    assert_eq!(hex(&packet[28..]), "ab6e47d42cec13bdf53a67b21257bddf");
    assert_eq!(c.counter, 1);
    assert_eq!(c.open(&packet), Ok(vec![0u8; 16]));
}

#[test]
fn seal_then_open_gives_the_datagram() {
    for alg in [Algorithm::Aes128Gcm, Algorithm::Aes256Gcm, Algorithm::ChaCha20Poly1305] {
        let mut a = AeadCrypto::with_prefix(b"secret", alg, &[9, 9, 9, 9]);
        let b = AeadCrypto::with_prefix(b"secret", alg, &[0, 0, 0, 0]);
        let plain: Vec<u8> = (0..200u32).map(|i| (i * 7) as u8).collect();
        let packet = a.seal(&plain).unwrap();
        assert_eq!(packet.len(), plain.len() + NONCE_LEN + TAG_LEN);
        assert_eq!(packet.len(), plain.len() + CRYPTO_OVERHEAD as usize);
        assert_eq!(&packet[..4], &[9, 9, 9, 9]);
        assert_eq!(&packet[4..12], &[0, 0, 0, 0, 0, 0, 0, 0]);
        assert_ne!(&packet[12..12 + plain.len()], &plain[..]);
        assert_eq!(b.open(&packet), Ok(plain.clone()));
        let empty = a.seal(&[]).unwrap();
        assert_eq!(empty.len(), 28);
        assert_eq!(b.open(&empty), Ok(vec![]));
    }
}

#[test]
fn every_nonce_is_new() {
    let mut c = AeadCrypto::with_prefix(b"secret", Algorithm::ChaCha20Poly1305, &[1, 1, 1, 1]);
    let n0 = c.nonce();
    let p0 = c.seal(b"same").unwrap();
    let n1 = c.nonce();
    let p1 = c.seal(b"same").unwrap();
    assert_eq!(n0, vec![1, 1, 1, 1, 0, 0, 0, 0, 0, 0, 0, 0]);
    assert_eq!(n1, vec![1, 1, 1, 1, 1, 0, 0, 0, 0, 0, 0, 0]);
    assert_eq!(&p0[..12], &n0[..]);
    assert_eq!(&p1[..12], &n1[..]);
    assert_ne!(p0, p1);
    c.counter = 0x0102_0304_0506_0708;
    assert_eq!(c.nonce(), vec![1, 1, 1, 1, 8, 7, 6, 5, 4, 3, 2, 1]);
}

#[test]
fn used_up_counter_seals_nothing() {
    let mut c = AeadCrypto::with_prefix(b"secret", Algorithm::Aes256Gcm, &[0; 4]);
    c.counter = u64::MAX;
    assert_eq!(c.seal(b"x"), Err(KcpError::CryptoFailure));
    assert_eq!(c.counter, u64::MAX);
}

#[test]
fn unfit_key_seals_and_opens_nothing() {
    let mut c = AeadCrypto {
        algorithm: Algorithm::Aes256Gcm,
        key: vec![0; 5],
        prefix: vec![0; 4],
        counter: 0,
    };
    assert_eq!(c.seal(b"x"), Err(KcpError::CryptoFailure));
    assert_eq!(c.counter, 0);
    assert_eq!(c.open(&[0u8; 40]), Err(KcpError::CryptoFailure));
}

#[test]
fn tampered_packet_does_not_open() {
    let mut a = AeadCrypto::with_prefix(b"secret", Algorithm::Aes256Gcm, &[5, 6, 7, 8]);
    let packet = a.seal(b"some datagram").unwrap();
    for i in 0..packet.len() {
        let mut bad = packet.clone();
        bad[i] ^= 0x01;
        assert_eq!(a.open(&bad), Err(KcpError::CryptoFailure));
    }
    assert_eq!(a.open(&packet[..27]), Err(KcpError::CryptoFailure));
    assert_eq!(a.open(&[]), Err(KcpError::CryptoFailure));
    let other = AeadCrypto::with_prefix(b"other", Algorithm::Aes256Gcm, &[5, 6, 7, 8]);
    assert_eq!(other.open(&packet), Err(KcpError::CryptoFailure));
    let cipher = AeadCrypto::with_prefix(b"secret", Algorithm::ChaCha20Poly1305, &[5, 6, 7, 8]);
    assert_eq!(cipher.open(&packet), Err(KcpError::CryptoFailure));
}

#[test]
fn random_prefixes() {
    let a = AeadCrypto::new(b"password", Algorithm::Aes256Gcm).unwrap();
    assert_eq!(a.prefix.len(), 4);
    assert_eq!(a.counter, 0);
    assert_eq!(a.algorithm, Algorithm::Aes256Gcm);
    assert_eq!(
        hex(&a.key),
        "5e884898da28047151d0e56f8dc6292773603d0d6aabbdd62a11ef721d1542d8"
    );
    let mut distinct = false;
    for _ in 0..8 {
        let b = AeadCrypto::new(b"password", Algorithm::Aes256Gcm).unwrap();
        if b.prefix != a.prefix {
            distinct = true;
        }
    }
    assert!(distinct);
}

#[test]
fn seal_all_uses_one_nonce_each() {
    let mut a = AeadCrypto::with_prefix(b"secret", Algorithm::Aes128Gcm, &[2, 2, 2, 2]);
    let plain = vec![b"one".to_vec(), b"two".to_vec(), vec![]];
    let packets = a.seal_all(&plain);
    assert_eq!(packets.len(), 3);
    assert_eq!(a.counter, 3);
    for (i, p) in packets.iter().enumerate() {
        assert_eq!(p[4], i as u8);
        assert_eq!(a.open(p), Ok(plain[i].clone()));
    }
    a.counter = u64::MAX - 1;
    let packets = a.seal_all(&plain);
    assert_eq!(packets.len(), 1);
    assert_eq!(a.counter, u64::MAX);
}

#[test]
fn corrupted_packet_changes_no_stream() {
    let cfg = KcpConfig::default();
    let mut client = Mux::new(cfg, CRYPTO_OVERHEAD);
    let mut server = Mux::new(cfg, CRYPTO_OVERHEAD);
    let mut seal = AeadCrypto::with_prefix(b"password", Algorithm::Aes256Gcm, &[1, 2, 3, 4]);
    let open = AeadCrypto::with_prefix(b"password", Algorithm::Aes256Gcm, &[4, 3, 2, 1]);
    client.connect_with(77).unwrap();
    client.write(77, b"hello").unwrap();
    let packets = seal.seal_all(&client.update(0));
    assert_eq!(packets.len(), 1);

    let mut bad = packets[0].clone();
    let last = bad.len() - 1;
    bad[last] ^= 0x80;
    assert_eq!(server.input_sealed(&open, &bad), Err(KcpError::CryptoFailure));
    assert_eq!(server.streams.len(), 0);
    assert_eq!(server.backlog.len(), 0);
    assert_eq!(server.stream_count(), 0);
    assert_eq!(server.dropped, 1);
    assert!(server.update(0).is_empty());
    assert_eq!(server.accept().err(), Some(KcpError::WouldBlock));

    assert_eq!(server.input_sealed(&open, &packets[0]), Ok(packets[0].len()));
    assert_eq!(server.streams.len(), 1);
    assert_eq!(server.dropped, 1);
    assert_eq!(server.accept().map(|s| s.conv), Ok(77));

    // A known stream is not touched by a corrupted packet either.
    let before_nxt = server.streams[0].core.rx.rcv_nxt;
    let before_acks = server.streams[0].core.rx.acks.len();
    let mut bad = packets[0].clone();
    bad[20] ^= 0x01;
    assert_eq!(server.input_sealed(&open, &bad), Err(KcpError::CryptoFailure));
    assert_eq!(server.streams[0].core.rx.rcv_nxt, before_nxt);
    assert_eq!(server.streams[0].core.rx.acks.len(), before_acks);
    assert_eq!(server.dropped, 2);
}
