use vstd::prelude::*;
use crate::error::KcpError;
use crate::packer::datagram_views;
use crate::wire::{le64, lemma_le64_round_trip, put_bytes, put_u64, take_bytes};

verus! {

/// Bytes of a nonce.
pub const NONCE_LEN: usize = 12;

/// Bytes of an authentication tag.
pub const TAG_LEN: usize = 16;

/// Bytes of a nonce that are drawn at random, once for each key.
pub const PREFIX_LEN: usize = 4;

/// Bytes of the longest password: the digest counts its input in bits, in
/// 64 bits.
pub const MAX_PASSWORD_LEN: u64 = 0x1fff_ffff_ffff_ffff;

/// The ciphers that can seal a datagram.
#[derive(Clone, Copy, Debug, PartialEq, Eq, Structural)]
pub enum Algorithm {
    Aes128Gcm,
    Aes256Gcm,
    ChaCha20Poly1305,
}

/// The SHA-256 digest of `data`. Nothing is stated of it here but that it
/// is what `ring::digest::digest` computes.
pub uninterp spec fn sha256(data: Seq<u8>) -> Seq<u8>;

/// The ciphertext of `plain`, followed by the tag, as `ring` computes them
/// under `key` and `nonce` with no associated data; `None` where `ring`
/// takes the key, the nonce or the length of the text for unfit.
pub uninterp spec fn aead_seal(alg: Algorithm, key: Seq<u8>, nonce: Seq<u8>, plain: Seq<u8>) -> Option<Seq<u8>>;

/// The plaintext that `ring` finds in `sealed`, a ciphertext followed by
/// its tag, under `key` and `nonce` with no associated data; `None` where
/// the tag does not fit or `ring` takes the key or the nonce for unfit.
pub uninterp spec fn aead_open(alg: Algorithm, key: Seq<u8>, nonce: Seq<u8>, sealed: Seq<u8>) -> Option<Seq<u8>>;

/// Calls `ring::digest::digest` with `ring::digest::SHA256`. The contract
/// gives the result its name and says that it has 32 bytes, the output
/// length that `ring` declares for SHA-256. It leaves out the inputs whose
/// length in bits does not fit in 64 bits, on which `ring` panics.
#[verifier::external_body]
fn ring_sha256(data: &[u8]) -> (digest: Vec<u8>)
    requires
        data@.len() <= MAX_PASSWORD_LEN,
    ensures
        digest@ == sha256(data@),
        digest@.len() == 32,
{
    ring::digest::digest(&ring::digest::SHA256, data).as_ref().to_vec()
}

/// Calls `ring::aead::LessSafeKey::seal_in_place_append_tag` on a copy of
/// `plain`, with a key made by `ring::aead::UnboundKey::new` and a nonce
/// made by `ring::aead::Nonce::try_assume_unique_for_key`. The contract
/// gives the result its name and says that sealing leaves the text's
/// length as it is and appends a tag of 16 bytes.
#[verifier::external_body]
fn ring_seal(alg: Algorithm, key: &[u8], nonce: &[u8], plain: &[u8]) -> (sealed: Option<Vec<u8>>)
    ensures
        match sealed {
            Some(c) => aead_seal(alg, key@, nonce@, plain@) == Some(c@) && c@.len()
                == plain@.len() + 16,
            None => aead_seal(alg, key@, nonce@, plain@) is None,
        },
{
    let alg = match alg {
        Algorithm::Aes128Gcm => &ring::aead::AES_128_GCM,
        Algorithm::Aes256Gcm => &ring::aead::AES_256_GCM,
        Algorithm::ChaCha20Poly1305 => &ring::aead::CHACHA20_POLY1305,
    };
    let key = ring::aead::LessSafeKey::new(ring::aead::UnboundKey::new(alg, key).ok()?);
    let nonce = ring::aead::Nonce::try_assume_unique_for_key(nonce).ok()?;
    let mut data = plain.to_vec();
    key.seal_in_place_append_tag(nonce, ring::aead::Aad::empty(), &mut data).ok()?;
    Some(data)
}

/// Calls `ring::aead::LessSafeKey::open_in_place` on a copy of `sealed`,
/// with key and nonce made as for sealing. The contract gives the result
/// its name and says that the plaintext is the sealed text less its tag of
/// 16 bytes.
#[verifier::external_body]
fn ring_open(alg: Algorithm, key: &[u8], nonce: &[u8], sealed: &[u8]) -> (plain: Option<Vec<u8>>)
    ensures
        match plain {
            Some(p) => aead_open(alg, key@, nonce@, sealed@) == Some(p@) && p@.len() + 16
                == sealed@.len(),
            None => aead_open(alg, key@, nonce@, sealed@) is None,
        },
{
    let alg = match alg {
        Algorithm::Aes128Gcm => &ring::aead::AES_128_GCM,
        Algorithm::Aes256Gcm => &ring::aead::AES_256_GCM,
        Algorithm::ChaCha20Poly1305 => &ring::aead::CHACHA20_POLY1305,
    };
    let key = ring::aead::LessSafeKey::new(ring::aead::UnboundKey::new(alg, key).ok()?);
    let nonce = ring::aead::Nonce::try_assume_unique_for_key(nonce).ok()?;
    let mut data = sealed.to_vec();
    let plain = key.open_in_place(nonce, ring::aead::Aad::empty(), &mut data).ok()?;
    Some(plain.to_vec())
}

/// Calls `ring::rand::SecureRandom::fill` on `ring::rand::SystemRandom`.
/// The contract says only how many bytes come back.
#[verifier::external_body]
pub(crate) fn ring_random(n: usize) -> (bytes: Option<Vec<u8>>)
    ensures
        bytes is Some ==> bytes.unwrap()@.len() == n,
{
    let mut buf = vec![0u8; n];
    ring::rand::SecureRandom::fill(&ring::rand::SystemRandom::new(), &mut buf).ok()?;
    Some(buf)
}

impl Algorithm {
    /// Bytes of the cipher's key.
    pub open spec fn spec_key_len(self) -> usize {
        match self {
            Algorithm::Aes128Gcm => 16,
            Algorithm::Aes256Gcm => 32,
            Algorithm::ChaCha20Poly1305 => 32,
        }
    }

    /// The cipher that a name of the command line stands for.
    pub open spec fn spec_from_name(name: Seq<char>) -> Option<Algorithm> {
        if name == "aes-128-gcm"@ {
            Some(Algorithm::Aes128Gcm)
        } else if name == "aes-256-gcm"@ {
            Some(Algorithm::Aes256Gcm)
        } else if name == "chacha20-poly1305"@ {
            Some(Algorithm::ChaCha20Poly1305)
        } else {
            None
        }
    }

    /// Bytes of the cipher's key.
    pub fn key_len(self) -> (n: usize)
        ensures
            n == self.spec_key_len(),
    {
        match self {
            Algorithm::Aes128Gcm => 16,
            Algorithm::Aes256Gcm => 32,
            Algorithm::ChaCha20Poly1305 => 32,
        }
    }

    /// The cipher named `name`, or `None` where the name is none of
    /// `aes-128-gcm`, `aes-256-gcm` and `chacha20-poly1305`.
    pub fn from_name(name: &str) -> (r: Option<Algorithm>)
        ensures
            r == Algorithm::spec_from_name(name@),
    {
        let name = name.to_owned();
        if name == "aes-128-gcm".to_owned() {
            Some(Algorithm::Aes128Gcm)
        } else if name == "aes-256-gcm".to_owned() {
            Some(Algorithm::Aes256Gcm)
        } else if name == "chacha20-poly1305".to_owned() {
            Some(Algorithm::ChaCha20Poly1305)
        } else {
            None
        }
    }
}

/// The cipher named `name`, which is one of the three names that
/// `Algorithm::from_name` knows.
pub fn get_algorithm(name: &str) -> (a: Algorithm)
    requires
        Algorithm::spec_from_name(name@) is Some,
    ensures
        Algorithm::spec_from_name(name@) == Some(a),
{
    Algorithm::from_name(name).unwrap()
}

/// The key that a digest gives for a cipher: its first bytes, as many as
/// the key is long; the whole digest where it is shorter than that.
pub open spec fn spec_key(digest: Seq<u8>, alg: Algorithm) -> Seq<u8> {
    if digest.len() >= alg.spec_key_len() {
        digest.subrange(0, alg.spec_key_len() as int)
    } else {
        digest
    }
}

/// The nonce of the `counter`-th datagram: the prefix, then the counter in
/// little-endian order.
pub open spec fn spec_nonce(prefix: Seq<u8>, counter: u64) -> Seq<u8> {
    prefix + le64(counter)
}

/// A sealed datagram on the wire: the nonce, then ciphertext and tag.
pub open spec fn spec_frame(nonce: Seq<u8>, sealed: Seq<u8>) -> Seq<u8> {
    nonce + sealed
}

/// Two datagrams sealed under one prefix with different counters have
/// different nonces.
pub proof fn lemma_nonces_differ(prefix: Seq<u8>, a: u64, b: u64)
    requires
        a != b,
    ensures
        spec_nonce(prefix, a) != spec_nonce(prefix, b),
{
    lemma_le64_round_trip(a);
    lemma_le64_round_trip(b);
    let n = prefix.len() as int;
    assert(spec_nonce(prefix, a).subrange(n, n + 8) =~= le64(a));
    assert(spec_nonce(prefix, b).subrange(n, n + 8) =~= le64(b));
}

/// The key that a digest gives for a cipher.
pub fn derive_key(digest: &[u8], alg: Algorithm) -> (key: Vec<u8>)
    ensures
        key@ == spec_key(digest@, alg),
{
    let n = alg.key_len();
    if digest.len() >= n {
        take_bytes(digest, 0, n)
    } else {
        let key = take_bytes(digest, 0, digest.len());
        assert(digest@.subrange(0, digest@.len() as int) =~= digest@);
        key
    }
}

/// Puts a nonce in front of a sealed datagram.
pub fn frame(nonce: &[u8], sealed: &[u8]) -> (packet: Vec<u8>)
    ensures
        packet@ == spec_frame(nonce@, sealed@),
{
    let mut packet: Vec<u8> = Vec::new();
    put_bytes(&mut packet, nonce, 0, nonce.len());
    put_bytes(&mut packet, sealed, 0, sealed.len());
    assert(nonce@.subrange(0, nonce@.len() as int) =~= nonce@);
    assert(sealed@.subrange(0, sealed@.len() as int) =~= sealed@);
    assert(packet@ =~= spec_frame(nonce@, sealed@));
    packet
}

/// A pre-shared key with the state that keeps its nonces apart.
pub struct AeadCrypto {
    pub algorithm: Algorithm,
    pub key: Vec<u8>,
    /// The random part of every nonce.
    pub prefix: Vec<u8>,
    /// Datagrams sealed so far.
    pub counter: u64,
}

impl AeadCrypto {
    /// The nonce prefix has its length.
    pub open spec fn wf(&self) -> bool {
        self.prefix@.len() == PREFIX_LEN
    }

    /// The packet that sealing `plain` gives: the nonce, the ciphertext and
    /// the tag; `None` where the counter is used up or the cipher refuses.
    pub open spec fn spec_seal(&self, plain: Seq<u8>) -> Option<Seq<u8>> {
        let nonce = spec_nonce(self.prefix@, self.counter);
        if self.counter == u64::MAX {
            None
        } else {
            match aead_seal(self.algorithm, self.key@, nonce, plain) {
                Some(c) => Some(spec_frame(nonce, c)),
                None => None,
            }
        }
    }

    /// The datagram inside `packet`: what the cipher finds behind the first
    /// twelve bytes, taken as the nonce; `None` where the packet has no
    /// room for nonce and tag or the cipher refuses.
    pub open spec fn spec_open(&self, packet: Seq<u8>) -> Option<Seq<u8>> {
        if packet.len() < NONCE_LEN + TAG_LEN {
            None
        } else {
            aead_open(
                self.algorithm,
                self.key@,
                packet.subrange(0, NONCE_LEN as int),
                packet.subrange(NONCE_LEN as int, packet.len() as int),
            )
        }
    }

    /// The same key with `counter` datagrams sealed.
    pub open spec fn at(&self, counter: u64) -> AeadCrypto {
        AeadCrypto { counter, ..*self }
    }

    /// Datagrams among the first `n` of `plain` that sealing them one
    /// after the other seals.
    pub open spec fn sealed_count(&self, plain: Seq<Seq<u8>>, n: int) -> int
        decreases n,
    {
        if n <= 0 {
            0
        } else {
            let c = self.sealed_count(plain, n - 1);
            if self.at((self.counter + c) as u64).spec_seal(plain[n - 1]) is Some {
                c + 1
            } else {
                c
            }
        }
    }

    /// The packets that sealing the first `n` of `plain` one after the
    /// other gives; a datagram that cannot be sealed is left out.
    pub open spec fn sealed_packets(&self, plain: Seq<Seq<u8>>, n: int) -> Seq<Seq<u8>>
        decreases n,
    {
        if n <= 0 {
            Seq::empty()
        } else {
            let c = self.sealed_count(plain, n - 1);
            let before = self.sealed_packets(plain, n - 1);
            match self.at((self.counter + c) as u64).spec_seal(plain[n - 1]) {
                Some(p) => before.push(p),
                None => before,
            }
        }
    }

    /// The key state for a password, with a given nonce prefix. The key is
    /// the SHA-256 digest of the password, cut to the cipher's key length.
    pub fn with_prefix(password: &[u8], algorithm: Algorithm, prefix: &[u8]) -> (c: AeadCrypto)
        requires
            password@.len() <= MAX_PASSWORD_LEN,
            prefix@.len() == PREFIX_LEN,
        ensures
            c.wf(),
            c.algorithm == algorithm,
            c.key@ == spec_key(sha256(password@), algorithm),
            c.prefix@ == prefix@,
            c.counter == 0,
    {
        let digest = ring_sha256(password);
        let key = derive_key(digest.as_slice(), algorithm);
        let own = take_bytes(prefix, 0, prefix.len());
        assert(own@ =~= prefix@);
        AeadCrypto { algorithm, key, prefix: own, counter: 0 }
    }

    /// The key state for a password, with a nonce prefix drawn at random.
    /// Fails where the system hands out no random bytes.
    pub fn new(password: &[u8], algorithm: Algorithm) -> (r: Result<AeadCrypto, KcpError>)
        requires
            password@.len() <= MAX_PASSWORD_LEN,
        ensures
            match r {
                Ok(c) => {
                    &&& c.wf()
                    &&& c.algorithm == algorithm
                    &&& c.key@ == spec_key(sha256(password@), algorithm)
                    &&& c.counter == 0
                },
                Err(e) => e == KcpError::CryptoFailure,
            },
    {
        match ring_random(PREFIX_LEN) {
            Some(prefix) => Ok(AeadCrypto::with_prefix(password, algorithm, prefix.as_slice())),
            None => Err(KcpError::CryptoFailure),
        }
    }

    /// The nonce of the next datagram.
    pub fn nonce(&self) -> (n: Vec<u8>)
        requires
            self.wf(),
        ensures
            n@ == spec_nonce(self.prefix@, self.counter),
            n@.len() == NONCE_LEN,
    {
        let mut n: Vec<u8> = Vec::new();
        put_bytes(&mut n, self.prefix.as_slice(), 0, self.prefix.len());
        put_u64(&mut n, self.counter);
        assert(self.prefix@.subrange(0, self.prefix@.len() as int) =~= self.prefix@);
        assert(n@ =~= spec_nonce(self.prefix@, self.counter));
        n
    }

    /// Seals a datagram under a nonce that this key has not used before.
    pub fn seal(&mut self, plain: &[u8]) -> (r: Result<Vec<u8>, KcpError>)
        requires
            old(self).wf(),
        ensures
            final(self).wf(),
            final(self).algorithm == old(self).algorithm,
            final(self).key == old(self).key,
            final(self).prefix == old(self).prefix,
            match r {
                Ok(packet) => {
                    &&& old(self).spec_seal(plain@) == Some(packet@)
                    &&& packet@.len() == plain@.len() + NONCE_LEN + TAG_LEN
                    &&& final(self).counter == old(self).counter + 1
                },
                Err(e) => {
                    &&& e == KcpError::CryptoFailure
                    &&& old(self).spec_seal(plain@) is None
                    &&& final(self).counter == old(self).counter
                },
            },
    {
        if self.counter == u64::MAX {
            return Err(KcpError::CryptoFailure);
        }
        let nonce = self.nonce();
        match ring_seal(self.algorithm, self.key.as_slice(), nonce.as_slice(), plain) {
            Some(sealed) => {
                self.counter = self.counter + 1;
                Ok(frame(nonce.as_slice(), sealed.as_slice()))
            },
            None => Err(KcpError::CryptoFailure),
        }
    }

    /// Seals datagrams one after the other, each under a nonce of its own.
    pub fn seal_all(&mut self, plain: &Vec<Vec<u8>>) -> (out: Vec<Vec<u8>>)
        requires
            old(self).wf(),
        ensures
            final(self).wf(),
            *final(self) == old(self).at(
                (old(self).counter + old(self).sealed_count(
                    datagram_views(plain@),
                    plain@.len() as int,
                )) as u64,
            ),
            datagram_views(out@) == old(self).sealed_packets(
                datagram_views(plain@),
                plain@.len() as int,
            ),
    {
        let ghost views = datagram_views(plain@);
        let mut out: Vec<Vec<u8>> = Vec::new();
        let mut i: usize = 0;
        let ghost mut count: int = 0;
        assert(datagram_views(out@) =~= Seq::empty());
        while i < plain.len()
            invariant
                i <= plain.len(),
                views == datagram_views(plain@),
                self.wf(),
                self.algorithm == old(self).algorithm,
                self.key == old(self).key,
                self.prefix == old(self).prefix,
                count == old(self).sealed_count(views, i as int),
                0 <= count,
                self.counter == old(self).counter + count,
                datagram_views(out@) == old(self).sealed_packets(views, i as int),
            decreases plain.len() - i,
        {
            assert(views[i as int] == plain[i as int]@);
            let ghost before = datagram_views(out@);
            let ghost state = *self;
            assert(state == old(self).at((old(self).counter + count) as u64));
            match self.seal(plain[i].as_slice()) {
                Ok(packet) => {
                    out.push(packet);
                    proof {
                        assert(datagram_views(out@) =~= before.push(packet@));
                        assert(state.spec_seal(views[i as int]) == Some(packet@));
                        assert(old(self).sealed_count(views, i + 1) == count + 1);
                        assert(old(self).sealed_packets(views, i + 1) == before.push(packet@));
                        count = count + 1;
                    }
                },
                Err(_) => {
                    proof {
                        assert(state.spec_seal(views[i as int]) is None);
                        assert(old(self).sealed_count(views, i + 1) == count);
                        assert(old(self).sealed_packets(views, i + 1) == before);
                    }
                },
            }
            i = i + 1;
        }
        assert(*self == old(self).at((old(self).counter + count) as u64));
        out
    }

    /// Opens a packet. One that is too short, or whose tag does not fit,
    /// yields nothing.
    pub fn open(&self, packet: &[u8]) -> (r: Result<Vec<u8>, KcpError>)
        ensures
            match r {
                Ok(plain) => {
                    &&& self.spec_open(packet@) == Some(plain@)
                    &&& plain@.len() + NONCE_LEN + TAG_LEN == packet@.len()
                },
                Err(e) => e == KcpError::CryptoFailure && self.spec_open(packet@) is None,
            },
    {
        if packet.len() < NONCE_LEN + TAG_LEN {
            return Err(KcpError::CryptoFailure);
        }
        let nonce = take_bytes(packet, 0, NONCE_LEN);
        let sealed = take_bytes(packet, NONCE_LEN, packet.len());
        match ring_open(self.algorithm, self.key.as_slice(), nonce.as_slice(), sealed.as_slice()) {
            Some(plain) => Ok(plain),
            None => Err(KcpError::CryptoFailure),
        }
    }
}

} // verus!
