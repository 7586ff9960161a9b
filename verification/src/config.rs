use vstd::prelude::*;
use crate::segment::HEADER_LEN;

verus! {

/// Bytes that the AEAD layer adds to a datagram: the nonce in front and the
/// tag behind.
pub const CRYPTO_OVERHEAD: u32 = 28;

/// The retransmission timeout before any round trip has been measured,
/// milliseconds.
pub const RTO_INITIAL: u32 = 200;

/// The options of one engine.
#[derive(Clone, Copy, Debug)]
pub struct KcpConfig {
    /// Largest datagram handed to the transport, bytes.
    pub mtu: u32,
    /// Time between two flushes, milliseconds.
    pub interval: u32,
    /// Back off by half instead of doubling, and add no slack to the first
    /// timeout.
    pub nodelay: bool,
    /// Acknowledgements of later segments after which a segment is sent
    /// again at once; 0 switches fast retransmission off.
    pub resend: u32,
    /// Switch congestion control off.
    pub nc: bool,
    /// Segments that may be in flight.
    pub snd_wnd: u16,
    /// Segments that the receive queue holds.
    pub rcv_wnd: u16,
    /// Bounds of the retransmission timeout, milliseconds.
    pub rto_min: u32,
    pub rto_max: u32,
    /// Transmissions of one segment after which the link counts as dead.
    pub dead_link: u32,
    /// Segments that the send queue holds.
    pub send_queue_max: usize,
    /// Streams that wait to be accepted.
    pub accept_queue_max: usize,
    /// Time a closing stream waits for the peer, milliseconds.
    pub linger_timeout: u32,
}

impl KcpConfig {
    /// The settings an engine can run with.
    pub open spec fn valid(&self) -> bool {
        &&& HEADER_LEN < self.mtu <= 65535
        &&& 1 <= self.snd_wnd
        &&& 1 <= self.rcv_wnd
        &&& 1 <= self.rto_min <= self.rto_max
        &&& self.dead_link < u32::MAX
    }

    /// The payload capacity of one segment where each datagram loses
    /// `overhead` bytes to the layer below.
    pub open spec fn spec_mss(&self, overhead: u32) -> int {
        self.mtu - HEADER_LEN - overhead
    }

    /// Whether an engine can run with these settings.
    pub fn is_valid(&self) -> (r: bool)
        ensures
            r == self.valid(),
    {
        HEADER_LEN < self.mtu as usize && self.mtu <= 65535 && 1 <= self.snd_wnd && 1
            <= self.rcv_wnd && 1 <= self.rto_min && self.rto_min <= self.rto_max && self.dead_link
            < u32::MAX
    }

    /// The payload capacity of one segment, or `None` where the datagram
    /// has no room for a payload.
    pub fn mss(&self, overhead: u32) -> (r: Option<u32>)
        ensures
            r is Some <==> self.spec_mss(overhead) >= 1,
            r is Some ==> r.unwrap() == self.spec_mss(overhead),
    {
        if self.mtu as u64 > HEADER_LEN as u64 + overhead as u64 {
            Some(self.mtu - HEADER_LEN as u32 - overhead)
        } else {
            None
        }
    }
}

impl Default for KcpConfig {
    fn default() -> (c: KcpConfig)
        ensures
            c.valid(),
            c.mtu == 1400,
            c.interval == 10,
            !c.nodelay,
            c.resend == 0,
            !c.nc,
            c.snd_wnd == 1024,
            c.rcv_wnd == 1024,
            c.rto_min == 100,
            c.rto_max == 60000,
            c.dead_link == 20,
            c.send_queue_max == 4096,
            c.accept_queue_max == 256,
            c.linger_timeout == 5000,
    {
        KcpConfig {
            mtu: 1400,
            interval: 10,
            nodelay: false,
            resend: 0,
            nc: false,
            snd_wnd: 1024,
            rcv_wnd: 1024,
            rto_min: 100,
            rto_max: 60000,
            dead_link: 20,
            send_queue_max: 4096,
            accept_queue_max: 256,
            linger_timeout: 5000,
        }
    }
}

} // verus!
