use vstd::prelude::*;
use std::collections::VecDeque;
use crate::config::KcpConfig;
use crate::crypto::{ring_random, AeadCrypto};
use crate::error::KcpError;
use crate::kcp::{KcpCore, KcpCoreView, StreamState};
use crate::packer::datagram_views;
use crate::segment::{segment_views, spec_decode_all, Command, Segment, SegmentView};
use crate::stream::{KcpStream, Stream, StreamView};
use crate::wire::get_u32;

verus! {

/// How often `connect` draws a conversation id before it gives up.
pub const CONNECT_ATTEMPTS: usize = 8;

/// The streams of one peer session, by conversation id, and the streams
/// that the peer has opened and nobody has accepted yet.
pub struct Mux {
    pub cfg: KcpConfig,
    /// Bytes that each datagram loses to the layer below.
    pub overhead: u32,
    /// The streams; no two have the same conversation id.
    pub streams: Vec<Stream>,
    /// Conversation ids of the streams that wait to be accepted.
    pub backlog: VecDeque<u32>,
    /// The token of the next handle.
    pub next_token: u64,
    /// Datagrams that were dropped as malformed or unreadable.
    pub dropped: u64,
    /// The transport has failed.
    pub failed: bool,
}

/// A multiplexer as a mathematical value.
#[verifier::ext_equal]
pub struct MuxView {
    pub cfg: KcpConfig,
    pub overhead: u32,
    pub streams: Seq<StreamView>,
    pub backlog: Seq<u32>,
    pub next_token: u64,
    pub dropped: u64,
    pub failed: bool,
}

/// The views of a sequence of streams, in order.
pub open spec fn stream_views(s: Seq<Stream>) -> Seq<StreamView> {
    s.map_values(|x: Stream| x@)
}

impl View for Mux {
    type V = MuxView;

    open spec fn view(&self) -> MuxView {
        MuxView {
            cfg: self.cfg,
            overhead: self.overhead,
            streams: stream_views(self.streams@),
            backlog: self.backlog@,
            next_token: self.next_token,
            dropped: self.dropped,
            failed: self.failed,
        }
    }
}

/// The index of the first stream at or behind `from` with the
/// conversation id `conv`, or the number of streams.
pub open spec fn slot_of(streams: Seq<StreamView>, conv: u32, from: int) -> int
    decreases streams.len() - from,
{
    if from < 0 || from >= streams.len() {
        streams.len() as int
    } else if streams[from].core.conv == conv {
        from
    } else {
        slot_of(streams, conv, from + 1)
    }
}

/// One of the first `n` segments opens the conversation `conv`.
pub open spec fn bears_syn(segs: Seq<SegmentView>, conv: u32, n: int) -> bool
    decreases n,
{
    n > 0 && (bears_syn(segs, conv, n - 1) || (segs[n - 1].cmd == Command::Syn && segs[n - 1].conv
        == conv))
}

/// Streams among the first `n` that are not closed.
pub open spec fn open_count(streams: Seq<StreamView>, n: int) -> int
    decreases n,
{
    if n <= 0 {
        0
    } else {
        open_count(streams, n - 1) + if streams[n - 1].core.state == StreamState::Closed {
            0int
        } else {
            1int
        }
    }
}

/// The datagrams that an update at `now` hands out for the first `n`
/// streams, stream by stream.
pub open spec fn update_outputs(streams: Seq<StreamView>, n: int, now: u32) -> Seq<Seq<u8>>
    decreases n,
{
    if n <= 0 {
        Seq::empty()
    } else {
        update_outputs(streams, n - 1, now) + streams[n - 1].core.spec_update_output(now)
    }
}

/// The datagrams that flushing those of the first `n` streams that have
/// something to send at once hands out, stream by stream.
pub open spec fn ready_outputs(streams: Seq<StreamView>, n: int) -> Seq<Seq<u8>>
    decreases n,
{
    if n <= 0 {
        Seq::empty()
    } else if streams[n - 1].core.wants_flush() {
        ready_outputs(streams, n - 1) + streams[n - 1].core.spec_flush_output()
    } else {
        ready_outputs(streams, n - 1)
    }
}

/// The earliest time at which one of the first `n` streams wants to be
/// updated, or `bound` where that is earlier.
pub open spec fn earliest_check(streams: Seq<StreamView>, n: int, bound: u64) -> u64
    decreases n,
{
    if n <= 0 {
        bound
    } else {
        let e = earliest_check(streams, n - 1, bound);
        if streams[n - 1].core.spec_check() < e {
            streams[n - 1].core.spec_check()
        } else {
            e
        }
    }
}

/// The streams among the first `n` that are not closed, in order.
pub open spec fn open_streams(streams: Seq<StreamView>, n: int) -> Seq<StreamView>
    decreases n,
{
    if n <= 0 {
        Seq::empty()
    } else if streams[n - 1].core.state == StreamState::Closed {
        open_streams(streams, n - 1)
    } else {
        open_streams(streams, n - 1).push(streams[n - 1])
    }
}

/// `x + 1`, held at the largest `u64`.
pub open spec fn bump64(x: u64) -> u64 {
    if x < u64::MAX {
        (x + 1) as u64
    } else {
        x
    }
}

impl MuxView {
    /// Every stream is well-formed, and no two streams have the same
    /// conversation id.
    pub open spec fn wf(self) -> bool {
        &&& self.cfg.valid()
        &&& self.cfg.spec_mss(self.overhead) >= 1
        &&& self.streams.len() <= u32::MAX
        &&& forall|i: int| 0 <= i < self.streams.len() ==> (#[trigger] self.streams[i]).wf()
        &&& forall|i: int, j: int|
            0 <= i < j < self.streams.len() ==> (#[trigger] self.streams[i]).core.conv != (
            #[trigger] self.streams[j]).core.conv
    }

    /// A multiplexer without streams.
    pub open spec fn spec_new(cfg: KcpConfig, overhead: u32) -> MuxView {
        MuxView {
            cfg,
            overhead,
            streams: Seq::empty(),
            backlog: Seq::empty(),
            next_token: 0,
            dropped: 0,
            failed: false,
        }
    }

    /// A fresh stream of this multiplexer.
    pub open spec fn fresh(self, conv: u32, initiator: bool) -> StreamView {
        StreamView::spec_new(
            KcpCoreView::spec_new(
                conv,
                self.cfg,
                self.cfg.spec_mss(self.overhead) as u32,
                initiator,
            ),
        )
    }

    /// A stream with this conversation id exists.
    pub open spec fn has(self, conv: u32) -> bool {
        slot_of(self.streams, conv, 0) < self.streams.len()
    }

    /// The state with other streams.
    pub open spec fn with_streams(self, streams: Seq<StreamView>) -> MuxView {
        MuxView { streams, ..self }
    }

    /// The state with the stream at `i` replaced.
    pub open spec fn with_stream(self, i: int, s: StreamView) -> MuxView {
        MuxView { streams: self.streams.update(i, s), ..self }
    }

    /// The state with one more dropped datagram counted.
    pub open spec fn dropped_one(self) -> MuxView {
        MuxView { dropped: bump64(self.dropped), ..self }
    }

    /// What opening a stream under `conv` returns: a failed transport and a
    /// conversation id in use are refused, and so is a full table.
    pub open spec fn connect_result(self, conv: u32) -> Result<KcpStream, KcpError> {
        if self.failed {
            Err(KcpError::TransportClosed)
        } else if self.has(conv) || self.streams.len() >= u32::MAX {
            Err(KcpError::ConvExists)
        } else {
            Ok(KcpStream { conv, token: self.next_token })
        }
    }

    /// The state after opening a stream under `conv`: the new stream is
    /// connecting, with its opening segment waiting to be sent.
    pub open spec fn spec_connect(self, conv: u32) -> MuxView {
        if self.connect_result(conv) is Ok {
            MuxView {
                streams: self.streams.push(self.fresh(conv, true)),
                next_token: bump64(self.next_token),
                ..self
            }
        } else {
            self
        }
    }

    /// What accepting returns: the handle of the stream that has waited
    /// longest, or `WouldBlock` where none waits.
    pub open spec fn accept_result(self) -> Result<KcpStream, KcpError> {
        if self.failed {
            Err(KcpError::TransportClosed)
        } else if self.backlog.len() == 0 {
            Err(KcpError::WouldBlock)
        } else {
            Ok(KcpStream { conv: self.backlog[0], token: self.next_token })
        }
    }

    /// The state after accepting.
    pub open spec fn spec_accept(self) -> MuxView {
        if self.accept_result() is Ok {
            MuxView {
                backlog: self.backlog.subrange(1, self.backlog.len() as int),
                next_token: bump64(self.next_token),
                ..self
            }
        } else {
            self
        }
    }

    /// A stream that the peer opens can be taken in.
    pub open spec fn can_accept(self) -> bool {
        self.backlog.len() < self.cfg.accept_queue_max && self.streams.len() < u32::MAX
    }

    /// The state after one segment has been routed. A segment of a known
    /// conversation goes to its stream. One of an unknown conversation
    /// makes a new stream, which waits to be accepted, where its datagram
    /// bears an opening segment for it and there is room; otherwise it is
    /// dropped.
    pub open spec fn spec_route(self, s: SegmentView, syn: bool) -> MuxView {
        let i = slot_of(self.streams, s.conv, 0);
        if i < self.streams.len() {
            self.with_stream(i, self.streams[i].with_core(self.streams[i].core.spec_on_segment(s)))
        } else if syn && self.can_accept() {
            MuxView {
                streams: self.streams.push(
                    self.fresh(s.conv, false).with_core(
                        self.fresh(s.conv, false).core.spec_on_segment(s),
                    ),
                ),
                backlog: self.backlog.push(s.conv),
                ..self
            }
        } else {
            self
        }
    }

    /// The state after the first `n` segments of a datagram have been
    /// routed, in order.
    pub open spec fn spec_route_all(self, segs: Seq<SegmentView>, n: int) -> MuxView
        decreases n,
    {
        if n <= 0 {
            self
        } else {
            self.spec_route_all(segs, n - 1).spec_route(
                segs[n - 1],
                bears_syn(segs, segs[n - 1].conv, segs.len() as int),
            )
        }
    }

    /// The state after a datagram has arrived: all of its segments are
    /// routed, or, where it is malformed, none, and the drop is counted.
    /// After the transport has failed nothing is taken in.
    pub open spec fn spec_input(self, datagram: Seq<u8>) -> MuxView {
        if self.failed {
            self
        } else {
            match spec_decode_all(datagram) {
                None => self.dropped_one(),
                Some(segs) => self.spec_route_all(segs, segs.len() as int),
            }
        }
    }

    /// The streams after an update at `now`.
    pub open spec fn updated(self, now: u32) -> Seq<StreamView> {
        Seq::new(
            self.streams.len(),
            |i: int| self.streams[i].with_core(self.streams[i].core.spec_update(now)),
        )
    }

    /// The streams after those that have something to send at once have
    /// been flushed.
    pub open spec fn flushed(self) -> Seq<StreamView> {
        Seq::new(
            self.streams.len(),
            |i: int|
                if self.streams[i].core.wants_flush() {
                    self.streams[i].with_core(self.streams[i].core.spec_flush())
                } else {
                    self.streams[i]
                },
        )
    }

    /// The streams after the transport has failed: every stream that was
    /// not closed is closed with `TransportClosed`.
    pub open spec fn aborted(self) -> Seq<StreamView> {
        Seq::new(
            self.streams.len(),
            |i: int|
                self.streams[i].with_core(
                    self.streams[i].core.spec_abort(KcpError::TransportClosed),
                ),
        )
    }

    /// What a write to the stream `conv` returns.
    pub open spec fn write_result(self, conv: u32, data: Seq<u8>) -> Result<usize, KcpError> {
        if self.has(conv) {
            self.streams[slot_of(self.streams, conv, 0)].write_result(data)
        } else {
            Err(KcpError::UnknownConv)
        }
    }

    /// The state after a write to the stream `conv`.
    pub open spec fn spec_write(self, conv: u32, data: Seq<u8>) -> MuxView {
        let i = slot_of(self.streams, conv, 0);
        if self.has(conv) {
            self.with_stream(i, self.streams[i].spec_write(data))
        } else {
            self
        }
    }

    /// What a read of at most `max` bytes from the stream `conv` returns.
    pub open spec fn read_result(self, conv: u32, max: int) -> Result<Seq<u8>, KcpError> {
        if self.has(conv) {
            self.streams[slot_of(self.streams, conv, 0)].read_result(max)
        } else {
            Err(KcpError::UnknownConv)
        }
    }

    /// The state after a read from the stream `conv`.
    pub open spec fn spec_read(self, conv: u32, max: int) -> MuxView {
        let i = slot_of(self.streams, conv, 0);
        if self.has(conv) {
            self.with_stream(i, self.streams[i].spec_read(max))
        } else {
            self
        }
    }

    /// The state after the own half of the stream `conv` has been closed.
    pub open spec fn spec_close(self, conv: u32) -> MuxView {
        let i = slot_of(self.streams, conv, 0);
        if self.has(conv) {
            self.with_stream(i, self.streams[i].with_core(self.streams[i].core.spec_close()))
        } else {
            self
        }
    }

    /// The state after a sealed packet has arrived, given what opening it
    /// yields: a packet that does not open is dropped and counted, and
    /// nothing else changes.
    pub open spec fn spec_input_opened(self, opened: Option<Seq<u8>>) -> MuxView {
        match opened {
            Some(datagram) => self.spec_input(datagram),
            None => if self.failed {
                self
            } else {
                self.dropped_one()
            },
        }
    }

    /// The state without the streams that are closed.
    pub open spec fn spec_reap(self) -> MuxView {
        self.with_streams(open_streams(self.streams, self.streams.len() as int))
    }

    /// The state after the transport has failed.
    pub open spec fn spec_fail(self) -> MuxView {
        MuxView { streams: self.aborted(), failed: true, ..self }
    }
}

/// Replacing a stream by one of the same conversation keeps the
/// multiplexer well-formed.
pub proof fn lemma_with_stream_wf(m: MuxView, i: int, s: StreamView)
    requires
        m.wf(),
        0 <= i < m.streams.len(),
        s.wf(),
        s.core.conv == m.streams[i].core.conv,
    ensures
        m.with_stream(i, s).wf(),
{
    let w = m.with_stream(i, s);
    assert forall|a: int| 0 <= a < w.streams.len() implies (#[trigger] w.streams[a]).wf() by {
        if a != i {
            assert(w.streams[a] == m.streams[a]);
        }
    }
    assert forall|a: int, b: int| 0 <= a < b < w.streams.len() implies (
    #[trigger] w.streams[a]).core.conv != (#[trigger] w.streams[b]).core.conv by {
        assert(w.streams[a].core.conv == m.streams[a].core.conv);
        assert(w.streams[b].core.conv == m.streams[b].core.conv);
    }
}

/// The streams that are not closed are some of the streams, in order.
pub proof fn lemma_open_streams(streams: Seq<StreamView>, n: int)
    requires
        0 <= n <= streams.len(),
    ensures
        open_streams(streams, n).len() == open_count(streams, n),
        open_streams(streams, n).len() <= n,
        forall|k: int|
            0 <= k < open_streams(streams, n).len() ==> exists|j: int|
                k <= j < n && #[trigger] streams[j] == (#[trigger] open_streams(streams, n)[k]),
        forall|a: int, b: int|
            0 <= a < b < open_streams(streams, n).len() ==> exists|i: int, j: int|
                0 <= i < j < n && #[trigger] streams[i] == (#[trigger] open_streams(streams, n)[a])
                    && #[trigger] streams[j] == (#[trigger] open_streams(streams, n)[b]),
    decreases n,
{
    if n > 0 {
        lemma_open_streams(streams, n - 1);
        let prev = open_streams(streams, n - 1);
        let cur = open_streams(streams, n);
        if streams[n - 1].core.state != StreamState::Closed {
            assert forall|k: int| 0 <= k < cur.len() implies exists|j: int|
                k <= j < n && #[trigger] streams[j] == (#[trigger] cur[k]) by {
                if k < prev.len() {
                    let j = choose|j: int| k <= j < n - 1 && #[trigger] streams[j] == prev[k];
                    assert(streams[j] == cur[k]);
                } else {
                    assert(streams[n - 1] == cur[k]);
                }
            }
            assert forall|a: int, b: int| 0 <= a < b < cur.len() implies exists|i: int, j: int|
                0 <= i < j < n && #[trigger] streams[i] == (#[trigger] cur[a]) && #[trigger] streams[j]
                    == (#[trigger] cur[b]) by {
                if b < prev.len() {
                    let (i, j) = choose|i: int, j: int|
                        0 <= i < j < n - 1 && #[trigger] streams[i] == prev[a] && #[trigger] streams[j]
                            == prev[b];
                    assert(streams[i] == cur[a] && streams[j] == cur[b]);
                } else {
                    let i = choose|i: int| a <= i < n - 1 && #[trigger] streams[i] == prev[a];
                    assert(streams[i] == cur[a] && streams[n - 1] == cur[b]);
                }
            }
        }
    }
}

impl Mux {
    /// The multiplexer is well-formed.
    pub open spec fn wf(&self) -> bool {
        self@.wf()
    }

    /// A multiplexer without streams, where each datagram loses `overhead`
    /// bytes to the layer below.
    pub fn new(cfg: KcpConfig, overhead: u32) -> (m: Mux)
        requires
            cfg.valid(),
            cfg.spec_mss(overhead) >= 1,
        ensures
            m.wf(),
            m@ == MuxView::spec_new(cfg, overhead),
    {
        let m = Mux {
            cfg,
            overhead,
            streams: Vec::new(),
            backlog: VecDeque::new(),
            next_token: 0,
            dropped: 0,
            failed: false,
        };
        assert(m@.streams =~= Seq::empty());
        m
    }

    /// The place of the stream with the conversation id `conv`, or the
    /// number of streams where there is none.
    pub fn find(&self, conv: u32) -> (i: usize)
        ensures
            i == slot_of(self@.streams, conv, 0),
            i <= self.streams.len(),
            i < self.streams.len() ==> self.streams[i as int].core.conv == conv,
            i == self.streams.len() ==> forall|j: int|
                0 <= j < self@.streams.len() ==> (#[trigger] self@.streams[j]).core.conv != conv,
    {
        let ghost views = self@.streams;
        let mut i: usize = 0;
        while i < self.streams.len() && self.streams[i].core.conv != conv
            invariant
                i <= self.streams.len(),
                views == stream_views(self.streams@),
                slot_of(views, conv, 0) == slot_of(views, conv, i as int),
                forall|j: int| 0 <= j < i ==> (#[trigger] views[j]).core.conv != conv,
            decreases self.streams.len() - i,
        {
            assert(views[i as int] == self.streams[i as int]@);
            i = i + 1;
        }
        proof {
            if i < self.streams.len() {
                assert(views[i as int] == self.streams[i as int]@);
            }
        }
        i
    }

    fn take_token(&mut self) -> (t: u64)
        ensures
            t == old(self).next_token,
            final(self).next_token == bump64(old(self).next_token),
            final(self).cfg == old(self).cfg,
            final(self).overhead == old(self).overhead,
            final(self).streams == old(self).streams,
            final(self).backlog == old(self).backlog,
            final(self).dropped == old(self).dropped,
            final(self).failed == old(self).failed,
    {
        let t = self.next_token;
        if self.next_token < u64::MAX {
            self.next_token = self.next_token + 1;
        }
        t
    }

    /// Opens a stream under the conversation id `conv`.
    pub fn connect_with(&mut self, conv: u32) -> (r: Result<KcpStream, KcpError>)
        requires
            old(self).wf(),
        ensures
            final(self).wf(),
            r == old(self)@.connect_result(conv),
            final(self)@ == old(self)@.spec_connect(conv),
    {
        if self.failed {
            return Err(KcpError::TransportClosed);
        }
        let i = self.find(conv);
        if i < self.streams.len() || self.streams.len() >= u32::MAX as usize {
            return Err(KcpError::ConvExists);
        }
        let core = KcpCore::new(conv, self.cfg, self.overhead, true);
        let ghost before = self@;
        self.streams.push(Stream::new(core));
        let token = self.take_token();
        proof {
            let fresh = before.fresh(conv, true);
            assert(self@.streams =~= before.streams.push(fresh));
            assert(self@ =~= before.spec_connect(conv));
            assert forall|a: int| 0 <= a < self@.streams.len() implies (
            #[trigger] self@.streams[a]).wf() by {
                if a < before.streams.len() {
                    assert(self@.streams[a] == before.streams[a]);
                }
            }
            assert forall|a: int, b: int| 0 <= a < b < self@.streams.len() implies (
            #[trigger] self@.streams[a]).core.conv != (#[trigger] self@.streams[b]).core.conv by {
                assert(self@.streams[a] == before.streams[a]);
                if b < before.streams.len() {
                    assert(self@.streams[b] == before.streams[b]);
                }
            }
        }
        Ok(KcpStream { conv, token })
    }

    /// Opens a stream under a conversation id drawn at random. Gives up
    /// with `ConvExists` after `CONNECT_ATTEMPTS` ids that are in use, and
    /// with `IoError` where the system hands out no random bytes.
    pub fn connect(&mut self) -> (r: Result<KcpStream, KcpError>)
        requires
            old(self).wf(),
        ensures
            final(self).wf(),
            match r {
                Ok(stream) => {
                    &&& old(self)@.connect_result(stream.conv) == Ok::<KcpStream, KcpError>(stream)
                    &&& final(self)@ == old(self)@.spec_connect(stream.conv)
                },
                Err(e) => {
                    &&& final(self)@ == old(self)@
                    &&& (e == KcpError::TransportClosed || e == KcpError::ConvExists || e
                        == KcpError::IoError)
                    &&& e == KcpError::TransportClosed <==> old(self).failed
                },
            },
    {
        if self.failed {
            return Err(KcpError::TransportClosed);
        }
        let mut attempt: usize = 0;
        while attempt < CONNECT_ATTEMPTS
            invariant
                self.wf(),
                self@ == old(self)@,
                !self.failed,
            decreases CONNECT_ATTEMPTS - attempt,
        {
            let bytes = match ring_random(4) {
                Some(b) => b,
                None => {
                    return Err(KcpError::IoError);
                },
            };
            let conv = get_u32(bytes.as_slice(), 0);
            match self.connect_with(conv) {
                Ok(stream) => {
                    return Ok(stream);
                },
                Err(_) => {},
            }
            attempt = attempt + 1;
        }
        Err(KcpError::ConvExists)
    }

    /// Hands out the stream that has waited longest to be accepted.
    pub fn accept(&mut self) -> (r: Result<KcpStream, KcpError>)
        requires
            old(self).wf(),
        ensures
            final(self).wf(),
            r == old(self)@.accept_result(),
            final(self)@ == old(self)@.spec_accept(),
    {
        if self.failed {
            return Err(KcpError::TransportClosed);
        }
        match self.backlog.pop_front() {
            None => Err(KcpError::WouldBlock),
            Some(conv) => {
                let token = self.take_token();
                assert(self@ =~= old(self)@.spec_accept());
                Ok(KcpStream { conv, token })
            },
        }
    }

    /// Streams that are not closed.
    pub fn stream_count(&self) -> (n: u32)
        requires
            self.wf(),
        ensures
            n == open_count(self@.streams, self@.streams.len() as int),
    {
        let mut n: u32 = 0;
        let mut i: usize = 0;
        while i < self.streams.len()
            invariant
                i <= self.streams.len(),
                self.streams.len() <= u32::MAX,
                n == open_count(self@.streams, i as int),
                n <= i,
            decreases self.streams.len() - i,
        {
            assert(self@.streams[i as int] == self.streams[i as int]@);
            if self.streams[i].core.state != StreamState::Closed {
                n = n + 1;
            }
            i = i + 1;
        }
        n
    }

    /// Routes one segment.
    pub fn route(&mut self, seg: Segment, syn: bool)
        requires
            old(self).wf(),
        ensures
            final(self).wf(),
            final(self)@ == old(self)@.spec_route(seg@, syn),
    {
        let i = self.find(seg.conv);
        let ghost before = self@;
        if i < self.streams.len() {
            assert(before.streams[i as int] == self.streams[i as int]@);
            self.streams[i].core.on_segment(seg);
            proof {
                let s = before.streams[i as int].with_core(
                    before.streams[i as int].core.spec_on_segment(seg@),
                );
                assert(self.streams[i as int]@ =~= s);
                assert forall|j: int| 0 <= j < before.streams.len() && j != i implies stream_views(
                    self.streams@,
                )[j] == before.streams[j] by {}
                assert(self@.streams =~= before.streams.update(i as int, s));
                assert(self@ =~= before.spec_route(seg@, syn));
                assert(s.core.conv == before.streams[i as int].core.conv);
                assert forall|a: int| 0 <= a < self@.streams.len() implies (
                #[trigger] self@.streams[a]).wf() by {
                    if a != i {
                        assert(self@.streams[a] == before.streams[a]);
                    }
                }
                assert forall|a: int, b: int| 0 <= a < b < self@.streams.len() implies (
                #[trigger] self@.streams[a]).core.conv != (
                #[trigger] self@.streams[b]).core.conv by {
                    assert(self@.streams[a].core.conv == before.streams[a].core.conv);
                    assert(self@.streams[b].core.conv == before.streams[b].core.conv);
                }
            }
        } else if syn && self.backlog.len() < self.cfg.accept_queue_max && self.streams.len()
            < u32::MAX as usize {
            let conv = seg.conv;
            let mut core = KcpCore::new(conv, self.cfg, self.overhead, false);
            core.on_segment(seg);
            self.streams.push(Stream::new(core));
            self.backlog.push_back(conv);
            proof {
                let fresh = before.fresh(conv, false);
                let s = fresh.with_core(fresh.core.spec_on_segment(seg@));
                assert(self@.streams =~= before.streams.push(s));
                assert(self@ =~= before.spec_route(seg@, syn));
                assert(s.core.conv == conv);
                assert forall|a: int| 0 <= a < self@.streams.len() implies (
                #[trigger] self@.streams[a]).wf() by {
                    if a < before.streams.len() {
                        assert(self@.streams[a] == before.streams[a]);
                    }
                }
                assert forall|a: int, b: int| 0 <= a < b < self@.streams.len() implies (
                #[trigger] self@.streams[a]).core.conv != (
                #[trigger] self@.streams[b]).core.conv by {
                    assert(self@.streams[a] == before.streams[a]);
                    if b < before.streams.len() {
                        assert(self@.streams[b] == before.streams[b]);
                    }
                }
            }
        }
    }

    /// For each segment, whether the list bears an opening segment of its
    /// conversation.
    fn syn_flags(segs: &Vec<Segment>) -> (flags: Vec<bool>)
        ensures
            flags.len() == segs.len(),
            forall|i: int|
                0 <= i < segs.len() ==> (#[trigger] flags[i]) == bears_syn(
                    segment_views(segs@),
                    segs[i].conv,
                    segs.len() as int,
                ),
    {
        let ghost views = segment_views(segs@);
        let mut flags: Vec<bool> = Vec::new();
        let mut i: usize = 0;
        while i < segs.len()
            invariant
                i <= segs.len(),
                flags.len() == i,
                views == segment_views(segs@),
                forall|k: int|
                    0 <= k < i ==> (#[trigger] flags[k]) == bears_syn(
                        views,
                        segs[k].conv,
                        segs.len() as int,
                    ),
            decreases segs.len() - i,
        {
            let conv = segs[i].conv;
            let mut found = false;
            let mut j: usize = 0;
            while j < segs.len()
                invariant
                    j <= segs.len(),
                    views == segment_views(segs@),
                    found == bears_syn(views, conv, j as int),
                decreases segs.len() - j,
            {
                assert(views[j as int] == segs[j as int]@);
                if segs[j].cmd == Command::Syn && segs[j].conv == conv {
                    found = true;
                }
                j = j + 1;
            }
            flags.push(found);
            i = i + 1;
        }
        flags
    }

    /// Takes in a datagram: routes every segment of it, or, where it is
    /// malformed, counts it as dropped.
    pub fn input(&mut self, datagram: &[u8]) -> (r: Result<usize, KcpError>)
        requires
            old(self).wf(),
        ensures
            final(self).wf(),
            final(self)@ == old(self)@.spec_input(datagram@),
            match r {
                Ok(n) => n == datagram@.len() && !old(self).failed && spec_decode_all(datagram@)
                    is Some,
                Err(e) => if old(self).failed {
                    e == KcpError::TransportClosed
                } else {
                    e == KcpError::InvalidSegment && spec_decode_all(datagram@) is None
                },
            },
    {
        if self.failed {
            return Err(KcpError::TransportClosed);
        }
        let segs = match Segment::decode_all(datagram) {
            Ok(segs) => segs,
            Err(e) => {
                if self.dropped < u64::MAX {
                    self.dropped = self.dropped + 1;
                }
                assert(self@ =~= old(self)@.dropped_one());
                return Err(e);
            },
        };
        let flags = Mux::syn_flags(&segs);
        let ghost views = segment_views(segs@);
        let ghost exec_segs = segs@;
        let mut k: usize = 0;
        for seg in it: segs
            invariant
                exec_segs == it.seq(),
                views == segment_views(exec_segs),
                k == it.index(),
                flags.len() == exec_segs.len(),
                forall|i: int|
                    0 <= i < exec_segs.len() ==> (#[trigger] flags[i]) == bears_syn(
                        views,
                        exec_segs[i].conv,
                        exec_segs.len() as int,
                    ),
                self.wf(),
                self@ == old(self)@.spec_route_all(views, it.index() as int),
        {
            assert(views[k as int] == seg@);
            assert(views.len() == exec_segs.len());
            let syn = flags[k];
            self.route(seg, syn);
            k = k + 1;
        }
        assert(views.len() == exec_segs.len());
        Ok(datagram.len())
    }

    /// Updates every stream at `now` and hands out their datagrams, stream
    /// by stream.
    pub fn update(&mut self, now: u32) -> (out: Vec<Vec<u8>>)
        requires
            old(self).wf(),
        ensures
            final(self).wf(),
            final(self)@ == old(self)@.with_streams(old(self)@.updated(now)),
            datagram_views(out@) == update_outputs(
                old(self)@.streams,
                old(self)@.streams.len() as int,
                now,
            ),
    {
        let ghost start = self@.streams;
        let mut out: Vec<Vec<u8>> = Vec::new();
        let mut i: usize = 0;
        assert(datagram_views(out@) =~= Seq::empty());
        while i < self.streams.len()
            invariant
                i <= self.streams.len(),
                self.streams.len() == start.len(),
                start == old(self)@.streams,
                old(self).wf(),
                forall|j: int|
                    0 <= j < i ==> (#[trigger] stream_views(self.streams@)[j]) == start[j].with_core(
                        start[j].core.spec_update(now),
                    ),
                forall|j: int|
                    i <= j < start.len() ==> (#[trigger] stream_views(self.streams@)[j])
                        == start[j],
                forall|j: int|
                    0 <= j < start.len() ==> (#[trigger] stream_views(self.streams@)[j]).wf()
                        && stream_views(self.streams@)[j].core.conv == start[j].core.conv,
                self.cfg == old(self).cfg,
                self.overhead == old(self).overhead,
                self.backlog == old(self).backlog,
                self.next_token == old(self).next_token,
                self.dropped == old(self).dropped,
                self.failed == old(self).failed,
                datagram_views(out@) == update_outputs(start, i as int, now),
            decreases self.streams.len() - i,
        {
            let ghost before = stream_views(self.streams@);
            let ghost out_before = datagram_views(out@);
            assert(before[i as int] == start[i as int]);
            assert(before[i as int] == self.streams[i as int]@);
            let mut part = self.streams[i].core.update(now);
            let ghost part_view = datagram_views(part@);
            out.append(&mut part);
            proof {
                let after = stream_views(self.streams@);
                assert(after[i as int] =~= start[i as int].with_core(
                    start[i as int].core.spec_update(now),
                ));
                assert forall|j: int| 0 <= j < start.len() && j != i implies after[j]
                    == before[j] by {}
                assert(datagram_views(out@) =~= out_before + part_view);
            }
            i = i + 1;
        }
        proof {
            assert(self@.streams =~= old(self)@.updated(now));
            assert(self@ =~= old(self)@.with_streams(old(self)@.updated(now)));
            assert forall|a: int, b: int| 0 <= a < b < self@.streams.len() implies (
            #[trigger] self@.streams[a]).core.conv != (#[trigger] self@.streams[b]).core.conv by {
                assert(self@.streams[a].core.conv == start[a].core.conv);
                assert(self@.streams[b].core.conv == start[b].core.conv);
            }
        }
        out
    }

    /// Flushes, without waiting for the next tick, every stream that has
    /// an acknowledgement to send in no-delay mode or a queued segment
    /// that its window has room for.
    pub fn flush_ready(&mut self) -> (out: Vec<Vec<u8>>)
        requires
            old(self).wf(),
        ensures
            final(self).wf(),
            final(self)@ == old(self)@.with_streams(old(self)@.flushed()),
            datagram_views(out@) == ready_outputs(
                old(self)@.streams,
                old(self)@.streams.len() as int,
            ),
    {
        let ghost start = self@.streams;
        let mut out: Vec<Vec<u8>> = Vec::new();
        let mut i: usize = 0;
        assert(datagram_views(out@) =~= Seq::empty());
        while i < self.streams.len()
            invariant
                i <= self.streams.len(),
                self.streams.len() == start.len(),
                start == old(self)@.streams,
                old(self).wf(),
                forall|j: int|
                    0 <= j < i ==> (#[trigger] stream_views(self.streams@)[j]) == old(
                        self,
                    )@.flushed()[j],
                forall|j: int|
                    i <= j < start.len() ==> (#[trigger] stream_views(self.streams@)[j])
                        == start[j],
                forall|j: int|
                    0 <= j < start.len() ==> (#[trigger] stream_views(self.streams@)[j]).wf()
                        && stream_views(self.streams@)[j].core.conv == start[j].core.conv,
                self.cfg == old(self).cfg,
                self.overhead == old(self).overhead,
                self.backlog == old(self).backlog,
                self.next_token == old(self).next_token,
                self.dropped == old(self).dropped,
                self.failed == old(self).failed,
                datagram_views(out@) == ready_outputs(start, i as int),
            decreases self.streams.len() - i,
        {
            let ghost before = stream_views(self.streams@);
            let ghost out_before = datagram_views(out@);
            assert(before[i as int] == start[i as int]);
            assert(before[i as int] == self.streams[i as int]@);
            if self.streams[i].core.flush_now() {
                let mut part = self.streams[i].core.flush();
                let ghost part_view = datagram_views(part@);
                out.append(&mut part);
                proof {
                    let after = stream_views(self.streams@);
                    assert(after[i as int] =~= start[i as int].with_core(
                        start[i as int].core.spec_flush(),
                    ));
                    assert forall|j: int| 0 <= j < start.len() && j != i implies after[j]
                        == before[j] by {}
                    assert(datagram_views(out@) =~= out_before + part_view);
                }
            }
            i = i + 1;
        }
        proof {
            assert(self@.streams =~= old(self)@.flushed());
            assert(self@ =~= old(self)@.with_streams(old(self)@.flushed()));
            assert forall|a: int, b: int| 0 <= a < b < self@.streams.len() implies (
            #[trigger] self@.streams[a]).core.conv != (#[trigger] self@.streams[b]).core.conv by {
                assert(self@.streams[a].core.conv == start[a].core.conv);
                assert(self@.streams[b].core.conv == start[b].core.conv);
            }
        }
        out
    }

    /// The earliest time at which a stream wants to be updated, and at the
    /// latest one flush interval after `now`.
    pub fn check(&self, now: u32) -> (next: u64)
        requires
            self.wf(),
        ensures
            next == earliest_check(
                self@.streams,
                self@.streams.len() as int,
                (now + self.cfg.interval) as u64,
            ),
    {
        let mut next: u64 = now as u64 + self.cfg.interval as u64;
        let ghost bound = next;
        let mut i: usize = 0;
        while i < self.streams.len()
            invariant
                i <= self.streams.len(),
                self.wf(),
                next == earliest_check(self@.streams, i as int, bound),
            decreases self.streams.len() - i,
        {
            assert(self@.streams[i as int] == self.streams[i as int]@);
            let t = self.streams[i].core.check(now);
            if t < next {
                next = t;
            }
            i = i + 1;
        }
        next
    }

    /// Takes bytes to send on the stream `conv`.
    pub fn write(&mut self, conv: u32, data: &[u8]) -> (r: Result<usize, KcpError>)
        requires
            old(self).wf(),
        ensures
            final(self).wf(),
            r == old(self)@.write_result(conv, data@),
            final(self)@ == old(self)@.spec_write(conv, data@),
    {
        let i = self.find(conv);
        if i >= self.streams.len() {
            return Err(KcpError::UnknownConv);
        }
        let ghost before = self@;
        assert(before.streams[i as int] == self.streams[i as int]@);
        let r = self.streams[i].write(data);
        proof {
            let s = before.streams[i as int].spec_write(data@);
            assert(self.streams[i as int]@ == s);
            assert forall|j: int| 0 <= j < before.streams.len() && j != i implies stream_views(
                self.streams@,
            )[j] == before.streams[j] by {}
            assert(self@.streams =~= before.streams.update(i as int, s));
            assert(self@ =~= before.with_stream(i as int, s));
            lemma_with_stream_wf(before, i as int, s);
        }
        r
    }

    /// Hands out at most `max` bytes that the peer sent on the stream
    /// `conv`; no bytes at the end of the peer's stream.
    pub fn read(&mut self, conv: u32, max: usize) -> (r: Result<Vec<u8>, KcpError>)
        requires
            old(self).wf(),
        ensures
            final(self).wf(),
            final(self)@ == old(self)@.spec_read(conv, max as int),
            match r {
                Ok(bytes) => old(self)@.read_result(conv, max as int) == Ok::<Seq<u8>, KcpError>(
                    bytes@,
                ),
                Err(e) => old(self)@.read_result(conv, max as int) == Err::<Seq<u8>, KcpError>(e),
            },
    {
        let i = self.find(conv);
        if i >= self.streams.len() {
            return Err(KcpError::UnknownConv);
        }
        let ghost before = self@;
        assert(before.streams[i as int] == self.streams[i as int]@);
        let r = self.streams[i].read(max);
        proof {
            let s = before.streams[i as int].spec_read(max as int);
            assert(self.streams[i as int]@ == s);
            assert forall|j: int| 0 <= j < before.streams.len() && j != i implies stream_views(
                self.streams@,
            )[j] == before.streams[j] by {}
            assert(self@.streams =~= before.streams.update(i as int, s));
            assert(self@ =~= before.with_stream(i as int, s));
            lemma_with_stream_wf(before, i as int, s);
        }
        r
    }

    /// Closes the own half of the stream `conv`.
    pub fn close(&mut self, conv: u32) -> (r: Result<(), KcpError>)
        requires
            old(self).wf(),
        ensures
            final(self).wf(),
            final(self)@ == old(self)@.spec_close(conv),
            r is Ok <==> old(self)@.has(conv),
            r is Err ==> r == Err::<(), KcpError>(KcpError::UnknownConv),
    {
        let i = self.find(conv);
        if i >= self.streams.len() {
            return Err(KcpError::UnknownConv);
        }
        let ghost before = self@;
        assert(before.streams[i as int] == self.streams[i as int]@);
        self.streams[i].close();
        proof {
            let s = before.streams[i as int].with_core(before.streams[i as int].core.spec_close());
            assert(self.streams[i as int]@ == s);
            assert forall|j: int| 0 <= j < before.streams.len() && j != i implies stream_views(
                self.streams@,
            )[j] == before.streams[j] by {}
            assert(self@.streams =~= before.streams.update(i as int, s));
            assert(self@ =~= before.with_stream(i as int, s));
            lemma_with_stream_wf(before, i as int, s);
        }
        Ok(())
    }

    /// Takes in a sealed packet: opens it and takes in the datagram
    /// inside. A packet that does not open changes no stream: it is
    /// counted as dropped, and that is all.
    pub fn input_sealed(&mut self, crypto: &AeadCrypto, packet: &[u8]) -> (r: Result<
        usize,
        KcpError,
    >)
        requires
            old(self).wf(),
        ensures
            final(self).wf(),
            final(self)@ == old(self)@.spec_input_opened(crypto.spec_open(packet@)),
            crypto.spec_open(packet@) is None ==> final(self)@.streams == old(self)@.streams
                && final(self)@.backlog == old(self)@.backlog && r is Err,
            r is Ok ==> r.unwrap() == packet@.len(),
    {
        match crypto.open(packet) {
            Ok(datagram) => match self.input(datagram.as_slice()) {
                Ok(_) => Ok(packet.len()),
                Err(e) => Err(e),
            },
            Err(e) => {
                if !self.failed && self.dropped < u64::MAX {
                    self.dropped = self.dropped + 1;
                }
                assert(self@ =~= old(self)@.spec_input_opened(None));
                Err(e)
            },
        }
    }

    /// Forgets the streams that are closed.
    pub fn reap(&mut self)
        requires
            old(self).wf(),
        ensures
            final(self).wf(),
            final(self)@ == old(self)@.spec_reap(),
    {
        let ghost start = self@.streams;
        let mut kept: Vec<Stream> = Vec::new();
        let mut all: Vec<Stream> = Vec::new();
        std::mem::swap(&mut all, &mut self.streams);
        let mut k: usize = 0;
        let n: usize = all.len();
        assert(stream_views(kept@) =~= open_streams(start, 0));
        for stream in it: all
            invariant
                start == stream_views(it.seq()),
                n == it.seq().len(),
                k == it.index(),
                stream_views(kept@) == open_streams(start, it.index() as int),
                self.cfg == old(self).cfg,
                self.overhead == old(self).overhead,
                self.backlog == old(self).backlog,
                self.next_token == old(self).next_token,
                self.dropped == old(self).dropped,
                self.failed == old(self).failed,
        {
            assert(k < n);
            assert(start[k as int] == stream@);
            let ghost before = stream_views(kept@);
            if stream.core.state != StreamState::Closed {
                kept.push(stream);
                assert(stream_views(kept@) =~= before.push(start[k as int]));
            }
            k = k + 1;
        }
        self.streams = kept;
        proof {
            assert(start.len() == all@.len());
            let open = open_streams(start, start.len() as int);
            assert(self@ =~= old(self)@.spec_reap());
            lemma_open_streams(start, start.len() as int);
            assert forall|a: int| 0 <= a < open.len() implies (#[trigger] open[a]).wf() by {
                let j = choose|j: int| a <= j < start.len() && #[trigger] start[j] == open[a];
                assert(start[j].wf());
            }
            assert forall|a: int, b: int| 0 <= a < b < open.len() implies (
            #[trigger] open[a]).core.conv != (#[trigger] open[b]).core.conv by {
                let (i, j) = choose|i: int, j: int|
                    0 <= i < j < start.len() && #[trigger] start[i] == open[a] && #[trigger] start[j]
                        == open[b];
                assert(start[i].core.conv != start[j].core.conv);
            }
        }
    }

    /// Closes every stream with `TransportClosed`; from now on the
    /// multiplexer takes nothing in.
    pub fn fail(&mut self)
        requires
            old(self).wf(),
        ensures
            final(self).wf(),
            final(self)@ == old(self)@.spec_fail(),
    {
        let ghost start = self@.streams;
        let mut i: usize = 0;
        while i < self.streams.len()
            invariant
                i <= self.streams.len(),
                self.streams.len() == start.len(),
                start == old(self)@.streams,
                old(self).wf(),
                forall|j: int|
                    0 <= j < i ==> (#[trigger] stream_views(self.streams@)[j]) == start[j].with_core(
                        start[j].core.spec_abort(KcpError::TransportClosed),
                    ),
                forall|j: int|
                    i <= j < start.len() ==> (#[trigger] stream_views(self.streams@)[j])
                        == start[j],
                forall|j: int|
                    0 <= j < start.len() ==> (#[trigger] stream_views(self.streams@)[j]).wf()
                        && stream_views(self.streams@)[j].core.conv == start[j].core.conv,
                self.cfg == old(self).cfg,
                self.overhead == old(self).overhead,
                self.backlog == old(self).backlog,
                self.next_token == old(self).next_token,
                self.dropped == old(self).dropped,
            decreases self.streams.len() - i,
        {
            let ghost before = stream_views(self.streams@);
            assert(before[i as int] == start[i as int]);
            assert(before[i as int] == self.streams[i as int]@);
            self.streams[i].core.abort(KcpError::TransportClosed);
            proof {
                let after = stream_views(self.streams@);
                assert(after[i as int] =~= start[i as int].with_core(
                    start[i as int].core.spec_abort(KcpError::TransportClosed),
                ));
                assert forall|j: int| 0 <= j < start.len() && j != i implies after[j]
                    == before[j] by {}
            }
            i = i + 1;
        }
        self.failed = true;
        proof {
            assert(self@.streams =~= old(self)@.aborted());
            assert(self@ =~= old(self)@.spec_fail());
            assert forall|a: int, b: int| 0 <= a < b < self@.streams.len() implies (
            #[trigger] self@.streams[a]).core.conv != (#[trigger] self@.streams[b]).core.conv by {
                assert(self@.streams[a].core.conv == start[a].core.conv);
                assert(self@.streams[b].core.conv == start[b].core.conv);
            }
        }
    }
}

} // verus!
