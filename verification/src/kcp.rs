use vstd::prelude::*;
use crate::config::KcpConfig;
use crate::error::KcpError;
use crate::packer::{datagram_views, lemma_add_all_push, Packer, PackerView};
use crate::receiver::{payload_concat, AckItem, Receiver, ReceiverView};
use crate::rtt::{max_int, min_int};
use crate::schedule::{earliest, outcome_of, transmitted, Outcome};
use crate::segment::{segment_views, spec_decode_all, Command, Segment, SegmentView, HEADER_LEN};
use crate::sender::{absent, none_added, steady, Sender, SenderView};

verus! {

/// The wait before the first window probe, milliseconds.
pub const PROBE_INIT: u32 = 7000;

/// The longest wait between two window probes, milliseconds.
pub const PROBE_LIMIT: u32 = 120000;

/// Where a stream stands in its life.
#[derive(Clone, Copy, Debug, PartialEq, Eq, Structural)]
pub enum StreamState {
    /// Nothing has been heard of the peer yet.
    Connecting,
    /// Both sides know of the stream.
    Established,
    /// The own half is closed; the end of the stream is on its way.
    Closing,
    /// The stream is over.
    Closed,
}

/// The probing of a peer whose window is shut.
#[derive(Clone, Copy, Debug, PartialEq, Eq, Structural)]
pub struct Probe {
    /// The wait between probes, 0 while none is needed.
    pub wait: u32,
    /// When the next probe is due.
    pub ts: u64,
    /// The next flush asks the peer for its window.
    pub ask: bool,
    /// The next flush tells the peer the own window.
    pub tell: bool,
}

impl Probe {
    /// The probing after a flush at `current` has looked at the peer's
    /// window. While it is shut, a probe is due after `PROBE_INIT` and then
    /// after waits that grow by half, up to `PROBE_LIMIT`; once it is open,
    /// probing stops.
    pub open spec fn spec_advance(self, rmt_wnd: u16, current: u32) -> Probe {
        if rmt_wnd != 0 {
            Probe { wait: 0, ts: 0, ..self }
        } else if self.wait == 0 {
            Probe { wait: PROBE_INIT, ts: (current + PROBE_INIT) as u64, ..self }
        } else if current >= self.ts {
            let base = max_int(self.wait as int, PROBE_INIT as int);
            let wait = min_int(base + base / 2, PROBE_LIMIT as int);
            Probe { wait: wait as u32, ts: (current + wait) as u64, ask: true, ..self }
        } else {
            self
        }
    }

    /// The probing after its segments have left.
    pub open spec fn spec_clear(self) -> Probe {
        Probe { ask: false, tell: false, ..self }
    }

    /// The probing with the peer's question noted.
    pub open spec fn spec_asked(self) -> Probe {
        Probe { tell: true, ..self }
    }

    /// The segments that a flush sends for the probing: the question, then
    /// the answer.
    pub open spec fn segments(self, conv: u32, wnd: u16, una: u32) -> Seq<SegmentView> {
        let ask = if self.ask {
            seq![SegmentView::control(conv, Command::Wask, wnd, 0, 0, una)]
        } else {
            Seq::empty()
        };
        let tell = if self.tell {
            seq![SegmentView::control(conv, Command::Wins, wnd, 0, 0, una)]
        } else {
            Seq::empty()
        };
        ask + tell
    }

    /// Looks at the peer's window at `current`.
    pub fn advance(&mut self, rmt_wnd: u16, current: u32)
        ensures
            *final(self) == old(self).spec_advance(rmt_wnd, current),
    {
        if rmt_wnd != 0 {
            self.wait = 0;
            self.ts = 0;
        } else if self.wait == 0 {
            self.wait = PROBE_INIT;
            self.ts = current as u64 + PROBE_INIT as u64;
        } else if current as u64 >= self.ts {
            let base: u64 = if self.wait >= PROBE_INIT {
                self.wait as u64
            } else {
                PROBE_INIT as u64
            };
            let grown: u64 = base + base / 2;
            let wait: u32 = if grown < PROBE_LIMIT as u64 {
                grown as u32
            } else {
                PROBE_LIMIT
            };
            self.wait = wait;
            self.ts = current as u64 + wait as u64;
            self.ask = true;
        }
    }
}

/// The protocol engine of one stream.
pub struct KcpCore {
    pub conv: u32,
    pub cfg: KcpConfig,
    /// Payload capacity of one segment.
    pub mss: u32,
    /// This side opened the stream.
    pub initiator: bool,
    pub state: StreamState,
    /// Why the stream is closed, where it did not end in order.
    pub error: Option<KcpError>,
    pub tx: Sender,
    pub rx: Receiver,
    /// The clock at the last update, milliseconds.
    pub current: u32,
    /// When the next flush is due.
    pub ts_flush: u64,
    pub probe: Probe,
    /// When a closing stream stops waiting for the peer.
    pub close_at: u64,
}

/// An engine as a mathematical value.
#[verifier::ext_equal]
pub struct KcpCoreView {
    pub conv: u32,
    pub cfg: KcpConfig,
    pub mss: u32,
    pub initiator: bool,
    pub state: StreamState,
    pub error: Option<KcpError>,
    pub tx: SenderView,
    pub rx: ReceiverView,
    pub current: u32,
    pub ts_flush: u64,
    pub probe: Probe,
    pub close_at: u64,
}

impl View for KcpCore {
    type V = KcpCoreView;

    open spec fn view(&self) -> KcpCoreView {
        KcpCoreView {
            conv: self.conv,
            cfg: self.cfg,
            mss: self.mss,
            initiator: self.initiator,
            state: self.state,
            error: self.error,
            tx: self.tx@,
            rx: self.rx@,
            current: self.current,
            ts_flush: self.ts_flush,
            probe: self.probe,
            close_at: self.close_at,
        }
    }
}

/// No entry of the buffer has a number that one of the first `n` segments
/// acknowledges for the conversation `conv`.
pub open spec fn acked_absent(buf: Seq<crate::sender::SendEntryView>, segs: Seq<SegmentView>, conv: u32, n: int) -> bool {
    forall|j: int|
        0 <= j < n && (#[trigger] segs[j]).cmd == Command::Ack && segs[j].conv == conv ==> absent(
            buf,
            segs[j].sn,
        )
}

/// The acknowledgement that answers `a`.
pub open spec fn ack_segment(a: AckItem, conv: u32, wnd: u16, una: u32) -> SegmentView {
    SegmentView::control(conv, Command::Ack, wnd, a.ts, a.sn, una)
}

/// The acknowledgements that answer `acks`, in order.
pub open spec fn ack_segments(acks: Seq<AckItem>, conv: u32, wnd: u16, una: u32) -> Seq<SegmentView> {
    Seq::new(acks.len(), |i: int| ack_segment(acks[i], conv, wnd, una))
}

impl KcpCoreView {
    /// Both halves are well-formed and belong to this engine, and every
    /// segment in flight has left at least once.
    pub open spec fn wf(self) -> bool {
        &&& self.cfg.valid()
        &&& self.tx.wf()
        &&& self.rx.wf()
        &&& self.tx.conv == self.conv
        &&& self.tx.cfg == self.cfg
        &&& self.tx.mss == self.mss
        &&& self.rx.rcv_wnd == self.cfg.rcv_wnd
        &&& steady(self.tx.buf)
    }

    /// A fresh engine. The side that opens the stream has the opening
    /// segment waiting to be sent.
    pub open spec fn spec_new(conv: u32, cfg: KcpConfig, mss: u32, initiator: bool) -> KcpCoreView {
        let tx = SenderView::spec_new(conv, cfg, mss);
        KcpCoreView {
            conv,
            cfg,
            mss,
            initiator,
            state: StreamState::Connecting,
            error: None,
            tx: if initiator {
                tx.queued(seq![SegmentView::control(conv, Command::Syn, 0, 0, 0, 0)])
            } else {
                tx
            },
            rx: ReceiverView::spec_new(cfg.rcv_wnd),
            current: 0,
            ts_flush: 0,
            probe: Probe { wait: 0, ts: 0, ask: false, tell: false },
            close_at: 0,
        }
    }

    /// The state with another sender.
    pub open spec fn with_tx(self, tx: SenderView) -> KcpCoreView {
        KcpCoreView { tx, ..self }
    }

    /// The state with another receiver.
    pub open spec fn with_rx(self, rx: ReceiverView) -> KcpCoreView {
        KcpCoreView { rx, ..self }
    }

    /// The state at another point of the stream's life.
    pub open spec fn with_state(self, state: StreamState) -> KcpCoreView {
        KcpCoreView { state, ..self }
    }

    /// The state with another probing.
    pub open spec fn with_probe(self, probe: Probe) -> KcpCoreView {
        KcpCoreView { probe, ..self }
    }

    /// The stream takes data to send.
    pub open spec fn writable(self) -> bool {
        self.state == StreamState::Connecting || self.state == StreamState::Established
    }

    /// The error that a closed stream reports.
    pub open spec fn terminal_error(self) -> KcpError {
        match self.error {
            Some(e) => e,
            None => KcpError::StreamClosed,
        }
    }

    /// The state once the own half is closed at `current`: the end of the
    /// stream waits behind the data, and the wait for the peer begins.
    pub open spec fn spec_close(self) -> KcpCoreView {
        if self.writable() {
            KcpCoreView {
                state: StreamState::Closing,
                tx: self.tx.queued(seq![SegmentView::control(self.conv, Command::Fin, 0, 0, 0, 0)]),
                close_at: (self.current + self.cfg.linger_timeout) as u64,
                ..self
            }
        } else {
            self
        }
    }

    /// The state after the stream has been cut off for the reason `e`.
    pub open spec fn spec_abort(self, e: KcpError) -> KcpCoreView {
        if self.state == StreamState::Closed {
            self
        } else {
            KcpCoreView { state: StreamState::Closed, error: Some(e), ..self }
        }
    }

    /// The stream takes the segment in: it is not closed, and the segment
    /// belongs to its conversation.
    pub open spec fn takes(self, s: SegmentView) -> bool {
        self.state != StreamState::Closed && s.conv == self.conv
    }

    /// The state of the stream's life after a segment of the command `cmd`
    /// has arrived: the side that opened knows the peer by any segment, the
    /// other side by the opening segment.
    pub open spec fn heard(self, cmd: Command) -> StreamState {
        if self.state == StreamState::Connecting && (self.initiator || cmd == Command::Syn) {
            StreamState::Established
        } else {
            self.state
        }
    }

    /// The sender after the window and the expected number that every
    /// segment carries have been taken in.
    pub open spec fn tx_heard(self, s: SegmentView) -> SenderView {
        SenderView { rmt_wnd: s.wnd, ..self.tx }.spec_on_una(s.una)
    }

    /// The state after one segment has arrived. A closed stream and a
    /// segment of another conversation change nothing.
    pub open spec fn spec_on_segment(self, s: SegmentView) -> KcpCoreView {
        if self.state == StreamState::Closed || s.conv != self.conv {
            self
        } else {
            let base = self.with_state(self.heard(s.cmd)).with_tx(self.tx_heard(s));
            match s.cmd {
                Command::Ack => base.with_tx(base.tx.spec_on_ack(s.sn, s.ts, self.current)),
                Command::Push => base.with_rx(self.rx.spec_on_push(s)),
                Command::Fin => base.with_rx(self.rx.spec_on_push(s)),
                Command::Syn => base.with_rx(self.rx.spec_on_push(s)),
                Command::Wask => base.with_probe(self.probe.spec_asked()),
                Command::Wins => base,
                Command::Ping => base,
            }
        }
    }

    /// The state after the first `n` segments of a datagram have arrived,
    /// in order.
    pub open spec fn spec_on_segments(self, segs: Seq<SegmentView>, n: int) -> KcpCoreView
        decreases n,
    {
        if n <= 0 {
            self
        } else {
            self.spec_on_segments(segs, n - 1).spec_on_segment(segs[n - 1])
        }
    }

    /// The window that outgoing segments advertise: the free places of the
    /// receive queue.
    pub open spec fn wnd(self) -> u16 {
        self.rx.spec_window() as u16
    }

    /// The packer of a flush after the acknowledgements and the probes.
    pub open spec fn flush_control(self) -> PackerView {
        PackerView::spec_new(self.mss + HEADER_LEN).add_all(
            ack_segments(self.rx.acks, self.conv, self.wnd(), self.rx.rcv_nxt),
        ).add_all(
            self.probe.spec_advance(self.tx.rmt_wnd, self.current).segments(
                self.conv,
                self.wnd(),
                self.rx.rcv_nxt,
            ),
        )
    }

    /// The sender of a flush after the waiting segments have got their
    /// numbers.
    pub open spec fn flush_launched(self) -> SenderView {
        self.tx.spec_launch(self.current)
    }

    /// What the pass of a flush over the buffer meets.
    pub open spec fn flush_outcome(self) -> Outcome {
        outcome_of(self.flush_launched().buf, self.current, &self.cfg)
    }

    /// The datagrams that a flush hands out: the acknowledgements that are
    /// due, the window probes, then every segment in flight that is due,
    /// packed in this order. A closed stream sends nothing.
    pub open spec fn spec_flush_output(self) -> Seq<Seq<u8>> {
        if self.state == StreamState::Closed {
            Seq::empty()
        } else {
            let launched = self.flush_launched();
            self.flush_control().add_all(
                transmitted(
                    launched.buf,
                    launched.buf.len() as int,
                    self.current,
                    self.wnd(),
                    self.rx.rcv_nxt,
                    &self.cfg,
                ),
            ).finish()
        }
    }

    /// The sender after a flush.
    pub open spec fn flush_tx(self) -> SenderView {
        self.flush_launched().spec_schedule(self.current, self.wnd(), self.rx.rcv_nxt).spec_react(
            self.flush_outcome(),
        )
    }

    /// The state after a flush. A stream whose segment has timed out once
    /// too often is closed as dead; a closing stream that has nothing left
    /// to send and has seen the peer's end is closed.
    pub open spec fn spec_flush(self) -> KcpCoreView {
        if self.state == StreamState::Closed {
            self
        } else {
            let tx = self.flush_tx();
            let dead = self.flush_outcome().dead;
            KcpCoreView {
                tx,
                rx: self.rx.without_acks(),
                probe: self.probe.spec_advance(self.tx.rmt_wnd, self.current).spec_clear(),
                state: if dead || (self.state == StreamState::Closing && tx.idle()
                    && self.rx.peer_fin) {
                    StreamState::Closed
                } else {
                    self.state
                },
                error: if dead {
                    Some(KcpError::DeadLink)
                } else {
                    self.error
                },
                ..self
            }
        }
    }

    /// The state with the clock at `now`; a closing stream whose wait for
    /// the peer is over is closed.
    pub open spec fn at_time(self, now: u32) -> KcpCoreView {
        KcpCoreView {
            current: now,
            state: if self.state == StreamState::Closing && now >= self.close_at {
                StreamState::Closed
            } else {
                self.state
            },
            ..self
        }
    }

    /// A flush is due at `now`.
    pub open spec fn flush_due(self, now: u32) -> bool {
        now >= self.ts_flush
    }

    /// The state after an update at `now`.
    pub open spec fn spec_update(self, now: u32) -> KcpCoreView {
        if self.flush_due(now) {
            KcpCoreView {
                ts_flush: (now + self.cfg.interval) as u64,
                ..self.at_time(now).spec_flush()
            }
        } else {
            self.at_time(now)
        }
    }

    /// The datagrams that an update at `now` hands out.
    pub open spec fn spec_update_output(self, now: u32) -> Seq<Seq<u8>> {
        if self.flush_due(now) {
            self.at_time(now).spec_flush_output()
        } else {
            Seq::empty()
        }
    }

    /// The stream has something to send that need not wait for the next
    /// tick: in no-delay mode an acknowledgement, and in any mode a queued
    /// segment that the window has room for.
    pub open spec fn wants_flush(self) -> bool {
        &&& self.state != StreamState::Closed
        &&& (self.cfg.nodelay && self.rx.acks.len() > 0) || (self.tx.queue.len() > 0
            && self.tx.in_flight() < self.tx.window())
    }

    /// When the engine wants to be updated next: at the next flush, or
    /// when a segment in flight is due again, whichever is earlier.
    pub open spec fn spec_check(self) -> u64 {
        earliest(self.tx.buf, self.tx.buf.len() as int, self.ts_flush)
    }
}

impl KcpCore {
    /// The engine is well-formed.
    pub open spec fn wf(&self) -> bool {
        self@.wf()
    }

    /// A fresh engine for the conversation `conv`, where each datagram
    /// loses `overhead` bytes to the layer below.
    pub fn new(conv: u32, cfg: KcpConfig, overhead: u32, initiator: bool) -> (c: KcpCore)
        requires
            cfg.valid(),
            cfg.spec_mss(overhead) >= 1,
        ensures
            c.wf(),
            c@ == KcpCoreView::spec_new(conv, cfg, cfg.spec_mss(overhead) as u32, initiator),
    {
        let mss: u32 = cfg.mss(overhead).unwrap();
        let mut tx = Sender::new(conv, cfg, mss);
        if initiator {
            tx.push_control(Command::Syn);
        }
        KcpCore {
            conv,
            cfg,
            mss,
            initiator,
            state: StreamState::Connecting,
            error: None,
            tx,
            rx: Receiver::new(cfg.rcv_wnd),
            current: 0,
            ts_flush: 0,
            probe: Probe { wait: 0, ts: 0, ask: false, tell: false },
            close_at: 0,
        }
    }

    /// Queues a message. A stream whose own half is closed takes none.
    pub fn send(&mut self, data: &[u8]) -> (r: Result<(), KcpError>)
        requires
            old(self).wf(),
        ensures
            final(self).wf(),
            match r {
                Ok(()) => {
                    &&& old(self)@.writable()
                    &&& old(self)@.tx.accepts(data@.len() as int)
                    &&& final(self)@ == old(self)@.with_tx(old(self)@.tx.spec_send(data@))
                },
                Err(e) => {
                    &&& final(self)@ == old(self)@
                    &&& e == if !old(self)@.writable() {
                        KcpError::StreamClosed
                    } else {
                        KcpError::SendQueueFull
                    }
                    &&& !(old(self)@.writable() && old(self)@.tx.accepts(data@.len() as int))
                },
            },
    {
        if self.state != StreamState::Connecting && self.state != StreamState::Established {
            return Err(KcpError::StreamClosed);
        }
        let r = self.tx.send(data);
        assert(r is Ok ==> self@ =~= old(self)@.with_tx(old(self)@.tx.spec_send(data@)));
        assert(r is Err ==> self@ =~= old(self)@);
        r
    }

    /// Takes the next complete message. Where none is ready, a closed
    /// stream reports why it is closed, and any other asks to wait.
    pub fn recv(&mut self) -> (r: Result<Vec<u8>, KcpError>)
        requires
            old(self).wf(),
        ensures
            final(self).wf(),
            final(self).rx.rcv_nxt >= old(self).rx.rcv_nxt,
            match r {
                Ok(msg) => {
                    &&& old(self)@.rx.ready_len() > 0
                    &&& msg@ == payload_concat(old(self)@.rx.queue, old(self)@.rx.ready_len())
                    &&& final(self)@ == old(self)@.with_rx(old(self)@.rx.spec_recv())
                },
                Err(e) => {
                    &&& old(self)@.rx.ready_len() == 0
                    &&& final(self)@ == old(self)@
                    &&& e == if old(self).state == StreamState::Closed {
                        old(self)@.terminal_error()
                    } else {
                        KcpError::WouldBlock
                    }
                },
            },
    {
        match self.rx.recv() {
            Ok(msg) => {
                assert(self@ =~= old(self)@.with_rx(old(self)@.rx.spec_recv()));
                Ok(msg)
            },
            Err(_) => {
                assert(self@ =~= old(self)@);
                if self.state == StreamState::Closed {
                    match self.error {
                        Some(e) => Err(e),
                        None => Err(KcpError::StreamClosed),
                    }
                } else {
                    Err(KcpError::WouldBlock)
                }
            },
        }
    }

    /// Closes the own half of the stream: the end of the stream is sent
    /// once everything queued before it has left.
    pub fn close(&mut self)
        requires
            old(self).wf(),
        ensures
            final(self).wf(),
            final(self)@ == old(self)@.spec_close(),
    {
        if self.state == StreamState::Connecting || self.state == StreamState::Established {
            self.tx.push_control(Command::Fin);
            self.state = StreamState::Closing;
            self.close_at = self.current as u64 + self.cfg.linger_timeout as u64;
            assert(self@ =~= old(self)@.spec_close());
        }
    }

    /// Cuts the stream off for the reason `e`.
    pub fn abort(&mut self, e: KcpError)
        requires
            old(self).wf(),
        ensures
            final(self).wf(),
            final(self)@ == old(self)@.spec_abort(e),
    {
        if self.state != StreamState::Closed {
            self.state = StreamState::Closed;
            self.error = Some(e);
            assert(self@ =~= old(self)@.spec_abort(e));
        }
    }

    /// Takes in one segment.
    pub fn on_segment(&mut self, seg: Segment)
        requires
            old(self).wf(),
        ensures
            final(self).wf(),
            final(self)@ == old(self)@.spec_on_segment(seg@),
            final(self).rx.rcv_nxt >= old(self).rx.rcv_nxt,
            final(self).tx.snd_una >= old(self).tx.snd_una,
            old(self)@.takes(seg@) && seg.cmd == Command::Ack ==> absent(
                final(self)@.tx.buf,
                seg.sn,
            ),
            none_added(old(self)@.tx.buf, final(self)@.tx.buf),
            final(self).conv == old(self).conv,
            old(self).state != StreamState::Closed ==> final(self).state != StreamState::Closed,
            old(self)@.takes(seg@) && seg.cmd.spec_is_sequenced() && seg.sn < old(self).rx.rcv_nxt
                ==> final(self)@.rx == old(self)@.rx.acked(seg@),
    {
        if self.state == StreamState::Closed || seg.conv != self.conv {
            return ;
        }
        if self.state == StreamState::Connecting && (self.initiator || seg.cmd == Command::Syn) {
            self.state = StreamState::Established;
        }
        self.tx.rmt_wnd = seg.wnd;
        self.tx.on_una(seg.una);
        assert(self.tx@ =~= old(self)@.tx_heard(seg@));
        let ghost heard = self.tx@.buf;
        match seg.cmd {
            Command::Ack => {
                self.tx.on_ack(seg.sn, seg.ts, self.current);
            },
            Command::Push => {
                self.rx.on_push(seg);
            },
            Command::Fin => {
                self.rx.on_push(seg);
            },
            Command::Syn => {
                self.rx.on_push(seg);
            },
            Command::Wask => {
                self.probe.tell = true;
            },
            Command::Wins => {},
            Command::Ping => {},
        }
        assert(self@ =~= old(self)@.spec_on_segment(seg@));
        assert forall|n: u32| absent(old(self)@.tx.buf, n) implies #[trigger] absent(
            self@.tx.buf,
            n,
        ) by {
            assert(absent(heard, n));
        }
    }

    /// Takes in a list of segments, in order.
    pub fn on_segments(&mut self, segs: Vec<Segment>)
        requires
            old(self).wf(),
        ensures
            final(self).wf(),
            final(self)@ == old(self)@.spec_on_segments(segment_views(segs@), segs@.len() as int),
            final(self).rx.rcv_nxt >= old(self).rx.rcv_nxt,
            final(self).tx.snd_una >= old(self).tx.snd_una,
            old(self).state != StreamState::Closed ==> acked_absent(
                final(self)@.tx.buf,
                segment_views(segs@),
                old(self).conv,
                segs@.len() as int,
            ),
    {
        let ghost views = segment_views(segs@);
        for seg in it: segs
            invariant
                views == segment_views(it.seq()),
                self.wf(),
                self@ == old(self)@.spec_on_segments(views, it.index() as int),
                self.rx.rcv_nxt >= old(self).rx.rcv_nxt,
                self.tx.snd_una >= old(self).tx.snd_una,
                self.conv == old(self).conv,
                old(self).state != StreamState::Closed ==> self.state != StreamState::Closed,
                old(self).state != StreamState::Closed ==> acked_absent(
                    self@.tx.buf,
                    views,
                    old(self).conv,
                    it.index() as int,
                ),
        {
            assert(views[it.index() as int] == seg@);
            let ghost before = self@.tx.buf;
            self.on_segment(seg);
            proof {
                if old(self).state != StreamState::Closed {
                    assert forall|j: int|
                        0 <= j < it.index() + 1 && (#[trigger] views[j]).cmd == Command::Ack
                            && views[j].conv == old(self).conv implies absent(
                        self@.tx.buf,
                        views[j].sn,
                    ) by {
                        if j < it.index() {
                            assert(absent(before, views[j].sn));
                        }
                    }
                }
            }
        }
        assert(views.len() == segs@.len());
    }

    /// Takes in a datagram: every segment of it that belongs to this
    /// conversation, or, where it is malformed, none. Returns the bytes
    /// consumed.
    pub fn input(&mut self, datagram: &[u8]) -> (r: Result<usize, KcpError>)
        requires
            old(self).wf(),
        ensures
            final(self).wf(),
            final(self).rx.rcv_nxt >= old(self).rx.rcv_nxt,
            final(self).tx.snd_una >= old(self).tx.snd_una,
            match r {
                Ok(n) => {
                    &&& n == datagram@.len()
                    &&& spec_decode_all(datagram@) is Some
                    &&& final(self)@ == old(self)@.spec_on_segments(
                        spec_decode_all(datagram@).unwrap(),
                        spec_decode_all(datagram@).unwrap().len() as int,
                    )
                    &&& old(self).state != StreamState::Closed ==> acked_absent(
                        final(self)@.tx.buf,
                        spec_decode_all(datagram@).unwrap(),
                        old(self).conv,
                        spec_decode_all(datagram@).unwrap().len() as int,
                    )
                },
                Err(e) => {
                    &&& e == KcpError::InvalidSegment
                    &&& spec_decode_all(datagram@) is None
                    &&& final(self)@ == old(self)@
                },
            },
    {
        match Segment::decode_all(datagram) {
            Err(e) => Err(e),
            Ok(segs) => {
                assert(segment_views(segs@).len() == segs@.len());
                self.on_segments(segs);
                Ok(datagram.len())
            },
        }
    }

    /// Hands the acknowledgements that are due to the packer.
    fn flush_acks(&mut self, wnd: u16, una: u32, packer: &mut Packer)
        requires
            old(self).wf(),
            old(packer).wf(),
            old(packer).limit >= HEADER_LEN,
        ensures
            final(self)@ == old(self)@.with_rx(old(self)@.rx.without_acks()),
            final(self).wf(),
            final(packer).wf(),
            final(packer).limit == old(packer).limit,
            final(packer)@ == old(packer)@.add_all(
                ack_segments(old(self)@.rx.acks, old(self).conv, wnd, una),
            ),
    {
        let acks = self.rx.take_acks();
        let ghost all = ack_segments(acks@, self.conv, wnd, una);
        let mut i: usize = 0;
        assert(all.subrange(0, 0) =~= Seq::empty());
        while i < acks.len()
            invariant
                i <= acks.len(),
                all == ack_segments(acks@, self.conv, wnd, una),
                packer.wf(),
                packer.limit == old(packer).limit,
                packer.limit >= HEADER_LEN,
                packer@ == old(packer)@.add_all(all.subrange(0, i as int)),
            decreases acks.len() - i,
        {
            let seg = Segment::control(self.conv, Command::Ack, wnd, acks[i].ts, acks[i].sn, una);
            proof {
                assert(seg@ == all[i as int]);
                lemma_add_all_push(old(packer)@, all.subrange(0, i as int), seg@);
                assert(all.subrange(0, i as int).push(seg@) =~= all.subrange(0, i + 1));
            }
            packer.add(&seg);
            i = i + 1;
        }
        assert(all.subrange(0, acks.len() as int) =~= all);
        assert(self@ =~= old(self)@.with_rx(old(self)@.rx.without_acks()));
    }

    /// Looks at the peer's window and hands the probes that are due to the
    /// packer.
    fn flush_probes(&mut self, wnd: u16, una: u32, packer: &mut Packer)
        requires
            old(packer).wf(),
            old(packer).limit >= HEADER_LEN,
        ensures
            final(self)@ == old(self)@.with_probe(
                old(self).probe.spec_advance(old(self).tx.rmt_wnd, old(self).current).spec_clear(),
            ),
            final(packer).wf(),
            final(packer).limit == old(packer).limit,
            final(packer)@ == old(packer)@.add_all(
                old(self).probe.spec_advance(old(self).tx.rmt_wnd, old(self).current).segments(
                    old(self).conv,
                    wnd,
                    una,
                ),
            ),
    {
        self.probe.advance(self.tx.rmt_wnd, self.current);
        let ghost probe = self.probe;
        let ghost ask = SegmentView::control(self.conv, Command::Wask, wnd, 0, 0, una);
        let ghost tell = SegmentView::control(self.conv, Command::Wins, wnd, 0, 0, una);
        let ghost first: Seq<SegmentView> = if probe.ask {
            seq![ask]
        } else {
            Seq::empty()
        };
        if self.probe.ask {
            let seg = Segment::control(self.conv, Command::Wask, wnd, 0, 0, una);
            proof {
                lemma_add_all_push(old(packer)@, Seq::empty(), ask);
                assert(Seq::<SegmentView>::empty().push(ask) =~= seq![ask]);
            }
            packer.add(&seg);
        }
        assert(packer@ == old(packer)@.add_all(first));
        if self.probe.tell {
            let seg = Segment::control(self.conv, Command::Wins, wnd, 0, 0, una);
            proof {
                lemma_add_all_push(old(packer)@, first, tell);
                assert(first.push(tell) =~= probe.segments(self.conv, wnd, una));
            }
            packer.add(&seg);
        } else {
            assert(first =~= probe.segments(self.conv, wnd, una));
        }
        self.probe.ask = false;
        self.probe.tell = false;
        assert(self@ =~= old(self)@.with_probe(probe.spec_clear()));
    }

    /// Sends what is due: the acknowledgements, the window probes, and
    /// every segment in flight that has never left, has timed out or has
    /// been passed over often enough, packed into datagrams of at most
    /// `mss` and a header's bytes.
    pub fn flush(&mut self) -> (out: Vec<Vec<u8>>)
        requires
            old(self).wf(),
        ensures
            final(self).wf(),
            final(self)@ == old(self)@.spec_flush(),
            datagram_views(out@) == old(self)@.spec_flush_output(),
            forall|i: int| 0 <= i < out.len() ==> 0 < (#[trigger] out[i])@.len() <= old(self).mss + HEADER_LEN,
            final(self).rx.rcv_nxt == old(self).rx.rcv_nxt,
            final(self).tx.snd_una == old(self).tx.snd_una,
            old(self).state != StreamState::Closed ==> forall|i: int|
                0 <= i < final(self)@.tx.buf.len() ==> (#[trigger] final(self)@.tx.buf[i]).resendts
                    > final(self).current,
    {
        if self.state == StreamState::Closed {
            let out: Vec<Vec<u8>> = Vec::new();
            assert(datagram_views(out@) =~= Seq::empty());
            return out;
        }
        let wnd = self.rx.window();
        let una = self.rx.rcv_nxt;
        let mut packer = Packer::new(self.mss as usize + HEADER_LEN);
        self.flush_acks(wnd, una, &mut packer);
        self.flush_probes(wnd, una, &mut packer);
        assert(packer@ == old(self)@.flush_control());
        let ghost before = self.tx@;
        self.tx.launch(self.current);
        let ghost launched = self.tx@;
        let o = self.tx.schedule(self.current, wnd, una, &mut packer);
        proof {
            let after = self.tx@.buf;
            assert forall|i: int| 0 <= i < after.len() implies (#[trigger] after[i]).xmit >= 1
                && after[i].rto >= 1 && after[i].resendts > self.current by {
                assert(after[i] == launched.buf[i].sent(self.current, wnd, una, &self.cfg));
                if i < before.buf.len() {
                    assert(launched.buf[i] == before.buf[i]);
                } else {
                    assert(launched.buf[i] == before.launched(i - before.buf.len(), self.current));
                }
            }
        }
        self.tx.react(o);
        if o.dead {
            self.state = StreamState::Closed;
            self.error = Some(KcpError::DeadLink);
        } else if self.state == StreamState::Closing && self.tx.is_idle() && self.rx.peer_fin {
            self.state = StreamState::Closed;
        }
        assert(self@ =~= old(self)@.spec_flush());
        packer.finish()
    }

    /// Moves the clock to `now` and flushes where a flush is due.
    pub fn update(&mut self, now: u32) -> (out: Vec<Vec<u8>>)
        requires
            old(self).wf(),
        ensures
            final(self).wf(),
            final(self)@ == old(self)@.spec_update(now),
            datagram_views(out@) == old(self)@.spec_update_output(now),
            forall|i: int| 0 <= i < out.len() ==> 0 < (#[trigger] out[i])@.len() <= old(self).mss + HEADER_LEN,
            final(self).rx.rcv_nxt == old(self).rx.rcv_nxt,
            final(self).tx.snd_una == old(self).tx.snd_una,
    {
        self.current = now;
        if self.state == StreamState::Closing && now as u64 >= self.close_at {
            self.state = StreamState::Closed;
        }
        assert(self@ =~= old(self)@.at_time(now));
        if now as u64 >= self.ts_flush {
            let out = self.flush();
            self.ts_flush = now as u64 + self.cfg.interval as u64;
            assert(self@ =~= old(self)@.spec_update(now));
            out
        } else {
            let out: Vec<Vec<u8>> = Vec::new();
            assert(datagram_views(out@) =~= Seq::empty());
            out
        }
    }

    /// The stream has something to send that need not wait for the next
    /// tick.
    pub fn flush_now(&self) -> (r: bool)
        requires
            self.wf(),
        ensures
            r == self@.wants_flush(),
    {
        if self.state == StreamState::Closed {
            return false;
        }
        if self.cfg.nodelay && self.rx.acks.len() > 0 {
            return true;
        }
        self.tx.queue.len() > 0 && self.tx.snd_nxt - self.tx.snd_una < self.tx.window()
    }

    /// When the engine wants to be updated next.
    pub fn check(&self, now: u32) -> (next: u64)
        requires
            self.wf(),
        ensures
            next == self@.spec_check(),
    {
        self.tx.next_timeout(self.ts_flush)
    }
}

} // verus!
