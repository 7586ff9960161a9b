use vstd::prelude::*;
use std::collections::VecDeque;
use crate::config::KcpConfig;
use crate::error::KcpError;
use crate::rtt::{min_int, Rtt};
use crate::segment::{segment_views, Command, Segment, SegmentView, MAX_PAYLOAD};
use crate::wire::take_bytes;

verus! {

/// The largest number of fragments one message can have: the fragment
/// index is one byte and counts down to 0.
pub const MAX_FRAGMENTS: usize = 256;

/// The slow-start threshold of a fresh sender, segments.
pub const SSTHRESH_INITIAL: u32 = 2;

/// A segment in flight, with what the sender knows of its fate.
pub struct SendEntry {
    pub seg: Segment,
    /// When the segment is due again, milliseconds.
    pub resendts: u64,
    /// The segment's own retransmission timeout.
    pub rto: u32,
    /// Acknowledgements of later segments seen since it last left.
    pub fastack: u32,
    /// How often it has left.
    pub xmit: u32,
}

/// A segment in flight as a mathematical value.
#[verifier::ext_equal]
pub struct SendEntryView {
    pub seg: SegmentView,
    pub resendts: u64,
    pub rto: u32,
    pub fastack: u32,
    pub xmit: u32,
}

impl View for SendEntry {
    type V = SendEntryView;

    open spec fn view(&self) -> SendEntryView {
        SendEntryView {
            seg: self.seg@,
            resendts: self.resendts,
            rto: self.rto,
            fastack: self.fastack,
            xmit: self.xmit,
        }
    }
}

/// The views of a sequence of entries, in order.
pub open spec fn entry_views(s: Seq<SendEntry>) -> Seq<SendEntryView> {
    s.map_values(|e: SendEntry| e@)
}

/// The sending half of an engine.
pub struct Sender {
    pub conv: u32,
    pub cfg: KcpConfig,
    /// Payload capacity of one segment.
    pub mss: u32,
    /// The oldest sequence number not yet acknowledged.
    pub snd_una: u32,
    /// The sequence number that the next segment gets.
    pub snd_nxt: u32,
    /// Segments that wait for a sequence number.
    pub queue: VecDeque<Segment>,
    /// Segments in flight, by sequence number.
    pub buf: Vec<SendEntry>,
    /// Congestion window, segments.
    pub cwnd: u32,
    /// Slow-start threshold, segments.
    pub ssthresh: u32,
    /// Bytes acknowledged towards the next step of the congestion window.
    pub incr: u32,
    /// The window that the peer advertised last.
    pub rmt_wnd: u16,
    pub rtt: Rtt,
}

/// The sending half as a mathematical value.
#[verifier::ext_equal]
pub struct SenderView {
    pub conv: u32,
    pub cfg: KcpConfig,
    pub mss: u32,
    pub snd_una: u32,
    pub snd_nxt: u32,
    pub queue: Seq<SegmentView>,
    pub buf: Seq<SendEntryView>,
    pub cwnd: u32,
    pub ssthresh: u32,
    pub incr: u32,
    pub rmt_wnd: u16,
    pub rtt: Rtt,
}

impl View for Sender {
    type V = SenderView;

    open spec fn view(&self) -> SenderView {
        SenderView {
            conv: self.conv,
            cfg: self.cfg,
            mss: self.mss,
            snd_una: self.snd_una,
            snd_nxt: self.snd_nxt,
            queue: segment_views(self.queue@),
            buf: entry_views(self.buf@),
            cwnd: self.cwnd,
            ssthresh: self.ssthresh,
            incr: self.incr,
            rmt_wnd: self.rmt_wnd,
            rtt: self.rtt,
        }
    }
}

/// Each entry has a larger sequence number than the one before it.
pub open spec fn entries_ascending(s: Seq<SendEntryView>) -> bool {
    forall|i: int, j: int|
        0 <= i < j < s.len() ==> (#[trigger] s[i]).seg.sn < (#[trigger] s[j]).seg.sn
}

/// Every entry has left at least once and has a timeout of at least one
/// millisecond.
pub open spec fn steady(buf: Seq<SendEntryView>) -> bool {
    forall|i: int| 0 <= i < buf.len() ==> (#[trigger] buf[i]).xmit >= 1 && buf[i].rto >= 1
}

/// No entry of the buffer has the number `sn`.
pub open spec fn absent(buf: Seq<SendEntryView>, sn: u32) -> bool {
    forall|i: int| 0 <= i < buf.len() ==> (#[trigger] buf[i]).seg.sn != sn
}

/// Every number that is absent from `before` is absent from `after`: no
/// entry has come into the buffer.
pub open spec fn none_added(before: Seq<SendEntryView>, after: Seq<SendEntryView>) -> bool {
    forall|k: u32| absent(before, k) ==> #[trigger] absent(after, k)
}

/// The oldest sequence number in flight, or `snd_nxt` where nothing is.
pub open spec fn first_unacked(buf: Seq<SendEntryView>, snd_nxt: u32) -> u32 {
    if buf.len() > 0 {
        buf[0].seg.sn
    } else {
        snd_nxt
    }
}

/// Pieces that a message of `len` bytes is cut into: `len / mss`, rounded up.
pub open spec fn fragment_count(len: int, mss: int) -> int {
    len / mss + if len % mss == 0 {
        0int
    } else {
        1int
    }
}

/// The `i`-th piece of a message: bytes `i * mss` up to `(i + 1) * mss`,
/// or up to the end; its fragment index counts the pieces that follow.
pub open spec fn fragment(bytes: Seq<u8>, mss: int, conv: u32, i: int) -> SegmentView {
    SegmentView {
        conv,
        cmd: Command::Push,
        frg: (fragment_count(bytes.len() as int, mss) - 1 - i) as u8,
        wnd: 0,
        ts: 0,
        sn: 0,
        una: 0,
        payload: bytes.subrange(i * mss, min_int((i + 1) * mss, bytes.len() as int)),
    }
}

/// The pieces of a message, in order.
pub open spec fn fragments(bytes: Seq<u8>, mss: int, conv: u32) -> Seq<SegmentView> {
    Seq::new(
        fragment_count(bytes.len() as int, mss) as nat,
        |i: int| fragment(bytes, mss, conv, i),
    )
}

/// `x + 1`, held at the largest `u32`.
pub open spec fn bump(x: u32) -> u32 {
    if x < u32::MAX {
        (x + 1) as u32
    } else {
        x
    }
}

/// An entry after an acknowledgement for `sn` has been seen: one that lies
/// below `sn` has been passed over once more.
pub open spec fn passed_over(e: SendEntryView, sn: u32) -> SendEntryView {
    if e.seg.sn < sn {
        SendEntryView { fastack: bump(e.fastack), ..e }
    } else {
        e
    }
}

/// The buffer after an acknowledgement for `sn` has been seen.
pub open spec fn all_passed_over(buf: Seq<SendEntryView>, sn: u32) -> Seq<SendEntryView> {
    Seq::new(buf.len(), |i: int| passed_over(buf[i], sn))
}

/// The index of the first entry at or behind `from` that is not below
/// `una`, or the buffer's length.
pub open spec fn first_not_below(buf: Seq<SendEntryView>, una: u32, from: int) -> int
    decreases buf.len() - from,
{
    if from < 0 || from >= buf.len() {
        buf.len() as int
    } else if buf[from].seg.sn >= una {
        from
    } else {
        first_not_below(buf, una, from + 1)
    }
}

/// The index of the first entry at or behind `from` with the number `sn`,
/// or the buffer's length.
pub open spec fn position_of(buf: Seq<SendEntryView>, sn: u32, from: int) -> int
    decreases buf.len() - from,
{
    if from < 0 || from >= buf.len() {
        buf.len() as int
    } else if buf[from].seg.sn == sn {
        from
    } else {
        position_of(buf, sn, from + 1)
    }
}

impl SenderView {
    /// Everything that holds of a sender but the place of `snd_una` at the
    /// head of the buffer.
    pub open spec fn ordered(self) -> bool {
        &&& self.cfg.valid()
        &&& 1 <= self.mss <= MAX_PAYLOAD
        &&& self.snd_una <= self.snd_nxt
        &&& entries_ascending(self.buf)
        &&& forall|i: int|
            0 <= i < self.buf.len() ==> {
                &&& self.snd_una <= (#[trigger] self.buf[i]).seg.sn < self.snd_nxt
                &&& self.buf[i].seg.cmd.spec_is_sequenced()
                &&& self.buf[i].seg.payload.len() <= self.mss
                &&& self.buf[i].seg.conv == self.conv
            }
        &&& forall|i: int|
            0 <= i < self.queue.len() ==> {
                &&& (#[trigger] self.queue[i]).cmd.spec_is_sequenced()
                &&& self.queue[i].payload.len() <= self.mss
                &&& self.queue[i].conv == self.conv
            }
        &&& 1 <= self.cwnd <= self.cfg.snd_wnd
        &&& self.incr < self.mss
        &&& self.rtt.wf(&self.cfg)
    }

    /// The buffer is in order within `snd_una` and `snd_nxt`, and `snd_una`
    /// is the oldest number in flight.
    pub open spec fn wf(self) -> bool {
        self.ordered() && self.snd_una == first_unacked(self.buf, self.snd_nxt)
    }

    /// The state with another buffer.
    pub open spec fn with_buf(self, buf: Seq<SendEntryView>) -> SenderView {
        SenderView { buf, ..self }
    }

    /// The state with `snd_una` at the oldest number in flight.
    pub open spec fn settled(self) -> SenderView {
        SenderView { snd_una: first_unacked(self.buf, self.snd_nxt), ..self }
    }

    /// The state with another round-trip estimate.
    pub open spec fn with_rtt(self, rtt: Rtt) -> SenderView {
        SenderView { rtt, ..self }
    }

    /// The state after one acknowledgement has opened the congestion window.
    pub open spec fn with_grown(self) -> SenderView {
        SenderView { cwnd: self.grown().0, incr: self.grown().1, ..self }
    }

    /// The buffer without the entry numbered `sn`.
    pub open spec fn without_sn(self, sn: u32) -> Seq<SendEntryView> {
        let idx = position_of(self.buf, sn, 0);
        if idx < self.buf.len() {
            self.buf.remove(idx)
        } else {
            self.buf
        }
    }

    /// The buffer holds an entry numbered `sn`.
    pub open spec fn holds(self, sn: u32) -> bool {
        position_of(self.buf, sn, 0) < self.buf.len()
    }

    /// The round-trip estimate after an acknowledgement stamped `ts` has
    /// arrived at `current`: a stamp from the future is no sample.
    pub open spec fn sampled(self, ts: u32, current: u32) -> Rtt {
        if current >= ts {
            self.rtt.spec_update((current - ts) as u32, &self.cfg)
        } else {
            self.rtt
        }
    }

    /// A sender that has sent nothing.
    pub open spec fn spec_new(conv: u32, cfg: KcpConfig, mss: u32) -> SenderView {
        SenderView {
            conv,
            cfg,
            mss,
            snd_una: 0,
            snd_nxt: 0,
            queue: Seq::empty(),
            buf: Seq::empty(),
            cwnd: if cfg.nc {
                cfg.snd_wnd as u32
            } else {
                1
            },
            ssthresh: SSTHRESH_INITIAL,
            incr: 0,
            rmt_wnd: cfg.rcv_wnd,
            rtt: Rtt::spec_new(&cfg),
        }
    }

    /// A message of `len` bytes can be queued: it has no more pieces than
    /// a fragment index can count, and the queue has room for them.
    pub open spec fn accepts(self, len: int) -> bool {
        let count = fragment_count(len, self.mss as int);
        count <= MAX_FRAGMENTS && self.queue.len() + count <= self.cfg.send_queue_max
    }

    /// The state with `segs` behind the queue.
    pub open spec fn queued(self, segs: Seq<SegmentView>) -> SenderView {
        SenderView { queue: self.queue + segs, ..self }
    }

    /// The state after the pieces of a message have joined the queue.
    pub open spec fn spec_send(self, bytes: Seq<u8>) -> SenderView {
        self.queued(fragments(bytes, self.mss as int, self.conv))
    }

    /// The state after the peer has said that it expects `una` next:
    /// everything below has arrived and leaves the buffer.
    pub open spec fn spec_on_una(self, una: u32) -> SenderView {
        let k = first_not_below(self.buf, una, 0);
        self.with_buf(self.buf.subrange(k, self.buf.len() as int)).settled()
    }

    /// The congestion window and the byte count towards its next step after
    /// one acknowledgement: below the threshold the window grows by one;
    /// above, `mss / cwnd` bytes are added to the count, and each full
    /// `mss` of it is one more segment. The window stays within `snd_wnd`.
    pub open spec fn grown(self) -> (u32, u32) {
        if self.cfg.nc || self.cwnd >= self.cfg.snd_wnd {
            (self.cwnd, self.incr)
        } else if self.cwnd < self.ssthresh {
            ((self.cwnd + 1) as u32, self.incr)
        } else {
            let acc = self.incr + self.mss / self.cwnd;
            if acc >= self.mss {
                ((self.cwnd + 1) as u32, (acc - self.mss) as u32)
            } else {
                (self.cwnd, acc as u32)
            }
        }
    }

    /// The state after an acknowledgement for `sn`, stamped `ts`, has
    /// arrived at time `current`: the round trip is measured, the entry
    /// leaves the buffer, every older entry has been passed over once more,
    /// `snd_una` moves up, and where an entry left the window opens.
    pub open spec fn spec_on_ack(self, sn: u32, ts: u32, current: u32) -> SenderView {
        let cleared = self.with_rtt(self.sampled(ts, current)).with_buf(
            all_passed_over(self.without_sn(sn), sn),
        ).settled();
        if self.holds(sn) {
            cleared.with_grown()
        } else {
            cleared
        }
    }

    /// Segments that have left and are not yet acknowledged.
    pub open spec fn in_flight(self) -> int {
        self.snd_nxt - self.snd_una
    }

    /// Nothing waits and nothing is in flight.
    pub open spec fn idle(self) -> bool {
        self.queue.len() == 0 && self.buf.len() == 0
    }
}

/// Where the pieces of a message begin and end.
pub proof fn lemma_fragment_bounds(len: int, mss: int, i: int)
    requires
        len >= 0,
        mss >= 1,
        0 <= i < fragment_count(len, mss),
    ensures
        0 <= i * mss < len,
        (i + 1) * mss == i * mss + mss,
        i < fragment_count(len, mss) - 1 ==> (i + 1) * mss < len,
        i == fragment_count(len, mss) - 1 ==> (i + 1) * mss >= len,
{
    let q = len / mss;
    let r = len % mss;
    assert(len == q * mss + r && 0 <= r < mss) by {
        vstd::arithmetic::div_mod::lemma_fundamental_div_mod(len, mss);
        vstd::arithmetic::div_mod::lemma_mod_bound(len, mss);
        vstd::arithmetic::mul::lemma_mul_is_commutative(q, mss);
    }
    assert(q >= 0) by {
        vstd::arithmetic::div_mod::lemma_div_pos_is_pos(len, mss);
    }
    assert((i + 1) * mss == i * mss + mss) by (nonlinear_arith);
    assert(0 <= i * mss) by (nonlinear_arith)
        requires
            0 <= i,
            mss >= 1,
    ;
    let c = fragment_count(len, mss);
    assert(i * mss < len) by (nonlinear_arith)
        requires
            len == q * mss + r,
            0 <= r < mss,
            0 <= i,
            (r == 0 && i <= q - 1) || (r > 0 && i <= q),
            mss >= 1,
    ;
    if i < c - 1 {
        assert((i + 1) * mss < len) by (nonlinear_arith)
            requires
                len == q * mss + r,
                0 <= r < mss,
                0 <= i,
                (r == 0 && i + 1 <= q - 1) || (r > 0 && i + 1 <= q),
                mss >= 1,
        ;
    }
    if i == c - 1 {
        assert((i + 1) * mss >= len) by (nonlinear_arith)
            requires
                len == q * mss + r,
                0 <= r < mss,
                (r == 0 && i + 1 == q) || (r > 0 && i + 1 == q + 1),
                mss >= 1,
        ;
    }
}

impl Sender {
    /// The sender is well-formed.
    pub open spec fn wf(&self) -> bool {
        self@.wf()
    }

    /// A sender that has sent nothing.
    pub fn new(conv: u32, cfg: KcpConfig, mss: u32) -> (s: Sender)
        requires
            cfg.valid(),
            1 <= mss <= MAX_PAYLOAD,
        ensures
            s.wf(),
            s@ == SenderView::spec_new(conv, cfg, mss),
    {
        let s = Sender {
            conv,
            cfg,
            mss,
            snd_una: 0,
            snd_nxt: 0,
            queue: VecDeque::new(),
            buf: Vec::new(),
            cwnd: if cfg.nc {
                cfg.snd_wnd as u32
            } else {
                1
            },
            ssthresh: SSTHRESH_INITIAL,
            incr: 0,
            rmt_wnd: cfg.rcv_wnd,
            rtt: Rtt::new(&cfg),
        };
        assert(s@.queue =~= Seq::empty());
        assert(s@.buf =~= Seq::empty());
        s
    }

    /// Cuts a message into pieces of at most `mss` bytes and queues them.
    /// An empty message has no pieces.
    pub fn send(&mut self, data: &[u8]) -> (r: Result<(), KcpError>)
        requires
            old(self).wf(),
        ensures
            final(self).wf(),
            match r {
                Ok(()) => old(self)@.accepts(data@.len() as int) && final(self)@ == old(
                    self,
                )@.spec_send(data@),
                Err(e) => e == KcpError::SendQueueFull && !old(self)@.accepts(data@.len() as int)
                    && final(self)@ == old(self)@,
            },
    {
        let mss: usize = self.mss as usize;
        let len: usize = data.len();
        if len / mss > MAX_FRAGMENTS {
            return Err(KcpError::SendQueueFull);
        }
        let count: usize = len / mss + if len % mss == 0 {
            0
        } else {
            1
        };
        if count > MAX_FRAGMENTS || count > self.cfg.send_queue_max || self.queue.len()
            > self.cfg.send_queue_max - count {
            return Err(KcpError::SendQueueFull);
        }
        let ghost want = fragments(data@, mss as int, self.conv);
        proof {
            if count > 0 {
                lemma_fragment_bounds(len as int, mss as int, 0);
            }
            assert(want.subrange(0, 0) =~= Seq::empty());
            assert(self@.queue + Seq::<SegmentView>::empty() =~= self@.queue);
            assert(self@ =~= old(self)@.queued(want.subrange(0, 0)));
        }
        let mut i: usize = 0;
        let mut start: usize = 0;
        while i < count
            invariant
                i <= count,
                count == fragment_count(len as int, mss as int),
                count <= MAX_FRAGMENTS,
                len == data@.len(),
                mss == self.mss,
                1 <= mss <= MAX_PAYLOAD,
                i < count ==> start == i * mss && start < len,
                want == fragments(data@, mss as int, self.conv),
                self@ == old(self)@.queued(want.subrange(0, i as int)),
                self@.wf(),
            decreases count - i,
        {
            proof {
                lemma_fragment_bounds(len as int, mss as int, i as int);
            }
            let end: usize = if len - start > mss {
                start + mss
            } else {
                len
            };
            let seg = Segment {
                conv: self.conv,
                cmd: Command::Push,
                frg: (count - 1 - i) as u8,
                wnd: 0,
                ts: 0,
                sn: 0,
                una: 0,
                payload: take_bytes(data, start, end),
            };
            assert(seg@ =~= want[i as int]);
            let ghost before = self@;
            self.queue.push_back(seg);
            proof {
                assert(want.subrange(0, i + 1) =~= want.subrange(0, i as int).push(want[i as int]));
                assert(self@.queue =~= before.queue.push(want[i as int]));
                assert(self@ =~= old(self)@.queued(want.subrange(0, i + 1)));
                assert forall|j: int| 0 <= j < self@.queue.len() implies {
                    &&& (#[trigger] self@.queue[j]).cmd.spec_is_sequenced()
                    &&& self@.queue[j].payload.len() <= self@.mss
                    &&& self@.queue[j].conv == self@.conv
                } by {
                    if j < before.queue.len() {
                        assert(self@.queue[j] == before.queue[j]);
                    }
                }
                if i + 1 < count {
                    lemma_fragment_bounds(len as int, mss as int, i + 1);
                }
            }
            start = end;
            i = i + 1;
        }
        assert(want.subrange(0, count as int) =~= want);
        Ok(())
    }

    /// Puts `snd_una` at the oldest number in flight.
    fn settle(&mut self)
        requires
            old(self)@.ordered(),
        ensures
            final(self)@ == old(self)@.settled(),
            final(self).wf(),
            final(self).snd_una >= old(self).snd_una,
            final(self)@.buf == old(self)@.buf,
    {
        self.snd_una = if self.buf.len() > 0 {
            self.buf[0].seg.sn
        } else {
            self.snd_nxt
        };
        proof {
            let buf = self@.buf;
            assert(buf == old(self)@.buf);
            assert forall|i: int| 0 <= i < buf.len() implies self@.snd_una <= (
            #[trigger] buf[i]).seg.sn by {
                if i > 0 {
                    assert(buf[0].seg.sn < buf[i].seg.sn);
                }
            }
            if buf.len() > 0 {
                assert(old(self)@.snd_una <= buf[0].seg.sn);
            }
        }
    }

    /// Drops from the buffer what the peer has received in order.
    pub fn on_una(&mut self, una: u32)
        requires
            old(self).wf(),
        ensures
            final(self).wf(),
            final(self)@ == old(self)@.spec_on_una(una),
            final(self).snd_una >= old(self).snd_una,
            forall|i: int|
                0 <= i < final(self)@.buf.len() ==> (#[trigger] final(self)@.buf[i]).seg.sn >= una,
            steady(old(self)@.buf) ==> steady(final(self)@.buf),
            none_added(old(self)@.buf, final(self)@.buf),
    {
        let ghost views = self@.buf;
        let mut k: usize = 0;
        while k < self.buf.len() && self.buf[k].seg.sn < una
            invariant
                k <= self.buf.len(),
                views == entry_views(self.buf@),
                first_not_below(views, una, 0) == first_not_below(views, una, k as int),
            decreases self.buf.len() - k,
        {
            k = k + 1;
        }
        if k > 0 {
            let rest = self.buf.split_off(k);
            self.buf = rest;
        }
        proof {
            let kept = views.subrange(k as int, views.len() as int);
            assert(entry_views(self.buf@) =~= kept);
            assert(self@ =~= old(self)@.with_buf(kept));
            assert forall|i: int| 0 <= i < kept.len() implies {
                &&& self@.snd_una <= (#[trigger] kept[i]).seg.sn < self@.snd_nxt
                &&& kept[i].seg.cmd.spec_is_sequenced()
                &&& kept[i].seg.payload.len() <= self@.mss
                &&& kept[i].seg.conv == self@.conv
                &&& kept[i].seg.sn >= una
            } by {
                assert(kept[i] == views[i + k]);
                assert(kept[0] == views[k as int]);
                if i > 0 {
                    assert(views[k as int].seg.sn < views[i + k].seg.sn);
                }
            }
            assert forall|i: int, j: int| 0 <= i < j < kept.len() implies (#[trigger] kept[i]).seg.sn
                < (#[trigger] kept[j]).seg.sn by {
                assert(kept[i] == views[i + k] && kept[j] == views[j + k]);
            }
            if steady(views) {
                assert forall|i: int| 0 <= i < kept.len() implies (#[trigger] kept[i]).xmit >= 1
                    && kept[i].rto >= 1 by {
                    assert(kept[i] == views[i + k]);
                }
            }
            assert forall|n: u32| absent(views, n) implies #[trigger] absent(kept, n) by {
                assert forall|i: int| 0 <= i < kept.len() implies (#[trigger] kept[i]).seg.sn
                    != n by {
                    assert(kept[i] == views[i + k]);
                }
            }
        }
        self.settle();
    }

    fn grow(&mut self)
        requires
            old(self).wf(),
        ensures
            final(self).wf(),
            final(self)@ == old(self)@.with_grown(),
    {
        if self.cfg.nc || self.cwnd >= self.cfg.snd_wnd as u32 {
        } else if self.cwnd < self.ssthresh {
            self.cwnd = self.cwnd + 1;
        } else {
            let acc: u32 = self.incr + self.mss / self.cwnd;
            if acc >= self.mss {
                self.cwnd = self.cwnd + 1;
                self.incr = acc - self.mss;
            } else {
                self.incr = acc;
            }
        }
        assert(self@ =~= old(self)@.with_grown());
    }

    /// Takes the entry numbered `sn` out of the buffer, if it is there.
    fn drop_acked(&mut self, sn: u32) -> (hit: bool)
        requires
            old(self)@.ordered(),
        ensures
            hit == old(self)@.holds(sn),
            final(self)@ == old(self)@.with_buf(old(self)@.without_sn(sn)),
            final(self)@.ordered(),
            forall|i: int|
                0 <= i < final(self)@.buf.len() ==> (#[trigger] final(self)@.buf[i]).seg.sn != sn,
            steady(old(self)@.buf) ==> steady(final(self)@.buf),
            none_added(old(self)@.buf, final(self)@.buf),
    {
        let ghost views = self@.buf;
        let mut idx: usize = 0;
        while idx < self.buf.len() && self.buf[idx].seg.sn != sn
            invariant
                idx <= self.buf.len(),
                views == entry_views(self.buf@),
                position_of(views, sn, 0) == position_of(views, sn, idx as int),
                forall|i: int| 0 <= i < idx ==> (#[trigger] views[i]).seg.sn != sn,
            decreases self.buf.len() - idx,
        {
            idx = idx + 1;
        }
        let hit = idx < self.buf.len();
        if hit {
            let _ = self.buf.remove(idx);
        }
        proof {
            let kept = old(self)@.without_sn(sn);
            assert(entry_views(self.buf@) =~= kept);
            assert(self@ =~= old(self)@.with_buf(kept));
            assert forall|i: int| 0 <= i < kept.len() implies {
                &&& (#[trigger] kept[i]).seg.sn != sn
                &&& self@.snd_una <= kept[i].seg.sn < self@.snd_nxt
                &&& kept[i].seg.cmd.spec_is_sequenced()
                &&& kept[i].seg.payload.len() <= self@.mss
                &&& kept[i].seg.conv == self@.conv
            } by {
                if hit && i >= idx {
                    assert(kept[i] == views[i + 1]);
                    assert(views[idx as int].seg.sn < views[i + 1].seg.sn);
                } else {
                    assert(kept[i] == views[i]);
                }
            }
            assert forall|i: int, j: int| 0 <= i < j < kept.len() implies (#[trigger] kept[i]).seg.sn
                < (#[trigger] kept[j]).seg.sn by {
                let a = if hit && i >= idx {
                    i + 1
                } else {
                    i
                };
                let b = if hit && j >= idx {
                    j + 1
                } else {
                    j
                };
                assert(kept[i] == views[a] && kept[j] == views[b]);
            }
            if steady(views) {
                assert forall|i: int| 0 <= i < kept.len() implies (#[trigger] kept[i]).xmit >= 1
                    && kept[i].rto >= 1 by {
                    if hit && i >= idx {
                        assert(kept[i] == views[i + 1]);
                    } else {
                        assert(kept[i] == views[i]);
                    }
                }
            }
            assert forall|n: u32| absent(views, n) implies #[trigger] absent(kept, n) by {
                assert forall|i: int| 0 <= i < kept.len() implies (#[trigger] kept[i]).seg.sn
                    != n by {
                    if hit && i >= idx {
                        assert(kept[i] == views[i + 1]);
                    } else {
                        assert(kept[i] == views[i]);
                    }
                }
            }
        }
        hit
    }

    /// Notes for every entry below `sn` that it was passed over.
    fn note_passed(&mut self, sn: u32)
        requires
            old(self)@.ordered(),
        ensures
            final(self)@ == old(self)@.with_buf(all_passed_over(old(self)@.buf, sn)),
            final(self)@.ordered(),
            forall|i: int|
                0 <= i < final(self)@.buf.len() ==> (#[trigger] final(self)@.buf[i]).seg
                    == old(self)@.buf[i].seg,
            steady(old(self)@.buf) ==> steady(final(self)@.buf),
            none_added(old(self)@.buf, final(self)@.buf),
    {
        let ghost kept = self@.buf;
        let mut i: usize = 0;
        while i < self.buf.len()
            invariant
                i <= self.buf.len(),
                self.buf.len() == kept.len(),
                forall|j: int|
                    0 <= j < i ==> (#[trigger] entry_views(self.buf@)[j]) == passed_over(
                        kept[j],
                        sn,
                    ),
                forall|j: int|
                    i <= j < kept.len() ==> (#[trigger] entry_views(self.buf@)[j]) == kept[j],
                self.conv == old(self).conv,
                self.cfg == old(self).cfg,
                self.mss == old(self).mss,
                self.snd_una == old(self).snd_una,
                self.snd_nxt == old(self).snd_nxt,
                self.queue == old(self).queue,
                self.cwnd == old(self).cwnd,
                self.ssthresh == old(self).ssthresh,
                self.incr == old(self).incr,
                self.rmt_wnd == old(self).rmt_wnd,
                self.rtt == old(self).rtt,
            decreases self.buf.len() - i,
        {
            let ghost before = entry_views(self.buf@);
            if self.buf[i].seg.sn < sn && self.buf[i].fastack < u32::MAX {
                self.buf[i].fastack = self.buf[i].fastack + 1;
            }
            proof {
                let after = entry_views(self.buf@);
                assert(before[i as int] == kept[i as int]);
                assert(after[i as int] =~= passed_over(kept[i as int], sn));
                assert forall|j: int| 0 <= j < kept.len() && j != i implies after[j]
                    == before[j] by {}
            }
            i = i + 1;
        }
        proof {
            let bumped = all_passed_over(kept, sn);
            assert(entry_views(self.buf@) =~= bumped);
            assert(self@ =~= old(self)@.with_buf(bumped));
            assert forall|i: int| 0 <= i < bumped.len() implies (#[trigger] bumped[i]).seg
                == kept[i].seg by {}
            assert forall|i: int| 0 <= i < bumped.len() implies {
                &&& self@.snd_una <= (#[trigger] bumped[i]).seg.sn < self@.snd_nxt
                &&& bumped[i].seg.cmd.spec_is_sequenced()
                &&& bumped[i].seg.payload.len() <= self@.mss
                &&& bumped[i].seg.conv == self@.conv
            } by {
                assert(bumped[i].seg == kept[i].seg);
            }
            assert forall|i: int, j: int| 0 <= i < j < bumped.len() implies (
            #[trigger] bumped[i]).seg.sn < (#[trigger] bumped[j]).seg.sn by {
                assert(bumped[i].seg == kept[i].seg && bumped[j].seg == kept[j].seg);
            }
            if steady(kept) {
                assert forall|i: int| 0 <= i < bumped.len() implies (#[trigger] bumped[i]).xmit
                    >= 1 && bumped[i].rto >= 1 by {
                    assert(bumped[i].xmit == kept[i].xmit && bumped[i].rto == kept[i].rto);
                }
            }
            assert forall|n: u32| absent(kept, n) implies #[trigger] absent(bumped, n) by {
                assert forall|i: int| 0 <= i < bumped.len() implies (#[trigger] bumped[i]).seg.sn
                    != n by {
                    assert(bumped[i].seg == kept[i].seg);
                }
            }
        }
    }

    /// Takes in an acknowledgement: measures the round trip, drops the
    /// acknowledged segment, notes for each older segment in flight that it
    /// was passed over, and opens the congestion window.
    pub fn on_ack(&mut self, sn: u32, ts: u32, current: u32)
        requires
            old(self).wf(),
        ensures
            final(self).wf(),
            final(self)@ == old(self)@.spec_on_ack(sn, ts, current),
            final(self).snd_una >= old(self).snd_una,
            forall|i: int|
                0 <= i < final(self)@.buf.len() ==> (#[trigger] final(self)@.buf[i]).seg.sn != sn,
            steady(old(self)@.buf) ==> steady(final(self)@.buf),
            none_added(old(self)@.buf, final(self)@.buf),
            absent(final(self)@.buf, sn),
    {
        if current >= ts {
            let cfg = self.cfg;
            self.rtt.update(current - ts, &cfg);
        }
        assert(self@ =~= old(self)@.with_rtt(old(self)@.sampled(ts, current)));
        let ghost sampled = self@;
        let hit = self.drop_acked(sn);
        let ghost dropped = self@;
        self.note_passed(sn);
        let ghost passed = self@;
        proof {
            assert forall|n: u32| absent(old(self)@.buf, n) implies #[trigger] absent(
                passed.buf,
                n,
            ) by {
                assert(sampled.buf == old(self)@.buf);
                assert(absent(dropped.buf, n));
            }
        }
        assert forall|i: int| 0 <= i < self@.buf.len() implies (#[trigger] self@.buf[i]).seg.sn
            != sn by {
            assert(self@.buf[i].seg == dropped.buf[i].seg);
        }
        self.settle();
        if hit {
            self.grow();
        }
    }

    /// Queues the opening or the end of the stream behind what waits.
    pub fn push_control(&mut self, cmd: Command)
        requires
            old(self).wf(),
            cmd == Command::Syn || cmd == Command::Fin,
        ensures
            final(self).wf(),
            final(self)@ == old(self)@.queued(
                seq![SegmentView::control(old(self).conv, cmd, 0, 0, 0, 0)],
            ),
    {
        let seg = Segment::control(self.conv, cmd, 0, 0, 0, 0);
        let ghost before = self@;
        self.queue.push_back(seg);
        proof {
            assert(self@.queue =~= before.queue + seq![seg@]);
            assert forall|j: int| 0 <= j < self@.queue.len() implies {
                &&& (#[trigger] self@.queue[j]).cmd.spec_is_sequenced()
                &&& self@.queue[j].payload.len() <= self@.mss
                &&& self@.queue[j].conv == self@.conv
            } by {
                if j < before.queue.len() {
                    assert(self@.queue[j] == before.queue[j]);
                }
            }
            assert(self@ =~= before.queued(seq![seg@]));
        }
    }

    /// Nothing waits and nothing is in flight.
    pub fn is_idle(&self) -> (r: bool)
        ensures
            r == self@.idle(),
    {
        self.queue.len() == 0 && self.buf.len() == 0
    }
}

} // verus!
