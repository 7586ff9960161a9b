use vstd::prelude::*;
use std::collections::VecDeque;
use crate::error::KcpError;
use crate::segment::{segment_views, Command, Segment, SegmentView};

verus! {

/// One acknowledgement that is still to be sent: the sequence number
/// received and the time stamp it carried.
#[derive(Clone, Copy, Debug, PartialEq, Eq, Structural)]
pub struct AckItem {
    pub sn: u32,
    pub ts: u32,
}

/// The receiving half of an engine.
pub struct Receiver {
    /// The sequence number expected next in order.
    pub rcv_nxt: u32,
    /// Segments that the ready queue holds at most.
    pub rcv_wnd: u16,
    /// Segments that arrived ahead of their turn, by sequence number.
    pub buf: VecDeque<Segment>,
    /// Data segments in order, ready to be read.
    pub queue: VecDeque<Segment>,
    /// Acknowledgements that the next flush sends.
    pub acks: Vec<AckItem>,
    /// One more than the highest sequence number that has arrived within
    /// the window; 0 before any has.
    pub highest: u32,
    /// The peer has ended its half of the stream, and everything before
    /// that end has arrived.
    pub peer_fin: bool,
}

/// The receiving half as a mathematical value.
#[verifier::ext_equal]
pub struct ReceiverView {
    pub rcv_nxt: u32,
    pub rcv_wnd: u16,
    pub buf: Seq<SegmentView>,
    pub queue: Seq<SegmentView>,
    pub acks: Seq<AckItem>,
    pub highest: u32,
    pub peer_fin: bool,
}

/// Each segment has a larger sequence number than the one before it.
pub open spec fn strictly_ascending(s: Seq<SegmentView>) -> bool {
    forall|i: int, j: int| 0 <= i < j < s.len() ==> (#[trigger] s[i]).sn < (#[trigger] s[j]).sn
}

/// The place of `sn` in a buffer ordered by sequence number: the number of
/// segments in front that lie below it.
pub open spec fn rank(buf: Seq<SegmentView>, sn: u32) -> int
    decreases buf.len(),
{
    if buf.len() == 0 {
        0
    } else if buf.last().sn < sn {
        buf.len() as int
    } else {
        rank(buf.drop_last(), sn)
    }
}

/// The index of the first segment at or behind `from` that ends a message,
/// or the queue's length where there is none.
pub open spec fn message_end(q: Seq<SegmentView>, from: int) -> int
    decreases q.len() - from,
{
    if from < 0 || from >= q.len() {
        q.len() as int
    } else if q[from].frg == 0 {
        from
    } else {
        message_end(q, from + 1)
    }
}

/// The payloads of the first `n` segments, one after the other.
pub open spec fn payload_concat(q: Seq<SegmentView>, n: int) -> Seq<u8>
    decreases n,
{
    if n <= 0 {
        Seq::empty()
    } else {
        payload_concat(q, n - 1) + q[n - 1].payload
    }
}

impl ReceiverView {
    /// Buffer and queue are in order, the buffer within the window ahead of
    /// `rcv_nxt`, the queue behind it.
    pub open spec fn ordered(self) -> bool {
        &&& self.rcv_wnd >= 1
        &&& strictly_ascending(self.buf)
        &&& strictly_ascending(self.queue)
        &&& forall|i: int|
            0 <= i < self.buf.len() ==> {
                &&& self.rcv_nxt <= (#[trigger] self.buf[i]).sn < self.rcv_nxt + self.rcv_wnd
                &&& self.buf[i].sn < u32::MAX
                &&& self.buf[i].cmd.spec_is_sequenced()
            }
        &&& forall|i: int|
            0 <= i < self.queue.len() ==> {
                &&& (#[trigger] self.queue[i]).sn < self.rcv_nxt
                &&& self.queue[i].cmd == Command::Push
            }
        &&& self.queue.len() <= self.rcv_wnd
        &&& forall|i: int| 0 <= i < self.acks.len() ==> (#[trigger] self.acks[i]).sn < self.highest
    }

    /// The segment expected next waits at the head of the buffer and can
    /// leave it: a control segment always, data while the queue has room.
    pub open spec fn can_drain(self) -> bool {
        &&& self.buf.len() > 0
        &&& self.buf[0].sn == self.rcv_nxt
        &&& (self.buf[0].cmd != Command::Push || self.queue.len() < self.rcv_wnd)
    }

    /// In order, and nothing more can leave the buffer.
    pub open spec fn wf(self) -> bool {
        self.ordered() && !self.can_drain()
    }

    /// The state after the head of the buffer has left it: data joins the
    /// queue, the end of the peer's stream is noted, an opening is dropped.
    pub open spec fn drain_one(self) -> ReceiverView {
        let s = self.buf[0];
        ReceiverView {
            rcv_nxt: (self.rcv_nxt + 1) as u32,
            buf: self.buf.subrange(1, self.buf.len() as int),
            queue: if s.cmd == Command::Push {
                self.queue.push(s)
            } else {
                self.queue
            },
            peer_fin: self.peer_fin || s.cmd == Command::Fin,
            ..self
        }
    }

    /// The state after every segment that has become in order has left the
    /// buffer.
    pub open spec fn spec_drain(self) -> ReceiverView
        decreases self.buf.len(),
    {
        if self.can_drain() {
            self.drain_one().spec_drain()
        } else {
            self
        }
    }

    /// A sequenced segment is dropped unseen where it lies beyond the
    /// window or carries the one number no sender assigns.
    pub open spec fn ignores(self, s: SegmentView) -> bool {
        s.sn >= self.rcv_nxt + self.rcv_wnd || s.sn == u32::MAX
    }

    /// A segment that is acknowledged but not stored: it was delivered
    /// before, or it waits in the buffer already.
    pub open spec fn is_duplicate(self, s: SegmentView) -> bool {
        let k = rank(self.buf, s.sn);
        s.sn < self.rcv_nxt || (k < self.buf.len() && self.buf[k].sn == s.sn)
    }

    /// The state with one more acknowledgement due, for `s`, and `s` noted
    /// as arrived.
    pub open spec fn acked(self, s: SegmentView) -> ReceiverView {
        ReceiverView {
            acks: self.acks.push(AckItem { sn: s.sn, ts: s.ts }),
            highest: if s.sn >= self.highest {
                (s.sn + 1) as u32
            } else {
                self.highest
            },
            ..self
        }
    }

    /// The state with `s` put into the buffer at its rank.
    pub open spec fn stored(self, s: SegmentView) -> ReceiverView {
        ReceiverView { buf: self.buf.insert(rank(self.buf, s.sn), s), ..self }
    }

    /// The state after a sequenced segment has arrived.
    pub open spec fn spec_on_push(self, s: SegmentView) -> ReceiverView {
        if self.ignores(s) {
            self
        } else if self.is_duplicate(s) {
            self.acked(s)
        } else {
            self.acked(s).stored(s).spec_drain()
        }
    }

    /// Segments of the message at the head of the queue, or 0 where no
    /// complete message waits.
    pub open spec fn ready_len(self) -> int {
        let e = message_end(self.queue, 0);
        if e < self.queue.len() {
            e + 1
        } else {
            0
        }
    }

    /// The state without the first `n` segments of the queue.
    pub open spec fn taken(self, n: int) -> ReceiverView {
        ReceiverView { queue: self.queue.subrange(n, self.queue.len() as int), ..self }
    }

    /// The state after the message at the head of the queue has been taken.
    pub open spec fn spec_recv(self) -> ReceiverView {
        self.taken(self.ready_len()).spec_drain()
    }

    /// Segments held, in the buffer and in the queue.
    pub open spec fn held(self) -> nat {
        self.queue.len() + self.buf.len()
    }

    /// The state after the next message that holds any bytes has been
    /// taken, with the message; messages without bytes in front of it are
    /// taken and dropped. Where no such message is ready, the bytes are
    /// empty.
    pub open spec fn spec_pull(self) -> (ReceiverView, Seq<u8>)
        decreases self.held(),
    {
        if self.ready_len() <= 0 {
            (self, Seq::empty())
        } else {
            let msg = payload_concat(self.queue, self.ready_len());
            if msg.len() > 0 {
                (self.spec_recv(), msg)
            } else {
                proof {
                    lemma_recv_shrinks(self);
                }
                self.spec_recv().spec_pull()
            }
        }
    }

    /// A receiver that has seen nothing.
    pub open spec fn spec_new(rcv_wnd: u16) -> ReceiverView {
        ReceiverView {
            rcv_nxt: 0,
            rcv_wnd,
            buf: Seq::empty(),
            queue: Seq::empty(),
            acks: Seq::empty(),
            highest: 0,
            peer_fin: false,
        }
    }

    /// The state with no acknowledgement due.
    pub open spec fn without_acks(self) -> ReceiverView {
        ReceiverView { acks: Seq::empty(), ..self }
    }

    /// Free places of the ready queue, as advertised to the peer.
    pub open spec fn spec_window(self) -> int {
        self.rcv_wnd - self.queue.len()
    }
}

impl View for Receiver {
    type V = ReceiverView;

    open spec fn view(&self) -> ReceiverView {
        ReceiverView {
            rcv_nxt: self.rcv_nxt,
            rcv_wnd: self.rcv_wnd,
            buf: segment_views(self.buf@),
            queue: segment_views(self.queue@),
            acks: self.acks@,
            highest: self.highest,
            peer_fin: self.peer_fin,
        }
    }
}

/// A message ends at or behind the place where the search for its end
/// began, and within the queue.
pub proof fn lemma_message_end_bounds(q: Seq<SegmentView>, from: int)
    requires
        0 <= from,
    ensures
        from <= message_end(q, from) || message_end(q, from) == q.len(),
        message_end(q, from) <= q.len(),
    decreases q.len() - from,
{
    if from < q.len() && q[from].frg != 0 {
        lemma_message_end_bounds(q, from + 1);
    }
}

/// Draining holds no more segments than there were.
pub proof fn lemma_drain_holds_no_more(v: ReceiverView)
    ensures
        v.spec_drain().held() <= v.held(),
    decreases v.buf.len(),
{
    if v.can_drain() {
        lemma_drain_holds_no_more(v.drain_one());
    }
}

/// Taking a message leaves fewer segments held.
pub proof fn lemma_recv_shrinks(v: ReceiverView)
    requires
        v.ready_len() > 0,
    ensures
        v.spec_recv().held() < v.held(),
{
    lemma_message_end_bounds(v.queue, 0);
    lemma_drain_holds_no_more(v.taken(v.ready_len()));
}

/// In an ordered buffer the rank of `sn` is the index where the segments
/// stop lying below it.
pub proof fn lemma_rank_is_boundary(buf: Seq<SegmentView>, sn: u32, k: int)
    requires
        strictly_ascending(buf),
        0 <= k <= buf.len(),
        forall|i: int| 0 <= i < k ==> (#[trigger] buf[i]).sn < sn,
        forall|i: int| k <= i < buf.len() ==> (#[trigger] buf[i]).sn >= sn,
    ensures
        rank(buf, sn) == k,
    decreases buf.len(),
{
    if buf.len() == 0 {
    } else if buf.last().sn < sn {
        if k < buf.len() {
            assert(buf[buf.len() - 1].sn >= sn);
        }
    } else {
        let shorter = buf.drop_last();
        if k == buf.len() {
            assert(buf[k - 1].sn < sn);
        }
        assert forall|i: int, j: int| 0 <= i < j < shorter.len() implies (#[trigger] shorter[i]).sn
            < (#[trigger] shorter[j]).sn by {
            assert(shorter[i] == buf[i] && shorter[j] == buf[j]);
        }
        assert forall|i: int| 0 <= i < k implies (#[trigger] shorter[i]).sn < sn by {
            assert(shorter[i] == buf[i]);
        }
        assert forall|i: int| k <= i < shorter.len() implies (#[trigger] shorter[i]).sn >= sn by {
            assert(shorter[i] == buf[i]);
        }
        lemma_rank_is_boundary(shorter, sn, k);
    }
}

/// Draining keeps the order, never moves `rcv_nxt` back, leaves the pending
/// acknowledgements alone, and ends in a well-formed state.
pub proof fn lemma_drain_wf(v: ReceiverView)
    requires
        v.ordered(),
    ensures
        v.spec_drain().wf(),
        v.spec_drain().rcv_nxt >= v.rcv_nxt,
        v.spec_drain().acks == v.acks,
        v.spec_drain().rcv_wnd == v.rcv_wnd,
        v.peer_fin ==> v.spec_drain().peer_fin,
    decreases v.buf.len(),
{
    if v.can_drain() {
        lemma_drain_one_ordered(v);
        lemma_drain_wf(v.drain_one());
    }
}

/// One step of draining keeps the order.
pub proof fn lemma_drain_one_ordered(v: ReceiverView)
    requires
        v.ordered(),
        v.can_drain(),
    ensures
        v.drain_one().ordered(),
{
    let w = v.drain_one();
    let s = v.buf[0];
    assert forall|i: int| 0 <= i < w.buf.len() implies {
        &&& w.rcv_nxt <= (#[trigger] w.buf[i]).sn < w.rcv_nxt + w.rcv_wnd
        &&& w.buf[i].sn < u32::MAX
        &&& w.buf[i].cmd.spec_is_sequenced()
    } by {
        assert(w.buf[i] == v.buf[i + 1]);
        assert(v.buf[0].sn < v.buf[i + 1].sn);
    }
    assert forall|i: int, j: int| 0 <= i < j < w.buf.len() implies (#[trigger] w.buf[i]).sn < (
    #[trigger] w.buf[j]).sn by {
        assert(w.buf[i] == v.buf[i + 1] && w.buf[j] == v.buf[j + 1]);
    }
    assert forall|i: int| 0 <= i < w.queue.len() implies {
        &&& (#[trigger] w.queue[i]).sn < w.rcv_nxt
        &&& w.queue[i].cmd == Command::Push
    } by {
        if i < v.queue.len() {
            assert(w.queue[i] == v.queue[i]);
        }
    }
    assert forall|i: int, j: int| 0 <= i < j < w.queue.len() implies (#[trigger] w.queue[i]).sn
        < (#[trigger] w.queue[j]).sn by {
        assert(w.queue[i] == v.queue[i]);
        if j < v.queue.len() {
            assert(w.queue[j] == v.queue[j]);
        }
    }
}

/// Noting the arrival of a segment that is not ignored keeps the order:
/// every acknowledgement due is for a number that has arrived.
pub proof fn lemma_acked_ordered(v: ReceiverView, s: SegmentView)
    requires
        v.ordered(),
        !v.ignores(s),
    ensures
        v.acked(s).ordered(),
        v.acked(s).can_drain() == v.can_drain(),
{
    let w = v.acked(s);
    assert forall|i: int| 0 <= i < w.acks.len() implies (#[trigger] w.acks[i]).sn < w.highest by {
        if i < v.acks.len() {
            assert(w.acks[i] == v.acks[i]);
        }
    }
}

/// Putting a segment at its rank into an ordered buffer that does not hold
/// its number keeps the order.
pub proof fn lemma_insert_ordered(v: ReceiverView, s: SegmentView)
    requires
        v.ordered(),
        !v.ignores(s),
        !v.is_duplicate(s),
        s.cmd.spec_is_sequenced(),
    ensures
        v.stored(s).ordered(),
        0 <= rank(v.buf, s.sn) <= v.buf.len(),
{
    let k = rank(v.buf, s.sn);
    lemma_rank_bounds(v.buf, s.sn);
    let w = v.stored(s);
    assert forall|i: int| 0 <= i < w.buf.len() implies {
        &&& w.rcv_nxt <= (#[trigger] w.buf[i]).sn < w.rcv_nxt + w.rcv_wnd
        &&& w.buf[i].sn < u32::MAX
        &&& w.buf[i].cmd.spec_is_sequenced()
    } by {
        if i < k {
            assert(w.buf[i] == v.buf[i]);
        } else if i > k {
            assert(w.buf[i] == v.buf[i - 1]);
        }
    }
    assert forall|i: int, j: int| 0 <= i < j < w.buf.len() implies (#[trigger] w.buf[i]).sn < (
    #[trigger] w.buf[j]).sn by {
        let a = if i < k {
            i
        } else {
            i - 1
        };
        let b = if j < k {
            j
        } else {
            j - 1
        };
        if i != k {
            assert(w.buf[i] == v.buf[a]);
        }
        if j != k {
            assert(w.buf[j] == v.buf[b]);
        }
        if i != k && j != k {
            assert(v.buf[a].sn < v.buf[b].sn);
        }
    }
}

/// The rank lies within the buffer, everything in front of it is below
/// `sn`, and in an ordered buffer everything from it on is not.
pub proof fn lemma_rank_bounds(buf: Seq<SegmentView>, sn: u32)
    requires
        strictly_ascending(buf),
    ensures
        0 <= rank(buf, sn) <= buf.len(),
        forall|i: int| 0 <= i < rank(buf, sn) ==> (#[trigger] buf[i]).sn < sn,
        forall|i: int| rank(buf, sn) <= i < buf.len() ==> (#[trigger] buf[i]).sn >= sn,
    decreases buf.len(),
{
    if buf.len() == 0 {
    } else if buf.last().sn < sn {
        assert forall|i: int| 0 <= i < buf.len() implies (#[trigger] buf[i]).sn < sn by {
            if i < buf.len() - 1 {
                assert(buf[i].sn < buf[buf.len() - 1].sn);
            }
        }
    } else {
        let shorter = buf.drop_last();
        assert forall|i: int, j: int| 0 <= i < j < shorter.len() implies (#[trigger] shorter[i]).sn
            < (#[trigger] shorter[j]).sn by {
            assert(shorter[i] == buf[i] && shorter[j] == buf[j]);
        }
        lemma_rank_bounds(shorter, sn);
        assert forall|i: int| 0 <= i < rank(buf, sn) implies (#[trigger] buf[i]).sn < sn by {
            assert(shorter[i] == buf[i]);
        }
        assert forall|i: int| rank(buf, sn) <= i < buf.len() implies (#[trigger] buf[i]).sn
            >= sn by {
            if i < buf.len() - 1 {
                assert(shorter[i] == buf[i]);
            }
        }
    }
}

impl Receiver {
    /// The receiver is well-formed.
    pub open spec fn wf(&self) -> bool {
        self@.wf()
    }

    /// A receiver that has seen nothing.
    pub fn new(rcv_wnd: u16) -> (r: Receiver)
        requires
            rcv_wnd >= 1,
        ensures
            r.wf(),
            r@ == ReceiverView::spec_new(rcv_wnd),
    {
        let r = Receiver {
            rcv_nxt: 0,
            rcv_wnd,
            buf: VecDeque::new(),
            queue: VecDeque::new(),
            acks: Vec::new(),
            highest: 0,
            peer_fin: false,
        };
        assert(r@.buf =~= Seq::empty());
        assert(r@.queue =~= Seq::empty());
        r
    }

    fn head_can_leave(&self) -> (r: bool)
        requires
            self@.ordered(),
        ensures
            r == self@.can_drain(),
    {
        if self.buf.len() == 0 {
            return false;
        }
        let first = &self.buf[0];
        first.sn == self.rcv_nxt && (first.cmd != Command::Push || self.queue.len()
            < self.rcv_wnd as usize)
    }

    /// Moves every segment that has become in order out of the buffer.
    pub fn drain(&mut self)
        requires
            old(self)@.ordered(),
        ensures
            final(self)@ == old(self)@.spec_drain(),
            final(self).wf(),
            final(self).rcv_nxt >= old(self).rcv_nxt,
            final(self).rcv_wnd == old(self).rcv_wnd,
    {
        proof {
            lemma_drain_wf(self@);
        }
        while self.head_can_leave()
            invariant
                self@.ordered(),
                self@.spec_drain() == old(self)@.spec_drain(),
            decreases self.buf.len(),
        {
            proof {
                lemma_drain_one_ordered(self@);
            }
            let ghost before = self@;
            let seg = self.buf.pop_front().unwrap();
            self.rcv_nxt = self.rcv_nxt + 1;
            match seg.cmd {
                Command::Push => {
                    self.queue.push_back(seg);
                },
                Command::Fin => {
                    self.peer_fin = true;
                },
                _ => {},
            }
            assert(self@ =~= before.drain_one());
        }
    }

    /// Takes in a sequenced segment: data, or the opening or end of the
    /// peer's stream. One within the window is acknowledged; one that is
    /// new is stored, and whatever is in order then moves on.
    pub fn on_push(&mut self, seg: Segment)
        requires
            old(self).wf(),
            seg.cmd.spec_is_sequenced(),
        ensures
            final(self)@ == old(self)@.spec_on_push(seg@),
            final(self).wf(),
            final(self).rcv_nxt >= old(self).rcv_nxt,
            final(self).rcv_wnd == old(self).rcv_wnd,
            seg.sn < old(self).rcv_nxt ==> final(self)@ == old(self)@.acked(seg@),
    {
        if seg.sn as u64 >= self.rcv_nxt as u64 + self.rcv_wnd as u64 || seg.sn == u32::MAX {
            return ;
        }
        self.acks.push(AckItem { sn: seg.sn, ts: seg.ts });
        if seg.sn >= self.highest {
            self.highest = seg.sn + 1;
        }
        proof {
            lemma_acked_ordered(old(self)@, seg@);
            assert(self@ =~= old(self)@.acked(seg@));
        }
        if seg.sn < self.rcv_nxt {
            assert(self@ =~= old(self)@.spec_on_push(seg@));
            return ;
        }
        let ghost views = segment_views(self.buf@);
        let mut k: usize = self.buf.len();
        proof {
            lemma_rank_bounds(views, seg.sn);
        }
        while k > 0 && self.buf[k - 1].sn >= seg.sn
            invariant
                k <= self.buf.len(),
                views == segment_views(self.buf@),
                forall|i: int| k <= i < views.len() ==> (#[trigger] views[i]).sn >= seg.sn,
            decreases k,
        {
            k = k - 1;
        }
        proof {
            assert forall|i: int| 0 <= i < k implies (#[trigger] views[i]).sn < seg.sn by {
                if i < k - 1 {
                    assert(views[i].sn < views[k - 1].sn);
                }
            }
            lemma_rank_is_boundary(views, seg.sn, k as int);
        }
        if k < self.buf.len() && self.buf[k].sn == seg.sn {
            assert(self@ =~= old(self)@.spec_on_push(seg@));
            return ;
        }
        proof {
            lemma_insert_ordered(old(self)@.acked(seg@), seg@);
        }
        self.buf.insert(k, seg);
        assert(self@ =~= old(self)@.acked(seg@).stored(seg@));
        self.drain();
    }

    /// Takes the next message that holds any bytes, dropping messages
    /// without bytes on the way. Hands out no bytes where no such message
    /// is ready.
    pub fn pull(&mut self) -> (msg: Vec<u8>)
        requires
            old(self).wf(),
        ensures
            final(self).wf(),
            final(self)@ == old(self)@.spec_pull().0,
            msg@ == old(self)@.spec_pull().1,
            final(self).rcv_nxt >= old(self).rcv_nxt,
            final(self).rcv_wnd == old(self).rcv_wnd,
    {
        loop
            invariant
                self.wf(),
                self@.spec_pull() == old(self)@.spec_pull(),
                self.rcv_nxt >= old(self).rcv_nxt,
                self.rcv_wnd == old(self).rcv_wnd,
            decreases self@.held(),
        {
            let ghost before = self@;
            match self.recv() {
                Err(_) => {
                    let none: Vec<u8> = Vec::new();
                    assert(none@ =~= Seq::empty());
                    return none;
                },
                Ok(msg) => {
                    proof {
                        lemma_recv_shrinks(before);
                    }
                    if msg.len() > 0 {
                        return msg;
                    }
                },
            }
        }
    }

    /// Free places of the ready queue.
    pub fn window(&self) -> (w: u16)
        requires
            self.wf(),
        ensures
            w == self@.spec_window(),
    {
        self.rcv_wnd - self.queue.len() as u16
    }

    /// Takes the acknowledgements that are due, leaving none.
    pub fn take_acks(&mut self) -> (acks: Vec<AckItem>)
        ensures
            acks@ == old(self)@.acks,
            final(self)@ == old(self)@.without_acks(),
    {
        let mut acks: Vec<AckItem> = Vec::new();
        std::mem::swap(&mut acks, &mut self.acks);
        acks
    }

    /// Takes the next complete message: the payloads from the head of the
    /// queue up to the first segment that ends a message. The room this
    /// makes is filled from the buffer.
    pub fn recv(&mut self) -> (r: Result<Vec<u8>, KcpError>)
        requires
            old(self).wf(),
        ensures
            final(self).wf(),
            final(self).rcv_nxt >= old(self).rcv_nxt,
            final(self).rcv_wnd == old(self).rcv_wnd,
            match r {
                Ok(msg) => {
                    &&& old(self)@.ready_len() > 0
                    &&& msg@ == payload_concat(old(self)@.queue, old(self)@.ready_len())
                    &&& final(self)@ == old(self)@.spec_recv()
                },
                Err(e) => {
                    &&& e == KcpError::WouldBlock
                    &&& old(self)@.ready_len() == 0
                    &&& final(self)@ == old(self)@
                },
            },
    {
        let ghost q = segment_views(self.queue@);
        let mut e: usize = 0;
        while e < self.queue.len() && self.queue[e].frg != 0
            invariant
                e <= self.queue.len(),
                q == segment_views(self.queue@),
                message_end(q, 0) == message_end(q, e as int),
            decreases self.queue.len() - e,
        {
            e = e + 1;
        }
        if e >= self.queue.len() {
            return Err(KcpError::WouldBlock);
        }
        let n: usize = e + 1;
        let mut msg: Vec<u8> = Vec::new();
        let mut i: usize = 0;
        while i < n
            invariant
                i <= n <= q.len(),
                segment_views(self.queue@) == q.subrange(i as int, q.len() as int),
                msg@ == payload_concat(q, i as int),
                self.rcv_nxt == old(self).rcv_nxt,
                self.rcv_wnd == old(self).rcv_wnd,
                self.peer_fin == old(self).peer_fin,
                self.acks == old(self).acks,
                self.highest == old(self).highest,
                self.buf == old(self).buf,
            decreases n - i,
        {
            let ghost before = self.queue@;
            proof {
                assert(segment_views(before).len() == before.len());
                assert(q.subrange(i as int, q.len() as int).len() == q.len() - i);
            }
            let mut seg = self.queue.pop_front().unwrap();
            proof {
                assert(segment_views(before)[0] == before[0]@);
                assert(q.subrange(i as int, q.len() as int)[0] == q[i as int]);
                assert forall|j: int| 0 <= j < self.queue@.len() implies segment_views(
                    self.queue@,
                )[j] == q[i + 1 + j] by {
                    assert(self.queue@[j] == before[j + 1]);
                    assert(segment_views(before)[j + 1] == before[j + 1]@);
                    assert(q.subrange(i as int, q.len() as int)[j + 1] == q[i + 1 + j]);
                }
            }
            msg.append(&mut seg.payload);
            i = i + 1;
            assert(segment_views(self.queue@) =~= q.subrange(i as int, q.len() as int));
        }
        proof {
            let taken = old(self)@.taken(n as int);
            assert(self@ =~= taken);
            assert forall|a: int, b: int| 0 <= a < b < taken.queue.len() implies (
            #[trigger] taken.queue[a]).sn < (#[trigger] taken.queue[b]).sn by {
                assert(taken.queue[a] == q[a + n] && taken.queue[b] == q[b + n]);
            }
            assert forall|a: int| 0 <= a < taken.queue.len() implies {
                &&& (#[trigger] taken.queue[a]).sn < taken.rcv_nxt
                &&& taken.queue[a].cmd == Command::Push
            } by {
                assert(taken.queue[a] == q[a + n]);
            }
        }
        self.drain();
        Ok(msg)
    }
}

} // verus!
