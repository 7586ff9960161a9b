use vstd::prelude::*;
use crate::receiver::{
    lemma_acked_ordered, lemma_drain_one_ordered, lemma_drain_wf, lemma_insert_ordered, lemma_message_end_bounds,
    message_end, payload_concat, rank, ReceiverView,
};
use crate::kcp::{ack_segments, KcpCoreView, StreamState};
use crate::packer::{lemma_add_all_packed, lemma_finish_unpacked, packed, unpacked, PackerView};
use crate::rtt::min_int;
use crate::schedule::{all_sent, transmitted, Due};
use crate::segment::{HEADER_LEN, MAX_PAYLOAD};
use crate::sender::{all_passed_over, first_not_below, position_of, SendEntryView};
use crate::stream::StreamView;
use crate::segment::{Command, SegmentView};
use crate::sender::{fragment_count, fragments, lemma_fragment_bounds, SenderView, MAX_FRAGMENTS};

verus! {

/// Every segment in flight has a number from `snd_una` up to, but not
/// including, `snd_nxt`; and `snd_una` is the smallest of them, or
/// `snd_nxt` where nothing is in flight.
pub proof fn lemma_in_flight_within_window(v: SenderView)
    requires
        v.wf(),
    ensures
        forall|i: int| 0 <= i < v.buf.len() ==> v.snd_una <= (#[trigger] v.buf[i]).seg.sn < v.snd_nxt,
        v.buf.len() == 0 ==> v.snd_una == v.snd_nxt,
        v.buf.len() > 0 ==> v.snd_una == v.buf[0].seg.sn,
{
}

/// A sequenced segment that was delivered before changes nothing but the
/// list of acknowledgements due, which gains one for it: `rcv_nxt`, the
/// buffer and the queue stay as they are.
pub proof fn lemma_duplicate_is_acked_again(r: ReceiverView, s: SegmentView)
    requires
        r.wf(),
        s.sn < r.rcv_nxt,
    ensures
        r.spec_on_push(s) == r.acked(s),
        r.spec_on_push(s).rcv_nxt == r.rcv_nxt,
        r.spec_on_push(s).buf == r.buf,
        r.spec_on_push(s).queue == r.queue,
{
}

/// No arrival moves `rcv_nxt` back.
pub proof fn lemma_rcv_nxt_never_falls(r: ReceiverView, s: SegmentView)
    requires
        r.wf(),
        s.cmd.spec_is_sequenced(),
    ensures
        r.spec_on_push(s).rcv_nxt >= r.rcv_nxt,
        r.spec_on_push(s).wf(),
{
    if !r.ignores(s) {
        lemma_acked_ordered(r, s);
    }
    if !r.ignores(s) && !r.is_duplicate(s) {
        lemma_insert_ordered(r.acked(s), s);
        lemma_drain_wf(r.acked(s).stored(s));
    }
}

/// The bytes of the first `n` pieces of a message are its first
/// `n * mss` bytes, or all of it.
proof fn lemma_pieces_are_prefix(bytes: Seq<u8>, mss: int, conv: u32, n: int)
    requires
        mss >= 1,
        0 <= n <= fragment_count(bytes.len() as int, mss),
    ensures
        payload_concat(fragments(bytes, mss, conv), n) == bytes.subrange(
            0,
            min_int(n * mss, bytes.len() as int),
        ),
    decreases n,
{
    let f = fragments(bytes, mss, conv);
    let len = bytes.len() as int;
    if n <= 0 {
        assert(0 * mss == 0) by (nonlinear_arith);
        assert(payload_concat(f, n) =~= bytes.subrange(0, 0));
    } else {
        lemma_pieces_are_prefix(bytes, mss, conv, n - 1);
        lemma_fragment_bounds(len, mss, n - 1);
        let lo = (n - 1) * mss;
        let hi = min_int(n * mss, len);
        assert(n * mss == lo + mss) by (nonlinear_arith)
            requires
                lo == (n - 1) * mss,
        ;
        assert(f[n - 1].payload == bytes.subrange(lo, hi));
        assert(bytes.subrange(0, lo) + bytes.subrange(lo, hi) =~= bytes.subrange(0, hi));
    }
}

/// Only the last piece of a message has the fragment index 0.
proof fn lemma_last_piece_ends(bytes: Seq<u8>, mss: int, conv: u32, from: int)
    requires
        mss >= 1,
        fragment_count(bytes.len() as int, mss) <= MAX_FRAGMENTS,
        0 <= from < fragment_count(bytes.len() as int, mss),
    ensures
        message_end(fragments(bytes, mss, conv), from) == fragment_count(bytes.len() as int, mss)
            - 1,
    decreases fragment_count(bytes.len() as int, mss) - from,
{
    let count = fragment_count(bytes.len() as int, mss);
    let f = fragments(bytes, mss, conv);
    assert(f[from].frg == (count - 1 - from) as u8);
    if from < count - 1 {
        lemma_last_piece_ends(bytes, mss, conv, from + 1);
    }
}

/// Cutting a message into pieces and putting the pieces together gives the
/// message again: the payloads of its pieces, in order, are its bytes; the
/// fragment index counts down to 0; and the message ends at its last piece.
pub proof fn lemma_fragments_reassemble(bytes: Seq<u8>, mss: int, conv: u32)
    requires
        mss >= 1,
        fragment_count(bytes.len() as int, mss) <= MAX_FRAGMENTS,
    ensures
        fragments(bytes, mss, conv).len() == fragment_count(bytes.len() as int, mss),
        payload_concat(
            fragments(bytes, mss, conv),
            fragment_count(bytes.len() as int, mss),
        ) == bytes,
        forall|i: int|
            0 <= i < fragment_count(bytes.len() as int, mss) ==> (#[trigger] fragments(
                bytes,
                mss,
                conv,
            )[i]).frg == fragment_count(bytes.len() as int, mss) - 1 - i,
        fragment_count(bytes.len() as int, mss) > 0 ==> message_end(
            fragments(bytes, mss, conv),
            0,
        ) == fragment_count(bytes.len() as int, mss) - 1,
{
    let count = fragment_count(bytes.len() as int, mss);
    let len = bytes.len() as int;
    assert(count >= 0) by {
        vstd::arithmetic::div_mod::lemma_div_pos_is_pos(len, mss);
    }
    lemma_pieces_are_prefix(bytes, mss, conv, count);
    if count > 0 {
        lemma_fragment_bounds(len, mss, count - 1);
        lemma_last_piece_ends(bytes, mss, conv, 0);
        assert(bytes.subrange(0, len) =~= bytes);
    } else {
        assert(len == 0) by {
            vstd::arithmetic::div_mod::lemma_fundamental_div_mod(len, mss);
            assert(len / mss == 0 && len % mss == 0);
            assert(mss * 0 == 0) by (nonlinear_arith);
        }
        assert(bytes.subrange(0, 0) =~= bytes);
    }
}

/// Every segment that leaves in a pass over the buffer is a transmission
/// of an entry of the buffer, and carries that entry's payload.
pub proof fn lemma_transmitted_from_buffer(
    buf: Seq<SendEntryView>,
    n: int,
    current: u32,
    wnd: u16,
    una: u32,
    cfg: &crate::config::KcpConfig,
)
    requires
        0 <= n <= buf.len(),
    ensures
        forall|k: int|
            0 <= k < transmitted(buf, n, current, wnd, una, cfg).len() ==> exists|i: int|
                0 <= i < n && same_data(
                    #[trigger] transmitted(buf, n, current, wnd, una, cfg)[k],
                    (#[trigger] buf[i]).seg,
                ),
    decreases n,
{
    if n > 0 {
        lemma_transmitted_from_buffer(buf, n - 1, current, wnd, una, cfg);
        let before = transmitted(buf, n - 1, current, wnd, una, cfg);
        let now = transmitted(buf, n, current, wnd, una, cfg);
        assert forall|k: int| 0 <= k < now.len() implies exists|i: int|
            0 <= i < n && same_data(#[trigger] now[k], (#[trigger] buf[i]).seg) by {
            if k < before.len() {
                let i = choose|i: int|
                    0 <= i < n - 1 && same_data(#[trigger] before[k], (#[trigger] buf[i]).seg);
                assert(now[k] == before[k]);
                assert(same_data(now[k], buf[i].seg));
            } else {
                assert(buf[n - 1].due(current, cfg.resend) != Due::No);
                assert(same_data(now[k], buf[n - 1].seg));
            }
        }
    }
}

/// The datagrams of a flush decode, one after the other, to what the flush
/// sends: the acknowledgements that are due, the window probes, and the
/// segments in flight that are due, in this order.
pub proof fn lemma_flush_output_decodes(c: KcpCoreView)
    requires
        c.wf(),
        c.state != StreamState::Closed,
    ensures
        unpacked(c.spec_flush_output(), c.spec_flush_output().len() as int) == Some(
            ack_segments(c.rx.acks, c.conv, c.wnd(), c.rx.rcv_nxt) + c.probe.spec_advance(
                c.tx.rmt_wnd,
                c.current,
            ).segments(c.conv, c.wnd(), c.rx.rcv_nxt) + transmitted(
                c.flush_launched().buf,
                c.flush_launched().buf.len() as int,
                c.current,
                c.wnd(),
                c.rx.rcv_nxt,
                &c.cfg,
            ),
        ),
{
    let acks = ack_segments(c.rx.acks, c.conv, c.wnd(), c.rx.rcv_nxt);
    let probes = c.probe.spec_advance(c.tx.rmt_wnd, c.current).segments(
        c.conv,
        c.wnd(),
        c.rx.rcv_nxt,
    );
    let launched = c.flush_launched();
    let sent = transmitted(
        launched.buf,
        launched.buf.len() as int,
        c.current,
        c.wnd(),
        c.rx.rcv_nxt,
        &c.cfg,
    );
    let p0 = PackerView::spec_new(c.mss + HEADER_LEN);
    assert(packed(p0).unwrap() =~= Seq::<SegmentView>::empty());
    lemma_add_all_packed(p0, acks);
    let p1 = p0.add_all(acks);
    lemma_add_all_packed(p1, probes);
    let p2 = p1.add_all(probes);
    lemma_transmitted_from_buffer(
        launched.buf,
        launched.buf.len() as int,
        c.current,
        c.wnd(),
        c.rx.rcv_nxt,
        &c.cfg,
    );
    assert forall|k: int| 0 <= k < sent.len() implies (#[trigger] sent[k]).payload.len()
        <= MAX_PAYLOAD by {
        let i = choose|i: int|
            0 <= i < launched.buf.len() && same_data(#[trigger] sent[k], (#[trigger] launched.buf[i]).seg);
        if i < c.tx.buf.len() {
            assert(launched.buf[i] == c.tx.buf[i]);
        } else {
            assert(launched.buf[i] == c.tx.launched(i - c.tx.buf.len(), c.current));
            assert(c.tx.queue[i - c.tx.buf.len()].payload.len() <= c.tx.mss);
        }
    }
    lemma_add_all_packed(p2, sent);
    lemma_finish_unpacked(p2.add_all(sent));
    assert(Seq::<SegmentView>::empty() + acks =~= acks);
}

/// What a peer sends on one stream, by sequence number.
pub open spec fn is_source(src: Seq<SegmentView>) -> bool {
    &&& src.len() <= u32::MAX
    &&& forall|k: int|
        0 <= k < src.len() ==> (#[trigger] src[k]).sn == k && src[k].cmd.spec_is_sequenced()
}

/// Two segments carry the same piece of the stream; what they say of
/// time and windows may differ from one transmission to the next.
pub open spec fn same_data(a: SegmentView, b: SegmentView) -> bool {
    a.sn == b.sn && a.cmd == b.cmd && a.frg == b.frg && a.payload == b.payload
}

/// `s` is a transmission of the segment that the source has under its number.
pub open spec fn from_source(s: SegmentView, src: Seq<SegmentView>) -> bool {
    s.sn < src.len() && same_data(s, src[s.sn as int])
}

/// The data segments among the first `n` of the source, in order.
pub open spec fn data_of(src: Seq<SegmentView>, n: int) -> Seq<SegmentView>
    decreases n,
{
    if n <= 0 {
        Seq::empty()
    } else if src[n - 1].cmd == Command::Push {
        data_of(src, n - 1).push(src[n - 1])
    } else {
        data_of(src, n - 1)
    }
}

/// The payloads of the segments `from` up to, but not including, `to`.
pub open spec fn bytes_between(d: Seq<SegmentView>, from: int, to: int) -> Seq<u8>
    decreases to - from,
{
    if to <= from {
        Seq::empty()
    } else {
        bytes_between(d, from, to - 1) + d[to - 1].payload
    }
}

/// The receiver is in step with the source: what waits out of order are
/// transmissions of source segments, and the queue holds the source's data
/// segments below `rcv_nxt`, in the source's order, but for the first
/// `taken`, which have been read.
pub open spec fn in_step(r: ReceiverView, src: Seq<SegmentView>, taken: int) -> bool {
    let data = data_of(src, r.rcv_nxt as int);
    &&& r.ordered()
    &&& r.rcv_nxt <= src.len()
    &&& forall|i: int| 0 <= i < r.buf.len() ==> from_source(#[trigger] r.buf[i], src)
    &&& 0 <= taken <= data.len()
    &&& r.queue.len() == data.len() - taken
    &&& forall|i: int| 0 <= i < r.queue.len() ==> same_data(#[trigger] r.queue[i], data[taken + i])
}

/// Every acknowledgement that is due is for a sequence number that has
/// arrived: none lies above the highest that has.
pub proof fn lemma_acks_within_arrived(r: ReceiverView)
    requires
        r.wf(),
    ensures
        forall|i: int| 0 <= i < r.acks.len() ==> (#[trigger] r.acks[i]).sn < r.highest,
{
}

/// A fresh receiver is in step with every source.
pub proof fn lemma_fresh_in_step(rcv_wnd: u16, src: Seq<SegmentView>)
    requires
        rcv_wnd >= 1,
    ensures
        in_step(ReceiverView::spec_new(rcv_wnd), src, 0),
{
}

/// Moving what has become in order out of the buffer keeps the receiver in
/// step.
pub proof fn lemma_drain_in_step(r: ReceiverView, src: Seq<SegmentView>, taken: int)
    requires
        is_source(src),
        in_step(r, src, taken),
    ensures
        in_step(r.spec_drain(), src, taken),
        r.spec_drain().wf(),
    decreases r.buf.len(),
{
    lemma_drain_wf(r);
    if r.can_drain() {
        let w = r.drain_one();
        let s = r.buf[0];
        let n = r.rcv_nxt as int;
        lemma_drain_one_ordered(r);
        assert(from_source(s, src));
        let data = data_of(src, n);
        let data1 = data_of(src, n + 1);
        assert forall|i: int| 0 <= i < w.buf.len() implies from_source(#[trigger] w.buf[i], src) by {
            assert(w.buf[i] == r.buf[i + 1]);
        }
        assert forall|i: int| 0 <= i < w.queue.len() implies same_data(
            #[trigger] w.queue[i],
            data1[taken + i],
        ) by {
            if i < r.queue.len() {
                assert(w.queue[i] == r.queue[i]);
                assert(data1[taken + i] == data[taken + i]);
            }
        }
        lemma_drain_in_step(w, src, taken);
    }
}

/// Whatever arrives of the source, in whatever order and however often,
/// the receiver stays in step: nothing enters the queue but the source's
/// data, in the source's order.
pub proof fn lemma_arrival_in_step(
    r: ReceiverView,
    src: Seq<SegmentView>,
    taken: int,
    s: SegmentView,
)
    requires
        is_source(src),
        in_step(r, src, taken),
        r.wf(),
        from_source(s, src),
    ensures
        in_step(r.spec_on_push(s), src, taken),
        r.spec_on_push(s).wf(),
{
    if r.ignores(s) {
    } else if r.is_duplicate(s) {
        lemma_acked_ordered(r, s);
    } else {
        let a = r.acked(s);
        lemma_acked_ordered(r, s);
        lemma_insert_ordered(a, s);
        let w = a.stored(s);
        let k = rank(a.buf, s.sn);
        assert forall|i: int| 0 <= i < w.buf.len() implies from_source(#[trigger] w.buf[i], src) by {
            if i < k {
                assert(w.buf[i] == r.buf[i]);
            } else if i > k {
                assert(w.buf[i] == r.buf[i - 1]);
            }
        }
        lemma_drain_in_step(w, src, taken);
    }
}

/// The payloads at the head of a queue that is in step are the source's.
proof fn lemma_queue_bytes(q: Seq<SegmentView>, data: Seq<SegmentView>, taken: int, n: int)
    requires
        0 <= taken,
        0 <= n <= q.len(),
        q.len() == data.len() - taken,
        forall|i: int| 0 <= i < q.len() ==> same_data(#[trigger] q[i], data[taken + i]),
    ensures
        payload_concat(q, n) == bytes_between(data, taken, taken + n),
    decreases n,
{
    if n > 0 {
        lemma_queue_bytes(q, data, taken, n - 1);
        assert(same_data(q[n - 1], data[taken + n - 1]));
    }
}

/// Reading a message from a receiver that is in step yields the bytes of
/// the source's next data segments, in the source's order, and leaves the
/// receiver in step behind them.
pub proof fn lemma_read_in_step(r: ReceiverView, src: Seq<SegmentView>, taken: int)
    requires
        is_source(src),
        in_step(r, src, taken),
        r.wf(),
        r.ready_len() > 0,
    ensures
        payload_concat(r.queue, r.ready_len()) == bytes_between(
            data_of(src, r.rcv_nxt as int),
            taken,
            taken + r.ready_len(),
        ),
        in_step(r.spec_recv(), src, taken + r.ready_len()),
        r.spec_recv().wf(),
{
    let n = r.ready_len();
    let data = data_of(src, r.rcv_nxt as int);
    lemma_message_end_bounds(r.queue, 0);
    lemma_queue_bytes(r.queue, data, taken, n);
    let w = r.taken(n);
    assert forall|a: int, b: int| 0 <= a < b < w.queue.len() implies (#[trigger] w.queue[a]).sn < (
    #[trigger] w.queue[b]).sn by {
        assert(w.queue[a] == r.queue[a + n] && w.queue[b] == r.queue[b + n]);
    }
    assert forall|a: int| 0 <= a < w.queue.len() implies {
        &&& (#[trigger] w.queue[a]).sn < w.rcv_nxt
        &&& w.queue[a].cmd == Command::Push
    } by {
        assert(w.queue[a] == r.queue[a + n]);
    }
    assert forall|i: int| 0 <= i < w.queue.len() implies same_data(
        #[trigger] w.queue[i],
        data[taken + n + i],
    ) by {
        assert(w.queue[i] == r.queue[i + n]);
    }
    lemma_drain_in_step(w, src, taken + n);
}

/// The data segments below `a` are the first of the data segments below
/// any later number.
pub proof fn lemma_data_of_prefix(src: Seq<SegmentView>, a: int, b: int)
    requires
        0 <= a <= b,
    ensures
        data_of(src, a).len() <= data_of(src, b).len(),
        forall|i: int|
            0 <= i < data_of(src, a).len() ==> (#[trigger] data_of(src, b)[i]) == data_of(src, a)[i],
    decreases b - a,
{
    if a < b {
        lemma_data_of_prefix(src, a, b - 1);
        assert forall|i: int| 0 <= i < data_of(src, a).len() implies (#[trigger] data_of(src, b)[i])
            == data_of(src, a)[i] by {
            assert(data_of(src, b - 1)[i] == data_of(src, a)[i]);
        }
    }
}

/// The payloads of a range of segments depend on these segments alone.
pub proof fn lemma_bytes_between_same(
    d1: Seq<SegmentView>,
    d2: Seq<SegmentView>,
    from: int,
    to: int,
)
    requires
        forall|i: int| from <= i < to ==> (#[trigger] d1[i]) == d2[i],
    ensures
        bytes_between(d1, from, to) == bytes_between(d2, from, to),
    decreases to - from,
{
    if to > from {
        lemma_bytes_between_same(d1, d2, from, to - 1);
        assert(d1[to - 1] == d2[to - 1]);
    }
}

/// The payloads of a range are those of its first part, then those of the
/// rest.
pub proof fn lemma_bytes_between_split(d: Seq<SegmentView>, a: int, b: int, c: int)
    requires
        a <= b <= c,
    ensures
        bytes_between(d, a, c) == bytes_between(d, a, b) + bytes_between(d, b, c),
    decreases c - b,
{
    if c == b {
        assert(bytes_between(d, a, b) + bytes_between(d, b, c) =~= bytes_between(d, a, b));
    } else {
        lemma_bytes_between_split(d, a, b, c - 1);
        assert(bytes_between(d, a, c) == bytes_between(d, a, c - 1) + d[c - 1].payload);
        assert(bytes_between(d, b, c) == bytes_between(d, b, c - 1) + d[c - 1].payload);
        assert((bytes_between(d, a, b) + bytes_between(d, b, c - 1)) + d[c - 1].payload
            =~= bytes_between(d, a, b) + (bytes_between(d, b, c - 1) + d[c - 1].payload));
    }
}

/// Taking the next message that holds bytes from a receiver that is in
/// step yields the payloads of the source's next data segments, up to the
/// place returned, and leaves the receiver in step at that place.
pub proof fn lemma_pull_in_step(r: ReceiverView, src: Seq<SegmentView>, taken: int) -> (t: int)
    requires
        is_source(src),
        in_step(r, src, taken),
        r.wf(),
    ensures
        taken <= t,
        in_step(r.spec_pull().0, src, t),
        r.spec_pull().0.wf(),
        r.spec_pull().0.rcv_nxt >= r.rcv_nxt,
        r.spec_pull().1 == bytes_between(
            data_of(src, r.spec_pull().0.rcv_nxt as int),
            taken,
            t,
        ),
    decreases r.held(),
{
    if r.ready_len() <= 0 {
        taken
    } else {
        let n = r.ready_len();
        let msg = payload_concat(r.queue, n);
        let r1 = r.spec_recv();
        lemma_message_end_bounds(r.queue, 0);
        lemma_read_in_step(r, src, taken);
        lemma_drain_wf(r.taken(n));
        crate::receiver::lemma_recv_shrinks(r);
        let d0 = data_of(src, r.rcv_nxt as int);
        let d1 = data_of(src, r1.rcv_nxt as int);
        lemma_data_of_prefix(src, r.rcv_nxt as int, r1.rcv_nxt as int);
        lemma_bytes_between_same(d1, d0, taken, taken + n);
        if msg.len() > 0 {
            taken + n
        } else {
            let t = lemma_pull_in_step(r1, src, taken + n);
            let r2 = r1.spec_pull().0;
            let d2 = data_of(src, r2.rcv_nxt as int);
            lemma_data_of_prefix(src, r.rcv_nxt as int, r2.rcv_nxt as int);
            lemma_bytes_between_same(d2, d0, taken, taken + n);
            lemma_bytes_between_split(d2, taken, taken + n, t);
            assert(bytes_between(d2, taken, taken + n) + r1.spec_pull().1 =~= r1.spec_pull().1);
            t
        }
    }
}

/// The reader of a stream is in step with the source: the receiver is, at
/// `taken` data segments, and of the bytes of these segments the reader
/// has had the first `consumed`, while the rest is pending.
pub open spec fn reader_in_step(
    s: StreamView,
    src: Seq<SegmentView>,
    taken: int,
    consumed: int,
) -> bool {
    let all = bytes_between(data_of(src, s.core.rx.rcv_nxt as int), 0, taken);
    &&& in_step(s.core.rx, src, taken)
    &&& s.core.rx.wf()
    &&& 0 <= consumed <= all.len()
    &&& s.pending == all.subrange(consumed, all.len() as int)
}

/// The reader of a fresh stream is in step with every source, with
/// nothing taken and nothing read.
pub proof fn lemma_fresh_reader_in_step(core: KcpCoreView, src: Seq<SegmentView>)
    requires
        core.rx == ReceiverView::spec_new(core.rx.rcv_wnd),
        core.rx.rcv_wnd >= 1,
    ensures
        reader_in_step(StreamView::spec_new(core), src, 0, 0),
{
    lemma_fresh_in_step(core.rx.rcv_wnd, src);
    let s = StreamView::spec_new(core);
    let all = bytes_between(data_of(src, 0), 0, 0);
    assert(s.pending =~= all.subrange(0, 0));
}

/// Byte-stream integrity: whatever arrived of the source, in whatever
/// order, a read hands out the bytes of the source's data segments that
/// follow those read before, in the source's order, none twice and none
/// left out; and it leaves the reader in step behind them.
pub proof fn lemma_read_gives_source_bytes(
    s: StreamView,
    src: Seq<SegmentView>,
    taken: int,
    consumed: int,
    max: int,
) -> (t: int)
    requires
        is_source(src),
        reader_in_step(s, src, taken, consumed),
        0 <= max,
    ensures
        taken <= t,
        match s.read_result(max) {
            Ok(bytes) => {
                &&& reader_in_step(s.spec_read(max), src, t, consumed + bytes.len())
                &&& bytes == bytes_between(
                    data_of(src, s.spec_read(max).core.rx.rcv_nxt as int),
                    0,
                    t,
                ).subrange(consumed, consumed + bytes.len())
            },
            Err(_) => reader_in_step(s.spec_read(max), src, t, consumed),
        },
{
    let all = bytes_between(data_of(src, s.core.rx.rcv_nxt as int), 0, taken);
    if s.pending.len() > 0 {
        let n = crate::rtt::min_int(max, s.pending.len() as int);
        let after = s.spec_read(max);
        assert(after.pending =~= all.subrange(consumed + n, all.len() as int));
        assert(s.pending.subrange(0, n) =~= all.subrange(consumed, consumed + n));
        taken
    } else {
        let t = lemma_pull_in_step(s.core.rx, src, taken);
        let f = s.filled();
        let m = s.core.rx.spec_pull().1;
        let d0 = data_of(src, s.core.rx.rcv_nxt as int);
        let d1 = data_of(src, f.core.rx.rcv_nxt as int);
        let all1 = bytes_between(d1, 0, t);
        lemma_data_of_prefix(src, s.core.rx.rcv_nxt as int, f.core.rx.rcv_nxt as int);
        lemma_bytes_between_same(d1, d0, 0, taken);
        lemma_bytes_between_split(d1, 0, taken, t);
        assert(all1 == all + m);
        assert(all.len() == consumed);
        assert(f.pending =~= all1.subrange(consumed, all1.len() as int));
        let n = crate::rtt::min_int(max, f.pending.len() as int);
        let after = s.spec_read(max);
        assert(after.pending =~= all1.subrange(consumed + n, all1.len() as int));
        assert(f.pending.subrange(0, n) =~= all1.subrange(consumed, consumed + n));
        if f.pending.len() == 0 {
            assert(Seq::<u8>::empty() =~= all1.subrange(consumed, consumed));
        }
        t
    }
}

/// The source holds what the sender has given sequence numbers to: one
/// segment for each number below `snd_nxt`, and every segment in flight is
/// a transmission of the one under its number.
pub open spec fn launched_from(tx: SenderView, src: Seq<SegmentView>) -> bool {
    &&& src.len() == tx.snd_nxt
    &&& forall|i: int| 0 <= i < tx.buf.len() ==> from_source((#[trigger] tx.buf[i]).seg, src)
}

/// The source after a flush has given sequence numbers to waiting
/// segments: these segments follow, in the order in which they waited.
pub open spec fn source_after_launch(
    tx: SenderView,
    src: Seq<SegmentView>,
    current: u32,
) -> Seq<SegmentView> {
    src + Seq::new(tx.launch_count() as nat, |i: int| tx.launched(i, current).seg)
}

/// `longer` begins with `shorter`.
pub open spec fn begins_with(longer: Seq<SegmentView>, shorter: Seq<SegmentView>) -> bool {
    &&& shorter.len() <= longer.len()
    &&& forall|k: int| 0 <= k < shorter.len() ==> (#[trigger] longer[k]) == shorter[k]
}

/// The data segments among the first `n` depend on these `n` alone.
pub proof fn lemma_data_of_same(a: Seq<SegmentView>, b: Seq<SegmentView>, n: int)
    requires
        0 <= n <= a.len(),
        begins_with(b, a),
    ensures
        data_of(b, n) == data_of(a, n),
    decreases n,
{
    if n > 0 {
        lemma_data_of_same(a, b, n - 1);
        assert(b[n - 1] == a[n - 1]);
    }
}

/// A receiver that is in step with a source is in step with every source
/// that begins with it.
pub proof fn lemma_in_step_extends(
    r: ReceiverView,
    src: Seq<SegmentView>,
    longer: Seq<SegmentView>,
    taken: int,
)
    requires
        in_step(r, src, taken),
        begins_with(longer, src),
    ensures
        in_step(r, longer, taken),
{
    lemma_data_of_same(src, longer, r.rcv_nxt as int);
    assert forall|i: int| 0 <= i < r.buf.len() implies from_source(#[trigger] r.buf[i], longer) by {
        assert(from_source(r.buf[i], src));
        assert(longer[r.buf[i].sn as int] == src[r.buf[i].sn as int]);
    }
}

/// Giving sequence numbers to waiting segments extends the source by
/// these segments, and the sender stays in agreement with it.
pub proof fn lemma_launch_extends_source(tx: SenderView, src: Seq<SegmentView>, current: u32)
    requires
        tx.wf(),
        is_source(src),
        launched_from(tx, src),
    ensures
        is_source(source_after_launch(tx, src, current)),
        begins_with(source_after_launch(tx, src, current), src),
        launched_from(tx.spec_launch(current), source_after_launch(tx, src, current)),
{
    let n = tx.launch_count();
    let after = source_after_launch(tx, src, current);
    let launched = tx.spec_launch(current);
    assert forall|k: int| 0 <= k < after.len() implies (#[trigger] after[k]).sn == k
        && after[k].cmd.spec_is_sequenced() by {
        if k >= src.len() {
            assert(after[k] == tx.launched(k - src.len(), current).seg);
            assert(tx.queue[k - src.len()].cmd.spec_is_sequenced());
        } else {
            assert(after[k] == src[k]);
        }
    }
    assert forall|i: int| 0 <= i < launched.buf.len() implies from_source(
        (#[trigger] launched.buf[i]).seg,
        after,
    ) by {
        if i < tx.buf.len() {
            assert(launched.buf[i] == tx.buf[i]);
            assert(from_source(tx.buf[i].seg, src));
            assert(after[tx.buf[i].seg.sn as int] == src[tx.buf[i].seg.sn as int]);
        } else {
            let j = i - tx.buf.len();
            assert(launched.buf[i] == tx.launched(j, current));
            assert(after[src.len() + j] == tx.launched(j, current).seg);
        }
    }
}

/// The first entry not below a number lies within the buffer.
proof fn lemma_first_not_below_bounds(buf: Seq<SendEntryView>, una: u32, from: int)
    requires
        0 <= from <= buf.len(),
    ensures
        from <= first_not_below(buf, una, from) <= buf.len(),
    decreases buf.len() - from,
{
    if from < buf.len() && buf[from].seg.sn < una {
        lemma_first_not_below_bounds(buf, una, from + 1);
    }
}

/// The place of a number lies within the buffer, or is its length.
proof fn lemma_position_of_bounds(buf: Seq<SendEntryView>, sn: u32, from: int)
    requires
        0 <= from <= buf.len(),
    ensures
        from <= position_of(buf, sn, from) <= buf.len(),
    decreases buf.len() - from,
{
    if from < buf.len() && buf[from].seg.sn != sn {
        lemma_position_of_bounds(buf, sn, from + 1);
    }
}

/// What the peer acknowledges leaves the buffer; what stays is still a
/// transmission of the source.
pub proof fn lemma_acks_keep_source(
    tx: SenderView,
    src: Seq<SegmentView>,
    una: u32,
    sn: u32,
    ts: u32,
    current: u32,
)
    requires
        launched_from(tx, src),
    ensures
        launched_from(tx.spec_on_una(una), src),
        launched_from(tx.spec_on_ack(sn, ts, current), src),
{
    lemma_first_not_below_bounds(tx.buf, una, 0);
    let k = first_not_below(tx.buf, una, 0);
    let a = tx.spec_on_una(una);
    assert forall|i: int| 0 <= i < a.buf.len() implies from_source((#[trigger] a.buf[i]).seg, src) by {
        assert(a.buf[i] == tx.buf[i + k]);
    }
    lemma_position_of_bounds(tx.buf, sn, 0);
    let idx = position_of(tx.buf, sn, 0);
    let kept = tx.without_sn(sn);
    let b = tx.spec_on_ack(sn, ts, current);
    assert(b.buf == all_passed_over(kept, sn));
    assert forall|i: int| 0 <= i < b.buf.len() implies from_source((#[trigger] b.buf[i]).seg, src) by {
        assert(b.buf[i].seg == kept[i].seg);
        if idx < tx.buf.len() && i >= idx {
            assert(kept[i] == tx.buf[i + 1]);
        } else {
            assert(kept[i] == tx.buf[i]);
        }
    }
}

/// A pass over the buffer keeps the sender in agreement with the source,
/// and every segment that leaves in it is a transmission of the source.
pub proof fn lemma_schedule_keeps_source(
    tx: SenderView,
    src: Seq<SegmentView>,
    current: u32,
    wnd: u16,
    una: u32,
)
    requires
        launched_from(tx, src),
    ensures
        launched_from(tx.spec_schedule(current, wnd, una), src),
        forall|k: int|
            0 <= k < transmitted(tx.buf, tx.buf.len() as int, current, wnd, una, &tx.cfg).len()
                ==> from_source(
                #[trigger] transmitted(tx.buf, tx.buf.len() as int, current, wnd, una, &tx.cfg)[k],
                src,
            ),
{
    let after = tx.spec_schedule(current, wnd, una);
    assert(after.buf == all_sent(tx.buf, current, wnd, una, &tx.cfg));
    assert forall|i: int| 0 <= i < after.buf.len() implies from_source(
        (#[trigger] after.buf[i]).seg,
        src,
    ) by {
        assert(same_data(after.buf[i].seg, tx.buf[i].seg));
        assert(from_source(tx.buf[i].seg, src));
    }
    let sent = transmitted(tx.buf, tx.buf.len() as int, current, wnd, una, &tx.cfg);
    lemma_transmitted_from_buffer(tx.buf, tx.buf.len() as int, current, wnd, una, &tx.cfg);
    assert forall|k: int| 0 <= k < sent.len() implies from_source(#[trigger] sent[k], src) by {
        let i = choose|i: int|
            0 <= i < tx.buf.len() && same_data(#[trigger] sent[k], (#[trigger] tx.buf[i]).seg);
        assert(from_source(tx.buf[i].seg, src));
    }
}

/// The bytes that a list of segments carries: the payloads of its data
/// segments, in order.
pub open spec fn stream_of(segs: Seq<SegmentView>) -> Seq<u8> {
    bytes_between(
        data_of(segs, segs.len() as int),
        0,
        data_of(segs, segs.len() as int).len() as int,
    )
}

/// Everything that has been written to the sender: what the source
/// carries, then what waits for a sequence number.
pub open spec fn written(tx: SenderView, src: Seq<SegmentView>) -> Seq<u8> {
    stream_of(src + tx.queue)
}

/// What a segment adds to the bytes of a list.
pub open spec fn bytes_of(s: SegmentView) -> Seq<u8> {
    if s.cmd == Command::Push {
        s.payload
    } else {
        Seq::empty()
    }
}

/// A list with one more segment carries the bytes of the list, then those
/// of the segment.
pub proof fn lemma_stream_of_push(segs: Seq<SegmentView>, s: SegmentView)
    ensures
        stream_of(segs.push(s)) == stream_of(segs) + bytes_of(s),
{
    let longer = segs.push(s);
    let n = segs.len() as int;
    let d = data_of(segs, n);
    assert(begins_with(longer, segs));
    lemma_data_of_same(segs, longer, n);
    assert(longer[n] == s);
    if s.cmd == Command::Push {
        let d2 = d.push(s);
        assert(data_of(longer, n + 1) == d2);
        lemma_bytes_between_same(d2, d, 0, d.len() as int);
        assert(d2[d.len() as int] == s);
        assert(bytes_between(d2, 0, d.len() as int + 1) == bytes_between(d2, 0, d.len() as int)
            + s.payload);
    } else {
        assert(data_of(longer, n + 1) == d);
        assert(stream_of(segs) + Seq::<u8>::empty() =~= stream_of(segs));
    }
}

/// Two lists, one after the other, carry the bytes of the first, then
/// those of the second.
pub proof fn lemma_stream_of_concat(a: Seq<SegmentView>, b: Seq<SegmentView>)
    ensures
        stream_of(a + b) == stream_of(a) + stream_of(b),
    decreases b.len(),
{
    if b.len() == 0 {
        assert(a + b =~= a);
        assert(stream_of(b) =~= Seq::<u8>::empty());
        assert(stream_of(a) + stream_of(b) =~= stream_of(a));
    } else {
        let front = b.drop_last();
        let last = b.last();
        lemma_stream_of_concat(a, front);
        assert(a + b =~= (a + front).push(last));
        assert(b =~= front.push(last));
        lemma_stream_of_push(a + front, last);
        lemma_stream_of_push(front, last);
        assert((stream_of(a) + stream_of(front)) + bytes_of(last) =~= stream_of(a) + (stream_of(
            front,
        ) + bytes_of(last)));
    }
}

/// Lists whose segments agree in command and payload carry the same bytes.
pub proof fn lemma_stream_of_alike(a: Seq<SegmentView>, b: Seq<SegmentView>)
    requires
        a.len() == b.len(),
        forall|i: int|
            0 <= i < a.len() ==> (#[trigger] a[i]).cmd == b[i].cmd && a[i].payload == b[i].payload,
    ensures
        stream_of(a) == stream_of(b),
    decreases a.len(),
{
    if a.len() == 0 {
        assert(a =~= b);
    } else {
        let fa = a.drop_last();
        let fb = b.drop_last();
        assert forall|i: int| 0 <= i < fa.len() implies (#[trigger] fa[i]).cmd == fb[i].cmd
            && fa[i].payload == fb[i].payload by {
            assert(fa[i] == a[i] && fb[i] == b[i]);
        }
        lemma_stream_of_alike(fa, fb);
        assert(a =~= fa.push(a.last()));
        assert(b =~= fb.push(b.last()));
        lemma_stream_of_push(fa, a.last());
        lemma_stream_of_push(fb, b.last());
        assert(a.last() == a[a.len() - 1]);
        assert(b.last() == b[a.len() - 1]);
    }
}

/// A list of data segments carries the payloads of its segments.
pub proof fn lemma_stream_of_data(f: Seq<SegmentView>, n: int)
    requires
        0 <= n <= f.len(),
        forall|i: int| 0 <= i < n ==> (#[trigger] f[i]).cmd == Command::Push,
    ensures
        stream_of(f.subrange(0, n)) == payload_concat(f, n),
    decreases n,
{
    if n == 0 {
        assert(stream_of(f.subrange(0, 0)) =~= Seq::<u8>::empty());
    } else {
        lemma_stream_of_data(f, n - 1);
        assert(f.subrange(0, n) =~= f.subrange(0, n - 1).push(f[n - 1]));
        lemma_stream_of_push(f.subrange(0, n - 1), f[n - 1]);
    }
}

/// Writing a message adds its bytes to what has been written.
pub proof fn lemma_send_writes(tx: SenderView, src: Seq<SegmentView>, bytes: Seq<u8>)
    requires
        tx.wf(),
        tx.accepts(bytes.len() as int),
    ensures
        written(tx.spec_send(bytes), src) == written(tx, src) + bytes,
{
    let f = fragments(bytes, tx.mss as int, tx.conv);
    lemma_fragments_reassemble(bytes, tx.mss as int, tx.conv);
    lemma_stream_of_data(f, f.len() as int);
    assert(f.subrange(0, f.len() as int) =~= f);
    assert(src + (tx.queue + f) =~= (src + tx.queue) + f);
    lemma_stream_of_concat(src + tx.queue, f);
}

/// Giving sequence numbers to waiting segments changes nothing of what has
/// been written.
pub proof fn lemma_launch_keeps_written(tx: SenderView, src: Seq<SegmentView>, current: u32)
    requires
        tx.wf(),
    ensures
        written(tx.spec_launch(current), source_after_launch(tx, src, current)) == written(tx, src),
{
    let n = tx.launch_count();
    let a = source_after_launch(tx, src, current) + tx.spec_launch(current).queue;
    let b = src + tx.queue;
    assert(a.len() == b.len());
    assert forall|i: int| 0 <= i < a.len() implies (#[trigger] a[i]).cmd == b[i].cmd
        && a[i].payload == b[i].payload by {
        if i < src.len() {
            assert(a[i] == src[i] && b[i] == src[i]);
        } else if i < src.len() + n {
            assert(a[i] == tx.launched(i - src.len(), current).seg);
            assert(b[i] == tx.queue[i - src.len()]);
        } else {
            assert(a[i] == tx.spec_launch(current).queue[i - src.len() - n]);
            assert(tx.spec_launch(current).queue[i - src.len() - n] == tx.queue[i - src.len()]);
            assert(b[i] == tx.queue[i - src.len()]);
        }
    }
    lemma_stream_of_alike(a, b);
}

/// Queueing the opening or the end of the stream changes nothing of what
/// has been written.
pub proof fn lemma_control_keeps_written(tx: SenderView, src: Seq<SegmentView>, s: SegmentView)
    requires
        s.cmd != Command::Push,
    ensures
        written(tx.queued(seq![s]), src) == written(tx, src),
{
    assert(src + (tx.queue + seq![s]) =~= (src + tx.queue).push(s));
    lemma_stream_of_push(src + tx.queue, s);
    assert(written(tx, src) + Seq::<u8>::empty() =~= written(tx, src));
}

/// Byte-stream integrity from end to end: where the reader of a stream is
/// in step with the source, the bytes that it has read and those that are
/// pending are the first of the bytes that were written to the sender, in
/// the order in which they were written.
pub proof fn lemma_read_is_written(
    s: StreamView,
    tx: SenderView,
    src: Seq<SegmentView>,
    taken: int,
    consumed: int,
)
    requires
        is_source(src),
        reader_in_step(s, src, taken, consumed),
    ensures
        bytes_between(data_of(src, s.core.rx.rcv_nxt as int), 0, taken).len() <= written(
            tx,
            src,
        ).len(),
        written(tx, src).subrange(
            0,
            bytes_between(data_of(src, s.core.rx.rcv_nxt as int), 0, taken).len() as int,
        ) == bytes_between(data_of(src, s.core.rx.rcv_nxt as int), 0, taken),
{
    let n = s.core.rx.rcv_nxt as int;
    let d = data_of(src, n);
    let whole = data_of(src, src.len() as int);
    let all = bytes_between(d, 0, taken);
    lemma_data_of_prefix(src, n, src.len() as int);
    lemma_bytes_between_same(whole, d, 0, taken);
    lemma_bytes_between_split(whole, 0, taken, whole.len() as int);
    lemma_stream_of_concat(src, tx.queue);
    let rest = bytes_between(whole, taken, whole.len() as int) + stream_of(tx.queue);
    assert(written(tx, src) =~= all + rest);
    assert((all + rest).subrange(0, all.len() as int) =~= all);
}

/// Whatever arrives at a stream, the reader stays in step: a segment of
/// the source in whatever order and however often, and any segment that
/// takes no sequence number.
pub proof fn lemma_arrival_keeps_reader(
    s: StreamView,
    src: Seq<SegmentView>,
    taken: int,
    consumed: int,
    seg: SegmentView,
)
    requires
        is_source(src),
        reader_in_step(s, src, taken, consumed),
        from_source(seg, src) || !seg.cmd.spec_is_sequenced(),
    ensures
        reader_in_step(s.with_core(s.core.spec_on_segment(seg)), src, taken, consumed),
{
    let after = s.core.spec_on_segment(seg);
    if s.core.takes(seg) && seg.cmd.spec_is_sequenced() {
        lemma_arrival_in_step(s.core.rx, src, taken, seg);
        lemma_rcv_nxt_never_falls(s.core.rx, seg);
        assert(after.rx == s.core.rx.spec_on_push(seg));
        let d0 = data_of(src, s.core.rx.rcv_nxt as int);
        let d1 = data_of(src, after.rx.rcv_nxt as int);
        lemma_data_of_prefix(src, s.core.rx.rcv_nxt as int, after.rx.rcv_nxt as int);
        lemma_bytes_between_same(d1, d0, 0, taken);
    } else {
        assert(after.rx == s.core.rx);
    }
}

/// A reader that is in step with a source is in step with every source
/// that begins with it.
pub proof fn lemma_reader_extends(
    s: StreamView,
    src: Seq<SegmentView>,
    longer: Seq<SegmentView>,
    taken: int,
    consumed: int,
)
    requires
        reader_in_step(s, src, taken, consumed),
        begins_with(longer, src),
    ensures
        reader_in_step(s, longer, taken, consumed),
{
    lemma_in_step_extends(s.core.rx, src, longer, taken);
    lemma_data_of_same(src, longer, s.core.rx.rcv_nxt as int);
}

} // verus!
