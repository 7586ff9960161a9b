use vstd::prelude::*;
use crate::error::KcpError;
use crate::wire::{from_le16, from_le32, get_u16, get_u32, le16, le32, put_bytes, put_u16, put_u32, take_bytes};
use crate::wire::{lemma_le16_round_trip, lemma_le32_round_trip};

verus! {

/// Bytes of a segment header on the wire.
pub const HEADER_LEN: usize = 24;

/// The largest payload a segment can announce in its 16-bit length field.
pub const MAX_PAYLOAD: usize = 65535;

/// What a segment asks of its receiver.
#[derive(Clone, Copy, Debug, PartialEq, Eq, Structural)]
pub enum Command {
    /// Carries application data.
    Push,
    /// Acknowledges one sequence number.
    Ack,
    /// Asks the peer for its receive window.
    Wask,
    /// Tells the peer the receive window.
    Wins,
    /// Keeps the conversation alive.
    Ping,
    /// Ends the sender's half of the stream.
    Fin,
    /// Opens a conversation.
    Syn,
}

impl Command {
    /// The byte that stands for the command on the wire.
    pub open spec fn spec_code(self) -> u8 {
        match self {
            Command::Push => 81,
            Command::Ack => 82,
            Command::Wask => 83,
            Command::Wins => 84,
            Command::Ping => 85,
            Command::Fin => 86,
            Command::Syn => 87,
        }
    }

    /// The command that a wire byte stands for, if any.
    pub open spec fn spec_from_code(b: u8) -> Option<Command> {
        if b == 81 {
            Some(Command::Push)
        } else if b == 82 {
            Some(Command::Ack)
        } else if b == 83 {
            Some(Command::Wask)
        } else if b == 84 {
            Some(Command::Wins)
        } else if b == 85 {
            Some(Command::Ping)
        } else if b == 86 {
            Some(Command::Fin)
        } else if b == 87 {
            Some(Command::Syn)
        } else {
            None
        }
    }

    /// Segments of these commands take a sequence number of their own and
    /// are retransmitted until acknowledged.
    pub open spec fn spec_is_sequenced(self) -> bool {
        self == Command::Push || self == Command::Fin || self == Command::Syn
    }

    /// The byte that stands for the command on the wire.
    pub fn code(self) -> (b: u8)
        ensures
            b == self.spec_code(),
    {
        match self {
            Command::Push => 81,
            Command::Ack => 82,
            Command::Wask => 83,
            Command::Wins => 84,
            Command::Ping => 85,
            Command::Fin => 86,
            Command::Syn => 87,
        }
    }

    /// The command that a wire byte stands for, if any.
    pub fn from_code(b: u8) -> (r: Option<Command>)
        ensures
            r == Command::spec_from_code(b),
    {
        if b == 81 {
            Some(Command::Push)
        } else if b == 82 {
            Some(Command::Ack)
        } else if b == 83 {
            Some(Command::Wask)
        } else if b == 84 {
            Some(Command::Wins)
        } else if b == 85 {
            Some(Command::Ping)
        } else if b == 86 {
            Some(Command::Fin)
        } else if b == 87 {
            Some(Command::Syn)
        } else {
            None
        }
    }

    /// Whether segments of this command take a sequence number.
    pub fn is_sequenced(self) -> (r: bool)
        ensures
            r == self.spec_is_sequenced(),
    {
        match self {
            Command::Push => true,
            Command::Fin => true,
            Command::Syn => true,
            _ => false,
        }
    }
}

/// The protocol's unit of transfer.
#[derive(Debug)]
pub struct Segment {
    /// Conversation id.
    pub conv: u32,
    pub cmd: Command,
    /// Fragments of the same message that follow this one; 0 on the last.
    pub frg: u8,
    /// Free slots of the sender's receive queue.
    pub wnd: u16,
    /// The sender's clock when the segment left, milliseconds.
    pub ts: u32,
    /// The segment's sequence number; in an acknowledgement, the one acknowledged.
    pub sn: u32,
    /// The sender expects this sequence number next.
    pub una: u32,
    pub payload: Vec<u8>,
}

/// A segment as a mathematical value.
#[verifier::ext_equal]
pub struct SegmentView {
    pub conv: u32,
    pub cmd: Command,
    pub frg: u8,
    pub wnd: u16,
    pub ts: u32,
    pub sn: u32,
    pub una: u32,
    pub payload: Seq<u8>,
}

impl View for Segment {
    type V = SegmentView;

    open spec fn view(&self) -> SegmentView {
        SegmentView {
            conv: self.conv,
            cmd: self.cmd,
            frg: self.frg,
            wnd: self.wnd,
            ts: self.ts,
            sn: self.sn,
            una: self.una,
            payload: self.payload@,
        }
    }
}

/// The views of a sequence of segments, in order.
pub open spec fn segment_views(s: Seq<Segment>) -> Seq<SegmentView> {
    s.map_values(|x: Segment| x@)
}

/// The wire form of one segment: the header fields in little-endian order,
/// the payload length, two reserved zero bytes, then the payload.
#[verifier::opaque]
pub open spec fn spec_encode(s: SegmentView) -> Seq<u8> {
    le32(s.conv) + seq![s.cmd.spec_code(), s.frg] + le16(s.wnd) + le32(s.ts) + le32(s.sn) + le32(
        s.una,
    ) + le16(s.payload.len() as u16) + seq![0u8, 0u8] + s.payload
}

/// The wire form of several segments, one after the other.
pub open spec fn spec_encode_all(segs: Seq<SegmentView>) -> Seq<u8>
    decreases segs.len(),
{
    if segs.len() == 0 {
        Seq::empty()
    } else {
        spec_encode(segs[0]) + spec_encode_all(segs.drop_first())
    }
}

/// The segment that starts at `pos` and the position behind it, or `None`
/// where fewer than a header's bytes are left, the command byte is unknown
/// or the announced payload runs past the end.
pub open spec fn spec_decode_at(b: Seq<u8>, pos: int) -> Option<(SegmentView, int)> {
    if pos < 0 || b.len() - pos < HEADER_LEN as int {
        None
    } else {
        let len = from_le16(b.subrange(pos + 20, pos + 22)) as int;
        match Command::spec_from_code(b[pos + 4]) {
            None => None,
            Some(cmd) => if pos + HEADER_LEN as int + len > b.len() {
                None
            } else {
                Some(
                    (
                        SegmentView {
                            conv: from_le32(b.subrange(pos, pos + 4)),
                            cmd,
                            frg: b[pos + 5],
                            wnd: from_le16(b.subrange(pos + 6, pos + 8)),
                            ts: from_le32(b.subrange(pos + 8, pos + 12)),
                            sn: from_le32(b.subrange(pos + 12, pos + 16)),
                            una: from_le32(b.subrange(pos + 16, pos + 20)),
                            payload: b.subrange(pos + 24, pos + 24 + len),
                        },
                        pos + 24 + len,
                    ),
                )
            },
        }
    }
}

/// All segments from `pos` to the end, or `None` where one of them is
/// malformed.
pub open spec fn spec_decode_from(b: Seq<u8>, pos: int) -> Option<Seq<SegmentView>>
    decreases b.len() - pos,
{
    if pos >= b.len() {
        Some(Seq::empty())
    } else {
        match spec_decode_at(b, pos) {
            None => None,
            Some((s, next)) => match spec_decode_from(b, next) {
                None => None,
                Some(rest) => Some(seq![s] + rest),
            },
        }
    }
}

/// The segments a datagram holds, or `None` where it is malformed.
pub open spec fn spec_decode_all(b: Seq<u8>) -> Option<Seq<SegmentView>> {
    spec_decode_from(b, 0)
}

/// `prefix` followed by `tail`, where there is a tail.
pub open spec fn join_decoded(prefix: Seq<SegmentView>, tail: Option<Seq<SegmentView>>) -> Option<
    Seq<SegmentView>,
> {
    match tail {
        None => None,
        Some(rest) => Some(prefix + rest),
    }
}

impl SegmentView {
    /// A segment without payload.
    pub open spec fn control(conv: u32, cmd: Command, wnd: u16, ts: u32, sn: u32, una: u32) -> SegmentView {
        SegmentView { conv, cmd, frg: 0, wnd, ts, sn, una, payload: Seq::empty() }
    }
}

impl Segment {
    /// A segment without payload.
    pub fn control(conv: u32, cmd: Command, wnd: u16, ts: u32, sn: u32, una: u32) -> (s: Segment)
        ensures
            s@ == SegmentView::control(conv, cmd, wnd, ts, sn, una),
    {
        let s = Segment { conv, cmd, frg: 0, wnd, ts, sn, una, payload: Vec::new() };
        assert(s@ =~= SegmentView::control(conv, cmd, wnd, ts, sn, una));
        s
    }

    /// A segment can be written where its payload's length fits the length field.
    pub open spec fn encodable(&self) -> bool {
        self.payload.len() <= MAX_PAYLOAD
    }

    /// Bytes of the segment on the wire.
    pub fn encoded_len(&self) -> (n: usize)
        requires
            self.encodable(),
        ensures
            n == HEADER_LEN + self.payload.len(),
            n == spec_encode(self@).len(),
    {
        proof {
            lemma_encode_len(self@);
        }
        HEADER_LEN + self.payload.len()
    }

    /// Appends the segment's wire form to `out`.
    pub fn encode(&self, out: &mut Vec<u8>)
        requires
            self.encodable(),
        ensures
            final(out)@ == old(out)@ + spec_encode(self@),
    {
        proof {
            reveal(spec_encode);
        }
        put_u32(out, self.conv);
        out.push(self.cmd.code());
        out.push(self.frg);
        put_u16(out, self.wnd);
        put_u32(out, self.ts);
        put_u32(out, self.sn);
        put_u32(out, self.una);
        put_u16(out, self.payload.len() as u16);
        out.push(0u8);
        out.push(0u8);
        put_bytes(out, self.payload.as_slice(), 0, self.payload.len());
        assert(self.payload@.subrange(0, self.payload.len() as int) =~= self.payload@);
        assert(out@ =~= old(out)@ + spec_encode(self@));
    }

    /// Reads the segment that starts at `pos`.
    pub fn decode_at(buf: &[u8], pos: usize) -> (r: Result<(Segment, usize), KcpError>)
        requires
            pos <= buf.len(),
        ensures
            match r {
                Ok((seg, next)) => spec_decode_at(buf@, pos as int) == Some((seg@, next as int))
                    && pos < next <= buf.len(),
                Err(e) => e == KcpError::InvalidSegment && spec_decode_at(buf@, pos as int)
                    is None,
            },
    {
        if buf.len() - pos < HEADER_LEN {
            return Err(KcpError::InvalidSegment);
        }
        let cmd = match Command::from_code(buf[pos + 4]) {
            Some(c) => c,
            None => {
                return Err(KcpError::InvalidSegment);
            },
        };
        let len: usize = get_u16(buf, pos + 20) as usize;
        if len > buf.len() - pos - HEADER_LEN {
            return Err(KcpError::InvalidSegment);
        }
        let seg = Segment {
            conv: get_u32(buf, pos),
            cmd,
            frg: buf[pos + 5],
            wnd: get_u16(buf, pos + 6),
            ts: get_u32(buf, pos + 8),
            sn: get_u32(buf, pos + 12),
            una: get_u32(buf, pos + 16),
            payload: take_bytes(buf, pos + HEADER_LEN, pos + HEADER_LEN + len),
        };
        assert(spec_decode_at(buf@, pos as int).unwrap().0 =~= seg@);
        Ok((seg, pos + HEADER_LEN + len))
    }

    /// Reads every segment of a datagram. One malformed segment fails the
    /// whole datagram.
    pub fn decode_all(buf: &[u8]) -> (r: Result<Vec<Segment>, KcpError>)
        ensures
            match r {
                Ok(segs) => spec_decode_all(buf@) == Some(segment_views(segs@)),
                Err(e) => e == KcpError::InvalidSegment && spec_decode_all(buf@) is None,
            },
    {
        let mut out: Vec<Segment> = Vec::new();
        let mut pos: usize = 0;
        assert(segment_views(out@) + spec_decode_from(buf@, 0).unwrap() =~= spec_decode_from(
            buf@,
            0,
        ).unwrap());
        while pos < buf.len()
            invariant
                pos <= buf.len(),
                spec_decode_all(buf@) == join_decoded(
                    segment_views(out@),
                    spec_decode_from(buf@, pos as int),
                ),
            decreases buf.len() - pos,
        {
            match Segment::decode_at(buf, pos) {
                Err(e) => {
                    return Err(e);
                },
                Ok((seg, next)) => {
                    proof {
                        let before = segment_views(out@);
                        let tail = spec_decode_from(buf@, next as int);
                        if tail is Some {
                            assert(before + (seq![seg@] + tail.unwrap()) =~= segment_views(
                                out@.push(seg),
                            ) + tail.unwrap());
                        }
                    }
                    out.push(seg);
                    pos = next;
                },
            }
        }
        assert(segment_views(out@) + Seq::<SegmentView>::empty() =~= segment_views(out@));
        Ok(out)
    }
}

/// Decoding the wire form of a segment, wherever it stands in a buffer,
/// gives the segment again.
pub proof fn lemma_decode_encode_at(before: Seq<u8>, s: SegmentView, after: Seq<u8>)
    requires
        s.payload.len() <= MAX_PAYLOAD,
    ensures
        spec_decode_at(before + spec_encode(s) + after, before.len() as int) == Some(
            (s, before.len() + HEADER_LEN + s.payload.len()),
        ),
{
    reveal(spec_encode);
    let b = before + spec_encode(s) + after;
    let p = before.len() as int;
    let e = spec_encode(s);
    assert(e.len() == 24 + s.payload.len());
    assert forall|i: int| 0 <= i < e.len() implies b[p + i] == e[i] by {}
    lemma_le32_round_trip(s.conv);
    lemma_le32_round_trip(s.ts);
    lemma_le32_round_trip(s.sn);
    lemma_le32_round_trip(s.una);
    lemma_le16_round_trip(s.wnd);
    lemma_le16_round_trip(s.payload.len() as u16);
    assert(b.subrange(p, p + 4) =~= le32(s.conv));
    assert(b.subrange(p + 6, p + 8) =~= le16(s.wnd));
    assert(b.subrange(p + 8, p + 12) =~= le32(s.ts));
    assert(b.subrange(p + 12, p + 16) =~= le32(s.sn));
    assert(b.subrange(p + 16, p + 20) =~= le32(s.una));
    assert(b.subrange(p + 20, p + 22) =~= le16(s.payload.len() as u16));
    assert(b.subrange(p + 24, p + 24 + s.payload.len()) =~= s.payload);
    assert(b[p + 4] == s.cmd.spec_code());
    assert(b[p + 5] == s.frg);
    assert(Command::spec_from_code(s.cmd.spec_code()) == Some(s.cmd));
    assert(spec_decode_at(b, p).unwrap().0 =~= s);
}

/// The wire form of a segment is a header and the payload.
pub proof fn lemma_encode_len(s: SegmentView)
    ensures
        spec_encode(s).len() == HEADER_LEN + s.payload.len(),
{
    reveal(spec_encode);
}

/// A datagram made of the wire forms of `segs`, behind any prefix, decodes
/// from the prefix's end to `segs`.
pub proof fn lemma_decode_encode_from(before: Seq<u8>, segs: Seq<SegmentView>)
    requires
        forall|i: int| 0 <= i < segs.len() ==> (#[trigger] segs[i]).payload.len() <= MAX_PAYLOAD,
    ensures
        spec_decode_from(before + spec_encode_all(segs), before.len() as int) == Some(segs),
    decreases segs.len(),
{
    let b = before + spec_encode_all(segs);
    let p = before.len() as int;
    if segs.len() == 0 {
        assert(b.len() == p);
        assert(spec_decode_from(b, p) == Some(Seq::<SegmentView>::empty()));
        assert(Seq::<SegmentView>::empty() =~= segs);
    } else {
        let s = segs[0];
        let rest = segs.drop_first();
        let e = spec_encode(s);
        let tail = spec_encode_all(rest);
        let next = p + HEADER_LEN + s.payload.len();
        lemma_encode_len(s);
        assert(spec_encode_all(segs) == e + tail);
        assert(b == before + e + tail) by {
            assert(before + (e + tail) =~= before + e + tail);
        }
        lemma_decode_encode_at(before, s, tail);
        assert(spec_decode_at(b, p) == Some((s, next)));
        assert forall|i: int| 0 <= i < rest.len() implies (#[trigger] rest[i]).payload.len()
            <= MAX_PAYLOAD by {
            assert(rest[i] == segs[i + 1]);
        }
        lemma_decode_encode_from(before + e, rest);
        assert((before + e).len() == next);
        assert(spec_decode_from(b, next) == Some(rest));
        assert(p < b.len());
        assert(spec_decode_from(b, p) == Some(seq![s] + rest));
        assert(seq![s] + rest =~= segs);
    }
}

/// A segment that decodes within a buffer decodes the same with more
/// bytes behind the buffer.
pub proof fn lemma_decode_at_extends(b: Seq<u8>, tail: Seq<u8>, pos: int)
    requires
        spec_decode_at(b, pos) is Some,
    ensures
        spec_decode_at(b + tail, pos) == spec_decode_at(b, pos),
{
    let c = b + tail;
    let len = from_le16(b.subrange(pos + 20, pos + 22)) as int;
    assert(c.subrange(pos + 20, pos + 22) =~= b.subrange(pos + 20, pos + 22));
    assert(c.subrange(pos, pos + 4) =~= b.subrange(pos, pos + 4));
    assert(c.subrange(pos + 6, pos + 8) =~= b.subrange(pos + 6, pos + 8));
    assert(c.subrange(pos + 8, pos + 12) =~= b.subrange(pos + 8, pos + 12));
    assert(c.subrange(pos + 12, pos + 16) =~= b.subrange(pos + 12, pos + 16));
    assert(c.subrange(pos + 16, pos + 20) =~= b.subrange(pos + 16, pos + 20));
    assert(c.subrange(pos + 24, pos + 24 + len) =~= b.subrange(pos + 24, pos + 24 + len));
    assert(c[pos + 4] == b[pos + 4]);
    assert(c[pos + 5] == b[pos + 5]);
}

/// Where a buffer decodes from `pos` on, the buffer with the wire form of
/// one more segment behind it decodes to the same segments and that one.
pub proof fn lemma_decode_from_append(b: Seq<u8>, s: SegmentView, pos: int)
    requires
        0 <= pos <= b.len(),
        s.payload.len() <= MAX_PAYLOAD,
        spec_decode_from(b, pos) is Some,
    ensures
        spec_decode_from(b + spec_encode(s), pos) == Some(spec_decode_from(b, pos).unwrap().push(s)),
    decreases b.len() - pos,
{
    let e = spec_encode(s);
    let c = b + e;
    lemma_encode_len(s);
    if pos >= b.len() {
        lemma_decode_encode_at(b, s, Seq::empty());
        assert(b + e + Seq::<u8>::empty() =~= c);
        let next = b.len() + HEADER_LEN + s.payload.len();
        assert(spec_decode_at(c, pos) == Some((s, next)));
        assert(spec_decode_from(c, next) == Some(Seq::<SegmentView>::empty()));
        assert(seq![s] + Seq::<SegmentView>::empty() =~= Seq::<SegmentView>::empty().push(s));
        assert(spec_decode_from(b, pos).unwrap() =~= Seq::<SegmentView>::empty());
    } else {
        let (x, next) = spec_decode_at(b, pos).unwrap();
        lemma_decode_at_extends(b, e, pos);
        let rest = spec_decode_from(b, next).unwrap();
        lemma_decode_from_append(b, s, next);
        assert(seq![x] + rest.push(s) =~= (seq![x] + rest).push(s));
    }
}

/// Round trip: what `encode` wrote for a list of segments, `decode_all`
/// reads back as the same list.
pub proof fn lemma_decode_encode_all(segs: Seq<SegmentView>)
    requires
        forall|i: int| 0 <= i < segs.len() ==> (#[trigger] segs[i]).payload.len() <= MAX_PAYLOAD,
    ensures
        spec_decode_all(spec_encode_all(segs)) == Some(segs),
{
    lemma_decode_encode_from(Seq::empty(), segs);
    assert(Seq::<u8>::empty() + spec_encode_all(segs) =~= spec_encode_all(segs));
}

} // verus!
