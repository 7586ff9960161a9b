use vstd::prelude::*;
use crate::segment::{
    lemma_decode_from_append, lemma_encode_len, spec_decode_all,
    spec_encode, Segment, SegmentView, HEADER_LEN, MAX_PAYLOAD,
};

verus! {

/// Fills datagrams with segments: a segment goes behind the others while it
/// fits, and opens a new datagram where it does not.
pub struct Packer {
    /// Datagrams that are full.
    pub done: Vec<Vec<u8>>,
    /// The datagram that is being filled.
    pub cur: Vec<u8>,
    /// Bytes that a datagram holds at most.
    pub limit: usize,
}

/// A packer as a mathematical value.
#[verifier::ext_equal]
pub struct PackerView {
    pub done: Seq<Seq<u8>>,
    pub cur: Seq<u8>,
    pub limit: int,
}

/// The contents of a list of datagrams.
pub open spec fn datagram_views(d: Seq<Vec<u8>>) -> Seq<Seq<u8>> {
    d.map_values(|v: Vec<u8>| v@)
}

impl View for Packer {
    type V = PackerView;

    open spec fn view(&self) -> PackerView {
        PackerView { done: datagram_views(self.done@), cur: self.cur@, limit: self.limit as int }
    }
}

impl PackerView {
    /// No datagram is empty, and none is over the limit.
    pub open spec fn wf(self) -> bool {
        &&& self.cur.len() <= self.limit
        &&& forall|i: int| 0 <= i < self.done.len() ==> 0 < (#[trigger] self.done[i]).len() <= self.limit
    }

    /// A packer that holds nothing.
    pub open spec fn spec_new(limit: int) -> PackerView {
        PackerView { done: Seq::empty(), cur: Seq::empty(), limit }
    }

    /// The packer after one more segment.
    pub open spec fn add(self, s: SegmentView) -> PackerView {
        let e = spec_encode(s);
        if self.cur.len() > 0 && self.cur.len() + e.len() > self.limit {
            PackerView { done: self.done.push(self.cur), cur: e, ..self }
        } else {
            PackerView { cur: self.cur + e, ..self }
        }
    }

    /// The packer after the segments of a list, in order.
    pub open spec fn add_all(self, segs: Seq<SegmentView>) -> PackerView
        decreases segs.len(),
    {
        if segs.len() == 0 {
            self
        } else {
            self.add_all(segs.drop_last()).add(segs.last())
        }
    }

    /// The datagrams, the one being filled last where it holds anything.
    pub open spec fn finish(self) -> Seq<Seq<u8>> {
        if self.cur.len() > 0 {
            self.done.push(self.cur)
        } else {
            self.done
        }
    }
}

/// Adding a list that ends in `s` is adding the list before it, then `s`.
pub proof fn lemma_add_all_push(p: PackerView, segs: Seq<SegmentView>, s: SegmentView)
    ensures
        p.add_all(segs.push(s)) == p.add_all(segs).add(s),
{
    assert(segs.push(s).drop_last() =~= segs);
    assert(segs.push(s).last() == s);
}

/// Adding a segment that fits into a datagram keeps every datagram within
/// the limit.
pub proof fn lemma_add_wf(p: PackerView, s: SegmentView)
    requires
        p.wf(),
        HEADER_LEN + s.payload.len() <= p.limit,
    ensures
        p.add(s).wf(),
{
    lemma_encode_len(s);
    let q = p.add(s);
    assert forall|i: int| 0 <= i < q.done.len() implies 0 < (#[trigger] q.done[i]).len()
        <= q.limit by {
        if i < p.done.len() {
            assert(q.done[i] == p.done[i]);
        }
    }
}

/// The segments that the first `n` datagrams of a list hold, datagram by
/// datagram; `None` where one of them is malformed.
pub open spec fn unpacked(ds: Seq<Seq<u8>>, n: int) -> Option<Seq<SegmentView>>
    decreases n,
{
    if n <= 0 {
        Some(Seq::empty())
    } else {
        match (unpacked(ds, n - 1), spec_decode_all(ds[n - 1])) {
            (Some(a), Some(b)) => Some(a + b),
            _ => None,
        }
    }
}

/// The segments that a packer holds, in the order in which they came.
pub open spec fn packed(p: PackerView) -> Option<Seq<SegmentView>> {
    match (unpacked(p.done, p.done.len() as int), spec_decode_all(p.cur)) {
        (Some(a), Some(b)) => Some(a + b),
        _ => None,
    }
}

/// What the first `n` datagrams hold does not depend on what follows them.
proof fn lemma_unpacked_prefix(ds: Seq<Seq<u8>>, d: Seq<u8>, n: int)
    requires
        0 <= n <= ds.len(),
    ensures
        unpacked(ds.push(d), n) == unpacked(ds, n),
    decreases n,
{
    if n > 0 {
        lemma_unpacked_prefix(ds, d, n - 1);
        assert(ds.push(d)[n - 1] == ds[n - 1]);
    }
}

/// A packer that holds the segments `held` holds one more after `add`.
pub proof fn lemma_add_packed(p: PackerView, s: SegmentView)
    requires
        packed(p) is Some,
        s.payload.len() <= MAX_PAYLOAD,
    ensures
        packed(p.add(s)) == Some(packed(p).unwrap().push(s)),
{
    let e = spec_encode(s);
    let a = unpacked(p.done, p.done.len() as int).unwrap();
    let b = spec_decode_all(p.cur).unwrap();
    let q = p.add(s);
    lemma_encode_len(s);
    if p.cur.len() > 0 && p.cur.len() + e.len() > p.limit {
        lemma_unpacked_prefix(p.done, p.cur, p.done.len() as int);
        assert(q.done[p.done.len() as int] == p.cur);
        assert(unpacked(q.done, q.done.len() as int) == Some(a + b));
        lemma_decode_from_append(Seq::empty(), s, 0);
        assert(Seq::<u8>::empty() + e =~= e);
        assert(spec_decode_all(e).unwrap() =~= seq![s]);
        assert((a + b) + seq![s] =~= (a + b).push(s));
    } else {
        lemma_decode_from_append(p.cur, s, 0);
        assert(a + b.push(s) =~= (a + b).push(s));
    }
}

/// A packer that holds segments holds them and the list `segs` after
/// `add_all`.
pub proof fn lemma_add_all_packed(p: PackerView, segs: Seq<SegmentView>)
    requires
        packed(p) is Some,
        forall|i: int| 0 <= i < segs.len() ==> (#[trigger] segs[i]).payload.len() <= MAX_PAYLOAD,
    ensures
        packed(p.add_all(segs)) == Some(packed(p).unwrap() + segs),
    decreases segs.len(),
{
    if segs.len() == 0 {
        assert(packed(p).unwrap() + segs =~= packed(p).unwrap());
    } else {
        let front = segs.drop_last();
        assert forall|i: int| 0 <= i < front.len() implies (#[trigger] front[i]).payload.len()
            <= MAX_PAYLOAD by {
            assert(front[i] == segs[i]);
        }
        lemma_add_all_packed(p, front);
        assert(segs.last() == segs[segs.len() - 1]);
        lemma_add_packed(p.add_all(front), segs.last());
        assert((packed(p).unwrap() + front).push(segs.last()) =~= packed(p).unwrap() + segs);
    }
}

/// The datagrams that a packer hands out hold what the packer held.
pub proof fn lemma_finish_unpacked(p: PackerView)
    requires
        packed(p) is Some,
    ensures
        unpacked(p.finish(), p.finish().len() as int) == packed(p),
{
    let a = unpacked(p.done, p.done.len() as int).unwrap();
    if p.cur.len() > 0 {
        lemma_unpacked_prefix(p.done, p.cur, p.done.len() as int);
        assert(p.finish()[p.done.len() as int] == p.cur);
    } else {
        assert(spec_decode_all(p.cur).unwrap() =~= Seq::<SegmentView>::empty());
        assert(a + Seq::<SegmentView>::empty() =~= a);
    }
}

/// Round trip: the datagrams into which a list of segments is packed
/// decode, one after the other, to that list.
pub proof fn lemma_pack_unpack(limit: int, segs: Seq<SegmentView>)
    requires
        forall|i: int| 0 <= i < segs.len() ==> (#[trigger] segs[i]).payload.len() <= MAX_PAYLOAD,
    ensures
        unpacked(
            PackerView::spec_new(limit).add_all(segs).finish(),
            PackerView::spec_new(limit).add_all(segs).finish().len() as int,
        ) == Some(segs),
{
    let p = PackerView::spec_new(limit);
    assert(packed(p).unwrap() =~= Seq::<SegmentView>::empty());
    lemma_add_all_packed(p, segs);
    lemma_finish_unpacked(p.add_all(segs));
    assert(Seq::<SegmentView>::empty() + segs =~= segs);
}

impl Packer {
    /// The packer is well-formed.
    pub open spec fn wf(&self) -> bool {
        self@.wf()
    }

    /// A packer that holds nothing, for datagrams of at most `limit` bytes.
    pub fn new(limit: usize) -> (p: Packer)
        ensures
            p@ == PackerView::spec_new(limit as int),
            p.wf(),
    {
        let p = Packer { done: Vec::new(), cur: Vec::new(), limit };
        assert(p@.done =~= Seq::empty());
        p
    }

    /// Adds one segment.
    pub fn add(&mut self, seg: &Segment)
        requires
            old(self).wf(),
            HEADER_LEN + seg.payload.len() <= old(self).limit,
            seg.payload.len() <= MAX_PAYLOAD,
        ensures
            final(self)@ == old(self)@.add(seg@),
            final(self).wf(),
    {
        proof {
            lemma_add_wf(self@, seg@);
            lemma_encode_len(seg@);
        }
        let need = seg.encoded_len();
        if self.cur.len() > 0 && need > self.limit - self.cur.len() {
            let mut full: Vec<u8> = Vec::new();
            std::mem::swap(&mut full, &mut self.cur);
            let ghost before = datagram_views(self.done@);
            self.done.push(full);
            assert(datagram_views(self.done@) =~= before.push(full@));
        }
        seg.encode(&mut self.cur);
        assert(self@ =~= old(self)@.add(seg@));
    }

    /// Hands out the datagrams.
    pub fn finish(self) -> (out: Vec<Vec<u8>>)
        requires
            self.wf(),
        ensures
            datagram_views(out@) == self@.finish(),
            forall|i: int| 0 <= i < out.len() ==> 0 < (#[trigger] out[i])@.len() <= self.limit,
    {
        let ghost view = self@;
        let mut out = self.done;
        if self.cur.len() > 0 {
            out.push(self.cur);
        }
        proof {
            let fin = view.finish();
            assert(datagram_views(out@) =~= fin);
            assert forall|i: int| 0 <= i < out.len() implies 0 < (#[trigger] out[i])@.len()
                <= self.limit by {
                assert(fin[i] == out[i]@);
                if i < view.done.len() {
                    assert(fin[i] == view.done[i]);
                }
            }
        }
        out
    }
}

} // verus!
