use vstd::prelude::*;
use crate::config::KcpConfig;
use crate::packer::{lemma_add_all_push, Packer};
use crate::rtt::{max_int, min_int};
use crate::segment::{SegmentView, HEADER_LEN};
use crate::sender::{bump, entry_views, SendEntry, SendEntryView, Sender, SenderView};
use crate::segment::segment_views;

verus! {

/// Why a segment in flight leaves again, if it does.
#[derive(Clone, Copy, Debug, PartialEq, Eq, Structural)]
pub enum Due {
    /// It stays.
    No,
    /// It has never left.
    First,
    /// Its timeout has run out.
    Timeout,
    /// Enough later segments have been acknowledged.
    Fast,
}

/// What a pass over the buffer met.
#[derive(Clone, Copy, Debug, PartialEq, Eq, Structural)]
pub struct Outcome {
    /// A timeout ran out.
    pub lost: bool,
    /// A segment left by fast retransmission.
    pub fast: bool,
    /// A segment has left more often than the dead-link limit allows.
    pub dead: bool,
}

impl SendEntryView {
    /// Why the entry leaves at `current`: for the first time; else because
    /// its timeout has run out; else, where fast retransmission is on,
    /// because `resend` later segments have been acknowledged.
    pub open spec fn due(self, current: u32, resend: u32) -> Due {
        if self.xmit == 0 {
            Due::First
        } else if current >= self.resendts {
            Due::Timeout
        } else if resend > 0 && self.fastack >= resend {
            Due::Fast
        } else {
            Due::No
        }
    }

    /// The entry's timeout after it has run out: doubled, or half as long
    /// again in no-delay mode, and at most `rto_max`.
    pub open spec fn backed_off(self, cfg: &KcpConfig) -> u32 {
        let raw = if cfg.nodelay {
            self.rto + self.rto / 2
        } else {
            self.rto * 2
        };
        min_int(raw, cfg.rto_max as int) as u32
    }

    /// The entry's segment as it leaves at `current`.
    pub open spec fn stamped(self, current: u32, wnd: u16, una: u32) -> SegmentView {
        SegmentView { ts: current, wnd, una, ..self.seg }
    }

    /// The entry after a pass at `current`. One that leaves is stamped and
    /// counted; after a timeout it waits its longer timeout, after a fast
    /// retransmission its old one, with the count of later
    /// acknowledgements back at 0.
    pub open spec fn sent(self, current: u32, wnd: u16, una: u32, cfg: &KcpConfig) -> SendEntryView {
        let seg = self.stamped(current, wnd, una);
        match self.due(current, cfg.resend) {
            Due::No => self,
            Due::First => SendEntryView { seg, xmit: bump(self.xmit), ..self },
            Due::Timeout => SendEntryView {
                seg,
                xmit: bump(self.xmit),
                rto: self.backed_off(cfg),
                resendts: (current + self.backed_off(cfg)) as u64,
                ..self
            },
            Due::Fast => SendEntryView {
                seg,
                xmit: bump(self.xmit),
                fastack: 0,
                resendts: (current + self.rto) as u64,
                ..self
            },
        }
    }

    /// The entry has run out of its timeout at `current` once too often.
    pub open spec fn dies(self, current: u32, cfg: &KcpConfig) -> bool {
        self.due(current, cfg.resend) == Due::Timeout && bump(self.xmit) > cfg.dead_link
    }
}

/// The buffer after a pass at `current`.
pub open spec fn all_sent(
    buf: Seq<SendEntryView>,
    current: u32,
    wnd: u16,
    una: u32,
    cfg: &KcpConfig,
) -> Seq<SendEntryView> {
    Seq::new(buf.len(), |i: int| buf[i].sent(current, wnd, una, cfg))
}

/// The segments that leave in a pass over the first `n` entries, in order.
pub open spec fn transmitted(
    buf: Seq<SendEntryView>,
    n: int,
    current: u32,
    wnd: u16,
    una: u32,
    cfg: &KcpConfig,
) -> Seq<SegmentView>
    decreases n,
{
    if n <= 0 {
        Seq::empty()
    } else {
        let before = transmitted(buf, n - 1, current, wnd, una, cfg);
        if buf[n - 1].due(current, cfg.resend) == Due::No {
            before
        } else {
            before.push(buf[n - 1].stamped(current, wnd, una))
        }
    }
}

/// One of the first `n` entries leaves for the reason `d`.
pub open spec fn any_due(buf: Seq<SendEntryView>, n: int, current: u32, resend: u32, d: Due) -> bool
    decreases n,
{
    n > 0 && (any_due(buf, n - 1, current, resend, d) || buf[n - 1].due(current, resend) == d)
}

/// One of the first `n` entries has timed out once too often.
pub open spec fn any_dies(buf: Seq<SendEntryView>, n: int, current: u32, cfg: &KcpConfig) -> bool
    decreases n,
{
    n > 0 && (any_dies(buf, n - 1, current, cfg) || buf[n - 1].dies(current, cfg))
}

/// What a pass over the buffer at `current` meets.
pub open spec fn outcome_of(buf: Seq<SendEntryView>, current: u32, cfg: &KcpConfig) -> Outcome {
    Outcome {
        lost: any_due(buf, buf.len() as int, current, cfg.resend, Due::Timeout),
        fast: any_due(buf, buf.len() as int, current, cfg.resend, Due::Fast),
        dead: any_dies(buf, buf.len() as int, current, cfg),
    }
}

/// The earliest time at which one of the first `n` entries is due again,
/// or `bound` where that is earlier.
pub open spec fn earliest(buf: Seq<SendEntryView>, n: int, bound: u64) -> u64
    decreases n,
{
    if n <= 0 {
        bound
    } else {
        let e = earliest(buf, n - 1, bound);
        if buf[n - 1].resendts < e {
            buf[n - 1].resendts
        } else {
            e
        }
    }
}

impl SenderView {
    /// Segments that may be in flight: no more than the own and the peer's
    /// window allow, nor, under congestion control, the congestion window.
    pub open spec fn window(self) -> int {
        let w = min_int(self.cfg.snd_wnd as int, self.rmt_wnd as int);
        if self.cfg.nc {
            w
        } else {
            min_int(w, self.cwnd as int)
        }
    }

    /// Segments that a flush moves from the queue into flight: as many as
    /// wait, as the window has room for, and as sequence numbers are left.
    pub open spec fn launch_count(self) -> int {
        max_int(
            0,
            min_int(
                min_int(self.queue.len() as int, self.window() - self.in_flight()),
                u32::MAX - self.snd_nxt,
            ),
        )
    }

    /// Slack added to the first timeout of a segment: none in no-delay
    /// mode, an eighth of the timeout otherwise.
    pub open spec fn rtomin(self) -> int {
        if self.cfg.nodelay {
            0
        } else {
            self.rtt.rto as int / 8
        }
    }

    /// The entry that the `i`-th waiting segment becomes at `current`.
    pub open spec fn launched(self, i: int, current: u32) -> SendEntryView {
        SendEntryView {
            seg: SegmentView { sn: (self.snd_nxt + i) as u32, ..self.queue[i] },
            resendts: (current + self.rtt.rto + self.rtomin()) as u64,
            rto: self.rtt.rto,
            fastack: 0,
            xmit: 0,
        }
    }

    /// The state after the first `n` waiting segments have got their
    /// sequence numbers.
    pub open spec fn launch_n(self, n: int, current: u32) -> SenderView {
        SenderView {
            queue: self.queue.subrange(n, self.queue.len() as int),
            buf: self.buf + Seq::new(n as nat, |i: int| self.launched(i, current)),
            snd_nxt: (self.snd_nxt + n) as u32,
            ..self
        }
    }

    /// The state after a flush has moved what it may from the queue into
    /// flight.
    pub open spec fn spec_launch(self, current: u32) -> SenderView {
        self.launch_n(self.launch_count(), current)
    }

    /// The state after a pass over the buffer at `current`.
    pub open spec fn spec_schedule(self, current: u32, wnd: u16, una: u32) -> SenderView {
        self.with_buf(all_sent(self.buf, current, wnd, una, &self.cfg))
    }

    /// The state after a fast retransmission: the threshold falls to half
    /// of what is in flight, the window to the threshold and `resend`.
    pub open spec fn after_fast(self) -> SenderView {
        let ssthresh = max_int(self.in_flight() / 2, 2);
        SenderView {
            ssthresh: ssthresh as u32,
            cwnd: min_int(ssthresh + self.cfg.resend, self.cfg.snd_wnd as int) as u32,
            incr: 0,
            ..self
        }
    }

    /// The state after a timeout: the threshold falls to half the window,
    /// the window to one segment.
    pub open spec fn after_loss(self) -> SenderView {
        SenderView { ssthresh: max_int(self.cwnd as int / 2, 2) as u32, cwnd: 1, incr: 0, ..self }
    }

    /// The state after congestion control has taken in what a pass met.
    pub open spec fn spec_react(self, o: Outcome) -> SenderView {
        if self.cfg.nc {
            self
        } else {
            let a = if o.fast {
                self.after_fast()
            } else {
                self
            };
            if o.lost {
                a.after_loss()
            } else {
                a
            }
        }
    }
}

impl SendEntry {
    /// Decides whether the entry leaves at `current`, and stamps and
    /// counts it where it does.
    pub fn transmit(&mut self, current: u32, wnd: u16, una: u32, cfg: &KcpConfig) -> (d: Due)
        requires
            cfg.valid(),
        ensures
            d == old(self)@.due(current, cfg.resend),
            final(self)@ == old(self)@.sent(current, wnd, una, cfg),
    {
        let d = if self.xmit == 0 {
            Due::First
        } else if current as u64 >= self.resendts {
            Due::Timeout
        } else if cfg.resend > 0 && self.fastack >= cfg.resend {
            Due::Fast
        } else {
            Due::No
        };
        match d {
            Due::No => {
                return d;
            },
            Due::First => {},
            Due::Timeout => {
                let raw: u64 = if cfg.nodelay {
                    self.rto as u64 + self.rto as u64 / 2
                } else {
                    self.rto as u64 * 2
                };
                let rto: u32 = if raw < cfg.rto_max as u64 {
                    raw as u32
                } else {
                    cfg.rto_max
                };
                self.rto = rto;
                self.resendts = current as u64 + rto as u64;
            },
            Due::Fast => {
                self.fastack = 0;
                self.resendts = current as u64 + self.rto as u64;
            },
        }
        if self.xmit < u32::MAX {
            self.xmit = self.xmit + 1;
        }
        self.seg.ts = current;
        self.seg.wnd = wnd;
        self.seg.una = una;
        assert(self@ =~= old(self)@.sent(current, wnd, una, cfg));
        d
    }
}

impl Sender {
    /// Segments that may be in flight.
    pub fn window(&self) -> (w: u32)
        requires
            self.wf(),
        ensures
            w == self@.window(),
    {
        let w: u32 = if self.cfg.snd_wnd <= self.rmt_wnd {
            self.cfg.snd_wnd as u32
        } else {
            self.rmt_wnd as u32
        };
        if self.cfg.nc || w <= self.cwnd {
            w
        } else {
            self.cwnd
        }
    }

    /// Gives sequence numbers to waiting segments while the window has
    /// room, and puts them into flight.
    pub fn launch(&mut self, current: u32)
        requires
            old(self).wf(),
        ensures
            final(self).wf(),
            final(self)@ == old(self)@.spec_launch(current),
            final(self).snd_una == old(self).snd_una,
            final(self).snd_nxt >= old(self).snd_nxt,
    {
        let window = self.window();
        let rtomin: u32 = if self.cfg.nodelay {
            0
        } else {
            self.rtt.rto / 8
        };
        let ghost mut k: int = 0;
        proof {
            assert(old(self)@.queue.subrange(0, old(self)@.queue.len() as int) =~= old(self)@.queue);
            assert(old(self)@.buf + Seq::<SendEntryView>::new(
                0,
                |i: int| old(self)@.launched(i, current),
            ) =~= old(self)@.buf);
            assert(self@ =~= old(self)@.launch_n(0, current));
        }
        while self.snd_nxt - self.snd_una < window && self.queue.len() > 0 && self.snd_nxt
            < u32::MAX
            invariant
                0 <= k <= old(self)@.launch_count(),
                old(self).wf(),
                window == old(self)@.window(),
                rtomin == old(self)@.rtomin(),
                self@ == old(self)@.launch_n(k, current),
                self@.wf(),
                self.snd_una == old(self).snd_una,
                self.snd_nxt == old(self).snd_nxt + k,
                self.queue@.len() == old(self).queue@.len() - k,
            decreases self.queue.len(),
        {
            let ghost before = self@;
            let ghost qviews = segment_views(self.queue@);
            let mut seg = self.queue.pop_front().unwrap();
            let ghost qexec = self.queue@;
            proof {
                assert(qviews.len() == self.queue@.len() + 1);
                assert(qviews[0] == seg@);
                assert(qviews[0] == old(self)@.queue[k]);
                assert forall|j: int| 0 <= j < qexec.len() implies segment_views(qexec)[j]
                    == old(self)@.queue[k + 1 + j] by {
                    assert(segment_views(qexec)[j] == qexec[j]@);
                    assert(qviews[j + 1] == old(self)@.queue[k + 1 + j]);
                }
            }
            seg.sn = self.snd_nxt;
            let entry = SendEntry {
                seg,
                resendts: current as u64 + self.rtt.rto as u64 + rtomin as u64,
                rto: self.rtt.rto,
                fastack: 0,
                xmit: 0,
            };
            assert(entry@ =~= old(self)@.launched(k, current));
            self.buf.push(entry);
            self.snd_nxt = self.snd_nxt + 1;
            proof {
                let after = old(self)@.launch_n(k + 1, current);
                assert(self@.queue =~= after.queue);
                assert(self@.buf =~= before.buf.push(entry@));
                assert(self@.buf =~= after.buf);
                assert(self@ =~= after);
                assert forall|i: int| 0 <= i < self@.buf.len() implies {
                    &&& self@.snd_una <= (#[trigger] self@.buf[i]).seg.sn < self@.snd_nxt
                    &&& self@.buf[i].seg.cmd.spec_is_sequenced()
                    &&& self@.buf[i].seg.payload.len() <= self@.mss
                    &&& self@.buf[i].seg.conv == self@.conv
                } by {
                    if i < before.buf.len() {
                        assert(self@.buf[i] == before.buf[i]);
                    } else {
                        assert(before.queue[0] == qviews[0]);
                    }
                }
                assert forall|i: int, j: int| 0 <= i < j < self@.buf.len() implies (
                #[trigger] self@.buf[i]).seg.sn < (#[trigger] self@.buf[j]).seg.sn by {
                    assert(self@.buf[i] == before.buf[i]);
                    if j < before.buf.len() {
                        assert(self@.buf[j] == before.buf[j]);
                    }
                }
                assert forall|i: int| 0 <= i < self@.queue.len() implies {
                    &&& (#[trigger] self@.queue[i]).cmd.spec_is_sequenced()
                    &&& self@.queue[i].payload.len() <= self@.mss
                    &&& self@.queue[i].conv == self@.conv
                } by {
                    assert(self@.queue[i] == before.queue[i + 1]);
                }
                if before.buf.len() > 0 {
                    assert(self@.buf[0] == before.buf[0]);
                }
                k = k + 1;
            }
        }
        proof {
            assert(old(self)@.queue.len() == old(self).queue@.len());
            assert(k == old(self)@.launch_count());
        }
    }

    /// Goes through the buffer at `current`: every segment that is due
    /// leaves, stamped with the time, the window and the number expected
    /// next, and is handed to the packer.
    pub fn schedule(&mut self, current: u32, wnd: u16, una: u32, packer: &mut Packer) -> (o: Outcome)
        requires
            old(self).wf(),
            old(packer).wf(),
            old(packer).limit >= HEADER_LEN + old(self).mss,
        ensures
            final(self).wf(),
            final(self)@ == old(self)@.spec_schedule(current, wnd, una),
            o == outcome_of(old(self)@.buf, current, &old(self).cfg),
            final(packer).wf(),
            final(packer).limit == old(packer).limit,
            final(packer)@ == old(packer)@.add_all(
                transmitted(
                    old(self)@.buf,
                    old(self)@.buf.len() as int,
                    current,
                    wnd,
                    una,
                    &old(self).cfg,
                ),
            ),
            forall|i: int|
                0 <= i < final(self)@.buf.len() ==> (#[trigger] final(self)@.buf[i]).xmit >= old(
                    self,
                )@.buf[i].xmit,
    {
        let ghost start = self@.buf;
        let cfg = self.cfg;
        let mut o = Outcome { lost: false, fast: false, dead: false };
        let mut i: usize = 0;
        while i < self.buf.len()
            invariant
                i <= self.buf.len(),
                self.buf.len() == start.len(),
                start == old(self)@.buf,
                old(self).wf(),
                cfg == old(self).cfg,
                forall|j: int|
                    0 <= j < i ==> (#[trigger] entry_views(self.buf@)[j]) == start[j].sent(
                        current,
                        wnd,
                        una,
                        &cfg,
                    ),
                forall|j: int| i <= j < start.len() ==> (#[trigger] entry_views(self.buf@)[j]) == start[j],
                self.conv == old(self).conv,
                self.cfg == old(self).cfg,
                self.mss == old(self).mss,
                self.snd_una == old(self).snd_una,
                self.snd_nxt == old(self).snd_nxt,
                self.queue == old(self).queue,
                self.cwnd == old(self).cwnd,
                self.ssthresh == old(self).ssthresh,
                self.incr == old(self).incr,
                self.rmt_wnd == old(self).rmt_wnd,
                self.rtt == old(self).rtt,
                packer.wf(),
                packer.limit == old(packer).limit,
                packer.limit >= HEADER_LEN + old(self).mss,
                packer@ == old(packer)@.add_all(transmitted(start, i as int, current, wnd, una, &cfg)),
                o.lost == any_due(start, i as int, current, cfg.resend, Due::Timeout),
                o.fast == any_due(start, i as int, current, cfg.resend, Due::Fast),
                o.dead == any_dies(start, i as int, current, &cfg),
            decreases self.buf.len() - i,
        {
            let ghost before = entry_views(self.buf@);
            assert(before[i as int] == start[i as int]);
            let d = self.buf[i].transmit(current, wnd, una, &cfg);
            proof {
                let after = entry_views(self.buf@);
                assert(after[i as int] == start[i as int].sent(current, wnd, una, &cfg));
                assert forall|j: int| 0 <= j < start.len() && j != i implies after[j]
                    == before[j] by {}
            }
            match d {
                Due::No => {},
                Due::First => {},
                Due::Timeout => {
                    o.lost = true;
                    if self.buf[i].xmit > cfg.dead_link {
                        o.dead = true;
                    }
                },
                Due::Fast => {
                    o.fast = true;
                },
            }
            if d != Due::No {
                proof {
                    lemma_add_all_push(
                        old(packer)@,
                        transmitted(start, i as int, current, wnd, una, &cfg),
                        start[i as int].stamped(current, wnd, una),
                    );
                    assert(self.buf[i as int]@.seg == start[i as int].stamped(current, wnd, una));
                }
                packer.add(&self.buf[i].seg);
            }
            i = i + 1;
        }
        proof {
            let done = all_sent(start, current, wnd, una, &cfg);
            assert(entry_views(self.buf@) =~= done);
            assert(self@ =~= old(self)@.spec_schedule(current, wnd, una));
            assert forall|j: int| 0 <= j < done.len() implies {
                &&& (#[trigger] done[j]).seg.sn == start[j].seg.sn
                &&& done[j].seg.cmd == start[j].seg.cmd
                &&& done[j].seg.payload == start[j].seg.payload
                &&& done[j].seg.conv == start[j].seg.conv
                &&& done[j].xmit >= start[j].xmit
            } by {}
            assert forall|a: int, b: int| 0 <= a < b < done.len() implies (#[trigger] done[a]).seg.sn
                < (#[trigger] done[b]).seg.sn by {
                assert(done[a].seg.sn == start[a].seg.sn && done[b].seg.sn == start[b].seg.sn);
            }
            assert forall|j: int| 0 <= j < done.len() implies {
                &&& self@.snd_una <= (#[trigger] done[j]).seg.sn < self@.snd_nxt
                &&& done[j].seg.cmd.spec_is_sequenced()
                &&& done[j].seg.payload.len() <= self@.mss
                &&& done[j].seg.conv == self@.conv
            } by {
                assert(done[j].seg.sn == start[j].seg.sn);
            }
            if done.len() > 0 {
                assert(done[0].seg.sn == start[0].seg.sn);
            }
        }
        o
    }

    /// Lets congestion control take in what a pass over the buffer met.
    pub fn react(&mut self, o: Outcome)
        requires
            old(self).wf(),
        ensures
            final(self).wf(),
            final(self)@ == old(self)@.spec_react(o),
    {
        if self.cfg.nc {
            return ;
        }
        if o.fast {
            let half: u32 = (self.snd_nxt - self.snd_una) / 2;
            let ssthresh: u32 = if half >= 2 {
                half
            } else {
                2
            };
            let want: u64 = ssthresh as u64 + self.cfg.resend as u64;
            self.ssthresh = ssthresh;
            self.cwnd = if want < self.cfg.snd_wnd as u64 {
                want as u32
            } else {
                self.cfg.snd_wnd as u32
            };
            self.incr = 0;
        }
        if o.lost {
            let half: u32 = self.cwnd / 2;
            self.ssthresh = if half >= 2 {
                half
            } else {
                2
            };
            self.cwnd = 1;
            self.incr = 0;
        }
        assert(self@ =~= old(self)@.spec_react(o));
    }

    /// The earliest time at which a segment in flight is due again, or
    /// `bound` where that is earlier.
    pub fn next_timeout(&self, bound: u64) -> (t: u64)
        ensures
            t == earliest(self@.buf, self@.buf.len() as int, bound),
    {
        let mut t: u64 = bound;
        let mut i: usize = 0;
        while i < self.buf.len()
            invariant
                i <= self.buf.len(),
                t == earliest(self@.buf, i as int, bound),
            decreases self.buf.len() - i,
        {
            assert(self@.buf[i as int] == self.buf[i as int]@);
            if self.buf[i].resendts < t {
                t = self.buf[i].resendts;
            }
            i = i + 1;
        }
        t
    }
}

} // verus!
