use vstd::prelude::*;
use vstd::slice::slice_subrange;
use crate::error::KcpError;
use crate::kcp::{KcpCore, KcpCoreView, StreamState};
use crate::rtt::min_int;
use crate::sender::{fragment_count, MAX_FRAGMENTS};

verus! {

/// One stream as the multiplexer holds it: the engine, and the bytes of
/// the message that is being read.
pub struct Stream {
    pub core: KcpCore,
    /// Bytes taken from the engine and not yet read.
    pub pending: Vec<u8>,
}

/// A stream as a mathematical value.
#[verifier::ext_equal]
pub struct StreamView {
    pub core: KcpCoreView,
    pub pending: Seq<u8>,
}

impl View for Stream {
    type V = StreamView;

    open spec fn view(&self) -> StreamView {
        StreamView { core: self.core@, pending: self.pending@ }
    }
}

/// A message of `n` bytes, `n` at most `room * mss`, has at most `room`
/// pieces.
pub proof fn lemma_fragment_count_bound(n: int, mss: int, room: int)
    requires
        mss >= 1,
        0 <= n <= room * mss,
    ensures
        fragment_count(n, mss) <= room,
{
    let q = n / mss;
    let r = n % mss;
    assert(n == q * mss + r && 0 <= r < mss) by {
        vstd::arithmetic::div_mod::lemma_fundamental_div_mod(n, mss);
        vstd::arithmetic::div_mod::lemma_mod_bound(n, mss);
        vstd::arithmetic::mul::lemma_mul_is_commutative(q, mss);
    }
    if r == 0 {
        assert(q <= room) by (nonlinear_arith)
            requires
                q * mss <= room * mss,
                mss >= 1,
        ;
    } else {
        assert(q + 1 <= room) by (nonlinear_arith)
            requires
                q * mss + r <= room * mss,
                r > 0,
                mss >= 1,
        ;
    }
}

impl StreamView {
    /// The engine is well-formed.
    pub open spec fn wf(self) -> bool {
        self.core.wf()
    }

    /// A stream around a fresh engine.
    pub open spec fn spec_new(core: KcpCoreView) -> StreamView {
        StreamView { core, pending: Seq::empty() }
    }

    /// The stream around another engine.
    pub open spec fn with_core(self, core: KcpCoreView) -> StreamView {
        StreamView { core, ..self }
    }

    /// The stream with other bytes pending.
    pub open spec fn with_pending(self, pending: Seq<u8>) -> StreamView {
        StreamView { pending, ..self }
    }

    /// Segments that one write may add to the send queue: what the queue
    /// has room for, and no more than one message can have.
    pub open spec fn room(self) -> int {
        min_int(self.core.cfg.send_queue_max - self.core.tx.queue.len(), MAX_FRAGMENTS as int)
    }

    /// Bytes that a write of `len` bytes takes: all of them, or as many as
    /// fill the segments there is room for.
    pub open spec fn write_len(self, len: int) -> int {
        if self.room() <= 0 {
            0
        } else {
            min_int(len, self.room() * self.core.mss)
        }
    }

    /// Why the stream takes no more bytes, if it does not: a closed stream
    /// reports why it was closed, one whose own half is closed says so.
    pub open spec fn write_error(self) -> Option<KcpError> {
        if self.core.state == StreamState::Closed {
            Some(self.core.terminal_error())
        } else if self.core.state == StreamState::Closing {
            Some(KcpError::StreamClosed)
        } else {
            None
        }
    }

    /// What a write returns: the number of bytes taken; `WouldBlock` where
    /// there are bytes and room for none of them.
    pub open spec fn write_result(self, data: Seq<u8>) -> Result<usize, KcpError> {
        match self.write_error() {
            Some(e) => Err(e),
            None => if data.len() == 0 {
                Ok(0)
            } else if self.write_len(data.len() as int) == 0 {
                Err(KcpError::WouldBlock)
            } else {
                Ok(self.write_len(data.len() as int) as usize)
            },
        }
    }

    /// The stream after a write: the bytes taken wait in the send queue as
    /// one message, cut into pieces.
    pub open spec fn spec_write(self, data: Seq<u8>) -> StreamView {
        match self.write_result(data) {
            Ok(n) => if n == 0 {
                self
            } else {
                self.with_core(
                    self.core.with_tx(self.core.tx.spec_send(data.subrange(0, n as int))),
                )
            },
            Err(_) => self,
        }
    }

    /// The stream with bytes to read, where the engine has any: with none
    /// pending, the next message that holds bytes is taken from the engine.
    pub open spec fn filled(self) -> StreamView {
        if self.pending.len() > 0 {
            self
        } else {
            StreamView {
                core: self.core.with_rx(self.core.rx.spec_pull().0),
                pending: self.core.rx.spec_pull().1,
            }
        }
    }

    /// What a read of at most `max` bytes returns: the first bytes that
    /// are pending; with none, the error of a stream that was cut off, no
    /// bytes at the end of the peer's stream, `StreamClosed` for a stream
    /// closed in order, and `WouldBlock` otherwise.
    pub open spec fn read_result(self, max: int) -> Result<Seq<u8>, KcpError> {
        let s = self.filled();
        if s.pending.len() > 0 {
            Ok(s.pending.subrange(0, min_int(max, s.pending.len() as int)))
        } else if s.core.state == StreamState::Closed && s.core.error is Some {
            Err(s.core.error.unwrap())
        } else if s.core.rx.peer_fin {
            Ok(Seq::empty())
        } else if s.core.state == StreamState::Closed {
            Err(KcpError::StreamClosed)
        } else {
            Err(KcpError::WouldBlock)
        }
    }

    /// The stream after a read of at most `max` bytes.
    pub open spec fn spec_read(self, max: int) -> StreamView {
        let s = self.filled();
        s.with_pending(
            s.pending.subrange(min_int(max, s.pending.len() as int), s.pending.len() as int),
        )
    }

    /// The peer has ended its stream and everything it sent has been read.
    pub open spec fn at_eof(self) -> bool {
        self.pending.len() == 0 && self.core.rx.peer_fin && self.core.rx.ready_len() == 0
    }
}

impl Stream {
    /// The stream is well-formed.
    pub open spec fn wf(&self) -> bool {
        self@.wf()
    }

    /// A stream around an engine, with no bytes pending.
    pub fn new(core: KcpCore) -> (s: Stream)
        requires
            core.wf(),
        ensures
            s.wf(),
            s@ == StreamView::spec_new(core@),
    {
        Stream { core, pending: Vec::new() }
    }

    /// Takes bytes to send: all of `data`, or as much of it as the send
    /// queue has room for, as one message.
    pub fn write(&mut self, data: &[u8]) -> (r: Result<usize, KcpError>)
        requires
            old(self).wf(),
        ensures
            final(self).wf(),
            r == old(self)@.write_result(data@),
            final(self)@ == old(self)@.spec_write(data@),
            r is Ok ==> r.unwrap() <= data@.len(),
    {
        if self.core.state == StreamState::Closed {
            return match self.core.error {
                Some(e) => Err(e),
                None => Err(KcpError::StreamClosed),
            };
        }
        if self.core.state == StreamState::Closing {
            return Err(KcpError::StreamClosed);
        }
        if data.len() == 0 {
            return Ok(0);
        }
        let queued = self.core.tx.queue.len();
        let max = self.core.cfg.send_queue_max;
        let free: usize = if max > queued {
            max - queued
        } else {
            0
        };
        let room: usize = if free < MAX_FRAGMENTS {
            free
        } else {
            MAX_FRAGMENTS
        };
        assert(room == old(self)@.room() || (room == 0 && old(self)@.room() <= 0));
        if room == 0 {
            return Err(KcpError::WouldBlock);
        }
        let mss = self.core.mss as usize;
        assert(room * mss <= 256 * 65535 && room * mss >= 1) by (nonlinear_arith)
            requires
                1 <= room <= 256,
                1 <= mss <= 65535,
        ;
        let cap: usize = room * mss;
        let n: usize = if data.len() < cap {
            data.len()
        } else {
            cap
        };
        proof {
            lemma_fragment_count_bound(n as int, mss as int, room as int);
        }
        let part = slice_subrange(data, 0, n);
        let sent = self.core.send(part);
        assert(sent is Ok);
        assert(self@ =~= old(self)@.spec_write(data@));
        Ok(n)
    }

    /// Hands out at most `max` of the bytes that the peer sent, in order;
    /// no bytes at the end of the peer's stream.
    pub fn read(&mut self, max: usize) -> (r: Result<Vec<u8>, KcpError>)
        requires
            old(self).wf(),
        ensures
            final(self).wf(),
            final(self)@ == old(self)@.spec_read(max as int),
            match r {
                Ok(bytes) => old(self)@.read_result(max as int) == Ok::<Seq<u8>, KcpError>(bytes@),
                Err(e) => old(self)@.read_result(max as int) == Err::<Seq<u8>, KcpError>(e),
            },
            final(self).core.rx.rcv_nxt >= old(self).core.rx.rcv_nxt,
    {
        if self.pending.len() == 0 {
            self.pending = self.core.rx.pull();
        }
        assert(self@ =~= old(self)@.filled());
        if self.pending.len() > 0 {
            let n: usize = if max < self.pending.len() {
                max
            } else {
                self.pending.len()
            };
            let mut rest = self.pending.split_off(n);
            std::mem::swap(&mut self.pending, &mut rest);
            assert(self@ =~= old(self)@.spec_read(max as int));
            return Ok(rest);
        }
        assert(self@.pending.subrange(0, 0) =~= self@.pending);
        assert(self@ =~= old(self)@.spec_read(max as int));
        if self.core.state == StreamState::Closed && self.core.error.is_some() {
            return Err(self.core.error.unwrap());
        }
        if self.core.rx.peer_fin {
            let none: Vec<u8> = Vec::new();
            assert(none@ =~= Seq::empty());
            return Ok(none);
        }
        if self.core.state == StreamState::Closed {
            return Err(KcpError::StreamClosed);
        }
        Err(KcpError::WouldBlock)
    }

    /// Closes the own half of the stream.
    pub fn close(&mut self)
        requires
            old(self).wf(),
        ensures
            final(self).wf(),
            final(self)@ == old(self)@.with_core(old(self)@.core.spec_close()),
    {
        self.core.close();
    }

    /// The peer has ended its stream and everything it sent has been read.
    pub fn is_eof(&self) -> (r: bool)
        requires
            self.wf(),
        ensures
            r == self@.at_eof(),
    {
        if self.pending.len() > 0 || !self.core.rx.peer_fin {
            return false;
        }
        let mut i: usize = 0;
        let ghost q = self.core.rx@.queue;
        while i < self.core.rx.queue.len() && self.core.rx.queue[i].frg != 0
            invariant
                i <= self.core.rx.queue.len(),
                q == self.core.rx@.queue,
                crate::receiver::message_end(q, 0) == crate::receiver::message_end(q, i as int),
            decreases self.core.rx.queue.len() - i,
        {
            i = i + 1;
        }
        i >= self.core.rx.queue.len()
    }
}

/// The capability to read from and write to one stream of a multiplexer.
#[derive(Debug, PartialEq, Eq, Structural)]
pub struct KcpStream {
    pub conv: u32,
    /// Tells this handle from every other that the multiplexer gave out.
    pub token: u64,
}

/// The reading half of a stream handle.
#[derive(Debug, PartialEq, Eq, Structural)]
pub struct KcpReader {
    pub conv: u32,
    pub token: u64,
}

/// The writing half of a stream handle.
#[derive(Debug, PartialEq, Eq, Structural)]
pub struct KcpWriter {
    pub conv: u32,
    pub token: u64,
}

impl KcpStream {
    /// Parts the handle into a reading and a writing half.
    pub fn split(self) -> (halves: (KcpReader, KcpWriter))
        ensures
            halves.0.conv == self.conv,
            halves.0.token == self.token,
            halves.1.conv == self.conv,
            halves.1.token == self.token,
    {
        (
            KcpReader { conv: self.conv, token: self.token },
            KcpWriter { conv: self.conv, token: self.token },
        )
    }
}

impl KcpReader {
    /// The two halves come from one split.
    pub open spec fn matches_writer(&self, writer: &KcpWriter) -> bool {
        self.conv == writer.conv && self.token == writer.token
    }

    /// Joins the two halves of one split into the handle again; halves of
    /// different splits are handed back.
    pub fn reunite(self, writer: KcpWriter) -> (r: Result<KcpStream, (KcpReader, KcpWriter)>)
        ensures
            match r {
                Ok(stream) => self.matches_writer(&writer) && stream.conv == self.conv
                    && stream.token == self.token,
                Err(halves) => !self.matches_writer(&writer) && halves.0 == self && halves.1
                    == writer,
            },
    {
        if self.conv == writer.conv && self.token == writer.token {
            Ok(KcpStream { conv: self.conv, token: self.token })
        } else {
            Err((self, writer))
        }
    }
}

} // verus!
