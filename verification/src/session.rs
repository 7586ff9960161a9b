use vstd::prelude::*;

verus! {

/// The peers of a datagram socket that serves many, by address, in the
/// order in which they were first heard of.
pub struct SessionTable {
    /// The peers' addresses, each written as text; no address twice.
    pub peers: Vec<String>,
}

/// Where a datagram goes.
#[derive(Clone, Copy, Debug, PartialEq, Eq, Structural)]
pub enum Dispatch {
    /// To the session at this place, which exists.
    Known(usize),
    /// To a new session, which takes this place.
    Created(usize),
    /// Nowhere: it comes from an unknown peer and does not open.
    Refused,
}

/// The addresses of a list of peers, as sequences of characters.
pub open spec fn peer_views(peers: Seq<String>) -> Seq<Seq<char>> {
    peers.map_values(|s: String| s@)
}

/// The index of the first peer at or behind `from` with the address
/// `addr`, or the number of peers.
pub open spec fn peer_index(peers: Seq<Seq<char>>, addr: Seq<char>, from: int) -> int
    decreases peers.len() - from,
{
    if from < 0 || from >= peers.len() {
        peers.len() as int
    } else if peers[from] == addr {
        from
    } else {
        peer_index(peers, addr, from + 1)
    }
}

/// The peers among the first `n` whose sessions are not marked closed, in
/// order. A peer without a mark stays.
pub open spec fn live_peers(peers: Seq<Seq<char>>, closed: Seq<bool>, n: int) -> Seq<Seq<char>>
    decreases n,
{
    if n <= 0 {
        Seq::empty()
    } else if n - 1 < closed.len() && closed[n - 1] {
        live_peers(peers, closed, n - 1)
    } else {
        live_peers(peers, closed, n - 1).push(peers[n - 1])
    }
}

impl View for SessionTable {
    type V = Seq<Seq<char>>;

    open spec fn view(&self) -> Seq<Seq<char>> {
        peer_views(self.peers@)
    }
}

impl SessionTable {
    /// A table without peers.
    pub fn new() -> (t: SessionTable)
        ensures
            t@ == Seq::<Seq<char>>::empty(),
    {
        let t = SessionTable { peers: Vec::new() };
        assert(t@ =~= Seq::empty());
        t
    }

    /// Peers in the table.
    pub fn len(&self) -> (n: usize)
        ensures
            n == self@.len(),
    {
        self.peers.len()
    }

    /// The place of the peer with the address `addr`, or the number of
    /// peers where it is unknown.
    pub fn find(&self, addr: &String) -> (i: usize)
        ensures
            i == peer_index(self@, addr@, 0),
            i <= self@.len(),
            i < self@.len() ==> self@[i as int] == addr@,
    {
        let ghost views = self@;
        let mut i: usize = 0;
        while i < self.peers.len() && self.peers[i] != *addr
            invariant
                i <= self.peers.len(),
                views == peer_views(self.peers@),
                peer_index(views, addr@, 0) == peer_index(views, addr@, i as int),
            decreases self.peers.len() - i,
        {
            assert(views[i as int] == self.peers[i as int]@);
            i = i + 1;
        }
        proof {
            if i < self.peers.len() {
                assert(views[i as int] == self.peers[i as int]@);
            }
        }
        i
    }

    /// Finds the session for a datagram from `addr`: the one that exists;
    /// for an unknown peer a new one behind all others, but only where the
    /// datagram opens under the shared key.
    pub fn dispatch(&mut self, addr: String, opens: bool) -> (d: Dispatch)
        ensures
            match d {
                Dispatch::Known(i) => {
                    &&& i == peer_index(old(self)@, addr@, 0)
                    &&& i < old(self)@.len()
                    &&& old(self)@[i as int] == addr@
                    &&& final(self)@ == old(self)@
                },
                Dispatch::Created(i) => {
                    &&& peer_index(old(self)@, addr@, 0) == old(self)@.len()
                    &&& opens
                    &&& i == old(self)@.len()
                    &&& final(self)@ == old(self)@.push(addr@)
                },
                Dispatch::Refused => {
                    &&& peer_index(old(self)@, addr@, 0) == old(self)@.len()
                    &&& !opens
                    &&& final(self)@ == old(self)@
                },
            },
    {
        let i = self.find(&addr);
        if i < self.peers.len() {
            Dispatch::Known(i)
        } else if opens {
            let ghost views = self@;
            self.peers.push(addr);
            assert(self@ =~= views.push(addr@));
            Dispatch::Created(i)
        } else {
            Dispatch::Refused
        }
    }

    /// Forgets the peers whose sessions are marked closed.
    pub fn prune(&mut self, closed: &Vec<bool>)
        ensures
            final(self)@ == live_peers(old(self)@, closed@, old(self)@.len() as int),
    {
        let ghost start = self@;
        let mut all: Vec<String> = Vec::new();
        std::mem::swap(&mut all, &mut self.peers);
        let n: usize = all.len();
        let mut kept: Vec<String> = Vec::new();
        let mut k: usize = 0;
        assert(peer_views(kept@) =~= live_peers(start, closed@, 0));
        for peer in it: all
            invariant
                start == peer_views(it.seq()),
                n == it.seq().len(),
                k == it.index(),
                peer_views(kept@) == live_peers(start, closed@, it.index() as int),
        {
            assert(k < n);
            assert(start[k as int] == peer@);
            let ghost before = peer_views(kept@);
            if k < closed.len() && closed[k] {
            } else {
                kept.push(peer);
                assert(peer_views(kept@) =~= before.push(start[k as int]));
            }
            k = k + 1;
        }
        self.peers = kept;
        assert(start.len() == n);
    }
}

/// Copies a datagram into a receive buffer that has room for it: the
/// datagram takes the front of the buffer, the rest stays. A datagram that
/// is longer than the buffer is not copied.
pub fn copy_packet(payload: &[u8], buf: &mut Vec<u8>) -> (r: Option<usize>)
    ensures
        payload@.len() > old(buf)@.len() ==> r is None && final(buf)@ == old(buf)@,
        payload@.len() <= old(buf)@.len() ==> r == Some(payload@.len() as usize) && final(buf)@
            == payload@ + old(buf)@.subrange(payload@.len() as int, old(buf)@.len() as int),
{
    if payload.len() > buf.len() {
        return None;
    }
    let mut i: usize = 0;
    while i < payload.len()
        invariant
            i <= payload.len() <= buf.len(),
            buf.len() == old(buf).len(),
            buf@ == payload@.subrange(0, i as int) + old(buf)@.subrange(
                i as int,
                old(buf)@.len() as int,
            ),
        decreases payload.len() - i,
    {
        buf.set(i, payload[i]);
        i = i + 1;
        assert(buf@ =~= payload@.subrange(0, i as int) + old(buf)@.subrange(
            i as int,
            old(buf)@.len() as int,
        ));
    }
    assert(payload@.subrange(0, payload@.len() as int) =~= payload@);
    assert(payload@.subrange(0, 0) + old(buf)@.subrange(0, old(buf)@.len() as int) =~= old(buf)@);
    Some(payload.len())
}

} // verus!
