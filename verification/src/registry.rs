use vstd::prelude::*;

verus! {

/// One pending outbound payload: a pool buffer holding the bytes, a cursor
/// for partial writes, and the total payload length inside the buffer.
#[derive(Clone, Copy, PartialEq, Eq, Structural, Debug)]
pub struct OutboundEntry {
    pub buf_index: usize,
    pub offset: usize,
    pub len: usize,
}

/// State of one live connection: its descriptor, its peer address, the FIFO
/// queue of payloads waiting to be written (front at index 0), and the arena
/// indices of its in-flight read-side and write-side operation descriptors.
pub struct Connection {
    pub fd: i32,
    pub peer_ip: u32,
    pub peer_port: u16,
    pub outbound: Vec<OutboundEntry>,
    pub read_token: Option<usize>,
    pub write_token: Option<usize>,
}

/// Two connection states that agree on everything but the outbound queue.
pub open spec fn same_but_outbound(a: Connection, b: Connection) -> bool {
    &&& a.fd == b.fd
    &&& a.peer_ip == b.peer_ip
    &&& a.peer_port == b.peer_port
    &&& a.read_token == b.read_token
    &&& a.write_token == b.write_token
}

/// Two connection states that agree on identity and the read side (the
/// write side — outbound queue and write descriptor — may differ).
pub open spec fn same_read_side(a: Connection, b: Connection) -> bool {
    &&& a.fd == b.fd
    &&& a.peer_ip == b.peer_ip
    &&& a.peer_port == b.peer_port
    &&& a.read_token == b.read_token
}

/// Two connection states that agree on everything but the two token fields.
pub open spec fn same_but_tokens(a: Connection, b: Connection) -> bool {
    &&& a.fd == b.fd
    &&& a.peer_ip == b.peer_ip
    &&& a.peer_port == b.peer_port
    &&& a.outbound@ == b.outbound@
}

impl Connection {
    pub fn new(fd: i32, peer_ip: u32, peer_port: u16) -> (r: Connection)
        ensures
            r.fd == fd,
            r.peer_ip == peer_ip,
            r.peer_port == peer_port,
            r.outbound@.len() == 0,
            r.read_token is None,
            r.write_token is None,
    {
        Connection {
            fd,
            peer_ip,
            peer_port,
            outbound: Vec::new(),
            read_token: None,
            write_token: None,
        }
    }
}

/// No two live connections share a descriptor.
pub open spec fn unique_fds(s: Seq<Connection>) -> bool {
    forall|k1: int, k2: int|
        0 <= k1 < s.len() && 0 <= k2 < s.len() && #[trigger] s[k1].fd == #[trigger] s[k2].fd
            ==> k1 == k2
}

/// The single source of truth mapping a live descriptor to its connection.
/// Iteration order (used by the broadcast fan-out) is insertion order.
pub struct Registry {
    conns: Vec<Connection>,
}

impl Registry {
    /// The registered connections, in iteration order.
    pub closed spec fn conns(self) -> Seq<Connection> {
        self.conns@
    }

    pub open spec fn wf(self) -> bool {
        unique_fds(self.conns())
    }

    pub open spec fn contains_fd(self, fd: i32) -> bool {
        exists|k: int| 0 <= k < self.conns().len() && (#[trigger] self.conns()[k]).fd == fd
    }

    /// The index of the connection owning `fd`; meaningful only when
    /// `contains_fd(fd)` holds (uniqueness makes it the one such index).
    pub open spec fn index_of(self, fd: i32) -> int {
        choose|k: int| 0 <= k < self.conns().len() && (#[trigger] self.conns()[k]).fd == fd
    }

    pub fn new() -> (r: Registry)
        ensures
            r.wf(),
            r.conns().len() == 0,
    {
        Registry { conns: Vec::new() }
    }

    pub fn len(&self) -> (r: usize)
        ensures
            r == self.conns().len(),
    {
        self.conns.len()
    }

    pub fn get(&self, k: usize) -> (r: &Connection)
        requires
            k < self.conns().len(),
        ensures
            *r == self.conns()[k as int],
    {
        &self.conns[k]
    }

    /// Look a descriptor up; `None` means the event that carried it is stale
    /// and must be ignored by the caller, never treated as an error.
    pub fn find(&self, fd: i32) -> (r: Option<usize>)
        ensures
            match r {
                Option::Some(k) => {
                    &&& k < self.conns().len()
                    &&& self.conns()[k as int].fd == fd
                    &&& self.contains_fd(fd)
                },
                Option::None => !self.contains_fd(fd),
            },
    {
        let n = self.conns.len();
        let mut k: usize = 0;
        while k < n
            invariant
                n == self.conns().len(),
                k <= n,
                forall|j: int| 0 <= j < k ==> (#[trigger] self.conns()[j]).fd != fd,
            decreases n - k,
        {
            if self.conns[k].fd == fd {
                return Some(k);
            }
            k = k + 1;
        }
        None
    }

    /// Register a connection; refused when its descriptor is already live, so
    /// that no descriptor is ever dual-owned.
    pub fn insert(&mut self, c: Connection) -> (ok: bool)
        requires
            old(self).wf(),
        ensures
            final(self).wf(),
            ok <==> !old(self).contains_fd(c.fd),
            ok ==> final(self).conns() == old(self).conns().push(c),
            !ok ==> final(self).conns() == old(self).conns(),
            final(self).contains_fd(c.fd),
    {
        match self.find(c.fd) {
            Some(_) => false,
            None => {
                let ghost fd = c.fd;
                self.conns.push(c);
                assert(self.conns()[self.conns().len() - 1].fd == fd);
                true
            },
        }
    }

    /// Remove the connection owning `fd`, keeping all others in order.
    pub fn remove_fd(&mut self, fd: i32) -> (r: Option<Connection>)
        requires
            old(self).wf(),
        ensures
            final(self).wf(),
            r is Some <==> old(self).contains_fd(fd),
            !final(self).contains_fd(fd),
            match r {
                Option::Some(c) => {
                    &&& c == old(self).conns()[old(self).index_of(fd)]
                    &&& c.fd == fd
                    &&& final(self).conns() == old(self).conns().remove(old(self).index_of(fd))
                },
                Option::None => final(self).conns() == old(self).conns(),
            },
    {
        match self.find(fd) {
            Some(k) => {
                assert(k == old(self).index_of(fd));
                let c = self.conns.remove(k);
                assert forall|j: int|
                    0 <= j < self.conns().len() implies (#[trigger] self.conns()[j]).fd != fd by {
                    if j < k {
                        assert(self.conns()[j] == old(self).conns()[j]);
                    } else {
                        assert(self.conns()[j] == old(self).conns()[j + 1]);
                    }
                }
                Some(c)
            },
            None => None,
        }
    }

    /// Append a payload to connection `k`'s outbound queue.
    pub fn push_outbound(&mut self, k: usize, e: OutboundEntry)
        requires
            old(self).wf(),
            k < old(self).conns().len(),
        ensures
            final(self).wf(),
            final(self).conns().len() == old(self).conns().len(),
            forall|j: int|
                0 <= j < old(self).conns().len() && j != k ==> #[trigger] final(self).conns()[j]
                    == old(self).conns()[j],
            same_but_outbound(final(self).conns()[k as int], old(self).conns()[k as int]),
            final(self).conns()[k as int].outbound@ == old(self).conns()[k as int].outbound@.push(
                e,
            ),
    {
        self.conns[k].outbound.push(e);
    }

    /// Pop the head of connection `k`'s outbound queue, if any.
    pub fn pop_outbound(&mut self, k: usize) -> (r: Option<OutboundEntry>)
        requires
            old(self).wf(),
            k < old(self).conns().len(),
        ensures
            final(self).wf(),
            final(self).conns().len() == old(self).conns().len(),
            forall|j: int|
                0 <= j < old(self).conns().len() && j != k ==> #[trigger] final(self).conns()[j]
                    == old(self).conns()[j],
            same_but_outbound(final(self).conns()[k as int], old(self).conns()[k as int]),
            r is Some <==> old(self).conns()[k as int].outbound@.len() > 0,
            match r {
                Option::Some(e) => {
                    &&& e == old(self).conns()[k as int].outbound@[0]
                    &&& final(self).conns()[k as int].outbound@ == old(self).conns()[
                        k as int
                    ].outbound@.drop_first()
                },
                Option::None => final(self).conns()[k as int].outbound@ == old(self).conns()[
                    k as int
                ].outbound@,
            },
    {
        if self.conns[k].outbound.len() > 0 {
            let e = self.conns[k].outbound.remove(0);
            assert(final(self).conns()[k as int].outbound@ == old(self).conns()[
                k as int
            ].outbound@.drop_first());
            Some(e)
        } else {
            None
        }
    }

    /// Record which arena slot holds connection `k`'s read-side descriptor.
    pub fn set_read_token(&mut self, k: usize, t: Option<usize>)
        requires
            old(self).wf(),
            k < old(self).conns().len(),
        ensures
            final(self).wf(),
            final(self).conns().len() == old(self).conns().len(),
            forall|j: int|
                0 <= j < old(self).conns().len() && j != k ==> #[trigger] final(self).conns()[j]
                    == old(self).conns()[j],
            same_but_tokens(final(self).conns()[k as int], old(self).conns()[k as int]),
            final(self).conns()[k as int].read_token == t,
            final(self).conns()[k as int].write_token == old(self).conns()[k as int].write_token,
    {
        self.conns[k].read_token = t;
    }

    /// Record which arena slot holds connection `k`'s write-side descriptor.
    pub fn set_write_token(&mut self, k: usize, t: Option<usize>)
        requires
            old(self).wf(),
            k < old(self).conns().len(),
        ensures
            final(self).wf(),
            final(self).conns().len() == old(self).conns().len(),
            forall|j: int|
                0 <= j < old(self).conns().len() && j != k ==> #[trigger] final(self).conns()[j]
                    == old(self).conns()[j],
            same_but_tokens(final(self).conns()[k as int], old(self).conns()[k as int]),
            final(self).conns()[k as int].write_token == t,
            final(self).conns()[k as int].read_token == old(self).conns()[k as int].read_token,
    {
        self.conns[k].write_token = t;
    }
}

} // verus!
