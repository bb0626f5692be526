use vstd::prelude::*;
use crate::backlog::Backlog;
use crate::backlog::Intent;
use crate::backlog::drained;
use crate::backlog::left;
use crate::backlog::min_nat;
use crate::buffer_pool::BufferPool;
use crate::fanout::FanoutPolicy;
use crate::fanout::count_selected;
use crate::fanout::selects;
use crate::registry::OutboundEntry;
use crate::registry::same_but_outbound;
use crate::registry::same_read_side;
use crate::registry::Connection;
use crate::registry::Registry;
use crate::tokens::Token;
use crate::tokens::TokenArena;

verus! {

/// Tuning of the engine: how many accept operations are kept standing, how
/// large a fresh read buffer is, the buffer pool's hard capacity (`None`
/// grows on demand), and the fan-out policy.
#[derive(Clone, Copy, PartialEq, Eq, Structural, Debug)]
pub struct ReactorConfig {
    pub accept_concurrency: usize,
    pub buf_size: usize,
    pub pool_cap: Option<usize>,
    pub policy: FanoutPolicy,
}

impl Default for ReactorConfig {
    /// Ten standing accepts, two-kibibyte read buffers, an unbounded pool,
    /// and peer-to-peer relay.
    fn default() -> (r: ReactorConfig)
        ensures
            r.accept_concurrency == 10,
            r.buf_size == 2048,
            r.pool_cap is None,
            r.policy == FanoutPolicy::AllExceptSender,
    {
        ReactorConfig {
            accept_concurrency: 10,
            buf_size: 2048,
            pool_cap: None,
            policy: FanoutPolicy::AllExceptSender,
        }
    }
}

/// Keeps the listening socket armed with a standing number of accept
/// operations. `count` is how many accept intents still have to be submitted
/// to restore the configured concurrency; each processed accept completion
/// raises it by one again.
pub struct AcceptCount {
    pub fd: i32,
    pub token: usize,
    pub count: usize,
}

impl AcceptCount {
    /// `fd` is the listening descriptor, `token` the arena slot carried as
    /// user data by every accept submission, `count` the standing target.
    pub fn new(fd: i32, token: usize, count: usize) -> (r: AcceptCount)
        ensures
            r.fd == fd,
            r.token == token,
            r.count == count,
    {
        AcceptCount { fd, token, count }
    }

    /// Emit one accept intent per open submission slot until the standing
    /// target is met: exactly `min(free, count)` intents come out and the
    /// remainder stays counted, so no accept is ever dropped.
    pub fn push_to(&mut self, free: usize) -> (out: Vec<Intent>)
        ensures
            final(self).fd == old(self).fd,
            final(self).token == old(self).token,
            out@.len() == min_nat(free as nat, old(self).count as nat),
            final(self).count == old(self).count - out@.len(),
            forall|j: int|
                0 <= j < out@.len() ==> out@[j] == (Intent::Accept { token: old(self).token }),
    {
        let n = if free < self.count {
            free
        } else {
            self.count
        };
        let mut out: Vec<Intent> = Vec::new();
        let mut k: usize = 0;
        while k < n
            invariant
                k <= n,
                n <= old(self).count,
                self.fd == old(self).fd,
                self.token == old(self).token,
                self.count == old(self).count - k,
                out@.len() == k,
                forall|j: int|
                    0 <= j < k ==> out@[j] == (Intent::Accept { token: old(self).token }),
            decreases n - k,
        {
            out.push(Intent::Accept { token: self.token });
            self.count = self.count - 1;
            k = k + 1;
        }
        out
    }
}

/// What the surrounding program reports back into the engine: one completed
/// or failed operation, already mapped from the OS result. `Transient` is a
/// would-block or interrupted outcome (not an error); `Failed` is any other
/// negative result (connection-fatal). For a finished read, `data` holds
/// exactly the bytes of that one read, empty meaning the peer closed.
#[derive(Debug)]
pub enum Event {
    Accepted { fd: i32, peer_ip: u32, peer_port: u16 },
    Ready { token_index: usize },
    ReadDone { token_index: usize, data: Vec<u8> },
    WriteDone { token_index: usize, n: usize },
    Transient { token_index: usize },
    Failed { token_index: usize },
}

/// What the surrounding program must do next: submit an operation, close a
/// descriptor, or switch a fresh socket to non-blocking mode.
#[derive(Clone, Copy, PartialEq, Eq, Structural, Debug)]
pub enum Action {
    Submit(Intent),
    Close(i32),
    SetNonblocking(i32),
}

/// The connection-multiplexing engine: turns completion events into registry
/// and buffer bookkeeping plus the next batch of submissions. The blocking
/// wait, the sockets and the submission queue live outside; every decision
/// lives here.
pub struct Reactor {
    pub config: ReactorConfig,
    pub registry: Registry,
    pub pool: BufferPool,
    pub backlog: Backlog,
    pub tokens: TokenArena,
    pub accept: AcceptCount,
}

/// At-most-one-owner: in a well-formed engine a buffer index is referenced
/// by at most one of {the read in progress, the write in progress, one
/// outbound queue entry}, and every referenced buffer is live in the pool
/// and not idle.
pub proof fn lemma_at_most_one_owner(
    r: Reactor,
    t1: int,
    t2: int,
    i1: int,
    k1: int,
    i2: int,
    k2: int,
    b: usize,
)
    requires
        r.wf(),
    ensures
        r.token_owns(t1, b) && r.token_owns(t2, b) ==> t1 == t2,
        r.queue_owns(i1, k1, b) && r.queue_owns(i2, k2, b) ==> i1 == i2 && k1 == k2,
        !(r.token_owns(t1, b) && r.queue_owns(i1, k1, b)),
        r.token_owns(t1, b) || r.queue_owns(i1, k1, b) ==> r.pool.acquired(b),
{
    if r.token_owns(t1, b) || r.queue_owns(i1, k1, b) {
        assert(r.owned(b));
    }
}

/// Broadcast completeness: under the all-except-sender policy, with the
/// sender registered among the connections, a fan-out from it selects
/// exactly every other connection — `N - 1` of `N` — so `fan_out` with an
/// unbounded pool enqueues exactly `N - 1` payloads.
pub proof fn lemma_fan_out_completeness(r: Reactor, sender_fd: i32)
    requires
        r.wf(),
        r.config.policy == FanoutPolicy::AllExceptSender,
        r.registry.contains_fd(sender_fd),
    ensures
        count_selected(r.conns(), r.config.policy, sender_fd) == r.conns().len() - 1,
        forall|j: int|
            0 <= j < r.conns().len() && j != r.registry.index_of(sender_fd) ==> selects(
                r.config.policy,
                (#[trigger] r.conns()[j]).fd,
                sender_fd,
            ),
        !selects(r.config.policy, r.conns()[r.registry.index_of(sender_fd)].fd, sender_fd),
{
    crate::fanout::lemma_all_except_sender_count(r.conns(), sender_fd);
    let i0 = r.registry.index_of(sender_fd);
    assert(0 <= i0 < r.conns().len() && r.conns()[i0].fd == sender_fd);
    assert forall|j: int|
        0 <= j < r.conns().len() && j != i0 implies selects(
        r.config.policy,
        (#[trigger] r.conns()[j]).fd,
        sender_fd,
    ) by {
        if r.conns()[j].fd == sender_fd {
            assert(r.conns()[j].fd == r.conns()[i0].fd);
        }
    }
}

/// Well-formedness only reads the registry, the pool, the descriptor arena
/// and the accept token, so it survives any change to the other fields.
proof fn lemma_wf_frame(a: Reactor, b: Reactor)
    requires
        a.wf(),
        b.registry == a.registry,
        b.pool == a.pool,
        b.tokens == a.tokens,
        b.accept.token == a.accept.token,
    ensures
        b.wf(),
{
    assert forall|t1: int, t2: int, bb: usize|
        #[trigger] b.token_owns(t1, bb) && #[trigger] b.token_owns(t2, bb) implies t1 == t2 by {
        assert(a.token_owns(t1, bb));
        assert(a.token_owns(t2, bb));
    }
    assert forall|i1: int, k1: int, i2: int, k2: int, bb: usize|
        #[trigger] b.queue_owns(i1, k1, bb) && #[trigger] b.queue_owns(i2, k2, bb) implies i1 == i2
        && k1 == k2 by {
        assert(a.queue_owns(i1, k1, bb));
        assert(a.queue_owns(i2, k2, bb));
    }
    assert forall|t: int, i: int, k: int, bb: usize|
        !(#[trigger] b.token_owns(t, bb) && #[trigger] b.queue_owns(i, k, bb)) by {
        if b.token_owns(t, bb) && b.queue_owns(i, k, bb) {
            assert(a.token_owns(t, bb));
            assert(a.queue_owns(i, k, bb));
        }
    }
    assert forall|bb: usize| b.owned(bb) implies #[trigger] b.pool.acquired(bb) by {
        if exists|t: int| #[trigger] b.token_owns(t, bb) {
            let t = choose|t: int| #[trigger] b.token_owns(t, bb);
            assert(a.token_owns(t, bb));
            assert(a.owned(bb));
        } else {
            let (i, k) = choose|i: int, k: int| #[trigger] b.queue_owns(i, k, bb);
            assert(a.queue_owns(i, k, bb));
            assert(a.owned(bb));
        }
    }
}

/// When every owner in the new state was already the same owner in the old
/// state, exclusivity carries over.
proof fn lemma_ownership_shrink(a: Reactor, b: Reactor)
    requires
        a.ownership_ok(),
        forall|t: int, bb: usize| #[trigger] b.token_owns(t, bb) ==> a.token_owns(t, bb),
        forall|i: int, k: int, bb: usize| #[trigger] b.queue_owns(i, k, bb) ==> a.queue_owns(
            i,
            k,
            bb,
        ),
        forall|bb: usize| #[trigger] a.pool.acquired(bb) ==> b.pool.acquired(bb),
    ensures
        b.ownership_ok(),
{
    assert forall|bb: usize| b.owned(bb) implies #[trigger] b.pool.acquired(bb) by {
        if exists|t: int| #[trigger] b.token_owns(t, bb) {
            let t = choose|t: int| #[trigger] b.token_owns(t, bb);
            assert(a.token_owns(t, bb));
            assert(a.owned(bb));
        } else {
            let (i, k) = choose|i: int, k: int| #[trigger] b.queue_owns(i, k, bb);
            assert(a.queue_owns(i, k, bb));
            assert(a.owned(bb));
        }
        assert(a.pool.acquired(bb));
    }
}

/// Cursor bounds carry over when the descriptors and the queues are
/// unchanged and the stored bytes of every owned buffer are unchanged.
proof fn lemma_cursors_frame(a: Reactor, b: Reactor)
    requires
        a.ownership_ok(),
        a.cursors_ok(),
        b.tokens == a.tokens,
        b.registry == a.registry,
        forall|bb: usize|
            #[trigger] a.pool.acquired(bb) ==> b.pool.contents(bb as int) == a.pool.contents(
                bb as int,
            ),
    ensures
        b.cursors_ok(),
{
    assert forall|t: int|
        0 <= t < b.tokens.slots().len() implies match #[trigger] b.tokens.slots()[t] {
        Option::Some(Token::Write { fd, buf_index, offset, len }) => offset <= len
            <= b.pool.contents(buf_index as int).len(),
        _ => true,
    } by {
        match b.tokens.slots()[t] {
            Option::Some(Token::Write { fd, buf_index, offset, len }) => {
                assert(a.token_owns(t, buf_index));
                assert(a.owned(buf_index));
                assert(a.pool.acquired(buf_index));
            },
            _ => {},
        }
    }
    assert forall|i: int, k: int|
        0 <= i < b.conns().len() && 0 <= k < b.conns()[i].outbound@.len() implies {
        let e = #[trigger] b.conns()[i].outbound@[k];
        e.offset <= e.len <= b.pool.contents(e.buf_index as int).len()
    } by {
        let e = b.conns()[i].outbound@[k];
        assert(a.queue_owns(i, k, e.buf_index));
        assert(a.owned(e.buf_index));
        assert(a.pool.acquired(e.buf_index));
    }
}

/// Dropping owners (and possibly idling the now-unowned buffer `b0`) keeps
/// ownership exclusive.
proof fn lemma_ownership_drop(a: Reactor, b: Reactor, b0: usize)
    requires
        a.ownership_ok(),
        forall|t: int, bb: usize|
            #[trigger] b.token_owns(t, bb) ==> a.token_owns(t, bb) && bb != b0,
        forall|i: int, k: int, bb: usize|
            #[trigger] b.queue_owns(i, k, bb) ==> a.queue_owns(i, k, bb) && bb != b0,
        forall|bb: usize| bb != b0 && #[trigger] a.pool.acquired(bb) ==> b.pool.acquired(bb),
    ensures
        b.ownership_ok(),
{
    assert forall|bb: usize| b.owned(bb) implies #[trigger] b.pool.acquired(bb) by {
        if exists|t: int| #[trigger] b.token_owns(t, bb) {
            let t = choose|t: int| #[trigger] b.token_owns(t, bb);
            assert(a.token_owns(t, bb));
            assert(a.owned(bb));
            assert(a.pool.acquired(bb));
        } else {
            let (i, k) = choose|i: int, k: int| #[trigger] b.queue_owns(i, k, bb);
            assert(a.queue_owns(i, k, bb));
            assert(a.owned(bb));
            assert(a.pool.acquired(bb));
        }
    }
}

/// Removing a connection whose outbound queue is empty drops no owner;
/// surviving queue owners shift down injectively.
proof fn lemma_ownership_remove_conn(a: Reactor, b: Reactor, i0: int)
    requires
        a.ownership_ok(),
        0 <= i0 < a.conns().len(),
        a.conns()[i0].outbound@.len() == 0,
        b.conns() == a.conns().remove(i0),
        b.tokens == a.tokens,
        b.pool == a.pool,
    ensures
        b.ownership_ok(),
{
    assert forall|i: int, k: int, bb: usize|
        #[trigger] b.queue_owns(i, k, bb) implies (if i < i0 {
        a.queue_owns(i, k, bb)
    } else {
        a.queue_owns(i + 1, k, bb)
    }) by {
        if i < i0 {
            assert(b.conns()[i] == a.conns()[i]);
        } else {
            assert(b.conns()[i] == a.conns()[i + 1]);
        }
    }
    assert forall|t1: int, t2: int, bb: usize|
        #[trigger] b.token_owns(t1, bb) && #[trigger] b.token_owns(t2, bb) implies t1 == t2 by {
        assert(a.token_owns(t1, bb));
        assert(a.token_owns(t2, bb));
    }
    assert forall|i1: int, k1: int, i2: int, k2: int, bb: usize|
        #[trigger] b.queue_owns(i1, k1, bb) && #[trigger] b.queue_owns(i2, k2, bb) implies i1 == i2
        && k1 == k2 by {
        let m1: int = if i1 < i0 { i1 } else { i1 + 1 };
        let m2: int = if i2 < i0 { i2 } else { i2 + 1 };
        assert(a.queue_owns(m1, k1, bb));
        assert(a.queue_owns(m2, k2, bb));
    }
    assert forall|t: int, i: int, k: int, bb: usize|
        !(#[trigger] b.token_owns(t, bb) && #[trigger] b.queue_owns(i, k, bb)) by {
        if b.token_owns(t, bb) && b.queue_owns(i, k, bb) {
            let m: int = if i < i0 { i } else { i + 1 };
            assert(a.token_owns(t, bb));
            assert(a.queue_owns(m, k, bb));
        }
    }
    assert forall|bb: usize| b.owned(bb) implies #[trigger] b.pool.acquired(bb) by {
        if exists|t: int| #[trigger] b.token_owns(t, bb) {
            let t = choose|t: int| #[trigger] b.token_owns(t, bb);
            assert(a.token_owns(t, bb));
            assert(a.owned(bb));
        } else {
            let (i, k) = choose|i: int, k: int| #[trigger] b.queue_owns(i, k, bb);
            let m: int = if i < i0 { i } else { i + 1 };
            assert(a.queue_owns(m, k, bb));
            assert(a.owned(bb));
        }
        assert(a.pool.acquired(bb));
    }
}

/// Popping the front outbound entry of connection `i0` and idling its buffer
/// `b0` keeps ownership exclusive: surviving entries of that queue shift
/// forward injectively.
proof fn lemma_ownership_pop_release(a: Reactor, b: Reactor, i0: int, b0: usize)
    requires
        a.ownership_ok(),
        a.queue_owns(i0, 0, b0),
        b.tokens == a.tokens,
        b.conns().len() == a.conns().len(),
        forall|j: int|
            0 <= j < a.conns().len() && j != i0 ==> #[trigger] b.conns()[j] == a.conns()[j],
        b.conns()[i0].outbound@ == a.conns()[i0].outbound@.drop_first(),
        forall|bb: usize| bb != b0 && #[trigger] a.pool.acquired(bb) ==> b.pool.acquired(bb),
    ensures
        b.ownership_ok(),
{
    assert forall|i: int, k: int, bb: usize|
        #[trigger] b.queue_owns(i, k, bb) implies (if i == i0 {
        a.queue_owns(i, k + 1, bb)
    } else {
        a.queue_owns(i, k, bb)
    }) && bb != b0 by {
        if i == i0 {
            assert(b.conns()[i].outbound@[k] == a.conns()[i].outbound@[k + 1]);
            assert(a.queue_owns(i, k + 1, bb));
        } else {
            assert(a.queue_owns(i, k, bb));
        }
        if bb == b0 {
            let m: int = if i == i0 {
                k + 1
            } else {
                k
            };
            assert(a.queue_owns(i, m, b0));
            assert(a.queue_owns(i0, 0, b0));
            assert(i == i0 && m == 0);
        }
    }
    assert forall|t: int, bb: usize|
        #[trigger] b.token_owns(t, bb) implies a.token_owns(t, bb) && bb != b0 by {
        assert(a.token_owns(t, bb));
        if bb == b0 {
            assert(a.queue_owns(i0, 0, b0));
        }
    }
    assert forall|i1: int, k1: int, i2: int, k2: int, bb: usize|
        #[trigger] b.queue_owns(i1, k1, bb) && #[trigger] b.queue_owns(i2, k2, bb) implies i1 == i2
        && k1 == k2 by {
        let m1: int = if i1 == i0 {
            k1 + 1
        } else {
            k1
        };
        let m2: int = if i2 == i0 {
            k2 + 1
        } else {
            k2
        };
        assert(a.queue_owns(i1, m1, bb));
        assert(a.queue_owns(i2, m2, bb));
    }
    assert forall|t: int, i: int, k: int, bb: usize|
        !(#[trigger] b.token_owns(t, bb) && #[trigger] b.queue_owns(i, k, bb)) by {
        if b.token_owns(t, bb) && b.queue_owns(i, k, bb) {
            let m: int = if i == i0 {
                k + 1
            } else {
                k
            };
            assert(a.token_owns(t, bb));
            assert(a.queue_owns(i, m, bb));
        }
    }
    assert forall|bb: usize| b.owned(bb) implies #[trigger] b.pool.acquired(bb) by {
        if exists|t: int| #[trigger] b.token_owns(t, bb) {
            let t = choose|t: int| #[trigger] b.token_owns(t, bb);
            assert(a.token_owns(t, bb));
            assert(a.owned(bb));
        } else {
            let (i, k) = choose|i: int, k: int| #[trigger] b.queue_owns(i, k, bb);
            let m: int = if i == i0 {
                k + 1
            } else {
                k
            };
            assert(a.queue_owns(i, m, bb));
            assert(a.owned(bb));
        }
        assert(a.pool.acquired(bb));
        assert(bb != b0);
    }
}

/// Moving the front outbound entry of connection `i0` (buffer `b0`) into
/// descriptor slot `t0` — a queue owner becoming the write in progress —
/// keeps ownership exclusive.
proof fn lemma_ownership_queue_to_token(a: Reactor, b: Reactor, i0: int, t0: int, b0: usize)
    requires
        a.ownership_ok(),
        a.queue_owns(i0, 0, b0),
        b.token_owns(t0, b0),
        forall|t: int, bb: usize|
            #[trigger] b.token_owns(t, bb) && !(t == t0 && bb == b0) ==> a.token_owns(t, bb),
        b.conns().len() == a.conns().len(),
        forall|j: int|
            0 <= j < a.conns().len() && j != i0 ==> #[trigger] b.conns()[j] == a.conns()[j],
        b.conns()[i0].outbound@ == a.conns()[i0].outbound@.drop_first(),
        forall|bb: usize| #[trigger] a.pool.acquired(bb) ==> b.pool.acquired(bb),
    ensures
        b.ownership_ok(),
{
    assert forall|i: int, k: int, bb: usize|
        #[trigger] b.queue_owns(i, k, bb) implies (if i == i0 {
        a.queue_owns(i, k + 1, bb)
    } else {
        a.queue_owns(i, k, bb)
    }) && bb != b0 by {
        if i == i0 {
            assert(b.conns()[i].outbound@[k] == a.conns()[i].outbound@[k + 1]);
            assert(a.queue_owns(i, k + 1, bb));
        } else {
            assert(a.queue_owns(i, k, bb));
        }
        if bb == b0 {
            let m: int = if i == i0 {
                k + 1
            } else {
                k
            };
            assert(a.queue_owns(i, m, b0));
            assert(a.queue_owns(i0, 0, b0));
            assert(i == i0 && m == 0);
        }
    }
    assert forall|t1: int, t2: int, bb: usize|
        #[trigger] b.token_owns(t1, bb) && #[trigger] b.token_owns(t2, bb) implies t1 == t2 by {
        if t1 == t0 && bb == b0 {
            if !(t2 == t0 && bb == b0) {
                assert(a.token_owns(t2, b0));
                assert(a.queue_owns(i0, 0, b0));
            }
        } else if t2 == t0 && bb == b0 {
            assert(a.token_owns(t1, b0));
            assert(a.queue_owns(i0, 0, b0));
        } else {
            assert(a.token_owns(t1, bb));
            assert(a.token_owns(t2, bb));
        }
    }
    assert forall|i1: int, k1: int, i2: int, k2: int, bb: usize|
        #[trigger] b.queue_owns(i1, k1, bb) && #[trigger] b.queue_owns(i2, k2, bb) implies i1 == i2
        && k1 == k2 by {
        let m1: int = if i1 == i0 {
            k1 + 1
        } else {
            k1
        };
        let m2: int = if i2 == i0 {
            k2 + 1
        } else {
            k2
        };
        assert(a.queue_owns(i1, m1, bb));
        assert(a.queue_owns(i2, m2, bb));
    }
    assert forall|t: int, i: int, k: int, bb: usize|
        !(#[trigger] b.token_owns(t, bb) && #[trigger] b.queue_owns(i, k, bb)) by {
        if b.token_owns(t, bb) && b.queue_owns(i, k, bb) {
            if t == t0 && bb == b0 {
                assert(b.queue_owns(i, k, b0));
            } else {
                let m: int = if i == i0 {
                    k + 1
                } else {
                    k
                };
                assert(a.token_owns(t, bb));
                assert(a.queue_owns(i, m, bb));
            }
        }
    }
    assert forall|bb: usize| b.owned(bb) implies #[trigger] b.pool.acquired(bb) by {
        if exists|t: int| #[trigger] b.token_owns(t, bb) {
            let t = choose|t: int| #[trigger] b.token_owns(t, bb);
            if t == t0 && bb == b0 {
                assert(a.queue_owns(i0, 0, b0));
                assert(a.owned(bb));
            } else {
                assert(a.token_owns(t, bb));
                assert(a.owned(bb));
            }
        } else {
            let (i, k) = choose|i: int, k: int| #[trigger] b.queue_owns(i, k, bb);
            let m: int = if i == i0 {
                k + 1
            } else {
                k
            };
            assert(a.queue_owns(i, m, bb));
            assert(a.owned(bb));
        }
        assert(a.pool.acquired(bb));
    }
}

/// Adding a single owner — descriptor slot `t0` taking a buffer `b0` that no
/// component owned — keeps ownership exclusive.
proof fn lemma_ownership_add_token(a: Reactor, b: Reactor, t0: int, b0: usize)
    requires
        a.ownership_ok(),
        !a.owned(b0),
        b.pool.acquired(b0),
        b.token_owns(t0, b0),
        forall|t: int, bb: usize|
            #[trigger] b.token_owns(t, bb) && !(t == t0 && bb == b0) ==> a.token_owns(t, bb),
        forall|i: int, k: int, bb: usize| #[trigger] b.queue_owns(i, k, bb) ==> a.queue_owns(
            i,
            k,
            bb,
        ),
        forall|bb: usize| #[trigger] a.pool.acquired(bb) ==> b.pool.acquired(bb),
    ensures
        b.ownership_ok(),
{
    assert forall|t1: int, t2: int, bb: usize|
        #[trigger] b.token_owns(t1, bb) && #[trigger] b.token_owns(t2, bb) implies t1 == t2 by {
        if t1 == t0 && bb == b0 {
            if !(t2 == t0 && bb == b0) {
                assert(a.token_owns(t2, bb));
                assert(a.owned(b0));
            }
        } else if t2 == t0 && bb == b0 {
            assert(a.token_owns(t1, bb));
            assert(a.owned(b0));
        } else {
            assert(a.token_owns(t1, bb));
            assert(a.token_owns(t2, bb));
        }
    }
    assert forall|t: int, i: int, k: int, bb: usize|
        !(#[trigger] b.token_owns(t, bb) && #[trigger] b.queue_owns(i, k, bb)) by {
        if b.token_owns(t, bb) && b.queue_owns(i, k, bb) {
            assert(a.queue_owns(i, k, bb));
            if t == t0 && bb == b0 {
                assert(a.owned(b0));
            } else {
                assert(a.token_owns(t, bb));
            }
        }
    }
    assert forall|bb: usize| b.owned(bb) implies #[trigger] b.pool.acquired(bb) by {
        if exists|t: int| #[trigger] b.token_owns(t, bb) {
            let t = choose|t: int| #[trigger] b.token_owns(t, bb);
            if !(t == t0 && bb == b0) {
                assert(a.token_owns(t, bb));
                assert(a.owned(bb));
                assert(a.pool.acquired(bb));
            }
        } else {
            let (i, k) = choose|i: int, k: int| #[trigger] b.queue_owns(i, k, bb);
            assert(a.queue_owns(i, k, bb));
            assert(a.owned(bb));
            assert(a.pool.acquired(bb));
        }
    }
}

/// Adding a single owner — entry `k0` of connection `i0`'s outbound queue
/// taking a buffer `b0` that no component owned — keeps ownership exclusive.
proof fn lemma_ownership_add_queue(a: Reactor, b: Reactor, i0: int, k0: int, b0: usize)
    requires
        a.ownership_ok(),
        !a.owned(b0),
        b.pool.acquired(b0),
        b.queue_owns(i0, k0, b0),
        forall|t: int, bb: usize| #[trigger] b.token_owns(t, bb) ==> a.token_owns(t, bb),
        forall|i: int, k: int, bb: usize|
            #[trigger] b.queue_owns(i, k, bb) && !(i == i0 && k == k0 && bb == b0)
                ==> a.queue_owns(i, k, bb),
        forall|bb: usize| #[trigger] a.pool.acquired(bb) ==> b.pool.acquired(bb),
    ensures
        b.ownership_ok(),
{
    assert forall|i1: int, k1: int, i2: int, k2: int, bb: usize|
        #[trigger] b.queue_owns(i1, k1, bb) && #[trigger] b.queue_owns(i2, k2, bb) implies i1 == i2
        && k1 == k2 by {
        if i1 == i0 && k1 == k0 && bb == b0 {
            if !(i2 == i0 && k2 == k0 && bb == b0) {
                assert(a.queue_owns(i2, k2, bb));
                assert(a.owned(b0));
            }
        } else if i2 == i0 && k2 == k0 && bb == b0 {
            assert(a.queue_owns(i1, k1, bb));
            assert(a.owned(b0));
        } else {
            assert(a.queue_owns(i1, k1, bb));
            assert(a.queue_owns(i2, k2, bb));
        }
    }
    assert forall|t: int, i: int, k: int, bb: usize|
        !(#[trigger] b.token_owns(t, bb) && #[trigger] b.queue_owns(i, k, bb)) by {
        if b.token_owns(t, bb) && b.queue_owns(i, k, bb) {
            assert(a.token_owns(t, bb));
            if i == i0 && k == k0 && bb == b0 {
                assert(a.owned(b0));
            } else {
                assert(a.queue_owns(i, k, bb));
            }
        }
    }
    assert forall|bb: usize| b.owned(bb) implies #[trigger] b.pool.acquired(bb) by {
        if exists|t: int| #[trigger] b.token_owns(t, bb) {
            let t = choose|t: int| #[trigger] b.token_owns(t, bb);
            assert(a.token_owns(t, bb));
            assert(a.owned(bb));
            assert(a.pool.acquired(bb));
        } else {
            let (i, k) = choose|i: int, k: int| #[trigger] b.queue_owns(i, k, bb);
            if !(i == i0 && k == k0 && bb == b0) {
                assert(a.queue_owns(i, k, bb));
                assert(a.owned(bb));
                assert(a.pool.acquired(bb));
            }
        }
    }
}

impl Reactor {
    pub open spec fn conns(self) -> Seq<Connection> {
        self.registry.conns()
    }

    /// Descriptor slot `t` holds the buffer index `b` (a read in progress or
    /// a write in progress).
    pub open spec fn token_owns(self, t: int, b: usize) -> bool {
        0 <= t < self.tokens.slots().len() && match self.tokens.slots()[t] {
            Option::Some(Token::Read { fd, buf_index }) => buf_index == b,
            Option::Some(Token::Write { fd, buf_index, offset, len }) => buf_index == b,
            _ => false,
        }
    }

    /// Entry `k` of connection `i`'s outbound queue holds buffer index `b`.
    pub open spec fn queue_owns(self, i: int, k: int, b: usize) -> bool {
        &&& 0 <= i < self.conns().len()
        &&& 0 <= k < self.conns()[i].outbound@.len()
        &&& self.conns()[i].outbound@[k].buf_index == b
    }

    /// Slot `t` is the read-side descriptor of the live connection `fd`.
    pub open spec fn owns_read_slot(self, t: int, fd: i32) -> bool {
        &&& self.registry.contains_fd(fd)
        &&& self.conns()[self.registry.index_of(fd)].read_token == Option::Some(t as usize)
    }

    /// Slot `t` is the write-side descriptor of the live connection `fd`.
    pub open spec fn owns_write_slot(self, t: int, fd: i32) -> bool {
        &&& self.registry.contains_fd(fd)
        &&& self.conns()[self.registry.index_of(fd)].write_token == Option::Some(t as usize)
    }

    /// Buffer `b` is referenced by some component.
    pub open spec fn owned(self, b: usize) -> bool {
        (exists|t: int| #[trigger] self.token_owns(t, b)) || (exists|i: int, k: int|
            #[trigger] self.queue_owns(i, k, b))
    }

    /// At-most-one-owner: at any instant a buffer index is referenced by at
    /// most one of a read in progress, a write in progress, or one outbound
    /// queue entry — and every referenced buffer is live and not idle.
    pub open spec fn ownership_ok(self) -> bool {
        &&& forall|t1: int, t2: int, b: usize|
            #[trigger] self.token_owns(t1, b) && #[trigger] self.token_owns(t2, b) ==> t1 == t2
        &&& forall|i1: int, k1: int, i2: int, k2: int, b: usize|
            #[trigger] self.queue_owns(i1, k1, b) && #[trigger] self.queue_owns(i2, k2, b) ==> i1
                == i2 && k1 == k2
        &&& forall|t: int, i: int, k: int, b: usize|
            !(#[trigger] self.token_owns(t, b) && #[trigger] self.queue_owns(i, k, b))
        &&& forall|b: usize| self.owned(b) ==> #[trigger] self.pool.acquired(b)
    }

    /// Every write cursor fits the payload stored in its buffer.
    pub open spec fn cursors_ok(self) -> bool {
        &&& forall|t: int|
            0 <= t < self.tokens.slots().len() ==> match #[trigger] self.tokens.slots()[t] {
                Option::Some(Token::Write { fd, buf_index, offset, len }) => offset <= len
                    <= self.pool.contents(buf_index as int).len(),
                _ => true,
            }
        &&& forall|i: int, k: int|
            0 <= i < self.conns().len() && 0 <= k < self.conns()[i].outbound@.len() ==> {
                let e = #[trigger] self.conns()[i].outbound@[k];
                e.offset <= e.len <= self.pool.contents(e.buf_index as int).len()
            }
    }

    /// Each connection's token fields point at live descriptor slots of the
    /// right kind for that descriptor.
    pub open spec fn conn_tokens_ok(self) -> bool {
        forall|i: int|
            0 <= i < self.conns().len() ==> {
                let c = #[trigger] self.conns()[i];
                &&& match c.read_token {
                    Option::Some(t) => t < self.tokens.slots().len() && match self.tokens.slots()[
                        t as int
                    ] {
                        Option::Some(Token::Poll { fd }) => fd == c.fd,
                        Option::Some(Token::Read { fd, buf_index }) => fd == c.fd,
                        _ => false,
                    },
                    Option::None => true,
                }
                &&& match c.write_token {
                    Option::Some(t) => t < self.tokens.slots().len() && match self.tokens.slots()[
                        t as int
                    ] {
                        Option::Some(Token::Write { fd, buf_index, offset, len }) => fd == c.fd,
                        _ => false,
                    },
                    Option::None => true,
                }
            }
    }

    pub open spec fn wf(self) -> bool {
        &&& self.registry.wf()
        &&& self.pool.wf()
        &&& self.tokens.wf()
        &&& self.tokens.slots().len() > self.accept.token
        &&& self.tokens.slots()[self.accept.token as int] == Option::Some(Token::Accept)
        &&& self.conn_tokens_ok()
        &&& self.ownership_ok()
        &&& self.cursors_ok()
    }

    /// A fresh engine around a listening descriptor: empty registry, empty
    /// pool, empty backlog, and the full accept concurrency still to arm.
    pub fn new(listen_fd: i32, config: ReactorConfig) -> (r: Reactor)
        ensures
            r.wf(),
            r.config == config,
            r.conns().len() == 0,
            r.backlog.entries().len() == 0,
            r.pool.n_bufs() == 0,
            r.accept.fd == listen_fd,
            r.accept.count == config.accept_concurrency,
    {
        let mut tokens = TokenArena::new();
        let t = tokens.insert(Token::Accept);
        let r = Reactor {
            config,
            registry: Registry::new(),
            pool: BufferPool::new(config.pool_cap, config.buf_size),
            backlog: Backlog::new(),
            tokens,
            accept: AcceptCount::new(listen_fd, t, config.accept_concurrency),
        };
        proof {
            assert forall|t1: int, t2: int, b: usize|
                #[trigger] r.token_owns(t1, b) && #[trigger] r.token_owns(t2, b) implies t1
                == t2 by {}
            assert(r.ownership_ok());
        }
        r
    }

    /// Step (c) of the loop: keep the listening socket armed. Exactly
    /// `min(free, accept.count)` accept intents come out.
    pub fn arm_accepts(&mut self, free: usize) -> (out: Vec<Intent>)
        requires
            old(self).wf(),
        ensures
            final(self).wf(),
            final(self).registry == old(self).registry,
            final(self).pool == old(self).pool,
            final(self).backlog == old(self).backlog,
            final(self).tokens == old(self).tokens,
            final(self).config == old(self).config,
            final(self).accept.fd == old(self).accept.fd,
            final(self).accept.token == old(self).accept.token,
            out@.len() == min_nat(free as nat, old(self).accept.count as nat),
            final(self).accept.count == old(self).accept.count - out@.len(),
            forall|j: int|
                0 <= j < out@.len() ==> out@[j] == (Intent::Accept {
                    token: old(self).accept.token,
                }),
    {
        let out = self.accept.push_to(free);
        proof {
            lemma_wf_frame(*old(self), *self);
        }
        out
    }

    /// Remember an intent whose submission found the channel full; it is
    /// never dropped and is retried by `drain_backlog` each iteration.
    pub fn defer(&mut self, intent: Intent)
        requires
            old(self).wf(),
        ensures
            final(self).wf(),
            final(self).registry == old(self).registry,
            final(self).pool == old(self).pool,
            final(self).tokens == old(self).tokens,
            final(self).config == old(self).config,
            final(self).accept == old(self).accept,
            final(self).backlog.entries() == old(self).backlog.entries().push(intent),
    {
        self.backlog.push(intent);
        proof {
            lemma_wf_frame(*old(self), *self);
        }
    }

    /// Step (b) of the loop: hand back the front of the backlog, as much as
    /// fits into `free` open channel slots, FIFO order preserved.
    pub fn drain_backlog(&mut self, free: usize) -> (out: Vec<Intent>)
        requires
            old(self).wf(),
        ensures
            final(self).wf(),
            final(self).registry == old(self).registry,
            final(self).pool == old(self).pool,
            final(self).tokens == old(self).tokens,
            final(self).config == old(self).config,
            final(self).accept == old(self).accept,
            out@ == drained(old(self).backlog.entries(), free as nat),
            final(self).backlog.entries() == left(old(self).backlog.entries(), free as nat),
            out@ + final(self).backlog.entries() == old(self).backlog.entries(),
    {
        let out = self.backlog.drain(free);
        proof {
            lemma_wf_frame(*old(self), *self);
        }
        out
    }

    /// Accept dispatch. Register the new connection, raise the standing
    /// accept target again (capped at the configured concurrency), and arm a
    /// poll for readability on the new socket. A descriptor that is already
    /// live is a stale event and is ignored, never dual-owned. Accept
    /// fairness: the accepted descriptor ends registered and every
    /// previously registered descriptor stays registered.
    pub fn on_accepted(&mut self, fd: i32, peer_ip: u32, peer_port: u16) -> (acts: Vec<Action>)
        requires
            old(self).wf(),
        ensures
            final(self).wf(),
            final(self).config == old(self).config,
            final(self).backlog == old(self).backlog,
            final(self).pool == old(self).pool,
            final(self).accept.fd == old(self).accept.fd,
            final(self).accept.token == old(self).accept.token,
            final(self).registry.contains_fd(fd),
            forall|g: i32|
                #[trigger] old(self).registry.contains_fd(g) ==> final(self).registry.contains_fd(
                    g,
                ),
            old(self).registry.contains_fd(fd) ==> *final(self) == *old(self) && acts@.len() == 0,
            !old(self).registry.contains_fd(fd) ==> {
                &&& final(self).conns().len() == old(self).conns().len() + 1
                &&& forall|j: int|
                    0 <= j < old(self).conns().len() ==> #[trigger] final(self).conns()[j] == old(
                        self,
                    ).conns()[j]
                &&& final(self).conns().last().fd == fd
                &&& final(self).conns().last().peer_ip == peer_ip
                &&& final(self).conns().last().peer_port == peer_port
                &&& final(self).conns().last().outbound@.len() == 0
                &&& final(self).conns().last().write_token is None
                &&& final(self).conns().last().read_token is Some
                &&& {
                    let t = final(self).conns().last().read_token.unwrap();
                    final(self).tokens.slots()[t as int] == Option::Some(Token::Poll { fd })
                }
                &&& acts@ == seq![
                    Action::SetNonblocking(fd),
                    Action::Submit(Intent::Poll {
                        fd,
                        token: final(self).conns().last().read_token.unwrap(),
                    }),
                ]
                &&& final(self).accept.count as int == if old(self).accept.count < old(
                    self,
                ).config.accept_concurrency {
                    old(self).accept.count + 1
                } else {
                    old(self).accept.count as int
                }
            },
    {
        match self.registry.find(fd) {
            Some(_) => Vec::new(),
            None => {
                let t = self.tokens.insert(Token::Poll { fd });
                let mut c = Connection::new(fd, peer_ip, peer_port);
                c.read_token = Some(t);
                let inserted = self.registry.insert(c);
                assert(inserted);
                if self.accept.count < self.config.accept_concurrency {
                    self.accept.count = self.accept.count + 1;
                }
                let mut acts: Vec<Action> = Vec::new();
                acts.push(Action::SetNonblocking(fd));
                acts.push(Action::Submit(Intent::Poll { fd, token: t }));
                proof {
                    let s0 = *old(self);
                    let s1 = *self;
                    assert(s0.tokens.slots()[s0.accept.token as int] is Some);
                    assert(t != s0.accept.token);
                    assert forall|tt: int, bb: usize|
                        #[trigger] s1.token_owns(tt, bb) implies s0.token_owns(tt, bb) by {
                        if tt == t {
                            assert(s1.tokens.slots()[tt] == Option::Some(Token::Poll { fd }));
                        } else {
                            assert(s1.tokens.slots()[tt] == if tt < s0.tokens.slots().len() {
                                s0.tokens.slots()[tt]
                            } else {
                                Option::<Token>::None
                            });
                        }
                    }
                    assert forall|i: int, k: int, bb: usize|
                        #[trigger] s1.queue_owns(i, k, bb) implies s0.queue_owns(i, k, bb) by {
                        if i == s0.conns().len() {
                            assert(s1.conns()[i].outbound@.len() == 0);
                        } else {
                            assert(s1.conns()[i] == s0.conns()[i]);
                        }
                    }
                    lemma_ownership_shrink(s0, s1);
                    assert forall|g: i32| #[trigger] s0.registry.contains_fd(g)
                        implies s1.registry.contains_fd(g) by {
                        let k = choose|k: int|
                            0 <= k < s0.conns().len() && (#[trigger] s0.conns()[k]).fd == g;
                        assert(s1.conns()[k].fd == g);
                    }
                    assert forall|i: int| 0 <= i < s1.conns().len() implies {
                        let cc = #[trigger] s1.conns()[i];
                        &&& match cc.read_token {
                            Option::Some(rt) => rt < s1.tokens.slots().len()
                                && match s1.tokens.slots()[rt as int] {
                                Option::Some(Token::Poll { fd: f }) => f == cc.fd,
                                Option::Some(Token::Read { fd: f, buf_index }) => f == cc.fd,
                                _ => false,
                            },
                            Option::None => true,
                        }
                        &&& match cc.write_token {
                            Option::Some(wt) => wt < s1.tokens.slots().len()
                                && match s1.tokens.slots()[wt as int] {
                                Option::Some(Token::Write { fd: f, buf_index, offset, len }) => f
                                    == cc.fd,
                                _ => false,
                            },
                            Option::None => true,
                        }
                    } by {
                        if i < s0.conns().len() {
                            assert(s1.conns()[i] == s0.conns()[i]);
                            let cc = s1.conns()[i];
                            match cc.read_token {
                                Option::Some(rt) => {
                                    assert(s0.tokens.slots()[rt as int] is Some);
                                    assert(rt != t);
                                    assert(s1.tokens.slots()[rt as int] == s0.tokens.slots()[
                                        rt as int
                                    ]);
                                },
                                Option::None => {},
                            }
                            match cc.write_token {
                                Option::Some(wt) => {
                                    assert(s0.tokens.slots()[wt as int] is Some);
                                    assert(wt != t);
                                    assert(s1.tokens.slots()[wt as int] == s0.tokens.slots()[
                                        wt as int
                                    ]);
                                },
                                Option::None => {},
                            }
                        } else {
                            assert(s1.conns()[i].read_token == Option::Some(t));
                        }
                    }
                    assert(s1.conn_tokens_ok());
                    assert forall|tt: int|
                        0 <= tt < s1.tokens.slots().len() implies match #[trigger] s1.tokens.slots()[tt] {
                        Option::Some(Token::Write { fd: f, buf_index, offset, len }) => offset
                            <= len <= s1.pool.contents(buf_index as int).len(),
                        _ => true,
                    } by {
                        if tt != t && tt < s0.tokens.slots().len() {
                            assert(s1.tokens.slots()[tt] == s0.tokens.slots()[tt]);
                        }
                    }
                    assert(s1.cursors_ok());
                }
                acts
            },
        }
    }

    /// Readable dispatch, readiness phase: a poll completion on a live
    /// connection acquires a scratch buffer (reusing an idle one, else
    /// allocating) and replaces the descriptor in place with a read in
    /// progress. When the pool is at its hard capacity the poll is re-armed
    /// instead, so the read is retried once a buffer returns. A stale handle
    /// is ignored.
    pub fn on_ready(&mut self, token_index: usize) -> (acts: Vec<Action>)
        requires
            old(self).wf(),
        ensures
            final(self).wf(),
            final(self).config == old(self).config,
            final(self).backlog == old(self).backlog,
            final(self).accept == old(self).accept,
            final(self).registry == old(self).registry,
            ({
                let slot = if token_index < old(self).tokens.slots().len() {
                    old(self).tokens.slots()[token_index as int]
                } else {
                    Option::<Token>::None
                };
                match slot {
                    Option::Some(Token::Poll { fd }) => {
                        if old(self).owns_read_slot(token_index as int, fd) {
                            if old(self).pool.can_acquire() {
                                exists|b: usize|
                                    {
                                        &&& #[trigger] final(self).pool.acquired(b)
                                        &&& !old(self).pool.acquired(b)
                                        &&& final(self).tokens.slots()[token_index as int]
                                            == Option::Some(Token::Read { fd, buf_index: b })
                                        &&& acts@ == seq![
                                            Action::Submit(Intent::Recv {
                                                fd,
                                                buf_index: b,
                                                token: token_index,
                                            }),
                                        ]
                                    }
                            } else {
                                final(self).tokens == old(self).tokens && final(self).pool == old(
                                    self,
                                ).pool && acts@ == seq![
                                    Action::Submit(Intent::Poll { fd, token: token_index }),
                                ]
                            }
                        } else {
                            *final(self) == *old(self) && acts@.len() == 0
                        }
                    },
                    _ => *final(self) == *old(self) && acts@.len() == 0,
                }
            }),
            forall|j: int|
                0 <= j < old(self).tokens.slots().len() && j != token_index
                    ==> #[trigger] final(self).tokens.slots()[j] == old(self).tokens.slots()[j],
            final(self).tokens.slots().len() == old(self).tokens.slots().len(),
    {
        match self.tokens.get(token_index) {
            Some(Token::Poll { fd }) => {
                match self.registry.find(fd) {
                    Some(i) => {
                        let mine = match self.registry.get(i).read_token {
                            Some(rt) => rt == token_index,
                            None => false,
                        };
                        proof {
                            if mine {
                                assert(old(self).registry.index_of(fd) == i);
                                assert(old(self).owns_read_slot(token_index as int, fd));
                            } else {
                                assert(!old(self).owns_read_slot(token_index as int, fd)) by {
                                    if old(self).owns_read_slot(token_index as int, fd) {
                                        assert(old(self).registry.index_of(fd) == i);
                                    }
                                }
                            }
                        }
                        if mine {
                            if self.pool.can_acquire_now() {
                                let b = match self.pool.acquire() {
                                    Some(b) => b,
                                    None => {
                                        proof {
                                            assert(false);
                                        }
                                        vstd::pervasive::unreached()
                                    },
                                };
                                self.tokens.set(token_index, Token::Read { fd, buf_index: b });
                                let mut acts: Vec<Action> = Vec::new();
                                acts.push(
                                    Action::Submit(
                                        Intent::Recv { fd, buf_index: b, token: token_index },
                                    ),
                                );
                                proof {
                                    let s0 = *old(self);
                                    let s1 = *self;
                                    let ti = token_index as int;
                                    assert(s0.tokens.slots()[s0.accept.token as int] is Some);
                                    assert(ti != s0.accept.token);
                                    assert forall|bb: usize|
                                        #[trigger] s0.pool.acquired(bb) implies s1.pool.acquired(
                                        bb,
                                    ) by {}
                                    assert(!s0.owned(b)) by {
                                        if s0.owned(b) {
                                            assert(s0.pool.acquired(b));
                                        }
                                    }
                                    assert forall|t: int, bb: usize|
                                        #[trigger] s1.token_owns(t, bb) && !(t == ti && bb
                                            == b) implies s0.token_owns(t, bb) by {
                                        if t == ti {
                                            assert(s1.tokens.slots()[t] == Option::Some(
                                                Token::Read { fd, buf_index: b },
                                            ));
                                        } else {
                                            assert(s1.tokens.slots()[t] == s0.tokens.slots()[t]);
                                        }
                                    }
                                    assert forall|i2: int, k2: int, bb: usize|
                                        #[trigger] s1.queue_owns(i2, k2, bb) implies s0.queue_owns(
                                        i2,
                                        k2,
                                        bb,
                                    ) by {}
                                    assert(s1.token_owns(ti, b));
                                    lemma_ownership_add_token(s0, s1, ti, b);
                                    assert forall|i2: int| 0 <= i2 < s1.conns().len() implies {
                                        let cc = #[trigger] s1.conns()[i2];
                                        &&& match cc.read_token {
                                            Option::Some(rt) => rt < s1.tokens.slots().len()
                                                && match s1.tokens.slots()[rt as int] {
                                                Option::Some(Token::Poll { fd: f }) => f == cc.fd,
                                                Option::Some(
                                                    Token::Read { fd: f, buf_index },
                                                ) => f == cc.fd,
                                                _ => false,
                                            },
                                            Option::None => true,
                                        }
                                        &&& match cc.write_token {
                                            Option::Some(wt) => wt < s1.tokens.slots().len()
                                                && match s1.tokens.slots()[wt as int] {
                                                Option::Some(
                                                    Token::Write { fd: f, buf_index, offset, len },
                                                ) => f == cc.fd,
                                                _ => false,
                                            },
                                            Option::None => true,
                                        }
                                    } by {
                                        let cc = s1.conns()[i2];
                                        assert(cc == s0.conns()[i2]);
                                        match cc.read_token {
                                            Option::Some(rt) => {
                                                if rt != token_index {
                                                    assert(s1.tokens.slots()[rt as int]
                                                        == s0.tokens.slots()[rt as int]);
                                                } else {
                                                    assert(i2 == i);
                                                }
                                            },
                                            Option::None => {},
                                        }
                                        match cc.write_token {
                                            Option::Some(wt) => {
                                                assert(s0.tokens.slots()[wt as int] matches Option::Some(Token::Write { fd: f, buf_index, offset, len }));
                                                assert(wt != token_index);
                                                assert(s1.tokens.slots()[wt as int]
                                                    == s0.tokens.slots()[wt as int]);
                                            },
                                            Option::None => {},
                                        }
                                    }
                                    assert(s1.conn_tokens_ok());
                                    assert forall|t: int|
                                        0 <= t < s1.tokens.slots().len() implies match #[trigger] s1.tokens.slots()[t] {
                                        Option::Some(
                                            Token::Write { fd: f, buf_index, offset, len },
                                        ) => offset <= len <= s1.pool.contents(
                                            buf_index as int,
                                        ).len(),
                                        _ => true,
                                    } by {
                                        if t != ti {
                                            assert(s1.tokens.slots()[t] == s0.tokens.slots()[t]);
                                            match s0.tokens.slots()[t] {
                                                Option::Some(
                                                    Token::Write { fd: f, buf_index, offset, len },
                                                ) => {
                                                    assert(s0.token_owns(t, buf_index));
                                                    assert(s0.owned(buf_index));
                                                    assert(s0.pool.acquired(buf_index));
                                                    assert(s1.pool.contents(buf_index as int)
                                                        == s0.pool.contents(buf_index as int));
                                                },
                                                _ => {},
                                            }
                                        }
                                    }
                                    assert forall|i2: int, k2: int|
                                        0 <= i2 < s1.conns().len() && 0 <= k2 < s1.conns()[
                                        i2].outbound@.len() implies {
                                        let e = #[trigger] s1.conns()[i2].outbound@[k2];
                                        e.offset <= e.len <= s1.pool.contents(
                                            e.buf_index as int,
                                        ).len()
                                    } by {
                                        let e = s1.conns()[i2].outbound@[k2];
                                        assert(s0.queue_owns(i2, k2, e.buf_index));
                                        assert(s0.owned(e.buf_index));
                                        assert(s0.pool.acquired(e.buf_index));
                                        assert(s1.pool.contents(e.buf_index as int)
                                            == s0.pool.contents(e.buf_index as int));
                                    }
                                    assert(s1.cursors_ok());
                                }
                                acts
                            } else {
                                let mut acts: Vec<Action> = Vec::new();
                                acts.push(
                                    Action::Submit(Intent::Poll { fd, token: token_index }),
                                );
                                acts
                            }
                        } else {
                            Vec::new()
                        }
                    },
                    None => {
                        proof {
                            assert(!old(self).owns_read_slot(token_index as int, fd));
                        }
                        Vec::new()
                    },
                }
            },
            _ => Vec::new(),
        }
    }

    /// Fan a payload received from `sender_fd` out to the connections the
    /// policy selects, in registry iteration order: each recipient gets one
    /// fresh pool buffer holding its own copy of the payload, appended to its
    /// outbound queue. With an unbounded pool every selected connection
    /// receives the payload and the result is exactly the number selected;
    /// with a hard capacity, a recipient whose buffer cannot be had misses
    /// this one payload and the fan-out continues (documented policy).
    pub fn fan_out(&mut self, sender_fd: i32, payload: &Vec<u8>) -> (enqueued: usize)
        requires
            old(self).wf(),
        ensures
            final(self).wf(),
            final(self).config == old(self).config,
            final(self).backlog == old(self).backlog,
            final(self).accept == old(self).accept,
            final(self).tokens == old(self).tokens,
            final(self).conns().len() == old(self).conns().len(),
            forall|j: int|
                0 <= j < old(self).conns().len() ==> same_but_outbound(
                    #[trigger] final(self).conns()[j],
                    old(self).conns()[j],
                ),
            forall|j: int|
                0 <= j < old(self).conns().len() && !selects(
                    old(self).config.policy,
                    old(self).conns()[j].fd,
                    sender_fd,
                ) ==> #[trigger] final(self).conns()[j].outbound@ == old(self).conns()[j].outbound@,
            forall|j: int|
                0 <= j < old(self).conns().len() && selects(
                    old(self).config.policy,
                    old(self).conns()[j].fd,
                    sender_fd,
                ) ==> {
                    let q0 = old(self).conns()[j].outbound@;
                    let q1 = #[trigger] final(self).conns()[j].outbound@;
                    q1 == q0 || (exists|b: usize|
                        q1 == q0.push(
                            OutboundEntry { buf_index: b, offset: 0, len: payload@.len() as usize },
                        ) && #[trigger] final(self).pool.contents(b as int) == payload@)
                },
            forall|b: usize|
                #[trigger] old(self).pool.acquired(b) ==> final(self).pool.acquired(b) && final(self).pool.contents(b as int) == old(self).pool.contents(b as int),
            final(self).pool.cap_spec() == old(self).pool.cap_spec(),
            old(self).pool.cap_spec() is None ==> {
                &&& forall|j: int|
                    0 <= j < old(self).conns().len() && selects(
                        old(self).config.policy,
                        old(self).conns()[j].fd,
                        sender_fd,
                    ) ==> (#[trigger] final(self).conns()[j].outbound@.len()) == old(
                        self,
                    ).conns()[j].outbound@.len() + 1
                &&& enqueued == count_selected(old(self).conns(), old(self).config.policy, sender_fd)
            },
    {
        let n = self.registry.len();
        let mut enq: usize = 0;
        let mut i: usize = 0;
        while i < n
            invariant
                old(self).wf(),
                self.wf(),
                i <= n,
                enq <= i,
                n == old(self).conns().len(),
                self.config == old(self).config,
                self.backlog == old(self).backlog,
                self.accept == old(self).accept,
                self.tokens == old(self).tokens,
                self.conns().len() == n,
                forall|j: int|
                    0 <= j < n ==> same_but_outbound(
                        #[trigger] self.conns()[j],
                        old(self).conns()[j],
                    ),
                forall|j: int|
                    i <= j < n ==> (#[trigger] self.conns()[j]).outbound@ == old(self).conns()[
                        j].outbound@,
                forall|j: int|
                    0 <= j < i && !selects(
                        old(self).config.policy,
                        old(self).conns()[j].fd,
                        sender_fd,
                    ) ==> #[trigger] self.conns()[j].outbound@ == old(self).conns()[j].outbound@,
                forall|j: int|
                    0 <= j < i && selects(
                        old(self).config.policy,
                        old(self).conns()[j].fd,
                        sender_fd,
                    ) ==> {
                        let q0 = old(self).conns()[j].outbound@;
                        let q1 = (#[trigger] self.conns()[j]).outbound@;
                        q1 == q0 || (exists|b: usize|
                            q1 == q0.push(
                                OutboundEntry {
                                    buf_index: b,
                                    offset: 0,
                                    len: payload@.len() as usize,
                                },
                            ) && #[trigger] self.pool.contents(b as int) == payload@)
                    },
                forall|b: usize|
                    #[trigger] old(self).pool.acquired(b) ==> self.pool.acquired(b)
                        && self.pool.contents(b as int) == old(self).pool.contents(b as int),
                self.pool.cap_spec() == old(self).pool.cap_spec(),
                old(self).pool.cap_spec() is None ==> {
                    &&& forall|j: int|
                        0 <= j < i && selects(
                            old(self).config.policy,
                            old(self).conns()[j].fd,
                            sender_fd,
                        ) ==> ((#[trigger] self.conns()[j]).outbound@.len()) == old(
                            self,
                        ).conns()[j].outbound@.len() + 1
                    &&& enq == count_selected(
                        old(self).conns().take(i as int),
                        old(self).config.policy,
                        sender_fd,
                    )
                },
            decreases n - i,
        {
            let ghost sa = *self;
            let cfd = self.registry.get(i).fd;
            assert(cfd == old(self).conns()[i as int].fd);
            if crate::fanout::is_recipient(self.config.policy, cfd, sender_fd) {
                match self.pool.acquire_with(payload) {
                    Some(b) => {
                        let e = OutboundEntry { buf_index: b, offset: 0, len: payload.len() };
                        let ghost sc = *self;
                        self.registry.push_outbound(i, e);
                        enq = enq + 1;
                        proof {
                            let sd = *self;
                            let ii = i as int;
                            let k0 = sa.conns()[ii].outbound@.len() as int;
                            assert(sd.queue_owns(ii, k0, b));
                            assert(!sa.owned(b)) by {
                                if sa.owned(b) {
                                    assert(sa.pool.acquired(b));
                                }
                            }
                            assert forall|t: int, bb: usize|
                                #[trigger] sd.token_owns(t, bb) implies sa.token_owns(t, bb) by {}
                            assert forall|i2: int, k2: int, bb: usize|
                                #[trigger] sd.queue_owns(i2, k2, bb) && !(i2 == ii && k2 == k0
                                    && bb == b) implies sa.queue_owns(i2, k2, bb) by {
                                if i2 == ii {
                                    assert(sd.conns()[i2].outbound@ == sa.conns()[
                                        i2].outbound@.push(e));
                                    if k2 < k0 {
                                        assert(sa.conns()[i2].outbound@[k2] == sd.conns()[
                                            i2].outbound@[k2]);
                                    } else {
                                        assert(k2 == k0);
                                        assert(sd.conns()[i2].outbound@[k2] == e);
                                    }
                                } else {
                                    assert(sd.conns()[i2] == sa.conns()[i2]);
                                }
                            }
                            assert forall|bb: usize|
                                #[trigger] sa.pool.acquired(bb) implies sd.pool.acquired(bb) by {}
                            lemma_ownership_add_queue(sa, sd, ii, k0, b);
                            assert forall|i2: int| 0 <= i2 < sd.conns().len() implies {
                                let cc = #[trigger] sd.conns()[i2];
                                &&& match cc.read_token {
                                    Option::Some(rt) => rt < sd.tokens.slots().len()
                                        && match sd.tokens.slots()[rt as int] {
                                        Option::Some(Token::Poll { fd: f }) => f == cc.fd,
                                        Option::Some(Token::Read { fd: f, buf_index }) => f
                                            == cc.fd,
                                        _ => false,
                                    },
                                    Option::None => true,
                                }
                                &&& match cc.write_token {
                                    Option::Some(wt) => wt < sd.tokens.slots().len()
                                        && match sd.tokens.slots()[wt as int] {
                                        Option::Some(
                                            Token::Write { fd: f, buf_index, offset, len },
                                        ) => f == cc.fd,
                                        _ => false,
                                    },
                                    Option::None => true,
                                }
                            } by {
                                assert(same_but_outbound(sd.conns()[i2], sa.conns()[i2]));
                                assert(sd.tokens == sa.tokens);
                            }
                            assert(sd.conn_tokens_ok());
                            assert forall|t: int|
                                0 <= t < sd.tokens.slots().len() implies match #[trigger] sd.tokens.slots()[t] {
                                Option::Some(
                                    Token::Write { fd: f, buf_index, offset, len },
                                ) => offset <= len <= sd.pool.contents(buf_index as int).len(),
                                _ => true,
                            } by {
                                match sd.tokens.slots()[t] {
                                    Option::Some(
                                        Token::Write { fd: f, buf_index, offset, len },
                                    ) => {
                                        assert(sa.token_owns(t, buf_index));
                                        assert(sa.owned(buf_index));
                                        assert(sa.pool.acquired(buf_index));
                                        assert(buf_index != b);
                                        assert(sd.pool.contents(buf_index as int) == sa.pool.contents(
                                            buf_index as int,
                                        ));
                                    },
                                    _ => {},
                                }
                            }
                            assert forall|i2: int, k2: int|
                                0 <= i2 < sd.conns().len() && 0 <= k2 < sd.conns()[
                                i2].outbound@.len() implies {
                                let ee = #[trigger] sd.conns()[i2].outbound@[k2];
                                ee.offset <= ee.len <= sd.pool.contents(ee.buf_index as int).len()
                            } by {
                                let ee = sd.conns()[i2].outbound@[k2];
                                if i2 == ii && k2 == k0 {
                                    assert(ee == e);
                                    assert(sd.pool.contents(b as int) == payload@);
                                } else {
                                    assert(sa.queue_owns(i2, k2, ee.buf_index)) by {
                                        if i2 == ii {
                                            assert(sd.conns()[i2].outbound@ == sa.conns()[
                                                i2].outbound@.push(e));
                                            assert(sa.conns()[i2].outbound@[k2] == ee);
                                        } else {
                                            assert(sd.conns()[i2] == sa.conns()[i2]);
                                        }
                                    }
                                    assert(sa.owned(ee.buf_index));
                                    assert(sa.pool.acquired(ee.buf_index));
                                    assert(ee.buf_index != b);
                                    assert(sa.conns()[i2].outbound@[k2] == ee);
                                    assert(sd.pool.contents(ee.buf_index as int) == sa.pool.contents(
                                        ee.buf_index as int,
                                    ));
                                }
                            }
                            assert(sd.cursors_ok());
                            assert(sd.conns()[ii].outbound@ == old(self).conns()[
                                ii].outbound@.push(e));
                        }
                    },
                    None => {
                        proof {
                            assert(old(self).pool.cap_spec() is Some);
                            let sb = *self;
                            assert forall|t: int, bb: usize|
                                #[trigger] sb.token_owns(t, bb) implies sa.token_owns(t, bb) by {}
                            assert forall|i2: int, k2: int, bb: usize|
                                #[trigger] sb.queue_owns(i2, k2, bb) implies sa.queue_owns(
                                i2,
                                k2,
                                bb,
                            ) by {}
                            assert forall|bb: usize|
                                #[trigger] sa.pool.acquired(bb) implies sb.pool.acquired(bb) by {}
                            lemma_ownership_shrink(sa, sb);
                            assert forall|bb: usize|
                                #[trigger] sa.pool.acquired(bb) implies sb.pool.contents(
                                bb as int,
                            ) == sa.pool.contents(bb as int) by {}
                            lemma_cursors_frame(sa, sb);
                            assert(sb.conn_tokens_ok());
                        }
                    },
                }
            }
            proof {
                let sn = *self;
                assert forall|j: int|
                    0 <= j < i && selects(
                        old(self).config.policy,
                        old(self).conns()[j].fd,
                        sender_fd,
                    ) implies {
                    let q0 = old(self).conns()[j].outbound@;
                    let q1 = (#[trigger] sn.conns()[j]).outbound@;
                    q1 == q0 || (exists|b2: usize|
                        q1 == q0.push(
                            OutboundEntry { buf_index: b2, offset: 0, len: payload@.len() as usize },
                        ) && #[trigger] sn.pool.contents(b2 as int) == payload@)
                } by {
                    assert(sn.conns()[j] == sa.conns()[j]);
                    let q0 = old(self).conns()[j].outbound@;
                    let q1 = sa.conns()[j].outbound@;
                    if q1 != q0 {
                        let b2 = choose|b2: usize|
                            q1 == q0.push(
                                OutboundEntry {
                                    buf_index: b2,
                                    offset: 0,
                                    len: payload@.len() as usize,
                                },
                            ) && #[trigger] sa.pool.contents(b2 as int) == payload@;
                        assert(sa.queue_owns(j, q1.len() - 1, b2));
                        assert(sa.owned(b2));
                        assert(sa.pool.acquired(b2));
                        assert(sn.pool.contents(b2 as int) == sa.pool.contents(b2 as int));
                        assert(q1 == q0.push(
                            OutboundEntry { buf_index: b2, offset: 0, len: payload@.len() as usize },
                        ) && sn.pool.contents(b2 as int) == payload@);
                    }
                }
                if old(self).pool.cap_spec() is None {
                    crate::fanout::lemma_count_selected_take_succ(
                        old(self).conns(),
                        old(self).config.policy,
                        sender_fd,
                        i as int,
                    );
                }
            }
            i = i + 1;
        }
        proof {
            assert(old(self).conns().take(n as int) =~= old(self).conns());
        }
        enq
    }

    /// Retire one operation descriptor of a connection being torn down and
    /// give any buffer it still holds back to the pool. No live connection
    /// may still point at the slot.
    fn retire_token(&mut self, t: usize)
        requires
            old(self).wf(),
            t < old(self).tokens.slots().len(),
            old(self).tokens.slots()[t as int] is Some,
            old(self).tokens.slots()[t as int] != Option::Some(Token::Accept),
            forall|j: int|
                0 <= j < old(self).conns().len() ==> (#[trigger] old(self).conns()[j]).read_token
                    != Option::Some(t) && old(self).conns()[j].write_token != Option::Some(t),
        ensures
            final(self).wf(),
            final(self).registry == old(self).registry,
            final(self).config == old(self).config,
            final(self).backlog == old(self).backlog,
            final(self).accept == old(self).accept,
            final(self).tokens.slots().len() == old(self).tokens.slots().len(),
            final(self).tokens.slots()[t as int] is None,
            forall|j: int|
                0 <= j < old(self).tokens.slots().len() && j != t ==> #[trigger] final(self).tokens.slots()[j] == old(self).tokens.slots()[j],
            final(self).pool.n_bufs() == old(self).pool.n_bufs(),
            final(self).pool.cap_spec() == old(self).pool.cap_spec(),
            forall|bb: int|
                0 <= bb < old(self).pool.n_bufs() ==> #[trigger] final(self).pool.contents(bb)
                    == old(self).pool.contents(bb),
    {
        let ghost s0 = *old(self);
        let slot = self.tokens.get(t);
        assert(t != s0.accept.token);
        self.tokens.remove(t);
        proof {
            let s1 = *self;
            assert forall|t2: int, bb: usize|
                #[trigger] s1.token_owns(t2, bb) implies s0.token_owns(t2, bb) by {
                assert(t2 != t);
                assert(s1.tokens.slots()[t2] == s0.tokens.slots()[t2]);
            }
            assert forall|i2: int, k2: int, bb: usize|
                #[trigger] s1.queue_owns(i2, k2, bb) implies s0.queue_owns(i2, k2, bb) by {}
            assert forall|bb: usize|
                #[trigger] s0.pool.acquired(bb) implies s1.pool.acquired(bb) by {}
            lemma_ownership_shrink(s0, s1);
            assert forall|j: int| 0 <= j < s1.conns().len() implies {
                let cc = #[trigger] s1.conns()[j];
                &&& match cc.read_token {
                    Option::Some(rt) => rt < s1.tokens.slots().len() && match s1.tokens.slots()[
                        rt as int
                    ] {
                        Option::Some(Token::Poll { fd: f }) => f == cc.fd,
                        Option::Some(Token::Read { fd: f, buf_index }) => f == cc.fd,
                        _ => false,
                    },
                    Option::None => true,
                }
                &&& match cc.write_token {
                    Option::Some(wt) => wt < s1.tokens.slots().len() && match s1.tokens.slots()[
                        wt as int
                    ] {
                        Option::Some(Token::Write { fd: f, buf_index, offset, len }) => f == cc.fd,
                        _ => false,
                    },
                    Option::None => true,
                }
            } by {
                let cc = s1.conns()[j];
                assert(cc == s0.conns()[j]);
                match cc.read_token {
                    Option::Some(rt) => {
                        assert(rt != t);
                        assert(s1.tokens.slots()[rt as int] == s0.tokens.slots()[rt as int]);
                    },
                    Option::None => {},
                }
                match cc.write_token {
                    Option::Some(wt) => {
                        assert(wt != t);
                        assert(s1.tokens.slots()[wt as int] == s0.tokens.slots()[wt as int]);
                    },
                    Option::None => {},
                }
            }
            assert(s1.conn_tokens_ok());
            assert forall|t2: int|
                0 <= t2 < s1.tokens.slots().len() implies match #[trigger] s1.tokens.slots()[t2] {
                Option::Some(Token::Write { fd: f, buf_index, offset, len }) => offset <= len
                    <= s1.pool.contents(buf_index as int).len(),
                _ => true,
            } by {
                if t2 != t {
                    assert(s1.tokens.slots()[t2] == s0.tokens.slots()[t2]);
                }
            }
            assert(s1.cursors_ok());
        }
        let ghost s1 = *self;
        match slot {
            Some(Token::Read { fd, buf_index }) => {
                proof {
                    assert(s0.token_owns(t as int, buf_index));
                    assert(s0.owned(buf_index));
                    assert(s0.pool.acquired(buf_index));
                }
                self.pool.release(buf_index);
                proof {
                    let s2 = *self;
                    assert forall|t2: int, bb: usize|
                        #[trigger] s2.token_owns(t2, bb) implies s1.token_owns(t2, bb) && bb
                        != buf_index by {
                        if bb == buf_index {
                            assert(s0.token_owns(t2, bb));
                            assert(t2 == t as int);
                            assert(s1.tokens.slots()[t2] is None);
                        }
                    }
                    assert forall|i2: int, k2: int, bb: usize|
                        #[trigger] s2.queue_owns(i2, k2, bb) implies s1.queue_owns(i2, k2, bb)
                        && bb != buf_index by {
                        if bb == buf_index {
                            assert(s0.queue_owns(i2, k2, bb));
                            assert(s0.token_owns(t as int, bb));
                        }
                    }
                    assert forall|bb: usize|
                        bb != buf_index && #[trigger] s1.pool.acquired(bb) implies s2.pool.acquired(
                        bb,
                    ) by {}
                    lemma_ownership_drop(s1, s2, buf_index);
                    assert forall|bb: usize|
                        #[trigger] s1.pool.acquired(bb) implies s2.pool.contents(bb as int)
                        == s1.pool.contents(bb as int) by {}
                    lemma_cursors_frame(s1, s2);
                    assert(s2.conn_tokens_ok());
                }
            },
            Some(Token::Write { fd, buf_index, offset, len }) => {
                proof {
                    assert(s0.token_owns(t as int, buf_index));
                    assert(s0.owned(buf_index));
                    assert(s0.pool.acquired(buf_index));
                }
                self.pool.release(buf_index);
                proof {
                    let s2 = *self;
                    assert forall|t2: int, bb: usize|
                        #[trigger] s2.token_owns(t2, bb) implies s1.token_owns(t2, bb) && bb
                        != buf_index by {
                        if bb == buf_index {
                            assert(s0.token_owns(t2, bb));
                            assert(t2 == t as int);
                            assert(s1.tokens.slots()[t2] is None);
                        }
                    }
                    assert forall|i2: int, k2: int, bb: usize|
                        #[trigger] s2.queue_owns(i2, k2, bb) implies s1.queue_owns(i2, k2, bb)
                        && bb != buf_index by {
                        if bb == buf_index {
                            assert(s0.queue_owns(i2, k2, bb));
                            assert(s0.token_owns(t as int, bb));
                        }
                    }
                    assert forall|bb: usize|
                        bb != buf_index && #[trigger] s1.pool.acquired(bb) implies s2.pool.acquired(
                        bb,
                    ) by {}
                    lemma_ownership_drop(s1, s2, buf_index);
                    assert forall|bb: usize|
                        #[trigger] s1.pool.acquired(bb) implies s2.pool.contents(bb as int)
                        == s1.pool.contents(bb as int) by {}
                    lemma_cursors_frame(s1, s2);
                    assert(s2.conn_tokens_ok());
                }
            },
            _ => {},
        }
    }

    /// Connection-fatal teardown: clear the connection's descriptors, give
    /// every buffer it held back to the pool, and remove it from the
    /// registry. No other connection is affected. Close propagation: the
    /// descriptor is absent from the registry when this returns.
    fn close_connection(&mut self, i: usize) -> (fd: i32)
        requires
            old(self).wf(),
            i < old(self).conns().len(),
        ensures
            final(self).wf(),
            fd == old(self).conns()[i as int].fd,
            final(self).config == old(self).config,
            final(self).backlog == old(self).backlog,
            final(self).accept == old(self).accept,
            final(self).conns() == old(self).conns().remove(i as int),
            !final(self).registry.contains_fd(fd),
            final(self).pool.n_bufs() == old(self).pool.n_bufs(),
            final(self).pool.cap_spec() == old(self).pool.cap_spec(),
            forall|bb: int|
                0 <= bb < old(self).pool.n_bufs() ==> #[trigger] final(self).pool.contents(bb)
                    == old(self).pool.contents(bb),
            final(self).tokens.slots().len() == old(self).tokens.slots().len(),
            forall|t: int|
                0 <= t < old(self).tokens.slots().len() && old(self).conns()[i as int].read_token
                    != Option::Some(t as usize) && old(self).conns()[i as int].write_token
                    != Option::Some(t as usize) ==> #[trigger] final(self).tokens.slots()[t] == old(
                    self,
                ).tokens.slots()[t],
    {
        let ghost s0 = *old(self);
        let fd = self.registry.get(i).fd;
        let rt = self.registry.get(i).read_token;
        let wt = self.registry.get(i).write_token;
        self.registry.set_read_token(i, None);
        self.registry.set_write_token(i, None);
        proof {
            let s1 = *self;
            assert forall|t2: int, bb: usize|
                #[trigger] s1.token_owns(t2, bb) implies s0.token_owns(t2, bb) by {}
            assert forall|i2: int, k2: int, bb: usize|
                #[trigger] s1.queue_owns(i2, k2, bb) implies s0.queue_owns(i2, k2, bb) by {
                if i2 == i {
                    assert(s1.conns()[i2].outbound@ == s0.conns()[i2].outbound@);
                } else {
                    assert(s1.conns()[i2] == s0.conns()[i2]);
                }
            }
            assert forall|bb: usize|
                #[trigger] s0.pool.acquired(bb) implies s1.pool.acquired(bb) by {}
            lemma_ownership_shrink(s0, s1);
            assert forall|j: int| 0 <= j < s1.conns().len() implies {
                let cc = #[trigger] s1.conns()[j];
                &&& match cc.read_token {
                    Option::Some(t2) => t2 < s1.tokens.slots().len() && match s1.tokens.slots()[
                        t2 as int
                    ] {
                        Option::Some(Token::Poll { fd: f }) => f == cc.fd,
                        Option::Some(Token::Read { fd: f, buf_index }) => f == cc.fd,
                        _ => false,
                    },
                    Option::None => true,
                }
                &&& match cc.write_token {
                    Option::Some(t2) => t2 < s1.tokens.slots().len() && match s1.tokens.slots()[
                        t2 as int
                    ] {
                        Option::Some(Token::Write { fd: f, buf_index, offset, len }) => f == cc.fd,
                        _ => false,
                    },
                    Option::None => true,
                }
            } by {
                if j != i {
                    assert(s1.conns()[j] == s0.conns()[j]);
                }
            }
            assert(s1.conn_tokens_ok());
            assert forall|i2: int, k2: int|
                0 <= i2 < s1.conns().len() && 0 <= k2 < s1.conns()[i2].outbound@.len() implies {
                let e = #[trigger] s1.conns()[i2].outbound@[k2];
                e.offset <= e.len <= s1.pool.contents(e.buf_index as int).len()
            } by {
                if i2 == i {
                    assert(s1.conns()[i2].outbound@ == s0.conns()[i2].outbound@);
                    assert(s0.conns()[i2].outbound@[k2] == s1.conns()[i2].outbound@[k2]);
                } else {
                    assert(s1.conns()[i2] == s0.conns()[i2]);
                }
            }
            assert(s1.cursors_ok());
        }
        match rt {
            Some(t) => {
                proof {
                    assert(s0.conns()[i as int].read_token == Option::Some(t));
                    assert(match s0.tokens.slots()[t as int] {
                        Option::Some(Token::Poll { fd: f }) => f == fd,
                        Option::Some(Token::Read { fd: f, buf_index }) => f == fd,
                        _ => false,
                    });
                    assert forall|j: int| 0 <= j < self.conns().len() implies (
                    #[trigger] self.conns()[j]).read_token != Option::Some(t)
                        && self.conns()[j].write_token != Option::Some(t) by {
                        if j != i {
                            assert(self.conns()[j] == s0.conns()[j]);
                            let cc = s0.conns()[j];
                            if cc.read_token == Option::Some(t) {
                                assert(cc.fd == fd);
                                assert(s0.conns()[j].fd == s0.conns()[i as int].fd);
                            }
                            if cc.write_token == Option::Some(t) {
                                assert(s0.tokens.slots()[t as int] matches Option::Some(Token::Write { fd: f, buf_index, offset, len }));
                            }
                        }
                    }
                }
                self.retire_token(t);
            },
            None => {},
        }
        let ghost sr = *self;
        match wt {
            Some(t) => {
                proof {
                    assert(s0.conns()[i as int].write_token == Option::Some(t));
                    assert(match s0.tokens.slots()[t as int] {
                        Option::Some(Token::Write { fd: f, buf_index, offset, len }) => f == fd,
                        _ => false,
                    });
                    match rt {
                        Some(t1) => {
                            assert(t1 != t);
                            assert(self.tokens.slots()[t as int] == s0.tokens.slots()[t as int]);
                        },
                        None => {},
                    }
                    assert forall|j: int| 0 <= j < self.conns().len() implies (
                    #[trigger] self.conns()[j]).read_token != Option::Some(t)
                        && self.conns()[j].write_token != Option::Some(t) by {
                        if j != i {
                            assert(self.conns()[j] == s0.conns()[j]);
                            let cc = s0.conns()[j];
                            if cc.write_token == Option::Some(t) {
                                assert(cc.fd == fd);
                                assert(s0.conns()[j].fd == s0.conns()[i as int].fd);
                            }
                            if cc.read_token == Option::Some(t) {
                                assert(match s0.tokens.slots()[t as int] {
                                    Option::Some(Token::Poll { fd: f }) => f == cc.fd,
                                    Option::Some(Token::Read { fd: f, buf_index }) => f == cc.fd,
                                    _ => false,
                                });
                            }
                        }
                    }
                }
                self.retire_token(t);
            },
            None => {},
        }
        let ghost sw = *self;
        while self.registry.get(i).outbound.len() > 0
            invariant
                old(self).wf(),
                self.wf(),
                i < self.conns().len(),
                self.conns().len() == old(self).conns().len(),
                self.config == old(self).config,
                self.backlog == old(self).backlog,
                self.accept == old(self).accept,
                self.tokens == sw.tokens,
                sw.conns().len() == self.conns().len(),
                forall|j: int|
                    0 <= j < self.conns().len() && j != i ==> #[trigger] self.conns()[j]
                        == sw.conns()[j],
                same_but_outbound(self.conns()[i as int], sw.conns()[i as int]),
                self.pool.n_bufs() == old(self).pool.n_bufs(),
                self.pool.cap_spec() == old(self).pool.cap_spec(),
                forall|bb: int|
                    0 <= bb < old(self).pool.n_bufs() ==> #[trigger] self.pool.contents(bb) == old(
                        self,
                    ).pool.contents(bb),
            decreases self.conns()[i as int].outbound@.len(),
        {
            let ghost sp = *self;
            let e = match self.registry.pop_outbound(i) {
                Some(e) => e,
                None => {
                    proof {
                        assert(false);
                    }
                    vstd::pervasive::unreached()
                },
            };
            proof {
                assert(sp.queue_owns(i as int, 0, e.buf_index));
                assert(sp.owned(e.buf_index));
                assert(sp.pool.acquired(e.buf_index));
            }
            self.pool.release(e.buf_index);
            proof {
                let sq = *self;
                assert forall|bb: usize|
                    bb != e.buf_index && #[trigger] sp.pool.acquired(bb) implies sq.pool.acquired(
                    bb,
                ) by {}
                assert(sq.conns()[i as int].outbound@ == sp.conns()[
                    i as int
                ].outbound@.drop_first());
                lemma_ownership_pop_release(sp, sq, i as int, e.buf_index);
                assert forall|j: int| 0 <= j < sq.conns().len() implies {
                    let cc = #[trigger] sq.conns()[j];
                    &&& match cc.read_token {
                        Option::Some(t2) => t2 < sq.tokens.slots().len()
                            && match sq.tokens.slots()[t2 as int] {
                            Option::Some(Token::Poll { fd: f }) => f == cc.fd,
                            Option::Some(Token::Read { fd: f, buf_index }) => f == cc.fd,
                            _ => false,
                        },
                        Option::None => true,
                    }
                    &&& match cc.write_token {
                        Option::Some(t2) => t2 < sq.tokens.slots().len()
                            && match sq.tokens.slots()[t2 as int] {
                            Option::Some(Token::Write { fd: f, buf_index, offset, len }) => f
                                == cc.fd,
                            _ => false,
                        },
                        Option::None => true,
                    }
                } by {
                    if j != i {
                        assert(sq.conns()[j] == sp.conns()[j]);
                    } else {
                        assert(same_but_outbound(sq.conns()[j], sp.conns()[j]));
                    }
                }
                assert(sq.conn_tokens_ok());
                assert forall|i2: int, k2: int|
                    0 <= i2 < sq.conns().len() && 0 <= k2 < sq.conns()[i2].outbound@.len() implies {
                    let ee = #[trigger] sq.conns()[i2].outbound@[k2];
                    ee.offset <= ee.len <= sq.pool.contents(ee.buf_index as int).len()
                } by {
                    let ee = sq.conns()[i2].outbound@[k2];
                    if i2 == i {
                        assert(ee == sp.conns()[i2].outbound@[k2 + 1]);
                        assert(sp.queue_owns(i2, k2 + 1, ee.buf_index));
                    } else {
                        assert(sq.conns()[i2] == sp.conns()[i2]);
                        assert(sp.queue_owns(i2, k2, ee.buf_index));
                    }
                    assert(sp.owned(ee.buf_index));
                    assert(sp.pool.acquired(ee.buf_index));
                    assert(ee.buf_index != e.buf_index);
                    assert(sq.pool.contents(ee.buf_index as int) == sp.pool.contents(
                        ee.buf_index as int,
                    ));
                }
                assert forall|t2: int|
                    0 <= t2 < sq.tokens.slots().len() implies match #[trigger] sq.tokens.slots()[t2] {
                    Option::Some(Token::Write { fd: f, buf_index, offset, len }) => offset <= len
                        <= sq.pool.contents(buf_index as int).len(),
                    _ => true,
                } by {
                    match sq.tokens.slots()[t2] {
                        Option::Some(Token::Write { fd: f, buf_index, offset, len }) => {
                            assert(sp.token_owns(t2, buf_index));
                            assert(sp.owned(buf_index));
                            assert(sp.pool.acquired(buf_index));
                            assert(buf_index != e.buf_index);
                            assert(sq.pool.contents(buf_index as int) == sp.pool.contents(
                                buf_index as int,
                            ));
                        },
                        _ => {},
                    }
                }
                assert(sq.cursors_ok());
            }
        }
        let ghost sd = *self;
        let removed = self.registry.remove_fd(fd);
        proof {
            let sf = *self;
            assert(sd.conns()[i as int].fd == fd);
            assert(sd.registry.contains_fd(fd));
            assert(removed is Some);
            assert(sd.registry.index_of(fd) == i as int);
            assert(sf.conns() == sd.conns().remove(i as int));
            assert(sd.conns()[i as int].outbound@.len() == 0);
            lemma_ownership_remove_conn(sd, sf, i as int);
            assert forall|j: int| 0 <= j < sf.conns().len() implies {
                let cc = #[trigger] sf.conns()[j];
                &&& match cc.read_token {
                    Option::Some(t2) => t2 < sf.tokens.slots().len() && match sf.tokens.slots()[
                        t2 as int
                    ] {
                        Option::Some(Token::Poll { fd: f }) => f == cc.fd,
                        Option::Some(Token::Read { fd: f, buf_index }) => f == cc.fd,
                        _ => false,
                    },
                    Option::None => true,
                }
                &&& match cc.write_token {
                    Option::Some(t2) => t2 < sf.tokens.slots().len() && match sf.tokens.slots()[
                        t2 as int
                    ] {
                        Option::Some(Token::Write { fd: f, buf_index, offset, len }) => f == cc.fd,
                        _ => false,
                    },
                    Option::None => true,
                }
            } by {
                if j < i {
                    assert(sf.conns()[j] == sd.conns()[j]);
                } else {
                    assert(sf.conns()[j] == sd.conns()[j + 1]);
                }
            }
            assert(sf.conn_tokens_ok());
            assert forall|i2: int, k2: int|
                0 <= i2 < sf.conns().len() && 0 <= k2 < sf.conns()[i2].outbound@.len() implies {
                let ee = #[trigger] sf.conns()[i2].outbound@[k2];
                ee.offset <= ee.len <= sf.pool.contents(ee.buf_index as int).len()
            } by {
                let m: int = if i2 < i {
                    i2
                } else {
                    i2 + 1
                };
                assert(sf.conns()[i2] == sd.conns()[m]);
                assert(sd.conns()[m].outbound@[k2] == sf.conns()[i2].outbound@[k2]);
            }
            assert(sf.cursors_ok());
            assert forall|j: int| 0 <= j < sf.conns().len() implies sf.conns()[j] == (
            if j < i {
                s0.conns()[j]
            } else {
                s0.conns()[j + 1]
            }) by {
                if j < i {
                    assert(sf.conns()[j] == sd.conns()[j]);
                    assert(sd.conns()[j] == sw.conns()[j]);
                } else {
                    assert(sf.conns()[j] == sd.conns()[j + 1]);
                    assert(sd.conns()[j + 1] == sw.conns()[j + 1]);
                }
            }
            assert(sf.conns() =~= s0.conns().remove(i as int));
            assert forall|t2: int|
                0 <= t2 < s0.tokens.slots().len() && s0.conns()[i as int].read_token
                    != Option::Some(t2 as usize) && s0.conns()[i as int].write_token
                    != Option::Some(t2 as usize) implies #[trigger] sf.tokens.slots()[t2]
                == s0.tokens.slots()[t2] by {
                assert(sr.tokens.slots()[t2] == s0.tokens.slots()[t2]) by {
                    match rt {
                        Some(t1) => {
                            assert(t2 != t1);
                        },
                        None => {},
                    }
                }
                assert(sw.tokens.slots()[t2] == sr.tokens.slots()[t2]) by {
                    match wt {
                        Some(t1) => {
                            assert(t2 != t1);
                        },
                        None => {},
                    }
                }
                assert(sf.tokens.slots()[t2] == sw.tokens.slots()[t2]);
            }
        }
        fd
    }

    /// Readable dispatch, completion phase. Zero bytes read is a
    /// peer-initiated close: the connection is torn down — absent from the
    /// registry when this returns — and its descriptor is handed back to be
    /// closed. Otherwise the payload (exactly the bytes of this one read,
    /// unsegmented) is fanned out under the configured policy and the
    /// connection is re-armed for readability, the scratch buffer going back
    /// to the pool. A stale handle is ignored.
    pub fn on_read_done(&mut self, token_index: usize, data: Vec<u8>) -> (acts: Vec<Action>)
        requires
            old(self).wf(),
        ensures
            final(self).wf(),
            final(self).config == old(self).config,
            final(self).backlog == old(self).backlog,
            final(self).accept == old(self).accept,
            ({
                let slot = if token_index < old(self).tokens.slots().len() {
                    old(self).tokens.slots()[token_index as int]
                } else {
                    Option::<Token>::None
                };
                match slot {
                    Option::Some(Token::Read { fd, buf_index }) => {
                        if old(self).owns_read_slot(token_index as int, fd) {
                            if data@.len() == 0 {
                                &&& !final(self).registry.contains_fd(fd)
                                &&& final(self).conns() == old(self).conns().remove(
                                    old(self).registry.index_of(fd),
                                )
                                &&& acts@ == seq![Action::Close(fd)]
                            } else {
                                &&& final(self).conns().len() == old(self).conns().len()
                                &&& forall|j: int|
                                    0 <= j < old(self).conns().len() ==> same_but_outbound(
                                        #[trigger] final(self).conns()[j],
                                        old(self).conns()[j],
                                    )
                                &&& forall|j: int|
                                    0 <= j < old(self).conns().len() && !selects(
                                        old(self).config.policy,
                                        old(self).conns()[j].fd,
                                        fd,
                                    ) ==> (#[trigger] final(self).conns()[j]).outbound@ == old(
                                        self,
                                    ).conns()[j].outbound@
                                &&& forall|j: int|
                                    0 <= j < old(self).conns().len() && selects(
                                        old(self).config.policy,
                                        old(self).conns()[j].fd,
                                        fd,
                                    ) ==> {
                                        let q0 = old(self).conns()[j].outbound@;
                                        let q1 = (#[trigger] final(self).conns()[j]).outbound@;
                                        q1 == q0 || (exists|b: usize|
                                            q1 == q0.push(
                                                OutboundEntry {
                                                    buf_index: b,
                                                    offset: 0,
                                                    len: data@.len() as usize,
                                                },
                                            ) && #[trigger] final(self).pool.contents(b as int)
                                                == data@)
                                    }
                                &&& old(self).pool.cap_spec() is None ==> forall|j: int|
                                    0 <= j < old(self).conns().len() && selects(
                                        old(self).config.policy,
                                        old(self).conns()[j].fd,
                                        fd,
                                    ) ==> (#[trigger] final(self).conns()[j].outbound@.len())
                                        == old(self).conns()[j].outbound@.len() + 1
                                &&& final(self).tokens.slots()[token_index as int]
                                    == Option::Some(Token::Poll { fd })
                                &&& acts@ == seq![
                                    Action::Submit(Intent::Poll { fd, token: token_index }),
                                ]
                            }
                        } else {
                            *final(self) == *old(self) && acts@.len() == 0
                        }
                    },
                    _ => *final(self) == *old(self) && acts@.len() == 0,
                }
            }),
    {
        match self.tokens.get(token_index) {
            Some(Token::Read { fd, buf_index }) => {
                match self.registry.find(fd) {
                    Some(i) => {
                        let mine = match self.registry.get(i).read_token {
                            Some(rt) => rt == token_index,
                            None => false,
                        };
                        proof {
                            if mine {
                                assert(old(self).registry.index_of(fd) == i);
                                assert(old(self).owns_read_slot(token_index as int, fd));
                            } else {
                                assert(!old(self).owns_read_slot(token_index as int, fd)) by {
                                    if old(self).owns_read_slot(token_index as int, fd) {
                                        assert(old(self).registry.index_of(fd) == i);
                                    }
                                }
                            }
                        }
                        if mine {
                            if data.len() == 0 {
                                let cfd = self.close_connection(i);
                                let mut acts: Vec<Action> = Vec::new();
                                acts.push(Action::Close(cfd));
                                acts
                            } else {
                                let ghost s0 = *old(self);
                                let _enq = self.fan_out(fd, &data);
                                let ghost s1 = *self;
                                proof {
                                    assert(s1.token_owns(token_index as int, buf_index));
                                }
                                self.tokens.set(token_index, Token::Poll { fd });
                                let ghost s2 = *self;
                                proof {
                                    let ti = token_index as int;
                                    assert forall|t: int, bb: usize|
                                        #[trigger] s2.token_owns(t, bb) implies s1.token_owns(
                                        t,
                                        bb,
                                    ) by {
                                        if t == ti {
                                            assert(s2.tokens.slots()[t] == Option::Some(
                                                Token::Poll { fd },
                                            ));
                                        } else {
                                            assert(s2.tokens.slots()[t] == s1.tokens.slots()[t]);
                                        }
                                    }
                                    assert forall|i2: int, k2: int, bb: usize|
                                        #[trigger] s2.queue_owns(i2, k2, bb) implies s1.queue_owns(
                                        i2,
                                        k2,
                                        bb,
                                    ) by {}
                                    assert forall|bb: usize|
                                        #[trigger] s1.pool.acquired(bb) implies s2.pool.acquired(
                                        bb,
                                    ) by {}
                                    lemma_ownership_shrink(s1, s2);
                                    assert(s1.tokens.slots()[s1.accept.token as int]
                                        == Option::Some(Token::Accept));
                                    assert(ti != s1.accept.token);
                                    assert forall|j: int| 0 <= j < s2.conns().len() implies {
                                        let cc = #[trigger] s2.conns()[j];
                                        &&& match cc.read_token {
                                            Option::Some(t2) => t2 < s2.tokens.slots().len()
                                                && match s2.tokens.slots()[t2 as int] {
                                                Option::Some(Token::Poll { fd: f }) => f == cc.fd,
                                                Option::Some(
                                                    Token::Read { fd: f, buf_index: b2 },
                                                ) => f == cc.fd,
                                                _ => false,
                                            },
                                            Option::None => true,
                                        }
                                        &&& match cc.write_token {
                                            Option::Some(t2) => t2 < s2.tokens.slots().len()
                                                && match s2.tokens.slots()[t2 as int] {
                                                Option::Some(
                                                    Token::Write {
                                                        fd: f,
                                                        buf_index: b2,
                                                        offset,
                                                        len,
                                                    },
                                                ) => f == cc.fd,
                                                _ => false,
                                            },
                                            Option::None => true,
                                        }
                                    } by {
                                        let cc = s2.conns()[j];
                                        assert(cc == s1.conns()[j]);
                                        match cc.read_token {
                                            Option::Some(t2) => {
                                                if t2 == token_index {
                                                    assert(match s1.tokens.slots()[t2 as int] {
                                                        Option::Some(Token::Poll { fd: f }) => f
                                                            == cc.fd,
                                                        Option::Some(
                                                            Token::Read { fd: f, buf_index: b2 },
                                                        ) => f == cc.fd,
                                                        _ => false,
                                                    });
                                                    assert(cc.fd == fd);
                                                } else {
                                                    assert(s2.tokens.slots()[t2 as int]
                                                        == s1.tokens.slots()[t2 as int]);
                                                }
                                            },
                                            Option::None => {},
                                        }
                                        match cc.write_token {
                                            Option::Some(t2) => {
                                                assert(t2 != token_index);
                                                assert(s2.tokens.slots()[t2 as int]
                                                    == s1.tokens.slots()[t2 as int]);
                                            },
                                            Option::None => {},
                                        }
                                    }
                                    assert(s2.conn_tokens_ok());
                                    assert forall|t: int|
                                        0 <= t < s2.tokens.slots().len() implies match #[trigger] s2.tokens.slots()[t] {
                                        Option::Some(
                                            Token::Write { fd: f, buf_index: b2, offset, len },
                                        ) => offset <= len <= s2.pool.contents(b2 as int).len(),
                                        _ => true,
                                    } by {
                                        if t != ti {
                                            assert(s2.tokens.slots()[t] == s1.tokens.slots()[t]);
                                        }
                                    }
                                    assert(s2.cursors_ok());
                                    assert(s2.pool.acquired(buf_index));
                                }
                                self.pool.release(buf_index);
                                proof {
                                    let ti = token_index as int;
                                    let s3 = *self;
                                    assert forall|t: int, bb: usize|
                                        #[trigger] s3.token_owns(t, bb) implies s2.token_owns(
                                        t,
                                        bb,
                                    ) && bb != buf_index by {
                                        if bb == buf_index {
                                            assert(s2.token_owns(t, bb));
                                            assert(t != ti);
                                            assert(s1.token_owns(t, bb));
                                            assert(s1.token_owns(ti, bb));
                                        }
                                    }
                                    assert forall|i2: int, k2: int, bb: usize|
                                        #[trigger] s3.queue_owns(i2, k2, bb) implies s2.queue_owns(
                                        i2,
                                        k2,
                                        bb,
                                    ) && bb != buf_index by {
                                        if bb == buf_index {
                                            assert(s2.queue_owns(i2, k2, bb));
                                            assert(s1.queue_owns(i2, k2, bb));
                                            assert(s1.token_owns(ti, bb));
                                        }
                                    }
                                    assert forall|bb: usize|
                                        bb != buf_index && #[trigger] s2.pool.acquired(
                                            bb,
                                        ) implies s3.pool.acquired(bb) by {}
                                    lemma_ownership_drop(s2, s3, buf_index);
                                    assert forall|bb: usize|
                                        #[trigger] s2.pool.acquired(bb) implies s3.pool.contents(
                                        bb as int,
                                    ) == s2.pool.contents(bb as int) by {}
                                    lemma_cursors_frame(s2, s3);
                                    assert(s3.conn_tokens_ok());
                                    assert forall|j: int|
                                        0 <= j < s0.conns().len() && selects(
                                            s0.config.policy,
                                            s0.conns()[j].fd,
                                            fd,
                                        ) implies {
                                        let q0 = s0.conns()[j].outbound@;
                                        let q1 = (#[trigger] s3.conns()[j]).outbound@;
                                        q1 == q0 || (exists|b: usize|
                                            q1 == q0.push(
                                                OutboundEntry {
                                                    buf_index: b,
                                                    offset: 0,
                                                    len: data@.len() as usize,
                                                },
                                            ) && #[trigger] s3.pool.contents(b as int) == data@)
                                    } by {
                                        assert(s3.conns()[j] == s1.conns()[j]);
                                        let q0 = s0.conns()[j].outbound@;
                                        let q1 = s1.conns()[j].outbound@;
                                        if q1 != q0 {
                                            let b2 = choose|b2: usize|
                                                q1 == q0.push(
                                                    OutboundEntry {
                                                        buf_index: b2,
                                                        offset: 0,
                                                        len: data@.len() as usize,
                                                    },
                                                ) && #[trigger] s1.pool.contents(b2 as int)
                                                    == data@;
                                            assert(s1.queue_owns(j, q1.len() - 1, b2));
                                            assert(s1.owned(b2));
                                            assert(s1.pool.acquired(b2));
                                            assert(b2 != buf_index) by {
                                                if b2 == buf_index {
                                                    assert(s1.token_owns(ti, buf_index));
                                                }
                                            }
                                            assert(s3.pool.contents(b2 as int) == s2.pool.contents(
                                                b2 as int,
                                            ));
                                            assert(q1 == q0.push(
                                                OutboundEntry {
                                                    buf_index: b2,
                                                    offset: 0,
                                                    len: data@.len() as usize,
                                                },
                                            ) && s3.pool.contents(b2 as int) == data@);
                                        }
                                    }
                                }
                                let mut acts: Vec<Action> = Vec::new();
                                acts.push(
                                    Action::Submit(Intent::Poll { fd, token: token_index }),
                                );
                                acts
                            }
                        } else {
                            Vec::new()
                        }
                    },
                    None => {
                        proof {
                            assert(!old(self).owns_read_slot(token_index as int, fd));
                        }
                        Vec::new()
                    },
                }
            },
            _ => Vec::new(),
        }
    }

    /// Arm a write for every connection that has outbound payloads pending
    /// and no write in flight: its front entry moves into a fresh write
    /// descriptor, replaced in place as later completions arrive. When this
    /// returns, every connection either has an empty outbound queue or a
    /// write in progress, so no pending payload can sit unserved.
    pub fn pump_writes(&mut self) -> (acts: Vec<Action>)
        requires
            old(self).wf(),
        ensures
            final(self).wf(),
            final(self).config == old(self).config,
            final(self).backlog == old(self).backlog,
            final(self).accept == old(self).accept,
            final(self).pool == old(self).pool,
            final(self).conns().len() == old(self).conns().len(),
            forall|j: int|
                0 <= j < old(self).conns().len() ==> same_read_side(
                    #[trigger] final(self).conns()[j],
                    old(self).conns()[j],
                ),
            forall|j: int|
                0 <= j < old(self).conns().len() ==> ((#[trigger] final(self).conns()[j]).outbound@.len()
                    == 0 || final(self).conns()[j].write_token is Some),
            forall|j: int|
                0 <= j < old(self).conns().len() && (old(self).conns()[j].write_token is Some
                    || old(self).conns()[j].outbound@.len() == 0) ==> #[trigger] final(self).conns()[j] == old(self).conns()[j],
            forall|j: int|
                0 <= j < old(self).conns().len() && old(self).conns()[j].write_token is None && old(
                    self,
                ).conns()[j].outbound@.len() > 0 ==> {
                    let e = old(self).conns()[j].outbound@[0];
                    let c1 = #[trigger] final(self).conns()[j];
                    &&& c1.outbound@ == old(self).conns()[j].outbound@.drop_first()
                    &&& c1.write_token is Some
                    &&& final(self).tokens.slots()[c1.write_token.unwrap() as int]
                        == Option::Some(Token::Write {
                        fd: old(self).conns()[j].fd,
                        buf_index: e.buf_index,
                        offset: e.offset,
                        len: e.len,
                    })
                    &&& acts@.contains(
                        Action::Submit(Intent::Send {
                            fd: old(self).conns()[j].fd,
                            buf_index: e.buf_index,
                            offset: e.offset,
                            len: e.len,
                            token: c1.write_token.unwrap(),
                        }),
                    )
                },
            forall|t: int|
                0 <= t < old(self).tokens.slots().len() && old(self).tokens.slots()[t] is Some
                    ==> #[trigger] final(self).tokens.slots()[t] == old(self).tokens.slots()[t],
    {
        let n = self.registry.len();
        let mut acts: Vec<Action> = Vec::new();
        let mut i: usize = 0;
        while i < n
            invariant
                old(self).wf(),
                self.wf(),
                i <= n,
                n == old(self).conns().len(),
                self.config == old(self).config,
                self.backlog == old(self).backlog,
                self.accept == old(self).accept,
                self.pool == old(self).pool,
                self.conns().len() == n,
                forall|j: int|
                    0 <= j < n ==> same_read_side(
                        #[trigger] self.conns()[j],
                        old(self).conns()[j],
                    ),
                forall|j: int| i <= j < n ==> #[trigger] self.conns()[j] == old(self).conns()[j],
                forall|j: int|
                    0 <= j < i ==> ((#[trigger] self.conns()[j]).outbound@.len() == 0
                        || self.conns()[j].write_token is Some),
                forall|j: int|
                    0 <= j < i && (old(self).conns()[j].write_token is Some || old(
                        self,
                    ).conns()[j].outbound@.len() == 0) ==> #[trigger] self.conns()[j] == old(
                        self,
                    ).conns()[j],
                forall|j: int|
                    0 <= j < i && old(self).conns()[j].write_token is None && old(
                        self,
                    ).conns()[j].outbound@.len() > 0 ==> {
                        let e = old(self).conns()[j].outbound@[0];
                        let c1 = #[trigger] self.conns()[j];
                        &&& c1.outbound@ == old(self).conns()[j].outbound@.drop_first()
                        &&& c1.write_token is Some
                        &&& self.tokens.slots()[c1.write_token.unwrap() as int]
                            == Option::Some(Token::Write {
                            fd: old(self).conns()[j].fd,
                            buf_index: e.buf_index,
                            offset: e.offset,
                            len: e.len,
                        })
                        &&& acts@.contains(
                            Action::Submit(Intent::Send {
                                fd: old(self).conns()[j].fd,
                                buf_index: e.buf_index,
                                offset: e.offset,
                                len: e.len,
                                token: c1.write_token.unwrap(),
                            }),
                        )
                    },
                forall|t: int|
                    0 <= t < old(self).tokens.slots().len() && old(self).tokens.slots()[t] is Some
                        ==> #[trigger] self.tokens.slots()[t] == old(self).tokens.slots()[t],
                old(self).tokens.slots().len() <= self.tokens.slots().len(),
            decreases n - i,
        {
            let ghost sb = *self;
            let ghost acts0 = acts@;
            let needs = {
                let c = self.registry.get(i);
                match c.write_token {
                    Some(_) => false,
                    None => c.outbound.len() > 0,
                }
            };
            if needs {
                let ghost sa = *self;
                let cfd = self.registry.get(i).fd;
                let e = match self.registry.pop_outbound(i) {
                    Some(e) => e,
                    None => {
                        proof {
                            assert(false);
                        }
                        vstd::pervasive::unreached()
                    },
                };
                let t = self.tokens.insert(
                    Token::Write {
                        fd: cfd,
                        buf_index: e.buf_index,
                        offset: e.offset,
                        len: e.len,
                    },
                );
                self.registry.set_write_token(i, Some(t));
                acts.push(
                    Action::Submit(
                        Intent::Send {
                            fd: cfd,
                            buf_index: e.buf_index,
                            offset: e.offset,
                            len: e.len,
                            token: t,
                        },
                    ),
                );
                proof {
                    let sd = *self;
                    let ii = i as int;
                    assert(sa.queue_owns(ii, 0, e.buf_index));
                    assert(sd.token_owns(t as int, e.buf_index));
                    assert forall|t2: int, bb: usize|
                        #[trigger] sd.token_owns(t2, bb) && !(t2 == t as int && bb
                            == e.buf_index) implies sa.token_owns(t2, bb) by {
                        if t2 == t as int {
                            assert(sd.tokens.slots()[t2] == Option::Some(Token::Write {
                                fd: cfd,
                                buf_index: e.buf_index,
                                offset: e.offset,
                                len: e.len,
                            }));
                        } else {
                            assert(sd.tokens.slots()[t2] == if t2 < sa.tokens.slots().len() {
                                sa.tokens.slots()[t2]
                            } else {
                                Option::<Token>::None
                            });
                        }
                    }
                    assert forall|j: int|
                        0 <= j < sa.conns().len() && j != ii implies #[trigger] sd.conns()[j]
                        == sa.conns()[j] by {}
                    assert(sd.conns()[ii].outbound@ == sa.conns()[ii].outbound@.drop_first());
                    assert forall|bb: usize|
                        #[trigger] sa.pool.acquired(bb) implies sd.pool.acquired(bb) by {}
                    lemma_ownership_queue_to_token(sa, sd, ii, t as int, e.buf_index);
                    assert(sa.tokens.slots()[sa.accept.token as int] is Some);
                    assert(t != sa.accept.token);
                    assert(sd.tokens.slots()[sd.accept.token as int] == Option::Some(
                        Token::Accept,
                    ));
                    assert forall|j: int| 0 <= j < sd.conns().len() implies {
                        let cc = #[trigger] sd.conns()[j];
                        &&& match cc.read_token {
                            Option::Some(t2) => t2 < sd.tokens.slots().len()
                                && match sd.tokens.slots()[t2 as int] {
                                Option::Some(Token::Poll { fd: f }) => f == cc.fd,
                                Option::Some(Token::Read { fd: f, buf_index: b2 }) => f == cc.fd,
                                _ => false,
                            },
                            Option::None => true,
                        }
                        &&& match cc.write_token {
                            Option::Some(t2) => t2 < sd.tokens.slots().len()
                                && match sd.tokens.slots()[t2 as int] {
                                Option::Some(
                                    Token::Write { fd: f, buf_index: b2, offset, len },
                                ) => f == cc.fd,
                                _ => false,
                            },
                            Option::None => true,
                        }
                    } by {
                        let cc = sd.conns()[j];
                        if j == ii {
                            assert(cc.write_token == Option::Some(t));
                            assert(cc.fd == cfd);
                            match cc.read_token {
                                Option::Some(t2) => {
                                    assert(sa.conns()[j].read_token == Option::Some(t2));
                                    assert(sa.tokens.slots()[t2 as int] is Some);
                                    assert(t2 != t);
                                    assert(sd.tokens.slots()[t2 as int] == sa.tokens.slots()[
                                        t2 as int
                                    ]);
                                },
                                Option::None => {},
                            }
                        } else {
                            assert(cc == sa.conns()[j]);
                            match cc.read_token {
                                Option::Some(t2) => {
                                    assert(sa.tokens.slots()[t2 as int] is Some);
                                    assert(t2 != t);
                                    assert(sd.tokens.slots()[t2 as int] == sa.tokens.slots()[
                                        t2 as int
                                    ]);
                                },
                                Option::None => {},
                            }
                            match cc.write_token {
                                Option::Some(t2) => {
                                    assert(sa.tokens.slots()[t2 as int] is Some);
                                    assert(t2 != t);
                                    assert(sd.tokens.slots()[t2 as int] == sa.tokens.slots()[
                                        t2 as int
                                    ]);
                                },
                                Option::None => {},
                            }
                        }
                    }
                    assert(sd.conn_tokens_ok());
                    assert forall|t2: int|
                        0 <= t2 < sd.tokens.slots().len() implies match #[trigger] sd.tokens.slots()[t2] {
                        Option::Some(
                            Token::Write { fd: f, buf_index: b2, offset, len },
                        ) => offset <= len <= sd.pool.contents(b2 as int).len(),
                        _ => true,
                    } by {
                        if t2 == t as int {
                            assert(sa.conns()[ii].outbound@[0] == e);
                            assert(e.offset <= e.len <= sa.pool.contents(e.buf_index as int).len());
                        } else {
                            assert(sd.tokens.slots()[t2] == if t2 < sa.tokens.slots().len() {
                                sa.tokens.slots()[t2]
                            } else {
                                Option::<Token>::None
                            });
                        }
                    }
                    assert forall|i2: int, k2: int|
                        0 <= i2 < sd.conns().len() && 0 <= k2 < sd.conns()[
                        i2].outbound@.len() implies {
                        let ee = #[trigger] sd.conns()[i2].outbound@[k2];
                        ee.offset <= ee.len <= sd.pool.contents(ee.buf_index as int).len()
                    } by {
                        let ee = sd.conns()[i2].outbound@[k2];
                        if i2 == ii {
                            assert(ee == sa.conns()[i2].outbound@[k2 + 1]);
                        } else {
                            assert(sd.conns()[i2] == sa.conns()[i2]);
                        }
                    }
                    assert(sd.cursors_ok());
                    assert(acts@.last() == Action::Submit(Intent::Send {
                        fd: cfd,
                        buf_index: e.buf_index,
                        offset: e.offset,
                        len: e.len,
                        token: t,
                    }));
                    assert(acts@.contains(Action::Submit(Intent::Send {
                        fd: cfd,
                        buf_index: e.buf_index,
                        offset: e.offset,
                        len: e.len,
                        token: t,
                    })));
                }
            }
            proof {
                let sn = *self;
                assert forall|j: int|
                    0 <= j < i + 1 && old(self).conns()[j].write_token is None && old(
                        self,
                    ).conns()[j].outbound@.len() > 0 implies {
                    let e = old(self).conns()[j].outbound@[0];
                    let c1 = #[trigger] sn.conns()[j];
                    &&& c1.outbound@ == old(self).conns()[j].outbound@.drop_first()
                    &&& c1.write_token is Some
                    &&& sn.tokens.slots()[c1.write_token.unwrap() as int] == Option::Some(
                        Token::Write {
                            fd: old(self).conns()[j].fd,
                            buf_index: e.buf_index,
                            offset: e.offset,
                            len: e.len,
                        },
                    )
                    &&& acts@.contains(
                        Action::Submit(Intent::Send {
                            fd: old(self).conns()[j].fd,
                            buf_index: e.buf_index,
                            offset: e.offset,
                            len: e.len,
                            token: c1.write_token.unwrap(),
                        }),
                    )
                } by {
                    let e = old(self).conns()[j].outbound@[0];
                    if j < i {
                        assert(sn.conns()[j] == sb.conns()[j]);
                        let c1 = sb.conns()[j];
                        assert(c1.write_token is Some);
                        let wt = c1.write_token.unwrap();
                        assert(sb.tokens.slots()[wt as int] is Some);
                        assert(sn.tokens.slots()[wt as int] == sb.tokens.slots()[wt as int]);
                        let x = Action::Submit(Intent::Send {
                            fd: old(self).conns()[j].fd,
                            buf_index: e.buf_index,
                            offset: e.offset,
                            len: e.len,
                            token: wt,
                        });
                        assert(acts0.contains(x));
                        let idx = choose|idx: int| 0 <= idx < acts0.len() && acts0[idx] == x;
                        assert(acts@[idx] == x);
                        assert(acts@.contains(x));
                    }
                }
            }
            i = i + 1;
        }
        acts
    }

    /// Writable dispatch: `n` bytes of the write in progress were written
    /// (more than the remainder is clamped away). A partial write keeps the
    /// cursor and resubmits the continuation. A finished write gives the
    /// buffer back to the pool and either moves the next outbound payload
    /// into the descriptor, replaced in place, or retires it — returning the
    /// connection to its pure read posture. A stale handle is ignored.
    pub fn on_write_done(&mut self, token_index: usize, n: usize) -> (acts: Vec<Action>)
        requires
            old(self).wf(),
        ensures
            final(self).wf(),
            final(self).config == old(self).config,
            final(self).backlog == old(self).backlog,
            final(self).accept == old(self).accept,
            final(self).conns().len() == old(self).conns().len(),
            ({
                let slot = if token_index < old(self).tokens.slots().len() {
                    old(self).tokens.slots()[token_index as int]
                } else {
                    Option::<Token>::None
                };
                match slot {
                    Option::Some(Token::Write { fd, buf_index, offset, len }) => {
                        if old(self).owns_write_slot(token_index as int, fd) {
                            let i = old(self).registry.index_of(fd);
                            let take = if n <= len - offset {
                                n as int
                            } else {
                                len - offset
                            };
                            if offset + take < len {
                                &&& final(self).tokens.slots()[token_index as int]
                                    == Option::Some(Token::Write {
                                    fd,
                                    buf_index,
                                    offset: (offset + take) as usize,
                                    len,
                                })
                                &&& final(self).conns() == old(self).conns()
                                &&& acts@ == seq![
                                    Action::Submit(Intent::Send {
                                        fd,
                                        buf_index,
                                        offset: (offset + take) as usize,
                                        len,
                                        token: token_index,
                                    }),
                                ]
                            } else {
                                if old(self).conns()[i].outbound@.len() > 0 {
                                    let e = old(self).conns()[i].outbound@[0];
                                    &&& final(self).tokens.slots()[token_index as int]
                                        == Option::Some(Token::Write {
                                        fd,
                                        buf_index: e.buf_index,
                                        offset: e.offset,
                                        len: e.len,
                                    })
                                    &&& final(self).conns()[i].outbound@ == old(self).conns()[
                                        i].outbound@.drop_first()
                                    &&& final(self).conns()[i].write_token == Option::Some(
                                        token_index,
                                    )
                                    &&& forall|j: int|
                                        0 <= j < old(self).conns().len() && j != i
                                            ==> #[trigger] final(self).conns()[j] == old(
                                            self,
                                        ).conns()[j]
                                    &&& acts@ == seq![
                                        Action::Submit(Intent::Send {
                                            fd,
                                            buf_index: e.buf_index,
                                            offset: e.offset,
                                            len: e.len,
                                            token: token_index,
                                        }),
                                    ]
                                } else {
                                    &&& token_index < final(self).tokens.slots().len()
                                    &&& final(self).tokens.slots()[token_index as int] is None
                                    &&& final(self).conns()[i].write_token is None
                                    &&& final(self).conns()[i].outbound@.len() == 0
                                    &&& forall|j: int|
                                        0 <= j < old(self).conns().len() && j != i
                                            ==> #[trigger] final(self).conns()[j] == old(
                                            self,
                                        ).conns()[j]
                                    &&& acts@.len() == 0
                                }
                            }
                        } else {
                            *final(self) == *old(self) && acts@.len() == 0
                        }
                    },
                    _ => *final(self) == *old(self) && acts@.len() == 0,
                }
            }),
    {
        match self.tokens.get(token_index) {
            Some(Token::Write { fd, buf_index, offset, len }) => {
                match self.registry.find(fd) {
                    Some(i) => {
                        let mine = match self.registry.get(i).write_token {
                            Some(wt) => wt == token_index,
                            None => false,
                        };
                        proof {
                            if mine {
                                assert(old(self).registry.index_of(fd) == i);
                                assert(old(self).owns_write_slot(token_index as int, fd));
                            } else {
                                assert(!old(self).owns_write_slot(token_index as int, fd)) by {
                                    if old(self).owns_write_slot(token_index as int, fd) {
                                        assert(old(self).registry.index_of(fd) == i);
                                    }
                                }
                            }
                        }
                        if mine {
                            proof {
                                assert(offset <= len <= old(self).pool.contents(
                                    buf_index as int,
                                ).len());
                            }
                            let take = if n <= len - offset {
                                n
                            } else {
                                len - offset
                            };
                            let newoff = offset + take;
                            if newoff < len {
                                self.tokens.set(
                                    token_index,
                                    Token::Write { fd, buf_index, offset: newoff, len },
                                );
                                proof {
                                    let s0 = *old(self);
                                    let s1 = *self;
                                    let ti = token_index as int;
                                    assert forall|t2: int, bb: usize|
                                        #[trigger] s1.token_owns(t2, bb) implies s0.token_owns(
                                        t2,
                                        bb,
                                    ) by {
                                        if t2 != ti {
                                            assert(s1.tokens.slots()[t2] == s0.tokens.slots()[t2]);
                                        }
                                    }
                                    assert forall|i2: int, k2: int, bb: usize|
                                        #[trigger] s1.queue_owns(i2, k2, bb) implies s0.queue_owns(
                                        i2,
                                        k2,
                                        bb,
                                    ) by {}
                                    assert forall|bb: usize|
                                        #[trigger] s0.pool.acquired(bb) implies s1.pool.acquired(
                                        bb,
                                    ) by {}
                                    lemma_ownership_shrink(s0, s1);
                                    assert(ti != s0.accept.token);
                                    assert forall|j: int| 0 <= j < s1.conns().len() implies {
                                        let cc = #[trigger] s1.conns()[j];
                                        &&& match cc.read_token {
                                            Option::Some(t2) => t2 < s1.tokens.slots().len()
                                                && match s1.tokens.slots()[t2 as int] {
                                                Option::Some(Token::Poll { fd: f }) => f == cc.fd,
                                                Option::Some(
                                                    Token::Read { fd: f, buf_index: b2 },
                                                ) => f == cc.fd,
                                                _ => false,
                                            },
                                            Option::None => true,
                                        }
                                        &&& match cc.write_token {
                                            Option::Some(t2) => t2 < s1.tokens.slots().len()
                                                && match s1.tokens.slots()[t2 as int] {
                                                Option::Some(
                                                    Token::Write {
                                                        fd: f,
                                                        buf_index: b2,
                                                        offset: o2,
                                                        len: l2,
                                                    },
                                                ) => f == cc.fd,
                                                _ => false,
                                            },
                                            Option::None => true,
                                        }
                                    } by {
                                        let cc = s1.conns()[j];
                                        assert(cc == s0.conns()[j]);
                                        match cc.read_token {
                                            Option::Some(t2) => {
                                                assert(t2 != token_index);
                                                assert(s1.tokens.slots()[t2 as int]
                                                    == s0.tokens.slots()[t2 as int]);
                                            },
                                            Option::None => {},
                                        }
                                        match cc.write_token {
                                            Option::Some(t2) => {
                                                if t2 != token_index {
                                                    assert(s1.tokens.slots()[t2 as int]
                                                        == s0.tokens.slots()[t2 as int]);
                                                } else {
                                                    assert(j == i);
                                                }
                                            },
                                            Option::None => {},
                                        }
                                    }
                                    assert(s1.conn_tokens_ok());
                                    assert forall|t2: int|
                                        0 <= t2 < s1.tokens.slots().len() implies match #[trigger] s1.tokens.slots()[t2] {
                                        Option::Some(
                                            Token::Write { fd: f, buf_index: b2, offset: o2, len: l2 },
                                        ) => o2 <= l2 <= s1.pool.contents(b2 as int).len(),
                                        _ => true,
                                    } by {
                                        if t2 != ti {
                                            assert(s1.tokens.slots()[t2] == s0.tokens.slots()[t2]);
                                        }
                                    }
                                    assert(s1.cursors_ok());
                                }
                                let mut acts: Vec<Action> = Vec::new();
                                acts.push(
                                    Action::Submit(
                                        Intent::Send {
                                            fd,
                                            buf_index,
                                            offset: newoff,
                                            len,
                                            token: token_index,
                                        },
                                    ),
                                );
                                acts
                            } else {
                                let ghost s0 = *old(self);
                                let popped = self.registry.pop_outbound(i);
                                match popped {
                                    Some(e) => {
                                        self.tokens.set(
                                            token_index,
                                            Token::Write {
                                                fd,
                                                buf_index: e.buf_index,
                                                offset: e.offset,
                                                len: e.len,
                                            },
                                        );
                                        let ghost s2 = *self;
                                        proof {
                                            let ti = token_index as int;
                                            let ii = i as int;
                                            assert(s0.queue_owns(ii, 0, e.buf_index));
                                            assert(s2.token_owns(ti, e.buf_index));
                                            assert forall|t2: int, bb: usize|
                                                #[trigger] s2.token_owns(t2, bb) && !(t2 == ti && bb
                                                    == e.buf_index) implies s0.token_owns(
                                                t2,
                                                bb,
                                            ) by {
                                                if t2 == ti {
                                                    assert(s2.tokens.slots()[t2] == Option::Some(
                                                        Token::Write {
                                                            fd,
                                                            buf_index: e.buf_index,
                                                            offset: e.offset,
                                                            len: e.len,
                                                        },
                                                    ));
                                                } else {
                                                    assert(s2.tokens.slots()[t2]
                                                        == s0.tokens.slots()[t2]);
                                                }
                                            }
                                            assert forall|j: int|
                                                0 <= j < s0.conns().len() && j
                                                    != ii implies #[trigger] s2.conns()[j]
                                                == s0.conns()[j] by {}
                                            assert(s2.conns()[ii].outbound@ == s0.conns()[
                                                ii].outbound@.drop_first());
                                            assert forall|bb: usize|
                                                #[trigger] s0.pool.acquired(
                                                    bb,
                                                ) implies s2.pool.acquired(bb) by {}
                                            lemma_ownership_queue_to_token(
                                                s0,
                                                s2,
                                                ii,
                                                ti,
                                                e.buf_index,
                                            );
                                            assert(ti != s0.accept.token);
                                            assert forall|j: int|
                                                0 <= j < s2.conns().len() implies {
                                                let cc = #[trigger] s2.conns()[j];
                                                &&& match cc.read_token {
                                                    Option::Some(t2) => t2 < s2.tokens.slots().len()
                                                        && match s2.tokens.slots()[t2 as int] {
                                                        Option::Some(Token::Poll { fd: f }) => f
                                                            == cc.fd,
                                                        Option::Some(
                                                            Token::Read { fd: f, buf_index: b2 },
                                                        ) => f == cc.fd,
                                                        _ => false,
                                                    },
                                                    Option::None => true,
                                                }
                                                &&& match cc.write_token {
                                                    Option::Some(t2) => t2 < s2.tokens.slots().len()
                                                        && match s2.tokens.slots()[t2 as int] {
                                                        Option::Some(
                                                            Token::Write {
                                                                fd: f,
                                                                buf_index: b2,
                                                                offset: o2,
                                                                len: l2,
                                                            },
                                                        ) => f == cc.fd,
                                                        _ => false,
                                                    },
                                                    Option::None => true,
                                                }
                                            } by {
                                                let cc = s2.conns()[j];
                                                if j == ii {
                                                    assert(same_but_outbound(
                                                        s2.conns()[j],
                                                        s0.conns()[j],
                                                    ));
                                                } else {
                                                    assert(cc == s0.conns()[j]);
                                                }
                                                match cc.read_token {
                                                    Option::Some(t2) => {
                                                        assert(t2 != token_index);
                                                        assert(s2.tokens.slots()[t2 as int]
                                                            == s0.tokens.slots()[t2 as int]);
                                                    },
                                                    Option::None => {},
                                                }
                                                match cc.write_token {
                                                    Option::Some(t2) => {
                                                        if t2 != token_index {
                                                            assert(s2.tokens.slots()[t2 as int]
                                                                == s0.tokens.slots()[t2 as int]);
                                                        } else {
                                                            assert(j == ii);
                                                        }
                                                    },
                                                    Option::None => {},
                                                }
                                            }
                                            assert(s2.conn_tokens_ok());
                                            assert forall|t2: int|
                                                0 <= t2 < s2.tokens.slots().len() implies match #[trigger] s2.tokens.slots()[t2] {
                                                Option::Some(
                                                    Token::Write {
                                                        fd: f,
                                                        buf_index: b2,
                                                        offset: o2,
                                                        len: l2,
                                                    },
                                                ) => o2 <= l2 <= s2.pool.contents(b2 as int).len(),
                                                _ => true,
                                            } by {
                                                if t2 == ti {
                                                    assert(s0.conns()[ii].outbound@[0] == e);
                                                    assert(e.offset <= e.len <= s0.pool.contents(
                                                        e.buf_index as int,
                                                    ).len());
                                                } else {
                                                    assert(s2.tokens.slots()[t2]
                                                        == s0.tokens.slots()[t2]);
                                                }
                                            }
                                            assert forall|i2: int, k2: int|
                                                0 <= i2 < s2.conns().len() && 0 <= k2 < s2.conns()[
                                                i2].outbound@.len() implies {
                                                let ee = #[trigger] s2.conns()[i2].outbound@[k2];
                                                ee.offset <= ee.len <= s2.pool.contents(
                                                    ee.buf_index as int,
                                                ).len()
                                            } by {
                                                let ee = s2.conns()[i2].outbound@[k2];
                                                if i2 == ii {
                                                    assert(ee == s0.conns()[i2].outbound@[k2 + 1]);
                                                } else {
                                                    assert(s2.conns()[i2] == s0.conns()[i2]);
                                                }
                                            }
                                            assert(s2.cursors_ok());
                                            assert(s2.pool.acquired(buf_index)) by {
                                                assert(s0.token_owns(ti, buf_index));
                                                assert(s0.owned(buf_index));
                                            }
                                        }
                                        self.pool.release(buf_index);
                                        proof {
                                            let ti = token_index as int;
                                            let s3 = *self;
                                            assert forall|t2: int, bb: usize|
                                                #[trigger] s3.token_owns(t2, bb) implies s2.token_owns(
                                                t2,
                                                bb,
                                            ) && bb != buf_index by {
                                                if bb == buf_index {
                                                    assert(s2.token_owns(t2, bb));
                                                    if t2 != ti {
                                                        assert(s0.token_owns(t2, bb));
                                                        assert(s0.token_owns(ti, buf_index));
                                                    } else {
                                                        assert(s2.tokens.slots()[ti]
                                                            == Option::Some(Token::Write {
                                                            fd,
                                                            buf_index: e.buf_index,
                                                            offset: e.offset,
                                                            len: e.len,
                                                        }));
                                                        assert(e.buf_index == buf_index);
                                                        assert(s0.queue_owns(
                                                            i as int,
                                                            0,
                                                            e.buf_index,
                                                        ));
                                                        assert(s0.token_owns(ti, buf_index));
                                                    }
                                                }
                                            }
                                            assert forall|i2: int, k2: int, bb: usize|
                                                #[trigger] s3.queue_owns(
                                                    i2,
                                                    k2,
                                                    bb,
                                                ) implies s2.queue_owns(i2, k2, bb) && bb
                                                != buf_index by {
                                                if bb == buf_index {
                                                    assert(s2.queue_owns(i2, k2, bb));
                                                    assert(s2.token_owns(ti, e.buf_index));
                                                    if i2 == i as int {
                                                        assert(s2.conns()[i2].outbound@[k2]
                                                            == s0.conns()[i2].outbound@[k2 + 1]);
                                                        assert(s0.queue_owns(i2, k2 + 1, bb));
                                                    } else {
                                                        assert(s0.queue_owns(i2, k2, bb));
                                                    }
                                                    assert(s0.token_owns(ti, buf_index));
                                                }
                                            }
                                            assert forall|bb: usize|
                                                bb != buf_index && #[trigger] s2.pool.acquired(
                                                    bb,
                                                ) implies s3.pool.acquired(bb) by {}
                                            lemma_ownership_drop(s2, s3, buf_index);
                                            assert forall|bb: usize|
                                                #[trigger] s2.pool.acquired(
                                                    bb,
                                                ) implies s3.pool.contents(bb as int)
                                                == s2.pool.contents(bb as int) by {}
                                            lemma_cursors_frame(s2, s3);
                                            assert(s3.conn_tokens_ok());
                                        }
                                        let mut acts: Vec<Action> = Vec::new();
                                        acts.push(
                                            Action::Submit(
                                                Intent::Send {
                                                    fd,
                                                    buf_index: e.buf_index,
                                                    offset: e.offset,
                                                    len: e.len,
                                                    token: token_index,
                                                },
                                            ),
                                        );
                                        acts
                                    },
                                    None => {
                                        self.registry.set_write_token(i, None);
                                        let ghost s1 = *self;
                                        proof {
                                            assert forall|t2: int, bb: usize|
                                                #[trigger] s1.token_owns(t2, bb) implies s0.token_owns(
                                                t2,
                                                bb,
                                            ) by {}
                                            assert forall|i2: int, k2: int, bb: usize|
                                                #[trigger] s1.queue_owns(
                                                    i2,
                                                    k2,
                                                    bb,
                                                ) implies s0.queue_owns(i2, k2, bb) by {
                                                if i2 == i as int {
                                                    assert(s1.conns()[i2].outbound@ == s0.conns()[
                                                        i2].outbound@);
                                                } else {
                                                    assert(s1.conns()[i2] == s0.conns()[i2]);
                                                }
                                            }
                                            assert forall|bb: usize|
                                                #[trigger] s0.pool.acquired(
                                                    bb,
                                                ) implies s1.pool.acquired(bb) by {}
                                            lemma_ownership_shrink(s0, s1);
                                            assert forall|j: int|
                                                0 <= j < s1.conns().len() implies {
                                                let cc = #[trigger] s1.conns()[j];
                                                &&& match cc.read_token {
                                                    Option::Some(t2) => t2 < s1.tokens.slots().len()
                                                        && match s1.tokens.slots()[t2 as int] {
                                                        Option::Some(Token::Poll { fd: f }) => f
                                                            == cc.fd,
                                                        Option::Some(
                                                            Token::Read { fd: f, buf_index: b2 },
                                                        ) => f == cc.fd,
                                                        _ => false,
                                                    },
                                                    Option::None => true,
                                                }
                                                &&& match cc.write_token {
                                                    Option::Some(t2) => t2 < s1.tokens.slots().len()
                                                        && match s1.tokens.slots()[t2 as int] {
                                                        Option::Some(
                                                            Token::Write {
                                                                fd: f,
                                                                buf_index: b2,
                                                                offset: o2,
                                                                len: l2,
                                                            },
                                                        ) => f == cc.fd,
                                                        _ => false,
                                                    },
                                                    Option::None => true,
                                                }
                                            } by {
                                                if j != i as int {
                                                    assert(s1.conns()[j] == s0.conns()[j]);
                                                }
                                            }
                                            assert(s1.conn_tokens_ok());
                                            assert forall|i2: int, k2: int|
                                                0 <= i2 < s1.conns().len() && 0 <= k2 < s1.conns()[
                                                i2].outbound@.len() implies {
                                                let ee = #[trigger] s1.conns()[i2].outbound@[k2];
                                                ee.offset <= ee.len <= s1.pool.contents(
                                                    ee.buf_index as int,
                                                ).len()
                                            } by {
                                                if i2 == i as int {
                                                    assert(s1.conns()[i2].outbound@ == s0.conns()[
                                                        i2].outbound@);
                                                    assert(s0.conns()[i2].outbound@[k2]
                                                        == s1.conns()[i2].outbound@[k2]);
                                                } else {
                                                    assert(s1.conns()[i2] == s0.conns()[i2]);
                                                }
                                            }
                                            assert(s1.cursors_ok());
                                            assert forall|j: int|
                                                0 <= j < s1.conns().len() implies (
                                            #[trigger] s1.conns()[j]).read_token
                                                != Option::Some(token_index) && s1.conns()[
                                                j].write_token != Option::Some(token_index) by {
                                                if j != i as int {
                                                    assert(s1.conns()[j] == s0.conns()[j]);
                                                    let cc = s0.conns()[j];
                                                    if cc.write_token == Option::Some(
                                                        token_index,
                                                    ) {
                                                        assert(cc.fd == fd);
                                                        assert(s0.conns()[j].fd == s0.conns()[
                                                            i as int
                                                        ].fd);
                                                    }
                                                    if cc.read_token == Option::Some(token_index) {
                                                        assert(match s0.tokens.slots()[
                                                            token_index as int
                                                        ] {
                                                            Option::Some(Token::Poll { fd: f }) => f
                                                                == cc.fd,
                                                            Option::Some(
                                                                Token::Read {
                                                                    fd: f,
                                                                    buf_index: b2,
                                                                },
                                                            ) => f == cc.fd,
                                                            _ => false,
                                                        });
                                                    }
                                                }
                                            }
                                        }
                                        self.retire_token(token_index);
                                        Vec::new()
                                    },
                                }
                            }
                        } else {
                            Vec::new()
                        }
                    },
                    None => {
                        proof {
                            assert(!old(self).owns_write_slot(token_index as int, fd));
                        }
                        Vec::new()
                    },
                }
            },
            _ => Vec::new(),
        }
    }

    /// A would-block or interrupted outcome: not an error. The operation is
    /// simply submitted again unchanged (for an accept, the standing target
    /// is raised so the next iteration re-arms it). A stale handle is
    /// ignored.
    pub fn on_transient(&mut self, token_index: usize) -> (acts: Vec<Action>)
        requires
            old(self).wf(),
        ensures
            final(self).wf(),
            final(self).registry == old(self).registry,
            final(self).pool == old(self).pool,
            final(self).tokens == old(self).tokens,
            final(self).backlog == old(self).backlog,
            final(self).config == old(self).config,
            final(self).accept.fd == old(self).accept.fd,
            final(self).accept.token == old(self).accept.token,
            ({
                let slot = if token_index < old(self).tokens.slots().len() {
                    old(self).tokens.slots()[token_index as int]
                } else {
                    Option::<Token>::None
                };
                match slot {
                    Option::Some(Token::Accept) => final(self).accept.count as int == (if old(
                        self,
                    ).accept.count < old(self).config.accept_concurrency {
                        old(self).accept.count + 1
                    } else {
                        old(self).accept.count as int
                    }) && acts@.len() == 0,
                    Option::Some(Token::Poll { fd }) => final(self).accept == old(self).accept
                        && acts@ == (if old(self).owns_read_slot(token_index as int, fd) {
                        seq![Action::Submit(Intent::Poll { fd, token: token_index })]
                    } else {
                        Seq::<Action>::empty()
                    }),
                    Option::Some(Token::Read { fd, buf_index }) => final(self).accept == old(
                        self,
                    ).accept && acts@ == (if old(self).owns_read_slot(token_index as int, fd) {
                        seq![
                            Action::Submit(Intent::Recv { fd, buf_index, token: token_index }),
                        ]
                    } else {
                        Seq::<Action>::empty()
                    }),
                    Option::Some(Token::Write { fd, buf_index, offset, len }) => final(self).accept
                        == old(self).accept && acts@ == (if old(self).owns_write_slot(
                        token_index as int,
                        fd,
                    ) {
                        seq![
                            Action::Submit(Intent::Send {
                                fd,
                                buf_index,
                                offset,
                                len,
                                token: token_index,
                            }),
                        ]
                    } else {
                        Seq::<Action>::empty()
                    }),
                    Option::None => final(self).accept == old(self).accept && acts@.len() == 0,
                }
            }),
    {
        let acts = match self.tokens.get(token_index) {
            Some(Token::Accept) => {
                if self.accept.count < self.config.accept_concurrency {
                    self.accept.count = self.accept.count + 1;
                }
                Vec::new()
            },
            Some(Token::Poll { fd }) => {
                let mut acts: Vec<Action> = Vec::new();
                if self.read_slot_of(fd, token_index) {
                    acts.push(Action::Submit(Intent::Poll { fd, token: token_index }));
                }
                acts
            },
            Some(Token::Read { fd, buf_index }) => {
                let mut acts: Vec<Action> = Vec::new();
                if self.read_slot_of(fd, token_index) {
                    acts.push(
                        Action::Submit(Intent::Recv { fd, buf_index, token: token_index }),
                    );
                }
                acts
            },
            Some(Token::Write { fd, buf_index, offset, len }) => {
                let mut acts: Vec<Action> = Vec::new();
                if self.write_slot_of(fd, token_index) {
                    acts.push(
                        Action::Submit(
                            Intent::Send { fd, buf_index, offset, len, token: token_index },
                        ),
                    );
                }
                acts
            },
            None => Vec::new(),
        };
        proof {
            lemma_wf_frame(*old(self), *self);
        }
        acts
    }

    /// Whether `t` is the read-side descriptor slot of the live connection
    /// owning `fd`.
    fn read_slot_of(&self, fd: i32, t: usize) -> (r: bool)
        requires
            self.wf(),
        ensures
            r == self.owns_read_slot(t as int, fd),
    {
        match self.registry.find(fd) {
            Some(i) => {
                proof {
                    assert(self.registry.index_of(fd) == i);
                }
                match self.registry.get(i).read_token {
                    Some(rt) => rt == t,
                    None => false,
                }
            },
            None => false,
        }
    }

    /// Whether `t` is the write-side descriptor slot of the live connection
    /// owning `fd`.
    fn write_slot_of(&self, fd: i32, t: usize) -> (r: bool)
        requires
            self.wf(),
        ensures
            r == self.owns_write_slot(t as int, fd),
    {
        match self.registry.find(fd) {
            Some(i) => {
                proof {
                    assert(self.registry.index_of(fd) == i);
                }
                match self.registry.get(i).write_token {
                    Some(wt) => wt == t,
                    None => false,
                }
            },
            None => false,
        }
    }

    /// Error dispatch: a failed operation on a connection descriptor is
    /// connection-fatal — that connection alone is torn down, its descriptor
    /// closed, unconditionally and never retried. A failed accept keeps the
    /// listener armed. A stale handle is ignored.
    pub fn on_failed(&mut self, token_index: usize) -> (acts: Vec<Action>)
        requires
            old(self).wf(),
        ensures
            final(self).wf(),
            final(self).config == old(self).config,
            final(self).backlog == old(self).backlog,
            final(self).accept.fd == old(self).accept.fd,
            final(self).accept.token == old(self).accept.token,
            ({
                let slot = if token_index < old(self).tokens.slots().len() {
                    old(self).tokens.slots()[token_index as int]
                } else {
                    Option::<Token>::None
                };
                match slot {
                    Option::Some(Token::Accept) => final(self).registry == old(self).registry
                        && final(self).pool == old(self).pool && final(self).tokens == old(
                        self,
                    ).tokens && final(self).accept.count as int == (if old(self).accept.count < old(
                        self,
                    ).config.accept_concurrency {
                        old(self).accept.count + 1
                    } else {
                        old(self).accept.count as int
                    }) && acts@.len() == 0,
                    Option::Some(Token::Poll { fd }) => if old(self).owns_read_slot(
                        token_index as int,
                        fd,
                    ) {
                        &&& !final(self).registry.contains_fd(fd)
                        &&& final(self).conns() == old(self).conns().remove(
                            old(self).registry.index_of(fd),
                        )
                        &&& acts@ == seq![Action::Close(fd)]
                    } else {
                        *final(self) == *old(self) && acts@.len() == 0
                    },
                    Option::Some(Token::Read { fd, buf_index }) => if old(self).owns_read_slot(
                        token_index as int,
                        fd,
                    ) {
                        &&& !final(self).registry.contains_fd(fd)
                        &&& final(self).conns() == old(self).conns().remove(
                            old(self).registry.index_of(fd),
                        )
                        &&& acts@ == seq![Action::Close(fd)]
                    } else {
                        *final(self) == *old(self) && acts@.len() == 0
                    },
                    Option::Some(Token::Write { fd, buf_index, offset, len }) => if old(
                        self,
                    ).owns_write_slot(token_index as int, fd) {
                        &&& !final(self).registry.contains_fd(fd)
                        &&& final(self).conns() == old(self).conns().remove(
                            old(self).registry.index_of(fd),
                        )
                        &&& acts@ == seq![Action::Close(fd)]
                    } else {
                        *final(self) == *old(self) && acts@.len() == 0
                    },
                    Option::None => *final(self) == *old(self) && acts@.len() == 0,
                }
            }),
    {
        match self.tokens.get(token_index) {
            Some(Token::Accept) => {
                if self.accept.count < self.config.accept_concurrency {
                    self.accept.count = self.accept.count + 1;
                }
                proof {
                    lemma_wf_frame(*old(self), *self);
                }
                Vec::new()
            },
            Some(Token::Poll { fd }) => {
                if self.read_slot_of(fd, token_index) {
                    let i = match self.registry.find(fd) {
                        Some(i) => i,
                        None => {
                            proof {
                                assert(false);
                            }
                            vstd::pervasive::unreached()
                        },
                    };
                    proof {
                        assert(old(self).registry.index_of(fd) == i);
                    }
                    let cfd = self.close_connection(i);
                    let mut acts: Vec<Action> = Vec::new();
                    acts.push(Action::Close(cfd));
                    acts
                } else {
                    Vec::new()
                }
            },
            Some(Token::Read { fd, buf_index }) => {
                if self.read_slot_of(fd, token_index) {
                    let i = match self.registry.find(fd) {
                        Some(i) => i,
                        None => {
                            proof {
                                assert(false);
                            }
                            vstd::pervasive::unreached()
                        },
                    };
                    proof {
                        assert(old(self).registry.index_of(fd) == i);
                    }
                    let cfd = self.close_connection(i);
                    let mut acts: Vec<Action> = Vec::new();
                    acts.push(Action::Close(cfd));
                    acts
                } else {
                    Vec::new()
                }
            },
            Some(Token::Write { fd, buf_index, offset, len }) => {
                if self.write_slot_of(fd, token_index) {
                    let i = match self.registry.find(fd) {
                        Some(i) => i,
                        None => {
                            proof {
                                assert(false);
                            }
                            vstd::pervasive::unreached()
                        },
                    };
                    proof {
                        assert(old(self).registry.index_of(fd) == i);
                    }
                    let cfd = self.close_connection(i);
                    let mut acts: Vec<Action> = Vec::new();
                    acts.push(Action::Close(cfd));
                    acts
                } else {
                    Vec::new()
                }
            },
            None => Vec::new(),
        }
    }

    /// Step (d) of the loop: dispatch one completion event by the kind of
    /// its operation descriptor. The per-event guarantees are those of the
    /// handler each arm delegates to; stated here: an accepted descriptor is
    /// registered (and nothing already registered is lost), and a read of
    /// zero bytes on a live read descriptor leaves its connection absent
    /// from the registry.
    pub fn handle_event(&mut self, ev: Event) -> (acts: Vec<Action>)
        requires
            old(self).wf(),
        ensures
            final(self).wf(),
            final(self).config == old(self).config,
            final(self).backlog == old(self).backlog,
            ev matches Event::Accepted { fd, peer_ip, peer_port } ==> final(self).registry.contains_fd(fd) && (forall|g: i32|
                #[trigger] old(self).registry.contains_fd(g) ==> final(self).registry.contains_fd(
                    g,
                )),
            ({
                match ev {
                    Event::ReadDone { token_index, data } => data@.len() == 0 && (match (if token_index
                        < old(self).tokens.slots().len() {
                        old(self).tokens.slots()[token_index as int]
                    } else {
                        Option::<Token>::None
                    }) {
                        Option::Some(Token::Read { fd, buf_index }) => old(self).owns_read_slot(
                            token_index as int,
                            fd,
                        ) && !final(self).registry.contains_fd(fd),
                        _ => false,
                    }) || data@.len() > 0 || (match (if token_index < old(
                        self,
                    ).tokens.slots().len() {
                        old(self).tokens.slots()[token_index as int]
                    } else {
                        Option::<Token>::None
                    }) {
                        Option::Some(Token::Read { fd, buf_index }) => !old(self).owns_read_slot(
                            token_index as int,
                            fd,
                        ),
                        _ => true,
                    }),
                    _ => true,
                }
            }),
    {
        match ev {
            Event::Accepted { fd, peer_ip, peer_port } => self.on_accepted(fd, peer_ip, peer_port),
            Event::Ready { token_index } => self.on_ready(token_index),
            Event::ReadDone { token_index, data } => self.on_read_done(token_index, data),
            Event::WriteDone { token_index, n } => self.on_write_done(token_index, n),
            Event::Transient { token_index } => self.on_transient(token_index),
            Event::Failed { token_index } => self.on_failed(token_index),
        }
    }
}

} // verus!
