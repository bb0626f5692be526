use vstd::prelude::*;

verus! {

/// A bounded pool of reusable byte buffers.
///
/// Every buffer the pool has ever handed out keeps a stable index; `idle`
/// holds the indices that are currently free for reuse. When `cap` is
/// `Some(c)`, at most `c` buffers are ever allocated and `acquire` fails once
/// all of them are in use; when `cap` is `None`, the pool grows on demand and
/// `acquire` always succeeds.
pub struct BufferPool {
    bufs: Vec<Vec<u8>>,
    idle: Vec<usize>,
    cap: Option<usize>,
    buf_size: usize,
}

impl BufferPool {
    /// Number of buffers allocated so far; valid indices are `0 .. n_bufs()`.
    pub closed spec fn n_bufs(self) -> nat {
        self.bufs@.len()
    }

    /// The bytes currently stored in buffer `i`.
    pub closed spec fn contents(self, i: int) -> Seq<u8> {
        self.bufs@[i]@
    }

    /// Buffer `i` is in the idle (free) set.
    pub closed spec fn is_idle(self, i: usize) -> bool {
        self.idle@.contains(i)
    }

    /// Number of buffers currently idle.
    pub closed spec fn n_idle(self) -> nat {
        self.idle@.len()
    }

    /// Buffer `i` is allocated and currently held by some component.
    pub open spec fn acquired(self, i: usize) -> bool {
        i < self.n_bufs() && !self.is_idle(i)
    }

    /// The configured hard capacity, if any.
    pub closed spec fn cap_spec(self) -> Option<usize> {
        self.cap
    }

    /// The length a freshly allocated buffer starts with.
    pub closed spec fn buf_size_spec(self) -> nat {
        self.buf_size as nat
    }

    /// Another allocation is still permitted by the capacity policy.
    pub open spec fn has_room(self) -> bool {
        match self.cap_spec() {
            Option::None => true,
            Option::Some(c) => self.n_bufs() < c,
        }
    }

    /// `acquire` is owed success exactly under this condition.
    pub open spec fn can_acquire(self) -> bool {
        self.n_idle() > 0 || self.has_room()
    }

    pub closed spec fn wf(self) -> bool {
        &&& forall|k: int|
            0 <= k < self.idle@.len() ==> (#[trigger] self.idle@[k]) < self.bufs@.len()
        &&& forall|k1: int, k2: int|
            0 <= k1 < self.idle@.len() && 0 <= k2 < self.idle@.len()
                && self.idle@[k1] == self.idle@[k2] ==> k1 == k2
        &&& match self.cap {
            Option::None => true,
            Option::Some(c) => self.bufs@.len() <= c,
        }
    }

    pub fn new(cap: Option<usize>, buf_size: usize) -> (r: BufferPool)
        ensures
            r.wf(),
            r.n_bufs() == 0,
            r.n_idle() == 0,
            r.cap_spec() == cap,
            r.buf_size_spec() == buf_size as nat,
    {
        BufferPool { bufs: Vec::new(), idle: Vec::new(), cap, buf_size }
    }

    /// Buffers allocated so far.
    pub fn buf_count(&self) -> (r: usize)
        ensures
            r == self.n_bufs(),
    {
        self.bufs.len()
    }

    /// Buffers currently idle.
    pub fn idle_count(&self) -> (r: usize)
        ensures
            r == self.n_idle(),
    {
        self.idle.len()
    }

    /// Whether `acquire` would succeed right now.
    pub fn can_acquire_now(&self) -> (r: bool)
        ensures
            r == self.can_acquire(),
    {
        if self.idle.len() > 0 {
            true
        } else {
            match self.cap {
                None => true,
                Some(c) => self.bufs.len() < c,
            }
        }
    }

    /// Hand out an idle buffer if one exists, else allocate a new one unless
    /// the hard capacity is reached. Failing (rather than blocking) beyond
    /// capacity is this pool's documented policy.
    pub fn acquire(&mut self) -> (r: Option<usize>)
        requires
            old(self).wf(),
        ensures
            final(self).wf(),
            final(self).cap_spec() == old(self).cap_spec(),
            final(self).buf_size_spec() == old(self).buf_size_spec(),
            r is Some <==> old(self).can_acquire(),
            match r {
                Option::Some(i) => {
                    &&& final(self).acquired(i)
                    &&& (old(self).is_idle(i) || i == old(self).n_bufs())
                    &&& !old(self).acquired(i)
                    &&& final(self).n_bufs() == if old(self).is_idle(i) {
                        old(self).n_bufs()
                    } else {
                        old(self).n_bufs() + 1
                    }
                    &&& forall|j: usize|
                        j != i ==> (#[trigger] final(self).is_idle(j) <==> old(self).is_idle(j))
                    &&& !final(self).is_idle(i)
                    &&& forall|j: int|
                        0 <= j < old(self).n_bufs() ==> #[trigger] final(self).contents(j)
                            == old(self).contents(j)
                    &&& !old(self).is_idle(i) ==> final(self).contents(
                        i as int,
                    ) == Seq::<u8>::new(old(self).buf_size_spec(), |k: int| 0u8)
                },
                Option::None => {
                    &&& final(self).n_bufs() == old(self).n_bufs()
                    &&& final(self).n_idle() == old(self).n_idle()
                    &&& forall|j: usize|
                        #[trigger] final(self).is_idle(j) <==> old(self).is_idle(j)
                    &&& forall|j: int|
                        0 <= j < old(self).n_bufs() ==> #[trigger] final(self).contents(j)
                            == old(self).contents(j)
                },
            },
    {
        match self.idle.pop() {
            Some(i) => {
                assert(old(self).idle@.contains(i)) by {
                    assert(old(self).idle@[old(self).idle@.len() - 1] == i);
                }
                assert(forall|j: usize|
                    #[trigger] self.idle@.contains(j) ==> old(self).idle@.contains(j)) by {
                    assert(forall|k: int|
                        0 <= k < self.idle@.len() ==> self.idle@[k] == old(self).idle@[k]);
                }
                assert(!self.idle@.contains(i)) by {
                    if self.idle@.contains(i) {
                        let k = choose|k: int| 0 <= k < self.idle@.len() && self.idle@[k] == i;
                        assert(old(self).idle@[k] == old(self).idle@[old(self).idle@.len() - 1]);
                    }
                }
                assert(forall|j: usize|
                    j != i && old(self).idle@.contains(j) ==> #[trigger] self.idle@.contains(j))
                    by {
                    assert forall|j: usize|
                        j != i && old(self).idle@.contains(j) implies #[trigger] self.idle@.contains(
                        j,
                    ) by {
                        let k = choose|k: int|
                            0 <= k < old(self).idle@.len() && old(self).idle@[k] == j;
                        assert(k < old(self).idle@.len() - 1);
                        assert(self.idle@[k] == j);
                    }
                }
                Some(i)
            },
            None => {
                let can_grow = match self.cap {
                    None => true,
                    Some(c) => self.bufs.len() < c,
                };
                if can_grow {
                    let i = self.bufs.len();
                    let fresh: Vec<u8> = vec![0u8; self.buf_size];
                    self.bufs.push(fresh);
                    assert(forall|j: usize|
                        #[trigger] final(self).is_idle(j) <==> old(self).is_idle(j));
                    assert(forall|j: int|
                        0 <= j < old(self).n_bufs() ==> final(self).contents(j) == old(
                            self,
                        ).contents(j));
                    Some(i)
                } else {
                    None
                }
            },
        }
    }

    /// Return buffer `i` to the idle set; its contents are undefined to the
    /// caller from here on (they are only overwritten on reuse).
    pub fn release(&mut self, i: usize)
        requires
            old(self).wf(),
            old(self).acquired(i),
        ensures
            final(self).wf(),
            final(self).cap_spec() == old(self).cap_spec(),
            final(self).buf_size_spec() == old(self).buf_size_spec(),
            final(self).n_bufs() == old(self).n_bufs(),
            final(self).n_idle() == old(self).n_idle() + 1,
            forall|j: usize|
                #[trigger] final(self).is_idle(j) <==> (old(self).is_idle(j) || j == i),
            forall|j: int|
                0 <= j < old(self).n_bufs() ==> #[trigger] final(self).contents(j) == old(
                    self,
                ).contents(j),
    {
        self.idle.push(i);
        assert forall|j: usize| #[trigger]
            final(self).is_idle(j) <==> (old(self).is_idle(j) || j == i) by {
            if final(self).is_idle(j) {
                let k = choose|k: int| 0 <= k < self.idle@.len() && self.idle@[k] == j;
                if k < old(self).idle@.len() {
                    assert(old(self).idle@[k] == j);
                }
            }
            if old(self).is_idle(j) {
                let k = choose|k: int|
                    0 <= k < old(self).idle@.len() && old(self).idle@[k] == j;
                assert(self.idle@[k] == j);
            }
            if j == i {
                assert(self.idle@[self.idle@.len() - 1] == i);
            }
        }
    }

    /// Overwrite the contents of buffer `i`.
    pub fn store(&mut self, i: usize, data: Vec<u8>)
        requires
            old(self).wf(),
            i < old(self).n_bufs(),
        ensures
            final(self).wf(),
            final(self).cap_spec() == old(self).cap_spec(),
            final(self).buf_size_spec() == old(self).buf_size_spec(),
            final(self).n_bufs() == old(self).n_bufs(),
            final(self).n_idle() == old(self).n_idle(),
            forall|j: usize| #[trigger] final(self).is_idle(j) <==> old(self).is_idle(j),
            final(self).contents(i as int) == data@,
            forall|j: int|
                0 <= j < old(self).n_bufs() && j != i ==> #[trigger] final(self).contents(j)
                    == old(self).contents(j),
    {
        self.bufs[i] = data;
    }

    /// Copy the contents of buffer `i` out of the pool.
    pub fn copy_out(&self, i: usize) -> (r: Vec<u8>)
        requires
            i < self.n_bufs(),
        ensures
            r@ == self.contents(i as int),
    {
        let src = &self.bufs[i];
        let mut out: Vec<u8> = Vec::new();
        let mut k: usize = 0;
        while k < src.len()
            invariant
                k <= src@.len(),
                out@ == src@.subrange(0, k as int),
            decreases src@.len() - k,
        {
            out.push(src[k]);
            assert(out@ == src@.subrange(0, k + 1 as int));
            k = k + 1;
        }
        assert(src@.subrange(0, src@.len() as int) == src@);
        out
    }

    /// Acquire a buffer and store `data` in it, in one step; `None` exactly
    /// when the pool is exhausted.
    pub fn acquire_with(&mut self, data: &Vec<u8>) -> (r: Option<usize>)
        requires
            old(self).wf(),
        ensures
            final(self).wf(),
            final(self).cap_spec() == old(self).cap_spec(),
            final(self).buf_size_spec() == old(self).buf_size_spec(),
            r is Some <==> old(self).can_acquire(),
            match r {
                Option::Some(i) => {
                    &&& final(self).acquired(i)
                    &&& !old(self).acquired(i)
                    &&& old(self).n_bufs() <= final(self).n_bufs()
                    &&& i < final(self).n_bufs()
                    &&& forall|j: usize|
                        j != i ==> (#[trigger] final(self).is_idle(j) <==> old(self).is_idle(j))
                    &&& forall|j: int|
                        0 <= j < old(self).n_bufs() && j != i ==> #[trigger] final(self).contents(
                            j,
                        ) == old(self).contents(j)
                    &&& final(self).contents(i as int) == data@
                },
                Option::None => {
                    &&& final(self).n_bufs() == old(self).n_bufs()
                    &&& final(self).n_idle() == old(self).n_idle()
                    &&& forall|j: usize|
                        #[trigger] final(self).is_idle(j) <==> old(self).is_idle(j)
                    &&& forall|j: int|
                        0 <= j < old(self).n_bufs() ==> #[trigger] final(self).contents(j) == old(
                            self,
                        ).contents(j)
                },
            },
    {
        match self.acquire() {
            Some(i) => {
                let cp = copy_bytes(data);
                self.store(i, cp);
                Some(i)
            },
            None => None,
        }
    }

    /// Length of the bytes stored in buffer `i`.
    pub fn stored_len(&self, i: usize) -> (r: usize)
        requires
            i < self.n_bufs(),
        ensures
            r == self.contents(i as int).len(),
    {
        self.bufs[i].len()
    }
}

/// Copy a byte payload (each recipient gets its own copy).
pub fn copy_bytes(src: &Vec<u8>) -> (r: Vec<u8>)
    ensures
        r@ == src@,
{
    let mut out: Vec<u8> = Vec::new();
    let mut k: usize = 0;
    while k < src.len()
        invariant
            k <= src@.len(),
            out@ == src@.subrange(0, k as int),
        decreases src@.len() - k,
    {
        out.push(src[k]);
        assert(out@ == src@.subrange(0, k + 1 as int));
        k = k + 1;
    }
    assert(src@.subrange(0, src@.len() as int) == src@);
    out
}

} // verus!
