use vstd::prelude::*;

verus! {

/// An operation descriptor: the kind of in-flight asynchronous operation a
/// completion identifier refers to, the descriptor it targets and, for a
/// write, the cursor into the payload (`offset` bytes already written out of
/// `len`).
#[derive(Clone, Copy, PartialEq, Eq, Structural, Debug)]
pub enum Token {
    Accept,
    Poll { fd: i32 },
    Read { fd: i32, buf_index: usize },
    Write { fd: i32, buf_index: usize, offset: usize, len: usize },
}

/// An arena of descriptor slots with a free list. A slot index is the opaque
/// handle carried as completion user data; it stays stable until the
/// operation's completion is processed.
pub struct TokenArena {
    slots: Vec<Option<Token>>,
    free: Vec<usize>,
}

impl TokenArena {
    pub closed spec fn slots(self) -> Seq<Option<Token>> {
        self.slots@
    }

    pub closed spec fn free_list(self) -> Seq<usize> {
        self.free@
    }

    /// Slot `t` holds a live descriptor.
    pub open spec fn is_live(self, t: int) -> bool {
        0 <= t < self.slots().len() && self.slots()[t] is Some
    }

    pub closed spec fn wf(self) -> bool {
        &&& forall|k: int|
            0 <= k < self.free@.len() ==> (#[trigger] self.free@[k]) < self.slots@.len()
        &&& forall|k1: int, k2: int|
            0 <= k1 < self.free@.len() && 0 <= k2 < self.free@.len() && self.free@[k1]
                == self.free@[k2] ==> k1 == k2
        &&& forall|k: int|
            0 <= k < self.free@.len() ==> self.slots@[#[trigger] self.free@[k] as int] is None
    }

    pub fn new() -> (r: TokenArena)
        ensures
            r.wf(),
            r.slots().len() == 0,
    {
        TokenArena { slots: Vec::new(), free: Vec::new() }
    }

    /// Store a fresh descriptor, reusing a free slot when one exists. The
    /// returned handle was not live before and is live now; every other slot
    /// is untouched.
    pub fn insert(&mut self, tok: Token) -> (t: usize)
        requires
            old(self).wf(),
        ensures
            final(self).wf(),
            !old(self).is_live(t as int),
            t < final(self).slots().len(),
            final(self).slots()[t as int] == Option::Some(tok),
            old(self).slots().len() <= final(self).slots().len(),
            forall|j: int|
                0 <= j < final(self).slots().len() && j != t ==> #[trigger] final(self).slots()[j]
                    == if j < old(self).slots().len() {
                    old(self).slots()[j]
                } else {
                    Option::<Token>::None
                },
            final(self).slots().len() == if t < old(self).slots().len() {
                old(self).slots().len()
            } else {
                old(self).slots().len() + 1
            },
    {
        match self.free.pop() {
            Some(t) => {
                assert(old(self).free_list()[old(self).free_list().len() - 1] == t);
                self.slots[t] = Some(tok);
                assert forall|k: int|
                    0 <= k < self.free@.len() implies self.slots@[#[trigger] self.free@[
                    k] as int] is None by {
                    assert(old(self).free_list()[k] == self.free@[k]);
                    assert(self.free@[k] != t);
                }
                t
            },
            None => {
                let t = self.slots.len();
                self.slots.push(Some(tok));
                t
            },
        }
    }

    /// Replace the descriptor in live slot `t` (the connection moved to its
    /// next logical step; the handle stays stable).
    pub fn set(&mut self, t: usize, tok: Token)
        requires
            old(self).wf(),
            old(self).is_live(t as int),
        ensures
            final(self).wf(),
            final(self).slots().len() == old(self).slots().len(),
            final(self).slots()[t as int] == Option::Some(tok),
            forall|j: int|
                0 <= j < old(self).slots().len() && j != t ==> #[trigger] final(self).slots()[j]
                    == old(self).slots()[j],
    {
        self.slots[t] = Some(tok);
        assert forall|k: int|
            0 <= k < self.free@.len() implies self.slots@[#[trigger] self.free@[k] as int]
            is None by {
            assert(old(self).slots()[self.free@[k] as int] is None);
        }
    }

    /// Retire live slot `t` and put it back on the free list.
    pub fn remove(&mut self, t: usize)
        requires
            old(self).wf(),
            old(self).is_live(t as int),
        ensures
            final(self).wf(),
            final(self).slots().len() == old(self).slots().len(),
            final(self).slots()[t as int] is None,
            forall|j: int|
                0 <= j < old(self).slots().len() && j != t ==> #[trigger] final(self).slots()[j]
                    == old(self).slots()[j],
    {
        self.slots[t] = None;
        self.free.push(t);
        assert forall|k1: int, k2: int|
            0 <= k1 < self.free@.len() && 0 <= k2 < self.free@.len() && self.free@[k1]
                == self.free@[k2] implies k1 == k2 by {
            if k1 < old(self).free_list().len() && k2 < old(self).free_list().len() {
                assert(old(self).free_list()[k1] == old(self).free_list()[k2]);
            } else if k1 < old(self).free_list().len() {
                assert(old(self).slots()[old(self).free_list()[k1] as int] is None);
            } else if k2 < old(self).free_list().len() {
                assert(old(self).slots()[old(self).free_list()[k2] as int] is None);
            }
        }
        assert forall|k: int|
            0 <= k < self.free@.len() implies self.slots@[#[trigger] self.free@[k] as int]
            is None by {
            if k < old(self).free_list().len() {
                assert(old(self).slots()[self.free@[k] as int] is None);
                assert(self.free@[k] == old(self).free_list()[k]);
            }
        }
    }

    /// Read the descriptor in slot `t`; a stale or out-of-range handle gives
    /// `None` so the caller can ignore the event.
    pub fn get(&self, t: usize) -> (r: Option<Token>)
        ensures
            r == if t < self.slots().len() {
                self.slots()[t as int]
            } else {
                Option::<Token>::None
            },
    {
        if t < self.slots.len() {
            self.slots[t]
        } else {
            None
        }
    }
}

} // verus!
