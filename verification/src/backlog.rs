use vstd::prelude::*;

verus! {

/// One operation intent, ready to be turned into a submission-queue entry by
/// the surrounding program. `token` is the arena index carried as user data,
/// so the completion can be routed back to its operation descriptor.
#[derive(Clone, Copy, PartialEq, Eq, Structural, Debug)]
pub enum Intent {
    Accept { token: usize },
    Poll { fd: i32, token: usize },
    Recv { fd: i32, buf_index: usize, token: usize },
    Send { fd: i32, buf_index: usize, offset: usize, len: usize, token: usize },
}

pub open spec fn min_nat(a: nat, b: nat) -> nat {
    if a < b {
        a
    } else {
        b
    }
}

/// FIFO queue of intents that failed to submit because the OS submission
/// channel was full. `push` always succeeds (the backlog is unbounded by
/// design, trading memory for guaranteed eventual submission); `drain`
/// removes entries from the front while the channel has room.
pub struct Backlog {
    entries: Vec<Intent>,
}

/// What one drain step hands to a channel with `free` open slots.
pub open spec fn drained(entries: Seq<Intent>, free: nat) -> Seq<Intent> {
    entries.take(min_nat(free, entries.len()) as int)
}

/// What one drain step leaves queued.
pub open spec fn left(entries: Seq<Intent>, free: nat) -> Seq<Intent> {
    entries.skip(min_nat(free, entries.len()) as int)
}

/// Everything submitted over a run of drain steps whose open-slot counts are
/// `frees`, in submission order.
pub open spec fn submitted_over(entries: Seq<Intent>, frees: Seq<nat>) -> Seq<Intent>
    decreases frees.len(),
{
    if frees.len() == 0 {
        Seq::<Intent>::empty()
    } else {
        drained(entries, frees[0]) + submitted_over(left(entries, frees[0]), frees.drop_first())
    }
}

/// What is still queued after that same run.
pub open spec fn left_over(entries: Seq<Intent>, frees: Seq<nat>) -> Seq<Intent>
    decreases frees.len(),
{
    if frees.len() == 0 {
        entries
    } else {
        left_over(left(entries, frees[0]), frees.drop_first())
    }
}

/// Backlog eventual drain: over any run of loop iterations in which the
/// submission channel reports at least one open slot, and which is at least
/// as long as the backlog, every queued entry is submitted, in FIFO order,
/// and none is dropped.
pub proof fn lemma_backlog_eventual_drain(entries: Seq<Intent>, frees: Seq<nat>)
    requires
        forall|i: int| 0 <= i < frees.len() ==> (#[trigger] frees[i]) >= 1,
        frees.len() >= entries.len(),
    ensures
        left_over(entries, frees).len() == 0,
        submitted_over(entries, frees) == entries,
    decreases frees.len(),
{
    if frees.len() == 0 {
        assert(entries.len() == 0);
        assert(submitted_over(entries, frees) == Seq::<Intent>::empty());
        assert(entries =~= Seq::<Intent>::empty());
    } else {
        let d = min_nat(frees[0], entries.len());
        let rest = left(entries, frees[0]);
        assert(rest.len() == entries.len() - d);
        assert(frees.drop_first().len() >= rest.len());
        lemma_backlog_eventual_drain(rest, frees.drop_first());
        assert(submitted_over(entries, frees) == drained(entries, frees[0]) + rest);
        assert(drained(entries, frees[0]) + rest =~= entries);
    }
}

impl Backlog {
    /// The queued intents, front first.
    pub closed spec fn entries(self) -> Seq<Intent> {
        self.entries@
    }

    pub fn new() -> (r: Backlog)
        ensures
            r.entries().len() == 0,
    {
        Backlog { entries: Vec::new() }
    }

    pub fn len(&self) -> (r: usize)
        ensures
            r == self.entries().len(),
    {
        self.entries.len()
    }

    /// Queue an intent; never fails, nothing is ever dropped.
    pub fn push(&mut self, e: Intent)
        ensures
            final(self).entries() == old(self).entries().push(e),
    {
        self.entries.push(e);
    }

    /// Remove and return the front entries that fit into `free` open channel
    /// slots: FIFO order is preserved and the rest stays queued, so together
    /// with `push` no intent is ever lost.
    pub fn drain(&mut self, free: usize) -> (out: Vec<Intent>)
        ensures
            out@ == drained(old(self).entries(), free as nat),
            final(self).entries() == left(old(self).entries(), free as nat),
            out@.len() == min_nat(free as nat, old(self).entries().len()),
            out@ + final(self).entries() == old(self).entries(),
    {
        let n = if free < self.entries.len() {
            free
        } else {
            self.entries.len()
        };
        let mut out: Vec<Intent> = Vec::new();
        let mut k: usize = 0;
        while k < n
            invariant
                k <= n,
                n == min_nat(free as nat, old(self).entries().len()),
                out@ == old(self).entries().take(k as int),
                self.entries() == old(self).entries().skip(k as int),
            decreases n - k,
        {
            let e = self.entries.remove(0);
            out.push(e);
            assert(out@ =~= old(self).entries().take(k + 1 as int));
            assert(self.entries() =~= old(self).entries().skip(k + 1 as int));
            k = k + 1;
        }
        assert(out@ + self.entries() =~= old(self).entries());
        out
    }
}

} // verus!
