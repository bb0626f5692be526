use vstd::prelude::*;

verus! {

/// Ceiling on worker threads; construction beyond it is refused at startup.
pub const MAX_THREAD_POOL_SIZE: u32 = 16;

/// One unit of decode / fan-out work handed off the reactor thread: the
/// descriptor the bytes arrived on and the bytes of one read.
#[derive(Debug, PartialEq)]
pub struct WorkItem {
    pub fd: i32,
    pub payload: Vec<u8>,
}

/// A message on the pool's shared queue: either a task to run or the
/// sentinel that tells one worker to exit.
#[derive(Debug)]
pub enum ThreadPoolMessage {
    Task(WorkItem),
    Shutdown,
}

/// Lifecycle of the pool: workers running, sentinels being drained, all
/// workers exited.
#[derive(Clone, Copy, PartialEq, Eq, Structural, Debug)]
pub enum PoolState {
    Running,
    ShuttingDown,
    Stopped,
}

/// The tasks in a message sequence, in order, sentinels skipped.
pub open spec fn tasks_of(s: Seq<ThreadPoolMessage>) -> Seq<WorkItem>
    decreases s.len(),
{
    if s.len() == 0 {
        Seq::<WorkItem>::empty()
    } else {
        match s[0] {
            ThreadPoolMessage::Task(w) => seq![w] + tasks_of(s.drop_first()),
            ThreadPoolMessage::Shutdown => tasks_of(s.drop_first()),
        }
    }
}

/// How many exit sentinels a message sequence holds.
pub open spec fn count_shutdown(s: Seq<ThreadPoolMessage>) -> nat
    decreases s.len(),
{
    if s.len() == 0 {
        0
    } else {
        (match s[0] {
            ThreadPoolMessage::Shutdown => 1nat,
            ThreadPoolMessage::Task(_) => 0nat,
        }) + count_shutdown(s.drop_first())
    }
}

/// Every sentinel sits behind every task (sentinels are only ever appended
/// once new tasks are refused).
pub open spec fn sentinels_last(s: Seq<ThreadPoolMessage>) -> bool {
    forall|i: int, j: int|
        0 <= i < j < s.len() && (#[trigger] s[i]) is Shutdown ==> (#[trigger] s[j]) is Shutdown
}

proof fn lemma_push_message(s: Seq<ThreadPoolMessage>, m: ThreadPoolMessage)
    ensures
        tasks_of(s.push(m)) == (match m {
            ThreadPoolMessage::Task(w) => tasks_of(s).push(w),
            ThreadPoolMessage::Shutdown => tasks_of(s),
        }),
        count_shutdown(s.push(m)) == count_shutdown(s) + (match m {
            ThreadPoolMessage::Shutdown => 1nat,
            ThreadPoolMessage::Task(_) => 0nat,
        }),
    decreases s.len(),
{
    let sp = s.push(m);
    if s.len() == 0 {
        assert(sp[0] == m);
        assert(sp.drop_first() =~= Seq::<ThreadPoolMessage>::empty());
        assert(tasks_of(sp.drop_first()) == Seq::<WorkItem>::empty());
        assert(count_shutdown(sp.drop_first()) == 0);
        assert(tasks_of(s) == Seq::<WorkItem>::empty());
        assert(count_shutdown(s) == 0);
        match m {
            ThreadPoolMessage::Task(w) => {
                assert(tasks_of(sp) == seq![w] + tasks_of(sp.drop_first()));
                assert(seq![w] + Seq::<WorkItem>::empty() =~= tasks_of(s).push(w));
            },
            ThreadPoolMessage::Shutdown => {
                assert(tasks_of(sp) == tasks_of(sp.drop_first()));
            },
        }
    } else {
        assert(sp[0] == s[0]);
        assert(sp.drop_first() =~= s.drop_first().push(m));
        lemma_push_message(s.drop_first(), m);
        match s[0] {
            ThreadPoolMessage::Task(w0) => {
                assert(tasks_of(sp) == seq![w0] + tasks_of(s.drop_first().push(m)));
                assert(tasks_of(s) == seq![w0] + tasks_of(s.drop_first()));
                match m {
                    ThreadPoolMessage::Task(w) => {
                        assert(seq![w0] + tasks_of(s.drop_first()).push(w) =~= (seq![w0]
                            + tasks_of(s.drop_first())).push(w));
                    },
                    ThreadPoolMessage::Shutdown => {},
                }
            },
            ThreadPoolMessage::Shutdown => {
                assert(tasks_of(sp) == tasks_of(s.drop_first().push(m)));
                assert(tasks_of(s) == tasks_of(s.drop_first()));
            },
        }
    }
}

/// A shared-queue thread pool, modeled by its observable state: the FIFO
/// queue every worker takes from, the number of workers still running, and
/// the log of tasks that workers have taken and run, in queue order.
/// `worker_step` is one worker receiving one message; the surrounding
/// program's threads perform exactly that step for every message they take.
pub struct SharedQueueThreadPool {
    queue: Vec<ThreadPoolMessage>,
    live_workers: u32,
    capacity: u32,
    state: PoolState,
    executed: Vec<WorkItem>,
}

/// Generic task-execution service: accepts work items from any caller and
/// runs them on a bounded set of threads.
pub trait ThreadPool: Sized {
    spec fn wf(&self) -> bool;

    spec fn is_running(&self) -> bool;

    /// Tasks accepted and not yet taken by a worker, in FIFO order.
    spec fn pending_tasks(&self) -> Seq<WorkItem>;

    /// Tasks workers have taken and run, in the order they were taken.
    spec fn executed_log(&self) -> Seq<WorkItem>;

    /// Construction is refused beyond the configured thread ceiling
    /// (process-fatal at startup); otherwise the pool starts running with an
    /// empty queue.
    fn new(threads: u32) -> (r: Result<Self, ()>)
        ensures
            r is Ok <==> threads <= MAX_THREAD_POOL_SIZE,
            match r {
                Result::Ok(p) => {
                    &&& p.wf()
                    &&& p.is_running()
                    &&& p.pending_tasks() == Seq::<WorkItem>::empty()
                    &&& p.executed_log() == Seq::<WorkItem>::empty()
                },
                Result::Err(()) => true,
            },
    ;

    /// Enqueue a task and return immediately. Submitting to a pool that is
    /// no longer running is a contract violation.
    fn spawn(&mut self, job: WorkItem)
        requires
            old(self).wf(),
            old(self).is_running(),
        ensures
            final(self).wf(),
            final(self).is_running(),
            final(self).pending_tasks() == old(self).pending_tasks().push(job),
            final(self).executed_log() == old(self).executed_log(),
    ;
}

impl SharedQueueThreadPool {
    /// The shared queue, front first.
    pub closed spec fn queue_msgs(self) -> Seq<ThreadPoolMessage> {
        self.queue@
    }

    /// Worker threads that have not exited yet.
    pub closed spec fn live(self) -> nat {
        self.live_workers as nat
    }

    pub closed spec fn capacity_spec(self) -> nat {
        self.capacity as nat
    }

    pub closed spec fn state_spec(self) -> PoolState {
        self.state
    }

    pub open spec fn is_stopped(self) -> bool {
        self.state_spec() is Stopped
    }

    /// Messages still on the shared queue.
    pub fn queue_len(&self) -> (r: usize)
        ensures
            r == self.queue_msgs().len(),
    {
        self.queue.len()
    }

    /// Workers that have not exited.
    pub fn live_count(&self) -> (r: u32)
        ensures
            r as nat == self.live(),
    {
        self.live_workers
    }

    /// Tasks run so far.
    pub fn executed_count(&self) -> (r: usize)
        ensures
            r == self.executed_log().len(),
    {
        self.executed.len()
    }

    /// The `i`th task run, in execution order.
    pub fn executed_at(&self, i: usize) -> (r: &WorkItem)
        requires
            i < self.executed_log().len(),
        ensures
            *r == self.executed_log()[i as int],
    {
        &self.executed[i]
    }

    /// The pool still accepts tasks.
    pub fn running_now(&self) -> (r: bool)
        ensures
            r == self.is_running(),
    {
        matches!(self.state, PoolState::Running)
    }

    /// Every worker has exited.
    pub fn stopped_now(&self) -> (r: bool)
        ensures
            r == self.is_stopped(),
    {
        matches!(self.state, PoolState::Stopped)
    }
}

impl ThreadPool for SharedQueueThreadPool {
    closed spec fn wf(&self) -> bool {
        &&& match self.state {
            PoolState::Running => self.live_workers == self.capacity && count_shutdown(self.queue@)
                == 0,
            PoolState::ShuttingDown => count_shutdown(self.queue@) == self.live_workers as nat
                && sentinels_last(self.queue@),
            PoolState::Stopped => self.live_workers == 0,
        }
        &&& self.live_workers <= self.capacity
    }

    closed spec fn is_running(&self) -> bool {
        self.state is Running
    }

    closed spec fn pending_tasks(&self) -> Seq<WorkItem> {
        tasks_of(self.queue@)
    }

    closed spec fn executed_log(&self) -> Seq<WorkItem> {
        self.executed@
    }

    fn new(threads: u32) -> (r: Result<Self, ()>) {
        if threads > MAX_THREAD_POOL_SIZE {
            return Err(());
        }
        Ok(SharedQueueThreadPool {
            queue: Vec::new(),
            live_workers: threads,
            capacity: threads,
            state: PoolState::Running,
            executed: Vec::new(),
        })
    }

    fn spawn(&mut self, job: WorkItem) {
        proof {
            lemma_push_message(self.queue@, ThreadPoolMessage::Task(job));
        }
        self.queue.push(ThreadPoolMessage::Task(job));
    }
}

impl SharedQueueThreadPool {
    /// One worker receiving one message from the shared queue: a task is run
    /// (appended to the log), a sentinel makes that worker exit.
    pub fn worker_step(&mut self) -> (exited: bool)
        requires
            old(self).wf(),
            old(self).queue_msgs().len() > 0,
            old(self).live() > 0,
        ensures
            final(self).wf(),
            final(self).capacity_spec() == old(self).capacity_spec(),
            final(self).queue_msgs() == old(self).queue_msgs().drop_first(),
            match old(self).queue_msgs()[0] {
                ThreadPoolMessage::Task(w) => {
                    &&& !exited
                    &&& final(self).executed_log() == old(self).executed_log().push(w)
                    &&& final(self).live() == old(self).live()
                    &&& final(self).state_spec() == old(self).state_spec()
                },
                ThreadPoolMessage::Shutdown => {
                    &&& exited
                    &&& final(self).executed_log() == old(self).executed_log()
                    &&& final(self).live() == old(self).live() - 1
                    &&& final(self).state_spec() == if old(self).live() == 1 {
                        PoolState::Stopped
                    } else {
                        old(self).state_spec()
                    }
                },
            },
    {
        let m = self.queue.remove(0);
        assert(self.queue@ =~= old(self).queue_msgs().drop_first());
        match m {
            ThreadPoolMessage::Task(w) => {
                self.executed.push(w);
                proof {
                    if self.state is ShuttingDown {
                        assert forall|i: int, j: int|
                            0 <= i < j < self.queue@.len() && (#[trigger] self.queue@[i])
                                is Shutdown implies (#[trigger] self.queue@[j]) is Shutdown by {
                            assert(old(self).queue_msgs()[i + 1] is Shutdown);
                            assert(self.queue@[j] == old(self).queue_msgs()[j + 1]);
                        }
                    }
                }
                false
            },
            ThreadPoolMessage::Shutdown => {
                self.live_workers = self.live_workers - 1;
                if self.live_workers == 0 {
                    self.state = PoolState::Stopped;
                }
                proof {
                    if self.state is ShuttingDown {
                        assert forall|i: int, j: int|
                            0 <= i < j < self.queue@.len() && (#[trigger] self.queue@[i])
                                is Shutdown implies (#[trigger] self.queue@[j]) is Shutdown by {
                            assert(self.queue@[j] == old(self).queue_msgs()[j + 1]);
                        }
                    }
                }
                true
            },
        }
    }

    /// Shutdown join: send one exit sentinel per worker, then wait until
    /// every worker has exited. On return from a running pool with at least
    /// one worker, the pool is stopped, the queue is empty, and every task
    /// submitted before shutdown has been run, in order — none was dropped.
    /// Calling `shutdown` on a stopped pool is a no-op (idempotence).
    pub fn shutdown(&mut self)
        requires
            old(self).wf(),
        ensures
            final(self).wf(),
            final(self).capacity_spec() == old(self).capacity_spec(),
            old(self).is_running() ==> final(self).is_stopped() && final(self).live() == 0,
            old(self).is_running() && old(self).capacity_spec() > 0 ==> {
                &&& final(self).executed_log() == old(self).executed_log() + old(
                    self,
                ).pending_tasks()
                &&& final(self).queue_msgs().len() == 0
            },
            old(self).is_running() && old(self).capacity_spec() == 0 ==> {
                &&& final(self).executed_log() == old(self).executed_log()
                &&& final(self).queue_msgs() == old(self).queue_msgs()
            },
            !old(self).is_running() ==> {
                &&& final(self).queue_msgs() == old(self).queue_msgs()
                &&& final(self).executed_log() == old(self).executed_log()
                &&& final(self).live() == old(self).live()
                &&& final(self).state_spec() == old(self).state_spec()
            },
    {
        if !matches!(self.state, PoolState::Running) {
            return ;
        }
        let mut sent: u32 = 0;
        let n = self.capacity;
        while sent < n
            invariant
                sent <= n,
                n == old(self).capacity_spec(),
                self.capacity == old(self).capacity_spec(),
                self.live_workers == old(self).live(),
                self.live_workers == self.capacity,
                self.state == old(self).state_spec(),
                self.state is Running,
                self.executed@ == old(self).executed_log(),
                self.queue@.len() == old(self).queue_msgs().len() + sent,
                self.queue@.take(old(self).queue_msgs().len() as int) == old(self).queue_msgs(),
                tasks_of(self.queue@) == old(self).pending_tasks(),
                count_shutdown(self.queue@) == sent as nat,
                count_shutdown(old(self).queue_msgs()) == 0,
                forall|i: int|
                    old(self).queue_msgs().len() <= i < self.queue@.len() ==> (
                    #[trigger] self.queue@[i]) is Shutdown,
            decreases n - sent,
        {
            proof {
                lemma_push_message(self.queue@, ThreadPoolMessage::Shutdown);
            }
            let ghost prev = self.queue@;
            self.queue.push(ThreadPoolMessage::Shutdown);
            assert(self.queue@.take(old(self).queue_msgs().len() as int) =~= prev.take(
                old(self).queue_msgs().len() as int,
            ));
            sent = sent + 1;
        }
        self.state = PoolState::ShuttingDown;
        proof {
            lemma_count_in_prefix(self.queue@, old(self).queue_msgs().len() as int);
            assert(sentinels_last(self.queue@)) by {
                assert forall|i: int, j: int|
                    0 <= i < j < self.queue@.len() && (#[trigger] self.queue@[i])
                        is Shutdown implies (#[trigger] self.queue@[j]) is Shutdown by {
                    if i < old(self).queue_msgs().len() {
                        assert(self.queue@.take(old(self).queue_msgs().len() as int)[i]
                            == self.queue@[i]);
                        assert(old(self).queue_msgs()[i] is Shutdown);
                        lemma_count_positive(old(self).queue_msgs(), i);
                    }
                }
            }
        }
        let ghost q0 = self.queue@;
        proof {
            assert(q0.skip(0) =~= q0);
            assert(q0.take(0) =~= Seq::<ThreadPoolMessage>::empty());
            assert(self.executed@ =~= old(self).executed_log() + tasks_of(q0.take(0)));
            assert(0 <= 0 <= q0.len() && self.queue@ == q0.skip(0) && self.executed@ == old(
                self,
            ).executed_log() + tasks_of(q0.take(0)));
        }
        while self.live_workers > 0
            invariant
                self.wf(),
                self.capacity == old(self).capacity_spec(),
                self.state is ShuttingDown || self.state is Stopped,
                self.live_workers > 0 ==> self.state is ShuttingDown,
                exists|p: int|
                    0 <= p <= q0.len() && self.queue@ == q0.skip(p) && self.executed@ == old(
                        self,
                    ).executed_log() + tasks_of(#[trigger] q0.take(p)),
                q0.len() > 0 && self.queue@.len() > 0 ==> self.queue@.last() == q0.last(),
                count_shutdown(self.queue@) == self.live_workers as nat,
                sentinels_last(self.queue@),
                q0.len() == old(self).queue_msgs().len() + old(self).capacity_spec(),
                tasks_of(q0) == old(self).pending_tasks(),
                count_shutdown(q0) == old(self).capacity_spec(),
                old(self).capacity_spec() > 0 ==> q0.last() is Shutdown,
                old(self).capacity_spec() == 0 ==> self.queue@ == q0 && self.executed@ == old(
                    self,
                ).executed_log(),
            decreases self.queue@.len(),
        {
            proof {
                if self.queue@.len() == 0 {
                    assert(count_shutdown(self.queue@) == 0);
                }
            }
            let ghost p = choose|p: int|
                0 <= p <= q0.len() && self.queue@ == q0.skip(p) && self.executed@ == old(
                    self,
                ).executed_log() + tasks_of(#[trigger] q0.take(p));
            let ghost pre_queue = self.queue@;
            let ghost pre_exec = self.executed@;
            self.worker_step();
            proof {
                assert(q0.skip(p + 1) =~= pre_queue.drop_first());
                assert(q0.take(p + 1) =~= q0.take(p).push(q0[p]));
                lemma_push_message(q0.take(p), q0[p]);
                match q0[p] {
                    ThreadPoolMessage::Task(w) => {
                        assert(self.executed@ == old(self).executed_log() + tasks_of(q0.take(p
                            + 1)));
                    },
                    ThreadPoolMessage::Shutdown => {
                        assert(self.executed@ == old(self).executed_log() + tasks_of(q0.take(p
                            + 1)));
                    },
                }
                assert(0 <= p + 1 <= q0.len() && self.queue@ == q0.skip(p + 1) && self.executed@
                    == old(self).executed_log() + tasks_of(q0.take(p + 1)));
                if q0.len() > 0 && self.queue@.len() > 0 {
                    assert(self.queue@.last() == q0.last());
                }
            }
        }
        self.state = PoolState::Stopped;
        proof {
            assert(count_shutdown(self.queue@) == 0);
            if self.queue@.len() > 0 {
                assert(old(self).capacity_spec() > 0 ==> q0.last() is Shutdown);
                if old(self).capacity_spec() > 0 {
                    assert(self.queue@.last() is Shutdown);
                    let p = choose|p: int|
                        0 <= p <= q0.len() && self.queue@ == q0.skip(p) && self.executed@ == old(
                            self,
                        ).executed_log() + tasks_of(#[trigger] q0.take(p));
                    lemma_count_positive(self.queue@, self.queue@.len() - 1);
                }
            }
            if old(self).capacity_spec() > 0 {
                assert(self.queue@.len() == 0);
                let p = choose|p: int|
                    0 <= p <= q0.len() && self.queue@ == q0.skip(p) && self.executed@ == old(
                        self,
                    ).executed_log() + tasks_of(#[trigger] q0.take(p));
                assert(p == q0.len());
                assert(q0.take(p) =~= q0);
                assert(tasks_of(q0) == old(self).pending_tasks());
            } else {
                assert(old(self).live() == 0);
                let p = choose|p: int|
                    0 <= p <= q0.len() && self.queue@ == q0.skip(p) && self.executed@ == old(
                        self,
                    ).executed_log() + tasks_of(#[trigger] q0.take(p));
                assert(p == 0) by {
                    if p > 0 {
                        assert(self.queue@.len() == q0.len() - p);
                        assert(count_shutdown(q0) == 0);
                    }
                }
                assert(q0.skip(0) =~= q0);
                assert(q0.take(0) =~= Seq::<ThreadPoolMessage>::empty());
                assert(self.executed@ =~= old(self).executed_log());
            }
        }
    }
}

/// Index of the first exit sentinel in a message sequence.
pub open spec fn first_sentinel(s: Seq<ThreadPoolMessage>) -> int
    decreases s.len(),
{
    if s.len() == 0 {
        0
    } else if s[0] is Shutdown {
        0
    } else {
        1 + first_sentinel(s.drop_first())
    }
}

proof fn lemma_first_sentinel(s: Seq<ThreadPoolMessage>)
    requires
        count_shutdown(s) > 0,
    ensures
        0 <= first_sentinel(s) < s.len(),
        s[first_sentinel(s)] is Shutdown,
        forall|i: int| 0 <= i < first_sentinel(s) ==> (#[trigger] s[i]) is Task,
    decreases s.len(),
{
    if s.len() > 0 && !(s[0] is Shutdown) {
        lemma_first_sentinel(s.drop_first());
        assert forall|i: int| 0 <= i < first_sentinel(s) implies (#[trigger] s[i]) is Task by {
            if i > 0 {
                assert(s.drop_first()[i - 1] is Task);
            }
        }
    }
}

/// One worker's run loop: take messages from the shared queue one at a time,
/// run each task, and exit on the first sentinel taken. Every task queued
/// ahead of that sentinel has been run when this returns.
pub fn run_task(pool: &mut SharedQueueThreadPool)
    requires
        old(pool).wf(),
        old(pool).live() > 0,
        count_shutdown(old(pool).queue_msgs()) > 0,
    ensures
        final(pool).wf(),
        final(pool).capacity_spec() == old(pool).capacity_spec(),
        final(pool).live() == old(pool).live() - 1,
        final(pool).queue_msgs() == old(pool).queue_msgs().skip(
            first_sentinel(old(pool).queue_msgs()) + 1,
        ),
        final(pool).executed_log() == old(pool).executed_log() + tasks_of(
            old(pool).queue_msgs().take(first_sentinel(old(pool).queue_msgs())),
        ),
{
    let ghost q0 = old(pool).queue_msgs();
    let ghost j = first_sentinel(q0);
    proof {
        lemma_first_sentinel(q0);
        assert(q0.skip(0) =~= q0);
        assert(q0.take(0) =~= Seq::<ThreadPoolMessage>::empty());
        assert(old(pool).executed_log() =~= old(pool).executed_log() + tasks_of(q0.take(0)));
        assert(0 <= 0 <= j && pool.queue_msgs() == q0.skip(0) && pool.executed_log() == old(
            pool,
        ).executed_log() + tasks_of(q0.take(0)));
    }
    loop
        invariant_except_break
            pool.wf(),
            pool.live() == old(pool).live(),
            old(pool).live() > 0,
            pool.capacity_spec() == old(pool).capacity_spec(),
            j == first_sentinel(q0),
            0 <= j < q0.len(),
            q0[j] is Shutdown,
            forall|i: int| 0 <= i < j ==> (#[trigger] q0[i]) is Task,
            exists|p: int|
                0 <= p <= j && pool.queue_msgs() == q0.skip(p) && pool.executed_log() == old(
                    pool,
                ).executed_log() + tasks_of(#[trigger] q0.take(p)),
        ensures
            pool.wf(),
            pool.capacity_spec() == old(pool).capacity_spec(),
            pool.live() == old(pool).live() - 1,
            pool.queue_msgs() == q0.skip(j + 1),
            pool.executed_log() == old(pool).executed_log() + tasks_of(q0.take(j)),
        decreases pool.queue_msgs().len(),
    {
        let ghost p = choose|p: int|
            0 <= p <= j && pool.queue_msgs() == q0.skip(p) && pool.executed_log() == old(
                pool,
            ).executed_log() + tasks_of(#[trigger] q0.take(p));
        proof {
            assert(pool.queue_msgs().len() == q0.len() - p);
            assert(pool.queue_msgs()[0] == q0[p]);
        }
        let ghost pre_queue = pool.queue_msgs();
        let exited = pool.worker_step();
        proof {
            assert(q0.skip(p + 1) =~= pre_queue.drop_first());
            assert(q0.take(p + 1) =~= q0.take(p).push(q0[p]));
            lemma_push_message(q0.take(p), q0[p]);
        }
        if exited {
            proof {
                assert(q0[p] is Shutdown);
                assert(p == j);
            }
            break ;
        }
        proof {
            assert(q0[p] is Task);
            assert(p < j);
            assert(0 <= p + 1 <= j && pool.queue_msgs() == q0.skip(p + 1) && pool.executed_log()
                == old(pool).executed_log() + tasks_of(q0.take(p + 1)));
        }
    }
}

/// A sequence with a sentinel at `i` has a positive sentinel count.
proof fn lemma_count_positive(s: Seq<ThreadPoolMessage>, i: int)
    requires
        0 <= i < s.len(),
        s[i] is Shutdown,
    ensures
        count_shutdown(s) > 0,
    decreases s.len(),
{
    if i > 0 {
        lemma_count_positive(s.drop_first(), i - 1);
    }
}

/// A prefix free of sentinels contributes none of the count.
proof fn lemma_count_in_prefix(s: Seq<ThreadPoolMessage>, n: int)
    requires
        0 <= n <= s.len(),
        count_shutdown(s.take(n)) == 0,
    ensures
        forall|i: int| 0 <= i < n ==> !((#[trigger] s[i]) is Shutdown),
{
    assert forall|i: int| 0 <= i < n implies !((#[trigger] s[i]) is Shutdown) by {
        if s[i] is Shutdown {
            assert(s.take(n)[i] == s[i]);
            lemma_count_positive(s.take(n), i);
        }
    }
}

} // verus!
