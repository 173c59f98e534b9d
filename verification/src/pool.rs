//! The bookkeeping of a fixed pool of workers that share one queue of jobs.
//!
//! The threads themselves live outside this library. What is decided here is
//! what an event means for the pool: whether a submitted job is accepted,
//! what a worker that asks for work does next, and when the pool is done.
//! The caller performs what is decided and reports back.

use std::collections::VecDeque;
use vstd::prelude::*;
use vstd::string::*;

verus! {

/// The largest pool that [`PoolState::build`] agrees to create.
pub const MAX_BUILD_SIZE: usize = 4;

/// Why a pool could not be created.
#[derive(Clone, Copy, Debug, PartialEq, Eq, Structural)]
pub enum PoolCreationError {
    /// More workers were asked for than a pool may have.
    SizeTooLarge,
}

impl PoolCreationError {
    /// The text of [`PoolCreationError::message`].
    pub open spec fn spec_message(self) -> Seq<char> {
        match self {
            PoolCreationError::SizeTooLarge => "The maximum number of threads is 4!"@,
        }
    }

    /// A sentence that says what went wrong.
    pub fn message(&self) -> (text: String)
        ensures
            text@ == self.spec_message(),
    {
        match self {
            PoolCreationError::SizeTooLarge => String::from_str(
                "The maximum number of threads is 4!",
            ),
        }
    }
}

/// What a worker that asks for work is told to do.
#[derive(Debug, PartialEq, Eq)]
pub enum WorkerStep<T> {
    /// Run this job, then report that it has finished.
    Run(T),
    /// No job is queued and more may come: wait, then ask again.
    Wait,
    /// No job is queued and none will come: leave the pool.
    Exit,
}

/// Why a submitted job was not accepted. The job comes back with the reason.
#[derive(Debug, PartialEq, Eq)]
pub enum Rejected<T> {
    /// The pool has been shut down and accepts no job any more.
    ShutDown(T),
    /// The queue holds as many jobs as it may; the job can be offered again
    /// once a worker has taken one.
    QueueFull(T),
}

/// Something that happens to a pool.
pub enum PoolEvent<T> {
    /// A job is submitted.
    Submit(T),
    /// An idle worker asks what to do next.
    Step,
    /// A busy worker reports that its job has finished.
    Finish,
    /// Shutdown is signalled.
    ShutDown,
}

/// A pool of workers as a mathematical value.
#[verifier::ext_equal]
pub struct PoolModel<T> {
    /// The number of workers the pool was created with.
    pub size: nat,
    /// The number of workers that have not left the pool.
    pub live: nat,
    /// The number of workers that are running a job.
    pub busy: nat,
    /// Whether jobs are still accepted; false from shutdown on.
    pub accepting: bool,
    /// The accepted jobs that no worker has taken yet, oldest first.
    pub pending: Seq<T>,
    /// The largest number of jobs that may wait in the queue.
    pub limit: nat,
    /// The number of jobs accepted so far.
    pub accepted: nat,
    /// The number of jobs that workers have finished so far.
    pub completed: nat,
}

impl<T> PoolModel<T> {
    /// The invariant of every pool: it has workers; busy workers are live
    /// workers; the queue is within its limit; every accepted job is queued,
    /// running or finished; and no worker leaves before shutdown, nor while
    /// a job is queued.
    pub open spec fn wf(self) -> bool {
        &&& 0 < self.size
        &&& self.busy <= self.live <= self.size
        &&& self.pending.len() <= self.limit
        &&& self.accepted == self.pending.len() + self.busy + self.completed
        &&& self.live < self.size ==> !self.accepting && self.pending.len() == 0
    }

    /// A new pool of `size` idle workers whose queue may hold `limit` jobs.
    pub open spec fn fresh(size: nat, limit: nat) -> Self {
        PoolModel {
            size,
            live: size,
            busy: 0,
            accepting: true,
            pending: Seq::empty(),
            limit,
            accepted: 0,
            completed: 0,
        }
    }

    /// Whether a job submitted now is accepted: the pool has not been shut
    /// down and its queue has room.
    pub open spec fn admits(self) -> bool {
        self.accepting && self.pending.len() < self.limit
    }

    /// Why `job`, submitted now, is not accepted, if it is not: shutdown
    /// comes before a full queue.
    pub open spec fn rejection(self, job: T) -> Rejected<T> {
        if !self.accepting {
            Rejected::ShutDown(job)
        } else {
            Rejected::QueueFull(job)
        }
    }

    /// A job is submitted: it joins the queue if it is accepted, and changes
    /// nothing if it is not.
    pub open spec fn submit(self, job: T) -> Self {
        if self.admits() {
            PoolModel {
                pending: self.pending.push(job),
                accepted: self.accepted + 1,
                ..self
            }
        } else {
            self
        }
    }

    /// What an idle worker that asks for work is told: the oldest queued job
    /// if there is one; else to wait while jobs are accepted; else to leave.
    pub open spec fn step(self) -> WorkerStep<T> {
        if self.pending.len() > 0 {
            WorkerStep::Run(self.pending[0])
        } else if self.accepting {
            WorkerStep::Wait
        } else {
            WorkerStep::Exit
        }
    }

    /// The pool after an idle worker was told its next step.
    pub open spec fn after_step(self) -> Self {
        if self.pending.len() > 0 {
            PoolModel { pending: self.pending.drop_first(), busy: self.busy + 1, ..self }
        } else if self.accepting {
            self
        } else {
            PoolModel { live: (self.live - 1) as nat, ..self }
        }
    }

    /// The pool after a busy worker reported that its job has finished.
    pub open spec fn finish(self) -> Self {
        PoolModel { busy: (self.busy - 1) as nat, completed: self.completed + 1, ..self }
    }

    /// The pool after shutdown was signalled.
    pub open spec fn shut_down(self) -> Self {
        PoolModel { accepting: false, ..self }
    }

    /// Whether every worker has left the pool.
    pub open spec fn terminated(self) -> bool {
        self.live == 0
    }

    /// Whether `event` can happen to this pool: only an idle worker asks for
    /// work, and only a busy one finishes a job.
    pub open spec fn allows(self, event: PoolEvent<T>) -> bool {
        match event {
            PoolEvent::Step => self.busy < self.live,
            PoolEvent::Finish => self.busy > 0,
            _ => true,
        }
    }

    /// The pool after `event`.
    pub open spec fn apply(self, event: PoolEvent<T>) -> Self {
        match event {
            PoolEvent::Submit(job) => self.submit(job),
            PoolEvent::Step => self.after_step(),
            PoolEvent::Finish => self.finish(),
            PoolEvent::ShutDown => self.shut_down(),
        }
    }

    /// Whether the events can happen to this pool one after the other.
    pub open spec fn allows_all(self, events: Seq<PoolEvent<T>>) -> bool
        decreases events.len(),
    {
        events.len() > 0 ==> self.allows_all(events.drop_last()) && self.after_all(
            events.drop_last(),
        ).allows(events.last())
    }

    /// The pool after the events have happened one after the other.
    pub open spec fn after_all(self, events: Seq<PoolEvent<T>>) -> Self
        decreases events.len(),
    {
        if events.len() == 0 {
            self
        } else {
            self.after_all(events.drop_last()).apply(events.last())
        }
    }

    /// The number of events that remain before a pool that was shut down
    /// has terminated: each queued job is taken and finished, each running
    /// job is finished, and each live worker leaves.
    pub open spec fn remaining(self) -> nat {
        2 * self.pending.len() + self.busy + self.live
    }
}

/// The bookkeeping of a pool of workers. It holds the queue of jobs and knows
/// how many workers are idle, busy or gone.
pub struct PoolState<T> {
    size: usize,
    live: usize,
    busy: usize,
    accepting: bool,
    pending: VecDeque<T>,
    limit: usize,
    accepted: Ghost<nat>,
    completed: Ghost<nat>,
}

impl<T> View for PoolState<T> {
    type V = PoolModel<T>;

    closed spec fn view(&self) -> PoolModel<T> {
        PoolModel {
            size: self.size as nat,
            live: self.live as nat,
            busy: self.busy as nat,
            accepting: self.accepting,
            pending: self.pending@,
            limit: self.limit as nat,
            accepted: self.accepted@,
            completed: self.completed@,
        }
    }
}

impl<T> PoolState<T> {
    /// The invariant that every operation expects and keeps.
    pub open spec fn wf(&self) -> bool {
        self@.wf()
    }

    /// Creates the bookkeeping for a pool of `size` idle workers. A pool
    /// without workers could never run a job, so `size` must not be zero.
    /// The queue takes as many jobs as the machine can count.
    pub fn new(size: usize) -> (pool: Self)
        requires
            size > 0,
        ensures
            pool.wf(),
            pool@ == PoolModel::<T>::fresh(size as nat, usize::MAX as nat),
    {
        PoolState::with_queue_limit(size, usize::MAX)
    }

    /// Creates the bookkeeping for a pool of `size` idle workers whose queue
    /// holds at most `limit` jobs. As for [`PoolState::new`], `size` must
    /// not be zero.
    pub fn with_queue_limit(size: usize, limit: usize) -> (pool: Self)
        requires
            size > 0,
        ensures
            pool.wf(),
            pool@ == PoolModel::<T>::fresh(size as nat, limit as nat),
    {
        PoolState {
            size,
            live: size,
            busy: 0,
            accepting: true,
            pending: VecDeque::new(),
            limit,
            accepted: Ghost(0),
            completed: Ghost(0),
        }
    }

    /// Creates the bookkeeping for a small pool: like [`PoolState::new`],
    /// but a `size` above [`MAX_BUILD_SIZE`] is refused.
    pub fn build(size: usize) -> (result: Result<Self, PoolCreationError>)
        requires
            size > 0,
        ensures
            size > MAX_BUILD_SIZE ==> result is Err && result->Err_0
                == PoolCreationError::SizeTooLarge,
            size <= MAX_BUILD_SIZE ==> (result matches Ok(pool) && pool.wf() && pool@
                == PoolModel::<T>::fresh(size as nat, usize::MAX as nat)),
    {
        if size > MAX_BUILD_SIZE {
            return Err(PoolCreationError::SizeTooLarge);
        }
        Ok(PoolState::new(size))
    }

    /// Offers `job` to the pool. An accepted job joins the queue behind the
    /// jobs already there. After shutdown, or while the queue is full, the
    /// job is handed back with the reason, and the pool stays as it was.
    pub fn submit(&mut self, job: T) -> (result: Result<(), Rejected<T>>)
        requires
            old(self).wf(),
        ensures
            final(self).wf(),
            final(self)@ == old(self)@.submit(job),
            old(self)@.admits() ==> result is Ok,
            !old(self)@.admits() ==> result == Err::<(), Rejected<T>>(old(self)@.rejection(job)),
    {
        if !self.accepting {
            Err(Rejected::ShutDown(job))
        } else if self.pending.len() >= self.limit {
            Err(Rejected::QueueFull(job))
        } else {
            self.pending.push_back(job);
            self.accepted = Ghost(self.accepted@ + 1);
            Ok(())
        }
    }

    /// Tells an idle worker what to do next. There must be an idle worker to
    /// ask.
    pub fn next_step(&mut self) -> (step: WorkerStep<T>)
        requires
            old(self).wf(),
            old(self)@.busy < old(self)@.live,
        ensures
            final(self).wf(),
            step == old(self)@.step(),
            final(self)@ == old(self)@.after_step(),
    {
        match self.pending.pop_front() {
            Some(job) => {
                self.busy = self.busy + 1;
                proof {
                    assert(self@.pending =~= old(self)@.pending.drop_first());
                }
                WorkerStep::Run(job)
            },
            None => {
                if self.accepting {
                    WorkerStep::Wait
                } else {
                    self.live = self.live - 1;
                    WorkerStep::Exit
                }
            },
        }
    }

    /// Records that a busy worker has finished its job, however the job
    /// ended. There must be a busy worker.
    pub fn finish(&mut self)
        requires
            old(self).wf(),
            old(self)@.busy > 0,
        ensures
            final(self).wf(),
            final(self)@ == old(self)@.finish(),
    {
        self.busy = self.busy - 1;
        self.completed = Ghost(self.completed@ + 1);
    }

    /// Signals shutdown: from now on no job is accepted, and workers leave
    /// once the queue is empty.
    pub fn shut_down(&mut self)
        requires
            old(self).wf(),
        ensures
            final(self).wf(),
            final(self)@ == old(self)@.shut_down(),
    {
        self.accepting = false;
    }

    /// Tells whether every worker has left the pool.
    pub fn is_terminated(&self) -> (done: bool)
        requires
            self.wf(),
        ensures
            done == self@.terminated(),
    {
        self.live == 0
    }

    /// Tells whether jobs are still accepted.
    pub fn is_accepting(&self) -> (accepting: bool)
        requires
            self.wf(),
        ensures
            accepting == self@.accepting,
    {
        self.accepting
    }

    /// The number of workers the pool was created with.
    pub fn size(&self) -> (size: usize)
        requires
            self.wf(),
        ensures
            size == self@.size,
    {
        self.size
    }

    /// The number of workers that are neither busy nor gone.
    pub fn idle(&self) -> (idle: usize)
        requires
            self.wf(),
        ensures
            idle == self@.live - self@.busy,
    {
        self.live - self.busy
    }

    /// The number of workers that are running a job.
    pub fn busy(&self) -> (busy: usize)
        requires
            self.wf(),
        ensures
            busy == self@.busy,
    {
        self.busy
    }

    /// The largest number of jobs that may wait in the queue.
    pub fn queue_limit(&self) -> (limit: usize)
        requires
            self.wf(),
        ensures
            limit == self@.limit,
    {
        self.limit
    }

    /// The number of queued jobs.
    pub fn pending(&self) -> (pending: usize)
        requires
            self.wf(),
        ensures
            pending == self@.pending.len(),
    {
        self.pending.len()
    }
}

/// Every event keeps the invariant of the pool.
pub proof fn lemma_pool_events_keep_wf<T>(pool: PoolModel<T>, job: T)
    requires
        pool.wf(),
    ensures
        pool.submit(job).wf(),
        pool.shut_down().wf(),
        pool.busy < pool.live ==> pool.after_step().wf(),
        pool.busy > 0 ==> pool.finish().wf(),
{
}

/// Shutdown is final: once jobs are no longer accepted, no event makes the
/// pool accept them again, and a submitted job changes nothing.
pub proof fn lemma_shutdown_is_final<T>(pool: PoolModel<T>, job: T)
    requires
        pool.wf(),
    ensures
        !pool.shut_down().accepting,
        !pool.accepting ==> {
            &&& pool.submit(job) == pool
            &&& !pool.after_step().accepting
            &&& !pool.finish().accepting
            &&& !pool.shut_down().accepting
        },
{
}

/// When every worker has left, no job is queued or running: each job that
/// was accepted has been finished.
pub proof fn lemma_terminated_means_done<T>(pool: PoolModel<T>)
    requires
        pool.wf(),
        pool.terminated(),
    ensures
        !pool.accepting,
        pool.pending.len() == 0,
        pool.busy == 0,
        pool.completed == pool.accepted,
{
}

/// After shutdown the pool winds down: an idle worker is never told to wait,
/// it leaves only when the queue is empty, and each step and each finished
/// job brings the pool closer to termination.
pub proof fn lemma_shutdown_winds_down<T>(pool: PoolModel<T>)
    requires
        pool.wf(),
        !pool.accepting,
    ensures
        pool.busy < pool.live ==> {
            &&& !(pool.step() is Wait)
            &&& (pool.step() is Exit <==> pool.pending.len() == 0)
            &&& pool.after_step().remaining() < pool.remaining()
        },
        pool.busy > 0 ==> pool.finish().remaining() < pool.remaining(),
        pool.remaining() == 0 <==> pool.terminated(),
{
}

/// How many of the events are a worker's: a step or a finished job.
pub open spec fn worker_events<T>(events: Seq<PoolEvent<T>>) -> nat
    decreases events.len(),
{
    if events.len() == 0 {
        0
    } else {
        worker_events(events.drop_last()) + match events.last() {
            PoolEvent::Step | PoolEvent::Finish => 1nat,
            _ => 0nat,
        }
    }
}

/// Whatever happens to a pool, it keeps its invariant, its size and the
/// limit of its queue, and every job it has accepted is queued, running or
/// finished.
pub proof fn lemma_pool_invariant<T>(pool: PoolModel<T>, events: Seq<PoolEvent<T>>)
    requires
        pool.wf(),
        pool.allows_all(events),
    ensures
        pool.after_all(events).wf(),
        pool.after_all(events).size == pool.size,
        pool.after_all(events).limit == pool.limit,
        pool.after_all(events).pending.len() <= pool.limit,
        pool.after_all(events).accepted >= pool.accepted,
        pool.after_all(events).completed >= pool.completed,
    decreases events.len(),
{
    if events.len() > 0 {
        lemma_pool_invariant(pool, events.drop_last());
    }
}

/// Pool shutdown. Whatever happens to a pool after shutdown was signalled,
/// it accepts no job any more; its workers take at most as many steps as the
/// jobs at hand and their own leaving need; and once all of them have left,
/// every job that was accepted has been finished.
pub proof fn theorem_shutdown<T>(pool: PoolModel<T>, events: Seq<PoolEvent<T>>)
    requires
        pool.wf(),
        !pool.accepting,
        pool.allows_all(events),
    ensures
        pool.after_all(events).wf(),
        !pool.after_all(events).accepting,
        pool.after_all(events).accepted == pool.accepted,
        pool.after_all(events).remaining() + worker_events(events) == pool.remaining(),
        worker_events(events) <= pool.remaining(),
        pool.after_all(events).terminated() ==> pool.after_all(events).completed
            == pool.accepted,
    decreases events.len(),
{
    if events.len() > 0 {
        theorem_shutdown(pool, events.drop_last());
        lemma_shutdown_winds_down(pool.after_all(events.drop_last()));
    }
}

} // verus!
