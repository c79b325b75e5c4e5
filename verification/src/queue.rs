//! The work queue itself: the state that a pool of worker threads shares
//! behind one mutex, and the decisions taken on it.
//!
//! Nothing here blocks or runs a task. Each operation changes the state as
//! one transition of the machine in [`crate::model`] does and tells its
//! caller what to do next: which waiters to wake, whether to run a task, to
//! wait or to leave.
use crate::model::{held_ticket, lemma_busy_count_bound, lemma_busy_count_update};
use crate::model::{Job, Phase, QueueState, Worker};
use std::collections::VecDeque;
use vstd::prelude::*;

verus! {

/// What a worker does after it has looked at the queue.
#[derive(Debug)]
pub enum Step<T> {
    /// Run the task that comes with it, outside the lock, then report it finished.
    Run(T),
    /// Block until woken, then look again.
    Wait,
    /// Leave: the queue is empty and shutdown was requested.
    Exit,
}

/// Which of the threads blocked on the queue are to be woken.
#[derive(Clone, Copy, Debug, PartialEq, Eq)]
pub enum Wake {
    /// One of them.
    One,
    /// All of them.
    All,
}

/// What a thread at a barrier does.
#[derive(Clone, Copy, Debug, PartialEq, Eq)]
pub enum Barrier {
    /// What it waits for has happened: go on.
    Pass,
    /// Block until woken, then ask again.
    Block,
}

/// The handle of one scoped submission. There is one per submission; it
/// cannot be copied.
#[derive(Debug)]
pub struct ScopedTask {
    ticket: usize,
}

/// The pending tasks, the workers, the running counter, the shutdown flag and
/// the completion signals of one pool.
pub struct WorkQueue<T> {
    pending: VecDeque<Job<T>>,
    workers: Vec<Worker>,
    running: usize,
    shutdown: bool,
    signals: Vec<bool>,
}

impl<T> View for WorkQueue<T> {
    type V = QueueState<T>;

    closed spec fn view(&self) -> QueueState<T> {
        QueueState {
            pending: self.pending@,
            workers: self.workers@,
            shutdown: self.shutdown,
            signals: self.signals@,
        }
    }
}

impl ScopedTask {
    /// The ticket of the completion signal that this handle waits for.
    pub closed spec fn spec_ticket(&self) -> usize {
        self.ticket
    }

    /// The ticket of the completion signal that this handle waits for.
    #[verifier::when_used_as_spec(spec_ticket)]
    pub fn ticket(&self) -> (k: usize)
        ensures
            k == self.spec_ticket(),
    {
        self.ticket
    }

    /// Whether the owner of the handle may go on. Call it with the lock on
    /// the queue held: the owner passes exactly if the signal of its task is
    /// set, that is, once the task has returned.
    pub fn wait_done<T>(&self, queue: &WorkQueue<T>) -> (res: Barrier)
        ensures
            res is Pass <==> queue@.signalled(self.ticket()),
    {
        if self.ticket < queue.signals.len() && queue.signals[self.ticket] {
            Barrier::Pass
        } else {
            Barrier::Block
        }
    }
}

impl<T> WorkQueue<T> {
    /// The invariant of the queue: its state is well formed, and the running
    /// counter is the number of busy workers.
    pub closed spec fn wf(&self) -> bool {
        &&& self@.wf()
        &&& self.running == self@.running()
    }

    /// The state of a pool with `num_workers` workers, all idle, and nothing
    /// submitted. With no worker, nothing that is submitted is ever taken.
    pub fn new(num_workers: usize) -> (res: Self)
        ensures
            res.wf(),
            res@ == QueueState::<T>::fresh(num_workers as nat),
    {
        let mut workers: Vec<Worker> = Vec::new();
        let mut i: usize = 0;
        while i < num_workers
            invariant
                i <= num_workers,
                workers@.len() == i,
                forall|w: int| 0 <= w < i ==> workers@[w] == Worker::Idle,
            decreases num_workers - i,
        {
            workers.push(Worker::Idle);
            i += 1;
        }
        let res = WorkQueue {
            pending: VecDeque::new(),
            workers,
            running: 0,
            shutdown: false,
            signals: Vec::new(),
        };
        proof {
            let fresh = QueueState::<T>::fresh(num_workers as nat);
            assert(res@.workers =~= fresh.workers);
            assert(res@.pending =~= fresh.pending);
            assert(res@.signals =~= fresh.signals);
            QueueState::<T>::lemma_fresh_wf(num_workers as nat);
        }
        res
    }

    /// Appends a task to the tail of the queue. The caller then wakes one
    /// blocked worker.
    ///
    /// A task submitted after shutdown was requested is accepted like any
    /// other; it runs only if a worker is still there to take it.
    pub fn submit(&mut self, task: T) -> (res: Wake)
        requires
            old(self).wf(),
        ensures
            final(self).wf(),
            final(self)@ == old(self)@.submit(task),
            res == Wake::One,
    {
        proof {
            self@.lemma_submit_wf(task);
        }
        self.pending.push_back(Job { task, ticket: None });
        Wake::One
    }

    /// Appends a task to the tail of the queue and issues a completion signal
    /// for it, not yet set. The handle that comes back waits for that signal.
    /// The caller then wakes one blocked worker.
    pub fn submit_scoped(&mut self, task: T) -> (res: ScopedTask)
        requires
            old(self).wf(),
        ensures
            final(self).wf(),
            old(self)@.can_submit_scoped(),
            final(self)@ == old(self)@.submit_scoped(task),
            res.ticket() == old(self)@.next_ticket(),
    {
        let ticket = self.signals.len();
        self.signals.push(false);
        let issued = self.signals.len();
        proof {
            assert(issued == ticket + 1);
            old(self)@.lemma_submit_scoped_wf(task);
        }
        self.pending.push_back(Job { task, ticket: Some(ticket) });
        ScopedTask { ticket }
    }

    /// An idle worker, holding the lock, looks at the queue.
    ///
    /// If a task is pending, the worker takes the oldest one and is counted
    /// as running, whether or not shutdown was requested. If none is pending
    /// and shutdown was requested, the worker leaves for good. Else nothing
    /// changes, and the worker blocks until it is woken.
    pub fn poll(&mut self, worker: usize) -> (res: Step<T>)
        requires
            old(self).wf(),
            old(self)@.can_poll(worker as int),
        ensures
            final(self).wf(),
            final(self)@ == old(self)@.poll(worker as int),
            match res {
                Step::Run(task) => old(self)@.pending.len() > 0 && task
                    == old(self)@.pending[0].task,
                Step::Wait => old(self)@.pending.len() == 0 && !old(self)@.shutdown,
                Step::Exit => old(self)@.pending.len() == 0 && old(self)@.shutdown,
            },
    {
        proof {
            self@.lemma_poll_wf(worker as int);
        }
        let num_workers = self.workers.len();
        match self.pending.pop_front() {
            Some(job) => {
                proof {
                    let taken = Worker::Busy(job.ticket);
                    lemma_busy_count_update(old(self).workers@, worker as int, taken);
                    lemma_busy_count_bound(old(self).workers@.update(worker as int, taken));
                    assert(self.running < num_workers);
                }
                self.workers.set(worker, Worker::Busy(job.ticket));
                self.running = self.running + 1;
                Step::Run(job.task)
            },
            None => {
                if self.shutdown {
                    proof {
                        lemma_busy_count_update(old(self).workers@, worker as int, Worker::Exited);
                    }
                    self.workers.set(worker, Worker::Exited);
                    Step::Exit
                } else {
                    Step::Wait
                }
            },
        }
    }

    /// A busy worker, holding the lock again, reports that its task has
    /// returned.
    ///
    /// The worker is idle again and no longer counted as running. If the
    /// task was submitted scoped, its completion signal is set, and its
    /// ticket is returned. The caller then wakes all threads blocked at a
    /// barrier.
    pub fn finish(&mut self, worker: usize) -> (res: Option<usize>)
        requires
            old(self).wf(),
            old(self)@.can_finish(worker as int),
        ensures
            final(self).wf(),
            final(self)@ == old(self)@.finish(worker as int),
            res == old(self)@.ticket_of(worker as int),
    {
        proof {
            self@.lemma_finish_wf(worker as int);
            lemma_busy_count_update(self.workers@, worker as int, Worker::Idle);
            assert(self@.live(held_ticket(self@.workers[worker as int])));
        }
        let ticket = match self.workers[worker] {
            Worker::Busy(t) => t,
            _ => None,
        };
        self.workers.set(worker, Worker::Idle);
        self.running = self.running - 1;
        if let Some(k) = ticket {
            self.signals.set(k, true);
        }
        ticket
    }

    /// Whether a thread at the drain barrier may go on. Call it with the
    /// lock held: the thread passes exactly if no task is pending and none is
    /// running. Nothing is changed.
    pub fn wait_done(&self) -> (res: Barrier)
        requires
            self.wf(),
        ensures
            res is Pass <==> self@.drained(),
    {
        if self.pending.len() > 0 || self.running > 0 {
            Barrier::Block
        } else {
            Barrier::Pass
        }
    }

    /// Requests shutdown: the flag is set and stays set. The caller, still
    /// holding the lock, then wakes all blocked workers, and joins them once
    /// it has released the lock.
    pub fn shutdown(&mut self) -> (res: Wake)
        requires
            old(self).wf(),
        ensures
            final(self).wf(),
            final(self)@ == old(self)@.request_shutdown(),
            res == Wake::All,
    {
        proof {
            self@.lemma_request_shutdown_wf();
        }
        self.shutdown = true;
        Wake::All
    }
}

impl<T> WorkQueue<T> {
    /// The number of tasks pending.
    pub fn len(&self) -> (n: usize)
        ensures
            n == self@.pending.len(),
    {
        self.pending.len()
    }

    /// The running counter: the number of tasks taken and not yet finished.
    pub fn running(&self) -> (n: usize)
        requires
            self.wf(),
        ensures
            n == self@.running(),
    {
        self.running
    }

    /// Whether shutdown was requested.
    pub fn is_shutdown(&self) -> (res: bool)
        ensures
            res == self@.shutdown,
    {
        self.shutdown
    }

    /// The number of workers that the pool was built with.
    pub fn num_workers(&self) -> (n: usize)
        ensures
            n == self@.workers.len(),
    {
        self.workers.len()
    }

    /// The number of completion signals issued so far.
    pub fn num_signals(&self) -> (n: usize)
        ensures
            n == self@.signals.len(),
    {
        self.signals.len()
    }

    /// What the worker with this index is doing, or `None` if there is no
    /// such worker.
    pub fn status(&self, worker: usize) -> (res: Option<Worker>)
        ensures
            res == if worker < self@.workers.len() {
                Some(self@.workers[worker as int])
            } else {
                None
            },
    {
        if worker < self.workers.len() {
            Some(self.workers[worker])
        } else {
            None
        }
    }

    /// The phase of the pool's life.
    pub fn phase(&self) -> (res: Phase)
        ensures
            res == self@.phase(),
    {
        if !self.shutdown {
            return Phase::Running;
        }
        let mut w: usize = 0;
        while w < self.workers.len()
            invariant
                self.shutdown,
                w <= self.workers@.len(),
                forall|v: int| 0 <= v < w ==> #[trigger] self.workers@[v] is Exited,
            decreases self.workers@.len() - w,
        {
            match self.workers[w] {
                Worker::Exited => {},
                _ => {
                    assert(!(self@.workers[w as int] is Exited));
                    return Phase::ShuttingDown;
                },
            }
            w += 1;
        }
        Phase::Terminated
    }
}

} // verus!
