//! The work queue as a state machine over mathematical values.
//!
//! A state holds the pending jobs in submission order, what every worker is
//! doing, the shutdown flag and one completion signal per scoped
//! submission. The transitions are the only ways in which a state changes.
use vstd::prelude::*;

verus! {

/// What one worker is doing.
#[derive(Clone, Copy, Debug, PartialEq, Eq)]
pub enum Worker {
    /// It holds no task: it is about to look at the queue, or blocked on it.
    Idle,
    /// It took a task and has not reported it finished. The ticket is that
    /// of the task's completion signal, if the task was submitted scoped.
    Busy(Option<usize>),
    /// It saw the queue empty after shutdown was requested, and left.
    Exited,
}

/// A task in the queue, with the ticket of its completion signal if it was
/// submitted scoped.
pub struct Job<T> {
    pub task: T,
    pub ticket: Option<usize>,
}

/// The state that the pool keeps behind its mutex.
pub struct QueueState<T> {
    /// The jobs not yet taken, oldest first.
    pub pending: Seq<Job<T>>,
    /// One entry per worker.
    pub workers: Seq<Worker>,
    /// Whether shutdown was requested.
    pub shutdown: bool,
    /// One entry per scoped submission: whether its task has finished.
    pub signals: Seq<bool>,
}

/// Where the pool stands between construction and the exit of its last
/// worker.
#[derive(Clone, Copy, Debug, PartialEq, Eq)]
pub enum Phase {
    /// Shutdown was not requested.
    Running,
    /// Shutdown was requested and some worker has not left yet.
    ShuttingDown,
    /// Shutdown was requested and every worker has left.
    Terminated,
}

/// The number of busy workers.
pub open spec fn busy_count(workers: Seq<Worker>) -> nat
    decreases workers.len(),
{
    if workers.len() == 0 {
        0
    } else {
        busy_count(workers.drop_last()) + if workers.last() is Busy {
            1nat
        } else {
            0nat
        }
    }
}

/// The ticket of the task that a worker holds, if it holds one that has a
/// ticket.
pub open spec fn held_ticket(worker: Worker) -> Option<usize> {
    match worker {
        Worker::Busy(t) => t,
        _ => None,
    }
}

/// The tasks of a sequence of jobs, in the same order.
pub open spec fn tasks_of<T>(jobs: Seq<Job<T>>) -> Seq<T> {
    Seq::new(jobs.len(), |i: int| jobs[i].task)
}

impl<T> QueueState<T> {
    /// The state of a new pool with `num_workers` workers.
    pub open spec fn fresh(num_workers: nat) -> Self {
        QueueState {
            pending: Seq::empty(),
            workers: Seq::new(num_workers, |w: int| Worker::Idle),
            shutdown: false,
            signals: Seq::empty(),
        }
    }

    /// The running counter: the number of tasks taken and not yet finished.
    pub open spec fn running(self) -> nat {
        busy_count(self.workers)
    }

    /// What the drain barrier waits for: nothing pending, nothing running.
    pub open spec fn drained(self) -> bool {
        self.pending.len() == 0 && self.running() == 0
    }

    /// Whether every worker has left.
    pub open spec fn all_exited(self) -> bool {
        forall|w: int| 0 <= w < self.workers.len() ==> #[trigger] self.workers[w] is Exited
    }

    /// The phase of the pool's life.
    pub open spec fn phase(self) -> Phase {
        if !self.shutdown {
            Phase::Running
        } else if self.all_exited() {
            Phase::Terminated
        } else {
            Phase::ShuttingDown
        }
    }

    /// Whether a pending job carries ticket `k`.
    pub open spec fn queued(self, k: usize) -> bool {
        exists|i: int| 0 <= i < self.pending.len() && (#[trigger] self.pending[i]).ticket == Some(k)
    }

    /// Whether a worker is running the task with ticket `k`.
    pub open spec fn in_flight(self, k: usize) -> bool {
        exists|w: int|
            0 <= w < self.workers.len() && held_ticket(#[trigger] self.workers[w]) == Some(k)
    }

    /// Whether the completion signal with ticket `k` is set.
    pub open spec fn signalled(self, k: usize) -> bool {
        k < self.signals.len() && self.signals[k as int]
    }

    /// A ticket that is still on its way: it was issued, and its signal is not
    /// set.
    pub open spec fn live(self, ticket: Option<usize>) -> bool {
        ticket matches Some(k) ==> k < self.signals.len() && !self.signals[k as int]
    }

    /// The invariant of the machine. Every ticket on a pending job or on a
    /// busy worker is live; no ticket is in two places; and a ticket whose
    /// signal is not set is still pending or running.
    pub open spec fn wf(self) -> bool {
        &&& self.signals.len() <= usize::MAX
        &&& forall|i: int|
            0 <= i < self.pending.len() ==> self.live((#[trigger] self.pending[i]).ticket)
        &&& forall|w: int|
            0 <= w < self.workers.len() ==> self.live(held_ticket(#[trigger] self.workers[w]))
        &&& forall|i: int, j: int|
            0 <= i < j < self.pending.len() && (#[trigger] self.pending[i]).ticket is Some
                ==> self.pending[i].ticket != (#[trigger] self.pending[j]).ticket
        &&& forall|v: int, w: int|
            0 <= v < w < self.workers.len() && held_ticket(#[trigger] self.workers[v]) is Some
                ==> held_ticket(self.workers[v]) != held_ticket(#[trigger] self.workers[w])
        &&& forall|i: int, w: int|
            0 <= i < self.pending.len() && 0 <= w < self.workers.len() && (
            #[trigger] self.pending[i]).ticket is Some ==> held_ticket(#[trigger] self.workers[w])
                != self.pending[i].ticket
        &&& forall|k: usize|
            k < self.signals.len() && !(#[trigger] self.signals[k as int]) ==> self.queued(k)
                || self.in_flight(k)
    }

    /// A task is submitted: it goes to the tail.
    pub open spec fn submit(self, task: T) -> Self {
        QueueState { pending: self.pending.push(Job { task, ticket: None }), ..self }
    }

    /// Whether one more scoped submission can be given a ticket.
    pub open spec fn can_submit_scoped(self) -> bool {
        self.signals.len() < usize::MAX
    }

    /// The ticket that the next scoped submission gets.
    pub open spec fn next_ticket(self) -> usize {
        self.signals.len() as usize
    }

    /// A task is submitted scoped: it goes to the tail with a new ticket,
    /// whose signal is not set.
    pub open spec fn submit_scoped(self, task: T) -> Self {
        QueueState {
            pending: self.pending.push(Job { task, ticket: Some(self.next_ticket()) }),
            signals: self.signals.push(false),
            ..self
        }
    }

    /// Whether `w` is a worker that holds no task and has not left.
    pub open spec fn can_poll(self, w: int) -> bool {
        0 <= w < self.workers.len() && self.workers[w] is Idle
    }

    /// An idle worker looks at the queue. It takes the oldest job if there is
    /// one, whatever the shutdown flag says; it leaves if the queue is empty
    /// and shutdown was requested; else nothing changes and it has to wait.
    pub open spec fn poll(self, w: int) -> Self {
        if self.pending.len() > 0 {
            QueueState {
                pending: self.pending.subrange(1, self.pending.len() as int),
                workers: self.workers.update(w, Worker::Busy(self.pending[0].ticket)),
                ..self
            }
        } else if self.shutdown {
            QueueState { workers: self.workers.update(w, Worker::Exited), ..self }
        } else {
            self
        }
    }

    /// Whether `w` is a worker that holds a task.
    pub open spec fn can_finish(self, w: int) -> bool {
        0 <= w < self.workers.len() && self.workers[w] is Busy
    }

    /// The ticket of the task that worker `w` holds.
    pub open spec fn ticket_of(self, w: int) -> Option<usize> {
        held_ticket(self.workers[w])
    }

    /// A busy worker reports that its task has returned: the worker is idle
    /// again, and the task's completion signal, if it has one, is set.
    pub open spec fn finish(self, w: int) -> Self {
        QueueState {
            workers: self.workers.update(w, Worker::Idle),
            signals: match self.ticket_of(w) {
                Some(k) if k < self.signals.len() => self.signals.update(k as int, true),
                _ => self.signals,
            },
            ..self
        }
    }

    /// Shutdown is requested.
    pub open spec fn request_shutdown(self) -> Self {
        QueueState { shutdown: true, ..self }
    }
}

/// Changing one worker changes the count by what that worker adds to it.
pub proof fn lemma_busy_count_update(workers: Seq<Worker>, w: int, status: Worker)
    requires
        0 <= w < workers.len(),
    ensures
        busy_count(workers.update(w, status)) + (if workers[w] is Busy {
            1nat
        } else {
            0nat
        }) == busy_count(workers) + (if status is Busy {
            1nat
        } else {
            0nat
        }),
    decreases workers.len(),
{
    let updated = workers.update(w, status);
    if w == workers.len() - 1 {
        assert(updated.drop_last() =~= workers.drop_last());
    } else {
        assert(updated.drop_last() =~= workers.drop_last().update(w, status));
        lemma_busy_count_update(workers.drop_last(), w, status);
    }
}

/// No more workers are busy than there are workers.
pub proof fn lemma_busy_count_bound(workers: Seq<Worker>)
    ensures
        busy_count(workers) <= workers.len(),
    decreases workers.len(),
{
    if workers.len() > 0 {
        lemma_busy_count_bound(workers.drop_last());
    }
}

/// The count is zero exactly if no worker is busy.
pub proof fn lemma_busy_count_zero(workers: Seq<Worker>)
    ensures
        busy_count(workers) == 0 <==> forall|w: int|
            0 <= w < workers.len() ==> !(#[trigger] workers[w] is Busy),
    decreases workers.len(),
{
    if workers.len() > 0 {
        let front = workers.drop_last();
        lemma_busy_count_zero(front);
        if busy_count(workers) == 0 {
            assert forall|w: int| 0 <= w < workers.len() implies !(#[trigger] workers[w] is Busy) by {
                if w < front.len() {
                    assert(front[w] == workers[w]);
                }
            }
        }
        if forall|w: int| 0 <= w < workers.len() ==> !(#[trigger] workers[w] is Busy) {
            assert forall|w: int| 0 <= w < front.len() implies !(#[trigger] front[w] is Busy) by {
                assert(front[w] == workers[w]);
            }
            assert(!(workers[workers.len() - 1] is Busy));
        }
    }
}

impl<T> QueueState<T> {
    /// A new pool is well formed.
    pub proof fn lemma_fresh_wf(num_workers: nat)
        ensures
            Self::fresh(num_workers).wf(),
            Self::fresh(num_workers).running() == 0,
    {
        let s = Self::fresh(num_workers);
        lemma_busy_count_zero(s.workers);
    }

    /// Submitting keeps the state well formed.
    pub proof fn lemma_submit_wf(self, task: T)
        requires
            self.wf(),
        ensures
            self.submit(task).wf(),
    {
        let next = self.submit(task);
        let n = self.pending.len() as int;
        assert forall|i: int| 0 <= i < next.pending.len() implies next.live(
            (#[trigger] next.pending[i]).ticket,
        ) by {
            if i < n {
                assert(next.pending[i] == self.pending[i]);
            }
        }
        assert forall|i: int, j: int|
            0 <= i < j < next.pending.len() && (#[trigger] next.pending[i]).ticket is Some implies next.pending[i].ticket
            != (#[trigger] next.pending[j]).ticket by {
            assert(next.pending[i] == self.pending[i]);
            if j < n {
                assert(next.pending[j] == self.pending[j]);
            }
        }
        assert forall|i: int, w: int|
            0 <= i < next.pending.len() && 0 <= w < next.workers.len() && (
            #[trigger] next.pending[i]).ticket is Some implies held_ticket(
            #[trigger] next.workers[w],
        ) != next.pending[i].ticket by {
            assert(next.pending[i] == self.pending[i]);
        }
        assert forall|k: usize|
            k < next.signals.len() && !(#[trigger] next.signals[k as int]) implies next.queued(k)
            || next.in_flight(k) by {
            if self.queued(k) {
                let i = choose|i: int|
                    0 <= i < self.pending.len() && (#[trigger] self.pending[i]).ticket == Some(k);
                assert(next.pending[i] == self.pending[i]);
            }
        }
    }

    /// Submitting scoped keeps the state well formed.
    pub proof fn lemma_submit_scoped_wf(self, task: T)
        requires
            self.wf(),
            self.can_submit_scoped(),
        ensures
            self.submit_scoped(task).wf(),
    {
        let next = self.submit_scoped(task);
        let n = self.pending.len() as int;
        let fresh = self.next_ticket();
        assert forall|i: int| 0 <= i < next.pending.len() implies next.live(
            (#[trigger] next.pending[i]).ticket,
        ) by {
            if i < n {
                assert(next.pending[i] == self.pending[i]);
                assert(self.live(self.pending[i].ticket));
            }
        }
        assert forall|w: int| 0 <= w < next.workers.len() implies next.live(
            held_ticket(#[trigger] next.workers[w]),
        ) by {
            assert(self.live(held_ticket(self.workers[w])));
        }
        assert forall|i: int, j: int|
            0 <= i < j < next.pending.len() && (#[trigger] next.pending[i]).ticket is Some implies next.pending[i].ticket
            != (#[trigger] next.pending[j]).ticket by {
            assert(next.pending[i] == self.pending[i]);
            assert(self.live(self.pending[i].ticket));
            if j < n {
                assert(next.pending[j] == self.pending[j]);
            }
        }
        assert forall|i: int, w: int|
            0 <= i < next.pending.len() && 0 <= w < next.workers.len() && (
            #[trigger] next.pending[i]).ticket is Some implies held_ticket(
            #[trigger] next.workers[w],
        ) != next.pending[i].ticket by {
            assert(self.live(held_ticket(self.workers[w])));
            if i < n {
                assert(next.pending[i] == self.pending[i]);
            }
        }
        assert forall|k: usize|
            k < next.signals.len() && !(#[trigger] next.signals[k as int]) implies next.queued(k)
            || next.in_flight(k) by {
            if k == fresh {
                assert(next.pending[n].ticket == Some(k));
            } else {
                assert(self.signals[k as int] == next.signals[k as int]);
                if self.queued(k) {
                    let i = choose|i: int|
                        0 <= i < self.pending.len() && (#[trigger] self.pending[i]).ticket == Some(
                            k,
                        );
                    assert(next.pending[i] == self.pending[i]);
                }
            }
        }
    }

    /// Looking at the queue keeps the state well formed.
    pub proof fn lemma_poll_wf(self, w: int)
        requires
            self.wf(),
            self.can_poll(w),
        ensures
            self.poll(w).wf(),
    {
        let next = self.poll(w);
        if self.pending.len() > 0 {
            let head = self.pending[0];
            assert forall|i: int| 0 <= i < next.pending.len() implies next.live(
                (#[trigger] next.pending[i]).ticket,
            ) by {
                assert(next.pending[i] == self.pending[i + 1]);
            }
            assert forall|v: int| 0 <= v < next.workers.len() implies next.live(
                held_ticket(#[trigger] next.workers[v]),
            ) by {
                if v == w {
                    assert(self.live(head.ticket));
                } else {
                    assert(self.live(held_ticket(self.workers[v])));
                }
            }
            assert forall|i: int, j: int|
                0 <= i < j < next.pending.len() && (#[trigger] next.pending[i]).ticket is Some implies next.pending[i].ticket
                != (#[trigger] next.pending[j]).ticket by {
                assert(next.pending[i] == self.pending[i + 1]);
                assert(next.pending[j] == self.pending[j + 1]);
            }
            assert forall|u: int, v: int|
                0 <= u < v < next.workers.len() && held_ticket(
                    #[trigger] next.workers[u],
                ) is Some implies held_ticket(next.workers[u]) != held_ticket(
                #[trigger] next.workers[v],
            ) by {
                if u == w {
                    assert(held_ticket(self.workers[v]) != self.pending[0].ticket);
                } else if v == w {
                    if head.ticket is Some {
                        assert(held_ticket(self.workers[u]) != self.pending[0].ticket);
                    }
                } else {
                    assert(held_ticket(self.workers[u]) != held_ticket(self.workers[v]));
                }
            }
            assert forall|i: int, v: int|
                0 <= i < next.pending.len() && 0 <= v < next.workers.len() && (
                #[trigger] next.pending[i]).ticket is Some implies held_ticket(
                #[trigger] next.workers[v],
            ) != next.pending[i].ticket by {
                assert(next.pending[i] == self.pending[i + 1]);
                if v == w {
                    if head.ticket is Some {
                        assert(self.pending[0].ticket != self.pending[i + 1].ticket);
                    }
                } else {
                    assert(held_ticket(self.workers[v]) != self.pending[i + 1].ticket);
                }
            }
            assert forall|k: usize|
                k < next.signals.len() && !(#[trigger] next.signals[k as int]) implies next.queued(
                k,
            ) || next.in_flight(k) by {
                if self.queued(k) {
                    let i = choose|i: int|
                        0 <= i < self.pending.len() && (#[trigger] self.pending[i]).ticket == Some(
                            k,
                        );
                    if i == 0 {
                        assert(held_ticket(next.workers[w]) == Some(k));
                    } else {
                        assert(next.pending[i - 1] == self.pending[i]);
                    }
                } else {
                    let v = choose|v: int|
                        0 <= v < self.workers.len() && held_ticket(#[trigger] self.workers[v])
                            == Some(k);
                    assert(held_ticket(next.workers[v]) == Some(k));
                }
            }
        } else if self.shutdown {
            assert forall|v: int| 0 <= v < next.workers.len() implies next.live(
                held_ticket(#[trigger] next.workers[v]),
            ) by {
                if v != w {
                    assert(self.live(held_ticket(self.workers[v])));
                }
            }
            assert forall|u: int, v: int|
                0 <= u < v < next.workers.len() && held_ticket(
                    #[trigger] next.workers[u],
                ) is Some implies held_ticket(next.workers[u]) != held_ticket(
                #[trigger] next.workers[v],
            ) by {
                if u != w && v != w {
                    assert(held_ticket(self.workers[u]) != held_ticket(self.workers[v]));
                }
            }
            assert forall|k: usize|
                k < next.signals.len() && !(#[trigger] next.signals[k as int]) implies next.queued(
                k,
            ) || next.in_flight(k) by {
                if !self.queued(k) {
                    let v = choose|v: int|
                        0 <= v < self.workers.len() && held_ticket(#[trigger] self.workers[v])
                            == Some(k);
                    assert(held_ticket(next.workers[v]) == Some(k));
                }
            }
        }
    }

    /// Reporting a task finished keeps the state well formed.
    pub proof fn lemma_finish_wf(self, w: int)
        requires
            self.wf(),
            self.can_finish(w),
        ensures
            self.finish(w).wf(),
    {
        let next = self.finish(w);
        let done = self.ticket_of(w);
        assert(self.live(held_ticket(self.workers[w])));
        assert forall|i: int| 0 <= i < next.pending.len() implies next.live(
            (#[trigger] next.pending[i]).ticket,
        ) by {
            assert(self.live(self.pending[i].ticket));
            assert(self.pending[i].ticket is Some ==> held_ticket(self.workers[w])
                != self.pending[i].ticket);
        }
        assert forall|v: int| 0 <= v < next.workers.len() implies next.live(
            held_ticket(#[trigger] next.workers[v]),
        ) by {
            if v != w {
                assert(self.live(held_ticket(self.workers[v])));
                if v < w {
                    assert(held_ticket(self.workers[v]) is Some ==> held_ticket(self.workers[v])
                        != held_ticket(self.workers[w]));
                } else {
                    assert(held_ticket(self.workers[w]) is Some ==> held_ticket(self.workers[w])
                        != held_ticket(self.workers[v]));
                }
            }
        }
        assert forall|u: int, v: int|
            0 <= u < v < next.workers.len() && held_ticket(
                #[trigger] next.workers[u],
            ) is Some implies held_ticket(next.workers[u]) != held_ticket(
            #[trigger] next.workers[v],
        ) by {
            if u != w && v != w {
                assert(held_ticket(self.workers[u]) != held_ticket(self.workers[v]));
            }
        }
        assert forall|i: int, v: int|
            0 <= i < next.pending.len() && 0 <= v < next.workers.len() && (
            #[trigger] next.pending[i]).ticket is Some implies held_ticket(
            #[trigger] next.workers[v],
        ) != next.pending[i].ticket by {
            if v != w {
                assert(held_ticket(self.workers[v]) != self.pending[i].ticket);
            }
        }
        assert forall|k: usize|
            k < next.signals.len() && !(#[trigger] next.signals[k as int]) implies next.queued(k)
            || next.in_flight(k) by {
            assert(!self.signals[k as int]);
            assert(done != Some(k));
            if self.queued(k) {
                let i = choose|i: int|
                    0 <= i < self.pending.len() && (#[trigger] self.pending[i]).ticket == Some(k);
                assert(next.pending[i].ticket == Some(k));
            } else {
                let v = choose|v: int|
                    0 <= v < self.workers.len() && held_ticket(#[trigger] self.workers[v]) == Some(
                        k,
                    );
                assert(v != w);
                assert(held_ticket(next.workers[v]) == Some(k));
            }
        }
    }

    /// Requesting shutdown keeps the state well formed.
    pub proof fn lemma_request_shutdown_wf(self)
        requires
            self.wf(),
        ensures
            self.request_shutdown().wf(),
    {
        let next = self.request_shutdown();
        assert forall|k: usize|
            k < next.signals.len() && !(#[trigger] next.signals[k as int]) implies next.queued(k)
            || next.in_flight(k) by {
            if self.queued(k) {
                let i = choose|i: int|
                    0 <= i < self.pending.len() && (#[trigger] self.pending[i]).ticket == Some(k);
                assert(next.pending[i].ticket == Some(k));
            } else {
                let v = choose|v: int|
                    0 <= v < self.workers.len() && held_ticket(#[trigger] self.workers[v]) == Some(
                        k,
                    );
                assert(held_ticket(next.workers[v]) == Some(k));
            }
        }
    }
}

/// A completion signal is set exactly once its task is neither pending nor
/// running: not before the task has returned, and from then on.
pub proof fn law_signal_means_finished<T>(s: QueueState<T>, k: usize)
    requires
        s.wf(),
        k < s.signals.len(),
    ensures
        s.signalled(k) <==> !s.queued(k) && !s.in_flight(k),
{
    if s.signalled(k) {
        if s.queued(k) {
            let i = choose|i: int|
                0 <= i < s.pending.len() && (#[trigger] s.pending[i]).ticket == Some(k);
            assert(s.live(s.pending[i].ticket));
        }
        if s.in_flight(k) {
            let w = choose|w: int|
                0 <= w < s.workers.len() && held_ticket(#[trigger] s.workers[w]) == Some(k);
            assert(s.live(held_ticket(s.workers[w])));
        }
    } else {
        assert(!s.signals[k as int]);
    }
}

/// A scoped task is in one place at a time: while it is pending no worker
/// runs it, and no two workers run it.
pub proof fn law_ticket_in_one_place<T>(s: QueueState<T>, k: usize)
    requires
        s.wf(),
    ensures
        !(s.queued(k) && s.in_flight(k)),
        forall|v: int, w: int|
            0 <= v < s.workers.len() && 0 <= w < s.workers.len() && held_ticket(
                #[trigger] s.workers[v],
            ) == Some(k) && held_ticket(#[trigger] s.workers[w]) == Some(k) ==> v == w,
        forall|i: int, j: int|
            0 <= i < s.pending.len() && 0 <= j < s.pending.len() && (
            #[trigger] s.pending[i]).ticket == Some(k) && (#[trigger] s.pending[j]).ticket == Some(
                k,
            ) ==> i == j,
{
    if s.queued(k) && s.in_flight(k) {
        let i = choose|i: int|
            0 <= i < s.pending.len() && (#[trigger] s.pending[i]).ticket == Some(k);
        let w = choose|w: int|
            0 <= w < s.workers.len() && held_ticket(#[trigger] s.workers[w]) == Some(k);
        assert(held_ticket(s.workers[w]) != s.pending[i].ticket);
    }
    assert forall|v: int, w: int|
        0 <= v < s.workers.len() && 0 <= w < s.workers.len() && held_ticket(
            #[trigger] s.workers[v],
        ) == Some(k) && held_ticket(#[trigger] s.workers[w]) == Some(k) implies v == w by {
        if v < w {
            assert(held_ticket(s.workers[v]) != held_ticket(s.workers[w]));
        } else if w < v {
            assert(held_ticket(s.workers[w]) != held_ticket(s.workers[v]));
        }
    }
    assert forall|i: int, j: int|
        0 <= i < s.pending.len() && 0 <= j < s.pending.len() && (#[trigger] s.pending[i]).ticket
            == Some(k) && (#[trigger] s.pending[j]).ticket == Some(k) implies i == j by {
        if i < j {
            assert(s.pending[i].ticket != s.pending[j].ticket);
        } else if j < i {
            assert(s.pending[j].ticket != s.pending[i].ticket);
        }
    }
}

} // verus!
