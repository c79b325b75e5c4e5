//! What holds of every run of the queue.
//!
//! A run starts from a new pool and is a sequence of events, each of them
//! one call of an operation of [`crate::queue::WorkQueue`]. The laws below
//! are proved of every run in which each event was allowed when it came.
use crate::model::{busy_count, lemma_busy_count_update, lemma_busy_count_zero, tasks_of};
use crate::model::{law_signal_means_finished, Phase, QueueState, Worker};
use vstd::prelude::*;

verus! {

/// One call on the queue.
pub enum Event<T> {
    /// A task is submitted.
    Submit(T),
    /// A task is submitted scoped.
    SubmitScoped(T),
    /// The worker with this index looks at the queue.
    Poll(int),
    /// The worker with this index reports its task finished.
    Finish(int),
    /// Shutdown is requested.
    Shutdown,
}

/// Whether the event may come in this state.
pub open spec fn enabled<T>(s: QueueState<T>, e: Event<T>) -> bool {
    match e {
        Event::Submit(_) => true,
        Event::SubmitScoped(_) => s.can_submit_scoped(),
        Event::Poll(w) => s.can_poll(w),
        Event::Finish(w) => s.can_finish(w),
        Event::Shutdown => true,
    }
}

/// The state after the event.
pub open spec fn step<T>(s: QueueState<T>, e: Event<T>) -> QueueState<T> {
    match e {
        Event::Submit(task) => s.submit(task),
        Event::SubmitScoped(task) => s.submit_scoped(task),
        Event::Poll(w) => s.poll(w),
        Event::Finish(w) => s.finish(w),
        Event::Shutdown => s.request_shutdown(),
    }
}

/// The state of a pool of `n` workers after the events of `trace`.
pub open spec fn run<T>(n: nat, trace: Seq<Event<T>>) -> QueueState<T>
    decreases trace.len(),
{
    if trace.len() == 0 {
        QueueState::fresh(n)
    } else {
        step(run(n, trace.drop_last()), trace.last())
    }
}

/// Whether every event of `trace` was allowed when it came.
pub open spec fn admissible<T>(n: nat, trace: Seq<Event<T>>) -> bool
    decreases trace.len(),
{
    trace.len() == 0 || (admissible(n, trace.drop_last()) && enabled(
        run(n, trace.drop_last()),
        trace.last(),
    ))
}

/// The tasks submitted in `trace`, in the order of submission.
pub open spec fn submitted<T>(trace: Seq<Event<T>>) -> Seq<T>
    decreases trace.len(),
{
    if trace.len() == 0 {
        Seq::empty()
    } else {
        let before = submitted(trace.drop_last());
        match trace.last() {
            Event::Submit(task) => before.push(task),
            Event::SubmitScoped(task) => before.push(task),
            _ => before,
        }
    }
}

/// The tasks handed to workers in `trace`, in the order in which they were
/// taken.
pub open spec fn started<T>(n: nat, trace: Seq<Event<T>>) -> Seq<T>
    decreases trace.len(),
{
    if trace.len() == 0 {
        Seq::empty()
    } else {
        let before = started(n, trace.drop_last());
        let s = run(n, trace.drop_last());
        match trace.last() {
            Event::Poll(_) if s.pending.len() > 0 => before.push(s.pending[0].task),
            _ => before,
        }
    }
}

/// The number of tasks reported finished in `trace`.
pub open spec fn finished<T>(trace: Seq<Event<T>>) -> nat
    decreases trace.len(),
{
    if trace.len() == 0 {
        0
    } else {
        finished(trace.drop_last()) + if trace.last() is Finish {
            1nat
        } else {
            0nat
        }
    }
}

/// Whether nothing was submitted in `trace` once shutdown was requested.
pub open spec fn quiet_after_shutdown<T>(n: nat, trace: Seq<Event<T>>) -> bool
    decreases trace.len(),
{
    trace.len() == 0 || (quiet_after_shutdown(n, trace.drop_last()) && (trace.last() is Submit
        || trace.last() is SubmitScoped ==> !run(n, trace.drop_last()).shutdown))
}

/// A step that is allowed keeps a well-formed state well formed, and never
/// changes the number of workers.
pub proof fn lemma_step_wf<T>(s: QueueState<T>, e: Event<T>)
    requires
        s.wf(),
        enabled(s, e),
    ensures
        step(s, e).wf(),
        step(s, e).workers.len() == s.workers.len(),
{
    match e {
        Event::Submit(task) => s.lemma_submit_wf(task),
        Event::SubmitScoped(task) => s.lemma_submit_scoped_wf(task),
        Event::Poll(w) => s.lemma_poll_wf(w),
        Event::Finish(w) => s.lemma_finish_wf(w),
        Event::Shutdown => s.lemma_request_shutdown_wf(),
    }
}

/// Every run keeps the invariant of the machine and the number of workers.
pub proof fn law_run_wf<T>(n: nat, trace: Seq<Event<T>>)
    requires
        admissible(n, trace),
    ensures
        run(n, trace).wf(),
        run(n, trace).workers.len() == n,
    decreases trace.len(),
{
    if trace.len() == 0 {
        QueueState::<T>::lemma_fresh_wf(n);
    } else {
        law_run_wf(n, trace.drop_last());
        lemma_step_wf(run(n, trace.drop_last()), trace.last());
    }
}

/// First in, first out: the tasks are handed to workers in the order in
/// which they were submitted. At every moment the tasks submitted so far are
/// the tasks taken so far followed by the tasks still pending, so no task is
/// lost, none is taken twice, and none overtakes another.
pub proof fn law_fifo<T>(n: nat, trace: Seq<Event<T>>)
    requires
        admissible(n, trace),
    ensures
        submitted(trace) == started(n, trace) + tasks_of(run(n, trace).pending),
    decreases trace.len(),
{
    if trace.len() == 0 {
        assert(submitted(trace) =~= started(n, trace) + tasks_of(run(n, trace).pending));
    } else {
        let prev = trace.drop_last();
        let s = run(n, prev);
        law_fifo(n, prev);
        assert(submitted(trace) =~= started(n, trace) + tasks_of(run(n, trace).pending));
    }
}

/// Nothing is lost between submission and completion: the running counter
/// plus the length of the queue is the number of tasks submitted minus the
/// number finished, and the tasks taken are those running and those
/// finished.
pub proof fn law_conservation<T>(n: nat, trace: Seq<Event<T>>)
    requires
        admissible(n, trace),
    ensures
        run(n, trace).running() + run(n, trace).pending.len() == submitted(trace).len() - finished(
            trace,
        ),
        started(n, trace).len() == run(n, trace).running() + finished(trace),
    decreases trace.len(),
{
    if trace.len() == 0 {
        QueueState::<T>::lemma_fresh_wf(n);
    } else {
        let prev = trace.drop_last();
        let s = run(n, prev);
        law_conservation(n, prev);
        match trace.last() {
            Event::Poll(w) => {
                if s.pending.len() > 0 {
                    lemma_busy_count_update(s.workers, w, Worker::Busy(s.pending[0].ticket));
                } else if s.shutdown {
                    lemma_busy_count_update(s.workers, w, Worker::Exited);
                }
            },
            Event::Finish(w) => {
                lemma_busy_count_update(s.workers, w, Worker::Idle);
            },
            _ => {},
        }
    }
}

/// Exactly once: when the drain barrier lets a thread pass, every task
/// submitted so far was taken by a worker, in the order of submission, and
/// as many tasks were reported finished as were submitted.
pub proof fn law_drained_means_all_done<T>(n: nat, trace: Seq<Event<T>>)
    requires
        admissible(n, trace),
        run(n, trace).drained(),
    ensures
        started(n, trace) == submitted(trace),
        finished(trace) == submitted(trace).len(),
{
    law_fifo(n, trace);
    law_conservation(n, trace);
    assert(tasks_of(run(n, trace).pending) =~= Seq::<T>::empty());
    assert(started(n, trace) + Seq::<T>::empty() =~= started(n, trace));
}

/// While nothing is submitted after shutdown was requested, a worker that
/// has left saw the queue empty, and the queue has stayed empty since.
proof fn lemma_exit_means_empty<T>(n: nat, trace: Seq<Event<T>>)
    requires
        admissible(n, trace),
        quiet_after_shutdown(n, trace),
    ensures
        forall|w: int|
            0 <= w < run(n, trace).workers.len() && #[trigger] run(n, trace).workers[w] is Exited
                ==> run(n, trace).shutdown && run(n, trace).pending.len() == 0,
    decreases trace.len(),
{
    if trace.len() > 0 {
        let prev = trace.drop_last();
        let s = run(n, prev);
        let next = run(n, trace);
        lemma_exit_means_empty(n, prev);
        assert forall|w: int|
            0 <= w < next.workers.len() && #[trigger] next.workers[w] is Exited implies next.shutdown
            && next.pending.len() == 0 by {
            match trace.last() {
                Event::Poll(v) => {
                    if w != v {
                        assert(s.workers[w] is Exited);
                    }
                },
                Event::Finish(v) => {
                    assert(s.workers[w] is Exited);
                },
                _ => {
                    assert(s.workers[w] is Exited);
                },
            }
        }
    }
}

/// Shutdown drains the backlog: if nothing is submitted once shutdown was
/// requested, then by the time all workers of a pool that has at least one
/// have left, every task submitted was taken in order and reported finished,
/// and nothing is pending.
pub proof fn law_shutdown_drains_backlog<T>(n: nat, trace: Seq<Event<T>>)
    requires
        n >= 1,
        admissible(n, trace),
        quiet_after_shutdown(n, trace),
        run(n, trace).all_exited(),
    ensures
        run(n, trace).phase() == Phase::Terminated,
        run(n, trace).pending.len() == 0,
        started(n, trace) == submitted(trace),
        finished(trace) == submitted(trace).len(),
{
    let s = run(n, trace);
    law_run_wf(n, trace);
    lemma_exit_means_empty(n, trace);
    assert(s.workers[0] is Exited);
    lemma_busy_count_zero(s.workers);
    law_drained_means_all_done(n, trace);
}

/// A pool without workers never runs anything: whatever is submitted stays
/// pending, in order, and the drain barrier lets a thread pass only while
/// nothing was submitted.
pub proof fn law_no_workers<T>(trace: Seq<Event<T>>)
    requires
        admissible(0, trace),
    ensures
        started(0, trace) == Seq::<T>::empty(),
        finished(trace) == 0,
        tasks_of(run(0, trace).pending) == submitted(trace),
        run(0, trace).drained() <==> submitted(trace).len() == 0,
    decreases trace.len(),
{
    law_run_wf(0, trace);
    law_fifo(0, trace);
    law_conservation(0, trace);
    if trace.len() > 0 {
        let prev = trace.drop_last();
        law_no_workers(prev);
        law_run_wf(0, prev);
    }
    assert(run(0, trace).workers =~= Seq::<Worker>::empty());
    assert(Seq::<T>::empty() + tasks_of(run(0, trace).pending) =~= tasks_of(
        run(0, trace).pending,
    ));
}

/// The rank of a phase in the order in which a pool goes through them.
pub open spec fn phase_rank(phase: Phase) -> nat {
    match phase {
        Phase::Running => 0,
        Phase::ShuttingDown => 1,
        Phase::Terminated => 2,
    }
}

/// Shutdown is final: once the flag is set it stays set, a worker that has
/// left stays away, and the pool never goes back to an earlier phase.
pub proof fn law_shutdown_is_final<T>(n: nat, trace: Seq<Event<T>>, i: int)
    requires
        admissible(n, trace),
        0 <= i <= trace.len(),
    ensures
        run(n, trace.take(i)).shutdown ==> run(n, trace).shutdown,
        forall|w: int|
            0 <= w < n && #[trigger] run(n, trace.take(i)).workers[w] is Exited ==> run(
                n,
                trace,
            ).workers[w] is Exited,
        phase_rank(run(n, trace.take(i)).phase()) <= phase_rank(run(n, trace).phase()),
    decreases trace.len() - i,
{
    if i == trace.len() {
        assert(trace.take(i) =~= trace);
    } else {
        let prev = trace.drop_last();
        let s = run(n, prev);
        let early = run(n, trace.take(i));
        lemma_admissible_prefix(n, trace, trace.len() - 1);
        assert(trace.take(trace.len() - 1) =~= prev);
        assert(prev.take(i) =~= trace.take(i));
        law_shutdown_is_final(n, prev, i);
        law_run_wf(n, prev);
        law_run_wf(n, trace);
        lemma_admissible_prefix(n, trace, i);
        law_run_wf(n, trace.take(i));
        let last = run(n, trace);
        assert forall|w: int| 0 <= w < n && #[trigger] early.workers[w] is Exited implies last.workers[w] is Exited by {
            assert(s.workers[w] is Exited);
        }
        if early.shutdown && early.all_exited() {
            assert forall|w: int| 0 <= w < last.workers.len() implies #[trigger] last.workers[w] is Exited by {
                assert(early.workers[w] is Exited);
            }
        }
    }
}

/// Every prefix of an admissible run is admissible.
pub proof fn lemma_admissible_prefix<T>(n: nat, trace: Seq<Event<T>>, i: int)
    requires
        admissible(n, trace),
        0 <= i <= trace.len(),
    ensures
        admissible(n, trace.take(i)),
    decreases trace.len(),
{
    if i == trace.len() {
        assert(trace.take(i) =~= trace);
    } else {
        let prev = trace.drop_last();
        assert(prev.take(i) =~= trace.take(i));
        lemma_admissible_prefix(n, prev, i);
    }
}

/// The work that is left in a state: a pending task has to be taken and
/// finished, a running task has to be finished.
pub open spec fn work_left<T>(s: QueueState<T>) -> nat {
    2 * s.pending.len() + s.running()
}

/// Whether worker `w` can bring the pool nearer to the drained state: by
/// finishing its task, or by taking the oldest pending one.
pub open spec fn can_progress<T>(s: QueueState<T>, w: int) -> bool {
    s.can_finish(w) || (s.can_poll(w) && s.pending.len() > 0)
}

/// No deadlock: while work is left and some worker has not left, a worker
/// can finish its task or take the oldest pending one.
pub proof fn law_progress_is_possible<T>(s: QueueState<T>)
    requires
        s.wf(),
        !s.drained(),
        exists|w: int| 0 <= w < s.workers.len() && !(#[trigger] s.workers[w] is Exited),
    ensures
        exists|w: int| #[trigger] can_progress(s, w),
{
    lemma_busy_count_zero(s.workers);
    if s.running() > 0 {
        let w = choose|w: int| 0 <= w < s.workers.len() && #[trigger] s.workers[w] is Busy;
        assert(can_progress(s, w));
    } else {
        let w = choose|w: int| 0 <= w < s.workers.len() && !(#[trigger] s.workers[w] is Exited);
        assert(!(s.workers[w] is Busy));
        assert(can_progress(s, w));
    }
}

/// Every such step is one step nearer to the drained state: taking a task
/// and finishing one each lessen the work that is left by one, so it is done
/// after as many steps as work is left.
pub proof fn law_progress_lessens_work<T>(s: QueueState<T>, w: int)
    requires
        s.wf(),
    ensures
        s.can_finish(w) ==> work_left(s.finish(w)) == work_left(s) - 1,
        s.can_poll(w) && s.pending.len() > 0 ==> work_left(s.poll(w)) == work_left(s) - 1,
        work_left(s) == 0 <==> s.drained(),
{
    if s.can_finish(w) {
        lemma_busy_count_update(s.workers, w, Worker::Idle);
    }
    if s.can_poll(w) && s.pending.len() > 0 {
        lemma_busy_count_update(s.workers, w, Worker::Busy(s.pending[0].ticket));
    }
}

/// In every run, the completion signal of a scoped task is set exactly once
/// the task is neither pending nor running.
pub proof fn law_signal_follows_the_task<T>(n: nat, trace: Seq<Event<T>>, k: usize)
    requires
        admissible(n, trace),
        k < run(n, trace).signals.len(),
    ensures
        run(n, trace).signalled(k) <==> !run(n, trace).queued(k) && !run(n, trace).in_flight(k),
{
    law_run_wf(n, trace);
    law_signal_means_finished(run(n, trace), k);
}

} // verus!
