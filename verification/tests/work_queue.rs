use workqueue::model::{Phase, Worker};
use workqueue::queue::{Barrier, Step, Wake, WorkQueue};

/// Lets one idle worker take tasks and finish them until it has to wait or
/// leaves; returns the tasks in the order in which it ran them.
fn work_until_idle(queue: &mut WorkQueue<u32>, worker: usize) -> (Vec<u32>, bool) {
    let mut ran = Vec::new();
    loop {
        match queue.poll(worker) {
            Step::Run(task) => {
                ran.push(task);
                queue.finish(worker);
            }
            Step::Wait => return (ran, false),
            Step::Exit => return (ran, true),
        }
    }
}

#[test]
fn new_pool_is_idle_and_drained() {
    let queue: WorkQueue<u32> = WorkQueue::new(3);
    assert_eq!(queue.num_workers(), 3);
    assert_eq!(queue.len(), 0);
    assert_eq!(queue.running(), 0);
    assert_eq!(queue.num_signals(), 0);
    assert!(!queue.is_shutdown());
    assert_eq!(queue.phase(), Phase::Running);
    assert_eq!(queue.wait_done(), Barrier::Pass);
    for w in 0..3 {
        assert_eq!(queue.status(w), Some(Worker::Idle));
    }
    assert_eq!(queue.status(3), None);
}

#[test]
fn submit_wakes_one_and_shutdown_wakes_all() {
    let mut queue: WorkQueue<u32> = WorkQueue::new(2);
    assert_eq!(queue.submit(5), Wake::One);
    assert_eq!(queue.len(), 1);
    assert_eq!(queue.shutdown(), Wake::All);
    assert!(queue.is_shutdown());
}

#[test]
fn execution_order_is_submission_order() {
    let mut queue: WorkQueue<u32> = WorkQueue::new(1);
    let order = vec![7u32, 3, 9, 1, 1, 8, 0, 4];
    for &task in &order {
        queue.submit(task);
    }
    let (ran, left) = work_until_idle(&mut queue, 0);
    assert_eq!(ran, order);
    assert!(!left);
}

#[test]
fn tasks_are_taken_oldest_first_by_whichever_worker_asks() {
    let mut queue: WorkQueue<u32> = WorkQueue::new(3);
    for task in 0..6u32 {
        queue.submit(task);
    }
    let mut taken = Vec::new();
    for w in [2usize, 0, 1] {
        match queue.poll(w) {
            Step::Run(task) => taken.push(task),
            _ => panic!("a task was pending"),
        }
    }
    assert_eq!(taken, vec![0, 1, 2]);
    assert_eq!(queue.running(), 3);
    assert_eq!(queue.len(), 3);
    queue.finish(0);
    match queue.poll(0) {
        Step::Run(task) => assert_eq!(task, 3),
        _ => panic!("a task was pending"),
    }
    assert_eq!(queue.status(0), Some(Worker::Busy(None)));
    assert_eq!(queue.status(1), Some(Worker::Busy(None)));
}

#[test]
fn every_task_runs_exactly_once_under_any_worker_count() {
    for workers in 1usize..=5 {
        let n = 37u32;
        let mut queue: WorkQueue<u32> = WorkQueue::new(workers);
        for task in 0..n {
            queue.submit(task);
        }
        let mut counter = 0u32;
        let mut round = 0usize;
        while queue.wait_done() == Barrier::Block {
            let w = round % workers;
            round += 1;
            match queue.status(w) {
                Some(Worker::Idle) => {
                    if let Step::Run(_) = queue.poll(w) {
                        counter += 1;
                    }
                }
                Some(Worker::Busy(_)) => {
                    queue.finish(w);
                }
                _ => panic!("no worker has left"),
            }
        }
        assert_eq!(counter, n);
        assert_eq!(queue.len(), 0);
        assert_eq!(queue.running(), 0);
    }
}

#[test]
fn drain_leaves_each_index_in_the_log_once() {
    let mut queue: WorkQueue<u32> = WorkQueue::new(4);
    for index in 0..100u32 {
        queue.submit(index);
    }
    let mut log = Vec::new();
    let mut round = 0usize;
    while queue.wait_done() == Barrier::Block {
        let w = (round * 3 + round / 4) % 4;
        round += 1;
        match queue.status(w) {
            Some(Worker::Idle) => {
                if let Step::Run(index) = queue.poll(w) {
                    log.push(index);
                }
            }
            Some(Worker::Busy(_)) => {
                queue.finish(w);
            }
            _ => panic!("no worker has left"),
        }
    }
    assert_eq!(log.len(), 100);
    let mut seen = vec![0u32; 100];
    for &index in &log {
        seen[index as usize] += 1;
    }
    assert!(seen.iter().all(|&count| count == 1));
    assert_eq!(log, (0..100).collect::<Vec<u32>>());
}

#[test]
fn scoped_handle_passes_only_after_the_task_has_returned() {
    let mut queue: WorkQueue<u32> = WorkQueue::new(1);
    let mut local = 0u32;
    let handle = queue.submit_scoped(41);
    assert_eq!(handle.ticket(), 0);
    assert_eq!(queue.num_signals(), 1);
    assert_eq!(handle.wait_done(&queue), Barrier::Block);
    let task = match queue.poll(0) {
        Step::Run(task) => task,
        _ => panic!("a task was pending"),
    };
    assert_eq!(queue.status(0), Some(Worker::Busy(Some(0))));
    assert_eq!(handle.wait_done(&queue), Barrier::Block);
    local += task + 1;
    assert_eq!(handle.wait_done(&queue), Barrier::Block);
    assert_eq!(queue.finish(0), Some(0));
    assert_eq!(handle.wait_done(&queue), Barrier::Pass);
    assert_eq!(handle.wait_done(&queue), Barrier::Pass);
    assert_eq!(local, 42);
}

#[test]
fn scoped_handles_are_signalled_one_by_one() {
    let mut queue: WorkQueue<u32> = WorkQueue::new(2);
    let first = queue.submit_scoped(10);
    queue.submit(11);
    let second = queue.submit_scoped(12);
    assert_eq!(first.ticket(), 0);
    assert_eq!(second.ticket(), 1);
    assert!(matches!(queue.poll(0), Step::Run(10)));
    assert!(matches!(queue.poll(1), Step::Run(11)));
    assert_eq!(queue.finish(1), None);
    assert_eq!(first.wait_done(&queue), Barrier::Block);
    assert!(matches!(queue.poll(1), Step::Run(12)));
    assert_eq!(queue.finish(1), Some(1));
    assert_eq!(second.wait_done(&queue), Barrier::Pass);
    assert_eq!(first.wait_done(&queue), Barrier::Block);
    assert_eq!(queue.finish(0), Some(0));
    assert_eq!(first.wait_done(&queue), Barrier::Pass);
    assert_eq!(queue.wait_done(), Barrier::Pass);
}

#[test]
fn handle_of_another_queue_never_passes_on_a_queue_without_its_signal() {
    let mut issuing: WorkQueue<u32> = WorkQueue::new(1);
    let other: WorkQueue<u32> = WorkQueue::new(1);
    let handle = issuing.submit_scoped(1);
    assert_eq!(handle.wait_done(&other), Barrier::Block);
}

#[test]
fn shutdown_drains_the_backlog() {
    let mut queue: WorkQueue<u32> = WorkQueue::new(3);
    for task in 0..50u32 {
        queue.submit(task);
    }
    queue.shutdown();
    assert_eq!(queue.phase(), Phase::ShuttingDown);
    let mut ran = Vec::new();
    let mut left = 0;
    let mut round = 0usize;
    while left < 3 {
        let w = round % 3;
        round += 1;
        match queue.status(w) {
            Some(Worker::Idle) => match queue.poll(w) {
                Step::Run(task) => ran.push(task),
                Step::Exit => left += 1,
                Step::Wait => panic!("no worker waits once shutdown was requested"),
            },
            Some(Worker::Busy(_)) => {
                queue.finish(w);
            }
            _ => {}
        }
    }
    assert_eq!(ran, (0..50).collect::<Vec<u32>>());
    assert_eq!(queue.len(), 0);
    assert_eq!(queue.running(), 0);
    assert_eq!(queue.phase(), Phase::Terminated);
    for w in 0..3 {
        assert_eq!(queue.status(w), Some(Worker::Exited));
    }
}

#[test]
fn worker_holding_a_task_finishes_it_after_shutdown() {
    let mut queue: WorkQueue<u32> = WorkQueue::new(1);
    queue.submit(1);
    assert!(matches!(queue.poll(0), Step::Run(1)));
    queue.shutdown();
    assert_eq!(queue.status(0), Some(Worker::Busy(None)));
    assert_eq!(queue.wait_done(), Barrier::Block);
    queue.finish(0);
    assert_eq!(queue.wait_done(), Barrier::Pass);
    assert!(matches!(queue.poll(0), Step::Exit));
    assert_eq!(queue.phase(), Phase::Terminated);
}

#[test]
fn idle_worker_waits_until_shutdown_then_leaves() {
    let mut queue: WorkQueue<u32> = WorkQueue::new(2);
    assert!(matches!(queue.poll(0), Step::Wait));
    assert_eq!(queue.status(0), Some(Worker::Idle));
    queue.shutdown();
    assert!(matches!(queue.poll(0), Step::Exit));
    assert_eq!(queue.status(0), Some(Worker::Exited));
    assert_eq!(queue.phase(), Phase::ShuttingDown);
    assert!(matches!(queue.poll(1), Step::Exit));
    assert_eq!(queue.phase(), Phase::Terminated);
}

#[test]
fn two_waiters_pass_only_after_the_slow_task_is_done() {
    let mut queue: WorkQueue<u32> = WorkQueue::new(1);
    queue.submit(99);
    let first_before = queue.wait_done();
    let second_before = queue.wait_done();
    assert_eq!(first_before, Barrier::Block);
    assert_eq!(second_before, Barrier::Block);
    assert!(matches!(queue.poll(0), Step::Run(99)));
    assert_eq!(queue.len(), 0);
    assert_eq!(queue.wait_done(), Barrier::Block);
    assert_eq!(queue.wait_done(), Barrier::Block);
    queue.finish(0);
    assert_eq!(queue.wait_done(), Barrier::Pass);
    assert_eq!(queue.wait_done(), Barrier::Pass);
}

#[test]
fn pool_without_workers_never_runs_anything() {
    let mut queue: WorkQueue<u32> = WorkQueue::new(0);
    assert_eq!(queue.num_workers(), 0);
    assert_eq!(queue.wait_done(), Barrier::Pass);
    queue.submit(1);
    let handle = queue.submit_scoped(2);
    assert_eq!(queue.status(0), None);
    assert_eq!(queue.len(), 2);
    assert_eq!(queue.running(), 0);
    assert_eq!(queue.wait_done(), Barrier::Block);
    assert_eq!(handle.wait_done(&queue), Barrier::Block);
    queue.shutdown();
    assert_eq!(queue.phase(), Phase::Terminated);
    assert_eq!(queue.len(), 2);
    assert_eq!(queue.wait_done(), Barrier::Block);
}

#[test]
fn submit_after_shutdown_is_accepted_but_may_never_run() {
    let mut queue: WorkQueue<u32> = WorkQueue::new(1);
    queue.shutdown();
    assert!(matches!(queue.poll(0), Step::Exit));
    assert_eq!(queue.submit(3), Wake::One);
    assert_eq!(queue.len(), 1);
    assert_eq!(queue.phase(), Phase::Terminated);
    assert_eq!(queue.wait_done(), Barrier::Block);
}

#[test]
fn submit_after_shutdown_still_runs_while_a_worker_is_left() {
    let mut queue: WorkQueue<u32> = WorkQueue::new(1);
    queue.shutdown();
    queue.submit(3);
    let (ran, left) = work_until_idle(&mut queue, 0);
    assert_eq!(ran, vec![3]);
    assert!(left);
}

#[test]
fn shutdown_twice_changes_nothing_more() {
    let mut queue: WorkQueue<u32> = WorkQueue::new(1);
    queue.submit(1);
    assert_eq!(queue.shutdown(), Wake::All);
    assert_eq!(queue.shutdown(), Wake::All);
    assert!(queue.is_shutdown());
    assert_eq!(queue.len(), 1);
    assert_eq!(queue.phase(), Phase::ShuttingDown);
}

#[test]
fn running_counter_plus_queue_length_is_what_is_not_finished() {
    let mut queue: WorkQueue<u32> = WorkQueue::new(2);
    let mut submitted = 0usize;
    let mut finished = 0usize;
    for task in 0..5u32 {
        queue.submit(task);
        submitted += 1;
        assert_eq!(queue.running() + queue.len(), submitted - finished);
    }
    assert!(matches!(queue.poll(0), Step::Run(0)));
    assert_eq!(queue.running() + queue.len(), submitted - finished);
    assert!(matches!(queue.poll(1), Step::Run(1)));
    assert_eq!(queue.running(), 2);
    assert_eq!(queue.len(), 3);
    queue.finish(0);
    finished += 1;
    assert_eq!(queue.running() + queue.len(), submitted - finished);
    queue.finish(1);
    finished += 1;
    assert_eq!(queue.running(), 0);
    assert_eq!(queue.running() + queue.len(), submitted - finished);
}

#[test]
fn tasks_need_not_be_copyable() {
    let mut queue: WorkQueue<Box<dyn FnOnce() -> u32>> = WorkQueue::new(1);
    queue.submit(Box::new(|| 6 * 7));
    match queue.poll(0) {
        Step::Run(task) => assert_eq!(task(), 42),
        _ => panic!("a task was pending"),
    }
    queue.finish(0);
    assert_eq!(queue.wait_done(), Barrier::Pass);
}
