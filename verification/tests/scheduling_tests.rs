use rtow::taskrunner::{DrainStep, Message, Runner, StarvationTracker, Worker, WorkerAction};
use rtow::threadpool;
use rtow::threadpool::ThreadPool;

#[test]
fn runner_assigns_round_robin() {
    let mut runner = Runner::new(3);
    let mut targets = Vec::new();
    for task in 0..7 {
        let (worker, message) = runner.add_task(task);
        assert!(matches!(message, Message::NewJob(t) if t == task));
        targets.push(worker);
    }
    assert_eq!(targets, vec![0, 1, 2, 0, 1, 2, 0]);
}

#[test]
fn runner_with_one_worker_always_picks_it() {
    let mut runner = Runner::new(1);
    for task in 0..5 {
        assert_eq!(runner.add_task(task).0, 0);
    }
}

#[test]
fn runner_balances_tasks() {
    // 120 tasks over 12 workers: ten each.
    let mut runner = Runner::new(12);
    let mut counts = vec![0usize; 12];
    for task in 0..120 {
        counts[runner.add_task(task).0] += 1;
    }
    assert!(counts.iter().all(|&c| c == 10));
    // 25 tasks over 4 workers: the first worker gets one more.
    let mut runner = Runner::new(4);
    let mut counts = vec![0usize; 4];
    for task in 0..25 {
        counts[runner.add_task(task).0] += 1;
    }
    assert_eq!(counts, vec![7, 6, 6, 6]);
}

#[test]
fn runner_lists_its_workers_and_terminates_each() {
    let runner = Runner::new(4);
    assert_eq!(runner.num_threads(), 4);
    let ids: Vec<usize> = runner.workers().iter().map(|w| w.id).collect();
    assert_eq!(ids, vec![0, 1, 2, 3]);
    let pushes = runner.join_all::<u8>();
    assert_eq!(pushes.len(), 4);
    for (k, (queue, message)) in pushes.into_iter().enumerate() {
        assert_eq!(queue, k);
        assert!(matches!(message, Message::Terminate));
    }
    assert!(Runner::new(0).workers().is_empty());
}

#[test]
fn worker_steps() {
    let worker = Worker { id: 5 };
    assert!(matches!(worker.step::<u32>(None), WorkerAction::ReportStarved(5)));
    assert!(matches!(worker.step(Some(Message::NewJob(9u32))), WorkerAction::Run(9)));
    assert!(matches!(worker.step::<u32>(Some(Message::Terminate)), WorkerAction::Stop));
    assert!(matches!(worker.step::<u32>(Some(Message::Starved(2))), WorkerAction::Skip));
}

#[test]
fn tracker_waits_for_every_worker() {
    let mut tracker = StarvationTracker::new(3);
    assert!(!tracker.all_reported());
    assert!(matches!(tracker.observe::<u8>(Some(Message::Starved(1))), DrainStep::KeepDraining));
    assert!(matches!(tracker.observe::<u8>(Some(Message::NewJob(0))), DrainStep::KeepDraining));
    assert!(matches!(tracker.observe::<u8>(Some(Message::Starved(1))), DrainStep::StopDraining));
    assert!(!tracker.all_reported());
    assert!(matches!(tracker.observe::<u8>(None), DrainStep::StopDraining));
    assert!(matches!(tracker.observe::<u8>(Some(Message::Starved(0))), DrainStep::KeepDraining));
    assert!(!tracker.all_reported());
    assert!(matches!(tracker.observe::<u8>(Some(Message::Starved(2))), DrainStep::KeepDraining));
    assert!(tracker.all_reported());
}

#[test]
fn tracker_without_workers_never_finishes() {
    let tracker = StarvationTracker::new(0);
    assert!(!tracker.all_reported());
}

#[test]
fn thread_pool_has_at_least_one_worker() {
    assert_eq!(ThreadPool::new(0).num_threads(), 1);
    assert_eq!(ThreadPool::new(8).num_threads(), 8);
    let ids: Vec<usize> = ThreadPool::new(3).workers().iter().map(|w| w.id).collect();
    assert_eq!(ids, vec![0, 1, 2]);
}

#[test]
fn thread_pool_messages() {
    let pool = ThreadPool::new(2);
    assert!(matches!(pool.execute("job"), threadpool::Message::NewJob("job")));
    let stops = pool.terminate_all::<u8>();
    assert_eq!(stops.len(), 2);
    assert!(stops.iter().all(|m| matches!(m, threadpool::Message::Terminate)));
    let worker = threadpool::Worker { id: 0 };
    assert!(matches!(worker.step(threadpool::Message::NewJob(3)), threadpool::WorkerAction::Run(3)));
    assert!(matches!(
        worker.step::<u8>(threadpool::Message::Terminate),
        threadpool::WorkerAction::Stop
    ));
}

// Drives one worker over the queue it was given, as its thread does, and
// returns the jobs run and whether it stopped.
fn run_worker(worker: &Worker, queue: Vec<Message<usize>>) -> (Vec<usize>, bool) {
    let mut ran = Vec::new();
    for message in queue {
        match worker.step(Some(message)) {
            WorkerAction::Run(job) => ran.push(job),
            WorkerAction::Stop => return (ran, true),
            _ => {}
        }
    }
    (ran, false)
}

#[test]
fn worker_runs_its_queue_in_order_until_terminate() {
    let worker = Worker { id: 1 };
    let queue = vec![
        Message::NewJob(4),
        Message::Starved(0),
        Message::NewJob(2),
        Message::Terminate,
        Message::NewJob(9),
    ];
    assert_eq!(run_worker(&worker, queue), (vec![4, 2], true));
    let queue = vec![Message::NewJob(7), Message::NewJob(8)];
    assert_eq!(run_worker(&worker, queue), (vec![7, 8], false));
}

#[test]
fn joined_runner_runs_every_task_once() {
    // 10 tasks over 3 workers, then join: every task runs once, each worker's
    // share in the order added.
    let mut runner = Runner::new(3);
    let mut queues: Vec<Vec<Message<usize>>> = vec![Vec::new(), Vec::new(), Vec::new()];
    for task in 0..10 {
        let (worker, message) = runner.add_task(task);
        queues[worker].push(message);
    }
    for (worker, message) in runner.join_all() {
        queues[worker].push(message);
    }
    let mut seen = vec![0usize; 10];
    for (id, queue) in queues.into_iter().enumerate() {
        let (ran, stopped) = run_worker(&Worker { id }, queue);
        assert!(stopped);
        let expected: Vec<usize> = (0..10).filter(|m| m % 3 == id).collect();
        assert_eq!(ran, expected);
        for task in ran {
            seen[task] += 1;
        }
    }
    assert!(seen.iter().all(|&c| c == 1));
}
