//! Decisions of the task runner: a fixed set of worker threads, each with its
//! own task queue, fed round-robin. The runner's owner performs the actions
//! these functions choose (pushing onto queues, running jobs, joining threads).
use vstd::prelude::*;

verus! {

/// What travels through a worker's queue, or from a worker back to the runner.
pub enum Message<J> {
    /// A job for the worker to run.
    NewJob(J),
    /// The worker is to stop.
    Terminate,
    /// The worker with this id found its queue empty.
    Starved(usize),
}

/// What a worker does after taking the front of its queue.
pub enum WorkerAction<J> {
    /// Run the job.
    Run(J),
    /// Tell the runner `Starved(id)`, sleep a millisecond and try again.
    ReportStarved(usize),
    /// Leave the worker loop.
    Stop,
    /// Ignore the message and take the next one.
    Skip,
}

/// A worker thread of the runner, known by its index.
pub struct Worker {
    pub id: usize,
}

/// What worker `id` does after popping `popped` from the front of its queue:
/// an empty queue is reported as `Starved(id)`, a job is run, `Terminate`
/// stops the worker, and a stray `Starved` is passed over.
pub open spec fn worker_action<J>(id: usize, popped: Option<Message<J>>) -> WorkerAction<J> {
    match popped {
        None => WorkerAction::ReportStarved(id),
        Some(Message::NewJob(job)) => WorkerAction::Run(job),
        Some(Message::Terminate) => WorkerAction::Stop,
        Some(Message::Starved(_)) => WorkerAction::Skip,
    }
}

impl Worker {
    /// One turn of the worker loop, given what popping the queue gave back.
    pub fn step<J>(&self, popped: Option<Message<J>>) -> (action: WorkerAction<J>)
        ensures
            action == worker_action(self.id, popped),
    {
        match popped {
            None => WorkerAction::ReportStarved(self.id),
            Some(Message::NewJob(job)) => WorkerAction::Run(job),
            Some(Message::Terminate) => WorkerAction::Stop,
            Some(Message::Starved(_)) => WorkerAction::Skip,
        }
    }
}

/// The worker that receives the task after the one that went to `last`, among
/// `n` workers: the next one, wrapping to 0 after the last.
pub open spec fn next_worker(n: nat, last: nat) -> nat {
    if last + 1 < n {
        last + 1
    } else {
        0
    }
}

/// The runner's choice of worker after `k` tasks were added to a fresh runner
/// of `n` workers.
pub open spec fn worker_after(n: nat, k: nat) -> nat
    decreases k,
{
    if k == 0 {
        0
    } else {
        next_worker(n, worker_after(n, (k - 1) as nat))
    }
}

/// The workers that the first `k` tasks went to, in order.
pub open spec fn assignments(n: nat, k: nat) -> Seq<nat> {
    Seq::new(k, |m: int| worker_after(n, m as nat))
}

/// Number of the first `k` tasks that went to worker `w`.
pub open spec fn tasks_of(n: nat, k: nat, w: nat) -> nat {
    assignments(n, k).filter(is_worker(w)).len()
}

/// Recognises the tasks that went to worker `w`.
pub open spec fn is_worker(w: nat) -> spec_fn(nat) -> bool {
    |x: nat| x == w
}

/// The round-robin scheduler of the task runner.
pub struct Runner {
    num_threads: usize,
    last_add: usize,
}

impl Runner {
    /// Number of workers.
    pub closed spec fn threads(&self) -> nat {
        self.num_threads as nat
    }

    /// The worker that receives the next task.
    pub closed spec fn next(&self) -> nat {
        self.last_add as nat
    }

    /// The next worker is one of the workers (or 0 when there are none).
    pub closed spec fn wf(&self) -> bool {
        if self.num_threads == 0 {
            self.last_add == 0
        } else {
            self.last_add < self.num_threads
        }
    }

    /// A runner over `size` workers, `0..size`, whose first task goes to worker 0.
    pub fn new(size: usize) -> (runner: Runner)
        ensures
            runner.wf(),
            runner.threads() == size,
            runner.next() == 0,
    {
        Runner { num_threads: size, last_add: 0 }
    }

    /// Number of workers.
    pub fn num_threads(&self) -> (n: usize)
        ensures
            n == self.threads(),
    {
        self.num_threads
    }

    /// The workers to start, in order: `Worker { id: 0 }` up to `size - 1`.
    pub fn workers(&self) -> (ws: Vec<Worker>)
        ensures
            ws@.len() == self.threads(),
            forall|k: int| 0 <= k < ws@.len() ==> #[trigger] ws@[k].id == k,
    {
        let mut ws: Vec<Worker> = Vec::new();
        let mut v: usize = 0;
        while v < self.num_threads
            invariant
                v <= self.num_threads,
                ws@.len() == v,
                forall|k: int| 0 <= k < v ==> #[trigger] ws@[k].id == k,
            decreases self.num_threads - v,
        {
            ws.push(Worker { id: v });
            v = v + 1;
        }
        ws
    }

    /// Adds a task: the job goes as `NewJob` to the queue of the current worker,
    /// and the next task goes to the following worker, wrapping around.
    ///
    /// Picking a worker needs at least one: a runner without workers takes no
    /// task (indexing its workers, and `threads - 1`, would fail).
    pub fn add_task<J>(&mut self, f: J) -> (push: (usize, Message<J>))
        requires
            old(self).wf(),
            old(self).threads() > 0,
        ensures
            final(self).wf(),
            push.0 == old(self).next(),
            push.0 < old(self).threads(),
            push.1 == Message::NewJob(f),
            final(self).threads() == old(self).threads(),
            final(self).next() == next_worker(old(self).threads(), old(self).next()),
            final(self).next() < final(self).threads(),
    {
        let target = self.last_add;
        self.last_add = if self.last_add < self.num_threads - 1 {
            self.last_add + 1
        } else {
            0
        };
        (target, Message::NewJob(f))
    }

    /// What joining the runner sends: `Terminate` to the queue of every worker,
    /// in worker order; the threads are joined afterwards.
    pub fn join_all<J>(&self) -> (pushes: Vec<(usize, Message<J>)>)
        ensures
            pushes@.len() == self.threads(),
            forall|k: int|
                0 <= k < pushes@.len() ==> #[trigger] pushes@[k] == (k as usize, Message::<J>::Terminate),
    {
        let mut pushes: Vec<(usize, Message<J>)> = Vec::new();
        let mut v: usize = 0;
        while v < self.num_threads
            invariant
                v <= self.num_threads,
                pushes@.len() == v,
                forall|k: int|
                    0 <= k < v ==> #[trigger] pushes@[k] == (k as usize, Message::<J>::Terminate),
            decreases self.num_threads - v,
        {
            pushes.push((v, Message::Terminate));
            v = v + 1;
        }
        pushes
    }
}

/// The `k`-th task added to a fresh runner of `n` workers goes to worker `k % n`.
pub proof fn lemma_round_robin(n: nat, k: nat)
    requires
        n > 0,
    ensures
        worker_after(n, k) == k % n,
    decreases k,
{
    if k == 0 {
        vstd::arithmetic::div_mod::lemma_small_mod(0, n);
    }
    if k > 0 {
        lemma_round_robin(n, (k - 1) as nat);
        let q = (k - 1) / n as int;
        let r = (k - 1) % n as int;
        vstd::arithmetic::div_mod::lemma_fundamental_div_mod((k - 1) as int, n as int);
        assert((k - 1) == q * n + r) by (nonlinear_arith)
            requires
                (k - 1) == n * q + r,
        ;
        assert(worker_after(n, (k - 1) as nat) == r);
        assert(worker_after(n, k) == next_worker(n, r as nat));
        if r + 1 < n {
            assert(k == q * n + (r + 1));
            vstd::arithmetic::div_mod::lemma_fundamental_div_mod_converse(k as int, n as int, q, r + 1);
        } else {
            assert(k == (q + 1) * n) by (nonlinear_arith)
                requires
                    k - 1 == q * n + r,
                    r + 1 == n,
            ;
            vstd::arithmetic::div_mod::lemma_fundamental_div_mod_converse(k as int, n as int, q + 1, 0);
        }
    }
}

/// Round-robin balance: of the first `k` tasks added to a fresh runner of `n`
/// workers, worker `w` receives `k / n`, plus one more when `w < k % n`; so no
/// two workers' counts differ by more than one.
pub proof fn lemma_round_robin_balanced(n: nat, k: nat, w: nat)
    requires
        n > 0,
        w < n,
    ensures
        tasks_of(n, k, w) == k / n + if w < k % n { 1nat } else { 0nat },
    decreases k,
{
    let pred = is_worker(w);
    if k == 0 {
        assert(assignments(n, 0) =~= Seq::<nat>::empty());
        assert(assignments(n, 0).filter(pred) =~= Seq::<nat>::empty());
        vstd::arithmetic::div_mod::lemma_small_mod(0, n);
        assert(0nat / n == 0) by (nonlinear_arith)
            requires
                n > 0,
        ;
    } else {
        let j = (k - 1) as nat;
        lemma_round_robin_balanced(n, j, w);
        lemma_round_robin(n, j);
        assert(assignments(n, k) =~= assignments(n, j).push(worker_after(n, j)));
        assignments(n, j).lemma_filter_push(worker_after(n, j), pred);
        let q = j / n;
        let r = j % n;
        vstd::arithmetic::div_mod::lemma_fundamental_div_mod(j as int, n as int);
        assert(j == q * n + r) by (nonlinear_arith)
            requires
                j == n * q + r,
        ;
        assert(tasks_of(n, k, w) == tasks_of(n, j, w) + if r == w { 1nat } else { 0nat });
        if r + 1 < n {
            vstd::arithmetic::div_mod::lemma_fundamental_div_mod_converse(
                k as int,
                n as int,
                q as int,
                (r + 1) as int,
            );
        } else {
            assert(k == (q + 1) * n) by (nonlinear_arith)
                requires
                    j == q * n + r,
                    r + 1 == n,
                    k == j + 1,
            ;
            vstd::arithmetic::div_mod::lemma_fundamental_div_mod_converse(
                k as int,
                n as int,
                (q + 1) as int,
                0,
            );
        }
    }
}

/// What `wait_all` does after handling one result of `try_recv`.
#[derive(Debug, Clone, Copy, PartialEq, Eq)]
pub enum DrainStep {
    /// Take the next message from the channel.
    KeepDraining,
    /// Stop draining and check whether every worker has reported.
    StopDraining,
}

/// The effect of one `try_recv` result on the record of starved workers:
/// a first `Starved(idx)` marks worker `idx`; nothing else changes it.
pub open spec fn record_after<J>(checker: Seq<bool>, received: Option<Message<J>>) -> Seq<bool> {
    match received {
        Some(Message::Starved(idx)) => checker.update(idx as int, true),
        _ => checker,
    }
}

/// The record after handling `events` in order, starting from `checker`.
pub open spec fn record_after_all<J>(checker: Seq<bool>, events: Seq<Option<Message<J>>>) -> Seq<
    bool,
>
    decreases events.len(),
{
    if events.len() == 0 {
        checker
    } else {
        record_after(record_after_all(checker, events.drop_last()), events.last())
    }
}

/// The record of `n` workers before any report.
pub open spec fn no_reports(n: nat) -> Seq<bool> {
    Seq::new(n, |i: int| false)
}

/// `events` holds a `Starved(w)` report.
pub open spec fn reported<J>(events: Seq<Option<Message<J>>>, w: usize) -> bool {
    exists|k: int| 0 <= k < events.len() && #[trigger] events[k] == Some(Message::<J>::Starved(w))
}

/// Every `Starved` report in `events` names one of `n` workers.
pub open spec fn reports_in_range<J>(events: Seq<Option<Message<J>>>, n: nat) -> bool {
    forall|k: int|
        0 <= k < events.len() ==> (#[trigger] events[k] matches Some(Message::Starved(idx)) ==> idx < n)
}

/// The record that `wait_all` keeps of which workers have found their queue empty.
pub struct StarvationTracker {
    checker: Vec<bool>,
}

impl View for StarvationTracker {
    type V = Seq<bool>;

    closed spec fn view(&self) -> Seq<bool> {
        self.checker@
    }
}

impl StarvationTracker {
    /// A record for `n` workers, none of which has reported yet.
    pub fn new(n: usize) -> (tracker: StarvationTracker)
        ensures
            tracker@ == no_reports(n as nat),
    {
        let mut checker: Vec<bool> = Vec::new();
        let mut k: usize = 0;
        while k < n
            invariant
                k <= n,
                checker@ == Seq::new(k as nat, |i: int| false),
            decreases n - k,
        {
            checker.push(false);
            k = k + 1;
            assert(checker@ =~= Seq::new(k as nat, |i: int| false));
        }
        StarvationTracker { checker }
    }

    /// Handles one result of `try_recv` (`None` when the channel is empty or
    /// closed). A first `Starved(idx)` marks worker `idx` and draining goes on;
    /// a repeated one stops draining, as does an empty channel; other messages
    /// are passed over.
    ///
    /// `Starved(idx)` must name one of the recorded workers.
    pub fn observe<J>(&mut self, received: Option<Message<J>>) -> (step: DrainStep)
        requires
            received matches Some(Message::Starved(idx)) ==> idx < old(self)@.len(),
        ensures
            final(self)@ == record_after(old(self)@, received),
            match received {
                Some(Message::Starved(idx)) => step == if old(self)@[idx as int] {
                    DrainStep::StopDraining
                } else {
                    DrainStep::KeepDraining
                },
                Some(_) => step == DrainStep::KeepDraining,
                None => step == DrainStep::StopDraining,
            },
    {
        match received {
            Some(Message::Starved(idx)) => {
                if self.checker[idx] {
                    assert(self.checker@.update(idx as int, true) =~= self.checker@);
                    DrainStep::StopDraining
                } else {
                    self.checker.set(idx, true);
                    DrainStep::KeepDraining
                }
            },
            Some(_) => DrainStep::KeepDraining,
            None => DrainStep::StopDraining,
        }
    }

    /// Whether every worker has reported: the record is not empty and all its
    /// entries are set (with no workers `wait_all` never finishes).
    pub fn all_reported(&self) -> (all: bool)
        ensures
            all == (self@.len() > 0 && forall|i: int| 0 <= i < self@.len() ==> #[trigger] self@[i]),
    {
        let mut check_v = false;
        let mut k: usize = 0;
        while k < self.checker.len()
            invariant
                k <= self.checker@.len(),
                forall|i: int| 0 <= i < k ==> #[trigger] self.checker@[i],
                k > 0 ==> check_v,
                k == 0 ==> !check_v,
            decreases self.checker@.len() - k,
        {
            check_v = self.checker[k];
            if !check_v {
                return false;
            }
            k = k + 1;
        }
        check_v
    }
}

/// Starting with no worker marked, after handling any sequence of `try_recv`
/// results the record marks exactly the workers that sent `Starved`; so
/// `wait_all` finishes only once every worker has found its queue empty.
pub proof fn lemma_tracker_marks_reports<J>(n: nat, events: Seq<Option<Message<J>>>)
    requires
        reports_in_range(events, n),
    ensures
        record_after_all(no_reports(n), events).len() == n,
        forall|w: usize|
            w < n ==> (#[trigger] record_after_all(no_reports(n), events)[w as int]
                <==> reported(events, w)),
    decreases events.len(),
{
    let start = no_reports(n);
    if events.len() > 0 {
        let prefix = events.drop_last();
        assert(reports_in_range(prefix, n)) by {
            assert forall|k: int| 0 <= k < prefix.len() implies (#[trigger] prefix[k] matches Some(
                Message::Starved(idx),
            ) ==> idx < n) by {
                assert(prefix[k] == events[k]);
            }
        }
        lemma_tracker_marks_reports(n, prefix);
        let last = events.last();
        let prev = record_after_all(start, prefix);
        assert(last == events[events.len() - 1]);
        assert(record_after_all(start, events) == record_after(prev, last));
        assert forall|w: usize| w < n implies (#[trigger] record_after_all(start, events)[w as int]
            <==> reported(events, w)) by {
            if reported(prefix, w) {
                let k = choose|k: int|
                    0 <= k < prefix.len() && #[trigger] prefix[k] == Some(Message::<J>::Starved(w));
                assert(events[k] == prefix[k]);
            }
            if reported(events, w) {
                let k = choose|k: int|
                    0 <= k < events.len() && #[trigger] events[k] == Some(Message::<J>::Starved(w));
                if k < events.len() - 1 {
                    assert(prefix[k] == events[k]);
                }
            }
            match last {
                Some(Message::Starved(idx)) => {
                    if idx == w {
                        assert(events[events.len() - 1] == Some(Message::<J>::Starved(w)));
                    }
                },
                _ => {},
            }
        }
    } else {
        assert forall|w: usize| w < n implies !reported(events, w) by {}
    }
}

/// The jobs of `q`, front first: the payload of every `NewJob`, in queue order.
pub open spec fn jobs_of<J>(q: Seq<Message<J>>) -> Seq<J>
    decreases q.len(),
{
    if q.len() == 0 {
        Seq::empty()
    } else {
        let first: Seq<J> = match q[0] {
            Message::NewJob(job) => seq![job],
            _ => Seq::empty(),
        };
        first + jobs_of(q.drop_first())
    }
}

/// Worker `id` taking the messages of `q` from the front, one turn of
/// `Worker::step` each, until a turn stops it: the jobs it runs, in order, and
/// whether it stopped.
pub open spec fn run_queue<J>(id: usize, q: Seq<Message<J>>) -> (Seq<J>, bool)
    decreases q.len(),
{
    if q.len() == 0 {
        (Seq::empty(), false)
    } else {
        let rest = run_queue(id, q.drop_first());
        match worker_action(id, Some(q[0])) {
            WorkerAction::Run(job) => (seq![job] + rest.0, rest.1),
            WorkerAction::Stop => (Seq::empty(), true),
            _ => rest,
        }
    }
}

/// A worker popping its queue from the front runs the jobs queued before the
/// first `Terminate` (at position `t`), each exactly once and in queue order,
/// and stops at that `Terminate`; with no `Terminate` in the queue (`t` is its
/// length) it runs every job and goes on waiting.
pub proof fn lemma_worker_runs_queue<J>(id: usize, q: Seq<Message<J>>, t: int)
    requires
        0 <= t <= q.len(),
        forall|k: int| 0 <= k < t ==> !(#[trigger] q[k] is Terminate),
        t < q.len() ==> q[t] is Terminate,
    ensures
        run_queue(id, q) == (jobs_of(q.take(t)), t < q.len()),
    decreases q.len(),
{
    if q.len() > 0 {
        if t == 0 {
            assert(q.take(0) =~= Seq::<Message<J>>::empty());
        } else {
            let r = q.drop_first();
            assert forall|k: int| 0 <= k < t - 1 implies !(#[trigger] r[k] is Terminate) by {
                assert(r[k] == q[k + 1]);
            }
            if t < q.len() {
                assert(r[t - 1] == q[t]);
            }
            lemma_worker_runs_queue(id, r, t - 1);
            assert(q.take(t).drop_first() =~= r.take(t - 1));
            assert(q.take(t)[0] == q[0]);
            assert(!(q[0] is Terminate));
        }
    } else {
        assert(q.take(t) =~= Seq::<Message<J>>::empty());
    }
}

/// The tasks among the first `k` added to a fresh runner of `n` workers that
/// are numbered `m` with `m % n == w` (counting from 0 in the order they were
/// added), in increasing order.
pub open spec fn tasks_for(n: nat, k: nat, w: nat) -> Seq<nat>
    decreases k,
{
    if k == 0 {
        Seq::empty()
    } else {
        let m = (k - 1) as nat;
        if m % n == w {
            tasks_for(n, m, w).push(m)
        } else {
            tasks_for(n, m, w)
        }
    }
}

/// `NewJob(m)` for each task number `m` of `s`, in order.
pub open spec fn job_messages(s: Seq<nat>) -> Seq<Message<nat>> {
    Seq::new(s.len(), |i: int| Message::NewJob(s[i]))
}

/// The pushes `add_task` makes for `k` tasks, numbered `0..k`, added to a fresh
/// runner of `n` workers: task `m` to the worker chosen after `m` tasks.
pub open spec fn task_pushes(n: nat, k: nat) -> Seq<(nat, Message<nat>)> {
    Seq::new(k, |m: int| (worker_after(n, m as nat), Message::NewJob(m as nat)))
}

/// The pushes `join_all` makes on a runner of `n` workers: `Terminate` to each
/// worker, in worker order.
pub open spec fn terminate_pushes(n: nat) -> Seq<(nat, Message<nat>)> {
    Seq::new(n, |w: int| (w as nat, Message::<nat>::Terminate))
}

/// The messages that `pushes` put on the queue of worker `w`, in order.
pub open spec fn queue_of<J>(pushes: Seq<(nat, Message<J>)>, w: nat) -> Seq<Message<J>>
    decreases pushes.len(),
{
    if pushes.len() == 0 {
        Seq::empty()
    } else {
        let prev = queue_of(pushes.drop_last(), w);
        if pushes.last().0 == w {
            prev.push(pushes.last().1)
        } else {
            prev
        }
    }
}

proof fn lemma_queue_of_append<J>(a: Seq<(nat, Message<J>)>, b: Seq<(nat, Message<J>)>, w: nat)
    ensures
        queue_of(a + b, w) == queue_of(a, w) + queue_of(b, w),
    decreases b.len(),
{
    if b.len() == 0 {
        assert(a + b =~= a);
        assert(queue_of(a, w) + queue_of(b, w) =~= queue_of(a, w));
    } else {
        lemma_queue_of_append(a, b.drop_last(), w);
        assert((a + b).drop_last() =~= a + b.drop_last());
        assert((a + b).last() == b.last());
        if b.last().0 == w {
            assert(queue_of(a, w) + queue_of(b.drop_last(), w).push(b.last().1) =~= (queue_of(a, w)
                + queue_of(b.drop_last(), w)).push(b.last().1));
        }
    }
}

proof fn lemma_queue_of_tasks(n: nat, k: nat, w: nat)
    requires
        n > 0,
    ensures
        queue_of(task_pushes(n, k), w) == job_messages(tasks_for(n, k, w)),
    decreases k,
{
    if k == 0 {
        assert(job_messages(tasks_for(n, 0, w)) =~= Seq::<Message<nat>>::empty());
    } else {
        let m = (k - 1) as nat;
        lemma_queue_of_tasks(n, m, w);
        lemma_round_robin(n, m);
        assert(task_pushes(n, k).drop_last() =~= task_pushes(n, m));
        assert(task_pushes(n, k).last() == (worker_after(n, m), Message::NewJob(m)));
        if m % n == w {
            assert(job_messages(tasks_for(n, k, w)) =~= job_messages(tasks_for(n, m, w)).push(
                Message::NewJob(m),
            ));
        }
    }
}

proof fn lemma_queue_of_terminates(j: nat, w: nat)
    ensures
        queue_of(terminate_pushes(j), w) == if w < j {
            seq![Message::<nat>::Terminate]
        } else {
            Seq::<Message<nat>>::empty()
        },
    decreases j,
{
    if j > 0 {
        lemma_queue_of_terminates((j - 1) as nat, w);
        assert(terminate_pushes(j).drop_last() =~= terminate_pushes((j - 1) as nat));
        assert(terminate_pushes(j).last() == ((j - 1) as nat, Message::<nat>::Terminate));
        if w == j - 1 {
            assert(Seq::<Message<nat>>::empty().push(Message::<nat>::Terminate) =~= seq![
                Message::<nat>::Terminate,
            ]);
        }
    }
}

proof fn lemma_jobs_of_messages(s: Seq<nat>)
    ensures
        jobs_of(job_messages(s)) == s,
    decreases s.len(),
{
    if s.len() > 0 {
        lemma_jobs_of_messages(s.drop_first());
        assert(job_messages(s).drop_first() =~= job_messages(s.drop_first()));
        assert(seq![s[0]] + s.drop_first() =~= s);
    }
}

proof fn lemma_tasks_for_facts(n: nat, k: nat, w: nat)
    requires
        n > 0,
    ensures
        forall|m: nat| tasks_for(n, k, w).contains(m) <==> m < k && m % n == w,
        forall|a: int, b: int|
            0 <= a < b < tasks_for(n, k, w).len() ==> #[trigger] tasks_for(n, k, w)[a]
                < #[trigger] tasks_for(n, k, w)[b],
        forall|a: int| 0 <= a < tasks_for(n, k, w).len() ==> #[trigger] tasks_for(n, k, w)[a] < k,
    decreases k,
{
    if k > 0 {
        let m = (k - 1) as nat;
        lemma_tasks_for_facts(n, m, w);
        let prev = tasks_for(n, m, w);
        if m % n == w {
            let cur = prev.push(m);
            assert forall|x: nat| cur.contains(x) <==> x < k && x % n == w by {
                if x == m {
                    assert(cur[prev.len() as int] == m);
                }
                if cur.contains(x) {
                    let i = choose|i: int| 0 <= i < cur.len() && cur[i] == x;
                    if i < prev.len() {
                        assert(prev[i] == x);
                        assert(prev.contains(x));
                    }
                }
                if prev.contains(x) {
                    let i = choose|i: int| 0 <= i < prev.len() && prev[i] == x;
                    assert(cur[i] == x);
                }
            }
        }
    }
}

/// Adding `k` tasks, numbered `0..k` in the order they were added, to a fresh
/// runner of `n` workers and then joining (or dropping) it runs every task
/// exactly once: the queue of worker `w` holds the tasks numbered `m` with
/// `m % n == w`, in the order they were added, and then its `Terminate`;
/// popping it, the worker runs exactly those tasks, in that order, and stops.
/// Every task `m < k` is in the list of the one worker `m % n`, once.
pub proof fn lemma_runner_runs_every_task(n: nat, k: nat, w: nat)
    requires
        n > 0,
        w < n,
    ensures
        queue_of(task_pushes(n, k) + terminate_pushes(n), w) == job_messages(tasks_for(n, k, w)).push(
            Message::Terminate,
        ),
        run_queue(w as usize, queue_of(task_pushes(n, k) + terminate_pushes(n), w)) == (
            tasks_for(n, k, w),
            true,
        ),
        forall|m: nat| tasks_for(n, k, w).contains(m) <==> m < k && m % n == w,
        forall|a: int, b: int|
            0 <= a < b < tasks_for(n, k, w).len() ==> #[trigger] tasks_for(n, k, w)[a]
                < #[trigger] tasks_for(n, k, w)[b],
{
    let jobs = job_messages(tasks_for(n, k, w));
    lemma_queue_of_append(task_pushes(n, k), terminate_pushes(n), w);
    lemma_queue_of_tasks(n, k, w);
    lemma_queue_of_terminates(n, w);
    let q = queue_of(task_pushes(n, k) + terminate_pushes(n), w);
    assert(q =~= jobs.push(Message::Terminate));
    let t = jobs.len() as int;
    assert forall|i: int| 0 <= i < t implies !(#[trigger] q[i] is Terminate) by {
        assert(q[i] == jobs[i]);
    }
    assert(q[t] == Message::<nat>::Terminate);
    lemma_worker_runs_queue(w as usize, q, t);
    assert(q.take(t) =~= jobs);
    lemma_jobs_of_messages(tasks_for(n, k, w));
    lemma_tasks_for_facts(n, k, w);
}

/// Waiting on a runner of `n` workers ends exactly when every worker has sent
/// `Starved`: starting from an empty record and handling any sequence of
/// `try_recv` results, the check that ends the wait (the one `all_reported`
/// makes) succeeds if and only if there is a worker and each worker `0..n`
/// has reported.
pub proof fn lemma_wait_ends_after_every_report<J>(n: usize, events: Seq<Option<Message<J>>>)
    requires
        reports_in_range(events, n as nat),
    ensures
        ({
            let r = record_after_all(no_reports(n as nat), events);
            (r.len() > 0 && forall|i: int| 0 <= i < r.len() ==> #[trigger] r[i]) <==> (n > 0
                && forall|w: usize| w < n ==> reported(events, w))
        }),
{
    lemma_tracker_marks_reports(n as nat, events);
    let r = record_after_all(no_reports(n as nat), events);
    if r.len() > 0 && forall|i: int| 0 <= i < r.len() ==> #[trigger] r[i] {
        assert forall|w: usize| w < n implies reported(events, w) by {
            assert(r[w as int]);
        }
    }
    if n > 0 && forall|w: usize| w < n ==> reported(events, w) {
        assert forall|i: int| 0 <= i < r.len() implies #[trigger] r[i] by {
            let w = i as usize;
            assert(reported(events, w));
            assert(r[w as int]);
        }
    }
}

} // verus!
