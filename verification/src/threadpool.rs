//! Decisions of the thread pool: workers that share one channel of jobs. The
//! pool's owner performs the sends, runs the jobs and joins the threads.
use vstd::prelude::*;

verus! {

/// What travels through the pool's shared channel.
pub enum Message<J> {
    /// A job for whichever worker receives it.
    NewJob(J),
    /// The receiving worker is to stop.
    Terminate,
}

/// What a pool worker does with a received message.
pub enum WorkerAction<J> {
    /// Run the job and wait for the next message.
    Run(J),
    /// Leave the worker loop.
    Stop,
}

/// A worker thread of the pool, known by its index.
pub struct Worker {
    pub id: usize,
}

impl Worker {
    /// One turn of the worker loop, given the received message.
    pub fn step<J>(&self, message: Message<J>) -> (action: WorkerAction<J>)
        ensures
            match message {
                Message::NewJob(job) => action == WorkerAction::Run(job),
                Message::Terminate => action == WorkerAction::<J>::Stop,
            },
    {
        match message {
            Message::NewJob(job) => WorkerAction::Run(job),
            Message::Terminate => WorkerAction::Stop,
        }
    }
}

/// Number of workers of a pool asked for `size`: `size`, but at least one.
pub open spec fn pool_size(size: nat) -> nat {
    if size > 0 {
        size
    } else {
        1
    }
}

/// A pool of worker threads fed through one channel.
pub struct ThreadPool {
    num_threads: usize,
}

impl ThreadPool {
    /// Number of workers.
    pub closed spec fn threads(&self) -> nat {
        self.num_threads as nat
    }

    /// A pool asked for `size` workers; a size of 0 gives one worker.
    pub fn new(size: usize) -> (pool: ThreadPool)
        ensures
            pool.threads() == pool_size(size as nat),
            pool.threads() >= 1,
    {
        let num = if size > 0 {
            size
        } else {
            1
        };
        ThreadPool { num_threads: num }
    }

    /// Number of workers.
    pub fn num_threads(&self) -> (n: usize)
        ensures
            n == self.threads(),
    {
        self.num_threads
    }

    /// The workers to start, in order: `Worker { id: 0 }` onwards.
    pub fn workers(&self) -> (ws: Vec<Worker>)
        ensures
            ws@.len() == self.threads(),
            forall|k: int| 0 <= k < ws@.len() ==> #[trigger] ws@[k].id == k,
    {
        let mut ws: Vec<Worker> = Vec::new();
        let mut v: usize = 0;
        while v < self.num_threads
            invariant
                v <= self.num_threads,
                ws@.len() == v,
                forall|k: int| 0 <= k < v ==> #[trigger] ws@[k].id == k,
            decreases self.num_threads - v,
        {
            ws.push(Worker { id: v });
            v = v + 1;
        }
        ws
    }

    /// The message that hands `f` to the pool.
    pub fn execute<J>(&self, f: J) -> (message: Message<J>)
        ensures
            message == Message::NewJob(f),
    {
        Message::NewJob(f)
    }

    /// What dropping the pool sends before it joins the threads: one
    /// `Terminate` per worker, so that every worker leaves its loop.
    pub fn terminate_all<J>(&self) -> (messages: Vec<Message<J>>)
        ensures
            messages@.len() == self.threads(),
            forall|k: int| 0 <= k < messages@.len() ==> #[trigger] messages@[k] == Message::<J>::Terminate,
    {
        let mut messages: Vec<Message<J>> = Vec::new();
        let mut v: usize = 0;
        while v < self.num_threads
            invariant
                v <= self.num_threads,
                messages@.len() == v,
                forall|k: int| 0 <= k < v ==> #[trigger] messages@[k] == Message::<J>::Terminate,
            decreases self.num_threads - v,
        {
            messages.push(Message::Terminate);
            v = v + 1;
        }
        messages
    }
}

} // verus!
