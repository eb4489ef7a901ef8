//! The worker pool's lifecycle as a verified state machine.
//!
//! The pool owns a fixed set of workers, a queue of submitted jobs and the
//! sole producer handle to that queue. Threads, channels and locks live
//! outside the verified library; what is verified here is the bookkeeping
//! that the runtime pool must respect: jobs are numbered in submission
//! order, a job starts only after it was dispatched off the queue front, at
//! most `size` jobs run at once, and teardown drains the queue and waits for
//! every running job, after which each submitted job has completed exactly
//! once.
//!
//! `execute` hands out the ticket identifying the submitted job; the runtime
//! pairs the ticket with the closure it runs. `dispatch` is a worker taking
//! the next job off the queue, `finish` is a worker completing one of the
//! running jobs (workers race, so any running job may finish first), and
//! `shutdown` is the teardown that the owner performs when the pool goes out
//! of use.

use vstd::multiset::Multiset;
use vstd::prelude::*;

verus! {

broadcast use vstd::seq_lib::group_to_multiset_ensures, vstd::multiset::group_multiset_axioms;

/// How many times `id` occurs in `s`.
pub open spec fn occurrences(s: Seq<usize>, id: usize) -> nat {
    s.to_multiset().count(id)
}

/// The fixed-size worker pool, tracked by its bookkeeping: who was
/// submitted, who waits on the queue, who is running, who is done.
pub struct ThreadPool {
    size: usize,
    next_job: usize,
    queue_front: usize,
    running: Vec<usize>,
    done: Vec<usize>,
    open: bool,
}

impl ThreadPool {
    /// The fixed number of workers.
    pub closed spec fn num_workers(self) -> nat {
        self.size as nat
    }

    /// How many jobs have been submitted; jobs carry the tickets
    /// `0..submitted()` in submission order.
    pub closed spec fn submitted(self) -> nat {
        self.next_job as nat
    }

    /// How many jobs have been taken off the queue so far; since dispatch is
    /// in submission order, these are exactly the tickets `0..dispatched()`.
    pub closed spec fn dispatched(self) -> nat {
        self.queue_front as nat
    }

    /// Tickets still waiting on the queue, front first.
    pub open spec fn pending(self) -> nat {
        (self.submitted() - self.dispatched()) as nat
    }

    /// Tickets of the jobs currently being executed by workers.
    pub closed spec fn running_ids(self) -> Seq<usize> {
        self.running@
    }

    /// Tickets of the completed jobs, in completion order.
    pub closed spec fn done_ids(self) -> Seq<usize> {
        self.done@
    }

    /// Whether the producer handle is still held, so that more jobs may be
    /// submitted. Dropped once, at teardown; this closes the queue.
    pub closed spec fn is_open(self) -> bool {
        self.open
    }

    /// The pool's invariant. Workers never outnumber `num_workers()`; a
    /// ticket was dispatched before it runs or completes; every dispatched
    /// ticket is either running or done, and exactly once.
    pub open spec fn wf(self) -> bool {
        &&& 1 <= self.num_workers()
        &&& self.dispatched() <= self.submitted()
        &&& self.submitted() <= usize::MAX
        &&& self.running_ids().len() <= self.num_workers()
        &&& self.running_ids().len() + self.done_ids().len() == self.dispatched()
        &&& forall|id: usize|
            occurrences(self.running_ids(), id) + occurrences(self.done_ids(), id) == if (
            id as nat) < self.dispatched() {
                1nat
            } else {
                0nat
            }
    }

    /// A pool that was torn down: nothing waits, nothing runs, nothing can
    /// be submitted any more.
    pub open spec fn drained(self) -> bool {
        &&& !self.is_open()
        &&& self.pending() == 0
        &&& self.running_ids().len() == 0
    }

    /// A fresh pool of `size` workers sharing one queue. The underlying
    /// thread creation is fatal on failure and is no concern of the
    /// bookkeeping.
    pub fn new(size: usize) -> (pool: ThreadPool)
        requires
            1 <= size,
        ensures
            pool.wf(),
            pool.num_workers() == size,
            pool.submitted() == 0,
            pool.dispatched() == 0,
            pool.running_ids().len() == 0,
            pool.done_ids().len() == 0,
            pool.is_open(),
    {
        let pool = ThreadPool {
            size,
            next_job: 0,
            queue_front: 0,
            running: Vec::new(),
            done: Vec::new(),
            open: true,
        };
        proof {
            assert(pool.running@.to_multiset() =~= Multiset::empty());
            assert(pool.done@.to_multiset() =~= Multiset::empty());
        }
        pool
    }

    /// The fixed worker count. Constant from construction to teardown:
    /// every operation of the pool preserves it.
    pub fn size(&self) -> (s: usize)
        ensures
            s == self.num_workers(),
    {
        self.size
    }

    /// How many jobs have been submitted so far.
    pub fn submitted_count(&self) -> (c: usize)
        ensures
            c == self.submitted(),
    {
        self.next_job
    }

    /// How many jobs wait on the queue right now.
    pub fn pending_count(&self) -> (c: usize)
        requires
            self.wf(),
        ensures
            c == self.pending(),
    {
        self.next_job - self.queue_front
    }

    /// How many jobs are being executed right now.
    pub fn running_count(&self) -> (c: usize)
        ensures
            c == self.running_ids().len(),
    {
        self.running.len()
    }

    /// The tickets of the completed jobs, in completion order.
    pub fn completed(&self) -> (c: &Vec<usize>)
        ensures
            c@ == self.done_ids(),
    {
        &self.done
    }

    /// Submit one job: enqueue it behind all jobs submitted before it and
    /// return its ticket. Returns as soon as the job is enqueued; a worker
    /// will dispatch it later.
    pub fn execute(&mut self) -> (ticket: usize)
        requires
            old(self).wf(),
            old(self).is_open(),
            old(self).submitted() < usize::MAX,
        ensures
            final(self).wf(),
            ticket as nat == old(self).submitted(),
            final(self).submitted() == old(self).submitted() + 1,
            final(self).num_workers() == old(self).num_workers(),
            final(self).dispatched() == old(self).dispatched(),
            final(self).running_ids() == old(self).running_ids(),
            final(self).done_ids() == old(self).done_ids(),
            final(self).is_open(),
    {
        let ticket = self.next_job;
        self.next_job = self.next_job + 1;
        ticket
    }

    /// A worker takes the job at the queue front: the earliest submitted
    /// job that no worker has taken yet. Only a worker with nothing in hand
    /// may take one, and only while the queue is nonempty.
    pub fn dispatch(&mut self) -> (ticket: usize)
        requires
            old(self).wf(),
            old(self).pending() > 0,
            old(self).running_ids().len() < old(self).num_workers(),
        ensures
            final(self).wf(),
            ticket as nat == old(self).dispatched(),
            final(self).dispatched() == old(self).dispatched() + 1,
            final(self).running_ids() == old(self).running_ids().push(ticket),
            final(self).done_ids() == old(self).done_ids(),
            final(self).submitted() == old(self).submitted(),
            final(self).num_workers() == old(self).num_workers(),
            final(self).is_open() == old(self).is_open(),
            final(self).pending() == old(self).pending() - 1,
    {
        let ticket = self.queue_front;
        self.queue_front = self.queue_front + 1;
        self.running.push(ticket);
        ticket
    }

    /// The job at position `k` of the running ones completes. Workers run in
    /// parallel, so any of the running jobs may be the one that finishes.
    pub fn finish(&mut self, k: usize)
        requires
            old(self).wf(),
            k < old(self).running_ids().len(),
        ensures
            final(self).wf(),
            final(self).running_ids() == old(self).running_ids().remove(k as int),
            final(self).done_ids() == old(self).done_ids().push(old(self).running_ids()[k as int]),
            final(self).dispatched() == old(self).dispatched(),
            final(self).submitted() == old(self).submitted(),
            final(self).num_workers() == old(self).num_workers(),
            final(self).is_open() == old(self).is_open(),
    {
        let ticket = self.running.remove(k);
        self.done.push(ticket);
        proof {
            let r0 = old(self).running@;
            let d0 = old(self).done@;
            let t = r0[k as int];
            assert(self.running@.to_multiset() =~= r0.to_multiset().remove(t));
            assert(self.done@.to_multiset() =~= d0.to_multiset().insert(t));
            assert(r0.to_multiset().count(t) > 0);
            assert forall|id: usize|
                occurrences(self.running@, id) + occurrences(self.done@, id) == if (id as nat)
                    < self.dispatched() {
                    1nat
                } else {
                    0nat
                } by {
                assert(occurrences(r0, id) + occurrences(d0, id) == if (id as nat)
                    < old(self).dispatched() {
                    1nat
                } else {
                    0nat
                });
            }
        }
    }

    /// Drop the producer handle: the queue is closed, workers drain what
    /// remains and then see the closed signal and exit.
    pub fn close(&mut self)
        requires
            old(self).wf(),
        ensures
            final(self).wf(),
            !final(self).is_open(),
            final(self).submitted() == old(self).submitted(),
            final(self).dispatched() == old(self).dispatched(),
            final(self).running_ids() == old(self).running_ids(),
            final(self).done_ids() == old(self).done_ids(),
            final(self).num_workers() == old(self).num_workers(),
    {
        self.open = false;
    }

    /// Teardown: close the queue, then wait until every submitted job has
    /// been dispatched and has completed. Blocks until the work is gone; it
    /// cancels nothing. Afterwards each submitted job is recorded done
    /// exactly once, and no job can run any more.
    pub fn shutdown(&mut self)
        requires
            old(self).wf(),
        ensures
            final(self).wf(),
            final(self).drained(),
            final(self).submitted() == old(self).submitted(),
            final(self).num_workers() == old(self).num_workers(),
            final(self).done_ids().len() == old(self).submitted(),
            forall|id: usize|
                occurrences(final(self).done_ids(), id) == if (id as nat) < old(self).submitted() {
                    1nat
                } else {
                    0nat
                },
    {
        self.close();
        while self.running.len() > 0
            invariant
                self.wf(),
                !self.is_open(),
                self.submitted() == old(self).submitted(),
                self.dispatched() == old(self).dispatched(),
                self.num_workers() == old(self).num_workers(),
            decreases self.running@.len(),
        {
            self.finish(0);
        }
        while self.queue_front < self.next_job
            invariant
                self.wf(),
                !self.is_open(),
                self.running_ids().len() == 0,
                self.submitted() == old(self).submitted(),
                self.num_workers() == old(self).num_workers(),
            decreases self.next_job - self.queue_front,
        {
            let _ticket = self.dispatch();
            self.finish(0);
        }
    }
}

/// Every submitted job runs exactly once: a drained pool has completed each
/// of the tickets it ever handed out exactly once, and nothing else.
pub proof fn lemma_each_job_runs_once(pool: ThreadPool)
    requires
        pool.wf(),
        pool.drained(),
    ensures
        pool.done_ids().len() == pool.submitted(),
        forall|id: usize|
            occurrences(pool.done_ids(), id) == if (id as nat) < pool.submitted() {
                1nat
            } else {
                0nat
            },
{
    assert(pool.running_ids().to_multiset() =~= Multiset::empty());
}

/// A pool with a single worker is a strictly serial executor: at most one
/// job is ever running at a time.
pub proof fn lemma_single_worker_is_serial(pool: ThreadPool)
    requires
        pool.wf(),
        pool.num_workers() == 1,
    ensures
        pool.running_ids().len() <= 1,
{
}

} // verus!
