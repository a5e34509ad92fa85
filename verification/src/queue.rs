//! The shared job queue: an ordered collection of pending jobs, pushed by
//! the dispatcher and claimed by workers in last-in-first-out order.  The
//! callers wrap one instance in a lock; every critical section is one call.

use vstd::prelude::*;

verus! {

/// Pending jobs, oldest first.  A claim removes the most recently submitted
/// job — service order is deliberately not first-in-first-out.
pub struct JobQueue<T> {
    items: Vec<T>,
}

impl<T> View for JobQueue<T> {
    type V = Seq<T>;

    closed spec fn view(&self) -> Seq<T> {
        self.items@
    }
}

impl<T> JobQueue<T> {
    /// An empty queue.
    pub fn new() -> (q: Self)
        ensures
            q@ == Seq::<T>::empty(),
    {
        JobQueue { items: Vec::new() }
    }

    /// Number of pending jobs.
    pub fn len(&self) -> (n: usize)
        ensures
            n == self@.len(),
    {
        self.items.len()
    }

    /// Submit a job.  Never blocks and never refuses: the queue is
    /// unbounded.
    pub fn submit(&mut self, job: T)
        ensures
            final(self)@ == old(self)@.push(job),
    {
        self.items.push(job);
    }

    /// Claim a job: the most recently submitted one leaves the queue.
    /// `None` exactly when the queue is empty.
    pub fn claim(&mut self) -> (r: Option<T>)
        ensures
            (match r {
                Some(job) => old(self)@.len() > 0 && job == old(self)@.last() && final(self)@
                    == old(self)@.drop_last(),
                None => old(self)@.len() == 0 && final(self)@ == old(self)@,
            }),
    {
        self.items.pop()
    }
}

} // verus!
