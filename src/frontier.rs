//! The queue of jobs that are ready for a free worker.
use vstd::prelude::*;
use std::collections::VecDeque;

verus! {

broadcast use vstd::std_specs::vecdeque::group_vec_dequeue_axioms;

/// Jobs waiting for a worker, taken in the order they were submitted.
pub struct Frontier<A> {
    queue: VecDeque<A>,
}

impl<A> View for Frontier<A> {
    type V = Seq<A>;

    /// The waiting jobs, the next one to be taken first.
    closed spec fn view(&self) -> Seq<A> {
        self.queue@
    }
}

impl<A> Frontier<A> {
    /// An empty frontier.
    pub fn new() -> (r: Self)
        ensures
            r@ == Seq::<A>::empty(),
    {
        Frontier { queue: VecDeque::new() }
    }

    /// Queues one job behind those already waiting.
    pub fn submit(&mut self, job: A)
        ensures
            final(self)@ == old(self)@.push(job),
    {
        self.queue.push_back(job);
    }

    /// Queues the jobs of `jobs`, in their order, behind those already waiting.
    pub fn submit_all(&mut self, jobs: Vec<A>)
        ensures
            final(self)@ == old(self)@ + jobs@,
    {
        let ghost before = self@;
        let ghost items = jobs@;
        for job in it: jobs.into_iter()
            invariant
                it.seq() == items,
                self@ == before + items.take(it.index() as int),
        {
            self.submit(job);
            assert(items.take(it.index() as int + 1) == items.take(it.index() as int).push(job));
        }
        assert(items.take(items.len() as int) == items);
    }

    /// Removes and returns the job that has waited longest, or `None` when
    /// no job is waiting.
    pub fn take(&mut self) -> (r: Option<A>)
        ensures
            old(self)@.len() == 0 ==> r.is_none() && final(self)@ == old(self)@,
            old(self)@.len() > 0 ==> r == Some(old(self)@[0]) && final(self)@ == old(self)@.drop_first(),
    {
        self.queue.pop_front()
    }

    /// The number of waiting jobs.
    pub fn len(&self) -> (r: usize)
        ensures
            r == self@.len(),
    {
        self.queue.len()
    }

    /// Drops every waiting job.
    pub fn clear(&mut self)
        ensures
            final(self)@ == Seq::<A>::empty(),
    {
        self.queue.clear();
    }
}

} // verus!
