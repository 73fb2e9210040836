use vstd::prelude::*;

verus! {

/// What a worker of the pool does after it has tried to take a job from the
/// frontier.
pub enum WorkerAction<A> {
    /// Run the callback on this job and report the outcome.
    Process(A),
    /// The frontier is empty and nothing is outstanding: leave the loop.
    Exit,
    /// The frontier is empty but jobs are still outstanding elsewhere:
    /// yield and try again.
    Wait,
}

/// Decides the next step of a worker from the job it took (if any) and the
/// number of jobs the dispatcher last reported as outstanding.
pub fn next_action<A>(taken: Option<A>, outstanding: usize) -> (r: WorkerAction<A>)
    ensures
        match taken {
            Some(job) => r == WorkerAction::Process(job),
            None => if outstanding == 0 {
                r == WorkerAction::<A>::Exit
            } else {
                r == WorkerAction::<A>::Wait
            },
        },
{
    match taken {
        Some(job) => WorkerAction::Process(job),
        None => if outstanding == 0 {
            WorkerAction::Exit
        } else {
            WorkerAction::Wait
        },
    }
}

} // verus!
