//! A scheduler for a work graph that is discovered while it is processed.
//!
//! Each job, once processed, yields a result and a list of further jobs.
//! The library holds the decisions of the scheduler: the frontier of jobs
//! ready to run, what an idle worker does next, and the bookkeeping of the
//! dispatcher that turns completions into new work and a final result map.
pub mod dispatcher;
pub mod frontier;
pub mod laws;
pub mod reach;
pub mod worker;
