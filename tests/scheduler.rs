use std::cell::RefCell;
use std::collections::HashMap;
use std::hash::Hash;

use job_queue::dispatcher::{Dispatcher, Step};
use job_queue::frontier::Frontier;
use job_queue::worker::{next_action, WorkerAction};

type Error = Box<dyn std::error::Error + Send + Sync>;

/// Drives a run with a single worker: take a job, process it, report it.
fn run<A, B, F>(first_job: A, mut perform: F) -> Result<HashMap<A, B>, Error>
where
    A: Clone + Eq + Hash,
    F: FnMut(A) -> Result<(B, Vec<A>), Error>,
{
    let (mut dispatcher, first) = Dispatcher::start(first_job);
    let mut frontier = Frontier::new();
    frontier.submit_all(first);
    loop {
        let taken = frontier.take();
        match next_action(taken, dispatcher.outstanding_count()) {
            WorkerAction::Process(job) => {
                assert!(dispatcher.is_outstanding(&job));
                let outcome = perform(job.clone());
                match dispatcher.complete(job, outcome) {
                    Step::Continue(new_jobs) => frontier.submit_all(new_jobs),
                    Step::Done => return Ok(dispatcher.into_results()),
                    Step::Failed(e) => return Err(e),
                }
            }
            WorkerAction::Exit => return Ok(dispatcher.into_results()),
            WorkerAction::Wait => panic!("a single worker never waits"),
        }
    }
}

#[test]
fn test_queue() {
    let result = run(1, |num| match num {
        1 => Ok(("one", vec![2])),
        2 => Ok(("two", vec![3])),
        _ => Ok(("three", vec![])),
    })
    .unwrap();
    assert_eq!(result.get(&1), Some(&"one"));
    assert_eq!(result.get(&2), Some(&"two"));

    let result = run(1, |num| match num {
        1 => Ok((num, vec![1, 2, 3, 4, 5, 6, 7])),
        _ => Ok((num, vec![])),
    })
    .unwrap();
    assert_eq!(result.get(&1), Some(&1));
    assert_eq!(result.get(&2), Some(&2));
    assert_eq!(result.get(&3), Some(&3));
    assert_eq!(result.get(&4), Some(&4));
    assert_eq!(result.get(&5), Some(&5));
    assert_eq!(result.get(&6), Some(&6));
    assert_eq!(result.get(&7), Some(&7));
    assert_eq!(result.get(&8), None);

    let result = run(1, |num| match num {
        1 => Ok(("one", vec![2])),
        2 => Ok(("two", vec![3])),
        _ => Ok(("three", vec![])),
    });
    assert_eq!(result.unwrap().get(&1), Some(&"one"));

    let result = run("one", |num| Ok((num, vec![])));
    assert_eq!(result.unwrap().get(&"one"), Some(&"one"));

    let result = run(1, |num| match num {
        1 => Ok(("one", vec![2])),
        _ => Err(Box::new(std::fmt::Error)),
    });
    assert_eq!(result.is_err(), true);
}

#[test]
fn chain_of_three_maps_every_job() {
    let result = run(1u32, |num| match num {
        1 => Ok(("one", vec![2])),
        2 => Ok(("two", vec![3])),
        _ => Ok(("three", vec![])),
    })
    .unwrap();
    let mut expected = HashMap::new();
    expected.insert(1, "one");
    expected.insert(2, "two");
    expected.insert(3, "three");
    assert_eq!(result, expected);
}

#[test]
fn single_job_gives_one_entry() {
    let result = run(42u64, |num| Ok((num * 2, vec![]))).unwrap();
    assert_eq!(result.len(), 1);
    assert_eq!(result.get(&42), Some(&84));
}

#[test]
fn chain_stops_at_its_bound() {
    let bound = 6u64;
    let result = run(1u64, |k| {
        if k < bound {
            Ok((k * 10, vec![k + 1]))
        } else {
            Ok((k * 10, vec![]))
        }
    })
    .unwrap();
    assert_eq!(result.len(), 6);
    for k in 1..=6u64 {
        assert_eq!(result.get(&k), Some(&(k * 10)));
    }
    assert_eq!(result.get(&7), None);
    assert_eq!(result.get(&0), None);
}

#[test]
fn repeated_discovery_is_processed_once() {
    let calls: RefCell<HashMap<u32, u32>> = RefCell::new(HashMap::new());
    let result = run(1u32, |num| {
        *calls.borrow_mut().entry(num).or_insert(0) += 1;
        match num {
            1 => Ok((num, vec![2, 2, 3, 2, 1, 3])),
            2 => Ok((num, vec![3, 1])),
            _ => Ok((num, vec![2])),
        }
    })
    .unwrap();
    assert_eq!(result.len(), 3);
    let calls = calls.into_inner();
    assert_eq!(calls.len(), 3);
    assert!(calls.values().all(|n| *n == 1));
}

#[test]
fn completion_hands_out_each_new_job_once() {
    let (mut d, first) = Dispatcher::<u32, &str>::start(1);
    assert_eq!(first, vec![1]);
    match d.complete::<String>(1, Ok(("one", vec![4, 2, 4, 1, 2, 3]))) {
        Step::Continue(new_jobs) => assert_eq!(new_jobs, vec![4, 2, 3]),
        _ => panic!("jobs remain outstanding"),
    }
    assert_eq!(d.outstanding_count(), 3);
    // 3 is still outstanding: it is not handed out again.
    match d.complete::<String>(2, Ok(("two", vec![3, 5]))) {
        Step::Continue(new_jobs) => assert_eq!(new_jobs, vec![5]),
        _ => panic!("jobs remain outstanding"),
    }
    assert!(d.is_outstanding(&3));
    assert!(!d.is_outstanding(&2));
    assert!(!d.is_outstanding(&1));
}

#[test]
fn identity_and_result_of_different_types() {
    let result = run(3u8, |n| {
        let next = if n > 0 { vec![n - 1] } else { vec![] };
        Ok((format!("job {}", n), next))
    })
    .unwrap();
    assert_eq!(result.len(), 4);
    assert_eq!(result.get(&0).map(|s| s.as_str()), Some("job 0"));
    assert_eq!(result.get(&3).map(|s| s.as_str()), Some("job 3"));
}

#[test]
fn string_identities() {
    let result = run(String::from("a"), |s| {
        let next = if s.len() < 3 { vec![format!("{}a", s), format!("{}b", s)] } else { vec![] };
        Ok((s.len(), next))
    })
    .unwrap();
    assert_eq!(result.len(), 7);
    assert_eq!(result.get("abb"), Some(&3));
    assert_eq!(result.get("a"), Some(&1));
}

#[test]
fn rerun_gives_the_same_map() {
    let process = |n: u64| -> Result<(u64, Vec<u64>), Error> {
        if n < 20 {
            Ok((n * n, vec![n * 2, n * 3, n + 1]))
        } else {
            Ok((n * n, vec![]))
        }
    };
    let first = run(1u64, process).unwrap();
    let second = run(1u64, process).unwrap();
    assert_eq!(first, second);
    assert_eq!(first.get(&19), Some(&361));
    assert_eq!(first.get(&57), Some(&3249));
}

#[test]
fn failure_stops_the_run() {
    let result = run(1u32, |num| match num {
        1 => Ok(("one", vec![2, 3])),
        2 => Ok(("two", vec![4])),
        3 => Err(Error::from("job three failed")),
        _ => Ok(("other", vec![])),
    });
    match result {
        Err(e) => assert_eq!(e.to_string(), "job three failed"),
        Ok(_) => panic!("the run should fail"),
    }
}

#[test]
fn failed_completion_leaves_state_as_it_was() {
    let (mut d, _) = Dispatcher::<u32, u32>::start(7);
    match d.complete(7, Err("broken")) {
        Step::Failed(e) => assert_eq!(e, "broken"),
        _ => panic!("the error is passed on"),
    }
    assert_eq!(d.outstanding_count(), 1);
    assert!(d.is_outstanding(&7));
    match d.complete::<&str>(7, Ok((70, vec![7]))) {
        Step::Done => {}
        _ => panic!("nothing is left outstanding"),
    }
    assert_eq!(d.outstanding_count(), 0);
    let results = d.into_results();
    assert_eq!(results.len(), 1);
    assert_eq!(results.get(&7), Some(&70));
}

#[test]
fn self_discovery_is_not_repeated() {
    let result = run(5i64, |n| Ok((n, vec![n]))).unwrap();
    assert_eq!(result.len(), 1);
    assert_eq!(result.get(&5), Some(&5));
}

#[test]
fn frontier_is_first_in_first_out() {
    let mut f = Frontier::new();
    assert_eq!(f.take(), None);
    f.submit(1);
    f.submit_all(vec![2, 3]);
    f.submit(4);
    assert_eq!(f.len(), 4);
    assert_eq!(f.take(), Some(1));
    assert_eq!(f.take(), Some(2));
    f.submit(5);
    assert_eq!(f.take(), Some(3));
    assert_eq!(f.take(), Some(4));
    assert_eq!(f.take(), Some(5));
    assert_eq!(f.take(), None);
    assert_eq!(f.len(), 0);
}

#[test]
fn frontier_clear_drops_waiting_jobs() {
    let mut f = Frontier::new();
    f.submit_all(vec!["x", "y"]);
    f.clear();
    assert_eq!(f.len(), 0);
    assert_eq!(f.take(), None);
}

#[test]
fn worker_processes_a_taken_job() {
    assert!(matches!(next_action(Some(9), 0), WorkerAction::Process(9)));
    assert!(matches!(next_action(Some(9), 3), WorkerAction::Process(9)));
}

#[test]
fn idle_worker_exits_only_when_nothing_is_outstanding() {
    assert!(matches!(next_action::<u32>(None, 0), WorkerAction::Exit));
    assert!(matches!(next_action::<u32>(None, 1), WorkerAction::Wait));
    assert!(matches!(next_action::<u32>(None, usize::MAX), WorkerAction::Wait));
}
