//! The dispatcher: which jobs are outstanding, which are resolved, and what
//! a completion adds to the frontier.
use vstd::prelude::*;
use std::collections::{HashMap, HashSet};
use std::hash::Hash;
use vstd::pervasive::strictly_cloned;
use vstd::std_specs::hash::obeys_key_model;
use crate::reach::{reaches, lemma_reaches_self, lemma_reaches_step, lemma_reaches_mono};

verus! {

broadcast use vstd::std_specs::hash::group_hash_axioms;

/// Job identities that hash collections can hold faithfully: `==` and hashing
/// agree with identity, and cloning yields the very same value.
pub open spec fn lawful_job_id<A: Clone>() -> bool {
    &&& obeys_key_model::<A>()
    &&& forall|a: A, b: A| #[trigger] strictly_cloned(a, b) ==> a == b
}

/// Plain integer identities meet the requirement.
pub proof fn lemma_u64_ids_lawful()
    ensures
        lawful_job_id::<u64>(),
{
}

/// The jobs of `found`, each at its first occurrence, leaving out those of
/// `seen`.
pub open spec fn fresh<A>(found: Seq<A>, seen: Set<A>) -> Seq<A>
    decreases found.len(),
{
    if found.len() == 0 {
        Seq::empty()
    } else {
        let prev = fresh(found.drop_last(), seen);
        let x = found.last();
        if seen.contains(x) || prev.contains(x) {
            prev
        } else {
            prev.push(x)
        }
    }
}

/// `fresh` holds each job once, and exactly the jobs of `found` outside `seen`.
pub proof fn lemma_fresh<A>(found: Seq<A>, seen: Set<A>)
    ensures
        fresh(found, seen).no_duplicates(),
        forall|x: A| #[trigger]
            fresh(found, seen).contains(x) <==> found.contains(x) && !seen.contains(x),
    decreases found.len(),
{
    if found.len() > 0 {
        let prev = fresh(found.drop_last(), seen);
        lemma_fresh(found.drop_last(), seen);
        let last = found.last();
        assert forall|x: A| #[trigger]
            fresh(found, seen).contains(x) <==> found.contains(x) && !seen.contains(x) by {
            assert(found.contains(x) <==> found.drop_last().contains(x) || x == last) by {
                if found.contains(x) && x != last {
                    let i = choose|i: int| 0 <= i < found.len() && found[i] == x;
                    assert(found.drop_last()[i] == x);
                }
                if found.drop_last().contains(x) {
                    let i = choose|i: int| 0 <= i < found.len() - 1 && found.drop_last()[i] == x;
                    assert(found[i] == x);
                }
                assert(found[found.len() - 1] == last);
            }
            assert(prev.push(last).contains(x) <==> prev.contains(x) || x == last) by {
                if prev.push(last).contains(x) && x != last {
                    let i = choose|i: int| 0 <= i < prev.len() + 1 && prev.push(last)[i] == x;
                    assert(prev[i] == x);
                }
                if prev.contains(x) {
                    let i = choose|i: int| 0 <= i < prev.len() && prev[i] == x;
                    assert(prev.push(last)[i] == x);
                }
                assert(prev.push(last)[prev.len() as int] == last);
            }
        }
        if !(seen.contains(last) || prev.contains(last)) {
            assert forall|i: int, k: int| 0 <= i < k < prev.len() + 1 implies
                prev.push(last)[i] != prev.push(last)[k] by {
                if k == prev.len() {
                    assert(prev.contains(prev[i]));
                }
            }
        }
    }
}

/// The dispatcher's state, as mathematical values.
#[verifier::reject_recursive_types(A)]
pub struct DispatchState<A, B> {
    /// The job the run started from.
    pub seed: A,
    /// Jobs handed to the frontier whose outcome has not come back yet.
    pub outstanding: Set<A>,
    /// The result of each resolved job.
    pub results: Map<A, B>,
    /// The jobs that each resolved job discovered.
    pub discovered: Map<A, Seq<A>>,
    /// Every job handed to the frontier so far, in order.
    pub issued: Seq<A>,
}

impl<A, B> DispatchState<A, B> {
    /// Jobs that have been handed out, resolved or not.
    pub open spec fn seen(self) -> Set<A> {
        self.outstanding + self.results.dom()
    }

    /// Discovery as recorded so far: a job not yet resolved has discovered
    /// nothing.
    pub open spec fn recorded(self) -> spec_fn(A) -> Seq<A> {
        |j: A|
            if self.discovered.contains_key(j) {
                self.discovered[j]
            } else {
                Seq::empty()
            }
    }

    /// Every job is outstanding or resolved, never both; the seed has been
    /// seen; every job discovered by a resolved job has been seen; every seen
    /// job was reached from the seed by recorded discovery; and each seen job
    /// was handed out exactly once.
    pub open spec fn inv(self) -> bool {
        &&& self.outstanding.finite()
        &&& self.outstanding.disjoint(self.results.dom())
        &&& self.seen().contains(self.seed)
        &&& self.discovered.dom() == self.results.dom()
        &&& forall|j: A, k: A|
            self.discovered.contains_key(j) && #[trigger] self.discovered[j].contains(k)
                ==> self.seen().contains(k)
        &&& forall|x: A| #[trigger] self.seen().contains(x) ==> reaches(self.recorded(), self.seed, x)
        &&& self.issued.no_duplicates()
        &&& self.issued.to_set() == self.seen()
    }

    /// No job is outstanding: the run is complete.
    pub open spec fn is_finished(self) -> bool {
        self.outstanding.is_empty()
    }

    /// Each resolved job has the result and the discoveries that `process`
    /// gives for it.
    pub open spec fn agrees_with(self, process: spec_fn(A) -> (B, Seq<A>)) -> bool {
        forall|j: A| #[trigger]
            self.results.contains_key(j) ==> self.results[j] == process(j).0
                && self.discovered[j] == process(j).1
    }

    /// The state after `job`, outstanding in `self`, resolved to `result`
    /// and discovered `found`.
    pub open spec fn resolve(self, job: A, result: B, found: Seq<A>) -> Self {
        let added = fresh(found, self.seen());
        DispatchState {
            seed: self.seed,
            outstanding: self.outstanding.remove(job) + added.to_set(),
            results: self.results.insert(job, result),
            discovered: self.discovered.insert(job, found),
            issued: self.issued + added,
        }
    }
}

proof fn lemma_resolve_inv<A, B>(s: DispatchState<A, B>, job: A, result: B, found: Seq<A>)
    requires
        s.inv(),
        s.outstanding.contains(job),
    ensures
        s.resolve(job, result, found).inv(),
        s.resolve(job, result, found).seen() == s.seen() + fresh(found, s.seen()).to_set(),
{
    let t = s.resolve(job, result, found);
    let added = fresh(found, s.seen());
    lemma_fresh(found, s.seen());
    assert(t.seen() =~= s.seen() + added.to_set());
    assert(t.outstanding.disjoint(t.results.dom()));
    assert(t.discovered.dom() =~= t.results.dom());
    assert forall|j: A, k: A|
        t.discovered.contains_key(j) && #[trigger] t.discovered[j].contains(k) implies t.seen().contains(k) by {
        if j != job {
            assert(s.discovered[j].contains(k));
        }
    }
    assert forall|a: A| s.recorded()(a).len() > 0 implies #[trigger] t.recorded()(a) == s.recorded()(a) by {
        assert(a != job);
    }
    assert forall|x: A| #[trigger] t.seen().contains(x) implies reaches(t.recorded(), t.seed, x) by {
        assert(s.seen().contains(job));
        lemma_reaches_mono(s.recorded(), t.recorded(), s.seed, job);
        if s.seen().contains(x) {
            lemma_reaches_mono(s.recorded(), t.recorded(), s.seed, x);
        } else {
            assert(added.contains(x));
            assert(t.recorded()(job) == found);
            lemma_reaches_step(t.recorded(), t.seed, job, x);
        }
    }
    assert forall|i: int, k: int| 0 <= i < k < t.issued.len() implies t.issued[i] != t.issued[k] by {
        if k >= s.issued.len() && i < s.issued.len() {
            assert(s.issued.to_set().contains(t.issued[i]));
            assert(added.contains(t.issued[k]));
        } else if i >= s.issued.len() {
            assert(added[i - s.issued.len()] != added[k - s.issued.len()]);
        }
    }
    assert forall|x: A| t.issued.to_set().contains(x) <==> t.seen().contains(x) by {
        if t.issued.contains(x) {
            let i = choose|i: int| 0 <= i < t.issued.len() && t.issued[i] == x;
            if i < s.issued.len() {
                assert(s.issued.contains(x));
            } else {
                assert(added.contains(x));
            }
        }
        if s.issued.contains(x) {
            let i = choose|i: int| 0 <= i < s.issued.len() && s.issued[i] == x;
            assert(t.issued[i] == x);
        }
        if added.contains(x) {
            let i = choose|i: int| 0 <= i < added.len() && added[i] == x;
            assert(t.issued[s.issued.len() + i] == x);
        }
    }
    assert(t.issued.to_set() =~= t.seen());
}

/// What the dispatcher asks for after a completion.
pub enum Step<A, E> {
    /// Submit these jobs to the frontier; other jobs are still outstanding.
    Continue(Vec<A>),
    /// Nothing is outstanding: the run is complete.
    Done,
    /// A job failed: the run stops with this error.
    Failed(E),
}

/// The dispatcher of a run: it owns the set of outstanding jobs and the
/// result map, and decides from each completion which jobs are new.
#[verifier::reject_recursive_types(A)]
pub struct Dispatcher<A, B> {
    outstanding: HashSet<A>,
    results: HashMap<A, B>,
    seed: Ghost<A>,
    discovered: Ghost<Map<A, Seq<A>>>,
    issued: Ghost<Seq<A>>,
}

impl<A, B> View for Dispatcher<A, B> {
    type V = DispatchState<A, B>;

    closed spec fn view(&self) -> DispatchState<A, B> {
        DispatchState {
            seed: self.seed@,
            outstanding: self.outstanding@,
            results: self.results@,
            discovered: self.discovered@,
            issued: self.issued@,
        }
    }
}

impl<A: Clone + Eq + Hash, B> Dispatcher<A, B> {
    /// The state is consistent and the job type is a lawful hash key.
    pub open spec fn wf(&self) -> bool {
        &&& self@.inv()
        &&& lawful_job_id::<A>()
    }

    /// Starts a run from `first_job`, which becomes the one outstanding job.
    /// Returns the dispatcher and the jobs to submit to the frontier.
    pub fn start(first_job: A) -> (r: (Self, Vec<A>))
        requires
            lawful_job_id::<A>(),
        ensures
            r.0.wf(),
            r.0@ == (DispatchState {
                seed: first_job,
                outstanding: set![first_job],
                results: Map::<A, B>::empty(),
                discovered: Map::<A, Seq<A>>::empty(),
                issued: seq![first_job],
            }),
            r.1@ == seq![first_job],
    {
        let mut outstanding: HashSet<A> = HashSet::new();
        let copy = first_job.clone();
        assert(strictly_cloned(first_job, copy));
        outstanding.insert(copy);
        let results: HashMap<A, B> = HashMap::new();
        let d = Dispatcher {
            outstanding,
            results,
            seed: Ghost(first_job),
            discovered: Ghost(Map::empty()),
            issued: Ghost(Seq::empty().push(first_job)),
        };
        proof {
            let s = d@;
            assert(s.outstanding =~= set![first_job]);
            assert(s.seen() =~= set![first_job]);
            assert(s.discovered.dom() =~= s.results.dom());
            lemma_reaches_self(s.recorded(), first_job);
            assert(s.issued.to_set() =~= s.seen()) by {
                assert(s.issued[0] == first_job);
            }
        }
        let mut first: Vec<A> = Vec::new();
        first.push(first_job);
        (d, first)
    }

    /// Whether `job` is outstanding.
    pub fn is_outstanding(&self, job: &A) -> (r: bool)
        requires
            self.wf(),
        ensures
            r == self@.outstanding.contains(*job),
    {
        self.outstanding.contains(job)
    }

    /// The number of outstanding jobs.
    pub fn outstanding_count(&self) -> (r: usize)
        requires
            self.wf(),
        ensures
            r == self@.outstanding.len(),
    {
        self.outstanding.len()
    }

    /// Records the outcome of the outstanding `job`.
    ///
    /// On an error the run fails with it and the state is left as it was.
    /// On success the job is resolved to its result, the jobs it discovered
    /// that were never seen before become outstanding, each once and in order
    /// of discovery, and they are returned for the frontier; once nothing is
    /// outstanding the run is done.
    pub fn complete<E>(&mut self, job: A, outcome: Result<(B, Vec<A>), E>) -> (r: Step<A, E>)
        requires
            old(self).wf(),
            old(self)@.outstanding.contains(job),
        ensures
            final(self).wf(),
            match outcome {
                Err(e) => r == Step::<A, E>::Failed(e) && final(self)@ == old(self)@,
                Ok((result, found)) => {
                    &&& final(self)@ == old(self)@.resolve(job, result, found@)
                    &&& if final(self)@.is_finished() {
                        r == Step::<A, E>::Done
                    } else {
                        r matches Step::Continue(added) && added@ == fresh(found@, old(self)@.seen())
                    }
                },
            },
    {
        match outcome {
            Err(e) => Step::Failed(e),
            Ok((result, found)) => {
                let ghost s0 = self@;
                let ghost items = found@;
                proof {
                    lemma_resolve_inv(s0, job, result, items);
                    lemma_fresh(items, s0.seen());
                }
                self.outstanding.remove(&job);
                self.discovered = Ghost(self.discovered@.insert(job, items));
                self.results.insert(job, result);
                let mut added: Vec<A> = Vec::new();
                for d in it: found.into_iter()
                    invariant
                        it.seq() == items,
                        lawful_job_id::<A>(),
                        s0.inv(),
                        s0.outstanding.contains(job),
                        self.seed@ == s0.seed,
                        self.discovered@ == s0.discovered.insert(job, items),
                        self.results@ == s0.results.insert(job, result),
                        added@ == fresh(items.take(it.index() as int), s0.seen()),
                        self.outstanding@ == s0.outstanding.remove(job) + added@.to_set(),
                        self.issued@ == s0.issued + added@,
                {
                    let ghost done = items.take(it.index() as int);
                    let ghost next = items.take(it.index() as int + 1);
                    proof {
                        lemma_fresh(done, s0.seen());
                        assert(next.drop_last() == done);
                        assert(next.last() == d);
                        assert(s0.seen().contains(job));
                    }
                    if !self.results.contains_key(&d) && !self.outstanding.contains(&d) {
                        let copy = d.clone();
                        assert(strictly_cloned(d, copy));
                        self.outstanding.insert(copy);
                        self.issued = Ghost(self.issued@.push(d));
                        proof {
                            added@.lemma_push_to_set_commute(d);
                        }
                        added.push(d);
                        assert(self.outstanding@ =~= s0.outstanding.remove(job) + added@.to_set());
                    }
                }
                proof {
                    assert(items.take(items.len() as int) == items);
                    assert(self@ == s0.resolve(job, result, items));
                }
                if self.outstanding.is_empty() {
                    Step::Done
                } else {
                    Step::Continue(added)
                }
            },
        }
    }

    /// Ends the run and hands over the result map.
    pub fn into_results(self) -> (r: HashMap<A, B>)
        ensures
            r@ == self@.results,
    {
        self.results
    }
}

} // verus!
