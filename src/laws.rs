//! What holds of every run of the dispatcher.
use vstd::prelude::*;
use std::hash::Hash;
use crate::dispatcher::Dispatcher;
use crate::reach::{
    is_walk, reaches, reachable_set, lemma_reaches_self, lemma_reaches_step, lemma_reaches_mono,
    lemma_closed_holds_reachable,
};

verus! {

/// The discovery relation of a processing function.
pub open spec fn discovery_of<A, B>(process: spec_fn(A) -> (B, Seq<A>)) -> spec_fn(A) -> Seq<A> {
    |j: A| process(j).1
}

/// Once nothing is outstanding, the resolved jobs are exactly the jobs that
/// processing transitively discovers from the seed, the seed included.
pub proof fn lemma_finished_covers_reachable<A: Clone + Eq + Hash, B>(
    d: &Dispatcher<A, B>,
    process: spec_fn(A) -> (B, Seq<A>),
)
    requires
        d.wf(),
        d@.is_finished(),
        d@.agrees_with(process),
    ensures
        d@.results.dom() == reachable_set(discovery_of(process), d@.seed),
{
    let s = d@;
    let succ = discovery_of(process);
    let dom = s.results.dom();
    assert(s.seen() =~= dom);
    assert forall|a: A| s.recorded()(a).len() > 0 implies #[trigger] succ(a) == s.recorded()(a) by {
        assert(s.results.contains_key(a));
    }
    assert forall|x: A| dom.contains(x) implies reachable_set(succ, s.seed).contains(x) by {
        assert(s.seen().contains(x));
        lemma_reaches_mono(s.recorded(), succ, s.seed, x);
    }
    assert forall|a: A, b: A| dom.contains(a) && #[trigger] succ(a).contains(b) implies dom.contains(b) by {
        assert(s.results.contains_key(a));
        assert(s.discovered[a].contains(b));
    }
    lemma_closed_holds_reachable(succ, s.seed, dom);
    assert(dom =~= reachable_set(succ, s.seed));
}

/// A run whose seed discovers nothing ends with one entry: the seed and its
/// result.
pub proof fn lemma_single_job_closure<A: Clone + Eq + Hash, B>(
    d: &Dispatcher<A, B>,
    process: spec_fn(A) -> (B, Seq<A>),
)
    requires
        d.wf(),
        d@.is_finished(),
        d@.agrees_with(process),
        process(d@.seed).1.len() == 0,
    ensures
        d@.results == map![d@.seed => process(d@.seed).0],
{
    let s = d@;
    let succ = discovery_of(process);
    lemma_finished_covers_reachable(d, process);
    assert forall|x: A| reachable_set(succ, s.seed).contains(x) implies x == s.seed by {
        let p = choose|p: Seq<A>| is_walk(succ, p) && p.len() > 0 && p[0] == s.seed && p.last() == x;
        if p.len() > 1 {
            let i: int = 0;
            assert(succ(p[i]).contains(p[i + 1]));
        }
    }
    lemma_reaches_self(succ, s.seed);
    assert(s.results.dom() =~= set![s.seed]);
    assert(s.results =~= map![s.seed => process(s.seed).0]);
}

proof fn lemma_chain_prefix_reached<A, B>(
    process: spec_fn(A) -> (B, Seq<A>),
    chain: Seq<A>,
    k: int,
)
    requires
        0 <= k < chain.len(),
        forall|i: int| 0 <= i < chain.len() - 1 ==> #[trigger] process(chain[i]).1 == seq![chain[i + 1]],
    ensures
        reaches(discovery_of(process), chain[0], chain[k]),
    decreases k,
{
    let succ = discovery_of(process);
    if k == 0 {
        lemma_reaches_self(succ, chain[0]);
    } else {
        lemma_chain_prefix_reached(process, chain, k - 1);
        let j = k - 1;
        assert(process(chain[j]).1 == seq![chain[j + 1]]);
        assert(succ(chain[j]).contains(chain[k])) by {
            assert(succ(chain[j])[0] == chain[k]);
        }
        lemma_reaches_step(succ, chain[0], chain[j], chain[k]);
    }
}

/// When each job of `chain` discovers the next one and the last discovers
/// nothing, a run seeded with the first job resolves exactly the jobs of
/// `chain`.
pub proof fn lemma_chain_discovery<A: Clone + Eq + Hash, B>(
    d: &Dispatcher<A, B>,
    process: spec_fn(A) -> (B, Seq<A>),
    chain: Seq<A>,
)
    requires
        d.wf(),
        d@.is_finished(),
        d@.agrees_with(process),
        chain.len() > 0,
        d@.seed == chain[0],
        forall|i: int| 0 <= i < chain.len() - 1 ==> #[trigger] process(chain[i]).1 == seq![chain[i + 1]],
        process(chain.last()).1.len() == 0,
    ensures
        d@.results.dom() == chain.to_set(),
{
    let succ = discovery_of(process);
    lemma_finished_covers_reachable(d, process);
    assert forall|a: A, b: A| chain.to_set().contains(a) && #[trigger] succ(a).contains(b)
        implies chain.to_set().contains(b) by {
        let k = choose|k: int| 0 <= k < chain.len() && chain[k] == a;
        if k < chain.len() - 1 {
            assert(process(chain[k]).1 == seq![chain[k + 1]]);
            assert(chain[k + 1] == b);
        } else {
            assert(chain[k] == chain.last());
        }
    }
    assert(chain.to_set().contains(chain[0]));
    lemma_closed_holds_reachable(succ, chain[0], chain.to_set());
    assert forall|x: A| chain.to_set().contains(x) implies reachable_set(succ, chain[0]).contains(x) by {
        let k = choose|k: int| 0 <= k < chain.len() && chain[k] == x;
        lemma_chain_prefix_reached(process, chain, k);
    }
    assert(d@.results.dom() =~= chain.to_set());
}

/// Every job is handed to the frontier at most once, however often it is
/// discovered, and every job seen was handed out.
pub proof fn lemma_each_job_issued_once<A: Clone + Eq + Hash, B>(d: &Dispatcher<A, B>)
    requires
        d.wf(),
    ensures
        d@.issued.no_duplicates(),
        d@.issued.to_set() == d@.seen(),
        d@.is_finished() ==> d@.issued.to_set() == d@.results.dom(),
{
    if d@.is_finished() {
        assert(d@.seen() =~= d@.results.dom());
    }
}

/// Two finished runs from the same seed, driven by the same deterministic
/// processing function, end with the same result map.
pub proof fn lemma_rerun_same_results<A: Clone + Eq + Hash, B>(
    d1: &Dispatcher<A, B>,
    d2: &Dispatcher<A, B>,
    process: spec_fn(A) -> (B, Seq<A>),
)
    requires
        d1.wf(),
        d2.wf(),
        d1@.is_finished(),
        d2@.is_finished(),
        d1@.seed == d2@.seed,
        d1@.agrees_with(process),
        d2@.agrees_with(process),
    ensures
        d1@.results == d2@.results,
{
    lemma_finished_covers_reachable(d1, process);
    lemma_finished_covers_reachable(d2, process);
    assert forall|j: A| #[trigger] d1@.results.contains_key(j) implies d1@.results[j] == d2@.results[j] by {
        assert(d2@.results.contains_key(j));
    }
    assert(d1@.results =~= d2@.results);
}

} // verus!
