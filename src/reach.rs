//! Discovery as a relation between jobs, and which jobs it reaches.
use vstd::prelude::*;

verus! {

/// `p` is a walk of the discovery relation `succ`: each job of `p` after the
/// first was discovered by the job just before it.
pub open spec fn is_walk<A>(succ: spec_fn(A) -> Seq<A>, p: Seq<A>) -> bool {
    forall|i: int| 0 <= i < p.len() - 1 ==> #[trigger] succ(p[i]).contains(p[i + 1])
}

/// Starting from `from`, discovery leads to `to` in zero or more steps.
pub open spec fn reaches<A>(succ: spec_fn(A) -> Seq<A>, from: A, to: A) -> bool {
    exists|p: Seq<A>|
        #[trigger] is_walk(succ, p) && p.len() > 0 && p[0] == from && p.last() == to
}

/// Every job that discovery leads to from `from`, `from` itself included.
pub open spec fn reachable_set<A>(succ: spec_fn(A) -> Seq<A>, from: A) -> Set<A> {
    Set::new(|x: A| reaches(succ, from, x))
}

/// A job reaches itself.
pub proof fn lemma_reaches_self<A>(succ: spec_fn(A) -> Seq<A>, a: A)
    ensures
        reaches(succ, a, a),
{
    let p = seq![a];
    assert(is_walk(succ, p));
}

/// A job discovered by a reachable job is reachable.
pub proof fn lemma_reaches_step<A>(succ: spec_fn(A) -> Seq<A>, from: A, mid: A, to: A)
    requires
        reaches(succ, from, mid),
        succ(mid).contains(to),
    ensures
        reaches(succ, from, to),
{
    let p = choose|p: Seq<A>| is_walk(succ, p) && p.len() > 0 && p[0] == from && p.last() == mid;
    let q = p.push(to);
    assert forall|i: int| 0 <= i < q.len() - 1 implies #[trigger] succ(q[i]).contains(q[i + 1]) by {
        if i < p.len() - 1 {
            assert(q[i] == p[i] && q[i + 1] == p[i + 1]);
        } else {
            assert(q[i] == mid && q[i + 1] == to);
        }
    }
    assert(is_walk(succ, q));
}

/// Reachability carries over to a relation `big` that agrees with `small`
/// on every job that has successors in `small`.
pub proof fn lemma_reaches_mono<A>(
    small: spec_fn(A) -> Seq<A>,
    big: spec_fn(A) -> Seq<A>,
    from: A,
    to: A,
)
    requires
        reaches(small, from, to),
        forall|a: A| small(a).len() > 0 ==> #[trigger] big(a) == small(a),
    ensures
        reaches(big, from, to),
{
    let p = choose|p: Seq<A>| is_walk(small, p) && p.len() > 0 && p[0] == from && p.last() == to;
    assert forall|i: int| 0 <= i < p.len() - 1 implies #[trigger] big(p[i]).contains(p[i + 1]) by {
        assert(small(p[i]).contains(p[i + 1]));
        assert(small(p[i]).len() > 0);
    }
    assert(is_walk(big, p));
}

proof fn lemma_walk_stays_in<A>(succ: spec_fn(A) -> Seq<A>, s: Set<A>, p: Seq<A>, i: int)
    requires
        is_walk(succ, p),
        p.len() > 0,
        s.contains(p[0]),
        forall|a: A, b: A| s.contains(a) && #[trigger] succ(a).contains(b) ==> s.contains(b),
        0 <= i < p.len(),
    ensures
        s.contains(p[i]),
    decreases i,
{
    if i > 0 {
        lemma_walk_stays_in(succ, s, p, i - 1);
        let j = i - 1;
        assert(succ(p[j]).contains(p[j + 1]));
    }
}

/// A set that holds `from` and every job discovered by one of its members
/// holds every job reachable from `from`.
pub proof fn lemma_closed_holds_reachable<A>(succ: spec_fn(A) -> Seq<A>, from: A, s: Set<A>)
    requires
        s.contains(from),
        forall|a: A, b: A| s.contains(a) && #[trigger] succ(a).contains(b) ==> s.contains(b),
    ensures
        reachable_set(succ, from) <= s,
{
    assert forall|x: A| reachable_set(succ, from).contains(x) implies s.contains(x) by {
        let p = choose|p: Seq<A>|
            is_walk(succ, p) && p.len() > 0 && p[0] == from && p.last() == x;
        lemma_walk_stays_in(succ, s, p, p.len() - 1);
    }
}

} // verus!
