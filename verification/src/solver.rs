//! Breadth-first search for a shortest sequence of steps to a goal.
use std::collections::HashMap;
use vstd::prelude::*;

verus! {

/// Why a search returned no steps.
#[derive(Clone, Copy, Debug, PartialEq, Eq, Structural)]
pub enum SolverError {
    /// Every state that can be reached has been examined and none is a goal.
    NoSolutionFound,
}

/// A puzzle that the search can work on: a state that tells whether it is
/// a goal, which steps it offers, and which state a step leads to. `S` is
/// the type of a step; the view of the state is its mathematical value.
///
/// The search tells states apart by `same` and files them by `digest`.
pub trait Problem<S: Copy>: View + Clone + Sized {
    /// The states that the puzzle is defined on.
    spec fn valid(state: Self::V) -> bool;

    /// Whether a state is a goal.
    spec fn goal(state: Self::V) -> bool;

    /// The steps that a state offers after the steps `previous`, in the
    /// order in which the search tries them. With no previous steps these
    /// are all the steps that the state allows.
    spec fn offers(state: Self::V, previous: Seq<S>) -> Seq<S>;

    /// The state that a step leads to.
    spec fn after(state: Self::V, step: S) -> Self::V;

    /// The number under which a state is filed.
    spec fn digest_of(state: Self::V) -> u64;

    /// A step that a valid state allows leads to a valid state.
    proof fn lemma_after_valid(state: Self::V, step: S)
        requires
            Self::valid(state),
            Self::offers(state, Seq::empty()).contains(step),
        ensures
            Self::valid(Self::after(state, step)),
    ;

    /// The previous steps can only rule steps out.
    proof fn lemma_offers_allowed(state: Self::V, previous: Seq<S>, step: S)
        requires
            Self::valid(state),
            Self::offers(state, previous).contains(step),
        ensures
            Self::offers(state, Seq::empty()).contains(step),
    ;

    /// A step that the previous steps rule out leads back to the state
    /// that the last of them came from.
    proof fn lemma_ruled_out_leads_back(origin: Self::V, previous: Seq<S>, taken: S, step: S)
        requires
            Self::valid(origin),
            Self::offers(origin, previous).contains(taken),
            Self::offers(Self::after(origin, taken), Seq::empty()).contains(step),
            !Self::offers(Self::after(origin, taken), previous.push(taken)).contains(step),
        ensures
            Self::after(Self::after(origin, taken), step) == origin,
    ;

    /// The steps that a state offers stand in the order in which the state
    /// lists the steps that it allows, whatever the previous steps are.
    proof fn lemma_offers_in_order(state: Self::V, previous: Seq<S>, i: int, j: int)
        requires
            Self::valid(state),
            0 <= i < j < Self::offers(state, previous).len(),
        ensures
            Self::offers(state, Seq::empty()).index_of(Self::offers(state, previous)[i])
                < Self::offers(state, Seq::empty()).index_of(Self::offers(state, previous)[j]),
    ;

    /// A clone is the same state.
    proof fn lemma_clone(state: Self, copy: Self)
        requires
            cloned::<Self>(state, copy),
        ensures
            copy@ == state@,
    ;

    /// Whether the state is a goal.
    fn is_solved(&self) -> (b: bool)
        requires
            Self::valid(self@),
        ensures
            b == Self::goal(self@),
    ;

    /// The steps that the state offers after the steps that led to it.
    fn available_steps(&self, previous_steps: &[S]) -> (steps: Vec<S>)
        requires
            Self::valid(self@),
        ensures
            steps@ == Self::offers(self@, previous_steps@),
    ;

    /// The state that a step leads to, for a step that the state allows.
    fn next(&self, step: S) -> (state: Self)
        requires
            Self::valid(self@),
            Self::offers(self@, Seq::empty()).contains(step),
        ensures
            state@ == Self::after(self@, step),
    ;

    /// Whether two states are the same.
    fn same(&self, other: &Self) -> (b: bool)
        requires
            Self::valid(self@),
            Self::valid(other@),
        ensures
            b == (self@ == other@),
    ;

    /// The number under which the state is filed: the same for the same
    /// state.
    fn digest(&self) -> (d: u64)
        requires
            Self::valid(self@),
        ensures
            d == Self::digest_of(self@),
    ;
}

/// The state that a sequence of steps leads to from `start`.
pub open spec fn destination<S: Copy, P: Problem<S>>(start: P::V, walk: Seq<S>) -> P::V
    decreases walk.len(),
{
    if walk.len() == 0 {
        start
    } else {
        P::after(destination::<S, P>(start, walk.drop_last()), walk.last())
    }
}

/// Whether each step of `walk` is one that the state it is taken in allows.
pub open spec fn feasible<S: Copy, P: Problem<S>>(start: P::V, walk: Seq<S>) -> bool
    decreases walk.len(),
{
    walk.len() == 0 || (feasible::<S, P>(start, walk.drop_last()) && P::offers(
        destination::<S, P>(start, walk.drop_last()),
        Seq::empty(),
    ).contains(walk.last()))
}

/// Whether each step of `walk` is one that the state it is taken in offers
/// after the steps before it.
pub open spec fn offered<S: Copy, P: Problem<S>>(start: P::V, walk: Seq<S>) -> bool
    decreases walk.len(),
{
    walk.len() == 0 || (offered::<S, P>(start, walk.drop_last()) && P::offers(
        destination::<S, P>(start, walk.drop_last()),
        walk.drop_last(),
    ).contains(walk.last()))
}

/// The place of a step among the steps that a state allows.
pub open spec fn rank<S: Copy, P: Problem<S>>(state: P::V, step: S) -> int {
    P::offers(state, Seq::empty()).index_of(step)
}

/// Whether two sequences of steps agree before the place `i`, where the
/// step of `first` stands before the step of `second` among the steps that
/// the state there allows.
pub open spec fn parts_at<S: Copy, P: Problem<S>>(
    start: P::V,
    first: Seq<S>,
    second: Seq<S>,
    i: int,
) -> bool {
    &&& 0 <= i < first.len()
    &&& i < second.len()
    &&& first.take(i) == second.take(i)
    &&& rank::<S, P>(destination::<S, P>(start, first.take(i)), first[i]) < rank::<S, P>(
        destination::<S, P>(start, first.take(i)),
        second[i],
    )
}

/// Whether `first` comes before `second` when sequences of steps are
/// ordered like words, each step by its place among the steps that the
/// state allows in which it is taken.
pub open spec fn precedes<S: Copy, P: Problem<S>>(start: P::V, first: Seq<S>, second: Seq<S>) -> bool {
    exists|i: int| parts_at::<S, P>(start, first, second, i)
}

/// Whether `steps` is the first of the solutions of its length: every
/// other sequence of as many allowed steps that leads to a goal comes
/// after it.
pub open spec fn is_first_solution<S: Copy, P: Problem<S>>(start: P::V, steps: Seq<S>) -> bool {
    forall|walk: Seq<S>|
        feasible::<S, P>(start, walk) && walk.len() == steps.len() && P::goal(
            #[trigger] destination::<S, P>(start, walk),
        ) ==> walk == steps || precedes::<S, P>(start, steps, walk)
}

/// If one sequence of steps comes before a second, and the second before a
/// third, then the first comes before the third.
pub proof fn lemma_precedes_transitive<S: Copy, P: Problem<S>>(
    start: P::V,
    a: Seq<S>,
    b: Seq<S>,
    c: Seq<S>,
)
    requires
        precedes::<S, P>(start, a, b),
        precedes::<S, P>(start, b, c),
    ensures
        precedes::<S, P>(start, a, c),
{
    let i = choose|i: int| parts_at::<S, P>(start, a, b, i);
    let k = choose|k: int| parts_at::<S, P>(start, b, c, k);
    if i < k {
        assert(b.take(k).take(i) =~= b.take(i));
        assert(c.take(k).take(i) =~= c.take(i));
        assert(b.take(k)[i] == c.take(k)[i]);
        assert(a.take(i) =~= c.take(i));
        assert(parts_at::<S, P>(start, a, c, i));
    } else if k < i {
        assert(a.take(i).take(k) =~= a.take(k));
        assert(b.take(i).take(k) =~= b.take(k));
        assert(a.take(i)[k] == b.take(i)[k]);
        assert(a.take(k) =~= c.take(k));
        assert(parts_at::<S, P>(start, a, c, k));
    } else {
        assert(a.take(i) =~= c.take(i));
        assert(parts_at::<S, P>(start, a, c, i));
    }
}

/// A sequence of steps that comes before another still does when each is
/// made longer by a step.
pub proof fn lemma_precedes_longer<S: Copy, P: Problem<S>>(
    start: P::V,
    a: Seq<S>,
    b: Seq<S>,
    x: S,
    y: S,
)
    requires
        precedes::<S, P>(start, a, b),
    ensures
        precedes::<S, P>(start, a.push(x), b.push(y)),
{
    let i = choose|i: int| parts_at::<S, P>(start, a, b, i);
    assert(a.push(x).take(i) =~= a.take(i));
    assert(b.push(y).take(i) =~= b.take(i));
    assert(parts_at::<S, P>(start, a.push(x), b.push(y), i));
}

/// Of two sequences of steps that differ in their last step only, the one
/// comes first whose last step stands first.
pub proof fn lemma_precedes_by_last<S: Copy, P: Problem<S>>(start: P::V, a: Seq<S>, x: S, y: S)
    requires
        rank::<S, P>(destination::<S, P>(start, a), x) < rank::<S, P>(
            destination::<S, P>(start, a),
            y,
        ),
    ensures
        precedes::<S, P>(start, a.push(x), a.push(y)),
{
    let i = a.len() as int;
    assert(a.push(x).take(i) =~= a);
    assert(a.push(y).take(i) =~= a);
    assert(parts_at::<S, P>(start, a.push(x), a.push(y), i));
}

/// No sequence of steps comes before itself.
pub proof fn lemma_precedes_irreflexive<S: Copy, P: Problem<S>>(start: P::V, a: Seq<S>)
    ensures
        !precedes::<S, P>(start, a, a),
{
}

/// Only one sequence of steps is both a shortest solution and the first
/// of the solutions of its length.
pub proof fn lemma_solution_unique<S: Copy, P: Problem<S>>(start: P::V, a: Seq<S>, b: Seq<S>)
    requires
        P::valid(start),
        is_shortest_solution::<S, P>(start, a),
        is_first_solution::<S, P>(start, a),
        is_shortest_solution::<S, P>(start, b),
        is_first_solution::<S, P>(start, b),
    ensures
        a == b,
{
    lemma_offered_feasible::<S, P>(start, a);
    lemma_offered_feasible::<S, P>(start, b);
    assert(P::goal(destination::<S, P>(start, a)));
    assert(P::goal(destination::<S, P>(start, b)));
    assert(a.len() == b.len());
    if a != b {
        lemma_precedes_transitive::<S, P>(start, a, b, a);
        lemma_precedes_irreflexive::<S, P>(start, a);
    }
}

/// Whether `steps` leads from `start` to a goal by offered steps, and no
/// sequence of allowed steps that leads to a goal is shorter.
pub open spec fn is_shortest_solution<S: Copy, P: Problem<S>>(start: P::V, steps: Seq<S>) -> bool {
    &&& offered::<S, P>(start, steps)
    &&& P::goal(destination::<S, P>(start, steps))
    &&& forall|walk: Seq<S>|
        feasible::<S, P>(start, walk) && P::goal(#[trigger] destination::<S, P>(start, walk))
            ==> steps.len() <= walk.len()
}

/// Whether some sequence of allowed steps leads from `start` to a goal.
pub open spec fn solvable<S: Copy, P: Problem<S>>(start: P::V) -> bool {
    exists|walk: Seq<S>|
        feasible::<S, P>(start, walk) && P::goal(#[trigger] destination::<S, P>(start, walk))
}

/// From a goal the shortest solution is to take no step.
pub proof fn lemma_goal_needs_no_step<S: Copy, P: Problem<S>>(start: P::V, steps: Seq<S>)
    requires
        P::goal(start),
    ensures
        solvable::<S, P>(start),
        is_shortest_solution::<S, P>(start, steps) <==> steps.len() == 0,
{
    let nothing = Seq::<S>::empty();
    assert(feasible::<S, P>(start, nothing));
    assert(destination::<S, P>(start, nothing) == start);
    if steps.len() == 0 {
        assert(steps =~= nothing);
    }
}

/// Two sequences of steps taken one after the other lead where the second
/// leads from where the first leads, and are allowed if each is.
pub proof fn lemma_walk_joined<S: Copy, P: Problem<S>>(start: P::V, first: Seq<S>, second: Seq<S>)
    ensures
        destination::<S, P>(start, first + second) == destination::<S, P>(
            destination::<S, P>(start, first),
            second,
        ),
        feasible::<S, P>(start, first + second) <==> feasible::<S, P>(start, first) && feasible::<
            S,
            P,
        >(destination::<S, P>(start, first), second),
    decreases second.len(),
{
    if second.len() == 0 {
        assert(first + second =~= first);
    } else {
        assert((first + second).drop_last() =~= first + second.drop_last());
        assert((first + second).last() == second.last());
        lemma_walk_joined::<S, P>(start, first, second.drop_last());
    }
}

/// Allowed steps lead from a valid state to a valid state.
pub proof fn lemma_destination_valid<S: Copy, P: Problem<S>>(start: P::V, walk: Seq<S>)
    requires
        P::valid(start),
        feasible::<S, P>(start, walk),
    ensures
        P::valid(destination::<S, P>(start, walk)),
    decreases walk.len(),
{
    if walk.len() > 0 {
        lemma_destination_valid::<S, P>(start, walk.drop_last());
        P::lemma_after_valid(destination::<S, P>(start, walk.drop_last()), walk.last());
    }
}

/// Offered steps are allowed steps.
pub proof fn lemma_offered_feasible<S: Copy, P: Problem<S>>(start: P::V, walk: Seq<S>)
    requires
        P::valid(start),
        offered::<S, P>(start, walk),
    ensures
        feasible::<S, P>(start, walk),
    decreases walk.len(),
{
    if walk.len() > 0 {
        lemma_offered_feasible::<S, P>(start, walk.drop_last());
        lemma_destination_valid::<S, P>(start, walk.drop_last());
        P::lemma_offers_allowed(
            destination::<S, P>(start, walk.drop_last()),
            walk.drop_last(),
            walk.last(),
        );
    }
}

/// A shortest sequence of steps from `problem` to a goal, or
/// `NoSolutionFound` if no sequence of steps leads to one.
pub fn solve<S: Copy, P: Problem<S>>(problem: &P) -> (r: Result<Vec<S>, SolverError>)
    requires
        P::valid(problem@),
    ensures
        match r {
            Ok(steps) => is_shortest_solution::<S, P>(problem@, steps@) && is_first_solution::<S, P>(
                problem@,
                steps@,
            ),
            Err(e) => e == SolverError::NoSolutionFound && !solvable::<S, P>(problem@),
        },
        P::goal(problem@) ==> (r matches Ok(steps) && steps@.len() == 0),
{
    let initial = problem.clone();
    proof {
        P::lemma_clone(*problem, initial);
    }
    solve_aux(initial)
}

/// A state that waits to be examined: its place among the states on file,
/// and the steps that led to it.
struct Node<S> {
    state: usize,
    history: Vec<S>,
}

/// Whether `v` is among `states`.
spec fn on_file<S: Copy, P: Problem<S>>(states: Seq<P>, v: P::V) -> bool {
    exists|i: int| 0 <= i < states.len() && (#[trigger] states[i])@ == v
}

spec fn all_valid<S: Copy, P: Problem<S>>(states: Seq<P>) -> bool {
    forall|i: int| 0 <= i < states.len() ==> P::valid((#[trigger] states[i])@)
}

/// Whether `index` files each of `states` under its digest: each entry of
/// the index is the place of a state with that digest, and each state has
/// its place in the entry of its digest.
spec fn filed<S: Copy, P: Problem<S>>(states: Seq<P>, index: Map<u64, Vec<usize>>) -> bool {
    &&& forall|d: u64, j: int|
        index.contains_key(d) && 0 <= j < index[d]@.len() ==> (#[trigger] index[d]@[j])
            < states.len() && P::digest_of(states[index[d]@[j] as int]@) == d
    &&& forall|i: int|
        0 <= i < states.len() ==> index.contains_key(P::digest_of((#[trigger] states[i])@))
            && index[P::digest_of(states[i]@)]@.contains(i as usize)
}

/// Whether `more` begins with `states`.
spec fn extends<P>(more: Seq<P>, states: Seq<P>) -> bool {
    states.len() <= more.len() && more.take(states.len() as int) == states
}

/// Whether the state `v` has been examined: it is no goal, and every state
/// that it leads to is on file.
spec fn expanded<S: Copy, P: Problem<S>>(states: Seq<P>, v: P::V) -> bool {
    &&& !P::goal(v)
    &&& forall|s: S|
        P::offers(v, Seq::empty()).contains(s) ==> on_file::<S, P>(states, #[trigger] P::after(v, s))
}

/// Whether the first `count` states have been examined.
spec fn closed<S: Copy, P: Problem<S>>(states: Seq<P>, count: int) -> bool {
    forall|i: int| 0 <= i < count ==> expanded::<S, P>(states, (#[trigger] states[i])@)
}

/// Whether every state that at most `length` allowed steps lead to is among
/// the first `count` states.
spec fn covered<S: Copy, P: Problem<S>>(start: P::V, states: Seq<P>, count: int, length: int) -> bool {
    forall|walk: Seq<S>|
        feasible::<S, P>(start, walk) && walk.len() <= length ==> on_file::<S, P>(
            states.take(count),
            #[trigger] destination::<S, P>(start, walk),
        )
}

/// Whether a node stands for a state on file that its own steps lead to.
spec fn node_ok<S: Copy, P: Problem<S>>(start: P::V, states: Seq<P>, node: Node<S>, depth: int) -> bool {
    &&& node.state < states.len()
    &&& node.history@.len() == depth
    &&& offered::<S, P>(start, node.history@)
    &&& destination::<S, P>(start, node.history@) == states[node.state as int]@
}

/// Whether the nodes stand, in order, for the last states on file, each
/// reached by `depth` steps.
spec fn frontier_ok<S: Copy, P: Problem<S>>(
    start: P::V,
    states: Seq<P>,
    nodes: Seq<Node<S>>,
    depth: int,
) -> bool {
    &&& nodes.len() <= states.len()
    &&& forall|t: int|
        0 <= t < nodes.len() ==> (#[trigger] nodes[t]).state == states.len() - nodes.len() + t
            && node_ok::<S, P>(start, states, nodes[t], depth)
}

proof fn lemma_on_file_extends<S: Copy, P: Problem<S>>(more: Seq<P>, states: Seq<P>, v: P::V)
    requires
        extends(more, states),
        on_file::<S, P>(states, v),
    ensures
        on_file::<S, P>(more, v),
{
    let i = choose|i: int| 0 <= i < states.len() && (#[trigger] states[i])@ == v;
    assert(more.take(states.len() as int)[i] == more[i]);
    assert(more[i]@ == v);
}

proof fn lemma_closed_extends<S: Copy, P: Problem<S>>(more: Seq<P>, states: Seq<P>, count: int)
    requires
        extends(more, states),
        count <= states.len(),
        closed::<S, P>(states, count),
    ensures
        closed::<S, P>(more, count),
{
    assert forall|i: int| 0 <= i < count implies expanded::<S, P>(more, (#[trigger] more[i])@) by {
        assert(more.take(states.len() as int)[i] == more[i]);
        assert(expanded::<S, P>(states, states[i]@));
        let v = states[i]@;
        assert forall|s: S| P::offers(v, Seq::empty()).contains(s) implies on_file::<S, P>(
            more,
            #[trigger] P::after(v, s),
        ) by {
            lemma_on_file_extends::<S, P>(more, states, P::after(v, s));
        }
    }
}

proof fn lemma_covered_extends<S: Copy, P: Problem<S>>(
    start: P::V,
    more: Seq<P>,
    states: Seq<P>,
    count: int,
    length: int,
)
    requires
        extends(more, states),
        0 <= count <= states.len(),
        covered::<S, P>(start, states, count, length),
    ensures
        covered::<S, P>(start, more, count, length),
{
    assert(more.take(count) =~= states.take(count)) by {
        assert forall|i: int| 0 <= i < count implies more[i] == states[i] by {
            assert(more.take(states.len() as int)[i] == more[i]);
        }
    }
}

/// Once the first `count` states have been examined, one step more leads
/// nowhere but to states on file.
proof fn lemma_covered_next<S: Copy, P: Problem<S>>(
    start: P::V,
    states: Seq<P>,
    count: int,
    length: int,
)
    requires
        0 <= count <= states.len(),
        0 <= length,
        closed::<S, P>(states, count),
        covered::<S, P>(start, states, count, length),
    ensures
        covered::<S, P>(start, states, states.len() as int, length + 1),
{
    assert(states.take(states.len() as int) =~= states);
    assert forall|walk: Seq<S>|
        feasible::<S, P>(start, walk) && walk.len() <= length + 1 implies on_file::<S, P>(
        states,
        #[trigger] destination::<S, P>(start, walk),
    ) by {
        if walk.len() <= length {
            lemma_on_file_extends::<S, P>(
                states,
                states.take(count),
                destination::<S, P>(start, walk),
            );
        } else {
            let before = destination::<S, P>(start, walk.drop_last());
            assert(on_file::<S, P>(states.take(count), before));
            let i = choose|i: int|
                0 <= i < states.take(count).len() && (#[trigger] states.take(count)[i])@ == before;
            assert(states.take(count)[i] == states[i]);
            assert(expanded::<S, P>(states, states[i]@));
        }
    }
}

/// Once every state on file has been examined, no steps lead to a goal.
proof fn lemma_exhausted<S: Copy, P: Problem<S>>(start: P::V, states: Seq<P>, walk: Seq<S>)
    requires
        closed::<S, P>(states, states.len() as int),
        on_file::<S, P>(states, start),
        feasible::<S, P>(start, walk),
    ensures
        on_file::<S, P>(states, destination::<S, P>(start, walk)),
        !P::goal(destination::<S, P>(start, walk)),
    decreases walk.len(),
{
    if walk.len() > 0 {
        lemma_exhausted::<S, P>(start, states, walk.drop_last());
        let before = destination::<S, P>(start, walk.drop_last());
        let i = choose|i: int| 0 <= i < states.len() && (#[trigger] states[i])@ == before;
        assert(expanded::<S, P>(states, states[i]@));
    }
    let v = destination::<S, P>(start, walk);
    let k = choose|k: int| 0 <= k < states.len() && (#[trigger] states[k])@ == v;
    assert(expanded::<S, P>(states, states[k]@));
}

/// Whether the nodes stand in the order of their steps.
spec fn sorted<S: Copy, P: Problem<S>>(start: P::V, nodes: Seq<Node<S>>) -> bool {
    forall|a: int, b: int|
        0 <= a < b < nodes.len() ==> precedes::<S, P>(
            start,
            (#[trigger] nodes[a]).history@,
            (#[trigger] nodes[b]).history@,
        )
}

/// Whether `history` is the first of the sequences of as many allowed
/// steps that lead to `state`.
spec fn least<S: Copy, P: Problem<S>>(start: P::V, state: P::V, history: Seq<S>) -> bool {
    forall|walk: Seq<S>|
        feasible::<S, P>(start, walk) && walk.len() == history.len() && #[trigger] destination::<
            S,
            P,
        >(start, walk) == state ==> walk == history || precedes::<S, P>(start, history, walk)
}

spec fn all_least<S: Copy, P: Problem<S>>(start: P::V, states: Seq<P>, nodes: Seq<Node<S>>) -> bool {
    forall|t: int|
        0 <= t < nodes.len() ==> least::<S, P>(
            start,
            states[(#[trigger] nodes[t]).state as int]@,
            nodes[t].history@,
        )
}

/// Whether every sequence of as many allowed steps as `history` leads to a
/// state that has been examined, or is `history`, or comes after it.
spec fn ahead<S: Copy, P: Problem<S>>(start: P::V, states: Seq<P>, history: Seq<S>) -> bool {
    forall|walk: Seq<S>|
        feasible::<S, P>(start, walk) && walk.len() == history.len() ==> expanded::<S, P>(
            states,
            #[trigger] destination::<S, P>(start, walk),
        ) || walk == history || precedes::<S, P>(start, history, walk)
}

/// Whether each node was reached from a state whose steps come before
/// `history`.
spec fn parents_before<S: Copy, P: Problem<S>>(
    start: P::V,
    nodes: Seq<Node<S>>,
    history: Seq<S>,
) -> bool {
    forall|t: int|
        0 <= t < nodes.len() ==> precedes::<S, P>(
            start,
            (#[trigger] nodes[t]).history@.drop_last(),
            history,
        )
}

/// Whether each node was reached from a state whose steps are `history`
/// or come before it.
spec fn parents_upto<S: Copy, P: Problem<S>>(
    start: P::V,
    nodes: Seq<Node<S>>,
    history: Seq<S>,
) -> bool {
    forall|t: int|
        0 <= t < nodes.len() ==> (#[trigger] nodes[t]).history@.drop_last() == history
            || precedes::<S, P>(start, nodes[t].history@.drop_last(), history)
}

/// Whether each node from `from` on was reached from the state of
/// `history` by one of the first `tried` of `steps`.
spec fn children<S: Copy>(
    nodes: Seq<Node<S>>,
    from: int,
    history: Seq<S>,
    steps: Seq<S>,
    tried: int,
) -> bool {
    forall|t: int|
        from <= t < nodes.len() ==> (#[trigger] nodes[t]).history@.drop_last() == history && exists|
            k: int,
        |
            0 <= k < tried && #[trigger] steps[k] == nodes[t].history@.last()
}

proof fn lemma_expanded_extends<S: Copy, P: Problem<S>>(more: Seq<P>, states: Seq<P>, v: P::V)
    requires
        extends(more, states),
        expanded::<S, P>(states, v),
    ensures
        expanded::<S, P>(more, v),
{
    assert forall|s: S| P::offers(v, Seq::empty()).contains(s) implies on_file::<S, P>(
        more,
        #[trigger] P::after(v, s),
    ) by {
        lemma_on_file_extends::<S, P>(more, states, P::after(v, s));
    }
}

proof fn lemma_ahead_extends<S: Copy, P: Problem<S>>(
    start: P::V,
    more: Seq<P>,
    states: Seq<P>,
    history: Seq<S>,
)
    requires
        extends(more, states),
        ahead::<S, P>(start, states, history),
    ensures
        ahead::<S, P>(start, more, history),
{
    assert forall|walk: Seq<S>|
        feasible::<S, P>(start, walk) && walk.len() == history.len() implies expanded::<S, P>(
        more,
        #[trigger] destination::<S, P>(start, walk),
    ) || walk == history || precedes::<S, P>(start, history, walk) by {
        if expanded::<S, P>(states, destination::<S, P>(start, walk)) {
            lemma_expanded_extends::<S, P>(more, states, destination::<S, P>(start, walk));
        }
    }
}

/// The steps to a state that is new when the step `steps[j]` leads to it
/// are the first of their length to that state.
proof fn lemma_child_least<S: Copy, P: Problem<S>>(
    start: P::V,
    states: Seq<P>,
    history: Seq<S>,
    steps: Seq<S>,
    j: int,
)
    requires
        P::valid(start),
        offered::<S, P>(start, history),
        steps == P::offers(destination::<S, P>(start, history), history),
        0 <= j < steps.len(),
        ahead::<S, P>(start, states, history),
        history.len() > 0 ==> on_file::<S, P>(
            states,
            destination::<S, P>(start, history.drop_last()),
        ),
        forall|k: int|
            0 <= k < j ==> on_file::<S, P>(
                states,
                P::after(destination::<S, P>(start, history), #[trigger] steps[k]),
            ),
        !on_file::<S, P>(states, P::after(destination::<S, P>(start, history), steps[j])),
    ensures
        least::<S, P>(
            start,
            P::after(destination::<S, P>(start, history), steps[j]),
            history.push(steps[j]),
        ),
{
    let v = destination::<S, P>(start, history);
    let step = steps[j];
    let y = P::after(v, step);
    let grown = history.push(step);
    lemma_offered_feasible::<S, P>(start, history);
    lemma_destination_valid::<S, P>(start, history);
    assert forall|walk: Seq<S>|
        feasible::<S, P>(start, walk) && walk.len() == grown.len() && #[trigger] destination::<S, P>(
            start,
            walk,
        ) == y implies walk == grown || precedes::<S, P>(start, grown, walk) by {
        let shorter = walk.drop_last();
        let last = walk.last();
        let u = destination::<S, P>(start, shorter);
        assert(shorter.push(last) =~= walk);
        assert(P::offers(u, Seq::empty()).contains(last));
        if shorter == history {
            if steps.contains(last) {
                let k = choose|k: int| 0 <= k < steps.len() && steps[k] == last;
                if k < j {
                    assert(on_file::<S, P>(states, P::after(v, steps[k])));
                } else if k > j {
                    P::lemma_offers_in_order(v, history, j, k);
                    lemma_precedes_by_last::<S, P>(start, history, step, last);
                } else {
                    assert(walk =~= grown);
                }
            } else {
                if history.len() == 0 {
                    assert(history =~= Seq::<S>::empty());
                }
                let origin = destination::<S, P>(start, history.drop_last());
                lemma_offered_feasible::<S, P>(start, history.drop_last());
                lemma_destination_valid::<S, P>(start, history.drop_last());
                assert(history.drop_last().push(history.last()) =~= history);
                P::lemma_ruled_out_leads_back(origin, history.drop_last(), history.last(), last);
            }
        } else if precedes::<S, P>(start, history, shorter) {
            lemma_precedes_longer::<S, P>(start, history, shorter, step, last);
        } else {
            assert(expanded::<S, P>(states, u));
        }
    }
}

/// A node for the step `steps[j]` from the state of `history` comes after
/// the nodes before it.
proof fn lemma_child_sorted<S: Copy, P: Problem<S>>(
    start: P::V,
    nodes: Seq<Node<S>>,
    from: int,
    node: Node<S>,
    history: Seq<S>,
    steps: Seq<S>,
    j: int,
)
    requires
        P::valid(start),
        offered::<S, P>(start, history),
        steps == P::offers(destination::<S, P>(start, history), history),
        0 <= j < steps.len(),
        node.history@ == history.push(steps[j]),
        0 <= from <= nodes.len(),
        forall|t: int| 0 <= t < nodes.len() ==> (#[trigger] nodes[t]).history@.len() > 0,
        sorted::<S, P>(start, nodes),
        parents_before::<S, P>(start, nodes.take(from), history),
        children(nodes, from, history, steps, j),
    ensures
        sorted::<S, P>(start, nodes.push(node)),
        children(nodes.push(node), from, history, steps, j + 1),
{
    let v = destination::<S, P>(start, history);
    lemma_offered_feasible::<S, P>(start, history);
    lemma_destination_valid::<S, P>(start, history);
    let grown = nodes.push(node);
    assert forall|a: int, b: int| 0 <= a < b < grown.len() implies precedes::<S, P>(
        start,
        (#[trigger] grown[a]).history@,
        (#[trigger] grown[b]).history@,
    ) by {
        if b < nodes.len() {
            assert(grown[a] == nodes[a] && grown[b] == nodes[b]);
        } else {
            let earlier = nodes[a].history@;
            assert(grown[a] == nodes[a]);
            assert(earlier.drop_last().push(earlier.last()) =~= earlier);
            if a < from {
                assert(nodes.take(from)[a] == nodes[a]);
                lemma_precedes_longer::<S, P>(
                    start,
                    earlier.drop_last(),
                    history,
                    earlier.last(),
                    steps[j],
                );
            } else {
                let k = choose|k: int| 0 <= k < j && #[trigger] steps[k] == earlier.last();
                P::lemma_offers_in_order(v, history, k, j);
                lemma_precedes_by_last::<S, P>(start, history, steps[k], steps[j]);
            }
        }
    }
    assert forall|t: int| from <= t < grown.len() implies (#[trigger] grown[t]).history@.drop_last()
        == history && exists|k: int| 0 <= k < j + 1 && #[trigger] steps[k] == grown[t].history@.last() by {
        if t < nodes.len() {
            assert(grown[t] == nodes[t]);
            let k = choose|k: int| 0 <= k < j && #[trigger] steps[k] == nodes[t].history@.last();
            assert(0 <= k < j + 1 && steps[k] == grown[t].history@.last());
        } else {
            assert(grown[t].history@.drop_last() =~= history);
            assert(steps[j] == grown[t].history@.last());
        }
    }
}

/// Before the node `n` of a level is examined, every sequence of as many
/// allowed steps leads to a state examined already, or is the node's own,
/// or comes after it.
proof fn lemma_ahead<S: Copy, P: Problem<S>>(
    start: P::V,
    snapshot: Seq<P>,
    states: Seq<P>,
    frontier: Seq<Node<S>>,
    depth: int,
    n: int,
)
    requires
        extends(states, snapshot),
        frontier_ok::<S, P>(start, snapshot, frontier, depth),
        covered::<S, P>(start, snapshot, snapshot.len() as int, depth),
        0 <= n < frontier.len(),
        closed::<S, P>(states, snapshot.len() - frontier.len() + n),
        sorted::<S, P>(start, frontier),
        all_least::<S, P>(start, snapshot, frontier),
    ensures
        ahead::<S, P>(start, states, frontier[n].history@),
{
    let base = snapshot.len() - frontier.len();
    let history = frontier[n].history@;
    assert(snapshot.take(snapshot.len() as int) =~= snapshot);
    assert forall|walk: Seq<S>|
        feasible::<S, P>(start, walk) && walk.len() == history.len() implies expanded::<S, P>(
        states,
        #[trigger] destination::<S, P>(start, walk),
    ) || walk == history || precedes::<S, P>(start, history, walk) by {
        let end = destination::<S, P>(start, walk);
        assert(on_file::<S, P>(snapshot, end));
        let i = choose|i: int| 0 <= i < snapshot.len() && (#[trigger] snapshot[i])@ == end;
        assert(states.take(snapshot.len() as int)[i] == states[i]);
        if i < base + n {
            assert(expanded::<S, P>(states, states[i]@));
        } else {
            let t = i - base;
            assert(frontier[t].state == i);
            assert(least::<S, P>(start, snapshot[frontier[t].state as int]@, frontier[t].history@));
            if t > n {
                assert(precedes::<S, P>(start, frontier[n].history@, frontier[t].history@));
                if walk != frontier[t].history@ {
                    lemma_precedes_transitive::<S, P>(start, history, frontier[t].history@, walk);
                }
            }
        }
    }
}

/// What was reached from a state at or before `earlier` was reached from
/// a state before `later`, if `earlier` comes before `later`.
proof fn lemma_parents_advance<S: Copy, P: Problem<S>>(
    start: P::V,
    nodes: Seq<Node<S>>,
    earlier: Seq<S>,
    later: Seq<S>,
)
    requires
        parents_upto::<S, P>(start, nodes, earlier),
        precedes::<S, P>(start, earlier, later),
    ensures
        parents_before::<S, P>(start, nodes, later),
{
    assert forall|t: int| 0 <= t < nodes.len() implies precedes::<S, P>(
        start,
        (#[trigger] nodes[t]).history@.drop_last(),
        later,
    ) by {
        if nodes[t].history@.drop_last() != earlier {
            lemma_precedes_transitive::<S, P>(
                start,
                nodes[t].history@.drop_last(),
                earlier,
                later,
            );
        }
    }
}

/// Whether a state equal to `candidate` is on file.
fn lookup<S: Copy, P: Problem<S>>(
    states: &Vec<P>,
    index: &HashMap<u64, Vec<usize>>,
    candidate: &P,
) -> (found: bool)
    requires
        all_valid::<S, P>(states@),
        filed::<S, P>(states@, index@),
        P::valid(candidate@),
    ensures
        found == on_file::<S, P>(states@, candidate@),
{
    broadcast use vstd::std_specs::hash::group_hash_axioms;

    let digest = candidate.digest();
    let total = states.len();
    match index.get(&digest) {
        None => {
            proof {
                if on_file::<S, P>(states@, candidate@) {
                    let i = choose|i: int|
                        0 <= i < states@.len() && (#[trigger] states@[i])@ == candidate@;
                    assert(index@.contains_key(P::digest_of(states@[i]@)));
                }
            }
            false
        },
        Some(bucket) => {
            let mut j: usize = 0;
            while j < bucket.len()
                invariant
                    all_valid::<S, P>(states@),
                    filed::<S, P>(states@, index@),
                    P::valid(candidate@),
                    index@.contains_key(digest),
                    index@[digest] == *bucket,
                    total == states@.len(),
                    j <= bucket@.len(),
                    forall|k: int| 0 <= k < j ==> states@[(#[trigger] bucket@[k]) as int]@ != candidate@,
                decreases bucket@.len() - j,
            {
                let place = bucket[j];
                assert(index@[digest]@[j as int] == place);
                assert(P::valid(states@[place as int]@));
                if states[place].same(candidate) {
                    return true;
                }
                j += 1;
            }
            proof {
                if on_file::<S, P>(states@, candidate@) {
                    let i = choose|i: int|
                        0 <= i < states@.len() && (#[trigger] states@[i])@ == candidate@;
                    assert(index@[P::digest_of(states@[i]@)]@.contains(i as usize));
                    let k = choose|k: int| 0 <= k < bucket@.len() && bucket@[k] == i as usize;
                    assert(states@[bucket@[k] as int]@ != candidate@);
                }
            }
            false
        },
    }
}

/// Puts a state on file.
fn record<S: Copy, P: Problem<S>>(
    states: &mut Vec<P>,
    index: &mut HashMap<u64, Vec<usize>>,
    state: P,
)
    requires
        all_valid::<S, P>(old(states)@),
        filed::<S, P>(old(states)@, old(index)@),
        P::valid(state@),
    ensures
        final(states)@ == old(states)@.push(state),
        all_valid::<S, P>(final(states)@),
        filed::<S, P>(final(states)@, final(index)@),
{
    broadcast use vstd::std_specs::hash::group_hash_axioms;

    let digest = state.digest();
    let place = states.len();
    states.push(state);
    let mut bucket: Vec<usize> = match index.remove(&digest) {
        Some(bucket) => bucket,
        None => Vec::new(),
    };
    let ghost earlier = bucket@;
    bucket.push(place);
    index.insert(digest, bucket);
    proof {
        let before = old(states)@;
        let now = states@;
        assert forall|i: int| 0 <= i < now.len() implies P::valid((#[trigger] now[i])@) by {
            if i < before.len() {
                assert(now[i] == before[i]);
            }
        }
        assert forall|d: u64, j: int|
            index@.contains_key(d) && 0 <= j < index@[d]@.len() implies (#[trigger] index@[d]@[j])
            < now.len() && P::digest_of(now[index@[d]@[j] as int]@) == d by {
            if d == digest {
                if j < earlier.len() {
                    assert(old(index)@[d]@[j] == earlier[j]);
                    assert(now[earlier[j] as int] == before[earlier[j] as int]);
                }
            } else {
                assert(old(index)@[d]@[j] == index@[d]@[j]);
                assert(now[index@[d]@[j] as int] == before[index@[d]@[j] as int]);
            }
        }
        assert forall|i: int| 0 <= i < now.len() implies index@.contains_key(
            P::digest_of((#[trigger] now[i])@),
        ) && index@[P::digest_of(now[i]@)]@.contains(i as usize) by {
            if i < before.len() {
                assert(now[i] == before[i]);
                let d = P::digest_of(before[i]@);
                assert(old(index)@[d]@.contains(i as usize));
                if d == digest {
                    let k = choose|k: int| 0 <= k < earlier.len() && earlier[k] == i as usize;
                    assert(index@[d]@[k] == i as usize);
                }
            } else {
                assert(index@[digest]@[earlier.len() as int] == i as usize);
            }
        }
    }
}

/// A copy of the steps.
fn copy_steps<S: Copy>(steps: &Vec<S>) -> (copy: Vec<S>)
    ensures
        copy@ == steps@,
{
    let mut copy: Vec<S> = Vec::new();
    let mut i: usize = 0;
    while i < steps.len()
        invariant
            i <= steps@.len(),
            copy@ == steps@.take(i as int),
        decreases steps@.len() - i,
    {
        copy.push(steps[i]);
        assert(copy@ =~= steps@.take(i + 1));
        i += 1;
    }
    assert(steps@.take(steps@.len() as int) =~= steps@);
    copy
}

/// Examines the state at `place`, which `history` led to: puts on file each
/// state that it leads to and that is new, with a node in `next`.
fn expand<S: Copy, P: Problem<S>>(
    states: &mut Vec<P>,
    index: &mut HashMap<u64, Vec<usize>>,
    next: &mut Vec<Node<S>>,
    place: usize,
    history: &Vec<S>,
    Ghost(start): Ghost<P::V>,
)
    requires
        P::valid(start),
        all_valid::<S, P>(old(states)@),
        filed::<S, P>(old(states)@, old(index)@),
        place < old(states)@.len(),
        offered::<S, P>(start, history@),
        destination::<S, P>(start, history@) == old(states)@[place as int]@,
        frontier_ok::<S, P>(start, old(states)@, old(next)@, history@.len() as int + 1),
        ahead::<S, P>(start, old(states)@, history@),
        history@.len() > 0 ==> on_file::<S, P>(
            old(states)@,
            destination::<S, P>(start, history@.drop_last()),
        ),
        sorted::<S, P>(start, old(next)@),
        all_least::<S, P>(start, old(states)@, old(next)@),
        parents_before::<S, P>(start, old(next)@, history@),
    ensures
        all_valid::<S, P>(final(states)@),
        filed::<S, P>(final(states)@, final(index)@),
        extends(final(states)@, old(states)@),
        final(states)@.len() - final(next)@.len() == old(states)@.len() - old(next)@.len(),
        frontier_ok::<S, P>(start, final(states)@, final(next)@, history@.len() as int + 1),
        forall|s: S|
            P::offers(old(states)@[place as int]@, history@).contains(s) ==> on_file::<S, P>(
                final(states)@,
                #[trigger] P::after(old(states)@[place as int]@, s),
            ),
        sorted::<S, P>(start, final(next)@),
        all_least::<S, P>(start, final(states)@, final(next)@),
        parents_upto::<S, P>(start, final(next)@, history@),
{
    let ghost v = states@[place as int]@;
    let ghost depth: int = history@.len() as int + 1;
    let ghost from = next@.len() as int;
    let steps = states[place].available_steps(history.as_slice());
    assert(states@.take(states@.len() as int) =~= states@);
    assert(next@.take(from) =~= next@);
    let mut j: usize = 0;
    while j < steps.len()
        invariant
            P::valid(start),
            all_valid::<S, P>(states@),
            filed::<S, P>(states@, index@),
            extends(states@, old(states)@),
            place < old(states)@.len(),
            v == old(states)@[place as int]@,
            P::valid(v),
            steps@ == P::offers(v, history@),
            offered::<S, P>(start, history@),
            destination::<S, P>(start, history@) == v,
            depth == history@.len() + 1,
            states@.len() - next@.len() == old(states)@.len() - old(next)@.len(),
            frontier_ok::<S, P>(start, states@, next@, depth),
            j <= steps@.len(),
            forall|k: int|
                0 <= k < j ==> on_file::<S, P>(states@, P::after(v, #[trigger] steps@[k])),
            ahead::<S, P>(start, states@, history@),
            history@.len() > 0 ==> on_file::<S, P>(
                states@,
                destination::<S, P>(start, history@.drop_last()),
            ),
            sorted::<S, P>(start, next@),
            all_least::<S, P>(start, states@, next@),
            0 <= from <= next@.len(),
            parents_before::<S, P>(start, next@.take(from), history@),
            children(next@, from, history@, steps@, j as int),
        decreases steps@.len() - j,
    {
        let step = steps[j];
        proof {
            assert(steps@.contains(step));
            P::lemma_offers_allowed(v, history@, step);
            P::lemma_after_valid(v, step);
            assert(states@.take(old(states)@.len() as int)[place as int] == states@[place as int]);
        }
        let candidate = states[place].next(step);
        let ghost before = states@;
        let ghost before_next = next@;
        if !lookup(&*states, &*index, &candidate) {
            let spot = states.len();
            proof {
                lemma_child_least::<S, P>(start, before, history@, steps@, j as int);
            }
            record(states, index, candidate);
            let mut trail = copy_steps(history);
            trail.push(step);
            let node = Node { state: spot, history: trail };
            proof {
                assert forall|t: int| 0 <= t < before_next.len() implies (
                #[trigger] before_next[t]).history@.len() > 0 by {
                    assert(node_ok::<S, P>(start, before, before_next[t], depth));
                }
                lemma_child_sorted::<S, P>(
                    start,
                    before_next,
                    from,
                    node,
                    history@,
                    steps@,
                    j as int,
                );
            }
            next.push(node);
            proof {
                assert(states@.take(before.len() as int) =~= before);
                assert(states@.take(old(states)@.len() as int) =~= before.take(
                    old(states)@.len() as int,
                ));
                assert(trail@.drop_last() =~= history@);
                assert(trail@.last() == step);
                assert forall|t: int| 0 <= t < next@.len() implies (#[trigger] next@[t]).state
                    == states@.len() - next@.len() + t && node_ok::<S, P>(
                    start,
                    states@,
                    next@[t],
                    depth,
                ) by {
                    if t < before_next.len() {
                        assert(next@[t] == before_next[t]);
                        assert(node_ok::<S, P>(start, before, before_next[t], depth));
                        assert(states@[before_next[t].state as int] == before[before_next[t].state as int]);
                    } else {
                        assert(next@[t].history@ == trail@);
                        assert(states@[spot as int]@ == P::after(v, step));
                    }
                }
                assert(on_file::<S, P>(states@, P::after(v, step))) by {
                    assert(states@[spot as int]@ == P::after(v, step));
                }
                assert forall|t: int| 0 <= t < next@.len() implies least::<S, P>(
                    start,
                    states@[(#[trigger] next@[t]).state as int]@,
                    next@[t].history@,
                ) by {
                    if t < before_next.len() {
                        assert(next@[t] == before_next[t]);
                        assert(node_ok::<S, P>(start, before, before_next[t], depth));
                        assert(states@[before_next[t].state as int] == before[before_next[t].state as int]);
                    } else {
                        assert(next@[t].history@ == trail@);
                        assert(trail@ =~= history@.push(step));
                        assert(states@[spot as int]@ == P::after(v, step));
                    }
                }
                assert(next@.take(from) =~= before_next.take(from));
                lemma_ahead_extends::<S, P>(start, states@, before, history@);
                if history@.len() > 0 {
                    lemma_on_file_extends::<S, P>(
                        states@,
                        before,
                        destination::<S, P>(start, history@.drop_last()),
                    );
                }
            }
        } else {
            proof {
                assert forall|t: int| from <= t < next@.len() implies (
                #[trigger] next@[t]).history@.drop_last() == history@ && exists|k: int|
                    0 <= k < j + 1 && #[trigger] steps@[k] == next@[t].history@.last() by {
                    let k = choose|k: int|
                        0 <= k < j && #[trigger] steps@[k] == next@[t].history@.last();
                    assert(0 <= k < j + 1 && steps@[k] == next@[t].history@.last());
                }
            }
        }
        proof {
            assert(states@.take(before.len() as int) =~= before);
            assert forall|k: int| 0 <= k < j + 1 implies on_file::<S, P>(
                states@,
                P::after(v, #[trigger] steps@[k]),
            ) by {
                if k < j {
                    lemma_on_file_extends::<S, P>(states@, before, P::after(v, steps@[k]));
                }
            }
        }
        j += 1;
    }
    proof {
        assert forall|s: S| P::offers(v, history@).contains(s) implies on_file::<S, P>(
            states@,
            #[trigger] P::after(v, s),
        ) by {
            let k = choose|k: int| 0 <= k < steps@.len() && steps@[k] == s;
            assert(on_file::<S, P>(states@, P::after(v, steps@[k])));
        }
        assert forall|t: int| 0 <= t < next@.len() implies (#[trigger] next@[t]).history@.drop_last()
            == history@ || precedes::<S, P>(start, next@[t].history@.drop_last(), history@) by {
            if t < from {
                assert(next@.take(from)[t] == next@[t]);
            }
        }
    }
}

/// Searches level by level from `initial`: first the states that one step
/// leads to, then those that two steps lead to, and so on, each state
/// examined once, in the order in which it was reached.
///
/// The search ends because each level but the last puts a new state on
/// file, and a vector cannot hold more than `usize::MAX` states.
pub fn solve_aux<S: Copy, P: Problem<S>>(initial: P) -> (r: Result<Vec<S>, SolverError>)
    requires
        P::valid(initial@),
    ensures
        match r {
            Ok(steps) => is_shortest_solution::<S, P>(initial@, steps@) && is_first_solution::<S, P>(
                initial@,
                steps@,
            ),
            Err(e) => e == SolverError::NoSolutionFound && !solvable::<S, P>(initial@),
        },
        P::goal(initial@) ==> (r matches Ok(steps) && steps@.len() == 0),
{
    let ghost start = initial@;
    let mut states: Vec<P> = Vec::new();
    let mut index: HashMap<u64, Vec<usize>> = HashMap::new();
    assert(filed::<S, P>(states@, index@));
    record(&mut states, &mut index, initial);
    let mut frontier: Vec<Node<S>> = Vec::new();
    frontier.push(Node { state: 0, history: Vec::new() });
    let ghost mut depth: int = 0;
    proof {
        assert(states@[0]@ == start);
        assert(states@.take(1)[0] == states@[0]);
        assert(on_file::<S, P>(states@.take(1), start));
        assert forall|walk: Seq<S>|
            feasible::<S, P>(start, walk) && walk.len() == 0 && #[trigger] destination::<S, P>(
                start,
                walk,
            ) == start implies walk == frontier@[0].history@ by {
            assert(walk =~= frontier@[0].history@);
        }
    }
    loop
        invariant
            start == initial@,
            P::valid(start),
            all_valid::<S, P>(states@),
            filed::<S, P>(states@, index@),
            depth >= 0,
            frontier@.len() > 0,
            frontier_ok::<S, P>(start, states@, frontier@, depth),
            closed::<S, P>(states@, states@.len() - frontier@.len()),
            covered::<S, P>(start, states@, states@.len() as int, depth),
            depth > 0 ==> covered::<S, P>(start, states@, states@.len() - frontier@.len(), depth - 1),
            sorted::<S, P>(start, frontier@),
            all_least::<S, P>(start, states@, frontier@),
        decreases usize::MAX - states@.len(),
    {
        let ghost snapshot = states@;
        let level_end = states.len();
        let ghost base = level_end - frontier@.len();
        let mut next: Vec<Node<S>> = Vec::new();
        let mut n: usize = 0;
        assert(states@.take(states@.len() as int) =~= states@);
        while n < frontier.len()
            invariant
                start == initial@,
                P::valid(start),
                all_valid::<S, P>(states@),
                filed::<S, P>(states@, index@),
                depth >= 0,
                extends(states@, snapshot),
                snapshot.len() == level_end,
                base == level_end - frontier@.len(),
                frontier_ok::<S, P>(start, snapshot, frontier@, depth),
                covered::<S, P>(start, snapshot, level_end as int, depth),
                depth > 0 ==> covered::<S, P>(start, snapshot, base, depth - 1),
                sorted::<S, P>(start, frontier@),
                all_least::<S, P>(start, snapshot, frontier@),
                n <= frontier@.len(),
                states@.len() == level_end + next@.len(),
                frontier_ok::<S, P>(start, states@, next@, depth + 1),
                closed::<S, P>(states@, base + n),
                sorted::<S, P>(start, next@),
                all_least::<S, P>(start, states@, next@),
                n == 0 ==> next@.len() == 0,
                n > 0 ==> parents_upto::<S, P>(start, next@, frontier@[n - 1].history@),
            decreases frontier@.len() - n,
        {
            let node = &frontier[n];
            let place = node.state;
            let ghost v = snapshot[place as int]@;
            let ghost history = node.history@;
            proof {
                assert(node_ok::<S, P>(start, snapshot, frontier@[n as int], depth));
                assert(states@.take(snapshot.len() as int)[place as int] == states@[place as int]);
                assert(P::valid(states@[place as int]@));
                lemma_ahead::<S, P>(start, snapshot, states@, frontier@, depth, n as int);
            }
            if states[place].is_solved() {
                let steps = copy_steps(&node.history);
                proof {
                    assert forall|walk: Seq<S>|
                        feasible::<S, P>(start, walk) && P::goal(
                            #[trigger] destination::<S, P>(start, walk),
                        ) implies steps@.len() <= walk.len() by {
                        if walk.len() < depth {
                            let end = destination::<S, P>(start, walk);
                            assert(on_file::<S, P>(snapshot.take(base), end));
                            let i = choose|i: int|
                                0 <= i < snapshot.take(base).len() && (#[trigger] snapshot.take(
                                    base,
                                )[i])@ == end;
                            assert(snapshot.take(base)[i] == snapshot[i]);
                            assert(states@.take(snapshot.len() as int)[i] == states@[i]);
                            assert(expanded::<S, P>(states@, states@[i]@));
                        }
                    }
                    assert forall|walk: Seq<S>|
                        feasible::<S, P>(start, walk) && walk.len() == steps@.len() && P::goal(
                            #[trigger] destination::<S, P>(start, walk),
                        ) implies walk == steps@ || precedes::<S, P>(start, steps@, walk) by {
                        if expanded::<S, P>(states@, destination::<S, P>(start, walk)) {
                            assert(false);
                        }
                    }
                    if P::goal(start) {
                        lemma_goal_needs_no_step::<S, P>(start, steps@);
                    }
                }
                return Ok(steps);
            }
            let ghost before = states@;
            proof {
                if n > 0 {
                    lemma_parents_advance::<S, P>(
                        start,
                        next@,
                        frontier@[n - 1].history@,
                        history,
                    );
                }
                if history.len() > 0 {
                    let shorter = history.drop_last();
                    lemma_offered_feasible::<S, P>(start, shorter);
                    assert(on_file::<S, P>(
                        snapshot.take(level_end as int),
                        destination::<S, P>(start, shorter),
                    ));
                    assert(snapshot.take(level_end as int) =~= snapshot);
                    lemma_on_file_extends::<S, P>(
                        states@,
                        snapshot,
                        destination::<S, P>(start, shorter),
                    );
                }
            }
            expand(&mut states, &mut index, &mut next, place, &node.history, Ghost(start));
            proof {
                assert(states@.take(snapshot.len() as int) =~= snapshot) by {
                    assert(states@.take(snapshot.len() as int) =~= states@.take(
                        before.len() as int,
                    ).take(snapshot.len() as int));
                }
                lemma_closed_extends::<S, P>(states@, before, base + n);
                assert(states@[place as int] == snapshot[place as int]) by {
                    assert(states@.take(snapshot.len() as int)[place as int] == states@[place as int]);
                }
                assert forall|s: S| P::offers(v, Seq::empty()).contains(s) implies on_file::<S, P>(
                    states@,
                    #[trigger] P::after(v, s),
                ) by {
                    if !P::offers(v, history).contains(s) {
                        if history.len() == 0 {
                            assert(history =~= Seq::<S>::empty());
                        }
                        let shorter = history.drop_last();
                        let origin = destination::<S, P>(start, shorter);
                        lemma_offered_feasible::<S, P>(start, shorter);
                        lemma_destination_valid::<S, P>(start, shorter);
                        assert(shorter.push(history.last()) =~= history);
                        P::lemma_ruled_out_leads_back(origin, shorter, history.last(), s);
                        lemma_on_file_extends::<S, P>(states@, before, origin);
                    }
                }
                assert(expanded::<S, P>(states@, v));
                assert(closed::<S, P>(states@, base + n + 1)) by {
                    assert forall|i: int| 0 <= i < base + n + 1 implies expanded::<S, P>(
                        states@,
                        (#[trigger] states@[i])@,
                    ) by {
                        if i == base + n {
                            assert(place == base + n);
                        }
                    }
                }
            }
            n += 1;
        }
        if next.len() == 0 {
            proof {
                assert(states@ =~= snapshot);
                assert(on_file::<S, P>(states@, start)) by {
                    let nothing = Seq::<S>::empty();
                    assert(feasible::<S, P>(start, nothing));
                    assert(destination::<S, P>(start, nothing) == start);
                    assert(on_file::<S, P>(snapshot.take(level_end as int), start));
                    assert(snapshot.take(level_end as int) =~= snapshot);
                }
                assert forall|walk: Seq<S>| feasible::<S, P>(start, walk) implies !P::goal(
                    #[trigger] destination::<S, P>(start, walk),
                ) by {
                    lemma_exhausted::<S, P>(start, states@, walk);
                }
                if P::goal(start) {
                    lemma_goal_needs_no_step::<S, P>(start, Seq::empty());
                }
            }
            return Err(SolverError::NoSolutionFound);
        }
        proof {
            lemma_covered_extends::<S, P>(start, states@, snapshot, level_end as int, depth);
            lemma_covered_next::<S, P>(start, states@, level_end as int, depth);
            depth = depth + 1;
        }
        frontier = next;
        let total = states.len();
    }
}

} // verus!
