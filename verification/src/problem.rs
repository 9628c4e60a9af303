//! The contract between a search target and the algorithms, and the
//! mathematical vocabulary in which the algorithms' results are stated.
use crate::explored::StableKey;
use vstd::prelude::*;
use vstd::std_specs::cmp::PartialEqSpec;

verus! {

/// A search target: a directed graph whose vertices are the views of
/// `State` values and whose edges carry a non-negative cost. States are
/// copied freely, compared by `==` and looked up by their key.
///
/// The spec functions are the mathematical graph. The executable methods
/// compute it, and their contracts tie them to it.
pub trait Problem: Sized {
    type State: View + Clone + PartialEq + StableKey;

    /// What the problem's own data must satisfy for its methods to be usable.
    spec fn inv(&self) -> bool;

    /// A set of states that holds the start and is closed under `edges`.
    spec fn space(&self) -> Set<<Self::State as View>::V>;

    /// The state in which every search begins.
    spec fn start(&self) -> <Self::State as View>::V;

    /// Whether a state ends the search.
    spec fn goal(&self, s: <Self::State as View>::V) -> bool;

    /// The outgoing edges of a state, in the order in which `successors`
    /// lists them: target and step cost.
    spec fn edges(&self, s: <Self::State as View>::V) -> Seq<(<Self::State as View>::V, usize)>;

    /// The estimated cost that remains from a state to a goal.
    spec fn estimate(&self, s: <Self::State as View>::V) -> usize;

    /// A state with which a search begins.
    fn initial_state(&self) -> (s: Self::State)
        requires
            self.inv(),
        ensures
            s@ == self.start(),
    ;

    /// Whether `state` ends the search.
    fn is_goal(&self, state: &Self::State) -> (r: bool)
        requires
            self.inv(),
            self.space().contains(state@),
        ensures
            r == self.goal(state@),
    ;

    /// The states that one step leads to from `state`, each with the cost
    /// of the step. The place of a successor in this list is the action
    /// that selects it.
    fn successors(&self, state: &Self::State) -> (r: Vec<(Self::State, usize)>)
        requires
            self.inv(),
            self.space().contains(state@),
        ensures
            lists_edges(r@, self.edges(state@)),
    ;

    /// The estimated cost that remains from `state` to a goal. A* and
    /// IDA* find a cheapest solution where the estimate is admissible and
    /// consistent.
    fn heuristic(&self, state: &Self::State) -> (h: usize)
        requires
            self.inv(),
            self.space().contains(state@),
        ensures
            h == self.estimate(state@),
    ;

    /// A line that names the problem.
    fn description(&self) -> String
        requires
            self.inv(),
    ;
}

/// `found` is the executable rendering of the edge list `edges`.
pub open spec fn lists_edges<S: View>(found: Seq<(S, usize)>, edges: Seq<(S::V, usize)>) -> bool {
    &&& found.len() == edges.len()
    &&& forall|i: int|
        0 <= i < found.len() ==> (#[trigger] found[i]).0@ == edges[i].0 && found[i].1 == edges[i].1
}

/// `==` on `S` holds exactly of values with the same view.
pub open spec fn eq_by_view<S: View + PartialEq>() -> bool {
    &&& S::obeys_eq_spec()
    &&& forall|a: S, b: S| #[trigger] a.eq_spec(&b) <==> a@ == b@
}

/// A clone of an `S` has the view of the value cloned.
pub open spec fn clone_keeps_view<S: View + Clone>() -> bool {
    forall|a: S, b: S| #[trigger] cloned::<S>(a, b) ==> a@ == b@
}

/// Equality and cloning of `S` agree with its view.
pub open spec fn state_laws<S: View + Clone + PartialEq>() -> bool {
    eq_by_view::<S>() && clone_keeps_view::<S>()
}

/// A copy of `state` with the same view.
pub fn duplicate<S: View + Clone>(state: &S) -> (r: S)
    requires
        clone_keeps_view::<S>(),
    ensures
        r@ == state@,
{
    let r = state.clone();
    assert(cloned::<S>(*state, r));
    r
}

/// The state space is finite, holds the start, and no edge leaves it.
pub open spec fn closed_space<P: Problem>(p: &P) -> bool {
    &&& p.space().finite()
    &&& p.space().contains(p.start())
    &&& forall|s: <P::State as View>::V, i: int|
        p.space().contains(s) && 0 <= i < p.edges(s).len() ==> p.space().contains(
            #[trigger] p.edges(s)[i].0,
        )
}

/// Everything a search asks of the problem it is given.
pub open spec fn well_formed<P: Problem>(p: &P) -> bool {
    &&& p.inv()
    &&& state_laws::<P::State>()
    &&& closed_space(p)
}

/// Whether `actions` can be taken one after another from `from`: each is the
/// index of an edge of the state that the actions before it lead to.
pub open spec fn walk_ok<P: Problem>(p: &P, from: <P::State as View>::V, actions: Seq<usize>) -> bool
    decreases actions.len(),
{
    if actions.len() == 0 {
        true
    } else {
        &&& walk_ok(p, from, actions.drop_last())
        &&& actions.last() < p.edges(walk_end(p, from, actions.drop_last())).len()
    }
}

/// The state in which `actions`, taken from `from`, end.
pub open spec fn walk_end<P: Problem>(
    p: &P,
    from: <P::State as View>::V,
    actions: Seq<usize>,
) -> <P::State as View>::V
    decreases actions.len(),
{
    if actions.len() == 0 {
        from
    } else {
        p.edges(walk_end(p, from, actions.drop_last()))[actions.last() as int].0
    }
}

/// The sum of the step costs of `actions`, taken from `from`.
pub open spec fn walk_cost<P: Problem>(p: &P, from: <P::State as View>::V, actions: Seq<usize>) -> nat
    decreases actions.len(),
{
    if actions.len() == 0 {
        0
    } else {
        walk_cost(p, from, actions.drop_last()) + p.edges(
            walk_end(p, from, actions.drop_last()),
        )[actions.last() as int].1 as nat
    }
}

/// `actions` lead from the start to a goal.
pub open spec fn is_solution<P: Problem>(p: &P, actions: Seq<usize>) -> bool {
    walk_ok(p, p.start(), actions) && p.goal(walk_end(p, p.start(), actions))
}

/// Some sequence of actions leads from the start to a goal.
pub open spec fn solvable<P: Problem>(p: &P) -> bool {
    exists|actions: Seq<usize>| is_solution(p, actions)
}

/// The cost of a solution.
pub open spec fn solution_cost<P: Problem>(p: &P, actions: Seq<usize>) -> nat {
    walk_cost(p, p.start(), actions)
}


/// The state that the first `j` of `actions` lead to from the start.
pub open spec fn state_at<P: Problem>(p: &P, actions: Seq<usize>, j: int) -> <P::State as View>::V {
    walk_end(p, p.start(), actions.take(j))
}

/// `actions` can be taken from the start and visit no state twice.
pub open spec fn simple_walk<P: Problem>(p: &P, actions: Seq<usize>) -> bool {
    &&& walk_ok(p, p.start(), actions)
    &&& forall|i: int, j: int|
        0 <= i < j <= actions.len() ==> state_at(p, actions, i) != state_at(p, actions, j)
}

/// Every walk from the start that visits no state twice can be recorded in
/// machine words: its length and its cost fit in `usize`.
///
/// A search never generates a node whose depth or cost would not fit. On a
/// problem of which this holds it never has to, and so misses nothing.
pub open spec fn walks_fit<P: Problem>(p: &P) -> bool {
    forall|actions: Seq<usize>| #[trigger]
        simple_walk(p, actions) ==> actions.len() <= usize::MAX && walk_cost(
            p,
            p.start(),
            actions,
        ) <= usize::MAX
}

/// Every walk from the start that visits no state twice can be recorded in
/// machine words together with its score: its length, and its cost plus
/// the estimate at its end, fit in `usize`.
pub open spec fn scores_fit<P: Problem>(p: &P) -> bool {
    forall|actions: Seq<usize>| #[trigger]
        simple_walk(p, actions) ==> actions.len() <= usize::MAX && walk_cost(
            p,
            p.start(),
            actions,
        ) + p.estimate(walk_end(p, p.start(), actions)) <= usize::MAX
}

/// The depth bound cuts nothing off: there is none, or no walk from the
/// start that visits no state twice has more actions than it allows.
pub open spec fn depth_suffices<P: Problem>(p: &P, max_depth: Option<usize>) -> bool {
    match max_depth {
        None => true,
        Some(d) => forall|actions: Seq<usize>| #[trigger]
            simple_walk(p, actions) ==> actions.len() <= d,
    }
}

/// Where the scores fit, the walks fit.
pub proof fn lemma_scores_fit_walks<P: Problem>(p: &P)
    requires
        scores_fit(p),
    ensures
        walks_fit(p),
{
}

/// Every edge between states of the space costs 1.
pub open spec fn unit_costs<P: Problem>(p: &P) -> bool {
    forall|s: <P::State as View>::V, a: int|
        p.space().contains(s) && 0 <= a < p.edges(s).len() ==> (#[trigger] p.edges(s)[a]).1 == 1
}

/// A walk over edges of cost 1 costs as much as it has actions.
pub proof fn lemma_unit_cost_is_length<P: Problem>(p: &P, actions: Seq<usize>)
    requires
        closed_space(p),
        unit_costs(p),
        walk_ok(p, p.start(), actions),
    ensures
        walk_cost(p, p.start(), actions) == actions.len(),
    decreases actions.len(),
{
    if actions.len() > 0 {
        lemma_unit_cost_is_length(p, actions.drop_last());
        lemma_walk_stays(p, p.start(), actions.drop_last());
        let before = walk_end(p, p.start(), actions.drop_last());
        assert(p.edges(before)[actions.last() as int].1 == 1);
    }
}

/// A set that holds the start and is closed under the edges holds the end of
/// every walk from the start.
pub proof fn lemma_closed_set_holds_walks<P: Problem>(
    p: &P,
    closed: Set<<P::State as View>::V>,
    actions: Seq<usize>,
)
    requires
        closed.contains(p.start()),
        forall|s: <P::State as View>::V, a: int|
            closed.contains(s) && 0 <= a < p.edges(s).len() ==> closed.contains(
                (#[trigger] p.edges(s)[a]).0,
            ),
        walk_ok(p, p.start(), actions),
    ensures
        closed.contains(walk_end(p, p.start(), actions)),
    decreases actions.len(),
{
    if actions.len() > 0 {
        lemma_closed_set_holds_walks(p, closed, actions.drop_last());
        let before = walk_end(p, p.start(), actions.drop_last());
        assert(closed.contains(p.edges(before)[actions.last() as int].0));
    }
}

/// Every walk of at most `most` actions that visits no state twice fits in
/// machine words: its number of actions does, and so does its cost.
pub open spec fn fit_up_to<P: Problem>(p: &P, most: int) -> bool {
    forall|actions: Seq<usize>| #[trigger]
        simple_walk(p, actions) && actions.len() <= most ==> actions.len() <= usize::MAX
            && walk_cost(p, p.start(), actions) <= usize::MAX
}

/// Some solution is in sight: the walks with up to one action more than it
/// has fit in machine words.
pub open spec fn within_sight<P: Problem>(p: &P) -> bool {
    exists|w: Seq<usize>| #[trigger] is_solution(p, w) && fit_up_to(p, w.len() as int + 1)
}

/// Every walk that visits no state twice and that, before its last action,
/// came to a cost plus estimate of `cap` at most fits in machine words:
/// its number of actions does, and so does its own cost plus estimate.
pub open spec fn fit_beyond<P: Problem>(p: &P, cap: int) -> bool {
    forall|actions: Seq<usize>| #[trigger]
        simple_walk(p, actions) && actions.len() > 0 && walk_cost(
            p,
            p.start(),
            actions.drop_last(),
        ) + p.estimate(walk_end(p, p.start(), actions.drop_last())) <= cap ==> actions.len()
            <= usize::MAX && walk_cost(p, p.start(), actions) + p.estimate(
            walk_end(p, p.start(), actions),
        ) <= usize::MAX
}

/// The cost of some solution is in sight: the walks that go one action
/// beyond a cost plus estimate of what it costs fit in machine words.
pub open spec fn cost_in_sight<P: Problem>(p: &P) -> bool {
    exists|w: Seq<usize>| #[trigger] is_solution(p, w) && fit_beyond(p, solution_cost(p, w) as int)
}

/// A search by scores loses no node that matters: the scores of the
/// problem fit in machine words, or its estimate is admissible and
/// consistent and the cost of some solution is in sight.
pub open spec fn keeps_scores<P: Problem>(p: &P) -> bool {
    scores_fit(p) || (admissible(p) && consistent(p) && cost_in_sight(p))
}

/// Where the walks beyond a cost plus estimate fit, so do those beyond any
/// lesser one.
pub proof fn lemma_fit_beyond_less<P: Problem>(p: &P, cap: int, less: int)
    requires
        fit_beyond(p, cap),
        less <= cap,
    ensures
        fit_beyond(p, less),
{
}

/// The states that walks from the start lead to.
pub open spec fn reachable<P: Problem>(p: &P) -> Set<<P::State as View>::V> {
    Set::new(
        |v: <P::State as View>::V|
            exists|w: Seq<usize>| #[trigger] walk_ok(p, p.start(), w) && walk_end(p, p.start(), w) == v,
    )
}

/// A finite set that holds the start and that no edge leaves holds every
/// state that can be reached, so there are no more of these than it has
/// members.
pub proof fn lemma_closed_set_holds_reachable<P: Problem>(
    p: &P,
    closed: Set<<P::State as View>::V>,
)
    requires
        closed.finite(),
        closed.contains(p.start()),
        closed_under_edges(p, closed),
    ensures
        reachable(p).subset_of(closed),
        reachable(p).finite(),
        reachable(p).len() <= closed.len(),
{
    assert forall|v: <P::State as View>::V| reachable(p).contains(v) implies closed.contains(v) by {
        let w = choose|w: Seq<usize>| #[trigger]
            walk_ok(p, p.start(), w) && walk_end(p, p.start(), w) == v;
        lemma_closed_set_holds_walks(p, closed, w);
    }
    vstd::set_lib::lemma_len_subset(reachable(p), closed);
}

/// No edge out of a state of `region` leaves it.
pub open spec fn closed_under_edges<P: Problem>(p: &P, region: Set<<P::State as View>::V>) -> bool {
    forall|s: <P::State as View>::V, a: int|
        region.contains(s) && 0 <= a < p.edges(s).len() ==> region.contains(
            (#[trigger] p.edges(s)[a]).0,
        )
}

/// A walk that visits no state twice has fewer actions than there are
/// states in any finite set that holds the start and that no edge leaves.
pub proof fn lemma_simple_walk_within<P: Problem>(
    p: &P,
    region: Set<<P::State as View>::V>,
    actions: Seq<usize>,
)
    requires
        region.finite(),
        region.contains(p.start()),
        closed_under_edges(p, region),
        simple_walk(p, actions),
    ensures
        actions.len() < region.len(),
        region.contains(walk_end(p, p.start(), actions)),
{
    let visited = Seq::new((actions.len() + 1) as nat, |j: int| state_at(p, actions, j));
    assert forall|j: int| 0 <= j < visited.len() implies region.contains(visited[j]) by {
        lemma_walk_take(p, p.start(), actions, j);
        lemma_closed_set_holds_walks(p, region, actions.take(j));
    }
    assert(visited.no_duplicates()) by {
        assert forall|i: int, j: int|
            0 <= i < visited.len() && 0 <= j < visited.len() && i != j implies visited[i]
            != visited[j] by {
            if i < j {
                assert(state_at(p, actions, i) != state_at(p, actions, j));
            } else {
                assert(state_at(p, actions, j) != state_at(p, actions, i));
            }
        }
    }
    visited.unique_seq_to_set();
    assert(visited.to_set().subset_of(region)) by {
        assert forall|v: <P::State as View>::V| visited.to_set().contains(v) implies region.contains(
            v,
        ) by {
            let j = choose|j: int| 0 <= j < visited.len() && visited[j] == v;
            assert(region.contains(visited[j]));
        }
    }
    vstd::set_lib::lemma_len_subset(visited.to_set(), region);
    assert(actions.take(actions.len() as int) =~= actions);
    assert(visited[actions.len() as int] == walk_end(p, p.start(), actions));
}

/// A walk that visits no state twice has fewer actions than `count`, where
/// the states of a set that holds the start and that no edge leaves can be
/// numbered from 0 up to, but not including, `count`, no two of them alike.
pub proof fn lemma_simple_walk_numbered<P: Problem>(
    p: &P,
    region: Set<<P::State as View>::V>,
    number: spec_fn(<P::State as View>::V) -> int,
    count: int,
    actions: Seq<usize>,
)
    requires
        region.contains(p.start()),
        closed_under_edges(p, region),
        forall|s: <P::State as View>::V| region.contains(s) ==> 0 <= #[trigger] number(s) < count,
        forall|a: <P::State as View>::V, b: <P::State as View>::V|
            region.contains(a) && region.contains(b) && #[trigger] number(a) == #[trigger] number(b)
                ==> a == b,
        simple_walk(p, actions),
    ensures
        actions.len() < count,
        region.contains(walk_end(p, p.start(), actions)),
{
    let numbers = Seq::new((actions.len() + 1) as nat, |j: int| number(state_at(p, actions, j)));
    assert forall|j: int| 0 <= j <= actions.len() implies region.contains(
        #[trigger] state_at(p, actions, j),
    ) by {
        lemma_walk_take(p, p.start(), actions, j);
        lemma_closed_set_holds_walks(p, region, actions.take(j));
    }
    assert(numbers.no_duplicates()) by {
        assert forall|i: int, j: int|
            0 <= i < numbers.len() && 0 <= j < numbers.len() && i != j implies numbers[i]
            != numbers[j] by {
            assert(region.contains(state_at(p, actions, i)));
            assert(region.contains(state_at(p, actions, j)));
            if i < j {
                assert(state_at(p, actions, i) != state_at(p, actions, j));
            } else {
                assert(state_at(p, actions, j) != state_at(p, actions, i));
            }
        }
    }
    numbers.unique_seq_to_set();
    assert(0 <= number(p.start()) < count);
    vstd::set_lib::lemma_int_range(0, count);
    assert(numbers.to_set().subset_of(vstd::set_lib::set_int_range(0, count))) by {
        assert forall|n: int| numbers.to_set().contains(n) implies vstd::set_lib::set_int_range(
            0,
            count,
        ).contains(n) by {
            let j = choose|j: int| 0 <= j < numbers.len() && numbers[j] == n;
            assert(region.contains(state_at(p, actions, j)));
        }
    }
    vstd::set_lib::lemma_len_subset(numbers.to_set(), vstd::set_lib::set_int_range(0, count));
    assert(actions.take(actions.len() as int) =~= actions);
    assert(region.contains(state_at(p, actions, actions.len() as int)));
}

/// A walk that visits no state twice has fewer actions than the space has
/// states.
pub proof fn lemma_simple_walk_is_short<P: Problem>(p: &P, actions: Seq<usize>)
    requires
        closed_space(p),
        simple_walk(p, actions),
    ensures
        actions.len() < p.space().len(),
{
    lemma_simple_walk_within(p, p.space(), actions);
}

/// On a problem whose edges all cost 1 and whose states can be counted in
/// a machine word, the walks fit.
pub proof fn lemma_unit_costs_fit<P: Problem>(p: &P)
    requires
        closed_space(p),
        unit_costs(p),
        p.space().len() <= usize::MAX + 1,
    ensures
        walks_fit(p),
{
    assert forall|actions: Seq<usize>| #[trigger] simple_walk(p, actions) implies actions.len()
        <= usize::MAX && walk_cost(p, p.start(), actions) <= usize::MAX by {
        lemma_simple_walk_is_short(p, actions);
        lemma_unit_cost_is_length(p, actions);
    }
}

/// Taking one more action extends a walk by the edge taken.
pub proof fn lemma_walk_push<P: Problem>(
    p: &P,
    from: <P::State as View>::V,
    actions: Seq<usize>,
    a: usize,
)
    requires
        walk_ok(p, from, actions),
        a < p.edges(walk_end(p, from, actions)).len(),
    ensures
        walk_ok(p, from, actions.push(a)),
        walk_end(p, from, actions.push(a)) == p.edges(walk_end(p, from, actions))[a as int].0,
        walk_cost(p, from, actions.push(a)) == walk_cost(p, from, actions) + p.edges(
            walk_end(p, from, actions),
        )[a as int].1,
{
    assert(actions.push(a).drop_last() =~= actions);
}

/// Every beginning of a walk is a walk.
pub proof fn lemma_walk_take<P: Problem>(
    p: &P,
    from: <P::State as View>::V,
    actions: Seq<usize>,
    j: int,
)
    requires
        walk_ok(p, from, actions),
        0 <= j <= actions.len(),
    ensures
        walk_ok(p, from, actions.take(j)),
        walk_cost(p, from, actions.take(j)) <= walk_cost(p, from, actions),
    decreases actions.len(),
{
    if j == actions.len() {
        assert(actions.take(j) =~= actions);
    } else {
        lemma_walk_take(p, from, actions.drop_last(), j);
        assert(actions.drop_last().take(j) =~= actions.take(j));
    }
}

/// A walk that begins in the state space ends in it.
pub proof fn lemma_walk_stays<P: Problem>(p: &P, from: <P::State as View>::V, actions: Seq<usize>)
    requires
        closed_space(p),
        p.space().contains(from),
        walk_ok(p, from, actions),
    ensures
        p.space().contains(walk_end(p, from, actions)),
    decreases actions.len(),
{
    if actions.len() > 0 {
        lemma_walk_stays(p, from, actions.drop_last());
    }
}

/// All states that `actions` pass through before their end lie in `inside`.
pub open spec fn runs_inside<P: Problem>(
    p: &P,
    inside: Set<<P::State as View>::V>,
    actions: Seq<usize>,
) -> bool {
    &&& walk_ok(p, p.start(), actions)
    &&& forall|j: int| 0 <= j < actions.len() ==> inside.contains(#[trigger] state_at(p, actions, j))
}

/// A walk that ends outside a set has a first state outside it.
pub proof fn lemma_first_outside<P: Problem>(
    p: &P,
    inside: Set<<P::State as View>::V>,
    actions: Seq<usize>,
) -> (i: int)
    requires
        walk_ok(p, p.start(), actions),
        !inside.contains(walk_end(p, p.start(), actions)),
    ensures
        0 <= i <= actions.len(),
        runs_inside(p, inside, actions.take(i)),
        !inside.contains(state_at(p, actions, i)),
    decreases actions.len(),
{
    if runs_inside(p, inside, actions) {
        assert(actions.take(actions.len() as int) =~= actions);
        actions.len() as int
    } else {
        let j = choose|j: int|
            0 <= j < actions.len() && !inside.contains(#[trigger] state_at(p, actions, j));
        lemma_walk_take(p, p.start(), actions, j);
        let i = lemma_first_outside(p, inside, actions.take(j));
        assert(actions.take(j).take(i) =~= actions.take(i));
        i
    }
}


/// `actions` is a solution, and no solution costs less.
pub open spec fn cheapest<P: Problem>(p: &P, actions: Seq<usize>) -> bool {
    &&& is_solution(p, actions)
    &&& forall|other: Seq<usize>| #[trigger]
        is_solution(p, other) ==> solution_cost(p, actions) <= solution_cost(p, other)
}

/// `actions` is a solution, and no solution has fewer actions.
pub open spec fn shortest<P: Problem>(p: &P, actions: Seq<usize>) -> bool {
    &&& is_solution(p, actions)
    &&& forall|other: Seq<usize>| #[trigger]
        is_solution(p, other) ==> actions.len() <= other.len()
}

/// The estimate never exceeds the cost of any walk from a state to a goal.
pub open spec fn admissible<P: Problem>(p: &P) -> bool {
    forall|s: <P::State as View>::V, actions: Seq<usize>|
        p.space().contains(s) && #[trigger] walk_ok(p, s, actions) && p.goal(
            walk_end(p, s, actions),
        ) ==> p.estimate(s) <= walk_cost(p, s, actions)
}

/// The estimate falls along an edge by no more than the edge costs.
pub open spec fn consistent<P: Problem>(p: &P) -> bool {
    forall|s: <P::State as View>::V, a: int|
        p.space().contains(s) && 0 <= a < p.edges(s).len() ==> p.estimate(s) <= (
        #[trigger] p.edges(s)[a]).1 + p.estimate(p.edges(s)[a].0)
}

/// A consistent estimate that is 0 at every goal is admissible.
pub proof fn lemma_consistent_is_admissible<P: Problem>(p: &P)
    requires
        closed_space(p),
        consistent(p),
        forall|s: <P::State as View>::V|
            p.space().contains(s) && p.goal(s) ==> #[trigger] p.estimate(s) == 0,
    ensures
        admissible(p),
{
    assert forall|s: <P::State as View>::V, actions: Seq<usize>|
        p.space().contains(s) && #[trigger] walk_ok(p, s, actions) && p.goal(
            walk_end(p, s, actions),
        ) implies p.estimate(s) <= walk_cost(p, s, actions) by {
        lemma_consistent_walk(p, s, actions);
        lemma_walk_stays(p, s, actions);
    }
}

/// A walk is its first `i` actions followed by the rest, taken from the
/// state that the first `i` lead to.
pub proof fn lemma_walk_split<P: Problem>(
    p: &P,
    from: <P::State as View>::V,
    actions: Seq<usize>,
    i: int,
)
    requires
        walk_ok(p, from, actions),
        0 <= i <= actions.len(),
    ensures
        walk_ok(p, from, actions.take(i)),
        walk_ok(p, walk_end(p, from, actions.take(i)), actions.skip(i)),
        walk_end(p, walk_end(p, from, actions.take(i)), actions.skip(i)) == walk_end(
            p,
            from,
            actions,
        ),
        walk_cost(p, from, actions) == walk_cost(p, from, actions.take(i)) + walk_cost(
            p,
            walk_end(p, from, actions.take(i)),
            actions.skip(i),
        ),
    decreases actions.len(),
{
    if i == actions.len() {
        assert(actions.take(i) =~= actions);
        assert(actions.skip(i) =~= Seq::<usize>::empty());
    } else {
        let shorter = actions.drop_last();
        lemma_walk_split(p, from, shorter, i);
        assert(shorter.take(i) =~= actions.take(i));
        assert(actions.skip(i).drop_last() =~= shorter.skip(i));
        assert(actions.skip(i).last() == actions.last());
    }
}

/// Under a consistent estimate, the estimate at the beginning of a walk is
/// at most the cost of the walk plus the estimate at its end.
pub proof fn lemma_consistent_walk<P: Problem>(
    p: &P,
    from: <P::State as View>::V,
    actions: Seq<usize>,
)
    requires
        closed_space(p),
        consistent(p),
        p.space().contains(from),
        walk_ok(p, from, actions),
    ensures
        p.estimate(from) <= walk_cost(p, from, actions) + p.estimate(walk_end(p, from, actions)),
    decreases actions.len(),
{
    if actions.len() > 0 {
        let shorter = actions.drop_last();
        lemma_consistent_walk(p, from, shorter);
        lemma_walk_stays(p, from, shorter);
        let mid = walk_end(p, from, shorter);
        let edge = p.edges(mid)[actions.last() as int];
        assert(p.estimate(mid) <= edge.1 + p.estimate(edge.0));
    }
}


/// One walk followed by another is a walk, and costs what the two cost.
pub proof fn lemma_walk_concat<P: Problem>(
    p: &P,
    from: <P::State as View>::V,
    first: Seq<usize>,
    second: Seq<usize>,
)
    requires
        walk_ok(p, from, first),
        walk_ok(p, walk_end(p, from, first), second),
    ensures
        walk_ok(p, from, first + second),
        walk_end(p, from, first + second) == walk_end(p, walk_end(p, from, first), second),
        walk_cost(p, from, first + second) == walk_cost(p, from, first) + walk_cost(
            p,
            walk_end(p, from, first),
            second,
        ),
    decreases second.len(),
{
    if second.len() == 0 {
        assert(first + second =~= first);
    } else {
        lemma_walk_concat(p, from, first, second.drop_last());
        assert((first + second).drop_last() =~= first + second.drop_last());
        assert((first + second).last() == second.last());
    }
}

/// The walk passes through state `v` at a cost of at least `c`.
pub open spec fn passes<P: Problem>(
    p: &P,
    actions: Seq<usize>,
    v: <P::State as View>::V,
    c: int,
) -> bool {
    exists|j: int|
        0 <= j <= actions.len() && #[trigger] state_at(p, actions, j) == v && c <= walk_cost(
            p,
            p.start(),
            actions.take(j),
        )
}

/// Every state that `short` passes through is passed through by `long` too,
/// at no less cost.
pub open spec fn shadows<P: Problem>(p: &P, short: Seq<usize>, long: Seq<usize>) -> bool {
    forall|k: int|
        0 <= k <= short.len() ==> passes(
            p,
            long,
            #[trigger] state_at(p, short, k),
            walk_cost(p, p.start(), short.take(k)) as int,
        )
}

/// A walk from which the part between two visits of one state is cut out
/// passes only through states of the whole walk, at no more cost.
proof fn lemma_cut_shadows<P: Problem>(p: &P, actions: Seq<usize>, i: int, j: int)
    requires
        walk_ok(p, p.start(), actions),
        0 <= i < j <= actions.len(),
        state_at(p, actions, i) == state_at(p, actions, j),
    ensures
        walk_ok(p, p.start(), actions.take(i) + actions.skip(j)),
        walk_end(p, p.start(), actions.take(i) + actions.skip(j)) == walk_end(
            p,
            p.start(),
            actions,
        ),
        walk_cost(p, p.start(), actions.take(i) + actions.skip(j)) <= walk_cost(
            p,
            p.start(),
            actions,
        ),
        shadows(p, actions.take(i) + actions.skip(j), actions),
{
    let head = actions.take(i);
    let tail = actions.skip(j);
    let shorter = head + tail;
    let mid = state_at(p, actions, i);
    lemma_walk_split(p, p.start(), actions, i);
    lemma_walk_split(p, p.start(), actions, j);
    lemma_walk_take(p, p.start(), actions, j);
    lemma_walk_take(p, p.start(), actions.take(j), i);
    assert(actions.take(j).take(i) =~= head);
    lemma_walk_concat(p, p.start(), head, tail);
    assert forall|k: int| 0 <= k <= shorter.len() implies passes(
        p,
        actions,
        #[trigger] state_at(p, shorter, k),
        walk_cost(p, p.start(), shorter.take(k)) as int,
    ) by {
        if k <= i {
            assert(shorter.take(k) =~= actions.take(k));
            assert(state_at(p, actions, k) == state_at(p, shorter, k));
        } else {
            let n = k - i;
            let part = tail.take(n);
            lemma_walk_take(p, mid, tail, n);
            assert(shorter.take(k) =~= head + part);
            assert(actions.take(j + n) =~= actions.take(j) + part);
            lemma_walk_concat(p, p.start(), head, part);
            lemma_walk_concat(p, p.start(), actions.take(j), part);
            assert(state_at(p, actions, j + n) == state_at(p, shorter, k));
        }
    }
}

/// A walk with a state visited twice can be cut short: there is a walk to
/// the same end that visits no state twice, with no more actions, at no
/// more cost, and through states of the first walk only.
pub proof fn lemma_simplify<P: Problem>(p: &P, actions: Seq<usize>) -> (r: Seq<usize>)
    requires
        walk_ok(p, p.start(), actions),
    ensures
        simple_walk(p, r),
        walk_end(p, p.start(), r) == walk_end(p, p.start(), actions),
        walk_cost(p, p.start(), r) <= walk_cost(p, p.start(), actions),
        r.len() <= actions.len(),
        shadows(p, r, actions),
    decreases actions.len(),
{
    if simple_walk(p, actions) {
        assert forall|k: int| 0 <= k <= actions.len() implies passes(
            p,
            actions,
            #[trigger] state_at(p, actions, k),
            walk_cost(p, p.start(), actions.take(k)) as int,
        ) by {
            assert(state_at(p, actions, k) == state_at(p, actions, k));
        }
        actions
    } else {
        let (i, j) = choose|i: int, j: int|
            0 <= i < j <= actions.len() && state_at(p, actions, i) == state_at(p, actions, j);
        lemma_cut_shadows(p, actions, i, j);
        let shorter = actions.take(i) + actions.skip(j);
        let r = lemma_simplify(p, shorter);
        assert forall|k: int| 0 <= k <= r.len() implies passes(
            p,
            actions,
            #[trigger] state_at(p, r, k),
            walk_cost(p, p.start(), r.take(k)) as int,
        ) by {
            let v = state_at(p, r, k);
            assert(passes(p, shorter, v, walk_cost(p, p.start(), r.take(k)) as int));
            let m1 = choose|m1: int|
                0 <= m1 <= shorter.len() && #[trigger] state_at(p, shorter, m1) == v && walk_cost(
                    p,
                    p.start(),
                    r.take(k),
                ) <= walk_cost(p, p.start(), shorter.take(m1));
            assert(passes(
                p,
                actions,
                state_at(p, shorter, m1),
                walk_cost(p, p.start(), shorter.take(m1)) as int,
            ));
            let m2 = choose|m2: int|
                0 <= m2 <= actions.len() && #[trigger] state_at(p, actions, m2) == v && walk_cost(
                    p,
                    p.start(),
                    shorter.take(m1),
                ) <= walk_cost(p, p.start(), actions.take(m2));
            assert(state_at(p, actions, m2) == v);
        }
        r
    }
}

} // verus!
