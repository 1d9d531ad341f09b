//! Routes: the sequences of actions that lead from one state to another,
//! and what they cost.

use crate::goap::{lemma_index_of_unique, PlannerView, WorldState};
use vstd::prelude::*;

verus! {

/// One entry of a route: the name of the action taken and the state it
/// leads to.
pub type Leg = (Seq<char>, WorldState);

/// The name that the first entry of every route carries.
pub open spec fn root_name() -> Seq<char> {
    "root"@
}

/// Action `a` of `m` can be taken in `from`, is called `name` and leads to
/// `to`.
pub open spec fn step_by(m: PlannerView, a: int, from: WorldState, name: Seq<char>, to: WorldState) -> bool {
    &&& 0 <= a < m.actions.len()
    &&& m.actions[a].name == name
    &&& from.satisfies(m.actions[a].pre)
    &&& to == from.apply(m.actions[a].post)
}

/// Some action of `m` can be taken in `from`, is called `name` and leads to
/// `to`.
pub open spec fn can_step(m: PlannerView, from: WorldState, name: Seq<char>, to: WorldState) -> bool {
    exists|a: int| step_by(m, a, from, name, to)
}

/// `legs` is a route from `start`: it begins with the root entry, which
/// holds `start`, and every further entry is reached from the one before
/// by an action of `m` whose precondition that state meets.
pub open spec fn is_route(m: PlannerView, start: WorldState, legs: Seq<Leg>) -> bool {
    &&& legs.len() >= 1
    &&& legs[0] == (root_name(), start)
    &&& forall|k: int|
        1 <= k < legs.len() ==> can_step(m, legs[k - 1].1, (#[trigger] legs[k]).0, legs[k].1)
}

/// The cost of the action of `m` that is called `name`.
pub open spec fn cost_by_name(m: PlannerView, name: Seq<char>) -> int {
    m.actions[m.action_names().index_of(name)].cost
}

/// The sum of the costs of the actions along `legs`.
pub open spec fn route_cost(m: PlannerView, legs: Seq<Leg>) -> int
    decreases legs.len(),
{
    if legs.len() <= 1 {
        0
    } else {
        route_cost(m, legs.drop_last()) + cost_by_name(m, legs.last().0)
    }
}

/// Some route from `start` ends in `state`.
pub open spec fn reachable(m: PlannerView, start: WorldState, state: WorldState) -> bool {
    exists|legs: Seq<Leg>| is_route(m, start, legs) && #[trigger] legs.last().1 == state
}

/// No route from `start` ends in a state that meets `goal`.
pub open spec fn goal_unreachable(m: PlannerView, start: WorldState, goal: WorldState) -> bool {
    forall|legs: Seq<Leg>| is_route(m, start, legs) ==> !(#[trigger] legs.last()).1.satisfies(goal)
}

/// At least `n` different states can be reached from `start`.
pub open spec fn reaches_many(m: PlannerView, start: WorldState, n: nat) -> bool {
    exists|states: Seq<WorldState>|
        #![trigger states.len()]
        {
            &&& states.len() == n
            &&& states.no_duplicates()
            &&& forall|i: int| 0 <= i < states.len() ==> reachable(m, start, #[trigger] states[i])
        }
}

/// Every action of `m` costs at least 0.
pub open spec fn costs_nonneg(m: PlannerView) -> bool {
    forall|a: int| 0 <= a < m.actions.len() ==> (#[trigger] m.actions[a]).cost >= 0
}

/// No two entries of `legs` hold the same state.
pub open spec fn no_state_twice(legs: Seq<Leg>) -> bool {
    forall|i: int, j: int| 0 <= i < j < legs.len() ==> (#[trigger] legs[i]).1 != (#[trigger] legs[j]).1
}

/// Some route from `start` that passes no state twice before its last step
/// has a cost that a signed 32-bit integer cannot hold.
pub open spec fn cost_leaves_range(m: PlannerView, start: WorldState) -> bool {
    exists|legs: Seq<Leg>|
        is_route(m, start, legs) && no_state_twice(legs.drop_last()) && !(i32::MIN
            <= #[trigger] route_cost(m, legs) <= i32::MAX)
}

/// A route that is extended by one step of an action is a route, and costs
/// that action's cost more.
pub proof fn lemma_route_extend(
    m: PlannerView,
    start: WorldState,
    legs: Seq<Leg>,
    a: int,
    name: Seq<char>,
    to: WorldState,
)
    requires
        m.wf(),
        is_route(m, start, legs),
        step_by(m, a, legs.last().1, name, to),
    ensures
        is_route(m, start, legs.push((name, to))),
        route_cost(m, legs.push((name, to))) == route_cost(m, legs) + m.actions[a].cost,
{
    let longer = legs.push((name, to));
    assert forall|k: int| 1 <= k < longer.len() implies can_step(
        m,
        longer[k - 1].1,
        (#[trigger] longer[k]).0,
        longer[k].1,
    ) by {
        if k < legs.len() {
            assert(longer[k] == legs[k] && longer[k - 1] == legs[k - 1]);
        } else {
            assert(step_by(m, a, longer[k - 1].1, longer[k].0, longer[k].1));
        }
    }
    assert(longer.drop_last() =~= legs);
    assert(m.action_names()[a] == name);
    lemma_index_of_unique(m.action_names(), a);
}

/// A route without its last entry is a route, and the last entry is a step
/// from where it ends.
pub proof fn lemma_route_shorten(m: PlannerView, start: WorldState, legs: Seq<Leg>)
    requires
        is_route(m, start, legs),
        legs.len() >= 2,
    ensures
        is_route(m, start, legs.drop_last()),
        can_step(m, legs.drop_last().last().1, legs.last().0, legs.last().1),
{
    let shorter = legs.drop_last();
    assert forall|k: int| 1 <= k < shorter.len() implies can_step(
        m,
        shorter[k - 1].1,
        (#[trigger] shorter[k]).0,
        shorter[k].1,
    ) by {
        assert(shorter[k] == legs[k] && shorter[k - 1] == legs[k - 1]);
    }
    let k = legs.len() - 1;
    assert(can_step(m, legs[k - 1].1, legs[k].0, legs[k].1));
}

} // verus!
