//! The distance from a state to a goal, counted in atoms, and how it
//! relates to the cost of routes.

use crate::bitset::{lemma_popcount_cover, lemma_popcount_zero, popcount};
use crate::goap::{lemma_index_of_unique, PlannerView, WorldState};
use crate::route::{is_route, lemma_route_shorten, route_cost, step_by, Leg};
use vstd::prelude::*;

verus! {

/// The number of atoms that `to` cares about and on which the value flags
/// of `from` and `to` differ.
pub open spec fn hamming(from: WorldState, to: WorldState) -> nat {
    popcount((from.values@ ^ to.values@) & !to.dontcare@)
}

/// The number of atoms that `effect` sets to the value that `goal` asks
/// for.
pub open spec fn pinned_toward(effect: WorldState, goal: WorldState) -> nat {
    popcount(!effect.dontcare@ & !goal.dontcare@ & !(effect.values@ ^ goal.values@))
}

/// No action of `m` brings a state in which it can be taken nearer to
/// `goal`, counted in atoms, than the action costs.
pub open spec fn heuristic_steady(m: PlannerView, goal: WorldState) -> bool {
    forall|a: int, from: WorldState|
        0 <= a < m.actions.len() && from.satisfies(m.actions[a].pre) ==> hamming(from, goal)
            <= hamming(#[trigger] from.apply(m.actions[a].post), goal) + m.actions[a].cost
}

/// No route from `start` to a state that meets `goal` costs less than
/// `total`.
pub open spec fn cheapest(m: PlannerView, start: WorldState, goal: WorldState, total: int) -> bool {
    forall|legs: Seq<Leg>|
        is_route(m, start, legs) && (#[trigger] legs.last()).1.satisfies(goal) ==> total
            <= route_cost(m, legs)
}

/// Some route from `start` to `state` costs, together with the distance
/// from `state` to `goal`, less than `total`.
pub open spec fn below(m: PlannerView, start: WorldState, goal: WorldState, state: WorldState, total: int) -> bool {
    exists|legs: Seq<Leg>|
        is_route(m, start, legs) && (#[trigger] legs.last()).1 == state && route_cost(m, legs)
            + hamming(state, goal) < total
}

/// At least `n` different states are below `total`.
pub open spec fn crowded(m: PlannerView, start: WorldState, goal: WorldState, total: int, n: nat) -> bool {
    exists|states: Seq<WorldState>|
        #![trigger states.len()]
        {
            &&& states.len() == n
            &&& states.no_duplicates()
            &&& forall|i: int|
                0 <= i < states.len() ==> below(m, start, goal, #[trigger] states[i], total)
        }
}

/// Where at least `n` states are below a cost, so are at least `few`, for
/// any `few` that is at most `n`.
pub proof fn lemma_crowded_shrinks(
    m: PlannerView,
    start: WorldState,
    goal: WorldState,
    total: int,
    few: nat,
    n: nat,
)
    requires
        few <= n,
        crowded(m, start, goal, total, n),
    ensures
        crowded(m, start, goal, total, few),
{
    let states = choose|states: Seq<WorldState>|
        #![trigger states.len()]
        {
            &&& states.len() == n
            &&& states.no_duplicates()
            &&& forall|i: int|
                0 <= i < states.len() ==> below(m, start, goal, #[trigger] states[i], total)
        };
    let fewer = states.take(few as int);
    assert forall|i: int| 0 <= i < fewer.len() implies below(m, start, goal, #[trigger] fewer[i], total) by {
        assert(fewer[i] == states[i]);
    }
    assert(fewer.len() == few);
}

/// An effect brings a state nearer to the goal by no more atoms than it
/// sets to the value that the goal asks for.
pub proof fn lemma_step_lowers_hamming(from: WorldState, effect: WorldState, goal: WorldState)
    ensures
        hamming(from, goal) <= hamming(from.apply(effect), goal) + pinned_toward(effect, goal),
{
    let s = from.values@;
    let g = goal.values@;
    let c = goal.dontcare@;
    let v = effect.values@;
    let d = effect.dontcare@;
    let x = (s ^ g) & !c;
    let y = (((s & d) | (v & !d)) ^ g) & !c;
    let z = !d & !c & !(v ^ g);
    assert(x & !(y | z) == 0) by (bit_vector)
        requires
            x == (s ^ g) & !c,
            y == (((s & d) | (v & !d)) ^ g) & !c,
            z == !d & !c & !(v ^ g),
    ;
    lemma_popcount_cover(x, y, z);
}

/// A state that meets the goal differs from it on no atom that the goal
/// cares about.
pub proof fn lemma_hamming_of_met_goal(state: WorldState, goal: WorldState)
    requires
        state.satisfies(goal),
    ensures
        hamming(state, goal) == 0,
{
    let s = state.values@;
    let g = goal.values@;
    let c = goal.dontcare@;
    assert((s ^ g) & !c == 0) by (bit_vector)
        requires
            s & !c == g & !c,
    ;
    lemma_popcount_zero();
}

/// Where every action costs at least as much as the number of atoms that
/// it sets to the value that the goal asks for, no action brings a state
/// nearer to the goal than it costs.
pub proof fn lemma_steady_where_pins_are_paid(m: PlannerView, goal: WorldState)
    requires
        forall|a: int|
            0 <= a < m.actions.len() ==> pinned_toward((#[trigger] m.actions[a]).post, goal)
                <= m.actions[a].cost,
    ensures
        heuristic_steady(m, goal),
{
    assert forall|a: int, from: WorldState|
        0 <= a < m.actions.len() && from.satisfies(m.actions[a].pre) implies hamming(from, goal)
        <= hamming(#[trigger] from.apply(m.actions[a].post), goal) + m.actions[a].cost by {
        lemma_step_lowers_hamming(from, m.actions[a].post, goal);
    }
}

/// Along a route, the distance to the goal of the state at entry `k` is at
/// most the distance of the last state and the cost of the route after
/// entry `k`.
pub proof fn lemma_hamming_along_route(
    m: PlannerView,
    start: WorldState,
    goal: WorldState,
    legs: Seq<Leg>,
    k: int,
)
    requires
        m.wf(),
        heuristic_steady(m, goal),
        is_route(m, start, legs),
        0 <= k < legs.len(),
    ensures
        hamming(legs[k].1, goal) + route_cost(m, legs.take(k + 1)) <= hamming(legs.last().1, goal)
            + route_cost(m, legs),
    decreases legs.len(),
{
    if k == legs.len() - 1 {
        assert(legs.take(k + 1) =~= legs);
    } else {
        let shorter = legs.drop_last();
        lemma_route_shorten(m, start, legs);
        lemma_hamming_along_route(m, start, goal, shorter, k);
        assert(shorter.take(k + 1) =~= legs.take(k + 1));
        assert(shorter[k] == legs[k]);
        let a = choose|a: int| step_by(m, a, shorter.last().1, legs.last().0, legs.last().1);
        assert(m.action_names()[a] == legs.last().0);
        lemma_index_of_unique(m.action_names(), a);
        assert(hamming(shorter.last().1, goal) <= hamming(
            shorter.last().1.apply(m.actions[a].post),
            goal,
        ) + m.actions[a].cost);
    }
}

/// The heuristic is admissible: where every action costs at least 1, and
/// at least as much as the number of atoms that it sets to the value that
/// the goal asks for, the distance from a state to the goal is at most the
/// cost of any route from that state to a state that meets the goal.
pub proof fn lemma_heuristic_below_cost(m: PlannerView, from: WorldState, goal: WorldState, legs: Seq<Leg>)
    requires
        m.wf(),
        forall|a: int| 0 <= a < m.actions.len() ==> (#[trigger] m.actions[a]).cost >= 1,
        forall|a: int|
            0 <= a < m.actions.len() ==> pinned_toward((#[trigger] m.actions[a]).post, goal)
                <= m.actions[a].cost,
        is_route(m, from, legs),
        legs.last().1.satisfies(goal),
    ensures
        hamming(from, goal) <= route_cost(m, legs),
{
    lemma_steady_where_pins_are_paid(m, goal);
    lemma_hamming_along_route(m, from, goal, legs, 0);
    lemma_hamming_of_met_goal(legs.last().1, goal);
    assert(legs.take(1).len() == 1);
}

} // verus!
