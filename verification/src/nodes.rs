//! The nodes of a search, and what holds of the open set, the closed set
//! and the record of expanded nodes while a search runs.

use crate::goap::{lemma_index_of_unique, PlannerView, WorldState};
use crate::heuristic::{
    below, cheapest, crowded, hamming, heuristic_steady, lemma_hamming_along_route,
    lemma_hamming_of_met_goal,
};
use crate::route::{
    cost_leaves_range, costs_nonneg, goal_unreachable, is_route, lemma_route_extend,
    lemma_route_shorten, no_state_twice, reachable, reaches_many, root_name, route_cost, step_by,
    Leg,
};
use vstd::prelude::*;

verus! {

/// A state that the search has found, with the action that led to it and
/// the place, in the record of expanded nodes, of the node it was found
/// from.
#[derive(Clone, Copy)]
pub struct AStarNode {
    pub ws: WorldState,
    pub parent: Option<usize>,
    pub g: i32,
    pub h: i32,
    pub f: i64,
    pub action_name: &'static str,
}

/// The route entry that node `n` stands for.
pub open spec fn leg_of(n: AStarNode) -> Leg {
    (n.action_name@, n.ws)
}

/// The route that the record holds for its node `i`.
pub open spec fn chain(trail: Seq<AStarNode>, i: int) -> Seq<Leg>
    decreases i,
{
    if i < 0 || i >= trail.len() {
        Seq::empty()
    } else {
        match trail[i].parent {
            Some(p) => if (p as int) < i {
                chain(trail, p as int).push(leg_of(trail[i]))
            } else {
                seq![leg_of(trail[i])]
            },
            None => seq![leg_of(trail[i])],
        }
    }
}

/// The route by which node `n` was found.
pub open spec fn chain_of(trail: Seq<AStarNode>, n: AStarNode) -> Seq<Leg> {
    match n.parent {
        Some(p) => chain(trail, p as int).push(leg_of(n)),
        None => seq![leg_of(n)],
    }
}

/// Node `n` names a node of the record, the route by which it was found is
/// a route from `start`, and `g` is that route's cost.
pub open spec fn node_ok(m: PlannerView, start: WorldState, trail: Seq<AStarNode>, n: AStarNode) -> bool {
    &&& n.parent matches Some(p) ==> p < trail.len()
    &&& is_route(m, start, chain_of(trail, n))
    &&& n.g == route_cost(m, chain_of(trail, n))
}

/// Every node of `s` is sound.
pub open spec fn all_ok(m: PlannerView, start: WorldState, trail: Seq<AStarNode>, s: Seq<AStarNode>) -> bool {
    forall|i: int| 0 <= i < s.len() ==> node_ok(m, start, trail, #[trigger] s[i])
}

/// Every node of the record is sound and names an earlier node.
pub open spec fn trail_ok(m: PlannerView, start: WorldState, trail: Seq<AStarNode>) -> bool {
    forall|i: int|
        0 <= i < trail.len() ==> {
            &&& node_ok(m, start, trail, #[trigger] trail[i])
            &&& trail[i].parent matches Some(p) ==> p < i
        }
}

/// Every node of the record names an earlier node.
pub open spec fn parents_below(trail: Seq<AStarNode>) -> bool {
    forall|i: int|
        0 <= i < trail.len() ==> ((#[trigger] trail[i]).parent matches Some(p) ==> p < i)
}

/// No two nodes of `s` hold the same state.
pub open spec fn distinct(s: Seq<AStarNode>) -> bool {
    forall|i: int, j: int| 0 <= i < j < s.len() ==> (#[trigger] s[i]).ws != (#[trigger] s[j]).ws
}

/// No node of `a` holds the state of a node of `b`.
pub open spec fn disjoint(a: Seq<AStarNode>, b: Seq<AStarNode>) -> bool {
    forall|i: int, j: int|
        0 <= i < a.len() && 0 <= j < b.len() ==> (#[trigger] a[i]).ws != (#[trigger] b[j]).ws
}

/// Every node of `s` holds its distance to the goal as `h`, and its cost
/// and that distance together as `f`.
pub open spec fn scored(goal: WorldState, s: Seq<AStarNode>) -> bool {
    forall|i: int|
        0 <= i < s.len() ==> (#[trigger] s[i]).h == hamming(s[i].ws, goal) && s[i].f == s[i].g
            + s[i].h
}

/// How far the costs of the nodes of `s` stand above the least cost that
/// can be held, summed.
pub open spec fn weight(s: Seq<AStarNode>) -> int
    decreases s.len(),
{
    if s.len() == 0 {
        0
    } else {
        weight(s.drop_last()) + (s.last().g - i32::MIN)
    }
}

/// A weight is never negative.
pub proof fn lemma_weight_nonneg(s: Seq<AStarNode>)
    ensures
        weight(s) >= 0,
    decreases s.len(),
{
    if s.len() > 0 {
        lemma_weight_nonneg(s.drop_last());
    }
}

/// A node that is added adds its share to the weight.
pub proof fn lemma_weight_push(s: Seq<AStarNode>, x: AStarNode)
    ensures
        weight(s.push(x)) == weight(s) + (x.g - i32::MIN),
{
    assert(s.push(x).drop_last() =~= s);
}

/// A node that takes the place of another changes the weight by the
/// difference of their costs.
pub proof fn lemma_weight_update(s: Seq<AStarNode>, i: int, x: AStarNode)
    requires
        0 <= i < s.len(),
    ensures
        weight(s.update(i, x)) == weight(s) - s[i].g + x.g,
    decreases s.len(),
{
    let u = s.update(i, x);
    if i == s.len() - 1 {
        assert(u.drop_last() =~= s.drop_last());
    } else {
        lemma_weight_update(s.drop_last(), i, x);
        assert(u.drop_last() =~= s.drop_last().update(i, x));
    }
}

/// Taking node `i` out by moving the last node into its place lowers the
/// weight by that node's share.
pub proof fn lemma_weight_swap_remove(s: Seq<AStarNode>, i: int)
    requires
        0 <= i < s.len(),
    ensures
        weight(s.update(i, s.last()).drop_last()) == weight(s) - (s[i].g - i32::MIN),
{
    let u = s.update(i, s.last());
    lemma_weight_update(s, i, s.last());
    assert(u.last() == s.last());
}

/// The record's route for a node does not change when the record grows.
pub proof fn lemma_chain_stable(trail: Seq<AStarNode>, x: AStarNode, i: int)
    requires
        0 <= i < trail.len(),
    ensures
        chain(trail.push(x), i) == chain(trail, i),
    decreases i,
{
    let grown = trail.push(x);
    assert(grown[i] == trail[i]);
    match trail[i].parent {
        Some(p) => {
            if (p as int) < i {
                lemma_chain_stable(trail, x, p as int);
            }
        },
        None => {},
    }
}

/// A sound node stays sound when the record grows.
pub proof fn lemma_node_ok_stable(
    m: PlannerView,
    start: WorldState,
    trail: Seq<AStarNode>,
    x: AStarNode,
    n: AStarNode,
)
    requires
        node_ok(m, start, trail, n),
    ensures
        node_ok(m, start, trail.push(x), n),
        chain_of(trail.push(x), n) == chain_of(trail, n),
{
    match n.parent {
        Some(p) => {
            lemma_chain_stable(trail, x, p as int);
        },
        None => {},
    }
}

/// `s` holds a node with state `ws` whose cost is at most `bound`.
pub open spec fn holds(s: Seq<AStarNode>, ws: WorldState, bound: int) -> bool {
    exists|j: int| 0 <= j < s.len() && (#[trigger] s[j]).ws == ws && s[j].g <= bound
}

/// One of the two sets holds a node with state `ws` whose cost is at most
/// `bound`.
pub open spec fn covered(o: Seq<AStarNode>, c: Seq<AStarNode>, ws: WorldState, bound: int) -> bool {
    holds(o, ws, bound) || holds(c, ws, bound)
}

/// For every node of `o` and `c`, the sets `o2` and `c2` hold a node with
/// its state whose cost is no higher.
pub open spec fn covers(o: Seq<AStarNode>, c: Seq<AStarNode>, o2: Seq<AStarNode>, c2: Seq<AStarNode>) -> bool {
    &&& forall|j: int| 0 <= j < o.len() ==> covered(o2, c2, (#[trigger] o[j]).ws, o[j].g as int)
    &&& forall|j: int| 0 <= j < c.len() ==> covered(o2, c2, (#[trigger] c[j]).ws, c[j].g as int)
}

/// `x` is a node of `s`.
pub open spec fn member(s: Seq<AStarNode>, x: AStarNode) -> bool {
    exists|j: int| 0 <= j < s.len() && #[trigger] s[j] == x
}

/// Every node of `s2` is a node of `s`.
pub open spec fn drawn_from(s2: Seq<AStarNode>, s: Seq<AStarNode>) -> bool {
    forall|i: int| 0 <= i < s2.len() ==> member(s, #[trigger] s2[i])
}

/// Every node of a set is a node of that set.
pub proof fn lemma_drawn_self(s: Seq<AStarNode>)
    ensures
        drawn_from(s, s),
{
    assert forall|i: int| 0 <= i < s.len() implies member(s, #[trigger] s[i]) by {
        let x = s[i];
        assert(s[i] == x);
    }
}

/// For each of the first `upto` actions that can be taken in the state of
/// `n`, the sets hold the state it leads to, at no more than the cost of
/// `n` and the action.
pub open spec fn closure_at(m: PlannerView, o: Seq<AStarNode>, c: Seq<AStarNode>, n: AStarNode, upto: int) -> bool {
    forall|a: int|
        0 <= a < upto && a < m.actions.len() && n.ws.satisfies((#[trigger] m.actions[a]).pre)
            ==> covered(o, c, n.ws.apply(m.actions[a].post), n.g + m.actions[a].cost)
}

/// Every closed node is expanded in full, but the node with state `ws`,
/// which has cost `g` and is expanded up to action `upto`.
pub open spec fn closed_under(
    m: PlannerView,
    o: Seq<AStarNode>,
    c: Seq<AStarNode>,
    ws: WorldState,
    g: int,
    upto: int,
) -> bool {
    forall|i: int|
        0 <= i < c.len() ==> if (#[trigger] c[i]).ws == ws {
            c[i].g == g && closure_at(m, o, c, c[i], upto)
        } else {
            closure_at(m, o, c, c[i], m.actions.len() as int)
        }
}

/// Every closed node is expanded in full.
pub open spec fn closed_full(m: PlannerView, o: Seq<AStarNode>, c: Seq<AStarNode>) -> bool {
    forall|i: int| 0 <= i < c.len() ==> closure_at(m, o, c, #[trigger] c[i], m.actions.len() as int)
}

/// No node of `c` holds a state that meets the goal.
pub open spec fn none_meets(goal: WorldState, c: Seq<AStarNode>) -> bool {
    forall|i: int| 0 <= i < c.len() ==> !(#[trigger] c[i]).ws.satisfies(goal)
}

/// `s` without its node `i`, the last node moved into its place.
pub open spec fn cut(s: Seq<AStarNode>, i: int) -> Seq<AStarNode> {
    s.update(i, s.last()).drop_last()
}

/// What a set holds it holds still after a node has been added, and it then
/// holds that node's state at that node's cost.
pub proof fn lemma_holds_push(s: Seq<AStarNode>, x: AStarNode, ws: WorldState, bound: int)
    requires
        holds(s, ws, bound) || (x.ws == ws && x.g <= bound),
    ensures
        holds(s.push(x), ws, bound),
{
    let t = s.push(x);
    if holds(s, ws, bound) {
        let j = choose|j: int| 0 <= j < s.len() && (#[trigger] s[j]).ws == ws && s[j].g <= bound;
        assert(t[j] == s[j]);
    } else {
        assert(t[s.len() as int] == x);
    }
}

/// A set that node `i` has left holds the state of every other node still,
/// at that node's cost.
pub proof fn lemma_holds_cut(s: Seq<AStarNode>, i: int, j: int)
    requires
        0 <= i < s.len(),
        0 <= j < s.len(),
        i != j,
    ensures
        holds(cut(s, i), s[j].ws, s[j].g as int),
{
    let t = cut(s, i);
    if j == s.len() - 1 {
        assert(t[i] == s[j]);
    } else {
        assert(t[j] == s[j]);
    }
}

/// A set that a node has left has one node less, and each of its nodes was
/// in it before.
pub proof fn lemma_cut_drawn(s: Seq<AStarNode>, i: int)
    requires
        0 <= i < s.len(),
    ensures
        drawn_from(cut(s, i), s),
        cut(s, i).len() == s.len() - 1,
{
    let t = cut(s, i);
    assert forall|k: int| 0 <= k < t.len() implies member(s, #[trigger] t[k]) by {
        if k == i {
            assert(s[s.len() - 1] == t[k]);
        } else {
            assert(s[k] == t[k]);
        }
    }
}

/// A state that is held at no more than a cost is held so still by sets that
/// hold every state held before at no higher cost.
pub proof fn lemma_covered_mono(
    o: Seq<AStarNode>,
    c: Seq<AStarNode>,
    o2: Seq<AStarNode>,
    c2: Seq<AStarNode>,
    ws: WorldState,
    bound: int,
)
    requires
        covers(o, c, o2, c2),
        covered(o, c, ws, bound),
    ensures
        covered(o2, c2, ws, bound),
{
    if holds(o, ws, bound) {
        let j = choose|j: int| 0 <= j < o.len() && (#[trigger] o[j]).ws == ws && o[j].g <= bound;
        assert(covered(o2, c2, o[j].ws, o[j].g as int));
        lemma_holds_weaken(o2, ws, o[j].g as int, bound);
        lemma_holds_weaken(c2, ws, o[j].g as int, bound);
    } else {
        let j = choose|j: int| 0 <= j < c.len() && (#[trigger] c[j]).ws == ws && c[j].g <= bound;
        assert(covered(o2, c2, c[j].ws, c[j].g as int));
        lemma_holds_weaken(o2, ws, c[j].g as int, bound);
        lemma_holds_weaken(c2, ws, c[j].g as int, bound);
    }
}

/// A state that is held at no more than a cost is held at no more than any
/// higher cost.
pub proof fn lemma_holds_weaken(s: Seq<AStarNode>, ws: WorldState, low: int, high: int)
    requires
        low <= high,
    ensures
        holds(s, ws, low) ==> holds(s, ws, high),
{
    if holds(s, ws, low) {
        let j = choose|j: int| 0 <= j < s.len() && (#[trigger] s[j]).ws == ws && s[j].g <= low;
        assert(s[j].ws == ws && s[j].g <= high);
    }
}

/// A node that is expanded up to an action stays so under sets that hold
/// every state held before at no higher cost.
pub proof fn lemma_closure_mono(
    m: PlannerView,
    o: Seq<AStarNode>,
    c: Seq<AStarNode>,
    o2: Seq<AStarNode>,
    c2: Seq<AStarNode>,
    n: AStarNode,
    upto: int,
)
    requires
        covers(o, c, o2, c2),
        closure_at(m, o, c, n, upto),
    ensures
        closure_at(m, o2, c2, n, upto),
{
    assert forall|a: int|
        0 <= a < upto && a < m.actions.len() && n.ws.satisfies(
            (#[trigger] m.actions[a]).pre,
        ) implies covered(o2, c2, n.ws.apply(m.actions[a].post), n.g + m.actions[a].cost) by {
        lemma_covered_mono(o, c, o2, c2, n.ws.apply(m.actions[a].post), n.g + m.actions[a].cost);
    }
}

/// The record's route for its node `i` is the route by which that node was
/// found.
pub proof fn lemma_chain_is_chain_of(trail: Seq<AStarNode>, i: int)
    requires
        parents_below(trail),
        0 <= i < trail.len(),
    ensures
        chain(trail, i) == chain_of(trail, trail[i]),
        chain(trail, i).len() >= 1,
        chain(trail, i).last() == leg_of(trail[i]),
{
}

/// The states of sound nodes can be reached.
pub proof fn lemma_nodes_reachable(m: PlannerView, start: WorldState, trail: Seq<AStarNode>, n: AStarNode)
    requires
        node_ok(m, start, trail, n),
    ensures
        reachable(m, start, n.ws),
{
    let legs = chain_of(trail, n);
    assert(is_route(m, start, legs) && legs.last().1 == n.ws);
}

/// As many states can be reached as a set of sound nodes with different
/// states holds.
pub proof fn lemma_many_reachable(m: PlannerView, start: WorldState, trail: Seq<AStarNode>, s: Seq<AStarNode>)
    requires
        all_ok(m, start, trail, s),
        distinct(s),
    ensures
        reaches_many(m, start, s.len()),
{
    let states = Seq::new(s.len(), |i: int| s[i].ws);
    assert forall|i: int| 0 <= i < states.len() implies reachable(m, start, #[trigger] states[i]) by {
        lemma_nodes_reachable(m, start, trail, s[i]);
    }
    assert forall|i: int, j: int| 0 <= i < states.len() && 0 <= j < states.len() && i != j implies states[i]
        != states[j] by {
        if i < j {
            assert(s[i].ws != s[j].ws);
        } else {
            assert(s[j].ws != s[i].ws);
        }
    }
    assert(states.len() == s.len());
}

/// The state that entry `k` of `legs` holds is open at no more than the
/// cost of the route up to that entry.
pub open spec fn open_on_route(m: PlannerView, o: Seq<AStarNode>, legs: Seq<Leg>, k: int) -> bool {
    0 <= k < legs.len() && holds(o, legs[k].1, route_cost(m, legs.take(k + 1)))
}

/// Where the start is held and every closed node is expanded in full, the
/// last state of a route from the start is closed at no more than the
/// route's cost, or some state of the route is open at no more than the
/// cost of the route up to it.
pub proof fn lemma_frontier(
    m: PlannerView,
    start: WorldState,
    o: Seq<AStarNode>,
    c: Seq<AStarNode>,
    legs: Seq<Leg>,
)
    requires
        m.wf(),
        covered(o, c, start, 0),
        closed_full(m, o, c),
        is_route(m, start, legs),
    ensures
        holds(c, legs.last().1, route_cost(m, legs)) || exists|k: int| open_on_route(m, o, legs, k),
    decreases legs.len(),
{
    let last = legs.len() - 1;
    assert(legs.take(last + 1) =~= legs);
    if legs.len() == 1 {
        if !holds(c, start, 0) {
            assert(open_on_route(m, o, legs, 0));
        }
    } else {
        let shorter = legs.drop_last();
        lemma_route_shorten(m, start, legs);
        lemma_frontier(m, start, o, c, shorter);
        if holds(c, shorter.last().1, route_cost(m, shorter)) {
            let j = choose|j: int|
                0 <= j < c.len() && (#[trigger] c[j]).ws == shorter.last().1 && c[j].g <= route_cost(
                    m,
                    shorter,
                );
            let a = choose|a: int| step_by(m, a, shorter.last().1, legs.last().0, legs.last().1);
            assert(m.action_names()[a] == legs.last().0);
            lemma_index_of_unique(m.action_names(), a);
            assert(closure_at(m, o, c, c[j], m.actions.len() as int));
            assert(c[j].ws.satisfies(m.actions[a].pre));
            assert(covered(o, c, legs.last().1, c[j].g + m.actions[a].cost));
            lemma_holds_weaken(o, legs.last().1, c[j].g + m.actions[a].cost, route_cost(m, legs));
            lemma_holds_weaken(c, legs.last().1, c[j].g + m.actions[a].cost, route_cost(m, legs));
            if !holds(c, legs.last().1, route_cost(m, legs)) {
                assert(open_on_route(m, o, legs, last));
            }
        } else {
            let k = choose|k: int| open_on_route(m, o, shorter, k);
            assert(shorter.take(k + 1) =~= legs.take(k + 1));
            assert(shorter[k] == legs[k]);
            assert(open_on_route(m, o, legs, k));
        }
    }
}

/// What holds of the open set `o`, the closed set `c` and the record `t`
/// throughout a search.
#[verifier::opaque]
pub open spec fn sound(
    m: PlannerView,
    start: WorldState,
    goal: WorldState,
    o: Seq<AStarNode>,
    c: Seq<AStarNode>,
    t: Seq<AStarNode>,
) -> bool {
    &&& trail_ok(m, start, t)
    &&& all_ok(m, start, t, o)
    &&& all_ok(m, start, t, c)
    &&& distinct(o)
    &&& distinct(c)
    &&& disjoint(o, c)
    &&& scored(goal, o)
    &&& none_meets(goal, c)
    &&& covered(o, c, start, 0)
}

/// Where no action brings a state nearer to the goal than it costs, an
/// open node that meets the goal and has the least `f` of the open nodes
/// costs no more than any route to the goal.
pub proof fn lemma_best(
    m: PlannerView,
    start: WorldState,
    goal: WorldState,
    o: Seq<AStarNode>,
    c: Seq<AStarNode>,
    t: Seq<AStarNode>,
    i: int,
)
    requires
        m.wf(),
        sound(m, start, goal, o, c, t),
        closed_full(m, o, c),
        0 <= i < o.len(),
        forall|j: int| 0 <= j < o.len() ==> o[i].f <= (#[trigger] o[j]).f,
        o[i].ws.satisfies(goal),
    ensures
        heuristic_steady(m, goal) ==> cheapest(m, start, goal, o[i].g as int),
{
    reveal(sound);
    if heuristic_steady(m, goal) {
        lemma_hamming_of_met_goal(o[i].ws, goal);
        assert forall|legs: Seq<Leg>|
            is_route(m, start, legs) && (#[trigger] legs.last()).1.satisfies(goal) implies o[i].g
            <= route_cost(m, legs) by {
            lemma_frontier(m, start, o, c, legs);
            if holds(c, legs.last().1, route_cost(m, legs)) {
                let j = choose|j: int|
                    0 <= j < c.len() && (#[trigger] c[j]).ws == legs.last().1 && c[j].g <= route_cost(
                        m,
                        legs,
                    );
                assert(!c[j].ws.satisfies(goal));
            } else {
                let k = choose|k: int| open_on_route(m, o, legs, k);
                let bound = route_cost(m, legs.take(k + 1));
                let j = choose|j: int| 0 <= j < o.len() && (#[trigger] o[j]).ws == legs[k].1 && o[j].g <= bound;
                lemma_hamming_along_route(m, start, goal, legs, k);
                lemma_hamming_of_met_goal(legs.last().1, goal);
                assert(o[i].f <= o[j].f);
            }
        }
    }
}

/// Where no action brings a state nearer to the goal than it costs, the
/// last state of a route is closed at no more than the route's cost, or no
/// open node has an `f` above the route's cost and the distance from that
/// state to the goal.
pub proof fn lemma_front(
    m: PlannerView,
    start: WorldState,
    goal: WorldState,
    o: Seq<AStarNode>,
    c: Seq<AStarNode>,
    t: Seq<AStarNode>,
    i: int,
    legs: Seq<Leg>,
)
    requires
        m.wf(),
        sound(m, start, goal, o, c, t),
        closed_full(m, o, c),
        0 <= i < o.len(),
        forall|j: int| 0 <= j < o.len() ==> o[i].f <= (#[trigger] o[j]).f,
        heuristic_steady(m, goal),
        is_route(m, start, legs),
    ensures
        holds(c, legs.last().1, route_cost(m, legs)) || o[i].f <= route_cost(m, legs) + hamming(
            legs.last().1,
            goal,
        ),
{
    reveal(sound);
    lemma_frontier(m, start, o, c, legs);
    if !holds(c, legs.last().1, route_cost(m, legs)) {
        let k = choose|k: int| open_on_route(m, o, legs, k);
        let bound = route_cost(m, legs.take(k + 1));
        let j = choose|j: int| 0 <= j < o.len() && (#[trigger] o[j]).ws == legs[k].1 && o[j].g <= bound;
        lemma_hamming_along_route(m, start, goal, legs, k);
        assert(o[i].f <= o[j].f);
    }
}

/// Some node of `c` holds the state `ws`.
pub open spec fn stands_in(c: Seq<AStarNode>, ws: WorldState) -> bool {
    exists|j: int| 0 <= j < c.len() && (#[trigger] c[j]).ws == ws
}

/// A list of different states, each held by a node of `c`, is no longer
/// than `c`.
pub proof fn lemma_pigeon(states: Seq<WorldState>, c: Seq<AStarNode>)
    requires
        states.no_duplicates(),
        forall|k: int| 0 <= k < states.len() ==> stands_in(c, #[trigger] states[k]),
    ensures
        states.len() <= c.len(),
{
    broadcast use vstd::seq_lib::seq_to_set_is_finite;

    let held = Seq::new(c.len(), |j: int| c[j].ws);
    assert(states.to_set().subset_of(held.to_set())) by {
        assert forall|x: WorldState| states.to_set().contains(x) implies held.to_set().contains(x) by {
            let k = choose|k: int| 0 <= k < states.len() && states[k] == x;
            assert(stands_in(c, states[k]));
            let j = choose|j: int| 0 <= j < c.len() && (#[trigger] c[j]).ws == states[k];
            assert(held[j] == x);
        }
    }
    states.unique_seq_to_set();
    held.lemma_cardinality_of_set();
    vstd::set_lib::lemma_len_subset(states.to_set(), held.to_set());
}

/// Where no action brings a state nearer to the goal than it costs and an
/// open node that meets the goal has the least `f`, every state below that
/// node's cost is closed, so that there are no more of them than closed
/// nodes.
pub proof fn lemma_uncrowded(
    m: PlannerView,
    start: WorldState,
    goal: WorldState,
    o: Seq<AStarNode>,
    c: Seq<AStarNode>,
    t: Seq<AStarNode>,
    i: int,
)
    requires
        m.wf(),
        sound(m, start, goal, o, c, t),
        closed_full(m, o, c),
        0 <= i < o.len(),
        forall|j: int| 0 <= j < o.len() ==> o[i].f <= (#[trigger] o[j]).f,
        o[i].ws.satisfies(goal),
    ensures
        heuristic_steady(m, goal) ==> !crowded(m, start, goal, o[i].g as int, (c.len() + 1) as nat),
{
    if heuristic_steady(m, goal) && crowded(m, start, goal, o[i].g as int, (c.len() + 1) as nat) {
        lemma_picked(m, start, goal, o, c, t, i);
        lemma_hamming_of_met_goal(o[i].ws, goal);
        let states = choose|states: Seq<WorldState>|
            #![trigger states.len()]
            {
                &&& states.len() == (c.len() + 1) as nat
                &&& states.no_duplicates()
                &&& forall|k: int|
                    0 <= k < states.len() ==> below(m, start, goal, #[trigger] states[k], o[i].g as int)
            };
        assert forall|k: int| 0 <= k < states.len() implies stands_in(c, #[trigger] states[k]) by {
            let legs = choose|legs: Seq<Leg>|
                is_route(m, start, legs) && (#[trigger] legs.last()).1 == states[k] && route_cost(
                    m,
                    legs,
                ) + hamming(states[k], goal) < o[i].g;
            lemma_front(m, start, goal, o, c, t, i, legs);
            assert(holds(c, legs.last().1, route_cost(m, legs)));
            let j = choose|j: int|
                0 <= j < c.len() && (#[trigger] c[j]).ws == legs.last().1 && c[j].g <= route_cost(
                    m,
                    legs,
                );
            assert(c[j].ws == states[k]);
        }
        lemma_pigeon(states, c);
    }
}

/// No route to the state of `n` costs less than `n`.
pub open spec fn best_known(m: PlannerView, start: WorldState, n: AStarNode) -> bool {
    forall|legs: Seq<Leg>|
        is_route(m, start, legs) && (#[trigger] legs.last()).1 == n.ws ==> n.g <= route_cost(m, legs)
}

/// Where no action brings a state nearer to the goal than it costs, the
/// closed set is the record, and no route to the state of a closed node
/// costs less than that node.
#[verifier::opaque]
pub open spec fn settled(
    m: PlannerView,
    start: WorldState,
    goal: WorldState,
    c: Seq<AStarNode>,
    t: Seq<AStarNode>,
) -> bool {
    heuristic_steady(m, goal) ==> t == c && forall|j: int|
        0 <= j < c.len() ==> best_known(m, start, #[trigger] c[j])
}

/// An empty closed set and an empty record are settled.
pub proof fn lemma_settled_begun(
    m: PlannerView,
    start: WorldState,
    goal: WorldState,
    c: Seq<AStarNode>,
    t: Seq<AStarNode>,
)
    requires
        c.len() == 0,
        t.len() == 0,
    ensures
        settled(m, start, goal, c, t),
{
    reveal(settled);
    assert(t =~= c);
}

/// The closed set and the record stay settled when the open node with the
/// least `f` is closed and recorded.
pub proof fn lemma_settled_grown(
    m: PlannerView,
    start: WorldState,
    goal: WorldState,
    o: Seq<AStarNode>,
    c: Seq<AStarNode>,
    t: Seq<AStarNode>,
    i: int,
)
    requires
        m.wf(),
        sound(m, start, goal, o, c, t),
        settled(m, start, goal, c, t),
        closed_full(m, o, c),
        0 <= i < o.len(),
        forall|j: int| 0 <= j < o.len() ==> o[i].f <= (#[trigger] o[j]).f,
    ensures
        settled(m, start, goal, c.push(o[i]), t.push(o[i])),
{
    reveal(settled);
    if heuristic_steady(m, goal) {
        lemma_picked(m, start, goal, o, c, t, i);
        assert forall|legs: Seq<Leg>|
            is_route(m, start, legs) && (#[trigger] legs.last()).1 == o[i].ws implies o[i].g
            <= route_cost(m, legs) by {
            lemma_front(m, start, goal, o, c, t, i, legs);
            if holds(c, legs.last().1, route_cost(m, legs)) {
                let j = choose|j: int|
                    0 <= j < c.len() && (#[trigger] c[j]).ws == legs.last().1 && c[j].g <= route_cost(
                        m,
                        legs,
                    );
                lemma_one_set(m, start, goal, o, c, t, i, j);
            }
        }
        let c1 = c.push(o[i]);
        assert forall|j: int| 0 <= j < c1.len() implies best_known(m, start, #[trigger] c1[j]) by {
            if j < c.len() {
                assert(c1[j] == c[j]);
            }
        }
    }
}

/// Where no action brings a state nearer to the goal than it costs, a state
/// that is closed is not found again at a lower cost.
pub proof fn lemma_no_reopen(
    m: PlannerView,
    start: WorldState,
    goal: WorldState,
    o: Seq<AStarNode>,
    c: Seq<AStarNode>,
    t: Seq<AStarNode>,
    p: int,
    a: int,
    name: Seq<char>,
    to: WorldState,
    idx: int,
)
    requires
        m.wf(),
        sound(m, start, goal, o, c, t),
        settled(m, start, goal, c, t),
        heuristic_steady(m, goal),
        0 <= p < t.len(),
        step_by(m, a, t[p].ws, name, to),
        0 <= idx < c.len(),
        c[idx].ws == to,
    ensures
        c[idx].g <= t[p].g + m.actions[a].cost,
{
    reveal(sound);
    reveal(settled);
    let legs = chain(t, p);
    assert(parents_below(t));
    lemma_chain_is_chain_of(t, p);
    lemma_route_extend(m, start, legs, a, name, to);
    let longer = legs.push((name, to));
    assert(is_route(m, start, longer) && longer.last().1 == c[idx].ws);
    assert(best_known(m, start, c[idx]));
}

/// A settled closed set stays settled where it changes only if some action
/// brings a state nearer to the goal than it costs.
pub proof fn lemma_settled_kept(
    m: PlannerView,
    start: WorldState,
    goal: WorldState,
    c0: Seq<AStarNode>,
    c1: Seq<AStarNode>,
    t: Seq<AStarNode>,
)
    requires
        settled(m, start, goal, c0, t),
        heuristic_steady(m, goal) ==> c1 == c0,
    ensures
        settled(m, start, goal, c1, t),
{
    reveal(settled);
}

/// Where no action brings a state nearer to the goal than it costs, the
/// record is as long as a settled closed set.
pub proof fn lemma_settled_len(
    m: PlannerView,
    start: WorldState,
    goal: WorldState,
    c: Seq<AStarNode>,
    t: Seq<AStarNode>,
)
    requires
        settled(m, start, goal, c, t),
    ensures
        heuristic_steady(m, goal) ==> t.len() == c.len(),
{
    reveal(settled);
}

/// What holds when a search begins.
pub proof fn lemma_begun(
    m: PlannerView,
    start: WorldState,
    goal: WorldState,
    o: Seq<AStarNode>,
    c: Seq<AStarNode>,
    t: Seq<AStarNode>,
    n0: AStarNode,
)
    requires
        o.len() == 1,
        o[0] == n0,
        c.len() == 0,
        t.len() == 0,
        n0.ws == start,
        n0.parent is None,
        n0.g == 0,
        n0.h == hamming(start, goal),
        n0.f == n0.h,
        n0.action_name@ == root_name(),
    ensures
        sound(m, start, goal, o, c, t),
        closed_full(m, o, c),
{
    reveal(sound);
    assert(chain_of(t, n0) =~= seq![(root_name(), start)]);
    assert(is_route(m, start, chain_of(t, n0)));
    assert(node_ok(m, start, t, n0));
    assert(holds(o, start, 0));
}

/// The node that is picked from the open set is sound, and so is the
/// record.
pub proof fn lemma_picked(
    m: PlannerView,
    start: WorldState,
    goal: WorldState,
    o: Seq<AStarNode>,
    c: Seq<AStarNode>,
    t: Seq<AStarNode>,
    i: int,
)
    requires
        sound(m, start, goal, o, c, t),
        0 <= i < o.len(),
    ensures
        trail_ok(m, start, t),
        node_ok(m, start, t, o[i]),
        o[i].h == hamming(o[i].ws, goal),
        o[i].f == o[i].g + o[i].h,
{
    reveal(sound);
}

/// As many states can be reached as either set holds nodes.
pub proof fn lemma_many_held(
    m: PlannerView,
    start: WorldState,
    goal: WorldState,
    o: Seq<AStarNode>,
    c: Seq<AStarNode>,
    t: Seq<AStarNode>,
)
    requires
        sound(m, start, goal, o, c, t),
    ensures
        reaches_many(m, start, o.len()),
        reaches_many(m, start, c.len()),
{
    reveal(sound);
    lemma_many_reachable(m, start, t, o);
    lemma_many_reachable(m, start, t, c);
}

/// Where the cost of a recorded node and of an action that can be taken in
/// its state cannot be held, the cost of some route that passes no state
/// twice before its last step cannot be held, or some action costs less
/// than 0.
pub proof fn lemma_cost_leaves(
    m: PlannerView,
    start: WorldState,
    goal: WorldState,
    o: Seq<AStarNode>,
    c: Seq<AStarNode>,
    t: Seq<AStarNode>,
    i: int,
    a: int,
    name: Seq<char>,
    to: WorldState,
)
    requires
        m.wf(),
        sound(m, start, goal, o, c, t),
        tidy(m, o, c, t),
        0 <= i < t.len(),
        step_by(m, a, t[i].ws, name, to),
        !(i32::MIN <= t[i].g + m.actions[a].cost <= i32::MAX),
    ensures
        cost_leaves_range(m, start) || !costs_nonneg(m),
{
    reveal(sound);
    reveal(tidy);
    let legs = chain(t, i);
    assert(parents_below(t));
    lemma_chain_is_chain_of(t, i);
    lemma_route_extend(m, start, legs, a, name, to);
    let longer = legs.push((name, to));
    if costs_nonneg(m) {
        assert(tidy_node(o, c, t, t[i]));
        assert(longer.drop_last() =~= legs);
        assert(is_route(m, start, longer) && no_state_twice(longer.drop_last()) && !(i32::MIN
            <= route_cost(m, longer) <= i32::MAX));
    }
}

/// After the state that action `a` leads to has been taken up, the node
/// that is being expanded is expanded up to the action after `a`.
pub proof fn lemma_closure_step(
    m: PlannerView,
    o0: Seq<AStarNode>,
    c0: Seq<AStarNode>,
    o1: Seq<AStarNode>,
    c1: Seq<AStarNode>,
    ws: WorldState,
    g: int,
    before: int,
    a: int,
)
    requires
        closed_under(m, o0, c0, ws, g, before),
        covers(o0, c0, o1, c1),
        drawn_from(c1, c0),
        0 <= before <= a < m.actions.len(),
        forall|b: int| before <= b < a ==> !ws.satisfies((#[trigger] m.actions[b]).pre),
        covered(o1, c1, ws.apply(m.actions[a].post), g + m.actions[a].cost),
    ensures
        closed_under(m, o1, c1, ws, g, a + 1),
{
    assert forall|i: int| 0 <= i < c1.len() implies if (#[trigger] c1[i]).ws == ws {
        c1[i].g == g && closure_at(m, o1, c1, c1[i], a + 1)
    } else {
        closure_at(m, o1, c1, c1[i], m.actions.len() as int)
    } by {
        let j = choose|j: int| 0 <= j < c0.len() && #[trigger] c0[j] == c1[i];
        let n = c0[j];
        if n.ws == ws {
            lemma_closure_mono(m, o0, c0, o1, c1, n, before);
            assert forall|b: int|
                0 <= b < a + 1 && b < m.actions.len() && n.ws.satisfies(
                    (#[trigger] m.actions[b]).pre,
                ) implies covered(o1, c1, n.ws.apply(m.actions[b].post), n.g + m.actions[b].cost) by {}
        } else {
            lemma_closure_mono(m, o0, c0, o1, c1, n, m.actions.len() as int);
        }
    }
}

/// Where action `upto` and those after it cannot be taken in the state
/// `ws`, closed nodes that are expanded up to it are expanded in full.
pub proof fn lemma_expanded(m: PlannerView, o: Seq<AStarNode>, c: Seq<AStarNode>, ws: WorldState, g: int, upto: int)
    requires
        closed_under(m, o, c, ws, g, upto),
        forall|b: int| upto <= b < m.actions.len() ==> !ws.satisfies((#[trigger] m.actions[b]).pre),
    ensures
        closed_full(m, o, c),
{
    assert forall|i: int| 0 <= i < c.len() implies closure_at(
        m,
        o,
        c,
        #[trigger] c[i],
        m.actions.len() as int,
    ) by {
        if c[i].ws == ws {
            assert(closure_at(m, o, c, c[i], upto));
        }
    }
}

/// Where no node is open and every closed node is expanded in full, no
/// route from the start reaches the goal.
pub proof fn lemma_exhausted(
    m: PlannerView,
    start: WorldState,
    goal: WorldState,
    o: Seq<AStarNode>,
    c: Seq<AStarNode>,
    t: Seq<AStarNode>,
)
    requires
        m.wf(),
        o.len() == 0,
        sound(m, start, goal, o, c, t),
        closed_full(m, o, c),
    ensures
        goal_unreachable(m, start, goal),
{
    reveal(sound);
    assert forall|legs: Seq<Leg>| is_route(m, start, legs) implies !(#[trigger] legs.last()).1.satisfies(
        goal,
    ) by {
        lemma_frontier(m, start, o, c, legs);
        assert(forall|k: int| !open_on_route(m, o, legs, k));
        assert(holds(c, legs.last().1, route_cost(m, legs)));
    }
}

/// What holds after the open node `i` has been closed and recorded, before
/// it is expanded.
pub proof fn lemma_grown(
    m: PlannerView,
    start: WorldState,
    goal: WorldState,
    t: Seq<AStarNode>,
    o: Seq<AStarNode>,
    c: Seq<AStarNode>,
    i: int,
)
    requires
        m.wf(),
        sound(m, start, goal, o, c, t),
        closed_full(m, o, c),
        0 <= i < o.len(),
        !o[i].ws.satisfies(goal),
    ensures
        sound(m, start, goal, cut(o, i), c.push(o[i]), t.push(o[i])),
        closed_under(m, cut(o, i), c.push(o[i]), o[i].ws, o[i].g as int, 0),
        covers(o, c, cut(o, i), c.push(o[i])),
{
    reveal(sound);
    let cur = o[i];
    let o1 = cut(o, i);
    let c1 = c.push(cur);
    let t1 = t.push(cur);
    lemma_cut_drawn(o, i);
    lemma_drawn_keeps(m, start, goal, t, o, c, o1, c);
    assert forall|k: int| 0 <= k < o1.len() implies #[trigger] o1[k] == o[if k == i {
        o.len() - 1
    } else {
        k
    }] by {}
    assert(trail_ok(m, start, t1)) by {
        assert forall|k: int| 0 <= k < t1.len() implies {
            &&& node_ok(m, start, t1, #[trigger] t1[k])
            &&& t1[k].parent matches Some(p) ==> p < k
        } by {
            if k < t.len() {
                assert(t1[k] == t[k]);
                lemma_node_ok_stable(m, start, t, cur, t[k]);
            } else {
                lemma_node_ok_stable(m, start, t, cur, cur);
            }
        }
    }
    assert(all_ok(m, start, t1, o1)) by {
        assert forall|k: int| 0 <= k < o1.len() implies node_ok(m, start, t1, #[trigger] o1[k]) by {
            lemma_node_ok_stable(m, start, t, cur, o1[k]);
        }
    }
    assert(all_ok(m, start, t1, c1)) by {
        assert forall|k: int| 0 <= k < c1.len() implies node_ok(m, start, t1, #[trigger] c1[k]) by {
            if k < c.len() {
                assert(c1[k] == c[k]);
            }
            lemma_node_ok_stable(m, start, t, cur, c1[k]);
        }
    }
    assert(distinct(c1)) by {
        assert forall|k: int, j: int| 0 <= k < j < c1.len() implies (#[trigger] c1[k]).ws != (
        #[trigger] c1[j]).ws by {
            assert(c1[k] == c[k]);
            if j < c.len() {
                assert(c1[j] == c[j]);
            }
        }
    }
    assert(disjoint(o1, c1)) by {
        assert forall|k: int, j: int| 0 <= k < o1.len() && 0 <= j < c1.len() implies (
        #[trigger] o1[k]).ws != (#[trigger] c1[j]).ws by {
            let k0 = if k == i {
                o.len() - 1
            } else {
                k
            };
            assert(o1[k] == o[k0]);
            if j < c.len() {
                assert(c1[j] == c[j]);
            } else {
                if k0 < i {
                    assert(o[k0].ws != o[i].ws);
                } else {
                    assert(o[i].ws != o[k0].ws);
                }
            }
        }
    }
    assert(none_meets(goal, c1)) by {
        assert forall|k: int| 0 <= k < c1.len() implies !(#[trigger] c1[k]).ws.satisfies(goal) by {
            if k < c.len() {
                assert(c1[k] == c[k]);
            }
        }
    }
    assert(covers(o, c, o1, c1)) by {
        assert forall|j: int| 0 <= j < o.len() implies covered(o1, c1, (#[trigger] o[j]).ws, o[j].g as int) by {
            if j != i {
                lemma_holds_cut(o, i, j);
            } else {
                lemma_holds_push(c, cur, o[j].ws, o[j].g as int);
            }
        }
        assert forall|j: int| 0 <= j < c.len() implies covered(o1, c1, (#[trigger] c[j]).ws, c[j].g as int) by {
            assert(holds(c, c[j].ws, c[j].g as int));
            lemma_holds_push(c, cur, c[j].ws, c[j].g as int);
        }
    }
    lemma_covered_mono(o, c, o1, c1, start, 0);
    assert(closed_under(m, o1, c1, cur.ws, cur.g as int, 0)) by {
        assert forall|k: int| 0 <= k < c1.len() implies if (#[trigger] c1[k]).ws == cur.ws {
            c1[k].g == cur.g && closure_at(m, o1, c1, c1[k], 0)
        } else {
            closure_at(m, o1, c1, c1[k], m.actions.len() as int)
        } by {
            if k < c.len() {
                assert(c1[k] == c[k]);
                assert(o[i].ws != c[k].ws);
                lemma_closure_mono(m, o, c, o1, c1, c[k], m.actions.len() as int);
            }
        }
    }
}

/// Every state of `legs` is held at no more than `bound`.
pub open spec fn held_chain(o: Seq<AStarNode>, c: Seq<AStarNode>, legs: Seq<Leg>, bound: int) -> bool {
    forall|k: int| 0 <= k < legs.len() ==> covered(o, c, (#[trigger] legs[k]).1, bound)
}

/// The route by which `n` was found passes no state twice, and every state
/// on it is held at no more than the cost of `n`.
pub open spec fn tidy_node(o: Seq<AStarNode>, c: Seq<AStarNode>, t: Seq<AStarNode>, n: AStarNode) -> bool {
    &&& no_state_twice(chain_of(t, n))
    &&& held_chain(o, c, chain_of(t, n), n.g as int)
}

/// Every node of `s` is tidy.
pub open spec fn all_tidy(o: Seq<AStarNode>, c: Seq<AStarNode>, t: Seq<AStarNode>, s: Seq<AStarNode>) -> bool {
    forall|i: int| 0 <= i < s.len() ==> tidy_node(o, c, t, #[trigger] s[i])
}

/// Where no action costs less than 0, every node of the two sets and of the
/// record is tidy.
#[verifier::opaque]
pub open spec fn tidy(m: PlannerView, o: Seq<AStarNode>, c: Seq<AStarNode>, t: Seq<AStarNode>) -> bool {
    costs_nonneg(m) ==> all_tidy(o, c, t, o) && all_tidy(o, c, t, c) && all_tidy(o, c, t, t)
}

/// A tidy node stays tidy under sets that hold every state held before at
/// no higher cost.
pub proof fn lemma_tidy_mono(
    o: Seq<AStarNode>,
    c: Seq<AStarNode>,
    o2: Seq<AStarNode>,
    c2: Seq<AStarNode>,
    t: Seq<AStarNode>,
    n: AStarNode,
)
    requires
        covers(o, c, o2, c2),
        tidy_node(o, c, t, n),
    ensures
        tidy_node(o2, c2, t, n),
{
    let legs = chain_of(t, n);
    assert forall|k: int| 0 <= k < legs.len() implies covered(o2, c2, (#[trigger] legs[k]).1, n.g as int) by {
        lemma_covered_mono(o, c, o2, c2, legs[k].1, n.g as int);
    }
}

/// The first node of a search is tidy.
pub proof fn lemma_tidy_begun(m: PlannerView, o: Seq<AStarNode>, c: Seq<AStarNode>, t: Seq<AStarNode>)
    requires
        o.len() == 1,
        c.len() == 0,
        t.len() == 0,
        o[0].parent is None,
    ensures
        tidy(m, o, c, t),
{
    reveal(tidy);
    assert(chain_of(t, o[0]) =~= seq![leg_of(o[0])]);
    assert(holds(o, o[0].ws, o[0].g as int));
}

/// The sets and the record stay tidy when a state is taken up as the new
/// open node `nb`.
pub proof fn lemma_tidy_taken(
    m: PlannerView,
    start: WorldState,
    goal: WorldState,
    o0: Seq<AStarNode>,
    c0: Seq<AStarNode>,
    t: Seq<AStarNode>,
    cut_o: Option<int>,
    cut_c: Option<int>,
    nb: AStarNode,
    a: int,
)
    requires
        m.wf(),
        sound(m, start, goal, o0, c0, t),
        tidy(m, o0, c0, t),
        cut_o matches Some(i) ==> 0 <= i < o0.len() && o0[i].ws == nb.ws && nb.g < o0[i].g,
        cut_c matches Some(i) ==> 0 <= i < c0.len() && c0[i].ws == nb.ws && nb.g < c0[i].g,
        cut_o is None ==> forall|j: int| 0 <= j < o0.len() ==> (#[trigger] o0[j]).ws != nb.ws,
        cut_c is None ==> forall|j: int| 0 <= j < c0.len() ==> (#[trigger] c0[j]).ws != nb.ws,
        nb.parent matches Some(p) && p < t.len() && step_by(m, a, t[p as int].ws, nb.action_name@, nb.ws)
            && nb.g == t[p as int].g + m.actions[a].cost,
        nb.h == hamming(nb.ws, goal),
        nb.f == nb.g + nb.h,
    ensures
        ({
            let o1 = match cut_o {
                Some(i) => cut(o0, i),
                None => o0,
            };
            let c1 = match cut_c {
                Some(i) => cut(c0, i),
                None => c0,
            };
            tidy(m, o1.push(nb), c1, t)
        }),
{
    lemma_taken(m, start, goal, o0, c0, t, cut_o, cut_c, nb, a);
    reveal(sound);
    reveal(tidy);
    let o1 = match cut_o {
        Some(i) => cut(o0, i),
        None => o0,
    };
    let c1 = match cut_c {
        Some(i) => cut(c0, i),
        None => c0,
    };
    let o2 = o1.push(nb);
    if costs_nonneg(m) {
        let p = nb.parent.unwrap() as int;
        // No set held the state at no more than the new cost.
        assert(!holds(o0, nb.ws, nb.g as int)) by {
            if holds(o0, nb.ws, nb.g as int) {
                let j = choose|j: int| 0 <= j < o0.len() && (#[trigger] o0[j]).ws == nb.ws && o0[j].g <= nb.g;
                let i = cut_o.unwrap();
                if j < i {
                    assert(o0[j].ws != o0[i].ws);
                } else if i < j {
                    assert(o0[i].ws != o0[j].ws);
                }
            }
        }
        assert(!holds(c0, nb.ws, nb.g as int)) by {
            if holds(c0, nb.ws, nb.g as int) {
                let j = choose|j: int| 0 <= j < c0.len() && (#[trigger] c0[j]).ws == nb.ws && c0[j].g <= nb.g;
                let i = cut_c.unwrap();
                if j < i {
                    assert(c0[j].ws != c0[i].ws);
                } else if i < j {
                    assert(c0[i].ws != c0[j].ws);
                }
            }
        }
        // The new node is tidy.
        assert(parents_below(t));
        lemma_chain_is_chain_of(t, p);
        let before = chain(t, p);
        let legs = chain_of(t, nb);
        assert(legs == before.push(leg_of(nb)));
        assert(tidy_node(o0, c0, t, t[p]));
        assert(m.actions[a].cost >= 0);
        assert forall|k: int| 0 <= k < before.len() implies covered(
            o0,
            c0,
            (#[trigger] before[k]).1,
            nb.g as int,
        ) && before[k].1 != nb.ws by {
            assert(covered(o0, c0, before[k].1, t[p].g as int));
            lemma_holds_weaken(o0, before[k].1, t[p].g as int, nb.g as int);
            lemma_holds_weaken(c0, before[k].1, t[p].g as int, nb.g as int);
        }
        assert(no_state_twice(legs)) by {
            assert forall|i: int, j: int| 0 <= i < j < legs.len() implies (#[trigger] legs[i]).1 != (
            #[trigger] legs[j]).1 by {
                assert(legs[i] == before[i]);
                if j < before.len() {
                    assert(legs[j] == before[j]);
                }
            }
        }
        assert(held_chain(o2, c1, legs, nb.g as int)) by {
            assert forall|k: int| 0 <= k < legs.len() implies covered(
                o2,
                c1,
                (#[trigger] legs[k]).1,
                nb.g as int,
            ) by {
                if k < before.len() {
                    assert(legs[k] == before[k]);
                    lemma_covered_mono(o0, c0, o2, c1, before[k].1, nb.g as int);
                }
            }
        }
        assert(tidy_node(o2, c1, t, nb));
        // The nodes that stay are tidy still.
        lemma_cut_members(o0, cut_o);
        lemma_cut_members(c0, cut_c);
        assert forall|i: int| 0 <= i < o2.len() implies tidy_node(o2, c1, t, #[trigger] o2[i]) by {
            if i < o1.len() {
                assert(o2[i] == o1[i]);
                assert(member(o0, o1[i]));
                let j = choose|j: int| 0 <= j < o0.len() && #[trigger] o0[j] == o1[i];
                lemma_tidy_mono(o0, c0, o2, c1, t, o0[j]);
            }
        }
        assert forall|i: int| 0 <= i < c1.len() implies tidy_node(o2, c1, t, #[trigger] c1[i]) by {
            assert(member(c0, c1[i]));
            let j = choose|j: int| 0 <= j < c0.len() && #[trigger] c0[j] == c1[i];
            lemma_tidy_mono(o0, c0, o2, c1, t, c0[j]);
        }
        assert forall|i: int| 0 <= i < t.len() implies tidy_node(o2, c1, t, #[trigger] t[i]) by {
            lemma_tidy_mono(o0, c0, o2, c1, t, t[i]);
        }
    }
}

/// Every node of a set that a node may have left was in it before.
pub proof fn lemma_cut_members(s: Seq<AStarNode>, at: Option<int>)
    requires
        at matches Some(i) ==> 0 <= i < s.len(),
    ensures
        drawn_from(
            match at {
                Some(i) => cut(s, i),
                None => s,
            },
            s,
        ),
{
    match at {
        Some(i) => {
            lemma_cut_drawn(s, i);
        },
        None => {
            lemma_drawn_self(s);
        },
    }
}

/// The sets and the record stay tidy when the open node `i` is closed and
/// recorded.
pub proof fn lemma_tidy_grown(
    m: PlannerView,
    start: WorldState,
    goal: WorldState,
    t: Seq<AStarNode>,
    o: Seq<AStarNode>,
    c: Seq<AStarNode>,
    i: int,
)
    requires
        m.wf(),
        sound(m, start, goal, o, c, t),
        tidy(m, o, c, t),
        closed_full(m, o, c),
        0 <= i < o.len(),
        !o[i].ws.satisfies(goal),
    ensures
        tidy(m, cut(o, i), c.push(o[i]), t.push(o[i])),
{
    lemma_grown(m, start, goal, t, o, c, i);
    reveal(sound);
    reveal(tidy);
    let cur = o[i];
    let o1 = cut(o, i);
    let c1 = c.push(cur);
    let t1 = t.push(cur);
    if costs_nonneg(m) {
        lemma_cut_drawn(o, i);
        assert forall|n: AStarNode| node_ok(m, start, t, n) && tidy_node(o, c, t, n) implies tidy_node(
            o1,
            c1,
            t1,
            n,
        ) by {
            lemma_node_ok_stable(m, start, t, cur, n);
            lemma_tidy_mono(o, c, o1, c1, t, n);
        }
        assert forall|k: int| 0 <= k < o1.len() implies tidy_node(o1, c1, t1, #[trigger] o1[k]) by {
            assert(member(o, o1[k]));
            let j = choose|j: int| 0 <= j < o.len() && #[trigger] o[j] == o1[k];
            assert(node_ok(m, start, t, o[j]) && tidy_node(o, c, t, o[j]));
        }
        assert forall|k: int| 0 <= k < c1.len() implies tidy_node(o1, c1, t1, #[trigger] c1[k]) by {
            if k < c.len() {
                assert(c1[k] == c[k]);
                assert(node_ok(m, start, t, c[k]) && tidy_node(o, c, t, c[k]));
            } else {
                assert(node_ok(m, start, t, cur) && tidy_node(o, c, t, cur));
            }
        }
        assert forall|k: int| 0 <= k < t1.len() implies tidy_node(o1, c1, t1, #[trigger] t1[k]) by {
            if k < t.len() {
                assert(t1[k] == t[k]);
                assert(node_ok(m, start, t, t[k]) && tidy_node(o, c, t, t[k]));
            } else {
                assert(node_ok(m, start, t, cur) && tidy_node(o, c, t, cur));
            }
        }
    }
}

/// No state is both open and closed.
pub proof fn lemma_one_set(
    m: PlannerView,
    start: WorldState,
    goal: WorldState,
    o: Seq<AStarNode>,
    c: Seq<AStarNode>,
    t: Seq<AStarNode>,
    i: int,
    j: int,
)
    requires
        sound(m, start, goal, o, c, t),
        0 <= i < o.len(),
        0 <= j < c.len(),
    ensures
        o[i].ws != c[j].ws,
{
    reveal(sound);
}

/// Where a set holds a state at no more than a cost, nothing needs to
/// change for the state to be held at that cost.
pub proof fn lemma_kept(
    o: Seq<AStarNode>,
    c: Seq<AStarNode>,
    in_o: Option<int>,
    in_c: Option<int>,
    ws: WorldState,
    cost: int,
)
    requires
        in_o is Some || in_c is Some,
        in_o matches Some(i) ==> 0 <= i < o.len() && o[i].ws == ws && o[i].g <= cost,
        in_c matches Some(i) ==> 0 <= i < c.len() && c[i].ws == ws && c[i].g <= cost,
    ensures
        covers(o, c, o, c),
        covered(o, c, ws, cost),
        drawn_from(c, c),
{
    lemma_drawn_self(c);
    assert forall|j: int| 0 <= j < o.len() implies covered(o, c, (#[trigger] o[j]).ws, o[j].g as int) by {
        assert(holds(o, o[j].ws, o[j].g as int));
    }
    assert forall|j: int| 0 <= j < c.len() implies covered(o, c, (#[trigger] c[j]).ws, c[j].g as int) by {
        assert(holds(c, c[j].ws, c[j].g as int));
    }
    match in_o {
        Some(i) => {
            assert(holds(o, ws, cost));
        },
        None => {
            let i = in_c.unwrap();
            assert(holds(c, ws, cost));
        },
    }
}

/// What holds after a state has been taken up as the new open node `nb`,
/// a node that held it at a higher cost having left its set.
pub proof fn lemma_taken(
    m: PlannerView,
    start: WorldState,
    goal: WorldState,
    o0: Seq<AStarNode>,
    c0: Seq<AStarNode>,
    t: Seq<AStarNode>,
    cut_o: Option<int>,
    cut_c: Option<int>,
    nb: AStarNode,
    a: int,
)
    requires
        m.wf(),
        sound(m, start, goal, o0, c0, t),
        cut_o matches Some(i) ==> 0 <= i < o0.len() && o0[i].ws == nb.ws && nb.g < o0[i].g,
        cut_c matches Some(i) ==> 0 <= i < c0.len() && c0[i].ws == nb.ws && nb.g < c0[i].g,
        cut_o is None ==> forall|j: int| 0 <= j < o0.len() ==> (#[trigger] o0[j]).ws != nb.ws,
        cut_c is None ==> forall|j: int| 0 <= j < c0.len() ==> (#[trigger] c0[j]).ws != nb.ws,
        nb.parent matches Some(p) && p < t.len() && step_by(m, a, t[p as int].ws, nb.action_name@, nb.ws)
            && nb.g == t[p as int].g + m.actions[a].cost,
        nb.h == hamming(nb.ws, goal),
        nb.f == nb.g + nb.h,
    ensures
        !(cut_o is Some && cut_c is Some),
        ({
            let o1 = match cut_o {
                Some(i) => cut(o0, i),
                None => o0,
            };
            let c1 = match cut_c {
                Some(i) => cut(c0, i),
                None => c0,
            };
            &&& sound(m, start, goal, o1.push(nb), c1, t)
            &&& covers(o0, c0, o1.push(nb), c1)
            &&& covered(o1.push(nb), c1, nb.ws, nb.g as int)
            &&& drawn_from(c1, c0)
        }),
{
    reveal(sound);
    let o1 = match cut_o {
        Some(i) => cut(o0, i),
        None => o0,
    };
    let c1 = match cut_c {
        Some(i) => cut(c0, i),
        None => c0,
    };
    let o2 = o1.push(nb);
    let p = nb.parent.unwrap() as int;
    if cut_o is Some && cut_c is Some {
        assert(o0[cut_o.unwrap()].ws == c0[cut_c.unwrap()].ws);
    }
    lemma_drawn_keeps(m, start, goal, t, o0, c0, o1, c1);
    assert(drawn_from(c1, c0)) by {
        match cut_c {
            Some(i) => {
                lemma_cut_drawn(c0, i);
            },
            None => {
                lemma_drawn_self(c0);
            },
        }
    }
    // No node that stays holds the state.
    assert forall|j: int| 0 <= j < o1.len() implies (#[trigger] o1[j]).ws != nb.ws by {
        match cut_o {
            Some(i) => {
                let j0 = if j == i {
                    o0.len() - 1
                } else {
                    j
                };
                assert(o1[j] == o0[j0]);
                if j0 < i {
                    assert(o0[j0].ws != o0[i].ws);
                } else {
                    assert(o0[i].ws != o0[j0].ws);
                }
            },
            None => {},
        }
    }
    assert forall|j: int| 0 <= j < c1.len() implies (#[trigger] c1[j]).ws != nb.ws by {
        match cut_c {
            Some(i) => {
                let j0 = if j == i {
                    c0.len() - 1
                } else {
                    j
                };
                assert(c1[j] == c0[j0]);
                if j0 < i {
                    assert(c0[j0].ws != c0[i].ws);
                } else {
                    assert(c0[i].ws != c0[j0].ws);
                }
            },
            None => {
                if cut_o is Some {
                    assert(o0[cut_o.unwrap()].ws != c0[j].ws);
                }
            },
        }
    }
    // The new node is sound.
    assert(parents_below(t));
    lemma_chain_is_chain_of(t, p);
    lemma_route_extend(m, start, chain(t, p), a, nb.action_name@, nb.ws);
    assert(node_ok(m, start, t, nb));
    assert(all_ok(m, start, t, o2)) by {
        assert forall|i: int| 0 <= i < o2.len() implies node_ok(m, start, t, #[trigger] o2[i]) by {
            if i < o1.len() {
                assert(o2[i] == o1[i]);
            }
        }
    }
    assert(scored(goal, o2)) by {
        assert forall|i: int| 0 <= i < o2.len() implies (#[trigger] o2[i]).h == hamming(o2[i].ws, goal)
            && o2[i].f == o2[i].g + o2[i].h by {
            if i < o1.len() {
                assert(o2[i] == o1[i]);
            }
        }
    }
    assert(distinct(o2)) by {
        assert forall|i: int, j: int| 0 <= i < j < o2.len() implies (#[trigger] o2[i]).ws != (
        #[trigger] o2[j]).ws by {
            assert(o2[i] == o1[i]);
            if j < o1.len() {
                assert(o2[j] == o1[j]);
            }
        }
    }
    assert(disjoint(o2, c1)) by {
        assert forall|i: int, j: int| 0 <= i < o2.len() && 0 <= j < c1.len() implies (#[trigger] o2[i]).ws
            != (#[trigger] c1[j]).ws by {
            if i < o1.len() {
                assert(o2[i] == o1[i]);
            }
        }
    }
    // Every state held before is held still, at no higher cost.
    assert(covers(o0, c0, o2, c1)) by {
        assert forall|j: int| 0 <= j < o0.len() implies covered(o2, c1, (#[trigger] o0[j]).ws, o0[j].g as int) by {
            match cut_o {
                Some(i) => {
                    if j != i {
                        lemma_holds_cut(o0, i, j);
                    }
                },
                None => {
                    assert(holds(o0, o0[j].ws, o0[j].g as int));
                },
            }
            lemma_holds_push(o1, nb, o0[j].ws, o0[j].g as int);
        }
        assert forall|j: int| 0 <= j < c0.len() implies covered(o2, c1, (#[trigger] c0[j]).ws, c0[j].g as int) by {
            match cut_c {
                Some(i) => {
                    if j != i {
                        lemma_holds_cut(c0, i, j);
                    } else {
                        lemma_holds_push(o1, nb, c0[j].ws, c0[j].g as int);
                    }
                },
                None => {
                    assert(holds(c0, c0[j].ws, c0[j].g as int));
                },
            }
        }
    }
    lemma_holds_push(o1, nb, nb.ws, nb.g as int);
    lemma_covered_mono(o0, c0, o2, c1, start, 0);
}

/// Nodes drawn from sound sets are sound, have different states and are
/// scored, as those sets were.
pub proof fn lemma_drawn_keeps(
    m: PlannerView,
    start: WorldState,
    goal: WorldState,
    t: Seq<AStarNode>,
    o: Seq<AStarNode>,
    c: Seq<AStarNode>,
    o2: Seq<AStarNode>,
    c2: Seq<AStarNode>,
)
    requires
        all_ok(m, start, t, o),
        all_ok(m, start, t, c),
        distinct(o),
        distinct(c),
        disjoint(o, c),
        scored(goal, o),
        none_meets(goal, c),
        o2 == o || exists|i: int| 0 <= i < o.len() && o2 == cut(o, i),
        c2 == c || exists|i: int| 0 <= i < c.len() && c2 == cut(c, i),
    ensures
        all_ok(m, start, t, o2),
        all_ok(m, start, t, c2),
        distinct(o2),
        distinct(c2),
        disjoint(o2, c2),
        scored(goal, o2),
        none_meets(goal, c2),
{
    if o2 != o {
        let i = choose|i: int| 0 <= i < o.len() && o2 == cut(o, i);
        assert forall|k: int| 0 <= k < o2.len() implies #[trigger] o2[k] == o[if k == i {
            o.len() - 1
        } else {
            k
        }] by {}
        assert(all_ok(m, start, t, o2));
        assert(scored(goal, o2));
        assert(distinct(o2));
    }
    if c2 != c {
        let i = choose|i: int| 0 <= i < c.len() && c2 == cut(c, i);
        assert forall|k: int| 0 <= k < c2.len() implies #[trigger] c2[k] == c[if k == i {
            c.len() - 1
        } else {
            k
        }] by {}
        assert(all_ok(m, start, t, c2));
        assert(none_meets(goal, c2));
        assert(distinct(c2));
    }
    assert(disjoint(o2, c2)) by {
        assert forall|i: int, j: int| 0 <= i < o2.len() && 0 <= j < c2.len() implies (#[trigger] o2[i]).ws
            != (#[trigger] c2[j]).ws by {
            let i0 = if o2 == o {
                i
            } else {
                let x = choose|x: int| 0 <= x < o.len() && o2 == cut(o, x);
                if i == x {
                    o.len() - 1
                } else {
                    i
                }
            };
            let j0 = if c2 == c {
                j
            } else {
                let x = choose|x: int| 0 <= x < c.len() && c2 == cut(c, x);
                if j == x {
                    c.len() - 1
                } else {
                    j
                }
            };
            assert(o2[i] == o[i0]);
            assert(c2[j] == c[j0]);
        }
    }
}

} // verus!
