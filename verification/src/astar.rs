//! Best-first search for a cheapest sequence of actions.

use crate::bitset::BitSetU64;
use crate::goap::{ActionPlanner, PlannerView, Row, WorldState};
use crate::model::{
    at_round, expanded, fresh, is_lowest, lemma_at_begin, lemma_ends_empty, lemma_ends_found,
    lemma_ends_stuck, lemma_expanded_at, lemma_expanded_skip, lemma_first_with, lemma_goes_on,
    relaxed, root, search,
};
use crate::heuristic::{cheapest, crowded, hamming, heuristic_steady, lemma_crowded_shrinks};
use crate::nodes::{
    chain, chain_of, closed_full, closed_under, covered, covers, drawn_from, leg_of,
    lemma_begun, lemma_best, lemma_closure_step, lemma_cost_leaves, lemma_exhausted,
    lemma_expanded, lemma_grown, lemma_kept, lemma_many_held, lemma_one_set, lemma_picked,
    lemma_no_reopen, lemma_settled_begun, lemma_settled_grown, lemma_settled_kept,
    lemma_settled_len, lemma_taken, lemma_tidy_begun, lemma_uncrowded, lemma_tidy_grown, lemma_tidy_taken, lemma_weight_nonneg, lemma_weight_push, lemma_weight_swap_remove, node_ok,
    parents_below, settled, sound, tidy, trail_ok, weight, AStarNode,
};
use crate::route::{
    cost_leaves_range, costs_nonneg, goal_unreachable, is_route, reaches_many, route_cost,
    step_by, Leg,
};
use std::collections::vec_deque::{Iter, VecDeque};
use vstd::prelude::*;
use vstd::std_specs::iter::IteratorSpec;

verus! {

/// The entries of a plan, from the root entry to the last action, and the
/// plan's cost.
pub struct AStarPlan {
    entries: VecDeque<(&'static str, WorldState)>,
    cost: i32,
}

impl View for AStarPlan {
    type V = Seq<Leg>;

    closed spec fn view(&self) -> Seq<Leg> {
        Seq::new(self.entries@.len(), |i: int| (self.entries@[i].0@, self.entries@[i].1))
    }
}

impl AStarPlan {
    /// The plan's cost.
    pub closed spec fn total(&self) -> int {
        self.cost as int
    }

    /// An empty plan that costs nothing.
    pub fn new() -> (r: Self)
        ensures
            r@.len() == 0,
            r.total() == 0,
    {
        AStarPlan { entries: VecDeque::new(), cost: 0 }
    }

    /// Walks the entries from the root entry to the last action.
    pub fn iter(&self) -> (it: Iter<'_, (&'static str, WorldState)>)
        ensures
            it.remaining().len() == self@.len(),
            forall|i: int|
                0 <= i < self@.len() ==> (#[trigger] it.remaining()[i]).0@ == self@[i].0
                    && it.remaining()[i].1 == self@[i].1,
    {
        broadcast use vstd::std_specs::vecdeque::axiom_spec_iter;

        self.entries.iter()
    }

    /// The sum of the costs of the plan's actions.
    pub fn cost(&self) -> (r: i32)
        ensures
            r == self.total(),
    {
        self.cost
    }
}

/// Zips the planner's four lists with `itertools::multizip`, which yields
/// one tuple per index, in order, until the shortest list ends.
#[verifier::external_body]
fn zip_actions(lists: (&[&'static str], &[WorldState], &[i32], &[WorldState])) -> (rows: Vec<Row>)
    ensures
        rows@.len() <= lists.0@.len(),
        rows@.len() <= lists.1@.len(),
        rows@.len() <= lists.2@.len(),
        rows@.len() <= lists.3@.len(),
        rows@.len() == lists.0@.len() || rows@.len() == lists.1@.len() || rows@.len()
            == lists.2@.len() || rows@.len() == lists.3@.len(),
        forall|i: int|
            0 <= i < rows@.len() ==> #[trigger] rows@[i] == (
                lists.0@[i],
                lists.1@[i],
                lists.2@[i],
                lists.3@[i],
            ),
{
    itertools::multizip(lists).map(|(name, pre, cost, post)| (*name, *pre, *cost, *post)).collect()
}

/// Walks the actions that can be taken in one state, and gives for each its
/// name, its cost and the state it leads to.
pub struct StateTransIter<'a> {
    from: &'a WorldState,
    rows: Vec<Row>,
    pos: usize,
}

impl<'a> StateTransIter<'a> {
    /// The position lies within the actions.
    #[verifier::type_invariant]
    spec fn within(self) -> bool {
        self.pos <= self.rows@.len()
    }

    /// The state whose successors are walked.
    pub closed spec fn origin(self) -> WorldState {
        *self.from
    }

    /// The actions that are walked.
    pub closed spec fn rows(self) -> Seq<Row> {
        self.rows@
    }

    /// How many of the actions have been passed.
    pub closed spec fn position(self) -> int {
        self.pos as int
    }

    /// Begins to walk the actions `rows` from the state `from`.
    pub fn new(from: &'a WorldState, rows: Vec<Row>) -> (r: StateTransIter<'a>)
        ensures
            r.origin() == *from,
            r.rows() == rows@,
            r.position() == 0,
    {
        StateTransIter { from: from, rows: rows, pos: 0 }
    }

    /// The next action whose precondition the state meets, if there is one:
    /// its name, its cost, and the state after its effect.
    pub fn next(&mut self) -> (r: Option<(&'static str, i32, WorldState)>)
        ensures
            final(self).origin() == old(self).origin(),
            final(self).rows() == old(self).rows(),
            old(self).position() <= final(self).position() <= old(self).rows().len(),
            forall|j: int|
                old(self).position() <= j < final(self).position() - (if r is Some {
                    1int
                } else {
                    0int
                }) ==> !old(self).origin().satisfies((#[trigger] old(self).rows()[j]).1),
            match r {
                Some((name, cost, to)) => {
                    let k = final(self).position() - 1;
                    &&& old(self).position() <= k
                    &&& old(self).origin().satisfies(old(self).rows()[k].1)
                    &&& name == old(self).rows()[k].0
                    &&& cost == old(self).rows()[k].2
                    &&& to == old(self).origin().apply(old(self).rows()[k].3)
                },
                None => final(self).position() == old(self).rows().len(),
            },
    {
        proof {
            use_type_invariant(&*self);
        }
        while self.pos < self.rows.len()
            invariant
                self.within(),
                self.origin() == old(self).origin(),
                self.rows() == old(self).rows(),
                old(self).position() <= self.position() <= self.rows().len(),
                forall|j: int|
                    old(self).position() <= j < self.position() ==> !old(self).origin().satisfies(
                        (#[trigger] old(self).rows()[j]).1,
                    ),
            decreases self.rows().len() - self.position(),
        {
            let (name, pre, cost, post) = self.rows[self.pos];
            self.pos = self.pos + 1;
            if self.from.matches(&pre) {
                let next = self.from.apply_effect(&post);
                return Some((name, cost, next));
            }
        }
        None
    }
}

/// The open set is full when it holds this many nodes.
pub const MAX_OPEN: usize = 1024;

/// The closed set is full when it holds this many nodes.
pub const MAX_CLOSED: usize = 1024;

/// The search: the nodes found and not yet expanded, the nodes expanded,
/// and the record of every node in the order of its expansion, through
/// which a node names the node it was found from.
pub struct AStar {
    opened: Vec<AStarNode>,
    closed: Vec<AStarNode>,
    trail: Vec<AStarNode>,
}

/// The first index at which a node with state `ws` stands in `nodes`.
fn find_state(nodes: &Vec<AStarNode>, ws: &WorldState) -> (r: Option<usize>)
    ensures
        match r {
            Some(i) => i < nodes@.len() && nodes@[i as int].ws == *ws && forall|j: int|
                0 <= j < i ==> (#[trigger] nodes@[j]).ws != *ws,
            None => forall|j: int| 0 <= j < nodes@.len() ==> (#[trigger] nodes@[j]).ws != *ws,
        },
{
    let mut i: usize = 0;
    while i < nodes.len()
        invariant
            i <= nodes@.len(),
            forall|j: int| 0 <= j < i ==> (#[trigger] nodes@[j]).ws != *ws,
        decreases nodes@.len() - i,
    {
        if nodes[i].ws == *ws {
            return Some(i);
        }
        i += 1;
    }
    None
}

impl AStar {
    /// How many nodes are open.
    pub closed spec fn open_len(&self) -> nat {
        self.opened@.len()
    }

    /// How many nodes are closed.
    pub closed spec fn closed_len(&self) -> nat {
        self.closed@.len()
    }

    /// How many nodes the record of expanded nodes holds.
    pub closed spec fn record_len(&self) -> nat {
        self.trail@.len()
    }

    /// A search that holds no node yet.
    pub fn new() -> (r: Self)
        ensures
            r.open_len() == 0,
            r.closed_len() == 0,
            r.record_len() == 0,
    {
        AStar {
            opened: Vec::with_capacity(MAX_OPEN),
            closed: Vec::with_capacity(MAX_CLOSED),
            trail: Vec::new(),
        }
    }

    /// The distance from `from` to `to`: the number of atoms that `to` cares
    /// about and on which the two states differ.
    pub fn calc_heuristic(from: &WorldState, to: &WorldState) -> (r: i32)
        ensures
            r == hamming(*from, *to),
            0 <= r <= 64,
    {
        let care = to.dontcare ^ BitSetU64::full();
        let diff = (from.values & care) ^ (to.values & care);
        proof {
            let f = from.values@;
            let t = to.values@;
            let d = to.dontcare@;
            assert((f & (d ^ 0xffff_ffff_ffff_ffffu64)) ^ (t & (d ^ 0xffff_ffff_ffff_ffffu64)) == (f ^ t)
                & !d) by (bit_vector);
        }
        let dist = diff.count_ones();
        dist as i32
    }

    /// The index of the first open node that holds the state `ws`.
    fn idx_in_opened(&self, ws: &WorldState) -> (r: Option<usize>)
        ensures
            match r {
                Some(i) => i < self.opened@.len() && self.opened@[i as int].ws == *ws && forall|j: int|
                    0 <= j < i ==> (#[trigger] self.opened@[j]).ws != *ws,
                None => forall|j: int|
                    0 <= j < self.opened@.len() ==> (#[trigger] self.opened@[j]).ws != *ws,
            },
    {
        find_state(&self.opened, ws)
    }

    /// The index of the first closed node that holds the state `ws`.
    fn idx_in_closed(&self, ws: &WorldState) -> (r: Option<usize>)
        ensures
            match r {
                Some(i) => i < self.closed@.len() && self.closed@[i as int].ws == *ws && forall|j: int|
                    0 <= j < i ==> (#[trigger] self.closed@[j]).ws != *ws,
                None => forall|j: int|
                    0 <= j < self.closed@.len() ==> (#[trigger] self.closed@[j]).ws != *ws,
            },
    {
        find_state(&self.closed, ws)
    }

    /// Empties the two sets and the record.
    fn clear(&mut self)
        ensures
            final(self).opened@.len() == 0,
            final(self).closed@.len() == 0,
            final(self).trail@.len() == 0,
    {
        self.opened.clear();
        self.closed.clear();
        self.trail.clear();
    }

    /// The first of the open nodes with the least `f`.
    fn lowest_in_opened(&self) -> (r: usize)
        requires
            self.opened@.len() > 0,
        ensures
            r < self.opened@.len(),
            forall|j: int|
                0 <= j < self.opened@.len() ==> self.opened@[r as int].f <= (
                #[trigger] self.opened@[j]).f,
            forall|j: int| 0 <= j < r ==> self.opened@[r as int].f < (#[trigger] self.opened@[j]).f,
            is_lowest(self.opened@, r as int),
    {
        let mut best: usize = 0;
        let mut i: usize = 1;
        while i < self.opened.len()
            invariant
                best < i <= self.opened@.len(),
                forall|j: int|
                    0 <= j < i ==> self.opened@[best as int].f <= (#[trigger] self.opened@[j]).f,
                forall|j: int|
                    0 <= j < best ==> self.opened@[best as int].f < (#[trigger] self.opened@[j]).f,
            decreases self.opened@.len() - i,
        {
            if self.opened[i].f < self.opened[best].f {
                best = i;
            }
            i += 1;
        }
        best
    }

    /// The route by which `goal_node` was found, with its cost.
    fn reconstruct_plan(&self, ap: &ActionPlanner, start: &WorldState, goal_node: &AStarNode) -> (plan:
        AStarPlan)
        requires
            trail_ok(ap@, *start, self.trail@),
            node_ok(ap@, *start, self.trail@, *goal_node),
        ensures
            plan@ == chain_of(self.trail@, *goal_node),
            plan.total() == goal_node.g,
    {
        let mut plan = AStarPlan::new();
        plan.cost = goal_node.g;
        plan.entries.push_front((goal_node.action_name, goal_node.ws));
        let mut next = goal_node.parent;
        assert(plan@ =~= seq![leg_of(*goal_node)]);
        assert(chain_of(self.trail@, *goal_node) =~= (match next {
            Some(i) => chain(self.trail@, i as int),
            None => Seq::empty(),
        }) + plan@);
        assert(parents_below(self.trail@));
        loop
            invariant
                parents_below(self.trail@),
                next matches Some(i) ==> i < self.trail@.len(),
                plan.total() == goal_node.g,
                chain_of(self.trail@, *goal_node) == (match next {
                    Some(i) => chain(self.trail@, i as int),
                    None => Seq::empty(),
                }) + plan@,
            ensures
                plan@ == chain_of(self.trail@, *goal_node),
            decreases
                    (match next {
                        Some(i) => i + 1,
                        None => 0,
                    }),
        {
            match next {
                None => {
                    assert(Seq::<Leg>::empty() + plan@ =~= plan@);
                    break ;
                },
                Some(i) => {
                    let node = self.trail[i];
                    let ghost before = plan@;
                    plan.entries.push_front((node.action_name, node.ws));
                    assert(plan@ =~= seq![leg_of(node)] + before);
                    next = node.parent;
                    proof {
                        let rest: Seq<Leg> = match next {
                            Some(p) => chain(self.trail@, p as int),
                            None => Seq::empty(),
                        };
                        assert(chain(self.trail@, i as int) =~= rest.push(leg_of(node)));
                        assert(rest.push(leg_of(node)) + before =~= rest + plan@);
                    }
                },
            }
        }
        plan
    }

    /// What holds of the two sets and the record throughout a search.
    spec fn sound(&self, m: PlannerView, start: WorldState, goal: WorldState) -> bool {
        sound(m, start, goal, self.opened@, self.closed@, self.trail@)
    }

    /// Where no action costs less than 0, no recorded route passes a state
    /// twice.
    spec fn tidy(&self, m: PlannerView) -> bool {
        tidy(m, self.opened@, self.closed@, self.trail@)
    }

    /// Where no action brings a state nearer to the goal than it costs, the
    /// closed set is the record and holds each state at its least cost.
    spec fn settled(&self, m: PlannerView, start: WorldState, goal: WorldState) -> bool {
        settled(m, start, goal, self.closed@, self.trail@)
    }

    /// How many nodes the two sets hold.
    spec fn count(&self) -> int {
        (self.opened@.len() + self.closed@.len()) as int
    }

    /// The weight of the two sets.
    spec fn heavy(&self) -> int {
        weight(self.opened@) + weight(self.closed@)
    }

    /// Takes up the state `to_ws`, found from `cur` at cost `cost`: where a
    /// set holds the state at a higher cost, that node leaves; where neither
    /// set then holds it, it becomes an open node.
    fn relax(
        &mut self,
        ap: &ActionPlanner,
        start: &WorldState,
        goal: &WorldState,
        cur: &AStarNode,
        cur_idx: usize,
        name: &'static str,
        cost: i32,
        to_ws: WorldState,
        Ghost(a): Ghost<int>,
    )
        requires
            ap.wf(),
            old(self).sound(ap@, *start, *goal),
            old(self).tidy(ap@),
            old(self).settled(ap@, *start, *goal),
            cur_idx < old(self).trail@.len(),
            old(self).trail@[cur_idx as int] == *cur,
            step_by(ap@, a, cur.ws, name@, to_ws),
            cost == cur.g + ap@.actions[a].cost,
        ensures
            final(self).sound(ap@, *start, *goal),
            final(self).tidy(ap@),
            final(self).settled(ap@, *start, *goal),
            final(self).trail@ == old(self).trail@,
            (final(self).opened@, final(self).closed@) == relaxed(
                *goal,
                old(self).opened@,
                old(self).closed@,
                cur_idx,
                name,
                cost,
                to_ws,
            ),
            covers(old(self).opened@, old(self).closed@, final(self).opened@, final(self).closed@),
            covered(final(self).opened@, final(self).closed@, to_ws, cost as int),
            drawn_from(final(self).closed@, old(self).closed@),
            final(self).opened@.len() <= old(self).opened@.len() + 1,
            final(self).closed@.len() <= old(self).closed@.len(),
            final(self).count() == old(self).count() + 1 || (final(self).count() == old(self).count()
                && final(self).heavy() < old(self).heavy()) || (final(self).opened@ == old(
                self,
            ).opened@ && final(self).closed@ == old(self).closed@),
    {
        let ghost m = ap@;
        let ghost o0 = self.opened@;
        let ghost c0 = self.closed@;
        let ghost t = self.trail@;
        let ghost mut found_o: Option<int> = None;
        let ghost mut cut_o: Option<int> = None;
        let ghost mut cut_c: Option<int> = None;
        let at_o = self.idx_in_opened(&to_ws);
        let at_c = self.idx_in_closed(&to_ws);
        proof {
            lemma_first_with(o0, to_ws, match at_o {
                Some(i) => Some(i as int),
                None => None,
            });
            lemma_first_with(c0, to_ws, match at_c {
                Some(i) => Some(i as int),
                None => None,
            });
        }
        let idx_o = match at_o {
            Some(idx) => {
                proof {
                    found_o = Some(idx as int);
                }
                if cost < self.opened[idx].g {
                    self.opened.swap_remove(idx);
                    proof {
                        cut_o = Some(idx as int);
                        lemma_weight_swap_remove(o0, idx as int);
                    }
                    None
                } else {
                    Some(idx)
                }
            },
            None => None,
        };
        let idx_c = match at_c {
            Some(idx) => {
                proof {
                    if found_o is Some {
                        lemma_one_set(m, *start, *goal, o0, c0, t, found_o.unwrap(), idx as int);
                    }
                }
                if cost < self.closed[idx].g {
                    proof {
                        if heuristic_steady(m, *goal) {
                            lemma_no_reopen(
                                m,
                                *start,
                                *goal,
                                o0,
                                c0,
                                t,
                                cur_idx as int,
                                a,
                                name@,
                                to_ws,
                                idx as int,
                            );
                        }
                    }
                    self.closed.swap_remove(idx);
                    proof {
                        cut_c = Some(idx as int);
                        lemma_weight_swap_remove(c0, idx as int);
                    }
                    None
                } else {
                    Some(idx)
                }
            },
            None => None,
        };
        let ghost o1 = self.opened@;
        let ghost c1 = self.closed@;
        proof {
            lemma_settled_kept(m, *start, *goal, c0, c1, t);
        }
        if idx_o.is_none() && idx_c.is_none() {
            let h = Self::calc_heuristic(&to_ws, goal);
            let nb = AStarNode {
                ws: to_ws,
                g: cost,
                h: h,
                f: cost as i64 + h as i64,
                action_name: name,
                parent: Some(cur_idx),
            };
            self.opened.push(nb);
            proof {
                assert(nb == fresh(*goal, cur_idx, name, cost, to_ws));
                lemma_weight_push(o1, nb);
                lemma_taken(m, *start, *goal, o0, c0, t, cut_o, cut_c, nb, a);
                lemma_tidy_taken(m, *start, *goal, o0, c0, t, cut_o, cut_c, nb, a);
            }
        } else {
            proof {
                assert(o1 == o0 && c1 == c0);
                lemma_kept(o0, c0, found_o, match idx_c {
                    Some(i) => Some(i as int),
                    None => None,
                }, to_ws, cost as int);
            }
        }
    }

    /// Takes up every state that one action leads to from `cur`, the node
    /// that was closed last. Gives `false` where the search has to end: a
    /// cost cannot be held, or the open set is full.
    fn expand(
        &mut self,
        ap: &ActionPlanner,
        start: &WorldState,
        goal: &WorldState,
        cur: &AStarNode,
        cur_idx: usize,
    ) -> (ok: bool)
        requires
            ap.wf(),
            old(self).sound(ap@, *start, *goal),
            old(self).tidy(ap@),
            old(self).settled(ap@, *start, *goal),
            cur_idx < old(self).trail@.len(),
            old(self).trail@[cur_idx as int] == *cur,
            closed_under(ap@, old(self).opened@, old(self).closed@, cur.ws, cur.g as int, 0),
            old(self).opened@.len() < MAX_OPEN,
        ensures
            final(self).sound(ap@, *start, *goal),
            final(self).tidy(ap@),
            final(self).settled(ap@, *start, *goal),
            final(self).trail@ == old(self).trail@,
            final(self).closed@.len() <= old(self).closed@.len(),
            final(self).opened@.len() <= MAX_OPEN,
            ok ==> closed_full(ap@, final(self).opened@, final(self).closed@),
            ok ==> final(self).opened@.len() < MAX_OPEN,
            ok ==> final(self).count() > old(self).count() || (final(self).count() == old(
                self,
            ).count() && final(self).heavy() < old(self).heavy()) || (final(self).count() == old(
                self,
            ).count() && final(self).heavy() == old(self).heavy() && final(self).opened@.len()
                == old(self).opened@.len()),
            !ok ==> reaches_many(ap@, *start, MAX_OPEN as nat) || cost_leaves_range(ap@, *start)
                || !costs_nonneg(ap@),
            expanded(ap.rows(), *goal, old(self).opened@, old(self).closed@, *cur, cur_idx, 0) == (
            if ok {
                Some((final(self).opened@, final(self).closed@))
            } else {
                None
            }),
    {
        let ghost m = ap@;
        let ghost count0 = self.count();
        let ghost heavy0 = self.heavy();
        let ghost open0 = self.opened@.len();
        let ghost whole = expanded(ap.rows(), *goal, self.opened@, self.closed@, *cur, cur_idx, 0);
        let rows = zip_actions(ap.actions());
        assert(rows@ =~= ap.rows());
        let mut it = StateTransIter::new(&cur.ws, rows);
        loop
            invariant
                ap.wf(),
                m == ap@,
                self.sound(m, *start, *goal),
                self.tidy(m),
                self.settled(m, *start, *goal),
                self.trail@ == old(self).trail@,
                cur_idx < self.trail@.len(),
                self.trail@[cur_idx as int] == *cur,
                it.origin() == cur.ws,
                it.rows() == ap.rows(),
                whole == expanded(
                    ap.rows(),
                    *goal,
                    old(self).opened@,
                    old(self).closed@,
                    *cur,
                    cur_idx,
                    0,
                ),
                whole == expanded(
                    ap.rows(),
                    *goal,
                    self.opened@,
                    self.closed@,
                    *cur,
                    cur_idx,
                    it.position(),
                ),
                it.rows().len() == m.actions.len(),
                forall|k: int|
                    #![trigger it.rows()[k]]
                    0 <= k < it.rows().len() ==> {
                        &&& it.rows()[k].0@ == m.actions[k].name
                        &&& it.rows()[k].1 == m.actions[k].pre
                        &&& it.rows()[k].2 == m.actions[k].cost
                        &&& it.rows()[k].3 == m.actions[k].post
                    },
                0 <= it.position() <= it.rows().len(),
                closed_under(m, self.opened@, self.closed@, cur.ws, cur.g as int, it.position()),
                self.opened@.len() < MAX_OPEN,
                self.closed@.len() <= old(self).closed@.len(),
                self.count() > count0 || (self.count() == count0 && self.heavy() < heavy0) || (
                self.count() == count0 && self.heavy() == heavy0 && self.opened@.len() == open0),
                self.count() >= count0,
            ensures
                self.sound(m, *start, *goal),
                self.tidy(m),
                self.settled(m, *start, *goal),
                self.trail@ == old(self).trail@,
                whole == Some((self.opened@, self.closed@)),
                closed_full(m, self.opened@, self.closed@),
                self.opened@.len() < MAX_OPEN,
                self.closed@.len() <= old(self).closed@.len(),
                self.count() > count0 || (self.count() == count0 && self.heavy() < heavy0) || (
                self.count() == count0 && self.heavy() == heavy0 && self.opened@.len() == open0),
            decreases it.rows().len() - it.position(),
        {
            let ghost before = it.position();
            let ghost o0 = self.opened@;
            let ghost c0 = self.closed@;
            match it.next() {
                None => {
                    proof {
                        assert forall|b: int| before <= b < m.actions.len() implies !cur.ws.satisfies(
                            (#[trigger] m.actions[b]).pre,
                        ) by {
                            assert(!cur.ws.satisfies(it.rows()[b].1));
                        }
                        lemma_expanded(m, o0, c0, cur.ws, cur.g as int, before);
                        lemma_expanded_skip(
                            ap.rows(),
                            *goal,
                            o0,
                            c0,
                            *cur,
                            cur_idx,
                            before,
                            ap.rows().len() as int,
                        );
                        lemma_expanded_at(
                            ap.rows(),
                            *goal,
                            o0,
                            c0,
                            *cur,
                            cur_idx,
                            ap.rows().len() as int,
                        );
                    }
                    break ;
                },
                Some((name, act_cost, to_ws)) => {
                    let ghost a = it.position() - 1;
                    assert(step_by(m, a, cur.ws, name@, to_ws)) by {
                        assert(it.rows()[a].0@ == m.actions[a].name);
                    }
                    assert forall|b: int| before <= b < a implies !cur.ws.satisfies(
                        (#[trigger] m.actions[b]).pre,
                    ) by {
                        assert(!cur.ws.satisfies(it.rows()[b].1));
                    }
                    proof {
                        lemma_expanded_skip(ap.rows(), *goal, o0, c0, *cur, cur_idx, before, a);
                        lemma_expanded_at(ap.rows(), *goal, o0, c0, *cur, cur_idx, a);
                        assert(cur.ws.satisfies(ap.rows()[a].1));
                        assert(ap.rows()[a].2 == act_cost);
                        assert(ap.rows()[a].0 == name);
                        assert(to_ws == cur.ws.apply(ap.rows()[a].3));
                    }
                    let cost = match cur.g.checked_add(act_cost) {
                        Some(cost) => cost,
                        None => {
                            proof {
                                lemma_cost_leaves(
                                    m,
                                    *start,
                                    *goal,
                                    self.opened@,
                                    self.closed@,
                                    self.trail@,
                                    cur_idx as int,
                                    a,
                                    name@,
                                    to_ws,
                                );
                            }
                            return false;
                        },
                    };
                    self.relax(ap, start, goal, cur, cur_idx, name, cost, to_ws, Ghost(a));
                    proof {
                        assert(cost == (cur.g + ap.rows()[a].2) as i32);
                        assert(whole == (if self.opened@.len() == MAX_OPEN {
                            None
                        } else {
                            expanded(ap.rows(), *goal, self.opened@, self.closed@, *cur, cur_idx, a + 1)
                        }));
                        lemma_closure_step(
                            m,
                            o0,
                            c0,
                            self.opened@,
                            self.closed@,
                            cur.ws,
                            cur.g as int,
                            before,
                            a,
                        );
                        lemma_weight_nonneg(self.opened@);
                        lemma_weight_nonneg(self.closed@);
                    }
                    if self.opened.len() == MAX_OPEN {
                        proof {
                            lemma_many_held(m, *start, *goal, self.opened@, self.closed@, self.trail@);
                        }
                        return false;
                    }
                },
            }
        }
        true
    }

    /// Searches for a cheapest sequence of actions of `ap` that leads from
    /// `start` to a state that meets `goal`.
    ///
    /// A plan that is returned is a route from `start` to such a state, and
    /// its cost is the sum of the costs of its actions. Where no action
    /// brings a state nearer to the goal than it costs, no route to such a
    /// state is cheaper. No plan is returned only where no such state can be
    /// reached, where at least 1024 different states can be reached, where
    /// the cost of some route that passes no state twice before its last
    /// step cannot be held, or where some action costs less than 0. Neither
    /// set ever holds more than 1024 nodes. Where no action brings a state
    /// nearer to the goal than it costs, the record holds no more nodes than
    /// the closed set, and a plan is returned only where fewer than 1024
    /// states can be reached at a cost that, with their distance to the
    /// goal, is below the plan's. The result is what `search` gives for
    /// the inputs, whatever the two sets and the record held before.
    pub fn plan(&mut self, ap: &ActionPlanner, start: &WorldState, goal: &WorldState) -> (r: Option<
        AStarPlan,
    >)
        requires
            ap.wf(),
        ensures
            final(self).open_len() <= MAX_OPEN,
            final(self).closed_len() <= MAX_CLOSED,
            heuristic_steady(ap@, *goal) ==> final(self).record_len() == final(self).closed_len(),
            search(*ap, *start, *goal) == (match r {
                Some(plan) => Some((plan@, plan.total())),
                None => None,
            }),
            match r {
                Some(plan) => {
                    &&& is_route(ap@, *start, plan@)
                    &&& plan@.last().1.satisfies(*goal)
                    &&& plan.total() == route_cost(ap@, plan@)
                    &&& heuristic_steady(ap@, *goal) ==> cheapest(ap@, *start, *goal, plan.total())
                    &&& heuristic_steady(ap@, *goal) ==> !crowded(
                        ap@,
                        *start,
                        *goal,
                        plan.total(),
                        1024,
                    )
                },
                None => {
                    ||| goal_unreachable(ap@, *start, *goal)
                    ||| reaches_many(ap@, *start, 1024)
                    ||| cost_leaves_range(ap@, *start)
                    ||| !costs_nonneg(ap@)
                },
            },
    {
        let ghost m = ap@;
        self.clear();
        let h = Self::calc_heuristic(start, goal);
        let n0 = AStarNode { ws: *start, parent: None, g: 0, h: h, f: h as i64, action_name: "root" };
        self.opened.push(n0);
        proof {
            lemma_begun(m, *start, *goal, self.opened@, self.closed@, self.trail@, n0);
            lemma_tidy_begun(m, self.opened@, self.closed@, self.trail@);
            lemma_settled_begun(m, *start, *goal, self.closed@, self.trail@);
            assert(n0 == root(*start, *goal));
            lemma_at_begin(*ap, *start, *goal, self.opened@, self.closed@, self.trail@);
        }
        let ghost mut rounds: nat = 0;
        loop
            invariant
                ap.wf(),
                m == ap@,
                at_round(*ap, *start, *goal, rounds, self.opened@, self.closed@, self.trail@),
                self.sound(m, *start, *goal),
                self.tidy(m),
                self.settled(m, *start, *goal),
                closed_full(m, self.opened@, self.closed@),
                self.opened@.len() < MAX_OPEN,
                self.closed@.len() < MAX_CLOSED,
            decreases MAX_OPEN + MAX_CLOSED - self.count(), self.heavy(), self.opened@.len(),
        {
            let ghost o0 = self.opened@;
            let ghost c0 = self.closed@;
            let ghost t0 = self.trail@;
            proof {
                lemma_weight_nonneg(o0);
                lemma_weight_nonneg(c0);
                lemma_settled_len(m, *start, *goal, c0, t0);
            }
            if self.opened.len() == 0 {
                proof {
                    lemma_exhausted(m, *start, *goal, o0, c0, t0);
                    lemma_ends_empty(*ap, *start, *goal, rounds, o0, c0, t0);
                }
                return None;
            }
            let lowest_idx = self.lowest_in_opened();
            let cur = self.opened.swap_remove(lowest_idx);
            proof {
                lemma_weight_swap_remove(o0, lowest_idx as int);
                lemma_picked(m, *start, *goal, o0, c0, t0, lowest_idx as int);
            }
            if cur.ws.matches(goal) {
                proof {
                    lemma_best(m, *start, *goal, o0, c0, t0, lowest_idx as int);
                    lemma_uncrowded(m, *start, *goal, o0, c0, t0, lowest_idx as int);
                    if crowded(m, *start, *goal, cur.g as int, 1024) {
                        lemma_crowded_shrinks(
                            m,
                            *start,
                            *goal,
                            cur.g as int,
                            (c0.len() + 1) as nat,
                            1024,
                        );
                    }
                }
                let plan = self.reconstruct_plan(ap, start, &cur);
                proof {
                    lemma_ends_found(*ap, *start, *goal, rounds, o0, c0, t0, lowest_idx as int);
                }
                return Some(plan);
            }
            self.closed.push(cur);
            self.trail.push(cur);
            let cur_idx = self.trail.len() - 1;
            proof {
                lemma_weight_push(c0, cur);
                lemma_grown(m, *start, *goal, t0, o0, c0, lowest_idx as int);
                lemma_tidy_grown(m, *start, *goal, t0, o0, c0, lowest_idx as int);
                lemma_settled_grown(m, *start, *goal, o0, c0, t0, lowest_idx as int);
                lemma_settled_len(m, *start, *goal, self.closed@, self.trail@);
            }
            if self.closed.len() == MAX_CLOSED {
                proof {
                    lemma_many_held(m, *start, *goal, self.opened@, self.closed@, self.trail@);
                    lemma_ends_stuck(
                        *ap,
                        *start,
                        *goal,
                        rounds,
                        o0,
                        c0,
                        t0,
                        lowest_idx as int,
                        cur_idx,
                    );
                }
                return None;
            }
            let ok = self.expand(ap, start, goal, &cur, cur_idx);
            proof {
                lemma_settled_len(m, *start, *goal, self.closed@, self.trail@);
            }
            if !ok {
                proof {
                    lemma_ends_stuck(
                        *ap,
                        *start,
                        *goal,
                        rounds,
                        o0,
                        c0,
                        t0,
                        lowest_idx as int,
                        cur_idx,
                    );
                }
                return None;
            }
            proof {
                lemma_goes_on(
                    *ap,
                    *start,
                    *goal,
                    rounds,
                    o0,
                    c0,
                    t0,
                    lowest_idx as int,
                    cur_idx,
                    self.opened@,
                    self.closed@,
                );
                rounds = rounds + 1;
            }
            proof {
                lemma_weight_nonneg(self.opened@);
                lemma_weight_nonneg(self.closed@);
            }
        }
    }
}

} // verus!
