//! The search as a function of its inputs: which node is picked, what
//! taking up a state does to the two sets, and what a run of the search
//! gives.

use crate::astar::{MAX_CLOSED, MAX_OPEN};
use crate::goap::{ActionPlanner, Row, WorldState};
use crate::heuristic::hamming;
use crate::nodes::{chain_of, cut, AStarNode};
use crate::route::Leg;
use vstd::prelude::*;

verus! {

/// Index `i` is the first at which a node of `s` holds the state `ws`.
pub open spec fn is_first_with(s: Seq<AStarNode>, ws: WorldState, i: int) -> bool {
    &&& 0 <= i < s.len()
    &&& s[i].ws == ws
    &&& forall|j: int| 0 <= j < i ==> (#[trigger] s[j]).ws != ws
}

/// The first index at which a node of `s` holds the state `ws`.
pub open spec fn first_with(s: Seq<AStarNode>, ws: WorldState) -> Option<int> {
    if exists|i: int| is_first_with(s, ws, i) {
        Some(choose|i: int| is_first_with(s, ws, i))
    } else {
        None
    }
}

/// Index `i` is the first at which a node of `o` has the least `f`.
pub open spec fn is_lowest(o: Seq<AStarNode>, i: int) -> bool {
    &&& 0 <= i < o.len()
    &&& forall|j: int| 0 <= j < o.len() ==> o[i].f <= (#[trigger] o[j]).f
    &&& forall|j: int| 0 <= j < i ==> o[i].f < (#[trigger] o[j]).f
}

/// The first index at which a node of `o` has the least `f`.
pub open spec fn lowest_of(o: Seq<AStarNode>) -> int {
    choose|i: int| is_lowest(o, i)
}

/// The first index found is the one that `first_with` gives.
pub proof fn lemma_first_with(s: Seq<AStarNode>, ws: WorldState, found: Option<int>)
    requires
        match found {
            Some(i) => is_first_with(s, ws, i),
            None => forall|j: int| 0 <= j < s.len() ==> (#[trigger] s[j]).ws != ws,
        },
    ensures
        first_with(s, ws) == found,
{
    match found {
        Some(i) => {
            let k = choose|k: int| is_first_with(s, ws, k);
            if k < i {
                assert(s[k].ws != ws);
            } else if i < k {
                assert(s[i].ws != ws);
            }
        },
        None => {
            if exists|i: int| is_first_with(s, ws, i) {
                let k = choose|k: int| is_first_with(s, ws, k);
                assert(s[k].ws != ws);
            }
        },
    }
}

/// The first index found with the least `f` is the one that `lowest_of`
/// gives.
pub proof fn lemma_lowest_of(o: Seq<AStarNode>, i: int)
    requires
        is_lowest(o, i),
    ensures
        lowest_of(o) == i,
{
    let k = lowest_of(o);
    if k < i {
        assert(o[i].f < o[k].f);
        assert(o[k].f <= o[i].f);
    } else if i < k {
        assert(o[k].f < o[i].f);
        assert(o[i].f <= o[k].f);
    }
}

/// The node that a state becomes when it is taken up.
pub open spec fn fresh(
    goal: WorldState,
    at: usize,
    name: &'static str,
    cost: i32,
    to: WorldState,
) -> AStarNode {
    AStarNode {
        ws: to,
        parent: Some(at),
        g: cost,
        h: hamming(to, goal) as i32,
        f: (cost + hamming(to, goal)) as i64,
        action_name: name,
    }
}

/// A set after a state found at cost `cost` has been looked up in it:
/// without the node that held the state at a higher cost, if there was
/// one; and whether a node holds the state still.
pub open spec fn without_dearer(s: Seq<AStarNode>, cost: i32, to: WorldState) -> (Seq<AStarNode>, bool) {
    match first_with(s, to) {
        Some(i) => if cost < s[i].g {
            (cut(s, i), false)
        } else {
            (s, true)
        },
        None => (s, false),
    }
}

/// The two sets after the state `to`, found at cost `cost` from the
/// recorded node `at` by the action `name`, has been taken up.
pub open spec fn relaxed(
    goal: WorldState,
    o: Seq<AStarNode>,
    c: Seq<AStarNode>,
    at: usize,
    name: &'static str,
    cost: i32,
    to: WorldState,
) -> (Seq<AStarNode>, Seq<AStarNode>) {
    let (o1, kept_o) = without_dearer(o, cost, to);
    let (c1, kept_c) = without_dearer(c, cost, to);
    if !kept_o && !kept_c {
        (o1.push(fresh(goal, at, name, cost, to)), c1)
    } else {
        (o1, c1)
    }
}

/// The two sets after the states that the actions from `a` on lead to from
/// `cur` have been taken up, or nothing where a cost cannot be held or the
/// open set becomes full.
#[verifier::opaque]
pub open spec fn expanded(
    rows: Seq<Row>,
    goal: WorldState,
    o: Seq<AStarNode>,
    c: Seq<AStarNode>,
    cur: AStarNode,
    at: usize,
    a: int,
) -> Option<(Seq<AStarNode>, Seq<AStarNode>)>
    decreases rows.len() - a,
{
    if a < 0 || a >= rows.len() {
        Some((o, c))
    } else if !cur.ws.satisfies(rows[a].1) {
        expanded(rows, goal, o, c, cur, at, a + 1)
    } else if !(i32::MIN <= cur.g + rows[a].2 <= i32::MAX) {
        None
    } else {
        let (o1, c1) = relaxed(
            goal,
            o,
            c,
            at,
            rows[a].0,
            (cur.g + rows[a].2) as i32,
            cur.ws.apply(rows[a].3),
        );
        if o1.len() == MAX_OPEN {
            None
        } else {
            expanded(rows, goal, o1, c1, cur, at, a + 1)
        }
    }
}

/// What `expanded` gives from action `a` on, by what it gives from the next
/// action on.
pub proof fn lemma_expanded_at(
    rows: Seq<Row>,
    goal: WorldState,
    o: Seq<AStarNode>,
    c: Seq<AStarNode>,
    cur: AStarNode,
    at: usize,
    a: int,
)
    ensures
        expanded(rows, goal, o, c, cur, at, a) == (if a < 0 || a >= rows.len() {
            Some((o, c))
        } else if !cur.ws.satisfies(rows[a].1) {
            expanded(rows, goal, o, c, cur, at, a + 1)
        } else if !(i32::MIN <= cur.g + rows[a].2 <= i32::MAX) {
            None
        } else {
            let (o1, c1) = relaxed(
                goal,
                o,
                c,
                at,
                rows[a].0,
                (cur.g + rows[a].2) as i32,
                cur.ws.apply(rows[a].3),
            );
            if o1.len() == MAX_OPEN {
                None
            } else {
                expanded(rows, goal, o1, c1, cur, at, a + 1)
            }
        }),
{
    reveal_with_fuel(expanded, 2);
}

/// Actions that cannot be taken are passed over.
pub proof fn lemma_expanded_skip(
    rows: Seq<Row>,
    goal: WorldState,
    o: Seq<AStarNode>,
    c: Seq<AStarNode>,
    cur: AStarNode,
    at: usize,
    from: int,
    to: int,
)
    requires
        0 <= from <= to <= rows.len(),
        forall|b: int| from <= b < to ==> !cur.ws.satisfies((#[trigger] rows[b]).1),
    ensures
        expanded(rows, goal, o, c, cur, at, from) == expanded(rows, goal, o, c, cur, at, to),
    decreases to - from,
{
    if from < to {
        assert(!cur.ws.satisfies(rows[from].1));
        lemma_expanded_at(rows, goal, o, c, cur, at, from);
        lemma_expanded_skip(rows, goal, o, c, cur, at, from + 1, to);
    }
}

/// What a search has come to: its result, or the two sets and the record
/// with which it goes on.
pub enum Turn {
    Done(Option<(Seq<Leg>, int)>),
    Next(Seq<AStarNode>, Seq<AStarNode>, Seq<AStarNode>),
}

/// One round of the search: the open node with the least `f` is picked;
/// where it meets the goal, the route by which it was found is the result;
/// else it is closed, recorded and expanded.
#[verifier::opaque]
pub open spec fn stepped(
    rows: Seq<Row>,
    goal: WorldState,
    o: Seq<AStarNode>,
    c: Seq<AStarNode>,
    t: Seq<AStarNode>,
) -> Turn {
    if o.len() == 0 {
        Turn::Done(None)
    } else {
        let i = lowest_of(o);
        let cur = o[i];
        if cur.ws.satisfies(goal) {
            Turn::Done(Some((chain_of(t, cur), cur.g as int)))
        } else if c.len() + 1 == MAX_CLOSED {
            Turn::Done(None)
        } else {
            match expanded(rows, goal, cut(o, i), c.push(cur), cur, t.len() as usize, 0) {
                None => Turn::Done(None),
                Some((o2, c2)) => Turn::Next(o2, c2, t.push(cur)),
            }
        }
    }
}

/// A round with no open node ends the search without a plan.
pub proof fn lemma_round_empty(
    rows: Seq<Row>,
    goal: WorldState,
    o: Seq<AStarNode>,
    c: Seq<AStarNode>,
    t: Seq<AStarNode>,
)
    requires
        o.len() == 0,
    ensures
        stepped(rows, goal, o, c, t) == Turn::Done(None),
{
    reveal(stepped);
}

/// A round that picks a node that meets the goal ends the search with the
/// route by which that node was found.
pub proof fn lemma_round_found(
    rows: Seq<Row>,
    goal: WorldState,
    o: Seq<AStarNode>,
    c: Seq<AStarNode>,
    t: Seq<AStarNode>,
    i: int,
)
    requires
        is_lowest(o, i),
        o[i].ws.satisfies(goal),
    ensures
        stepped(rows, goal, o, c, t) == Turn::Done(Some((chain_of(t, o[i]), o[i].g as int))),
{
    reveal(stepped);
    lemma_lowest_of(o, i);
}

/// A round that picks a node that misses the goal ends the search without
/// a plan where the closed set becomes full or the node cannot be expanded,
/// and else leaves the sets as the expansion leaves them.
pub proof fn lemma_round_on(
    rows: Seq<Row>,
    goal: WorldState,
    o: Seq<AStarNode>,
    c: Seq<AStarNode>,
    t: Seq<AStarNode>,
    i: int,
)
    requires
        is_lowest(o, i),
        !o[i].ws.satisfies(goal),
    ensures
        stepped(rows, goal, o, c, t) == (if c.len() + 1 == MAX_CLOSED {
            Turn::Done(None)
        } else {
            match expanded(rows, goal, cut(o, i), c.push(o[i]), o[i], t.len() as usize, 0) {
                None => Turn::Done(None),
                Some((o2, c2)) => Turn::Next(o2, c2, t.push(o[i])),
            }
        }),
{
    reveal(stepped);
    lemma_lowest_of(o, i);
}

/// What a search that begins with `o`, `c` and `t` has come to after at
/// most `n` rounds.
#[verifier::opaque]
pub open spec fn run(
    rows: Seq<Row>,
    goal: WorldState,
    o: Seq<AStarNode>,
    c: Seq<AStarNode>,
    t: Seq<AStarNode>,
    n: nat,
) -> Turn
    decreases n,
{
    if n == 0 {
        Turn::Next(o, c, t)
    } else {
        match stepped(rows, goal, o, c, t) {
            Turn::Done(r) => Turn::Done(r),
            Turn::Next(o2, c2, t2) => run(rows, goal, o2, c2, t2, (n - 1) as nat),
        }
    }
}

/// A search that goes on after `n` rounds has come, after one round more,
/// to what that round makes of it.
pub proof fn lemma_run_step(
    rows: Seq<Row>,
    goal: WorldState,
    o: Seq<AStarNode>,
    c: Seq<AStarNode>,
    t: Seq<AStarNode>,
    n: nat,
    o2: Seq<AStarNode>,
    c2: Seq<AStarNode>,
    t2: Seq<AStarNode>,
)
    requires
        run(rows, goal, o, c, t, n) == Turn::Next(o2, c2, t2),
    ensures
        run(rows, goal, o, c, t, n + 1) == stepped(rows, goal, o2, c2, t2),
    decreases n,
{
    reveal_with_fuel(run, 3);
    if n == 0 {
        match stepped(rows, goal, o, c, t) {
            Turn::Done(r) => {},
            Turn::Next(o1, c1, t1) => {
                assert(run(rows, goal, o1, c1, t1, 0) == Turn::Next(o1, c1, t1));
            },
        }
    } else {
        match stepped(rows, goal, o, c, t) {
            Turn::Done(r) => {},
            Turn::Next(o1, c1, t1) => {
                lemma_run_step(rows, goal, o1, c1, t1, (n - 1) as nat, o2, c2, t2);
            },
        }
    }
}

/// A search that is done after `n` rounds is done, with the same result,
/// after any more.
pub proof fn lemma_run_more(
    rows: Seq<Row>,
    goal: WorldState,
    o: Seq<AStarNode>,
    c: Seq<AStarNode>,
    t: Seq<AStarNode>,
    n: nat,
    more: nat,
)
    requires
        run(rows, goal, o, c, t, n) is Done,
    ensures
        run(rows, goal, o, c, t, n + more) == run(rows, goal, o, c, t, n),
    decreases n,
{
    reveal_with_fuel(run, 2);
    if n > 0 {
        match stepped(rows, goal, o, c, t) {
            Turn::Done(r) => {},
            Turn::Next(o1, c1, t1) => {
                lemma_run_more(rows, goal, o1, c1, t1, (n - 1) as nat, more);
            },
        }
    }
}

/// The node with which every search begins.
pub open spec fn root(start: WorldState, goal: WorldState) -> AStarNode {
    AStarNode {
        ws: start,
        parent: None,
        g: 0,
        h: hamming(start, goal) as i32,
        f: hamming(start, goal) as i64,
        action_name: "root",
    }
}

/// The search from `start` for `goal` is done after `n` rounds.
pub open spec fn done_after(rows: Seq<Row>, start: WorldState, goal: WorldState, n: nat) -> bool {
    run(rows, goal, seq![root(start, goal)], Seq::empty(), Seq::empty(), n) is Done
}

/// What the search from `start` for `goal` over the actions of `ap` gives:
/// the entries and the cost of the plan, or nothing. It is what the rounds
/// of the search come to, each of which picks the first open node with the
/// least `f` and takes up, in the order of the actions, the states that
/// they lead to.
#[verifier::opaque]
pub open spec fn search(ap: ActionPlanner, start: WorldState, goal: WorldState) -> Option<(Seq<Leg>, int)> {
    if exists|n: nat| done_after(ap.rows(), start, goal, n) {
        let n = choose|n: nat| done_after(ap.rows(), start, goal, n);
        run(ap.rows(), goal, seq![root(start, goal)], Seq::empty(), Seq::empty(), n)->Done_0
    } else {
        None
    }
}

/// A search that is done after `n` rounds gives what it has come to then.
pub proof fn lemma_search_is(ap: ActionPlanner, start: WorldState, goal: WorldState, n: nat)
    requires
        done_after(ap.rows(), start, goal, n),
    ensures
        search(ap, start, goal) == run(
            ap.rows(),
            goal,
            seq![root(start, goal)],
            Seq::empty(),
            Seq::empty(),
            n,
        )->Done_0,
{
    reveal(search);
    let k = choose|k: nat| done_after(ap.rows(), start, goal, k);
    let o = seq![root(start, goal)];
    let e = Seq::<AStarNode>::empty();
    if k <= n {
        lemma_run_more(ap.rows(), goal, o, e, e, k, (n - k) as nat);
    } else {
        lemma_run_more(ap.rows(), goal, o, e, e, n, (k - n) as nat);
    }
}

/// A search that goes on after `n` rounds and is ended by the next gives
/// what that round gives.
pub proof fn lemma_search_done(
    ap: ActionPlanner,
    start: WorldState,
    goal: WorldState,
    n: nat,
    o: Seq<AStarNode>,
    c: Seq<AStarNode>,
    t: Seq<AStarNode>,
    result: Option<(Seq<Leg>, int)>,
)
    requires
        run(ap.rows(), goal, seq![root(start, goal)], Seq::empty(), Seq::empty(), n) == Turn::Next(
            o,
            c,
            t,
        ),
        stepped(ap.rows(), goal, o, c, t) == Turn::Done(result),
    ensures
        search(ap, start, goal) == result,
{
    lemma_run_step(ap.rows(), goal, seq![root(start, goal)], Seq::empty(), Seq::empty(), n, o, c, t);
    lemma_search_is(ap, start, goal, n + 1);
}

/// A search has come to nothing but its beginning before its first round.
pub proof fn lemma_run_begun(
    rows: Seq<Row>,
    goal: WorldState,
    o: Seq<AStarNode>,
    c: Seq<AStarNode>,
    t: Seq<AStarNode>,
)
    ensures
        run(rows, goal, o, c, t, 0) == Turn::Next(o, c, t),
{
    reveal_with_fuel(run, 1);
}

/// The search from `start` for `goal` goes on after `n` rounds, with the
/// sets `o` and `c` and the record `t`.
#[verifier::opaque]
pub open spec fn at_round(
    ap: ActionPlanner,
    start: WorldState,
    goal: WorldState,
    n: nat,
    o: Seq<AStarNode>,
    c: Seq<AStarNode>,
    t: Seq<AStarNode>,
) -> bool {
    run(ap.rows(), goal, seq![root(start, goal)], Seq::empty(), Seq::empty(), n) == Turn::Next(o, c, t)
}

/// A search begins with its first node open and nothing closed or recorded.
pub proof fn lemma_at_begin(
    ap: ActionPlanner,
    start: WorldState,
    goal: WorldState,
    o: Seq<AStarNode>,
    c: Seq<AStarNode>,
    t: Seq<AStarNode>,
)
    requires
        o.len() == 1,
        o[0] == root(start, goal),
        c.len() == 0,
        t.len() == 0,
    ensures
        at_round(ap, start, goal, 0, o, c, t),
{
    reveal(at_round);
    assert(o =~= seq![root(start, goal)]);
    assert(c =~= Seq::empty());
    assert(t =~= Seq::empty());
    lemma_run_begun(ap.rows(), goal, o, c, t);
}

/// A search whose next round finds no open node gives no plan.
pub proof fn lemma_ends_empty(
    ap: ActionPlanner,
    start: WorldState,
    goal: WorldState,
    n: nat,
    o: Seq<AStarNode>,
    c: Seq<AStarNode>,
    t: Seq<AStarNode>,
)
    requires
        at_round(ap, start, goal, n, o, c, t),
        o.len() == 0,
    ensures
        search(ap, start, goal) is None,
{
    reveal(at_round);
    lemma_round_empty(ap.rows(), goal, o, c, t);
    lemma_search_done(ap, start, goal, n, o, c, t, None);
}

/// A search whose next round picks a node that meets the goal gives the
/// route by which that node was found, and its cost.
pub proof fn lemma_ends_found(
    ap: ActionPlanner,
    start: WorldState,
    goal: WorldState,
    n: nat,
    o: Seq<AStarNode>,
    c: Seq<AStarNode>,
    t: Seq<AStarNode>,
    i: int,
)
    requires
        at_round(ap, start, goal, n, o, c, t),
        is_lowest(o, i),
        o[i].ws.satisfies(goal),
    ensures
        search(ap, start, goal) == Some((chain_of(t, o[i]), o[i].g as int)),
{
    reveal(at_round);
    lemma_round_found(ap.rows(), goal, o, c, t, i);
    lemma_search_done(ap, start, goal, n, o, c, t, Some((chain_of(t, o[i]), o[i].g as int)));
}

/// A search whose next round fills the closed set, or cannot expand the
/// node it picks, gives no plan.
pub proof fn lemma_ends_stuck(
    ap: ActionPlanner,
    start: WorldState,
    goal: WorldState,
    n: nat,
    o: Seq<AStarNode>,
    c: Seq<AStarNode>,
    t: Seq<AStarNode>,
    i: int,
    at: usize,
)
    requires
        at_round(ap, start, goal, n, o, c, t),
        is_lowest(o, i),
        !o[i].ws.satisfies(goal),
        at == t.len(),
        c.len() + 1 == MAX_CLOSED || expanded(ap.rows(), goal, cut(o, i), c.push(o[i]), o[i], at, 0)
            is None,
    ensures
        search(ap, start, goal) is None,
{
    reveal(at_round);
    lemma_round_on(ap.rows(), goal, o, c, t, i);
    lemma_search_done(ap, start, goal, n, o, c, t, None);
}

/// A search whose next round expands the node it picks goes on with the
/// sets as the expansion leaves them.
pub proof fn lemma_goes_on(
    ap: ActionPlanner,
    start: WorldState,
    goal: WorldState,
    n: nat,
    o: Seq<AStarNode>,
    c: Seq<AStarNode>,
    t: Seq<AStarNode>,
    i: int,
    at: usize,
    o2: Seq<AStarNode>,
    c2: Seq<AStarNode>,
)
    requires
        at_round(ap, start, goal, n, o, c, t),
        is_lowest(o, i),
        !o[i].ws.satisfies(goal),
        at == t.len(),
        c.len() + 1 != MAX_CLOSED,
        expanded(ap.rows(), goal, cut(o, i), c.push(o[i]), o[i], at, 0) == Some((o2, c2)),
    ensures
        at_round(ap, start, goal, n + 1, o2, c2, t.push(o[i])),
{
    reveal(at_round);
    lemma_round_on(ap.rows(), goal, o, c, t, i);
    lemma_run_step(ap.rows(), goal, seq![root(start, goal)], Seq::empty(), Seq::empty(), n, o, c, t);
}

} // verus!
