use gpgoap::astar::StateTransIter;
use gpgoap::{AStar, AStarPlan, ActionPlanner, WorldState};

fn soldier(with_scout: bool) -> ActionPlanner {
    let mut ap = ActionPlanner::new();
    if with_scout {
        ap.set_pre("scout", "armedwithgun", true);
        ap.set_post("scout", "enemyvisible", true);
    }

    ap.set_pre("approach", "enemyvisible", true);
    ap.set_post("approach", "nearenemy", true);

    ap.set_pre("aim", "enemyvisible", true);
    ap.set_pre("aim", "weaponloaded", true);
    ap.set_post("aim", "enemylinedup", true);

    ap.set_pre("shoot", "enemylinedup", true);
    ap.set_post("shoot", "enemyalive", false);

    ap.set_pre("load", "armedwithgun", true);
    ap.set_post("load", "weaponloaded", true);

    ap.set_pre("detonatebomb", "armedwithbomb", true);
    ap.set_pre("detonatebomb", "nearenemy", true);
    ap.set_post("detonatebomb", "alive", false);
    ap.set_post("detonatebomb", "enemyalive", false);

    ap.set_pre("flee", "enemyvisible", true);
    ap.set_post("flee", "nearenemy", false);
    ap
}

fn soldier_start(ap: &mut ActionPlanner) -> WorldState {
    let mut fr = WorldState::new();
    fr.set(ap, "enemyvisible", false);
    fr.set(ap, "armedwithgun", true);
    fr.set(ap, "weaponloaded", false);
    fr.set(ap, "enemylinedup", false);
    fr.set(ap, "enemyalive", true);
    fr.set(ap, "armedwithbomb", false);
    fr.set(ap, "nearenemy", false);
    fr.set(ap, "alive", true);
    fr
}

fn soldier_goal(ap: &mut ActionPlanner) -> WorldState {
    let mut goal = WorldState::new();
    goal.set(ap, "enemyalive", false);
    goal.set(ap, "alive", true);
    goal
}

/// Replays a plan against the planner: every entry after the first must be
/// an action that can be taken in the state before it and leads to the
/// entry's state. Gives the sum of the actions' costs.
fn replay(ap: &ActionPlanner, start: &WorldState, plan: &AStarPlan) -> i32 {
    let entries: Vec<(&'static str, WorldState)> = plan.iter().map(|e| (e.0, e.1)).collect();
    assert!(!entries.is_empty());
    assert_eq!(entries[0].0, "root");
    assert!(entries[0].1 == *start);
    let (names, pre, costs, post) = ap.actions();
    let mut total = 0;
    for k in 1..entries.len() {
        let a = names.iter().position(|n| *n == entries[k].0).unwrap();
        assert!(entries[k - 1].1.matches(&pre[a]));
        assert!(entries[k - 1].1.apply_effect(&post[a]) == entries[k].1);
        total += costs[a];
    }
    total
}

#[test]
fn the_soldier_shoots() {
    let mut ap = soldier(true);
    let fr = soldier_start(&mut ap);
    let goal = soldier_goal(&mut ap);
    let mut astar = AStar::new();
    let plan = astar.plan(&ap, &fr, &goal).unwrap();
    assert_eq!(plan.cost(), 4);
    let names: Vec<&'static str> = plan.iter().map(|e| e.0).collect();
    assert_eq!(names, vec!["root", "scout", "load", "aim", "shoot"]);
    assert!(!names.contains(&"detonatebomb"));
    assert_eq!(replay(&ap, &fr, &plan), 4);
    let last = plan.iter().last().unwrap().1;
    assert!(last.matches(&goal));
    let mut want = fr;
    want.set(&mut ap, "enemyvisible", true);
    want.set(&mut ap, "weaponloaded", true);
    want.set(&mut ap, "enemylinedup", true);
    want.set(&mut ap, "enemyalive", false);
    assert!(last == want);
}

#[test]
fn the_search_can_be_run_again() {
    let mut ap = soldier(true);
    let fr = soldier_start(&mut ap);
    let goal = soldier_goal(&mut ap);
    let mut astar = AStar::new();
    let first = astar.plan(&ap, &fr, &goal).unwrap();
    let second = astar.plan(&ap, &fr, &goal).unwrap();
    assert_eq!(first.cost(), second.cost());
    let a: Vec<&'static str> = first.iter().map(|e| e.0).collect();
    let b: Vec<&'static str> = second.iter().map(|e| e.0).collect();
    assert_eq!(a, b);
}

#[test]
fn without_scout_there_is_no_plan() {
    let mut ap = soldier(false);
    let fr = soldier_start(&mut ap);
    let goal = soldier_goal(&mut ap);
    let mut astar = AStar::new();
    assert!(astar.plan(&ap, &fr, &goal).is_none());
}

#[test]
fn a_met_goal_needs_no_action() {
    let mut ap = soldier(true);
    let fr = soldier_start(&mut ap);
    let mut goal = WorldState::new();
    goal.set(&mut ap, "alive", true);
    let mut astar = AStar::new();
    let plan = astar.plan(&ap, &fr, &goal).unwrap();
    assert_eq!(plan.cost(), 0);
    let entries: Vec<(&'static str, WorldState)> = plan.iter().map(|e| (e.0, e.1)).collect();
    assert_eq!(entries.len(), 1);
    assert_eq!(entries[0].0, "root");
    assert!(entries[0].1 == fr);
}

#[test]
fn the_cheaper_of_two_ways_is_taken() {
    let mut ap = ActionPlanner::new();
    ap.set_post("leap", "there", true);
    ap.set_cost("leap", 5);
    ap.set_post("step_one", "halfway", true);
    ap.set_pre("step_two", "halfway", true);
    ap.set_post("step_two", "there", true);
    let mut start = WorldState::new();
    start.set(&mut ap, "there", false);
    start.set(&mut ap, "halfway", false);
    let mut goal = WorldState::new();
    goal.set(&mut ap, "there", true);
    let mut astar = AStar::new();
    let plan = astar.plan(&ap, &start, &goal).unwrap();
    assert_eq!(plan.cost(), 2);
    let names: Vec<&'static str> = plan.iter().map(|e| e.0).collect();
    assert_eq!(names, vec!["root", "step_one", "step_two"]);
    assert_eq!(replay(&ap, &start, &plan), 2);

    ap.set_cost("leap", 1);
    let plan = astar.plan(&ap, &start, &goal).unwrap();
    assert_eq!(plan.cost(), 1);
    let names: Vec<&'static str> = plan.iter().map(|e| e.0).collect();
    assert_eq!(names, vec!["root", "leap"]);
}

const SWITCHES: [&str; 12] = [
    "s0", "s1", "s2", "s3", "s4", "s5", "s6", "s7", "s8", "s9", "s10", "s11",
];

const FLIPS: [&str; 12] = [
    "f0", "f1", "f2", "f3", "f4", "f5", "f6", "f7", "f8", "f9", "f10", "f11",
];

#[test]
fn too_many_states_end_the_search() {
    // Twelve switches that can each be turned on give 4096 states; the goal
    // asks for something that no action brings about.
    let mut ap = ActionPlanner::new();
    for i in 0..12 {
        assert!(ap.set_post(FLIPS[i], SWITCHES[i], true));
    }
    let mut start = WorldState::new();
    for i in 0..12 {
        assert!(start.set(&mut ap, SWITCHES[i], false));
    }
    assert!(start.set(&mut ap, "never", false));
    let mut goal = WorldState::new();
    assert!(goal.set(&mut ap, "never", true));
    let mut astar = AStar::new();
    assert!(astar.plan(&ap, &start, &goal).is_none());
}

#[test]
fn a_small_unreachable_goal_gives_no_plan() {
    let mut ap = ActionPlanner::new();
    for i in 0..3 {
        assert!(ap.set_post(FLIPS[i], SWITCHES[i], true));
    }
    let mut start = WorldState::new();
    for i in 0..3 {
        assert!(start.set(&mut ap, SWITCHES[i], false));
    }
    assert!(start.set(&mut ap, "never", false));
    let mut goal = WorldState::new();
    assert!(goal.set(&mut ap, "never", true));
    let mut astar = AStar::new();
    assert!(astar.plan(&ap, &start, &goal).is_none());
}

#[test]
fn a_cost_too_large_to_add_ends_the_search() {
    let mut ap = ActionPlanner::new();
    ap.set_post("far", "a", true);
    ap.set_cost("far", i32::MAX);
    ap.set_pre("farther", "a", true);
    ap.set_post("farther", "b", true);
    ap.set_cost("farther", 1);
    let mut start = WorldState::new();
    start.set(&mut ap, "a", false);
    start.set(&mut ap, "b", false);
    let mut goal = WorldState::new();
    goal.set(&mut ap, "b", true);
    let mut astar = AStar::new();
    assert!(astar.plan(&ap, &start, &goal).is_none());
}

#[test]
fn a_new_plan_is_empty() {
    let plan = AStarPlan::new();
    assert_eq!(plan.cost(), 0);
    assert_eq!(plan.iter().count(), 0);
}

#[test]
fn the_heuristic_counts_differing_cared_atoms() {
    let mut from = WorldState::new();
    from.set_idx(0, true);
    from.set_idx(1, false);
    from.set_idx(2, true);
    let mut to = WorldState::new();
    to.set_idx(0, false);
    to.set_idx(1, true);
    assert_eq!(AStar::calc_heuristic(&from, &to), 2);
    to.set_idx(2, true);
    assert_eq!(AStar::calc_heuristic(&from, &to), 2);
    to.set_idx(3, true);
    assert_eq!(AStar::calc_heuristic(&from, &to), 3);
    assert_eq!(AStar::calc_heuristic(&from, &from), 0);
    assert_eq!(AStar::calc_heuristic(&from, &WorldState::new()), 0);
}

#[test]
fn the_heuristic_is_below_the_cost_of_the_plan() {
    let mut ap = soldier(true);
    let fr = soldier_start(&mut ap);
    let goal = soldier_goal(&mut ap);
    let mut astar = AStar::new();
    let plan = astar.plan(&ap, &fr, &goal).unwrap();
    assert_eq!(AStar::calc_heuristic(&fr, &goal), 1);
    assert!(AStar::calc_heuristic(&fr, &goal) <= plan.cost());
}

#[test]
fn transitions_follow_the_actions_in_order() {
    let mut ap = soldier(true);
    let fr = soldier_start(&mut ap);
    let (names, pre, costs, post) = ap.actions();
    let rows: Vec<(&'static str, WorldState, i32, WorldState)> =
        (0..names.len()).map(|i| (names[i], pre[i], costs[i], post[i])).collect();
    let mut it = StateTransIter::new(&fr, rows);
    let (name, cost, to) = it.next().unwrap();
    assert_eq!(name, "scout");
    assert_eq!(cost, 1);
    let mut want = fr;
    want.set_idx(1, true);
    assert!(to == want);
    let (name, cost, to) = it.next().unwrap();
    assert_eq!(name, "load");
    assert_eq!(cost, 1);
    let mut want = fr;
    want.set_idx(3, true);
    assert!(to == want);
    assert!(it.next().is_none());
    assert!(it.next().is_none());
}

const BITS: [&str; 11] = ["b0", "b1", "b2", "b3", "b4", "b5", "b6", "b7", "b8", "b9", "b10"];

const INCS: [&str; 11] = [
    "inc0", "inc1", "inc2", "inc3", "inc4", "inc5", "inc6", "inc7", "inc8", "inc9", "inc10",
];

/// A binary counter of `width` bits: in every state exactly one action can
/// be taken, the one that adds 1.
fn counter(width: usize) -> (ActionPlanner, WorldState) {
    let mut ap = ActionPlanner::new();
    for k in 0..width {
        for low in 0..k {
            assert!(ap.set_pre(INCS[k], BITS[low], true));
            assert!(ap.set_post(INCS[k], BITS[low], false));
        }
        assert!(ap.set_pre(INCS[k], BITS[k], false));
        assert!(ap.set_post(INCS[k], BITS[k], true));
    }
    let mut start = WorldState::new();
    for k in 0..width {
        assert!(start.set(&mut ap, BITS[k], false));
    }
    (ap, start)
}

#[test]
fn a_long_way_is_found() {
    let (mut ap, start) = counter(10);
    let mut goal = WorldState::new();
    assert!(goal.set(&mut ap, BITS[9], true));
    let mut astar = AStar::new();
    let plan = astar.plan(&ap, &start, &goal).unwrap();
    assert_eq!(plan.cost(), 512);
    assert_eq!(plan.iter().count(), 513);
    assert_eq!(replay(&ap, &start, &plan), 512);
    assert_eq!(plan.iter().last().unwrap().0, "inc9");
}

#[test]
fn the_last_state_within_the_closed_bound_is_found() {
    let (mut ap, start) = counter(11);
    let mut goal = WorldState::new();
    for k in 0..10 {
        assert!(goal.set(&mut ap, BITS[k], true));
    }
    let mut astar = AStar::new();
    let plan = astar.plan(&ap, &start, &goal).unwrap();
    assert_eq!(plan.cost(), 1023);
    assert_eq!(replay(&ap, &start, &plan), 1023);
}

#[test]
fn a_full_closed_set_ends_the_search() {
    // One step more than the closed set has room for.
    let (mut ap, start) = counter(11);
    let mut goal = WorldState::new();
    assert!(goal.set(&mut ap, BITS[10], true));
    let mut astar = AStar::new();
    assert!(astar.plan(&ap, &start, &goal).is_none());
}

#[test]
fn an_exhausted_counter_gives_no_plan() {
    let (mut ap, start) = counter(5);
    let mut goal = WorldState::new();
    assert!(start.matches(&goal));
    assert!(goal.set(&mut ap, "never", true));
    let mut astar = AStar::new();
    assert!(astar.plan(&ap, &start, &goal).is_none());
}

#[test]
fn the_cheap_way_in_two_steps_is_taken() {
    let mut ap = ActionPlanner::new();
    ap.set_post("expensive", "g", true);
    ap.set_cost("expensive", 5);
    ap.set_post("step", "m", true);
    ap.set_pre("cheap", "m", true);
    ap.set_post("cheap", "g", true);
    let mut start = WorldState::new();
    start.set(&mut ap, "g", false);
    start.set(&mut ap, "m", false);
    let mut goal = WorldState::new();
    goal.set(&mut ap, "g", true);
    let plan = AStar::new().plan(&ap, &start, &goal).unwrap();
    assert_eq!(plan.cost(), 2);
    let names: Vec<&'static str> = plan.iter().map(|e| e.0).collect();
    assert_eq!(names, vec!["root", "step", "cheap"]);
    let last = plan.iter().last().unwrap().1;
    assert!(last.values == gpgoap::BitSetU64::new_with(0b11));
}

#[test]
fn a_plan_behind_too_many_states_is_not_found() {
    // The last action asks for all eleven switches: the 2047 states with
    // fewer switches on all come before the goal, and the closed set has
    // room for 1024.
    let mut ap = ActionPlanner::new();
    for i in 0..11 {
        assert!(ap.set_post(FLIPS[i], SWITCHES[i], true));
        assert!(ap.set_pre("fin", SWITCHES[i], true));
    }
    assert!(ap.set_post("fin", "z", true));
    let mut start = WorldState::new();
    for i in 0..11 {
        assert!(start.set(&mut ap, SWITCHES[i], false));
    }
    assert!(start.set(&mut ap, "z", false));
    let mut goal = WorldState::new();
    assert!(goal.set(&mut ap, "z", true));
    assert!(AStar::new().plan(&ap, &start, &goal).is_none());
}

#[test]
fn an_earlier_search_leaves_no_trace() {
    let mut ap = soldier(true);
    let fr = soldier_start(&mut ap);
    let goal = soldier_goal(&mut ap);
    // A search that ended on a full set, and one that found nothing.
    let mut used = AStar::new();
    let (mut counter_ap, counter_start) = counter(11);
    let mut far = WorldState::new();
    assert!(far.set(&mut counter_ap, BITS[10], true));
    assert!(used.plan(&counter_ap, &counter_start, &far).is_none());
    let mut lame = soldier(false);
    let lame_start = soldier_start(&mut lame);
    let lame_goal = soldier_goal(&mut lame);
    assert!(used.plan(&lame, &lame_start, &lame_goal).is_none());

    let again = used.plan(&ap, &fr, &goal).unwrap();
    let fresh = AStar::new().plan(&ap, &fr, &goal).unwrap();
    assert_eq!(again.cost(), fresh.cost());
    let a: Vec<(&'static str, u64, u64)> =
        again.iter().map(|e| (e.0, e.1.values.bits, e.1.dontcare.bits)).collect();
    let b: Vec<(&'static str, u64, u64)> =
        fresh.iter().map(|e| (e.0, e.1.values.bits, e.1.dontcare.bits)).collect();
    assert_eq!(a, b);
}

#[test]
fn a_cost_below_zero_is_taken_as_it_is() {
    let mut ap = ActionPlanner::new();
    ap.set_post("gift", "a", true);
    ap.set_cost("gift", -3);
    let mut start = WorldState::new();
    start.set(&mut ap, "a", false);
    let mut goal = WorldState::new();
    goal.set(&mut ap, "a", true);
    let plan = AStar::new().plan(&ap, &start, &goal).unwrap();
    assert_eq!(plan.cost(), -3);
    assert_eq!(replay(&ap, &start, &plan), -3);
}
