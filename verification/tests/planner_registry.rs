use gpgoap::{ActionPlanner, WorldState};

const ATOMS: [&str; 70] = [
    "atom_0", "atom_1", "atom_2", "atom_3", "atom_4", "atom_5", "atom_6", "atom_7", "atom_8",
    "atom_9", "atom_10", "atom_11", "atom_12", "atom_13", "atom_14", "atom_15", "atom_16",
    "atom_17", "atom_18", "atom_19", "atom_20", "atom_21", "atom_22", "atom_23", "atom_24",
    "atom_25", "atom_26", "atom_27", "atom_28", "atom_29", "atom_30", "atom_31", "atom_32",
    "atom_33", "atom_34", "atom_35", "atom_36", "atom_37", "atom_38", "atom_39", "atom_40",
    "atom_41", "atom_42", "atom_43", "atom_44", "atom_45", "atom_46", "atom_47", "atom_48",
    "atom_49", "atom_50", "atom_51", "atom_52", "atom_53", "atom_54", "atom_55", "atom_56",
    "atom_57", "atom_58", "atom_59", "atom_60", "atom_61", "atom_62", "atom_63", "atom_64",
    "atom_65", "atom_66", "atom_67", "atom_68", "atom_69",
];

#[test]
fn it_works() {
    let mut planner = ActionPlanner::new();
    assert_eq!(Some(0), planner.idx_for_atom_name("atom_0"));
    assert_eq!(Some(1), planner.idx_for_atom_name("atom_1"));
    assert_eq!(Some(2), planner.idx_for_atom_name("atom_2"));
    assert_eq!(Some(3), planner.idx_for_atom_name("atom_3"));
    assert_eq!(Some(4), planner.idx_for_atom_name("atom_4"));
    assert_eq!(Some(5), planner.idx_for_atom_name("atom_5"));
    assert_eq!(Some(6), planner.idx_for_atom_name("atom_6"));
    assert_eq!(Some(7), planner.idx_for_atom_name("atom_7"));
    assert_eq!(Some(8), planner.idx_for_atom_name("atom_8"));
    assert_eq!(Some(9), planner.idx_for_atom_name("atom_9"));
    assert_eq!(Some(10), planner.idx_for_atom_name("atom_10"));
    assert_eq!(Some(11), planner.idx_for_atom_name("atom_11"));
    assert_eq!(Some(12), planner.idx_for_atom_name("atom_12"));
    assert_eq!(Some(13), planner.idx_for_atom_name("atom_13"));
    assert_eq!(Some(14), planner.idx_for_atom_name("atom_14"));
    assert_eq!(Some(15), planner.idx_for_atom_name("atom_15"));
    assert_eq!(Some(16), planner.idx_for_atom_name("atom_16"));
    assert_eq!(Some(17), planner.idx_for_atom_name("atom_17"));
    assert_eq!(Some(18), planner.idx_for_atom_name("atom_18"));
    assert_eq!(Some(19), planner.idx_for_atom_name("atom_19"));
    assert_eq!(Some(20), planner.idx_for_atom_name("atom_20"));
    assert_eq!(Some(21), planner.idx_for_atom_name("atom_21"));
    assert_eq!(Some(22), planner.idx_for_atom_name("atom_22"));
    assert_eq!(Some(23), planner.idx_for_atom_name("atom_23"));
    assert_eq!(Some(24), planner.idx_for_atom_name("atom_24"));
    assert_eq!(Some(25), planner.idx_for_atom_name("atom_25"));
    assert_eq!(Some(26), planner.idx_for_atom_name("atom_26"));
    assert_eq!(Some(27), planner.idx_for_atom_name("atom_27"));
    assert_eq!(Some(28), planner.idx_for_atom_name("atom_28"));
    assert_eq!(Some(29), planner.idx_for_atom_name("atom_29"));
    assert_eq!(Some(30), planner.idx_for_atom_name("atom_30"));
    assert_eq!(Some(31), planner.idx_for_atom_name("atom_31"));
    assert_eq!(Some(32), planner.idx_for_atom_name("atom_32"));
    assert_eq!(Some(33), planner.idx_for_atom_name("atom_33"));
    assert_eq!(Some(34), planner.idx_for_atom_name("atom_34"));
    assert_eq!(Some(35), planner.idx_for_atom_name("atom_35"));
    assert_eq!(Some(36), planner.idx_for_atom_name("atom_36"));
    assert_eq!(Some(37), planner.idx_for_atom_name("atom_37"));
    assert_eq!(Some(38), planner.idx_for_atom_name("atom_38"));
    assert_eq!(Some(39), planner.idx_for_atom_name("atom_39"));
    assert_eq!(Some(40), planner.idx_for_atom_name("atom_40"));
    assert_eq!(Some(41), planner.idx_for_atom_name("atom_41"));
    assert_eq!(Some(42), planner.idx_for_atom_name("atom_42"));
    assert_eq!(Some(43), planner.idx_for_atom_name("atom_43"));
    assert_eq!(Some(44), planner.idx_for_atom_name("atom_44"));
    assert_eq!(Some(45), planner.idx_for_atom_name("atom_45"));
    assert_eq!(Some(46), planner.idx_for_atom_name("atom_46"));
    assert_eq!(Some(47), planner.idx_for_atom_name("atom_47"));
    assert_eq!(Some(48), planner.idx_for_atom_name("atom_48"));
    assert_eq!(Some(49), planner.idx_for_atom_name("atom_49"));
    assert_eq!(Some(50), planner.idx_for_atom_name("atom_50"));
    assert_eq!(Some(51), planner.idx_for_atom_name("atom_51"));
    assert_eq!(Some(52), planner.idx_for_atom_name("atom_52"));
    assert_eq!(Some(53), planner.idx_for_atom_name("atom_53"));
    assert_eq!(Some(54), planner.idx_for_atom_name("atom_54"));
    assert_eq!(Some(55), planner.idx_for_atom_name("atom_55"));
    assert_eq!(Some(56), planner.idx_for_atom_name("atom_56"));
    assert_eq!(Some(57), planner.idx_for_atom_name("atom_57"));
    assert_eq!(Some(58), planner.idx_for_atom_name("atom_58"));
    assert_eq!(Some(59), planner.idx_for_atom_name("atom_59"));
    assert_eq!(Some(60), planner.idx_for_atom_name("atom_60"));
    assert_eq!(Some(61), planner.idx_for_atom_name("atom_61"));
    assert_eq!(Some(62), planner.idx_for_atom_name("atom_62"));
    assert_eq!(Some(63), planner.idx_for_atom_name("atom_63"));
    assert_eq!(None, planner.idx_for_atom_name("atom_64"));
    assert_eq!(None, planner.idx_for_atom_name("atom_65"));
    assert_eq!(None, planner.idx_for_atom_name("atom_66"));
    assert_eq!(None, planner.idx_for_atom_name("atom_67"));
    assert_eq!(None, planner.idx_for_atom_name("atom_68"));
    assert_eq!(None, planner.idx_for_atom_name("atom_69"));

    assert_eq!(Some(0), planner.idx_for_atom_name("atom_0"));
}

#[test]
fn registering_twice_gives_the_same_index() {
    let mut planner = ActionPlanner::new();
    assert_eq!(Some(0), planner.idx_for_atom_name("door_open"));
    assert_eq!(Some(1), planner.idx_for_atom_name("has_key"));
    assert_eq!(Some(0), planner.idx_for_atom_name("door_open"));
    assert_eq!(Some(1), planner.idx_for_atom_name("has_key"));
    assert_eq!(2, planner.atom_names().len());
    assert_eq!(Some(0), planner.idx_for_action_name("open"));
    assert_eq!(Some(0), planner.idx_for_action_name("open"));
    assert_eq!(1, planner.actions().0.len());
}

#[test]
fn a_sixty_fifth_action_is_refused() {
    let mut planner = ActionPlanner::new();
    for (i, name) in ATOMS.iter().enumerate().take(64) {
        assert_eq!(Some(i), planner.idx_for_action_name(name));
    }
    assert_eq!(None, planner.idx_for_action_name(ATOMS[64]));
    assert_eq!(64, planner.actions().0.len());
    for (i, name) in ATOMS.iter().enumerate().take(64) {
        assert_eq!(Some(i), planner.idx_for_action_name(name));
        assert_eq!(*name, planner.name(i));
    }
}

#[test]
fn a_full_atom_table_fails_the_setters() {
    let mut planner = ActionPlanner::new();
    for name in ATOMS.iter().take(64) {
        assert!(planner.idx_for_atom_name(name).is_some());
    }
    assert!(!planner.set_pre("act", "one_too_many", true));
    assert!(!planner.set_post("act", "one_too_many", true));
    // The action itself had room and was registered.
    assert_eq!(1, planner.actions().0.len());
    assert!(planner.act_pre()[0] == WorldState::new());
    assert!(*planner.post(0) == WorldState::new());
    let mut state = WorldState::new();
    assert!(!state.set(&mut planner, "one_too_many", true));
    assert!(state == WorldState::new());
    assert!(state.set(&mut planner, "atom_3", true));
    assert!(state.values.get(3));
}

#[test]
fn a_full_action_table_fails_the_setters() {
    let mut planner = ActionPlanner::new();
    for name in ATOMS.iter().take(64) {
        assert!(planner.idx_for_action_name(name).is_some());
    }
    assert!(!planner.set_cost("one_too_many", 3));
    assert!(!planner.set_pre("one_too_many", "a", true));
    assert!(!planner.set_post("one_too_many", "b", true));
    assert_eq!(64, planner.actions().0.len());
    // The atoms had room and were registered.
    assert_eq!(Some(0), planner.idx_for_atom_name("a"));
    assert_eq!(Some(1), planner.idx_for_atom_name("b"));
}

#[test]
fn a_new_action_costs_one_and_asks_nothing() {
    let mut planner = ActionPlanner::new();
    assert_eq!(Some(0), planner.idx_for_action_name("wait"));
    assert_eq!(1, planner.cost(0));
    assert_eq!("wait", planner.name(0));
    assert!(planner.act_pre()[0] == WorldState::new());
    assert!(*planner.post(0) == WorldState::new());
}

#[test]
fn setters_store_what_they_are_given() {
    let mut planner = ActionPlanner::new();
    assert!(planner.set_pre("shoot", "loaded", true));
    assert!(planner.set_post("shoot", "loaded", false));
    assert!(planner.set_post("shoot", "enemy_alive", false));
    assert!(planner.set_cost("shoot", 7));
    assert!(planner.set_cost("reload", 2));
    let (names, pre, costs, post) = planner.actions();
    assert_eq!(names, &["shoot", "reload"]);
    assert_eq!(costs, &[7, 2]);
    assert_eq!(planner.cost(0), 7);
    assert_eq!(planner.cost(1), 2);
    let mut want_pre = WorldState::new();
    want_pre.set_idx(0, true);
    assert!(pre[0] == want_pre);
    assert!(pre[1] == WorldState::new());
    let mut want_post = WorldState::new();
    want_post.set_idx(0, false);
    want_post.set_idx(1, false);
    assert!(post[0] == want_post);
    assert!(*planner.post(0) == want_post);
    assert_eq!(planner.atom_names(), &["loaded", "enemy_alive"]);
    // Setting again with another value overwrites.
    assert!(planner.set_pre("shoot", "loaded", false));
    let mut overwritten = WorldState::new();
    overwritten.set_idx(0, false);
    assert!(planner.act_pre()[0] == overwritten);
}

#[test]
fn clear_empties_the_planner() {
    let mut planner = ActionPlanner::new();
    assert!(planner.set_pre("a", "x", true));
    planner.clear();
    assert_eq!(0, planner.actions().0.len());
    assert_eq!(0, planner.atom_names().len());
    assert_eq!(Some(0), planner.idx_for_atom_name("y"));
    let fresh = ActionPlanner::default();
    assert_eq!(0, fresh.actions().0.len());
}

#[test]
fn a_new_state_knows_nothing() {
    let state = WorldState::new();
    for i in 0..64 {
        assert!(state.dontcare.get(i));
        assert!(!state.values.get(i));
    }
    assert!(WorldState::default() == state);
}

#[test]
fn set_narrows_one_atom() {
    let mut planner = ActionPlanner::new();
    let mut state = WorldState::new();
    assert!(state.set(&mut planner, "a", true));
    assert!(state.set(&mut planner, "b", false));
    assert!(!state.dontcare.get(0) && state.values.get(0));
    assert!(!state.dontcare.get(1) && !state.values.get(1));
    for i in 2..64 {
        assert!(state.dontcare.get(i));
        assert!(!state.values.get(i));
    }
    let copy = state;
    assert!(state.set(&mut planner, "a", true));
    assert!(state == copy);
    assert!(state.set(&mut planner, "a", false));
    assert!(!state.dontcare.get(0) && !state.values.get(0));
    state.clear();
    assert!(state == WorldState::new());
}

#[test]
fn an_empty_effect_changes_nothing() {
    let mut state = WorldState::new();
    state.set_idx(3, true);
    state.set_idx(9, false);
    assert!(state.apply_effect(&WorldState::new()) == state);
    let odd = WorldState {
        values: gpgoap::BitSetU64::new_with(0xdead_beef),
        dontcare: gpgoap::BitSetU64::new_with(0x0f0f_0000_ffff_0000),
    };
    assert!(odd.apply_effect(&WorldState::new()) == odd);
}

#[test]
fn an_effect_overwrites_what_it_pins() {
    let mut state = WorldState::new();
    state.set_idx(0, true);
    state.set_idx(1, true);
    let mut effect = WorldState::new();
    effect.set_idx(1, false);
    effect.set_idx(2, true);
    let mut want = WorldState::new();
    want.set_idx(0, true);
    want.set_idx(1, false);
    want.set_idx(2, true);
    assert!(state.apply_effect(&effect) == want);
}

#[test]
fn a_precondition_is_met_by_known_true_only() {
    let mut pre = WorldState::new();
    pre.set_idx(4, true);
    let mut yes = WorldState::new();
    yes.set_idx(4, true);
    yes.set_idx(5, false);
    assert!(yes.matches(&pre));
    let mut no = WorldState::new();
    no.set_idx(4, false);
    assert!(!no.matches(&pre));
    let unknown = WorldState::new();
    assert!(!unknown.matches(&pre));
    // Every state meets a reference that cares about nothing.
    assert!(no.matches(&WorldState::new()));
}

#[test]
fn a_state_is_listed_by_atom_names() {
    let mut planner = ActionPlanner::new();
    let mut state = WorldState::new();
    assert!(state.set(&mut planner, "armed", true));
    assert!(state.set(&mut planner, "hungry", false));
    assert_eq!(Some(2), planner.idx_for_atom_name("unused"));
    assert_eq!(state.debug_fmt(&planner).render(), "+armed\n-hungry\n\n");
    assert_eq!(WorldState::new().debug_fmt(&planner).render(), "\n");
    // An atom that has a value and no name is listed with an empty name.
    state.set_idx(7, true);
    state.set_idx(9, false);
    assert_eq!(state.debug_fmt(&planner).render(), "+armed\n-hungry\n+\n-\n\n");
}
