//! World states and the registry of atoms and actions.

use crate::bitset::{bit_of, lemma_bits_after_write, lemma_same_flags, BitSetU64};
use vstd::prelude::*;
use vstd::string::StringExecFns;

verus! {

/// The number of atoms that a planner can name.
pub const MAX_ATOMS: usize = 64;

/// The number of actions that a planner can hold.
pub const MAX_ACTIONS: usize = 64;

/// A partial assignment of truth values to at most 64 atoms.
///
/// Atom `i` is unconstrained where `dontcare` holds flag `i`; elsewhere
/// `values` holds its truth value.
#[derive(PartialEq, Eq, Clone, Copy, Structural)]
pub struct WorldState {
    pub values: BitSetU64,
    pub dontcare: BitSetU64,
}

impl WorldState {
    /// Whether atom `i` has a definite value.
    pub open spec fn known(self, i: int) -> bool {
        0 <= i < 64 && !self.dontcare.contains(i)
    }

    /// The value flag of atom `i`.
    pub open spec fn value(self, i: int) -> bool {
        self.values.contains(i)
    }

    /// The state in which nothing is known.
    pub open spec fn blank() -> WorldState {
        WorldState { values: BitSetU64 { bits: 0 }, dontcare: BitSetU64 { bits: u64::MAX } }
    }

    /// This state narrowed at atom `idx` to `value`.
    pub open spec fn with_atom(self, idx: int, value: bool) -> WorldState {
        let mask = 1u64 << (idx as u64);
        WorldState {
            values: BitSetU64 {
                bits: if value {
                    self.values@ | mask
                } else {
                    self.values@ & !mask
                },
            },
            dontcare: BitSetU64 { bits: self.dontcare@ & !mask },
        }
    }

    /// Whether this state agrees with `reference` on every atom that
    /// `reference` cares about. Only the value flags of this state are read.
    pub open spec fn satisfies(self, reference: WorldState) -> bool {
        self.values@ & !reference.dontcare@ == reference.values@ & !reference.dontcare@
    }

    /// The state that results from applying `effect` to this state.
    pub open spec fn apply(self, effect: WorldState) -> WorldState {
        WorldState {
            values: BitSetU64 {
                bits: (self.values@ & effect.dontcare@) | (effect.values@ & !effect.dontcare@),
            },
            dontcare: BitSetU64 { bits: self.dontcare@ & effect.dontcare@ },
        }
    }

    /// A state in which no atom has a definite value.
    pub fn new() -> (r: Self)
        ensures
            r == Self::blank(),
            forall|i: int| 0 <= i < 64 ==> !r.known(i),
            forall|i: int| !r.value(i),
    {
        WorldState { values: BitSetU64::empty(), dontcare: BitSetU64::full() }
    }

    /// Makes every atom unconstrained again.
    pub fn clear(&mut self)
        ensures
            *final(self) == Self::blank(),
    {
        *self = WorldState::new();
    }

    /// Narrows atom `idx` to `value`.
    pub fn set_idx(&mut self, idx: usize, value: bool) -> (r: bool)
        requires
            idx < 64,
        ensures
            r,
            *final(self) == old(self).with_atom(idx as int, value),
            final(self).known(idx as int),
            final(self).value(idx as int) == value,
            forall|i: int| i != idx ==> #[trigger] final(self).known(i) == old(self).known(i),
            forall|i: int| i != idx ==> #[trigger] final(self).value(i) == old(self).value(i),
    {
        self.values.set(idx, value);
        self.dontcare.disable(idx);
        true
    }

    /// Whether this state meets `reference`, a precondition or a goal.
    pub fn matches(&self, reference: &WorldState) -> (r: bool)
        ensures
            r == self.satisfies(*reference),
            r <==> forall|i: int|
                reference.known(i) ==> self.value(i) == #[trigger] reference.value(i),
    {
        let care = reference.dontcare ^ BitSetU64::full();
        proof {
            let d = reference.dontcare@;
            assert(d ^ 0xffff_ffff_ffff_ffffu64 == !d) by (bit_vector);
            lemma_satisfies_by_atoms(*self, *reference);
        }
        (reference.values & care) == (self.values & care)
    }

    /// Applies `effect`: atoms that the effect pins take its values and
    /// become known, the others stay as they are.
    pub fn apply_effect(&self, effect: &WorldState) -> (r: WorldState)
        ensures
            r == self.apply(*effect),
            effect.dontcare@ == u64::MAX ==> r == *self,
            forall|i: int|
                0 <= i < 64 ==> #[trigger] r.known(i) == (effect.known(i) || self.known(i)),
            forall|i: int|
                0 <= i < 64 ==> #[trigger] r.value(i) == if effect.known(i) {
                    effect.value(i)
                } else {
                    self.value(i)
                },
    {
        let unaffected = effect.dontcare;
        let affected = unaffected ^ BitSetU64::full();
        let mut next = *self;
        next.values = (self.values & unaffected) | (effect.values & affected);
        next.dontcare = next.dontcare & unaffected;
        proof {
            let d = effect.dontcare@;
            assert(d ^ 0xffff_ffff_ffff_ffffu64 == !d) by (bit_vector);
            lemma_apply_flags(*self, *effect);
            if effect.dontcare@ == u64::MAX {
                lemma_empty_effect_changes_nothing(*self, *effect);
            }
        }
        next
    }
}

/// A state meets a reference exactly if it has, for every atom that the
/// reference knows, the value flag that the reference has.
pub proof fn lemma_satisfies_by_atoms(state: WorldState, reference: WorldState)
    ensures
        state.satisfies(reference) <==> forall|i: int|
            reference.known(i) ==> state.value(i) == #[trigger] reference.value(i),
{
    let s = state.values@;
    let r = reference.values@;
    let d = reference.dontcare@;
    let a = s & !d;
    let b = r & !d;
    assert forall|i: int| 0 <= i < 64 implies (bit_of(a, i) == (reference.known(i) && state.value(i)))
        && (bit_of(b, i) == (reference.known(i) && reference.value(i))) by {
        let k = i as u64;
        assert((((s & !d) >> k) & 1 == 1) == (!((d >> k) & 1 == 1) && ((s >> k) & 1 == 1)))
            by (bit_vector)
            requires
                k < 64,
        ;
        assert((((r & !d) >> k) & 1 == 1) == (!((d >> k) & 1 == 1) && ((r >> k) & 1 == 1)))
            by (bit_vector)
            requires
                k < 64,
        ;
    }
    if forall|i: int| reference.known(i) ==> state.value(i) == #[trigger] reference.value(i) {
        assert forall|i: int| 0 <= i < 64 implies bit_of(a, i) == bit_of(b, i) by {
            if reference.known(i) {
                assert(state.value(i) == reference.value(i));
            }
        }
        lemma_same_flags(a, b);
    }
    if state.satisfies(reference) {
        assert forall|i: int| reference.known(i) implies state.value(i) == #[trigger] reference.value(
            i,
        ) by {
            assert(bit_of(a, i) == bit_of(b, i));
        }
    }
}

/// What applying an effect does to each atom.
pub proof fn lemma_apply_flags(from: WorldState, effect: WorldState)
    ensures
        forall|i: int|
            0 <= i < 64 ==> #[trigger] from.apply(effect).known(i) == (effect.known(i)
                || from.known(i)),
        forall|i: int|
            0 <= i < 64 ==> #[trigger] from.apply(effect).value(i) == if effect.known(i) {
                effect.value(i)
            } else {
                from.value(i)
            },
{
    let a = from.values@;
    let fd = from.dontcare@;
    let v = effect.values@;
    let d = effect.dontcare@;
    assert forall|i: int| 0 <= i < 64 implies #[trigger] from.apply(effect).known(i) == (
    effect.known(i) || from.known(i)) by {
        let j = i as u64;
        assert((((fd & d) >> j) & 1 == 1) == (((fd >> j) & 1 == 1) && ((d >> j) & 1 == 1)))
            by (bit_vector)
            requires
                j < 64,
        ;
    }
    assert forall|i: int| 0 <= i < 64 implies #[trigger] from.apply(effect).value(i) == if effect.known(
        i,
    ) {
        effect.value(i)
    } else {
        from.value(i)
    } by {
        let j = i as u64;
        assert(((((a & d) | (v & !d)) >> j) & 1 == 1) == if (d >> j) & 1 == 1 {
            (a >> j) & 1 == 1
        } else {
            (v >> j) & 1 == 1
        }) by (bit_vector)
            requires
                j < 64,
        ;
    }
}

impl Default for WorldState {
    fn default() -> (r: Self)
        ensures
            r == Self::blank(),
    {
        WorldState::new()
    }
}

/// An action as the planner's model holds it.
pub struct ActionView {
    pub name: Seq<char>,
    pub pre: WorldState,
    pub post: WorldState,
    pub cost: int,
}

/// The planner's model: the atom names in registration order, and the
/// actions in registration order.
pub struct PlannerView {
    pub atoms: Seq<Seq<char>>,
    pub actions: Seq<ActionView>,
}

/// The index under which `name` is found in `names` once it has been
/// registered there, if it can be: its place, or the next free one.
pub open spec fn slot_of(names: Seq<Seq<char>>, name: Seq<char>) -> Option<int> {
    if names.contains(name) {
        Some(names.index_of(name))
    } else if names.len() < 64 {
        Some(names.len() as int)
    } else {
        None
    }
}

/// `names` after `name` has been registered in it.
pub open spec fn registered(names: Seq<Seq<char>>, name: Seq<char>) -> Seq<Seq<char>> {
    if names.contains(name) || names.len() >= 64 {
        names
    } else {
        names.push(name)
    }
}

impl PlannerView {
    /// The model of a planner that holds nothing.
    pub open spec fn empty() -> PlannerView {
        PlannerView { atoms: Seq::empty(), actions: Seq::empty() }
    }

    /// The names of the actions, in registration order.
    pub open spec fn action_names(self) -> Seq<Seq<char>> {
        self.actions.map_values(|a: ActionView| a.name)
    }

    /// At most 64 atoms and 64 actions, and no name registered twice.
    pub open spec fn wf(self) -> bool {
        &&& self.atoms.len() <= 64
        &&& self.actions.len() <= 64
        &&& self.atoms.no_duplicates()
        &&& self.action_names().no_duplicates()
    }

    /// The index that atom `name` has once it has been registered, if it can
    /// be.
    pub open spec fn atom_slot(self, name: Seq<char>) -> Option<int> {
        slot_of(self.atoms, name)
    }

    /// The index that action `name` has once it has been registered, if it
    /// can be.
    pub open spec fn action_slot(self, name: Seq<char>) -> Option<int> {
        slot_of(self.action_names(), name)
    }

    /// The model after atom `name` has been registered.
    pub open spec fn with_atom(self, name: Seq<char>) -> PlannerView {
        PlannerView { atoms: registered(self.atoms, name), actions: self.actions }
    }

    /// The model after action `name` has been registered: a new action
    /// costs 1, requires nothing and changes nothing.
    pub open spec fn with_action(self, name: Seq<char>) -> PlannerView {
        if self.action_names().contains(name) || self.actions.len() >= 64 {
            self
        } else {
            PlannerView {
                atoms: self.atoms,
                actions: self.actions.push(
                    ActionView {
                        name: name,
                        pre: WorldState::blank(),
                        post: WorldState::blank(),
                        cost: 1,
                    },
                ),
            }
        }
    }

    /// The model after the precondition of action `action` has been narrowed
    /// at atom `atom`.
    pub open spec fn with_pre(self, action: int, atom: int, value: bool) -> PlannerView {
        let a = self.actions[action];
        PlannerView {
            atoms: self.atoms,
            actions: self.actions.update(
                action,
                ActionView { name: a.name, pre: a.pre.with_atom(atom, value), post: a.post, cost: a.cost },
            ),
        }
    }

    /// The model after the effect of action `action` has been narrowed at
    /// atom `atom`.
    pub open spec fn with_post(self, action: int, atom: int, value: bool) -> PlannerView {
        let a = self.actions[action];
        PlannerView {
            atoms: self.atoms,
            actions: self.actions.update(
                action,
                ActionView { name: a.name, pre: a.pre, post: a.post.with_atom(atom, value), cost: a.cost },
            ),
        }
    }

    /// The model after action `action` has been given the cost `cost`.
    pub open spec fn with_cost(self, action: int, cost: int) -> PlannerView {
        let a = self.actions[action];
        PlannerView {
            atoms: self.atoms,
            actions: self.actions.update(
                action,
                ActionView { name: a.name, pre: a.pre, post: a.post, cost: cost },
            ),
        }
    }

    /// The model after a precondition has been set by names: both names are
    /// registered, and the precondition is narrowed where both have a slot.
    pub open spec fn after_set_pre(self, action: Seq<char>, atom: Seq<char>, value: bool) -> PlannerView {
        let both = self.with_action(action).with_atom(atom);
        match (self.action_slot(action), self.atom_slot(atom)) {
            (Some(a), Some(t)) => both.with_pre(a, t, value),
            _ => both,
        }
    }

    /// As `after_set_pre`, for an effect.
    pub open spec fn after_set_post(self, action: Seq<char>, atom: Seq<char>, value: bool) -> PlannerView {
        let both = self.with_action(action).with_atom(atom);
        match (self.action_slot(action), self.atom_slot(atom)) {
            (Some(a), Some(t)) => both.with_post(a, t, value),
            _ => both,
        }
    }

    /// The model after a cost has been set by name: the action is registered
    /// and, where it has a slot, given the cost.
    pub open spec fn after_set_cost(self, action: Seq<char>, cost: int) -> PlannerView {
        match self.action_slot(action) {
            Some(a) => self.with_action(action).with_cost(a, cost),
            None => self,
        }
    }
}

/// In a sequence without duplicates an element's index is the one place
/// where it stands.
pub proof fn lemma_index_of_unique(names: Seq<Seq<char>>, i: int)
    requires
        names.no_duplicates(),
        0 <= i < names.len(),
    ensures
        names.contains(names[i]),
        names.index_of(names[i]) == i,
{
    let j = names.index_of(names[i]);
    assert(0 <= j < names.len() && names[j] == names[i]);
}

/// Compares two strings with `str`'s `==`, which holds exactly of strings
/// made of the same characters.
#[verifier::external_body]
fn same_name(a: &str, b: &str) -> (r: bool)
    ensures
        r == (a@ == b@),
{
    a == b
}

/// The first index at which `name` stands in `names`.
fn position(names: &Vec<&'static str>, name: &str) -> (r: Option<usize>)
    ensures
        match r {
            Some(i) => i < names.len() && names[i as int]@ == name@ && forall|j: int|
                0 <= j < i ==> names[j]@ != name@,
            None => forall|j: int| 0 <= j < names.len() ==> names[j]@ != name@,
        },
{
    let mut i: usize = 0;
    while i < names.len()
        invariant
            i <= names.len(),
            forall|j: int| 0 <= j < i ==> names[j]@ != name@,
        decreases names.len() - i,
    {
        if same_name(names[i], name) {
            return Some(i);
        }
        i += 1;
    }
    None
}

/// An action as the planner hands it out: name, precondition, cost, effect.
pub type Row = (&'static str, WorldState, i32, WorldState);

/// The registry of atoms and actions: which index each name has, and each
/// action's precondition, effect and cost.
pub struct ActionPlanner {
    atm_names: Vec<&'static str>,
    act_names: Vec<&'static str>,
    act_pre: Vec<WorldState>,
    act_post: Vec<WorldState>,
    act_costs: Vec<i32>,
}

impl View for ActionPlanner {
    type V = PlannerView;

    closed spec fn view(&self) -> PlannerView {
        PlannerView {
            atoms: Seq::new(self.atm_names@.len(), |i: int| self.atm_names@[i]@),
            actions: Seq::new(
                self.act_names@.len(),
                |i: int|
                    ActionView {
                        name: self.act_names@[i]@,
                        pre: self.act_pre@[i],
                        post: self.act_post@[i],
                        cost: self.act_costs@[i] as int,
                    },
            ),
        }
    }
}

impl ActionPlanner {
    /// The parts of an action are held side by side.
    pub closed spec fn aligned(&self) -> bool {
        &&& self.act_pre@.len() == self.act_names@.len()
        &&& self.act_post@.len() == self.act_names@.len()
        &&& self.act_costs@.len() == self.act_names@.len()
    }

    /// The actions as they are handed out, in registration order.
    pub closed spec fn rows(&self) -> Seq<Row> {
        Seq::new(
            self.act_names@.len(),
            |i: int| (self.act_names@[i], self.act_pre@[i], self.act_costs@[i], self.act_post@[i]),
        )
    }

    /// The planner holds its actions' parts side by side, and its model is
    /// well formed.
    pub open spec fn wf(&self) -> bool {
        self.aligned() && self@.wf()
    }

    /// A planner that holds no atom and no action.
    pub fn new() -> (r: Self)
        ensures
            r.wf(),
            r@ == PlannerView::empty(),
    {
        let r = ActionPlanner {
            atm_names: Vec::new(),
            act_names: Vec::new(),
            act_pre: Vec::new(),
            act_post: Vec::new(),
            act_costs: Vec::new(),
        };
        assert(r@.atoms =~= Seq::empty());
        assert(r@.actions =~= Seq::empty());
        assert(r@.action_names() =~= Seq::empty());
        r
    }

    /// Drops every atom and every action.
    pub fn clear(&mut self)
        ensures
            final(self).wf(),
            final(self)@ == PlannerView::empty(),
    {
        *self = ActionPlanner::new();
    }

    /// The index of atom `atom_name`, which is registered if it is new and
    /// there is room for it.
    pub fn idx_for_atom_name(&mut self, atom_name: &'static str) -> (r: Option<usize>)
        requires
            old(self).wf(),
        ensures
            final(self).wf(),
            final(self)@ == old(self)@.with_atom(atom_name@),
            match r {
                Some(i) => old(self)@.atom_slot(atom_name@) == Some(i as int),
                None => old(self)@.atom_slot(atom_name@) is None,
            },
    {
        let find_index = position(&self.atm_names, atom_name);
        let ghost before = self@;
        match find_index {
            Some(i) => {
                proof {
                    assert(before.atoms[i as int] == atom_name@);
                    lemma_index_of_unique(before.atoms, i as int);
                }
                find_index
            },
            None => {
                assert(!before.atoms.contains(atom_name@));
                if self.atm_names.len() < MAX_ATOMS {
                    let idx = self.atm_names.len();
                    self.atm_names.push(atom_name);
                    proof {
                        assert(self@.atoms =~= before.atoms.push(atom_name@));
                        assert(self@.actions =~= before.actions);
                        lemma_push_keeps_distinct(before.atoms, atom_name@);
                    }
                    Some(idx)
                } else {
                    None
                }
            },
        }
    }

    /// The index of action `act_name`, which is registered if it is new and
    /// there is room for it.
    pub fn idx_for_action_name(&mut self, act_name: &'static str) -> (r: Option<usize>)
        requires
            old(self).wf(),
        ensures
            final(self).wf(),
            final(self)@ == old(self)@.with_action(act_name@),
            match r {
                Some(i) => old(self)@.action_slot(act_name@) == Some(i as int),
                None => old(self)@.action_slot(act_name@) is None,
            },
    {
        let find_index = position(&self.act_names, act_name);
        let ghost before = self@;
        match find_index {
            Some(i) => {
                proof {
                    assert(before.action_names()[i as int] == act_name@);
                    lemma_index_of_unique(before.action_names(), i as int);
                }
                find_index
            },
            None => {
                assert(!before.action_names().contains(act_name@));
                if self.act_names.len() < MAX_ACTIONS {
                    let idx = self.act_names.len();
                    self.act_names.push(act_name);
                    self.act_pre.push(WorldState::new());
                    self.act_post.push(WorldState::new());
                    self.act_costs.push(1);
                    proof {
                        assert(self@.atoms =~= before.atoms);
                        assert(self@.actions =~= before.with_action(act_name@).actions);
                        assert(self@.action_names() =~= before.action_names().push(act_name@));
                        lemma_push_keeps_distinct(before.action_names(), act_name@);
                    }
                    Some(idx)
                } else {
                    None
                }
            },
        }
    }

    /// Sets what `action_name` requires of atom `atom_name`. Both names are
    /// registered first; the call fails if either has no room.
    pub fn set_pre(&mut self, action_name: &'static str, atom_name: &'static str, value: bool) -> (r:
        bool)
        requires
            old(self).wf(),
        ensures
            final(self).wf(),
            final(self)@ == old(self)@.after_set_pre(action_name@, atom_name@, value),
            r == (old(self)@.action_slot(action_name@) is Some && old(self)@.atom_slot(
                atom_name@,
            ) is Some),
    {
        let act = self.idx_for_action_name(action_name);
        let atm = self.idx_for_atom_name(atom_name);
        match (act, atm) {
            (Some(actidx), Some(atmidx)) => {
                let ghost before = self@;
                proof {
                    lemma_slot_in_range(old(self)@.action_names(), action_name@);
                    lemma_slot_in_range(old(self)@.atoms, atom_name@);
                }
                let mut pre = self.act_pre[actidx];
                pre.set_idx(atmidx, value);
                self.act_pre.set(actidx, pre);
                proof {
                    let after = before.with_pre(actidx as int, atmidx as int, value);
                    assert(self@.atoms =~= after.atoms);
                    assert(self@.actions =~= after.actions);
                    assert(self@.action_names() =~= before.action_names());
                }
                true
            },
            _ => false,
        }
    }

    /// Sets what `action_name` does to atom `atom_name`. Both names are
    /// registered first; the call fails if either has no room.
    pub fn set_post(&mut self, action_name: &'static str, atom_name: &'static str, value: bool) -> (r:
        bool)
        requires
            old(self).wf(),
        ensures
            final(self).wf(),
            final(self)@ == old(self)@.after_set_post(action_name@, atom_name@, value),
            r == (old(self)@.action_slot(action_name@) is Some && old(self)@.atom_slot(
                atom_name@,
            ) is Some),
    {
        let act = self.idx_for_action_name(action_name);
        let atm = self.idx_for_atom_name(atom_name);
        match (act, atm) {
            (Some(actidx), Some(atmidx)) => {
                let ghost before = self@;
                proof {
                    lemma_slot_in_range(old(self)@.action_names(), action_name@);
                    lemma_slot_in_range(old(self)@.atoms, atom_name@);
                }
                let mut post = self.act_post[actidx];
                post.set_idx(atmidx, value);
                self.act_post.set(actidx, post);
                proof {
                    let after = before.with_post(actidx as int, atmidx as int, value);
                    assert(self@.atoms =~= after.atoms);
                    assert(self@.actions =~= after.actions);
                    assert(self@.action_names() =~= before.action_names());
                }
                true
            },
            _ => false,
        }
    }

    /// Sets the cost of `action_name`, which is registered first; the call
    /// fails if it has no room.
    pub fn set_cost(&mut self, action_name: &'static str, cost: i32) -> (r: bool)
        requires
            old(self).wf(),
        ensures
            final(self).wf(),
            final(self)@ == old(self)@.after_set_cost(action_name@, cost as int),
            r == old(self)@.action_slot(action_name@) is Some,
    {
        if let Some(idx) = self.idx_for_action_name(action_name) {
            let ghost before = self@;
            proof {
                lemma_slot_in_range(old(self)@.action_names(), action_name@);
            }
            self.act_costs.set(idx, cost);
            proof {
                let after = before.with_cost(idx as int, cost as int);
                assert(self@.atoms =~= after.atoms);
                assert(self@.actions =~= after.actions);
                assert(self@.action_names() =~= before.action_names());
            }
            true
        } else {
            proof {
                assert(old(self)@.with_action(action_name@) == old(self)@);
            }
            false
        }
    }

    /// The atom names, in registration order.
    pub fn atom_names(&self) -> (r: &[&'static str])
        ensures
            r@.len() == self@.atoms.len(),
            forall|i: int| 0 <= i < r@.len() ==> (#[trigger] r@[i])@ == self@.atoms[i],
    {
        self.atm_names.as_slice()
    }

    /// The actions' preconditions, in registration order.
    pub fn act_pre(&self) -> (r: &[WorldState])
        requires
            self.wf(),
        ensures
            r@.len() == self@.actions.len(),
            forall|i: int| 0 <= i < r@.len() ==> #[trigger] r@[i] == self@.actions[i].pre,
    {
        self.act_pre.as_slice()
    }

    /// The name of action `i`.
    pub fn name(&self, i: usize) -> (r: &'static str)
        requires
            self.wf(),
            i < self@.actions.len(),
        ensures
            r@ == self@.actions[i as int].name,
    {
        self.act_names[i]
    }

    /// The cost of action `i`.
    pub fn cost(&self, i: usize) -> (r: i32)
        requires
            self.wf(),
            i < self@.actions.len(),
        ensures
            r == self@.actions[i as int].cost,
    {
        self.act_costs[i]
    }

    /// The effect of action `i`.
    pub fn post(&self, i: usize) -> (r: &WorldState)
        requires
            self.wf(),
            i < self@.actions.len(),
        ensures
            *r == self@.actions[i as int].post,
    {
        &self.act_post[i]
    }

    /// The actions in registration order, as their names, preconditions,
    /// costs and effects side by side.
    pub fn actions(&self) -> (r: (&[&'static str], &[WorldState], &[i32], &[WorldState]))
        requires
            self.wf(),
        ensures
            r.0@.len() == self@.actions.len(),
            r.1@.len() == self@.actions.len(),
            r.2@.len() == self@.actions.len(),
            r.3@.len() == self@.actions.len(),
            forall|i: int|
                #![trigger self@.actions[i]]
                0 <= i < self@.actions.len() ==> {
                    &&& r.0@[i]@ == self@.actions[i].name
                    &&& r.1@[i] == self@.actions[i].pre
                    &&& r.2@[i] == self@.actions[i].cost
                    &&& r.3@[i] == self@.actions[i].post
                },
            self.rows().len() == self@.actions.len(),
            forall|i: int|
                0 <= i < self.rows().len() ==> #[trigger] self.rows()[i] == (
                    r.0@[i],
                    r.1@[i],
                    r.2@[i],
                    r.3@[i],
                ),
    {
        (
            self.act_names.as_slice(),
            self.act_pre.as_slice(),
            self.act_costs.as_slice(),
            self.act_post.as_slice(),
        )
    }
}

impl Default for ActionPlanner {
    fn default() -> (r: Self)
        ensures
            r.wf(),
            r@ == PlannerView::empty(),
    {
        ActionPlanner::new()
    }
}

/// The actions as a planner hands them out are the actions of its model:
/// each has the name, the precondition, the cost and the effect that the
/// model holds for it.
pub proof fn lemma_rows_are_actions(ap: ActionPlanner)
    requires
        ap.wf(),
    ensures
        ap.rows().len() == ap@.actions.len(),
        forall|i: int|
            #![trigger ap.rows()[i]]
            0 <= i < ap.rows().len() ==> {
                &&& ap.rows()[i].0@ == ap@.actions[i].name
                &&& ap.rows()[i].1 == ap@.actions[i].pre
                &&& ap.rows()[i].2 == ap@.actions[i].cost
                &&& ap.rows()[i].3 == ap@.actions[i].post
            },
{
}

/// A name's slot, where it has one, lies within the names after it has
/// been registered, and below 64.
pub proof fn lemma_slot_in_range(names: Seq<Seq<char>>, name: Seq<char>)
    requires
        names.len() <= 64,
    ensures
        match slot_of(names, name) {
            Some(i) => 0 <= i < registered(names, name).len() && i < 64 && registered(names, name)[i]
                == name,
            None => registered(names, name) == names && !names.contains(name) && names.len() == 64,
        },
{
    if names.contains(name) {
        let i = names.index_of(name);
        assert(0 <= i < names.len() && names[i] == name);
    }
}

/// Appending an element that does not occur yet keeps a sequence free of
/// duplicates.
pub proof fn lemma_push_keeps_distinct(names: Seq<Seq<char>>, name: Seq<char>)
    requires
        names.no_duplicates(),
        !names.contains(name),
    ensures
        names.push(name).no_duplicates(),
{
    let after = names.push(name);
    assert forall|i: int, j: int| 0 <= i < after.len() && 0 <= j < after.len() && i != j implies after[i]
        != after[j] by {
        if i < names.len() && j < names.len() {
        } else if i < names.len() {
            assert(names.contains(names[i]));
        } else {
            assert(names.contains(names[j]));
        }
    }
}

impl WorldState {
    /// Narrows the atom named `atom_name` to `value`. The name is registered
    /// in `ap` first; where it has no room there, nothing else changes.
    pub fn set(&mut self, ap: &mut ActionPlanner, atom_name: &'static str, value: bool) -> (r: bool)
        requires
            old(ap).wf(),
        ensures
            final(ap).wf(),
            final(ap)@ == old(ap)@.with_atom(atom_name@),
            match old(ap)@.atom_slot(atom_name@) {
                Some(i) => {
                    &&& r
                    &&& *final(self) == old(self).with_atom(i, value)
                    &&& final(self).known(i)
                    &&& final(self).value(i) == value
                    &&& forall|j: int| j != i ==> #[trigger] final(self).known(j) == old(self).known(j)
                    &&& forall|j: int| j != i ==> #[trigger] final(self).value(j) == old(self).value(j)
                },
                None => !r && *final(self) == *old(self),
            },
    {
        match ap.idx_for_atom_name(atom_name) {
            Some(idx) => {
                proof {
                    lemma_slot_in_range(old(ap)@.atoms, atom_name@);
                }
                self.set_idx(idx, value)
            },
            _ => false,
        }
    }
}

/// Registering a name a second time changes nothing and gives the index
/// that the first registration gave.
pub proof fn lemma_registering_again(names: Seq<Seq<char>>, name: Seq<char>)
    requires
        names.no_duplicates(),
    ensures
        registered(registered(names, name), name) == registered(names, name),
        slot_of(registered(names, name), name) == slot_of(names, name),
{
    let once = registered(names, name);
    if names.contains(name) || names.len() >= 64 {
    } else {
        lemma_push_keeps_distinct(names, name);
        assert(once[names.len() as int] == name);
        lemma_index_of_unique(once, names.len() as int);
    }
}

/// A name that is not registered yet gets the next free index while fewer
/// than 64 names are registered, and none once 64 are: the registry then
/// stays as it is.
pub proof fn lemma_registry_capacity(names: Seq<Seq<char>>, name: Seq<char>)
    requires
        !names.contains(name),
    ensures
        names.len() < 64 ==> slot_of(names, name) == Some(names.len() as int) && registered(
            names,
            name,
        ) == names.push(name),
        names.len() >= 64 ==> slot_of(names, name) is None && registered(names, name) == names,
{
}

/// Registering a name leaves every name registered before at its index,
/// and the registry free of duplicates and within its capacity.
pub proof fn lemma_registering_keeps_others(names: Seq<Seq<char>>, name: Seq<char>, other: Seq<char>)
    requires
        names.no_duplicates(),
        names.len() <= 64,
        names.contains(other),
    ensures
        registered(names, name).no_duplicates(),
        registered(names, name).len() <= 64,
        registered(names, name).contains(other),
        slot_of(registered(names, name), other) == slot_of(names, other),
{
    let after = registered(names, name);
    if names.contains(name) || names.len() >= 64 {
    } else {
        lemma_push_keeps_distinct(names, name);
        let i = names.index_of(other);
        assert(0 <= i < names.len() && names[i] == other);
        assert(after[i] == other);
        lemma_index_of_unique(after, i);
    }
}

/// Registration keeps the planner's model well formed.
pub proof fn lemma_registration_keeps_wf(m: PlannerView, name: Seq<char>)
    requires
        m.wf(),
    ensures
        m.with_atom(name).wf(),
        m.with_action(name).wf(),
{
    if !(m.atoms.contains(name) || m.atoms.len() >= 64) {
        lemma_push_keeps_distinct(m.atoms, name);
    }
    if !(m.action_names().contains(name) || m.actions.len() >= 64) {
        assert(m.with_action(name).action_names() =~= m.action_names().push(name));
        lemma_push_keeps_distinct(m.action_names(), name);
    }
}

/// An effect that pins no atom leaves a state as it is, bit for bit.
pub proof fn lemma_empty_effect_changes_nothing(from: WorldState, effect: WorldState)
    requires
        effect.dontcare@ == u64::MAX,
    ensures
        from.apply(effect) == from,
{
    let a = from.values@;
    let fd = from.dontcare@;
    let v = effect.values@;
    assert((a & 0xffff_ffff_ffff_ffffu64) | (v & !0xffff_ffff_ffff_ffffu64) == a) by (bit_vector);
    assert(fd & 0xffff_ffff_ffff_ffffu64 == fd) by (bit_vector);
}

/// A precondition that asks only for atom `a` to be true is met exactly by
/// the states in which `a` is known and true. This is stated of states
/// whose value flag is clear wherever the atom is unconstrained, as it is
/// in every state built from `new` by `set`.
pub proof fn lemma_single_precondition(state: WorldState, a: int)
    requires
        0 <= a < 64,
        !state.known(a) ==> !state.value(a),
    ensures
        state.satisfies(WorldState::blank().with_atom(a, true)) <==> (state.known(a) && state.value(
            a,
        )),
{
    let x = state.values@;
    let k = a as u64;
    assert(((x & !(0xffff_ffff_ffff_ffffu64 & !(1u64 << k))) == ((0u64 | (1u64 << k)) & !(
    0xffff_ffff_ffff_ffffu64 & !(1u64 << k)))) == ((x >> k) & 1 == 1)) by (bit_vector)
        requires
            k < 64,
    ;
}

/// A state built from `new` by setting atoms has its value flag clear
/// wherever the atom is unconstrained.
pub proof fn lemma_set_keeps_values_under_care(state: WorldState, idx: int, value: bool, i: int)
    requires
        0 <= idx < 64,
        0 <= i < 64,
        !state.known(i) ==> !state.value(i),
    ensures
        !state.with_atom(idx, value).known(i) ==> !state.with_atom(idx, value).value(i),
{
    lemma_bits_after_write(state.values@, idx as u64);
    lemma_bits_after_write(state.dontcare@, idx as u64);
}

/// The name of atom `i`, which is empty where no atom has been registered
/// under that index.
pub open spec fn name_at(atoms: Seq<Seq<char>>, i: int) -> Seq<char> {
    if 0 <= i < atoms.len() {
        atoms[i]
    } else {
        Seq::empty()
    }
}

/// The line that lists atom `i` of `ws`: a sign for its value, its name
/// and a line end; nothing where the atom is unconstrained.
pub open spec fn atom_line(atoms: Seq<Seq<char>>, ws: WorldState, i: int) -> Seq<char> {
    if ws.known(i) {
        (if ws.value(i) {
            "+"@
        } else {
            "-"@
        }) + name_at(atoms, i) + "\n"@
    } else {
        Seq::empty()
    }
}

/// The lines that list the first `n` atoms of `ws`.
pub open spec fn atom_lines(atoms: Seq<Seq<char>>, ws: WorldState, n: nat) -> Seq<char>
    decreases n,
{
    if n == 0 {
        Seq::empty()
    } else {
        atom_lines(atoms, ws, (n - 1) as nat) + atom_line(atoms, ws, n - 1)
    }
}

/// A world state together with the planner that names its atoms, for
/// listing.
pub struct WorldStateFmt<'a, 'b> {
    ws: &'a WorldState,
    ap: &'b ActionPlanner,
}

impl<'a, 'b> WorldStateFmt<'a, 'b> {
    /// The state that is listed.
    pub closed spec fn state(self) -> WorldState {
        *self.ws
    }

    /// The planner that names the atoms.
    pub closed spec fn planner(self) -> ActionPlanner {
        *self.ap
    }

    /// Lists the atoms that have a definite value, one to a line, with `+`
    /// before the name of a true atom and `-` before that of a false one,
    /// and ends with an empty line. An atom that has a value and no name is
    /// listed with an empty name.
    pub fn render(&self) -> (r: String)
        ensures
            r@ == atom_lines(self.planner()@.atoms, self.state(), 64) + "\n"@,
    {
        let names = self.ap.atom_names();
        let mut out = String::new();
        let mut i: usize = 0;
        while i < MAX_ATOMS
            invariant
                i <= 64,
                names@.len() == self.planner()@.atoms.len(),
                forall|k: int| 0 <= k < names@.len() ==> (#[trigger] names@[k])@ == self.planner()@.atoms[k],
                out@ == atom_lines(self.planner()@.atoms, self.state(), i as nat),
            decreases 64 - i,
        {
            if !self.ws.dontcare.get(i) {
                assert(self.state().known(i as int));
                proof {
                    reveal_strlit("");
                }
                let name: &str = if i < names.len() {
                    names[i]
                } else {
                    ""
                };
                assert(name@ =~= name_at(self.planner()@.atoms, i as int));
                if self.ws.values.get(i) {
                    out.append("+");
                } else {
                    out.append("-");
                }
                out.append(name);
                out.append("\n");
            }
            i += 1;
        }
        out.append("\n");
        out
    }
}

impl WorldState {
    /// Pairs this state with the planner that names its atoms, for listing.
    pub fn debug_fmt<'a, 'b>(&'a self, ap: &'b ActionPlanner) -> (r: WorldStateFmt<'a, 'b>)
        ensures
            r.state() == *self,
            r.planner() == *ap,
    {
        WorldStateFmt { ws: self, ap: ap }
    }
}

} // verus!
