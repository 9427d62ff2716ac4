//! The stabilization engine: the tick in two phases, ticking until rest
//! under a bound, and the frame.

use vstd::prelude::*;
use crate::changes::{
    changed_components, changed_wires, lemma_nothing_changed, snapshot_components,
    snapshot_groups, snapshot_ids, TickResults,
};
use crate::composant::ComposantsEnum;
use crate::gates::next_level;
use crate::logic::any_true;
use crate::model::{lemma_same_circuit_wf, ComponentView, GateKind, GroupView, SimulationView};
use crate::simulation::Simulation;
use crate::types::ChangedElement;

verus! {

impl SimulationView {
    /// The level that a tick gives to the group at `k`: `true` where some
    /// component that drives it shows `true` before the tick.
    pub open spec fn next_group_level(self, k: int) -> bool {
        any_true(self.levels(self.groups[k].element.inputs))
    }

    /// The group at `k` after a tick.
    pub open spec fn next_group(self, k: int) -> GroupView {
        self.groups[k].with_state(self.next_group_level(k))
    }

    /// The component at `k` after a tick.
    pub open spec fn next_component(self, k: int) -> ComponentView {
        self.components[k].commit(next_level(self.components[k], self))
    }

    /// Whether a tick counts the group at `k` as changed.
    pub open spec fn group_changes(self, k: int) -> bool {
        self.next_group_level(k) != self.groups[k].element.state
    }

    /// Some group among the first `n` counts as changed by a tick.
    pub open spec fn groups_change(self, n: int) -> bool {
        exists|k: int| 0 <= k < n && self.group_changes(k)
    }

    /// Some component among the first `n` computes a level that counts as
    /// a change.
    pub open spec fn components_propose(self, n: int) -> bool {
        exists|k: int|
            0 <= k < n && (#[trigger] self.components[k]).proposes_change(
                next_level(self.components[k], self),
            )
    }

    /// Some timer among the first `n` components applies a transition.
    pub open spec fn components_drain(self, n: int) -> bool {
        exists|k: int|
            0 <= k < n && (#[trigger] self.components[k]).commit_drains(
                next_level(self.components[k], self),
            )
    }

    /// One tick: every group and every component takes the level computed
    /// from the circuit as it was before the tick. No element sees what the
    /// tick has done to another.
    pub open spec fn tick(self) -> SimulationView {
        SimulationView {
            components: Seq::new(self.components.len(), |k: int| self.next_component(k)),
            wires: self.wires,
            groups: Seq::new(self.groups.len(), |k: int| self.next_group(k)),
        }
    }

    /// Whether a tick changes anything that counts: the level of a group,
    /// the level of a gate, or the level of a timer through its delay line.
    pub open spec fn tick_changes(self) -> bool {
        ||| self.groups_change(self.groups.len() as int)
        ||| self.components_propose(self.components.len() as int)
        ||| self.components_drain(self.components.len() as int)
    }

    /// Ticks until one changes nothing, and at most `depth` times.
    pub open spec fn stabilize(self, depth: nat) -> SimulationView
        decreases depth,
    {
        if depth == 0 {
            self
        } else if self.tick_changes() {
            self.tick().stabilize((depth - 1) as nat)
        } else {
            self.tick()
        }
    }

    /// Whether `depth` ticks all change something, so that `stabilize`
    /// stops at the bound and not at rest.
    pub open spec fn restless(self, depth: nat) -> bool
        decreases depth,
    {
        if depth == 0 {
            true
        } else {
            self.tick_changes() && self.tick().restless((depth - 1) as nat)
        }
    }

    /// Every pending transition of every timer has one tick less to wait.
    pub open spec fn age_timers(self) -> SimulationView {
        SimulationView {
            components: Seq::new(
                self.components.len(),
                |k: int|
                    if self.components[k].kind == GateKind::Timer {
                        self.components[k].age()
                    } else {
                        self.components[k]
                    },
            ),
            ..self
        }
    }

    /// One stabilization: ticks until rest or until the bound, then one
    /// step of every timer's delay line.
    pub open spec fn settle(self, depth: nat) -> SimulationView {
        self.stabilize(depth).age_timers()
    }

    /// A frame: `ticks` stabilizations, one after the other.
    pub open spec fn frame(self, depth: nat, ticks: nat) -> SimulationView
        decreases ticks,
    {
        if ticks == 0 {
            self
        } else {
            self.settle(depth).frame(depth, (ticks - 1) as nat)
        }
    }

    /// How many of the stabilizations of a frame stop at the bound without
    /// having found the circuit at rest.
    pub open spec fn frame_unsettled(self, depth: nat, ticks: nat) -> nat
        decreases ticks,
    {
        if ticks == 0 {
            0
        } else {
            self.settle(depth).frame_unsettled(depth, (ticks - 1) as nat) + if self.restless(depth) {
                1nat
            } else {
                0nat
            }
        }
    }
}

/// A tick that counts nothing as changed has left every level as it was:
/// the circuit is at rest.
pub proof fn lemma_tick_at_rest(v: SimulationView)
    requires
        !v.tick_changes(),
    ensures
        v.tick().groups == v.groups,
        forall|k: int|
            0 <= k < v.components.len() ==> (#[trigger] v.tick().components[k]).element
                == v.components[k].element,
{
    assert forall|k: int| 0 <= k < v.groups.len() implies v.tick().groups[k] == v.groups[k] by {
        assert(!v.group_changes(k));
    }
    assert forall|k: int| 0 <= k < v.components.len() implies (#[trigger] v.tick().components[k]).element
        == v.components[k].element by {}
}

/// A tick changes levels and delay lines, and nothing else: the elements,
/// their ids, their places and their links stay as they are.
pub proof fn lemma_tick_same_circuit(v: SimulationView)
    ensures
        v.same_circuit(v.tick()),
{
}

/// A stabilization changes levels and delay lines, and nothing else.
pub proof fn lemma_settle_same_circuit(v: SimulationView, depth: nat)
    ensures
        v.same_circuit(v.stabilize(depth)),
        v.same_circuit(v.settle(depth)),
    decreases depth,
{
    if depth > 0 {
        lemma_tick_same_circuit(v);
        lemma_settle_same_circuit(v.tick(), (depth - 1) as nat);
    }
}

/// A frame changes levels and delay lines, and nothing else; so the
/// circuit is well formed after it if it was before.
pub proof fn lemma_frame_same_circuit(v: SimulationView, depth: nat, ticks: nat)
    ensures
        v.same_circuit(v.frame(depth, ticks)),
        v.wf() == v.frame(depth, ticks).wf(),
    decreases ticks,
{
    if ticks > 0 {
        lemma_settle_same_circuit(v, depth);
        lemma_frame_same_circuit(v.settle(depth), depth, (ticks - 1) as nat);
    }
    lemma_same_circuit_wf(v, v.frame(depth, ticks));
}

/// A frame of no stabilization changes nothing and reports nothing, where
/// all components have different ids.
pub proof fn lemma_frame_of_nothing(v: SimulationView, depth: nat)
    requires
        v.component_ids().no_duplicates(),
    ensures
        v.frame(depth, 0) == v,
        changed_wires(snapshot_groups(v.groups), v.frame(depth, 0).groups) == Seq::<
            ChangedElement,
        >::empty(),
        changed_components(snapshot_components(v.components), v.frame(depth, 0).components)
            == Seq::<ChangedElement>::empty(),
{
    assert(snapshot_ids(snapshot_components(v.components)) =~= v.component_ids());
    lemma_nothing_changed(v.groups, v.components);
}

impl Simulation {
    /// One evaluation pass over the whole circuit, in two phases. First the
    /// next level of every group and of every component is computed from
    /// the circuit as it stands, and nothing is written; then all of them
    /// are committed. Returns whether anything changed that counts.
    pub fn tick(&mut self) -> (changed: bool)
        ensures
            final(self)@ == old(self)@.tick(),
            changed == old(self)@.tick_changes(),
    {
        let ghost pre = self@;
        let mut is_something_different = false;

        let mut new_wire_group_states: Vec<bool> = Vec::new();
        let mut g: usize = 0;
        while g < self.wire_groups.len()
            invariant
                g <= self.wire_groups.len(),
                *self == *old(self),
                pre == self@,
                new_wire_group_states@.len() == g,
                forall|k: int| 0 <= k < g ==> new_wire_group_states@[k] == pre.next_group_level(k),
                is_something_different == pre.groups_change(g as int),
            decreases self.wire_groups.len() - g,
        {
            let new_state = self.wire_groups[g].compute_next_state(self);
            assert(new_state.1 == pre.group_changes(g as int));
            new_wire_group_states.push(new_state.0);
            is_something_different = is_something_different || new_state.1;
            g += 1;
        }

        let mut new_composant_states: Vec<bool> = Vec::new();
        let mut proposed = false;
        let mut c: usize = 0;
        while c < self.composants.len()
            invariant
                c <= self.composants.len(),
                *self == *old(self),
                pre == self@,
                new_composant_states@.len() == c,
                forall|k: int|
                    0 <= k < c ==> new_composant_states@[k] == next_level(
                        #[trigger] pre.components[k],
                        pre,
                    ),
                proposed == pre.components_propose(c as int),
            decreases self.composants.len() - c,
        {
            let new_state = self.composants[c].compute_next_state(self);
            assert(new_state.1 == pre.components[c as int].proposes_change(
                next_level(pre.components[c as int], pre),
            ));
            new_composant_states.push(new_state.0);
            proposed = proposed || new_state.1;
            c += 1;
        }

        let mut g: usize = 0;
        while g < self.wire_groups.len()
            invariant
                g <= self.wire_groups.len(),
                self.wire_groups.len() == pre.groups.len(),
                new_wire_group_states@.len() == pre.groups.len(),
                self.composants == old(self).composants,
                self.wires == old(self).wires,
                forall|k: int|
                    0 <= k < pre.groups.len() ==> new_wire_group_states@[k] == pre.next_group_level(
                        k,
                    ),
                forall|k: int| 0 <= k < g ==> self.wire_groups@[k]@ == pre.next_group(k),
                forall|k: int|
                    g <= k < pre.groups.len() ==> self.wire_groups@[k]@ == #[trigger] pre.groups[k],
            decreases self.wire_groups.len() - g,
        {
            self.wire_groups[g].circuit_element.set_state(new_wire_group_states[g]);
            g += 1;
        }

        let mut drained = false;
        let mut c: usize = 0;
        while c < self.composants.len()
            invariant
                c <= self.composants.len(),
                self.composants.len() == pre.components.len(),
                new_composant_states@.len() == pre.components.len(),
                self.wires == old(self).wires,
                self.wire_groups.len() == pre.groups.len(),
                forall|k: int|
                    0 <= k < pre.groups.len() ==> self.wire_groups@[k]@ == pre.next_group(k),
                forall|k: int|
                    0 <= k < pre.components.len() ==> new_composant_states@[k] == next_level(
                        #[trigger] pre.components[k],
                        pre,
                    ),
                forall|k: int| 0 <= k < c ==> self.composants@[k]@ == pre.next_component(k),
                forall|k: int|
                    c <= k < pre.components.len() ==> self.composants@[k]@
                        == #[trigger] pre.components[k],
                drained == pre.components_drain(c as int),
            decreases self.composants.len() - c,
        {
            let applied = self.composants[c].commit(new_composant_states[c]);
            assert(applied == pre.components[c as int].commit_drains(
                next_level(pre.components[c as int], pre),
            ));
            drained = drained || applied;
            c += 1;
        }

        assert(self@.groups =~= pre.tick().groups);
        assert(self@.components =~= pre.tick().components);
        is_something_different || proposed || drained
    }

    /// Ticks until the circuit is at rest, and at most `max_depth` times;
    /// then every timer's delay line moves on by one step. Returns whether
    /// the ticks stopped at the bound without having found the circuit at
    /// rest, as a circuit that oscillates makes them do.
    pub fn run_until_stabilizes(&mut self, max_depth: u32) -> (restless: bool)
        ensures
            final(self)@ == old(self)@.settle(max_depth as nat),
            restless == old(self)@.restless(max_depth as nat),
    {
        let ghost pre = self@;
        let mut remaining = max_depth;
        let mut active = true;
        while active && remaining > 0
            invariant
                pre.stabilize(max_depth as nat) == if active {
                    self@.stabilize(remaining as nat)
                } else {
                    self@
                },
                pre.restless(max_depth as nat) == (active && self@.restless(remaining as nat)),
            decreases remaining,
        {
            remaining -= 1;
            active = self.tick();
        }

        let ghost rested = self@;
        let ghost wires = self.wires;
        let ghost wire_groups = self.wire_groups;
        let mut c: usize = 0;
        while c < self.composants.len()
            invariant
                c <= self.composants.len(),
                self.composants.len() == rested.components.len(),
                self.wires == wires,
                self.wire_groups == wire_groups,
                self@.groups == rested.groups,
                self@.wires == rested.wires,
                forall|k: int|
                    0 <= k < c ==> self.composants@[k]@ == rested.age_timers().components[k],
                forall|k: int|
                    c <= k < rested.components.len() ==> self.composants@[k]@
                        == #[trigger] rested.components[k],
            decreases self.composants.len() - c,
        {
            match &mut self.composants[c] {
                ComposantsEnum::TimerGate(timer_gate) => {
                    timer_gate.decrement_ticks();
                },
                _ => {},
            }
            c += 1;
        }
        assert(self@.components =~= rested.age_timers().components);
        active
    }

    /// Advances the circuit by one frame of `tick_per_frame` stabilizations,
    /// each bounded by `max_depth` ticks, and reports what the frame as a
    /// whole has changed: what differs afterwards from what was there
    /// before. A level that changed and changed back within the frame is not
    /// reported.
    pub fn compute_frame(&mut self, max_depth: u32, tick_per_frame: u32) -> (r: TickResults)
        ensures
            final(self)@ == old(self)@.frame(max_depth as nat, tick_per_frame as nat),
            r.wires@ == changed_wires(snapshot_groups(old(self)@.groups), final(self)@.groups),
            r.components@ == changed_components(
                snapshot_components(old(self)@.components),
                final(self)@.components,
            ),
            r.unsettled == old(self)@.frame_unsettled(max_depth as nat, tick_per_frame as nat),
            old(self)@.wf() ==> final(self)@.wf(),
            tick_per_frame == 0 ==> final(self)@ == old(self)@ && r.wires@.len() == 0,
            tick_per_frame == 0 && old(self)@.wf() ==> r.components@.len() == 0,
    {
        let ghost pre = self@;
        proof {
            lemma_frame_same_circuit(pre, max_depth as nat, tick_per_frame as nat);
            if tick_per_frame == 0 {
                lemma_nothing_changed(pre.groups, pre.components);
                assert(snapshot_ids(snapshot_components(pre.components)) =~= pre.component_ids());
            }
        }
        let old_wires_group = self.create_old_wires_group_copy();
        let old_components = self.create_old_components_copy();

        let mut unsettled: u32 = 0;
        let mut remaining = tick_per_frame;
        while remaining > 0
            invariant
                pre.frame(max_depth as nat, tick_per_frame as nat) == self@.frame(
                    max_depth as nat,
                    remaining as nat,
                ),
                pre.frame_unsettled(max_depth as nat, tick_per_frame as nat) == unsettled
                    + self@.frame_unsettled(max_depth as nat, remaining as nat),
                unsettled + remaining <= tick_per_frame,
            decreases remaining,
        {
            remaining -= 1;
            let restless = self.run_until_stabilizes(max_depth);
            if restless {
                unsettled += 1;
            }
        }

        let changed_wires = self.create_changed_wires_copy(old_wires_group);
        let changed_components = self.create_changed_components_copy(old_components);
        TickResults { wires: changed_wires, components: changed_components, unsettled }
    }
}

} // verus!
