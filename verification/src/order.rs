//! What a circuit does is the same in whatever order its components are
//! listed: ticks, stabilizations, frames, switch writes and reports.

use vstd::prelude::*;
use crate::changes::{
    changed_components, changed_wires, component_differs, lemma_changed_components_scoped,
    recorded, snapshot_components, snapshot_groups, snapshot_ids,
};
use crate::circuit_element::CircuitElementEnum;
use crate::engine::lemma_tick_same_circuit;
use crate::gates::next_level;
use crate::model::{lemma_same_circuit_wf, ComponentView, SimulationView};
use crate::simulation::lemma_with_switch_state;
use crate::types::ChangedElement;

verus! {

impl SimulationView {
    /// The same circuit with its components listed in another order: the
    /// same wires and groups, and the same components, each under an id of
    /// its own.
    pub open spec fn reordered(self, other: SimulationView) -> bool {
        &&& self.wires == other.wires
        &&& self.groups == other.groups
        &&& self.component_ids().no_duplicates()
        &&& other.component_ids().no_duplicates()
        &&& forall|c: ComponentView| self.components.contains(c) <==> other.components.contains(c)
    }
}

proof fn lemma_level_one_way(a: SimulationView, b: SimulationView, id: usize)
    requires
        a.reordered(b),
        a.component_ids().index_of_first(id) is Some,
    ensures
        b.component_ids().index_of_first(id) is Some,
        b.components[b.component_ids().index_of_first(id).unwrap()]
            == a.components[a.component_ids().index_of_first(id).unwrap()],
{
    let ids_a = a.component_ids();
    let ids_b = b.component_ids();
    ids_a.index_of_first_ensures(id);
    ids_b.index_of_first_ensures(id);
    let k = ids_a.index_of_first(id).unwrap();
    let c = a.components[k];
    assert(a.components.contains(c));
    let m = choose|m: int| 0 <= m < b.components.len() && b.components[m] == c;
    assert(ids_b[m] == id);
}

/// A reference reads the same level, in whatever order the components are
/// listed.
pub proof fn lemma_level_any_order(a: SimulationView, b: SimulationView, r: CircuitElementEnum)
    requires
        a.reordered(b),
    ensures
        a.level(r) == b.level(r),
{
    match r {
        CircuitElementEnum::WireGroup(id) => {},
        CircuitElementEnum::Component(id) => {
            if a.component_ids().index_of_first(id) is Some {
                lemma_level_one_way(a, b, id);
            } else if b.component_ids().index_of_first(id) is Some {
                lemma_level_one_way(b, a, id);
            }
        },
    }
}

proof fn lemma_next_level_any_order(a: SimulationView, b: SimulationView, c: ComponentView)
    requires
        a.reordered(b),
    ensures
        next_level(c, a) == next_level(c, b),
{
    assert forall|i: int| 0 <= i < c.element.inputs.len() implies a.level(c.element.inputs[i])
        == b.level(c.element.inputs[i]) by {
        lemma_level_any_order(a, b, c.element.inputs[i]);
    }
    assert(a.levels(c.element.inputs) =~= b.levels(c.element.inputs));
}

/// The component at `k` of `a` stands somewhere in `b`.
spec fn twin(a: SimulationView, b: SimulationView, k: int) -> int {
    choose|m: int| 0 <= m < b.components.len() && b.components[m] == a.components[k]
}

proof fn lemma_twin(a: SimulationView, b: SimulationView, k: int)
    requires
        a.reordered(b),
        0 <= k < a.components.len(),
    ensures
        0 <= twin(a, b, k) < b.components.len(),
        b.components[twin(a, b, k)] == a.components[k],
        b.next_component(twin(a, b, k)) == a.next_component(k),
{
    let c = a.components[k];
    assert(a.components.contains(c));
    lemma_next_level_any_order(a, b, c);
}

proof fn lemma_tick_one_way(a: SimulationView, b: SimulationView)
    requires
        a.reordered(b),
    ensures
        forall|c: ComponentView| a.tick().components.contains(c) ==> b.tick().components.contains(c),
        a.components_propose(a.components.len() as int) ==> b.components_propose(
            b.components.len() as int,
        ),
        a.components_drain(a.components.len() as int) ==> b.components_drain(
            b.components.len() as int,
        ),
{
    assert forall|c: ComponentView| a.tick().components.contains(c) implies b.tick(
    ).components.contains(c) by {
        let k = choose|k: int| 0 <= k < a.tick().components.len() && a.tick().components[k] == c;
        lemma_twin(a, b, k);
        assert(b.tick().components[twin(a, b, k)] == c);
    }
    if a.components_propose(a.components.len() as int) {
        let k = choose|k: int|
            0 <= k < a.components.len() && (#[trigger] a.components[k]).proposes_change(
                next_level(a.components[k], a),
            );
        lemma_twin(a, b, k);
        lemma_next_level_any_order(a, b, a.components[k]);
    }
    if a.components_drain(a.components.len() as int) {
        let k = choose|k: int|
            0 <= k < a.components.len() && (#[trigger] a.components[k]).commit_drains(
                next_level(a.components[k], a),
            );
        lemma_twin(a, b, k);
        lemma_next_level_any_order(a, b, a.components[k]);
    }
}

proof fn lemma_groups_tick_any_order(a: SimulationView, b: SimulationView)
    requires
        a.reordered(b),
    ensures
        a.tick().groups == b.tick().groups,
        a.groups_change(a.groups.len() as int) == b.groups_change(b.groups.len() as int),
{
    assert forall|k: int| 0 <= k < a.groups.len() implies a.next_group_level(k)
        == b.next_group_level(k) by {
        let refs = a.groups[k].element.inputs;
        assert forall|i: int| 0 <= i < refs.len() implies a.level(refs[i]) == b.level(refs[i]) by {
            lemma_level_any_order(a, b, refs[i]);
        }
        assert(a.levels(refs) =~= b.levels(refs));
    }
    if a.groups_change(a.groups.len() as int) {
        let k = choose|k: int| 0 <= k < a.groups.len() && a.group_changes(k);
        assert(b.group_changes(k));
    }
    if b.groups_change(b.groups.len() as int) {
        let k = choose|k: int| 0 <= k < b.groups.len() && b.group_changes(k);
        assert(a.group_changes(k));
    }
}

/// A tick does not depend on the order in which the components are
/// listed: it leaves the same groups and the same components, and it finds
/// the same answer to whether anything has changed.
pub proof fn lemma_tick_any_order(a: SimulationView, b: SimulationView)
    requires
        a.reordered(b),
    ensures
        a.tick().reordered(b.tick()),
        a.tick_changes() == b.tick_changes(),
{
    lemma_groups_tick_any_order(a, b);
    lemma_tick_one_way(a, b);
    lemma_tick_one_way(b, a);
    lemma_tick_same_circuit(a);
    lemma_tick_same_circuit(b);
    lemma_same_circuit_wf(a, a.tick());
    lemma_same_circuit_wf(b, b.tick());
}

/// Ticking until rest does not depend on the order in which the
/// components are listed.
pub proof fn lemma_stabilize_any_order(a: SimulationView, b: SimulationView, depth: nat)
    requires
        a.reordered(b),
    ensures
        a.stabilize(depth).reordered(b.stabilize(depth)),
        a.restless(depth) == b.restless(depth),
    decreases depth,
{
    if depth > 0 {
        lemma_tick_any_order(a, b);
        lemma_stabilize_any_order(a.tick(), b.tick(), (depth - 1) as nat);
    }
}

proof fn lemma_age_one_way(a: SimulationView, b: SimulationView)
    requires
        a.reordered(b),
    ensures
        forall|c: ComponentView|
            a.age_timers().components.contains(c) ==> b.age_timers().components.contains(c),
{
    assert forall|c: ComponentView| a.age_timers().components.contains(c) implies b.age_timers(
    ).components.contains(c) by {
        let k = choose|k: int|
            0 <= k < a.age_timers().components.len() && a.age_timers().components[k] == c;
        let before = a.components[k];
        assert(a.components.contains(before));
        let m = choose|m: int| 0 <= m < b.components.len() && b.components[m] == before;
        assert(b.age_timers().components[m] == c);
    }
}

/// A stabilization does not depend on the order in which the components
/// are listed.
pub proof fn lemma_settle_any_order(a: SimulationView, b: SimulationView, depth: nat)
    requires
        a.reordered(b),
    ensures
        a.settle(depth).reordered(b.settle(depth)),
        a.restless(depth) == b.restless(depth),
{
    lemma_stabilize_any_order(a, b, depth);
    let x = a.stabilize(depth);
    let y = b.stabilize(depth);
    lemma_age_one_way(x, y);
    lemma_age_one_way(y, x);
    assert(x.age_timers().component_ids() =~= x.component_ids());
    assert(y.age_timers().component_ids() =~= y.component_ids());
}

/// A frame does not depend on the order in which the components are
/// listed: it leaves the same groups and the same components, and as many of
/// its stabilizations stop at the bound.
pub proof fn lemma_frame_any_order(a: SimulationView, b: SimulationView, depth: nat, ticks: nat)
    requires
        a.reordered(b),
    ensures
        a.frame(depth, ticks).reordered(b.frame(depth, ticks)),
        a.frame_unsettled(depth, ticks) == b.frame_unsettled(depth, ticks),
    decreases ticks,
{
    if ticks > 0 {
        lemma_settle_any_order(a, b, depth);
        lemma_frame_any_order(a.settle(depth), b.settle(depth), depth, (ticks - 1) as nat);
    }
}

proof fn lemma_recorded_one_way(a: SimulationView, b: SimulationView, id: usize)
    requires
        a.reordered(b),
        recorded(snapshot_components(a.components), id) is Some,
    ensures
        recorded(snapshot_components(b.components), id) == recorded(
            snapshot_components(a.components),
            id,
        ),
{
    let ids_a = snapshot_ids(snapshot_components(a.components));
    let ids_b = snapshot_ids(snapshot_components(b.components));
    assert(ids_a =~= a.component_ids());
    assert(ids_b =~= b.component_ids());
    lemma_level_one_way(a, b, id);
    ids_a.index_of_first_ensures(id);
    ids_b.index_of_first_ensures(id);
}

proof fn lemma_report_one_way(
    a0: SimulationView,
    b0: SimulationView,
    a1: SimulationView,
    b1: SimulationView,
)
    requires
        a0.reordered(b0),
        a1.reordered(b1),
    ensures
        forall|e: ChangedElement|
            changed_components(snapshot_components(a0.components), a1.components).contains(e)
                ==> changed_components(snapshot_components(b0.components), b1.components).contains(
                e,
            ),
{
    let old_a = snapshot_components(a0.components);
    let old_b = snapshot_components(b0.components);
    lemma_changed_components_scoped(old_a, a1.components);
    lemma_changed_components_scoped(old_b, b1.components);
    assert forall|e: ChangedElement|
        changed_components(old_a, a1.components).contains(e) implies changed_components(
        old_b,
        b1.components,
    ).contains(e) by {
        let k = choose|k: int|
            0 <= k < a1.components.len() && component_differs(old_a, #[trigger] a1.components[k])
                && e == (ChangedElement {
                id: a1.components[k].element.id,
                state: a1.components[k].element.state,
            });
        let c = a1.components[k];
        assert(a1.components.contains(c));
        lemma_recorded_one_way(a0, b0, c.element.id);
    }
}

/// What a frame reports does not depend on the order in which the
/// components are listed: the wires that it reports are the same, and it
/// reports the same components.
pub proof fn lemma_report_any_order(a: SimulationView, b: SimulationView, depth: nat, ticks: nat)
    requires
        a.reordered(b),
    ensures
        changed_wires(snapshot_groups(a.groups), a.frame(depth, ticks).groups) == changed_wires(
            snapshot_groups(b.groups),
            b.frame(depth, ticks).groups,
        ),
        forall|e: ChangedElement|
            changed_components(
                snapshot_components(a.components),
                a.frame(depth, ticks).components,
            ).contains(e) <==> changed_components(
                snapshot_components(b.components),
                b.frame(depth, ticks).components,
            ).contains(e),
{
    lemma_frame_any_order(a, b, depth, ticks);
    lemma_report_one_way(a, b, a.frame(depth, ticks), b.frame(depth, ticks));
    lemma_report_one_way(b, a, b.frame(depth, ticks), a.frame(depth, ticks));
}

proof fn lemma_switch_one_way(a: SimulationView, b: SimulationView, id: usize, state: bool)
    requires
        a.reordered(b),
    ensures
        forall|c: ComponentView|
            a.with_switch_state(id, state).components.contains(c) ==> b.with_switch_state(
                id,
                state,
            ).components.contains(c),
        a.has_switch(id) ==> b.has_switch(id),
{
    let ids_a = a.component_ids();
    let ids_b = b.component_ids();
    ids_a.index_of_first_ensures(id);
    ids_b.index_of_first_ensures(id);
    let after_a = a.with_switch_state(id, state);
    let after_b = b.with_switch_state(id, state);
    if ids_a.index_of_first(id) is Some {
        lemma_level_one_way(a, b, id);
    }
    assert forall|c: ComponentView| after_a.components.contains(c) implies after_b.components.contains(
        c,
    ) by {
        let k = choose|k: int| 0 <= k < after_a.components.len() && after_a.components[k] == c;
        let before = a.components[k];
        assert(a.components.contains(before));
        let m = choose|m: int| 0 <= m < b.components.len() && b.components[m] == before;
        assert(ids_a[k] == before.element.id);
        assert(ids_b[m] == before.element.id);
        if a.has_switch(id) && before.element.id == id {
            assert(after_b.components[m] == c);
        } else {
            assert(after_b.components[m] == c);
        }
    }
}

/// Writing to a switch does not depend on the order in which the
/// components are listed.
pub proof fn lemma_switch_any_order(a: SimulationView, b: SimulationView, id: usize, state: bool)
    requires
        a.reordered(b),
    ensures
        a.with_switch_state(id, state).reordered(b.with_switch_state(id, state)),
        a.has_switch(id) == b.has_switch(id),
{
    lemma_switch_one_way(a, b, id, state);
    lemma_switch_one_way(b, a, id, state);
    lemma_with_switch_state(a, id, state);
    lemma_with_switch_state(b, id, state);
    lemma_same_circuit_wf(a, a.with_switch_state(id, state));
    lemma_same_circuit_wf(b, b.with_switch_state(id, state));
}

/// What a host does to a circuit that has been built: it writes to a
/// switch, or it asks for a frame.
pub enum Step {
    Write { id: usize, state: bool },
    Frame { max_depth: u32, ticks: u32 },
}

impl SimulationView {
    /// The circuit after one step.
    pub open spec fn step(self, step: Step) -> SimulationView {
        match step {
            Step::Write { id, state } => self.with_switch_state(id, state),
            Step::Frame { max_depth, ticks } => self.frame(max_depth as nat, ticks as nat),
        }
    }

    /// The circuit after a sequence of steps.
    pub open spec fn run(self, script: Seq<Step>) -> SimulationView
        decreases script.len(),
    {
        if script.len() == 0 {
            self
        } else {
            self.run(script.drop_last()).step(script.last())
        }
    }
}

/// A sequence of switch writes and frames leaves the same circuit, in
/// whatever order the components are listed.
pub proof fn lemma_run_any_order(a: SimulationView, b: SimulationView, script: Seq<Step>)
    requires
        a.reordered(b),
    ensures
        a.run(script).reordered(b.run(script)),
    decreases script.len(),
{
    if script.len() > 0 {
        lemma_run_any_order(a, b, script.drop_last());
        let x = a.run(script.drop_last());
        let y = b.run(script.drop_last());
        match script.last() {
            Step::Write { id, state } => {
                lemma_switch_any_order(x, y, id, state);
            },
            Step::Frame { max_depth, ticks } => {
                lemma_frame_any_order(x, y, max_depth as nat, ticks as nat);
            },
        }
    }
}

/// After any sequence of switch writes and frames, a frame reports the
/// same changes, in whatever order the components are listed: the same wires
/// in the same order, the same components, and as many stabilizations that
/// stopped at the bound.
pub proof fn lemma_reports_do_not_depend_on_order(
    a: SimulationView,
    b: SimulationView,
    script: Seq<Step>,
    max_depth: nat,
    ticks: nat,
)
    requires
        a.reordered(b),
    ensures
        changed_wires(
            snapshot_groups(a.run(script).groups),
            a.run(script).frame(max_depth, ticks).groups,
        ) == changed_wires(
            snapshot_groups(b.run(script).groups),
            b.run(script).frame(max_depth, ticks).groups,
        ),
        forall|e: ChangedElement|
            changed_components(
                snapshot_components(a.run(script).components),
                a.run(script).frame(max_depth, ticks).components,
            ).contains(e) <==> changed_components(
                snapshot_components(b.run(script).components),
                b.run(script).frame(max_depth, ticks).components,
            ).contains(e),
        a.run(script).frame_unsettled(max_depth, ticks) == b.run(script).frame_unsettled(
            max_depth,
            ticks,
        ),
{
    lemma_run_any_order(a, b, script);
    lemma_report_any_order(a.run(script), b.run(script), max_depth, ticks);
    lemma_frame_any_order(a.run(script), b.run(script), max_depth, ticks);
}

} // verus!
