//! The connectivity pass: the groups that the wires form, and the links
//! between components and groups wherever a pin lies on a wire.

use vstd::prelude::*;
use crate::circuit_element::CircuitElementEnum;
use crate::grouping::{
    bare_group, connected, grouping, joined_positions, lemma_groups_are_connected_parts,
    lemma_groups_hold_wires, same_group, touches,
};
use crate::model::{ComponentView, GroupView, SimulationView, WireView};
use crate::composant::ComposantsEnum;
use crate::simulation::Simulation;
use crate::types::Position;
use crate::wire::WireGroup;

verus! {

/// How often `p` occurs among `positions`.
pub open spec fn occurrences(positions: Seq<Position>, p: Position) -> nat
    decreases positions.len(),
{
    if positions.len() == 0 {
        0
    } else {
        occurrences(positions.drop_last(), p) + if positions.last() == p {
            1nat
        } else {
            0nat
        }
    }
}

/// How many pairs of a position and a pin coincide.
pub open spec fn pin_hits(positions: Seq<Position>, pins: Seq<Position>) -> nat
    decreases positions.len(),
{
    if positions.len() == 0 {
        0
    } else {
        pin_hits(positions.drop_last(), pins) + occurrences(pins, positions.last())
    }
}

/// `n` times the same reference.
pub open spec fn copies(r: CircuitElementEnum, n: nat) -> Seq<CircuitElementEnum> {
    Seq::new(n, |i: int| r)
}

/// The references that pins get to the first `n` groups, of which
/// `positions` holds the positions: group after group, one to the group for
/// every pair of a pin and a position of the group that coincide. A group is
/// named by its place in the list.
pub open spec fn links_to_groups(
    pins: Seq<Position>,
    positions: Seq<Seq<Position>>,
    n: nat,
) -> Seq<CircuitElementEnum>
    decreases n,
{
    if n == 0 {
        Seq::empty()
    } else {
        links_to_groups(pins, positions, (n - 1) as nat) + copies(
            CircuitElementEnum::WireGroup((n - 1) as usize),
            pin_hits(positions[n - 1], pins),
        )
    }
}

/// The pins through which a component drives a group: its output pin.
pub open spec fn driving_pins(c: ComponentView) -> Seq<Position> {
    seq![c.output_position]
}

/// The references that a group gets to the first `n` components:
/// component after component, one to the component for every pair of a
/// position of the group and one of the component's pins that coincide. With
/// `driving` the pins are the output pins, and the references are the
/// group's inputs; without, the pins are the input pins, and the references
/// are the group's outputs.
pub open spec fn links_to_components(
    positions: Seq<Position>,
    components: Seq<ComponentView>,
    driving: bool,
    n: nat,
) -> Seq<CircuitElementEnum>
    decreases n,
{
    if n == 0 {
        Seq::empty()
    } else {
        let c = components[n - 1];
        links_to_components(positions, components, driving, (n - 1) as nat) + copies(
            CircuitElementEnum::Component(c.element.id),
            pin_hits(
                positions,
                if driving {
                    driving_pins(c)
                } else {
                    c.input_positions
                },
            ),
        )
    }
}

/// The positions of each group of a grouping.
pub open spec fn group_positions(wires: Seq<WireView>, grouping: Seq<Seq<int>>) -> Seq<
    Seq<Position>,
> {
    Seq::new(grouping.len(), |k: int| joined_positions(wires, grouping[k]))
}

impl SimulationView {
    /// The group that the wires `members` form, as the `k`-th of the
    /// circuit: at level `false`, driven by the components whose output pin
    /// lies on it, and driving those that have an input pin on it.
    pub open spec fn group_of(self, k: int, members: Seq<int>) -> GroupView {
        let positions = joined_positions(self.wires, members);
        bare_group(self.wires, k, members).relinked(
            links_to_components(positions, self.components, true, self.components.len()),
            links_to_components(positions, self.components, false, self.components.len()),
        )
    }

    /// The component at `c`, linked anew to the groups of a grouping: it
    /// reads the groups on which it has an input pin and drives those on
    /// which its output pin lies.
    pub open spec fn linked_component(self, c: int, grouping: Seq<Seq<int>>) -> ComponentView {
        let component = self.components[c];
        let positions = group_positions(self.wires, grouping);
        component.relinked(
            links_to_groups(component.input_positions, positions, grouping.len()),
            links_to_groups(driving_pins(component), positions, grouping.len()),
        )
    }

    /// The circuit after a connectivity pass that groups the wires as
    /// `grouping` says: the wires as they were, the groups made anew, and
    /// every component linked anew. Components keep their levels.
    pub open spec fn connect(self, grouping: Seq<Seq<int>>) -> SimulationView {
        SimulationView {
            components: Seq::new(
                self.components.len(),
                |c: int| self.linked_component(c, grouping),
            ),
            wires: self.wires,
            groups: Seq::new(grouping.len(), |k: int| self.group_of(k, grouping[k])),
        }
    }
}

pub proof fn lemma_occurrences_push(positions: Seq<Position>, q: Position, p: Position)
    ensures
        occurrences(positions.push(q), p) == occurrences(positions, p) + if q == p {
            1nat
        } else {
            0nat
        },
{
    assert(positions.push(q).drop_last() == positions);
}

pub proof fn lemma_pin_hits_push(positions: Seq<Position>, q: Position, pins: Seq<Position>)
    ensures
        pin_hits(positions.push(q), pins) == pin_hits(positions, pins) + occurrences(pins, q),
{
    assert(positions.push(q).drop_last() == positions);
}

pub proof fn lemma_driving_hits(c: ComponentView, q: Position)
    ensures
        occurrences(driving_pins(c), q) == if c.output_position == q {
            1nat
        } else {
            0nat
        },
{
    let pins = driving_pins(c);
    assert(occurrences(pins.drop_last(), q) == 0);
}

/// Links a component and a group to each other, once for every pin of the
/// component and position of the group that coincide. Where the pin is the
/// output pin, the component gets the group as an output and the group
/// gets the component as an input; where it is an input pin, the other way
/// round.
pub fn link(component: &mut ComposantsEnum, group: &mut WireGroup)
    ensures
        final(component)@ == old(component)@.relinked(
            old(component)@.element.inputs + copies(
                CircuitElementEnum::WireGroup(old(group)@.element.id),
                pin_hits(old(group)@.positions, old(component)@.input_positions),
            ),
            old(component)@.element.outputs + copies(
                CircuitElementEnum::WireGroup(old(group)@.element.id),
                pin_hits(old(group)@.positions, driving_pins(old(component)@)),
            ),
        ),
        final(group)@ == old(group)@.relinked(
            old(group)@.element.inputs + copies(
                CircuitElementEnum::Component(old(component)@.element.id),
                pin_hits(old(group)@.positions, driving_pins(old(component)@)),
            ),
            old(group)@.element.outputs + copies(
                CircuitElementEnum::Component(old(component)@.element.id),
                pin_hits(old(group)@.positions, old(component)@.input_positions),
            ),
        ),
{
    let ghost c0 = component@;
    let ghost g0 = group@;
    let output_position = component.output_position();
    let input_positions = component.input_positions();
    let to_group = CircuitElementEnum::WireGroup(group.circuit_element.id);
    let to_component = CircuitElementEnum::Component(component.circuit_element().id);
    let mut p: usize = 0;
    while p < group.positions.len()
        invariant
            p <= group.positions.len(),
            output_position == c0.output_position,
            input_positions@ == c0.input_positions,
            to_group == CircuitElementEnum::WireGroup(g0.element.id),
            to_component == CircuitElementEnum::Component(c0.element.id),
            component@ == c0.relinked(
                c0.element.inputs + copies(
                    to_group,
                    pin_hits(g0.positions.take(p as int), c0.input_positions),
                ),
                c0.element.outputs + copies(
                    to_group,
                    pin_hits(g0.positions.take(p as int), driving_pins(c0)),
                ),
            ),
            group@ == g0.relinked(
                g0.element.inputs + copies(
                    to_component,
                    pin_hits(g0.positions.take(p as int), driving_pins(c0)),
                ),
                g0.element.outputs + copies(
                    to_component,
                    pin_hits(g0.positions.take(p as int), c0.input_positions),
                ),
            ),
        decreases group.positions.len() - p,
    {
        let pos = group.positions[p];
        let ghost before = g0.positions.take(p as int);
        let ghost driving = pin_hits(before, driving_pins(c0));
        let ghost reading = pin_hits(before, c0.input_positions);
        proof {
            assert(g0.positions.take(p + 1) == before.push(pos));
            lemma_pin_hits_push(before, pos, driving_pins(c0));
            lemma_pin_hits_push(before, pos, c0.input_positions);
            lemma_driving_hits(c0, pos);
        }
        if output_position == pos {
            component.add_output(to_group);
            group.circuit_element.inputs.push(to_component);
            assert(component@.element.outputs == c0.element.outputs + copies(
                to_group,
                driving + 1,
            ));
            assert(group@.element.inputs == g0.element.inputs + copies(to_component, driving + 1));
        }
        let mut q: usize = 0;
        while q < input_positions.len()
            invariant
                q <= input_positions.len(),
                input_positions@ == c0.input_positions,
                component@ == c0.relinked(
                    c0.element.inputs + copies(
                        to_group,
                        reading + occurrences(c0.input_positions.take(q as int), pos),
                    ),
                    c0.element.outputs + copies(
                        to_group,
                        pin_hits(g0.positions.take(p + 1), driving_pins(c0)),
                    ),
                ),
                group@ == g0.relinked(
                    g0.element.inputs + copies(
                        to_component,
                        pin_hits(g0.positions.take(p + 1), driving_pins(c0)),
                    ),
                    g0.element.outputs + copies(
                        to_component,
                        reading + occurrences(c0.input_positions.take(q as int), pos),
                    ),
                ),
            decreases input_positions.len() - q,
        {
            let ghost seen = occurrences(c0.input_positions.take(q as int), pos);
            proof {
                assert(c0.input_positions.take(q + 1) == c0.input_positions.take(q as int).push(
                    input_positions@[q as int],
                ));
                lemma_occurrences_push(
                    c0.input_positions.take(q as int),
                    input_positions@[q as int],
                    pos,
                );
            }
            if input_positions[q] == pos {
                component.add_input(to_group);
                group.circuit_element.outputs.push(to_component);
                assert(component@.element.inputs == c0.element.inputs + copies(
                    to_group,
                    reading + seen + 1,
                ));
                assert(group@.element.outputs == g0.element.outputs + copies(
                    to_component,
                    reading + seen + 1,
                ));
            }
            q += 1;
        }
        assert(c0.input_positions.take(input_positions.len() as int) == c0.input_positions);
        p += 1;
    }
    assert(g0.positions.take(group.positions.len() as int) == g0.positions);
}

proof fn lemma_occurrences_contains(pins: Seq<Position>, p: Position)
    ensures
        occurrences(pins, p) > 0 <==> pins.contains(p),
    decreases pins.len(),
{
    if pins.len() > 0 {
        let front = pins.drop_last();
        lemma_occurrences_contains(front, p);
        if front.contains(p) {
            let i = choose|i: int| 0 <= i < front.len() && front[i] == p;
            assert(pins[i] == p);
        }
        if pins.contains(p) {
            let i = choose|i: int| 0 <= i < pins.len() && pins[i] == p;
            if i < front.len() {
                assert(front[i] == p);
            }
        }
    }
}

/// Some pin coincides with some position just when pin and position have
/// a point in common.
pub proof fn lemma_pin_hits_touch(positions: Seq<Position>, pins: Seq<Position>)
    ensures
        pin_hits(positions, pins) > 0 <==> touches(positions, pins),
    decreases positions.len(),
{
    if positions.len() > 0 {
        let front = positions.drop_last();
        lemma_pin_hits_touch(front, pins);
        lemma_occurrences_contains(pins, positions.last());
        if touches(front, pins) {
            let (i, j) = choose|i: int, j: int|
                0 <= i < front.len() && 0 <= j < pins.len() && front[i] == pins[j];
            assert(positions[i] == pins[j]);
        }
        if pins.contains(positions.last()) {
            let j = choose|j: int| 0 <= j < pins.len() && pins[j] == positions.last();
            assert(positions[positions.len() - 1] == pins[j]);
        }
        if touches(positions, pins) {
            let (i, j) = choose|i: int, j: int|
                0 <= i < positions.len() && 0 <= j < pins.len() && positions[i] == pins[j];
            if i < front.len() {
                assert(front[i] == pins[j]);
            }
        }
    }
}

proof fn lemma_copies_contains(r: CircuitElementEnum, n: nat, x: CircuitElementEnum)
    ensures
        copies(r, n).contains(x) <==> n > 0 && x == r,
{
    if n > 0 {
        assert(copies(r, n)[0] == r);
    }
}

proof fn lemma_added_contains(
    a: Seq<CircuitElementEnum>,
    b: Seq<CircuitElementEnum>,
    x: CircuitElementEnum,
)
    ensures
        (a + b).contains(x) <==> a.contains(x) || b.contains(x),
{
    if a.contains(x) {
        let i = choose|i: int| 0 <= i < a.len() && a[i] == x;
        assert((a + b)[i] == x);
    }
    if b.contains(x) {
        let i = choose|i: int| 0 <= i < b.len() && b[i] == x;
        assert((a + b)[a.len() + i] == x);
    }
}

/// Pins are linked to a group just when one of them lies on a position of
/// the group.
pub proof fn lemma_links_to_groups(
    pins: Seq<Position>,
    positions: Seq<Seq<Position>>,
    n: nat,
    k: usize,
)
    requires
        n <= positions.len(),
        n <= usize::MAX,
    ensures
        links_to_groups(pins, positions, n).contains(CircuitElementEnum::WireGroup(k)) <==> k < n
            && touches(positions[k as int], pins),
        forall|id: usize|
            !links_to_groups(pins, positions, n).contains(CircuitElementEnum::Component(id)),
    decreases n,
{
    if n > 0 {
        let front = links_to_groups(pins, positions, (n - 1) as nat);
        let to_group = CircuitElementEnum::WireGroup((n - 1) as usize);
        let last = copies(to_group, pin_hits(positions[n - 1], pins));
        lemma_links_to_groups(pins, positions, (n - 1) as nat, k);
        lemma_pin_hits_touch(positions[n - 1], pins);
        lemma_copies_contains(
            to_group,
            pin_hits(positions[n - 1], pins),
            CircuitElementEnum::WireGroup(k),
        );
        lemma_added_contains(front, last, CircuitElementEnum::WireGroup(k));
        assert forall|id: usize|
            !links_to_groups(pins, positions, n).contains(CircuitElementEnum::Component(id)) by {
            lemma_copies_contains(
                to_group,
                pin_hits(positions[n - 1], pins),
                CircuitElementEnum::Component(id),
            );
            lemma_added_contains(front, last, CircuitElementEnum::Component(id));
        }
    }
}

/// A group is linked to a component id just when a component with that id
/// has one of the pins in question on a position of the group.
pub proof fn lemma_links_to_components(
    positions: Seq<Position>,
    components: Seq<ComponentView>,
    driving: bool,
    n: nat,
    id: usize,
)
    requires
        n <= components.len(),
    ensures
        links_to_components(positions, components, driving, n).contains(
            CircuitElementEnum::Component(id),
        ) <==> exists|c: int|
            0 <= c < n && (#[trigger] components[c]).element.id == id && touches(
                positions,
                if driving {
                    driving_pins(components[c])
                } else {
                    components[c].input_positions
                },
            ),
    decreases n,
{
    if n > 0 {
        let front = links_to_components(positions, components, driving, (n - 1) as nat);
        let c = components[n - 1];
        let pins = if driving {
            driving_pins(c)
        } else {
            c.input_positions
        };
        let to_component = CircuitElementEnum::Component(c.element.id);
        let last = copies(to_component, pin_hits(positions, pins));
        lemma_links_to_components(positions, components, driving, (n - 1) as nat, id);
        lemma_pin_hits_touch(positions, pins);
        lemma_copies_contains(
            to_component,
            pin_hits(positions, pins),
            CircuitElementEnum::Component(id),
        );
        lemma_added_contains(front, last, CircuitElementEnum::Component(id));
    }
}

/// After a connectivity pass a component reads a group just when one of
/// its input pins lies on a position of the group, and drives a group just
/// when its output pin does.
pub proof fn lemma_component_linked_where_pins_lie(
    v: SimulationView,
    grouping: Seq<Seq<int>>,
    c: int,
    k: usize,
)
    requires
        0 <= c < v.components.len(),
        grouping.len() <= usize::MAX,
    ensures
        v.connect(grouping).components[c].element.inputs.contains(
            CircuitElementEnum::WireGroup(k),
        ) <==> k < grouping.len() && touches(
            joined_positions(v.wires, grouping[k as int]),
            v.components[c].input_positions,
        ),
        v.connect(grouping).components[c].element.outputs.contains(
            CircuitElementEnum::WireGroup(k),
        ) <==> k < grouping.len() && joined_positions(v.wires, grouping[k as int]).contains(
            v.components[c].output_position,
        ),
{
    let positions = group_positions(v.wires, grouping);
    let component = v.components[c];
    lemma_links_to_groups(component.input_positions, positions, grouping.len(), k);
    lemma_links_to_groups(driving_pins(component), positions, grouping.len(), k);
}

/// After a connectivity pass a group is driven by a component id just
/// when a component with that id has its output pin on a position of the
/// group, and drives a component id just when a component with that id has
/// an input pin there.
pub proof fn lemma_group_linked_where_pins_lie(
    v: SimulationView,
    grouping: Seq<Seq<int>>,
    k: int,
    id: usize,
)
    requires
        0 <= k < grouping.len(),
    ensures
        v.connect(grouping).groups[k].element.inputs.contains(CircuitElementEnum::Component(id))
            <==> exists|c: int|
            0 <= c < v.components.len() && (#[trigger] v.components[c]).element.id == id
                && joined_positions(v.wires, grouping[k]).contains(v.components[c].output_position),
        v.connect(grouping).groups[k].element.outputs.contains(CircuitElementEnum::Component(id))
            <==> exists|c: int|
            0 <= c < v.components.len() && (#[trigger] v.components[c]).element.id == id
                && touches(joined_positions(v.wires, grouping[k]), v.components[c].input_positions),
{
    let joined = joined_positions(v.wires, grouping[k]);
    lemma_links_to_components(joined, v.components, true, v.components.len(), id);
    lemma_links_to_components(joined, v.components, false, v.components.len(), id);
    assert forall|c: int| 0 <= c < v.components.len() implies (touches(
        joined,
        driving_pins(#[trigger] v.components[c]),
    ) <==> joined.contains(v.components[c].output_position)) by {
        let component = v.components[c];
        if touches(joined, driving_pins(component)) {
            let (i, j) = choose|i: int, j: int|
                0 <= i < joined.len() && 0 <= j < driving_pins(component).len() && joined[i]
                    == driving_pins(component)[j];
            assert(joined[i] == component.output_position);
        }
        if joined.contains(component.output_position) {
            let i = choose|i: int| 0 <= i < joined.len() && joined[i] == component.output_position;
            assert(joined[i] == driving_pins(component)[0]);
        }
    }
}

proof fn lemma_links_to_components_kind(
    positions: Seq<Position>,
    components: Seq<ComponentView>,
    driving: bool,
    n: nat,
    k: usize,
)
    requires
        n <= components.len(),
    ensures
        !links_to_components(positions, components, driving, n).contains(
            CircuitElementEnum::WireGroup(k),
        ),
    decreases n,
{
    if n > 0 {
        let front = links_to_components(positions, components, driving, (n - 1) as nat);
        let c = components[n - 1];
        let pins = if driving {
            driving_pins(c)
        } else {
            c.input_positions
        };
        let to_component = CircuitElementEnum::Component(c.element.id);
        let last = copies(to_component, pin_hits(positions, pins));
        lemma_links_to_components_kind(positions, components, driving, (n - 1) as nat, k);
        lemma_copies_contains(
            to_component,
            pin_hits(positions, pins),
            CircuitElementEnum::WireGroup(k),
        );
        lemma_added_contains(front, last, CircuitElementEnum::WireGroup(k));
    }
}

/// All references of the list name wire groups.
pub open spec fn name_groups(refs: Seq<CircuitElementEnum>) -> bool {
    forall|i: int| 0 <= i < refs.len() ==> refs[i] is WireGroup
}

/// All references of the list name components.
pub open spec fn name_components(refs: Seq<CircuitElementEnum>) -> bool {
    forall|i: int| 0 <= i < refs.len() ==> refs[i] is Component
}

/// After a connectivity pass components are linked to groups only, and
/// groups to components only: no component reads a component, and no group
/// a group.
pub proof fn lemma_connect_bipartite(v: SimulationView, grouping: Seq<Seq<int>>)
    requires
        grouping.len() <= usize::MAX,
    ensures
        forall|c: int|
            0 <= c < v.components.len() ==> name_groups(
                (#[trigger] v.connect(grouping).components[c]).element.inputs,
            ) && name_groups(v.connect(grouping).components[c].element.outputs),
        forall|k: int|
            0 <= k < grouping.len() ==> name_components(
                (#[trigger] v.connect(grouping).groups[k]).element.inputs,
            ) && name_components(v.connect(grouping).groups[k].element.outputs),
{
    let positions = group_positions(v.wires, grouping);
    let after = v.connect(grouping);
    assert forall|c: int| 0 <= c < v.components.len() implies name_groups(
        (#[trigger] after.components[c]).element.inputs,
    ) && name_groups(after.components[c].element.outputs) by {
        let inputs = after.components[c].element.inputs;
        let outputs = after.components[c].element.outputs;
        lemma_links_to_groups(v.components[c].input_positions, positions, grouping.len(), 0);
        lemma_links_to_groups(driving_pins(v.components[c]), positions, grouping.len(), 0);
        assert forall|i: int| 0 <= i < inputs.len() implies inputs[i] is WireGroup by {
            if inputs[i] is Component {
                assert(inputs.contains(CircuitElementEnum::Component(inputs[i]->Component_0)));
            }
        }
        assert forall|i: int| 0 <= i < outputs.len() implies outputs[i] is WireGroup by {
            if outputs[i] is Component {
                assert(outputs.contains(CircuitElementEnum::Component(outputs[i]->Component_0)));
            }
        }
    }
    assert forall|k: int| 0 <= k < grouping.len() implies name_components(
        (#[trigger] after.groups[k]).element.inputs,
    ) && name_components(after.groups[k].element.outputs) by {
        let joined = joined_positions(v.wires, grouping[k]);
        let inputs = after.groups[k].element.inputs;
        let outputs = after.groups[k].element.outputs;
        assert forall|i: int| 0 <= i < inputs.len() implies inputs[i] is Component by {
            if inputs[i] is WireGroup {
                let id = inputs[i]->WireGroup_0;
                lemma_links_to_components_kind(joined, v.components, true, v.components.len(), id);
            }
        }
        assert forall|i: int| 0 <= i < outputs.len() implies outputs[i] is Component by {
            if outputs[i] is WireGroup {
                let id = outputs[i]->WireGroup_0;
                lemma_links_to_components_kind(joined, v.components, false, v.components.len(), id);
            }
        }
    }
}

/// A connectivity pass leaves a well-formed circuit well formed: it keeps
/// the ids of components and wires, and it names every group by its place.
pub proof fn lemma_connect_wf(v: SimulationView, grouping: Seq<Seq<int>>)
    requires
        grouping.len() <= usize::MAX,
    ensures
        v.connect(grouping).component_ids() == v.component_ids(),
        v.connect(grouping).wire_ids() == v.wire_ids(),
        v.wf() ==> v.connect(grouping).wf(),
{
    assert(v.connect(grouping).component_ids() =~= v.component_ids());
}

proof fn lemma_links_to_components_same(
    positions: Seq<Position>,
    one: Seq<ComponentView>,
    other: Seq<ComponentView>,
    driving: bool,
    n: nat,
)
    requires
        n <= one.len(),
        n <= other.len(),
        forall|c: int|
            0 <= c < n ==> (#[trigger] one[c]).element.id == other[c].element.id
                && one[c].output_position == other[c].output_position && one[c].input_positions
                == other[c].input_positions,
    ensures
        links_to_components(positions, one, driving, n) == links_to_components(
            positions,
            other,
            driving,
            n,
        ),
    decreases n,
{
    if n > 0 {
        lemma_links_to_components_same(positions, one, other, driving, (n - 1) as nat);
    }
}

/// A second connectivity pass gives what the first gave: the pass depends
/// on where wires and pins lie and on nothing that it changes.
pub proof fn lemma_second_pass_changes_nothing(v: SimulationView)
    ensures
        v.connect(grouping(v.wires)).connect(grouping(v.connect(grouping(v.wires)).wires))
            == v.connect(grouping(v.wires)),
{
    lemma_connect_again(v, grouping(v.wires));
}

proof fn lemma_connect_again(v: SimulationView, grouping: Seq<Seq<int>>)
    ensures
        v.connect(grouping).connect(grouping) == v.connect(grouping),
{
    let once = v.connect(grouping);
    let twice = once.connect(grouping);
    assert(twice.components =~= once.components);
    assert forall|k: int| 0 <= k < grouping.len() implies twice.groups[k] == once.groups[k] by {
        let positions = joined_positions(v.wires, grouping[k]);
        lemma_links_to_components_same(
            positions,
            once.components,
            v.components,
            true,
            v.components.len(),
        );
        lemma_links_to_components_same(
            positions,
            once.components,
            v.components,
            false,
            v.components.len(),
        );
    }
    assert(twice.groups =~= once.groups);
}

/// Whether one of the groups lists both wire ids.
pub open spec fn grouped_together(groups: Seq<GroupView>, a: usize, b: usize) -> bool {
    exists|k: int|
        0 <= k < groups.len() && (#[trigger] groups[k]).wires.contains(a) && groups[k].wires.contains(
            b,
        )
}

proof fn lemma_listed_member(v: SimulationView, k: int, j: int)
    requires
        v.wire_ids().no_duplicates(),
        0 <= k < grouping(v.wires).len(),
        0 <= j < v.wires.len(),
    ensures
        v.connect(grouping(v.wires)).groups[k].wires.contains(v.wires[j].element.id) <==> grouping(
            v.wires,
        )[k].contains(j),
{
    let members = grouping(v.wires)[k];
    let listed = v.connect(grouping(v.wires)).groups[k].wires;
    lemma_groups_hold_wires(v.wires);
    if members.contains(j) {
        let t = choose|t: int| 0 <= t < members.len() && members[t] == j;
        assert(listed[t] == v.wires[j].element.id);
    }
    if listed.contains(v.wires[j].element.id) {
        let t = choose|t: int| 0 <= t < listed.len() && listed[t] == v.wires[j].element.id;
        assert(v.wire_ids()[members[t]] == v.wire_ids()[j]);
    }
}

/// After a connectivity pass two wires are listed in the same group just
/// when they are the same wire or touch, directly or through other wires.
pub proof fn lemma_wires_grouped_by_touch(v: SimulationView, a: int, b: int)
    requires
        v.wire_ids().no_duplicates(),
        0 <= a < v.wires.len(),
        0 <= b < v.wires.len(),
    ensures
        grouped_together(
            v.connect(grouping(v.wires)).groups,
            v.wires[a].element.id,
            v.wires[b].element.id,
        ) <==> connected(v.wires, a, b),
{
    let groups = v.connect(grouping(v.wires)).groups;
    let id_a = v.wires[a].element.id;
    let id_b = v.wires[b].element.id;
    lemma_groups_are_connected_parts(v.wires, a, b);
    if grouped_together(groups, id_a, id_b) {
        let k = choose|k: int|
            0 <= k < groups.len() && (#[trigger] groups[k]).wires.contains(id_a)
                && groups[k].wires.contains(id_b);
        lemma_listed_member(v, k, a);
        lemma_listed_member(v, k, b);
    }
    if same_group(grouping(v.wires), a, b) {
        let k = choose|k: int|
            0 <= k < grouping(v.wires).len() && (#[trigger] grouping(v.wires)[k]).contains(a)
                && grouping(v.wires)[k].contains(b);
        lemma_listed_member(v, k, a);
        lemma_listed_member(v, k, b);
    }
}

impl Simulation {
    /// Derives the circuit's connectivity from where its wires and pins
    /// lie. The wire groups are made anew: wires that touch, directly or
    /// through other wires, form one group. Then every component and every
    /// group are linked wherever a pin of the one lies on a position of the
    /// other; the links that were there before are dropped. Levels of
    /// components stay; all groups start at `false`.
    pub fn compute_connections(&mut self)
        ensures
            final(self)@ == old(self)@.connect(grouping(old(self)@.wires)),
            old(self)@.wf() ==> final(self)@.wf(),
    {
        let ghost v0 = self@;
        let (groups, Ghost(grouping)) = self.group_wires();
        proof {
            assert(grouping.len() == groups.len());
            lemma_connect_wf(v0, grouping);
        }
        let ghost positions = group_positions(v0.wires, grouping);
        let ghost none = Seq::<CircuitElementEnum>::empty();
        self.wire_groups = groups;

        let mut c: usize = 0;
        while c < self.composants.len()
            invariant
                c <= self.composants.len(),
                self.composants.len() == v0.components.len(),
                self.wire_groups == groups,
                self@.wires == v0.wires,
                none == Seq::<CircuitElementEnum>::empty(),
                forall|k: int|
                    0 <= k < c ==> (#[trigger] self.composants@[k])@ == v0.components[k].relinked(
                        none,
                        none,
                    ),
                forall|k: int|
                    c <= k < v0.components.len() ==> (#[trigger] self.composants@[k])@
                        == v0.components[k],
            decreases self.composants.len() - c,
        {
            self.composants[c].clear_links();
            c += 1;
        }

        proof {
            assert forall|j: int| 0 <= j < grouping.len() implies (#[trigger] self.wire_groups@[j])@
                == bare_group(v0.wires, j, grouping[j]).relinked(
                links_to_components(positions[j], v0.components, true, 0),
                links_to_components(positions[j], v0.components, false, 0),
            ) by {}
        }
        let mut c: usize = 0;
        while c < self.composants.len()
            invariant
                c <= self.composants.len(),
                self.composants.len() == v0.components.len(),
                self.wire_groups.len() == grouping.len(),
                self@.wires == v0.wires,
                positions == group_positions(v0.wires, grouping),
                none == Seq::<CircuitElementEnum>::empty(),
                forall|k: int|
                    0 <= k < c ==> (#[trigger] self.composants@[k])@ == v0.linked_component(
                        k,
                        grouping,
                    ),
                forall|k: int|
                    c <= k < v0.components.len() ==> (#[trigger] self.composants@[k])@
                        == v0.components[k].relinked(none, none),
                forall|j: int|
                    0 <= j < grouping.len() ==> (#[trigger] self.wire_groups@[j])@ == bare_group(
                        v0.wires,
                        j,
                        grouping[j],
                    ).relinked(
                        links_to_components(positions[j], v0.components, true, c as nat),
                        links_to_components(positions[j], v0.components, false, c as nat),
                    ),
            decreases self.composants.len() - c,
        {
            let ghost component = v0.components[c as int];
            let mut g: usize = 0;
            while g < self.wire_groups.len()
                invariant
                    c < self.composants.len(),
                    g <= self.wire_groups.len(),
                    self.composants.len() == v0.components.len(),
                    self.wire_groups.len() == grouping.len(),
                    self@.wires == v0.wires,
                    positions == group_positions(v0.wires, grouping),
                    none == Seq::<CircuitElementEnum>::empty(),
                    component == v0.components[c as int],
                    forall|k: int|
                        0 <= k < c ==> (#[trigger] self.composants@[k])@ == v0.linked_component(
                            k,
                            grouping,
                        ),
                    self.composants@[c as int]@ == component.relinked(
                        links_to_groups(component.input_positions, positions, g as nat),
                        links_to_groups(driving_pins(component), positions, g as nat),
                    ),
                    forall|k: int|
                        c < k < v0.components.len() ==> (#[trigger] self.composants@[k])@
                            == v0.components[k].relinked(none, none),
                    forall|j: int|
                        0 <= j < g ==> (#[trigger] self.wire_groups@[j])@ == bare_group(
                            v0.wires,
                            j,
                            grouping[j],
                        ).relinked(
                            links_to_components(positions[j], v0.components, true, (c + 1) as nat),
                            links_to_components(positions[j], v0.components, false, (c + 1) as nat),
                        ),
                    forall|j: int|
                        g <= j < grouping.len() ==> (#[trigger] self.wire_groups@[j])@
                            == bare_group(v0.wires, j, grouping[j]).relinked(
                            links_to_components(positions[j], v0.components, true, c as nat),
                            links_to_components(positions[j], v0.components, false, c as nat),
                        ),
                decreases self.wire_groups.len() - g,
            {
                link(&mut self.composants[c], &mut self.wire_groups[g]);
                g += 1;
            }
            c += 1;
        }
        assert(self@.components =~= v0.connect(grouping).components);
        assert(self@.groups =~= v0.connect(grouping).groups);
    }
}

} // verus!
