//! A circuit under simulation: how it is built, and how its switches are
//! written.

use vstd::prelude::*;
use crate::composant::ComposantsEnum;
use crate::gates::{
    one_input_pin, pins_fit, two_input_pins, AndGate, BufferGate, LatchGate, NotGate,
    OneInputGate, OrGate, TwoInputsGate, XorGate,
};
use crate::model::{
    lemma_same_circuit_wf, ComponentView, ElementView, GateKind, SimulationView, WireView,
};
use crate::switch::Switch;
use crate::timer_gate::TimerGate;
use crate::types::{Orientation, Position};
use crate::wire::{Wire, WireGroup};

verus! {

/// A circuit under simulation: its components and its wires, each in the
/// order in which their ids were first added, and the wire groups that the
/// last connectivity pass made of the wires.
pub struct Simulation {
    pub composants: Vec<ComposantsEnum>,
    pub wires: Vec<Wire>,
    pub wire_groups: Vec<WireGroup>,
}

impl View for Simulation {
    type V = SimulationView;

    open spec fn view(&self) -> SimulationView {
        SimulationView {
            components: Seq::new(self.composants@.len(), |k: int| self.composants@[k]@),
            wires: Seq::new(self.wires@.len(), |k: int| self.wires@[k]@),
            groups: Seq::new(self.wire_groups@.len(), |k: int| self.wire_groups@[k]@),
        }
    }
}

impl ComponentView {
    /// A component that has just been made: at level `false`, linked to
    /// nothing, with its pins where its kind, its anchor and its orientation
    /// put them. `ticks` is the delay of a timer.
    pub open spec fn fresh(
        kind: GateKind,
        id: usize,
        position: Position,
        orientation: Orientation,
        ticks: u32,
    ) -> ComponentView {
        ComponentView {
            kind,
            element: ElementView::fresh(id),
            position,
            output_position: position,
            input_positions: match kind {
                GateKind::Switch => Seq::empty(),
                GateKind::And | GateKind::Or | GateKind::Xor | GateKind::Latch => two_input_pins(
                    position,
                    orientation,
                ),
                _ => seq![one_input_pin(position, orientation)],
            },
            ticks,
            input_state: false,
            stack: Seq::empty(),
        }
    }
}

impl SimulationView {
    /// The circuit with nothing in it.
    pub open spec fn empty() -> SimulationView {
        SimulationView { components: Seq::empty(), wires: Seq::empty(), groups: Seq::empty() }
    }

    /// The circuit with one more component, which takes the place of the
    /// component that had its id, if there was one, and else comes last.
    pub open spec fn with_component(self, c: ComponentView) -> SimulationView {
        match self.component_ids().index_of_first(c.element.id) {
            Some(k) => SimulationView { components: self.components.update(k, c), ..self },
            None => SimulationView { components: self.components.push(c), ..self },
        }
    }

    /// The circuit with one more wire, which takes the place of the wire
    /// that had its id, if there was one, and else comes last.
    pub open spec fn with_wire(self, w: WireView) -> SimulationView {
        match self.wire_ids().index_of_first(w.element.id) {
            Some(k) => SimulationView { wires: self.wires.update(k, w), ..self },
            None => SimulationView { wires: self.wires.push(w), ..self },
        }
    }

    /// Whether `id` names a switch.
    pub open spec fn has_switch(self, id: usize) -> bool {
        match self.component_ids().index_of_first(id) {
            Some(k) => self.components[k].kind == GateKind::Switch,
            None => false,
        }
    }

    /// The circuit after `state` has been written to the switch `id`. Where
    /// `id` names no switch, nothing is written.
    pub open spec fn with_switch_state(self, id: usize, state: bool) -> SimulationView {
        match self.component_ids().index_of_first(id) {
            Some(k) => if self.components[k].kind == GateKind::Switch {
                SimulationView {
                    components: self.components.update(k, self.components[k].with_state(state)),
                    ..self
                }
            } else {
                self
            },
            None => self,
        }
    }
}

/// Adding a component keeps the circuit well formed: either it takes the
/// place of the component that had its id, or its id is new.
pub proof fn lemma_with_component_wf(v: SimulationView, c: ComponentView)
    requires
        v.wf(),
    ensures
        v.with_component(c).wf(),
{
    let ids = v.component_ids();
    let after = v.with_component(c).component_ids();
    ids.index_of_first_ensures(c.element.id);
    match ids.index_of_first(c.element.id) {
        Some(k) => {
            assert(after =~= ids);
        },
        None => {
            assert(after =~= ids.push(c.element.id));
        },
    }
}

/// Adding a wire keeps the circuit well formed: either it takes the place
/// of the wire that had its id, or its id is new.
pub proof fn lemma_with_wire_wf(v: SimulationView, w: WireView)
    requires
        v.wf(),
    ensures
        v.with_wire(w).wf(),
{
    let ids = v.wire_ids();
    let after = v.with_wire(w).wire_ids();
    ids.index_of_first_ensures(w.element.id);
    match ids.index_of_first(w.element.id) {
        Some(k) => {
            assert(after =~= ids);
        },
        None => {
            assert(after =~= ids.push(w.element.id));
        },
    }
}

/// Writing to a switch changes the level of that switch, and nothing
/// else.
pub proof fn lemma_with_switch_state(v: SimulationView, id: usize, state: bool)
    ensures
        v.same_circuit(v.with_switch_state(id, state)),
        v.wf() == v.with_switch_state(id, state).wf(),
        !v.has_switch(id) ==> v.with_switch_state(id, state) == v,
{
    v.component_ids().index_of_first_ensures(id);
    lemma_same_circuit_wf(v, v.with_switch_state(id, state));
}

/// The point that a list of coordinates names by its first two entries.
pub open spec fn point(position: Seq<i32>) -> Position {
    Position { x: position[0], y: position[1] }
}

impl Simulation {
    pub fn new() -> (r: Self)
        ensures
            r@ == SimulationView::empty(),
            r@.wf(),
    {
        let r = Simulation { composants: Vec::new(), wires: Vec::new(), wire_groups: Vec::new() };
        assert(r@.components =~= Seq::empty());
        assert(r@.wires =~= Seq::empty());
        assert(r@.groups =~= Seq::empty());
        r
    }

    /// Empties the circuit: no component, no wire and no group is left.
    pub fn reset(&mut self)
        ensures
            final(self)@ == SimulationView::empty(),
            final(self)@.wf(),
    {
        self.composants.clear();
        self.wires.clear();
        self.wire_groups.clear();
        assert(self@.components =~= Seq::empty());
        assert(self@.wires =~= Seq::empty());
        assert(self@.groups =~= Seq::empty());
    }

    /// Where the component with the given id stands, if there is one.
    pub fn find_component(&self, id: usize) -> (r: Option<usize>)
        ensures
            match r {
                Some(k) => k < self@.components.len() && self@.component_ids().index_of_first(id)
                    == Some(k as int),
                None => self@.component_ids().index_of_first(id) is None,
            },
    {
        let ghost ids = self@.component_ids();
        let mut i: usize = 0;
        while i < self.composants.len()
            invariant
                i <= self.composants.len(),
                ids == self@.component_ids(),
                forall|j: int| 0 <= j < i ==> ids[j] != id,
            decreases self.composants.len() - i,
        {
            if self.composants[i].circuit_element().id == id {
                proof {
                    ids.index_of_first_ensures(id);
                    assert(ids[i as int] == id);
                }
                return Some(i);
            }
            i += 1;
        }
        proof {
            ids.index_of_first_ensures(id);
        }
        None
    }

    /// Where the wire with the given id stands, if there is one.
    pub fn find_wire(&self, id: usize) -> (r: Option<usize>)
        ensures
            match r {
                Some(k) => k < self@.wires.len() && self@.wire_ids().index_of_first(id) == Some(
                    k as int,
                ),
                None => self@.wire_ids().index_of_first(id) is None,
            },
    {
        let ghost ids = self@.wire_ids();
        let mut i: usize = 0;
        while i < self.wires.len()
            invariant
                i <= self.wires.len(),
                ids == self@.wire_ids(),
                forall|j: int| 0 <= j < i ==> ids[j] != id,
            decreases self.wires.len() - i,
        {
            if self.wires[i].circuit_element.id == id {
                proof {
                    ids.index_of_first_ensures(id);
                    assert(ids[i as int] == id);
                }
                return Some(i);
            }
            i += 1;
        }
        proof {
            ids.index_of_first_ensures(id);
        }
        None
    }

    /// Puts a component into the circuit under its own id. A component that
    /// had that id is replaced.
    pub fn add_component(&mut self, composant: ComposantsEnum) -> (id: usize)
        ensures
            id == composant@.element.id,
            final(self)@ == old(self)@.with_component(composant@),
            old(self)@.wf() ==> final(self)@.wf(),
    {
        proof {
            if self@.wf() {
                lemma_with_component_wf(self@, composant@);
            }
        }
        let id = composant.circuit_element().id;
        match self.find_component(id) {
            Some(k) => {
                self.composants[k] = composant;
                assert(self@.components =~= old(self)@.components.update(k as int, composant@));
            },
            None => {
                self.composants.push(composant);
                assert(self@.components =~= old(self)@.components.push(composant@));
            },
        }
        id
    }

    /// Adds a wire that runs through the given positions. A wire that had
    /// the id is replaced.
    pub fn add_wire(&mut self, positions: Vec<Position>, id: usize) -> (r: usize)
        ensures
            r == id,
            final(self)@ == old(self)@.with_wire(
                WireView { element: ElementView::fresh(id), positions: positions@ },
            ),
            old(self)@.wf() ==> final(self)@.wf(),
    {
        let wire = Wire::new(id, positions);
        let ghost w = wire@;
        proof {
            if self@.wf() {
                lemma_with_wire_wf(self@, w);
            }
        }
        match self.find_wire(id) {
            Some(k) => {
                self.wires[k] = wire;
                assert(self@.wires =~= old(self)@.wires.update(k as int, w));
            },
            None => {
                self.wires.push(wire);
                assert(self@.wires =~= old(self)@.wires.push(w));
            },
        }
        id
    }

    pub fn add_and_gate(&mut self, position: Vec<i32>, orientation: Orientation, id: usize) -> (r:
        usize)
        requires
            position.len() >= 2,
            pins_fit(point(position@)),
        ensures
            r == id,
            final(self)@ == old(self)@.with_component(
                ComponentView::fresh(GateKind::And, id, point(position@), orientation, 0),
            ),
            old(self)@.wf() ==> final(self)@.wf(),
    {
        let position = Position { x: position[0], y: position[1] };
        let and_gate = AndGate { gate: TwoInputsGate::new(id, position, orientation) };
        self.add_component(ComposantsEnum::AndGate(and_gate))
    }

    pub fn add_or_gate(&mut self, position: Vec<i32>, orientation: Orientation, id: usize) -> (r:
        usize)
        requires
            position.len() >= 2,
            pins_fit(point(position@)),
        ensures
            r == id,
            final(self)@ == old(self)@.with_component(
                ComponentView::fresh(GateKind::Or, id, point(position@), orientation, 0),
            ),
            old(self)@.wf() ==> final(self)@.wf(),
    {
        let position = Position { x: position[0], y: position[1] };
        let or_gate = OrGate { gate: TwoInputsGate::new(id, position, orientation) };
        self.add_component(ComposantsEnum::OrGate(or_gate))
    }

    pub fn add_xor_gate(&mut self, position: Vec<i32>, orientation: Orientation, id: usize) -> (r:
        usize)
        requires
            position.len() >= 2,
            pins_fit(point(position@)),
        ensures
            r == id,
            final(self)@ == old(self)@.with_component(
                ComponentView::fresh(GateKind::Xor, id, point(position@), orientation, 0),
            ),
            old(self)@.wf() ==> final(self)@.wf(),
    {
        let position = Position { x: position[0], y: position[1] };
        let xor_gate = XorGate { gate: TwoInputsGate::new(id, position, orientation) };
        self.add_component(ComposantsEnum::XorGate(xor_gate))
    }

    pub fn add_not_gate(&mut self, position: Vec<i32>, orientation: Orientation, id: usize) -> (r:
        usize)
        requires
            position.len() >= 2,
            pins_fit(point(position@)),
        ensures
            r == id,
            final(self)@ == old(self)@.with_component(
                ComponentView::fresh(GateKind::Not, id, point(position@), orientation, 0),
            ),
            old(self)@.wf() ==> final(self)@.wf(),
    {
        let position = Position { x: position[0], y: position[1] };
        let not_gate = NotGate { gate: OneInputGate::new(id, position, orientation) };
        self.add_component(ComposantsEnum::NotGate(not_gate))
    }

    pub fn add_buffer_gate(
        &mut self,
        position: Vec<i32>,
        orientation: Orientation,
        id: usize,
    ) -> (r: usize)
        requires
            position.len() >= 2,
            pins_fit(point(position@)),
        ensures
            r == id,
            final(self)@ == old(self)@.with_component(
                ComponentView::fresh(GateKind::Buffer, id, point(position@), orientation, 0),
            ),
            old(self)@.wf() ==> final(self)@.wf(),
    {
        let position = Position { x: position[0], y: position[1] };
        let buffer_gate = BufferGate { gate: OneInputGate::new(id, position, orientation) };
        self.add_component(ComposantsEnum::BufferGate(buffer_gate))
    }

    pub fn add_latch_gate(
        &mut self,
        position: Vec<i32>,
        orientation: Orientation,
        id: usize,
    ) -> (r: usize)
        requires
            position.len() >= 2,
            pins_fit(point(position@)),
        ensures
            r == id,
            final(self)@ == old(self)@.with_component(
                ComponentView::fresh(GateKind::Latch, id, point(position@), orientation, 0),
            ),
            old(self)@.wf() ==> final(self)@.wf(),
    {
        let position = Position { x: position[0], y: position[1] };
        let latch_gate = LatchGate { gate: TwoInputsGate::new(id, position, orientation) };
        self.add_component(ComposantsEnum::LatchGate(latch_gate))
    }

    /// Adds a timer that shows a change at its input `ticks` stabilizations
    /// after it has seen it.
    pub fn add_timer(
        &mut self,
        position: Vec<i32>,
        ticks: u32,
        orientation: Orientation,
        id: usize,
    ) -> (r: usize)
        requires
            position.len() >= 2,
            pins_fit(point(position@)),
        ensures
            r == id,
            final(self)@ == old(self)@.with_component(
                ComponentView::fresh(GateKind::Timer, id, point(position@), orientation, ticks),
            ),
            old(self)@.wf() ==> final(self)@.wf(),
    {
        let position = Position { x: position[0], y: position[1] };
        let timer_gate = TimerGate::new(OneInputGate::new(id, position, orientation), ticks);
        self.add_component(ComposantsEnum::TimerGate(timer_gate))
    }

    pub fn add_switch(&mut self, position: Vec<i32>, id: usize) -> (r: usize)
        requires
            position.len() >= 2,
        ensures
            r == id,
            final(self)@ == old(self)@.with_component(
                ComponentView::fresh(GateKind::Switch, id, point(position@), Orientation::Up, 0),
            ),
            old(self)@.wf() ==> final(self)@.wf(),
    {
        let position = Position { x: position[0], y: position[1] };
        let switch = Switch::new(id, position);
        self.add_component(ComposantsEnum::Switch(switch))
    }

    /// Writes a level to a switch. Returns whether `component_index` names a
    /// switch; where it does not, nothing is written.
    pub fn update_switch_state(&mut self, component_index: usize, state: bool) -> (written: bool)
        ensures
            written == old(self)@.has_switch(component_index),
            final(self)@ == old(self)@.with_switch_state(component_index, state),
            old(self)@.wf() ==> final(self)@.wf(),
    {
        proof {
            lemma_with_switch_state(self@, component_index, state);
        }
        match self.find_component(component_index) {
            Some(k) => {
                let written = self.composants[k].write_switch(state);
                proof {
                    if written {
                        assert(self@.components =~= old(self)@.components.update(
                            k as int,
                            old(self)@.components[k as int].with_state(state),
                        ));
                    } else {
                        assert(self@.components =~= old(self)@.components);
                    }
                }
                written
            },
            None => false,
        }
    }
}

} // verus!
