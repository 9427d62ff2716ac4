//! The components of a circuit, whatever their kind: how they compute, how
//! they commit what they computed, and how they are linked.

use vstd::prelude::*;
use crate::circuit_element::{CircuitElement, CircuitElementEnum};
use crate::gates::{next_level, AndGate, BufferGate, LatchGate, NotGate, OrGate, XorGate};
use crate::model::{ComponentView, GateKind};
use crate::simulation::Simulation;
use crate::switch::Switch;
use crate::timer_gate::TimerGate;
use crate::types::Position;

verus! {

/// A component of the circuit, of one of the eight kinds.
pub enum ComposantsEnum {
    OrGate(OrGate),
    AndGate(AndGate),
    Switch(Switch),
    XorGate(XorGate),
    NotGate(NotGate),
    BufferGate(BufferGate),
    LatchGate(LatchGate),
    TimerGate(TimerGate),
}

impl View for ComposantsEnum {
    type V = ComponentView;

    open spec fn view(&self) -> ComponentView {
        match self {
            ComposantsEnum::OrGate(gate) => gate@,
            ComposantsEnum::AndGate(gate) => gate@,
            ComposantsEnum::Switch(switch) => switch@,
            ComposantsEnum::XorGate(gate) => gate@,
            ComposantsEnum::NotGate(gate) => gate@,
            ComposantsEnum::BufferGate(gate) => gate@,
            ComposantsEnum::LatchGate(gate) => gate@,
            ComposantsEnum::TimerGate(gate) => gate@,
        }
    }
}

impl ComposantsEnum {
    /// The node that the component wraps.
    pub fn circuit_element(&self) -> (r: &CircuitElement)
        ensures
            r@ == self@.element,
    {
        match self {
            ComposantsEnum::OrGate(gate) => &gate.gate.circuit_element,
            ComposantsEnum::AndGate(gate) => &gate.gate.circuit_element,
            ComposantsEnum::Switch(switch) => &switch.circuit_element,
            ComposantsEnum::XorGate(gate) => &gate.gate.circuit_element,
            ComposantsEnum::NotGate(gate) => &gate.gate.circuit_element,
            ComposantsEnum::BufferGate(gate) => &gate.gate.circuit_element,
            ComposantsEnum::LatchGate(gate) => &gate.gate.circuit_element,
            ComposantsEnum::TimerGate(gate) => &gate.gate.circuit_element,
        }
    }
}

impl ComponentView {
    /// Whether a newly computed level counts as a change of the component
    /// when a tick looks for rest. A switch computes nothing, and what a
    /// timer observes does not count: only what its delay line applies does
    /// (see `commit_drains`).
    pub open spec fn proposes_change(self, level: bool) -> bool {
        match self.kind {
            GateKind::Switch => false,
            GateKind::Timer => false,
            _ => level != self.element.state,
        }
    }

    /// The component after a tick has committed the newly computed level.
    /// A gate takes the level. A timer hands it to its delay line and then
    /// applies what is due there. A switch keeps what was written to it.
    pub open spec fn commit(self, level: bool) -> ComponentView {
        match self.kind {
            GateKind::Switch => self,
            GateKind::Timer => self.observe(level).drain(),
            _ => self.with_state(level),
        }
    }

    /// Whether committing the level makes a timer apply a transition.
    pub open spec fn commit_drains(self, level: bool) -> bool {
        self.kind == GateKind::Timer && self.observe(level).drains()
    }
}

impl ComposantsEnum {
    /// The level that the component computes from the circuit as it
    /// stands, and whether that counts as a change when a tick looks for
    /// rest.
    pub fn compute_next_state(&self, sim: &Simulation) -> (r: (bool, bool))
        ensures
            r.0 == next_level(self@, sim@),
            r.1 == self@.proposes_change(r.0),
    {
        match self {
            ComposantsEnum::OrGate(gate) => gate.compute_next_state(sim),
            ComposantsEnum::AndGate(gate) => gate.compute_next_state(sim),
            ComposantsEnum::XorGate(gate) => gate.compute_next_state(sim),
            ComposantsEnum::NotGate(gate) => gate.compute_next_state(sim),
            ComposantsEnum::BufferGate(gate) => gate.compute_next_state(sim),
            ComposantsEnum::LatchGate(gate) => gate.compute_next_state(sim),
            ComposantsEnum::TimerGate(gate) => {
                let new_state = gate.compute_next_state(sim);
                (new_state.0, false)
            },
            ComposantsEnum::Switch(switch) => (switch.circuit_element.state, false),
        }
    }

    /// The pin through which the component drives a wire.
    pub fn output_position(&self) -> (r: Position)
        ensures
            r == self@.output_position,
    {
        match self {
            ComposantsEnum::OrGate(gate) => gate.gate.output_position,
            ComposantsEnum::AndGate(gate) => gate.gate.output_position,
            ComposantsEnum::Switch(switch) => switch.output_position,
            ComposantsEnum::XorGate(gate) => gate.gate.output_position,
            ComposantsEnum::NotGate(gate) => gate.gate.output_position,
            ComposantsEnum::BufferGate(gate) => gate.gate.output_position,
            ComposantsEnum::LatchGate(gate) => gate.gate.output_position,
            ComposantsEnum::TimerGate(gate) => gate.gate.output_position,
        }
    }

    /// The pins through which the component reads wires: two, one or none,
    /// by its kind.
    pub fn input_positions(&self) -> (r: Vec<Position>)
        ensures
            r@ == self@.input_positions,
    {
        let mut pins: Vec<Position> = Vec::new();
        match self {
            ComposantsEnum::OrGate(gate) => {
                pins.push(gate.gate.input_positions[0]);
                pins.push(gate.gate.input_positions[1]);
            },
            ComposantsEnum::AndGate(gate) => {
                pins.push(gate.gate.input_positions[0]);
                pins.push(gate.gate.input_positions[1]);
            },
            ComposantsEnum::XorGate(gate) => {
                pins.push(gate.gate.input_positions[0]);
                pins.push(gate.gate.input_positions[1]);
            },
            ComposantsEnum::LatchGate(gate) => {
                pins.push(gate.gate.input_positions[0]);
                pins.push(gate.gate.input_positions[1]);
            },
            ComposantsEnum::NotGate(gate) => {
                pins.push(gate.gate.input_position);
            },
            ComposantsEnum::BufferGate(gate) => {
                pins.push(gate.gate.input_position);
            },
            ComposantsEnum::TimerGate(gate) => {
                pins.push(gate.gate.input_position);
            },
            ComposantsEnum::Switch(_) => {},
        }
        pins
    }

    /// The node that the component wraps, to be written to. Whatever is
    /// written there is written to the component, and nothing else of it
    /// changes.
    pub fn circuit_element_mut(&mut self) -> (r: &mut CircuitElement)
        ensures
            r@ == old(self)@.element,
            final(self)@ == (ComponentView { element: final(r)@, ..old(self)@ }),
    {
        match self {
            ComposantsEnum::OrGate(gate) => &mut gate.gate.circuit_element,
            ComposantsEnum::AndGate(gate) => &mut gate.gate.circuit_element,
            ComposantsEnum::Switch(switch) => &mut switch.circuit_element,
            ComposantsEnum::XorGate(gate) => &mut gate.gate.circuit_element,
            ComposantsEnum::NotGate(gate) => &mut gate.gate.circuit_element,
            ComposantsEnum::BufferGate(gate) => &mut gate.gate.circuit_element,
            ComposantsEnum::LatchGate(gate) => &mut gate.gate.circuit_element,
            ComposantsEnum::TimerGate(gate) => &mut gate.gate.circuit_element,
        }
    }

    /// Adds a reference to the component's inputs.
    pub fn add_input(&mut self, r: CircuitElementEnum)
        ensures
            final(self)@ == old(self)@.relinked(
                old(self)@.element.inputs.push(r),
                old(self)@.element.outputs,
            ),
    {
        self.circuit_element_mut().inputs.push(r);
    }

    /// Adds a reference to the component's outputs.
    pub fn add_output(&mut self, r: CircuitElementEnum)
        ensures
            final(self)@ == old(self)@.relinked(
                old(self)@.element.inputs,
                old(self)@.element.outputs.push(r),
            ),
    {
        self.circuit_element_mut().outputs.push(r);
    }

    /// Drops all references of the component.
    pub fn clear_links(&mut self)
        ensures
            final(self)@ == old(self)@.relinked(Seq::empty(), Seq::empty()),
    {
        let element = self.circuit_element_mut();
        element.inputs.clear();
        element.outputs.clear();
    }

    /// Writes a level to the component if it is a switch, and says whether
    /// it is one.
    pub fn write_switch(&mut self, state: bool) -> (written: bool)
        ensures
            written == (old(self)@.kind == GateKind::Switch),
            final(self)@ == if written {
                old(self)@.with_state(state)
            } else {
                old(self)@
            },
    {
        match self {
            ComposantsEnum::Switch(switch) => {
                switch.circuit_element.set_state(state);
                true
            },
            _ => false,
        }
    }

    /// Commits a newly computed level. Returns whether a timer applied a
    /// transition that was due.
    pub fn commit(&mut self, level: bool) -> (drained: bool)
        ensures
            final(self)@ == old(self)@.commit(level),
            drained == old(self)@.commit_drains(level),
    {
        match self {
            ComposantsEnum::TimerGate(gate) => {
                gate.update_input(level);
                let new_state = gate.check_stack_and_update();
                new_state.1
            },
            ComposantsEnum::Switch(_) => false,
            _ => {
                self.circuit_element_mut().set_state(level);
                false
            },
        }
    }
}

} // verus!
