//! The gates: where their pins lie, and what each kind computes from its
//! inputs.

use vstd::prelude::*;
use crate::circuit_element::CircuitElement;
use crate::logic::gate_output;
use crate::model::{ComponentView, ElementView, GateKind};
use crate::simulation::Simulation;
use crate::types::{Orientation, Position};

verus! {

/// A position from which every pin offset can be taken without leaving
/// the range of `i32`.
pub open spec fn pins_fit(position: Position) -> bool {
    &&& i32::MIN + 5 <= position.x <= i32::MAX - 5
    &&& i32::MIN + 5 <= position.y <= i32::MAX - 5
}

/// The two input pins of a gate with two inputs, first and second.
pub open spec fn two_input_pins(position: Position, orientation: Orientation) -> Seq<Position> {
    let x = position.x;
    let y = position.y;
    match orientation {
        Orientation::Up => seq![
            Position { x: (x - 1) as i32, y: (y - 5) as i32 },
            Position { x: (x + 1) as i32, y: (y - 5) as i32 },
        ],
        Orientation::Right => seq![
            Position { x: (x - 5) as i32, y: (y + 1) as i32 },
            Position { x: (x - 5) as i32, y: (y - 1) as i32 },
        ],
        Orientation::Down => seq![
            Position { x: (x - 1) as i32, y: (y + 5) as i32 },
            Position { x: (x + 1) as i32, y: (y + 5) as i32 },
        ],
        Orientation::Left => seq![
            Position { x: (x + 5) as i32, y: (y - 1) as i32 },
            Position { x: (x + 5) as i32, y: (y + 1) as i32 },
        ],
    }
}

/// The input pin of a gate with one input.
pub open spec fn one_input_pin(position: Position, orientation: Orientation) -> Position {
    let x = position.x;
    let y = position.y;
    match orientation {
        Orientation::Up => Position { x, y: (y - 5) as i32 },
        Orientation::Right => Position { x: (x - 5) as i32, y },
        Orientation::Down => Position { x, y: (y + 5) as i32 },
        Orientation::Left => Position { x: (x + 5) as i32, y },
    }
}

/// What the gates with two inputs have in common.
pub struct TwoInputsGate {
    pub circuit_element: CircuitElement,
    pub output_position: Position,
    pub input_positions: [Position; 2],
    pub position: Position,
}

impl TwoInputsGate {
    /// This gate seen as a component of the given kind.
    pub open spec fn model(&self, kind: GateKind) -> ComponentView {
        ComponentView {
            kind,
            element: self.circuit_element@,
            position: self.position,
            output_position: self.output_position,
            input_positions: self.input_positions@,
            ticks: 0,
            input_state: false,
            stack: Seq::empty(),
        }
    }

    /// A gate at `position`: its output pin is its anchor, its input pins
    /// are set off from it against the direction it faces.
    pub fn new(id: usize, position: Position, orientation: Orientation) -> (r: Self)
        requires
            pins_fit(position),
        ensures
            r.circuit_element@ == ElementView::fresh(id),
            r.position == position,
            r.output_position == position,
            r.input_positions@ == two_input_pins(position, orientation),
    {
        let x = position.x;
        let y = position.y;
        let input_positions = match orientation {
            Orientation::Up => [Position { x: x - 1, y: y - 5 }, Position { x: x + 1, y: y - 5 }],
            Orientation::Right => [Position { x: x - 5, y: y + 1 }, Position { x: x - 5, y: y - 1 }],
            Orientation::Down => [Position { x: x - 1, y: y + 5 }, Position { x: x + 1, y: y + 5 }],
            Orientation::Left => [Position { x: x + 5, y: y - 1 }, Position { x: x + 5, y: y + 1 }],
        };
        TwoInputsGate {
            circuit_element: CircuitElement::new(id),
            position,
            output_position: position,
            input_positions,
        }
    }
}

/// What the gates with one input have in common.
pub struct OneInputGate {
    pub circuit_element: CircuitElement,
    pub output_position: Position,
    pub input_position: Position,
    pub position: Position,
}

impl OneInputGate {
    /// This gate seen as a component of the given kind, without a delay
    /// line.
    pub open spec fn model(&self, kind: GateKind) -> ComponentView {
        ComponentView {
            kind,
            element: self.circuit_element@,
            position: self.position,
            output_position: self.output_position,
            input_positions: seq![self.input_position],
            ticks: 0,
            input_state: false,
            stack: Seq::empty(),
        }
    }

    /// A gate at `position`: its output pin is its anchor, its input pin
    /// is set off from it against the direction it faces.
    pub fn new(id: usize, position: Position, orientation: Orientation) -> (r: Self)
        requires
            pins_fit(position),
        ensures
            r.circuit_element@ == ElementView::fresh(id),
            r.position == position,
            r.output_position == position,
            r.input_position == one_input_pin(position, orientation),
    {
        let x = position.x;
        let y = position.y;
        let input_position = match orientation {
            Orientation::Up => Position { x, y: y - 5 },
            Orientation::Right => Position { x: x - 5, y },
            Orientation::Down => Position { x, y: y + 5 },
            Orientation::Left => Position { x: x + 5, y },
        };
        OneInputGate {
            circuit_element: CircuitElement::new(id),
            position,
            output_position: position,
            input_position,
        }
    }
}

pub struct AndGate {
    pub gate: TwoInputsGate,
}

pub struct OrGate {
    pub gate: TwoInputsGate,
}

pub struct XorGate {
    pub gate: TwoInputsGate,
}

pub struct LatchGate {
    pub gate: TwoInputsGate,
}

pub struct NotGate {
    pub gate: OneInputGate,
}

pub struct BufferGate {
    pub gate: OneInputGate,
}

impl View for AndGate {
    type V = ComponentView;

    open spec fn view(&self) -> ComponentView {
        self.gate.model(GateKind::And)
    }
}

impl View for OrGate {
    type V = ComponentView;

    open spec fn view(&self) -> ComponentView {
        self.gate.model(GateKind::Or)
    }
}

impl View for XorGate {
    type V = ComponentView;

    open spec fn view(&self) -> ComponentView {
        self.gate.model(GateKind::Xor)
    }
}

impl View for LatchGate {
    type V = ComponentView;

    open spec fn view(&self) -> ComponentView {
        self.gate.model(GateKind::Latch)
    }
}

impl View for NotGate {
    type V = ComponentView;

    open spec fn view(&self) -> ComponentView {
        self.gate.model(GateKind::Not)
    }
}

impl View for BufferGate {
    type V = ComponentView;

    open spec fn view(&self) -> ComponentView {
        self.gate.model(GateKind::Buffer)
    }
}

/// The level that a component would take on its next evaluation, given the
/// circuit as it stands.
pub open spec fn next_level(c: ComponentView, sim: crate::model::SimulationView) -> bool {
    gate_output(c.kind, c.element.state, sim.levels(c.element.inputs))
}

impl AndGate {
    /// The next level, and whether it differs from the present one: `true`
    /// where at least two input references read `true`.
    pub fn compute_next_state(&self, sim: &Simulation) -> (r: (bool, bool))
        ensures
            r.0 == next_level(self@, sim@),
            r.1 == (r.0 != self@.element.state),
    {
        let true_count = self.gate.circuit_element.count_inputs(sim);
        let new_state = true_count >= 2;
        let is_different = new_state != self.gate.circuit_element.state;
        (new_state, is_different)
    }
}

impl OrGate {
    /// The next level, and whether it differs from the present one: `true`
    /// where some input reference reads `true`.
    pub fn compute_next_state(&self, sim: &Simulation) -> (r: (bool, bool))
        ensures
            r.0 == next_level(self@, sim@),
            r.1 == (r.0 != self@.element.state),
    {
        let new_state = self.gate.circuit_element.any_input(sim);
        let is_different = new_state != self.gate.circuit_element.state;
        (new_state, is_different)
    }
}

impl XorGate {
    /// The next level, and whether it differs from the present one: the
    /// exclusive or of what all input references read.
    pub fn compute_next_state(&self, sim: &Simulation) -> (r: (bool, bool))
        ensures
            r.0 == next_level(self@, sim@),
            r.1 == (r.0 != self@.element.state),
    {
        let new_state = self.gate.circuit_element.input_parity(sim);
        let is_different = new_state != self.gate.circuit_element.state;
        (new_state, is_different)
    }
}

impl NotGate {
    /// The next level, and whether it differs from the present one: `true`
    /// where no input reference reads `true`.
    pub fn compute_next_state(&self, sim: &Simulation) -> (r: (bool, bool))
        ensures
            r.0 == next_level(self@, sim@),
            r.1 == (r.0 != self@.element.state),
    {
        let new_state = !self.gate.circuit_element.any_input(sim);
        let is_different = new_state != self.gate.circuit_element.state;
        (new_state, is_different)
    }
}

impl BufferGate {
    /// The next level, and whether it differs from the present one: `true`
    /// where some input reference reads `true`.
    pub fn compute_next_state(&self, sim: &Simulation) -> (r: (bool, bool))
        ensures
            r.0 == next_level(self@, sim@),
            r.1 == (r.0 != self@.element.state),
    {
        let new_state = self.gate.circuit_element.any_input(sim);
        let is_different = new_state != self.gate.circuit_element.state;
        (new_state, is_different)
    }
}

impl LatchGate {
    /// The next level, and whether it differs from the present one. While
    /// the first input reads `false` the latch holds its level; otherwise it
    /// takes the level of the second input, where it has one.
    pub fn compute_next_state(&self, sim: &Simulation) -> (r: (bool, bool))
        ensures
            r.0 == next_level(self@, sim@),
            r.1 == (r.0 != self@.element.state),
    {
        let element = &self.gate.circuit_element;
        let mut new_state = element.state;
        if element.inputs.len() >= 1 {
            if !element.inputs[0].get_state(sim) {
                return (element.state, false);
            }
        }
        if element.inputs.len() >= 2 {
            new_state = element.inputs[1].get_state(sim);
        }
        (new_state, new_state != element.state)
    }
}

} // verus!
