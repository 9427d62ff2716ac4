//! The switch: a component whose level is written from outside.

use vstd::prelude::*;
use crate::circuit_element::CircuitElement;
use crate::model::{ComponentView, ElementView, GateKind};
use crate::types::Position;

verus! {

/// A component whose level is set from outside. It has an output pin, at
/// its anchor, and no input.
pub struct Switch {
    pub circuit_element: CircuitElement,
    pub output_position: Position,
    pub position: Position,
}

impl View for Switch {
    type V = ComponentView;

    open spec fn view(&self) -> ComponentView {
        ComponentView {
            kind: GateKind::Switch,
            element: self.circuit_element@,
            position: self.position,
            output_position: self.output_position,
            input_positions: Seq::empty(),
            ticks: 0,
            input_state: false,
            stack: Seq::empty(),
        }
    }
}

impl Switch {
    pub fn new(id: usize, position: Position) -> (r: Self)
        ensures
            r.circuit_element@ == ElementView::fresh(id),
            r.position == position,
            r.output_position == position,
    {
        Switch { circuit_element: CircuitElement::new(id), position, output_position: position }
    }
}

} // verus!
