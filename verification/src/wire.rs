//! Wires as they are drawn, and the groups that touching wires form.

use vstd::prelude::*;
use crate::circuit_element::CircuitElement;
use crate::logic::any_true;
use crate::model::{ElementView, GroupView, WireView};
use crate::simulation::Simulation;
use crate::types::Position;

verus! {

/// A raw wire segment, as the caller drew it.
pub struct Wire {
    pub circuit_element: CircuitElement,
    pub positions: Vec<Position>,
}

impl View for Wire {
    type V = WireView;

    open spec fn view(&self) -> WireView {
        WireView { element: self.circuit_element@, positions: self.positions@ }
    }
}

impl Wire {
    pub fn new(id: usize, positions: Vec<Position>) -> (r: Self)
        ensures
            r@ == (WireView { element: ElementView::fresh(id), positions: positions@ }),
    {
        Wire { circuit_element: CircuitElement::new(id), positions }
    }
}

/// A set of wires that touch, directly or through one another: one
/// electrical node with one level.
pub struct WireGroup {
    pub circuit_element: CircuitElement,
    pub positions: Vec<Position>,
    pub wires: Vec<usize>,
}

impl View for WireGroup {
    type V = GroupView;

    open spec fn view(&self) -> GroupView {
        GroupView {
            element: self.circuit_element@,
            positions: self.positions@,
            wires: self.wires@,
        }
    }
}

impl WireGroup {
    pub fn new(id: usize) -> (r: Self)
        ensures
            r@ == (GroupView {
                element: ElementView::fresh(id),
                positions: Seq::empty(),
                wires: Seq::empty(),
            }),
    {
        WireGroup { circuit_element: CircuitElement::new(id), wires: Vec::new(), positions: Vec::new() }
    }

    /// Takes a wire into the group: its id joins the list of members and its
    /// positions are appended to those of the group.
    pub fn add_wire(&mut self, wire: usize, positions: Vec<Position>)
        ensures
            final(self)@ == (GroupView {
                positions: old(self)@.positions + positions@,
                wires: old(self)@.wires.push(wire),
                ..old(self)@
            }),
    {
        let mut positions = positions;
        self.positions.append(&mut positions);
        self.wires.push(wire)
    }

    /// The next level of the node, and whether it differs from the present
    /// one: `true` where some component that drives the node shows `true`.
    pub fn compute_next_state(&self, sim: &Simulation) -> (r: (bool, bool))
        ensures
            r.0 == any_true(sim@.levels(self@.element.inputs)),
            r.1 == (r.0 != self@.element.state),
    {
        let new_state = self.circuit_element.any_input(sim);
        let is_different = new_state != self.circuit_element.state;
        (new_state, is_different)
    }
}

} // verus!
