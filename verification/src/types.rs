//! Plain values: positions, orientations, and the entries of snapshots and
//! reports.

use vstd::prelude::*;

verus! {

/// A point of the integer grid on which wires and components are laid out.
///
/// Two elements are electrically connected only where their positions are
/// equal coordinate by coordinate.
#[derive(Clone, Copy, Debug, PartialEq, Eq, Structural)]
pub struct Position {
    pub x: i32,
    pub y: i32,
}

/// The direction a gate faces; it decides where its input pins lie.
#[derive(Clone, Copy, Debug, PartialEq, Eq, Structural)]
pub enum Orientation {
    Up,
    Right,
    Down,
    Left,
}

/// The level of one wire group, as recorded before a frame.
#[derive(Clone, Copy, Debug, PartialEq, Eq, Structural)]
pub struct OldWireGroup {
    pub index: usize,
    pub state: bool,
}

/// The level of one component, as recorded before a frame.
#[derive(Clone, Copy, Debug, PartialEq, Eq, Structural)]
pub struct OldComponents {
    pub id: usize,
    pub state: bool,
}

/// One entry of a frame's report: the element `id` now has level `state`.
#[derive(Clone, Copy, Debug, PartialEq, Eq, Structural)]
pub struct ChangedElement {
    pub id: usize,
    pub state: bool,
}

impl ChangedElement {
    pub fn new(id: usize, state: bool) -> (r: Self)
        ensures
            r == (ChangedElement { id, state }),
    {
        ChangedElement { id, state }
    }
}

} // verus!
