//! A simulator of digital logic laid out on a grid: switches, gates and
//! wires. Wires that touch form one electrical node; a frame advances all
//! nodes and components until they are at rest and reports what has changed.
//!
//! Every function of the library is verified against a model of the circuit,
//! `model::SimulationView`, over which the contracts are stated.

pub mod changes;
pub mod circuit_element;
pub mod composant;
pub mod connectivity;
pub mod engine;
pub mod gates;
pub mod grouping;
pub mod logic;
pub mod model;
pub mod order;
pub mod simulation;
pub mod switch;
pub mod timer_gate;
pub mod types;
pub mod wire;

pub use crate::composant::ComposantsEnum;
pub use crate::simulation::Simulation;
