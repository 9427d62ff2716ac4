use logic_sim::circuit_element::CircuitElementEnum;
use logic_sim::gates::OneInputGate;
use logic_sim::{ComposantsEnum, Simulation};
use logic_sim::timer_gate::TimerGate;
use logic_sim::types::{Orientation, Position};
use logic_sim::wire::WireGroup;

fn timer(delay: u32) -> TimerGate {
    let gate = OneInputGate::new(1, Position { x: 0, y: 0 }, Orientation::Right);
    TimerGate::new(gate, delay)
}

fn timer_of(sim: &Simulation, id: usize) -> &TimerGate {
    for composant in sim.composants.iter() {
        if let ComposantsEnum::TimerGate(gate) = composant {
            if gate.gate.circuit_element.id == id {
                return gate;
            }
        }
    }
    panic!("no such timer");
}

/// A switch at the left end of a wire and a timer that reads the right end.
fn switch_wire_timer(delay: u32) -> Simulation {
    let mut sim = Simulation::new();
    sim.add_switch(vec![0, 0], 1);
    sim.add_wire(vec![Position { x: 0, y: 0 }, Position { x: 5, y: 0 }], 1);
    sim.add_timer(vec![10, 0], delay, Orientation::Right, 2);
    sim.compute_connections();
    sim
}

#[test]
fn new_timer_is_idle() {
    let t = timer(3);
    assert_eq!(t.ticks, 3);
    assert!(!t.input_state);
    assert!(t.stack.is_empty());
    assert!(!t.gate.circuit_element.state);
}

#[test]
fn update_input_queues_a_change() {
    let mut t = timer(3);
    t.update_input(true);
    assert!(t.input_state);
    assert_eq!(t.stack, vec![(3, true)]);
    assert!(!t.gate.circuit_element.state);
}

#[test]
fn update_input_ignores_the_same_level() {
    let mut t = timer(3);
    t.update_input(false);
    assert!(t.stack.is_empty());
    t.update_input(true);
    t.update_input(true);
    assert_eq!(t.stack, vec![(3, true)]);
}

#[test]
fn update_input_queues_every_flip() {
    let mut t = timer(4);
    t.update_input(true);
    t.decrement_ticks();
    t.update_input(false);
    t.decrement_ticks();
    t.update_input(true);
    assert_eq!(t.stack, vec![(2, true), (3, false), (4, true)]);
    assert!(t.input_state);
}

#[test]
fn decrement_ticks_stops_at_zero() {
    let mut t = timer(1);
    t.stack = vec![(2, true), (0, false), (1, true)];
    t.decrement_ticks();
    assert_eq!(t.stack, vec![(1, true), (0, false), (0, true)]);
    t.decrement_ticks();
    assert_eq!(t.stack, vec![(0, true), (0, false), (0, true)]);
    t.decrement_ticks();
    assert_eq!(t.stack, vec![(0, true), (0, false), (0, true)]);
}

#[test]
fn decrement_ticks_on_an_empty_queue() {
    let mut t = timer(1);
    t.decrement_ticks();
    assert!(t.stack.is_empty());
}

#[test]
fn drain_applies_what_is_due() {
    let mut t = timer(2);
    t.stack = vec![(0, true), (2, false)];
    assert_eq!(t.check_stack_and_update(), (true, true));
    assert_eq!(t.stack, vec![(2, false)]);
    assert!(t.gate.circuit_element.state);
}

#[test]
fn drain_without_due_entries_changes_nothing() {
    let mut t = timer(2);
    t.stack = vec![(1, true), (2, false)];
    assert_eq!(t.check_stack_and_update(), (false, false));
    assert_eq!(t.stack, vec![(1, true), (2, false)]);
    let mut idle = timer(2);
    idle.gate.circuit_element.state = true;
    assert_eq!(idle.check_stack_and_update(), (true, false));
}

#[test]
fn drain_lets_the_last_due_entry_win() {
    let mut t = timer(2);
    t.stack = vec![(0, true), (1, true), (0, false), (3, true)];
    assert_eq!(t.check_stack_and_update(), (false, true));
    assert_eq!(t.stack, vec![(1, true), (3, true)]);
    assert!(!t.gate.circuit_element.state);
}

#[test]
fn drain_counts_an_entry_that_keeps_the_level() {
    let mut t = timer(2);
    t.gate.circuit_element.state = true;
    t.stack = vec![(0, true)];
    assert_eq!(t.check_stack_and_update(), (true, true));
    assert!(t.stack.is_empty());
}

#[test]
fn timer_reads_or_of_its_inputs() {
    let mut sim = Simulation::new();
    let mut group = WireGroup::new(0);
    group.circuit_element.state = true;
    sim.wire_groups.push(group);
    sim.wire_groups.push(WireGroup::new(1));

    let mut t = timer(3);
    assert_eq!(t.compute_next_state(&sim), (false, false));
    t.gate.circuit_element.inputs.push(CircuitElementEnum::WireGroup(1));
    assert_eq!(t.compute_next_state(&sim), (false, false));
    t.gate.circuit_element.inputs.push(CircuitElementEnum::WireGroup(0));
    assert_eq!(t.compute_next_state(&sim), (true, true));
    assert!(t.stack.is_empty());
    assert!(!t.gate.circuit_element.state);
}

#[test]
fn timer_delay_of_three() {
    let mut sim = switch_wire_timer(3);
    assert!(sim.update_switch_state(1, true));

    // The frame in which the change reaches the timer's input.
    let r = sim.compute_frame(50, 1);
    assert_eq!(r.unsettled, 0);
    assert!(r.components.is_empty());
    assert!(timer_of(&sim, 2).input_state);
    assert_eq!(timer_of(&sim, 2).stack, vec![(2, true)]);
    assert!(!timer_of(&sim, 2).gate.circuit_element.state);

    // Three more frames: the output holds twice and flips on the third.
    let r = sim.compute_frame(50, 1);
    assert!(r.components.is_empty());
    assert!(!timer_of(&sim, 2).gate.circuit_element.state);
    assert_eq!(timer_of(&sim, 2).stack, vec![(1, true)]);

    let r = sim.compute_frame(50, 1);
    assert!(r.components.is_empty());
    assert!(!timer_of(&sim, 2).gate.circuit_element.state);
    assert_eq!(timer_of(&sim, 2).stack, vec![(0, true)]);

    let r = sim.compute_frame(50, 1);
    assert_eq!(r.components.len(), 1);
    assert_eq!((r.components[0].id, r.components[0].state), (2, true));
    assert!(timer_of(&sim, 2).gate.circuit_element.state);
    assert!(timer_of(&sim, 2).stack.is_empty());
}

#[test]
fn timer_delay_of_zero_shows_at_once() {
    let mut sim = switch_wire_timer(0);
    sim.update_switch_state(1, true);
    let r = sim.compute_frame(50, 1);
    assert_eq!(r.components.len(), 1);
    assert_eq!((r.components[0].id, r.components[0].state), (2, true));
    assert!(timer_of(&sim, 2).stack.is_empty());
}

#[test]
fn timer_ages_once_for_each_stabilization() {
    let mut sim = switch_wire_timer(5);
    sim.update_switch_state(1, true);
    sim.compute_frame(50, 1);
    assert_eq!(timer_of(&sim, 2).stack, vec![(4, true)]);
    sim.compute_frame(50, 3);
    assert_eq!(timer_of(&sim, 2).stack, vec![(1, true)]);
    let r = sim.compute_frame(50, 2);
    assert_eq!(r.components.len(), 1);
    assert!(timer_of(&sim, 2).gate.circuit_element.state);
}

#[test]
fn timer_queues_flips_that_come_fast() {
    let mut sim = switch_wire_timer(2);
    sim.update_switch_state(1, true);
    sim.compute_frame(50, 1);
    sim.update_switch_state(1, false);
    sim.compute_frame(50, 1);
    assert_eq!(timer_of(&sim, 2).stack, vec![(0, true), (1, false)]);

    let r = sim.compute_frame(50, 1);
    assert_eq!(r.components.len(), 1);
    assert_eq!((r.components[0].id, r.components[0].state), (2, true));
    assert_eq!(timer_of(&sim, 2).stack, vec![(0, false)]);

    let r = sim.compute_frame(50, 1);
    assert_eq!(r.components.len(), 1);
    assert_eq!((r.components[0].id, r.components[0].state), (2, false));
    assert!(timer_of(&sim, 2).stack.is_empty());
}

#[test]
fn timer_change_within_one_frame_is_not_reported() {
    let mut sim = switch_wire_timer(1);
    sim.update_switch_state(1, true);
    sim.compute_frame(50, 1);
    sim.update_switch_state(1, false);
    // Within these stabilizations the timer goes up and comes down again.
    let r = sim.compute_frame(50, 4);
    assert!(r.components.is_empty());
    assert!(!timer_of(&sim, 2).gate.circuit_element.state);
    assert!(timer_of(&sim, 2).stack.is_empty());
}
