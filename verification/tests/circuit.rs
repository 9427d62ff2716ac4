use logic_sim::changes::{recorded_state, TickResults};
use logic_sim::circuit_element::CircuitElementEnum;
use logic_sim::{ComposantsEnum, Simulation};
use logic_sim::switch::Switch;
use logic_sim::types::{ChangedElement, OldComponents, OldWireGroup, Orientation, Position};

fn xy(x: i32, y: i32) -> Position {
    Position { x, y }
}

fn ids(sim: &Simulation) -> Vec<usize> {
    sim.composants.iter().map(|c| c.circuit_element().id).collect()
}

fn flat(list: &Vec<ChangedElement>) -> Vec<(usize, bool)> {
    list.iter().map(|e| (e.id, e.state)).collect()
}

#[test]
fn new_circuit_is_empty() {
    let sim = Simulation::new();
    assert!(sim.composants.is_empty());
    assert!(sim.wires.is_empty());
    assert!(sim.wire_groups.is_empty());
}

#[test]
fn add_returns_the_id() {
    let mut sim = Simulation::new();
    assert_eq!(sim.add_wire(vec![xy(0, 0)], 17), 17);
    assert_eq!(sim.add_and_gate(vec![0, 0], Orientation::Up, 1), 1);
    assert_eq!(sim.add_or_gate(vec![0, 0], Orientation::Up, 2), 2);
    assert_eq!(sim.add_xor_gate(vec![0, 0], Orientation::Up, 3), 3);
    assert_eq!(sim.add_not_gate(vec![0, 0], Orientation::Up, 4), 4);
    assert_eq!(sim.add_buffer_gate(vec![0, 0], Orientation::Up, 5), 5);
    assert_eq!(sim.add_latch_gate(vec![0, 0], Orientation::Up, 6), 6);
    assert_eq!(sim.add_timer(vec![0, 0], 9, Orientation::Up, 7), 7);
    assert_eq!(sim.add_switch(vec![0, 0], 8), 8);
    assert_eq!(ids(&sim), vec![1, 2, 3, 4, 5, 6, 7, 8]);
    assert_eq!(sim.wires.len(), 1);
}

#[test]
fn add_makes_the_kind_asked_for() {
    let mut sim = Simulation::new();
    sim.add_and_gate(vec![10, 20], Orientation::Left, 1);
    sim.add_or_gate(vec![10, 20], Orientation::Left, 2);
    sim.add_xor_gate(vec![10, 20], Orientation::Left, 3);
    sim.add_not_gate(vec![10, 20], Orientation::Left, 4);
    sim.add_buffer_gate(vec![10, 20], Orientation::Left, 5);
    sim.add_latch_gate(vec![10, 20], Orientation::Left, 6);
    sim.add_timer(vec![10, 20], 9, Orientation::Left, 7);
    sim.add_switch(vec![10, 20], 8);
    assert!(matches!(sim.composants[0], ComposantsEnum::AndGate(_)));
    assert!(matches!(sim.composants[1], ComposantsEnum::OrGate(_)));
    assert!(matches!(sim.composants[2], ComposantsEnum::XorGate(_)));
    assert!(matches!(sim.composants[3], ComposantsEnum::NotGate(_)));
    assert!(matches!(sim.composants[4], ComposantsEnum::BufferGate(_)));
    assert!(matches!(sim.composants[5], ComposantsEnum::LatchGate(_)));
    assert!(matches!(sim.composants[6], ComposantsEnum::TimerGate(_)));
    assert!(matches!(sim.composants[7], ComposantsEnum::Switch(_)));
    for composant in sim.composants.iter() {
        assert_eq!(composant.output_position(), xy(10, 20));
        assert!(!composant.circuit_element().state);
    }
    assert_eq!(sim.composants[0].input_positions(), vec![xy(15, 19), xy(15, 21)]);
    assert_eq!(sim.composants[3].input_positions(), vec![xy(15, 20)]);
    assert_eq!(sim.composants[6].input_positions(), vec![xy(15, 20)]);
    assert!(sim.composants[7].input_positions().is_empty());
    if let ComposantsEnum::TimerGate(timer) = &sim.composants[6] {
        assert_eq!(timer.ticks, 9);
    }
}

#[test]
fn add_uses_the_first_two_coordinates() {
    let mut sim = Simulation::new();
    sim.add_switch(vec![4, 5, 6], 1);
    assert_eq!(sim.composants[0].output_position(), xy(4, 5));
}

#[test]
fn adding_an_id_again_replaces() {
    let mut sim = Simulation::new();
    sim.add_switch(vec![0, 0], 1);
    sim.add_switch(vec![1, 0], 2);
    sim.add_switch(vec![2, 0], 3);
    sim.update_switch_state(2, true);
    sim.add_not_gate(vec![50, 50], Orientation::Up, 2);
    assert_eq!(ids(&sim), vec![1, 2, 3]);
    assert!(matches!(sim.composants[1], ComposantsEnum::NotGate(_)));
    assert!(!sim.composants[1].circuit_element().state);
    assert_eq!(sim.composants[1].output_position(), xy(50, 50));
}

#[test]
fn adding_a_wire_id_again_replaces() {
    let mut sim = Simulation::new();
    sim.add_wire(vec![xy(0, 0)], 5);
    sim.add_wire(vec![xy(1, 1)], 6);
    sim.add_wire(vec![xy(2, 2), xy(3, 3)], 5);
    assert_eq!(sim.wires.len(), 2);
    assert_eq!(sim.wires[0].circuit_element.id, 5);
    assert_eq!(sim.wires[0].positions, vec![xy(2, 2), xy(3, 3)]);
    assert_eq!(sim.wires[1].positions, vec![xy(1, 1)]);
}

#[test]
fn wires_and_components_have_ids_of_their_own() {
    let mut sim = Simulation::new();
    sim.add_wire(vec![xy(0, 0)], 1);
    sim.add_switch(vec![0, 0], 1);
    assert_eq!(sim.wires.len(), 1);
    assert_eq!(sim.composants.len(), 1);
    assert_eq!(sim.find_wire(1), Some(0));
    assert_eq!(sim.find_component(1), Some(0));
    assert_eq!(sim.find_wire(2), None);
    assert_eq!(sim.find_component(2), None);
}

#[test]
fn switch_write() {
    let mut sim = Simulation::new();
    sim.add_switch(vec![0, 0], 1);
    assert!(sim.update_switch_state(1, true));
    assert!(sim.composants[0].circuit_element().state);
    assert!(sim.update_switch_state(1, true));
    assert!(sim.composants[0].circuit_element().state);
    assert!(sim.update_switch_state(1, false));
    assert!(!sim.composants[0].circuit_element().state);
}

#[test]
fn switch_write_to_an_absent_id() {
    let mut sim = Simulation::new();
    sim.add_switch(vec![0, 0], 1);
    assert!(!sim.update_switch_state(2, true));
    assert!(!sim.composants[0].circuit_element().state);
    let mut empty = Simulation::new();
    assert!(!empty.update_switch_state(0, true));
}

#[test]
fn switch_write_to_a_gate() {
    let mut sim = Simulation::new();
    sim.add_buffer_gate(vec![0, 0], Orientation::Up, 1);
    assert!(!sim.update_switch_state(1, true));
    assert!(!sim.composants[0].circuit_element().state);
}

#[test]
fn reset_empties_the_circuit() {
    let mut sim = Simulation::new();
    sim.add_switch(vec![0, 0], 1);
    sim.add_wire(vec![xy(0, 0), xy(1, 0)], 1);
    sim.compute_connections();
    sim.reset();
    assert!(sim.composants.is_empty());
    assert!(sim.wires.is_empty());
    assert!(sim.wire_groups.is_empty());
    assert!(!sim.update_switch_state(1, true));
    let r = sim.compute_frame(10, 2);
    assert!(r.wires.is_empty() && r.components.is_empty());
    assert_eq!(sim.add_switch(vec![0, 0], 1), 1);
    assert_eq!(sim.composants.len(), 1);
}

#[test]
fn component_links() {
    let mut component = ComposantsEnum::Switch(Switch::new(1, xy(0, 0)));
    component.add_input(CircuitElementEnum::WireGroup(3));
    component.add_output(CircuitElementEnum::WireGroup(4));
    component.add_output(CircuitElementEnum::WireGroup(5));
    assert_eq!(component.circuit_element().inputs, vec![CircuitElementEnum::WireGroup(3)]);
    assert_eq!(
        component.circuit_element().outputs,
        vec![CircuitElementEnum::WireGroup(4), CircuitElementEnum::WireGroup(5)]
    );
    component.circuit_element_mut().state = true;
    component.clear_links();
    assert!(component.circuit_element().inputs.is_empty());
    assert!(component.circuit_element().outputs.is_empty());
    assert!(component.circuit_element().state);
    assert_eq!(component.circuit_element().id, 1);
}

#[test]
fn component_commit() {
    let mut sim = Simulation::new();
    sim.add_or_gate(vec![0, 0], Orientation::Up, 1);
    sim.add_switch(vec![0, 0], 2);
    sim.add_timer(vec![0, 0], 0, Orientation::Up, 3);
    sim.add_timer(vec![0, 0], 1, Orientation::Up, 4);
    assert!(!sim.composants[0].commit(true));
    assert!(sim.composants[0].circuit_element().state);
    assert!(!sim.composants[1].commit(true));
    assert!(!sim.composants[1].circuit_element().state);
    assert!(sim.composants[2].commit(true));
    assert!(sim.composants[2].circuit_element().state);
    assert!(!sim.composants[3].commit(true));
    assert!(!sim.composants[3].circuit_element().state);
    assert!(!sim.composants[0].write_switch(false));
    assert!(sim.composants[0].circuit_element().state);
    assert!(sim.composants[1].write_switch(true));
    assert!(sim.composants[1].circuit_element().state);
}

#[test]
fn component_proposal() {
    let mut sim = Simulation::new();
    sim.add_not_gate(vec![0, 0], Orientation::Up, 1);
    sim.add_switch(vec![0, 0], 2);
    sim.add_timer(vec![0, 0], 1, Orientation::Up, 3);
    sim.update_switch_state(2, true);
    assert_eq!(sim.composants[0].compute_next_state(&sim), (true, true));
    assert_eq!(sim.composants[1].compute_next_state(&sim), (true, false));
    assert_eq!(sim.composants[2].compute_next_state(&sim), (false, false));
}

#[test]
fn snapshots_hold_ids_and_levels() {
    let mut sim = Simulation::new();
    sim.add_switch(vec![0, 0], 4);
    sim.add_switch(vec![9, 9], 2);
    sim.add_wire(vec![xy(0, 0)], 8);
    sim.add_wire(vec![xy(5, 5)], 9);
    sim.compute_connections();
    sim.update_switch_state(4, true);
    sim.compute_frame(10, 1);
    assert_eq!(
        sim.create_old_components_copy(),
        vec![OldComponents { id: 4, state: true }, OldComponents { id: 2, state: false }]
    );
    assert_eq!(
        sim.create_old_wires_group_copy(),
        vec![OldWireGroup { index: 0, state: true }, OldWireGroup { index: 1, state: false }]
    );
}

#[test]
fn changed_components_against_a_snapshot() {
    let mut sim = Simulation::new();
    sim.add_switch(vec![0, 0], 4);
    sim.add_switch(vec![9, 9], 2);
    sim.add_switch(vec![9, 9], 6);
    sim.update_switch_state(2, true);
    let old = vec![
        OldComponents { id: 2, state: false },
        OldComponents { id: 4, state: false },
        OldComponents { id: 2, state: true },
        OldComponents { id: 7, state: true },
    ];
    assert_eq!(flat(&sim.create_changed_components_copy(old)), vec![(2, true)]);
    assert!(sim.create_changed_components_copy(vec![]).is_empty());
    let all_true = vec![
        OldComponents { id: 6, state: true },
        OldComponents { id: 4, state: true },
        OldComponents { id: 2, state: true },
    ];
    assert_eq!(flat(&sim.create_changed_components_copy(all_true)), vec![(4, false), (6, false)]);
}

#[test]
fn changed_wires_against_a_snapshot() {
    let mut sim = Simulation::new();
    sim.add_wire(vec![xy(0, 0), xy(1, 0)], 8);
    sim.add_wire(vec![xy(5, 5)], 9);
    sim.add_wire(vec![xy(1, 0)], 3);
    sim.compute_connections();
    let old = vec![OldWireGroup { index: 0, state: true }, OldWireGroup { index: 1, state: false }];
    assert_eq!(flat(&sim.create_changed_wires_copy(old)), vec![(8, false), (3, false)]);
    let short = vec![OldWireGroup { index: 0, state: false }];
    assert!(sim.create_changed_wires_copy(short).is_empty());
    let both = vec![OldWireGroup { index: 5, state: true }, OldWireGroup { index: 5, state: true }];
    assert_eq!(
        flat(&sim.create_changed_wires_copy(both)),
        vec![(8, false), (3, false), (9, false)]
    );
    assert!(sim.create_changed_wires_copy(vec![]).is_empty());
}

#[test]
fn recorded_state_takes_the_first_entry() {
    let old = vec![
        OldComponents { id: 1, state: true },
        OldComponents { id: 2, state: false },
        OldComponents { id: 1, state: false },
    ];
    assert_eq!(recorded_state(&old, 1), Some(true));
    assert_eq!(recorded_state(&old, 2), Some(false));
    assert_eq!(recorded_state(&old, 3), None);
    assert_eq!(recorded_state(&vec![], 1), None);
}

#[test]
fn report_holds_what_it_is_given() {
    let r = TickResults::new(vec![ChangedElement::new(1, true)], vec![]);
    assert_eq!(flat(r.wires()), vec![(1, true)]);
    assert!(r.components().is_empty());
    assert_eq!(r.unsettled, 0);
    let e = ChangedElement::new(5, false);
    assert_eq!((e.id, e.state), (5, false));
}
