use logic_sim::circuit_element::CircuitElementEnum;
use logic_sim::connectivity::link;
use logic_sim::gates::{AndGate, TwoInputsGate};
use logic_sim::grouping::shares_position;
use logic_sim::{ComposantsEnum, Simulation};
use logic_sim::types::{Orientation, Position};
use logic_sim::wire::WireGroup;

fn p(x: i32, y: i32) -> Position {
    Position { x, y }
}

fn element_of(sim: &Simulation, id: usize) -> &logic_sim::circuit_element::CircuitElement {
    let k = sim.find_component(id).expect("no such component");
    sim.composants[k].circuit_element()
}

fn members(sim: &Simulation) -> Vec<Vec<usize>> {
    sim.wire_groups.iter().map(|g| g.wires.clone()).collect()
}

#[test]
fn touching_wires_merge() {
    let mut sim = Simulation::new();
    sim.add_wire(vec![p(0, 0), p(5, 0)], 10);
    sim.add_wire(vec![p(5, 0), p(5, 5)], 11);
    sim.add_wire(vec![p(20, 20), p(25, 20)], 12);
    sim.compute_connections();

    assert_eq!(members(&sim), vec![vec![10, 11], vec![12]]);
    assert_eq!(sim.wire_groups[0].positions, vec![p(0, 0), p(5, 0), p(5, 0), p(5, 5)]);
    assert_eq!(sim.wire_groups[1].positions, vec![p(20, 20), p(25, 20)]);
    assert_eq!(sim.wire_groups[0].circuit_element.id, 0);
    assert_eq!(sim.wire_groups[1].circuit_element.id, 1);
}

#[test]
fn wires_merge_through_a_wire_added_later() {
    let mut sim = Simulation::new();
    sim.add_wire(vec![p(0, 0), p(1, 0)], 0);
    sim.add_wire(vec![p(5, 5), p(6, 5)], 1);
    sim.add_wire(vec![p(9, 9)], 2);
    sim.add_wire(vec![p(1, 0), p(5, 5)], 3);
    sim.compute_connections();
    assert_eq!(members(&sim), vec![vec![0, 3, 1], vec![2]]);
    assert_eq!(
        sim.wire_groups[0].positions,
        vec![p(0, 0), p(1, 0), p(1, 0), p(5, 5), p(5, 5), p(6, 5)]
    );
}

#[test]
fn group_takes_the_first_touching_wire_first() {
    let mut sim = Simulation::new();
    sim.add_wire(vec![p(0, 0), p(1, 1)], 7);
    sim.add_wire(vec![p(3, 3), p(2, 2)], 5);
    sim.add_wire(vec![p(2, 2), p(1, 1)], 3);
    sim.add_wire(vec![p(0, 0), p(3, 3)], 1);
    sim.compute_connections();
    assert_eq!(members(&sim), vec![vec![7, 3, 5, 1]]);
}

#[test]
fn wires_that_only_cross_do_not_merge() {
    let mut sim = Simulation::new();
    sim.add_wire(vec![p(0, 5), p(10, 5)], 1);
    sim.add_wire(vec![p(5, 0), p(5, 10)], 2);
    sim.compute_connections();
    assert_eq!(members(&sim), vec![vec![1], vec![2]]);
}

#[test]
fn wire_without_positions_stands_alone() {
    let mut sim = Simulation::new();
    sim.add_wire(vec![], 1);
    sim.add_wire(vec![p(0, 0)], 2);
    sim.add_wire(vec![], 3);
    sim.compute_connections();
    assert_eq!(members(&sim), vec![vec![1], vec![2], vec![3]]);
    assert!(sim.wire_groups[0].positions.is_empty());
}

#[test]
fn no_wires_no_groups() {
    let mut sim = Simulation::new();
    sim.add_switch(vec![0, 0], 1);
    sim.compute_connections();
    assert!(sim.wire_groups.is_empty());
    assert!(element_of(&sim, 1).outputs.is_empty());
}

#[test]
fn every_wire_is_in_one_group() {
    let mut sim = Simulation::new();
    for id in 0..12usize {
        let x = (id % 4) as i32;
        let y = (id / 4) as i32 * 10;
        sim.add_wire(vec![p(x, y), p(x + 1, y)], id);
    }
    sim.compute_connections();
    assert_eq!(members(&sim), vec![vec![0, 1, 2, 3], vec![4, 5, 6, 7], vec![8, 9, 10, 11]]);
    let mut seen: Vec<usize> = members(&sim).into_iter().flatten().collect();
    seen.sort();
    assert_eq!(seen, (0..12).collect::<Vec<usize>>());
}

#[test]
fn pin_on_a_wire_is_linked() {
    let mut sim = Simulation::new();
    sim.add_and_gate(vec![10, 0], Orientation::Right, 4);
    sim.add_wire(vec![p(0, 1), p(5, 1)], 1);
    sim.compute_connections();
    assert_eq!(element_of(&sim, 4).inputs, vec![CircuitElementEnum::WireGroup(0)]);
    assert!(element_of(&sim, 4).outputs.is_empty());
    assert_eq!(sim.wire_groups[0].circuit_element.outputs, vec![CircuitElementEnum::Component(4)]);
    assert!(sim.wire_groups[0].circuit_element.inputs.is_empty());
}

#[test]
fn gate_moved_by_one_is_not_linked() {
    let mut sim = Simulation::new();
    sim.add_and_gate(vec![10, 0], Orientation::Right, 4);
    sim.add_wire(vec![p(0, 1), p(5, 1)], 1);
    sim.compute_connections();
    assert_eq!(element_of(&sim, 4).inputs.len(), 1);

    sim.add_and_gate(vec![11, 0], Orientation::Right, 4);
    sim.compute_connections();
    assert!(element_of(&sim, 4).inputs.is_empty());
    assert!(sim.wire_groups[0].circuit_element.outputs.is_empty());
}

#[test]
fn output_pin_on_a_wire_is_linked() {
    let mut sim = Simulation::new();
    sim.add_switch(vec![3, 3], 9);
    sim.add_wire(vec![p(3, 3), p(8, 3)], 2);
    sim.compute_connections();
    assert_eq!(element_of(&sim, 9).outputs, vec![CircuitElementEnum::WireGroup(0)]);
    assert!(element_of(&sim, 9).inputs.is_empty());
    assert_eq!(sim.wire_groups[0].circuit_element.inputs, vec![CircuitElementEnum::Component(9)]);
}

#[test]
fn pin_on_a_junction_is_linked_once_for_each_wire() {
    let mut sim = Simulation::new();
    sim.add_and_gate(vec![10, 0], Orientation::Right, 4);
    sim.add_wire(vec![p(0, 0), p(5, 1)], 1);
    sim.add_wire(vec![p(5, 1), p(9, 9)], 2);
    sim.compute_connections();
    assert_eq!(
        element_of(&sim, 4).inputs,
        vec![CircuitElementEnum::WireGroup(0), CircuitElementEnum::WireGroup(0)]
    );
    assert_eq!(
        sim.wire_groups[0].circuit_element.outputs,
        vec![CircuitElementEnum::Component(4), CircuitElementEnum::Component(4)]
    );
}

#[test]
fn links_come_in_the_order_of_groups_and_components() {
    let mut sim = Simulation::new();
    sim.add_or_gate(vec![10, 0], Orientation::Right, 20);
    sim.add_switch(vec![5, 1], 30);
    sim.add_wire(vec![p(5, -1)], 1);
    sim.add_wire(vec![p(5, 1)], 2);
    sim.add_wire(vec![p(10, 0)], 3);
    sim.compute_connections();
    assert_eq!(
        element_of(&sim, 20).inputs,
        vec![CircuitElementEnum::WireGroup(0), CircuitElementEnum::WireGroup(1)]
    );
    assert_eq!(element_of(&sim, 20).outputs, vec![CircuitElementEnum::WireGroup(2)]);
    assert_eq!(sim.wire_groups[1].circuit_element.outputs, vec![CircuitElementEnum::Component(20)]);
    assert_eq!(sim.wire_groups[1].circuit_element.inputs, vec![CircuitElementEnum::Component(30)]);
    assert_eq!(sim.wire_groups[2].circuit_element.inputs, vec![CircuitElementEnum::Component(20)]);
}

#[test]
fn second_pass_gives_the_same() {
    let mut sim = Simulation::new();
    sim.add_switch(vec![0, 0], 1);
    sim.add_not_gate(vec![10, 0], Orientation::Right, 2);
    sim.add_wire(vec![p(0, 0), p(5, 0)], 1);
    sim.add_wire(vec![p(10, 0), p(20, 0)], 2);
    sim.compute_connections();
    let groups = members(&sim);
    let inputs = element_of(&sim, 2).inputs.clone();
    let outputs = element_of(&sim, 2).outputs.clone();
    let driven = sim.wire_groups[1].circuit_element.inputs.clone();

    sim.compute_connections();
    assert_eq!(members(&sim), groups);
    assert_eq!(element_of(&sim, 2).inputs, inputs);
    assert_eq!(element_of(&sim, 2).outputs, outputs);
    assert_eq!(sim.wire_groups[1].circuit_element.inputs, driven);
    assert_eq!(sim.wire_groups.len(), 2);
}

#[test]
fn pass_keeps_levels_of_components_and_clears_groups() {
    let mut sim = Simulation::new();
    sim.add_switch(vec![0, 0], 1);
    sim.add_wire(vec![p(0, 0), p(5, 0)], 1);
    sim.compute_connections();
    sim.update_switch_state(1, true);
    sim.compute_frame(10, 1);
    assert!(sim.wire_groups[0].circuit_element.state);

    sim.compute_connections();
    assert!(element_of(&sim, 1).state);
    assert!(!sim.wire_groups[0].circuit_element.state);
}

#[test]
fn link_counts_every_coincidence() {
    let mut gate = ComposantsEnum::AndGate(AndGate {
        gate: TwoInputsGate::new(6, p(10, 0), Orientation::Right),
    });
    let mut group = WireGroup::new(2);
    group.add_wire(1, vec![p(5, 1), p(10, 0), p(5, -1), p(5, 1), p(0, 0)]);
    link(&mut gate, &mut group);
    assert_eq!(
        gate.circuit_element().inputs,
        vec![
            CircuitElementEnum::WireGroup(2),
            CircuitElementEnum::WireGroup(2),
            CircuitElementEnum::WireGroup(2)
        ]
    );
    assert_eq!(gate.circuit_element().outputs, vec![CircuitElementEnum::WireGroup(2)]);
    assert_eq!(group.circuit_element.inputs, vec![CircuitElementEnum::Component(6)]);
    assert_eq!(group.circuit_element.outputs.len(), 3);
}

#[test]
fn shares_position_finds_a_common_point() {
    assert!(shares_position(&vec![p(0, 0), p(1, 1)], &vec![p(2, 2), p(1, 1)]));
    assert!(!shares_position(&vec![p(0, 0), p(1, 1)], &vec![p(1, 0), p(0, 1)]));
    assert!(!shares_position(&vec![], &vec![p(0, 0)]));
    assert!(!shares_position(&vec![p(0, 0)], &vec![]));
}

#[test]
fn find_matching_wire_takes_the_first_unclaimed() {
    let mut sim = Simulation::new();
    sim.add_wire(vec![p(0, 0)], 1);
    sim.add_wire(vec![p(0, 0), p(1, 1)], 2);
    sim.add_wire(vec![p(1, 1)], 3);
    let mut group = WireGroup::new(0);
    group.add_wire(1, vec![p(0, 0)]);
    assert_eq!(sim.find_matching_wire(&group, &vec![true, false, false]), Some(1));
    assert_eq!(sim.find_matching_wire(&group, &vec![true, true, false]), None);
    assert_eq!(sim.find_matching_wire(&group, &vec![false, false, false]), Some(0));
    assert_eq!(sim.find_matching_wire(&group, &vec![]), Some(0));
    group.add_wire(2, vec![p(0, 0), p(1, 1)]);
    assert_eq!(sim.find_matching_wire(&group, &vec![true, true, false]), Some(2));
}

#[test]
fn components_link_to_groups_and_groups_to_components() {
    let mut sim = Simulation::new();
    sim.add_switch(vec![0, 0], 1);
    sim.add_not_gate(vec![10, 0], Orientation::Right, 2);
    sim.add_latch_gate(vec![30, 0], Orientation::Left, 3);
    sim.add_wire(vec![p(0, 0), p(5, 0)], 1);
    sim.add_wire(vec![p(10, 0), p(35, 1)], 2);
    sim.add_wire(vec![p(35, -1), p(30, 0)], 3);
    sim.compute_connections();
    let mut links = 0;
    for composant in sim.composants.iter() {
        let element = composant.circuit_element();
        for r in element.inputs.iter().chain(element.outputs.iter()) {
            assert!(matches!(r, CircuitElementEnum::WireGroup(_)));
            links += 1;
        }
    }
    for group in sim.wire_groups.iter() {
        let element = &group.circuit_element;
        for r in element.inputs.iter().chain(element.outputs.iter()) {
            assert!(matches!(r, CircuitElementEnum::Component(_)));
            links -= 1;
        }
    }
    assert_eq!(links, 0);
    assert_eq!(
        element_of(&sim, 3).inputs,
        vec![CircuitElementEnum::WireGroup(1), CircuitElementEnum::WireGroup(2)]
    );
    assert_eq!(element_of(&sim, 3).outputs, vec![CircuitElementEnum::WireGroup(2)]);
}
