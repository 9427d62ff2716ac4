use logic_sim::changes::TickResults;
use logic_sim::Simulation;
use logic_sim::types::{ChangedElement, Orientation, Position};

fn pt(x: i32, y: i32) -> Position {
    Position { x, y }
}

fn level_of(sim: &Simulation, id: usize) -> bool {
    let k = sim.find_component(id).expect("no such component");
    sim.composants[k].circuit_element().state
}

fn pairs(list: &Vec<ChangedElement>) -> Vec<(usize, bool)> {
    list.iter().map(|e| (e.id, e.state)).collect()
}

fn sorted(list: &Vec<ChangedElement>) -> Vec<(usize, bool)> {
    let mut all = pairs(list);
    all.sort();
    all
}

/// Two switches that feed an AND gate, and a wire at its output.
fn and_circuit() -> Simulation {
    let mut sim = Simulation::new();
    sim.add_and_gate(vec![10, 0], Orientation::Right, 1);
    sim.add_switch(vec![0, 1], 2);
    sim.add_switch(vec![0, -1], 3);
    sim.add_wire(vec![pt(0, 1), pt(5, 1)], 1);
    sim.add_wire(vec![pt(0, -1), pt(5, -1)], 2);
    sim.add_wire(vec![pt(10, 0), pt(15, 0)], 3);
    sim.compute_connections();
    sim
}

/// A NOT gate whose output is wired back to its input.
fn not_loop() -> Simulation {
    let mut sim = Simulation::new();
    sim.add_not_gate(vec![10, 0], Orientation::Right, 1);
    sim.add_wire(vec![pt(10, 0), pt(5, 0)], 7);
    sim.compute_connections();
    sim
}

fn run_script(sim: &mut Simulation) -> Vec<(Vec<(usize, bool)>, Vec<(usize, bool)>, u32)> {
    let mut reports = Vec::new();
    let mut note = |r: TickResults| reports.push((pairs(&r.wires), pairs(&r.components), r.unsettled));
    note(sim.compute_frame(50, 1));
    sim.update_switch_state(2, true);
    note(sim.compute_frame(50, 1));
    sim.update_switch_state(3, true);
    note(sim.compute_frame(50, 2));
    sim.update_switch_state(2, false);
    note(sim.compute_frame(1, 1));
    note(sim.compute_frame(50, 1));
    reports
}

#[test]
fn and_circuit_frame_by_frame() {
    let mut sim = and_circuit();
    let reports = run_script(&mut sim);
    assert_eq!(reports[0], (vec![], vec![], 0));
    assert_eq!(reports[1], (vec![(1, true)], vec![], 0));
    assert_eq!(reports[2], (vec![(2, true), (3, true)], vec![(1, true)], 0));
    assert_eq!(reports[3], (vec![(1, false)], vec![], 1));
    assert_eq!(reports[4], (vec![(3, false)], vec![(1, false)], 0));
}

#[test]
fn same_script_same_reports() {
    let mut one = and_circuit();
    let mut other = and_circuit();
    assert_eq!(run_script(&mut one), run_script(&mut other));
    let mut again = and_circuit();
    again.reset();
    let mut rebuilt = and_circuit();
    assert_eq!(run_script(&mut rebuilt), run_script(&mut one_more()));
    assert!(again.composants.is_empty());
}

fn one_more() -> Simulation {
    and_circuit()
}

#[test]
fn order_of_components_does_not_matter() {
    let mut sim = and_circuit();
    let mut other = Simulation::new();
    other.add_switch(vec![0, -1], 3);
    other.add_switch(vec![0, 1], 2);
    other.add_and_gate(vec![10, 0], Orientation::Right, 1);
    other.add_wire(vec![pt(0, 1), pt(5, 1)], 1);
    other.add_wire(vec![pt(0, -1), pt(5, -1)], 2);
    other.add_wire(vec![pt(10, 0), pt(15, 0)], 3);
    other.compute_connections();

    for (id, state) in [(2, true), (3, true), (2, false), (3, false), (2, true)] {
        sim.update_switch_state(id, state);
        other.update_switch_state(id, state);
        let a = sim.compute_frame(50, 1);
        let b = other.compute_frame(50, 1);
        assert_eq!(pairs(&a.wires), pairs(&b.wires));
        assert_eq!(sorted(&a.components), sorted(&b.components));
        assert_eq!(a.unsettled, b.unsettled);
        for id in 1..=3 {
            assert_eq!(level_of(&sim, id), level_of(&other, id));
        }
    }
}

#[test]
fn frame_of_no_ticks_changes_nothing() {
    let mut sim = and_circuit();
    sim.update_switch_state(2, true);
    sim.update_switch_state(3, true);
    let r = sim.compute_frame(50, 0);
    assert!(r.wires.is_empty());
    assert!(r.components.is_empty());
    assert_eq!(r.unsettled, 0);
    assert!(level_of(&sim, 2));
    assert!(level_of(&sim, 3));
    assert!(!level_of(&sim, 1));
    assert!(sim.wire_groups.iter().all(|g| !g.circuit_element.state));

    let mut empty = Simulation::new();
    let r = empty.compute_frame(0, 0);
    assert!(r.wires.is_empty() && r.components.is_empty());
}

#[test]
fn frame_of_depth_zero_only_ages_timers() {
    let mut sim = and_circuit();
    sim.update_switch_state(2, true);
    let r = sim.compute_frame(0, 3);
    assert!(r.wires.is_empty());
    assert!(r.components.is_empty());
    assert_eq!(r.unsettled, 3);
    assert!(sim.wire_groups.iter().all(|g| !g.circuit_element.state));
}

#[test]
fn oscillation_stops_at_the_bound() {
    let mut sim = not_loop();
    let r = sim.compute_frame(50, 1);
    assert_eq!(r.unsettled, 1);
    assert_eq!(pairs(&r.components), vec![(1, true)]);
    assert_eq!(pairs(&r.wires), vec![(7, true)]);
    assert!(level_of(&sim, 1));
}

#[test]
fn oscillation_is_counted_for_each_stabilization() {
    let mut sim = not_loop();
    let r = sim.compute_frame(50, 4);
    assert_eq!(r.unsettled, 4);
}

#[test]
fn oscillation_back_to_the_start_is_not_reported() {
    let mut sim = not_loop();
    let r = sim.compute_frame(48, 1);
    assert_eq!(r.unsettled, 1);
    assert!(r.wires.is_empty());
    assert!(r.components.is_empty());
    assert!(!level_of(&sim, 1));
}

#[test]
fn tick_reads_the_levels_from_before() {
    let mut sim = not_loop();
    assert!(sim.tick());
    assert!(level_of(&sim, 1));
    assert!(!sim.wire_groups[0].circuit_element.state);
    assert!(sim.tick());
    assert!(level_of(&sim, 1));
    assert!(sim.wire_groups[0].circuit_element.state);
    assert!(sim.tick());
    assert!(!level_of(&sim, 1));
    assert!(sim.wire_groups[0].circuit_element.state);
    assert!(sim.tick());
    assert!(!level_of(&sim, 1));
    assert!(!sim.wire_groups[0].circuit_element.state);
}

#[test]
fn tick_at_rest_reports_no_change() {
    let mut sim = and_circuit();
    assert!(!sim.tick());
    sim.update_switch_state(2, true);
    assert!(sim.tick());
    assert!(!sim.tick());
}

#[test]
fn run_until_stabilizes_says_whether_it_hit_the_bound() {
    let mut sim = and_circuit();
    sim.update_switch_state(2, true);
    sim.update_switch_state(3, true);
    // The change needs three ticks, and a fourth finds the circuit at rest.
    assert!(sim.run_until_stabilizes(3));
    assert!(sim.wire_groups[2].circuit_element.state);
    assert!(!sim.run_until_stabilizes(1));

    let mut sim = and_circuit();
    sim.update_switch_state(2, true);
    sim.update_switch_state(3, true);
    assert!(!sim.run_until_stabilizes(4));
    assert!(sim.wire_groups[2].circuit_element.state);

    let mut sim = and_circuit();
    assert!(sim.run_until_stabilizes(0));
}

#[test]
fn reported_ids_have_changed_and_others_have_not() {
    let mut sim = and_circuit();
    sim.update_switch_state(2, true);
    sim.update_switch_state(3, true);
    for _ in 0..3 {
        let groups_before: Vec<bool> =
            sim.wire_groups.iter().map(|g| g.circuit_element.state).collect();
        let before: Vec<(usize, bool)> = sim
            .composants
            .iter()
            .map(|c| (c.circuit_element().id, c.circuit_element().state))
            .collect();
        let r = sim.compute_frame(1, 1);
        for (k, group) in sim.wire_groups.iter().enumerate() {
            let changed = group.circuit_element.state != groups_before[k];
            for wire in group.wires.iter() {
                let reported =
                    r.wires.iter().any(|e| e.id == *wire && e.state == group.circuit_element.state);
                assert_eq!(reported, changed);
                assert_eq!(r.wires.iter().any(|e| e.id == *wire), changed);
            }
        }
        for (id, old_state) in before {
            let now = level_of(&sim, id);
            assert_eq!(r.components.iter().any(|e| e.id == id), now != old_state);
            assert_eq!(r.components.iter().any(|e| e.id == id && e.state == now), now != old_state);
        }
    }
}

#[test]
fn switch_written_before_the_frame_is_not_reported() {
    let mut sim = and_circuit();
    sim.update_switch_state(2, true);
    let r = sim.compute_frame(50, 1);
    assert!(!r.components.iter().any(|e| e.id == 2));
}

#[test]
fn merged_wires_are_reported_together() {
    let mut sim = Simulation::new();
    sim.add_switch(vec![0, 0], 1);
    sim.add_wire(vec![pt(0, 0), pt(5, 0)], 10);
    sim.add_wire(vec![pt(5, 0), pt(5, 5)], 11);
    sim.add_wire(vec![pt(20, 20), pt(25, 20)], 12);
    sim.compute_connections();
    sim.update_switch_state(1, true);
    let r = sim.compute_frame(50, 1);
    assert_eq!(pairs(&r.wires), vec![(10, true), (11, true)]);
    assert_eq!(pairs(r.wires()), vec![(10, true), (11, true)]);
    assert!(r.components().is_empty());
}

#[test]
fn latch_in_a_circuit() {
    let mut sim = Simulation::new();
    sim.add_latch_gate(vec![10, 0], Orientation::Right, 1);
    sim.add_switch(vec![0, 1], 2);
    sim.add_switch(vec![0, -1], 3);
    // The wire that is added first becomes the first input: enable.
    sim.add_wire(vec![pt(0, 1), pt(5, 1)], 1);
    sim.add_wire(vec![pt(0, -1), pt(5, -1)], 2);
    sim.compute_connections();

    sim.update_switch_state(3, true);
    sim.compute_frame(50, 1);
    assert!(!level_of(&sim, 1));

    sim.update_switch_state(2, true);
    sim.compute_frame(50, 1);
    assert!(level_of(&sim, 1));

    sim.update_switch_state(2, false);
    sim.update_switch_state(3, false);
    sim.compute_frame(50, 1);
    assert!(level_of(&sim, 1));

    sim.update_switch_state(2, true);
    sim.compute_frame(50, 1);
    assert!(!level_of(&sim, 1));
}

#[test]
fn gates_in_a_row() {
    let mut sim = Simulation::new();
    sim.add_switch(vec![0, 0], 1);
    sim.add_not_gate(vec![10, 0], Orientation::Right, 2);
    sim.add_buffer_gate(vec![20, 0], Orientation::Right, 3);
    sim.add_xor_gate(vec![30, 1], Orientation::Right, 4);
    sim.add_or_gate(vec![30, -9], Orientation::Right, 5);
    sim.add_wire(vec![pt(0, 0), pt(5, 0)], 1);
    sim.add_wire(vec![pt(10, 0), pt(15, 0)], 2);
    sim.add_wire(vec![pt(20, 0), pt(25, 0), pt(25, -10)], 3);
    sim.compute_connections();

    let r = sim.compute_frame(50, 1);
    assert_eq!(r.unsettled, 0);
    assert_eq!(sorted(&r.components), vec![(2, true), (3, true), (4, true), (5, true)]);
    assert_eq!(pairs(&r.wires), vec![(2, true), (3, true)]);

    sim.update_switch_state(1, true);
    let r = sim.compute_frame(50, 1);
    assert_eq!(sorted(&r.components), vec![(2, false), (3, false), (4, false), (5, false)]);
    assert_eq!(pairs(&r.wires), vec![(1, true), (2, false), (3, false)]);
}

#[test]
fn tick_without_change_leaves_every_level() {
    let mut sim = and_circuit();
    sim.update_switch_state(2, true);
    sim.update_switch_state(3, true);
    loop {
        let groups: Vec<bool> = sim.wire_groups.iter().map(|g| g.circuit_element.state).collect();
        let levels: Vec<bool> = sim.composants.iter().map(|c| c.circuit_element().state).collect();
        if sim.tick() {
            continue;
        }
        let after: Vec<bool> = sim.wire_groups.iter().map(|g| g.circuit_element.state).collect();
        let now: Vec<bool> = sim.composants.iter().map(|c| c.circuit_element().state).collect();
        assert_eq!(groups, after);
        assert_eq!(levels, now);
        break;
    }
    assert!(level_of(&sim, 1));
}

#[test]
fn xor_of_one_wire_on_both_pins_is_false() {
    let mut sim = Simulation::new();
    sim.add_switch(vec![0, 0], 1);
    sim.add_xor_gate(vec![10, 0], Orientation::Right, 2);
    sim.add_wire(vec![pt(0, 0), pt(5, 1), pt(5, -1)], 1);
    sim.compute_connections();
    sim.update_switch_state(1, true);
    let r = sim.compute_frame(50, 1);
    assert_eq!(pairs(&r.wires), vec![(1, true)]);
    assert!(r.components.is_empty());
    assert!(!level_of(&sim, 2));
}

#[test]
fn and_of_one_wire_on_both_pins_is_true() {
    let mut sim = Simulation::new();
    sim.add_switch(vec![0, 0], 1);
    sim.add_and_gate(vec![10, 0], Orientation::Right, 2);
    sim.add_wire(vec![pt(0, 0), pt(5, 1), pt(5, -1)], 1);
    sim.compute_connections();
    sim.update_switch_state(1, true);
    let r = sim.compute_frame(50, 1);
    assert_eq!(pairs(&r.components), vec![(2, true)]);
}
