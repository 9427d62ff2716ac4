//! The node that every simulated element wraps, and the references by which
//! nodes name each other.

use vstd::prelude::*;
use crate::logic::{any_true, count_true, lemma_count_true_push, parity};
use crate::model::ElementView;
use crate::simulation::Simulation;

verus! {

/// A link from one node to another. It names the other node by id and is
/// looked up each time it is read, so it may outlive what it names.
#[derive(Clone, Copy, Debug, PartialEq, Eq, Structural)]
pub enum CircuitElementEnum {
    WireGroup(usize),
    Component(usize),
}

pub struct CircuitElement {
    pub state: bool,
    pub inputs: Vec<CircuitElementEnum>,
    pub outputs: Vec<CircuitElementEnum>,
    pub id: usize,
}

impl View for CircuitElement {
    type V = ElementView;

    open spec fn view(&self) -> ElementView {
        ElementView {
            id: self.id,
            state: self.state,
            inputs: self.inputs@,
            outputs: self.outputs@,
        }
    }
}

impl CircuitElement {
    pub fn new(id: usize) -> (r: Self)
        ensures
            r@ == ElementView::fresh(id),
    {
        CircuitElement { state: false, inputs: Vec::new(), outputs: Vec::new(), id }
    }

    /// Sets the level. Writing the level that the node already has changes
    /// nothing.
    pub fn set_state(&mut self, new_state: bool)
        ensures
            final(self)@ == old(self)@.with_state(new_state),
    {
        if self.state == new_state {
            return ;
        }
        self.state = new_state;
    }

    /// Whether some input reference reads `true`.
    pub fn any_input(&self, sim: &Simulation) -> (r: bool)
        ensures
            r == any_true(sim@.levels(self@.inputs)),
    {
        let ghost levels = sim@.levels(self@.inputs);
        let mut i: usize = 0;
        while i < self.inputs.len()
            invariant
                i <= self.inputs.len(),
                levels == sim@.levels(self@.inputs),
                forall|j: int| 0 <= j < i ==> !levels[j],
            decreases self.inputs.len() - i,
        {
            if self.inputs[i].get_state(sim) {
                assert(levels[i as int]);
                return true;
            }
            i += 1;
        }
        false
    }

    /// How many input references read `true`.
    pub fn count_inputs(&self, sim: &Simulation) -> (r: usize)
        ensures
            r == count_true(sim@.levels(self@.inputs)),
    {
        let ghost levels = sim@.levels(self@.inputs);
        let mut count: usize = 0;
        let mut i: usize = 0;
        while i < self.inputs.len()
            invariant
                i <= self.inputs.len(),
                levels == sim@.levels(self@.inputs),
                count == count_true(levels.take(i as int)),
                count <= i,
            decreases self.inputs.len() - i,
        {
            let level = self.inputs[i].get_state(sim);
            proof {
                lemma_count_true_push(levels.take(i as int), level);
                assert(levels.take(i + 1) == levels.take(i as int).push(level));
            }
            if level {
                count += 1;
            }
            i += 1;
        }
        assert(levels.take(self.inputs.len() as int) == levels);
        count
    }

    /// The exclusive or of what all input references read.
    pub fn input_parity(&self, sim: &Simulation) -> (r: bool)
        ensures
            r == parity(sim@.levels(self@.inputs)),
    {
        let ghost levels = sim@.levels(self@.inputs);
        let mut odd = false;
        let mut i: usize = 0;
        while i < self.inputs.len()
            invariant
                i <= self.inputs.len(),
                levels == sim@.levels(self@.inputs),
                odd == parity(levels.take(i as int)),
            decreases self.inputs.len() - i,
        {
            let level = self.inputs[i].get_state(sim);
            proof {
                lemma_count_true_push(levels.take(i as int), level);
                assert(levels.take(i + 1) == levels.take(i as int).push(level));
            }
            odd = odd ^ level;
            i += 1;
        }
        assert(levels.take(self.inputs.len() as int) == levels);
        odd
    }
}

impl CircuitElementEnum {
    /// The level that the reference reads in `sim`: that of the element it
    /// names, and `false` where `sim` holds no such element.
    pub fn get_state(&self, sim: &Simulation) -> (r: bool)
        ensures
            r == sim@.level(*self),
    {
        match self {
            CircuitElementEnum::WireGroup(id) => {
                let ghost ids = sim@.group_ids();
                proof {
                    ids.index_of_first_ensures(*id);
                }
                let mut i: usize = 0;
                while i < sim.wire_groups.len()
                    invariant
                        i <= sim.wire_groups.len(),
                        ids == sim@.group_ids(),
                        *self == CircuitElementEnum::WireGroup(*id),
                        forall|j: int| 0 <= j < i ==> ids[j] != *id,
                    decreases sim.wire_groups.len() - i,
                {
                    if sim.wire_groups[i].circuit_element.id == *id {
                        proof {
                            ids.index_of_first_ensures(*id);
                            assert(ids[i as int] == *id);
                        }
                        return sim.wire_groups[i].circuit_element.state;
                    }
                    i += 1;
                }
                false
            },
            CircuitElementEnum::Component(id) => {
                let ghost ids = sim@.component_ids();
                proof {
                    ids.index_of_first_ensures(*id);
                }
                let mut i: usize = 0;
                while i < sim.composants.len()
                    invariant
                        i <= sim.composants.len(),
                        ids == sim@.component_ids(),
                        *self == CircuitElementEnum::Component(*id),
                        forall|j: int| 0 <= j < i ==> ids[j] != *id,
                    decreases sim.composants.len() - i,
                {
                    let element = sim.composants[i].circuit_element();
                    if element.id == *id {
                        proof {
                            ids.index_of_first_ensures(*id);
                            assert(ids[i as int] == *id);
                        }
                        return element.state;
                    }
                    i += 1;
                }
                false
            },
        }
    }
}

} // verus!
