//! The model of a circuit, over which all contracts are stated.

use vstd::prelude::*;
use crate::circuit_element::CircuitElementEnum;
use crate::types::Position;

verus! {

/// The kinds of component.
#[derive(Clone, Copy, Debug, PartialEq, Eq, Structural)]
pub enum GateKind {
    Switch,
    And,
    Or,
    Xor,
    Not,
    Buffer,
    Latch,
    Timer,
}

/// What every simulated node has: its id, its level and its links.
pub struct ElementView {
    pub id: usize,
    pub state: bool,
    pub inputs: Seq<CircuitElementEnum>,
    pub outputs: Seq<CircuitElementEnum>,
}

/// A raw wire: its polyline.
pub struct WireView {
    pub element: ElementView,
    pub positions: Seq<Position>,
}

/// An electrical node: the wires it is made of, in the order in which they
/// joined, and their positions, concatenated in that order.
pub struct GroupView {
    pub element: ElementView,
    pub positions: Seq<Position>,
    pub wires: Seq<usize>,
}

/// A component of any kind.
///
/// `ticks`, `input_state` and `stack` are the delay line of a timer; for
/// every other kind they are `0`, `false` and empty.
pub struct ComponentView {
    pub kind: GateKind,
    pub element: ElementView,
    pub position: Position,
    pub output_position: Position,
    pub input_positions: Seq<Position>,
    pub ticks: u32,
    pub input_state: bool,
    pub stack: Seq<(u32, bool)>,
}

/// The whole circuit. Components and wires stand in the order in which
/// their ids were first added.
pub struct SimulationView {
    pub components: Seq<ComponentView>,
    pub wires: Seq<WireView>,
    pub groups: Seq<GroupView>,
}

impl ElementView {
    /// A node that has just been created.
    pub open spec fn fresh(id: usize) -> ElementView {
        ElementView { id, state: false, inputs: Seq::empty(), outputs: Seq::empty() }
    }

    pub open spec fn with_state(self, state: bool) -> ElementView {
        ElementView { state, ..self }
    }
}

impl GroupView {
    pub open spec fn with_state(self, state: bool) -> GroupView {
        GroupView { element: self.element.with_state(state), ..self }
    }
}

impl ComponentView {
    pub open spec fn with_state(self, state: bool) -> ComponentView {
        ComponentView { element: self.element.with_state(state), ..self }
    }
}

impl ComponentView {
    /// The component with other links.
    pub open spec fn relinked(
        self,
        inputs: Seq<CircuitElementEnum>,
        outputs: Seq<CircuitElementEnum>,
    ) -> ComponentView {
        ComponentView { element: ElementView { inputs, outputs, ..self.element }, ..self }
    }

    /// The same component, but for its level and the state of its delay
    /// line.
    pub open spec fn same_part(self, other: ComponentView) -> bool {
        &&& self.kind == other.kind
        &&& self.element.id == other.element.id
        &&& self.element.inputs == other.element.inputs
        &&& self.element.outputs == other.element.outputs
        &&& self.position == other.position
        &&& self.output_position == other.output_position
        &&& self.input_positions == other.input_positions
        &&& self.ticks == other.ticks
    }
}

impl GroupView {
    /// The group with other links.
    pub open spec fn relinked(
        self,
        inputs: Seq<CircuitElementEnum>,
        outputs: Seq<CircuitElementEnum>,
    ) -> GroupView {
        GroupView { element: ElementView { inputs, outputs, ..self.element }, ..self }
    }

    /// The same group, but for its level.
    pub open spec fn same_part(self, other: GroupView) -> bool {
        &&& self.element.id == other.element.id
        &&& self.element.inputs == other.element.inputs
        &&& self.element.outputs == other.element.outputs
        &&& self.positions == other.positions
        &&& self.wires == other.wires
    }
}

impl SimulationView {
    /// The same circuit in another state: the same wires, the same groups
    /// and the same components with the same links, whatever their levels
    /// and delay lines hold.
    pub open spec fn same_circuit(self, other: SimulationView) -> bool {
        &&& self.wires == other.wires
        &&& self.groups.len() == other.groups.len()
        &&& self.components.len() == other.components.len()
        &&& forall|k: int|
            0 <= k < self.groups.len() ==> (#[trigger] self.groups[k]).same_part(other.groups[k])
        &&& forall|k: int|
            0 <= k < self.components.len() ==> (#[trigger] self.components[k]).same_part(
                other.components[k],
            )
    }

    pub open spec fn component_ids(self) -> Seq<usize> {
        Seq::new(self.components.len(), |k: int| self.components[k].element.id)
    }

    pub open spec fn wire_ids(self) -> Seq<usize> {
        Seq::new(self.wires.len(), |k: int| self.wires[k].element.id)
    }

    pub open spec fn group_ids(self) -> Seq<usize> {
        Seq::new(self.groups.len(), |k: int| self.groups[k].element.id)
    }

    /// No two components share an id, no two wires share an id, and every
    /// wire group is named by its place in the list of groups.
    pub open spec fn wf(self) -> bool {
        &&& self.component_ids().no_duplicates()
        &&& self.wire_ids().no_duplicates()
        &&& forall|k: int| 0 <= k < self.groups.len() ==> #[trigger] self.groups[k].element.id == k
    }

    /// The level that a reference reads: that of the first element of the
    /// collection it points into that has its id, and `false` where there is
    /// none.
    pub open spec fn level(self, r: CircuitElementEnum) -> bool {
        match r {
            CircuitElementEnum::WireGroup(id) => match self.group_ids().index_of_first(id) {
                Some(k) => self.groups[k].element.state,
                None => false,
            },
            CircuitElementEnum::Component(id) => match self.component_ids().index_of_first(id) {
                Some(k) => self.components[k].element.state,
                None => false,
            },
        }
    }

    /// The levels that a list of references reads, one for one.
    pub open spec fn levels(self, refs: Seq<CircuitElementEnum>) -> Seq<bool> {
        Seq::new(refs.len(), |i: int| self.level(refs[i]))
    }
}

/// The same circuit in another state is well formed if the circuit is.
pub proof fn lemma_same_circuit_wf(a: SimulationView, b: SimulationView)
    requires
        a.same_circuit(b),
    ensures
        a.component_ids() == b.component_ids(),
        a.group_ids() == b.group_ids(),
        a.wire_ids() == b.wire_ids(),
        a.wf() == b.wf(),
{
    assert forall|k: int| 0 <= k < a.groups.len() implies a.groups[k].element.id
        == b.groups[k].element.id by {}
}

} // verus!
