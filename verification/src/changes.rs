//! What a frame has changed: snapshots of levels taken before the frame,
//! and the lists of wires and components whose level differs afterwards.

use vstd::prelude::*;
use crate::model::{ComponentView, GroupView};
use crate::simulation::Simulation;
use crate::types::{ChangedElement, OldComponents, OldWireGroup};

verus! {

/// What a frame reports: one entry for every wire whose group has changed
/// its level and one for every component that has, each with the new level;
/// and how many of the frame's stabilizations stopped at the bound without
/// having found the circuit at rest.
pub struct TickResults {
    pub wires: Vec<ChangedElement>,
    pub components: Vec<ChangedElement>,
    pub unsettled: u32,
}

impl TickResults {
    /// A report of the given changes, of a frame all of whose
    /// stabilizations came to rest.
    pub fn new(wires: Vec<ChangedElement>, components: Vec<ChangedElement>) -> (r: Self)
        ensures
            r.wires == wires,
            r.components == components,
            r.unsettled == 0,
    {
        TickResults { wires, components, unsettled: 0 }
    }

    pub fn wires(&self) -> (r: &Vec<ChangedElement>)
        ensures
            r == self.wires,
    {
        &self.wires
    }

    pub fn components(&self) -> (r: &Vec<ChangedElement>)
        ensures
            r == self.components,
    {
        &self.components
    }
}

/// The levels of the groups, in their order.
pub open spec fn snapshot_groups(groups: Seq<GroupView>) -> Seq<OldWireGroup> {
    Seq::new(
        groups.len(),
        |k: int| (OldWireGroup { index: groups[k].element.id, state: groups[k].element.state }),
    )
}

/// The levels of the components, in their order.
pub open spec fn snapshot_components(components: Seq<ComponentView>) -> Seq<OldComponents> {
    Seq::new(
        components.len(),
        |k: int|
            (OldComponents { id: components[k].element.id, state: components[k].element.state }),
    )
}

/// The ids of a snapshot of components, in its order.
pub open spec fn snapshot_ids(old_components: Seq<OldComponents>) -> Seq<usize> {
    Seq::new(old_components.len(), |k: int| old_components[k].id)
}

/// Whether the group at `k` has a level other than the one that the
/// snapshot holds at `k`. A group that the snapshot does not reach has not.
pub open spec fn group_differs(
    old_wires_groups: Seq<OldWireGroup>,
    groups: Seq<GroupView>,
    k: int,
) -> bool {
    k < old_wires_groups.len() && groups[k].element.state != old_wires_groups[k].state
}

/// Whether the component has a level other than the one that the snapshot
/// holds for its id, in the first entry with that id. A component of which
/// the snapshot knows nothing has not.
pub open spec fn component_differs(old_components: Seq<OldComponents>, c: ComponentView) -> bool {
    match recorded(old_components, c.element.id) {
        Some(state) => c.element.state != state,
        None => false,
    }
}

/// The level that the snapshot holds for an id: that of its first entry
/// with the id, if it has one.
pub open spec fn recorded(old_components: Seq<OldComponents>, id: usize) -> Option<bool> {
    match snapshot_ids(old_components).index_of_first(id) {
        Some(k) => Some(old_components[k].state),
        None => None,
    }
}

/// One entry for every wire of the group, in the group's order, each with
/// the group's level.
pub open spec fn wires_report(group: GroupView) -> Seq<ChangedElement> {
    Seq::new(
        group.wires.len(),
        |t: int| (ChangedElement { id: group.wires[t], state: group.element.state }),
    )
}

/// The wire entries that the first `n` groups give rise to: those of each
/// group that differs from the snapshot, group after group.
pub open spec fn changed_wires_upto(
    old_wires_groups: Seq<OldWireGroup>,
    groups: Seq<GroupView>,
    n: nat,
) -> Seq<ChangedElement>
    decreases n,
{
    if n == 0 {
        Seq::empty()
    } else {
        let front = changed_wires_upto(old_wires_groups, groups, (n - 1) as nat);
        if group_differs(old_wires_groups, groups, n - 1) {
            front + wires_report(groups[n - 1])
        } else {
            front
        }
    }
}

/// The wires of a frame's report.
pub open spec fn changed_wires(
    old_wires_groups: Seq<OldWireGroup>,
    groups: Seq<GroupView>,
) -> Seq<ChangedElement> {
    changed_wires_upto(old_wires_groups, groups, groups.len())
}

/// The entries that the first `n` components give rise to: one for each
/// that differs from the snapshot, in their order.
pub open spec fn changed_components_upto(
    old_components: Seq<OldComponents>,
    components: Seq<ComponentView>,
    n: nat,
) -> Seq<ChangedElement>
    decreases n,
{
    if n == 0 {
        Seq::empty()
    } else {
        let front = changed_components_upto(old_components, components, (n - 1) as nat);
        let c = components[n - 1];
        if component_differs(old_components, c) {
            front.push(ChangedElement { id: c.element.id, state: c.element.state })
        } else {
            front
        }
    }
}

/// The components of a frame's report.
pub open spec fn changed_components(
    old_components: Seq<OldComponents>,
    components: Seq<ComponentView>,
) -> Seq<ChangedElement> {
    changed_components_upto(old_components, components, components.len())
}

/// A snapshot of components that all have different ids holds for each of
/// them the level that it has.
pub proof fn lemma_recorded_own_level(components: Seq<ComponentView>, k: int)
    requires
        0 <= k < components.len(),
        snapshot_ids(snapshot_components(components)).no_duplicates(),
    ensures
        recorded(snapshot_components(components), components[k].element.id) == Some(
            components[k].element.state,
        ),
        !component_differs(snapshot_components(components), components[k]),
{
    let ids = snapshot_ids(snapshot_components(components));
    ids.index_of_first_ensures(components[k].element.id);
    assert(ids[k] == components[k].element.id);
}

proof fn lemma_changed_components_upto(
    old_components: Seq<OldComponents>,
    components: Seq<ComponentView>,
    n: nat,
)
    requires
        n <= components.len(),
    ensures
        forall|e: ChangedElement|
            changed_components_upto(old_components, components, n).contains(e) <==> exists|k: int|
                0 <= k < n && component_differs(old_components, #[trigger] components[k]) && e == (
                ChangedElement { id: components[k].element.id, state: components[k].element.state }),
    decreases n,
{
    if n > 0 {
        lemma_changed_components_upto(old_components, components, (n - 1) as nat);
        let front = changed_components_upto(old_components, components, (n - 1) as nat);
        let all = changed_components_upto(old_components, components, n);
        let c = components[n - 1];
        let entry = ChangedElement { id: c.element.id, state: c.element.state };
        assert forall|e: ChangedElement| all.contains(e) <==> exists|k: int|
            0 <= k < n && component_differs(old_components, #[trigger] components[k]) && e == (
            ChangedElement {
                id: components[k].element.id,
                state: components[k].element.state,
            }) by {
            if all.contains(e) {
                let i = choose|i: int| 0 <= i < all.len() && all[i] == e;
                if i < front.len() {
                    assert(front[i] == e);
                }
            }
            if exists|k: int|
                0 <= k < n && component_differs(old_components, #[trigger] components[k]) && e == (
                ChangedElement {
                    id: components[k].element.id,
                    state: components[k].element.state,
                }) {
                let k = choose|k: int|
                    0 <= k < n && component_differs(old_components, #[trigger] components[k]) && e
                        == (ChangedElement {
                        id: components[k].element.id,
                        state: components[k].element.state,
                    });
                if k < n - 1 {
                    assert(front.contains(e));
                    let i = choose|i: int| 0 <= i < front.len() && front[i] == e;
                    assert(all[i] == e);
                } else {
                    assert(all[all.len() - 1] == e);
                }
            }
        }
    }
}

proof fn lemma_changed_wires_upto(
    old_wires_groups: Seq<OldWireGroup>,
    groups: Seq<GroupView>,
    n: nat,
)
    requires
        n <= groups.len(),
    ensures
        forall|e: ChangedElement|
            changed_wires_upto(old_wires_groups, groups, n).contains(e) <==> exists|k: int, t: int|
                0 <= k < n && group_differs(old_wires_groups, groups, k) && 0 <= t
                    < groups[k].wires.len() && e == (ChangedElement {
                    id: #[trigger] groups[k].wires[t],
                    state: groups[k].element.state,
                }),
    decreases n,
{
    if n > 0 {
        lemma_changed_wires_upto(old_wires_groups, groups, (n - 1) as nat);
        let front = changed_wires_upto(old_wires_groups, groups, (n - 1) as nat);
        let all = changed_wires_upto(old_wires_groups, groups, n);
        assert forall|e: ChangedElement| all.contains(e) <==> exists|k: int, t: int|
            0 <= k < n && group_differs(old_wires_groups, groups, k) && 0 <= t
                < groups[k].wires.len() && e == (ChangedElement {
                id: #[trigger] groups[k].wires[t],
                state: groups[k].element.state,
            }) by {
            if all.contains(e) {
                let i = choose|i: int| 0 <= i < all.len() && all[i] == e;
                if i < front.len() {
                }
            }
            if exists|k: int, t: int|
                0 <= k < n && group_differs(old_wires_groups, groups, k) && 0 <= t
                    < groups[k].wires.len() && e == (ChangedElement {
                    id: #[trigger] groups[k].wires[t],
                    state: groups[k].element.state,
                }) {
                let (k, t) = choose|k: int, t: int|
                    0 <= k < n && group_differs(old_wires_groups, groups, k) && 0 <= t
                        < groups[k].wires.len() && e == (ChangedElement {
                        id: #[trigger] groups[k].wires[t],
                        state: groups[k].element.state,
                    });
                if k < n - 1 {
                    assert(front.contains(e));
                    let i = choose|i: int| 0 <= i < front.len() && front[i] == e;
                    assert(all[i] == e);
                } else {
                    assert(all[front.len() + t] == e);
                }
            }
        }
    }
}

proof fn lemma_no_changed_wires_upto(groups: Seq<GroupView>, n: nat)
    requires
        n <= groups.len(),
    ensures
        changed_wires_upto(snapshot_groups(groups), groups, n) == Seq::<ChangedElement>::empty(),
    decreases n,
{
    if n > 0 {
        lemma_no_changed_wires_upto(groups, (n - 1) as nat);
    }
}

proof fn lemma_no_changed_components_upto(components: Seq<ComponentView>, n: nat)
    requires
        n <= components.len(),
        snapshot_ids(snapshot_components(components)).no_duplicates(),
    ensures
        changed_components_upto(snapshot_components(components), components, n) == Seq::<
            ChangedElement,
        >::empty(),
    decreases n,
{
    if n > 0 {
        lemma_no_changed_components_upto(components, (n - 1) as nat);
        lemma_recorded_own_level(components, n - 1);
    }
}

/// What the list of changed components holds: an entry is in it just when
/// it gives the id and the level of a component whose level is not the one
/// that the snapshot holds for its id. So no component that has kept its
/// level is reported, and none that has changed it is left out.
pub proof fn lemma_changed_components_scoped(
    old_components: Seq<OldComponents>,
    components: Seq<ComponentView>,
)
    ensures
        forall|e: ChangedElement|
            changed_components(old_components, components).contains(e) <==> exists|k: int|
                0 <= k < components.len() && component_differs(
                    old_components,
                    #[trigger] components[k],
                ) && e == (ChangedElement {
                    id: components[k].element.id,
                    state: components[k].element.state,
                }),
{
    lemma_changed_components_upto(old_components, components, components.len());
}

/// What the list of changed wires holds: an entry is in it just when it
/// gives the id of a wire of a group whose level is not the one that the
/// snapshot holds for the group, together with the level of the group. So no
/// wire of a group that has kept its level is reported, and none of a group
/// that has changed it is left out.
pub proof fn lemma_changed_wires_scoped(
    old_wires_groups: Seq<OldWireGroup>,
    groups: Seq<GroupView>,
)
    ensures
        forall|e: ChangedElement|
            changed_wires(old_wires_groups, groups).contains(e) <==> exists|k: int, t: int|
                0 <= k < groups.len() && group_differs(old_wires_groups, groups, k) && 0 <= t
                    < groups[k].wires.len() && e == (ChangedElement {
                    id: #[trigger] groups[k].wires[t],
                    state: groups[k].element.state,
                }),
{
    lemma_changed_wires_upto(old_wires_groups, groups, groups.len());
}

/// Against a snapshot of themselves, no wire has changed; and no component
/// has, where all components have different ids.
pub proof fn lemma_nothing_changed(groups: Seq<GroupView>, components: Seq<ComponentView>)
    ensures
        changed_wires(snapshot_groups(groups), groups) == Seq::<ChangedElement>::empty(),
        snapshot_ids(snapshot_components(components)).no_duplicates() ==> changed_components(
            snapshot_components(components),
            components,
        ) == Seq::<ChangedElement>::empty(),
{
    lemma_no_changed_wires_upto(groups, groups.len());
    if snapshot_ids(snapshot_components(components)).no_duplicates() {
        lemma_no_changed_components_upto(components, components.len());
    }
}

/// Looks an id up in a snapshot.
pub fn recorded_state(old_components: &Vec<OldComponents>, id: usize) -> (r: Option<bool>)
    ensures
        r == recorded(old_components@, id),
{
    let ghost ids = snapshot_ids(old_components@);
    let mut o: usize = 0;
    while o < old_components.len()
        invariant
            o <= old_components.len(),
            ids == snapshot_ids(old_components@),
            forall|j: int| 0 <= j < o ==> ids[j] != id,
        decreases old_components.len() - o,
    {
        if old_components[o].id == id {
            proof {
                ids.index_of_first_ensures(id);
                assert(ids[o as int] == id);
            }
            return Some(old_components[o].state);
        }
        o += 1;
    }
    proof {
        ids.index_of_first_ensures(id);
    }
    None
}

impl Simulation {
    /// Records the level of every component.
    pub fn create_old_components_copy(&self) -> (r: Vec<OldComponents>)
        ensures
            r@ == snapshot_components(self@.components),
    {
        let mut copy: Vec<OldComponents> = Vec::new();
        let mut c: usize = 0;
        while c < self.composants.len()
            invariant
                c <= self.composants.len(),
                copy@.len() == c,
                forall|k: int| 0 <= k < c ==> copy@[k] == snapshot_components(self@.components)[k],
            decreases self.composants.len() - c,
        {
            let element = self.composants[c].circuit_element();
            copy.push(OldComponents { id: element.id, state: element.state });
            c += 1;
        }
        copy
    }

    /// Records the level of every wire group.
    pub fn create_old_wires_group_copy(&self) -> (r: Vec<OldWireGroup>)
        ensures
            r@ == snapshot_groups(self@.groups),
    {
        let mut copy: Vec<OldWireGroup> = Vec::new();
        let mut g: usize = 0;
        while g < self.wire_groups.len()
            invariant
                g <= self.wire_groups.len(),
                copy@.len() == g,
                forall|k: int| 0 <= k < g ==> copy@[k] == snapshot_groups(self@.groups)[k],
            decreases self.wire_groups.len() - g,
        {
            let element = &self.wire_groups[g].circuit_element;
            copy.push(OldWireGroup { index: element.id, state: element.state });
            g += 1;
        }
        copy
    }

    /// The wires whose group has a level other than the one recorded for
    /// it, each with the new level: group after group, and within a group
    /// in the order in which the wires joined it.
    pub fn create_changed_wires_copy(&self, old_wires_groups: Vec<OldWireGroup>) -> (r: Vec<
        ChangedElement,
    >)
        ensures
            r@ == changed_wires(old_wires_groups@, self@.groups),
    {
        let mut changed: Vec<ChangedElement> = Vec::new();
        let mut g: usize = 0;
        while g < self.wire_groups.len()
            invariant
                g <= self.wire_groups.len(),
                changed@ == changed_wires_upto(old_wires_groups@, self@.groups, g as nat),
            decreases self.wire_groups.len() - g,
        {
            let wire_group = &self.wire_groups[g];
            let state = wire_group.circuit_element.state;
            if g < old_wires_groups.len() && state != old_wires_groups[g].state {
                let ghost front = changed@;
                let ghost report = wires_report(self@.groups[g as int]);
                let mut w: usize = 0;
                while w < wire_group.wires.len()
                    invariant
                        w <= wire_group.wires.len(),
                        g < self.wire_groups.len(),
                        *wire_group == self.wire_groups[g as int],
                        state == wire_group.circuit_element.state,
                        report == wires_report(self@.groups[g as int]),
                        changed@ == front + report.take(w as int),
                    decreases wire_group.wires.len() - w,
                {
                    changed.push(ChangedElement::new(wire_group.wires[w], state));
                    w += 1;
                }
            }
            g += 1;
        }
        changed
    }

    /// The components that have a level other than the one recorded for
    /// their id, each with the new level, in their order.
    pub fn create_changed_components_copy(&self, old_components: Vec<OldComponents>) -> (r: Vec<
        ChangedElement,
    >)
        ensures
            r@ == changed_components(old_components@, self@.components),
    {
        let mut changed: Vec<ChangedElement> = Vec::new();
        let mut c: usize = 0;
        while c < self.composants.len()
            invariant
                c <= self.composants.len(),
                changed@ == changed_components_upto(old_components@, self@.components, c as nat),
            decreases self.composants.len() - c,
        {
            let element = self.composants[c].circuit_element();
            let id = element.id;
            let new_state = element.state;
            let differs = match recorded_state(&old_components, id) {
                Some(state) => new_state != state,
                None => false,
            };
            if differs {
                changed.push(ChangedElement::new(id, new_state));
            }
            c += 1;
        }
        changed
    }
}

} // verus!
