//! How wires fall into groups: wires that touch, directly or through other
//! wires, form one group. The grouping is defined, shown to exist and to be
//! the only one, and computed.

use vstd::prelude::*;
use crate::model::{ElementView, GroupView, WireView};
use crate::simulation::Simulation;
use crate::types::Position;
use crate::wire::WireGroup;

verus! {

/// Two polylines have a position in common.
pub open spec fn touches(a: Seq<Position>, b: Seq<Position>) -> bool {
    exists|i: int, j: int| 0 <= i < a.len() && 0 <= j < b.len() && a[i] == b[j]
}

/// The wire at index `j` is in one of the groups of `done` or among
/// `members`. Groups list wires by their index in the list of wires.
pub open spec fn taken(done: Seq<Seq<int>>, members: Seq<int>, j: int) -> bool {
    ||| exists|k: int, t: int| 0 <= k < done.len() && 0 <= t < done[k].len() && done[k][t] == j
    ||| members.contains(j)
}

/// The wire at index `j` touches one of the wires `members`.
pub open spec fn joins(wires: Seq<WireView>, members: Seq<int>, j: int) -> bool {
    exists|s: int|
        0 <= s < members.len() && touches(
            wires[#[trigger] members[s]].positions,
            wires[j].positions,
        )
}

/// The wire at index `j` may come next in a group that holds `members` so
/// far, after the groups `done`: it is in none of them, and it touches a
/// member, unless the group is still empty.
pub open spec fn eligible(
    wires: Seq<WireView>,
    done: Seq<Seq<int>>,
    members: Seq<int>,
    j: int,
) -> bool {
    &&& 0 <= j < wires.len()
    &&& !taken(done, members, j)
    &&& (members.len() == 0 || joins(wires, members, j))
}

/// Of the wires that may come next, `j` is the one that was added first.
pub open spec fn first_eligible(
    wires: Seq<WireView>,
    done: Seq<Seq<int>>,
    members: Seq<int>,
    j: int,
) -> bool {
    &&& eligible(wires, done, members, j)
    &&& forall|i: int| 0 <= i < j ==> !eligible(wires, done, members, i)
}

/// No wire may come next: the group is closed.
pub open spec fn closed(wires: Seq<WireView>, done: Seq<Seq<int>>, members: Seq<int>) -> bool {
    forall|j: int| !eligible(wires, done, members, j)
}

/// `groups` is made of whole groups, each grown in order: a group starts
/// with the first wire that no group before it holds, takes again and again
/// the first remaining wire that touches one of its members, and ends when
/// no remaining wire does.
pub open spec fn grown(wires: Seq<WireView>, groups: Seq<Seq<int>>) -> bool {
    &&& forall|k: int| 0 <= k < groups.len() ==> (#[trigger] groups[k]).len() >= 1
    &&& forall|k: int, t: int|
        0 <= k < groups.len() && 0 <= t < groups[k].len() ==> first_eligible(
            wires,
            groups.take(k),
            groups[k].take(t),
            #[trigger] groups[k][t],
        )
    &&& forall|k: int|
        0 <= k < groups.len() ==> closed(wires, groups.take(k), #[trigger] groups[k])
}

/// `groups` is the grouping of `wires`: whole groups grown in order, which
/// leave no wire out.
pub open spec fn is_grouping(wires: Seq<WireView>, groups: Seq<Seq<int>>) -> bool {
    &&& grown(wires, groups)
    &&& forall|j: int| 0 <= j < wires.len() ==> taken(groups, Seq::empty(), j)
}

/// The positions of the wires `members`, one wire after the other.
pub open spec fn joined_positions(wires: Seq<WireView>, members: Seq<int>) -> Seq<Position>
    decreases members.len(),
{
    if members.len() == 0 {
        Seq::empty()
    } else {
        joined_positions(wires, members.drop_last()) + wires[members.last()].positions
    }
}

/// The ids of the wires `members`, in their order.
pub open spec fn member_ids(wires: Seq<WireView>, members: Seq<int>) -> Seq<usize> {
    Seq::new(members.len(), |t: int| wires[members[t]].element.id)
}

/// The group that the wires `members` form, as the `k`-th of a circuit,
/// before it is linked to any component: at level `false`, with the ids of
/// its wires in their order and their positions, one wire after the other.
pub open spec fn bare_group(wires: Seq<WireView>, k: int, members: Seq<int>) -> GroupView {
    GroupView {
        element: ElementView::fresh(k as usize),
        positions: joined_positions(wires, members),
        wires: member_ids(wires, members),
    }
}

/// Whether the wire at index `j` is marked in `claimed`.
pub open spec fn is_claimed(claimed: Seq<bool>, j: int) -> bool {
    0 <= j < claimed.len() && claimed[j]
}

/// The wire at index `j` is not marked and touches `positions`.
pub open spec fn matching(
    wires: Seq<WireView>,
    positions: Seq<Position>,
    claimed: Seq<bool>,
    j: int,
) -> bool {
    &&& 0 <= j < wires.len()
    &&& !is_claimed(claimed, j)
    &&& touches(positions, wires[j].positions)
}

/// How many entries of `claimed` are `false`.
pub open spec fn unclaimed(claimed: Seq<bool>) -> nat
    decreases claimed.len(),
{
    if claimed.len() == 0 {
        0
    } else {
        unclaimed(claimed.drop_last()) + if claimed.last() {
            0nat
        } else {
            1nat
        }
    }
}

proof fn lemma_claim(claimed: Seq<bool>, j: int)
    requires
        0 <= j < claimed.len(),
        !claimed[j],
    ensures
        unclaimed(claimed.update(j, true)) + 1 == unclaimed(claimed),
    decreases claimed.len(),
{
    let after = claimed.update(j, true);
    if j == claimed.len() - 1 {
        assert(after.drop_last() == claimed.drop_last());
    } else {
        lemma_claim(claimed.drop_last(), j);
        assert(after.drop_last() == claimed.drop_last().update(j, true));
    }
}

proof fn lemma_touches_joined(a: Seq<Position>, b: Seq<Position>, p: Seq<Position>)
    ensures
        touches(a + b, p) == (touches(a, p) || touches(b, p)),
{
    if touches(a + b, p) {
        let (i, j) = choose|i: int, j: int|
            0 <= i < (a + b).len() && 0 <= j < p.len() && (a + b)[i] == p[j];
        assert(i < a.len() ==> a[i] == p[j]);
        assert(i >= a.len() ==> b[i - a.len()] == p[j]);
    }
    if touches(a, p) {
        let (i, j) = choose|i: int, j: int| 0 <= i < a.len() && 0 <= j < p.len() && a[i] == p[j];
        assert((a + b)[i] == p[j]);
    }
    if touches(b, p) {
        let (i, j) = choose|i: int, j: int| 0 <= i < b.len() && 0 <= j < p.len() && b[i] == p[j];
        assert((a + b)[a.len() + i] == p[j]);
    }
}

/// A wire touches the joined positions of a group just where it touches
/// one of the group's wires.
pub proof fn lemma_joined_touches(wires: Seq<WireView>, members: Seq<int>, j: int)
    ensures
        touches(joined_positions(wires, members), wires[j].positions) == joins(wires, members, j),
    decreases members.len(),
{
    let p = wires[j].positions;
    if members.len() > 0 {
        let front = members.drop_last();
        lemma_joined_touches(wires, front, j);
        lemma_touches_joined(joined_positions(wires, front), wires[members.last()].positions, p);
        if joins(wires, front, j) {
            let s = choose|s: int|
                0 <= s < front.len() && touches(wires[#[trigger] front[s]].positions, p);
            assert(members[s] == front[s]);
        }
        if joins(wires, members, j) {
            let s = choose|s: int|
                0 <= s < members.len() && touches(wires[#[trigger] members[s]].positions, p);
            if s < front.len() {
                assert(front[s] == members[s]);
            }
        }
    }
}

/// `path` runs through wires of which each touches the next.
pub open spec fn is_chain(wires: Seq<WireView>, path: Seq<int>) -> bool {
    &&& path.len() >= 1
    &&& forall|s: int| 0 <= s < path.len() ==> 0 <= #[trigger] path[s] < wires.len()
    &&& forall|s: int|
        0 <= s < path.len() - 1 ==> touches(
            wires[#[trigger] path[s]].positions,
            wires[path[s + 1]].positions,
        )
}

/// The wires at `a` and `b` are the same wire or touch, directly or through
/// other wires.
pub open spec fn connected(wires: Seq<WireView>, a: int, b: int) -> bool {
    exists|path: Seq<int>| is_chain(wires, path) && path[0] == a && path.last() == b
}

/// The wires at `a` and `b` are in the same group.
pub open spec fn same_group(grouping: Seq<Seq<int>>, a: int, b: int) -> bool {
    exists|k: int|
        0 <= k < grouping.len() && (#[trigger] grouping[k]).contains(a) && grouping[k].contains(b)
}

pub proof fn lemma_touches_symmetric(a: Seq<Position>, b: Seq<Position>)
    ensures
        touches(a, b) == touches(b, a),
{
}

proof fn lemma_connected_self(wires: Seq<WireView>, a: int)
    requires
        0 <= a < wires.len(),
    ensures
        connected(wires, a, a),
{
    let path = seq![a];
    assert(is_chain(wires, path) && path[0] == a && path.last() == a);
}

proof fn lemma_connected_symmetric(wires: Seq<WireView>, a: int, b: int)
    requires
        connected(wires, a, b),
    ensures
        connected(wires, b, a),
{
    let path = choose|path: Seq<int>| is_chain(wires, path) && path[0] == a && path.last() == b;
    let back = Seq::new(path.len(), |s: int| path[path.len() - 1 - s]);
    assert forall|s: int| 0 <= s < back.len() - 1 implies touches(
        wires[#[trigger] back[s]].positions,
        wires[back[s + 1]].positions,
    ) by {
        let r = path.len() - 2 - s;
        lemma_touches_symmetric(wires[path[r]].positions, wires[path[r + 1]].positions);
    }
    assert forall|s: int| 0 <= s < back.len() implies 0 <= #[trigger] back[s] < wires.len() by {}
    assert(is_chain(wires, back) && back[0] == b && back.last() == a);
}

proof fn lemma_connected_transitive(wires: Seq<WireView>, a: int, b: int, c: int)
    requires
        connected(wires, a, b),
        connected(wires, b, c),
    ensures
        connected(wires, a, c),
{
    let first = choose|path: Seq<int>| is_chain(wires, path) && path[0] == a && path.last() == b;
    let second = choose|path: Seq<int>| is_chain(wires, path) && path[0] == b && path.last() == c;
    let path = first + second.drop_first();
    assert forall|s: int| 0 <= s < path.len() implies 0 <= #[trigger] path[s] < wires.len() by {}
    assert forall|s: int| 0 <= s < path.len() - 1 implies touches(
        wires[#[trigger] path[s]].positions,
        wires[path[s + 1]].positions,
    ) by {}
    if second.len() > 1 {
        assert(path.last() == second.last());
    }
}

proof fn lemma_connected_touching(wires: Seq<WireView>, a: int, b: int)
    requires
        0 <= a < wires.len(),
        0 <= b < wires.len(),
        touches(wires[a].positions, wires[b].positions),
    ensures
        connected(wires, a, b),
{
    let path = seq![a, b];
    assert(is_chain(wires, path) && path[0] == a && path.last() == b);
}

/// In groups grown in order, no wire stands in two places.
proof fn lemma_taken_once(
    wires: Seq<WireView>,
    grouping: Seq<Seq<int>>,
    k: int,
    t: int,
    l: int,
    u: int,
)
    requires
        grown(wires, grouping),
        0 <= k < grouping.len(),
        0 <= t < grouping[k].len(),
        0 <= l < grouping.len(),
        0 <= u < grouping[l].len(),
        grouping[k][t] == grouping[l][u],
    ensures
        k == l,
        t == u,
{
    let j = grouping[k][t];
    if k < l || (k == l && t < u) {
        if k < l {
            assert(grouping.take(l)[k][t] == j);
        } else {
            assert(grouping[l].take(u)[t] == j);
        }
    } else if l < k || (l == k && u < t) {
        if l < k {
            assert(grouping.take(k)[l][u] == j);
        } else {
            assert(grouping[k].take(t)[u] == j);
        }
    }
}

/// Every member of a group is connected to the wire with which the group
/// started.
proof fn lemma_member_reaches_seed(wires: Seq<WireView>, grouping: Seq<Seq<int>>, k: int, t: int)
    requires
        grown(wires, grouping),
        0 <= k < grouping.len(),
        0 <= t < grouping[k].len(),
    ensures
        0 <= grouping[k][t] < wires.len(),
        connected(wires, grouping[k][0], grouping[k][t]),
    decreases t,
{
    let members = grouping[k];
    if t == 0 {
        lemma_connected_self(wires, members[0]);
    } else {
        let before = members.take(t);
        let s = choose|s: int|
            0 <= s < before.len() && touches(
                wires[#[trigger] before[s]].positions,
                wires[members[t]].positions,
            );
        lemma_member_reaches_seed(wires, grouping, k, s);
        lemma_connected_touching(wires, members[s], members[t]);
        lemma_connected_transitive(wires, members[0], members[s], members[t]);
    }
}

/// Two wires that touch are in the same group.
proof fn lemma_touching_share_group(
    wires: Seq<WireView>,
    grouping: Seq<Seq<int>>,
    k: int,
    a: int,
    b: int,
)
    requires
        is_grouping(wires, grouping),
        0 <= k < grouping.len(),
        grouping[k].contains(a),
        0 <= b < wires.len(),
        touches(wires[a].positions, wires[b].positions),
    ensures
        grouping[k].contains(b),
{
    let t = choose|t: int| 0 <= t < grouping[k].len() && grouping[k][t] == a;
    assert(taken(grouping, Seq::empty(), b));
    let (l, u) = choose|l: int, u: int|
        0 <= l < grouping.len() && 0 <= u < grouping[l].len() && grouping[l][u] == b;
    if k < l {
        assert(!eligible(wires, grouping.take(k), grouping[k], b));
        assert(joins(wires, grouping[k], b)) by {}
        if !grouping[k].contains(b) {
            let (m, v) = choose|m: int, v: int|
                0 <= m < grouping.take(k).len() && 0 <= v < grouping.take(k)[m].len()
                    && grouping.take(k)[m][v] == b;
            lemma_taken_once(wires, grouping, m, v, l, u);
        }
    } else if l < k {
        lemma_touches_symmetric(wires[a].positions, wires[b].positions);
        assert(!eligible(wires, grouping.take(l), grouping[l], a));
        assert(joins(wires, grouping[l], a)) by {}
        if grouping[l].contains(a) {
            let v = choose|v: int| 0 <= v < grouping[l].len() && grouping[l][v] == a;
            lemma_taken_once(wires, grouping, l, v, k, t);
        } else {
            let (m, v) = choose|m: int, v: int|
                0 <= m < grouping.take(l).len() && 0 <= v < grouping.take(l)[m].len()
                    && grouping.take(l)[m][v] == a;
            lemma_taken_once(wires, grouping, m, v, k, t);
        }
    }
}

proof fn lemma_chain_stays(
    wires: Seq<WireView>,
    grouping: Seq<Seq<int>>,
    path: Seq<int>,
    k: int,
    s: int,
)
    requires
        is_grouping(wires, grouping),
        is_chain(wires, path),
        0 <= k < grouping.len(),
        grouping[k].contains(path[0]),
        0 <= s < path.len(),
    ensures
        grouping[k].contains(path[s]),
    decreases s,
{
    if s > 0 {
        lemma_chain_stays(wires, grouping, path, k, s - 1);
        lemma_touching_share_group(wires, grouping, k, path[s - 1], path[s]);
    }
}

proof fn lemma_groups_connect(wires: Seq<WireView>, grouping: Seq<Seq<int>>, a: int, b: int)
    requires
        is_grouping(wires, grouping),
        0 <= a < wires.len(),
        0 <= b < wires.len(),
    ensures
        same_group(grouping, a, b) <==> connected(wires, a, b),
{
    if same_group(grouping, a, b) {
        let k = choose|k: int|
            0 <= k < grouping.len() && (#[trigger] grouping[k]).contains(a) && grouping[k].contains(
                b,
            );
        let t = choose|t: int| 0 <= t < grouping[k].len() && grouping[k][t] == a;
        let u = choose|u: int| 0 <= u < grouping[k].len() && grouping[k][u] == b;
        lemma_member_reaches_seed(wires, grouping, k, t);
        lemma_member_reaches_seed(wires, grouping, k, u);
        lemma_connected_symmetric(wires, grouping[k][0], a);
        lemma_connected_transitive(wires, a, grouping[k][0], b);
    }
    if connected(wires, a, b) {
        let path = choose|path: Seq<int>|
            is_chain(wires, path) && path[0] == a && path.last() == b;
        assert(taken(grouping, Seq::empty(), a));
        let (k, t) = choose|k: int, t: int|
            0 <= k < grouping.len() && 0 <= t < grouping[k].len() && grouping[k][t] == a;
        lemma_chain_stays(wires, grouping, path, k, path.len() - 1);
    }
}

proof fn lemma_groups_part(wires: Seq<WireView>, grouping: Seq<Seq<int>>, j: int)
    requires
        is_grouping(wires, grouping),
        0 <= j < wires.len(),
    ensures
        exists|k: int, t: int|
            0 <= k < grouping.len() && 0 <= t < grouping[k].len() && grouping[k][t] == j,
        forall|k: int, t: int, l: int, u: int|
            0 <= k < grouping.len() && 0 <= t < grouping[k].len() && 0 <= l < grouping.len() && 0
                <= u < grouping[l].len() && #[trigger] grouping[k][t] == j
                && #[trigger] grouping[l][u] == j ==> k == l && t == u,
{
    assert(taken(grouping, Seq::empty(), j));
    assert forall|k: int, t: int, l: int, u: int|
        0 <= k < grouping.len() && 0 <= t < grouping[k].len() && 0 <= l < grouping.len() && 0 <= u
            < grouping[l].len() && #[trigger] grouping[k][t] == j && #[trigger] grouping[l][u]
            == j implies k == l && t == u by {
        lemma_taken_once(wires, grouping, k, t, l, u);
    }
}

/// Two groups that grow after the same groups, each taking the first
/// eligible wire at every step, agree as far as both reach.
proof fn lemma_members_agree(
    wires: Seq<WireView>,
    done: Seq<Seq<int>>,
    one: Seq<int>,
    other: Seq<int>,
    t: int,
)
    requires
        forall|u: int|
            0 <= u < one.len() ==> first_eligible(wires, done, one.take(u), #[trigger] one[u]),
        forall|u: int|
            0 <= u < other.len() ==> first_eligible(
                wires,
                done,
                other.take(u),
                #[trigger] other[u],
            ),
        0 <= t <= one.len(),
        t <= other.len(),
    ensures
        one.take(t) == other.take(t),
    decreases t,
{
    if t > 0 {
        lemma_members_agree(wires, done, one, other, t - 1);
    }
}

/// Two closed groups that grew after the same groups are the same group.
proof fn lemma_group_unique(
    wires: Seq<WireView>,
    done: Seq<Seq<int>>,
    one: Seq<int>,
    other: Seq<int>,
)
    requires
        forall|u: int|
            0 <= u < one.len() ==> first_eligible(wires, done, one.take(u), #[trigger] one[u]),
        forall|u: int|
            0 <= u < other.len() ==> first_eligible(
                wires,
                done,
                other.take(u),
                #[trigger] other[u],
            ),
        closed(wires, done, one),
        closed(wires, done, other),
    ensures
        one == other,
{
    if one.len() < other.len() {
        let t = one.len() as int;
        lemma_members_agree(wires, done, one, other, t);
        assert(one.take(t) == one);
        assert(first_eligible(wires, done, other.take(t), other[t]));
    } else if other.len() < one.len() {
        let t = other.len() as int;
        lemma_members_agree(wires, done, one, other, t);
        assert(other.take(t) == other);
        assert(first_eligible(wires, done, one.take(t), one[t]));
    } else {
        let t = one.len() as int;
        lemma_members_agree(wires, done, one, other, t);
        assert(one.take(t) == one);
    }
}

proof fn lemma_groups_agree(
    wires: Seq<WireView>,
    one: Seq<Seq<int>>,
    other: Seq<Seq<int>>,
    k: int,
)
    requires
        grown(wires, one),
        grown(wires, other),
        0 <= k <= one.len(),
        k <= other.len(),
    ensures
        one.take(k) == other.take(k),
    decreases k,
{
    if k > 0 {
        lemma_groups_agree(wires, one, other, k - 1);
        let done = one.take(k - 1);
        assert forall|u: int| 0 <= u < one[k - 1].len() implies first_eligible(
            wires,
            done,
            one[k - 1].take(u),
            #[trigger] one[k - 1][u],
        ) by {}
        assert forall|u: int| 0 <= u < other[k - 1].len() implies first_eligible(
            wires,
            done,
            other[k - 1].take(u),
            #[trigger] other[k - 1][u],
        ) by {}
        lemma_group_unique(wires, done, one[k - 1], other[k - 1]);
    }
}

/// The wires have one grouping only.
proof fn lemma_grouping_unique(wires: Seq<WireView>, one: Seq<Seq<int>>, other: Seq<Seq<int>>)
    requires
        is_grouping(wires, one),
        is_grouping(wires, other),
    ensures
        one == other,
{
    if one.len() < other.len() {
        let k = one.len() as int;
        lemma_groups_agree(wires, one, other, k);
        assert(one.take(k) == one);
        let j = other[k][0];
        assert(other[k].take(0) == Seq::<int>::empty());
    } else if other.len() < one.len() {
        let k = other.len() as int;
        lemma_groups_agree(wires, one, other, k);
        assert(other.take(k) == other);
        let j = one[k][0];
        assert(one[k].take(0) == Seq::<int>::empty());
    } else {
        let k = one.len() as int;
        lemma_groups_agree(wires, one, other, k);
        assert(one.take(k) == one);
    }
}

/// A closed group that has grown in order after whole groups makes whole
/// groups with them, and a wire is taken by them all just when it is taken by
/// the groups before or by the group.
proof fn lemma_grown_push(wires: Seq<WireView>, done: Seq<Seq<int>>, members: Seq<int>)
    requires
        grown(wires, done),
        members.len() >= 1,
        forall|t: int|
            0 <= t < members.len() ==> first_eligible(
                wires,
                done,
                members.take(t),
                #[trigger] members[t],
            ),
        closed(wires, done, members),
    ensures
        grown(wires, done.push(members)),
        forall|j: int| taken(done.push(members), Seq::empty(), j) <==> taken(done, members, j),
{
    let more = done.push(members);
    assert(more.take(done.len() as int) == done);
    assert forall|k: int, t: int|
        0 <= k < more.len() && 0 <= t < more[k].len() implies first_eligible(
        wires,
        more.take(k),
        more[k].take(t),
        #[trigger] more[k][t],
    ) by {
        if k < done.len() {
            assert(more.take(k) == done.take(k));
        }
    }
    assert forall|k: int| 0 <= k < more.len() implies closed(
        wires,
        more.take(k),
        #[trigger] more[k],
    ) by {
        if k < done.len() {
            assert(more.take(k) == done.take(k));
        }
    }
    assert forall|j: int| taken(more, Seq::empty(), j) <==> taken(done, members, j) by {
        if members.contains(j) {
            let t = choose|t: int| 0 <= t < members.len() && members[t] == j;
            assert(more[done.len() as int][t] == j);
        }
        if exists|k: int, t: int|
            0 <= k < done.len() && 0 <= t < done[k].len() && done[k][t] == j {
        }
    }
}

/// A group that has grown in order and takes the first eligible wire has
/// grown in order, and holds that wire besides what it held.
proof fn lemma_members_push(wires: Seq<WireView>, done: Seq<Seq<int>>, members: Seq<int>, j: int)
    requires
        forall|t: int|
            0 <= t < members.len() ==> first_eligible(
                wires,
                done,
                members.take(t),
                #[trigger] members[t],
            ),
        first_eligible(wires, done, members, j),
    ensures
        forall|t: int|
            0 <= t < members.len() + 1 ==> first_eligible(
                wires,
                done,
                members.push(j).take(t),
                #[trigger] members.push(j)[t],
            ),
        forall|x: int| taken(done, members.push(j), x) <==> taken(done, members, x) || x == j,
{
    let longer = members.push(j);
    assert forall|t: int| 0 <= t < longer.len() implies first_eligible(
        wires,
        done,
        longer.take(t),
        #[trigger] longer[t],
    ) by {
        if t < members.len() {
            assert(longer.take(t) == members.take(t));
        } else {
            assert(longer.take(t) == members);
        }
    }
    assert forall|x: int| taken(done, longer, x) <==> taken(done, members, x) || x == j by {
        assert(longer[members.len() as int] == j);
        if members.contains(x) {
            let t = choose|t: int| 0 <= t < members.len() && members[t] == x;
            assert(longer[t] == x);
        }
    }
}

/// The first wire before `bound` that may come next, if there is one.
proof fn lemma_scan(wires: Seq<WireView>, done: Seq<Seq<int>>, members: Seq<int>, bound: int) -> (r:
    Option<int>)
    requires
        0 <= bound <= wires.len(),
    ensures
        match r {
            Some(j) => j < bound && first_eligible(wires, done, members, j),
            None => forall|i: int| 0 <= i < bound ==> !eligible(wires, done, members, i),
        },
    decreases bound,
{
    if bound == 0 {
        None
    } else {
        match lemma_scan(wires, done, members, bound - 1) {
            Some(j) => Some(j),
            None => if eligible(wires, done, members, bound - 1) {
                Some(bound - 1)
            } else {
                None
            },
        }
    }
}

/// A group that has grown in order can be grown until it is closed.
proof fn lemma_close(
    wires: Seq<WireView>,
    done: Seq<Seq<int>>,
    members: Seq<int>,
    claimed: Seq<bool>,
) -> (full: Seq<int>)
    requires
        members.len() >= 1,
        forall|t: int|
            0 <= t < members.len() ==> first_eligible(
                wires,
                done,
                members.take(t),
                #[trigger] members[t],
            ),
        claimed.len() == wires.len(),
        forall|j: int| 0 <= j < wires.len() ==> (claimed[j] <==> members.contains(j)),
    ensures
        full.len() >= members.len(),
        full.take(members.len() as int) == members,
        forall|t: int|
            0 <= t < full.len() ==> first_eligible(wires, done, full.take(t), #[trigger] full[t]),
        closed(wires, done, full),
    decreases unclaimed(claimed),
{
    match lemma_scan(wires, done, members, wires.len() as int) {
        None => {
            members
        },
        Some(j) => {
            let longer = members.push(j);
            lemma_members_push(wires, done, members, j);
            lemma_claim(claimed, j);
            let marked = claimed.update(j, true);
            assert forall|x: int| 0 <= x < wires.len() implies (marked[x] <==> longer.contains(
                x,
            )) by {
                if members.contains(x) {
                    let t = choose|t: int| 0 <= t < members.len() && members[t] == x;
                    assert(longer[t] == x);
                }
            }
            let full = lemma_close(wires, done, longer, marked);
            full
        },
    }
}

/// Whole groups that hold the first `i` wires can be filled up to a
/// grouping.
proof fn lemma_grow(wires: Seq<WireView>, done: Seq<Seq<int>>, i: int) -> (all: Seq<Seq<int>>)
    requires
        grown(wires, done),
        0 <= i <= wires.len(),
        forall|j: int| 0 <= j < i ==> taken(done, Seq::empty(), j),
    ensures
        is_grouping(wires, all),
    decreases wires.len() - i,
{
    let none = Seq::<int>::empty();
    if i == wires.len() {
        done
    } else if taken(done, none, i) {
        lemma_grow(wires, done, i + 1)
    } else {
        let members = seq![i];
        let claimed = Seq::new(wires.len(), |j: int| j == i);
        assert(members.take(0) == none);
        assert forall|j: int| 0 <= j < wires.len() implies (claimed[j] <==> members.contains(
            j,
        )) by {
            if j == i {
                assert(members[0] == j);
            }
        }
        let full = lemma_close(wires, done, members, claimed);
        lemma_grown_push(wires, done, full);
        let more = done.push(full);
        assert forall|j: int| 0 <= j < i + 1 implies taken(more, none, j) by {
            if j == i {
                assert(full.take(1)[0] == members[0]);
            } else {
                assert(taken(done, none, j));
            }
            assert(taken(done, full, j));
        }
        lemma_grow(wires, more, i + 1)
    }
}

/// The grouping of the wires: the groups grown in order, each started by
/// the first wire that no group before it holds.
pub open spec fn grouping(wires: Seq<WireView>) -> Seq<Seq<int>> {
    choose|groups: Seq<Seq<int>>| is_grouping(wires, groups)
}

/// Whatever the wires, they have a grouping.
pub proof fn lemma_grouping_exists(wires: Seq<WireView>)
    ensures
        is_grouping(wires, grouping(wires)),
{
    let all = lemma_grow(wires, Seq::empty(), 0);
}

/// Groups that are a grouping of the wires are their grouping.
pub proof fn lemma_grouping_is(wires: Seq<WireView>, groups: Seq<Seq<int>>)
    requires
        is_grouping(wires, groups),
    ensures
        grouping(wires) == groups,
{
    lemma_grouping_exists(wires);
    lemma_grouping_unique(wires, groups, grouping(wires));
}

/// The groups are the connected parts of the wiring: two wires are in the
/// same group just when they are the same wire or touch, directly or through
/// other wires.
pub proof fn lemma_groups_are_connected_parts(wires: Seq<WireView>, a: int, b: int)
    requires
        0 <= a < wires.len(),
        0 <= b < wires.len(),
    ensures
        same_group(grouping(wires), a, b) <==> connected(wires, a, b),
{
    lemma_grouping_exists(wires);
    lemma_groups_connect(wires, grouping(wires), a, b);
}

/// The groups part the wires: every wire is in a group, and in one place
/// only.
pub proof fn lemma_groups_part_wires(wires: Seq<WireView>, j: int)
    requires
        0 <= j < wires.len(),
    ensures
        exists|k: int, t: int|
            0 <= k < grouping(wires).len() && 0 <= t < grouping(wires)[k].len() && grouping(
                wires,
            )[k][t] == j,
        forall|k: int, t: int, l: int, u: int|
            0 <= k < grouping(wires).len() && 0 <= t < grouping(wires)[k].len() && 0 <= l
                < grouping(wires).len() && 0 <= u < grouping(wires)[l].len() && #[trigger] grouping(
                wires,
            )[k][t] == j && #[trigger] grouping(wires)[l][u] == j ==> k == l && t == u,
{
    lemma_grouping_exists(wires);
    lemma_groups_part(wires, grouping(wires), j);
}

/// Every group of the grouping holds a wire, every member of a group is a
/// wire, and there are no more groups than wires.
pub proof fn lemma_groups_hold_wires(wires: Seq<WireView>)
    ensures
        grouping(wires).len() <= wires.len(),
        forall|k: int, t: int|
            0 <= k < grouping(wires).len() && 0 <= t < grouping(wires)[k].len() ==> 0
                <= #[trigger] grouping(wires)[k][t] < wires.len(),
        forall|k: int| 0 <= k < grouping(wires).len() ==> (#[trigger] grouping(wires)[k]).len() >= 1,
{
    lemma_grouping_exists(wires);
    let groups = grouping(wires);
    assert forall|k: int, t: int| 0 <= k < groups.len() && 0 <= t < groups[k].len() implies 0
        <= #[trigger] groups[k][t] < wires.len() by {}
    lemma_seeds_rise(wires, groups, groups.len() as int);
    if groups.len() > 0 {
        assert(groups[groups.len() - 1][0] < wires.len());
    }
}

/// The wires with which the groups start stand in rising order, so the
/// `k`-th group starts with a wire at index `k` or later.
proof fn lemma_seeds_rise(wires: Seq<WireView>, groups: Seq<Seq<int>>, k: int)
    requires
        grown(wires, groups),
        0 <= k <= groups.len(),
    ensures
        forall|l: int| 0 <= l < k ==> (#[trigger] groups[l])[0] >= l,
    decreases k,
{
    if k > 0 {
        lemma_seeds_rise(wires, groups, k - 1);
        if k > 1 {
            let before = groups[k - 2][0];
            let seed = groups[k - 1][0];
            assert(groups[k - 2].take(0) == Seq::<int>::empty());
            if seed <= before {
                if seed == before {
                    assert(groups.take(k - 1)[k - 2][0] == seed);
                } else {
                    assert(!eligible(wires, groups.take(k - 2), Seq::empty(), seed));
                }
            }
        }
    }
}

/// Whether two polylines have a position in common.
pub fn shares_position(a: &Vec<Position>, b: &Vec<Position>) -> (r: bool)
    ensures
        r == touches(a@, b@),
{
    let mut i: usize = 0;
    while i < a.len()
        invariant
            i <= a.len(),
            forall|x: int, y: int| 0 <= x < i && 0 <= y < b.len() ==> a@[x] != b@[y],
        decreases a.len() - i,
    {
        let mut j: usize = 0;
        while j < b.len()
            invariant
                i < a.len(),
                j <= b.len(),
                forall|y: int| 0 <= y < j ==> a@[i as int] != b@[y],
            decreases b.len() - j,
        {
            if a[i] == b[j] {
                return true;
            }
            j += 1;
        }
        i += 1;
    }
    false
}

impl Simulation {
    /// The first wire, in the order of the list of wires, that is not
    /// marked in `claimed` and has a position in common with the group.
    pub fn find_matching_wire(&self, group: &WireGroup, claimed: &Vec<bool>) -> (r: Option<usize>)
        ensures
            match r {
                Some(j) => {
                    &&& matching(self@.wires, group@.positions, claimed@, j as int)
                    &&& forall|i: int|
                        0 <= i < j ==> !matching(self@.wires, group@.positions, claimed@, i)
                },
                None => forall|i: int| !matching(self@.wires, group@.positions, claimed@, i),
            },
    {
        let mut j: usize = 0;
        while j < self.wires.len()
            invariant
                j <= self.wires.len(),
                forall|i: int| 0 <= i < j ==> !matching(self@.wires, group@.positions, claimed@, i),
            decreases self.wires.len() - j,
        {
            let taken = j < claimed.len() && claimed[j];
            if !taken && shares_position(&group.positions, &self.wires[j].positions) {
                return Some(j);
            }
            j += 1;
        }
        None
    }

    /// Groups the wires. The groups come back as they are before any
    /// component is linked to them, together with the grouping that they
    /// follow.
    pub(crate) fn group_wires(&self) -> (r: (Vec<WireGroup>, Ghost<Seq<Seq<int>>>))
        ensures
            r.1@ == grouping(self@.wires),
            is_grouping(self@.wires, r.1@),
            r.0@.len() == r.1@.len(),
            forall|k: int|
                0 <= k < r.0@.len() ==> (#[trigger] r.0@[k])@ == bare_group(self@.wires, k, r.1@[k]),
    {
        let ghost wires = self@.wires;
        let n = self.wires.len();
        let mut claimed: Vec<bool> = Vec::new();
        while claimed.len() < n
            invariant
                claimed.len() <= n,
                forall|j: int| 0 <= j < claimed.len() ==> !claimed@[j],
            decreases n - claimed.len(),
        {
            claimed.push(false);
        }
        let mut groups: Vec<WireGroup> = Vec::new();
        let ghost mut done: Seq<Seq<int>> = Seq::empty();
        let mut i: usize = 0;
        while i < n
            invariant
                i <= n,
                n == self.wires.len(),
                wires == self@.wires,
                claimed.len() == n,
                groups@.len() == done.len(),
                done.len() <= i,
                grown(wires, done),
                forall|j: int| 0 <= j < n ==> (claimed@[j] <==> taken(done, Seq::empty(), j)),
                forall|j: int| 0 <= j < i ==> claimed@[j],
                forall|k: int|
                    0 <= k < groups@.len() ==> (#[trigger] groups@[k])@ == bare_group(
                        wires,
                        k,
                        done[k],
                    ),
            decreases n - i,
        {
            if !claimed[i] {
                let mut group = WireGroup::new(groups.len());
                group.add_wire(self.wires[i].circuit_element.id, self.wires[i].positions.clone());
                claimed[i] = true;
                let ghost mut members: Seq<int> = seq![i as int];
                proof {
                    let none = Seq::<int>::empty();
                    assert(members.take(0) == none);
                    assert(joined_positions(wires, none) == Seq::<Position>::empty());
                    assert(group@.positions == joined_positions(wires, members));
                    assert(group@.wires == member_ids(wires, members));
                    assert forall|j: int| 0 <= j < i implies !eligible(wires, done, none, j) by {}
                    assert forall|j: int| 0 <= j < n implies (claimed@[j] <==> taken(
                        done,
                        members,
                        j,
                    )) by {}
                }
                let mut growing = true;
                while growing
                    invariant
                        i < n,
                        n == self.wires.len(),
                        wires == self@.wires,
                        claimed.len() == n,
                        groups@.len() == done.len(),
                        members.len() >= 1,
                        forall|t: int|
                            0 <= t < members.len() ==> first_eligible(
                                wires,
                                done,
                                members.take(t),
                                #[trigger] members[t],
                            ),
                        forall|j: int| 0 <= j < n ==> (claimed@[j] <==> taken(done, members, j)),
                        forall|j: int| 0 <= j <= i ==> claimed@[j],
                        group@ == bare_group(wires, done.len() as int, members),
                        !growing ==> closed(wires, done, members),
                    decreases
                            unclaimed(claimed@) + if growing {
                                1nat
                            } else {
                                0nat
                            },
                {
                    match self.find_matching_wire(&group, &claimed) {
                        Some(j) => {
                            proof {
                                assert forall|x: int| 0 <= x < j implies !eligible(
                                    wires,
                                    done,
                                    members,
                                    x,
                                ) by {
                                    lemma_joined_touches(wires, members, x);
                                    assert(!matching(wires, group@.positions, claimed@, x));
                                }
                                lemma_joined_touches(wires, members, j as int);
                                lemma_claim(claimed@, j as int);
                            }
                            let ghost longer = members.push(j as int);
                            group.add_wire(
                                self.wires[j].circuit_element.id,
                                self.wires[j].positions.clone(),
                            );
                            claimed[j] = true;
                            proof {
                                assert(longer.drop_last() == members);
                                assert(group@.wires == member_ids(wires, longer));
                                lemma_members_push(wires, done, members, j as int);
                                members = longer;
                            }
                        },
                        None => {
                            proof {
                                assert forall|x: int| !eligible(wires, done, members, x) by {
                                    lemma_joined_touches(wires, members, x);
                                    assert(!matching(wires, group@.positions, claimed@, x));
                                }
                            }
                            growing = false;
                        },
                    }
                }
                let ghost more = done.push(members);
                proof {
                    lemma_grown_push(wires, done, members);
                }
                groups.push(group);
                proof {
                    done = more;
                }
            }
            i += 1;
        }
        proof {
            lemma_grouping_is(wires, done);
        }
        (groups, Ghost(done))
    }
}

} // verus!
