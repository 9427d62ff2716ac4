//! The truth functions of the gates, over the levels that their inputs
//! read.

use vstd::prelude::*;
use crate::model::GateKind;

verus! {

/// Some level of the list is `true`.
pub open spec fn any_true(levels: Seq<bool>) -> bool {
    exists|i: int| 0 <= i < levels.len() && levels[i]
}

/// How many levels of the list are `true`.
pub open spec fn count_true(levels: Seq<bool>) -> nat
    decreases levels.len(),
{
    if levels.len() == 0 {
        0
    } else {
        count_true(levels.drop_last()) + if levels.last() {
            1nat
        } else {
            0nat
        }
    }
}

/// The exclusive or of all levels of the list: whether an odd number of
/// them is `true`.
pub open spec fn parity(levels: Seq<bool>) -> bool {
    count_true(levels) % 2 == 1
}

/// The level that a component of the given kind computes from the levels
/// that its input references read, in their order, and from the level
/// `state` that it has now.
///
/// A latch reads its first input as enable and its second as data. A timer
/// computes the level that it observes; what it shows is decided by its
/// delay line. A switch computes nothing: it keeps what was written to it.
pub open spec fn gate_output(kind: GateKind, state: bool, levels: Seq<bool>) -> bool {
    match kind {
        GateKind::And => count_true(levels) >= 2,
        GateKind::Or => any_true(levels),
        GateKind::Xor => parity(levels),
        GateKind::Not => !any_true(levels),
        GateKind::Buffer => any_true(levels),
        GateKind::Latch => if levels.len() >= 1 && !levels[0] {
            state
        } else if levels.len() >= 2 {
            levels[1]
        } else {
            state
        },
        GateKind::Timer => any_true(levels),
        GateKind::Switch => state,
    }
}

pub proof fn lemma_count_true_push(levels: Seq<bool>, level: bool)
    ensures
        count_true(levels.push(level)) == count_true(levels) + if level {
            1nat
        } else {
            0nat
        },
{
    assert(levels.push(level).drop_last() == levels);
}

proof fn lemma_count_true_one(a: bool)
    ensures
        count_true(seq![a]) == if a {
            1nat
        } else {
            0nat
        },
{
    lemma_count_true_push(Seq::empty(), a);
    assert(seq![a] == Seq::<bool>::empty().push(a));
}

proof fn lemma_count_true_two(a: bool, b: bool)
    ensures
        count_true(seq![a, b]) == count_true(seq![a]) + if b {
            1nat
        } else {
            0nat
        },
{
    lemma_count_true_push(seq![a], b);
    assert(seq![a, b] == seq![a].push(b));
}

/// An AND gate with two wired inputs shows `true` just when both read
/// `true`; with fewer inputs wired it stays `false`.
pub proof fn lemma_and_gate(state: bool, a: bool, b: bool)
    ensures
        gate_output(GateKind::And, state, seq![a, b]) == (a && b),
        !gate_output(GateKind::And, state, seq![a]),
        !gate_output(GateKind::And, state, Seq::empty()),
{
    lemma_count_true_one(a);
    lemma_count_true_two(a, b);
}

/// An OR gate shows `true` just when one of its wired inputs reads `true`.
pub proof fn lemma_or_gate(state: bool, a: bool, b: bool)
    ensures
        gate_output(GateKind::Or, state, seq![a, b]) == (a || b),
        gate_output(GateKind::Or, state, seq![a]) == a,
        !gate_output(GateKind::Or, state, Seq::empty()),
{
    let two = seq![a, b];
    if a {
        assert(two[0]);
    }
    if b {
        assert(two[1]);
    }
    if a {
        assert(seq![a][0]);
    }
}

/// An XOR gate with two wired inputs shows `true` just when they read
/// different levels; with one wired input it shows what that input reads.
pub proof fn lemma_xor_gate(state: bool, a: bool, b: bool)
    ensures
        gate_output(GateKind::Xor, state, seq![a, b]) == (a != b),
        gate_output(GateKind::Xor, state, seq![a]) == a,
        !gate_output(GateKind::Xor, state, Seq::empty()),
{
    lemma_count_true_one(a);
    lemma_count_true_two(a, b);
}

/// A NOT gate shows `true` just when none of its wired inputs reads
/// `true`: with one input it inverts it, and with no input wired it shows
/// `true`.
pub proof fn lemma_not_gate(state: bool, a: bool, b: bool)
    ensures
        gate_output(GateKind::Not, state, seq![a]) == !a,
        gate_output(GateKind::Not, state, seq![a, b]) == !(a || b),
        gate_output(GateKind::Not, state, Seq::empty()),
{
    let two = seq![a, b];
    if a {
        assert(two[0]);
        assert(seq![a][0]);
    }
    if b {
        assert(two[1]);
    }
}

/// A buffer shows what its input reads; with several inputs wired, whether
/// one of them reads `true`.
pub proof fn lemma_buffer_gate(state: bool, a: bool, b: bool)
    ensures
        gate_output(GateKind::Buffer, state, seq![a]) == a,
        gate_output(GateKind::Buffer, state, seq![a, b]) == (a || b),
        !gate_output(GateKind::Buffer, state, Seq::empty()),
{
    let two = seq![a, b];
    if a {
        assert(two[0]);
        assert(seq![a][0]);
    }
    if b {
        assert(two[1]);
    }
}

/// A latch holds its level while enable reads `false`, whatever data does,
/// and shows data while enable reads `true`. With data not wired it holds
/// its level.
pub proof fn lemma_latch_gate(state: bool, enable: bool, data: bool)
    ensures
        gate_output(GateKind::Latch, state, seq![false, data]) == state,
        gate_output(GateKind::Latch, state, seq![true, data]) == data,
        gate_output(GateKind::Latch, state, seq![enable]) == state,
        gate_output(GateKind::Latch, state, Seq::empty()) == state,
{
}

} // verus!
