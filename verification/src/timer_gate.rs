//! The timer: a component that shows a change at its input only after a
//! configured number of stabilizations, and its queue of pending changes.

use vstd::prelude::*;
use crate::gates::{next_level, OneInputGate};
use crate::model::{ComponentView, GateKind};
use crate::simulation::Simulation;

verus! {

/// The pending transitions that have run out their delay, in queue order.
pub open spec fn due(stack: Seq<(u32, bool)>) -> Seq<(u32, bool)> {
    stack.filter(|e: (u32, bool)| e.0 == 0)
}

/// The pending transitions that still have to wait, in queue order.
pub open spec fn waiting(stack: Seq<(u32, bool)>) -> Seq<(u32, bool)> {
    stack.filter(|e: (u32, bool)| e.0 != 0)
}

pub proof fn lemma_due_push(stack: Seq<(u32, bool)>, e: (u32, bool))
    ensures
        due(stack.push(e)) == if e.0 == 0 {
            due(stack).push(e)
        } else {
            due(stack)
        },
        waiting(stack.push(e)) == if e.0 != 0 {
            waiting(stack).push(e)
        } else {
            waiting(stack)
        },
{
    stack.lemma_filter_push(e, |e: (u32, bool)| e.0 == 0);
    stack.lemma_filter_push(e, |e: (u32, bool)| e.0 != 0);
}

pub proof fn lemma_due_empty()
    ensures
        due(Seq::empty()) == Seq::<(u32, bool)>::empty(),
        waiting(Seq::empty()) == Seq::<(u32, bool)>::empty(),
{
    reveal_with_fuel(Seq::filter, 1);
}

impl ComponentView {
    /// The delay line takes note of the level at the input. A level that
    /// differs from the one seen last is recorded and queued to show after
    /// the configured delay; the same level again changes nothing.
    pub open spec fn observe(self, level: bool) -> ComponentView {
        if self.input_state == level {
            self
        } else {
            ComponentView {
                input_state: level,
                stack: self.stack.push((self.ticks, level)),
                ..self
            }
        }
    }

    /// Some pending transition has run out its delay.
    pub open spec fn drains(self) -> bool {
        due(self.stack).len() > 0
    }

    /// The transitions that are due leave the queue and are applied in queue
    /// order, so that the last of them decides the level; the others stay,
    /// in their order.
    pub open spec fn drain(self) -> ComponentView {
        ComponentView {
            element: if self.drains() {
                self.element.with_state(due(self.stack).last().1)
            } else {
                self.element
            },
            stack: waiting(self.stack),
            ..self
        }
    }

    /// Every pending transition has one tick less to wait, and none less
    /// than zero.
    pub open spec fn age(self) -> ComponentView {
        ComponentView {
            stack: Seq::new(
                self.stack.len(),
                |i: int|
                    (
                        if self.stack[i].0 > 0 {
                            (self.stack[i].0 - 1) as u32
                        } else {
                            0u32
                        },
                        self.stack[i].1,
                    ),
            ),
            ..self
        }
    }
}

/// A gate that shows what its input showed a number of ticks ago.
pub struct TimerGate {
    pub gate: OneInputGate,
    pub ticks: u32,
    pub input_state: bool,
    pub stack: Vec<(u32, bool)>,
}

impl View for TimerGate {
    type V = ComponentView;

    open spec fn view(&self) -> ComponentView {
        ComponentView {
            ticks: self.ticks,
            input_state: self.input_state,
            stack: self.stack@,
            ..self.gate.model(GateKind::Timer)
        }
    }
}

impl TimerGate {
    pub fn new(gate: OneInputGate, ticks: u32) -> (r: TimerGate)
        ensures
            r@ == (ComponentView { ticks, ..gate.model(GateKind::Timer) }),
    {
        TimerGate { gate, ticks, stack: Vec::new(), input_state: false }
    }

    /// The level at the input, and whether it differs from the level that
    /// the timer shows.
    pub fn compute_next_state(&self, sim: &Simulation) -> (r: (bool, bool))
        ensures
            r.0 == next_level(self@, sim@),
            r.1 == (r.0 != self@.element.state),
    {
        let new_state = self.gate.circuit_element.any_input(sim);
        let is_different = new_state != self.gate.circuit_element.state;
        (new_state, is_different)
    }

    pub fn update_input(&mut self, new_input_state: bool)
        ensures
            final(self)@ == old(self)@.observe(new_input_state),
    {
        if self.input_state == new_input_state {
            return ;
        }
        self.input_state = new_input_state;
        self.stack.push((self.ticks, new_input_state));
    }

    /// Applies the transitions that are due. Returns the level that the
    /// timer shows afterwards, and whether any transition was applied.
    pub fn check_stack_and_update(&mut self) -> (r: (bool, bool))
        ensures
            final(self)@ == old(self)@.drain(),
            r.0 == final(self)@.element.state,
            r.1 == old(self)@.drains(),
    {
        let ghost before = self@;
        let mut kept: Vec<(u32, bool)> = Vec::new();
        let mut state = self.gate.circuit_element.state;
        let mut changed = false;
        let mut i: usize = 0;
        proof {
            lemma_due_empty();
        }
        while i < self.stack.len()
            invariant
                i <= self.stack.len(),
                *self == *old(self),
                kept@ == waiting(self.stack@.take(i as int)),
                changed == (due(self.stack@.take(i as int)).len() > 0),
                state == if changed {
                    due(self.stack@.take(i as int)).last().1
                } else {
                    self.gate.circuit_element.state
                },
            decreases self.stack.len() - i,
        {
            let entry = self.stack[i];
            proof {
                lemma_due_push(self.stack@.take(i as int), entry);
                assert(self.stack@.take(i + 1) == self.stack@.take(i as int).push(entry));
            }
            if entry.0 == 0 {
                state = entry.1;
                changed = true;
            } else {
                kept.push(entry);
            }
            i += 1;
        }
        assert(self.stack@.take(self.stack.len() as int) == self.stack@);
        self.gate.circuit_element.state = state;
        self.stack = kept;
        (state, changed)
    }

    pub fn decrement_ticks(&mut self)
        ensures
            final(self)@ == old(self)@.age(),
    {
        let mut i: usize = 0;
        while i < self.stack.len()
            invariant
                i <= self.stack.len(),
                self.stack.len() == old(self).stack.len(),
                self.gate == old(self).gate,
                self.ticks == old(self).ticks,
                self.input_state == old(self).input_state,
                forall|j: int| 0 <= j < i ==> self.stack@[j] == old(self)@.age().stack[j],
                forall|j: int| i <= j < self.stack.len() ==> self.stack@[j] == old(self).stack@[j],
            decreases self.stack.len() - i,
        {
            let entry = self.stack[i];
            if entry.0 > 0 {
                self.stack[i] = (entry.0 - 1, entry.1);
            }
            i += 1;
        }
        assert(self.stack@ =~= old(self)@.age().stack);
    }
}

} // verus!
