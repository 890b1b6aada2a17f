//! Labelled transition systems over protocol messages.
use vstd::prelude::*;

use crate::ast::{Message, MessageModel};
use crate::parser::{RawSpan, Span};

verus! {

/// Most states that one machine can hold: their numbers fit in 32 bits.
pub const MAX_STATES: u32 = 0xffff_ffff;

/// A state of a machine, by number; state 0 is the start.
#[derive(Debug, Clone, Copy, PartialEq, Eq, Hash, Structural)]
pub struct State(pub u32);

/// A transition between two states, labelled with a message.
#[derive(Debug)]
pub struct Transition {
    pub start: State,
    pub end: State,
    pub msg: Span<Message>,
}

/// Model of a transition: start, end, and the message with its span.
pub type TransitionModel = (nat, nat, RawSpan, MessageModel);

/// The transitions of `trans` that leave state `s`, in order.
pub open spec fn trans_from(trans: Seq<TransitionModel>, s: nat) -> Seq<TransitionModel>
    decreases trans.len(),
{
    if trans.len() == 0 {
        Seq::empty()
    } else {
        let r = trans_from(trans.drop_last(), s);
        if trans.last().0 == s {
            r.push(trans.last())
        } else {
            r
        }
    }
}

/// Model of the transitions that leave state `src`, each given by its
/// message and end state.
pub open spec fn outs_view(outs: Seq<(Span<Message>, State)>, src: nat) -> Seq<TransitionModel> {
    outs.map_values(|p: (Span<Message>, State)| (src, p.1.0 as nat, p.0.span, p.0.inner@))
}

proof fn lemma_trans_from_push(v: Seq<TransitionModel>, x: TransitionModel, s: nat)
    ensures
        trans_from(v.push(x), s) == if x.0 == s {
            trans_from(v, s).push(x)
        } else {
            trans_from(v, s)
        },
{
    assert(v.push(x).drop_last() =~= v);
}

pub open spec fn transition_view(t: Transition) -> TransitionModel {
    (t.start.0 as nat, t.end.0 as nat, t.msg.span, t.msg.inner@)
}

/// A labelled transition system: a number of states and the transitions
/// between them, in the order they were added.
#[derive(Debug)]
pub struct StateMachine {
    state_count: u32,
    transitions: Vec<Transition>,
}

impl Clone for Transition {
    fn clone(&self) -> (r: Self)
        ensures
            transition_view(r) == transition_view(*self),
    {
        Transition { start: self.start, end: self.end, msg: self.msg.clone() }
    }
}

impl StateMachine {
    /// Number of states.
    pub closed spec fn count(&self) -> nat {
        self.state_count as nat
    }

    /// The transitions, in order.
    pub closed spec fn trans(&self) -> Seq<TransitionModel> {
        self.transitions@.map_values(|t: Transition| transition_view(t))
    }

    /// Every transition joins two states of the machine.
    pub open spec fn wf(&self) -> bool {
        forall|i: int|
            0 <= i < self.trans().len() ==> #[trigger] self.trans()[i].0 < self.count()
                && self.trans()[i].1 < self.count()
    }

    /// A machine with no states.
    pub fn new() -> (r: StateMachine)
        ensures
            r.wf(),
            r.count() == 0,
            r.trans() == Seq::<TransitionModel>::empty(),
    {
        let r = StateMachine { state_count: 0, transitions: Vec::new() };
        assert(r.trans() =~= Seq::<TransitionModel>::empty());
        r
    }

    /// Adds a state and returns it.
    pub fn new_state(&mut self) -> (r: State)
        requires
            old(self).count() < MAX_STATES,
        ensures
            r.0 == old(self).count(),
            final(self).count() == old(self).count() + 1,
            final(self).trans() == old(self).trans(),
            old(self).wf() ==> final(self).wf(),
    {
        self.state_count = self.state_count + 1;
        State(self.state_count - 1)
    }

    /// Whether `state` belongs to the machine.
    pub fn contains_state(&self, state: State) -> (r: bool)
        ensures
            r == (state.0 < self.count()),
    {
        state.0 < self.state_count
    }

    /// Appends a transition between two states of the machine.
    pub fn add_transition(&mut self, transition: Transition)
        requires
            transition.start.0 < old(self).count(),
            transition.end.0 < old(self).count(),
        ensures
            final(self).count() == old(self).count(),
            final(self).trans() == old(self).trans().push(transition_view(transition)),
            old(self).wf() ==> final(self).wf(),
    {
        let ghost t = transition;
        self.transitions.push(transition);
        assert(self.trans() =~= old(self).trans().push(transition_view(t)));
    }

    /// The transitions, in the order they were added.
    pub fn iter_transitions(&self) -> (r: &Vec<Transition>)
        ensures
            r@.map_values(|t: Transition| transition_view(t)) == self.trans(),
    {
        &self.transitions
    }

    /// Every state, in order.
    pub fn iter_states(&self) -> (r: Vec<State>)
        ensures
            r@.len() == self.count(),
            forall|i: int| 0 <= i < r@.len() ==> (#[trigger] r@[i]).0 == i,
    {
        let mut r: Vec<State> = Vec::new();
        let mut i: u32 = 0;
        while i < self.state_count
            invariant
                i <= self.count(),
                r@.len() == i,
                forall|k: int| 0 <= k < i ==> (#[trigger] r@[k]).0 == k,
            decreases self.count() - i,
        {
            r.push(State(i));
            i = i + 1;
        }
        r
    }

    /// The transitions that leave `start`, in order: message and end state
    /// of each.
    pub fn iter_trans_from(&self, start: State) -> (r: Vec<(Span<Message>, State)>)
        ensures
            outs_view(r@, start.0 as nat) == trans_from(self.trans(), start.0 as nat),
    {
        let mut r: Vec<(Span<Message>, State)> = Vec::new();
        let mut i: usize = 0;
        while i < self.transitions.len()
            invariant
                i <= self.transitions@.len(),
                outs_view(r@, start.0 as nat) == trans_from(self.trans().take(i as int), start.0 as nat),
            decreases self.transitions@.len() - i,
        {
            let t = &self.transitions[i];
            let ghost before = r@;
            proof {
                assert(self.trans().take(i + 1) =~= self.trans().take(i as int).push(transition_view(*t)));
                lemma_trans_from_push(self.trans().take(i as int), transition_view(*t), start.0 as nat);
            }
            if t.start.0 == start.0 {
                r.push((t.msg.clone(), t.end));
                assert(outs_view(r@, start.0 as nat) =~= outs_view(before, start.0 as nat).push(transition_view(*t)));
            }
            i = i + 1;
        }
        assert(self.trans().take(self.transitions@.len() as int) =~= self.trans());
        r
    }
}

impl State {
    /// The name of the state: `S` followed by its number.
    pub fn name(&self) -> (r: StateName)
        ensures
            r.0 == *self,
    {
        StateName(*self)
    }
}

/// The name of a state, `S{n}`.
#[derive(Debug, Clone, Copy, PartialEq, Eq, Structural)]
pub struct StateName(pub State);

} // verus!
