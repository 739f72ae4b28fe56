//! The one-shot game-simulation capability contract, consumed by an
//! action-selection policy built outside this core.

use vstd::prelude::*;

verus! {

/// A totally ordered score: higher means a state is better for the acting
/// side.
#[derive(Debug, Clone, Copy, Eq, PartialEq, PartialOrd, Ord, Structural)]
pub struct Score(pub i64);

/// One concrete game: legal-action enumeration, a pure transition function,
/// and a numeric evaluation of states. The spec functions are the
/// mathematical contract; the executable methods must agree with them
/// exactly, so enumeration, transition and evaluation are all pure.
pub trait GameRule {
    type State;

    type Action;

    /// Every action that is legal from `state`.
    spec fn spec_possible_actions(&self, state: Self::State) -> Seq<Self::Action>;

    /// The state reached by taking `action` from `state`.
    spec fn spec_apply_action(&self, state: Self::State, action: Self::Action) -> Self::State;

    /// How favourable `state` is for the acting side.
    spec fn spec_evaluate(&self, state: Self::State) -> Score;

    fn possible_actions(&self, state: &Self::State) -> (r: Vec<Self::Action>)
        ensures
            r@ == self.spec_possible_actions(*state),
    ;

    fn apply_action(&self, state: &Self::State, action: &Self::Action) -> (r: Self::State)
        ensures
            r == self.spec_apply_action(*state, *action),
    ;

    fn evaluate(&self, state: &Self::State) -> (r: Score)
        ensures
            r == self.spec_evaluate(*state),
    ;
}

} // verus!
