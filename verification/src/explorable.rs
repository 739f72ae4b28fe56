//! The exploration capability contract: a search problem seen as an implicit
//! graph of states, transitions and goals, independent of any concrete game.

use vstd::prelude::*;

verus! {

/// A problem a traversal algorithm can explore: every state knows its
/// one-step successors, each tagged with a non-negative transition cost and
/// the action producing it, and every state can be tested for being a goal.
///
/// `succ` and `goal` are the mathematical successor relation and goal
/// predicate; the executable methods are required to agree with them exactly,
/// which makes both pure: repeated calls on equal states return equal results.
pub trait Explorable {
    type State;

    type Action: Copy;

    /// The successor list of `state`: every `(next_state, cost, action)`
    /// reachable in one step.
    spec fn succ(&self, state: Self::State) -> Seq<(Self::State, i32, Self::Action)>;

    /// Whether `state` satisfies the search objective.
    spec fn goal(&self, state: Self::State) -> bool;

    fn successors(&self, state: &Self::State) -> (r: Vec<(Self::State, i32, Self::Action)>)
        ensures
            r@ == self.succ(*state),
            forall|i: int| 0 <= i < r@.len() ==> (#[trigger] r@[i]).1 >= 0,
    ;

    fn is_goal(&self, state: &Self::State) -> (r: bool)
        ensures
            r == self.goal(*state),
    ;

    /// Decides equality of two states, so a traversal can keep a visited set.
    fn same_state(&self, a: &Self::State, b: &Self::State) -> (r: bool)
        ensures
            r == (a == b),
    ;
}

} // verus!
