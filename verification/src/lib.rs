//! A generic game-playing decision engine: Monte Carlo tree search over an
//! arena-allocated game tree, with an information-set variant that samples
//! many determinizations of a hidden state and aggregates their scores.
//!
//! The engine is parameterized over the consumer's game state, action and
//! player types through the traits below, and over the random source it
//! draws from. Selection uses the UCB1 rule evaluated in fixed-point
//! integer arithmetic; every score is an integer count of wins or draws, so
//! all tree statistics carry exact contracts.

pub mod game_tree;
pub mod ismcts;
pub mod mcts;
pub mod node;
pub mod numeric;
pub mod rollout;

pub use game_tree::GameTree;
pub use ismcts::ismcts;
pub use mcts::mcts;
pub use node::GameTreeEdge;
pub use node::GameTreeNode;
pub use rollout::random_rollout;

use vstd::prelude::*;

verus! {

/// A pseudorandom word source consumed by searches and rollouts.
///
/// Nothing is promised of the values drawn: every engine contract holds for
/// every stream the source may produce.
pub trait RandomSource: Sized {
    /// Draws the next 32-bit word and advances the stream.
    fn next_u32(&mut self) -> u32;

    /// Clones the source so that independent searches receive independent
    /// streams starting from the same point.
    fn fork(&self) -> Self;
}

/// A move label attached to tree edges. Implementations must duplicate a
/// value exactly.
pub trait Action: Sized {
    fn clone_action(&self) -> (r: Self)
        ensures
            r == *self,
    ;
}

/// An action that can be bucketed across determinizations: identical
/// actions from distinct samples aggregate into one candidate.
pub trait ActionEq: Action {
    fn eq_action(&self, other: &Self) -> (r: bool)
        ensures
            r == (*self == *other),
    ;
}

/// A player identity: a small copyable handle with decidable equality.
pub trait Player: Sized + Copy {
    fn eq_player(&self, other: &Self) -> (r: bool)
        ensures
            r == (*self == *other),
    ;
}

/// The result of a finished (or stuck) game.
pub enum Outcome<P> {
    /// A single winner.
    Winner(P),
    /// The listed players share a draw.
    Draw(Vec<P>),
    /// Play could not continue: a non-terminal state offered no action.
    Escape(String),
}

/// The game contract: legal actions, a stochastic successor function, an
/// optional terminal outcome, and the player to move.
pub trait State<Rn: RandomSource, A: Action, P: Player>: Sized {
    type Error;

    fn actions(&self) -> Vec<A>;

    fn apply_action(&self, rng: &mut Rn, action: &A) -> Result<Self, Self::Error>;

    fn outcome(&self) -> Option<Outcome<P>>;

    fn current_player(&self) -> P;

    fn clone_state(&self) -> (r: Self)
        ensures
            r == *self,
    ;
}

} // verus!
