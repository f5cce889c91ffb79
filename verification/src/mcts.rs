//! Plain Monte Carlo tree search entry points, and the agent wrapping them.

use vstd::prelude::*;
use crate::Action;
use crate::Player;
use crate::RandomSource;
use crate::State;
use crate::game_tree::GameTree;

verus! {

/// Caps an iteration budget one below `u32::MAX` so tree counters cannot
/// overflow; every practical budget passes through unchanged.
pub fn capped_simulations(n: u32) -> (r: u32)
    ensures
        r <= n,
        r < u32::MAX,
        n < u32::MAX ==> r == n,
{
    if n == 0xFFFF_FFFF {
        0xFFFF_FFFE
    } else {
        n
    }
}

/// Builds a fresh tree over a copy of the state and grows it with the given
/// number of search iterations. A game-contract violation stops the search
/// early; the tree keeps the statistics gathered until then.
pub fn build_monte_carlo_game_tree<Rn, S, A, P>(
    state: &S,
    rng: &mut Rn,
    num_simulations: u32,
) -> (r: GameTree<S, A, P>)
    where Rn: RandomSource, S: State<Rn, A, P>, A: Action, P: Player,
    ensures
        r.wf(),
        r.root_visits() <= num_simulations,
        r.nodes_seq()[0].state == *state,
        num_simulations == 0 ==> r.node_count() == 1 && r.children_at(0).len() == 0,
{
    let mut tree = GameTree::new(state.clone_state());
    let budget = capped_simulations(num_simulations);
    let search_result = tree.search_n(rng, budget);
    match search_result {
        Ok(()) => {},
        Err(_) => {},
    }
    tree
}

/// Monte Carlo tree search: grows a tree from the state and returns the
/// action to its most-visited root child, or `None` when the root state
/// admits no action.
pub fn mcts<Rn, S, A, P>(state: &S, rng: &mut Rn, num_simulations: u32) -> (r: Option<A>)
    where Rn: RandomSource, S: State<Rn, A, P>, A: Action, P: Player,
    ensures
        num_simulations == 0 ==> r is None,
{
    let tree = build_monte_carlo_game_tree(state, rng, num_simulations);
    let best = tree.best_action();
    match best {
        Some(action) => Some(action.clone_action()),
        None => None,
    }
}

/// The decision interface of a plain-search agent.
pub trait MctsAgent<P: Player> {
    fn player(&self) -> P;

    fn decide<Rn: RandomSource, S: State<Rn, A, P>, A: Action>(
        &self,
        rng: &mut Rn,
        state: &S,
    ) -> Option<A>;
}

/// A policy binding a player identity to a simulation budget; it decides by
/// plain Monte Carlo tree search.
#[derive(Clone)]
pub struct Agent<P> {
    pub player: P,
    pub num_simulations: u32,
}

impl<P: Player> Agent<P> {
    pub fn new(player: P, num_simulations: u32) -> (r: Self)
        ensures
            r.player == player,
            r.num_simulations == num_simulations,
    {
        Self { player, num_simulations }
    }
}

impl<P: Player> MctsAgent<P> for Agent<P> {
    fn player(&self) -> P {
        self.player
    }

    fn decide<Rn: RandomSource, S: State<Rn, A, P>, A: Action>(
        &self,
        rng: &mut Rn,
        state: &S,
    ) -> Option<A> {
        mcts(state, rng, self.num_simulations)
    }
}

} // verus!
