//! Uniformly random play-to-completion, used to score a leaf.

use vstd::prelude::*;
use crate::Action;
use crate::Outcome;
use crate::Player;
use crate::RandomSource;
use crate::State;

verus! {

/// Draws an index below `len` from the random source.
pub fn pick_index<Rn: RandomSource>(rng: &mut Rn, len: usize) -> (r: usize)
    requires
        len >= 1,
    ensures
        r < len,
{
    (rng.next_u32() as usize) % len
}

/// Plays a private copy of the state to completion with uniformly random
/// moves; the input state is never touched. Returns the terminal outcome, an
/// `Escape` when a non-terminal state offers no action, or the game's own
/// error when a successor computation fails. A step budget far beyond any
/// enumerable game bounds the loop; running it out is an `Escape` too.
pub fn random_rollout<Rn, S, A, P>(game: &S, rng: &mut Rn) -> (r: Result<Outcome<P>, S::Error>)
    where Rn: RandomSource, S: State<Rn, A, P>, A: Action, P: Player,
{
    let mut current = game.clone_state();
    let mut fuel: u64 = 0xFFFF_FFFF_FFFF_FFFF;
    while fuel > 0
        decreases fuel,
    {
        match current.outcome() {
            Some(outcome) => {
                return Ok(outcome);
            },
            None => {},
        }
        let actions = current.actions();
        if actions.len() == 0 {
            return Ok(Outcome::Escape("No actions available.".to_owned()));
        }
        let idx = pick_index(rng, actions.len());
        match current.apply_action(rng, &actions[idx]) {
            Ok(next) => {
                current = next;
            },
            Err(e) => {
                return Err(e);
            },
        }
        fuel = fuel - 1;
    }
    Ok(Outcome::Escape("Rollout step budget exhausted.".to_owned()))
}

} // verus!
