use ismcts_engine::mcts::mcts;
use ismcts_engine::Action;
use ismcts_engine::Outcome;
use ismcts_engine::Player;
use ismcts_engine::RandomSource;
use ismcts_engine::State;
use rand::rngs::StdRng;
use rand::RngCore;
use rand::SeedableRng;

/// A generator from the `rand` crate serving as the engine's random source.
#[derive(Clone)]
struct SeededStd(StdRng);

impl RandomSource for SeededStd {
    fn next_u32(&mut self) -> u32 {
        self.0.next_u32()
    }

    fn fork(&self) -> Self {
        SeededStd(self.0.clone())
    }
}

#[derive(Clone, Copy, PartialEq, Eq, Debug)]
struct Pl(u8);

impl Player for Pl {
    fn eq_player(&self, other: &Self) -> bool {
        self == other
    }
}

#[derive(Clone, PartialEq, Eq, Debug)]
struct Mv(u8);

impl Action for Mv {
    fn clone_action(&self) -> Self {
        self.clone()
    }
}

/// A one-move game: the only action wins for the only player.
#[derive(Clone)]
struct OneMove {
    done: bool,
}

impl State<SeededStd, Mv, Pl> for OneMove {
    type Error = String;

    fn actions(&self) -> Vec<Mv> {
        if self.done {
            Vec::new()
        } else {
            vec![Mv(1)]
        }
    }

    fn apply_action(&self, _rng: &mut SeededStd, _action: &Mv) -> Result<OneMove, String> {
        Ok(OneMove { done: true })
    }

    fn outcome(&self) -> Option<Outcome<Pl>> {
        if self.done {
            Some(Outcome::Winner(Pl(1)))
        } else {
            None
        }
    }

    fn current_player(&self) -> Pl {
        Pl(1)
    }

    fn clone_state(&self) -> OneMove {
        self.clone()
    }
}

#[test]
fn search_runs_on_a_rand_backed_source() {
    let mut rng = SeededStd(StdRng::seed_from_u64(7));
    let chosen = mcts(&OneMove { done: false }, &mut rng, 25);
    assert_eq!(chosen, Some(Mv(1)));
}
