//! Information-set Monte Carlo tree search: the hidden state is sampled
//! into many fully observable determinizations, an independent search runs
//! on each, and the per-action scores aggregate across all samples. The
//! agents and the match driver built on the search live here too.

use vstd::prelude::*;
use crate::Action;
use crate::ActionEq;
use crate::Player;
use crate::RandomSource;
use crate::State;
use crate::game_tree::GameTree;
use crate::mcts::capped_simulations;
use crate::node::Score;
use crate::numeric::first_argmax;
use crate::numeric::lemma_first_argmax_props;
use crate::numeric::lemma_first_argmax_step;

verus! {

/// A partially observable state that can be sampled into a fully observable
/// one, consistent with what the perspective player can see.
pub trait Determinable<Rn: RandomSource, S: State<Rn, A, P>, A: Action, P: Player> {
    fn determine(&self, rng: &mut Rn, perspective_player: P) -> S;
}

/// Saturating addition on the `u64` range: aggregate scores cannot wrap.
pub open spec fn sat_add_u64(a: int, b: int) -> int {
    if a + b > 0xFFFF_FFFF_FFFF_FFFF {
        0xFFFF_FFFF_FFFF_FFFF
    } else {
        a + b
    }
}

/// The aggregate score of one action for one player over a record list.
pub open spec fn total_score<A, P>(records: Seq<Score<A, P>>, action: A, player: P) -> int
    decreases records.len(),
{
    if records.len() == 0 {
        0
    } else {
        let rest = total_score(records.drop_last(), action, player);
        if records.last().action == action && records.last().player == player {
            sat_add_u64(rest, records.last().score as int)
        } else {
            rest
        }
    }
}

/// The distinct actions of a record list, in order of first appearance.
pub open spec fn distinct_actions<A, P>(records: Seq<Score<A, P>>) -> Seq<A>
    decreases records.len(),
{
    if records.len() == 0 {
        Seq::empty()
    } else {
        let prev = distinct_actions(records.drop_last());
        if prev.contains(records.last().action) {
            prev
        } else {
            prev.push(records.last().action)
        }
    }
}

/// The aggregate scores of all distinct actions, in first-appearance order.
pub open spec fn action_totals<A, P>(records: Seq<Score<A, P>>, player: P) -> Seq<int> {
    Seq::new(
        distinct_actions(records).len(),
        |k: int| total_score(records, distinct_actions(records)[k], player),
    )
}

/// The action the aggregation selects: the first candidate with the
/// greatest aggregate score for the player; `None` without records.
pub open spec fn chosen_action<A, P>(records: Seq<Score<A, P>>, player: P) -> Option<A> {
    if distinct_actions(records).len() == 0 {
        None
    } else {
        Some(distinct_actions(records)[first_argmax(action_totals(records, player))])
    }
}

/// The candidate list never repeats an action.
pub proof fn lemma_distinct_actions_distinct<A, P>(records: Seq<Score<A, P>>)
    ensures
        forall|a: int, b: int|
            0 <= a < b < distinct_actions(records).len() ==> (#[trigger] distinct_actions(
                records,
            )[a]) != (#[trigger] distinct_actions(records)[b]),
    decreases records.len(),
{
    if records.len() > 0 {
        lemma_distinct_actions_distinct(records.drop_last());
        let prev = distinct_actions(records.drop_last());
        let cur = distinct_actions(records);
        if !prev.contains(records.last().action) {
            assert forall|a: int, b: int| 0 <= a < b < cur.len() implies (#[trigger] cur[a]) != (
            #[trigger] cur[b]) by {
                if b == cur.len() - 1 {
                    if prev[a] == records.last().action {
                        assert(prev.contains(records.last().action));
                    }
                }
            }
        }
    }
}

/// Every recorded action appears among the candidates.
pub proof fn lemma_distinct_actions_cover<A, P>(records: Seq<Score<A, P>>, j: int)
    requires
        0 <= j < records.len(),
    ensures
        distinct_actions(records).contains(records[j].action),
    decreases records.len(),
{
    let prev = distinct_actions(records.drop_last());
    let cur = distinct_actions(records);
    if j == records.len() - 1 {
        if !prev.contains(records.last().action) {
            assert(cur[cur.len() - 1] == records.last().action);
        }
    } else {
        lemma_distinct_actions_cover(records.drop_last(), j);
        assert(records.drop_last()[j] == records[j]);
        let w = choose|w: int| 0 <= w < prev.len() && prev[w] == records[j].action;
        assert(cur[w] == records[j].action);
    }
}

/// An action outside the candidate list has aggregate score zero.
pub proof fn lemma_total_zero_if_absent<A, P>(records: Seq<Score<A, P>>, action: A, player: P)
    requires
        !distinct_actions(records).contains(action),
    ensures
        total_score(records, action, player) == 0,
    decreases records.len(),
{
    if records.len() > 0 {
        lemma_distinct_actions_cover(records, records.len() - 1);
        assert(records[records.len() - 1].action == records.last().action);
        let prev = distinct_actions(records.drop_last());
        let cur = distinct_actions(records);
        assert forall|w: int| 0 <= w < prev.len() implies cur.contains(#[trigger] prev[w]) by {
            if prev.contains(records.last().action) {
                assert(cur[w] == prev[w]);
            } else {
                assert(cur[w] == prev[w]);
            }
        }
        if prev.contains(action) {
            let w = choose|w: int| 0 <= w < prev.len() && prev[w] == action;
            assert(cur.contains(prev[w]));
            assert(false);
        }
        lemma_total_zero_if_absent(records.drop_last(), action, player);
    }
}

/// Folds a record list into per-action aggregate scores for one player and
/// returns the first action whose aggregate is greatest; `None` when the
/// list is empty. Candidates keep their first-appearance order, so the
/// tie-break is deterministic.
pub fn choose_best_action<A, P>(records: &Vec<Score<A, P>>, player: P) -> (r: Option<A>)
    where A: ActionEq, P: Player,
    ensures
        r == chosen_action(records@, player),
{
    let n = records.len();
    let mut totals: Vec<(A, u64)> = Vec::new();
    let mut t: usize = 0;
    proof {
        assert(records@.take(0) =~= Seq::<Score<A, P>>::empty());
    }
    while t < n
        invariant
            n == records@.len(),
            t <= n,
            totals@.len() == distinct_actions(records@.take(t as int)).len(),
            forall|k: int|
                0 <= k < totals@.len() ==> (#[trigger] totals@[k]).0 == distinct_actions(
                    records@.take(t as int),
                )[k],
            forall|k: int|
                0 <= k < totals@.len() ==> (#[trigger] totals@[k]).1 as int == total_score(
                    records@.take(t as int),
                    totals@[k].0,
                    player,
                ),
            forall|a: int, b: int|
                0 <= a < b < totals@.len() ==> (#[trigger] totals@[a]).0 != (
                #[trigger] totals@[b]).0,
        decreases n - t,
    {
        let ghost pre = records@.take(t as int);
        proof {
            assert(records@.take(t as int + 1).drop_last() =~= pre);
            assert(records@.take(t as int + 1).last() == records@[t as int]);
        }
        let rec = &records[t];
        let m = totals.len();
        let mut k: usize = 0;
        let mut slot: Option<usize> = None;
        while k < m
            invariant
                m == totals@.len(),
                k <= m,
                rec == &records@[t as int],
                t < records@.len(),
                n == records@.len(),
                match slot {
                    Some(si) => si < m && totals@[si as int].0 == records@[t as int].action,
                    None => forall|j: int|
                        0 <= j < k ==> (#[trigger] totals@[j]).0 != records@[t as int].action,
                },
            decreases m - k,
        {
            let is_free = match slot {
                Some(_) => false,
                None => true,
            };
            if is_free {
                if totals[k].0.eq_action(&rec.action) {
                    slot = Some(k);
                }
            }
            k = k + 1;
        }
        let ghost prev_totals = totals@;
        match slot {
            Some(si) => {
                proof {
                    // The action already has its slot: the candidate list
                    // does not grow.
                    assert(distinct_actions(pre).contains(records@[t as int].action)) by {
                        assert(distinct_actions(pre)[si as int] == records@[t as int].action);
                    }
                    assert(distinct_actions(records@.take(t as int + 1)) =~= distinct_actions(pre));
                }
                if rec.player.eq_player(&player) {
                    let cur: u64 = totals[si].1;
                    let addend: u64 = rec.score as u64;
                    let newv: u64 = if cur > 0xFFFF_FFFF_FFFF_FFFF - addend {
                        0xFFFF_FFFF_FFFF_FFFF
                    } else {
                        cur + addend
                    };
                    totals[si].1 = newv;
                    proof {
                        assert(totals@[si as int].0 == prev_totals[si as int].0);
                        assert(newv as int == sat_add_u64(cur as int, addend as int));
                    }
                }
                proof {
                    assert forall|j: int|
                        0 <= j < totals@.len() implies (#[trigger] totals@[j]).1 as int
                        == total_score(records@.take(t as int + 1), totals@[j].0, player) by {
                        if j != si as int || !(records@[t as int].player == player) {
                            assert(totals@[j].0 != records@[t as int].action || j == si as int);
                        }
                    }
                }
            },
            None => {
                proof {
                    assert forall|j: int|
                        0 <= j < distinct_actions(pre).len() implies (#[trigger] distinct_actions(
                        pre,
                    )[j]) != records@[t as int].action by {
                        assert(prev_totals[j].0 == distinct_actions(pre)[j]);
                    }
                    if distinct_actions(pre).contains(records@[t as int].action) {
                        let w = choose|w: int|
                            0 <= w < distinct_actions(pre).len() && distinct_actions(pre)[w]
                                == records@[t as int].action;
                        assert(false);
                    }
                    lemma_total_zero_if_absent(pre, records@[t as int].action, player);
                }
                let initial: u64 = if rec.player.eq_player(&player) {
                    rec.score as u64
                } else {
                    0
                };
                totals.push((rec.action.clone_action(), initial));
            },
        }
        t = t + 1;
    }
    proof {
        assert(records@.take(n as int) =~= records@);
    }
    if totals.len() == 0 {
        return None;
    }
    let ghost ts = action_totals(records@, player);
    proof {
        lemma_first_argmax_props(ts);
    }
    let total_count = totals.len();
    let mut best_k: usize = 0;
    let mut best_v: u64 = totals[0].1;
    let mut k: usize = 1;
    while k < total_count
        invariant
            total_count == totals@.len(),
            totals@.len() == distinct_actions(records@).len(),
            ts == action_totals(records@, player),
            forall|j: int|
                0 <= j < totals@.len() ==> (#[trigger] totals@[j]).0 == distinct_actions(
                    records@,
                )[j],
            forall|j: int|
                0 <= j < totals@.len() ==> (#[trigger] totals@[j]).1 as int == total_score(
                    records@,
                    totals@[j].0,
                    player,
                ),
            1 <= k <= totals@.len(),
            best_k < k,
            best_k == first_argmax(ts.take(k as int)),
            best_v as int == ts[best_k as int],
        decreases total_count - k,
    {
        let v = totals[k].1;
        proof {
            lemma_first_argmax_step(ts, k as int);
            lemma_first_argmax_props(ts.take(k as int));
            assert(ts.take(k as int)[best_k as int] == ts[best_k as int]);
        }
        if v > best_v {
            best_k = k;
            best_v = v;
        }
        k = k + 1;
    }
    proof {
        assert(ts.take(total_count as int) =~= ts);
    }
    Some(totals[best_k].0.clone_action())
}

/// Clones the caller's random source and advances the clone by draining
/// one word per determinization index, so each determinization starts from
/// its own point in the stream.
pub fn clone_and_advance_rng<Rn: RandomSource>(rng: &Rn, delta: u32) -> Rn {
    let mut advanced = rng.fork();
    let mut step: u32 = 0;
    while step < delta
        decreases delta - step,
    {
        let _ = advanced.next_u32();
        step = step + 1;
    }
    advanced
}

/// Information-set Monte Carlo tree search: one independent search per
/// determinization of the hidden state, scores aggregated across all of
/// them, the first action with the greatest aggregate for the player to
/// move returned. `None` comes back only when no determinization yields a
/// root child. A game-contract violation ends that determinization's search
/// early; the statistics it gathered still aggregate.
pub fn ismcts<Rn, S, A, P>(
    state: &S,
    rng: &Rn,
    num_determinizations: u32,
    num_simulations: u32,
) -> (r: Option<A>)
    where
        Rn: RandomSource,
        S: State<Rn, A, P> + Determinable<Rn, S, A, P>,
        A: ActionEq,
        P: Player,
    ensures
        num_determinizations == 0 ==> r is None,
{
    let mut all_scores: Vec<Score<A, P>> = Vec::new();
    let mut determinization_idx: u32 = 0;
    while determinization_idx < num_determinizations
        invariant
            num_determinizations == 0 ==> all_scores@.len() == 0,
        decreases num_determinizations - determinization_idx,
    {
        let mut det_rng = clone_and_advance_rng(rng, determinization_idx);
        let game = state.determine(&mut det_rng, state.current_player());
        let mut decision_tree = GameTree::new(game);
        let budget = capped_simulations(num_simulations);
        let search_result = decision_tree.search_n(&mut det_rng, budget);
        match search_result {
            Ok(()) => {},
            Err(_) => {},
        }
        let mut det_scores = decision_tree.root_scores();
        all_scores.append(&mut det_scores);
        determinization_idx = determinization_idx + 1;
    }
    choose_best_action(&all_scores, state.current_player())
}

/// The decision interface of a serial information-set agent.
pub trait IsMctsAgent<P: Player> {
    fn player(&self) -> P;

    fn decide<Rn: RandomSource, S: State<Rn, A, P> + Determinable<Rn, S, A, P>, A: ActionEq>(
        &self,
        rng: &mut Rn,
        state: &S,
    ) -> Option<A>;
}

/// A serial information-set agent: a player identity bound to a
/// determinization count and a per-determinization simulation budget.
#[derive(Debug, Clone)]
pub struct Agent<P> {
    pub player: P,
    pub num_determinations: u32,
    pub num_simulations: u32,
}

impl<P: Player> Agent<P> {
    pub fn new(player: P, num_determinations: u32, num_simulations: u32) -> (r: Self)
        ensures
            r.player == player,
            r.num_determinations == num_determinations,
            r.num_simulations == num_simulations,
    {
        Self { player, num_determinations, num_simulations }
    }
}

impl<P: Player> IsMctsAgent<P> for Agent<P> {
    fn player(&self) -> P {
        self.player
    }

    fn decide<Rn: RandomSource, S: State<Rn, A, P> + Determinable<Rn, S, A, P>, A: ActionEq>(
        &self,
        rng: &mut Rn,
        state: &S,
    ) -> Option<A> {
        ismcts(state, rng, self.num_determinations, self.num_simulations)
    }
}

/// The decision interface of an agent meant for the threaded match driver.
pub trait IsMctsMtAgent<P: Player + Send + Sync> {
    fn player(&self) -> P;

    fn decide<
        Rn: RandomSource + Send,
        S: State<Rn, A, P> + Determinable<Rn, S, A, P> + Send,
        A: ActionEq + Send + Sync,
    >(&self, rng: &mut Rn, state: &S) -> Option<A>;
}

/// The agent the match driver schedules; it decides by the serial
/// information-set search.
#[derive(Debug, Clone)]
pub struct MtAgent<P> {
    pub player: P,
    pub num_determinations: u32,
    pub num_simulations: u32,
}

impl<P: Player> MtAgent<P> {
    pub fn new(player: P, num_determinations: u32, num_simulations: u32) -> (r: Self)
        ensures
            r.player == player,
            r.num_determinations == num_determinations,
            r.num_simulations == num_simulations,
    {
        Self { player, num_determinations, num_simulations }
    }
}

impl<P: Player + Send + Sync> IsMctsMtAgent<P> for MtAgent<P> {
    fn player(&self) -> P {
        self.player
    }

    fn decide<
        Rn: RandomSource + Send,
        S: State<Rn, A, P> + Determinable<Rn, S, A, P> + Send,
        A: ActionEq + Send + Sync,
    >(&self, rng: &mut Rn, state: &S) -> Option<A> {
        ismcts(state, rng, self.num_determinations, self.num_simulations)
    }
}

/// The ways a driven match can fail.
#[derive(Debug)]
pub enum MultithreadedInformationSetGameError<A, P> {
    /// No agent is mapped to the player whose turn it is.
    NoAgentForPlayer(P),
    /// The agent to move returned no action.
    AgentDecisionError(MtAgent<P>),
    /// The game rejected the action the agent chose.
    ActionApplicationError(A),
}

/// Drives a full match: each turn, the agent mapped to the player to move
/// decides by information-set search, and the chosen action is applied to
/// the match state.
pub struct MultithreadedInformationSetGame<Rn, S, A, P> {
    pub state: S,
    pub agents: Vec<(P, MtAgent<P>)>,
    pub rng: Rn,
    pub _phantom_a: core::marker::PhantomData<A>,
}

impl<Rn, S, A, P> MultithreadedInformationSetGame<Rn, S, A, P>
    where
        Rn: RandomSource + Send,
        S: State<Rn, A, P> + Determinable<Rn, S, A, P> + Send,
        A: ActionEq + Send + Sync,
        P: Player + Send + Sync,
{
    pub fn new(rng: Rn, state: S, agents: Vec<(P, MtAgent<P>)>) -> (r: Self)
        ensures
            r.state == state,
            r.agents == agents,
            r.rng == rng,
    {
        Self { state, agents, rng, _phantom_a: core::marker::PhantomData }
    }

    /// Plays one turn. An error names what went wrong and leaves the match
    /// state as it was; in particular `NoAgentForPlayer(p)` comes back
    /// exactly with a player `p` that the agent table does not map.
    pub fn step(&mut self) -> (r: Result<(), MultithreadedInformationSetGameError<A, P>>)
        ensures
            final(self).agents == old(self).agents,
            r is Err ==> final(self).state == old(self).state,
            (match r {
                Err(MultithreadedInformationSetGameError::NoAgentForPlayer(p)) => forall|k: int|
                    0 <= k < old(self).agents@.len() ==> (#[trigger] old(self).agents@[k]).0 != p,
                _ => true,
            }),
    {
        let current_player = self.state.current_player();
        let n = self.agents.len();
        let mut k: usize = 0;
        let mut agent_idx: Option<usize> = None;
        while k < n
            invariant
                n == self.agents@.len(),
                k <= n,
                *self == *old(self),
                match agent_idx {
                    Some(ai) => ai < n && self.agents@[ai as int].0 == current_player,
                    None => forall|j: int|
                        0 <= j < k ==> (#[trigger] self.agents@[j]).0 != current_player,
                },
            decreases n - k,
        {
            let is_free = match agent_idx {
                Some(_) => false,
                None => true,
            };
            if is_free {
                if self.agents[k].0.eq_player(&current_player) {
                    agent_idx = Some(k);
                }
            }
            k = k + 1;
        }
        let ai = match agent_idx {
            Some(ai) => ai,
            None => {
                return Err(MultithreadedInformationSetGameError::NoAgentForPlayer(current_player));
            },
        };
        let decision = self.agents[ai].1.decide(&mut self.rng, &self.state);
        let action = match decision {
            Some(action) => action,
            None => {
                let failed_agent = self.agents[ai].1.clone();
                return Err(MultithreadedInformationSetGameError::AgentDecisionError(failed_agent));
            },
        };
        let applied = self.state.apply_action(&mut self.rng, &action);
        match applied {
            Ok(next_state) => {
                self.state = next_state;
                Ok(())
            },
            Err(_) => Err(MultithreadedInformationSetGameError::ActionApplicationError(action)),
        }
    }

    /// Plays turns until the match state reports an outcome, handing back
    /// the first error a turn produces. A step budget far beyond any
    /// playable match bounds the loop.
    pub fn run(&mut self) -> (r: Result<(), MultithreadedInformationSetGameError<A, P>>)
        ensures
            final(self).agents == old(self).agents,
    {
        let mut fuel: u64 = 0xFFFF_FFFF_FFFF_FFFF;
        while fuel > 0
            invariant
                self.agents == old(self).agents,
            decreases fuel,
        {
            let finished = self.state.outcome();
            match finished {
                Some(_) => {
                    return Ok(());
                },
                None => {},
            }
            let stepped = self.step();
            match stepped {
                Ok(()) => {},
                Err(e) => {
                    return Err(e);
                },
            }
            fuel = fuel - 1;
        }
        Ok(())
    }

    /// Whether the match state reports an outcome.
    pub fn is_terminated(&self) -> bool {
        self.state.outcome().is_some()
    }

    /// The match state's outcome, if it has one.
    pub fn outcome(&self) -> Option<crate::Outcome<P>> {
        self.state.outcome()
    }
}

} // verus!
