use ismcts_engine::game_tree::GameTree;
use ismcts_engine::game_tree::SearchError;
use ismcts_engine::ismcts::choose_best_action;
use ismcts_engine::ismcts::clone_and_advance_rng;
use ismcts_engine::ismcts::ismcts;
use ismcts_engine::ismcts::Determinable;
use ismcts_engine::ismcts::IsMctsAgent;
use ismcts_engine::ismcts::IsMctsMtAgent;
use ismcts_engine::ismcts::MtAgent;
use ismcts_engine::ismcts::MultithreadedInformationSetGame;
use ismcts_engine::ismcts::MultithreadedInformationSetGameError;
use ismcts_engine::mcts::mcts;
use ismcts_engine::mcts::MctsAgent;
use ismcts_engine::node::GameTreeNode;
use ismcts_engine::node::Score;
use ismcts_engine::rollout::random_rollout;
use ismcts_engine::Action;
use ismcts_engine::ActionEq;
use ismcts_engine::Outcome;
use ismcts_engine::Player;
use ismcts_engine::RandomSource;
use ismcts_engine::State;

#[derive(Clone, Copy, PartialEq, Eq, Debug, Hash)]
struct Pl(u8);

impl Player for Pl {
    fn eq_player(&self, other: &Self) -> bool {
        self == other
    }
}

#[derive(Clone, PartialEq, Eq, Debug, Hash)]
struct Mv(u8);

impl Action for Mv {
    fn clone_action(&self) -> Self {
        self.clone()
    }
}

impl ActionEq for Mv {
    fn eq_action(&self, other: &Self) -> bool {
        self == other
    }
}

/// A small deterministic linear congruential generator.
#[derive(Clone)]
struct Lcg(u64);

impl RandomSource for Lcg {
    fn next_u32(&mut self) -> u32 {
        self.0 = self
            .0
            .wrapping_mul(6364136223846793005)
            .wrapping_add(1442695040888963407);
        (self.0 >> 32) as u32
    }

    fn fork(&self) -> Self {
        Lcg(self.0)
    }
}

const TWO_BRANCH: u8 = 1;
const SINGLE_WIN: u8 = 2;
const DRAW_GAME: u8 = 3;
const ESCAPE_GAME: u8 = 4;
const TERMINAL_ROOT: u8 = 5;
const APPLY_FAILS: u8 = 6;
const DEEP_GAME: u8 = 7;
const NO_ACTIONS: u8 = 8;

/// A family of tiny deterministic games, one per scenario kind.
#[derive(Clone, Debug)]
struct G {
    kind: u8,
    id: u8,
}

impl G {
    fn new(kind: u8) -> G {
        G { kind, id: 0 }
    }
}

impl State<Lcg, Mv, Pl> for G {
    type Error = String;

    fn actions(&self) -> Vec<Mv> {
        match (self.kind, self.id) {
            (TWO_BRANCH, 0) => vec![Mv(0), Mv(1)],
            (SINGLE_WIN, 0) => vec![Mv(7)],
            (DRAW_GAME, 0) => vec![Mv(3)],
            (ESCAPE_GAME, 0) => vec![Mv(4), Mv(5)],
            (ESCAPE_GAME, 1) => vec![Mv(6)],
            (ESCAPE_GAME, 2) => vec![Mv(6)],
            (APPLY_FAILS, 0) => vec![Mv(9)],
            (DEEP_GAME, 0) => vec![Mv(0), Mv(1)],
            (DEEP_GAME, 1) => vec![Mv(0), Mv(1)],
            (DEEP_GAME, 2) => vec![Mv(0)],
            _ => Vec::new(),
        }
    }

    fn apply_action(&self, _rng: &mut Lcg, action: &Mv) -> Result<G, String> {
        if self.kind == APPLY_FAILS {
            return Err(String::from("application rejected"));
        }
        let id = match (self.kind, self.id, action.0) {
            (TWO_BRANCH, 0, 0) => 1,
            (TWO_BRANCH, 0, 1) => 2,
            (SINGLE_WIN, 0, 7) => 1,
            (DRAW_GAME, 0, 3) => 1,
            (ESCAPE_GAME, 0, 4) => 1,
            (ESCAPE_GAME, 0, 5) => 2,
            (ESCAPE_GAME, 1, 6) => 3,
            (ESCAPE_GAME, 2, 6) => 4,
            (DEEP_GAME, 0, 0) => 1,
            (DEEP_GAME, 0, 1) => 2,
            (DEEP_GAME, 1, 0) => 3,
            (DEEP_GAME, 1, 1) => 4,
            (DEEP_GAME, 2, 0) => 5,
            _ => return Err(String::from("no such transition")),
        };
        Ok(G { kind: self.kind, id })
    }

    fn outcome(&self) -> Option<Outcome<Pl>> {
        match (self.kind, self.id) {
            (TWO_BRANCH, 1) => Some(Outcome::Winner(Pl(1))),
            (TWO_BRANCH, 2) => Some(Outcome::Winner(Pl(2))),
            (SINGLE_WIN, 1) => Some(Outcome::Winner(Pl(1))),
            (DRAW_GAME, 1) => Some(Outcome::Draw(vec![Pl(1), Pl(2)])),
            (TERMINAL_ROOT, 0) => Some(Outcome::Winner(Pl(1))),
            (DEEP_GAME, 3) => Some(Outcome::Winner(Pl(1))),
            (DEEP_GAME, 4) => Some(Outcome::Winner(Pl(2))),
            (DEEP_GAME, 5) => Some(Outcome::Winner(Pl(2))),
            _ => None,
        }
    }

    fn current_player(&self) -> Pl {
        Pl(1)
    }

    fn clone_state(&self) -> G {
        self.clone()
    }
}

impl Determinable<Lcg, G, Mv, Pl> for G {
    fn determine(&self, rng: &mut Lcg, _perspective_player: Pl) -> G {
        // A fully observable sample; one word is drawn so distinct
        // determinization streams are visible to tests.
        let _ = rng.next_u32();
        self.clone()
    }
}

fn child_index(tree: &GameTree<G, Mv, Pl>, action: u8) -> usize {
    let nodes = tree.graph();
    for (i, node) in nodes.iter().enumerate() {
        if let Some(edge) = &node.in_edge {
            if node.parent == Some(0) && edge.action == Mv(action) {
                return i;
            }
        }
    }
    panic!("no root child for the action");
}

fn player_score(node: &GameTreeNode<G, Mv, Pl>, player: Pl) -> u32 {
    node.get_player_score(player)
}

#[test]
fn new_tree_has_one_unvisited_node() {
    let tree: GameTree<G, Mv, Pl> = GameTree::new(G::new(TWO_BRANCH));
    assert_eq!(tree.graph().len(), 1);
    assert_eq!(tree.graph()[0].num_visits, 0);
    assert!(tree.graph()[0].scores.is_empty());
    assert!(tree.best_action().is_none());
}

#[test]
fn search_zero_iterations_is_noop() {
    let mut tree: GameTree<G, Mv, Pl> = GameTree::new(G::new(TWO_BRANCH));
    let mut rng = Lcg(5);
    tree.search_n(&mut rng, 0).unwrap();
    assert_eq!(tree.graph().len(), 1);
    assert_eq!(tree.graph()[0].num_visits, 0);
    assert!(tree.best_action().is_none());
}

#[test]
fn single_action_win_after_one_iteration() {
    let mut tree: GameTree<G, Mv, Pl> = GameTree::new(G::new(SINGLE_WIN));
    let mut rng = Lcg(5);
    tree.search_n(&mut rng, 1).unwrap();
    assert_eq!(tree.graph()[0].num_visits, 1);
    let child = child_index(&tree, 7);
    assert_eq!(tree.graph()[child].num_visits, 1);
    assert_eq!(player_score(&tree.graph()[child], Pl(1)), 1);
    assert_eq!(tree.best_action(), Some(&Mv(7)));
}

#[test]
fn two_branch_choice_exploits_the_win() {
    let mut tree: GameTree<G, Mv, Pl> = GameTree::new(G::new(TWO_BRANCH));
    let mut rng = Lcg(99);
    tree.search_n(&mut rng, 1000).unwrap();
    let a = child_index(&tree, 0);
    let b = child_index(&tree, 1);
    assert!(tree.graph()[a].num_visits > tree.graph()[b].num_visits);
    assert_eq!(tree.best_action(), Some(&Mv(0)));
}

#[test]
fn draw_scores_both_players_each_iteration() {
    let mut tree: GameTree<G, Mv, Pl> = GameTree::new(G::new(DRAW_GAME));
    let mut rng = Lcg(11);
    tree.search_n(&mut rng, 5).unwrap();
    let child = child_index(&tree, 3);
    assert_eq!(tree.graph()[child].num_visits, 5);
    assert_eq!(player_score(&tree.graph()[child], Pl(1)), 5);
    assert_eq!(player_score(&tree.graph()[child], Pl(2)), 5);
    // Draws leave the edge counter at its creation value.
    assert_eq!(tree.graph()[child].in_edge.as_ref().unwrap().num_visits, 1);
}

#[test]
fn visits_stay_within_the_iteration_budget() {
    let mut tree: GameTree<G, Mv, Pl> = GameTree::new(G::new(DEEP_GAME));
    let mut rng = Lcg(123);
    tree.search_n(&mut rng, 17).unwrap();
    for node in tree.graph() {
        assert!(node.num_visits <= 17);
    }
}

#[test]
fn scores_stay_within_visits() {
    let mut tree: GameTree<G, Mv, Pl> = GameTree::new(G::new(DEEP_GAME));
    let mut rng = Lcg(7);
    tree.search_n(&mut rng, 40).unwrap();
    for node in tree.graph() {
        for (_, score) in &node.scores {
            assert!(*score <= node.num_visits);
        }
    }
}

#[test]
fn every_non_root_node_has_one_incoming_edge() {
    let mut tree: GameTree<G, Mv, Pl> = GameTree::new(G::new(DEEP_GAME));
    let mut rng = Lcg(21);
    tree.search_n(&mut rng, 25).unwrap();
    let nodes = tree.graph();
    for target in 0..nodes.len() {
        let mut incoming = 0;
        for node in nodes.iter() {
            incoming += node.children.iter().filter(|c| **c == target).count();
        }
        if target == 0 {
            assert_eq!(incoming, 0);
            assert!(nodes[target].in_edge.is_none());
        } else {
            assert_eq!(incoming, 1);
            assert!(nodes[target].in_edge.is_some());
        }
    }
}

#[test]
fn unvisited_sibling_selected_before_visited_one() {
    let mut tree: GameTree<G, Mv, Pl> = GameTree::new(G::new(TWO_BRANCH));
    let mut rng = Lcg(17);
    tree.search_n(&mut rng, 2).unwrap();
    // The first iteration expands both children and visits the first; the
    // second must pick the still-unvisited sibling over the visited one.
    let a = child_index(&tree, 0);
    let b = child_index(&tree, 1);
    assert_eq!(tree.graph()[a].num_visits, 1);
    assert_eq!(tree.graph()[b].num_visits, 1);
}

#[test]
fn terminal_root_only_counts_visits() {
    let mut tree: GameTree<G, Mv, Pl> = GameTree::new(G::new(TERMINAL_ROOT));
    assert!(tree.best_action().is_none());
    let mut rng = Lcg(2);
    tree.search_n(&mut rng, 3).unwrap();
    assert_eq!(tree.graph().len(), 1);
    assert_eq!(tree.graph()[0].num_visits, 3);
    assert!(tree.best_action().is_none());
}

#[test]
fn escaping_rollouts_count_visits_but_no_scores() {
    let mut tree: GameTree<G, Mv, Pl> = GameTree::new(G::new(ESCAPE_GAME));
    let mut rng = Lcg(4);
    tree.search_n(&mut rng, 3).unwrap();
    for node in tree.graph() {
        assert!(node.scores.is_empty());
    }
    assert_eq!(tree.graph()[0].num_visits, 3);
    let first = child_index(&tree, 4);
    let second = child_index(&tree, 5);
    assert_eq!(tree.graph()[first].num_visits, 2);
    assert_eq!(tree.graph()[second].num_visits, 1);
    // With no scores anywhere, the tie-break hands back the first child.
    assert_eq!(tree.best_action(), Some(&Mv(4)));
    // Selecting an action-less, outcome-less leaf again is the protocol
    // violation the search reports.
    let mut more = tree.search(&mut rng);
    for _ in 0..4 {
        if more.is_err() {
            break;
        }
        more = tree.search(&mut rng);
    }
    assert!(matches!(more, Err(SearchError::NoActionsToExpand)));
}

fn assert_trees_equal(t1: &GameTree<G, Mv, Pl>, t2: &GameTree<G, Mv, Pl>) {
    let n1 = t1.graph();
    let n2 = t2.graph();
    assert_eq!(n1.len(), n2.len());
    for (a, b) in n1.iter().zip(n2.iter()) {
        assert_eq!(a.num_visits, b.num_visits);
        assert_eq!(a.scores, b.scores);
        assert_eq!(a.children, b.children);
        assert_eq!(a.parent, b.parent);
        match (&a.in_edge, &b.in_edge) {
            (None, None) => {}
            (Some(e1), Some(e2)) => {
                assert_eq!(e1.action, e2.action);
                assert_eq!(e1.num_visits, e2.num_visits);
            }
            _ => panic!("edges differ"),
        }
    }
}

#[test]
fn split_search_equals_one_combined_search() {
    let mut tree_split: GameTree<G, Mv, Pl> = GameTree::new(G::new(DEEP_GAME));
    let mut rng_split = Lcg(31337);
    tree_split.search_n(&mut rng_split, 12).unwrap();
    tree_split.search_n(&mut rng_split, 18).unwrap();

    let mut tree_joint: GameTree<G, Mv, Pl> = GameTree::new(G::new(DEEP_GAME));
    let mut rng_joint = Lcg(31337);
    tree_joint.search_n(&mut rng_joint, 30).unwrap();

    assert_trees_equal(&tree_split, &tree_joint);
}

#[test]
fn winner_backprop_counts_edge_visits() {
    let mut tree: GameTree<G, Mv, Pl> = GameTree::new(G::new(SINGLE_WIN));
    let mut rng = Lcg(8);
    tree.search_n(&mut rng, 3).unwrap();
    let child = child_index(&tree, 7);
    // Created with one visit, then one more per winning back-propagation.
    assert_eq!(tree.graph()[child].in_edge.as_ref().unwrap().num_visits, 4);
    assert_eq!(tree.graph()[child].num_visits, 3);
}

#[test]
fn apply_failure_surfaces_and_leaves_statistics() {
    let mut tree: GameTree<G, Mv, Pl> = GameTree::new(G::new(APPLY_FAILS));
    let mut rng = Lcg(3);
    let result = tree.search(&mut rng);
    assert!(matches!(result, Err(SearchError::ApplyActionFailed(_))));
    assert_eq!(tree.graph()[0].num_visits, 0);
}

#[test]
fn actionless_nonterminal_state_fails_expansion() {
    let mut tree: GameTree<G, Mv, Pl> = GameTree::new(G::new(NO_ACTIONS));
    let mut rng = Lcg(3);
    let result = tree.search(&mut rng);
    assert!(matches!(result, Err(SearchError::NoActionsToExpand)));
}

#[test]
fn rollout_reports_escape_when_stuck() {
    let stuck = G {
        kind: ESCAPE_GAME,
        id: 3,
    };
    let mut rng = Lcg(12);
    match random_rollout(&stuck, &mut rng).unwrap() {
        Outcome::Escape(reason) => assert_eq!(reason, "No actions available."),
        _ => panic!("expected an escape"),
    }
}

#[test]
fn root_scores_flatten_child_statistics() {
    let mut tree: GameTree<G, Mv, Pl> = GameTree::new(G::new(TWO_BRANCH));
    let mut rng = Lcg(10);
    tree.search_n(&mut rng, 1).unwrap();
    let records = tree.root_scores();
    assert_eq!(records.len(), 1);
    assert_eq!(records[0].action, Mv(0));
    assert_eq!(records[0].player, Pl(1));
    assert_eq!(records[0].score, 1);
    assert_eq!(records[0].num_visits, 1);
}

#[test]
fn aggregation_totals_per_action_and_player() {
    let records = vec![
        Score { action: Mv(0), player: Pl(1), score: 5, num_visits: 9 },
        Score { action: Mv(1), player: Pl(2), score: 20, num_visits: 30 },
        Score { action: Mv(0), player: Pl(1), score: 7, num_visits: 11 },
        Score { action: Mv(1), player: Pl(1), score: 3, num_visits: 30 },
    ];
    assert_eq!(choose_best_action(&records, Pl(1)), Some(Mv(0)));
    assert_eq!(choose_best_action(&records, Pl(2)), Some(Mv(1)));
}

#[test]
fn aggregation_breaks_ties_by_first_appearance() {
    let records = vec![
        Score { action: Mv(4), player: Pl(1), score: 6, num_visits: 6 },
        Score { action: Mv(2), player: Pl(1), score: 6, num_visits: 6 },
    ];
    assert_eq!(choose_best_action(&records, Pl(1)), Some(Mv(4)));
}

#[test]
fn aggregation_of_nothing_is_none() {
    let records: Vec<Score<Mv, Pl>> = Vec::new();
    assert_eq!(choose_best_action(&records, Pl(1)), None);
}

#[test]
fn ismcts_is_deterministic_for_a_fixed_seed() {
    let state = G::new(TWO_BRANCH);
    let first = ismcts(&state, &Lcg(77), 4, 100);
    let second = ismcts(&state, &Lcg(77), 4, 100);
    assert_eq!(first, second);
    assert_eq!(first, Some(Mv(0)));
}

#[test]
fn advanced_rng_clones_diverge() {
    let base = Lcg(42);
    let mut zero = clone_and_advance_rng(&base, 0);
    let mut one = clone_and_advance_rng(&base, 1);
    let first_word = zero.next_u32();
    let second_word = zero.next_u32();
    assert_eq!(one.next_u32(), second_word);
    assert_ne!(first_word, second_word);
}

#[test]
fn mcts_entry_point_picks_the_winning_branch() {
    let mut rng = Lcg(1234);
    assert_eq!(mcts(&G::new(TWO_BRANCH), &mut rng, 200), Some(Mv(0)));
    assert_eq!(mcts::<Lcg, G, Mv, Pl>(&G::new(TERMINAL_ROOT), &mut rng, 10), None);
}

#[test]
fn plain_agent_decides_by_search() {
    let agent = ismcts_engine::mcts::Agent::new(Pl(1), 150);
    assert_eq!(MctsAgent::player(&agent), Pl(1));
    let mut rng = Lcg(55);
    let decision: Option<Mv> = agent.decide(&mut rng, &G::new(TWO_BRANCH));
    assert_eq!(decision, Some(Mv(0)));
}

#[test]
fn information_set_agents_decide_by_search() {
    let agent = ismcts_engine::ismcts::Agent::new(Pl(1), 3, 80);
    assert_eq!(IsMctsAgent::player(&agent), Pl(1));
    let mut rng = Lcg(56);
    let decision: Option<Mv> = agent.decide(&mut rng, &G::new(TWO_BRANCH));
    assert_eq!(decision, Some(Mv(0)));

    let mt_agent = MtAgent::new(Pl(1), 3, 80);
    assert_eq!(IsMctsMtAgent::player(&mt_agent), Pl(1));
    let mut rng = Lcg(57);
    let decision: Option<Mv> = mt_agent.decide(&mut rng, &G::new(TWO_BRANCH));
    assert_eq!(decision, Some(Mv(0)));
}

#[test]
fn driver_plays_a_match_to_its_outcome() {
    let agents = vec![(Pl(1), MtAgent::new(Pl(1), 2, 60))];
    let mut game = MultithreadedInformationSetGame::new(Lcg(9), G::new(TWO_BRANCH), agents);
    assert!(!game.is_terminated());
    game.run().unwrap();
    assert!(game.is_terminated());
    match game.outcome() {
        Some(Outcome::Winner(p)) => assert_eq!(p, Pl(1)),
        _ => panic!("expected a winner"),
    }
}

#[test]
fn driver_reports_a_missing_agent() {
    let agents: Vec<(Pl, MtAgent<Pl>)> = Vec::new();
    let mut game = MultithreadedInformationSetGame::new(Lcg(9), G::new(TWO_BRANCH), agents);
    let result = game.step();
    assert!(matches!(
        result,
        Err(MultithreadedInformationSetGameError::NoAgentForPlayer(Pl(1)))
    ));
}

#[test]
fn zero_budgets_yield_no_action() {
    let mut rng = Lcg(1);
    assert_eq!(mcts(&G::new(TWO_BRANCH), &mut rng, 0), None);
    assert_eq!(ismcts(&G::new(TWO_BRANCH), &Lcg(1), 0, 50), None);
}

#[test]
fn successful_search_runs_the_whole_budget() {
    let mut tree: GameTree<G, Mv, Pl> = GameTree::new(G::new(DEEP_GAME));
    let mut rng = Lcg(64);
    tree.search_n(&mut rng, 23).unwrap();
    assert_eq!(tree.graph()[0].num_visits, 23);
}

#[test]
fn missing_player_scores_zero() {
    let mut tree: GameTree<G, Mv, Pl> = GameTree::new(G::new(SINGLE_WIN));
    let mut rng = Lcg(5);
    tree.search_n(&mut rng, 2).unwrap();
    let child = child_index(&tree, 7);
    assert_eq!(player_score(&tree.graph()[child], Pl(9)), 0);
}
