//! The arena-allocated game tree and the Monte Carlo search over it.
//!
//! Nodes live in one vector; index zero is the root. Every non-root node
//! stores its parent's index and the edge that leads to it, and every node
//! lists its children's indices in creation order, so each non-root node has
//! exactly one incoming edge by construction. Selection descends by the
//! fixed-point UCB1 weight, expansion appends all successors of a leaf,
//! rollouts play to completion at random, and back-propagation walks the
//! visited path updating visit counters and per-player scores.

use vstd::prelude::*;
use crate::node::bump_stats;
use crate::node::lemma_push_contains;
use crate::node::lookup_score;
use crate::node::players_distinct;
use crate::node::GameTreeEdge;
use crate::node::GameTreeNode;
use crate::node::Score;
use crate::numeric::first_argmax;
use crate::numeric::lemma_finite_weight_below_infinite;
use crate::numeric::lemma_first_argmax_props;
use crate::numeric::lemma_first_argmax_step;
use crate::numeric::select_weight;
use crate::numeric::select_weight_spec;
use crate::numeric::INFINITE_WEIGHT;
use crate::rollout::random_rollout;
use crate::Action;
use crate::Outcome;
use crate::Player;
use crate::RandomSource;
use crate::State;

verus! {

/// An error surfaced by a search iteration: the game broke its contract.
#[derive(Debug)]
pub enum SearchError<E> {
    /// Expansion reached a state with no legal action and no outcome.
    NoActionsToExpand,
    /// The game's successor function rejected an action it listed.
    ApplyActionFailed(E),
}

/// The search tree: a node arena rooted at index zero.
pub struct GameTree<S, A, P> {
    pub root_node_idx: usize,
    pub nodes: Vec<GameTreeNode<S, A, P>>,
}

impl<S, A, P> GameTree<S, A, P> {
    /// How many nodes the arena holds.
    pub open spec fn node_count(self) -> nat {
        self.nodes@.len()
    }

    /// The arena's nodes as a sequence.
    pub open spec fn nodes_seq(self) -> Seq<GameTreeNode<S, A, P>> {
        self.nodes@
    }

    /// The visit counter of the node at an index.
    pub open spec fn visits_at(self, i: int) -> nat {
        self.nodes@[i].num_visits as nat
    }

    /// The cumulative score of a player at a node.
    pub open spec fn score_at(self, i: int, player: P) -> nat {
        lookup_score(self.nodes@[i].scores@, player)
    }

    /// The indices of a node's children, in creation order.
    pub open spec fn children_at(self, i: int) -> Seq<usize> {
        self.nodes@[i].children@
    }

    /// The root's visit counter: one per completed search iteration.
    pub open spec fn root_visits(self) -> nat {
        self.visits_at(0)
    }

    /// Structural and statistical soundness of one node.
    pub open spec fn node_wf(self, i: int) -> bool {
        let n = self.nodes@[i];
        &&& players_distinct(n.scores@)
        &&& forall|q: P| #[trigger] lookup_score(n.scores@, q) <= n.num_visits
        &&& (if i == 0 {
            n.parent is None && n.in_edge is None
        } else {
            &&& n.parent is Some
            &&& 0 <= n.parent->0 < i
            &&& n.in_edge is Some
            &&& n.in_edge->0.num_visits <= n.num_visits + 1
            &&& n.num_visits <= self.nodes@[n.parent->0 as int].num_visits
            &&& self.nodes@[n.parent->0 as int].children@.contains(i as usize)
        })
        &&& forall|a: int, b: int|
            0 <= a < b < n.children@.len() ==> (#[trigger] n.children@[a]) < (
            #[trigger] n.children@[b])
        &&& forall|a: int|
            0 <= a < n.children@.len() ==> i < (#[trigger] n.children@[a]) < self.nodes@.len()
                && self.nodes@[n.children@[a] as int].parent == Some(i as usize)
    }

    /// The tree's invariant: rooted at index zero, every node sound.
    pub open spec fn wf(self) -> bool {
        &&& self.root_node_idx == 0
        &&& self.nodes@.len() >= 1
        &&& forall|i: int| 0 <= i < self.nodes@.len() ==> self.node_wf(i)
    }
}

/// Every node's visit counter is bounded by the root's: each back-propagated
/// path starts at the root.
pub proof fn lemma_visits_le_root<S, A, P>(t: GameTree<S, A, P>, i: int)
    requires
        t.wf(),
        0 <= i < t.node_count(),
    ensures
        t.visits_at(i) <= t.root_visits(),
    decreases i,
{
    if i > 0 {
        assert(t.node_wf(i));
        let p = t.nodes_seq()[i].parent->0 as int;
        lemma_visits_le_root(t, p);
    }
}

/// Every node's visit counter stays within the iteration budget: after `k`
/// completed iterations the root holds at most `k` visits, and with it every
/// node.
pub proof fn lemma_visit_bound<S, A, P>(t: GameTree<S, A, P>, k: nat)
    requires
        t.wf(),
        t.root_visits() <= k,
    ensures
        forall|i: int| 0 <= i < t.node_count() ==> #[trigger] t.visits_at(i) <= k,
{
    assert forall|i: int| 0 <= i < t.node_count() implies #[trigger] t.visits_at(i) <= k by {
        lemma_visits_le_root(t, i);
    }
}

/// No player's cumulative score at a node exceeds the node's visit counter:
/// one back-propagation adds at most one point per player.
pub proof fn lemma_score_bounded_by_visits<S, A, P>(t: GameTree<S, A, P>, i: int, player: P)
    requires
        t.wf(),
        0 <= i < t.node_count(),
    ensures
        t.score_at(i, player) <= t.visits_at(i),
{
    assert(t.node_wf(i));
}

/// The sum of every player's recorded score at a node is bounded by the
/// node's visit counter times the number of scoring players: each visit
/// adds one point to the winner, or one to each drawing player.
pub proof fn lemma_score_sum_bounded<S, A, P>(t: GameTree<S, A, P>, i: int)
    requires
        t.wf(),
        0 <= i < t.node_count(),
    ensures
        crate::node::sum_scores(t.nodes_seq()[i].scores@) <= t.nodes_seq()[i].scores@.len()
            * t.visits_at(i),
{
    assert(t.node_wf(i));
    crate::node::lemma_sum_scores_bound(t.nodes_seq()[i].scores@, t.visits_at(i) as int);
}

/// The arena is a rooted tree: the root hangs off no child list, and every
/// child sits strictly above its parent in the arena, so following parent
/// links always descends and can close no cycle.
pub proof fn lemma_rooted_tree_structure<S, A, P>(t: GameTree<S, A, P>)
    requires
        t.wf(),
    ensures
        forall|i: int, a: int|
            0 <= i < t.node_count() && 0 <= a < t.children_at(i).len() ==> (
            #[trigger] t.children_at(i)[a]) != 0,
        forall|i: int|
            1 <= i < t.node_count() ==> (#[trigger] t.nodes_seq()[i]).parent is Some
                && t.nodes_seq()[i].parent->0 < i,
{
    assert forall|i: int, a: int|
        0 <= i < t.node_count() && 0 <= a < t.children_at(i).len() implies (
    #[trigger] t.children_at(i)[a]) != 0 by {
        assert(t.node_wf(i));
    }
    assert forall|i: int|
        1 <= i < t.node_count() implies (#[trigger] t.nodes_seq()[i]).parent is Some
        && t.nodes_seq()[i].parent->0 < i by {
        assert(t.node_wf(i));
    }
}

/// Each non-root node has exactly one incoming edge: it hangs off its
/// parent's child list and off no other node's.
pub proof fn lemma_unique_incoming_edge<S, A, P>(t: GameTree<S, A, P>, c: usize)
    requires
        t.wf(),
        1 <= c < t.node_count(),
    ensures
        t.children_at(t.nodes_seq()[c as int].parent->0 as int).contains(c),
        forall|i: int|
            0 <= i < t.node_count() && (#[trigger] t.children_at(i)).contains(c) ==> i
                == t.nodes_seq()[c as int].parent->0 as int,
        forall|i: int, a: int, b: int|
            0 <= i < t.node_count() && 0 <= a < b < t.children_at(i).len() ==> !((
            #[trigger] t.children_at(i)[a]) == c && (#[trigger] t.children_at(i)[b]) == c),
{
    assert(t.node_wf(c as int));
    assert forall|i: int|
        0 <= i < t.node_count() && (#[trigger] t.children_at(i)).contains(c) implies i
        == t.nodes_seq()[c as int].parent->0 as int by {
        assert(t.node_wf(i));
        let a = choose|a: int| 0 <= a < t.children_at(i).len() && t.children_at(i)[a] == c;
        assert(t.nodes_seq()[i].children@[a] == c);
        assert(t.nodes_seq()[c as int].parent == Some(i as usize));
    }
    assert forall|i: int, a: int, b: int|
        0 <= i < t.node_count() && 0 <= a < b < t.children_at(i).len() implies !((
    #[trigger] t.children_at(i)[a]) == c && (#[trigger] t.children_at(i)[b]) == c) by {
        assert(t.node_wf(i));
    }
}

impl<S, A, P> GameTree<S, A, P> {
    /// A fresh tree: one unvisited root node holding the given state.
    pub fn new(state: S) -> (r: Self)
        ensures
            r.wf(),
            r.node_count() == 1,
            r.root_visits() == 0,
            r.nodes_seq()[0].state == state,
            r.nodes_seq()[0].scores@.len() == 0,
            r.children_at(0).len() == 0,
    {
        let mut nodes: Vec<GameTreeNode<S, A, P>> = Vec::new();
        nodes.push(GameTreeNode::new(state));
        let r = Self { root_node_idx: 0, nodes };
        proof {
            assert forall|q: P| #[trigger] lookup_score(r.nodes_seq()[0].scores@, q) == 0 by {
                assert(r.nodes_seq()[0].scores@.len() == 0);
            }
            assert(r.node_wf(0));
        }
        r
    }

    /// The node arena itself, read-only: node zero is the root.
    pub fn graph(&self) -> (r: &Vec<GameTreeNode<S, A, P>>)
        ensures
            r@ == self.nodes_seq(),
    {
        &self.nodes
    }

    /// The selection weight of the child at arena index `c`, from the
    /// perspective player's point of view.
    pub open spec fn child_weight_spec(self, c: int, perspective_player: P) -> nat {
        select_weight_spec(
            lookup_score(self.nodes@[c].scores@, perspective_player),
            self.nodes@[c].num_visits as nat,
            self.nodes@[self.nodes@[c].parent->0 as int].num_visits as nat,
        )
    }

    /// The weights of a node's children, in child order.
    pub open spec fn child_weights(self, i: int, perspective_player: P) -> Seq<int> {
        Seq::new(
            self.children_at(i).len(),
            |k: int| self.child_weight_spec(self.children_at(i)[k] as int, perspective_player)
                as int,
        )
    }

    /// The child that selection picks at node `i`: the first maximum of the
    /// weights in child order.
    pub open spec fn selected_child(self, i: int, perspective_player: P) -> usize {
        self.children_at(i)[first_argmax(self.child_weights(i, perspective_player))]
    }

    /// The fixed-point UCB1 weight of a non-root node.
    fn ucbt_value(&self, node_idx: usize, perspective_player: P) -> (r: u64)
        where P: Player,
        requires
            self.wf(),
            1 <= node_idx < self.node_count(),
        ensures
            r as nat == self.child_weight_spec(node_idx as int, perspective_player),
    {
        proof {
            assert(self.node_wf(node_idx as int));
        }
        let node = &self.nodes[node_idx];
        let score = node.get_player_score(perspective_player);
        match node.parent {
            Some(p) => {
                let parent_visits = self.nodes[p].num_visits;
                select_weight(score, node.num_visits, parent_visits)
            }
            None => {
                proof {
                    assert(false);
                }
                0
            }
        }
    }

    /// Picks the child of `node_idx` with the greatest selection weight,
    /// first maximum winning; an unvisited child always wins over visited
    /// ones.
    fn select(&self, node_idx: usize, perspective_player: P) -> (r: usize)
        where P: Player,
        requires
            self.wf(),
            node_idx < self.node_count(),
            self.children_at(node_idx as int).len() >= 1,
        ensures
            r == self.selected_child(node_idx as int, perspective_player),
            self.children_at(node_idx as int).contains(r),
            node_idx < r < self.node_count(),
    {
        let ghost ws = self.child_weights(node_idx as int, perspective_player);
        proof {
            lemma_first_argmax_props(ws);
            assert(self.node_wf(node_idx as int));
        }
        let children = &self.nodes[node_idx].children;
        let first_child = children[0];
        let mut best_k: usize = 0;
        let mut best_w: u64 = self.ucbt_value(first_child, perspective_player);
        let mut k: usize = 1;
        while k < children.len()
            invariant
                self.wf(),
                node_idx < self.node_count(),
                children@ == self.children_at(node_idx as int),
                ws == self.child_weights(node_idx as int, perspective_player),
                1 <= k <= children@.len(),
                best_k < k,
                best_k == first_argmax(ws.take(k as int)),
                best_w as int == ws[best_k as int],
            decreases children@.len() - k,
        {
            proof {
                assert(self.node_wf(node_idx as int));
            }
            let c = children[k];
            let w = self.ucbt_value(c, perspective_player);
            proof {
                lemma_first_argmax_step(ws, k as int);
                lemma_first_argmax_props(ws.take(k as int));
                assert(ws.take(k as int)[best_k as int] == ws[best_k as int]);
            }
            if w > best_w {
                best_k = k;
                best_w = w;
            }
            k = k + 1;
        }
        proof {
            assert(ws.take(children@.len() as int) =~= ws);
            lemma_first_argmax_props(ws);
            assert(self.children_at(node_idx as int)[best_k as int] == children@[best_k as int]);
        }
        children[best_k]
    }
}

impl<S, A, P> GameTree<S, A, P> {
    /// Expands a leaf: every legal action of its state becomes a fresh,
    /// unvisited child holding a successor state.
    fn expand<Rn: RandomSource>(&mut self, rng: &mut Rn, node_idx: usize) -> (r: Result<
        (),
        SearchError<S::Error>,
    >)
        where S: State<Rn, A, P>, A: Action, P: Player,
        requires
            old(self).wf(),
            node_idx < old(self).node_count(),
            old(self).children_at(node_idx as int).len() == 0,
        ensures
            final(self).wf(),
            final(self).node_count() >= old(self).node_count(),
            forall|i: int|
                0 <= i < old(self).node_count() && i != node_idx
                    ==> final(self).nodes_seq()[i] == old(self).nodes_seq()[i],
            (final(self).nodes_seq()[node_idx as int].state == old(self).nodes_seq()[node_idx
                as int].state),
            (final(self).nodes_seq()[node_idx as int].num_visits == old(
                self,
            ).nodes_seq()[node_idx as int].num_visits),
            (final(self).nodes_seq()[node_idx as int].scores == old(self).nodes_seq()[node_idx
                as int].scores),
            (final(self).nodes_seq()[node_idx as int].parent == old(self).nodes_seq()[node_idx
                as int].parent),
            (final(self).nodes_seq()[node_idx as int].in_edge == old(self).nodes_seq()[node_idx
                as int].in_edge),
            forall|i: int|
                old(self).node_count() <= i < final(self).node_count() ==> ((
                #[trigger] final(self).nodes_seq()[i]).num_visits == 0
                    && final(self).nodes_seq()[i].scores@.len() == 0
                    && final(self).nodes_seq()[i].parent == Some(node_idx)),
            r is Ok ==> final(self).children_at(node_idx as int).len() >= 1,
    {
        let actions = self.nodes[node_idx].state.actions();
        if actions.len() == 0 {
            return Err(SearchError::NoActionsToExpand);
        }
        let num_actions = actions.len();
        let mut j: usize = 0;
        while j < num_actions
            invariant
                self.wf(),
                node_idx < self.node_count(),
                old(self).node_count() <= self.node_count(),
                j <= num_actions,
                num_actions == actions@.len(),
                forall|i: int|
                    0 <= i < old(self).node_count() && i != node_idx
                        ==> self.nodes_seq()[i] == old(self).nodes_seq()[i],
                (self.nodes_seq()[node_idx as int].state == old(self).nodes_seq()[node_idx
                    as int].state),
                (self.nodes_seq()[node_idx as int].num_visits == old(self).nodes_seq()[node_idx
                    as int].num_visits),
                (self.nodes_seq()[node_idx as int].scores == old(self).nodes_seq()[node_idx
                    as int].scores),
                (self.nodes_seq()[node_idx as int].parent == old(self).nodes_seq()[node_idx
                    as int].parent),
                (self.nodes_seq()[node_idx as int].in_edge == old(self).nodes_seq()[node_idx
                    as int].in_edge),
                forall|i: int|
                    old(self).node_count() <= i < self.node_count() ==> ((
                    #[trigger] self.nodes_seq()[i]).num_visits == 0
                        && self.nodes_seq()[i].scores@.len() == 0
                        && self.nodes_seq()[i].parent == Some(node_idx)),
                self.children_at(node_idx as int).len() == j,
            decreases num_actions - j,
        {
            let action = actions[j].clone_action();
            let applied = self.nodes[node_idx].state.apply_action(rng, &action);
            let child_state = match applied {
                Ok(s2) => s2,
                Err(e) => {
                    return Err(SearchError::ApplyActionFailed(e));
                },
            };
            let ghost prev = *self;
            let new_idx = self.nodes.len();
            let mut child = GameTreeNode::new(child_state);
            child.parent = Some(node_idx);
            child.in_edge = Some(GameTreeEdge::new(action));
            self.nodes.push(child);
            self.nodes[node_idx].children.push(new_idx);
            proof {
                let cur = *self;
                assert(cur.nodes_seq()[node_idx as int].children@ =~= prev.nodes_seq()[node_idx
                    as int].children@.push(new_idx));
                assert(cur.nodes_seq()[new_idx as int].parent == Some(node_idx));
                assert forall|q: P|
                    #[trigger] lookup_score(cur.nodes_seq()[new_idx as int].scores@, q) == 0 by {
                    assert(cur.nodes_seq()[new_idx as int].scores@.len() == 0);
                }
                assert forall|i: int| 0 <= i < cur.node_count() implies cur.node_wf(i) by {
                    if i == new_idx as int {
                        assert(prev.node_wf(node_idx as int));
                        assert(cur.nodes_seq()[node_idx as int].children@[j as int] == new_idx);
                    } else if i == node_idx as int {
                        assert(prev.node_wf(i));
                        if node_idx > 0 {
                            let par = prev.nodes_seq()[node_idx as int].parent->0 as int;
                            assert(prev.node_wf(par));
                            assert(cur.nodes_seq()[par] == prev.nodes_seq()[par]);
                        }
                    } else {
                        assert(prev.node_wf(i));
                        if i > 0 {
                            let par = prev.nodes_seq()[i].parent->0 as int;
                            assert(prev.node_wf(par));
                            if par == node_idx as int {
                                let a = choose|a: int|
                                    0 <= a < prev.children_at(par).len() && prev.children_at(
                                        par,
                                    )[a] == i as usize;
                                assert(cur.children_at(par)[a] == i as usize);
                            }
                        }
                    }
                }
            }
            j = j + 1;
        }
        Ok(())
    }
}

impl<S, A, P> GameTree<S, A, P> {
    /// A visited path of one search iteration: it starts at the root and
    /// each later entry is a child of the one before it.
    pub open spec fn is_visit_path(self, path: Seq<usize>) -> bool {
        &&& path.len() >= 1
        &&& path[0] == 0
        &&& forall|k: int| 0 <= k < path.len() ==> (#[trigger] path[k]) < self.node_count()
        &&& forall|k: int|
            1 <= k < path.len() ==> self.nodes_seq()[(#[trigger] path[k]) as int].parent == Some(
                path[k - 1],
            )
    }
}

/// A visit path ascends strictly: every child's arena index exceeds its
/// parent's.
pub proof fn lemma_path_increasing<S, A, P>(
    t: GameTree<S, A, P>,
    path: Seq<usize>,
    k1: int,
    k2: int,
)
    requires
        t.wf(),
        t.is_visit_path(path),
        0 <= k1 < k2 < path.len(),
    ensures
        path[k1] < path[k2],
    decreases k2 - k1,
{
    assert(t.nodes_seq()[path[k2] as int].parent == Some(path[k2 - 1]));
    assert(t.node_wf(path[k2] as int));
    if k1 < k2 - 1 {
        lemma_path_increasing(t, path, k1, k2 - 1);
    }
}

impl<S, A, P> GameTree<S, A, P> {
    /// Walks the visited path and folds the outcome into every node on it:
    /// one more visit each; `Winner` adds a point to the winner and a visit
    /// to each non-root path edge; `Draw` adds a point to each drawing
    /// player; `Escape` leaves all scores unchanged.
    fn back_propagate(&mut self, visited_nodes: Vec<usize>, outcome: Outcome<P>)
        where A: Action, P: Player,
        requires
            old(self).wf(),
            old(self).is_visit_path(visited_nodes@),
            old(self).root_visits() + 2 <= u32::MAX,
        ensures
            final(self).wf(),
            final(self).node_count() == old(self).node_count(),
            forall|i: int|
                0 <= i < old(self).node_count() ==> ((#[trigger] final(self).nodes_seq()[i]).state
                    == old(self).nodes_seq()[i].state && final(self).nodes_seq()[i].children == old(
                    self,
                ).nodes_seq()[i].children && final(self).nodes_seq()[i].parent == old(
                    self,
                ).nodes_seq()[i].parent),
            forall|i: int|
                0 <= i < old(self).node_count() ==> #[trigger] final(self).visits_at(i) == old(
                    self,
                ).visits_at(i) + (if visited_nodes@.contains(i as usize) {
                    1int
                } else {
                    0
                }),
            forall|i: int, q: P|
                0 <= i < old(self).node_count() ==> #[trigger] final(self).score_at(i, q) == old(
                    self,
                ).score_at(i, q) + (match outcome {
                    Outcome::Winner(p) => if visited_nodes@.contains(i as usize) && q == p {
                        1int
                    } else {
                        0
                    },
                    Outcome::Draw(ps) => if visited_nodes@.contains(i as usize) && ps@.contains(q) {
                        1int
                    } else {
                        0
                    },
                    Outcome::Escape(_) => 0,
                }),
            forall|i: int|
                0 <= i < old(self).node_count() && !(visited_nodes@.contains(i as usize)
                    && outcome is Winner) ==> (#[trigger] final(self).nodes_seq()[i]).in_edge
                    == old(self).nodes_seq()[i].in_edge,
            forall|i: int|
                1 <= i < old(self).node_count() && visited_nodes@.contains(i as usize)
                    && outcome is Winner ==> ((#[trigger] final(self).nodes_seq()[i]).in_edge
                    is Some && final(self).nodes_seq()[i].in_edge->0.action == old(
                    self,
                ).nodes_seq()[i].in_edge->0.action && final(self).nodes_seq()[i].in_edge->0.num_visits
                    == old(self).nodes_seq()[i].in_edge->0.num_visits + 1),
    {
        let n = visited_nodes.len();
        let mut t: usize = 0;
        while t < n
            invariant
                self.wf(),
                old(self).wf(),
                old(self).is_visit_path(visited_nodes@),
                old(self).root_visits() + 2 <= u32::MAX,
                t <= n,
                n == visited_nodes@.len(),
                self.node_count() == old(self).node_count(),
                forall|i: int|
                    0 <= i < old(self).node_count() ==> ((#[trigger] self.nodes_seq()[i]).state
                        == old(self).nodes_seq()[i].state && self.nodes_seq()[i].children == old(
                        self,
                    ).nodes_seq()[i].children && self.nodes_seq()[i].parent == old(
                        self,
                    ).nodes_seq()[i].parent),
                forall|i: int|
                    0 <= i < old(self).node_count() ==> #[trigger] self.visits_at(i) == old(
                        self,
                    ).visits_at(i) + (if visited_nodes@.take(t as int).contains(i as usize) {
                        1int
                    } else {
                        0
                    }),
                forall|i: int, q: P|
                    0 <= i < old(self).node_count() ==> #[trigger] self.score_at(i, q) == old(
                        self,
                    ).score_at(i, q) + (match outcome {
                        Outcome::Winner(p) => if visited_nodes@.take(t as int).contains(i as usize)
                            && q == p {
                            1int
                        } else {
                            0
                        },
                        Outcome::Draw(ps) => if visited_nodes@.take(t as int).contains(i as usize)
                            && ps@.contains(q) {
                            1int
                        } else {
                            0
                        },
                        Outcome::Escape(_) => 0,
                    }),
                forall|i: int|
                    0 <= i < old(self).node_count() && !(visited_nodes@.take(t as int).contains(
                        i as usize,
                    ) && outcome is Winner) ==> (#[trigger] self.nodes_seq()[i]).in_edge == old(
                        self,
                    ).nodes_seq()[i].in_edge,
                forall|i: int|
                    1 <= i < old(self).node_count() && visited_nodes@.take(t as int).contains(
                        i as usize,
                    ) && outcome is Winner ==> ((#[trigger] self.nodes_seq()[i]).in_edge is Some
                        && self.nodes_seq()[i].in_edge->0.action == old(
                        self,
                    ).nodes_seq()[i].in_edge->0.action
                        && self.nodes_seq()[i].in_edge->0.num_visits == old(
                        self,
                    ).nodes_seq()[i].in_edge->0.num_visits + 1),
            decreases n - t,
        {
            let idx = visited_nodes[t];
            let ghost taken = visited_nodes@.take(t as int);
            proof {
                // The current path entry has not been bumped yet.
                assert forall|k: int| 0 <= k < t implies visited_nodes@[k] != idx by {
                    lemma_path_increasing(*old(self), visited_nodes@, k, t as int);
                }
                assert(!taken.contains(idx));
                lemma_visits_le_root(*old(self), idx as int);
                assert(old(self).node_wf(idx as int));
                assert(self.node_wf(idx as int));
                assert(self.visits_at(idx as int) == old(self).visits_at(idx as int));
            }
            let ghost prev = *self;
            bump_stats(&mut self.nodes[idx], &outcome);
            let arena_len = self.nodes.len();
            proof {
                let cur = *self;
                assert(arena_len as nat == cur.node_count());
                assert(cur.node_count() <= usize::MAX);
                assert(visited_nodes@.take(t as int + 1) =~= taken.push(idx));
                assert forall|i: int| 0 <= i < cur.node_count() implies cur.node_wf(i) by {
                    assert(prev.node_wf(i));
                    if i == idx as int {
                        assert forall|q: P|
                            #[trigger] lookup_score(cur.nodes_seq()[i].scores@, q)
                                <= cur.nodes_seq()[i].num_visits by {
                            assert(lookup_score(prev.nodes_seq()[i].scores@, q)
                                <= prev.nodes_seq()[i].num_visits);
                        }
                        if i > 0 {
                            // The parent is the previous path entry and was
                            // bumped in an earlier step, so the child's new
                            // counter still fits under it.
                            assert(visited_nodes@[t as int] == idx);
                            assert(visited_nodes@[0] == 0);
                            let par = prev.nodes_seq()[i].parent->0 as int;
                            assert(prev.nodes_seq()[i].parent == old(self).nodes_seq()[i].parent);
                            assert(old(self).nodes_seq()[i].parent == Some(
                                visited_nodes@[t as int - 1],
                            ));
                            assert(par == visited_nodes@[t as int - 1] as int);
                            assert(taken[t as int - 1] == visited_nodes@[t as int - 1]);
                            assert(taken.contains(par as usize));
                            assert(prev.visits_at(par) == old(self).visits_at(par) + 1);
                            assert(par < i);
                            assert(cur.nodes_seq()[par] == prev.nodes_seq()[par]);
                            assert(old(self).node_wf(i));
                            assert(old(self).visits_at(i) <= old(self).visits_at(par));
                        }
                    } else {
                        assert(cur.nodes_seq()[i] == prev.nodes_seq()[i]);
                        if i > 0 {
                            let par = prev.nodes_seq()[i].parent->0 as int;
                            assert(prev.node_wf(par));
                            if par == idx as int {
                                assert(cur.nodes_seq()[par].num_visits == prev.nodes_seq()[par].num_visits
                                    + 1);
                                assert(cur.nodes_seq()[par].children == prev.nodes_seq()[par].children);
                            } else {
                                assert(cur.nodes_seq()[par] == prev.nodes_seq()[par]);
                            }
                        }
                    }
                }
                assert forall|i: int| 0 <= i < cur.node_count() implies #[trigger] cur.visits_at(i)
                    == old(self).visits_at(i) + (if taken.push(idx).contains(i as usize) {
                    1int
                } else {
                    0
                }) by {
                    lemma_push_contains(taken, idx, i as usize);
                    assert(prev.visits_at(i) == old(self).visits_at(i) + (if taken.contains(
                        i as usize,
                    ) {
                        1int
                    } else {
                        0
                    }));
                    if i != idx as int {
                        assert(cur.nodes_seq()[i] == prev.nodes_seq()[i]);
                    }
                }
                assert forall|i: int, q: P| 0 <= i < cur.node_count() implies #[trigger] cur.score_at(
                    i,
                    q,
                ) == old(self).score_at(i, q) + (match outcome {
                    Outcome::Winner(p) => if taken.push(idx).contains(i as usize) && q == p {
                        1int
                    } else {
                        0
                    },
                    Outcome::Draw(ps) => if taken.push(idx).contains(i as usize) && ps@.contains(q) {
                        1int
                    } else {
                        0
                    },
                    Outcome::Escape(_) => 0,
                }) by {
                    lemma_push_contains(taken, idx, i as usize);
                    assert(prev.score_at(i, q) == old(self).score_at(i, q) + (match outcome {
                        Outcome::Winner(p) => if taken.contains(i as usize) && q == p {
                            1int
                        } else {
                            0
                        },
                        Outcome::Draw(ps) => if taken.contains(i as usize) && ps@.contains(q) {
                            1int
                        } else {
                            0
                        },
                        Outcome::Escape(_) => 0,
                    }));
                    if i != idx as int {
                        assert(cur.nodes_seq()[i] == prev.nodes_seq()[i]);
                    } else {
                        assert(lookup_score(cur.nodes_seq()[i].scores@, q) == lookup_score(
                            prev.nodes_seq()[i].scores@,
                            q,
                        ) + (match outcome {
                            Outcome::Winner(p) => if q == p {
                                1int
                            } else {
                                0
                            },
                            Outcome::Draw(ps) => if ps@.contains(q) {
                                1int
                            } else {
                                0
                            },
                            Outcome::Escape(_) => 0,
                        }));
                    }
                }
                assert forall|i: int|
                    0 <= i < cur.node_count() && !(taken.push(idx).contains(i as usize)
                        && outcome is Winner) implies (#[trigger] cur.nodes_seq()[i]).in_edge == old(
                    self,
                ).nodes_seq()[i].in_edge by {
                    lemma_push_contains(taken, idx, i as usize);
                }
                assert forall|i: int|
                    1 <= i < cur.node_count() && taken.push(idx).contains(i as usize)
                        && outcome is Winner implies ((#[trigger] cur.nodes_seq()[i]).in_edge
                    is Some && cur.nodes_seq()[i].in_edge->0.action == old(
                    self,
                ).nodes_seq()[i].in_edge->0.action && cur.nodes_seq()[i].in_edge->0.num_visits
                    == old(self).nodes_seq()[i].in_edge->0.num_visits + 1) by {
                    lemma_push_contains(taken, idx, i as usize);
                    assert(prev.node_wf(i));
                }
            }
            t = t + 1;
        }
        proof {
            assert(visited_nodes@.take(n as int) =~= visited_nodes@);
        }
    }
}

impl<S, A, P> GameTree<S, A, P> {
    /// The footprint of one completed search iteration relative to the tree
    /// `before` it ran: exactly the nodes of one visited path gained one
    /// visit, and no node off that path had a score move.
    pub open spec fn one_iteration_footprint(
        self,
        before: GameTree<S, A, P>,
        path: Seq<usize>,
    ) -> bool {
        &&& self.is_visit_path(path)
        &&& self.node_count() >= before.node_count()
        &&& forall|i: int|
            0 <= i < self.node_count() ==> #[trigger] self.visits_at(i) == (if path.contains(
                i as usize,
            ) {
                1int
            } else {
                0
            }) + (if i < before.node_count() {
                before.visits_at(i) as int
            } else {
                0
            })
        &&& forall|i: int, q: P|
            0 <= i < self.node_count() && !path.contains(i as usize)
                ==> #[trigger] self.score_at(i, q) == (if i < before.node_count() {
                before.score_at(i, q) as int
            } else {
                0
            })
    }

    /// One search iteration: descend by UCB1 to a leaf, expand it unless its
    /// state is terminal, roll out from the newly selected child, and
    /// back-propagate the outcome along the visited path. On success,
    /// exactly the nodes of that path — the root among them — gained one
    /// visit. An error reports a game-contract violation; statistics
    /// gathered before it stay as they were.
    pub fn search<Rn: RandomSource>(&mut self, rng: &mut Rn) -> (r: Result<
        (),
        SearchError<S::Error>,
    >)
        where S: State<Rn, A, P>, A: Action, P: Player,
        requires
            old(self).wf(),
            old(self).root_visits() + 2 <= u32::MAX,
        ensures
            final(self).wf(),
            final(self).node_count() >= old(self).node_count(),
            final(self).root_visits() <= old(self).root_visits() + 1,
            r is Ok ==> final(self).root_visits() == old(self).root_visits() + 1,
            r is Err ==> forall|i: int|
                0 <= i < old(self).node_count() ==> #[trigger] final(self).visits_at(i) == old(
                    self,
                ).visits_at(i),
            r is Err ==> forall|i: int, q: P|
                0 <= i < old(self).node_count() ==> #[trigger] final(self).score_at(i, q) == old(
                    self,
                ).score_at(i, q),
            forall|i: int|
                0 <= i < old(self).node_count() ==> old(self).visits_at(i)
                    <= #[trigger] final(self).visits_at(i) <= old(self).visits_at(i) + 1,
            forall|i: int|
                old(self).node_count() <= i < final(self).node_count()
                    ==> #[trigger] final(self).visits_at(i) <= 1,
            forall|i: int, q: P|
                0 <= i < old(self).node_count() ==> old(self).score_at(i, q)
                    <= #[trigger] final(self).score_at(i, q) <= old(self).score_at(i, q) + 1,
            forall|i: int|
                0 <= i < old(self).node_count() ==> ((#[trigger] final(self).nodes_seq()[i]).state
                    == old(self).nodes_seq()[i].state && final(self).nodes_seq()[i].parent == old(
                    self,
                ).nodes_seq()[i].parent),
            r is Ok ==> exists|path: Seq<usize>|
                #[trigger] final(self).one_iteration_footprint(*old(self), path),
    {
        let mut current: usize = self.root_node_idx;
        let mut visited_nodes: Vec<usize> = Vec::new();
        visited_nodes.push(current);
        let perspective_player = self.nodes[current].state.current_player();
        while self.nodes[current].children.len() > 0
            invariant
                *self == *old(self),
                self.wf(),
                current < self.node_count(),
                self.is_visit_path(visited_nodes@),
                visited_nodes@.last() == current,
            decreases self.node_count() - current,
        {
            let next = self.select(current, perspective_player);
            proof {
                let cs = self.children_at(current as int);
                let a = choose|a: int| 0 <= a < cs.len() && cs[a] == next;
                assert(self.node_wf(current as int));
                assert(self.nodes_seq()[next as int].parent == Some(current));
            }
            visited_nodes.push(next);
            current = next;
        }
        let outcome_result: Outcome<P>;
        let terminal = self.nodes[current].state.outcome();
        match terminal {
            Some(o) => {
                outcome_result = o;
            },
            None => {
                let ghost before_expand = *self;
                match self.expand(rng, current) {
                    Ok(()) => {},
                    Err(e) => {
                        return Err(e);
                    },
                }
                proof {
                    assert forall|k: int|
                        1 <= k < visited_nodes@.len() implies self.nodes_seq()[(
                    #[trigger] visited_nodes@[k]) as int].parent == Some(visited_nodes@[k - 1]) by {
                        assert(before_expand.nodes_seq()[visited_nodes@[k] as int].parent == Some(
                            visited_nodes@[k - 1],
                        ));
                    }
                    assert(self.is_visit_path(visited_nodes@));
                }
                let child = self.select(current, perspective_player);
                proof {
                    let cs = self.children_at(current as int);
                    let a = choose|a: int| 0 <= a < cs.len() && cs[a] == child;
                    assert(self.node_wf(current as int));
                    assert(self.nodes_seq()[child as int].parent == Some(current));
                }
                visited_nodes.push(child);
                let rollout_result = random_rollout(&self.nodes[child].state, rng);
                match rollout_result {
                    Ok(o) => {
                        outcome_result = o;
                    },
                    Err(e) => {
                        return Err(SearchError::ApplyActionFailed(e));
                    },
                }
            },
        }
        let ghost path = visited_nodes@;
        let ghost pre_bp = *self;
        proof {
            assert(visited_nodes@[0] == 0);
            assert(visited_nodes@.contains(0usize));
            assert(forall|i: int|
                0 <= i < old(self).node_count() ==> #[trigger] pre_bp.visits_at(i) == old(
                    self,
                ).visits_at(i));
            assert(forall|i: int, q: P|
                0 <= i < old(self).node_count() ==> #[trigger] pre_bp.score_at(i, q) == old(
                    self,
                ).score_at(i, q));
            assert(forall|i: int|
                old(self).node_count() <= i < pre_bp.node_count() ==> #[trigger] pre_bp.visits_at(
                    i,
                ) == 0);
            assert forall|i: int, q: P|
                old(self).node_count() <= i < pre_bp.node_count() implies #[trigger] pre_bp.score_at(
                i,
                q,
            ) == 0 by {
                assert(pre_bp.nodes_seq()[i].scores@.len() == 0);
            }
        }
        self.back_propagate(visited_nodes, outcome_result);
        proof {
            assert forall|k: int|
                1 <= k < path.len() implies self.nodes_seq()[(#[trigger] path[k]) as int].parent
                == Some(path[k - 1]) by {
                assert(pre_bp.nodes_seq()[path[k] as int].parent == Some(path[k - 1]));
            }
            assert(self.is_visit_path(path));
            assert(self.one_iteration_footprint(*old(self), path));
        }
        Ok(())
    }

    /// Runs `iterations` independent search cycles, stopping at the first
    /// game-contract violation. On success the root's visit counter rises
    /// by exactly the budget; a budget of zero succeeds and leaves the tree
    /// and the random source untouched.
    pub fn search_n<Rn: RandomSource>(&mut self, rng: &mut Rn, iterations: u32) -> (r: Result<
        (),
        SearchError<S::Error>,
    >)
        where S: State<Rn, A, P>, A: Action, P: Player,
        requires
            old(self).wf(),
            old(self).root_visits() + iterations + 1 <= u32::MAX,
        ensures
            final(self).wf(),
            final(self).root_visits() <= old(self).root_visits() + iterations,
            final(self).node_count() >= old(self).node_count(),
            forall|i: int|
                0 <= i < old(self).node_count() ==> old(self).visits_at(i)
                    <= #[trigger] final(self).visits_at(i) <= old(self).visits_at(i) + iterations,
            forall|i: int, q: P|
                0 <= i < old(self).node_count() ==> old(self).score_at(i, q)
                    <= #[trigger] final(self).score_at(i, q) <= old(self).score_at(i, q)
                    + iterations,
            forall|i: int|
                0 <= i < old(self).node_count() ==> ((#[trigger] final(self).nodes_seq()[i]).state
                    == old(self).nodes_seq()[i].state && final(self).nodes_seq()[i].parent == old(
                    self,
                ).nodes_seq()[i].parent),
            r is Ok ==> final(self).root_visits() == old(self).root_visits() + iterations,
            iterations == 0 ==> r is Ok,
            iterations == 0 ==> *final(self) == *old(self),
            iterations == 0 ==> *final(rng) == *old(rng),
    {
        let mut it: u32 = 0;
        while it < iterations
            invariant
                self.wf(),
                it <= iterations,
                old(self).wf(),
                old(self).root_visits() + iterations + 1 <= u32::MAX,
                self.root_visits() == old(self).root_visits() + it,
                it == 0 ==> *rng == *old(rng),
                self.node_count() >= old(self).node_count(),
                forall|i: int|
                    0 <= i < old(self).node_count() ==> old(self).visits_at(i)
                        <= #[trigger] self.visits_at(i) <= old(self).visits_at(i) + it,
                forall|i: int, q: P|
                    0 <= i < old(self).node_count() ==> old(self).score_at(i, q)
                        <= #[trigger] self.score_at(i, q) <= old(self).score_at(i, q) + it,
                forall|i: int|
                    0 <= i < old(self).node_count() ==> ((#[trigger] self.nodes_seq()[i]).state
                        == old(self).nodes_seq()[i].state && self.nodes_seq()[i].parent == old(
                        self,
                    ).nodes_seq()[i].parent),
                it == 0 ==> *self == *old(self),
            decreases iterations - it,
        {
            let res = self.search(rng);
            match res {
                Ok(()) => {},
                Err(e) => {
                    return Err(e);
                },
            }
            it = it + 1;
        }
        Ok(())
    }
}

impl<S, A, P> GameTree<S, A, P> {
    /// The visit counters of the root's children, in child order.
    pub open spec fn root_child_visits(self) -> Seq<int> {
        Seq::new(
            self.children_at(0).len(),
            |k: int| self.visits_at(self.children_at(0)[k] as int) as int,
        )
    }

    /// The root child that `best_action` reports: the first most-visited
    /// one in child order.
    pub open spec fn best_child(self) -> usize {
        self.children_at(0)[first_argmax(self.root_child_visits())]
    }

    /// The action on the edge to the most-visited root child, ties broken
    /// by the first maximum in child order; `None` when the root has no
    /// children.
    pub fn best_action(&self) -> (r: Option<&A>)
        requires
            self.wf(),
        ensures
            r is Some <==> self.children_at(0).len() > 0,
            self.children_at(0).len() > 0 ==> *r->0 == self.nodes_seq()[self.best_child()
                as int].in_edge->0.action,
    {
        let children = &self.nodes[self.root_node_idx].children;
        if children.len() == 0 {
            return None;
        }
        let ghost vs = self.root_child_visits();
        proof {
            lemma_first_argmax_props(vs);
            assert(self.node_wf(0));
        }
        let first_child = children[0];
        let mut best_k: usize = 0;
        let mut best_v: u32 = self.nodes[first_child].num_visits;
        let mut k: usize = 1;
        while k < children.len()
            invariant
                self.wf(),
                children@ == self.children_at(0),
                vs == self.root_child_visits(),
                1 <= k <= children@.len(),
                best_k < k,
                best_k == first_argmax(vs.take(k as int)),
                best_v as int == vs[best_k as int],
            decreases children@.len() - k,
        {
            proof {
                assert(self.node_wf(0));
            }
            let c = children[k];
            let v = self.nodes[c].num_visits;
            proof {
                lemma_first_argmax_step(vs, k as int);
                lemma_first_argmax_props(vs.take(k as int));
                assert(vs.take(k as int)[best_k as int] == vs[best_k as int]);
            }
            if v > best_v {
                best_k = k;
                best_v = v;
            }
            k = k + 1;
        }
        proof {
            assert(vs.take(children@.len() as int) =~= vs);
            lemma_first_argmax_props(vs);
            assert(self.node_wf(0));
        }
        let bc = children[best_k];
        proof {
            assert(self.node_wf(bc as int));
        }
        match &self.nodes[bc].in_edge {
            Some(edge) => Some(&edge.action),
            None => {
                proof {
                    assert(false);
                }
                None
            },
        }
    }

    /// The records of one root child: one per score entry, each carrying
    /// the child's edge action and visit counter.
    pub open spec fn child_records(self, c: int) -> Seq<Score<A, P>> {
        Seq::new(
            self.nodes@[c].scores@.len(),
            |j: int| (Score {
                action: self.nodes@[c].in_edge->0.action,
                player: self.nodes@[c].scores@[j].0,
                score: self.nodes@[c].scores@[j].1,
                num_visits: self.nodes@[c].num_visits,
            }),
        )
    }

    /// All flattened root statistics: children in order, entries in order.
    pub open spec fn root_scores_spec(self) -> Seq<Score<A, P>> {
        self.children_at(0).flat_map(|c: usize| self.child_records(c as int))
    }

    /// Flattens the root children's statistics: one record per child and
    /// score entry, with the edge action, the player, the player's score
    /// and the child's visit counter.
    pub fn root_scores(&self) -> (r: Vec<Score<A, P>>)
        where A: Action, P: Player,
        requires
            self.wf(),
        ensures
            r@ == self.root_scores_spec(),
    {
        let ghost f = |c: usize| self.child_records(c as int);
        let mut result: Vec<Score<A, P>> = Vec::new();
        let children = &self.nodes[self.root_node_idx].children;
        let mut k: usize = 0;
        proof {
            assert(children@.take(0).map_values(f) =~= Seq::<Seq<Score<A, P>>>::empty());
            assert(children@.take(0).flat_map(f) =~= Seq::<Score<A, P>>::empty());
        }
        while k < children.len()
            invariant
                self.wf(),
                children@ == self.children_at(0),
                f == (|c: usize| self.child_records(c as int)),
                k <= children@.len(),
                result@ == children@.take(k as int).flat_map(f),
            decreases children@.len() - k,
        {
            proof {
                assert(self.node_wf(0));
            }
            let c = children[k];
            proof {
                assert(self.node_wf(c as int));
            }
            let node = &self.nodes[c];
            let num_visits = node.num_visits;
            match &node.in_edge {
                Some(edge) => {
                    let ghost outer = result@;
                    let mut j: usize = 0;
                    proof {
                        assert(self.child_records(c as int).take(0) =~= Seq::<Score<A, P>>::empty());
                    }
                    while j < node.scores.len()
                        invariant
                            self.wf(),
                            c < self.node_count(),
                            node == &self.nodes_seq()[c as int],
                            edge == &self.nodes_seq()[c as int].in_edge->0,
                            num_visits == node.num_visits,
                            j <= node.scores@.len(),
                            result@ == outer + self.child_records(c as int).take(j as int),
                        decreases node.scores@.len() - j,
                    {
                        let entry = node.scores[j];
                        let record = Score {
                            action: edge.action.clone_action(),
                            player: entry.0,
                            score: entry.1,
                            num_visits,
                        };
                        result.push(record);
                        proof {
                            assert(self.child_records(c as int).take(j as int + 1)
                                =~= self.child_records(c as int).take(j as int).push(
                                self.child_records(c as int)[j as int],
                            ));
                        }
                        j = j + 1;
                    }
                    proof {
                        assert(self.child_records(c as int).take(node.scores@.len() as int)
                            =~= self.child_records(c as int));
                        children@.lemma_flat_map_take_append(f, k as int);
                        assert(children@.take(k as int + 1).flat_map(f) =~= children@.take(
                            k as int,
                        ).flat_map(f) + f(children@[k as int]));
                    }
                },
                None => {
                    proof {
                        assert(false);
                    }
                },
            }
            k = k + 1;
        }
        proof {
            assert(children@.take(children@.len() as int) =~= children@);
        }
        result
    }
}

/// `best_action` reports a most-visited root child, and the first such
/// child in enumeration order.
pub proof fn lemma_best_child_most_visited<S, A, P>(t: GameTree<S, A, P>)
    requires
        t.wf(),
        t.children_at(0).len() > 0,
    ensures
        t.children_at(0).contains(t.best_child()),
        forall|k: int|
            0 <= k < t.children_at(0).len() ==> t.visits_at(
                (#[trigger] t.children_at(0)[k]) as int,
            ) <= t.visits_at(t.best_child() as int),
        forall|k: int|
            0 <= k < first_argmax(t.root_child_visits()) ==> t.visits_at(
                (#[trigger] t.children_at(0)[k]) as int,
            ) < t.visits_at(t.best_child() as int),
{
    let vs = t.root_child_visits();
    lemma_first_argmax_props(vs);
    let m = first_argmax(vs);
    assert(t.children_at(0)[m] == t.best_child());
    assert forall|k: int|
        0 <= k < t.children_at(0).len() implies t.visits_at((#[trigger] t.children_at(0)[k]) as int)
        <= t.visits_at(t.best_child() as int) by {
        assert(vs[k] <= vs[m]);
    }
    assert forall|k: int|
        0 <= k < first_argmax(t.root_child_visits()) implies t.visits_at(
        (#[trigger] t.children_at(0)[k]) as int,
    ) < t.visits_at(t.best_child() as int) by {
        assert(vs[k] < vs[m]);
    }
}

/// When the root has a single child, `best_action` names that child's edge
/// action.
pub proof fn lemma_single_child_best<S, A, P>(t: GameTree<S, A, P>)
    requires
        t.wf(),
        t.children_at(0).len() == 1,
    ensures
        t.best_child() == t.children_at(0)[0],
{
    lemma_first_argmax_props(t.root_child_visits());
}

/// An unvisited child carries the infinite weight, so selection picks the
/// first unvisited child before any visited sibling.
pub proof fn lemma_unvisited_selected_first<S, A, P>(
    t: GameTree<S, A, P>,
    i: int,
    perspective_player: P,
    k: int,
)
    requires
        t.wf(),
        0 <= i < t.node_count(),
        0 <= k < t.children_at(i).len(),
        t.visits_at(t.children_at(i)[k] as int) == 0,
        forall|j: int| 0 <= j < k ==> #[trigger] t.visits_at(t.children_at(i)[j] as int) > 0,
    ensures
        first_argmax(t.child_weights(i, perspective_player)) == k,
        t.visits_at(t.selected_child(i, perspective_player) as int) == 0,
{
    let ws = t.child_weights(i, perspective_player);
    assert(t.node_wf(i));
    assert(ws[k] == INFINITE_WEIGHT);
    assert forall|j: int| 0 <= j < k implies #[trigger] ws[j] < INFINITE_WEIGHT by {
        let c = t.children_at(i)[j] as int;
        assert(t.visits_at(t.children_at(i)[j] as int) > 0);
        assert(t.node_wf(c));
        assert(lookup_score(t.nodes_seq()[c].scores@, perspective_player) <= t.nodes_seq()[c].num_visits);
        lemma_finite_weight_below_infinite(
            lookup_score(t.nodes_seq()[c].scores@, perspective_player),
            t.nodes_seq()[c].num_visits as nat,
            t.nodes_seq()[t.nodes_seq()[c].parent->0 as int].num_visits as nat,
        );
    }
    assert forall|j: int| 0 <= j < ws.len() implies #[trigger] ws[j] <= INFINITE_WEIGHT by {
        let c = t.children_at(i)[j] as int;
        assert(t.node_wf(c));
        if t.nodes_seq()[c].num_visits != 0 {
            assert(lookup_score(t.nodes_seq()[c].scores@, perspective_player)
                <= t.nodes_seq()[c].num_visits);
            lemma_finite_weight_below_infinite(
                lookup_score(t.nodes_seq()[c].scores@, perspective_player),
                t.nodes_seq()[c].num_visits as nat,
                t.nodes_seq()[t.nodes_seq()[c].parent->0 as int].num_visits as nat,
            );
        }
    }
    lemma_first_argmax_props(ws);
    let m = first_argmax(ws);
    assert(ws[m] >= ws[k]);
    if m < k {
        assert(ws[m] < INFINITE_WEIGHT);
        assert(false);
    }
    if m > k {
        assert(ws[k] < ws[m]);
        assert(false);
    }
}

} // verus!
