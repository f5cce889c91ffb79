//! Nodes, edges and score records of the game tree.
//!
//! A node owns the game state it stands for, its visit counter and the
//! per-player cumulative scores, kept as a short association list with
//! pairwise-distinct players. The edge that leads to a node from its parent
//! is stored on the node itself, together with the parent's index in the
//! tree's arena.

use vstd::prelude::*;
use crate::Outcome;
use crate::Player;

verus! {

/// An edge of the game tree: the action that led from the parent to this
/// child, and the edge's own visit counter.
pub struct GameTreeEdge<A> {
    pub action: A,
    pub num_visits: u32,
}

impl<A> GameTreeEdge<A> {
    /// A fresh edge counts the expansion that created it as one visit.
    pub fn new(action: A) -> (r: Self)
        ensures
            r.action == action,
            r.num_visits == 1,
    {
        Self { action, num_visits: 1 }
    }
}

/// A node of the game tree. `parent` and `in_edge` are `None` exactly on the
/// root; `children` lists the indices of the node's children in the arena.
pub struct GameTreeNode<S, A, P> {
    pub state: S,
    pub num_visits: u32,
    pub scores: Vec<(P, u32)>,
    pub children: Vec<usize>,
    pub parent: Option<usize>,
    pub in_edge: Option<GameTreeEdge<A>>,
}

/// The cumulative score a statistics list assigns to a player: the first
/// entry for that player, or zero when none is recorded.
pub open spec fn lookup_score<P>(scores: Seq<(P, u32)>, player: P) -> nat
    decreases scores.len(),
{
    if scores.len() == 0 {
        0
    } else if scores[0].0 == player {
        scores[0].1 as nat
    } else {
        lookup_score(scores.drop_first(), player)
    }
}

/// Each player appears at most once in a statistics list.
pub open spec fn players_distinct<P>(scores: Seq<(P, u32)>) -> bool {
    forall|i: int, j: int|
        0 <= i < j < scores.len() ==> (#[trigger] scores[i]).0 != (#[trigger] scores[j]).0
}

/// Skipping a prefix that does not mention the player leaves its score
/// unchanged.
pub proof fn lemma_lookup_skip_prefix<P>(scores: Seq<(P, u32)>, player: P, k: int)
    requires
        0 <= k <= scores.len(),
        forall|j: int| 0 <= j < k ==> (#[trigger] scores[j]).0 != player,
    ensures
        lookup_score(scores, player) == lookup_score(scores.skip(k), player),
    decreases k,
{
    if k > 0 {
        assert(scores[0].0 != player);
        let rest = scores.drop_first();
        assert(forall|j: int| 0 <= j < k - 1 ==> (#[trigger] rest[j]).0 != player);
        lemma_lookup_skip_prefix(rest, player, k - 1);
        assert(rest.skip(k - 1) =~= scores.skip(k));
        assert(scores.skip(0) =~= scores);
    } else {
        assert(scores.skip(0) =~= scores);
    }
}

/// Two lists with the same players position by position, agreeing on every
/// entry of one player, assign that player the same score.
pub proof fn lemma_lookup_same_entries<P>(s1: Seq<(P, u32)>, s2: Seq<(P, u32)>, player: P)
    requires
        s1.len() == s2.len(),
        forall|i: int| 0 <= i < s1.len() ==> (#[trigger] s1[i]).0 == (#[trigger] s2[i]).0,
        forall|i: int|
            0 <= i < s1.len() && (#[trigger] s1[i]).0 == player ==> s1[i].1 == (#[trigger] s2[i]).1,
    ensures
        lookup_score(s1, player) == lookup_score(s2, player),
    decreases s1.len(),
{
    if s1.len() > 0 {
        assert(s1[0].0 == s2[0].0);
        if s1[0].0 != player {
            let r1 = s1.drop_first();
            let r2 = s2.drop_first();
            assert(forall|i: int| 0 <= i < r1.len() ==> (#[trigger] r1[i]).0 == (#[trigger] r2[i]).0);
            assert(forall|i: int|
                0 <= i < r1.len() && (#[trigger] r1[i]).0 == player ==> r1[i].1 == (#[trigger] r2[i]).1);
            lemma_lookup_same_entries(r1, r2, player);
        }
    }
}

/// Appending an entry for one player leaves every other player's score
/// unchanged.
pub proof fn lemma_lookup_push_other<P>(scores: Seq<(P, u32)>, entry: (P, u32), player: P)
    requires
        entry.0 != player,
    ensures
        lookup_score(scores.push(entry), player) == lookup_score(scores, player),
    decreases scores.len(),
{
    reveal_with_fuel(lookup_score, 3);
    let pushed = scores.push(entry);
    if scores.len() == 0 {
        assert(pushed[0] == entry);
        assert(pushed.drop_first() =~= Seq::<(P, u32)>::empty());
    } else {
        assert(pushed[0] == scores[0]);
        if scores[0].0 != player {
            assert(pushed.drop_first() =~= scores.drop_first().push(entry));
            lemma_lookup_push_other(scores.drop_first(), entry, player);
        }
    }
}

/// Adds one point to `player`'s score: the matching entry is incremented, or
/// a fresh entry is appended when the player has none yet.
pub fn award_point<P: Player>(scores: &mut Vec<(P, u32)>, player: P)
    requires
        players_distinct(old(scores)@),
        lookup_score(old(scores)@, player) < u32::MAX,
    ensures
        players_distinct(final(scores)@),
        lookup_score(final(scores)@, player) == lookup_score(old(scores)@, player) + 1,
        forall|q: P|
            q != player ==> #[trigger] lookup_score(final(scores)@, q) == lookup_score(
                old(scores)@,
                q,
            ),
{
    let n = scores.len();
    let mut k: usize = 0;
    while k < n
        invariant
            n == scores@.len(),
            k <= n,
            players_distinct(scores@),
            *scores == *old(scores),
            lookup_score(scores@, player) < u32::MAX,
            forall|j: int| 0 <= j < k ==> (#[trigger] scores@[j]).0 != player,
        decreases n - k,
    {
        let entry = scores[k];
        if entry.0.eq_player(&player) {
            proof {
                lemma_lookup_skip_prefix(scores@, player, k as int);
                assert(scores@.skip(k as int)[0] == scores@[k as int]);
                assert(lookup_score(scores@.skip(k as int), player) == entry.1 as nat);
            }
            let ghost before = scores@;
            scores.set(k, (entry.0, entry.1 + 1));
            proof {
                let after = scores@;
                assert(forall|i: int|
                    0 <= i < after.len() ==> (#[trigger] before[i]).0 == (#[trigger] after[i]).0);
                // Other players' scores are untouched entry by entry.
                assert forall|q: P| q != player implies #[trigger] lookup_score(after, q)
                    == lookup_score(before, q) by {
                    assert(forall|i: int|
                        0 <= i < after.len() && (#[trigger] after[i]).0 == q ==> after[i].1 == (
                        #[trigger] before[i]).1);
                    lemma_lookup_same_entries(after, before, q);
                }
                // The updated entry is still the first (and only) one for `player`.
                lemma_lookup_skip_prefix(after, player, k as int);
                assert(after.skip(k as int)[0] == after[k as int]);
            }
            return ;
        }
        k = k + 1;
    }
    proof {
        lemma_lookup_skip_prefix(scores@, player, n as int);
        assert(scores@.skip(n as int) =~= Seq::<(P, u32)>::empty());
        assert(lookup_score(scores@, player) == 0);
    }
    let ghost before = scores@;
    scores.push((player, 1));
    proof {
        let after = scores@;
        assert(after =~= before.push((player, 1)));
        lemma_lookup_skip_prefix(after, player, n as int);
        assert(after.skip(n as int) =~= seq![(player, 1u32)]);
        assert(after.skip(n as int)[0] == (player, 1u32));
        assert(lookup_score(after, player) == 1);
        assert forall|q: P| q != player implies #[trigger] lookup_score(after, q) == lookup_score(
            before,
            q,
        ) by {
            lemma_lookup_push_other(before, (player, 1u32), q);
        }
    }
}

impl<S, A, P> GameTreeNode<S, A, P> {
    /// A fresh, unvisited node for the given state, not yet linked into a
    /// tree.
    pub fn new(state: S) -> (r: Self)
        ensures
            r.state == state,
            r.num_visits == 0,
            r.scores@ =~= Seq::<(P, u32)>::empty(),
            r.children@ =~= Seq::<usize>::empty(),
            r.parent is None,
            r.in_edge is None,
    {
        Self {
            state,
            num_visits: 0,
            scores: Vec::new(),
            children: Vec::new(),
            parent: None,
            in_edge: None,
        }
    }

    /// The cumulative score recorded for a player; zero when the player has
    /// no entry.
    pub fn get_player_score(&self, player: P) -> (r: u32)
        where P: Player
        ensures
            r as nat == lookup_score(self.scores@, player),
    {
        let n = self.scores.len();
        let mut k: usize = 0;
        while k < n
            invariant
                n == self.scores@.len(),
                k <= n,
                forall|j: int| 0 <= j < k ==> (#[trigger] self.scores@[j]).0 != player,
            decreases n - k,
        {
            let entry = self.scores[k];
            if entry.0.eq_player(&player) {
                proof {
                    lemma_lookup_skip_prefix(self.scores@, player, k as int);
                    assert(self.scores@.skip(k as int)[0] == self.scores@[k as int]);
                }
                return entry.1;
            }
            k = k + 1;
        }
        proof {
            lemma_lookup_skip_prefix(self.scores@, player, n as int);
            assert(self.scores@.skip(n as int) =~= Seq::<(P, u32)>::empty());
        }
        0
    }
}

/// The sum of all recorded scores in a statistics list.
pub open spec fn sum_scores<P>(scores: Seq<(P, u32)>) -> int
    decreases scores.len(),
{
    if scores.len() == 0 {
        0
    } else {
        sum_scores(scores.drop_last()) + scores.last().1
    }
}

/// With pairwise-distinct players, each entry holds exactly the score that
/// lookup assigns to its player.
pub proof fn lemma_entry_is_lookup<P>(scores: Seq<(P, u32)>, i: int)
    requires
        players_distinct(scores),
        0 <= i < scores.len(),
    ensures
        lookup_score(scores, scores[i].0) == scores[i].1,
{
    assert forall|j: int| 0 <= j < i implies (#[trigger] scores[j]).0 != scores[i].0 by {
        assert(players_distinct(scores));
    }
    lemma_lookup_skip_prefix(scores, scores[i].0, i);
    assert(scores.skip(i)[0] == scores[i]);
}

/// When every player's looked-up score stays within a bound, the sum of all
/// entries stays within the bound times the number of entries.
pub proof fn lemma_sum_scores_bound<P>(scores: Seq<(P, u32)>, bound: int)
    requires
        players_distinct(scores),
        bound >= 0,
        forall|q: P| #[trigger] lookup_score(scores, q) <= bound,
    ensures
        sum_scores(scores) <= scores.len() * bound,
    decreases scores.len(),
{
    if scores.len() > 0 {
        let shorter = scores.drop_last();
        assert(players_distinct(shorter));
        assert forall|q: P| #[trigger] lookup_score(shorter, q) <= bound by {
            if exists|j: int| 0 <= j < shorter.len() && (#[trigger] shorter[j]).0 == q {
                let j = choose|j: int| 0 <= j < shorter.len() && (#[trigger] shorter[j]).0 == q;
                lemma_entry_is_lookup(shorter, j);
                lemma_entry_is_lookup(scores, j);
                assert(scores[j] == shorter[j]);
                assert(lookup_score(scores, q) <= bound);
            } else {
                lemma_lookup_skip_prefix(shorter, q, shorter.len() as int);
                assert(shorter.skip(shorter.len() as int) =~= Seq::<(P, u32)>::empty());
            }
        }
        lemma_sum_scores_bound(shorter, bound);
        lemma_entry_is_lookup(scores, scores.len() - 1);
        assert(scores.last() == scores[scores.len() - 1]);
        assert(sum_scores(scores) <= (scores.len() - 1) * bound + bound) by (nonlinear_arith)
            requires
                sum_scores(scores) == sum_scores(shorter) + scores.last().1,
                sum_scores(shorter) <= shorter.len() * bound,
                shorter.len() == scores.len() - 1,
                scores.last().1 <= bound,
        ;
        assert((scores.len() - 1) * bound + bound == scores.len() * bound) by (nonlinear_arith);
    }
}

/// Pushing an element extends a sequence's membership by exactly that
/// element.
pub proof fn lemma_push_contains<T>(s: Seq<T>, x: T, y: T)
    ensures
        s.push(x).contains(y) == (s.contains(y) || x == y),
{
    if s.contains(y) {
        let a = choose|a: int| 0 <= a < s.len() && s[a] == y;
        assert(s.push(x)[a] == y);
    }
    if x == y {
        assert(s.push(x)[s.len() as int] == y);
    }
    if s.push(x).contains(y) {
        let a = choose|a: int| 0 <= a < s.push(x).len() && s.push(x)[a] == y;
        if a < s.len() {
            assert(s[a] == y);
        }
    }
}

/// Records one back-propagation step on a single node: the visit counter
/// rises by one; a `Winner` outcome adds one point to the winner and one
/// visit to the incoming edge; a `Draw` adds one point to each drawing
/// player, duplicates counted once; an `Escape` changes no score.
pub fn bump_stats<S, A, P: Player>(node: &mut GameTreeNode<S, A, P>, outcome: &Outcome<P>)
    requires
        old(node).num_visits + 1 <= u32::MAX,
        old(node).in_edge is Some ==> old(node).in_edge->0.num_visits < u32::MAX,
        players_distinct(old(node).scores@),
        forall|q: P| #[trigger] lookup_score(old(node).scores@, q) <= old(node).num_visits,
    ensures
        final(node).num_visits == old(node).num_visits + 1,
        final(node).state == old(node).state,
        final(node).children == old(node).children,
        final(node).parent == old(node).parent,
        players_distinct(final(node).scores@),
        forall|q: P|
            #[trigger] lookup_score(final(node).scores@, q) == lookup_score(old(node).scores@, q)
                + (match outcome {
                Outcome::Winner(p) => if q == *p { 1int } else { 0 },
                Outcome::Draw(ps) => if ps@.contains(q) { 1int } else { 0 },
                Outcome::Escape(_) => 0,
            }),
        (match outcome {
            Outcome::Winner(_) => {
                &&& (final(node).in_edge is Some <==> old(node).in_edge is Some)
                &&& (old(node).in_edge is Some ==> final(node).in_edge->0.action == old(
                    node,
                ).in_edge->0.action && final(node).in_edge->0.num_visits == old(
                    node,
                ).in_edge->0.num_visits + 1)
            },
            _ => final(node).in_edge == old(node).in_edge,
        }),
{
    node.num_visits = node.num_visits + 1;
    match outcome {
        Outcome::Winner(winner_player) => {
            award_point(&mut node.scores, *winner_player);
            match &mut node.in_edge {
                Some(edge) => {
                    edge.num_visits = edge.num_visits + 1;
                },
                None => {},
            }
        },
        Outcome::Draw(drawing_players) => {
            let m = drawing_players.len();
            let mut d: usize = 0;
            while d < m
                invariant
                    m == drawing_players@.len(),
                    d <= m,
                    players_distinct(node.scores@),
                    node.num_visits == old(node).num_visits + 1,
                    node.state == old(node).state,
                    node.children == old(node).children,
                    node.parent == old(node).parent,
                    node.in_edge == old(node).in_edge,
                    old(node).num_visits + 1 <= u32::MAX,
                    forall|q: P|
                        #[trigger] lookup_score(old(node).scores@, q) <= old(node).num_visits,
                    forall|q: P|
                        #[trigger] lookup_score(node.scores@, q) == lookup_score(
                            old(node).scores@,
                            q,
                        ) + (if drawing_players@.take(d as int).contains(q) { 1int } else { 0 }),
                decreases m - d,
            {
                let p = drawing_players[d];
                let mut seen = false;
                let mut e: usize = 0;
                while e < d
                    invariant
                        e <= d,
                        d < m,
                        m == drawing_players@.len(),
                        p == drawing_players@[d as int],
                        seen == drawing_players@.take(e as int).contains(p),
                    decreases d - e,
                {
                    let ghost before_take = drawing_players@.take(e as int);
                    if drawing_players[e].eq_player(&p) {
                        seen = true;
                    }
                    proof {
                        assert(drawing_players@.take(e as int + 1) =~= before_take.push(
                            drawing_players@[e as int],
                        ));
                        lemma_push_contains(before_take, drawing_players@[e as int], p);
                    }
                    e = e + 1;
                }
                let ghost taken = drawing_players@.take(d as int);
                proof {
                    assert(drawing_players@.take(d as int + 1) =~= taken.push(p));
                }
                if !seen {
                    proof {
                        assert(lookup_score(node.scores@, p) == lookup_score(
                            old(node).scores@,
                            p,
                        ));
                    }
                    let ghost before_scores = node.scores@;
                    award_point(&mut node.scores, p);
                    proof {
                        assert forall|q: P| #[trigger] lookup_score(node.scores@, q)
                            == lookup_score(old(node).scores@, q) + (if taken.push(p).contains(q) {
                            1int
                        } else {
                            0
                        }) by {
                            lemma_push_contains(taken, p, q);
                            if q != p {
                                assert(lookup_score(node.scores@, q) == lookup_score(
                                    before_scores,
                                    q,
                                ));
                            }
                        }
                    }
                } else {
                    proof {
                        assert forall|q: P| #[trigger] lookup_score(node.scores@, q)
                            == lookup_score(old(node).scores@, q) + (if taken.push(p).contains(q) {
                            1int
                        } else {
                            0
                        }) by {
                            lemma_push_contains(taken, p, q);
                        }
                    }
                }
                d = d + 1;
            }
            proof {
                assert(drawing_players@.take(m as int) =~= drawing_players@);
            }
        },
        Outcome::Escape(_) => {},
    }
}

/// One flattened root-child statistic: the action on the edge from the root,
/// one player, that player's cumulative score at the child, and the child's
/// visit count.
pub struct Score<A, P> {
    pub action: A,
    pub player: P,
    pub score: u32,
    pub num_visits: u32,
}

} // verus!
