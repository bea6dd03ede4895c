//! The search engine: an arena of nodes, UCT selection, expansion,
//! random playouts and backpropagation.
use crate::uct::{uct, uct_score};
use rand::Rng;
use vstd::prelude::*;

verus! {

pub type NodeIndex = usize;

pub type Action = usize;

/// Reward of a playout that the second player won, in half points.
pub const LOSS: u64 = 0;

/// Reward of a drawn playout, in half points.
pub const DRAW: u64 = 1;

/// Reward of a playout that the first player won, in half points.
pub const WIN: u64 = 2;

/// Why a search could not produce a move.
#[derive(Debug)]
pub enum MctsError {
    /// The root never got a child: no move was ever expanded.
    NoLegalMoves,
    /// A finished game reported a winner other than 1, -1 or 0.
    InvalidGameStateContract,
}

/// A position of a two-player game, as the search sees it.
pub trait GameState: Sized {
    /// The legal moves, in the order `get_legal_moves` lists them.
    spec fn legal(&self) -> Seq<Action>;

    /// Whether the game is over.
    spec fn terminal(&self) -> bool;

    /// 1 or -1 for the player who won, 0 for a draw, none while the game runs.
    spec fn winner(&self) -> Option<i32>;

    /// The position after `action` is played.
    spec fn after(&self, action: Action) -> Self;

    /// A bound on the number of moves left; every move lowers it.
    spec fn horizon(&self) -> nat;

    fn get_legal_moves(&self) -> (r: Vec<Action>)
        ensures
            r@ == self.legal(),
            r@.no_duplicates(),
            !self.terminal() ==> r@.len() > 0,
    ;

    fn make_move(&mut self, action: Action)
        requires
            old(self).legal().contains(action),
        ensures
            *final(self) == old(self).after(action),
            final(self).horizon() < old(self).horizon(),
    ;

    fn is_terminal(&self) -> (r: bool)
        ensures
            r == self.terminal(),
    ;

    fn get_winner(&self) -> (r: Option<i32>)
        ensures
            r == self.winner(),
    ;

    /// An independent copy of the position.
    fn clone(&self) -> (r: Self)
        ensures
            r == *self,
    ;
}

/// The reward of a finished game with this winner: `WIN` when the first
/// player (1) won, `LOSS` when the second (-1) did, `DRAW` for a draw (0),
/// and none for any other value.
pub open spec fn reward_of(winner: Option<i32>) -> Option<u64> {
    if winner == Some(1i32) {
        Some(WIN)
    } else if winner == Some(-1i32) {
        Some(LOSS)
    } else if winner == Some(0i32) {
        Some(DRAW)
    } else {
        None
    }
}

/// The position reached from `a` when each of `picks`, in turn, chooses
/// a move by its place in the list of legal moves.
pub open spec fn replay_picks<G: GameState>(a: G, picks: Seq<usize>) -> G
    decreases picks.len(),
{
    if picks.len() == 0 {
        a
    } else {
        let b = replay_picks(a, picks.drop_last());
        b.after(b.legal()[picks.last() as int])
    }
}

/// Whether each of `picks` names a legal move, in turn, from `a`, chosen
/// while the game is not over.
pub open spec fn valid_picks<G: GameState>(a: G, picks: Seq<usize>) -> bool
    decreases picks.len(),
{
    picks.len() == 0 || {
        let b = replay_picks(a, picks.drop_last());
        valid_picks(a, picks.drop_last()) && !b.terminal() && picks.last() < b.legal().len()
    }
}

/// Plays the legal move at place `pick` of the list of legal moves.
pub fn play_pick<G: GameState>(state: &mut G, pick: usize)
    requires
        pick < old(state).legal().len(),
    ensures
        *final(state) == old(state).after(old(state).legal()[pick as int]),
        final(state).horizon() < old(state).horizon(),
{
    let moves = state.get_legal_moves();
    let m = moves[pick];
    state.make_move(m);
}

/// The reward of a finished game with the given winner (see `reward_of`).
pub fn reward_for(winner: Option<i32>) -> (r: Option<u64>)
    ensures
        r == reward_of(winner),
{
    match winner {
        Some(1) => Some(WIN),
        Some(-1) => Some(LOSS),
        Some(0) => Some(DRAW),
        _ => None,
    }
}

/// Relies on rand::thread_rng and Rng::gen_range: a value drawn from the
/// range `0..len`, which is not empty here.
#[verifier::external_body]
fn random_index(len: usize) -> (r: usize)
    requires
        len > 0,
    ensures
        r < len,
{
    rand::thread_rng().gen_range(0..len)
}

/// One position of the search tree.
pub struct Node<G> {
    pub state: G,
    pub parent: Option<NodeIndex>,
    pub children: Vec<NodeIndex>,
    /// Accumulated reward, in half points.
    pub wins: u64,
    pub visits: u64,
    /// Legal moves of `state` not yet expanded into children.
    pub untried_actions: Vec<Action>,
    /// The move that led here from the parent.
    pub last_action: Option<Action>,
}

/// The search tree for one decision: nodes addressed by index, root first.
pub struct MCTS<G> {
    pub root: NodeIndex,
    pub nodes: Vec<Node<G>>,
}

impl<G: GameState> MCTS<G> {
    pub open spec fn len(&self) -> int {
        self.nodes@.len() as int
    }

    pub open spec fn node(&self, i: int) -> Node<G> {
        self.nodes@[i]
    }

    /// The structural rules every node keeps.
    pub open spec fn node_wf(&self, i: int) -> bool {
        let n = self.node(i);
        &&& (i == 0) == (n.parent is None)
        &&& (i == 0) == (n.last_action is None)
        &&& (n.parent matches Some(p) ==> p < i)
        &&& forall|j: int|
            0 <= j < n.children@.len() ==> i < #[trigger] n.children@[j] < self.len()
        &&& forall|j: int|
            0 <= j < n.children@.len() ==> #[trigger] self.node(n.children@[j] as int).parent
                == Some(i as NodeIndex)
        &&& n.children@.no_duplicates()
        &&& (n.parent matches Some(p) ==> self.node(p as int).children@.contains(i as NodeIndex))
        &&& n.wins <= 2 * n.visits
        &&& n.visits <= self.node(0).visits
        &&& self.moves_kept(i)
    }

    /// The untried moves of node `i` are the first of its legal moves, and
    /// its children hold the others, the last legal move in the first child.
    pub open spec fn moves_kept(&self, i: int) -> bool {
        let n = self.node(i);
        let legal = n.state.legal();
        &&& n.untried_actions@.len() + n.children@.len() == legal.len()
        &&& forall|j: int|
            0 <= j < n.untried_actions@.len() ==> #[trigger] n.untried_actions@[j] == legal[j]
        &&& forall|j: int|
            0 <= j < n.children@.len() ==> #[trigger] self.node(n.children@[j] as int).last_action
                == Some(legal[legal.len() - 1 - j])
    }

    pub open spec fn wf(&self) -> bool {
        &&& self.root == 0
        &&& self.len() >= 1
        &&& forall|i: int| 0 <= i < self.len() ==> #[trigger] self.node_wf(i)
    }

    /// Every node but the root has been visited at least once, as holds
    /// between iterations of the search.
    pub open spec fn all_visited(&self) -> bool {
        forall|i: int| 1 <= i < self.len() ==> #[trigger] self.node(i).visits >= 1
    }

    /// The UCT score of child `c` under parent `p`, in the fixed-point
    /// approximation of `crate::uct::uct`.
    pub open spec fn uct_of(&self, p: int, c: int) -> int {
        uct(self.node(c).wins as nat, self.node(c).visits as nat, self.node(p).visits as nat)
    }

    /// The last of the highest-scoring children in `s`, under parent `p`.
    pub open spec fn uct_argmax(&self, p: int, s: Seq<NodeIndex>) -> NodeIndex
        decreases s.len(),
    {
        if s.len() <= 1 {
            s[0]
        } else {
            let b = self.uct_argmax(p, s.drop_last());
            if self.uct_of(p, s.last() as int) >= self.uct_of(p, b as int) {
                s.last()
            } else {
                b
            }
        }
    }

    /// The child of `p` with the highest UCT score (the last one on ties).
    pub open spec fn best_uct_child(&self, p: int) -> NodeIndex {
        self.uct_argmax(p, self.node(p).children@)
    }

    /// The node that selection reaches from `i`: `i` itself if it has
    /// untried moves or no children, else what selection reaches from its
    /// best child.
    pub open spec fn select_from(&self, i: int) -> int
        decreases self.len() - i,
    {
        if self.node(i).untried_actions@.len() > 0 || self.node(i).children@.len() == 0 {
            i
        } else {
            let c = self.best_uct_child(i) as int;
            if i < c < self.len() {
                self.select_from(c)
            } else {
                i
            }
        }
    }

    /// The UCT scores of `p`'s children are defined.
    pub open spec fn scorable(&self, p: int) -> bool {
        &&& self.node(p).children@.len() > 0 ==> self.node(p).visits >= 1
        &&& forall|j: int|
            0 <= j < self.node(p).children@.len() ==> #[trigger] self.node(
                self.node(p).children@[j] as int,
            ).visits >= 1
    }

    /// Whether `k` is `i` or one of its ancestors.
    pub open spec fn on_path(&self, i: int, k: int) -> bool
        decreases i,
    {
        if i < 0 {
            false
        } else if k == i {
            true
        } else {
            match self.node(i).parent {
                Some(p) => 0 <= p < i && self.on_path(p as int, k),
                None => false,
            }
        }
    }

    proof fn lemma_on_path_below(&self, i: int, k: int)
        requires
            self.on_path(i, k),
        ensures
            0 <= k <= i,
        decreases i,
    {
        if k != i {
            let p = self.node(i).parent->Some_0;
            self.lemma_on_path_below(p as int, k);
        }
    }

    proof fn lemma_root_on_path(&self, i: int)
        requires
            self.wf(),
            0 <= i < self.len(),
        ensures
            self.on_path(i, 0),
        decreases i,
    {
        assert(self.node_wf(i));
        if i != 0 {
            let p = self.node(i).parent->Some_0;
            self.lemma_root_on_path(p as int);
        }
    }

    proof fn lemma_on_path_trans(&self, i: int, c: int, k: int)
        requires
            self.on_path(i, c),
            self.on_path(c, k),
        ensures
            self.on_path(i, k),
        decreases i,
    {
        if c != i {
            let p = self.node(i).parent->Some_0;
            self.lemma_on_path_trans(p as int, c, k);
        }
    }

    /// Below a node `c` on the path from `i`, the path from `i` and the path
    /// from `c` agree.
    proof fn lemma_on_path_suffix(&self, i: int, c: int, k: int)
        requires
            self.on_path(i, c),
            self.on_path(i, k),
            k <= c,
        ensures
            self.on_path(c, k),
        decreases i,
    {
        if c != i {
            let p = self.node(i).parent->Some_0;
            self.lemma_on_path_below(p as int, c);
            if k != i {
                self.lemma_on_path_suffix(p as int, c, k);
            }
        }
    }

    /// The visits of the nodes in `s`, summed.
    pub open spec fn visits_sum(&self, s: Seq<NodeIndex>) -> int
        decreases s.len(),
    {
        if s.len() == 0 {
            0
        } else {
            self.visits_sum(s.drop_last()) + self.node(s.last() as int).visits
        }
    }

    /// The wins of the nodes in `s`, summed.
    pub open spec fn wins_sum(&self, s: Seq<NodeIndex>) -> int
        decreases s.len(),
    {
        if s.len() == 0 {
            0
        } else {
            self.wins_sum(s.drop_last()) + self.node(s.last() as int).wins
        }
    }

    /// The counts add up: the root's visits and wins are those of its
    /// children summed, and a visited node below the root has one visit more
    /// than its children together (the playout that started at it).
    pub open spec fn tallied(&self) -> bool {
        &&& self.node(0).visits == self.visits_sum(self.node(0).children@)
        &&& self.node(0).wins == self.wins_sum(self.node(0).children@)
        &&& forall|i: int|
            1 <= i < self.len() ==> (#[trigger] self.node(i)).visits == (if self.node(i).visits
                == 0 {
                0int
            } else {
                1int
            }) + self.visits_sum(self.node(i).children@)
    }

    proof fn lemma_sums_frame(&self, other: &Self, s: Seq<NodeIndex>)
        requires
            forall|j: int|
                0 <= j < s.len() ==> #[trigger] self.node(s[j] as int).visits == other.node(
                    s[j] as int,
                ).visits && self.node(s[j] as int).wins == other.node(s[j] as int).wins,
        ensures
            self.visits_sum(s) == other.visits_sum(s),
            self.wins_sum(s) == other.wins_sum(s),
        decreases s.len(),
    {
        if s.len() > 0 {
            let t = s.drop_last();
            assert forall|j: int| 0 <= j < t.len() implies #[trigger] self.node(t[j] as int).visits
                == other.node(t[j] as int).visits && self.node(t[j] as int).wins == other.node(
                t[j] as int,
            ).wins by {
                assert(t[j] == s[j]);
            }
            self.lemma_sums_frame(other, t);
            assert(s.last() == s[s.len() - 1]);
        }
    }

    /// Raising one node `c` of `s` by one visit and `result` wins raises
    /// the sums over `s` by as much.
    proof fn lemma_sums_bump(&self, other: &Self, s: Seq<NodeIndex>, c: NodeIndex, result: int)
        requires
            s.no_duplicates(),
            s.contains(c),
            other.node(c as int).visits == self.node(c as int).visits + 1,
            other.node(c as int).wins == self.node(c as int).wins + result,
            forall|j: int|
                0 <= j < s.len() && s[j] != c ==> #[trigger] self.node(s[j] as int).visits
                    == other.node(s[j] as int).visits && self.node(s[j] as int).wins == other.node(
                    s[j] as int,
                ).wins,
        ensures
            other.visits_sum(s) == self.visits_sum(s) + 1,
            other.wins_sum(s) == self.wins_sum(s) + result,
        decreases s.len(),
    {
        let t = s.drop_last();
        assert(s.last() == s[s.len() - 1]);
        assert(other.wins_sum(s) == other.wins_sum(t) + other.node(s.last() as int).wins);
        assert(self.wins_sum(s) == self.wins_sum(t) + self.node(s.last() as int).wins);
        if s.last() == c {
            assert forall|j: int| 0 <= j < t.len() implies #[trigger] self.node(t[j] as int).visits
                == other.node(t[j] as int).visits && self.node(t[j] as int).wins == other.node(
                t[j] as int,
            ).wins by {
                assert(t[j] == s[j]);
                assert(s[j] != s[s.len() - 1]);
            }
            self.lemma_sums_frame(other, t);
        } else {
            let k = choose|k: int| 0 <= k < s.len() && s[k] == c;
            assert(t[k] == c);
            assert(t.no_duplicates()) by {
                assert forall|x: int, y: int| 0 <= x < t.len() && 0 <= y < t.len() && x != y implies t[x] != t[y] by {
                    assert(t[x] == s[x] && t[y] == s[y]);
                }
            }
            assert forall|j: int| 0 <= j < t.len() && t[j] != c implies #[trigger] self.node(t[j] as int).visits
                == other.node(t[j] as int).visits && self.node(t[j] as int).wins == other.node(
                t[j] as int,
            ).wins by {
                assert(t[j] == s[j]);
            }
            self.lemma_sums_bump(other, t, c, result);
        }
    }

    /// The parent of a node on the path from `e` is on that path too.
    proof fn lemma_on_path_parent(&self, e: int, c: int, p: NodeIndex)
        requires
            self.wf(),
            0 <= e < self.len(),
            self.on_path(e, c),
            self.node(c).parent == Some(p),
        ensures
            self.on_path(e, p as int),
        decreases e,
    {
        assert(self.node_wf(e));
        if c == e {
            assert(self.on_path(p as int, p as int));
        } else {
            let q = self.node(e).parent->Some_0;
            self.lemma_on_path_parent(q as int, c, p);
        }
    }

    /// A node on the path from `e`, other than `e`, has exactly one child on
    /// that path.
    proof fn lemma_on_path_child(&self, e: NodeIndex, i: NodeIndex) -> (c: NodeIndex)
        requires
            self.wf(),
            e < self.len(),
            self.on_path(e as int, i as int),
            i != e,
        ensures
            self.on_path(e as int, c as int),
            self.node(i as int).children@.contains(c),
            forall|d: int|
                0 <= d < self.len() && self.on_path(e as int, d) && self.node(d).parent == Some(i)
                    ==> d == c,
        decreases e,
    {
        assert(self.node_wf(e as int));
        let q = self.node(e as int).parent->Some_0;
        let c = if q == i {
            e
        } else {
            self.lemma_on_path_child(q, i)
        };
        assert(self.on_path(e as int, c as int));
        self.lemma_on_path_below(e as int, c as int);
        self.lemma_on_path_below(e as int, i as int);
        assert(self.node_wf(c as int));
        assert(self.node_wf(i as int));
        assert forall|d: int|
            0 <= d < self.len() && self.on_path(e as int, d) && self.node(d).parent == Some(i)
                implies d == c by {
            assert(self.node_wf(d));
            if d != c {
                if d < c {
                    self.lemma_on_path_suffix(e as int, c as int, d);
                    let pc = self.node(c as int).parent->Some_0;
                    self.lemma_on_path_below(pc as int, d);
                } else {
                    self.lemma_on_path_suffix(e as int, d, c as int);
                    self.lemma_on_path_below(i as int, c as int);
                }
            }
        }
        c
    }

    /// Backpropagating from a new, unvisited leaf `e` below the root, when
    /// every other node below the root has been visited, keeps the counts
    /// adding up.
    proof fn lemma_backpropagated_tallied(&self, after: &Self, e: NodeIndex, result: u64)
        requires
            self.wf(),
            self.tallied(),
            0 < e < self.len(),
            self.len() <= usize::MAX,
            self.node(e as int).visits == 0,
            self.node(e as int).children@.len() == 0,
            forall|k: int| 1 <= k < self.len() && k != e ==> #[trigger] self.node(k).visits >= 1,
            after.len() == self.len(),
            forall|k: int|
                0 <= k < self.len() ==> {
                    let a = self.node(k);
                    let b = #[trigger] after.node(k);
                    &&& b.children == a.children
                    &&& b.parent == a.parent
                    &&& if self.on_path(e as int, k) {
                        b.visits == a.visits + 1 && b.wins == a.wins + result
                    } else {
                        b.visits == a.visits && b.wins == a.wins
                    }
                },
        ensures
            after.tallied(),
    {
        assert forall|i: int| 0 <= i < self.len() implies {
            let ch = (#[trigger] after.node(i)).children@;
            &&& !self.on_path(e as int, i) ==> after.visits_sum(ch) == self.visits_sum(ch)
                && after.wins_sum(ch) == self.wins_sum(ch)
            &&& self.on_path(e as int, i) && i != e ==> after.visits_sum(ch) == self.visits_sum(ch)
                + 1 && after.wins_sum(ch) == self.wins_sum(ch) + result
        } by {
            assert(self.node_wf(i));
            let ch = self.node(i).children@;
            assert(after.node(i).children@ == ch);
            if !self.on_path(e as int, i) {
                assert forall|j: int| 0 <= j < ch.len() implies #[trigger] self.node(ch[j] as int).visits
                    == after.node(ch[j] as int).visits && self.node(ch[j] as int).wins == after.node(
                    ch[j] as int,
                ).wins by {
                    let c = ch[j] as int;
                    assert(self.node(c).parent == Some(i as NodeIndex));
                    if self.on_path(e as int, c) {
                        self.lemma_on_path_parent(e as int, c, i as NodeIndex);
                    }
                }
                self.lemma_sums_frame(after, ch);
            } else if i != e {
                assert((i as NodeIndex) as int == i);
                let c = self.lemma_on_path_child(e, i as NodeIndex);
                assert(self.node_wf(i));
                assert forall|j: int| 0 <= j < ch.len() && ch[j] != c implies #[trigger] self.node(
                    ch[j] as int,
                ).visits == after.node(ch[j] as int).visits && self.node(ch[j] as int).wins
                    == after.node(ch[j] as int).wins by {
                    let d = ch[j] as int;
                    assert(self.node(d).parent == Some(i as NodeIndex));
                }
                let k = choose|k: int| 0 <= k < ch.len() && ch[k] == c;
                assert(i < ch[k]);
                self.lemma_sums_bump(after, ch, c, result as int);
            }
        }
        assert(self.on_path(e as int, e as int));
        self.lemma_root_on_path(e as int);
        assert(after.visits_sum(after.node(e as int).children@) == 0);
        assert forall|i: int| 1 <= i < after.len() implies (#[trigger] after.node(i)).visits == (
        if after.node(i).visits == 0 {
            0int
        } else {
            1int
        }) + after.visits_sum(after.node(i).children@) by {
            assert(self.node(i) == self.node(i));
        }
    }

    /// A fresh tree whose root holds `state`.
    pub fn new(state: G) -> (r: MCTS<G>)
        ensures
            r.wf(),
            r.len() == 1,
            r.node(0).state == state,
            r.node(0).parent is None,
            r.node(0).children@.len() == 0,
            r.node(0).wins == 0,
            r.node(0).visits == 0,
            r.node(0).untried_actions@ == state.legal(),
            r.node(0).last_action is None,
            r.tallied(),
    {
        let untried_actions = state.get_legal_moves();
        let root = Node {
            state,
            parent: None,
            children: Vec::new(),
            wins: 0,
            visits: 0,
            untried_actions,
            last_action: None,
        };
        let mut nodes: Vec<Node<G>> = Vec::new();
        nodes.push(root);
        let r = MCTS { root: 0, nodes };
        assert(r.node_wf(0));
        r
    }

    /// The child of `p` with the highest UCT score, or none without children.
    fn best_child_by_uct(&self, p: NodeIndex) -> (r: Option<NodeIndex>)
        requires
            self.wf(),
            p < self.len(),
            self.scorable(p as int),
        ensures
            self.node(p as int).children@.len() == 0 ==> r is None,
            self.node(p as int).children@.len() > 0 ==> r == Some(self.best_uct_child(p as int)),
    {
        let children = &self.nodes[p].children;
        if children.len() == 0 {
            return None;
        }
        assert(self.node_wf(p as int));
        let parent_visits = self.nodes[p].visits;
        let mut best: NodeIndex = children[0];
        assert(self.node_wf(best as int));
        let mut best_score = uct_score(
            self.nodes[best].wins,
            self.nodes[best].visits,
            parent_visits,
        );
        assert(children@.take(1).drop_last().len() == 0);
        let mut j: usize = 1;
        while j < children.len()
            invariant
                self.wf(),
                p < self.len(),
                self.scorable(p as int),
                children == &self.nodes@[p as int].children,
                1 <= j <= children@.len(),
                best == self.uct_argmax(p as int, children@.take(j as int)),
                best < self.len(),
                best_score == self.uct_of(p as int, best as int),
                parent_visits == self.node(p as int).visits,
            decreases children@.len() - j,
        {
            let c = children[j];
            assert(self.node_wf(p as int));
            assert(c < self.len());
            assert(self.node_wf(c as int));
            assert(self.node(c as int).visits >= 1);
            let score = uct_score(self.nodes[c].wins, self.nodes[c].visits, parent_visits);
            assert(children@.take(j + 1).drop_last() =~= children@.take(j as int));
            assert(children@.take(j + 1).last() == c);
            if score >= best_score {
                best = c;
                best_score = score;
            }
            j = j + 1;
        }
        assert(children@.take(j as int) =~= children@);
        Some(best)
    }

    /// The node reached from `node_index` by following the best UCT child
    /// until a node with untried moves or without children.
    pub fn select(&self, node_index: NodeIndex) -> (r: NodeIndex)
        requires
            self.wf(),
            self.all_visited(),
            node_index < self.len(),
        ensures
            r == self.select_from(node_index as int),
            r < self.len(),
            self.on_path(r as int, node_index as int),
    {
        let mut cur = node_index;
        loop
            invariant
                self.wf(),
                self.all_visited(),
                cur < self.len(),
                self.select_from(node_index as int) == self.select_from(cur as int),
                self.on_path(cur as int, node_index as int),
            decreases self.len() - cur,
        {
            if self.nodes[cur].untried_actions.len() > 0 {
                return cur;
            }
            assert(self.node_wf(cur as int));
            if self.nodes[cur].children.len() == 0 {
                return cur;
            }
            proof {
                let c0 = self.node(cur as int).children@[0] as int;
                assert(self.node_wf(c0));
                assert(self.node(c0).visits >= 1);
            }
            match self.best_child_by_uct(cur) {
                None => {
                    return cur;
                },
                Some(c) => {
                    proof {
                        let ch = self.node(cur as int).children@;
                        self.lemma_uct_argmax_in(cur as int, ch);
                        let k = choose|k: int| 0 <= k < ch.len() && ch[k] == c;
                        assert(self.node(ch[k] as int).parent == Some(cur));
                        assert(cur < ch[k]);
                        assert(self.on_path(c as int, node_index as int));
                    }
                    cur = c;
                },
            }
        }
    }

    /// Expands one untried move of `node_index` (the last one listed) into
    /// a new child and returns it. A node without untried moves is not
    /// expanded: its best UCT child is returned, or the node itself when it
    /// has no children, which signals that nothing is left to expand.
    pub fn expand(&mut self, node_index: NodeIndex) -> (r: NodeIndex)
        requires
            old(self).wf(),
            node_index < old(self).len(),
            old(self).node(node_index as int).untried_actions@.len() == 0 ==> old(self).scorable(
                node_index as int,
            ),
        ensures
            final(self).wf(),
            old(self).tallied() ==> final(self).tallied(),
            forall|k: int|
                0 <= k < final(self).len() ==> #[trigger] final(self).node(k).wins
                    <= 2 * final(self).node(k).visits,
            forall|k: int|
                0 <= k < old(self).len() ==> (#[trigger] final(self).node(k)).state == old(
                    self,
                ).node(k).state,
            ({
                let n = old(self).node(node_index as int);
                if n.untried_actions@.len() > 0 {
                    let a = n.untried_actions@.last();
                    let m = final(self).node(r as int);
                    &&& r == old(self).len()
                    &&& final(self).len() == old(self).len() + 1
                    &&& forall|k: int|
                        0 <= k < old(self).len() && k != node_index
                            ==> #[trigger] final(self).node(k) == old(self).node(k)
                    &&& final(self).node(node_index as int).parent == n.parent
                    &&& final(self).node(node_index as int).wins == n.wins
                    &&& final(self).node(node_index as int).visits == n.visits
                    &&& final(self).node(node_index as int).last_action == n.last_action
                    &&& final(self).node(node_index as int).untried_actions@
                        == n.untried_actions@.drop_last()
                    &&& final(self).node(node_index as int).children@ == n.children@.push(r)
                    &&& m.state == n.state.after(a)
                    &&& m.parent == Some(node_index)
                    &&& m.children@.len() == 0
                    &&& m.wins == 0
                    &&& m.visits == 0
                    &&& m.untried_actions@ == n.state.after(a).legal()
                    &&& m.last_action == Some(a)
                } else {
                    &&& *final(self) == *old(self)
                    &&& n.children@.len() == 0 ==> r == node_index
                    &&& n.children@.len() > 0 ==> r == old(self).best_uct_child(node_index as int)
                }
            }),
    {
        if self.nodes[node_index].untried_actions.len() > 0 {
            assert(self.node_wf(node_index as int));
            let ghost before = *self;
            let action = self.nodes[node_index].untried_actions.pop().unwrap();
            let mut state = self.nodes[node_index].state.clone();
            assert(before.node(node_index as int).untried_actions@[before.node(
                node_index as int,
            ).untried_actions@.len() - 1] == action);
            state.make_move(action);
            let new_node_index = self.nodes.len();
            let untried_actions = state.get_legal_moves();
            self.nodes.push(
                Node {
                    state,
                    parent: Some(node_index),
                    children: Vec::new(),
                    wins: 0,
                    visits: 0,
                    untried_actions,
                    last_action: Some(action),
                },
            );
            self.nodes[node_index].children.push(new_node_index);
            proof {
                assert forall|i: int| 0 <= i < self.len() implies #[trigger] self.node_wf(i) by {
                    if i < before.len() {
                        assert(before.node_wf(i));
                    }
                    let n = self.node(i);
                    let legal = n.state.legal();
                    if i < before.len() {
                        let b = before.node(i);
                        assert(n.state == b.state);
                        assert forall|j: int| 0 <= j < b.children@.len() implies self.node(
                            #[trigger] b.children@[j] as int,
                        ).last_action == before.node(b.children@[j] as int).last_action by {
                            assert(b.children@[j] < before.len());
                        }
                        assert forall|j: int| 0 <= j < n.children@.len() implies i < #[trigger] n.children@[j] < self.len() by {
                            if j < b.children@.len() {
                                assert(n.children@[j] == b.children@[j]);
                            }
                        }
                        assert forall|j: int| 0 <= j < n.untried_actions@.len() implies #[trigger] n.untried_actions@[j] == legal[j] by {
                            assert(n.untried_actions@[j] == b.untried_actions@[j]);
                        }
                        assert forall|j: int| 0 <= j < n.children@.len() implies #[trigger] self.node(n.children@[j] as int).last_action
                            == Some(legal[legal.len() - 1 - j]) by {
                            if j < b.children@.len() {
                                assert(n.children@[j] == b.children@[j]);
                                assert(before.node(b.children@[j] as int).last_action == Some(legal[legal.len() - 1 - j]));
                            } else {
                                assert(i == node_index);
                                assert(n.children@[j] == new_node_index);
                            }
                        }
                        assert(self.moves_kept(i));
                        if i == node_index {
                            assert forall|x: int, y: int| 0 <= x < n.children@.len() && 0 <= y < n.children@.len() && x != y implies n.children@[x] != n.children@[y] by {
                                if x < b.children@.len() {
                                    assert(b.children@[x] < before.len());
                                }
                                if y < b.children@.len() {
                                    assert(b.children@[y] < before.len());
                                }
                            }
                        }
                        if let Some(q) = n.parent {
                            assert(before.node_wf(q as int));
                            let qc = before.node(q as int).children@;
                            let w = choose|w: int| 0 <= w < qc.len() && qc[w] == i as NodeIndex;
                            assert(self.node(q as int).children@[w] == i as NodeIndex);
                        }
                    }
                    if i == before.len() {
                        let qc = self.node(node_index as int).children@;
                        assert(qc[qc.len() - 1] == i as NodeIndex);
                        assert forall|j: int| 0 <= j < n.untried_actions@.len() implies #[trigger] n.untried_actions@[j] == legal[j] by {}
                        assert(self.moves_kept(i));
                    }
                }
            }
            proof {
                if before.tallied() {
                    assert forall|i: int| 0 <= i < before.len() implies self.visits_sum(
                        (#[trigger] self.node(i)).children@,
                    ) == before.visits_sum(before.node(i).children@) && self.wins_sum(
                        self.node(i).children@,
                    ) == before.wins_sum(before.node(i).children@) by {
                        assert(before.node_wf(i));
                        let bc = before.node(i).children@;
                        assert forall|j: int| 0 <= j < bc.len() implies #[trigger] before.node(
                            bc[j] as int,
                        ).visits == self.node(bc[j] as int).visits && before.node(
                            bc[j] as int,
                        ).wins == self.node(bc[j] as int).wins by {
                            assert(bc[j] < before.len());
                        }
                        before.lemma_sums_frame(self, bc);
                        if i == node_index {
                            let nc = self.node(i).children@;
                            assert(nc.drop_last() =~= bc);
                            assert(nc.last() == new_node_index);
                        }
                    }
                    assert(self.node(new_node_index as int).children@.len() == 0);
                    assert(self.visits_sum(self.node(new_node_index as int).children@) == 0);
                    assert(self.node(0).visits == before.node(0).visits);
                    assert(self.node(0).wins == before.node(0).wins);
                    assert forall|i: int| 1 <= i < self.len() implies (#[trigger] self.node(
                        i,
                    )).visits == (if self.node(i).visits == 0 {
                        0int
                    } else {
                        1int
                    }) + self.visits_sum(self.node(i).children@) by {
                        if i < before.len() {
                            assert(before.node(i).visits == self.node(i).visits);
                        }
                    }
                }
            }
            proof {
                self.lemma_wins_within_visits();
            }
            new_node_index
        } else {
            proof {
                self.lemma_wins_within_visits();
            }
            match self.best_child_by_uct(node_index) {
                Some(c) => c,
                None => node_index,
            }
        }
    }

    /// Adds one visit and `result` half points to `node_index` and to each
    /// of its ancestors, up to the root.
    pub fn backpropagate(&mut self, node_index: NodeIndex, result: u64)
        requires
            old(self).wf(),
            node_index < old(self).len(),
            result <= WIN,
            old(self).node(0).visits < u64::MAX / 2,
        ensures
            final(self).wf(),
            forall|k: int|
                0 <= k < final(self).len() ==> #[trigger] final(self).node(k).wins
                    <= 2 * final(self).node(k).visits,
            final(self).node(0).visits == old(self).node(0).visits + 1,
            ({
                let e = node_index as int;
                &&& old(self).tallied()
                &&& 0 < e
                &&& old(self).node(e).visits == 0
                &&& old(self).node(e).children@.len() == 0
                &&& forall|k: int|
                    1 <= k < old(self).len() && k != e ==> #[trigger] old(self).node(k).visits >= 1
            }) ==> final(self).tallied(),
            final(self).len() == old(self).len(),
            forall|k: int|
                0 <= k < old(self).len() ==> {
                    let a = old(self).node(k);
                    let b = #[trigger] final(self).node(k);
                    &&& b.state == a.state
                    &&& b.parent == a.parent
                    &&& b.children == a.children
                    &&& b.untried_actions == a.untried_actions
                    &&& b.last_action == a.last_action
                    &&& if old(self).on_path(node_index as int, k) {
                        b.visits == a.visits + 1 && b.wins == a.wins + result
                    } else {
                        b.visits == a.visits && b.wins == a.wins
                    }
                },
    {
        let ghost before = *self;
        let count: usize = self.nodes.len();
        let mut cur = node_index;
        proof {
            assert forall|k: int| before.on_path(node_index as int, k) implies k <= node_index by {
                before.lemma_on_path_below(node_index as int, k);
            }
        }
        loop
            invariant
                before == *old(self),
                count == before.len(),
                before.wf(),
                node_index < before.len(),
                before.node(0).visits < u64::MAX / 2,
                result <= WIN,
                self.len() == before.len(),
                self.root == before.root,
                cur < before.len(),
                before.on_path(node_index as int, cur as int),
                forall|k: int|
                    0 <= k < before.len() ==> {
                        let a = before.node(k);
                        let b = #[trigger] self.node(k);
                        &&& b.state == a.state
                        &&& b.parent == a.parent
                        &&& b.children == a.children
                        &&& b.untried_actions == a.untried_actions
                        &&& b.last_action == a.last_action
                        &&& if before.on_path(node_index as int, k) && k > cur {
                            b.visits == a.visits + 1 && b.wins == a.wins + result
                        } else {
                            b.visits == a.visits && b.wins == a.wins
                        }
                    },
            decreases cur,
        {
            assert(before.node_wf(cur as int));
            assert(self.node(cur as int).visits == before.node(cur as int).visits);
            let ghost prev = *self;
            self.nodes[cur].visits = self.nodes[cur].visits + 1;
            self.nodes[cur].wins = self.nodes[cur].wins + result;
            proof {
                assert forall|k: int| 0 <= k < before.len() && k != cur implies #[trigger] self.node(k) == prev.node(k) by {}
                assert forall|k: int| 0 <= k < before.len() implies {
                    let a = before.node(k);
                    let b = #[trigger] self.node(k);
                    &&& b.state == a.state
                    &&& b.parent == a.parent
                    &&& b.children == a.children
                    &&& b.untried_actions == a.untried_actions
                    &&& b.last_action == a.last_action
                    &&& if before.on_path(node_index as int, k) && k >= cur {
                        b.visits == a.visits + 1 && b.wins == a.wins + result
                    } else {
                        b.visits == a.visits && b.wins == a.wins
                    }
                } by {
                    if k != cur {
                        assert(self.node(k) == prev.node(k));
                    }
                }
            }
            match self.nodes[cur].parent {
                Some(p) => {
                    proof {
                        assert forall|k: int|
                            before.on_path(node_index as int, k) && p < k < cur implies false by {
                            before.lemma_on_path_suffix(node_index as int, cur as int, k);
                            before.lemma_on_path_below(p as int, k);
                        }
                        assert(before.on_path(p as int, p as int));
                        assert(before.on_path(cur as int, p as int));
                        before.lemma_on_path_trans(node_index as int, cur as int, p as int);
                    }
                    cur = p;
                },
                None => {
                    proof {
                        assert forall|k: int| before.on_path(node_index as int, k) implies k >= cur by {
                            before.lemma_on_path_below(node_index as int, k);
                        }
                        before.lemma_root_on_path(node_index as int);
                        assert(self.node(0).visits == before.node(0).visits + 1);
                        if before.tallied() && 0 < node_index && before.node(node_index as int).visits == 0
                            && before.node(node_index as int).children@.len() == 0 && (forall|k: int|
                            1 <= k < before.len() && k != node_index ==> #[trigger] before.node(k).visits >= 1) {
                            before.lemma_backpropagated_tallied(self, node_index, result);
                        }
                        assert forall|i: int| 0 <= i < self.len() implies #[trigger] self.node_wf(i) by {
                            assert(before.node_wf(i));
                            let a = before.node(i);
                            let b = self.node(i);
                            assert(b.visits <= a.visits + 1);
                            assert(b.wins <= 2 * b.visits);
                            assert(b.visits <= self.node(0).visits);
                            assert(b.children@ == a.children@);
                            assert(b.untried_actions@ == a.untried_actions@);
                        }
                        self.lemma_wins_within_visits();

                    }
                    return;
                },
            }
        }
    }

    /// Plays uniformly random legal moves from the position at `node_index`
    /// until the game is over, and returns the reward of the outcome.
    pub fn simulate(&self, node_index: NodeIndex) -> (r: Result<u64, MctsError>)
        requires
            self.wf(),
            node_index < self.len(),
        ensures
            r matches Ok(x) ==> exists|picks: Seq<usize>|
                #[trigger] valid_picks(self.node(node_index as int).state, picks) && replay_picks(
                    self.node(node_index as int).state,
                    picks,
                ).terminal() && reward_of(
                    replay_picks(self.node(node_index as int).state, picks).winner(),
                ) == Some(x),
            r matches Err(e) ==> e is InvalidGameStateContract && exists|picks: Seq<usize>|
                #[trigger] valid_picks(self.node(node_index as int).state, picks) && replay_picks(
                    self.node(node_index as int).state,
                    picks,
                ).terminal() && reward_of(
                    replay_picks(self.node(node_index as int).state, picks).winner(),
                ) is None,
    {
        let mut state = self.nodes[node_index].state.clone();
        let ghost start = state;
        let ghost mut picks: Seq<usize> = Seq::empty();
        while !state.is_terminal()
            invariant
                start == self.node(node_index as int).state,
                valid_picks(start, picks),
                state == replay_picks(start, picks),
            decreases state.horizon(),
        {
            let count = state.get_legal_moves().len();
            let pick = random_index(count);
            play_pick(&mut state, pick);
            proof {
                let old_picks = picks;
                picks = picks.push(pick);
                assert(picks.drop_last() =~= old_picks);
                assert(picks.last() == pick);
            }
        }
        let winner = state.get_winner();
        match reward_for(winner) {
            Some(x) => Ok(x),
            None => Err(MctsError::InvalidGameStateContract),
        }
    }

    /// The node that selection stops at has untried moves or no children.
    proof fn lemma_select_from_stops(&self, i: int)
        requires
            self.wf(),
            0 <= i < self.len(),
        ensures
            0 <= self.select_from(i) < self.len(),
            self.node(self.select_from(i)).untried_actions@.len() > 0 || self.node(
                self.select_from(i),
            ).children@.len() == 0,
        decreases self.len() - i,
    {
        let n = self.node(i);
        if n.untried_actions@.len() > 0 || n.children@.len() == 0 {
        } else {
            assert(self.node_wf(i));
            self.lemma_uct_argmax_in(i, n.children@);
            let c = self.best_uct_child(i) as int;
            let k = choose|k: int| 0 <= k < n.children@.len() && n.children@[k] == c;
            assert(i < n.children@[k] < self.len());
            self.lemma_select_from_stops(c);
        }
    }

    /// Selection from the root stops at a node with neither untried moves
    /// nor children: the search has nothing left to expand.
    pub open spec fn exhausted(&self) -> bool {
        let s = self.select_from(0);
        self.node(s).untried_actions@.len() == 0 && self.node(s).children@.len() == 0
    }

    /// The last of the most visited nodes in `s`.
    pub open spec fn visits_argmax(&self, s: Seq<NodeIndex>) -> NodeIndex
        decreases s.len(),
    {
        if s.len() <= 1 {
            s[0]
        } else {
            let b = self.visits_argmax(s.drop_last());
            if self.node(s.last() as int).visits >= self.node(b as int).visits {
                s.last()
            } else {
                b
            }
        }
    }

    /// The most visited child of the root (the last one on ties).
    pub open spec fn most_visited_child(&self) -> NodeIndex {
        self.visits_argmax(self.node(0).children@)
    }

    proof fn lemma_visits_argmax_in(&self, s: Seq<NodeIndex>)
        requires
            s.len() > 0,
        ensures
            s.contains(self.visits_argmax(s)),
        decreases s.len(),
    {
        if s.len() > 1 {
            self.lemma_visits_argmax_in(s.drop_last());
            let b = self.visits_argmax(s.drop_last());
            let k = choose|k: int| 0 <= k < s.drop_last().len() && s.drop_last()[k] == b;
            assert(s[k] == b);
            assert(s[s.len() - 1] == s.last());
        } else {
            assert(s[0] == s[0]);
        }
    }

    /// The most visited child of the root, or none without children.
    fn most_visited_root_child(&self) -> (r: Option<NodeIndex>)
        requires
            self.wf(),
        ensures
            self.node(0).children@.len() == 0 ==> r is None,
            self.node(0).children@.len() > 0 ==> r == Some(self.most_visited_child()),
    {
        let children = &self.nodes[0].children;
        if children.len() == 0 {
            return None;
        }
        assert(self.node_wf(0));
        let mut best: NodeIndex = children[0];
        assert(children@.take(1).drop_last().len() == 0);
        let mut j: usize = 1;
        while j < children.len()
            invariant
                self.wf(),
                children == &self.nodes@[0].children,
                1 <= j <= children@.len(),
                best == self.visits_argmax(children@.take(j as int)),
                best < self.len(),
            decreases children@.len() - j,
        {
            let c = children[j];
            assert(self.node_wf(0));
            assert(c < self.len());
            assert(children@.take(j + 1).drop_last() =~= children@.take(j as int));
            assert(children@.take(j + 1).last() == c);
            if self.nodes[c].visits >= self.nodes[best].visits {
                best = c;
            }
            j = j + 1;
        }
        assert(children@.take(j as int) =~= children@);
        Some(best)
    }

    /// Runs up to `iterations` rounds of selection, expansion, playout and
    /// backpropagation from the root, stopping early once nothing is left to
    /// expand, and returns the move of the root's most visited child.
    pub fn get_best_move(&mut self, iterations: u32) -> (r: Result<Action, MctsError>)
        requires
            old(self).wf(),
            old(self).all_visited(),
            old(self).node(0).visits + iterations < u64::MAX / 2,
        ensures
            final(self).wf(),
            forall|k: int|
                0 <= k < final(self).len() ==> #[trigger] final(self).node(k).wins
                    <= 2 * final(self).node(k).visits,
            !(r matches Err(MctsError::InvalidGameStateContract)) ==> final(self).all_visited(),
            !(r matches Err(MctsError::InvalidGameStateContract)) && old(self).tallied()
                ==> final(self).tallied(),
            !(r matches Err(MctsError::InvalidGameStateContract)) ==> {
                &&& old(self).node(0).visits <= final(self).node(0).visits
                &&& final(self).node(0).visits <= old(self).node(0).visits + iterations
                &&& final(self).node(0).visits < old(self).node(0).visits + iterations
                    ==> final(self).exhausted()
            },
            final(self).len() >= old(self).len(),
            forall|k: int|
                0 <= k < old(self).len() ==> #[trigger] final(self).node(k).state == old(self).node(
                    k,
                ).state,
            !(r matches Err(MctsError::InvalidGameStateContract)) ==> final(self).len() - old(
                self,
            ).len() == final(self).node(0).visits - old(self).node(0).visits,
            iterations > 0 && (old(self).node(0).untried_actions@.len() > 0 || old(self).node(
                0,
            ).children@.len() > 0) ==> !(r matches Err(MctsError::NoLegalMoves)),
            r matches Ok(a) ==> final(self).node(0).children@.len() > 0 && final(self).node(
                final(self).most_visited_child() as int,
            ).last_action == Some(a),
            r matches Ok(a) ==> old(self).node(0).state.legal().contains(a),
            r matches Err(MctsError::NoLegalMoves) ==> final(self).node(0).children@.len() == 0,
            r matches Err(MctsError::InvalidGameStateContract) ==> exists|i: int, picks: Seq<usize>|
                0 <= i < final(self).len() && #[trigger] valid_picks(final(self).node(i).state, picks)
                    && replay_picks(final(self).node(i).state, picks).terminal() && reward_of(
                    replay_picks(final(self).node(i).state, picks).winner(),
                ) is None,
    {
        let ghost start_visits = self.node(0).visits;
        let mut i: u32 = 0;
        let mut done = false;
        while i < iterations && !done
            invariant
                self.wf(),
                self.all_visited(),
                start_visits == old(self).node(0).visits,
                start_visits + iterations < u64::MAX / 2,
                i <= iterations,
                self.node(0).visits == start_visits + i,
                done ==> self.exhausted(),
                self.len() == old(self).len() + i,
                forall|k: int|
                    0 <= k < old(self).len() ==> #[trigger] self.node(k).state == old(self).node(
                        k,
                    ).state,
                self.node(0).children@.len() >= old(self).node(0).children@.len(),
                i > 0 ==> self.node(0).children@.len() > 0,
                i == 0 ==> *self == *old(self),
                old(self).tallied() ==> self.tallied(),
            decreases iterations - i, if done {
                0int
            } else {
                1int
            },
        {
            let selected = self.select(self.root);
            proof {
                self.lemma_select_from_stops(0);
                let c = self.node(selected as int).children@;
                assert(self.node_wf(selected as int));
                if c.len() > 0 {
                    assert(self.node_wf(c[0] as int));
                }
            }
            let ghost before = *self;
            let expanded = self.expand(selected);
            if expanded == selected {
                done = true;
            } else {
                proof {
                    if before.node(0).children@.len() == 0 {
                        assert(selected == 0);
                    }
                    assert(self.node(0).children@.len() > 0);
                    assert(self.node(0).children@.len() >= before.node(0).children@.len());
                }
                let ghost mid = *self;
                match self.simulate(expanded) {
                    Err(e) => {
                        proof {
                            assert(0 <= expanded < self.len());
                            self.lemma_wins_within_visits();
                        }
                        return Err(e);
                    },
                    Ok(x) => {
                        proof {
                            assert forall|k: int|
                                1 <= k < mid.len() && k != expanded implies #[trigger] mid.node(k).visits
                                >= 1 by {
                                assert(mid.node(k).visits == before.node(k).visits);
                            }
                        }
                        self.backpropagate(expanded, x);
                        proof {
                            mid.lemma_root_on_path(expanded as int);
                            assert(mid.on_path(expanded as int, expanded as int));
                            assert forall|k: int| 1 <= k < self.len() implies #[trigger] self.node(
                                k,
                            ).visits >= 1 by {
                                assert(mid.node(k).visits <= self.node(k).visits);
                                if k < before.len() {
                                    assert(before.node(k).visits >= 1);
                                }
                            }
                            assert(self.node(0).children == mid.node(0).children);
                            assert forall|k: int| 0 <= k < old(self).len() implies #[trigger] self.node(k).state == old(self).node(k).state by {
                                assert(self.node(k).state == mid.node(k).state);
                                assert(mid.node(k).state == before.node(k).state);
                            }
                        }
                        i = i + 1;
                    },
                }
            }
        }
        proof {
            self.lemma_wins_within_visits();
            if iterations > 0 && i == 0 {
                assert(done);
                if old(self).node(0).untried_actions@.len() > 0 {
                    assert(self.select_from(0) == 0);
                }
            }
        }
        match self.most_visited_root_child() {
            None => Err(MctsError::NoLegalMoves),
            Some(c) => {
                proof {
                    assert(self.node_wf(0));
                    self.lemma_visits_argmax_in(self.node(0).children@);
                    let k = choose|k: int|
                        0 <= k < self.node(0).children@.len() && self.node(0).children@[k] == c;
                    assert(0 < self.node(0).children@[k]);
                    assert(self.node_wf(c as int));
                    assert(self.moves_kept(0));
                    let legal = self.node(0).state.legal();
                    assert(self.node(self.node(0).children@[k] as int).last_action == Some(
                        legal[legal.len() - 1 - k],
                    ));
                    assert(legal.contains(legal[legal.len() - 1 - k]));
                }
                match self.nodes[c].last_action {
                    Some(a) => Ok(a),
                    None => Err(MctsError::NoLegalMoves),
                }
            },
        }
    }

    /// In a well-formed tree no node has more reward than visits: in half
    /// points, `0 <= wins <= 2 * visits`.
    pub proof fn lemma_wins_within_visits(&self)
        requires
            self.wf(),
        ensures
            forall|i: int|
                0 <= i < self.len() ==> #[trigger] self.node(i).wins <= 2 * self.node(i).visits,
    {
        assert forall|i: int| 0 <= i < self.len() implies #[trigger] self.node(i).wins <= 2
            * self.node(i).visits by {
            assert(self.node_wf(i));
        }
    }

    /// Selection in a fresh tree, whose root still has untried moves, stops
    /// at the root.
    pub proof fn lemma_select_fresh(&self)
        requires
            self.wf(),
            self.len() == 1,
            self.node(0).untried_actions@.len() > 0,
        ensures
            self.select_from(0) == 0,
    {
    }

    proof fn lemma_uct_argmax_in(&self, p: int, s: Seq<NodeIndex>)
        requires
            s.len() > 0,
        ensures
            s.contains(self.uct_argmax(p, s)),
        decreases s.len(),
    {
        if s.len() > 1 {
            self.lemma_uct_argmax_in(p, s.drop_last());
            let b = self.uct_argmax(p, s.drop_last());
            let k = choose|k: int| 0 <= k < s.drop_last().len() && s.drop_last()[k] == b;
            assert(s[k] == b);
            assert(s[s.len() - 1] == s.last());
        } else {
            assert(s[0] == s[0]);
        }
    }
}

} // verus!
