//! The Monte Carlo Tree Search engine: an arena tree of search nodes, the
//! four-phase iteration (select, expand, rollout, backpropagate), and the
//! read-off of the best action from a node's children.
//!
//! The UCT score is computed in fixed-point integer arithmetic: the mean
//! reward is scaled by [`UCT_SCALE`], and the exploration term uses the
//! floor base-2 logarithm of the parent's visit count and the floor square
//! root, so selection is an exact, deterministic function of the tree. A
//! never-visited child scores above every visited sibling, and ties go to
//! the earliest-inserted child.

use crate::arena::{
    ancestor_chain, lemma_ancestors_reach_root, lemma_tree_wf_same_structure, tree_wf, NodeId,
    NodeView, Tree,
};
use crate::arith::{ilog2, isqrt, spec_ilog2, spec_isqrt};
use crate::game::{reaches, reaches_in, reward_of_reachable_terminal, GameState, REWARD_BOUND};
use crate::rng::{entropy_seed, rng_below, rng_from_seed};
use crate::score::GameScore;
use vstd::prelude::*;

verus! {

/// The fixed-point scale of the UCT score: one unit of mean reward counts
/// as this many score units.
pub const UCT_SCALE: u64 = 1000000;

/// The payload stored at each arena position: a game state snapshot, the
/// move that produced it (absent for the root), a visit counter, and the
/// rewards accumulated by backpropagation.
pub struct MonteCarloNode<G> {
    state: G,
    action: Option<(u64, u64)>,
    visits: u32,
    reward: GameScore,
}

impl<G> MonteCarloNode<G> {
    /// The wrapped game state.
    pub closed spec fn spec_state(&self) -> G {
        self.state
    }

    /// The `(player, action)` pair that produced this state.
    pub closed spec fn spec_action(&self) -> Option<(u64, u64)> {
        self.action
    }

    /// How often backpropagation has passed through this node.
    pub closed spec fn spec_visits(&self) -> u32 {
        self.visits
    }

    /// The rewards accumulated for each player.
    pub closed spec fn spec_reward(&self) -> GameScore {
        self.reward
    }

    /// A fresh, never-visited node wrapping `state`; the root's shape.
    pub fn from_state(state: G) -> (n: Self)
        ensures
            n.spec_state() == state,
            n.spec_action() is None,
            n.spec_visits() == 0,
            n.spec_reward().wf(),
            n.spec_reward().total() == 0,
    {
        MonteCarloNode { state, action: None, visits: 0, reward: GameScore::new() }
    }

    /// A fresh node reached by `player` playing `action`.
    fn from_action(state: G, player: u64, action: u64) -> (n: Self)
        ensures
            n.spec_state() == state,
            n.spec_action() == Some((player, action)),
            n.spec_visits() == 0,
            n.spec_reward().wf(),
            n.spec_reward().total() == 0,
    {
        MonteCarloNode { state, action: Some((player, action)), visits: 0, reward: GameScore::new() }
    }

    /// The wrapped game state.
    pub fn state(&self) -> (r: &G)
        ensures
            *r == self.spec_state(),
    {
        &self.state
    }

    /// The move that produced this state; absent for the root.
    pub fn action(&self) -> (r: Option<(u64, u64)>)
        ensures
            r == self.spec_action(),
    {
        self.action
    }

    /// How often backpropagation has passed through this node.
    pub fn visits(&self) -> (r: u32)
        ensures
            r == self.spec_visits(),
    {
        self.visits
    }

    /// The rewards accumulated for each player.
    pub fn reward(&self) -> (r: &GameScore)
        ensures
            *r == self.spec_reward(),
    {
        &self.reward
    }
}

/// Well-formedness of one search node: a well-formed state, a well-formed
/// reward score, and accumulated reward bounded by the visits times the
/// largest single payoff.
pub open spec fn engine_node_wf<G: GameState>(n: MonteCarloNode<G>) -> bool {
    &&& n.spec_state().wf()
    &&& n.spec_reward().wf()
    &&& n.spec_reward().total() <= (n.spec_visits() as int) * (REWARD_BOUND as int)
    &&& n.spec_reward().total() >= 0
}

/// The search tree: an arena of [`MonteCarloNode`]s rooted at identifier 0,
/// plus the engine's own pseudo-random source.
pub struct MonteCarloTree<G: GameState> {
    tree: Tree<MonteCarloNode<G>>,
    rng: nanorand::WyRand,
}

impl<G: GameState> View for MonteCarloTree<G> {
    type V = Seq<NodeView<MonteCarloNode<G>>>;

    closed spec fn view(&self) -> Seq<NodeView<MonteCarloNode<G>>> {
        self.tree@
    }
}

/// The engine's invariant over the arena's node sequence: a well-formed
/// tree with at least its root, every node well formed, no node visited
/// more often than its parent or the root, and every non-root node
/// recording the move that produced it.
pub open spec fn engine_wf<G: GameState>(s: Seq<NodeView<MonteCarloNode<G>>>) -> bool {
    &&& tree_wf(s)
    &&& s.len() >= 1
    &&& forall|i: int| 0 <= i < s.len() ==> engine_node_wf((#[trigger] s[i]).data)
    &&& forall|i: int|
        0 <= i < s.len() ==> (#[trigger] s[i]).data.spec_visits() <= s[0].data.spec_visits()
    &&& forall|i: int|
        0 < i < s.len() ==> (#[trigger] s[i]).data.spec_visits()
            <= s[s[i].parent->Some_0].data.spec_visits()
    &&& forall|i: int| 0 < i < s.len() ==> (#[trigger] s[i]).data.spec_action() is Some
}

/// Appending a fresh zero-visit node under an existing parent keeps the
/// engine's invariant.
proof fn lemma_engine_wf_after_insert<G: GameState>(
    pre: Seq<NodeView<MonteCarloNode<G>>>,
    post: Seq<NodeView<MonteCarloNode<G>>>,
    p: int,
    child: MonteCarloNode<G>,
)
    requires
        engine_wf(pre),
        tree_wf(post),
        0 <= p < pre.len(),
        post.len() == pre.len() + 1,
        forall|k: int| 0 <= k < pre.len() ==> (#[trigger] post[k]).data == pre[k].data,
        forall|k: int| 0 <= k < pre.len() ==> (#[trigger] post[k]).parent == pre[k].parent,
        post[pre.len() as int].data == child,
        post[pre.len() as int].parent == Some(p),
        child.spec_visits() == 0,
        child.spec_action() is Some,
        engine_node_wf(child),
    ensures
        engine_wf(post),
{
    let n = pre.len() as int;
    assert forall|i: int| 0 <= i < post.len() implies engine_node_wf((#[trigger] post[i]).data) by {
        if i < n {
            assert(post[i].data == pre[i].data);
        }
    }
    assert forall|i: int| 0 <= i < post.len() implies (#[trigger] post[i]).data.spec_visits()
        <= post[0].data.spec_visits() by {
        if i < n {
            assert(post[i].data == pre[i].data);
        }
        assert(post[0].data == pre[0].data);
    }
    assert forall|i: int| 0 < i < post.len() implies (#[trigger] post[i]).data.spec_visits()
        <= post[post[i].parent->Some_0].data.spec_visits() by {
        if i < n {
            assert(post[i].data == pre[i].data && post[i].parent == pre[i].parent);
            let q = pre[i].parent->Some_0;
            assert(post[q].data == pre[q].data);
        } else {
            assert(post[p].data == pre[p].data);
        }
    }
}

/// The UCT score of a visited node, in fixed-point units of
/// [`UCT_SCALE`]: the scaled mean reward plus `c` times the floor square
/// root of `ilog2(parent visits) * UCT_SCALE^2 / visits`. The base-2
/// logarithm stands in for the natural one, and all rounding is downward,
/// so the score is an exact integer function of its arguments.
pub open spec fn spec_uct(w: u64, visits: u32, parent_visits: u32, c: u64) -> int {
    let exploit = ((w as int) * (UCT_SCALE as int)) / (visits as int);
    let arg = (spec_ilog2(parent_visits as nat) * (UCT_SCALE as nat) * (UCT_SCALE as nat)) / (
    visits as nat);
    exploit + (c as int) * (spec_isqrt(arg) as int)
}

/// The selection score of the node at `child`: absent for a never-visited
/// node, which counts as infinite, and otherwise the UCT score of the
/// child's accumulated reward for the player to move at the child.
pub open spec fn spec_child_score<G: GameState>(
    s: Seq<NodeView<MonteCarloNode<G>>>,
    child: int,
    parent_visits: u32,
    c: u64,
) -> Option<int> {
    let d = s[child].data;
    if d.spec_visits() == 0 {
        None
    } else {
        Some(
            spec_uct(
                d.spec_reward().spec_get(d.spec_state().spec_current_player()),
                d.spec_visits(),
                parent_visits,
                c,
            ),
        )
    }
}

/// Whether score `a` strictly beats score `b`; an absent score is infinite.
pub open spec fn score_beats(a: Option<int>, b: Option<int>) -> bool {
    match a {
        None => b is Some,
        Some(x) => match b {
            None => false,
            Some(y) => x > y,
        },
    }
}

/// The position, within the first `upto` children of node `i`, of the
/// scoring child: the earliest one of maximal score.
pub open spec fn spec_best_in<G: GameState>(
    s: Seq<NodeView<MonteCarloNode<G>>>,
    i: int,
    c: u64,
    upto: int,
) -> int
    decreases upto,
{
    if upto <= 1 {
        0
    } else {
        let prev = spec_best_in(s, i, c, upto - 1);
        let pv = s[i].data.spec_visits();
        if score_beats(
            spec_child_score(s, s[i].children[upto - 1], pv, c),
            spec_child_score(s, s[i].children[prev], pv, c),
        ) {
            upto - 1
        } else {
            prev
        }
    }
}

/// The best position lies within the prefix it was chosen from.
proof fn lemma_best_in_range<G: GameState>(
    s: Seq<NodeView<MonteCarloNode<G>>>,
    i: int,
    c: u64,
    upto: int,
)
    requires
        upto >= 1,
    ensures
        0 <= spec_best_in(s, i, c, upto) < upto,
    decreases upto,
{
    if upto > 1 {
        lemma_best_in_range(s, i, c, upto - 1);
    }
}

/// Where UCT-guided descent from node `i` stops: the first node reached,
/// always descending into the best-scoring child, that has no children.
pub open spec fn spec_select<G: GameState>(
    s: Seq<NodeView<MonteCarloNode<G>>>,
    i: int,
    c: u64,
) -> int
    decreases s.len() - i,
{
    if 0 <= i < s.len() && s[i].children.len() > 0 {
        let b = s[i].children[spec_best_in(s, i, c, s[i].children.len() as int)];
        if i < b < s.len() {
            spec_select(s, b, c)
        } else {
            i
        }
    } else {
        i
    }
}

/// The integers behind an optional fixed-point score.
pub open spec fn spec_score_opt(a: Option<u128>) -> Option<int> {
    match a {
        None => None,
        Some(x) => Some(x as int),
    }
}

/// A never-visited child, wherever it stands among the first `upto`
/// children, is what selection picks from that prefix.
proof fn lemma_unvisited_in<G: GameState>(
    s: Seq<NodeView<MonteCarloNode<G>>>,
    i: int,
    c: u64,
    j: int,
    upto: int,
)
    requires
        0 <= i < s.len(),
        0 <= j < upto <= s[i].children.len(),
        s[s[i].children[j]].data.spec_visits() == 0,
    ensures
        s[s[i].children[spec_best_in(s, i, c, upto)]].data.spec_visits() == 0,
    decreases upto,
{
    let pv = s[i].data.spec_visits();
    if upto - 1 == j {
        if upto > 1 {
            let prev = spec_best_in(s, i, c, upto - 1);
            if spec_child_score(s, s[i].children[prev], pv, c) is None {
                assert(s[s[i].children[prev]].data.spec_visits() == 0);
            }
        }
    } else {
        lemma_unvisited_in(s, i, c, j, upto - 1);
    }
}

/// The UCT infinity rule: whenever some child of `i` has never been
/// visited, selection at `i` picks a never-visited child, over any sibling
/// with at least one visit and whatever the exploration constant.
pub proof fn lemma_unvisited_child_selected<G: GameState>(
    s: Seq<NodeView<MonteCarloNode<G>>>,
    i: int,
    c: u64,
    j: int,
)
    requires
        0 <= i < s.len(),
        0 <= j < s[i].children.len(),
        s[s[i].children[j]].data.spec_visits() == 0,
    ensures
        s[s[i].children[spec_best_in(s, i, c, s[i].children.len() as int)]].data.spec_visits()
            == 0,
{
    lemma_unvisited_in(s, i, c, j, s[i].children.len() as int);
}

/// Whether the exact mean reward `wa / va` exceeds `wb / vb`, a zero visit
/// count reading as a zero mean.
pub open spec fn mean_beats(wa: u64, va: u32, wb: u64, vb: u32) -> bool {
    (wa as int) * (if vb == 0 {
        1int
    } else {
        vb as int
    }) > (wb as int) * (if va == 0 {
        1int
    } else {
        va as int
    })
}

/// The position, within the first `upto` children of node `i`, of the
/// child whose mean reward for `player` is greatest; the earliest of
/// equal-mean children wins.
pub open spec fn spec_best_mean_in<G: GameState>(
    s: Seq<NodeView<MonteCarloNode<G>>>,
    i: int,
    player: u64,
    upto: int,
) -> int
    decreases upto,
{
    if upto <= 1 {
        0
    } else {
        let prev = spec_best_mean_in(s, i, player, upto - 1);
        let a = s[s[i].children[upto - 1]].data;
        let b = s[s[i].children[prev]].data;
        if mean_beats(
            a.spec_reward().spec_get(player),
            a.spec_visits(),
            b.spec_reward().spec_get(player),
            b.spec_visits(),
        ) {
            upto - 1
        } else {
            prev
        }
    }
}

/// The best mean position lies within the prefix it was chosen from.
proof fn lemma_best_mean_in_range<G: GameState>(
    s: Seq<NodeView<MonteCarloNode<G>>>,
    i: int,
    player: u64,
    upto: int,
)
    requires
        upto >= 1,
    ensures
        0 <= spec_best_mean_in(s, i, player, upto) < upto,
    decreases upto,
{
    if upto > 1 {
        lemma_best_mean_in_range(s, i, player, upto - 1);
    }
}

/// The action recorded at the child of node `i` with the greatest mean
/// reward for the player to move at `i`; absent when `i` does not exist or
/// has no children.
pub open spec fn spec_best_action<G: GameState>(
    s: Seq<NodeView<MonteCarloNode<G>>>,
    i: int,
) -> Option<u64> {
    if 0 <= i < s.len() && s[i].children.len() > 0 {
        let player = s[i].data.spec_state().spec_current_player();
        let b = s[i].children[spec_best_mean_in(s, i, player, s[i].children.len() as int)];
        match s[b].data.spec_action() {
            Some(pa) => Some(pa.1),
            None => None,
        }
    } else {
        None
    }
}

/// What one expansion at `node` does to the tree: every existing payload
/// stays and no existing node but `node` changes at all; `node`'s child
/// list gains exactly the new identifiers; and exactly one fresh zero-visit
/// child is appended per admissible pair of `node`'s state, in enumeration
/// order — the t-th child records the t-th pair, which is legal for the
/// parent's state, and wraps a successor state that pair steps to.
pub open spec fn expanded_at<G: GameState>(
    pre: Seq<NodeView<MonteCarloNode<G>>>,
    post: Seq<NodeView<MonteCarloNode<G>>>,
    node: int,
) -> bool {
    let acts = pre[node].data.spec_state().spec_action_list();
    &&& 0 <= node < pre.len()
    &&& post.len() == pre.len() + acts.len()
    &&& forall|k: int| 0 <= k < pre.len() ==> (#[trigger] post[k]).data == pre[k].data
    &&& forall|k: int| 0 <= k < pre.len() && k != node ==> (#[trigger] post[k]) == pre[k]
    &&& post[node].children == pre[node].children + Seq::new(
        acts.len(),
        |t: int| pre.len() + t,
    )
    &&& forall|t: int|
        0 <= t < acts.len() ==> {
            let child = #[trigger] post[pre.len() + t];
            &&& child.parent == Some(node)
            &&& child.children == Seq::<int>::empty()
            &&& child.data.spec_visits() == 0
            &&& child.data.spec_reward().wf()
            &&& child.data.spec_reward().total() == 0
            &&& child.data.spec_action() == Some(acts[t])
            &&& pre[node].data.spec_state().spec_legal(acts[t].0, acts[t].1)
            &&& pre[node].data.spec_state().spec_steps(
                acts[t].0,
                acts[t].1,
                &child.data.spec_state(),
            )
        }
    &&& forall|t1: int, t2: int|
        0 <= t1 < t2 < acts.len() ==> (#[trigger] post[pre.len() + t1]).data.spec_action()
            != (#[trigger] post[pre.len() + t2]).data.spec_action()
    &&& (pre[node].data.spec_state().spec_terminal() ==> post == pre)
    &&& (!pre[node].data.spec_state().spec_terminal() ==> post.len() > pre.len())
}

/// What one backpropagation pass from `target` does to the tree: exactly
/// the nodes on the walked ancestor path absorb the outcome, and no other
/// node changes.
pub open spec fn bumped_along<G: GameState>(
    pre: Seq<NodeView<MonteCarloNode<G>>>,
    post: Seq<NodeView<MonteCarloNode<G>>>,
    target: int,
    outcome: GameScore,
) -> bool {
    &&& post.len() == pre.len()
    &&& forall|k: int|
        0 <= k < pre.len() && ancestor_chain(pre, target).contains(k) ==> node_bumped(
            pre[k],
            #[trigger] post[k],
            outcome,
        )
    &&& forall|k: int|
        0 <= k < pre.len() && !ancestor_chain(pre, target).contains(k) ==> (#[trigger] post[k])
            == pre[k]
}

/// What any rollout outcome satisfies: a well-formed score within the
/// single-outcome bound.
pub open spec fn rollout_outcome_ok(sc: GameScore) -> bool {
    sc.wf() && 0 <= sc.total() <= REWARD_BOUND
}

/// One full search iteration as a relation between tree views. From the
/// UCT-selected frontier leaf: if the leaf had been sampled before, the
/// final view is the leaf's expansion with the reward of some terminal
/// state reachable from the re-selected node's state backpropagated from
/// that node; if the leaf was fresh, no expansion happens and such a
/// reward, reachable from the leaf's own state, is backpropagated from the
/// leaf. The existential over the outcome is exactly what the random
/// rollout leaves open.
pub open spec fn spec_iteration<G: GameState>(
    pre: Seq<NodeView<MonteCarloNode<G>>>,
    post: Seq<NodeView<MonteCarloNode<G>>>,
    c: u64,
) -> bool {
    let leaf = spec_select(pre, 0, c);
    if pre[leaf].data.spec_visits() > 0 {
        exists|mid: Seq<NodeView<MonteCarloNode<G>>>, sc: GameScore|
            #![trigger bumped_along(mid, post, spec_select(mid, leaf, c), sc)]
            {
                &&& expanded_at(pre, mid, leaf)
                &&& rollout_outcome_ok(sc)
                &&& reward_of_reachable_terminal(
                    mid[spec_select(mid, leaf, c)].data.spec_state(),
                    sc,
                )
                &&& bumped_along(mid, post, spec_select(mid, leaf, c), sc)
            }
    } else {
        exists|sc: GameScore|
            {
                &&& rollout_outcome_ok(sc)
                &&& reward_of_reachable_terminal(pre[leaf].data.spec_state(), sc)
                &&& #[trigger] bumped_along(pre, post, leaf, sc)
            }
    }
}

/// `n` search iterations as a relation between tree views: the reflexive
/// chaining of [`spec_iteration`].
pub open spec fn spec_run_rel<G: GameState>(
    pre: Seq<NodeView<MonteCarloNode<G>>>,
    post: Seq<NodeView<MonteCarloNode<G>>>,
    c: u64,
    n: nat,
) -> bool
    decreases n,
{
    if n == 0 {
        post == pre
    } else {
        exists|mid: Seq<NodeView<MonteCarloNode<G>>>|
            {
                &&& spec_run_rel(pre, mid, c, (n - 1) as nat)
                &&& #[trigger] spec_iteration(mid, post, c)
            }
    }
}

/// What one backpropagation pass does to one node on the walked path: the
/// node's place in the tree, state and recorded move stay; the visit count
/// rises by one; and every player's accumulated reward grows by exactly the
/// outcome's reward, so the total grows by exactly the outcome's total —
/// reward is neither duplicated nor dropped.
pub open spec fn node_bumped<G: GameState>(
    pre: NodeView<MonteCarloNode<G>>,
    post: NodeView<MonteCarloNode<G>>,
    outcome: GameScore,
) -> bool {
    &&& post.parent == pre.parent
    &&& post.children == pre.children
    &&& post.data.spec_state() == pre.data.spec_state()
    &&& post.data.spec_action() == pre.data.spec_action()
    &&& post.data.spec_visits() == pre.data.spec_visits() + 1
    &&& post.data.spec_reward().wf()
    &&& post.data.spec_reward().total() == pre.data.spec_reward().total() + outcome.total()
    &&& forall|p: u64| #[trigger]
        post.data.spec_reward().spec_get(p) == pre.data.spec_reward().spec_get(p)
            + outcome.spec_get(p)
}

/// Bumping exactly the nodes of a root-reaching, parent-following path
/// keeps the engine's invariant.
proof fn lemma_engine_wf_after_backprop<G: GameState>(
    pre: Seq<NodeView<MonteCarloNode<G>>>,
    post: Seq<NodeView<MonteCarloNode<G>>>,
    chain: Seq<int>,
    outcome: GameScore,
)
    requires
        engine_wf(pre),
        post.len() == pre.len(),
        chain.len() >= 1,
        chain.last() == 0,
        forall|t: int| 0 <= t < chain.len() ==> 0 <= #[trigger] chain[t] < pre.len(),
        forall|t: int|
            0 <= t < chain.len() - 1 ==> pre[#[trigger] chain[t]].parent == Some(chain[t + 1]),
        forall|j: int|
            0 <= j < pre.len() && chain.contains(j) ==> node_bumped(
                pre[j],
                #[trigger] post[j],
                outcome,
            ),
        forall|j: int|
            0 <= j < pre.len() && !chain.contains(j) ==> #[trigger] post[j] == pre[j],
        0 <= outcome.total() <= REWARD_BOUND,
        pre[0].data.spec_visits() < u32::MAX,
    ensures
        engine_wf(post),
{
    assert(chain.contains(0)) by {
        assert(chain[chain.len() - 1] == 0);
    }
    assert forall|j: int|
        0 <= j < pre.len() implies (#[trigger] post[j]).parent == pre[j].parent && post[j].children
        == pre[j].children by {
        if chain.contains(j) {
        }
    }
    lemma_tree_wf_same_structure(pre, post);
    // a bumped non-root node's parent was bumped too: the walked path is
    // closed under parent links
    assert forall|j: int|
        0 < j < pre.len() && chain.contains(j) implies chain.contains(
        pre[j].parent->Some_0,
    ) by {
        let t = choose|t: int| 0 <= t < chain.len() && chain[t] == j;
        if t < chain.len() - 1 {
            assert(pre[j].parent == Some(chain[t + 1]));
        } else {
            assert(chain[t] == chain.last());
        }
    }
    assert forall|i: int| 0 <= i < post.len() implies engine_node_wf((#[trigger] post[i]).data) by {
        if chain.contains(i) {
            assert(node_bumped(pre[i], post[i], outcome));
            assert(engine_node_wf(pre[i].data));
            assert(post[i].data.spec_reward().total() <= (pre[i].data.spec_visits() as int) * (
            REWARD_BOUND as int) + (REWARD_BOUND as int));
        }
    }
    assert forall|i: int| 0 <= i < post.len() implies (#[trigger] post[i]).data.spec_visits()
        <= post[0].data.spec_visits() by {
        assert(node_bumped(pre[0], post[0], outcome));
        if chain.contains(i) {
            assert(node_bumped(pre[i], post[i], outcome));
        }
    }
    assert forall|i: int| 0 < i < post.len() implies (#[trigger] post[i]).data.spec_visits()
        <= post[post[i].parent->Some_0].data.spec_visits() by {
        let q = pre[i].parent->Some_0;
        if chain.contains(i) {
            assert(node_bumped(pre[i], post[i], outcome));
            assert(chain.contains(q));
            assert(node_bumped(pre[q], post[q], outcome));
        } else {
            if chain.contains(q) {
                assert(node_bumped(pre[q], post[q], outcome));
            }
        }
    }
    assert forall|i: int| 0 < i < post.len() implies (#[trigger] post[i]).data.spec_action()
        is Some by {
        if chain.contains(i) {
            assert(node_bumped(pre[i], post[i], outcome));
        }
    }
}

impl<G: GameState> MonteCarloTree<G> {
    /// The engine's invariant; see [`engine_wf`].
    pub open spec fn wf(&self) -> bool {
        engine_wf(self@)
    }

    /// A tree holding only the root, wrapping `initial_state`, with a
    /// pseudo-random source built from `seed`. Equal seeds make equal runs.
    pub fn seed_from_u64(initial_state: G, seed: u64) -> (t: Self)
        requires
            initial_state.wf(),
        ensures
            t.wf(),
            t@.len() == 1,
            t@[0].data.spec_state() == initial_state,
            t@[0].data.spec_visits() == 0,
            t@[0].data.spec_reward().total() == 0,
    {
        let mut tree = Tree::<MonteCarloNode<G>>::new();
        let root = tree.insert(MonteCarloNode::from_state(initial_state), None);
        let t = MonteCarloTree { tree, rng: rng_from_seed(seed) };
        proof {
            assert(root is Some);
            assert(t@.len() == 1);
        }
        t
    }

    /// A tree holding only the root, wrapping `initial_state`, seeded from
    /// system entropy.
    pub fn new(initial_state: G) -> (t: Self)
        requires
            initial_state.wf(),
        ensures
            t.wf(),
            t@.len() == 1,
            t@[0].data.spec_state() == initial_state,
            t@[0].data.spec_visits() == 0,
            t@[0].data.spec_reward().total() == 0,
    {
        let seed = entropy_seed();
        Self::seed_from_u64(initial_state, seed)
    }

    /// Read access to the arena.
    pub fn tree(&self) -> (r: &Tree<MonteCarloNode<G>>)
        ensures
            r@ == self@,
    {
        &self.tree
    }

    /// Materializes one child of `node` per admissible `(player, action)`
    /// pair, in enumeration order, each a fresh zero-visit node wrapping a
    /// stepped successor state. Fails exactly when `node` does not exist
    /// or already has children, leaving the tree untouched — a node is
    /// expanded at most once. A concluded state has no admissible pairs,
    /// so it gains no children; any other state gains at least one. See
    /// [`expanded_at`].
    #[verifier::rlimit(60)]
    pub fn expand(&mut self, node: NodeId) -> (r: Option<()>)
        requires
            old(self).wf(),
        ensures
            final(self).wf(),
            r is Some <==> (node.0 < old(self)@.len() && old(self)@[node.0 as int].children.len()
                == 0),
            r is None ==> *final(self) == *old(self),
            r is Some ==> expanded_at(old(self)@, final(self)@, node.0 as int),
    {
        if node.0 >= self.tree.len() {
            return None;
        }
        let ghost pre = self@;
        let actions = match self.tree.get(node) {
            Some(n) => {
                if n.children().len() > 0 {
                    return None;
                }
                n.data().state().legal_actions()
            },
            None => {
                proof {
                    assert(false);
                }
                return None;
            },
        };
        let total: usize = actions.len();
        let mut idx: usize = 0;
        proof {
            assert(self@[node.0 as int].children =~= pre[node.0 as int].children + Seq::new(
                0,
                |t: int| pre.len() + t,
            ));
        }
        while idx < total
            invariant
                self.wf(),
                total == actions@.len(),
                0 <= idx <= total,
                node.0 < pre.len(),
                pre.len() <= self@.len(),
                self@.len() == pre.len() + idx,
                tree_wf(pre),
                actions@ == pre[node.0 as int].data.spec_state().spec_action_list(),
                forall|i: int|
                    0 <= i < actions@.len() ==> #[trigger] pre[node.0 as int].data.spec_state().spec_legal(
                        actions@[i].0,
                        actions@[i].1,
                    ),
                forall|k: int|
                    0 <= k < pre.len() ==> (#[trigger] self@[k]).data == pre[k].data,
                forall|k: int|
                    0 <= k < pre.len() && k != node.0 as int ==> (#[trigger] self@[k]) == pre[k],
                forall|t: int|
                    0 <= t < idx ==> {
                        let child = #[trigger] self@[pre.len() + t];
                        &&& child.parent == Some(node.0 as int)
                        &&& child.children == Seq::<int>::empty()
                        &&& child.data.spec_visits() == 0
                        &&& child.data.spec_reward().wf()
                        &&& child.data.spec_reward().total() == 0
                        &&& child.data.spec_action() == Some(actions@[t])
                        &&& pre[node.0 as int].data.spec_state().spec_steps(
                            actions@[t].0,
                            actions@[t].1,
                            &child.data.spec_state(),
                        )
                    },
                self@[node.0 as int].children == pre[node.0 as int].children + Seq::new(
                    idx as nat,
                    |t: int| pre.len() + t,
                ),
                idx == 0 ==> self@ == pre,
            decreases total - idx,
        {
            let pa = actions[idx];
            let child_state = match self.tree.get(node) {
                Some(n) => n.data().state().apply(pa.0, pa.1),
                None => {
                    proof {
                        assert(false);
                    }
                    return None;
                },
            };
            let ghost before = self@;
            let inserted = self.tree.insert(
                MonteCarloNode::from_action(child_state, pa.0, pa.1),
                Some(node),
            );
            proof {
                assert(inserted is Some);
                assert(self@[node.0 as int].children =~= pre[node.0 as int].children + Seq::new(
                    (idx + 1) as nat,
                    |t: int| pre.len() + t,
                ));
                assert forall|k: int|
                    0 <= k < before.len() implies (#[trigger] self@[k]).data == before[k].data
                        && self@[k].parent == before[k].parent by {
                    if k != node.0 as int {
                        assert(self@[k] == before[k]);
                    }
                }
                assert forall|t: int|
                    0 <= t < idx + 1 implies {
                    let child = #[trigger] self@[pre.len() + t];
                    &&& child.parent == Some(node.0 as int)
                    &&& child.children == Seq::<int>::empty()
                    &&& child.data.spec_visits() == 0
                    &&& child.data.spec_reward().wf()
                    &&& child.data.spec_reward().total() == 0
                    &&& child.data.spec_action() == Some(actions@[t])
                    &&& pre[node.0 as int].data.spec_state().spec_steps(
                        actions@[t].0,
                        actions@[t].1,
                        &child.data.spec_state(),
                    )
                } by {
                    if t < idx {
                        assert(self@[pre.len() + t] == before[pre.len() + t]);
                    } else {
                        assert(self@[pre.len() + t].children =~= Seq::<int>::empty());
                    }
                }
                lemma_engine_wf_after_insert(
                    before,
                    self@,
                    node.0 as int,
                    self@[before.len() as int].data,
                );
            }
            idx += 1;
        }
        proof {
            if total == 0 {
                assert(self@ =~= pre);
            }
            assert forall|t1: int, t2: int|
                0 <= t1 < t2 < actions@.len() implies (#[trigger] self@[pre.len()
                + t1]).data.spec_action() != (#[trigger] self@[pre.len() + t2]).data.spec_action()
                by {
                assert(self@[pre.len() + t1].data.spec_action() == Some(actions@[t1]));
                assert(self@[pre.len() + t2].data.spec_action() == Some(actions@[t2]));
            }
            assert(expanded_at(pre, self@, node.0 as int));
        }
        Some(())
    }

    /// The selection score of the existing node `child` against a parent
    /// with `parent_visits` visits; absent for a never-visited child.
    fn score_of(&self, child: NodeId, parent_visits: u32, c: u64) -> (r: Option<u128>)
        requires
            self.wf(),
            child.0 < self@.len(),
        ensures
            spec_score_opt(r) == spec_child_score(self@, child.0 as int, parent_visits, c),
    {
        let n = match self.tree.get(child) {
            Some(n) => n,
            None => {
                proof {
                    assert(false);
                }
                return None;
            },
        };
        let visits = n.data().visits();
        if visits == 0 {
            return None;
        }
        proof {
            assert(engine_node_wf(self@[child.0 as int].data));
        }
        let player = n.data().state().current_player();
        let w = n.data().reward().get(player);
        let lg: u32 = ilog2(parent_visits);
        let arg: u64 = (lg as u64) * UCT_SCALE * UCT_SCALE / (visits as u64);
        let root: u64 = isqrt(arg);
        proof {
            crate::arith::lemma_isqrt_bounds(arg as nat);
            assert(root <= 6000000) by (nonlinear_arith)
                requires
                    (root as nat) * (root as nat) <= arg as nat,
                    arg <= 31000000000000u64,
            {
            }
        }
        let exploit: u128 = (w as u128) * (UCT_SCALE as u128) / (visits as u128);
        proof {
            assert((c as int) * (root as int) <= 0xFFFF_FFFF_FFFF_FFFF * 6000000)
                by (nonlinear_arith)
                requires
                    c <= 0xFFFF_FFFF_FFFF_FFFFu64,
                    root <= 6000000u64,
            {
            }
            assert(exploit <= (w as int) * (UCT_SCALE as int));
            assert((w as int) * (UCT_SCALE as int) <= 0xFFFF_FFFF_FFFF_FFFF * 1000000)
                by (nonlinear_arith)
                requires
                    w <= 0xFFFF_FFFF_FFFF_FFFFu64,
            {
            }
        }
        let explore: u128 = (c as u128) * (root as u128);
        Some(exploit + explore)
    }

    /// The UCT score of an existing, visited node against its own parent's
    /// visit count, or absent when `node` is out of range, is the root, or
    /// was never visited (its score is unbounded rather than a number).
    pub fn uct(&self, node: NodeId, c: u64) -> (r: Option<u128>)
        requires
            self.wf(),
        ensures
            r is Some <==> (node.0 < self@.len() && self@[node.0 as int].parent is Some
                && self@[node.0 as int].data.spec_visits() > 0),
            r matches Some(score) ==> spec_score_opt(r) == spec_child_score(
                self@,
                node.0 as int,
                self@[self@[node.0 as int].parent->Some_0].data.spec_visits(),
                c,
            ),
    {
        let n = match self.tree.get(node) {
            Some(n) => n,
            None => {
                return None;
            },
        };
        let parent = match n.parent() {
            Some(p) => p,
            None => {
                return None;
            },
        };
        let parent_visits = match self.tree.get(parent) {
            Some(pn) => pn.data().visits(),
            None => {
                proof {
                    assert(false);
                }
                return None;
            },
        };
        if n.data().visits() == 0 {
            return None;
        }
        self.score_of(node, parent_visits, c)
    }

    /// Starting at `node`, repeatedly descends into the child of maximal
    /// selection score — a never-visited child scores above every visited
    /// sibling, and the earliest of equally scored children wins — until a
    /// node with no children is reached. Fails exactly when `node` does not
    /// exist; the tree is never modified.
    pub fn select(&self, c: u64, node: NodeId) -> (r: Option<NodeId>)
        requires
            self.wf(),
        ensures
            r is Some <==> node.0 < self@.len(),
            r matches Some(id) ==> {
                &&& id.0 == spec_select(self@, node.0 as int, c)
                &&& id.0 < self@.len()
                &&& self@[id.0 as int].children.len() == 0
            },
    {
        if node.0 >= self.tree.len() {
            return None;
        }
        let mut current: NodeId = node;
        loop
            invariant
                self.wf(),
                current.0 < self@.len(),
                spec_select(self@, node.0 as int, c) == spec_select(self@, current.0 as int, c),
            decreases self@.len() - current.0,
        {
            let n = match self.tree.get(current) {
                Some(n) => n,
                None => {
                    proof {
                        assert(false);
                    }
                    return None;
                },
            };
            let kids = n.children();
            if kids.len() == 0 {
                proof {
                    assert(spec_select(self@, current.0 as int, c) == current.0 as int);
                }
                return Some(current);
            }
            let pv = n.data().visits();
            let ghost cur = current.0 as int;
            let mut best_j: usize = 0;
            let mut best_score: Option<u128> = self.score_of(kids[0], pv, c);
            let mut j: usize = 1;
            while j < kids.len()
                invariant
                    self.wf(),
                    cur == current.0 as int,
                    current.0 < self@.len(),
                    kids@.map_values(|id: NodeId| id.0 as int) == self@[cur].children,
                    pv == self@[cur].data.spec_visits(),
                    1 <= j <= kids@.len(),
                    best_j < j,
                    best_j as int == spec_best_in(self@, cur, c, j as int),
                    spec_score_opt(best_score) == spec_child_score(
                        self@,
                        self@[cur].children[best_j as int],
                        pv,
                        c,
                    ),
                decreases kids@.len() - j,
            {
                proof {
                    assert(self@[cur].children[j as int] == kids@[j as int].0 as int);
                }
                let sc = self.score_of(kids[j], pv, c);
                let better = match (&sc, &best_score) {
                    (Some(_), None) => false,
                    (None, Some(_)) => true,
                    (None, None) => false,
                    (Some(x), Some(y)) => *x > *y,
                };
                proof {
                    assert(better == score_beats(
                        spec_score_opt(sc),
                        spec_score_opt(best_score),
                    ));
                }
                if better {
                    best_j = j;
                    best_score = sc;
                }
                j += 1;
            }
            proof {
                lemma_best_in_range(self@, cur, c, self@[cur].children.len() as int);
            }
            let chosen = kids[best_j];
            proof {
                assert(chosen.0 as int == self@[cur].children[best_j as int]);
                assert(cur < (chosen.0 as int) < self@.len());
                assert(spec_select(self@, cur, c) == spec_select(self@, chosen.0 as int, c));
            }
            current = chosen;
        }
    }

    /// Walks the parent links from `node` up to and including the root and
    /// adds the outcome into every node passed: each gains one visit and the
    /// outcome's per-player rewards. No other node changes, and nothing else
    /// about a passed node changes. Fails exactly when `node` does not
    /// exist. This is the only operation that mutates visit counts or
    /// reward accumulators.
    #[verifier::rlimit(60)]
    pub fn backpropagate(&mut self, node: NodeId, outcome: &GameScore) -> (r: Option<()>)
        requires
            old(self).wf(),
            outcome.wf(),
            0 <= outcome.total() <= REWARD_BOUND,
            old(self)@[0].data.spec_visits() < u32::MAX,
        ensures
            final(self).wf(),
            r is Some <==> node.0 < old(self)@.len(),
            r is None ==> *final(self) == *old(self),
            r is Some ==> {
                &&& bumped_along(old(self)@, final(self)@, node.0 as int, *outcome)
                &&& node_bumped(old(self)@[0], final(self)@[0], *outcome)
            },
    {
        if node.0 >= self.tree.len() {
            return None;
        }
        let ghost pre = self@;
        let ghost chain = ancestor_chain(pre, node.0 as int);
        proof {
            lemma_ancestors_reach_root(pre, node.0 as int);
        }
        let mut current: Option<NodeId> = Some(node);
        let ghost mut k: int = 0;
        while current.is_some()
            invariant
                engine_wf(pre),
                outcome.wf(),
                0 <= outcome.total() <= REWARD_BOUND,
                pre[0].data.spec_visits() < u32::MAX,
                self@.len() == pre.len(),
                node.0 < pre.len(),
                chain == ancestor_chain(pre, node.0 as int),
                chain.len() >= 1,
                chain.last() == 0,
                forall|t: int| 0 <= t < chain.len() ==> 0 <= #[trigger] chain[t] < pre.len(),
                forall|t: int|
                    0 <= t < chain.len() - 1 ==> pre[#[trigger] chain[t]].parent == Some(
                        chain[t + 1],
                    ),
                forall|t1: int, t2: int|
                    0 <= t1 < t2 < chain.len() ==> #[trigger] chain[t1] > #[trigger] chain[t2],
                0 <= k <= chain.len(),
                current matches Some(c) ==> k < chain.len() && c.0 == chain[k],
                current is None ==> k == chain.len(),
                forall|j: int|
                    0 <= j < pre.len() && chain.take(k).contains(j) ==> node_bumped(
                        pre[j],
                        #[trigger] self@[j],
                        *outcome,
                    ),
                forall|j: int|
                    0 <= j < pre.len() && !chain.take(k).contains(j) ==> (#[trigger] self@[j])
                        == pre[j],
            decreases match current {
                Some(c) => c.0 as int + 1,
                None => 0int,
            },
        {
            let c = current.unwrap();
            let ghost before = self@;
            proof {
                assert(!chain.take(k).contains(c.0 as int)) by {
                    if chain.take(k).contains(c.0 as int) {
                        let t = choose|t: int|
                            0 <= t < chain.take(k).len() && chain.take(k)[t] == c.0 as int;
                        assert(chain[t] == chain[k]);
                    }
                }
                assert(self@[c.0 as int] == pre[c.0 as int]);
                assert(engine_node_wf(pre[c.0 as int].data));
                assert(pre[c.0 as int].data.spec_visits() <= pre[0].data.spec_visits());
                assert(pre[c.0 as int].data.spec_reward().total() <= (u32::MAX as int) * (
                REWARD_BOUND as int));
            }
            let mut next: Option<NodeId> = None;
            match self.tree.get_mut(c) {
                Some(n) => {
                    let d = n.data_mut();
                    let merged = d.reward.merge(outcome);
                    d.reward = merged;
                    d.visits = d.visits + 1;
                    next = n.parent();
                },
                None => {
                    proof {
                        assert(false);
                    }
                },
            }
            proof {
                assert(self@ == before.update(c.0 as int, self@[c.0 as int]));
                assert(node_bumped(pre[c.0 as int], self@[c.0 as int], *outcome));
                assert(chain.take(k + 1) =~= chain.take(k).push(chain[k]));
                assert forall|j: int|
                    0 <= j < pre.len() && chain.take(k + 1).contains(j) implies node_bumped(
                    pre[j],
                    #[trigger] self@[j],
                    *outcome,
                ) by {
                    if j != c.0 as int {
                        assert(chain.take(k).contains(j));
                        assert(self@[j] == before[j]);
                    }
                }
                assert forall|j: int|
                    0 <= j < pre.len() && !chain.take(k + 1).contains(j) implies (
                #[trigger] self@[j]) == pre[j] by {
                    assert(!chain.take(k).contains(j));
                    assert(chain.take(k + 1)[k] == c.0 as int);
                    assert(chain.take(k + 1).contains(c.0 as int));
                    assert(j != c.0 as int);
                    assert(self@[j] == before[j]);
                }
                k = k + 1;
                // the parent link read back is the untouched one, so the walk
                // continues along the recorded chain
                assert(self@[c.0 as int].parent == pre[c.0 as int].parent);
                match next {
                    Some(p) => {
                        assert(pre[c.0 as int].parent == Some(p.0 as int));
                        assert(c.0 as int != 0) by {
                            if c.0 as int == 0 {
                                assert(pre[0].parent is None);
                            }
                        }
                        assert(k < chain.len()) by {
                            if k == chain.len() {
                                assert(chain[k - 1] == chain.last());
                            }
                        }
                        assert(p.0 == chain[k]);
                    },
                    None => {
                        assert(c.0 as int == 0);
                        assert(k == chain.len()) by {
                            if k < chain.len() {
                                assert(pre[chain[k - 1] as int].parent == Some(chain[k]));
                            }
                        }
                    },
                }
            }
            current = next;
        }
        proof {
            assert(chain.take(chain.len() as int) =~= chain);
            assert(chain.contains(0)) by {
                assert(chain[chain.len() - 1] == 0);
            }
            lemma_engine_wf_after_backprop(pre, self@, chain, *outcome);
        }
        Some(())
    }

    /// One full search iteration from the global root: select a frontier
    /// node by UCT descent, expand it if it has been sampled before and
    /// re-select one of the fresh children, play one random rollout from
    /// the chosen node's state, and backpropagate the terminal reward up to
    /// the root. The root always gains exactly one visit.
    pub fn iterate(&mut self, c: u64) -> (r: Option<()>)
        requires
            old(self).wf(),
            old(self)@[0].data.spec_visits() < u32::MAX,
        ensures
            final(self).wf(),
            r is Some,
            final(self)@.len() >= old(self)@.len(),
            final(self)@[0].data.spec_visits() == old(self)@[0].data.spec_visits() + 1,
            forall|k: int|
                0 <= k < old(self)@.len() ==> (#[trigger] final(self)@[k]).data.spec_state()
                    == old(self)@[k].data.spec_state(),
            r is Some ==> spec_iteration(old(self)@, final(self)@, c),
    {
        let ghost pre = self@;
        let leaf = match self.select(c, NodeId(0)) {
            Some(id) => id,
            None => {
                proof {
                    assert(false);
                }
                return None;
            },
        };
        let leaf_visits = match self.tree.get(leaf) {
            Some(n) => n.data().visits(),
            None => {
                proof {
                    assert(false);
                }
                return None;
            },
        };
        let target = if leaf_visits > 0 {
            match self.expand(leaf) {
                Some(_) => {},
                None => {
                    proof {
                        assert(false);
                    }
                    return None;
                },
            }
            match self.select(c, leaf) {
                Some(id) => id,
                None => {
                    proof {
                        assert(false);
                    }
                    return None;
                },
            }
        } else {
            leaf
        };
        let outcome = match self.tree.get(target) {
            Some(n) => {
                proof {
                    assert(engine_node_wf(self@[target.0 as int].data));
                }
                n.data().rollout(&mut self.rng)
            },
            None => {
                proof {
                    assert(false);
                }
                return None;
            },
        };
        let ghost grown = self@;
        let res = self.backpropagate(target, &outcome);
        proof {
            assert(res is Some);
            let chain = ancestor_chain(grown, target.0 as int);
            assert forall|k: int|
                0 <= k < pre.len() implies (#[trigger] self@[k]).data.spec_state()
                == pre[k].data.spec_state() by {
                if chain.contains(k) {
                    assert(node_bumped(grown[k], self@[k], outcome));
                } else {
                    assert(self@[k] == grown[k]);
                }
                assert(grown[k].data == pre[k].data);
            }
            if leaf_visits > 0 {
                assert(expanded_at(pre, grown, leaf.0 as int));
                assert(target.0 as int == spec_select(grown, leaf.0 as int, c));
                assert(bumped_along(
                    grown,
                    self@,
                    spec_select(grown, leaf.0 as int, c),
                    outcome,
                ));
                assert(spec_iteration(pre, self@, c));
            } else {
                assert(grown == pre);
                assert(bumped_along(pre, self@, leaf.0 as int, outcome));
                assert(spec_iteration(pre, self@, c));
            }
        }
        Some(())
    }

    /// Performs `iterations` full search cycles from the root. Every cycle
    /// from an existing root completes, so the returned count equals the
    /// request, and the root's visit count has risen by exactly that many.
    pub fn run(&mut self, c: u64, iterations: u32) -> (completed: u32)
        requires
            old(self).wf(),
            old(self)@[0].data.spec_visits() + iterations <= u32::MAX,
        ensures
            final(self).wf(),
            completed == iterations,
            final(self)@.len() >= old(self)@.len(),
            final(self)@[0].data.spec_visits() == old(self)@[0].data.spec_visits() + iterations,
            forall|k: int|
                0 <= k < old(self)@.len() ==> (#[trigger] final(self)@[k]).data.spec_state()
                    == old(self)@[k].data.spec_state(),
            spec_run_rel(old(self)@, final(self)@, c, iterations as nat),
    {
        let mut i: u32 = 0;
        while i < iterations
            invariant
                self.wf(),
                0 <= i <= iterations,
                self@.len() >= old(self)@.len(),
                old(self)@[0].data.spec_visits() + iterations <= u32::MAX,
                self@[0].data.spec_visits() == old(self)@[0].data.spec_visits() + i,
                forall|k: int|
                    0 <= k < old(self)@.len() ==> (#[trigger] self@[k]).data.spec_state()
                        == old(self)@[k].data.spec_state(),
                spec_run_rel(old(self)@, self@, c, i as nat),
            decreases iterations - i,
        {
            let ghost before = self@;
            let _ = self.iterate(c);
            proof {
                assert(spec_iteration(before, self@, c));
                assert(spec_run_rel(old(self)@, self@, c, (i + 1) as nat));
            }
            i += 1;
        }
        i
    }

    /// Whether the exact mean reward `wa / va` exceeds `wb / vb`; a node
    /// with zero visits has accumulated nothing, so its mean reads as zero.
    fn mean_beats_exec(wa: u64, va: u32, wb: u64, vb: u32) -> (r: bool)
        ensures
            r == mean_beats(wa, va, wb, vb),
    {
        let da: u128 = if va == 0 {
            1
        } else {
            va as u128
        };
        let db: u128 = if vb == 0 {
            1
        } else {
            vb as u128
        };
        proof {
            assert((wa as int) * (db as int) <= 0xFFFF_FFFF_FFFF_FFFF * 0x1_0000_0000)
                by (nonlinear_arith)
                requires
                    wa <= 0xFFFF_FFFF_FFFF_FFFFu64,
                    db <= 0x1_0000_0000u128,
            {
            }
            assert((wb as int) * (da as int) <= 0xFFFF_FFFF_FFFF_FFFF * 0x1_0000_0000)
                by (nonlinear_arith)
                requires
                    wb <= 0xFFFF_FFFF_FFFF_FFFFu64,
                    da <= 0x1_0000_0000u128,
            {
            }
        }
        (wa as u128) * db > (wb as u128) * da
    }

    /// The action of the child of `node` with the greatest mean reward for
    /// the player to move at `node` — exploration plays no part in this
    /// read, and the earliest of equal-mean children wins. Fails exactly
    /// when `node` does not exist or was never expanded. The read does not
    /// modify the tree, so repeated calls return the same action.
    pub fn best_action(&self, node: NodeId) -> (r: Option<u64>)
        requires
            self.wf(),
        ensures
            r == spec_best_action(self@, node.0 as int),
            r is Some <==> (node.0 < self@.len() && self@[node.0 as int].children.len() > 0),
    {
        let n = match self.tree.get(node) {
            Some(n) => n,
            None => {
                return None;
            },
        };
        let kids = n.children();
        if kids.len() == 0 {
            return None;
        }
        let ghost i = node.0 as int;
        proof {
            assert(engine_node_wf(self@[i].data));
            assert(self@[i].children[0] == kids@[0].0 as int);
        }
        let player = n.data().state().current_player();
        let (mut bw, mut bv): (u64, u32) = match self.tree.get(kids[0]) {
            Some(ch) => (ch.data().reward().get(player), ch.data().visits()),
            None => {
                proof {
                    assert(false);
                }
                return None;
            },
        };
        let mut best_j: usize = 0;
        let mut j: usize = 1;
        while j < kids.len()
            invariant
                self.wf(),
                i == node.0 as int,
                node.0 < self@.len(),
                kids@.map_values(|id: NodeId| id.0 as int) == self@[i].children,
                player == self@[i].data.spec_state().spec_current_player(),
                1 <= j <= kids@.len(),
                best_j < j,
                best_j as int == spec_best_mean_in(self@, i, player, j as int),
                bw == self@[self@[i].children[best_j as int]].data.spec_reward().spec_get(player),
                bv == self@[self@[i].children[best_j as int]].data.spec_visits(),
            decreases kids@.len() - j,
        {
            proof {
                assert(self@[i].children[j as int] == kids@[j as int].0 as int);
            }
            let (w, v): (u64, u32) = match self.tree.get(kids[j]) {
                Some(ch) => (ch.data().reward().get(player), ch.data().visits()),
                None => {
                    proof {
                        assert(false);
                    }
                    return None;
                },
            };
            if Self::mean_beats_exec(w, v, bw, bv) {
                best_j = j;
                bw = w;
                bv = v;
            }
            j += 1;
        }
        proof {
            lemma_best_mean_in_range(self@, i, player, self@[i].children.len() as int);
            assert(self@[i].children[best_j as int] == kids@[best_j as int].0 as int);
            assert(self@[i].children[best_j as int] > i >= 0);
        }
        match self.tree.get(kids[best_j]) {
            Some(ch) => {
                match ch.data().action() {
                    Some(pa) => Some(pa.1),
                    None => {
                        proof {
                            assert(false);
                        }
                        None
                    },
                }
            },
            None => {
                proof {
                    assert(false);
                }
                None
            },
        }
    }
}

impl<G: GameState> MonteCarloNode<G> {
    /// Plays the wrapped state to completion with uniformly random moves,
    /// on a private successor chain — the node itself is never modified —
    /// and returns the terminal per-player reward. Whatever moves the
    /// generator picks, the result is the reward of some concluded state
    /// legally reachable from the wrapped one, and so a well-formed score
    /// within the single-outcome bound.
    pub fn rollout(&self, rng: &mut nanorand::WyRand) -> (r: GameScore)
        requires
            self.spec_state().wf(),
        ensures
            r.wf(),
            0 <= r.total() <= REWARD_BOUND,
            reward_of_reachable_terminal(self.spec_state(), r),
            self.spec_state().spec_terminal() ==> {
                &&& r.total() == self.spec_state().spec_reward_total()
                &&& forall|p: u64| #[trigger] r.spec_get(p) == self.spec_state().spec_reward_of(p)
            },
    {
        match self.state.terminal_reward() {
            Some(sc) => {
                proof {
                    let st = self.spec_state();
                    assert(reaches_in(st, st, 0));
                    assert(reaches(st, st));
                    assert(reward_of_reachable_terminal(st, sc));
                }
                return sc;
            },
            None => {},
        }
        let first = self.state.legal_actions();
        let pick = rng_below(rng, first.len());
        let pa = first[pick];
        let mut current: G = self.state.apply(pa.0, pa.1);
        proof {
            let st = self.spec_state();
            assert(reaches_in(st, st, 0));
            assert(st.spec_steps(pa.0, pa.1, &current));
            assert(reaches_in(st, current, 1));
            assert(reaches(st, current));
        }
        let mut done: Option<GameScore> = None;
        while done.is_none()
            invariant
                current.wf(),
                reaches(self.spec_state(), current),
                done matches Some(sc) ==> sc.wf() && 0 <= sc.total() <= REWARD_BOUND
                    && reward_of_reachable_terminal(self.spec_state(), sc),
            decreases (if done is None {
                1int
            } else {
                0int
            }), current.moves_left(),
        {
            match current.terminal_reward() {
                Some(sc) => {
                    proof {
                        assert(reward_of_reachable_terminal(self.spec_state(), sc));
                    }
                    done = Some(sc);
                },
                None => {
                    let actions = current.legal_actions();
                    let pick = rng_below(rng, actions.len());
                    let pa = actions[pick];
                    let next = current.apply(pa.0, pa.1);
                    proof {
                        let st = self.spec_state();
                        let n = choose|n: nat| reaches_in(st, current, n);
                        assert(current.spec_steps(pa.0, pa.1, &next));
                        assert(reaches_in(st, next, (n + 1) as nat));
                        assert(reaches(st, next));
                    }
                    current = next;
                },
            }
        }
        match done {
            Some(sc) => sc,
            None => {
                proof {
                    assert(false);
                }
                GameScore::new()
            },
        }
    }
}

} // verus!
