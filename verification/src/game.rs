//! The contract a concrete game must satisfy for the engine to search it:
//! report whose turn it is, enumerate the admissible moves, apply a move as
//! a pure transition, and hand out the per-player payoff once the game has
//! concluded. Players and actions are identified by plain integers.
//!
//! Beside each executable capability stands its mathematical twin — the
//! admissible pairs as a sequence, the transition as a relation between
//! states, and the payoff as a per-player function — so that the engine's
//! contracts can say exactly which children an expansion creates and whose
//! reward a rollout returns.

use crate::score::GameScore;
use vstd::prelude::*;

verus! {

/// Greatest total reward a single terminal outcome may hand out. The bound
/// keeps accumulated rewards well inside `u64` for any feasible number of
/// search iterations.
pub const REWARD_BOUND: u64 = 1048576;

/// The capability set of a searchable game state.
pub trait GameState where Self: Sized {
    /// Well-formedness of a state; every operation below preserves it.
    spec fn wf(&self) -> bool;

    /// Whether the game has concluded at this state.
    spec fn spec_terminal(&self) -> bool;

    /// Whether `player` may play `action` at this state.
    spec fn spec_legal(&self, player: u64, action: u64) -> bool;

    /// The player whose turn it is, as a mathematical value.
    spec fn spec_current_player(&self) -> u64;

    /// An upper bound on the number of moves still playable; every applied
    /// action shrinks it, so random playouts terminate.
    spec fn moves_left(&self) -> nat;

    /// The admissible `(player, action)` pairs, in the order
    /// `legal_actions` enumerates them.
    spec fn spec_action_list(&self) -> Seq<(u64, u64)>;

    /// Whether `next` is the successor of this state once `player` plays
    /// `action`: the mathematical twin of `apply`.
    spec fn spec_steps(&self, player: u64, action: u64, next: &Self) -> bool;

    /// The reward the state pays `player` once the game has concluded: the
    /// mathematical twin of `terminal_reward`'s mapping.
    spec fn spec_reward_of(&self, player: u64) -> u64;

    /// The summed reward the state pays once the game has concluded.
    spec fn spec_reward_total(&self) -> int;

    /// The player whose turn it is.
    fn current_player(&self) -> (p: u64)
        requires
            self.wf(),
        ensures
            p == self.spec_current_player(),
    ;

    /// Every admissible `(player, action)` pair at this state: exactly
    /// `spec_action_list`, each pair legal, no pair repeated, and empty
    /// exactly when the game has concluded.
    fn legal_actions(&self) -> (r: Vec<(u64, u64)>)
        requires
            self.wf(),
        ensures
            r@ == self.spec_action_list(),
            r@.len() == 0 <==> self.spec_terminal(),
            forall|i: int|
                0 <= i < r@.len() ==> #[trigger] self.spec_legal(r@[i].0, r@[i].1),
            forall|i: int, j: int|
                0 <= i < j < r@.len() ==> (#[trigger] r@[i]) != (#[trigger] r@[j]),
    ;

    /// The successor state after `player` plays `action`: a pure transition
    /// that leaves the receiver untouched and satisfies the transition
    /// relation.
    fn apply(&self, player: u64, action: u64) -> (s: Self)
        requires
            self.wf(),
            self.spec_legal(player, action),
        ensures
            s.wf(),
            s.moves_left() < self.moves_left(),
            self.spec_steps(player, action, &s),
    ;

    /// The per-player payoff, present exactly when the game has concluded
    /// and equal, player by player, to the state's own reward. Players the
    /// mapping omits receive zero for this terminal event.
    fn terminal_reward(&self) -> (r: Option<GameScore>)
        requires
            self.wf(),
        ensures
            r is Some <==> self.spec_terminal(),
            r matches Some(sc) ==> {
                &&& sc.wf()
                &&& 0 <= sc.total() <= REWARD_BOUND
                &&& sc.total() == self.spec_reward_total()
                &&& forall|p: u64| #[trigger] sc.spec_get(p) == self.spec_reward_of(p)
            },
    ;
}

/// Whether `to` is reachable from `from` by exactly `n` admissible moves,
/// each legal at the state it is played in.
pub open spec fn reaches_in<G: GameState>(from: G, to: G, n: nat) -> bool
    decreases n,
{
    if n == 0 {
        to == from
    } else {
        exists|mid: G, p: u64, a: u64|
            {
                &&& reaches_in(from, mid, (n - 1) as nat)
                &&& mid.wf()
                &&& mid.spec_legal(p, a)
                &&& #[trigger] mid.spec_steps(p, a, &to)
            }
    }
}

/// Whether `to` is reachable from `from` by some sequence of admissible
/// moves.
pub open spec fn reaches<G: GameState>(from: G, to: G) -> bool {
    exists|n: nat| reaches_in(from, to, n)
}

/// Whether `r` is the terminal reward of some concluded state legally
/// reachable from `from`.
pub open spec fn reward_of_reachable_terminal<G: GameState>(from: G, r: GameScore) -> bool {
    exists|g: G|
        {
            &&& #[trigger] reaches(from, g)
            &&& g.wf()
            &&& g.spec_terminal()
            &&& r.total() == g.spec_reward_total()
            &&& forall|p: u64| #[trigger] r.spec_get(p) == g.spec_reward_of(p)
        }
}

} // verus!
