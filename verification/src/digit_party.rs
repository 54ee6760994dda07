//! A single-player digit-placing puzzle satisfying the engine's
//! [`GameState`](crate::game::GameState) contract. A shuffled stream of 25
//! digits is placed one by one onto a five-by-five board; every pair of
//! equal digits on neighbouring cells (sideways, below, or diagonally)
//! scores that digit once the board is full.

use crate::game::GameState;
use crate::rng::{entropy_seed, rng_below, rng_from_seed};
use crate::score::GameScore;
use vstd::prelude::*;

verus! {

/// The single player's reward identity.
pub const SOLO_PLAYER: u64 = 0;

/// How many cells already hold a digit.
pub open spec fn count_placed(s: Seq<Option<u8>>) -> nat
    decreases s.len(),
{
    if s.len() == 0 {
        0
    } else {
        (if s[0] is Some {
            1nat
        } else {
            0nat
        }) + count_placed(s.drop_first())
    }
}

/// Appending a cell raises the placed count exactly when it holds a digit.
proof fn lemma_count_placed_push(s: Seq<Option<u8>>, e: Option<u8>)
    ensures
        count_placed(s.push(e)) == count_placed(s) + (if e is Some {
            1nat
        } else {
            0nat
        }),
    decreases s.len(),
{
    if s.len() == 0 {
        assert(s.push(e).drop_first() =~= s);
    } else {
        lemma_count_placed_push(s.drop_first(), e);
        assert(s.push(e).drop_first() =~= s.drop_first().push(e));
    }
}

/// Filling an empty cell raises the placed count by one.
proof fn lemma_count_placed_fill(s: Seq<Option<u8>>, i: int, d: u8)
    requires
        0 <= i < s.len(),
        s[i] is None,
    ensures
        count_placed(s.update(i, Some(d))) == count_placed(s) + 1,
    decreases i,
{
    let u = s.update(i, Some(d));
    if i == 0 {
        assert(u.drop_first() =~= s.drop_first());
    } else {
        assert(s.drop_first()[i - 1] == s[i]);
        lemma_count_placed_fill(s.drop_first(), i - 1, d);
        assert(u.drop_first() =~= s.drop_first().update(i - 1, Some(d)));
        assert(u[0] == s[0]);
    }
}

/// Placed counts never exceed the board.
proof fn lemma_count_placed_nonneg(s: Seq<Option<u8>>)
    ensures
        count_placed(s) <= s.len(),
    decreases s.len(),
{
    if s.len() > 0 {
        lemma_count_placed_nonneg(s.drop_first());
    }
}

/// The indices of the empty cells among the first `upto`, in ascending
/// order.
pub open spec fn open_cell_list(s: Seq<Option<u8>>, upto: int) -> Seq<usize>
    decreases upto,
{
    if upto <= 0 {
        Seq::<usize>::empty()
    } else {
        open_cell_list(s, upto - 1) + (if s[upto - 1] is None {
            seq![(upto - 1) as usize]
        } else {
            Seq::<usize>::empty()
        })
    }
}

/// The admissible pairs among the first `upto` cells: the single player
/// paired with each empty cell, ascending.
pub open spec fn open_cell_pairs(s: Seq<Option<u8>>, upto: int) -> Seq<(u64, u64)>
    decreases upto,
{
    if upto <= 0 {
        Seq::<(u64, u64)>::empty()
    } else {
        open_cell_pairs(s, upto - 1) + (if s[upto - 1] is None {
            seq![(SOLO_PLAYER, (upto - 1) as u64)]
        } else {
            Seq::<(u64, u64)>::empty()
        })
    }
}

/// The two enumerations agree, there is one entry per empty cell, every
/// entry names an earlier empty cell, and the indices ascend strictly.
proof fn lemma_cell_lists(s: Seq<Option<u8>>, upto: int)
    requires
        0 <= upto <= s.len(),
        upto <= usize::MAX,
    ensures
        open_cell_pairs(s, upto) == open_cell_list(s, upto).map_values(
            |i: usize| (SOLO_PLAYER, i as u64),
        ),
        open_cell_list(s, upto).len() + count_placed(s.take(upto)) == upto,
        forall|k: int|
            0 <= k < open_cell_list(s, upto).len() ==> (#[trigger] open_cell_list(s, upto)[k])
                < upto && s[open_cell_list(s, upto)[k] as int] is None,
        forall|k1: int, k2: int|
            0 <= k1 < k2 < open_cell_list(s, upto).len() ==> #[trigger] open_cell_list(
                s,
                upto,
            )[k1] < #[trigger] open_cell_list(s, upto)[k2],
    decreases upto,
{
    let f = |i: usize| (SOLO_PLAYER, i as u64);
    if upto <= 0 {
        assert(open_cell_pairs(s, upto) =~= open_cell_list(s, upto).map_values(f));
        assert(s.take(0) =~= Seq::<Option<u8>>::empty());
    } else {
        lemma_cell_lists(s, upto - 1);
        lemma_count_placed_push(s.take(upto - 1), s[upto - 1]);
        assert(s.take(upto - 1).push(s[upto - 1]) =~= s.take(upto));
        let prev_list = open_cell_list(s, upto - 1);
        let prev_pairs = open_cell_pairs(s, upto - 1);
        let cur_list = open_cell_list(s, upto);
        let cur_pairs = open_cell_pairs(s, upto);
        if s[upto - 1] is None {
            assert(cur_list =~= prev_list.push((upto - 1) as usize));
            assert(cur_pairs =~= prev_pairs.push((SOLO_PLAYER, (upto - 1) as u64)));
        } else {
            assert(cur_list =~= prev_list);
            assert(cur_pairs =~= prev_pairs);
        }
        assert forall|k: int|
            0 <= k < cur_list.len() implies (#[trigger] cur_list[k]) < upto && s[cur_list[k] as int]
            is None by {
            if k < prev_list.len() {
                assert(cur_list[k] == prev_list[k]);
            }
        }
        assert forall|k1: int, k2: int|
            0 <= k1 < k2 < cur_list.len() implies #[trigger] cur_list[k1]
            < #[trigger] cur_list[k2] by {
            assert(cur_list[k1] == prev_list[k1]);
            if k2 < prev_list.len() {
                assert(cur_list[k2] == prev_list[k2]);
            } else {
                assert(prev_list[k1] < upto - 1);
            }
        }
        assert forall|k: int| 0 <= k < cur_list.len() implies cur_pairs[k] == f(
            cur_list[k],
        ) by {
            if k < prev_list.len() {
                assert(cur_pairs[k] == prev_pairs[k] && cur_list[k] == prev_list[k]);
                assert(prev_pairs[k] == prev_list.map_values(f)[k]);
            }
        }
        assert(cur_pairs =~= cur_list.map_values(f));
    }
}

/// What the pairs anchored at cell `k` contribute to the score: the cell
/// to the right, the three cells below (left, straight, right), each
/// counted when it exists and holds the same digit.
pub open spec fn cell_pairs(s: Seq<Option<u8>>, k: int) -> nat {
    pair_value(s, k, k + 1, k % 5 < 4) + pair_value(s, k, k + 5, k < 20) + pair_value(
        s,
        k,
        k + 6,
        k < 20 && k % 5 < 4,
    ) + pair_value(s, k, k + 4, k < 20 && k % 5 > 0)
}

/// What one candidate pair contributes: its digit when the pair exists on
/// the board and both cells agree.
pub open spec fn pair_value(s: Seq<Option<u8>>, a: int, b: int, in_range: bool) -> nat {
    if in_range && s[a] is Some && s[a] == s[b] {
        s[a]->0 as nat
    } else {
        0
    }
}

/// The total score of the first `upto` anchor cells.
pub open spec fn spec_score(s: Seq<Option<u8>>, upto: int) -> nat
    decreases upto,
{
    if upto <= 0 {
        0
    } else {
        spec_score(s, upto - 1) + cell_pairs(s, upto - 1)
    }
}

/// One position of the puzzle: the seed it was dealt from, how many digits
/// have been placed, the full digit stream, and the board.
pub struct DigitGame {
    seed: u64,
    turn: usize,
    digits: Vec<u8>,
    board: Vec<Option<u8>>,
}

impl DigitGame {
    /// The seed the digit stream was dealt from.
    pub closed spec fn spec_seed(&self) -> u64 {
        self.seed
    }

    /// How many digits have been placed.
    pub closed spec fn spec_turn(&self) -> int {
        self.turn as int
    }

    /// The digit stream, placed in order.
    pub closed spec fn spec_digits(&self) -> Seq<u8> {
        self.digits@
    }

    /// The board, row-major on five columns.
    pub closed spec fn spec_board(&self) -> Seq<Option<u8>> {
        self.board@
    }

    /// The seed the digit stream was dealt from.
    pub fn seed(&self) -> (r: u64)
        ensures
            r == self.spec_seed(),
    {
        self.seed
    }

    /// The board, row-major on five columns.
    pub fn board(&self) -> (r: &Vec<Option<u8>>)
        ensures
            r@ == self.spec_board(),
    {
        &self.board
    }

    /// A fresh puzzle with a digit stream dealt from `seed`: every digit
    /// lies between one and nine, and the board is empty.
    pub fn seed_from_u64(seed: u64) -> (g: DigitGame)
        ensures
            g.wf(),
            g.spec_seed() == seed,
            g.spec_turn() == 0,
            forall|k: int| 0 <= k < 25 ==> (#[trigger] g.spec_board()[k]) is None,
    {
        let mut rng = rng_from_seed(seed);
        let mut digits: Vec<u8> = Vec::new();
        let mut board: Vec<Option<u8>> = Vec::new();
        let mut i: usize = 0;
        while i < 25
            invariant
                0 <= i <= 25,
                digits@.len() == i,
                board@.len() == i,
                count_placed(board@) == 0,
                forall|k: int| 0 <= k < i ==> 1 <= (#[trigger] digits@[k]) <= 9,
                forall|k: int| 0 <= k < i ==> (#[trigger] board@[k]) is None,
            decreases 25 - i,
        {
            proof {
                lemma_count_placed_push(board@, None);
            }
            let draw = rng_below(&mut rng, 9);
            digits.push((draw as u8) + 1);
            board.push(None);
            i += 1;
        }
        DigitGame { seed, turn: 0, digits, board }
    }

    /// A fresh puzzle dealt from system entropy.
    pub fn new() -> (g: DigitGame)
        ensures
            g.wf(),
            g.spec_turn() == 0,
    {
        let seed = entropy_seed();
        DigitGame::seed_from_u64(seed)
    }

    /// The score the current board earns: each neighbouring pair of equal
    /// digits contributes that digit.
    pub fn score(&self) -> (r: u32)
        requires
            self.wf(),
        ensures
            r == spec_score(self.spec_board(), 25),
    {
        let mut total: u32 = 0;
        let mut k: usize = 0;
        while k < 25
            invariant
                self.wf(),
                0 <= k <= 25,
                total == spec_score(self.spec_board(), k as int),
                total <= 36 * k,
            decreases 25 - k,
        {
            let mut around: u32 = 0;
            let right = k % 5 < 4;
            let below = k < 20;
            around = around + self.pair(k, k + 1, right);
            around = around + self.pair(k, k + 5, below);
            around = around + self.pair(k, k + 6, below && right);
            around = around + self.pair(k, k + 4, below && k % 5 > 0);
            total = total + around;
            k += 1;
        }
        total
    }

    /// What one candidate pair contributes to the score.
    fn pair(&self, a: usize, b: usize, in_range: bool) -> (r: u32)
        requires
            self.wf(),
            a < 25,
            in_range ==> b < 25,
        ensures
            r == pair_value(self.spec_board(), a as int, b as int, in_range),
            r <= 9,
    {
        if !in_range {
            return 0;
        }
        match (self.board[a], self.board[b]) {
            (Some(x), Some(y)) => {
                if x == y {
                    proof {
                        assert(self.spec_board()[a as int]->0 == x);
                        assert(self.spec_board()[a as int] matches Some(d) ==> 1 <= d <= 9);
                    }
                    x as u32
                } else {
                    0
                }
            },
            _ => 0,
        }
    }

    /// Whether all 25 digits have been placed.
    pub fn is_complete(&self) -> (r: bool)
        requires
            self.wf(),
        ensures
            r == self.spec_terminal(),
    {
        self.turn == 25
    }

    /// The digit to place next.
    pub fn digit_current(&self) -> (r: u8)
        requires
            self.wf(),
            self.spec_turn() < 25,
        ensures
            r == self.spec_digits()[self.spec_turn()],
    {
        self.digits[self.turn]
    }

    /// The digit after the next one, while one remains.
    pub fn digit_next(&self) -> (r: Option<u8>)
        requires
            self.wf(),
        ensures
            self.spec_turn() + 1 < 25 ==> r == Some(self.spec_digits()[self.spec_turn() + 1]),
            self.spec_turn() + 1 >= 25 ==> r is None,
    {
        if self.turn + 1 < 25 {
            Some(self.digits[self.turn + 1])
        } else {
            None
        }
    }

    /// Places the next digit on the empty cell `idx`.
    pub fn step(&self, idx: usize) -> (g: DigitGame)
        requires
            self.wf(),
            self.spec_turn() < 25,
            idx < 25,
            self.spec_board()[idx as int] is None,
        ensures
            g.wf(),
            g.spec_turn() == self.spec_turn() + 1,
            g.spec_board() == self.spec_board().update(
                idx as int,
                Some(self.spec_digits()[self.spec_turn()]),
            ),
            g.spec_digits() == self.spec_digits(),
            g.spec_seed() == self.spec_seed(),
    {
        proof {
            lemma_count_placed_nonneg(self.spec_board());
            lemma_count_placed_fill(self.spec_board(), idx as int, self.spec_digits()[self.spec_turn()]);
        }
        let digit = self.digits[self.turn];
        let mut board = self.board.clone();
        proof {
            assert(board@ =~= self.spec_board());
        }
        board.set(idx, Some(digit));
        let mut digits: Vec<u8> = Vec::new();
        let mut i: usize = 0;
        while i < self.digits.len()
            invariant
                0 <= i <= self.spec_digits().len(),
                digits@.len() == i,
                forall|k: int| 0 <= k < i ==> (#[trigger] digits@[k]) == self.spec_digits()[k],
            decreases self.spec_digits().len() - i,
        {
            digits.push(self.digits[i]);
            i += 1;
        }
        proof {
            assert(digits@ =~= self.spec_digits());
        }
        DigitGame { seed: self.seed, turn: self.turn + 1, digits, board }
    }

    /// The indices of the empty cells: exactly `open_cell_list`, one entry
    /// per empty cell in ascending order.
    pub fn open_indices(&self) -> (r: Vec<usize>)
        requires
            self.wf(),
        ensures
            r@ == open_cell_list(self.spec_board(), 25),
            r@.len() == 25 - count_placed(self.spec_board()),
            forall|k: int|
                0 <= k < r@.len() ==> (#[trigger] r@[k]) < 25 && self.spec_board()[r@[k] as int]
                    is None,
    {
        let mut out: Vec<usize> = Vec::new();
        let mut i: usize = 0;
        while i < 25
            invariant
                self.wf(),
                0 <= i <= 25,
                out@ == open_cell_list(self.spec_board(), i as int),
            decreases 25 - i,
        {
            match self.board[i] {
                None => {
                    out.push(i);
                },
                Some(_) => {},
            }
            proof {
                assert(out@ =~= open_cell_list(self.spec_board(), i + 1));
            }
            i += 1;
        }
        proof {
            lemma_cell_lists(self.spec_board(), 25);
            assert(self.spec_board().take(25) =~= self.spec_board());
        }
        out
    }
}

impl GameState for DigitGame {
    open spec fn wf(&self) -> bool {
        &&& self.spec_digits().len() == 25
        &&& self.spec_board().len() == 25
        &&& 0 <= self.spec_turn() <= 25
        &&& count_placed(self.spec_board()) == self.spec_turn()
        &&& forall|k: int| 0 <= k < 25 ==> 1 <= (#[trigger] self.spec_digits()[k]) <= 9
        &&& forall|k: int|
            0 <= k < 25 ==> ((#[trigger] self.spec_board()[k]) matches Some(d) ==> 1 <= d <= 9)
    }

    open spec fn spec_terminal(&self) -> bool {
        self.spec_turn() == 25
    }

    open spec fn spec_legal(&self, player: u64, action: u64) -> bool {
        &&& player == SOLO_PLAYER
        &&& action < 25
        &&& self.spec_board()[action as int] is None
        &&& self.spec_turn() < 25
    }

    open spec fn spec_current_player(&self) -> u64 {
        SOLO_PLAYER
    }

    open spec fn moves_left(&self) -> nat {
        (25 - self.spec_turn()) as nat
    }

    open spec fn spec_action_list(&self) -> Seq<(u64, u64)> {
        open_cell_pairs(self.spec_board(), 25)
    }

    open spec fn spec_steps(&self, player: u64, action: u64, next: &Self) -> bool {
        &&& next.spec_board() == self.spec_board().update(
            action as int,
            Some(self.spec_digits()[self.spec_turn()]),
        )
        &&& next.spec_turn() == self.spec_turn() + 1
        &&& next.spec_digits() == self.spec_digits()
        &&& next.spec_seed() == self.spec_seed()
    }

    open spec fn spec_reward_of(&self, player: u64) -> u64 {
        if player == SOLO_PLAYER {
            spec_score(self.spec_board(), 25) as u64
        } else {
            0
        }
    }

    open spec fn spec_reward_total(&self) -> int {
        spec_score(self.spec_board(), 25) as int
    }

    fn current_player(&self) -> (p: u64) {
        0
    }

    fn legal_actions(&self) -> (r: Vec<(u64, u64)>) {
        if self.turn == 25 {
            let r: Vec<(u64, u64)> = Vec::new();
            proof {
                lemma_cell_lists(self.spec_board(), 25);
                assert(self.spec_board().take(25) =~= self.spec_board());
                assert(r@ =~= self.spec_action_list());
            }
            return r;
        }
        let open = self.open_indices();
        let mut r: Vec<(u64, u64)> = Vec::new();
        let mut i: usize = 0;
        while i < open.len()
            invariant
                self.wf(),
                self.spec_turn() < 25,
                0 <= i <= open@.len(),
                open@ == open_cell_list(self.spec_board(), 25),
                r@ == open@.take(i as int).map_values(|x: usize| (SOLO_PLAYER, x as u64)),
            decreases open@.len() - i,
        {
            r.push((SOLO_PLAYER, open[i] as u64));
            proof {
                assert(r@ =~= open@.take(i + 1).map_values(
                    |x: usize| (SOLO_PLAYER, x as u64),
                ));
            }
            i += 1;
        }
        proof {
            lemma_cell_lists(self.spec_board(), 25);
            assert(open@.take(open@.len() as int) =~= open@);
            assert(self.spec_board().take(25) =~= self.spec_board());
            assert(r@ == self.spec_action_list());
            let list = open_cell_list(self.spec_board(), 25);
            assert forall|k: int|
                0 <= k < r@.len() implies #[trigger] self.spec_legal(r@[k].0, r@[k].1) by {
                assert(r@[k] == (SOLO_PLAYER, list[k] as u64));
                assert(list[k] < 25 && self.spec_board()[list[k] as int] is None);
            }
            assert forall|k1: int, k2: int|
                0 <= k1 < k2 < r@.len() implies (#[trigger] r@[k1]) != (#[trigger] r@[k2]) by {
                assert(r@[k1] == (SOLO_PLAYER, list[k1] as u64));
                assert(r@[k2] == (SOLO_PLAYER, list[k2] as u64));
                assert(list[k1] < list[k2]);
            }
        }
        r
    }

    fn apply(&self, player: u64, action: u64) -> (s: Self)
        ensures
            s.spec_board() == self.spec_board().update(
                action as int,
                Some(self.spec_digits()[self.spec_turn()]),
            ),
            s.spec_turn() == self.spec_turn() + 1,
    {
        self.step(action as usize)
    }

    fn terminal_reward(&self) -> (r: Option<GameScore>) {
        if self.turn == 25 {
            let points = self.score();
            proof {
                lemma_score_bounded(self.spec_board(), 25);
            }
            let mut sc = GameScore::new();
            sc.insert(SOLO_PLAYER, points as u64);
            proof {
                assert forall|q: u64| #[trigger] sc.spec_get(q) == self.spec_reward_of(q) by {
                    if q != SOLO_PLAYER {
                        assert(sc.spec_get(q) == 0);
                    }
                }
            }
            Some(sc)
        } else {
            None
        }
    }
}

/// An agent that always places the next digit on a uniformly random open
/// cell.
pub struct RandomAgent {
    rng: nanorand::WyRand,
}

impl RandomAgent {
    /// An agent drawing from an entropy-seeded generator.
    pub fn new() -> RandomAgent {
        let seed = entropy_seed();
        RandomAgent::seed_from_u64(seed)
    }

    /// An agent drawing from a generator built from `seed`; equal seeds
    /// give equal play.
    pub fn seed_from_u64(seed: u64) -> RandomAgent {
        RandomAgent { rng: rng_from_seed(seed) }
    }

    /// The cell the agent places the next digit on: a uniformly random
    /// open cell, absent once the board is full.
    pub fn step(&mut self, game: &DigitGame) -> (r: Option<usize>)
        requires
            game.wf(),
        ensures
            r is Some <==> !game.spec_terminal(),
            r matches Some(idx) ==> idx < 25 && game.spec_board()[idx as int] is None,
    {
        let open = game.open_indices();
        if open.len() == 0 {
            proof {
                lemma_count_placed_nonneg(game.spec_board());
            }
            return None;
        }
        let pick = rng_below(&mut self.rng, open.len());
        Some(open[pick])
    }

    /// Plays one dealt game to completion and returns the final position.
    pub fn play(&mut self, start: DigitGame) -> (g: DigitGame)
        requires
            start.wf(),
        ensures
            g.wf(),
            g.spec_terminal(),
    {
        let mut game = start;
        while game.turn < 25
            invariant
                game.wf(),
            decreases 25 - game.spec_turn(),
        {
            let idx = match self.step(&game) {
                Some(idx) => idx,
                None => {
                    proof {
                        assert(false);
                    }
                    return game;
                },
            };
            game = game.step(idx);
        }
        game
    }
}

/// The score of a 25-cell board never exceeds 900: at most four pairs per
/// anchor, each worth at most nine.
proof fn lemma_score_bounded(s: Seq<Option<u8>>, upto: int)
    requires
        s.len() == 25,
        upto <= 25,
        forall|k: int| 0 <= k < 25 ==> ((#[trigger] s[k]) matches Some(d) ==> 1 <= d <= 9),
    ensures
        spec_score(s, upto) <= 36 * (if upto >= 0 {
            upto
        } else {
            0
        }),
    decreases upto,
{
    if upto > 0 {
        lemma_score_bounded(s, upto - 1);
        let k = upto - 1;
        assert(cell_pairs(s, k) <= 36) by {
            assert(s[k] matches Some(d) ==> 1 <= d <= 9);
            assert(pair_value(s, k, k + 1, k % 5 < 4) <= 9);
            assert(pair_value(s, k, k + 5, k < 20) <= 9);
            assert(pair_value(s, k, k + 6, k < 20 && k % 5 < 4) <= 9);
            assert(pair_value(s, k, k + 4, k < 20 && k % 5 > 0) <= 9);
        }
    }
}

} // verus!
