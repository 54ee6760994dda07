//! Connect four: a concrete two-player game satisfying the engine's
//! [`GameState`] contract. The board is a row-major sequence of 42 cells,
//! seven columns by six rows with row 0 on top; a checker dropped into a
//! column comes to rest on the lowest empty cell, and four connected
//! checkers of one colour win.

use crate::game::GameState;
use crate::score::GameScore;
use vstd::prelude::*;

verus! {

/// The two checker colours; red plays first.
#[derive(Debug, Clone, Copy, PartialEq, Eq, Structural)]
pub enum Checker {
    Red,
    Yellow,
}

impl Checker {
    /// The numeric identity under which this player's rewards accumulate.
    pub open spec fn spec_id(self) -> u64 {
        match self {
            Checker::Red => 0,
            Checker::Yellow => 1,
        }
    }

    /// The numeric identity under which this player's rewards accumulate.
    pub fn id(self) -> (r: u64)
        ensures
            r == self.spec_id(),
    {
        match self {
            Checker::Red => 0,
            Checker::Yellow => 1,
        }
    }
}

impl Default for Checker {
    /// Red plays first.
    fn default() -> (r: Checker)
        ensures
            r == Checker::Red,
    {
        Checker::Red
    }
}

/// How many cells hold a checker of colour `p`.
pub open spec fn count_colour(s: Seq<Option<Checker>>, p: Checker) -> nat
    decreases s.len(),
{
    if s.len() == 0 {
        0
    } else {
        (if s[0] == Some(p) {
            1nat
        } else {
            0nat
        }) + count_colour(s.drop_first(), p)
    }
}

/// How many cells are still empty.
pub open spec fn count_empty(s: Seq<Option<Checker>>) -> nat
    decreases s.len(),
{
    if s.len() == 0 {
        0
    } else {
        (if s[0] is None {
            1nat
        } else {
            0nat
        }) + count_empty(s.drop_first())
    }
}

/// Appending a cell adds to the counts exactly what it holds.
proof fn lemma_counts_push(s: Seq<Option<Checker>>, e: Option<Checker>, p: Checker)
    ensures
        count_colour(s.push(e), p) == count_colour(s, p) + (if e == Some(p) {
            1nat
        } else {
            0nat
        }),
        count_empty(s.push(e)) == count_empty(s) + (if e is None {
            1nat
        } else {
            0nat
        }),
    decreases s.len(),
{
    if s.len() == 0 {
        assert(s.push(e).drop_first() =~= s);
    } else {
        lemma_counts_push(s.drop_first(), e, p);
        assert(s.push(e).drop_first() =~= s.drop_first().push(e));
    }
}

/// Filling an empty cell reduces the empty count by one.
proof fn lemma_count_empty_fill(s: Seq<Option<Checker>>, i: int, p: Checker)
    requires
        0 <= i < s.len(),
        s[i] is None,
    ensures
        count_empty(s.update(i, Some(p))) == count_empty(s) - 1,
    decreases i,
{
    let u = s.update(i, Some(p));
    if i == 0 {
        assert(u.drop_first() =~= s.drop_first());
    } else {
        assert(s.drop_first()[i - 1] == s[i]);
        lemma_count_empty_fill(s.drop_first(), i - 1, p);
        assert(u.drop_first() =~= s.drop_first().update(i - 1, Some(p)));
        assert(u[0] == s[0]);
    }
}

/// The colour whose turn it is: red when both have equally many checkers
/// down, yellow otherwise.
pub open spec fn spec_current(s: Seq<Option<Checker>>) -> Checker {
    if count_colour(s, Checker::Red) == count_colour(s, Checker::Yellow) {
        Checker::Red
    } else {
        Checker::Yellow
    }
}

/// The lowest empty cell of column `col` at or above row `row` counted
/// from the bottom, scanning upwards.
pub open spec fn lowest_open(s: Seq<Option<Checker>>, col: int, row: int) -> Option<int>
    decreases row + 1,
{
    if row < 0 {
        None
    } else if s[col + 7 * row] is None {
        Some(col + 7 * row)
    } else {
        lowest_open(s, col, row - 1)
    }
}

/// Whether colour `p` holds four connected cells: in a row, in a column,
/// or on either diagonal, anchored at the cell nearest the top left.
pub open spec fn spec_four(s: Seq<Option<Checker>>, p: Checker) -> bool {
    ||| exists|a: int| 0 <= a < 42 && a % 7 < 4 && #[trigger] four_from(s, a, 1, p)
    ||| exists|a: int| 0 <= a < 21 && #[trigger] four_from(s, a, 7, p)
    ||| exists|a: int| 0 <= a < 21 && a % 7 < 4 && #[trigger] four_from(s, a, 8, p)
    ||| exists|a: int| 0 <= a < 21 && a % 7 >= 3 && #[trigger] four_from(s, a, 6, p)
}

/// Whether colour `p` holds the four cells starting at `a` with stride
/// `step`.
pub open spec fn four_from(s: Seq<Option<Checker>>, a: int, step: int, p: Checker) -> bool {
    &&& s[a] == Some(p)
    &&& s[a + step] == Some(p)
    &&& s[a + 2 * step] == Some(p)
    &&& s[a + 3 * step] == Some(p)
}

/// The gravity invariant: below every checker sits another checker.
pub open spec fn spec_gravity(s: Seq<Option<Checker>>) -> bool {
    forall|i: int| 0 <= i < 35 && (#[trigger] s[i]) is Some ==> s[i + 7] is Some
}

/// The playable columns among the first `upto`, each paired with the
/// colour to move, in ascending column order.
pub open spec fn spec_moves(s: Seq<Option<Checker>>, upto: int) -> Seq<(Checker, usize)>
    decreases upto,
{
    if upto <= 0 {
        Seq::<(Checker, usize)>::empty()
    } else {
        spec_moves(s, upto - 1) + (if s[upto - 1] is None {
            seq![(spec_current(s), (upto - 1) as usize)]
        } else {
            Seq::<(Checker, usize)>::empty()
        })
    }
}

/// The admissible pairs among the first `upto` columns: the colour to
/// move's identity paired with each open column, ascending.
pub open spec fn spec_col_pairs(s: Seq<Option<Checker>>, upto: int) -> Seq<(u64, u64)>
    decreases upto,
{
    if upto <= 0 {
        Seq::<(u64, u64)>::empty()
    } else {
        spec_col_pairs(s, upto - 1) + (if s[upto - 1] is None {
            seq![(spec_current(s).spec_id(), (upto - 1) as u64)]
        } else {
            Seq::<(u64, u64)>::empty()
        })
    }
}

/// The two enumerations agree entry by entry, every entry names an earlier
/// open column in strictly ascending order, and they are empty exactly when
/// every listed column is full.
proof fn lemma_move_lists(s: Seq<Option<Checker>>, upto: int)
    requires
        0 <= upto <= s.len(),
        upto <= usize::MAX,
    ensures
        spec_col_pairs(s, upto) == spec_moves(s, upto).map_values(
            |m: (Checker, usize)| (m.0.spec_id(), m.1 as u64),
        ),
        spec_moves(s, upto).len() == 0 <==> (forall|c: int|
            0 <= c < upto ==> (#[trigger] s[c]) is Some),
        forall|k: int|
            0 <= k < spec_moves(s, upto).len() ==> {
                &&& (#[trigger] spec_moves(s, upto)[k]).1 < upto
                &&& s[spec_moves(s, upto)[k].1 as int] is None
                &&& spec_moves(s, upto)[k].0 == spec_current(s)
            },
        forall|k1: int, k2: int|
            0 <= k1 < k2 < spec_moves(s, upto).len() ==> (#[trigger] spec_moves(s, upto)[k1]).1
                < (#[trigger] spec_moves(s, upto)[k2]).1,
    decreases upto,
{
    let f = |m: (Checker, usize)| (m.0.spec_id(), m.1 as u64);
    if upto <= 0 {
        assert(spec_col_pairs(s, upto) =~= spec_moves(s, upto).map_values(f));
    } else {
        lemma_move_lists(s, upto - 1);
        let prev_list = spec_moves(s, upto - 1);
        let prev_pairs = spec_col_pairs(s, upto - 1);
        let cur_list = spec_moves(s, upto);
        let cur_pairs = spec_col_pairs(s, upto);
        if s[upto - 1] is None {
            assert(cur_list =~= prev_list.push((spec_current(s), (upto - 1) as usize)));
            assert(cur_pairs =~= prev_pairs.push(
                (spec_current(s).spec_id(), (upto - 1) as u64),
            ));
            assert(cur_list.len() > 0);
        } else {
            assert(cur_list =~= prev_list);
            assert(cur_pairs =~= prev_pairs);
        }
        assert forall|k: int|
            0 <= k < cur_list.len() implies {
            &&& (#[trigger] cur_list[k]).1 < upto
            &&& s[cur_list[k].1 as int] is None
            &&& cur_list[k].0 == spec_current(s)
        } by {
            if k < prev_list.len() {
                assert(cur_list[k] == prev_list[k]);
            }
        }
        assert forall|k1: int, k2: int|
            0 <= k1 < k2 < cur_list.len() implies (#[trigger] cur_list[k1]).1
            < (#[trigger] cur_list[k2]).1 by {
            assert(cur_list[k1] == prev_list[k1]);
            if k2 < prev_list.len() {
                assert(cur_list[k2] == prev_list[k2]);
            } else {
                assert(prev_list[k1].1 < upto - 1);
            }
        }
        assert forall|k: int| 0 <= k < cur_list.len() implies cur_pairs[k] == f(
            cur_list[k],
        ) by {
            if k < prev_list.len() {
                assert(cur_pairs[k] == prev_pairs[k] && cur_list[k] == prev_list[k]);
                assert(prev_pairs[k] == prev_list.map_values(f)[k]);
            }
        }
        assert(cur_pairs =~= cur_list.map_values(f));
    }
}

/// The winner, red checked first, as the exec `outcome` decides it.
pub open spec fn spec_c4_winner(s: Seq<Option<Checker>>) -> Option<Checker> {
    if spec_four(s, Checker::Red) {
        Some(Checker::Red)
    } else if spec_four(s, Checker::Yellow) {
        Some(Checker::Yellow)
    } else {
        None
    }
}

/// The board with no checker down.
pub open spec fn spec_empty_board() -> Seq<Option<Checker>> {
    Seq::new(42, |i: int| None)
}

/// The board a list of drops leaves behind, replayed on the empty board:
/// absent as soon as a drop names a column that is full or does not exist.
pub open spec fn spec_replay(moves: Seq<(Checker, usize)>, upto: int) -> Option<
    Seq<Option<Checker>>,
>
    decreases upto,
{
    if upto <= 0 {
        Some(spec_empty_board())
    } else {
        match spec_replay(moves, upto - 1) {
            Some(b) => {
                if moves[upto - 1].1 < 7 {
                    match lowest_open(b, moves[upto - 1].1 as int, 5) {
                        Some(cell) => Some(b.update(cell, Some(moves[upto - 1].0))),
                        None => None,
                    }
                } else {
                    None
                }
            },
            None => None,
        }
    }
}

/// A failed replay prefix never recovers.
proof fn lemma_replay_stays_none(moves: Seq<(Checker, usize)>, j: int, upto: int)
    requires
        0 <= j <= upto,
        spec_replay(moves, j) is None,
    ensures
        spec_replay(moves, upto) is None,
    decreases upto - j,
{
    if j < upto {
        lemma_replay_stays_none(moves, j, upto - 1);
    }
}

/// The connect-four board: 42 cells in row-major order, row 0 on top.
#[derive(Clone)]
pub struct Board {
    cells: Vec<Option<Checker>>,
}

impl View for Board {
    type V = Seq<Option<Checker>>;

    closed spec fn view(&self) -> Seq<Option<Checker>> {
        self.cells@
    }
}

impl Board {
    /// The cells, row-major with row 0 on top.
    pub fn cells(&self) -> (r: &Vec<Option<Checker>>)
        ensures
            r@ == self@,
    {
        &self.cells
    }

    /// Whether one cell holds a checker of colour `p`.
    fn cell_is(&self, i: usize, p: Checker) -> (r: bool)
        requires
            self.wf(),
            i < 42,
        ensures
            r == (self@[i as int] == Some(p)),
    {
        match self.cells[i] {
            Some(q) => q == p,
            None => false,
        }
    }

    /// The colour whose turn it is: the one with fewer checkers down, red
    /// on equality. Always present.
    pub fn current_player(&self) -> (r: Option<Checker>)
        requires
            self.wf(),
        ensures
            r == Some(spec_current(self@)),
    {
        let mut reds: u32 = 0;
        let mut yellows: u32 = 0;
        let mut i: usize = 0;
        proof {
            assert(self@.take(0) =~= Seq::<Option<Checker>>::empty());
        }
        while i < 42
            invariant
                self.wf(),
                0 <= i <= 42,
                reds == count_colour(self@.take(i as int), Checker::Red),
                yellows == count_colour(self@.take(i as int), Checker::Yellow),
                reds <= i,
                yellows <= i,
            decreases 42 - i,
        {
            proof {
                lemma_counts_push(self@.take(i as int), self@[i as int], Checker::Red);
                lemma_counts_push(self@.take(i as int), self@[i as int], Checker::Yellow);
                assert(self@.take(i as int).push(self@[i as int]) =~= self@.take(i + 1));
            }
            match self.cells[i] {
                Some(Checker::Red) => {
                    reds = reds + 1;
                },
                Some(Checker::Yellow) => {
                    yellows = yellows + 1;
                },
                None => {},
            }
            i += 1;
        }
        proof {
            assert(self@.take(42) =~= self@);
        }
        if reds == yellows {
            Some(Checker::Red)
        } else {
            Some(Checker::Yellow)
        }
    }

    /// Every column whose top cell is empty, paired with the colour to
    /// move: exactly `spec_moves`, one entry per open column in ascending
    /// order.
    pub fn available_moves(&self) -> (r: Vec<(Checker, usize)>)
        requires
            self.wf(),
        ensures
            r@ == spec_moves(self@, 7),
            forall|k: int|
                0 <= k < r@.len() ==> {
                    &&& (#[trigger] r@[k]).1 < 7
                    &&& self@[r@[k].1 as int] is None
                    &&& r@[k].0 == spec_current(self@)
                },
            r@.len() == 0 <==> (forall|c: int| 0 <= c < 7 ==> (#[trigger] self@[c]) is Some),
    {
        let me = match self.current_player() {
            Some(p) => p,
            None => {
                proof {
                    assert(false);
                }
                Checker::Red
            },
        };
        let mut r: Vec<(Checker, usize)> = Vec::new();
        let mut idx: usize = 0;
        while idx < 7
            invariant
                self.wf(),
                0 <= idx <= 7,
                me == spec_current(self@),
                r@ == spec_moves(self@, idx as int),
            decreases 7 - idx,
        {
            match self.cells[idx] {
                None => {
                    r.push((me, idx));
                },
                Some(_) => {},
            }
            proof {
                assert(r@ =~= spec_moves(self@, idx + 1));
            }
            idx += 1;
        }
        proof {
            lemma_move_lists(self@, 7);
        }
        r
    }

    /// The lowest empty cell of column `idx`, if the column has one.
    fn next_available(&self, idx: usize) -> (r: Option<usize>)
        requires
            self.wf(),
            idx < 7,
        ensures
            match r {
                Some(c) => lowest_open(self@, idx as int, 5) == Some(c as int) && c < 42
                    && self@[c as int] is None,
                None => lowest_open(self@, idx as int, 5) is None,
            },
    {
        let mut row: usize = 6;
        while row > 0
            invariant
                self.wf(),
                0 <= row <= 6,
                lowest_open(self@, idx as int, 5) == lowest_open(self@, idx as int, row - 1),
                idx < 7,
            decreases row,
        {
            let cell = idx + 7 * (row - 1);
            if matches!(self.cells[cell], None) {
                return Some(cell);
            }
            row = row - 1;
        }
        None
    }

    /// Drops a checker of colour `item` into column `idx`: it comes to rest
    /// on the column's lowest empty cell. Absent exactly when the column is
    /// full. No other cell changes.
    pub fn play_move(&self, item: Checker, idx: usize) -> (r: Option<Board>)
        requires
            self.wf(),
            idx < 7,
        ensures
            r is Some <==> lowest_open(self@, idx as int, 5) is Some,
            r matches Some(b) ==> {
                &&& b.wf()
                &&& lowest_open(self@, idx as int, 5) matches Some(c) && b@ == self@.update(
                    c,
                    Some(item),
                )
                &&& count_empty(b@) == count_empty(self@) - 1
            },
    {
        match self.next_available(idx) {
            Some(cell) => {
                let mut cells = self.cells.clone();
                proof {
                    assert(cells@ =~= self@);
                }
                cells.set(cell, Some(item));
                let b = Board { cells };
                proof {
                    lemma_count_empty_fill(self@, cell as int, item);
                    assert(spec_gravity(b@)) by {
                        lemma_lowest_open_below_filled(self@, idx as int, 5, cell as int);
                        assert forall|i: int|
                            0 <= i < 35 && (#[trigger] b@[i]) is Some implies b@[i + 7]
                            is Some by {
                            if i != cell as int {
                                assert(b@[i] == self@[i]);
                                if i + 7 == cell as int {
                                    assert(self@[i] is None || self@[i + 7] is Some);
                                }
                            }
                        }
                    }
                }
                Some(b)
            },
            None => None,
        }
    }

    /// Replays a list of drops on an empty board: the fold of `play_move`
    /// over the moves in order. Absent exactly when some drop names a full
    /// or non-existent column.
    pub fn from_moves(moves: &Vec<(Checker, usize)>) -> (r: Option<Board>)
        ensures
            r is Some <==> spec_replay(moves@, moves@.len() as int) is Some,
            r matches Some(b) ==> b.wf() && Some(b@) == spec_replay(
                moves@,
                moves@.len() as int,
            ),
    {
        let mut board = Board::default();
        proof {
            assert(board@ =~= spec_empty_board());
        }
        let mut i: usize = 0;
        while i < moves.len()
            invariant
                board.wf(),
                0 <= i <= moves@.len(),
                Some(board@) == spec_replay(moves@, i as int),
            decreases moves@.len() - i,
        {
            let (item, idx) = moves[i];
            if idx >= 7 {
                proof {
                    assert(spec_replay(moves@, i + 1) is None);
                    lemma_replay_stays_none(moves@, i + 1, moves@.len() as int);
                }
                return None;
            }
            board = match board.play_move(item, idx) {
                Some(b) => b,
                None => {
                    proof {
                        assert(spec_replay(moves@, i + 1) is None);
                        lemma_replay_stays_none(moves@, i + 1, moves@.len() as int);
                    }
                    return None;
                },
            };
            i += 1;
        }
        Some(board)
    }

    /// Whether colour `p` holds four connected cells.
    #[verifier::rlimit(80)]
    pub fn has_four(&self, p: Checker) -> (r: bool)
        requires
            self.wf(),
        ensures
            r == spec_four(self@, p),
    {
        let mut r: usize = 0;
        while r < 6
            invariant
                self.wf(),
                0 <= r <= 6,
                forall|a: int|
                    0 <= a < r * 7 && a % 7 < 4 ==> !#[trigger] four_from(self@, a, 1, p),
                forall|a: int| 0 <= a < r * 7 && a < 21 ==> !#[trigger] four_from(self@, a, 7, p),
                forall|a: int|
                    0 <= a < r * 7 && a < 21 && a % 7 < 4 ==> !#[trigger] four_from(
                        self@,
                        a,
                        8,
                        p,
                    ),
                forall|a: int|
                    0 <= a < r * 7 && a < 21 && a % 7 >= 3 ==> !#[trigger] four_from(
                        self@,
                        a,
                        6,
                        p,
                    ),
            decreases 6 - r,
        {
            let mut c: usize = 0;
            while c < 7
                invariant
                    self.wf(),
                    0 <= r < 6,
                    0 <= c <= 7,
                    forall|a: int|
                        0 <= a < r * 7 + c && a % 7 < 4 ==> !#[trigger] four_from(self@, a, 1, p),
                    forall|a: int|
                        0 <= a < r * 7 + c && a < 21 ==> !#[trigger] four_from(self@, a, 7, p),
                    forall|a: int|
                        0 <= a < r * 7 + c && a < 21 && a % 7 < 4 ==> !#[trigger] four_from(
                            self@,
                            a,
                            8,
                            p,
                        ),
                    forall|a: int|
                        0 <= a < r * 7 + c && a < 21 && a % 7 >= 3 ==> !#[trigger] four_from(
                            self@,
                            a,
                            6,
                            p,
                        ),
                decreases 7 - c,
            {
                let a = r * 7 + c;
                proof {
                    assert((a as int) % 7 == c as int);
                }
                if c < 4 {
                    if self.cell_is(a, p) && self.cell_is(a + 1, p) && self.cell_is(a + 2, p)
                        && self.cell_is(a + 3, p) {
                        proof {
                            assert(four_from(self@, a as int, 1, p));
                        }
                        return true;
                    }
                }
                if r < 3 {
                    if self.cell_is(a, p) && self.cell_is(a + 7, p) && self.cell_is(a + 14, p)
                        && self.cell_is(a + 21, p) {
                        proof {
                            assert(four_from(self@, a as int, 7, p));
                        }
                        return true;
                    }
                    if c < 4 {
                        if self.cell_is(a, p) && self.cell_is(a + 8, p) && self.cell_is(a + 16, p)
                            && self.cell_is(a + 24, p) {
                            proof {
                                assert(four_from(self@, a as int, 8, p));
                            }
                            return true;
                        }
                    }
                    if c >= 3 {
                        if self.cell_is(a, p) && self.cell_is(a + 6, p) && self.cell_is(a + 12, p)
                            && self.cell_is(a + 18, p) {
                            proof {
                                assert(four_from(self@, a as int, 6, p));
                            }
                            return true;
                        }
                    }
                }
                c += 1;
            }
            r += 1;
        }
        false
    }

    /// The terminal per-player payoff: the colour with four connected cells
    /// receives one and its opponent zero; absent while neither has four.
    /// A full board without four connected cells pays nothing to either.
    pub fn outcome(&self) -> (r: Option<GameScore>)
        requires
            self.wf(),
        ensures
            r is Some <==> spec_c4_winner(self@) is Some,
            r matches Some(sc) ==> {
                &&& sc.wf()
                &&& sc.total() == 1
                &&& forall|q: u64| #[trigger] sc.spec_get(q) == (match spec_c4_winner(self@) {
                    Some(w) => if q == w.spec_id() {
                        1u64
                    } else {
                        0u64
                    },
                    None => 0u64,
                })
            },
    {
        let winner = if self.has_four(Checker::Red) {
            Some(Checker::Red)
        } else if self.has_four(Checker::Yellow) {
            Some(Checker::Yellow)
        } else {
            None
        };
        match winner {
            Some(w) => {
                let mut sc = GameScore::new();
                sc.insert(w.id(), 1);
                let loser = match w {
                    Checker::Red => Checker::Yellow,
                    Checker::Yellow => Checker::Red,
                };
                sc.insert(loser.id(), 0);
                proof {
                    assert(spec_c4_winner(self@) == Some(w));
                    assert forall|q: u64| #[trigger] sc.spec_get(q) == (match spec_c4_winner(
                        self@,
                    ) {
                        Some(w2) => if q == w2.spec_id() {
                            1u64
                        } else {
                            0u64
                        },
                        None => 0u64,
                    }) by {
                        if q != w.spec_id() && q != loser.spec_id() {
                            assert(sc.spec_get(q) == 0);
                        }
                    }
                }
                Some(sc)
            },
            None => None,
        }
    }

    /// Drops the colour to move into a uniformly random playable column;
    /// absent when no column is playable.
    pub fn play_random(&self, rng: &mut nanorand::WyRand) -> (r: Option<Board>)
        requires
            self.wf(),
        ensures
            r matches Some(b) ==> b.wf(),
    {
        let moves = self.available_moves();
        if moves.len() == 0 {
            None
        } else {
            let pick = crate::rng::rng_below(rng, moves.len());
            let (player, action) = moves[pick];
            proof {
                lemma_top_open_playable(self@, action as int);
            }
            self.play_move(player, action)
        }
    }
}

/// Every cell below the lowest open cell of a column is filled.
proof fn lemma_lowest_open_below_filled(s: Seq<Option<Checker>>, col: int, row: int, cell: int)
    requires
        s.len() == 42,
        0 <= col < 7,
        row <= 5,
        row < 5 ==> s[col + 7 * (row + 1)] is Some,
        lowest_open(s, col, row) == Some(cell),
    ensures
        0 <= cell < 42,
        cell < 35 ==> s[cell + 7] is Some,
    decreases row + 1,
{
    if row >= 0 {
        if s[col + 7 * row] is None {
        } else {
            lemma_lowest_open_below_filled(s, col, row - 1, cell);
        }
    }
}

/// A column whose top cell is empty can always take a checker.
proof fn lemma_top_open_playable(s: Seq<Option<Checker>>, col: int)
    requires
        s.len() == 42,
        0 <= col < 7,
        s[col] is None,
    ensures
        lowest_open(s, col, 5) is Some,
{
    assert(lowest_open(s, col, 5) is Some) by {
        reveal_with_fuel(lowest_open, 7);
    }
}

impl Default for Board {
    /// The empty board.
    fn default() -> (b: Board)
        ensures
            b.wf(),
            forall|i: int| 0 <= i < 42 ==> (#[trigger] b@[i]) is None,
            count_empty(b@) == 42,
    {
        let mut cells: Vec<Option<Checker>> = Vec::new();
        let mut i: usize = 0;
        proof {
            assert(count_empty(cells@) == 0) by {
                assert(cells@ =~= Seq::<Option<Checker>>::empty());
            }
        }
        while i < 42
            invariant
                0 <= i <= 42,
                cells@.len() == i,
                count_empty(cells@) == i,
                forall|k: int| 0 <= k < i ==> (#[trigger] cells@[k]) is None,
            decreases 42 - i,
        {
            proof {
                lemma_counts_push(cells@, None, Checker::Red);
            }
            cells.push(None);
            i += 1;
        }
        Board { cells }
    }
}

impl GameState for Board {
    open spec fn wf(&self) -> bool {
        self@.len() == 42 && spec_gravity(self@)
    }

    open spec fn spec_terminal(&self) -> bool {
        ||| spec_four(self@, Checker::Red)
        ||| spec_four(self@, Checker::Yellow)
        ||| forall|c: int| 0 <= c < 7 ==> (#[trigger] self@[c]) is Some
    }

    open spec fn spec_legal(&self, player: u64, action: u64) -> bool {
        &&& action < 7
        &&& self@[action as int] is None
        &&& player == spec_current(self@).spec_id()
        &&& !spec_four(self@, Checker::Red)
        &&& !spec_four(self@, Checker::Yellow)
    }

    open spec fn spec_current_player(&self) -> u64 {
        spec_current(self@).spec_id()
    }

    open spec fn moves_left(&self) -> nat {
        count_empty(self@)
    }

    open spec fn spec_action_list(&self) -> Seq<(u64, u64)> {
        if spec_four(self@, Checker::Red) || spec_four(self@, Checker::Yellow) {
            Seq::<(u64, u64)>::empty()
        } else {
            spec_col_pairs(self@, 7)
        }
    }

    open spec fn spec_steps(&self, player: u64, action: u64, next: &Self) -> bool {
        lowest_open(self@, action as int, 5) matches Some(cell) && next@ == self@.update(
            cell,
            Some(spec_current(self@)),
        )
    }

    open spec fn spec_reward_of(&self, player: u64) -> u64 {
        match spec_c4_winner(self@) {
            Some(w) => if player == w.spec_id() {
                1
            } else {
                0
            },
            None => 0,
        }
    }

    open spec fn spec_reward_total(&self) -> int {
        if spec_c4_winner(self@) is Some {
            1
        } else {
            0
        }
    }

    fn current_player(&self) -> (p: u64) {
        match self.current_player() {
            Some(w) => w.id(),
            None => {
                proof {
                    assert(false);
                }
                0
            },
        }
    }

    fn legal_actions(&self) -> (r: Vec<(u64, u64)>) {
        if self.has_four(Checker::Red) || self.has_four(Checker::Yellow) {
            let r: Vec<(u64, u64)> = Vec::new();
            proof {
                assert(r@ =~= self.spec_action_list());
            }
            return r;
        }
        let moves = self.available_moves();
        let mut r: Vec<(u64, u64)> = Vec::new();
        let mut i: usize = 0;
        while i < moves.len()
            invariant
                self.wf(),
                !spec_four(self@, Checker::Red),
                !spec_four(self@, Checker::Yellow),
                0 <= i <= moves@.len(),
                moves@ == spec_moves(self@, 7),
                r@ == moves@.take(i as int).map_values(
                    |m: (Checker, usize)| (m.0.spec_id(), m.1 as u64),
                ),
            decreases moves@.len() - i,
        {
            let (player, action) = moves[i];
            r.push((player.id(), action as u64));
            proof {
                assert(r@ =~= moves@.take(i + 1).map_values(
                    |m: (Checker, usize)| (m.0.spec_id(), m.1 as u64),
                ));
            }
            i += 1;
        }
        proof {
            lemma_move_lists(self@, 7);
            assert(moves@.take(moves@.len() as int) =~= moves@);
            assert(r@ == self.spec_action_list());
            let list = spec_moves(self@, 7);
            assert forall|k: int|
                0 <= k < r@.len() implies #[trigger] self.spec_legal(r@[k].0, r@[k].1) by {
                assert(r@[k] == (list[k].0.spec_id(), list[k].1 as u64));
                assert(list[k].1 < 7 && self@[list[k].1 as int] is None && list[k].0
                    == spec_current(self@));
            }
            assert forall|k1: int, k2: int|
                0 <= k1 < k2 < r@.len() implies (#[trigger] r@[k1]) != (#[trigger] r@[k2]) by {
                assert(r@[k1] == (list[k1].0.spec_id(), list[k1].1 as u64));
                assert(r@[k2] == (list[k2].0.spec_id(), list[k2].1 as u64));
                assert(list[k1].1 < list[k2].1);
            }
        }
        r
    }

    fn apply(&self, player: u64, action: u64) -> (s: Self)
        ensures
            lowest_open(self@, action as int, 5) matches Some(c) && s@ == self@.update(
                c,
                Some(spec_current(self@)),
            ),
    {
        proof {
            lemma_top_open_playable(self@, action as int);
        }
        match self.play_move(colour_of_id(player), action as usize) {
            Some(b) => b,
            None => {
                proof {
                    assert(false);
                }
                self.clone()
            },
        }
    }

    fn terminal_reward(&self) -> (r: Option<GameScore>) {
        match self.outcome() {
            Some(sc) => Some(sc),
            None => {
                let moves = self.available_moves();
                if moves.len() == 0 {
                    Some(GameScore::new())
                } else {
                    None
                }
            },
        }
    }
}

/// The colour behind a numeric player identity; red for any identity that
/// is not yellow's.
fn colour_of_id(player: u64) -> (r: Checker)
    ensures
        player == 0 ==> r == Checker::Red,
        player == 1 ==> r == Checker::Yellow,
{
    if player == 1 {
        Checker::Yellow
    } else {
        Checker::Red
    }
}

} // verus!
