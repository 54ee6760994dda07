//! Tic-tac-toe: a concrete two-player game satisfying the engine's
//! [`GameState`] contract. The board is a row-major sequence of nine cells;
//! a player wins by filling one of the eight lines, and a full board with
//! no winner is a draw worth zero to both players.

use crate::game::GameState;
use crate::score::GameScore;
use vstd::prelude::*;

verus! {

/// The two players; X moves first.
#[derive(Debug, Clone, Copy, PartialEq, Eq, Structural)]
pub enum Player {
    X,
    O,
}

impl Player {
    /// The numeric identity under which this player's rewards accumulate.
    pub open spec fn spec_id(self) -> u64 {
        match self {
            Player::X => 0,
            Player::O => 1,
        }
    }

    /// The numeric identity under which this player's rewards accumulate.
    pub fn id(self) -> (r: u64)
        ensures
            r == self.spec_id(),
    {
        match self {
            Player::X => 0,
            Player::O => 1,
        }
    }

    /// The player who moves after this one.
    pub fn other(self) -> (r: Player)
        ensures
            self == Player::X ==> r == Player::O,
            self == Player::O ==> r == Player::X,
    {
        match self {
            Player::X => Player::O,
            Player::O => Player::X,
        }
    }

    /// The single-character mark the player plays with.
    pub fn as_char(self) -> (r: char)
        ensures
            self == Player::X ==> r == 'X',
            self == Player::O ==> r == 'O',
    {
        match self {
            Player::X => 'X',
            Player::O => 'O',
        }
    }
}

impl Default for Player {
    /// X moves first.
    fn default() -> (r: Player)
        ensures
            r == Player::X,
    {
        Player::X
    }
}

/// Whether `p` holds all three cells of the line `(a, b, c)`.
pub open spec fn spec_line(s: Seq<Option<Player>>, a: int, b: int, c: int, p: Player) -> bool {
    s[a] == Some(p) && s[b] == Some(p) && s[c] == Some(p)
}

/// Whether `p` holds one of the eight winning lines.
pub open spec fn spec_winner_is(s: Seq<Option<Player>>, p: Player) -> bool {
    ||| spec_line(s, 0, 1, 2, p)
    ||| spec_line(s, 3, 4, 5, p)
    ||| spec_line(s, 6, 7, 8, p)
    ||| spec_line(s, 0, 3, 6, p)
    ||| spec_line(s, 1, 4, 7, p)
    ||| spec_line(s, 2, 5, 8, p)
    ||| spec_line(s, 0, 4, 8, p)
    ||| spec_line(s, 2, 4, 6, p)
}

/// Whether either player has won.
pub open spec fn spec_won(s: Seq<Option<Player>>) -> bool {
    spec_winner_is(s, Player::X) || spec_winner_is(s, Player::O)
}

/// How many cells are still empty.
pub open spec fn count_open(s: Seq<Option<Player>>) -> nat
    decreases s.len(),
{
    if s.len() == 0 {
        0
    } else {
        (if s[0] is None {
            1nat
        } else {
            0nat
        }) + count_open(s.drop_first())
    }
}

/// Appending a cell adds one open cell exactly when it is empty.
proof fn lemma_count_open_push(s: Seq<Option<Player>>, e: Option<Player>)
    ensures
        count_open(s.push(e)) == count_open(s) + (if e is None {
            1nat
        } else {
            0nat
        }),
    decreases s.len(),
{
    if s.len() == 0 {
        assert(s.push(e).drop_first() =~= s);
    } else {
        lemma_count_open_push(s.drop_first(), e);
        assert(s.push(e).drop_first() =~= s.drop_first().push(e));
    }
}

/// Filling an empty cell reduces the open count by one.
proof fn lemma_count_open_fill(s: Seq<Option<Player>>, i: int, p: Player)
    requires
        0 <= i < s.len(),
        s[i] is None,
    ensures
        count_open(s.update(i, Some(p))) == count_open(s) - 1,
    decreases i,
{
    let u = s.update(i, Some(p));
    if i == 0 {
        assert(u.drop_first() =~= s.drop_first());
    } else {
        assert(s.drop_first()[i - 1] == s[i]);
        lemma_count_open_fill(s.drop_first(), i - 1, p);
        assert(u.drop_first() =~= s.drop_first().update(i - 1, Some(p)));
        assert(u[0] == s[0]);
    }
}

/// The indices of the empty cells among the first `upto`, in ascending
/// order.
pub open spec fn open_index_list(s: Seq<Option<Player>>, upto: int) -> Seq<usize>
    decreases upto,
{
    if upto <= 0 {
        Seq::<usize>::empty()
    } else {
        open_index_list(s, upto - 1) + (if s[upto - 1] is None {
            seq![(upto - 1) as usize]
        } else {
            Seq::<usize>::empty()
        })
    }
}

/// The admissible pairs for `me` among the first `upto` cells: one pair per
/// empty cell, in ascending cell order.
pub open spec fn open_pair_list(s: Seq<Option<Player>>, me: u64, upto: int) -> Seq<(u64, u64)>
    decreases upto,
{
    if upto <= 0 {
        Seq::<(u64, u64)>::empty()
    } else {
        open_pair_list(s, me, upto - 1) + (if s[upto - 1] is None {
            seq![(me, (upto - 1) as u64)]
        } else {
            Seq::<(u64, u64)>::empty()
        })
    }
}

/// The two enumerations agree: the pairs are the open indices paired with
/// `me`, there is one entry per open cell, every entry names an earlier
/// empty cell, and the indices ascend strictly.
proof fn lemma_open_lists(s: Seq<Option<Player>>, me: u64, upto: int)
    requires
        0 <= upto <= s.len(),
        upto <= usize::MAX,
    ensures
        open_pair_list(s, me, upto) == open_index_list(s, upto).map_values(
            |i: usize| (me, i as u64),
        ),
        open_index_list(s, upto).len() == count_open(s.take(upto)),
        forall|k: int|
            0 <= k < open_index_list(s, upto).len() ==> (#[trigger] open_index_list(s, upto)[k])
                < upto && s[open_index_list(s, upto)[k] as int] is None,
        forall|k1: int, k2: int|
            0 <= k1 < k2 < open_index_list(s, upto).len() ==> #[trigger] open_index_list(
                s,
                upto,
            )[k1] < #[trigger] open_index_list(s, upto)[k2],
    decreases upto,
{
    let f = |i: usize| (me, i as u64);
    if upto <= 0 {
        assert(open_pair_list(s, me, upto) =~= open_index_list(s, upto).map_values(f));
        assert(s.take(0) =~= Seq::<Option<Player>>::empty());
    } else {
        lemma_open_lists(s, me, upto - 1);
        lemma_count_open_push(s.take(upto - 1), s[upto - 1]);
        assert(s.take(upto - 1).push(s[upto - 1]) =~= s.take(upto));
        let prev_list = open_index_list(s, upto - 1);
        let prev_pairs = open_pair_list(s, me, upto - 1);
        let cur_list = open_index_list(s, upto);
        let cur_pairs = open_pair_list(s, me, upto);
        if s[upto - 1] is None {
            assert(cur_list =~= prev_list.push((upto - 1) as usize));
            assert(cur_pairs =~= prev_pairs.push((me, (upto - 1) as u64)));
        } else {
            assert(cur_list =~= prev_list);
            assert(cur_pairs =~= prev_pairs);
        }
        assert forall|k: int|
            0 <= k < cur_list.len() implies (#[trigger] cur_list[k]) < upto && s[cur_list[k] as int]
            is None by {
            if k < prev_list.len() {
                assert(cur_list[k] == prev_list[k]);
            }
        }
        assert forall|k1: int, k2: int|
            0 <= k1 < k2 < cur_list.len() implies #[trigger] cur_list[k1]
            < #[trigger] cur_list[k2] by {
            assert(cur_list[k1] == prev_list[k1]);
            if k2 < prev_list.len() {
                assert(cur_list[k2] == prev_list[k2]);
            } else {
                assert(prev_list[k1] < upto - 1);
            }
        }
        assert forall|k: int| 0 <= k < cur_list.len() implies cur_pairs[k] == f(
            cur_list[k],
        ) by {
            if k < prev_list.len() {
                assert(cur_pairs[k] == prev_pairs[k] && cur_list[k] == prev_list[k]);
                assert(prev_pairs[k] == prev_list.map_values(f)[k]);
            }
        }
        assert(cur_pairs =~= cur_list.map_values(f));
    }
}

/// The player holding the full line `(a, b, c)`, if any.
pub open spec fn spec_line_owner(s: Seq<Option<Player>>, a: int, b: int, c: int) -> Option<
    Player,
> {
    if spec_line(s, a, b, c, Player::X) {
        Some(Player::X)
    } else if spec_line(s, a, b, c, Player::O) {
        Some(Player::O)
    } else {
        None
    }
}

/// The winner: the owner of the first full line, in the fixed line order.
pub open spec fn spec_winner(s: Seq<Option<Player>>) -> Option<Player> {
    if spec_line_owner(s, 0, 1, 2) is Some {
        spec_line_owner(s, 0, 1, 2)
    } else if spec_line_owner(s, 3, 4, 5) is Some {
        spec_line_owner(s, 3, 4, 5)
    } else if spec_line_owner(s, 6, 7, 8) is Some {
        spec_line_owner(s, 6, 7, 8)
    } else if spec_line_owner(s, 0, 3, 6) is Some {
        spec_line_owner(s, 0, 3, 6)
    } else if spec_line_owner(s, 1, 4, 7) is Some {
        spec_line_owner(s, 1, 4, 7)
    } else if spec_line_owner(s, 2, 5, 8) is Some {
        spec_line_owner(s, 2, 5, 8)
    } else if spec_line_owner(s, 0, 4, 8) is Some {
        spec_line_owner(s, 0, 4, 8)
    } else if spec_line_owner(s, 2, 4, 6) is Some {
        spec_line_owner(s, 2, 4, 6)
    } else {
        None
    }
}

/// A tic-tac-toe position: nine cells in row-major order and the player to
/// move.
pub struct Game {
    board: Vec<Option<Player>>,
    current_player: Player,
}

impl Game {
    /// The cells, row-major.
    pub closed spec fn spec_board(&self) -> Seq<Option<Player>> {
        self.board@
    }

    /// The player to move.
    pub closed spec fn spec_player(&self) -> Player {
        self.current_player
    }

    /// A position built from an explicit board and player to move.
    pub fn new(board: Vec<Option<Player>>, current_player: Player) -> (g: Game)
        requires
            board@.len() == 9,
        ensures
            g.spec_board() == board@,
            g.spec_player() == current_player,
            g.wf(),
    {
        Game { board, current_player }
    }

    /// The cells, row-major.
    pub fn board(&self) -> (r: &Vec<Option<Player>>)
        ensures
            r@ == self.spec_board(),
    {
        &self.board
    }

    /// The player to move.
    pub fn player(&self) -> (r: Player)
        ensures
            r == self.spec_player(),
    {
        self.current_player
    }

    /// The indices of the empty cells: exactly `open_index_list`, one entry
    /// per empty cell in ascending order.
    pub fn open_indices(&self) -> (r: Vec<usize>)
        requires
            self.wf(),
        ensures
            r@ == open_index_list(self.spec_board(), 9),
            r@.len() == count_open(self.spec_board()),
            forall|k: int|
                0 <= k < r@.len() ==> (#[trigger] r@[k]) < 9 && self.spec_board()[r@[k] as int]
                    is None,
    {
        let mut out: Vec<usize> = Vec::new();
        let mut i: usize = 0;
        while i < 9
            invariant
                self.wf(),
                0 <= i <= 9,
                out@ == open_index_list(self.spec_board(), i as int),
            decreases 9 - i,
        {
            match self.board[i] {
                None => {
                    out.push(i);
                },
                Some(_) => {},
            }
            proof {
                assert(out@ =~= open_index_list(self.spec_board(), i + 1));
            }
            i += 1;
        }
        proof {
            lemma_open_lists(self.spec_board(), 0, 9);
            assert(self.spec_board().take(9) =~= self.spec_board());
        }
        out
    }

    /// The winner, if either player holds a line.
    pub fn winner(&self) -> (r: Option<Player>)
        requires
            self.wf(),
        ensures
            r == spec_winner(self.spec_board()),
            r is Some <==> spec_won(self.spec_board()),
            r matches Some(p) ==> spec_winner_is(self.spec_board(), p),
    {
        let mut who: Option<Player> = None;
        if let Some(p) = self.line_owner(0, 1, 2) {
            who = Some(p);
        } else if let Some(p) = self.line_owner(3, 4, 5) {
            who = Some(p);
        } else if let Some(p) = self.line_owner(6, 7, 8) {
            who = Some(p);
        } else if let Some(p) = self.line_owner(0, 3, 6) {
            who = Some(p);
        } else if let Some(p) = self.line_owner(1, 4, 7) {
            who = Some(p);
        } else if let Some(p) = self.line_owner(2, 5, 8) {
            who = Some(p);
        } else if let Some(p) = self.line_owner(0, 4, 8) {
            who = Some(p);
        } else if let Some(p) = self.line_owner(2, 4, 6) {
            who = Some(p);
        }
        who
    }

    /// The player holding the full line `(a, b, c)`, if any.
    fn line_owner(&self, a: usize, b: usize, c: usize) -> (r: Option<Player>)
        requires
            self.wf(),
            a < 9,
            b < 9,
            c < 9,
        ensures
            r == spec_line_owner(self.spec_board(), a as int, b as int, c as int),
            r matches Some(p) ==> spec_line(self.spec_board(), a as int, b as int, c as int, p),
            r is None ==> forall|p: Player|
                !spec_line(self.spec_board(), a as int, b as int, c as int, p),
    {
        match (self.board[a], self.board[b], self.board[c]) {
            (Some(x), Some(y), Some(z)) => {
                if x == y && y == z {
                    Some(x)
                } else {
                    None
                }
            },
            _ => None,
        }
    }

    /// Whether the game has concluded: a line is held or the board is full.
    pub fn is_complete(&self) -> (r: bool)
        requires
            self.wf(),
        ensures
            r == self.spec_terminal(),
    {
        if self.winner().is_some() {
            return true;
        }
        let open = self.open_indices();
        open.len() == 0
    }
}

impl Default for Game {
    /// The empty board, X to move.
    fn default() -> (g: Game)
        ensures
            g.wf(),
            forall|i: int| 0 <= i < 9 ==> (#[trigger] g.spec_board()[i]) is None,
            g.spec_player() == Player::X,
    {
        let mut board: Vec<Option<Player>> = Vec::new();
        let mut i: usize = 0;
        while i < 9
            invariant
                0 <= i <= 9,
                board@.len() == i,
                forall|k: int| 0 <= k < i ==> (#[trigger] board@[k]) is None,
            decreases 9 - i,
        {
            board.push(None);
            i += 1;
        }
        Game { board, current_player: Player::X }
    }
}

impl GameState for Game {
    open spec fn wf(&self) -> bool {
        self.spec_board().len() == 9
    }

    open spec fn spec_terminal(&self) -> bool {
        spec_won(self.spec_board()) || count_open(self.spec_board()) == 0
    }

    open spec fn spec_legal(&self, player: u64, action: u64) -> bool {
        &&& action < 9
        &&& self.spec_board()[action as int] is None
        &&& player == self.spec_player().spec_id()
        &&& !spec_won(self.spec_board())
    }

    open spec fn spec_current_player(&self) -> u64 {
        self.spec_player().spec_id()
    }

    open spec fn moves_left(&self) -> nat {
        count_open(self.spec_board())
    }

    open spec fn spec_action_list(&self) -> Seq<(u64, u64)> {
        if spec_won(self.spec_board()) {
            Seq::<(u64, u64)>::empty()
        } else {
            open_pair_list(self.spec_board(), self.spec_player().spec_id(), 9)
        }
    }

    open spec fn spec_steps(&self, player: u64, action: u64, next: &Self) -> bool {
        &&& next.spec_board() == self.spec_board().update(
            action as int,
            Some(self.spec_player()),
        )
        &&& next.spec_player() == (if self.spec_player() == Player::X {
            Player::O
        } else {
            Player::X
        })
    }

    open spec fn spec_reward_of(&self, player: u64) -> u64 {
        match spec_winner(self.spec_board()) {
            Some(w) => if player == w.spec_id() {
                1
            } else {
                0
            },
            None => 0,
        }
    }

    open spec fn spec_reward_total(&self) -> int {
        if spec_winner(self.spec_board()) is Some {
            1
        } else {
            0
        }
    }

    fn current_player(&self) -> (p: u64) {
        self.current_player.id()
    }

    fn legal_actions(&self) -> (r: Vec<(u64, u64)>) {
        if self.winner().is_some() {
            let r: Vec<(u64, u64)> = Vec::new();
            proof {
                assert(r@ =~= self.spec_action_list());
            }
            return r;
        }
        let open = self.open_indices();
        let me = self.current_player.id();
        let mut r: Vec<(u64, u64)> = Vec::new();
        let mut i: usize = 0;
        while i < open.len()
            invariant
                self.wf(),
                !spec_won(self.spec_board()),
                me == self.spec_player().spec_id(),
                0 <= i <= open@.len(),
                open@ == open_index_list(self.spec_board(), 9),
                r@ == open@.take(i as int).map_values(|x: usize| (me, x as u64)),
            decreases open@.len() - i,
        {
            r.push((me, open[i] as u64));
            proof {
                assert(r@ =~= open@.take(i + 1).map_values(|x: usize| (me, x as u64)));
            }
            i += 1;
        }
        proof {
            lemma_open_lists(self.spec_board(), me, 9);
            assert(open@.take(open@.len() as int) =~= open@);
            assert(self.spec_board().take(9) =~= self.spec_board());
            assert(r@ == self.spec_action_list());
            let list = open_index_list(self.spec_board(), 9);
            assert forall|k: int|
                0 <= k < r@.len() implies #[trigger] self.spec_legal(r@[k].0, r@[k].1) by {
                assert(r@[k] == (me, list[k] as u64));
                assert(list[k] < 9 && self.spec_board()[list[k] as int] is None);
            }
            assert forall|k1: int, k2: int|
                0 <= k1 < k2 < r@.len() implies (#[trigger] r@[k1]) != (#[trigger] r@[k2]) by {
                assert(r@[k1] == (me, list[k1] as u64) && r@[k2] == (me, list[k2] as u64));
                assert(list[k1] < list[k2]);
            }
        }
        r
    }

    fn apply(&self, player: u64, action: u64) -> (s: Self)
        ensures
            s.spec_board() == self.spec_board().update(
                action as int,
                Some(self.spec_player()),
            ),
            s.spec_player() == (if self.spec_player() == Player::X {
                Player::O
            } else {
                Player::X
            }),
    {
        let idx = action as usize;
        let mut board = self.board.clone();
        proof {
            assert(board@ =~= self.spec_board());
        }
        board.set(idx, Some(self.current_player));
        proof {
            lemma_count_open_fill(self.spec_board(), idx as int, self.current_player);
        }
        Game { board, current_player: self.current_player.other() }
    }

    fn terminal_reward(&self) -> (r: Option<GameScore>) {
        match self.winner() {
            Some(p) => {
                let mut sc = GameScore::new();
                sc.insert(p.id(), 1);
                proof {
                    assert forall|q: u64| #[trigger] sc.spec_get(q) == self.spec_reward_of(
                        q,
                    ) by {
                        if q != p.spec_id() {
                            assert(sc.spec_get(q) == 0);
                        }
                    }
                }
                Some(sc)
            },
            None => {
                let open = self.open_indices();
                if open.len() == 0 {
                    Some(GameScore::new())
                } else {
                    None
                }
            },
        }
    }
}

} // verus!
