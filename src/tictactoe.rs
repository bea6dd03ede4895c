//! Tic-tac-toe on a 3x3 board, as a game the search can play.
use crate::mcts::{Action, GameState};
use vstd::array::spec_array_update;
use vstd::prelude::*;

verus! {

#[derive(Clone, Copy, Debug, PartialEq, Eq, Structural)]
pub enum Player {
    /// Moves first.
    X,
    O,
}

/// A board position. Cells are numbered 0 to 8, row by row.
pub struct TicTacToe {
    pub board: [Option<Player>; 9],
    /// The player to move.
    pub player: Player,
}

pub open spec fn other(p: Player) -> Player {
    match p {
        Player::X => Player::O,
        Player::O => Player::X,
    }
}

/// The winner's number in `GameState::get_winner`: 1 for X, -1 for O.
pub open spec fn score_of(p: Player) -> i32 {
    match p {
        Player::X => 1i32,
        Player::O => -1i32,
    }
}

/// The cells of line `k`: three rows, three columns, two diagonals.
pub open spec fn line_cells(k: int) -> (int, int, int) {
    if k == 0 {
        (0, 1, 2)
    } else if k == 1 {
        (3, 4, 5)
    } else if k == 2 {
        (6, 7, 8)
    } else if k == 3 {
        (0, 3, 6)
    } else if k == 4 {
        (1, 4, 7)
    } else if k == 5 {
        (2, 5, 8)
    } else if k == 6 {
        (0, 4, 8)
    } else {
        (2, 4, 6)
    }
}

fn line_at(k: usize) -> (r: (usize, usize, usize))
    requires
        k < 8,
    ensures
        r.0 == line_cells(k as int).0,
        r.1 == line_cells(k as int).1,
        r.2 == line_cells(k as int).2,
        r.0 < 9 && r.1 < 9 && r.2 < 9,
{
    if k == 0 {
        (0, 1, 2)
    } else if k == 1 {
        (3, 4, 5)
    } else if k == 2 {
        (6, 7, 8)
    } else if k == 3 {
        (0, 3, 6)
    } else if k == 4 {
        (1, 4, 7)
    } else if k == 5 {
        (2, 5, 8)
    } else if k == 6 {
        (0, 4, 8)
    } else {
        (2, 4, 6)
    }
}

fn holds(cell: Option<Player>, p: Player) -> (r: bool)
    ensures
        r == (cell == Some(p)),
{
    match cell {
        Some(q) => q == p,
        None => false,
    }
}

/// The cell at 1-based `row` and `column`, or none outside the board.
pub fn cell_index(row: u32, column: u32) -> (r: Option<Action>)
    ensures
        (1 <= row <= 3 && 1 <= column <= 3) ==> r == Some(((row - 1) * 3 + (column - 1)) as Action),
        !(1 <= row <= 3 && 1 <= column <= 3) ==> r is None,
{
    if 1 <= row && row <= 3 && 1 <= column && column <= 3 {
        Some(((row - 1) * 3 + (column - 1)) as Action)
    } else {
        None
    }
}

impl TicTacToe {
    /// The empty cells among the first `n`, in increasing order.
    pub open spec fn empty_upto(&self, n: int) -> Seq<Action>
        decreases n,
    {
        if n <= 0 {
            Seq::empty()
        } else {
            let s = self.empty_upto(n - 1);
            if self.board@[n - 1] is None {
                s.push((n - 1) as usize)
            } else {
                s
            }
        }
    }

    pub open spec fn full(&self) -> bool {
        forall|i: int| 0 <= i < 9 ==> (#[trigger] self.board@[i]) is Some
    }

    /// The player holding all three cells of line `k`, if one does.
    pub open spec fn line_owner(&self, k: int) -> Option<Player> {
        let (a, b, c) = line_cells(k);
        if self.board@[a] is Some && self.board@[b] == self.board@[a] && self.board@[c]
            == self.board@[a] {
            self.board@[a]
        } else {
            None
        }
    }

    /// The owner of the first completed line from line `k` on.
    pub open spec fn first_owner_from(&self, k: int) -> Option<Player>
        decreases 8 - k,
    {
        if k >= 8 {
            None
        } else {
            match self.line_owner(k) {
                Some(p) => Some(p),
                None => self.first_owner_from(k + 1),
            }
        }
    }

    /// The empty board, X to move.
    pub fn new() -> (r: TicTacToe)
        ensures
            forall|i: int| 0 <= i < 9 ==> r.board@[i] is None,
            r.player == Player::X,
    {
        TicTacToe { board: [None; 9], player: Player::X }
    }

    fn is_full(&self) -> (r: bool)
        ensures
            r == self.full(),
    {
        let mut i: usize = 0;
        while i < 9
            invariant
                i <= 9,
                forall|j: int| 0 <= j < i ==> (#[trigger] self.board@[j]) is Some,
            decreases 9 - i,
        {
            if self.board[i].is_none() {
                return false;
            }
            i = i + 1;
        }
        true
    }

    fn owner_of_line(&self, k: usize) -> (r: Option<Player>)
        requires
            k < 8,
        ensures
            r == self.line_owner(k as int),
    {
        let (a, b, c) = line_at(k);
        match self.board[a] {
            Some(p) => {
                if holds(self.board[b], p) && holds(self.board[c], p) {
                    Some(p)
                } else {
                    None
                }
            },
            None => None,
        }
    }

    proof fn lemma_empty_upto_members(&self, n: int)
        requires
            n <= 9,
        ensures
            forall|j: int|
                0 <= j < self.empty_upto(n).len() ==> {
                    let x = #[trigger] self.empty_upto(n)[j];
                    0 <= x < n && self.board@[x as int] is None
                },
        decreases n,
    {
        if n > 0 {
            self.lemma_empty_upto_members(n - 1);
            let s = self.empty_upto(n - 1);
            assert forall|j: int| 0 <= j < self.empty_upto(n).len() implies {
                let x = #[trigger] self.empty_upto(n)[j];
                0 <= x < n && self.board@[x as int] is None
            } by {
                if j < s.len() {
                    assert(self.empty_upto(n)[j] == s[j]);
                }
            }
        }
    }

    proof fn lemma_empty_upto_distinct(&self, n: int)
        requires
            n <= 9,
        ensures
            self.empty_upto(n).no_duplicates(),
        decreases n,
    {
        if n > 0 {
            self.lemma_empty_upto_distinct(n - 1);
            self.lemma_empty_upto_members(n - 1);
            let s = self.empty_upto(n - 1);
            if self.board@[n - 1] is None {
                let t = s.push((n - 1) as usize);
                assert forall|i: int, j: int| 0 <= i < t.len() && 0 <= j < t.len() && i != j implies t[i] != t[j] by {
                    if i < s.len() {
                        assert(s[i] < n - 1);
                    }
                    if j < s.len() {
                        assert(s[j] < n - 1);
                    }
                }
            }
        }
    }

    proof fn lemma_empty_upto_has(&self, n: int, i: int)
        requires
            0 <= i < n,
            self.board@[i] is None,
        ensures
            self.empty_upto(n).contains(i as usize),
        decreases n,
    {
        if i < n - 1 {
            self.lemma_empty_upto_has(n - 1, i);
            let s = self.empty_upto(n - 1);
            let k = choose|k: int| 0 <= k < s.len() && s[k] == i as usize;
            if self.board@[n - 1] is None {
                assert(s.push((n - 1) as usize)[k] == i as usize);
            }
        } else {
            let s = self.empty_upto(n - 1);
            assert(s.push((n - 1) as usize)[s.len() as int] == i as usize);
        }
    }

    /// Filling one empty cell removes exactly that cell from the empty ones.
    proof fn lemma_fill_one(&self, u: TicTacToe, a: int, n: int)
        requires
            0 <= a < 9,
            n <= 9,
            self.board@[a] is None,
            u.board@ == self.board@.update(a, u.board@[a]),
            u.board@[a] is Some,
        ensures
            n > a ==> u.empty_upto(n).len() + 1 == self.empty_upto(n).len(),
            n <= a ==> u.empty_upto(n).len() == self.empty_upto(n).len(),
        decreases n,
    {
        if n > 0 {
            self.lemma_fill_one(u, a, n - 1);
        }
    }
}

impl GameState for TicTacToe {
    open spec fn legal(&self) -> Seq<Action> {
        self.empty_upto(9)
    }

    open spec fn terminal(&self) -> bool {
        self.first_owner_from(0) is Some || self.full()
    }

    open spec fn winner(&self) -> Option<i32> {
        match self.first_owner_from(0) {
            Some(p) => Some(score_of(p)),
            None => if self.full() {
                Some(0i32)
            } else {
                None
            },
        }
    }

    open spec fn after(&self, action: Action) -> TicTacToe {
        TicTacToe {
            board: spec_array_update(self.board, action as int, Some(self.player)),
            player: other(self.player),
        }
    }

    open spec fn horizon(&self) -> nat {
        self.empty_upto(9).len()
    }

    fn get_legal_moves(&self) -> (r: Vec<Action>) {
        let mut r: Vec<Action> = Vec::new();
        let mut i: usize = 0;
        while i < 9
            invariant
                i <= 9,
                r@ == self.empty_upto(i as int),
            decreases 9 - i,
        {
            if self.board[i].is_none() {
                r.push(i);
            }
            i = i + 1;
        }
        proof {
            self.lemma_empty_upto_distinct(9);
            if !self.full() {
                let k = choose|k: int| 0 <= k < 9 && !(self.board@[k] is Some);
                self.lemma_empty_upto_has(9, k);
            }
        }
        r
    }

    fn make_move(&mut self, action: Action) {
        proof {
            self.lemma_empty_upto_members(9);
            let k = choose|k: int|
                0 <= k < self.empty_upto(9).len() && self.empty_upto(9)[k] == action;
        }
        let ghost before = *self;
        self.board[action] = Some(self.player);
        self.player = match self.player {
            Player::X => Player::O,
            Player::O => Player::X,
        };
        proof {
            assert(self.board =~= spec_array_update(before.board, action as int, Some(before.player)));
            before.lemma_fill_one(*self, action as int, 9);
        }
    }

    fn is_terminal(&self) -> (r: bool) {
        self.get_winner().is_some() || self.is_full()
    }

    fn get_winner(&self) -> (r: Option<i32>) {
        let mut k: usize = 0;
        while k < 8
            invariant
                k <= 8,
                self.first_owner_from(0) == self.first_owner_from(k as int),
            decreases 8 - k,
        {
            match self.owner_of_line(k) {
                Some(p) => {
                    return Some(
                        match p {
                            Player::X => 1,
                            Player::O => -1,
                        },
                    );
                },
                None => {},
            }
            k = k + 1;
        }
        if self.is_full() {
            Some(0)
        } else {
            None
        }
    }

    fn clone(&self) -> (r: TicTacToe) {
        TicTacToe { board: self.board, player: self.player }
    }
}

} // verus!
