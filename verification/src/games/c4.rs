use vstd::laws_eq::obeys_concrete_eq;
use vstd::prelude::*;
use vstd::std_specs::cmp::PartialEqSpecImpl;

use crate::game::Game;
use crate::mon2y::game::{copied, Action, Actor, ActorView, State};
use crate::mon2y::{Reward, FIXED_ONE};

verus! {

pub const BOARD_WIDTH: usize = 7;

pub const BOARD_HEIGHT: usize = 6;

/// The number of lines of four cells on the board.
pub const LINES: usize = 69;

/// A move: a piece is dropped into a column.
#[derive(Copy, Clone, Eq, Hash, Debug)]
pub enum C4Action {
    Drop(u8),
}

impl PartialEq for C4Action {
    fn eq(&self, other: &C4Action) -> (equal: bool) {
        match (self, other) {
            (C4Action::Drop(a), C4Action::Drop(b)) => *a == *b,
        }
    }
}

impl PartialEqSpecImpl for C4Action {
    open spec fn obeys_eq_spec() -> bool {
        true
    }

    open spec fn eq_spec(&self, other: &C4Action) -> bool {
        *self == *other
    }
}

/// A cell of the board: empty, or filled with a piece of a player.
#[derive(Copy, Clone, PartialEq, Eq, Structural, Debug)]
pub enum C4Cell {
    Empty,
    Filled(u8),
}

/// How a board stands.
#[derive(Copy, Clone, PartialEq, Eq, Structural, Debug)]
pub enum CheckForWinResult {
    Winner(u8),
    Stalemate,
    Ongoing,
}

/// A position: the board row by row from the top, the player to move, and
/// whether the game is over, with the rewards.
#[derive(Debug)]
pub struct C4State {
    board: Vec<C4Cell>,
    next_player: u8,
    terminal: bool,
    reward: Vec<Reward>,
}

/// The mathematical value of a position.
pub struct C4StateView {
    pub board: Seq<C4Cell>,
    pub next_player: u8,
    pub terminal: bool,
    pub reward: Seq<Reward>,
}

impl View for C4State {
    type V = C4StateView;

    closed spec fn view(&self) -> C4StateView {
        C4StateView {
            board: self.board@,
            next_player: self.next_player,
            terminal: self.terminal,
            reward: self.reward@,
        }
    }
}

impl Clone for C4State {
    fn clone(&self) -> (copy: C4State)
        ensures
            copy@ == self@,
    {
        C4State {
            board: copied(&self.board),
            next_player: self.next_player,
            terminal: self.terminal,
            reward: copied(&self.reward),
        }
    }
}

/// The cell in a row, counted from the top, and a column.
pub open spec fn cell(board: Seq<C4Cell>, row: int, column: int) -> C4Cell {
    board[row * 7 + column]
}

/// The row and column in which a line starts. The lines are numbered as they
/// are looked through: first those along the rows, then those down the
/// columns, then the diagonals that fall to the right, then those that rise.
pub open spec fn line_start(line: int) -> (int, int) {
    if line < 24 {
        (line / 4, line % 4)
    } else if line < 45 {
        ((line - 24) % 3, (line - 24) / 3)
    } else if line < 57 {
        ((line - 45) % 3, (line - 45) / 3)
    } else {
        ((line - 57) % 3 + 3, (line - 57) / 3)
    }
}

/// By how many rows and columns a line moves from one cell to the next.
pub open spec fn line_step(line: int) -> (int, int) {
    if line < 24 {
        (0, 1)
    } else if line < 45 {
        (1, 0)
    } else if line < 57 {
        (1, 1)
    } else {
        (-1, 1)
    }
}

/// The cell number `k` of a line.
pub open spec fn line_cell(board: Seq<C4Cell>, line: int, k: int) -> C4Cell {
    cell(board, line_start(line).0 + k * line_step(line).0, line_start(line).1 + k * line_step(line).1)
}

/// The player whose pieces fill a line, if one does.
pub open spec fn line_winner(board: Seq<C4Cell>, line: int) -> Option<u8> {
    match line_cell(board, line, 0) {
        C4Cell::Filled(player) => if line_cell(board, line, 1) == line_cell(board, line, 0) && line_cell(
            board,
            line,
            2,
        ) == line_cell(board, line, 0) && line_cell(board, line, 3) == line_cell(board, line, 0) {
            Some(player)
        } else {
            None
        },
        C4Cell::Empty => None,
    }
}

/// The first line at or after `from` that a player fills, or the number of
/// lines if there is none.
pub open spec fn first_line(board: Seq<C4Cell>, from: int) -> int
    decreases 69 - from,
{
    if from < 0 || from >= 69 {
        69
    } else if line_winner(board, from) is Some {
        from
    } else {
        first_line(board, from + 1)
    }
}

/// Whether no cell is empty.
pub open spec fn full(board: Seq<C4Cell>) -> bool {
    forall|i: int| 0 <= i < board.len() ==> board[i] != C4Cell::Empty
}

/// How a board stands: a full board is a stalemate; else the player who
/// fills the first line that is filled has won; else the game goes on.
pub open spec fn standing(board: Seq<C4Cell>) -> CheckForWinResult {
    if full(board) {
        CheckForWinResult::Stalemate
    } else if first_line(board, 0) < 69 {
        CheckForWinResult::Winner(line_winner(board, first_line(board, 0))->Some_0)
    } else {
        CheckForWinResult::Ongoing
    }
}

/// The first line at or after `from` that is filled lies among the lines.
pub proof fn lemma_first_line(board: Seq<C4Cell>, from: int)
    requires
        0 <= from <= 69,
    ensures
        from <= first_line(board, from) <= 69,
        first_line(board, from) < 69 ==> line_winner(board, first_line(board, from)) is Some,
    decreases 69 - from,
{
    if from < 69 && line_winner(board, from) is None {
        lemma_first_line(board, from + 1);
    }
}

/// Whether four cells hold pieces of one player.
fn four(board: &Vec<C4Cell>, a: usize, b: usize, c: usize, d: usize) -> (winner: Option<u8>)
    requires
        a < board.len(),
        b < board.len(),
        c < board.len(),
        d < board.len(),
    ensures
        winner == (match board@[a as int] {
            C4Cell::Filled(player) => if board@[b as int] == board@[a as int] && board@[c as int]
                == board@[a as int] && board@[d as int] == board@[a as int] {
                Some(player)
            } else {
                None
            },
            C4Cell::Empty => None,
        }),
{
    match board[a] {
        C4Cell::Filled(player) => {
            if board[a] == board[b] && board[a] == board[c] && board[a] == board[d] {
                Some(player)
            } else {
                None
            }
        },
        C4Cell::Empty => None,
    }
}

/// How the board stands.
pub fn check_for_win(board: &Vec<C4Cell>) -> (result: CheckForWinResult)
    requires
        board.len() == 42,
    ensures
        result == standing(board@),
{
    // Check stalemate
    let mut i: usize = 0;
    let mut all_filled = true;
    while i < 42
        invariant
            i <= 42,
            board.len() == 42,
            all_filled <==> forall|j: int| 0 <= j < i ==> board@[j] != C4Cell::Empty,
        decreases 42 - i,
    {
        match board[i] {
            C4Cell::Empty => {
                all_filled = false;
            },
            C4Cell::Filled(_) => {},
        }
        i += 1;
    }
    if all_filled {
        return CheckForWinResult::Stalemate;
    }
    proof {
        lemma_first_line(board@, 0);
    }
    // Check Horizontal win
    let mut row: usize = 0;
    while row < 6
        invariant
            row <= 6,
            board.len() == 42,
            !full(board@),
            first_line(board@, 0) == first_line(board@, row * 4),
        decreases 6 - row,
    {
        let mut column: usize = 0;
        while column < 4
            invariant
                column <= 4,
                row < 6,
                board.len() == 42,
                !full(board@),
                first_line(board@, 0) == first_line(board@, row * 4 + column),
            decreases 4 - column,
        {
            let at = row * 7 + column;
            let ghost line = (row * 4 + column) as int;
            assert(line_start(line) == (row as int, column as int));
            match four(board, at, at + 1, at + 2, at + 3) {
                Some(player) => {
                    assert(line_winner(board@, line) == Some(player));
                    return CheckForWinResult::Winner(player);
                },
                None => {
                    assert(line_winner(board@, line) is None);
                },
            }
            column += 1;
        }
        row += 1;
    }
    // Check Vertical win
    let mut column: usize = 0;
    while column < 7
        invariant
            column <= 7,
            board.len() == 42,
            !full(board@),
            first_line(board@, 0) == first_line(board@, 24 + column * 3),
        decreases 7 - column,
    {
        let mut row: usize = 0;
        while row < 3
            invariant
                row <= 3,
                column < 7,
                board.len() == 42,
                !full(board@),
                first_line(board@, 0) == first_line(board@, 24 + column * 3 + row),
            decreases 3 - row,
        {
            let at = row * 7 + column;
            let ghost line = (24 + column * 3 + row) as int;
            assert(line_start(line) == (row as int, column as int));
            match four(board, at, at + 7, at + 14, at + 21) {
                Some(player) => {
                    assert(line_winner(board@, line) == Some(player));
                    return CheckForWinResult::Winner(player);
                },
                None => {
                    assert(line_winner(board@, line) is None);
                },
            }
            row += 1;
        }
        column += 1;
    }
    // Check \ win
    let mut column: usize = 0;
    while column < 4
        invariant
            column <= 4,
            board.len() == 42,
            !full(board@),
            first_line(board@, 0) == first_line(board@, 45 + column * 3),
        decreases 4 - column,
    {
        let mut row: usize = 0;
        while row < 3
            invariant
                row <= 3,
                column < 4,
                board.len() == 42,
                !full(board@),
                first_line(board@, 0) == first_line(board@, 45 + column * 3 + row),
            decreases 3 - row,
        {
            let at = row * 7 + column;
            let ghost line = (45 + column * 3 + row) as int;
            assert(line_start(line) == (row as int, column as int));
            match four(board, at, at + 8, at + 16, at + 24) {
                Some(player) => {
                    assert(line_winner(board@, line) == Some(player));
                    return CheckForWinResult::Winner(player);
                },
                None => {
                    assert(line_winner(board@, line) is None);
                },
            }
            row += 1;
        }
        column += 1;
    }
    // Check / win
    let mut column: usize = 0;
    while column < 4
        invariant
            column <= 4,
            board.len() == 42,
            !full(board@),
            first_line(board@, 0) == first_line(board@, 57 + column * 3),
        decreases 4 - column,
    {
        let mut row: usize = 3;
        while row < 6
            invariant
                3 <= row <= 6,
                column < 4,
                board.len() == 42,
                !full(board@),
                first_line(board@, 0) == first_line(board@, 57 + column * 3 + row - 3),
            decreases 6 - row,
        {
            let at = row * 7 + column;
            let ghost line = (57 + column * 3 + row - 3) as int;
            assert(line_start(line) == (row as int, column as int));
            match four(board, at, at - 6, at - 12, at - 18) {
                Some(player) => {
                    assert(line_winner(board@, line) == Some(player));
                    return CheckForWinResult::Winner(player);
                },
                None => {
                    assert(line_winner(board@, line) is None);
                },
            }
            row += 1;
        }
        column += 1;
    }
    CheckForWinResult::Ongoing
}

/// Whether every piece rests on the bottom or on another piece.
pub open spec fn gravity(board: Seq<C4Cell>) -> bool {
    forall|row: int, column: int|
        0 <= row < 5 && 0 <= column < 7 && #[trigger] cell(board, row, column) != C4Cell::Empty ==> cell(
            board,
            row + 1,
            column,
        ) != C4Cell::Empty
}

/// The number of empty cells among the first `n`.
pub open spec fn count_empty(board: Seq<C4Cell>, n: int) -> nat
    decreases n,
{
    if n <= 0 {
        0
    } else {
        count_empty(board, n - 1) + (if board[n - 1] == C4Cell::Empty {
            1nat
        } else {
            0nat
        })
    }
}

/// The lowest empty cell of a column at or above `row`, or -1 if there is
/// none. Rows are counted from the top.
pub open spec fn landing(board: Seq<C4Cell>, column: int, row: int) -> int
    decreases row + 1,
{
    if row < 0 {
        -1
    } else if cell(board, row, column) == C4Cell::Empty {
        row
    } else {
        landing(board, column, row - 1)
    }
}

/// The rewards of the two players.
pub open spec fn reward_of(result: CheckForWinResult) -> Seq<Reward> {
    match result {
        CheckForWinResult::Winner(player) => if player == 0 {
            seq![FIXED_ONE, (-FIXED_ONE) as i64]
        } else {
            seq![(-FIXED_ONE) as i64, FIXED_ONE]
        },
        CheckForWinResult::Stalemate => seq![(-FIXED_ONE / 2) as i64, (-FIXED_ONE / 2) as i64],
        CheckForWinResult::Ongoing => seq![0i64, 0i64],
    }
}

/// There are two rewards, whatever the board shows.
pub proof fn lemma_two_rewards(result: CheckForWinResult)
    ensures
        reward_of(result).len() == 2,
{
}

/// The columns among the first `n` that have room, as moves.
pub open spec fn open_columns(board: Seq<C4Cell>, n: int) -> Seq<C4Action>
    decreases n,
{
    if n <= 0 {
        Seq::empty()
    } else if board[n - 1] == C4Cell::Empty {
        open_columns(board, n - 1).push(C4Action::Drop((n - 1) as u8))
    } else {
        open_columns(board, n - 1)
    }
}

/// Whether a position can come up in play.
pub open spec fn reachable(v: C4StateView) -> bool {
    &&& v.board.len() == 42
    &&& v.next_player < 2
    &&& forall|i: int| 0 <= i < 42 ==> (#[trigger] v.board[i] matches C4Cell::Filled(player) ==> player < 2)
    &&& gravity(v.board)
    &&& v.terminal == (standing(v.board) != CheckForWinResult::Ongoing)
    &&& v.reward == reward_of(standing(v.board))
}

/// The board after a piece of `player` is dropped into `column`.
pub open spec fn dropped(board: Seq<C4Cell>, column: int, player: u8) -> Seq<C4Cell> {
    if landing(board, column, 5) >= 0 {
        board.update(landing(board, column, 5) * 7 + column, C4Cell::Filled(player))
    } else {
        board
    }
}

/// The position with `board` and `next_player` to move.
pub open spec fn position_of(board: Seq<C4Cell>, next_player: u8) -> C4StateView {
    C4StateView {
        board,
        next_player,
        terminal: standing(board) != CheckForWinResult::Ongoing,
        reward: reward_of(standing(board)),
    }
}

/// What `landing` finds: an empty cell with none below it, or no empty cell.
pub proof fn lemma_landing(board: Seq<C4Cell>, column: int, row: int)
    requires
        -1 <= row,
    ensures
        -1 <= landing(board, column, row) <= row,
        landing(board, column, row) >= 0 ==> cell(board, landing(board, column, row), column)
            == C4Cell::Empty,
        forall|r: int| landing(board, column, row) < r <= row ==> cell(board, r, column) != C4Cell::Empty,
    decreases row + 1,
{
    if row >= 0 && cell(board, row, column) != C4Cell::Empty {
        lemma_landing(board, column, row - 1);
    }
}

/// Above an empty cell the column is empty up to the top.
pub proof fn lemma_top_empty(board: Seq<C4Cell>, row: int, column: int)
    requires
        gravity(board),
        0 <= row < 6,
        0 <= column < 7,
        cell(board, row, column) == C4Cell::Empty,
    ensures
        cell(board, 0, column) == C4Cell::Empty,
    decreases row,
{
    if row > 0 {
        if cell(board, row - 1, column) != C4Cell::Empty {
            assert(cell(board, row - 1 + 1, column) != C4Cell::Empty);
        }
        lemma_top_empty(board, row - 1, column);
    }
}

/// How the count of empty cells changes when a cell is filled.
pub proof fn lemma_count_empty_filled(board: Seq<C4Cell>, n: int, at: int, player: u8)
    requires
        0 <= at < board.len(),
        0 <= n <= board.len(),
    ensures
        count_empty(board.update(at, C4Cell::Filled(player)), n) + (if at < n && board[at]
            == C4Cell::Empty {
            1nat
        } else {
            0nat
        }) == count_empty(board, n),
    decreases n,
{
    if n > 0 {
        lemma_count_empty_filled(board, n - 1, at, player);
    }
}

/// The open columns are the columns with an empty top cell, each once.
pub proof fn lemma_open_columns(board: Seq<C4Cell>, n: int)
    requires
        0 <= n <= 7,
    ensures
        forall|k: int|
            0 <= k < open_columns(board, n).len() ==> (#[trigger] open_columns(board, n)[k] matches C4Action::Drop(
                column,
            ) && column < n && board[column as int] == C4Cell::Empty),
        forall|k: int, l: int|
            0 <= k < l < open_columns(board, n).len() ==> (#[trigger] open_columns(board, n)[k])->0 < (
            #[trigger] open_columns(board, n)[l])->0,
        forall|column: int|
            0 <= column < n && #[trigger] board[column] == C4Cell::Empty ==> open_columns(board, n).contains(
                C4Action::Drop(column as u8),
            ),
    decreases n,
{
    if n > 0 {
        lemma_open_columns(board, n - 1);
        let rest = open_columns(board, n - 1);
        let all = open_columns(board, n);
        if board[n - 1] == C4Cell::Empty {
            assert(all[rest.len() as int] == C4Action::Drop((n - 1) as u8));
            assert forall|column: int| 0 <= column < n && #[trigger] board[column]
                == C4Cell::Empty implies all.contains(C4Action::Drop(column as u8)) by {
                if column < n - 1 {
                    let k = choose|k: int| 0 <= k < rest.len() && rest[k] == C4Action::Drop(column as u8);
                    assert(all[k] == rest[k]);
                }
            }
        }
    }
}

/// The cells of every line lie on the board.
pub proof fn lemma_line_on_board(line: int, k: int)
    requires
        0 <= line < 69,
        0 <= k < 4,
    ensures
        0 <= line_start(line).0 + k * line_step(line).0 < 6,
        0 <= line_start(line).1 + k * line_step(line).1 < 7,
{
}

/// On an empty board no line is filled.
pub proof fn lemma_empty_board(board: Seq<C4Cell>, from: int)
    requires
        board.len() == 42,
        forall|i: int| 0 <= i < 42 ==> board[i] == C4Cell::Empty,
        0 <= from <= 69,
    ensures
        first_line(board, from) == 69,
    decreases 69 - from,
{
    if from < 69 {
        lemma_line_on_board(from, 0);
        lemma_empty_board(board, from + 1);
    }
}

/// Dropping a piece into a column with room, in a position that can come up
/// in a running game, gives a position that can come up, with one empty cell
/// less.
pub proof fn lemma_drop(v: C4StateView, column: int)
    requires
        reachable(v),
        0 <= column < 7,
        v.board[column] == C4Cell::Empty,
    ensures
        0 <= landing(v.board, column, 5) < 6,
        reachable(position_of(dropped(v.board, column, v.next_player), ((v.next_player + 1) % 2) as u8)),
        count_empty(dropped(v.board, column, v.next_player), 42) < count_empty(v.board, 42),
{
    let board = v.board;
    let row = landing(board, column, 5);
    lemma_landing(board, column, 5);
    assert(cell(board, 0, column) == C4Cell::Empty);
    let after = dropped(board, column, v.next_player);
    lemma_count_empty_filled(board, 42, row * 7 + column, v.next_player);
    assert forall|r: int, c: int| 0 <= r < 5 && 0 <= c < 7 && #[trigger] cell(after, r, c)
        != C4Cell::Empty implies cell(after, r + 1, c) != C4Cell::Empty by {
        if r == row && c == column {
            assert(cell(board, r + 1, c) != C4Cell::Empty);
        } else if r + 1 == row && c == column {
        } else {
            assert(cell(board, r, c) != C4Cell::Empty);
            assert(cell(after, r + 1, c) == cell(board, r + 1, c));
        }
    }
}

/// The winner of a board whose pieces belong to the two players is one of
/// the two.
pub proof fn lemma_winner_is_player(board: Seq<C4Cell>)
    requires
        board.len() == 42,
        forall|i: int| 0 <= i < 42 ==> (#[trigger] board[i] matches C4Cell::Filled(player) ==> player < 2),
    ensures
        standing(board) matches CheckForWinResult::Winner(player) ==> player < 2,
{
    lemma_first_line(board, 0);
    if !full(board) && first_line(board, 0) < 69 {
        let line = first_line(board, 0);
        lemma_line_on_board(line, 0);
        let at = line_start(line).0 * 7 + line_start(line).1;
        assert(board[at] == line_cell(board, line, 0));
    }
}

/// While the game goes on, some column has room.
pub proof fn lemma_running_has_room(v: C4StateView)
    requires
        reachable(v),
        !v.terminal,
    ensures
        open_columns(v.board, 7).len() > 0,
{
    lemma_open_columns(v.board, 7);
    let i = choose|i: int| 0 <= i < v.board.len() && v.board[i] == C4Cell::Empty;
    assert(cell(v.board, i / 7, i % 7) == v.board[i]);
    lemma_top_empty(v.board, i / 7, i % 7);
    assert(v.board[i % 7] == C4Cell::Empty);
    assert(open_columns(v.board, 7).contains(C4Action::Drop((i % 7) as u8)));
}

impl Action for C4Action {
    type StateType = C4State;

    open spec fn applicable(&self, state: C4StateView) -> bool {
        &&& reachable(state)
        &&& self->0 < 7
        &&& state.board[self->0 as int] == C4Cell::Empty
    }

    open spec fn successor(&self, state: C4StateView) -> C4StateView {
        position_of(dropped(state.board, self->0 as int, state.next_player), ((state.next_player + 1) % 2) as u8)
    }

    proof fn lemma_eq() {
        reveal(obeys_concrete_eq);
    }

    fn execute(&self, state: &C4State) -> (next: C4State) {
        match self {
            C4Action::Drop(x) => {
                proof {
                    lemma_drop(state@, *x as int);
                }
                let new_board = place(&state.board, *x as usize, state.next_player);
                proof {
                    lemma_winner_is_player(new_board@);
                }
                let winner = check_for_win(&new_board);
                let (terminal, reward) = outcome(winner);
                C4State { board: new_board, next_player: (state.next_player + 1) % 2, terminal, reward }
            },
        }
    }
}

/// The board after a piece of `player` is dropped into `column`: the piece
/// comes to rest in the lowest empty cell.
fn place(board: &Vec<C4Cell>, column: usize, player: u8) -> (after: Vec<C4Cell>)
    requires
        board.len() == 42,
        column < 7,
        landing(board@, column as int, 5) >= 0,
    ensures
        after@ == dropped(board@, column as int, player),
{
    let mut new_board: Vec<C4Cell> = Vec::new();
    let mut i: usize = 0;
    while i < 42
        invariant
            i <= 42,
            board@.len() == 42,
            new_board@ == board@.take(i as int),
        decreases 42 - i,
    {
        new_board.push(board[i]);
        proof {
            assert(new_board@ =~= board@.take(i + 1));
        }
        i += 1;
    }
    assert(new_board@ =~= board@);
    let mut y: usize = 6;
    while y > 0
        invariant_except_break
            landing(board@, column as int, 5) == landing(board@, column as int, y - 1),
        invariant
            y <= 6,
            column < 7,
            board@.len() == 42,
            new_board@ == board@,
            0 <= landing(board@, column as int, 5),
        ensures
            y < 6,
            y == landing(board@, column as int, 5),
        decreases y,
    {
        y -= 1;
        match new_board[y * 7 + column] {
            C4Cell::Empty => {
                assert(cell(board@, y as int, column as int) == C4Cell::Empty);
                break ;
            },
            C4Cell::Filled(_) => {
                assert(cell(board@, y as int, column as int) != C4Cell::Empty);
            },
        }
    }
    new_board[y * 7 + column] = C4Cell::Filled(player);
    new_board
}

/// Whether the game is over, and the rewards of the two players.
fn outcome(result: CheckForWinResult) -> (over: (bool, Vec<Reward>))
    ensures
        over.0 == (result != CheckForWinResult::Ongoing),
        over.1@ == reward_of(result),
{
    let win: Reward = FIXED_ONE;
    let loss: Reward = -FIXED_ONE;
    let draw: Reward = -FIXED_ONE / 2;
    let over = match result {
        CheckForWinResult::Winner(player) => {
            if player == 0 {
                (true, vec![win, loss])
            } else {
                (true, vec![loss, win])
            }
        },
        CheckForWinResult::Stalemate => (true, vec![draw, draw]),
        CheckForWinResult::Ongoing => (false, vec![0, 0]),
    };
    assert(over.1@ =~= reward_of(result));
    over
}

impl State for C4State {
    type ActionType = C4Action;

    open spec fn inv(v: C4StateView) -> bool {
        reachable(v)
    }

    open spec fn permitted(v: C4StateView) -> Seq<C4Action> {
        if v.terminal {
            Seq::empty()
        } else {
            open_columns(v.board, 7)
        }
    }

    open spec fn actor(v: C4StateView) -> ActorView<C4Action> {
        ActorView::Player(v.next_player)
    }

    open spec fn is_terminal(v: C4StateView) -> bool {
        v.terminal
    }

    open spec fn rewards(v: C4StateView) -> Seq<Reward> {
        v.reward
    }

    open spec fn players(v: C4StateView) -> nat {
        2
    }

    proof fn lemma_moves(v: C4StateView) {
        lemma_two_rewards(standing(v.board));
        lemma_open_columns(v.board, 7);
        if !v.terminal {
            lemma_running_has_room(v);
        }
        assert forall|k: int| 0 <= k < Self::permitted(v).len() implies {
            let a = #[trigger] Self::permitted(v)[k];
            &&& a.applicable(v)
            &&& Self::inv(a.successor(v))
            &&& Self::players(a.successor(v)) == Self::players(v)
        } by {
            let a = Self::permitted(v)[k];
            lemma_drop(v, a->0 as int);
        }
        assert forall|k: int, l: int|
            0 <= k < Self::permitted(v).len() && 0 <= l < Self::permitted(v).len() && k != l implies Self::permitted(
            v,
        )[k] != Self::permitted(v)[l] by {
            if k < l {
                assert(Self::permitted(v)[k]->0 < Self::permitted(v)[l]->0);
            } else {
                assert(Self::permitted(v)[l]->0 < Self::permitted(v)[k]->0);
            }
        }
    }

    fn permitted_actions(&self) -> (actions: Vec<C4Action>) {
        let mut actions: Vec<C4Action> = Vec::new();
        if self.terminal {
            return actions;
        }
        let mut i: usize = 0;
        while i < 7
            invariant
                i <= 7,
                !self.terminal,
                self.board@.len() == 42,
                actions@ == open_columns(self.board@, i as int),
            decreases 7 - i,
        {
            match self.board[i] {
                C4Cell::Empty => {
                    actions.push(C4Action::Drop(i as u8));
                },
                C4Cell::Filled(_) => {},
            }
            i += 1;
        }
        actions
    }

    fn next_actor(&self) -> (actor: Actor<C4Action>) {
        Actor::Player(self.next_player)
    }

    fn terminal(&self) -> (over: bool) {
        self.terminal
    }

    fn reward(&self) -> (reward: Vec<Reward>) {
        let mut reward: Vec<Reward> = Vec::new();
        let mut i: usize = 0;
        while i < self.reward.len()
            invariant
                i <= self.reward.len(),
                reward@ == self.reward@.take(i as int),
            decreases self.reward.len() - i,
        {
            reward.push(self.reward[i]);
            proof {
                assert(reward@ =~= self.reward@.take(i + 1));
            }
            i += 1;
        }
        assert(reward@ =~= self.reward@);
        reward
    }
}

/// The position in which the game starts: the empty board, with the first
/// player to move.
pub open spec fn start() -> C4StateView {
    C4StateView {
        board: Seq::new(42, |i: int| C4Cell::Empty),
        next_player: 0,
        terminal: false,
        reward: seq![0i64, 0i64],
    }
}

/// The empty board, with the first player to move.
pub fn init_game() -> (state: C4State)
    ensures
        state@ == start(),
        reachable(state@),
{
    let mut board: Vec<C4Cell> = Vec::new();
    let mut i: usize = 0;
    while i < BOARD_HEIGHT * BOARD_WIDTH
        invariant
            i <= 42,
            board@.len() == i,
            forall|j: int| 0 <= j < i ==> board@[j] == C4Cell::Empty,
        decreases 42 - i,
    {
        board.push(C4Cell::Empty);
        i += 1;
    }
    let state = C4State { board, next_player: 0, terminal: false, reward: vec![0, 0] };
    proof {
        assert(state@.board =~= start().board);
        assert(state@.reward =~= start().reward);
        lemma_empty_board(state@.board, 0);
        assert(!full(state@.board)) by {
            assert(state@.board[0] == C4Cell::Empty);
        }
        assert(state@.reward =~= reward_of(CheckForWinResult::Ongoing));
        assert forall|row: int, column: int|
            0 <= row < 5 && 0 <= column < 7 && #[trigger] cell(state@.board, row, column)
                != C4Cell::Empty implies cell(state@.board, row + 1, column) != C4Cell::Empty by {
            assert(state@.board[row * 7 + column] == C4Cell::Empty);
        }
    }
    state
}

/// Connect four, on a board of six rows and seven columns.
pub struct C4;

impl Game for C4 {
    type StateType = C4State;

    type ActionType = C4Action;

    open spec fn playable(&self) -> bool {
        true
    }

    fn init_game(&self) -> (state: C4State)
        ensures
            state@ == start(),
    {
        init_game()
    }
}

impl C4State {
    /// The player whose turn it is.
    pub fn next_player(&self) -> (player: u8)
        ensures
            player == self@.next_player,
    {
        self.next_player
    }

    /// The cell in a row, counted from the top, and a column.
    pub fn cell_at(&self, row: usize, column: usize) -> (cell: C4Cell)
        requires
            reachable(self@),
            row < 6,
            column < 7,
        ensures
            cell == self::cell(self@.board, row as int, column as int),
    {
        self.board[row * BOARD_WIDTH + column]
    }
}

} // verus!
