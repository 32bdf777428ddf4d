//! Playing at a console: the cursor and its keys, the position that a list of
//! moves leads to, and the grid as it is shown.
use crate::game::{fresh_board, no_stones, Board, BoardView, Move, Outcome, Player};
use crate::grid::{BOARD_SIZE, CELL_COUNT};
use crate::notation::{column_letter, letter_of_column, move_in};
use crate::text::{append_chars, append_text, decimal, render_number};
use vstd::prelude::*;

verus! {

/// The position after the first `n` moves from an empty board, if each was
/// legal.
pub open spec fn position_after(moves: Seq<Move>, n: nat) -> Option<BoardView>
    decreases n,
{
    if n == 0 {
        Some(fresh_board(no_stones(), Player::Black))
    } else {
        match position_after(moves, (n - 1) as nat) {
            Some(board) => if board.legal(moves[n - 1]) {
                Some(board.played(moves[n - 1]))
            } else {
                None
            },
            None => None,
        }
    }
}

/// The board after the moves, or the place of the first that is not legal.
pub fn board_from_move_values(moves: &[Move]) -> (result: Result<Board, usize>)
    ensures
        match result {
            Ok(board) => position_after(moves@, moves@.len()) == Some(board@) && board@.wf(),
            Err(place) => {
                &&& place < moves@.len()
                &&& position_after(moves@, place as nat) is Some
                &&& !position_after(moves@, place as nat)->0.legal(moves@[place as int])
            },
        },
{
    let mut board: Board = Board::new();
    let mut i: usize = 0;
    while i < moves.len()
        invariant
            i <= moves@.len(),
            board@.wf(),
            position_after(moves@, i as nat) == Some(board@),
        decreases moves@.len() - i,
    {
        if !board.play(moves[i]) {
            return Err(i);
        }
        i = i + 1;
    }
    Ok(board)
}

/// Why a list of written moves makes no position.
#[derive(Clone, Copy, Debug, PartialEq, Eq, Structural)]
pub enum MoveError {
    /// The text in this place is no move.
    Invalid(usize),
    /// The move in this place is not legal.
    Illegal(usize),
}

/// The written moves up to `n` are moves, and lead to a position.
pub open spec fn written_position(texts: Seq<&str>, n: nat) -> Option<BoardView>
    decreases n,
{
    if n == 0 {
        Some(fresh_board(no_stones(), Player::Black))
    } else {
        match (written_position(texts, (n - 1) as nat), move_in(texts[n - 1]@)) {
            (Some(board), Some(mv)) => if board.legal(mv) {
                Some(board.played(mv))
            } else {
                None
            },
            _ => None,
        }
    }
}

/// The board after moves in writing.
pub fn board_from_moves(texts: &[&str]) -> (result: Result<Board, MoveError>)
    ensures
        match result {
            Ok(board) => written_position(texts@, texts@.len()) == Some(board@) && board@.wf(),
            Err(MoveError::Invalid(place)) => {
                &&& place < texts@.len()
                &&& written_position(texts@, place as nat) is Some
                &&& move_in(texts@[place as int]@) is None
            },
            Err(MoveError::Illegal(place)) => {
                &&& place < texts@.len()
                &&& written_position(texts@, place as nat) is Some
                &&& move_in(texts@[place as int]@) is Some
                &&& !written_position(texts@, place as nat)->0.legal(
                    move_in(texts@[place as int]@)->0,
                )
            },
        },
{
    let mut board: Board = Board::new();
    let mut i: usize = 0;
    while i < texts.len()
        invariant
            i <= texts@.len(),
            board@.wf(),
            written_position(texts@, i as nat) == Some(board@),
        decreases texts@.len() - i,
    {
        match Move::parse(texts[i]) {
            None => {
                return Err(MoveError::Invalid(i));
            },
            Some(mv) => {
                if !board.play(mv) {
                    return Err(MoveError::Illegal(i));
                }
            },
        }
        i = i + 1;
    }
    Ok(board)
}

/// A key that was pressed.
#[derive(Clone, Copy, Debug, PartialEq, Eq, Structural)]
pub enum Key {
    Up,
    Down,
    Left,
    Right,
    Enter,
    Pass,
    Back,
    Clear,
    Quit,
    Other,
}

/// What a key asks for.
#[derive(Clone, Copy, Debug, PartialEq, Eq, Structural)]
pub enum BoardAction {
    Place(Move),
    Undo,
    Reset,
    Quit,
}

/// A row and column of the board.
#[derive(Clone, Copy, Debug, PartialEq, Eq, Structural)]
pub struct Cursor {
    pub row: usize,
    pub col: usize,
}

impl Cursor {
    pub open spec fn wf(self) -> bool {
        self.row < BOARD_SIZE && self.col < BOARD_SIZE
    }

    /// The middle of the board.
    pub fn middle() -> (result: Cursor)
        ensures
            result.wf(),
            result == (Cursor { row: 9, col: 9 }),
    {
        Cursor { row: 9, col: 9 }
    }

    /// Where a key takes the cursor: a step, but not off the board.
    pub open spec fn moved(self, key: Key) -> Cursor {
        match key {
            Key::Up => if self.row + 1 < BOARD_SIZE {
                Cursor { row: (self.row + 1) as usize, ..self }
            } else {
                self
            },
            Key::Down => if self.row > 0 {
                Cursor { row: (self.row - 1) as usize, ..self }
            } else {
                self
            },
            Key::Left => if self.col > 0 {
                Cursor { col: (self.col - 1) as usize, ..self }
            } else {
                self
            },
            Key::Right => if self.col + 1 < BOARD_SIZE {
                Cursor { col: (self.col + 1) as usize, ..self }
            } else {
                self
            },
            _ => self,
        }
    }

    /// The point under the cursor.
    pub open spec fn point(self) -> Move {
        Move((self.row * 19 + self.col) as usize)
    }
}

/// What a key asks for at a position, if anything.
pub open spec fn action_of(
    board: BoardView,
    cursor: Cursor,
    key: Key,
    editable: bool,
) -> Option<BoardAction> {
    match key {
        Key::Enter => if board.legal(cursor.point()) {
            Some(BoardAction::Place(cursor.point()))
        } else {
            None
        },
        Key::Pass => if board.legal(Move::pass_move()) {
            Some(BoardAction::Place(Move::pass_move()))
        } else {
            None
        },
        Key::Back => if editable {
            Some(BoardAction::Undo)
        } else {
            None
        },
        Key::Clear => if editable {
            Some(BoardAction::Reset)
        } else {
            None
        },
        Key::Quit => Some(BoardAction::Quit),
        _ => None,
    }
}

/// Presses a key: moves the cursor, or asks for something.
pub fn press(board: &Board, cursor: &mut Cursor, key: Key, editable: bool) -> (result: Option<
    BoardAction,
>)
    requires
        board@.wf(),
        old(cursor).wf(),
    ensures
        final(cursor).wf(),
        *final(cursor) == old(cursor).moved(key),
        result == action_of(board@, *old(cursor), key, editable),
{
    match key {
        Key::Up => {
            if cursor.row + 1 < BOARD_SIZE {
                cursor.row = cursor.row + 1;
            }
            None
        },
        Key::Down => {
            if cursor.row > 0 {
                cursor.row = cursor.row - 1;
            }
            None
        },
        Key::Left => {
            if cursor.col > 0 {
                cursor.col = cursor.col - 1;
            }
            None
        },
        Key::Right => {
            if cursor.col + 1 < BOARD_SIZE {
                cursor.col = cursor.col + 1;
            }
            None
        },
        Key::Enter => {
            let mv: Move = Move(cursor.row * BOARD_SIZE + cursor.col);
            if board.is_legal(mv) {
                Some(BoardAction::Place(mv))
            } else {
                None
            }
        },
        Key::Pass => if board.is_legal(Move::pass()) {
            Some(BoardAction::Place(Move::pass()))
        } else {
            None
        },
        Key::Back => if editable {
            Some(BoardAction::Undo)
        } else {
            None
        },
        Key::Clear => if editable {
            Some(BoardAction::Reset)
        } else {
            None
        },
        Key::Quit => Some(BoardAction::Quit),
        Key::Other => None,
    }
}

/// A position under study: the moves that led to it.
pub struct Study {
    pub history: Vec<Move>,
    pub board: Board,
}

impl Study {
    /// The board is what the moves lead to.
    pub open spec fn wf(self) -> bool {
        &&& self.board@.wf()
        &&& position_after(self.history@, self.history@.len()) == Some(self.board@)
    }

    /// A study of the position after the moves, or the place of the first
    /// that is not legal.
    pub fn new(history: Vec<Move>) -> (result: Result<Study, usize>)
        ensures
            match result {
                Ok(study) => study.wf() && study.history@ == history@,
                Err(place) => {
                    &&& place < history@.len()
                    &&& position_after(history@, place as nat) is Some
                    &&& !position_after(history@, place as nat)->0.legal(history@[place as int])
                    &&& position_after(history@, history@.len()) is None
                },
            },
    {
        match board_from_move_values(&history) {
            Ok(board) => Ok(Study { history, board }),
            Err(place) => {
                proof {
                    lemma_stays_illegal(history@, place as nat, history@.len());
                }
                Err(place)
            },
        }
    }

    /// Plays a move if it is legal.
    pub fn place(&mut self, mv: Move) -> (legal: bool)
        requires
            old(self).wf(),
        ensures
            final(self).wf(),
            legal == old(self).board@.legal(mv),
            final(self).history@ == (if legal {
                old(self).history@.push(mv)
            } else {
                old(self).history@
            }),
    {
        let ghost before = self.history@;
        let legal: bool = self.board.play(mv);
        if legal {
            self.history.push(mv);
            proof {
                lemma_same_moves(self.history@, before, before.len());
            }
        }
        legal
    }

    /// Takes the last move back, if there is one.
    pub fn undo(&mut self)
        requires
            old(self).wf(),
        ensures
            final(self).wf(),
            final(self).history@ == (if old(self).history@.len() == 0 {
                old(self).history@
            } else {
                old(self).history@.drop_last()
            }),
    {
        let ghost before = self.history@;
        if self.history.len() > 0 {
            self.history.pop();
            assert(self.history@ =~= before.drop_last());
            proof {
                lemma_same_moves(before, self.history@, self.history@.len());
            }
        }
        match board_from_move_values(&self.history) {
            Ok(board) => {
                self.board = board;
            },
            Err(place) => {
                proof {
                    lemma_stays_illegal(self.history@, place as nat, self.history@.len());
                }
            },
        }
    }

    /// Clears the board.
    pub fn reset(&mut self)
        ensures
            final(self).wf(),
            final(self).history@ == Seq::<Move>::empty(),
    {
        self.history = Vec::new();
        self.board = Board::new();
        assert(self.history@ =~= Seq::<Move>::empty());
    }
}

proof fn lemma_same_moves(a: Seq<Move>, b: Seq<Move>, n: nat)
    requires
        n <= a.len(),
        n <= b.len(),
        forall|i: int| 0 <= i < n ==> a[i] == b[i],
    ensures
        position_after(a, n) == position_after(b, n),
    decreases n,
{
    if n > 0 {
        lemma_same_moves(a, b, (n - 1) as nat);
    }
}

proof fn lemma_stays_illegal(moves: Seq<Move>, place: nat, n: nat)
    requires
        place < n,
        position_after(moves, place) is Some,
        !position_after(moves, place)->0.legal(moves[place as int]),
    ensures
        position_after(moves, n) is None,
    decreases n,
{
    if n > place + 1 {
        lemma_stays_illegal(moves, place, (n - 1) as nat);
    }
}

/// The position before a move does not depend on the move: taking it back
/// leads there again.
pub proof fn law_undo_restores_the_position(moves: Seq<Move>, mv: Move)
    ensures
        position_after(moves.push(mv), moves.len()) == position_after(moves, moves.len()),
        moves.push(mv).drop_last() == moves,
{
    lemma_same_moves(moves.push(mv), moves, moves.len());
    assert(moves.push(mv).drop_last() =~= moves);
}

/// How a finished game ended for a person.
pub open spec fn result_for(outcome: Outcome, human: Player) -> Seq<char> {
    match outcome {
        Outcome::Draw => "DRAW"@,
        Outcome::Aborted => "ABORTED (no score)"@,
        Outcome::Win(player) => if player == human {
            "HUMAN WIN"@
        } else {
            "MODEL WIN"@
        },
    }
}

pub fn result_text(outcome: Outcome, human: Player) -> (result: &'static str)
    ensures
        result@ == result_for(outcome, human),
{
    match outcome {
        Outcome::Draw => "DRAW",
        Outcome::Aborted => "ABORTED (no score)",
        Outcome::Win(player) => if player == human {
            "HUMAN WIN"
        } else {
            "MODEL WIN"
        },
    }
}

/// A stone as it is shown.
pub open spec fn shown(value: i8) -> char {
    if value == 1 {
        'X'
    } else if value == -1 {
        'O'
    } else {
        '.'
    }
}

fn shown_char(value: i8) -> (c: char)
    ensures
        c == shown(value),
{
    if value == 1 {
        'X'
    } else if value == -1 {
        'O'
    } else {
        '.'
    }
}

/// A point as it is shown: in brackets under the cursor.
pub open spec fn shown_point(cells: Seq<i8>, cursor: Cursor, row: int, col: int) -> Seq<char> {
    let stone = shown(cells[row * 19 + col]);
    if cursor.row == row && cursor.col == col {
        seq!['[', stone, ']']
    } else {
        seq![' ', stone, ' ']
    }
}

/// The first `n` points of a row.
pub open spec fn shown_points(cells: Seq<i8>, cursor: Cursor, row: int, n: nat) -> Seq<char>
    decreases n,
{
    if n == 0 {
        Seq::empty()
    } else {
        shown_points(cells, cursor, row, (n - 1) as nat) + shown_point(cells, cursor, row, n - 1)
    }
}

/// A row with its number before it.
pub open spec fn shown_row(cells: Seq<i8>, cursor: Cursor, row: int) -> Seq<char> {
    let number = decimal((row + 1) as nat);
    Seq::new((3 - number.len()) as nat, |i: int| ' ') + number + "       "@ + shown_points(
        cells,
        cursor,
        row,
        19,
    ) + "\r\n"@
}

/// The lowest `n` rows, the highest first.
pub open spec fn shown_rows(cells: Seq<i8>, cursor: Cursor, n: nat) -> Seq<char>
    decreases n,
{
    if n == 0 {
        Seq::empty()
    } else {
        shown_row(cells, cursor, n - 1) + shown_rows(cells, cursor, (n - 1) as nat)
    }
}

/// The letters over the first `n` columns.
pub open spec fn shown_letters(n: nat) -> Seq<char>
    decreases n,
{
    if n == 0 {
        Seq::empty()
    } else {
        shown_letters((n - 1) as nat) + seq![' ', column_letter(n - 1), ' ']
    }
}

/// The grid as it is shown.
pub open spec fn shown_grid(cells: Seq<i8>, cursor: Cursor) -> Seq<char> {
    "          "@ + shown_letters(19) + "\r\n"@ + shown_rows(cells, cursor, 19)
}

proof fn lemma_two_digits(n: nat)
    requires
        n < 100,
    ensures
        decimal(n).len() == (if n < 10 {
            1nat
        } else {
            2nat
        }),
{
    reveal_with_fuel(decimal, 3);
}

fn append_row(to: &mut Vec<char>, cells: &[i8], cursor: Cursor, row: usize)
    requires
        cells@.len() == CELL_COUNT,
        row < BOARD_SIZE,
    ensures
        final(to)@ == old(to)@ + shown_row(cells@, cursor, row as int),
{
    let ghost before = to@;
    let number: Vec<char> = render_number(row as u64 + 1);
    proof {
        lemma_two_digits((row + 1) as nat);
    }
    to.push(' ');
    if row + 1 < 10 {
        to.push(' ');
    }
    assert(to@ =~= before + Seq::new((3 - number@.len()) as nat, |i: int| ' '));
    append_chars(to, &number);
    append_text(to, "       ");
    let ghost start = to@;
    let mut col: usize = 0;
    assert(start + shown_points(cells@, cursor, row as int, 0) =~= start);
    while col < BOARD_SIZE
        invariant
            cells@.len() == CELL_COUNT,
            row < BOARD_SIZE,
            col <= BOARD_SIZE,
            to@ == start + shown_points(cells@, cursor, row as int, col as nat),
        decreases BOARD_SIZE - col,
    {
        let stone: char = shown_char(cells[row * BOARD_SIZE + col]);
        let under: bool = cursor.row == row && cursor.col == col;
        to.push(if under {
            '['
        } else {
            ' '
        });
        to.push(stone);
        to.push(if under {
            ']'
        } else {
            ' '
        });
        assert(to@ =~= start + shown_points(cells@, cursor, row as int, (col + 1) as nat));
        col = col + 1;
    }
    append_text(to, "\r\n");
    assert(to@ =~= before + shown_row(cells@, cursor, row as int));
}

/// The grid of a position as it is shown.
pub fn render_grid(board: &Board, cursor: Cursor) -> (result: Vec<char>)
    requires
        board@.wf(),
    ensures
        result@ == shown_grid(board@.cells, cursor),
{
    let cells: &[i8] = board.cells();
    let mut result: Vec<char> = Vec::new();
    append_text(&mut result, "          ");
    let ghost margin = result@;
    assert(margin =~= "          "@);
    let mut col: usize = 0;
    assert(margin + shown_letters(0) =~= margin);
    while col < BOARD_SIZE
        invariant
            col <= BOARD_SIZE,
            result@ == margin + shown_letters(col as nat),
        decreases BOARD_SIZE - col,
    {
        result.push(' ');
        result.push(letter_of_column(col));
        result.push(' ');
        assert(result@ =~= margin + shown_letters((col + 1) as nat));
        col = col + 1;
    }
    append_text(&mut result, "\r\n");
    let ghost head = result@;
    let ghost all = head + shown_rows(cells@, cursor, 19);
    let mut row: usize = BOARD_SIZE;
    assert(head + shown_rows(cells@, cursor, 19) =~= all);
    while row > 0
        invariant
            cells@.len() == CELL_COUNT,
            row <= BOARD_SIZE,
            result@ + shown_rows(cells@, cursor, row as nat) == all,
        decreases row,
    {
        let ghost before = result@;
        append_row(&mut result, cells, cursor, row - 1);
        assert(result@ + shown_rows(cells@, cursor, (row - 1) as nat) =~= before + shown_rows(
            cells@,
            cursor,
            row as nat,
        ));
        row = row - 1;
    }
    assert(result@ + shown_rows(cells@, cursor, 0) =~= result@);
    result
}

} // verus!
