//! How moves and positions are written and shown.
use crate::console::{
    action_of, position_after, result_for, shown, shown_grid, shown_letters, shown_point,
    shown_points, shown_row, shown_rows, written_position, BoardAction, Cursor, Key,
};
use crate::game::{BoardView, Move, Outcome, Player};
use crate::grid::CELL_COUNT;
use crate::notation::{
    cell_char, column_letter, drawing, header_letters, law_notation_reads_back, letter_column,
    notation_of, row_cells, row_line, row_lines,
};
use crate::text::{all_digits, decimal, law_decimal_reads_back, upper_char, value_of};
use vstd::prelude::*;

verus! {

/// The columns are lettered in the order of the alphabet from `a` to `t`, and
/// none is `i`; no other letters name columns.
pub proof fn law_columns_are_lettered_in_order(a: int, b: int, c: char)
    requires
        0 <= a < b < 19,
    ensures
        column_letter(a) < column_letter(b),
        'a' <= column_letter(a) && column_letter(b) <= 't',
        column_letter(a) != 'i' && column_letter(b) != 'i',
        letter_column(c) is Some <==> 'a' <= c <= 't' && c != 'i',
        letter_column(c) matches Some(col) ==> col < 19 && column_letter(col as int) == c,
        letter_column(column_letter(a)) == Some(a as nat),
{
}

/// A written point is the letter of its column and the number of its row,
/// which counts from one; the point above has the next number.
pub proof fn law_written_points_tell_row_and_column(p: usize)
    requires
        p < CELL_COUNT,
    ensures
        ({
            let text = notation_of(Move(p));
            let number = text.skip(1);
            &&& letter_column(text[0]) == Some((p as int % 19) as nat)
            &&& all_digits(number)
            &&& 1 <= value_of(number) <= 19
            &&& 19 * (value_of(number) - 1) <= p < 19 * value_of(number)
            &&& p + 19 < CELL_COUNT ==> value_of(notation_of(Move((p + 19) as usize)).skip(1))
                == value_of(number) + 1
        }),
        notation_of(Move::pass_move()) == "pass"@,
{
    let d = decimal((p as int / 19 + 1) as nat);
    law_decimal_reads_back((p as int / 19 + 1) as nat);
    assert(notation_of(Move(p)).skip(1) =~= d);
    if p + 19 < CELL_COUNT {
        let q = (p + 19) as usize;
        law_decimal_reads_back((q as int / 19 + 1) as nat);
        assert(notation_of(Move(q)).skip(1) =~= decimal((q as int / 19 + 1) as nat));
    }
}

/// The sign of a stone in a drawing and at the console.
pub proof fn law_stones_and_points_are_told_apart(a: i8, b: i8)
    requires
        -1 <= a <= 1,
        -1 <= b <= 1,
    ensures
        cell_char(a) == cell_char(b) <==> a == b,
        shown(a) == shown(b) <==> a == b,
        cell_char(Player::Black.mark()) == '●' && cell_char(Player::White.mark()) == '○',
        shown(Player::Black.mark()) == 'X' && shown(Player::White.mark()) == 'O',
{
}

proof fn lemma_row_cells(cells: Seq<i8>, row: int, n: nat, col: int)
    ensures
        row_cells(cells, row, n).len() == 2 * n,
        0 <= col < n ==> row_cells(cells, row, n)[2 * col] == cell_char(cells[row * 19 + col]),
    decreases n,
{
    if n > 0 {
        lemma_row_cells(cells, row, (n - 1) as nat, col);
    }
}

proof fn lemma_header(n: nat, col: int)
    ensures
        header_letters(n).len() == 2 * n,
        0 <= col < n ==> header_letters(n)[2 * col] == upper_char(column_letter(col)),
    decreases n,
{
    if n > 0 {
        lemma_header((n - 1) as nat, col);
    }
}

proof fn lemma_small_decimal(n: nat)
    requires
        n < 100,
    ensures
        decimal(n).len() == (if n < 10 {
            1nat
        } else {
            2nat
        }),
{
    reveal_with_fuel(decimal, 3);
}

proof fn lemma_row_line(cells: Seq<i8>, row: int, col: int)
    requires
        0 <= row < 19,
        0 <= col < 19,
    ensures
        row_line(cells, row).len() == 42,
        row_line(cells, row)[3 + 2 * col] == cell_char(cells[row * 19 + col]),
        row_line(cells, row).last() == '\n',
{
    lemma_small_decimal((row + 1) as nat);
    lemma_row_cells(cells, row, 19, col);
}

proof fn lemma_row_lines(cells: Seq<i8>, n: nat, row: int, col: int)
    requires
        n <= 19,
        0 <= row < 19,
        0 <= col < 19,
    ensures
        row_lines(cells, n).len() == 42 * n,
        19 - n <= row ==> row_lines(cells, n)[42 * (18 - row) + 3 + 2 * col] == cell_char(
            cells[row * 19 + col],
        ),
    decreases n,
{
    if n > 0 {
        lemma_row_lines(cells, (n - 1) as nat, row, col);
        lemma_row_line(cells, 19 - n, col);
        let before = row_lines(cells, (n - 1) as nat);
        let line = row_line(cells, 19 - n);
        if row == 19 - n {
            assert((before + line)[42 * (18 - row) + 3 + 2 * col] == line[3 + 2 * col]);
        }
    }
}

/// The drawing shows the last row on top and the columns from left to right,
/// each under its letter: every point has its place in it.
pub proof fn law_drawings_show_every_point(cells: Seq<i8>, row: int, col: int)
    requires
        0 <= row < 19,
        0 <= col < 19,
    ensures
        drawing(cells).len() == 20 * 42,
        drawing(cells)[42 * (19 - row) + 3 + 2 * col] == cell_char(cells[row * 19 + col]),
        drawing(cells)[3 + 2 * col] == upper_char(column_letter(col)),
{
    lemma_header(19, col);
    lemma_row_lines(cells, 19, row, col);
    let head = seq![' ', ' ', ' '] + header_letters(19).push('\n');
    assert(head.len() == 42);
    assert(head[3 + 2 * col] == header_letters(19)[2 * col]);
    let rows = row_lines(cells, 19);
    assert((head + rows)[42 * (19 - row) + 3 + 2 * col] == rows[42 * (18 - row) + 3 + 2 * col]);
}

proof fn lemma_shown_points(cells: Seq<i8>, cursor: Cursor, row: int, n: nat, col: int)
    ensures
        shown_points(cells, cursor, row, n).len() == 3 * n,
        0 <= col < n ==> shown_points(cells, cursor, row, n).subrange(3 * col, 3 * col + 3)
            == shown_point(cells, cursor, row, col),
    decreases n,
{
    if n > 0 {
        lemma_shown_points(cells, cursor, row, (n - 1) as nat, col);
        let before = shown_points(cells, cursor, row, (n - 1) as nat);
        let last = shown_point(cells, cursor, row, n - 1);
        assert(last.len() == 3);
        if 0 <= col < n - 1 {
            assert((before + last).subrange(3 * col, 3 * col + 3) =~= before.subrange(
                3 * col,
                3 * col + 3,
            ));
        } else if col == n - 1 {
            assert((before + last).subrange(3 * col, 3 * col + 3) =~= last);
        }
    }
}

proof fn lemma_shown_letters(n: nat, col: int)
    ensures
        shown_letters(n).len() == 3 * n,
        0 <= col < n ==> shown_letters(n)[3 * col + 1] == column_letter(col),
    decreases n,
{
    if n > 0 {
        lemma_shown_letters((n - 1) as nat, col);
    }
}

proof fn lemma_shown_row(cells: Seq<i8>, cursor: Cursor, row: int, col: int)
    requires
        0 <= row < 19,
        0 <= col < 19,
    ensures
        shown_row(cells, cursor, row).len() == 69,
        shown_row(cells, cursor, row).subrange(10 + 3 * col, 13 + 3 * col) == shown_point(
            cells,
            cursor,
            row,
            col,
        ),
{
    reveal_strlit("       ");
    reveal_strlit("\r\n");
    lemma_small_decimal((row + 1) as nat);
    lemma_shown_points(cells, cursor, row, 19, col);
    let number = decimal((row + 1) as nat);
    let head = Seq::new((3 - number.len()) as nat, |i: int| ' ') + number + "       "@;
    let points = shown_points(cells, cursor, row, 19);
    assert(head.len() == 10);
    assert((head + points + "\r\n"@).subrange(10 + 3 * col, 13 + 3 * col) =~= points.subrange(
        3 * col,
        3 * col + 3,
    ));
}

proof fn lemma_shown_rows(cells: Seq<i8>, cursor: Cursor, n: nat, row: int, col: int)
    requires
        n <= 19,
        0 <= row < 19,
        0 <= col < 19,
    ensures
        shown_rows(cells, cursor, n).len() == 69 * n,
        row < n ==> shown_rows(cells, cursor, n).subrange(
            69 * (n - 1 - row) + 10 + 3 * col,
            69 * (n - 1 - row) + 13 + 3 * col,
        ) == shown_point(cells, cursor, row, col),
    decreases n,
{
    if n > 0 {
        lemma_shown_rows(cells, cursor, (n - 1) as nat, row, col);
        lemma_shown_row(cells, cursor, n - 1, col);
        let line = shown_row(cells, cursor, n - 1);
        let rest = shown_rows(cells, cursor, (n - 1) as nat);
        if row == n - 1 {
            assert((line + rest).subrange(10 + 3 * col, 13 + 3 * col) =~= line.subrange(
                10 + 3 * col,
                13 + 3 * col,
            ));
        } else if row < n - 1 {
            let k = 69 * (n - 2 - row);
            assert((line + rest).subrange(69 + k + 10 + 3 * col, 69 + k + 13 + 3 * col)
                =~= rest.subrange(k + 10 + 3 * col, k + 13 + 3 * col));
        }
    }
}

/// The console shows every point in its place, the last row on top, under the
/// letter of its column, and in brackets if and only if the cursor is there.
pub proof fn law_the_console_shows_every_point(cells: Seq<i8>, cursor: Cursor, row: int, col: int)
    requires
        0 <= row < 19,
        0 <= col < 19,
    ensures
        ({
            let text = shown_grid(cells, cursor);
            let at = 69 * (19 - row) + 10 + 3 * col;
            &&& text.len() == 20 * 69
            &&& text[at + 1] == shown(cells[row * 19 + col])
            &&& text[at] == '[' <==> cursor.row == row && cursor.col == col
            &&& text[at + 2] == ']' <==> cursor.row == row && cursor.col == col
            &&& text[10 + 3 * col + 1] == column_letter(col)
        }),
{
    reveal_strlit("          ");
    reveal_strlit("\r\n");
    lemma_shown_letters(19, col);
    lemma_shown_rows(cells, cursor, 19, row, col);
    let head = "          "@ + shown_letters(19) + "\r\n"@;
    assert(head.len() == 69);
    assert(head[10 + 3 * col + 1] == shown_letters(19)[3 * col + 1]);
    let rows = shown_rows(cells, cursor, 19);
    let at = 69 * (18 - row) + 10 + 3 * col;
    let part = rows.subrange(at, at + 3);
    assert(part == shown_point(cells, cursor, row, col));
    assert(part[0] == rows[at] && part[1] == rows[at + 1] && part[2] == rows[at + 2]);
    let text = head + rows;
    assert(text[69 + at] == rows[at] && text[69 + at + 1] == rows[at + 1] && text[69 + at + 2]
        == rows[at + 2]);
}

/// A key moves the cursor by one point and its opposite moves it back, except
/// at the edge, where it stays; up leads to the next row, which is shown above.
pub proof fn law_keys_move_the_cursor_one_point(cursor: Cursor)
    requires
        cursor.wf(),
    ensures
        cursor.row < 18 ==> cursor.moved(Key::Up).point().0 == cursor.point().0 + 19
            && cursor.moved(Key::Up).moved(Key::Down) == cursor,
        cursor.row > 0 ==> cursor.moved(Key::Down).point().0 == cursor.point().0 - 19
            && cursor.moved(Key::Down).moved(Key::Up) == cursor,
        cursor.col < 18 ==> cursor.moved(Key::Right).point().0 == cursor.point().0 + 1
            && cursor.moved(Key::Right).moved(Key::Left) == cursor,
        cursor.col > 0 ==> cursor.moved(Key::Left).point().0 == cursor.point().0 - 1
            && cursor.moved(Key::Left).moved(Key::Right) == cursor,
        cursor.row == 18 ==> cursor.moved(Key::Up) == cursor,
        cursor.row == 0 ==> cursor.moved(Key::Down) == cursor,
        cursor.col == 18 ==> cursor.moved(Key::Right) == cursor,
        cursor.col == 0 ==> cursor.moved(Key::Left) == cursor,
        cursor.moved(Key::Enter) == cursor,
        cursor.moved(Key::Pass) == cursor,
{
}

/// Only legal actions can be asked for, and an empty point that may be played
/// can; moves are taken back and boards cleared only where that is allowed;
/// leaving always is.
pub proof fn law_keys_ask_only_for_what_is_allowed(
    board: BoardView,
    cursor: Cursor,
    key: Key,
    editable: bool,
)
    requires
        cursor.wf(),
    ensures
        ({
            let asked = action_of(board, cursor, key, editable);
            &&& asked matches Some(BoardAction::Place(mv)) ==> board.legal(mv) && (mv
                == cursor.point() || mv == Move::pass_move())
            &&& asked == Some(BoardAction::Undo) ==> editable && key == Key::Back
            &&& asked == Some(BoardAction::Reset) ==> editable && key == Key::Clear
            &&& asked == Some(BoardAction::Quit) <==> key == Key::Quit
            &&& asked is Some ==> cursor.moved(key) == cursor
        }),
        board.legal(cursor.point()) ==> action_of(board, cursor, Key::Enter, editable) == Some(
            BoardAction::Place(cursor.point()),
        ),
        !board.finished() ==> action_of(board, cursor, Key::Pass, editable) == Some(
            BoardAction::Place(Move::pass_move()),
        ),
        editable ==> action_of(board, cursor, Key::Back, true) == Some(BoardAction::Undo)
            && action_of(board, cursor, Key::Clear, true) == Some(BoardAction::Reset),
{
}

/// The text of a result tells the four results apart, and says the same
/// whichever color the person had.
pub proof fn law_results_are_told_for_the_person(human: Player)
    ensures
        result_for(Outcome::Win(human), human) == "HUMAN WIN"@,
        result_for(Outcome::Win(human.opponent()), human) == "MODEL WIN"@,
        result_for(Outcome::Win(human), human) != result_for(
            Outcome::Win(human.opponent()),
            human,
        ),
        result_for(Outcome::Draw, human) != result_for(Outcome::Aborted, human),
        result_for(Outcome::Draw, human).len() < result_for(Outcome::Win(human), human).len(),
        result_for(Outcome::Aborted, human) == "ABORTED (no score)"@,
{
    reveal_strlit("HUMAN WIN");
    reveal_strlit("MODEL WIN");
    reveal_strlit("DRAW");
    reveal_strlit("ABORTED (no score)");
    assert("HUMAN WIN"@[0] == 'H' && "MODEL WIN"@[0] == 'M' && "DRAW"@.len() == 4);
    assert("ABORTED (no score)"@.len() > 4 && "HUMAN WIN"@.len() == 9);
}

/// Moves in writing lead to the position that the moves lead to.
pub proof fn law_written_moves_lead_to_their_position(texts: Seq<&str>, moves: Seq<Move>, n: nat)
    requires
        n <= texts.len(),
        n <= moves.len(),
        forall|i: int|
            0 <= i < n ==> (#[trigger] moves[i]).0 <= CELL_COUNT && texts[i]@ == notation_of(
                moves[i],
            ),
    ensures
        written_position(texts, n) == position_after(moves, n),
        position_after(moves, n) matches Some(board) ==> board.moves == n && (board.to_move
            == Player::Black <==> n % 2 == 0),
    decreases n,
{
    if n > 0 {
        law_written_moves_lead_to_their_position(texts, moves, (n - 1) as nat);
        assert(moves[n - 1].0 <= CELL_COUNT);
        law_notation_reads_back(moves[n - 1]);
    }
}

/// Moves lead on as long as they are legal, from an empty board with Black to
/// move; a move that is not legal leads nowhere.
pub proof fn law_moves_lead_on(moves: Seq<Move>, n: nat, p: usize)
    requires
        n < moves.len(),
        p < CELL_COUNT,
    ensures
        position_after(moves, 0) matches Some(board) && board.cells[p as int] == 0 && board.to_move
            == Player::Black && board.moves == 0,
        position_after(moves, n) matches Some(board) ==> (if board.legal(moves[n as int]) {
            position_after(moves, n + 1) == Some(board.played(moves[n as int]))
        } else {
            position_after(moves, n + 1) is None
        }),
        position_after(moves, n) is None ==> position_after(moves, n + 1) is None,
{
}

} // verus!
