//! Written moves and boards: a column letter, without `i`, and a row number.
use crate::game::{Board, Move};
use crate::grid::{BOARD_SIZE, CELL_COUNT};
use crate::text::{
    append_chars, append_text, chars_of, decimal, law_decimal_reads_back, lower, lowered, number_of,
    parse_number, part, reads, render_number, space_char, string_of, trim, trim_back, trim_front,
    trimmed, upper_char,
};
use vstd::prelude::*;

verus! {

/// The letter of a column: `a` to `t`, without `i`.
pub open spec fn column_letter(col: int) -> char {
    if col < 8 {
        ('a' as u32 + col) as char
    } else {
        ('b' as u32 + col) as char
    }
}

/// The column that a letter names.
pub open spec fn letter_column(c: char) -> Option<nat> {
    if 'a' <= c <= 'h' {
        Some((c as u32 - 'a' as u32) as nat)
    } else if 'j' <= c <= 't' {
        Some((c as u32 - 'b' as u32) as nat)
    } else {
        None
    }
}

/// The action that a text names, whatever its case and the white space around
/// it.
pub open spec fn move_in(text: Seq<char>) -> Option<Move> {
    let t = lowered(trimmed(text));
    if t == "pass"@ {
        Some(Move::pass_move())
    } else if t.len() == 0 {
        None
    } else {
        match (letter_column(t[0]), number_of(t.skip(1), usize::MAX as nat)) {
            (Some(col), Some(row)) => if 1 <= row <= 19 {
                Some(Move(((row - 1) * 19 + col) as usize))
            } else {
                None
            },
            _ => None,
        }
    }
}

/// The text that names an action.
pub open spec fn notation_of(mv: Move) -> Seq<char> {
    if mv == Move::pass_move() {
        "pass"@
    } else {
        seq![column_letter(mv.0 as int % 19)] + decimal((mv.0 as int / 19 + 1) as nat)
    }
}

fn column_of_letter(c: char) -> (result: Option<usize>)
    ensures
        match letter_column(c) {
            Some(col) => result == Some(col as usize) && col < 19,
            None => result is None,
        },
{
    if 'a' <= c && c <= 'h' {
        Some((c as u32 - 'a' as u32) as usize)
    } else if 'j' <= c && c <= 't' {
        Some((c as u32 - 'b' as u32) as usize)
    } else {
        None
    }
}

pub fn letter_of_column(col: usize) -> (c: char)
    requires
        col < BOARD_SIZE,
    ensures
        c == column_letter(col as int),
{
    if col < 8 {
        (97 + col as u8) as char
    } else {
        (98 + col as u8) as char
    }
}

/// The notation as characters.
pub fn notation_chars(mv: Move) -> (result: Vec<char>)
    ensures
        result@ == notation_of(mv),
{
    let mut result: Vec<char> = Vec::new();
    if mv == Move::pass() {
        append_text(&mut result, "pass");
        assert(result@ =~= "pass"@);
        return result;
    }
    result.push(letter_of_column(mv.col()));
    let row: Vec<char> = render_number(mv.row() as u64 + 1);
    append_chars(&mut result, &row);
    assert(result@ =~= notation_of(mv));
    result
}

/// The action that the characters name.
pub fn parse_chars(chars: &Vec<char>) -> (result: Option<Move>)
    ensures
        result == move_in(chars@),
        result is Some ==> (result->0).0 <= CELL_COUNT,
{
    let clean: Vec<char> = trim(chars);
    let t: Vec<char> = lower(&clean);
    if reads(&t, "pass") {
        return Some(Move::pass());
    }
    if t.len() == 0 {
        return None;
    }
    assert(t@.subrange(1, t@.len() as int) =~= t@.skip(1));
    match column_of_letter(t[0]) {
        None => None,
        Some(col) => match parse_number(&part(&t, 1, t.len()), usize::MAX as u64) {
            None => None,
            Some(row) => if 1 <= row && row <= 19 {
                Some(Move((row as usize - 1) * BOARD_SIZE + col))
            } else {
                None
            },
        },
    }
}

impl Move {
    /// The action that the text names.
    pub fn parse(s: &str) -> (result: Option<Move>)
        ensures
            result == move_in(s@),
    {
        let chars: Vec<char> = chars_of(s);
        parse_chars(&chars)
    }

    /// The text that names the action.
    pub fn notation(self) -> (result: String)
        ensures
            result@ == notation_of(self),
    {
        let chars: Vec<char> = notation_chars(self);
        string_of(&chars)
    }
}

/// Text of digits and small letters has no white space to trim and no
/// capitals.
proof fn lemma_plain(s: Seq<char>)
    requires
        s.len() > 0,
        forall|i: int| 0 <= i < s.len() ==> ('a' <= #[trigger] s[i] <= 'z' || '0' <= s[i] <= '9'),
    ensures
        lowered(trimmed(s)) == s,
{
    assert(!space_char(s[0]));
    assert(!space_char(s.last())) by {
        assert(s.last() == s[s.len() - 1]);
    }
    assert(trim_front(s) == s);
    assert(trim_back(s) == s);
    assert(lowered(s) =~= s) by {
        assert forall|i: int| 0 <= i < s.len() implies lowered(s)[i] == s[i] by {
            assert(('a' <= s[i] <= 'z' || '0' <= s[i] <= '9'));
        }
    }
}

/// Every action is read back from its own notation.
pub proof fn law_notation_reads_back(mv: Move)
    requires
        mv.0 <= CELL_COUNT,
    ensures
        move_in(notation_of(mv)) == Some(mv),
{
    let s = notation_of(mv);
    reveal_strlit("pass");
    if mv == Move::pass_move() {
        lemma_plain(s);
    } else {
        let row = (mv.0 as int / 19 + 1) as nat;
        let col = mv.0 as int % 19;
        law_decimal_reads_back(row);
        let d = decimal(row);
        assert forall|i: int| 0 <= i < s.len() implies ('a' <= #[trigger] s[i] <= 'z' || '0'
            <= s[i] <= '9') by {
            if i > 0 {
                assert(s[i] == d[i - 1]);
                assert(crate::text::digit_char(d[i - 1]));
            }
        }
        lemma_plain(s);
        assert(s.skip(1) =~= d);
        assert(s != "pass"@) by {
            assert(s[1] == d[0]);
            assert(crate::text::digit_char(d[0]));
            assert("pass"@[1] == 'a');
        }
        assert(letter_column(s[0]) == Some(col as nat));
        assert(number_of(d, usize::MAX as nat) == Some(row));
    }
}

/// The letter `i` names no column.
pub proof fn law_letter_i_is_skipped(text: Seq<char>)
    requires
        lowered(trimmed(text)).len() > 0,
        lowered(trimmed(text))[0] == 'i',
    ensures
        move_in(text) is None,
{
    reveal_strlit("pass");
    let t = lowered(trimmed(text));
    assert("pass"@[0] == 'p');
}

/// How a cell is drawn.
pub open spec fn cell_char(value: i8) -> char {
    if value == 1 {
        '●'
    } else if value == -1 {
        '○'
    } else {
        '·'
    }
}

/// The column letters, each followed by a blank.
pub open spec fn header_letters(n: nat) -> Seq<char>
    decreases n,
{
    if n == 0 {
        Seq::empty()
    } else {
        header_letters((n - 1) as nat).push(upper_char(column_letter(n - 1))).push(' ')
    }
}

/// The first `n` cells of a row, each followed by a blank.
pub open spec fn row_cells(cells: Seq<i8>, row: int, n: nat) -> Seq<char>
    decreases n,
{
    if n == 0 {
        Seq::empty()
    } else {
        row_cells(cells, row, (n - 1) as nat).push(cell_char(cells[row * 19 + n - 1])).push(' ')
    }
}

/// One line of the drawing: the row number, two wide, and the row's cells.
pub open spec fn row_line(cells: Seq<i8>, row: int) -> Seq<char> {
    let label = if row + 1 < 10 {
        seq![' '] + decimal((row + 1) as nat)
    } else {
        decimal((row + 1) as nat)
    };
    label.push(' ') + row_cells(cells, row, 19).push('\n')
}

/// The lines of the upper `n` rows, the last row on top.
pub open spec fn row_lines(cells: Seq<i8>, n: nat) -> Seq<char>
    decreases n,
{
    if n == 0 {
        Seq::empty()
    } else {
        row_lines(cells, (n - 1) as nat) + row_line(cells, 19 - n)
    }
}

/// The drawing of a position.
pub open spec fn drawing(cells: Seq<i8>) -> Seq<char> {
    seq![' ', ' ', ' '] + header_letters(19).push('\n') + row_lines(cells, 19)
}

fn draw_cell(value: i8) -> (c: char)
    ensures
        c == cell_char(value),
{
    if value == 1 {
        '●'
    } else if value == -1 {
        '○'
    } else {
        '·'
    }
}

fn draw_row(cells: &[i8], row: usize) -> (line: Vec<char>)
    requires
        cells@.len() == CELL_COUNT,
        row < BOARD_SIZE,
    ensures
        line@ == row_line(cells@, row as int),
{
    let mut line: Vec<char> = Vec::new();
    if row + 1 < 10 {
        line.push(' ');
    }
    let number: Vec<char> = render_number(row as u64 + 1);
    append_chars(&mut line, &number);
    line.push(' ');
    let ghost label = line@;
    let mut col: usize = 0;
    assert(label + row_cells(cells@, row as int, 0) =~= label);
    while col < BOARD_SIZE
        invariant
            cells@.len() == CELL_COUNT,
            row < BOARD_SIZE,
            col <= BOARD_SIZE,
            line@ == label + row_cells(cells@, row as int, col as nat),
        decreases BOARD_SIZE - col,
    {
        line.push(draw_cell(cells[row * BOARD_SIZE + col]));
        line.push(' ');
        assert(line@ =~= label + row_cells(cells@, row as int, (col + 1) as nat));
        col = col + 1;
    }
    line.push('\n');
    assert(line@ =~= row_line(cells@, row as int));
    line
}

impl Board {
    /// The drawing as characters.
    pub fn draw(&self) -> (result: Vec<char>)
        requires
            self@.wf(),
        ensures
            result@ == drawing(self@.cells),
    {
        let mut result: Vec<char> = Vec::new();
        result.push(' ');
        result.push(' ');
        result.push(' ');
        let ghost margin = result@;
        assert(margin =~= seq![' ', ' ', ' ']);
        let mut col: usize = 0;
        assert(margin + header_letters(0) =~= margin);
        while col < BOARD_SIZE
            invariant
                col <= BOARD_SIZE,
                result@ == margin + header_letters(col as nat),
            decreases BOARD_SIZE - col,
        {
            result.push(crate::text::to_upper_char(letter_of_column(col)));
            result.push(' ');
            assert(result@ =~= margin + header_letters((col + 1) as nat));
            col = col + 1;
        }
        result.push('\n');
        let ghost header = result@;
        assert(header =~= margin + header_letters(19).push('\n'));
        let mut n: usize = 0;
        assert(header + row_lines(self@.cells, 0) =~= header);
        while n < BOARD_SIZE
            invariant
                self@.wf(),
                n <= BOARD_SIZE,
                result@ == header + row_lines(self@.cells, n as nat),
            decreases BOARD_SIZE - n,
        {
            let line: Vec<char> = draw_row(self.cells(), BOARD_SIZE - 1 - n);
            append_chars(&mut result, &line);
            proof {
                assert(row_lines(self@.cells, (n + 1) as nat) == row_lines(self@.cells, n as nat)
                    + row_line(self@.cells, 18 - n));
                assert(result@ =~= header + row_lines(self@.cells, (n + 1) as nat));
            }
            n = n + 1;
        }
        result
    }

    /// The drawing of the position.
    pub fn to_text(&self) -> (result: String)
        requires
            self@.wf(),
        ensures
            result@ == drawing(self@.cells),
    {
        let chars: Vec<char> = self.draw();
        string_of(&chars)
    }
}

} // verus!
