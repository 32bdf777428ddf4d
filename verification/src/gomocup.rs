//! The line protocol of a tournament manager: commands change the session or
//! ask for a move. What each line does is decided here; the search is asked of
//! the caller.
use crate::game::{
    all_breathe, distinct_points, fresh_board, laid_out, no_stones, Board, BoardView, Move, Player,
};
use crate::grid::{BOARD_SIZE, CELL_COUNT};
use crate::scoring::outcome_of;
use crate::text::{
    append_chars, chars_of, decimal, fields, lower, lowered, number_of, parse_number, part, reads,
    render_number, split_at_mark, split_at_space, split_fields, split_once, split_space, trim,
    trimmed, upper, uppered,
};
use vstd::prelude::*;

verus! {

/// The one column of the board that no coordinate of a move names. Entries of
/// a board and answers may stand in it.
pub const UNNAMED_COLUMN: usize = 15;

/// Why no time can be given to a move.
#[derive(Clone, Copy, Debug, PartialEq, Eq, Structural)]
pub enum BudgetError {
    NoTurnTime,
    NoTimeLeft,
}

/// Own turns that may still come, between one and twenty.
pub open spec fn turns_to_come(move_count: int) -> int {
    let half = (361 - move_count + 1) / 2;
    if half < 1 {
        1
    } else if half > 20 {
        20
    } else {
        half
    }
}

/// The milliseconds for a move: the turn's, and no more than an even share of
/// what is left of the match beyond a tenth of a second.
pub open spec fn turn_budget(turn_ms: u64, left_ms: Option<u64>, move_count: int) -> Result<
    int,
    BudgetError,
> {
    if turn_ms == 0 {
        Err(BudgetError::NoTurnTime)
    } else {
        match left_ms {
            None => Ok(turn_ms as int),
            Some(left) => if left == 0 {
                Err(BudgetError::NoTimeLeft)
            } else {
                let spare = if left > 101 {
                    left - 100
                } else {
                    1
                };
                let share = spare / turns_to_come(move_count);
                let fair = if share < 1 {
                    1
                } else {
                    share
                };
                Ok(
                    if turn_ms < fair {
                        turn_ms as int
                    } else {
                        fair
                    },
                )
            },
        }
    }
}

pub fn turn_budget_ms(timeout_turn_ms: u64, time_left_ms: Option<u64>, move_count: usize) -> (
    result: Result<u64, BudgetError>)
    requires
        move_count <= CELL_COUNT,
    ensures
        match turn_budget(timeout_turn_ms, time_left_ms, move_count as int) {
            Ok(ms) => result == Ok::<u64, BudgetError>(ms as u64) && 1 <= ms <= timeout_turn_ms,
            Err(e) => result == Err::<u64, BudgetError>(e),
        },
{
    if timeout_turn_ms == 0 {
        return Err(BudgetError::NoTurnTime);
    }
    match time_left_ms {
        None => Ok(timeout_turn_ms),
        Some(left) => {
            if left == 0 {
                return Err(BudgetError::NoTimeLeft);
            }
            let half: usize = (CELL_COUNT - move_count + 1) / 2;
            let turns: u64 = if half < 1 {
                1
            } else if half > 20 {
                20
            } else {
                half as u64
            };
            let spare: u64 = if left > 101 {
                left - 100
            } else {
                1
            };
            let share: u64 = spare / turns;
            let fair: u64 = if share < 1 {
                1
            } else {
                share
            };
            assert(turns == turns_to_come(move_count as int));
            if timeout_turn_ms < fair {
                Ok(timeout_turn_ms)
            } else {
                Ok(fair)
            }
        },
    }
}

/// The milliseconds to search: the budget less a twentieth for safety, of at
/// least five and at most a hundred, and never less than one.
pub open spec fn search_ms(budget: int) -> int {
    let twentieth = budget / 20;
    let safety = if twentieth < 5 {
        5
    } else if twentieth > 100 {
        100
    } else {
        twentieth
    };
    if budget - safety < 1 {
        1
    } else {
        budget - safety
    }
}

fn think_ms(budget: u64) -> (result: u64)
    ensures
        result == search_ms(budget as int),
{
    let twentieth: u64 = budget / 20;
    let safety: u64 = if twentieth < 5 {
        5
    } else if twentieth > 100 {
        100
    } else {
        twentieth
    };
    if budget < safety + 1 {
        1
    } else {
        budget - safety
    }
}

/// A whole number that fits a machine word, with white space around it.
pub open spec fn size_in(text: Seq<char>) -> Option<nat> {
    number_of(trimmed(text), usize::MAX as nat)
}

fn size(text: &Vec<char>) -> (result: Option<usize>)
    ensures
        match size_in(text@) {
            Some(n) => result == Some(n as usize) && n <= usize::MAX,
            None => result is None,
        },
{
    let clean: Vec<char> = trim(text);
    match parse_number(&clean, usize::MAX as u64) {
        Some(n) => Some(n as usize),
        None => None,
    }
}

/// The point of the board that a text names as column, comma, row.
pub open spec fn coordinate_in(text: Seq<char>) -> Option<Move> {
    match split_once(text, ',') {
        None => None,
        Some((x, y)) => match (size_in(x), size_in(y)) {
            (Some(col), Some(row)) => if row < BOARD_SIZE && col < BOARD_SIZE && col != UNNAMED_COLUMN {
                Some(Move((row * 19 + col) as usize))
            } else {
                None
            },
            _ => None,
        },
    }
}

fn coordinate(text: &Vec<char>) -> (result: Option<Move>)
    ensures
        result == coordinate_in(text@),
{
    match split_at_mark(text, ',') {
        None => None,
        Some((x, y)) => match (size(&x), size(&y)) {
            (Some(col), Some(row)) => if row < BOARD_SIZE && col < BOARD_SIZE && col != UNNAMED_COLUMN {
                Some(Move(row * BOARD_SIZE + col))
            } else {
                None
            },
            _ => None,
        },
    }
}

/// The point that the text names as column, comma, row.
pub fn parse_move(text: &str) -> (result: Option<Move>)
    ensures
        result == coordinate_in(text@),
{
    let chars: Vec<char> = chars_of(text);
    coordinate(&chars)
}

/// How many stones are the player's.
pub open spec fn count_of(stones: Seq<(Move, Player)>, player: Player) -> nat
    decreases stones.len(),
{
    if stones.len() == 0 {
        0
    } else {
        count_of(stones.drop_last(), player) + (if stones.last().1 == player {
            1nat
        } else {
            0nat
        })
    }
}

/// Who moves next if the players took turns and nothing was captured.
pub open spec fn next_player(stones: Seq<(Move, Player)>) -> Option<Player> {
    let black = count_of(stones, Player::Black);
    let white = count_of(stones, Player::White);
    if black == white {
        Some(Player::Black)
    } else if black == white + 1 {
        Some(Player::White)
    } else {
        None
    }
}

/// The board with the stones of a game in which the players took turns.
pub open spec fn board_of(stones: Seq<(Move, Player)>) -> Option<BoardView> {
    match next_player(stones) {
        Some(player) => if distinct_points(stones) && all_breathe(laid_out(stones)) {
            Some(fresh_board(laid_out(stones), player))
        } else {
            None
        },
        None => None,
    }
}

/// The board with the stones of a game in which the players took turns.
pub fn from_stones(stones: &[(Move, Player)]) -> (result: Option<Board>)
    ensures
        match board_of(stones@) {
            Some(board) => result is Some && result->0@ == board && board.wf(),
            None => result is None,
        },
{
    let mut black: usize = 0;
    let mut white: usize = 0;
    let mut i: usize = 0;
    assert(stones@.take(0) =~= Seq::<(Move, Player)>::empty());
    while i < stones.len()
        invariant
            i <= stones@.len(),
            black == count_of(stones@.take(i as int), Player::Black),
            white == count_of(stones@.take(i as int), Player::White),
            black + white == i,
        decreases stones@.len() - i,
    {
        proof {
            let more = stones@.take(i + 1);
            assert(more.drop_last() =~= stones@.take(i as int));
            assert(more.last() == stones@[i as int]);
        }
        let (mv, player) = stones[i];
        match player {
            Player::Black => {
                black = black + 1;
            },
            Player::White => {
                white = white + 1;
            },
        }
        i = i + 1;
    }
    assert(stones@.take(stones@.len() as int) =~= stones@);
    let to_move: Player = if black == white {
        Player::Black
    } else if black > white && black - white == 1 {
        Player::White
    } else {
        return None;
    };
    Board::from_position(stones, to_move)
}

/// What a session holds: the board and its stones in order, the limits, and
/// the entries of a board that is being read, with whether one was wrong.
#[verifier::ext_equal]
pub struct SessionView {
    pub board: BoardView,
    pub stones: Seq<(Move, Player)>,
    pub turn_ms: u64,
    pub left_ms: Option<u64>,
    pub rule: Option<u32>,
    pub entries: Option<(Seq<(Move, u8)>, bool)>,
}

pub struct Session {
    pub board: Board,
    pub stones: Vec<(Move, Player)>,
    pub turn_ms: u64,
    pub left_ms: Option<u64>,
    pub rule: Option<u32>,
    pub entries: Option<(Vec<(Move, u8)>, bool)>,
}

impl View for Session {
    type V = SessionView;

    open spec fn view(&self) -> SessionView {
        SessionView {
            board: self.board@,
            stones: self.stones@,
            turn_ms: self.turn_ms,
            left_ms: self.left_ms,
            rule: self.rule,
            entries: match self.entries {
                Some((list, wrong)) => Some((list@, wrong)),
                None => None,
            },
        }
    }
}

/// What a line comes to: nothing, a line in reply, a search of so many
/// milliseconds, the end, or an end because no time was given.
pub enum Reaction {
    Quiet,
    Say(Vec<char>),
    Think(u64),
    Stop,
    Fail(BudgetError),
}

#[verifier::ext_equal]
pub enum ReactionView {
    Quiet,
    Say(Seq<char>),
    Think(int),
    Stop,
    Fail(BudgetError),
}

impl View for Reaction {
    type V = ReactionView;

    open spec fn view(&self) -> ReactionView {
        match self {
            Reaction::Quiet => ReactionView::Quiet,
            Reaction::Say(text) => ReactionView::Say(text@),
            Reaction::Think(ms) => ReactionView::Think(*ms as int),
            Reaction::Stop => ReactionView::Stop,
            Reaction::Fail(e) => ReactionView::Fail(*e),
        }
    }
}

/// A move is asked for, if the rule is known, the game goes on and there is
/// time.
pub open spec fn thinking(s: SessionView) -> ReactionView {
    match s.rule {
        Some(rule) => ReactionView::Say("ERROR unsupported rule "@ + decimal(rule as nat)),
        None => if outcome_of(s.board) is Some {
            ReactionView::Say("ERROR game is already over"@)
        } else {
            let played = if s.board.moves > CELL_COUNT {
                361
            } else {
                s.board.moves as int
            };
            match turn_budget(s.turn_ms, s.left_ms, played) {
                Ok(ms) => ReactionView::Think(search_ms(ms)),
                Err(e) => ReactionView::Fail(e),
            }
        },
    }
}

/// The session on an empty board.
pub open spec fn emptied(s: SessionView) -> SessionView {
    SessionView {
        board: fresh_board(no_stones(), Player::Black),
        stones: Seq::empty(),
        ..s
    }
}

pub open spec fn say(s: SessionView, text: Seq<char>) -> (ReactionView, SessionView) {
    (ReactionView::Say(text), s)
}

/// A board entry: column, row, and whose stone it is, 1 for the own side.
pub open spec fn entry_in(text: Seq<char>) -> Option<(Move, u8)> {
    let f = fields(text, ',');
    if f.len() != 3 {
        None
    } else {
        match (size_in(f[0]), size_in(f[1]), number_of(trimmed(f[2]), 255)) {
            (Some(x), Some(y), Some(side)) => if x < BOARD_SIZE && y < BOARD_SIZE && (side == 1
                || side == 2) {
                Some((Move((y * 19 + x) as usize), side as u8))
            } else {
                None
            },
            _ => None,
        }
    }
}

/// How many entries are the own side's.
pub open spec fn own_entries(entries: Seq<(Move, u8)>) -> nat
    decreases entries.len(),
{
    if entries.len() == 0 {
        0
    } else {
        own_entries(entries.drop_last()) + (if entries.last().1 == 1 {
            1nat
        } else {
            0nat
        })
    }
}

/// The stones of the entries when the own side is the player.
pub open spec fn stones_of(entries: Seq<(Move, u8)>, own: Player) -> Seq<(Move, Player)> {
    entries.map_values(
        |entry: (Move, u8)|
            (
                entry.0,
                if entry.1 == 1 {
                    own
                } else {
                    own.opponent()
                },
            ),
    )
}

/// What the entries of a board come to when they are complete.
pub open spec fn board_read(s: SessionView, entries: Seq<(Move, u8)>, wrong: bool) -> (
    ReactionView,
    SessionView,
) {
    let after = SessionView { entries: None, ..s };
    let own = own_entries(entries) as int;
    let other = entries.len() - own;
    if wrong || (own != other && other != own + 1) {
        say(after, "ERROR invalid board"@)
    } else {
        let player = if own == other {
            Player::Black
        } else {
            Player::White
        };
        let stones = stones_of(entries, player);
        match board_of(stones) {
            None => say(after, "ERROR invalid board"@),
            Some(board) => {
                let ready = SessionView { board, stones, ..after };
                (thinking(ready), ready)
            },
        }
    }
}

/// A line while a board is being read.
pub open spec fn step_entry(s: SessionView, line: Seq<char>) -> (ReactionView, SessionView) {
    let (entries, wrong) = s.entries->0;
    let text = trimmed(line);
    if lowered(text) == "done"@ {
        board_read(s, entries, wrong)
    } else {
        match entry_in(text) {
            Some(entry) => (
                ReactionView::Quiet,
                SessionView { entries: Some((entries.push(entry), wrong)), ..s },
            ),
            None => (
                ReactionView::Quiet,
                SessionView { entries: Some((entries, true)), ..s },
            ),
        }
    }
}

/// The last place of a stone on the point.
pub open spec fn last_stone(stones: Seq<(Move, Player)>, mv: Move) -> Option<nat>
    decreases stones.len(),
{
    if stones.len() == 0 {
        None
    } else if stones.last().0 == mv {
        Some((stones.len() - 1) as nat)
    } else {
        last_stone(stones.drop_last(), mv)
    }
}

pub open spec fn step_takeback(s: SessionView, argument: Seq<char>) -> (
    ReactionView,
    SessionView,
) {
    match coordinate_in(argument) {
        None => say(s, "ERROR invalid coordinate"@),
        Some(mv) => match last_stone(s.stones, mv) {
            None => say(s, "ERROR unknown move"@),
            Some(place) => {
                let stones = s.stones.remove(place as int);
                match board_of(stones) {
                    Some(board) => say(SessionView { board, stones, ..s }, "OK"@),
                    None => say(SessionView { stones, ..s }, "ERROR invalid takeback"@),
                }
            },
        },
    }
}

/// A number that may have a minus sign, as far as it fits; below zero is zero.
pub open spec fn signed_in(text: Seq<char>) -> Option<nat> {
    if text.len() > 0 && text[0] == '-' {
        let digits = text.skip(1);
        if digits.len() > 0 && digits[0] != '+' && number_of(
            digits,
            0x8000_0000_0000_0000,
        ) is Some {
            Some(0)
        } else {
            None
        }
    } else {
        number_of(text, 0x7fff_ffff_ffff_ffff)
    }
}

pub open spec fn step_info(s: SessionView, argument: Seq<char>) -> SessionView {
    match split_space(argument) {
        None => s,
        Some((key, rest)) => {
            let value = trimmed(rest);
            let name = lowered(key);
            if name == "timeout_turn"@ {
                match number_of(value, u64::MAX as nat) {
                    Some(ms) => SessionView { turn_ms: ms as u64, ..s },
                    None => s,
                }
            } else if name == "time_left"@ {
                match signed_in(value) {
                    Some(ms) => SessionView { left_ms: Some(ms as u64), ..s },
                    None => s,
                }
            } else if name == "rule"@ {
                match number_of(value, u32::MAX as nat) {
                    Some(rule) => SessionView {
                        rule: if rule == 0 {
                            None
                        } else {
                            Some(rule as u32)
                        },
                        ..s
                    },
                    None => s,
                }
            } else {
                s
            }
        },
    }
}

pub open spec fn step_turn(s: SessionView, argument: Seq<char>) -> (ReactionView, SessionView) {
    match coordinate_in(argument) {
        None => say(s, "ERROR invalid coordinate"@),
        Some(mv) => if !s.board.legal(mv) {
            say(s, "ERROR illegal move"@)
        } else {
            let after = SessionView {
                board: s.board.played(mv),
                stones: s.stones.push((mv, s.board.to_move)),
                ..s
            };
            (thinking(after), after)
        },
    }
}

/// Both sides of a rectangular board are those of the grid.
pub open spec fn rect_supported(argument: Seq<char>) -> bool {
    match split_once(argument, ',') {
        None => false,
        Some((width, height)) => size_in(width) == Some(19nat) && size_in(height) == Some(19nat),
    }
}

/// The command name in capitals and the rest of a line.
pub open spec fn line_halves(text: Seq<char>) -> (Seq<char>, Seq<char>) {
    match split_space(text) {
        Some((name, rest)) => (uppered(name), trimmed(rest)),
        None => (uppered(text), Seq::empty()),
    }
}

/// What a line comes to and the session after it.
pub open spec fn step(s: SessionView, line: Seq<char>) -> (ReactionView, SessionView) {
    if s.entries is Some {
        step_entry(s, line)
    } else {
        let text = trimmed(line);
        let (name, argument) = line_halves(text);
        if text.len() == 0 {
            (ReactionView::Quiet, s)
        } else if name == "START"@ {
            if number_of(argument, usize::MAX as nat) == Some(19nat) {
                say(emptied(s), "OK"@)
            } else {
                say(s, "ERROR unsupported board size"@)
            }
        } else if name == "RECTSTART"@ {
            if rect_supported(argument) {
                say(emptied(s), "OK"@)
            } else {
                say(s, "ERROR unsupported board size"@)
            }
        } else if name == "RESTART"@ {
            say(emptied(s), "OK"@)
        } else if name == "BEGIN"@ {
            (thinking(emptied(s)), emptied(s))
        } else if name == "TURN"@ {
            step_turn(s, argument)
        } else if name == "BOARD"@ {
            (ReactionView::Quiet, SessionView { entries: Some((Seq::empty(), false)), ..s })
        } else if name == "TAKEBACK"@ {
            step_takeback(s, argument)
        } else if name == "INFO"@ {
            (ReactionView::Quiet, step_info(s, argument))
        } else if name == "ABOUT"@ {
            say(
                s,
                "name=\"GomokuAZ\", version=\"0.1.0\", author=\"mycve\", country=\"CN\""@,
            )
        } else if name == "END"@ {
            (ReactionView::Stop, s)
        } else {
            say(s, "UNKNOWN "@ + text)
        }
    }
}

/// What a finished search comes to: its move is played and told as column,
/// comma, row.
pub open spec fn found(s: SessionView, mv: Option<Move>) -> (ReactionView, SessionView) {
    match mv {
        None => say(s, "ERROR no legal move"@),
        Some(mv) => say(
            SessionView {
                board: if s.board.legal(mv) {
                    s.board.played(mv)
                } else {
                    s.board
                },
                stones: s.stones.push((mv, s.board.to_move)),
                ..s
            },
            decimal((mv.0 as int % 19) as nat) + seq![','] + decimal((mv.0 as int / 19) as nat),
        ),
    }
}

fn speak(text: &str) -> (result: Reaction)
    ensures
        result@ == ReactionView::Say(text@),
{
    Reaction::Say(chars_of(text))
}

fn entry(text: &Vec<char>) -> (result: Option<(Move, u8)>)
    ensures
        result == entry_in(text@),
{
    let list: Vec<Vec<char>> = split_fields(text, ',');
    let ghost f = fields(text@, ',');
    assert(f.len() == list@.len());
    if list.len() != 3 {
        return None;
    }
    assert(f[0] == list@[0]@ && f[1] == list@[1]@ && f[2] == list@[2]@);
    let third: Vec<char> = trim(&list[2]);
    match (size(&list[0]), size(&list[1]), parse_number(&third, 255)) {
        (Some(x), Some(y), Some(side)) => if x < BOARD_SIZE && y < BOARD_SIZE && (side == 1 || side
            == 2) {
            Some((Move(y * BOARD_SIZE + x), side as u8))
        } else {
            None
        },
        _ => None,
    }
}

fn signed(text: &Vec<char>) -> (result: Option<u64>)
    ensures
        match signed_in(text@) {
            Some(n) => result == Some(n as u64) && n <= u64::MAX,
            None => result is None,
        },
{
    if text.len() > 0 && text[0] == '-' {
        assert(text@.subrange(1, text@.len() as int) =~= text@.skip(1));
        let digits: Vec<char> = part(text, 1, text.len());
        if digits.len() == 0 || digits[0] == '+' {
            return None;
        }
        match parse_number(&digits, 0x8000_0000_0000_0000) {
            Some(n) => Some(0),
            None => None,
        }
    } else {
        parse_number(text, 0x7fff_ffff_ffff_ffff)
    }
}

impl Session {
    /// A session on an empty board with five seconds a turn.
    pub fn new() -> (result: Session)
        ensures
            result@ == (SessionView {
                board: fresh_board(no_stones(), Player::Black),
                stones: Seq::empty(),
                turn_ms: 5_000,
                left_ms: None,
                rule: None,
                entries: None,
            }),
            result@.board.wf(),
    {
        let stones: Vec<(Move, Player)> = Vec::new();
        assert(stones@ =~= Seq::<(Move, Player)>::empty());
        Session {
            board: Board::new(),
            stones,
            turn_ms: 5_000,
            left_ms: None,
            rule: None,
            entries: None,
        }
    }

    fn empty_board(&mut self)
        ensures
            final(self)@ == emptied(old(self)@),
            final(self)@.board.wf(),
    {
        self.board = Board::new();
        self.stones = Vec::new();
        assert(self.stones@ =~= Seq::<(Move, Player)>::empty());
    }

    fn think(&self) -> (result: Reaction)
        requires
            self@.board.wf(),
        ensures
            result@ == thinking(self@),
    {
        match self.rule {
            Some(rule) => {
                let mut text: Vec<char> = chars_of("ERROR unsupported rule ");
                let number: Vec<char> = render_number(rule as u64);
                append_chars(&mut text, &number);
                Reaction::Say(text)
            },
            None => {
                if self.board.outcome().is_some() {
                    return speak("ERROR game is already over");
                }
                let count: usize = self.board.move_count();
                let played: usize = if count > CELL_COUNT {
                    CELL_COUNT
                } else {
                    count
                };
                match turn_budget_ms(self.turn_ms, self.left_ms, played) {
                    Ok(ms) => Reaction::Think(think_ms(ms)),
                    Err(e) => Reaction::Fail(e),
                }
            },
        }
    }

    fn read_board(&mut self, list: Vec<(Move, u8)>, wrong: bool) -> (result: Reaction)
        requires
            old(self)@.board.wf(),
        ensures
            (result@, final(self)@) == board_read(old(self)@, list@, wrong),
            final(self)@.board.wf(),
    {
        self.entries = None;
        let mut own: usize = 0;
        let mut i: usize = 0;
        assert(list@.take(0) =~= Seq::<(Move, u8)>::empty());
        while i < list.len()
            invariant
                i <= list@.len(),
                own <= i,
                own == own_entries(list@.take(i as int)),
            decreases list@.len() - i,
        {
            proof {
                let more = list@.take(i + 1);
                assert(more.drop_last() =~= list@.take(i as int));
                assert(more.last() == list@[i as int]);
            }
            if list[i].1 == 1 {
                own = own + 1;
            }
            i = i + 1;
        }
        assert(list@.take(list@.len() as int) =~= list@);
        let other: usize = list.len() - own;
        if wrong || (own != other && (other < 1 || other - 1 != own)) {
            return speak("ERROR invalid board");
        }
        let player: Player = if own == other {
            Player::Black
        } else {
            Player::White
        };
        let mut stones: Vec<(Move, Player)> = Vec::new();
        let mut k: usize = 0;
        while k < list.len()
            invariant
                k <= list@.len(),
                stones@.len() == k,
                forall|j: int|
                    0 <= j < k ==> #[trigger] stones@[j] == stones_of(list@, player)[j],
            decreases list@.len() - k,
        {
            let (mv, side) = list[k];
            stones.push(
                (
                    mv,
                    if side == 1 {
                        player
                    } else {
                        player.other()
                    },
                ),
            );
            k = k + 1;
        }
        assert(stones@ =~= stones_of(list@, player));
        match from_stones(stones.as_slice()) {
            None => speak("ERROR invalid board"),
            Some(board) => {
                self.board = board;
                self.stones = stones;
                self.think()
            },
        }
    }

    fn run_entry(&mut self, line: &Vec<char>) -> (result: Reaction)
        requires
            old(self)@.board.wf(),
            old(self)@.entries is Some,
        ensures
            (result@, final(self)@) == step_entry(old(self)@, line@),
            final(self)@.board.wf(),
    {
        let text: Vec<char> = trim(line);
        let small: Vec<char> = lower(&text);
        let taken: Option<(Vec<(Move, u8)>, bool)> = self.entries.take();
        match taken {
            None => Reaction::Quiet,
            Some((list, wrong)) => {
                if reads(&small, "done") {
                    return self.read_board(list, wrong);
                }
                match entry(&text) {
                    Some(one) => {
                        let mut more: Vec<(Move, u8)> = list;
                        more.push(one);
                        self.entries = Some((more, wrong));
                    },
                    None => {
                        self.entries = Some((list, true));
                    },
                }
                Reaction::Quiet
            },
        }
    }

    fn run_turn(&mut self, argument: &Vec<char>) -> (result: Reaction)
        requires
            old(self)@.board.wf(),
        ensures
            (result@, final(self)@) == step_turn(old(self)@, argument@),
            final(self)@.board.wf(),
    {
        match coordinate(argument) {
            None => speak("ERROR invalid coordinate"),
            Some(mv) => {
                let player: Player = self.board.to_move();
                if !self.board.play(mv) {
                    return speak("ERROR illegal move");
                }
                self.stones.push((mv, player));
                self.think()
            },
        }
    }

    fn run_takeback(&mut self, argument: &Vec<char>) -> (result: Reaction)
        requires
            old(self)@.board.wf(),
        ensures
            (result@, final(self)@) == step_takeback(old(self)@, argument@),
            final(self)@.board.wf(),
    {
        match coordinate(argument) {
            None => speak("ERROR invalid coordinate"),
            Some(mv) => {
                let mut n: usize = self.stones.len();
                let ghost all = self.stones@;
                assert(all.take(all.len() as int) =~= all);
                while n > 0 && self.stones[n - 1].0 != mv
                    invariant
                        n <= self.stones@.len(),
                        self@ == old(self)@,
                        self.stones@ == all,
                        last_stone(all.take(n as int), mv) == last_stone(all, mv),
                    decreases n,
                {
                    assert(all.take(n as int).drop_last() =~= all.take(n - 1));
                    assert(all.take(n as int).last() == all[n - 1]);
                    n = n - 1;
                }
                if n == 0 {
                    assert(all.take(0) =~= Seq::<(Move, Player)>::empty());
                    return speak("ERROR unknown move");
                }
                assert(all.take(n as int).last() == all[n - 1]);
                let removed: (Move, Player) = self.stones.remove(n - 1);
                match from_stones(self.stones.as_slice()) {
                    Some(board) => {
                        self.board = board;
                        speak("OK")
                    },
                    None => speak("ERROR invalid takeback"),
                }
            },
        }
    }

    fn run_info(&mut self, argument: &Vec<char>)
        ensures
            final(self)@ == step_info(old(self)@, argument@),
    {
        match split_at_space(argument) {
            None => {},
            Some((key, rest)) => {
                let value: Vec<char> = trim(&rest);
                let name: Vec<char> = lower(&key);
                if reads(&name, "timeout_turn") {
                    if let Some(ms) = parse_number(&value, u64::MAX) {
                        self.turn_ms = ms;
                    }
                } else if reads(&name, "time_left") {
                    if let Some(ms) = signed(&value) {
                        self.left_ms = Some(ms);
                    }
                } else if reads(&name, "rule") {
                    if let Some(rule) = parse_number(&value, u32::MAX as u64) {
                        self.rule = if rule == 0 {
                            None
                        } else {
                            Some(rule as u32)
                        };
                    }
                }
            },
        }
    }

    /// Carries a line out as far as it needs no search.
    pub fn line(&mut self, line: &str) -> (result: Reaction)
        requires
            old(self)@.board.wf(),
        ensures
            (result@, final(self)@) == step(old(self)@, line@),
            final(self)@.board.wf(),
    {
        let chars: Vec<char> = chars_of(line);
        if self.entries.is_some() {
            return self.run_entry(&chars);
        }
        let text: Vec<char> = trim(&chars);
        if text.len() == 0 {
            return Reaction::Quiet;
        }
        let (name, argument): (Vec<char>, Vec<char>) = match split_at_space(&text) {
            Some((head, rest)) => (upper(&head), trim(&rest)),
            None => {
                let empty: Vec<char> = Vec::new();
                assert(empty@ =~= Seq::<char>::empty());
                (upper(&text), empty)
            },
        };
        assert((name@, argument@) == line_halves(text@));
        if reads(&name, "START") {
            match parse_number(&argument, usize::MAX as u64) {
                Some(n) => if n == 19 {
                    self.empty_board();
                    speak("OK")
                } else {
                    speak("ERROR unsupported board size")
                },
                None => speak("ERROR unsupported board size"),
            }
        } else if reads(&name, "RECTSTART") {
            let supported: bool = match split_at_mark(&argument, ',') {
                None => false,
                Some((width, height)) => match (size(&width), size(&height)) {
                    (Some(w), Some(h)) => w == 19 && h == 19,
                    _ => false,
                },
            };
            if supported {
                self.empty_board();
                speak("OK")
            } else {
                speak("ERROR unsupported board size")
            }
        } else if reads(&name, "RESTART") {
            self.empty_board();
            speak("OK")
        } else if reads(&name, "BEGIN") {
            self.empty_board();
            self.think()
        } else if reads(&name, "TURN") {
            self.run_turn(&argument)
        } else if reads(&name, "BOARD") {
            let list: Vec<(Move, u8)> = Vec::new();
            assert(list@ =~= Seq::<(Move, u8)>::empty());
            self.entries = Some((list, false));
            Reaction::Quiet
        } else if reads(&name, "TAKEBACK") {
            self.run_takeback(&argument)
        } else if reads(&name, "INFO") {
            self.run_info(&argument);
            Reaction::Quiet
        } else if reads(&name, "ABOUT") {
            speak("name=\"GomokuAZ\", version=\"0.1.0\", author=\"mycve\", country=\"CN\"")
        } else if reads(&name, "END") {
            Reaction::Stop
        } else {
            let mut reply: Vec<char> = chars_of("UNKNOWN ");
            append_chars(&mut reply, &text);
            Reaction::Say(reply)
        }
    }

    /// Goes on with the move that a search chose, if it chose one.
    pub fn finish_search(&mut self, mv: Option<Move>) -> (result: Reaction)
        requires
            old(self)@.board.wf(),
        ensures
            (result@, final(self)@) == found(old(self)@, mv),
            final(self)@.board.wf(),
    {
        match mv {
            None => speak("ERROR no legal move"),
            Some(mv) => {
                let player: Player = self.board.to_move();
                let played: bool = self.board.play(mv);
                self.stones.push((mv, player));
                let mut text: Vec<char> = render_number(mv.col() as u64);
                text.push(',');
                let row: Vec<char> = render_number(mv.row() as u64);
                append_chars(&mut text, &row);
                assert(text@ =~= decimal((mv.0 as int % 19) as nat) + seq![','] + decimal(
                    (mv.0 as int / 19) as nat,
                ));
                Reaction::Say(text)
            },
        }
    }
}

/// A turn never gets more than its own time, nor more than what is left of
/// the match.
pub proof fn law_budget_respects_limits(turn_ms: u64, left_ms: Option<u64>, move_count: int)
    requires
        0 <= move_count <= 361,
    ensures
        turn_ms == 0 ==> turn_budget(turn_ms, left_ms, move_count) is Err,
        turn_budget(turn_ms, left_ms, move_count) matches Ok(ms) ==> 1 <= ms <= turn_ms && (
        left_ms matches Some(left) ==> ms <= left),
{
    if let Some(left) = left_ms {
        let spare = if left > 101 {
            left - 100
        } else {
            1
        };
        let turns = turns_to_come(move_count);
        assert(spare / turns <= spare) by (nonlinear_arith)
            requires
                turns >= 1,
                spare >= 1,
        ;
    }
}

} // verus!
