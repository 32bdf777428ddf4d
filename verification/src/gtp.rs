//! The text protocol of a game controller: one command a line, one framed
//! response each. What a command does to the engine is decided here; a search
//! and the reading of a decimal komi are asked of the caller.
use crate::chains::chain_list;
use crate::game::{
    all_breathe, distinct_points, fresh_board, laid_out, no_stones, Board, BoardView, Move, Player,
    MAX_MOVES,
};
use crate::grid::{BOARD_SIZE, CELL_COUNT};
use crate::notation::{drawing, move_in, notation_chars, notation_of, parse_chars};
use crate::scoring::{analyze, move_lists, settled_score, with_status, Analysis, Status};
use crate::text::{
    all_digits, append_chars, append_text, chars_of, control_char, copy_chars, count_before,
    decimal, digit_char, is_control, length_before, lower, lowered, number_of, parse_number, part,
    reads, render_number, same_chars, split_words, string_of, texts, trim_back, trim_end, upper, uppered, words,
};
use vstd::prelude::*;

verus! {

/// Nanoseconds in a second.
pub const SECOND: u128 = 1_000_000_000;

/// A player's clock: the nanoseconds that remain, and in overtime the stones
/// to play in them.
#[derive(Clone, Copy, Debug, PartialEq, Eq, Structural)]
pub struct Clock {
    pub remaining: u128,
    pub stones: usize,
}

impl Clock {
    /// No clock holds more than the seconds that a setting can name.
    pub open spec fn wf(self) -> bool {
        self.remaining <= usize::MAX * SECOND
    }
}

/// What an engine holds.
#[verifier::ext_equal]
pub struct EngineView {
    pub board: BoardView,
    pub undo: Seq<BoardView>,
    pub clocks: Option<(Clock, Clock)>,
    pub settings: (usize, usize, usize),
    pub version: Seq<char>,
}

/// The board is valid and its komi is one that can be set.
pub open spec fn playable(board: BoardView) -> bool {
    board.wf() && -1_000_000 <= board.komi_milli <= 1_000_000
}

impl EngineView {
    /// The boards and the clocks are valid.
    pub open spec fn wf(self) -> bool {
        &&& playable(self.board)
        &&& forall|i: int| 0 <= i < self.undo.len() ==> (#[trigger] self.undo[i]).wf()
        &&& self.clocks is Some ==> (self.clocks->0).0.wf() && (self.clocks->0).1.wf()
    }
}

/// A game as the protocol sees it: the board, the boards to go back to, the
/// clocks of Black and White, and the last time settings (main time, overtime,
/// stones of overtime).
pub struct Engine {
    pub board: Board,
    pub undo: Vec<Board>,
    pub clocks: Option<(Clock, Clock)>,
    pub settings: (usize, usize, usize),
    pub version: Vec<char>,
}

pub open spec fn board_views(boards: Seq<Board>) -> Seq<BoardView> {
    boards.map_values(|b: Board| b@)
}

impl View for Engine {
    type V = EngineView;

    open spec fn view(&self) -> EngineView {
        EngineView {
            board: self.board@,
            undo: board_views(self.undo@),
            clocks: self.clocks,
            settings: self.settings,
            version: self.version@,
        }
    }
}

/// A search that a command asks for: the board to search, for whom, whether
/// the move is to be played, and the nanoseconds to think if a clock runs.
pub struct Request {
    pub board: Board,
    pub player: Player,
    pub keep: bool,
    pub nanos: Option<u64>,
}

/// What a command comes to: a response, a refusal, a komi to be read from
/// text, or a search.
pub enum Answer {
    Done(Vec<char>),
    Refused(Vec<char>),
    Komi(Vec<char>),
    Search(Request),
}

#[verifier::ext_equal]
pub enum AnswerView {
    Done(Seq<char>),
    Refused(Seq<char>),
    Komi(Seq<char>),
    Search { board: BoardView, player: Player, keep: bool, nanos: Option<u64> },
}

impl View for Answer {
    type V = AnswerView;

    open spec fn view(&self) -> AnswerView {
        match self {
            Answer::Done(text) => AnswerView::Done(text@),
            Answer::Refused(text) => AnswerView::Refused(text@),
            Answer::Komi(text) => AnswerView::Komi(text@),
            Answer::Search(request) => AnswerView::Search {
                board: request.board@,
                player: request.player,
                keep: request.keep,
                nanos: request.nanos,
            },
        }
    }
}

/// The names of the commands, in the order in which they are listed.
pub open spec fn command_names() -> Seq<Seq<char>> {
    seq![
        "protocol_version"@,
        "name"@,
        "version"@,
        "known_command"@,
        "list_commands"@,
        "quit"@,
        "boardsize"@,
        "clear_board"@,
        "komi"@,
        "play"@,
        "genmove"@,
        "reg_genmove"@,
        "undo"@,
        "showboard"@,
        "final_score"@,
        "final_status_list"@,
        "estimate_score"@,
        "time_settings"@,
        "time_left"@,
        "fixed_handicap"@,
        "set_free_handicap"@,
    ]
}

fn all_commands() -> (names: Vec<Vec<char>>)
    ensures
        texts(names@) == command_names(),
{
    let mut names: Vec<Vec<char>> = Vec::new();
    names.push(chars_of("protocol_version"));
    names.push(chars_of("name"));
    names.push(chars_of("version"));
    names.push(chars_of("known_command"));
    names.push(chars_of("list_commands"));
    names.push(chars_of("quit"));
    names.push(chars_of("boardsize"));
    names.push(chars_of("clear_board"));
    names.push(chars_of("komi"));
    names.push(chars_of("play"));
    names.push(chars_of("genmove"));
    names.push(chars_of("reg_genmove"));
    names.push(chars_of("undo"));
    names.push(chars_of("showboard"));
    names.push(chars_of("final_score"));
    names.push(chars_of("final_status_list"));
    names.push(chars_of("estimate_score"));
    names.push(chars_of("time_settings"));
    names.push(chars_of("time_left"));
    names.push(chars_of("fixed_handicap"));
    names.push(chars_of("set_free_handicap"));
    assert(texts(names@) =~= command_names());
    names
}

/// The texts with the separator between them.
pub open spec fn joined(list: Seq<Seq<char>>, separator: char) -> Seq<char>
    decreases list.len(),
{
    if list.len() == 0 {
        Seq::empty()
    } else if list.len() == 1 {
        list[0]
    } else {
        joined(list.drop_last(), separator).push(separator) + list.last()
    }
}

fn join(list: &Vec<Vec<char>>, separator: char) -> (result: Vec<char>)
    ensures
        result@ == joined(texts(list@), separator),
{
    let mut result: Vec<char> = Vec::new();
    let ghost all = texts(list@);
    let mut i: usize = 0;
    assert(all.take(0) =~= Seq::<Seq<char>>::empty());
    while i < list.len()
        invariant
            i <= list@.len(),
            all == texts(list@),
            result@ == joined(all.take(i as int), separator),
        decreases list@.len() - i,
    {
        let ghost more = all.take(i + 1);
        if i > 0 {
            result.push(separator);
        }
        append_chars(&mut result, &list[i]);
        proof {
            assert(more.drop_last() =~= all.take(i as int));
            assert(more.last() == list@[i as int]@);
            if i == 0 {
                assert(all.take(0) =~= Seq::<Seq<char>>::empty());
                assert(result@ =~= list@[0]@);
            }
        }
        i = i + 1;
    }
    assert(all.take(all.len() as int) =~= all);
    result
}

/// The player that a text names.
pub open spec fn color_of(text: Seq<char>) -> Option<Player> {
    let t = lowered(text);
    if t == "b"@ || t == "black"@ {
        Some(Player::Black)
    } else if t == "w"@ || t == "white"@ {
        Some(Player::White)
    } else {
        None
    }
}

fn color(text: &Vec<char>) -> (result: Option<Player>)
    ensures
        result == color_of(text@),
{
    let t: Vec<char> = lower(text);
    if reads(&t, "b") || reads(&t, "black") {
        Some(Player::Black)
    } else if reads(&t, "w") || reads(&t, "white") {
        Some(Player::White)
    } else {
        None
    }
}

/// The whole number that a text writes.
pub open spec fn integer_of(text: Seq<char>) -> Option<usize> {
    match number_of(text, usize::MAX as nat) {
        Some(n) => Some(n as usize),
        None => None,
    }
}

fn integer(text: &Vec<char>) -> (result: Option<usize>)
    ensures
        result == integer_of(text@),
{
    match parse_number(text, usize::MAX as u64) {
        Some(n) => Some(n as usize),
        None => None,
    }
}

/// Thousandths below one, without trailing zeros.
pub open spec fn fraction_text(milli: int) -> Seq<char> {
    if milli % 100 == 0 {
        decimal((milli / 100) as nat)
    } else if milli % 10 == 0 {
        decimal((milli / 100) as nat) + decimal((milli / 10 % 10) as nat)
    } else {
        decimal((milli / 100) as nat) + decimal((milli / 10 % 10) as nat) + decimal(
            (milli % 10) as nat,
        )
    }
}

/// A margin in thousandths as the winner's letter and points.
pub open spec fn score_text_of(milli: int) -> Seq<char> {
    let size = if milli < 0 {
        -milli
    } else {
        milli
    };
    let winner = if milli > 0 {
        'B'
    } else {
        'W'
    };
    if milli == 0 {
        "0"@
    } else if size % 1000 == 0 {
        seq![winner, '+'] + decimal((size / 1000) as nat)
    } else {
        (seq![winner, '+'] + decimal((size / 1000) as nat)).push('.') + fraction_text(size % 1000)
    }
}

pub fn score_text(milli: i64) -> (result: Vec<char>)
    requires
        -1_000_000_000_000 <= milli <= 1_000_000_000_000,
    ensures
        result@ == score_text_of(milli as int),
{
    let mut result: Vec<char> = Vec::new();
    if milli == 0 {
        append_text(&mut result, "0");
        assert(result@ =~= "0"@);
        return result;
    }
    let size: u64 = if milli < 0 {
        (-milli) as u64
    } else {
        milli as u64
    };
    result.push(if milli > 0 {
        'B'
    } else {
        'W'
    });
    result.push('+');
    let whole: Vec<char> = render_number(size / 1000);
    append_chars(&mut result, &whole);
    let ghost points = result@;
    let rest: u64 = size % 1000;
    if rest == 0 {
        assert(result@ =~= score_text_of(milli as int));
        return result;
    }
    result.push('.');
    let tenths: Vec<char> = render_number(rest / 100);
    append_chars(&mut result, &tenths);
    if rest % 100 != 0 {
        let hundredths: Vec<char> = render_number(rest / 10 % 10);
        append_chars(&mut result, &hundredths);
        if rest % 10 != 0 {
            let thousandths: Vec<char> = render_number(rest % 10);
            append_chars(&mut result, &thousandths);
        }
    }
    assert(result@ =~= score_text_of(milli as int));
    result
}

/// The board with the komi, if it is an acceptable one.
pub open spec fn with_komi(board: BoardView, milli: int) -> BoardView {
    if -1_000_000 <= milli <= 1_000_000 {
        BoardView { komi_milli: milli, ..board }
    } else {
        board
    }
}

/// The clocks that the settings start with, if they limit the time.
pub open spec fn fresh_clocks(settings: (usize, usize, usize)) -> Option<(Clock, Clock)> {
    let (main, overtime, stones) = settings;
    if (overtime > 0 && stones == 0) || (main == 0 && overtime == 0 && stones == 0) {
        None
    } else {
        let clock = if main > 0 {
            Clock { remaining: (main * SECOND) as u128, stones: 0 }
        } else {
            Clock { remaining: (overtime * SECOND) as u128, stones }
        };
        Some((clock, clock))
    }
}

/// The clock after a move that took `elapsed` nanoseconds. When the main time
/// or the overtime stones run out, a new overtime period starts.
pub open spec fn clock_after(clock: Clock, elapsed: int, settings: (usize, usize, usize)) -> Clock {
    let overtime = clock.stones > 0;
    let remaining = if clock.remaining > elapsed {
        clock.remaining - elapsed
    } else {
        0
    };
    let stones = if overtime {
        clock.stones - 1
    } else {
        0
    };
    if ((overtime && stones == 0) || (!overtime && remaining == 0)) && settings.1 > 0 {
        Clock { remaining: (settings.1 * SECOND) as u128, stones: settings.2 }
    } else {
        Clock { remaining: remaining as u128, stones: stones as usize }
    }
}

/// How long to think with a clock: nine tenths of an even share of the time
/// over the stones of the period, or over thirty moves; at least a
/// millisecond and at most a minute.
pub open spec fn think_nanos(clock: Clock) -> int {
    let moves = if clock.stones > 0 {
        clock.stones as int
    } else {
        30
    };
    let share = clock.remaining * 9 / (10 * moves);
    if share < 1_000_000 {
        1_000_000
    } else if share > 60_000_000_000 {
        60_000_000_000
    } else {
        share
    }
}

pub open spec fn clock_of(clocks: (Clock, Clock), player: Player) -> Clock {
    match player {
        Player::Black => clocks.0,
        Player::White => clocks.1,
    }
}

pub open spec fn set_clock(clocks: (Clock, Clock), player: Player, clock: Clock) -> (Clock, Clock) {
    match player {
        Player::Black => (clock, clocks.1),
        Player::White => (clocks.0, clock),
    }
}

/// The engine on an empty board with the komi kept and the clocks restarted.
pub open spec fn cleared(e: EngineView) -> EngineView {
    EngineView {
        board: with_komi(fresh_board(no_stones(), Player::Black), e.board.komi_milli),
        undo: Seq::empty(),
        clocks: fresh_clocks(e.settings),
        ..e
    }
}

/// The board on which a player's move is tried: anyone may move at any time,
/// and also after the game is over.
pub open spec fn play_board(board: BoardView, player: Player) -> BoardView {
    if board.to_move == player && !board.finished() {
        board
    } else {
        board.turned(player)
    }
}

/// The board on which a move is generated.
pub open spec fn search_board(board: BoardView, player: Player) -> BoardView {
    if board.to_move == player {
        board
    } else {
        board.turned(player)
    }
}

pub open spec fn refused(e: EngineView, text: Seq<char>) -> (AnswerView, EngineView) {
    (AnswerView::Refused(text), e)
}

pub open spec fn done(e: EngineView, text: Seq<char>) -> (AnswerView, EngineView) {
    (AnswerView::Done(text), e)
}

pub open spec fn step_play(e: EngineView, args: Seq<Seq<char>>) -> (AnswerView, EngineView) {
    if args.len() != 2 {
        refused(e, "syntax error"@)
    } else if color_of(args[0]) is None {
        refused(e, "invalid color"@)
    } else if move_in(args[1]) is None {
        refused(e, "invalid vertex"@)
    } else {
        let board = play_board(e.board, color_of(args[0])->0);
        let mv = move_in(args[1])->0;
        if !board.legal(mv) {
            refused(e, "illegal move"@)
        } else {
            done(
                EngineView { board: board.played(mv), undo: e.undo.push(e.board), ..e },
                Seq::empty(),
            )
        }
    }
}

pub open spec fn step_genmove(e: EngineView, args: Seq<Seq<char>>, keep: bool) -> (
    AnswerView,
    EngineView,
) {
    if args.len() != 1 {
        refused(e, "syntax error"@)
    } else if color_of(args[0]) is None {
        refused(e, "invalid color"@)
    } else {
        let player = color_of(args[0])->0;
        let board = search_board(e.board, player);
        if board.finished() {
            done(e, "pass"@)
        } else {
            (
                AnswerView::Search {
                    board,
                    player,
                    keep,
                    nanos: match e.clocks {
                        Some(clocks) => Some(think_nanos(clock_of(clocks, player)) as u64),
                        None => None,
                    },
                },
                e,
            )
        }
    }
}

pub open spec fn step_undo(e: EngineView, args: Seq<Seq<char>>) -> (AnswerView, EngineView) {
    if args.len() != 0 {
        refused(e, "syntax error"@)
    } else if e.undo.len() == 0 {
        refused(e, "cannot undo"@)
    } else {
        done(
            EngineView {
                board: with_komi(e.undo.last(), e.board.komi_milli),
                undo: e.undo.drop_last(),
                ..e
            },
            Seq::empty(),
        )
    }
}

pub open spec fn step_score(e: EngineView, args: Seq<Seq<char>>, last: bool) -> (
    AnswerView,
    EngineView,
) {
    if args.len() != 0 {
        refused(e, "syntax error"@)
    } else if last && (!e.board.finished() || with_status(
        e.board,
        Status::Unsettled,
        chain_list(e.board.cells).len(),
    ).len() > 0 || e.board.moves >= MAX_MOVES) {
        refused(e, "cannot score"@)
    } else {
        done(e, score_text_of(settled_score(e.board)))
    }
}

/// The capitalised notation of the actions.
pub open spec fn vertices(moves: Seq<Move>) -> Seq<Seq<char>> {
    moves.map_values(|mv: Move| uppered(notation_of(mv)))
}

/// Groups as lines of vertices.
pub open spec fn group_lines(groups: Seq<Seq<Move>>) -> Seq<char> {
    joined(groups.map_values(|group: Seq<Move>| joined(vertices(group), ' ')), '\n')
}

pub open spec fn step_status(e: EngineView, args: Seq<Seq<char>>) -> (AnswerView, EngineView) {
    let n = chain_list(e.board.cells).len();
    let settled = with_status(e.board, Status::Unsettled, n).len() == 0;
    if args.len() != 1 {
        refused(e, "syntax error"@)
    } else if args[0] == "dead"@ {
        done(e, group_lines(with_status(e.board, Status::Dead, n)))
    } else if args[0] == "unsettled"@ {
        done(e, group_lines(with_status(e.board, Status::Unsettled, n)))
    } else if args[0] == "alive"@ || args[0] == "seki"@ {
        if !settled {
            refused(e, "cannot determine status"@)
        } else if args[0] == "alive"@ {
            done(e, group_lines(with_status(e.board, Status::Alive, n)))
        } else {
            done(e, group_lines(with_status(e.board, Status::Seki, n)))
        }
    } else {
        refused(e, "invalid status"@)
    }
}

pub open spec fn step_time_settings(e: EngineView, args: Seq<Seq<char>>) -> (
    AnswerView,
    EngineView,
) {
    if args.len() != 3 {
        refused(e, "syntax error"@)
    } else if integer_of(args[0]) is None || integer_of(args[1]) is None || integer_of(
        args[2],
    ) is None {
        refused(e, "invalid integer"@)
    } else {
        let settings = (integer_of(args[0])->0, integer_of(args[1])->0, integer_of(args[2])->0);
        done(EngineView { settings, clocks: fresh_clocks(settings), ..e }, Seq::empty())
    }
}

pub open spec fn step_time_left(e: EngineView, args: Seq<Seq<char>>) -> (AnswerView, EngineView) {
    if args.len() != 3 {
        refused(e, "syntax error"@)
    } else if color_of(args[0]) is None {
        refused(e, "invalid color"@)
    } else if integer_of(args[1]) is None || integer_of(args[2]) is None {
        refused(e, "invalid integer"@)
    } else {
        let clock = Clock {
            remaining: (integer_of(args[1])->0 * SECOND) as u128,
            stones: integer_of(args[2])->0,
        };
        let idle = Clock { remaining: 0, stones: 0 };
        let clocks = match e.clocks {
            Some(clocks) => clocks,
            None => (idle, idle),
        };
        done(
            EngineView { clocks: Some(set_clock(clocks, color_of(args[0])->0, clock)), ..e },
            Seq::empty(),
        )
    }
}

/// The points of a fixed handicap, the first ones first.
pub open spec fn fixed_points(n: int) -> Seq<Move> {
    seq![Move(40), Move(120), Move(116), Move(44), Move(80)].take(n)
}

/// The actions that the texts name.
pub open spec fn moves_in(args: Seq<Seq<char>>) -> Seq<Move> {
    args.map_values(|arg: Seq<char>| move_in(arg)->0)
}

/// Every text names a point.
pub open spec fn all_points(args: Seq<Seq<char>>) -> bool {
    forall|i: int|
        0 <= i < args.len() ==> move_in(#[trigger] args[i]) is Some && move_in(args[i])->0
            != Move::pass_move()
}

/// Black stones on the points.
pub open spec fn black_stones(points: Seq<Move>) -> Seq<(Move, Player)> {
    points.map_values(|mv: Move| (mv, Player::Black))
}

/// The engine with Black's handicap stones down and White to move.
pub open spec fn step_handicap(e: EngineView, points: Seq<Move>, reply: Seq<char>) -> (
    AnswerView,
    EngineView,
) {
    let stones = black_stones(points);
    if !distinct_points(stones) || !all_breathe(laid_out(stones)) {
        refused(e, "invalid handicap"@)
    } else {
        done(
            EngineView {
                board: with_komi(
                    fresh_board(laid_out(stones), Player::White),
                    e.board.komi_milli,
                ),
                undo: Seq::empty(),
                ..e
            },
            reply,
        )
    }
}

/// A board with no stone on which nothing was played.
pub open spec fn untouched(board: BoardView) -> bool {
    &&& board.moves == 0
    &&& forall|i: int| 0 <= i < board.cells.len() ==> #[trigger] board.cells[i] == 0
}

pub open spec fn step_fixed_handicap(e: EngineView, args: Seq<Seq<char>>) -> (
    AnswerView,
    EngineView,
) {
    if !untouched(e.board) {
        refused(e, "board not empty"@)
    } else if args.len() != 1 {
        refused(e, "syntax error"@)
    } else if integer_of(args[0]) is None {
        refused(e, "invalid integer"@)
    } else if integer_of(args[0])->0 < 2 || integer_of(args[0])->0 > 5 {
        refused(e, "invalid handicap"@)
    } else {
        let points = fixed_points(integer_of(args[0])->0 as int);
        step_handicap(e, points, joined(vertices(points), ' '))
    }
}

pub open spec fn step_free_handicap(e: EngineView, args: Seq<Seq<char>>) -> (
    AnswerView,
    EngineView,
) {
    if !untouched(e.board) {
        refused(e, "board not empty"@)
    } else if args.len() < 2 || args.len() > 40 {
        refused(e, "invalid handicap"@)
    } else if !all_points(args) {
        refused(e, "invalid vertex"@)
    } else {
        step_handicap(e, moves_in(args), Seq::empty())
    }
}

/// What a command comes to and the engine after it.
pub open spec fn step(e: EngineView, command: Seq<char>, args: Seq<Seq<char>>) -> (
    AnswerView,
    EngineView,
) {
    if command == "protocol_version"@ {
        if args.len() == 0 {
            done(e, "2"@)
        } else {
            refused(e, "syntax error"@)
        }
    } else if command == "name"@ {
        if args.len() == 0 {
            done(e, "Go19"@)
        } else {
            refused(e, "syntax error"@)
        }
    } else if command == "version"@ {
        if args.len() == 0 {
            done(e, e.version)
        } else {
            refused(e, "syntax error"@)
        }
    } else if command == "known_command"@ {
        if args.len() == 1 {
            done(
                e,
                if command_names().contains(args[0]) {
                    "true"@
                } else {
                    "false"@
                },
            )
        } else {
            refused(e, "syntax error"@)
        }
    } else if command == "list_commands"@ {
        if args.len() == 0 {
            done(e, joined(command_names(), '\n'))
        } else {
            refused(e, "syntax error"@)
        }
    } else if command == "quit"@ {
        if args.len() == 0 {
            done(e, Seq::empty())
        } else {
            refused(e, "syntax error"@)
        }
    } else if command == "boardsize"@ {
        if args.len() != 1 {
            refused(e, "syntax error"@)
        } else if integer_of(args[0]) is None {
            refused(e, "invalid integer"@)
        } else if integer_of(args[0])->0 != BOARD_SIZE {
            refused(e, "unacceptable size"@)
        } else {
            done(cleared(e), Seq::empty())
        }
    } else if command == "clear_board"@ {
        if args.len() != 0 {
            refused(e, "syntax error"@)
        } else {
            done(cleared(e), Seq::empty())
        }
    } else if command == "komi"@ {
        if args.len() != 1 {
            refused(e, "syntax error"@)
        } else {
            (AnswerView::Komi(args[0]), e)
        }
    } else if command == "play"@ {
        step_play(e, args)
    } else if command == "genmove"@ {
        step_genmove(e, args, true)
    } else if command == "reg_genmove"@ {
        step_genmove(e, args, false)
    } else if command == "undo"@ {
        step_undo(e, args)
    } else if command == "showboard"@ {
        if args.len() != 0 {
            refused(e, "syntax error"@)
        } else {
            done(e, trim_back(seq!['\n'] + drawing(e.board.cells)))
        }
    } else if command == "final_score"@ {
        step_score(e, args, true)
    } else if command == "estimate_score"@ {
        step_score(e, args, false)
    } else if command == "final_status_list"@ {
        step_status(e, args)
    } else if command == "time_settings"@ {
        step_time_settings(e, args)
    } else if command == "time_left"@ {
        step_time_left(e, args)
    } else if command == "fixed_handicap"@ {
        step_fixed_handicap(e, args)
    } else if command == "set_free_handicap"@ {
        step_free_handicap(e, args)
    } else {
        refused(e, "unknown command"@)
    }
}

/// The engine once the komi that a command gave has been read: `None` if the
/// text is no finite number within a thousand points.
pub open spec fn komi_read(e: EngineView, milli: Option<i32>) -> (AnswerView, EngineView) {
    match milli {
        Some(komi) => if -1_000_000 <= komi <= 1_000_000 {
            done(
                EngineView { board: BoardView { komi_milli: komi as int, ..e.board }, ..e },
                Seq::empty(),
            )
        } else {
            refused(e, "invalid komi"@)
        },
        None => refused(e, "invalid komi"@),
    }
}

/// The engine once a search on `board` for `player` has chosen `mv` in
/// `elapsed` nanoseconds. Only a move that is to be kept is played.
pub open spec fn move_found(
    e: EngineView,
    board: BoardView,
    player: Player,
    keep: bool,
    mv: Move,
    elapsed: u128,
) -> (AnswerView, EngineView) {
    let reply = if mv == Move::pass_move() {
        "pass"@
    } else {
        uppered(notation_of(mv))
    };
    if !keep {
        done(e, reply)
    } else if !board.legal(mv) {
        refused(e, "cannot generate move"@)
    } else {
        done(
            EngineView {
                board: board.played(mv),
                undo: e.undo.push(e.board),
                clocks: match e.clocks {
                    Some(clocks) => Some(
                        set_clock(
                            clocks,
                            player,
                            clock_after(clock_of(clocks, player), elapsed as int, e.settings),
                        ),
                    ),
                    None => None,
                },
                ..e
            },
            reply,
        )
    }
}


fn refuse(text: &str) -> (answer: Answer)
    ensures
        answer@ == AnswerView::Refused(text@),
{
    Answer::Refused(chars_of(text))
}

fn answer(text: &str) -> (answer: Answer)
    ensures
        answer@ == AnswerView::Done(text@),
{
    Answer::Done(chars_of(text))
}

fn nothing() -> (answer: Answer)
    ensures
        answer@ == AnswerView::Done(Seq::empty()),
{
    let empty: Vec<char> = Vec::new();
    assert(empty@ =~= Seq::<char>::empty());
    Answer::Done(empty)
}

/// The capitalised notation of the action.
fn vertex(mv: Move) -> (text: Vec<char>)
    ensures
        text@ == uppered(notation_of(mv)),
{
    let text: Vec<char> = notation_chars(mv);
    upper(&text)
}

fn vertex_line(moves: &Vec<Move>) -> (line: Vec<char>)
    ensures
        line@ == joined(vertices(moves@), ' '),
{
    let mut list: Vec<Vec<char>> = Vec::new();
    let mut i: usize = 0;
    while i < moves.len()
        invariant
            i <= moves@.len(),
            list@.len() == i,
            forall|j: int| 0 <= j < i ==> (#[trigger] list@[j])@ == uppered(notation_of(moves@[j])),
        decreases moves@.len() - i,
    {
        list.push(vertex(moves[i]));
        i = i + 1;
    }
    assert(texts(list@) =~= vertices(moves@));
    join(&list, ' ')
}

fn lines_of(groups: &Vec<Vec<Move>>) -> (lines: Vec<char>)
    ensures
        lines@ == group_lines(move_lists(groups@)),
{
    let mut list: Vec<Vec<char>> = Vec::new();
    let mut i: usize = 0;
    while i < groups.len()
        invariant
            i <= groups@.len(),
            list@.len() == i,
            forall|j: int|
                0 <= j < i ==> (#[trigger] list@[j])@ == joined(vertices(groups@[j]@), ' '),
        decreases groups@.len() - i,
    {
        list.push(vertex_line(&groups[i]));
        i = i + 1;
    }
    assert(texts(list@) =~= move_lists(groups@).map_values(
        |group: Seq<Move>| joined(vertices(group), ' '),
    ));
    join(&list, '\n')
}

fn start_clocks(settings: (usize, usize, usize)) -> (clocks: Option<(Clock, Clock)>)
    ensures
        clocks == fresh_clocks(settings),
        clocks is Some ==> (clocks->0).0.wf() && (clocks->0).1.wf(),
{
    let (main, overtime, stones) = settings;
    if (overtime > 0 && stones == 0) || (main == 0 && overtime == 0 && stones == 0) {
        None
    } else {
        assert(main * SECOND <= usize::MAX * SECOND) by (nonlinear_arith)
            requires
                main <= usize::MAX,
        ;
        assert(overtime * SECOND <= usize::MAX * SECOND) by (nonlinear_arith)
            requires
                overtime <= usize::MAX,
        ;
        let clock: Clock = if main > 0 {
            Clock { remaining: main as u128 * SECOND, stones: 0 }
        } else {
            Clock { remaining: overtime as u128 * SECOND, stones }
        };
        Some((clock, clock))
    }
}

fn budget(clock: Clock) -> (nanos: u64)
    requires
        clock.wf(),
    ensures
        nanos == think_nanos(clock),
        1_000_000 <= nanos <= 60_000_000_000,
{
    let moves: u128 = if clock.stones > 0 {
        clock.stones as u128
    } else {
        30
    };
    let share: u128 = clock.remaining * 9 / (10 * moves);
    if share < 1_000_000 {
        1_000_000
    } else if share > 60_000_000_000 {
        60_000_000_000
    } else {
        share as u64
    }
}

impl Engine {
    /// An engine on an empty board.
    pub fn new(version: &str) -> (engine: Engine)
        ensures
            engine@ == (EngineView {
                board: fresh_board(no_stones(), Player::Black),
                undo: Seq::empty(),
                clocks: None,
                settings: (0, 0, 0),
                version: version@,
            }),
            engine@.wf(),
    {
        let undo: Vec<Board> = Vec::new();
        assert(board_views(undo@) =~= Seq::<BoardView>::empty());
        Engine {
            board: Board::new(),
            undo,
            clocks: None,
            settings: (0, 0, 0),
            version: chars_of(version),
        }
    }

    /// Starts the clocks anew from the settings.
    pub fn reset_clocks(&mut self)
        requires
            old(self)@.wf(),
        ensures
            final(self)@ == (EngineView { clocks: fresh_clocks(old(self)@.settings), ..old(self)@ }),
            final(self)@.wf(),
    {
        self.clocks = start_clocks(self.settings);
    }

    /// Takes the time of a move off the player's clock.
    pub fn consume_time(&mut self, player: Player, elapsed: u128)
        requires
            old(self)@.wf(),
        ensures
            final(self)@ == (EngineView {
                clocks: match old(self)@.clocks {
                    Some(clocks) => Some(
                        set_clock(
                            clocks,
                            player,
                            clock_after(
                                clock_of(clocks, player),
                                elapsed as int,
                                old(self)@.settings,
                            ),
                        ),
                    ),
                    None => None,
                },
                ..old(self)@
            }),
            final(self)@.wf(),
    {
        if let Some(clocks) = self.clocks {
            let mut clock: Clock = match player {
                Player::Black => clocks.0,
                Player::White => clocks.1,
            };
            let overtime: bool = clock.stones > 0;
            clock.remaining = if clock.remaining > elapsed {
                clock.remaining - elapsed
            } else {
                0
            };
            if overtime {
                clock.stones = clock.stones - 1;
            }
            if ((overtime && clock.stones == 0) || (!overtime && clock.remaining == 0))
                && self.settings.1 > 0 {
                let seconds: usize = self.settings.1;
                assert(seconds * SECOND <= usize::MAX * SECOND) by (nonlinear_arith)
                    requires
                        seconds <= usize::MAX,
                ;
                clock = Clock { remaining: seconds as u128 * SECOND, stones: self.settings.2 };
            }
            match player {
                Player::Black => {
                    self.clocks = Some((clock, clocks.1));
                },
                Player::White => {
                    self.clocks = Some((clocks.0, clock));
                },
            }
        }
    }

    fn clear(&mut self)
        requires
            old(self)@.wf(),
        ensures
            final(self)@ == cleared(old(self)@),
            final(self)@.wf(),
    {
        let komi: i32 = self.board.komi();
        self.board = Board::new();
        let accepted: bool = self.board.set_komi(komi);
        self.undo = Vec::new();
        assert(board_views(self.undo@) =~= Seq::<BoardView>::empty());
        self.reset_clocks();
    }

    /// Puts the board on the undo list and goes on with the other one.
    fn advance(&mut self, board: Board)
        requires
            old(self)@.wf(),
            playable(board@),
        ensures
            final(self)@ == (EngineView {
                board: board@,
                undo: old(self)@.undo.push(old(self)@.board),
                ..old(self)@
            }),
            final(self)@.wf(),
    {
        let ghost before = self.undo@;
        let kept: Board = self.board.clone();
        self.undo.push(kept);
        self.board = board;
        proof {
            assert(board_views(self.undo@) =~= board_views(before).push(kept@));
        }
    }

    fn run_play(&mut self, args: &Vec<Vec<char>>) -> (result: Answer)
        requires
            old(self)@.wf(),
        ensures
            (result@, final(self)@) == step_play(old(self)@, texts(args@)),
            final(self)@.wf(),
    {
        if args.len() != 2 {
            return refuse("syntax error");
        }
        assert(texts(args@)[0] == args@[0]@ && texts(args@)[1] == args@[1]@);
        let player: Player = match color(&args[0]) {
            Some(player) => player,
            None => {
                return refuse("invalid color");
            },
        };
        let mv: Move = match parse_chars(&args[1]) {
            Some(mv) => mv,
            None => {
                return refuse("invalid vertex");
            },
        };
        let mut board: Board = if self.board.to_move() == player && !self.board.is_finished() {
            self.board.clone()
        } else {
            self.board.for_turn(player)
        };
        if !board.play(mv) {
            return refuse("illegal move");
        }
        self.advance(board);
        nothing()
    }

    fn run_genmove(&self, args: &Vec<Vec<char>>, keep: bool) -> (result: Answer)
        requires
            self@.wf(),
        ensures
            (result@, self@) == step_genmove(self@, texts(args@), keep),
            result matches Answer::Search(request) ==> playable(request.board@),
    {
        if args.len() != 1 {
            return refuse("syntax error");
        }
        assert(texts(args@)[0] == args@[0]@);
        let player: Player = match color(&args[0]) {
            Some(player) => player,
            None => {
                return refuse("invalid color");
            },
        };
        let board: Board = if self.board.to_move() == player {
            self.board.clone()
        } else {
            self.board.for_turn(player)
        };
        if board.is_finished() {
            return answer("pass");
        }
        let nanos: Option<u64> = match self.clocks {
            Some(clocks) => {
                let clock: Clock = match player {
                    Player::Black => clocks.0,
                    Player::White => clocks.1,
                };
                Some(budget(clock))
            },
            None => None,
        };
        Answer::Search(Request { board, player, keep, nanos })
    }

    fn run_undo(&mut self, args: &Vec<Vec<char>>) -> (result: Answer)
        requires
            old(self)@.wf(),
        ensures
            (result@, final(self)@) == step_undo(old(self)@, texts(args@)),
            final(self)@.wf(),
    {
        if args.len() != 0 {
            return refuse("syntax error");
        }
        let ghost before = self.undo@;
        let ghost start = self@;
        assert(start.undo == board_views(before));
        assert(board_views(before).len() == before.len());
        match self.undo.pop() {
            None => refuse("cannot undo"),
            Some(popped) => {
                let mut board: Board = popped;
                proof {
                    assert(board_views(before).last() == popped@);
                    assert(board_views(self.undo@) =~= board_views(before).drop_last());
                    assert(start.undo[before.len() - 1].wf());
                    assert forall|i: int| 0 <= i < self@.undo.len() implies (
                    #[trigger] self@.undo[i]).wf() by {
                        assert(start.undo[i].wf());
                    }
                }
                let accepted: bool = board.set_komi(self.board.komi());
                self.board = board;
                nothing()
            },
        }
    }

    fn run_score(&self, args: &Vec<Vec<char>>, last: bool) -> (result: Answer)
        requires
            self@.wf(),
        ensures
            (result@, self@) == step_score(self@, texts(args@), last),
    {
        if args.len() != 0 {
            return refuse("syntax error");
        }
        let analysis: Analysis = analyze(&self.board);
        assert(move_lists(analysis.unsettled@).len() == analysis.unsettled@.len());
        if last && (!self.board.is_finished() || analysis.unsettled.len() > 0
            || self.board.move_count() >= MAX_MOVES) {
            return refuse("cannot score");
        }
        let komi: i32 = self.board.komi();
        proof {
            lemma_score_bound(self@.board);
        }
        Answer::Done(score_text(analysis.score))
    }

    fn run_status(&self, args: &Vec<Vec<char>>) -> (result: Answer)
        requires
            self@.wf(),
        ensures
            (result@, self@) == step_status(self@, texts(args@)),
    {
        if args.len() != 1 {
            return refuse("syntax error");
        }
        assert(texts(args@)[0] == args@[0]@);
        let analysis: Analysis = analyze(&self.board);
        assert(move_lists(analysis.unsettled@).len() == analysis.unsettled@.len());
        if reads(&args[0], "dead") {
            Answer::Done(lines_of(&analysis.dead))
        } else if reads(&args[0], "unsettled") {
            Answer::Done(lines_of(&analysis.unsettled))
        } else {
            let alive: bool = reads(&args[0], "alive");
            let seki: bool = reads(&args[0], "seki");
            if alive || seki {
                if analysis.unsettled.len() > 0 {
                    refuse("cannot determine status")
                } else if alive {
                    Answer::Done(lines_of(&analysis.alive))
                } else {
                    Answer::Done(lines_of(&analysis.seki))
                }
            } else {
                refuse("invalid status")
            }
        }
    }

    fn run_time_settings(&mut self, args: &Vec<Vec<char>>) -> (result: Answer)
        requires
            old(self)@.wf(),
        ensures
            (result@, final(self)@) == step_time_settings(old(self)@, texts(args@)),
            final(self)@.wf(),
    {
        if args.len() != 3 {
            return refuse("syntax error");
        }
        assert(texts(args@)[0] == args@[0]@ && texts(args@)[1] == args@[1]@ && texts(args@)[2]
            == args@[2]@);
        match (integer(&args[0]), integer(&args[1]), integer(&args[2])) {
            (Some(main), Some(overtime), Some(stones)) => {
                self.settings = (main, overtime, stones);
                assert(self@.undo == old(self)@.undo);
                self.reset_clocks();
                nothing()
            },
            _ => refuse("invalid integer"),
        }
    }

    fn run_time_left(&mut self, args: &Vec<Vec<char>>) -> (result: Answer)
        requires
            old(self)@.wf(),
        ensures
            (result@, final(self)@) == step_time_left(old(self)@, texts(args@)),
            final(self)@.wf(),
    {
        if args.len() != 3 {
            return refuse("syntax error");
        }
        assert(texts(args@)[0] == args@[0]@ && texts(args@)[1] == args@[1]@ && texts(args@)[2]
            == args@[2]@);
        let player: Player = match color(&args[0]) {
            Some(player) => player,
            None => {
                return refuse("invalid color");
            },
        };
        match (integer(&args[1]), integer(&args[2])) {
            (Some(seconds), Some(stones)) => {
                assert(seconds * SECOND <= usize::MAX * SECOND) by (nonlinear_arith)
                    requires
                        seconds <= usize::MAX,
                ;
                let clock = Clock { remaining: seconds as u128 * SECOND, stones };
                let idle = Clock { remaining: 0, stones: 0 };
                let clocks: (Clock, Clock) = match self.clocks {
                    Some(clocks) => clocks,
                    None => (idle, idle),
                };
                match player {
                    Player::Black => {
                        self.clocks = Some((clock, clocks.1));
                    },
                    Player::White => {
                        self.clocks = Some((clocks.0, clock));
                    },
                }
                nothing()
            },
            _ => refuse("invalid integer"),
        }
    }

    fn is_untouched(&self) -> (result: bool)
        requires
            self@.wf(),
        ensures
            result == untouched(self@.board),
    {
        if self.board.move_count() != 0 {
            return false;
        }
        let cells: &[i8] = self.board.cells();
        let mut i: usize = 0;
        while i < cells.len()
            invariant
                cells@ == self@.board.cells,
                i <= cells@.len(),
                forall|j: int| 0 <= j < i ==> #[trigger] cells@[j] == 0,
            decreases cells@.len() - i,
        {
            if cells[i] != 0 {
                assert(self@.board.cells[i as int] != 0);
                return false;
            }
            i = i + 1;
        }
        true
    }

    fn place_handicap(&mut self, points: &Vec<Move>, reply: Vec<char>) -> (result: Answer)
        requires
            old(self)@.wf(),
        ensures
            (result@, final(self)@) == step_handicap(old(self)@, points@, reply@),
            final(self)@.wf(),
    {
        let mut stones: Vec<(Move, Player)> = Vec::new();
        let mut i: usize = 0;
        while i < points.len()
            invariant
                i <= points@.len(),
                stones@.len() == i,
                forall|j: int| 0 <= j < i ==> #[trigger] stones@[j] == (points@[j], Player::Black),
            decreases points@.len() - i,
        {
            stones.push((points[i], Player::Black));
            i = i + 1;
        }
        assert(stones@ =~= black_stones(points@));
        match Board::from_position(stones.as_slice(), Player::White) {
            None => refuse("invalid handicap"),
            Some(placed) => {
                let mut board: Board = placed;
                let accepted: bool = board.set_komi(self.board.komi());
                self.board = board;
                self.undo = Vec::new();
                assert(board_views(self.undo@) =~= Seq::<BoardView>::empty());
                Answer::Done(reply)
            },
        }
    }

    fn run_fixed_handicap(&mut self, args: &Vec<Vec<char>>) -> (result: Answer)
        requires
            old(self)@.wf(),
        ensures
            (result@, final(self)@) == step_fixed_handicap(old(self)@, texts(args@)),
            final(self)@.wf(),
    {
        if !self.is_untouched() {
            return refuse("board not empty");
        }
        if args.len() != 1 {
            return refuse("syntax error");
        }
        assert(texts(args@)[0] == args@[0]@);
        let count: usize = match integer(&args[0]) {
            Some(count) => count,
            None => {
                return refuse("invalid integer");
            },
        };
        if count < 2 || count > 5 {
            return refuse("invalid handicap");
        }
        let mut points: Vec<Move> = Vec::new();
        points.push(Move(40));
        points.push(Move(120));
        points.push(Move(116));
        points.push(Move(44));
        points.push(Move(80));
        points.truncate(count);
        assert(points@ =~= fixed_points(count as int));
        let reply: Vec<char> = vertex_line(&points);
        self.place_handicap(&points, reply)
    }

    fn run_free_handicap(&mut self, args: &Vec<Vec<char>>) -> (result: Answer)
        requires
            old(self)@.wf(),
        ensures
            (result@, final(self)@) == step_free_handicap(old(self)@, texts(args@)),
            final(self)@.wf(),
    {
        if !self.is_untouched() {
            return refuse("board not empty");
        }
        if args.len() < 2 || args.len() > 40 {
            return refuse("invalid handicap");
        }
        let ghost all = texts(args@);
        let mut points: Vec<Move> = Vec::new();
        let mut i: usize = 0;
        while i < args.len()
            invariant
                self@ == old(self)@,
                self@.wf(),
                untouched(self@.board),
                2 <= args@.len() <= 40,
                all == texts(args@),
                i <= args@.len(),
                points@.len() == i,
                forall|j: int|
                    0 <= j < i ==> move_in(#[trigger] all[j]) is Some && move_in(all[j])->0
                        != Move::pass_move() && points@[j] == move_in(all[j])->0,
            decreases args@.len() - i,
        {
            assert(all[i as int] == args@[i as int]@);
            match parse_chars(&args[i]) {
                Some(mv) => {
                    if mv == Move::pass() {
                        return refuse("invalid vertex");
                    }
                    points.push(mv);
                },
                None => {
                    return refuse("invalid vertex");
                },
            }
            i = i + 1;
        }
        assert(points@ =~= moves_in(all));
        let reply: Vec<char> = Vec::new();
        assert(reply@ =~= Seq::<char>::empty());
        self.place_handicap(&points, reply)
    }

    fn knows(name: &Vec<char>) -> (known: bool)
        ensures
            known == command_names().contains(name@),
    {
        let names: Vec<Vec<char>> = all_commands();
        let ghost all = texts(names@);
        let mut i: usize = 0;
        while i < names.len()
            invariant
                all == texts(names@),
                all == command_names(),
                i <= names@.len(),
                forall|j: int| 0 <= j < i ==> #[trigger] all[j] != name@,
            decreases names@.len() - i,
        {
            assert(all[i as int] == names@[i as int]@);
            if same_chars(name, &names[i]) {
                assert(all.contains(name@));
                return true;
            }
            i = i + 1;
        }
        assert(!command_names().contains(name@));
        false
    }

    /// Carries a command out as far as it needs no outside help.
    pub fn run_command(&mut self, command: &Vec<char>, args: &Vec<Vec<char>>) -> (result: Answer)
        requires
            old(self)@.wf(),
        ensures
            (result@, final(self)@) == step(old(self)@, command@, texts(args@)),
            final(self)@.wf(),
            result matches Answer::Search(request) ==> playable(request.board@),
    {
        let count: usize = args.len();
        assert(texts(args@).len() == count);
        assert(count == 1 ==> texts(args@)[0] == args@[0]@);
        if reads(command, "protocol_version") {
            if count == 0 {
                answer("2")
            } else {
                refuse("syntax error")
            }
        } else if reads(command, "name") {
            if count == 0 {
                answer("Go19")
            } else {
                refuse("syntax error")
            }
        } else if reads(command, "version") {
            if count == 0 {
                Answer::Done(copy_chars(&self.version))
            } else {
                refuse("syntax error")
            }
        } else if reads(command, "known_command") {
            if count == 1 {
                if Engine::knows(&args[0]) {
                    answer("true")
                } else {
                    answer("false")
                }
            } else {
                refuse("syntax error")
            }
        } else if reads(command, "list_commands") {
            if count == 0 {
                let names: Vec<Vec<char>> = all_commands();
                Answer::Done(join(&names, '\n'))
            } else {
                refuse("syntax error")
            }
        } else if reads(command, "quit") {
            if count == 0 {
                nothing()
            } else {
                refuse("syntax error")
            }
        } else if reads(command, "boardsize") {
            if count != 1 {
                return refuse("syntax error");
            }
            match integer(&args[0]) {
                None => refuse("invalid integer"),
                Some(size) => if size != BOARD_SIZE {
                    refuse("unacceptable size")
                } else {
                    self.clear();
                    nothing()
                },
            }
        } else if reads(command, "clear_board") {
            if count != 0 {
                return refuse("syntax error");
            }
            self.clear();
            nothing()
        } else if reads(command, "komi") {
            if count != 1 {
                refuse("syntax error")
            } else {
                Answer::Komi(copy_chars(&args[0]))
            }
        } else if reads(command, "play") {
            self.run_play(args)
        } else if reads(command, "genmove") {
            self.run_genmove(args, true)
        } else if reads(command, "reg_genmove") {
            self.run_genmove(args, false)
        } else if reads(command, "undo") {
            self.run_undo(args)
        } else if reads(command, "showboard") {
            if count != 0 {
                return refuse("syntax error");
            }
            let mut text: Vec<char> = Vec::new();
            text.push('\n');
            let board: Vec<char> = self.board.draw();
            append_chars(&mut text, &board);
            assert(text@ =~= seq!['\n'] + drawing(self@.board.cells));
            Answer::Done(trim_end(&text))
        } else if reads(command, "final_score") {
            self.run_score(args, true)
        } else if reads(command, "estimate_score") {
            self.run_score(args, false)
        } else if reads(command, "final_status_list") {
            self.run_status(args)
        } else if reads(command, "time_settings") {
            self.run_time_settings(args)
        } else if reads(command, "time_left") {
            self.run_time_left(args)
        } else if reads(command, "fixed_handicap") {
            self.run_fixed_handicap(args)
        } else if reads(command, "set_free_handicap") {
            self.run_free_handicap(args)
        } else {
            refuse("unknown command")
        }
    }

    /// Carries a command out that is given as strings.
    pub fn command(&mut self, command: &str, args: &[&str]) -> (result: Answer)
        requires
            old(self)@.wf(),
        ensures
            (result@, final(self)@) == step(
                old(self)@,
                command@,
                args@.map_values(|arg: &str| arg@),
            ),
            final(self)@.wf(),
            result matches Answer::Search(request) ==> playable(request.board@),
    {
        let name: Vec<char> = chars_of(command);
        let mut list: Vec<Vec<char>> = Vec::new();
        let mut i: usize = 0;
        while i < args.len()
            invariant
                i <= args@.len(),
                list@.len() == i,
                forall|j: int| 0 <= j < i ==> (#[trigger] list@[j])@ == args@[j]@,
            decreases args@.len() - i,
        {
            list.push(chars_of(args[i]));
            i = i + 1;
        }
        assert(texts(list@) =~= args@.map_values(|arg: &str| arg@));
        self.run_command(&name, &list)
    }

    /// Goes on with the komi that a command gave, in thousandths of a point;
    /// `None` if its text is no number that a komi can be.
    pub fn finish_komi(&mut self, milli: Option<i32>) -> (result: Answer)
        requires
            old(self)@.wf(),
        ensures
            (result@, final(self)@) == komi_read(old(self)@, milli),
            final(self)@.wf(),
    {
        match milli {
            Some(komi) => if self.board.set_komi(komi) {
                nothing()
            } else {
                refuse("invalid komi")
            },
            None => refuse("invalid komi"),
        }
    }

    /// Goes on with the move that a search chose and the time it took.
    pub fn finish_search(&mut self, request: Request, mv: Move, elapsed: u128) -> (result: Answer)
        requires
            old(self)@.wf(),
            playable(request.board@),
        ensures
            (result@, final(self)@) == move_found(
                old(self)@,
                request.board@,
                request.player,
                request.keep,
                mv,
                elapsed,
            ),
            final(self)@.wf(),
    {
        if request.keep {
            let mut board: Board = request.board;
            if !board.play(mv) {
                return refuse("cannot generate move");
            }
            self.advance(board);
            self.consume_time(request.player, elapsed);
        }
        if mv == Move::pass() {
            answer("pass")
        } else {
            Answer::Done(vertex(mv))
        }
    }
}

/// A score is a whole number of thousandths that fits.
proof fn lemma_score_bound(board: BoardView)
    requires
        board.wf(),
    ensures
        -361_000 - board.komi_milli <= settled_score(board) <= 361_000 - board.komi_milli,
{
    let rest = crate::scoring::without_dead(board);
    assert forall|p: int| 0 <= p < CELL_COUNT implies -1 <= #[trigger] rest[p] <= 1 by {
        assert(-1 <= board.cells[p] <= 1);
    }
    crate::scoring::lemma_area_bound(rest, CELL_COUNT as nat);
}

/// The line without control characters other than the tab.
pub open spec fn cleaned(line: Seq<char>) -> Seq<char>
    decreases line.len(),
{
    if line.len() == 0 {
        Seq::empty()
    } else {
        let before = cleaned(line.drop_last());
        if line.last() == '\t' || !control_char(line.last()) {
            before.push(line.last())
        } else {
            before
        }
    }
}

/// The words of a line before a comment.
pub open spec fn line_words(line: Seq<char>) -> Seq<Seq<char>> {
    let clean = cleaned(line);
    words(clean.take(length_before(clean, '#') as int))
}

/// A line as its number, if it has one, its command and its arguments.
pub open spec fn line_parts(line: Seq<char>) -> Option<(Seq<char>, Seq<char>, Seq<Seq<char>>)> {
    let w = line_words(line);
    if w.len() == 0 {
        None
    } else if all_digits(w[0]) {
        if w.len() == 1 {
            Some((w[0], Seq::empty(), Seq::empty()))
        } else {
            Some((w[0], w[1], w.skip(2)))
        }
    } else {
        Some((Seq::empty(), w[0], w.skip(1)))
    }
}

/// A line of the protocol.
pub struct Line {
    pub id: Vec<char>,
    pub command: Vec<char>,
    pub args: Vec<Vec<char>>,
}

/// Reads a line; `None` if it holds no command.
pub fn parse_line(line: &str) -> (result: Option<Line>)
    ensures
        match line_parts(line@) {
            None => result is None,
            Some(parts) => {
                &&& result is Some
                &&& result->0.id@ == parts.0
                &&& result->0.command@ == parts.1
                &&& texts(result->0.args@) == parts.2
            },
        },
{
    let chars: Vec<char> = chars_of(line);
    let mut clean: Vec<char> = Vec::new();
    let mut i: usize = 0;
    assert(chars@.take(0) =~= Seq::<char>::empty());
    while i < chars.len()
        invariant
            i <= chars@.len(),
            clean@ == cleaned(chars@.take(i as int)),
        decreases chars@.len() - i,
    {
        let c: char = chars[i];
        proof {
            let more = chars@.take(i + 1);
            assert(more.drop_last() =~= chars@.take(i as int));
            assert(more.last() == c);
        }
        if c == '\t' || !is_control(c) {
            clean.push(c);
        }
        i = i + 1;
    }
    assert(chars@.take(chars@.len() as int) =~= chars@);
    let n: usize = count_before(&clean, '#');
    let body: Vec<char> = part(&clean, 0, n);
    assert(clean@.subrange(0, n as int) =~= clean@.take(n as int));
    let list: Vec<Vec<char>> = split_words(&body);
    let ghost w = line_words(line@);
    assert(texts(list@) == w);
    assert(w.len() == list@.len());
    if list.len() == 0 {
        return None;
    }
    assert(w[0] == list@[0]@);
    if numeric(&list[0]) {
        let id: Vec<char> = copy_chars(&list[0]);
        if list.len() == 1 {
            let command: Vec<char> = Vec::new();
            let args: Vec<Vec<char>> = Vec::new();
            assert(command@ =~= Seq::<char>::empty());
            assert(texts(args@) =~= Seq::<Seq<char>>::empty());
            return Some(Line { id, command, args });
        }
        assert(w[1] == list@[1]@);
        let command: Vec<char> = copy_chars(&list[1]);
        let args: Vec<Vec<char>> = rest_of(&list, 2);
        Some(Line { id, command, args })
    } else {
        let id: Vec<char> = Vec::new();
        assert(id@ =~= Seq::<char>::empty());
        let command: Vec<char> = copy_chars(&list[0]);
        let args: Vec<Vec<char>> = rest_of(&list, 1);
        Some(Line { id, command, args })
    }
}

fn numeric(text: &Vec<char>) -> (result: bool)
    ensures
        result == all_digits(text@),
{
    let mut i: usize = 0;
    while i < text.len()
        invariant
            i <= text@.len(),
            forall|j: int| 0 <= j < i ==> digit_char(#[trigger] text@[j]),
        decreases text@.len() - i,
    {
        if !('0' <= text[i] && text[i] <= '9') {
            assert(!digit_char(text@[i as int]));
            return false;
        }
        i = i + 1;
    }
    true
}

fn rest_of(list: &Vec<Vec<char>>, from: usize) -> (result: Vec<Vec<char>>)
    requires
        from <= list@.len(),
    ensures
        texts(result@) == texts(list@).skip(from as int),
{
    let mut result: Vec<Vec<char>> = Vec::new();
    let mut i: usize = from;
    while i < list.len()
        invariant
            from <= i <= list@.len(),
            result@.len() == i - from,
            forall|j: int| 0 <= j < i - from ==> (#[trigger] result@[j])@ == list@[from + j]@,
        decreases list@.len() - i,
    {
        result.push(copy_chars(&list[i]));
        i = i + 1;
    }
    assert(texts(result@) =~= texts(list@).skip(from as int));
    result
}

/// The response to a line: `=` or `?`, the line's number, the text, and an
/// empty line.
pub open spec fn framed(id: Seq<char>, accepted: bool, text: Seq<char>) -> Seq<char> {
    if accepted {
        if text.len() == 0 {
            seq!['='] + id + seq!['\n', '\n']
        } else {
            seq!['='] + id + seq![' '] + text + seq!['\n', '\n']
        }
    } else {
        seq!['?'] + id + seq![' '] + text + seq!['\n', '\n']
    }
}

/// Frames a response.
pub fn respond(id: &Vec<char>, accepted: bool, text: &Vec<char>) -> (result: String)
    ensures
        result@ == framed(id@, accepted, text@),
{
    let mut result: Vec<char> = Vec::new();
    result.push(if accepted {
        '='
    } else {
        '?'
    });
    append_chars(&mut result, id);
    if !accepted || text.len() > 0 {
        result.push(' ');
        append_chars(&mut result, text);
    }
    result.push('\n');
    result.push('\n');
    assert(result@ =~= framed(id@, accepted, text@));
    string_of(&result)
}

/// The session is over after the command.
pub open spec fn session_over(command: Seq<char>, accepted: bool) -> bool {
    accepted && command == "quit"@
}

/// Whether the session is over after the command.
pub fn ends_session(command: &Vec<char>, accepted: bool) -> (result: bool)
    ensures
        result == session_over(command@, accepted),
{
    accepted && reads(command, "quit")
}

/// A refused command changes nothing.
pub proof fn law_refusal_changes_nothing(e: EngineView, command: Seq<char>, args: Seq<Seq<char>>)
    ensures
        step(e, command, args).0 is Refused ==> step(e, command, args).1 == e,
{
}

/// A komi or a search that is still to come has changed nothing yet.
pub proof fn law_pending_changes_nothing(e: EngineView, command: Seq<char>, args: Seq<Seq<char>>)
    ensures
        step(e, command, args).0 is Komi || step(e, command, args).0 is Search ==> step(
            e,
            command,
            args,
        ).1 == e,
{
}

/// A move that is generated for regression only is not played.
pub proof fn law_regression_changes_nothing(
    e: EngineView,
    board: BoardView,
    player: Player,
    mv: Move,
    elapsed: u128,
)
    ensures
        move_found(e, board, player, false, mv, elapsed).1 == e,
        move_found(e, board, player, false, mv, elapsed).0 is Done,
{
}

/// Undoing an accepted play gives back the engine as it was, board, history
/// and undo list.
pub proof fn law_undo_takes_back_a_play(e: EngineView, args: Seq<Seq<char>>)
    requires
        e.wf(),
        step_play(e, args).0 is Done,
    ensures
        step_undo(step_play(e, args).1, Seq::empty()).1 == e,
        step_undo(step_play(e, args).1, Seq::empty()).0 is Done,
{
    let after = step_play(e, args).1;
    assert(after.undo.drop_last() =~= e.undo);
    let back = step_undo(after, Seq::empty()).1;
    assert(back.board =~= e.board);
    assert(back =~= e);
}

/// Undoing keeps the komi that was set meanwhile.
pub proof fn law_undo_keeps_the_komi(e: EngineView, args: Seq<Seq<char>>)
    requires
        e.wf(),
    ensures
        step_undo(e, args).1.board.komi_milli == e.board.komi_milli,
{
}

/// No final score is claimed while a chain is unsettled, or before the game is
/// over, or of an aborted game.
pub proof fn law_final_score_needs_a_settled_game(e: EngineView, args: Seq<Seq<char>>)
    requires
        !e.board.finished() || e.board.moves >= MAX_MOVES || with_status(
            e.board,
            Status::Unsettled,
            chain_list(e.board.cells).len(),
        ).len() > 0,
    ensures
        step_score(e, args, true).0 is Refused,
{
}

/// A command that is not listed is refused; a listed one is known.
pub proof fn law_unknown_commands_are_refused(
    e: EngineView,
    command: Seq<char>,
    args: Seq<Seq<char>>,
)
    requires
        !command_names().contains(command),
    ensures
        step(e, command, args) == refused(e, "unknown command"@),
{
    let names = command_names();
    assert(names[0] == "protocol_version"@);
    assert(names[1] == "name"@);
    assert(names[2] == "version"@);
    assert(names[3] == "known_command"@);
    assert(names[4] == "list_commands"@);
    assert(names[5] == "quit"@);
    assert(names[6] == "boardsize"@);
    assert(names[7] == "clear_board"@);
    assert(names[8] == "komi"@);
    assert(names[9] == "play"@);
    assert(names[10] == "genmove"@);
    assert(names[11] == "reg_genmove"@);
    assert(names[12] == "undo"@);
    assert(names[13] == "showboard"@);
    assert(names[14] == "final_score"@);
    assert(names[15] == "final_status_list"@);
    assert(names[16] == "estimate_score"@);
    assert(names[17] == "time_settings"@);
    assert(names[18] == "time_left"@);
    assert(names[19] == "fixed_handicap"@);
    assert(names[20] == "set_free_handicap"@);
}

/// Overtime is renewed when its stones are played or the main time is up.
pub proof fn law_overtime_is_renewed(clock: Clock, elapsed: int, settings: (usize, usize, usize))
    requires
        settings.1 > 0,
        0 <= elapsed,
        clock.stones == 1 || (clock.stones == 0 && clock.remaining <= elapsed),
    ensures
        clock_after(clock, elapsed, settings).stones == settings.2,
        clock_after(clock, elapsed, settings).remaining == settings.1 * SECOND,
{
    let seconds = settings.1;
    assert(0 <= seconds * SECOND <= u128::MAX) by (nonlinear_arith)
        requires
            seconds <= usize::MAX,
    ;
}

} // verus!
