//! What a tournament manager can rely on: what its lines do to the session,
//! and what the answers say.
use crate::game::{
    all_breathe, distinct_points, laid_out, law_a_stone_changes_only_captures, Move, Player,
};
use crate::gomocup::{
    board_of, board_read, coordinate_in, count_of, emptied, entry_in, found, last_stone,
    line_halves, next_player, own_entries, rect_supported, search_ms, size_in, step, step_info,
    step_takeback, step_turn, stones_of, thinking, turn_budget, turns_to_come, BudgetError,
    ReactionView, SessionView, UNNAMED_COLUMN,
};
use crate::grid::{BOARD_SIZE, CELL_COUNT};
use crate::scoring::outcome_of;
use crate::text::{
    decimal, digit_char, fields, law_a_mark_splits_text, law_decimals_are_read_as_numbers,
    law_trimming_takes_white_space, law_white_space_splits_text, lower_char, lowered, number_of,
    space_char, trimmed, uppered,
};
use vstd::prelude::*;

verus! {

/// The turns that are planned for are all that the side to move can still have
/// on the empty points, or twenty if these are more.
pub proof fn law_turns_are_planned_for(move_count: int)
    requires
        0 <= move_count <= 361,
    ensures
        1 <= turns_to_come(move_count) <= 20,
        turns_to_come(move_count) < 20 ==> 2 * turns_to_come(move_count) >= 361 - move_count,
        turns_to_come(move_count) > 1 ==> 2 * turns_to_come(move_count) <= 361 - move_count + 1,
{
}

/// If every turn that is planned for takes its budget, a tenth of a second of
/// the match is left over, and no more could be given to each; only a match
/// that is almost over is given a millisecond a turn. Without a limit on the
/// match the whole turn is given.
pub proof fn law_turns_share_the_match(turn_ms: u64, left_ms: u64, move_count: int)
    requires
        0 <= move_count <= 361,
        turn_ms > 0,
        left_ms > 0,
    ensures
        turn_budget(turn_ms, None, move_count) == Ok::<int, BudgetError>(
            turn_ms as int,
        ),
        turn_budget(turn_ms, Some(left_ms), move_count) matches Ok(ms) && {
            &&& ms <= turn_ms
            &&& ms == 1 || ms * turns_to_come(move_count) <= left_ms - 100
            &&& ms == turn_ms || (ms + 1) * turns_to_come(move_count) > left_ms - 100
        },
{
    let turns = turns_to_come(move_count);
    let spare: int = if left_ms > 101 {
        left_ms - 100
    } else {
        1
    };
    let share = spare / turns;
    assert(share * turns <= spare && (share + 1) * turns > spare) by (nonlinear_arith)
        requires
            turns >= 1,
            spare >= 1,
            share == spare / turns,
    ;
    let fair = if share < 1 {
        1
    } else {
        share
    };
    assert((fair + 1) * turns >= (share + 1) * turns) by (nonlinear_arith)
        requires
            fair >= share,
            turns >= 1,
    ;
    if turn_ms < fair {
        assert(turn_ms * turns <= share * turns) by (nonlinear_arith)
            requires
                turn_ms < fair,
                fair == share || fair == 1,
                turn_ms > 0,
                turns >= 1,
        ;
    }
}

/// The search is given less than the budget, by five milliseconds at least and
/// a hundred at most, unless nothing would be left.
pub proof fn law_searches_end_before_the_budget(budget: int)
    requires
        budget >= 1,
    ensures
        1 <= search_ms(budget) <= budget,
        budget > 5 ==> 5 <= budget - search_ms(budget) <= 100,
        search_ms(budget) <= search_ms(budget + 1),
        100 <= budget <= 2000 ==> (budget - search_ms(budget)) * 20 <= budget < (budget
            - search_ms(budget) + 1) * 20,
{
}

/// A move is searched if and only if the rule is supported, the game goes on
/// and there is time, and for no longer than a turn.
pub proof fn law_a_move_is_searched_while_the_game_goes_on(s: SessionView)
    ensures
        thinking(s) is Think <==> s.rule is None && outcome_of(s.board) is None && s.turn_ms > 0
            && s.left_ms != Some(0u64),
        thinking(s) matches ReactionView::Think(ms) ==> 1 <= ms <= s.turn_ms,
        thinking(s) is Fail <==> s.rule is None && outcome_of(s.board) is None && (s.turn_ms == 0
            || s.left_ms == Some(0u64)),
        !(thinking(s) is Quiet),
        !(thinking(s) is Stop),
{
    let played = if s.board.moves > CELL_COUNT {
        361
    } else {
        s.board.moves as int
    };
    crate::gomocup::law_budget_respects_limits(s.turn_ms, s.left_ms, played);
    if let Ok(ms) = turn_budget(s.turn_ms, s.left_ms, played) {
        law_searches_end_before_the_budget(ms);
    }
}

/// Column, comma, row.
pub open spec fn pair_text(col: nat, row: nat) -> Seq<char> {
    decimal(col) + seq![','] + decimal(row)
}

/// A pair of numbers names the point in that column and row, counted from
/// zero, if it is on the board and not in the column without a name.
pub proof fn law_coordinates_name_points(col: nat, row: nat)
    ensures
        coordinate_in(pair_text(col, row)) == (if col < BOARD_SIZE && row < BOARD_SIZE && col
            != UNNAMED_COLUMN {
            Some(Move((row * 19 + col) as usize))
        } else {
            None::<Move>
        }),
{
    let (x, y) = (decimal(col), decimal(row));
    law_decimals_are_read_as_numbers(col, usize::MAX as nat);
    law_decimals_are_read_as_numbers(row, usize::MAX as nat);
    assert(pair_text(col, row) =~= x.push(',') + y);
    law_a_mark_splits_text(x, ',', y);
    assert(size_in(x) == (if col <= usize::MAX {
        Some(col)
    } else {
        None::<nat>
    }));
}

/// The text of an answer names the move that was found, which is on the board
/// for the side that was to move, with the other side to move next.
pub proof fn law_answers_name_the_move_played(s: SessionView, mv: Move)
    requires
        s.board.wf(),
        mv.0 < CELL_COUNT,
        s.board.legal(mv),
    ensures
        ({
            let (reply, after) = found(s, Some(mv));
            &&& reply matches ReactionView::Say(text) && (mv.0 as int % 19 != UNNAMED_COLUMN
                ==> coordinate_in(text) == Some(mv)) && text == pair_text(
                (mv.0 as int % 19) as nat,
                (mv.0 as int / 19) as nat,
            )
            &&& after.board.cells[mv.0 as int] == s.board.to_move.mark()
            &&& after.board.to_move == s.board.to_move.opponent()
            &&& after.stones == s.stones.push((mv, s.board.to_move))
            &&& after.turn_ms == s.turn_ms && after.left_ms == s.left_ms && after.rule == s.rule
        }),
{
    law_a_stone_changes_only_captures(s.board, mv, mv.0);
    law_coordinates_name_points((mv.0 as int % 19) as nat, (mv.0 as int / 19) as nat);
}

/// A game in which the players took turns, Black first.
pub open spec fn in_turns(stones: Seq<(Move, Player)>) -> bool {
    forall|i: int|
        0 <= i < stones.len() ==> (#[trigger] stones[i]).1 == (if i % 2 == 0 {
            Player::Black
        } else {
            Player::White
        })
}

proof fn lemma_counts(stones: Seq<(Move, Player)>)
    ensures
        count_of(stones, Player::Black) + count_of(stones, Player::White) == stones.len(),
        in_turns(stones) ==> count_of(stones, Player::Black) == (stones.len() + 1) / 2,
    decreases stones.len(),
{
    if stones.len() > 0 {
        let before = stones.drop_last();
        lemma_counts(before);
        if in_turns(stones) {
            assert(stones[stones.len() - 1] == stones.last());
            assert forall|i: int| 0 <= i < before.len() implies (#[trigger] before[i]).1 == (if i
                % 2 == 0 {
                Player::Black
            } else {
                Player::White
            }) by {
                assert(stones[i] == before[i]);
            }
        }
    }
}

/// After stones in turns Black moves if their number is even, and White if it
/// is odd. Whose turn it is does not depend on the order of the stones, and a
/// stone of that side passes the turn on.
pub proof fn law_turns_alternate(stones: Seq<(Move, Player)>, mv: Move)
    ensures
        in_turns(stones) ==> next_player(stones) == Some(
            if stones.len() % 2 == 0 {
                Player::Black
            } else {
                Player::White
            },
        ),
        next_player(stones) matches Some(player) ==> next_player(stones.push((mv, player)))
            == Some(player.opponent()),
        next_player(stones) matches Some(player) ==> (player == Player::Black <==> stones.len() % 2
            == 0),
{
    lemma_counts(stones);
    if let Some(player) = next_player(stones) {
        let more = stones.push((mv, player));
        assert(more.drop_last() =~= stones);
        assert(more.last().1 == player);
    }
}

pub proof fn lemma_laid(stones: Seq<(Move, Player)>, i: int, p: usize)
    requires
        distinct_points(stones),
        p < CELL_COUNT,
    ensures
        laid_out(stones).len() == CELL_COUNT,
        0 <= i < stones.len() ==> laid_out(stones)[stones[i].0.0 as int] == stones[i].1.mark(),
        (forall|j: int| 0 <= j < stones.len() ==> (#[trigger] stones[j]).0.0 != p) ==> laid_out(
            stones,
        )[p as int] == 0,
    decreases stones.len(),
{
    if stones.len() > 0 {
        let before = stones.drop_last();
        assert forall|j: int| 0 <= j < before.len() implies (#[trigger] before[j]).0.0
            < CELL_COUNT by {
            assert(stones[j] == before[j]);
        }
        assert forall|a: int, b: int| 0 <= a < b < before.len() implies (#[trigger] before[a]).0.0
            != (#[trigger] before[b]).0.0 by {
            assert(stones[a] == before[a] && stones[b] == before[b]);
        }
        lemma_laid(before, i, p);
        assert(stones[stones.len() - 1] == stones.last());
        if 0 <= i < before.len() {
            assert(stones[i] == before[i]);
        }
        if forall|j: int| 0 <= j < stones.len() ==> (#[trigger] stones[j]).0.0 != p {
            assert forall|j: int| 0 <= j < before.len() implies (#[trigger] before[j]).0.0 != p by {
                assert(stones[j] == before[j]);
            }
        }
    }
}

/// A board that is set up holds the stones and nothing else, and the side
/// whose turn it is moves.
pub proof fn law_boards_hold_their_stones(stones: Seq<(Move, Player)>, i: int, p: usize)
    requires
        p < CELL_COUNT,
    ensures
        board_of(stones) matches Some(board) ==> {
            &&& 0 <= i < stones.len() ==> board.cells[stones[i].0.0 as int] == stones[i].1.mark()
            &&& (forall|j: int| 0 <= j < stones.len() ==> (#[trigger] stones[j]).0.0 != p)
                ==> board.cells[p as int] == 0
            &&& board.to_move == (if stones.len() % 2 == 0 {
                Player::Black
            } else {
                Player::White
            })
            &&& board.passes == 0
        },
{
    if let Some(board) = board_of(stones) {
        lemma_laid(stones, i, p);
        lemma_counts(stones);
    }
}

proof fn lemma_own(entries: Seq<(Move, u8)>, own: Player)
    requires
        forall|i: int| 0 <= i < entries.len() ==> (#[trigger] entries[i]).1 == 1 || entries[i].1 == 2,
    ensures
        own_entries(entries) == count_of(stones_of(entries, own), own),
    decreases entries.len(),
{
    let stones = stones_of(entries, own);
    if entries.len() > 0 {
        let before = entries.drop_last();
        assert forall|i: int| 0 <= i < before.len() implies (#[trigger] before[i]).1 == 1
            || before[i].1 == 2 by {
            assert(entries[i] == before[i]);
        }
        lemma_own(before, own);
        assert(stones.drop_last() =~= stones_of(before, own));
        assert(entries[entries.len() - 1] == entries.last());
        assert(stones.last() == stones[stones.len() - 1]);
    }
}

/// A board that was read has the own stones, told by a 1, in the color of the
/// side that moves, and the others in the other color; a board that cannot be
/// is refused and leaves the session as it was.
pub proof fn law_own_stones_are_those_of_the_side_to_move(
    s: SessionView,
    entries: Seq<(Move, u8)>,
    wrong: bool,
    i: int,
)
    requires
        forall|j: int| 0 <= j < entries.len() ==> (#[trigger] entries[j]).1 == 1 || entries[j].1 == 2,
        0 <= i < entries.len(),
    ensures
        ({
            let (reply, after) = board_read(s, entries, wrong);
            &&& after.entries is None
            &&& after.stones == s.stones || after.stones.len() == entries.len()
            &&& reply == ReactionView::Say("ERROR invalid board"@) || {
                &&& !wrong
                &&& after.board.cells[entries[i].0.0 as int] == (if entries[i].1 == 1 {
                    after.board.to_move
                } else {
                    after.board.to_move.opponent()
                }).mark()
                &&& reply == thinking(after)
            }
            &&& wrong ==> reply == ReactionView::Say("ERROR invalid board"@) && after.board
                == s.board && after.stones == s.stones
        }),
{
    let (reply, after) = board_read(s, entries, wrong);
    let own = own_entries(entries) as int;
    let other = entries.len() - own;
    let player = if own == other {
        Player::Black
    } else {
        Player::White
    };
    let stones = stones_of(entries, player);
    if !(wrong || (own != other && other != own + 1)) {
        lemma_own(entries, player);
        lemma_counts(stones);
        if let Some(board) = board_of(stones) {
            law_boards_hold_their_stones(stones, i, 0);
            assert(stones[i].0 == entries[i].0);
            assert(board.to_move == player);
        }
    }
}

proof fn lemma_three_fields(x: Seq<char>, y: Seq<char>, z: Seq<char>)
    requires
        !x.contains(','),
        !y.contains(','),
        !z.contains(','),
    ensures
        fields(x + seq![','] + y + seq![','] + z, ',') == seq![x, y, z],
{
    let rest = y.push(',') + z;
    assert(x + seq![','] + y + seq![','] + z =~= x.push(',') + rest);
    assert(fields(x.push(',') + rest, ',') == seq![x] + fields(rest, ',')) by {
        law_a_mark_splits_text(x, ',', rest);
    }
    assert(fields(rest, ',') == seq![y] + fields(z, ',')) by {
        law_a_mark_splits_text(y, ',', z);
    }
    assert(fields(z, ',') == seq![z]) by {
        law_a_mark_splits_text(z, ',', z);
    }
    assert(seq![x] + (seq![y] + seq![z]) =~= seq![x, y, z]);
}

proof fn lemma_sizes(n: nat)
    ensures
        size_in(decimal(n)) == (if n <= usize::MAX {
            Some(n)
        } else {
            None::<nat>
        }),
        !decimal(n).contains(','),
{
    law_decimals_are_read_as_numbers(n, usize::MAX as nat);
}

/// A board entry is column, row and side, each a number.
pub proof fn law_entries_name_stones(col: nat, row: nat, side: nat)
    ensures
        entry_in(pair_text(col, row) + seq![','] + decimal(side)) == (if col < BOARD_SIZE && row
            < BOARD_SIZE && (side == 1 || side == 2) {
            Some((Move((row * 19 + col) as usize), side as u8))
        } else {
            None::<(Move, u8)>
        }),
{
    let (x, y, z) = (decimal(col), decimal(row), decimal(side));
    lemma_sizes(col);
    lemma_sizes(row);
    assert(number_of(trimmed(z), 255) == (if side <= 255 {
        Some(side)
    } else {
        None::<nat>
    }) && !z.contains(',')) by {
        law_decimals_are_read_as_numbers(side, 255);
    }
    lemma_three_fields(x, y, z);
}

/// Taking back the last stone gives the stones before it, and the board they
/// make.
pub proof fn law_takeback_undoes_the_last_stone(
    s: SessionView,
    argument: Seq<char>,
    mv: Move,
    player: Player,
)
    requires
        coordinate_in(argument) == Some(mv),
    ensures
        ({
            let played = SessionView { stones: s.stones.push((mv, player)), ..s };
            let (reply, after) = step_takeback(played, argument);
            &&& after.stones == s.stones
            &&& board_of(s.stones) matches Some(board) ==> after.board == board && reply
                == ReactionView::Say("OK"@)
            &&& board_of(s.stones) is None ==> after.board == s.board && reply != ReactionView::Say(
                "OK"@,
            )
        }),
{
    let played = s.stones.push((mv, player));
    assert(played.last().0 == mv);
    assert(last_stone(played, mv) == Some(s.stones.len()));
    assert(played.remove(s.stones.len() as int) =~= s.stones);
    reveal_strlit("OK");
    reveal_strlit("ERROR invalid takeback");
    assert("OK"@.len() == 2 && "ERROR invalid takeback"@.len() > 2);
}

/// A stone that is taken back stood on the point, and no later one does; where
/// none does, nothing changes.
pub proof fn law_takeback_finds_the_last_stone_there(stones: Seq<(Move, Player)>, mv: Move)
    ensures
        match last_stone(stones, mv) {
            Some(place) => {
                &&& place < stones.len()
                &&& stones[place as int].0 == mv
                &&& forall|j: int| place < j < stones.len() ==> (#[trigger] stones[j]).0 != mv
            },
            None => forall|j: int| 0 <= j < stones.len() ==> (#[trigger] stones[j]).0 != mv,
        },
    decreases stones.len(),
{
    if stones.len() > 0 && stones.last().0 != mv {
        let before = stones.drop_last();
        law_takeback_finds_the_last_stone_there(before, mv);
        assert forall|j: int| 0 <= j < before.len() implies #[trigger] stones[j] == before[j] by {}
        assert(stones[stones.len() - 1] == stones.last());
        match last_stone(before, mv) {
            Some(place) => {
                assert forall|j: int| place < j < stones.len() implies (#[trigger] stones[j]).0
                    != mv by {
                    if j < before.len() {
                        assert(before[j].0 != mv);
                    }
                }
            },
            None => {
                assert forall|j: int| 0 <= j < stones.len() implies (#[trigger] stones[j]).0
                    != mv by {
                    if j < before.len() {
                        assert(before[j].0 != mv);
                    }
                }
            },
        }
    }
}

/// Information sets the one limit that it names to the number that it gives,
/// and nothing else; a limit of another name changes nothing.
pub proof fn law_information_sets_what_it_names(s: SessionView, key: Seq<char>, n: nat)
    requires
        forall|i: int| 0 <= i < key.len() ==> !space_char(#[trigger] key[i]),
    ensures
        ({
            let after = step_info(s, key.push(' ') + decimal(n));
            let name = lowered(key);
            &&& after.board == s.board && after.stones == s.stones && after.entries == s.entries
            &&& name == "timeout_turn"@ && n <= u64::MAX ==> after.turn_ms == n
            &&& name != "timeout_turn"@ ==> after.turn_ms == s.turn_ms
            &&& name == "time_left"@ && n <= i64::MAX ==> after.left_ms == Some(n as u64)
            &&& name != "time_left"@ ==> after.left_ms == s.left_ms
            &&& name == "rule"@ && 0 < n <= u32::MAX ==> after.rule == Some(n as u32)
            &&& name == "rule"@ && n == 0 ==> after.rule is None
            &&& name != "rule"@ ==> after.rule == s.rule
        }),
{
    law_white_space_splits_text(key, ' ', decimal(n));
    law_decimals_are_read_as_numbers(n, u64::MAX as nat);
    law_decimals_are_read_as_numbers(n, 0x7fff_ffff_ffff_ffff);
    law_decimals_are_read_as_numbers(n, u32::MAX as nat);
    assert(digit_char(decimal(n)[0]));
    reveal_strlit("timeout_turn");
    reveal_strlit("time_left");
    reveal_strlit("rule");
    assert("timeout_turn"@.len() == 12 && "time_left"@.len() == 9 && "rule"@.len() == 4);
}

/// The end of a match cannot be below zero: a negative time left is none.
pub proof fn law_no_time_left_is_below_zero(s: SessionView, key: Seq<char>, n: nat)
    requires
        forall|i: int| 0 <= i < key.len() ==> !space_char(#[trigger] key[i]),
        lowered(key) == "time_left"@,
        n <= i64::MAX,
    ensures
        step_info(s, key.push(' ') + (seq!['-'] + decimal(n))).left_ms == Some(0u64),
{
    let value = seq!['-'] + decimal(n);
    law_white_space_splits_text(key, ' ', value);
    law_decimals_are_read_as_numbers(n, 0x8000_0000_0000_0000);
    assert(value[0] == '-');
    assert(value.last() == decimal(n).last());
    assert(digit_char(decimal(n)[0]));
    law_trimming_takes_white_space(Seq::empty(), value, Seq::empty());
    assert(Seq::<char>::empty() + value + Seq::<char>::empty() =~= value);
    assert(value.skip(1) =~= decimal(n));
    reveal_strlit("timeout_turn");
    reveal_strlit("time_left");
    assert("timeout_turn"@.len() == 12 && "time_left"@.len() == 9);
}

/// A line of a command and its argument.
pub open spec fn command_line(name: Seq<char>, argument: Seq<char>) -> Seq<char> {
    name.push(' ') + argument
}

proof fn lemma_command_line(name: Seq<char>, argument: Seq<char>)
    requires
        name.len() > 0,
        forall|i: int| 0 <= i < name.len() ==> !space_char(#[trigger] name[i]),
        argument.len() > 0,
        !space_char(argument[0]),
        !space_char(argument.last()),
    ensures
        trimmed(command_line(name, argument)) == command_line(name, argument),
        line_halves(command_line(name, argument)) == (uppered(name), argument),
{
    let line = command_line(name, argument);
    let none = Seq::<char>::empty();
    assert(line[0] == name[0]);
    assert(line.last() == argument.last());
    assert(none + line + none =~= line);
    law_trimming_takes_white_space(none, line, none);
    law_white_space_splits_text(name, ' ', argument);
    assert(none + argument + none =~= argument);
    law_trimming_takes_white_space(none, argument, none);
}

proof fn lemma_single_word(name: Seq<char>)
    requires
        name.len() > 0,
        forall|i: int| 0 <= i < name.len() ==> !space_char(#[trigger] name[i]),
    ensures
        trimmed(name) == name,
        line_halves(name) == (uppered(name), Seq::<char>::empty()),
{
    let none = Seq::<char>::empty();
    assert(!space_char(name[0]) && !space_char(name[name.len() - 1]));
    assert(none + name + none =~= name);
    law_trimming_takes_white_space(none, name, none);
    law_white_space_splits_text(name, ' ', none);
}

/// The names of the commands differ.
proof fn lemma_names()
    ensures
        "START"@.len() == 5 && "START"@[0] == 'S',
        "RECTSTART"@.len() == 9,
        "RESTART"@.len() == 7,
        "BEGIN"@.len() == 5 && "BEGIN"@[0] == 'B' && "BEGIN"@[1] == 'E',
        "TURN"@.len() == 4 && "TURN"@[0] == 'T',
        "BOARD"@.len() == 5 && "BOARD"@[0] == 'B' && "BOARD"@[1] == 'O',
        "TAKEBACK"@.len() == 8,
        "INFO"@.len() == 4 && "INFO"@[0] == 'I',
        "ABOUT"@.len() == 5 && "ABOUT"@[0] == 'A',
        "END"@.len() == 3,
{
    reveal_strlit("START");
    reveal_strlit("RECTSTART");
    reveal_strlit("RESTART");
    reveal_strlit("BEGIN");
    reveal_strlit("TURN");
    reveal_strlit("BOARD");
    reveal_strlit("TAKEBACK");
    reveal_strlit("INFO");
    reveal_strlit("ABOUT");
    reveal_strlit("END");
}

/// A word that names a command, in small letters or capitals, for a session
/// that is not reading a board.
pub open spec fn names_command(s: SessionView, word: Seq<char>, command: Seq<char>) -> bool {
    &&& s.entries is None
    &&& word.len() > 0
    &&& forall|i: int| 0 <= i < word.len() ==> !space_char(#[trigger] word[i])
    &&& uppered(word) == command
}

/// A turn puts a stone of the side to move on the point in the column and row,
/// and asks for the answer of the other side; a point that cannot be played or
/// named changes nothing.
pub proof fn law_a_turn_is_played_where_it_says(
    s: SessionView,
    word: Seq<char>,
    col: nat,
    row: nat,
)
    requires
        names_command(s, word, "TURN"@),
        s.board.wf(),
    ensures
        ({
            let (reply, after) = step(s, command_line(word, pair_text(col, row)));
            let p = row * 19 + col;
            if col < 19 && row < 19 && col != UNNAMED_COLUMN && s.board.legal(Move(p as usize)) {
                &&& after.board.cells[p as int] == s.board.to_move.mark()
                &&& after.board.to_move == s.board.to_move.opponent()
                &&& after.board.moves == s.board.moves + 1
                &&& after.stones == s.stones.push((Move(p as usize), s.board.to_move))
                &&& after.turn_ms == s.turn_ms && after.left_ms == s.left_ms && after.rule == s.rule
                &&& reply == thinking(after)
            } else {
                after == s && reply is Say
            }
        }),
{
    lemma_names();
    let argument = pair_text(col, row);
    lemma_pair_ends(col, row);
    lemma_command_line(word, argument);
    law_coordinates_name_points(col, row);
    if col < 19 && row < 19 && s.board.legal(Move((row * 19 + col) as usize)) {
        let p = (row * 19 + col) as usize;
        law_a_stone_changes_only_captures(s.board, Move(p), p);
    }
}

proof fn lemma_pair_ends(col: nat, row: nat)
    ensures
        pair_text(col, row).len() > 0,
        !space_char(pair_text(col, row)[0]),
        !space_char(pair_text(col, row).last()),
{
    law_decimals_are_read_as_numbers(col, 0);
    law_decimals_are_read_as_numbers(row, 0);
    let text = pair_text(col, row);
    assert(text[0] == decimal(col)[0]);
    assert(text.last() == decimal(row)[decimal(row).len() - 1]);
}

/// Starting on a board of nineteen lines, and starting anew, empties the board
/// and the list of stones, and keeps the limits; another size is refused and
/// changes nothing.
pub proof fn law_starting_empties_the_board(s: SessionView, word: Seq<char>, n: nat, m: nat, p: usize)
    requires
        names_command(s, word, "START"@) || names_command(s, word, "RECTSTART"@) || names_command(
            s,
            word,
            "RESTART"@,
        ),
        p < CELL_COUNT,
    ensures
        ({
            let line = if uppered(word) == "START"@ {
                command_line(word, decimal(n))
            } else if uppered(word) == "RECTSTART"@ {
                command_line(word, pair_text(n, m))
            } else {
                word
            };
            let fits = if uppered(word) == "START"@ {
                n == 19
            } else if uppered(word) == "RECTSTART"@ {
                n == 19 && m == 19
            } else {
                true
            };
            let (reply, after) = step(s, line);
            if fits {
                &&& reply == ReactionView::Say("OK"@)
                &&& after.board.cells[p as int] == 0
                &&& after.board.to_move == Player::Black
                &&& after.board.moves == 0
                &&& after.stones.len() == 0
                &&& after.turn_ms == s.turn_ms && after.left_ms == s.left_ms && after.rule == s.rule
            } else {
                after == s && reply == ReactionView::Say("ERROR unsupported board size"@)
            }
        }),
{
    lemma_names();
    law_decimals_are_read_as_numbers(n, usize::MAX as nat);
    let d = decimal(n);
    assert(!space_char(d[0]) && !space_char(d[d.len() - 1]));
    lemma_command_line(word, d);
    lemma_pair_ends(n, m);
    lemma_command_line(word, pair_text(n, m));
    lemma_single_word(word);
    lemma_sizes(n);
    lemma_sizes(m);
    assert(pair_text(n, m) =~= d.push(',') + decimal(m));
    law_a_mark_splits_text(d, ',', decimal(m));
    assert(rect_supported(pair_text(n, m)) == (n == 19 && m == 19));
}

/// The first move is asked for on an empty board, with Black to move.
pub proof fn law_the_first_move_is_blacks(s: SessionView, word: Seq<char>, p: usize)
    requires
        names_command(s, word, "BEGIN"@),
        p < CELL_COUNT,
    ensures
        ({
            let (reply, after) = step(s, word);
            &&& after.board.cells[p as int] == 0
            &&& after.board.to_move == Player::Black
            &&& after.stones.len() == 0
            &&& reply == thinking(after)
        }),
{
    lemma_names();
    lemma_single_word(word);
}

/// A board is read entry by entry until it is done: each entry is noted in
/// order, and one that names no stone spoils the board.
pub proof fn law_boards_are_read_entry_by_entry(
    s: SessionView,
    word: Seq<char>,
    col: nat,
    row: nat,
    side: nat,
)
    requires
        names_command(s, word, "BOARD"@),
    ensures
        ({
            let reading = step(s, word).1;
            let line = pair_text(col, row) + seq![','] + decimal(side);
            let (reply, after) = step(reading, line);
            &&& reading.entries == Some((Seq::<(Move, u8)>::empty(), false))
            &&& reading.board == s.board && reading.stones == s.stones
            &&& reply is Quiet
            &&& col < 19 && row < 19 && 1 <= side <= 2 ==> after.entries == Some(
                (seq![(Move((row * 19 + col) as usize), side as u8)], false),
            )
            &&& !(col < 19 && row < 19 && 1 <= side <= 2) ==> after.entries == Some(
                (Seq::<(Move, u8)>::empty(), true),
            )
            &&& after.board == s.board && after.stones == s.stones
        }),
{
    lemma_names();
    lemma_single_word(word);
    let line = pair_text(col, row) + seq![','] + decimal(side);
    let none = Seq::<char>::empty();
    law_decimals_are_read_as_numbers(col, 0);
    law_decimals_are_read_as_numbers(side, 0);
    assert(line[0] == decimal(col)[0]);
    assert(line.last() == decimal(side)[decimal(side).len() - 1]);
    assert(none + line + none =~= line);
    law_trimming_takes_white_space(none, line, none);
    law_entries_name_stones(col, row, side);
    reveal_strlit("done");
    assert(lowered(line)[0] == lower_char(line[0]));
    assert(digit_char(line[0]) && lower_char(line[0]) == line[0]);
    assert("done"@[0] == 'd');
    let entry = (Move((row * 19 + col) as usize), side as u8);
    assert(Seq::<(Move, u8)>::empty().push(entry) =~= seq![entry]);
}

/// The end is the end, and changes nothing; no other command is.
pub proof fn law_only_the_end_ends(s: SessionView, line: Seq<char>)
    ensures
        step(s, line).0 is Stop ==> step(s, line).1 == s && line_halves(trimmed(line)).0 == "END"@
            && s.entries is None,
        s.entries is None && line_halves(trimmed(line)).0 == "END"@ && trimmed(line).len() > 0
            ==> step(s, line).0 is Stop,
{
    lemma_names();
    law_a_move_is_searched_while_the_game_goes_on(s);
    if s.entries is Some {
        let (entries, wrong) = s.entries->0;
        lemma_reading_never_stops(s, entries, wrong);
    } else {
        lemma_turns_never_stop(s, line_halves(trimmed(line)).1);
        law_a_move_is_searched_while_the_game_goes_on(emptied(s));
    }
}

proof fn lemma_reading_never_stops(s: SessionView, entries: Seq<(Move, u8)>, wrong: bool)
    ensures
        !(board_read(s, entries, wrong).0 is Stop),
{
    law_a_move_is_searched_while_the_game_goes_on(board_read(s, entries, wrong).1);
}

proof fn lemma_turns_never_stop(s: SessionView, argument: Seq<char>)
    ensures
        !(step_turn(s, argument).0 is Stop),
{
    law_a_move_is_searched_while_the_game_goes_on(step_turn(s, argument).1);
}

/// Stones in turns on distinct points, in groups that all have a liberty, make
/// a board.
pub proof fn law_games_in_turns_make_a_board(stones: Seq<(Move, Player)>)
    requires
        in_turns(stones),
        distinct_points(stones),
        all_breathe(laid_out(stones)),
    ensures
        board_of(stones) matches Some(board) && board.wf() && board.moves == 0,
{
    lemma_counts(stones);
    lemma_laid(stones, 0, 0);
    assert forall|p: int| 0 <= p < CELL_COUNT implies -1 <= #[trigger] laid_out(stones)[p] <= 1 by {
        lemma_laid_values(stones, p);
    }
}

proof fn lemma_laid_values(stones: Seq<(Move, Player)>, p: int)
    requires
        distinct_points(stones),
        0 <= p < CELL_COUNT,
    ensures
        -1 <= laid_out(stones)[p] <= 1,
{
    if exists|j: int| 0 <= j < stones.len() && (#[trigger] stones[j]).0.0 == p {
        let j = choose|j: int| 0 <= j < stones.len() && (#[trigger] stones[j]).0.0 == p;
        lemma_laid(stones, j, p as usize);
    } else {
        lemma_laid(stones, 0, p as usize);
    }
}

/// The stones of a board as entries for the side to move.
pub open spec fn entries_for(stones: Seq<(Move, Player)>, own: Player) -> Seq<(Move, u8)> {
    stones.map_values(
        |stone: (Move, Player)|
            (
                stone.0,
                if stone.1 == own {
                    1u8
                } else {
                    2u8
                },
            ),
    )
}

/// A board that can be set up is read from its stones, told for the side to
/// move, and its next move is asked for.
pub proof fn law_boards_are_read_from_their_stones(s: SessionView, stones: Seq<(Move, Player)>)
    requires
        board_of(stones) is Some,
    ensures
        ({
            let board = board_of(stones)->0;
            let (reply, after) = board_read(s, entries_for(stones, board.to_move), false);
            &&& after.board == board
            &&& after.stones == stones
            &&& reply == thinking(after)
            &&& after.turn_ms == s.turn_ms && after.left_ms == s.left_ms && after.rule == s.rule
        }),
{
    let own = (board_of(stones)->0).to_move;
    let entries = entries_for(stones, own);
    lemma_counts(stones);
    lemma_entries(stones, own);
    assert(stones_of(entries, own) =~= stones);
    lemma_own(entries, own);
}

proof fn lemma_entries(stones: Seq<(Move, Player)>, own: Player)
    ensures
        forall|i: int|
            0 <= i < stones.len() ==> (#[trigger] entries_for(stones, own)[i]).1 == 1
                || entries_for(stones, own)[i].1 == 2,
{
}

} // verus!
