//! What a controller can rely on in the text protocol: lines, responses,
//! clocks, komi and handicaps.
use crate::answers::{lemma_line_words, vertex_text};
use crate::display::law_drawings_show_every_point;
use crate::game::{all_breathe, distinct_points, has_liberty, laid_out, liberties_of, Move, Player};
use crate::grid::{adjacent, lemma_component_basic, points_with, CELL_COUNT};
use crate::gtp::{
    all_points, black_stones, cleaned, clock_after, clock_of, color_of, fixed_points, framed,
    fresh_clocks, joined, komi_read, line_parts, line_words, moves_in, session_over, step,
    step_fixed_handicap, step_free_handicap, step_handicap, step_time_left, step_time_settings,
    think_nanos, untouched, vertices, AnswerView, Clock, EngineView, SECOND,
};
use crate::notation::{cell_char, drawing, move_in};
use crate::scoring::{area_of, settled_score, without_dead};
use crate::text::{
    all_digits, control_char, decimal, fields, is_mark, law_a_mark_splits_text,
    law_decimals_are_read_as_numbers, law_every_mark_splits, lemma_length_until, length_before,
    space_char, trim_back, words,
};
use crate::tournament::lemma_laid;
use vstd::prelude::*;

verus! {

/// The time for a move is nine tenths of an even share of what is left, over
/// the stones of the period or over thirty, rounded down; only below a
/// millisecond and above a minute is it another.
pub proof fn law_thinking_is_an_even_share(clock: Clock)
    ensures
        ({
            let moves: int = if clock.stones > 0 {
                clock.stones as int
            } else {
                30
            };
            let nanos = think_nanos(clock);
            &&& nanos > 1_000_000 ==> nanos * (10 * moves) <= clock.remaining * 9
            &&& nanos < 60_000_000_000 ==> (nanos + 1) * (10 * moves) > clock.remaining * 9
        }),
{
    let moves: int = if clock.stones > 0 {
        clock.stones as int
    } else {
        30
    };
    let whole = clock.remaining * 9;
    let parts = 10 * moves;
    let share = whole / parts;
    vstd::arithmetic::div_mod::lemma_fundamental_div_mod(whole, parts);
    vstd::arithmetic::div_mod::lemma_mod_bound(whole, parts);
    assert(share * parts == parts * share) by (nonlinear_arith);
    assert((share + 1) * parts == share * parts + parts) by (nonlinear_arith);
    let nanos = think_nanos(clock);
    if nanos > share {
        assert((nanos + 1) * parts >= (share + 1) * parts) by (nonlinear_arith)
            requires
                nanos > share,
                parts > 0,
        ;
    }
    if nanos < share {
        assert(nanos * parts <= share * parts) by (nonlinear_arith)
            requires
                nanos < share,
                parts > 0,
        ;
    }
}

/// Both sides start with the main time, or without one with the first period
/// of overtime and its stones. Time is not limited if nothing is set, or if
/// overtime has no stones.
pub proof fn law_clocks_start_with_the_settings(main: usize, overtime: usize, stones: usize)
    ensures
        ({
            let clocks = fresh_clocks((main, overtime, stones));
            &&& clocks is None <==> (overtime > 0 && stones == 0) || (main == 0 && overtime == 0
                && stones == 0)
            &&& clocks is Some ==> clock_of(clocks->0, Player::Black) == clock_of(
                clocks->0,
                Player::White,
            )
            &&& clocks is Some && main > 0 ==> clock_of(clocks->0, Player::Black) == (Clock {
                remaining: (main * SECOND) as u128,
                stones: 0,
            })
            &&& clocks is Some && main == 0 ==> clock_of(clocks->0, Player::Black) == (Clock {
                remaining: (overtime * SECOND) as u128,
                stones,
            })
        }),
{
}

/// Time settings are what the three numbers say, and start the clocks anew.
pub proof fn law_time_settings_are_kept(e: EngineView, main: nat, overtime: nat, stones: nat)
    requires
        main <= usize::MAX,
        overtime <= usize::MAX,
        stones <= usize::MAX,
    ensures
        ({
            let (answer, after) = step_time_settings(
                e,
                seq![decimal(main), decimal(overtime), decimal(stones)],
            );
            &&& answer is Done
            &&& after.settings == (main as usize, overtime as usize, stones as usize)
            &&& after.clocks == fresh_clocks(after.settings)
            &&& after.board == e.board && after.undo == e.undo
        }),
{
    law_decimals_are_read_as_numbers(main, usize::MAX as nat);
    law_decimals_are_read_as_numbers(overtime, usize::MAX as nat);
    law_decimals_are_read_as_numbers(stones, usize::MAX as nat);
}

/// Time that is left sets the clock of the named side, in seconds, and leaves
/// the other as it was.
pub proof fn law_time_left_sets_one_clock(
    e: EngineView,
    color: Seq<char>,
    player: Player,
    seconds: nat,
    stones: nat,
)
    requires
        color_of(color) == Some(player),
        seconds <= usize::MAX,
        stones <= usize::MAX,
    ensures
        ({
            let (answer, after) = step_time_left(e, seq![color, decimal(seconds), decimal(stones)]);
            &&& answer is Done
            &&& after.clocks is Some
            &&& clock_of(after.clocks->0, player).remaining == seconds * 1_000_000_000
            &&& clock_of(after.clocks->0, player).stones == stones
            &&& e.clocks is Some ==> clock_of(after.clocks->0, player.opponent()) == clock_of(
                e.clocks->0,
                player.opponent(),
            )
            &&& after.board == e.board && after.settings == e.settings && after.undo == e.undo
        }),
{
    law_decimals_are_read_as_numbers(seconds, usize::MAX as nat);
    law_decimals_are_read_as_numbers(stones, usize::MAX as nat);
    assert(0 <= seconds * SECOND <= u128::MAX) by (nonlinear_arith)
        requires
            seconds <= usize::MAX,
            SECOND == 1_000_000_000,
    ;
}

/// Without overtime a clock runs down to nothing and stays there; with it no
/// clock ever stands at nothing once its main time is up or its stones are
/// played.
pub proof fn law_clocks_run_down(clock: Clock, elapsed: int, settings: (usize, usize, usize))
    requires
        elapsed >= 0,
    ensures
        ({
            let after = clock_after(clock, elapsed, settings);
            &&& settings.1 == 0 ==> after.remaining <= clock.remaining && (after.remaining + elapsed
                == clock.remaining || (after.remaining == 0 && elapsed >= clock.remaining))
            &&& settings.1 == 0 && clock.stones > 0 ==> after.stones == clock.stones - 1
            &&& clock.stones == 0 && clock.remaining > elapsed ==> after.stones == 0
                && after.remaining == clock.remaining - elapsed
            &&& clock.stones > 1 ==> after.stones == clock.stones - 1
        }),
{
}

/// A komi that can be set is set, in thousandths of a point, and is White's:
/// Black's margin and the komi together are the area. Nothing else changes.
pub proof fn law_komi_goes_to_white(e: EngineView, komi: i32)
    requires
        e.wf(),
    ensures
        ({
            let (answer, after) = komi_read(e, Some(komi));
            &&& answer is Done <==> -1_000_000 <= komi <= 1_000_000
            &&& !(answer is Done) ==> after == e
            &&& answer is Done ==> {
                &&& after.board.komi_milli == komi
                &&& after.board.cells == e.board.cells && after.board.to_move == e.board.to_move
                &&& settled_score(after.board) + komi == 1000 * area_of(without_dead(after.board))
                &&& after.undo == e.undo && after.clocks == e.clocks
            }
        }),
        komi_read(e, None).0 is Refused,
{
}

/// A handicap puts Black's stones on the points and nothing else, leaves White
/// to move, and keeps the komi; nothing can be undone behind it.
pub proof fn law_handicaps_are_black_stones(
    e: EngineView,
    points: Seq<Move>,
    reply: Seq<char>,
    i: int,
    p: usize,
)
    requires
        e.wf(),
        0 <= i < points.len(),
        p < CELL_COUNT,
        step_handicap(e, points, reply).0 is Done,
    ensures
        ({
            let after = step_handicap(e, points, reply).1;
            &&& points[i].0 < CELL_COUNT
            &&& after.board.cells[points[i].0 as int] == Player::Black.mark()
            &&& !points.contains(Move(p)) ==> after.board.cells[p as int] == 0
            &&& after.board.to_move == Player::White
            &&& after.board.komi_milli == e.board.komi_milli
            &&& after.board.moves == 0
            &&& after.undo.len() == 0
            &&& step_handicap(e, points, reply).0 == AnswerView::Done(reply)
        }),
{
    let stones = black_stones(points);
    assert(stones[i].0 == points[i]);
    lemma_laid(stones, i, p);
    if !points.contains(Move(p)) {
        assert forall|j: int| 0 <= j < stones.len() implies (#[trigger] stones[j]).0.0 != p by {
            assert(stones[j].0 == points[j]);
            assert(points.contains(points[j]));
        }
    }
}

/// A fixed handicap has as many stones as asked for, from two to five, and
/// names them; a larger one has those of a smaller one first. The points stand
/// in pairs opposite each other around the fifth.
pub proof fn law_fixed_handicaps_are_named(e: EngineView, n: nat)
    requires
        e.wf(),
        untouched(e.board),
    ensures
        step_fixed_handicap(e, seq![decimal(n)]).0 matches AnswerView::Done(text) ==> {
            &&& 2 <= n <= 5
            &&& words(text).len() == n
            &&& forall|i: int|
                0 <= i < n ==> #[trigger] words(text)[i] == vertex_text(fixed_points(n as int)[i].0)
        },
        2 <= n <= 5 <==> step_fixed_handicap(e, seq![decimal(n)]).0 is Done,
        !(2 <= n <= 5) ==> step_fixed_handicap(e, seq![decimal(n)]).0 is Refused,
        2 <= n < 5 ==> fixed_points(n as int) == fixed_points(n as int + 1).drop_last(),
        ({
            let all = fixed_points(5);
            &&& all.len() == 5
            &&& all.no_duplicates()
            &&& all[0].0 + all[1].0 == 2 * all[4].0
            &&& all[2].0 + all[3].0 == 2 * all[4].0
            &&& all[0].0 % 19 == all[2].0 % 19 && all[0].0 / 19 == all[3].0 / 19
        }),
{
    law_decimals_are_read_as_numbers(n, usize::MAX as nat);
    if 2 <= n <= 5 {
        let points = fixed_points(n as int);
        assert(points.len() == n);
        assert forall|i: int| 0 <= i < points.len() implies (#[trigger] points[i]).0
            < CELL_COUNT by {}
        lemma_line_words(points);
        assert(vertices(points).len() == n);
        lemma_fixed_points_breathe(n as int);
    }
    if 2 <= n < 5 {
        assert(fixed_points(n as int) =~= fixed_points(n as int + 1).drop_last());
    }
}

proof fn lemma_fixed_points_breathe(n: int)
    requires
        2 <= n <= 5,
    ensures
        distinct_points(black_stones(fixed_points(n))),
        all_breathe(laid_out(black_stones(fixed_points(n)))),
{
    let stones = black_stones(fixed_points(n));
    let cells = laid_out(stones);
    assert forall|i: int| 0 <= i < stones.len() implies (#[trigger] stones[i]).0
        == fixed_points(n)[i] by {}
    assert forall|p: usize| p < CELL_COUNT && cells[p as int] != 0 implies #[trigger] has_liberty(
        cells,
        p,
    ) by {
        lemma_laid(stones, 0, p);
        let q = (p + 1) as usize;
        let i = choose|i: int| 0 <= i < stones.len() && (#[trigger] stones[i]).0.0 == p;
        assert(p == 40 || p == 120 || p == 116 || p == 44 || p == 80);
        lemma_laid(stones, 0, q);
        assert(cells[q as int] == 0);
        assert(adjacent(p, q));
        lemma_component_basic(points_with(cells, cells[p as int]), p);
        assert(liberties_of(cells, p).contains(q));
    }
}

/// Only a board of nineteen lines can be asked for, and it is cleared.
pub proof fn law_boards_have_nineteen_lines(e: EngineView, n: nat)
    ensures
        ({
            let (answer, after) = step(e, "boardsize"@, seq![decimal(n)]);
            &&& answer is Done <==> n == 19
            &&& n == 19 ==> after == step(e, "clear_board"@, Seq::empty()).1
            &&& n != 19 ==> after == e
        }),
{
    law_decimals_are_read_as_numbers(n, usize::MAX as nat);
    reveal_strlit("boardsize");
    reveal_strlit("clear_board");
    reveal_strlit("protocol_version");
    reveal_strlit("name");
    reveal_strlit("version");
    reveal_strlit("known_command");
    reveal_strlit("list_commands");
    reveal_strlit("quit");
    assert("boardsize"@.len() == 9 && "boardsize"@[0] == 'b');
    assert("clear_board"@.len() == 11 && "clear_board"@[0] == 'c');
    assert("protocol_version"@[0] == 'p' && "name"@[0] == 'n' && "version"@[0] == 'v');
    assert("known_command"@[0] == 'k' && "list_commands"@[0] == 'l' && "quit"@[0] == 'q');
    let none = Seq::<Seq<char>>::empty();
    assert(none.len() == 0);
}

proof fn lemma_trim_back(s: Seq<char>, i: int)
    requires
        0 <= i < s.len(),
        !space_char(s[i]),
    ensures
        i < trim_back(s).len() <= s.len(),
        trim_back(s) == s.take(trim_back(s).len() as int),
    decreases s.len(),
{
    if space_char(s.last()) {
        assert(s[s.len() - 1] == s.last());
        lemma_trim_back(s.drop_last(), i);
        let n = trim_back(s).len() as int;
        assert(s.drop_last().take(n) =~= s.take(n));
    } else {
        assert(s.take(s.len() as int) =~= s);
    }
}

/// The board that is shown has every point in its place, behind a new line,
/// and nothing behind the last point.
pub proof fn law_shown_boards_have_every_point(e: EngineView, row: int, col: int)
    requires
        e.board.wf(),
        0 <= row < 19,
        0 <= col < 19,
    ensures
        ({
            let (answer, after) = step(e, "showboard"@, Seq::empty());
            &&& after == e
            &&& answer matches AnswerView::Done(text) && text.len() > 0 && text[0] == '\n' && text[1
                + 42 * (19 - row) + 3 + 2 * col] == cell_char(e.board.cells[row * 19 + col])
                && !space_char(text.last())
        }),
{
    lemma_showboard_is_itself();
    let all = seq!['\n'] + drawing(e.board.cells);
    law_drawings_show_every_point(e.board.cells, row, col);
    law_drawings_show_every_point(e.board.cells, 0, 18);
    let at = 1 + 42 * (19 - row) + 3 + 2 * col;
    let end: int = 838;
    assert(all[at] == drawing(e.board.cells)[at - 1]);
    assert(all[end] == drawing(e.board.cells)[end - 1]);
    assert(!space_char('●') && !space_char('○') && !space_char('·'));
    lemma_trim_back(all, end);
    lemma_trim_end(all);
    let text = trim_back(all);
    assert(text[at] == all[at] && text[0] == all[0]);
}

proof fn lemma_trim_end(s: Seq<char>)
    ensures
        trim_back(s).len() > 0 ==> !space_char(trim_back(s).last()),
    decreases s.len(),
{
    if s.len() > 0 && space_char(s.last()) {
        lemma_trim_end(s.drop_last());
    }
}

proof fn lemma_showboard_is_itself()
    ensures
        "showboard"@ != "protocol_version"@,
        "showboard"@ != "name"@,
        "showboard"@ != "version"@,
        "showboard"@ != "known_command"@,
        "showboard"@ != "list_commands"@,
        "showboard"@ != "quit"@,
        "showboard"@ != "boardsize"@,
        "showboard"@ != "clear_board"@,
        "showboard"@ != "komi"@,
        "showboard"@ != "play"@,
        "showboard"@ != "genmove"@,
        "showboard"@ != "reg_genmove"@,
        "showboard"@ != "undo"@,
{
    reveal_strlit("showboard");
    reveal_strlit("protocol_version");
    reveal_strlit("name");
    reveal_strlit("version");
    reveal_strlit("known_command");
    reveal_strlit("list_commands");
    reveal_strlit("quit");
    reveal_strlit("boardsize");
    reveal_strlit("clear_board");
    reveal_strlit("komi");
    reveal_strlit("play");
    reveal_strlit("genmove");
    reveal_strlit("reg_genmove");
    reveal_strlit("undo");
    assert("showboard"@[0] == 's');
    assert("protocol_version"@[0] == 'p' && "name"@[0] == 'n' && "version"@[0] == 'v');
    assert("known_command"@[0] == 'k' && "list_commands"@[0] == 'l' && "quit"@[0] == 'q');
    assert("boardsize"@[0] == 'b' && "clear_board"@[0] == 'c' && "komi"@[0] == 'k');
    assert("play"@[0] == 'p' && "genmove"@[0] == 'g' && "reg_genmove"@[0] == 'r' && "undo"@[0]
        == 'u');
}

/// A response tells by its first character whether the command was accepted,
/// repeats the number of the line, holds the text, and ends with an empty
/// line.
pub proof fn law_responses_hold_number_and_text(id: Seq<char>, accepted: bool, text: Seq<char>)
    ensures
        ({
            let reply = framed(id, accepted, text);
            let n = reply.len();
            &&& reply[0] == '=' <==> accepted
            &&& reply[0] == '?' <==> !accepted
            &&& reply.subrange(1, 1 + id.len() as int) == id
            &&& reply[n - 1] == '\n' && reply[n - 2] == '\n'
            &&& text.len() > 0 ==> reply[1 + id.len() as int] == ' ' && reply.subrange(
                2 + id.len() as int,
                n - 2,
            ) == text
            &&& text.len() == 0 && accepted ==> n == id.len() + 3
        }),
{
    let reply = framed(id, accepted, text);
    let n = reply.len();
    assert(reply.subrange(1, 1 + id.len() as int) =~= id);
    if text.len() > 0 {
        assert(reply.subrange(2 + id.len() as int, n - 2) =~= text);
    }
}

proof fn lemma_cleaned_join(a: Seq<char>, b: Seq<char>)
    ensures
        cleaned(a + b) == cleaned(a) + cleaned(b),
    decreases b.len(),
{
    if b.len() == 0 {
        assert(a + b =~= a);
        assert(cleaned(a) + cleaned(b) =~= cleaned(a));
    } else {
        let all = a + b;
        assert(all.drop_last() =~= a + b.drop_last());
        assert(all.last() == b.last());
        lemma_cleaned_join(a, b.drop_last());
        assert(cleaned(all) =~= cleaned(a) + cleaned(b));
    }
}

proof fn lemma_cleaned_plain(s: Seq<char>)
    requires
        forall|i: int| 0 <= i < s.len() ==> !control_char(#[trigger] s[i]),
    ensures
        cleaned(s) == s,
    decreases s.len(),
{
    if s.len() > 0 {
        assert(s[s.len() - 1] == s.last());
        lemma_cleaned_plain(s.drop_last());
        assert(s.drop_last().push(s.last()) =~= s);
    } else {
        assert(cleaned(s) =~= s);
    }
}

/// A control character that is no tab does not count, wherever it stands.
pub proof fn law_control_characters_do_not_count(a: Seq<char>, c: char, b: Seq<char>)
    requires
        control_char(c),
        c != '\t',
    ensures
        line_parts(a.push(c) + b) == line_parts(a + b),
{
    lemma_cleaned_join(a.push(c), b);
    lemma_cleaned_join(a, b);
    assert(a.push(c).drop_last() =~= a);
}

/// A comment does not count: a line says the same without it.
pub proof fn law_comments_do_not_count(a: Seq<char>, comment: Seq<char>)
    requires
        forall|i: int| 0 <= i < a.len() ==> !control_char(#[trigger] a[i]),
        !a.contains('#'),
    ensures
        line_parts(a.push('#') + comment) == line_parts(a),
        line_words(a) == words(a),
{
    let all = a.push('#') + comment;
    lemma_cleaned_join(a.push('#'), comment);
    lemma_cleaned_join(a, seq!['#']);
    assert(a.push('#') =~= a + seq!['#']);
    lemma_cleaned_plain(a);
    lemma_cleaned_plain(seq!['#']);
    let clean = cleaned(all);
    let stop = is_mark('#');
    assert(clean =~= a.push('#') + cleaned(comment));
    lemma_length_until(clean, stop);
    lemma_length_until(a, stop);
    let (n, m) = (length_before(clean, '#') as int, length_before(a, '#') as int);
    if m < a.len() {
        assert(a.contains(a[m]));
    }
    if n < a.len() {
        assert(clean[n] == a[n]);
        assert(a.contains(a[n]));
    }
    if n > a.len() {
        assert(clean[a.len() as int] == '#');
        assert(!stop(clean[a.len() as int]));
    }
    assert(clean.take(n) =~= a);
    assert(a.take(m) =~= a);
}

/// A line is a number if its first word is one, a command and its arguments;
/// an empty line is nothing.
pub proof fn law_lines_are_number_command_and_arguments(line: Seq<char>)
    ensures
        ({
            let w = line_words(line);
            &&& line_parts(line) is None <==> w.len() == 0
            &&& line_parts(line) matches Some(parts) ==> {
                let (id, command, args) = parts;
                &&& all_digits(id)
                &&& id.len() > 0 && w.len() > 1 ==> w == seq![id, command] + args
                &&& id.len() == 0 && !all_digits(w[0]) ==> w == seq![command] + args
                &&& all_digits(w[0]) ==> id == w[0]
            }
        }),
{
    let w = line_words(line);
    if let Some((id, command, args)) = line_parts(line) {
        if all_digits(w[0]) && w.len() > 1 {
            assert(w =~= seq![id, command] + args);
        } else if !all_digits(w[0]) {
            assert(w =~= seq![command] + args);
        }
    }
}

/// A free handicap puts stones on the points that the words name, from two to
/// forty, in any order; a word that names no point, or a pass, is refused.
pub proof fn law_free_handicaps_are_placed_as_named(
    e: EngineView,
    args: Seq<Seq<char>>,
    i: int,
    p: usize,
)
    requires
        e.wf(),
        0 <= i < args.len(),
        p < CELL_COUNT,
    ensures
        ({
            let (answer, after) = step_free_handicap(e, args);
            &&& answer is Done ==> {
                &&& untouched(e.board)
                &&& 2 <= args.len() <= 40
                &&& move_in(args[i]) matches Some(mv) && mv.0 < CELL_COUNT
                    && after.board.cells[mv.0 as int] == Player::Black.mark()
                &&& (forall|j: int| 0 <= j < args.len() ==> move_in(#[trigger] args[j]) != Some(
                    Move(p),
                )) ==> after.board.cells[p as int] == 0
                &&& after.board.to_move == Player::White
                &&& after.board.komi_milli == e.board.komi_milli
            }
            &&& (move_in(args[i]) is None || move_in(args[i]) == Some(Move::pass_move())) ==> answer
                is Refused
        }),
{
    let points = moves_in(args);
    let (answer, after) = step_free_handicap(e, args);
    assert(points[i] == move_in(args[i])->0);
    if answer is Done {
        law_handicaps_are_black_stones(e, points, Seq::empty(), i, p);
        if points.contains(Move(p)) {
            let j = points.index_of(Move(p));
            assert(move_in(args[j]) is Some && move_in(args[j])->0 == points[j]);
        }
    }
}

/// Texts that are joined by a separator which none of them holds are split
/// again by it.
pub proof fn law_joined_texts_split_again(list: Seq<Seq<char>>, separator: char)
    requires
        list.len() > 0,
        forall|i: int| 0 <= i < list.len() ==> !(#[trigger] list[i]).contains(separator),
    ensures
        fields(joined(list, separator), separator) == list,
    decreases list.len(),
{
    let last = list.last();
    assert(last == list[list.len() - 1]);
    law_a_mark_splits_text(last, separator, last);
    if list.len() == 1 {
        assert(list =~= seq![last]);
    } else {
        let rest = list.drop_last();
        assert forall|i: int| 0 <= i < rest.len() implies !(#[trigger] rest[i]).contains(
            separator,
        ) by {
            assert(rest[i] == list[i]);
        }
        law_joined_texts_split_again(rest, separator);
        law_every_mark_splits(joined(rest, separator), separator, last);
        assert(list =~= rest + seq![last]);
    }
}

/// A free handicap on an empty board is accepted if its points are from two to
/// forty different ones whose stones all have a liberty.
pub proof fn law_free_handicaps_are_accepted(e: EngineView, args: Seq<Seq<char>>)
    requires
        e.wf(),
        untouched(e.board),
        2 <= args.len() <= 40,
        all_points(args),
        distinct_points(black_stones(moves_in(args))),
        all_breathe(laid_out(black_stones(moves_in(args)))),
    ensures
        step_free_handicap(e, args).0 == AnswerView::Done(Seq::empty()),
{
}

/// A session ends when it is told to quit, and not by a command that was
/// refused, nor by one that changes anything or asks for a search.
pub proof fn law_sessions_end_when_told_to(
    e: EngineView,
    command: Seq<char>,
    args: Seq<Seq<char>>,
)
    ensures
        session_over(command, step(e, command, args).0 is Done) ==> args.len() == 0 && step(
            e,
            command,
            args,
        ) == (AnswerView::Done(Seq::empty()), e),
        session_over("quit"@, step(e, "quit"@, Seq::empty()).0 is Done),
        !session_over(command, false),
{
    reveal_strlit("quit");
    reveal_strlit("protocol_version");
    reveal_strlit("name");
    reveal_strlit("version");
    reveal_strlit("known_command");
    reveal_strlit("list_commands");
    assert("quit"@[0] == 'q' && "protocol_version"@[0] == 'p' && "name"@[0] == 'n');
    assert("version"@[0] == 'v' && "known_command"@[0] == 'k' && "list_commands"@[0] == 'l');
    let none = Seq::<Seq<char>>::empty();
    assert(none.len() == 0);
}

} // verus!
