//! What the answers of the text protocol say of the game, and what its
//! commands do to it.
use crate::benson::{alive_at, secure};
use crate::chains::{
    chain_at, chain_list, leads, lemma_chain_at, lemma_chain_of_stone, lemma_chains_below,
};
use crate::game::{lemma_captured_color, BoardView, Move, Outcome, Player, MAX_MOVES};
use crate::grid::{
    lemma_component_basic, lemma_component_of_member, points_with, same_component, CELL_COUNT,
};
use crate::gtp::{
    clock_of, color_of, command_names, fraction_text, group_lines, joined,
    law_unknown_commands_are_refused, move_found, play_board, refused, score_text_of, step,
    step_genmove, step_play, step_score, step_status, think_nanos, vertices, AnswerView, Clock,
    EngineView,
};
use crate::notation::{column_letter, law_notation_reads_back, move_in, notation_of};
use crate::scoring::{
    as_moves, law_only_dead_stones_are_taken_off, outcome_of, status_of, with_status, without_dead,
    Status,
};
use crate::text::{
    all_digits, decimal, digit_char, digit_of, law_decimal_reads_back, law_unbroken_text_is_a_word,
    law_white_space_parts_words, lower_char, lowered, space_char, upper_char, uppered, value_of,
    words,
};
use crate::verdict::{
    law_leads_are_opposed, law_settled_score_is_the_lead, law_the_winner_has_more_points, lead_of,
};
use vstd::prelude::*;

verus! {

/// The capitalised name of a point.
pub open spec fn vertex_text(p: usize) -> Seq<char> {
    uppered(notation_of(Move(p)))
}

/// The text has the name of the point among its words.
pub open spec fn names(text: Seq<char>, p: usize) -> bool {
    words(text).contains(vertex_text(p))
}

proof fn lemma_vertex(p: usize)
    requires
        p < CELL_COUNT,
    ensures
        vertex_text(p).len() > 0,
        forall|i: int| 0 <= i < vertex_text(p).len() ==> !space_char(#[trigger] vertex_text(p)[i]),
        lowered(vertex_text(p)) == notation_of(Move(p)),
{
    let s = notation_of(Move(p));
    let row = (p as int / 19 + 1) as nat;
    let d = decimal(row);
    law_decimal_reads_back(row);
    assert(s =~= seq![column_letter(p as int % 19)] + d);
    assert forall|i: int| 0 <= i < s.len() implies ('a' <= #[trigger] s[i] <= 'z' || '0' <= s[i]
        <= '9') by {
        if i > 0 {
            assert(s[i] == d[i - 1]);
            assert(digit_char(d[i - 1]));
        }
    }
    let v = vertex_text(p);
    assert forall|i: int| 0 <= i < v.len() implies !space_char(#[trigger] v[i]) && lower_char(v[i])
        == s[i] by {
        assert('a' <= s[i] <= 'z' || '0' <= s[i] <= '9');
        assert(v[i] == upper_char(s[i]));
    }
    assert(lowered(v) =~= s);
}

/// Two points have different names.
pub proof fn law_vertices_differ(p: usize, q: usize)
    requires
        p < CELL_COUNT,
        q < CELL_COUNT,
        vertex_text(p) == vertex_text(q),
    ensures
        p == q,
{
    lemma_vertex(p);
    lemma_vertex(q);
    law_notation_reads_back(Move(p));
    law_notation_reads_back(Move(q));
}

/// The names of the actions of all groups.
spec fn flat(groups: Seq<Seq<Move>>) -> Seq<Seq<char>>
    decreases groups.len(),
{
    if groups.len() == 0 {
        Seq::empty()
    } else {
        flat(groups.drop_last()) + vertices(groups.last())
    }
}

pub proof fn lemma_line_words(group: Seq<Move>)
    requires
        group.len() > 0,
        forall|i: int| 0 <= i < group.len() ==> (#[trigger] group[i]).0 < CELL_COUNT,
    ensures
        words(joined(vertices(group), ' ')) == vertices(group),
    decreases group.len(),
{
    let list = vertices(group);
    let last = group.last();
    assert(last == group[group.len() - 1]);
    lemma_vertex(last.0);
    assert(list.last() == vertex_text(last.0));
    law_unbroken_text_is_a_word(vertex_text(last.0));
    if group.len() == 1 {
        assert(list =~= seq![vertex_text(last.0)]);
    } else {
        let rest = group.drop_last();
        assert(list.drop_last() =~= vertices(rest));
        assert forall|i: int| 0 <= i < rest.len() implies (#[trigger] rest[i]).0 < CELL_COUNT by {
            assert(rest[i] == group[i]);
        }
        lemma_line_words(rest);
        law_white_space_parts_words(joined(vertices(rest), ' '), ' ', list.last());
        assert(list =~= vertices(rest) + seq![list.last()]);
    }
}

proof fn lemma_group_words(groups: Seq<Seq<Move>>)
    requires
        forall|k: int| 0 <= k < groups.len() ==> (#[trigger] groups[k]).len() > 0,
        forall|k: int, i: int|
            0 <= k < groups.len() && 0 <= i < groups[k].len() ==> (#[trigger] groups[k][i]).0
                < CELL_COUNT,
    ensures
        words(group_lines(groups)) == flat(groups),
    decreases groups.len(),
{
    let line = |group: Seq<Move>| joined(vertices(group), ' ');
    let lines = groups.map_values(line);
    if groups.len() == 0 {
        let none = Seq::<char>::empty();
        assert(group_lines(groups) =~= none);
        assert(crate::text::trim_front(none) == none);
        assert(words(none) =~= Seq::<Seq<char>>::empty());
    } else {
        let last = groups.last();
        let rest = groups.drop_last();
        assert(last == groups[groups.len() - 1]);
        assert forall|i: int| 0 <= i < last.len() implies (#[trigger] last[i]).0 < CELL_COUNT by {
            assert(groups[groups.len() - 1][i].0 < CELL_COUNT);
        }
        lemma_line_words(last);
        assert forall|k: int, i: int|
            0 <= k < rest.len() && 0 <= i < rest[k].len() implies (#[trigger] rest[k][i]).0
            < CELL_COUNT by {
            assert(groups[k][i].0 < CELL_COUNT);
        }
        assert forall|k: int| 0 <= k < rest.len() implies (#[trigger] rest[k]).len() > 0 by {
            assert(rest[k] == groups[k]);
        }
        lemma_group_words(rest);
        assert(lines.drop_last() =~= rest.map_values(line));
        assert(lines.last() == joined(vertices(last), ' '));
        if groups.len() == 1 {
            assert(flat(rest) =~= Seq::<Seq<char>>::empty());
            assert(flat(groups) =~= vertices(last));
        } else {
            law_white_space_parts_words(group_lines(rest), '\n', lines.last());
        }
    }
}

/// Some chain among the first `n` has the status and holds the stone on `p`.
spec fn in_list(board: BoardView, status: Status, n: nat, p: usize) -> bool {
    exists|id: int|
        0 <= id < n && #[trigger] chain_list(board.cells)[id].stones.contains(p) && status_of(
            board,
            id,
        ) == status
}

proof fn lemma_status_words(board: BoardView, status: Status, n: nat)
    requires
        board.wf(),
        n <= chain_list(board.cells).len(),
    ensures
        ({
            let groups = with_status(board, status, n);
            &&& words(group_lines(groups)) == flat(groups)
            &&& flat(groups).no_duplicates()
            &&& forall|p: usize|
                p < CELL_COUNT ==> (#[trigger] flat(groups).contains(vertex_text(p)) <==> in_list(
                    board,
                    status,
                    n,
                    p,
                ))
            &&& forall|v: Seq<char>| #[trigger]
                flat(groups).contains(v) ==> exists|p: usize|
                    p < CELL_COUNT && v == #[trigger] vertex_text(p)
        }),
    decreases n,
{
    lemma_listed_groups(board, status, n);
    let groups = with_status(board, status, n);
    lemma_group_words(groups);
    if n > 0 {
        let m = (n - 1) as nat;
        lemma_status_words(board, status, m);
        let before = with_status(board, status, m);
        let list = chain_list(board.cells);
        let chain = list[m as int];
        lemma_chains_below(board.cells, CELL_COUNT as nat);
        lemma_chain_at(board.cells, chain.stones[0]);
        assert(chain == chain_at(board.cells, chain.stones[0]));
        if status_of(board, m as int) == status {
            assert(groups.drop_last() =~= before);
            let added = vertices(as_moves(chain.stones));
            assert(groups.last() == as_moves(chain.stones));
            assert(flat(groups) == flat(before) + added);
            assert forall|i: int| 0 <= i < added.len() implies #[trigger] added[i] == vertex_text(
                chain.stones[i],
            ) && chain.stones[i] < CELL_COUNT by {
                assert(chain_at(board.cells, chain.stones[0]).stones[i] < CELL_COUNT);
            }
            assert forall|p: usize| p < CELL_COUNT implies (added.contains(vertex_text(p))
                <==> chain.stones.contains(p)) by {
                if added.contains(vertex_text(p)) {
                    let i = added.index_of(vertex_text(p));
                    assert(added[i] == vertex_text(chain.stones[i]));
                    law_vertices_differ(p, chain.stones[i]);
                }
                if chain.stones.contains(p) {
                    let i = chain.stones.index_of(p);
                    assert(added[i] == vertex_text(p));
                }
            }
            assert forall|v: Seq<char>| #[trigger]
                flat(groups).contains(v) <==> flat(before).contains(v) || added.contains(v) by {
                lemma_contains_both(flat(before), added, v);
            }
            assert forall|p: usize| p < CELL_COUNT implies (#[trigger] flat(groups).contains(
                vertex_text(p),
            ) <==> in_list(board, status, n, p)) by {
                lemma_in_list_step(board, status, m, p);
                assert(flat(before).contains(vertex_text(p)) <==> in_list(board, status, m, p));
            }
            assert forall|i: int, j: int| 0 <= i < j < flat(groups).len() implies flat(groups)[i]
                != flat(groups)[j] by {
                let k = flat(before).len();
                if i >= k {
                    assert(added[i - k] == vertex_text(chain.stones[i - k]));
                    assert(added[j - k] == vertex_text(chain.stones[j - k]));
                    if added[i - k] == added[j - k] {
                        law_vertices_differ(chain.stones[i - k], chain.stones[j - k]);
                    }
                } else if j >= k {
                    let p = chain.stones[j - k];
                    assert(added[j - k] == vertex_text(p));
                    if flat(before)[i] == vertex_text(p) {
                        assert(flat(before).contains(vertex_text(p)));
                        assert(in_list(board, status, m, p));
                        let id = choose|id: int|
                            0 <= id < m && #[trigger] list[id].stones.contains(p) && status_of(
                                board,
                                id,
                            ) == status;
                        assert(board.cells[p as int] != 0) by {
                            assert(leads(board.cells, chain.stones[0]));
                        }
                        let own = lemma_chain_of_stone(board.cells, p);
                        assert(list[m as int].stones.contains(p));
                    }
                }
            }
            assert forall|v: Seq<char>| #[trigger] flat(groups).contains(v) implies exists|p: usize|
                p < CELL_COUNT && v == #[trigger] vertex_text(p) by {
                if added.contains(v) {
                    let i = added.index_of(v);
                    assert(added[i] == vertex_text(chain.stones[i]));
                }
            }
        } else {
            assert forall|p: usize| p < CELL_COUNT implies (#[trigger] flat(groups).contains(
                vertex_text(p),
            ) <==> in_list(board, status, n, p)) by {
                lemma_in_list_step(board, status, m, p);
            }
        }
    }
}

proof fn lemma_contains_both(a: Seq<Seq<char>>, b: Seq<Seq<char>>, v: Seq<char>)
    ensures
        (a + b).contains(v) <==> a.contains(v) || b.contains(v),
{
    let both = a + b;
    if a.contains(v) {
        assert(both[a.index_of(v)] == v);
    }
    if b.contains(v) {
        assert(both[a.len() + b.index_of(v)] == v);
    }
    if both.contains(v) {
        let i = both.index_of(v);
        if i < a.len() {
            assert(a[i] == v);
        } else {
            assert(b[i - a.len()] == v);
        }
    }
}

proof fn lemma_in_list_step(board: BoardView, status: Status, m: nat, p: usize)
    ensures
        in_list(board, status, m + 1, p) <==> in_list(board, status, m, p) || (chain_list(
            board.cells,
        )[m as int].stones.contains(p) && status_of(board, m as int) == status),
{
    let list = chain_list(board.cells);
    if in_list(board, status, m + 1, p) {
        let id = choose|id: int|
            0 <= id < m + 1 && #[trigger] list[id].stones.contains(p) && status_of(board, id)
                == status;
        if id < m {
            assert(list[id].stones.contains(p));
        }
    }
    if in_list(board, status, m, p) {
        let id = choose|id: int|
            0 <= id < m && #[trigger] list[id].stones.contains(p) && status_of(board, id) == status;
        assert(list[id].stones.contains(p));
    }
}

proof fn lemma_listed_groups(board: BoardView, status: Status, n: nat)
    requires
        board.wf(),
        n <= chain_list(board.cells).len(),
    ensures
        forall|k: int|
            0 <= k < with_status(board, status, n).len() ==> (#[trigger] with_status(
                board,
                status,
                n,
            )[k]).len() > 0,
        forall|k: int, i: int|
            0 <= k < with_status(board, status, n).len() && 0 <= i < with_status(
                board,
                status,
                n,
            )[k].len() ==> (#[trigger] with_status(board, status, n)[k][i]).0 < CELL_COUNT,
    decreases n,
{
    if n > 0 {
        let m = (n - 1) as nat;
        lemma_listed_groups(board, status, m);
        let before = with_status(board, status, m);
        let groups = with_status(board, status, n);
        let chain = chain_list(board.cells)[m as int];
        lemma_chains_below(board.cells, CELL_COUNT as nat);
        lemma_chain_at(board.cells, chain.stones[0]);
        assert(chain == chain_at(board.cells, chain.stones[0]));
        assert forall|k: int, i: int|
            0 <= k < groups.len() && 0 <= i < groups[k].len() implies (#[trigger] groups[k][i]).0
            < CELL_COUNT by {
            if k < before.len() {
                assert(groups[k] == before[k]);
                assert(before[k][i].0 < CELL_COUNT);
            } else {
                assert(groups[k] == as_moves(chain.stones));
                assert(chain_at(board.cells, chain.stones[0]).stones[i] < CELL_COUNT);
            }
        }
        assert forall|k: int| 0 <= k < groups.len() implies (#[trigger] groups[k]).len() > 0 by {
            if k < before.len() {
                assert(groups[k] == before[k]);
            }
        }
    }
}

/// The chain of a stone lives with it.
proof fn lemma_chain_lives(cells: Seq<i8>, p: usize, first: usize)
    requires
        p < CELL_COUNT,
        cells[p as int] != 0,
        same_component(cells, p).contains(first),
    ensures
        alive_at(cells, first) == alive_at(cells, p),
{
    let area = points_with(cells, cells[p as int]);
    lemma_component_basic(area, p);
    lemma_component_of_member(area, p, first);
    if alive_at(cells, p) {
        let kept = choose|kept: Set<usize>| #[trigger] secure(cells, kept) && kept.contains(p);
        assert(same_component(cells, p).subset_of(kept));
        assert(kept.contains(first));
    }
    if alive_at(cells, first) {
        let kept = choose|kept: Set<usize>| #[trigger] secure(cells, kept) && kept.contains(first);
        assert(same_component(cells, first).subset_of(kept));
        assert(same_component(cells, first).contains(p));
        assert(kept.contains(p));
    }
}

/// No chain of the board is unsettled.
pub open spec fn all_settled(board: BoardView) -> bool {
    forall|id: int|
        0 <= id < chain_list(board.cells).len() ==> #[trigger] status_of(board, id)
            != Status::Unsettled
}

proof fn lemma_settled(board: BoardView, n: nat)
    requires
        n <= chain_list(board.cells).len(),
    ensures
        with_status(board, Status::Unsettled, n).len() == 0 <==> forall|id: int|
            0 <= id < n ==> #[trigger] status_of(board, id) != Status::Unsettled,
    decreases n,
{
    if n > 0 {
        lemma_settled(board, (n - 1) as nat);
        assert(status_of(board, n - 1) == status_of(board, n - 1));
    }
}

/// The answers on the status of stones: each stone is named by one of the four
/// lists and once in it. `alive` names the unconditionally alive stones and no
/// others, `dead` those that are taken off before the count, and `seki` and
/// `unsettled` the rest; nothing is said of life and seki while a chain is
/// unsettled. Points without a stone are named nowhere.
pub proof fn law_status_lists_name_each_stone_once(e: EngineView, p: usize)
    requires
        e.wf(),
        p < CELL_COUNT,
    ensures
        ({
            let alive = step_status(e, seq!["alive"@]);
            let seki = step_status(e, seq!["seki"@]);
            let dead = step_status(e, seq!["dead"@]);
            let open = step_status(e, seq!["unsettled"@]);
            let stone = e.board.cells[p as int] != 0;
            &&& dead.0 matches AnswerView::Done(taken) && open.0 matches AnswerView::Done(unsure)
                && {
                &&& words(taken).no_duplicates()
                &&& words(unsure).no_duplicates()
                &&& names(taken, p) <==> stone && without_dead(e.board)[p as int] == 0
                &&& names(taken, p) || names(unsure, p) ==> stone && !alive_at(e.board.cells, p)
                &&& !(names(taken, p) && names(unsure, p))
                &&& if all_settled(e.board) {
                    &&& words(unsure).len() == 0
                    &&& alive.0 matches AnswerView::Done(living) && seki.0 matches AnswerView::Done(
                        mutual,
                    ) && {
                        &&& words(living).no_duplicates()
                        &&& words(mutual).no_duplicates()
                        &&& names(living, p) <==> alive_at(e.board.cells, p)
                        &&& names(mutual, p) <==> stone && !names(living, p) && !names(taken, p)
                    }
                } else {
                    alive.0 is Refused && seki.0 is Refused
                }
            }
        }),
{
    let board = e.board;
    let list = chain_list(board.cells);
    let n = list.len();
    lemma_status_words(board, Status::Alive, n);
    lemma_status_words(board, Status::Seki, n);
    lemma_status_words(board, Status::Dead, n);
    lemma_status_words(board, Status::Unsettled, n);
    lemma_settled(board, n);
    reveal_strlit("alive");
    reveal_strlit("seki");
    reveal_strlit("dead");
    reveal_strlit("unsettled");
    assert("alive"@.len() == 5 && "seki"@.len() == 4 && "dead"@.len() == 4 && "unsettled"@.len()
        == 9);
    assert("seki"@[0] == 's' && "dead"@[0] == 'd');
    let open = with_status(board, Status::Unsettled, n);
    if open.len() == 0 {
        assert(flat(open) =~= Seq::<Seq<char>>::empty());
    }
    if board.cells[p as int] != 0 {
        let id = lemma_chain_of_stone(board.cells, p);
        lemma_chains_below(board.cells, CELL_COUNT as nat);
        let first = list[id].stones[0];
        lemma_chain_at(board.cells, first);
        assert(list[id].stones.contains(first));
        assert(list[id].stones.to_set().contains(first));
        lemma_chain_lives(board.cells, p, first);
        law_only_dead_stones_are_taken_off(board, p, id);
        assert(list[id].stones.contains(p));
        assert(in_list(board, status_of(board, id), n, p));
    } else {
        assert(!alive_at(board.cells, p)) by {
            if alive_at(board.cells, p) {
                let kept = choose|kept: Set<usize>| #[trigger]
                    secure(board.cells, kept) && kept.contains(p);
                assert(kept.contains(p));
            }
        }
        assert forall|status: Status| !in_list(board, status, n, p) by {
            if in_list(board, status, n, p) {
                let id = choose|id: int|
                    0 <= id < n && #[trigger] list[id].stones.contains(p) && status_of(board, id)
                        == status;
                lemma_chains_below(board.cells, CELL_COUNT as nat);
                let first = list[id].stones[0];
                assert(list[id] == chain_at(board.cells, first));
                lemma_chain_at(board.cells, first);
                let i = list[id].stones.index_of(p);
                assert(chain_at(board.cells, first).stones[i] == p);
            }
        }
    }
}

/// An accepted play puts a stone of the named color on the named point, takes
/// off nothing but stones of the other color, and leaves the other side to
/// move; the board before it can be gone back to. A play of the pass changes no
/// stone.
pub proof fn law_play_puts_the_stone_down(
    e: EngineView,
    args: Seq<Seq<char>>,
    player: Player,
    mv: Move,
    p: usize,
)
    requires
        e.wf(),
        args.len() == 2,
        color_of(args[0]) == Some(player),
        move_in(args[1]) == Some(mv),
        step_play(e, args).0 is Done,
        p < CELL_COUNT,
    ensures
        ({
            let after = step_play(e, args).1;
            &&& step_play(e, args).0 == AnswerView::Done(Seq::empty())
            &&& mv.0 == p ==> e.board.cells[p as int] == 0 && after.board.cells[p as int]
                == player.mark()
            &&& mv.0 != p ==> after.board.cells[p as int] == e.board.cells[p as int] || (
            e.board.cells[p as int] == player.opponent().mark() && after.board.cells[p as int] == 0)
            &&& mv == Move::pass_move() ==> after.board.cells == e.board.cells
            &&& after.board.to_move == player.opponent()
            &&& after.board.moves == e.board.moves + 1
            &&& after.board.komi_milli == e.board.komi_milli
            &&& after.undo == e.undo.push(e.board)
            &&& after.clocks == e.clocks
        }),
{
    let board = play_board(e.board, player);
    if mv != Move::pass_move() {
        lemma_captured_color(board.cells, mv.0, player);
    }
}

/// Colors are named by `b`, `w`, `black` and `white`, in small letters or
/// capitals.
pub proof fn law_colors_are_named(text: Seq<char>)
    ensures
        lowered(text) == "b"@ || lowered(text) == "black"@ <==> color_of(text) == Some(
            Player::Black,
        ),
        lowered(text) == "w"@ || lowered(text) == "white"@ <==> color_of(text) == Some(
            Player::White,
        ),
{
    reveal_strlit("b");
    reveal_strlit("black");
    reveal_strlit("w");
    reveal_strlit("white");
    assert("b"@[0] == 'b' && "black"@[0] == 'b' && "w"@[0] == 'w' && "white"@[0] == 'w');
}

/// What is still to be searched is the position on the board, with the named
/// side to move; a game that is over is passed in.
pub proof fn law_moves_are_searched_for_the_named_side(
    e: EngineView,
    args: Seq<Seq<char>>,
    player: Player,
    keep: bool,
)
    requires
        e.wf(),
        args.len() == 1,
        color_of(args[0]) == Some(player),
    ensures
        match step_genmove(e, args, keep).0 {
            AnswerView::Search { board, player: asked, keep: kept, nanos } => {
                &&& asked == player
                &&& kept == keep
                &&& board.to_move == player
                &&& board.cells == e.board.cells
                &&& board.history == e.board.history
                &&& board.komi_milli == e.board.komi_milli
                &&& board.moves == e.board.moves
                &&& !board.finished()
                &&& e.board.to_move == player ==> board == e.board
                &&& nanos is Some <==> e.clocks is Some
            },
            AnswerView::Done(text) => text == "pass"@ && (e.board.moves >= MAX_MOVES || (
            e.board.to_move == player && e.board.passes >= 2)),
            _ => false,
        },
{
}

/// A move that was found is played for the side that asked, where it is to be
/// kept, and is named in the answer.
pub proof fn law_found_moves_are_played_and_named(
    e: EngineView,
    board: BoardView,
    player: Player,
    mv: Move,
    elapsed: u128,
)
    requires
        e.wf(),
        board.wf(),
        board.to_move == player,
        board.legal(mv),
    ensures
        ({
            let (answer, after) = move_found(e, board, player, true, mv, elapsed);
            &&& answer matches AnswerView::Done(text) && (mv.0 < CELL_COUNT ==> text == vertex_text(
                mv.0,
            ) && after.board.cells[mv.0 as int] == player.mark()) && (mv == Move::pass_move()
                ==> text == "pass"@ && after.board.cells == board.cells)
            &&& after.board.to_move == player.opponent()
            &&& after.undo == e.undo.push(e.board)
        }),
{
    if mv != Move::pass_move() {
        lemma_captured_color(board.cells, mv.0, player);
    }
}

/// Clearing the board takes off every stone and everything that could be
/// undone, leaves Black to move, and keeps the komi.
pub proof fn law_clearing_keeps_only_the_komi(e: EngineView, p: usize)
    requires
        e.wf(),
        p < CELL_COUNT,
    ensures
        ({
            let (answer, after) = step(e, "clear_board"@, Seq::empty());
            &&& answer == AnswerView::Done(Seq::empty())
            &&& after.board.cells[p as int] == 0
            &&& after.board.to_move == Player::Black
            &&& after.board.moves == 0
            &&& after.board.passes == 0
            &&& after.board.komi_milli == e.board.komi_milli
            &&& after.undo.len() == 0
            &&& after.settings == e.settings
        }),
{
    lemma_clear_board_is_no_other();
}

proof fn lemma_clear_board_is_no_other()
    ensures
        "clear_board"@ != "protocol_version"@,
        "clear_board"@ != "name"@,
        "clear_board"@ != "version"@,
        "clear_board"@ != "known_command"@,
        "clear_board"@ != "list_commands"@,
        "clear_board"@ != "quit"@,
        "clear_board"@ != "boardsize"@,
{
    reveal_strlit("clear_board");
    reveal_strlit("protocol_version");
    reveal_strlit("name");
    reveal_strlit("version");
    reveal_strlit("known_command");
    reveal_strlit("list_commands");
    reveal_strlit("quit");
    reveal_strlit("boardsize");
    assert("clear_board"@[0] == 'c');
    assert("protocol_version"@[0] == 'p' && "name"@[0] == 'n' && "version"@[0] == 'v');
    assert("known_command"@[0] == 'k' && "list_commands"@[0] == 'l');
    assert("quit"@[0] == 'q' && "boardsize"@[0] == 'b');
}

/// The score of a side as a text: its letter, a plus sign, and the points
/// without needless zeros.
pub proof fn law_score_texts_name_the_leader(milli: int)
    ensures
        milli > 0 ==> score_text_of(milli).len() > 2 && score_text_of(milli)[0] == 'B'
            && score_text_of(milli)[1] == '+',
        milli < 0 ==> score_text_of(milli).len() > 2 && score_text_of(milli)[0] == 'W'
            && score_text_of(milli)[1] == '+',
        milli == 0 ==> score_text_of(milli) == "0"@,
        milli != 0 ==> score_text_of(-milli).skip(1) == score_text_of(milli).skip(1),
{
    if milli != 0 {
        let size = if milli < 0 {
            -milli
        } else {
            milli
        };
        law_decimal_reads_back((size / 1000) as nat);
        assert(score_text_of(-milli).skip(1) =~= score_text_of(milli).skip(1));
    }
}

/// The points of a score text read back: the digits before the point are the
/// whole points, and those behind it, filled up to three, the thousandths.
pub proof fn law_score_texts_read_back(milli: int)
    requires
        milli != 0,
    ensures
        ({
            let size = if milli < 0 {
                -milli
            } else {
                milli
            };
            let points = score_text_of(milli).skip(2);
            if size % 1000 == 0 {
                all_digits(points) && value_of(points) == size / 1000
            } else {
                exists|whole: Seq<char>, part: Seq<char>|
                    {
                        &&& points == #[trigger] (whole.push('.') + part)
                        &&& all_digits(whole)
                        &&& value_of(whole) == size / 1000
                        &&& all_digits(part)
                        &&& 1 <= part.len() <= 3
                        &&& part.last() != '0'
                        &&& value_of(part) * (if part.len() == 1 {
                            100
                        } else if part.len() == 2 {
                            10
                        } else {
                            1int
                        }) == size % 1000
                    }
            }
        }),
{
    let size = if milli < 0 {
        -milli
    } else {
        milli
    };
    let whole = decimal((size / 1000) as nat);
    law_decimal_reads_back((size / 1000) as nat);
    let points = score_text_of(milli).skip(2);
    if size % 1000 == 0 {
        assert(points =~= whole);
    } else {
        let rest = size % 1000;
        let part = fraction_text(rest);
        lemma_fraction(rest);
        assert(points =~= whole.push('.') + part);
    }
}

proof fn lemma_fraction(rest: int)
    requires
        0 < rest < 1000,
    ensures
        ({
            let part = fraction_text(rest);
            &&& all_digits(part)
            &&& 1 <= part.len() <= 3
            &&& part.last() != '0'
            &&& value_of(part) * (if part.len() == 1 {
                100
            } else if part.len() == 2 {
                10
            } else {
                1int
            }) == rest
        }),
{
    let part = fraction_text(rest);
    let (a, b, c) = ((rest / 100) as nat, (rest / 10 % 10) as nat, (rest % 10) as nat);
    let (x, y, z) = (digit_of(a), digit_of(b), digit_of(c));
    assert(decimal(a) =~= seq![x]);
    assert(decimal(b) =~= seq![y]);
    assert(decimal(c) =~= seq![z]);
    law_decimal_reads_back(a);
    law_decimal_reads_back(b);
    law_decimal_reads_back(c);
    let none = Seq::<char>::empty();
    assert(value_of(none) == 0);
    assert(seq![x].drop_last() =~= none);
    assert(seq![y].drop_last() =~= none);
    assert(seq![z].drop_last() =~= none);
    assert(digit_char(seq![x][0]) && digit_char(seq![y][0]) && digit_char(seq![z][0]));
    assert(x as u32 - '0' as u32 == a && y as u32 - '0' as u32 == b && z as u32 - '0' as u32 == c);
    let (s1, s2, s3) = (seq![x], seq![x, y], seq![x, y, z]);
    assert(value_of(s1) == a);
    assert(s2.drop_last() =~= s1);
    assert(s3.drop_last() =~= s2);
    assert(s2.last() == y && s3.last() == z);
    assert(value_of(s2) == a * 10 + b);
    assert(value_of(s3) == (a * 10 + b) * 10 + c);
    assert(rest == a * 100 + b * 10 + c);
    assert(s3[0] == x && s3[1] == y && s3[2] == z);
    assert(all_digits(s3));
    if rest % 100 == 0 {
        assert(part =~= s1);
        assert(b == 0 && c == 0);
        assert(all_digits(s1));
    } else if rest % 10 == 0 {
        assert(part =~= s2);
        assert(s2[0] == x && s2[1] == y);
        assert(all_digits(s2));
    } else {
        assert(part =~= s3);
    }
}

/// A final score is the count of the game: it names the winner, and no game
/// that nobody won has one but a drawn game, whose score is `0`.
pub proof fn law_final_scores_name_the_winner(e: EngineView, player: Player)
    requires
        e.wf(),
    ensures
        match step_score(e, Seq::empty(), true).0 {
            AnswerView::Done(text) => {
                &&& text == score_text_of(lead_of(e.board, Player::Black))
                &&& outcome_of(e.board) == Some(Outcome::Win(Player::Black)) <==> text[0] == 'B'
                &&& outcome_of(e.board) == Some(Outcome::Win(Player::White)) <==> text[0] == 'W'
                &&& outcome_of(e.board) == Some(Outcome::Draw) <==> text == "0"@
            },
            AnswerView::Refused(text) => outcome_of(e.board) is None || outcome_of(e.board) == Some(
                Outcome::Aborted,
            ) || !all_settled(e.board),
            _ => false,
        },
        step_score(e, Seq::empty(), false).0 == AnswerView::Done(
            score_text_of(lead_of(e.board, Player::Black)),
        ),
{
    reveal_strlit("0");
    assert("0"@[0] == '0');
    let lead = lead_of(e.board, Player::Black);
    law_score_texts_name_the_leader(lead);
    law_the_winner_has_more_points(e.board, Player::Black);
    law_the_winner_has_more_points(e.board, Player::White);
    law_leads_are_opposed(e.board, Player::Black);
    law_settled_score_is_the_lead(e.board);
    lemma_settled(e.board, chain_list(e.board.cells).len());
}

/// A command is called known if and only if it is not refused as unknown.
pub proof fn law_known_commands_are_carried_out(e: EngineView, name: Seq<char>, args: Seq<Seq<char>>)
    ensures
        step(e, "known_command"@, seq![name]).0 == AnswerView::Done("true"@) <==> step(
            e,
            name,
            args,
        ) != refused(e, "unknown command"@),
        step(e, "known_command"@, seq![name]).0 == AnswerView::Done("true"@) || step(
            e,
            "known_command"@,
            seq![name],
        ).0 == AnswerView::Done("false"@),
{
    reveal_strlit("known_command");
    reveal_strlit("protocol_version");
    reveal_strlit("name");
    reveal_strlit("version");
    reveal_strlit("true");
    reveal_strlit("false");
    reveal_strlit("unknown command");
    reveal_strlit("syntax error");
    reveal_strlit("invalid integer");
    reveal_strlit("unacceptable size");
    reveal_strlit("invalid color");
    reveal_strlit("invalid vertex");
    reveal_strlit("illegal move");
    reveal_strlit("cannot undo");
    reveal_strlit("cannot score");
    reveal_strlit("cannot determine status");
    reveal_strlit("invalid status");
    reveal_strlit("board not empty");
    reveal_strlit("invalid handicap");
    assert("known_command"@[0] == 'k' && "protocol_version"@[0] == 'p' && "name"@[0] == 'n'
        && "version"@[0] == 'v');
    assert("true"@[0] == 't' && "false"@[0] == 'f');
    assert("unknown command"@[0] == 'u' && "unacceptable size"@[2] == 'a' && "unknown command"@[2]
        == 'k');
    assert("syntax error"@[0] == 's' && "invalid integer"@[0] == 'i' && "invalid color"@[0] == 'i');
    assert("invalid vertex"@[0] == 'i' && "illegal move"@[0] == 'i' && "cannot undo"@[0] == 'c');
    assert("cannot score"@[0] == 'c' && "cannot determine status"@[0] == 'c');
    assert("invalid status"@[0] == 'i' && "board not empty"@[0] == 'b' && "invalid handicap"@[0]
        == 'i');
    let listed = command_names();
    if listed.contains(name) {
        let i = listed.index_of(name);
        assert(listed[i] == name);
    } else {
        law_unknown_commands_are_refused(e, name, args);
    }
}

/// The time for a move lies between a millisecond and a minute and leaves time
/// on a clock that has more than a millisecond.
pub proof fn law_thinking_fits_the_clock(clock: Clock)
    ensures
        1_000_000 <= think_nanos(clock) <= 60_000_000_000,
        clock.remaining > 1_000_000 ==> think_nanos(clock) < clock.remaining,
{
    let moves = if clock.stones > 0 {
        clock.stones as int
    } else {
        30
    };
    let remaining = clock.remaining as int;
    assert(remaining > 0 ==> remaining * 9 / (10 * moves) < remaining) by (nonlinear_arith)
        requires
            moves >= 1,
            remaining >= 0,
    ;
}

/// A move takes its time off the clock of the side that made it, and no more;
/// the other clock stands still.
pub proof fn law_clocks_run_for_the_side_that_moves(
    e: EngineView,
    board: BoardView,
    player: Player,
    mv: Move,
    elapsed: u128,
)
    requires
        e.wf(),
        board.legal(mv),
        e.clocks is Some,
        clock_of(e.clocks->0, player).remaining > elapsed,
        clock_of(e.clocks->0, player).stones != 1,
    ensures
        ({
            let before = e.clocks->0;
            let after = move_found(e, board, player, true, mv, elapsed).1;
            &&& after.clocks is Some
            &&& clock_of(after.clocks->0, player.opponent()) == clock_of(before, player.opponent())
            &&& clock_of(after.clocks->0, player).remaining == clock_of(before, player).remaining
                - elapsed
            &&& clock_of(before, player).stones > 0 ==> clock_of(after.clocks->0, player).stones
                == clock_of(before, player).stones - 1
            &&& clock_of(before, player).stones == 0 ==> clock_of(after.clocks->0, player).stones
                == 0
        }),
{
}

/// A play is accepted whenever the stone may be put there, whoever is to move
/// and though both have passed, as long as the game is not too long; a pass
/// always is then.
pub proof fn law_legal_plays_are_accepted(
    e: EngineView,
    args: Seq<Seq<char>>,
    player: Player,
    mv: Move,
)
    requires
        e.wf(),
        args.len() == 2,
        color_of(args[0]) == Some(player),
        move_in(args[1]) == Some(mv),
    ensures
        e.board.moves < MAX_MOVES && (mv == Move::pass_move() || e.board.placed(
            mv,
            player,
        ) is Some) ==> step_play(e, args).0 is Done,
        e.board.moves < MAX_MOVES && mv != Move::pass_move() && e.board.placed(mv, player) is None
            ==> step_play(e, args) == refused(e, "illegal move"@),
        e.board.moves >= MAX_MOVES ==> step_play(e, args) == refused(e, "illegal move"@),
{
}

} // verus!
