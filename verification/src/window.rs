//! What a window search may rely on: the scores of finished games, the order
//! of moves, the memory, and the threats.
use crate::alphabeta::{winning_below, wins, Bound};
use crate::fives::{law_winning_moves_are_listed_once, seen_through};
use crate::game::{BoardView, Move, Outcome, Player, ACTION_COUNT};
use crate::moves::law_legal_moves_are_complete;
use crate::scoring::outcome_of;
use crate::search::{
    class_of_move, finished_score, key_of, searched_moves, sound, threat_of, Deepening, EntryView,
    MoveLoop, SearcherView, Step, Stored, ThreatView, MATE_SCORE,
};
use vstd::prelude::*;

verus! {

/// A won game scores above every other, and the more the sooner it is won; a
/// lost one below, and the less the sooner; all others are even.
pub proof fn law_sooner_wins_score_more(winner: Player, to_move: Player, ply: int)
    requires
        0 <= ply < 10_000,
    ensures
        winner == to_move <==> finished_score(Outcome::Win(winner), to_move, ply) > 0,
        winner != to_move <==> finished_score(Outcome::Win(winner), to_move, ply) < 0,
        winner == to_move ==> finished_score(Outcome::Win(winner), to_move, ply)
            > finished_score(Outcome::Win(winner), to_move, ply + 1),
        winner != to_move ==> finished_score(Outcome::Win(winner), to_move, ply)
            < finished_score(Outcome::Win(winner), to_move, ply + 1),
        finished_score(Outcome::Draw, to_move, ply) == 0,
        finished_score(Outcome::Aborted, to_move, ply) == 0,
        finished_score(Outcome::Win(to_move), to_move, 0) == MATE_SCORE,
{
}

/// The stored move comes before every other; a move that wins before one that
/// does not; a move that stops a win before one that does neither.
pub proof fn law_urgent_moves_are_ranked_first(
    board: BoardView,
    a: Move,
    b: Move,
    stored: Option<Move>,
)
    requires
        stored != Some(b),
    ensures
        stored == Some(a) ==> class_of_move(board, a, stored) > class_of_move(board, b, stored),
        stored != Some(a) ==> {
            let me = board.to_move;
            let other = me.opponent();
            &&& wins(board, a, me) && !wins(board, b, me) ==> class_of_move(board, a, stored)
                > class_of_move(board, b, stored)
            &&& !wins(board, a, me) && !wins(board, b, me) && wins(board, a, other) && !wins(
                board,
                b,
                other,
            ) ==> class_of_move(board, a, stored) > class_of_move(board, b, stored)
            &&& wins(board, a, me) == wins(board, b, me) && wins(board, a, other) == wins(
                board,
                b,
                other,
            ) ==> class_of_move(board, a, stored) == class_of_move(board, b, stored)
        },
{
}

/// Some action wins for the player.
pub open spec fn can_win(board: BoardView, player: Player) -> bool {
    exists|mv: Move| mv.0 < ACTION_COUNT && #[trigger] wins(board, mv, player)
}

proof fn lemma_can_win(board: BoardView, player: Player)
    ensures
        can_win(board, player) <==> winning_below(board, player, ACTION_COUNT as nat).len() > 0,
{
    let list = winning_below(board, player, ACTION_COUNT as nat);
    if can_win(board, player) {
        let mv = choose|mv: Move| mv.0 < ACTION_COUNT && #[trigger] wins(board, mv, player);
        law_winning_moves_are_listed_once(board, player, ACTION_COUNT as nat, mv);
        assert(list.contains(mv));
    }
    if list.len() > 0 {
        law_winning_moves_are_listed_once(board, player, ACTION_COUNT as nat, list[0]);
        assert(list.contains(list[0]));
        assert(wins(board, list[0], player));
    }
}

/// A position is searched by the actions that win, if there are any; else by
/// those that take a win away, if there are any; else by all that are legal.
/// Every one of them is legal.
pub proof fn law_positions_are_searched_by_urgent_moves(board: BoardView, mv: Move)
    ensures
        ({
            let me = board.to_move;
            let other = me.opponent();
            let searched = searched_moves(board).contains(mv);
            &&& searched ==> board.legal(mv)
            &&& can_win(board, me) ==> (searched <==> mv.0 < ACTION_COUNT && wins(board, mv, me))
            &&& !can_win(board, me) && can_win(board, other) ==> (searched <==> mv.0 < ACTION_COUNT
                && wins(board, mv, other))
            &&& !can_win(board, me) && !can_win(board, other) ==> (searched <==> mv.0
                < ACTION_COUNT && board.legal(mv))
        }),
{
    let n = ACTION_COUNT as nat;
    lemma_can_win(board, board.to_move);
    lemma_can_win(board, board.to_move.opponent());
    law_winning_moves_are_listed_once(board, board.to_move, n, mv);
    law_winning_moves_are_listed_once(board, board.to_move.opponent(), n, mv);
    law_legal_moves_are_complete(board, mv);
}

/// Where only threats are searched, a win that is told is one, and scores as
/// the won game one ply later; blocks are told only where there is no win, and
/// are the actions with which the opponent would win. A position is judged if
/// no more plies remain, and if the last action was to threaten and did not.
pub proof fn law_threats_are_told_as_they_are(
    board: BoardView,
    last: Option<Move>,
    ply: int,
    remaining: int,
    trigger: bool,
    mv: Move,
)
    ensures
        ({
            let me = board.to_move;
            let told = threat_of(board, last, ply, remaining, trigger);
            &&& told matches ThreatView::Finished(score) ==> outcome_of(board) is Some && score
                == finished_score(outcome_of(board)->0, me, ply)
            &&& outcome_of(board) is Some ==> told is Finished
            &&& told matches ThreatView::Win(best, score) ==> wins(board, best, me) && score
                == finished_score(Outcome::Win(me), me, ply + 1)
            &&& told matches ThreatView::Block(moves) ==> !can_win(board, me) && moves.len() > 0
                && (moves.contains(mv) <==> mv.0 < ACTION_COUNT && wins(board, mv, me.opponent()))
            &&& outcome_of(board) is None && remaining != 0 && !trigger ==> (told is Win
                <==> can_win(board, me)) && (told is Judge <==> !can_win(board, me) && !can_win(
                board,
                me.opponent(),
            ))
            &&& outcome_of(board) is None && remaining == 0 ==> told is Judge
            &&& outcome_of(board) is None && trigger && last is None ==> told is Judge
        }),
{
    let n = ACTION_COUNT as nat;
    let me = board.to_move;
    lemma_can_win(board, me);
    lemma_can_win(board, me.opponent());
    law_winning_moves_are_listed_once(board, me.opponent(), n, mv);
    let list = winning_below(board, me, n);
    if list.len() > 0 {
        law_winning_moves_are_listed_once(board, me, n, list[0]);
        assert(list.contains(list[0]));
    }
}

/// What is stored is true of a score: exact, or a bound on its side.
pub open spec fn true_of(stored: Stored, score: int) -> bool {
    match stored.bound {
        Bound::Exact => score == stored.value,
        Bound::Lower => score >= stored.value,
        Bound::Upper => score <= stored.value,
    }
}

/// What is remembered of a position is true if the loop over its actions was
/// true to its window; nothing that is remembered under another key changes.
pub proof fn law_what_is_remembered_is_true(
    searcher: SearcherView,
    board: BoardView,
    other: BoardView,
    depth: u16,
    children: MoveLoop,
    moves: Seq<Move>,
    score: int,
)
    requires
        children.wf(),
        sound(children.best as int, score, children.original as int, children.beta as int),
    ensures
        ({
            let after = searcher.with_result(board, depth, children, moves);
            &&& after.entry(board) matches Some(stored) && true_of(stored, score) && stored.depth
                == depth && stored.value == children.best && stored.best == children.best_move(
                moves,
            )
            &&& key_of(other) != key_of(board) ==> after.entry(other) == searcher.entry(other)
            &&& after.nodes == searcher.nodes && after.tt_hits == searcher.tt_hits
            &&& searcher.beta_cutoffs < u64::MAX ==> after.beta_cutoffs == searcher.beta_cutoffs
                + (if children.alpha >= children.beta {
                1int
            } else {
                0int
            })
        }),
{
}

/// A score that is known from the memory looks as the true one does through
/// the window, was searched as deep at least, and costs no search.
pub proof fn law_known_scores_are_true(
    searcher: SearcherView,
    board: BoardView,
    depth: u16,
    ply: u16,
    alpha: i64,
    beta: i64,
    score: int,
)
    requires
        searcher.wf(),
        alpha < beta,
        searcher.entry(board) matches Some(stored) ==> true_of(stored, score),
    ensures
        ({
            let (found, after) = searcher.entered(board, depth, ply, alpha, beta);
            &&& found matches EntryView::Known(value, best) ==> {
                &&& seen_through(value as int, alpha, beta) == seen_through(score, alpha, beta)
                &&& searcher.entry(board) matches Some(stored) && stored.depth >= depth
                    && stored.best == best
            }
            &&& (searcher.entry(board) is Some && searcher.entry(board)->0.depth >= depth
                && searcher.entry(board)->0.bound == Bound::Exact && outcome_of(board) is None
                && depth > 0 && !(found is Exhausted)) ==> found is Known
            &&& found is Exhausted <==> searcher.nodes >= searcher.max_nodes
            &&& !(found is Exhausted) ==> after.nodes == searcher.nodes + 1
            &&& found is Exhausted ==> after == searcher
            &&& found matches EntryView::Finished(value) ==> outcome_of(board) is Some && value
                == finished_score(outcome_of(board)->0, board.to_move, ply as int)
            &&& outcome_of(board) is Some && !(found is Exhausted) ==> found is Finished
            &&& found is Leaf ==> depth == 0 && outcome_of(board) is None
            &&& depth == 0 && !(found is Exhausted) ==> found is Leaf || found is Finished
            &&& found matches EntryView::Moves(moves, first) ==> moves.len() > 0 && moves
                == searched_moves(board) && (first is Some ==> searcher.entry(board) is Some
                && first == searcher.entry(board)->0.best)
            &&& after.table == searcher.table
            &&& found is Known ==> after.tt_hits == searcher.tt_hits + 1
        }),
{
}

/// The child that is chosen is the first with the best score, and its score
/// was above the best before it; a child that is searched anew is not yet
/// counted.
pub proof fn law_the_chosen_child_is_the_best(state: MoveLoop, value: i64)
    requires
        state.wf(),
        !(state.step() is Done),
    ensures
        ({
            let after = state.answered(value);
            &&& !after.again ==> after.next == state.next + 1
            &&& after.again ==> after.best == state.best && after.chosen == state.chosen
                && after.next == state.next
            &&& after.again ==> state.step() is Narrow && after.step() is Full
            &&& !after.again ==> after.best >= value
            &&& !after.again && value > state.best ==> after.chosen == Some(state.next)
                && after.best == value
            &&& value <= state.best ==> after.chosen == state.chosen && after.best == state.best
            &&& after.beta == state.beta && after.count == state.count && after.original
                == state.original
            &&& state.step() is Full ==> !after.again
        }),
{
}

/// A loop ends when all children are searched or the best score reaches the
/// upper end, and not before; the first child always has the whole window.
pub proof fn law_loops_end_when_nothing_matters(state: MoveLoop)
    requires
        state.wf(),
    ensures
        state.step() is Done <==> state.next == state.count || state.best >= state.beta,
        state.next == 0 ==> !(state.step() is Narrow),
        !state.narrow ==> !(state.step() is Narrow),
        state.step() matches Step::Full(index) ==> index == state.next,
        state.step() matches Step::Narrow(index) ==> index == state.next && state.narrow,
{
}

/// Depth after depth is searched, from one to the greatest, until a depth is
/// not finished or decides; what the last finished depth found is what counts.
pub proof fn law_depths_come_one_by_one(
    state: Deepening,
    value: i64,
    best: Option<Move>,
    decided: bool,
)
    requires
        state.wf(),
        state.next() is Some,
    ensures
        ({
            let after = state.reported(Some((value, best)), decided);
            &&& state.next() == Some((state.completed + 1) as u16)
            &&& after.completed == state.completed + 1
            &&& after.value == value
            &&& best is Some ==> after.best == best
            &&& best is None ==> after.best == state.best
            &&& after.next() is None <==> decided || after.completed == after.max_depth
            &&& after.max_depth == state.max_depth
            &&& state.reported(None, decided).next() is None
        }),
{
}

/// The line begins with the remembered best action of the position, if it is
/// legal, and goes on with the line of the position after it.
pub proof fn law_the_line_follows_the_memory(searcher: SearcherView, board: BoardView, depth: nat)
    requires
        depth > 0,
    ensures
        ({
            let line = searcher.line_from(board, depth);
            &&& line.len() > 0 <==> (searcher.entry(board) matches Some(stored) && (
            stored.best matches Some(mv) && board.legal(mv)))
            &&& line.len() > 0 ==> searcher.entry(board)->0.best == Some(line[0])
                && line.drop_first() == searcher.line_from(
                board.played(line[0]),
                (depth - 1) as nat,
            )
        }),
{
    let line = searcher.line_from(board, depth);
    if line.len() > 0 {
        let rest = searcher.line_from(board.played(line[0]), (depth - 1) as nat);
        assert(line == seq![line[0]] + rest);
        assert(line.drop_first() =~= rest);
    }
}

/// A node of the threats is a node: both counts grow by one, and nothing else
/// changes.
pub proof fn law_threats_are_counted_as_nodes(searcher: SearcherView)
    requires
        searcher.wf(),
        !searcher.exhausted(),
    ensures
        ({
            let after = searcher.with_threat_node();
            &&& after.nodes == searcher.nodes + 1
            &&& after.threat_nodes == searcher.threat_nodes + 1
            &&& after.nodes <= after.max_nodes == searcher.max_nodes
            &&& after.table == searcher.table && after.tt_hits == searcher.tt_hits
        }),
        searcher.exhausted() <==> searcher.nodes == searcher.max_nodes,
{
}

/// A position is stuck only if there is nothing to search; one that the memory
/// does not know and that has actions is searched by them.
pub proof fn law_positions_with_actions_are_searched(
    searcher: SearcherView,
    board: BoardView,
    depth: u16,
    ply: u16,
    alpha: i64,
    beta: i64,
)
    requires
        searcher.wf(),
    ensures
        ({
            let found = searcher.entered(board, depth, ply, alpha, beta).0;
            &&& found is Stuck ==> searched_moves(board).len() == 0
            &&& (!(found is Exhausted) && depth > 0 && outcome_of(board) is None && searcher.entry(
                board,
            ) is None && searched_moves(board).len() > 0) ==> found == EntryView::Moves(
                searched_moves(board),
                None,
            )
        }),
{
}

} // verus!
