//! Five in a row: which actions make it, which stop it, and the decisions of
//! a window search over scores that are ordered as whole numbers.
use crate::game::{Board, BoardView, Move, Player, ACTION_COUNT};
use crate::grid::{BOARD_SIZE, CELL_COUNT};
use vstd::prelude::*;

verus! {

/// Limits of a search.
#[derive(Clone, Copy, Debug, PartialEq, Eq, Structural)]
pub struct AlphaBetaConfig {
    pub max_depth: u16,
    pub max_nodes: u64,
    pub threat_extension_depth: u16,
}

impl Default for AlphaBetaConfig {
    fn default() -> (result: AlphaBetaConfig)
        ensures
            result.max_depth == 8,
            result.max_nodes == 100_000,
            result.threat_extension_depth == 8,
    {
        AlphaBetaConfig { max_depth: 8, max_nodes: 100_000, threat_extension_depth: 8 }
    }
}

/// The row `j` steps along an axis: 0 is down a column, 1 along a row, 2 and 3
/// are the diagonals.
pub open spec fn axis_row(row: int, axis: int, j: int) -> int {
    if axis == 1 {
        row
    } else {
        row + j
    }
}

pub open spec fn axis_col(col: int, axis: int, j: int) -> int {
    if axis == 0 {
        col
    } else if axis == 3 {
        col - j
    } else {
        col + j
    }
}

pub open spec fn on_grid(row: int, col: int) -> bool {
    0 <= row < 19 && 0 <= col < 19
}

/// The point `j` steps from row and column along the axis holds the mark.
pub open spec fn marked_on(
    cells: Seq<i8>,
    mark: i8,
    row: int,
    col: int,
    axis: int,
    j: int,
) -> bool {
    let r = axis_row(row, axis, j);
    let c = axis_col(col, axis, j);
    on_grid(r, c) && cells[r * 19 + c] == mark
}

/// Five points in a row along the axis, `k` of them before the given one,
/// that all hold the mark but for the given one.
pub open spec fn five_along(
    cells: Seq<i8>,
    mark: i8,
    row: int,
    col: int,
    axis: int,
    k: int,
) -> bool {
    forall|j: int|
        -k <= j <= 4 - k && j != 0 ==> #[trigger] marked_on(cells, mark, row, col, axis, j)
}

/// A stone of the player there makes five in a row.
pub open spec fn makes_five(cells: Seq<i8>, mark: i8, row: int, col: int) -> bool {
    exists|axis: int, k: int|
        0 <= axis < 4 && 0 <= k <= 4 && #[trigger] five_along(cells, mark, row, col, axis, k)
}

/// The action is legal and makes five in a row for the player.
pub open spec fn wins(board: BoardView, mv: Move, player: Player) -> bool {
    board.legal(mv) && makes_five(
        board.cells,
        player.mark(),
        mv.0 as int / 19,
        mv.0 as int % 19,
    )
}

/// How many points in a row hold the mark, going along the axis from the given
/// one, not counting it.
fn run_length(cells: &[i8], mark: i8, row: usize, col: usize, axis: usize, forward: bool) -> (n:
    usize)
    requires
        cells@.len() == CELL_COUNT,
        row <= BOARD_SIZE,
        col < BOARD_SIZE,
        axis < 4,
    ensures
        n <= 20,
        forall|j: int|
            (if forward {
                1 <= j <= n
            } else {
                -n <= j <= -1
            }) ==> #[trigger] marked_on(
                cells@,
                mark,
                row as int,
                col as int,
                axis as int,
                j,
            ),
        !marked_on(
            cells@,
            mark,
            row as int,
            col as int,
            axis as int,
            if forward {
                n + 1
            } else {
                -(n + 1)
            },
        ),
{
    let mut n: usize = 0;
    loop
        invariant
            cells@.len() == CELL_COUNT,
            row <= BOARD_SIZE,
            col < BOARD_SIZE,
            axis < 4,
            n <= 20,
            forall|j: int|
                (if forward {
                    1 <= j <= n
                } else {
                    -n <= j <= -1
                }) ==> #[trigger] marked_on(
                    cells@,
                    mark,
                    row as int,
                    col as int,
                    axis as int,
                    j,
                ),
        decreases 20 - n,
    {
        let step: i32 = if forward {
            n as i32 + 1
        } else {
            -(n as i32) - 1
        };
        let r: i32 = if axis == 1 {
            row as i32
        } else {
            row as i32 + step
        };
        let c: i32 = if axis == 0 {
            col as i32
        } else if axis == 3 {
            col as i32 - step
        } else {
            col as i32 + step
        };
        assert(r == axis_row(row as int, axis as int, step as int));
        assert(c == axis_col(col as int, axis as int, step as int));
        if r < 0 || c < 0 || r >= 19 || c >= 19 {
            return n;
        }
        if cells[r as usize * BOARD_SIZE + c as usize] != mark {
            return n;
        }
        assert(marked_on(cells@, mark, row as int, col as int, axis as int, step as int));
        n = n + 1;
    }
}

/// Runs on both sides make five in a row exactly if five points lie in them.
proof fn lemma_runs(
    cells: Seq<i8>,
    mark: i8,
    row: int,
    col: int,
    axis: int,
    back: int,
    ahead: int,
)
    requires
        0 <= back,
        0 <= ahead,
        forall|i: int| 1 <= i <= ahead ==> #[trigger] marked_on(cells, mark, row, col, axis, i),
        forall|i: int| -back <= i <= -1 ==> #[trigger] marked_on(cells, mark, row, col, axis, i),
        !marked_on(cells, mark, row, col, axis, ahead + 1),
        !marked_on(cells, mark, row, col, axis, -(back + 1)),
    ensures
        (1 + back + ahead >= 5) <==> exists|k: int|
            0 <= k <= 4 && #[trigger] five_along(cells, mark, row, col, axis, k),
{
    if 1 + back + ahead >= 5 {
        let k = if back >= 4 {
            4
        } else {
            back
        };
        assert forall|j: int| -k <= j <= 4 - k && j != 0 implies #[trigger] marked_on(
            cells,
            mark,
            row,
            col,
            axis,
            j,
        ) by {}
        assert(five_along(cells, mark, row, col, axis, k));
    }
    if exists|k: int| 0 <= k <= 4 && #[trigger] five_along(cells, mark, row, col, axis, k) {
        let k = choose|k: int|
            0 <= k <= 4 && #[trigger] five_along(cells, mark, row, col, axis, k);
        if back < k {
            assert(marked_on(cells, mark, row, col, axis, -(back + 1)));
        }
        if ahead < 4 - k {
            assert(marked_on(cells, mark, row, col, axis, ahead + 1));
        }
    }
}

/// Whether the action is legal and makes five in a row for the player.
pub fn would_win(board: &Board, mv: Move, player: Player) -> (result: bool)
    requires
        board@.wf(),
    ensures
        result == wins(board@, mv, player),
{
    if !board.is_legal(mv) {
        return false;
    }
    let cells: &[i8] = board.cells();
    let mark: i8 = player.stone();
    let row: usize = mv.row();
    let col: usize = mv.col();
    let mut axis: usize = 0;
    while axis < 4
        invariant
            board@.wf(),
            cells@ == board@.cells,
            mark == player.mark(),
            row == mv.0 as int / 19,
            col == mv.0 as int % 19,
            row <= BOARD_SIZE,
            col < BOARD_SIZE,
            board@.legal(mv),
            axis <= 4,
            forall|a: int, k: int|
                0 <= a < axis && 0 <= k <= 4 ==> !#[trigger] five_along(
                    cells@,
                    mark,
                    row as int,
                    col as int,
                    a,
                    k,
                ),
        decreases 4 - axis,
    {
        let back: usize = run_length(cells, mark, row, col, axis, false);
        let ahead: usize = run_length(cells, mark, row, col, axis, true);
        proof {
            lemma_runs(
                cells@,
                mark,
                row as int,
                col as int,
                axis as int,
                back as int,
                ahead as int,
            );
        }
        if 1 + back + ahead >= 5 {
            return true;
        }
        axis = axis + 1;
    }
    false
}

/// Within four steps of the action along some axis, the player would win.
pub open spec fn threatens(board: BoardView, mv: Move, player: Player) -> bool {
    let row = mv.0 as int / 19;
    let col = mv.0 as int % 19;
    exists|axis: int, j: int|
        0 <= axis < 4 && -4 <= j <= 4 && j != 0 && #[trigger] wins_along(
            board,
            player,
            row,
            col,
            axis,
            j,
        )
}

pub open spec fn wins_along(
    board: BoardView,
    player: Player,
    row: int,
    col: int,
    axis: int,
    j: int,
) -> bool {
    let r = axis_row(row, axis, j);
    let c = axis_col(col, axis, j);
    on_grid(r, c) && wins(board, Move((r * 19 + c) as usize), player)
}

/// Whether the player would win near the action.
pub fn created_immediate_threat(board: &Board, last_move: Move, player: Player) -> (result: bool)
    requires
        board@.wf(),
        last_move.0 <= CELL_COUNT,
    ensures
        result == threatens(board@, last_move, player),
{
    let row: i32 = last_move.row() as i32;
    let col: i32 = last_move.col() as i32;
    let mut axis: usize = 0;
    while axis < 4
        invariant
            board@.wf(),
            0 <= row <= 19,
            0 <= col < 19,
            row == last_move.0 as int / 19,
            col == last_move.0 as int % 19,
            axis <= 4,
            forall|a: int, j: int|
                0 <= a < axis && -4 <= j <= 4 && j != 0 ==> !#[trigger] wins_along(
                    board@,
                    player,
                    row as int,
                    col as int,
                    a,
                    j,
                ),
        decreases 4 - axis,
    {
        let mut j: i32 = -4;
        while j <= 4
            invariant
                board@.wf(),
                0 <= row <= 19,
                0 <= col < 19,
                row == last_move.0 as int / 19,
                col == last_move.0 as int % 19,
                axis < 4,
                -4 <= j <= 5,
                forall|a: int, i: int|
                    0 <= a < axis && -4 <= i <= 4 && i != 0 ==> !#[trigger] wins_along(
                        board@,
                        player,
                        row as int,
                        col as int,
                        a,
                        i,
                    ),
                forall|i: int|
                    -4 <= i < j && i != 0 ==> !#[trigger] wins_along(
                        board@,
                        player,
                        row as int,
                        col as int,
                        axis as int,
                        i,
                    ),
            decreases 5 - j,
        {
            if j != 0 {
                let r: i32 = if axis == 1 {
                    row
                } else {
                    row + j
                };
                let c: i32 = if axis == 0 {
                    col
                } else if axis == 3 {
                    col - j
                } else {
                    col + j
                };
                assert(r == axis_row(row as int, axis as int, j as int));
                assert(c == axis_col(col as int, axis as int, j as int));
                if 0 <= r && r < 19 && 0 <= c && c < 19 {
                    let near = Move(r as usize * BOARD_SIZE + c as usize);
                    if would_win(board, near, player) {
                        assert(wins_along(
                            board@,
                            player,
                            row as int,
                            col as int,
                            axis as int,
                            j as int,
                        ));
                        return true;
                    }
                }
            }
            j = j + 1;
        }
        axis = axis + 1;
    }
    false
}

/// The actions below `n` with which the player would win, ascending.
pub open spec fn winning_below(board: BoardView, player: Player, n: nat) -> Seq<Move>
    decreases n,
{
    if n == 0 {
        Seq::empty()
    } else {
        let before = winning_below(board, player, (n - 1) as nat);
        if wins(board, Move((n - 1) as usize), player) {
            before.push(Move((n - 1) as usize))
        } else {
            before
        }
    }
}

/// Actions that cannot be passed over.
pub enum ForcingMoves {
    /// The side to move wins at once.
    Win(Vec<Move>),
    /// The opponent would.
    Block(Vec<Move>),
}

fn winning_moves(board: &Board, player: Player) -> (result: Vec<Move>)
    requires
        board@.wf(),
    ensures
        result@ == winning_below(board@, player, ACTION_COUNT as nat),
{
    let mut result: Vec<Move> = Vec::new();
    let mut i: usize = 0;
    while i < ACTION_COUNT
        invariant
            board@.wf(),
            i <= ACTION_COUNT,
            result@ == winning_below(board@, player, i as nat),
        decreases ACTION_COUNT - i,
    {
        if would_win(board, Move(i), player) {
            result.push(Move(i));
        }
        i = i + 1;
    }
    result
}

/// With how many actions the side to move wins after a move, if it may play
/// once more.
pub fn winning_replies_after(board: &Board, mv: Move) -> (n: usize)
    requires
        board@.wf(),
    ensures
        n == (if board@.legal(mv) {
            winning_below(board@.played(mv), board@.to_move, ACTION_COUNT as nat).len()
        } else {
            0
        }),
{
    let player: Player = board.to_move();
    let mut after: Board = board.clone();
    if after.play(mv) {
        winning_moves(&after, player).len()
    } else {
        0
    }
}

/// The winning actions if there are any, else those that stop the opponent
/// from winning, if there are any.
pub fn forcing_moves(board: &Board) -> (result: Option<ForcingMoves>)
    requires
        board@.wf(),
    ensures
        ({
            let n = ACTION_COUNT as nat;
            let own = winning_below(board@, board@.to_move, n);
            let other = winning_below(board@, board@.to_move.opponent(), n);
            match result {
                Some(ForcingMoves::Win(moves)) => own.len() > 0 && moves@ == own,
                Some(ForcingMoves::Block(moves)) => own.len() == 0 && other.len() > 0 && moves@
                    == other,
                None => own.len() == 0 && other.len() == 0,
            }
        }),
{
    let player: Player = board.to_move();
    let winning: Vec<Move> = winning_moves(board, player);
    if winning.len() > 0 {
        return Some(ForcingMoves::Win(winning));
    }
    let blocks: Vec<Move> = winning_moves(board, player.other());
    if blocks.len() > 0 {
        return Some(ForcingMoves::Block(blocks));
    }
    None
}

/// What a stored score says of the true one.
#[derive(Clone, Copy, Debug, PartialEq, Eq, Structural)]
pub enum Bound {
    Exact,
    Lower,
    Upper,
}

/// What the best score of a window search says of the true one.
pub open spec fn bound_for(best: i64, alpha: i64, beta: i64) -> Bound {
    if best <= alpha {
        Bound::Upper
    } else if best >= beta {
        Bound::Lower
    } else {
        Bound::Exact
    }
}

/// What the best score of a window search says of the true one.
pub fn bound_of(best: i64, alpha: i64, beta: i64) -> (result: Bound)
    ensures
        result == bound_for(best, alpha, beta),
{
    if best <= alpha {
        Bound::Upper
    } else if best >= beta {
        Bound::Lower
    } else {
        Bound::Exact
    }
}

/// A stored score settles the window: it was searched deep enough, and is
/// exact or lies outside on the side of its bound.
pub open spec fn settles(
    stored_depth: u16,
    stored: i64,
    bound: Bound,
    depth: u16,
    alpha: i64,
    beta: i64,
) -> bool {
    stored_depth >= depth && match bound {
        Bound::Exact => true,
        Bound::Lower => stored >= beta,
        Bound::Upper => stored <= alpha,
    }
}

/// Whether a stored score can be returned without a search.
pub fn table_settles(
    stored_depth: u16,
    stored: i64,
    bound: Bound,
    depth: u16,
    alpha: i64,
    beta: i64,
) -> (result: bool)
    ensures
        result == settles(stored_depth, stored, bound, depth, alpha, beta),
{
    stored_depth >= depth && match bound {
        Bound::Exact => true,
        Bound::Lower => stored >= beta,
        Bound::Upper => stored <= alpha,
    }
}

/// A bound that is stored after a search is true of it: when the score came
/// out of the window, looking it up with the same window settles it.
pub proof fn law_stored_bound_settles_its_window(best: i64, alpha: i64, beta: i64, depth: u16)
    ensures
        settles(depth, best, bound_for(best, alpha, beta), depth, alpha, beta),
{
}

/// The places that are flagged, ascending.
pub open spec fn flagged_below(flags: Seq<bool>, n: nat) -> Seq<usize>
    decreases n,
{
    if n == 0 {
        Seq::empty()
    } else {
        let before = flagged_below(flags, (n - 1) as nat);
        if flags[n - 1] {
            before.push((n - 1) as usize)
        } else {
            before
        }
    }
}

/// The places from `from` on, as far as the list goes.
pub open spec fn all_places(n: nat) -> Seq<usize> {
    Seq::new(n, |i: int| i as usize)
}

fn flagged(flags: &Vec<bool>) -> (result: Vec<usize>)
    ensures
        result@ == flagged_below(flags@, flags@.len()),
{
    let mut result: Vec<usize> = Vec::new();
    let mut i: usize = 0;
    while i < flags.len()
        invariant
            i <= flags@.len(),
            result@ == flagged_below(flags@, i as nat),
        decreases flags@.len() - i,
    {
        if flags[i] {
            result.push(i);
        }
        i = i + 1;
    }
    result
}

/// Which candidates a node keeps: the winning ones if there are any, else the
/// blocking ones, else at the root the forcing ones, else all.
pub open spec fn kept(
    winning: Seq<bool>,
    blocking: Seq<bool>,
    forcing: Seq<bool>,
    root: bool,
) -> Seq<usize> {
    let n = winning.len();
    if flagged_below(winning, n).len() > 0 {
        flagged_below(winning, n)
    } else if flagged_below(blocking, n).len() > 0 {
        flagged_below(blocking, n)
    } else if root && flagged_below(forcing, n).len() > 0 {
        flagged_below(forcing, n)
    } else {
        all_places(n)
    }
}

/// The candidates that a node keeps, by the flags of each.
pub fn keep_candidates(
    winning: &Vec<bool>,
    blocking: &Vec<bool>,
    forcing: &Vec<bool>,
    root: bool,
) -> (result: Vec<usize>)
    requires
        blocking@.len() == winning@.len(),
        forcing@.len() == winning@.len(),
    ensures
        result@ == kept(winning@, blocking@, forcing@, root),
{
    let first: Vec<usize> = flagged(winning);
    if first.len() > 0 {
        return first;
    }
    let second: Vec<usize> = flagged(blocking);
    if second.len() > 0 {
        return second;
    }
    if root {
        let third: Vec<usize> = flagged(forcing);
        if third.len() > 0 {
            return third;
        }
    }
    let mut all: Vec<usize> = Vec::new();
    let mut i: usize = 0;
    while i < winning.len()
        invariant
            i <= winning@.len(),
            all@.len() == i,
            forall|j: int| 0 <= j < i ==> #[trigger] all@[j] == j,
        decreases winning@.len() - i,
    {
        all.push(i);
        i = i + 1;
    }
    assert(all@ =~= all_places(winning@.len()));
    all
}

} // verus!
