//! Five stones in a row, and what a window search may conclude.
use crate::alphabeta::{
    all_places, axis_col, axis_row, bound_for, five_along, flagged_below, kept, makes_five,
    marked_on, on_grid, settles, threatens, winning_below, wins, wins_along,
};
use crate::colors::{law_legality_favors_no_color, swapped};
use crate::game::{BoardView, Move, Player};
use crate::grid::CELL_COUNT;
use vstd::prelude::*;

verus! {

/// A step to one of the eight points around.
pub open spec fn unit_step(dr: int, dc: int) -> bool {
    -1 <= dr <= 1 && -1 <= dc <= 1 && !(dr == 0 && dc == 0)
}

/// The point in the row and column is on the grid and holds the mark.
pub open spec fn holds_mark(cells: Seq<i8>, mark: i8, r: int, c: int) -> bool {
    0 <= r < 19 && 0 <= c < 19 && cells[19 * r + c] == mark
}

/// From the row and column on, five points one step apart hold the mark.
pub open spec fn five_from(cells: Seq<i8>, mark: i8, r: int, c: int, dr: int, dc: int) -> bool {
    &&& unit_step(dr, dc)
    &&& holds_mark(cells, mark, r, c)
    &&& holds_mark(cells, mark, r + dr, c + dc)
    &&& holds_mark(cells, mark, r + 2 * dr, c + 2 * dc)
    &&& holds_mark(cells, mark, r + 3 * dr, c + 3 * dc)
    &&& holds_mark(cells, mark, r + 4 * dr, c + 4 * dc)
}

/// The five points that start there take in row `r` and column `c`.
pub open spec fn takes_in(sr: int, sc: int, dr: int, dc: int, r: int, c: int) -> bool {
    ||| (r == sr && c == sc)
    ||| (r == sr + dr && c == sc + dc)
    ||| (r == sr + 2 * dr && c == sc + 2 * dc)
    ||| (r == sr + 3 * dr && c == sc + 3 * dc)
    ||| (r == sr + 4 * dr && c == sc + 4 * dc)
}

proof fn lemma_points_differ(r: int, c: int, s: int, d: int)
    requires
        0 <= c < 19,
        0 <= d < 19,
        19 * r + c == 19 * s + d,
    ensures
        r == s && c == d,
{
}

/// A move wins if and only if it is legal and, with the stone set down, five
/// of the player's stones in a row take in its point.
pub proof fn law_a_winning_stone_makes_five(board: BoardView, mv: Move, player: Player)
    requires
        board.wf(),
        mv.0 < CELL_COUNT,
    ensures
        ({
            let down = board.cells.update(mv.0 as int, player.mark());
            let (r, c) = (mv.0 as int / 19, mv.0 as int % 19);
            wins(board, mv, player) <==> board.legal(mv) && exists|
                sr: int,
                sc: int,
                dr: int,
                dc: int,
            | #[trigger]
                five_from(down, player.mark(), sr, sc, dr, dc) && takes_in(sr, sc, dr, dc, r, c)
        }),
{
    let cells = board.cells;
    let mark = player.mark();
    let down = cells.update(mv.0 as int, mark);
    let (r, c) = (mv.0 as int / 19, mv.0 as int % 19);
    assert(19 * r + c == mv.0);
    assert forall|x: int, y: int|
        0 <= x < 19 && 0 <= y < 19 && !(x == r && y == c) implies #[trigger] down[19 * x + y]
        == cells[x * 19 + y] by {
        if 19 * x + y == mv.0 {
            lemma_points_differ(x, y, r, c);
        }
    }
    if makes_five(cells, mark, r, c) {
        let (axis, k) = choose|axis: int, k: int|
            0 <= axis < 4 && 0 <= k <= 4 && #[trigger] five_along(cells, mark, r, c, axis, k);
        let (dr, dc) = (axis_row(0, axis, 1), axis_col(0, axis, 1));
        let (sr, sc) = (axis_row(r, axis, -k), axis_col(c, axis, -k));
        lemma_step_marked(cells, down, mark, r, c, axis, k, 0);
        lemma_step_marked(cells, down, mark, r, c, axis, k, 1);
        lemma_step_marked(cells, down, mark, r, c, axis, k, 2);
        lemma_step_marked(cells, down, mark, r, c, axis, k, 3);
        lemma_step_marked(cells, down, mark, r, c, axis, k, 4);
        assert(five_from(down, mark, sr, sc, dr, dc));
        assert(takes_in(sr, sc, dr, dc, r, c));
    }
    if exists|sr: int, sc: int, dr: int, dc: int| #[trigger]
        five_from(down, mark, sr, sc, dr, dc) && takes_in(sr, sc, dr, dc, r, c) {
        let (sr, sc, dr, dc) = choose|sr: int, sc: int, dr: int, dc: int| #[trigger]
            five_from(down, mark, sr, sc, dr, dc) && takes_in(sr, sc, dr, dc, r, c);
        lemma_five_makes_five(cells, down, mark, r, c, sr, sc, dr, dc);
    }
}

proof fn lemma_step_marked(
    cells: Seq<i8>,
    down: Seq<i8>,
    mark: i8,
    r: int,
    c: int,
    axis: int,
    k: int,
    i: int,
)
    requires
        0 <= r < 19,
        0 <= c < 19,
        0 <= axis < 4,
        0 <= k <= 4,
        0 <= i <= 4,
        five_along(cells, mark, r, c, axis, k),
        down[19 * r + c] == mark,
        forall|x: int, y: int|
            0 <= x < 19 && 0 <= y < 19 && !(x == r && y == c) ==> #[trigger] down[19 * x + y]
                == cells[x * 19 + y],
    ensures
        holds_mark(down, mark, axis_row(r, axis, i - k), axis_col(c, axis, i - k)),
{
    let j = i - k;
    if j != 0 {
        assert(marked_on(cells, mark, r, c, axis, j));
        let (x, y) = (axis_row(r, axis, j), axis_col(c, axis, j));
        assert(down[19 * x + y] == cells[x * 19 + y]);
    }
}

/// The place, from the first of the five, at which the point stands.
proof fn lemma_five_makes_five(
    cells: Seq<i8>,
    down: Seq<i8>,
    mark: i8,
    r: int,
    c: int,
    sr: int,
    sc: int,
    dr: int,
    dc: int,
)
    requires
        0 <= r < 19,
        0 <= c < 19,
        five_from(down, mark, sr, sc, dr, dc),
        takes_in(sr, sc, dr, dc, r, c),
        forall|x: int, y: int|
            0 <= x < 19 && 0 <= y < 19 && !(x == r && y == c) ==> #[trigger] down[19 * x + y]
                == cells[x * 19 + y],
    ensures
        makes_five(cells, mark, r, c),
{
    let forward = dr == 1 || (dr == 0 && dc == 1);
    let axis: int = if dc == 0 {
        0
    } else if dr == 0 {
        1
    } else if dr == dc {
        2
    } else {
        3
    };
    let i: int = if r == sr && c == sc {
        0
    } else if r == sr + dr && c == sc + dc {
        1
    } else if r == sr + 2 * dr && c == sc + 2 * dc {
        2
    } else if r == sr + 3 * dr && c == sc + 3 * dc {
        3
    } else {
        4
    };
    let k = if forward {
        i
    } else {
        4 - i
    };
    assert forall|j: int| -k <= j <= 4 - k && j != 0 implies #[trigger] marked_on(
        cells,
        mark,
        r,
        c,
        axis,
        j,
    ) by {
        let (x, y) = (axis_row(r, axis, j), axis_col(c, axis, j));
        let m = if forward {
            i + j
        } else {
            i - j
        };
        assert(0 <= m <= 4);
        assert(holds_mark(down, mark, x, y)) by {
            if m == 0 {
                assert(x == sr && y == sc);
            } else if m == 1 {
                assert(x == sr + dr && y == sc + dc);
            } else if m == 2 {
                assert(x == sr + 2 * dr && y == sc + 2 * dc);
            } else if m == 3 {
                assert(x == sr + 3 * dr && y == sc + 3 * dc);
            } else {
                assert(x == sr + 4 * dr && y == sc + 4 * dc);
            }
        }
        assert(!(x == r && y == c));
        assert(down[19 * x + y] == cells[x * 19 + y]);
    }
    assert(five_along(cells, mark, r, c, axis, k));
}

/// The two points differ, lie on one row, column or diagonal, and at most four
/// steps apart.
pub open spec fn within_four(r: int, c: int, s: int, d: int) -> bool {
    &&& !(r == s && c == d)
    &&& -4 <= s - r <= 4
    &&& -4 <= d - c <= 4
    &&& (s == r || d == c || s - r == d - c || s - r == c - d)
}

/// A move makes a threat if and only if some other point in a line with it, at
/// most four steps away, would win.
pub proof fn law_threats_are_wins_nearby(board: BoardView, mv: Move, player: Player)
    requires
        board.wf(),
        mv.0 <= CELL_COUNT,
    ensures
        threatens(board, mv, player) <==> exists|w: usize|
            w < CELL_COUNT && #[trigger] wins(board, Move(w), player) && within_four(
                mv.0 as int / 19,
                mv.0 as int % 19,
                w as int / 19,
                w as int % 19,
            ),
{
    let (r, c) = (mv.0 as int / 19, mv.0 as int % 19);
    if threatens(board, mv, player) {
        let (axis, j) = choose|axis: int, j: int|
            0 <= axis < 4 && -4 <= j <= 4 && j != 0 && #[trigger] wins_along(
                board,
                player,
                r,
                c,
                axis,
                j,
            );
        let (x, y) = (axis_row(r, axis, j), axis_col(c, axis, j));
        let w = (x * 19 + y) as usize;
        assert(w as int / 19 == x && w as int % 19 == y);
        assert(wins(board, Move(w), player));
    }
    if exists|w: usize|
        w < CELL_COUNT && #[trigger] wins(board, Move(w), player) && within_four(
            r,
            c,
            w as int / 19,
            w as int % 19,
        ) {
        let w = choose|w: usize|
            w < CELL_COUNT && #[trigger] wins(board, Move(w), player) && within_four(
                r,
                c,
                w as int / 19,
                w as int % 19,
            );
        let (s, d) = (w as int / 19, w as int % 19);
        let axis: int = if d == c {
            0
        } else if s == r {
            1
        } else if s - r == d - c {
            2
        } else {
            3
        };
        let j = if s == r {
            d - c
        } else {
            s - r
        };
        assert(axis_row(r, axis, j) == s && axis_col(c, axis, j) == d);
        assert(on_grid(s, d) && (s * 19 + d) as usize == w);
        assert(wins_along(board, player, r, c, axis, j));
    }
}

/// Five in a row counts for both colors alike.
pub proof fn law_fives_favor_no_color(board: BoardView, mv: Move, player: Player)
    requires
        board.wf(),
        mv.0 < CELL_COUNT,
    ensures
        wins(board.exchanged(), mv, player.opponent()) == wins(board, mv, player),
{
    law_legality_favors_no_color(board, mv);
    let (r, c) = (mv.0 as int / 19, mv.0 as int % 19);
    assert forall|axis: int, k: int| 0 <= axis < 4 && 0 <= k <= 4 implies #[trigger] five_along(
        board.cells,
        player.mark(),
        r,
        c,
        axis,
        k,
    ) == five_along(swapped(board.cells), player.opponent().mark(), r, c, axis, k) by {
        assert forall|j: int|
            -k <= j <= 4 - k && j != 0 implies #[trigger] marked_on(
            board.cells,
            player.mark(),
            r,
            c,
            axis,
            j,
        ) == marked_on(swapped(board.cells), player.opponent().mark(), r, c, axis, j) by {
            let (x, y) = (axis_row(r, axis, j), axis_col(c, axis, j));
            if on_grid(x, y) {
                assert(0 <= x * 19 + y < CELL_COUNT);
            }
        }
        let (a, b) = (
            five_along(board.cells, player.mark(), r, c, axis, k),
            five_along(swapped(board.cells), player.opponent().mark(), r, c, axis, k),
        );
        if a {
            assert forall|j: int| -k <= j <= 4 - k && j != 0 implies #[trigger] marked_on(
                swapped(board.cells),
                player.opponent().mark(),
                r,
                c,
                axis,
                j,
            ) by {
                assert(marked_on(board.cells, player.mark(), r, c, axis, j));
            }
        }
    }
    let (one, two) = (board.cells, swapped(board.cells));
    if makes_five(one, player.mark(), r, c) {
        let (axis, k) = choose|axis: int, k: int|
            0 <= axis < 4 && 0 <= k <= 4 && #[trigger] five_along(
                one,
                player.mark(),
                r,
                c,
                axis,
                k,
            );
        assert(five_along(two, player.opponent().mark(), r, c, axis, k));
    }
    if makes_five(two, player.opponent().mark(), r, c) {
        let (axis, k) = choose|axis: int, k: int|
            0 <= axis < 4 && 0 <= k <= 4 && #[trigger] five_along(
                two,
                player.opponent().mark(),
                r,
                c,
                axis,
                k,
            );
        assert(five_along(one, player.mark(), r, c, axis, k));
    }
}

/// The list of winning moves holds each winning move below `n` once, in order,
/// and nothing else.
pub proof fn law_winning_moves_are_listed_once(board: BoardView, player: Player, n: nat, mv: Move)
    requires
        n <= CELL_COUNT + 1,
    ensures
        winning_below(board, player, n).contains(mv) <==> mv.0 < n && wins(board, mv, player),
        forall|i: int, j: int|
            0 <= i < j < winning_below(board, player, n).len() ==> (#[trigger] winning_below(
                board,
                player,
                n,
            )[i]).0 < (#[trigger] winning_below(board, player, n)[j]).0,
    decreases n,
{
    if n > 0 {
        let last = Move((n - 1) as usize);
        let before = winning_below(board, player, (n - 1) as nat);
        law_winning_moves_are_listed_once(board, player, (n - 1) as nat, mv);
        let all = winning_below(board, player, n);
        if wins(board, last, player) {
            assert(all == before.push(last));
            assert forall|i: int| 0 <= i < before.len() implies (#[trigger] before[i]).0 < n - 1 by {
                law_winning_moves_are_listed_once(board, player, (n - 1) as nat, before[i]);
                assert(before.contains(before[i]));
            }
            if mv == last {
                assert(all[before.len() as int] == mv);
            } else {
                if before.contains(mv) {
                    let i = before.index_of(mv);
                    assert(all[i] == mv);
                }
                if all.contains(mv) {
                    let i = all.index_of(mv);
                    assert(before[i] == mv);
                }
            }
        }
    }
}

/// The list of flagged places holds each of them once, in order.
pub proof fn law_flagged_places_are_listed_once(flags: Seq<bool>, n: nat, i: usize)
    requires
        n <= flags.len() <= usize::MAX,
    ensures
        flagged_below(flags, n).contains(i) <==> i < n && flags[i as int],
        forall|a: int, b: int|
            0 <= a < b < flagged_below(flags, n).len() ==> (#[trigger] flagged_below(
                flags,
                n,
            )[a]) < (#[trigger] flagged_below(flags, n)[b]),
    decreases n,
{
    if n > 0 {
        let last = (n - 1) as usize;
        let before = flagged_below(flags, (n - 1) as nat);
        law_flagged_places_are_listed_once(flags, (n - 1) as nat, i);
        let all = flagged_below(flags, n);
        if flags[n - 1] {
            assert(all == before.push(last));
            assert forall|a: int| 0 <= a < before.len() implies (#[trigger] before[a]) < n - 1 by {
                law_flagged_places_are_listed_once(flags, (n - 1) as nat, before[a]);
                assert(before.contains(before[a]));
            }
            if i == last {
                assert(all[before.len() as int] == i);
            } else {
                if before.contains(i) {
                    let a = before.index_of(i);
                    assert(all[a] == i);
                }
                if all.contains(i) {
                    let a = all.index_of(i);
                    assert(before[a] == i);
                }
            }
        }
    }
}

/// A node looks only at winning candidates while there are any, and at all of
/// them; else in the same way at blocking ones, and at the root at forcing
/// ones; else at every candidate.
pub proof fn law_urgent_candidates_come_first(
    winning: Seq<bool>,
    blocking: Seq<bool>,
    forcing: Seq<bool>,
    root: bool,
    i: usize,
)
    requires
        winning.len() <= usize::MAX,
        blocking.len() == winning.len(),
        forcing.len() == winning.len(),
    ensures
        ({
            let urgent = if winning.contains(true) {
                winning
            } else if blocking.contains(true) {
                blocking
            } else if root && forcing.contains(true) {
                forcing
            } else {
                Seq::new(winning.len(), |j: int| true)
            };
            kept(winning, blocking, forcing, root).contains(i) <==> i < winning.len()
                && urgent[i as int]
        }),
        winning.len() > 0 ==> kept(winning, blocking, forcing, root).len() > 0,
{
    let n = winning.len();
    lemma_some_flag(winning);
    lemma_some_flag(blocking);
    lemma_some_flag(forcing);
    law_flagged_places_are_listed_once(winning, n, i);
    law_flagged_places_are_listed_once(blocking, n, i);
    law_flagged_places_are_listed_once(forcing, n, i);
    let all = all_places(n);
    if i < n {
        assert(all[i as int] == i);
    }
    if all.contains(i) {
        let j = all.index_of(i);
        assert(all[j] == i && all[j] == j);
    }
}

proof fn lemma_some_flag(flags: Seq<bool>)
    requires
        flags.len() <= usize::MAX,
    ensures
        flags.contains(true) <==> flagged_below(flags, flags.len()).len() > 0,
{
    let list = flagged_below(flags, flags.len());
    if flags.contains(true) {
        let j = flags.index_of(true);
        law_flagged_places_are_listed_once(flags, flags.len(), j as usize);
        assert(list.contains(j as usize));
    }
    if list.len() > 0 {
        law_flagged_places_are_listed_once(flags, flags.len(), list[0]);
        assert(list.contains(list[0]));
        assert(flags[list[0] as int]);
    }
}

/// The best score found in a window tells of the true score: below the window
/// the true score is no higher, above it no lower, and inside they are equal.
pub open spec fn window_found(score: int, best: i64, alpha: i64, beta: i64) -> bool {
    &&& best <= alpha ==> score <= best
    &&& best >= beta ==> score >= best
    &&& alpha < best < beta ==> score == best
}

/// The score as far as a window can tell it.
pub open spec fn seen_through(score: int, alpha: i64, beta: i64) -> int {
    if score <= alpha {
        alpha as int
    } else if score >= beta {
        beta as int
    } else {
        score
    }
}

/// A stored score that settles a window looks the same through it as the true
/// one, whatever window it was found in. It is not used for a deeper search,
/// and an exact one is always used.
pub proof fn law_stored_scores_are_true(
    score: int,
    best: i64,
    alpha: i64,
    beta: i64,
    stored_depth: u16,
    depth: u16,
    low: i64,
    high: i64,
)
    requires
        alpha < beta,
        low < high,
        window_found(score, best, alpha, beta),
    ensures
        ({
            let bound = bound_for(best, alpha, beta);
            let used = settles(stored_depth, best, bound, depth, low, high);
            &&& used ==> stored_depth >= depth && seen_through(best as int, low, high)
                == seen_through(score, low, high)
            &&& stored_depth >= depth && alpha < best < beta ==> used
            &&& stored_depth >= depth && best <= alpha && best <= low ==> used
            &&& stored_depth >= depth && best >= beta && best >= high ==> used
        }),
{
}

} // verus!
