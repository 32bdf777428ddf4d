//! What the inputs and tables of the networks stand for.
use crate::alphabeta::{axis_col, axis_row};
use crate::batch::{
    candidate_row, candidate_width, class_of, cross_row, joined, legal_row, placements,
    position_row, side_row, stones_of, token_width, valid_row, HALF_BITS,
};
use crate::colors::{law_planes_favor_no_color, swapped};
use crate::config::Real;
use crate::game::{BoardView, Move, Player, ACTION_COUNT};
use crate::grid::CELL_COUNT;
use crate::lines::{line_of, packed_of, rows_of, share_line, tokens_below, LINE_COUNT};
use crate::model::{
    axis_codes, axis_of, board_states, cell_state, law_patterns_are_distinct, local_cell,
    pattern_of, ray_code, region_of_point, slot_count, slot_of, state_at, tensor_lengths,
    AXIS_FEATURES, DIAGONAL_FEATURES, INPUT_SIZE, LOCAL_AXIS_PATTERNS, LOCAL_BOUNDARY,
    LOCAL_TABLE_SIZE, POLICY_TACTICAL_SIZE, STONE_TYPES,
};
use crate::moves::legal_below;
use crate::packing::{input_value, local_index, side_at, tally};
use crate::replay::Sample;
use vstd::prelude::*;

verus! {

/// Two points that a kind of weights does not tell apart.
pub open spec fn joined_by(kind: int, p: int, q: int) -> bool {
    if kind == 0 {
        p == q
    } else if kind == 1 {
        true
    } else if kind == 2 {
        p / 19 == q / 19
    } else if kind == 3 {
        p % 19 == q % 19
    } else if kind == 4 {
        p / 19 - q / 19 == p % 19 - q % 19
    } else if kind == 5 {
        p / 19 - q / 19 == q % 19 - p % 19
    } else {
        region_of_point(p) == region_of_point(q)
    }
}

/// Two stones add the same weights of a kind if and only if they are of one
/// side and stand on points that the kind joins: one point, any, one row,
/// column, diagonal, anti-diagonal or region. All rows lie in the table.
pub proof fn law_stones_share_weights(kind: int, side: int, other: int, p: int, q: int)
    requires
        0 <= kind < 7,
        0 <= side < 2,
        0 <= other < 2,
        0 <= p < CELL_COUNT,
        0 <= q < CELL_COUNT,
    ensures
        0 <= slot_of(kind, side, p) < slot_count(kind),
        slot_of(kind, side, p) == slot_of(kind, other, q) <==> side == other && joined_by(
            kind,
            p,
            q,
        ),
{
}

/// The regions are squares of six by six; there are nine. The last row counts
/// to the squares above it, the last column to the first square of the next
/// six rows, and in the last seven rows to the last square.
pub proof fn law_regions_are_squares_of_six(p: int, q: int)
    requires
        0 <= p < CELL_COUNT,
        0 <= q < CELL_COUNT,
    ensures
        0 <= region_of_point(p) < 9,
        p / 19 < 18 && p % 19 < 18 && q / 19 < 18 && q % 19 < 18 ==> (region_of_point(p)
            == region_of_point(q) <==> p / 19 / 6 == q / 19 / 6 && p % 19 / 6 == q % 19 / 6),
        p / 19 < 18 && p % 19 < 12 ==> region_of_point(p + 6) == region_of_point(p) + 1,
        p / 19 < 12 && p % 19 < 18 ==> region_of_point(p + 114) == region_of_point(p) + 3,
        p / 19 == 18 ==> region_of_point(p) == (if p % 19 < 18 {
            region_of_point(p - 19)
        } else {
            region_of_point(p - 20)
        }),
        p / 19 < 12 && p % 19 == 18 ==> region_of_point(p) == region_of_point(p + 114 - 18),
        12 <= p / 19 < 18 && p % 19 == 18 ==> region_of_point(p) == region_of_point(p - 1),
        region_of_point(0) == 0,
{
}

/// The way from a point to its next one along an axis.
pub open spec fn axis_stride(axis: int) -> int {
    if axis == 0 {
        19
    } else if axis == 1 {
        1
    } else if axis == 2 {
        20
    } else {
        18
    }
}

/// The neighbor at a distance lies as many strides away, back on the first ray
/// and ahead on the second, if that does not leave the grid; then its columns
/// differ by the distance, or not at all down a column.
pub proof fn law_neighbors_lie_along_their_ray(cell: int, axis: int, ray: int, distance: int)
    requires
        0 <= cell < CELL_COUNT,
        0 <= axis < 4,
        ray == 0 || ray == 1,
        1 <= distance <= 4,
    ensures
        ({
            let q = if ray == 0 {
                cell - distance * axis_stride(axis)
            } else {
                cell + distance * axis_stride(axis)
            };
            let apart = q % 19 - cell % 19;
            let inside = 0 <= q < CELL_COUNT && (if axis == 0 {
                apart == 0
            } else {
                apart == distance || apart == -distance
            });
            local_cell(cell, axis, ray, distance) == (if inside {
                (q % 256) as u8
            } else {
                LOCAL_BOUNDARY
            })
        }),
        local_cell(CELL_COUNT as int, axis, ray, distance) == LOCAL_BOUNDARY,
{
    let j = if ray == 0 {
        -distance
    } else {
        distance
    };
    let (r, c) = (axis_row(cell / 19, axis, j), axis_col(cell % 19, axis, j));
    if axis == 0 {
        assert(distance * axis_stride(0) == 19 * distance);
    } else if axis == 1 {
        assert(distance * axis_stride(1) == distance);
    } else if axis == 2 {
        assert(distance * axis_stride(2) == 20 * distance);
    } else {
        assert(distance * axis_stride(3) == 18 * distance);
    }
    lemma_wrapped(r, c);
}

proof fn lemma_wrapped(r: int, c: int)
    requires
        -19 < c < 38,
    ensures
        0 <= c < 19 ==> (19 * r + c) % 19 == c && (19 * r + c) / 19 == r,
        c < 0 ==> (19 * r + c) % 19 == c + 19,
        c >= 19 ==> (19 * r + c) % 19 == c - 19,
{
}

/// The state of a cell is that of its stone for the side to move, and the same
/// when the colors and the side to move are exchanged; for the other side own
/// and opposing stones change places.
pub proof fn law_states_are_those_of_the_side_to_move(board: BoardView, p: int)
    requires
        board.wf(),
        0 <= p < CELL_COUNT,
    ensures
        0 <= cell_state(board, p) <= 2,
        cell_state(board, p) == 0 <==> board.cells[p] == 0,
        cell_state(board, p) == 1 <==> board.cells[p] == board.to_move.mark(),
        cell_state(board.exchanged(), p) == cell_state(board, p),
        ({
            let other = board.turned(board.to_move.opponent());
            cell_state(board, p) + cell_state(other, p) == (if board.cells[p] == 0 {
                0int
            } else {
                3int
            })
        }),
        side_at(board, p) == (if cell_state(board, p) == 0 {
            None::<int>
        } else {
            Some(cell_state(board, p) - 1)
        }),
{
    assert(swapped(board.cells)[p] == -board.cells[p]);
    assert(-1 <= board.cells[p] <= 1);
}

/// A ray's code tells the state at each distance: its digits in base four, the
/// nearest first.
pub proof fn law_ray_codes_tell_every_state(states: Seq<int>, cell: int, axis: int, ray: int)
    requires
        states.len() == CELL_COUNT,
        forall|i: int| 0 <= i < CELL_COUNT ==> 0 <= #[trigger] states[i] <= 2,
    ensures
        ({
            let code = ray_code(states, cell, axis, ray);
            &&& 0 <= code < 256
            &&& code % 4 == state_at(states, local_cell(cell, axis, ray, 1))
            &&& code / 4 % 4 == state_at(states, local_cell(cell, axis, ray, 2))
            &&& code / 16 % 4 == state_at(states, local_cell(cell, axis, ray, 3))
            &&& code / 64 == state_at(states, local_cell(cell, axis, ray, 4))
        }),
{
    let (a, b, c, d) = (
        state_at(states, local_cell(cell, axis, ray, 1)),
        state_at(states, local_cell(cell, axis, ray, 2)),
        state_at(states, local_cell(cell, axis, ray, 3)),
        state_at(states, local_cell(cell, axis, ray, 4)),
    );
    lemma_state_bound(states, local_cell(cell, axis, ray, 1));
    lemma_state_bound(states, local_cell(cell, axis, ray, 2));
    lemma_state_bound(states, local_cell(cell, axis, ray, 3));
    lemma_state_bound(states, local_cell(cell, axis, ray, 4));
    lemma_four_digits(a, b, c, d);
}

proof fn lemma_state_bound(states: Seq<int>, cell: u8)
    requires
        states.len() == CELL_COUNT,
        forall|i: int| 0 <= i < CELL_COUNT ==> 0 <= #[trigger] states[i] <= 2,
    ensures
        0 <= state_at(states, cell) <= 3,
{
    assert(cell != LOCAL_BOUNDARY ==> 0 <= states[cell as int] <= 2);
}

proof fn lemma_four_digits(a: int, b: int, c: int, d: int)
    requires
        0 <= a <= 3,
        0 <= b <= 3,
        0 <= c <= 3,
        0 <= d <= 3,
    ensures
        ({
            let code = a + 4 * b + 16 * c + 64 * d;
            &&& 0 <= code < 256
            &&& code % 4 == a
            &&& code / 4 % 4 == b
            &&& code / 16 % 4 == c
            &&& code / 64 == d
        }),
{
}

/// The codes of an axis are those of its two rays, in order.
pub proof fn law_axis_codes_are_ordered(board: BoardView, cell: int, axis: int)
    ensures
        ({
            let states = board_states(board);
            let (low, high) = axis_codes(states, cell, axis);
            let (a, b) = (ray_code(states, cell, axis, 0), ray_code(states, cell, axis, 1));
            low <= high && ((low == a && high == b) || (low == b && high == a))
        }),
{
}

/// A direction and its opposite run along one axis, and no other direction of
/// the eight does.
pub proof fn law_directions_have_one_axis(dr: i32, dc: i32, er: i32, ec: i32)
    requires
        -1 <= dr <= 1,
        -1 <= dc <= 1,
        -1 <= er <= 1,
        -1 <= ec <= 1,
        !(dr == 0 && dc == 0),
        !(er == 0 && ec == 0),
    ensures
        axis_of(dr, dc) is Some,
        axis_of(dr, dc) == axis_of(er, ec) <==> (dr == er && dc == ec) || (dr == -er && dc == -ec),
        axis_of(0, 0) is None,
        ({
            let stride = axis_stride(axis_of(dr, dc)->0);
            dr * 19 + dc == stride || dr * 19 + dc == -stride
        }),
{
}

/// The tensors have the sizes of the tables that they hold, times the width
/// where they are as wide as the network; their sizes tell the width.
pub proof fn law_tensors_have_the_sizes_of_their_tables(hidden: nat, other: nat)
    ensures
        ({
            let lengths = tensor_lengths(hidden);
            &&& lengths[0] == INPUT_SIZE * hidden
            &&& lengths[1] == STONE_TYPES * hidden
            &&& lengths[2] == AXIS_FEATURES * hidden && lengths[3] == AXIS_FEATURES * hidden
            &&& lengths[4] == DIAGONAL_FEATURES * hidden && lengths[5] == DIAGONAL_FEATURES * hidden
            &&& lengths[6] == hidden
            &&& lengths[13] == LOCAL_TABLE_SIZE
            &&& lengths[14] == ACTION_COUNT
            &&& lengths[15] == POLICY_TACTICAL_SIZE
            &&& lengths[16] == LOCAL_AXIS_PATTERNS * 16
            &&& lengths[2] == slot_count(2) * hidden && lengths[3] == slot_count(3) * hidden
            &&& lengths[4] == slot_count(4) * hidden && lengths[5] == slot_count(5) * hidden
        }),
        tensor_lengths(hidden) == tensor_lengths(other) ==> hidden == other,
{
    assert(tensor_lengths(hidden)[6] == hidden && tensor_lengths(other)[6] == other);
}

/// The stones below `n` that add a row of weights.
pub open spec fn stones_with(board: BoardView, kind: int, slot: int, n: nat) -> Set<int> {
    Set::new(
        |p: int|
            0 <= p < n && side_at(board, p) is Some && slot_of(kind, side_at(board, p)->0, p)
                == slot,
    )
}

/// The count of a row of weights is how many stones add it.
pub proof fn law_counts_are_of_stones(board: BoardView, kind: int, slot: int, n: nat)
    ensures
        stones_with(board, kind, slot, n).finite(),
        tally(board, kind, slot, n) == stones_with(board, kind, slot, n).len(),
    decreases n,
{
    if n == 0 {
        assert(stones_with(board, kind, slot, 0) =~= Set::<int>::empty());
    } else {
        law_counts_are_of_stones(board, kind, slot, (n - 1) as nat);
        let before = stones_with(board, kind, slot, (n - 1) as nat);
        if side_at(board, n - 1) is Some && slot_of(kind, side_at(board, n - 1)->0, n - 1)
            == slot {
            assert(stones_with(board, kind, slot, n) =~= before.insert(n - 1));
        } else {
            assert(stones_with(board, kind, slot, n) =~= before);
        }
    }
}

/// The first inputs show the own stones and then those of the opponent, the
/// next the moves and passes, and of the two behind them the one of the side
/// to move is set.
pub proof fn law_inputs_show_the_position(board: BoardView, p: int)
    requires
        board.wf(),
        0 <= p < CELL_COUNT,
    ensures
        input_value(board, p) == 1 <==> board.cells[p] == board.to_move.mark(),
        input_value(board, 361 + p) == 1 <==> board.cells[p] == board.to_move.opponent().mark(),
        input_value(board, p) == 0 || input_value(board, p) == 1,
        input_value(board, 361 + p) == 0 || input_value(board, 361 + p) == 1,
        input_value(board, 722) == board.moves,
        input_value(board, 723) == board.passes,
        input_value(board, 724) == 1 <==> board.to_move == Player::Black,
        input_value(board, 725) == 1 <==> board.to_move == Player::White,
        input_value(board, 724) + input_value(board, 725) == 1,
{
}

/// Exchanging the colors and the side to move changes no input but the two
/// that tell the side to move, and exchanges these.
pub proof fn law_inputs_favor_no_color(board: BoardView, i: int)
    requires
        board.wf(),
        0 <= i < INPUT_SIZE,
    ensures
        i != 724 && i != 725 ==> input_value(board.exchanged(), i) == input_value(board, i),
        input_value(board.exchanged(), 724) == input_value(board, 725),
        input_value(board.exchanged(), 725) == input_value(board, 724),
{
    if i < 722 {
        let p = i % 361;
        assert(swapped(board.cells)[p] == -board.cells[p]);
        assert(-1 <= board.cells[p] <= 1);
    } else if 726 <= i {
        let plane = (i - 726) / 361;
        let p = ((i - 726) % 361) as usize;
        if i < 7224 {
            law_planes_favor_no_color(board, board.to_move, plane, p);
        } else {
            law_planes_favor_no_color(board, board.to_move, 0, 0);
        }
    }
}

/// Two cells share a line if and only if they have a row, a column or a
/// diagonal of the grid of fifteen columns in common. Lines of different axes
/// have different numbers, and there are as many as that.
pub proof fn law_lines_are_rows_columns_and_diagonals(a: int, b: int, x: int, y: int)
    requires
        0 <= a < CELL_COUNT,
        0 <= b < CELL_COUNT,
        0 <= x < 4,
        0 <= y < 4,
    ensures
        share_line(a, b) <==> ({
            let rows = a / 15 - b / 15;
            let cols = a % 15 - b % 15;
            rows == 0 || cols == 0 || rows == cols || rows == -cols
        }),
        0 <= line_of(a, x) < LINE_COUNT,
        x != y ==> line_of(a, x) != line_of(b, y),
{
    let rows = a / 15 - b / 15;
    let cols = a % 15 - b % 15;
    if rows == 0 {
        assert(line_of(a, 0) == line_of(b, 0));
    }
    if cols == 0 {
        assert(line_of(a, 1) == line_of(b, 1));
    }
    if rows == cols {
        assert(line_of(a, 2) == line_of(b, 2));
    }
    if rows == -cols {
        assert(line_of(a, 3) == line_of(b, 3));
    }
}

/// The rows of a packed feature tell the feature and both buckets: the piece,
/// the rank and the file make up the feature.
pub proof fn law_rows_tell_the_feature(feature: int, us_bucket: int, them_bucket: int)
    requires
        0 <= feature < 1260,
        0 <= us_bucket < 9,
        0 <= them_bucket < 9,
    ensures
        ({
            let rows = rows_of(packed_of(feature, us_bucket, them_bucket));
            let (piece, rank, file) = (rows[1] - 1260, rows[2] - 1274, rows[3] - 1284);
            &&& rows.len() == 6
            &&& rows[0] == feature
            &&& 0 <= file < 9 && 0 <= rank < 10
            &&& feature == 90 * piece + 9 * rank + file
            &&& rows[4] - 1293 == 14 * us_bucket + piece
            &&& rows[5] - 1293 == 14 * (9 + them_bucket) + piece
        }),
{
}

/// The tokens of a position are its stones, each once and in the order of the
/// points, with whether they are the opponent's.
pub proof fn law_tokens_are_the_stones(board: BoardView, n: nat, p: usize, theirs: bool)
    requires
        board.wf(),
        n <= CELL_COUNT,
    ensures
        tokens_below(board, n).contains((Move(p), theirs)) <==> p < n && board.cells[p as int]
            == (if theirs {
            board.to_move.opponent()
        } else {
            board.to_move
        }).mark(),
        forall|i: int, j: int|
            0 <= i < j < tokens_below(board, n).len() ==> (#[trigger] tokens_below(
                board,
                n,
            )[i]).0.0 < (#[trigger] tokens_below(board, n)[j]).0.0,
        forall|i: int|
            0 <= i < tokens_below(board, n).len() ==> (#[trigger] tokens_below(board, n)[i]).0.0
                < n,
    decreases n,
{
    if n > 0 {
        let before = tokens_below(board, (n - 1) as nat);
        let all = tokens_below(board, n);
        law_tokens_are_the_stones(board, (n - 1) as nat, p, theirs);
        assert(-1 <= board.cells[n - 1] <= 1);
        if board.cells[n - 1] != 0 {
            let last = (Move((n - 1) as usize), board.cells[n - 1] != board.to_move.mark());
            assert(all == before.push(last));
            if before.contains((Move(p), theirs)) {
                assert(all[before.index_of((Move(p), theirs))] == (Move(p), theirs));
            }
            if (Move(p), theirs) == last {
                assert(all[before.len() as int] == last);
            }
            if all.contains((Move(p), theirs)) {
                let i = all.index_of((Move(p), theirs));
                if i < before.len() {
                    assert(before[i] == (Move(p), theirs));
                }
            }
        }
    }
}

/// A token's row holds its point, and a one where it is the opponent's; what
/// is padding is not valid.
pub proof fn law_token_rows_tell_point_and_side(board: BoardView, width: nat, i: int)
    requires
        board.wf(),
        0 <= i < width,
    ensures
        valid_row(board, width)[i] <==> i < stones_of(board).len(),
        valid_row(board, width)[i] ==> {
            let p = position_row(board, width)[i] as int;
            &&& p < CELL_COUNT
            &&& board.cells[p] != 0
            &&& side_row(board, width)[i] == 1 <==> board.cells[p]
                == board.to_move.opponent().mark()
            &&& side_row(board, width)[i] == 0 <==> board.cells[p] == board.to_move.mark()
        },
{
    if i < stones_of(board).len() {
        let token = stones_of(board)[i];
        let n = CELL_COUNT as nat;
        law_tokens_are_the_stones(board, n, token.0.0, token.1);
        assert(tokens_below(board, n).contains(token));
        assert(token == (Move(token.0.0), token.1));
    }
}

/// The candidates are the points that can be played, each once and in order.
pub proof fn law_candidates_are_the_playable_points(board: BoardView, n: nat, p: usize)
    requires
        n <= CELL_COUNT,
    ensures
        legal_below(board, n).contains(Move(p)) <==> p < n && board.legal(Move(p)),
        n == CELL_COUNT ==> (placements(board).contains(Move(p)) <==> p < CELL_COUNT
            && board.legal(Move(p))),
    decreases n,
{
    if n > 0 {
        let before = legal_below(board, (n - 1) as nat);
        let all = legal_below(board, n);
        let last = Move((n - 1) as usize);
        law_candidates_are_the_playable_points(board, (n - 1) as nat, p);
        if board.legal(last) {
            if before.contains(Move(p)) {
                assert(all[before.index_of(Move(p))] == Move(p));
            }
            if Move(p) == last {
                assert(all[before.len() as int] == last);
            }
            if all.contains(Move(p)) {
                let i = all.index_of(Move(p));
                if i < before.len() {
                    assert(before[i] == Move(p));
                }
            }
        }
    }
}

/// A batch is as wide as its longest game and its most candidates, and one at
/// least.
pub proof fn law_batches_are_wide_enough(samples: Seq<Sample>, n: nat, i: int)
    requires
        n <= samples.len(),
        0 <= i < n,
    ensures
        token_width(samples, n) >= 1,
        token_width(samples, n) >= samples[i].board@.moves,
        token_width(samples, n) == 1 || exists|j: int|
            0 <= j < n && (#[trigger] samples[j]).board@.moves == token_width(samples, n),
        candidate_width(samples, n) >= 1,
        candidate_width(samples, n) >= placements(samples[i].board@).len(),
        candidate_width(samples, n) == 1 || exists|j: int|
            0 <= j < n && placements((#[trigger] samples[j]).board@).len() == candidate_width(
                samples,
                n,
            ),
    decreases n,
{
    let m = (n - 1) as nat;
    if m > 0 {
        law_batches_are_wide_enough(samples, m, if i < m {
            i
        } else {
            0
        });
        if token_width(samples, m) != 1 && token_width(samples, n) == token_width(samples, m) {
            let j = choose|j: int|
                0 <= j < m && (#[trigger] samples[j]).board@.moves == token_width(samples, m);
            assert(samples[j].board@.moves == token_width(samples, n));
        }
        if candidate_width(samples, m) != 1 && candidate_width(samples, n) == candidate_width(
            samples,
            m,
        ) {
            let j = choose|j: int|
                0 <= j < m && placements((#[trigger] samples[j]).board@).len() == candidate_width(
                    samples,
                    m,
                );
            assert(placements(samples[j].board@).len() == candidate_width(samples, n));
        }
    } else {
        assert(token_width(samples, 0) == 1 && candidate_width(samples, 0) == 1);
    }
    assert(samples[n - 1].board@.moves == token_width(samples, n) || token_width(samples, n)
        == token_width(samples, m));
}

/// Rows of one width stand one after the other: the entry `k` of row `i` is
/// found `i` widths in.
pub proof fn law_rows_stand_one_after_the_other<T>(
    row: spec_fn(int) -> Seq<T>,
    width: nat,
    n: nat,
    i: int,
    k: int,
)
    requires
        forall|j: int| 0 <= j < n ==> #[trigger] row(j).len() == width,
        0 <= i < n,
        0 <= k < width,
    ensures
        joined(row, n).len() == n * width,
        0 <= i * width + k < n * width,
        joined(row, n)[i * width + k] == row(i)[k],
    decreases n,
{
    lemma_joined_len(row, width, n);
    lemma_joined_len(row, width, (n - 1) as nat);
    assert(0 <= i * width + k < n * width) by (nonlinear_arith)
        requires
            0 <= i < n,
            0 <= k < width,
    ;
    if i < n - 1 {
        law_rows_stand_one_after_the_other(row, width, (n - 1) as nat, i, k);
    } else {
        assert(row(i).len() == width);
    }
}

proof fn lemma_joined_len<T>(row: spec_fn(int) -> Seq<T>, width: nat, n: nat)
    requires
        forall|j: int| 0 <= j < n ==> #[trigger] row(j).len() == width,
    ensures
        joined(row, n).len() == n * width,
    decreases n,
{
    if n > 0 {
        lemma_joined_len(row, width, (n - 1) as nat);
        assert(row(n - 1).len() == width);
        assert(n * width == (n - 1) * width + width) by (nonlinear_arith);
    } else {
        assert(0 * width == 0) by (nonlinear_arith);
    }
}

/// The same number with the other sign.
pub open spec fn negated(value: u32) -> u32 {
    if value < 0x8000_0000 {
        (value + 0x8000_0000) as u32
    } else {
        (value - 0x8000_0000) as u32
    }
}

/// Numbers with opposite signs stand at opposite ranks, and what is a win to
/// one side is a loss to the other; a greater number is in no worse a class,
/// and one half itself is in the middle.
pub proof fn law_classes_are_opposed(a: u32, b: u32)
    requires
        Real(a).finite(),
        Real(b).finite(),
    ensures
        Real(negated(a)).rank() == -Real(a).rank(),
        class_of(negated(a)) + class_of(a) == 2,
        Real(a).rank() <= Real(b).rank() ==> class_of(a) >= class_of(b),
        class_of(HALF_BITS) == 1,
        class_of((HALF_BITS + 1) as u32) == 0,
        class_of(0) == 1,
{
}

/// A candidate's row holds a point that can be played; what is padding is not
/// legal. A candidate looks at a stone if and only if both are there and stand
/// on a common line.
pub proof fn law_candidate_rows_tell_playable_points(
    board: BoardView,
    count: nat,
    width: nat,
    c: int,
    k: int,
)
    requires
        board.wf(),
        0 <= c < count,
        0 <= k < width,
    ensures
        legal_row(board, count)[c] <==> c < placements(board).len(),
        legal_row(board, count)[c] ==> {
            let p = candidate_row(board, count)[c] as usize;
            p < CELL_COUNT && board.legal(Move(p))
        },
        0 <= c * width + k < cross_row(board, count, width).len(),
        cross_row(board, count, width)[c * width + k] ==> legal_row(board, count)[c] && valid_row(
            board,
            width,
        )[k],
        legal_row(board, count)[c] && valid_row(board, width)[k] ==> (cross_row(
            board,
            count,
            width,
        )[c * width + k] <==> share_line(
            candidate_row(board, count)[c] as int,
            position_row(board, width)[k] as int,
        )),
{
    let w = width as int;
    vstd::arithmetic::div_mod::lemma_fundamental_div_mod_converse(c * w + k, w, c, k);
    assert(0 <= c * w + k < count * w) by (nonlinear_arith)
        requires
            0 <= c < count,
            0 <= k < w,
    ;
    if c < placements(board).len() {
        let mv = placements(board)[c];
        law_candidates_are_the_playable_points(board, CELL_COUNT as nat, mv.0);
        assert(placements(board).contains(mv));
        assert(mv == Move(mv.0));
    }
    if k < stones_of(board).len() {
        let token = stones_of(board)[k];
        law_tokens_are_the_stones(board, CELL_COUNT as nat, token.0.0, token.1);
    }
}

/// The pattern of an action along an axis is the same in two positions if and
/// only if the two rays show the same, whichever is which.
pub proof fn law_patterns_tell_both_rays(a: BoardView, b: BoardView, action: int, axis: int)
    requires
        a.wf(),
        b.wf(),
    ensures
        ({
            let (s, t) = (board_states(a), board_states(b));
            let (a0, a1) = (ray_code(s, action, axis, 0), ray_code(s, action, axis, 1));
            let (b0, b1) = (ray_code(t, action, axis, 0), ray_code(t, action, axis, 1));
            local_index(a, action, axis) == local_index(b, action, axis) <==> (a0 == b0 && a1 == b1)
                || (a0 == b1 && a1 == b0)
        }),
{
    let (s, t) = (board_states(a), board_states(b));
    lemma_states(a);
    lemma_states(b);
    law_ray_codes_tell_every_state(s, action, axis, 0);
    law_ray_codes_tell_every_state(s, action, axis, 1);
    law_ray_codes_tell_every_state(t, action, axis, 0);
    law_ray_codes_tell_every_state(t, action, axis, 1);
    let (p, q) = (axis_codes(s, action, axis), axis_codes(t, action, axis));
    if pattern_of(p.0, p.1) == pattern_of(q.0, q.1) {
        law_patterns_are_distinct(p.0, p.1, q.0, q.1);
    }
}

proof fn lemma_states(board: BoardView)
    requires
        board.wf(),
    ensures
        board_states(board).len() == CELL_COUNT,
        forall|i: int| 0 <= i < CELL_COUNT ==> 0 <= #[trigger] board_states(board)[i] <= 2,
{
}

} // verus!
