//! What the input planes tell of a position, and how they change with it.
use crate::benson::alive_at;
use crate::chains::lemma_chain_at;
use crate::features::{
    corner_counts, corner_hostile, corners_of, hostile_corners, komi_value, lemma_captured_len,
    plane_value, scale_of, side_player,
};
use crate::game::{
    after_placement, captured_by, has_liberty, lemma_captured_color, liberties_of, stone_down,
    valid_cells, BoardView, Move, Player, MAX_MOVES,
};
use crate::grid::{
    adjacent, lemma_adjacent_symmetric, lemma_component_basic, lemma_component_of_member,
    points_with, same_component, CELL_COUNT,
};
use crate::life::{after_all, law_living_stones_are_never_captured, owner_passes};
use crate::verdict::{law_two_eyes_live, point_eye};
use vstd::prelude::*;

verus! {

/// A stone that the planes of life mark is never captured while its owner
/// passes, whatever the opponent plays. Every unconditionally alive stone is
/// marked, in the plane of its side and in no other.
pub proof fn law_marked_stones_live(
    board: BoardView,
    perspective: Player,
    side: int,
    p: usize,
    moves: Seq<Move>,
)
    requires
        board.wf(),
        p < CELL_COUNT,
        side == 0 || side == 1,
    ensures
        plane_value(board, perspective, 13 + side, p) == 0 || plane_value(
            board,
            perspective,
            13 + side,
            p,
        ) == 1,
        plane_value(board, perspective, 13 + side, p) == 1 && owner_passes(
            board,
            moves,
            side_player(perspective, side),
        ) ==> board.cells[p as int] == side_player(perspective, side).mark() && after_all(
            board,
            moves,
        ).cells[p as int] == side_player(perspective, side).mark(),
        alive_at(board.cells, p) && board.cells[p as int] == side_player(perspective, side).mark()
            <==> plane_value(board, perspective, 13 + side, p) == 1,
{
    let owner = side_player(perspective, side);
    if plane_value(board, perspective, 13 + side, p) == 1 && owner_passes(board, moves, owner) {
        law_living_stones_are_never_captured(board, p, owner, moves);
    }
}

/// Chains with two eyes of one point each are marked as alive.
pub proof fn law_two_eyed_stones_are_marked(
    board: BoardView,
    perspective: Player,
    p: usize,
    a: usize,
    b: usize,
)
    requires
        board.wf(),
        p < CELL_COUNT,
        board.cells[p as int] != 0,
        a != b,
        point_eye(board.cells, p, a),
        point_eye(board.cells, p, b),
    ensures
        plane_value(board, perspective, 13, p) == (if board.cells[p as int] == perspective.mark() {
            1int
        } else {
            0int
        }),
        plane_value(board, perspective, 13, p) + plane_value(board, perspective, 14, p) == 1,
{
    law_two_eyes_live(board.cells, p, a, b);
    assert(-1 <= board.cells[p as int] <= 1);
}

/// A stone is in one of the three planes of liberties of its side, and in none
/// of the other side's: the first for one liberty, the second for two, the
/// third for more. Empty points are in none.
pub proof fn law_liberty_planes_tell_liberties(
    board: BoardView,
    perspective: Player,
    side: int,
    p: usize,
)
    requires
        board.wf(),
        p < CELL_COUNT,
        side == 0 || side == 1,
    ensures
        ({
            let own = board.cells[p as int] == side_player(perspective, side).mark();
            let n = liberties_of(board.cells, p).len();
            &&& plane_value(board, perspective, 3 * side, p) == (if own && n <= 1 {
                1int
            } else {
                0int
            })
            &&& plane_value(board, perspective, 3 * side + 1, p) == (if own && n == 2 {
                1int
            } else {
                0int
            })
            &&& plane_value(board, perspective, 3 * side + 2, p) == (if own && n >= 3 {
                1int
            } else {
                0int
            })
        }),
{
}

/// The chain of a stone with one liberty is taken by the opponent's stone on
/// that liberty.
proof fn lemma_last_liberty(cells: Seq<i8>, p: usize, q: usize, owner: Player)
    requires
        valid_cells(cells),
        p < CELL_COUNT,
        cells[p as int] == owner.mark(),
        liberties_of(cells, p).contains(q),
        liberties_of(cells, p).finite(),
        liberties_of(cells, p).len() <= 1,
    ensures
        after_placement(cells, q, owner.opponent())[p as int] == 0,
{
    let down = stone_down(cells, q, owner.opponent());
    let area = points_with(cells, owner.mark());
    let chain = same_component(cells, p);
    assert(q < CELL_COUNT && cells[q as int] == 0);
    lemma_component_basic(area, p);
    assert(points_with(down, owner.mark()) =~= area);
    assert(same_component(down, p) == chain);
    assert(!has_liberty(down, p)) by {
        if has_liberty(down, p) {
            let l = choose|l: usize| #[trigger] liberties_of(down, p).contains(l);
            assert(down[l as int] == 0 && l != q);
            assert(liberties_of(cells, p).contains(l));
            vstd::set_lib::lemma_len_subset(
                Set::<usize>::empty().insert(q).insert(l),
                liberties_of(cells, p),
            );
        }
    }
    let x = choose|x: usize| chain.contains(x) && #[trigger] adjacent(x, q);
    lemma_adjacent_symmetric(x, q);
    lemma_component_of_member(area, p, x);
    assert(down[x as int] == owner.mark());
    assert(same_component(down, x) == chain);
    assert(!has_liberty(down, x)) by {
        if has_liberty(down, x) {
            let l = choose|l: usize| #[trigger] liberties_of(down, x).contains(l);
            assert(liberties_of(down, p).contains(l));
        }
    }
    assert(adjacent(q, x) && same_component(down, x).contains(p));
    assert(captured_by(cells, q, owner.opponent()).contains(p));
}

/// A stone in the plane of one liberty is taken when the opponent may play on
/// that liberty and does.
pub proof fn law_stones_in_atari_are_taken(
    board: BoardView,
    perspective: Player,
    side: int,
    p: usize,
    q: usize,
)
    requires
        board.wf(),
        p < CELL_COUNT,
        side == 0 || side == 1,
        plane_value(board, perspective, 3 * side, p) == 1,
        liberties_of(board.cells, p).contains(q),
        board.placed(Move(q), side_player(perspective, side).opponent()) is Some,
    ensures
        (board.placed(Move(q), side_player(perspective, side).opponent())->0)[p as int] == 0,
{
    lemma_chain_at(board.cells, p);
    lemma_last_liberty(board.cells, p, q, side_player(perspective, side));
}

/// The planes of chain size hold the number of stones that are connected to
/// the stone, itself counted, and the same for all of them.
pub proof fn law_size_planes_count_chains(
    board: BoardView,
    perspective: Player,
    side: int,
    p: usize,
    q: usize,
)
    requires
        board.wf(),
        p < CELL_COUNT,
        side == 0 || side == 1,
    ensures
        board.cells[p as int] == side_player(perspective, side).mark() ==> {
            &&& plane_value(board, perspective, 6 + side, p) == same_component(
                board.cells,
                p,
            ).len()
            &&& plane_value(board, perspective, 6 + side, p) >= 1
            &&& same_component(board.cells, p).contains(q) ==> plane_value(
                board,
                perspective,
                6 + side,
                q,
            ) == plane_value(board, perspective, 6 + side, p)
        },
        board.cells[p as int] != side_player(perspective, side).mark() ==> plane_value(
            board,
            perspective,
            6 + side,
            p,
        ) == 0,
{
    if board.cells[p as int] == side_player(perspective, side).mark() {
        let area = points_with(board.cells, board.cells[p as int]);
        lemma_chain_at(board.cells, p);
        lemma_component_basic(area, p);
        if same_component(board.cells, p).contains(q) {
            lemma_component_of_member(area, p, q);
        }
    }
}

/// Two points that touch at a corner.
pub open spec fn diagonal(p: usize, q: usize) -> bool {
    let (r, c) = (p as int / 19, p as int % 19);
    let (s, d) = (q as int / 19, q as int % 19);
    p < CELL_COUNT && q < CELL_COUNT && (s == r - 1 || s == r + 1) && (d == c - 1 || d == c + 1)
}

/// A point of the outermost rows and columns.
pub open spec fn on_edge(p: usize) -> bool {
    p as int / 19 == 0 || p as int / 19 == 18 || p as int % 19 == 0 || p as int % 19 == 18
}

proof fn lemma_corner(cells: Seq<i8>, p: usize, row: int, col: int, player: Player)
    requires
        p < CELL_COUNT,
        row == p as int / 19 - 1 || row == p as int / 19 + 1,
        col == p as int % 19 - 1 || col == p as int % 19 + 1,
    ensures
        corner_counts(row, col) == (0 <= row < 19 && 0 <= col < 19),
        corner_counts(row, col) ==> diagonal(p, (row * 19 + col) as usize) && 0 <= row * 19 + col
            < CELL_COUNT,
        corner_hostile(cells, row, col, player) == (corner_counts(row, col) && cells[row * 19 + col]
            != player.mark()),
{
    reveal(corner_counts);
    reveal(corner_hostile);
    if corner_counts(row, col) {
        assert((row * 19 + col) / 19 == row && (row * 19 + col) % 19 == col);
    }
}

/// An eye is an empty point with own stones on every side. On the edge every
/// corner next to it is own too; elsewhere one corner at most is not.
pub proof fn law_eye_planes_tell_eyes(board: BoardView, perspective: Player, side: int, p: usize)
    requires
        board.wf(),
        p < CELL_COUNT,
        side == 0 || side == 1,
    ensures
        ({
            let own = side_player(perspective, side).mark();
            let cells = board.cells;
            plane_value(board, perspective, 8 + side, p) == 1 <==> {
                &&& cells[p as int] == 0
                &&& forall|n: usize| #[trigger] adjacent(p, n) ==> cells[n as int] == own
                &&& on_edge(p) ==> forall|d: usize| #[trigger]
                    diagonal(p, d) ==> cells[d as int] == own
                &&& !on_edge(p) ==> forall|d: usize, e: usize|
                    #[trigger] diagonal(p, d) && #[trigger] diagonal(p, e) && d != e
                        ==> cells[d as int] == own || cells[e as int] == own
            }
        }),
        plane_value(board, perspective, 8 + side, p) == 0 || plane_value(
            board,
            perspective,
            8 + side,
            p,
        ) == 1,
{
    let player = side_player(perspective, side);
    let own = player.mark();
    let cells = board.cells;
    let (r, c) = (p as int / 19, p as int % 19);
    lemma_corner(cells, p, r - 1, c - 1, player);
    lemma_corner(cells, p, r - 1, c + 1, player);
    lemma_corner(cells, p, r + 1, c - 1, player);
    lemma_corner(cells, p, r + 1, c + 1, player);
    let a = ((r - 1) * 19 + c - 1) as usize;
    let b = ((r - 1) * 19 + c + 1) as usize;
    let x = ((r + 1) * 19 + c - 1) as usize;
    let y = ((r + 1) * 19 + c + 1) as usize;
    assert forall|d: usize| #[trigger] diagonal(p, d) implies {
        ||| d == a && corner_counts(r - 1, c - 1)
        ||| d == b && corner_counts(r - 1, c + 1)
        ||| d == x && corner_counts(r + 1, c - 1)
        ||| d == y && corner_counts(r + 1, c + 1)
    } by {
        assert(d as int == (d as int / 19) * 19 + d as int % 19);
    }
    assert(on_edge(p) == (corners_of(r, c) < 4));
    if on_edge(p) {
        assert(hostile_corners(cells, r, c, player) == 0 <==> forall|d: usize| #[trigger]
            diagonal(p, d) ==> cells[d as int] == own) by {
            if forall|d: usize| #[trigger] diagonal(p, d) ==> cells[d as int] == own {
                if corner_counts(r - 1, c - 1) {
                    assert(diagonal(p, a));
                }
                if corner_counts(r - 1, c + 1) {
                    assert(diagonal(p, b));
                }
                if corner_counts(r + 1, c - 1) {
                    assert(diagonal(p, x));
                }
                if corner_counts(r + 1, c + 1) {
                    assert(diagonal(p, y));
                }
            }
        }
    } else {
        assert(diagonal(p, a) && diagonal(p, b) && diagonal(p, x) && diagonal(p, y));
        assert(a != b && a != x && a != y && b != x && b != y && x != y);
        assert(hostile_corners(cells, r, c, player) <= 1 <==> forall|d: usize, e: usize|
            #[trigger] diagonal(p, d) && #[trigger] diagonal(p, e) && d != e ==> cells[d as int]
                == own || cells[e as int] == own);
    }
}

/// The plane of placements tells where the side may play when it is its turn;
/// the next one how many stones of the opponent that takes off the board; and
/// the third whether the stone then has one liberty, as the first plane says
/// of the position after it.
pub proof fn law_placement_planes_tell_what_play_does(board: BoardView, perspective: Player, p: usize)
    requires
        board.wf(),
        board.moves < MAX_MOVES,
        p < CELL_COUNT,
    ensures
        ({
            let turn = board.turned(perspective);
            let after = turn.played(Move(p));
            let taken = Set::new(
                |q: usize|
                    q < CELL_COUNT && board.cells[q as int] == perspective.opponent().mark()
                        && after.cells[q as int] == 0,
            );
            if turn.legal(Move(p)) {
                &&& plane_value(board, perspective, 10, p) == 1
                &&& plane_value(board, perspective, 11, p) == taken.len()
                &&& plane_value(board, perspective, 12, p) == plane_value(after, perspective, 0, p)
                &&& after.cells[p as int] == perspective.mark()
            } else {
                &&& plane_value(board, perspective, 10, p) == 0
                &&& plane_value(board, perspective, 11, p) == 0
                &&& plane_value(board, perspective, 12, p) == 0
            }
        }),
{
    let turn = board.turned(perspective);
    assert(turn.placed(Move(p), perspective) == board.placed(Move(p), perspective));
    if turn.legal(Move(p)) {
        let after = turn.played(Move(p)).cells;
        let captured = captured_by(board.cells, p, perspective);
        let down = stone_down(board.cells, p, perspective);
        lemma_captured_color(board.cells, p, perspective);
        let taken = Set::new(
            |q: usize|
                q < CELL_COUNT && board.cells[q as int] == perspective.opponent().mark()
                    && after[q as int] == 0,
        );
        assert forall|q: usize| taken.contains(q) <==> captured.contains(q) by {
            if taken.contains(q) && !captured.contains(q) {
                assert(after[q as int] == down[q as int]);
            }
        }
        assert(taken =~= captured);
        assert(!captured.contains(p));
        assert(after[p as int] == perspective.mark());
        let q = choose|q: usize| #[trigger] liberties_of(after, p).contains(q);
        lemma_chain_at(after, p);
        if liberties_of(after, p).len() == 0 {
            assert(liberties_of(after, p) =~= Set::<usize>::empty());
        }
    }
}

/// The planes of the past show the position before the last action, and the
/// last of them the points that the action changed.
pub proof fn law_past_planes_show_the_last_action(
    board: BoardView,
    perspective: Player,
    mv: Move,
    p: usize,
)
    requires
        board.wf(),
        board.legal(mv),
        p < CELL_COUNT,
    ensures
        plane_value(board.played(mv), perspective, 15, p) == (if board.cells[p as int]
            == perspective.mark() {
            1int
        } else {
            0int
        }),
        plane_value(board.played(mv), perspective, 16, p) == (if board.cells[p as int]
            == perspective.opponent().mark() {
            1int
        } else {
            0int
        }),
        plane_value(board.played(mv), perspective, 17, p) == (if board.cells[p as int]
            != board.played(mv).cells[p as int] {
            1int
        } else {
            0int
        }),
        mv == Move::pass_move() ==> plane_value(board.played(mv), perspective, 17, p) == 0,
        mv.0 == p ==> plane_value(board.played(mv), perspective, 17, p) == 1,
{
    if mv.0 == p {
        lemma_captured_color(board.cells, p, board.to_move);
    }
}

/// The komi is what White gains by it and Black loses.
pub proof fn law_komi_is_whites(board: BoardView)
    ensures
        komi_value(board, Player::White) == board.komi_milli,
        komi_value(board, Player::Black) == -komi_value(board, Player::White),
{
}

/// Every entry of the planes lies between nothing and what it is divided by,
/// so the network sees numbers between nothing and one.
pub proof fn law_plane_entries_are_shares(
    board: BoardView,
    perspective: Player,
    plane: int,
    p: usize,
)
    requires
        board.wf(),
        0 <= plane < 18,
        p < CELL_COUNT,
    ensures
        0 <= plane_value(board, perspective, plane, p) <= scale_of(plane * 361 + p),
        plane_value(board, perspective, plane, p) > 1 ==> scale_of(plane * 361 + p) == CELL_COUNT,
{
    lemma_chain_at(board.cells, p);
    if board.cells[p as int] == 0 {
        lemma_captured_len(board.cells, p, perspective);
    }
}

} // verus!
