//! The input planes of the network, as seen by the side that is asked about.
//! Every entry is a whole number over the denominator that `scale` gives.
use crate::benson::{alive_at, pass_alive_with_chains};
use crate::chains::{
    chain_list, chain_views, chains, lemma_chain_at, lemma_chain_of_stone, lemma_chains_below, Chain,
};
use crate::game::{
    after_placement, captured_by, lemma_captured_color, liberties_of, Board, BoardView, Move, Player,
};
use crate::grid::{
    adjacent, lemma_component_basic, lemma_neighbors, lemma_walk_order, neighbors, neighbors_of,
    points_with, same_component, BOARD_SIZE, CELL_COUNT,
};
use crate::moves::{legal_below, legal_moves, MoveAnalysis};
use crate::symmetry::{
    image, image_cells, law_life_commutes_with_symmetry, law_placement_commutes_with_symmetry,
    law_symmetry_is_one_to_one, law_symmetry_keeps_adjacency, lemma_image_captured,
    lemma_image_cell, lemma_image_len, lemma_image_liberties, lemma_image_same_component,
    lemma_image_turned, lemma_turned_cell, preimage, turned,
};
use vstd::prelude::*;

verus! {

/// Number of planes.
pub const GO_PLANES: usize = 18;

/// Number of entries: the planes, and the komi.
pub const GO_FEATURE_SIZE: usize = 6499;

/// A corner of an eye that lies on the board.
#[verifier::opaque]
pub open spec fn corner_counts(row: int, col: int) -> bool {
    0 <= row < BOARD_SIZE && 0 <= col < BOARD_SIZE
}

/// A corner that lies on the board and does not hold the player's stone.
#[verifier::opaque]
pub open spec fn corner_hostile(cells: Seq<i8>, row: int, col: int, player: Player) -> bool {
    corner_counts(row, col) && cells[row * BOARD_SIZE + col] != player.mark()
}

pub open spec fn one_if(b: bool) -> int {
    if b {
        1
    } else {
        0
    }
}

/// How many corners of the point in a row and column lie on the board.
pub open spec fn corners_of(r: int, c: int) -> int {
    one_if(corner_counts(r - 1, c - 1)) + one_if(corner_counts(r - 1, c + 1)) + one_if(
        corner_counts(r + 1, c - 1),
    ) + one_if(corner_counts(r + 1, c + 1))
}

/// How many of them do not hold the player's stone.
pub open spec fn hostile_corners(cells: Seq<i8>, r: int, c: int, player: Player) -> int {
    one_if(corner_hostile(cells, r - 1, c - 1, player)) + one_if(
        corner_hostile(cells, r - 1, c + 1, player),
    ) + one_if(corner_hostile(cells, r + 1, c - 1, player)) + one_if(
        corner_hostile(cells, r + 1, c + 1, player),
    )
}

/// All neighbors of the point hold the player's stones.
pub open spec fn surrounded(cells: Seq<i8>, p: usize, player: Player) -> bool {
    forall|n: usize| #[trigger] adjacent(p, n) ==> cells[n as int] == player.mark()
}

/// An empty point whose neighbors are all the player's, with no hostile
/// corner, or with at most one if all four lie on the board.
pub open spec fn eye_at(cells: Seq<i8>, p: usize, player: Player) -> bool {
    let (row, col) = (p as int / 19, p as int % 19);
    &&& cells[p as int] == 0
    &&& surrounded(cells, p, player)
    &&& if corners_of(row, col) < 4 {
        hostile_corners(cells, row, col, player) == 0
    } else {
        hostile_corners(cells, row, col, player) <= 1
    }
}

fn corner(cells: &[i8], row: usize, col: usize, player: Player) -> (result: (usize, usize))
    requires
        cells@.len() >= CELL_COUNT,
        row <= BOARD_SIZE + 1,
        col <= BOARD_SIZE + 1,
    ensures
        result.0 == one_if(corner_counts(row - 1, col - 1)),
        result.1 == one_if(corner_hostile(cells@, row - 1, col - 1, player)),
{
    reveal(corner_counts);
    reveal(corner_hostile);
    if row >= 1 && col >= 1 && row - 1 < BOARD_SIZE && col - 1 < BOARD_SIZE {
        if cells[(row - 1) * BOARD_SIZE + (col - 1)] != player.stone() {
            (1, 1)
        } else {
            (1, 0)
        }
    } else {
        (0, 0)
    }
}

/// Whether the point is an eye of the player as far as its surroundings show;
/// it proves nothing of the group's life.
pub fn is_eye(cells: &[i8], point: usize, player: Player) -> (result: bool)
    requires
        cells@.len() >= CELL_COUNT,
        point < CELL_COUNT,
    ensures
        result == eye_at(cells@, point, player),
{
    if cells[point] != 0 {
        return false;
    }
    let ns = neighbors(point);
    proof {
        lemma_neighbors(point);
    }
    let mut k: usize = 0;
    while k < ns.len
        invariant
            cells@.len() >= CELL_COUNT,
            point < CELL_COUNT,
            ns.len <= 4,
            ns@ == neighbors_of(point),
            k <= ns.len,
            forall|m: int| 0 <= m < ns@.len() ==> adjacent(point, #[trigger] ns@[m]),
            forall|m: int| 0 <= m < k ==> cells@[#[trigger] ns@[m] as int] == player.mark(),
        decreases ns.len - k,
    {
        let n: usize = ns.points[k];
        assert(ns@[k as int] == n);
        if cells[n] != player.stone() {
            assert(adjacent(point, n));
            return false;
        }
        k = k + 1;
    }
    proof {
        assert forall|n: usize| #[trigger] adjacent(point, n) implies cells@[n as int]
            == player.mark() by {
            assert(neighbors_of(point).contains(n));
            assert(ns@[ns@.index_of(n)] == n);
        }
    }
    let row: usize = point / BOARD_SIZE;
    let col: usize = point % BOARD_SIZE;
    let (d1, h1) = corner(cells, row, col, player);
    let (d2, h2) = corner(cells, row, col + 2, player);
    let (d3, h3) = corner(cells, row + 2, col, player);
    let (d4, h4) = corner(cells, row + 2, col + 2, player);
    let diagonals: usize = d1 + d2 + d3 + d4;
    let hostile: usize = h1 + h2 + h3 + h4;
    if diagonals < 4 {
        hostile == 0
    } else {
        hostile <= 1
    }
}

/// The player of a side: 0 is the one asked about, 1 the opponent.
pub open spec fn side_player(perspective: Player, side: int) -> Player {
    if side == 0 {
        perspective
    } else {
        perspective.opponent()
    }
}

/// Liberties in the classes one, two, three or more.
pub open spec fn liberty_class(n: nat) -> int {
    if n <= 1 {
        0
    } else if n >= 3 {
        2
    } else {
        1
    }
}

/// The entry of a plane at a point:
/// - 0 to 2, 3 to 5: an own, an opposing stone with one, two, more liberties;
/// - 6, 7: the number of stones of its group;
/// - 8, 9: an own, an opposing eye;
/// - 10: an own stone may be placed; 11: how many it captures; 12: it has one
///   liberty then;
/// - 13, 14: an own, an opposing stone that is unconditionally alive;
/// - 15, 16: an own, an opposing stone before the last move; 17: the last move
///   changed the point.
pub open spec fn plane_value(board: BoardView, perspective: Player, plane: int, p: usize) -> int {
    let cells = board.cells;
    let value = cells[p as int];
    let placed = board.placed(Move(p), perspective);
    if plane < 6 {
        one_if(
            value == side_player(perspective, plane / 3).mark() && liberty_class(
                liberties_of(cells, p).len(),
            ) == plane % 3,
        )
    } else if plane < 8 {
        if value == side_player(perspective, plane - 6).mark() {
            same_component(cells, p).len() as int
        } else {
            0
        }
    } else if plane < 10 {
        one_if(eye_at(cells, p, side_player(perspective, plane - 8)))
    } else if plane == 10 {
        one_if(placed is Some)
    } else if plane == 11 {
        if placed is Some {
            captured_by(cells, p, perspective).len() as int
        } else {
            0
        }
    } else if plane == 12 {
        one_if(placed is Some && liberties_of(placed->0, p).len() == 1)
    } else if plane < 15 {
        one_if(value == side_player(perspective, plane - 13).mark() && alive_at(cells, p))
    } else if plane < 17 {
        one_if(board.previous[p as int] == side_player(perspective, plane - 15).mark())
    } else {
        one_if(board.previous[p as int] != value)
    }
}

/// The komi as seen by the side that is asked about, in thousandths.
pub open spec fn komi_value(board: BoardView, perspective: Player) -> int {
    match perspective {
        Player::White => board.komi_milli,
        Player::Black => -board.komi_milli,
    }
}

/// What an entry is divided by.
pub open spec fn scale_of(index: int) -> int {
    if index == 6498 {
        361_000
    } else if 6 * 361 <= index < 8 * 361 || 11 * 361 <= index < 12 * 361 {
        361
    } else {
        1
    }
}

pub fn scale(index: usize) -> (result: i64)
    ensures
        result == scale_of(index as int),
{
    if index == GO_PLANES * CELL_COUNT {
        361_000
    } else if (6 * CELL_COUNT <= index && index < 8 * CELL_COUNT) || (11 * CELL_COUNT <= index
        && index < 12 * CELL_COUNT) {
        361
    } else {
        1
    }
}

/// What is known of each point before the planes are written.
struct Tables {
    liberties: Vec<usize>,
    sizes: Vec<usize>,
    safe: [bool; 361],
    placed: Vec<Option<(usize, usize)>>,
}

impl Tables {
    spec fn describe(self, board: BoardView, perspective: Player) -> bool {
        &&& self.liberties@.len() == CELL_COUNT
        &&& self.sizes@.len() == CELL_COUNT
        &&& self.placed@.len() == CELL_COUNT
        &&& forall|p: usize|
            p < CELL_COUNT && board.cells[p as int] != 0 ==> #[trigger] self.liberties@[p as int]
                == liberties_of(board.cells, p).len()
        &&& forall|p: usize|
            p < CELL_COUNT && board.cells[p as int] != 0 ==> #[trigger] self.sizes@[p as int]
                == same_component(board.cells, p).len()
        &&& forall|p: usize|
            p < CELL_COUNT ==> #[trigger] self.safe@[p as int] == alive_at(board.cells, p)
        &&& forall|p: usize|
            p < CELL_COUNT ==> placed_entry(
                board,
                perspective,
                p,
                #[trigger] self.placed@[p as int],
            )
    }
}

spec fn placed_entry(
    board: BoardView,
    perspective: Player,
    p: usize,
    entry: Option<(usize, usize)>,
) -> bool {
    match board.placed(Move(p), perspective) {
        None => entry is None,
        Some(after) => {
            &&& entry is Some
            &&& (entry->0).0 == captured_by(board.cells, p, perspective).len()
            &&& (entry->0).1 == liberties_of(after, p).len()
        },
    }
}

fn make_tables(board: &Board, perspective: Player) -> (tables: Tables)
    requires
        board@.wf(),
    ensures
        tables.describe(board@, perspective),
{
    let cells: &[i8] = board.cells();
    let groups: Vec<Chain> = chains(cells);
    let safe: [bool; 361] = pass_alive_with_chains(cells, groups.as_slice());
    let ghost list = chain_list(cells@);
    let mut liberties: Vec<usize> = vec![0; 361];
    let mut sizes: Vec<usize> = vec![0; 361];
    proof {
        lemma_chains_below(cells@, CELL_COUNT as nat);
        assert(chain_views(groups@).len() == groups@.len());
    }
    let mut id: usize = 0;
    while id < groups.len()
        invariant
            cells@.len() == CELL_COUNT,
            list == chain_list(cells@),
            chain_views(groups@) == list,
            groups@.len() == list.len(),
            liberties@.len() == CELL_COUNT,
            sizes@.len() == CELL_COUNT,
            id <= groups@.len(),
            forall|k: int, p: usize|
                0 <= k < id && #[trigger] list[k].stones.contains(p) ==> p < CELL_COUNT
                    && liberties@[p as int] == liberties_of(cells@, p).len() && sizes@[p as int]
                    == same_component(cells@, p).len(),
        decreases groups@.len() - id,
    {
        let chain: &Chain = &groups[id];
        assert(chain_views(groups@)[id as int] == chain@);
        let ghost (l0, s0) = (liberties@, sizes@);
        proof {
            lemma_chains_below(cells@, CELL_COUNT as nat);
            let first = list[id as int].stones[0];
            lemma_chain_at(cells@, first);
            assert(list[id as int] == crate::chains::chain_at(cells@, first));
            assert forall|j: int|
                0 <= j < chain.stones@.len() implies #[trigger] chain.stones@[j] < CELL_COUNT
                && cells@[chain.stones@[j] as int] != 0 by {
                assert(crate::chains::chain_at(cells@, first).stones[j] == chain.stones@[j]);
            }
        }
        let mut j: usize = 0;
        while j < chain.stones.len()
            invariant
                cells@.len() == CELL_COUNT,
                list == chain_list(cells@),
                id < list.len(),
                chain@ == list[id as int],
                liberties@.len() == CELL_COUNT,
                sizes@.len() == CELL_COUNT,
                j <= chain.stones@.len(),
                forall|m: int|
                    0 <= m < chain.stones@.len() ==> #[trigger] chain.stones@[m] < CELL_COUNT
                        && cells@[chain.stones@[m] as int] != 0,
                forall|k: int, p: usize|
                    0 <= k < id && #[trigger] list[k].stones.contains(p) ==> p < CELL_COUNT
                        && liberties@[p as int] == liberties_of(cells@, p).len() && sizes@[p as int]
                        == same_component(cells@, p).len(),
                forall|m: int|
                    0 <= m < j ==> liberties@[#[trigger] chain.stones@[m] as int] == liberties_of(
                        cells@,
                        chain.stones@[m],
                    ).len() && sizes@[chain.stones@[m] as int] == same_component(
                        cells@,
                        chain.stones@[m],
                    ).len(),
            decreases chain.stones@.len() - j,
        {
            let p: usize = chain.stones[j];
            proof {
                let at = lemma_chain_of_stone(cells@, p);
                assert(list[id as int].stones.contains(p));
                assert(at == id);
            }
            liberties.set(p, chain.liberties.len());
            sizes.set(p, chain.stones.len());
            j = j + 1;
        }
        proof {
            assert forall|k: int, p: usize|
                0 <= k < id + 1 && #[trigger] list[k].stones.contains(p) implies p < CELL_COUNT
                && liberties@[p as int] == liberties_of(cells@, p).len() && sizes@[p as int]
                == same_component(cells@, p).len() by {
                if k == id {
                    let m = chain.stones@.index_of(p);
                    assert(chain.stones@[m] == p);
                }
            }
        }
        id = id + 1;
    }
    proof {
        assert forall|p: usize| p < CELL_COUNT && cells@[p as int] != 0 implies liberties@[p as int]
            == liberties_of(cells@, p).len() && sizes@[p as int] == same_component(
            cells@,
            p,
        ).len() by {
            let at = lemma_chain_of_stone(cells@, p);
            assert(list[at].stones.contains(p));
        }
    }
    let analysis: MoveAnalysis = MoveAnalysis::of_cells(cells);
    let mut placed: Vec<Option<(usize, usize)>> = Vec::with_capacity(361);
    let mut point: usize = 0;
    while point < CELL_COUNT
        invariant
            board@.wf(),
            analysis.holds(chain_list(board@.cells)),
            point <= CELL_COUNT,
            placed@.len() == point,
            forall|p: usize|
                p < point ==> placed_entry(board@, perspective, p, #[trigger] placed@[p as int]),
        decreases CELL_COUNT - point,
    {
        match analysis.placement(board, Move(point), perspective) {
            Some(info) => {
                placed.push(Some((info.captured_count(), info.liberties)));
            },
            None => {
                placed.push(None);
            },
        }
        point = point + 1;
    }
    Tables { liberties, sizes, safe, placed }
}

/// The entry of a plane at a point.
fn plane_entry(board: &Board, perspective: Player, tables: &Tables, plane: usize, p: usize) -> (
    value: i64)
    requires
        board@.wf(),
        tables.describe(board@, perspective),
        plane < GO_PLANES,
        p < CELL_COUNT,
    ensures
        value == plane_value(board@, perspective, plane as int, p),
{
    let cells: &[i8] = board.cells();
    let own: i8 = perspective.stone();
    let other: i8 = perspective.other().stone();
    proof {
        assert(placed_entry(board@, perspective, p, tables.placed@[p as int]));
        assert(tables.safe@[p as int] == alive_at(board@.cells, p));
        if board@.cells[p as int] != 0 {
            assert(tables.liberties@[p as int] == liberties_of(board@.cells, p).len());
            assert(tables.sizes@[p as int] == same_component(board@.cells, p).len());
            lemma_walk_order(points_with(board@.cells, board@.cells[p as int]), p);
        }
        if board@.cells[p as int] == 0 {
            lemma_captured_len(board@.cells, p, perspective);
        }
    }
    if plane < 6 {
        let mark: i8 = if plane < 3 {
            own
        } else {
            other
        };
        if cells[p] != mark {
            return 0;
        }
        let n: usize = tables.liberties[p];
        let class: usize = if n <= 1 {
            0
        } else if n >= 3 {
            2
        } else {
            1
        };
        if class == plane % 3 {
            1
        } else {
            0
        }
    } else if plane < 8 {
        let mark: i8 = if plane == 6 {
            own
        } else {
            other
        };
        if cells[p] == mark {
            tables.sizes[p] as i64
        } else {
            0
        }
    } else if plane < 10 {
        let player: Player = if plane == 8 {
            perspective
        } else {
            perspective.other()
        };
        if is_eye(cells, p, player) {
            1
        } else {
            0
        }
    } else if plane < 13 {
        match tables.placed[p] {
            None => 0,
            Some((captured, liberties)) => if plane == 10 {
                1
            } else if plane == 11 {
                captured as i64
            } else if liberties == 1 {
                1
            } else {
                0
            },
        }
    } else if plane < 15 {
        let mark: i8 = if plane == 13 {
            own
        } else {
            other
        };
        if cells[p] == mark && tables.safe[p] {
            1
        } else {
            0
        }
    } else if plane < 17 {
        let mark: i8 = if plane == 15 {
            own
        } else {
            other
        };
        if board.previous_cells()[p] == mark {
            1
        } else {
            0
        }
    } else if board.previous_cells()[p] != cells[p] {
        1
    } else {
        0
    }
}

/// Captures are points of the grid, so there are not too many to count.
pub proof fn lemma_captured_len(cells: Seq<i8>, p: usize, player: Player)
    requires
        p < CELL_COUNT,
        cells.len() >= CELL_COUNT,
        cells[p as int] == 0,
    ensures
        captured_by(cells, p, player).finite(),
        captured_by(cells, p, player).len() <= CELL_COUNT,
{
    lemma_captured_color(cells, p, player);
    let all = Set::<usize>::range(0, CELL_COUNT);
    vstd::set_lib::range_set_properties::<usize>(0, CELL_COUNT);
    assert(captured_by(cells, p, player).subset_of(all));
    vstd::set_lib::lemma_set_subset_finite(all, captured_by(cells, p, player));
    vstd::set_lib::lemma_len_subset(captured_by(cells, p, player), all);
}

/// The planes one after the other, each point by point, then the komi.
pub fn encode(board: &Board, perspective: Player) -> (data: Vec<i64>)
    requires
        board@.wf(),
    ensures
        data@.len() == GO_FEATURE_SIZE,
        forall|plane: int, p: usize|
            0 <= plane < 18 && p < CELL_COUNT ==> #[trigger] data@[plane * 361 + p] == plane_value(
                board@,
                perspective,
                plane,
                p,
            ),
        data@[6498] == komi_value(board@, perspective),
{
    let tables: Tables = make_tables(board, perspective);
    let mut data: Vec<i64> = Vec::with_capacity(6499);
    let mut plane: usize = 0;
    while plane < GO_PLANES
        invariant
            board@.wf(),
            tables.describe(board@, perspective),
            plane <= GO_PLANES,
            data@.len() == plane * 361,
            forall|k: int, p: usize|
                0 <= k < plane && p < CELL_COUNT ==> #[trigger] data@[k * 361 + p] == plane_value(
                    board@,
                    perspective,
                    k,
                    p,
                ),
        decreases GO_PLANES - plane,
    {
        let mut p: usize = 0;
        while p < CELL_COUNT
            invariant
                board@.wf(),
                tables.describe(board@, perspective),
                plane < GO_PLANES,
                p <= CELL_COUNT,
                data@.len() == plane * 361 + p,
                forall|k: int, q: usize|
                    0 <= k < plane && q < CELL_COUNT ==> #[trigger] data@[k * 361 + q]
                        == plane_value(board@, perspective, k, q),
                forall|q: usize|
                    q < p ==> #[trigger] data@[plane * 361 + q] == plane_value(
                        board@,
                        perspective,
                        plane as int,
                        q,
                    ),
            decreases CELL_COUNT - p,
        {
            data.push(plane_entry(board, perspective, &tables, plane, p));
            p = p + 1;
        }
        proof {
            assert forall|k: int, p: usize|
                0 <= k < plane + 1 && p < CELL_COUNT implies #[trigger] data@[k * 361 + p]
                == plane_value(board@, perspective, k, p) by {
                if k == plane {
                    assert(data@[plane * 361 + p] == plane_value(
                        board@,
                        perspective,
                        plane as int,
                        p,
                    ));
                }
            }
        }
        plane = plane + 1;
    }
    let komi: i64 = board.komi() as i64;
    match perspective {
        Player::White => {
            data.push(komi);
        },
        Player::Black => {
            data.push(-komi);
        },
    }
    data
}

/// The points below `n` that the mask allows, ascending.
pub open spec fn masked_below(mask: Seq<i64>, n: nat) -> Seq<Move>
    decreases n,
{
    if n == 0 {
        Seq::empty()
    } else {
        let before = masked_below(mask, (n - 1) as nat);
        if mask[n - 1] != 0 {
            before.push(Move((n - 1) as usize))
        } else {
            before
        }
    }
}

/// The actions of a board whose placements the mask tells.
pub open spec fn masked_moves(board: BoardView, mask: Seq<i64>) -> Seq<Move> {
    if board.finished() {
        Seq::empty()
    } else {
        masked_below(mask, CELL_COUNT as nat).push(Move::pass_move())
    }
}

/// The legal actions by the plane of allowed placements; none when the game
/// is over, else the pass is the last.
pub fn moves_from_mask(board: &Board, mask: &[i64]) -> (result: Vec<Move>)
    requires
        mask@.len() >= CELL_COUNT,
    ensures
        result@ == masked_moves(board@, mask@),
{
    let mut result: Vec<Move> = Vec::new();
    if board.is_finished() {
        return result;
    }
    let mut p: usize = 0;
    while p < CELL_COUNT
        invariant
            mask@.len() >= CELL_COUNT,
            p <= CELL_COUNT,
            result@ == masked_below(mask@, p as nat),
        decreases CELL_COUNT - p,
    {
        if mask[p] != 0 {
            result.push(Move(p));
        }
        p = p + 1;
    }
    result.push(Move::pass());
    result
}

proof fn lemma_masked_below(board: BoardView, role: Player, mask: Seq<i64>, n: nat)
    requires
        !board.turned(role).finished(),
        n <= CELL_COUNT,
        mask.len() >= CELL_COUNT,
        forall|p: usize|
            p < CELL_COUNT ==> #[trigger] mask[p as int] == plane_value(board, role, 10, p),
    ensures
        masked_below(mask, n) == legal_below(board.turned(role), n),
    decreases n,
{
    if n > 0 {
        lemma_masked_below(board, role, mask, (n - 1) as nat);
        let p = (n - 1) as usize;
        assert(mask[p as int] == plane_value(board, role, 10, p));
        assert(board.turned(role).placed(Move(p), role) == board.placed(Move(p), role));
    }
}

/// The placement plane of a position tells the legal actions of the side that
/// is asked about, when it is its turn.
pub proof fn law_mask_tells_legal_moves(board: BoardView, role: Player, mask: Seq<i64>)
    requires
        mask.len() >= CELL_COUNT,
        forall|p: usize|
            p < CELL_COUNT ==> #[trigger] mask[p as int] == plane_value(board, role, 10, p),
    ensures
        masked_moves(board.turned(role), mask) == legal_moves(board.turned(role)),
{
    let turn = board.turned(role);
    if turn.finished() {
        lemma_no_legal(turn, 362);
    } else {
        lemma_masked_below(board, role, mask, CELL_COUNT as nat);
        assert(turn.legal(Move(361)));
        assert(legal_below(turn, 362) == legal_below(turn, 361).push(Move(361)));
    }
}

proof fn lemma_no_legal(board: BoardView, n: nat)
    requires
        board.finished(),
    ensures
        legal_below(board, n) == Seq::<Move>::empty(),
    decreases n,
{
    if n > 0 {
        lemma_no_legal(board, (n - 1) as nat);
    }
}

proof fn lemma_image_corner(cells: Seq<i8>, row: int, col: int, player: Player, symmetry: usize)
    ensures
        ({
            let (r, c) = turned(row, col, symmetry);
            &&& corner_counts(r, c) == corner_counts(row, col)
            &&& corner_hostile(image_cells(cells, symmetry), r, c, player) == corner_hostile(
                cells,
                row,
                col,
                player,
            )
        }),
{
    reveal(corner_counts);
    reveal(corner_hostile);
    if corner_counts(row, col) {
        lemma_turned_cell(cells, row, col, symmetry);
    }
}

proof fn lemma_image_corners(cells: Seq<i8>, row: int, col: int, player: Player, symmetry: usize)
    ensures
        ({
            let (r, c) = turned(row, col, symmetry);
            &&& corners_of(r, c) == corners_of(row, col)
            &&& hostile_corners(image_cells(cells, symmetry), r, c, player) == hostile_corners(
                cells,
                row,
                col,
                player,
            )
        }),
{
    lemma_image_corner(cells, row - 1, col - 1, player, symmetry);
    lemma_image_corner(cells, row - 1, col + 1, player, symmetry);
    lemma_image_corner(cells, row + 1, col - 1, player, symmetry);
    lemma_image_corner(cells, row + 1, col + 1, player, symmetry);
}

proof fn lemma_image_surrounded(cells: Seq<i8>, p: usize, player: Player, symmetry: usize)
    requires
        p < CELL_COUNT,
    ensures
        surrounded(image_cells(cells, symmetry), image(p, symmetry), player) == surrounded(
            cells,
            p,
            player,
        ),
{
    let moved = image_cells(cells, symmetry);
    let q = image(p, symmetry);
    if surrounded(cells, p, player) {
        assert forall|m: usize| #[trigger] adjacent(q, m) implies moved[m as int]
            == player.mark() by {
            let n = preimage(m, symmetry);
            law_symmetry_is_one_to_one(m, symmetry);
            law_symmetry_keeps_adjacency(p, n, symmetry);
            lemma_image_cell(cells, n, symmetry);
            assert(adjacent(p, n));
        }
    }
    if surrounded(moved, q, player) {
        assert forall|n: usize| #[trigger] adjacent(p, n) implies cells[n as int]
            == player.mark() by {
            law_symmetry_keeps_adjacency(p, n, symmetry);
            lemma_image_cell(cells, n, symmetry);
            assert(adjacent(q, image(n, symmetry)));
        }
    }
}

/// Eyes move with the board.
proof fn lemma_image_eye(cells: Seq<i8>, p: usize, player: Player, symmetry: usize)
    requires
        p < CELL_COUNT,
    ensures
        eye_at(image_cells(cells, symmetry), image(p, symmetry), player) == eye_at(
            cells,
            p,
            player,
        ),
{
    lemma_image_cell(cells, p, symmetry);
    lemma_image_turned(p, symmetry);
    lemma_image_corners(cells, p as int / 19, p as int % 19, player, symmetry);
    lemma_image_surrounded(cells, p, player, symmetry);
}

/// Every plane moves with the board under each symmetry.
pub proof fn law_planes_move_with_the_board(
    board: BoardView,
    perspective: Player,
    plane: int,
    p: usize,
    symmetry: usize,
)
    requires
        board.wf(),
        0 <= plane < 18,
        p < CELL_COUNT,
    ensures
        plane_value(board.imaged(symmetry), perspective, plane, image(p, symmetry)) == plane_value(
            board,
            perspective,
            plane,
            p,
        ),
{
    let cells = board.cells;
    let moved = board.imaged(symmetry);
    law_symmetry_is_one_to_one(p, symmetry);
    lemma_image_cell(cells, p, symmetry);
    lemma_image_cell(board.previous, p, symmetry);
    if plane < 8 {
        lemma_image_liberties(cells, p, symmetry);
        lemma_image_same_component(cells, p, symmetry);
        lemma_chain_at(cells, p);
        lemma_component_basic(points_with(cells, cells[p as int]), p);
        lemma_image_len(same_component(cells, p), symmetry);
        lemma_image_len(liberties_of(cells, p), symmetry);
    } else if plane < 10 {
        lemma_image_eye(cells, p, perspective, symmetry);
        lemma_image_eye(cells, p, perspective.opponent(), symmetry);
    } else if plane <= 12 {
        law_placement_commutes_with_symmetry(board, Move(p), perspective, symmetry);
        if cells[p as int] == 0 {
            lemma_image_captured(cells, p, perspective, symmetry);
            lemma_captured_color(cells, p, perspective);
            lemma_captured_len(cells, p, perspective);
            lemma_image_len(captured_by(cells, p, perspective), symmetry);
            let after = after_placement(cells, p, perspective);
            lemma_image_liberties(after, p, symmetry);
            lemma_chain_at(after, p);
            lemma_image_len(liberties_of(after, p), symmetry);
        }
    } else if plane < 15 {
        law_life_commutes_with_symmetry(cells, p, symmetry);
    }
}

} // verus!
