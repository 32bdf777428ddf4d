//! The fixed tables of the network: where a stone's weights stand, the local
//! patterns along the four axes, and the sizes of the stored tensors.
use crate::alphabeta::{axis_col, axis_row, on_grid};
use crate::game::{Board, BoardView, Move, Player, ACTION_COUNT};
use crate::grid::{BOARD_SIZE, CELL_COUNT};
use vstd::prelude::*;

verus! {

/// The input that holds the number of moves; the two stone planes stand
/// before it.
pub const MOVE_COUNT_INPUT: usize = 722;

pub const PASS_INPUT: usize = 723;

pub const ROLE_INPUT_START: usize = 724;

pub const ROLE_COUNT: usize = 2;

pub const GO_INPUT_START: usize = 726;

pub const INPUT_SIZE: usize = 7225;

pub const DEFAULT_HIDDEN_SIZE: usize = 128;

pub const STONE_TYPES: usize = 2;

pub const AXIS_FEATURES: usize = 38;

pub const DIAGONAL_FEATURES: usize = 74;

pub const LOCAL_AXES: usize = 4;

pub const LOCAL_RADIUS: usize = 4;

/// Patterns of one ray: four states at each of four points.
pub const LOCAL_RAY_PATTERNS: usize = 256;

/// Unordered pairs of ray patterns.
pub const LOCAL_AXIS_PATTERNS: usize = 32896;

pub const POLICY_TACTICAL_SIZE: usize = 4_194_304;

pub const REGION_COUNT: usize = 9;

/// Entries of the table of local neighbors.
pub const LOCAL_TABLE_SIZE: usize = 11584;

/// The mark of a neighbor outside the grid.
pub const LOCAL_BOUNDARY: u8 = 255;

/// Why an architecture or a stored model is refused.
#[derive(Clone, Copy, Debug, PartialEq, Eq, Structural)]
pub enum ArchError {
    EmptyHidden,
    WrongSize,
}

/// The width of the network.
#[derive(Clone, Copy, Debug, PartialEq, Eq, Structural)]
pub struct PolicyValueArch {
    pub hidden_size: usize,
}

impl PolicyValueArch {
    pub fn default_const() -> (result: PolicyValueArch)
        ensures
            result.hidden_size == DEFAULT_HIDDEN_SIZE,
    {
        PolicyValueArch { hidden_size: DEFAULT_HIDDEN_SIZE }
    }

    pub fn with_hidden_size(hidden_size: usize) -> (result: PolicyValueArch)
        ensures
            result.hidden_size == hidden_size,
    {
        PolicyValueArch { hidden_size }
    }

    /// A width of zero is refused.
    pub fn validate(self) -> (result: Result<(), ArchError>)
        ensures
            result == (if self.hidden_size == 0 {
                Err::<(), ArchError>(ArchError::EmptyHidden)
            } else {
                Ok::<(), ArchError>(())
            }),
    {
        if self.hidden_size == 0 {
            Err(ArchError::EmptyHidden)
        } else {
            Ok(())
        }
    }
}

impl Default for PolicyValueArch {
    fn default() -> (result: PolicyValueArch)
        ensures
            result.hidden_size == DEFAULT_HIDDEN_SIZE,
    {
        PolicyValueArch::default_const()
    }
}

pub open spec fn role_of(player: Player) -> int {
    match player {
        Player::Black => 0,
        Player::White => 1,
    }
}

pub fn role_index(player: Player) -> (result: usize)
    ensures
        result == role_of(player),
{
    match player {
        Player::Black => 0,
        Player::White => 1,
    }
}

/// The region of a point, counted by six rows and six columns. The points past
/// the ninth region belong to the last three by their columns.
pub open spec fn region_of_point(p: int) -> int {
    let counted = (p / 19 / 6) * 3 + p % 19 / 6;
    let third = p % 19 / 6;
    if counted < 9 {
        counted
    } else if third < 2 {
        6 + third
    } else {
        8
    }
}

/// The region of a point.
pub fn point_region(p: usize) -> (result: usize)
    requires
        p < CELL_COUNT,
    ensures
        result == region_of_point(p as int),
        result < 9,
{
    let third: usize = p % BOARD_SIZE / 6;
    let counted: usize = p / BOARD_SIZE / 6 * 3 + third;
    if counted < 9 {
        counted
    } else if third < 2 {
        6 + third
    } else {
        8
    }
}

/// The row of the weights that a stone adds, by kind: 0 is the point itself,
/// 1 the side, 2 the row, 3 the column, 4 and 5 the diagonals, 6 the region.
/// Side 0 is the own one.
pub open spec fn slot_of(kind: int, side: int, p: int) -> int {
    let row = p / 19;
    let col = p % 19;
    if kind == 0 {
        side * 361 + p
    } else if kind == 1 {
        side
    } else if kind == 2 {
        side * 19 + row
    } else if kind == 3 {
        side * 19 + col
    } else if kind == 4 {
        side * 37 + row + 18 - col
    } else if kind == 5 {
        side * 37 + row + col
    } else {
        region_of_point(p) * 2 + side
    }
}

/// How many rows the kind has.
pub open spec fn slot_count(kind: int) -> int {
    if kind == 0 {
        722
    } else if kind == 1 {
        2
    } else if kind == 2 || kind == 3 {
        38
    } else if kind == 4 || kind == 5 {
        74
    } else {
        18
    }
}

/// The row of the weights that a stone adds.
pub fn stone_slot(kind: usize, side: usize, p: usize) -> (result: usize)
    requires
        kind < 7,
        side < 2,
        p < CELL_COUNT,
    ensures
        result == slot_of(kind as int, side as int, p as int),
        result < slot_count(kind as int),
{
    let row: usize = p / BOARD_SIZE;
    let col: usize = p % BOARD_SIZE;
    if kind == 0 {
        side * CELL_COUNT + p
    } else if kind == 1 {
        side
    } else if kind == 2 {
        side * BOARD_SIZE + row
    } else if kind == 3 {
        side * BOARD_SIZE + col
    } else if kind == 4 {
        side * 37 + row + 18 - col
    } else if kind == 5 {
        side * 37 + row + col
    } else {
        point_region(p) * 2 + side
    }
}

/// The neighbor of a cell at a distance along a ray of an axis, in one byte:
/// the low byte of its index, or the boundary mark outside the grid. The pass
/// has no neighbors.
pub open spec fn local_cell(cell: int, axis: int, ray: int, distance: int) -> u8 {
    let j = if ray == 0 {
        -distance
    } else {
        distance
    };
    let r = axis_row(cell / 19, axis, j);
    let c = axis_col(cell % 19, axis, j);
    if cell < 361 && on_grid(r, c) {
        ((r * 19 + c) % 256) as u8
    } else {
        LOCAL_BOUNDARY
    }
}

pub fn local_neighbor(cell: usize, axis: usize, ray: usize, distance: usize) -> (result: u8)
    requires
        cell < ACTION_COUNT,
        axis < 4,
        ray < 2,
        1 <= distance <= 4,
    ensures
        result == local_cell(cell as int, axis as int, ray as int, distance as int),
{
    if cell >= CELL_COUNT {
        return LOCAL_BOUNDARY;
    }
    let row: i32 = (cell / BOARD_SIZE) as i32;
    let col: i32 = (cell % BOARD_SIZE) as i32;
    let j: i32 = if ray == 0 {
        -(distance as i32)
    } else {
        distance as i32
    };
    let r: i32 = if axis == 1 {
        row
    } else {
        row + j
    };
    let c: i32 = if axis == 0 {
        col
    } else if axis == 3 {
        col - j
    } else {
        col + j
    };
    if 0 <= r && r < 19 && 0 <= c && c < 19 {
        ((r as usize * BOARD_SIZE + c as usize) % 256) as u8
    } else {
        LOCAL_BOUNDARY
    }
}

/// The table of local neighbors: by cell, axis, ray and distance.
pub fn build_local_neighbors() -> (table: Vec<u8>)
    ensures
        table@.len() == LOCAL_TABLE_SIZE,
        forall|slot: int|
            0 <= slot < LOCAL_TABLE_SIZE ==> #[trigger] table@[slot] == local_cell(
                slot / 32,
                slot / 8 % 4,
                slot / 4 % 2,
                slot % 4 + 1,
            ),
{
    let mut table: Vec<u8> = Vec::with_capacity(11584);
    let mut slot: usize = 0;
    while slot < LOCAL_TABLE_SIZE
        invariant
            slot <= LOCAL_TABLE_SIZE,
            table@.len() == slot,
            forall|k: int|
                0 <= k < slot ==> #[trigger] table@[k] == local_cell(
                    k / 32,
                    k / 8 % 4,
                    k / 4 % 2,
                    k % 4 + 1,
                ),
        decreases LOCAL_TABLE_SIZE - slot,
    {
        table.push(local_neighbor(slot / 32, slot / 8 % 4, slot / 4 % 2, slot % 4 + 1));
        slot = slot + 1;
    }
    table
}

/// The state of a cell for the side to move: empty, own, opposing.
pub open spec fn cell_state(board: BoardView, cell: int) -> int {
    let us = board.to_move.mark();
    if board.cells[cell] == us {
        1
    } else if board.cells[cell] == -us {
        2
    } else {
        0
    }
}

/// The state that a neighbor's byte stands for.
pub open spec fn state_at(states: Seq<int>, cell: u8) -> int {
    if cell == LOCAL_BOUNDARY {
        3
    } else {
        states[cell as int]
    }
}

/// The states of the cells for the side to move.
pub open spec fn board_states(board: BoardView) -> Seq<int> {
    Seq::new(CELL_COUNT as nat, |cell: int| cell_state(board, cell))
}

/// The states along a ray as a number in base four, the nearest first.
pub open spec fn ray_code(states: Seq<int>, cell: int, axis: int, ray: int) -> int {
    state_at(states, local_cell(cell, axis, ray, 1)) + 4 * state_at(
        states,
        local_cell(cell, axis, ray, 2),
    ) + 16 * state_at(states, local_cell(cell, axis, ray, 3)) + 64 * state_at(
        states,
        local_cell(cell, axis, ray, 4),
    )
}

/// The codes of both rays of an axis, the smaller first.
pub open spec fn axis_codes(states: Seq<int>, cell: int, axis: int) -> (int, int) {
    let a = ray_code(states, cell, axis, 0);
    let b = ray_code(states, cell, axis, 1);
    if a <= b {
        (a, b)
    } else {
        (b, a)
    }
}

/// The axis that a direction runs along, either way.
pub open spec fn axis_of(dr: i32, dc: i32) -> Option<int> {
    if (dr == 1 || dr == -1) && dc == 0 {
        Some(0)
    } else if dr == 0 && (dc == 1 || dc == -1) {
        Some(1)
    } else if (dr == 1 && dc == 1) || (dr == -1 && dc == -1) {
        Some(2)
    } else if (dr == 1 && dc == -1) || (dr == -1 && dc == 1) {
        Some(3)
    } else {
        None
    }
}

fn board_state_at(board: &Board, cell: u8) -> (result: usize)
    requires
        board@.wf(),
    ensures
        result == state_at(board_states(board@), cell),
        result <= 3,
{
    if cell == LOCAL_BOUNDARY {
        return 3;
    }
    let us: i8 = board.to_move().stone();
    let value: i8 = board.cells()[cell as usize];
    if value == us {
        1
    } else if value == -us {
        2
    } else {
        0
    }
}

fn board_ray_code(board: &Board, cell: usize, axis: usize, ray: usize) -> (result: usize)
    requires
        board@.wf(),
        cell < ACTION_COUNT,
        axis < 4,
        ray < 2,
    ensures
        result == ray_code(board_states(board@), cell as int, axis as int, ray as int),
        result < 256,
{
    let a: usize = board_state_at(board, local_neighbor(cell, axis, ray, 1));
    let b: usize = board_state_at(board, local_neighbor(cell, axis, ray, 2));
    let c: usize = board_state_at(board, local_neighbor(cell, axis, ray, 3));
    let d: usize = board_state_at(board, local_neighbor(cell, axis, ray, 4));
    a + 4 * b + 16 * c + 64 * d
}

/// The codes of the two rays from the action along a direction, the smaller
/// first.
pub fn local_ray_codes(board: &Board, mv: Move, dr: i32, dc: i32) -> (result: (usize, usize))
    requires
        board@.wf(),
        mv.0 < ACTION_COUNT,
        axis_of(dr, dc) is Some,
    ensures
        (result.0 as int, result.1 as int) == axis_codes(
            board_states(board@),
            mv.0 as int,
            axis_of(dr, dc)->0,
        ),
        result.0 <= result.1 < 256,
{
    let axis: usize = if dc == 0 {
        0
    } else if dr == 0 {
        1
    } else if dr == dc {
        2
    } else {
        3
    };
    let a: usize = board_ray_code(board, mv.0, axis, 0);
    let b: usize = board_ray_code(board, mv.0, axis, 1);
    if a <= b {
        (a, b)
    } else {
        (b, a)
    }
}

fn given_state_at(states: &[u8], cell: u8) -> (result: usize)
    requires
        states@.len() >= 255,
    ensures
        result == state_at(states@.map_values(|s: u8| s as int), cell),
        result <= 255,
{
    if cell == LOCAL_BOUNDARY {
        3
    } else {
        states[cell as usize] as usize
    }
}

fn given_ray_code(states: &[u8], cell: usize, axis: usize, ray: usize) -> (result: usize)
    requires
        states@.len() >= 255,
        cell < ACTION_COUNT,
        axis < 4,
        ray < 2,
    ensures
        result == ray_code(
            states@.map_values(|s: u8| s as int),
            cell as int,
            axis as int,
            ray as int,
        ),
{
    let a: usize = given_state_at(states, local_neighbor(cell, axis, ray, 1));
    let b: usize = given_state_at(states, local_neighbor(cell, axis, ray, 2));
    let c: usize = given_state_at(states, local_neighbor(cell, axis, ray, 3));
    let d: usize = given_state_at(states, local_neighbor(cell, axis, ray, 4));
    a + 4 * b + 16 * c + 64 * d
}

/// The same codes, from the states of the cells.
pub fn local_ray_codes_from_states(states: &[u8], mv: Move, axis: usize) -> (result: (usize, usize))
    requires
        states@.len() >= 255,
        mv.0 < ACTION_COUNT,
        axis < 4,
    ensures
        (result.0 as int, result.1 as int) == axis_codes(
            states@.map_values(|s: u8| s as int),
            mv.0 as int,
            axis as int,
        ),
{
    let a: usize = given_ray_code(states, mv.0, axis, 0);
    let b: usize = given_ray_code(states, mv.0, axis, 1);
    if a <= b {
        (a, b)
    } else {
        (b, a)
    }
}

/// The codes do not depend on which way the axis is followed.
pub proof fn law_ray_codes_are_reflection_invariant(dr: i32, dc: i32, states: Seq<int>, cell: int)
    requires
        axis_of(dr, dc) is Some,
    ensures
        axis_of((-dr) as i32, (-dc) as i32) == axis_of(dr, dc),
        axis_codes(states, cell, axis_of((-dr) as i32, (-dc) as i32)->0) == axis_codes(
            states,
            cell,
            axis_of(dr, dc)->0,
        ),
{
}

/// The number of an unordered pair of ray codes.
pub open spec fn pattern_of(first: int, second: int) -> int {
    second * (second + 1) / 2 + first
}

pub fn local_pattern(first: usize, second: usize) -> (result: usize)
    requires
        first <= second < 256,
    ensures
        result == pattern_of(first as int, second as int),
        result < LOCAL_AXIS_PATTERNS,
{
    proof {
        lemma_triangle(second as int);
    }
    second * (second + 1) / 2 + first
}

proof fn lemma_triangle(n: int)
    requires
        0 <= n < 256,
    ensures
        0 <= n * (n + 1) <= 255 * 256,
        n * (n + 1) / 2 + n < 32896,
{
    assert(0 <= n * (n + 1) <= 255 * 256) by (nonlinear_arith)
        requires
            0 <= n < 256,
    ;
}

/// Different pairs have different numbers.
pub proof fn law_patterns_are_distinct(a: int, b: int, c: int, d: int)
    requires
        0 <= a <= b < 256,
        0 <= c <= d < 256,
        pattern_of(a, b) == pattern_of(c, d),
    ensures
        a == c,
        b == d,
{
    if b < d {
        lemma_triangle_grows(b, d);
    }
    if d < b {
        lemma_triangle_grows(d, b);
    }
}

proof fn lemma_triangle_grows(b: int, d: int)
    requires
        0 <= b < d < 256,
    ensures
        b * (b + 1) / 2 + b < d * (d + 1) / 2,
{
    assert(d * (d + 1) >= (b + 1) * (b + 2)) by (nonlinear_arith)
        requires
            0 <= b < d,
    ;
    assert((b + 1) * (b + 2) == b * (b + 1) + 2 * (b + 1)) by (nonlinear_arith);
}

/// The entry of the tactical table for an action, an axis and a pattern.
pub open spec fn tactical_of(mv: u64, axis: u64, pattern: u64) -> usize {
    let start = pattern ^ mv.wrapping_mul(0x9E37_79B9) ^ axis.wrapping_mul(0x85EB_CA6B);
    let a = (start ^ (start >> 30)).wrapping_mul(0xBF58_476D_1CE4_E5B9);
    ((a ^ (a >> 27)) & 0x3f_ffff) as usize
}

pub fn policy_tactical_index(mv: Move, axis: usize, pattern: usize) -> (result: usize)
    ensures
        result == tactical_of(mv.0 as u64, axis as u64, pattern as u64),
        result < POLICY_TACTICAL_SIZE,
{
    let start: u64 = pattern as u64 ^ (mv.0 as u64).wrapping_mul(0x9E37_79B9) ^ (
    axis as u64).wrapping_mul(0x85EB_CA6B);
    let a: u64 = (start ^ (start >> 30)).wrapping_mul(0xBF58_476D_1CE4_E5B9);
    let b: u64 = a ^ (a >> 27);
    assert(b & 0x3f_ffff < 4_194_304) by (bit_vector);
    (b & 0x3f_ffff) as usize
}

/// The lengths of the stored tensors for a width, in the order in which they
/// are stored: the input rows, the stone, row, column, diagonal and
/// anti-diagonal rows, the bias, the adapters, the region rows, the policy
/// head, the local rows, and the value heads.
pub open spec fn tensor_lengths(hidden: nat) -> Seq<nat> {
    seq![
        7225 * hidden,
        2 * hidden,
        38 * hidden,
        38 * hidden,
        74 * hidden,
        74 * hidden,
        hidden,
        16 * hidden,
        16 * hidden,
        144,
        32 * hidden,
        32,
        1024,
        11584,
        362,
        4_194_304,
        526_336,
        32,
        32,
        32,
        96 * hidden,
        6912,
        192,
        96,
        9216,
        96,
        288,
        864,
        9,
    ]
}

/// Checks the lengths of a stored model's tensors against the width that its
/// bias has.
pub fn check_lengths(lengths: &[usize]) -> (result: Result<usize, ArchError>)
    ensures
        result == (if lengths@.len() != 29 {
            Err::<usize, ArchError>(ArchError::WrongSize)
        } else if lengths@[6] == 0 {
            Err::<usize, ArchError>(ArchError::EmptyHidden)
        } else if lengths@.map_values(|n: usize| n as nat) == tensor_lengths(lengths@[6] as nat) {
            Ok::<usize, ArchError>(lengths@[6])
        } else {
            Err::<usize, ArchError>(ArchError::WrongSize)
        }),
{
    if lengths.len() != 29 {
        return Err(ArchError::WrongSize);
    }
    let hidden: usize = lengths[6];
    if hidden == 0 {
        return Err(ArchError::EmptyHidden);
    }
    let h: u128 = hidden as u128;
    let wide: bool = lengths[0] as u128 == 7225 * h && lengths[1] as u128 == 2 * h
        && lengths[2] as u128 == 38 * h && lengths[3] as u128 == 38 * h && lengths[4] as u128 == 74
        * h && lengths[5] as u128 == 74 * h && lengths[7] as u128 == 16 * h && lengths[8] as u128
        == 16 * h && lengths[10] as u128 == 32 * h && lengths[20] as u128 == 96 * h;
    let fixed: bool = lengths[9] == 144 && lengths[11] == 32 && lengths[12] == 1024 && lengths[13]
        == 11584 && lengths[14] == 362 && lengths[15] == 4_194_304 && lengths[16] == 526_336
        && lengths[17] == 32 && lengths[18] == 32 && lengths[19] == 32 && lengths[21] == 6912
        && lengths[22] == 192 && lengths[23] == 96 && lengths[24] == 9216 && lengths[25] == 96
        && lengths[26] == 288 && lengths[27] == 864 && lengths[28] == 9;
    let ghost given = lengths@.map_values(|n: usize| n as nat);
    let ghost want = tensor_lengths(hidden as nat);
    if wide && fixed {
        proof {
            assert(given =~= want);
        }
        Ok(hidden)
    } else {
        proof {
            if given == want {
                assert(forall|i: int| 0 <= i < 29 ==> lengths@[i] as nat == want[i]) by {
                    assert forall|i: int| 0 <= i < 29 implies lengths@[i] as nat == want[i] by {
                        assert(given[i] == lengths@[i] as nat);
                    }
                }
                assert(wide && fixed);
            }
        }
        Err(ArchError::WrongSize)
    }
}

} // verus!
