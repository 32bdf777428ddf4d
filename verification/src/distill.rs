//! Teacher data: packed positions with a policy, read into samples.
use crate::game::{Board, Move, Player};
use crate::gomocup::{board_of, from_stones};
use crate::grid::CELL_COUNT;
use crate::moves::{law_legal_moves_are_complete, legal_moves};
use crate::pipeline::{begins_with, char_number, starts_with};
use crate::replay::Sample;
use crate::rng::{
    law_shuffle_keeps_entries, mixed, place_among, shuffle, shuffle_of, state_after, SplitMix64,
};
use crate::scoring::outcome_of;
use crate::text::{chars_of, number_of, parse_number, part};
use vstd::prelude::*;

verus! {

/// Bytes that the cells of a plane are packed in, eight in each.
pub const PACKED_BYTES: usize = 46;

/// Why data of a given shape is refused.
#[derive(Clone, Copy, Debug, PartialEq, Eq, Structural)]
pub enum ShapeError {
    Binary,
    Targets,
}

/// The shapes of the three arrays: rows, planes and bytes of the positions;
/// rows, heads and actions of the policies; rows and entries of the values.
#[derive(Clone, Copy, Debug)]
pub struct Shapes {
    pub binary: (usize, usize, usize),
    pub policy: (usize, usize, usize),
    pub values: (usize, usize),
}

/// What is wrong with the shapes, if anything is.
pub open spec fn shapes_verdict(shapes: Shapes) -> Result<(), ShapeError> {
    if shapes.binary.1 < 3 || shapes.binary.2 < PACKED_BYTES {
        Err(ShapeError::Binary)
    } else if shapes.policy.0 != shapes.binary.0 || shapes.values.0 != shapes.binary.0
        || shapes.policy.1 < 1 || shapes.policy.2 < CELL_COUNT || shapes.values.1 < 3 {
        Err(ShapeError::Targets)
    } else {
        Ok(())
    }
}

pub fn check_shapes(shapes: Shapes) -> (result: Result<(), ShapeError>)
    ensures
        result == shapes_verdict(shapes),
{
    if shapes.binary.1 < 3 || shapes.binary.2 < PACKED_BYTES {
        return Err(ShapeError::Binary);
    }
    if shapes.policy.0 != shapes.binary.0 || shapes.values.0 != shapes.binary.0
        || shapes.policy.1 < 1 || shapes.policy.2 < CELL_COUNT || shapes.values.1 < 3 {
        return Err(ShapeError::Targets);
    }
    Ok(())
}

/// The rows that are read: all, or as many as the limit.
pub open spec fn rows_read(rows: usize, limit: Option<usize>) -> usize {
    match limit {
        Some(most) => if most < rows {
            most
        } else {
            rows
        },
        None => rows,
    }
}

pub fn rows_to_read(rows: usize, limit: Option<usize>) -> (result: usize)
    ensures
        result == rows_read(rows, limit),
{
    match limit {
        Some(most) => if most < rows {
            most
        } else {
            rows
        },
        None => rows,
    }
}

/// Whether a plane has a cell's bit: the highest bit of a byte is the first
/// of its cells.
pub open spec fn bit_at(row: Seq<u8>, packed: int, plane: int, cell: int) -> bool {
    (row[plane * packed + cell / 8] >> ((7 - cell % 8) as u8)) & 1 != 0
}

fn bit(row: &[u8], packed: usize, plane: usize, cell: usize) -> (result: bool)
    requires
        packed >= PACKED_BYTES,
        plane < 3,
        cell < CELL_COUNT,
        row@.len() >= 3 * packed,
    ensures
        result == bit_at(row@, packed as int, plane as int, cell as int),
{
    let size: usize = row.len();
    proof {
        assert(0 <= plane * packed && plane * packed + packed <= 3 * packed) by (nonlinear_arith)
            requires
                0 <= plane < 3,
                0 <= packed,
        ;
        assert(plane * packed + packed <= size);
    }
    let byte: u8 = row[plane * packed + cell / 8];
    let shift: u8 = (7 - cell % 8) as u8;
    (byte >> shift) & 1 != 0
}

/// The cells of a plane among the first `n`.
pub open spec fn plane_count(row: Seq<u8>, packed: int, plane: int, n: nat) -> nat
    decreases n,
{
    if n == 0 {
        0
    } else if bit_at(row, packed, plane, n - 1) {
        plane_count(row, packed, plane, (n - 1) as nat) + 1
    } else {
        plane_count(row, packed, plane, (n - 1) as nat)
    }
}

/// The side that a row is seen from: Black if both sides have as many stones.
pub open spec fn side_of(row: Seq<u8>, packed: int) -> Player {
    if plane_count(row, packed, 1, CELL_COUNT as nat) == plane_count(
        row,
        packed,
        2,
        CELL_COUNT as nat,
    ) {
        Player::Black
    } else {
        Player::White
    }
}

/// The stones of a row on the first `n` cells: plane 1 holds those of the side
/// that it is seen from, plane 2 those of the other.
pub open spec fn stones_of(row: Seq<u8>, packed: int, own: Player, n: nat) -> Seq<(Move, Player)>
    decreases n,
{
    if n == 0 {
        Seq::empty()
    } else {
        let before = stones_of(row, packed, own, (n - 1) as nat);
        if bit_at(row, packed, 1, n - 1) {
            before.push((Move((n - 1) as usize), own))
        } else if bit_at(row, packed, 2, n - 1) {
            before.push((Move((n - 1) as usize), own.opponent()))
        } else {
            before
        }
    }
}

/// A weight, and nothing for a negative one.
pub open spec fn weight_of(policy: Seq<i16>, action: int) -> nat {
    if policy[action] > 0 {
        policy[action] as nat
    } else {
        0
    }
}

/// The weight on the first `n` cells.
pub open spec fn mass_below(policy: Seq<i16>, n: nat) -> nat
    decreases n,
{
    if n == 0 {
        0
    } else {
        mass_below(policy, (n - 1) as nat) + weight_of(policy, n - 1)
    }
}

/// The last of the greatest entries among the first `n`.
pub open spec fn top_below(policy: Seq<i16>, n: nat) -> int
    decreases n,
{
    if n <= 1 {
        0
    } else {
        let before = top_below(policy, (n - 1) as nat);
        if policy[n - 1] >= policy[before] {
            n - 1
        } else {
            before
        }
    }
}

/// The legal actions among the first `n` that have weight.
pub open spec fn targets_below(moves: Seq<Move>, policy: Seq<i16>, n: nat) -> Seq<(Move, u16)>
    decreases n,
{
    if n == 0 {
        Seq::empty()
    } else {
        let before = targets_below(moves, policy, (n - 1) as nat);
        let mv = moves[n - 1];
        if policy[mv.0 as int] > 0 {
            before.push((mv, policy[mv.0 as int] as u16))
        } else {
            before
        }
    }
}

/// The weight of the first `n` legal actions.
pub open spec fn kept_below(moves: Seq<Move>, policy: Seq<i16>, n: nat) -> nat
    decreases n,
{
    if n == 0 {
        0
    } else {
        kept_below(moves, policy, (n - 1) as nat) + weight_of(policy, moves[n - 1].0 as int)
    }
}

/// A position of the data with its target.
pub struct TeacherRow {
    pub board: Board,
    pub target: Vec<(Move, u16)>,
    pub total_mass: u64,
    pub kept_mass: u64,
    pub keeps_top: bool,
}

/// Whether a row makes a position to learn from: the stones make a board with
/// the side that it is seen from to move, the game is not over, and some legal
/// action has weight.
pub open spec fn row_accepted(row: Seq<u8>, packed: int, policy: Seq<i16>) -> bool {
    let own = side_of(row, packed);
    match board_of(stones_of(row, packed, own, CELL_COUNT as nat)) {
        Some(board) => {
            let moves = legal_moves(board);
            &&& board.to_move == own
            &&& outcome_of(board) is None
            &&& targets_below(moves, policy, moves.len()).len() > 0
        },
        None => false,
    }
}

impl TeacherRow {
    /// What an accepted row holds.
    pub open spec fn reads_row(self, row: Seq<u8>, packed: int, policy: Seq<i16>) -> bool {
        let own = side_of(row, packed);
        let moves = legal_moves(self.board@);
        &&& board_of(stones_of(row, packed, own, CELL_COUNT as nat)) == Some(self.board@)
        &&& self.target@ == targets_below(moves, policy, moves.len())
        &&& self.total_mass == mass_below(policy, CELL_COUNT as nat)
        &&& self.kept_mass == kept_below(moves, policy, moves.len())
        &&& self.keeps_top == moves.contains(
            Move(top_below(policy, CELL_COUNT as nat) as usize),
        )
    }
}

fn count_plane(row: &[u8], packed: usize, plane: usize) -> (count: usize)
    requires
        packed >= PACKED_BYTES,
        plane < 3,
        row@.len() >= 3 * packed,
    ensures
        count == plane_count(row@, packed as int, plane as int, CELL_COUNT as nat),
{
    let mut count: usize = 0;
    let mut cell: usize = 0;
    while cell < CELL_COUNT
        invariant
            packed >= PACKED_BYTES,
            plane < 3,
            row@.len() >= 3 * packed,
            cell <= CELL_COUNT,
            count == plane_count(row@, packed as int, plane as int, cell as nat),
            count <= cell,
        decreases CELL_COUNT - cell,
    {
        if bit(row, packed, plane, cell) {
            count = count + 1;
        }
        cell = cell + 1;
    }
    count
}

fn read_stones(row: &[u8], packed: usize, own: Player) -> (stones: Vec<(Move, Player)>)
    requires
        packed >= PACKED_BYTES,
        row@.len() >= 3 * packed,
    ensures
        stones@ == stones_of(row@, packed as int, own, CELL_COUNT as nat),
{
    let mut stones: Vec<(Move, Player)> = Vec::new();
    let mut cell: usize = 0;
    while cell < CELL_COUNT
        invariant
            packed >= PACKED_BYTES,
            row@.len() >= 3 * packed,
            cell <= CELL_COUNT,
            stones@ == stones_of(row@, packed as int, own, cell as nat),
        decreases CELL_COUNT - cell,
    {
        if bit(row, packed, 1, cell) {
            stones.push((Move(cell), own));
        } else if bit(row, packed, 2, cell) {
            stones.push((Move(cell), own.other()));
        }
        cell = cell + 1;
    }
    stones
}

/// The weight on the cells, and the place of the greatest.
fn read_mass(policy: &[i16]) -> (result: (u64, usize))
    requires
        policy@.len() > CELL_COUNT,
    ensures
        result.0 == mass_below(policy@, CELL_COUNT as nat),
        result.1 == top_below(policy@, CELL_COUNT as nat),
        result.1 < CELL_COUNT,
{
    let mut mass: u64 = 0;
    let mut top: usize = 0;
    let mut cell: usize = 0;
    while cell < CELL_COUNT
        invariant
            policy@.len() > CELL_COUNT,
            cell <= CELL_COUNT,
            mass == mass_below(policy@, cell as nat),
            mass <= cell * 0x8000,
            top == top_below(policy@, cell as nat),
            top < CELL_COUNT,
            top <= cell,
        decreases CELL_COUNT - cell,
    {
        if policy[cell] > 0 {
            mass = mass + policy[cell] as u64;
        }
        if policy[cell] >= policy[top] {
            top = cell;
        }
        cell = cell + 1;
    }
    (mass, top)
}

/// Reads a row of the data: a position of three planes or more, each of
/// `packed` bytes, and the weights of the actions.
pub fn read_row(row: &[u8], packed: usize, policy: &[i16]) -> (result: Option<TeacherRow>)
    requires
        packed >= PACKED_BYTES,
        row@.len() >= 3 * packed,
        policy@.len() > CELL_COUNT,
    ensures
        match result {
            Some(teacher) => row_accepted(row@, packed as int, policy@) && teacher.reads_row(
                row@,
                packed as int,
                policy@,
            ) && teacher.board@.wf(),
            None => !row_accepted(row@, packed as int, policy@),
        },
{
    let own: Player = if count_plane(row, packed, 1) == count_plane(row, packed, 2) {
        Player::Black
    } else {
        Player::White
    };
    let stones: Vec<(Move, Player)> = read_stones(row, packed, own);
    let board: Board = match from_stones(&stones) {
        Some(board) => board,
        None => {
            return None;
        },
    };
    if board.to_move() != own {
        return None;
    }
    if board.outcome().is_some() {
        return None;
    }
    let moves: Vec<Move> = board.search_candidates();
    let (total_mass, top) = read_mass(policy);
    let mut target: Vec<(Move, u16)> = Vec::new();
    let mut kept_mass: u64 = 0;
    let mut keeps_top: bool = false;
    let mut i: usize = 0;
    let ghost view = board@;
    proof {
        crate::moves::lemma_legal_count(view);
    }
    while i < moves.len()
        invariant
            i <= moves@.len(),
            moves@.len() <= 362,
            moves@ == legal_moves(view),
            policy@.len() > CELL_COUNT,
            target@ == targets_below(moves@, policy@, i as nat),
            kept_mass == kept_below(moves@, policy@, i as nat),
            kept_mass <= i * 0x8000,
            keeps_top == moves@.take(i as int).contains(Move(top)),
        decreases moves@.len() - i,
    {
        let mv: Move = moves[i];
        proof {
            law_legal_moves_are_complete(view, mv);
            assert(moves@.contains(mv)) by {
                assert(moves@[i as int] == mv);
            }
            let less = moves@.take(i as int);
            let more = moves@.take(i + 1);
            assert(more =~= less.push(mv));
            if less.contains(Move(top)) {
                assert(more[less.index_of(Move(top))] == Move(top));
            }
            if mv == Move(top) {
                assert(more[i as int] == Move(top));
            }
        }
        if policy[mv.0] > 0 {
            target.push((mv, policy[mv.0] as u16));
            kept_mass = kept_mass + policy[mv.0] as u64;
        }
        if mv.0 == top {
            keeps_top = true;
        }
        i = i + 1;
    }
    assert(moves@.take(moves@.len() as int) =~= moves@);
    if target.len() == 0 {
        return None;
    }
    Some(TeacherRow { board, target, total_mass, kept_mass, keeps_top })
}

/// What was read, and how much of the teacher's policy was kept.
#[derive(Clone, Copy, Debug, PartialEq, Eq, Structural)]
pub struct LoadStats {
    pub rows: usize,
    pub accepted: usize,
    pub policy_mass_total: u64,
    pub policy_mass_kept: u64,
    pub top1_kept: usize,
}

impl LoadStats {
    pub fn new(rows: usize) -> (result: LoadStats)
        ensures
            result == (LoadStats {
                rows,
                accepted: 0,
                policy_mass_total: 0,
                policy_mass_kept: 0,
                top1_kept: 0,
            }),
    {
        LoadStats { rows, accepted: 0, policy_mass_total: 0, policy_mass_kept: 0, top1_kept: 0 }
    }

    /// Counts a row that became a sample.
    pub fn accept(&mut self, row: &TeacherRow)
        requires
            old(self).accepted < usize::MAX,
            old(self).top1_kept < usize::MAX,
            old(self).policy_mass_total + row.total_mass <= u64::MAX,
            old(self).policy_mass_kept + row.kept_mass <= u64::MAX,
        ensures
            *final(self) == (LoadStats {
                rows: old(self).rows,
                accepted: (old(self).accepted + 1) as usize,
                policy_mass_total: (old(self).policy_mass_total + row.total_mass) as u64,
                policy_mass_kept: (old(self).policy_mass_kept + row.kept_mass) as u64,
                top1_kept: (old(self).top1_kept + (if row.keeps_top {
                    1int
                } else {
                    0int
                })) as usize,
            }),
    {
        self.accepted = self.accepted + 1;
        self.policy_mass_total = self.policy_mass_total + row.total_mass;
        self.policy_mass_kept = self.policy_mass_kept + row.kept_mass;
        if row.keeps_top {
            self.top1_kept = self.top1_kept + 1;
        }
    }
}

/// The bytes are the characters of a text.
pub open spec fn spells(bytes: Seq<u8>, text: Seq<char>) -> bool {
    forall|i: int| 0 <= i < text.len() ==> bytes[i] as int == #[trigger] text[i] as int
}

/// A file of these bytes holds a pointer to the data instead of the data.
pub open spec fn points_to_data(bytes: Seq<u8>) -> bool {
    let mark = "version https://git-lfs.github.com/spec/v1"@;
    bytes.len() < 1024 && mark.len() <= bytes.len() && spells(bytes, mark)
}

/// Whether a file holds a pointer to the data instead of the data.
pub fn is_lfs_pointer(bytes: &[u8]) -> (result: bool)
    ensures
        result == points_to_data(bytes@),
{
    let mark: Vec<char> = chars_of("version https://git-lfs.github.com/spec/v1");
    if bytes.len() >= 1024 || mark.len() > bytes.len() {
        return false;
    }
    let mut i: usize = 0;
    while i < mark.len()
        invariant
            i <= mark@.len() <= bytes@.len(),
            mark@ == "version https://git-lfs.github.com/spec/v1"@,
            forall|k: int| 0 <= k < i ==> bytes@[k] as int == #[trigger] mark@[k] as int,
        decreases mark@.len() - i,
    {
        let c: char = mark[i];
        if bytes[i] as u32 != char_number(c) {
            assert(bytes@[i as int] as int != mark@[i as int] as int);
            return false;
        }
        i = i + 1;
    }
    true
}

/// What the data files are ordered by: the number behind `data`, and the
/// greatest number for a file named otherwise.
pub open spec fn file_rank(stem: Seq<char>) -> nat {
    if begins_with(stem, "data"@) {
        match number_of(stem.skip("data"@.len() as int), usize::MAX as nat) {
            Some(n) => n,
            None => usize::MAX as nat,
        }
    } else {
        usize::MAX as nat
    }
}

pub fn file_key(stem: &str) -> (result: usize)
    ensures
        result == file_rank(stem@),
{
    let chars: Vec<char> = chars_of(stem);
    let start: Vec<char> = chars_of("data");
    if !starts_with(&chars, &start) {
        return usize::MAX;
    }
    let rest: Vec<char> = part(&chars, start.len(), chars.len());
    assert(rest@ =~= stem@.skip("data"@.len() as int));
    match parse_number(&rest, usize::MAX as u64) {
        Some(n) => n as usize,
        None => usize::MAX,
    }
}

/// The symmetry that the sample in place `i` is turned by.
pub open spec fn turn_of(seed: u64, i: int) -> usize {
    place_among(mixed(state_after(seed, (i + 1) as nat)), 8)
}

/// The places of `count` samples after a shuffle that follows the turns.
pub open spec fn mixed_order(count: nat, seed: u64) -> Seq<usize> {
    shuffle_of(Seq::new(count, |i: int| i as usize), state_after(seed, count))
}

/// Turns every sample by a symmetry drawn for it, then shuffles them.
pub fn augment_and_shuffle(samples: &Vec<Sample>, seed: u64) -> (result: Vec<Sample>)
    requires
        forall|i: int| 0 <= i < samples@.len() ==> (#[trigger] samples@[i]).wf(),
    ensures
        result@.len() == samples@.len(),
        mixed_order(samples@.len(), seed).to_multiset() == Seq::new(
            samples@.len(),
            |i: int| i as usize,
        ).to_multiset(),
        forall|i: int|
            0 <= i < result@.len() ==> {
                let from = mixed_order(samples@.len(), seed)[i];
                from < samples@.len() && samples@[from as int].turned_to(
                    turn_of(seed, from as int),
                    #[trigger] result@[i],
                )
            },
{
    let n: usize = samples.len();
    let mut rng: SplitMix64 = SplitMix64(seed);
    let mut turns: Vec<usize> = Vec::with_capacity(n);
    let mut order: Vec<usize> = Vec::with_capacity(n);
    let ghost places = Seq::new(n as nat, |i: int| i as usize);
    let mut i: usize = 0;
    while i < n
        invariant
            i <= n,
            rng.0 == state_after(seed, i as nat),
            turns@.len() == i,
            order@.len() == i,
            forall|k: int| 0 <= k < i ==> #[trigger] turns@[k] == turn_of(seed, k),
            forall|k: int| 0 <= k < i ==> #[trigger] order@[k] == k,
        decreases n - i,
    {
        let turn: usize = rng.index(8);
        turns.push(turn);
        order.push(i);
        i = i + 1;
    }
    assert(order@ =~= places);
    shuffle(&mut order, &mut rng);
    proof {
        if n > 0 {
            law_shuffle_keeps_entries(places, (n - 1) as nat, state_after(seed, n as nat));
        }
        assert forall|k: int| 0 <= k < order@.len() implies #[trigger] order@[k] < n by {
            broadcast use vstd::seq_lib::group_to_multiset_ensures;

            assert(order@.contains(order@[k]));
            assert(order@.to_multiset().count(order@[k]) > 0);
            assert(places.contains(order@[k]));
        }
    }
    let mut result: Vec<Sample> = Vec::with_capacity(n);
    i = 0;
    while i < n
        invariant
            i <= n,
            n == samples@.len(),
            turns@.len() == n,
            order@.len() == n,
            order@ == mixed_order(n as nat, seed),
            forall|k: int| 0 <= k < n ==> (#[trigger] samples@[k]).wf(),
            forall|k: int| 0 <= k < n ==> #[trigger] turns@[k] == turn_of(seed, k),
            forall|k: int| 0 <= k < n ==> #[trigger] order@[k] < n,
            result@.len() == i,
            forall|k: int|
                0 <= k < i ==> samples@[order@[k] as int].turned_to(
                    turn_of(seed, order@[k] as int),
                    #[trigger] result@[k],
                ),
        decreases n - i,
    {
        let from: usize = order[i];
        assert(order@[i as int] < n);
        assert(samples@[from as int].wf());
        assert(turns@[from as int] == turn_of(seed, from as int));
        result.push(samples[from].transformed(turns[from]));
        i = i + 1;
    }
    result
}

} // verus!
