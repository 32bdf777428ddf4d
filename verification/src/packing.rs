//! A position as the rows of a training batch: the inputs, the counts of
//! stones by side, line and region, and the legal actions with their local
//! patterns.
use crate::features::{encode, komi_value, plane_value};
use crate::game::{Board, BoardView, Move, ACTION_COUNT};
use crate::grid::CELL_COUNT;
use crate::model::{
    axis_codes, board_states, local_pattern, local_ray_codes, pattern_of, policy_tactical_index,
    role_index, role_of, slot_count, slot_of, stone_slot, tactical_of, GO_INPUT_START, INPUT_SIZE,
    MOVE_COUNT_INPUT, PASS_INPUT, ROLE_INPUT_START,
};
use crate::moves::{law_legal_moves_are_complete, legal_moves};
use vstd::prelude::*;

verus! {

/// The side of a stone for the side to move: 0 is own, 1 the opponent's.
pub open spec fn side_at(board: BoardView, p: int) -> Option<int> {
    if board.cells[p] == board.to_move.mark() {
        Some(0)
    } else if board.cells[p] == board.to_move.opponent().mark() {
        Some(1)
    } else {
        None
    }
}

fn stone_side(board: &Board, p: usize) -> (result: Option<usize>)
    requires
        board@.wf(),
        p < CELL_COUNT,
    ensures
        match side_at(board@, p as int) {
            Some(side) => result == Some(side as usize),
            None => result is None,
        },
{
    let value: i8 = board.cells()[p];
    if value == board.to_move().stone() {
        Some(0)
    } else if value == board.to_move().other().stone() {
        Some(1)
    } else {
        None
    }
}

/// How many stones among the first `n` points have the slot.
pub open spec fn tally(board: BoardView, kind: int, slot: int, n: nat) -> nat
    decreases n,
{
    if n == 0 {
        0
    } else {
        tally(board, kind, slot, (n - 1) as nat) + (match side_at(board, n - 1) {
            Some(side) => if slot_of(kind, side, n - 1) == slot {
                1nat
            } else {
                0nat
            },
            None => 0nat,
        })
    }
}

/// The stones counted by the slots of a kind.
pub fn count_slots(board: &Board, kind: usize) -> (counts: Vec<u32>)
    requires
        board@.wf(),
        kind < 7,
    ensures
        counts@.len() == slot_count(kind as int),
        forall|slot: int|
            0 <= slot < counts@.len() ==> #[trigger] counts@[slot] == tally(
                board@,
                kind as int,
                slot,
                CELL_COUNT as nat,
            ),
{
    let size: usize = if kind == 0 {
        722
    } else if kind == 1 {
        2
    } else if kind <= 3 {
        38
    } else if kind <= 5 {
        74
    } else {
        18
    };
    let mut counts: Vec<u32> = Vec::with_capacity(size);
    let mut k: usize = 0;
    while k < size
        invariant
            k <= size,
            counts@.len() == k,
            forall|slot: int| 0 <= slot < k ==> #[trigger] counts@[slot] == 0,
        decreases size - k,
    {
        counts.push(0);
        k = k + 1;
    }
    let mut p: usize = 0;
    while p < CELL_COUNT
        invariant
            board@.wf(),
            kind < 7,
            size == slot_count(kind as int),
            counts@.len() == size,
            p <= CELL_COUNT,
            forall|slot: int|
                0 <= slot < size ==> #[trigger] counts@[slot] == tally(
                    board@,
                    kind as int,
                    slot,
                    p as nat,
                ),
            forall|slot: int| 0 <= slot < size ==> #[trigger] counts@[slot] <= p,
        decreases CELL_COUNT - p,
    {
        let ghost before = counts@;
        match stone_side(board, p) {
            Some(side) => {
                let slot: usize = stone_slot(kind, side, p);
                let more: u32 = counts[slot] + 1;
                counts.set(slot, more);
                proof {
                    assert forall|s: int| 0 <= s < size implies #[trigger] counts@[s] == tally(
                        board@,
                        kind as int,
                        s,
                        (p + 1) as nat,
                    ) && counts@[s] <= p + 1 by {
                        assert(before[s] == tally(board@, kind as int, s, p as nat));
                        assert(before[s] <= p);
                    }
                }
            },
            None => {
                proof {
                    assert forall|s: int| 0 <= s < size implies #[trigger] counts@[s] == tally(
                        board@,
                        kind as int,
                        s,
                        (p + 1) as nat,
                    ) && counts@[s] <= p + 1 by {
                        assert(before[s] == tally(board@, kind as int, s, p as nat));
                        assert(before[s] <= p);
                    }
                }
            },
        }
        p = p + 1;
    }
    counts
}

/// An input of the network for the side to move. The number of moves is over
/// the number of points, the planes over their own denominators.
pub open spec fn input_value(board: BoardView, i: int) -> int {
    if i < 722 {
        if side_at(board, i % 361) == Some(i / 361) {
            1
        } else {
            0
        }
    } else if i == 722 {
        board.moves as int
    } else if i == 723 {
        board.passes as int
    } else if i < 726 {
        if i - 724 == role_of(board.to_move) {
            1
        } else {
            0
        }
    } else if i < 7224 {
        plane_value(board, board.to_move, (i - 726) / 361, ((i - 726) % 361) as usize)
    } else {
        komi_value(board, board.to_move)
    }
}

/// The inputs of a position for the side to move.
pub fn pack_inputs(board: &Board) -> (inputs: Vec<i64>)
    requires
        board@.wf(),
        board@.moves <= i64::MAX,
        board@.passes <= i64::MAX,
    ensures
        inputs@.len() == INPUT_SIZE,
        forall|i: int|
            0 <= i < INPUT_SIZE ==> #[trigger] inputs@[i] == input_value(board@, i),
{
    let planes: Vec<i64> = encode(board, board.to_move());
    let role: usize = role_index(board.to_move());
    let mut inputs: Vec<i64> = Vec::with_capacity(7225);
    let mut i: usize = 0;
    while i < INPUT_SIZE
        invariant
            board@.wf(),
            board@.moves <= i64::MAX,
            board@.passes <= i64::MAX,
            role == role_of(board@.to_move),
            planes@.len() == 6499,
            forall|plane: int, p: usize|
                0 <= plane < 18 && p < CELL_COUNT ==> #[trigger] planes@[plane * 361 + p]
                    == plane_value(board@, board@.to_move, plane, p),
            planes@[6498] == komi_value(board@, board@.to_move),
            i <= INPUT_SIZE,
            inputs@.len() == i,
            forall|k: int| 0 <= k < i ==> #[trigger] inputs@[k] == input_value(board@, k),
        decreases INPUT_SIZE - i,
    {
        let value: i64 = if i < MOVE_COUNT_INPUT {
            match stone_side(board, i % CELL_COUNT) {
                Some(side) => if side == i / CELL_COUNT {
                    1
                } else {
                    0
                },
                None => 0,
            }
        } else if i == MOVE_COUNT_INPUT {
            board.move_count() as i64
        } else if i == PASS_INPUT {
            board.consecutive_passes() as i64
        } else if i < GO_INPUT_START {
            if i - ROLE_INPUT_START == role {
                1
            } else {
                0
            }
        } else {
            proof {
                if i < 7224 {
                    let plane = (i - 726) / 361;
                    let p = ((i - 726) % 361) as usize;
                    assert(plane * 361 + p == i - 726);
                    assert(planes@[plane * 361 + p] == plane_value(
                        board@,
                        board@.to_move,
                        plane,
                        p,
                    ));
                }
            }
            planes[i - GO_INPUT_START]
        };
        inputs.push(value);
        i = i + 1;
    }
    inputs
}

/// The pattern of an action along an axis.
pub open spec fn local_index(board: BoardView, action: int, axis: int) -> int {
    let codes = axis_codes(board_states(board), action, axis);
    pattern_of(codes.0, codes.1)
}

/// What a batch row says of the actions: which are legal, and the local
/// pattern and tactical entry of each legal one along each axis.
pub struct ActionRows {
    pub legal: Vec<bool>,
    pub local: Vec<u32>,
    pub tactical: Vec<u32>,
}

impl ActionRows {
    /// The rows describe the first `n` actions of the board.
    pub open spec fn describe(self, board: BoardView, n: int) -> bool {
        &&& self.legal@.len() == n
        &&& self.local@.len() == n * 4
        &&& self.tactical@.len() == n * 4
        &&& forall|a: int| 0 <= a < n ==> #[trigger] self.legal@[a] == board.legal(Move(a as usize))
        &&& forall|a: int, axis: int|
            0 <= a < n && 0 <= axis < 4 ==> #[trigger] self.local@[a * 4 + axis] == (if board.legal(
                Move(a as usize),
            ) {
                local_index(board, a, axis)
            } else {
                0
            })
        &&& forall|a: int, axis: int|
            0 <= a < n && 0 <= axis < 4 ==> #[trigger] self.tactical@[a * 4 + axis] == (
            if board.legal(Move(a as usize)) {
                tactical_of(a as u64, axis as u64, local_index(board, a, axis) as u64) as u32
            } else {
                u32::MAX
            })
    }
}

fn axis_step(axis: usize) -> (result: (i32, i32))
    requires
        axis < 4,
    ensures
        crate::model::axis_of(result.0, result.1) == Some(axis as int),
{
    if axis == 0 {
        (1, 0)
    } else if axis == 1 {
        (0, 1)
    } else if axis == 2 {
        (1, 1)
    } else {
        (1, -1)
    }
}

/// The legal actions of a position with their local patterns.
pub fn pack_actions(board: &Board) -> (rows: ActionRows)
    requires
        board@.wf(),
    ensures
        rows.describe(board@, ACTION_COUNT as int),
{
    let moves: Vec<Move> = board.search_candidates();
    let mut legal: Vec<bool> = Vec::with_capacity(362);
    let mut k: usize = 0;
    while k < ACTION_COUNT
        invariant
            k <= ACTION_COUNT,
            legal@.len() == k,
            forall|a: int| 0 <= a < k ==> !#[trigger] legal@[a],
        decreases ACTION_COUNT - k,
    {
        legal.push(false);
        k = k + 1;
    }
    let mut m: usize = 0;
    while m < moves.len()
        invariant
            m <= moves@.len(),
            moves@ == legal_moves(board@),
            legal@.len() == ACTION_COUNT,
            forall|a: int|
                0 <= a < ACTION_COUNT ==> #[trigger] legal@[a] == moves@.take(m as int).contains(
                    Move(a as usize),
                ),
        decreases moves@.len() - m,
    {
        let mv: Move = moves[m];
        let ghost before = legal@;
        proof {
            law_legal_moves_are_complete(board@, mv);
            assert(moves@.contains(mv)) by {
                assert(moves@[m as int] == mv);
            }
        }
        legal.set(mv.0, true);
        proof {
            let s = moves@.take(m as int);
            let t = moves@.take(m + 1);
            assert(t =~= s.push(mv));
            assert forall|a: int| 0 <= a < ACTION_COUNT implies #[trigger] legal@[a] == t.contains(
                Move(a as usize),
            ) by {
                let x = Move(a as usize);
                if s.contains(x) {
                    assert(t[s.index_of(x)] == x);
                }
                if x == mv {
                    assert(t[m as int] == x);
                }
                assert(before[a] == s.contains(x));
            }
        }
        m = m + 1;
    }
    proof {
        assert(moves@.take(moves@.len() as int) =~= moves@);
        assert forall|a: int| 0 <= a < ACTION_COUNT implies #[trigger] legal@[a] == board@.legal(
            Move(a as usize),
        ) by {
            law_legal_moves_are_complete(board@, Move(a as usize));
        }
    }
    let mut local: Vec<u32> = Vec::with_capacity(1448);
    let mut tactical: Vec<u32> = Vec::with_capacity(1448);
    let mut a: usize = 0;
    while a < ACTION_COUNT
        invariant
            board@.wf(),
            a <= ACTION_COUNT,
            legal@.len() == ACTION_COUNT,
            local@.len() == a * 4,
            tactical@.len() == a * 4,
            forall|b: int|
                0 <= b < ACTION_COUNT ==> #[trigger] legal@[b] == board@.legal(Move(b as usize)),
            forall|b: int, axis: int|
                0 <= b < a && 0 <= axis < 4 ==> #[trigger] local@[b * 4 + axis] == (
                if board@.legal(Move(b as usize)) {
                    local_index(board@, b, axis)
                } else {
                    0
                }),
            forall|b: int, axis: int|
                0 <= b < a && 0 <= axis < 4 ==> #[trigger] tactical@[b * 4 + axis] == (
                if board@.legal(Move(b as usize)) {
                    tactical_of(b as u64, axis as u64, local_index(board@, b, axis) as u64) as u32
                } else {
                    u32::MAX
                }),
        decreases ACTION_COUNT - a,
    {
        let mut axis: usize = 0;
        while axis < 4
            invariant
                board@.wf(),
                a < ACTION_COUNT,
                axis <= 4,
                legal@.len() == ACTION_COUNT,
                local@.len() == a * 4 + axis,
                tactical@.len() == a * 4 + axis,
                legal@[a as int] == board@.legal(Move(a)),
                forall|b: int, x: int|
                    0 <= b < a && 0 <= x < 4 ==> #[trigger] local@[b * 4 + x] == (if board@.legal(
                        Move(b as usize),
                    ) {
                        local_index(board@, b, x)
                    } else {
                        0
                    }),
                forall|b: int, x: int|
                    0 <= b < a && 0 <= x < 4 ==> #[trigger] tactical@[b * 4 + x] == (
                    if board@.legal(Move(b as usize)) {
                        tactical_of(b as u64, x as u64, local_index(board@, b, x) as u64) as u32
                    } else {
                        u32::MAX
                    }),
                forall|x: int|
                    0 <= x < axis ==> #[trigger] local@[a * 4 + x] == (if board@.legal(Move(a)) {
                        local_index(board@, a as int, x)
                    } else {
                        0
                    }),
                forall|x: int|
                    0 <= x < axis ==> #[trigger] tactical@[a * 4 + x] == (if board@.legal(
                        Move(a),
                    ) {
                        tactical_of(
                            a as u64,
                            x as u64,
                            local_index(board@, a as int, x) as u64,
                        ) as u32
                    } else {
                        u32::MAX
                    }),
            decreases 4 - axis,
        {
            if legal[a] {
                let (dr, dc) = axis_step(axis);
                let (first, second) = local_ray_codes(board, Move(a), dr, dc);
                let pattern: usize = local_pattern(first, second);
                local.push(pattern as u32);
                tactical.push(policy_tactical_index(Move(a), axis, pattern) as u32);
            } else {
                local.push(0);
                tactical.push(u32::MAX);
            }
            axis = axis + 1;
        }
        proof {
            assert forall|b: int, x: int| 0 <= b < a + 1 && 0 <= x < 4 implies #[trigger] local@[b
                * 4 + x] == (if board@.legal(Move(b as usize)) {
                local_index(board@, b, x)
            } else {
                0
            }) by {
                if b == a {
                    assert(local@[a * 4 + x] == (if board@.legal(Move(a)) {
                        local_index(board@, a as int, x)
                    } else {
                        0
                    }));
                }
            }
            assert forall|b: int, x: int|
                0 <= b < a + 1 && 0 <= x < 4 implies #[trigger] tactical@[b * 4 + x] == (
            if board@.legal(Move(b as usize)) {
                tactical_of(b as u64, x as u64, local_index(board@, b, x) as u64) as u32
            } else {
                u32::MAX
            }) by {
                if b == a {
                    assert(tactical@[a * 4 + x] == (if board@.legal(Move(a)) {
                        tactical_of(
                            a as u64,
                            x as u64,
                            local_index(board@, a as int, x) as u64,
                        ) as u32
                    } else {
                        u32::MAX
                    }));
                }
            }
        }
        a = a + 1;
    }
    ActionRows { legal, local, tactical }
}

} // verus!
