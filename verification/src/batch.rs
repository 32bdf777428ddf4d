//! Batches for the sparse attention model: stones and candidates of several
//! positions, padded to one width, and which of them attend to which.
use crate::config::Real;
use crate::game::{Board, BoardView, Move};
use crate::grid::CELL_COUNT;
use crate::lines::{aligned, encode_stones, share_line, tokens_below};
use crate::moves::legal_below;
use crate::replay::Sample;
use vstd::prelude::*;

verus! {

/// The stones of a position, as tokens.
pub open spec fn stones_of(board: BoardView) -> Seq<(Move, bool)> {
    tokens_below(board, CELL_COUNT as nat)
}

/// The candidates: the points that can be played. The pass is none, since it
/// lies on no line.
pub open spec fn placements(board: BoardView) -> Seq<Move> {
    legal_below(board, CELL_COUNT as nat)
}

/// The cells of the stones, then zeros.
pub open spec fn position_row(board: BoardView, width: nat) -> Seq<u32> {
    Seq::new(
        width,
        |i: int|
            if i < stones_of(board).len() {
                stones_of(board)[i].0.0 as u32
            } else {
                0
            },
    )
}

/// One for the stones of the opponent, then zeros.
pub open spec fn side_row(board: BoardView, width: nat) -> Seq<u32> {
    Seq::new(
        width,
        |i: int|
            if i < stones_of(board).len() && stones_of(board)[i].1 {
                1
            } else {
                0
            },
    )
}

/// Which tokens are stones.
pub open spec fn valid_row(board: BoardView, width: nat) -> Seq<bool> {
    Seq::new(width, |i: int| i < stones_of(board).len())
}

/// Stone `q` attends to stone `k`: they are stones on a common line.
pub open spec fn attends(board: BoardView, q: int, k: int) -> bool {
    &&& 0 <= q < stones_of(board).len()
    &&& 0 <= k < stones_of(board).len()
    &&& share_line(stones_of(board)[q].0.0 as int, stones_of(board)[k].0.0 as int)
}

/// Which tokens attend to which, a row for each.
pub open spec fn self_row(board: BoardView, width: nat) -> Seq<bool> {
    Seq::new(width * width, |i: int| attends(board, i / width as int, i % width as int))
}

/// The cells of the candidates, then zeros.
pub open spec fn candidate_row(board: BoardView, count: nat) -> Seq<u32> {
    Seq::new(
        count,
        |i: int|
            if i < placements(board).len() {
                placements(board)[i].0 as u32
            } else {
                0
            },
    )
}

/// Which candidates are points that can be played.
pub open spec fn legal_row(board: BoardView, count: nat) -> Seq<bool> {
    Seq::new(count, |i: int| i < placements(board).len())
}

/// Candidate `c` attends to stone `k`.
pub open spec fn looks_at(board: BoardView, c: int, k: int) -> bool {
    &&& 0 <= c < placements(board).len()
    &&& 0 <= k < stones_of(board).len()
    &&& share_line(placements(board)[c].0 as int, stones_of(board)[k].0.0 as int)
}

/// Which candidates attend to which stones, a row for each candidate.
pub open spec fn cross_row(board: BoardView, count: nat, width: nat) -> Seq<bool> {
    Seq::new(count * width, |i: int| looks_at(board, i / width as int, i % width as int))
}

/// Which candidates attend to any stone.
pub open spec fn query_row(board: BoardView, count: nat) -> Seq<bool> {
    Seq::new(count, |c: int| exists|k: int| #[trigger] looks_at(board, c, k))
}

/// The rows of the first `n` positions, one after the other.
pub open spec fn joined<T>(row: spec_fn(int) -> Seq<T>, n: nat) -> Seq<T>
    decreases n,
{
    if n == 0 {
        Seq::empty()
    } else {
        joined(row, (n - 1) as nat) + row(n - 1)
    }
}

/// The greater of two counts.
pub open spec fn more(a: nat, b: nat) -> nat {
    if a > b {
        a
    } else {
        b
    }
}

/// The tokens of each position: the most moves, and one at least.
pub open spec fn token_width(samples: Seq<Sample>, n: nat) -> nat
    decreases n,
{
    if n == 0 {
        1
    } else {
        more(token_width(samples, (n - 1) as nat), samples[n - 1].board@.moves)
    }
}

/// The candidates of each position: the most that one has, and one at least.
pub open spec fn candidate_width(samples: Seq<Sample>, n: nat) -> nat
    decreases n,
{
    if n == 0 {
        1
    } else {
        more(
            candidate_width(samples, (n - 1) as nat),
            placements(samples[n - 1].board@).len(),
        )
    }
}

/// One half.
pub const HALF_BITS: u32 = 0x3f00_0000;

/// No number is greater.
pub const INFINITE_BITS: u32 = 0x7f80_0000;

/// The class of a value: 0 for a win, 2 for a loss, 1 for what is between.
pub open spec fn class_of(value: u32) -> u8 {
    let rank = Real(value).rank();
    if HALF_BITS < rank <= INFINITE_BITS {
        0
    } else if -INFINITE_BITS <= rank < -HALF_BITS {
        2
    } else {
        1
    }
}

pub fn value_class(value: u32) -> (result: u8)
    ensures
        result == class_of(value),
{
    let rank: i64 = Real(value).order();
    if rank > HALF_BITS as i64 && rank <= INFINITE_BITS as i64 {
        0
    } else if rank < -(HALF_BITS as i64) && rank >= -(INFINITE_BITS as i64) {
        2
    } else {
        1
    }
}

/// A padded batch. All masks hold a row for every position.
pub struct PackedBatch {
    pub tokens: usize,
    pub candidates: usize,
    pub stone_positions: Vec<u32>,
    pub stone_sides: Vec<u32>,
    pub token_valid: Vec<bool>,
    pub self_mask: Vec<bool>,
    pub legal_positions: Vec<u32>,
    pub legal_mask: Vec<bool>,
    pub cross_mask: Vec<bool>,
    pub query_valid: Vec<bool>,
    pub value_classes: Vec<u8>,
}

impl PackedBatch {
    /// The batch holds the first `n` samples.
    pub open spec fn holds(self, samples: Seq<Sample>, n: nat) -> bool {
        let width = self.tokens as nat;
        let count = self.candidates as nat;
        &&& self.stone_positions@ == joined(|i: int| position_row(samples[i].board@, width), n)
        &&& self.stone_sides@ == joined(|i: int| side_row(samples[i].board@, width), n)
        &&& self.token_valid@ == joined(|i: int| valid_row(samples[i].board@, width), n)
        &&& self.self_mask@ == joined(|i: int| self_row(samples[i].board@, width), n)
        &&& self.legal_positions@ == joined(|i: int| candidate_row(samples[i].board@, count), n)
        &&& self.legal_mask@ == joined(|i: int| legal_row(samples[i].board@, count), n)
        &&& self.cross_mask@ == joined(|i: int| cross_row(samples[i].board@, count, width), n)
        &&& self.query_valid@ == joined(|i: int| query_row(samples[i].board@, count), n)
        &&& self.value_classes@ == Seq::new(n, |i: int| class_of(samples[i].value))
    }
}

/// The cells of all tokens lie on the board.
pub proof fn lemma_stones_on_board(board: BoardView, n: nat, k: int)
    requires
        n <= CELL_COUNT,
        0 <= k < tokens_below(board, n).len(),
    ensures
        tokens_below(board, n)[k].0.0 < n,
    decreases n,
{
    let before = tokens_below(board, (n - 1) as nat);
    if k < before.len() {
        lemma_stones_on_board(board, (n - 1) as nat, k);
    }
}

proof fn lemma_placements_on_board(board: BoardView, n: nat, k: int)
    requires
        n <= CELL_COUNT,
        0 <= k < legal_below(board, n).len(),
    ensures
        legal_below(board, n)[k].0 < n,
    decreases n,
{
    let before = legal_below(board, (n - 1) as nat);
    if k < before.len() {
        lemma_placements_on_board(board, (n - 1) as nat, k);
    }
}

fn list_placements(board: &Board) -> (cells: Vec<Move>)
    requires
        board@.wf(),
    ensures
        cells@ == placements(board@),
{
    let mut cells: Vec<Move> = board.rule_legal_moves();
    proof {
        assert(legal_below(board@, 362) == (if board@.legal(Move(361)) {
            legal_below(board@, 361).push(Move(361))
        } else {
            legal_below(board@, 361)
        }));
    }
    if board.is_legal(Move(CELL_COUNT)) {
        cells.truncate(cells.len() - 1);
    }
    assert(cells@ =~= placements(board@));
    cells
}

fn push_positions(to: &mut Vec<u32>, stones: &Vec<(Move, bool)>, width: usize, Ghost(board): Ghost<
    BoardView,
>)
    requires
        stones@ == stones_of(board),
    ensures
        final(to)@ == old(to)@ + position_row(board, width as nat),
{
    let ghost row = position_row(board, width as nat);
    let ghost before = to@;
    let mut i: usize = 0;
    assert(before + row.take(0) =~= before);
    while i < width
        invariant
            i <= width,
            stones@ == stones_of(board),
            row == position_row(board, width as nat),
            to@ == before + row.take(i as int),
        decreases width - i,
    {
        to.push(
            if i < stones.len() {
                stones[i].0.0 as u32
            } else {
                0
            },
        );
        assert(to@ =~= before + row.take(i + 1));
        i = i + 1;
    }
    assert(row.take(width as int) =~= row);
}

fn push_sides(to: &mut Vec<u32>, stones: &Vec<(Move, bool)>, width: usize, Ghost(board): Ghost<
    BoardView,
>)
    requires
        stones@ == stones_of(board),
    ensures
        final(to)@ == old(to)@ + side_row(board, width as nat),
{
    let ghost row = side_row(board, width as nat);
    let ghost before = to@;
    let mut i: usize = 0;
    assert(before + row.take(0) =~= before);
    while i < width
        invariant
            i <= width,
            stones@ == stones_of(board),
            row == side_row(board, width as nat),
            to@ == before + row.take(i as int),
        decreases width - i,
    {
        to.push(
            if i < stones.len() && stones[i].1 {
                1
            } else {
                0
            },
        );
        assert(to@ =~= before + row.take(i + 1));
        i = i + 1;
    }
    assert(row.take(width as int) =~= row);
}

/// Adds `known` marks and then the opposite up to `width`.
fn push_marks(to: &mut Vec<bool>, known: usize, width: usize)
    ensures
        final(to)@ == old(to)@ + Seq::new(width as nat, |i: int| i < known),
{
    let ghost row = Seq::new(width as nat, |i: int| i < known);
    let ghost before = to@;
    let mut i: usize = 0;
    assert(before + row.take(0) =~= before);
    while i < width
        invariant
            i <= width,
            row == Seq::new(width as nat, |i: int| i < known),
            to@ == before + row.take(i as int),
        decreases width - i,
    {
        to.push(i < known);
        assert(to@ =~= before + row.take(i + 1));
        i = i + 1;
    }
    assert(row.take(width as int) =~= row);
}

fn push_self(to: &mut Vec<bool>, stones: &Vec<(Move, bool)>, width: usize, Ghost(board): Ghost<
    BoardView,
>)
    requires
        stones@ == stones_of(board),
        width > 0,
        width * width <= usize::MAX,
    ensures
        final(to)@ == old(to)@ + self_row(board, width as nat),
{
    let ghost row = self_row(board, width as nat);
    let ghost before = to@;
    let size: usize = width * width;
    let mut i: usize = 0;
    assert(before + row.take(0) =~= before);
    while i < size
        invariant
            i <= size,
            size == width * width,
            width > 0,
            stones@ == stones_of(board),
            row == self_row(board, width as nat),
            row.len() == size,
            to@ == before + row.take(i as int),
        decreases size - i,
    {
        let q: usize = i / width;
        let k: usize = i % width;
        let mut mark: bool = false;
        if q < stones.len() && k < stones.len() {
            proof {
                lemma_stones_on_board(board, CELL_COUNT as nat, q as int);
                lemma_stones_on_board(board, CELL_COUNT as nat, k as int);
            }
            mark = aligned(stones[q].0, stones[k].0);
        }
        assert(mark == attends(board, q as int, k as int));
        to.push(mark);
        assert(to@ =~= before + row.take(i + 1));
        i = i + 1;
    }
    assert(row.take(size as int) =~= row);
}

fn push_candidates(to: &mut Vec<u32>, cells: &Vec<Move>, count: usize, Ghost(board): Ghost<
    BoardView,
>)
    requires
        cells@ == placements(board),
    ensures
        final(to)@ == old(to)@ + candidate_row(board, count as nat),
{
    let ghost row = candidate_row(board, count as nat);
    let ghost before = to@;
    let mut i: usize = 0;
    assert(before + row.take(0) =~= before);
    while i < count
        invariant
            i <= count,
            cells@ == placements(board),
            row == candidate_row(board, count as nat),
            to@ == before + row.take(i as int),
        decreases count - i,
    {
        to.push(
            if i < cells.len() {
                cells[i].0 as u32
            } else {
                0
            },
        );
        assert(to@ =~= before + row.take(i + 1));
        i = i + 1;
    }
    assert(row.take(count as int) =~= row);
}

fn push_cross(
    to: &mut Vec<bool>,
    cells: &Vec<Move>,
    stones: &Vec<(Move, bool)>,
    count: usize,
    width: usize,
    Ghost(board): Ghost<BoardView>,
)
    requires
        cells@ == placements(board),
        stones@ == stones_of(board),
        width > 0,
        count * width <= usize::MAX,
    ensures
        final(to)@ == old(to)@ + cross_row(board, count as nat, width as nat),
{
    let ghost row = cross_row(board, count as nat, width as nat);
    let ghost before = to@;
    let size: usize = count * width;
    let mut i: usize = 0;
    assert(before + row.take(0) =~= before);
    while i < size
        invariant
            i <= size,
            size == count * width,
            width > 0,
            cells@ == placements(board),
            stones@ == stones_of(board),
            row == cross_row(board, count as nat, width as nat),
            row.len() == size,
            to@ == before + row.take(i as int),
        decreases size - i,
    {
        let c: usize = i / width;
        let k: usize = i % width;
        let mut mark: bool = false;
        if c < cells.len() && k < stones.len() {
            proof {
                lemma_placements_on_board(board, CELL_COUNT as nat, c as int);
                lemma_stones_on_board(board, CELL_COUNT as nat, k as int);
            }
            mark = aligned(cells[c], stones[k].0);
        }
        assert(mark == looks_at(board, c as int, k as int));
        to.push(mark);
        assert(to@ =~= before + row.take(i + 1));
        i = i + 1;
    }
    assert(row.take(size as int) =~= row);
}

fn push_queries(
    to: &mut Vec<bool>,
    cells: &Vec<Move>,
    stones: &Vec<(Move, bool)>,
    count: usize,
    Ghost(board): Ghost<BoardView>,
)
    requires
        cells@ == placements(board),
        stones@ == stones_of(board),
    ensures
        final(to)@ == old(to)@ + query_row(board, count as nat),
{
    let ghost row = query_row(board, count as nat);
    let ghost before = to@;
    let mut c: usize = 0;
    assert(before + row.take(0) =~= before);
    while c < count
        invariant
            c <= count,
            cells@ == placements(board),
            stones@ == stones_of(board),
            row == query_row(board, count as nat),
            to@ == before + row.take(c as int),
        decreases count - c,
    {
        let mut any: bool = false;
        if c < cells.len() {
            let mut k: usize = 0;
            while k < stones.len()
                invariant
                    c < cells@.len(),
                    k <= stones@.len(),
                    cells@ == placements(board),
                    stones@ == stones_of(board),
                    any == exists|j: int| j < k && #[trigger] looks_at(board, c as int, j),
                decreases stones@.len() - k,
            {
                proof {
                    lemma_placements_on_board(board, CELL_COUNT as nat, c as int);
                    lemma_stones_on_board(board, CELL_COUNT as nat, k as int);
                }
                if aligned(cells[c], stones[k].0) {
                    assert(looks_at(board, c as int, k as int));
                    any = true;
                } else {
                    assert(!looks_at(board, c as int, k as int));
                }
                k = k + 1;
            }
        }
        assert(any == exists|j: int| #[trigger] looks_at(board, c as int, j));
        to.push(any);
        assert(to@ =~= before + row.take(c + 1));
        c = c + 1;
    }
    assert(row.take(count as int) =~= row);
}

fn count_tokens(samples: &[Sample]) -> (width: usize)
    ensures
        width == token_width(samples@, samples@.len()),
        width > 0,
{
    let mut width: usize = 1;
    let mut i: usize = 0;
    while i < samples.len()
        invariant
            i <= samples@.len(),
            width > 0,
            width == token_width(samples@, i as nat),
        decreases samples@.len() - i,
    {
        let moves: usize = samples[i].board.move_count();
        if moves > width {
            width = moves;
        }
        i = i + 1;
    }
    width
}

fn count_candidates(samples: &[Sample]) -> (count: usize)
    requires
        forall|i: int| 0 <= i < samples@.len() ==> (#[trigger] samples@[i]).board@.wf(),
    ensures
        count == candidate_width(samples@, samples@.len()),
        count > 0,
{
    let mut count: usize = 1;
    let mut i: usize = 0;
    while i < samples.len()
        invariant
            i <= samples@.len(),
            count > 0,
            count == candidate_width(samples@, i as nat),
            forall|k: int| 0 <= k < samples@.len() ==> (#[trigger] samples@[k]).board@.wf(),
        decreases samples@.len() - i,
    {
        assert(samples@[i as int].board@.wf());
        let cells: Vec<Move> = list_placements(&samples[i].board);
        if cells.len() > count {
            count = cells.len();
        }
        i = i + 1;
    }
    count
}

impl PackedBatch {
    /// Packs samples into one batch. No position has more stones than moves.
    pub fn new(samples: &[Sample]) -> (packed: PackedBatch)
        requires
            forall|i: int|
                0 <= i < samples@.len() ==> {
                    let board = (#[trigger] samples@[i]).board@;
                    board.wf() && stones_of(board).len() <= board.moves
                },
            token_width(samples@, samples@.len()) * token_width(samples@, samples@.len())
                <= usize::MAX,
            candidate_width(samples@, samples@.len()) * token_width(samples@, samples@.len())
                <= usize::MAX,
        ensures
            packed.tokens == token_width(samples@, samples@.len()),
            packed.candidates == candidate_width(samples@, samples@.len()),
            packed.holds(samples@, samples@.len()),
    {
        let tokens: usize = count_tokens(samples);
        let candidates: usize = count_candidates(samples);
        let mut packed: PackedBatch = PackedBatch {
            tokens,
            candidates,
            stone_positions: Vec::new(),
            stone_sides: Vec::new(),
            token_valid: Vec::new(),
            self_mask: Vec::new(),
            legal_positions: Vec::new(),
            legal_mask: Vec::new(),
            cross_mask: Vec::new(),
            query_valid: Vec::new(),
            value_classes: Vec::new(),
        };
        let mut i: usize = 0;
        assert(packed.value_classes@ =~= Seq::new(0, |i: int| class_of(samples@[i].value)));
        while i < samples.len()
            invariant
                i <= samples@.len(),
                forall|k: int| 0 <= k < samples@.len() ==> (#[trigger] samples@[k]).board@.wf(),
                tokens > 0,
                tokens * tokens <= usize::MAX,
                candidates * tokens <= usize::MAX,
                packed.tokens == tokens,
                packed.candidates == candidates,
                packed.holds(samples@, i as nat),
            decreases samples@.len() - i,
        {
            assert(samples@[i as int].board@.wf());
            let board: &Board = &samples[i].board;
            let ghost view = board@;
            let stones: Vec<(Move, bool)> = encode_stones(board);
            let cells: Vec<Move> = list_placements(board);
            push_positions(&mut packed.stone_positions, &stones, tokens, Ghost(view));
            push_sides(&mut packed.stone_sides, &stones, tokens, Ghost(view));
            push_marks(&mut packed.token_valid, stones.len(), tokens);
            push_self(&mut packed.self_mask, &stones, tokens, Ghost(view));
            push_candidates(&mut packed.legal_positions, &cells, candidates, Ghost(view));
            push_marks(&mut packed.legal_mask, cells.len(), candidates);
            push_cross(&mut packed.cross_mask, &cells, &stones, candidates, tokens, Ghost(view));
            push_queries(&mut packed.query_valid, &cells, &stones, candidates, Ghost(view));
            packed.value_classes.push(value_class(samples[i].value));
            proof {
                assert(Seq::new(tokens as nat, |j: int| j < stones@.len()) =~= valid_row(
                    view,
                    tokens as nat,
                ));
                assert(Seq::new(candidates as nat, |j: int| j < cells@.len()) =~= legal_row(
                    view,
                    candidates as nat,
                ));
                assert(packed.value_classes@ =~= Seq::new(
                    (i + 1) as nat,
                    |j: int| class_of(samples@[j].value),
                ));
            }
            i = i + 1;
        }
        packed
    }
}

/// The mask of a padded position holds what its stones attend to, and padding
/// neither attends nor is attended to.
pub proof fn law_padding_changes_no_attention(board: BoardView, width: nat, q: int, k: int)
    requires
        stones_of(board).len() <= width,
        0 <= q < width,
        0 <= k < width,
    ensures
        0 <= q * width + k < self_row(board, width).len(),
        self_row(board, width)[q * width + k] == attends(board, q, k),
        (q >= stones_of(board).len() || k >= stones_of(board).len()) ==> !self_row(
            board,
            width,
        )[q * width + k],
{
    let w = width as int;
    vstd::arithmetic::div_mod::lemma_fundamental_div_mod_converse(q * w + k, w, q, k);
    assert(0 <= q * w + k < w * w) by (nonlinear_arith)
        requires
            0 <= q < w,
            0 <= k < w,
    ;
}

/// A candidate looks at a stone exactly where its mask has one.
pub proof fn law_queries_have_keys(board: BoardView, count: nat, c: int)
    requires
        0 <= c < count,
    ensures
        query_row(board, count)[c] == exists|k: int| #[trigger] looks_at(board, c, k),
        c >= placements(board).len() ==> !query_row(board, count)[c],
{
}

} // verus!
