//! The lines through a cell of the sparse attention model, and the tokens on
//! each line.
use crate::game::{Board, BoardView, Move};
use crate::grid::CELL_COUNT;
use vstd::prelude::*;

verus! {

/// The width that the lines are drawn on.
pub const LINE_WIDTH: usize = 15;

/// Number of lines: 25 rows, 15 columns, 39 diagonals and 39 anti-diagonals.
pub const LINE_COUNT: usize = 118;

/// The line of a cell along an axis: its row, column, diagonal or
/// anti-diagonal, each axis with numbers of its own.
pub open spec fn line_of(cell: int, axis: int) -> int {
    let row = cell / 15;
    let col = cell % 15;
    if axis == 0 {
        row
    } else if axis == 1 {
        25 + col
    } else if axis == 2 {
        40 + row + 14 - col
    } else {
        79 + row + col
    }
}

/// Two cells lie on a common line.
pub open spec fn share_line(a: int, b: int) -> bool {
    exists|axis: int| 0 <= axis < 4 && #[trigger] line_of(a, axis) == line_of(b, axis)
}

/// The lines of a cell.
pub fn line_ids(mv: Move) -> (result: [usize; 4])
    requires
        mv.0 < CELL_COUNT,
    ensures
        forall|axis: int|
            0 <= axis < 4 ==> #[trigger] result@[axis] == line_of(mv.0 as int, axis),
        forall|axis: int| 0 <= axis < 4 ==> #[trigger] result@[axis] < LINE_COUNT,
{
    let row: usize = mv.0 / LINE_WIDTH;
    let col: usize = mv.0 % LINE_WIDTH;
    [row, 25 + col, 40 + row + 14 - col, 79 + row + col]
}

/// Whether two cells lie on a common line.
pub fn aligned(left: Move, right: Move) -> (result: bool)
    requires
        left.0 < CELL_COUNT,
        right.0 < CELL_COUNT,
    ensures
        result == share_line(left.0 as int, right.0 as int),
{
    let a: [usize; 4] = line_ids(left);
    let b: [usize; 4] = line_ids(right);
    let mut axis: usize = 0;
    while axis < 4
        invariant
            axis <= 4,
            forall|x: int| 0 <= x < 4 ==> #[trigger] a@[x] == line_of(left.0 as int, x),
            forall|x: int| 0 <= x < 4 ==> #[trigger] b@[x] == line_of(right.0 as int, x),
            forall|x: int|
                0 <= x < axis ==> #[trigger] line_of(left.0 as int, x) != line_of(
                    right.0 as int,
                    x,
                ),
        decreases 4 - axis,
    {
        assert(a@[axis as int] == line_of(left.0 as int, axis as int));
        assert(b@[axis as int] == line_of(right.0 as int, axis as int));
        if a[axis] == b[axis] {
            return true;
        }
        axis = axis + 1;
    }
    false
}

/// Lying on a common line goes both ways, and every cell lies on its own.
pub proof fn law_alignment_is_symmetric(a: int, b: int)
    ensures
        share_line(a, b) == share_line(b, a),
        share_line(a, a),
{
    assert(share_line(a, a)) by {
        let row = line_of(a, 0);
        assert(line_of(a, 0) == row);
    }
    if share_line(a, b) {
        let axis = choose|axis: int|
            0 <= axis < 4 && #[trigger] line_of(a, axis) == line_of(b, axis);
        assert(line_of(b, axis) == line_of(a, axis));
    }
    if share_line(b, a) {
        let axis = choose|axis: int|
            0 <= axis < 4 && #[trigger] line_of(b, axis) == line_of(a, axis);
        assert(line_of(a, axis) == line_of(b, axis));
    }
}

/// The values with one more put in at a place.
pub fn inserted<T: Copy>(values: &[T], index: usize, value: T) -> (output: Vec<T>)
    requires
        index <= values@.len(),
        values@.len() < usize::MAX,
    ensures
        output@ == values@.insert(index as int, value),
{
    let mut output: Vec<T> = Vec::with_capacity(values.len() + 1);
    let mut i: usize = 0;
    while i < index
        invariant
            i <= index <= values@.len(),
            output@ == values@.take(i as int),
        decreases index - i,
    {
        output.push(values[i]);
        assert(values@.take(i + 1) =~= values@.take(i as int).push(values@[i as int]));
        i = i + 1;
    }
    output.push(value);
    while i < values.len()
        invariant
            index <= i <= values@.len(),
            output@ == values@.take(index as int).push(value) + values@.subrange(
                index as int,
                i as int,
            ),
        decreases values@.len() - i,
    {
        output.push(values[i]);
        assert(values@.subrange(index as int, i + 1) =~= values@.subrange(
            index as int,
            i as int,
        ).push(values@[i as int]));
        i = i + 1;
    }
    assert(output@ =~= values@.insert(index as int, value));
    output
}

/// The place where a cell belongs among ascending cells: after all below it.
pub fn insertion_point(cells: &[usize], cell: usize) -> (result: usize)
    requires
        forall|i: int, j: int| 0 <= i < j < cells@.len() ==> cells@[i] < cells@[j],
    ensures
        result <= cells@.len(),
        forall|i: int| 0 <= i < result ==> cells@[i] < cell,
        forall|i: int| result <= i < cells@.len() ==> cells@[i] >= cell,
{
    let mut n: usize = 0;
    while n < cells.len() && cells[n] < cell
        invariant
            n <= cells@.len(),
            forall|i: int| 0 <= i < n ==> cells@[i] < cell,
        decreases cells@.len() - n,
    {
        n = n + 1;
    }
    n
}

/// Putting a new cell in at its place keeps the cells ascending.
pub proof fn law_insertion_keeps_order(cells: Seq<usize>, place: int, cell: usize)
    requires
        0 <= place <= cells.len(),
        forall|i: int, j: int| 0 <= i < j < cells.len() ==> cells[i] < cells[j],
        forall|i: int| 0 <= i < place ==> cells[i] < cell,
        forall|i: int| place <= i < cells.len() ==> cells[i] > cell,
    ensures
        forall|i: int, j: int|
            0 <= i < j < cells.insert(place, cell).len() ==> cells.insert(place, cell)[i]
                < cells.insert(place, cell)[j],
{
}

/// The tokens among the first `n` whose cell lies on the line, ascending.
pub open spec fn tokens_on(moves: Seq<Move>, line: int, n: nat) -> Seq<usize>
    decreases n,
{
    if n == 0 {
        Seq::empty()
    } else {
        let before = tokens_on(moves, line, (n - 1) as nat);
        let cell = moves[n - 1].0 as int;
        if line_of(cell, 0) == line || line_of(cell, 1) == line || line_of(cell, 2) == line
            || line_of(cell, 3) == line {
            before.push((n - 1) as usize)
        } else {
            before
        }
    }
}

/// A token is on a line if its cell has the line.
proof fn lemma_tokens_on(moves: Seq<Move>, line: int, n: nat, k: int)
    requires
        0 <= k < moves.len(),
        n <= moves.len() <= usize::MAX,
    ensures
        tokens_on(moves, line, n).contains(k as usize) == (k < n && exists|axis: int|
            0 <= axis < 4 && #[trigger] line_of(moves[k].0 as int, axis) == line),
    decreases n,
{
    if n > 0 {
        lemma_tokens_on(moves, line, (n - 1) as nat, k);
        let before = tokens_on(moves, line, (n - 1) as nat);
        let cell = moves[n - 1].0 as int;
        let (l0, l1, l2, l3) = (
            line_of(cell, 0),
            line_of(cell, 1),
            line_of(cell, 2),
            line_of(cell, 3),
        );
        let now = tokens_on(moves, line, n);
        if now != before {
            assert(now == before.push((n - 1) as usize));
            assert(now.last() == (n - 1) as usize);
            if before.contains(k as usize) {
                assert(now[before.index_of(k as usize)] == k as usize);
            }
        }
        if now.contains(k as usize) && k != n - 1 {
            let i = now.index_of(k as usize);
            assert(i < before.len());
            assert(before[i] == k as usize);
        }
    }
}

/// The tokens on the lines of a cell are those whose cells are aligned with
/// it.
pub proof fn law_line_index_finds_aligned_tokens(moves: Seq<Move>, cell: int, k: int)
    requires
        0 <= cell < CELL_COUNT,
        moves.len() <= usize::MAX,
        0 <= k < moves.len(),
        moves[k].0 < CELL_COUNT,
    ensures
        (exists|axis: int|
            0 <= axis < 4 && tokens_on(
                moves,
                #[trigger] line_of(cell, axis),
                moves.len(),
            ).contains(k as usize)) == share_line(cell, moves[k].0 as int),
{
    let stone = moves[k].0 as int;
    let n = moves.len();
    if share_line(cell, stone) {
        let axis = choose|axis: int|
            0 <= axis < 4 && #[trigger] line_of(cell, axis) == line_of(stone, axis);
        lemma_tokens_on(moves, line_of(cell, axis), n, k);
        assert(line_of(stone, axis) == line_of(cell, axis));
        assert(tokens_on(moves, line_of(cell, axis), n).contains(k as usize));
    }
    if exists|axis: int|
        0 <= axis < 4 && tokens_on(moves, #[trigger] line_of(cell, axis), n).contains(k as usize) {
        let axis = choose|axis: int|
            0 <= axis < 4 && tokens_on(moves, #[trigger] line_of(cell, axis), n).contains(
                k as usize,
            );
        lemma_tokens_on(moves, line_of(cell, axis), n, k);
        let other = choose|other: int|
            0 <= other < 4 && #[trigger] line_of(stone, other) == line_of(cell, axis);
        assert(other == axis);
        assert(line_of(cell, axis) == line_of(stone, axis));
    }
}

/// Two cells share one line at most.
pub proof fn law_distinct_cells_share_one_line(a: int, b: int, x: int, y: int)
    requires
        0 <= a < CELL_COUNT,
        0 <= b < CELL_COUNT,
        a != b,
        0 <= x < 4,
        0 <= y < 4,
        line_of(a, x) == line_of(b, x),
        line_of(a, y) == line_of(b, y),
    ensures
        x == y,
{
}

/// A token that the lines of another cell lead to is found on one of them
/// only.
pub proof fn law_aligned_tokens_are_found_once(moves: Seq<Move>, cell: int, k: int, x: int, y: int)
    requires
        0 <= cell < CELL_COUNT,
        moves.len() <= usize::MAX,
        0 <= k < moves.len(),
        moves[k].0 < CELL_COUNT,
        moves[k].0 != cell,
        0 <= x < 4,
        0 <= y < 4,
        tokens_on(moves, line_of(cell, x), moves.len()).contains(k as usize),
        tokens_on(moves, line_of(cell, y), moves.len()).contains(k as usize),
    ensures
        x == y,
{
    let stone = moves[k].0 as int;
    lemma_tokens_on(moves, line_of(cell, x), moves.len(), k);
    lemma_tokens_on(moves, line_of(cell, y), moves.len(), k);
    let a = choose|axis: int|
        0 <= axis < 4 && #[trigger] line_of(stone, axis) == line_of(cell, x);
    let b = choose|axis: int|
        0 <= axis < 4 && #[trigger] line_of(stone, axis) == line_of(cell, y);
    assert(a == x && b == y);
    law_distinct_cells_share_one_line(cell, stone, x, y);
}

/// The tokens of each line.
pub fn rebuild_line_index(moves: &[Move]) -> (lines: Vec<Vec<usize>>)
    requires
        forall|i: int| 0 <= i < moves@.len() ==> (#[trigger] moves@[i]).0 < CELL_COUNT,
    ensures
        lines@.len() == LINE_COUNT,
        forall|line: int|
            0 <= line < LINE_COUNT ==> (#[trigger] lines@[line])@ == tokens_on(
                moves@,
                line,
                moves@.len(),
            ),
{
    let mut lines: Vec<Vec<usize>> = Vec::new();
    let mut line: usize = 0;
    while line < LINE_COUNT
        invariant
            line <= LINE_COUNT,
            lines@.len() == line,
            forall|i: int| 0 <= i < moves@.len() ==> (#[trigger] moves@[i]).0 < CELL_COUNT,
            forall|l: int|
                0 <= l < line ==> (#[trigger] lines@[l])@ == tokens_on(moves@, l, moves@.len()),
        decreases LINE_COUNT - line,
    {
        let mut tokens: Vec<usize> = Vec::new();
        let mut k: usize = 0;
        while k < moves.len()
            invariant
                k <= moves@.len(),
                forall|i: int| 0 <= i < moves@.len() ==> (#[trigger] moves@[i]).0 < CELL_COUNT,
                tokens@ == tokens_on(moves@, line as int, k as nat),
            decreases moves@.len() - k,
        {
            assert(moves@[k as int].0 < CELL_COUNT);
            let ids: [usize; 4] = line_ids(moves[k]);
            assert(ids@[0] == line_of(moves@[k as int].0 as int, 0));
            assert(ids@[1] == line_of(moves@[k as int].0 as int, 1));
            assert(ids@[2] == line_of(moves@[k as int].0 as int, 2));
            assert(ids@[3] == line_of(moves@[k as int].0 as int, 3));
            if ids[0] == line || ids[1] == line || ids[2] == line || ids[3] == line {
                tokens.push(k);
            }
            k = k + 1;
        }
        lines.push(tokens);
        line = line + 1;
    }
    lines
}

/// Which tokens attend to which: those on a common line.
pub fn self_attention(moves: &[Move]) -> (mask: Vec<bool>)
    requires
        forall|i: int| 0 <= i < moves@.len() ==> (#[trigger] moves@[i]).0 < CELL_COUNT,
        moves@.len() * moves@.len() <= usize::MAX,
    ensures
        mask@.len() == moves@.len() * moves@.len(),
        forall|i: int, j: int|
            0 <= i < moves@.len() && 0 <= j < moves@.len() ==> #[trigger] mask@[i * moves@.len() + j]
                == share_line(moves@[i].0 as int, moves@[j].0 as int),
{
    cross_attention(moves, moves).0
}

/// Which stones the candidates attend to, and whether each has one: those on
/// a common line.
pub fn cross_attention(candidates: &[Move], stones: &[Move]) -> (result: (Vec<bool>, Vec<bool>))
    requires
        forall|i: int| 0 <= i < candidates@.len() ==> (#[trigger] candidates@[i]).0 < CELL_COUNT,
        forall|i: int| 0 <= i < stones@.len() ==> (#[trigger] stones@[i]).0 < CELL_COUNT,
        candidates@.len() * stones@.len() <= usize::MAX,
    ensures
        result.0@.len() == candidates@.len() * stones@.len(),
        result.1@.len() == candidates@.len(),
        forall|i: int, j: int|
            0 <= i < candidates@.len() && 0 <= j < stones@.len() ==> #[trigger] result.0@[i
                * stones@.len() + j] == share_line(
                candidates@[i].0 as int,
                stones@[j].0 as int,
            ),
        forall|i: int|
            0 <= i < candidates@.len() ==> #[trigger] result.1@[i] == exists|j: int|
                0 <= j < stones@.len() && share_line(
                    candidates@[i].0 as int,
                    (#[trigger] stones@[j]).0 as int,
                ),
{
    let mut mask: Vec<bool> = Vec::new();
    let mut valid: Vec<bool> = Vec::new();
    let ghost width = stones@.len() as int;
    let mut i: usize = 0;
    assert(0 * width == 0);
    while i < candidates.len()
        invariant
            i <= candidates@.len(),
            width == stones@.len(),
            forall|k: int| 0 <= k < candidates@.len() ==> (#[trigger] candidates@[k]).0 < CELL_COUNT,
            forall|k: int| 0 <= k < stones@.len() ==> (#[trigger] stones@[k]).0 < CELL_COUNT,
            mask@.len() == i * width,
            valid@.len() == i,
            forall|a: int, b: int|
                0 <= a < i && 0 <= b < width ==> #[trigger] mask@[a * width + b] == share_line(
                    candidates@[a].0 as int,
                    stones@[b].0 as int,
                ),
            forall|a: int|
                0 <= a < i ==> #[trigger] valid@[a] == exists|j: int|
                    0 <= j < stones@.len() && share_line(
                        candidates@[a].0 as int,
                        (#[trigger] stones@[j]).0 as int,
                    ),
        decreases candidates@.len() - i,
    {
        assert(candidates@[i as int].0 < CELL_COUNT);
        let mut any: bool = false;
        let mut j: usize = 0;
        while j < stones.len()
            invariant
                i < candidates@.len(),
                j <= stones@.len(),
                width == stones@.len(),
                candidates@[i as int].0 < CELL_COUNT,
                forall|k: int| 0 <= k < stones@.len() ==> (#[trigger] stones@[k]).0 < CELL_COUNT,
                mask@.len() == i * width + j,
                forall|a: int, b: int|
                    0 <= a < i && 0 <= b < width ==> #[trigger] mask@[a * width + b]
                        == share_line(candidates@[a].0 as int, stones@[b].0 as int),
                forall|b: int|
                    0 <= b < j ==> #[trigger] mask@[i * width + b] == share_line(
                        candidates@[i as int].0 as int,
                        stones@[b].0 as int,
                    ),
                any == exists|k: int|
                    0 <= k < j && share_line(
                        candidates@[i as int].0 as int,
                        (#[trigger] stones@[k]).0 as int,
                    ),
            decreases stones@.len() - j,
        {
            assert(stones@[j as int].0 < CELL_COUNT);
            let on_line: bool = aligned(candidates[i], stones[j]);
            let ghost before = mask@;
            mask.push(on_line);
            proof {
                assert forall|a: int, b: int| 0 <= a < i && 0 <= b < width implies
                    #[trigger] mask@[a * width + b] == share_line(
                    candidates@[a].0 as int,
                    stones@[b].0 as int,
                ) by {
                    lemma_row_place(a, b, i as int, width);
                    assert(before[a * width + b] == share_line(
                        candidates@[a].0 as int,
                        stones@[b].0 as int,
                    ));
                }
                assert forall|b: int| 0 <= b < j + 1 implies #[trigger] mask@[i * width + b]
                    == share_line(candidates@[i as int].0 as int, stones@[b].0 as int) by {
                    if b < j {
                        assert(before[i * width + b] == share_line(
                            candidates@[i as int].0 as int,
                            stones@[b].0 as int,
                        ));
                    }
                }
                if any {
                    let k = choose|k: int|
                        0 <= k < j && share_line(
                            candidates@[i as int].0 as int,
                            (#[trigger] stones@[k]).0 as int,
                        );
                    assert(share_line(candidates@[i as int].0 as int, stones@[k].0 as int));
                }
                if on_line {
                    assert(share_line(candidates@[i as int].0 as int, stones@[j as int].0 as int));
                }
            }
            any = any || on_line;
            j = j + 1;
        }
        valid.push(any);
        proof {
            assert((i + 1) * width == i * width + width) by (nonlinear_arith);
            assert forall|a: int, b: int| 0 <= a < i + 1 && 0 <= b < width implies
                #[trigger] mask@[a * width + b] == share_line(
                candidates@[a].0 as int,
                stones@[b].0 as int,
            ) by {
                if a == i {
                    assert(mask@[i * width + b] == share_line(
                        candidates@[i as int].0 as int,
                        stones@[b].0 as int,
                    ));
                }
            }
        }
        i = i + 1;
    }
    (mask, valid)
}

proof fn lemma_row_place(a: int, b: int, i: int, width: int)
    requires
        0 <= a < i,
        0 <= b < width,
    ensures
        0 <= a * width + b < i * width,
{
    assert(a * width + width <= i * width) by (nonlinear_arith)
        requires
            a + 1 <= i,
            width > 0,
    ;
    assert(0 <= a * width) by (nonlinear_arith)
        requires
            0 <= a,
            width > 0,
    ;
}

/// A changed token attends or is attended to on a line with the one in place
/// `i`.
pub open spec fn reached(moves: Seq<Move>, changed: Seq<bool>, i: int) -> bool {
    exists|j: int|
        0 <= j < moves.len() && #[trigger] changed[j] && share_line(
            moves[i].0 as int,
            moves[j].0 as int,
        )
}

/// The tokens whose next layer has to be computed anew: those on a line with a
/// token that has changed.
pub fn affected(moves: &[Move], changed: &[bool]) -> (result: Vec<bool>)
    requires
        changed@.len() == moves@.len(),
        forall|i: int| 0 <= i < moves@.len() ==> (#[trigger] moves@[i]).0 < CELL_COUNT,
    ensures
        result@ == Seq::new(moves@.len(), |i: int| reached(moves@, changed@, i)),
{
    let ghost whole = Seq::new(moves@.len(), |i: int| reached(moves@, changed@, i));
    let mut result: Vec<bool> = Vec::with_capacity(moves.len());
    let mut i: usize = 0;
    assert(result@ =~= whole.take(0));
    while i < moves.len()
        invariant
            i <= moves@.len(),
            changed@.len() == moves@.len(),
            forall|k: int| 0 <= k < moves@.len() ==> (#[trigger] moves@[k]).0 < CELL_COUNT,
            whole == Seq::new(moves@.len(), |i: int| reached(moves@, changed@, i)),
            result@ == whole.take(i as int),
        decreases moves@.len() - i,
    {
        let mut any: bool = false;
        let mut j: usize = 0;
        while j < moves.len()
            invariant
                i < moves@.len(),
                j <= moves@.len(),
                changed@.len() == moves@.len(),
                forall|k: int| 0 <= k < moves@.len() ==> (#[trigger] moves@[k]).0 < CELL_COUNT,
                any == exists|k: int|
                    0 <= k < j && #[trigger] changed@[k] && share_line(
                        moves@[i as int].0 as int,
                        moves@[k].0 as int,
                    ),
            decreases moves@.len() - j,
        {
            assert(moves@[i as int].0 < CELL_COUNT && moves@[j as int].0 < CELL_COUNT);
            if changed[j] && aligned(moves[i], moves[j]) {
                assert(changed@[j as int]);
                any = true;
            }
            j = j + 1;
        }
        result.push(any);
        assert(any == reached(moves@, changed@, i as int));
        assert(result@ =~= whole.take(i + 1));
        i = i + 1;
    }
    assert(whole.take(moves@.len() as int) =~= whole);
    result
}

/// What has not to be computed anew attends to nothing that has changed, so it
/// stays as it was; and what has changed is computed anew.
pub proof fn law_untouched_tokens_see_no_change(moves: Seq<Move>, changed: Seq<bool>, i: int, j: int)
    requires
        changed.len() == moves.len(),
        0 <= i < moves.len(),
        0 <= j < moves.len(),
    ensures
        !reached(moves, changed, i) && share_line(moves[i].0 as int, moves[j].0 as int)
            ==> !changed[j],
        changed[i] ==> reached(moves, changed, i),
{
    law_alignment_is_symmetric(moves[i].0 as int, moves[i].0 as int);
}

/// The stones of a position as tokens: their cells, and whether each is the
/// opponent's, over the first `n` cells.
pub open spec fn tokens_below(board: BoardView, n: nat) -> Seq<(Move, bool)>
    decreases n,
{
    if n == 0 {
        Seq::empty()
    } else {
        let before = tokens_below(board, (n - 1) as nat);
        let stone = board.cells[n - 1];
        if stone != 0 {
            before.push((Move((n - 1) as usize), stone != board.to_move.mark()))
        } else {
            before
        }
    }
}

pub fn encode_stones(board: &Board) -> (tokens: Vec<(Move, bool)>)
    requires
        board@.wf(),
    ensures
        tokens@ == tokens_below(board@, CELL_COUNT as nat),
{
    let cells: &[i8] = board.cells();
    let us: i8 = board.to_move().stone();
    let mut tokens: Vec<(Move, bool)> = Vec::new();
    let mut p: usize = 0;
    while p < CELL_COUNT
        invariant
            cells@ == board@.cells,
            cells@.len() == CELL_COUNT,
            us == board@.to_move.mark(),
            p <= CELL_COUNT,
            tokens@ == tokens_below(board@, p as nat),
        decreases CELL_COUNT - p,
    {
        if cells[p] != 0 {
            tokens.push((Move(p), cells[p] != us));
        }
        p = p + 1;
    }
    tokens
}

/// The sizes of the parameters of the sparse attention model, in the order in
/// which they are kept: the embeddings of stones and positions; the six parts
/// of each of two layers; the policy; the value.
pub open spec fn sparse_sizes() -> Seq<usize> {
    seq![
        64, 11552, 1024, 1024, 1024, 1024, 2048, 2048, 1024, 1024, 1024, 1024, 2048, 2048, 1024,
        1024, 1024, 32, 361, 1024, 96,
    ]
}

/// Whether parameters have the sizes of the model.
pub fn check_sparse_sizes(sizes: &[usize]) -> (result: bool)
    ensures
        result == (sizes@ == sparse_sizes()),
{
    let expected: [usize; 21] = [
        64, 11552, 1024, 1024, 1024, 1024, 2048, 2048, 1024, 1024, 1024, 1024, 2048, 2048, 1024,
        1024, 1024, 32, 361, 1024, 96,
    ];
    assert(expected@ =~= sparse_sizes());
    if sizes.len() != 21 {
        return false;
    }
    let mut i: usize = 0;
    while i < 21
        invariant
            i <= 21,
            sizes@.len() == 21,
            expected@ == sparse_sizes(),
            forall|k: int| 0 <= k < i ==> sizes@[k] == sparse_sizes()[k],
        decreases 21 - i,
    {
        if sizes[i] != expected[i] {
            return false;
        }
        i = i + 1;
    }
    assert(sizes@ =~= sparse_sizes());
    true
}

/// The packed words of a feature pool: a feature in the low eleven bits, and
/// two buckets of four bits each above it.
pub open spec fn packed_of(feature: int, us_bucket: int, them_bucket: int) -> int {
    feature + us_bucket * 2048 + them_bucket * 32768
}

pub fn pack_feature(feature: usize, us_bucket: usize, them_bucket: usize) -> (result: u32)
    requires
        feature < 2048,
        us_bucket < 16,
        them_bucket < 16,
    ensures
        result == packed_of(feature as int, us_bucket as int, them_bucket as int),
{
    feature as u32 + us_bucket as u32 * 2048 + them_bucket as u32 * 32768
}

/// The feature and buckets of a packed word.
pub open spec fn unpacked(packed: int) -> (int, int, int) {
    (packed % 2048, packed / 2048 % 16, packed / 32768 % 16)
}

pub fn unpack_feature(packed: u32) -> (result: (usize, usize, usize))
    ensures
        (result.0 as int, result.1 as int, result.2 as int) == unpacked(packed as int),
{
    (
        (packed % 2048) as usize,
        (packed / 2048 % 16) as usize,
        (packed / 32768 % 16) as usize,
    )
}

/// The table rows of a packed word: the feature, and what the piece, its rank
/// and file, and the two buckets have rows for.
pub open spec fn rows_of(packed: int) -> Seq<int> {
    let (feature, us_bucket, them_bucket) = unpacked(packed);
    let piece = feature / 90;
    let square = feature % 90;
    seq![
        feature,
        1260 + piece,
        1274 + square / 9,
        1284 + square % 9,
        1293 + us_bucket * 14 + piece,
        1293 + (9 + them_bucket) * 14 + piece,
    ]
}

pub fn item_rows(packed: u32) -> (result: [usize; 6])
    ensures
        result@.map_values(|row: usize| row as int) == rows_of(packed as int),
{
    let (feature, us_bucket, them_bucket) = unpack_feature(packed);
    let piece: usize = feature / 90;
    let square: usize = feature % 90;
    let rows: [usize; 6] = [
        feature,
        1260 + piece,
        1274 + square / 9,
        1284 + square % 9,
        1293 + us_bucket * 14 + piece,
        1293 + (9 + them_bucket) * 14 + piece,
    ];
    assert(rows@.map_values(|row: usize| row as int) =~= rows_of(packed as int));
    rows
}

/// Number of rows of the table.
pub const TABLE_ROWS: usize = 1545;

/// The rows of a packed feature lie in the table, each in the part of its
/// own.
pub proof fn law_rows_lie_in_the_table(feature: int, us_bucket: int, them_bucket: int)
    requires
        0 <= feature < 1260,
        0 <= us_bucket < 9,
        0 <= them_bucket < 9,
    ensures
        ({
            let rows = rows_of(packed_of(feature, us_bucket, them_bucket));
            0 <= rows[0] < 1260 <= rows[1] < 1274 <= rows[2] < 1284 <= rows[3] < 1293 <= rows[4]
                < rows[5] < TABLE_ROWS
        }),
{
}

/// Unpacking gives back what was packed.
pub proof fn law_unpacking_inverts_packing(feature: int, us_bucket: int, them_bucket: int)
    requires
        0 <= feature < 2048,
        0 <= us_bucket < 16,
        0 <= them_bucket < 16,
    ensures
        unpacked(packed_of(feature, us_bucket, them_bucket)) == (feature, us_bucket, them_bucket),
{
}

} // verus!
