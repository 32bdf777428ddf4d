//! The eight symmetries of the grid, and that the rules do not depend on how
//! the board is turned.
use crate::benson::{alive_at, eye_of, region_of, secure, two_eyes};
use crate::game::{
    after_placement, captured_by, has_liberty, liberties_of, lemma_captured_color, positions,
    stone_down, valid_cells, Board, BoardView, Move, Player,
};
use crate::grid::{
    adjacent, border_of, closed_within, component, lemma_component_basic, lemma_component_least,
    points_with, same_component, BOARD_SIZE, CELL_COUNT,
};
use crate::scoring::{area_below, area_of, owner_of, sees};
use vstd::prelude::*;

verus! {

/// The point in row `row` and column `col`.
pub open spec fn at(row: int, col: int) -> usize {
    (row * 19 + col) as usize
}

/// Where a symmetry takes a point: its bit 4 mirrors the columns first, its
/// low two bits count quarter turns, each of which takes row and column to
/// column and 18 less row. The pass stays the pass.
pub open spec fn image(p: usize, symmetry: usize) -> usize {
    if p == CELL_COUNT {
        p
    } else {
        let row = p as int / 19;
        let col = if (symmetry as int / 4) % 2 == 1 {
            18 - p as int % 19
        } else {
            p as int % 19
        };
        if symmetry % 4 == 0 {
            at(row, col)
        } else if symmetry % 4 == 1 {
            at(col, 18 - row)
        } else if symmetry % 4 == 2 {
            at(18 - row, 18 - col)
        } else {
            at(18 - col, row)
        }
    }
}

/// The point that a symmetry takes to `p`.
pub open spec fn preimage(p: usize, symmetry: usize) -> usize {
    if p == CELL_COUNT {
        p
    } else {
        let y = p as int / 19;
        let x = p as int % 19;
        let row = if symmetry % 4 == 0 {
            y
        } else if symmetry % 4 == 1 {
            18 - x
        } else if symmetry % 4 == 2 {
            18 - y
        } else {
            x
        };
        let col = if symmetry % 4 == 0 {
            x
        } else if symmetry % 4 == 1 {
            y
        } else if symmetry % 4 == 2 {
            18 - x
        } else {
            18 - y
        };
        if (symmetry as int / 4) % 2 == 1 {
            at(row, 18 - col)
        } else {
            at(row, col)
        }
    }
}

proof fn lemma_at(row: int, col: int)
    requires
        0 <= row < 19,
        0 <= col < 19,
    ensures
        at(row, col) == row * 19 + col,
        at(row, col) < CELL_COUNT,
        at(row, col) as int / 19 == row,
        at(row, col) as int % 19 == col,
{
}

/// Rows and columns of adjacent points.
spec fn near(r1: int, c1: int, r2: int, c2: int) -> bool {
    ||| (r1 == r2 && (c1 + 1 == c2 || c2 + 1 == c1))
    ||| (c1 == c2 && (r1 + 1 == r2 || r2 + 1 == r1))
}

/// Adjacency in terms of rows and columns.
proof fn lemma_adjacent_rows(p: usize, q: usize)
    requires
        p < CELL_COUNT,
        q < CELL_COUNT,
    ensures
        adjacent(p, q) == near(p as int / 19, p as int % 19, q as int / 19, q as int % 19),
{
}

/// The row and column that a symmetry takes a row and column to.
pub open spec fn turned(row: int, col: int, symmetry: usize) -> (int, int) {
    let x = if (symmetry as int / 4) % 2 == 1 {
        18 - col
    } else {
        col
    };
    if symmetry % 4 == 0 {
        (row, x)
    } else if symmetry % 4 == 1 {
        (x, 18 - row)
    } else if symmetry % 4 == 2 {
        (18 - row, 18 - x)
    } else {
        (18 - x, row)
    }
}

proof fn lemma_turned_near(r1: int, c1: int, r2: int, c2: int, symmetry: usize)
    ensures
        near(
            turned(r1, c1, symmetry).0,
            turned(r1, c1, symmetry).1,
            turned(r2, c2, symmetry).0,
            turned(r2, c2, symmetry).1,
        ) == near(r1, c1, r2, c2),
{
}

/// A symmetry is one to one on the points, keeps the pass, and keeps and
/// reflects adjacency.
pub proof fn law_symmetry_is_one_to_one(p: usize, symmetry: usize)
    requires
        p < CELL_COUNT,
    ensures
        image(p, symmetry) < CELL_COUNT,
        preimage(p, symmetry) < CELL_COUNT,
        preimage(image(p, symmetry), symmetry) == p,
        image(preimage(p, symmetry), symmetry) == p,
        image(CELL_COUNT, symmetry) == CELL_COUNT,
{
    let row = p as int / 19;
    let col = p as int % 19;
    lemma_at(row, col);
    lemma_at(row, 18 - col);
    lemma_at(col, 18 - row);
    lemma_at(18 - col, 18 - row);
    lemma_at(18 - row, 18 - col);
    lemma_at(18 - row, col);
    lemma_at(18 - col, row);
    lemma_at(col, row);
}

pub proof fn law_symmetry_keeps_adjacency(p: usize, q: usize, symmetry: usize)
    requires
        p < CELL_COUNT,
        q < CELL_COUNT,
    ensures
        adjacent(image(p, symmetry), image(q, symmetry)) == adjacent(p, q),
{
    let (a, b) = (image(p, symmetry), image(q, symmetry));
    assert(a < CELL_COUNT && b < CELL_COUNT) by {
        law_symmetry_is_one_to_one(p, symmetry);
        law_symmetry_is_one_to_one(q, symmetry);
    }
    assert(near(p as int / 19, p as int % 19, q as int / 19, q as int % 19) == adjacent(p, q)) by {
        lemma_adjacent_rows(p, q);
    }
    assert(near(a as int / 19, a as int % 19, b as int / 19, b as int % 19) == adjacent(a, b)) by {
        lemma_adjacent_rows(a, b);
    }
    assert((a as int / 19, a as int % 19) == turned(p as int / 19, p as int % 19, symmetry)) by {
        lemma_image_rows(p, symmetry);
    }
    assert((b as int / 19, b as int % 19) == turned(q as int / 19, q as int % 19, symmetry)) by {
        lemma_image_rows(q, symmetry);
    }
    lemma_turned_near(
        p as int / 19,
        p as int % 19,
        q as int / 19,
        q as int % 19,
        symmetry,
    );
}

proof fn lemma_image_rows(p: usize, symmetry: usize)
    requires
        p < CELL_COUNT,
    ensures
        ({
            let row = p as int / 19;
            let col = if (symmetry as int / 4) % 2 == 1 {
                18 - p as int % 19
            } else {
                p as int % 19
            };
            let q = image(p, symmetry);
            &&& symmetry % 4 == 0 ==> q as int / 19 == row && q as int % 19 == col
            &&& symmetry % 4 == 1 ==> q as int / 19 == col && q as int % 19 == 18 - row
            &&& symmetry % 4 == 2 ==> q as int / 19 == 18 - row && q as int % 19 == 18 - col
            &&& symmetry % 4 == 3 ==> q as int / 19 == 18 - col && q as int % 19 == row
        }),
{
    let row = p as int / 19;
    let col = if (symmetry as int / 4) % 2 == 1 {
        18 - p as int % 19
    } else {
        p as int % 19
    };
    lemma_at(row, col);
    lemma_at(col, 18 - row);
    lemma_at(18 - row, 18 - col);
    lemma_at(18 - col, row);
}

/// Where the symmetry takes the point with that index, or the pass.
pub fn transform_index(index: usize, symmetry: usize) -> (result: usize)
    requires
        index <= CELL_COUNT,
    ensures
        result == image(index, symmetry),
        result <= CELL_COUNT,
{
    if index == CELL_COUNT {
        return index;
    }
    let mut row: usize = index / BOARD_SIZE;
    let mut col: usize = index % BOARD_SIZE;
    if symmetry / 4 % 2 == 1 {
        col = BOARD_SIZE - 1 - col;
    }
    let turns: usize = symmetry % 4;
    proof {
        law_symmetry_is_one_to_one(index, symmetry);
        lemma_image_rows(index, symmetry);
    }
    if turns == 0 {
        row * BOARD_SIZE + col
    } else if turns == 1 {
        col * BOARD_SIZE + (BOARD_SIZE - 1 - row)
    } else if turns == 2 {
        (BOARD_SIZE - 1 - row) * BOARD_SIZE + (BOARD_SIZE - 1 - col)
    } else {
        (BOARD_SIZE - 1 - col) * BOARD_SIZE + row
    }
}

/// Where the symmetry takes the points of a set.
pub open spec fn image_set(s: Set<usize>, symmetry: usize) -> Set<usize> {
    Set::new(|q: usize| q < CELL_COUNT && s.contains(preimage(q, symmetry)))
}

/// The cells with every stone moved by the symmetry.
pub open spec fn image_cells(cells: Seq<i8>, symmetry: usize) -> Seq<i8> {
    Seq::new(CELL_COUNT as nat, |q: int| cells[preimage(q as usize, symmetry) as int])
}

impl BoardView {
    /// The board with every position moved by the symmetry.
    pub open spec fn imaged(self, symmetry: usize) -> BoardView {
        BoardView {
            cells: image_cells(self.cells, symmetry),
            previous: image_cells(self.previous, symmetry),
            history: self.history.map_values(|cells: Seq<i8>| image_cells(cells, symmetry)),
            ..self
        }
    }
}

fn transform_cells(cells: &[i8], symmetry: usize) -> (result: Vec<i8>)
    requires
        cells@.len() == CELL_COUNT,
    ensures
        result@ == image_cells(cells@, symmetry),
{
    let mut result: Vec<i8> = vec![0; 361];
    let mut index: usize = 0;
    while index < CELL_COUNT
        invariant
            cells@.len() == CELL_COUNT,
            result@.len() == CELL_COUNT,
            index <= CELL_COUNT,
            forall|p: usize|
                p < index ==> result@[#[trigger] image(p, symmetry) as int] == cells@[p as int],
        decreases CELL_COUNT - index,
    {
        let to: usize = transform_index(index, symmetry);
        proof {
            law_symmetry_is_one_to_one(index, symmetry);
        }
        let ghost before = result@;
        result.set(to, cells[index]);
        proof {
            assert forall|p: usize| p < index + 1 implies result@[#[trigger] image(
                p,
                symmetry,
            ) as int] == cells@[p as int] by {
                law_symmetry_is_one_to_one(p, symmetry);
                if p != index {
                    assert(image(p, symmetry) != to);
                    assert(before[image(p, symmetry) as int] == cells@[p as int]);
                }
            }
        }
        index = index + 1;
    }
    proof {
        assert forall|q: int| 0 <= q < CELL_COUNT implies #[trigger] result@[q] == image_cells(
            cells@,
            symmetry,
        )[q] by {
            law_symmetry_is_one_to_one(q as usize, symmetry);
            let p = preimage(q as usize, symmetry);
            assert(result@[image(p, symmetry) as int] == cells@[p as int]);
        }
        assert(result@ =~= image_cells(cells@, symmetry));
    }
    result
}

impl Board {
    /// A copy with every position moved by the symmetry.
    pub fn transformed(&self, symmetry: usize) -> (result: Board)
        requires
            self@.wf(),
        ensures
            result@ == self@.imaged(symmetry),
            result@.wf(),
    {
        let history: &Vec<Vec<i8>> = self.history();
        let mut moved: Vec<Vec<i8>> = Vec::with_capacity(history.len());
        let ghost all = self@.history;
        assert(positions(history@).len() == history@.len());
        let mut i: usize = 0;
        while i < history.len()
            invariant
                all == self@.history,
                self@.wf(),
                positions(history@) == all,
                all.len() == history@.len(),
                i <= history@.len(),
                moved@.len() == i,
                forall|j: int|
                    0 <= j < i ==> (#[trigger] moved@[j])@ == image_cells(all[j], symmetry),
            decreases history@.len() - i,
        {
            assert(positions(history@)[i as int] == history@[i as int]@);
            assert(valid_cells(all[i as int]));
            moved.push(transform_cells(history[i].as_slice(), symmetry));
            i = i + 1;
        }
        let cells: Vec<i8> = transform_cells(self.cells(), symmetry);
        let previous: Vec<i8> = transform_cells(self.previous_cells(), symmetry);
        proof {
            assert(positions(moved@) =~= self@.imaged(symmetry).history);
            lemma_image_valid(self@.cells, symmetry);
            lemma_image_valid(self@.previous, symmetry);
            assert forall|j: int| 0 <= j < positions(moved@).len() implies valid_cells(
                #[trigger] positions(moved@)[j],
            ) by {
                assert(valid_cells(all[j]));
                lemma_image_valid(all[j], symmetry);
            }
        }
        Board::from_parts(
            cells,
            self.to_move(),
            self.move_count(),
            self.consecutive_passes(),
            self.komi(),
            previous,
            moved,
        ).unwrap()
    }
}

proof fn lemma_image_valid(cells: Seq<i8>, symmetry: usize)
    requires
        valid_cells(cells),
    ensures
        valid_cells(image_cells(cells, symmetry)),
{
    let turned = image_cells(cells, symmetry);
    assert forall|q: int| 0 <= q < CELL_COUNT implies -1 <= #[trigger] turned[q] <= 1 by {
        law_symmetry_is_one_to_one(q as usize, symmetry);
        assert(-1 <= cells[preimage(q as usize, symmetry) as int] <= 1);
    }
}

pub proof fn lemma_image_cell(cells: Seq<i8>, p: usize, symmetry: usize)
    requires
        p < CELL_COUNT,
    ensures
        image_cells(cells, symmetry)[image(p, symmetry) as int] == cells[p as int],
        image(p, symmetry) < CELL_COUNT,
{
    law_symmetry_is_one_to_one(p, symmetry);
}

/// A row and column on the board hold after a symmetry what they held, where
/// it takes them.
pub proof fn lemma_turned_cell(cells: Seq<i8>, row: int, col: int, symmetry: usize)
    requires
        0 <= row < 19,
        0 <= col < 19,
    ensures
        ({
            let (r, c) = turned(row, col, symmetry);
            &&& 0 <= r < 19
            &&& 0 <= c < 19
            &&& image_cells(cells, symmetry)[r * 19 + c] == cells[row * 19 + col]
        }),
{
    let p = at(row, col);
    lemma_at(row, col);
    lemma_image_cell(cells, p, symmetry);
    lemma_image_rows(p, symmetry);
}

/// The row and column of an image.
pub proof fn lemma_image_turned(p: usize, symmetry: usize)
    requires
        p < CELL_COUNT,
    ensures
        (image(p, symmetry) as int / 19, image(p, symmetry) as int % 19) == turned(
            p as int / 19,
            p as int % 19,
            symmetry,
        ),
{
    lemma_image_rows(p, symmetry);
}

proof fn lemma_image_member(s: Set<usize>, p: usize, symmetry: usize)
    requires
        p < CELL_COUNT,
    ensures
        image_set(s, symmetry).contains(image(p, symmetry)) == s.contains(p),
{
    law_symmetry_is_one_to_one(p, symmetry);
}

/// Equal images have equal originals.
proof fn lemma_image_cells_injective(a: Seq<i8>, b: Seq<i8>, symmetry: usize)
    requires
        a.len() == CELL_COUNT,
        b.len() == CELL_COUNT,
        image_cells(a, symmetry) == image_cells(b, symmetry),
    ensures
        a == b,
{
    assert forall|i: int| 0 <= i < CELL_COUNT implies a[i] == b[i] by {
        lemma_image_cell(a, i as usize, symmetry);
        lemma_image_cell(b, i as usize, symmetry);
    }
    assert(a =~= b);
}

proof fn lemma_image_points_with(cells: Seq<i8>, value: i8, symmetry: usize)
    ensures
        points_with(image_cells(cells, symmetry), value) == image_set(
            points_with(cells, value),
            symmetry,
        ),
{
    assert forall|q: usize|
        points_with(image_cells(cells, symmetry), value).contains(q) <==> image_set(
            points_with(cells, value),
            symmetry,
        ).contains(q) by {
        if q < CELL_COUNT {
            law_symmetry_is_one_to_one(q, symmetry);
        }
    }
    assert(points_with(image_cells(cells, symmetry), value) =~= image_set(
        points_with(cells, value),
        symmetry,
    ));
}

/// Components move with the board.
pub proof fn lemma_image_component(area: Set<usize>, start: usize, symmetry: usize)
    requires
        start < CELL_COUNT,
    ensures
        component(image_set(area, symmetry), image(start, symmetry)) == image_set(
            component(area, start),
            symmetry,
        ),
{
    let moved = image_set(area, symmetry);
    let from = image(start, symmetry);
    let c = component(area, start);
    let d = component(moved, from);
    law_symmetry_is_one_to_one(start, symmetry);
    lemma_component_basic(area, start);
    lemma_component_basic(moved, from);
    let ic = image_set(c, symmetry);
    assert(closed_within(moved, ic)) by {
        assert forall|p: usize, q: usize|
            #![trigger ic.contains(p), adjacent(p, q)]
            ic.contains(p) && adjacent(p, q) && moved.contains(q) implies ic.contains(q) by {
            law_symmetry_is_one_to_one(p, symmetry);
            law_symmetry_is_one_to_one(q, symmetry);
            let x = preimage(p, symmetry);
            let y = preimage(q, symmetry);
            law_symmetry_keeps_adjacency(x, y, symmetry);
            assert(c.contains(x) && adjacent(x, y) && area.contains(y));
        }
    }
    lemma_component_least(moved, from, ic);
    let pre = Set::new(|p: usize| p < CELL_COUNT && d.contains(image(p, symmetry)));
    assert(closed_within(area, pre)) by {
        assert forall|p: usize, q: usize|
            #![trigger pre.contains(p), adjacent(p, q)]
            pre.contains(p) && adjacent(p, q) && area.contains(q) implies pre.contains(q) by {
            law_symmetry_is_one_to_one(p, symmetry);
            law_symmetry_is_one_to_one(q, symmetry);
            law_symmetry_keeps_adjacency(p, q, symmetry);
            lemma_image_member(area, q, symmetry);
            assert(d.contains(image(p, symmetry)) && adjacent(
                image(p, symmetry),
                image(q, symmetry),
            ));
        }
    }
    lemma_component_least(area, start, pre);
    assert forall|q: usize| ic.contains(q) implies d.contains(q) by {
        law_symmetry_is_one_to_one(q, symmetry);
        let x = preimage(q, symmetry);
        assert(pre.contains(x));
    }
    assert(d =~= ic);
}

pub proof fn lemma_image_same_component(cells: Seq<i8>, p: usize, symmetry: usize)
    requires
        p < CELL_COUNT,
    ensures
        same_component(image_cells(cells, symmetry), image(p, symmetry)) == image_set(
            same_component(cells, p),
            symmetry,
        ),
{
    lemma_image_cell(cells, p, symmetry);
    lemma_image_points_with(cells, cells[p as int], symmetry);
    lemma_image_component(points_with(cells, cells[p as int]), p, symmetry);
}

proof fn lemma_image_border(area: Set<usize>, s: Set<usize>, symmetry: usize)
    requires
        forall|p: usize| #[trigger] s.contains(p) ==> p < CELL_COUNT,
    ensures
        border_of(image_set(area, symmetry), image_set(s, symmetry)) == image_set(
            border_of(area, s),
            symmetry,
        ),
{
    let a = border_of(image_set(area, symmetry), image_set(s, symmetry));
    let b = image_set(border_of(area, s), symmetry);
    assert forall|q: usize| a.contains(q) implies b.contains(q) by {
        let p = choose|p: usize| image_set(s, symmetry).contains(p) && #[trigger] adjacent(p, q);
        law_symmetry_is_one_to_one(p, symmetry);
        law_symmetry_is_one_to_one(q, symmetry);
        let x = preimage(p, symmetry);
        let y = preimage(q, symmetry);
        law_symmetry_keeps_adjacency(x, y, symmetry);
        assert(s.contains(x) && adjacent(x, y));
    }
    assert forall|q: usize| b.contains(q) implies a.contains(q) by {
        law_symmetry_is_one_to_one(q, symmetry);
        let y = preimage(q, symmetry);
        let x = choose|x: usize| s.contains(x) && #[trigger] adjacent(x, y);
        law_symmetry_is_one_to_one(x, symmetry);
        law_symmetry_keeps_adjacency(x, y, symmetry);
        let p = image(x, symmetry);
        assert(image_set(s, symmetry).contains(p) && adjacent(p, q));
    }
    assert(a =~= b);
}

/// Liberties move with the board.
pub proof fn lemma_image_liberties(cells: Seq<i8>, p: usize, symmetry: usize)
    requires
        p < CELL_COUNT,
    ensures
        liberties_of(image_cells(cells, symmetry), image(p, symmetry)) == image_set(
            liberties_of(cells, p),
            symmetry,
        ),
        has_liberty(image_cells(cells, symmetry), image(p, symmetry)) == has_liberty(cells, p),
{
    let moved = image_cells(cells, symmetry);
    lemma_image_same_component(cells, p, symmetry);
    lemma_image_points_with(cells, 0, symmetry);
    lemma_component_basic(points_with(cells, cells[p as int]), p);
    lemma_image_border(points_with(cells, 0), same_component(cells, p), symmetry);
    if has_liberty(cells, p) {
        let q = choose|q: usize| #[trigger] liberties_of(cells, p).contains(q);
        lemma_image_member(liberties_of(cells, p), q, symmetry);
        assert(liberties_of(moved, image(p, symmetry)).contains(image(q, symmetry)));
    }
    if has_liberty(moved, image(p, symmetry)) {
        let q = choose|q: usize| #[trigger] liberties_of(moved, image(p, symmetry)).contains(q);
        assert(liberties_of(cells, p).contains(preimage(q, symmetry)));
    }
}

proof fn lemma_image_down(cells: Seq<i8>, point: usize, player: Player, symmetry: usize)
    requires
        cells.len() == CELL_COUNT,
        point < CELL_COUNT,
    ensures
        stone_down(image_cells(cells, symmetry), image(point, symmetry), player) == image_cells(
            stone_down(cells, point, player),
            symmetry,
        ),
{
    let a = stone_down(image_cells(cells, symmetry), image(point, symmetry), player);
    let b = image_cells(stone_down(cells, point, player), symmetry);
    assert forall|q: int| 0 <= q < CELL_COUNT implies a[q] == b[q] by {
        law_symmetry_is_one_to_one(q as usize, symmetry);
        law_symmetry_is_one_to_one(point, symmetry);
    }
    assert(a =~= b);
}

pub proof fn lemma_image_captured(cells: Seq<i8>, point: usize, player: Player, symmetry: usize)
    requires
        cells.len() == CELL_COUNT,
        point < CELL_COUNT,
        cells[point as int] == 0,
    ensures
        captured_by(image_cells(cells, symmetry), image(point, symmetry), player) == image_set(
            captured_by(cells, point, player),
            symmetry,
        ),
{
    let down = stone_down(cells, point, player);
    let moved = image_cells(down, symmetry);
    let to = image(point, symmetry);
    let enemy = player.opponent().mark();
    lemma_image_down(cells, point, player, symmetry);
    law_symmetry_is_one_to_one(point, symmetry);
    lemma_image_cell(cells, point, symmetry);
    let a = captured_by(image_cells(cells, symmetry), to, player);
    let b = image_set(captured_by(cells, point, player), symmetry);
    lemma_captured_color(image_cells(cells, symmetry), to, player);
    assert forall|q: usize| a.contains(q) implies b.contains(q) by {
        let n = choose|n: usize|
            {
                &&& #[trigger] adjacent(to, n)
                &&& moved[n as int] == enemy
                &&& !has_liberty(moved, n)
                &&& same_component(moved, n).contains(q)
            };
        law_symmetry_is_one_to_one(n, symmetry);
        law_symmetry_is_one_to_one(q, symmetry);
        let m = preimage(n, symmetry);
        law_symmetry_keeps_adjacency(point, m, symmetry);
        lemma_image_cell(down, m, symmetry);
        lemma_image_liberties(down, m, symmetry);
        lemma_image_same_component(down, m, symmetry);
        assert(adjacent(point, m) && same_component(down, m).contains(preimage(q, symmetry)));
    }
    assert forall|q: usize| b.contains(q) implies a.contains(q) by {
        law_symmetry_is_one_to_one(q, symmetry);
        let x = preimage(q, symmetry);
        let m = choose|m: usize|
            {
                &&& #[trigger] adjacent(point, m)
                &&& down[m as int] == enemy
                &&& !has_liberty(down, m)
                &&& same_component(down, m).contains(x)
            };
        law_symmetry_keeps_adjacency(point, m, symmetry);
        lemma_image_cell(down, m, symmetry);
        lemma_image_liberties(down, m, symmetry);
        lemma_image_same_component(down, m, symmetry);
        assert(adjacent(to, image(m, symmetry)));
    }
    assert(a =~= b);
}

pub proof fn lemma_image_after(cells: Seq<i8>, point: usize, player: Player, symmetry: usize)
    requires
        cells.len() == CELL_COUNT,
        point < CELL_COUNT,
        cells[point as int] == 0,
    ensures
        after_placement(image_cells(cells, symmetry), image(point, symmetry), player)
            == image_cells(after_placement(cells, point, player), symmetry),
{
    lemma_image_captured(cells, point, player, symmetry);
    lemma_image_down(cells, point, player, symmetry);
    let a = after_placement(image_cells(cells, symmetry), image(point, symmetry), player);
    let b = image_cells(after_placement(cells, point, player), symmetry);
    assert forall|q: int| 0 <= q < CELL_COUNT implies a[q] == b[q] by {
        law_symmetry_is_one_to_one(q as usize, symmetry);
    }
    assert(a =~= b);
}

/// Placing a stone commutes with turning the board.
pub proof fn law_placement_commutes_with_symmetry(
    board: BoardView,
    mv: Move,
    player: Player,
    symmetry: usize,
)
    requires
        board.wf(),
        mv.0 < CELL_COUNT,
    ensures
        board.imaged(symmetry).placed(Move(image(mv.0, symmetry)), player) == (match board.placed(
            mv,
            player,
        ) {
            Some(after) => Some(image_cells(after, symmetry)),
            None => None,
        }),
{
    let p = mv.0;
    let cells = board.cells;
    let moved = board.imaged(symmetry);
    law_symmetry_is_one_to_one(p, symmetry);
    lemma_image_cell(cells, p, symmetry);
    if cells[p as int] == 0 {
        let after = after_placement(cells, p, player);
        lemma_image_after(cells, p, player, symmetry);
        lemma_image_liberties(after, p, symmetry);
        if board.history.contains(after) {
            let i = board.history.index_of(after);
            assert(moved.history[i] == image_cells(after, symmetry));
        }
        if moved.history.contains(image_cells(after, symmetry)) {
            let i = moved.history.index_of(image_cells(after, symmetry));
            assert(valid_cells(board.history[i]));
            lemma_image_cells_injective(board.history[i], after, symmetry);
            assert(board.history[i] == after);
        }
    }
}

/// An action is legal exactly if its image is legal on the turned board.
pub proof fn law_legality_commutes_with_symmetry(board: BoardView, mv: Move, symmetry: usize)
    requires
        board.wf(),
        mv.0 <= CELL_COUNT,
    ensures
        board.imaged(symmetry).legal(Move(image(mv.0, symmetry))) == board.legal(mv),
{
    if mv.0 < CELL_COUNT {
        law_placement_commutes_with_symmetry(board, mv, board.to_move, symmetry);
        law_symmetry_is_one_to_one(mv.0, symmetry);
    }
}

/// Playing and then turning the board is turning it and then playing.
pub proof fn law_play_commutes_with_symmetry(board: BoardView, mv: Move, symmetry: usize)
    requires
        board.wf(),
        mv.0 <= CELL_COUNT,
        board.legal(mv),
    ensures
        board.imaged(symmetry).played(Move(image(mv.0, symmetry))) == board.played(mv).imaged(
            symmetry,
        ),
{
    let a = board.imaged(symmetry).played(Move(image(mv.0, symmetry)));
    let b = board.played(mv).imaged(symmetry);
    if mv.0 < CELL_COUNT {
        law_placement_commutes_with_symmetry(board, mv, board.to_move, symmetry);
        law_symmetry_is_one_to_one(mv.0, symmetry);
    }
    assert(a.history =~= b.history);
    assert(a =~= b);
}

/// Empty regions move with the board.
proof fn lemma_image_region(cells: Seq<i8>, r: usize, symmetry: usize)
    requires
        r < CELL_COUNT,
    ensures
        region_of(image_cells(cells, symmetry), image(r, symmetry)) == image_set(
            region_of(cells, r),
            symmetry,
        ),
{
    lemma_image_points_with(cells, 0, symmetry);
    lemma_image_component(points_with(cells, 0), r, symmetry);
}

proof fn lemma_image_eye(
    cells: Seq<i8>,
    kept: Set<usize>,
    p: usize,
    r: usize,
    symmetry: usize,
)
    requires
        p < CELL_COUNT,
        eye_of(cells, kept, p, r),
    ensures
        eye_of(
            image_cells(cells, symmetry),
            image_set(kept, symmetry),
            image(p, symmetry),
            image(r, symmetry),
        ),
{
    let moved = image_cells(cells, symmetry);
    let a = image(r, symmetry);
    law_symmetry_is_one_to_one(p, symmetry);
    law_symmetry_is_one_to_one(r, symmetry);
    lemma_image_cell(cells, r, symmetry);
    lemma_image_cell(cells, p, symmetry);
    lemma_image_region(cells, r, symmetry);
    lemma_image_liberties(cells, p, symmetry);
    assert forall|q: usize, s: usize|
        region_of(moved, a).contains(q) && #[trigger] adjacent(q, s) && moved[s as int]
            != 0 implies image_set(kept, symmetry).contains(s) && moved[s as int] == moved[image(
        p,
        symmetry,
    ) as int] by {
        law_symmetry_is_one_to_one(q, symmetry);
        law_symmetry_is_one_to_one(s, symmetry);
        let x = preimage(q, symmetry);
        let y = preimage(s, symmetry);
        law_symmetry_keeps_adjacency(x, y, symmetry);
        assert(region_of(cells, r).contains(x) && adjacent(x, y));
    }
}

proof fn lemma_image_secure(cells: Seq<i8>, kept: Set<usize>, symmetry: usize)
    requires
        cells.len() == CELL_COUNT,
        secure(cells, kept),
    ensures
        secure(image_cells(cells, symmetry), image_set(kept, symmetry)),
{
    let moved = image_cells(cells, symmetry);
    let held = image_set(kept, symmetry);
    assert forall|q: usize| #[trigger] held.contains(q) implies {
        &&& q < CELL_COUNT
        &&& moved[q as int] != 0
        &&& same_component(moved, q).subset_of(held)
        &&& two_eyes(moved, held, q)
    } by {
        law_symmetry_is_one_to_one(q, symmetry);
        let p = preimage(q, symmetry);
        assert(kept.contains(p));
        lemma_image_same_component(cells, p, symmetry);
        let (a, b) = choose|a: usize, b: usize|
            {
                &&& #[trigger] eye_of(cells, kept, p, a)
                &&& #[trigger] eye_of(cells, kept, p, b)
                &&& region_of(cells, a) != region_of(cells, b)
            };
        lemma_image_eye(cells, kept, p, a, symmetry);
        lemma_image_eye(cells, kept, p, b, symmetry);
        lemma_image_region(cells, a, symmetry);
        lemma_image_region(cells, b, symmetry);
        lemma_component_basic(points_with(cells, 0), a);
        lemma_component_basic(points_with(cells, 0), b);
        let ra = region_of(cells, a);
        let rb = region_of(cells, b);
        if image_set(ra, symmetry) == image_set(rb, symmetry) {
            assert forall|x: usize| ra.contains(x) <==> rb.contains(x) by {
                if x < CELL_COUNT {
                    lemma_image_member(ra, x, symmetry);
                    lemma_image_member(rb, x, symmetry);
                }
            }
            assert(ra =~= rb);
        }
        assert(eye_of(moved, held, q, image(a, symmetry)) && eye_of(
            moved,
            held,
            q,
            image(b, symmetry),
        ));
    }
}

/// The symmetry that undoes this one, as a pair of inverse images.
proof fn lemma_image_back(cells: Seq<i8>, symmetry: usize) -> (back: usize)
    requires
        cells.len() == CELL_COUNT,
    ensures
        image_cells(image_cells(cells, symmetry), back) == cells,
        forall|p: usize|
            p < CELL_COUNT ==> image(#[trigger] image(p, symmetry), back) == p,
        forall|p: usize|
            p < CELL_COUNT ==> preimage(p, back) == #[trigger] image(p, symmetry),
{
    let back: usize = if (symmetry as int / 4) % 2 == 1 {
        (symmetry % 4 + 4) as usize
    } else {
        ((4 - symmetry as int % 4) % 4) as usize
    };
    assert forall|p: usize| p < CELL_COUNT implies image(#[trigger] image(p, symmetry), back) == p
        && preimage(p, back) == image(p, symmetry) by {
        lemma_back(p, symmetry, back);
    }
    let a = image_cells(image_cells(cells, symmetry), back);
    assert forall|i: int| 0 <= i < CELL_COUNT implies a[i] == cells[i] by {
        law_symmetry_is_one_to_one(i as usize, symmetry);
        law_symmetry_is_one_to_one(i as usize, back);
        assert(preimage(i as usize, back) == image(i as usize, symmetry));
    }
    assert(a =~= cells);
    back
}

#[verifier::spinoff_prover]
proof fn lemma_back(p: usize, symmetry: usize, back: usize)
    requires
        p < CELL_COUNT,
        (symmetry as int / 4) % 2 == 1 ==> back == symmetry % 4 + 4,
        (symmetry as int / 4) % 2 == 0 ==> back == (4 - symmetry as int % 4) % 4,
    ensures
        image(image(p, symmetry), back) == p,
        preimage(p, back) == image(p, symmetry),
{
    let row = p as int / 19;
    let col = p as int % 19;
    let turns = symmetry as int % 4;
    if (symmetry as int / 4) % 2 == 1 {
        assert((back as int / 4) % 2 == 1 && back as int % 4 == turns);
        if turns == 0 {
            lemma_at(row, 18 - col);
        } else if turns == 1 {
            lemma_at(18 - col, 18 - row);
        } else if turns == 2 {
            lemma_at(18 - row, col);
        } else {
            lemma_at(col, row);
        }
    } else {
        assert((back as int / 4) % 2 == 0 && back as int % 4 == (4 - turns) % 4);
        if turns == 0 {
            lemma_at(row, col);
        } else if turns == 1 {
            lemma_at(col, 18 - row);
        } else if turns == 2 {
            lemma_at(18 - row, 18 - col);
        } else {
            lemma_at(18 - col, row);
        }
    }
    lemma_at(row, col);
    assert(preimage(p, back) == image(p, symmetry));
}

/// Unconditional life moves with the board.
pub proof fn law_life_commutes_with_symmetry(cells: Seq<i8>, p: usize, symmetry: usize)
    requires
        cells.len() == CELL_COUNT,
        p < CELL_COUNT,
    ensures
        alive_at(image_cells(cells, symmetry), image(p, symmetry)) == alive_at(cells, p),
{
    let moved = image_cells(cells, symmetry);
    let q = image(p, symmetry);
    law_symmetry_is_one_to_one(p, symmetry);
    if alive_at(cells, p) {
        let kept = choose|kept: Set<usize>| #[trigger] secure(cells, kept) && kept.contains(p);
        lemma_image_secure(cells, kept, symmetry);
        assert(secure(moved, image_set(kept, symmetry)) && image_set(kept, symmetry).contains(q));
    }
    if alive_at(moved, q) {
        let kept = choose|kept: Set<usize>| #[trigger] secure(moved, kept) && kept.contains(q);
        let back = lemma_image_back(cells, symmetry);
        lemma_image_secure(moved, kept, back);
        assert(preimage(p, back) == image(p, symmetry));
        assert(secure(cells, image_set(kept, back)) && image_set(kept, back).contains(p));
    }
}

proof fn lemma_image_owner(cells: Seq<i8>, p: usize, symmetry: usize)
    requires
        p < CELL_COUNT,
    ensures
        owner_of(image_cells(cells, symmetry), image(p, symmetry)) == owner_of(cells, p),
{
    lemma_image_cell(cells, p, symmetry);
    lemma_image_sees(cells, p, Player::Black, symmetry);
    lemma_image_sees(cells, p, Player::White, symmetry);
}

proof fn lemma_image_sees(cells: Seq<i8>, p: usize, player: Player, symmetry: usize)
    requires
        p < CELL_COUNT,
    ensures
        sees(image_cells(cells, symmetry), image(p, symmetry), player) == sees(cells, p, player),
{
    let moved = image_cells(cells, symmetry);
    let to = image(p, symmetry);
    lemma_image_region(cells, p, symmetry);
    lemma_component_basic(points_with(cells, 0), p);
    if sees(cells, p, player) {
        let (q, s) = choose|q: usize, s: usize|
            region_of(cells, p).contains(q) && #[trigger] adjacent(q, s) && cells[s as int]
                == player.mark();
        law_symmetry_keeps_adjacency(q, s, symmetry);
        lemma_image_member(region_of(cells, p), q, symmetry);
        lemma_image_cell(cells, s, symmetry);
        assert(region_of(moved, to).contains(image(q, symmetry)) && adjacent(
            image(q, symmetry),
            image(s, symmetry),
        ));
    }
    if sees(moved, to, player) {
        let (q, s) = choose|q: usize, s: usize|
            region_of(moved, to).contains(q) && #[trigger] adjacent(q, s) && moved[s as int]
                == player.mark();
        law_symmetry_is_one_to_one(q, symmetry);
        law_symmetry_is_one_to_one(s, symmetry);
        law_symmetry_keeps_adjacency(preimage(q, symmetry), preimage(s, symmetry), symmetry);
        assert(region_of(cells, p).contains(preimage(q, symmetry)) && adjacent(
            preimage(q, symmetry),
            preimage(s, symmetry),
        ));
    }
}

/// The points below `n` that belong to `who`.
pub open spec fn owned(cells: Seq<i8>, who: int, n: nat) -> Set<usize> {
    Set::new(|p: usize| p < n && p < CELL_COUNT && owner_of(cells, p) == who)
}

pub proof fn lemma_owned(cells: Seq<i8>, n: nat)
    requires
        valid_cells(cells),
        n <= CELL_COUNT,
    ensures
        owned(cells, 1, n).finite(),
        owned(cells, -1, n).finite(),
        area_below(cells, n) == owned(cells, 1, n).len() - owned(cells, -1, n).len(),
    decreases n,
{
    if n == 0 {
        assert(owned(cells, 1, 0) =~= Set::<usize>::empty());
        assert(owned(cells, -1, 0) =~= Set::<usize>::empty());
    } else {
        let m = (n - 1) as nat;
        lemma_owned(cells, m);
        let p = m as usize;
        assert(-1 <= cells[p as int] <= 1);
        let o = owner_of(cells, p);
        if o == 1 {
            assert(owned(cells, 1, n) =~= owned(cells, 1, m).insert(p));
            assert(owned(cells, -1, n) =~= owned(cells, -1, m));
        } else if o == -1 {
            assert(owned(cells, -1, n) =~= owned(cells, -1, m).insert(p));
            assert(owned(cells, 1, n) =~= owned(cells, 1, m));
        } else {
            assert(owned(cells, 1, n) =~= owned(cells, 1, m));
            assert(owned(cells, -1, n) =~= owned(cells, -1, m));
        }
    }
}

/// A set and its image have the same number of points.
pub proof fn lemma_image_len(s: Set<usize>, symmetry: usize)
    requires
        s.finite(),
        forall|p: usize| #[trigger] s.contains(p) ==> p < CELL_COUNT,
    ensures
        image_set(s, symmetry).finite(),
        image_set(s, symmetry).len() == s.len(),
{
    let t = image_set(s, symmetry);
    let f = |p: usize| image(p, symmetry);
    assert forall|p: usize| #[trigger] s.contains(p) implies t.contains(f(p)) by {
        lemma_image_member(s, p, symmetry);
    }
    assert forall|q: usize| #[trigger] t.contains(q) implies exists|p: usize|
        s.contains(p) && q == f(p) by {
        law_symmetry_is_one_to_one(q, symmetry);
        let p = preimage(q, symmetry);
        assert(s.contains(p) && q == f(p));
    }
    assert forall|a: usize, b: usize| s.contains(a) && s.contains(b) && f(a) == f(b) implies a
        == b by {
        law_symmetry_is_one_to_one(a, symmetry);
        law_symmetry_is_one_to_one(b, symmetry);
    }
    assert(t =~= s.map(f));
    s.lemma_map_finite(f);
    vstd::set_lib::lemma_map_size(s, t, f);
}

/// Area counting does not depend on how the board is turned.
pub proof fn law_area_is_symmetric(cells: Seq<i8>, symmetry: usize)
    requires
        valid_cells(cells),
    ensures
        area_of(image_cells(cells, symmetry)) == area_of(cells),
{
    let moved = image_cells(cells, symmetry);
    lemma_image_valid(cells, symmetry);
    lemma_owned(cells, CELL_COUNT as nat);
    lemma_owned(moved, CELL_COUNT as nat);
    lemma_image_owned(cells, 1, symmetry);
    lemma_image_owned(cells, -1, symmetry);
    lemma_image_len(owned(cells, 1, CELL_COUNT as nat), symmetry);
    lemma_image_len(owned(cells, -1, CELL_COUNT as nat), symmetry);
}

proof fn lemma_image_owned(cells: Seq<i8>, who: int, symmetry: usize)
    ensures
        owned(image_cells(cells, symmetry), who, CELL_COUNT as nat) == image_set(
            owned(cells, who, CELL_COUNT as nat),
            symmetry,
        ),
{
    let a = owned(image_cells(cells, symmetry), who, CELL_COUNT as nat);
    let b = image_set(owned(cells, who, CELL_COUNT as nat), symmetry);
    assert forall|q: usize| a.contains(q) <==> b.contains(q) by {
        if q < CELL_COUNT {
            law_symmetry_is_one_to_one(q, symmetry);
            lemma_image_owner(cells, preimage(q, symmetry), symmetry);
        }
    }
    assert(a =~= b);
}

/// The symmetry that the sample in a place of a root evaluation is turned by.
pub open spec fn root_symmetry_of(seed: int, index: int) -> int {
    (seed + index * 3) % 8
}

pub fn root_symmetry(seed: u64, index: usize) -> (result: usize)
    requires
        index < 8,
    ensures
        result == root_symmetry_of(seed as int, index as int),
        result < 8,
{
    ((seed % 8) as usize + index * 3) % 8
}

/// Eight samples in a row are turned by eight different symmetries.
pub proof fn law_root_symmetries_differ(seed: int, i: int, j: int)
    requires
        0 <= i < j < 8,
    ensures
        root_symmetry_of(seed, i) != root_symmetry_of(seed, j),
{
}

/// Where each point comes from under a symmetry.
pub fn inverse_table(symmetry: usize) -> (table: Vec<usize>)
    ensures
        table@.len() == CELL_COUNT,
        forall|p: int|
            0 <= p < CELL_COUNT ==> #[trigger] table@[p] == preimage(p as usize, symmetry),
        forall|p: usize|
            p < CELL_COUNT ==> table@[#[trigger] image(p, symmetry) as int] == p,
{
    let mut table: Vec<usize> = Vec::with_capacity(CELL_COUNT);
    let mut k: usize = 0;
    while k < CELL_COUNT
        invariant
            k <= CELL_COUNT,
            table@.len() == k,
        decreases CELL_COUNT - k,
    {
        table.push(0);
        k = k + 1;
    }
    let mut p: usize = 0;
    while p < CELL_COUNT
        invariant
            p <= CELL_COUNT,
            table@.len() == CELL_COUNT,
            forall|q: usize| q < p ==> table@[#[trigger] image(q, symmetry) as int] == q,
        decreases CELL_COUNT - p,
    {
        let to: usize = transform_index(p, symmetry);
        proof {
            law_symmetry_is_one_to_one(p, symmetry);
            assert forall|q: usize| q < p implies #[trigger] image(q, symmetry) != to by {
                law_symmetry_is_one_to_one(q, symmetry);
            }
        }
        table.set(to, p);
        p = p + 1;
    }
    proof {
        assert forall|q: int| 0 <= q < CELL_COUNT implies #[trigger] table@[q] == preimage(
            q as usize,
            symmetry,
        ) by {
            law_symmetry_is_one_to_one(q as usize, symmetry);
            let from = preimage(q as usize, symmetry);
            assert(image(from, symmetry) == q);
        }
    }
    table
}

/// Points in one row and column are one.
proof fn lemma_same_point(p: usize, q: usize)
    requires
        p as int / 19 == q as int / 19,
        p as int % 19 == q as int % 19,
    ensures
        p == q,
{
}

proof fn lemma_image_inside(p: usize, symmetry: usize)
    requires
        p < CELL_COUNT,
    ensures
        image(p, symmetry) < CELL_COUNT,
{
    law_symmetry_is_one_to_one(p, symmetry);
}

/// The first symmetry is a quarter turn: rows become columns, and columns rows
/// from the other side. The next two are two and three of it, and four lead
/// back.
pub proof fn law_quarter_turns_add_up(p: usize)
    requires
        p < CELL_COUNT,
    ensures
        image(p, 0) == p,
        image(p, 1) as int / 19 == p as int % 19,
        image(p, 1) as int % 19 == 18 - p as int / 19,
        image(p, 2) == image(image(p, 1), 1),
        image(p, 3) == image(image(p, 2), 1),
        image(image(p, 3), 1) == p,
{
    lemma_image_turned(p, 0);
    lemma_image_turned(p, 1);
    lemma_image_turned(p, 2);
    lemma_image_turned(p, 3);
    lemma_image_inside(p, 1);
    lemma_image_inside(p, 2);
    lemma_image_inside(p, 3);
    lemma_image_turned(image(p, 1), 1);
    lemma_image_turned(image(p, 2), 1);
    lemma_image_turned(image(p, 3), 1);
    lemma_same_point(image(p, 0), p);
    lemma_same_point(image(p, 2), image(image(p, 1), 1));
    lemma_same_point(image(p, 3), image(image(p, 2), 1));
    lemma_same_point(image(image(p, 3), 1), p);
}

proof fn lemma_turned_mirrored(row: int, col: int, k: usize)
    requires
        k < 4,
    ensures
        turned(row, col, (4 + k) as usize) == turned(row, 18 - col, k),
        turned(row, col, 4) == (row, 18 - col),
{
}

/// The other four mirror the columns first and are then turned as the first
/// four; mirroring twice leads back.
pub proof fn law_mirrored_symmetries_are_turned(p: usize, k: usize)
    requires
        p < CELL_COUNT,
        k < 4,
    ensures
        image(p, 4) as int / 19 == p as int / 19,
        image(p, 4) as int % 19 == 18 - p as int % 19,
        image(image(p, 4), 4) == p,
        image(p, (4 + k) as usize) == image(image(p, 4), k),
{
    let mirrored = image(p, 4);
    let (row, col) = (p as int / 19, p as int % 19);
    lemma_image_turned(p, 4);
    lemma_image_inside(p, 4);
    lemma_turned_mirrored(row, col, 0);
    lemma_turned_mirrored(row, col, k);
    lemma_image_turned(mirrored, k);
    lemma_image_turned(mirrored, 4);
    lemma_turned_mirrored(row, 18 - col, 0);
    lemma_image_turned(p, (4 + k) as usize);
    lemma_same_point(image(mirrored, 4), p);
    lemma_same_point(image(p, (4 + k) as usize), image(mirrored, k));
}

/// Only the low three bits of a symmetry count.
pub proof fn law_symmetries_repeat_by_eight(p: usize, symmetry: usize)
    requires
        p < CELL_COUNT,
    ensures
        image(p, symmetry) == image(p, (symmetry % 8) as usize),
{
    let low = (symmetry % 8) as usize;
    assert(symmetry as int % 4 == low as int % 4 && (symmetry as int / 4) % 2 == (low as int / 4)
        % 2);
    lemma_image_turned(p, symmetry);
    lemma_image_turned(p, low);
    lemma_same_point(image(p, symmetry), image(p, low));
}

proof fn lemma_turned_differ(row: int, col: int, a: usize, b: usize)
    requires
        a < b < 8,
        row != 9,
        col != 9,
        row != col,
        row + col != 18,
    ensures
        turned(row, col, a) != turned(row, col, b),
{
    assert(a % 4 == a || a % 4 == a - 4);
    assert(b % 4 == b || b % 4 == b - 4);
}

/// The eight symmetries differ: a point off every axis of the board goes to
/// eight places.
pub proof fn law_symmetries_differ(p: usize, a: usize, b: usize)
    requires
        p < CELL_COUNT,
        a < b < 8,
        p as int / 19 != 9,
        p as int % 19 != 9,
        p as int / 19 != p as int % 19,
        p as int / 19 + p as int % 19 != 18,
    ensures
        image(p, a) != image(p, b),
{
    lemma_turned_differ(p as int / 19, p as int % 19, a, b);
    lemma_image_turned(p, a);
    lemma_image_turned(p, b);
}

} // verus!
