//! What a stone does to a position, told by the liberties that stood before it.
use crate::game::{
    after_placement, all_breathe, captured_by, has_liberty, lemma_captured_color, liberties_of,
    stone_down, valid_cells, BoardView, Move, Player,
};
use crate::grid::{
    adjacent, closed_within, lemma_adjacent_symmetric, lemma_component_basic, lemma_component_least,
    lemma_component_of_member, points_with, same_component, CELL_COUNT,
};
use vstd::prelude::*;

verus! {

/// The group of `n` has a liberty besides `p`.
pub open spec fn other_liberty(cells: Seq<i8>, n: usize, p: usize) -> bool {
    exists|q: usize| q != p && #[trigger] liberties_of(cells, n).contains(q)
}

/// The cells once the player's stone stands on `p`: gone are the opponent's
/// stones that had no liberty but `p`.
pub open spec fn stone_taken(cells: Seq<i8>, p: usize, player: Player) -> Seq<i8> {
    Seq::new(
        CELL_COUNT as nat,
        |i: int|
            if i == p {
                player.mark()
            } else if cells[i] == player.opponent().mark() && !other_liberty(
                cells,
                i as usize,
                p,
            ) {
                0i8
            } else {
                cells[i]
            },
    )
}

/// Beside `p` there is an empty point, an own group with a liberty besides
/// `p`, or a group of the opponent without one.
pub open spec fn has_breath(cells: Seq<i8>, p: usize, player: Player) -> bool {
    exists|n: usize|
        #[trigger] adjacent(p, n) && (cells[n as int] == 0 || (cells[n as int] == player.mark()
            && other_liberty(cells, n, p)) || (cells[n as int] == player.opponent().mark()
            && !other_liberty(cells, n, p)))
}

/// Points are next to each other if they differ by one in their row or in
/// their column, and in nothing else.
pub proof fn law_neighbors_are_one_step_away(p: usize, q: usize)
    requires
        p < CELL_COUNT,
        q < CELL_COUNT,
    ensures
        adjacent(p, q) <==> ({
            let rows = p as int / 19 - q as int / 19;
            let cols = p as int % 19 - q as int % 19;
            (rows == 0 && (cols == 1 || cols == -1)) || (cols == 0 && (rows == 1 || rows == -1))
        }),
{
}

proof fn lemma_enemy_liberties(cells: Seq<i8>, p: usize, player: Player, n: usize)
    requires
        valid_cells(cells),
        p < CELL_COUNT,
        cells[p as int] == 0,
        n < CELL_COUNT,
        cells[n as int] == player.opponent().mark(),
    ensures
        same_component(stone_down(cells, p, player), n) == same_component(cells, n),
        has_liberty(stone_down(cells, p, player), n) == other_liberty(cells, n, p),
{
    let down = stone_down(cells, p, player);
    let enemy = player.opponent().mark();
    assert(points_with(down, enemy) =~= points_with(cells, enemy));
    assert(liberties_of(down, n) =~= liberties_of(cells, n).remove(p)) by {
        assert(points_with(down, 0) =~= points_with(cells, 0).remove(p));
    }
    if has_liberty(down, n) {
        let q = choose|q: usize| #[trigger] liberties_of(down, n).contains(q);
        assert(q != p && liberties_of(cells, n).contains(q));
    }
    if other_liberty(cells, n, p) {
        let q = choose|q: usize| q != p && #[trigger] liberties_of(cells, n).contains(q);
        assert(liberties_of(down, n).contains(q));
    }
}

proof fn lemma_taken(cells: Seq<i8>, p: usize, player: Player, q: usize)
    requires
        valid_cells(cells),
        all_breathe(cells),
        p < CELL_COUNT,
        cells[p as int] == 0,
        q < CELL_COUNT,
    ensures
        captured_by(cells, p, player).contains(q) <==> cells[q as int] == player.opponent().mark()
            && !other_liberty(cells, q, p),
{
    let down = stone_down(cells, p, player);
    let enemy = player.opponent().mark();
    let area = points_with(cells, enemy);
    lemma_captured_color(cells, p, player);
    if captured_by(cells, p, player).contains(q) {
        let n = choose|n: usize|
            {
                &&& #[trigger] adjacent(p, n)
                &&& down[n as int] == enemy
                &&& !has_liberty(down, n)
                &&& same_component(down, n).contains(q)
            };
        lemma_enemy_liberties(cells, p, player, n);
        lemma_component_of_member(area, n, q);
        assert(liberties_of(cells, q) == liberties_of(cells, n));
        if other_liberty(cells, q, p) {
            let l = choose|l: usize| l != p && #[trigger] liberties_of(cells, q).contains(l);
            assert(liberties_of(cells, n).contains(l));
        }
    }
    if cells[q as int] == enemy && !other_liberty(cells, q, p) {
        assert(has_liberty(cells, q));
        let l = choose|l: usize| #[trigger] liberties_of(cells, q).contains(l);
        assert(l == p);
        let x = choose|x: usize| same_component(cells, q).contains(x) && #[trigger] adjacent(x, p);
        lemma_adjacent_symmetric(x, p);
        lemma_component_of_member(area, q, x);
        lemma_component_basic(area, q);
        assert(liberties_of(cells, x) == liberties_of(cells, q));
        if other_liberty(cells, x, p) {
            let m = choose|m: usize| m != p && #[trigger] liberties_of(cells, x).contains(m);
            assert(liberties_of(cells, q).contains(m));
        }
        lemma_enemy_liberties(cells, p, player, x);
        assert(adjacent(p, x) && same_component(down, x).contains(q));
    }
}

proof fn lemma_breath(cells: Seq<i8>, p: usize, player: Player)
    requires
        valid_cells(cells),
        all_breathe(cells),
        p < CELL_COUNT,
        cells[p as int] == 0,
    ensures
        after_placement(cells, p, player) == stone_taken(cells, p, player),
        has_liberty(after_placement(cells, p, player), p) == has_breath(cells, p, player),
{
    let after = after_placement(cells, p, player);
    let mark = player.mark();
    let area = points_with(after, mark);
    let old_area = points_with(cells, mark);
    assert forall|q: usize| q < CELL_COUNT implies captured_by(cells, p, player).contains(q) == (
    cells[q as int] == player.opponent().mark() && !#[trigger] other_liberty(cells, q, p)) by {
        lemma_taken(cells, p, player, q);
    }
    lemma_captured_color(cells, p, player);
    assert forall|i: int| 0 <= i < CELL_COUNT implies after[i] == stone_taken(cells, p, player)[i] by {
        lemma_taken(cells, p, player, i as usize);
    }
    assert(after =~= stone_taken(cells, p, player));
    let group = same_component(after, p);
    lemma_component_basic(area, p);
    assert(after[p as int] == mark);
    if has_breath(cells, p, player) {
        let n = choose|n: usize|
            #[trigger] adjacent(p, n) && (cells[n as int] == 0 || (cells[n as int] == mark
                && other_liberty(cells, n, p)) || (cells[n as int] == player.opponent().mark()
                && !other_liberty(cells, n, p)));
        if cells[n as int] == mark {
            let l = choose|l: usize| l != p && #[trigger] liberties_of(cells, n).contains(l);
            let x = choose|x: usize|
                same_component(cells, n).contains(x) && #[trigger] adjacent(x, l);
            assert(after[n as int] == mark);
            assert(group.contains(p) && adjacent(p, n) && area.contains(n));
            assert(group.contains(n));
            assert forall|y: usize| old_area.contains(y) implies #[trigger] area.contains(y) by {
                assert(after[y as int] == mark);
            }
            assert(closed_within(old_area, group));
            lemma_component_least(old_area, n, group);
            assert(group.contains(x));
            assert(after[l as int] == 0);
            assert(liberties_of(after, p).contains(l));
        } else {
            assert(after[n as int] == 0);
            assert(liberties_of(after, p).contains(n));
        }
    }
    if has_liberty(after, p) && !has_breath(cells, p, player) {
        let q = choose|q: usize| #[trigger] liberties_of(after, p).contains(q);
        let x = choose|x: usize| group.contains(x) && #[trigger] adjacent(x, q);
        let s = Set::new(
            |y: usize|
                y == p || (y < CELL_COUNT && cells[y as int] == mark && !other_liberty(
                    cells,
                    y,
                    p,
                )),
        );
        assert(closed_within(area, s)) by {
            assert forall|a: usize, b: usize|
                #![trigger s.contains(a), adjacent(a, b)]
                s.contains(a) && adjacent(a, b) && area.contains(b) implies s.contains(b) by {
                if b != p {
                    assert(cells[b as int] == mark);
                    if a == p {
                        assert(!other_liberty(cells, b, p));
                    } else {
                        lemma_component_basic(old_area, a);
                        assert(same_component(cells, a).contains(b));
                        lemma_component_of_member(old_area, a, b);
                        assert(liberties_of(cells, a) == liberties_of(cells, b));
                        if other_liberty(cells, b, p) {
                            let l = choose|l: usize|
                                l != p && #[trigger] liberties_of(cells, b).contains(l);
                            assert(liberties_of(cells, a).contains(l));
                        }
                    }
                }
            }
        }
        lemma_component_least(area, p, s);
        assert(s.contains(x));
        assert(after[q as int] == 0 && q < CELL_COUNT);
        if captured_by(cells, p, player).contains(q) {
            let n = choose|n: usize|
                {
                    &&& #[trigger] adjacent(p, n)
                    &&& stone_down(cells, p, player)[n as int] == player.opponent().mark()
                    &&& !has_liberty(stone_down(cells, p, player), n)
                    &&& same_component(stone_down(cells, p, player), n).contains(q)
                };
            lemma_enemy_liberties(cells, p, player, n);
            assert(adjacent(p, n) && !other_liberty(cells, n, p));
        } else {
            assert(cells[q as int] == 0);
            if x == p {
                assert(adjacent(p, q));
            } else {
                lemma_component_basic(old_area, x);
                assert(liberties_of(cells, x).contains(q));
            }
        }
        assert(false);
    }
}

/// A stone may be put on an empty point if and only if it has breath there and
/// the position has not occurred before; it takes the opponent's stones whose
/// last liberty it fills, and changes nothing else.
pub proof fn law_what_a_stone_does(board: BoardView, p: usize, player: Player)
    requires
        board.wf(),
        all_breathe(board.cells),
        p < CELL_COUNT,
    ensures
        ({
            let after = stone_taken(board.cells, p, player);
            if board.cells[p as int] == 0 && has_breath(board.cells, p, player)
                && !board.history.contains(after) {
                board.placed(Move(p), player) == Some(after)
            } else {
                board.placed(Move(p), player) is None
            }
        }),
        !board.finished() ==> (board.legal(Move(p)) <==> board.placed(
            Move(p),
            board.to_move,
        ) is Some),
        board.legal(Move(p)) ==> board.played(Move(p)).cells == stone_taken(
            board.cells,
            p,
            board.to_move,
        ),
{
    if board.cells[p as int] == 0 {
        lemma_breath(board.cells, p, player);
        lemma_breath(board.cells, p, board.to_move);
    }
}

} // verus!
