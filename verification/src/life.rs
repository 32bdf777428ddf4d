//! What unconditional life is worth: stones that have it are never captured,
//! whatever the opponent plays, while their owner always passes.
use crate::benson::{alive_at, eye_of, region_of, secure, two_eyes};
use crate::game::{
    after_placement, captured_by, has_liberty, liberties_of, stone_down, valid_cells, BoardView,
    Move, Player,
};
use crate::grid::{
    adjacent, closed_within, component, lemma_component_basic, lemma_component_least,
    lemma_component_of_member, lemma_components_meet, points_with, same_component, CELL_COUNT,
};
use vstd::prelude::*;

verus! {

/// The board after actions that are taken one after the other.
pub open spec fn after_all(board: BoardView, moves: Seq<Move>) -> BoardView
    decreases moves.len(),
{
    if moves.len() == 0 {
        board
    } else {
        after_all(board.played(moves[0]), moves.drop_first())
    }
}

/// Every action is legal when it is taken, and the owner only passes.
pub open spec fn owner_passes(board: BoardView, moves: Seq<Move>, owner: Player) -> bool
    decreases moves.len(),
{
    moves.len() == 0 || {
        &&& board.legal(moves[0])
        &&& board.to_move == owner ==> moves[0] == Move::pass_move()
        &&& owner_passes(board.played(moves[0]), moves.drop_first(), owner)
    }
}

/// The kept stones of a color still stand, and every eye that one of their
/// chains had still has an empty point.
spec fn held(start: Seq<i8>, kept: Set<usize>, owner: Player, now: Seq<i8>) -> bool {
    &&& now.len() == CELL_COUNT
    &&& forall|s: usize| #[trigger]
        kept.contains(s) && start[s as int] == owner.mark() ==> now[s as int] == owner.mark()
    &&& forall|p: usize, r: usize|
        kept.contains(p) && start[p as int] == owner.mark() && #[trigger] eye_of(
            start,
            kept,
            p,
            r,
        ) ==> has_empty(start, r, now)
}

spec fn has_empty(start: Seq<i8>, r: usize, now: Seq<i8>) -> bool {
    exists|q: usize| #[trigger] region_of(start, r).contains(q) && now[q as int] == 0
}

proof fn lemma_held_at_first(start: Seq<i8>, kept: Set<usize>, owner: Player)
    requires
        start.len() == CELL_COUNT,
        secure(start, kept),
    ensures
        held(start, kept, owner, start),
{
    assert forall|p: usize, r: usize|
        kept.contains(p) && start[p as int] == owner.mark() && #[trigger] eye_of(
            start,
            kept,
            p,
            r,
        ) implies has_empty(start, r, start) by {
        lemma_component_basic(points_with(start, 0), r);
        assert(region_of(start, r).contains(r));
    }
}

/// A chain of which every stone still stands is still one chain.
proof fn lemma_chain_stays(start: Seq<i8>, now: Seq<i8>, s: usize)
    requires
        s < CELL_COUNT,
        start[s as int] != 0,
        forall|x: usize| #[trigger]
            same_component(start, s).contains(x) ==> now[x as int] == start[s as int],
    ensures
        same_component(start, s).subset_of(same_component(now, s)),
{
    let color = start[s as int];
    let old_area = points_with(start, color);
    let area = points_with(now, color);
    let chain = component(old_area, s);
    let grown = component(area, s);
    lemma_component_basic(old_area, s);
    lemma_component_basic(area, s);
    assert(same_component(start, s).contains(s));
    let both = chain.intersect(grown);
    assert(closed_within(old_area, both)) by {
        assert forall|p: usize, q: usize|
            #![trigger both.contains(p), adjacent(p, q)]
            both.contains(p) && adjacent(p, q) && old_area.contains(q) implies both.contains(q) by {
            assert(same_component(start, s).contains(q));
            assert(area.contains(q));
            assert(grown.contains(q));
        }
    }
    lemma_component_least(old_area, s, both);
}

/// A kept stone has a liberty after the opponent has put a stone down: of its
/// two eyes one was not played in.
proof fn lemma_still_breathes(
    start: Seq<i8>,
    kept: Set<usize>,
    owner: Player,
    now: Seq<i8>,
    point: usize,
    s: usize,
)
    requires
        start.len() == CELL_COUNT,
        secure(start, kept),
        held(start, kept, owner, now),
        point < CELL_COUNT,
        now[point as int] == 0,
        kept.contains(s),
        start[s as int] == owner.mark(),
    ensures
        has_liberty(stone_down(now, point, owner.opponent()), s),
{
    let down = stone_down(now, point, owner.opponent());
    let empties = points_with(start, 0);
    assert(two_eyes(start, kept, s));
    let (a, b) = choose|a: usize, b: usize|
        {
            &&& #[trigger] eye_of(start, kept, s, a)
            &&& #[trigger] eye_of(start, kept, s, b)
            &&& region_of(start, a) != region_of(start, b)
        };
    let r = if region_of(start, a).contains(point) {
        b
    } else {
        a
    };
    assert(eye_of(start, kept, s, r));
    assert(!region_of(start, r).contains(point)) by {
        if region_of(start, a).contains(point) && region_of(start, b).contains(point) {
            lemma_components_meet(empties, a, b, point);
        }
    }
    assert(has_empty(start, r, now));
    let q = choose|q: usize| #[trigger] region_of(start, r).contains(q) && now[q as int] == 0;
    lemma_component_basic(empties, r);
    assert(q < CELL_COUNT && q != point);
    assert(down[q as int] == 0);
    assert(liberties_of(start, s).contains(q));
    let x = choose|x: usize| same_component(start, s).contains(x) && #[trigger] adjacent(x, q);
    assert(same_component(start, s).subset_of(kept));
    assert forall|y: usize| #[trigger] same_component(start, s).contains(y) implies down[y as int]
        == start[s as int] by {
        lemma_component_basic(points_with(start, start[s as int]), s);
        assert(kept.contains(y));
        assert(start[y as int] == owner.mark());
        assert(now[y as int] == owner.mark());
    }
    lemma_chain_stays(start, down, s);
    assert(same_component(down, s).contains(x));
    assert(liberties_of(down, s).contains(q));
}

/// A legal stone of the opponent captures no kept stone and leaves every eye
/// an empty point.
proof fn lemma_siege_step(
    start: Seq<i8>,
    kept: Set<usize>,
    owner: Player,
    now: Seq<i8>,
    point: usize,
)
    requires
        start.len() == CELL_COUNT,
        secure(start, kept),
        held(start, kept, owner, now),
        point < CELL_COUNT,
        now[point as int] == 0,
        has_liberty(after_placement(now, point, owner.opponent()), point),
    ensures
        held(start, kept, owner, after_placement(now, point, owner.opponent())),
{
    let attacker = owner.opponent();
    let down = stone_down(now, point, attacker);
    let captured = captured_by(now, point, attacker);
    let after = after_placement(now, point, attacker);
    assert forall|s: usize| #[trigger]
        kept.contains(s) && start[s as int] == owner.mark() implies after[s as int]
        == owner.mark() by {
        assert(now[s as int] == owner.mark());
        assert(down[s as int] == owner.mark());
        if captured.contains(s) {
            let n = choose|n: usize|
                {
                    &&& #[trigger] adjacent(point, n)
                    &&& down[n as int] == owner.mark()
                    &&& !has_liberty(down, n)
                    &&& same_component(down, n).contains(s)
                };
            lemma_still_breathes(start, kept, owner, now, point, s);
            lemma_component_of_member(points_with(down, owner.mark()), n, s);
            assert(same_component(down, s) == same_component(down, n));
            let q = choose|q: usize| #[trigger] liberties_of(down, s).contains(q);
            assert(liberties_of(down, n).contains(q));
        }
    }
    assert forall|p: usize, r: usize|
        kept.contains(p) && start[p as int] == owner.mark() && #[trigger] eye_of(
            start,
            kept,
            p,
            r,
        ) implies has_empty(start, r, after) by {
        assert(has_empty(start, r, now));
        let q = choose|q: usize| #[trigger] region_of(start, r).contains(q) && now[q as int] == 0;
        let region = region_of(start, r);
        lemma_component_basic(points_with(start, 0), r);
        if region.contains(point) {
            let area = points_with(after, attacker.mark());
            let l = choose|l: usize| #[trigger] liberties_of(after, point).contains(l);
            assert(after[point as int] == attacker.mark()) by {
                if captured.contains(point) {
                    lemma_captured_is_owned(now, point, attacker, point);
                }
            }
            assert(closed_within(area, region)) by {
                assert forall|x: usize, y: usize|
                    #![trigger region.contains(x), adjacent(x, y)]
                    region.contains(x) && adjacent(x, y) && area.contains(y) implies region.contains(
                    y,
                ) by {
                    if start[y as int] != 0 {
                        assert(kept.contains(y) && start[y as int] == start[p as int]);
                        assert(after[y as int] == owner.mark());
                    } else {
                        assert(points_with(start, 0).contains(y));
                    }
                }
            }
            lemma_component_least(area, point, region);
            let x = choose|x: usize|
                same_component(after, point).contains(x) && #[trigger] adjacent(x, l);
            assert(region.contains(x));
            assert(region.contains(l)) by {
                if start[l as int] != 0 {
                    assert(kept.contains(l) && start[l as int] == start[p as int]);
                    assert(after[l as int] == owner.mark());
                } else {
                    assert(points_with(start, 0).contains(l));
                }
            }
            assert(after[l as int] == 0);
        } else {
            assert(q != point);
            assert(down[q as int] == 0);
            assert(after[q as int] == 0);
        }
    }
}

/// What a stone captures is of the opponent's color.
proof fn lemma_captured_is_owned(now: Seq<i8>, point: usize, attacker: Player, s: usize)
    requires
        now.len() == CELL_COUNT,
        point < CELL_COUNT,
        captured_by(now, point, attacker).contains(s),
    ensures
        stone_down(now, point, attacker)[s as int] == attacker.opponent().mark(),
{
    let down = stone_down(now, point, attacker);
    let n = choose|n: usize|
        {
            &&& #[trigger] adjacent(point, n)
            &&& down[n as int] == attacker.opponent().mark()
            &&& !has_liberty(down, n)
            &&& same_component(down, n).contains(s)
        };
    lemma_component_basic(points_with(down, down[n as int]), n);
}

proof fn lemma_siege(
    start: Seq<i8>,
    kept: Set<usize>,
    owner: Player,
    board: BoardView,
    moves: Seq<Move>,
)
    requires
        start.len() == CELL_COUNT,
        secure(start, kept),
        held(start, kept, owner, board.cells),
        owner_passes(board, moves, owner),
    ensures
        held(start, kept, owner, after_all(board, moves).cells),
    decreases moves.len(),
{
    if moves.len() > 0 {
        let mv = moves[0];
        if mv != Move::pass_move() {
            assert(board.to_move == owner.opponent());
            assert(board.placed(mv, board.to_move) is Some);
            lemma_siege_step(start, kept, owner, board.cells, mv.0);
        }
        lemma_siege(start, kept, owner, board.played(mv), moves.drop_first());
    }
}

/// Unconditional life: a stone that is alive stands after any course of the
/// game in which its owner only passes.
pub proof fn law_living_stones_are_never_captured(
    board: BoardView,
    p: usize,
    owner: Player,
    moves: Seq<Move>,
)
    requires
        valid_cells(board.cells),
        alive_at(board.cells, p),
        board.cells[p as int] == owner.mark(),
        owner_passes(board, moves, owner),
    ensures
        after_all(board, moves).cells[p as int] == owner.mark(),
{
    let start = board.cells;
    let kept = choose|kept: Set<usize>| #[trigger] secure(start, kept) && kept.contains(p);
    lemma_held_at_first(start, kept, owner);
    lemma_siege(start, kept, owner, board, moves);
    assert(kept.contains(p));
}

} // verus!
