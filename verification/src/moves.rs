//! Legal moves of a whole position: the chains are indexed once, and each
//! candidate merges the neighboring chains and their liberties as bit sets.
use crate::game::{
    after_placement, captured_by, has_liberty, lemma_captured_color, liberties_of, occurred,
    stone_down, Board, BoardView, Move, Player, ACTION_COUNT,
};
use crate::grid::{
    adjacent, border_of, closed_within, component, lemma_adjacent_symmetric, lemma_component_basic,
    lemma_component_least, lemma_neighbors, neighbors, neighbors_of, points_with, same_component,
    CELL_COUNT,
};
use crate::points::{members, PointSet};
use crate::chains::{
    chain_at, chain_list, chain_views, chains, lemma_chain_at, lemma_chain_of_stone,
    lemma_chains_below, Chain, ChainView,
};
use vstd::prelude::*;

verus! {

/// What a stone on a point would do: the stones it captures, and how many
/// liberties its group has afterwards.
#[derive(Debug)]
pub struct PlacementInfo {
    pub captured: PointSet,
    pub liberties: usize,
}

impl PlacementInfo {
    /// Whether the stone on the point is captured.
    pub fn captures(&self, point: usize) -> (result: bool)
        requires
            point < CELL_COUNT,
        ensures
            result == members(self.captured).contains(point),
    {
        self.captured.get(point)
    }

    /// How many stones are captured.
    pub fn captured_count(&self) -> (result: usize)
        ensures
            result == members(self.captured).len(),
    {
        self.captured.count()
    }
}

/// The chains of a position, found by point and as sets.
pub struct MoveAnalysis {
    at: Vec<usize>,
    stones: Vec<PointSet>,
    liberties: Vec<PointSet>,
}

/// The place of the last chain with a stone on `p`, or `usize::MAX`.
pub open spec fn last_chain_with(groups: Seq<ChainView>, p: usize) -> usize
    decreases groups.len(),
{
    if groups.len() == 0 {
        usize::MAX
    } else if groups.last().stones.contains(p) {
        (groups.len() - 1) as usize
    } else {
        last_chain_with(groups.drop_last(), p)
    }
}

proof fn lemma_last_chain_with(groups: Seq<ChainView>, p: usize, id: int)
    requires
        0 <= id < groups.len() <= usize::MAX,
        groups[id].stones.contains(p),
        forall|j: int|
            0 <= j < groups.len() && #[trigger] groups[j].stones.contains(p) ==> j == id,
    ensures
        last_chain_with(groups, p) == id,
    decreases groups.len(),
{
    assert(groups.last() == groups[groups.len() - 1]);
    if id < groups.len() - 1 {
        assert(!groups[groups.len() - 1].stones.contains(p));
        let init = groups.drop_last();
        assert(init[id] == groups[id]);
        assert forall|j: int| 0 <= j < init.len() && #[trigger] init[j].stones.contains(p) implies j
            == id by {
            assert(init[j] == groups[j]);
        }
        lemma_last_chain_with(init, p, id);
    }
}

/// A point set with the given points.
fn set_of(points: &Vec<usize>) -> (set: PointSet)
    requires
        forall|i: int| 0 <= i < points@.len() ==> #[trigger] points@[i] < CELL_COUNT,
    ensures
        members(set) == points@.to_set(),
{
    let mut set: PointSet = PointSet::empty();
    let mut i: usize = 0;
    assert(points@.take(0).to_set() =~= Set::<usize>::empty());
    while i < points.len()
        invariant
            i <= points@.len(),
            forall|j: int| 0 <= j < points@.len() ==> #[trigger] points@[j] < CELL_COUNT,
            members(set) == points@.take(i as int).to_set(),
        decreases points@.len() - i,
    {
        set.set(points[i], true);
        proof {
            let before = points@.take(i as int);
            let more = points@.take(i + 1);
            assert(more =~= before.push(points@[i as int]));
            assert(more.to_set() =~= before.to_set().insert(points@[i as int])) by {
                assert forall|x: usize| more.contains(x) <==> before.contains(x) || x
                    == points@[i as int] by {
                    if before.contains(x) {
                        assert(more[before.index_of(x)] == x);
                    }
                    assert(more[i as int] == points@[i as int]);
                }
            }
        }
        i = i + 1;
    }
    assert(points@.take(points@.len() as int) =~= points@);
    set
}

impl MoveAnalysis {
    /// The index holds the given chains.
    pub closed spec fn holds(self, groups: Seq<ChainView>) -> bool {
        &&& self.at@.len() == CELL_COUNT
        &&& self.stones@.len() == groups.len()
        &&& self.liberties@.len() == groups.len()
        &&& forall|p: usize|
            p < CELL_COUNT ==> #[trigger] self.at@[p as int] == last_chain_with(groups, p)
        &&& forall|i: int|
            0 <= i < groups.len() ==> members(#[trigger] self.stones@[i])
                == groups[i].stones.to_set()
        &&& forall|i: int|
            0 <= i < groups.len() ==> members(#[trigger] self.liberties@[i])
                == groups[i].liberties.to_set()
    }

    pub fn new(groups: &[Chain]) -> (result: MoveAnalysis)
        requires
            forall|i: int, j: int|
                0 <= i < groups@.len() && 0 <= j < groups@[i].stones@.len()
                    ==> #[trigger] groups@[i].stones@[j] < CELL_COUNT,
            forall|i: int, j: int|
                0 <= i < groups@.len() && 0 <= j < groups@[i].liberties@.len()
                    ==> #[trigger] groups@[i].liberties@[j] < CELL_COUNT,
        ensures
            result.holds(chain_views(groups@)),
    {
        let mut at: Vec<usize> = vec![usize::MAX; 361];
        let mut stones: Vec<PointSet> = Vec::with_capacity(groups.len());
        let mut liberties: Vec<PointSet> = Vec::with_capacity(groups.len());
        let ghost views = chain_views(groups@);
        let mut id: usize = 0;
        while id < groups.len()
            invariant
                id <= groups@.len(),
                views == chain_views(groups@),
                at@.len() == CELL_COUNT,
                stones@.len() == id,
                liberties@.len() == id,
                forall|i: int, j: int|
                    0 <= i < groups@.len() && 0 <= j < groups@[i].stones@.len()
                        ==> #[trigger] groups@[i].stones@[j] < CELL_COUNT,
                forall|i: int, j: int|
                    0 <= i < groups@.len() && 0 <= j < groups@[i].liberties@.len()
                        ==> #[trigger] groups@[i].liberties@[j] < CELL_COUNT,
                forall|p: usize|
                    p < CELL_COUNT ==> #[trigger] at@[p as int] == last_chain_with(
                        views.take(id as int),
                        p,
                    ),
                forall|i: int|
                    0 <= i < id ==> members(#[trigger] stones@[i]) == views[i].stones.to_set(),
                forall|i: int|
                    0 <= i < id ==> members(#[trigger] liberties@[i])
                        == views[i].liberties.to_set(),
            decreases groups@.len() - id,
        {
            let chain: &Chain = &groups[id];
            let ghost before = at@;
            assert(chain@ == views[id as int]);
            assert forall|j: int| 0 <= j < chain.stones@.len() implies #[trigger] chain.stones@[j]
                < CELL_COUNT by {
                assert(groups@[id as int].stones@[j] < CELL_COUNT);
            }
            assert forall|j: int|
                0 <= j < chain.liberties@.len() implies #[trigger] chain.liberties@[j]
                < CELL_COUNT by {
                assert(groups@[id as int].liberties@[j] < CELL_COUNT);
            }
            let mut i: usize = 0;
            while i < chain.stones.len()
                invariant
                    i <= chain.stones@.len(),
                    at@.len() == CELL_COUNT,
                    forall|j: int|
                        0 <= j < chain.stones@.len() ==> #[trigger] chain.stones@[j] < CELL_COUNT,
                    forall|p: usize|
                        p < CELL_COUNT ==> #[trigger] at@[p as int] == (if chain.stones@.take(
                            i as int,
                        ).contains(p) {
                            id
                        } else {
                            before[p as int]
                        }),
                decreases chain.stones@.len() - i,
            {
                let ghost marked = at@;
                let s: usize = chain.stones[i];
                at.set(s, id);
                proof {
                    let init = chain.stones@.take(i as int);
                    let more = chain.stones@.take(i + 1);
                    assert(more =~= init.push(s));
                    assert forall|p: usize| p < CELL_COUNT implies #[trigger] at@[p as int] == (
                    if more.contains(p) {
                        id
                    } else {
                        before[p as int]
                    }) by {
                        if init.contains(p) {
                            assert(more[init.index_of(p)] == p);
                        }
                        if p == s {
                            assert(more[i as int] == p);
                        } else {
                            assert(at@[p as int] == marked[p as int]);
                        }
                    }
                }
                i = i + 1;
            }
            stones.push(set_of(&chain.stones));
            liberties.push(set_of(&chain.liberties));
            proof {
                assert(chain.stones@.take(chain.stones@.len() as int) =~= chain.stones@);
                let more = views.take(id + 1);
                assert(more.drop_last() =~= views.take(id as int));
                assert(more.last() == chain@);
            }
            id = id + 1;
        }
        proof {
            assert(views.take(views.len() as int) =~= views);
        }
        MoveAnalysis { at, stones, liberties }
    }

    /// The index of the chains of a position.
    pub fn of_cells(cells: &[i8]) -> (result: MoveAnalysis)
        requires
            cells@.len() >= CELL_COUNT,
        ensures
            result.holds(chain_list(cells@)),
    {
        let groups: Vec<Chain> = chains(cells);
        proof {
            lemma_chains_below(cells@, CELL_COUNT as nat);
            assert forall|i: int| 0 <= i < groups@.len() implies #[trigger] groups@[i]@ == chain_list(cells@)[i] by {
                assert(chain_views(groups@)[i] == groups@[i]@);
            }
            assert forall|i: int, j: int|
                0 <= i < groups@.len() && 0 <= j < groups@[i].stones@.len() implies #[trigger] groups@[i].stones@[j]
                < CELL_COUNT by {
                let c = chain_list(cells@)[i];
                assert(groups@[i]@ == c);
                lemma_chain_at(cells@, c.stones[0]);
                assert(chain_at(cells@, c.stones[0]).stones[j] < CELL_COUNT);
            }
            assert forall|i: int, j: int|
                0 <= i < groups@.len() && 0 <= j < groups@[i].liberties@.len() implies #[trigger] groups@[i].liberties@[j]
                < CELL_COUNT by {
                let c = chain_list(cells@)[i];
                assert(groups@[i]@ == c);
                lemma_chain_at(cells@, c.stones[0]);
                assert(chain_at(cells@, c.stones[0]).liberties[j] < CELL_COUNT);
            }
        }
        MoveAnalysis::new(groups.as_slice())
    }
}

/// An enemy group next to an empty point keeps its stones when the point is
/// filled, and loses that one liberty.
pub proof fn lemma_enemy_group(cells: Seq<i8>, point: usize, player: Player, n: usize)
    requires
        cells.len() >= CELL_COUNT,
        point < CELL_COUNT,
        cells[point as int] == 0,
        adjacent(point, n),
        cells[n as int] == player.opponent().mark(),
    ensures
        same_component(stone_down(cells, point, player), n) == same_component(cells, n),
        liberties_of(cells, n).contains(point),
        liberties_of(stone_down(cells, point, player), n) == liberties_of(cells, n).remove(point),
        !has_liberty(stone_down(cells, point, player), n) <==> liberties_of(cells, n)
            == set![point],
{
    let down = stone_down(cells, point, player);
    let enemy = player.opponent().mark();
    assert(points_with(down, enemy) =~= points_with(cells, enemy));
    lemma_component_basic(points_with(cells, enemy), n);
    lemma_adjacent_symmetric(point, n);
    assert(adjacent(n, point));
    assert(points_with(cells, 0).contains(point));
    assert(points_with(down, 0) =~= points_with(cells, 0).remove(point));
    let l = liberties_of(cells, n);
    assert(liberties_of(down, n) =~= l.remove(point));
    if l == set![point] {
        assert(forall|q: usize| !liberties_of(down, n).contains(q));
    }
    if !has_liberty(down, n) {
        assert(l =~= set![point]) by {
            assert forall|q: usize| l.contains(q) implies q == point by {
                if q != point {
                    assert(liberties_of(down, n).contains(q));
                }
            }
        }
    }
}

/// The group of a stone just placed: the stone and the groups it joins.
spec fn joined(cells: Seq<i8>, point: usize, player: Player, k: int) -> Set<usize> {
    Set::new(
        |q: usize|
            q == point || exists|i: int|
                {
                    &&& 0 <= i < k
                    &&& cells[(#[trigger] neighbors_of(point)[i]) as int] == player.mark()
                    &&& same_component(cells, neighbors_of(point)[i]).contains(q)
                },
    )
}

/// The empty points next to the first `k` neighbors' part of the new group.
spec fn free_next(cells: Seq<i8>, point: usize, player: Player, k: int) -> Set<usize> {
    Set::new(
        |q: usize|
            exists|i: int|
                {
                    &&& 0 <= i < k
                    &&& ((cells[(#[trigger] neighbors_of(point)[i]) as int] == 0
                        && neighbors_of(point)[i] == q) || (cells[neighbors_of(point)[i] as int]
                        == player.mark() && liberties_of(cells, neighbors_of(point)[i]).contains(
                        q,
                    )))
                },
    )
}

/// The stones captured among the first `k` neighbors.
spec fn taken(cells: Seq<i8>, point: usize, player: Player, k: int) -> Set<usize> {
    Set::new(
        |q: usize|
            exists|i: int|
                {
                    &&& 0 <= i < k
                    &&& cells[(#[trigger] neighbors_of(point)[i]) as int]
                        == player.opponent().mark()
                    &&& liberties_of(cells, neighbors_of(point)[i]) == set![point]
                    &&& same_component(cells, neighbors_of(point)[i]).contains(q)
                },
    )
}

proof fn lemma_taken(cells: Seq<i8>, point: usize, player: Player)
    requires
        cells.len() >= CELL_COUNT,
        point < CELL_COUNT,
        cells[point as int] == 0,
    ensures
        taken(cells, point, player, neighbors_of(point).len() as int) == captured_by(
            cells,
            point,
            player,
        ),
{
    let all = neighbors_of(point).len() as int;
    let down = stone_down(cells, point, player);
    lemma_neighbors(point);
    assert forall|q: usize|
        taken(cells, point, player, all).contains(q) <==> captured_by(
            cells,
            point,
            player,
        ).contains(q) by {
        if taken(cells, point, player, all).contains(q) {
            let i = choose|i: int|
                {
                    &&& 0 <= i < all
                    &&& cells[(#[trigger] neighbors_of(point)[i]) as int]
                        == player.opponent().mark()
                    &&& liberties_of(cells, neighbors_of(point)[i]) == set![point]
                    &&& same_component(cells, neighbors_of(point)[i]).contains(q)
                };
            let n = neighbors_of(point)[i];
            assert(adjacent(point, n));
            lemma_enemy_group(cells, point, player, n);
        }
        if captured_by(cells, point, player).contains(q) {
            let n = choose|n: usize|
                {
                    &&& #[trigger] adjacent(point, n)
                    &&& down[n as int] == player.opponent().mark()
                    &&& !has_liberty(down, n)
                    &&& same_component(down, n).contains(q)
                };
            lemma_enemy_group(cells, point, player, n);
            assert(neighbors_of(point).contains(n));
            assert(neighbors_of(point)[neighbors_of(point).index_of(n)] == n);
        }
    }
    assert(taken(cells, point, player, all) =~= captured_by(cells, point, player));
}

proof fn lemma_joined(cells: Seq<i8>, point: usize, player: Player)
    requires
        cells.len() >= CELL_COUNT,
        point < CELL_COUNT,
        cells[point as int] == 0,
    ensures
        joined(cells, point, player, neighbors_of(point).len() as int) == same_component(
            after_placement(cells, point, player),
            point,
        ),
{
    let all = neighbors_of(point).len() as int;
    let after = after_placement(cells, point, player);
    let group = joined(cells, point, player, all);
    let own = points_with(cells, player.mark());
    let area = points_with(after, player.mark());
    lemma_neighbors(point);
    lemma_captured_color(cells, point, player);
    assert(area =~= own.insert(point));
    assert(after[point as int] == player.mark());
    lemma_component_basic(area, point);
    let c = component(area, point);
    assert(closed_within(area, group)) by {
        assert forall|p: usize, q: usize|
            #![trigger group.contains(p), adjacent(p, q)]
            group.contains(p) && adjacent(p, q) && area.contains(q) implies group.contains(q) by {
            if q != point {
                if p == point {
                    assert(neighbors_of(point).contains(q));
                    let i = neighbors_of(point).index_of(q);
                    assert(neighbors_of(point)[i] == q);
                    lemma_component_basic(own, q);
                } else {
                    let i = choose|i: int|
                        {
                            &&& 0 <= i < all
                            &&& cells[(#[trigger] neighbors_of(point)[i]) as int] == player.mark()
                            &&& same_component(cells, neighbors_of(point)[i]).contains(p)
                        };
                    assert(adjacent(point, neighbors_of(point)[i]));
                    lemma_component_basic(own, neighbors_of(point)[i]);
                    assert(same_component(cells, neighbors_of(point)[i]).contains(q));
                }
            }
        }
    }
    lemma_component_least(area, point, group);
    assert forall|q: usize| group.contains(q) implies c.contains(q) by {
        if q != point {
            let i = choose|i: int|
                {
                    &&& 0 <= i < all
                    &&& cells[(#[trigger] neighbors_of(point)[i]) as int] == player.mark()
                    &&& same_component(cells, neighbors_of(point)[i]).contains(q)
                };
            let n = neighbors_of(point)[i];
            assert(adjacent(point, n));
            assert(c.contains(n));
            assert(closed_within(own, c));
            lemma_component_least(own, n, c);
        }
    }
    assert(group =~= c);
}

/// The liberties of a stone just placed: empty points next to its group, and
/// captured points next to it, but not the point itself.
proof fn lemma_new_liberties(cells: Seq<i8>, point: usize, player: Player)
    requires
        cells.len() >= CELL_COUNT,
        point < CELL_COUNT,
        cells[point as int] == 0,
    ensures
        ({
            let all = neighbors_of(point).len() as int;
            let group = joined(cells, point, player, all);
            liberties_of(after_placement(cells, point, player), point) == free_next(
                cells,
                point,
                player,
                all,
            ).union(border_of(captured_by(cells, point, player), group)).remove(point)
        }),
{
    let all = neighbors_of(point).len() as int;
    let after = after_placement(cells, point, player);
    let group = joined(cells, point, player, all);
    let captured = captured_by(cells, point, player);
    let own = points_with(cells, player.mark());
    let free = free_next(cells, point, player, all);
    lemma_joined(cells, point, player);
    lemma_captured_color(cells, point, player);
    lemma_neighbors(point);
    let l = liberties_of(after, point);
    let r = free.union(border_of(captured, group)).remove(point);
    assert forall|q: usize| points_with(after, 0).contains(q) <==> (q != point && points_with(
        cells,
        0,
    ).contains(q)) || captured.contains(q) by {}
    assert forall|q: usize| l.contains(q) implies r.contains(q) by {
        let p = choose|p: usize| group.contains(p) && #[trigger] adjacent(p, q);
        if !captured.contains(q) {
            if p == point {
                assert(neighbors_of(point).contains(q));
                let i = neighbors_of(point).index_of(q);
                assert(neighbors_of(point)[i] == q);
                assert(free.contains(q));
            } else {
                let i = choose|i: int|
                    {
                        &&& 0 <= i < all
                        &&& cells[(#[trigger] neighbors_of(point)[i]) as int] == player.mark()
                        &&& same_component(cells, neighbors_of(point)[i]).contains(p)
                    };
                assert(liberties_of(cells, neighbors_of(point)[i]).contains(q));
                assert(free.contains(q));
            }
        }
    }
    assert forall|q: usize| r.contains(q) implies l.contains(q) by {
        if free.contains(q) {
            let i = choose|i: int|
                {
                    &&& 0 <= i < all
                    &&& ((cells[(#[trigger] neighbors_of(point)[i]) as int] == 0
                        && neighbors_of(point)[i] == q) || (cells[neighbors_of(point)[i] as int]
                        == player.mark() && liberties_of(cells, neighbors_of(point)[i]).contains(
                        q,
                    )))
                };
            let n = neighbors_of(point)[i];
            assert(adjacent(point, n));
            if cells[n as int] == 0 && n == q {
                assert(group.contains(point));
            } else {
                let p = choose|p: usize|
                    same_component(cells, n).contains(p) && #[trigger] adjacent(p, q);
                assert(group.contains(p));
            }
        } else {
            let p = choose|p: usize| group.contains(p) && #[trigger] adjacent(p, q);
            assert(adjacent(p, q));
        }
    }
    assert(l =~= r);
}

/// What the index says of a stone's chain.
proof fn lemma_index(analysis: MoveAnalysis, cells: Seq<i8>, n: usize)
    requires
        analysis.holds(chain_list(cells)),
        n < CELL_COUNT,
        cells[n as int] != 0,
    ensures
        analysis.at@[n as int] < analysis.stones@.len(),
        analysis.at@[n as int] < analysis.liberties@.len(),
        members(analysis.stones@[analysis.at@[n as int] as int]) == same_component(cells, n),
        members(analysis.liberties@[analysis.at@[n as int] as int]) == liberties_of(cells, n),
{
    let list = chain_list(cells);
    lemma_chains_below(cells, CELL_COUNT as nat);
    let id = lemma_chain_of_stone(cells, n);
    lemma_last_chain_with(list, n, id);
    assert(analysis.at@[n as int] == id);
}

impl MoveAnalysis {
    /// What the player's stone on the point would do, if it may be placed
    /// there. Agrees with the placement rule on every position.
    pub fn placement(&self, board: &Board, mv: Move, player: Player) -> (result: Option<
        PlacementInfo,
    >)
        requires
            board@.wf(),
            self.holds(chain_list(board@.cells)),
        ensures
            match board@.placed(mv, player) {
                Some(after) => {
                    &&& result is Some
                    &&& members(result->0.captured) == captured_by(board@.cells, mv.0, player)
                    &&& result->0.liberties == liberties_of(after, mv.0).len()
                },
                None => result is None,
            },
    {
        let point: usize = mv.0;
        let cells: &[i8] = board.cells();
        if point >= CELL_COUNT || cells[point] != 0 {
            return None;
        }
        let mut bit: PointSet = PointSet::empty();
        bit.set(point, true);
        let mut own: PointSet = PointSet::empty();
        own.set(point, true);
        let mut liberties: PointSet = PointSet::empty();
        let mut captured: PointSet = PointSet::empty();
        let ns = neighbors(point);
        let ghost all = neighbors_of(point).len() as int;
        proof {
            lemma_neighbors(point);
            assert(members(bit) =~= set![point]);
            assert(members(own) =~= joined(cells@, point, player, 0));
            assert(members(liberties) =~= free_next(cells@, point, player, 0));
            assert(members(captured) =~= taken(cells@, point, player, 0));
        }
        let mut k: usize = 0;
        while k < ns.len
            invariant
                board@.wf(),
                cells@ == board@.cells,
                self.holds(chain_list(cells@)),
                point < CELL_COUNT,
                cells@[point as int] == 0,
                ns.len <= 4,
                ns@ == neighbors_of(point),
                k <= ns.len,
                members(bit) == set![point],
                members(own) == joined(cells@, point, player, k as int),
                members(liberties) == free_next(cells@, point, player, k as int),
                members(captured) == taken(cells@, point, player, k as int),
            decreases ns.len - k,
        {
            let n: usize = ns.points[k];
            proof {
                lemma_neighbors(point);
                assert(ns@[k as int] == n);
                assert(adjacent(point, neighbors_of(point)[k as int]));
                assert(-1 <= cells@[n as int] <= 1);
                lemma_step(cells@, point, player, k as int);
            }
            if cells[n] == 0 {
                liberties.set(n, true);
            } else {
                proof {
                    lemma_index(*self, cells@, n);
                }
                let id: usize = self.at[n];
                if cells[n] == player.stone() {
                    own.join(&self.stones[id]);
                    liberties.join(&self.liberties[id]);
                } else if self.liberties[id].same(&bit) {
                    captured.join(&self.stones[id]);
                }
            }
            proof {
                assert(members(own) =~= joined(cells@, point, player, k + 1));
                assert(members(liberties) =~= free_next(cells@, point, player, k + 1));
                assert(members(captured) =~= taken(cells@, point, player, k + 1));
            }
            k = k + 1;
        }
        let ghost free = free_next(cells@, point, player, all);
        let ghost gone = captured_by(cells@, point, player);
        proof {
            assert(k == all);
            lemma_taken(cells@, point, player);
            lemma_new_liberties(cells@, point, player);
            lemma_captured_color(cells@, point, player);
        }
        let taken_points: Vec<usize> = captured.ones();
        let mut after: Vec<i8> = Vec::with_capacity(361);
        after.extend_from_slice(cells);
        assert(after@ =~= cells@);
        after.set(point, player.stone());
        let mut i: usize = 0;
        proof {
            assert forall|j: int| 0 <= j < taken_points@.len() implies #[trigger] taken_points@[j]
                < CELL_COUNT by {
                assert(taken_points@.to_set().contains(taken_points@[j]));
            }
            assert(taken_points@.take(0).to_set() =~= Set::<usize>::empty());
            assert(members(liberties) =~= free.union(
                border_of(taken_points@.take(0).to_set(), members(own)),
            ));
        }
        while i < taken_points.len()
            invariant
                i <= taken_points@.len(),
                cells@.len() == CELL_COUNT,
                after@.len() == CELL_COUNT,
                point < CELL_COUNT,
                forall|j: int|
                    0 <= j < taken_points@.len() ==> #[trigger] taken_points@[j] < CELL_COUNT,
                members(liberties) == free.union(
                    border_of(taken_points@.take(i as int).to_set(), members(own)),
                ),
                forall|q: int|
                    0 <= q < CELL_COUNT ==> #[trigger] after@[q] == (if taken_points@.take(
                        i as int,
                    ).to_set().contains(q as usize) {
                        0i8
                    } else {
                        stone_down(cells@, point, player)[q]
                    }),
            decreases taken_points@.len() - i,
        {
            let p: usize = taken_points[i];
            let ghost held = after@;
            let ghost before = taken_points@.take(i as int).to_set();
            let ghost more = taken_points@.take(i + 1).to_set();
            proof {
                let s = taken_points@.take(i as int);
                let t = taken_points@.take(i + 1);
                assert(t =~= s.push(p));
                assert forall|x: usize| more.contains(x) <==> before.contains(x) || x == p by {
                    if s.contains(x) {
                        assert(t[s.index_of(x)] == x);
                    }
                    assert(t[i as int] == p);
                }
            }
            let ms = neighbors(p);
            let mut touches: bool = false;
            let mut m: usize = 0;
            proof {
                lemma_neighbors(p);
            }
            while m < ms.len
                invariant
                    p < CELL_COUNT,
                    ms.len <= 4,
                    ms@ == neighbors_of(p),
                    m <= ms.len,
                    forall|j: int| 0 <= j < ms@.len() ==> adjacent(p, #[trigger] ms@[j]),
                    touches == exists|j: int|
                        0 <= j < m && members(own).contains(#[trigger] ms@[j]),
                decreases ms.len - m,
            {
                let n: usize = ms.points[m];
                assert(ms@[m as int] == n);
                if own.get(n) {
                    touches = true;
                }
                m = m + 1;
            }
            if touches {
                liberties.set(p, true);
            }
            after.set(p, 0);
            proof {
                assert(touches == exists|x: usize|
                    members(own).contains(x) && #[trigger] adjacent(x, p)) by {
                    if touches {
                        let j = choose|j: int|
                            0 <= j < ms@.len() && members(own).contains(#[trigger] ms@[j]);
                        lemma_adjacent_symmetric(p, ms@[j]);
                        assert(adjacent(ms@[j], p));
                    }
                    if exists|x: usize| members(own).contains(x) && #[trigger] adjacent(x, p) {
                        let x = choose|x: usize|
                            members(own).contains(x) && #[trigger] adjacent(x, p);
                        lemma_adjacent_symmetric(x, p);
                        assert(neighbors_of(p).contains(x));
                        assert(ms@[ms@.index_of(x)] == x);
                    }
                }
                assert(members(liberties) =~= free.union(border_of(more, members(own))));
            }
            i = i + 1;
        }
        liberties.set(point, false);
        proof {
            assert(taken_points@.take(taken_points@.len() as int) =~= taken_points@);
            assert(after@ =~= after_placement(board@.cells, point, player));
            assert(members(liberties) =~= liberties_of(after@, point));
            if has_liberty(after@, point) {
                let q = choose|q: usize| #[trigger] liberties_of(after@, point).contains(q);
                assert(members(liberties).contains(q));
            } else {
                assert(members(liberties) =~= Set::<usize>::empty());
            }
        }
        if liberties.is_empty() {
            return None;
        }
        assert(has_liberty(after@, point)) by {
            if !has_liberty(after@, point) {
                assert(members(liberties) =~= Set::<usize>::empty());
            }
        }
        if occurred(board.history(), &after) {
            return None;
        }
        Some(PlacementInfo { captured, liberties: liberties.count() })
    }
}

/// What one more neighbor adds.
proof fn lemma_step(cells: Seq<i8>, point: usize, player: Player, k: int)
    requires
        0 <= k < neighbors_of(point).len(),
    ensures
        forall|q: usize| #[trigger]
            joined(cells, point, player, k + 1).contains(q) <==> joined(
                cells,
                point,
                player,
                k,
            ).contains(q) || (cells[neighbors_of(point)[k] as int] == player.mark()
                && same_component(cells, neighbors_of(point)[k]).contains(q)),
        forall|q: usize| #[trigger]
            free_next(cells, point, player, k + 1).contains(q) <==> free_next(
                cells,
                point,
                player,
                k,
            ).contains(q) || (cells[neighbors_of(point)[k] as int] == 0 && neighbors_of(point)[k]
                == q) || (cells[neighbors_of(point)[k] as int] == player.mark() && liberties_of(
                cells,
                neighbors_of(point)[k],
            ).contains(q)),
        forall|q: usize| #[trigger]
            taken(cells, point, player, k + 1).contains(q) <==> taken(
                cells,
                point,
                player,
                k,
            ).contains(q) || (cells[neighbors_of(point)[k] as int] == player.opponent().mark()
                && liberties_of(cells, neighbors_of(point)[k]) == set![point] && same_component(
                cells,
                neighbors_of(point)[k],
            ).contains(q)),
{
    assert forall|q: usize| #[trigger]
        joined(cells, point, player, k + 1).contains(q) <==> joined(
            cells,
            point,
            player,
            k,
        ).contains(q) || (cells[neighbors_of(point)[k] as int] == player.mark()
            && same_component(cells, neighbors_of(point)[k]).contains(q)) by {
        lemma_step_joined(cells, point, player, k, q);
    }
    assert forall|q: usize| #[trigger]
        free_next(cells, point, player, k + 1).contains(q) <==> free_next(
            cells,
            point,
            player,
            k,
        ).contains(q) || (cells[neighbors_of(point)[k] as int] == 0 && neighbors_of(point)[k] == q)
            || (cells[neighbors_of(point)[k] as int] == player.mark() && liberties_of(
            cells,
            neighbors_of(point)[k],
        ).contains(q)) by {
        lemma_step_free(cells, point, player, k, q);
    }
    assert forall|q: usize| #[trigger]
        taken(cells, point, player, k + 1).contains(q) <==> taken(
            cells,
            point,
            player,
            k,
        ).contains(q) || (cells[neighbors_of(point)[k] as int] == player.opponent().mark()
            && liberties_of(cells, neighbors_of(point)[k]) == set![point] && same_component(
            cells,
            neighbors_of(point)[k],
        ).contains(q)) by {
        lemma_step_taken(cells, point, player, k, q);
    }
}

proof fn lemma_step_joined(cells: Seq<i8>, point: usize, player: Player, k: int, q: usize)
    requires
        0 <= k < neighbors_of(point).len(),
    ensures
        joined(cells, point, player, k + 1).contains(q) <==> joined(
            cells,
            point,
            player,
            k,
        ).contains(q) || (cells[neighbors_of(point)[k] as int] == player.mark()
            && same_component(cells, neighbors_of(point)[k]).contains(q)),
{
    if joined(cells, point, player, k + 1).contains(q) && q != point {
        let i = choose|i: int|
            {
                &&& 0 <= i < k + 1
                &&& cells[(#[trigger] neighbors_of(point)[i]) as int] == player.mark()
                &&& same_component(cells, neighbors_of(point)[i]).contains(q)
            };
        assert(i < k ==> joined(cells, point, player, k).contains(q));
    }
}

proof fn lemma_step_free(cells: Seq<i8>, point: usize, player: Player, k: int, q: usize)
    requires
        0 <= k < neighbors_of(point).len(),
    ensures
        free_next(cells, point, player, k + 1).contains(q) <==> free_next(
            cells,
            point,
            player,
            k,
        ).contains(q) || (cells[neighbors_of(point)[k] as int] == 0 && neighbors_of(point)[k] == q)
            || (cells[neighbors_of(point)[k] as int] == player.mark() && liberties_of(
            cells,
            neighbors_of(point)[k],
        ).contains(q)),
{
    if free_next(cells, point, player, k + 1).contains(q) {
        let i = choose|i: int|
            {
                &&& 0 <= i < k + 1
                &&& ((cells[(#[trigger] neighbors_of(point)[i]) as int] == 0
                    && neighbors_of(point)[i] == q) || (cells[neighbors_of(point)[i] as int]
                    == player.mark() && liberties_of(cells, neighbors_of(point)[i]).contains(q)))
            };
        assert(i < k ==> free_next(cells, point, player, k).contains(q));
    }
}

proof fn lemma_step_taken(cells: Seq<i8>, point: usize, player: Player, k: int, q: usize)
    requires
        0 <= k < neighbors_of(point).len(),
    ensures
        taken(cells, point, player, k + 1).contains(q) <==> taken(
            cells,
            point,
            player,
            k,
        ).contains(q) || (cells[neighbors_of(point)[k] as int] == player.opponent().mark()
            && liberties_of(cells, neighbors_of(point)[k]) == set![point] && same_component(
            cells,
            neighbors_of(point)[k],
        ).contains(q)),
{
    if taken(cells, point, player, k + 1).contains(q) {
        let i = choose|i: int|
            {
                &&& 0 <= i < k + 1
                &&& cells[(#[trigger] neighbors_of(point)[i]) as int] == player.opponent().mark()
                &&& liberties_of(cells, neighbors_of(point)[i]) == set![point]
                &&& same_component(cells, neighbors_of(point)[i]).contains(q)
            };
        assert(i < k ==> taken(cells, point, player, k).contains(q));
    }
}

/// The legal actions below `n`, ascending.
pub open spec fn legal_below(board: BoardView, n: nat) -> Seq<Move>
    decreases n,
{
    if n == 0 {
        Seq::empty()
    } else {
        let before = legal_below(board, (n - 1) as nat);
        if board.legal(Move((n - 1) as usize)) {
            before.push(Move((n - 1) as usize))
        } else {
            before
        }
    }
}

/// The legal actions of a board: the points in order, then the pass.
pub open spec fn legal_moves(board: BoardView) -> Seq<Move> {
    legal_below(board, ACTION_COUNT as nat)
}

/// Every listed action is legal.
pub proof fn lemma_legal_listed(board: BoardView, n: nat, k: int)
    requires
        0 <= k < legal_below(board, n).len(),
        n <= ACTION_COUNT,
    ensures
        board.legal(legal_below(board, n)[k]),
        legal_below(board, n)[k].0 < n,
    decreases n,
{
    if n > 0 {
        let before = legal_below(board, (n - 1) as nat);
        if k < before.len() {
            lemma_legal_listed(board, (n - 1) as nat, k);
        }
    }
}

/// The list of legal actions holds exactly those, each once and ascending.
pub proof fn law_legal_moves_are_complete(board: BoardView, mv: Move)
    ensures
        legal_moves(board).contains(mv) <==> mv.0 < ACTION_COUNT && board.legal(mv),
        legal_moves(board).no_duplicates(),
{
    lemma_legal_complete(board, ACTION_COUNT as nat, mv);
}

proof fn lemma_legal_complete(board: BoardView, n: nat, mv: Move)
    requires
        n <= ACTION_COUNT,
    ensures
        legal_below(board, n).contains(mv) <==> mv.0 < n && board.legal(mv),
        legal_below(board, n).no_duplicates(),
    decreases n,
{
    if n > 0 {
        let before = legal_below(board, (n - 1) as nat);
        let list = legal_below(board, n);
        let last = Move((n - 1) as usize);
        lemma_legal_complete(board, (n - 1) as nat, mv);
        assert forall|k: int| 0 <= k < before.len() implies (#[trigger] before[k]).0 < n - 1 by {
            lemma_legal_listed(board, (n - 1) as nat, k);
        }
        if before.contains(mv) {
            assert(list[before.index_of(mv)] == mv);
        }
        if board.legal(last) {
            assert(list[before.len() as int] == last);
        }
    }
}

proof fn lemma_finished_moves(board: BoardView, n: nat)
    requires
        board.finished(),
    ensures
        legal_below(board, n) == Seq::<Move>::empty(),
    decreases n,
{
    if n > 0 {
        lemma_finished_moves(board, (n - 1) as nat);
    }
}

impl Board {
    /// Every legal action, ascending; none when the game is over.
    pub fn rule_legal_moves(&self) -> (result: Vec<Move>)
        requires
            self@.wf(),
        ensures
            result@ == legal_moves(self@),
    {
        if self.is_finished() {
            proof {
                lemma_finished_moves(self@, ACTION_COUNT as nat);
            }
            return Vec::new();
        }
        let analysis: MoveAnalysis = MoveAnalysis::of_cells(self.cells());
        let mut result: Vec<Move> = Vec::new();
        let mut index: usize = 0;
        while index < ACTION_COUNT
            invariant
                self@.wf(),
                !self@.finished(),
                analysis.holds(chain_list(self@.cells)),
                index <= ACTION_COUNT,
                result@ == legal_below(self@, index as nat),
            decreases ACTION_COUNT - index,
        {
            let mv: Move = Move(index);
            if index == CELL_COUNT || analysis.placement(self, mv, self.to_move()).is_some() {
                result.push(mv);
            }
            index = index + 1;
        }
        result
    }

    /// The actions that a search considers: every legal one.
    pub fn search_candidates(&self) -> (result: Vec<Move>)
        requires
            self@.wf(),
        ensures
            result@ == legal_moves(self@),
    {
        self.rule_legal_moves()
    }
}

/// There are no more legal actions than actions.
pub proof fn lemma_legal_count(board: BoardView)
    ensures
        legal_moves(board).len() <= 362,
{
    lemma_legal_below_count(board, 362);
}

proof fn lemma_legal_below_count(board: BoardView, n: nat)
    ensures
        legal_below(board, n).len() <= n,
    decreases n,
{
    if n > 0 {
        lemma_legal_below_count(board, (n - 1) as nat);
    }
}

} // verus!
