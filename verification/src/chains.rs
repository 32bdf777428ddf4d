//! The chains of a position.
use crate::game::liberties_of;
use crate::grid::{
    absorb, adjacent, flood, fringe, lemma_component_basic, lemma_component_of_member,
    lemma_components_meet, lemma_fringe, lemma_neighbors, lemma_walk_order, neighbors, neighbors_of,
    points_with, same_component, walk_order, CELL_COUNT,
};
use vstd::prelude::*;

verus! {

/// A group of connected stones of one color and its liberties.
#[derive(Debug)]
pub struct Chain {
    pub stones: Vec<usize>,
    pub liberties: Vec<usize>,
    pub color: i8,
}

#[verifier::ext_equal]
pub struct ChainView {
    pub stones: Seq<usize>,
    pub liberties: Seq<usize>,
    pub color: i8,
}

impl View for Chain {
    type V = ChainView;

    open spec fn view(&self) -> ChainView {
        ChainView { stones: self.stones@, liberties: self.liberties@, color: self.color }
    }
}

impl Clone for Chain {
    fn clone(&self) -> (result: Chain)
        ensures
            result@ == self@,
    {
        let stones: Vec<usize> = self.stones.clone();
        let liberties: Vec<usize> = self.liberties.clone();
        assert(stones@ =~= self.stones@);
        assert(liberties@ =~= self.liberties@);
        Chain { stones, liberties, color: self.color }
    }
}

pub open spec fn chain_views(chains: Seq<Chain>) -> Seq<ChainView> {
    chains.map_values(|c: Chain| c@)
}

/// The chain of the stone on `start`, listed from there.
pub open spec fn chain_at(cells: Seq<i8>, start: usize) -> ChainView {
    let stones = walk_order(points_with(cells, cells[start as int]), start);
    ChainView {
        stones,
        liberties: fringe(points_with(cells, 0), stones),
        color: cells[start as int],
    }
}

/// The stone on `p` comes first among the stones of its chain.
pub open spec fn leads(cells: Seq<i8>, p: usize) -> bool {
    &&& p < CELL_COUNT
    &&& cells[p as int] != 0
    &&& forall|q: usize| #[trigger] same_component(cells, p).contains(q) ==> p <= q
}

/// The chains that start below `n`, each listed from its first stone.
pub open spec fn chains_below(cells: Seq<i8>, n: nat) -> Seq<ChainView>
    decreases n,
{
    if n == 0 {
        Seq::empty()
    } else {
        let before = chains_below(cells, (n - 1) as nat);
        if leads(cells, (n - 1) as usize) {
            before.push(chain_at(cells, (n - 1) as usize))
        } else {
            before
        }
    }
}

/// The chains of a position, ordered by their first stones.
pub open spec fn chain_list(cells: Seq<i8>) -> Seq<ChainView> {
    chains_below(cells, CELL_COUNT as nat)
}

/// Every stone belongs to a chain that some stone leads.
pub proof fn lemma_leader(cells: Seq<i8>, p: usize) -> (leader: usize)
    requires
        p < CELL_COUNT,
        cells[p as int] != 0,
    ensures
        leader <= p,
        leads(cells, leader),
        same_component(cells, leader).contains(p),
        same_component(cells, leader) == same_component(cells, p),
        cells[leader as int] == cells[p as int],
    decreases p,
{
    let area = points_with(cells, cells[p as int]);
    lemma_component_basic(area, p);
    if leads(cells, p) {
        p
    } else {
        let q = choose|q: usize| #[trigger] same_component(cells, p).contains(q) && q < p;
        lemma_component_of_member(area, p, q);
        lemma_leader(cells, q)
    }
}

pub proof fn lemma_chain_at(cells: Seq<i8>, start: usize)
    requires
        start < CELL_COUNT,
    ensures
        chain_at(cells, start).stones.no_duplicates(),
        chain_at(cells, start).stones.len() > 0,
        chain_at(cells, start).stones[0] == start,
        chain_at(cells, start).stones.len() <= CELL_COUNT,
        chain_at(cells, start).stones.to_set() == same_component(cells, start),
        same_component(cells, start).finite(),
        chain_at(cells, start).stones.len() == same_component(cells, start).len(),
        forall|i: int|
            0 <= i < chain_at(cells, start).stones.len() ==> #[trigger] chain_at(
                cells,
                start,
            ).stones[i] < CELL_COUNT && cells[chain_at(cells, start).stones[i] as int]
                == cells[start as int],
        forall|q: usize| #[trigger]
            chain_at(cells, start).stones.contains(q) <==> same_component(cells, start).contains(q),
        chain_at(cells, start).liberties.no_duplicates(),
        chain_at(cells, start).liberties.len() <= CELL_COUNT,
        chain_at(cells, start).liberties.to_set() == liberties_of(cells, start),
        liberties_of(cells, start).finite(),
        chain_at(cells, start).liberties.len() == liberties_of(cells, start).len(),
        forall|i: int|
            0 <= i < chain_at(cells, start).liberties.len() ==> #[trigger] chain_at(
                cells,
                start,
            ).liberties[i] < CELL_COUNT,
        forall|q: usize| #[trigger]
            chain_at(cells, start).liberties.contains(q) <==> liberties_of(cells, start).contains(q),
{
    let area = points_with(cells, cells[start as int]);
    let chain = chain_at(cells, start);
    lemma_walk_order(area, start);
    lemma_fringe(points_with(cells, 0), chain.stones);
    lemma_component_basic(area, start);
    assert forall|i: int| 0 <= i < chain.stones.len() implies #[trigger] chain.stones[i]
        < CELL_COUNT && cells[chain.stones[i] as int] == cells[start as int] by {
        assert(chain.stones.contains(chain.stones[i]));
    }
    assert forall|q: usize| #[trigger] chain.liberties.contains(q) <==> liberties_of(
        cells,
        start,
    ).contains(q) by {
        assert(chain.liberties.to_set().contains(q) <==> chain.liberties.contains(q));
    }
}

/// What the chain list holds: the chains of the leading stones, in order.
pub proof fn lemma_chains_below(cells: Seq<i8>, n: nat)
    requires
        n <= CELL_COUNT,
    ensures
        chains_below(cells, n).len() <= n,
        forall|i: int|
            0 <= i < chains_below(cells, n).len() ==> {
                let c = #[trigger] chains_below(cells, n)[i];
                &&& c.stones[0] < n
                &&& leads(cells, c.stones[0])
                &&& c == chain_at(cells, c.stones[0])
            },
        forall|i: int, j: int|
            0 <= i < j < chains_below(cells, n).len() ==> (#[trigger] chains_below(
                cells,
                n,
            )[i]).stones[0] < (#[trigger] chains_below(cells, n)[j]).stones[0],
        forall|l: usize|
            l < n && #[trigger] leads(cells, l) ==> exists|i: int|
                0 <= i < chains_below(cells, n).len() && #[trigger] chains_below(cells, n)[i]
                    == chain_at(cells, l),
    decreases n,
{
    if n > 0 {
        let m = (n - 1) as nat;
        lemma_chains_below(cells, m);
        let before = chains_below(cells, m);
        let list = chains_below(cells, n);
        let start = m as usize;
        if leads(cells, start) {
            lemma_chain_at(cells, start);
            assert forall|l: usize| l < n && #[trigger] leads(cells, l) implies exists|i: int|
                0 <= i < list.len() && #[trigger] list[i] == chain_at(cells, l) by {
                if l < m {
                    let i = choose|i: int|
                        0 <= i < before.len() && #[trigger] before[i] == chain_at(cells, l);
                    assert(list[i] == chain_at(cells, l));
                } else {
                    assert(list[before.len() as int] == chain_at(cells, l));
                }
            }
        }
    }
}

/// The place of a stone's chain in the list. There is exactly one.
pub proof fn lemma_chain_of_stone(cells: Seq<i8>, p: usize) -> (id: int)
    requires
        p < CELL_COUNT,
        cells[p as int] != 0,
    ensures
        0 <= id < chain_list(cells).len(),
        chain_list(cells)[id].stones.contains(p),
        chain_list(cells)[id].stones.to_set() == same_component(cells, p),
        chain_list(cells)[id].liberties.to_set() == liberties_of(cells, p),
        chain_list(cells)[id].liberties.len() == liberties_of(cells, p).len(),
        chain_list(cells)[id].stones.len() == same_component(cells, p).len(),
        chain_list(cells)[id].color == cells[p as int],
        forall|j: int|
            0 <= j < chain_list(cells).len() && #[trigger] chain_list(cells)[j].stones.contains(p)
                ==> j == id,
{
    let list = chain_list(cells);
    lemma_chains_below(cells, CELL_COUNT as nat);
    let l = lemma_leader(cells, p);
    let id = choose|i: int| 0 <= i < list.len() && #[trigger] list[i] == chain_at(cells, l);
    lemma_chain_at(cells, l);
    assert forall|j: int| 0 <= j < list.len() && #[trigger] list[j].stones.contains(p) implies j
        == id by {
        let s = list[j].stones[0];
        lemma_chain_at(cells, s);
        let area = points_with(cells, cells[p as int]);
        lemma_component_basic(points_with(cells, cells[s as int]), s);
        assert(cells[s as int] == cells[p as int]);
        lemma_components_meet(area, s, l, p);
        assert(same_component(cells, s).contains(l));
        assert(same_component(cells, l).contains(s)) by {
            lemma_component_basic(area, s);
        }
        assert(s == l);
    }
    id
}

/// The points of `stones`' surroundings that are empty, each once, in the
/// order in which a scan meets them.
pub fn liberty_points(cells: &[i8], stones: &Vec<usize>) -> (liberties: Vec<usize>)
    requires
        cells@.len() >= CELL_COUNT,
        forall|i: int| 0 <= i < stones@.len() ==> #[trigger] stones@[i] < CELL_COUNT,
    ensures
        liberties@ == fringe(points_with(cells@, 0), stones@),
{
    let ghost area = points_with(cells@, 0);
    let mut liberties: Vec<usize> = Vec::new();
    let mut listed: [bool; 361] = [false; 361];
    let mut i: usize = 0;
    assert(stones@.take(0) =~= Seq::<usize>::empty());
    while i < stones.len()
        invariant
            cells@.len() >= CELL_COUNT,
            area == points_with(cells@, 0),
            i <= stones@.len(),
            forall|j: int| 0 <= j < stones@.len() ==> #[trigger] stones@[j] < CELL_COUNT,
            liberties@ == fringe(area, stones@.take(i as int)),
            forall|q: usize|
                q < CELL_COUNT ==> #[trigger] listed@[q as int] == liberties@.contains(q),
        decreases stones@.len() - i,
    {
        let p: usize = stones[i];
        let ns = neighbors(p);
        let ghost before = liberties@;
        proof {
            lemma_neighbors(p);
            lemma_fringe(area, stones@.take(i as int));
            assert(neighbors_of(p).take(0) =~= Seq::<usize>::empty());
        }
        let mut k: usize = 0;
        while k < ns.len
            invariant
                cells@.len() >= CELL_COUNT,
                area == points_with(cells@, 0),
                p < CELL_COUNT,
                ns.len <= 4,
                ns@ == neighbors_of(p),
                k <= ns.len,
                liberties@ == absorb(area, before, neighbors_of(p).take(k as int)),
                forall|q: usize|
                    q < CELL_COUNT ==> #[trigger] listed@[q as int] == liberties@.contains(q),
            decreases ns.len - k,
        {
            let n: usize = ns.points[k];
            proof {
                lemma_neighbors(p);
                assert(ns@[k as int] == n);
                assert(adjacent(p, neighbors_of(p)[k as int]));
                let more = neighbors_of(p).take(k + 1);
                assert(more.drop_last() =~= neighbors_of(p).take(k as int));
                assert(more.last() == n);
            }
            let ghost queue = liberties@;
            if cells[n] == 0 && !listed[n] {
                listed[n] = true;
                liberties.push(n);
                proof {
                    assert forall|q: usize| #[trigger]
                        liberties@.contains(q) <==> queue.contains(q) || q == n by {
                        if queue.contains(q) {
                            assert(liberties@[queue.index_of(q)] == q);
                        }
                        assert(liberties@[queue.len() as int] == n);
                    }
                }
            }
            k = k + 1;
        }
        proof {
            assert(neighbors_of(p).take(ns.len as int) =~= neighbors_of(p));
            let more = stones@.take(i + 1);
            assert(more.drop_last() =~= stones@.take(i as int));
            assert(more.last() == p);
        }
        i = i + 1;
    }
    assert(stones@.take(stones@.len() as int) =~= stones@);
    liberties
}

/// The chain of the stone on `start`, listed from there.
pub fn chain_from(cells: &[i8], start: usize) -> (chain: Chain)
    requires
        cells@.len() >= CELL_COUNT,
        start < CELL_COUNT,
    ensures
        chain@ == chain_at(cells@, start),
{
    let stones: Vec<usize> = flood(cells, start);
    proof {
        lemma_chain_at(cells@, start);
    }
    let liberties: Vec<usize> = liberty_points(cells, &stones);
    Chain { stones, liberties, color: cells[start] }
}

/// The chains of a position.
pub fn chains(cells: &[i8]) -> (result: Vec<Chain>)
    requires
        cells@.len() >= CELL_COUNT,
    ensures
        chain_views(result@) == chain_list(cells@),
{
    let mut seen: [bool; 361] = [false; 361];
    let mut result: Vec<Chain> = Vec::new();
    let mut start: usize = 0;
    assert(chain_views(result@) =~= chains_below(cells@, 0));
    while start < CELL_COUNT
        invariant
            cells@.len() >= CELL_COUNT,
            start <= CELL_COUNT,
            chain_views(result@) == chains_below(cells@, start as nat),
            forall|p: usize|
                p < CELL_COUNT ==> (#[trigger] seen@[p as int] <==> exists|l: usize|
                    l < start && #[trigger] leads(cells@, l) && same_component(
                        cells@,
                        l,
                    ).contains(p)),
        decreases CELL_COUNT - start,
    {
        let ghost before = seen@;
        if cells[start] != 0 && !seen[start] {
            proof {
                let l = lemma_leader(cells@, start);
                assert(l == start);
            }
            let stones: Vec<usize> = flood(cells, start);
            proof {
                lemma_chain_at(cells@, start);
            }
            let mut i: usize = 0;
            while i < stones.len()
                invariant
                    i <= stones@.len(),
                    forall|j: int| 0 <= j < stones@.len() ==> #[trigger] stones@[j] < CELL_COUNT,
                    forall|p: usize|
                        p < CELL_COUNT ==> (#[trigger] seen@[p as int] <==> before[p as int]
                            || exists|j: int| 0 <= j < i && #[trigger] stones@[j] == p),
                decreases stones@.len() - i,
            {
                let ghost marked = seen@;
                seen[stones[i]] = true;
                proof {
                    assert forall|p: usize| p < CELL_COUNT implies (#[trigger] seen@[p as int]
                        <==> before[p as int] || exists|j: int|
                        0 <= j < i + 1 && #[trigger] stones@[j] == p) by {
                        if p == stones@[i as int] {
                        } else {
                            assert(seen@[p as int] == marked[p as int]);
                        }
                    }
                }
                i = i + 1;
            }
            let liberties: Vec<usize> = liberty_points(cells, &stones);
            let ghost list = result@;
            let chain = Chain { stones, liberties, color: cells[start] };
            result.push(chain);
            proof {
                assert(chain@ == chain_at(cells@, start));
                assert(chain_views(result@) =~= chain_views(list).push(chain@));
                assert forall|p: usize| p < CELL_COUNT implies (#[trigger] seen@[p as int]
                    <==> exists|l: usize|
                    l < start + 1 && #[trigger] leads(cells@, l) && same_component(
                        cells@,
                        l,
                    ).contains(p)) by {
                    if seen@[p as int] && !before[p as int] {
                        let j = choose|j: int| 0 <= j < chain.stones@.len() && #[trigger] chain.stones@[j] == p;
                        assert(chain.stones@.contains(p));
                        assert(leads(cells@, start));
                    }
                    if exists|l: usize|
                        l < start + 1 && #[trigger] leads(cells@, l) && same_component(
                            cells@,
                            l,
                        ).contains(p) {
                        let l = choose|l: usize|
                            l < start + 1 && #[trigger] leads(cells@, l) && same_component(
                                cells@,
                                l,
                            ).contains(p);
                        if l == start {
                            assert(chain.stones@.contains(p));
                            assert(chain.stones@[chain.stones@.index_of(p)] == p);
                        } else {
                            assert(before[p as int]);
                        }
                    }
                }
            }
        } else {
            proof {
                if leads(cells@, start) {
                    assert(before[start as int]);
                    let l = choose|l: usize|
                        l < start && #[trigger] leads(cells@, l) && same_component(
                            cells@,
                            l,
                        ).contains(start);
                    let area = points_with(cells@, cells@[l as int]);
                    lemma_component_of_member(area, l, start);
                    lemma_component_basic(area, l);
                    assert(same_component(cells@, start).contains(l));
                    assert(false);
                }
                assert forall|p: usize| p < CELL_COUNT implies (#[trigger] seen@[p as int]
                    <==> exists|l: usize|
                    l < start + 1 && #[trigger] leads(cells@, l) && same_component(
                        cells@,
                        l,
                    ).contains(p)) by {
                    assert(seen@[p as int] == before[p as int]);
                }
            }
        }
        start = start + 1;
    }
    result
}

} // verus!
