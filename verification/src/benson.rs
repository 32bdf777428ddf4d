//! Unconditional life. Only wholly empty regions count as eyes, so that what
//! is called alive stays on the board even if its owner always passes.
use crate::game::liberties_of;
use crate::grid::{
    adjacent, component, flood, lemma_adjacent_symmetric, lemma_component_basic,
    lemma_component_of_member, lemma_neighbors, lemma_walk_order, neighbors, neighbors_of,
    points_with, same_component, walk_order, CELL_COUNT,
};
use crate::chains::{
    chain_at, chain_list, chain_views, chains, lemma_chain_at, lemma_chain_of_stone,
    lemma_chains_below, Chain,
};
use vstd::prelude::*;

verus! {

/// The empty region of `r`.
pub open spec fn region_of(cells: Seq<i8>, r: usize) -> Set<usize> {
    component(points_with(cells, 0), r)
}

/// The region of `r` is an eye of the chain of `p`, if the stones in `kept`
/// stay: every point of it is a liberty of the chain, and every stone next to
/// it is of the chain's color and in `kept`.
pub open spec fn eye_of(cells: Seq<i8>, kept: Set<usize>, p: usize, r: usize) -> bool {
    &&& r < CELL_COUNT
    &&& cells[r as int] == 0
    &&& region_of(cells, r).subset_of(liberties_of(cells, p))
    &&& forall|q: usize, s: usize|
        region_of(cells, r).contains(q) && #[trigger] adjacent(q, s) && cells[s as int] != 0
            ==> kept.contains(s) && cells[s as int] == cells[p as int]
}

/// Two different regions are eyes of the chain of `p`.
pub open spec fn two_eyes(cells: Seq<i8>, kept: Set<usize>, p: usize) -> bool {
    exists|a: usize, b: usize|
        {
            &&& #[trigger] eye_of(cells, kept, p, a)
            &&& #[trigger] eye_of(cells, kept, p, b)
            &&& region_of(cells, a) != region_of(cells, b)
        }
}

/// A set of whole chains each of which has two eyes as long as the set stays.
pub open spec fn secure(cells: Seq<i8>, kept: Set<usize>) -> bool {
    forall|p: usize| #[trigger]
        kept.contains(p) ==> {
            &&& p < CELL_COUNT
            &&& cells[p as int] != 0
            &&& same_component(cells, p).subset_of(kept)
            &&& two_eyes(cells, kept, p)
        }
}

/// The stone on `p` is unconditionally alive: it belongs to a secure set.
pub open spec fn alive_at(cells: Seq<i8>, p: usize) -> bool {
    exists|kept: Set<usize>| #[trigger] secure(cells, kept) && kept.contains(p)
}

/// An empty region whose bordering stones are of one color, and the places of
/// the bordering chains in the chain list.
struct Region {
    points: Vec<usize>,
    boundary: Vec<usize>,
}

/// The places of `at` are those of the chains.
spec fn indexed(cells: Seq<i8>, at: Seq<usize>) -> bool {
    &&& at.len() == CELL_COUNT
    &&& forall|p: usize|
        p < CELL_COUNT && cells[p as int] != 0 ==> {
            &&& #[trigger] at[p as int] < chain_list(cells).len()
            &&& chain_list(cells)[at[p as int] as int].stones.contains(p)
        }
}

/// The stones of the chains that are marked.
spec fn marked(cells: Seq<i8>, alive: Seq<bool>) -> Set<usize> {
    Set::new(
        |p: usize|
            p < CELL_COUNT && cells[p as int] != 0 && exists|i: int|
                0 <= i < chain_list(cells).len() && alive[i] && #[trigger] chain_list(
                    cells,
                )[i].stones.contains(p),
    )
}

#[verifier::opaque]
spec fn region_ok(cells: Seq<i8>, region: Region) -> bool {
    &&& region.points@.len() > 0
    &&& region.points@[0] < CELL_COUNT
    &&& cells[region.points@[0] as int] == 0
    &&& region.points@.to_set() == region_of(cells, region.points@[0])
    &&& forall|i: int| 0 <= i < region.points@.len() ==> #[trigger] region.points@[i] < CELL_COUNT
    &&& forall|i: int|
        0 <= i < region.boundary@.len() ==> #[trigger] region.boundary@[i] < chain_list(cells).len()
    &&& forall|q: usize, s: usize|
        region_of(cells, region.points@[0]).contains(q) && #[trigger] adjacent(q, s)
            && cells[s as int] != 0 ==> exists|i: int|
            0 <= i < region.boundary@.len() && chain_list(
                cells,
            )[#[trigger] region.boundary@[i] as int].stones.contains(s)
    &&& forall|i: int|
        0 <= i < region.boundary@.len() ==> touches(
            cells,
            region.points@[0],
            #[trigger] region.boundary@[i],
        )
}

/// The chain in the given place borders the region of `r`.
#[verifier::opaque]
spec fn touches(cells: Seq<i8>, r: usize, id: usize) -> bool {
    exists|q: usize, s: usize|
        region_of(cells, r).contains(q) && #[trigger] adjacent(q, s) && cells[s as int] != 0
            && chain_list(cells)[id as int].stones.contains(s)
}

#[verifier::opaque]
spec fn one_colored(cells: Seq<i8>, region: Region) -> bool {
    forall|i: int, j: int|
        0 <= i < region.boundary@.len() && 0 <= j < region.boundary@.len() ==> chain_list(
            cells,
        )[#[trigger] region.boundary@[i] as int].color == chain_list(
            cells,
        )[#[trigger] region.boundary@[j] as int].color
}

/// The list holds the regions whose first point is below `n`, each once,
/// that have a border of one color.
spec fn regions_below(cells: Seq<i8>, regions: Seq<Region>, n: int) -> bool {
    &&& forall|j: int|
        0 <= j < regions.len() ==> region_ok(cells, #[trigger] regions[j]) && one_colored(
            cells,
            regions[j],
        ) && regions[j].boundary@.len() > 0
    &&& forall|i: int, j: int|
        0 <= i < j < regions.len() ==> (#[trigger] regions[i]).points@[0] < (
        #[trigger] regions[j]).points@[0] && region_of(cells, regions[i].points@[0]) != region_of(
            cells,
            regions[j].points@[0],
        )
    &&& forall|r: usize|
        #![trigger region_of(cells, r)]
        r < n && r < CELL_COUNT && cells[r as int] == 0 && bordered(cells, region_of(cells, r)) ==> exists|j: int|
            0 <= j < regions.len() && region_of(cells, (#[trigger] regions[j]).points@[0])
                == region_of(cells, r)
    &&& forall|j: int| 0 <= j < regions.len() ==> (#[trigger] regions[j]).points@[0] < n
}

/// The points have stones next to them, all of one color.
#[verifier::opaque]
spec fn bordered(cells: Seq<i8>, inside: Set<usize>) -> bool {
    exists|color: i8|
        {
            &&& #[trigger] bordered_by(cells, inside, color)
            &&& exists|q: usize, s: usize|
                inside.contains(q) && #[trigger] adjacent(q, s) && cells[s as int] != 0
        }
}

#[verifier::opaque]
spec fn bordered_by(cells: Seq<i8>, inside: Set<usize>, color: i8) -> bool {
    forall|q: usize, s: usize|
        inside.contains(q) && #[trigger] adjacent(q, s) && cells[s as int] != 0 ==> cells[s as int]
            == color
}

proof fn lemma_region_facts(cells: Seq<i8>, region: Region)
    requires
        region_ok(cells, region),
    ensures
        region.points@.len() > 0,
        region.points@[0] < CELL_COUNT,
        cells[region.points@[0] as int] == 0,
        region.points@.to_set() == region_of(cells, region.points@[0]),
        forall|i: int| 0 <= i < region.points@.len() ==> #[trigger] region.points@[i] < CELL_COUNT,
        forall|i: int|
            0 <= i < region.boundary@.len() ==> #[trigger] region.boundary@[i] < chain_list(
                cells,
            ).len(),
{
    reveal(region_ok);
}

fn holds_value(values: &Vec<usize>, value: usize) -> (found: bool)
    ensures
        found == values@.contains(value),
{
    let mut i: usize = 0;
    while i < values.len()
        invariant
            i <= values@.len(),
            forall|j: int| 0 <= j < i ==> values@[j] != value,
        decreases values@.len() - i,
    {
        if values[i] == value {
            assert(values@[i as int] == value);
            return true;
        }
        i = i + 1;
    }
    false
}

/// The region of the empty point `start` and the chains that border it.
fn region_at(cells: &[i8], at: &Vec<usize>, start: usize) -> (region: Region)
    requires
        cells@.len() >= CELL_COUNT,
        start < CELL_COUNT,
        cells@[start as int] == 0,
        indexed(cells@, at@),
    ensures
        region_ok(cells@, region),
        region.points@[0] == start,
        region.points@ == walk_order(points_with(cells@, 0), start),
{
    let points: Vec<usize> = flood(cells, start);
    let ghost empty = points_with(cells@, 0);
    proof {
        lemma_walk_order(empty, start);
    }
    let mut boundary: Vec<usize> = Vec::new();
    let mut i: usize = 0;
    while i < points.len()
        invariant
            cells@.len() >= CELL_COUNT,
            indexed(cells@, at@),
            start < CELL_COUNT,
            cells@[start as int] == 0,
            i <= points@.len(),
            points@.to_set() == region_of(cells@, start),
            forall|j: int| 0 <= j < points@.len() ==> #[trigger] points@[j] < CELL_COUNT,
            forall|j: int|
                0 <= j < boundary@.len() ==> #[trigger] boundary@[j] < chain_list(cells@).len()
                    && touches(cells@, start, boundary@[j]),
            forall|j: int, s: usize|
                0 <= j < i && #[trigger] adjacent(points@[j], s) && cells@[s as int] != 0
                    ==> boundary@.contains(at@[s as int]),
        decreases points@.len() - i,
    {
        let p: usize = points[i];
        let ns = neighbors(p);
        proof {
            lemma_neighbors(p);
            assert(points@.to_set().contains(p));
        }
        let ghost earlier = boundary@;
        let mut k: usize = 0;
        while k < ns.len
            invariant
                cells@.len() >= CELL_COUNT,
                indexed(cells@, at@),
                p < CELL_COUNT,
                region_of(cells@, start).contains(p),
                ns.len <= 4,
                ns@ == neighbors_of(p),
                k <= ns.len,
                forall|m: int| 0 <= m < ns@.len() ==> adjacent(p, #[trigger] ns@[m]),
                forall|x: usize| earlier.contains(x) ==> #[trigger] boundary@.contains(x),
                forall|j: int|
                    0 <= j < boundary@.len() ==> #[trigger] boundary@[j] < chain_list(cells@).len()
                        && touches(cells@, start, boundary@[j]),
                forall|m: int|
                    0 <= m < k && cells@[#[trigger] ns@[m] as int] != 0 ==> boundary@.contains(
                        at@[ns@[m] as int],
                    ),
            decreases ns.len - k,
        {
            let n: usize = ns.points[k];
            assert(ns@[k as int] == n);
            if cells[n] != 0 && !holds_value(&boundary, at[n]) {
                let ghost before = boundary@;
                let id: usize = at[n];
                proof {
                    assert(adjacent(p, n));
                    assert(touches(cells@, start, id)) by {
                        reveal(touches);
                    }
                }
                boundary.push(id);
                proof {
                    assert forall|x: usize| before.contains(x) implies #[trigger] boundary@.contains(
                        x,
                    ) by {
                        assert(boundary@[before.index_of(x)] == x);
                    }
                    assert(boundary@[before.len() as int] == id);
                }
            }
            k = k + 1;
        }
        proof {
            assert forall|j: int, s: usize|
                0 <= j < i + 1 && #[trigger] adjacent(points@[j], s) && cells@[s as int]
                    != 0 implies boundary@.contains(at@[s as int]) by {
                if j == i {
                    assert(neighbors_of(p).contains(s));
                    assert(ns@[ns@.index_of(s)] == s);
                } else {
                    assert(earlier.contains(at@[s as int]));
                }
            }
        }
        i = i + 1;
    }
    let region = Region { points, boundary };
    proof {
        reveal(region_ok);
        assert forall|q: usize, s: usize|
            region_of(cells@, start).contains(q) && #[trigger] adjacent(q, s) && cells@[s as int]
                != 0 implies exists|j: int|
            0 <= j < region.boundary@.len() && chain_list(
                cells@,
            )[#[trigger] region.boundary@[j] as int].stones.contains(s) by {
            assert(region.points@.to_set().contains(q));
            let m = region.points@.index_of(q);
            assert(adjacent(region.points@[m], s));
            assert(region.boundary@.contains(at@[s as int]));
            let j = region.boundary@.index_of(at@[s as int]);
            assert(region.boundary@[j] == at@[s as int]);
        }
    }
    region
}


/// A stone has the color of its chain.
proof fn lemma_chain_color(cells: Seq<i8>, i: int, s: usize)
    requires
        0 <= i < chain_list(cells).len(),
        chain_list(cells)[i].stones.contains(s),
    ensures
        s < CELL_COUNT,
        cells[s as int] == chain_list(cells)[i].color,
        cells[s as int] != 0,
{
    lemma_chains_below(cells, CELL_COUNT as nat);
    let c = chain_list(cells)[i];
    lemma_chain_at(cells, c.stones[0]);
    let j = c.stones.index_of(s);
    assert(chain_at(cells, c.stones[0]).stones[j] == s);
}

/// The border that a region keeps tells whether it is of one color.
proof fn lemma_bordered(cells: Seq<i8>, region: Region)
    requires
        region_ok(cells, region),
        bordered(cells, region_of(cells, region.points@[0])),
    ensures
        region.boundary@.len() > 0,
        one_colored(cells, region),
{
    reveal(region_ok);
    reveal(touches);
    reveal(one_colored);
    reveal(bordered);
    reveal(bordered_by);
    let r = region.points@[0];
    let color = choose|color: i8| #[trigger] bordered_by(cells, region_of(cells, r), color);
    let (q, s) = choose|q: usize, s: usize|
        region_of(cells, r).contains(q) && #[trigger] adjacent(q, s) && cells[s as int] != 0;
    let i = choose|i: int|
        0 <= i < region.boundary@.len() && chain_list(
            cells,
        )[#[trigger] region.boundary@[i] as int].stones.contains(s);
    assert(region.boundary@.len() > 0);
    assert forall|i: int, j: int|
        0 <= i < region.boundary@.len() && 0 <= j < region.boundary@.len() implies chain_list(
        cells,
    )[#[trigger] region.boundary@[i] as int].color == chain_list(
        cells,
    )[#[trigger] region.boundary@[j] as int].color by {
        let a = region.boundary@[i];
        let b = region.boundary@[j];
        assert(touches(cells, r, a));
        assert(touches(cells, r, b));
        let (q1, s1) = choose|q: usize, s: usize|
            region_of(cells, r).contains(q) && #[trigger] adjacent(q, s) && cells[s as int] != 0
                && chain_list(cells)[a as int].stones.contains(s);
        let (q2, s2) = choose|q: usize, s: usize|
            region_of(cells, r).contains(q) && #[trigger] adjacent(q, s) && cells[s as int] != 0
                && chain_list(cells)[b as int].stones.contains(s);
        lemma_chain_color(cells, a as int, s1);
        lemma_chain_color(cells, b as int, s2);
        assert(adjacent(q1, s1) && adjacent(q2, s2));
    }
}

/// The empty regions with a border of one color.
fn collect_regions(cells: &[i8], groups: &[Chain], at: &Vec<usize>) -> (regions: Vec<Region>)
    requires
        cells@.len() >= CELL_COUNT,
        chain_views(groups@) == chain_list(cells@),
        indexed(cells@, at@),
    ensures
        regions_below(cells@, regions@, CELL_COUNT as int),
{
    let ghost empty = points_with(cells@, 0);
    let mut regions: Vec<Region> = Vec::new();
    let mut seen: [bool; 361] = [false; 361];
    let mut start: usize = 0;
    while start < CELL_COUNT
        invariant
            cells@.len() >= CELL_COUNT,
            empty == points_with(cells@, 0),
            chain_views(groups@) == chain_list(cells@),
            indexed(cells@, at@),
            start <= CELL_COUNT,
            regions_below(cells@, regions@, start as int),
            forall|p: usize|
                p < CELL_COUNT ==> (#[trigger] seen@[p as int] <==> exists|l: usize|
                    l < start && cells@[l as int] == 0 && #[trigger] region_of(
                        cells@,
                        l,
                    ).contains(p)),
        decreases CELL_COUNT - start,
    {
        let ghost before = seen@;
        let ghost list = regions@;
        if cells[start] == 0 && !seen[start] {
            let region: Region = region_at(cells, at, start);
            proof {
                lemma_region_facts(cells@, region);
                lemma_component_basic(empty, start);
            }
            let mut i: usize = 0;
            while i < region.points.len()
                invariant
                    i <= region.points@.len(),
                    forall|j: int|
                        0 <= j < region.points@.len() ==> #[trigger] region.points@[j] < CELL_COUNT,
                    forall|p: usize|
                        p < CELL_COUNT ==> (#[trigger] seen@[p as int] <==> before[p as int]
                            || exists|j: int| 0 <= j < i && #[trigger] region.points@[j] == p),
                decreases region.points@.len() - i,
            {
                let ghost held = seen@;
                seen[region.points[i]] = true;
                proof {
                    assert forall|p: usize| p < CELL_COUNT implies (#[trigger] seen@[p as int]
                        <==> before[p as int] || exists|j: int|
                        0 <= j < i + 1 && #[trigger] region.points@[j] == p) by {
                        if p != region.points@[i as int] {
                            assert(seen@[p as int] == held[p as int]);
                        }
                    }
                }
                i = i + 1;
            }
            proof {
                assert forall|p: usize| p < CELL_COUNT implies (#[trigger] seen@[p as int]
                    <==> exists|l: usize|
                    l < start + 1 && cells@[l as int] == 0 && #[trigger] region_of(
                        cells@,
                        l,
                    ).contains(p)) by {
                    if seen@[p as int] && !before[p as int] {
                        let j = choose|j: int|
                            0 <= j < region.points@.len() && #[trigger] region.points@[j] == p;
                        assert(region.points@.to_set().contains(p));
                        assert(region_of(cells@, start).contains(p));
                    }
                    if exists|l: usize|
                        l < start + 1 && cells@[l as int] == 0 && #[trigger] region_of(
                            cells@,
                            l,
                        ).contains(p) {
                        let l = choose|l: usize|
                            l < start + 1 && cells@[l as int] == 0 && #[trigger] region_of(
                                cells@,
                                l,
                            ).contains(p);
                        if l == start {
                            assert(region.points@.to_set().contains(p));
                            assert(region.points@[region.points@.index_of(p)] == p);
                        } else {
                            assert(before[p as int]);
                        }
                    }
                }
                assert forall|j: int| 0 <= j < list.len() implies region_of(
                    cells@,
                    (#[trigger] list[j]).points@[0],
                ) != region_of(cells@, start) by {
                    let l = list[j].points@[0];
                    if region_of(cells@, l) == region_of(cells@, start) {
                        lemma_region_facts(cells@, list[j]);
                        assert(region_of(cells@, l).contains(start));
                        assert(before[start as int]);
                    }
                }
            }
            let mut same: bool = region.boundary.len() > 0;
            let mut k: usize = 0;
            assert(chain_views(groups@).len() == groups@.len());
            while k < region.boundary.len()
                invariant
                    chain_views(groups@) == chain_list(cells@),
                    groups@.len() == chain_list(cells@).len(),
                    forall|j: int|
                        0 <= j < region.boundary@.len() ==> #[trigger] region.boundary@[j]
                            < chain_list(cells@).len(),
                    k <= region.boundary@.len(),
                    region.boundary@.len() == 0 ==> !same,
                    region.boundary@.len() > 0 ==> (same <==> forall|j: int|
                        0 <= j < k ==> chain_list(
                            cells@,
                        )[#[trigger] region.boundary@[j] as int].color == chain_list(
                            cells@,
                        )[region.boundary@[0] as int].color),
                decreases region.boundary@.len() - k,
            {
                let g: usize = region.boundary[k];
                let first: usize = region.boundary[0];
                proof {
                    assert(chain_views(groups@)[g as int] == groups@[g as int]@);
                    assert(chain_views(groups@)[first as int] == groups@[first as int]@);
                }
                if groups[g].color != groups[first].color {
                    same = false;
                }
                k = k + 1;
            }
            proof {
                if bordered(cells@, region_of(cells@, start)) {
                    lemma_bordered(cells@, region);
                    assert(same) by {
                        reveal(one_colored);
                    }
                }
                if same {
                    assert(one_colored(cells@, region)) by {
                        reveal(one_colored);
                    }
                }
                assert forall|r: usize|
                    #![trigger region_of(cells@, r)]
                    r < start + 1 && r < CELL_COUNT && cells@[r as int] == 0 && bordered(cells@, region_of(cells@, r))
                        && r != start implies exists|j: int|
                    0 <= j < list.len() && region_of(cells@, (#[trigger] list[j]).points@[0])
                        == region_of(cells@, r) by {
                    assert(r < start);
                }
            }
            if same {
                regions.push(region);
                proof {
                    assert forall|r: usize|
                        #![trigger region_of(cells@, r)]
                        r < start + 1 && r < CELL_COUNT && cells@[r as int] == 0 && bordered(
                            cells@,
                            region_of(cells@, r),
                        ) implies exists|j: int|
                        0 <= j < regions@.len() && region_of(
                            cells@,
                            (#[trigger] regions@[j]).points@[0],
                        ) == region_of(cells@, r) by {
                        if r == start {
                            assert(regions@[list.len() as int] == region);
                        } else {
                            let j = choose|j: int|
                                0 <= j < list.len() && region_of(
                                    cells@,
                                    (#[trigger] list[j]).points@[0],
                                ) == region_of(cells@, r);
                            assert(regions@[j] == list[j]);
                        }
                    }
                }
            }
            assert(regions_below(cells@, regions@, start + 1));
        } else {
            proof {
                assert forall|p: usize| p < CELL_COUNT implies (#[trigger] seen@[p as int]
                    <==> exists|l: usize|
                    l < start + 1 && cells@[l as int] == 0 && #[trigger] region_of(
                        cells@,
                        l,
                    ).contains(p)) by {
                    assert(seen@[p as int] == before[p as int]);
                    if exists|l: usize|
                        l < start + 1 && cells@[l as int] == 0 && #[trigger] region_of(
                            cells@,
                            l,
                        ).contains(p) {
                        let l = choose|l: usize|
                            l < start + 1 && cells@[l as int] == 0 && #[trigger] region_of(
                                cells@,
                                l,
                            ).contains(p);
                        if l == start {
                            let m = choose|m: usize|
                                m < start && cells@[m as int] == 0 && #[trigger] region_of(
                                    cells@,
                                    m,
                                ).contains(start);
                            lemma_component_of_member(empty, m, start);
                            assert(region_of(cells@, m).contains(p));
                        }
                    }
                }
                assert forall|r: usize|
                    #![trigger region_of(cells@, r)]
                    r < start + 1 && r < CELL_COUNT && cells@[r as int] == 0 && bordered(
                        cells@,
                        region_of(cells@, r),
                    ) implies exists|j: int|
                    0 <= j < regions@.len() && region_of(
                        cells@,
                        (#[trigger] regions@[j]).points@[0],
                    ) == region_of(cells@, r) by {
                    if r == start {
                        assert(before[start as int]);
                        let m = choose|m: usize|
                            m < start && cells@[m as int] == 0 && #[trigger] region_of(
                                cells@,
                                m,
                            ).contains(start);
                        lemma_component_of_member(empty, m, start);
                        assert(region_of(cells@, m) == region_of(cells@, r));
                    }
                }
            }
            assert(regions_below(cells@, regions@, start + 1));
        }
        start = start + 1;
    }
    regions
}

/// The region is an eye of the chain in place `i`, if the marked chains stay.
#[verifier::opaque]
spec fn eye_for(cells: Seq<i8>, alive: Seq<bool>, region: Region, i: int) -> bool {
    &&& region.boundary@.contains(i as usize)
    &&& forall|j: int|
        0 <= j < region.boundary@.len() ==> alive[#[trigger] region.boundary@[j] as int]
    &&& forall|j: int|
        0 <= j < region.points@.len() ==> chain_list(cells)[i].liberties.contains(
            #[trigger] region.points@[j],
        )
}

fn is_eye_for(groups: &[Chain], alive: &Vec<bool>, region: &Region, i: usize, Ghost(cells): Ghost<Seq<i8>>) -> (result: bool)
    requires
        chain_views(groups@) == chain_list(cells),
        alive@.len() == groups@.len(),
        i < groups@.len(),
        region_ok(cells, *region),
    ensures
        result == eye_for(cells, alive@, *region, i as int),
{
    proof {
        reveal(eye_for);
        lemma_region_facts(cells, *region);
        assert(chain_views(groups@).len() == groups@.len());
    }
    if !holds_value(&region.boundary, i) {
        return false;
    }
    let mut j: usize = 0;
    while j < region.boundary.len()
        invariant
            chain_views(groups@) == chain_list(cells),
            alive@.len() == groups@.len(),
            forall|k: int|
                0 <= k < region.boundary@.len() ==> #[trigger] region.boundary@[k] < groups@.len(),
            j <= region.boundary@.len(),
            forall|k: int| 0 <= k < j ==> alive@[#[trigger] region.boundary@[k] as int],
        decreases region.boundary@.len() - j,
    {
        let g: usize = region.boundary[j];
        assert(chain_views(groups@).len() == groups@.len());
        if !alive[g] {
            assert(!eye_for(cells, alive@, *region, i as int)) by {
                reveal(eye_for);
                assert(!alive@[region.boundary@[j as int] as int]);
            }
            return false;
        }
        j = j + 1;
    }
    let chain: &Chain = &groups[i];
    assert(chain_views(groups@)[i as int] == chain@);
    let mut m: usize = 0;
    while m < region.points.len()
        invariant
            chain@ == chain_list(cells)[i as int],
            m <= region.points@.len(),
            forall|k: int|
                0 <= k < m ==> chain_list(cells)[i as int].liberties.contains(
                    #[trigger] region.points@[k],
                ),
        decreases region.points@.len() - m,
    {
        if !holds_value(&chain.liberties, region.points[m]) {
            assert(!eye_for(cells, alive@, *region, i as int)) by {
                reveal(eye_for);
                assert(!chain_list(cells)[i as int].liberties.contains(region.points@[m as int]));
            }
            return false;
        }
        m = m + 1;
    }
    true
}

/// Both ways of saying that a region is an eye agree.
proof fn lemma_eye_for(cells: Seq<i8>, alive: Seq<bool>, region: Region, i: int, p: usize)
    requires
        region_ok(cells, region),
        one_colored(cells, region),
        0 <= i < chain_list(cells).len(),
        chain_list(cells)[i].stones.contains(p),
        alive.len() == chain_list(cells).len(),
    ensures
        eye_for(cells, alive, region, i) <==> eye_of(
            cells,
            marked(cells, alive),
            p,
            region.points@[0],
        ),
{
    if eye_for(cells, alive, region, i) {
        lemma_eye_for_sound(cells, alive, region, i, p);
    }
    if eye_of(cells, marked(cells, alive), p, region.points@[0]) {
        lemma_eye_for_complete(cells, alive, region, i, p);
    }
}

proof fn lemma_eye_for_sound(cells: Seq<i8>, alive: Seq<bool>, region: Region, i: int, p: usize)
    requires
        region_ok(cells, region),
        one_colored(cells, region),
        0 <= i < chain_list(cells).len(),
        chain_list(cells)[i].stones.contains(p),
        alive.len() == chain_list(cells).len(),
        eye_for(cells, alive, region, i),
    ensures
        eye_of(cells, marked(cells, alive), p, region.points@[0]),
{
    let kept = marked(cells, alive);
    let r = region.points@[0];
    let list = chain_list(cells);
    lemma_chains_below(cells, CELL_COUNT as nat);
    lemma_chain_color(cells, i, p);
    let id = lemma_chain_of_stone(cells, p);
    lemma_region_facts(cells, region);
    let inside = region_of(cells, r);
    assert forall|q: usize| inside.contains(q) implies liberties_of(cells, p).contains(q) by {
        assert(region.points@.to_set().contains(q));
        let j = region.points@.index_of(q);
        assert(region.points@[j] == q);
        assert(list[i].liberties.contains(region.points@[j])) by {
            reveal(eye_for);
        }
        assert(list[i].liberties.to_set().contains(q));
    }
    assert forall|q: usize, s: usize|
        inside.contains(q) && #[trigger] adjacent(q, s) && cells[s as int]
            != 0 implies kept.contains(s) && cells[s as int] == cells[p as int] by {
        assert(exists|j: int|
            0 <= j < region.boundary@.len() && list[#[trigger] region.boundary@[j] as int].stones.contains(
                s,
            )) by {
            reveal(region_ok);
        }
        let j = choose|j: int|
            0 <= j < region.boundary@.len() && list[#[trigger] region.boundary@[j] as int].stones.contains(
                s,
            );
        let g = region.boundary@[j];
        assert(alive[g as int] && region.boundary@.contains(i as usize)) by {
            reveal(eye_for);
        }
        lemma_chain_color(cells, g as int, s);
        let own = region.boundary@.index_of(i as usize);
        assert(list[region.boundary@[own] as int].color
            == list[region.boundary@[j] as int].color) by {
            reveal(one_colored);
        }
    }
}

proof fn lemma_eye_for_complete(
    cells: Seq<i8>,
    alive: Seq<bool>,
    region: Region,
    i: int,
    p: usize,
)
    requires
        region_ok(cells, region),
        one_colored(cells, region),
        0 <= i < chain_list(cells).len(),
        chain_list(cells)[i].stones.contains(p),
        alive.len() == chain_list(cells).len(),
        eye_of(cells, marked(cells, alive), p, region.points@[0]),
    ensures
        eye_for(cells, alive, region, i),
{
    let kept = marked(cells, alive);
    let r = region.points@[0];
    let list = chain_list(cells);
    lemma_chains_below(cells, CELL_COUNT as nat);
    lemma_chain_color(cells, i, p);
    let id = lemma_chain_of_stone(cells, p);
    lemma_region_facts(cells, region);
    let inside = region_of(cells, r);
    lemma_component_basic(points_with(cells, 0), r);
    assert(inside.contains(r));
    assert(region.boundary@.contains(i as usize)) by {
        assert(liberties_of(cells, p).contains(r));
        let x = choose|x: usize| same_component(cells, p).contains(x) && #[trigger] adjacent(x, r);
        lemma_adjacent_symmetric(x, r);
        lemma_component_basic(points_with(cells, cells[p as int]), p);
        assert(adjacent(r, x) && cells[x as int] != 0);
        assert(exists|b: int|
            0 <= b < region.boundary@.len() && list[#[trigger] region.boundary@[b] as int].stones.contains(
                x,
            )) by {
            reveal(region_ok);
        }
        let b = choose|b: int|
            0 <= b < region.boundary@.len() && list[#[trigger] region.boundary@[b] as int].stones.contains(
                x,
            );
        assert(list[i].stones.to_set().contains(x));
        assert(list[i].stones.contains(x));
        let xid = lemma_chain_of_stone(cells, x);
        assert(xid == i);
        assert(region.boundary@[b] == i);
    }
    assert forall|j: int|
        0 <= j < region.boundary@.len() implies alive[#[trigger] region.boundary@[j] as int] by {
        let g = region.boundary@[j];
        assert(touches(cells, r, g)) by {
            reveal(region_ok);
        }
        assert(exists|q: usize, s: usize|
            inside.contains(q) && #[trigger] adjacent(q, s) && cells[s as int] != 0
                && list[g as int].stones.contains(s)) by {
            reveal(touches);
        }
        let (q, s) = choose|q: usize, s: usize|
            inside.contains(q) && #[trigger] adjacent(q, s) && cells[s as int] != 0
                && list[g as int].stones.contains(s);
        assert(kept.contains(s));
        let m = choose|m: int|
            0 <= m < list.len() && alive[m] && #[trigger] list[m].stones.contains(s);
        let sid = lemma_chain_of_stone(cells, s);
        assert(m == g);
    }
    assert forall|j: int|
        0 <= j < region.points@.len() implies list[i].liberties.contains(
        #[trigger] region.points@[j],
    ) by {
        assert(region.points@.to_set().contains(region.points@[j]));
        assert(liberties_of(cells, p).contains(region.points@[j]));
        assert(list[i].liberties.to_set().contains(region.points@[j]));
    }
    reveal(eye_for);
}

/// Two regions of the list are eyes of the chain in place `i`.
spec fn two_listed(cells: Seq<i8>, alive: Seq<bool>, regions: Seq<Region>, i: int) -> bool {
    exists|a: int, b: int|
        0 <= a < b < regions.len() && eye_for(cells, alive, #[trigger] regions[a], i) && eye_for(
            cells,
            alive,
            #[trigger] regions[b],
            i,
        )
}

proof fn lemma_two_listed(
    cells: Seq<i8>,
    alive: Seq<bool>,
    regions: Seq<Region>,
    i: int,
    p: usize,
)
    requires
        regions_below(cells, regions, CELL_COUNT as int),
        0 <= i < chain_list(cells).len(),
        chain_list(cells)[i].stones.contains(p),
        alive.len() == chain_list(cells).len(),
    ensures
        two_listed(cells, alive, regions, i) <==> two_eyes(cells, marked(cells, alive), p),
{
    let kept = marked(cells, alive);
    if two_listed(cells, alive, regions, i) {
        let (a, b) = choose|a: int, b: int|
            0 <= a < b < regions.len() && eye_for(cells, alive, #[trigger] regions[a], i)
                && eye_for(cells, alive, #[trigger] regions[b], i);
        lemma_eye_for(cells, alive, regions[a], i, p);
        lemma_eye_for(cells, alive, regions[b], i, p);
        assert(eye_of(cells, kept, p, regions[a].points@[0]) && eye_of(
            cells,
            kept,
            p,
            regions[b].points@[0],
        ));
    }
    if two_eyes(cells, kept, p) {
        let (x, y) = choose|a: usize, b: usize|
            {
                &&& #[trigger] eye_of(cells, kept, p, a)
                &&& #[trigger] eye_of(cells, kept, p, b)
                &&& region_of(cells, a) != region_of(cells, b)
            };
        let a = lemma_listed(cells, alive, regions, i, p, x);
        let b = lemma_listed(cells, alive, regions, i, p, y);
        assert(a != b);
        if a < b {
            assert(eye_for(cells, alive, regions[a], i) && eye_for(cells, alive, regions[b], i));
        } else {
            assert(eye_for(cells, alive, regions[b], i) && eye_for(cells, alive, regions[a], i));
        }
    }
}

/// Every eye is in the list.
proof fn lemma_listed(
    cells: Seq<i8>,
    alive: Seq<bool>,
    regions: Seq<Region>,
    i: int,
    p: usize,
    r: usize,
) -> (j: int)
    requires
        regions_below(cells, regions, CELL_COUNT as int),
        0 <= i < chain_list(cells).len(),
        chain_list(cells)[i].stones.contains(p),
        alive.len() == chain_list(cells).len(),
        eye_of(cells, marked(cells, alive), p, r),
    ensures
        0 <= j < regions.len(),
        region_of(cells, regions[j].points@[0]) == region_of(cells, r),
        eye_for(cells, alive, regions[j], i),
{
    let kept = marked(cells, alive);
    lemma_chain_color(cells, i, p);
    lemma_component_basic(points_with(cells, 0), r);
    let inside = region_of(cells, r);
    assert(bordered(cells, inside)) by {
        reveal(bordered);
        assert(bordered_by(cells, inside, cells[p as int])) by {
            reveal(bordered_by);
        }
        assert(liberties_of(cells, p).contains(r));
        let x = choose|x: usize| same_component(cells, p).contains(x) && #[trigger] adjacent(x, r);
        lemma_adjacent_symmetric(x, r);
        lemma_component_basic(points_with(cells, cells[p as int]), p);
        assert(inside.contains(r) && adjacent(r, x) && cells[x as int] != 0);
    }
    let j = choose|j: int|
        0 <= j < regions.len() && region_of(cells, (#[trigger] regions[j]).points@[0]) == region_of(
            cells,
            r,
        );
    lemma_region_facts(cells, regions[j]);
    assert(eye_of(cells, kept, p, regions[j].points@[0]));
    lemma_eye_for(cells, alive, regions[j], i, p);
    j
}

spec fn count_marked(alive: Seq<bool>) -> nat
    decreases alive.len(),
{
    if alive.len() == 0 {
        0
    } else {
        count_marked(alive.drop_last()) + (if alive.last() {
            1nat
        } else {
            0nat
        })
    }
}

proof fn lemma_count_marked(a: Seq<bool>, b: Seq<bool>)
    requires
        a.len() == b.len(),
        forall|i: int| 0 <= i < a.len() && #[trigger] b[i] ==> a[i],
    ensures
        count_marked(b) <= count_marked(a),
        a != b ==> count_marked(b) < count_marked(a),
    decreases a.len(),
{
    if a.len() > 0 {
        let x = a.drop_last();
        let y = b.drop_last();
        assert forall|i: int| 0 <= i < x.len() && #[trigger] y[i] implies x[i] by {
            assert(b[i]);
        }
        lemma_count_marked(x, y);
        assert(b[b.len() - 1] ==> a[a.len() - 1]);
        if x == y && a.last() == b.last() {
            assert(a =~= b) by {
                assert(a =~= x.push(a.last()));
                assert(b =~= y.push(b.last()));
            }
        }
    } else {
        assert(a =~= b);
    }
}

/// The chains that keep two eyes among the marked ones.
fn keep_two_eyes(
    groups: &[Chain],
    regions: &Vec<Region>,
    alive: &Vec<bool>,
    Ghost(cells): Ghost<Seq<i8>>,
) -> (next: Vec<bool>)
    requires
        chain_views(groups@) == chain_list(cells),
        regions_below(cells, regions@, CELL_COUNT as int),
        alive@.len() == groups@.len(),
    ensures
        next@.len() == groups@.len(),
        forall|i: int|
            0 <= i < groups@.len() ==> #[trigger] next@[i] == (alive@[i] && two_listed(
                cells,
                alive@,
                regions@,
                i,
            )),
{
    let mut next: Vec<bool> = Vec::with_capacity(groups.len());
    let mut i: usize = 0;
    while i < groups.len()
        invariant
            chain_views(groups@) == chain_list(cells),
            regions_below(cells, regions@, CELL_COUNT as int),
            alive@.len() == groups@.len(),
            i <= groups@.len(),
            next@.len() == i,
            forall|j: int|
                0 <= j < i ==> #[trigger] next@[j] == (alive@[j] && two_listed(
                    cells,
                    alive@,
                    regions@,
                    j,
                )),
        decreases groups@.len() - i,
    {
        let mut count: usize = 0;
        let ghost mut first: int = 0;
        let ghost mut second: int = 0;
        if alive[i] {
            let mut j: usize = 0;
            while j < regions.len()
                invariant
                    chain_views(groups@) == chain_list(cells),
                    regions_below(cells, regions@, CELL_COUNT as int),
                    alive@.len() == groups@.len(),
                    i < groups@.len(),
                    j <= regions@.len(),
                    count <= j,
                    count == 0 ==> forall|k: int|
                        0 <= k < j ==> !eye_for(cells, alive@, #[trigger] regions@[k], i as int),
                    count == 1 ==> 0 <= first < j && forall|k: int|
                        0 <= k < j && k != first ==> !eye_for(
                            cells,
                            alive@,
                            #[trigger] regions@[k],
                            i as int,
                        ),
                    count >= 1 ==> 0 <= first < j && eye_for(
                        cells,
                        alive@,
                        regions@[first],
                        i as int,
                    ),
                    count >= 2 ==> first < second < j && eye_for(
                        cells,
                        alive@,
                        regions@[second],
                        i as int,
                    ),
                decreases regions@.len() - j,
            {
                assert(region_ok(cells, regions@[j as int]));
                if is_eye_for(groups, alive, &regions[j], i, Ghost(cells)) {
                    proof {
                        if count == 0 {
                            first = j as int;
                        } else if count == 1 {
                            second = j as int;
                        }
                    }
                    count = count + 1;
                }
                j = j + 1;
            }
            proof {
                if count >= 2 {
                    assert(eye_for(cells, alive@, regions@[first], i as int) && eye_for(
                        cells,
                        alive@,
                        regions@[second],
                        i as int,
                    ));
                    assert(two_listed(cells, alive@, regions@, i as int));
                } else {
                    assert(!two_listed(cells, alive@, regions@, i as int));
                }
            }
        }
        next.push(count >= 2);
        i = i + 1;
    }
    next
}

/// Secure sets stay inside what a step keeps.
proof fn lemma_step_keeps(
    cells: Seq<i8>,
    alive: Seq<bool>,
    next: Seq<bool>,
    regions: Seq<Region>,
    kept: Set<usize>,
)
    requires
        secure(cells, kept),
        regions_below(cells, regions, CELL_COUNT as int),
        alive.len() == chain_list(cells).len(),
        next.len() == alive.len(),
        kept.subset_of(marked(cells, alive)),
        forall|i: int|
            0 <= i < alive.len() ==> #[trigger] next[i] == (alive[i] && two_listed(
                cells,
                alive,
                regions,
                i,
            )),
    ensures
        kept.subset_of(marked(cells, next)),
{
    let list = chain_list(cells);
    let now = marked(cells, alive);
    assert forall|p: usize| kept.contains(p) implies marked(cells, next).contains(p) by {
        assert(now.contains(p));
        let i = choose|i: int| 0 <= i < list.len() && alive[i] && #[trigger] list[i].stones.contains(p);
        assert(two_eyes(cells, kept, p));
        let (a, b) = choose|a: usize, b: usize|
            {
                &&& #[trigger] eye_of(cells, kept, p, a)
                &&& #[trigger] eye_of(cells, kept, p, b)
                &&& region_of(cells, a) != region_of(cells, b)
            };
        assert(eye_of(cells, now, p, a));
        assert(eye_of(cells, now, p, b));
        assert(two_eyes(cells, now, p));
        lemma_two_listed(cells, alive, regions, i, p);
        assert(next[i]);
    }
}

/// The stones that are unconditionally alive.
pub fn pass_alive_with_chains(cells: &[i8], groups: &[Chain]) -> (result: [bool; 361])
    requires
        cells@.len() >= CELL_COUNT,
        chain_views(groups@) == chain_list(cells@),
    ensures
        forall|p: usize| p < CELL_COUNT ==> #[trigger] result@[p as int] == alive_at(cells@, p),
{
    let ghost list = chain_list(cells@);
    proof {
        lemma_chains_below(cells@, CELL_COUNT as nat);
        assert(chain_views(groups@).len() == groups@.len());
    }
    let mut at: Vec<usize> = vec![usize::MAX; 361];
    let mut i: usize = 0;
    while i < groups.len()
        invariant
            cells@.len() >= CELL_COUNT,
            list == chain_list(cells@),
            chain_views(groups@) == list,
            groups@.len() == list.len(),
            at@.len() == CELL_COUNT,
            i <= groups@.len(),
            forall|p: usize, k: int|
                p < CELL_COUNT && 0 <= k < i && #[trigger] list[k].stones.contains(p) ==> {
                    &&& at@[p as int] < list.len()
                    &&& list[at@[p as int] as int].stones.contains(p)
                },
        decreases groups@.len() - i,
    {
        let chain: &Chain = &groups[i];
        assert(chain_views(groups@)[i as int] == chain@);
        let ghost before = at@;
        proof {
            assert forall|j: int| 0 <= j < chain.stones@.len() implies #[trigger] chain.stones@[j] < CELL_COUNT by {
                assert(list[i as int].stones.contains(chain.stones@[j]));
                lemma_chain_color(cells@, i as int, chain.stones@[j]);
            }
        }
        let mut j: usize = 0;
        while j < chain.stones.len()
            invariant
                at@.len() == CELL_COUNT,
                j <= chain.stones@.len(),
                forall|k: int| 0 <= k < chain.stones@.len() ==> #[trigger] chain.stones@[k] < CELL_COUNT,
                forall|p: usize| p < CELL_COUNT ==> #[trigger] at@[p as int] == before[p as int] || at@[p as int] == i && chain.stones@.contains(p),
                forall|k: int| 0 <= k < j ==> at@[#[trigger] chain.stones@[k] as int] == i,
            decreases chain.stones@.len() - j,
        {
            let p: usize = chain.stones[j];
            let ghost held = at@;
            at.set(p, i);
            proof {
                assert(chain.stones@.contains(p));
                assert forall|q: usize| q < CELL_COUNT implies #[trigger] at@[q as int] == before[q as int] || at@[q as int] == i && chain.stones@.contains(q) by {
                    if q != p {
                        assert(at@[q as int] == held[q as int]);
                    }
                }
            }
            j = j + 1;
        }
        proof {
            assert forall|p: usize, k: int|
                p < CELL_COUNT && 0 <= k < i + 1 && #[trigger] list[k].stones.contains(p) implies {
                &&& at@[p as int] < list.len()
                &&& list[at@[p as int] as int].stones.contains(p)
            } by {
                if k == i {
                    let m = chain.stones@.index_of(p);
                    assert(at@[chain.stones@[m] as int] == i);
                } else {
                    assert(before[p as int] < list.len());
                }
            }
        }
        i = i + 1;
    }
    proof {
        assert forall|p: usize| p < CELL_COUNT && cells@[p as int] != 0 implies {
            &&& #[trigger] at@[p as int] < list.len()
            &&& list[at@[p as int] as int].stones.contains(p)
        } by {
            let id = lemma_chain_of_stone(cells@, p);
            assert(list[id].stones.contains(p));
        }
        assert(indexed(cells@, at@));
    }
    let regions: Vec<Region> = collect_regions(cells, groups, &at);
    let mut alive: Vec<bool> = Vec::with_capacity(groups.len());
    let mut k: usize = 0;
    while k < groups.len()
        invariant
            k <= groups@.len(),
            alive@.len() == k,
            forall|j: int| 0 <= j < k ==> #[trigger] alive@[j],
        decreases groups@.len() - k,
    {
        alive.push(true);
        k = k + 1;
    }
    proof {
        assert forall|kept: Set<usize>| #[trigger] secure(cells@, kept) implies kept.subset_of(
            marked(cells@, alive@),
        ) by {
            assert forall|p: usize| kept.contains(p) implies marked(cells@, alive@).contains(p) by {
                let id = lemma_chain_of_stone(cells@, p);
                assert(alive@[id] && list[id].stones.contains(p));
            }
        }
    }
    loop
        invariant_except_break
            cells@.len() >= CELL_COUNT,
            list == chain_list(cells@),
            chain_views(groups@) == list,
            groups@.len() == list.len(),
            regions_below(cells@, regions@, CELL_COUNT as int),
            alive@.len() == groups@.len(),
            forall|kept: Set<usize>| #[trigger]
                secure(cells@, kept) ==> kept.subset_of(marked(cells@, alive@)),
        ensures
            alive@.len() == list.len(),
            forall|kept: Set<usize>| #[trigger]
                secure(cells@, kept) ==> kept.subset_of(marked(cells@, alive@)),
            secure(cells@, marked(cells@, alive@)),
        decreases count_marked(alive@),
    {
        let next: Vec<bool> = keep_two_eyes(groups, &regions, &alive, Ghost(cells@));
        proof {
            assert forall|kept: Set<usize>| #[trigger] secure(cells@, kept) implies kept.subset_of(
                marked(cells@, next@),
            ) by {
                lemma_step_keeps(cells@, alive@, next@, regions@, kept);
            }
            lemma_count_marked(alive@, next@);
        }
        let stable: bool = next == alive;
        if stable {
            proof {
                assert(next@ =~= alive@);
                let kept = marked(cells@, alive@);
                assert forall|p: usize| #[trigger] kept.contains(p) implies {
                    &&& p < CELL_COUNT
                    &&& cells@[p as int] != 0
                    &&& same_component(cells@, p).subset_of(kept)
                    &&& two_eyes(cells@, kept, p)
                } by {
                    let i = choose|i: int|
                        0 <= i < list.len() && alive@[i] && #[trigger] list[i].stones.contains(p);
                    assert(next@[i]);
                    lemma_two_listed(cells@, alive@, regions@, i, p);
                    let id = lemma_chain_of_stone(cells@, p);
                    assert(id == i);
                    assert forall|q: usize| same_component(cells@, p).contains(q) implies kept.contains(q) by {
                        assert(list[i].stones.to_set().contains(q));
                        assert(list[i].stones.contains(q));
                        lemma_chain_color(cells@, i, q);
                    }
                }
            }
            break;
        }
        proof {
            if next@ == alive@ {
                assert(stable);
            }
        }
        alive = next;
    }
    let mut result: [bool; 361] = [false; 361];
    let ghost kept = marked(cells@, alive@);
    let mut c: usize = 0;
    while c < groups.len()
        invariant
            cells@.len() >= CELL_COUNT,
            list == chain_list(cells@),
            chain_views(groups@) == list,
            groups@.len() == list.len(),
            alive@.len() == list.len(),
            kept == marked(cells@, alive@),
            c <= groups@.len(),
            forall|p: usize| p < CELL_COUNT ==> (#[trigger] result@[p as int] <==> exists|m: int|
                0 <= m < c && alive@[m] && #[trigger] list[m].stones.contains(p)),
        decreases groups@.len() - c,
    {
        let chain: &Chain = &groups[c];
        assert(chain_views(groups@)[c as int] == chain@);
        let ghost before = result@;
        proof {
            assert forall|j: int| 0 <= j < chain.stones@.len() implies #[trigger] chain.stones@[j] < CELL_COUNT by {
                assert(list[c as int].stones.contains(chain.stones@[j]));
                lemma_chain_color(cells@, c as int, chain.stones@[j]);
            }
        }
        let mut j: usize = 0;
        while j < chain.stones.len()
            invariant
                j <= chain.stones@.len(),
                c < alive@.len(),
                forall|m: int| 0 <= m < chain.stones@.len() ==> #[trigger] chain.stones@[m] < CELL_COUNT,
                forall|p: usize| p < CELL_COUNT ==> #[trigger] result@[p as int] == (if exists|m: int| 0 <= m < j && #[trigger] chain.stones@[m] == p {
                    alive@[c as int]
                } else {
                    before[p as int]
                }),
            decreases chain.stones@.len() - j,
        {
            let ghost held = result@;
            result[chain.stones[j]] = alive[c];
            proof {
                assert forall|p: usize| p < CELL_COUNT implies #[trigger] result@[p as int] == (if exists|m: int| 0 <= m < j + 1 && #[trigger] chain.stones@[m] == p {
                    alive@[c as int]
                } else {
                    before[p as int]
                }) by {
                    if p != chain.stones@[j as int] {
                        assert(result@[p as int] == held[p as int]);
                    }
                }
            }
            j = j + 1;
        }
        proof {
            assert forall|p: usize| p < CELL_COUNT implies (#[trigger] result@[p as int] <==> exists|m: int|
                0 <= m < c + 1 && alive@[m] && #[trigger] list[m].stones.contains(p)) by {
                if list[c as int].stones.contains(p) {
                    let m = chain.stones@.index_of(p);
                    assert(chain.stones@[m] == p);
                    lemma_chain_color(cells@, c as int, p);
                    let id = lemma_chain_of_stone(cells@, p);
                    assert(id == c);
                    assert(!before[p as int]) by {
                        if before[p as int] {
                            let m2 = choose|m: int| 0 <= m < c && alive@[m] && #[trigger] list[m].stones.contains(p);
                            assert(m2 == id);
                        }
                    }
                } else {
                    if exists|m: int| 0 <= m < chain.stones@.len() && #[trigger] chain.stones@[m] == p {
                        let m = choose|m: int| 0 <= m < chain.stones@.len() && #[trigger] chain.stones@[m] == p;
                        assert(list[c as int].stones[m] == p);
                        assert(list[c as int].stones.contains(p));
                    }
                    assert(result@[p as int] == before[p as int]);
                }
            }
        }
        c = c + 1;
    }
    proof {
        assert forall|p: usize| p < CELL_COUNT implies #[trigger] result@[p as int] == alive_at(cells@, p) by {
            if result@[p as int] {
                let m = choose|m: int| 0 <= m < list.len() && alive@[m] && #[trigger] list[m].stones.contains(p);
                lemma_chain_color(cells@, m, p);
                assert(kept.contains(p));
                assert(secure(cells@, kept) && kept.contains(p));
            }
            if alive_at(cells@, p) {
                let x = choose|x: Set<usize>| #[trigger] secure(cells@, x) && x.contains(p);
                assert(kept.contains(p));
            }
        }
    }
    result
}

/// The stones that are unconditionally alive.
pub fn pass_alive(cells: &[i8]) -> (result: [bool; 361])
    requires
        cells@.len() >= CELL_COUNT,
    ensures
        forall|p: usize| p < CELL_COUNT ==> #[trigger] result@[p as int] == alive_at(cells@, p),
{
    let groups: Vec<Chain> = chains(cells);
    pass_alive_with_chains(cells, groups.as_slice())
}

} // verus!
