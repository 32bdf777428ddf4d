//! The geometry of the grid: adjacency, connected components, and the
//! breadth-first walk that lists a component.
use vstd::prelude::*;

verus! {

/// Number of rows and of columns.
pub const BOARD_SIZE: usize = 19;

/// Number of points. Point `p` stands in row `p / 19` and column `p % 19`.
pub const CELL_COUNT: usize = 361;

/// Two points that share an edge of the grid.
pub open spec fn adjacent(p: usize, q: usize) -> bool {
    &&& p < CELL_COUNT
    &&& q < CELL_COUNT
    &&& (p + 19 == q || q + 19 == p || (p + 1 == q && q % 19 != 0) || (q + 1 == p && p % 19 != 0))
}

/// The one-element sequence of `p` if `present`, else the empty one.
pub open spec fn optional_point(present: bool, p: int) -> Seq<usize> {
    if present {
        seq![p as usize]
    } else {
        Seq::empty()
    }
}

/// The points next to `p`, in the order previous row, next row, previous
/// column, next column.
pub open spec fn neighbors_of(p: usize) -> Seq<usize> {
    optional_point(p >= 19, p - 19) + optional_point(p + 19 < CELL_COUNT, p + 19) + optional_point(
        p % 19 > 0,
        p - 1,
    ) + optional_point(p % 19 < 18, p + 1)
}

/// A set of points that no step into `area` leaves.
pub open spec fn closed_within(area: Set<usize>, s: Set<usize>) -> bool {
    forall|p: usize, q: usize|
        #![trigger s.contains(p), adjacent(p, q)]
        s.contains(p) && adjacent(p, q) && area.contains(q) ==> s.contains(q)
}

/// The points that steps inside `area` reach from `start`: the least set that
/// holds `start` and that no step into `area` leaves.
pub open spec fn component(area: Set<usize>, start: usize) -> Set<usize> {
    Set::new(
        |p: usize|
            forall|s: Set<usize>| #[trigger]
                closed_within(area, s) && s.contains(start) ==> s.contains(p),
    )
}

/// The queue with the candidates appended that lie in `area` and do not occur
/// yet, each once and in their order.
pub open spec fn absorb(area: Set<usize>, queue: Seq<usize>, candidates: Seq<usize>) -> Seq<usize>
    decreases candidates.len(),
{
    if candidates.len() == 0 {
        queue
    } else {
        let before = absorb(area, queue, candidates.drop_last());
        let n = candidates.last();
        if area.contains(n) && !before.contains(n) {
            before.push(n)
        } else {
            before
        }
    }
}

/// The queue of a breadth-first walk inside `area` when it has run dry, of
/// which the first `cursor` points are expanded.
pub open spec fn walk(area: Set<usize>, queue: Seq<usize>, cursor: nat) -> Seq<usize>
    decreases CELL_COUNT - cursor,
{
    if cursor >= queue.len() || cursor >= CELL_COUNT {
        queue
    } else {
        walk(area, absorb(area, queue, neighbors_of(queue[cursor as int])), cursor + 1)
    }
}

/// The component of `start` in breadth-first order.
pub open spec fn walk_order(area: Set<usize>, start: usize) -> Seq<usize> {
    walk(area, seq![start], 0)
}

/// The points of `area` next to the points of `points`, each once, in the
/// order in which a scan of `points` meets them.
pub open spec fn fringe(area: Set<usize>, points: Seq<usize>) -> Seq<usize>
    decreases points.len(),
{
    if points.len() == 0 {
        Seq::empty()
    } else {
        absorb(area, fringe(area, points.drop_last()), neighbors_of(points.last()))
    }
}

/// The points of `area` that have a neighbor in `s`.
pub open spec fn border_of(area: Set<usize>, s: Set<usize>) -> Set<usize> {
    Set::new(|q: usize| area.contains(q) && exists|p: usize| s.contains(p) && #[trigger] adjacent(p, q))
}

/// The points that hold `value`.
pub open spec fn points_with(cells: Seq<i8>, value: i8) -> Set<usize> {
    Set::new(|p: usize| p < CELL_COUNT && cells[p as int] == value)
}

/// The points that hold the value of `start` and are connected to it.
pub open spec fn same_component(cells: Seq<i8>, start: usize) -> Set<usize> {
    component(points_with(cells, cells[start as int]), start)
}

pub proof fn lemma_adjacent_symmetric(p: usize, q: usize)
    ensures
        adjacent(p, q) == adjacent(q, p),
{
}

/// `neighbors_of` lists the adjacent points, each once.
pub proof fn lemma_neighbors(p: usize)
    requires
        p < CELL_COUNT,
    ensures
        neighbors_of(p).len() <= 4,
        neighbors_of(p).no_duplicates(),
        forall|q: usize| #[trigger] neighbors_of(p).contains(q) <==> adjacent(p, q),
        forall|i: int| 0 <= i < neighbors_of(p).len() ==> adjacent(p, #[trigger] neighbors_of(p)[i]),
{
    let ns = neighbors_of(p);
    let a = optional_point(p >= 19, p - 19);
    let b = optional_point(p + 19 < CELL_COUNT, p + 19);
    let c = optional_point(p % 19 > 0, p - 1);
    let d = optional_point(p % 19 < 18, p + 1);
    assert(p % 19 < 18 ==> (p + 1) % 19 != 0);
    assert forall|i: int| 0 <= i < ns.len() implies adjacent(p, #[trigger] ns[i]) by {}
    assert forall|q: usize| adjacent(p, q) implies ns.contains(q) by {
        if q + 19 == p {
            assert(ns[0] == q);
        } else if p + 19 == q {
            assert(ns[a.len() as int] == q);
        } else if q + 1 == p {
            assert(ns[(a + b).len() as int] == q);
        } else {
            assert(p % 19 < 18);
            assert(ns[(a + b + c).len() as int] == q);
        }
    }
}

pub proof fn lemma_component_basic(area: Set<usize>, start: usize)
    requires
        start < CELL_COUNT,
    ensures
        component(area, start).contains(start),
        closed_within(area, component(area, start)),
        forall|p: usize| #[trigger]
            component(area, start).contains(p) ==> p < CELL_COUNT && (p == start || area.contains(
                p,
            )),
{
    let c = component(area, start);
    assert forall|p: usize, q: usize|
        #![trigger c.contains(p), adjacent(p, q)]
        c.contains(p) && adjacent(p, q) && area.contains(q) implies c.contains(q) by {
        assert forall|s: Set<usize>| #[trigger]
            closed_within(area, s) && s.contains(start) implies s.contains(q) by {
            assert(s.contains(p));
        }
    }
    let bound = Set::new(|p: usize| p < CELL_COUNT && (p == start || area.contains(p)));
    assert(closed_within(area, bound));
    assert(bound.contains(start));
    assert forall|p: usize| #[trigger] c.contains(p) implies bound.contains(p) by {}
}

pub proof fn lemma_component_least(area: Set<usize>, start: usize, s: Set<usize>)
    requires
        s.contains(start),
        closed_within(area, s),
    ensures
        component(area, start).subset_of(s),
{
}

/// A component is the component of each of its points.
pub proof fn lemma_component_of_member(area: Set<usize>, start: usize, p: usize)
    requires
        start < CELL_COUNT,
        area.contains(start),
        component(area, start).contains(p),
    ensures
        component(area, p) == component(area, start),
        area.contains(p),
{
    let from_start = component(area, start);
    let from_p = component(area, p);
    lemma_component_basic(area, start);
    lemma_component_basic(area, p);
    lemma_component_least(area, p, from_start);
    if !from_p.contains(start) {
        let rest = from_start.difference(from_p);
        assert(closed_within(area, rest)) by {
            assert forall|a: usize, b: usize|
                #![trigger rest.contains(a), adjacent(a, b)]
                rest.contains(a) && adjacent(a, b) && area.contains(b) implies rest.contains(b) by {
                assert(from_start.contains(b));
                if from_p.contains(b) {
                    lemma_adjacent_symmetric(a, b);
                    assert(adjacent(b, a));
                    assert(area.contains(a));
                    assert(from_p.contains(a));
                }
            }
        }
        lemma_component_least(area, start, rest);
        assert(rest.contains(p));
        assert(false);
    }
    lemma_component_least(area, start, from_p);
    assert(from_p =~= from_start);
}

/// Components that share a point are equal.
pub proof fn lemma_components_meet(area: Set<usize>, a: usize, b: usize, p: usize)
    requires
        a < CELL_COUNT,
        b < CELL_COUNT,
        area.contains(a),
        area.contains(b),
        component(area, a).contains(p),
        component(area, b).contains(p),
    ensures
        component(area, a) == component(area, b),
{
    lemma_component_of_member(area, a, p);
    lemma_component_of_member(area, b, p);
}

/// A sequence of distinct points is no longer than the grid.
pub proof fn lemma_distinct_points(s: Seq<usize>)
    requires
        s.no_duplicates(),
        forall|i: int| 0 <= i < s.len() ==> #[trigger] s[i] < CELL_COUNT,
    ensures
        s.len() <= CELL_COUNT,
        s.to_set().finite(),
        s.to_set().len() == s.len(),
{
    s.unique_seq_to_set();
    vstd::seq_lib::seq_to_set_is_finite(s);
    let all = Set::<usize>::range(0, CELL_COUNT);
    vstd::set_lib::range_set_properties::<usize>(0, CELL_COUNT);
    assert(s.to_set().subset_of(all));
    vstd::set_lib::lemma_len_subset(s.to_set(), all);
}

pub proof fn lemma_absorb(area: Set<usize>, queue: Seq<usize>, candidates: Seq<usize>)
    requires
        queue.no_duplicates(),
    ensures
        absorb(area, queue, candidates).no_duplicates(),
        absorb(area, queue, candidates).len() >= queue.len(),
        forall|i: int|
            0 <= i < queue.len() ==> #[trigger] absorb(area, queue, candidates)[i] == queue[i],
        forall|x: usize|
            #![trigger absorb(area, queue, candidates).contains(x)]
            absorb(area, queue, candidates).contains(x) <==> queue.contains(x) || (
            candidates.contains(x) && area.contains(x)),
    decreases candidates.len(),
{
    let after = absorb(area, queue, candidates);
    if candidates.len() > 0 {
        let init = candidates.drop_last();
        let n = candidates.last();
        lemma_absorb(area, queue, init);
        let before = absorb(area, queue, init);
        assert forall|x: usize| candidates.contains(x) <==> init.contains(x) || x == n by {
            if candidates.contains(x) {
                let i = candidates.index_of(x);
                if i < init.len() {
                    assert(init[i] == x);
                }
            }
            if init.contains(x) {
                assert(candidates[init.index_of(x)] == x);
            }
            assert(candidates[candidates.len() - 1] == n);
        }
        assert forall|x: usize| before.push(n).contains(x) <==> before.contains(x) || x == n by {
            if before.contains(x) {
                assert(before.push(n)[before.index_of(x)] == x);
            }
            assert(before.push(n)[before.len() as int] == n);
        }
        assert forall|x: usize|
            #![trigger after.contains(x)]
            after.contains(x) <==> queue.contains(x) || (candidates.contains(x) && area.contains(
                x,
            )) by {
            assert(before.contains(x) <==> queue.contains(x) || (init.contains(x) && area.contains(
                x,
            )));
            assert(before.contains(n) ==> area.contains(n) || queue.contains(n));
            assert(candidates.contains(x) <==> init.contains(x) || x == n);
        }
    }
}

pub proof fn lemma_walk(area: Set<usize>, start: usize, queue: Seq<usize>, cursor: nat)
    requires
        start < CELL_COUNT,
        area.contains(start),
        queue.no_duplicates(),
        queue.contains(start),
        cursor <= queue.len(),
        forall|x: usize| #[trigger] queue.contains(x) ==> component(area, start).contains(x),
        forall|i: int, n: usize|
            #![trigger adjacent(queue[i], n)]
            0 <= i < cursor && adjacent(queue[i], n) && area.contains(n) ==> queue.contains(n),
    ensures
        walk(area, queue, cursor).no_duplicates(),
        walk(area, queue, cursor).len() >= queue.len(),
        forall|i: int|
            0 <= i < queue.len() ==> #[trigger] walk(area, queue, cursor)[i] == queue[i],
        forall|x: usize| #[trigger]
            walk(area, queue, cursor).contains(x) <==> component(area, start).contains(x),
    decreases CELL_COUNT - cursor,
{
    lemma_component_basic(area, start);
    assert forall|i: int| 0 <= i < queue.len() implies #[trigger] queue[i] < CELL_COUNT by {
        assert(queue.contains(queue[i]));
    }
    lemma_distinct_points(queue);
    if cursor >= queue.len() {
        let s = Set::new(|x: usize| queue.contains(x));
        assert(closed_within(area, s)) by {
            assert forall|p: usize, q: usize|
                #![trigger s.contains(p), adjacent(p, q)]
                s.contains(p) && adjacent(p, q) && area.contains(q) implies s.contains(q) by {
                assert(adjacent(queue[queue.index_of(p)], q));
            }
        }
        lemma_component_least(area, start, s);
    } else {
        let p = queue[cursor as int];
        let ns = neighbors_of(p);
        let next = absorb(area, queue, ns);
        assert(queue.contains(p));
        lemma_neighbors(p);
        lemma_absorb(area, queue, ns);
        assert(next.contains(start));
        assert forall|i: int, n: usize|
            #![trigger adjacent(next[i], n)]
            0 <= i < cursor + 1 && adjacent(next[i], n) && area.contains(n) implies next.contains(
            n,
        ) by {
            assert(next[i] == queue[i]);
            if i < cursor {
                assert(adjacent(queue[i], n));
                assert(queue.contains(n));
            } else {
                assert(ns.contains(n));
            }
        }
        assert forall|x: usize| #[trigger] next.contains(x) implies component(
            area,
            start,
        ).contains(x) by {
            if !queue.contains(x) {
                assert(ns.contains(x));
                assert(adjacent(p, x));
            }
        }
        lemma_walk(area, start, next, cursor + 1);
    }
}

/// The walk lists the component, each point once, `start` first.
pub proof fn lemma_walk_order(area: Set<usize>, start: usize)
    requires
        start < CELL_COUNT,
        area.contains(start),
    ensures
        walk_order(area, start).no_duplicates(),
        walk_order(area, start).len() >= 1,
        walk_order(area, start)[0] == start,
        forall|x: usize| #[trigger]
            walk_order(area, start).contains(x) <==> component(area, start).contains(x),
        forall|i: int|
            0 <= i < walk_order(area, start).len() ==> #[trigger] walk_order(area, start)[i]
                < CELL_COUNT,
        walk_order(area, start).to_set() == component(area, start),
        walk_order(area, start).len() <= CELL_COUNT,
        component(area, start).finite(),
        component(area, start).len() == walk_order(area, start).len(),
{
    let queue = seq![start];
    assert(queue[0] == start);
    lemma_component_basic(area, start);
    lemma_walk(area, start, queue, 0);
    let order = walk_order(area, start);
    assert forall|i: int| 0 <= i < order.len() implies #[trigger] order[i] < CELL_COUNT by {
        assert(order.contains(order[i]));
    }
    lemma_distinct_points(order);
    assert(order.to_set() =~= component(area, start));
}

/// `fringe` lists the border, each point once.
pub proof fn lemma_fringe(area: Set<usize>, points: Seq<usize>)
    requires
        forall|i: int| 0 <= i < points.len() ==> #[trigger] points[i] < CELL_COUNT,
    ensures
        fringe(area, points).no_duplicates(),
        forall|x: usize| #[trigger]
            fringe(area, points).contains(x) <==> area.contains(x) && exists|i: int|
                0 <= i < points.len() && adjacent(#[trigger] points[i], x),
        forall|i: int|
            0 <= i < fringe(area, points).len() ==> #[trigger] fringe(area, points)[i] < CELL_COUNT,
        fringe(area, points).len() <= CELL_COUNT,
        fringe(area, points).to_set() == border_of(area, points.to_set()),
        border_of(area, points.to_set()).finite(),
        border_of(area, points.to_set()).len() == fringe(area, points).len(),
    decreases points.len(),
{
    let f = fringe(area, points);
    if points.len() > 0 {
        let init = points.drop_last();
        let p = points.last();
        lemma_fringe(area, init);
        lemma_neighbors(p);
        lemma_absorb(area, fringe(area, init), neighbors_of(p));
        assert forall|x: usize| #[trigger] f.contains(x) <==> area.contains(x) && exists|i: int|
            0 <= i < points.len() && adjacent(#[trigger] points[i], x) by {
            if f.contains(x) {
                if fringe(area, init).contains(x) {
                    let i = choose|i: int| 0 <= i < init.len() && adjacent(#[trigger] init[i], x);
                    assert(adjacent(points[i], x));
                } else {
                    assert(adjacent(points[points.len() - 1], x));
                }
            }
            if area.contains(x) && exists|i: int|
                0 <= i < points.len() && adjacent(#[trigger] points[i], x) {
                let i = choose|i: int| 0 <= i < points.len() && adjacent(#[trigger] points[i], x);
                if i < init.len() {
                    assert(adjacent(init[i], x));
                } else {
                    assert(neighbors_of(p).contains(x));
                }
            }
        }
    }
    assert forall|i: int| 0 <= i < f.len() implies #[trigger] f[i] < CELL_COUNT by {
        assert(f.contains(f[i]));
    }
    lemma_distinct_points(f);
    assert(f.to_set() =~= border_of(area, points.to_set())) by {
        let b = border_of(area, points.to_set());
        assert forall|x: usize| f.to_set().contains(x) <==> b.contains(x) by {
            if f.contains(x) {
                let i = choose|i: int| 0 <= i < points.len() && adjacent(#[trigger] points[i], x);
                assert(points.to_set().contains(points[i]));
            }
            if b.contains(x) {
                let p = choose|p: usize| points.to_set().contains(p) && #[trigger] adjacent(p, x);
                assert(adjacent(points[points.index_of(p)], x));
            }
        }
    }
}

/// The up to four points next to a point.
#[derive(Clone, Copy)]
pub struct Neighbors {
    pub points: [usize; 4],
    pub len: usize,
}

impl View for Neighbors {
    type V = Seq<usize>;

    open spec fn view(&self) -> Seq<usize> {
        self.points@.take(self.len as int)
    }
}

/// The points next to `index`.
pub fn neighbors(index: usize) -> (result: Neighbors)
    requires
        index < CELL_COUNT,
    ensures
        result.len <= 4,
        result@ == neighbors_of(index),
{
    let mut points: [usize; 4] = [0, 0, 0, 0];
    let mut len: usize = 0;
    if index >= BOARD_SIZE {
        points[len] = index - BOARD_SIZE;
        len = len + 1;
    }
    let ghost a = optional_point(index >= 19, index - 19);
    assert(points@.take(len as int) =~= a);
    if index + BOARD_SIZE < CELL_COUNT {
        points[len] = index + BOARD_SIZE;
        len = len + 1;
    }
    let ghost b = a + optional_point(index + 19 < CELL_COUNT, index + 19);
    assert(points@.take(len as int) =~= b);
    if index % BOARD_SIZE > 0 {
        points[len] = index - 1;
        len = len + 1;
    }
    let ghost c = b + optional_point(index % 19 > 0, index - 1);
    assert(points@.take(len as int) =~= c);
    if index % BOARD_SIZE + 1 < BOARD_SIZE {
        points[len] = index + 1;
        len = len + 1;
    }
    assert(points@.take(len as int) =~= neighbors_of(index));
    Neighbors { points, len }
}

/// The points that hold the value of `start` and are connected to it, in
/// breadth-first order.
pub fn flood(cells: &[i8], start: usize) -> (points: Vec<usize>)
    requires
        cells@.len() >= CELL_COUNT,
        start < CELL_COUNT,
    ensures
        points@ == walk_order(points_with(cells@, cells@[start as int]), start),
{
    let value: i8 = cells[start];
    let ghost area = points_with(cells@, value);
    let mut points: Vec<usize> = Vec::new();
    points.push(start);
    let mut visited: [bool; 361] = [false; 361];
    visited[start] = true;
    let mut cursor: usize = 0;
    assert(points@ =~= seq![start]);
    assert(points@.contains(start)) by {
        assert(points@[0] == start);
    }
    while cursor < points.len()
        invariant
            cells@.len() >= CELL_COUNT,
            value == cells@[start as int],
            area == points_with(cells@, value),
            cursor <= points@.len() <= CELL_COUNT,
            walk(area, points@, cursor as nat) == walk_order(area, start),
            points@.no_duplicates(),
            forall|i: int| 0 <= i < points@.len() ==> #[trigger] points@[i] < CELL_COUNT,
            forall|p: usize|
                p < CELL_COUNT ==> #[trigger] visited@[p as int] == points@.contains(p),
        decreases CELL_COUNT - cursor,
    {
        let p: usize = points[cursor];
        let ns = neighbors(p);
        let ghost before = points@;
        let mut k: usize = 0;
        proof {
            lemma_neighbors(p);
            assert(neighbors_of(p).take(0) =~= Seq::empty());
        }
        while k < ns.len
            invariant
                p < CELL_COUNT,
                cells@.len() >= CELL_COUNT,
                area == points_with(cells@, value),
                ns.len <= 4,
                ns@ == neighbors_of(p),
                k <= ns.len,
                before.no_duplicates(),
                before.len() <= points@.len() <= CELL_COUNT,
                points@ == absorb(area, before, neighbors_of(p).take(k as int)),
                points@.no_duplicates(),
                forall|i: int| 0 <= i < points@.len() ==> #[trigger] points@[i] < CELL_COUNT,
                forall|q: usize|
                    q < CELL_COUNT ==> #[trigger] visited@[q as int] == points@.contains(q),
            decreases ns.len - k,
        {
            let n: usize = ns.points[k];
            proof {
                lemma_neighbors(p);
                assert(ns@[k as int] == n);
                assert(adjacent(p, neighbors_of(p)[k as int]));
                let more = neighbors_of(p).take(k + 1);
                assert(more.drop_last() =~= neighbors_of(p).take(k as int));
                assert(more.last() == n);
            }
            let ghost queue = points@;
            if cells[n] == value && !visited[n] {
                visited[n] = true;
                points.push(n);
                proof {
                    assert forall|q: usize| #[trigger]
                        points@.contains(q) <==> queue.contains(q) || q == n by {
                        if queue.contains(q) {
                            assert(points@[queue.index_of(q)] == q);
                        }
                        assert(points@[queue.len() as int] == n);
                    }
                    lemma_distinct_points(points@);
                }
            }
            k = k + 1;
        }
        proof {
            assert(neighbors_of(p).take(ns.len as int) =~= neighbors_of(p));
        }
        cursor = cursor + 1;
    }
    points
}

} // verus!
