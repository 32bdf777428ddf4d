//! One simulation of a search: a walk down the tree, by the most promising
//! actions, to a position that is new or over, and the count of the actions
//! that were taken.
use crate::game::{BoardView, Move, Outcome};
use crate::scoring::outcome_of;
use crate::tree::{
    law_following_keeps_the_tree, visit_total, Edge, NodeView, SearchTree, TreeView,
};
use vstd::prelude::*;

verus! {

/// What a walk meets at a node.
#[derive(Clone, Copy, Debug, PartialEq, Eq, Structural)]
pub enum Reach {
    /// The game is over.
    Finished(Outcome),
    /// The node was not expanded yet.
    Fresh,
    /// The walk goes on.
    Open,
}

pub open spec fn reach_of(node: NodeView) -> Reach {
    match outcome_of(node.board) {
        Some(outcome) => Reach::Finished(outcome),
        None => if node.expanded {
            Reach::Open
        } else {
            Reach::Fresh
        },
    }
}

/// What a walk meets at a node of a tree.
pub fn reach(tree: &SearchTree, i: usize) -> (result: Reach)
    requires
        tree@.wf(),
        i < tree@.nodes.len(),
    ensures
        result == reach_of(tree@.nodes[i as int]),
{
    assert(tree@.nodes[i as int].board.wf());
    match tree.board(i).outcome() {
        Some(outcome) => Reach::Finished(outcome),
        None => if tree.is_expanded(i) {
            Reach::Open
        } else {
            Reach::Fresh
        },
    }
}

/// The place of the greatest key, the first if there are several.
pub fn first_greatest(keys: &[i64]) -> (result: usize)
    requires
        keys@.len() > 0,
    ensures
        result < keys@.len(),
        forall|i: int| 0 <= i < keys@.len() ==> #[trigger] keys@[i] <= keys@[result as int],
        forall|i: int| 0 <= i < result ==> #[trigger] keys@[i] < keys@[result as int],
{
    let mut best: usize = 0;
    let mut i: usize = 1;
    while i < keys.len()
        invariant
            best < i <= keys@.len(),
            forall|j: int| 0 <= j < i ==> #[trigger] keys@[j] <= keys@[best as int],
            forall|j: int| 0 <= j < best ==> #[trigger] keys@[j] < keys@[best as int],
        decreases keys@.len() - i,
    {
        if keys[i] > keys[best] {
            best = i;
        }
        i = i + 1;
    }
    best
}

/// A walk from the root: the nodes that were passed with the place of the
/// action taken at each, and the node that was come to.
pub struct Walk {
    pub path: Vec<(usize, usize)>,
    pub at: usize,
}

/// The node after the first `k` steps.
pub open spec fn stop(path: Seq<(usize, usize)>, at: usize, k: int) -> usize {
    if k < path.len() {
        path[k].0
    } else {
        at
    }
}

/// The walk follows the tree from the root.
pub open spec fn walks(path: Seq<(usize, usize)>, at: usize, tree: TreeView) -> bool {
    &&& at < tree.nodes.len()
    &&& stop(path, at, 0) == 0
    &&& forall|k: int|
        0 <= k < path.len() ==> {
            let (i, e) = #[trigger] path[k];
            &&& i < tree.nodes.len()
            &&& e < tree.nodes[i as int].edges.len()
            &&& tree.nodes[i as int].edges[e as int].child == Some(stop(path, at, k + 1))
        }
}

/// The tree with one more visit of an action.
pub open spec fn with_visit(tree: TreeView, i: int, e: int) -> TreeView {
    let edge = tree.nodes[i].edges[e];
    tree.with_edge(i, e, Edge { visits: (edge.visits + 1) as u32, ..edge })
}

/// The tree with one more visit of every action of a path.
pub open spec fn counted(tree: TreeView, path: Seq<(usize, usize)>) -> TreeView
    decreases path.len(),
{
    if path.len() == 0 {
        tree
    } else {
        with_visit(
            counted(tree, path.drop_last()),
            path.last().0 as int,
            path.last().1 as int,
        )
    }
}

/// How often a path passes a node.
pub open spec fn times(path: Seq<(usize, usize)>, i: int) -> nat
    decreases path.len(),
{
    if path.len() == 0 {
        0
    } else {
        times(path.drop_last(), i) + if path.last().0 == i {
            1nat
        } else {
            0nat
        }
    }
}

/// Every step of the path can be counted once more for each step.
pub open spec fn countable(tree: TreeView, path: Seq<(usize, usize)>) -> bool {
    forall|k: int|
        0 <= k < path.len() ==> {
            let (i, e) = #[trigger] path[k];
            &&& i < tree.nodes.len()
            &&& e < tree.nodes[i as int].edges.len()
            &&& tree.nodes[i as int].edges[e as int].visits + path.len() <= u32::MAX
        }
}

proof fn lemma_links_stay(tree: TreeView, i: int, e: int, share: bool, most: usize, j: int, f: int)
    requires
        tree.wf(),
        0 <= i < tree.nodes.len() < usize::MAX,
        0 <= e < tree.nodes[i].edges.len(),
        0 <= j < tree.nodes.len(),
        0 <= f < tree.nodes[j].edges.len(),
        tree.nodes[j].edges[f].child is Some,
    ensures
        ({
            let after = tree.followed(i, e, share, most).0;
            &&& j < after.nodes.len()
            &&& f < after.nodes[j].edges.len()
            &&& after.nodes[j].edges[f].child == tree.nodes[j].edges[f].child
        }),
{
}

/// Counting a path keeps the tree but for the visits on it.
proof fn lemma_counted(tree: TreeView, path: Seq<(usize, usize)>, i: int, e: int)
    requires
        countable(tree, path),
    ensures
        counted(tree, path).nodes.len() == tree.nodes.len(),
        counted(tree, path).places == tree.places,
        0 <= i < tree.nodes.len() ==> counted(tree, path).nodes[i].edges.len()
            == tree.nodes[i].edges.len() && counted(tree, path).nodes[i].board
            == tree.nodes[i].board,
        0 <= i < tree.nodes.len() && 0 <= e < tree.nodes[i].edges.len() ==> {
            let now = counted(tree, path).nodes[i].edges[e];
            &&& now.mv == tree.nodes[i].edges[e].mv
            &&& now.child == tree.nodes[i].edges[e].child
            &&& now.visits <= tree.nodes[i].edges[e].visits + path.len()
        },
    decreases path.len(),
{
    if path.len() > 0 {
        let rest = path.drop_last();
        assert(countable(tree, rest)) by {
            assert forall|k: int| 0 <= k < rest.len() implies {
                let (i, e) = #[trigger] rest[k];
                &&& i < tree.nodes.len()
                &&& e < tree.nodes[i as int].edges.len()
                &&& tree.nodes[i as int].edges[e as int].visits + rest.len() <= u32::MAX
            } by {
                assert(rest[k] == path[k]);
            }
        }
        lemma_counted(tree, rest, i, e);
        let last = path[path.len() - 1];
        lemma_counted(tree, rest, last.0 as int, last.1 as int);
    }
}

/// Whether the action is the second pass in a row, which ends the game.
pub open spec fn passes_out(board: BoardView, mv: Move) -> bool {
    mv == Move::pass_move() && board.passes > 0
}

/// Whether the position that an action makes may be shared. A second pass
/// leads to the cells and the side of the position before the first, which is
/// not over: sharing the two would lead a walk in a circle.
pub open spec fn shares(tree: TreeView, i: int, e: int, share: bool) -> bool {
    share && !passes_out(tree.nodes[i].board, tree.nodes[i].edges[e].mv)
}

impl Walk {
    /// A walk that stands at the root.
    pub fn new() -> (walk: Walk)
        ensures
            walk.path@ == Seq::<(usize, usize)>::empty(),
            walk.at == 0,
            forall|tree: TreeView| #[trigger] tree.wf() ==> walks(walk.path@, walk.at, tree),
    {
        Walk { path: Vec::new(), at: 0 }
    }

    /// Takes an action of the node that the walk stands at. Positions are
    /// shared if asked for, but for the one that a second pass makes.
    pub fn step(&mut self, tree: &mut SearchTree, e: usize, share: bool, most: usize)
        requires
            old(tree)@.wf(),
            old(tree)@.nodes.len() < usize::MAX,
            walks(old(self).path@, old(self).at, old(tree)@),
            e < old(tree)@.nodes[old(self).at as int].edges.len(),
        ensures
            final(tree)@.wf(),
            (final(tree)@, final(self).at) == old(tree)@.followed(
                old(self).at as int,
                e as int,
                shares(old(tree)@, old(self).at as int, e as int, share),
                most,
            ),
            final(self).path@ == old(self).path@.push((old(self).at, e)),
            walks(final(self).path@, final(self).at, final(tree)@),
    {
        let ghost before = tree@;
        let ghost path = self.path@;
        let from: usize = self.at;
        let ends: bool = tree.edges(from)[e].mv == Move::pass() && tree.board(
            from,
        ).consecutive_passes() > 0;
        let sharing: bool = share && !ends;
        proof {
            law_following_keeps_the_tree(before, from as int, e as int, sharing, most);
        }
        let place: usize = tree.child(from, e, sharing, most);
        self.path.push((from, e));
        self.at = place;
        proof {
            let after = tree@;
            assert forall|k: int| 0 <= k < self.path@.len() implies {
                let (i, f) = #[trigger] self.path@[k];
                &&& i < after.nodes.len()
                &&& f < after.nodes[i as int].edges.len()
                &&& after.nodes[i as int].edges[f as int].child == Some(
                    stop(self.path@, self.at, k + 1),
                )
            } by {
                if k < path.len() {
                    let (i, f) = path[k];
                    assert(self.path@[k] == path[k]);
                    lemma_links_stay(
                        before,
                        from as int,
                        e as int,
                        sharing,
                        most,
                        i as int,
                        f as int,
                    );
                }
            }
        }
    }

    /// Counts every action that the walk took.
    pub fn finish(&self, tree: &mut SearchTree)
        requires
            old(tree)@.wf(),
            countable(old(tree)@, self.path@),
        ensures
            final(tree)@.wf(),
            final(tree)@ == counted(old(tree)@, self.path@),
    {
        let ghost before = tree@;
        let mut k: usize = 0;
        assert(self.path@.take(0) =~= Seq::<(usize, usize)>::empty());
        while k < self.path.len()
            invariant
                k <= self.path@.len(),
                tree@.wf(),
                countable(before, self.path@),
                tree@ == counted(before, self.path@.take(k as int)),
            decreases self.path@.len() - k,
        {
            let (i, e): (usize, usize) = self.path[k];
            proof {
                let passed = self.path@.take(k as int);
                assert(self.path@[k as int] == (i, e));
                assert(countable(before, passed)) by {
                    assert forall|m: int| 0 <= m < passed.len() implies {
                        let (a, b) = #[trigger] passed[m];
                        &&& a < before.nodes.len()
                        &&& b < before.nodes[a as int].edges.len()
                        &&& before.nodes[a as int].edges[b as int].visits + passed.len() <= u32::MAX
                    } by {
                        assert(passed[m] == self.path@[m]);
                    }
                }
                lemma_counted(before, passed, i as int, e as int);
                assert(self.path@.take(k + 1).drop_last() =~= passed);
                assert(self.path@.take(k + 1).last() == (i, e));
            }
            tree.visit(i, e);
            k = k + 1;
        }
        assert(self.path@.take(self.path@.len() as int) =~= self.path@);
    }
}

/// The node that a second pass leads to, when it is first taken, is a new one:
/// the walk does not come back to a position that it passed.
pub proof fn law_a_second_pass_makes_a_new_node(
    tree: TreeView,
    i: int,
    e: int,
    share: bool,
    most: usize,
)
    requires
        tree.wf(),
        0 <= i < tree.nodes.len() < usize::MAX,
        0 <= e < tree.nodes[i].edges.len(),
        passes_out(tree.nodes[i].board, tree.nodes[i].edges[e].mv),
        tree.nodes[i].edges[e].child is None,
    ensures
        ({
            let (after, place) = tree.followed(i, e, shares(tree, i, e, share), most);
            &&& place == tree.nodes.len()
            &&& after.nodes[place as int].board.finished()
            &&& after.places == tree.places
        }),
{
}

/// A finished walk counts once for every time that it passes a node, and once
/// at least at the root if it went anywhere. So the visits at the root are the
/// walks that left it, where none came back to it.
pub proof fn law_a_walk_counts_every_step(tree: TreeView, path: Seq<(usize, usize)>, i: int)
    requires
        countable(tree, path),
        0 <= i < tree.nodes.len(),
    ensures
        visit_total(counted(tree, path).nodes[i].edges) == visit_total(tree.nodes[i].edges)
            + times(path, i),
        path.len() > 0 && path[0].0 == i ==> times(path, i) >= 1,
    decreases path.len(),
{
    if path.len() > 0 {
        let rest = path.drop_last();
        assert(countable(tree, rest)) by {
            assert forall|k: int| 0 <= k < rest.len() implies {
                let (i, e) = #[trigger] rest[k];
                &&& i < tree.nodes.len()
                &&& e < tree.nodes[i as int].edges.len()
                &&& tree.nodes[i as int].edges[e as int].visits + rest.len() <= u32::MAX
            } by {
                assert(rest[k] == path[k]);
            }
        }
        law_a_walk_counts_every_step(tree, rest, i);
        let last = path[path.len() - 1];
        lemma_counted(tree, rest, last.0 as int, last.1 as int);
        let now = counted(tree, rest);
        let edge = now.nodes[last.0 as int].edges[last.1 as int];
        crate::tree::lemma_visit_update(
            now.nodes[last.0 as int].edges,
            last.1 as int,
            Edge { visits: (edge.visits + 1) as u32, ..edge },
        );
        if rest.len() > 0 {
            assert(rest[0] == path[0]);
        }
    }
}

/// A walk ends at a finished game, whether it was expanded or not; else it
/// goes on if and only if the node was expanded.
pub proof fn law_walks_end_with_the_game(node: NodeView)
    ensures
        match reach_of(node) {
            Reach::Finished(outcome) => outcome_of(node.board) == Some(outcome),
            Reach::Fresh => outcome_of(node.board) is None && !node.expanded,
            Reach::Open => outcome_of(node.board) is None && node.expanded,
        },
{
}

} // verus!
