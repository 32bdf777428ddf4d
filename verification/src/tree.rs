//! The tree of a search: positions with the actions that were expanded, how
//! often each was taken, and where it leads. Positions that were reached
//! before can be shared.
use crate::game::{law_play_keeps_the_board_valid, Board, BoardView, Move};
use crate::grid::CELL_COUNT;
use crate::rng::{board_hash, hash_below, same_position};
use std::collections::HashMap;
use vstd::prelude::*;

verus! {

broadcast use vstd::std_specs::hash::group_hash_axioms;

/// An action of a position.
#[derive(Clone, Copy, Debug, PartialEq, Eq, Structural)]
pub struct Edge {
    pub mv: Move,
    pub visits: u32,
    pub child: Option<usize>,
}

pub struct Node {
    pub board: Board,
    pub edges: Vec<Edge>,
    pub expanded: bool,
}

#[verifier::ext_equal]
pub struct NodeView {
    pub board: BoardView,
    pub edges: Seq<Edge>,
    pub expanded: bool,
}

impl View for Node {
    type V = NodeView;

    open spec fn view(&self) -> NodeView {
        NodeView { board: self.board@, edges: self.edges@, expanded: self.expanded }
    }
}

/// The stones and the side to move are the same.
pub open spec fn alike(a: BoardView, b: BoardView) -> bool {
    a.to_move == b.to_move && a.cells == b.cells
}

/// The key of a position.
pub open spec fn key_of(board: BoardView) -> u64 {
    hash_below(board, CELL_COUNT as nat)
}

/// The nodes, and where positions are found again by their keys.
#[verifier::ext_equal]
pub struct TreeView {
    pub nodes: Seq<NodeView>,
    pub places: Map<u64, Seq<usize>>,
}

pub open spec fn node_views(nodes: Seq<Node>) -> Seq<NodeView> {
    nodes.map_values(|node: Node| node@)
}

impl TreeView {
    pub open spec fn wf(self) -> bool {
        &&& self.nodes.len() > 0
        &&& forall|i: int| 0 <= i < self.nodes.len() ==> (#[trigger] self.nodes[i]).board.wf()
        &&& forall|i: int, e: int|
            0 <= i < self.nodes.len() && 0 <= e < self.nodes[i].edges.len() ==> self.edge_wf(
                i,
                #[trigger] self.nodes[i].edges[e],
            )
        &&& forall|key: u64, k: int|
            self.places.dom().contains(key) && 0 <= k < self.places[key].len() ==> {
                let place = #[trigger] self.places[key][k];
                place < self.nodes.len() && key_of(self.nodes[place as int].board) == key
            }
    }

    /// The action is legal, and leads to the position that it makes.
    pub open spec fn edge_wf(self, i: int, edge: Edge) -> bool {
        &&& self.nodes[i].board.legal(edge.mv)
        &&& match edge.child {
            Some(child) => child < self.nodes.len() && alike(
                self.nodes[child as int].board,
                self.nodes[i].board.played(edge.mv),
            ),
            None => true,
        }
    }

    /// The first known place of a position among the first `n` that share its
    /// key.
    pub open spec fn found_below(self, board: BoardView, n: nat) -> Option<usize>
        decreases n,
    {
        if n == 0 {
            None
        } else {
            match self.found_below(board, (n - 1) as nat) {
                Some(place) => Some(place),
                None => {
                    let place = self.places[key_of(board)][n - 1];
                    if alike(self.nodes[place as int].board, board) {
                        Some(place)
                    } else {
                        None
                    }
                },
            }
        }
    }

    /// The known place of a position.
    pub open spec fn found(self, board: BoardView) -> Option<usize> {
        if self.places.dom().contains(key_of(board)) {
            self.found_below(board, self.places[key_of(board)].len())
        } else {
            None
        }
    }

    /// The places with one more under a key.
    pub open spec fn noted(self, key: u64, place: usize) -> Map<u64, Seq<usize>> {
        let before = if self.places.dom().contains(key) {
            self.places[key]
        } else {
            Seq::empty()
        };
        self.places.insert(key, before.push(place))
    }

    /// The tree with an edge changed.
    pub open spec fn with_edge(self, i: int, e: int, edge: Edge) -> TreeView {
        let node = self.nodes[i];
        TreeView {
            nodes: self.nodes.update(
                i,
                NodeView { edges: node.edges.update(e, edge), ..node },
            ),
            ..self
        }
    }

    /// The tree after an action was followed, and the place it leads to. A
    /// position that is not shared gets a node of its own, which can be found
    /// again as long as the tree is not too large.
    pub open spec fn followed(self, i: int, e: int, share: bool, most: usize) -> (TreeView, usize) {
        let edge = self.nodes[i].edges[e];
        let next = self.nodes[i].board.played(edge.mv);
        match edge.child {
            Some(child) => (self, child),
            None => {
                let known = if share {
                    self.found(next)
                } else {
                    None
                };
                match known {
                    Some(place) => (
                        self.with_edge(i, e, Edge { child: Some(place), ..edge }),
                        place,
                    ),
                    None => {
                        let place = self.nodes.len() as usize;
                        let linked = self.with_edge(i, e, Edge { child: Some(place), ..edge });
                        let fresh = NodeView { board: next, edges: Seq::empty(), expanded: false };
                        let limit: usize = if most < 1 {
                            1
                        } else {
                            most
                        };
                        (
                            TreeView {
                                nodes: linked.nodes.push(fresh),
                                places: if share && place + 1 <= limit {
                                    self.noted(key_of(next), place)
                                } else {
                                    self.places
                                },
                            },
                            place,
                        )
                    },
                }
            },
        }
    }
}

/// The tree of a search.
pub struct SearchTree {
    nodes: Vec<Node>,
    places: HashMap<u64, Vec<usize>>,
}

pub open spec fn place_views(places: Map<u64, Vec<usize>>) -> Map<u64, Seq<usize>> {
    places.map_values(|list: Vec<usize>| list@)
}

impl View for SearchTree {
    type V = TreeView;

    closed spec fn view(&self) -> TreeView {
        TreeView { nodes: node_views(self.nodes@), places: place_views(self.places@) }
    }
}

/// How often the actions of a node were taken.
pub open spec fn visit_total(edges: Seq<Edge>) -> nat
    decreases edges.len(),
{
    if edges.len() == 0 {
        0
    } else {
        visit_total(edges.drop_last()) + edges.last().visits as nat
    }
}

pub proof fn lemma_visit_update(edges: Seq<Edge>, e: int, edge: Edge)
    requires
        0 <= e < edges.len(),
    ensures
        visit_total(edges.update(e, edge)) == visit_total(edges) - edges[e].visits + edge.visits,
    decreases edges.len(),
{
    let changed = edges.update(e, edge);
    if e == edges.len() - 1 {
        assert(changed.drop_last() =~= edges.drop_last());
    } else {
        lemma_visit_update(edges.drop_last(), e, edge);
        assert(changed.drop_last() =~= edges.drop_last().update(e, edge));
    }
}

/// The actions as they are first expanded.
pub open spec fn fresh_edges(moves: Seq<Move>) -> Seq<Edge> {
    moves.map_values(|mv: Move| Edge { mv, visits: 0, child: None })
}

proof fn lemma_fresh_total(moves: Seq<Move>)
    ensures
        visit_total(fresh_edges(moves)) == 0,
    decreases moves.len(),
{
    if moves.len() > 0 {
        lemma_fresh_total(moves.drop_last());
        assert(fresh_edges(moves).drop_last() =~= fresh_edges(moves.drop_last()));
    }
}

/// The known place of a position is one that holds it.
proof fn lemma_found(tree: TreeView, board: BoardView, n: nat)
    requires
        tree.wf(),
        tree.places.dom().contains(key_of(board)),
        n <= tree.places[key_of(board)].len(),
    ensures
        match tree.found_below(board, n) {
            Some(place) => place < tree.nodes.len() && alike(
                tree.nodes[place as int].board,
                board,
            ),
            None => true,
        },
    decreases n,
{
    if n > 0 {
        lemma_found(tree, board, (n - 1) as nat);
        let place = tree.places[key_of(board)][n - 1];
        assert(place < tree.nodes.len());
    }
}

/// Following an action keeps the tree in order and leads to the position that
/// the action makes; no other node changes.
pub proof fn law_following_keeps_the_tree(
    tree: TreeView,
    i: int,
    e: int,
    share: bool,
    most: usize,
)
    requires
        tree.wf(),
        0 <= i < tree.nodes.len() < usize::MAX,
        0 <= e < tree.nodes[i].edges.len(),
    ensures
        ({
            let (after, place) = tree.followed(i, e, share, most);
            let edge = tree.nodes[i].edges[e];
            &&& after.wf()
            &&& place < after.nodes.len()
            &&& after.nodes[i].edges[e].child == Some(place)
            &&& alike(after.nodes[place as int].board, tree.nodes[i].board.played(edge.mv))
            &&& tree.nodes.len() <= after.nodes.len() <= tree.nodes.len() + 1
            &&& forall|j: int|
                0 <= j < tree.nodes.len() && j != i ==> after.nodes[j] == #[trigger] tree.nodes[j]
            &&& visit_total(after.nodes[i].edges) == visit_total(tree.nodes[i].edges)
        }),
{
    let (after, place) = tree.followed(i, e, share, most);
    let edge = tree.nodes[i].edges[e];
    let next = tree.nodes[i].board.played(edge.mv);
    assert(tree.edge_wf(i, edge));
    law_play_keeps_the_board_valid(tree.nodes[i].board, edge.mv);
    if edge.child is None {
        let known = if share {
            tree.found(next)
        } else {
            None
        };
        if share && tree.places.dom().contains(key_of(next)) {
            lemma_found(tree, next, tree.places[key_of(next)].len());
        }
        let linked = tree.with_edge(i, e, Edge { child: Some(place), ..edge });
        lemma_visit_update(tree.nodes[i].edges, e, Edge { child: Some(place), ..edge });
        assert forall|j: int| 0 <= j < after.nodes.len() implies (
        #[trigger] after.nodes[j]).board.wf() by {
            if j < tree.nodes.len() {
                assert(tree.nodes[j].board.wf());
            }
        }
        assert forall|j: int, f: int|
            0 <= j < after.nodes.len() && 0 <= f < after.nodes[j].edges.len() implies after.edge_wf(
            j,
            #[trigger] after.nodes[j].edges[f],
        ) by {
            if j < tree.nodes.len() {
                assert(tree.edge_wf(j, tree.nodes[j].edges[f]));
                let old_edge = tree.nodes[j].edges[f];
                match old_edge.child {
                    Some(child) => {
                        assert(after.nodes[child as int].board == tree.nodes[child as int].board);
                    },
                    None => {},
                }
            }
        }
        assert forall|key: u64, k: int|
            after.places.dom().contains(key) && 0 <= k < after.places[key].len() implies {
            let at = #[trigger] after.places[key][k];
            at < after.nodes.len() && key_of(after.nodes[at as int].board) == key
        } by {
            if tree.places.dom().contains(key) && k < tree.places[key].len() {
                let at = tree.places[key][k];
                assert(after.places[key][k] == at);
                assert(at < tree.nodes.len() && key_of(tree.nodes[at as int].board) == key);
                assert(after.nodes[at as int].board == tree.nodes[at as int].board);
            }
        }
    }
}

impl SearchTree {
    /// A tree with the position to search from.
    pub fn new(board: Board) -> (tree: SearchTree)
        requires
            board@.wf(),
        ensures
            tree@.wf(),
            tree@.nodes == seq![
                NodeView { board: board@, edges: Seq::empty(), expanded: false },
            ],
            tree@.places == map![key_of(board@) => seq![0usize]],
    {
        let key: u64 = board_hash(&board);
        let ghost root = board@;
        let mut nodes: Vec<Node> = Vec::new();
        nodes.push(Node { board, edges: Vec::new(), expanded: false });
        let mut first: Vec<usize> = Vec::new();
        first.push(0);
        let mut places: HashMap<u64, Vec<usize>> = HashMap::new();
        places.insert(key, first);
        let tree: SearchTree = SearchTree { nodes, places };
        proof {
            assert(tree@.nodes[0].edges =~= Seq::<Edge>::empty());
            assert(tree@.nodes =~= seq![
                NodeView { board: root, edges: Seq::empty(), expanded: false },
            ]);
            assert(first@ =~= seq![0usize]);
            assert(tree@.places =~= map![key_of(root) => seq![0usize]]);
        }
        tree
    }

    /// Number of nodes.
    pub fn len(&self) -> (result: usize)
        ensures
            result == self@.nodes.len(),
    {
        self.nodes.len()
    }

    /// The position of a node.
    pub fn board(&self, i: usize) -> (result: &Board)
        requires
            i < self@.nodes.len(),
        ensures
            result@ == self@.nodes[i as int].board,
    {
        &self.nodes[i].board
    }

    /// The actions of a node.
    pub fn edges(&self, i: usize) -> (result: &Vec<Edge>)
        requires
            i < self@.nodes.len(),
        ensures
            result@ == self@.nodes[i as int].edges,
    {
        &self.nodes[i].edges
    }

    pub fn is_expanded(&self, i: usize) -> (result: bool)
        requires
            i < self@.nodes.len(),
        ensures
            result == self@.nodes[i as int].expanded,
    {
        self.nodes[i].expanded
    }

    /// Gives a node the actions that are searched from it.
    pub fn expand(&mut self, i: usize, moves: &Vec<Move>)
        requires
            old(self)@.wf(),
            i < old(self)@.nodes.len(),
            forall|k: int|
                0 <= k < moves@.len() ==> old(self)@.nodes[i as int].board.legal(
                    #[trigger] moves@[k],
                ),
        ensures
            final(self)@.wf(),
            final(self)@ == (TreeView {
                nodes: old(self)@.nodes.update(
                    i as int,
                    NodeView {
                        board: old(self)@.nodes[i as int].board,
                        edges: fresh_edges(moves@),
                        expanded: true,
                    },
                ),
                ..old(self)@
            }),
            visit_total(final(self)@.nodes[i as int].edges) == 0,
    {
        let ghost before = self@;
        let mut edges: Vec<Edge> = Vec::with_capacity(moves.len());
        let mut k: usize = 0;
        while k < moves.len()
            invariant
                k <= moves@.len(),
                edges@ == fresh_edges(moves@.take(k as int)),
            decreases moves@.len() - k,
        {
            edges.push(Edge { mv: moves[k], visits: 0, child: None });
            assert(edges@ =~= fresh_edges(moves@.take(k + 1)));
            k = k + 1;
        }
        assert(moves@.take(moves@.len() as int) =~= moves@);
        let ghost fresh = edges@;
        self.nodes[i].edges = edges;
        self.nodes[i].expanded = true;
        proof {
            lemma_fresh_total(moves@);
            let after = self@;
            assert(after.nodes =~= before.nodes.update(
                i as int,
                NodeView { board: before.nodes[i as int].board, edges: fresh, expanded: true },
            ));
            assert forall|j: int, f: int|
                0 <= j < after.nodes.len() && 0 <= f
                    < after.nodes[j].edges.len() implies after.edge_wf(
                j,
                #[trigger] after.nodes[j].edges[f],
            ) by {
                if j != i {
                    assert(before.edge_wf(j, before.nodes[j].edges[f]));
                } else {
                    assert(before.nodes[i as int].board.legal(moves@[f]));
                }
            }
            assert forall|j: int| 0 <= j < after.nodes.len() implies (
            #[trigger] after.nodes[j]).board.wf() by {
                assert(before.nodes[j].board.wf());
            }
            assert forall|key: u64, p: int|
                after.places.dom().contains(key) && 0 <= p < after.places[key].len() implies {
                let at = #[trigger] after.places[key][p];
                at < after.nodes.len() && key_of(after.nodes[at as int].board) == key
            } by {
                let at = before.places[key][p];
                assert(at < before.nodes.len());
            }
        }
    }

    /// The known place of a position.
    fn find(&self, board: &Board, key: u64) -> (result: Option<usize>)
        requires
            self@.wf(),
            board@.wf(),
            key == key_of(board@),
        ensures
            result == self@.found(board@),
    {
        match self.places.get(&key) {
            None => None,
            Some(list) => {
                let ghost tree = self@;
                assert(tree.places.dom().contains(key));
                assert(tree.places[key] == list@);
                let mut k: usize = 0;
                while k < list.len()
                    invariant
                        k <= list@.len(),
                        self@.wf(),
                        tree == self@,
                        board@.wf(),
                        key == key_of(board@),
                        tree.places.dom().contains(key),
                        tree.places[key] == list@,
                        tree.found_below(board@, k as nat) is None,
                        tree.found(board@) == tree.found_below(board@, list@.len()),
                    decreases list@.len() - k,
                {
                    let place: usize = list[k];
                    proof {
                        assert(tree.places[key][k as int] == place);
                        assert(tree.nodes[place as int].board.wf());
                        assert(tree.nodes[place as int] == self.nodes@[place as int]@);
                    }
                    if same_position(&self.nodes[place].board, board) {
                        proof {
                            assert(tree.found_below(board@, (k + 1) as nat) == Some(place));
                            lemma_found_stays(tree, board@, (k + 1) as nat, list@.len());
                        }
                        return Some(place);
                    }
                    k = k + 1;
                }
                None
            },
        }
    }

    /// Follows an action of a node to the node that it leads to.
    pub fn child(&mut self, i: usize, e: usize, share: bool, most: usize) -> (place: usize)
        requires
            old(self)@.wf(),
            i < old(self)@.nodes.len() < usize::MAX,
            e < old(self)@.nodes[i as int].edges.len(),
        ensures
            final(self)@.wf(),
            (final(self)@, place) == old(self)@.followed(i as int, e as int, share, most),
    {
        let ghost before = self@;
        proof {
            law_following_keeps_the_tree(before, i as int, e as int, share, most);
            assert(before.nodes[i as int].edges == self.nodes@[i as int].edges@);
            assert(before.edge_wf(i as int, before.nodes[i as int].edges[e as int]));
            assert(before.nodes[i as int].board.wf());
        }
        let edge: Edge = self.nodes[i].edges[e];
        match edge.child {
            Some(child) => {
                return child;
            },
            None => {},
        }
        let mut next: Board = self.nodes[i].board.clone();
        next.play(edge.mv);
        let key: u64 = board_hash(&next);
        let known: Option<usize> = if share {
            self.find(&next, key)
        } else {
            None
        };
        match known {
            Some(place) => {
                self.nodes[i].edges[e] = Edge { child: Some(place), ..edge };
                proof {
                    assert(self@.nodes =~= before.with_edge(
                        i as int,
                        e as int,
                        Edge { child: Some(place), ..edge },
                    ).nodes);
                }
                place
            },
            None => {
                let place: usize = self.nodes.len();
                self.nodes[i].edges[e] = Edge { child: Some(place), ..edge };
                let ghost linked = before.with_edge(
                    i as int,
                    e as int,
                    Edge { child: Some(place), ..edge },
                );
                assert(self@.nodes =~= linked.nodes);
                let ghost view = next@;
                let fresh: Node = Node { board: next, edges: Vec::new(), expanded: false };
                let ghost fresh_view = NodeView {
                    board: view,
                    edges: Seq::empty(),
                    expanded: false,
                };
                assert(fresh@ =~= fresh_view);
                self.nodes.push(fresh);
                assert(self@.nodes =~= linked.nodes.push(fresh_view));
                let limit: usize = if most < 1 {
                    1
                } else {
                    most
                };
                if share && self.nodes.len() <= limit {
                    let mut list: Vec<usize> = match self.places.remove(&key) {
                        Some(list) => list,
                        None => Vec::new(),
                    };
                    list.push(place);
                    self.places.insert(key, list);
                    assert(self@.places =~= before.noted(key, place));
                }
                assert(self@.nodes.len() == before.nodes.len() + 1);
                place
            },
        }
    }

    /// Counts that an action of a node was taken.
    pub fn visit(&mut self, i: usize, e: usize)
        requires
            old(self)@.wf(),
            i < old(self)@.nodes.len(),
            e < old(self)@.nodes[i as int].edges.len(),
            old(self)@.nodes[i as int].edges[e as int].visits < u32::MAX,
        ensures
            final(self)@.wf(),
            ({
                let edge = old(self)@.nodes[i as int].edges[e as int];
                final(self)@ == old(self)@.with_edge(
                    i as int,
                    e as int,
                    Edge { visits: (edge.visits + 1) as u32, ..edge },
                )
            }),
            visit_total(final(self)@.nodes[i as int].edges) == visit_total(
                old(self)@.nodes[i as int].edges,
            ) + 1,
    {
        let ghost before = self@;
        let edge: Edge = self.nodes[i].edges[e];
        let more: Edge = Edge { visits: edge.visits + 1, ..edge };
        self.nodes[i].edges[e] = more;
        proof {
            let after = self@;
            assert(after.nodes =~= before.with_edge(i as int, e as int, more).nodes);
            lemma_visit_update(before.nodes[i as int].edges, e as int, more);
            assert forall|j: int, f: int|
                0 <= j < after.nodes.len() && 0 <= f
                    < after.nodes[j].edges.len() implies after.edge_wf(
                j,
                #[trigger] after.nodes[j].edges[f],
            ) by {
                assert(before.edge_wf(j, before.nodes[j].edges[f]));
            }
            assert forall|j: int| 0 <= j < after.nodes.len() implies (
            #[trigger] after.nodes[j]).board.wf() by {
                assert(before.nodes[j].board.wf());
            }
            assert forall|key: u64, p: int|
                after.places.dom().contains(key) && 0 <= p < after.places[key].len() implies {
                let at = #[trigger] after.places[key][p];
                at < after.nodes.len() && key_of(after.nodes[at as int].board) == key
            } by {
                let at = before.places[key][p];
                assert(at < before.nodes.len());
            }
        }
    }
}

proof fn lemma_found_stays(tree: TreeView, board: BoardView, k: nat, n: nat)
    requires
        k <= n,
        tree.found_below(board, k) is Some,
    ensures
        tree.found_below(board, n) == tree.found_below(board, k),
    decreases n,
{
    if k < n {
        lemma_found_stays(tree, board, k, (n - 1) as nat);
    }
}

/// The place among ordered places after all whose key is at least as great.
pub open spec fn rank_of(keys: Seq<i64>, order: Seq<usize>, key: i64) -> int
    decreases order.len(),
{
    if order.len() == 0 {
        0
    } else if keys[order.last() as int] >= key {
        order.len() as int
    } else {
        rank_of(keys, order.drop_last(), key)
    }
}

/// The places of the first `n` keys, the greatest key first, and the first of
/// equal keys first.
pub open spec fn ranked(keys: Seq<i64>, n: nat) -> Seq<usize>
    decreases n,
{
    if n == 0 {
        Seq::empty()
    } else {
        let before = ranked(keys, (n - 1) as nat);
        before.insert(rank_of(keys, before, keys[n - 1]), (n - 1) as usize)
    }
}

/// One place comes before another: its key is greater, or equal and the place
/// lower.
pub open spec fn ranks_before(keys: Seq<i64>, a: usize, b: usize) -> bool {
    keys[a as int] > keys[b as int] || (keys[a as int] == keys[b as int] && a < b)
}

/// Greater keys come first, and of equal keys the lower place.
pub open spec fn well_ranked(keys: Seq<i64>, order: Seq<usize>) -> bool {
    forall|i: int, j: int|
        0 <= i < j < order.len() ==> ranks_before(keys, #[trigger] order[i], #[trigger] order[j])
}

proof fn lemma_rank_of(keys: Seq<i64>, order: Seq<usize>, n: int)
    requires
        0 <= n < keys.len() <= usize::MAX,
        well_ranked(keys, order),
        forall|i: int| 0 <= i < order.len() ==> #[trigger] order[i] < n,
    ensures
        0 <= rank_of(keys, order, keys[n]) <= order.len(),
        forall|i: int|
            0 <= i < rank_of(keys, order, keys[n]) ==> keys[#[trigger] order[i] as int] >= keys[n],
        forall|i: int|
            rank_of(keys, order, keys[n]) <= i < order.len() ==> keys[#[trigger] order[i] as int]
                < keys[n],
    decreases order.len(),
{
    if order.len() > 0 {
        let rest = order.drop_last();
        assert(well_ranked(keys, rest));
        if keys[order.last() as int] >= keys[n] {
            assert forall|i: int| 0 <= i < order.len() implies keys[#[trigger] order[i] as int]
                >= keys[n] by {
                if i < order.len() - 1 {
                    assert(ranks_before(keys, order[i], order[order.len() - 1]));
                }
            }
        } else {
            lemma_rank_of(keys, rest, n);
            assert forall|i: int|
                0 <= i < rank_of(keys, order, keys[n]) implies keys[#[trigger] order[i] as int]
                >= keys[n] by {
                assert(rest[i] == order[i]);
            }
            assert forall|i: int|
                rank_of(keys, order, keys[n]) <= i < order.len() implies keys[
            #[trigger] order[i] as int] < keys[n] by {
                if i < rest.len() {
                    assert(rest[i] == order[i]);
                }
            }
        }
    }
}

/// Every place is ranked once, greater keys before lesser ones.
pub proof fn law_ranking_is_an_order(keys: Seq<i64>, n: nat)
    requires
        n <= keys.len() <= usize::MAX,
    ensures
        ranked(keys, n).len() == n,
        well_ranked(keys, ranked(keys, n)),
        forall|i: int| 0 <= i < n ==> #[trigger] ranked(keys, n)[i] < n,
        forall|p: usize| p < n ==> #[trigger] ranked(keys, n).contains(p),
    decreases n,
{
    if n > 0 {
        let before = ranked(keys, (n - 1) as nat);
        law_ranking_is_an_order(keys, (n - 1) as nat);
        lemma_rank_of(keys, before, n - 1);
        let at = rank_of(keys, before, keys[n - 1]);
        let after = ranked(keys, n);
        assert(after == before.insert(at, (n - 1) as usize));
        assert forall|i: int, j: int| 0 <= i < j < after.len() implies ranks_before(
            keys,
            #[trigger] after[i],
            #[trigger] after[j],
        ) by {
            if i == at {
                assert(after[j] == before[j - 1]);
            } else if j == at {
                assert(after[i] == before[i]);
            } else {
                let x = if i < at {
                    i
                } else {
                    i - 1
                };
                let y = if j < at {
                    j
                } else {
                    j - 1
                };
                assert(after[i] == before[x]);
                assert(after[j] == before[y]);
                assert(ranks_before(keys, before[x], before[y]));
            }
        }
        assert forall|i: int| 0 <= i < n implies #[trigger] after[i] < n by {
            if i < at {
                assert(after[i] == before[i]);
            } else if i > at {
                assert(after[i] == before[i - 1]);
            }
        }
        assert forall|p: usize| p < n implies #[trigger] after.contains(p) by {
            if p == n - 1 {
                assert(after[at] == p);
            } else {
                assert(before.contains(p));
                let i = before.index_of(p);
                if i < at {
                    assert(after[i] == p);
                } else {
                    assert(after[i + 1] == p);
                }
            }
        }
    }
}

/// Ranks candidates by their keys: visits, or scores as ordered numbers.
pub fn rank_candidates(keys: &[i64]) -> (order: Vec<usize>)
    ensures
        order@ == ranked(keys@, keys@.len()),
{
    let mut order: Vec<usize> = Vec::with_capacity(keys.len());
    let mut n: usize = 0;
    while n < keys.len()
        invariant
            n <= keys@.len(),
            order@ == ranked(keys@, n as nat),
        decreases keys@.len() - n,
    {
        let ghost before = order@;
        proof {
            law_ranking_is_an_order(keys@, n as nat);
            lemma_rank_of(keys@, before, n as int);
            assert(before.take(before.len() as int) =~= before);
        }
        let mut at: usize = order.len();
        while at > 0 && keys[order[at - 1]] < keys[n]
            invariant
                n < keys@.len(),
                order@ == before,
                at <= before.len(),
                forall|i: int| 0 <= i < before.len() ==> #[trigger] before[i] < n,
                rank_of(keys@, before, keys@[n as int]) == rank_of(
                    keys@,
                    before.take(at as int),
                    keys@[n as int],
                ),
            decreases at,
        {
            assert(before.take(at as int).drop_last() =~= before.take(at - 1));
            assert(before[at - 1] < n);
            at = at - 1;
        }
        proof {
            if at > 0 {
                assert(before.take(at as int).last() == before[at - 1]);
            }
        }
        order.insert(at, n);
        n = n + 1;
    }
    order
}

/// A place under the key of a position holds it.
pub open spec fn holds_position(tree: TreeView, board: BoardView, k: int) -> bool {
    &&& tree.places.dom().contains(key_of(board))
    &&& 0 <= k < tree.places[key_of(board)].len()
    &&& alike(tree.nodes[tree.places[key_of(board)][k] as int].board, board)
}

proof fn lemma_first_found(tree: TreeView, board: BoardView, n: nat)
    requires
        tree.places.dom().contains(key_of(board)),
        n <= tree.places[key_of(board)].len(),
    ensures
        match tree.found_below(board, n) {
            Some(place) => exists|k: int|
                k < n && #[trigger] holds_position(tree, board, k) && tree.places[key_of(board)][k]
                    == place && forall|j: int| 0 <= j < k ==> !#[trigger] holds_position(
                    tree,
                    board,
                    j,
                ),
            None => forall|k: int| 0 <= k < n ==> !#[trigger] holds_position(tree, board, k),
        },
    decreases n,
{
    if n > 0 {
        lemma_first_found(tree, board, (n - 1) as nat);
        if tree.found_below(board, (n - 1) as nat) is None {
            let place = tree.places[key_of(board)][n - 1];
            if alike(tree.nodes[place as int].board, board) {
                assert(holds_position(tree, board, n - 1));
            }
        }
    }
}

/// A position is found if and only if one of the places under its key holds
/// it, and then the first that does.
pub proof fn law_positions_are_found_again(tree: TreeView, board: BoardView)
    ensures
        tree.found(board) is Some <==> exists|k: int| #[trigger] holds_position(tree, board, k),
        tree.found(board) matches Some(place) ==> exists|k: int| #[trigger]
            holds_position(tree, board, k) && tree.places[key_of(board)][k] == place && forall|
                j: int,
            |
                0 <= j < k ==> !#[trigger] holds_position(tree, board, j),
{
    if tree.places.dom().contains(key_of(board)) {
        lemma_first_found(tree, board, tree.places[key_of(board)].len());
    }
}

/// A position is shared if that is asked for and it is known, and gets a node
/// of its own otherwise, which is known from then on while there is room. An
/// action that was followed before leads to the same node, and the tree stays.
pub proof fn law_known_positions_are_shared(
    tree: TreeView,
    i: int,
    e: int,
    share: bool,
    most: usize,
)
    requires
        tree.wf(),
        0 <= i < tree.nodes.len() < usize::MAX,
        0 <= e < tree.nodes[i].edges.len(),
    ensures
        ({
            let (after, place) = tree.followed(i, e, share, most);
            let edge = tree.nodes[i].edges[e];
            let next = tree.nodes[i].board.played(edge.mv);
            &&& edge.child matches Some(child) ==> after == tree && place == child
            &&& edge.child is None && share && tree.found(next) is Some ==> after.nodes.len()
                == tree.nodes.len() && tree.found(next) == Some(place)
            &&& edge.child is None && (!share || tree.found(next) is None) ==> {
                &&& after.nodes.len() == tree.nodes.len() + 1
                &&& place == tree.nodes.len()
                &&& after.nodes[place as int].board == next
                &&& !after.nodes[place as int].expanded
                &&& after.nodes[place as int].edges.len() == 0
            }
            &&& edge.child is None && share && tree.found(next) is None && tree.nodes.len() < most
                ==> after.found(next) == Some(place)
            &&& !share ==> after.places == tree.places
            &&& after.nodes[i].edges[e].visits == edge.visits && after.nodes[i].edges[e].mv
                == edge.mv
            &&& after.followed(i, e, share, most) == (after, place)
        }),
{
    let (after, place) = tree.followed(i, e, share, most);
    let edge = tree.nodes[i].edges[e];
    let next = tree.nodes[i].board.played(edge.mv);
    let key = key_of(next);
    if edge.child is None && share && tree.found(next) is None && tree.nodes.len() < most {
        law_positions_are_found_again(tree, next);
        let list = after.places[key];
        let last = list.len() - 1;
        assert(list[last] == place);
        assert(holds_position(after, next, last));
        law_positions_are_found_again(after, next);
        let k = choose|k: int| #[trigger]
            holds_position(after, next, k) && after.places[key][k] == after.found(next)->0;
        if k < last {
            assert(tree.places.dom().contains(key));
            let at = tree.places[key][k];
            assert(list[k] == at);
            assert(at < tree.nodes.len());
            assert(after.nodes[at as int].board == tree.nodes[at as int].board);
            assert(holds_position(tree, next, k));
        }
    }
}

/// Expanding lists every action once in the given order, without visits.
pub proof fn law_expanded_actions_are_fresh(moves: Seq<Move>, e: int)
    requires
        0 <= e < moves.len(),
    ensures
        fresh_edges(moves).len() == moves.len(),
        fresh_edges(moves)[e].mv == moves[e],
        fresh_edges(moves)[e].visits == 0,
        fresh_edges(moves)[e].child is None,
        visit_total(fresh_edges(moves)) == 0,
{
    lemma_fresh_total(moves);
}

} // verus!
