//! The rules of the game: capture, suicide, positional superko, passing.
use crate::grid::{
    adjacent, border_of, closed_within, component, flood, lemma_adjacent_symmetric,
    lemma_component_basic, lemma_component_least, lemma_component_of_member, lemma_neighbors,
    lemma_walk_order, neighbors, neighbors_of, points_with, same_component, walk_order, BOARD_SIZE,
    CELL_COUNT,
};
use vstd::prelude::*;

verus! {

/// Number of actions: every point, and the pass.
pub const ACTION_COUNT: usize = 362;

/// A game that reaches this many moves is aborted and has no winner.
pub const MAX_MOVES: usize = 1444;

#[derive(Clone, Copy, Debug, PartialEq, Eq, Structural)]
pub enum Player {
    Black,
    White,
}

impl Player {
    pub open spec fn opponent(self) -> Player {
        match self {
            Player::Black => Player::White,
            Player::White => Player::Black,
        }
    }

    /// The cell value of this player's stones.
    pub open spec fn mark(self) -> i8 {
        match self {
            Player::Black => 1i8,
            Player::White => -1i8,
        }
    }

    pub fn other(self) -> (result: Player)
        ensures
            result == self.opponent(),
    {
        match self {
            Player::Black => Player::White,
            Player::White => Player::Black,
        }
    }

    pub fn stone(self) -> (result: i8)
        ensures
            result == self.mark(),
    {
        match self {
            Player::Black => 1,
            Player::White => -1,
        }
    }
}

/// An action: the point with that index, or the pass.
#[derive(Clone, Copy, Debug, PartialEq, Eq, Hash, Structural)]
pub struct Move(pub usize);

impl Move {
    pub open spec fn pass_move() -> Move {
        Move(CELL_COUNT)
    }

    /// The pass.
    pub fn pass() -> (result: Move)
        ensures
            result == Move::pass_move(),
    {
        Move(CELL_COUNT)
    }

    /// The point in the given row and column, if there is one.
    pub fn new(row: usize, col: usize) -> (result: Option<Move>)
        ensures
            result == (if row < BOARD_SIZE && col < BOARD_SIZE {
                Some(Move((row * 19 + col) as usize))
            } else {
                None
            }),
    {
        if row < BOARD_SIZE && col < BOARD_SIZE {
            Some(Move(row * BOARD_SIZE + col))
        } else {
            None
        }
    }

    pub fn row(self) -> (result: usize)
        ensures
            result == self.0 as int / 19,
    {
        self.0 / BOARD_SIZE
    }

    pub fn col(self) -> (result: usize)
        ensures
            result == self.0 as int % 19,
    {
        self.0 % BOARD_SIZE
    }
}

/// How a game ended.
#[derive(Clone, Copy, Debug, PartialEq, Eq, Structural)]
pub enum Outcome {
    Win(Player),
    Draw,
    Aborted,
}

/// Cell values of a full grid: 1 is black, -1 is white, 0 is empty.
pub open spec fn valid_cells(cells: Seq<i8>) -> bool {
    &&& cells.len() == CELL_COUNT
    &&& forall|i: int| 0 <= i < CELL_COUNT ==> -1 <= #[trigger] cells[i] <= 1
}

/// The empty points next to the group of `p`.
pub open spec fn liberties_of(cells: Seq<i8>, p: usize) -> Set<usize> {
    border_of(points_with(cells, 0), same_component(cells, p))
}

pub open spec fn has_liberty(cells: Seq<i8>, p: usize) -> bool {
    exists|q: usize| #[trigger] liberties_of(cells, p).contains(q)
}

/// The cells with the player's stone put on `point`, before captures.
pub open spec fn stone_down(cells: Seq<i8>, point: usize, player: Player) -> Seq<i8> {
    cells.update(point as int, player.mark())
}

/// The opponent's stones that a stone on `point` captures: those of groups
/// that touch it and have no liberty once it is down.
pub open spec fn captured_by(cells: Seq<i8>, point: usize, player: Player) -> Set<usize> {
    let down = stone_down(cells, point, player);
    Set::new(
        |q: usize|
            exists|n: usize|
                {
                    &&& #[trigger] adjacent(point, n)
                    &&& down[n as int] == player.opponent().mark()
                    &&& !has_liberty(down, n)
                    &&& same_component(down, n).contains(q)
                },
    )
}

/// The cells after the player's stone on `point` and its captures.
pub open spec fn after_placement(cells: Seq<i8>, point: usize, player: Player) -> Seq<i8> {
    let captured = captured_by(cells, point, player);
    Seq::new(
        cells.len(),
        |i: int|
            if captured.contains(i as usize) {
                0i8
            } else {
                stone_down(cells, point, player)[i]
            },
    )
}

/// The position that the player's stone on `point` leads to. There is none if
/// the point is off the grid or occupied, if the new group would have no
/// liberty, or if the position has occurred before.
pub open spec fn placement_of(
    cells: Seq<i8>,
    history: Seq<Seq<i8>>,
    point: usize,
    player: Player,
) -> Option<Seq<i8>> {
    if point >= CELL_COUNT || cells[point as int] != 0 {
        None
    } else {
        let after = after_placement(cells, point, player);
        if !has_liberty(after, point) || history.contains(after) {
            None
        } else {
            Some(after)
        }
    }
}

/// Taking away a part of the area that no step inside the area leaves does
/// not change the components of the rest.
pub proof fn lemma_component_without(area: Set<usize>, gone: Set<usize>, n: usize)
    requires
        n < CELL_COUNT,
        area.contains(n),
        !gone.contains(n),
        gone.subset_of(area),
        closed_within(area, gone),
    ensures
        component(area.difference(gone), n) == component(area, n),
        component(area, n).disjoint(gone),
{
    let rest = area.difference(gone);
    let small = component(rest, n);
    let big = component(area, n);
    lemma_component_basic(rest, n);
    lemma_component_basic(area, n);
    assert(closed_within(rest, big));
    lemma_component_least(rest, n, big);
    assert(closed_within(area, small)) by {
        assert forall|p: usize, q: usize|
            #![trigger small.contains(p), adjacent(p, q)]
            small.contains(p) && adjacent(p, q) && area.contains(q) implies small.contains(q) by {
            if gone.contains(q) {
                lemma_adjacent_symmetric(p, q);
                assert(gone.contains(q) && adjacent(q, p) && area.contains(p));
                assert(gone.contains(p));
            }
            assert(rest.contains(q));
        }
    }
    lemma_component_least(area, n, small);
    assert(small =~= big);
}

/// The stones connected to `start`, in breadth-first order, and whether an
/// empty point is next to one of them. An empty point is alone.
pub fn group(cells: &[i8], start: usize) -> (result: (Vec<usize>, bool))
    requires
        cells@.len() >= CELL_COUNT,
        start < CELL_COUNT,
    ensures
        cells@[start as int] != 0 ==> result.0@ == walk_order(
            points_with(cells@, cells@[start as int]),
            start,
        ),
        cells@[start as int] != 0 ==> result.1 == has_liberty(cells@, start),
        cells@[start as int] == 0 ==> result.0@ == seq![start],
        cells@[start as int] == 0 ==> result.1 == exists|q: usize| #[trigger]
            adjacent(start, q) && cells@[q as int] == 0,
{
    let ghost area = points_with(cells@, cells@[start as int]);
    let stones: Vec<usize> = if cells[start] == 0 {
        let mut alone: Vec<usize> = Vec::new();
        alone.push(start);
        assert(alone@ =~= seq![start]);
        alone
    } else {
        flood(cells, start)
    };
    proof {
        lemma_walk_order(area, start);
    }
    let mut free: bool = false;
    let mut i: usize = 0;
    while i < stones.len() && !free
        invariant
            cells@.len() >= CELL_COUNT,
            i <= stones@.len(),
            forall|j: int| 0 <= j < stones@.len() ==> #[trigger] stones@[j] < CELL_COUNT,
            free ==> exists|j: int, q: usize|
                0 <= j < stones@.len() && #[trigger] adjacent(stones@[j], q) && cells@[q as int]
                    == 0,
            !free ==> forall|j: int, q: usize|
                0 <= j < i && #[trigger] adjacent(stones@[j], q) ==> cells@[q as int] != 0,
        decreases stones@.len() - i,
    {
        let p: usize = stones[i];
        let ns = neighbors(p);
        proof {
            lemma_neighbors(p);
        }
        let mut k: usize = 0;
        while k < ns.len
            invariant
                cells@.len() >= CELL_COUNT,
                i < stones@.len(),
                p == stones@[i as int],
                p < CELL_COUNT,
                ns.len <= 4,
                ns@ == neighbors_of(p),
                k <= ns.len,
                forall|m: int| 0 <= m < ns@.len() ==> adjacent(p, #[trigger] ns@[m]),
                free ==> exists|j: int, q: usize|
                    0 <= j < stones@.len() && #[trigger] adjacent(stones@[j], q) && cells@[q as int]
                        == 0,
                !free ==> forall|m: int| 0 <= m < k ==> cells@[#[trigger] ns@[m] as int] != 0,
            decreases ns.len - k,
        {
            let n: usize = ns.points[k];
            assert(ns@[k as int] == n);
            if cells[n] == 0 {
                assert(adjacent(stones@[i as int], n));
                free = true;
            }
            k = k + 1;
        }
        proof {
            if !free {
                assert forall|j: int, q: usize|
                    0 <= j < i + 1 && #[trigger] adjacent(stones@[j], q) implies cells@[q as int]
                    != 0 by {
                    if j == i {
                        assert(neighbors_of(p).contains(q));
                        assert(ns@[ns@.index_of(q)] == q);
                    }
                }
            }
        }
        i = i + 1;
    }
    proof {
        if cells@[start as int] != 0 {
            let c = component(area, start);
            if free {
                let (j, q) = choose|j: int, q: usize|
                    0 <= j < stones@.len() && #[trigger] adjacent(stones@[j], q) && cells@[q as int]
                        == 0;
                assert(stones@.contains(stones@[j]));
                assert(liberties_of(cells@, start).contains(q));
            } else if has_liberty(cells@, start) {
                let q = choose|q: usize| #[trigger] liberties_of(cells@, start).contains(q);
                let p = choose|p: usize| c.contains(p) && #[trigger] adjacent(p, q);
                assert(walk_order(area, start).contains(p));
                assert(adjacent(stones@[stones@.index_of(p)], q));
            }
        } else {
            if free {
                let (j, q) = choose|j: int, q: usize|
                    0 <= j < stones@.len() && #[trigger] adjacent(stones@[j], q) && cells@[q as int]
                        == 0;
                assert(stones@[j] == start);
                assert(adjacent(start, q));
            } else {
                assert(stones@[0] == start);
                assert forall|q: usize| #[trigger] adjacent(start, q) implies cells@[q as int] != 0 by {
                    assert(adjacent(stones@[0], q));
                }
            }
        }
    }
    (stones, free)
}


/// Whether two positions are equal.
pub fn same_cells(a: &Vec<i8>, b: &Vec<i8>) -> (equal: bool)
    ensures
        equal == (a@ == b@),
{
    let equal: bool = *a == *b;
    proof {
        if equal {
            assert(a@ =~= b@);
        }
    }
    equal
}

/// The positions of a game as sequences.
pub open spec fn positions(history: Seq<Vec<i8>>) -> Seq<Seq<i8>> {
    history.map_values(|position: Vec<i8>| position@)
}

/// Whether a position has occurred.
pub fn occurred(history: &Vec<Vec<i8>>, cells: &Vec<i8>) -> (found: bool)
    ensures
        found == positions(history@).contains(cells@),
{
    let mut i: usize = 0;
    while i < history.len()
        invariant
            i <= history@.len(),
            forall|j: int| 0 <= j < i ==> #[trigger] positions(history@)[j] != cells@,
        decreases history@.len() - i,
    {
        if same_cells(&history[i], cells) {
            assert(positions(history@)[i as int] == cells@);
            return true;
        }
        assert(positions(history@)[i as int] != cells@);
        i = i + 1;
    }
    false
}

pub fn copy_positions(history: &Vec<Vec<i8>>) -> (copy: Vec<Vec<i8>>)
    ensures
        positions(copy@) == positions(history@),
{
    let mut copy: Vec<Vec<i8>> = Vec::with_capacity(history.len());
    let mut i: usize = 0;
    while i < history.len()
        invariant
            i <= history@.len(),
            copy@.len() == i,
            forall|j: int| 0 <= j < i ==> #[trigger] copy@[j]@ == history@[j]@,
        decreases history@.len() - i,
    {
        let position = history[i].clone();
        assert(position@ =~= history@[i as int]@);
        copy.push(position);
        i = i + 1;
    }
    assert(positions(copy@) =~= positions(history@));
    copy
}

/// What a board holds.
#[verifier::ext_equal]
pub struct BoardView {
    pub cells: Seq<i8>,
    pub to_move: Player,
    pub moves: nat,
    pub passes: nat,
    pub komi_milli: int,
    /// The cells before the last move.
    pub previous: Seq<i8>,
    /// Every position that a stone led to, oldest first.
    pub history: Seq<Seq<i8>>,
}

impl BoardView {
    pub open spec fn wf(self) -> bool {
        &&& valid_cells(self.cells)
        &&& valid_cells(self.previous)
        &&& self.history.len() > 0
        &&& forall|i: int|
            0 <= i < self.history.len() ==> valid_cells(#[trigger] self.history[i])
    }

    /// The game is over after two passes in a row, or too many moves.
    pub open spec fn finished(self) -> bool {
        self.passes >= 2 || self.moves >= MAX_MOVES
    }

    /// The position that the player's stone leads to, if it may be placed.
    pub open spec fn placed(self, mv: Move, player: Player) -> Option<Seq<i8>> {
        placement_of(self.cells, self.history, mv.0, player)
    }

    /// Whether the side to move may take the action.
    pub open spec fn legal(self, mv: Move) -> bool {
        !self.finished() && (mv == Move::pass_move() || self.placed(mv, self.to_move) is Some)
    }

    /// The board after a legal action of the side to move.
    pub open spec fn played(self, mv: Move) -> BoardView {
        if mv == Move::pass_move() {
            BoardView {
                passes: self.passes + 1,
                moves: self.moves + 1,
                to_move: self.to_move.opponent(),
                previous: self.cells,
                ..self
            }
        } else {
            let after = self.placed(mv, self.to_move)->0;
            BoardView {
                cells: after,
                history: self.history.push(after),
                passes: 0,
                moves: self.moves + 1,
                to_move: self.to_move.opponent(),
                previous: self.cells,
                ..self
            }
        }
    }

    /// The board with the given side to move and no pass standing.
    pub open spec fn turned(self, player: Player) -> BoardView {
        BoardView { to_move: player, passes: 0, ..self }
    }

    /// The board from which a local fight is read: the move limit starts anew.
    pub open spec fn reading(self, player: Player) -> BoardView {
        BoardView { to_move: player, passes: 0, moves: 0, ..self }
    }
}

/// A game position with what the rules need of its past.
#[derive(Debug, PartialEq, Eq)]
pub struct Board {
    cells: Vec<i8>,
    to_move: Player,
    moves: usize,
    passes: usize,
    komi_milli: i32,
    previous: Vec<i8>,
    history: Vec<Vec<i8>>,
}

impl View for Board {
    type V = BoardView;

    closed spec fn view(&self) -> BoardView {
        BoardView {
            cells: self.cells@,
            to_move: self.to_move,
            moves: self.moves as nat,
            passes: self.passes as nat,
            komi_milli: self.komi_milli as int,
            previous: self.previous@,
            history: positions(self.history@),
        }
    }
}

/// The numbers of a board are those of its fields.
pub proof fn lemma_numbers_fit(board: Board)
    ensures
        board@.moves <= usize::MAX,
        board@.passes <= usize::MAX,
        i32::MIN <= board@.komi_milli <= i32::MAX,
{
}

impl Clone for Board {
    fn clone(&self) -> (result: Board)
        ensures
            result@ == self@,
    {
        let cells = self.cells.clone();
        let previous = self.previous.clone();
        assert(cells@ =~= self.cells@);
        assert(previous@ =~= self.previous@);
        Board {
            cells,
            to_move: self.to_move,
            moves: self.moves,
            passes: self.passes,
            komi_milli: self.komi_milli,
            previous,
            history: copy_positions(&self.history),
        }
    }
}

/// The stones of the groups next to `point` among its first `k` neighbors
/// that are captured when the stone is down.
spec fn captured_so_far(down: Seq<i8>, point: usize, enemy: i8, k: int) -> Set<usize> {
    Set::new(
        |q: usize|
            exists|i: int|
                {
                    &&& 0 <= i < k
                    &&& down[(#[trigger] neighbors_of(point)[i]) as int] == enemy
                    &&& !has_liberty(down, neighbors_of(point)[i])
                    &&& same_component(down, neighbors_of(point)[i]).contains(q)
                },
    )
}

/// After some captures, a group that still stands is what it was.
proof fn lemma_group_after_captures(
    down: Seq<i8>,
    cells: Seq<i8>,
    point: usize,
    enemy: i8,
    k: int,
    n: usize,
)
    requires
        point < CELL_COUNT,
        0 <= k <= neighbors_of(point).len(),
        enemy != 0,
        down.len() == CELL_COUNT,
        cells.len() == CELL_COUNT,
        forall|i: int|
            0 <= i < CELL_COUNT ==> #[trigger] cells[i] == (if captured_so_far(
                down,
                point,
                enemy,
                k,
            ).contains(i as usize) {
                0i8
            } else {
                down[i]
            }),
        n < CELL_COUNT,
        cells[n as int] == enemy,
    ensures
        same_component(cells, n) == same_component(down, n),
        has_liberty(cells, n) == has_liberty(down, n),
        !captured_so_far(down, point, enemy, k).contains(n),
{
    let gone = captured_so_far(down, point, enemy, k);
    let area = points_with(down, enemy);
    lemma_neighbors(point);
    assert forall|q: usize| #[trigger] gone.contains(q) implies area.contains(q) by {
        let i = choose|i: int|
            {
                &&& 0 <= i < k
                &&& down[(#[trigger] neighbors_of(point)[i]) as int] == enemy
                &&& !has_liberty(down, neighbors_of(point)[i])
                &&& same_component(down, neighbors_of(point)[i]).contains(q)
            };
        assert(adjacent(point, neighbors_of(point)[i]));
        lemma_component_basic(area, neighbors_of(point)[i]);
    }
    assert(closed_within(area, gone)) by {
        assert forall|p: usize, q: usize|
            #![trigger gone.contains(p), adjacent(p, q)]
            gone.contains(p) && adjacent(p, q) && area.contains(q) implies gone.contains(q) by {
            let i = choose|i: int|
                {
                    &&& 0 <= i < k
                    &&& down[(#[trigger] neighbors_of(point)[i]) as int] == enemy
                    &&& !has_liberty(down, neighbors_of(point)[i])
                    &&& same_component(down, neighbors_of(point)[i]).contains(p)
                };
            assert(adjacent(point, neighbors_of(point)[i]));
            lemma_component_basic(area, neighbors_of(point)[i]);
            assert(same_component(down, neighbors_of(point)[i]).contains(q));
        }
    }
    assert(!gone.contains(n));
    assert(down[n as int] == enemy);
    lemma_component_without(area, gone, n);
    assert(points_with(cells, enemy) =~= area.difference(gone));
    let c = same_component(down, n);
    assert(same_component(cells, n) == c);
    assert(liberties_of(cells, n) =~= liberties_of(down, n)) by {
        assert forall|q: usize|
            liberties_of(cells, n).contains(q) <==> liberties_of(down, n).contains(q) by {
            lemma_component_basic(area, n);
            if liberties_of(cells, n).contains(q) {
                let p = choose|p: usize| c.contains(p) && #[trigger] adjacent(p, q);
                if gone.contains(q) {
                    assert(area.contains(q));
                    assert(c.contains(q));
                }
                assert(points_with(down, 0).contains(q));
            }
            if liberties_of(down, n).contains(q) {
                let p = choose|p: usize| c.contains(p) && #[trigger] adjacent(p, q);
                assert(!gone.contains(q));
                assert(points_with(cells, 0).contains(q));
            }
        }
    }
}

/// The cells that the stones make when they are set down in order.
pub open spec fn laid_out(stones: Seq<(Move, Player)>) -> Seq<i8>
    decreases stones.len(),
{
    if stones.len() == 0 {
        Seq::new(CELL_COUNT as nat, |i: int| 0i8)
    } else {
        laid_out(stones.drop_last()).update(stones.last().0.0 as int, stones.last().1.mark())
    }
}

/// Stones on distinct points of the grid.
pub open spec fn distinct_points(stones: Seq<(Move, Player)>) -> bool {
    &&& forall|i: int| 0 <= i < stones.len() ==> (#[trigger] stones[i]).0.0 < CELL_COUNT
    &&& forall|i: int, j: int|
        0 <= i < j < stones.len() ==> (#[trigger] stones[i]).0.0 != (#[trigger] stones[j]).0.0
}

/// Every stone's group has a liberty.
pub open spec fn all_breathe(cells: Seq<i8>) -> bool {
    forall|p: usize| p < CELL_COUNT && cells[p as int] != 0 ==> #[trigger] has_liberty(cells, p)
}

/// A board at the start of a game from the given position.
pub open spec fn fresh_board(cells: Seq<i8>, to_move: Player) -> BoardView {
    BoardView {
        cells,
        to_move,
        moves: 0,
        passes: 0,
        komi_milli: 7500,
        previous: cells,
        history: seq![cells],
    }
}

/// The cells of an empty board.
pub open spec fn no_stones() -> Seq<i8> {
    Seq::new(CELL_COUNT as nat, |i: int| 0i8)
}

proof fn lemma_laid_out(stones: Seq<(Move, Player)>)
    requires
        forall|i: int| 0 <= i < stones.len() ==> (#[trigger] stones[i]).0.0 < CELL_COUNT,
    ensures
        valid_cells(laid_out(stones)),
        forall|p: int|
            0 <= p < CELL_COUNT ==> (#[trigger] laid_out(stones)[p] != 0 <==> exists|i: int|
                0 <= i < stones.len() && (#[trigger] stones[i]).0.0 == p),
    decreases stones.len(),
{
    if stones.len() > 0 {
        let init = stones.drop_last();
        lemma_laid_out(init);
        let cells = laid_out(stones);
        assert forall|p: int| 0 <= p < CELL_COUNT implies (#[trigger] cells[p] != 0 <==> exists|
            i: int,
        |
            0 <= i < stones.len() && (#[trigger] stones[i]).0.0 == p) by {
            if p == stones.last().0.0 {
                assert(stones[stones.len() - 1].0.0 == p);
            } else {
                assert(cells[p] == laid_out(init)[p]);
                if cells[p] != 0 {
                    let i = choose|i: int| 0 <= i < init.len() && (#[trigger] init[i]).0.0 == p;
                    assert(stones[i].0.0 == p);
                }
                if exists|i: int| 0 <= i < stones.len() && (#[trigger] stones[i]).0.0 == p {
                    let i = choose|i: int| 0 <= i < stones.len() && (#[trigger] stones[i]).0.0 == p;
                    assert(init[i].0.0 == p);
                }
            }
        }
    }
}

fn no_stones_vec() -> (cells: Vec<i8>)
    ensures
        cells@ == no_stones(),
{
    let cells: Vec<i8> = vec![0; 361];
    assert(cells@ =~= no_stones());
    cells
}

/// Whether the cells are those of a full grid.
pub fn check_cells(cells: &Vec<i8>) -> (valid: bool)
    ensures
        valid == valid_cells(cells@),
{
    if cells.len() != CELL_COUNT {
        return false;
    }
    let mut i: usize = 0;
    while i < cells.len()
        invariant
            cells@.len() == CELL_COUNT,
            i <= cells@.len(),
            forall|j: int| 0 <= j < i ==> -1 <= #[trigger] cells@[j] <= 1,
        decreases cells@.len() - i,
    {
        if cells[i] < -1 || cells[i] > 1 {
            return false;
        }
        i = i + 1;
    }
    true
}

/// Whether there is a position, and each one is a full grid.
pub fn check_history(history: &Vec<Vec<i8>>) -> (valid: bool)
    ensures
        valid == (history@.len() > 0 && forall|i: int|
            0 <= i < history@.len() ==> valid_cells(#[trigger] positions(history@)[i])),
{
    if history.len() == 0 {
        return false;
    }
    let mut i: usize = 0;
    while i < history.len()
        invariant
            i <= history@.len(),
            forall|j: int| 0 <= j < i ==> valid_cells(#[trigger] positions(history@)[j]),
        decreases history@.len() - i,
    {
        if !check_cells(&history[i]) {
            assert(!valid_cells(positions(history@)[i as int]));
            return false;
        }
        assert(valid_cells(positions(history@)[i as int]));
        i = i + 1;
    }
    true
}

impl Default for Board {
    fn default() -> (result: Board)
        ensures
            result@ == fresh_board(no_stones(), Player::Black),
            result@.wf(),
    {
        Board::new()
    }
}

impl Board {
    /// An empty board, Black to move.
    pub fn new() -> (result: Board)
        ensures
            result@ == fresh_board(no_stones(), Player::Black),
            result@.wf(),
    {
        let mut history: Vec<Vec<i8>> = Vec::new();
        history.push(no_stones_vec());
        assert(positions(history@) =~= seq![no_stones()]);
        Board {
            cells: no_stones_vec(),
            to_move: Player::Black,
            moves: 0,
            passes: 0,
            komi_milli: 7500,
            previous: no_stones_vec(),
            history,
        }
    }

    /// A board from the parts that one is stored as, if they make one.
    pub fn from_parts(
        cells: Vec<i8>,
        to_move: Player,
        moves: usize,
        passes: usize,
        komi_milli: i32,
        previous: Vec<i8>,
        history: Vec<Vec<i8>>,
    ) -> (result: Option<Board>)
        ensures
            ({
                let parts = BoardView {
                    cells: cells@,
                    to_move,
                    moves: moves as nat,
                    passes: passes as nat,
                    komi_milli: komi_milli as int,
                    previous: previous@,
                    history: positions(history@),
                };
                if parts.wf() {
                    result is Some && result->0@ == parts
                } else {
                    result is None
                }
            }),
    {
        assert(positions(history@).len() == history@.len());
        if check_cells(&cells) && check_cells(&previous) && check_history(&history) {
            Some(Board { cells, to_move, moves, passes, komi_milli, previous, history })
        } else {
            None
        }
    }

    pub fn cells(&self) -> (result: &[i8])
        ensures
            result@ == self@.cells,
    {
        self.cells.as_slice()
    }

    pub fn to_move(&self) -> (result: Player)
        ensures
            result == self@.to_move,
    {
        self.to_move
    }

    pub fn move_count(&self) -> (result: usize)
        ensures
            result == self@.moves,
    {
        self.moves
    }

    pub fn consecutive_passes(&self) -> (result: usize)
        ensures
            result == self@.passes,
    {
        self.passes
    }

    /// The cells before the last move.
    pub fn previous_cells(&self) -> (result: &[i8])
        ensures
            result@ == self@.previous,
    {
        self.previous.as_slice()
    }

    /// Every position so far, oldest first.
    pub fn history(&self) -> (result: &Vec<Vec<i8>>)
        ensures
            positions(result@) == self@.history,
    {
        &self.history
    }

    /// White's compensation in thousandths of a point.
    pub fn komi(&self) -> (result: i32)
        ensures
            result == self@.komi_milli,
    {
        self.komi_milli
    }

    /// Sets White's compensation, in thousandths of a point. More than a
    /// thousand points either way is refused.
    pub fn set_komi(&mut self, komi_milli: i32) -> (accepted: bool)
        ensures
            accepted == (-1_000_000 <= komi_milli <= 1_000_000),
            final(self)@ == (if accepted {
                BoardView { komi_milli: komi_milli as int, ..old(self)@ }
            } else {
                old(self)@
            }),
    {
        if komi_milli < -1_000_000 || komi_milli > 1_000_000 {
            return false;
        }
        self.komi_milli = komi_milli;
        true
    }

    /// A board set up with the given stones and side to move. The points must
    /// be distinct and every group must have a liberty.
    pub fn from_position(stones: &[(Move, Player)], to_move: Player) -> (result: Option<Board>)
        ensures
            if distinct_points(stones@) && all_breathe(laid_out(stones@)) {
                &&& result is Some
                &&& result->0@ == fresh_board(laid_out(stones@), to_move)
                &&& result->0@.wf()
            } else {
                result is None
            },
    {
        let mut cells: Vec<i8> = no_stones_vec();
        let mut i: usize = 0;
        assert(stones@.take(0) =~= Seq::<(Move, Player)>::empty());
        while i < stones.len()
            invariant
                i <= stones@.len(),
                cells@.len() == CELL_COUNT,
                distinct_points(stones@.take(i as int)),
                cells@ == laid_out(stones@.take(i as int)),
            decreases stones@.len() - i,
        {
            let (mv, player) = stones[i];
            let ghost before = stones@.take(i as int);
            let ghost more = stones@.take(i + 1);
            proof {
                assert(more.drop_last() =~= before);
                assert(more.last() == stones@[i as int]);
                lemma_laid_out(before);
            }
            if mv.0 >= CELL_COUNT {
                assert(stones@[i as int].0.0 >= CELL_COUNT);
                return None;
            }
            if cells[mv.0] != 0 {
                proof {
                    let j = choose|j: int| 0 <= j < before.len() && (#[trigger] before[j]).0.0 == mv.0;
                    assert(stones@[j].0.0 == stones@[i as int].0.0);
                }
                return None;
            }
            cells[mv.0] = player.stone();
            proof {
                assert forall|a: int, b: int| 0 <= a < b < more.len() implies (#[trigger] more[a]).0.0 != (
                #[trigger] more[b]).0.0 by {
                    assert(more[a] == before[a]);
                    if b < i {
                        assert(more[b] == before[b]);
                    }
                }
                assert forall|a: int| 0 <= a < more.len() implies (#[trigger] more[a]).0.0
                    < CELL_COUNT by {
                    if a < i {
                        assert(more[a] == before[a]);
                    }
                }
            }
            i = i + 1;
        }
        assert(stones@.take(stones@.len() as int) =~= stones@);
        proof {
            lemma_laid_out(stones@);
        }
        let mut p: usize = 0;
        while p < CELL_COUNT
            invariant
                p <= CELL_COUNT,
                cells@.len() == CELL_COUNT,
                cells@ == laid_out(stones@),
                forall|q: usize| q < p && cells@[q as int] != 0 ==> #[trigger] has_liberty(cells@, q),
            decreases CELL_COUNT - p,
        {
            if cells[p] != 0 && !group(cells.as_slice(), p).1 {
                assert(!has_liberty(cells@, p));
                return None;
            }
            p = p + 1;
        }
        let previous: Vec<i8> = cells.clone();
        let position: Vec<i8> = cells.clone();
        assert(previous@ =~= cells@);
        assert(position@ =~= cells@);
        let mut history: Vec<Vec<i8>> = Vec::new();
        history.push(position);
        assert(positions(history@) =~= seq![cells@]);
        Some(Board { cells, to_move, moves: 0, passes: 0, komi_milli: 7500, previous, history })
    }

    pub fn is_finished(&self) -> (result: bool)
        ensures
            result == self@.finished(),
    {
        self.passes >= 2 || self.moves >= MAX_MOVES
    }

    /// The cells after the side to move puts a stone on the point.
    pub fn placed(&self, mv: Move) -> (result: Option<Vec<i8>>)
        requires
            self@.wf(),
        ensures
            match self@.placed(mv, self@.to_move) {
                Some(after) => result is Some && result->0@ == after,
                None => result is None,
            },
    {
        self.placed_for(mv, self.to_move)
    }

    pub fn is_legal(&self, mv: Move) -> (result: bool)
        requires
            self@.wf(),
        ensures
            result == self@.legal(mv),
    {
        !self.is_finished() && (mv == Move::pass() || self.placed(mv).is_some())
    }

    /// Takes the action if it is legal; otherwise leaves the board as it is.
    pub fn play(&mut self, mv: Move) -> (legal: bool)
        requires
            old(self)@.wf(),
        ensures
            legal == old(self)@.legal(mv),
            final(self)@ == (if legal {
                old(self)@.played(mv)
            } else {
                old(self)@
            }),
            final(self)@.wf(),
    {
        if self.is_finished() {
            return false;
        }
        let mut previous: Vec<i8> = self.cells.clone();
        assert(previous@ =~= self.cells@);
        if mv == Move::pass() {
            self.passes = self.passes + 1;
        } else {
            match self.placed(mv) {
                None => {
                    return false;
                },
                Some(cells) => {
                    let position: Vec<i8> = cells.clone();
                    assert(position@ =~= cells@);
                    let ghost before = self.history@;
                    self.cells = cells;
                    self.history.push(position);
                    self.passes = 0;
                    proof {
                        lemma_placement_valid(old(self)@.cells, old(self)@.history, mv.0, old(self)@.to_move);
                        assert(positions(self.history@) =~= positions(before).push(position@));
                    }
                },
            }
        }
        self.previous = previous;
        self.moves = self.moves + 1;
        self.to_move = self.to_move.other();
        true
    }

    /// A copy with the given side to move and no pass standing. A controller
    /// may ask either side to move, and may go on after passes.
    pub fn for_turn(&self, player: Player) -> (result: Board)
        ensures
            result@ == self@.turned(player),
    {
        let mut board: Board = self.clone();
        board.to_move = player;
        board.passes = 0;
        board
    }

    /// A copy from which a local fight can be read.
    pub fn for_reading(&self, player: Player) -> (result: Board)
        ensures
            result@ == self@.reading(player),
    {
        let mut board: Board = self.for_turn(player);
        board.moves = 0;
        board
    }

    /// The cells after the player's stone on the point, if it may be placed
    /// there, whoever's turn it is.
    pub fn placed_for(&self, mv: Move, player: Player) -> (result: Option<Vec<i8>>)
        requires
            self@.wf(),
        ensures
            match self@.placed(mv, player) {
                Some(after) => result is Some && result->0@ == after,
                None => result is None,
            },
    {
        let point: usize = mv.0;
        if point >= CELL_COUNT || self.cells[point] != 0 {
            return None;
        }
        let mut cells: Vec<i8> = self.cells.clone();
        assert(cells@ =~= self.cells@);
        cells[point] = player.stone();
        let ghost down = stone_down(self@.cells, point, player);
        let enemy: i8 = player.other().stone();
        let ns = neighbors(point);
        proof {
            lemma_neighbors(point);
        }
        let mut k: usize = 0;
        assert(cells@ =~= down);
        while k < ns.len
            invariant
                point < CELL_COUNT,
                ns.len <= 4,
                ns@ == neighbors_of(point),
                k <= ns.len,
                enemy == player.opponent().mark(),
                self@.wf(),
                down == stone_down(self@.cells, point, player),
                cells@.len() == CELL_COUNT,
                forall|i: int|
                    0 <= i < CELL_COUNT ==> #[trigger] cells@[i] == (if captured_so_far(
                        down,
                        point,
                        enemy,
                        k as int,
                    ).contains(i as usize) {
                        0i8
                    } else {
                        down[i]
                    }),
            decreases ns.len - k,
        {
            let n: usize = ns.points[k];
            proof {
                lemma_neighbors(point);
                assert(ns@[k as int] == n);
                assert(adjacent(point, neighbors_of(point)[k as int]));
            }
            let ghost before = cells@;
            let ghost gone = captured_so_far(down, point, enemy, k as int);
            let ghost next = captured_so_far(down, point, enemy, k + 1);
            if cells[n] == enemy {
                let (stones, free) = group(cells.as_slice(), n);
                proof {
                    lemma_group_after_captures(down, cells@, point, enemy, k as int, n);
                    lemma_walk_order(points_with(cells@, enemy), n);
                }
                if !free {
                    let mut j: usize = 0;
                    while j < stones.len()
                        invariant
                            j <= stones@.len(),
                            cells@.len() == CELL_COUNT,
                            forall|i: int|
                                0 <= i < stones@.len() ==> #[trigger] stones@[i] < CELL_COUNT,
                            forall|i: int|
                                0 <= i < CELL_COUNT ==> #[trigger] cells@[i] == (if exists|m: int|
                                    0 <= m < j && #[trigger] stones@[m] == i {
                                    0i8
                                } else {
                                    before[i]
                                }),
                        decreases stones@.len() - j,
                    {
                        let stone: usize = stones[j];
                        let ghost held = cells@;
                        cells[stone] = 0;
                        proof {
                            assert forall|i: int| 0 <= i < CELL_COUNT implies #[trigger] cells@[i]
                                == (if exists|m: int|
                                0 <= m < j + 1 && #[trigger] stones@[m] == i {
                                0i8
                            } else {
                                before[i]
                            }) by {
                                if i == stone {
                                    assert(stones@[j as int] == i);
                                } else {
                                    assert(cells@[i] == held[i]);
                                }
                            }
                        }
                        j = j + 1;
                    }
                    proof {
                        let c = same_component(down, n);
                        assert forall|i: int| 0 <= i < CELL_COUNT implies #[trigger] cells@[i] == (
                        if next.contains(i as usize) {
                            0i8
                        } else {
                            down[i]
                        }) by {
                            let x = i as usize;
                            assert(stones@.contains(x) <==> c.contains(x));
                            if c.contains(x) {
                                let m = stones@.index_of(x);
                                assert(stones@[m] == i);
                                assert(neighbors_of(point)[k as int] == n);
                                assert(next.contains(x));
                            } else {
                                if exists|m: int| 0 <= m < stones@.len() && #[trigger] stones@[m] == i {
                                    let m = choose|m: int|
                                        0 <= m < stones@.len() && #[trigger] stones@[m] == i;
                                    assert(stones@[m] == x);
                                    assert(stones@.contains(x));
                                }
                                assert(cells@[i] == before[i]);
                                lemma_captured_step(down, point, enemy, k as int, x);
                            }
                        }
                    }
                } else {
                    proof {
                        assert forall|i: int| 0 <= i < CELL_COUNT implies #[trigger] cells@[i] == (
                        if next.contains(i as usize) {
                            0i8
                        } else {
                            down[i]
                        }) by {
                            lemma_captured_step(down, point, enemy, k as int, i as usize);
                        }
                    }
                }
            } else {
                proof {
                    if down[n as int] == enemy {
                        // The group has been taken off already.
                        assert(gone.contains(n));
                        lemma_already_captured(down, point, enemy, k as int, n);
                    }
                    assert forall|i: int| 0 <= i < CELL_COUNT implies #[trigger] cells@[i] == (
                    if next.contains(i as usize) {
                        0i8
                    } else {
                        down[i]
                    }) by {
                        lemma_captured_step(down, point, enemy, k as int, i as usize);
                    }
                }
            }
            k = k + 1;
        }
        proof {
            let captured = captured_by(self@.cells, point, player);
            assert forall|q: usize| captured.contains(q) <==> captured_so_far(
                down,
                point,
                enemy,
                ns.len as int,
            ).contains(q) by {
                if captured.contains(q) {
                    let n = choose|n: usize|
                        {
                            &&& #[trigger] adjacent(point, n)
                            &&& down[n as int] == player.opponent().mark()
                            &&& !has_liberty(down, n)
                            &&& same_component(down, n).contains(q)
                        };
                    assert(neighbors_of(point).contains(n));
                    assert(neighbors_of(point)[neighbors_of(point).index_of(n)] == n);
                }
                if captured_so_far(down, point, enemy, ns.len as int).contains(q) {
                    let i = choose|i: int|
                        {
                            &&& 0 <= i < ns.len
                            &&& down[(#[trigger] neighbors_of(point)[i]) as int] == enemy
                            &&& !has_liberty(down, neighbors_of(point)[i])
                            &&& same_component(down, neighbors_of(point)[i]).contains(q)
                        };
                    assert(adjacent(point, neighbors_of(point)[i]));
                }
            }
            assert(cells@ =~= after_placement(self@.cells, point, player));
            assert(cells@[point as int] == player.mark()) by {
                lemma_captured_color(self@.cells, point, player);
            }
        }
        if !group(cells.as_slice(), point).1 || occurred(&self.history, &cells) {
            None
        } else {
            Some(cells)
        }
    }
}

/// What one more neighbor adds to the captures.
proof fn lemma_captured_step(down: Seq<i8>, point: usize, enemy: i8, k: int, q: usize)
    requires
        point < CELL_COUNT,
        0 <= k < neighbors_of(point).len(),
    ensures
        captured_so_far(down, point, enemy, k + 1).contains(q) <==> captured_so_far(
            down,
            point,
            enemy,
            k,
        ).contains(q) || (down[neighbors_of(point)[k] as int] == enemy && !has_liberty(
            down,
            neighbors_of(point)[k],
        ) && same_component(down, neighbors_of(point)[k]).contains(q)),
{
    if captured_so_far(down, point, enemy, k + 1).contains(q) {
        let i = choose|i: int|
            {
                &&& 0 <= i < k + 1
                &&& down[(#[trigger] neighbors_of(point)[i]) as int] == enemy
                &&& !has_liberty(down, neighbors_of(point)[i])
                &&& same_component(down, neighbors_of(point)[i]).contains(q)
            };
        if i < k {
            assert(captured_so_far(down, point, enemy, k).contains(q));
        }
    }
}

/// A neighbor whose group is off the board adds nothing to the captures.
proof fn lemma_already_captured(down: Seq<i8>, point: usize, enemy: i8, k: int, n: usize)
    requires
        point < CELL_COUNT,
        0 <= k <= neighbors_of(point).len(),
        captured_so_far(down, point, enemy, k).contains(n),
        n < CELL_COUNT,
        down[n as int] == enemy,
    ensures
        same_component(down, n).subset_of(captured_so_far(down, point, enemy, k)),
{
    let area = points_with(down, enemy);
    lemma_neighbors(point);
    let i = choose|i: int|
        {
            &&& 0 <= i < k
            &&& down[(#[trigger] neighbors_of(point)[i]) as int] == enemy
            &&& !has_liberty(down, neighbors_of(point)[i])
            &&& same_component(down, neighbors_of(point)[i]).contains(n)
        };
    let m = neighbors_of(point)[i];
    assert(adjacent(point, m));
    lemma_component_of_member(area, m, n);
    assert forall|q: usize| same_component(down, n).contains(q) implies captured_so_far(
        down,
        point,
        enemy,
        k,
    ).contains(q) by {
        assert(same_component(down, neighbors_of(point)[i]).contains(q));
    }
}

/// Only stones of the opponent are captured.
pub proof fn lemma_captured_color(cells: Seq<i8>, point: usize, player: Player)
    requires
        point < CELL_COUNT,
        cells.len() >= CELL_COUNT,
        cells[point as int] == 0,
    ensures
        forall|q: usize| #[trigger]
            captured_by(cells, point, player).contains(q) ==> q < CELL_COUNT && cells[q as int]
                == player.opponent().mark() && q != point,
{
    let down = stone_down(cells, point, player);
    assert forall|q: usize| #[trigger] captured_by(cells, point, player).contains(q) implies q
        < CELL_COUNT && cells[q as int] == player.opponent().mark() && q != point by {
        let n = choose|n: usize|
            {
                &&& #[trigger] adjacent(point, n)
                &&& down[n as int] == player.opponent().mark()
                &&& !has_liberty(down, n)
                &&& same_component(down, n).contains(q)
            };
        lemma_component_basic(points_with(down, player.opponent().mark()), n);
    }
}


/// A placement leads to cells of a full grid.
pub proof fn lemma_placement_valid(
    cells: Seq<i8>,
    history: Seq<Seq<i8>>,
    point: usize,
    player: Player,
)
    requires
        valid_cells(cells),
        placement_of(cells, history, point, player) is Some,
    ensures
        valid_cells(placement_of(cells, history, point, player)->0),
{
    let after = after_placement(cells, point, player);
    assert(after.len() == CELL_COUNT);
    assert forall|i: int| 0 <= i < CELL_COUNT implies -1 <= #[trigger] after[i] <= 1 by {
        assert(-1 <= cells[i] <= 1);
    }
}

/// A legal action leads to a board again.
pub proof fn law_play_keeps_the_board_valid(board: BoardView, mv: Move)
    requires
        board.wf(),
        board.legal(mv),
    ensures
        board.played(mv).wf(),
{
    if mv != Move::pass_move() {
        lemma_placement_valid(board.cells, board.history, mv.0, board.to_move);
    }
}

/// No position occurs twice in a game: a legal stone leads to a new one.
pub proof fn law_no_position_repeats(board: BoardView, mv: Move)
    requires
        board.wf(),
        board.legal(mv),
        board.history.no_duplicates(),
    ensures
        board.played(mv).history.no_duplicates(),
        mv != Move::pass_move() ==> !board.history.contains(board.played(mv).cells),
{
    let after = board.played(mv).history;
    assert forall|i: int, j: int|
        0 <= i < after.len() && 0 <= j < after.len() && i != j implies after[i] != after[j] by {
        if mv != Move::pass_move() {
            let n = board.history.len();
            if i < n {
                assert(board.history.contains(board.history[i]));
            }
            if j < n {
                assert(board.history.contains(board.history[j]));
            }
        }
    }
}

/// The latest position in the history is the one on the board, before and
/// after every action.
pub proof fn law_history_ends_with_position(board: BoardView, mv: Move)
    requires
        board.wf(),
        board.legal(mv),
        board.history.last() == board.cells,
    ensures
        board.played(mv).history.last() == board.played(mv).cells,
{
}

/// Two passes in a row end the game, whatever came before.
pub proof fn law_two_passes_end_the_game(board: BoardView)
    requires
        board.legal(Move::pass_move()),
    ensures
        board.played(Move::pass_move()).finished() || board.played(Move::pass_move()).played(
            Move::pass_move(),
        ).finished(),
        forall|mv: Move| !board.played(Move::pass_move()).played(Move::pass_move()).legal(mv),
{
}

/// A stone breaks off a run of passes, and the turn goes to the opponent.
pub proof fn law_a_stone_resets_passes(board: BoardView, mv: Move)
    requires
        board.legal(mv),
    ensures
        board.played(mv).passes == (if mv == Move::pass_move() {
            board.passes + 1
        } else {
            0
        }),
        board.played(mv).moves == board.moves + 1,
        board.played(mv).to_move == board.to_move.opponent(),
        board.played(mv).previous == board.cells,
        board.played(mv).komi_milli == board.komi_milli,
{
}

/// A pass is always legal until the game is over, and the ko rule never
/// forbids it.
pub proof fn law_pass_is_legal_until_the_end(board: BoardView)
    ensures
        board.legal(Move::pass_move()) == !board.finished(),
{
}

/// A group after a placement that holds neither the new stone nor captured
/// ones has a liberty if it had one.
proof fn lemma_other_group_breathes(cells: Seq<i8>, point: usize, player: Player, p: usize)
    requires
        valid_cells(cells),
        point < CELL_COUNT,
        cells[point as int] == 0,
        all_breathe(cells),
        p < CELL_COUNT,
        after_placement(cells, point, player)[p as int] != 0,
        !same_component(after_placement(cells, point, player), p).contains(point),
    ensures
        has_liberty(after_placement(cells, point, player), p),
{
    let after = after_placement(cells, point, player);
    let down = stone_down(cells, point, player);
    let captured = captured_by(cells, point, player);
    lemma_captured_color(cells, point, player);
    let value = after[p as int];
    let area = points_with(after, value);
    lemma_component_basic(area, p);
    assert(p != point);
    assert(cells[p as int] == value && !captured.contains(p));
    assert(-1 <= cells[p as int] <= 1);
    let c = component(area, p);
    if value == player.mark() {
        // The group stood as it is, away from the point.
        let old_area = points_with(cells, value);
        assert(area =~= old_area.insert(point));
        assert(closed_within(old_area, c));
        lemma_component_least(old_area, p, c);
        let old_c = component(old_area, p);
        lemma_component_basic(old_area, p);
        assert(closed_within(area, old_c)) by {
            assert forall|x: usize, y: usize|
                #![trigger old_c.contains(x), adjacent(x, y)]
                old_c.contains(x) && adjacent(x, y) && area.contains(y) implies old_c.contains(y) by {
                if y == point {
                    assert(c.contains(x));
                    assert(c.contains(point));
                }
            }
        }
        lemma_component_least(area, p, old_c);
        assert(old_c =~= c);
        assert(has_liberty(cells, p));
        let q = choose|q: usize| #[trigger] liberties_of(cells, p).contains(q);
        let x = choose|x: usize| old_c.contains(x) && #[trigger] adjacent(x, q);
        if q == point {
            assert(area.contains(point));
            assert(c.contains(point));
        }
        assert(after[q as int] == 0);
        assert(liberties_of(after, p).contains(q));
    } else {
        let enemy = player.opponent().mark();
        let old_area = points_with(down, enemy);
        assert(value == enemy);
        assert(closed_within(old_area, captured)) by {
            assert forall|x: usize, y: usize|
                #![trigger captured.contains(x), adjacent(x, y)]
                captured.contains(x) && adjacent(x, y) && old_area.contains(y) implies captured.contains(y) by {
                let n = choose|n: usize|
                    {
                        &&& #[trigger] adjacent(point, n)
                        &&& down[n as int] == enemy
                        &&& !has_liberty(down, n)
                        &&& same_component(down, n).contains(x)
                    };
                lemma_component_basic(old_area, n);
                assert(same_component(down, n).contains(y));
            }
        }
        assert(area =~= old_area.difference(captured));
        assert(captured.subset_of(old_area));
        lemma_component_without(old_area, captured, p);
        assert(same_component(down, p) == c);
        assert(points_with(cells, enemy) =~= old_area);
        assert(same_component(cells, p) == c);
        assert(has_liberty(down, p)) by {
            assert(has_liberty(cells, p));
            let q = choose|q: usize| #[trigger] liberties_of(cells, p).contains(q);
            let x = choose|x: usize| c.contains(x) && #[trigger] adjacent(x, q);
            if q == point {
                lemma_adjacent_symmetric(x, point);
                assert(adjacent(point, x));
                assert(old_area.contains(x));
                lemma_component_of_member(old_area, p, x);
                if !has_liberty(down, p) {
                    assert(liberties_of(down, x) == liberties_of(down, p));
                    assert(!has_liberty(down, x));
                    assert(same_component(down, x).contains(p));
                    assert(captured.contains(p));
                }
            } else {
                assert(down[q as int] == 0);
                assert(liberties_of(down, p).contains(q));
            }
        }
        let q = choose|q: usize| #[trigger] liberties_of(down, p).contains(q);
        assert(after[q as int] == 0);
        assert(liberties_of(after, p).contains(q));
    }
}

/// After every action each group on the board has a liberty, if each had one
/// before.
pub proof fn law_every_group_keeps_a_liberty(board: BoardView, mv: Move)
    requires
        board.wf(),
        board.legal(mv),
        all_breathe(board.cells),
    ensures
        all_breathe(board.played(mv).cells),
{
    if mv != Move::pass_move() {
        let after = after_placement(board.cells, mv.0, board.to_move);
        let point = mv.0;
        assert forall|p: usize|
            p < CELL_COUNT && after[p as int] != 0 implies #[trigger] has_liberty(after, p) by {
            if same_component(after, p).contains(point) {
                let area = points_with(after, after[p as int]);
                lemma_component_of_member(area, p, point);
                assert(liberties_of(after, p) == liberties_of(after, point));
                let q = choose|q: usize| #[trigger] liberties_of(after, point).contains(q);
                assert(liberties_of(after, p).contains(q));
            } else {
                lemma_other_group_breathes(board.cells, point, board.to_move, p);
            }
        }
    }
}

/// A stone changes only its own point and those of captured enemy stones, and
/// is itself on the board afterwards.
pub proof fn law_a_stone_changes_only_captures(board: BoardView, mv: Move, p: usize)
    requires
        board.wf(),
        board.legal(mv),
        mv != Move::pass_move(),
        p < CELL_COUNT,
    ensures
        board.played(mv).cells[mv.0 as int] == board.to_move.mark(),
        p != mv.0 && board.played(mv).cells[p as int] != board.cells[p as int] ==> {
            &&& board.cells[p as int] == board.to_move.opponent().mark()
            &&& board.played(mv).cells[p as int] == 0
        },
{
    lemma_captured_color(board.cells, mv.0, board.to_move);
}

} // verus!
