//! Conservative life and death: unconditional life, small enclosed areas in
//! which every defence is read out, shared-liberty seki, and area counting.
//! What is not proved stays unsettled.
pub use crate::benson::{pass_alive, pass_alive_with_chains};
pub use crate::chains::{chains, Chain};

use crate::benson::{alive_at, region_of, secure};
use crate::chains::{
    chain_at, chain_from, chain_list, chain_views, leads, lemma_chain_at, lemma_chain_of_stone,
    lemma_chains_below, ChainView,
};
use crate::game::{liberties_of, valid_cells, Board, BoardView, Move, Outcome, Player, MAX_MOVES};
use crate::grid::{
    adjacent, component, flood, lemma_component_basic, lemma_component_of_member, lemma_neighbors,
    lemma_walk_order, neighbors, neighbors_of, points_with, same_component, walk_order, CELL_COUNT,
};
use vstd::prelude::*;

verus! {

/// A stone of the player stands next to the empty region of `r`.
pub open spec fn sees(cells: Seq<i8>, r: usize, player: Player) -> bool {
    exists|q: usize, s: usize|
        region_of(cells, r).contains(q) && #[trigger] adjacent(q, s) && cells[s as int] == player.mark()
}

/// Whose point it is: 1 is Black's, -1 is White's, 0 is nobody's. An empty
/// point belongs to the color that alone borders its region.
pub open spec fn owner_of(cells: Seq<i8>, p: usize) -> int {
    if cells[p as int] != 0 {
        cells[p as int] as int
    } else if sees(cells, p, Player::Black) && !sees(cells, p, Player::White) {
        1
    } else if sees(cells, p, Player::White) && !sees(cells, p, Player::Black) {
        -1
    } else {
        0
    }
}

/// Black's points less White's among the first `n`.
pub open spec fn area_below(cells: Seq<i8>, n: nat) -> int
    decreases n,
{
    if n == 0 {
        0
    } else {
        area_below(cells, (n - 1) as nat) + owner_of(cells, (n - 1) as usize)
    }
}

/// Black's points less White's.
pub open spec fn area_of(cells: Seq<i8>) -> int {
    area_below(cells, CELL_COUNT as nat)
}

/// The points of a region have one owner.
proof fn lemma_region_owner(cells: Seq<i8>, start: usize, p: usize)
    requires
        start < CELL_COUNT,
        cells[start as int] == 0,
        region_of(cells, start).contains(p),
    ensures
        p < CELL_COUNT,
        cells[p as int] == 0,
        region_of(cells, p) == region_of(cells, start),
        owner_of(cells, p) == owner_of(cells, start),
{
    let empty = points_with(cells, 0);
    lemma_component_basic(empty, start);
    lemma_component_of_member(empty, start, p);
}

/// The owner of the region that the points make up.
fn region_owner(cells: &[i8], points: &Vec<usize>, Ghost(start): Ghost<usize>) -> (owner: i8)
    requires
        cells@.len() >= CELL_COUNT,
        start < CELL_COUNT,
        cells@[start as int] == 0,
        points@.to_set() == region_of(cells@, start),
        forall|i: int| 0 <= i < points@.len() ==> #[trigger] points@[i] < CELL_COUNT,
    ensures
        owner == owner_of(cells@, start),
{
    let mut black: bool = false;
    let mut white: bool = false;
    let mut i: usize = 0;
    while i < points.len()
        invariant
            cells@.len() >= CELL_COUNT,
            points@.to_set() == region_of(cells@, start),
            forall|j: int| 0 <= j < points@.len() ==> #[trigger] points@[j] < CELL_COUNT,
            i <= points@.len(),
            black ==> sees(cells@, start, Player::Black),
            white ==> sees(cells@, start, Player::White),
            forall|j: int, s: usize|
                0 <= j < i && #[trigger] adjacent(points@[j], s) ==> (cells@[s as int] == 1
                    ==> black) && (cells@[s as int] == -1 ==> white),
        decreases points@.len() - i,
    {
        let p: usize = points[i];
        let ns = neighbors(p);
        let ghost (b, w) = (black, white);
        proof {
            lemma_neighbors(p);
            assert(points@.to_set().contains(p));
        }
        let mut k: usize = 0;
        while k < ns.len
            invariant
                cells@.len() >= CELL_COUNT,
                p < CELL_COUNT,
                region_of(cells@, start).contains(p),
                ns.len <= 4,
                ns@ == neighbors_of(p),
                k <= ns.len,
                forall|m: int| 0 <= m < ns@.len() ==> adjacent(p, #[trigger] ns@[m]),
                b ==> black,
                w ==> white,
                black ==> sees(cells@, start, Player::Black),
                white ==> sees(cells@, start, Player::White),
                forall|m: int|
                    0 <= m < k ==> (cells@[#[trigger] ns@[m] as int] == 1 ==> black) && (
                    cells@[ns@[m] as int] == -1 ==> white),
            decreases ns.len - k,
        {
            let n: usize = ns.points[k];
            assert(ns@[k as int] == n);
            assert(adjacent(p, n));
            if cells[n] == 1 {
                black = true;
            } else if cells[n] == -1 {
                white = true;
            }
            k = k + 1;
        }
        proof {
            assert forall|j: int, s: usize|
                0 <= j < i + 1 && #[trigger] adjacent(points@[j], s) implies (cells@[s as int] == 1
                ==> black) && (cells@[s as int] == -1 ==> white) by {
                if j == i {
                    assert(neighbors_of(p).contains(s));
                    assert(ns@[ns@.index_of(s)] == s);
                }
            }
        }
        i = i + 1;
    }
    proof {
        assert forall|player: Player| #[trigger] sees(cells@, start, player) implies (player
            == Player::Black ==> black) && (player == Player::White ==> white) by {
            let (q, s) = choose|q: usize, s: usize|
                region_of(cells@, start).contains(q) && #[trigger] adjacent(q, s)
                    && cells@[s as int] == player.mark();
            assert(points@.to_set().contains(q));
            assert(adjacent(points@[points@.index_of(q)], s));
        }
    }
    if black && !white {
        1
    } else if white && !black {
        -1
    } else {
        0
    }
}

/// Black's points less White's, stones and territory.
pub fn area_score(cells: &[i8]) -> (score: i32)
    requires
        valid_cells(cells@),
    ensures
        score == area_of(cells@),
        -361 <= score <= 361,
{
    let ghost empty = points_with(cells@, 0);
    let mut owner: [i8; 361] = [0; 361];
    let mut seen: [bool; 361] = [false; 361];
    let mut start: usize = 0;
    while start < CELL_COUNT
        invariant
            valid_cells(cells@),
            empty == points_with(cells@, 0),
            start <= CELL_COUNT,
            forall|p: usize| p < start ==> #[trigger] owner@[p as int] == owner_of(cells@, p),
            forall|p: usize|
                p < CELL_COUNT && #[trigger] seen@[p as int] ==> owner@[p as int] == owner_of(
                    cells@,
                    p,
                ),
        decreases CELL_COUNT - start,
    {
        if cells[start] != 0 {
            owner[start] = cells[start];
        } else if !seen[start] {
            let points: Vec<usize> = flood(cells, start);
            proof {
                lemma_walk_order(empty, start);
                lemma_component_basic(empty, start);
            }
            let sign: i8 = region_owner(cells, &points, Ghost(start));
            let ghost held = owner@;
            let mut i: usize = 0;
            while i < points.len()
                invariant
                    i <= points@.len(),
                    start < CELL_COUNT,
                    cells@[start as int] == 0,
                    points@.to_set() == region_of(cells@, start),
                    sign == owner_of(cells@, start),
                    forall|j: int| 0 <= j < points@.len() ==> #[trigger] points@[j] < CELL_COUNT,
                    forall|p: usize|
                        p < start ==> #[trigger] owner@[p as int] == owner_of(cells@, p),
                    forall|p: usize|
                        p < CELL_COUNT && #[trigger] seen@[p as int] ==> owner@[p as int]
                            == owner_of(cells@, p),
                    forall|j: int| 0 <= j < i ==> seen@[#[trigger] points@[j] as int],
                decreases points@.len() - i,
            {
                let p: usize = points[i];
                proof {
                    assert(points@.to_set().contains(p));
                    lemma_region_owner(cells@, start, p);
                }
                seen[p] = true;
                owner[p] = sign;
                i = i + 1;
            }
            proof {
                assert(points@[0] == start);
                assert(seen@[start as int]);
            }
        }
        start = start + 1;
    }
    let mut score: i32 = 0;
    let mut p: usize = 0;
    while p < CELL_COUNT
        invariant
            p <= CELL_COUNT,
            valid_cells(cells@),
            forall|q: usize|
                q < CELL_COUNT ==> #[trigger] owner@[q as int] == owner_of(cells@, q),
            score == area_below(cells@, p as nat),
            -(p as int) <= score <= p,
        decreases CELL_COUNT - p,
    {
        assert(-1 <= owner@[p as int] <= 1) by {
            assert(-1 <= cells@[p as int] <= 1);
            assert(owner@[p as int] == owner_of(cells@, p));
        }
        score = score + owner[p] as i32;
        p = p + 1;
    }
    score
}

/// Nobody has more points than there are.
pub proof fn lemma_area_bound(cells: Seq<i8>, n: nat)
    requires
        valid_cells(cells),
        n <= CELL_COUNT,
    ensures
        -(n as int) <= area_below(cells, n) <= n,
    decreases n,
{
    if n > 0 {
        lemma_area_bound(cells, (n - 1) as nat);
        assert(-1 <= cells[n - 1] <= 1);
    }
}

/// The actions that a local fight is read with: the points, then the pass.
pub open spec fn fight_moves(region: Seq<usize>) -> Seq<Move> {
    region.map_values(|p: usize| Move(p)).push(Move::pass_move())
}

/// What reading `depth` moves deep with the given number of visited boards
/// left finds, and how many are left. `Some(true)` is that the attacker takes
/// the target whatever the defender does, `Some(false)` that the target stands
/// when both pass, `None` that depth or budget ran out.
pub open spec fn read_capture(
    board: BoardView,
    region: Seq<usize>,
    target: usize,
    defender: Player,
    depth: nat,
    budget: nat,
) -> (Option<bool>, nat)
    decreases depth, region.len() + 2,
{
    if board.cells[target as int] != defender.mark() {
        (Some(true), budget)
    } else if board.passes >= 2 {
        (Some(false), budget)
    } else if depth == 0 || budget == 0 {
        (None, budget)
    } else {
        read_replies(board, region, target, defender, depth, 0, false, (budget - 1) as nat)
    }
}

/// The part of the reading that tries the actions from place `next` on;
/// `unknown` says whether an earlier one ran out.
pub open spec fn read_replies(
    board: BoardView,
    region: Seq<usize>,
    target: usize,
    defender: Player,
    depth: nat,
    next: nat,
    unknown: bool,
    budget: nat,
) -> (Option<bool>, nat)
    decreases depth, region.len() + 1 - next,
{
    let attacking = board.to_move != defender;
    if next > region.len() || depth == 0 {
        (
            if unknown {
                None
            } else {
                Some(!attacking)
            },
            budget,
        )
    } else {
        let mv = fight_moves(region)[next as int];
        if !board.legal(mv) {
            read_replies(board, region, target, defender, depth, next + 1, unknown, budget)
        } else {
            let (found, left) = read_capture(
                board.played(mv),
                region,
                target,
                defender,
                (depth - 1) as nat,
                budget,
            );
            if found == Some(attacking) {
                (found, left)
            } else {
                read_replies(
                    board,
                    region,
                    target,
                    defender,
                    depth,
                    next + 1,
                    unknown || found is None,
                    left,
                )
            }
        }
    }
}

/// The attacker takes the target within `depth` moves, whatever the defender
/// answers among the fight's actions.
pub open spec fn capture_forced(
    board: BoardView,
    region: Seq<usize>,
    target: usize,
    defender: Player,
    depth: nat,
) -> bool
    decreases depth,
{
    board.cells[target as int] != defender.mark() || (board.passes < 2 && depth > 0 && if board.to_move
        != defender {
        exists|i: int|
            0 <= i <= region.len() && board.legal(#[trigger] fight_moves(region)[i])
                && capture_forced(
                board.played(fight_moves(region)[i]),
                region,
                target,
                defender,
                (depth - 1) as nat,
            )
    } else {
        forall|i: int|
            0 <= i <= region.len() && board.legal(#[trigger] fight_moves(region)[i])
                ==> capture_forced(
                board.played(fight_moves(region)[i]),
                region,
                target,
                defender,
                (depth - 1) as nat,
            )
    })
}

/// The defender keeps the target until both sides pass, whatever the attacker
/// plays among the fight's actions.
pub open spec fn defence_holds(
    board: BoardView,
    region: Seq<usize>,
    target: usize,
    defender: Player,
    depth: nat,
) -> bool
    decreases depth,
{
    board.cells[target as int] == defender.mark() && (board.passes >= 2 || (depth > 0
        && if board.to_move == defender {
        exists|i: int|
            0 <= i <= region.len() && board.legal(#[trigger] fight_moves(region)[i])
                && defence_holds(
                board.played(fight_moves(region)[i]),
                region,
                target,
                defender,
                (depth - 1) as nat,
            )
    } else {
        forall|i: int|
            0 <= i <= region.len() && board.legal(#[trigger] fight_moves(region)[i])
                ==> defence_holds(
                board.played(fight_moves(region)[i]),
                region,
                target,
                defender,
                (depth - 1) as nat,
            )
    }))
}

/// What reading says is so: a proved capture is forced and a proved defence
/// holds, however small the budget was.
pub proof fn law_reading_is_sound(
    board: BoardView,
    region: Seq<usize>,
    target: usize,
    defender: Player,
    depth: nat,
    budget: nat,
)
    ensures
        read_capture(board, region, target, defender, depth, budget).0 == Some(true)
            ==> capture_forced(board, region, target, defender, depth),
        read_capture(board, region, target, defender, depth, budget).0 == Some(false)
            ==> defence_holds(board, region, target, defender, depth),
        read_capture(board, region, target, defender, depth, budget).1 <= budget,
    decreases depth, region.len() + 2,
{
    if board.cells[target as int] == defender.mark() && board.passes < 2 && depth > 0 && budget
        > 0 {
        lemma_replies(
            board,
            region,
            target,
            defender,
            depth,
            0,
            false,
            (budget - 1) as nat,
        );
    }
}

proof fn lemma_replies(
    board: BoardView,
    region: Seq<usize>,
    target: usize,
    defender: Player,
    depth: nat,
    next: nat,
    unknown: bool,
    budget: nat,
)
    requires
        board.cells[target as int] == defender.mark(),
        board.passes < 2,
        depth > 0,
        !unknown ==> forall|i: int|
            0 <= i < next && i <= region.len() && board.legal(#[trigger] fight_moves(region)[i])
                ==> (if board.to_move == defender {
                capture_forced(
                    board.played(fight_moves(region)[i]),
                    region,
                    target,
                    defender,
                    (depth - 1) as nat,
                )
            } else {
                defence_holds(
                    board.played(fight_moves(region)[i]),
                    region,
                    target,
                    defender,
                    (depth - 1) as nat,
                )
            }),
    ensures
        read_replies(board, region, target, defender, depth, next, unknown, budget).0 == Some(true)
            ==> capture_forced(board, region, target, defender, depth),
        read_replies(board, region, target, defender, depth, next, unknown, budget).0 == Some(
            false,
        ) ==> defence_holds(board, region, target, defender, depth),
        read_replies(board, region, target, defender, depth, next, unknown, budget).1 <= budget,
    decreases depth, region.len() + 1 - next,
{
    if next <= region.len() {
        let mv = fight_moves(region)[next as int];
        if !board.legal(mv) {
            lemma_replies(board, region, target, defender, depth, next + 1, unknown, budget);
        } else {
            let attacking = board.to_move != defender;
            let child = board.played(mv);
            let less = (depth - 1) as nat;
            law_reading_is_sound(child, region, target, defender, less, budget);
            let (found, left) = read_capture(child, region, target, defender, less, budget);
            if found != Some(attacking) {
                if found is Some {
                    if attacking {
                        assert(found == Some(false));
                        assert(defence_holds(child, region, target, defender, less));
                    } else {
                        assert(found == Some(true));
                        assert(capture_forced(child, region, target, defender, less));
                    }
                }
                lemma_replies(
                    board,
                    region,
                    target,
                    defender,
                    depth,
                    next + 1,
                    unknown || found is None,
                    left,
                );
            }
        }
    }
}

/// A fight cannot be both won and lost.
pub proof fn law_fight_has_one_result(
    board: BoardView,
    region: Seq<usize>,
    target: usize,
    defender: Player,
    depth: nat,
)
    ensures
        !(capture_forced(board, region, target, defender, depth) && defence_holds(
            board,
            region,
            target,
            defender,
            depth,
        )),
    decreases depth,
{
    if board.cells[target as int] == defender.mark() && board.passes < 2 && depth > 0 {
        assert forall|i: int|
            0 <= i <= region.len() && board.legal(#[trigger] fight_moves(region)[i]) implies !(
        capture_forced(
            board.played(fight_moves(region)[i]),
            region,
            target,
            defender,
            (depth - 1) as nat,
        ) && defence_holds(
            board.played(fight_moves(region)[i]),
            region,
            target,
            defender,
            (depth - 1) as nat,
        )) by {
            law_fight_has_one_result(
                board.played(fight_moves(region)[i]),
                region,
                target,
                defender,
                (depth - 1) as nat,
            );
        }
    }
}

/// Without budget an open fight is unknown.
pub proof fn law_exhausted_budget_is_unknown(
    board: BoardView,
    region: Seq<usize>,
    target: usize,
    defender: Player,
    depth: nat,
)
    requires
        board.cells[target as int] == defender.mark(),
        board.passes < 2,
    ensures
        read_capture(board, region, target, defender, depth, 0).0 is None,
{
}

/// Reads whether the attacker takes the stone on `target`.
pub fn forced_capture(
    board: &Board,
    region: &[usize],
    target: usize,
    defender: Player,
    depth: usize,
    budget: &mut usize,
) -> (result: Option<bool>)
    requires
        board@.wf(),
        target < CELL_COUNT,
    ensures
        (result, *final(budget) as nat) == read_capture(
            board@,
            region@,
            target,
            defender,
            depth as nat,
            *old(budget) as nat,
        ),
        result == Some(true) ==> capture_forced(
            board@,
            region@,
            target,
            defender,
            depth as nat,
        ),
        result == Some(false) ==> defence_holds(board@, region@, target, defender, depth as nat),
    decreases depth,
{
    proof {
        law_reading_is_sound(
            board@,
            region@,
            target,
            defender,
            depth as nat,
            *old(budget) as nat,
        );
    }
    if board.cells()[target] != defender.stone() {
        return Some(true);
    }
    if board.consecutive_passes() >= 2 {
        return Some(false);
    }
    if depth == 0 || *budget == 0 {
        return None;
    }
    *budget = *budget - 1;
    let attacking: bool = board.to_move() != defender;
    let mut unknown: bool = false;
    let mut i: usize = 0;
    let ghost whole = read_capture(
        board@,
        region@,
        target,
        defender,
        depth as nat,
        *old(budget) as nat,
    );
    while i < region.len()
        invariant
            board@.wf(),
            target < CELL_COUNT,
            depth > 0,
            attacking == (board@.to_move != defender),
            i <= region@.len(),
            whole == read_capture(
                board@,
                region@,
                target,
                defender,
                depth as nat,
                *old(budget) as nat,
            ),
            whole.0 == Some(true) ==> capture_forced(
                board@,
                region@,
                target,
                defender,
                depth as nat,
            ),
            whole.0 == Some(false) ==> defence_holds(
                board@,
                region@,
                target,
                defender,
                depth as nat,
            ),
            whole == read_replies(
                board@,
                region@,
                target,
                defender,
                depth as nat,
                i as nat,
                unknown,
                *budget as nat,
            ),
        decreases region@.len() - i,
    {
        let mut child: Board = board.clone();
        assert(fight_moves(region@)[i as int] == Move(region@[i as int]));
        if child.play(Move(region[i])) {
            let found: Option<bool> = forced_capture(
                &child,
                region,
                target,
                defender,
                depth - 1,
                budget,
            );
            match found {
                Some(captured) => {
                    if captured == attacking {
                        return Some(captured);
                    }
                },
                None => {
                    unknown = true;
                },
            }
        }
        i = i + 1;
    }
    let mut child: Board = board.clone();
    proof {
        assert(fight_moves(region@)[region@.len() as int] == Move::pass_move());
        reveal_with_fuel(read_replies, 2);
    }
    if child.play(Move::pass()) {
        let found: Option<bool> = forced_capture(
            &child,
            region,
            target,
            defender,
            depth - 1,
            budget,
        );
        match found {
            Some(captured) => {
                if captured == attacking {
                    return Some(captured);
                }
            },
            None => {
                unknown = true;
            },
        }
    }
    if unknown {
        None
    } else {
        Some(!attacking)
    }
}


/// The player whose stones have the color.
pub open spec fn side_of(color: i8) -> Player {
    if color == 1 {
        Player::Black
    } else {
        Player::White
    }
}

fn side(color: i8) -> (player: Player)
    ensures
        player == side_of(color),
{
    if color == 1 {
        Player::Black
    } else {
        Player::White
    }
}

/// Of two liberties the one that is not `point`.
pub open spec fn other_liberty(liberties: Seq<usize>, point: usize) -> usize {
    if liberties[0] != point {
        liberties[0]
    } else {
        liberties[1]
    }
}

/// The chain's owner gains nothing by filling the shared liberty `point`:
/// they may not, or the opponent takes the whole chain on the other one and
/// then has two liberties at least.
pub open spec fn fill_fails(board: BoardView, chain: ChainView, point: usize) -> bool {
    let start = board.reading(side_of(chain.color));
    if !start.legal(Move(point)) {
        true
    } else {
        let filled = start.played(Move(point));
        let reply = other_liberty(chain.liberties, point);
        let taken = filled.played(Move(reply));
        &&& filled.legal(Move(reply))
        &&& forall|i: int|
            0 <= i < chain.stones.len() ==> taken.cells[#[trigger] chain.stones[i] as int]
                != chain.color
        &&& liberties_of(taken.cells, reply).len() >= 2
    }
}

/// No stone of `other`'s color outside `other` is next to `own`.
pub open spec fn touches_only(cells: Seq<i8>, own: ChainView, other: ChainView) -> bool {
    forall|i: int, n: usize|
        0 <= i < own.stones.len() && #[trigger] adjacent(own.stones[i], n) && cells[n as int]
            == other.color ==> other.stones.contains(n)
}

/// Two chains of different color that share their only two liberties, where
/// neither side can fill one.
pub open spec fn seki_pair(board: BoardView, a: ChainView, b: ChainView) -> bool {
    &&& a.color != b.color
    &&& a.liberties.len() == 2
    &&& b.liberties.len() == 2
    &&& forall|i: int|
        0 <= i < a.liberties.len() ==> b.liberties.contains(#[trigger] a.liberties[i])
    &&& touches_only(board.cells, a, b)
    &&& touches_only(board.cells, b, a)
    &&& forall|i: int|
        0 <= i < a.liberties.len() ==> fill_fails(board, a, #[trigger] a.liberties[i])
    &&& forall|i: int|
        0 <= i < b.liberties.len() ==> fill_fails(board, b, #[trigger] b.liberties[i])
}

/// The chain in place `id` is in seki with another one.
pub open spec fn in_seki(board: BoardView, id: int) -> bool {
    let list = chain_list(board.cells);
    exists|j: int|
        0 <= j < list.len() && ((id < j && seki_pair(board, list[id], #[trigger] list[j])) || (j
            < id && seki_pair(board, list[j], list[id])))
}

/// The list holds the chains of the position.
spec fn lists_chains(cells: Seq<i8>, groups: Seq<Chain>) -> bool {
    &&& chain_views(groups) == chain_list(cells)
    &&& groups.len() == chain_list(cells).len()
    &&& forall|i: int| 0 <= i < groups.len() ==> (#[trigger] groups[i])@ == chain_list(cells)[i]
    &&& forall|i: int| 0 <= i < groups.len() ==> chain_in_grid(cells, #[trigger] groups[i])
}

/// The chain's points are on the grid; its stones have its color.
spec fn chain_in_grid(cells: Seq<i8>, chain: Chain) -> bool {
    &&& chain.stones@.len() > 0
    &&& forall|j: int|
        0 <= j < chain.stones@.len() ==> #[trigger] chain.stones@[j] < CELL_COUNT
            && cells[chain.stones@[j] as int] == chain.color
    &&& forall|j: int|
        0 <= j < chain.liberties@.len() ==> #[trigger] chain.liberties@[j] < CELL_COUNT
    &&& chain.liberties@.no_duplicates()
    &&& leads(cells, chain.stones@[0])
    &&& chain@ == chain_at(cells, chain.stones@[0])
}

proof fn lemma_lists_chains(cells: Seq<i8>, groups: Seq<Chain>)
    requires
        chain_views(groups) == chain_list(cells),
    ensures
        lists_chains(cells, groups),
{
    lemma_chains_below(cells, CELL_COUNT as nat);
    assert(chain_views(groups).len() == groups.len());
    assert forall|i: int| 0 <= i < groups.len() implies (#[trigger] groups[i])@ == chain_list(
        cells,
    )[i] by {
        assert(chain_views(groups)[i] == groups[i]@);
    }
    assert forall|i: int| 0 <= i < groups.len() implies chain_in_grid(cells, #[trigger] groups[i]) by {
        let c = chain_list(cells)[i];
        assert(groups[i]@ == c);
        lemma_chain_at(cells, c.stones[0]);
        assert(c == chain_at(cells, c.stones[0]));
    }
}

fn contains_point(points: &Vec<usize>, point: usize) -> (found: bool)
    ensures
        found == points@.contains(point),
{
    let mut i: usize = 0;
    while i < points.len()
        invariant
            i <= points@.len(),
            forall|j: int| 0 <= j < i ==> points@[j] != point,
        decreases points@.len() - i,
    {
        if points[i] == point {
            assert(points@[i as int] == point);
            return true;
        }
        i = i + 1;
    }
    false
}

fn check_touches_only(cells: &[i8], own: &Chain, other: &Chain) -> (result: bool)
    requires
        cells@.len() >= CELL_COUNT,
        forall|j: int| 0 <= j < own.stones@.len() ==> #[trigger] own.stones@[j] < CELL_COUNT,
    ensures
        result == touches_only(cells@, own@, other@),
{
    let mut i: usize = 0;
    while i < own.stones.len()
        invariant
            cells@.len() >= CELL_COUNT,
            forall|j: int| 0 <= j < own.stones@.len() ==> #[trigger] own.stones@[j] < CELL_COUNT,
            i <= own.stones@.len(),
            forall|j: int, n: usize|
                0 <= j < i && #[trigger] adjacent(own.stones@[j], n) && cells@[n as int]
                    == other.color ==> other.stones@.contains(n),
        decreases own.stones@.len() - i,
    {
        let p: usize = own.stones[i];
        let ns = neighbors(p);
        proof {
            lemma_neighbors(p);
        }
        let mut k: usize = 0;
        while k < ns.len
            invariant
                cells@.len() >= CELL_COUNT,
                i < own.stones@.len(),
                p == own.stones@[i as int],
                p < CELL_COUNT,
                ns.len <= 4,
                ns@ == neighbors_of(p),
                k <= ns.len,
                forall|m: int| 0 <= m < ns@.len() ==> adjacent(p, #[trigger] ns@[m]),
                forall|m: int|
                    0 <= m < k && cells@[#[trigger] ns@[m] as int] == other.color
                        ==> other.stones@.contains(ns@[m]),
            decreases ns.len - k,
        {
            let n: usize = ns.points[k];
            assert(ns@[k as int] == n);
            if cells[n] == other.color && !contains_point(&other.stones, n) {
                assert(adjacent(own@.stones[i as int], n));
                return false;
            }
            k = k + 1;
        }
        proof {
            assert forall|j: int, n: usize|
                0 <= j < i + 1 && #[trigger] adjacent(own.stones@[j], n) && cells@[n as int]
                    == other.color implies other.stones@.contains(n) by {
                if j == i {
                    assert(neighbors_of(p).contains(n));
                    assert(ns@[ns@.index_of(n)] == n);
                }
            }
        }
        i = i + 1;
    }
    true
}

fn check_fill_fails(board: &Board, chain: &Chain, point: usize) -> (result: bool)
    requires
        board@.wf(),
        chain.liberties@.len() == 2,
        forall|j: int|
            0 <= j < chain.liberties@.len() ==> #[trigger] chain.liberties@[j] < CELL_COUNT,
        forall|j: int| 0 <= j < chain.stones@.len() ==> #[trigger] chain.stones@[j] < CELL_COUNT,
    ensures
        result == fill_fails(board@, chain@, point),
{
    let mut child: Board = board.for_reading(side(chain.color));
    if !child.play(Move(point)) {
        return true;
    }
    let ghost filled = child@;
    assert(filled == board@.reading(side_of(chain.color)).played(Move(point)));
    let reply: usize = if chain.liberties[0] != point {
        chain.liberties[0]
    } else {
        chain.liberties[1]
    };
    assert(reply == other_liberty(chain@.liberties, point));
    if !child.play(Move(reply)) {
        return false;
    }
    let ghost taken = child@;
    assert(taken == filled.played(Move(reply)));
    let mut i: usize = 0;
    while i < chain.stones.len()
        invariant
            i <= chain.stones@.len(),
            child@ == taken,
            taken.wf(),
            board@.reading(side_of(chain.color)).legal(Move(point)),
            filled == board@.reading(side_of(chain.color)).played(Move(point)),
            reply == other_liberty(chain@.liberties, point),
            taken == filled.played(Move(reply)),
            forall|j: int|
                0 <= j < chain.stones@.len() ==> #[trigger] chain.stones@[j] < CELL_COUNT,
            forall|j: int|
                0 <= j < i ==> taken.cells[#[trigger] chain@.stones[j] as int] != chain.color,
        decreases chain.stones@.len() - i,
    {
        if child.cells()[chain.stones[i]] == chain.color {
            assert(taken.cells[chain@.stones[i as int] as int] == chain.color);
            return false;
        }
        i = i + 1;
    }
    proof {
        lemma_chain_at(taken.cells, reply);
    }
    chain_from(child.cells(), reply).liberties.len() >= 2
}

fn check_seki_pair(board: &Board, a: &Chain, b: &Chain) -> (result: bool)
    requires
        board@.wf(),
        chain_in_grid(board@.cells, *a),
        chain_in_grid(board@.cells, *b),
    ensures
        result == seki_pair(board@, a@, b@),
{
    if a.color == b.color || a.liberties.len() != 2 || b.liberties.len() != 2 {
        return false;
    }
    if !contains_point(&b.liberties, a.liberties[0]) {
        assert(!b@.liberties.contains(a@.liberties[0]));
        return false;
    }
    if !contains_point(&b.liberties, a.liberties[1]) {
        assert(!b@.liberties.contains(a@.liberties[1]));
        return false;
    }
    if !check_touches_only(board.cells(), a, b) || !check_touches_only(board.cells(), b, a) {
        return false;
    }
    if !check_fill_fails(board, a, a.liberties[0]) {
        assert(!fill_fails(board@, a@, a@.liberties[0]));
        return false;
    }
    if !check_fill_fails(board, a, a.liberties[1]) {
        assert(!fill_fails(board@, a@, a@.liberties[1]));
        return false;
    }
    if !check_fill_fails(board, b, b.liberties[0]) {
        assert(!fill_fails(board@, b@, b@.liberties[0]));
        return false;
    }
    if !check_fill_fails(board, b, b.liberties[1]) {
        assert(!fill_fails(board@, b@, b@.liberties[1]));
        return false;
    }
    true
}

/// Some tried pair with the chain in place `k` is a seki; tried are the pairs
/// whose first place is below `i`, or is `i` with the second below `j`.
spec fn marked_by(board: BoardView, k: int, i: int, j: int) -> bool {
    let list = chain_list(board.cells);
    exists|x: int, y: int|
        0 <= x < y < list.len() && (x < i || (x == i && y < j)) && (k == x || k == y) && seki_pair(
            board,
            #[trigger] list[x],
            #[trigger] list[y],
        )
}

/// Which chains are in seki.
fn simple_seki(board: &Board, groups: &Vec<Chain>) -> (seki: Vec<bool>)
    requires
        board@.wf(),
        lists_chains(board@.cells, groups@),
    ensures
        seki@.len() == groups@.len(),
        forall|k: int| 0 <= k < seki@.len() ==> #[trigger] seki@[k] == in_seki(board@, k),
{
    let ghost list = chain_list(board@.cells);
    let mut seki: Vec<bool> = Vec::with_capacity(groups.len());
    let mut n: usize = 0;
    while n < groups.len()
        invariant
            n <= groups@.len(),
            seki@.len() == n,
            forall|k: int| 0 <= k < n ==> !#[trigger] seki@[k],
        decreases groups@.len() - n,
    {
        seki.push(false);
        n = n + 1;
    }
    let mut i: usize = 0;
    while i < groups.len()
        invariant
            board@.wf(),
            list == chain_list(board@.cells),
            lists_chains(board@.cells, groups@),
            i <= groups@.len(),
            seki@.len() == groups@.len(),
            forall|k: int|
                0 <= k < seki@.len() ==> #[trigger] seki@[k] == marked_by(board@, k, i as int, 0),
        decreases groups@.len() - i,
    {
        let mut j: usize = i + 1;
        assert forall|k: int| 0 <= k < seki@.len() implies #[trigger] seki@[k] == marked_by(
            board@,
            k,
            i as int,
            j as int,
        ) by {
            assert(marked_by(board@, k, i as int, j as int) == marked_by(board@, k, i as int, 0));
        }
        while j < groups.len()
            invariant
                board@.wf(),
                list == chain_list(board@.cells),
                lists_chains(board@.cells, groups@),
                i < j <= groups@.len(),
                seki@.len() == groups@.len(),
                forall|k: int|
                    0 <= k < seki@.len() ==> #[trigger] seki@[k] == marked_by(
                        board@,
                        k,
                        i as int,
                        j as int,
                    ),
            decreases groups@.len() - j,
        {
            let ghost before = seki@;
            assert(groups@[i as int]@ == list[i as int] && groups@[j as int]@ == list[j as int]);
            let pair: bool = check_seki_pair(board, &groups[i], &groups[j]);
            if pair {
                seki.set(i, true);
                seki.set(j, true);
            }
            proof {
                assert forall|k: int| 0 <= k < seki@.len() implies #[trigger] seki@[k]
                    == marked_by(board@, k, i as int, j + 1) by {
                    lemma_marked_step(board@, k, i as int, j as int);
                    assert(before[k] == marked_by(board@, k, i as int, j as int));
                }
            }
            j = j + 1;
        }
        proof {
            assert forall|k: int| 0 <= k < seki@.len() implies #[trigger] seki@[k] == marked_by(
                board@,
                k,
                i + 1,
                0,
            ) by {
                assert(marked_by(board@, k, i + 1, 0) == marked_by(
                    board@,
                    k,
                    i as int,
                    j as int,
                ));
            }
        }
        i = i + 1;
    }
    proof {
        assert forall|k: int| 0 <= k < seki@.len() implies #[trigger] seki@[k] == in_seki(
            board@,
            k,
        ) by {
            if seki@[k] {
                let (x, y) = choose|x: int, y: int|
                    0 <= x < y < list.len() && (x < i || (x == i && y < 0)) && (k == x || k == y)
                        && seki_pair(board@, #[trigger] list[x], #[trigger] list[y]);
                if k == x {
                    assert(k < y && seki_pair(board@, list[k], list[y]));
                } else {
                    assert(x < k && seki_pair(board@, list[x], list[k]));
                }
            }
            if in_seki(board@, k) {
                let j = choose|j: int|
                    0 <= j < list.len() && ((k < j && seki_pair(
                        board@,
                        list[k],
                        #[trigger] list[j],
                    )) || (j < k && seki_pair(board@, list[j], list[k])));
                if k < j {
                    assert(seki_pair(board@, list[k], list[j]));
                } else {
                    assert(seki_pair(board@, list[j], list[k]));
                }
                assert(marked_by(board@, k, i as int, 0));
            }
        }
    }
    seki
}

proof fn lemma_marked_step(board: BoardView, k: int, i: int, j: int)
    requires
        0 <= i < j < chain_list(board.cells).len(),
    ensures
        marked_by(board, k, i, j + 1) <==> marked_by(board, k, i, j) || ((k == i || k == j)
            && seki_pair(board, chain_list(board.cells)[i], chain_list(board.cells)[j])),
{
    let list = chain_list(board.cells);
    if marked_by(board, k, i, j + 1) {
        let (x, y) = choose|x: int, y: int|
            0 <= x < y < list.len() && (x < i || (x == i && y < j + 1)) && (k == x || k == y)
                && seki_pair(board, #[trigger] list[x], #[trigger] list[y]);
        if !(x == i && y == j) {
            assert(seki_pair(board, list[x], list[y]));
            assert(marked_by(board, k, i, j));
        }
    }
    if marked_by(board, k, i, j) {
        let (x, y) = choose|x: int, y: int|
            0 <= x < y < list.len() && (x < i || (x == i && y < j)) && (k == x || k == y)
                && seki_pair(board, #[trigger] list[x], #[trigger] list[y]);
        assert(seki_pair(board, list[x], list[y]));
        assert(marked_by(board, k, i, j + 1));
    }
    if (k == i || k == j) && seki_pair(board, list[i], list[j]) {
        assert(marked_by(board, k, i, j + 1));
    }
}


/// The points without an unconditionally alive stone.
pub open spec fn undecided(cells: Seq<i8>) -> Set<usize> {
    Set::new(|p: usize| p < CELL_COUNT && !alive_at(cells, p))
}

/// The undecided points connected to `start`, in breadth-first order.
pub open spec fn fight_area(cells: Seq<i8>, start: usize) -> Seq<usize> {
    walk_order(undecided(cells), start)
}

/// The stone's surroundings end at unconditionally alive stones of the
/// opponent, and hold no other stones than of its own color.
pub open spec fn enclosed(cells: Seq<i8>, start: usize) -> bool {
    let area = component(undecided(cells), start);
    &&& exists|q: usize, s: usize|
        area.contains(q) && #[trigger] adjacent(q, s) && alive_at(cells, s)
    &&& forall|q: usize, s: usize|
        area.contains(q) && #[trigger] adjacent(q, s) && alive_at(cells, s) ==> cells[s as int]
            != cells[start as int]
    &&& forall|q: usize| #[trigger]
        area.contains(q) ==> cells[q as int] == 0 || cells[q as int] == cells[start as int]
}

/// The chain that starts at `start` is proved dead: its enclosed area is
/// small, and reading finds the capture with the defender to move first.
pub open spec fn proved_dead(board: BoardView, start: usize) -> bool {
    let area = fight_area(board.cells, start);
    let defender = side_of(board.cells[start as int]);
    &&& enclosed(board.cells, start)
    &&& area.len() <= 8
    &&& read_capture(
        board.reading(defender),
        area,
        start,
        defender,
        (area.len() * 2 + 4) as nat,
        4000,
    ).0 == Some(true)
}

/// What the analysis says of a chain.
pub enum Status {
    Alive,
    Seki,
    Dead,
    Unsettled,
}

/// The status of the chain in place `id`.
pub open spec fn status_of(board: BoardView, id: int) -> Status {
    let first = chain_list(board.cells)[id].stones[0];
    if alive_at(board.cells, first) {
        Status::Alive
    } else if in_seki(board, id) {
        Status::Seki
    } else if proved_dead(board, first) {
        Status::Dead
    } else {
        Status::Unsettled
    }
}

/// The points as actions.
pub open spec fn as_moves(points: Seq<usize>) -> Seq<Move> {
    points.map_values(|p: usize| Move(p))
}

/// The stones of the chains with the status among the first `n`, in order.
pub open spec fn with_status(board: BoardView, status: Status, n: nat) -> Seq<Seq<Move>>
    decreases n,
{
    if n == 0 {
        Seq::empty()
    } else {
        let before = with_status(board, status, (n - 1) as nat);
        if status_of(board, n - 1) == status {
            before.push(as_moves(chain_list(board.cells)[n - 1].stones))
        } else {
            before
        }
    }
}

/// The stone on `p` belongs to a dead chain among the first `n`.
pub open spec fn dead_stone(board: BoardView, p: usize, n: int) -> bool {
    exists|id: int|
        0 <= id < n && #[trigger] chain_list(board.cells)[id].stones.contains(p) && status_of(
            board,
            id,
        ) == Status::Dead
}

/// The cells without the dead chains among the first `n`.
pub open spec fn without_dead_below(board: BoardView, n: int) -> Seq<i8> {
    Seq::new(
        CELL_COUNT as nat,
        |p: int|
            if dead_stone(board, p as usize, n) {
                0i8
            } else {
                board.cells[p]
            },
    )
}

/// The cells without the dead chains.
pub open spec fn without_dead(board: BoardView) -> Seq<i8> {
    without_dead_below(board, chain_list(board.cells).len() as int)
}

/// Black's margin in thousandths of a point once the dead chains are off.
pub open spec fn settled_score(board: BoardView) -> int {
    area_of(without_dead(board)) * 1000 - board.komi_milli
}

pub open spec fn move_lists(lists: Seq<Vec<Move>>) -> Seq<Seq<Move>> {
    lists.map_values(|list: Vec<Move>| list@)
}

/// The chains of a position by status, and Black's margin in thousandths of a
/// point.
#[derive(Debug)]
pub struct Analysis {
    pub alive: Vec<Vec<Move>>,
    pub seki: Vec<Vec<Move>>,
    pub dead: Vec<Vec<Move>>,
    pub unsettled: Vec<Vec<Move>>,
    pub score: i64,
}

impl Analysis {
    /// The lists hold what the first `n` chains are.
    pub open spec fn lists(self, board: BoardView, n: nat) -> bool {
        &&& move_lists(self.alive@) == with_status(board, Status::Alive, n)
        &&& move_lists(self.seki@) == with_status(board, Status::Seki, n)
        &&& move_lists(self.dead@) == with_status(board, Status::Dead, n)
        &&& move_lists(self.unsettled@) == with_status(board, Status::Unsettled, n)
    }
}

fn to_moves(points: &Vec<usize>) -> (moves: Vec<Move>)
    ensures
        moves@ == as_moves(points@),
{
    let mut moves: Vec<Move> = Vec::with_capacity(points.len());
    let mut i: usize = 0;
    while i < points.len()
        invariant
            i <= points@.len(),
            moves@.len() == i,
            forall|j: int| 0 <= j < i ==> #[trigger] moves@[j] == Move(points@[j]),
        decreases points@.len() - i,
    {
        moves.push(Move(points[i]));
        i = i + 1;
    }
    assert(moves@ =~= as_moves(points@));
    moves
}

/// Whether the undecided area is enclosed.
fn check_enclosed(cells: &[i8], safe: &[bool; 361], area: &Vec<usize>) -> (result: bool)
    requires
        cells@.len() >= CELL_COUNT,
        area@.len() > 0,
        area@[0] < CELL_COUNT,
        !alive_at(cells@, area@[0]),
        forall|p: usize| p < CELL_COUNT ==> #[trigger] safe@[p as int] == alive_at(cells@, p),
        area@ == fight_area(cells@, area@[0]),
    ensures
        result == enclosed(cells@, area@[0]),
{
    let ghost start = area@[0];
    let ghost inside = component(undecided(cells@), start);
    proof {
        lemma_walk_order(undecided(cells@), start);
    }
    let color: i8 = cells[area[0]];
    let mut touching: bool = false;
    let mut i: usize = 0;
    while i < area.len()
        invariant
            cells@.len() >= CELL_COUNT,
            forall|p: usize| p < CELL_COUNT ==> #[trigger] safe@[p as int] == alive_at(cells@, p),
            forall|j: int| 0 <= j < area@.len() ==> #[trigger] area@[j] < CELL_COUNT,
            area@.to_set() == inside,
            inside == component(undecided(cells@), start),
            start == area@[0],
            color == cells@[start as int],
            i <= area@.len(),
            touching <==> exists|j: int, s: usize|
                0 <= j < i && #[trigger] adjacent(area@[j], s) && alive_at(cells@, s),
            forall|j: int, s: usize|
                0 <= j < i && #[trigger] adjacent(area@[j], s) && alive_at(cells@, s)
                    ==> cells@[s as int] != color,
            forall|j: int|
                0 <= j < i ==> cells@[#[trigger] area@[j] as int] == 0 || cells@[area@[j] as int]
                    == color,
        decreases area@.len() - i,
    {
        let p: usize = area[i];
        proof {
            assert(area@.to_set().contains(p));
            lemma_neighbors(p);
        }
        if cells[p] != 0 && cells[p] != color {
            assert(inside.contains(p));
            return false;
        }
        let ns = neighbors(p);
        let ghost earlier = touching;
        let mut k: usize = 0;
        while k < ns.len
            invariant
                cells@.len() >= CELL_COUNT,
                p < CELL_COUNT,
                inside.contains(p),
                inside == component(undecided(cells@), start),
                color == cells@[start as int],
                start == area@[0],
                ns.len <= 4,
                ns@ == neighbors_of(p),
                k <= ns.len,
                forall|m: int| 0 <= m < ns@.len() ==> adjacent(p, #[trigger] ns@[m]),
                forall|q: usize|
                    q < CELL_COUNT ==> #[trigger] safe@[q as int] == alive_at(cells@, q),
                touching <==> earlier || exists|m: int|
                    0 <= m < k && alive_at(cells@, #[trigger] ns@[m]),
                forall|m: int|
                    0 <= m < k && alive_at(cells@, #[trigger] ns@[m]) ==> cells@[ns@[m] as int]
                        != color,
            decreases ns.len - k,
        {
            let n: usize = ns.points[k];
            assert(ns@[k as int] == n);
            assert(adjacent(p, n));
            if safe[n] {
                touching = true;
                if cells[n] == color {
                    assert(alive_at(cells@, n) && inside.contains(p) && adjacent(p, n));
                    return false;
                }
            }
            k = k + 1;
        }
        proof {
            if touching && !earlier {
                let m = choose|m: int| 0 <= m < ns@.len() && alive_at(cells@, #[trigger] ns@[m]);
                assert(adjacent(area@[i as int], ns@[m]));
            }
            if earlier {
                let (j, s) = choose|j: int, s: usize|
                    0 <= j < i && #[trigger] adjacent(area@[j], s) && alive_at(cells@, s);
                assert(adjacent(area@[j], s));
            }
            assert forall|j: int, s: usize|
                0 <= j < i + 1 && #[trigger] adjacent(area@[j], s) && alive_at(
                    cells@,
                    s,
                ) implies cells@[s as int] != color && touching by {
                if j == i {
                    assert(neighbors_of(p).contains(s));
                    let m = ns@.index_of(s);
                    assert(ns@[m] == s);
                }
            }
        }
        i = i + 1;
    }
    proof {
        assert forall|q: usize| #[trigger] inside.contains(q) implies cells@[q as int] == 0
            || cells@[q as int] == color by {
            assert(area@.to_set().contains(q));
            assert(cells@[area@[area@.index_of(q)] as int] == 0 || cells@[q as int] == color);
        }
        assert forall|q: usize, s: usize|
            inside.contains(q) && #[trigger] adjacent(q, s) && alive_at(
                cells@,
                s,
            ) implies cells@[s as int] != color && touching by {
            assert(area@.to_set().contains(q));
            assert(adjacent(area@[area@.index_of(q)], s));
        }
        if touching {
            let (j, s) = choose|j: int, s: usize|
                0 <= j < area@.len() && #[trigger] adjacent(area@[j], s) && alive_at(cells@, s);
            assert(area@.to_set().contains(area@[j]));
            assert(inside.contains(area@[j]) && adjacent(area@[j], s));
        }
    }
    touching
}

/// The undecided points connected to `start`.
fn undecided_around(safe: &[bool; 361], start: usize, Ghost(cells): Ghost<Seq<i8>>) -> (area: Vec<
    usize,
>)
    requires
        start < CELL_COUNT,
        !alive_at(cells, start),
        forall|p: usize| p < CELL_COUNT ==> #[trigger] safe@[p as int] == alive_at(cells, p),
    ensures
        area@ == fight_area(cells, start),
{
    let mut decided: [i8; 361] = [0; 361];
    let mut p: usize = 0;
    while p < CELL_COUNT
        invariant
            p <= CELL_COUNT,
            forall|q: usize|
                q < p ==> #[trigger] decided@[q as int] == (if safe@[q as int] {
                    1i8
                } else {
                    0i8
                }),
        decreases CELL_COUNT - p,
    {
        if safe[p] {
            decided[p] = 1;
        } else {
            decided[p] = 0;
        }
        p = p + 1;
    }
    proof {
        assert(points_with(decided@, 0) =~= undecided(cells)) by {
            assert forall|q: usize|
                points_with(decided@, 0).contains(q) <==> undecided(cells).contains(q) by {
                if q < CELL_COUNT {
                    assert(safe@[q as int] == alive_at(cells, q));
                    assert(decided@[q as int] == (if safe@[q as int] {
                        1i8
                    } else {
                        0i8
                    }));
                }
            }
        }
        assert(safe@[start as int] == alive_at(cells, start));
        assert(decided@[start as int] == 0);
    }
    flood(decided.as_slice(), start)
}

/// Whether the chain is proved dead.
fn check_dead(board: &Board, safe: &[bool; 361], start: usize) -> (dead: bool)
    requires
        board@.wf(),
        start < CELL_COUNT,
        !alive_at(board@.cells, start),
        forall|p: usize|
            p < CELL_COUNT ==> #[trigger] safe@[p as int] == alive_at(board@.cells, p),
    ensures
        dead == proved_dead(board@, start),
{
    let area: Vec<usize> = undecided_around(safe, start, Ghost(board@.cells));
    proof {
        lemma_walk_order(undecided(board@.cells), start);
    }
    if !check_enclosed(board.cells(), safe, &area) || area.len() > 8 {
        return false;
    }
    let defender: Player = side(board.cells()[start]);
    let mut budget: usize = 4000;
    let reading: Board = board.for_reading(defender);
    let found: Option<bool> = forced_capture(
        &reading,
        area.as_slice(),
        start,
        defender,
        area.len() * 2 + 4,
        &mut budget,
    );
    match found {
        Some(captured) => captured,
        None => false,
    }
}

/// The status of every chain, and the score without the dead ones.
pub fn analyze(board: &Board) -> (result: Analysis)
    requires
        board@.wf(),
    ensures
        result.lists(board@, chain_list(board@.cells).len()),
        result.score == settled_score(board@),
{
    let ghost list = chain_list(board@.cells);
    let groups: Vec<Chain> = chains(board.cells());
    proof {
        lemma_lists_chains(board@.cells, groups@);
    }
    let safe: [bool; 361] = pass_alive_with_chains(board.cells(), groups.as_slice());
    let mutual: Vec<bool> = simple_seki(board, &groups);
    let mut remaining: Vec<i8> = Vec::with_capacity(361);
    remaining.extend_from_slice(board.cells());
    let mut result = Analysis {
        alive: Vec::new(),
        seki: Vec::new(),
        dead: Vec::new(),
        unsettled: Vec::new(),
        score: 0,
    };
    proof {
        assert(remaining@ =~= without_dead_below(board@, 0));
        assert(move_lists(result.alive@) =~= Seq::<Seq<Move>>::empty());
        assert(move_lists(result.seki@) =~= Seq::<Seq<Move>>::empty());
        assert(move_lists(result.dead@) =~= Seq::<Seq<Move>>::empty());
        assert(move_lists(result.unsettled@) =~= Seq::<Seq<Move>>::empty());
    }
    let mut id: usize = 0;
    while id < groups.len()
        invariant
            board@.wf(),
            list == chain_list(board@.cells),
            lists_chains(board@.cells, groups@),
            mutual@.len() == groups@.len(),
            forall|k: int| 0 <= k < mutual@.len() ==> #[trigger] mutual@[k] == in_seki(board@, k),
            forall|p: usize|
                p < CELL_COUNT ==> #[trigger] safe@[p as int] == alive_at(board@.cells, p),
            id <= groups@.len(),
            result.lists(board@, id as nat),
            remaining@ == without_dead_below(board@, id as int),
        decreases groups@.len() - id,
    {
        let chain: &Chain = &groups[id];
        let first: usize = chain.stones[0];
        let moves: Vec<Move> = to_moves(&chain.stones);
        let ghost before = result;
        let ghost held = remaining@;
        assert(chain@ == list[id as int]);
        assert(chain_in_grid(board@.cells, *chain));
        if safe[first] {
            assert(status_of(board@, id as int) == Status::Alive);
            result.alive.push(moves);
            assert(move_lists(result.alive@) =~= move_lists(before.alive@).push(moves@));
        } else if mutual[id] {
            assert(status_of(board@, id as int) == Status::Seki);
            result.seki.push(moves);
            assert(move_lists(result.seki@) =~= move_lists(before.seki@).push(moves@));
        } else if check_dead(board, &safe, first) {
            assert(status_of(board@, id as int) == Status::Dead);
            let mut i: usize = 0;
            while i < chain.stones.len()
                invariant
                    i <= chain.stones@.len(),
                    remaining@.len() == CELL_COUNT,
                    held.len() == CELL_COUNT,
                    forall|j: int|
                        0 <= j < chain.stones@.len() ==> #[trigger] chain.stones@[j] < CELL_COUNT,
                    forall|p: int|
                        0 <= p < CELL_COUNT ==> #[trigger] remaining@[p] == (if exists|j: int|
                            0 <= j < i && #[trigger] chain.stones@[j] == p {
                            0i8
                        } else {
                            held[p]
                        }),
                decreases chain.stones@.len() - i,
            {
                let ghost marked = remaining@;
                remaining.set(chain.stones[i], 0);
                proof {
                    assert forall|p: int| 0 <= p < CELL_COUNT implies #[trigger] remaining@[p] == (
                    if exists|j: int| 0 <= j < i + 1 && #[trigger] chain.stones@[j] == p {
                        0i8
                    } else {
                        held[p]
                    }) by {
                        if p == chain.stones@[i as int] {
                            assert(chain.stones@[i as int] == p);
                        } else {
                            assert(remaining@[p] == marked[p]);
                        }
                    }
                }
                i = i + 1;
            }
            result.dead.push(moves);
            assert(move_lists(result.dead@) =~= move_lists(before.dead@).push(moves@));
        } else {
            assert(status_of(board@, id as int) == Status::Unsettled);
            result.unsettled.push(moves);
            assert(move_lists(result.unsettled@) =~= move_lists(before.unsettled@).push(moves@));
        }
        proof {
            let next = without_dead_below(board@, id + 1);
            assert forall|p: int| 0 <= p < CELL_COUNT implies #[trigger] remaining@[p]
                == next[p] by {
                let x = p as usize;
                assert(list[id as int].stones.contains(x) <==> exists|j: int|
                    0 <= j < chain.stones@.len() && #[trigger] chain.stones@[j] == p) by {
                    if list[id as int].stones.contains(x) {
                        let j = chain.stones@.index_of(x);
                        assert(chain.stones@[j] == p);
                    }
                    if exists|j: int| 0 <= j < chain.stones@.len() && #[trigger] chain.stones@[j] == p {
                        let j = choose|j: int|
                            0 <= j < chain.stones@.len() && #[trigger] chain.stones@[j] == p;
                        assert(list[id as int].stones[j] == x);
                    }
                }
                lemma_dead_step(board@, x, id as int);
                assert(held[p] == (if dead_stone(board@, x, id as int) {
                    0i8
                } else {
                    board@.cells[p]
                }));
            }
            assert(remaining@ =~= next);
        }
        id = id + 1;
    }
    proof {
        assert(remaining@ == without_dead(board@));
        assert forall|p: int| 0 <= p < CELL_COUNT implies -1 <= #[trigger] remaining@[p] <= 1 by {
            assert(-1 <= board@.cells[p] <= 1);
        }
    }
    result.score = area_score(remaining.as_slice()) as i64 * 1000 - board.komi() as i64;
    result
}

proof fn lemma_dead_step(board: BoardView, p: usize, id: int)
    requires
        0 <= id,
    ensures
        dead_stone(board, p, id + 1) <==> dead_stone(board, p, id) || (chain_list(
            board.cells,
        )[id].stones.contains(p) && status_of(board, id) == Status::Dead),
{
    if dead_stone(board, p, id + 1) {
        let k = choose|k: int|
            0 <= k < id + 1 && #[trigger] chain_list(board.cells)[k].stones.contains(p)
                && status_of(board, k) == Status::Dead;
        if k < id {
            assert(dead_stone(board, p, id));
        }
    }
    if dead_stone(board, p, id) {
        let k = choose|k: int|
            0 <= k < id && #[trigger] chain_list(board.cells)[k].stones.contains(p) && status_of(
                board,
                k,
            ) == Status::Dead;
        assert(chain_list(board.cells)[k].stones.contains(p));
    }
}

/// A chain that is called dead cannot be saved: the opponent takes it by
/// playing in its enclosed area alone, though its owner moves first.
pub proof fn law_dead_chains_cannot_be_saved(board: BoardView, id: int)
    requires
        status_of(board, id) == Status::Dead,
    ensures
        ({
            let first = chain_list(board.cells)[id].stones[0];
            let area = fight_area(board.cells, first);
            let defender = side_of(board.cells[first as int]);
            &&& enclosed(board.cells, first)
            &&& area.len() <= 8
            &&& board.reading(defender).to_move == defender
            &&& capture_forced(
                board.reading(defender),
                area,
                first,
                defender,
                (area.len() * 2 + 4) as nat,
            )
        }),
{
    let first = chain_list(board.cells)[id].stones[0];
    let area = fight_area(board.cells, first);
    let defender = side_of(board.cells[first as int]);
    law_reading_is_sound(
        board.reading(defender),
        area,
        first,
        defender,
        (area.len() * 2 + 4) as nat,
        4000,
    );
}

/// Stones that are not called dead stay on the board for counting: those in
/// seki and the unsettled ones too.
pub proof fn law_only_dead_stones_are_taken_off(board: BoardView, p: usize, id: int)
    requires
        p < CELL_COUNT,
        board.cells[p as int] != 0,
        0 <= id < chain_list(board.cells).len(),
        chain_list(board.cells)[id].stones.contains(p),
    ensures
        without_dead(board)[p as int] == (if status_of(board, id) == Status::Dead {
            0i8
        } else {
            board.cells[p as int]
        }),
{
    let list = chain_list(board.cells);
    let own = lemma_chain_of_stone(board.cells, p);
    if dead_stone(board, p, list.len() as int) {
        let k = choose|k: int|
            0 <= k < list.len() && #[trigger] list[k].stones.contains(p) && status_of(board, k)
                == Status::Dead;
        assert(k == own && id == own);
    }
}

/// The unconditionally alive stones stay on the board for counting.
pub proof fn law_live_stones_are_counted(board: BoardView, p: usize)
    requires
        board.wf(),
        p < CELL_COUNT,
        alive_at(board.cells, p),
    ensures
        without_dead(board)[p as int] == board.cells[p as int],
{
    let list = chain_list(board.cells);
    if dead_stone(board, p, list.len() as int) {
        let id = choose|id: int|
            0 <= id < list.len() && #[trigger] list[id].stones.contains(p) && status_of(board, id)
                == Status::Dead;
        lemma_chains_below(board.cells, CELL_COUNT as nat);
        let first = list[id].stones[0];
        lemma_chain_at(board.cells, first);
        assert(list[id] == chain_at(board.cells, first));
        let kept = choose|kept: Set<usize>| #[trigger]
            secure(board.cells, kept) && kept.contains(p);
        assert(same_component(board.cells, p).subset_of(kept));
        let area = points_with(board.cells, board.cells[first as int]);
        assert(same_component(board.cells, first).contains(p));
        lemma_component_of_member(area, first, p);
        lemma_component_basic(area, first);
        assert(kept.contains(first));
        assert(alive_at(board.cells, first));
    }
}

/// Every chain is in exactly one of the four lists: their lengths add up to
/// the number of chains.
pub proof fn law_each_chain_has_one_status(board: BoardView, n: nat)
    requires
        n <= chain_list(board.cells).len(),
    ensures
        with_status(board, Status::Alive, n).len() + with_status(board, Status::Seki, n).len()
            + with_status(board, Status::Dead, n).len() + with_status(
            board,
            Status::Unsettled,
            n,
        ).len() == n,
    decreases n,
{
    if n > 0 {
        law_each_chain_has_one_status(board, (n - 1) as nat);
    }
}

/// Who won, if the game is over: aborted games have no winner.
pub open spec fn outcome_of(board: BoardView) -> Option<Outcome> {
    if board.moves >= MAX_MOVES {
        Some(Outcome::Aborted)
    } else if board.passes < 2 {
        None
    } else if settled_score(board) > 0 {
        Some(Outcome::Win(Player::Black))
    } else if settled_score(board) < 0 {
        Some(Outcome::Win(Player::White))
    } else {
        Some(Outcome::Draw)
    }
}

/// With a komi that is no whole number of points no game is drawn.
pub proof fn law_half_points_decide_the_game(board: BoardView)
    requires
        board.komi_milli % 1000 != 0,
    ensures
        outcome_of(board) != Some(Outcome::Draw),
{
    let area = area_of(without_dead(board));
    if settled_score(board) == 0 {
        assert(board.komi_milli == area * 1000);
        assert((area * 1000) % 1000 == 0);
    }
}

impl Board {
    /// Black's margin in thousandths of a point, dead chains taken off.
    pub fn score(&self) -> (result: i64)
        requires
            self@.wf(),
        ensures
            result == settled_score(self@),
    {
        analyze(self).score
    }

    /// Black's margin in thousandths of a point with every stone standing.
    pub fn raw_score(&self) -> (result: i64)
        requires
            self@.wf(),
        ensures
            result == area_of(self@.cells) * 1000 - self@.komi_milli,
    {
        area_score(self.cells()) as i64 * 1000 - self.komi() as i64
    }

    pub fn outcome(&self) -> (result: Option<Outcome>)
        requires
            self@.wf(),
        ensures
            result == outcome_of(self@),
    {
        if self.move_count() >= MAX_MOVES {
            return Some(Outcome::Aborted);
        }
        if self.consecutive_passes() < 2 {
            return None;
        }
        let score: i64 = self.score();
        if score > 0 {
            Some(Outcome::Win(Player::Black))
        } else if score < 0 {
            Some(Outcome::Win(Player::White))
        } else {
            Some(Outcome::Draw)
        }
    }
}

} // verus!
