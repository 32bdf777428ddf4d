//! Exchanging the colors: every stone changes its color, the side to move
//! changes, and the komi changes its sign. The rules, life and death and the
//! count favor neither color.
use crate::benson::{alive_at, eye_of, region_of, secure, two_eyes};
use crate::chains::{
    chain_at, chain_list, chains_below, leads, lemma_chain_at, lemma_chains_below, ChainView,
};
use crate::features::{corner_counts, corner_hostile, eye_at, komi_value, plane_value};
use crate::game::{
    after_placement, captured_by, has_liberty, liberties_of, stone_down, valid_cells, BoardView,
    Move, Outcome, Player,
};
use crate::grid::{
    adjacent, component, lemma_component_basic, points_with, same_component, BOARD_SIZE, CELL_COUNT,
};
use crate::scoring::{
    area_below, area_of, dead_stone, enclosed, fight_area, fight_moves, fill_fails, in_seki,
    other_liberty, outcome_of, owner_of, proved_dead, read_capture, read_replies, sees, seki_pair,
    settled_score, side_of, status_of, touches_only, undecided, without_dead, Status,
};
use vstd::prelude::*;

verus! {

/// The cells with every stone in the other color.
pub open spec fn swapped(cells: Seq<i8>) -> Seq<i8> {
    Seq::new(cells.len(), |i: int| (-cells[i]) as i8)
}

impl BoardView {
    /// The board with the colors exchanged.
    pub open spec fn exchanged(self) -> BoardView {
        BoardView {
            cells: swapped(self.cells),
            to_move: self.to_move.opponent(),
            komi_milli: -self.komi_milli,
            previous: swapped(self.previous),
            history: self.history.map_values(|cells: Seq<i8>| swapped(cells)),
            ..self
        }
    }
}

proof fn lemma_swapped_valid(cells: Seq<i8>)
    requires
        valid_cells(cells),
    ensures
        valid_cells(swapped(cells)),
        swapped(swapped(cells)) == cells,
        forall|p: int| 0 <= p < CELL_COUNT ==> #[trigger] swapped(cells)[p] == -cells[p],
{
    assert forall|p: int| 0 <= p < CELL_COUNT implies #[trigger] swapped(cells)[p] == -cells[p] by {
        assert(-1 <= cells[p] <= 1);
    }
    assert(swapped(swapped(cells)) =~= cells) by {
        assert forall|p: int| 0 <= p < CELL_COUNT implies swapped(swapped(cells))[p]
            == cells[p] by {
            assert(swapped(cells)[p] == -cells[p]);
            assert(-1 <= cells[p] <= 1);
        }
    }
}

proof fn lemma_swapped_points(cells: Seq<i8>, value: i8)
    requires
        valid_cells(cells),
        -1 <= value <= 1,
    ensures
        points_with(swapped(cells), (-value) as i8) == points_with(cells, value),
{
    lemma_swapped_valid(cells);
    assert forall|p: usize|
        points_with(swapped(cells), (-value) as i8).contains(p) <==> points_with(
            cells,
            value,
        ).contains(p) by {
        if p < CELL_COUNT {
            assert(swapped(cells)[p as int] == -cells[p as int]);
        }
    }
    assert(points_with(swapped(cells), (-value) as i8) =~= points_with(cells, value));
}

proof fn lemma_swapped_groups(cells: Seq<i8>, p: usize)
    requires
        valid_cells(cells),
        p < CELL_COUNT,
    ensures
        same_component(swapped(cells), p) == same_component(cells, p),
        liberties_of(swapped(cells), p) == liberties_of(cells, p),
        has_liberty(swapped(cells), p) == has_liberty(cells, p),
{
    lemma_swapped_valid(cells);
    assert(-1 <= cells[p as int] <= 1);
    assert(swapped(cells)[p as int] == -cells[p as int]);
    lemma_swapped_points(cells, cells[p as int]);
    lemma_swapped_points(cells, 0);
    if has_liberty(cells, p) {
        let q = choose|q: usize| #[trigger] liberties_of(cells, p).contains(q);
        assert(liberties_of(swapped(cells), p).contains(q));
    }
    if has_liberty(swapped(cells), p) {
        let q = choose|q: usize| #[trigger] liberties_of(swapped(cells), p).contains(q);
        assert(liberties_of(cells, p).contains(q));
    }
}

proof fn lemma_swapped_down(cells: Seq<i8>, point: usize, player: Player)
    requires
        valid_cells(cells),
        point < CELL_COUNT,
    ensures
        stone_down(swapped(cells), point, player.opponent()) == swapped(
            stone_down(cells, point, player),
        ),
        valid_cells(stone_down(cells, point, player)),
{
    assert(stone_down(swapped(cells), point, player.opponent()) =~= swapped(
        stone_down(cells, point, player),
    ));
}

/// The same stones are captured, and the positions after it correspond.
proof fn lemma_swapped_after(cells: Seq<i8>, point: usize, player: Player)
    requires
        valid_cells(cells),
        point < CELL_COUNT,
    ensures
        captured_by(swapped(cells), point, player.opponent()) == captured_by(cells, point, player),
        after_placement(swapped(cells), point, player.opponent()) == swapped(
            after_placement(cells, point, player),
        ),
        valid_cells(after_placement(cells, point, player)),
{
    let down = stone_down(cells, point, player);
    let other = stone_down(swapped(cells), point, player.opponent());
    lemma_swapped_down(cells, point, player);
    lemma_swapped_valid(down);
    let a = captured_by(cells, point, player);
    let b = captured_by(swapped(cells), point, player.opponent());
    assert forall|q: usize| a.contains(q) <==> b.contains(q) by {
        if a.contains(q) {
            let n = choose|n: usize|
                {
                    &&& #[trigger] adjacent(point, n)
                    &&& down[n as int] == player.opponent().mark()
                    &&& !has_liberty(down, n)
                    &&& same_component(down, n).contains(q)
                };
            lemma_swapped_groups(down, n);
            assert(other[n as int] == -down[n as int]);
            assert(adjacent(point, n));
        }
        if b.contains(q) {
            let n = choose|n: usize|
                {
                    &&& #[trigger] adjacent(point, n)
                    &&& other[n as int] == player.opponent().opponent().mark()
                    &&& !has_liberty(other, n)
                    &&& same_component(other, n).contains(q)
                };
            lemma_swapped_groups(down, n);
            assert(other[n as int] == -down[n as int]);
            assert(adjacent(point, n));
        }
    }
    assert(a =~= b);
    assert(after_placement(swapped(cells), point, player.opponent()) =~= swapped(
        after_placement(cells, point, player),
    ));
}

proof fn lemma_swapped_placement(board: BoardView, point: usize, player: Player)
    requires
        board.wf(),
    ensures
        match board.placed(Move(point), player) {
            Some(after) => board.exchanged().placed(Move(point), player.opponent()) == Some(
                swapped(after),
            ) && valid_cells(after),
            None => board.exchanged().placed(Move(point), player.opponent()) is None,
        },
{
    if point < CELL_COUNT {
        lemma_swapped_valid(board.cells);
        assert(swapped(board.cells)[point as int] == -board.cells[point as int]);
        lemma_swapped_after(board.cells, point, player);
        let after = after_placement(board.cells, point, player);
        lemma_swapped_valid(after);
        lemma_swapped_groups(after, point);
        let past = board.history;
        let other = board.exchanged().history;
        if past.contains(after) {
            let i = past.index_of(after);
            assert(other[i] == swapped(after));
        }
        if other.contains(swapped(after)) {
            let i = other.index_of(swapped(after));
            assert(other[i] == swapped(past[i]));
            assert(valid_cells(past[i]));
            lemma_swapped_valid(past[i]);
            assert(past[i] == after);
        }
    }
}

/// An action is legal for one side if it is for the other with the colors
/// exchanged.
pub proof fn law_legality_favors_no_color(board: BoardView, mv: Move)
    requires
        board.wf(),
    ensures
        board.exchanged().legal(mv) == board.legal(mv),
{
    lemma_swapped_placement(board, mv.0, board.to_move);
}

/// Playing with the colors exchanged leads to the board with the colors
/// exchanged.
pub proof fn law_play_favors_no_color(board: BoardView, mv: Move)
    requires
        board.wf(),
        board.legal(mv),
    ensures
        board.exchanged().played(mv) == board.played(mv).exchanged(),
        board.played(mv).wf(),
{
    crate::game::law_play_keeps_the_board_valid(board, mv);
    lemma_swapped_placement(board, mv.0, board.to_move);
    let a = board.exchanged().played(mv);
    let b = board.played(mv).exchanged();
    assert(a.history =~= b.history);
    assert(a =~= b);
}

proof fn lemma_swapped_region(cells: Seq<i8>, r: usize)
    requires
        valid_cells(cells),
    ensures
        region_of(swapped(cells), r) == region_of(cells, r),
{
    lemma_swapped_points(cells, 0);
}

proof fn lemma_swapped_eye(cells: Seq<i8>, kept: Set<usize>, p: usize, r: usize)
    requires
        valid_cells(cells),
        p < CELL_COUNT,
        eye_of(cells, kept, p, r),
    ensures
        eye_of(swapped(cells), kept, p, r),
{
    lemma_swapped_valid(cells);
    lemma_swapped_region(cells, r);
    lemma_swapped_groups(cells, p);
    let other = swapped(cells);
    assert(other[r as int] == -cells[r as int]);
    assert(other[p as int] == -cells[p as int]);
    assert forall|q: usize, s: usize|
        region_of(other, r).contains(q) && #[trigger] adjacent(q, s) && other[s as int]
            != 0 implies kept.contains(s) && other[s as int] == other[p as int] by {
        assert(other[s as int] == -cells[s as int]);
        assert(region_of(cells, r).contains(q) && adjacent(q, s) && cells[s as int] != 0);
    }
}

proof fn lemma_swapped_secure(cells: Seq<i8>, kept: Set<usize>)
    requires
        valid_cells(cells),
        secure(cells, kept),
    ensures
        secure(swapped(cells), kept),
{
    lemma_swapped_valid(cells);
    let other = swapped(cells);
    assert forall|p: usize| #[trigger] kept.contains(p) implies {
        &&& p < CELL_COUNT
        &&& other[p as int] != 0
        &&& same_component(other, p).subset_of(kept)
        &&& two_eyes(other, kept, p)
    } by {
        lemma_swapped_groups(cells, p);
        assert(other[p as int] == -cells[p as int]);
        let (a, b) = choose|a: usize, b: usize|
            {
                &&& #[trigger] eye_of(cells, kept, p, a)
                &&& #[trigger] eye_of(cells, kept, p, b)
                &&& region_of(cells, a) != region_of(cells, b)
            };
        lemma_swapped_eye(cells, kept, p, a);
        lemma_swapped_eye(cells, kept, p, b);
        lemma_swapped_region(cells, a);
        lemma_swapped_region(cells, b);
        assert(eye_of(other, kept, p, a) && eye_of(other, kept, p, b));
    }
}

/// The same stones are unconditionally alive.
pub proof fn law_life_favors_no_color(cells: Seq<i8>, p: usize)
    requires
        valid_cells(cells),
    ensures
        alive_at(swapped(cells), p) == alive_at(cells, p),
{
    lemma_swapped_valid(cells);
    if alive_at(cells, p) {
        let kept = choose|kept: Set<usize>| #[trigger] secure(cells, kept) && kept.contains(p);
        lemma_swapped_secure(cells, kept);
    }
    if alive_at(swapped(cells), p) {
        let kept = choose|kept: Set<usize>| #[trigger]
            secure(swapped(cells), kept) && kept.contains(p);
        lemma_swapped_secure(swapped(cells), kept);
    }
}

proof fn lemma_swapped_sees(cells: Seq<i8>, r: usize, player: Player)
    requires
        valid_cells(cells),
        sees(cells, r, player),
    ensures
        sees(swapped(cells), r, player.opponent()),
{
    lemma_swapped_valid(cells);
    lemma_swapped_region(cells, r);
    let (q, s) = choose|q: usize, s: usize|
        region_of(cells, r).contains(q) && #[trigger] adjacent(q, s) && cells[s as int]
            == player.mark();
    assert(swapped(cells)[s as int] == -cells[s as int]);
    assert(region_of(swapped(cells), r).contains(q) && adjacent(q, s));
}

proof fn lemma_swapped_owner(cells: Seq<i8>, p: usize)
    requires
        valid_cells(cells),
        p < CELL_COUNT,
    ensures
        owner_of(swapped(cells), p) == -owner_of(cells, p),
{
    lemma_swapped_valid(cells);
    let other = swapped(cells);
    assert(other[p as int] == -cells[p as int]);
    if sees(cells, p, Player::Black) {
        lemma_swapped_sees(cells, p, Player::Black);
    }
    if sees(cells, p, Player::White) {
        lemma_swapped_sees(cells, p, Player::White);
    }
    if sees(other, p, Player::Black) {
        lemma_swapped_sees(other, p, Player::Black);
    }
    if sees(other, p, Player::White) {
        lemma_swapped_sees(other, p, Player::White);
    }
}

proof fn lemma_swapped_area(cells: Seq<i8>, n: nat)
    requires
        valid_cells(cells),
        n <= CELL_COUNT,
    ensures
        area_below(swapped(cells), n) == -area_below(cells, n),
    decreases n,
{
    if n > 0 {
        lemma_swapped_area(cells, (n - 1) as nat);
        lemma_swapped_owner(cells, (n - 1) as usize);
    }
}

/// Exchanging the colors changes the sign of the area: what counts for one
/// side counts as much for the other.
pub proof fn law_area_favors_no_color(cells: Seq<i8>, other: Seq<i8>)
    requires
        valid_cells(cells),
        other.len() == CELL_COUNT,
        forall|p: int| 0 <= p < CELL_COUNT ==> #[trigger] other[p] == -cells[p],
    ensures
        area_of(other) == -area_of(cells),
{
    lemma_swapped_valid(cells);
    assert(other =~= swapped(cells)) by {
        assert forall|p: int| 0 <= p < CELL_COUNT implies other[p] == swapped(cells)[p] by {
            assert(swapped(cells)[p] == -cells[p]);
        }
    }
    lemma_swapped_area(cells, CELL_COUNT as nat);
}

/// The chain in the other color.
pub open spec fn swapped_chain(chain: ChainView) -> ChainView {
    ChainView { color: (-chain.color) as i8, ..chain }
}

proof fn lemma_swapped_chain(cells: Seq<i8>, start: usize)
    requires
        valid_cells(cells),
        start < CELL_COUNT,
    ensures
        chain_at(swapped(cells), start) == swapped_chain(chain_at(cells, start)),
        leads(swapped(cells), start) == leads(cells, start),
{
    lemma_swapped_valid(cells);
    let other = swapped(cells);
    assert(-1 <= cells[start as int] <= 1);
    assert(other[start as int] == -cells[start as int]);
    lemma_swapped_points(cells, cells[start as int]);
    lemma_swapped_points(cells, 0);
    lemma_swapped_groups(cells, start);
}

proof fn lemma_swapped_chains(cells: Seq<i8>, n: nat)
    requires
        valid_cells(cells),
        n <= CELL_COUNT,
    ensures
        chains_below(swapped(cells), n).len() == chains_below(cells, n).len(),
        forall|i: int|
            0 <= i < chains_below(cells, n).len() ==> #[trigger] chains_below(swapped(cells), n)[i]
                == swapped_chain(chains_below(cells, n)[i]),
    decreases n,
{
    if n > 0 {
        lemma_swapped_chains(cells, (n - 1) as nat);
        lemma_swapped_chain(cells, (n - 1) as usize);
    }
}

/// The chains are the same but for their color.
pub proof fn law_chains_favor_no_color(cells: Seq<i8>, id: int)
    requires
        valid_cells(cells),
        0 <= id < chain_list(cells).len(),
    ensures
        chain_list(swapped(cells)).len() == chain_list(cells).len(),
        chain_list(swapped(cells))[id].stones == chain_list(cells)[id].stones,
        chain_list(swapped(cells))[id].liberties == chain_list(cells)[id].liberties,
        chain_list(swapped(cells))[id].color == -chain_list(cells)[id].color,
        -1 <= chain_list(cells)[id].color <= 1,
        chain_list(cells)[id].color != 0,
{
    lemma_swapped_chains(cells, CELL_COUNT as nat);
    lemma_chains_below(cells, CELL_COUNT as nat);
    let first = chain_list(cells)[id].stones[0];
    assert(chain_list(cells)[id] == chain_at(cells, first));
    assert(leads(cells, first));
    assert(-1 <= cells[first as int] <= 1);
    assert(chains_below(swapped(cells), CELL_COUNT as nat)[id] == swapped_chain(
        chains_below(cells, CELL_COUNT as nat)[id],
    ));
}

/// Reading a fight finds the same with the colors exchanged.
pub proof fn law_reading_favors_no_color(
    board: BoardView,
    region: Seq<usize>,
    target: usize,
    defender: Player,
    depth: nat,
    budget: nat,
)
    requires
        board.wf(),
        target < CELL_COUNT,
    ensures
        read_capture(board.exchanged(), region, target, defender.opponent(), depth, budget)
            == read_capture(board, region, target, defender, depth, budget),
    decreases depth, region.len() + 2,
{
    lemma_swapped_valid(board.cells);
    assert(swapped(board.cells)[target as int] == -board.cells[target as int]);
    if board.cells[target as int] == defender.mark() && board.passes < 2 && depth > 0 && budget
        > 0 {
        lemma_swapped_replies(board, region, target, defender, depth, 0, false, (budget - 1) as nat);
    }
}

proof fn lemma_swapped_replies(
    board: BoardView,
    region: Seq<usize>,
    target: usize,
    defender: Player,
    depth: nat,
    next: nat,
    unknown: bool,
    budget: nat,
)
    requires
        board.wf(),
        target < CELL_COUNT,
    ensures
        read_replies(
            board.exchanged(),
            region,
            target,
            defender.opponent(),
            depth,
            next,
            unknown,
            budget,
        ) == read_replies(board, region, target, defender, depth, next, unknown, budget),
    decreases depth, region.len() + 1 - next,
{
    if next <= region.len() && depth > 0 {
        let mv = fight_moves(region)[next as int];
        law_legality_favors_no_color(board, mv);
        if board.legal(mv) {
            law_play_favors_no_color(board, mv);
            law_reading_favors_no_color(
                board.played(mv),
                region,
                target,
                defender,
                (depth - 1) as nat,
                budget,
            );
            let (found, left) = read_capture(
                board.played(mv),
                region,
                target,
                defender,
                (depth - 1) as nat,
                budget,
            );
            lemma_swapped_replies(
                board,
                region,
                target,
                defender,
                depth,
                next + 1,
                unknown || found is None,
                left,
            );
        } else {
            lemma_swapped_replies(board, region, target, defender, depth, next + 1, unknown, budget);
        }
    }
}

proof fn lemma_exchanged_reading(board: BoardView, player: Player)
    requires
        board.wf(),
    ensures
        board.exchanged().reading(player.opponent()) == board.reading(player).exchanged(),
        board.reading(player).wf(),
{
    assert(board.exchanged().reading(player.opponent()) =~= board.reading(player).exchanged());
}

proof fn lemma_swapped_fill(board: BoardView, chain: ChainView, point: usize)
    requires
        board.wf(),
        chain.color == 1 || chain.color == -1,
        forall|i: int| 0 <= i < chain.stones.len() ==> #[trigger] chain.stones[i] < CELL_COUNT,
        chain.liberties.len() == 2,
        forall|i: int|
            0 <= i < chain.liberties.len() ==> #[trigger] chain.liberties[i] < CELL_COUNT,
    ensures
        fill_fails(board.exchanged(), swapped_chain(chain), point) == fill_fails(
            board,
            chain,
            point,
        ),
{
    let other = swapped_chain(chain);
    let player = side_of(chain.color);
    assert(side_of(other.color) == player.opponent());
    lemma_exchanged_reading(board, player);
    let start = board.reading(player);
    law_legality_favors_no_color(start, Move(point));
    if start.legal(Move(point)) {
        law_play_favors_no_color(start, Move(point));
        let filled = start.played(Move(point));
        let reply = Move(other_liberty(chain.liberties, point));
        law_legality_favors_no_color(filled, reply);
        if filled.legal(reply) {
            law_play_favors_no_color(filled, reply);
            let taken = filled.played(reply);
            lemma_swapped_valid(taken.cells);
            assert(chain.liberties[0] < CELL_COUNT && chain.liberties[1] < CELL_COUNT);
            lemma_swapped_groups(taken.cells, reply.0);
            let mirrored = taken.exchanged();
            assert(forall|i: int|
                0 <= i < chain.stones.len() ==> mirrored.cells[#[trigger] chain.stones[i] as int]
                    == -taken.cells[chain.stones[i] as int]);
            let gone = forall|i: int|
                0 <= i < chain.stones.len() ==> taken.cells[#[trigger] chain.stones[i] as int]
                    != chain.color;
            let left = forall|i: int|
                0 <= i < other.stones.len() ==> mirrored.cells[#[trigger] other.stones[i] as int]
                    != other.color;
            assert(other.color == -chain.color);
            if gone {
                assert forall|i: int|
                    0 <= i < other.stones.len() implies mirrored.cells[#[trigger] other.stones[i] as int]
                    != other.color by {
                    assert(other.stones[i] == chain.stones[i]);
                    assert(taken.cells[chain.stones[i] as int] != chain.color);
                }
            }
            if left {
                assert forall|i: int|
                    0 <= i < chain.stones.len() implies taken.cells[#[trigger] chain.stones[i] as int]
                    != chain.color by {
                    assert(other.stones[i] == chain.stones[i]);
                    assert(mirrored.cells[other.stones[i] as int] != other.color);
                }
            }
        }
    }
}

proof fn lemma_chain_points(cells: Seq<i8>, id: int)
    requires
        valid_cells(cells),
        0 <= id < chain_list(cells).len(),
    ensures
        ({
            let chain = chain_list(cells)[id];
            &&& chain.stones.len() > 0
            &&& chain.color == 1 || chain.color == -1
            &&& chain.color == cells[chain.stones[0] as int]
            &&& forall|i: int|
                0 <= i < chain.stones.len() ==> #[trigger] chain.stones[i] < CELL_COUNT
            &&& forall|i: int|
                0 <= i < chain.liberties.len() ==> #[trigger] chain.liberties[i] < CELL_COUNT
        }),
{
    lemma_chains_below(cells, CELL_COUNT as nat);
    let chain = chain_list(cells)[id];
    let first = chain.stones[0];
    assert(chain == chain_at(cells, first) && leads(cells, first));
    lemma_chain_at(cells, first);
    assert(-1 <= cells[first as int] <= 1);
    assert forall|i: int| 0 <= i < chain.stones.len() implies #[trigger] chain.stones[i]
        < CELL_COUNT by {
        assert(chain_at(cells, first).stones[i] < CELL_COUNT);
    }
    assert forall|i: int| 0 <= i < chain.liberties.len() implies #[trigger] chain.liberties[i]
        < CELL_COUNT by {
        assert(chain_at(cells, first).liberties[i] < CELL_COUNT);
    }
}

proof fn lemma_swapped_touches(cells: Seq<i8>, own: ChainView, other: ChainView)
    requires
        valid_cells(cells),
        -1 <= other.color <= 1,
        touches_only(cells, own, other),
    ensures
        touches_only(swapped(cells), swapped_chain(own), swapped_chain(other)),
{
    lemma_swapped_valid(cells);
    let (a, b) = (swapped_chain(own), swapped_chain(other));
    assert forall|i: int, n: usize|
        0 <= i < a.stones.len() && #[trigger] adjacent(a.stones[i], n) && swapped(cells)[n as int]
            == b.color implies b.stones.contains(n) by {
        assert(swapped(cells)[n as int] == -cells[n as int]);
        assert(adjacent(own.stones[i], n) && cells[n as int] == other.color);
    }
}

proof fn lemma_swapped_pair(board: BoardView, i: int, j: int)
    requires
        board.wf(),
        0 <= i < chain_list(board.cells).len(),
        0 <= j < chain_list(board.cells).len(),
    ensures
        seki_pair(
            board.exchanged(),
            swapped_chain(chain_list(board.cells)[i]),
            swapped_chain(chain_list(board.cells)[j]),
        ) == seki_pair(board, chain_list(board.cells)[i], chain_list(board.cells)[j]),
{
    let cells = board.cells;
    let other = swapped(cells);
    let a = chain_list(cells)[i];
    let b = chain_list(cells)[j];
    let (sa, sb) = (swapped_chain(a), swapped_chain(b));
    lemma_swapped_valid(cells);
    lemma_chain_points(cells, i);
    lemma_chain_points(cells, j);
    if touches_only(cells, a, b) {
        lemma_swapped_touches(cells, a, b);
    }
    if touches_only(cells, b, a) {
        lemma_swapped_touches(cells, b, a);
    }
    if touches_only(other, sa, sb) {
        lemma_swapped_touches(other, sa, sb);
        assert(swapped_chain(sa) =~= a && swapped_chain(sb) =~= b);
    }
    if touches_only(other, sb, sa) {
        lemma_swapped_touches(other, sb, sa);
        assert(swapped_chain(sa) =~= a && swapped_chain(sb) =~= b);
    }
    if a.liberties.len() == 2 && b.liberties.len() == 2 {
        assert forall|k: int| 0 <= k < a.liberties.len() implies fill_fails(
            board.exchanged(),
            sa,
            #[trigger] a.liberties[k],
        ) == fill_fails(board, a, a.liberties[k]) by {
            lemma_swapped_fill(board, a, a.liberties[k]);
        }
        assert forall|k: int| 0 <= k < b.liberties.len() implies fill_fails(
            board.exchanged(),
            sb,
            #[trigger] b.liberties[k],
        ) == fill_fails(board, b, b.liberties[k]) by {
            lemma_swapped_fill(board, b, b.liberties[k]);
        }
    }
}

/// The same chains are in seki.
pub proof fn law_seki_favors_no_color(board: BoardView, id: int)
    requires
        board.wf(),
        0 <= id < chain_list(board.cells).len(),
    ensures
        in_seki(board.exchanged(), id) == in_seki(board, id),
{
    let list = chain_list(board.cells);
    let other = chain_list(board.exchanged().cells);
    lemma_swapped_chains(board.cells, CELL_COUNT as nat);
    assert(forall|k: int|
        0 <= k < list.len() ==> #[trigger] other[k] == swapped_chain(list[k]));
    if in_seki(board, id) {
        let j = choose|j: int|
            0 <= j < list.len() && ((id < j && seki_pair(board, list[id], #[trigger] list[j])) || (j
                < id && seki_pair(board, list[j], list[id])));
        lemma_swapped_pair(board, id, j);
        lemma_swapped_pair(board, j, id);
        assert(other[j] == swapped_chain(list[j]));
    }
    if in_seki(board.exchanged(), id) {
        let j = choose|j: int|
            0 <= j < other.len() && ((id < j && seki_pair(
                board.exchanged(),
                other[id],
                #[trigger] other[j],
            )) || (j < id && seki_pair(board.exchanged(), other[j], other[id])));
        lemma_swapped_pair(board, id, j);
        lemma_swapped_pair(board, j, id);
        assert(list[j] == list[j]);
    }
}

proof fn lemma_swapped_undecided(cells: Seq<i8>)
    requires
        valid_cells(cells),
    ensures
        undecided(swapped(cells)) == undecided(cells),
{
    assert forall|p: usize|
        undecided(swapped(cells)).contains(p) <==> undecided(cells).contains(p) by {
        law_life_favors_no_color(cells, p);
    }
    assert(undecided(swapped(cells)) =~= undecided(cells));
}

proof fn lemma_swapped_enclosed(cells: Seq<i8>, start: usize)
    requires
        valid_cells(cells),
        start < CELL_COUNT,
        enclosed(cells, start),
    ensures
        enclosed(swapped(cells), start),
{
    let other = swapped(cells);
    lemma_swapped_valid(cells);
    lemma_swapped_undecided(cells);
    let area = component(undecided(cells), start);
    lemma_component_basic(undecided(cells), start);
    let (q, s) = choose|q: usize, s: usize|
        area.contains(q) && #[trigger] adjacent(q, s) && alive_at(cells, s);
    law_life_favors_no_color(cells, s);
    assert(area.contains(q) && adjacent(q, s) && alive_at(other, s));
    assert forall|q: usize, s: usize|
        area.contains(q) && #[trigger] adjacent(q, s) && alive_at(other, s) implies other[s as int]
        != other[start as int] by {
        law_life_favors_no_color(cells, s);
        assert(other[s as int] == -cells[s as int] && other[start as int] == -cells[start as int]);
    }
    assert forall|q: usize| #[trigger] area.contains(q) implies other[q as int] == 0
        || other[q as int] == other[start as int] by {
        assert(other[q as int] == -cells[q as int] && other[start as int] == -cells[start as int]);
    }
}

proof fn lemma_swapped_dead(board: BoardView, start: usize)
    requires
        board.wf(),
        start < CELL_COUNT,
        board.cells[start as int] != 0,
    ensures
        proved_dead(board.exchanged(), start) == proved_dead(board, start),
{
    let cells = board.cells;
    let other = swapped(cells);
    lemma_swapped_valid(cells);
    lemma_swapped_undecided(cells);
    if enclosed(cells, start) {
        lemma_swapped_enclosed(cells, start);
    }
    if enclosed(other, start) {
        lemma_swapped_enclosed(other, start);
    }
    let area = fight_area(cells, start);
    let defender = side_of(cells[start as int]);
    assert(-1 <= cells[start as int] <= 1);
    assert(other[start as int] == -cells[start as int]);
    assert(side_of(other[start as int]) == defender.opponent());
    lemma_exchanged_reading(board, defender);
    law_reading_favors_no_color(
        board.reading(defender),
        area,
        start,
        defender,
        (area.len() * 2 + 4) as nat,
        4000,
    );
}

/// Every chain has the same status, whichever color it has: the judgement of
/// life and death favors neither side.
pub proof fn law_status_favors_no_color(board: BoardView, id: int)
    requires
        board.wf(),
        0 <= id < chain_list(board.cells).len(),
    ensures
        status_of(board.exchanged(), id) == status_of(board, id),
{
    law_chains_favor_no_color(board.cells, id);
    lemma_chain_points(board.cells, id);
    let first = chain_list(board.cells)[id].stones[0];
    assert(first < CELL_COUNT);
    law_life_favors_no_color(board.cells, first);
    law_seki_favors_no_color(board, id);
    lemma_swapped_dead(board, first);
}

proof fn lemma_swapped_remains(board: BoardView)
    requires
        board.wf(),
    ensures
        without_dead(board.exchanged()) == swapped(without_dead(board)),
        valid_cells(without_dead(board)),
{
    let list = chain_list(board.cells);
    let other = chain_list(board.exchanged().cells);
    lemma_swapped_valid(board.cells);
    lemma_swapped_chains(board.cells, CELL_COUNT as nat);
    assert(forall|k: int|
        0 <= k < list.len() ==> #[trigger] other[k] == swapped_chain(list[k]));
    let n = list.len() as int;
    let a = without_dead(board.exchanged());
    let b = without_dead(board);
    assert forall|p: int| 0 <= p < CELL_COUNT implies a[p] == -b[p] && -1 <= b[p] <= 1 by {
        let x = p as usize;
        assert(-1 <= board.cells[p] <= 1);
        assert(swapped(board.cells)[p] == -board.cells[p]);
        if dead_stone(board, x, n) {
            let id = choose|id: int|
                0 <= id < n && #[trigger] list[id].stones.contains(x) && status_of(board, id)
                    == Status::Dead;
            law_status_favors_no_color(board, id);
            assert(other[id].stones.contains(x));
            assert(dead_stone(board.exchanged(), x, n));
        }
        if dead_stone(board.exchanged(), x, n) {
            let id = choose|id: int|
                0 <= id < n && #[trigger] other[id].stones.contains(x) && status_of(
                    board.exchanged(),
                    id,
                ) == Status::Dead;
            law_status_favors_no_color(board, id);
            assert(list[id].stones.contains(x));
            assert(dead_stone(board, x, n));
        }
    }
    lemma_swapped_valid(b);
    assert(a =~= swapped(b)) by {
        assert forall|p: int| 0 <= p < CELL_COUNT implies a[p] == swapped(b)[p] by {
            assert(swapped(b)[p] == -b[p]);
        }
    }
}

/// Exchanging the colors changes the sign of the score, and the winner.
pub proof fn law_the_score_favors_no_color(board: BoardView)
    requires
        board.wf(),
    ensures
        settled_score(board.exchanged()) == -settled_score(board),
        outcome_of(board.exchanged()) == (match outcome_of(board) {
            Some(Outcome::Win(player)) => Some(Outcome::Win(player.opponent())),
            ended => ended,
        }),
{
    lemma_swapped_remains(board);
    lemma_swapped_area(without_dead(board), CELL_COUNT as nat);
}

proof fn lemma_swapped_surroundings(cells: Seq<i8>, p: usize, player: Player)
    requires
        valid_cells(cells),
        p < CELL_COUNT,
        eye_at(cells, p, player),
    ensures
        eye_at(swapped(cells), p, player.opponent()),
{
    let other = swapped(cells);
    let (row, col) = (p as int / 19, p as int % 19);
    lemma_swapped_valid(cells);
    assert(other[p as int] == -cells[p as int]);
    assert forall|n: usize| #[trigger] adjacent(p, n) implies other[n as int]
        == player.opponent().mark() by {
        assert(other[n as int] == -cells[n as int]);
    }
    lemma_swapped_corner(cells, row - 1, col - 1, player);
    lemma_swapped_corner(cells, row - 1, col + 1, player);
    lemma_swapped_corner(cells, row + 1, col - 1, player);
    lemma_swapped_corner(cells, row + 1, col + 1, player);
}

proof fn lemma_swapped_corner(cells: Seq<i8>, row: int, col: int, player: Player)
    requires
        valid_cells(cells),
    ensures
        corner_hostile(swapped(cells), row, col, player.opponent()) == corner_hostile(
            cells,
            row,
            col,
            player,
        ),
{
    reveal(corner_hostile);
    reveal(corner_counts);
    lemma_swapped_valid(cells);
    if corner_counts(row, col) {
        assert(0 <= row * BOARD_SIZE + col < CELL_COUNT) by (nonlinear_arith)
            requires
                0 <= row < BOARD_SIZE,
                0 <= col < BOARD_SIZE,
                BOARD_SIZE == 19,
                CELL_COUNT == 361,
        ;
        assert(swapped(cells)[row * BOARD_SIZE + col] == -cells[row * BOARD_SIZE + col]);
    }
}

/// The network sees the same planes when the colors and its own side are
/// exchanged, and the same komi.
pub proof fn law_planes_favor_no_color(board: BoardView, perspective: Player, plane: int, p: usize)
    requires
        board.wf(),
        0 <= plane < 18,
        p < CELL_COUNT,
    ensures
        plane_value(board.exchanged(), perspective.opponent(), plane, p) == plane_value(
            board,
            perspective,
            plane,
            p,
        ),
        komi_value(board.exchanged(), perspective.opponent()) == komi_value(board, perspective),
{
    let cells = board.cells;
    let other = swapped(cells);
    lemma_swapped_valid(cells);
    lemma_swapped_valid(board.previous);
    assert(other[p as int] == -cells[p as int]);
    assert(swapped(board.previous)[p as int] == -board.previous[p as int]);
    assert(-1 <= cells[p as int] <= 1 && -1 <= board.previous[p as int] <= 1);
    lemma_swapped_groups(cells, p);
    law_life_favors_no_color(cells, p);
    lemma_swapped_placement(board, p, perspective);
    lemma_swapped_after(cells, p, perspective);
    if board.placed(Move(p), perspective) is Some {
        lemma_swapped_groups(board.placed(Move(p), perspective)->0, p);
    }
    let own = perspective;
    let rival = perspective.opponent();
    if eye_at(cells, p, own) {
        lemma_swapped_surroundings(cells, p, own);
    }
    if eye_at(cells, p, rival) {
        lemma_swapped_surroundings(cells, p, rival);
    }
    if eye_at(other, p, own) {
        lemma_swapped_surroundings(other, p, own);
    }
    if eye_at(other, p, rival) {
        lemma_swapped_surroundings(other, p, rival);
    }
}

} // verus!
