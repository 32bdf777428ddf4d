//! What the judgement of a position means on the board: whose points are
//! counted, who wins, which chains live, which are taken and which are in
//! seki.
use crate::benson::{alive_at, eye_of, region_of, secure, two_eyes};
use crate::chains::{chain_at, chain_list, leads, lemma_chain_at, lemma_chains_below, ChainView};
use crate::game::{liberties_of, valid_cells, BoardView, Move, Outcome, Player, MAX_MOVES};
use crate::grid::{
    adjacent, closed_within, component, lemma_adjacent_symmetric, lemma_component_basic,
    lemma_component_least, lemma_component_of_member, lemma_distinct_points, lemma_walk_order,
    points_with, same_component, CELL_COUNT,
};
use crate::scoring::{
    area_of, capture_forced, dead_stone, defence_holds, enclosed, fight_area, fight_moves,
    fill_fails, in_seki, law_fight_has_one_result, law_reading_is_sound, other_liberty, outcome_of,
    owner_of, proved_dead, read_capture, read_replies, sees, seki_pair, settled_score, side_of,
    status_of, touches_only, undecided, without_dead, Status,
};
use crate::symmetry::{lemma_owned, owned};
use vstd::prelude::*;

verus! {

/// A point that counts for the player: a stone of theirs stands on it, or it
/// is empty, and the stones around its empty region are theirs, and there are
/// some.
pub open spec fn counts_for(cells: Seq<i8>, p: usize, player: Player) -> bool {
    p < CELL_COUNT && (cells[p as int] == player.mark() || {
        &&& cells[p as int] == 0
        &&& exists|q: usize, s: usize|
            region_of(cells, p).contains(q) && #[trigger] adjacent(q, s) && cells[s as int]
                == player.mark()
        &&& forall|q: usize, s: usize|
            region_of(cells, p).contains(q) && #[trigger] adjacent(q, s) ==> cells[s as int]
                != player.opponent().mark()
    })
}

/// The points that count for the player.
pub open spec fn points_for(cells: Seq<i8>, player: Player) -> Set<usize> {
    Set::new(|p: usize| counts_for(cells, p, player))
}

proof fn lemma_counts(cells: Seq<i8>, p: usize, player: Player)
    requires
        valid_cells(cells),
        p < CELL_COUNT,
    ensures
        counts_for(cells, p, player) == (owner_of(cells, p) == player.mark()),
{
    assert(-1 <= cells[p as int] <= 1);
    let rival = player.opponent();
    if cells[p as int] == 0 {
        if sees(cells, p, rival) {
            let (q, s) = choose|q: usize, s: usize|
                region_of(cells, p).contains(q) && #[trigger] adjacent(q, s) && cells[s as int]
                    == rival.mark();
            assert(adjacent(q, s));
        }
        if sees(cells, p, player) {
            let (q, s) = choose|q: usize, s: usize|
                region_of(cells, p).contains(q) && #[trigger] adjacent(q, s) && cells[s as int]
                    == player.mark();
            assert(adjacent(q, s));
        }
    }
}

/// The area is the number of Black's points less that of White's: stones, and
/// the empty points that one side alone surrounds. No point counts twice.
pub proof fn law_area_counts_points(cells: Seq<i8>)
    requires
        valid_cells(cells),
    ensures
        points_for(cells, Player::Black).finite(),
        points_for(cells, Player::White).finite(),
        points_for(cells, Player::Black).disjoint(points_for(cells, Player::White)),
        area_of(cells) == points_for(cells, Player::Black).len() - points_for(
            cells,
            Player::White,
        ).len(),
{
    lemma_owned(cells, CELL_COUNT as nat);
    let black = owned(cells, 1, CELL_COUNT as nat);
    let white = owned(cells, -1, CELL_COUNT as nat);
    assert forall|p: usize| black.contains(p) <==> points_for(cells, Player::Black).contains(p) by {
        if p < CELL_COUNT {
            lemma_counts(cells, p, Player::Black);
        }
    }
    assert forall|p: usize| white.contains(p) <==> points_for(cells, Player::White).contains(p) by {
        if p < CELL_COUNT {
            lemma_counts(cells, p, Player::White);
        }
    }
    assert(black =~= points_for(cells, Player::Black));
    assert(white =~= points_for(cells, Player::White));
}

/// How many points a player has more than the opponent once the dead chains
/// are off the board, in thousandths, with the komi on White's side.
pub open spec fn lead_of(board: BoardView, player: Player) -> int {
    let cells = without_dead(board);
    let points = points_for(cells, player).len() - points_for(cells, player.opponent()).len();
    points * 1000 + (match player {
        Player::Black => -board.komi_milli,
        Player::White => board.komi_milli,
    })
}

/// The score is Black's lead.
pub proof fn law_settled_score_is_the_lead(board: BoardView)
    requires
        board.wf(),
    ensures
        settled_score(board) == lead_of(board, Player::Black),
        settled_score(board) == -lead_of(board, Player::White),
{
    let cells = without_dead(board);
    assert forall|p: int| 0 <= p < CELL_COUNT implies -1 <= #[trigger] cells[p] <= 1 by {
        assert(-1 <= board.cells[p] <= 1);
    }
    law_area_counts_points(cells);
}

/// What one side leads by the other trails by.
pub proof fn law_leads_are_opposed(board: BoardView, player: Player)
    ensures
        lead_of(board, player.opponent()) == -lead_of(board, player),
{
}

/// The winner has the greater number of points, komi included; a game is drawn
/// if both have as many. A game that is too long has no winner, and one in
/// which nobody or one side alone has passed is not over.
pub proof fn law_the_winner_has_more_points(board: BoardView, player: Player)
    requires
        board.wf(),
    ensures
        outcome_of(board) == Some(Outcome::Win(player)) <==> board.moves < MAX_MOVES
            && board.passes >= 2 && lead_of(board, player) > 0,
        outcome_of(board) == Some(Outcome::Draw) <==> board.moves < MAX_MOVES && board.passes >= 2
            && lead_of(board, player) == 0,
        outcome_of(board) == Some(Outcome::Aborted) <==> board.moves >= MAX_MOVES,
        outcome_of(board) is None <==> board.moves < MAX_MOVES && board.passes < 2,
{
    law_settled_score_is_the_lead(board);
}

/// More visited boards than any reading so deep needs.
pub open spec fn enough(actions: nat, depth: nat) -> nat
    decreases depth,
{
    if depth == 0 {
        0
    } else {
        1 + actions * enough(actions, (depth - 1) as nat)
    }
}

/// The fight after the action in a place, as the attacker or the defender
/// would have it.
spec fn good_for(
    attacker: bool,
    board: BoardView,
    region: Seq<usize>,
    target: usize,
    defender: Player,
    depth: nat,
    i: int,
) -> bool {
    if attacker {
        capture_forced(
            board.played(fight_moves(region)[i]),
            region,
            target,
            defender,
            (depth - 1) as nat,
        )
    } else {
        defence_holds(
            board.played(fight_moves(region)[i]),
            region,
            target,
            defender,
            (depth - 1) as nat,
        )
    }
}

/// Reading with enough budget finds a capture if and only if the attacker can
/// force it so soon, and a defence if and only if it holds.
pub proof fn law_full_reading_is_exact(
    board: BoardView,
    region: Seq<usize>,
    target: usize,
    defender: Player,
    depth: nat,
    budget: nat,
)
    requires
        budget >= enough(region.len() + 1, depth),
    ensures
        read_capture(board, region, target, defender, depth, budget).0 == Some(true)
            <==> capture_forced(board, region, target, defender, depth),
        read_capture(board, region, target, defender, depth, budget).0 == Some(false)
            <==> defence_holds(board, region, target, defender, depth),
        read_capture(board, region, target, defender, depth, budget).1 + enough(
            region.len() + 1,
            depth,
        ) >= budget,
    decreases depth, region.len() + 2,
{
    law_reading_is_sound(board, region, target, defender, depth, budget);
    law_fight_has_one_result(board, region, target, defender, depth);
    if board.cells[target as int] == defender.mark() && board.passes < 2 && depth > 0 {
        let attacking = board.to_move != defender;
        lemma_replies_exact(
            board,
            region,
            target,
            defender,
            depth,
            0,
            false,
            (budget - 1) as nat,
        );
    }
}

proof fn lemma_replies_exact(
    board: BoardView,
    region: Seq<usize>,
    target: usize,
    defender: Player,
    depth: nat,
    next: nat,
    unknown: bool,
    budget: nat,
)
    requires
        board.cells[target as int] == defender.mark(),
        board.passes < 2,
        depth > 0,
        next <= region.len() + 1,
        budget >= (region.len() + 1 - next) * enough(region.len() + 1, (depth - 1) as nat),
        forall|i: int|
            0 <= i < next && board.legal(#[trigger] fight_moves(region)[i]) ==> !good_for(
                board.to_move != defender,
                board,
                region,
                target,
                defender,
                depth,
                i,
            ),
        unknown ==> exists|i: int|
            0 <= i < next && board.legal(#[trigger] fight_moves(region)[i]) && !good_for(
                board.to_move == defender,
                board,
                region,
                target,
                defender,
                depth,
                i,
            ),
    ensures
        ({
            let attacking = board.to_move != defender;
            let result = read_replies(
                board,
                region,
                target,
                defender,
                depth,
                next,
                unknown,
                budget,
            );
            &&& (exists|i: int|
                0 <= i <= region.len() && board.legal(#[trigger] fight_moves(region)[i])
                    && good_for(attacking, board, region, target, defender, depth, i)) ==> result.0
                == Some(attacking)
            &&& (forall|i: int|
                0 <= i <= region.len() && board.legal(#[trigger] fight_moves(region)[i])
                    ==> good_for(!attacking, board, region, target, defender, depth, i))
                ==> result.0 == Some(!attacking)
            &&& result.1 + (region.len() + 1 - next) * enough(
                region.len() + 1,
                (depth - 1) as nat,
            ) >= budget
        }),
    decreases depth, region.len() + 1 - next,
{
    let attacking = board.to_move != defender;
    let less = (depth - 1) as nat;
    let share = enough(region.len() + 1, less) as int;
    let rest = region.len() + 1 - next;
    if next <= region.len() {
        assert(rest * share == share + (rest - 1) * share) by (nonlinear_arith);
        assert((rest - 1) * share >= 0) by (nonlinear_arith)
            requires
                rest >= 1,
                share >= 0,
        ;
        let mv = fight_moves(region)[next as int];
        if board.legal(mv) {
            let child = board.played(mv);
            law_full_reading_is_exact(child, region, target, defender, less, budget);
            law_fight_has_one_result(child, region, target, defender, less);
            let (found, left) = read_capture(child, region, target, defender, less, budget);
            if found == Some(attacking) {
                assert(good_for(attacking, board, region, target, defender, depth, next as int));
            } else {
                assert(!good_for(attacking, board, region, target, defender, depth, next as int));
                if found is None {
                    assert(!good_for(
                        !attacking,
                        board,
                        region,
                        target,
                        defender,
                        depth,
                        next as int,
                    ));
                }
                if unknown {
                    let i = choose|i: int|
                        0 <= i < next && board.legal(#[trigger] fight_moves(region)[i])
                            && !good_for(
                            board.to_move == defender,
                            board,
                            region,
                            target,
                            defender,
                            depth,
                            i,
                        );
                    assert(board.legal(fight_moves(region)[i]));
                }
                lemma_replies_exact(
                    board,
                    region,
                    target,
                    defender,
                    depth,
                    next + 1,
                    unknown || found is None,
                    left,
                );
            }
        } else {
            if unknown {
                let i = choose|i: int|
                    0 <= i < next && board.legal(#[trigger] fight_moves(region)[i]) && !good_for(
                        board.to_move == defender,
                        board,
                        region,
                        target,
                        defender,
                        depth,
                        i,
                    );
                assert(board.legal(fight_moves(region)[i]));
            }
            lemma_replies_exact(
                board,
                region,
                target,
                defender,
                depth,
                next + 1,
                unknown,
                budget,
            );
        }
    } else {
        assert(rest * share == 0) by (nonlinear_arith)
            requires
                rest == 0,
        ;
    }
}

/// The points around a stone up to the unconditionally alive stones.
pub open spec fn surroundings(cells: Seq<i8>, start: usize) -> Set<usize> {
    component(Set::new(|p: usize| p < CELL_COUNT && !alive_at(cells, p)), start)
}

/// The surroundings of a stone end at living stones of the opponent, at one at
/// least and at none of its own color, and hold no stone of the opponent.
pub open spec fn shut_in(cells: Seq<i8>, start: usize, owner: Player) -> bool {
    let inside = surroundings(cells, start);
    &&& exists|q: usize, s: usize|
        inside.contains(q) && #[trigger] adjacent(q, s) && alive_at(cells, s)
    &&& forall|q: usize, s: usize|
        inside.contains(q) && #[trigger] adjacent(q, s) && alive_at(cells, s) ==> cells[s as int]
            != owner.mark()
    &&& forall|q: usize| #[trigger]
        inside.contains(q) ==> cells[q as int] != owner.opponent().mark()
}

proof fn lemma_small_budget(n: nat)
    requires
        n <= 2,
    ensures
        enough(n + 1, (n * 2 + 4) as nat) <= 4000,
{
    if n == 0 {
        assert(enough(1, 0) == 0);
        assert(enough(1, 1) == 1);
        assert(enough(1, 2) == 2);
        assert(enough(1, 3) == 3);
        assert(enough(1, 4) == 4);
    } else if n == 1 {
        assert(enough(2, 0) == 0);
        assert(enough(2, 1) == 1);
        assert(enough(2, 2) == 3);
        assert(enough(2, 3) == 7);
        assert(enough(2, 4) == 15);
        assert(enough(2, 5) == 31);
        assert(enough(2, 6) == 63);
    } else {
        assert(enough(3, 0) == 0);
        assert(enough(3, 1) == 1);
        assert(enough(3, 2) == 4);
        assert(enough(3, 3) == 13);
        assert(enough(3, 4) == 40);
        assert(enough(3, 5) == 121);
        assert(enough(3, 6) == 364);
        assert(enough(3, 7) == 1093);
        assert(enough(3, 8) == 3280);
    }
}

proof fn lemma_shut_in(cells: Seq<i8>, start: usize, owner: Player)
    requires
        valid_cells(cells),
        start < CELL_COUNT,
        cells[start as int] == owner.mark(),
    ensures
        shut_in(cells, start, owner) == enclosed(cells, start),
        surroundings(cells, start) == component(undecided(cells), start),
{
    assert(undecided(cells) =~= Set::new(|p: usize| p < CELL_COUNT && !alive_at(cells, p)));
    let inside = surroundings(cells, start);
    lemma_component_basic(undecided(cells), start);
    assert(forall|q: usize| #[trigger]
        inside.contains(q) ==> q < CELL_COUNT && -1 <= cells[q as int] <= 1);
}

/// A chain that is shut in on at most eight points, and that the opponent can
/// take though its owner moves first, is called dead, whichever color it has,
/// if reading came to an end; on one or two points it always does. Only chains
/// in seki are called otherwise.
pub proof fn law_forced_captures_are_dead(board: BoardView, id: int, owner: Player)
    requires
        board.wf(),
        0 <= id < chain_list(board.cells).len(),
        ({
            let first = chain_list(board.cells)[id].stones[0];
            let area = fight_area(board.cells, first);
            &&& board.cells[first as int] == owner.mark()
            &&& !alive_at(board.cells, first)
            &&& shut_in(board.cells, first, owner)
            &&& area.len() <= 8
            &&& capture_forced(
                board.reading(owner),
                area,
                first,
                owner,
                (area.len() * 2 + 4) as nat,
            )
            &&& area.len() <= 2 || read_capture(
                board.reading(owner),
                area,
                first,
                owner,
                (area.len() * 2 + 4) as nat,
                4000,
            ).0 is Some
        }),
    ensures
        status_of(board, id) == (if in_seki(board, id) {
            Status::Seki
        } else {
            Status::Dead
        }),
{
    let first = chain_list(board.cells)[id].stones[0];
    lemma_chains_below(board.cells, CELL_COUNT as nat);
    assert(leads(board.cells, first));
    assert(side_of(board.cells[first as int]) == owner);
    let area = fight_area(board.cells, first);
    let depth = (area.len() * 2 + 4) as nat;
    lemma_shut_in(board.cells, first, owner);
    law_reading_is_sound(board.reading(owner), area, first, owner, depth, 4000);
    law_fight_has_one_result(board.reading(owner), area, first, owner, depth);
    if area.len() <= 2 {
        lemma_small_budget(area.len());
        law_full_reading_is_exact(board.reading(owner), area, first, owner, depth, 4000);
    }
    let found = read_capture(board.reading(owner), area, first, owner, depth, 4000).0;
    assert(found == Some(true)) by {
        match found {
            Some(captured) => {
                assert(captured);
            },
            None => {},
        }
    }
    assert(proved_dead(board, first));
}

/// A chain that the opponent cannot take in its surroundings, or that is not
/// shut in by living stones, is never called dead.
pub proof fn law_chains_that_hold_are_not_dead(board: BoardView, id: int, owner: Player)
    requires
        board.wf(),
        0 <= id < chain_list(board.cells).len(),
        board.cells[chain_list(board.cells)[id].stones[0] as int] == owner.mark(),
    ensures
        ({
            let first = chain_list(board.cells)[id].stones[0];
            let area = fight_area(board.cells, first);
            status_of(board, id) == Status::Dead ==> {
                &&& !alive_at(board.cells, first)
                &&& shut_in(board.cells, first, owner)
                &&& area.to_set() == surroundings(board.cells, first)
                &&& surroundings(board.cells, first).len() <= 8
                &&& capture_forced(
                    board.reading(owner),
                    area,
                    first,
                    owner,
                    (area.len() * 2 + 4) as nat,
                )
            }
        }),
{
    let first = chain_list(board.cells)[id].stones[0];
    lemma_chains_below(board.cells, CELL_COUNT as nat);
    assert(leads(board.cells, first));
    assert(side_of(board.cells[first as int]) == owner);
    let area = fight_area(board.cells, first);
    lemma_shut_in(board.cells, first, owner);
    if status_of(board, id) == Status::Dead {
        law_reading_is_sound(
            board.reading(owner),
            area,
            first,
            owner,
            (area.len() * 2 + 4) as nat,
            4000,
        );
        lemma_walk_order(undecided(board.cells), first);
        lemma_distinct_points(area);
    }
}

/// A point all of whose neighbors belong to the chain of `p`.
pub open spec fn point_eye(cells: Seq<i8>, p: usize, eye: usize) -> bool {
    &&& eye < CELL_COUNT
    &&& cells[eye as int] == 0
    &&& forall|n: usize| #[trigger] adjacent(eye, n) ==> same_component(cells, p).contains(n)
}

proof fn lemma_point_eye(cells: Seq<i8>, p: usize, eye: usize)
    requires
        p < CELL_COUNT,
        cells[p as int] != 0,
        point_eye(cells, p, eye),
    ensures
        region_of(cells, eye) == Set::<usize>::empty().insert(eye),
        eye_of(cells, same_component(cells, p), p, eye),
{
    let one = Set::<usize>::empty().insert(eye);
    let empties = points_with(cells, 0);
    let chain = same_component(cells, p);
    lemma_component_basic(points_with(cells, cells[p as int]), p);
    lemma_component_basic(empties, eye);
    assert(closed_within(empties, one));
    lemma_component_least(empties, eye, one);
    assert(region_of(cells, eye) =~= one);
    let n: usize = if eye >= 19 {
        (eye - 19) as usize
    } else {
        (eye + 19) as usize
    };
    assert(adjacent(eye, n));
    lemma_adjacent_symmetric(eye, n);
    assert(chain.contains(n) && adjacent(n, eye));
    assert(liberties_of(cells, p).contains(eye));
}

/// A chain with two eyes of one point each is unconditionally alive, whichever
/// color it has.
pub proof fn law_two_eyes_live(cells: Seq<i8>, p: usize, a: usize, b: usize)
    requires
        p < CELL_COUNT,
        cells[p as int] != 0,
        a != b,
        point_eye(cells, p, a),
        point_eye(cells, p, b),
    ensures
        alive_at(cells, p),
{
    let chain = same_component(cells, p);
    let area = points_with(cells, cells[p as int]);
    lemma_component_basic(area, p);
    assert forall|s: usize| #[trigger] chain.contains(s) implies {
        &&& s < CELL_COUNT
        &&& cells[s as int] != 0
        &&& same_component(cells, s).subset_of(chain)
        &&& two_eyes(cells, chain, s)
    } by {
        lemma_component_of_member(area, p, s);
        assert(cells[s as int] == cells[p as int]);
        assert(same_component(cells, s) == chain);
        assert(point_eye(cells, s, a) && point_eye(cells, s, b));
        lemma_point_eye(cells, s, a);
        lemma_point_eye(cells, s, b);
        assert(region_of(cells, a).contains(a) && !region_of(cells, b).contains(a));
        assert(eye_of(cells, chain, s, a) && eye_of(cells, chain, s, b));
    }
    assert(secure(cells, chain));
}

/// An unconditionally alive chain has two regions of its own: every point of
/// them is its liberty, and no stone of the opponent is next to them.
pub proof fn law_living_chains_have_two_eyes(cells: Seq<i8>, p: usize)
    requires
        valid_cells(cells),
        alive_at(cells, p),
    ensures
        p < CELL_COUNT,
        cells[p as int] != 0,
        exists|a: usize, b: usize|
            {
                &&& #[trigger] own_region(cells, p, a)
                &&& #[trigger] own_region(cells, p, b)
                &&& !region_of(cells, a).contains(b)
            },
{
    let kept = choose|kept: Set<usize>| #[trigger] secure(cells, kept) && kept.contains(p);
    assert(two_eyes(cells, kept, p));
    let (a, b) = choose|a: usize, b: usize|
        {
            &&& #[trigger] eye_of(cells, kept, p, a)
            &&& #[trigger] eye_of(cells, kept, p, b)
            &&& region_of(cells, a) != region_of(cells, b)
        };
    let empties = points_with(cells, 0);
    assert(own_region(cells, p, a)) by {
        lemma_own_region(cells, kept, p, a);
    }
    assert(own_region(cells, p, b)) by {
        lemma_own_region(cells, kept, p, b);
    }
    if region_of(cells, a).contains(b) {
        lemma_component_of_member(empties, a, b);
    }
}

/// The empty region of `r` is full of liberties of the chain of `p`, and the
/// stones around it have its color.
pub open spec fn own_region(cells: Seq<i8>, p: usize, r: usize) -> bool {
    &&& r < CELL_COUNT
    &&& cells[r as int] == 0
    &&& forall|q: usize| #[trigger]
        region_of(cells, r).contains(q) ==> exists|s: usize|
            same_component(cells, p).contains(s) && #[trigger] adjacent(s, q)
    &&& forall|q: usize, s: usize|
        region_of(cells, r).contains(q) && #[trigger] adjacent(q, s) ==> cells[s as int] == 0
            || cells[s as int] == cells[p as int]
}

proof fn lemma_own_region(cells: Seq<i8>, kept: Set<usize>, p: usize, r: usize)
    requires
        eye_of(cells, kept, p, r),
    ensures
        own_region(cells, p, r),
{
    assert forall|q: usize| #[trigger] region_of(cells, r).contains(q) implies exists|s: usize|
        same_component(cells, p).contains(s) && #[trigger] adjacent(s, q) by {
        assert(liberties_of(cells, p).contains(q));
    }
}

/// The owner of the stones loses them by filling the liberty `fill`: the
/// opponent answers on `reply`, takes them all, and then has two liberties at
/// least. Or the owner may not play there at all.
pub open spec fn filling_loses(
    board: BoardView,
    owner: Player,
    stones: Seq<usize>,
    fill: usize,
    reply: usize,
) -> bool {
    let before = board.reading(owner);
    let filled = before.played(Move(fill));
    let taken = filled.played(Move(reply));
    before.legal(Move(fill)) ==> {
        &&& filled.legal(Move(reply))
        &&& forall|i: int|
            0 <= i < stones.len() ==> taken.cells[#[trigger] stones[i] as int] != owner.mark()
        &&& liberties_of(taken.cells, reply).len() >= 2
    }
}

/// Stones of the opponent next to these belong to the other chain.
pub open spec fn only_touches(
    cells: Seq<i8>,
    stones: Seq<usize>,
    rival: Player,
    others: Seq<usize>,
) -> bool {
    forall|i: int, n: usize|
        0 <= i < stones.len() && #[trigger] adjacent(stones[i], n) && cells[n as int]
            == rival.mark() ==> others.contains(n)
}

/// Two chains of different color touch each other and no other chain of the
/// other's color, and `x` and `y` are the two liberties that both have and all
/// that they have; neither side can fill one without losing its stones.
pub open spec fn stand_off(
    board: BoardView,
    a: ChainView,
    b: ChainView,
    owner: Player,
    x: usize,
    y: usize,
) -> bool {
    &&& x != y
    &&& a.color == owner.mark()
    &&& b.color == owner.opponent().mark()
    &&& a.liberties == seq![x, y]
    &&& b.liberties.len() == 2
    &&& b.liberties.contains(x)
    &&& b.liberties.contains(y)
    &&& only_touches(board.cells, a.stones, owner.opponent(), b.stones)
    &&& only_touches(board.cells, b.stones, owner, a.stones)
    &&& filling_loses(board, owner, a.stones, x, y)
    &&& filling_loses(board, owner, a.stones, y, x)
    &&& filling_loses(board, owner.opponent(), b.stones, x, y)
    &&& filling_loses(board, owner.opponent(), b.stones, y, x)
}

proof fn lemma_stand_off(board: BoardView, i: int, j: int, owner: Player, x: usize, y: usize)
    requires
        board.wf(),
        0 <= i < chain_list(board.cells).len(),
        0 <= j < chain_list(board.cells).len(),
        chain_list(board.cells)[i].color == owner.mark(),
        chain_list(board.cells)[i].liberties == seq![x, y],
    ensures
        stand_off(board, chain_list(board.cells)[i], chain_list(board.cells)[j], owner, x, y)
            == seki_pair(board, chain_list(board.cells)[i], chain_list(board.cells)[j]),
{
    let a = chain_list(board.cells)[i];
    let b = chain_list(board.cells)[j];
    lemma_chains_below(board.cells, CELL_COUNT as nat);
    let first = a.stones[0];
    assert(a == chain_at(board.cells, first));
    lemma_chain_at(board.cells, first);
    assert(a.liberties.no_duplicates());
    assert(a.liberties[0] == x && a.liberties[1] == y);
    assert(x != y);
    let other = b.stones[0];
    assert(b == chain_at(board.cells, other) && leads(board.cells, other));
    lemma_chain_at(board.cells, other);
    assert(-1 <= board.cells[other as int] <= 1);
    assert(b.liberties.no_duplicates());
    assert(side_of(a.color) == owner);
    if b.color != a.color && b.liberties.len() == 2 && b.liberties.contains(x)
        && b.liberties.contains(y) {
        assert(b.color == owner.opponent().mark());
        assert(side_of(b.color) == owner.opponent());
        let (m, n) = (b.liberties[0], b.liberties[1]);
        assert(m != n);
        assert((m == x && n == y) || (m == y && n == x));
        assert(other_liberty(a.liberties, x) == y && other_liberty(a.liberties, y) == x);
        assert(other_liberty(b.liberties, x) == y && other_liberty(b.liberties, y) == x);
        assert(fill_fails(board, a, x) == filling_loses(board, owner, a.stones, x, y));
        assert(fill_fails(board, a, y) == filling_loses(board, owner, a.stones, y, x));
        assert(fill_fails(board, b, x) == filling_loses(board, owner.opponent(), b.stones, x, y));
        assert(fill_fails(board, b, y) == filling_loses(board, owner.opponent(), b.stones, y, x));
        assert((forall|k: int|
            0 <= k < a.liberties.len() ==> fill_fails(board, a, #[trigger] a.liberties[k])) == (
        fill_fails(board, a, x) && fill_fails(board, a, y))) by {
            assert(a.liberties[0] == x && a.liberties[1] == y);
        }
        assert((forall|k: int|
            0 <= k < b.liberties.len() ==> fill_fails(board, b, #[trigger] b.liberties[k])) == (
        fill_fails(board, b, x) && fill_fails(board, b, y))) by {
            assert(b.liberties[0] == m && b.liberties[1] == n);
        }
        assert(touches_only(board.cells, a, b) == only_touches(
            board.cells,
            a.stones,
            owner.opponent(),
            b.stones,
        ));
        assert(touches_only(board.cells, b, a) == only_touches(
            board.cells,
            b.stones,
            owner,
            a.stones,
        ));
    } else if seki_pair(board, a, b) {
        assert(b.liberties.contains(a.liberties[0]) && b.liberties.contains(a.liberties[1]));
        assert(false);
    }
}

/// Two chains that stand off each other on their two common liberties are in
/// seki, both of them, and are called so unless they live without it.
pub proof fn law_stand_offs_are_seki(
    board: BoardView,
    i: int,
    j: int,
    owner: Player,
    x: usize,
    y: usize,
)
    requires
        board.wf(),
        0 <= i < j < chain_list(board.cells).len(),
        stand_off(board, chain_list(board.cells)[i], chain_list(board.cells)[j], owner, x, y),
    ensures
        !alive_at(board.cells, chain_list(board.cells)[i].stones[0]) ==> status_of(board, i)
            == Status::Seki,
        !alive_at(board.cells, chain_list(board.cells)[j].stones[0]) ==> status_of(board, j)
            == Status::Seki,
{
    lemma_stand_off(board, i, j, owner, x, y);
    let list = chain_list(board.cells);
    assert(seki_pair(board, list[i], list[j]));
    assert(in_seki(board, i));
    assert(in_seki(board, j));
}

/// A chain that is called a seki stands off a chain of the other color.
pub proof fn law_sekis_are_stand_offs(board: BoardView, id: int)
    requires
        board.wf(),
        0 <= id < chain_list(board.cells).len(),
        status_of(board, id) == Status::Seki,
    ensures
        !alive_at(board.cells, chain_list(board.cells)[id].stones[0]),
        exists|i: int, j: int, owner: Player, x: usize, y: usize|
            {
                &&& 0 <= i < j < chain_list(board.cells).len()
                &&& i == id || j == id
                &&& #[trigger] stand_off(
                    board,
                    chain_list(board.cells)[i],
                    chain_list(board.cells)[j],
                    owner,
                    x,
                    y,
                )
            },
{
    let list = chain_list(board.cells);
    let k = choose|k: int|
        0 <= k < list.len() && ((id < k && seki_pair(board, list[id], #[trigger] list[k])) || (k
            < id && seki_pair(board, list[k], list[id])));
    let (i, j) = if id < k {
        (id, k)
    } else {
        (k, id)
    };
    lemma_chains_below(board.cells, CELL_COUNT as nat);
    let first = list[i].stones[0];
    assert(list[i] == chain_at(board.cells, first) && leads(board.cells, first));
    assert(-1 <= board.cells[first as int] <= 1);
    let owner = if list[i].color == 1 {
        Player::Black
    } else {
        Player::White
    };
    let x = list[i].liberties[0];
    let y = list[i].liberties[1];
    assert(list[i].liberties =~= seq![x, y]);
    lemma_stand_off(board, i, j, owner, x, y);
    assert(stand_off(board, list[i], list[j], owner, x, y));
}

/// What a chain comes to depends on the stones and the positions before, not
/// on whose turn it is, how many moves were played or who has passed: so the
/// score is the same.
pub proof fn law_judgements_do_not_depend_on_the_turn(
    board: BoardView,
    to_move: Player,
    moves: nat,
    passes: nat,
    id: int,
)
    ensures
        ({
            let other = BoardView { to_move, moves, passes, ..board };
            &&& status_of(other, id) == status_of(board, id)
            &&& without_dead(other) == without_dead(board)
            &&& settled_score(other) == settled_score(board)
        }),
{
    let other = BoardView { to_move, moves, passes, ..board };
    lemma_same_reading(board, to_move, moves, passes);
    let n = chain_list(board.cells).len() as int;
    assert forall|i: int| #[trigger] status_of(other, i) == status_of(board, i) by {
        lemma_same_status(board, to_move, moves, passes, i);
    }
    assert forall|p: usize| #[trigger] dead_stone(other, p, n) == dead_stone(board, p, n) by {
        if dead_stone(board, p, n) {
            let i = choose|i: int|
                0 <= i < n && #[trigger] chain_list(board.cells)[i].stones.contains(p)
                    && status_of(board, i) == Status::Dead;
            assert(chain_list(other.cells)[i].stones.contains(p) && status_of(other, i)
                == Status::Dead);
        }
        if dead_stone(other, p, n) {
            let i = choose|i: int|
                0 <= i < n && #[trigger] chain_list(other.cells)[i].stones.contains(p)
                    && status_of(other, i) == Status::Dead;
            assert(chain_list(board.cells)[i].stones.contains(p) && status_of(board, i)
                == Status::Dead);
        }
    }
    assert(without_dead(other) =~= without_dead(board));
}

proof fn lemma_same_reading(board: BoardView, to_move: Player, moves: nat, passes: nat)
    ensures
        forall|player: Player| #[trigger]
            (BoardView { to_move, moves, passes, ..board }).reading(player) == board.reading(
                player,
            ),
{
}

proof fn lemma_same_status(board: BoardView, to_move: Player, moves: nat, passes: nat, id: int)
    ensures
        status_of(BoardView { to_move, moves, passes, ..board }, id) == status_of(board, id),
{
    let other = BoardView { to_move, moves, passes, ..board };
    lemma_same_reading(board, to_move, moves, passes);
    let list = chain_list(board.cells);
    assert forall|a: ChainView, b: ChainView| #[trigger]
        seki_pair(other, a, b) == seki_pair(board, a, b) by {
        assert forall|c: ChainView, point: usize| #[trigger]
            fill_fails(other, c, point) == fill_fails(board, c, point) by {
            assert(other.reading(side_of(c.color)) == board.reading(side_of(c.color)));
        }
        if seki_pair(board, a, b) {
            assert forall|i: int| 0 <= i < a.liberties.len() implies fill_fails(
                other,
                a,
                #[trigger] a.liberties[i],
            ) by {
                assert(fill_fails(board, a, a.liberties[i]));
            }
            assert forall|i: int| 0 <= i < b.liberties.len() implies fill_fails(
                other,
                b,
                #[trigger] b.liberties[i],
            ) by {
                assert(fill_fails(board, b, b.liberties[i]));
            }
        }
        if seki_pair(other, a, b) {
            assert forall|i: int| 0 <= i < a.liberties.len() implies fill_fails(
                board,
                a,
                #[trigger] a.liberties[i],
            ) by {
                assert(fill_fails(other, a, a.liberties[i]));
            }
            assert forall|i: int| 0 <= i < b.liberties.len() implies fill_fails(
                board,
                b,
                #[trigger] b.liberties[i],
            ) by {
                assert(fill_fails(other, b, b.liberties[i]));
            }
        }
    }
    assert(in_seki(other, id) == in_seki(board, id)) by {
        if in_seki(board, id) {
            let j = choose|j: int|
                0 <= j < list.len() && ((id < j && seki_pair(board, list[id], #[trigger] list[j]))
                    || (j < id && seki_pair(board, list[j], list[id])));
            assert(seki_pair(other, list[id], list[j]) == seki_pair(board, list[id], list[j]));
            assert(seki_pair(other, list[j], list[id]) == seki_pair(board, list[j], list[id]));
        }
        if in_seki(other, id) {
            let j = choose|j: int|
                0 <= j < list.len() && ((id < j && seki_pair(other, list[id], #[trigger] list[j]))
                    || (j < id && seki_pair(other, list[j], list[id])));
            assert(seki_pair(other, list[id], list[j]) == seki_pair(board, list[id], list[j]));
            assert(seki_pair(other, list[j], list[id]) == seki_pair(board, list[j], list[id]));
        }
    }
    let first = list[id].stones[0];
    assert(other.reading(side_of(board.cells[first as int])) == board.reading(
        side_of(board.cells[first as int]),
    ));
}

/// Every stone next to the empty region of `r` is in the set.
pub open spec fn bounded_by(cells: Seq<i8>, kept: Set<usize>, r: usize) -> bool {
    forall|q: usize, s: usize|
        region_of(cells, r).contains(q) && #[trigger] adjacent(q, s) && cells[s as int] != 0
            ==> kept.contains(s)
}

/// Two different regions of the chain of `p`, bounded by the set.
pub open spec fn two_regions_in(cells: Seq<i8>, kept: Set<usize>, p: usize) -> bool {
    exists|a: usize, b: usize|
        {
            &&& #[trigger] own_region(cells, p, a)
            &&& #[trigger] own_region(cells, p, b)
            &&& !region_of(cells, a).contains(b)
            &&& bounded_by(cells, kept, a)
            &&& bounded_by(cells, kept, b)
        }
}

/// Chains that have two regions of their own each, of any size, live together
/// if the stones around these regions are theirs.
pub proof fn law_chains_that_share_eyes_live(cells: Seq<i8>, kept: Set<usize>, p: usize)
    requires
        kept.contains(p),
        forall|s: usize| #[trigger]
            kept.contains(s) ==> s < CELL_COUNT && cells[s as int] != 0 && same_component(
                cells,
                s,
            ).subset_of(kept) && two_regions_in(cells, kept, s),
    ensures
        alive_at(cells, p),
{
    let empties = points_with(cells, 0);
    assert forall|s: usize| #[trigger] kept.contains(s) implies two_eyes(cells, kept, s) by {
        let (a, b) = choose|a: usize, b: usize|
            {
                &&& #[trigger] own_region(cells, s, a)
                &&& #[trigger] own_region(cells, s, b)
                &&& !region_of(cells, a).contains(b)
                &&& bounded_by(cells, kept, a)
                &&& bounded_by(cells, kept, b)
            };
        lemma_region_is_eye(cells, kept, s, a);
        lemma_region_is_eye(cells, kept, s, b);
        lemma_component_basic(empties, b);
        assert(region_of(cells, b).contains(b));
        assert(eye_of(cells, kept, s, a) && eye_of(cells, kept, s, b));
    }
    assert(secure(cells, kept));
}

proof fn lemma_region_is_eye(cells: Seq<i8>, kept: Set<usize>, p: usize, r: usize)
    requires
        own_region(cells, p, r),
        bounded_by(cells, kept, r),
    ensures
        eye_of(cells, kept, p, r),
{
    let empties = points_with(cells, 0);
    lemma_component_basic(empties, r);
    assert forall|q: usize| #[trigger] region_of(cells, r).contains(q) implies liberties_of(
        cells,
        p,
    ).contains(q) by {
        assert(empties.contains(q));
        let s = choose|s: usize|
            same_component(cells, p).contains(s) && #[trigger] adjacent(s, q);
        assert(adjacent(s, q));
    }
}

} // verus!
