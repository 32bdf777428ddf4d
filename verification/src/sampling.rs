//! How samples are drawn, shuffled, turned and read.
use crate::distill::{
    bit_at, file_rank, kept_below, mass_below, plane_count, points_to_data, row_accepted, rows_read,
    shapes_verdict, side_of, spells, stones_of, targets_below, top_below, weight_of, ShapeError,
    Shapes, TeacherRow,
};
use crate::game::{BoardView, Move, Player, ACTION_COUNT};
use crate::gomocup::board_of;
use crate::grid::CELL_COUNT;
use crate::moves::{law_legal_moves_are_complete, legal_moves, lemma_legal_listed};
use crate::pipeline::begins_with;
use crate::replay::{
    ascending, image_policy, loaded, newest, oldest_recent, places, reason_of, slot_at,
    snapshot_magic, sums_below, unshuffled_kinds, SampleView, SnapshotError, WeightedSource,
};
use crate::rng::{
    law_shuffle_keeps_entries, mixed, opening_from, place_among, shuffle_of, state_after, GOLDEN,
};
use crate::scoring::outcome_of;
use crate::symmetry::law_legality_commutes_with_symmetry;
use crate::text::{decimal, law_decimals_are_read_as_numbers};
use crate::tournament::law_boards_hold_their_stones;
use vstd::prelude::*;

verus! {

/// No generation is above the newest, and the newest is there.
pub proof fn law_the_newest_generation_is_the_greatest(generations: Seq<u64>, i: int)
    requires
        0 <= i < generations.len(),
    ensures
        generations[i] <= newest(generations),
        generations.contains(newest(generations)),
    decreases generations.len(),
{
    let rest = generations.drop_last();
    assert(generations[generations.len() - 1] == generations.last());
    if rest.len() > 0 {
        law_the_newest_generation_is_the_greatest(
            rest,
            if i < rest.len() {
                i
            } else {
                0
            },
        );
        if rest.contains(newest(rest)) {
            let j = rest.index_of(newest(rest));
            assert(generations[j] == newest(rest));
        }
        if i < rest.len() {
            assert(rest[i] == generations[i]);
        }
    } else {
        assert(newest(rest) == 0);
    }
}

/// A generation is recent if it is one of the last so many up to the newest;
/// the newest always is.
pub proof fn law_recent_generations_are_the_last(generations: Seq<u64>, updates: u64, g: u64)
    requires
        g <= newest(generations),
    ensures
        ({
            let span: int = if updates == 0 {
                1
            } else {
                updates as int
            };
            g >= oldest_recent(generations, updates) <==> g + span > newest(generations)
        }),
        newest(generations) >= oldest_recent(generations, updates),
        oldest_recent(generations, updates) >= 0,
{
}

/// The places of a pool are parted into recent and older ones, each place in
/// one list once, in order.
pub proof fn law_a_pool_is_parted_by_age(
    generations: Seq<u64>,
    bound: int,
    recent: bool,
    n: nat,
    p: usize,
)
    requires
        n <= generations.len() <= usize::MAX,
    ensures
        places(generations, bound, recent, n).contains(p) <==> p < n && (recent
            <==> generations[p as int] >= bound),
        forall|i: int, j: int|
            0 <= i < j < places(generations, bound, recent, n).len() ==> #[trigger] places(
                generations,
                bound,
                recent,
                n,
            )[i] < #[trigger] places(generations, bound, recent, n)[j],
        forall|i: int|
            0 <= i < places(generations, bound, recent, n).len() ==> #[trigger] places(
                generations,
                bound,
                recent,
                n,
            )[i] < n,
    decreases n,
{
    if n > 0 {
        let before = places(generations, bound, recent, (n - 1) as nat);
        let all = places(generations, bound, recent, n);
        let last = (n - 1) as usize;
        law_a_pool_is_parted_by_age(generations, bound, recent, (n - 1) as nat, p);
        if (generations[n - 1] >= bound) == recent {
            assert(all == before.push(last));
            if before.contains(p) {
                assert(all[before.index_of(p)] == p);
            }
            if p == last {
                assert(all[before.len() as int] == p);
            }
            if all.contains(p) {
                let i = all.index_of(p);
                if i < before.len() {
                    assert(before[i] == p);
                }
            }
        }
    }
}

proof fn lemma_kind_counts(count: nat, policy_quota: nat, value_quota: nat, n: nat)
    requires
        n <= count,
    ensures
        ({
            let kinds = unshuffled_kinds(count, policy_quota, value_quota).take(n as int);
            &&& kinds.to_multiset().count(1u8) == (if n < policy_quota {
                n
            } else {
                policy_quota
            })
            &&& kinds.to_multiset().count(1u8) + kinds.to_multiset().count(2u8) == (if n
                < policy_quota + value_quota {
                n
            } else {
                policy_quota + value_quota
            })
            &&& kinds.to_multiset().count(0u8) + kinds.to_multiset().count(1u8)
                + kinds.to_multiset().count(2u8) == n
        }),
    decreases n,
{
    broadcast use vstd::seq_lib::group_to_multiset_ensures;

    let all = unshuffled_kinds(count, policy_quota, value_quota);
    if n > 0 {
        lemma_kind_counts(count, policy_quota, value_quota, (n - 1) as nat);
        assert(all.take(n as int) =~= all.take(n - 1).push(all[n - 1]));
    } else {
        assert(all.take(0) =~= Seq::<u8>::empty());
    }
}

/// Of the slots of a batch as many pick by the policy's surprise as its quota
/// says, and as many of the rest by the value's, as far as there are slots;
/// the others pick evenly, whatever the seed.
pub proof fn law_slots_meet_the_quotas(
    count: nat,
    policy_quota: nat,
    value_quota: nat,
    seed: u64,
)
    requires
        policy_quota + value_quota <= count <= usize::MAX,
    ensures
        ({
            let kinds = shuffle_of(unshuffled_kinds(count, policy_quota, value_quota), seed);
            &&& kinds.to_multiset().count(1u8) == policy_quota
            &&& kinds.to_multiset().count(2u8) == value_quota
            &&& kinds.to_multiset().count(0u8) == count - policy_quota - value_quota
        }),
{
    let all = unshuffled_kinds(count, policy_quota, value_quota);
    lemma_kind_counts(count, policy_quota, value_quota, count);
    assert(all.take(count as int) =~= all);
    if count > 0 {
        law_shuffle_keeps_entries(all, (count - 1) as nat, seed);
    }
}

/// A slot is filled from the recent samples up to the quota, and beyond it
/// only if there are no others; it is turned by one of eight symmetries. Two
/// slots that follow each other are drawn by words that do.
pub proof fn law_slots_are_filled_by_age(
    count: nat,
    recent_quota: nat,
    history: bool,
    kinds: Seq<u8>,
    seed: u64,
    i: int,
)
    requires
        0 <= i < count,
    ensures
        ({
            let slot = slot_at(count, recent_quota, history, kinds, seed, i);
            &&& i < recent_quota ==> slot.recent
            &&& history && i >= recent_quota ==> !slot.recent
            &&& !history ==> slot.recent
            &&& slot.symmetry < 8
            &&& slot.kind == kinds[i]
        }),
{
}

/// The sums at most the draw stand before the others.
pub proof fn law_draws_find_the_first_sum_above(cdf: Seq<u32>, draw: u32, i: int)
    requires
        ascending(cdf),
        0 <= i < cdf.len(),
    ensures
        sums_below(cdf, draw) <= cdf.len(),
        i < sums_below(cdf, draw) <==> cdf[i] <= draw,
    decreases cdf.len(),
{
    let rest = cdf.drop_last();
    if cdf.last() > draw {
        assert(cdf[cdf.len() - 1] == cdf.last());
        assert(ascending(rest)) by {
            assert forall|a: int, b: int| 0 <= a <= b < rest.len() implies rest[a] <= rest[b] by {
                assert(cdf[a] <= cdf[b]);
            }
        }
        lemma_sums_len(rest, draw);
        if i < rest.len() {
            law_draws_find_the_first_sum_above(rest, draw, i);
        }
    } else {
        assert(cdf[i] <= cdf[cdf.len() - 1]);
    }
}

proof fn lemma_sums_len(cdf: Seq<u32>, draw: u32)
    ensures
        sums_below(cdf, draw) <= cdf.len(),
    decreases cdf.len(),
{
    if cdf.len() > 0 && cdf.last() > draw {
        lemma_sums_len(cdf.drop_last(), draw);
    }
}

/// A slot that picks by a surprise picks the first sample whose sum of that
/// surprise is above the draw, and the last if none is.
pub proof fn law_surprises_pick_by_their_sums(
    source: WeightedSource,
    kind: u8,
    word: u64,
    draw: u32,
    i: int,
)
    requires
        source.wf(),
        kind == 1 || kind == 2,
        0 <= i < source.indices@.len(),
    ensures
        ({
            let sums = if kind == 1 {
                source.policy_cdf@
            } else {
                source.value_cdf@
            };
            let at = source.position(kind, word, draw);
            &&& 0 <= at < sums.len()
            &&& i < at ==> sums[i] <= draw
            &&& at < sums.len() - 1 ==> sums[at] > draw
            &&& sums[i] > draw ==> sums[at] > draw && at <= i
        }),
{
    let sums = if kind == 1 {
        source.policy_cdf@
    } else {
        source.value_cdf@
    };
    let at = source.position(kind, word, draw);
    lemma_sums_len(sums, draw);
    law_draws_find_the_first_sum_above(sums, draw, i);
    law_draws_find_the_first_sum_above(sums, draw, at);
}

/// A turned policy has the same weights in the same order, on the points that
/// the symmetry gives: what was legal stays legal.
pub proof fn law_turned_policies_keep_their_weights(
    board: BoardView,
    policy: Seq<(Move, u32)>,
    symmetry: usize,
    i: int,
)
    requires
        board.wf(),
        0 <= i < policy.len(),
        policy[i].0.0 < ACTION_COUNT,
    ensures
        image_policy(policy, symmetry).len() == policy.len(),
        image_policy(policy, symmetry)[i].1 == policy[i].1,
        board.imaged(symmetry).legal(image_policy(policy, symmetry)[i].0) == board.legal(
            policy[i].0,
        ),
{
    law_legality_commutes_with_symmetry(board, policy[i].0, symmetry);
}

/// Each refusal of a snapshot has words of its own.
pub proof fn law_refusals_are_told_apart(a: SnapshotError, b: SnapshotError)
    requires
        reason_of(a) == reason_of(b),
    ensures
        a == b,
{
    reveal_strlit(" 文件不完整");
    reveal_strlit(" 不是 GO19RP01 二进制快照；");
    reveal_strlit(" 压缩帧损坏");
    reveal_strlit(" 缺少样本数量");
    reveal_strlit(" 样本数量无效");
    reveal_strlit(" 样本不完整");
    reveal_strlit(" 需要合法的 19×19 盘面");
    reveal_strlit(" 包含多余数据");
    assert(" 文件不完整"@[1] == '文');
    assert(" 不是 GO19RP01 二进制快照；"@[1] == '不');
    assert(reason_of(SnapshotError::NotSnapshot)[1] == '不');
    assert(" 压缩帧损坏"@[1] == '压');
    assert(" 缺少样本数量"@[1] == '缺');
    assert(" 样本数量无效"@[1] == '样' && " 样本数量无效"@[3] == '数');
    assert(" 样本不完整"@[1] == '样' && " 样本不完整"@[3] == '不');
    assert(" 需要合法的 19×19 盘面"@[1] == '需');
    assert(" 包含多余数据"@[1] == '包');
}

/// Every place can be drawn, no word draws a place that is not there, and
/// words that are a whole number of lists apart draw the same place.
pub proof fn law_every_place_can_be_drawn(p: usize, len: usize)
    requires
        p < len,
        p + len <= usize::MAX,
    ensures
        place_among(p as u64, len) == p,
        place_among((p + len) as u64, len) == p,
        place_among(p as u64, 0) == 0,
{
    vstd::arithmetic::div_mod::lemma_small_mod(p as nat, len as nat);
    vstd::arithmetic::div_mod::lemma_mod_add_multiples_vanish(p as int, len as int);
}

/// Drawing goes on where it stopped.
pub proof fn law_drawing_goes_on(seed: u64, m: nat, n: nat)
    ensures
        state_after(seed, m + n) == state_after(state_after(seed, m), n),
        state_after(seed, 1) == seed.wrapping_add(GOLDEN),
    decreases n,
{
    reveal_with_fuel(state_after, 2);
    if n > 0 {
        law_drawing_goes_on(seed, m, (n - 1) as nat);
        assert((m + n - 1) as nat == m + (n - 1) as nat);
    }
}

/// A random opening plays as many legal actions as asked for, unless there
/// are no more, and keeps the komi.
pub proof fn law_openings_are_played(board: BoardView, seed: u64, plies: nat)
    ensures
        ({
            let end = opening_from(board, seed, plies);
            &&& board.moves <= end.moves <= board.moves + plies
            &&& end.moves < board.moves + plies ==> legal_moves(end).len() == 0
            &&& end.komi_milli == board.komi_milli
            &&& plies == 1 && legal_moves(board).len() > 0 ==> exists|mv: Move| #[trigger]
                board.legal(mv) && end == board.played(mv)
        }),
    decreases plies,
{
    reveal_with_fuel(opening_from, 2);
    let legal = legal_moves(board);
    if plies > 0 && legal.len() > 0 {
        let next = seed.wrapping_add(GOLDEN);
        let k = place_among(mixed(next), legal.len() as usize);
        lemma_legal_count(board);
        lemma_legal_listed(board, ACTION_COUNT as nat, k as int);
        assert(board.legal(legal[k as int]));
        law_openings_are_played(board.played(legal[k as int]), next, (plies - 1) as nat);
    }
}

proof fn lemma_legal_count(board: BoardView)
    ensures
        legal_moves(board).len() <= ACTION_COUNT,
{
    lemma_legal_below_len(board, ACTION_COUNT as nat);
}

proof fn lemma_legal_below_len(board: BoardView, n: nat)
    ensures
        crate::moves::legal_below(board, n).len() <= n,
    decreases n,
{
    if n > 0 {
        lemma_legal_below_len(board, (n - 1) as nat);
    }
}

/// What a bit of a byte is worth.
pub open spec fn worth(set: bool, weight: int) -> int {
    if set {
        weight
    } else {
        0
    }
}

/// The bits of eight cells make up their byte, the first cell the highest.
pub proof fn law_bytes_hold_eight_cells(row: Seq<u8>, packed: int, plane: int, byte: int)
    requires
        byte >= 0,
    ensures
        row[plane * packed + byte] == worth(bit_at(row, packed, plane, 8 * byte), 128) + worth(
            bit_at(row, packed, plane, 8 * byte + 1),
            64,
        ) + worth(bit_at(row, packed, plane, 8 * byte + 2), 32) + worth(
            bit_at(row, packed, plane, 8 * byte + 3),
            16,
        ) + worth(bit_at(row, packed, plane, 8 * byte + 4), 8) + worth(
            bit_at(row, packed, plane, 8 * byte + 5),
            4,
        ) + worth(bit_at(row, packed, plane, 8 * byte + 6), 2) + worth(
            bit_at(row, packed, plane, 8 * byte + 7),
            1,
        ),
{
    let b = row[plane * packed + byte];
    assert(b == ((b >> 7u8) & 1) * 128 + ((b >> 6u8) & 1) * 64 + ((b >> 5u8) & 1) * 32 + ((b >> 4u8)
        & 1) * 16 + ((b >> 3u8) & 1) * 8 + ((b >> 2u8) & 1) * 4 + ((b >> 1u8) & 1) * 2 + ((b
        >> 0u8) & 1)) by (bit_vector);
    assert((b >> 7u8) & 1 <= 1 && (b >> 6u8) & 1 <= 1 && (b >> 5u8) & 1 <= 1 && (b >> 4u8) & 1 <= 1
        && (b >> 3u8) & 1 <= 1 && (b >> 2u8) & 1 <= 1 && (b >> 1u8) & 1 <= 1 && (b >> 0u8) & 1
        <= 1) by (bit_vector);
}

/// The stones of a row are those of its two planes, each point once and in
/// order; a point that both planes hold is the own side's.
pub proof fn law_rows_hold_the_stones_of_their_planes(
    row: Seq<u8>,
    packed: int,
    own: Player,
    n: nat,
    p: usize,
)
    requires
        n <= CELL_COUNT,
    ensures
        stones_of(row, packed, own, n).contains((Move(p), own)) <==> p < n && bit_at(
            row,
            packed,
            1,
            p as int,
        ),
        stones_of(row, packed, own, n).contains((Move(p), own.opponent())) <==> p < n && !bit_at(
            row,
            packed,
            1,
            p as int,
        ) && bit_at(row, packed, 2, p as int),
        forall|i: int, j: int|
            0 <= i < j < stones_of(row, packed, own, n).len() ==> (#[trigger] stones_of(
                row,
                packed,
                own,
                n,
            )[i]).0.0 < (#[trigger] stones_of(row, packed, own, n)[j]).0.0,
        forall|i: int|
            0 <= i < stones_of(row, packed, own, n).len() ==> (#[trigger] stones_of(
                row,
                packed,
                own,
                n,
            )[i]).0.0 < n,
    decreases n,
{
    if n > 0 {
        let before = stones_of(row, packed, own, (n - 1) as nat);
        let all = stones_of(row, packed, own, n);
        law_rows_hold_the_stones_of_their_planes(row, packed, own, (n - 1) as nat, p);
        if all.len() > before.len() {
            let last = all[before.len() as int];
            assert(all == before.push(last));
            let (mine, theirs) = ((Move(p), own), (Move(p), own.opponent()));
            if before.contains(mine) {
                assert(all[before.index_of(mine)] == mine);
            }
            if before.contains(theirs) {
                assert(all[before.index_of(theirs)] == theirs);
            }
            if all.contains(mine) {
                let i = all.index_of(mine);
                if i < before.len() {
                    assert(before[i] == mine);
                }
            }
            if all.contains(theirs) {
                let i = all.index_of(theirs);
                if i < before.len() {
                    assert(before[i] == theirs);
                }
            }
            assert(all.contains(last));
        }
    }
}

/// The cells of a plane below `n`.
pub open spec fn plane_cells(row: Seq<u8>, packed: int, plane: int, n: nat) -> Set<int> {
    Set::new(|c: int| 0 <= c < n && bit_at(row, packed, plane, c))
}

/// The count of a plane is how many of its cells are set. A row is seen from
/// Black if and only if both sides have as many stones.
pub proof fn law_planes_are_counted(row: Seq<u8>, packed: int, plane: int, n: nat)
    ensures
        plane_cells(row, packed, plane, n).finite(),
        plane_count(row, packed, plane, n) == plane_cells(row, packed, plane, n).len(),
        side_of(row, packed) == Player::Black <==> plane_count(row, packed, 1, CELL_COUNT as nat)
            == plane_count(row, packed, 2, CELL_COUNT as nat),
    decreases n,
{
    if n == 0 {
        assert(plane_cells(row, packed, plane, 0) =~= Set::<int>::empty());
    } else {
        law_planes_are_counted(row, packed, plane, (n - 1) as nat);
        let before = plane_cells(row, packed, plane, (n - 1) as nat);
        if bit_at(row, packed, plane, n - 1) {
            assert(plane_cells(row, packed, plane, n) =~= before.insert(n - 1));
        } else {
            assert(plane_cells(row, packed, plane, n) =~= before);
        }
    }
}

/// The weights of a list of targets together.
pub open spec fn target_sum(targets: Seq<(Move, u16)>) -> nat
    decreases targets.len(),
{
    if targets.len() == 0 {
        0
    } else {
        target_sum(targets.drop_last()) + targets.last().1 as nat
    }
}

/// The targets are the legal actions that have weight, with it, and the kept
/// weight is theirs together.
pub proof fn law_targets_keep_the_weight(moves: Seq<Move>, policy: Seq<i16>, n: nat, mv: Move)
    requires
        n <= moves.len(),
        forall|i: int| 0 <= i < moves.len() ==> (#[trigger] moves[i]).0 < policy.len(),
    ensures
        target_sum(targets_below(moves, policy, n)) == kept_below(moves, policy, n),
        (exists|w: u16| #[trigger] targets_below(moves, policy, n).contains((mv, w))) ==> policy[mv.0 as int]
            > 0 && moves.take(n as int).contains(mv),
        moves.take(n as int).contains(mv) && policy[mv.0 as int] > 0 ==> targets_below(
            moves,
            policy,
            n,
        ).contains((mv, policy[mv.0 as int] as u16)),
    decreases n,
{
    if n > 0 {
        let before = targets_below(moves, policy, (n - 1) as nat);
        let all = targets_below(moves, policy, n);
        let last = moves[n - 1];
        law_targets_keep_the_weight(moves, policy, (n - 1) as nat, mv);
        let (fewer, more) = (moves.take(n - 1), moves.take(n as int));
        assert(more =~= fewer.push(last));
        if fewer.contains(mv) {
            assert(more[fewer.index_of(mv)] == mv);
        }
        assert(more[n - 1] == last);
        if more.contains(mv) && mv != last {
            let i = more.index_of(mv);
            assert(fewer[i] == mv);
        }
        if policy[last.0 as int] > 0 {
            let entry = (last, policy[last.0 as int] as u16);
            assert(all == before.push(entry));
            assert(all.drop_last() =~= before);
            assert(all[before.len() as int] == entry);
            let mine = (mv, policy[mv.0 as int] as u16);
            if before.contains(mine) {
                assert(all[before.index_of(mine)] == mine);
            }
            assert forall|w: u16| #[trigger] all.contains((mv, w)) && mv
                != last implies before.contains((mv, w)) by {
                let i = all.index_of((mv, w));
                assert(before[i] == (mv, w));
            }
        }
    } else {
        assert(moves.take(0).len() == 0);
    }
}

/// The weight of a policy is that of its cells that are not negative: more on
/// a cell makes it no less, and less than nothing counts as nothing.
pub proof fn law_no_weight_is_below_nothing(policy: Seq<i16>, cell: int, n: nat)
    requires
        0 <= cell < n <= policy.len(),
    ensures
        weight_of(policy, cell) >= policy[cell],
        policy[cell] <= 0 ==> weight_of(policy, cell) == 0,
        mass_below(policy, n) >= weight_of(policy, cell),
        mass_below(policy.update(cell, 0), n) == mass_below(policy, n) - weight_of(policy, cell),
    decreases n,
{
    let without = policy.update(cell, 0);
    if cell < n - 1 {
        law_no_weight_is_below_nothing(policy, cell, (n - 1) as nat);
    } else {
        lemma_mass_same(policy, without, (n - 1) as nat);
    }
}

proof fn lemma_mass_same(a: Seq<i16>, b: Seq<i16>, n: nat)
    requires
        n <= a.len(),
        a.len() == b.len(),
        forall|i: int| 0 <= i < n ==> a[i] == b[i],
    ensures
        mass_below(a, n) == mass_below(b, n),
    decreases n,
{
    if n > 0 {
        lemma_mass_same(a, b, (n - 1) as nat);
    }
}

/// The top cell has the greatest entry, and is the last that has it.
pub proof fn law_the_top_cell_is_the_greatest(policy: Seq<i16>, n: nat, cell: int)
    requires
        0 <= cell < n <= policy.len(),
    ensures
        0 <= top_below(policy, n) < n,
        policy[cell] <= policy[top_below(policy, n)],
        cell > top_below(policy, n) ==> policy[cell] < policy[top_below(policy, n)],
    decreases n,
{
    if n > 1 {
        law_the_top_cell_is_the_greatest(
            policy,
            (n - 1) as nat,
            if cell < n - 1 {
                cell
            } else {
                0
            },
        );
    }
}

/// Shapes that are accepted have as many rows in every array, and larger
/// arrays with as many rows are accepted too.
pub proof fn law_larger_arrays_are_accepted(shapes: Shapes, larger: Shapes)
    requires
        shapes_verdict(shapes) is Ok,
        larger.binary.1 >= shapes.binary.1 && larger.binary.2 >= shapes.binary.2,
        larger.policy.1 >= shapes.policy.1 && larger.policy.2 >= shapes.policy.2,
        larger.values.1 >= shapes.values.1,
    ensures
        shapes.policy.0 == shapes.binary.0 && shapes.values.0 == shapes.binary.0,
        shapes.binary.1 >= 3 && shapes.binary.2 * 8 >= CELL_COUNT,
        shapes.policy.1 >= 1 && shapes.policy.2 >= CELL_COUNT && shapes.values.1 >= 3,
        larger.policy.0 == larger.binary.0 && larger.values.0 == larger.binary.0
            <==> shapes_verdict(larger) is Ok,
        shapes_verdict(larger) != Err::<(), ShapeError>(ShapeError::Binary),
{
}

/// No more rows are read than there are, nor than the limit; and as many as
/// both allow.
pub proof fn law_rows_are_read_up_to_the_limit(rows: usize, limit: Option<usize>)
    ensures
        rows_read(rows, limit) <= rows,
        limit matches Some(most) ==> rows_read(rows, limit) <= most,
        rows_read(rows, limit) < rows ==> limit == Some(rows_read(rows, limit)),
{
}

/// Data files are ordered by their numbers, and files named otherwise come
/// after them.
pub proof fn law_data_files_come_by_number(n: nat, m: nat, stem: Seq<char>)
    requires
        n < m <= usize::MAX,
        !begins_with(stem, "data"@),
    ensures
        file_rank("data"@ + decimal(n)) == n,
        file_rank("data"@ + decimal(n)) < file_rank("data"@ + decimal(m)),
        file_rank("data"@ + decimal(n)) < file_rank(stem),
{
    lemma_data_file(n);
    lemma_data_file(m);
}

proof fn lemma_data_file(n: nat)
    requires
        n <= usize::MAX,
    ensures
        file_rank("data"@ + decimal(n)) == n,
{
    let name = "data"@ + decimal(n);
    assert(name.take("data"@.len() as int) =~= "data"@);
    assert(name.skip("data"@.len() as int) =~= decimal(n));
    law_decimals_are_read_as_numbers(n, usize::MAX as nat);
}

/// A file is a pointer by how it begins, whatever follows, as long as it is
/// short.
pub proof fn law_pointers_are_told_by_their_beginning(bytes: Seq<u8>, more: Seq<u8>)
    requires
        points_to_data(bytes),
    ensures
        points_to_data(bytes + more) <==> bytes.len() + more.len() < 1024,
        bytes[0] == 118 && bytes[1] == 101 && bytes[2] == 114,
{
    let mark = "version https://git-lfs.github.com/spec/v1"@;
    reveal_strlit("version https://git-lfs.github.com/spec/v1");
    assert(mark[0] == 'v' && mark[1] == 'e' && mark[2] == 'r');
    assert(bytes[0] as int == mark[0] as int && bytes[1] as int == mark[1] as int && bytes[2] as int
        == mark[2] as int);
    assert forall|i: int| 0 <= i < mark.len() implies (bytes + more)[i] as int
        == #[trigger] mark[i] as int by {
        assert(bytes[i] as int == mark[i] as int);
    }
    assert(spells(bytes + more, mark));
}

/// A row that is read makes the board of its planes: the first holds the
/// stones of the side to move, the second those of the other, and points of
/// neither are empty. What is kept of the weight is that of legal actions.
pub proof fn law_read_rows_show_the_side_to_move(
    read: TeacherRow,
    row: Seq<u8>,
    packed: int,
    policy: Seq<i16>,
    p: usize,
)
    requires
        row_accepted(row, packed, policy),
        read.reads_row(row, packed, policy),
        p < CELL_COUNT,
    ensures
        ({
            let board = read.board@;
            let (own, other) = (bit_at(row, packed, 1, p as int), bit_at(row, packed, 2, p as int));
            &&& own ==> board.cells[p as int] == board.to_move.mark()
            &&& !own && other ==> board.cells[p as int] == board.to_move.opponent().mark()
            &&& !own && !other ==> board.cells[p as int] == 0
            &&& outcome_of(board) is None
            &&& read.target@.len() > 0
        }),
{
    let own = side_of(row, packed);
    let n = CELL_COUNT as nat;
    let stones = stones_of(row, packed, own, n);
    law_rows_hold_the_stones_of_their_planes(row, packed, own, n, p);
    if bit_at(row, packed, 1, p as int) {
        law_boards_hold_their_stones(stones, stones.index_of((Move(p), own)), p);
    } else if bit_at(row, packed, 2, p as int) {
        law_boards_hold_their_stones(stones, stones.index_of((Move(p), own.opponent())), p);
    } else {
        assert forall|j: int| 0 <= j < stones.len() implies (#[trigger] stones[j]).0.0 != p by {
            if stones[j].0.0 == p {
                lemma_stone_sides(row, packed, own, n, j);
                assert(stones.contains(stones[j]));
                assert(stones[j] == (Move(p), own) || stones[j] == (Move(p), own.opponent()));
            }
        }
        law_boards_hold_their_stones(stones, 0, p);
    }
}

proof fn lemma_stone_sides(row: Seq<u8>, packed: int, own: Player, n: nat, j: int)
    requires
        0 <= j < stones_of(row, packed, own, n).len(),
    ensures
        stones_of(row, packed, own, n)[j].1 == own || stones_of(row, packed, own, n)[j].1
            == own.opponent(),
    decreases n,
{
    if n > 0 {
        let before = stones_of(row, packed, own, (n - 1) as nat);
        if j < before.len() {
            lemma_stone_sides(row, packed, own, (n - 1) as nat, j);
        }
    }
}

/// A snapshot begins with its mark, eight letters and digits; a shorter file
/// is cut off, and one that begins otherwise is none.
pub proof fn law_snapshots_begin_with_their_mark(bytes: Seq<u8>)
    ensures
        snapshot_magic().len() == 8 && spells(snapshot_magic(), "GO19RP01"@),
        bytes.len() < 8 ==> loaded(Some(bytes)) == Err::<Seq<SampleView>, SnapshotError>(
            SnapshotError::Truncated,
        ),
        bytes.len() >= 8 && !spells(bytes, "GO19RP01"@) ==> loaded(Some(bytes)) == Err::<
            Seq<SampleView>,
            SnapshotError,
        >(SnapshotError::NotSnapshot),
        loaded(Some(bytes)) is Ok ==> spells(bytes, "GO19RP01"@),
        loaded(None) == Ok::<Seq<SampleView>, SnapshotError>(Seq::empty()),
{
    reveal_strlit("GO19RP01");
    let text = "GO19RP01"@;
    assert(text[0] == 'G' && text[1] == 'O' && text[2] == '1' && text[3] == '9' && text[4] == 'R'
        && text[5] == 'P' && text[6] == '0' && text[7] == '1');
    assert(text.len() == 8);
    assert(spells(snapshot_magic(), text));
    if bytes.len() >= 8 {
        if bytes.take(8) == snapshot_magic() {
            assert forall|i: int| 0 <= i < text.len() implies bytes[i] as int
                == #[trigger] text[i] as int by {
                assert(bytes[i] == bytes.take(8)[i]);
                assert(snapshot_magic()[i] as int == text[i] as int);
            }
        } else if spells(bytes, text) {
            assert forall|i: int| 0 <= i < 8 implies #[trigger] bytes.take(8)[i]
                == snapshot_magic()[i] by {
                assert(bytes[i] as int == text[i] as int);
                assert(snapshot_magic()[i] as int == text[i] as int);
            }
            assert(bytes.take(8) =~= snapshot_magic());
        }
    }
}

/// Arrays that are just large enough are accepted, whatever the number of
/// rows.
pub proof fn law_arrays_of_a_position_are_accepted(rows: usize)
    ensures
        shapes_verdict(
            Shapes { binary: (rows, 3, 46), policy: (rows, 1, 361), values: (rows, 3) },
        ) is Ok,
        shapes_verdict(
            Shapes { binary: (rows, 2, 46), policy: (rows, 1, 361), values: (rows, 3) },
        ) is Err,
        shapes_verdict(
            Shapes { binary: (rows, 3, 45), policy: (rows, 1, 361), values: (rows, 3) },
        ) is Err,
{
}

/// A file that spells the mark and is short is a pointer.
pub proof fn law_short_files_with_the_mark_are_pointers(bytes: Seq<u8>)
    requires
        "version https://git-lfs.github.com/spec/v1"@.len() <= bytes.len() < 1024,
        spells(bytes, "version https://git-lfs.github.com/spec/v1"@),
    ensures
        points_to_data(bytes),
{
}

/// A row is accepted if and only if its stones make a board of a game under
/// way, with the side that it is seen from to move, and some legal action has
/// weight.
pub proof fn law_rows_to_learn_from_are_accepted(row: Seq<u8>, packed: int, policy: Seq<i16>)
    requires
        policy.len() >= ACTION_COUNT,
    ensures
        ({
            let own = side_of(row, packed);
            let found = board_of(stones_of(row, packed, own, CELL_COUNT as nat));
            row_accepted(row, packed, policy) <==> {
                &&& found is Some
                &&& (found->0).to_move == own
                &&& outcome_of(found->0) is None
                &&& exists|mv: Move|
                    mv.0 < ACTION_COUNT && #[trigger] (found->0).legal(mv) && policy[mv.0 as int]
                        > 0
            }
        }),
{
    let own = side_of(row, packed);
    let found = board_of(stones_of(row, packed, own, CELL_COUNT as nat));
    if let Some(board) = found {
        let moves = legal_moves(board);
        let n = moves.len();
        let targets = targets_below(moves, policy, n);
        assert(moves.take(n as int) =~= moves);
        assert forall|i: int| 0 <= i < moves.len() implies (#[trigger] moves[i]).0
            < policy.len() by {
            lemma_legal_listed(board, ACTION_COUNT as nat, i);
        }
        if targets.len() > 0 {
            let (mv, w) = targets[0];
            assert(targets.contains((mv, w)));
            law_targets_keep_the_weight(moves, policy, n, mv);
            law_legal_moves_are_complete(board, mv);
            assert(board.legal(mv));
        }
        if exists|mv: Move|
            mv.0 < ACTION_COUNT && #[trigger] board.legal(mv) && policy[mv.0 as int] > 0 {
            let mv = choose|mv: Move|
                mv.0 < ACTION_COUNT && #[trigger] board.legal(mv) && policy[mv.0 as int] > 0;
            law_targets_keep_the_weight(moves, policy, n, mv);
            law_legal_moves_are_complete(board, mv);
            assert(targets.contains((mv, policy[mv.0 as int] as u16)));
        }
    }
}

} // verus!
