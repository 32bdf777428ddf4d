//! What the decisions of the training loop add up to.
use crate::pipeline::{
    all_dated, arena_budget, awaited, begins_with, ceil_div, checkpoints_among, device_of,
    falls_due, games_of, in_order, intake_of, law_names_come_in_order, mode_of, ordered, pooled,
    pruned, queue_size, six_digits, stage_of, verdict_of, with_champion, workers_for, Accelerator,
    Intake, LeagueMode, Stage, Verdict,
};
use crate::replay::Sample;
use crate::rng::mixed;
use crate::text::{all_digits, decimal, law_decimal_reads_back, value_of};
use vstd::prelude::*;

verus! {

proof fn lemma_ceil(a: int, b: int)
    requires
        a >= 0,
        b > 0,
    ensures
        ceil_div(a, b) >= 0,
        ceil_div(a, b) * b >= a,
        (ceil_div(a, b) - 1) * b < a,
{
    let q = (a + b - 1) / b;
    vstd::arithmetic::div_mod::lemma_fundamental_div_mod(a + b - 1, b);
    vstd::arithmetic::div_mod::lemma_mod_bound(a + b - 1, b);
    vstd::arithmetic::div_mod::lemma_div_pos_is_pos(a + b - 1, b);
    assert(q * b == b * q) by (nonlinear_arith);
    assert((q - 1) * b == q * b - b) by (nonlinear_arith);
}

/// The games against former champions are together half as many as those
/// against the champion, or more, and with one game less against each they
/// would be fewer; two against each are played in any case.
pub proof fn law_former_champions_share_half_the_games(current_games: int, histories: int)
    requires
        current_games >= 0,
        histories > 0,
    ensures
        ({
            let each = arena_budget(current_games, histories).1;
            &&& each >= 2
            &&& 2 * (each * histories) >= current_games
            &&& each > 2 ==> 2 * ((each - 1) * histories) <= current_games
        }),
        arena_budget(current_games, 0) == (current_games, 0int),
{
    let half = ceil_div(current_games, 2);
    lemma_ceil(current_games, 2);
    lemma_ceil(half, histories);
    let part = ceil_div(half, histories);
    let each = arena_budget(current_games, histories).1;
    assert(each * histories >= part * histories) by (nonlinear_arith)
        requires
            each >= part,
            histories > 0,
    ;
}

/// Workers are started as asked, as far as there are cores.
pub proof fn law_workers_fit_the_cores(configured: usize, cores: usize)
    ensures
        workers_for(configured, cores).1 <= cores,
        workers_for(configured, cores).1 <= workers_for(configured, cores).0,
        configured > 0 ==> workers_for(configured, cores).0 == configured,
        0 < configured <= cores ==> workers_for(configured, cores).1 == configured,
        configured >= cores || configured == 0 ==> workers_for(configured, cores).1 == cores,
{
}

/// A queue that is not configured has room for eight games of each worker,
/// and for 32 in any case, but for no more.
pub proof fn law_queues_have_room_for_every_worker(configured: int, workers: int)
    requires
        0 <= configured,
        0 <= workers,
        workers * 8 <= usize::MAX,
    ensures
        configured > 0 ==> queue_size(configured, workers) == configured,
        configured == 0 ==> {
            &&& queue_size(configured, workers) >= 32
            &&& queue_size(configured, workers) >= 8 * workers
            &&& queue_size(configured, workers) == 32 || queue_size(configured, workers) == 8
                * workers
        },
{
}

/// The first batch fills up the warmup, holds what every update takes, and
/// waits for nothing beyond.
pub proof fn law_the_first_batch_fills_the_warmup(warmup: int, restored: int, per_update: int)
    ensures
        awaited(warmup, restored, per_update) >= 1,
        awaited(warmup, restored, per_update) >= per_update,
        restored + awaited(warmup, restored, per_update) >= warmup,
        restored + awaited(warmup, restored, per_update) == warmup || awaited(
            warmup,
            restored,
            per_update,
        ) == per_update || awaited(warmup, restored, per_update) == 1,
{
}

/// A game of a version before the current one is left. A game that is taken
/// joins a batch whose newest version is current or later, or an empty one;
/// an older batch is given up for it.
pub proof fn law_batches_stay_current(
    game_version: u64,
    current_version: u64,
    pending_games: usize,
    pending_newest: u64,
)
    ensures
        ({
            let intake = intake_of(game_version, current_version, pending_games, pending_newest);
            &&& intake == Intake::Stale <==> game_version < current_version
            &&& intake == Intake::Merge ==> pending_games == 0 || pending_newest >= current_version
            &&& intake == Intake::Restart ==> pending_games > 0 && pending_newest < current_version
        }),
{
}

/// The pool keeps the newest samples in their order, as many as it can hold.
pub proof fn law_the_pool_keeps_the_newest<T>(pool: Seq<T>, fresh: Seq<T>, capacity: nat, i: int)
    ensures
        ({
            let after = pooled(pool, fresh, capacity);
            let total = pool.len() + fresh.len();
            &&& after.len() == (if total <= capacity {
                total
            } else {
                capacity
            })
            &&& 0 <= i < after.len() && i < fresh.len() ==> after[after.len() - 1 - i]
                == fresh[fresh.len() - 1 - i]
            &&& fresh.len() <= i < after.len() ==> after[after.len() - 1 - i] == pool[total - 1 - i]
        }),
{
}

/// The newest champion comes first and the others move on by one; no more are
/// kept than fit.
pub proof fn law_the_newest_champion_comes_first<T>(
    history: Seq<T>,
    champion: T,
    size: nat,
    i: int,
)
    ensures
        ({
            let after = with_champion(history, champion, size);
            &&& after.len() == (if history.len() + 1 <= size {
                history.len() + 1
            } else {
                size
            })
            &&& size > 0 ==> after[0] == champion
            &&& 0 < i < after.len() ==> after[i] == history[i - 1]
        }),
{
}

/// The last verdict after so many rejections in a row, and the rejections then
/// on record.
pub open spec fn rejected_times(times: nat, reset: int) -> (Verdict, int)
    decreases times,
{
    if times == 0 {
        (Verdict::Promote, 0)
    } else {
        verdict_of(false, rejected_times((times - 1) as nat, reset).1, reset)
    }
}

/// A candidate that passes becomes the champion and clears the record. One
/// that fails is kept, until so many in a row have failed as set the trainer
/// back; without such a number it is always kept.
pub proof fn law_rejections_in_a_row_set_back(times: nat, rejections: int, reset: int)
    requires
        times > 0,
        reset >= 0,
    ensures
        verdict_of(true, rejections, reset) == (Verdict::Promote, 0int),
        reset == 0 || times < reset ==> rejected_times(times, reset) == (
            Verdict::Keep,
            times as int,
        ),
        times == reset ==> rejected_times(times, reset) == (Verdict::SetBack, 0int),
    decreases times,
{
    if times > 1 {
        law_rejections_in_a_row_set_back((times - 1) as nat, rejections, reset);
    } else {
        assert(rejected_times(0, reset).1 == 0);
    }
}

/// What falls due does so again after the interval and not before, first
/// after as many updates as the interval.
pub proof fn law_due_times_are_an_interval_apart(interval: int, update: int, d: int)
    requires
        interval > 0,
        update >= 0,
        0 < d < interval,
    ensures
        falls_due(interval, interval),
        !falls_due(interval, d),
        falls_due(interval, update) ==> falls_due(interval, update + interval) && !falls_due(
            interval,
            update + d,
        ),
        !falls_due(0, update),
{
    vstd::arithmetic::div_mod::lemma_mod_self_0(interval);
    vstd::arithmetic::div_mod::lemma_small_mod(d as nat, interval as nat);
    if falls_due(interval, update) {
        vstd::arithmetic::div_mod::lemma_mod_add_multiples_vanish(update, interval);
        vstd::arithmetic::div_mod::lemma_add_mod_noop(update, d, interval);
    }
}

/// The padded digits write the number, in six digits or more.
pub proof fn law_padded_digits_write_the_number(n: nat)
    ensures
        all_digits(six_digits(n)),
        six_digits(n).len() >= 6,
        value_of(six_digits(n)) == n,
        n >= 100_000 ==> six_digits(n) == decimal(n),
{
    let d = decimal(n);
    law_decimal_reads_back(n);
    if d.len() < 6 {
        lemma_zeros((6 - d.len()) as nat, d);
        if n >= 100_000 {
            reveal_with_fuel(decimal, 7);
        }
    }
}

pub proof fn lemma_zeros(k: nat, d: Seq<char>)
    requires
        all_digits(d),
    ensures
        all_digits(Seq::new(k, |i: int| '0') + d),
        value_of(Seq::new(k, |i: int| '0') + d) == value_of(d),
    decreases k + d.len(),
{
    let zeros = Seq::new(k, |i: int| '0');
    let all = zeros + d;
    if d.len() > 0 {
        let less = d.drop_last();
        assert forall|i: int| 0 <= i < less.len() implies crate::text::digit_char(
            #[trigger] less[i],
        ) by {
            assert(less[i] == d[i]);
        }
        lemma_zeros(k, less);
        assert(all.drop_last() =~= zeros + less);
        assert(all.last() == d.last());
    } else if k > 0 {
        let fewer = Seq::new((k - 1) as nat, |i: int| '0');
        lemma_zeros((k - 1) as nat, d);
        assert(all.drop_last() =~= fewer + d);
        assert(all.last() == '0');
    } else {
        assert(all =~= d);
    }
}

/// An accelerator trains under its own name with the number that was asked
/// for; without one only number zero is given, and it is the processor.
pub proof fn law_devices_are_told_apart(a: nat, b: nat, found: Accelerator)
    requires
        device_of(a, found) is Some,
    ensures
        device_of(a, found) == device_of(b, found) ==> a == b,
        found == Accelerator::Processor <==> device_of(a, found) == Some("cpu"@),
        found == Accelerator::Processor ==> a == 0,
        device_of(a, Accelerator::Cuda) != device_of(b, Accelerator::Metal),
{
    reveal_strlit("cpu");
    reveal_strlit("cuda:");
    reveal_strlit("metal:");
    let (c, m) = ("cuda:"@, "metal:"@);
    assert(c.len() == 5 && m.len() == 6 && "cpu"@.len() == 3);
    assert(c[0] == 'c' && m[0] == 'm');
    lemma_numbered_names(c, a, b);
    lemma_numbered_names(m, a, b);
    assert((c + decimal(a))[0] == 'c' && (m + decimal(b))[0] == 'm');
}

proof fn lemma_numbered_names(start: Seq<char>, a: nat, b: nat)
    ensures
        start + decimal(a) == start + decimal(b) ==> a == b,
        (start + decimal(a)).len() > start.len(),
{
    law_decimal_reads_back(a);
    law_decimal_reads_back(b);
    let n = start.len() as int;
    assert((start + decimal(a)).skip(n) =~= decimal(a));
    assert((start + decimal(b)).skip(n) =~= decimal(b));
}

/// The checkpoints of a directory are its names that begin as such names do.
pub proof fn law_checkpoints_are_told_by_their_names(names: Seq<Seq<char>>, n: nat, name: Seq<char>)
    requires
        n <= names.len(),
    ensures
        checkpoints_among(names, n).contains(name) <==> begins_with(name, "update-"@)
            && names.take(n as int).contains(name),
    decreases n,
{
    if n > 0 {
        let last = names[n - 1];
        let before = checkpoints_among(names, (n - 1) as nat);
        law_checkpoints_are_told_by_their_names(names, (n - 1) as nat, name);
        let (all, fewer) = (names.take(n as int), names.take(n - 1));
        assert(all =~= fewer.push(last));
        assert(all.contains(name) <==> fewer.contains(name) || name == last) by {
            if fewer.contains(name) {
                assert(all[fewer.index_of(name)] == name);
            }
            if name == last {
                assert(all[n - 1] == name);
            }
            if all.contains(name) {
                let i = all.index_of(name);
                if i < n - 1 {
                    assert(fewer[i] == name);
                }
            }
        }
        let list = checkpoints_among(names, n);
        if begins_with(last, "update-"@) {
            if before.contains(name) {
                assert(list[before.index_of(name)] == name);
            }
            if name == last {
                assert(list[before.len() as int] == name);
            }
            if list.contains(name) {
                let i = list.index_of(name);
                if i < before.len() {
                    assert(before[i] == name);
                }
            }
        }
    } else {
        assert(names.take(0).len() == 0);
    }
}

/// Pruning removes checkpoints so that as many stay as are to be kept, and
/// none that stays comes before one that goes.
pub proof fn law_pruning_keeps_the_last(names: Seq<Seq<char>>, keep: nat)
    ensures
        ({
            let found = checkpoints_among(names, names.len());
            exists|kept: Seq<Seq<char>>|
                {
                    &&& #[trigger] ordered(pruned(names, keep) + kept)
                    &&& (pruned(names, keep) + kept).to_multiset() == found.to_multiset()
                    &&& keep > 0 ==> kept.len() == (if found.len() < keep {
                        found.len()
                    } else {
                        keep
                    })
                    &&& keep == 0 ==> kept.len() == found.len()
                }
        }),
{
    let found = checkpoints_among(names, names.len());
    let sorted = in_order(found);
    law_names_come_in_order(found);
    let gone = pruned(names, keep);
    let kept = sorted.skip(gone.len() as int);
    assert(gone + kept =~= sorted);
    sorted.to_multiset_ensures();
    found.to_multiset_ensures();
    assert(sorted.len() == found.len());
    assert(ordered(gone + kept));
}

/// The draw that a seed makes for the league.
pub open spec fn draw_of(seed: u64) -> u64 {
    mixed(seed ^ 0xA076_1D64_78BD_642F) >> 40
}

/// Shares are what they say: a model plays itself whenever the draw lies in
/// the first share, and the pairs with former champions take what the two
/// shares leave; a share of all leaves nothing to the others.
pub proof fn law_shares_divide_the_draws(seed: u64, first: u32, second: u32)
    requires
        first <= second,
    ensures
        first >= 0x100_0000 ==> mode_of(seed, first, second) == LeagueMode::CurrentSelfplay,
        first == 0 ==> mode_of(seed, first, second) != LeagueMode::CurrentSelfplay,
        first == second ==> mode_of(seed, first, second) != LeagueMode::CurrentWhite,
        second >= 0x100_0000 ==> mode_of(seed, first, second) != LeagueMode::PairedHistory,
        first < u32::MAX && mode_of(seed, first, second) == LeagueMode::CurrentSelfplay
            ==> mode_of(seed, (first + 1) as u32, second) == LeagueMode::CurrentSelfplay,
        0 < first && mode_of(seed, (first - 1) as u32, second) != mode_of(seed, first, second)
            ==> mode_of(seed, first, second) == LeagueMode::CurrentSelfplay && mode_of(
            seed,
            (first - 1) as u32,
            second,
        ) == LeagueMode::CurrentWhite,
        mode_of(seed, first, second) == LeagueMode::PairedHistory && second < u32::MAX
            ==> mode_of(seed, first, (second + 1) as u32) != LeagueMode::CurrentSelfplay,
{
    let x = mixed(seed ^ 0xA076_1D64_78BD_642F);
    assert(x >> 40 < 0x100_0000) by (bit_vector);
}

/// Without former champions the model plays both sides, as it does by itself;
/// else it plays one side of every game, White alone or each color once.
pub proof fn law_league_games_are_what_the_mode_says(mode: LeagueMode, i: int)
    requires
        0 <= i < games_of(mode, true).len(),
    ensures
        games_of(mode, false).len() == 1 && games_of(mode, false)[0].black_current && games_of(
            mode,
            false,
        )[0].white_current,
        mode == LeagueMode::CurrentSelfplay <==> games_of(mode, true)[i].black_current && games_of(
            mode,
            true,
        )[i].white_current,
        mode == LeagueMode::CurrentWhite ==> !games_of(mode, true)[i].black_current,
        mode == LeagueMode::PairedHistory <==> games_of(mode, true).len() == 2,
        mode == LeagueMode::PairedHistory ==> games_of(mode, true)[0] != games_of(mode, true)[1],
{
}

/// A schedule stays before its start for as many steps as the delay, goes on
/// step by step for its length, and is past its end from then on.
pub proof fn law_schedules_go_on_step_by_step(step: usize, delay: usize, length: usize)
    requires
        step < usize::MAX,
    ensures
        stage_of(step, delay, length) == Stage::Before <==> step < delay,
        stage_of(step, delay, length) == Stage::Past ==> stage_of(
            (step + 1) as usize,
            delay,
            length,
        ) == Stage::Past,
        stage_of(delay, delay, length) == (if length > 0 {
            Stage::Within(0)
        } else {
            Stage::Past
        }),
        stage_of(step, delay, length) matches Stage::Within(k) ==> k < length && stage_of(
            (step + 1) as usize,
            delay,
            length,
        ) == (if k + 1 < length {
            Stage::Within((k + 1) as usize)
        } else {
            Stage::Past
        }),
{
}

/// The samples of a game are dated by the version that played it, and stay as
/// they are otherwise.
pub proof fn law_samples_are_dated_by_their_game(samples: Seq<Sample>, generation: u64, i: int)
    requires
        0 <= i < samples.len(),
    ensures
        all_dated(samples, generation).len() == samples.len(),
        all_dated(samples, generation)[i].generation == generation,
        all_dated(samples, generation)[i].board == samples[i].board,
        all_dated(samples, generation)[i].policy == samples[i].policy,
        all_dated(samples, generation)[i].value == samples[i].value,
        samples[i].generation == generation ==> all_dated(samples, generation)[i] == samples[i],
        all_dated(all_dated(samples, 0), generation) == all_dated(samples, generation),
{
    let (once, twice) = (
        all_dated(samples, generation),
        all_dated(all_dated(samples, 0), generation),
    );
    assert(once =~= twice);
}

} // verus!
