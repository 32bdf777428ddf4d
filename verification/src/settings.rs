//! What settings must meet, told by what becomes of valid ones when they are
//! changed.
use crate::config::{AzLoopConfig, ConfigError, Real, FORMAT_VERSION, ONE_BITS};
use vstd::prelude::*;

verus! {

/// The bits of finite numbers stand for numbers in order: above zero by their
/// size, below it the other way round, and both zeros at one place.
pub proof fn law_ranks_are_in_order(a: Real, b: Real)
    ensures
        a.0 < 0x8000_0000 && b.0 < 0x8000_0000 ==> (a.rank() < b.rank() <==> a.0 < b.0),
        a.0 >= 0x8000_0000 && b.0 >= 0x8000_0000 ==> (a.rank() < b.rank() <==> a.0 > b.0),
        a.0 >= 0x8000_0000 && b.0 < 0x8000_0000 ==> a.rank() <= b.rank(),
        Real(0).rank() == 0 && Real(0x8000_0000).rank() == 0,
        a.is_share() ==> a.finite(),
        Real(ONE_BITS).is_share() && Real(0).is_share(),
        a.rank() > Real(ONE_BITS).rank() ==> !a.is_share(),
        a.rank() < 0 ==> !a.is_share(),
{
}

proof fn lemma_finite(config: AzLoopConfig, sum: Real, i: int)
    requires
        config.verdict(sum) is Ok,
        0 <= i < 16,
    ensures
        config.real_seq()[i].finite(),
{
}

/// Valid settings are refused if any of the counts that must be there becomes
/// zero.
pub proof fn law_no_count_may_be_zero(config: AzLoopConfig, sum: Real)
    requires
        config.verdict(sum) is Ok,
    ensures
        (AzLoopConfig { simulations: 0, ..config }).verdict(sum) == Err::<(), ConfigError>(
            ConfigError::Zero,
        ),
        (AzLoopConfig { hidden_size: 0, ..config }).verdict(sum) == Err::<(), ConfigError>(
            ConfigError::Zero,
        ),
        (AzLoopConfig { selfplay_samples_per_update: 0, ..config }).verdict(sum) == Err::<
            (),
            ConfigError,
        >(ConfigError::Zero),
        (AzLoopConfig { replay_warmup_samples: 0, ..config }).verdict(sum) == Err::<
            (),
            ConfigError,
        >(ConfigError::Zero),
        (AzLoopConfig { batch_epochs: 0, ..config }).verdict(sum) == Err::<(), ConfigError>(
            ConfigError::Zero,
        ),
        (AzLoopConfig { batch_size: 0, ..config }).verdict(sum) == Err::<(), ConfigError>(
            ConfigError::Zero,
        ),
        (AzLoopConfig { train_samples_per_update: 0, ..config }).verdict(sum) == Err::<
            (),
            ConfigError,
        >(ConfigError::Zero),
        (AzLoopConfig { learning_rate_warmup_steps: 0, ..config }).verdict(sum) == Err::<
            (),
            ConfigError,
        >(ConfigError::Zero),
        (AzLoopConfig { learning_rate_cosine_steps: 0, ..config }).verdict(sum) == Err::<
            (),
            ConfigError,
        >(ConfigError::Zero),
{
    let reals = config.real_seq();
    assert((AzLoopConfig { simulations: 0, ..config }).real_seq() =~= reals);
    assert((AzLoopConfig { hidden_size: 0, ..config }).real_seq() =~= reals);
    assert((AzLoopConfig { selfplay_samples_per_update: 0, ..config }).real_seq() =~= reals);
    assert((AzLoopConfig { replay_warmup_samples: 0, ..config }).real_seq() =~= reals);
    assert((AzLoopConfig { batch_epochs: 0, ..config }).real_seq() =~= reals);
    assert((AzLoopConfig { batch_size: 0, ..config }).real_seq() =~= reals);
    assert((AzLoopConfig { train_samples_per_update: 0, ..config }).real_seq() =~= reals);
    assert((AzLoopConfig { learning_rate_warmup_steps: 0, ..config }).real_seq() =~= reals);
    assert((AzLoopConfig { learning_rate_cosine_steps: 0, ..config }).real_seq() =~= reals);
}

/// A share may be any number from nothing to one, and none beyond: in valid
/// settings it can be changed within these bounds, and not out of them.
pub proof fn law_shares_lie_between_nothing_and_one(config: AzLoopConfig, sum: Real, x: Real)
    requires
        config.verdict(sum) is Ok,
        x.finite(),
    ensures
        ({
            let inside = 0 <= x.rank() <= ONE_BITS;
            let a = (AzLoopConfig { root_exploration_fraction: x, ..config }).verdict(sum);
            let b = (AzLoopConfig { arena_promotion_rate: x, ..config }).verdict(sum);
            let c = (AzLoopConfig { arena_color_score_floor: x, ..config }).verdict(sum);
            let d = (AzLoopConfig { replay_recent_sample_fraction: x, ..config }).verdict(sum);
            let e = (AzLoopConfig { replay_policy_surprise_fraction: x, ..config }).verdict(sum);
            let f = (AzLoopConfig { replay_value_surprise_fraction: x, ..config }).verdict(sum);
            let refused = Err::<(), ConfigError>(ConfigError::Range);
            &&& inside ==> a is Ok && b is Ok && c is Ok && d is Ok && e is Ok && f is Ok
            &&& !inside ==> a == refused && b == refused && c == refused && d == refused && e
                == refused && f == refused
        }),
{
    let reals = config.real_seq();
    lemma_changed(config, sum, reals.update(8, x), x, 8);
    lemma_changed(config, sum, reals.update(10, x), x, 10);
    lemma_changed(config, sum, reals.update(12, x), x, 12);
    lemma_changed(config, sum, reals.update(13, x), x, 13);
    lemma_changed(config, sum, reals.update(14, x), x, 14);
    lemma_changed(config, sum, reals.update(15, x), x, 15);
    assert((AzLoopConfig { root_exploration_fraction: x, ..config }).real_seq() =~= reals.update(
        8,
        x,
    ));
    assert((AzLoopConfig { arena_promotion_rate: x, ..config }).real_seq() =~= reals.update(10, x));
    assert((AzLoopConfig { arena_color_score_floor: x, ..config }).real_seq() =~= reals.update(
        12,
        x,
    ));
    assert((AzLoopConfig { replay_recent_sample_fraction: x, ..config }).real_seq()
        =~= reals.update(13, x));
    assert((AzLoopConfig { replay_policy_surprise_fraction: x, ..config }).real_seq()
        =~= reals.update(14, x));
    assert((AzLoopConfig { replay_value_surprise_fraction: x, ..config }).real_seq()
        =~= reals.update(15, x));
}

proof fn lemma_changed(config: AzLoopConfig, sum: Real, changed: Seq<Real>, x: Real, k: int)
    requires
        config.verdict(sum) is Ok,
        x.finite(),
        0 <= k < 16,
        changed == config.real_seq().update(k, x),
    ensures
        !(exists|i: int| 0 <= i < 16 && !(#[trigger] changed[i]).finite()),
{
    assert forall|i: int| 0 <= i < 16 implies (#[trigger] changed[i]).finite() by {
        lemma_finite(config, sum, i);
    }
}

/// The learning rate is above nothing, and the least one neither below nothing
/// nor above the first.
pub proof fn law_learning_rates_are_ordered(config: AzLoopConfig, sum: Real, x: Real)
    requires
        config.verdict(sum) is Ok,
        x.finite(),
    ensures
        ({
            let refused = Err::<(), ConfigError>(ConfigError::Range);
            let rate = (AzLoopConfig { learning_rate: x, ..config }).verdict(sum);
            let least = (AzLoopConfig { learning_rate_min: x, ..config }).verdict(sum);
            &&& rate is Ok <==> x.rank() > 0 && x.rank() >= config.learning_rate_min.rank()
            &&& rate is Err ==> rate == refused
            &&& least is Ok <==> 0 <= x.rank() <= config.learning_rate.rank()
            &&& least is Err ==> least == refused
        }),
{
    let reals = config.real_seq();
    lemma_changed(config, sum, reals.update(0, x), x, 0);
    lemma_changed(config, sum, reals.update(1, x), x, 1);
    assert((AzLoopConfig { learning_rate: x, ..config }).real_seq() =~= reals.update(0, x));
    assert((AzLoopConfig { learning_rate_min: x, ..config }).real_seq() =~= reals.update(1, x));
}

/// What the search explores by is above nothing, but for the growth, which may
/// be nothing.
pub proof fn law_exploration_is_not_negative(config: AzLoopConfig, sum: Real, x: Real)
    requires
        config.verdict(sum) is Ok,
        x.finite(),
    ensures
        ({
            let refused = Err::<(), ConfigError>(ConfigError::Range);
            let cpuct = (AzLoopConfig { cpuct: x, ..config }).verdict(sum);
            let log = (AzLoopConfig { cpuct_log: x, ..config }).verdict(sum);
            let base = (AzLoopConfig { cpuct_base: x, ..config }).verdict(sum);
            &&& x.rank() > 0 ==> cpuct is Ok && base is Ok
            &&& x.rank() <= 0 ==> cpuct == refused && base == refused
            &&& x.rank() >= 0 ==> log is Ok
            &&& x.rank() < 0 ==> log == refused
        }),
{
    let reals = config.real_seq();
    lemma_changed(config, sum, reals.update(2, x), x, 2);
    lemma_changed(config, sum, reals.update(3, x), x, 3);
    lemma_changed(config, sum, reals.update(4, x), x, 4);
    assert((AzLoopConfig { cpuct: x, ..config }).real_seq() =~= reals.update(2, x));
    assert((AzLoopConfig { cpuct_log: x, ..config }).real_seq() =~= reals.update(3, x));
    assert((AzLoopConfig { cpuct_base: x, ..config }).real_seq() =~= reals.update(4, x));
}

/// Temperatures, noise and confidence may be nothing but not below it; the
/// temperature at the root is above it.
pub proof fn law_temperatures_are_not_negative(config: AzLoopConfig, sum: Real, x: Real)
    requires
        config.verdict(sum) is Ok,
        x.finite(),
    ensures
        ({
            let refused = Err::<(), ConfigError>(ConfigError::Range);
            let start = (AzLoopConfig { temperature_start: x, ..config }).verdict(sum);
            let end = (AzLoopConfig { temperature_endgame: x, ..config }).verdict(sum);
            let noise = (AzLoopConfig { root_dirichlet_total_concentration: x, ..config }).verdict(
                sum,
            );
            let root = (AzLoopConfig { root_policy_temperature: x, ..config }).verdict(sum);
            let z = (AzLoopConfig { arena_promotion_confidence_z: x, ..config }).verdict(sum);
            &&& x.rank() >= 0 ==> start is Ok && end is Ok && noise is Ok && z is Ok
            &&& x.rank() < 0 ==> start == refused && end == refused && noise == refused && z
                == refused
            &&& x.rank() > 0 ==> root is Ok
            &&& x.rank() <= 0 ==> root == refused
        }),
{
    let reals = config.real_seq();
    lemma_changed(config, sum, reals.update(5, x), x, 5);
    lemma_changed(config, sum, reals.update(6, x), x, 6);
    lemma_changed(config, sum, reals.update(7, x), x, 7);
    lemma_changed(config, sum, reals.update(9, x), x, 9);
    lemma_changed(config, sum, reals.update(11, x), x, 11);
    assert((AzLoopConfig { temperature_start: x, ..config }).real_seq() =~= reals.update(5, x));
    assert((AzLoopConfig { temperature_endgame: x, ..config }).real_seq() =~= reals.update(6, x));
    assert((AzLoopConfig { root_dirichlet_total_concentration: x, ..config }).real_seq()
        =~= reals.update(7, x));
    assert((AzLoopConfig { root_policy_temperature: x, ..config }).real_seq()
        =~= reals.update(9, x));
    assert((AzLoopConfig { arena_promotion_confidence_z: x, ..config }).real_seq()
        =~= reals.update(11, x));
}

/// What does not fit together is refused: arenas without games, a warmup that
/// the pool cannot hold, surprise shares above one, and another version.
pub proof fn law_settings_must_fit_together(config: AzLoopConfig, sum: Real, n: usize, v: u32)
    requires
        config.verdict(sum) is Ok,
    ensures
        ({
            let games = (AzLoopConfig { arena_games: n, ..config }).verdict(sum);
            let never = (AzLoopConfig { arena_interval: 0, arena_games: n, ..config }).verdict(sum);
            let pool = (AzLoopConfig { replay_capacity: n, ..config }).verdict(sum);
            let version = (AzLoopConfig { format_version: v, ..config }).verdict(sum);
            &&& games is Ok <==> n > 0 || config.arena_interval == 0
            &&& games is Err ==> games == Err::<(), ConfigError>(ConfigError::NoArenaGames)
            &&& never is Ok
            &&& pool is Ok <==> n >= config.replay_warmup_samples
            &&& pool is Err ==> pool == Err::<(), ConfigError>(ConfigError::WarmupAboveCapacity)
            &&& version is Ok <==> v == FORMAT_VERSION
            &&& version is Err ==> version == Err::<(), ConfigError>(ConfigError::Version)
        }),
        forall|other: Real| #[trigger]
            config.verdict(other) is Ok <==> other.rank() <= Real(ONE_BITS).rank(),
{
    let reals = config.real_seq();
    assert((AzLoopConfig { arena_games: n, ..config }).real_seq() =~= reals);
    assert((AzLoopConfig { arena_interval: 0, arena_games: n, ..config }).real_seq() =~= reals);
    assert((AzLoopConfig { replay_capacity: n, ..config }).real_seq() =~= reals);
    assert((AzLoopConfig { format_version: v, ..config }).real_seq() =~= reals);
}

/// A number that is not finite is found first of all, and the first of them is
/// told.
pub proof fn law_the_first_number_that_is_not_finite_is_told(
    config: AzLoopConfig,
    sum: Real,
    i: int,
)
    requires
        0 <= i < 16,
        !config.real_seq()[i].finite(),
        forall|k: int| 0 <= k < i ==> (#[trigger] config.real_seq()[k]).finite(),
    ensures
        config.verdict(sum) == Err::<(), ConfigError>(ConfigError::NotFinite(i as usize)),
{
    lemma_first(config, 0, i);
}

proof fn lemma_first(config: AzLoopConfig, from: int, i: int)
    requires
        0 <= from <= i < 16,
        !config.real_seq()[i].finite(),
        forall|k: int| 0 <= k < i ==> (#[trigger] config.real_seq()[k]).finite(),
    ensures
        config.first_not_finite(from) == i,
    decreases i - from,
{
    if from < i {
        assert(config.real_seq()[from].finite());
        lemma_first(config, from + 1, i);
    }
}

} // verus!
