//! The settings of the training loop and what they must meet. A fraction is
//! held as the bits of a single-precision number.
use vstd::prelude::*;

verus! {

/// The bits of a single-precision number.
#[derive(Clone, Copy, Debug, PartialEq, Eq, Structural)]
pub struct Real(pub u32);

/// The bits of one.
pub const ONE_BITS: u32 = 0x3f80_0000;

impl Real {
    /// A number that is neither infinite nor no number: not all bits of its
    /// exponent are set.
    pub open spec fn finite(self) -> bool {
        self.0 as int % 0x8000_0000 < 0x7f80_0000
    }

    /// Finite numbers are ordered as these are: the bits below the sign,
    /// negated for a negative number.
    pub open spec fn rank(self) -> int {
        if self.0 < 0x8000_0000 {
            self.0 as int
        } else {
            0x8000_0000 - self.0
        }
    }

    /// From nothing to one.
    pub open spec fn is_share(self) -> bool {
        0 <= self.rank() <= ONE_BITS
    }

    pub fn is_finite(self) -> (result: bool)
        ensures
            result == self.finite(),
    {
        self.0 % 0x8000_0000 < 0x7f80_0000
    }

    /// What finite numbers are compared by.
    pub fn order(self) -> (result: i64)
        ensures
            result == self.rank(),
    {
        if self.0 < 0x8000_0000 {
            self.0 as i64
        } else {
            0x8000_0000 - self.0 as i64
        }
    }

    fn share(self) -> (result: bool)
        ensures
            result == self.is_share(),
    {
        let rank: i64 = self.order();
        0 <= rank && rank <= ONE_BITS as i64
    }
}

/// Both zeros stand between the negative and the positive numbers.
pub proof fn law_zeros_are_equal(value: Real)
    ensures
        Real(0).rank() == 0,
        Real(0x8000_0000).rank() == 0,
        value.rank() < 0 <==> value.0 > 0x8000_0000,
        value.rank() > 0 <==> 0 < value.0 < 0x8000_0000,
{
}

/// The settings of the training loop.
pub struct AzLoopConfig {
    pub format_version: u32,
    pub model_path: String,
    pub best_model_path: String,
    pub replay_path: String,
    pub progress_path: String,
    pub simulations: usize,
    pub hidden_size: usize,
    pub seed: u64,
    pub selfplay_samples_per_update: usize,
    pub selfplay_workers: usize,
    pub selfplay_queue_capacity: usize,
    pub learning_rate: Real,
    pub learning_rate_min: Real,
    pub learning_rate_warmup_steps: usize,
    pub learning_rate_cosine_steps: usize,
    pub batch_epochs: usize,
    pub batch_size: usize,
    pub cpuct: Real,
    pub cpuct_log: Real,
    pub cpuct_base: Real,
    pub temperature_start: Real,
    pub temperature_endgame: Real,
    pub temperature_decay_delay_plies: usize,
    pub temperature_decay_plies: usize,
    pub root_dirichlet_total_concentration: Real,
    pub root_exploration_fraction: Real,
    pub root_policy_temperature: Real,
    pub replay_capacity: usize,
    pub replay_warmup_samples: usize,
    pub train_samples_per_update: usize,
    pub replay_recent_sample_fraction: Real,
    pub replay_recent_updates: u64,
    pub replay_policy_surprise_fraction: Real,
    pub replay_value_surprise_fraction: Real,
    pub checkpoint_interval: usize,
    pub checkpoint_dir: String,
    pub max_checkpoints: usize,
    pub arena_interval: usize,
    pub arena_games: usize,
    pub arena_opening_plies: usize,
    pub arena_promotion_rate: Real,
    pub arena_promotion_confidence_z: Real,
    pub arena_color_score_floor: Real,
    pub tensorboard_logdir: String,
}

/// The only version of the settings that is read.
pub const FORMAT_VERSION: u32 = 22;

/// Why settings are refused.
#[derive(Clone, Copy, Debug, PartialEq, Eq, Structural)]
pub enum ConfigError {
    /// The number in this place of `reals` is not finite.
    NotFinite(usize),
    Version,
    Zero,
    Range,
    NoArenaGames,
    WarmupAboveCapacity,
    SurpriseAboveOne,
}

impl AzLoopConfig {
    /// The numbers that must be finite, in the order in which they are tested.
    pub open spec fn real_seq(self) -> Seq<Real> {
        seq![
            self.learning_rate,
            self.learning_rate_min,
            self.cpuct,
            self.cpuct_log,
            self.cpuct_base,
            self.temperature_start,
            self.temperature_endgame,
            self.root_dirichlet_total_concentration,
            self.root_exploration_fraction,
            self.root_policy_temperature,
            self.arena_promotion_rate,
            self.arena_promotion_confidence_z,
            self.arena_color_score_floor,
            self.replay_recent_sample_fraction,
            self.replay_policy_surprise_fraction,
            self.replay_value_surprise_fraction,
        ]
    }

    pub fn reals(&self) -> (result: [Real; 16])
        ensures
            result@ == self.real_seq(),
    {
        let reals: [Real; 16] = [
            self.learning_rate,
            self.learning_rate_min,
            self.cpuct,
            self.cpuct_log,
            self.cpuct_base,
            self.temperature_start,
            self.temperature_endgame,
            self.root_dirichlet_total_concentration,
            self.root_exploration_fraction,
            self.root_policy_temperature,
            self.arena_promotion_rate,
            self.arena_promotion_confidence_z,
            self.arena_color_score_floor,
            self.replay_recent_sample_fraction,
            self.replay_policy_surprise_fraction,
            self.replay_value_surprise_fraction,
        ];
        assert(reals@ =~= self.real_seq());
        reals
    }

    /// A count is 0 that must not be.
    pub open spec fn lacks_a_count(self) -> bool {
        ||| self.simulations == 0
        ||| self.hidden_size == 0
        ||| self.selfplay_samples_per_update == 0
        ||| self.replay_warmup_samples == 0
        ||| self.batch_epochs == 0
        ||| self.batch_size == 0
        ||| self.train_samples_per_update == 0
        ||| self.learning_rate_warmup_steps == 0
        ||| self.learning_rate_cosine_steps == 0
    }

    /// Every number lies where it must.
    pub open spec fn in_range(self) -> bool {
        &&& 0 < self.learning_rate.rank()
        &&& 0 <= self.learning_rate_min.rank() <= self.learning_rate.rank()
        &&& 0 < self.cpuct.rank()
        &&& 0 <= self.cpuct_log.rank()
        &&& 0 < self.cpuct_base.rank()
        &&& 0 <= self.temperature_start.rank()
        &&& 0 <= self.temperature_endgame.rank()
        &&& 0 <= self.root_dirichlet_total_concentration.rank()
        &&& 0 < self.root_policy_temperature.rank()
        &&& self.root_exploration_fraction.is_share()
        &&& self.arena_promotion_rate.is_share()
        &&& self.arena_color_score_floor.is_share()
        &&& 0 <= self.arena_promotion_confidence_z.rank()
        &&& self.replay_recent_sample_fraction.is_share()
        &&& self.replay_policy_surprise_fraction.is_share()
        &&& self.replay_value_surprise_fraction.is_share()
    }

    /// What is wrong with the settings, if anything is, given the sum of the
    /// two surprise shares.
    pub open spec fn verdict(self, surprise_sum: Real) -> Result<(), ConfigError> {
        if exists|i: int| 0 <= i < 16 && !(#[trigger] self.real_seq()[i]).finite() {
            Err(ConfigError::NotFinite(self.first_not_finite(0) as usize))
        } else if self.format_version != FORMAT_VERSION {
            Err(ConfigError::Version)
        } else if self.lacks_a_count() {
            Err(ConfigError::Zero)
        } else if !self.in_range() {
            Err(ConfigError::Range)
        } else if self.arena_interval > 0 && self.arena_games == 0 {
            Err(ConfigError::NoArenaGames)
        } else if self.replay_warmup_samples > self.replay_capacity {
            Err(ConfigError::WarmupAboveCapacity)
        } else if surprise_sum.rank() > ONE_BITS {
            Err(ConfigError::SurpriseAboveOne)
        } else {
            Ok(())
        }
    }

    /// The first place from `i` on that holds no finite number.
    pub open spec fn first_not_finite(self, i: int) -> int
        decreases 16 - i,
    {
        if i >= 16 || !self.real_seq()[i].finite() {
            i
        } else {
            self.first_not_finite(i + 1)
        }
    }

    fn has_zero(&self) -> (result: bool)
        ensures
            result == self.lacks_a_count(),
    {
        self.simulations == 0 || self.hidden_size == 0 || self.selfplay_samples_per_update == 0
            || self.replay_warmup_samples == 0 || self.batch_epochs == 0 || self.batch_size == 0
            || self.train_samples_per_update == 0 || self.learning_rate_warmup_steps == 0
            || self.learning_rate_cosine_steps == 0
    }

    fn ranges_hold(&self) -> (result: bool)
        ensures
            result == self.in_range(),
    {
        self.learning_rate.order() > 0 && self.learning_rate_min.order() >= 0
            && self.learning_rate_min.order() <= self.learning_rate.order() && self.cpuct.order()
            > 0 && self.cpuct_log.order() >= 0 && self.cpuct_base.order() > 0
            && self.temperature_start.order() >= 0 && self.temperature_endgame.order() >= 0
            && self.root_dirichlet_total_concentration.order() >= 0
            && self.root_policy_temperature.order() > 0 && self.root_exploration_fraction.share()
            && self.arena_promotion_rate.share() && self.arena_color_score_floor.share()
            && self.arena_promotion_confidence_z.order() >= 0
            && self.replay_recent_sample_fraction.share()
            && self.replay_policy_surprise_fraction.share()
            && self.replay_value_surprise_fraction.share()
    }

    /// Tests the settings. The sum of the two surprise shares is rounded as
    /// single-precision numbers are, so the caller hands it in.
    pub fn validate(&self, surprise_sum: Real) -> (result: Result<(), ConfigError>)
        ensures
            result == self.verdict(surprise_sum),
    {
        let reals: [Real; 16] = self.reals();
        let mut i: usize = 0;
        while i < 16
            invariant
                i <= 16,
                reals@ == self.real_seq(),
                self.first_not_finite(0) == self.first_not_finite(i as int),
                forall|k: int| 0 <= k < i ==> (#[trigger] self.real_seq()[k]).finite(),
            decreases 16 - i,
        {
            if !reals[i].is_finite() {
                assert(!self.real_seq()[i as int].finite());
                return Err(ConfigError::NotFinite(i));
            }
            i = i + 1;
        }
        if self.format_version != FORMAT_VERSION {
            return Err(ConfigError::Version);
        }
        if self.has_zero() {
            return Err(ConfigError::Zero);
        }
        if !self.ranges_hold() {
            return Err(ConfigError::Range);
        }
        if self.arena_interval > 0 && self.arena_games == 0 {
            return Err(ConfigError::NoArenaGames);
        }
        if self.replay_warmup_samples > self.replay_capacity {
            return Err(ConfigError::WarmupAboveCapacity);
        }
        if surprise_sum.order() > ONE_BITS as i64 {
            return Err(ConfigError::SurpriseAboveOne);
        }
        Ok(())
    }

    /// The numbers of the settings that are used where none are given.
    pub open spec fn default_numbers(self) -> bool {
        &&& self.format_version == 22
        &&& self.simulations == 400
        &&& self.hidden_size == 128
        &&& self.seed == 20260730
        &&& self.selfplay_samples_per_update == 81920
        &&& self.selfplay_workers == 128
        &&& self.selfplay_queue_capacity == 0
        &&& self.learning_rate_warmup_steps == 200
        &&& self.learning_rate_cosine_steps == 10_000
        &&& self.batch_epochs == 1
        &&& self.batch_size == 256
        &&& self.temperature_decay_delay_plies == 12
        &&& self.temperature_decay_plies == 48
        &&& self.replay_capacity == 500_000
        &&& self.replay_warmup_samples == 81920
        &&& self.train_samples_per_update == 81920
        &&& self.replay_recent_updates == 5
        &&& self.checkpoint_interval == 20
        &&& self.max_checkpoints == 20
        &&& self.arena_interval == 20
        &&& self.arena_games == 100
        &&& self.arena_opening_plies == 2
        &&& self.real_seq() == seq![
            Real(0x3a51_b717),
            Real(0x38d1_b717),
            Real(0x4000_0000),
            Real(0x3f99_999a),
            Real(0x43fa_0000),
            Real(0x3f80_0000),
            Real(0x3d4c_cccd),
            Real(0x412d_47ae),
            Real(0x3e80_0000),
            Real(0x3fb9_999a),
            Real(0x3f00_0000),
            Real(0x3fa3_d70a),
            Real(0x3ee6_6666),
            Real(0x3ecc_cccd),
            Real(0x3ecc_cccd),
            Real(0x3dcc_cccd),
        ]
    }
}

impl Default for AzLoopConfig {
    fn default() -> (result: AzLoopConfig)
        ensures
            result.default_numbers(),
            result.model_path@ == "go19-v32-model.safetensors"@,
            result.best_model_path@ == "go19-v32-best.safetensors"@,
            result.replay_path@ == "data/go19-v32/replay.bin.lz4"@,
            result.progress_path@ == "data/go19-v32/azloop-progress.json"@,
            result.checkpoint_dir@ == "checkpoints/go19-v32"@,
            result.tensorboard_logdir@ == "runs/go19-v32"@,
    {
        let config: AzLoopConfig = AzLoopConfig {
            format_version: 22,
            model_path: "go19-v32-model.safetensors".to_string(),
            best_model_path: "go19-v32-best.safetensors".to_string(),
            replay_path: "data/go19-v32/replay.bin.lz4".to_string(),
            progress_path: "data/go19-v32/azloop-progress.json".to_string(),
            simulations: 400,
            hidden_size: 128,
            seed: 20260730,
            selfplay_samples_per_update: 81920,
            selfplay_workers: 128,
            selfplay_queue_capacity: 0,
            learning_rate: Real(0x3a51_b717),
            learning_rate_min: Real(0x38d1_b717),
            learning_rate_warmup_steps: 200,
            learning_rate_cosine_steps: 10_000,
            batch_epochs: 1,
            batch_size: 256,
            cpuct: Real(0x4000_0000),
            cpuct_log: Real(0x3f99_999a),
            cpuct_base: Real(0x43fa_0000),
            temperature_start: Real(0x3f80_0000),
            temperature_endgame: Real(0x3d4c_cccd),
            temperature_decay_delay_plies: 12,
            temperature_decay_plies: 48,
            root_dirichlet_total_concentration: Real(0x412d_47ae),
            root_exploration_fraction: Real(0x3e80_0000),
            root_policy_temperature: Real(0x3fb9_999a),
            replay_capacity: 500_000,
            replay_warmup_samples: 81920,
            train_samples_per_update: 81920,
            replay_recent_sample_fraction: Real(0x3ecc_cccd),
            replay_recent_updates: 5,
            replay_policy_surprise_fraction: Real(0x3ecc_cccd),
            replay_value_surprise_fraction: Real(0x3dcc_cccd),
            checkpoint_interval: 20,
            checkpoint_dir: "checkpoints/go19-v32".to_string(),
            max_checkpoints: 20,
            arena_interval: 20,
            arena_games: 100,
            arena_opening_plies: 2,
            arena_promotion_rate: Real(0x3f00_0000),
            arena_promotion_confidence_z: Real(0x3fa3_d70a),
            arena_color_score_floor: Real(0x3ee6_6666),
            tensorboard_logdir: "runs/go19-v32".to_string(),
        };
        config
    }
}

/// The default settings are in order.
pub proof fn law_defaults_are_valid(config: AzLoopConfig, surprise_sum: Real)
    requires
        config.default_numbers(),
        surprise_sum.rank() <= ONE_BITS,
    ensures
        config.verdict(surprise_sum) == Ok::<(), ConfigError>(()),
{
    let reals = config.real_seq();
    assert(config.learning_rate == reals[0]);
    assert(config.learning_rate_min == reals[1]);
    assert(config.cpuct == reals[2]);
    assert(config.cpuct_log == reals[3]);
    assert(config.cpuct_base == reals[4]);
    assert(config.temperature_start == reals[5]);
    assert(config.temperature_endgame == reals[6]);
    assert(config.root_dirichlet_total_concentration == reals[7]);
    assert(config.root_exploration_fraction == reals[8]);
    assert(config.root_policy_temperature == reals[9]);
    assert(config.arena_promotion_rate == reals[10]);
    assert(config.arena_promotion_confidence_z == reals[11]);
    assert(config.arena_color_score_floor == reals[12]);
    assert(config.replay_recent_sample_fraction == reals[13]);
    assert(config.replay_policy_surprise_fraction == reals[14]);
    assert(config.replay_value_surprise_fraction == reals[15]);
}

/// What is fed in as the share of recent samples, of the surprises and of the
/// promotion rate lies between nothing and one in valid settings.
pub proof fn law_valid_shares_lie_in_the_unit(config: AzLoopConfig, surprise_sum: Real)
    requires
        config.verdict(surprise_sum) is Ok,
    ensures
        config.replay_recent_sample_fraction.is_share(),
        config.replay_policy_surprise_fraction.is_share(),
        config.replay_value_surprise_fraction.is_share(),
        config.arena_promotion_rate.is_share(),
        config.replay_warmup_samples <= config.replay_capacity,
        config.replay_capacity > 0,
{
}

} // verus!
