//! The decisions of the training loop: how much work to start, what a batch
//! collects, when a model is checked, promoted or set back, and what is kept.
use crate::replay::Sample;
use crate::rng::{league_draw, mixed};
use crate::selfplay::{no_stats, SelfplayStats};
use crate::text::{
    append_chars, append_text, chars_of, copy_chars, decimal, digit_of, render_number, texts,
};
use vstd::prelude::*;

verus! {

pub open spec fn ceil_div(a: int, b: int) -> int {
    (a + b - 1) / b
}

fn div_ceil(a: usize, b: usize) -> (result: usize)
    requires
        b > 0,
    ensures
        result == ceil_div(a as int, b as int),
        result <= a,
{
    let q: usize = a / b;
    let r: usize = a % b;
    proof {
        vstd::arithmetic::div_mod::lemma_fundamental_div_mod(a as int, b as int);
        vstd::arithmetic::div_mod::lemma_mod_bound(a as int, b as int);
        assert(q <= a) by (nonlinear_arith)
            requires
                a == b * q + r,
                b >= 1,
                r >= 0,
                q >= 0,
        ;
        if r == 0 {
            assert(a + b - 1 == b * q + (b - 1));
            vstd::arithmetic::div_mod::lemma_fundamental_div_mod_converse(
                a + b - 1,
                b as int,
                q as int,
                b - 1,
            );
        } else {
            assert(b * (q + 1) == b * q + b) by (nonlinear_arith);
            vstd::arithmetic::div_mod::lemma_fundamental_div_mod_converse(
                a + b - 1,
                b as int,
                q + 1,
                r - 1,
            );
            assert(q < a) by (nonlinear_arith)
                requires
                    a == b * q + r,
                    b >= 1,
                    r >= 1,
                    q >= 0,
            ;
        }
    }
    if r > 0 {
        q + 1
    } else {
        q
    }
}

/// The games of an arena against the champion, and against each champion
/// before it: half as many again shared out among these, two at least.
pub open spec fn arena_budget(current_games: int, histories: int) -> (int, int) {
    if histories == 0 {
        (current_games, 0)
    } else {
        let each = ceil_div(ceil_div(current_games, 2), histories);
        (current_games, if each < 2 {
            2
        } else {
            each
        })
    }
}

pub fn arena_game_budget(current_games: usize, histories: usize) -> (result: (usize, usize))
    ensures
        (result.0 as int, result.1 as int) == arena_budget(current_games as int, histories as int),
{
    if histories == 0 {
        return (current_games, 0);
    }
    let each: usize = div_ceil(div_ceil(current_games, 2), histories);
    (current_games, if each < 2 {
        2
    } else {
        each
    })
}

/// Former champions never take games from the match with the champion.
pub proof fn law_history_takes_no_games(current_games: int, histories: int)
    requires
        current_games >= 0,
        histories >= 0,
    ensures
        arena_budget(current_games, histories).0 == current_games,
        histories > 0 ==> arena_budget(current_games, histories).1 >= 2,
{
}

/// The workers asked for, where 0 asks for one on each core, and the workers
/// started: no more than there are cores.
pub open spec fn workers_for(configured: usize, cores: usize) -> (usize, usize) {
    let asked = if configured == 0 {
        cores
    } else {
        configured
    };
    (asked, if asked < cores {
        asked
    } else {
        cores
    })
}

pub fn worker_count(configured: usize, cores: usize) -> (result: (usize, usize))
    ensures
        result == workers_for(configured, cores),
{
    let requested: usize = if configured == 0 {
        cores
    } else {
        configured
    };
    let workers: usize = if requested < cores {
        requested
    } else {
        cores
    };
    (requested, workers)
}

/// The games that may wait: as configured, else eight for each worker and at
/// least 32.
pub open spec fn queue_size(configured: int, workers: int) -> int {
    if configured == 0 {
        let eight = if workers * 8 > usize::MAX {
            usize::MAX as int
        } else {
            workers * 8
        };
        if eight < 32 {
            32
        } else {
            eight
        }
    } else {
        configured
    }
}

pub fn queue_capacity(configured: usize, workers: usize) -> (result: usize)
    ensures
        result == queue_size(configured as int, workers as int),
        result > 0,
{
    if configured != 0 {
        return configured;
    }
    let eight: usize = match workers.checked_mul(8) {
        Some(product) => product,
        None => usize::MAX,
    };
    if eight < 32 {
        32
    } else {
        eight
    }
}

/// The samples that the first batch waits for, given those restored: what the
/// warmup still lacks, and at least what every update takes.
pub open spec fn awaited(warmup: int, restored: int, per_update: int) -> int {
    let each: int = if per_update < 1 {
        1
    } else {
        per_update
    };
    if warmup - restored > each {
        warmup - restored
    } else {
        each
    }
}

pub fn first_target(warmup: usize, restored: usize, per_update: usize) -> (result: usize)
    ensures
        result >= 1,
        result == awaited(warmup as int, restored as int, per_update as int),
{
    let each: usize = if per_update < 1 {
        1
    } else {
        per_update
    };
    let lacking: usize = warmup.saturating_sub(restored);
    if lacking > each {
        lacking
    } else {
        each
    }
}

/// A game that a worker handed in.
pub struct SelfplayGame {
    pub worker: usize,
    pub model_version: u64,
    pub samples: Vec<Sample>,
    pub stats: SelfplayStats,
}

/// The games collected for the next update.
pub struct PendingBatch {
    pub samples: Vec<Sample>,
    pub stats: SelfplayStats,
    pub games: usize,
    pub oldest_version: u64,
    pub newest_version: u64,
    pub workers: Vec<usize>,
}

/// The sample with its generation set.
pub open spec fn dated(sample: Sample, generation: u64) -> Sample {
    Sample { generation, ..sample }
}

pub open spec fn all_dated(samples: Seq<Sample>, generation: u64) -> Seq<Sample> {
    samples.map_values(|sample: Sample| dated(sample, generation))
}

impl PendingBatch {
    /// Each worker is listed once, and every version lies within the bounds.
    pub open spec fn wf(self) -> bool {
        &&& self.workers@.no_duplicates()
        &&& self.games > 0 ==> self.oldest_version <= self.newest_version
        &&& forall|i: int|
            0 <= i < self.samples@.len() ==> self.oldest_version <= (
            #[trigger] self.samples@[i]).generation <= self.newest_version
    }

    pub open spec fn is_empty_batch(self) -> bool {
        &&& self.samples@.len() == 0
        &&& self.games == 0
        &&& self.oldest_version == u64::MAX
        &&& self.newest_version == 0
        &&& self.workers@.len() == 0
        &&& self.stats == no_stats()
    }

    pub fn new() -> (result: PendingBatch)
        ensures
            result.wf(),
            result.is_empty_batch(),
    {
        PendingBatch {
            samples: Vec::new(),
            stats: SelfplayStats::default(),
            games: 0,
            oldest_version: u64::MAX,
            newest_version: 0,
            workers: Vec::new(),
        }
    }

    /// Takes a game in: its samples are dated by the version that made them.
    pub fn merge_game(&mut self, game: SelfplayGame)
        requires
            old(self).wf(),
            old(self).games < usize::MAX,
            old(self).stats.addable(game.stats),
        ensures
            final(self).wf(),
            final(self).samples@ == old(self).samples@ + all_dated(
                game.samples@,
                game.model_version,
            ),
            final(self).stats == old(self).stats.plus(game.stats),
            final(self).games == old(self).games + 1,
            final(self).oldest_version == (if game.model_version < old(self).oldest_version {
                game.model_version
            } else {
                old(self).oldest_version
            }),
            final(self).newest_version == (if game.model_version > old(self).newest_version {
                game.model_version
            } else {
                old(self).newest_version
            }),
            final(self).workers@.to_set() == old(self).workers@.to_set().insert(game.worker),
    {
        let ghost before = *self;
        if game.model_version < self.oldest_version {
            self.oldest_version = game.model_version;
        }
        if game.model_version > self.newest_version {
            self.newest_version = game.model_version;
        }
        let mut known: bool = false;
        let mut i: usize = 0;
        while i < self.workers.len()
            invariant
                i <= self.workers@.len(),
                known == self.workers@.take(i as int).contains(game.worker),
            decreases self.workers@.len() - i,
        {
            proof {
                let more = self.workers@.take(i + 1);
                let less = self.workers@.take(i as int);
                assert(more =~= less.push(self.workers@[i as int]));
                if less.contains(game.worker) {
                    assert(more[less.index_of(game.worker)] == game.worker);
                }
                if self.workers@[i as int] == game.worker {
                    assert(more[i as int] == game.worker);
                }
            }
            if self.workers[i] == game.worker {
                known = true;
            }
            i = i + 1;
        }
        assert(self.workers@.take(self.workers@.len() as int) =~= self.workers@);
        if !known {
            self.workers.push(game.worker);
            proof {
                let after = self.workers@;
                assert(after =~= before.workers@.push(game.worker));
                assert forall|x: usize| after.to_set().contains(x)
                    <==> before.workers@.to_set().insert(game.worker).contains(x) by {
                    if before.workers@.contains(x) {
                        assert(after[before.workers@.index_of(x)] == x);
                    }
                    if x == game.worker {
                        assert(after[before.workers@.len() as int] == x);
                    }
                }
                assert(after.to_set() =~= before.workers@.to_set().insert(game.worker));
            }
        } else {
            proof {
                assert(self.workers@.to_set() =~= before.workers@.to_set().insert(game.worker));
            }
        }
        self.stats.add_assign(&game.stats);
        let version: u64 = game.model_version;
        let ghost added = game.samples@;
        let mut rest: Vec<Sample> = game.samples;
        rest = date_samples(rest, version);
        self.samples.append(&mut rest);
        self.games = self.games + 1;
        proof {
            assert forall|k: int|
                0 <= k < self.samples@.len() implies self.oldest_version <= (
            #[trigger] self.samples@[k]).generation <= self.newest_version by {
                if k < before.samples@.len() {
                    assert(self.samples@[k] == before.samples@[k]);
                } else {
                    assert(self.samples@[k] == all_dated(added, version)[k
                        - before.samples@.len()]);
                }
            }
        }
    }
}

fn date_samples(samples: Vec<Sample>, generation: u64) -> (result: Vec<Sample>)
    ensures
        result@ == all_dated(samples@, generation),
{
    let ghost all = samples@;
    let mut rest: Vec<Sample> = samples;
    let mut result: Vec<Sample> = Vec::with_capacity(rest.len());
    let mut back: Vec<Sample> = Vec::with_capacity(rest.len());
    while rest.len() > 0
        invariant
            rest@.len() + back@.len() == all.len(),
            rest@ == all.take(rest@.len() as int),
            forall|k: int|
                0 <= k < back@.len() ==> #[trigger] back@[k] == dated(
                    all[all.len() - 1 - k],
                    generation,
                ),
        decreases rest@.len(),
    {
        let ghost n = rest@.len();
        match rest.pop() {
            Some(sample) => {
                back.push(Sample { generation, ..sample });
                assert(rest@ =~= all.take(n - 1));
            },
            None => {},
        }
    }
    while back.len() > 0
        invariant
            back@.len() + result@.len() == all.len(),
            forall|k: int|
                0 <= k < back@.len() ==> #[trigger] back@[k] == dated(
                    all[all.len() - 1 - k],
                    generation,
                ),
            forall|k: int|
                0 <= k < result@.len() ==> #[trigger] result@[k] == dated(all[k], generation),
        decreases back@.len(),
    {
        match back.pop() {
            Some(sample) => {
                result.push(sample);
            },
            None => {},
        }
    }
    assert(result@ =~= all_dated(all, generation));
    result
}

/// What the collector does with a game.
#[derive(Clone, Copy, Debug, PartialEq, Eq, Structural)]
pub enum Intake {
    /// The game is older than the current version: leave it.
    Stale,
    /// Take it into the batch.
    Merge,
    /// The batch is older than the current version: start a new one with it.
    Restart,
}

/// What becomes of a game of a version, while the batch holds so many games of
/// versions up to its newest.
pub open spec fn intake_of(
    game_version: u64,
    current_version: u64,
    pending_games: usize,
    pending_newest: u64,
) -> Intake {
    if game_version < current_version {
        Intake::Stale
    } else if pending_games > 0 && pending_newest < current_version {
        Intake::Restart
    } else {
        Intake::Merge
    }
}

pub fn intake(
    game_version: u64,
    current_version: u64,
    pending_games: usize,
    pending_newest: u64,
) -> (result: Intake)
    ensures
        result == intake_of(game_version, current_version, pending_games, pending_newest),
{
    if game_version < current_version {
        Intake::Stale
    } else if pending_games > 0 && pending_newest < current_version {
        Intake::Restart
    } else {
        Intake::Merge
    }
}

/// Takes a game as its intake says, and tells whether the batch has what it
/// waits for.
pub fn collect(
    pending: PendingBatch,
    game: SelfplayGame,
    current_version: u64,
    target: usize,
) -> (result: (PendingBatch, bool))
    requires
        pending.wf(),
        pending.games < usize::MAX,
        pending.stats.addable(game.stats),
    ensures
        result.0.wf(),
        game.model_version < current_version ==> result == (pending, false),
        game.model_version >= current_version && !(pending.games > 0 && pending.newest_version
            < current_version) ==> {
            &&& result.0.samples@ == pending.samples@ + all_dated(game.samples@, game.model_version)
            &&& result.0.games == pending.games + 1
            &&& result.0.stats == pending.stats.plus(game.stats)
            &&& result.0.oldest_version == (if game.model_version < pending.oldest_version {
                game.model_version
            } else {
                pending.oldest_version
            })
            &&& result.0.newest_version == (if game.model_version > pending.newest_version {
                game.model_version
            } else {
                pending.newest_version
            })
            &&& result.0.workers@.to_set() == pending.workers@.to_set().insert(game.worker)
        },
        game.model_version >= current_version && pending.games > 0 && pending.newest_version
            < current_version ==> {
            &&& result.0.samples@ == all_dated(game.samples@, game.model_version)
            &&& result.0.games == 1
            &&& result.0.stats == game.stats
            &&& result.0.oldest_version == game.model_version
            &&& result.0.newest_version == game.model_version
            &&& result.0.workers@.to_set() == set![game.worker]
        },
        game.model_version >= current_version ==> result.1 == (result.0.samples@.len() >= target),
        game.model_version >= current_version ==> result.0.newest_version >= current_version,
{
    match intake(game.model_version, current_version, pending.games, pending.newest_version) {
        Intake::Stale => (pending, false),
        Intake::Merge => {
            let mut batch: PendingBatch = pending;
            batch.merge_game(game);
            let full: bool = batch.samples.len() >= target;
            (batch, full)
        },
        Intake::Restart => {
            let mut batch: PendingBatch = PendingBatch::new();
            let ghost none = batch;
            let ghost added = all_dated(game.samples@, game.model_version);
            let ghost worker = game.worker;
            batch.merge_game(game);
            assert(none.samples@ + added =~= added);
            assert(none.workers@.to_set().insert(worker) =~= set![worker]);
            let full: bool = batch.samples.len() >= target;
            (batch, full)
        },
    }
}

/// The pool with new samples, the oldest dropped beyond its capacity.
pub open spec fn pooled<T>(pool: Seq<T>, fresh: Seq<T>, capacity: nat) -> Seq<T> {
    let all = pool + fresh;
    if all.len() > capacity {
        all.skip(all.len() - capacity)
    } else {
        all
    }
}

pub fn extend_pool(pool: Vec<Sample>, fresh: Vec<Sample>, capacity: usize) -> (result: Vec<Sample>)
    requires
        pool@.len() + fresh@.len() <= usize::MAX,
    ensures
        result@ == pooled(pool@, fresh@, capacity as nat),
        result@.len() <= capacity || result@.len() == pool@.len() + fresh@.len(),
{
    let mut all: Vec<Sample> = pool;
    let mut rest: Vec<Sample> = fresh;
    all.append(&mut rest);
    if all.len() > capacity {
        let ghost before = all@;
        let drop: usize = all.len() - capacity;
        let kept: Vec<Sample> = all.split_off(drop);
        assert(kept@ =~= before.skip(drop as int));
        kept
    } else {
        all
    }
}

/// The former champions with one more before them, as many as are kept.
pub open spec fn with_champion<T>(history: Seq<T>, champion: T, size: nat) -> Seq<T> {
    let all = seq![champion] + history;
    if size == 0 {
        Seq::empty()
    } else if all.len() > size {
        all.take(size as int)
    } else {
        all
    }
}

pub fn push_champion<T>(history: &mut Vec<T>, champion: T, size: usize)
    requires
        old(history)@.len() < usize::MAX,
    ensures
        final(history)@ == with_champion(old(history)@, champion, size as nat),
{
    if size == 0 {
        history.clear();
        return;
    }
    let ghost before = history@;
    history.insert(0, champion);
    assert(history@ =~= seq![champion] + before);
    if history.len() > size {
        history.truncate(size);
        assert(history@ =~= (seq![champion] + before).take(size as int));
    }
}

/// What the loop has done so far.
#[derive(Clone, Copy, Debug, PartialEq, Eq, Structural)]
pub struct Progress {
    pub update: usize,
    pub total_games: usize,
    pub total_samples: usize,
    pub optimizer_steps: usize,
    pub learning_rate: u32,
    pub consecutive_rejections: usize,
}

impl Default for Progress {
    fn default() -> (result: Progress)
        ensures
            result == (Progress {
                update: 0,
                total_games: 0,
                total_samples: 0,
                optimizer_steps: 0,
                learning_rate: 0,
                consecutive_rejections: 0,
            }),
    {
        Progress {
            update: 0,
            total_games: 0,
            total_samples: 0,
            optimizer_steps: 0,
            learning_rate: 0,
            consecutive_rejections: 0,
        }
    }
}

/// What becomes of a candidate after its arena.
#[derive(Clone, Copy, Debug, PartialEq, Eq, Structural)]
pub enum Verdict {
    Promote,
    Keep,
    SetBack,
}

/// The verdict, and the rejections in a row after it.
pub open spec fn verdict_of(promoted: bool, rejections: int, reset: int) -> (Verdict, int) {
    if promoted {
        (Verdict::Promote, 0)
    } else if reset > 0 && rejections + 1 >= reset {
        (Verdict::SetBack, 0)
    } else {
        (Verdict::Keep, rejections + 1)
    }
}

impl Progress {
    /// Counts an update.
    pub fn advance(&mut self, games: usize, samples: usize, steps: usize, learning_rate: u32)
        requires
            old(self).update < usize::MAX,
            old(self).total_games + games <= usize::MAX,
            old(self).total_samples + samples <= usize::MAX,
            old(self).optimizer_steps + steps <= usize::MAX,
        ensures
            *final(self) == (Progress {
                update: (old(self).update + 1) as usize,
                total_games: (old(self).total_games + games) as usize,
                total_samples: (old(self).total_samples + samples) as usize,
                optimizer_steps: (old(self).optimizer_steps + steps) as usize,
                learning_rate,
                consecutive_rejections: old(self).consecutive_rejections,
            }),
    {
        self.update = self.update + 1;
        self.total_games = self.total_games + games;
        self.total_samples = self.total_samples + samples;
        self.optimizer_steps = self.optimizer_steps + steps;
        self.learning_rate = learning_rate;
    }

    /// What an arena comes to. After as many rejections in a row as `reset`
    /// says the trainer is set back to the champion; 0 never does that.
    pub fn settle_arena(&mut self, current_passed: bool, history_passed: bool, reset: usize) -> (
        verdict: Verdict)
        requires
            old(self).consecutive_rejections < usize::MAX,
        ensures
            ({
                let (outcome, rejections) = verdict_of(
                    current_passed && history_passed,
                    old(self).consecutive_rejections as int,
                    reset as int,
                );
                &&& verdict == outcome
                &&& *final(self) == (Progress {
                    consecutive_rejections: rejections as usize,
                    ..*old(self)
                })
            }),
    {
        if current_passed && history_passed {
            self.consecutive_rejections = 0;
            return Verdict::Promote;
        }
        self.consecutive_rejections = self.consecutive_rejections + 1;
        if reset > 0 && self.consecutive_rejections >= reset {
            self.consecutive_rejections = 0;
            return Verdict::SetBack;
        }
        Verdict::Keep
    }
}

/// Fewer rejections in a row are ever on record than set the trainer back.
pub proof fn law_rejections_stay_below_the_reset(promoted: bool, rejections: int, reset: int)
    requires
        reset > 0,
        0 <= rejections < reset,
    ensures
        0 <= verdict_of(promoted, rejections, reset).1 < reset,
{
}

/// Something that happens every `interval` updates does after this one; 0
/// never does.
pub open spec fn falls_due(interval: int, update: int) -> bool {
    interval > 0 && update % interval == 0
}

pub fn due(interval: usize, update: usize) -> (result: bool)
    ensures
        result == falls_due(interval as int, update as int),
{
    interval > 0 && update % interval == 0
}

/// The digits of a number with zeros before them to six.
pub open spec fn six_digits(n: nat) -> Seq<char> {
    let digits = decimal(n);
    if digits.len() < 6 {
        Seq::new((6 - digits.len()) as nat, |i: int| '0') + digits
    } else {
        digits
    }
}

/// The name of the checkpoint after an update.
pub open spec fn checkpoint_of(update: nat) -> Seq<char> {
    "update-"@ + six_digits(update) + "-model.safetensors"@
}

pub fn checkpoint_name(update: usize) -> (result: Vec<char>)
    ensures
        result@ == checkpoint_of(update as nat),
{
    let digits: Vec<char> = render_number(update as u64);
    let mut result: Vec<char> = Vec::new();
    append_text(&mut result, "update-");
    let ghost start = result@;
    assert(start =~= "update-"@);
    let mut k: usize = digits.len();
    assert(start + Seq::new(0, |i: int| '0') =~= start);
    while k < 6
        invariant
            digits@.len() <= k,
            k <= 6 || k == digits@.len(),
            result@ == start + Seq::new((k - digits@.len()) as nat, |i: int| '0'),
        decreases 6 - k,
    {
        result.push('0');
        assert(result@ =~= start + Seq::new((k + 1 - digits@.len()) as nat, |i: int| '0'));
        k = k + 1;
    }
    append_chars(&mut result, &digits);
    assert(result@ =~= start + six_digits(update as nat));
    append_text(&mut result, "-model.safetensors");
    result
}

/// The name of the file of a former champion.
pub fn champion_name(index: usize) -> (result: Vec<char>)
    requires
        index < usize::MAX,
    ensures
        result@ == "champion-history-"@ + decimal((index + 1) as nat) + ".safetensors"@,
{
    let mut result: Vec<char> = Vec::new();
    append_text(&mut result, "champion-history-");
    assert(result@ =~= "champion-history-"@);
    let digits: Vec<char> = render_number((index + 1) as u64);
    append_chars(&mut result, &digits);
    append_text(&mut result, ".safetensors");
    result
}

/// The device that was found for training.
#[derive(Clone, Copy, Debug, PartialEq, Eq, Structural)]
pub enum Accelerator {
    Cuda,
    Metal,
    /// Only the processor.
    Processor,
}

/// The name of the device that training runs on: the accelerator that was
/// asked for, where it was found; else the processor, which is device 0 alone.
pub open spec fn device_of(requested: nat, found: Accelerator) -> Option<Seq<char>> {
    match found {
        Accelerator::Cuda => Some("cuda:"@ + decimal(requested)),
        Accelerator::Metal => Some("metal:"@ + decimal(requested)),
        Accelerator::Processor => if requested == 0 {
            Some("cpu"@)
        } else {
            None
        },
    }
}

pub fn training_device_name(requested: usize, found: Accelerator) -> (result: Option<Vec<char>>)
    ensures
        (match result {
            Some(name) => Some(name@),
            None => None,
        }) == device_of(requested as nat, found),
{
    let mut name: Vec<char> = Vec::new();
    match found {
        Accelerator::Cuda => {
            append_text(&mut name, "cuda:");
            assert(name@ =~= "cuda:"@);
        },
        Accelerator::Metal => {
            append_text(&mut name, "metal:");
            assert(name@ =~= "metal:"@);
        },
        Accelerator::Processor => {
            if requested != 0 {
                return None;
            }
            append_text(&mut name, "cpu");
            assert(name@ =~= "cpu"@);
            return Some(name);
        },
    }
    let digits: Vec<char> = render_number(requested as u64);
    append_chars(&mut name, &digits);
    Some(name)
}

/// Text order: by the first character that differs, and a prefix before what
/// it begins.
pub open spec fn precedes(a: Seq<char>, b: Seq<char>) -> bool
    decreases a.len(),
{
    if b.len() == 0 {
        false
    } else if a.len() == 0 {
        true
    } else if a[0] != b[0] {
        (a[0] as int) < (b[0] as int)
    } else {
        precedes(a.skip(1), b.skip(1))
    }
}

pub fn char_number(c: char) -> (result: u32)
    ensures
        result == c as int,
{
    c as u32
}

/// Whether a name comes before another.
pub fn name_before(a: &Vec<char>, b: &Vec<char>) -> (result: bool)
    ensures
        result == precedes(a@, b@),
{
    let mut i: usize = 0;
    assert(a@.skip(0) =~= a@);
    assert(b@.skip(0) =~= b@);
    while i < a.len() && i < b.len()
        invariant
            i <= a@.len(),
            i <= b@.len(),
            precedes(a@, b@) == precedes(a@.skip(i as int), b@.skip(i as int)),
        decreases a@.len() - i,
    {
        assert(a@.skip(i as int).skip(1) =~= a@.skip(i + 1));
        assert(b@.skip(i as int).skip(1) =~= b@.skip(i + 1));
        let (x, y) = (a[i], b[i]);
        if x != y {
            return char_number(x) < char_number(y);
        }
        i = i + 1;
    }
    i < b.len()
}

/// Two names are equal, or one comes before the other, and never both.
pub proof fn law_names_are_ordered(a: Seq<char>, b: Seq<char>)
    ensures
        precedes(a, b) || precedes(b, a) || a == b,
        !(precedes(a, b) && precedes(b, a)),
        a == b ==> !precedes(a, b),
    decreases a.len(),
{
    if a.len() > 0 && b.len() > 0 && a[0] != b[0] {
        assert(precedes(a, b) || precedes(b, a));
    } else if a.len() > 0 && b.len() > 0 {
        law_names_are_ordered(a.skip(1), b.skip(1));
        if a.skip(1) == b.skip(1) {
            assert(a =~= seq![a[0]] + a.skip(1));
            assert(b =~= seq![b[0]] + b.skip(1));
        }
    } else if a.len() == 0 && b.len() == 0 {
        assert(a =~= b);
    }
}

/// The order goes on: what comes before what comes before comes before.
pub proof fn law_name_order_is_transitive(a: Seq<char>, b: Seq<char>, c: Seq<char>)
    requires
        precedes(a, b),
        precedes(b, c),
    ensures
        precedes(a, c),
    decreases a.len(),
{
    if a.len() > 0 && a[0] == b[0] && b[0] == c[0] {
        law_name_order_is_transitive(a.skip(1), b.skip(1), c.skip(1));
    }
}

/// The place of a name among names in order: after all that do not come after
/// it.
pub open spec fn place_of(names: Seq<Seq<char>>, name: Seq<char>) -> int
    decreases names.len(),
{
    if names.len() == 0 {
        0
    } else if !precedes(name, names.last()) {
        names.len() as int
    } else {
        place_of(names.drop_last(), name)
    }
}

/// Names put in order one by one.
pub open spec fn in_order(names: Seq<Seq<char>>) -> Seq<Seq<char>>
    decreases names.len(),
{
    if names.len() == 0 {
        names
    } else {
        let rest = in_order(names.drop_last());
        rest.insert(place_of(rest, names.last()), names.last())
    }
}

pub open spec fn ordered(names: Seq<Seq<char>>) -> bool {
    forall|i: int, j: int| 0 <= i < j < names.len() ==> !precedes(names[j], names[i])
}

proof fn lemma_place_of(names: Seq<Seq<char>>, name: Seq<char>)
    requires
        ordered(names),
    ensures
        0 <= place_of(names, name) <= names.len(),
        ordered(names.insert(place_of(names, name), name)),
        forall|i: int| place_of(names, name) <= i < names.len() ==> precedes(name, names[i]),
        forall|i: int| 0 <= i < place_of(names, name) ==> !precedes(name, names[i]),
    decreases names.len(),
{
    let at = place_of(names, name);
    if names.len() > 0 {
        let rest = names.drop_last();
        assert(ordered(rest));
        lemma_place_of(rest, name);
        if !precedes(name, names.last()) {
            assert forall|i: int| 0 <= i < names.len() implies !precedes(name, names[i]) by {
                if i < names.len() - 1 && precedes(name, names[i]) {
                    law_names_are_ordered(names[i], names.last());
                    law_names_are_ordered(name, names.last());
                    assert(!precedes(names.last(), names[i]));
                    if names[i] != names.last() {
                        law_name_order_is_transitive(name, names[i], names.last());
                    }
                }
            }
        } else {
            assert forall|i: int| at <= i < names.len() implies precedes(name, names[i]) by {
                if i < names.len() - 1 {
                    assert(names[i] == rest[i]);
                }
            }
            assert forall|i: int| 0 <= i < at implies !precedes(name, names[i]) by {
                assert(names[i] == rest[i]);
            }
        }
    }
    let more = names.insert(at, name);
    assert forall|i: int, j: int| 0 <= i < j < more.len() implies !precedes(more[j], more[i]) by {
        if j == at {
            assert(more[i] == names[i]);
        } else if i == at {
            assert(more[j] == names[j - 1]);
            law_names_are_ordered(name, names[j - 1]);
        } else {
            let a = if i < at {
                i
            } else {
                i - 1
            };
            let b = if j < at {
                j
            } else {
                j - 1
            };
            assert(more[i] == names[a]);
            assert(more[j] == names[b]);
        }
    }
}

/// Putting names in order keeps each as often as it occurs, and leaves none
/// after one that it comes before.
pub proof fn law_names_come_in_order(names: Seq<Seq<char>>)
    ensures
        ordered(in_order(names)),
        in_order(names).to_multiset() == names.to_multiset(),
        in_order(names).len() == names.len(),
    decreases names.len(),
{
    broadcast use vstd::seq_lib::group_to_multiset_ensures;

    if names.len() > 0 {
        let rest = in_order(names.drop_last());
        law_names_come_in_order(names.drop_last());
        lemma_place_of(rest, names.last());
        assert(names =~= names.drop_last().push(names.last()));
        vstd::seq_lib::to_multiset_insert(rest, place_of(rest, names.last()), names.last());
        assert(in_order(names).to_multiset() =~= names.to_multiset());
    } else {
        assert(in_order(names) =~= names);
    }
}

/// The names among the first `n` that are names of checkpoints.
pub open spec fn checkpoints_among(names: Seq<Seq<char>>, n: nat) -> Seq<Seq<char>>
    decreases n,
{
    if n == 0 {
        Seq::empty()
    } else {
        let before = checkpoints_among(names, (n - 1) as nat);
        if begins_with(names[n - 1], "update-"@) {
            before.push(names[n - 1])
        } else {
            before
        }
    }
}

pub open spec fn begins_with(name: Seq<char>, start: Seq<char>) -> bool {
    start.len() <= name.len() && name.take(start.len() as int) == start
}

pub fn starts_with(name: &Vec<char>, start: &Vec<char>) -> (result: bool)
    ensures
        result == begins_with(name@, start@),
{
    if start.len() > name.len() {
        return false;
    }
    let mut i: usize = 0;
    while i < start.len()
        invariant
            i <= start@.len() <= name@.len(),
            forall|k: int| 0 <= k < i ==> name@[k] == start@[k],
        decreases start@.len() - i,
    {
        if name[i] != start[i] {
            assert(name@.take(start@.len() as int)[i as int] == name@[i as int]);
            return false;
        }
        i = i + 1;
    }
    assert(name@.take(start@.len() as int) =~= start@);
    true
}

/// The checkpoints to remove among the names of a directory: all but the
/// `keep` last in order; none if `keep` is 0.
pub open spec fn pruned(names: Seq<Seq<char>>, keep: nat) -> Seq<Seq<char>> {
    let sorted = in_order(checkpoints_among(names, names.len()));
    if keep == 0 || sorted.len() <= keep {
        Seq::empty()
    } else {
        sorted.take(sorted.len() - keep)
    }
}

pub fn prune_list(names: &Vec<Vec<char>>, keep: usize) -> (result: Vec<Vec<char>>)
    ensures
        texts(result@) == pruned(texts(names@), keep as nat),
{
    let start: Vec<char> = chars_of("update-");
    let mut sorted: Vec<Vec<char>> = Vec::new();
    let mut i: usize = 0;
    let ghost all = texts(names@);
    assert(texts(sorted@) =~= in_order(checkpoints_among(all, 0)));
    while i < names.len()
        invariant
            i <= names@.len(),
            all == texts(names@),
            start@ == "update-"@,
            texts(sorted@) == in_order(checkpoints_among(all, i as nat)),
        decreases names@.len() - i,
    {
        assert(all[i as int] == names@[i as int]@);
        let ghost before = checkpoints_among(all, i as nat);
        if starts_with(&names[i], &start) {
            proof {
                assert(before.push(all[i as int]).drop_last() =~= before);
                law_names_come_in_order(before);
                lemma_place_of(in_order(before), all[i as int]);
            }
            let ghost rest = texts(sorted@);
            let mut at: usize = sorted.len();
            assert(rest.take(at as int) =~= rest);
            while at > 0 && name_before(&names[i], &sorted[at - 1])
                invariant
                    at <= sorted@.len(),
                    i < names@.len(),
                    rest == texts(sorted@),
                    place_of(rest, names@[i as int]@) == place_of(
                        rest.take(at as int),
                        names@[i as int]@,
                    ),
                decreases at,
            {
                assert(rest[at - 1] == sorted@[at - 1]@);
                assert(rest.take(at as int).drop_last() =~= rest.take(at - 1));
                at = at - 1;
            }
            proof {
                if at > 0 {
                    assert(rest.take(at as int).last() == sorted@[at - 1]@);
                }
            }
            let ghost unsorted = sorted@;
            let name: Vec<char> = copy_chars(&names[i]);
            sorted.insert(at, name);
            assert(texts(sorted@) =~= rest.insert(at as int, all[i as int]));
        }
        i = i + 1;
    }
    if keep == 0 || sorted.len() <= keep {
        let none: Vec<Vec<char>> = Vec::new();
        assert(texts(none@) =~= Seq::<Seq<char>>::empty());
        return none;
    }
    let ghost whole = sorted@;
    let n: usize = sorted.len() - keep;
    sorted.truncate(n);
    assert(texts(sorted@) =~= texts(whole).take(n as int));
    sorted
}

/// The last `k` digits of a number.
spec fn last_digits(n: nat, k: nat) -> Seq<char>
    decreases k,
{
    if k == 0 {
        Seq::empty()
    } else {
        last_digits(n / 10, (k - 1) as nat).push(digit_of(n % 10))
    }
}

spec fn ten_to(k: nat) -> nat
    decreases k,
{
    if k == 0 {
        1
    } else {
        10 * ten_to((k - 1) as nat)
    }
}

proof fn lemma_zeros(k: nat)
    ensures
        last_digits(0, k) == Seq::new(k, |i: int| '0'),
    decreases k,
{
    if k > 0 {
        lemma_zeros((k - 1) as nat);
    }
    assert(last_digits(0, k) =~= Seq::new(k, |i: int| '0'));
}

proof fn lemma_padded(n: nat, k: nat)
    requires
        n < ten_to(k),
        k > 0,
    ensures
        decimal(n).len() <= k,
        Seq::new((k - decimal(n).len()) as nat, |i: int| '0') + decimal(n) == last_digits(n, k),
    decreases k,
{
    if n < 10 {
        lemma_zeros((k - 1) as nat);
        assert(n / 10 == 0);
        assert(Seq::new((k - 1) as nat, |i: int| '0') + decimal(n) =~= last_digits(n, k));
    } else {
        if k == 1 {
            assert(ten_to(1) == 10) by {
                assert(ten_to(0) == 1);
            }
        }
        lemma_padded(n / 10, (k - 1) as nat);
        let pad = Seq::new((k - decimal(n).len()) as nat, |i: int| '0');
        assert(pad + decimal(n) =~= (pad + decimal(n / 10)).push(digit_of(n % 10)));
    }
}

proof fn lemma_same_start(start: Seq<char>, a: Seq<char>, b: Seq<char>)
    ensures
        precedes(start + a, start + b) == precedes(a, b),
    decreases start.len(),
{
    if start.len() == 0 {
        assert(start + a =~= a);
        assert(start + b =~= b);
    } else {
        lemma_same_start(start.skip(1), a, b);
        assert((start + a).skip(1) =~= start.skip(1) + a);
        assert((start + b).skip(1) =~= start.skip(1) + b);
    }
}

/// Of two numbers of as many digits the lesser comes first, whatever follows.
proof fn lemma_digits_in_order(a: nat, b: nat, k: nat, x: Seq<char>, y: Seq<char>)
    requires
        a < b < ten_to(k),
    ensures
        precedes(last_digits(a, k) + x, last_digits(b, k) + y),
    decreases k,
{
    if k > 0 {
        let (p, q) = (last_digits(a / 10, (k - 1) as nat), last_digits(b / 10, (k - 1) as nat));
        let (c, d) = (digit_of(a % 10), digit_of(b % 10));
        assert(last_digits(a, k) + x =~= p + (seq![c] + x));
        assert(last_digits(b, k) + y =~= q + (seq![d] + y));
        if a / 10 < b / 10 {
            lemma_digits_in_order(a / 10, b / 10, (k - 1) as nat, seq![c] + x, seq![d] + y);
        } else {
            lemma_same_start(p, seq![c] + x, seq![d] + y);
            assert((c as int) < (d as int));
        }
    }
}

/// The checkpoints of the first million updates stand in the order in which
/// they were made, so that the oldest are pruned.
pub proof fn law_checkpoints_stand_in_order(a: nat, b: nat)
    requires
        a < b < 1_000_000,
    ensures
        precedes(checkpoint_of(a), checkpoint_of(b)),
        begins_with(checkpoint_of(a), "update-"@),
{
    reveal_with_fuel(ten_to, 7);
    lemma_padded(a, 6);
    lemma_padded(b, 6);
    assert(Seq::new(0, |i: int| '0') + decimal(a) =~= decimal(a));
    assert(Seq::new(0, |i: int| '0') + decimal(b) =~= decimal(b));
    let (start, end) = ("update-"@, "-model.safetensors"@);
    lemma_digits_in_order(a, b, 6, end, end);
    lemma_same_start(start, last_digits(a, 6) + end, last_digits(b, 6) + end);
    assert(checkpoint_of(a) =~= start + (last_digits(a, 6) + end));
    assert(checkpoint_of(b) =~= start + (last_digits(b, 6) + end));
    assert(checkpoint_of(a).take(start.len() as int) =~= start);
}

/// Who plays a game of the league: the current model against itself, with
/// White against a former champion, or a pair of games with a former champion.
#[derive(Clone, Copy, Debug, PartialEq, Eq, Structural)]
pub enum LeagueMode {
    CurrentSelfplay,
    CurrentWhite,
    PairedHistory,
}

/// The mode that a seed draws, where the first share ends below `first` and
/// the second below `second`, out of two to the 24th.
pub open spec fn mode_of(seed: u64, first: u32, second: u32) -> LeagueMode {
    let draw = mixed(seed ^ 0xA076_1D64_78BD_642F) >> 40;
    if draw < first {
        LeagueMode::CurrentSelfplay
    } else if draw < second {
        LeagueMode::CurrentWhite
    } else {
        LeagueMode::PairedHistory
    }
}

pub fn league_mode(seed: u64, first: u32, second: u32) -> (result: LeagueMode)
    ensures
        result == mode_of(seed, first, second),
{
    let draw: u32 = league_draw(seed);
    if draw < first {
        LeagueMode::CurrentSelfplay
    } else if draw < second {
        LeagueMode::CurrentWhite
    } else {
        LeagueMode::PairedHistory
    }
}

/// A game of the league: which sides the current model plays.
#[derive(Clone, Copy, Debug, PartialEq, Eq, Structural)]
pub struct LeagueGame {
    pub black_current: bool,
    pub white_current: bool,
}

/// The games of a mode. Without former champions the model plays itself.
pub open spec fn games_of(mode: LeagueMode, history: bool) -> Seq<LeagueGame> {
    let both = LeagueGame { black_current: true, white_current: true };
    let as_black = LeagueGame { black_current: true, white_current: false };
    let as_white = LeagueGame { black_current: false, white_current: true };
    if !history {
        seq![both]
    } else {
        match mode {
            LeagueMode::CurrentSelfplay => seq![both],
            LeagueMode::CurrentWhite => seq![as_white],
            LeagueMode::PairedHistory => seq![as_black, as_white],
        }
    }
}

pub fn league_games(mode: LeagueMode, history: bool) -> (result: Vec<LeagueGame>)
    ensures
        result@ == games_of(mode, history),
{
    let both: LeagueGame = LeagueGame { black_current: true, white_current: true };
    let as_black: LeagueGame = LeagueGame { black_current: true, white_current: false };
    let as_white: LeagueGame = LeagueGame { black_current: false, white_current: true };
    let mut games: Vec<LeagueGame> = Vec::new();
    if !history {
        games.push(both);
    } else {
        match mode {
            LeagueMode::CurrentSelfplay => {
                games.push(both);
            },
            LeagueMode::CurrentWhite => {
                games.push(as_white);
            },
            LeagueMode::PairedHistory => {
                games.push(as_black);
                games.push(as_white);
            },
        }
    }
    assert(games@ =~= games_of(mode, history));
    games
}

/// The current model plays in every game of the league, and the colors of a
/// pair are even.
pub proof fn law_current_model_always_plays(mode: LeagueMode, history: bool, i: int)
    requires
        0 <= i < games_of(mode, history).len(),
    ensures
        games_of(mode, history)[i].black_current || games_of(mode, history)[i].white_current,
        games_of(mode, history).len() == 2 ==> games_of(mode, history)[0].black_current
            == games_of(mode, history)[1].white_current,
{
}

/// How far a schedule has come: before its start, so many steps into it, or
/// past its end.
#[derive(Clone, Copy, Debug, PartialEq, Eq, Structural)]
pub enum Stage {
    Before,
    Within(usize),
    Past,
}

/// The stage of a schedule at a step, which starts after `delay` steps and
/// goes on for `length`.
pub open spec fn stage_of(step: usize, delay: usize, length: usize) -> Stage {
    if step < delay {
        Stage::Before
    } else if step - delay >= length {
        Stage::Past
    } else {
        Stage::Within((step - delay) as usize)
    }
}

/// The stage of the move temperature: it stays for `delay` plies and then
/// falls for `decay`.
pub fn temperature_stage(ply: usize, delay: usize, decay: usize) -> (result: Stage)
    ensures
        result == stage_of(ply, delay, decay),
{
    if ply < delay {
        Stage::Before
    } else if ply - delay >= decay {
        Stage::Past
    } else {
        Stage::Within(ply - delay)
    }
}

/// The stage of the learning rate: it rises for `warmup` steps and then falls
/// for `cosine`.
pub fn rate_stage(step: usize, warmup: usize, cosine: usize) -> (result: Stage)
    ensures
        result == stage_of(step, warmup, cosine),
{
    temperature_stage(step, warmup, cosine)
}

} // verus!
