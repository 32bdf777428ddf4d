//! Training samples, the plan of a batch drawn from a pool of them, and the
//! snapshot that a pool is stored in. Fractions are held as the bits of
//! single-precision numbers.
use crate::game::{
    copy_positions, lemma_numbers_fit, positions, Board, BoardView, Move, Player, ACTION_COUNT,
};
use crate::record::{
    code, law_records_are_read_in_one_way, read_record, starts_with, write_record, Record,
    RecordView,
};
use crate::rng::{
    law_shuffle_keeps_entries, mixed, place_among, shuffle, shuffle_of, state_after, SplitMix64,
};
use crate::symmetry::{image, transform_index};
use crate::text::{append_text, string_of};
use vstd::bytes::{
    lemma_auto_spec_u64_to_from_le_bytes, spec_u64_from_le_bytes, spec_u64_to_le_bytes,
};
use vstd::prelude::*;
use vstd::slice::slice_subrange;

verus! {

/// A position with what is to be learned of it.
pub struct Sample {
    pub board: Board,
    pub policy: Vec<(Move, u32)>,
    pub value: u32,
    pub generation: u64,
    pub policy_weight: u32,
    pub value_weight: u32,
    pub policy_surprise: u32,
    pub value_surprise: u32,
    pub predicted_value: u32,
}

/// A policy on the board that a symmetry gives.
pub open spec fn image_policy(policy: Seq<(Move, u32)>, symmetry: usize) -> Seq<(Move, u32)> {
    policy.map_values(|entry: (Move, u32)| (Move(image(entry.0.0, symmetry)), entry.1))
}

impl Sample {
    pub open spec fn wf(self) -> bool {
        &&& self.board@.wf()
        &&& forall|i: int|
            0 <= i < self.policy@.len() ==> (#[trigger] self.policy@[i]).0.0 < ACTION_COUNT
    }

    /// The sample and its turn by a symmetry have the same labels.
    pub open spec fn same_labels(self, other: Sample) -> bool {
        &&& self.value == other.value
        &&& self.generation == other.generation
        &&& self.policy_weight == other.policy_weight
        &&& self.value_weight == other.value_weight
        &&& self.policy_surprise == other.policy_surprise
        &&& self.value_surprise == other.value_surprise
        &&& self.predicted_value == other.predicted_value
    }

    /// `turned` is the sample turned by a symmetry.
    pub open spec fn turned_to(self, symmetry: usize, turned: Sample) -> bool {
        &&& turned.board@ == self.board@.imaged(symmetry)
        &&& turned.policy@ == image_policy(self.policy@, symmetry)
        &&& self.same_labels(turned)
    }

    /// The sample on the board turned by a symmetry.
    pub fn transformed(&self, symmetry: usize) -> (result: Sample)
        requires
            self.wf(),
        ensures
            self.turned_to(symmetry, result),
            result.board@.wf(),
    {
        let mut policy: Vec<(Move, u32)> = Vec::with_capacity(self.policy.len());
        let mut i: usize = 0;
        while i < self.policy.len()
            invariant
                self.wf(),
                i <= self.policy@.len(),
                policy@ == image_policy(self.policy@.take(i as int), symmetry),
            decreases self.policy@.len() - i,
        {
            let (mv, weight) = self.policy[i];
            assert(self.policy@[i as int].0.0 < ACTION_COUNT);
            let to: usize = transform_index(mv.0, symmetry);
            policy.push((Move(to), weight));
            proof {
                assert(self.policy@.take(i + 1) =~= self.policy@.take(i as int).push(
                    self.policy@[i as int],
                ));
                assert(policy@ =~= image_policy(self.policy@.take(i + 1), symmetry));
            }
            i = i + 1;
        }
        assert(self.policy@.take(self.policy@.len() as int) =~= self.policy@);
        Sample {
            board: self.board.transformed(symmetry),
            policy,
            value: self.value,
            generation: self.generation,
            policy_weight: self.policy_weight,
            value_weight: self.value_weight,
            policy_surprise: self.policy_surprise,
            value_surprise: self.value_surprise,
            predicted_value: self.predicted_value,
        }
    }
}

/// The greatest generation; 0 if there is none.
pub open spec fn newest(generations: Seq<u64>) -> u64
    decreases generations.len(),
{
    if generations.len() == 0 {
        0
    } else {
        let rest = newest(generations.drop_last());
        if generations.last() > rest {
            generations.last()
        } else {
            rest
        }
    }
}

/// The oldest generation that counts as recent when the last `updates` do, and
/// at least the newest.
pub open spec fn oldest_recent(generations: Seq<u64>, updates: u64) -> int {
    let span = if updates == 0 {
        0
    } else {
        updates - 1
    };
    if newest(generations) < span {
        0
    } else {
        newest(generations) - span
    }
}

/// The places among the first `n` whose generation is on the asked side of
/// the bound.
pub open spec fn places(generations: Seq<u64>, bound: int, recent: bool, n: nat) -> Seq<usize>
    decreases n,
{
    if n == 0 {
        Seq::empty()
    } else {
        let before = places(generations, bound, recent, (n - 1) as nat);
        if (generations[n - 1] >= bound) == recent {
            before.push((n - 1) as usize)
        } else {
            before
        }
    }
}

proof fn lemma_places(generations: Seq<u64>, bound: int, recent: bool, n: nat)
    requires
        n <= generations.len() <= usize::MAX,
    ensures
        places(generations, bound, recent, n).len() <= n,
        forall|i: int|
            0 <= i < places(generations, bound, recent, n).len() ==> {
                let p = #[trigger] places(generations, bound, recent, n)[i];
                p < n && (generations[p as int] >= bound) == recent
            },
        places(generations, bound, true, n).len() + places(generations, bound, false, n).len()
            == n,
        (exists|j: int| 0 <= j < n && #[trigger] generations[j] >= bound) ==> places(
            generations,
            bound,
            true,
            n,
        ).len() > 0,
    decreases n,
{
    if n > 0 {
        lemma_places(generations, bound, recent, (n - 1) as nat);
        if exists|j: int| 0 <= j < n && #[trigger] generations[j] >= bound {
            let j = choose|j: int| 0 <= j < n && #[trigger] generations[j] >= bound;
            if j < n - 1 {
                assert(generations[j] >= bound);
            }
        }
    }
}

proof fn lemma_newest(generations: Seq<u64>)
    requires
        generations.len() > 0,
    ensures
        exists|j: int| 0 <= j < generations.len() && #[trigger] generations[j] == newest(generations),
    decreases generations.len(),
{
    let rest = generations.drop_last();
    if generations.last() > newest(rest) {
        assert(generations[generations.len() - 1] == newest(generations));
    } else if rest.len() == 0 {
        assert(generations[0] == newest(generations));
    } else {
        lemma_newest(rest);
        let j = choose|j: int| 0 <= j < rest.len() && #[trigger] rest[j] == newest(rest);
        assert(generations[j] == newest(generations));
    }
}

/// Every nonempty pool has recent samples.
proof fn lemma_some_recent(generations: Seq<u64>, updates: u64)
    requires
        0 < generations.len() <= usize::MAX,
    ensures
        places(
            generations,
            oldest_recent(generations, updates),
            true,
            generations.len(),
        ).len() > 0,
{
    lemma_newest(generations);
    let j = choose|j: int|
        0 <= j < generations.len() && #[trigger] generations[j] == newest(generations);
    assert(generations[j] >= oldest_recent(generations, updates));
    lemma_places(generations, oldest_recent(generations, updates), true, generations.len());
}

/// How a slot picks its sample: evenly, or by one of the two surprises.
pub open spec fn unshuffled_kinds(count: nat, policy_quota: nat, value_quota: nat) -> Seq<u8> {
    Seq::new(
        count,
        |i: int|
            if i < policy_quota {
                1u8
            } else if i < policy_quota + value_quota {
                2u8
            } else {
                0u8
            },
    )
}

/// A slot of a batch: whether it is filled from the recent samples, how it
/// picks, the word that it picks by, and the symmetry that it is turned by.
#[derive(Clone, Copy, Debug, PartialEq, Eq, Structural)]
pub struct Slot {
    pub recent: bool,
    pub kind: u8,
    pub word: u64,
    pub symmetry: usize,
}

/// The words that a shuffle of `count` entries takes.
pub open spec fn shuffle_words(count: nat) -> nat {
    if count == 0 {
        0
    } else {
        (count - 1) as nat
    }
}

/// The slot in place `i`.
pub open spec fn slot_at(
    count: nat,
    recent_quota: nat,
    history: bool,
    kinds: Seq<u8>,
    seed: u64,
    i: int,
) -> Slot {
    let start = shuffle_words(count) + 2 * i;
    Slot {
        recent: i < recent_quota || !history,
        kind: kinds[i],
        word: mixed(state_after(seed, (start + 1) as nat)),
        symmetry: place_among(mixed(state_after(seed, (start + 2) as nat)), 8),
    }
}

/// What a batch is drawn by.
pub struct SamplePlan {
    pub oldest_recent: u64,
    pub recent: Vec<usize>,
    pub historical: Vec<usize>,
    pub recent_quota: usize,
    pub slots: Vec<Slot>,
    pub state: u64,
}

pub open spec fn least(a: nat, b: nat) -> nat {
    if a < b {
        a
    } else {
        b
    }
}

impl SamplePlan {
    /// The plan of a batch without samples.
    pub open spec fn plans_nothing(self) -> bool {
        &&& self.slots@.len() == 0
        &&& self.recent@.len() == 0
        &&& self.historical@.len() == 0
        &&& self.recent_quota == 0
    }

    /// The plan for a pool with these generations, where there is something to
    /// draw.
    pub open spec fn plans(
        self,
        generations: Seq<u64>,
        count: nat,
        recent_quota: nat,
        recent_updates: u64,
        policy_quota: nat,
        value_quota: nat,
        seed: u64,
    ) -> bool {
        let bound = oldest_recent(generations, recent_updates);
        let n = generations.len();
        let historical = places(generations, bound, false, n);
        let kinds = shuffle_of(unshuffled_kinds(count, policy_quota, value_quota), seed);
        &&& self.oldest_recent == bound
        &&& self.recent@ == places(generations, bound, true, n)
        &&& self.historical@ == historical
        &&& self.recent_quota == least(recent_quota, count)
        &&& self.slots@ == Seq::new(
            count,
            |i: int|
                slot_at(
                    count,
                    least(recent_quota, count),
                    historical.len() > 0,
                    kinds,
                    seed,
                    i,
                ),
        )
        &&& self.state == state_after(seed, shuffle_words(count) + 2 * count)
    }

    /// The lists hold places of a pool of `n` samples, and there is something
    /// for every slot to pick from.
    pub open spec fn wf(self, n: nat) -> bool {
        &&& forall|i: int| 0 <= i < self.recent@.len() ==> #[trigger] self.recent@[i] < n
        &&& forall|i: int| 0 <= i < self.historical@.len() ==> #[trigger] self.historical@[i] < n
        &&& self.slots@.len() > 0 ==> self.recent@.len() > 0
        &&& forall|i: int|
            0 <= i < self.slots@.len() ==> (#[trigger] self.slots@[i]).recent
                || self.historical@.len() > 0
    }

    /// Plans a batch of `count` samples from a pool with the given
    /// generations.
    pub fn new(
        generations: &[u64],
        count: usize,
        recent_quota: usize,
        recent_updates: u64,
        policy_quota: usize,
        value_quota: usize,
        seed: u64,
    ) -> (plan: SamplePlan)
        ensures
            if generations@.len() == 0 || count == 0 {
                plan.plans_nothing()
            } else {
                plan.plans(
                    generations@,
                    count as nat,
                    recent_quota as nat,
                    recent_updates,
                    policy_quota as nat,
                    value_quota as nat,
                    seed,
                )
            },
            plan.wf(generations@.len()),
    {
        if generations.len() == 0 || count == 0 {
            return SamplePlan {
                oldest_recent: 0,
                recent: Vec::new(),
                historical: Vec::new(),
                recent_quota: 0,
                slots: Vec::new(),
                state: seed,
            };
        }
        let mut top: u64 = 0;
        let mut i: usize = 0;
        while i < generations.len()
            invariant
                i <= generations@.len(),
                top == newest(generations@.take(i as int)),
            decreases generations@.len() - i,
        {
            proof {
                let more = generations@.take(i + 1);
                assert(more.drop_last() =~= generations@.take(i as int));
            }
            if generations[i] > top {
                top = generations[i];
            }
            i = i + 1;
        }
        assert(generations@.take(generations@.len() as int) =~= generations@);
        let span: u64 = if recent_updates == 0 {
            0
        } else {
            recent_updates - 1
        };
        let oldest: u64 = if top < span {
            0
        } else {
            top - span
        };
        let mut recent: Vec<usize> = Vec::new();
        let mut historical: Vec<usize> = Vec::new();
        i = 0;
        while i < generations.len()
            invariant
                i <= generations@.len(),
                recent@ == places(generations@, oldest as int, true, i as nat),
                historical@ == places(generations@, oldest as int, false, i as nat),
            decreases generations@.len() - i,
        {
            if generations[i] >= oldest {
                recent.push(i);
            } else {
                historical.push(i);
            }
            i = i + 1;
        }
        let quota: usize = if recent_quota < count {
            recent_quota
        } else {
            count
        };
        let mut kinds: Vec<u8> = Vec::with_capacity(count);
        let ghost planned = unshuffled_kinds(
            count as nat,
            policy_quota as nat,
            value_quota as nat,
        );
        i = 0;
        while i < count
            invariant
                i <= count,
                planned == unshuffled_kinds(
                    count as nat,
                    policy_quota as nat,
                    value_quota as nat,
                ),
                kinds@ == planned.take(i as int),
            decreases count - i,
        {
            let kind: u8 = if i < policy_quota {
                1
            } else if i - policy_quota < value_quota {
                2
            } else {
                0
            };
            kinds.push(kind);
            assert(kinds@ =~= planned.take(i + 1));
            i = i + 1;
        }
        assert(planned.take(count as int) =~= planned);
        let mut rng: SplitMix64 = SplitMix64(seed);
        shuffle(&mut kinds, &mut rng);
        proof {
            if count > 0 {
                law_shuffle_keeps_entries(planned, (count - 1) as nat, seed);
            }
        }
        let history: bool = historical.len() > 0;
        let mut slots: Vec<Slot> = Vec::with_capacity(count);
        i = 0;
        while i < count
            invariant
                i <= count,
                history == (historical@.len() > 0),
                quota == least(recent_quota as nat, count as nat),
                kinds@ == shuffle_of(planned, seed),
                kinds@.len() == count,
                rng.0 == state_after(seed, (shuffle_words(count as nat) + 2 * i) as nat),
                slots@.len() == i,
                forall|k: int|
                    0 <= k < i ==> #[trigger] slots@[k] == slot_at(
                        count as nat,
                        quota as nat,
                        history,
                        kinds@,
                        seed,
                        k,
                    ),
            decreases count - i,
        {
            let ghost start = (shuffle_words(count as nat) + 2 * i) as nat;
            let word: u64 = rng.next();
            assert(rng.0 == state_after(seed, start + 1));
            let symmetry: usize = rng.index(8);
            assert(rng.0 == state_after(seed, start + 2));
            slots.push(Slot { recent: i < quota || !history, kind: kinds[i], word, symmetry });
            i = i + 1;
        }
        proof {
            lemma_some_recent(generations@, recent_updates);
            lemma_places(generations@, oldest as int, true, generations@.len());
            lemma_places(generations@, oldest as int, false, generations@.len());
            assert(slots@ =~= Seq::new(
                count as nat,
                |k: int|
                    slot_at(count as nat, quota as nat, history, kinds@, seed, k),
            ));
        }
        SamplePlan {
            oldest_recent: oldest,
            recent,
            historical,
            recent_quota: quota,
            slots,
            state: rng.0,
        }
    }
}

/// The weights of a source: the places to pick from, and the running sums of
/// the two surprises over them as bits. The bits of sums that are not
/// negative are ordered as the sums are.
pub struct WeightedSource {
    pub indices: Vec<usize>,
    pub policy_cdf: Vec<u32>,
    pub value_cdf: Vec<u32>,
}

pub open spec fn ascending(cdf: Seq<u32>) -> bool {
    forall|i: int, j: int| 0 <= i <= j < cdf.len() ==> cdf[i] <= cdf[j]
}

/// How many of the ascending sums are at most the draw.
pub open spec fn sums_below(cdf: Seq<u32>, draw: u32) -> nat
    decreases cdf.len(),
{
    if cdf.len() == 0 {
        0
    } else if cdf.last() <= draw {
        cdf.len()
    } else {
        sums_below(cdf.drop_last(), draw)
    }
}

/// The place of the first sum above a draw.
pub fn first_above(cdf: &[u32], draw: u32) -> (result: usize)
    requires
        ascending(cdf@),
    ensures
        result == sums_below(cdf@, draw),
        result <= cdf@.len(),
        forall|i: int| 0 <= i < result ==> cdf@[i] <= draw,
        forall|i: int| result <= i < cdf@.len() ==> cdf@[i] > draw,
{
    let mut n: usize = cdf.len();
    assert(cdf@.take(n as int) =~= cdf@);
    while n > 0 && cdf[n - 1] > draw
        invariant
            ascending(cdf@),
            n <= cdf@.len(),
            sums_below(cdf@.take(n as int), draw) == sums_below(cdf@, draw),
            forall|i: int| n <= i < cdf@.len() ==> cdf@[i] > draw,
        decreases n,
    {
        assert(cdf@.take(n as int).drop_last() =~= cdf@.take(n - 1));
        n = n - 1;
    }
    n
}

impl WeightedSource {
    pub open spec fn wf(self) -> bool {
        &&& self.indices@.len() > 0
        &&& self.policy_cdf@.len() == self.indices@.len()
        &&& self.value_cdf@.len() == self.indices@.len()
        &&& ascending(self.policy_cdf@)
        &&& ascending(self.value_cdf@)
    }

    /// The position that a slot picks: by its word if it picks evenly, else
    /// by the draw made of the word.
    pub open spec fn position(self, kind: u8, word: u64, draw: u32) -> int {
        let n = self.indices@.len();
        if kind == 0 {
            place_among(word, n as usize) as int
        } else {
            let found = if kind == 1 {
                sums_below(self.policy_cdf@, draw)
            } else {
                sums_below(self.value_cdf@, draw)
            };
            if found < n {
                found as int
            } else {
                n - 1
            }
        }
    }

    /// The place that a slot picks.
    pub fn sample(&self, kind: u8, word: u64, draw: u32) -> (result: usize)
        requires
            self.wf(),
        ensures
            0 <= self.position(kind, word, draw) < self.indices@.len(),
            result == self.indices@[self.position(kind, word, draw)],
    {
        if kind == 0 {
            let place: usize = crate::rng::place(word, self.indices.len());
            return self.indices[place];
        }
        let found: usize = if kind == 1 {
            first_above(&self.policy_cdf, draw)
        } else {
            first_above(&self.value_cdf, draw)
        };
        if found < self.indices.len() {
            self.indices[found]
        } else {
            self.indices[self.indices.len() - 1]
        }
    }
}

/// The pick of the slot in place `i`.
pub open spec fn pick_at(
    slots: Seq<Slot>,
    recent: WeightedSource,
    historical: WeightedSource,
    draws: Seq<u32>,
    i: int,
) -> (usize, usize) {
    let slot = slots[i];
    let source = if slot.recent {
        recent
    } else {
        historical
    };
    (source.indices@[source.position(slot.kind, slot.word, draws[i])], slot.symmetry)
}

/// How many of the first `n` picks are recent.
pub open spec fn recent_picks(
    picks: Seq<(usize, usize)>,
    generations: Seq<u64>,
    bound: u64,
    n: nat,
) -> nat
    decreases n,
{
    if n == 0 {
        0
    } else {
        let more: nat = if generations[picks[n - 1].0 as int] >= bound {
            1
        } else {
            0
        };
        recent_picks(picks, generations, bound, (n - 1) as nat) + more
    }
}

/// Which picks are recent.
spec fn recent_pick(generations: Seq<u64>, bound: u64) -> spec_fn((usize, usize)) -> bool {
    |pick: (usize, usize)| generations[pick.0 as int] >= bound
}

/// The number of recent picks does not depend on their order.
proof fn lemma_recent_picks(picks: Seq<(usize, usize)>, generations: Seq<u64>, bound: u64)
    ensures
        recent_picks(picks, generations, bound, picks.len()) == picks.to_multiset().filter(
            recent_pick(generations, bound),
        ).len(),
    decreases picks.len(),
{
    broadcast use vstd::seq_lib::group_to_multiset_ensures;
    broadcast use vstd::multiset::group_multiset_axioms;

    let f = recent_pick(generations, bound);
    if picks.len() == 0 {
        assert(picks.to_multiset().filter(f) =~= vstd::multiset::Multiset::empty());
    } else {
        let rest = picks.drop_last();
        let last = picks.last();
        lemma_recent_picks(rest, generations, bound);
        lemma_recent_prefix(picks, rest, generations, bound, rest.len());
        assert(picks =~= rest.push(last));
        assert(picks.to_multiset() =~= rest.to_multiset().insert(last));
        let before = rest.to_multiset().filter(f);
        if f(last) {
            assert(picks.to_multiset().filter(f) =~= before.insert(last));
        } else {
            assert(picks.to_multiset().filter(f) =~= before);
        }
    }
}

proof fn lemma_recent_prefix(
    a: Seq<(usize, usize)>,
    b: Seq<(usize, usize)>,
    generations: Seq<u64>,
    bound: u64,
    n: nat,
)
    requires
        n <= a.len(),
        n <= b.len(),
        forall|i: int| 0 <= i < n ==> a[i] == b[i],
    ensures
        recent_picks(a, generations, bound, n) == recent_picks(b, generations, bound, n),
    decreases n,
{
    if n > 0 {
        lemma_recent_prefix(a, b, generations, bound, (n - 1) as nat);
    }
}

/// The samples of a batch and how many of them are recent.
pub struct MixedSampleBatch {
    pub samples: Vec<Sample>,
    pub recent_quota: usize,
    pub actual_recent: usize,
}

/// The picks of a plan, in the order of the batch.
pub open spec fn batch_order(
    plan: SamplePlan,
    recent: WeightedSource,
    historical: WeightedSource,
    draws: Seq<u32>,
) -> Seq<(usize, usize)> {
    shuffle_of(
        Seq::new(
            plan.slots@.len(),
            |i: int| pick_at(plan.slots@, recent, historical, draws, i),
        ),
        plan.state,
    )
}

/// The generations of the samples.
pub open spec fn generations_of(pool: Seq<Sample>) -> Seq<u64> {
    pool.map_values(|sample: Sample| sample.generation)
}

/// The recent picks of a plan before they are put in order.
proof fn lemma_slot_picks(
    picks: Seq<(usize, usize)>,
    slots: Seq<Slot>,
    generations: Seq<u64>,
    bound: u64,
    quota: nat,
    history: bool,
    n: nat,
)
    requires
        n <= picks.len() == slots.len(),
        forall|i: int|
            0 <= i < slots.len() ==> (#[trigger] slots[i]).recent == (i < quota || !history),
        forall|i: int|
            0 <= i < slots.len() ==> (generations[(#[trigger] picks[i]).0 as int] >= bound)
                == slots[i].recent,
    ensures
        recent_picks(picks, generations, bound, n) == if history {
            least(quota, n)
        } else {
            n
        },
    decreases n,
{
    if n > 0 {
        lemma_slot_picks(picks, slots, generations, bound, quota, history, (n - 1) as nat);
        assert(slots[n - 1].recent == (n - 1 < quota || !history));
    }
}

/// Draws the batch of a plan. Slots that pick by a surprise use the draws,
/// each made of the word of its slot and the sum of its source. The recent
/// quota is met exactly; without older samples all are recent.
pub fn sample_mixed_recent(
    pool: &[Sample],
    plan: &SamplePlan,
    recent: &WeightedSource,
    historical: &WeightedSource,
    draws: &[u32],
) -> (batch: MixedSampleBatch)
    requires
        forall|i: int| 0 <= i < pool@.len() ==> (#[trigger] pool@[i]).wf(),
        plan.wf(pool@.len()),
        plan.recent@ == recent.indices@,
        plan.historical@ == historical.indices@,
        plan.slots@.len() > 0 ==> recent.wf(),
        plan.historical@.len() > 0 ==> historical.wf(),
        draws@.len() == plan.slots@.len(),
    ensures
        batch.recent_quota == plan.recent_quota,
        batch.samples@.len() == plan.slots@.len(),
        ({
            let order = batch_order(*plan, *recent, *historical, draws@);
            &&& order.len() == plan.slots@.len()
            &&& forall|i: int|
                0 <= i < order.len() ==> pool@[order[i].0 as int].turned_to(
                    order[i].1,
                    #[trigger] batch.samples@[i],
                )
            &&& batch.actual_recent == recent_picks(
                order,
                generations_of(pool@),
                plan.oldest_recent,
                order.len(),
            )
        }),
{
    let count: usize = plan.slots.len();
    let ghost chosen = Seq::new(
        count as nat,
        |i: int| pick_at(plan.slots@, *recent, *historical, draws@, i),
    );
    let mut picks: Vec<(usize, usize)> = Vec::with_capacity(count);
    let mut i: usize = 0;
    while i < count
        invariant
            i <= count,
            count == plan.slots@.len(),
            chosen == Seq::new(
                count as nat,
                |i: int| pick_at(plan.slots@, *recent, *historical, draws@, i),
            ),
            plan.wf(pool@.len()),
            plan.recent@ == recent.indices@,
            plan.historical@ == historical.indices@,
            plan.slots@.len() > 0 ==> recent.wf(),
            plan.historical@.len() > 0 ==> historical.wf(),
            draws@.len() == plan.slots@.len(),
            picks@.len() == i,
            forall|k: int| 0 <= k < i ==> #[trigger] picks@[k] == chosen[k],
            forall|k: int| 0 <= k < i ==> (#[trigger] picks@[k]).0 < pool@.len(),
        decreases count - i,
    {
        let slot: Slot = plan.slots[i];
        assert(plan.slots@[i as int].recent || plan.historical@.len() > 0);
        let place: usize = if slot.recent {
            recent.sample(slot.kind, slot.word, draws[i])
        } else {
            historical.sample(slot.kind, slot.word, draws[i])
        };
        picks.push((place, slot.symmetry));
        i = i + 1;
    }
    assert(picks@ =~= chosen);
    let mut rng: SplitMix64 = SplitMix64(plan.state);
    shuffle(&mut picks, &mut rng);
    let ghost order = picks@;
    proof {
        if count > 0 {
            law_shuffle_keeps_entries(chosen, (count - 1) as nat, plan.state);
        }
        assert forall|k: int| 0 <= k < order.len() implies (#[trigger] order[k]).0
            < pool@.len() by {
            broadcast use vstd::seq_lib::group_to_multiset_ensures;

            assert(order.contains(order[k]));
            assert(order.to_multiset().count(order[k]) > 0);
            assert(chosen.contains(order[k]));
            let j = chosen.index_of(order[k]);
            assert(chosen[j] == order[k]);
        }
    }
    let mut samples: Vec<Sample> = Vec::with_capacity(count);
    let mut actual_recent: usize = 0;
    let ghost generations = generations_of(pool@);
    i = 0;
    while i < count
        invariant
            i <= count,
            count == order.len(),
            picks@ == order,
            generations == generations_of(pool@),
            forall|k: int| 0 <= k < order.len() ==> (#[trigger] order[k]).0 < pool@.len(),
            forall|k: int| 0 <= k < pool@.len() ==> (#[trigger] pool@[k]).wf(),
            samples@.len() == i,
            forall|k: int|
                0 <= k < i ==> pool@[order[k].0 as int].turned_to(
                    order[k].1,
                    #[trigger] samples@[k],
                ),
            actual_recent == recent_picks(order, generations, plan.oldest_recent, i as nat),
            actual_recent <= i,
        decreases count - i,
    {
        let (place, symmetry) = picks[i];
        assert(order[i as int].0 < pool@.len());
        assert(pool@[place as int].wf());
        assert(generations[place as int] == pool@[place as int].generation);
        if pool[place].generation >= plan.oldest_recent {
            actual_recent = actual_recent + 1;
        }
        samples.push(pool[place].transformed(symmetry));
        i = i + 1;
    }
    MixedSampleBatch { samples, recent_quota: plan.recent_quota, actual_recent }
}

/// Exactly the recent quota of a batch is recent, or all of it where the pool
/// has no older samples.
pub proof fn law_recent_quota_is_met(
    generations: Seq<u64>,
    plan: SamplePlan,
    count: nat,
    recent_quota: nat,
    recent_updates: u64,
    policy_quota: nat,
    value_quota: nat,
    seed: u64,
    recent: WeightedSource,
    historical: WeightedSource,
    draws: Seq<u32>,
)
    requires
        0 < generations.len() <= usize::MAX,
        count <= usize::MAX,
        plan.plans(
            generations,
            count,
            recent_quota,
            recent_updates,
            policy_quota,
            value_quota,
            seed,
        ),
        plan.recent@ == recent.indices@,
        plan.historical@ == historical.indices@,
        recent.wf(),
        plan.historical@.len() > 0 ==> historical.wf(),
    ensures
        ({
            let order = batch_order(plan, recent, historical, draws);
            recent_picks(order, generations, plan.oldest_recent, order.len()) == (
            if plan.historical@.len() > 0 {
                least(recent_quota, count)
            } else {
                count
            })
        }),
{
    let bound = plan.oldest_recent;
    let n = generations.len();
    let picks = Seq::new(count, |i: int| pick_at(plan.slots@, recent, historical, draws, i));
    let order = batch_order(plan, recent, historical, draws);
    assert(plan.slots@.len() == count);
    lemma_places(generations, bound as int, true, n);
    lemma_places(generations, bound as int, false, n);
    let history = plan.historical@.len() > 0;
    assert forall|i: int| 0 <= i < count implies (generations[(#[trigger] picks[i]).0 as int]
        >= bound) == plan.slots@[i].recent by {
        let slot = plan.slots@[i];
        let source = if slot.recent {
            recent
        } else {
            historical
        };
        let at = source.position(slot.kind, slot.word, draws[i]);
        assert(source.wf());
        lemma_position(source, slot.kind, slot.word, draws[i]);
        if slot.recent {
            let p = places(generations, bound as int, true, n)[at];
            assert(generations[p as int] >= bound);
        } else {
            let p = places(generations, bound as int, false, n)[at];
            assert(generations[p as int] < bound);
        }
    }
    lemma_slot_picks(
        picks,
        plan.slots@,
        generations,
        bound,
        least(recent_quota, count),
        history,
        count,
    );
    if count > 0 {
        law_shuffle_keeps_entries(picks, (count - 1) as nat, plan.state);
    }
    lemma_recent_picks(picks, generations, bound);
    lemma_recent_picks(order, generations, bound);
}

proof fn lemma_position(source: WeightedSource, kind: u8, word: u64, draw: u32)
    requires
        source.wf(),
    ensures
        0 <= source.position(kind, word, draw) < source.indices@.len(),
{
}

/// The mark that a snapshot begins with.
pub open spec fn snapshot_magic() -> Seq<u8> {
    seq![71u8, 79u8, 49u8, 57u8, 82u8, 80u8, 48u8, 49u8]
}

fn magic() -> (result: [u8; 8])
    ensures
        result@ == snapshot_magic(),
{
    let bytes: [u8; 8] = [71, 79, 49, 57, 82, 80, 48, 49];
    assert(bytes@ =~= snapshot_magic());
    bytes
}

/// Why a snapshot cannot be read.
#[derive(Clone, Copy, Debug, PartialEq, Eq, Structural)]
pub enum SnapshotError {
    Truncated,
    NotSnapshot,
    BadFrame,
    NoCount,
    TooManySamples,
    BadSample,
    BadBoard,
    TrailingData,
}

/// The words for a refused snapshot, behind those that name the file.
pub open spec fn reason_of(error: SnapshotError) -> Seq<char> {
    match error {
        SnapshotError::Truncated => " 文件不完整"@,
        SnapshotError::NotSnapshot => " 不是 GO19RP01 二进制快照；"@ + incompatible()
            + "，请保留旧文件并改用新的 replay_path。模型无需重练。"@,
        SnapshotError::BadFrame => " 压缩帧损坏"@,
        SnapshotError::NoCount => " 缺少样本数量"@,
        SnapshotError::TooManySamples => " 样本数量无效"@,
        SnapshotError::BadSample => " 样本不完整"@,
        SnapshotError::BadBoard => " 需要合法的 19×19 盘面"@,
        SnapshotError::TrailingData => " 包含多余数据"@,
    }
}

/// The words for a file of another format.
pub open spec fn incompatible() -> Seq<char> {
    "旧回放不兼容"@
}

/// A text holds another.
pub open spec fn holds(text: Seq<char>, phrase: Seq<char>) -> bool {
    exists|before: Seq<char>, after: Seq<char>| text == #[trigger] (before + phrase + after)
}

impl SnapshotError {
    /// The words for a refusal of the snapshot at a path. A file of another
    /// format is called incompatible.
    pub fn text(self, path: &str) -> (text: String)
        ensures
            text@ == "回放 "@ + path@ + reason_of(self),
            self == SnapshotError::NotSnapshot ==> holds(text@, incompatible()),
    {
        let mut text: Vec<char> = Vec::new();
        append_text(&mut text, "回放 ");
        append_text(&mut text, path);
        match self {
            SnapshotError::Truncated => append_text(&mut text, " 文件不完整"),
            SnapshotError::NotSnapshot => {
                let ghost named = text@;
                append_text(&mut text, " 不是 GO19RP01 二进制快照；");
                append_text(&mut text, "旧回放不兼容");
                append_text(&mut text, "，请保留旧文件并改用新的 replay_path。模型无需重练。");
                proof {
                    let before = named + " 不是 GO19RP01 二进制快照；"@;
                    let after = "，请保留旧文件并改用新的 replay_path。模型无需重练。"@;
                    assert(text@ =~= before + incompatible() + after);
                }
            },
            SnapshotError::BadFrame => append_text(&mut text, " 压缩帧损坏"),
            SnapshotError::NoCount => append_text(&mut text, " 缺少样本数量"),
            SnapshotError::TooManySamples => append_text(&mut text, " 样本数量无效"),
            SnapshotError::BadSample => append_text(&mut text, " 样本不完整"),
            SnapshotError::BadBoard => append_text(&mut text, " 需要合法的 19×19 盘面"),
            SnapshotError::TrailingData => append_text(&mut text, " 包含多余数据"),
        }
        assert(text@ =~= "回放 "@ + path@ + reason_of(self));
        string_of(&text)
    }
}

/// The content of the frame that bytes begin with, as `lz4_flex` reads it;
/// `None` if it fails.
pub uninterp spec fn lz4_content(frame: Seq<u8>) -> Option<Seq<u8>>;

/// A frame of the content. Where more than the four bytes of its end mark are
/// cut off, it cannot be read, or not the whole content comes out.
pub open spec fn frames(frame: Seq<u8>, content: Seq<u8>) -> bool {
    &&& lz4_content(frame) == Some(content)
    &&& forall|n: int|
        content.len() > 0 && 0 <= n && n + 4 < frame.len() ==> match lz4_content(
            #[trigger] frame.take(n),
        ) {
            Some(part) => part.len() < content.len() && part == content.take(part.len() as int),
            None => true,
        }
}

/// Writes the pieces to a `lz4_flex::frame::FrameEncoder` with its default
/// settings, and finishes the frame; into a vector this does not fail. Reading
/// the frame gives back what was written. Its data stands in blocks, none of
/// them empty, with an end mark of four bytes behind them, and a reader fails
/// within a block and stops before one: so a frame that is cut before its end
/// mark gives fewer bytes than were written, from the first on, or none at
/// all. Which bytes the frame holds is not stated: they depend on the width of
/// a machine word.
#[verifier::external_body]
fn write_frame(head: &[u8], body: &[u8]) -> (result: Option<Vec<u8>>)
    ensures
        result is Some,
        frames(result->0@, head@ + body@),
{
    let mut encoder = lz4_flex::frame::FrameEncoder::new(Vec::new());
    std::io::Write::write_all(&mut encoder, head).ok()?;
    std::io::Write::write_all(&mut encoder, body).ok()?;
    encoder.finish().ok()
}

/// Reads the content of a frame to its end with a
/// `lz4_flex::frame::FrameDecoder`. What comes out depends on the bytes alone.
#[verifier::external_body]
fn read_frame(bytes: &[u8]) -> (result: Option<Vec<u8>>)
    ensures
        match lz4_content(bytes@) {
            Some(content) => result is Some && result->0@ == content,
            None => result is None,
        },
{
    let mut content = Vec::new();
    let mut decoder = lz4_flex::frame::FrameDecoder::new(bytes);
    std::io::Read::read_to_end(&mut decoder, &mut content).ok()?;
    Some(content)
}

/// `bincode::serialize` of a `u64`: its eight bytes, the lowest first.
#[verifier::external_body]
fn count_bytes(count: u64) -> (result: Option<Vec<u8>>)
    ensures
        result is Some,
        result->0@ == spec_u64_to_le_bytes(count),
{
    bincode::serialize(&count).ok()
}

/// `bincode::deserialize_from` of a `u64`: it reads eight bytes, the lowest
/// first, and fails if there are fewer.
#[verifier::external_body]
fn read_count(bytes: &[u8]) -> (result: Option<u64>)
    ensures
        result == (if bytes@.len() < 8 {
            None::<u64>
        } else {
            Some(spec_u64_from_le_bytes(bytes@.take(8)))
        }),
{
    bincode::deserialize_from(bytes).ok()
}

/// The bytes are a snapshot of `count` samples whose encodings make the body.
pub open spec fn is_snapshot(bytes: Seq<u8>, count: u64, body: Seq<u8>) -> bool {
    &&& bytes.len() >= 8
    &&& bytes.take(8) == snapshot_magic()
    &&& frames(bytes.skip(8), spec_u64_to_le_bytes(count) + body)
}

/// Stores the encodings of `count` samples.
pub fn frame_snapshot(count: u64, body: &[u8]) -> (result: Option<Vec<u8>>)
    ensures
        result is Some,
        is_snapshot(result->0@, count, body@),
        count <= 10_000_000 ==> opened(result->0@) == Ok::<(u64, Seq<u8>), SnapshotError>(
            (count, body@),
        ),
{
    match count_bytes(count) {
        Some(head) => match write_frame(&head, body) {
            Some(frame) => {
                let mark: [u8; 8] = magic();
                let mut bytes: Vec<u8> = Vec::new();
                let mut i: usize = 0;
                while i < 8
                    invariant
                        i <= 8,
                        mark@ == snapshot_magic(),
                        bytes@ == snapshot_magic().take(i as int),
                    decreases 8 - i,
                {
                    bytes.push(mark[i]);
                    assert(bytes@ =~= snapshot_magic().take(i + 1));
                    i = i + 1;
                }
                assert(snapshot_magic().take(8) =~= snapshot_magic());
                let ghost content = head@ + body@;
                let ghost framed = frame@;
                let mut frame: Vec<u8> = frame;
                bytes.append(&mut frame);
                proof {
                    lemma_auto_spec_u64_to_from_le_bytes();
                    assert(bytes@.take(8) =~= snapshot_magic());
                    assert(bytes@.skip(8) =~= framed);
                    assert(content.take(8) =~= head@);
                    assert(content.skip(8) =~= body@);
                }
                Some(bytes)
            },
            None => None,
        },
        None => None,
    }
}

/// What the bytes of a snapshot hold: the number of samples, and their
/// encodings.
pub open spec fn opened(bytes: Seq<u8>) -> Result<(u64, Seq<u8>), SnapshotError> {
    if bytes.len() < 8 {
        Err(SnapshotError::Truncated)
    } else if bytes.take(8) != snapshot_magic() {
        Err(SnapshotError::NotSnapshot)
    } else {
        match lz4_content(bytes.skip(8)) {
            None => Err(SnapshotError::BadFrame),
            Some(content) => contents_of(content),
        }
    }
}

/// What the content of a snapshot's frame holds.
pub open spec fn contents_of(content: Seq<u8>) -> Result<(u64, Seq<u8>), SnapshotError> {
    if content.len() < 8 {
        Err(SnapshotError::NoCount)
    } else if spec_u64_from_le_bytes(content.take(8)) > 10_000_000 {
        Err(SnapshotError::TooManySamples)
    } else {
        Ok((spec_u64_from_le_bytes(content.take(8)), content.skip(8)))
    }
}

/// Whether a file that begins with these bytes is a snapshot. A file that does
/// not exist is in order.
pub fn check_format(file: Option<&[u8]>) -> (result: Result<(), SnapshotError>)
    ensures
        result == (match file {
            None => Ok::<(), SnapshotError>(()),
            Some(bytes) => if bytes@.len() < 8 {
                Err(SnapshotError::Truncated)
            } else if bytes@.take(8) != snapshot_magic() {
                Err(SnapshotError::NotSnapshot)
            } else {
                Ok(())
            },
        }),
{
    match file {
        None => Ok(()),
        Some(bytes) => {
            if bytes.len() < 8 {
                return Err(SnapshotError::Truncated);
            }
            let mark: [u8; 8] = magic();
            let mut i: usize = 0;
            while i < 8
                invariant
                    i <= 8,
                    file == Some(bytes),
                    bytes@.len() >= 8,
                    mark@ == snapshot_magic(),
                    forall|k: int| 0 <= k < i ==> bytes@[k] == snapshot_magic()[k],
                decreases 8 - i,
            {
                if bytes[i] != mark[i] {
                    assert(bytes@.take(8)[i as int] == bytes@[i as int]);
                    assert(bytes@.take(8) != snapshot_magic());
                    return Err(SnapshotError::NotSnapshot);
                }
                i = i + 1;
            }
            assert(bytes@.take(8) =~= snapshot_magic());
            Ok(())
        },
    }
}

fn tail(bytes: &[u8]) -> (result: Vec<u8>)
    requires
        bytes@.len() >= 8,
    ensures
        result@ == bytes@.skip(8),
{
    let mut result: Vec<u8> = Vec::with_capacity(bytes.len() - 8);
    let mut i: usize = 8;
    while i < bytes.len()
        invariant
            8 <= i <= bytes@.len(),
            result@ == bytes@.subrange(8, i as int),
        decreases bytes@.len() - i,
    {
        result.push(bytes[i]);
        assert(result@ =~= bytes@.subrange(8, i + 1));
        i = i + 1;
    }
    assert(result@ =~= bytes@.skip(8));
    result
}

/// Splits the content of a snapshot's frame.
pub fn read_contents(content: &[u8]) -> (result: Result<(u64, Vec<u8>), SnapshotError>)
    ensures
        match contents_of(content@) {
            Ok((count, body)) => result is Ok && result->Ok_0.0 == count && result->Ok_0.1@ == body,
            Err(error) => result is Err && result->Err_0 == error,
        },
{
    match read_count(content) {
        None => Err(SnapshotError::NoCount),
        Some(count) => if count > 10_000_000 {
            Err(SnapshotError::TooManySamples)
        } else {
            Ok((count, tail(content)))
        },
    }
}

/// Opens a snapshot: the number of samples, and their encodings.
pub fn open_snapshot(bytes: &[u8]) -> (result: Result<(u64, Vec<u8>), SnapshotError>)
    ensures
        match opened(bytes@) {
            Ok((count, body)) => result is Ok && result->Ok_0.0 == count && result->Ok_0.1@ == body,
            Err(error) => result is Err && result->Err_0 == error,
        },
{
    match check_format(Some(bytes)) {
        Err(error) => Err(error),
        Ok(_) => match read_frame(&tail(bytes)) {
            None => Err(SnapshotError::BadFrame),
            Some(content) => read_contents(&content),
        },
    }
}

/// Whether the samples end where the encodings do.
pub fn check_end(body: usize, read: usize) -> (result: Result<(), SnapshotError>)
    ensures
        result == (if read < body {
            Err::<(), SnapshotError>(SnapshotError::TrailingData)
        } else {
            Ok::<(), SnapshotError>(())
        }),
{
    if read < body {
        Err(SnapshotError::TrailingData)
    } else {
        Ok(())
    }
}

/// What a sample holds.
#[verifier::ext_equal]
pub struct SampleView {
    pub board: BoardView,
    pub policy: Seq<(Move, u32)>,
    pub value: u32,
    pub generation: u64,
    pub policy_weight: u32,
    pub value_weight: u32,
    pub policy_surprise: u32,
    pub value_surprise: u32,
    pub predicted_value: u32,
}

impl View for Sample {
    type V = SampleView;

    open spec fn view(&self) -> SampleView {
        SampleView {
            board: self.board@,
            policy: self.policy@,
            value: self.value,
            generation: self.generation,
            policy_weight: self.policy_weight,
            value_weight: self.value_weight,
            policy_surprise: self.policy_surprise,
            value_surprise: self.value_surprise,
            predicted_value: self.predicted_value,
        }
    }
}

pub open spec fn sample_views(samples: Seq<Sample>) -> Seq<SampleView> {
    samples.map_values(|sample: Sample| sample@)
}

/// The numbers of a sample.
pub open spec fn record_of(sample: SampleView) -> RecordView {
    RecordView {
        cells: sample.board.cells,
        side: match sample.board.to_move {
            Player::Black => 0,
            Player::White => 1,
        },
        moves: sample.board.moves as u64,
        passes: sample.board.passes as u64,
        komi_milli: sample.board.komi_milli as i32,
        previous: sample.board.previous,
        history: sample.board.history,
        policy: sample.policy.map_values(|entry: (Move, u32)| (entry.0.0 as u64, entry.1)),
        generation: sample.generation,
        value: sample.value,
        policy_weight: sample.policy_weight,
        value_weight: sample.value_weight,
        policy_surprise: sample.policy_surprise,
        value_surprise: sample.value_surprise,
        predicted_value: sample.predicted_value,
    }
}

/// The sample whose numbers these are, if they make one.
pub open spec fn sample_of(record: RecordView) -> Option<SampleView> {
    let board = BoardView {
        cells: record.cells,
        to_move: if record.side == 0 {
            Player::Black
        } else {
            Player::White
        },
        moves: record.moves as nat,
        passes: record.passes as nat,
        komi_milli: record.komi_milli as int,
        previous: record.previous,
        history: record.history,
    };
    if record.side <= 1 && record.moves <= usize::MAX && record.passes <= usize::MAX && (forall|
        i: int,
    |
        0 <= i < record.policy.len() ==> (#[trigger] record.policy[i]).0 <= usize::MAX)
        && board.wf() {
        Some(
            SampleView {
                board,
                policy: record.policy.map_values(
                    |entry: (u64, u32)| (Move(entry.0 as usize), entry.1),
                ),
                value: record.value,
                generation: record.generation,
                policy_weight: record.policy_weight,
                value_weight: record.value_weight,
                policy_surprise: record.policy_surprise,
                value_surprise: record.value_surprise,
                predicted_value: record.predicted_value,
            },
        )
    } else {
        None
    }
}

/// The record that bytes begin with.
pub open spec fn first_record(bytes: Seq<u8>) -> Option<RecordView> {
    if exists|record: RecordView| starts_with(bytes, #[trigger] code(record)) {
        Some(choose|record: RecordView| starts_with(bytes, #[trigger] code(record)))
    } else {
        None
    }
}

/// The encodings of samples, one after another.
pub open spec fn body_of(samples: Seq<SampleView>) -> Seq<u8>
    decreases samples.len(),
{
    if samples.len() == 0 {
        Seq::empty()
    } else {
        code(record_of(samples[0])) + body_of(samples.drop_first())
    }
}

/// The `n` samples whose encodings make the body.
pub open spec fn samples_in(body: Seq<u8>, n: nat) -> Result<Seq<SampleView>, SnapshotError>
    decreases n,
{
    if n == 0 {
        if body.len() == 0 {
            Ok(Seq::empty())
        } else {
            Err(SnapshotError::TrailingData)
        }
    } else {
        match first_record(body) {
            None => Err(SnapshotError::BadSample),
            Some(record) => match sample_of(record) {
                None => Err(SnapshotError::BadBoard),
                Some(sample) => match samples_in(
                    body.skip(code(record).len() as int),
                    (n - 1) as nat,
                ) {
                    Ok(rest) => Ok(seq![sample] + rest),
                    Err(error) => Err(error),
                },
            },
        }
    }
}

/// The samples of a file; none if it does not exist.
pub open spec fn loaded(file: Option<Seq<u8>>) -> Result<Seq<SampleView>, SnapshotError> {
    match file {
        None => Ok(Seq::empty()),
        Some(bytes) => match opened(bytes) {
            Ok((count, body)) => samples_in(body, count as nat),
            Err(error) => Err(error),
        },
    }
}

/// The bytes are a snapshot of the samples.
pub open spec fn saved(samples: Seq<SampleView>, bytes: Seq<u8>) -> bool {
    &&& samples.len() <= u64::MAX
    &&& body_of(samples).len() <= u64::MAX
    &&& is_snapshot(bytes, samples.len() as u64, body_of(samples))
}

proof fn lemma_first_record(bytes: Seq<u8>, record: RecordView)
    requires
        starts_with(bytes, code(record)),
        bytes.len() <= u64::MAX,
    ensures
        first_record(bytes) == Some(record),
{
    let found = first_record(bytes)->0;
    let n = code(record).len() as int;
    let m = code(found).len() as int;
    assert(bytes =~= code(record) + bytes.skip(n));
    assert(bytes =~= code(found) + bytes.skip(m));
    law_records_are_read_in_one_way(record, found, bytes.skip(n), bytes.skip(m));
}

/// A sample is found again from its numbers.
pub proof fn law_records_keep_samples(sample: Sample)
    requires
        sample.board@.wf(),
    ensures
        sample_of(record_of(sample@)) == Some(sample@),
{
    lemma_numbers_fit(sample.board);
    let record = record_of(sample@);
    let back = record.policy.map_values(|entry: (u64, u32)| (Move(entry.0 as usize), entry.1));
    assert forall|i: int| 0 <= i < record.policy.len() implies (#[trigger] record.policy[i]).0
        <= usize::MAX by {
        assert(record.policy[i].0 == sample@.policy[i].0.0 as u64);
    }
    assert(back =~= sample@.policy) by {
        assert forall|i: int| 0 <= i < back.len() implies back[i] == sample@.policy[i] by {
            assert(record.policy[i] == (sample@.policy[i].0.0 as u64, sample@.policy[i].1));
        }
    }
    assert(sample_of(record)->0 =~= sample@);
}

proof fn lemma_samples_read_back(samples: Seq<Sample>)
    requires
        forall|i: int| 0 <= i < samples.len() ==> (#[trigger] samples[i]).board@.wf(),
        body_of(sample_views(samples)).len() <= u64::MAX,
    ensures
        samples_in(body_of(sample_views(samples)), samples.len()) == Ok::<
            Seq<SampleView>,
            SnapshotError,
        >(sample_views(samples)),
    decreases samples.len(),
{
    let views = sample_views(samples);
    if samples.len() == 0 {
        assert(views =~= Seq::<SampleView>::empty());
    } else {
        let rest = samples.drop_first();
        let record = record_of(views[0]);
        let body = body_of(views);
        assert(views.drop_first() =~= sample_views(rest));
        assert forall|i: int| 0 <= i < rest.len() implies (#[trigger] rest[i]).board@.wf() by {
            assert(rest[i] == samples[i + 1]);
        }
        assert(body.take(code(record).len() as int) =~= code(record));
        assert(body.skip(code(record).len() as int) =~= body_of(sample_views(rest)));
        lemma_first_record(body, record);
        assert(samples[0].board@.wf());
        law_records_keep_samples(samples[0]);
        lemma_samples_read_back(rest);
        assert(seq![views[0]] + sample_views(rest) =~= views);
    }
}

/// What is read of a saved replay are the samples that were written, in their
/// order, each with its board, the history of its board and all its labels.
pub proof fn law_a_saved_replay_reads_back(samples: Seq<Sample>, bytes: Seq<u8>)
    requires
        saved(sample_views(samples), bytes),
        samples.len() <= 10_000_000,
        forall|i: int| 0 <= i < samples.len() ==> (#[trigger] samples[i]).board@.wf(),
    ensures
        loaded(Some(bytes)) == Ok::<Seq<SampleView>, SnapshotError>(sample_views(samples)),
{
    lemma_auto_spec_u64_to_from_le_bytes();
    let head = spec_u64_to_le_bytes(samples.len() as u64);
    let body = body_of(sample_views(samples));
    assert(head.len() == 8);
    assert((head + body).take(8) =~= head);
    assert((head + body).skip(8) =~= body);
    lemma_samples_read_back(samples);
}

proof fn lemma_part_of_body(samples: Seq<SampleView>, part: Seq<u8>)
    requires
        body_of(samples).len() <= u64::MAX,
        part.len() < body_of(samples).len(),
        part == body_of(samples).take(part.len() as int),
    ensures
        samples_in(part, samples.len()) is Err,
    decreases samples.len(),
{
    let body = body_of(samples);
    if samples.len() > 0 && first_record(part) is Some {
        let found = first_record(part)->0;
        let n = code(found).len() as int;
        assert(starts_with(part, code(found)));
        assert(body.take(n) =~= part.take(n));
        lemma_first_record(body, found);
        let record = record_of(samples[0]);
        assert(body.take(code(record).len() as int) =~= code(record));
        lemma_first_record(body, record);
        let rest = body_of(samples.drop_first());
        assert(body.skip(n) =~= rest);
        assert(part.skip(n) =~= rest.take(part.len() - n));
        lemma_part_of_body(samples.drop_first(), part.skip(n));
    }
}

/// A saved replay that lost more than its last four bytes is refused, such as
/// its first half.
pub proof fn law_a_cut_replay_is_refused(samples: Seq<SampleView>, bytes: Seq<u8>, n: int)
    requires
        saved(samples, bytes),
        0 <= n,
        n < 8 || n + 4 < bytes.len(),
        n <= bytes.len(),
    ensures
        loaded(Some(bytes.take(n))) is Err,
{
    if n >= 8 {
        lemma_auto_spec_u64_to_from_le_bytes();
        let cut = bytes.take(n);
        let frame = bytes.skip(8);
        let head = spec_u64_to_le_bytes(samples.len() as u64);
        let body = body_of(samples);
        let content = head + body;
        assert(head.len() == 8);
        assert(cut.take(8) =~= bytes.take(8));
        assert(cut.skip(8) =~= frame.take(n - 8));
        match lz4_content(frame.take(n - 8)) {
            Some(part) => {
                if part.len() >= 8 {
                    assert(part.take(8) =~= head);
                    assert(part.skip(8) =~= body.take(part.len() - 8));
                    lemma_part_of_body(samples, part.skip(8));
                }
            },
            None => {},
        }
    }
}

fn record(sample: &Sample) -> (result: Record)
    ensures
        result@ == record_of(sample@),
{
    proof {
        lemma_numbers_fit(sample.board);
    }
    let board: &Board = &sample.board;
    let mut policy: Vec<(u64, u32)> = Vec::with_capacity(sample.policy.len());
    let mut i: usize = 0;
    while i < sample.policy.len()
        invariant
            i <= sample.policy@.len(),
            policy@.len() == i,
            forall|k: int|
                0 <= k < i ==> #[trigger] policy@[k] == (
                    sample.policy@[k].0.0 as u64,
                    sample.policy@[k].1,
                ),
        decreases sample.policy@.len() - i,
    {
        let (mv, share) = sample.policy[i];
        policy.push((mv.0 as u64, share));
        i = i + 1;
    }
    let result: Record = Record {
        cells: copy_cells(board.cells()),
        side: match board.to_move() {
            Player::Black => 0,
            Player::White => 1,
        },
        moves: board.move_count() as u64,
        passes: board.consecutive_passes() as u64,
        komi_milli: board.komi(),
        previous: copy_cells(board.previous_cells()),
        history: copy_positions(board.history()),
        policy,
        generation: sample.generation,
        value: sample.value,
        policy_weight: sample.policy_weight,
        value_weight: sample.value_weight,
        policy_surprise: sample.policy_surprise,
        value_surprise: sample.value_surprise,
        predicted_value: sample.predicted_value,
    };
    assert(result@ =~= record_of(sample@));
    result
}

fn copy_cells(cells: &[i8]) -> (copy: Vec<i8>)
    ensures
        copy@ == cells@,
{
    let mut copy: Vec<i8> = Vec::with_capacity(cells.len());
    let mut i: usize = 0;
    while i < cells.len()
        invariant
            i <= cells@.len(),
            copy@ == cells@.take(i as int),
        decreases cells@.len() - i,
    {
        copy.push(cells[i]);
        assert(copy@ =~= cells@.take(i + 1));
        i = i + 1;
    }
    assert(copy@ =~= cells@);
    copy
}

fn sample(record: Record) -> (result: Option<Sample>)
    ensures
        match sample_of(record@) {
            Some(sample) => result is Some && result->0@ == sample,
            None => result is None,
        },
{
    let ghost view = record@;
    if record.side > 1 || record.moves > usize::MAX as u64 || record.passes > usize::MAX as u64 {
        return None;
    }
    let mut policy: Vec<(Move, u32)> = Vec::with_capacity(record.policy.len());
    let mut i: usize = 0;
    while i < record.policy.len()
        invariant
            view == record@,
            i <= record.policy@.len(),
            policy@.len() == i,
            forall|k: int|
                0 <= k < i ==> (#[trigger] record.policy@[k]).0 <= usize::MAX && policy@[k] == (
                    Move(record.policy@[k].0 as usize),
                    record.policy@[k].1,
                ),
        decreases record.policy@.len() - i,
    {
        let (action, share) = record.policy[i];
        if action > usize::MAX as u64 {
            assert(view.policy[i as int].0 > usize::MAX);
            return None;
        }
        policy.push((Move(action as usize), share));
        i = i + 1;
    }
    let ghost listed = policy@;
    let to_move: Player = if record.side == 0 {
        Player::Black
    } else {
        Player::White
    };
    assert(positions(record.history@) =~= view.history);
    let made: Option<Board> = Board::from_parts(
        record.cells,
        to_move,
        record.moves as usize,
        record.passes as usize,
        record.komi_milli,
        record.previous,
        record.history,
    );
    match made {
        None => None,
        Some(board) => {
            let result: Sample = Sample {
                board,
                policy,
                value: record.value,
                generation: record.generation,
                policy_weight: record.policy_weight,
                value_weight: record.value_weight,
                policy_surprise: record.policy_surprise,
                value_surprise: record.value_surprise,
                predicted_value: record.predicted_value,
            };
            proof {
                assert(listed =~= view.policy.map_values(
                    |entry: (u64, u32)| (Move(entry.0 as usize), entry.1),
                ));
                assert(result@ =~= sample_of(view)->0);
            }
            Some(result)
        },
    }
}

/// The samples that were added so far, as a snapshot will hold them.
pub struct SnapshotWriter {
    pub count: u64,
    pub body: Vec<u8>,
}

impl SnapshotWriter {
    /// The writer holds these samples.
    pub open spec fn wrote(self, samples: Seq<SampleView>) -> bool {
        self.count == samples.len() && self.body@ == body_of(samples)
    }

    pub fn new() -> (result: SnapshotWriter)
        ensures
            result.wrote(Seq::empty()),
    {
        let body: Vec<u8> = Vec::new();
        assert(body@ =~= body_of(Seq::empty()));
        SnapshotWriter { count: 0, body }
    }

    /// Adds a sample behind the others.
    pub fn add(&mut self, sample: &Sample)
        requires
            old(self).count < u64::MAX,
        ensures
            final(self).count == old(self).count + 1,
            final(self).body@ == old(self).body@ + code(record_of(sample@)),
            forall|samples: Seq<SampleView>|
                #[trigger] old(self).wrote(samples) ==> final(self).wrote(samples.push(sample@)),
    {
        let ghost before = *self;
        let written: Option<Vec<u8>> = write_record(&record(sample));
        if let Some(bytes) = written {
            let mut bytes: Vec<u8> = bytes;
            self.body.append(&mut bytes);
        }
        self.count = self.count + 1;
        proof {
            assert forall|samples: Seq<SampleView>| #[trigger] before.wrote(samples) implies self.wrote(
                samples.push(sample@),
            ) by {
                lemma_body_grows(samples, sample@);
            }
        }
    }

    /// The snapshot of the samples that were added.
    pub fn finish(&self) -> (result: Option<Vec<u8>>)
        ensures
            result is Some,
            is_snapshot(result->0@, self.count, self.body@),
            forall|samples: Seq<SampleView>|
                #[trigger] self.wrote(samples) ==> saved(samples, result->0@),
    {
        assert(self.body.len() <= usize::MAX);
        frame_snapshot(self.count, &self.body)
    }
}

proof fn lemma_body_grows(samples: Seq<SampleView>, sample: SampleView)
    ensures
        body_of(samples.push(sample)) == body_of(samples) + code(record_of(sample)),
    decreases samples.len(),
{
    let more = samples.push(sample);
    if samples.len() == 0 {
        assert(more.drop_first() =~= samples);
        assert(body_of(samples) =~= Seq::<u8>::empty());
        assert(body_of(more) =~= code(record_of(sample)));
        assert(body_of(samples) + code(record_of(sample)) =~= code(record_of(sample)));
    } else {
        lemma_body_grows(samples.drop_first(), sample);
        assert(more.drop_first() =~= samples.drop_first().push(sample));
        assert(body_of(more) =~= body_of(samples) + code(record_of(sample)));
    }
}

/// The bytes of a file that holds the samples. Reading them gives the samples
/// back, where there are not too many.
pub fn save(samples: &[Sample]) -> (result: Option<Vec<u8>>)
    ensures
        result is Some,
        saved(sample_views(samples@), result->0@),
        samples@.len() <= 10_000_000 && (forall|i: int|
            0 <= i < samples@.len() ==> (#[trigger] samples@[i]).board@.wf()) ==> loaded(
            Some(result->0@),
        ) == Ok::<Seq<SampleView>, SnapshotError>(sample_views(samples@)),
{
    let mut writer: SnapshotWriter = SnapshotWriter::new();
    let mut i: usize = 0;
    assert(sample_views(samples@.take(0)) =~= Seq::<SampleView>::empty());
    while i < samples.len()
        invariant
            i <= samples@.len(),
            writer.wrote(sample_views(samples@.take(i as int))),
        decreases samples@.len() - i,
    {
        writer.add(&samples[i]);
        assert(sample_views(samples@.take(i + 1)) =~= sample_views(samples@.take(i as int)).push(
            samples@[i as int]@,
        ));
        i = i + 1;
    }
    assert(samples@.take(samples@.len() as int) =~= samples@);
    let result: Option<Vec<u8>> = writer.finish();
    proof {
        if samples@.len() <= 10_000_000 && (forall|i: int|
            0 <= i < samples@.len() ==> (#[trigger] samples@[i]).board@.wf()) {
            law_a_saved_replay_reads_back(samples@, result->0@);
        }
    }
    result
}

/// The samples of a file; none if it does not exist.
pub fn load(file: Option<&[u8]>) -> (result: Result<Vec<Sample>, SnapshotError>)
    ensures
        match loaded(
            match file {
                Some(bytes) => Some(bytes@),
                None => None,
            },
        ) {
            Ok(samples) => result is Ok && sample_views(result->Ok_0@) == samples,
            Err(error) => result is Err && result->Err_0 == error,
        },
{
    match file {
        None => {
            let none: Vec<Sample> = Vec::new();
            assert(sample_views(none@) =~= Seq::<SampleView>::empty());
            Ok(none)
        },
        Some(bytes) => match open_snapshot(bytes) {
            Err(error) => Err(error),
            Ok((count, body)) => read_samples(&body, count),
        },
    }
}

/// Reads the `count` samples whose encodings make the body.
pub fn read_samples(body: &[u8], count: u64) -> (result: Result<Vec<Sample>, SnapshotError>)
    ensures
        match samples_in(body@, count as nat) {
            Ok(samples) => result is Ok && sample_views(result->Ok_0@) == samples,
            Err(error) => result is Err && result->Err_0 == error,
        },
{
    let mut samples: Vec<Sample> = Vec::new();
    let mut at: usize = 0;
    let mut done: u64 = 0;
    assert(body@.skip(0) =~= body@);
    assert(sample_views(samples@) =~= Seq::<SampleView>::empty());
    proof {
        lemma_nothing_before(samples_in(body@, count as nat));
    }
    while done < count
        invariant
            done <= count,
            at <= body@.len(),
            samples_in(body@, count as nat) == behind(
                sample_views(samples@),
                samples_in(body@.skip(at as int), (count - done) as nat),
            ),
        decreases count - done,
    {
        let rest: &[u8] = slice_subrange(body, at, body.len());
        assert(rest@ =~= body@.skip(at as int));
        match read_record(rest) {
            None => {
                return Err(SnapshotError::BadSample);
            },
            Some((read, left)) => {
                let ghost view = read@;
                proof {
                    lemma_first_record(rest@, view);
                }
                match sample(read) {
                    None => {
                        return Err(SnapshotError::BadBoard);
                    },
                    Some(next) => {
                        let ghost before = sample_views(samples@);
                        let ghost added = next@;
                        samples.push(next);
                        proof {
                            assert(sample_views(samples@) =~= before.push(added));
                            assert(body@.skip(at as int).skip(code(view).len() as int)
                                =~= body@.skip(body@.len() - left));
                            let tail = samples_in(
                                body@.skip(body@.len() - left),
                                (count - done - 1) as nat,
                            );
                            if tail is Ok {
                                assert(before + (seq![added] + tail->Ok_0) =~= before.push(added)
                                    + tail->Ok_0);
                            }
                        }
                        at = body.len() - left;
                    },
                }
            },
        }
        done = done + 1;
    }
    match check_end(body.len(), at) {
        Err(error) => Err(error),
        Ok(_) => {
            assert(sample_views(samples@) + Seq::<SampleView>::empty() =~= sample_views(samples@));
            Ok(samples)
        },
    }
}

/// Samples with those of a result behind them.
spec fn behind(
    samples: Seq<SampleView>,
    rest: Result<Seq<SampleView>, SnapshotError>,
) -> Result<Seq<SampleView>, SnapshotError> {
    match rest {
        Ok(more) => Ok(samples + more),
        Err(error) => Err(error),
    }
}

proof fn lemma_nothing_before(rest: Result<Seq<SampleView>, SnapshotError>)
    ensures
        behind(Seq::empty(), rest) == rest,
{
    if rest is Ok {
        assert(Seq::<SampleView>::empty() + rest->Ok_0 =~= rest->Ok_0);
    }
}

} // verus!
