//! Collecting the vectors that an index is trained on.
use vstd::prelude::*;
use crate::autotune;
use crate::autotune::default_training_vector_count;
use crate::config;
use crate::config::{IndexType, VectorIndexConfig};
use crate::diskann;
use crate::diskann::diskann_training_sample_limit;
use crate::draws;
use crate::draws::{draw, seeded_rng, SeededRng};
use crate::error;
use crate::error::{invalid_input, Error, ErrorView};
use crate::rows;
use crate::validate;
use crate::validate::validate_vectors;
use crate::writer;
use crate::writer::VectorIndexWriter;

verus! {

/// The seed of the sample of every index but a graph, which brings its own.
pub const TRAINING_SEED: u64 = 1234;

/// A reservoir sample after the first `n` of several rows. Rows fill the sample first. Later
/// a row takes the place that was drawn for it, if the sample has such a place.
pub open spec fn sampled(
    sample: Seq<u32>,
    data: Seq<u32>,
    d: nat,
    seen: nat,
    limit: nat,
    picks: Seq<usize>,
    n: nat,
) -> Seq<u32>
    decreases n,
{
    if n == 0 {
        sample
    } else {
        let before = sampled(sample, data, d, seen, limit, picks, (n - 1) as nat);
        let vector = rows::row(data, n - 1, d);
        if seen + n - 1 < limit {
            before + vector
        } else if picks[n - 1] < limit {
            rows::overwritten(before, picks[n - 1] as int, vector, d)
        } else {
            before
        }
    }
}

/// The maxima of the draws for the first `seen` rows: each row behind the first `limit` is given
/// one of the places of the rows so far.
pub open spec fn maxima(limit: nat, seen: nat) -> Seq<usize> {
    if seen <= limit {
        Seq::empty()
    } else {
        Seq::new((seen - limit) as nat, |i: int| (limit + i) as usize)
    }
}

/// The place that is drawn from a seed for a row. The first rows need none.
pub open spec fn place_drawn(seed: u64, limit: nat, at: nat) -> usize {
    if at < limit {
        0
    } else {
        draws::drawn_number(usize::BITS, seed, maxima(limit, at + 1))
    }
}

/// The places that are drawn from a seed for `n` rows behind the first `seen`.
pub open spec fn places_drawn(seed: u64, limit: nat, seen: nat, n: nat) -> Seq<usize> {
    Seq::new(n, |i: int| place_drawn(seed, limit, (seen + i) as nat))
}

/// Whether each place that was drawn is one of the rows so far.
pub open spec fn drawn(picks: Seq<usize>, seen: nat) -> bool {
    forall|i: int| 0 <= i < picks.len() ==> #[trigger] picks[i] <= seen + i
}

/// The number of rows of a sample.
pub open spec fn sample_count(seen: nat, limit: nat) -> nat {
    if seen < limit {
        seen
    } else {
        limit
    }
}

/// A sample has as many rows as were seen, but no more than its limit.
pub proof fn law_sample_is_bounded(
    sample: Seq<u32>,
    data: Seq<u32>,
    d: nat,
    seen: nat,
    limit: nat,
    picks: Seq<usize>,
    n: nat,
    total: nat,
)
    requires
        sample.len() == sample_count(seen, limit) * d,
        data.len() == total * d,
        n <= total,
    ensures
        sampled(sample, data, d, seen, limit, picks, n).len() == sample_count(seen + n, limit) * d,
    decreases n,
{
    if n > 0 {
        law_sample_is_bounded(sample, data, d, seen, limit, picks, (n - 1) as nat, total);
        rows::lemma_row_fits(n - 1, total as int, d as int);
        let count = sample_count((seen + n - 1) as nat, limit);
        assert((count + 1) * d == count * d + d) by (nonlinear_arith);
        if seen + n - 1 >= limit && picks[n - 1] < limit {
            rows::lemma_row_fits(picks[n - 1] as int, limit as int, d as int);
        }
    }
}

/// It does not matter in which batches rows come: a batch after another gives the sample of
/// both at once, for the same draws.
pub proof fn law_batches_do_not_matter(
    sample: Seq<u32>,
    first: Seq<u32>,
    second: Seq<u32>,
    d: nat,
    seen: nat,
    limit: nat,
    first_picks: Seq<usize>,
    second_picks: Seq<usize>,
    a: nat,
    b: nat,
    n: nat,
)
    requires
        first.len() == a * d,
        second.len() == b * d,
        first_picks.len() == a,
        second_picks.len() == b,
        n <= b,
    ensures
        sampled(
            sampled(sample, first, d, seen, limit, first_picks, a),
            second,
            d,
            seen + a,
            limit,
            second_picks,
            n,
        ) == sampled(
            sample,
            first + second,
            d,
            seen,
            limit,
            first_picks + second_picks,
            a + n,
        ),
    decreases n,
{
    let both = first + second;
    let picks = first_picks + second_picks;
    if n == 0 {
        lemma_sample_prefix(
            sample,
            first,
            second,
            d,
            seen,
            limit,
            first_picks,
            second_picks,
            a,
            a,
        );
    } else {
        law_batches_do_not_matter(
            sample,
            first,
            second,
            d,
            seen,
            limit,
            first_picks,
            second_picks,
            a,
            b,
            (n - 1) as nat,
        );
        rows::lemma_row_fits(n - 1, b as int, d as int);
        assert((a + n - 1) * d == a * d + (n - 1) * d) by (nonlinear_arith);
        assert(rows::row(both, a + n - 1, d) =~= rows::row(second, n - 1, d));
        assert(picks[a + n - 1] == second_picks[n - 1]);
    }
}

proof fn lemma_sample_prefix(
    sample: Seq<u32>,
    first: Seq<u32>,
    second: Seq<u32>,
    d: nat,
    seen: nat,
    limit: nat,
    first_picks: Seq<usize>,
    second_picks: Seq<usize>,
    a: nat,
    n: nat,
)
    requires
        first.len() == a * d,
        first_picks.len() == a,
        n <= a,
    ensures
        sampled(sample, first, d, seen, limit, first_picks, n) == sampled(
            sample,
            first + second,
            d,
            seen,
            limit,
            first_picks + second_picks,
            n,
        ),
    decreases n,
{
    if n > 0 {
        lemma_sample_prefix(
            sample,
            first,
            second,
            d,
            seen,
            limit,
            first_picks,
            second_picks,
            a,
            (n - 1) as nat,
        );
        rows::lemma_row_fits(n - 1, a as int, d as int);
        assert(rows::row(first + second, n - 1, d) =~= rows::row(first, n - 1, d));
        assert((first_picks + second_picks)[n - 1] == first_picks[n - 1]);
    }
}

/// Every row of a sample was offered: it is one of the rows that the sample had, or one of
/// the rows that came.
pub proof fn law_samples_hold_offered_rows(
    sample: Seq<u32>,
    data: Seq<u32>,
    d: nat,
    seen: nat,
    limit: nat,
    picks: Seq<usize>,
    n: nat,
    total: nat,
    at: int,
)
    requires
        sample.len() == sample_count(seen, limit) * d,
        data.len() == total * d,
        n <= total,
        0 <= at < sample_count(seen + n, limit),
    ensures
        ({
            let row = rows::row(sampled(sample, data, d, seen, limit, picks, n), at, d);
            ||| exists|i: int|
                0 <= i < sample_count(seen, limit) && row == #[trigger] rows::row(sample, i, d)
            ||| exists|i: int| 0 <= i < n && row == #[trigger] rows::row(data, i, d)
        }),
    decreases n,
{
    let after = sampled(sample, data, d, seen, limit, picks, n);
    let row = rows::row(after, at, d);
    if n == 0 {
        assert(row == rows::row(sample, at, d));
    } else {
        let before = sampled(sample, data, d, seen, limit, picks, (n - 1) as nat);
        let count = sample_count((seen + n - 1) as nat, limit);
        law_sample_is_bounded(sample, data, d, seen, limit, picks, (n - 1) as nat, total);
        rows::lemma_row_fits(n - 1, total as int, d as int);
        let vector = rows::row(data, n - 1, d);
        let replaced = seen + n - 1 >= limit && picks[n - 1] < limit;
        if seen + n - 1 < limit && at == count {
            assert(row =~= vector);
        } else if replaced && at == picks[n - 1] {
            rows::lemma_row_fits(at, limit as int, d as int);
            rows::lemma_overwritten_row(before, at, vector, d, at);
        } else {
            rows::lemma_row_fits(at, count as int, d as int);
            if replaced {
                rows::lemma_row_fits(picks[n - 1] as int, limit as int, d as int);
                rows::lemma_overwritten_row(before, picks[n - 1] as int, vector, d, at);
            }
            assert(row =~= rows::row(before, at, d));
            law_samples_hold_offered_rows(
                sample,
                data,
                d,
                seen,
                limit,
                picks,
                (n - 1) as nat,
                total,
                at,
            );
            if exists|i: int| 0 <= i < n - 1 && row == #[trigger] rows::row(data, i, d) {
                let i = choose|i: int| 0 <= i < n - 1 && row == #[trigger] rows::row(data, i, d);
                assert(0 <= i < n && row == rows::row(data, i, d));
            }
        }
    }
}

/// A row behind the first `limit` rows draws its place from as many places as there are rows
/// up to and with it: of the draws for the first `n` rows, the first is made from the places
/// up to and with `limit`, and each later one from one place more. So every row has the same
/// chance to be in the sample.
pub proof fn law_rows_draw_from_all_rows_so_far(seed: u64, limit: nat, n: nat)
    requires
        n <= usize::MAX,
    ensures
        limit <= n ==> maxima(limit, n).len() == n - limit,
        n <= limit ==> maxima(limit, n).len() == 0,
        forall|j: int| 0 <= j < n - limit ==> #[trigger] maxima(limit, n)[j] == limit + j,
        forall|at: nat|
            limit <= at < n ==> #[trigger] place_drawn(seed, limit, at) == draws::drawn_number(
                usize::BITS,
                seed,
                Seq::new((at + 1 - limit) as nat, |j: int| (limit + j) as usize),
            ),
{
    assert forall|at: nat| limit <= at < n implies #[trigger] place_drawn(seed, limit, at)
        == draws::drawn_number(
        usize::BITS,
        seed,
        Seq::new((at + 1 - limit) as nat, |j: int| (limit + j) as usize),
    ) by {
        assert(maxima(limit, at + 1) =~= Seq::new(
            (at + 1 - limit) as nat,
            |j: int| (limit + j) as usize,
        ));
    }
}

/// A place of a sample holds the last row that went there: row `at` itself at first, and then
/// each row behind the first `limit` that drew the place. `last` is that row.
pub proof fn law_places_hold_the_last_row_that_drew_them(
    data: Seq<u32>,
    d: nat,
    limit: nat,
    picks: Seq<usize>,
    n: nat,
    total: nat,
    at: int,
    last: int,
)
    requires
        data.len() == total * d,
        n <= total,
        0 <= at < limit,
        0 <= last < n,
        last == at || last >= limit && picks[last] == at,
        at < n,
        forall|j: int| last < j < n && j >= limit ==> #[trigger] picks[j] != at,
    ensures
        sampled(Seq::empty(), data, d, 0, limit, picks, n).subrange(at * d, at * d + d)
            == data.subrange(last * d, last * d + d),
    decreases n,
{
    let after = sampled(Seq::empty(), data, d, 0, limit, picks, n);
    let before = sampled(Seq::empty(), data, d, 0, limit, picks, (n - 1) as nat);
    let vector = rows::row(data, n - 1, d);
    let count = sample_count((n - 1) as nat, limit);
    assert(0 * d == 0) by (nonlinear_arith);
    law_sample_is_bounded(Seq::empty(), data, d, 0, limit, picks, (n - 1) as nat, total);
    rows::lemma_row_fits(n - 1, total as int, d as int);
    rows::lemma_row_fits(last, total as int, d as int);
    if last == n - 1 {
        if n - 1 < limit {
            assert(at == count);
            assert(after.subrange(at * d, at * d + d) =~= vector);
        } else {
            rows::lemma_row_fits(at, limit as int, d as int);
            rows::lemma_overwritten_row(before, at, vector, d, at);
            assert(rows::row(after, at, d) == vector);
        }
    } else {
        rows::lemma_row_fits(at, count as int, d as int);
        law_places_hold_the_last_row_that_drew_them(
            data,
            d,
            limit,
            picks,
            (n - 1) as nat,
            total,
            at,
            last,
        );
        if n - 1 >= limit && picks[n - 1] < limit {
            rows::lemma_row_fits(picks[n - 1] as int, limit as int, d as int);
            rows::lemma_overwritten_row(before, picks[n - 1] as int, vector, d, at);
            assert(rows::row(after, at, d) == rows::row(before, at, d));
        } else {
            assert(after.subrange(at * d, at * d + d) =~= before.subrange(at * d, at * d + d));
        }
    }
}

/// Takes a row into a sample, given the place that was drawn for it.
pub fn sample_row(
    sample: &mut Vec<u32>,
    data: &[u32],
    at: usize,
    total: usize,
    d: usize,
    stream_index: usize,
    limit: usize,
    pick: usize,
)
    requires
        at < total,
        data.len() == total * d,
        old(sample)@.len() == sample_count(stream_index as nat, limit as nat) * d,
    ensures
        final(sample)@ == (if stream_index < limit {
            old(sample)@ + rows::row(data@, at as int, d as nat)
        } else if pick < limit {
            rows::overwritten(
                old(sample)@,
                pick as int,
                rows::row(data@, at as int, d as nat),
                d as nat,
            )
        } else {
            old(sample)@
        }),
{
    proof {
        rows::lemma_row_fits(at as int, total as int, d as int);
    }
    assert(data.len() == data@.len());
    let start: usize = at * d;
    let vector = vstd::slice::slice_subrange(data, start, start + d);
    if stream_index < limit {
        sample.extend_from_slice(vector);
        assert(sample@ =~= old(sample)@ + vector@);
    } else if pick < limit {
        let mut places: Vec<usize> = Vec::new();
        places.push(pick);
        assert(1 * d == d) by (nonlinear_arith);
        rows::scatter_rows(sample, places.as_slice(), vector, limit, d);
        proof {
            let before = old(sample)@;
            assert(rows::row(vector@, 0, d as nat) =~= vector@) by {
                assert(0 * d == 0) by (nonlinear_arith);
            }
            assert(rows::scattered(before, places@, vector@, d as nat, 0) == before);
            assert(rows::scattered(before, places@, vector@, d as nat, 1) == rows::overwritten(
                before,
                pick as int,
                vector@,
                d as nat,
            ));
        }
    }
}

/// The seed of the sample of a configuration.
pub open spec fn seed_of(config: VectorIndexConfig) -> u64 {
    match config {
        VectorIndexConfig::DiskAnn { build, .. } => build.seed,
        _ => TRAINING_SEED,
    }
}

/// Tells which seed the sample of a configuration has.
pub fn training_seed(config: &VectorIndexConfig) -> (seed: u64)
    ensures
        seed == seed_of(*config),
{
    match config {
        VectorIndexConfig::DiskAnn { build, .. } => build.seed,
        _ => TRAINING_SEED,
    }
}

/// The largest number of rows that a configuration is trained on.
pub open spec fn sample_limit(config: VectorIndexConfig) -> Result<usize, ErrorView> {
    match config {
        VectorIndexConfig::DiskAnn { dimension, pq_bits, build, .. } =>
            diskann::checked_sample_limit(dimension, pq_bits, build.memory_budget_bytes),
        _ => autotune::training_vectors(usize::MAX, config::nlist_of(config)),
    }
}

/// What is checked of a configuration before it is trained.
pub open spec fn checked_training(config: VectorIndexConfig) -> Result<usize, ErrorView> {
    match sample_limit(config) {
        Err(error) => Err(error),
        Ok(limit) => match config::checked_config(config) {
            Err(error) => Err(error),
            Ok(_) => Ok(limit),
        },
    }
}

/// The model of a [`VectorIndexTrainer`].
pub struct TrainerView {
    pub writer: VectorIndexWriter,
    pub sample: Seq<u32>,
    pub seen: nat,
    pub limit: nat,
    pub seed: u64,
}

/// Collects the vectors that an index is trained on: a reservoir sample of all vectors that
/// are offered.
pub struct VectorIndexTrainer {
    writer: VectorIndexWriter,
    training_data: Vec<u32>,
    training_vector_count: usize,
    training_vectors_seen: usize,
    training_sample_limit: usize,
    training_rng: SeededRng,
}

impl View for VectorIndexTrainer {
    type V = TrainerView;

    closed spec fn view(&self) -> TrainerView {
        TrainerView {
            writer: self.writer,
            sample: self.training_data@,
            seen: self.training_vectors_seen as nat,
            limit: self.training_sample_limit as nat,
            seed: self.training_rng@.seed,
        }
    }
}

impl TrainerView {
    /// The number of rows of the sample.
    pub open spec fn count(self) -> nat {
        sample_count(self.seen, self.limit)
    }
}

/// What is checked of training vectors.
pub open spec fn checked_addition(trainer: TrainerView, data: Seq<u32>, n: usize) -> Result<
    (),
    ErrorView,
> {
    match validate::checked_vectors(data, n, trainer.writer.d(), "training data"@) {
        Err(error) => Err(error),
        Ok(_) => if trainer.seen + n > usize::MAX {
            Err(error::input_error("training vector count overflows usize"@))
        } else {
            Ok(())
        },
    }
}

/// Whether a trainer is another one that was offered more vectors. The sample is that of the
/// draws from its seed, each among the rows so far.
pub open spec fn extended(
    before: TrainerView,
    after: TrainerView,
    data: Seq<u32>,
    n: nat,
) -> bool {
    &&& after.writer == before.writer
    &&& after.limit == before.limit
    &&& after.seed == before.seed
    &&& after.seen == before.seen + n
    &&& drawn(places_drawn(before.seed, before.limit, before.seen, n), before.seen)
    &&& after.sample == sampled(
        before.sample,
        data,
        before.writer.d() as nat,
        before.seen,
        before.limit,
        places_drawn(before.seed, before.limit, before.seen, n),
        n,
    )
}

/// Whether a trainer is that of a configuration before it is offered vectors.
pub open spec fn is_new(trainer: TrainerView, config: VectorIndexConfig) -> bool {
    &&& writer::is_empty_index(trainer.writer, config)
    &&& trainer.writer.d() == config::dimension_of(config)
    &&& trainer.sample == Seq::<u32>::empty()
    &&& trainer.seen == 0
    &&& checked_training(config) == Ok::<usize, ErrorView>(trainer.limit as usize)
    &&& trainer.limit <= usize::MAX
    &&& trainer.seed == seed_of(config)
}

/// The data of the first `n` batches, one behind the other.
pub open spec fn joined(batches: Seq<(Seq<u32>, nat)>, n: nat) -> Seq<u32>
    decreases n,
{
    if n == 0 {
        Seq::empty()
    } else {
        joined(batches, (n - 1) as nat) + batches[n - 1].0
    }
}

/// The number of rows of the first `n` batches.
pub open spec fn total_rows(batches: Seq<(Seq<u32>, nat)>, n: nat) -> nat
    decreases n,
{
    if n == 0 {
        0
    } else {
        total_rows(batches, (n - 1) as nat) + batches[n - 1].1
    }
}

/// Whether these are the states of a trainer that is offered one batch of whole rows after
/// another.
pub open spec fn fed(states: Seq<TrainerView>, batches: Seq<(Seq<u32>, nat)>) -> bool {
    &&& states.len() == batches.len() + 1
    &&& forall|i: int|
        0 <= i < batches.len() ==> {
            let (data, n) = #[trigger] batches[i];
            &&& data.len() == n * states[i].writer.d()
            &&& extended(states[i], states[i + 1], data, n)
        }
}

proof fn lemma_places_concat(seed: u64, limit: nat, seen: nat, a: nat, b: nat)
    ensures
        places_drawn(seed, limit, seen, a) + places_drawn(seed, limit, seen + a, b)
            == places_drawn(seed, limit, seen, a + b),
        drawn(places_drawn(seed, limit, seen, a), seen) && drawn(
            places_drawn(seed, limit, seen + a, b),
            seen + a,
        ) ==> drawn(places_drawn(seed, limit, seen, a + b), seen),
{
    let first = places_drawn(seed, limit, seen, a);
    let second = places_drawn(seed, limit, seen + a, b);
    let all = places_drawn(seed, limit, seen, a + b);
    assert(first + second =~= all);
    if drawn(first, seen) && drawn(second, seen + a) {
        assert forall|i: int| 0 <= i < all.len() implies #[trigger] all[i] <= seen + i by {
            if i < a {
                assert(all[i] == first[i]);
            } else {
                assert(all[i] == second[i - a]);
            }
        }
    }
}

proof fn lemma_batches_are_one(states: Seq<TrainerView>, batches: Seq<(Seq<u32>, nat)>, n: nat)
    requires
        fed(states, batches),
        n <= batches.len(),
    ensures
        extended(states[0], states[n as int], joined(batches, n), total_rows(batches, n)),
        joined(batches, n).len() == total_rows(batches, n) * states[0].writer.d(),
    decreases n,
{
    let start = states[0];
    let d = start.writer.d() as nat;
    if n == 0 {
        assert(0 * d == 0) by (nonlinear_arith);
    } else {
        let earlier = (n - 1) as nat;
        lemma_batches_are_one(states, batches, earlier);
        let (data, count) = batches[n - 1];
        let seen = total_rows(batches, earlier);
        assert((seen + count) * d == seen * d + count * d) by (nonlinear_arith);
        lemma_places_concat(start.seed, start.limit, start.seen, seen, count);
        law_batches_do_not_matter(
            start.sample,
            joined(batches, earlier),
            data,
            d,
            start.seen,
            start.limit,
            places_drawn(start.seed, start.limit, start.seen, seen),
            places_drawn(start.seed, start.limit, start.seen + seen, count),
            seen,
            count,
            count,
        );
    }
}

/// Offering rows in batches comes to offering all of them at once.
pub proof fn law_batches_come_to_one(states: Seq<TrainerView>, batches: Seq<(Seq<u32>, nat)>)
    requires
        fed(states, batches),
    ensures
        extended(
            states[0],
            states.last(),
            joined(batches, batches.len()),
            total_rows(batches, batches.len()),
        ),
{
    lemma_batches_are_one(states, batches, batches.len());
}

/// Trainers of one configuration that are offered the same rows in the same order, in whatever
/// batches, have the same sample. It has as many rows as were offered, but no more than the
/// limit.
pub proof fn law_trainers_of_a_configuration_agree(
    config: VectorIndexConfig,
    states: Seq<TrainerView>,
    batches: Seq<(Seq<u32>, nat)>,
    others: Seq<TrainerView>,
    other_batches: Seq<(Seq<u32>, nat)>,
)
    requires
        is_new(states[0], config),
        is_new(others[0], config),
        fed(states, batches),
        fed(others, other_batches),
        joined(batches, batches.len()) == joined(other_batches, other_batches.len()),
        total_rows(batches, batches.len()) == total_rows(other_batches, other_batches.len()),
    ensures
        states.last().sample == others.last().sample,
        states.last().seen == total_rows(batches, batches.len()),
        others.last().seen == states.last().seen,
        states.last().limit == others.last().limit,
        states.last().sample.len() == states.last().count() * config::dimension_of(config),
{
    lemma_batches_are_one(states, batches, batches.len());
    lemma_batches_are_one(others, other_batches, other_batches.len());
    let d = config::dimension_of(config) as nat;
    let n = total_rows(batches, batches.len());
    assert(0 * d == 0) by (nonlinear_arith);
    law_sample_is_bounded(
        Seq::empty(),
        joined(batches, batches.len()),
        d,
        0,
        states[0].limit,
        places_drawn(states[0].seed, states[0].limit, 0, n),
        n,
        n,
    );
}

impl VectorIndexTrainer {
    /// Whether the sample has the rows it should have, and vectors have dimensions.
    pub closed spec fn wf(&self) -> bool {
        &&& self.writer.d() > 0
        &&& self.writer.wf()
        &&& self.training_data@.len() == self@.count() * self.writer.d()
        &&& self.training_vector_count == self@.count()
        &&& self.training_rng@.maxima == maxima(self@.limit, self@.seen)
    }

    /// A trainer without vectors.
    pub fn new(config: VectorIndexConfig) -> (result: Result<Self, Error>)
        ensures
            match (result, checked_training(config)) {
                (Ok(trainer), Ok(limit)) => trainer.wf() && is_new(trainer@, config)
                    && trainer@.limit == limit,
                (Err(error), Err(wanted)) => error@ == wanted,
                _ => false,
            },
    {
        let limit: Result<usize, Error> = match config {
            VectorIndexConfig::DiskAnn { dimension, metric: _, pq_m: _, pq_bits, build } => {
                diskann_training_sample_limit(dimension, pq_bits, build.memory_budget_bytes)
            },
            _ => default_training_vector_count(usize::MAX, config.nlist()),
        };
        let training_sample_limit: usize = match limit {
            Err(error) => return Err(error),
            Ok(limit) => limit,
        };
        let writer = match VectorIndexWriter::from_config(config) {
            Err(error) => return Err(error),
            Ok(writer) => writer,
        };
        let trainer = VectorIndexTrainer {
            writer,
            training_data: Vec::new(),
            training_vector_count: 0,
            training_vectors_seen: 0,
            training_sample_limit,
            training_rng: seeded_rng(training_seed(&config)),
        };
        assert(0 * trainer.writer.d() == 0) by (nonlinear_arith);
        Ok(trainer)
    }

    /// The dimension.
    pub fn dimension(&self) -> (dimension: usize)
        ensures
            dimension == self@.writer.d(),
    {
        self.writer.dimension()
    }

    /// The number of rows of the sample.
    pub fn training_vector_count(&self) -> (count: usize)
        requires
            self.wf(),
        ensures
            count == self@.count(),
    {
        self.training_vector_count
    }

    /// The number of rows that were offered.
    pub fn training_vectors_seen(&self) -> (seen: usize)
        ensures
            seen == self@.seen,
    {
        self.training_vectors_seen
    }

    /// The largest number of rows of the sample.
    pub fn training_sample_limit(&self) -> (limit: usize)
        ensures
            limit == self@.limit,
    {
        self.training_sample_limit
    }

    /// The sample.
    pub fn training_data(&self) -> (data: &[u32])
        ensures
            data@ == self@.sample,
    {
        self.training_data.as_slice()
    }

    /// Offers vectors, and gives the trainer back.
    pub fn add_training_vectors(self, data: &[u32], n: usize) -> (result: Result<Self, Error>)
        requires
            self.wf(),
        ensures
            match (result, checked_addition(self@, data@, n)) {
                (Ok(trainer), Ok(_)) => trainer.wf() && extended(
                    self@,
                    trainer@,
                    data@,
                    n as nat,
                ),
                (Err(error), Err(wanted)) => error@ == wanted,
                _ => false,
            },
    {
        let mut trainer = self;
        match trainer.add_training_vectors_mut(data, n) {
            Err(error) => Err(error),
            Ok(_) => Ok(trainer),
        }
    }

    /// Offers vectors.
    pub fn add_training_vectors_mut(&mut self, data: &[u32], n: usize) -> (result: Result<
        (),
        Error,
    >)
        requires
            old(self).wf(),
        ensures
            final(self).wf(),
            match (result, checked_addition(old(self)@, data@, n)) {
                (Ok(_), Ok(_)) => extended(old(self)@, final(self)@, data@, n as nat),
                (Err(error), Err(wanted)) => error@ == wanted && final(self)@ == old(self)@,
                _ => false,
            },
    {
        let d: usize = self.writer.dimension();
        if let Err(error) = validate_vectors(data, n, d, "training data") {
            return Err(error);
        }
        let seen_after: usize = match self.training_vectors_seen.checked_add(n) {
            None => {
                return Err(invalid_input("training vector count overflows usize".to_owned()));
            },
            Some(seen) => seen,
        };
        let ghost before = self@;
        let ghost all = places_drawn(before.seed, before.limit, before.seen, n as nat);
        let seen: usize = self.training_vectors_seen;
        let limit: usize = self.training_sample_limit;
        let mut i: usize = 0;
        while i < n
            invariant
                i <= n,
                d > 0,
                d == before.writer.d(),
                data.len() == n * d,
                seen + n <= usize::MAX,
                seen == before.seen,
                limit == before.limit,
                before.sample.len() == sample_count(seen as nat, limit as nat) * d,
                self@.writer == before.writer,
                self@.seen == before.seen,
                self@.limit == before.limit,
                self@.writer.wf(),
                self@.seed == before.seed,
                self.training_rng@.maxima == maxima(limit as nat, (seen + i) as nat),
                all == places_drawn(before.seed, before.limit, before.seen, n as nat),
                forall|j: int| 0 <= j < i ==> #[trigger] all[j] <= seen + j,
                self@.sample == sampled(
                    before.sample,
                    data@,
                    d as nat,
                    seen as nat,
                    limit as nat,
                    all,
                    i as nat,
                ),
            decreases n - i,
        {
            let stream_index: usize = seen + i;
            let pick: usize = if stream_index < limit {
                0
            } else {
                draw(&mut self.training_rng, stream_index)
            };
            proof {
                law_sample_is_bounded(
                    before.sample,
                    data@,
                    d as nat,
                    seen as nat,
                    limit as nat,
                    all,
                    i as nat,
                    n as nat,
                );
                assert(all[i as int] == place_drawn(before.seed, limit as nat, (seen + i) as nat));
                if stream_index >= limit {
                    assert(maxima(limit as nat, (stream_index + 1) as nat) =~= maxima(
                        limit as nat,
                        stream_index as nat,
                    ).push(stream_index));
                }
            }
            sample_row(&mut self.training_data, data, i, n, d, stream_index, limit, pick);
            i = i + 1;
        }
        proof {
            law_sample_is_bounded(
                before.sample,
                data@,
                d as nat,
                seen as nat,
                limit as nat,
                all,
                n as nat,
                n as nat,
            );
        }
        self.training_vector_count = if seen_after < limit {
            seen_after
        } else {
            limit
        };
        self.training_vectors_seen = seen_after;
        assert(drawn(all, before.seen));
        Ok(())
    }

    /// What training needs: the sample and the number of its rows.
    pub fn finish(self) -> (result: Result<TrainingSample, Error>)
        requires
            self.wf(),
        ensures
            match result {
                Ok(sample) => {
                    &&& self@.count() > 0
                    &&& sample.data@ == self@.sample
                    &&& sample.count == self@.count()
                    &&& sample.training.writer() == self@.writer
                    &&& sample.data@.len() == sample.count * self@.writer.d()
                },
                Err(error) => self@.count() == 0 && error@ == error::input_error(
                    "no training vectors added"@,
                ),
            },
    {
        assert(self.training_vector_count > 0 ==> self.training_data@.len() > 0) by (nonlinear_arith)
            requires
                self.training_data@.len() == self.training_vector_count * self.writer.d(),
                self.writer.d() > 0,
        ;
        if self.training_vector_count == 0 || self.training_data.len() == 0 {
            return Err(invalid_input("no training vectors added".to_owned()));
        }
        Ok(
            TrainingSample {
                training: VectorIndexTraining { inner: self.writer },
                data: self.training_data,
                count: self.training_vector_count,
            },
        )
    }

    /// Checks and collects the vectors of an index at once.
    pub fn train(config: VectorIndexConfig, data: &[u32], n: usize) -> (result: Result<
        TrainingSample,
        Error,
    >)
        ensures
            match checked_training(config) {
                Err(wanted) => result matches Err(error) && error@ == wanted,
                Ok(limit) => match (
                    result,
                    validate::checked_vectors(
                        data@,
                        n,
                        config::dimension_of(config),
                        "training data"@,
                    ),
                ) {
                    (Ok(sample), Ok(_)) => {
                        &&& writer::is_empty_index(sample.training.writer(), config)
                        &&& sample.count == sample_count(n as nat, limit as nat)
                        &&& sample.data@.len() == sample.count * config::dimension_of(config)
                        &&& n <= limit ==> sample.data@ == data@
                        &&& drawn(places_drawn(seed_of(config), limit as nat, 0, n as nat), 0)
                        &&& sample.data@ == sampled(
                            Seq::empty(),
                            data@,
                            config::dimension_of(config) as nat,
                            0,
                            limit as nat,
                            places_drawn(seed_of(config), limit as nat, 0, n as nat),
                            n as nat,
                        )
                    },
                    (Err(error), Err(wanted)) => error@ == wanted,
                    (Err(error), Ok(_)) => limit == 0 && error@ == error::input_error(
                        "no training vectors added"@,
                    ),
                    _ => false,
                },
            },
    {
        let trainer = match VectorIndexTrainer::new(config) {
            Err(error) => return Err(error),
            Ok(trainer) => trainer,
        };
        let ghost empty = trainer@;
        let trainer = match trainer.add_training_vectors(data, n) {
            Err(error) => return Err(error),
            Ok(trainer) => trainer,
        };
        proof {
            let picks = places_drawn(empty.seed, empty.limit, 0, n as nat);
            if n <= empty.limit {
                lemma_filling(data@, empty.writer.d() as nat, empty.limit, picks, n as nat, n as nat);
                assert(data@.subrange(0, (n * empty.writer.d()) as int) =~= data@);
            }
        }
        trainer.finish()
    }
}

/// As long as a sample is not full it holds every row.
proof fn lemma_filling(data: Seq<u32>, d: nat, limit: nat, picks: Seq<usize>, n: nat, total: nat)
    requires
        n <= limit,
        n <= total,
        data.len() == total * d,
    ensures
        0 <= n * d <= data.len(),
        sampled(Seq::empty(), data, d, 0, limit, picks, n) == data.subrange(0, (n * d) as int),
    decreases n,
{
    if n == 0 {
        assert(0 * d == 0) by (nonlinear_arith);
        assert(0 <= total * d) by (nonlinear_arith);
        assert(data.subrange(0, 0) =~= Seq::<u32>::empty());
    } else {
        lemma_filling(data, d, limit, picks, (n - 1) as nat, total);
        rows::lemma_row_fits(n - 1, total as int, d as int);
        assert(data.subrange(0, ((n - 1) * d) as int) + rows::row(data, n - 1, d)
            =~= data.subrange(0, (n * d) as int));
    }
}

/// The index of a configuration whose vectors were collected.
pub struct VectorIndexTraining {
    inner: VectorIndexWriter,
}

impl VectorIndexTraining {
    /// The index.
    pub closed spec fn writer(&self) -> VectorIndexWriter {
        self.inner
    }

    /// The index type.
    pub fn index_type(&self) -> (index_type: IndexType)
        ensures
            index_type == self.writer().kind(),
    {
        self.inner.index_type()
    }

    /// The dimension.
    pub fn dimension(&self) -> (dimension: usize)
        ensures
            dimension == self.writer().d(),
    {
        self.inner.dimension()
    }

    pub(crate) fn into_writer(self) -> (writer: VectorIndexWriter)
        ensures
            writer == self.writer(),
    {
        self.inner
    }
}

/// An index with the sample that its quantizers are trained on.
pub struct TrainingSample {
    pub training: VectorIndexTraining,
    pub data: Vec<u32>,
    pub count: usize,
}

} // verus!
