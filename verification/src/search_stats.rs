//! What searches of IVF-RQ and DiskANN indexes did.
use vstd::prelude::*;

verus! {

/// What searches of a DiskANN index did.
#[derive(Clone, Copy, Debug, PartialEq, Eq, Structural)]
pub struct DiskAnnSearchStats {
    /// The queries.
    pub query_count: usize,
    /// The candidates that were compared in full, counted for each query.
    pub rerank_candidate_references: usize,
    /// The ranges of the file that were read for these candidates.
    pub rerank_unique_windows: usize,
}

/// What searches of an IVF-RQ index did.
#[derive(Clone, Copy, Debug, PartialEq, Eq, Structural)]
pub struct IVFRQSearchStats {
    /// The queries.
    pub query_count: usize,
    /// The rows of the lists that were scanned.
    pub scanned_vectors: usize,
    /// The rows that passed the filter.
    pub eligible_vectors: usize,
    /// The rows whose coarse estimate was not enough.
    pub refined_vectors: usize,
    /// The distances that were computed in full.
    pub final_distance_evaluations: usize,
    /// The table lookups for coarse estimates of refined rows.
    pub refined_coarse_byte_lookups: usize,
    /// The table lookups for the bits beyond the first.
    pub extra_plane_byte_lookups: usize,
    /// The blocks of rows that were scanned at once.
    pub fastscan_blocks: usize,
    /// The blocks of rows that were scanned row by row.
    pub scalar_blocks: usize,
    /// The lists that were scanned with a limit from earlier lists.
    pub seeded_lists: usize,
    /// The lists that were scanned apart from others.
    pub parallel_list_tasks: usize,
}

/// The sum of two counts, as far as it can be counted.
pub open spec fn counted(a: usize, b: usize) -> usize {
    if a + b > usize::MAX {
        usize::MAX
    } else {
        (a + b) as usize
    }
}

impl IVFRQSearchStats {
    /// The statistics of no search.
    pub open spec fn none() -> Self {
        IVFRQSearchStats {
            query_count: 0,
            scanned_vectors: 0,
            eligible_vectors: 0,
            refined_vectors: 0,
            final_distance_evaluations: 0,
            refined_coarse_byte_lookups: 0,
            extra_plane_byte_lookups: 0,
            fastscan_blocks: 0,
            scalar_blocks: 0,
            seeded_lists: 0,
            parallel_list_tasks: 0,
        }
    }

    /// Whether no count of work is less than the other one.
    pub open spec fn covers(self, other: Self) -> bool {
        &&& other.scanned_vectors <= self.scanned_vectors
        &&& other.eligible_vectors <= self.eligible_vectors
        &&& other.refined_vectors <= self.refined_vectors
        &&& other.final_distance_evaluations <= self.final_distance_evaluations
        &&& other.refined_coarse_byte_lookups <= self.refined_coarse_byte_lookups
        &&& other.extra_plane_byte_lookups <= self.extra_plane_byte_lookups
        &&& other.fastscan_blocks <= self.fastscan_blocks
        &&& other.scalar_blocks <= self.scalar_blocks
        &&& other.seeded_lists <= self.seeded_lists
        &&& other.parallel_list_tasks <= self.parallel_list_tasks
    }

    /// The statistics of two searches together.
    pub open spec fn merged(self, other: Self) -> Self {
        IVFRQSearchStats {
            query_count: counted(self.query_count, other.query_count),
            scanned_vectors: counted(self.scanned_vectors, other.scanned_vectors),
            eligible_vectors: counted(self.eligible_vectors, other.eligible_vectors),
            refined_vectors: counted(self.refined_vectors, other.refined_vectors),
            final_distance_evaluations: counted(
                self.final_distance_evaluations,
                other.final_distance_evaluations,
            ),
            refined_coarse_byte_lookups: counted(
                self.refined_coarse_byte_lookups,
                other.refined_coarse_byte_lookups,
            ),
            extra_plane_byte_lookups: counted(
                self.extra_plane_byte_lookups,
                other.extra_plane_byte_lookups,
            ),
            fastscan_blocks: counted(self.fastscan_blocks, other.fastscan_blocks),
            scalar_blocks: counted(self.scalar_blocks, other.scalar_blocks),
            seeded_lists: counted(self.seeded_lists, other.seeded_lists),
            parallel_list_tasks: counted(self.parallel_list_tasks, other.parallel_list_tasks),
        }
    }

    /// Takes the statistics of another search in.
    pub fn merge(&mut self, other: Self)
        ensures
            *final(self) == old(self).merged(other),
    {
        self.query_count = self.query_count.saturating_add(other.query_count);
        self.scanned_vectors = self.scanned_vectors.saturating_add(other.scanned_vectors);
        self.eligible_vectors = self.eligible_vectors.saturating_add(other.eligible_vectors);
        self.refined_vectors = self.refined_vectors.saturating_add(other.refined_vectors);
        self.final_distance_evaluations = self.final_distance_evaluations.saturating_add(
            other.final_distance_evaluations,
        );
        self.refined_coarse_byte_lookups = self.refined_coarse_byte_lookups.saturating_add(
            other.refined_coarse_byte_lookups,
        );
        self.extra_plane_byte_lookups = self.extra_plane_byte_lookups.saturating_add(
            other.extra_plane_byte_lookups,
        );
        self.fastscan_blocks = self.fastscan_blocks.saturating_add(other.fastscan_blocks);
        self.scalar_blocks = self.scalar_blocks.saturating_add(other.scalar_blocks);
        self.seeded_lists = self.seeded_lists.saturating_add(other.seeded_lists);
        self.parallel_list_tasks = self.parallel_list_tasks.saturating_add(
            other.parallel_list_tasks,
        );
    }
}

impl Default for IVFRQSearchStats {
    fn default() -> (stats: Self)
        ensures
            stats == Self::none(),
    {
        IVFRQSearchStats {
            query_count: 0,
            scanned_vectors: 0,
            eligible_vectors: 0,
            refined_vectors: 0,
            final_distance_evaluations: 0,
            refined_coarse_byte_lookups: 0,
            extra_plane_byte_lookups: 0,
            fastscan_blocks: 0,
            scalar_blocks: 0,
            seeded_lists: 0,
            parallel_list_tasks: 0,
        }
    }
}

/// The statistics of several searches together.
pub open spec fn total(searches: Seq<IVFRQSearchStats>) -> IVFRQSearchStats
    decreases searches.len(),
{
    if searches.len() == 0 {
        IVFRQSearchStats::none()
    } else {
        total(searches.drop_last()).merged(searches.last())
    }
}

/// The statistics of a batch: the work of all its rounds, and each of its queries once.
pub open spec fn batch_total(rounds: Seq<IVFRQSearchStats>, query_count: usize) -> IVFRQSearchStats {
    IVFRQSearchStats { query_count, ..total(rounds) }
}

/// Adds up the statistics of the rounds of a batch.
pub fn batch_stats(rounds: &[IVFRQSearchStats], query_count: usize) -> (stats: IVFRQSearchStats)
    ensures
        stats == batch_total(rounds@, query_count),
{
    let mut stats = IVFRQSearchStats::default();
    let mut i: usize = 0;
    assert(rounds@.subrange(0, 0) =~= Seq::empty());
    while i < rounds.len()
        invariant
            i <= rounds@.len(),
            stats == total(rounds@.subrange(0, i as int)),
        decreases rounds@.len() - i,
    {
        assert(rounds@.subrange(0, i + 1).drop_last() =~= rounds@.subrange(0, i as int));
        stats.merge(rounds[i]);
        i = i + 1;
    }
    assert(rounds@.subrange(0, i as int) =~= rounds@);
    stats.query_count = query_count;
    stats
}

/// The statistics of a batch cover the work of each of its rounds.
pub proof fn law_batches_cover_their_rounds(
    rounds: Seq<IVFRQSearchStats>,
    query_count: usize,
    round: int,
)
    requires
        0 <= round < rounds.len(),
    ensures
        batch_total(rounds, query_count).query_count == query_count,
        batch_total(rounds, query_count).covers(rounds[round]),
    decreases rounds.len(),
{
    if round < rounds.len() - 1 {
        assert(rounds.drop_last()[round] == rounds[round]);
        law_batches_cover_their_rounds(rounds.drop_last(), query_count, round);
    }
}

} // verus!
