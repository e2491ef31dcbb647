//! Searches that widen until every query has its results.
//!
//! A search runs outside of this module, round by round: a state tells what the next round
//! searches, takes its results, and tells what the round after it searches. Searches with a
//! stated width have one round.
use vstd::prelude::*;
use vstd::slice::slice_subrange;
use crate::float_bits::F32_MAX;
use crate::rows;
use crate::rows::{copy_of, gather_rows, scatter_rows};
use crate::search_params::{SearchWidth, VectorSearchParams};

verus! {

/// The bytes that the queries and seeds of a retry may take.
pub const MAX_IVF_BATCH_RETRY_BUFFER_BYTES: usize = 0x400_0000;

/// The number of rows in a result: places without a row have the largest distance.
pub open spec fn found(distances: Seq<u32>) -> nat
    decreases distances.len(),
{
    if distances.len() == 0 {
        0
    } else {
        found(distances.drop_last()) + if distances.last() != F32_MAX {
            1nat
        } else {
            0
        }
    }
}

/// Whether a result has the required number of rows.
pub open spec fn complete(distances: Seq<u32>, required: nat) -> bool {
    found(distances) >= required
}

/// Decides [`complete`].
pub fn ivf_search_result_is_complete(distances: &[u32], required: usize) -> (result: bool)
    ensures
        result == complete(distances@, required as nat),
{
    let mut count: usize = 0;
    let mut i: usize = 0;
    assert(distances@.subrange(0, 0) =~= Seq::empty());
    while i < distances.len()
        invariant
            i <= distances.len(),
            count <= i,
            count == found(distances@.subrange(0, i as int)),
        decreases distances.len() - i,
    {
        let ghost prefix = distances@.subrange(0, i + 1);
        assert(prefix.drop_last() =~= distances@.subrange(0, i as int));
        assert(prefix.last() == distances@[i as int]);
        if distances[i] != F32_MAX {
            count = count + 1;
        }
        i = i + 1;
    }
    assert(distances@.subrange(0, i as int) =~= distances@);
    count >= required
}

/// Whether the first `n` of several results are complete.
pub open spec fn all_complete(distances: Seq<u32>, n: nat, top_k: nat, required: nat) -> bool {
    forall|q: int| 0 <= q < n ==> complete(#[trigger] rows::row(distances, q, top_k), required)
}

/// The width of the round after one: twice the width, but at most every list.
pub open spec fn widened(nprobe: usize, nlist: usize) -> usize {
    if 2 * nprobe < nlist {
        (2 * nprobe) as usize
    } else {
        nlist
    }
}

fn widen(nprobe: usize, nlist: usize) -> (next: usize)
    ensures
        next == widened(nprobe, nlist),
{
    if nprobe <= nlist / 2 && 2 * nprobe < nlist {
        2 * nprobe
    } else {
        nlist
    }
}

/// The state of a search that starts over with a larger width until it is complete.
#[derive(Clone, Copy, Debug, PartialEq, Eq, Structural)]
pub struct ProgressiveSearch {
    pub automatic: bool,
    pub nlist: usize,
    pub nprobe: usize,
    pub query_count: usize,
    pub top_k: usize,
    pub required_per_query: usize,
}

impl ProgressiveSearch {
    /// Whether a round has at least one list and a result at least one place.
    pub open spec fn wf(&self) -> bool {
        1 <= self.nprobe && 1 <= self.top_k
    }

    /// The state before the first round.
    pub open spec fn started(
        params: VectorSearchParams,
        nlist: usize,
        initial_nprobe: usize,
        query_count: usize,
        top_k: usize,
        available_matches: usize,
    ) -> Self {
        ProgressiveSearch {
            automatic: params.search_width == SearchWidth::Auto,
            nlist,
            nprobe: initial_nprobe,
            query_count,
            top_k,
            required_per_query: if top_k < available_matches {
                top_k
            } else {
                available_matches
            },
        }
    }

    /// The state before the first round.
    pub fn start(
        params: VectorSearchParams,
        nlist: usize,
        initial_nprobe: usize,
        query_count: usize,
        top_k: usize,
        available_matches: usize,
    ) -> (search: Self)
        ensures
            search == Self::started(
                params,
                nlist,
                initial_nprobe,
                query_count,
                top_k,
                available_matches,
            ),
    {
        ProgressiveSearch {
            automatic: params.search_width == SearchWidth::Auto,
            nlist,
            nprobe: initial_nprobe,
            query_count,
            top_k,
            required_per_query: if top_k < available_matches {
                top_k
            } else {
                available_matches
            },
        }
    }

    /// Whether the search ends with a round that had these distances.
    pub open spec fn ends_with(&self, distances: Seq<u32>) -> bool {
        ||| !self.automatic
        ||| self.nprobe >= self.nlist
        ||| self.required_per_query == 0
        ||| all_complete(
            distances,
            self.query_count as nat,
            self.top_k as nat,
            self.required_per_query as nat,
        )
    }

    /// Takes the distances of a round. Where the search does not end with it, the next
    /// round is wider.
    pub fn advance(&mut self, distances: &[u32]) -> (finished: bool)
        requires
            old(self).wf(),
            distances.len() == old(self).query_count * old(self).top_k,
        ensures
            finished == old(self).ends_with(distances@),
            *final(self) == (if finished {
                *old(self)
            } else {
                ProgressiveSearch { nprobe: widened(old(self).nprobe, old(self).nlist), ..*old(self) }
            }),
    {
        if !self.automatic || self.nprobe >= self.nlist || self.required_per_query == 0 {
            return true;
        }
        let mut query: usize = 0;
        let mut finished: bool = true;
        while query < self.query_count && finished
            invariant
                query <= self.query_count,
                1 <= self.top_k,
                distances.len() == self.query_count * self.top_k,
                finished ==> all_complete(
                    distances@,
                    query as nat,
                    self.top_k as nat,
                    self.required_per_query as nat,
                ),
                !finished ==> !all_complete(
                    distances@,
                    self.query_count as nat,
                    self.top_k as nat,
                    self.required_per_query as nat,
                ),
            decreases self.query_count - query,
        {
            proof {
                rows::lemma_row_fits(query as int, self.query_count as int, self.top_k as int);
            }
            assert(distances.len() == distances@.len());
            let start: usize = query * self.top_k;
            let result = slice_subrange(distances, start, start + self.top_k);
            assert(result@ == rows::row(distances@, query as int, self.top_k as nat));
            if !ivf_search_result_is_complete(result, self.required_per_query) {
                finished = false;
            }
            query = query + 1;
        }
        if !finished {
            self.nprobe = widen(self.nprobe, self.nlist);
        }
        finished
    }
}

/// A search that does not end with a round goes on with a wider one, and never with more
/// lists than there are.
pub proof fn law_rounds_widen(search: ProgressiveSearch, distances: Seq<u32>)
    requires
        search.wf(),
        !search.ends_with(distances),
    ensures
        search.nprobe < widened(search.nprobe, search.nlist) <= search.nlist,
{
}

/// The queries, among those of a round, whose results are not complete.
pub open spec fn incomplete_of(
    queries: Seq<usize>,
    distances: Seq<u32>,
    k: nat,
    required: nat,
    n: nat,
) -> Seq<usize>
    decreases n,
{
    if n == 0 {
        Seq::empty()
    } else {
        let before = incomplete_of(queries, distances, k, required, (n - 1) as nat);
        if complete(rows::row(distances, n - 1, k), required) {
            before
        } else {
            before.push(queries[n - 1])
        }
    }
}

fn push_incomplete(
    incomplete: &mut Vec<usize>,
    queries: &[usize],
    distances: &[u32],
    k: usize,
    required: usize,
)
    requires
        distances.len() == queries.len() * k,
    ensures
        final(incomplete)@ == old(incomplete)@ + incomplete_of(
            queries@,
            distances@,
            k as nat,
            required as nat,
            queries@.len(),
        ),
{
    let ghost before = incomplete@;
    let mut i: usize = 0;
    assert(before + Seq::<usize>::empty() =~= before);
    while i < queries.len()
        invariant
            i <= queries.len(),
            distances.len() == queries.len() * k,
            incomplete@ == before + incomplete_of(
                queries@,
                distances@,
                k as nat,
                required as nat,
                i as nat,
            ),
        decreases queries.len() - i,
    {
        proof {
            rows::lemma_row_fits(i as int, queries@.len() as int, k as int);
        }
        assert(distances.len() == distances@.len());
        let ghost so_far = incomplete_of(
            queries@,
            distances@,
            k as nat,
            required as nat,
            i as nat,
        );
        let start: usize = i * k;
        let result = slice_subrange(distances, start, start + k);
        assert(result@ == rows::row(distances@, i as int, k as nat));
        if !ivf_search_result_is_complete(result, required) {
            incomplete.push(queries[i]);
            assert(incomplete@ =~= before + so_far.push(queries@[i as int]));
        }
        i = i + 1;
    }
}

/// What a round of a batch searches: the queries, the lists from `probe_start` up to but
/// not `probe_end` of each query's lists in order of distance, and the results so far.
#[derive(Debug)]
pub struct BatchRound {
    pub queries: Vec<u32>,
    pub query_count: usize,
    pub probe_start: usize,
    pub probe_end: usize,
    pub seed_ids: Vec<i64>,
    pub seed_distances: Vec<u32>,
}

/// The model of a [`BatchRound`].
pub struct RoundView {
    pub queries: Seq<u32>,
    pub query_count: nat,
    pub probe_start: nat,
    pub probe_end: nat,
    pub seed_ids: Seq<i64>,
    pub seed_distances: Seq<u32>,
}

impl View for BatchRound {
    type V = RoundView;

    open spec fn view(&self) -> RoundView {
        RoundView {
            queries: self.queries@,
            query_count: self.query_count as nat,
            probe_start: self.probe_start as nat,
            probe_end: self.probe_end as nat,
            seed_ids: self.seed_ids@,
            seed_distances: self.seed_distances@,
        }
    }
}

/// Where a batch search stands.
#[derive(Clone, Copy, Debug, PartialEq, Eq, Structural)]
pub enum BatchPhase {
    /// Before the first round.
    First,
    /// Within the rounds that follow.
    Retry,
    /// Behind the last round.
    Done,
}

/// The model of a [`ProgressiveBatchSearch`].
pub struct BatchState {
    pub automatic: bool,
    pub nlist: usize,
    pub dimension: usize,
    pub query_count: usize,
    pub top_k: usize,
    pub required_per_query: usize,
    /// The number of queries that a retry may have.
    pub chunk_size: usize,
    pub queries: Seq<u32>,
    pub phase: BatchPhase,
    pub probe_start: usize,
    pub probe_end: usize,
    /// The queries of the round, in parts of `chunk_size`.
    pub active: Seq<usize>,
    /// The number of queries that the parts so far had.
    pub searched: usize,
    /// The queries of the parts so far whose results are not complete.
    pub incomplete: Seq<usize>,
    pub ids: Seq<i64>,
    pub distances: Seq<u32>,
}

impl BatchState {
    /// What holds of every state.
    pub open spec fn wf(self) -> bool {
        &&& 1 <= self.query_count
        &&& 1 <= self.top_k
        &&& 1 <= self.chunk_size
        &&& 1 <= self.probe_end
        &&& self.required_per_query <= self.top_k
        &&& self.queries.len() == self.query_count * self.dimension
        &&& rows::in_range(self.active, self.query_count as nat)
        &&& rows::increasing(self.active)
        &&& rows::in_range(self.incomplete, self.query_count as nat)
        &&& rows::increasing(self.incomplete)
        &&& self.active.len() <= self.query_count
        &&& self.searched <= self.active.len()
        &&& self.phase == BatchPhase::First ==> {
            &&& self.probe_start == 0
            &&& self.active == places_below(self.query_count)
            &&& self.incomplete.len() == 0
        }
        &&& self.phase != BatchPhase::First ==> self.ids.len() == self.query_count * self.top_k
            && self.distances.len() == self.query_count * self.top_k
        &&& self.phase == BatchPhase::Retry ==> {
            &&& self.automatic
            &&& self.probe_start < self.probe_end <= self.nlist
            &&& self.searched < self.active.len()
            &&& forall|i: int, j: int|
                0 <= i < self.incomplete.len() && self.searched <= j < self.active.len()
                    ==> #[trigger] self.incomplete[i] < #[trigger] self.active[j]
        }
    }

    /// Whether a query is still to be searched.
    pub open spec fn waits(self, query: usize) -> bool {
        ||| self.incomplete.contains(query)
        ||| exists|j: int| self.searched <= j < self.active.len() && self.active[j] == query
    }

    /// Whether a query has all the rows that are required of it.
    pub open spec fn satisfied(self, query: usize) -> bool {
        complete(
            rows::row(self.distances, query as int, self.top_k as nat),
            self.required_per_query as nat,
        )
    }

    /// Whether the search goes on exactly where it has to: as long as it runs, exactly the
    /// queries that are not satisfied are still to be searched, and once it is done, every
    /// query is satisfied or there is nothing left to search.
    pub open spec fn accurate(self) -> bool {
        match self.phase {
            BatchPhase::First => true,
            BatchPhase::Retry => forall|query: usize|
                query < self.query_count ==> (#[trigger] self.waits(query) <==> !self.satisfied(
                    query,
                )),
            BatchPhase::Done => {
                ||| !self.automatic
                ||| self.probe_end >= self.nlist
                ||| self.required_per_query == 0
                ||| forall|query: usize| query < self.query_count ==> #[trigger] self.satisfied(query)
            },
        }
    }

    /// The end of the part that is searched next.
    pub open spec fn part_end(self) -> int {
        if self.active.len() - self.searched < self.chunk_size {
            self.active.len() as int
        } else {
            self.searched + self.chunk_size
        }
    }

    /// The queries that are searched next.
    pub open spec fn part(self) -> Seq<usize> {
        self.active.subrange(self.searched as int, self.part_end())
    }

    /// What is searched next.
    pub open spec fn next(self) -> Option<RoundView> {
        match self.phase {
            BatchPhase::Done => None,
            BatchPhase::First => Some(
                RoundView {
                    queries: self.queries,
                    query_count: self.query_count as nat,
                    probe_start: 0,
                    probe_end: self.probe_end as nat,
                    seed_ids: Seq::empty(),
                    seed_distances: Seq::empty(),
                },
            ),
            BatchPhase::Retry => Some(
                RoundView {
                    queries: rows::gathered(
                        self.queries,
                        self.part(),
                        self.dimension as nat,
                        self.part().len(),
                    ),
                    query_count: self.part().len(),
                    probe_start: self.probe_start as nat,
                    probe_end: self.probe_end as nat,
                    seed_ids: rows::gathered(
                        self.ids,
                        self.part(),
                        self.top_k as nat,
                        self.part().len(),
                    ),
                    seed_distances: rows::gathered(
                        self.distances,
                        self.part(),
                        self.top_k as nat,
                        self.part().len(),
                    ),
                },
            ),
        }
    }

    /// The state after a round whose incomplete queries are known: the next round searches
    /// them further out, if there are any and there is anything further out.
    pub open spec fn settled(self, incomplete: Seq<usize>) -> BatchState {
        if !self.automatic || self.probe_end >= self.nlist || self.required_per_query == 0
            || incomplete.len() == 0 {
            BatchState {
                phase: BatchPhase::Done,
                active: Seq::empty(),
                searched: 0,
                incomplete: Seq::empty(),
                ..self
            }
        } else {
            BatchState {
                phase: BatchPhase::Retry,
                probe_start: self.probe_end,
                probe_end: widened(self.probe_end, self.nlist),
                active: incomplete,
                searched: 0,
                incomplete: Seq::empty(),
                ..self
            }
        }
    }

    /// The state after results: those of all queries in the first round, and those of the
    /// part that was searched in later ones.
    pub open spec fn accepted(self, ids: Seq<i64>, distances: Seq<u32>) -> BatchState {
        let k = self.top_k as nat;
        let required = self.required_per_query as nat;
        match self.phase {
            BatchPhase::Done => self,
            BatchPhase::First => BatchState { ids, distances, ..self }.settled(
                incomplete_of(self.active, distances, k, required, self.active.len()),
            ),
            BatchPhase::Retry => {
                let part = self.part();
                let incomplete = self.incomplete + incomplete_of(
                    part,
                    distances,
                    k,
                    required,
                    part.len(),
                );
                let merged = BatchState {
                    ids: rows::scattered(self.ids, part, ids, k, part.len()),
                    distances: rows::scattered(self.distances, part, distances, k, part.len()),
                    searched: self.part_end() as usize,
                    incomplete,
                    ..self
                };
                if self.part_end() < self.active.len() {
                    merged
                } else {
                    merged.settled(incomplete)
                }
            },
        }
    }
}

/// The number of queries whose vectors and seeds fit a buffer, at least one.
pub open spec fn retry_chunk_size(dimension: usize, top_k: usize, limit_bytes: usize) -> usize {
    let bytes = 4 * dimension + 12 * top_k;
    let fitting = limit_bytes as int / (if bytes > usize::MAX {
        usize::MAX as int
    } else {
        bytes
    });
    if fitting < 1 {
        1
    } else {
        fitting as usize
    }
}

fn compute_retry_chunk_size(dimension: usize, top_k: usize, limit_bytes: usize) -> (size: usize)
    requires
        top_k > 0,
    ensures
        size == retry_chunk_size(dimension, top_k, limit_bytes),
{
    let exact: u128 = 4 * dimension as u128 + 12 * top_k as u128;
    let bytes: usize = if exact > usize::MAX as u128 {
        usize::MAX
    } else {
        exact as usize
    };
    let fitting: usize = limit_bytes / bytes;
    if fitting < 1 {
        1
    } else {
        fitting
    }
}

/// The numbers from 0 up to but not `n`.
pub open spec fn places_below(n: usize) -> Seq<usize> {
    Seq::new(n as nat, |i: int| i as usize)
}

fn count_up(n: usize) -> (places: Vec<usize>)
    ensures
        places@ == places_below(n),
{
    let mut places: Vec<usize> = Vec::new();
    let mut i: usize = 0;
    while i < n
        invariant
            i <= n,
            places.len() == i,
            forall|j: int| 0 <= j < i ==> #[trigger] places@[j] == j,
        decreases n - i,
    {
        places.push(i);
        i = i + 1;
    }
    assert(places@ =~= places_below(n));
    places
}

/// A batch search in which each query goes on for itself until its result is complete.
///
/// The first round searches every query. Each later round searches only the queries whose
/// results are not complete, only in lists that were not searched before, and takes the
/// results so far as seeds. A later round is searched in parts, so that the queries and
/// seeds of a part fit a buffer.
#[derive(Debug)]
pub struct ProgressiveBatchSearch {
    automatic: bool,
    nlist: usize,
    dimension: usize,
    query_count: usize,
    top_k: usize,
    required_per_query: usize,
    chunk_size: usize,
    queries: Vec<u32>,
    phase: BatchPhase,
    probe_start: usize,
    probe_end: usize,
    active: Vec<usize>,
    searched: usize,
    incomplete: Vec<usize>,
    ids: Vec<i64>,
    distances: Vec<u32>,
}

impl View for ProgressiveBatchSearch {
    type V = BatchState;

    closed spec fn view(&self) -> BatchState {
        BatchState {
            automatic: self.automatic,
            nlist: self.nlist,
            dimension: self.dimension,
            query_count: self.query_count,
            top_k: self.top_k,
            required_per_query: self.required_per_query,
            chunk_size: self.chunk_size,
            queries: self.queries@,
            phase: self.phase,
            probe_start: self.probe_start,
            probe_end: self.probe_end,
            active: self.active@,
            searched: self.searched,
            incomplete: self.incomplete@,
            ids: self.ids@,
            distances: self.distances@,
        }
    }
}

/// The state before the first round.
pub open spec fn batch_started(
    params: VectorSearchParams,
    nlist: usize,
    initial_nprobe: usize,
    queries: Seq<u32>,
    query_count: usize,
    top_k: usize,
    available_matches: usize,
    retry_buffer_limit_bytes: usize,
) -> BatchState {
    let dimension = (queries.len() / query_count as nat) as usize;
    BatchState {
        automatic: params.search_width == SearchWidth::Auto,
        nlist,
        dimension,
        query_count,
        top_k,
        required_per_query: if top_k < available_matches {
            top_k
        } else {
            available_matches
        },
        chunk_size: retry_chunk_size(dimension, top_k, retry_buffer_limit_bytes),
        queries,
        phase: BatchPhase::First,
        probe_start: 0,
        probe_end: initial_nprobe,
        active: places_below(query_count),
        searched: 0,
        incomplete: Seq::empty(),
        ids: Seq::empty(),
        distances: Seq::empty(),
    }
}

impl ProgressiveBatchSearch {
    /// The state before the first round, with the usual limit for retries.
    pub fn start(
        params: VectorSearchParams,
        nlist: usize,
        initial_nprobe: usize,
        queries: &[u32],
        query_count: usize,
        top_k: usize,
        available_matches: usize,
    ) -> (search: Self)
        requires
            1 <= query_count,
            1 <= top_k,
            1 <= initial_nprobe,
            exists|dimension: int| queries.len() == #[trigger] (query_count * dimension),
        ensures
            search@.wf(),
            search@ == batch_started(
                params,
                nlist,
                initial_nprobe,
                queries@,
                query_count,
                top_k,
                available_matches,
                MAX_IVF_BATCH_RETRY_BUFFER_BYTES,
            ),
    {
        Self::start_with_retry_buffer_limit(
            params,
            nlist,
            initial_nprobe,
            queries,
            query_count,
            top_k,
            available_matches,
            MAX_IVF_BATCH_RETRY_BUFFER_BYTES,
        )
    }

    /// The state before the first round.
    pub fn start_with_retry_buffer_limit(
        params: VectorSearchParams,
        nlist: usize,
        initial_nprobe: usize,
        queries: &[u32],
        query_count: usize,
        top_k: usize,
        available_matches: usize,
        retry_buffer_limit_bytes: usize,
    ) -> (search: Self)
        requires
            1 <= query_count,
            1 <= top_k,
            1 <= initial_nprobe,
            exists|dimension: int| queries.len() == #[trigger] (query_count * dimension),
        ensures
            search@.wf(),
            search@ == batch_started(
                params,
                nlist,
                initial_nprobe,
                queries@,
                query_count,
                top_k,
                available_matches,
                retry_buffer_limit_bytes,
            ),
    {
        assert(queries.len() == queries@.len());
        let dimension: usize = queries.len() / query_count;
        proof {
            let d = choose|d: int| queries.len() == #[trigger] (query_count * d);
            assert(query_count * d == d * query_count) by (nonlinear_arith);
            vstd::arithmetic::div_mod::lemma_div_multiples_vanish(d, query_count as int);
            assert(query_count * dimension == queries.len());
        }
        let search = ProgressiveBatchSearch {
            automatic: params.search_width == SearchWidth::Auto,
            nlist,
            dimension,
            query_count,
            top_k,
            required_per_query: if top_k < available_matches {
                top_k
            } else {
                available_matches
            },
            chunk_size: compute_retry_chunk_size(dimension, top_k, retry_buffer_limit_bytes),
            queries: copy_of(queries),
            phase: BatchPhase::First,
            probe_start: 0,
            probe_end: initial_nprobe,
            active: count_up(query_count),
            searched: 0,
            incomplete: Vec::new(),
            ids: Vec::new(),
            distances: Vec::new(),
        };
        search
    }

    fn part_stop(&self) -> (end: usize)
        requires
            self@.wf(),
        ensures
            end == self@.part_end(),
            self.searched <= end <= self.active.len(),
    {
        if self.active.len() - self.searched < self.chunk_size {
            self.active.len()
        } else {
            self.searched + self.chunk_size
        }
    }

    /// What is searched next, if anything.
    pub fn next_round(&self) -> (round: Option<BatchRound>)
        requires
            self@.wf(),
        ensures
            match (round, self@.next()) {
                (Some(round), Some(wanted)) => round@ == wanted,
                (None, None) => true,
                _ => false,
            },
    {
        match self.phase {
            BatchPhase::Done => None,
            BatchPhase::First => Some(
                BatchRound {
                    queries: copy_of(self.queries.as_slice()),
                    query_count: self.query_count,
                    probe_start: 0,
                    probe_end: self.probe_end,
                    seed_ids: Vec::new(),
                    seed_distances: Vec::new(),
                },
            ),
            BatchPhase::Retry => {
                let end: usize = self.part_stop();
                let part = slice_subrange(self.active.as_slice(), self.searched, end);
                assert(part@ == self@.part());
                Some(
                    BatchRound {
                        queries: gather_rows(
                            self.queries.as_slice(),
                            part,
                            self.query_count,
                            self.dimension,
                        ),
                        query_count: part.len(),
                        probe_start: self.probe_start,
                        probe_end: self.probe_end,
                        seed_ids: gather_rows(
                            self.ids.as_slice(),
                            part,
                            self.query_count,
                            self.top_k,
                        ),
                        seed_distances: gather_rows(
                            self.distances.as_slice(),
                            part,
                            self.query_count,
                            self.top_k,
                        ),
                    },
                )
            },
        }
    }

    fn settle(&mut self)
        ensures
            final(self)@ == old(self)@.settled(old(self)@.incomplete),
    {
        let mut incomplete: Vec<usize> = Vec::new();
        core::mem::swap(&mut incomplete, &mut self.incomplete);
        self.searched = 0;
        if !self.automatic || self.probe_end >= self.nlist || self.required_per_query == 0
            || incomplete.len() == 0 {
            self.phase = BatchPhase::Done;
            self.active = Vec::new();
        } else {
            self.phase = BatchPhase::Retry;
            self.probe_start = self.probe_end;
            self.probe_end = widen(self.probe_end, self.nlist);
            self.active = incomplete;
        }
    }

    /// Takes the results of the round that [`ProgressiveBatchSearch::next_round`] tells:
    /// `top_k` places for each of its queries.
    pub fn accept(&mut self, ids: &[i64], distances: &[u32])
        requires
            old(self)@.wf(),
            old(self)@.next() matches Some(round) && ids.len() == round.query_count
                * old(self)@.top_k && distances.len() == round.query_count * old(self)@.top_k,
        ensures
            final(self)@ == old(self)@.accepted(ids@, distances@),
            final(self)@.wf(),
    {
        proof {
            law_states_stay_sound(self@, ids@, distances@);
        }
        match self.phase {
            BatchPhase::Done => {},
            BatchPhase::First => {
                self.ids = copy_of(ids);
                self.distances = copy_of(distances);
                let mut incomplete: Vec<usize> = Vec::new();
                assert(self.active@.len() == self.query_count);
                push_incomplete(
                    &mut incomplete,
                    self.active.as_slice(),
                    distances,
                    self.top_k,
                    self.required_per_query,
                );
                assert(incomplete@ =~= incomplete_of(
                    self.active@,
                    distances@,
                    self.top_k as nat,
                    self.required_per_query as nat,
                    self.active@.len(),
                ));
                self.incomplete = incomplete;
                self.settle();
            },
            BatchPhase::Retry => {
                let end: usize = self.part_stop();
                let part = slice_subrange(self.active.as_slice(), self.searched, end);
                assert(part@ == self@.part());
                scatter_rows(&mut self.ids, part, ids, self.query_count, self.top_k);
                scatter_rows(&mut self.distances, part, distances, self.query_count, self.top_k);
                push_incomplete(
                    &mut self.incomplete,
                    part,
                    distances,
                    self.top_k,
                    self.required_per_query,
                );
                self.searched = end;
                if end == self.active.len() {
                    self.settle();
                }
            },
        }
    }

    /// The results, `top_k` places for each query.
    pub fn into_result(self) -> (result: (Vec<i64>, Vec<u32>))
        ensures
            result.0@ == self@.ids,
            result.1@ == self@.distances,
    {
        (self.ids, self.distances)
    }
}

proof fn lemma_incomplete_of(
    queries: Seq<usize>,
    distances: Seq<u32>,
    k: nat,
    required: nat,
    n: nat,
    count: nat,
)
    requires
        n <= queries.len(),
        rows::in_range(queries, count),
        rows::increasing(queries),
    ensures
        rows::in_range(incomplete_of(queries, distances, k, required, n), count),
        rows::increasing(incomplete_of(queries, distances, k, required, n)),
        forall|i: int|
            0 <= i < incomplete_of(queries, distances, k, required, n).len() ==> exists|j: int|
                0 <= j < n && queries[j] == #[trigger] incomplete_of(
                    queries,
                    distances,
                    k,
                    required,
                    n,
                )[i],
    decreases n,
{
    if n > 0 {
        lemma_incomplete_of(queries, distances, k, required, (n - 1) as nat, count);
        let before = incomplete_of(queries, distances, k, required, (n - 1) as nat);
        let after = incomplete_of(queries, distances, k, required, n);
        assert forall|i: int| 0 <= i < after.len() implies exists|j: int|
            0 <= j < n && queries[j] == #[trigger] after[i] by {
            if i < before.len() {
                assert(before[i] == after[i]);
                let j = choose|j: int| 0 <= j < n - 1 && queries[j] == before[i];
                assert(queries[j] == after[i]);
            } else {
                assert(queries[n - 1] == after[i]);
            }
        }
        assert forall|i: int, j: int| 0 <= i < j < after.len() implies #[trigger] after[i]
            < #[trigger] after[j] by {
            if j == before.len() {
                assert(after[i] == before[i]);
                let w = choose|w: int| 0 <= w < n - 1 && queries[w] == before[i];
                assert(queries[w] < queries[n - 1]);
            } else {
                assert(before[i] < before[j]);
            }
        }
    }
}

/// Every state that a batch search comes to is sound.
pub proof fn law_states_stay_sound(state: BatchState, ids: Seq<i64>, distances: Seq<u32>)
    requires
        state.wf(),
        state.next() matches Some(round) && ids.len() == round.query_count * state.top_k
            && distances.len() == round.query_count * state.top_k,
    ensures
        state.accepted(ids, distances).wf(),
{
    let k = state.top_k as nat;
    let required = state.required_per_query as nat;
    let count = state.query_count as nat;
    match state.phase {
        BatchPhase::Done => {},
        BatchPhase::First => {
            lemma_incomplete_of(
                state.active,
                distances,
                k,
                required,
                state.active.len(),
                count,
            );
            rows::lemma_increasing_len(
                incomplete_of(state.active, distances, k, required, state.active.len()),
                count,
            );
        },
        BatchPhase::Retry => {
            let part = state.part();
            assert(rows::in_range(part, count)) by {
                assert forall|i: int| 0 <= i < part.len() implies #[trigger] part[i] < count by {
                    assert(part[i] == state.active[state.searched + i]);
                }
            }
            assert(rows::increasing(part)) by {
                assert forall|i: int, j: int| 0 <= i < j < part.len() implies #[trigger] part[i]
                    < #[trigger] part[j] by {
                    assert(part[i] == state.active[state.searched + i]);
                    assert(part[j] == state.active[state.searched + j]);
                }
            }
            rows::lemma_scattered_len(state.ids, part, ids, count, k, part.len());
            rows::lemma_scattered_len(state.distances, part, distances, count, k, part.len());
            lemma_incomplete_of(part, distances, k, required, part.len(), count);
            let fresh = incomplete_of(part, distances, k, required, part.len());
            let incomplete = state.incomplete + fresh;
            assert forall|i: int| 0 <= i < incomplete.len() implies #[trigger] incomplete[i]
                < count by {
                if i >= state.incomplete.len() {
                    assert(incomplete[i] == fresh[i - state.incomplete.len()]);
                } else {
                    assert(incomplete[i] == state.incomplete[i]);
                }
            }
            assert forall|i: int, j: int| 0 <= i < j < incomplete.len() implies #[trigger] incomplete[i]
                < #[trigger] incomplete[j] by {
                let split = state.incomplete.len() as int;
                if j < split {
                    assert(state.incomplete[i] < state.incomplete[j]);
                } else if i >= split {
                    assert(fresh[i - split] < fresh[j - split]);
                } else {
                    let w = choose|w: int| 0 <= w < part.len() && part[w] == fresh[j - split];
                    assert(part[w] == state.active[state.searched + w]);
                    assert(state.incomplete[i] < state.active[state.searched + w]);
                }
            }
            rows::lemma_increasing_len(incomplete, count);
            if state.part_end() < state.active.len() {
                assert forall|i: int, j: int|
                    0 <= i < incomplete.len() && state.part_end() <= j < state.active.len() implies
                    #[trigger] incomplete[i] < #[trigger] state.active[j] by {
                    let split = state.incomplete.len() as int;
                    if i < split {
                        assert(state.incomplete[i] < state.active[j]);
                    } else {
                        let w = choose|w: int| 0 <= w < part.len() && part[w] == fresh[i - split];
                        assert(part[w] == state.active[state.searched + w]);
                        assert(state.active[state.searched + w] < state.active[j]);
                    }
                }
            }
        },
    }
}

/// A batch search ends: with each step either the round has fewer queries left, or the next
/// round reaches further out, or the search is done.
pub proof fn law_batch_search_ends(state: BatchState, ids: Seq<i64>, distances: Seq<u32>)
    requires
        state.wf(),
        state.phase != BatchPhase::Done,
    ensures
        ({
            let after = state.accepted(ids, distances);
            ||| after.phase == BatchPhase::Done
            ||| after.probe_end > state.probe_end && after.probe_end <= after.nlist
            ||| after.probe_end == state.probe_end && after.active == state.active
                && after.searched > state.searched
        }),
{
}

/// No list is searched twice for a query: the next step either searches other queries in
/// the same lists, or begins where the last round ended.
pub proof fn law_rounds_do_not_overlap(state: BatchState, ids: Seq<i64>, distances: Seq<u32>)
    requires
        state.wf(),
        state.phase != BatchPhase::Done,
        state.accepted(ids, distances).phase == BatchPhase::Retry,
    ensures
        ({
            let after = state.accepted(ids, distances);
            ||| after.probe_start == state.probe_end
            ||| {
                &&& after.probe_start == state.probe_start
                &&& after.probe_end == state.probe_end
                &&& after.searched == state.part_end()
            }
        }),
{
}

pub proof fn lemma_incomplete_complement(
    queries: Seq<usize>,
    distances: Seq<u32>,
    k: nat,
    required: nat,
    n: nat,
    i: int,
)
    requires
        n <= queries.len(),
        0 <= i < n,
    ensures
        complete(rows::row(distances, i, k), required) ==> forall|j: int|
            0 <= j < incomplete_of(queries, distances, k, required, n).len() && rows::increasing(queries)
                ==> #[trigger] incomplete_of(queries, distances, k, required, n)[j] != queries[i],
        !complete(rows::row(distances, i, k), required) ==> incomplete_of(
            queries,
            distances,
            k,
            required,
            n,
        ).contains(queries[i]),
    decreases n,
{
    let before = incomplete_of(queries, distances, k, required, (n - 1) as nat);
    let after = incomplete_of(queries, distances, k, required, n);
    if i < n - 1 {
        lemma_incomplete_complement(queries, distances, k, required, (n - 1) as nat, i);
        if complete(rows::row(distances, i, k), required) {
            assert forall|j: int| 0 <= j < after.len() && rows::increasing(queries) implies
                #[trigger] after[j] != queries[i] by {
                if j < before.len() {
                    assert(before[j] == after[j]);
                } else {
                    assert(queries[i] < queries[n - 1]);
                }
            }
        } else {
            let j = choose|j: int| 0 <= j < before.len() && before[j] == queries[i];
            assert(after[j] == queries[i]);
        }
    } else {
        if complete(rows::row(distances, i, k), required) {
            if rows::increasing(queries) {
                lemma_incomplete_members(queries, distances, k, required, (n - 1) as nat);
                assert forall|j: int| 0 <= j < after.len() implies #[trigger] after[j]
                    != queries[i] by {
                    let w = choose|w: int| 0 <= w < n - 1 && queries[w] == before[j];
                    assert(queries[w] < queries[i]);
                }
            }
        } else {
            assert(after[before.len() as int] == queries[i]);
        }
    }
}

pub proof fn lemma_incomplete_members(
    queries: Seq<usize>,
    distances: Seq<u32>,
    k: nat,
    required: nat,
    n: nat,
)
    requires
        n <= queries.len(),
    ensures
        forall|i: int|
            0 <= i < incomplete_of(queries, distances, k, required, n).len() ==> exists|j: int|
                0 <= j < n && queries[j] == #[trigger] incomplete_of(
                    queries,
                    distances,
                    k,
                    required,
                    n,
                )[i],
    decreases n,
{
    if n > 0 {
        lemma_incomplete_members(queries, distances, k, required, (n - 1) as nat);
        let before = incomplete_of(queries, distances, k, required, (n - 1) as nat);
        let after = incomplete_of(queries, distances, k, required, n);
        assert forall|i: int| 0 <= i < after.len() implies exists|j: int|
            0 <= j < n && queries[j] == #[trigger] after[i] by {
            if i < before.len() {
                assert(before[i] == after[i]);
                let j = choose|j: int| 0 <= j < n - 1 && queries[j] == before[i];
                assert(queries[j] == after[i]);
            } else {
                assert(queries[n - 1] == after[i]);
            }
        }
    }
}

/// A step of a later round replaces the results of the queries it searched, and leaves the
/// results of all other queries as they are.
pub proof fn law_only_searched_results_change(
    state: BatchState,
    ids: Seq<i64>,
    distances: Seq<u32>,
    query: usize,
)
    requires
        state.wf(),
        state.phase == BatchPhase::Retry,
        ids.len() == state.part().len() * state.top_k,
        distances.len() == state.part().len() * state.top_k,
        query < state.query_count,
    ensures
        ({
            let after = state.accepted(ids, distances);
            let k = state.top_k as nat;
            &&& forall|i: int|
                0 <= i < state.part().len() && #[trigger] state.part()[i] == query ==> rows::row(
                    after.ids,
                    query as int,
                    k,
                ) == rows::row(ids, i, k) && rows::row(after.distances, query as int, k) == rows::row(
                    distances,
                    i,
                    k,
                )
            &&& !state.part().contains(query) ==> rows::row(after.ids, query as int, k) == rows::row(
                state.ids,
                query as int,
                k,
            ) && rows::row(after.distances, query as int, k) == rows::row(state.distances, query as int, k)
        }),
{
    let part = state.part();
    let count = state.query_count as nat;
    let k = state.top_k as nat;
    assert forall|i: int| 0 <= i < part.len() implies #[trigger] part[i] < count by {
        assert(part[i] == state.active[state.searched + i]);
    }
    assert forall|i: int, j: int| 0 <= i < j < part.len() implies #[trigger] part[i]
        < #[trigger] part[j] by {
        assert(part[i] == state.active[state.searched + i]);
        assert(part[j] == state.active[state.searched + j]);
    }
    rows::lemma_scattered_row(state.ids, part, ids, count, k, part.len(), query as int);
    rows::lemma_scattered_row(state.distances, part, distances, count, k, part.len(), query as int);
}

pub proof fn lemma_part_shape(state: BatchState)
    requires
        state.wf(),
        state.phase == BatchPhase::Retry,
    ensures
        rows::in_range(state.part(), state.query_count as nat),
        rows::increasing(state.part()),
{
    let part = state.part();
    assert forall|i: int| 0 <= i < part.len() implies #[trigger] part[i] < state.query_count by {
        assert(part[i] == state.active[state.searched + i]);
    }
    assert forall|i: int, j: int| 0 <= i < j < part.len() implies #[trigger] part[i]
        < #[trigger] part[j] by {
        assert(part[i] == state.active[state.searched + i]);
        assert(part[j] == state.active[state.searched + j]);
    }
}

/// The state behind a part of a later round, before the round is settled.
spec fn merged(state: BatchState, ids: Seq<i64>, distances: Seq<u32>) -> BatchState {
    let k = state.top_k as nat;
    let part = state.part();
    BatchState {
        ids: rows::scattered(state.ids, part, ids, k, part.len()),
        distances: rows::scattered(state.distances, part, distances, k, part.len()),
        searched: state.part_end() as usize,
        incomplete: state.incomplete + incomplete_of(
            part,
            distances,
            k,
            state.required_per_query as nat,
            part.len(),
        ),
        ..state
    }
}

proof fn lemma_merged_waits(state: BatchState, ids: Seq<i64>, distances: Seq<u32>, query: usize)
    requires
        state.wf(),
        state.phase == BatchPhase::Retry,
        state.accurate(),
        ids.len() == state.part().len() * state.top_k,
        distances.len() == state.part().len() * state.top_k,
        query < state.query_count,
    ensures
        merged(state, ids, distances).waits(query) <==> !merged(state, ids, distances).satisfied(
            query,
        ),
{
    let after = merged(state, ids, distances);
    let part = state.part();
    let k = state.top_k as nat;
    let required = state.required_per_query as nat;
    let fresh = incomplete_of(part, distances, k, required, part.len());
    let split = state.incomplete.len() as int;
    lemma_part_shape(state);
    rows::lemma_scattered_row(
        state.distances,
        part,
        distances,
        state.query_count as nat,
        k,
        part.len(),
        query as int,
    );
    lemma_incomplete_members(part, distances, k, required, part.len());
    assert(state.waits(query) <==> !state.satisfied(query));
    if part.contains(query) {
        let i = choose|i: int| 0 <= i < part.len() && part[i] == query;
        assert(part[i] == state.active[state.searched + i]);
        lemma_incomplete_complement(part, distances, k, required, part.len(), i);
        if after.satisfied(query) {
            if after.incomplete.contains(query) {
                let j = choose|j: int|
                    0 <= j < after.incomplete.len() && after.incomplete[j] == query;
                if j < split {
                    assert(state.incomplete[j] < state.active[state.searched + i]);
                } else {
                    assert(fresh[j - split] != query);
                }
            }
            if exists|j: int|
                after.searched <= j < after.active.len() && after.active[j] == query {
                let j = choose|j: int|
                    after.searched <= j < after.active.len() && after.active[j] == query;
                assert(state.active[state.searched + i] < state.active[j]);
            }
        } else {
            let j = choose|j: int| 0 <= j < fresh.len() && fresh[j] == query;
            assert(after.incomplete[split + j] == query);
        }
    } else {
        assert(after.satisfied(query) == state.satisfied(query));
        if state.waits(query) {
            if state.incomplete.contains(query) {
                let j = choose|j: int| 0 <= j < split && state.incomplete[j] == query;
                assert(after.incomplete[j] == query);
            } else {
                let j = choose|j: int|
                    state.searched <= j < state.active.len() && state.active[j] == query;
                if j < state.part_end() {
                    assert(part[j - state.searched] == query);
                }
                assert(after.active[j] == query);
            }
        }
        if after.waits(query) {
            if after.incomplete.contains(query) {
                let j = choose|j: int|
                    0 <= j < after.incomplete.len() && after.incomplete[j] == query;
                if j < split {
                    assert(state.incomplete[j] == query);
                } else {
                    let w = choose|w: int| 0 <= w < part.len() && part[w] == fresh[j - split];
                    assert(part[w] == query);
                }
            } else {
                let j = choose|j: int|
                    after.searched <= j < after.active.len() && after.active[j] == query;
                assert(state.active[j] == query);
            }
        }
    }
}

/// In every state of a batch search, exactly the queries that are not satisfied are still
/// to be searched, and when the search is done, every query is satisfied or there is
/// nothing left to search.
pub proof fn law_searches_go_on_where_they_must(
    state: BatchState,
    ids: Seq<i64>,
    distances: Seq<u32>,
)
    requires
        state.wf(),
        state.accurate(),
        state.next() matches Some(round) && ids.len() == round.query_count * state.top_k
            && distances.len() == round.query_count * state.top_k,
    ensures
        state.accepted(ids, distances).accurate(),
{
    let k = state.top_k as nat;
    let required = state.required_per_query as nat;
    let after = state.accepted(ids, distances);
    if state.phase == BatchPhase::First {
        let incomplete = incomplete_of(
            state.active,
            distances,
            k,
            required,
            state.active.len(),
        );
        assert forall|query: usize| query < state.query_count implies (incomplete.contains(query)
            <==> !after.satisfied(query)) by {
            lemma_incomplete_complement(
                state.active,
                distances,
                k,
                required,
                state.active.len(),
                query as int,
            );
            assert(state.active[query as int] == query);
        }
        lemma_settled(BatchState { ids, distances, ..state }, incomplete);
    } else if state.phase == BatchPhase::Retry {
        let before = merged(state, ids, distances);
        assert forall|query: usize| query < state.query_count implies (#[trigger] before.waits(
            query,
        ) <==> !before.satisfied(query)) by {
            lemma_merged_waits(state, ids, distances, query);
        }
        if state.part_end() == state.active.len() {
            assert forall|query: usize| query < state.query_count implies (
            before.incomplete.contains(query) <==> !before.satisfied(query)) by {
                assert(before.waits(query) <==> before.incomplete.contains(query));
            }
            lemma_settled(before, before.incomplete);
        }
    }
}

proof fn lemma_settled(state: BatchState, incomplete: Seq<usize>)
    requires
        forall|query: usize|
            query < state.query_count ==> (#[trigger] incomplete.contains(query)
                <==> !state.satisfied(query)),
    ensures
        state.settled(incomplete).accurate(),
{
    let after = state.settled(incomplete);
    assert forall|query: usize| query < state.query_count implies after.satisfied(query)
        == state.satisfied(query) && #[trigger] incomplete.contains(query)
        == !#[trigger] after.satisfied(query) by {
    }
    if after.phase == BatchPhase::Retry {
        assert forall|query: usize| query < state.query_count implies (#[trigger] after.waits(query)
            <==> !after.satisfied(query)) by {
            if incomplete.contains(query) {
                let j = choose|j: int| 0 <= j < incomplete.len() && incomplete[j] == query;
                assert(after.active[j] == query);
            }
            assert(incomplete.contains(query) == after.waits(query));
        }
    } else if incomplete.len() == 0 {
        assert forall|query: usize| query < state.query_count implies #[trigger] after.satisfied(
            query,
        ) by {
            assert(!incomplete.contains(query));
        }
    }
}

} // verus!
