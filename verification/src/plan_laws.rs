//! What holds of the searches that a reader plans, from the plan to the last result.
use vstd::prelude::*;
use crate::batch_laws;
use crate::error::ErrorView;
use crate::filter;
use crate::filter::{RoaringFilter, RowIdFilter};
use crate::flat_search;
use crate::ivf_search;
use crate::ivf_search::ScannedList;
use crate::progressive;
use crate::progressive::{BatchPhase, BatchState, ProgressiveSearch};
use crate::range_laws;
use crate::range_laws::{FlatRound, SqRound, Stored};
use crate::reader;
use crate::reader::{PlanView, VectorIndexMetadata};
use crate::round_laws;
use crate::search_laws;
use crate::rows;
use crate::search_params;
use crate::search_params::{SearchWidth, VectorSearchParams};
use crate::sq_search;
use crate::top_k;

verus! {

/// A round of a search for one query: what was read for it and its result.
pub struct SearchRound {
    pub scanned: Seq<ScannedList>,
    pub ends: Seq<usize>,
    pub result: (Vec<i64>, Vec<u32>),
}

/// Whether the rounds of a batch search of an IVF-FLAT index were carried out as the search
/// asked for them, up to its end.
pub open spec fn flat_batch_ran<F: RowIdFilter>(
    states: Seq<BatchState>,
    rounds: Seq<FlatRound>,
    stored: Stored,
    filter: Option<&F>,
    d: nat,
) -> bool {
    &&& states.len() == rounds.len() + 1
    &&& forall|i: int| 0 <= i < rounds.len() ==> flat_step(
        states[i],
        #[trigger] rounds[i],
        states[i + 1],
        stored,
        filter,
        d,
    )
    &&& states.last().phase == BatchPhase::Done
}

/// Whether a round of an IVF-FLAT index leads from one state of a batch search to the next.
pub open spec fn flat_step<F: RowIdFilter>(
    state: BatchState,
    round: FlatRound,
    after: BatchState,
    stored: Stored,
    filter: Option<&F>,
    d: nat,
) -> bool {
    &&& state.next() matches Some(next) && round.searched(
        stored,
        filter,
        round_laws::members(state),
        next.probe_start,
        next.probe_end,
        state.top_k as nat,
        d,
    ) && round.seed_ids == next.seed_ids && round.seed_distances == next.seed_distances
    &&& after == state.accepted(round.result.0@, round.result.1@)
}

/// Whether the rounds of a batch search of an IVF-SQ index were carried out as the search
/// asked for them, up to its end.
pub open spec fn sq_batch_ran<F: RowIdFilter>(
    states: Seq<BatchState>,
    rounds: Seq<SqRound>,
    stored: Stored,
    filter: Option<&F>,
) -> bool {
    &&& states.len() == rounds.len() + 1
    &&& forall|i: int| 0 <= i < rounds.len() ==> sq_step(
        states[i],
        #[trigger] rounds[i],
        states[i + 1],
        stored,
        filter,
    )
    &&& states.last().phase == BatchPhase::Done
}

/// Whether a round of an IVF-SQ index leads from one state of a batch search to the next.
pub open spec fn sq_step<F: RowIdFilter>(
    state: BatchState,
    round: SqRound,
    after: BatchState,
    stored: Stored,
    filter: Option<&F>,
) -> bool {
    &&& state.next() matches Some(next) && round.searched(
        stored,
        filter,
        round_laws::members(state),
        next.probe_start,
        next.probe_end,
        state.top_k as nat,
    ) && round.seed_ids == next.seed_ids && round.seed_distances == next.seed_distances
    &&& after == state.accepted(round.result.0@, round.result.1@)
}

/// The results of the rounds of a batch search of an IVF-FLAT index.
pub open spec fn flat_results(rounds: Seq<FlatRound>) -> Seq<(Seq<i64>, Seq<u32>)> {
    Seq::new(rounds.len(), |i: int| (rounds[i].result.0@, rounds[i].result.1@))
}

/// The results of the rounds of a batch search of an IVF-SQ index.
pub open spec fn sq_results(rounds: Seq<SqRound>) -> Seq<(Seq<i64>, Seq<u32>)> {
    Seq::new(rounds.len(), |i: int| (rounds[i].result.0@, rounds[i].result.1@))
}

/// The results of the rounds of a search for one query.
pub open spec fn search_results(rounds: Seq<SearchRound>) -> Seq<(Seq<i64>, Seq<u32>)> {
    Seq::new(rounds.len(), |i: int| (rounds[i].result.0@, rounds[i].result.1@))
}

proof fn lemma_flat_answered<F: RowIdFilter>(
    states: Seq<BatchState>,
    rounds: Seq<FlatRound>,
    stored: Stored,
    filter: Option<&F>,
    d: nat,
    n: int,
)
    requires
        round_laws::countable(stored, filter, states[0].automatic),
        round_laws::batch_starts(states[0], stored),
        flat_batch_ran(states, rounds, stored, filter, d),
        0 <= n <= rounds.len(),
    ensures
        round_laws::reached(states[n], stored, filter, states[0].probe_end),
        states[n].automatic == states[0].automatic,
        n < rounds.len() ==> round_laws::answered(
            states[n],
            stored,
            filter,
            rounds[n].result.0@,
            rounds[n].result.1@,
        ),
    decreases n,
{
    let first = states[0].probe_end;
    if n > 0 {
        lemma_flat_answered(states, rounds, stored, filter, d, n - 1);
        let round = rounds[n - 1];
        assert(flat_step(states[n - 1], round, states[n], stored, filter, d));
        round_laws::lemma_round_reached(
            states[n - 1],
            stored,
            filter,
            first,
            round.result.0@,
            round.result.1@,
        );
    }
    if n < rounds.len() {
        let round = rounds[n];
        assert(flat_step(states[n], round, states[n + 1], stored, filter, d));
        round_laws::lemma_round_seeds(states[n], stored, filter, first);
        let next = states[n].next()->0;
        range_laws::law_flat_rounds_answer(
            round,
            stored,
            filter,
            round_laws::members(states[n]),
            next.probe_start,
            next.probe_end,
            states[n].top_k as nat,
            d,
        );
    }
}

/// Every round of a batch search of an IVF-FLAT index that is carried out as asked is
/// answered.
pub proof fn law_flat_batches_are_answered<F: RowIdFilter>(
    states: Seq<BatchState>,
    rounds: Seq<FlatRound>,
    stored: Stored,
    filter: Option<&F>,
    d: nat,
)
    requires
        round_laws::countable(stored, filter, states[0].automatic),
        round_laws::batch_starts(states[0], stored),
        flat_batch_ran(states, rounds, stored, filter, d),
    ensures
        round_laws::batch_ran(states, flat_results(rounds), stored, filter),
{
    let results = flat_results(rounds);
    assert forall|i: int| 0 <= i < results.len() implies {
        let (ids, distances) = #[trigger] results[i];
        &&& round_laws::answered(states[i], stored, filter, ids, distances)
        &&& states[i + 1] == states[i].accepted(ids, distances)
    } by {
        assert(flat_step(states[i], rounds[i], states[i + 1], stored, filter, d));
        lemma_flat_answered(states, rounds, stored, filter, d, i);
    }
}

proof fn lemma_sq_answered<F: RowIdFilter>(
    states: Seq<BatchState>,
    rounds: Seq<SqRound>,
    stored: Stored,
    filter: Option<&F>,
    n: int,
)
    requires
        round_laws::countable(stored, filter, states[0].automatic),
        round_laws::batch_starts(states[0], stored),
        sq_batch_ran(states, rounds, stored, filter),
        0 <= n <= rounds.len(),
    ensures
        round_laws::reached(states[n], stored, filter, states[0].probe_end),
        states[n].automatic == states[0].automatic,
        n < rounds.len() ==> round_laws::answered(
            states[n],
            stored,
            filter,
            rounds[n].result.0@,
            rounds[n].result.1@,
        ),
    decreases n,
{
    let first = states[0].probe_end;
    if n > 0 {
        lemma_sq_answered(states, rounds, stored, filter, n - 1);
        let round = rounds[n - 1];
        assert(sq_step(states[n - 1], round, states[n], stored, filter));
        round_laws::lemma_round_reached(
            states[n - 1],
            stored,
            filter,
            first,
            round.result.0@,
            round.result.1@,
        );
    }
    if n < rounds.len() {
        let round = rounds[n];
        assert(sq_step(states[n], round, states[n + 1], stored, filter));
        round_laws::lemma_round_seeds(states[n], stored, filter, first);
        let next = states[n].next()->0;
        range_laws::law_sq_rounds_answer(
            round,
            stored,
            filter,
            round_laws::members(states[n]),
            next.probe_start,
            next.probe_end,
            states[n].top_k as nat,
        );
    }
}

/// Every round of a batch search of an IVF-SQ index that is carried out as asked is answered.
pub proof fn law_sq_batches_are_answered<F: RowIdFilter>(
    states: Seq<BatchState>,
    rounds: Seq<SqRound>,
    stored: Stored,
    filter: Option<&F>,
)
    requires
        round_laws::countable(stored, filter, states[0].automatic),
        round_laws::batch_starts(states[0], stored),
        sq_batch_ran(states, rounds, stored, filter),
    ensures
        round_laws::batch_ran(states, sq_results(rounds), stored, filter),
{
    let results = sq_results(rounds);
    assert forall|i: int| 0 <= i < results.len() implies {
        let (ids, distances) = #[trigger] results[i];
        &&& round_laws::answered(states[i], stored, filter, ids, distances)
        &&& states[i + 1] == states[i].accepted(ids, distances)
    } by {
        assert(sq_step(states[i], rounds[i], states[i + 1], stored, filter));
        lemma_sq_answered(states, rounds, stored, filter, i);
    }
}

/// Whether a search for one query goes on behind a round as it does: it ends with the last
/// round, and is wider in each one before.
pub open spec fn search_goes(
    searches: Seq<ProgressiveSearch>,
    rounds: Seq<SearchRound>,
    i: int,
) -> bool {
    &&& searches[i].ends_with(rounds[i].result.1@) == (i == rounds.len() - 1)
    &&& i < rounds.len() - 1 ==> searches[i + 1] == (ProgressiveSearch {
        nprobe: progressive::widened(searches[i].nprobe, searches[i].nlist),
        ..searches[i]
    })
}

/// Whether a round read what the index has for a query.
pub open spec fn round_reads(stored: Stored, query: int, search: ProgressiveSearch, round: SearchRound) -> bool {
    &&& range_laws::reads_stored(stored, query, search.nprobe as nat, round.scanned)
    &&& ivf_search::batches_cover(round.ends, round.scanned.len())
}

/// Whether the rounds of a search of an IVF-FLAT index for one query were carried out as the
/// search asked for them, up to its end.
pub open spec fn flat_search_ran<F: RowIdFilter>(
    searches: Seq<ProgressiveSearch>,
    rounds: Seq<SearchRound>,
    stored: Stored,
    filter: Option<&F>,
    query: int,
    d: nat,
) -> bool {
    &&& searches.len() == rounds.len()
    &&& searches.len() > 0
    &&& forall|i: int|
        0 <= i < rounds.len() ==> {
            &&& search_goes(searches, rounds, i)
            &&& round_reads(stored, query, searches[i], #[trigger] rounds[i])
            &&& flat_search::found_in_lists(
                rounds[i].result,
                rounds[i].scanned,
                rounds[i].ends,
                filter,
                searches[i].top_k as nat,
                d,
            )
        }
}

/// Whether the rounds of a search of an IVF-SQ index for one query were carried out as the
/// search asked for them, up to its end.
pub open spec fn sq_search_ran<F: RowIdFilter>(
    searches: Seq<ProgressiveSearch>,
    rounds: Seq<SearchRound>,
    stored: Stored,
    filter: Option<&F>,
    query: int,
) -> bool {
    &&& searches.len() == rounds.len()
    &&& searches.len() > 0
    &&& forall|i: int|
        0 <= i < rounds.len() ==> {
            &&& search_goes(searches, rounds, i)
            &&& round_reads(stored, query, searches[i], #[trigger] rounds[i])
            &&& sq_search::found_in_lists(
                rounds[i].result,
                Seq::empty(),
                Seq::empty(),
                rounds[i].scanned,
                rounds[i].ends,
                filter,
                searches[i].top_k as nat,
            )
        }
}

proof fn lemma_widths_are_in_range(
    searches: Seq<ProgressiveSearch>,
    rounds: Seq<SearchRound>,
    stored: Stored,
    n: int,
)
    requires
        searches.len() == rounds.len(),
        forall|i: int| 0 <= i < rounds.len() ==> #[trigger] search_goes(searches, rounds, i),
        round_laws::search_starts(searches[0], stored),
        0 <= n < searches.len(),
    ensures
        round_laws::search_starts(searches[n], stored),
    decreases n,
{
    if n > 0 {
        lemma_widths_are_in_range(searches, rounds, stored, n - 1);
        assert(search_goes(searches, rounds, n - 1));
        progressive::law_rounds_widen(searches[n - 1], rounds[n - 1].result.1@);
    }
}

/// Every round of a search of an IVF-FLAT index for one query that is carried out as asked
/// has the nearest rows of its lists for a result.
pub proof fn law_flat_rounds_hold_the_nearest<F: RowIdFilter>(
    searches: Seq<ProgressiveSearch>,
    rounds: Seq<SearchRound>,
    stored: Stored,
    filter: Option<&F>,
    query: int,
    d: nat,
)
    requires
        stored.wf(filter),
        0 <= query < stored.orders.len(),
        round_laws::search_starts(searches[0], stored),
        flat_search_ran(searches, rounds, stored, filter, query, d),
    ensures
        round_laws::search_ran(searches, search_results(rounds), stored, filter, query),
{
    let results = search_results(rounds);
    assert forall|i: int| 0 <= i < rounds.len() implies #[trigger] search_goes(searches, rounds, i) by {
        assert(round_reads(stored, query, searches[i], rounds[i]));
    }
    assert forall|i: int| 0 <= i < results.len() implies {
        let (ids, distances) = #[trigger] results[i];
        let search = searches[i];
        &&& range_laws::stands_for(
            ids,
            distances,
            stored.rows(filter, query, 0, search.nprobe as nat),
            search.top_k as nat,
        )
        &&& search.ends_with(distances) == (i == results.len() - 1)
        &&& i < results.len() - 1 ==> searches[i + 1] == (ProgressiveSearch {
            nprobe: progressive::widened(search.nprobe, search.nlist),
            ..search
        })
    } by {
        assert(round_reads(stored, query, searches[i], rounds[i]));
        lemma_widths_are_in_range(searches, rounds, stored, i);
        range_laws::law_flat_searches_answer(
            stored,
            filter,
            query,
            searches[i].nprobe as nat,
            rounds[i].scanned,
            rounds[i].ends,
            rounds[i].result,
            searches[i].top_k as nat,
            d,
        );
    }
}

/// Every round of a search of an IVF-SQ index for one query that is carried out as asked has
/// the nearest rows of its lists for a result.
pub proof fn law_sq_rounds_hold_the_nearest<F: RowIdFilter>(
    searches: Seq<ProgressiveSearch>,
    rounds: Seq<SearchRound>,
    stored: Stored,
    filter: Option<&F>,
    query: int,
)
    requires
        stored.wf(filter),
        0 <= query < stored.orders.len(),
        round_laws::search_starts(searches[0], stored),
        sq_search_ran(searches, rounds, stored, filter, query),
    ensures
        round_laws::search_ran(searches, search_results(rounds), stored, filter, query),
{
    let results = search_results(rounds);
    assert forall|i: int| 0 <= i < rounds.len() implies #[trigger] search_goes(searches, rounds, i) by {
        assert(round_reads(stored, query, searches[i], rounds[i]));
    }
    assert forall|i: int| 0 <= i < results.len() implies {
        let (ids, distances) = #[trigger] results[i];
        let search = searches[i];
        &&& range_laws::stands_for(
            ids,
            distances,
            stored.rows(filter, query, 0, search.nprobe as nat),
            search.top_k as nat,
        )
        &&& search.ends_with(distances) == (i == results.len() - 1)
        &&& i < results.len() - 1 ==> searches[i + 1] == (ProgressiveSearch {
            nprobe: progressive::widened(search.nprobe, search.nlist),
            ..search
        })
    } by {
        assert(round_reads(stored, query, searches[i], rounds[i]));
        lemma_widths_are_in_range(searches, rounds, stored, i);
        range_laws::law_sq_searches_answer(
            stored,
            filter,
            query,
            searches[i].nprobe as nat,
            rounds[i].scanned,
            rounds[i].ends,
            rounds[i].result,
            searches[i].top_k as nat,
        );
    }
}

/// Whether the rows and orders of an index belong to what is known of it and to a batch.
pub open spec fn stored_for(stored: Stored, metadata: VectorIndexMetadata, query_count: usize) -> bool {
    &&& metadata.nlist > 0
    &&& stored.lists.len() == metadata.nlist
    &&& stored.orders.len() == query_count
}

/// A plan of a batch starts at a state that is sound for the index.
proof fn lemma_batch_plan_starts(
    metadata: VectorIndexMetadata,
    calibrated: Option<usize>,
    queries: Seq<u32>,
    query_count: usize,
    params: VectorSearchParams,
    matching: Option<usize>,
    stored: Stored,
    state: BatchState,
)
    requires
        stored_for(stored, metadata, query_count),
        reader::checked_batch(metadata, queries, query_count, params) is Ok,
        reader::batch_plan(metadata, calibrated, queries, query_count, params, matching) == Ok::<
            PlanView,
            ErrorView,
        >(PlanView::Batch(state)),
    ensures
        round_laws::batch_starts(state, stored),
{
    let count = reader::vector_count(metadata.total_vectors)->Ok_0;
    search_params::law_nprobe_is_in_range(params, metadata.nlist, count, matching);
    let dimension = metadata.dimension as int;
    assert(query_count * dimension == dimension * query_count) by (nonlinear_arith);
    vstd::arithmetic::div_mod::lemma_div_multiples_vanish(dimension, query_count as int);
    assert(state.dimension == dimension);
}

proof fn lemma_single_plan_starts(
    metadata: VectorIndexMetadata,
    calibrated: Option<usize>,
    params: VectorSearchParams,
    matching: Option<usize>,
    query_count: usize,
    stored: Stored,
    search: ProgressiveSearch,
)
    requires
        stored_for(stored, metadata, query_count),
        search_params::checked_params(params) is Ok,
        reader::single_plan(metadata, calibrated, params, matching) == Ok::<PlanView, ErrorView>(
            PlanView::Progressive(search),
        ),
    ensures
        round_laws::search_starts(search, stored),
{
    let count = reader::vector_count(metadata.total_vectors)->Ok_0;
    search_params::law_nprobe_is_in_range(params, metadata.nlist, count, matching);
}

/// A batch that a reader plans ends for each query with the distances that the search that
/// it plans for that query alone ends with, whatever rounds each of them goes through.
pub proof fn law_planned_batches_match_single_searches<F: RowIdFilter>(
    metadata: VectorIndexMetadata,
    calibrated: Option<usize>,
    queries: Seq<u32>,
    query_count: usize,
    params: VectorSearchParams,
    matching: Option<usize>,
    stored: Stored,
    filter: Option<&F>,
    states: Seq<BatchState>,
    results: Seq<(Seq<i64>, Seq<u32>)>,
    searches: Seq<ProgressiveSearch>,
    own_results: Seq<(Seq<i64>, Seq<u32>)>,
    query: int,
)
    requires
        round_laws::countable(stored, filter, params.search_width == SearchWidth::Auto),
        stored_for(stored, metadata, query_count),
        reader::checked_batch(metadata, queries, query_count, params) is Ok,
        reader::batch_plan(metadata, calibrated, queries, query_count, params, matching) == Ok::<
            PlanView,
            ErrorView,
        >(PlanView::Batch(states[0])),
        reader::single_plan(metadata, calibrated, params, matching) == Ok::<PlanView, ErrorView>(
            PlanView::Progressive(searches[0]),
        ),
        round_laws::batch_ran(states, results, stored, filter),
        round_laws::search_ran(searches, own_results, stored, filter, query),
        0 <= query < query_count,
    ensures
        states.last().distances.len() == query_count * params.top_k,
        search_laws::places_agree(
            rows::row(states.last().distances, query, params.top_k as nat),
            own_results.last().1,
            params.top_k as nat,
        ),
{
    lemma_batch_plan_starts(
        metadata,
        calibrated,
        queries,
        query_count,
        params,
        matching,
        stored,
        states[0],
    );
    lemma_single_plan_starts(
        metadata,
        calibrated,
        params,
        matching,
        query_count,
        stored,
        searches[0],
    );
    let k = params.top_k as nat;
    round_laws::law_batch_searches_hold_the_nearest(states, results, stored, filter, query);
    round_laws::law_searches_hold_the_nearest(searches, own_results, stored, filter, query);
    assert(round_laws::terms_of(states[0]) == round_laws::single_terms(searches[0]));
    let last = states.last();
    range_laws::lemma_nearest_are_found(
        own_results.last().0,
        own_results.last().1,
        stored.rows(
            filter,
            query,
            0,
            round_laws::last_width(
                stored,
                filter,
                round_laws::terms_of(states[0]),
                query,
                states[0].probe_end,
            ) as nat,
        ),
        k,
    );
    range_laws::law_results_of_the_same_rows_agree(
        rows::row(last.ids, query, k),
        rows::row(last.distances, query, k),
        own_results.last().0,
        own_results.last().1,
        stored.rows(
            filter,
            query,
            0,
            round_laws::last_width(
                stored,
                filter,
                round_laws::terms_of(states[0]),
                query,
                states[0].probe_end,
            ) as nat,
        ),
        k,
    );
}

/// A batch search of an IVF-FLAT index that a reader plans, with every round carried out by
/// [`flat_search::search_batch_ivfflat_reader_filter_range`], ends for each query with the
/// distances of the search for that query alone.
pub proof fn law_flat_reader_batches_match_single_searches<F: RowIdFilter>(
    metadata: VectorIndexMetadata,
    queries: Seq<u32>,
    query_count: usize,
    params: VectorSearchParams,
    matching: Option<usize>,
    stored: Stored,
    filter: Option<&F>,
    states: Seq<BatchState>,
    rounds: Seq<FlatRound>,
    searches: Seq<ProgressiveSearch>,
    own_rounds: Seq<SearchRound>,
    query: int,
)
    requires
        round_laws::countable(stored, filter, params.search_width == SearchWidth::Auto),
        stored_for(stored, metadata, query_count),
        reader::checked_batch(metadata, queries, query_count, params) is Ok,
        reader::batch_plan(metadata, None, queries, query_count, params, matching) == Ok::<
            PlanView,
            ErrorView,
        >(PlanView::Batch(states[0])),
        reader::single_plan(metadata, None, params, matching) == Ok::<PlanView, ErrorView>(
            PlanView::Progressive(searches[0]),
        ),
        flat_batch_ran(states, rounds, stored, filter, metadata.dimension as nat),
        flat_search_ran(
            searches,
            own_rounds,
            stored,
            filter,
            query,
            metadata.dimension as nat,
        ),
        0 <= query < query_count,
    ensures
        search_laws::places_agree(
            rows::row(states.last().distances, query, params.top_k as nat),
            own_rounds.last().result.1@,
            params.top_k as nat,
        ),
{
    let d = metadata.dimension as nat;
    lemma_batch_plan_starts(
        metadata,
        None,
        queries,
        query_count,
        params,
        matching,
        stored,
        states[0],
    );
    lemma_single_plan_starts(metadata, None, params, matching, query_count, stored, searches[0]);
    law_flat_batches_are_answered(states, rounds, stored, filter, d);
    law_flat_rounds_hold_the_nearest(searches, own_rounds, stored, filter, query, d);
    law_planned_batches_match_single_searches(
        metadata,
        None,
        queries,
        query_count,
        params,
        matching,
        stored,
        filter,
        states,
        flat_results(rounds),
        searches,
        search_results(own_rounds),
        query,
    );
}

/// A batch search of an IVF-SQ index that a reader plans, with every round carried out by
/// [`sq_search::search_batch_ivfsq_reader_filter_range`], ends for each query with the
/// distances of the search for that query alone.
pub proof fn law_sq_reader_batches_match_single_searches<F: RowIdFilter>(
    metadata: VectorIndexMetadata,
    queries: Seq<u32>,
    query_count: usize,
    params: VectorSearchParams,
    matching: Option<usize>,
    stored: Stored,
    filter: Option<&F>,
    states: Seq<BatchState>,
    rounds: Seq<SqRound>,
    searches: Seq<ProgressiveSearch>,
    own_rounds: Seq<SearchRound>,
    query: int,
)
    requires
        round_laws::countable(stored, filter, params.search_width == SearchWidth::Auto),
        stored_for(stored, metadata, query_count),
        reader::checked_batch(metadata, queries, query_count, params) is Ok,
        reader::batch_plan(metadata, None, queries, query_count, params, matching) == Ok::<
            PlanView,
            ErrorView,
        >(PlanView::Batch(states[0])),
        reader::single_plan(metadata, None, params, matching) == Ok::<PlanView, ErrorView>(
            PlanView::Progressive(searches[0]),
        ),
        sq_batch_ran(states, rounds, stored, filter),
        sq_search_ran(searches, own_rounds, stored, filter, query),
        0 <= query < query_count,
    ensures
        search_laws::places_agree(
            rows::row(states.last().distances, query, params.top_k as nat),
            own_rounds.last().result.1@,
            params.top_k as nat,
        ),
{
    lemma_batch_plan_starts(
        metadata,
        None,
        queries,
        query_count,
        params,
        matching,
        stored,
        states[0],
    );
    lemma_single_plan_starts(metadata, None, params, matching, query_count, stored, searches[0]);
    law_sq_batches_are_answered(states, rounds, stored, filter);
    law_sq_rounds_hold_the_nearest(searches, own_rounds, stored, filter, query);
    law_planned_batches_match_single_searches(
        metadata,
        None,
        queries,
        query_count,
        params,
        matching,
        stored,
        filter,
        states,
        sq_results(rounds),
        searches,
        search_results(own_rounds),
        query,
    );
}

/// Whether no identifier occurs twice in an index.
pub open spec fn ids_differ(stored: Stored) -> bool {
    &&& forall|list: int|
        0 <= list < stored.lists.len() ==> (#[trigger] stored.lists[list]).ids@.no_duplicates()
    &&& forall|a: int, b: int, id: i64|
        0 <= a < stored.lists.len() && 0 <= b < stored.lists.len() && #[trigger] stored.lists[a].ids@.contains(
            id,
        ) && #[trigger] stored.lists[b].ids@.contains(id) ==> a == b
}

/// The identifiers of entries.
pub open spec fn ids_of(entries: Seq<(u32, i64)>) -> Seq<i64> {
    Seq::new(entries.len(), |i: int| entries[i].1)
}

proof fn lemma_passing_ids<F: RowIdFilter>(filter: Option<&F>, ids: Seq<i64>, distances: Seq<u32>)
    requires
        ids.no_duplicates(),
    ensures
        ids_of(top_k::passing(filter, ids, distances)).no_duplicates(),
        forall|i: int|
            0 <= i < top_k::passing(filter, ids, distances).len() ==> {
                let id = #[trigger] ids_of(top_k::passing(filter, ids, distances))[i];
                ids.contains(id) && filter::passes(filter, id)
            },
    decreases ids.len(),
{
    if ids.len() > 0 {
        let rest = ids.drop_last();
        lemma_passing_ids(filter, rest, distances);
        let before = ids_of(top_k::passing(filter, rest, distances));
        let after = ids_of(top_k::passing(filter, ids, distances));
        assert forall|i: int| 0 <= i < after.len() implies {
            let id = #[trigger] after[i];
            ids.contains(id) && filter::passes(filter, id)
        } by {
            if i < before.len() {
                assert(after[i] == before[i]);
                let j = choose|j: int| 0 <= j < rest.len() && rest[j] == before[i];
                assert(ids[j] == after[i]);
            } else {
                assert(ids[ids.len() - 1] == after[i]);
            }
        }
        assert forall|i: int, j: int| 0 <= i < j < after.len() implies after[i] != after[j] by {
            assert(after[i] == before[i]);
            if j < before.len() {
                assert(after[j] == before[j]);
            } else {
                assert(rest.contains(before[i]));
                let p = choose|p: int| 0 <= p < rest.len() && rest[p] == before[i];
                assert(ids[p] == before[i]);
                assert(after[j] == ids[ids.len() - 1]);
            }
        }
    }
}

proof fn lemma_stored_ids<F: RowIdFilter>(
    stored: Stored,
    filter: Option<&F>,
    query: int,
    n: nat,
)
    requires
        stored.ordered(),
        ids_differ(stored),
        0 <= query < stored.orders.len(),
        n <= stored.lists.len(),
    ensures
        ids_of(stored.rows(filter, query, 0, n)).no_duplicates(),
        forall|i: int|
            0 <= i < stored.rows(filter, query, 0, n).len() ==> {
                let id = #[trigger] ids_of(stored.rows(filter, query, 0, n))[i];
                &&& filter::passes(filter, id)
                &&& exists|p: int|
                    0 <= p < n && stored.lists[#[trigger] stored.orders[query][p] as int].ids@.contains(
                        id,
                    )
            },
    decreases n,
{
    let order = stored.orders[query];
    let after = ids_of(stored.rows(filter, query, 0, n));
    if n > 0 {
        let m = (n - 1) as nat;
        lemma_stored_ids(stored, filter, query, m);
        range_laws::law_ranges_split(stored, filter, query, 0, m, n);
        let list = order[n - 1] as int;
        assert(order.no_duplicates() && order.len() == stored.lists.len());
        assert(order[n - 1] < stored.lists.len());
        let reading = stored.readings(query, m, n);
        let fresh_rows = top_k::passing(
            filter,
            stored.lists[list].ids@,
            stored.lists[list].distances@[query]@,
        );
        assert(reading[0].ids == stored.lists[list].ids);
        assert(stored.rows(filter, query, m, n) =~= fresh_rows) by {
            reveal_with_fuel(batch_laws::scanned_entries, 2);
        }
        assert(stored.lists[list].ids@.no_duplicates());
        lemma_passing_ids(
            filter,
            stored.lists[list].ids@,
            stored.lists[list].distances@[query]@,
        );
        let before = ids_of(stored.rows(filter, query, 0, m));
        let fresh = ids_of(fresh_rows);
        assert(after =~= before + fresh);
        assert forall|i: int| 0 <= i < after.len() implies {
            let id = #[trigger] after[i];
            &&& filter::passes(filter, id)
            &&& exists|p: int|
                0 <= p < n && stored.lists[#[trigger] stored.orders[query][p] as int].ids@.contains(
                    id,
                )
        } by {
            if i < before.len() {
                let id = before[i];
                let p = choose|p: int|
                    0 <= p < m && stored.lists[#[trigger] stored.orders[query][p] as int].ids@.contains(
                        id,
                    );
                assert(after[i] == id);
                assert(stored.lists[stored.orders[query][p] as int].ids@.contains(after[i]));
            } else {
                assert(after[i] == fresh[i - before.len()]);
                assert(stored.lists[stored.orders[query][n - 1] as int].ids@.contains(after[i]));
            }
        }
        assert forall|i: int, j: int| 0 <= i < j < after.len() implies after[i] != after[j] by {
            if j < before.len() {
                assert(after[i] == before[i] && after[j] == before[j]);
            } else if i >= before.len() {
                assert(after[i] == fresh[i - before.len()]);
                assert(after[j] == fresh[j - before.len()]);
            } else {
                let id = before[i];
                assert(after[i] == id && after[j] == fresh[j - before.len()]);
                let p = choose|p: int|
                    0 <= p < m && stored.lists[#[trigger] stored.orders[query][p] as int].ids@.contains(
                        id,
                    );
                let other = order[p] as int;
                assert(order[p] < stored.lists.len());
                if after[i] == after[j] {
                    assert(stored.lists[other].ids@.contains(id));
                    assert(stored.lists[list].ids@.contains(id));
                    assert(other == list);
                    assert(order[p] == order[n - 1]);
                }
            }
        }
    } else {
        assert(after.len() == 0);
    }
}

proof fn lemma_values_are_finite(values: Set<u64>)
    ensures
        values.finite(),
{
    let all = vstd::set_lib::set_int_range(0, 0x1_0000_0000_0000_0000);
    let as_value = |i: int| i as u64;
    vstd::set_lib::lemma_int_range(0, 0x1_0000_0000_0000_0000);
    all.lemma_map_finite(as_value);
    assert(values.subset_of(all.map(as_value))) by {
        assert forall|value: u64| values.contains(value) implies #[trigger] all.map(
            as_value,
        ).contains(value) by {
            assert(all.contains(value as int));
            assert(as_value(value as int) == value);
        }
    }
    vstd::set_lib::lemma_len_subset(values, all.map(as_value));
}

/// An index whose identifiers differ has no more rows that a bitmap admits than the bitmap
/// has values.
pub proof fn law_bitmaps_admit_no_more_rows_than_values(
    stored: Stored,
    filter: &RoaringFilter,
    query: int,
)
    requires
        stored.ordered(),
        ids_differ(stored),
        0 <= query < stored.orders.len(),
    ensures
        stored.rows(Some(filter), query, 0, stored.lists.len()).len() <= filter.values().len(),
{
    let found = stored.rows(Some(filter), query, 0, stored.lists.len());
    let ids = ids_of(found);
    let values = Seq::new(ids.len(), |i: int| ids[i] as u64);
    lemma_stored_ids(stored, Some(filter), query, stored.lists.len());
    assert forall|i: int| 0 <= i < ids.len() implies ids[i] >= 0 && filter.values().contains(
        #[trigger] values[i],
    ) by {
        assert(filter::passes(Some(filter), ids[i]));
    }
    assert forall|i: int, j: int| 0 <= i < j < values.len() implies values[i] != values[j] by {
        assert(ids[i] != ids[j]);
        assert(filter.values().contains(values[i]) && filter.values().contains(values[j]));
    }
    values.unique_seq_to_set();
    lemma_values_are_finite(filter.values());
    assert(values.to_set().subset_of(filter.values())) by {
        assert forall|value: u64| values.to_set().contains(value) implies filter.values().contains(
            value,
        ) by {
            let i = choose|i: int| 0 <= i < values.len() && values[i] == value;
            assert(filter.values().contains(values[i]));
        }
    }
    vstd::set_lib::lemma_len_subset(values.to_set(), filter.values());
}

/// An automatic search finds `top_k` rows of a query, or all rows that count, or as many as it
/// was told there are. It finds no row that is not there. A row at the largest distance does
/// not count, since a place with that distance is like an empty one.
pub proof fn law_automatic_searches_find_what_is_required<F: RowIdFilter>(
    metadata: VectorIndexMetadata,
    calibrated: Option<usize>,
    queries: Seq<u32>,
    query_count: usize,
    params: VectorSearchParams,
    matching: Option<usize>,
    stored: Stored,
    filter: Option<&F>,
    states: Seq<BatchState>,
    results: Seq<(Seq<i64>, Seq<u32>)>,
    query: int,
)
    requires
        params.search_width == SearchWidth::Auto,
        stored.wf(filter),
        stored.tells(filter),
        stored_for(stored, metadata, query_count),
        reader::checked_batch(metadata, queries, query_count, params) is Ok,
        reader::batch_plan(metadata, calibrated, queries, query_count, params, matching) == Ok::<
            PlanView,
            ErrorView,
        >(PlanView::Batch(states[0])),
        round_laws::batch_ran(states, results, stored, filter),
        0 <= query < query_count,
    ensures
        ({
            let found = progressive::found(
                rows::row(states.last().distances, query, params.top_k as nat),
            );
            let stored_rows = search_laws::counted(
                stored.rows(filter, query, 0, metadata.nlist as nat),
            ).len();
            let told = match matching {
                Some(matching) => matching as int,
                None => metadata.total_vectors as int,
            };
            &&& found >= params.top_k || found >= stored_rows || found >= told
            &&& found <= params.top_k && found <= stored_rows
        }),
{
    lemma_batch_plan_starts(
        metadata,
        calibrated,
        queries,
        query_count,
        params,
        matching,
        stored,
        states[0],
    );
    let k = params.top_k as nat;
    let last = states.last();
    let terms = round_laws::terms_of(states[0]);
    let width = round_laws::last_width(stored, filter, terms, query, states[0].probe_end) as nat;
    round_laws::law_batch_searches_hold_the_nearest(states, results, stored, filter, query);
    round_laws::lemma_last_width(stored, filter, terms, query, states[0].probe_end);
    range_laws::lemma_rows_tell(stored, filter, query, width);
    range_laws::law_results_are_as_full_as_they_can_be(
        rows::row(last.ids, query, k),
        rows::row(last.distances, query, k),
        stored.rows(filter, query, 0, width),
        k,
    );
    range_laws::law_ranges_split(stored, filter, query, 0, width, metadata.nlist as nat);
    search_laws::lemma_counted_concat(
        stored.rows(filter, query, 0, width),
        stored.rows(filter, query, width, metadata.nlist as nat),
    );
}

/// An automatic search leaves a place of a query without a row only if it has found every
/// row that counts: where it has fewer than `top_k` rows, it has as many as all lists have
/// together. The number of rows that the search was told there are must not be less than
/// that.
pub proof fn law_automatic_searches_are_exhaustive<F: RowIdFilter>(
    metadata: VectorIndexMetadata,
    calibrated: Option<usize>,
    queries: Seq<u32>,
    query_count: usize,
    params: VectorSearchParams,
    matching: Option<usize>,
    stored: Stored,
    filter: Option<&F>,
    states: Seq<BatchState>,
    results: Seq<(Seq<i64>, Seq<u32>)>,
    query: int,
)
    requires
        params.search_width == SearchWidth::Auto,
        stored.wf(filter),
        stored.tells(filter),
        stored_for(stored, metadata, query_count),
        reader::checked_batch(metadata, queries, query_count, params) is Ok,
        reader::batch_plan(metadata, calibrated, queries, query_count, params, matching) == Ok::<
            PlanView,
            ErrorView,
        >(PlanView::Batch(states[0])),
        search_laws::counted(
            stored.rows(filter, query, 0, metadata.nlist as nat),
        ).len() <= match matching {
            Some(matching) => matching as int,
            None => metadata.total_vectors as int,
        },
        round_laws::batch_ran(states, results, stored, filter),
        0 <= query < query_count,
    ensures
        ({
            let found = progressive::found(
                rows::row(states.last().distances, query, params.top_k as nat),
            );
            found < params.top_k ==> found == search_laws::counted(
                stored.rows(filter, query, 0, metadata.nlist as nat),
            ).len()
        }),
{
    law_automatic_searches_find_what_is_required(
        metadata,
        calibrated,
        queries,
        query_count,
        params,
        matching,
        stored,
        filter,
        states,
        results,
        query,
    );
}

/// An automatic search with a serialized bitmap for a filter returns fewer rows than it was
/// asked for only if no further row that the bitmap admits is stored. The identifiers of the
/// index must differ: a bitmap counts an identifier once, however many rows have it.
pub proof fn law_filtered_searches_are_exhaustive(
    metadata: VectorIndexMetadata,
    calibrated: Option<usize>,
    queries: Seq<u32>,
    query_count: usize,
    params: VectorSearchParams,
    bytes: Seq<u8>,
    count: usize,
    stored: Stored,
    filter: &RoaringFilter,
    states: Seq<BatchState>,
    results: Seq<(Seq<i64>, Seq<u32>)>,
    query: int,
)
    requires
        params.search_width == SearchWidth::Auto,
        stored.wf(Some(filter)),
        stored.tells(Some(filter)),
        ids_differ(stored),
        stored_for(stored, metadata, query_count),
        filter::filter_of(bytes) == Ok::<Set<u64>, ErrorView>(filter.values()),
        filter::cardinality(filter::decoded_treemap(bytes)) == Ok::<usize, ErrorView>(count),
        filter.values().len() <= count,
        reader::checked_batch(metadata, queries, query_count, params) is Ok,
        reader::batch_plan(
            metadata,
            calibrated,
            queries,
            query_count,
            params,
            Some(count),
        ) == Ok::<PlanView, ErrorView>(PlanView::Batch(states[0])),
        round_laws::batch_ran(states, results, stored, Some(filter)),
        0 <= query < query_count,
    ensures
        ({
            let found = progressive::found(
                rows::row(states.last().distances, query, params.top_k as nat),
            );
            found < params.top_k ==> found == search_laws::counted(
                stored.rows(Some(filter), query, 0, metadata.nlist as nat),
            ).len()
        }),
{
    law_bitmaps_admit_no_more_rows_than_values(stored, filter, query);
    search_laws::lemma_counted_are_few(
        stored.rows(Some(filter), query, 0, metadata.nlist as nat),
    );
    law_automatic_searches_are_exhaustive(
        metadata,
        calibrated,
        queries,
        query_count,
        params,
        Some(count),
        stored,
        Some(filter),
        states,
        results,
        query,
    );
}

/// The identifiers of the rows that a filter admits and that count, each once.
pub open spec fn distinct_ids<F: RowIdFilter>(
    stored: Stored,
    filter: Option<&F>,
    query: int,
    nlist: nat,
) -> Set<i64> {
    ids_of(search_laws::counted(stored.rows(filter, query, 0, nlist))).to_set()
}

proof fn lemma_rows_pass<F: RowIdFilter>(stored: Stored, filter: Option<&F>, query: int, n: nat)
    requires
        stored.ordered(),
        0 <= query < stored.orders.len(),
        n <= stored.lists.len(),
    ensures
        forall|i: int|
            0 <= i < stored.rows(filter, query, 0, n).len() ==> filter::passes(
                filter,
                #[trigger] ids_of(stored.rows(filter, query, 0, n))[i],
            ),
    decreases n,
{
    let after = ids_of(stored.rows(filter, query, 0, n));
    if n > 0 {
        let m = (n - 1) as nat;
        lemma_rows_pass(stored, filter, query, m);
        range_laws::law_ranges_split(stored, filter, query, 0, m, n);
        let list = stored.orders[query][n - 1] as int;
        let reading = stored.readings(query, m, n);
        let fresh = top_k::passing(filter, reading[0].ids@, reading[0].distances@);
        assert(stored.rows(filter, query, m, n) =~= fresh) by {
            reveal_with_fuel(batch_laws::scanned_entries, 2);
        }
        lemma_passing_rows_pass(filter, reading[0].ids@, reading[0].distances@);
        let before = ids_of(stored.rows(filter, query, 0, m));
        assert(after =~= before + ids_of(fresh));
        assert forall|i: int| 0 <= i < after.len() implies filter::passes(
            filter,
            #[trigger] after[i],
        ) by {
            if i < before.len() {
                assert(after[i] == before[i]);
            } else {
                assert(after[i] == ids_of(fresh)[i - before.len()]);
                assert(fresh[i - before.len()].1 == after[i]);
            }
        }
    }
}

proof fn lemma_passing_rows_pass<F: RowIdFilter>(
    filter: Option<&F>,
    ids: Seq<i64>,
    distances: Seq<u32>,
)
    ensures
        forall|i: int|
            0 <= i < top_k::passing(filter, ids, distances).len() ==> filter::passes(
                filter,
                (#[trigger] top_k::passing(filter, ids, distances)[i]).1,
            ),
    decreases ids.len(),
{
    if ids.len() > 0 {
        lemma_passing_rows_pass(filter, ids.drop_last(), distances);
        let all = top_k::passing(filter, ids, distances);
        let before = top_k::passing(filter, ids.drop_last(), distances);
        assert forall|i: int| 0 <= i < all.len() implies filter::passes(
            filter,
            (#[trigger] all[i]).1,
        ) by {
            if i < before.len() {
                assert(all[i] == before[i]);
            }
        }
    }
}

/// There are no more different identifiers among the rows that a bitmap admits than the
/// bitmap has values.
pub proof fn law_bitmaps_admit_no_more_identifiers_than_values(
    stored: Stored,
    filter: &RoaringFilter,
    query: int,
)
    requires
        stored.ordered(),
        0 <= query < stored.orders.len(),
    ensures
        distinct_ids(stored, Some(filter), query, stored.lists.len()).len()
            <= filter.values().len(),
{
    let all = stored.rows(Some(filter), query, 0, stored.lists.len());
    let ids = ids_of(search_laws::counted(all));
    let distinct = ids.to_set();
    let as_value = |id: i64| id as u64;
    lemma_rows_pass(stored, Some(filter), query, stored.lists.len());
    assert forall|id: i64| distinct.contains(id) implies id >= 0 && filter.values().contains(
        #[trigger] as_value(id),
    ) by {
        let i = choose|i: int| 0 <= i < ids.len() && ids[i] == id;
        search_laws::lemma_counted_are_entries(all, i);
        let j = choose|j: int| 0 <= j < all.len() && all[j] == search_laws::counted(all)[i];
        assert(filter::passes(Some(filter), ids_of(all)[j]));
    }
    ids.lemma_cardinality_of_set();
    assert(vstd::relations::injective_on(as_value, distinct)) by {
        assert forall|a: i64, b: i64|
            distinct.contains(a) && distinct.contains(b) && #[trigger] as_value(a)
                == #[trigger] as_value(b) implies a == b by {}
    }
    vstd::set_lib::lemma_map_size(distinct, distinct.map(as_value), as_value);
    lemma_values_are_finite(filter.values());
    assert(distinct.map(as_value).subset_of(filter.values()));
    vstd::set_lib::lemma_len_subset(distinct.map(as_value), filter.values());
}

/// An automatic search with a serialized bitmap for a filter finds `top_k` rows of a query, or
/// at least as many rows as there are different identifiers that the bitmap admits, however
/// many rows have the same identifier.
pub proof fn law_filtered_searches_find_every_identifier(
    metadata: VectorIndexMetadata,
    calibrated: Option<usize>,
    queries: Seq<u32>,
    query_count: usize,
    params: VectorSearchParams,
    bytes: Seq<u8>,
    count: usize,
    stored: Stored,
    filter: &RoaringFilter,
    states: Seq<BatchState>,
    results: Seq<(Seq<i64>, Seq<u32>)>,
    query: int,
)
    requires
        params.search_width == SearchWidth::Auto,
        stored.wf(Some(filter)),
        stored.tells(Some(filter)),
        stored_for(stored, metadata, query_count),
        filter::filter_of(bytes) == Ok::<Set<u64>, ErrorView>(filter.values()),
        filter::cardinality(filter::decoded_treemap(bytes)) == Ok::<usize, ErrorView>(count),
        filter.values().len() <= count,
        reader::checked_batch(metadata, queries, query_count, params) is Ok,
        reader::batch_plan(
            metadata,
            calibrated,
            queries,
            query_count,
            params,
            Some(count),
        ) == Ok::<PlanView, ErrorView>(PlanView::Batch(states[0])),
        round_laws::batch_ran(states, results, stored, Some(filter)),
        0 <= query < query_count,
    ensures
        ({
            let found = progressive::found(
                rows::row(states.last().distances, query, params.top_k as nat),
            );
            found >= params.top_k || found >= distinct_ids(
                stored,
                Some(filter),
                query,
                metadata.nlist as nat,
            ).len()
        }),
{
    ids_of(
        search_laws::counted(stored.rows(Some(filter), query, 0, metadata.nlist as nat)),
    ).lemma_cardinality_of_set();
    law_bitmaps_admit_no_more_identifiers_than_values(stored, filter, query);
    law_automatic_searches_find_what_is_required(
        metadata,
        calibrated,
        queries,
        query_count,
        params,
        Some(count),
        stored,
        Some(filter),
        states,
        results,
        query,
    );
}

} // verus!
