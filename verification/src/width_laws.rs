//! How wide a search is, when it goes on, and what is accepted of its inputs, in numbers.
use vstd::prelude::*;
use crate::autotune;
use crate::config::IndexType;
use crate::error::ErrorView;
use crate::float_bits;
use crate::inverted_lists;
use crate::progressive;
use crate::progressive::{BatchPhase, BatchState, ProgressiveSearch};
use crate::read_plan;
use crate::read_plan::ReadLimits;
use crate::reader;
use crate::reader::{OtherMagics, PlanView, VectorIndexMetadata};
use crate::rows;
use crate::search_params;
use crate::search_params::{SearchWidth, VectorSearchParams};
use crate::validate;

verus! {

/// The number of places of a result that hold a row.
pub open spec fn filled(distances: Seq<u32>) -> nat {
    distances.filter(|distance: u32| distance != 0x7F7F_FFFF).len()
}

/// The rows of a result are counted by its places that do not have the largest distance.
pub proof fn law_results_are_counted_by_their_places(distances: Seq<u32>)
    ensures
        progressive::found(distances) == filled(distances),
    decreases distances.len(),
{
    reveal(Seq::filter);
    if distances.len() > 0 {
        law_results_are_counted_by_their_places(distances.drop_last());
    }
}

/// A search for one or several queries ends with a round if and only if its width was stated,
/// the round had all lists, or every query has the rows that are required.
pub proof fn law_searches_end_when_they_are_complete(
    search: ProgressiveSearch,
    distances: Seq<u32>,
)
    requires
        distances.len() == search.query_count * search.top_k,
    ensures
        search.ends_with(distances) <==> (!search.automatic || search.nprobe >= search.nlist
            || forall|q: int|
            0 <= q < search.query_count ==> filled(
                #[trigger] rows::row(distances, q, search.top_k as nat),
            ) >= search.required_per_query),
{
    assert forall|q: int| 0 <= q < search.query_count implies progressive::complete(
        #[trigger] rows::row(distances, q, search.top_k as nat),
        search.required_per_query as nat,
    ) == (filled(rows::row(distances, q, search.top_k as nat)) >= search.required_per_query) by {
        law_results_are_counted_by_their_places(rows::row(distances, q, search.top_k as nat));
    }
    if search.ends_with(distances) && search.automatic && search.nprobe < search.nlist
        && search.required_per_query > 0 {
        assert forall|q: int| 0 <= q < search.query_count implies filled(
            #[trigger] rows::row(distances, q, search.top_k as nat),
        ) >= search.required_per_query by {
            assert(progressive::complete(
                rows::row(distances, q, search.top_k as nat),
                search.required_per_query as nat,
            ));
        }
    }
    if forall|q: int|
        0 <= q < search.query_count ==> filled(
            #[trigger] rows::row(distances, q, search.top_k as nat),
        ) >= search.required_per_query {
        assert forall|q: int| 0 <= q < search.query_count implies progressive::complete(
            #[trigger] rows::row(distances, q, search.top_k as nat),
            search.required_per_query as nat,
        ) by {
            assert(filled(rows::row(distances, q, search.top_k as nat))
                >= search.required_per_query);
        }
    }
}

/// Each round has twice as many lists as the one before, up to all of them.
pub proof fn law_rounds_double(nprobe: usize, nlist: usize)
    ensures
        2 * nprobe <= nlist ==> progressive::widened(nprobe, nlist) == 2 * nprobe,
        2 * nprobe >= nlist ==> progressive::widened(nprobe, nlist) == nlist,
{
}

/// The queries of a round that need another one are those that do not have the rows that are
/// required, in their order.
pub proof fn law_incomplete_queries_go_on(
    queries: Seq<usize>,
    distances: Seq<u32>,
    k: nat,
    required: nat,
    n: nat,
)
    requires
        n <= queries.len(),
    ensures
        progressive::incomplete_of(queries, distances, k, required, n) == Seq::new(
            n,
            |i: int| i,
        ).filter(|i: int| filled(distances.subrange(i * k, i * k + k)) < required).map_values(
            |i: int| queries[i],
        ),
    decreases n,
{
    reveal(Seq::filter);
    let all = Seq::new(n, |i: int| i);
    let waits = |i: int| filled(distances.subrange(i * k, i * k + k)) < required;
    let named = |i: int| queries[i];
    if n > 0 {
        law_incomplete_queries_go_on(queries, distances, k, required, (n - 1) as nat);
        let fewer = Seq::new((n - 1) as nat, |i: int| i);
        assert(all.drop_last() =~= fewer);
        law_results_are_counted_by_their_places(rows::row(distances, n - 1, k));
        if waits(n - 1) {
            assert(fewer.filter(waits).push(n - 1).map_values(named) =~= fewer.filter(
                waits,
            ).map_values(named).push(queries[n - 1]));
        }
    } else {
        assert(all.filter(waits).map_values(named) =~= Seq::<usize>::empty());
    }
}

/// A batch that has had its first round is done, or goes on in the lists behind it with exactly
/// the queries that do not have the rows that are required. Nothing of the results changes.
pub proof fn law_batches_go_on_behind_their_lists(
    state: BatchState,
    ids: Seq<i64>,
    distances: Seq<u32>,
)
    requires
        state.wf(),
        state.phase == BatchPhase::First,
        distances.len() == state.query_count * state.top_k,
    ensures
        ({
            let after = state.accepted(ids, distances);
            let complete = forall|q: int|
                0 <= q < state.query_count ==> filled(
                    #[trigger] distances.subrange(
                        q * state.top_k,
                        q * state.top_k + state.top_k,
                    ),
                ) >= state.required_per_query;
            &&& after.ids == ids
            &&& after.distances == distances
            &&& !state.automatic || state.probe_end >= state.nlist || complete ==> after.phase
                == BatchPhase::Done
            &&& state.automatic && state.probe_end < state.nlist && !complete ==> {
                &&& after.phase == BatchPhase::Retry
                &&& after.probe_start == state.probe_end
                &&& after.probe_end == if 2 * state.probe_end < state.nlist {
                    2 * state.probe_end
                } else {
                    state.nlist as int
                }
                &&& forall|q: usize|
                    q < state.query_count ==> (#[trigger] after.active.contains(q) <==> filled(
                        distances.subrange(q * state.top_k, q * state.top_k + state.top_k),
                    ) < state.required_per_query)
            }
        }),
{
    let k = state.top_k as nat;
    let required = state.required_per_query as nat;
    let n = state.active.len();
    let incomplete = progressive::incomplete_of(state.active, distances, k, required, n);
    assert forall|q: usize| q < state.query_count implies (#[trigger] incomplete.contains(q)
        <==> filled(distances.subrange(q * k, q * k + k)) < required) by {
        lemma_incomplete(state.active, distances, k, required, n, q);
        law_results_are_counted_by_their_places(rows::row(distances, q as int, k));
    }
    let complete = forall|q: int|
        0 <= q < state.query_count ==> filled(
            #[trigger] distances.subrange(q * state.top_k, q * state.top_k + state.top_k),
        ) >= state.required_per_query;
    if complete {
        if incomplete.len() > 0 {
            lemma_incomplete_are_queries(state.active, distances, k, required, n);
            let q = incomplete[0];
            assert(incomplete.contains(q));
            assert(filled(distances.subrange(q * state.top_k, q * state.top_k + state.top_k))
                >= state.required_per_query);
        }
    } else {
        let q = choose|q: int|
            0 <= q < state.query_count && !(filled(
                #[trigger] distances.subrange(
                    q * state.top_k,
                    q * state.top_k + state.top_k,
                ),
            ) >= state.required_per_query);
        assert(incomplete.contains(q as usize));
    }
}

proof fn lemma_incomplete(
    queries: Seq<usize>,
    distances: Seq<u32>,
    k: nat,
    required: nat,
    n: nat,
    q: usize,
)
    requires
        n <= queries.len(),
        forall|i: int| 0 <= i < queries.len() ==> #[trigger] queries[i] == i,
    ensures
        progressive::incomplete_of(queries, distances, k, required, n).contains(q) <==> q < n
            && progressive::found(rows::row(distances, q as int, k)) < required,
    decreases n,
{
    let all = progressive::incomplete_of(queries, distances, k, required, n);
    if n > 0 {
        lemma_incomplete(queries, distances, k, required, (n - 1) as nat, q);
        let before = progressive::incomplete_of(queries, distances, k, required, (n - 1) as nat);
        assert(queries[n - 1] == n - 1);
        if before.contains(q) {
            let i = choose|i: int| 0 <= i < before.len() && before[i] == q;
            assert(all[i] == q);
        }
        if all.contains(q) {
            let i = choose|i: int| 0 <= i < all.len() && all[i] == q;
            if i < before.len() {
                assert(before[i] == q);
            }
        }
        if q == n - 1 && progressive::found(rows::row(distances, q as int, k)) < required {
            assert(all[before.len() as int] == q);
        }
    }
}

proof fn lemma_incomplete_are_queries(
    queries: Seq<usize>,
    distances: Seq<u32>,
    k: nat,
    required: nat,
    n: nat,
)
    requires
        n <= queries.len(),
        forall|i: int| 0 <= i < queries.len() ==> #[trigger] queries[i] == i,
    ensures
        forall|i: int|
            0 <= i < progressive::incomplete_of(queries, distances, k, required, n).len()
                ==> #[trigger] progressive::incomplete_of(
                queries,
                distances,
                k,
                required,
                n,
            )[i] < n,
    decreases n,
{
    if n > 0 {
        lemma_incomplete_are_queries(queries, distances, k, required, (n - 1) as nat);
        assert(queries[n - 1] == n - 1);
        let before = progressive::incomplete_of(queries, distances, k, required, (n - 1) as nat);
        let all = progressive::incomplete_of(queries, distances, k, required, n);
        assert forall|i: int| 0 <= i < all.len() implies #[trigger] all[i] < n by {
            if i < before.len() {
                assert(all[i] == before[i]);
                assert(before[i] < n - 1);
            }
        }
    }
}

/// A later round of a batch searches the next queries that wait, as many as a part may have, in
/// the lists between the last round's and its own end, each with its own vector and with its
/// results so far for seeds.
pub proof fn law_later_rounds_search_the_queries_that_wait(state: BatchState, i: int)
    requires
        state.wf(),
        state.phase == BatchPhase::Retry,
        0 <= i < state.chunk_size,
        state.searched + i < state.active.len(),
    ensures
        state.next() matches Some(round) && {
            let (d, k) = (state.dimension as int, state.top_k as int);
            let query = state.active[state.searched + i];
            let rest = state.active.len() - state.searched;
            &&& round.query_count == if rest < state.chunk_size {
                rest
            } else {
                state.chunk_size as int
            }
            &&& round.probe_start == state.probe_start
            &&& round.probe_end == state.probe_end
            &&& round.queries.len() == round.query_count * d
            &&& round.seed_ids.len() == round.query_count * k
            &&& round.seed_distances.len() == round.query_count * k
            &&& round.queries.subrange(i * d, i * d + d) == state.queries.subrange(
                query * d,
                query * d + d,
            )
            &&& round.seed_ids.subrange(i * k, i * k + k) == state.ids.subrange(
                query * k,
                query * k + k,
            )
            &&& round.seed_distances.subrange(i * k, i * k + k) == state.distances.subrange(
                query * k,
                query * k + k,
            )
        },
{
    let part = state.part();
    let count = state.query_count as nat;
    assert forall|j: int| 0 <= j < part.len() implies #[trigger] part[j] < count by {
        assert(part[j] == state.active[state.searched + j]);
    }
    assert(part[i] == state.active[state.searched + i]);
    law_rows_are_gathered(state.queries, part, count, state.dimension as nat, part.len(), i);
    law_rows_are_gathered(state.ids, part, count, state.top_k as nat, part.len(), i);
    law_rows_are_gathered(state.distances, part, count, state.top_k as nat, part.len(), i);
}

/// As long as a batch goes on, the queries that wait are exactly those that do not have the rows
/// that are required. It is done only when there is none, or no list is left.
pub proof fn law_batches_go_on_for_incomplete_queries(
    state: BatchState,
    ids: Seq<i64>,
    distances: Seq<u32>,
    query: usize,
)
    requires
        state.wf(),
        state.accurate(),
        state.next() matches Some(round) && ids.len() == round.query_count * state.top_k
            && distances.len() == round.query_count * state.top_k,
        query < state.query_count,
    ensures
        ({
            let after = state.accepted(ids, distances);
            let k = state.top_k as int;
            let has = filled(after.distances.subrange(query * k, query * k + k));
            let waits = after.incomplete.contains(query) || after.active.subrange(
                after.searched as int,
                after.active.len() as int,
            ).contains(query);
            &&& after.phase == BatchPhase::Retry ==> (waits <==> has < state.required_per_query)
            &&& after.phase == BatchPhase::Done ==> !state.automatic || after.probe_end
                >= state.nlist || has >= state.required_per_query
            &&& after.phase != BatchPhase::First
        }),
{
    let after = state.accepted(ids, distances);
    progressive::law_searches_go_on_where_they_must(state, ids, distances);
    progressive::law_states_stay_sound(state, ids, distances);
    law_results_are_counted_by_their_places(
        rows::row(after.distances, query as int, state.top_k as nat),
    );
    let rest = after.active.subrange(after.searched as int, after.active.len() as int);
    if after.phase == BatchPhase::Retry {
        assert(after.waits(query) <==> !after.satisfied(query));
        if rest.contains(query) {
            let j = choose|j: int| 0 <= j < rest.len() && rest[j] == query;
            assert(after.active[after.searched + j] == query);
        }
        if exists|j: int| after.searched <= j < after.active.len() && after.active[j] == query {
            let j = choose|j: int|
                after.searched <= j < after.active.len() && after.active[j] == query;
            assert(rest[j - after.searched] == query);
        }
    }
    if after.phase == BatchPhase::Done {
        if !(!after.automatic || after.probe_end >= after.nlist || after.required_per_query == 0) {
            assert(after.satisfied(query));
        }
    }
}

/// The width of a search is the one that is stated, but no more than all lists. A width of 0 is
/// refused, and so is a width that is meant for a graph.
pub proof fn law_stated_widths_are_kept(
    params: VectorSearchParams,
    nlist: usize,
    vector_count: usize,
    matching: Option<usize>,
)
    ensures
        params.search_width == SearchWidth::IvfNProbe && params.width > 0
            ==> search_params::resolved_nprobe(params, nlist, vector_count, matching) == Ok::<
            usize,
            ErrorView,
        >(
            if params.width < nlist {
                params.width
            } else {
                nlist
            },
        ),
        params.search_width == SearchWidth::IvfNProbe && params.width == 0
            ==> search_params::resolved_nprobe(params, nlist, vector_count, matching) is Err,
        params.search_width == SearchWidth::DiskAnnLSearch ==> search_params::resolved_nprobe(
            params,
            nlist,
            vector_count,
            matching,
        ) is Err,
{
}

/// An automatic search without a filter probes a sixteenth of the lists, at least one, and as
/// many as would hold the rows that are asked for if rows were spread evenly; no more than
/// that, and no more than all.
pub proof fn law_automatic_widths_hold_enough_rows(nlist: nat, vector_count: nat, top_k: nat)
    requires
        nlist > 0,
        vector_count > 0,
    ensures
        ({
            let n = autotune::initial_nprobe(nlist, vector_count, top_k, None, None);
            &&& 1 <= n <= nlist
            &&& n == nlist || (n * vector_count >= top_k * nlist && 16 * n + 15 >= nlist)
            &&& n == 1 || 16 * n <= nlist || (n - 1) * vector_count < top_k * nlist
        }),
{
    let rows = top_k * nlist;
    let needed = (rows + vector_count - 1) as nat / vector_count;
    let base = autotune::unfiltered_nprobe(nlist, vector_count, top_k);
    assert(base * 1 == base) by (nonlinear_arith);
    lemma_rounded_up(rows, vector_count);
    let n = autotune::initial_nprobe(nlist, vector_count, top_k, None, None);
    assert(needed <= base);
    assert(base * vector_count >= rows) by (nonlinear_arith)
        requires
            needed * vector_count >= rows,
            base >= needed,
    ;
    if n > 1 && 16 * n > nlist {
        assert(n <= needed);
        assert((n - 1) * vector_count <= (needed - 1) * vector_count) by (nonlinear_arith)
            requires
                n <= needed,
                vector_count > 0,
        ;
    }
}

proof fn lemma_rounded_up(a: nat, b: nat)
    requires
        b > 0,
    ensures
        ((a + b - 1) as nat / b) * b >= a,
        ((a + b - 1) as nat / b) > 0 ==> ((a + b - 1) as nat / b - 1) * b < a,
        a > 0 ==> (a + b - 1) as nat / b >= 1,
{
    let q = (a + b - 1) as nat / b;
    vstd::arithmetic::div_mod::lemma_fundamental_div_mod(a + b - 1, b as int);
    vstd::arithmetic::div_mod::lemma_mod_bound(a + b - 1, b as int);
    assert(b * q == q * b && (q - 1) * b == q * b - b) by (nonlinear_arith);
    if a > 0 && q == 0 {
        assert(0 * b == 0) by (nonlinear_arith);
    }
}

/// A filter that admits nothing widens a search as one that admits one row, and an index without
/// rows is searched in a sixteenth of its lists, at least one.
pub proof fn law_widths_where_nothing_is_found(
    nlist: nat,
    vector_count: nat,
    top_k: nat,
    cap: Option<usize>,
)
    requires
        nlist > 0,
    ensures
        autotune::initial_nprobe(nlist, vector_count, top_k, Some(0), cap)
            == autotune::initial_nprobe(nlist, vector_count, top_k, Some(1), cap),
        ({
            let n = autotune::initial_nprobe(nlist, 0, top_k, None, None);
            &&& n >= 1
            &&& 16 * n <= nlist || n == 1
            &&& 16 * (n + 1) > nlist
        }),
{
    let share = autotune::unfiltered_nprobe(nlist, 0, top_k);
    assert(share * 1 == share) by (nonlinear_arith);
}

/// A filter widens an automatic search by the inverse of the share of rows that it admits,
/// rounded up, and no more than the cap: `n` lists without the filter become `factor` times as
/// many, or all.
pub proof fn law_filters_widen_by_their_selectivity(
    nlist: nat,
    vector_count: nat,
    top_k: nat,
    matching: usize,
    cap: Option<usize>,
)
    requires
        nlist > 0,
        vector_count > 0,
        matching > 0,
        cap != Some(0usize),
    ensures
        ({
            let n = autotune::initial_nprobe(nlist, vector_count, top_k, None, None);
            let wider = autotune::initial_nprobe(nlist, vector_count, top_k, Some(matching), cap);
            &&& wider <= nlist
            &&& n < nlist ==> exists|factor: nat|
                {
                    &&& factor >= 1
                    &&& cap is None || factor <= cap->0
                    &&& cap is Some && factor == cap->0 || factor * matching >= vector_count
                    &&& factor == 1 || (factor - 1) * matching < vector_count
                    &&& wider == if #[trigger] (n * factor) < nlist {
                        n * factor
                    } else {
                        nlist
                    }
                }
        }),
{
    let n = autotune::initial_nprobe(nlist, vector_count, top_k, None, None);
    let base = autotune::unfiltered_nprobe(nlist, vector_count, top_k);
    assert(base * 1 == base) by (nonlinear_arith);
    let factor = autotune::expansion(vector_count, Some(matching), cap);
    let inverse = autotune::expansion(vector_count, Some(matching), None);
    lemma_rounded_up(vector_count, matching as nat);
    if n < nlist {
        assert(n == base);
        if cap is Some && cap->0 < inverse {
            assert((factor - 1) * matching <= (inverse - 1) * matching) by (nonlinear_arith)
                requires
                    factor <= inverse,
                    matching > 0,
            ;
        }
        assert(n * factor == base * factor);
    }
}

/// The first round of a search for one query: as many rows as asked for are looked for, and as
/// many are required as there are, up to that.
pub proof fn law_single_plans_are_as_asked_for(
    metadata: VectorIndexMetadata,
    calibrated: Option<usize>,
    params: VectorSearchParams,
    matching: Option<usize>,
    search: ProgressiveSearch,
)
    requires
        reader::single_plan(metadata, calibrated, params, matching) == Ok::<PlanView, ErrorView>(
            PlanView::Progressive(search),
        ),
    ensures
        metadata.index_type != IndexType::DiskAnn,
        search.automatic <==> params.search_width == SearchWidth::Auto,
        search.nlist == metadata.nlist,
        search.query_count == 1,
        search.top_k == params.top_k,
        ({
            let available = match matching {
                Some(matching) => matching as int,
                None => metadata.total_vectors as int,
            };
            search.required_per_query == if params.top_k < available {
                params.top_k as int
            } else {
                available
            }
        }),
        params.search_width == SearchWidth::IvfNProbe ==> search.nprobe == if params.width
            < metadata.nlist {
            params.width
        } else {
            metadata.nlist
        },
        params.search_width == SearchWidth::Auto ==> search.nprobe == autotune::initial_nprobe(
            metadata.nlist as nat,
            metadata.total_vectors as nat,
            params.top_k as nat,
            matching,
            params.max_initial_filter_expansion_factor,
        ),
{
}

/// The first round of a batch has all its queries, no seeds, and the width of a search for one
/// query. A later round has as many queries as fit a buffer of 64 MiB, at least one.
pub proof fn law_batch_plans_are_as_asked_for(
    metadata: VectorIndexMetadata,
    calibrated: Option<usize>,
    queries: Seq<u32>,
    query_count: usize,
    params: VectorSearchParams,
    matching: Option<usize>,
    state: BatchState,
)
    requires
        query_count > 0,
        params.top_k > 0,
        queries.len() == query_count * metadata.dimension,
        4 * metadata.dimension + 12 * params.top_k <= usize::MAX,
        reader::batch_plan(metadata, calibrated, queries, query_count, params, matching) == Ok::<
            PlanView,
            ErrorView,
        >(PlanView::Batch(state)),
    ensures
        metadata.index_type != IndexType::DiskAnn,
        state.phase == BatchPhase::First,
        state.automatic <==> params.search_width == SearchWidth::Auto,
        state.nlist == metadata.nlist,
        state.dimension == metadata.dimension,
        state.queries == queries,
        state.query_count == query_count,
        state.top_k == params.top_k,
        state.probe_start == 0,
        reader::single_plan(metadata, calibrated, params, matching) matches Ok(
            PlanView::Progressive(search),
        ) && search.nprobe == state.probe_end && search.required_per_query
            == state.required_per_query,
        state.next() matches Some(round) && round.queries == queries && round.query_count
            == query_count && round.probe_start == 0 && round.probe_end == state.probe_end
            && round.seed_ids.len() == 0 && round.seed_distances.len() == 0,
        state.chunk_size >= 1,
        state.chunk_size == 1 || state.chunk_size * (4 * metadata.dimension + 12 * params.top_k)
            <= 64 * 1024 * 1024,
        (state.chunk_size + 1) * (4 * metadata.dimension + 12 * params.top_k) > 64 * 1024 * 1024,
{
    let (n, d) = (query_count as int, metadata.dimension as int);
    assert(queries.len() / query_count as nat == d) by {
        vstd::arithmetic::div_mod::lemma_div_by_multiple(d, n);
        assert(n * d == d * n) by (nonlinear_arith);
    }
    let bytes = 4 * d + 12 * params.top_k;
    let limit = 64 * 1024 * 1024int;
    let fitting = limit / bytes;
    vstd::arithmetic::div_mod::lemma_fundamental_div_mod(limit, bytes);
    vstd::arithmetic::div_mod::lemma_mod_bound(limit, bytes);
    assert(bytes * fitting == fitting * bytes && (fitting + 1) * bytes == fitting * bytes + bytes)
        by (nonlinear_arith);
    if fitting < 1 {
        assert(fitting * bytes <= 0) by (nonlinear_arith)
            requires
                fitting <= 0,
                bytes > 0,
        ;
        assert(2 * bytes > limit) by {
            assert(bytes > limit);
        }
    }
}

/// The candidates of a graph search are those that are stated, else those that were found by
/// calibration, else four for each row asked for and at least 64; never fewer than the rows.
pub proof fn law_graph_widths(params: VectorSearchParams, calibrated: Option<usize>)
    requires
        params.max_initial_filter_expansion_factor is None,
        0 < params.top_k,
        4 * params.top_k <= usize::MAX,
    ensures
        params.search_width == SearchWidth::DiskAnnLSearch && params.width > 0
            ==> search_params::resolved_l_search(params, calibrated) == Ok::<usize, ErrorView>(
            if params.width < params.top_k {
                params.top_k
            } else {
                params.width
            },
        ),
        params.search_width == SearchWidth::DiskAnnLSearch && params.width == 0
            ==> search_params::resolved_l_search(params, calibrated) is Err,
        params.search_width == SearchWidth::IvfNProbe ==> search_params::resolved_l_search(
            params,
            calibrated,
        ) is Err,
        params.search_width == SearchWidth::Auto && calibrated is None
            ==> search_params::resolved_l_search(params, calibrated) == Ok::<usize, ErrorView>(
            if 4 * params.top_k < 64 {
                64usize
            } else {
                (4 * params.top_k) as usize
            },
        ),
        params.search_width == SearchWidth::Auto && calibrated is Some
            ==> search_params::resolved_l_search(params, calibrated) == Ok::<usize, ErrorView>(
            if calibrated->0 < params.top_k {
                params.top_k
            } else {
                calibrated->0
            },
        ),
{
}

/// Parameters are accepted if and only if rows are asked for, tables may take memory, and a cap
/// on filters is positive and goes with an automatic search.
pub proof fn law_parameters_are_checked(params: VectorSearchParams)
    ensures
        search_params::checked_params(params) is Ok <==> {
            &&& params.top_k > 0
            &&& params.ivfpq_batch_table_reuse_max_bytes > 0
            &&& params.max_initial_filter_expansion_factor matches Some(factor) ==> factor > 0
                && params.search_width == SearchWidth::Auto
        },
{
}

/// Whether the bits of a number are those of a finite one.
pub open spec fn is_finite(bits: u32) -> bool {
    bits % 0x8000_0000 < 0x7F80_0000
}

/// A query is accepted if and only if it has the dimension of the index and every number of it
/// is finite. Several queries, vectors to add and vectors to train on are accepted if and only
/// if there are any, they are complete, and every number is finite.
pub proof fn law_inputs_are_checked(
    values: Seq<u32>,
    count: usize,
    dimension: usize,
    name: Seq<char>,
)
    requires
        values.len() <= usize::MAX,
    ensures
        validate::checked_query(values, dimension) is Ok <==> values.len() == dimension && forall|
            i: int,
        |
            0 <= i < values.len() ==> is_finite(#[trigger] values[i]),
        validate::checked_queries(values, count, dimension) is Ok <==> count > 0 && values.len()
            == count * dimension && forall|i: int|
            0 <= i < values.len() ==> is_finite(#[trigger] values[i]),
        validate::checked_vectors(values, count, dimension, name) is Ok <==> count > 0
            && values.len() == count * dimension && forall|i: int|
            0 <= i < values.len() ==> is_finite(#[trigger] values[i]),
        validate::checked_warmup(values, count, dimension) is Ok <==> values.len() == count
            * dimension && forall|i: int|
            0 <= i < values.len() ==> is_finite(#[trigger] values[i]),
{
    assert forall|i: int| 0 <= i < values.len() implies float_bits::f32_finite(
        #[trigger] values[i],
    ) == is_finite(values[i]) by {}
    assert(validate::all_finite(values) <==> forall|i: int|
        0 <= i < values.len() ==> is_finite(#[trigger] values[i])) by {
        if validate::all_finite(values) {
            assert forall|i: int| 0 <= i < values.len() implies is_finite(#[trigger] values[i]) by {
                assert(float_bits::f32_finite(values[i]));
            }
        }
        if forall|i: int| 0 <= i < values.len() ==> is_finite(#[trigger] values[i]) {
            assert forall|i: int| 0 <= i < values.len() implies float_bits::f32_finite(
                #[trigger] values[i],
            ) by {
                assert(is_finite(values[i]));
            }
        }
    }
}

/// Numbers are ordered by their bits: the larger the bits of two positive numbers, the larger
/// the number; negative ones the other way round, and below all others. Nothing is less than,
/// or more than, what is not a number.
pub proof fn law_numbers_are_ordered(a: u32, b: u32)
    ensures
        a < 0x8000_0000 && b < 0x8000_0000 ==> (float_bits::f32_less(a, b) <==> a < b && b
            <= 0x7F80_0000),
        a >= 0x8000_0000 && b >= 0x8000_0000 ==> (float_bits::f32_less(a, b) <==> a > b && a
            <= 0xFF80_0000),
        a >= 0x8000_0000 && b < 0x8000_0000 ==> (float_bits::f32_less(a, b) <==> a <= 0xFF80_0000
            && b <= 0x7F80_0000 && !(a == 0x8000_0000 && b == 0)),
        a < 0x8000_0000 && b >= 0x8000_0000 ==> !float_bits::f32_less(a, b),
{
}

/// A file is told by its first four bytes.
pub proof fn law_files_are_told_by_their_magic(magic: u32, others: OtherMagics)
    ensures
        magic == 0x4956_464C ==> reader::dispatched(magic, others) == Ok::<IndexType, ErrorView>(
            IndexType::IvfFlat,
        ),
        magic == 0x4956_5351 ==> reader::dispatched(magic, others) == Ok::<IndexType, ErrorView>(
            IndexType::IvfSq,
        ),
        reader::dispatched(magic, others) == Ok::<IndexType, ErrorView>(IndexType::IvfFlat)
            ==> magic == 0x4956_464C,
        reader::dispatched(magic, others) == Ok::<IndexType, ErrorView>(IndexType::IvfSq)
            ==> magic == 0x4956_5351,
        reader::dispatched(magic, others) == Ok::<IndexType, ErrorView>(IndexType::IvfPq)
            ==> magic == others.ivf_pq,
        reader::dispatched(magic, others) == Ok::<IndexType, ErrorView>(IndexType::IvfRq)
            ==> magic == others.ivf_rq,
        reader::dispatched(magic, others) == Ok::<IndexType, ErrorView>(IndexType::DiskAnn)
            ==> magic == others.disk_ann,
        reader::dispatched(magic, others) is Err ==> magic != others.ivf_pq && magic
            != others.ivf_rq && magic != others.disk_ann,
{
}

/// Rows that are gathered are those at the given places, one behind the other.
pub proof fn law_rows_are_gathered<T>(
    base: Seq<T>,
    places: Seq<usize>,
    count: nat,
    k: nat,
    n: nat,
    i: int,
)
    requires
        base.len() == count * k,
        n <= places.len(),
        forall|j: int| 0 <= j < places.len() ==> #[trigger] places[j] < count,
        0 <= i < n,
    ensures
        rows::gathered(base, places, k, n).len() == n * k,
        rows::gathered(base, places, k, n).subrange(i * k, i * k + k) == base.subrange(
            places[i] * k,
            places[i] * k + k,
        ),
    decreases n,
{
    assert(n * k == (n - 1) * k + k) by (nonlinear_arith);
    rows::lemma_row_fits(places[n - 1] as int, count as int, k as int);
    let before = rows::gathered(base, places, k, (n - 1) as nat);
    let all = rows::gathered(base, places, k, n);
    if n == 1 {
        assert(0 * k == 0) by (nonlinear_arith);
        assert(before.len() == 0);
        assert(all.subrange(i * k, i * k + k) =~= base.subrange(
            places[i] * k,
            places[i] * k + k,
        ));
    } else if i < n - 1 {
        law_rows_are_gathered(base, places, count, k, (n - 1) as nat, i);
        rows::lemma_row_fits(i, n - 1, k as int);
        assert(all.subrange(i * k, i * k + k) =~= before.subrange(i * k, i * k + k));
    } else {
        law_rows_are_gathered(base, places, count, k, (n - 1) as nat, 0);
        assert(all.subrange(i * k, i * k + k) =~= base.subrange(
            places[i] * k,
            places[i] * k + k,
        ));
    }
}

/// A list gets the identifiers that are assigned to it behind those that it has, in their
/// order, and no others.
pub proof fn law_lists_get_what_is_assigned_to_them(
    before: Seq<i64>,
    ids: Seq<i64>,
    lists: Seq<usize>,
    list_id: int,
    n: nat,
)
    requires
        n <= ids.len(),
        n <= lists.len(),
    ensures
        inverted_lists::listed_ids(before, ids, lists, list_id, n) == before + Seq::new(
            n,
            |i: int| i,
        ).filter(|i: int| lists[i] == list_id).map_values(|i: int| ids[i]),
    decreases n,
{
    reveal(Seq::filter);
    let all = Seq::new(n, |i: int| i);
    let own = |i: int| lists[i] == list_id;
    let named = |i: int| ids[i];
    if n > 0 {
        law_lists_get_what_is_assigned_to_them(before, ids, lists, list_id, (n - 1) as nat);
        let fewer = Seq::new((n - 1) as nat, |i: int| i);
        assert(all.drop_last() =~= fewer);
        if own(n - 1) {
            assert(fewer.filter(own).push(n - 1).map_values(named) =~= fewer.filter(
                own,
            ).map_values(named).push(ids[n - 1]));
            assert((before + fewer.filter(own).map_values(named)).push(ids[n - 1]) =~= before
                + fewer.filter(own).map_values(named).push(ids[n - 1]));
        }
    } else {
        assert(before + all.filter(own).map_values(named) =~= before);
    }
}

/// A list gets the rows that are assigned to it behind those that it has, in their order, and
/// no others.
pub proof fn law_lists_get_the_rows_that_are_assigned_to_them<T>(
    before: Seq<T>,
    values: Seq<T>,
    d: nat,
    lists: Seq<usize>,
    list_id: int,
    n: nat,
)
    requires
        n <= lists.len(),
    ensures
        inverted_lists::listed_rows(before, values, d, lists, list_id, n) == before + Seq::new(
            n,
            |i: int| i,
        ).filter(|i: int| lists[i] == list_id).map_values(
            |i: int| values.subrange(i * d, i * d + d),
        ).flatten(),
    decreases n,
{
    reveal(Seq::filter);
    let all = Seq::new(n, |i: int| i);
    let own = |i: int| lists[i] == list_id;
    let named = |i: int| values.subrange(i * d, i * d + d);
    if n > 0 {
        law_lists_get_the_rows_that_are_assigned_to_them(
            before,
            values,
            d,
            lists,
            list_id,
            (n - 1) as nat,
        );
        let fewer = Seq::new((n - 1) as nat, |i: int| i);
        assert(all.drop_last() =~= fewer);
        if own(n - 1) {
            let parts = fewer.filter(own).map_values(named);
            let last = values.subrange((n - 1) * d, (n - 1) * d + d);
            assert(fewer.filter(own).push(n - 1).map_values(named) =~= parts.push(last));
            parts.lemma_flatten_and_flatten_alt_are_equivalent();
            parts.push(last).lemma_flatten_and_flatten_alt_are_equivalent();
            assert(parts.push(last).drop_last() =~= parts);
            assert((before + parts.flatten()) + last =~= before + (parts.flatten() + last));
        }
    } else {
        assert(all.filter(own).map_values(named) =~= Seq::<Seq<T>>::empty());
        assert(before + Seq::<T>::empty() =~= before);
    }
}

/// As many payloads are read at once as stay within both limits: one more would be too many
/// ranges or too many bytes.
pub proof fn law_batches_are_within_limits(lengths: Seq<usize>, limits: ReadLimits)
    ensures
        ({
            let n = read_plan::batch_len(lengths, limits, 0);
            &&& n <= lengths.len()
            &&& n <= limits.max_ranges
            &&& total_of(lengths.subrange(0, n as int)) <= limits.payload_bytes
            &&& n < lengths.len() ==> n + 1 > limits.max_ranges || total_of(
                lengths.subrange(0, n as int),
            ) + lengths[n as int] > limits.payload_bytes
        }),
{
    lemma_batch(lengths, limits, 0);
    let n = read_plan::batch_len(lengths, limits, 0);
    lemma_total(lengths, n);
}

/// The sum of several numbers.
pub open spec fn total_of(lengths: Seq<usize>) -> int {
    lengths.fold_left(0int, |sum: int, n: usize| sum + n)
}

proof fn lemma_total(lengths: Seq<usize>, n: nat)
    requires
        n <= lengths.len(),
    ensures
        total_of(lengths.subrange(0, n as int)) == read_plan::sum_of(lengths, n),
    decreases n,
{
    let part = lengths.subrange(0, n as int);
    if n > 0 {
        lemma_total(lengths, (n - 1) as nat);
        assert(part.drop_last() =~= lengths.subrange(0, n - 1));
    }
}

proof fn lemma_batch(lengths: Seq<usize>, limits: ReadLimits, n: nat)
    requires
        n <= lengths.len(),
        read_plan::batch_fits(lengths, n, limits),
    ensures
        ({
            let len = read_plan::batch_len(lengths, limits, n);
            &&& n <= len <= lengths.len()
            &&& read_plan::batch_fits(lengths, len, limits)
            &&& len < lengths.len() ==> !read_plan::batch_fits(lengths, len + 1, limits)
        }),
    decreases lengths.len() - n,
{
    if n < lengths.len() && read_plan::batch_fits(lengths, n + 1, limits) {
        lemma_batch(lengths, limits, n + 1);
    }
}

} // verus!
