//! What holds of searches that are carried out in rounds, from the plan to the last result.
use vstd::prelude::*;
use crate::filter::RowIdFilter;
use crate::ivf_search;
use crate::progressive;
use crate::progressive::{BatchPhase, BatchState, ProgressiveSearch};
use crate::range_laws;
use crate::range_laws::Stored;
use crate::rows;
use crate::search_laws;
use crate::top_k;

verus! {

/// What a search goes by: whether it widens by itself, how many lists there are, how many
/// rows are required of a query and how many it asks for.
pub struct Terms {
    pub automatic: bool,
    pub nlist: usize,
    pub required: nat,
    pub k: nat,
}

/// The terms of a batch.
pub open spec fn terms_of(state: BatchState) -> Terms {
    Terms {
        automatic: state.automatic,
        nlist: state.nlist,
        required: state.required_per_query as nat,
        k: state.top_k as nat,
    }
}

/// Whether the first `width` lists of a query have as many rows that count as are required.
pub open spec fn enough<F: RowIdFilter>(
    stored: Stored,
    filter: Option<&F>,
    terms: Terms,
    query: int,
    width: nat,
) -> bool {
    terms.k >= terms.required && search_laws::counted(
        stored.rows(filter, query, 0, width),
    ).len() >= terms.required
}

/// The number of lists that a query has gone through when its search ends, if it has gone
/// through `width` of them.
pub open spec fn last_width<F: RowIdFilter>(
    stored: Stored,
    filter: Option<&F>,
    terms: Terms,
    query: int,
    width: usize,
) -> usize
    decreases terms.nlist - width,
{
    if !terms.automatic || width == 0 || width >= terms.nlist || terms.required == 0 || enough(
        stored,
        filter,
        terms,
        query,
        width as nat,
    ) {
        width
    } else {
        last_width(stored, filter, terms, query, progressive::widened(width, terms.nlist))
    }
}

pub proof fn lemma_last_width<F: RowIdFilter>(
    stored: Stored,
    filter: Option<&F>,
    terms: Terms,
    query: int,
    width: usize,
)
    requires
        1 <= width <= terms.nlist,
    ensures
        width <= last_width(stored, filter, terms, query, width) <= terms.nlist,
        ({
            let last = last_width(stored, filter, terms, query, width);
            ||| !terms.automatic
            ||| last >= terms.nlist
            ||| terms.required == 0
            ||| enough(stored, filter, terms, query, last as nat)
        }),
    decreases terms.nlist - width,
{
    if !(!terms.automatic || width >= terms.nlist || terms.required == 0 || enough(
        stored,
        filter,
        terms,
        query,
        width as nat,
    )) {
        lemma_last_width(
            stored,
            filter,
            terms,
            query,
            progressive::widened(width, terms.nlist),
        );
    }
}

/// Whether the result of a query holds the nearest rows of its first `width` lists.
pub open spec fn holds<F: RowIdFilter>(
    state: BatchState,
    stored: Stored,
    filter: Option<&F>,
    query: int,
    width: nat,
) -> bool {
    range_laws::found_among(
        rows::row(state.ids, query, state.top_k as nat),
        rows::row(state.distances, query, state.top_k as nat),
        stored.rows(filter, query, 0, width),
        state.top_k as nat,
    )
}

/// Whether a query is still to be searched in the round.
pub open spec fn pending(state: BatchState, query: usize) -> bool {
    exists|j: int| state.searched <= j < state.active.len() && #[trigger] state.active[j] == query
}

/// Where a query stands in a round behind the first one.
pub open spec fn query_reached<F: RowIdFilter>(
    state: BatchState,
    stored: Stored,
    filter: Option<&F>,
    terms: Terms,
    first: usize,
    query: usize,
) -> bool {
    let last = last_width(stored, filter, terms, query as int, first);
    if pending(state, query) {
        &&& holds(state, stored, filter, query as int, state.probe_start as nat)
        &&& last == last_width(stored, filter, terms, query as int, state.probe_end)
    } else if state.incomplete.contains(query) {
        &&& holds(state, stored, filter, query as int, state.probe_end as nat)
        &&& last == last_width(stored, filter, terms, query as int, state.probe_end)
        &&& !enough(stored, filter, terms, query as int, state.probe_end as nat)
    } else {
        holds(state, stored, filter, query as int, last as nat)
    }
}

/// What holds of every state of a batch search whose rounds are answered, `first` being the
/// width of the first round.
pub open spec fn reached<F: RowIdFilter>(
    state: BatchState,
    stored: Stored,
    filter: Option<&F>,
    first: usize,
) -> bool {
    &&& state.wf()
    &&& state.nlist == stored.lists.len()
    &&& state.query_count == stored.orders.len()
    &&& state.probe_end <= state.nlist
    &&& match state.phase {
        BatchPhase::First => state.probe_end == first,
        _ => forall|query: usize|
            query < state.query_count ==> #[trigger] query_reached(
                state,
                stored,
                filter,
                terms_of(state),
                first,
                query,
            ),
    }
}

/// Whether a search in rounds can be told by the rows of an index. One that goes on by itself
/// counts the rows of a result and goes on with them for seeds, so places must tell which rows
/// are found.
pub open spec fn countable<F: RowIdFilter>(
    stored: Stored,
    filter: Option<&F>,
    automatic: bool,
) -> bool {
    stored.wf(filter) && (automatic ==> stored.tells(filter))
}

/// The queries that are searched next.
pub open spec fn members(state: BatchState) -> Seq<usize> {
    if state.phase == BatchPhase::First {
        state.active
    } else {
        state.part()
    }
}

/// Whether results answer the round that a batch search asks for.
pub open spec fn answered<F: RowIdFilter>(
    state: BatchState,
    stored: Stored,
    filter: Option<&F>,
    ids: Seq<i64>,
    distances: Seq<u32>,
) -> bool {
    state.next() matches Some(round) && range_laws::answers(
        stored,
        filter,
        members(state),
        round.probe_start,
        round.probe_end,
        round.seed_ids,
        round.seed_distances,
        state.top_k as nat,
        ids,
        distances,
    )
}

proof fn lemma_complete_iff_enough<F: RowIdFilter>(
    stored: Stored,
    filter: Option<&F>,
    terms: Terms,
    query: int,
    width: nat,
    ids: Seq<i64>,
    distances: Seq<u32>,
)
    requires
        stored.wf(filter),
        0 <= query < stored.orders.len(),
        width <= stored.lists.len(),
        terms.k <= usize::MAX,
        terms.required <= terms.k,
        stored.tells(filter),
        range_laws::found_among(ids, distances, stored.rows(filter, query, 0, width), terms.k),
    ensures
        progressive::complete(distances, terms.required) == enough(
            stored,
            filter,
            terms,
            query,
            width,
        ),
{
    range_laws::lemma_rows_tell(stored, filter, query, width);
    range_laws::law_results_are_as_full_as_they_can_be(
        ids,
        distances,
        stored.rows(filter, query, 0, width),
        terms.k,
    );
}

/// A round behind which every query stands where it should leaves a state in which it does.
proof fn lemma_settled_reached<F: RowIdFilter>(
    state: BatchState,
    incomplete: Seq<usize>,
    stored: Stored,
    filter: Option<&F>,
    first: usize,
)
    requires
        1 <= state.probe_end,
        state.nlist == stored.lists.len(),
        state.query_count == stored.orders.len(),
        state.probe_end <= state.nlist,
        state.settled(incomplete).wf(),
        forall|query: usize|
            query < state.query_count ==> {
                let last = last_width(stored, filter, terms_of(state), query as int, first);
                if #[trigger] incomplete.contains(query) {
                    &&& holds(state, stored, filter, query as int, state.probe_end as nat)
                    &&& last == last_width(
                        stored,
                        filter,
                        terms_of(state),
                        query as int,
                        state.probe_end,
                    )
                    &&& !enough(
                        stored,
                        filter,
                        terms_of(state),
                        query as int,
                        state.probe_end as nat,
                    )
                } else {
                    holds(state, stored, filter, query as int, last as nat)
                }
            },
    ensures
        reached(state.settled(incomplete), stored, filter, first),
{
    let after = state.settled(incomplete);
    assert(terms_of(after) == terms_of(state));
    assert forall|query: usize| query < after.query_count implies #[trigger] query_reached(
        after,
        stored,
        filter,
        terms_of(after),
        first,
        query,
    ) by {
        let waiting = incomplete.contains(query);
        if after.phase == BatchPhase::Retry {
            assert(pending(after, query) == waiting) by {
                if waiting {
                    let j = choose|j: int| 0 <= j < incomplete.len() && incomplete[j] == query;
                    assert(after.active[j] == query);
                }
            }
        }
        if waiting {
            assert(holds(after, stored, filter, query as int, state.probe_end as nat));
        }
    }
}

proof fn lemma_only_round<F: RowIdFilter>(
    state: BatchState,
    stored: Stored,
    filter: Option<&F>,
    first: usize,
    ids: Seq<i64>,
    distances: Seq<u32>,
)
    requires
        stored.wf(filter),
        !state.automatic,
        state.phase == BatchPhase::First,
        reached(state, stored, filter, first),
        answered(state, stored, filter, ids, distances),
    ensures
        reached(state.accepted(ids, distances), stored, filter, first),
{
    let k = state.top_k as nat;
    progressive::law_states_stay_sound(state, ids, distances);
    let after = state.accepted(ids, distances);
    assert forall|query: usize| query < after.query_count implies #[trigger] query_reached(
        after,
        stored,
        filter,
        terms_of(after),
        first,
        query,
    ) by {
        let all = stored.rows(filter, query as int, 0, state.probe_end as nat);
        assert(members(state)[query as int] == query);
        let own = rows::row(ids, query as int, k);
        assert(range_laws::stands_for(
            own,
            rows::row(distances, query as int, k),
            ivf_search::seeds_of(Seq::empty(), Seq::empty(), query as int, k) + all,
            k,
        ));
        assert(ivf_search::seeds_of(Seq::empty(), Seq::empty(), query as int, k) + all
            =~= all);
        range_laws::lemma_nearest_are_found(own, rows::row(distances, query as int, k), all, k);
        assert(holds(after, stored, filter, query as int, state.probe_end as nat));
    }
}

proof fn lemma_first_round<F: RowIdFilter>(
    state: BatchState,
    stored: Stored,
    filter: Option<&F>,
    first: usize,
    ids: Seq<i64>,
    distances: Seq<u32>,
)
    requires
        stored.wf(filter),
        stored.tells(filter),
        state.phase == BatchPhase::First,
        reached(state, stored, filter, first),
        answered(state, stored, filter, ids, distances),
    ensures
        reached(state.accepted(ids, distances), stored, filter, first),
{
    let k = state.top_k as nat;
    let required = state.required_per_query as nat;
    let terms = terms_of(state);
    let incomplete = progressive::incomplete_of(
        state.active,
        distances,
        k,
        required,
        state.active.len(),
    );
    let before = BatchState { ids, distances, ..state };
    progressive::law_states_stay_sound(state, ids, distances);
    progressive::lemma_incomplete_members(
        state.active,
        distances,
        k,
        required,
        state.active.len(),
    );
    assert(terms_of(before) == terms);
    assert forall|query: usize| query < state.query_count implies {
        let last = last_width(stored, filter, terms, query as int, first);
        if #[trigger] incomplete.contains(query) {
            &&& holds(before, stored, filter, query as int, state.probe_end as nat)
            &&& last == last_width(stored, filter, terms, query as int, state.probe_end)
            &&& !enough(stored, filter, terms, query as int, state.probe_end as nat)
        } else {
            holds(before, stored, filter, query as int, last as nat)
        }
    } by {
        let all = stored.rows(filter, query as int, 0, state.probe_end as nat);
        assert(members(state)[query as int] == query);
        let own = rows::row(ids, query as int, k);
        assert(range_laws::stands_for(
            own,
            rows::row(distances, query as int, k),
            ivf_search::seeds_of(Seq::empty(), Seq::empty(), query as int, k) + all,
            k,
        ));
        assert(ivf_search::seeds_of(Seq::empty(), Seq::empty(), query as int, k) + all =~= all);
        range_laws::lemma_nearest_are_found(own, rows::row(distances, query as int, k), all, k);
        lemma_complete_iff_enough(
            stored,
            filter,
            terms,
            query as int,
            state.probe_end as nat,
            own,
            rows::row(distances, query as int, k),
        );
        progressive::lemma_incomplete_complement(
            state.active,
            distances,
            k,
            required,
            state.active.len(),
            query as int,
        );
        assert(holds(before, stored, filter, query as int, state.probe_end as nat));
        if incomplete.contains(query) {
            let i = choose|i: int| 0 <= i < incomplete.len() && incomplete[i] == query;
            assert(incomplete[i] == state.active[query as int]);
        }
    }
    lemma_settled_reached(before, incomplete, stored, filter, first);
}

proof fn lemma_gathered_row<T>(base: Seq<T>, places: Seq<usize>, count: nat, k: nat, n: nat, at: int)
    requires
        base.len() == count * k,
        rows::in_range(places, count),
        0 <= at < n <= places.len(),
    ensures
        rows::gathered(base, places, k, n).len() == n * k,
        rows::row(rows::gathered(base, places, k, n), at, k) == rows::row(
            base,
            places[at] as int,
            k,
        ),
    decreases n,
{
    assert(n * k == (n - 1) * k + k) by (nonlinear_arith);
    rows::lemma_row_fits(places[n - 1] as int, count as int, k as int);
    let before = rows::gathered(base, places, k, (n - 1) as nat);
    let all = rows::gathered(base, places, k, n);
    if n == 1 {
        assert(0 * k == 0) by (nonlinear_arith);
        assert(before.len() == 0);
    } else if at < n - 1 {
        lemma_gathered_row(base, places, count, k, (n - 1) as nat, at);
        rows::lemma_row_fits(at, n - 1, k as int);
        assert(rows::row(all, at, k) =~= rows::row(before, at, k));
    } else {
        lemma_gathered_row(base, places, count, k, (n - 1) as nat, 0);
    }
    if at == n - 1 {
        assert(rows::row(all, at, k) =~= rows::row(base, places[at] as int, k));
    }
}

/// Where a query stands behind a part of a later round, before the round is settled.
proof fn lemma_part_reached<F: RowIdFilter>(
    state: BatchState,
    after: BatchState,
    stored: Stored,
    filter: Option<&F>,
    first: usize,
    ids: Seq<i64>,
    distances: Seq<u32>,
    query: usize,
)
    requires
        countable(stored, filter, state.automatic),
        state.phase == BatchPhase::Retry,
        reached(state, stored, filter, first),
        answered(state, stored, filter, ids, distances),
        query < state.query_count,
        after == (BatchState {
            ids: rows::scattered(
                state.ids,
                state.part(),
                ids,
                state.top_k as nat,
                state.part().len(),
            ),
            distances: rows::scattered(
                state.distances,
                state.part(),
                distances,
                state.top_k as nat,
                state.part().len(),
            ),
            searched: state.part_end() as usize,
            incomplete: state.incomplete + progressive::incomplete_of(
                state.part(),
                distances,
                state.top_k as nat,
                state.required_per_query as nat,
                state.part().len(),
            ),
            ..state
        }),
    ensures
        query_reached(after, stored, filter, terms_of(state), first, query),
{
    let k = state.top_k as nat;
    let required = state.required_per_query as nat;
    let terms = terms_of(state);
    let part = state.part();
    let fresh = progressive::incomplete_of(part, distances, k, required, part.len());
    let end = state.probe_end as nat;
    assert(query_reached(state, stored, filter, terms, first, query));
    progressive::law_only_searched_results_change(state, ids, distances, query);
    progressive::lemma_part_shape(state);
    progressive::lemma_incomplete_members(part, distances, k, required, part.len());
    assert(state.accepted(ids, distances).ids == after.ids);
    assert(state.accepted(ids, distances).distances == after.distances);
    if part.contains(query) {
        let j = choose|j: int| 0 <= j < part.len() && part[j] == query;
        assert(state.active[state.searched + j] == query);
        assert(pending(state, query));
        assert(!pending(after, query)) by {
            if pending(after, query) {
                let i = choose|i: int|
                    after.searched <= i < after.active.len() && #[trigger] after.active[i] == query;
                assert(state.active[state.searched + j] < state.active[i]);
            }
        }
        let seed_ids = rows::gathered(state.ids, part, k, part.len());
        let seed_distances = rows::gathered(state.distances, part, k, part.len());
        lemma_gathered_row(
            state.ids,
            part,
            state.query_count as nat,
            k,
            part.len(),
            j,
        );
        lemma_gathered_row(
            state.distances,
            part,
            state.query_count as nat,
            k,
            part.len(),
            j,
        );
        range_laws::lemma_rows_tell(stored, filter, query as int, end);
        assert(members(state)[j] == query);
        let own = rows::row(ids, j, k);
        assert(range_laws::stands_for(
            own,
            rows::row(distances, j, k),
            ivf_search::seeds_of(seed_ids, seed_distances, j, k) + stored.rows(
                filter,
                query as int,
                state.probe_start as nat,
                end,
            ),
            k,
        ));
        range_laws::lemma_seeded_round(
            stored,
            filter,
            query as int,
            state.probe_start as nat,
            end,
            seed_ids,
            seed_distances,
            j,
            part.len() as int,
            own,
            rows::row(distances, j, k),
            k,
        );
        assert(holds(after, stored, filter, query as int, end));
        lemma_complete_iff_enough(
            stored,
            filter,
            terms,
            query as int,
            end,
            own,
            rows::row(distances, j, k),
        );
        progressive::lemma_incomplete_complement(part, distances, k, required, part.len(), j);
        if fresh.contains(query) {
            let i = choose|i: int| 0 <= i < fresh.len() && fresh[i] == query;
            assert(after.incomplete[state.incomplete.len() + i] == query);
            assert(fresh[i] == part[j]);
        } else {
            assert(!after.incomplete.contains(query)) by {
                if after.incomplete.contains(query) {
                    let i = choose|i: int|
                        0 <= i < after.incomplete.len() && after.incomplete[i] == query;
                    if i < state.incomplete.len() {
                        assert(state.incomplete[i] < state.active[state.searched + j]);
                    } else {
                        assert(fresh[i - state.incomplete.len()] == query);
                    }
                }
            }
        }
    } else {
        assert(!fresh.contains(query)) by {
            if fresh.contains(query) {
                let i = choose|i: int| 0 <= i < fresh.len() && fresh[i] == query;
                let j = choose|j: int| 0 <= j < part.len() && part[j] == fresh[i];
                assert(part.contains(query));
            }
        }
        assert(pending(after, query) == pending(state, query)) by {
            if pending(state, query) {
                let i = choose|i: int|
                    state.searched <= i < state.active.len() && #[trigger] state.active[i] == query;
                if i < state.part_end() {
                    assert(part[i - state.searched] == query);
                }
                assert(after.active[i] == query);
            }
            if pending(after, query) {
                let i = choose|i: int|
                    after.searched <= i < after.active.len() && #[trigger] after.active[i] == query;
                assert(state.active[i] == query);
            }
        }
        assert(after.incomplete.contains(query) == state.incomplete.contains(query)) by {
            if state.incomplete.contains(query) {
                let i = choose|i: int|
                    0 <= i < state.incomplete.len() && state.incomplete[i] == query;
                assert(after.incomplete[i] == query);
            }
            if after.incomplete.contains(query) {
                let i = choose|i: int|
                    0 <= i < after.incomplete.len() && after.incomplete[i] == query;
                if i >= state.incomplete.len() {
                    assert(fresh[i - state.incomplete.len()] == query);
                }
            }
        }
    }
}

proof fn lemma_later_round<F: RowIdFilter>(
    state: BatchState,
    stored: Stored,
    filter: Option<&F>,
    first: usize,
    ids: Seq<i64>,
    distances: Seq<u32>,
)
    requires
        countable(stored, filter, state.automatic),
        state.phase == BatchPhase::Retry,
        reached(state, stored, filter, first),
        answered(state, stored, filter, ids, distances),
    ensures
        reached(state.accepted(ids, distances), stored, filter, first),
{
    let k = state.top_k as nat;
    let part = state.part();
    let merged = BatchState {
        ids: rows::scattered(state.ids, part, ids, k, part.len()),
        distances: rows::scattered(state.distances, part, distances, k, part.len()),
        searched: state.part_end() as usize,
        incomplete: state.incomplete + progressive::incomplete_of(
            part,
            distances,
            k,
            state.required_per_query as nat,
            part.len(),
        ),
        ..state
    };
    progressive::law_states_stay_sound(state, ids, distances);
    assert forall|query: usize| query < state.query_count implies #[trigger] query_reached(
        merged,
        stored,
        filter,
        terms_of(merged),
        first,
        query,
    ) by {
        lemma_part_reached(state, merged, stored, filter, first, ids, distances, query);
        assert(terms_of(merged) == terms_of(state));
    }
    if state.part_end() < state.active.len() {
        assert(state.accepted(ids, distances) == merged);
    } else {
        assert forall|query: usize| query < merged.query_count implies {
            let last = last_width(stored, filter, terms_of(merged), query as int, first);
            if #[trigger] merged.incomplete.contains(query) {
                &&& holds(merged, stored, filter, query as int, merged.probe_end as nat)
                &&& last == last_width(
                    stored,
                    filter,
                    terms_of(merged),
                    query as int,
                    merged.probe_end,
                )
                &&& !enough(
                    stored,
                    filter,
                    terms_of(merged),
                    query as int,
                    merged.probe_end as nat,
                )
            } else {
                holds(merged, stored, filter, query as int, last as nat)
            }
        } by {
            assert(query_reached(merged, stored, filter, terms_of(merged), first, query));
            assert(!pending(merged, query));
        }
        lemma_settled_reached(merged, merged.incomplete, stored, filter, first);
    }
}

/// A round that is answered leaves every query where it should stand.
pub proof fn lemma_round_reached<F: RowIdFilter>(
    state: BatchState,
    stored: Stored,
    filter: Option<&F>,
    first: usize,
    ids: Seq<i64>,
    distances: Seq<u32>,
)
    requires
        countable(stored, filter, state.automatic),
        reached(state, stored, filter, first),
        answered(state, stored, filter, ids, distances),
    ensures
        reached(state.accepted(ids, distances), stored, filter, first),
{
    if state.phase == BatchPhase::First && !state.automatic {
        lemma_only_round(state, stored, filter, first, ids, distances);
    } else if state.phase == BatchPhase::First {
        lemma_first_round(state, stored, filter, first, ids, distances);
    } else {
        lemma_later_round(state, stored, filter, first, ids, distances);
    }
}

/// The seeds of a round are comparable.
pub proof fn lemma_round_seeds<F: RowIdFilter>(
    state: BatchState,
    stored: Stored,
    filter: Option<&F>,
    first: usize,
)
    requires
        countable(stored, filter, state.automatic),
        reached(state, stored, filter, first),
        state.phase != BatchPhase::Done,
    ensures
        range_laws::seeds_comparable(
            state.next()->0.seed_ids,
            state.next()->0.seed_distances,
            members(state).len(),
            state.top_k as nat,
        ),
        forall|j: int|
            0 <= j < members(state).len() ==> #[trigger] members(state)[j] < stored.orders.len(),
{
    let k = state.top_k as nat;
    if state.phase == BatchPhase::Retry {
        let part = state.part();
        let ids = rows::gathered(state.ids, part, k, part.len());
        let distances = rows::gathered(state.distances, part, k, part.len());
        progressive::lemma_part_shape(state);
        assert forall|j: int| 0 <= j < part.len() implies top_k::comparable(
            #[trigger] ivf_search::seeds_of(ids, distances, j, k),
        ) by {
            let query = part[j];
            let earlier = stored.rows(filter, query as int, 0, state.probe_start as nat);
            assert(query_reached(state, stored, filter, terms_of(state), first, query));
            assert(state.active[state.searched + j] == query);
            assert(pending(state, query));
            lemma_gathered_row(state.ids, part, state.query_count as nat, k, part.len(), j);
            lemma_gathered_row(state.distances, part, state.query_count as nat, k, part.len(), j);
            range_laws::lemma_rows_tell(
                stored,
                filter,
                query as int,
                state.probe_start as nat,
            );
            range_laws::lemma_seeds_are_comparable(
                ids,
                distances,
                j,
                part.len() as int,
                earlier,
                k,
            );
        }
    }
}

/// Whether a batch search went from state to state, each round of it answered, up to its
/// end.
pub open spec fn batch_ran<F: RowIdFilter>(
    states: Seq<BatchState>,
    results: Seq<(Seq<i64>, Seq<u32>)>,
    stored: Stored,
    filter: Option<&F>,
) -> bool {
    &&& states.len() == results.len() + 1
    &&& forall|i: int|
        0 <= i < results.len() ==> {
            let (ids, distances) = #[trigger] results[i];
            &&& answered(states[i], stored, filter, ids, distances)
            &&& states[i + 1] == states[i].accepted(ids, distances)
        }
    &&& states.last().phase == BatchPhase::Done
}

proof fn lemma_states_reached<F: RowIdFilter>(
    states: Seq<BatchState>,
    results: Seq<(Seq<i64>, Seq<u32>)>,
    stored: Stored,
    filter: Option<&F>,
    n: int,
)
    requires
        countable(stored, filter, states[0].automatic),
        batch_ran(states, results, stored, filter),
        states[0].phase == BatchPhase::First,
        reached(states[0], stored, filter, states[0].probe_end),
        0 <= n < states.len(),
    ensures
        reached(states[n], stored, filter, states[0].probe_end),
        terms_of(states[n]) == terms_of(states[0]),
        states[n].query_count == states[0].query_count,
    decreases n,
{
    if n > 0 {
        lemma_states_reached(states, results, stored, filter, n - 1);
        let before = states[n - 1];
        let (ids, distances) = results[n - 1];
        assert(answered(before, stored, filter, ids, distances));
        lemma_round_reached(before, stored, filter, states[0].probe_end, ids, distances);
    }
}

/// Whether a batch search starts at a state that is sound for an index.
pub open spec fn batch_starts(state: BatchState, stored: Stored) -> bool {
    &&& state.wf()
    &&& state.phase == BatchPhase::First
    &&& state.nlist == stored.lists.len()
    &&& state.query_count == stored.orders.len()
    &&& state.probe_end <= state.nlist
}

/// A batch search ends with the nearest rows of the lists that each query goes through: as
/// many as the first round has, and where those do not have the rows that are required,
/// twice as many again and again, up to all.
pub proof fn law_batch_searches_hold_the_nearest<F: RowIdFilter>(
    states: Seq<BatchState>,
    results: Seq<(Seq<i64>, Seq<u32>)>,
    stored: Stored,
    filter: Option<&F>,
    query: int,
)
    requires
        countable(stored, filter, states[0].automatic),
        batch_ran(states, results, stored, filter),
        batch_starts(states[0], stored),
        0 <= query < stored.orders.len(),
    ensures
        holds(
            states.last(),
            stored,
            filter,
            query,
            last_width(stored, filter, terms_of(states[0]), query, states[0].probe_end) as nat,
        ),
        states.last().top_k == states[0].top_k,
        states.last().ids.len() == stored.orders.len() * states[0].top_k,
        states.last().distances.len() == stored.orders.len() * states[0].top_k,
{
    lemma_states_reached(states, results, stored, filter, states.len() - 1);
    let last = states.last();
    assert(query_reached(
        last,
        stored,
        filter,
        terms_of(last),
        states[0].probe_end,
        query as usize,
    ));
    lemma_done(states, results, stored, filter, states.len() - 1);
}

proof fn lemma_done<F: RowIdFilter>(
    states: Seq<BatchState>,
    results: Seq<(Seq<i64>, Seq<u32>)>,
    stored: Stored,
    filter: Option<&F>,
    n: int,
)
    requires
        batch_ran(states, results, stored, filter),
        0 < n < states.len(),
        states[n].phase == BatchPhase::Done,
    ensures
        states[n].active.len() == 0,
        states[n].incomplete.len() == 0,
{
    let (ids, distances) = results[n - 1];
    assert(answered(states[n - 1], stored, filter, ids, distances));
}

/// The terms of a search for one query.
pub open spec fn single_terms(search: ProgressiveSearch) -> Terms {
    Terms {
        automatic: search.automatic,
        nlist: search.nlist,
        required: search.required_per_query as nat,
        k: search.top_k as nat,
    }
}

/// Whether a search for one query went from round to round, each with the nearest rows of
/// its lists for a result, up to its end.
pub open spec fn search_ran<F: RowIdFilter>(
    searches: Seq<ProgressiveSearch>,
    results: Seq<(Seq<i64>, Seq<u32>)>,
    stored: Stored,
    filter: Option<&F>,
    query: int,
) -> bool {
    &&& searches.len() == results.len()
    &&& searches.len() > 0
    &&& forall|i: int|
        0 <= i < results.len() ==> {
            let (ids, distances) = #[trigger] results[i];
            let search = searches[i];
            &&& range_laws::stands_for(
                ids,
                distances,
                stored.rows(filter, query, 0, search.nprobe as nat),
                search.top_k as nat,
            )
            &&& search.ends_with(distances) == (i == results.len() - 1)
            &&& i < results.len() - 1 ==> searches[i + 1] == (ProgressiveSearch {
                nprobe: progressive::widened(search.nprobe, search.nlist),
                ..search
            })
        }
}

/// Whether a search for one query starts at a state that is sound for an index.
pub open spec fn search_starts(search: ProgressiveSearch, stored: Stored) -> bool {
    &&& search.wf()
    &&& search.query_count == 1
    &&& search.required_per_query <= search.top_k
    &&& search.nlist == stored.lists.len()
    &&& search.nprobe <= search.nlist
}

proof fn lemma_search_rounds<F: RowIdFilter>(
    searches: Seq<ProgressiveSearch>,
    results: Seq<(Seq<i64>, Seq<u32>)>,
    stored: Stored,
    filter: Option<&F>,
    query: int,
    n: int,
)
    requires
        countable(stored, filter, searches[0].automatic),
        0 <= query < stored.orders.len(),
        search_ran(searches, results, stored, filter, query),
        search_starts(searches[0], stored),
        0 <= n < searches.len(),
    ensures
        search_starts(searches[n], stored),
        single_terms(searches[n]) == single_terms(searches[0]),
        last_width(stored, filter, single_terms(searches[0]), query, searches[0].nprobe)
            == last_width(stored, filter, single_terms(searches[0]), query, searches[n].nprobe),
        searches[n].ends_with(results[n].1) ==> last_width(
            stored,
            filter,
            single_terms(searches[0]),
            query,
            searches[n].nprobe,
        ) == searches[n].nprobe,
        !searches[n].ends_with(results[n].1) ==> last_width(
            stored,
            filter,
            single_terms(searches[0]),
            query,
            searches[n].nprobe,
        ) == last_width(
            stored,
            filter,
            single_terms(searches[0]),
            query,
            progressive::widened(searches[n].nprobe, searches[n].nlist),
        ),
    decreases n,
{
    if n > 0 {
        lemma_search_rounds(searches, results, stored, filter, query, n - 1);
        let before = searches[n - 1];
        assert(results[n - 1].1 == results[n - 1].1);
        progressive::law_rounds_widen(before, results[n - 1].1);
    }
    let search = searches[n];
    let (ids, distances) = results[n];
    let terms = single_terms(search);
    range_laws::lemma_nearest_are_found(
        ids,
        distances,
        stored.rows(filter, query, 0, search.nprobe as nat),
        terms.k,
    );
    if search.automatic {
        lemma_complete_iff_enough(
            stored,
            filter,
            terms,
            query,
            search.nprobe as nat,
            ids,
            distances,
        );
        assert(distances.len() == terms.k);
        assert(rows::row(distances, 0, terms.k) =~= distances) by {
            assert(0 * terms.k == 0) by (nonlinear_arith);
        }
        assert(progressive::all_complete(distances, 1, terms.k, terms.required)
            == progressive::complete(distances, terms.required)) by {
            if progressive::complete(distances, terms.required) {
                assert forall|q: int| 0 <= q < 1 implies progressive::complete(
                    #[trigger] rows::row(distances, q, terms.k),
                    terms.required,
                ) by {
                    assert(q == 0);
                }
            } else {
                assert(!progressive::complete(rows::row(distances, 0, terms.k), terms.required));
            }
        }
    }
}

/// A search for one query ends with the nearest rows of the lists that a batch search goes
/// through for that query.
pub proof fn law_searches_hold_the_nearest<F: RowIdFilter>(
    searches: Seq<ProgressiveSearch>,
    results: Seq<(Seq<i64>, Seq<u32>)>,
    stored: Stored,
    filter: Option<&F>,
    query: int,
)
    requires
        countable(stored, filter, searches[0].automatic),
        0 <= query < stored.orders.len(),
        search_ran(searches, results, stored, filter, query),
        search_starts(searches[0], stored),
    ensures
        range_laws::stands_for(
            results.last().0,
            results.last().1,
            stored.rows(
                filter,
                query,
                0,
                last_width(
                    stored,
                    filter,
                    single_terms(searches[0]),
                    query,
                    searches[0].nprobe,
                ) as nat,
            ),
            searches[0].top_k as nat,
        ),
{
    let n = searches.len() - 1;
    lemma_search_rounds(searches, results, stored, filter, query, n);
    assert(results[n] == results.last());
}

} // verus!
