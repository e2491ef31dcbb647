//! A search with a filter finds only rows that the filter lets pass.
use vstd::prelude::*;
use crate::filter;
use crate::filter::RowIdFilter;
use crate::flat_scan;
use crate::float_bits;
use crate::float_bits::F32_MAX;
use crate::ivf_search;
use crate::ivf_search::{ListRows, ScannedList};
use crate::probes::ProbePlan;
use crate::search_laws;
use crate::sq_scan;
use crate::sq_search;
use crate::top_k;

verus! {

/// Whether entries have comparable distances and belong to rows that a filter lets pass.
pub open spec fn all_pass<F: RowIdFilter>(filter: Option<&F>, entries: Seq<(u32, i64)>) -> bool {
    &&& top_k::comparable(entries)
    &&& forall|i: int| 0 <= i < entries.len() ==> filter::passes(filter, (#[trigger] entries[i]).1)
}

/// Whether each place of a result has a row that a filter lets pass, or none.
pub open spec fn places_pass<F: RowIdFilter>(
    filter: Option<&F>,
    nearest: Seq<(u32, i64)>,
    k: nat,
) -> bool {
    forall|i: int|
        0 <= i < k ==> filter::passes(filter, #[trigger] top_k::padded_ids(nearest, k)[i]) || (
        top_k::padded_ids(nearest, k)[i] == -1 && top_k::padded_distances(nearest, k)[i] == F32_MAX)
}

proof fn lemma_concat<F: RowIdFilter>(
    filter: Option<&F>,
    a: Seq<(u32, i64)>,
    b: Seq<(u32, i64)>,
)
    requires
        all_pass(filter, a),
        all_pass(filter, b),
    ensures
        all_pass(filter, a + b),
{
    search_laws::lemma_comparable_concat(a, b);
    assert forall|i: int| 0 <= i < (a + b).len() implies filter::passes(
        filter,
        (#[trigger] (a + b)[i]).1,
    ) by {
        if i < a.len() {
            assert((a + b)[i] == a[i]);
        } else {
            assert((a + b)[i] == b[i - a.len()]);
        }
    }
}

proof fn lemma_passing<F: RowIdFilter>(filter: Option<&F>, ids: Seq<i64>, distances: Seq<u32>)
    requires
        top_k::comparable(top_k::passing(filter, ids, distances)),
    ensures
        all_pass(filter, top_k::passing(filter, ids, distances)),
    decreases ids.len(),
{
    if ids.len() > 0 {
        let before = top_k::passing(filter, ids.drop_last(), distances);
        let all = top_k::passing(filter, ids, distances);
        assert forall|i: int| 0 <= i < before.len() implies !float_bits::f32_nan(
            #[trigger] before[i].0,
        ) by {
            assert(all[i] == before[i]);
        }
        lemma_passing(filter, ids.drop_last(), distances);
    }
}

proof fn lemma_result<F: RowIdFilter>(filter: Option<&F>, offered: Seq<(u32, i64)>, k: nat)
    requires
        all_pass(filter, offered),
        k <= usize::MAX,
    ensures
        all_pass(filter, top_k::result_of(k, offered)),
        places_pass(filter, top_k::result_of(k, offered), k),
{
    let nearest = top_k::result_of(k, offered);
    search_laws::lemma_result_comparable(k, offered);
    assert forall|i: int| 0 <= i < nearest.len() implies filter::passes(
        filter,
        (#[trigger] nearest[i]).1,
    ) by {
        assert(offered.contains(nearest[i]));
        let j = choose|j: int| 0 <= j < offered.len() && offered[j] == nearest[i];
        assert(filter::passes(filter, offered[j].1));
    }
    assert forall|i: int| 0 <= i < k implies filter::passes(
        filter,
        #[trigger] top_k::padded_ids(nearest, k)[i],
    ) || (top_k::padded_ids(nearest, k)[i] == -1 && top_k::padded_distances(nearest, k)[i]
        == F32_MAX) by {
        if i < nearest.len() {
            assert(filter::passes(filter, nearest[i].1));
        }
    }
}

proof fn lemma_list_offer<F: RowIdFilter>(
    filter: Option<&F>,
    ids: Seq<i64>,
    distances: Seq<u32>,
    k: nat,
    apart: bool,
)
    requires
        top_k::rows_comparable(filter, ids, distances),
        k <= usize::MAX,
    ensures
        all_pass(filter, flat_scan::list_offer(filter, ids, distances, k, apart)),
{
    lemma_passing(filter, ids, distances);
    lemma_result(filter, top_k::passing(filter, ids, distances), k);
}

proof fn lemma_lists_offer<F: RowIdFilter>(
    lists: Seq<ScannedList>,
    filter: Option<&F>,
    k: nat,
    apart: bool,
    start: int,
    end: int,
)
    requires
        0 <= start <= end <= lists.len(),
        ivf_search::all_comparable(lists, filter),
        k <= usize::MAX,
    ensures
        all_pass(filter, flat_scan::lists_offer(lists, filter, k, apart, start, end)),
    decreases end - start,
{
    if start < end {
        lemma_lists_offer(lists, filter, k, apart, start, end - 1);
        let list = lists[end - 1];
        lemma_list_offer(filter, list.ids@, list.distances@, k, apart);
        lemma_concat(
            filter,
            flat_scan::lists_offer(lists, filter, k, apart, start, end - 1),
            flat_scan::list_offer(filter, list.ids@, list.distances@, k, apart),
        );
    }
}

proof fn lemma_batches_offer<F: RowIdFilter>(
    lists: Seq<ScannedList>,
    ends: Seq<usize>,
    filter: Option<&F>,
    k: nat,
    d: nat,
    n: nat,
)
    requires
        n <= ends.len(),
        ivf_search::batches_cover(ends, lists.len()),
        ivf_search::all_comparable(lists, filter),
        k <= usize::MAX,
    ensures
        0 <= ivf_search::batch_start(ends, n as int) <= lists.len(),
        all_pass(filter, flat_scan::batches_offer(lists, ends, filter, k, d, n)),
    decreases n,
{
    if n > 0 {
        lemma_batches_offer(lists, ends, filter, k, d, (n - 1) as nat);
        let start = ivf_search::batch_start(ends, n - 1);
        let end = ends[n - 1] as int;
        let apart = flat_scan::apart(flat_scan::row_count(lists, start, end), end - start, d);
        lemma_lists_offer(lists, filter, k, apart, start, end);
        lemma_concat(
            filter,
            flat_scan::batches_offer(lists, ends, filter, k, d, (n - 1) as nat),
            flat_scan::lists_offer(lists, filter, k, apart, start, end),
        );
    }
}

/// Every row that a search for one query in an IVF-FLAT index finds passes the filter.
pub proof fn law_flat_search_finds_rows_that_pass<F: RowIdFilter>(
    lists: Seq<ScannedList>,
    ends: Seq<usize>,
    filter: Option<&F>,
    k: nat,
    d: nat,
)
    requires
        ivf_search::batches_cover(ends, lists.len()),
        ivf_search::all_comparable(lists, filter),
        k <= usize::MAX,
    ensures
        places_pass(
            filter,
            top_k::result_of(k, flat_scan::batches_offer(lists, ends, filter, k, d, ends.len())),
            k,
        ),
{
    lemma_batches_offer(lists, ends, filter, k, d, ends.len());
    lemma_result(filter, flat_scan::batches_offer(lists, ends, filter, k, d, ends.len()), k);
}

/// Whether the rows of the lists that a query probes have comparable distances from it.
pub open spec fn query_comparable<F: RowIdFilter>(
    plan: &ProbePlan,
    rows: Seq<ListRows>,
    filter: Option<&F>,
    query: int,
) -> bool {
    forall|p: int|
        0 <= p < rows.len() && plan.queries@[plan.lists@[p] as int]@.contains(query as usize)
            ==> top_k::rows_comparable(
            filter,
            (#[trigger] rows[p]).ids@,
            rows[p].distances@[query]@,
        )
}

proof fn lemma_visits<F: RowIdFilter>(
    visitors: Seq<usize>,
    filter: Option<&F>,
    query: int,
    entries: Seq<(u32, i64)>,
    n: nat,
)
    requires
        n <= visitors.len(),
        0 <= query <= usize::MAX,
        visitors.contains(query as usize) ==> all_pass(filter, entries),
    ensures
        all_pass(filter, ivf_search::visit_entries(visitors, query, entries, n)),
    decreases n,
{
    if n > 0 {
        lemma_visits(visitors, filter, query, entries, (n - 1) as nat);
        if visitors[n - 1] == query {
            assert(visitors.contains(query as usize));
            lemma_concat(
                filter,
                ivf_search::visit_entries(visitors, query, entries, (n - 1) as nat),
                entries,
            );
        }
    }
}

proof fn lemma_plan_offer<F: RowIdFilter>(
    plan: &ProbePlan,
    rows: Seq<ListRows>,
    filter: Option<&F>,
    k: nat,
    apart: bool,
    query: int,
    start: int,
    end: int,
)
    requires
        0 <= start <= end <= rows.len(),
        0 <= query <= usize::MAX,
        query_comparable(plan, rows, filter, query),
        k <= usize::MAX,
    ensures
        all_pass(filter, flat_scan::plan_offer(plan, rows, filter, k, apart, query, start, end)),
    decreases end - start,
{
    if start < end {
        lemma_plan_offer(plan, rows, filter, k, apart, query, start, end - 1);
        let visitors = plan.queries@[plan.lists@[end - 1] as int]@;
        let ids = rows[end - 1].ids@;
        let distances = rows[end - 1].distances@[query]@;
        let offer = flat_scan::list_offer(filter, ids, distances, k, apart);
        if visitors.contains(query as usize) {
            lemma_list_offer(filter, ids, distances, k, apart);
        }
        lemma_visits(visitors, filter, query, offer, visitors.len());
        lemma_concat(
            filter,
            flat_scan::plan_offer(plan, rows, filter, k, apart, query, start, end - 1),
            ivf_search::visit_entries(visitors, query, offer, visitors.len()),
        );
    }
}

proof fn lemma_plan_batches_offer<F: RowIdFilter>(
    plan: &ProbePlan,
    rows: Seq<ListRows>,
    ends: Seq<usize>,
    filter: Option<&F>,
    k: nat,
    d: nat,
    query: int,
    n: nat,
)
    requires
        n <= ends.len(),
        0 <= query <= usize::MAX,
        ivf_search::batches_cover(ends, rows.len()),
        query_comparable(plan, rows, filter, query),
        k <= usize::MAX,
    ensures
        0 <= ivf_search::batch_start(ends, n as int) <= rows.len(),
        all_pass(filter, flat_scan::plan_batches_offer(plan, rows, ends, filter, k, d, query, n)),
    decreases n,
{
    if n > 0 {
        lemma_plan_batches_offer(plan, rows, ends, filter, k, d, query, (n - 1) as nat);
        let start = ivf_search::batch_start(ends, n - 1);
        let end = ends[n - 1] as int;
        let apart = flat_scan::apart(
            flat_scan::visit_count(plan, rows, start, end),
            end - start,
            d,
        );
        lemma_plan_offer(plan, rows, filter, k, apart, query, start, end);
        lemma_concat(
            filter,
            flat_scan::plan_batches_offer(plan, rows, ends, filter, k, d, query, (n - 1) as nat),
            flat_scan::plan_offer(plan, rows, filter, k, apart, query, start, end),
        );
    }
}

/// Every row that a batch of an IVF-FLAT index finds for a query passes the filter, where the
/// rows that the query was seeded with do.
pub proof fn law_flat_batch_finds_rows_that_pass<F: RowIdFilter>(
    plan: &ProbePlan,
    rows: Seq<ListRows>,
    ends: Seq<usize>,
    filter: Option<&F>,
    seeds: Seq<(u32, i64)>,
    k: nat,
    d: nat,
    query: int,
)
    requires
        0 <= query <= usize::MAX,
        ivf_search::batches_cover(ends, rows.len()),
        query_comparable(plan, rows, filter, query),
        all_pass(filter, seeds),
        k <= usize::MAX,
    ensures
        places_pass(
            filter,
            top_k::result_of(
                k,
                seeds + flat_scan::plan_batches_offer(
                    plan,
                    rows,
                    ends,
                    filter,
                    k,
                    d,
                    query,
                    ends.len(),
                ),
            ),
            k,
        ),
{
    let offer = flat_scan::plan_batches_offer(plan, rows, ends, filter, k, d, query, ends.len());
    lemma_plan_batches_offer(plan, rows, ends, filter, k, d, query, ends.len());
    lemma_concat(filter, seeds, offer);
    lemma_result(filter, seeds + offer, k);
}

/// Whether the rows of each list have comparable distances.
pub open spec fn measured_comparable<F: RowIdFilter>(
    lists: Seq<(Seq<i64>, Seq<u32>)>,
    filter: Option<&F>,
) -> bool {
    forall|i: int|
        0 <= i < lists.len() ==> top_k::rows_comparable(
            filter,
            (#[trigger] lists[i]).0,
            lists[i].1,
        )
}

proof fn lemma_together<F: RowIdFilter>(
    lists: Seq<(Seq<i64>, Seq<u32>)>,
    filter: Option<&F>,
    start: int,
    end: int,
)
    requires
        0 <= start <= end <= lists.len(),
        measured_comparable(lists, filter),
    ensures
        all_pass(filter, sq_scan::together(lists, filter, start, end)),
    decreases end - start,
{
    if start < end {
        lemma_together(lists, filter, start, end - 1);
        let (ids, distances) = lists[end - 1];
        lemma_passing(filter, ids, distances);
        lemma_concat(
            filter,
            sq_scan::together(lists, filter, start, end - 1),
            top_k::passing(filter, ids, distances),
        );
    }
}

proof fn lemma_below<F: RowIdFilter>(
    filter: Option<&F>,
    limit: Option<u32>,
    entries: Seq<(u32, i64)>,
)
    requires
        all_pass(filter, entries),
    ensures
        all_pass(filter, sq_scan::below(limit, entries)),
    decreases entries.len(),
{
    search_laws::lemma_below_comparable(limit, entries);
    if entries.len() > 0 {
        let rest = entries.drop_last();
        assert forall|i: int| 0 <= i < rest.len() implies filter::passes(
            filter,
            (#[trigger] rest[i]).1,
        ) && !float_bits::f32_nan(rest[i].0) by {
            assert(rest[i] == entries[i]);
        }
        lemma_below(filter, limit, rest);
        assert(filter::passes(filter, entries[entries.len() - 1].1));
    }
}

proof fn lemma_apart<F: RowIdFilter>(
    lists: Seq<(Seq<i64>, Seq<u32>)>,
    filter: Option<&F>,
    k: nat,
    limit: Option<u32>,
    start: int,
    end: int,
)
    requires
        0 <= start <= end <= lists.len(),
        measured_comparable(lists, filter),
        k <= usize::MAX,
    ensures
        all_pass(filter, sq_scan::apart(lists, filter, k, limit, start, end)),
    decreases end - start,
{
    if start < end {
        lemma_apart(lists, filter, k, limit, start, end - 1);
        let (ids, distances) = lists[end - 1];
        let near = sq_scan::below(limit, top_k::passing(filter, ids, distances));
        lemma_passing(filter, ids, distances);
        lemma_below(filter, limit, top_k::passing(filter, ids, distances));
        lemma_result(filter, near, k);
        lemma_concat(
            filter,
            sq_scan::apart(lists, filter, k, limit, start, end - 1),
            top_k::result_of(k, near),
        );
    }
}

proof fn lemma_offered<F: RowIdFilter>(
    lists: Seq<(Seq<i64>, Seq<u32>)>,
    ends: Seq<usize>,
    filter: Option<&F>,
    k: nat,
    seeds: Seq<(u32, i64)>,
    n: nat,
)
    requires
        n <= ends.len(),
        ivf_search::batches_cover(ends, lists.len()),
        measured_comparable(lists, filter),
        all_pass(filter, seeds),
        k <= usize::MAX,
    ensures
        0 <= ivf_search::batch_start(ends, n as int) <= lists.len(),
        all_pass(filter, sq_scan::offered(lists, ends, filter, k, seeds, n)),
    decreases n,
{
    if n > 0 {
        lemma_offered(lists, ends, filter, k, seeds, (n - 1) as nat);
        let before = sq_scan::offered(lists, ends, filter, k, seeds, (n - 1) as nat);
        let start = ivf_search::batch_start(ends, n - 1);
        let end = ends[n - 1] as int;
        lemma_together(lists, filter, start, end);
        if start < end {
            let (ids, distances) = lists[start];
            let first = top_k::passing(filter, ids, distances);
            let limit = sq_scan::distance_limit(
                k,
                top_k::after_pushes(k, Seq::empty(), before + first),
            );
            lemma_passing(filter, ids, distances);
            lemma_apart(lists, filter, k, limit, start + 1, end);
            lemma_concat(
                filter,
                first,
                sq_scan::apart(lists, filter, k, limit, start + 1, end),
            );
        }
        lemma_concat(
            filter,
            before,
            sq_scan::batch_offer(lists, filter, k, before, start, end),
        );
    }
}

/// Every row that a search for one query in an IVF-SQ index finds passes the filter, where
/// the rows that it was seeded with do.
pub proof fn law_sq_search_finds_rows_that_pass<F: RowIdFilter>(
    lists: Seq<(Seq<i64>, Seq<u32>)>,
    ends: Seq<usize>,
    filter: Option<&F>,
    seeds: Seq<(u32, i64)>,
    k: nat,
)
    requires
        ivf_search::batches_cover(ends, lists.len()),
        measured_comparable(lists, filter),
        all_pass(filter, seeds),
        k <= usize::MAX,
    ensures
        places_pass(
            filter,
            top_k::result_of(k, sq_scan::offered(lists, ends, filter, k, seeds, ends.len())),
            k,
        ),
{
    lemma_offered(lists, ends, filter, k, seeds, ends.len());
    lemma_result(filter, sq_scan::offered(lists, ends, filter, k, seeds, ends.len()), k);
}

/// Whether the rows of the lists that a query probes have comparable distances from it.
pub open spec fn probes_comparable<F: RowIdFilter>(
    probed: Seq<usize>,
    lists: Seq<usize>,
    rows: Seq<ListRows>,
    filter: Option<&F>,
    query: int,
) -> bool {
    &&& rows.len() == lists.len()
    &&& forall|p: int|
        0 <= p < rows.len() && probed.contains(lists[p]) ==> top_k::rows_comparable(
            filter,
            (#[trigger] rows[p]).ids@,
            rows[p].distances@[query]@,
        )
}

proof fn lemma_probe_entries<F: RowIdFilter>(
    probed: Seq<usize>,
    lists: Seq<usize>,
    rows: Seq<ListRows>,
    filter: Option<&F>,
    query: int,
    start: int,
    end: int,
    n: nat,
)
    requires
        n <= probed.len(),
        0 <= start <= end <= lists.len(),
        probes_comparable(probed, lists, rows, filter, query),
    ensures
        all_pass(
            filter,
            sq_search::probe_entries(probed, lists, rows, filter, query, start, end, n),
        ),
    decreases n,
{
    if n > 0 {
        lemma_probe_entries(probed, lists, rows, filter, query, start, end, (n - 1) as nat);
        lemma_place_found(lists, probed[n - 1], start, end);
        if let Some(place) = sq_search::place_in(lists, probed[n - 1], start, end) {
            assert(probed.contains(lists[place]));
            let ids = rows[place].ids@;
            let distances = rows[place].distances@[query]@;
            lemma_passing(filter, ids, distances);
            lemma_concat(
                filter,
                sq_search::probe_entries(
                    probed,
                    lists,
                    rows,
                    filter,
                    query,
                    start,
                    end,
                    (n - 1) as nat,
                ),
                top_k::passing(filter, ids, distances),
            );
        }
    }
}

proof fn lemma_place_found(lists: Seq<usize>, list_id: usize, start: int, end: int)
    requires
        0 <= start <= end <= lists.len(),
    ensures
        sq_search::place_in(lists, list_id, start, end) matches Some(place) ==> start <= place < end
            && lists[place] == list_id,
    decreases end - start,
{
    if start < end {
        lemma_place_found(lists, list_id, start, end - 1);
    }
}

proof fn lemma_batched_entries<F: RowIdFilter>(
    probed: Seq<usize>,
    lists: Seq<usize>,
    rows: Seq<ListRows>,
    ends: Seq<usize>,
    filter: Option<&F>,
    query: int,
    n: nat,
)
    requires
        n <= ends.len(),
        ivf_search::batches_cover(ends, lists.len()),
        probes_comparable(probed, lists, rows, filter, query),
    ensures
        0 <= ivf_search::batch_start(ends, n as int) <= lists.len(),
        all_pass(
            filter,
            sq_search::batched_entries(probed, lists, rows, ends, filter, query, n),
        ),
    decreases n,
{
    if n > 0 {
        lemma_batched_entries(probed, lists, rows, ends, filter, query, (n - 1) as nat);
        let start = ivf_search::batch_start(ends, n - 1);
        let end = ends[n - 1] as int;
        lemma_probe_entries(probed, lists, rows, filter, query, start, end, probed.len());
        lemma_concat(
            filter,
            sq_search::batched_entries(probed, lists, rows, ends, filter, query, (n - 1) as nat),
            sq_search::probe_entries(
                probed,
                lists,
                rows,
                filter,
                query,
                start,
                end,
                probed.len(),
            ),
        );
    }
}

/// Every row that a batch of an IVF-SQ index finds for a query passes the filter, where the
/// rows that the query was seeded with do.
pub proof fn law_sq_batch_finds_rows_that_pass<F: RowIdFilter>(
    probed: Seq<usize>,
    lists: Seq<usize>,
    rows: Seq<ListRows>,
    ends: Seq<usize>,
    filter: Option<&F>,
    seeds: Seq<(u32, i64)>,
    query: int,
    k: nat,
)
    requires
        ivf_search::batches_cover(ends, lists.len()),
        probes_comparable(probed, lists, rows, filter, query),
        all_pass(filter, seeds),
        k <= usize::MAX,
    ensures
        places_pass(
            filter,
            top_k::result_of(
                k,
                seeds + sq_search::batched_entries(
                    probed,
                    lists,
                    rows,
                    ends,
                    filter,
                    query,
                    ends.len(),
                ),
            ),
            k,
        ),
{
    let offered = sq_search::batched_entries(probed, lists, rows, ends, filter, query, ends.len());
    lemma_batched_entries(probed, lists, rows, ends, filter, query, ends.len());
    lemma_concat(filter, seeds, offered);
    lemma_result(filter, seeds + offered, k);
}

} // verus!
