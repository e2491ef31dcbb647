//! Rows whose distances are numbers can be ordered.
use vstd::prelude::*;
use crate::filter::{RoaringFilter, RowIdFilter};
use crate::flat_scan;
use crate::flat_search;
use crate::ivf_search;
use crate::ivf_search::{ListRows, ScannedList};
use crate::probes;
use crate::probes::ProbePlan;
use crate::search_laws;
use crate::sq_scan;
use crate::sq_search;
use crate::top_k;

verus! {

proof fn lemma_list_offer<F: RowIdFilter>(
    filter: Option<&F>,
    ids: Seq<i64>,
    distances: Seq<u32>,
    k: nat,
    apart: bool,
)
    requires
        top_k::rows_comparable(filter, ids, distances),
        k <= usize::MAX,
    ensures
        top_k::comparable(flat_scan::list_offer(filter, ids, distances, k, apart)),
{
    if apart {
        search_laws::lemma_result_comparable(k, top_k::passing(filter, ids, distances));
    }
}

proof fn lemma_lists_offer<F: RowIdFilter>(
    lists: Seq<ScannedList>,
    filter: Option<&F>,
    k: nat,
    apart: bool,
    start: int,
    end: int,
)
    requires
        0 <= start,
        end <= lists.len(),
        ivf_search::all_comparable(lists, filter),
        k <= usize::MAX,
    ensures
        top_k::comparable(flat_scan::lists_offer(lists, filter, k, apart, start, end)),
    decreases end - start,
{
    if start < end {
        let list = lists[end - 1];
        lemma_lists_offer(lists, filter, k, apart, start, end - 1);
        lemma_list_offer(filter, list.ids@, list.distances@, k, apart);
        search_laws::lemma_comparable_concat(
            flat_scan::lists_offer(lists, filter, k, apart, start, end - 1),
            flat_scan::list_offer(filter, list.ids@, list.distances@, k, apart),
        );
    }
}

proof fn lemma_batches_offer<F: RowIdFilter>(
    lists: Seq<ScannedList>,
    ends: Seq<usize>,
    filter: Option<&F>,
    k: nat,
    d: nat,
    n: nat,
)
    requires
        n <= ends.len(),
        ivf_search::batches_cover(ends, lists.len()),
        ivf_search::all_comparable(lists, filter),
        k <= usize::MAX,
    ensures
        top_k::comparable(flat_scan::batches_offer(lists, ends, filter, k, d, n)),
    decreases n,
{
    if n > 0 {
        let start = ivf_search::batch_start(ends, n - 1);
        let end = ends[n - 1] as int;
        let apart = flat_scan::apart(flat_scan::row_count(lists, start, end), end - start, d);
        lemma_batches_offer(lists, ends, filter, k, d, (n - 1) as nat);
        lemma_lists_offer(lists, filter, k, apart, start, end);
        search_laws::lemma_comparable_concat(
            flat_scan::batches_offer(lists, ends, filter, k, d, (n - 1) as nat),
            flat_scan::lists_offer(lists, filter, k, apart, start, end),
        );
    }
}

/// Lists of an IVF-FLAT index can be searched if the rows that pass the filter have numbers
/// for distances.
pub proof fn law_flat_numbers_are_searchable<F: RowIdFilter>(
    lists: Seq<ScannedList>,
    ends: Seq<usize>,
    filter: Option<&F>,
    k: nat,
    d: nat,
)
    requires
        ivf_search::batches_cover(ends, lists.len()),
        ivf_search::all_comparable(lists, filter),
        k <= usize::MAX,
    ensures
        flat_search::searchable(lists, ends, filter, k, d),
{
    lemma_batches_offer(lists, ends, filter, k, d, ends.len());
    assert forall|b: int| 0 <= b < ends.len() implies #[trigger] flat_scan::batch_orders(
        lists,
        ends,
        filter,
        k,
        d,
        b,
    ) by {
        let start = ivf_search::batch_start(ends, b);
        assert(b > 0 ==> 0 <= ends[b - 1]);
        assert forall|i: int| start <= i < ends[b] implies top_k::orderable(
            k,
            top_k::passing(filter, (#[trigger] lists[i]).ids@, lists[i].distances@),
        ) by {
            assert(top_k::rows_comparable(filter, lists[i].ids@, lists[i].distances@));
        }
    }
}

/// Whether the rows of the lists that a query probes have numbers for distances.
pub open spec fn probed_comparable<F: RowIdFilter>(
    plan: &ProbePlan,
    rows: Seq<ListRows>,
    filter: Option<&F>,
    query: int,
) -> bool {
    forall|p: int|
        0 <= p < rows.len() && plan.queries@[plan.lists@[p] as int]@.contains(query as usize)
            ==> top_k::rows_comparable(
            filter,
            (#[trigger] rows[p]).ids@,
            rows[p].distances@[query]@,
        )
}

proof fn lemma_visit_entries(visitors: Seq<usize>, query: int, entries: Seq<(u32, i64)>, n: nat)
    requires
        0 <= query <= usize::MAX,
        n <= visitors.len(),
        visitors.contains(query as usize) ==> top_k::comparable(entries),
    ensures
        top_k::comparable(ivf_search::visit_entries(visitors, query, entries, n)),
    decreases n,
{
    if n > 0 {
        lemma_visit_entries(visitors, query, entries, (n - 1) as nat);
        if visitors[n - 1] == query {
            assert(visitors.contains(query as usize));
            search_laws::lemma_comparable_concat(
                ivf_search::visit_entries(visitors, query, entries, (n - 1) as nat),
                entries,
            );
        }
    }
}

proof fn lemma_plan_offer<F: RowIdFilter>(
    plan: &ProbePlan,
    rows: Seq<ListRows>,
    filter: Option<&F>,
    k: nat,
    apart: bool,
    query: int,
    start: int,
    end: int,
)
    requires
        0 <= start,
        end <= rows.len(),
        0 <= query <= usize::MAX,
        probed_comparable(plan, rows, filter, query),
        k <= usize::MAX,
    ensures
        top_k::comparable(flat_scan::plan_offer(plan, rows, filter, k, apart, query, start, end)),
    decreases end - start,
{
    if start < end {
        let visitors = plan.queries@[plan.lists@[end - 1] as int]@;
        let list = rows[end - 1];
        let offer = flat_scan::list_offer(filter, list.ids@, list.distances@[query]@, k, apart);
        lemma_plan_offer(plan, rows, filter, k, apart, query, start, end - 1);
        if visitors.contains(query as usize) {
            lemma_list_offer(filter, list.ids@, list.distances@[query]@, k, apart);
        }
        lemma_visit_entries(visitors, query, offer, visitors.len());
        search_laws::lemma_comparable_concat(
            flat_scan::plan_offer(plan, rows, filter, k, apart, query, start, end - 1),
            ivf_search::visit_entries(visitors, query, offer, visitors.len()),
        );
    }
}

proof fn lemma_plan_batches_offer<F: RowIdFilter>(
    plan: &ProbePlan,
    rows: Seq<ListRows>,
    ends: Seq<usize>,
    filter: Option<&F>,
    k: nat,
    d: nat,
    query: int,
    n: nat,
)
    requires
        n <= ends.len(),
        0 <= query <= usize::MAX,
        ivf_search::batches_cover(ends, rows.len()),
        probed_comparable(plan, rows, filter, query),
        k <= usize::MAX,
    ensures
        top_k::comparable(
            flat_scan::plan_batches_offer(plan, rows, ends, filter, k, d, query, n),
        ),
    decreases n,
{
    if n > 0 {
        let start = ivf_search::batch_start(ends, n - 1);
        let end = ends[n - 1] as int;
        let apart = flat_scan::apart(
            flat_scan::visit_count(plan, rows, start, end),
            end - start,
            d,
        );
        lemma_plan_batches_offer(plan, rows, ends, filter, k, d, query, (n - 1) as nat);
        lemma_plan_offer(plan, rows, filter, k, apart, query, start, end);
        search_laws::lemma_comparable_concat(
            flat_scan::plan_batches_offer(
                plan,
                rows,
                ends,
                filter,
                k,
                d,
                query,
                (n - 1) as nat,
            ),
            flat_scan::plan_offer(plan, rows, filter, k, apart, query, start, end),
        );
    }
}

/// The rows of the lists of a plan can be ordered for a query if the seeds, and the rows that
/// pass the filter and that the query comes to, have numbers for distances.
pub proof fn law_flat_batch_numbers_can_be_ordered<F: RowIdFilter>(
    plan: &ProbePlan,
    rows: Seq<ListRows>,
    ends: Seq<usize>,
    filter: Option<&F>,
    k: nat,
    d: nat,
    query: int,
    seeds: Seq<(u32, i64)>,
)
    requires
        0 <= query <= usize::MAX,
        ivf_search::batches_cover(ends, rows.len()),
        probed_comparable(plan, rows, filter, query),
        top_k::comparable(seeds),
        k <= usize::MAX,
    ensures
        flat_scan::plan_orders(plan, rows, ends, filter, k, d, query, seeds),
{
    lemma_plan_batches_offer(plan, rows, ends, filter, k, d, query, ends.len());
    search_laws::lemma_comparable_concat(
        seeds,
        flat_scan::plan_batches_offer(plan, rows, ends, filter, k, d, query, ends.len()),
    );
    assert forall|b: int| 0 <= b < ends.len() implies #[trigger] flat_scan::plan_batch_orders(
        plan,
        rows,
        ends,
        filter,
        k,
        d,
        query,
        b,
    ) by {
        let start = ivf_search::batch_start(ends, b);
        assert(b > 0 ==> 0 <= ends[b - 1]);
        assert forall|p: int|
            start <= p < ends[b] && plan.queries@[plan.lists@[p] as int]@.contains(
                query as usize,
            ) implies top_k::orderable(
            k,
            top_k::passing(filter, (#[trigger] rows[p]).ids@, rows[p].distances@[query]@),
        ) by {
            assert(top_k::rows_comparable(filter, rows[p].ids@, rows[p].distances@[query]@));
        }
    }
}

/// Whether the rows of lists that pass a filter have numbers for distances.
pub open spec fn lists_comparable<F: RowIdFilter>(
    lists: Seq<(Seq<i64>, Seq<u32>)>,
    filter: Option<&F>,
) -> bool {
    forall|i: int|
        0 <= i < lists.len() ==> top_k::rows_comparable(
            filter,
            (#[trigger] lists[i]).0,
            lists[i].1,
        )
}

proof fn lemma_together<F: RowIdFilter>(
    lists: Seq<(Seq<i64>, Seq<u32>)>,
    filter: Option<&F>,
    start: int,
    end: int,
)
    requires
        0 <= start,
        end <= lists.len(),
        lists_comparable(lists, filter),
    ensures
        top_k::comparable(sq_scan::together(lists, filter, start, end)),
    decreases end - start,
{
    if start < end {
        lemma_together(lists, filter, start, end - 1);
        assert(top_k::rows_comparable(filter, lists[end - 1].0, lists[end - 1].1));
        search_laws::lemma_comparable_concat(
            sq_scan::together(lists, filter, start, end - 1),
            top_k::passing(filter, lists[end - 1].0, lists[end - 1].1),
        );
    }
}

proof fn lemma_apart<F: RowIdFilter>(
    lists: Seq<(Seq<i64>, Seq<u32>)>,
    filter: Option<&F>,
    k: nat,
    limit: Option<u32>,
    start: int,
    end: int,
)
    requires
        0 <= start,
        end <= lists.len(),
        lists_comparable(lists, filter),
        k <= usize::MAX,
    ensures
        top_k::comparable(sq_scan::apart(lists, filter, k, limit, start, end)),
    decreases end - start,
{
    if start < end {
        let rows = top_k::passing(filter, lists[end - 1].0, lists[end - 1].1);
        lemma_apart(lists, filter, k, limit, start, end - 1);
        assert(top_k::rows_comparable(filter, lists[end - 1].0, lists[end - 1].1));
        search_laws::lemma_below_comparable(limit, rows);
        search_laws::lemma_result_comparable(k, sq_scan::below(limit, rows));
        search_laws::lemma_comparable_concat(
            sq_scan::apart(lists, filter, k, limit, start, end - 1),
            top_k::result_of(k, sq_scan::below(limit, rows)),
        );
    }
}

proof fn lemma_offered<F: RowIdFilter>(
    lists: Seq<(Seq<i64>, Seq<u32>)>,
    ends: Seq<usize>,
    filter: Option<&F>,
    k: nat,
    seeds: Seq<(u32, i64)>,
    n: nat,
)
    requires
        n <= ends.len(),
        ivf_search::batches_cover(ends, lists.len()),
        lists_comparable(lists, filter),
        top_k::comparable(seeds),
        k <= usize::MAX,
    ensures
        top_k::comparable(sq_scan::offered(lists, ends, filter, k, seeds, n)),
    decreases n,
{
    if n > 0 {
        let start = ivf_search::batch_start(ends, n - 1);
        let end = ends[n - 1] as int;
        let before = sq_scan::offered(lists, ends, filter, k, seeds, (n - 1) as nat);
        let offer = sq_scan::batch_offer(lists, filter, k, before, start, end);
        lemma_offered(lists, ends, filter, k, seeds, (n - 1) as nat);
        lemma_together(lists, filter, start, end);
        if start < end {
            let first = top_k::passing(filter, lists[start].0, lists[start].1);
            let limit = sq_scan::distance_limit(
                k,
                top_k::after_pushes(k, Seq::empty(), before + first),
            );
            assert(top_k::rows_comparable(filter, lists[start].0, lists[start].1));
            lemma_apart(lists, filter, k, limit, start + 1, end);
            search_laws::lemma_comparable_concat(
                first,
                sq_scan::apart(lists, filter, k, limit, start + 1, end),
            );
        }
        search_laws::lemma_comparable_concat(before, offer);
    }
}

/// The rows of lists of an IVF-SQ index can be ordered if the seeds, and the rows that pass
/// the filter, have numbers for distances.
pub proof fn law_sq_numbers_can_be_ordered<F: RowIdFilter>(
    lists: Seq<(Seq<i64>, Seq<u32>)>,
    ends: Seq<usize>,
    filter: Option<&F>,
    k: nat,
    seeds: Seq<(u32, i64)>,
)
    requires
        ivf_search::batches_cover(ends, lists.len()),
        lists_comparable(lists, filter),
        top_k::comparable(seeds),
        k <= usize::MAX,
    ensures
        sq_scan::batches_order(lists, ends, filter, k, seeds),
{
    lemma_offered(lists, ends, filter, k, seeds, ends.len());
    assert forall|b: int| 0 <= b < ends.len() implies #[trigger] sq_scan::batch_orders(
        lists,
        ends,
        filter,
        k,
        seeds,
        b,
    ) by {
        let start = ivf_search::batch_start(ends, b);
        let before = sq_scan::offered(lists, ends, filter, k, seeds, b as nat);
        let first = top_k::passing(filter, lists[start].0, lists[start].1);
        let limit = sq_scan::distance_limit(
            k,
            top_k::after_pushes(k, Seq::empty(), before + first),
        );
        assert(b > 0 ==> 0 <= ends[b - 1]);
        assert forall|i: int| start < i < ends[b] implies top_k::orderable(
            k,
            sq_scan::below(limit, top_k::passing(filter, (#[trigger] lists[i]).0, lists[i].1)),
        ) by {
            assert(top_k::rows_comparable(filter, lists[i].0, lists[i].1));
            search_laws::lemma_below_comparable(
                limit,
                top_k::passing(filter, lists[i].0, lists[i].1),
            );
        }
    }
}

/// Lists of an IVF-SQ index can be searched if the rows that pass the filter have numbers for
/// distances.
pub proof fn law_sq_numbers_are_searchable<F: RowIdFilter>(
    lists: Seq<ScannedList>,
    ends: Seq<usize>,
    filter: Option<&F>,
    k: nat,
)
    requires
        ivf_search::batches_cover(ends, lists.len()),
        ivf_search::all_comparable(lists, filter),
        k <= usize::MAX,
    ensures
        sq_search::searchable(lists, ends, filter, Seq::empty(), Seq::empty(), k),
{
    let measured = sq_scan::measured(lists);
    assert forall|i: int| 0 <= i < measured.len() implies top_k::rows_comparable(
        filter,
        (#[trigger] measured[i]).0,
        measured[i].1,
    ) by {
        assert(top_k::rows_comparable(filter, lists[i].ids@, lists[i].distances@));
    }
    law_sq_numbers_can_be_ordered(measured, ends, filter, k, Seq::empty());
}

proof fn lemma_probe_entries<F: RowIdFilter>(
    probed: Seq<usize>,
    lists: Seq<usize>,
    rows: Seq<ListRows>,
    filter: Option<&F>,
    query: int,
    start: int,
    end: int,
    n: nat,
)
    requires
        n <= probed.len(),
        0 <= start,
        end <= rows.len(),
        rows.len() == lists.len(),
        forall|p: int|
            0 <= p < rows.len() && probed.contains(lists[p]) ==> top_k::rows_comparable(
                filter,
                (#[trigger] rows[p]).ids@,
                rows[p].distances@[query]@,
            ),
    ensures
        top_k::comparable(
            sq_search::probe_entries(probed, lists, rows, filter, query, start, end, n),
        ),
    decreases n,
{
    if n > 0 {
        lemma_probe_entries(probed, lists, rows, filter, query, start, end, (n - 1) as nat);
        sq_search::lemma_place_is_within(lists, probed[n - 1], start, end);
        if let Some(place) = sq_search::place_in(lists, probed[n - 1], start, end) {
            assert(probed.contains(lists[place]));
            assert(top_k::rows_comparable(
                filter,
                rows[place].ids@,
                rows[place].distances@[query]@,
            ));
            search_laws::lemma_comparable_concat(
                sq_search::probe_entries(
                    probed,
                    lists,
                    rows,
                    filter,
                    query,
                    start,
                    end,
                    (n - 1) as nat,
                ),
                top_k::passing(filter, rows[place].ids@, rows[place].distances@[query]@),
            );
        }
    }
}

proof fn lemma_batched_entries<F: RowIdFilter>(
    probed: Seq<usize>,
    lists: Seq<usize>,
    rows: Seq<ListRows>,
    ends: Seq<usize>,
    filter: Option<&F>,
    query: int,
    n: nat,
)
    requires
        n <= ends.len(),
        ivf_search::batches_cover(ends, lists.len()),
        rows.len() == lists.len(),
        forall|p: int|
            0 <= p < rows.len() && probed.contains(lists[p]) ==> top_k::rows_comparable(
                filter,
                (#[trigger] rows[p]).ids@,
                rows[p].distances@[query]@,
            ),
    ensures
        top_k::comparable(
            sq_search::batched_entries(probed, lists, rows, ends, filter, query, n),
        ),
    decreases n,
{
    if n > 0 {
        let start = ivf_search::batch_start(ends, n - 1);
        let end = ends[n - 1] as int;
        lemma_batched_entries(probed, lists, rows, ends, filter, query, (n - 1) as nat);
        lemma_probe_entries(
            probed,
            lists,
            rows,
            filter,
            query,
            start,
            end,
            probed.len(),
        );
        search_laws::lemma_comparable_concat(
            sq_search::batched_entries(
                probed,
                lists,
                rows,
                ends,
                filter,
                query,
                (n - 1) as nat,
            ),
            sq_search::probe_entries(
                probed,
                lists,
                rows,
                filter,
                query,
                start,
                end,
                probed.len(),
            ),
        );
    }
}

/// What a query of a batch is offered can be ordered if the seeds, and the rows that pass the
/// filter and that the query comes to, have numbers for distances.
pub proof fn law_sq_batch_numbers_can_be_ordered<F: RowIdFilter>(
    probes: Seq<Vec<usize>>,
    probe_start: nat,
    lists: Seq<usize>,
    rows: Seq<ListRows>,
    ends: Seq<usize>,
    filter: Option<&F>,
    seeds: Seq<(u32, i64)>,
    k: nat,
    query: int,
)
    requires
        0 <= query < probes.len(),
        probes.len() == 1 ==> lists == probes::probed(probes[0]@, probe_start),
        ivf_search::batches_cover(ends, lists.len()),
        rows.len() == lists.len(),
        forall|p: int|
            0 <= p < rows.len() && probes::probed(probes[query]@, probe_start).contains(lists[p])
                ==> top_k::rows_comparable(
                filter,
                (#[trigger] rows[p]).ids@,
                rows[p].distances@[query]@,
            ),
        top_k::comparable(seeds),
        k <= usize::MAX,
    ensures
        sq_search::query_orders(probes, probe_start, lists, rows, ends, filter, seeds, k, query),
{
    let probed = probes::probed(probes[query]@, probe_start);
    if probes.len() == 1 {
        let measured = sq_scan::measured_for(rows, query);
        assert forall|i: int| 0 <= i < measured.len() implies top_k::rows_comparable(
            filter,
            (#[trigger] measured[i]).0,
            measured[i].1,
        ) by {
            assert(probed.contains(lists[i]));
            assert(top_k::rows_comparable(filter, rows[i].ids@, rows[i].distances@[query]@));
        }
        law_sq_numbers_can_be_ordered(measured, ends, filter, k, seeds);
    } else {
        lemma_batched_entries(probed, lists, rows, ends, filter, query, ends.len());
        search_laws::lemma_comparable_concat(
            seeds,
            sq_search::batched_entries(probed, lists, rows, ends, filter, query, ends.len()),
        );
    }
}

/// Bitmaps that hold the same values pass the same rows.
pub proof fn law_equal_bitmaps_pass_equal_rows(
    a: &RoaringFilter,
    b: &RoaringFilter,
    ids: Seq<i64>,
    distances: Seq<u32>,
)
    requires
        a.values() == b.values(),
    ensures
        top_k::passing(Some(a), ids, distances) == top_k::passing(Some(b), ids, distances),
    decreases ids.len(),
{
    if ids.len() > 0 {
        law_equal_bitmaps_pass_equal_rows(a, b, ids.drop_last(), distances);
    }
}

/// Lists whose rows are comparable under a bitmap are so under one that holds the same values.
pub proof fn lemma_equal_bitmaps_compare(
    a: &RoaringFilter,
    b: &RoaringFilter,
    lists: Seq<ScannedList>,
)
    requires
        a.values() == b.values(),
        ivf_search::all_comparable(lists, Some(a)),
    ensures
        ivf_search::all_comparable(lists, Some(b)),
{
    assert forall|i: int| 0 <= i < lists.len() implies top_k::rows_comparable(
        Some(b),
        (#[trigger] lists[i]).ids@,
        lists[i].distances@,
    ) by {
        law_equal_bitmaps_pass_equal_rows(a, b, lists[i].ids@, lists[i].distances@);
    }
}

/// Rows of a batch that are comparable under a bitmap are so under one that holds the same
/// values.
pub proof fn lemma_equal_bitmaps_compare_batches(
    a: &RoaringFilter,
    b: &RoaringFilter,
    rows: Seq<ListRows>,
    nq: nat,
)
    requires
        a.values() == b.values(),
        ivf_search::batch_comparable(rows, nq, Some(a)),
    ensures
        ivf_search::batch_comparable(rows, nq, Some(b)),
{
    assert forall|p: int, q: int|
        0 <= p < rows.len() && 0 <= q < nq implies #[trigger] ivf_search::measured_comparable(
        Some(b),
        rows[p],
        q,
    ) by {
        assert(ivf_search::measured_comparable(Some(a), rows[p], q));
        law_equal_bitmaps_pass_equal_rows(a, b, rows[p].ids@, rows[p].distances@[q]@);
    }
}

/// A batch of an IVF-FLAT index without seeds can be searched if its rows that pass the filter
/// have numbers for distances.
pub proof fn law_flat_batch_numbers_are_searchable<F: RowIdFilter>(
    plan: &ProbePlan,
    rows: Seq<ListRows>,
    ends: Seq<usize>,
    filter: Option<&F>,
    nq: nat,
    k: nat,
    d: nat,
)
    requires
        ivf_search::rows_match(plan, rows, nq),
        ivf_search::batches_cover(ends, rows.len()),
        flat_scan::plan_measured(plan, rows),
        ivf_search::batch_comparable(rows, nq, filter),
        nq <= usize::MAX,
        k <= usize::MAX,
    ensures
        flat_search::batch_searchable(
            plan,
            rows,
            ends,
            filter,
            Seq::empty(),
            Seq::empty(),
            nq,
            k,
            d,
        ),
{
    assert forall|q: int| 0 <= q < nq implies flat_scan::plan_orders(
        plan,
        rows,
        ends,
        filter,
        k,
        d,
        q,
        #[trigger] ivf_search::seeds_of(Seq::empty(), Seq::empty(), q, k),
    ) by {
        assert forall|p: int|
            0 <= p < rows.len() && plan.queries@[plan.lists@[p] as int]@.contains(
                q as usize,
            ) implies top_k::rows_comparable(
            filter,
            (#[trigger] rows[p]).ids@,
            rows[p].distances@[q]@,
        ) by {
            let visitors = plan.queries@[plan.lists@[p] as int]@;
            let v = choose|v: int| 0 <= v < visitors.len() && visitors[v] == q as usize;
            assert(flat_scan::visits_measured(visitors, rows[p]));
            assert(rows[p].ids@.len() == rows[p].distances@[visitors[v] as int]@.len());
            assert(ivf_search::measured_comparable(filter, rows[p], q));
        }
        law_flat_batch_numbers_can_be_ordered(
            plan,
            rows,
            ends,
            filter,
            k,
            d,
            q,
            Seq::empty(),
        );
    }
}

/// A batch of an IVF-SQ index without seeds can be searched if its rows that pass the filter
/// have numbers for distances.
pub proof fn law_sq_batch_numbers_are_searchable<F: RowIdFilter>(
    probes: Seq<Vec<usize>>,
    lists: Seq<usize>,
    rows: Seq<ListRows>,
    ends: Seq<usize>,
    filter: Option<&F>,
    k: nat,
)
    requires
        probes.len() == 1 ==> lists == probes[0]@,
        sq_search::rows_cover(lists, rows, probes.len()),
        ivf_search::batches_cover(ends, lists.len()),
        sq_search::all_measured(probes, 0, lists, rows),
        ivf_search::batch_comparable(rows, probes.len(), filter),
        k <= usize::MAX,
    ensures
        sq_search::batch_searchable(
            probes,
            0,
            lists,
            rows,
            ends,
            filter,
            Seq::empty(),
            Seq::empty(),
            k,
        ),
{
    assert forall|q: int| 0 <= q < probes.len() implies sq_search::query_orders(
        probes,
        0,
        lists,
        rows,
        ends,
        filter,
        #[trigger] ivf_search::seeds_of(Seq::empty(), Seq::empty(), q, k),
        k,
        q,
    ) by {
        let probed = probes::probed(probes[q]@, 0);
        assert(sq_search::probes_measured(probed, lists, rows, q));
        assert forall|p: int|
            0 <= p < rows.len() && probed.contains(lists[p]) implies top_k::rows_comparable(
            filter,
            (#[trigger] rows[p]).ids@,
            rows[p].distances@[q]@,
        ) by {
            assert(ivf_search::measured_comparable(filter, rows[p], q));
        }
        if probes.len() == 1 {
            assert(probes::probed(probes[0]@, 0) =~= probes[0]@);
        }
        law_sq_batch_numbers_can_be_ordered(
            probes,
            0,
            lists,
            rows,
            ends,
            filter,
            Seq::empty(),
            k,
            q,
        );
    }
}

} // verus!
