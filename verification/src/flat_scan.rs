//! Scanning the lists of an IVF-FLAT index.
//!
//! Lists are read in batches. A small batch is scanned list by list into the result of a
//! query. A large one is scanned apart: each list has a result of its own, and those are
//! merged in the order of the lists, so that lists can be scanned at the same time.
use vstd::prelude::*;
use crate::filter::RowIdFilter;
use crate::ivf_search;
use crate::ivf_search::{ListRows, ScannedList};
use crate::probes::ProbePlan;
use crate::top_k;
use crate::top_k::{merge_results, scan_rows, ReaderTopKHeap};

verus! {

/// The number of components from which on it pays to scan lists apart.
pub const PARALLEL_FLAT_SCAN_MIN_COMPONENTS: usize = 0x10_0000;

/// Whether a batch is scanned apart, given how often one of its rows is compared with a
/// query, and how many lists it has.
pub open spec fn apart(comparisons: nat, lists: int, d: nat) -> bool {
    lists > 1 && comparisons * d >= PARALLEL_FLAT_SCAN_MIN_COMPONENTS
}

/// Tells whether a batch is scanned apart. A number of comparisons that cannot be counted
/// is given as the largest one.
fn scans_apart(comparisons: usize, lists: usize, d: usize, exact: Ghost<nat>) -> (result: bool)
    requires
        d > 0,
        comparisons == exact@ || (comparisons == usize::MAX && exact@ > usize::MAX),
    ensures
        result == apart(exact@, lists as int, d as nat),
{
    proof {
        if exact@ != comparisons {
            assert(exact@ * d >= exact@) by (nonlinear_arith)
                requires
                    d > 0,
                    exact@ >= 0,
            ;
            assert(comparisons * d >= comparisons) by (nonlinear_arith)
                requires
                    d > 0,
                    comparisons >= 0,
            ;
        }
    }
    lists > 1 && match comparisons.checked_mul(d) {
        None => true,
        Some(components) => components >= PARALLEL_FLAT_SCAN_MIN_COMPONENTS,
    }
}

/// What a list adds to a result: its rows, or the nearest of them where it is scanned apart.
pub open spec fn list_offer<F: RowIdFilter>(
    filter: Option<&F>,
    ids: Seq<i64>,
    distances: Seq<u32>,
    k: nat,
    apart: bool,
) -> Seq<(u32, i64)> {
    if apart {
        top_k::result_of(k, top_k::passing(filter, ids, distances))
    } else {
        top_k::passing(filter, ids, distances)
    }
}

/// Scans one list.
fn offer_list<F: RowIdFilter>(
    heap: &mut ReaderTopKHeap,
    ids: &[i64],
    distances: &[u32],
    filter: Option<&F>,
    k: usize,
    apart: bool,
)
    requires
        old(heap).wf(),
        old(heap).limit() == k,
        ids@.len() == distances@.len(),
    ensures
        final(heap).wf(),
        final(heap).limit() == k,
        final(heap).entries() == top_k::after_pushes(
            k as nat,
            old(heap).entries(),
            list_offer(filter, ids@, distances@, k as nat, apart),
        ),
{
    if apart {
        let mut own = ReaderTopKHeap::new(k);
        scan_rows(ids, distances, filter, &mut own);
        let results = own.to_sorted();
        merge_results(heap, &results);
    } else {
        scan_rows(ids, distances, filter, heap);
    }
}

/// The number of rows of the lists from `start` up to but not `end`.
pub open spec fn row_count(lists: Seq<ScannedList>, start: int, end: int) -> nat
    decreases end - start,
{
    if end <= start {
        0
    } else {
        row_count(lists, start, end - 1) + lists[end - 1].ids@.len()
    }
}

/// What the lists from `start` up to but not `end` add to a result.
pub open spec fn lists_offer<F: RowIdFilter>(
    lists: Seq<ScannedList>,
    filter: Option<&F>,
    k: nat,
    apart: bool,
    start: int,
    end: int,
) -> Seq<(u32, i64)>
    decreases end - start,
{
    if end <= start {
        Seq::empty()
    } else {
        lists_offer(lists, filter, k, apart, start, end - 1) + list_offer(
            filter,
            lists[end - 1].ids@,
            lists[end - 1].distances@,
            k,
            apart,
        )
    }
}

/// What the first `n` batches of lists add to a result, given where each batch ends.
pub open spec fn batches_offer<F: RowIdFilter>(
    lists: Seq<ScannedList>,
    ends: Seq<usize>,
    filter: Option<&F>,
    k: nat,
    d: nat,
    n: nat,
) -> Seq<(u32, i64)>
    decreases n,
{
    if n == 0 {
        Seq::empty()
    } else {
        let start = ivf_search::batch_start(ends, n - 1);
        let end = ends[n - 1] as int;
        batches_offer(lists, ends, filter, k, d, (n - 1) as nat) + lists_offer(
            lists,
            filter,
            k,
            apart(row_count(lists, start, end), end - start, d),
            start,
            end,
        )
    }
}

/// Whether the rows of each list of a batch can be ordered on their own, if the batch is
/// scanned apart.
pub open spec fn batch_orders<F: RowIdFilter>(
    lists: Seq<ScannedList>,
    ends: Seq<usize>,
    filter: Option<&F>,
    k: nat,
    d: nat,
    batch: int,
) -> bool {
    let start = ivf_search::batch_start(ends, batch);
    let end = ends[batch] as int;
    apart(row_count(lists, start, end), end - start, d) ==> forall|i: int|
        start <= i < end ==> top_k::orderable(
            k,
            top_k::passing(filter, (#[trigger] lists[i]).ids@, lists[i].distances@),
        )
}

/// Whether the rows of batches of lists can be ordered for one query.
pub open spec fn batches_order<F: RowIdFilter>(
    lists: Seq<ScannedList>,
    ends: Seq<usize>,
    filter: Option<&F>,
    k: nat,
    d: nat,
) -> bool {
    &&& top_k::orderable(k, batches_offer(lists, ends, filter, k, d, ends.len()))
    &&& forall|b: int|
        0 <= b < ends.len() ==> #[trigger] batch_orders(lists, ends, filter, k, d, b)
}

fn count_rows(lists: &Vec<ScannedList>, start: usize, end: usize) -> (count: usize)
    requires
        start <= end <= lists@.len(),
    ensures
        count == row_count(lists@, start as int, end as int) || (count == usize::MAX && row_count(
            lists@,
            start as int,
            end as int,
        ) > usize::MAX),
{
    let mut count: usize = 0;
    let mut i: usize = start;
    while i < end
        invariant
            start <= i <= end <= lists@.len(),
            count == row_count(lists@, start as int, i as int) || (count == usize::MAX && row_count(
                lists@,
                start as int,
                i as int,
            ) > usize::MAX),
        decreases end - i,
    {
        count = count.saturating_add(lists[i].ids.len());
        i = i + 1;
    }
    count
}

/// Scans the lists of one query, batch by batch.
pub(crate) fn scan_batches<F: RowIdFilter>(
    heap: &mut ReaderTopKHeap,
    lists: &Vec<ScannedList>,
    ends: &Vec<usize>,
    filter: Option<&F>,
    k: usize,
    d: usize,
)
    requires
        old(heap).wf(),
        old(heap).limit() == k,
        d > 0,
        ivf_search::batches_cover(ends@, lists@.len()),
        ivf_search::lists_measured(lists@),
    ensures
        final(heap).wf(),
        final(heap).limit() == k,
        final(heap).entries() == top_k::after_pushes(
            k as nat,
            old(heap).entries(),
            batches_offer(lists@, ends@, filter, k as nat, d as nat, ends@.len()),
        ),
{
    let ghost before = heap.entries();
    let mut start: usize = 0;
    let mut batch: usize = 0;
    while batch < ends.len()
        invariant
            batch <= ends@.len(),
            start == ivf_search::batch_start(ends@, batch as int),
            start <= lists@.len(),
            d > 0,
            heap.wf(),
            heap.limit() == k,
            ivf_search::batches_cover(ends@, lists@.len()),
            ivf_search::lists_measured(lists@),
            heap.entries() == top_k::after_pushes(
                k as nat,
                before,
                batches_offer(lists@, ends@, filter, k as nat, d as nat, batch as nat),
            ),
        decreases ends@.len() - batch,
    {
        let end: usize = ends[batch];
        let ghost rows = row_count(lists@, start as int, end as int);
        let apart = scans_apart(count_rows(lists, start, end), end - start, d, Ghost(rows));
        let ghost offered = batches_offer(lists@, ends@, filter, k as nat, d as nat, batch as nat);
        let mut i: usize = start;
        assert(offered + lists_offer(lists@, filter, k as nat, apart, start as int, i as int)
            =~= offered);
        while i < end
            invariant
                start <= i <= end <= lists@.len(),
                heap.wf(),
                heap.limit() == k,
                ivf_search::lists_measured(lists@),
                heap.entries() == top_k::after_pushes(
                    k as nat,
                    before,
                    offered + lists_offer(
                        lists@,
                        filter,
                        k as nat,
                        apart,
                        start as int,
                        i as int,
                    ),
                ),
            decreases end - i,
        {
            let list = &lists[i];
            offer_list(
                heap,
                list.ids.as_slice(),
                list.distances.as_slice(),
                filter,
                k,
                apart,
            );
            proof {
                let earlier = lists_offer(
                    lists@,
                    filter,
                    k as nat,
                    apart,
                    start as int,
                    i as int,
                );
                let fresh = list_offer(filter, list.ids@, list.distances@, k as nat, apart);
                top_k::law_pushes_compose(k as nat, before, offered + earlier, fresh);
                assert((offered + earlier) + fresh =~= offered + (earlier + fresh));
            }
            i = i + 1;
        }
        start = end;
        batch = batch + 1;
    }
}

/// How often a row of the lists from `start` up to but not `end` is compared with a query:
/// once for each query that probes its list.
pub open spec fn visit_count(plan: &ProbePlan, rows: Seq<ListRows>, start: int, end: int) -> nat
    decreases end - start,
{
    if end <= start {
        0
    } else {
        visit_count(plan, rows, start, end - 1) + rows[end - 1].ids@.len()
            * plan.queries@[plan.lists@[end - 1] as int]@.len()
    }
}

/// What the lists of a plan from `start` up to but not `end` add to the result of a query.
pub open spec fn plan_offer<F: RowIdFilter>(
    plan: &ProbePlan,
    rows: Seq<ListRows>,
    filter: Option<&F>,
    k: nat,
    apart: bool,
    query: int,
    start: int,
    end: int,
) -> Seq<(u32, i64)>
    decreases end - start,
{
    if end <= start {
        Seq::empty()
    } else {
        let visitors = plan.queries@[plan.lists@[end - 1] as int]@;
        plan_offer(plan, rows, filter, k, apart, query, start, end - 1) + ivf_search::visit_entries(
            visitors,
            query,
            list_offer(filter, rows[end - 1].ids@, rows[end - 1].distances@[query]@, k, apart),
            visitors.len(),
        )
    }
}

/// What the first `n` batches of the lists of a plan add to the result of a query.
pub open spec fn plan_batches_offer<F: RowIdFilter>(
    plan: &ProbePlan,
    rows: Seq<ListRows>,
    ends: Seq<usize>,
    filter: Option<&F>,
    k: nat,
    d: nat,
    query: int,
    n: nat,
) -> Seq<(u32, i64)>
    decreases n,
{
    if n == 0 {
        Seq::empty()
    } else {
        let start = ivf_search::batch_start(ends, n - 1);
        let end = ends[n - 1] as int;
        plan_batches_offer(plan, rows, ends, filter, k, d, query, (n - 1) as nat) + plan_offer(
            plan,
            rows,
            filter,
            k,
            apart(visit_count(plan, rows, start, end), end - start, d),
            query,
            start,
            end,
        )
    }
}

/// Whether the rows of each list of a batch that a query probes can be ordered on their own,
/// if the batch is scanned apart.
pub open spec fn plan_batch_orders<F: RowIdFilter>(
    plan: &ProbePlan,
    rows: Seq<ListRows>,
    ends: Seq<usize>,
    filter: Option<&F>,
    k: nat,
    d: nat,
    query: int,
    batch: int,
) -> bool {
    let start = ivf_search::batch_start(ends, batch);
    let end = ends[batch] as int;
    apart(visit_count(plan, rows, start, end), end - start, d) ==> forall|p: int|
        start <= p < end && plan.queries@[plan.lists@[p] as int]@.contains(query as usize)
            ==> top_k::orderable(
            k,
            top_k::passing(filter, (#[trigger] rows[p]).ids@, rows[p].distances@[query]@),
        )
}

/// Whether the rows of batches of the lists of a plan can be ordered for a query, with its
/// seeds before them.
pub open spec fn plan_orders<F: RowIdFilter>(
    plan: &ProbePlan,
    rows: Seq<ListRows>,
    ends: Seq<usize>,
    filter: Option<&F>,
    k: nat,
    d: nat,
    query: int,
    seeds: Seq<(u32, i64)>,
) -> bool {
    &&& top_k::orderable(
        k,
        seeds + plan_batches_offer(plan, rows, ends, filter, k, d, query, ends.len()),
    )
    &&& forall|b: int|
        0 <= b < ends.len() ==> #[trigger] plan_batch_orders(
            plan,
            rows,
            ends,
            filter,
            k,
            d,
            query,
            b,
        )
}

/// Whether each row of a list has a distance from each of several queries.
pub open spec fn visits_measured(visitors: Seq<usize>, rows: ListRows) -> bool {
    forall|v: int|
        0 <= v < visitors.len() ==> rows.ids@.len() == rows.distances@[#[trigger] visitors[v] as int]@.len()
}

/// Whether each row of the lists of a plan has a distance from each query that probes its
/// list.
pub open spec fn plan_measured(plan: &ProbePlan, rows: Seq<ListRows>) -> bool {
    forall|p: int|
        0 <= p < rows.len() ==> visits_measured(
            plan.queries@[plan.lists@[p] as int]@,
            #[trigger] rows[p],
        )
}

/// Scans one list for each query that probes it.
fn scan_list<F: RowIdFilter>(
    heaps: &mut Vec<ReaderTopKHeap>,
    visitors: &Vec<usize>,
    rows: &ListRows,
    filter: Option<&F>,
    k: usize,
    apart: bool,
    before: Ghost<spec_fn(int) -> Seq<(u32, i64)>>,
    earlier: Ghost<spec_fn(int) -> Seq<(u32, i64)>>,
)
    requires
        ivf_search::all_sound(old(heaps)@, k as nat),
        ivf_search::all_offered(old(heaps)@, before@, earlier@, k as nat),
        visits_measured(visitors@, *rows),
        rows.distances@.len() == old(heaps)@.len(),
        forall|v: int| 0 <= v < visitors@.len() ==> #[trigger] visitors@[v] < old(heaps)@.len(),
    ensures
        final(heaps)@.len() == old(heaps)@.len(),
        ivf_search::all_sound(final(heaps)@, k as nat),
        ivf_search::all_offered(
            final(heaps)@,
            before@,
            |q: int|
                earlier@(q) + ivf_search::visit_entries(
                    visitors@,
                    q,
                    list_offer(filter, rows.ids@, rows.distances@[q]@, k as nat, apart),
                    visitors@.len(),
                ),
            k as nat,
        ),
{
    let ghost count = heaps@.len();
    let ghost before = before@;
    let ghost earlier = earlier@;
    let ghost offered = |q: int, n: nat|
        earlier(q) + ivf_search::visit_entries(
            visitors@,
            q,
            list_offer(filter, rows.ids@, rows.distances@[q]@, k as nat, apart),
            n,
        );
    let mut v: usize = 0;
    assert forall|q: int| 0 <= q < heaps@.len() implies (#[trigger] heaps@[q]).entries()
        == top_k::after_pushes(k as nat, before(q), offered(q, 0)) by {
        assert(offered(q, 0) =~= earlier(q));
    }
    while v < visitors.len()
        invariant
            v <= visitors@.len(),
            heaps@.len() == count,
            ivf_search::all_sound(heaps@, k as nat),
            rows.distances@.len() == count,
            offered == (|q: int, n: nat|
                earlier(q) + ivf_search::visit_entries(
                    visitors@,
                    q,
                    list_offer(filter, rows.ids@, rows.distances@[q]@, k as nat, apart),
                    n,
                )),
            forall|q: int|
                0 <= q < heaps@.len() ==> (#[trigger] heaps@[q]).entries() == top_k::after_pushes(
                    k as nat,
                    before(q),
                    offered(q, v as nat),
                ),
            forall|v: int| 0 <= v < visitors@.len() ==> #[trigger] visitors@[v] < count,
            visits_measured(visitors@, *rows),
        decreases visitors@.len() - v,
    {
        let query: usize = visitors[v];
        let ghost old_heaps = heaps@;
        let ghost fresh = list_offer(
            filter,
            rows.ids@,
            rows.distances@[query as int]@,
            k as nat,
            apart,
        );
        assert(old_heaps[query as int].wf());
        offer_list(
            &mut heaps[query],
            rows.ids.as_slice(),
            rows.distances[query].as_slice(),
            filter,
            k,
            apart,
        );
        assert forall|q: int| 0 <= q < heaps@.len() implies (#[trigger] heaps@[q]).entries()
            == top_k::after_pushes(k as nat, before(q), offered(q, (v + 1) as nat)) && heaps@[q].wf()
            && heaps@[q].limit() == k by {
            assert(old_heaps[q].wf());
            if q == query {
                top_k::law_pushes_compose(k as nat, before(q), offered(q, v as nat), fresh);
                assert(offered(q, v as nat) + fresh =~= offered(q, (v + 1) as nat));
            } else {
                assert(heaps@[q] == old_heaps[q]);
                assert(offered(q, (v + 1) as nat) == offered(q, v as nat));
            }
        }
        v = v + 1;
    }
}

fn count_visits(plan: &ProbePlan, rows: &Vec<ListRows>, start: usize, end: usize) -> (count: usize)
    requires
        start <= end <= rows@.len(),
        rows@.len() == plan.lists@.len(),
        forall|p: int| 0 <= p < rows@.len() ==> #[trigger] plan.lists@[p] < plan.queries@.len(),
    ensures
        count == visit_count(plan, rows@, start as int, end as int) || (count == usize::MAX
            && visit_count(plan, rows@, start as int, end as int) > usize::MAX),
{
    let mut count: usize = 0;
    let mut p: usize = start;
    while p < end
        invariant
            start <= p <= end <= rows@.len(),
            rows@.len() == plan.lists@.len(),
            forall|p: int| 0 <= p < rows@.len() ==> #[trigger] plan.lists@[p] < plan.queries@.len(),
            count == visit_count(plan, rows@, start as int, p as int) || (count == usize::MAX
                && visit_count(plan, rows@, start as int, p as int) > usize::MAX),
        decreases end - p,
    {
        let list_id: usize = plan.lists[p];
        let rows_of_list: usize = rows[p].ids.len();
        let visitors: usize = plan.queries[list_id].len();
        assert(0 <= rows_of_list * visitors) by (nonlinear_arith)
            requires
                0 <= rows_of_list,
                0 <= visitors,
        ;
        let visits: usize = match rows_of_list.checked_mul(visitors) {
            None => usize::MAX,
            Some(visits) => visits,
        };
        count = count.saturating_add(visits);
        p = p + 1;
    }
    count
}

/// Whether collections hold what their queries were offered.
spec fn all_hold(
    heaps: Seq<ReaderTopKHeap>,
    before: spec_fn(int) -> Seq<(u32, i64)>,
    offered: spec_fn(int) -> Seq<(u32, i64)>,
    k: nat,
) -> bool {
    ivf_search::all_sound(heaps, k) && ivf_search::all_offered(heaps, before, offered, k)
}

/// Scans a batch of lists for the queries that probe them.
fn scan_plan_batch<F: RowIdFilter>(
    heaps: &mut Vec<ReaderTopKHeap>,
    plan: &ProbePlan,
    rows: &Vec<ListRows>,
    start: usize,
    end: usize,
    filter: Option<&F>,
    k: usize,
    apart: bool,
    before: Ghost<spec_fn(int) -> Seq<(u32, i64)>>,
    earlier: Ghost<spec_fn(int) -> Seq<(u32, i64)>>,
)
    requires
        start <= end <= rows@.len(),
        all_hold(old(heaps)@, before@, earlier@, k as nat),
        ivf_search::rows_match(plan, rows@, old(heaps)@.len()),
        plan_measured(plan, rows@),
    ensures
        final(heaps)@.len() == old(heaps)@.len(),
        all_hold(
            final(heaps)@,
            before@,
            |q: int|
                earlier@(q) + plan_offer(
                    plan,
                    rows@,
                    filter,
                    k as nat,
                    apart,
                    q,
                    start as int,
                    end as int,
                ),
            k as nat,
        ),
{
    let ghost count = heaps@.len();
    let ghost base = before@;
    let ghost earlier = earlier@;
    let ghost offered = |q: int, p: int|
        earlier(q) + plan_offer(plan, rows@, filter, k as nat, apart, q, start as int, p);
    let mut p: usize = start;
    assert forall|q: int| 0 <= q < heaps@.len() implies (#[trigger] heaps@[q]).entries()
        == top_k::after_pushes(k as nat, base(q), offered(q, p as int)) by {
        assert(offered(q, p as int) =~= earlier(q));
    }
    while p < end
        invariant
            start <= p <= end <= rows@.len(),
            heaps@.len() == count,
            ivf_search::all_sound(heaps@, k as nat),
            ivf_search::rows_match(plan, rows@, count),
            plan_measured(plan, rows@),
            offered == (|q: int, p: int|
                earlier(q) + plan_offer(plan, rows@, filter, k as nat, apart, q, start as int, p)),
            forall|q: int|
                0 <= q < heaps@.len() ==> (#[trigger] heaps@[q]).entries() == top_k::after_pushes(
                    k as nat,
                    base(q),
                    offered(q, p as int),
                ),
        decreases end - p,
    {
        let list_id: usize = plan.lists[p];
        assert(rows@[p as int].distances@.len() == count);
        let visitors = &plan.queries[list_id];
        assert forall|v: int| 0 <= v < visitors@.len() implies #[trigger] visitors@[v] < count by {
            assert(plan.queries@[plan.lists@[p as int] as int]@[v] == visitors@[v]);
        }
        let ghost so_far = |q: int| offered(q, p as int);
        assert(visits_measured(visitors@, rows@[p as int]));
        scan_list(heaps, visitors, &rows[p], filter, k, apart, Ghost(base), Ghost(so_far));
        assert forall|q: int| 0 <= q < heaps@.len() implies (#[trigger] heaps@[q]).entries()
            == top_k::after_pushes(k as nat, base(q), offered(q, p + 1)) by {
            let fresh = ivf_search::visit_entries(
                visitors@,
                q,
                list_offer(
                    filter,
                    rows@[p as int].ids@,
                    rows@[p as int].distances@[q]@,
                    k as nat,
                    apart,
                ),
                visitors@.len(),
            );
            assert(so_far(q) + fresh =~= offered(q, p + 1));
        }
        p = p + 1;
    }
}

/// Scans the lists of a plan for the queries that probe them, batch by batch.
pub(crate) fn scan_plan<F: RowIdFilter>(
    heaps: &mut Vec<ReaderTopKHeap>,
    plan: &ProbePlan,
    rows: &Vec<ListRows>,
    ends: &Vec<usize>,
    filter: Option<&F>,
    k: usize,
    d: usize,
    before: Ghost<spec_fn(int) -> Seq<(u32, i64)>>,
)
    requires
        d > 0,
        ivf_search::all_sound(old(heaps)@, k as nat),
        forall|q: int|
            0 <= q < old(heaps)@.len() ==> (#[trigger] old(heaps)@[q]).entries() == before@(q),
        ivf_search::rows_match(plan, rows@, old(heaps)@.len()),
        ivf_search::batches_cover(ends@, rows@.len()),
        plan_measured(plan, rows@),
    ensures
        final(heaps)@.len() == old(heaps)@.len(),
        ivf_search::all_sound(final(heaps)@, k as nat),
        ivf_search::all_offered(
            final(heaps)@,
            before@,
            |q: int|
                plan_batches_offer(
                    plan,
                    rows@,
                    ends@,
                    filter,
                    k as nat,
                    d as nat,
                    q,
                    ends@.len(),
                ),
            k as nat,
        ),
{
    let ghost count = heaps@.len();
    let ghost base = before@;
    let ghost offered = |q: int, n: nat|
        plan_batches_offer(plan, rows@, ends@, filter, k as nat, d as nat, q, n);
    let mut start: usize = 0;
    let mut batch: usize = 0;
    assert forall|q: int| 0 <= q < heaps@.len() implies (#[trigger] heaps@[q]).entries()
        == top_k::after_pushes(k as nat, base(q), offered(q, 0)) by {}
    while batch < ends.len()
        invariant
            batch <= ends@.len(),
            start == ivf_search::batch_start(ends@, batch as int),
            start <= rows@.len(),
            d > 0,
            heaps@.len() == count,
            ivf_search::all_sound(heaps@, k as nat),
            ivf_search::rows_match(plan, rows@, count),
            ivf_search::batches_cover(ends@, rows@.len()),
            plan_measured(plan, rows@),
            offered == (|q: int, n: nat|
                plan_batches_offer(plan, rows@, ends@, filter, k as nat, d as nat, q, n)),
            forall|q: int|
                0 <= q < heaps@.len() ==> (#[trigger] heaps@[q]).entries() == top_k::after_pushes(
                    k as nat,
                    base(q),
                    offered(q, batch as nat),
                ),
        decreases ends@.len() - batch,
    {
        let end: usize = ends[batch];
        assert forall|p: int| 0 <= p < rows@.len() implies #[trigger] plan.lists@[p]
            < plan.queries@.len() by {
            assert(rows@[p].distances@.len() == count);
        }
        let ghost visits = visit_count(plan, rows@, start as int, end as int);
        let apart = scans_apart(
            count_visits(plan, rows, start, end),
            end - start,
            d,
            Ghost(visits),
        );
        let ghost earlier = |q: int| offered(q, batch as nat);
        scan_plan_batch(
            heaps,
            plan,
            rows,
            start,
            end,
            filter,
            k,
            apart,
            Ghost(base),
            Ghost(earlier),
        );
        assert forall|q: int| 0 <= q < heaps@.len() implies (#[trigger] heaps@[q]).entries()
            == top_k::after_pushes(k as nat, base(q), offered(q, (batch + 1) as nat)) by {
            assert(offered(q, (batch + 1) as nat) == earlier(q) + plan_offer(
                plan,
                rows@,
                filter,
                k as nat,
                apart,
                q,
                start as int,
                end as int,
            ));
        }
        start = end;
        batch = batch + 1;
    }
}

} // verus!
