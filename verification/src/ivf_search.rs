//! Searching the lists of an IVF index.
//!
//! What a search reads and how far a row is from a query is found out elsewhere. Here stand
//! the checks of what a search is asked for, and the way from distances to results.
use vstd::prelude::*;
use crate::error;
use crate::error::{invalid_input, Error, ErrorView};
use crate::filter::RowIdFilter;
use crate::float_bits::F32_MAX;
use crate::probes::ProbePlan;
use crate::rows;
use crate::text;
use crate::text::decimal_text;
use crate::top_k;
use crate::top_k::{padded_results, rows_are_comparable, ReaderTopKHeap};

verus! {

/// What [`validate_search`] answers.
pub open spec fn checked_search(query_len: nat, d: usize, k: usize, nprobe: usize) -> Result<
    (),
    ErrorView,
> {
    if query_len != d {
        Err(
            error::input_error(
                "query length "@ + text::decimal(query_len)
                    + " does not match index dimension "@ + text::decimal(d as nat),
            ),
        )
    } else if k == 0 {
        Err(error::input_error("k must be greater than 0"@))
    } else if nprobe == 0 {
        Err(error::input_error("nprobe must be greater than 0"@))
    } else {
        Ok(())
    }
}

/// Checks what a search for one query is asked for.
pub fn validate_search(query_len: usize, d: usize, k: usize, nprobe: usize) -> (result: Result<
    (),
    Error,
>)
    ensures
        error::outcome(result) == checked_search(query_len as nat, d, k, nprobe),
{
    if query_len != d {
        let mut message = "query length ".to_owned();
        message.append(decimal_text(query_len as u64).as_str());
        message.append(" does not match index dimension ");
        message.append(decimal_text(d as u64).as_str());
        return Err(invalid_input(message));
    }
    if k == 0 {
        return Err(invalid_input("k must be greater than 0".to_owned()));
    }
    if nprobe == 0 {
        return Err(invalid_input("nprobe must be greater than 0".to_owned()));
    }
    Ok(())
}

/// What [`validate_batch`] answers.
pub open spec fn checked_batch(
    queries_len: nat,
    nq: usize,
    d: usize,
    k: usize,
    probe_start: usize,
    probe_end: usize,
) -> Result<(), ErrorView> {
    if nq == 0 {
        Err(error::input_error("nq must be greater than 0"@))
    } else if nq * d > usize::MAX {
        Err(error::input_error("nq * dimension overflows usize"@))
    } else if queries_len != nq * d {
        Err(
            error::input_error(
                "queries length "@ + text::decimal(queries_len)
                    + " does not match nq * dimension "@ + text::decimal((nq * d) as nat),
            ),
        )
    } else if k == 0 {
        Err(error::input_error("k must be greater than 0"@))
    } else if probe_start >= probe_end {
        Err(error::input_error("probe range must be non-empty"@))
    } else {
        Ok(())
    }
}

/// Checks what a search for a batch of queries is asked for.
pub fn validate_batch(
    queries_len: usize,
    nq: usize,
    d: usize,
    k: usize,
    probe_start: usize,
    probe_end: usize,
) -> (result: Result<(), Error>)
    ensures
        error::outcome(result) == checked_batch(
            queries_len as nat,
            nq,
            d,
            k,
            probe_start,
            probe_end,
        ),
{
    if nq == 0 {
        return Err(invalid_input("nq must be greater than 0".to_owned()));
    }
    let expected: usize = match nq.checked_mul(d) {
        None => {
            return Err(invalid_input("nq * dimension overflows usize".to_owned()));
        },
        Some(expected) => expected,
    };
    if queries_len != expected {
        let mut message = "queries length ".to_owned();
        message.append(decimal_text(queries_len as u64).as_str());
        message.append(" does not match nq * dimension ");
        message.append(decimal_text(expected as u64).as_str());
        return Err(invalid_input(message));
    }
    if k == 0 {
        return Err(invalid_input("k must be greater than 0".to_owned()));
    }
    if probe_start >= probe_end {
        return Err(invalid_input("probe range must be non-empty".to_owned()));
    }
    Ok(())
}

/// What [`validate_batch_seed`] answers.
pub open spec fn checked_seed(ids_len: nat, distances_len: nat, nq: usize, k: usize) -> Result<
    (),
    ErrorView,
> {
    if nq * k > usize::MAX {
        Err(error::input_error("nq * k overflows usize"@))
    } else if (ids_len == 0 && distances_len == 0) || (ids_len == nq * k && distances_len == nq
        * k) {
        Ok(())
    } else {
        Err(error::input_error("seed result lengths must both equal nq * k"@))
    }
}

/// Checks the seeds of a search: there are none, or `k` places for each query.
pub fn validate_batch_seed(seed_ids: &[i64], seed_distances: &[u32], nq: usize, k: usize) -> (result:
    Result<(), Error>)
    ensures
        error::outcome(result) == checked_seed(seed_ids@.len(), seed_distances@.len(), nq, k),
{
    let expected: usize = match nq.checked_mul(k) {
        None => {
            return Err(invalid_input("nq * k overflows usize".to_owned()));
        },
        Some(expected) => expected,
    };
    if (seed_ids.len() == 0 && seed_distances.len() == 0) || (seed_ids.len() == expected
        && seed_distances.len() == expected) {
        Ok(())
    } else {
        Err(invalid_input("seed result lengths must both equal nq * k".to_owned()))
    }
}

/// The entries among `n` places of a result, from `start` on. Places without a row have the
/// largest distance.
pub open spec fn seeds_from(ids: Seq<i64>, distances: Seq<u32>, start: int, n: nat) -> Seq<
    (u32, i64),
>
    decreases n,
{
    if n == 0 {
        Seq::empty()
    } else {
        let before = seeds_from(ids, distances, start, (n - 1) as nat);
        if distances[start + n - 1] != F32_MAX {
            before.push((distances[start + n - 1], ids[start + n - 1]))
        } else {
            before
        }
    }
}

/// The seeds of a query.
pub open spec fn seeds_of(ids: Seq<i64>, distances: Seq<u32>, query: int, k: nat) -> Seq<
    (u32, i64),
> {
    if ids.len() == 0 {
        Seq::empty()
    } else {
        seeds_from(ids, distances, query * k, k)
    }
}

/// Whether each row of several lists has a distance.
pub open spec fn lists_measured(lists: Seq<ScannedList>) -> bool {
    forall|i: int|
        0 <= i < lists.len() ==> (#[trigger] lists[i]).ids@.len() == lists[i].distances@.len()
}

/// Whether collections are sound and hold up to `k` entries each.
pub open spec fn all_sound(heaps: Seq<ReaderTopKHeap>, k: nat) -> bool {
    forall|q: int|
        0 <= q < heaps.len() ==> (#[trigger] heaps[q]).wf() && heaps[q].limit() == k
}

fn seed_heap(heap: &mut ReaderTopKHeap, ids: &[i64], distances: &[u32], start: usize, k: usize)
    requires
        old(heap).wf(),
        old(heap).limit() == k,
        start + k <= ids.len(),
        ids.len() == distances.len(),
    ensures
        final(heap).wf(),
        final(heap).limit() == k,
        final(heap).entries() == top_k::after_pushes(
            k as nat,
            old(heap).entries(),
            seeds_from(ids@, distances@, start as int, k as nat),
        ),
{
    let ghost before = heap.entries();
    let mut i: usize = 0;
    while i < k
        invariant
            i <= k,
            heap.wf(),
            heap.limit() == k,
            start + k <= ids.len(),
            ids.len() == distances.len(),
                heap.entries() == top_k::after_pushes(
                k as nat,
                before,
                seeds_from(ids@, distances@, start as int, i as nat),
            ),
        decreases k - i,
    {
        let ghost earlier = seeds_from(ids@, distances@, start as int, i as nat);
        let distance: u32 = distances[start + i];
        if distance != F32_MAX {
            let ghost entry = (distance, ids@[start + i]);
            heap.push(distance, ids[start + i]);
            assert(earlier.push(entry).drop_last() =~= earlier);
        }
        i = i + 1;
    }
}

/// Collections for a batch of queries, each with the seeds of its query.
pub fn seeded_heaps(seed_ids: &[i64], seed_distances: &[u32], nq: usize, k: usize) -> (heaps: Vec<
    ReaderTopKHeap,
>)
    requires
        checked_seed(seed_ids@.len(), seed_distances@.len(), nq, k) is Ok,
    ensures
        heaps@.len() == nq,
        all_sound(heaps@, k as nat),
        forall|q: int|
            0 <= q < nq ==> (#[trigger] heaps@[q]).entries() == top_k::after_pushes(
                k as nat,
                Seq::empty(),
                seeds_of(seed_ids@, seed_distances@, q, k as nat),
            ),
{
    let mut heaps: Vec<ReaderTopKHeap> = Vec::new();
    let mut query: usize = 0;
    while query < nq
        invariant
            query <= nq,
            checked_seed(seed_ids@.len(), seed_distances@.len(), nq, k) is Ok,
            heaps@.len() == query,
            all_sound(heaps@, k as nat),
            forall|q: int|
                0 <= q < query ==> (#[trigger] heaps@[q]).entries() == top_k::after_pushes(
                    k as nat,
                    Seq::empty(),
                    seeds_of(seed_ids@, seed_distances@, q, k as nat),
                ),
        decreases nq - query,
    {
        let mut heap = ReaderTopKHeap::new(k);
        if seed_ids.len() != 0 {
            assert(0 <= query * k && query * k + k <= nq * k) by (nonlinear_arith)
                requires
                    0 <= query < nq,
                    0 <= k,
            ;
            seed_heap(&mut heap, seed_ids, seed_distances, query * k, k);
        }
        heaps.push(heap);
        query = query + 1;
    }
    heaps
}

/// The identifiers of the first `n` results, one behind the other.
pub open spec fn result_ids(entries: spec_fn(int) -> Seq<(u32, i64)>, k: nat, n: nat) -> Seq<i64>
    decreases n,
{
    if n == 0 {
        Seq::empty()
    } else {
        result_ids(entries, k, (n - 1) as nat) + top_k::padded_ids(
            top_k::sorted_by_distance(entries(n - 1)),
            k,
        )
    }
}

/// The distances of the first `n` results, one behind the other.
pub open spec fn result_distances(entries: spec_fn(int) -> Seq<(u32, i64)>, k: nat, n: nat) -> Seq<
    u32,
>
    decreases n,
{
    if n == 0 {
        Seq::empty()
    } else {
        result_distances(entries, k, (n - 1) as nat) + top_k::padded_distances(
            top_k::sorted_by_distance(entries(n - 1)),
            k,
        )
    }
}

/// The results of a batch stand one behind the other: the places of a query hold the result
/// of that query.
pub proof fn law_results_stand_in_rows(
    entries: spec_fn(int) -> Seq<(u32, i64)>,
    k: nat,
    n: nat,
    query: int,
)
    requires
        0 <= query < n,
    ensures
        result_ids(entries, k, n).len() == n * k,
        result_distances(entries, k, n).len() == n * k,
        rows::row(result_ids(entries, k, n), query, k) == top_k::padded_ids(
            top_k::sorted_by_distance(entries(query)),
            k,
        ),
        rows::row(result_distances(entries, k, n), query, k) == top_k::padded_distances(
            top_k::sorted_by_distance(entries(query)),
            k,
        ),
    decreases n,
{
    let ids = top_k::padded_ids(top_k::sorted_by_distance(entries(n - 1)), k);
    let distances = top_k::padded_distances(top_k::sorted_by_distance(entries(n - 1)), k);
    assert(n * k == (n - 1) * k + k) by (nonlinear_arith);
    if n == 1 {
        assert(0 * k == 0) by (nonlinear_arith);
        assert(result_ids(entries, k, 0).len() == 0 && result_distances(entries, k, 0).len() == 0);
    } else if query < n - 1 {
        law_results_stand_in_rows(entries, k, (n - 1) as nat, query);
        rows::lemma_row_fits(query, n - 1, k as int);
    } else {
        law_results_stand_in_rows(entries, k, (n - 1) as nat, 0);
    }
    if query == n - 1 {
        assert(rows::row(result_ids(entries, k, n), query, k) =~= ids);
        assert(rows::row(result_distances(entries, k, n), query, k) =~= distances);
    } else {
        assert(rows::row(result_ids(entries, k, n), query, k) =~= rows::row(
            result_ids(entries, k, (n - 1) as nat),
            query,
            k,
        ));
        assert(rows::row(result_distances(entries, k, n), query, k) =~= rows::row(
            result_distances(entries, k, (n - 1) as nat),
            query,
            k,
        ));
    }
}

/// Gives the results of a batch out, `k` places for each query.
pub(crate) fn collect_results(
    heaps: &Vec<ReaderTopKHeap>,
    k: usize,
    entries: Ghost<spec_fn(int) -> Seq<(u32, i64)>>,
) -> (result: (Vec<i64>, Vec<u32>))
    requires
        all_sound(heaps@, k as nat),
        forall|q: int| 0 <= q < heaps@.len() ==> (#[trigger] heaps@[q]).entries() == entries@(q),
    ensures
        result.0@ == result_ids(entries@, k as nat, heaps@.len()),
        result.1@ == result_distances(entries@, k as nat, heaps@.len()),
{
    let mut ids: Vec<i64> = Vec::new();
    let mut distances: Vec<u32> = Vec::new();
    let mut query: usize = 0;
    while query < heaps.len()
        invariant
            query <= heaps@.len(),
            all_sound(heaps@, k as nat),
            forall|q: int|
                0 <= q < heaps@.len() ==> (#[trigger] heaps@[q]).entries() == entries@(q),
            ids@ == result_ids(entries@, k as nat, query as nat),
            distances@ == result_distances(entries@, k as nat, query as nat),
        decreases heaps@.len() - query,
    {
        let (mut row_ids, mut row_distances) = padded_results(&heaps[query], k);
        ids.append(&mut row_ids);
        distances.append(&mut row_distances);
        query = query + 1;
    }
    (ids, distances)
}

/// The rows of a list and their distances from one query.
#[derive(Debug)]
pub struct ScannedList {
    pub ids: Vec<i64>,
    pub distances: Vec<u32>,
}

/// The rows of a list and, for each query of a batch that probes the list, their distances
/// from that query. The distances of other queries are not looked at.
#[derive(Debug)]
pub struct ListRows {
    pub ids: Vec<i64>,
    pub distances: Vec<Vec<u32>>,
}

/// Whether there are rows for each list of a plan, with distances for each query that
/// probes it.
pub open spec fn rows_match(plan: &ProbePlan, rows: Seq<ListRows>, nq: nat) -> bool {
    &&& rows.len() == plan.lists@.len()
    &&& forall|p: int|
        0 <= p < rows.len() ==> plan.lists@[p] < plan.queries@.len() && (
        #[trigger] rows[p]).distances@.len() == nq
    &&& forall|p: int, v: int|
        0 <= p < rows.len() && 0 <= v < plan.queries@[plan.lists@[p] as int]@.len()
            ==> #[trigger] plan.queries@[plan.lists@[p] as int]@[v] < nq
}

/// The entries that a query gets from the first `n` visits to a list.
pub open spec fn visit_entries(visitors: Seq<usize>, query: int, entries: Seq<(u32, i64)>, n: nat) -> Seq<
    (u32, i64),
>
    decreases n,
{
    if n == 0 {
        Seq::empty()
    } else {
        let before = visit_entries(visitors, query, entries, (n - 1) as nat);
        if visitors[n - 1] == query {
            before + entries
        } else {
            before
        }
    }
}

/// Whether collections hold what their queries had before and were offered since.
pub open spec fn all_offered(
    heaps: Seq<ReaderTopKHeap>,
    before: spec_fn(int) -> Seq<(u32, i64)>,
    offered: spec_fn(int) -> Seq<(u32, i64)>,
    k: nat,
) -> bool {
    forall|q: int|
        0 <= q < heaps.len() ==> (#[trigger] heaps[q]).entries() == top_k::after_pushes(
            k,
            before(q),
            offered(q),
        )
}

/// Where a batch of lists begins, given where each one ends.
pub open spec fn batch_start(ends: Seq<usize>, batch: int) -> int {
    if batch == 0 {
        0
    } else {
        ends[batch - 1] as int
    }
}

/// Whether batches end one after the other, the last one behind all lists.
pub open spec fn batches_cover(ends: Seq<usize>, n: nat) -> bool {
    &&& forall|b: int| 0 <= b < ends.len() ==> batch_start(ends, b) <= #[trigger] ends[b] <= n
    &&& n > 0 ==> ends.len() > 0 && ends.last() == n
}

/// Whether [`top_k::rows_comparable`] holds of the rows of each list.
pub open spec fn all_comparable<F: RowIdFilter>(
    lists: Seq<ScannedList>,
    filter: Option<&F>,
) -> bool {
    forall|i: int|
        0 <= i < lists.len() ==> top_k::rows_comparable(
            filter,
            (#[trigger] lists[i]).ids@,
            lists[i].distances@,
        )
}

/// Tells whether the rows of each list have distances, and those that pass a filter numbers.
pub fn lists_are_comparable<F: RowIdFilter>(lists: &Vec<ScannedList>, filter: Option<&F>) -> (result:
    bool)
    ensures
        result == all_comparable(lists@, filter),
{
    let mut i: usize = 0;
    while i < lists.len()
        invariant
            i <= lists@.len(),
            forall|j: int|
                0 <= j < i ==> top_k::rows_comparable(
                    filter,
                    (#[trigger] lists@[j]).ids@,
                    lists@[j].distances@,
                ),
        decreases lists@.len() - i,
    {
        let list = &lists[i];
        if !rows_are_comparable(list.ids.as_slice(), list.distances.as_slice(), filter) {
            assert(!top_k::rows_comparable(
                filter,
                lists@[i as int].ids@,
                lists@[i as int].distances@,
            ));
            return false;
        }
        i = i + 1;
    }
    true
}

/// Whether the rows of a list that pass a filter have numbers for their distances from a
/// query, if its rows have distances from it.
pub open spec fn measured_comparable<F: RowIdFilter>(
    filter: Option<&F>,
    rows: ListRows,
    query: int,
) -> bool {
    rows.ids@.len() == rows.distances@[query]@.len() ==> top_k::rows_comparable(
        filter,
        rows.ids@,
        rows.distances@[query]@,
    )
}

/// Whether [`measured_comparable`] holds of each list and each query of a batch.
pub open spec fn batch_comparable<F: RowIdFilter>(
    rows: Seq<ListRows>,
    nq: nat,
    filter: Option<&F>,
) -> bool {
    forall|p: int, q: int|
        0 <= p < rows.len() && 0 <= q < nq ==> #[trigger] measured_comparable(filter, rows[p], q)
}

/// Tells whether the rows of a batch that pass a filter have numbers for their distances.
pub fn batch_is_comparable<F: RowIdFilter>(rows: &Vec<ListRows>, nq: usize, filter: Option<&F>) -> (result:
    bool)
    requires
        forall|p: int| 0 <= p < rows@.len() ==> (#[trigger] rows@[p]).distances@.len() == nq,
    ensures
        result == batch_comparable(rows@, nq as nat, filter),
{
    let mut p: usize = 0;
    while p < rows.len()
        invariant
            p <= rows@.len(),
            forall|p: int| 0 <= p < rows@.len() ==> (#[trigger] rows@[p]).distances@.len() == nq,
            forall|i: int, q: int|
                0 <= i < p && 0 <= q < nq ==> #[trigger] measured_comparable(filter, rows@[i], q),
        decreases rows@.len() - p,
    {
        let list = &rows[p];
        assert(rows@[p as int].distances@.len() == nq);
        let mut query: usize = 0;
        while query < nq
            invariant
                query <= nq,
                p < rows@.len(),
                *list == rows@[p as int],
                list.distances@.len() == nq,
                forall|q: int|
                    0 <= q < query ==> #[trigger] measured_comparable(filter, rows@[p as int], q),
            decreases nq - query,
        {
            let distances = &list.distances[query];
            if list.ids.len() == distances.len() && !rows_are_comparable(
                list.ids.as_slice(),
                distances.as_slice(),
                filter,
            ) {
                assert(!measured_comparable(filter, rows@[p as int], query as int));
                return false;
            }
            query = query + 1;
        }
        p = p + 1;
    }
    true
}

} // verus!
