//! Scanning the lists of an IVF-SQ index for one query.
//!
//! Lists are read in batches. The rows of a small batch are offered list by list. Of a large
//! batch only the first list is: the distance of the farthest row that was found by then is
//! the limit for the others, which are scanned apart, each into a result of its own, and
//! merged in their order, so that they can be scanned at the same time.
use vstd::prelude::*;
use crate::filter::RowIdFilter;
use crate::float_bits;
use crate::float_bits::f32_is_less;
use crate::ivf_search;
use crate::ivf_search::{ListRows, ScannedList};
use crate::top_k;
use crate::top_k::{merge_results, scan_rows, ReaderTopKHeap};

verus! {

/// The number of rows from which on it pays to scan lists apart.
pub const PARALLEL_SQ_SCAN_MIN_CANDIDATES: usize = 0x2000;

/// The identifiers and the distances of the rows of each list.
pub open spec fn measured(lists: Seq<ScannedList>) -> Seq<(Seq<i64>, Seq<u32>)> {
    Seq::new(lists.len(), |i: int| (lists[i].ids@, lists[i].distances@))
}

/// The identifiers and the distances from a query of the rows of each list.
pub open spec fn measured_for(rows: Seq<ListRows>, query: int) -> Seq<(Seq<i64>, Seq<u32>)> {
    Seq::new(rows.len(), |p: int| (rows[p].ids@, rows[p].distances@[query]@))
}

/// The number of rows of the lists from `start` up to but not `end`.
pub open spec fn candidate_count(lists: Seq<(Seq<i64>, Seq<u32>)>, start: int, end: int) -> nat
    decreases end - start,
{
    if end <= start {
        0
    } else {
        candidate_count(lists, start, end - 1) + lists[end - 1].0.len()
    }
}

/// The distance below which an entry is taken into a collection that is full.
pub open spec fn distance_limit(k: nat, entries: Seq<(u32, i64)>) -> Option<u32> {
    if k > 0 && entries.len() >= k {
        Some(entries[top_k::worst_position(entries)].0)
    } else {
        None
    }
}

/// Whether a distance is below a limit, if there is one.
pub open spec fn is_below(limit: Option<u32>, distance: u32) -> bool {
    match limit {
        Some(limit) => float_bits::f32_less(distance, limit),
        None => true,
    }
}

/// The entries with distances below a limit.
pub open spec fn below(limit: Option<u32>, entries: Seq<(u32, i64)>) -> Seq<(u32, i64)>
    decreases entries.len(),
{
    if entries.len() == 0 {
        Seq::empty()
    } else {
        let before = below(limit, entries.drop_last());
        if is_below(limit, entries.last().0) {
            before.push(entries.last())
        } else {
            before
        }
    }
}

/// What the lists from `start` up to but not `end` add to a result where they are scanned
/// one after the other.
pub open spec fn together<F: RowIdFilter>(
    lists: Seq<(Seq<i64>, Seq<u32>)>,
    filter: Option<&F>,
    start: int,
    end: int,
) -> Seq<(u32, i64)>
    decreases end - start,
{
    if end <= start {
        Seq::empty()
    } else {
        together(lists, filter, start, end - 1) + top_k::passing(
            filter,
            lists[end - 1].0,
            lists[end - 1].1,
        )
    }
}

/// What the lists from `start` up to but not `end` add to a result where they are scanned
/// apart with a limit.
pub open spec fn apart<F: RowIdFilter>(
    lists: Seq<(Seq<i64>, Seq<u32>)>,
    filter: Option<&F>,
    k: nat,
    limit: Option<u32>,
    start: int,
    end: int,
) -> Seq<(u32, i64)>
    decreases end - start,
{
    if end <= start {
        Seq::empty()
    } else {
        apart(lists, filter, k, limit, start, end - 1) + top_k::result_of(
            k,
            below(limit, top_k::passing(filter, lists[end - 1].0, lists[end - 1].1)),
        )
    }
}

/// What a batch of lists adds to what was offered before.
pub open spec fn batch_offer<F: RowIdFilter>(
    lists: Seq<(Seq<i64>, Seq<u32>)>,
    filter: Option<&F>,
    k: nat,
    before: Seq<(u32, i64)>,
    start: int,
    end: int,
) -> Seq<(u32, i64)> {
    if start < end && candidate_count(lists, start, end) >= PARALLEL_SQ_SCAN_MIN_CANDIDATES {
        let first = top_k::passing(filter, lists[start].0, lists[start].1);
        let limit = distance_limit(k, top_k::after_pushes(k, Seq::empty(), before + first));
        first + apart(lists, filter, k, limit, start + 1, end)
    } else {
        together(lists, filter, start, end)
    }
}

/// Seeds, and what the first `n` batches of lists add to them, given where each batch ends.
pub open spec fn offered<F: RowIdFilter>(
    lists: Seq<(Seq<i64>, Seq<u32>)>,
    ends: Seq<usize>,
    filter: Option<&F>,
    k: nat,
    seeds: Seq<(u32, i64)>,
    n: nat,
) -> Seq<(u32, i64)>
    decreases n,
{
    if n == 0 {
        seeds
    } else {
        let before = offered(lists, ends, filter, k, seeds, (n - 1) as nat);
        before + batch_offer(
            lists,
            filter,
            k,
            before,
            ivf_search::batch_start(ends, n - 1),
            ends[n - 1] as int,
        )
    }
}

/// Whether the rows of each list that is scanned apart in a batch can be ordered on their own.
pub open spec fn batch_orders<F: RowIdFilter>(
    lists: Seq<(Seq<i64>, Seq<u32>)>,
    ends: Seq<usize>,
    filter: Option<&F>,
    k: nat,
    seeds: Seq<(u32, i64)>,
    batch: int,
) -> bool {
    let start = ivf_search::batch_start(ends, batch);
    let end = ends[batch] as int;
    let before = offered(lists, ends, filter, k, seeds, batch as nat);
    let first = top_k::passing(filter, lists[start].0, lists[start].1);
    let limit = distance_limit(k, top_k::after_pushes(k, Seq::empty(), before + first));
    start < end && candidate_count(lists, start, end) >= PARALLEL_SQ_SCAN_MIN_CANDIDATES
        ==> forall|i: int|
        start < i < end ==> top_k::orderable(
            k,
            below(limit, top_k::passing(filter, (#[trigger] lists[i]).0, lists[i].1)),
        )
}

/// Whether the rows of batches of lists can be ordered for a query, with its seeds before
/// them.
pub open spec fn batches_order<F: RowIdFilter>(
    lists: Seq<(Seq<i64>, Seq<u32>)>,
    ends: Seq<usize>,
    filter: Option<&F>,
    k: nat,
    seeds: Seq<(u32, i64)>,
) -> bool {
    &&& top_k::orderable(k, offered(lists, ends, filter, k, seeds, ends.len()))
    &&& forall|b: int|
        0 <= b < ends.len() ==> #[trigger] batch_orders(lists, ends, filter, k, seeds, b)
}

fn count_candidates(lists: &Vec<ScannedList>, start: usize, end: usize) -> (count: usize)
    requires
        start <= end <= lists@.len(),
    ensures
        count == candidate_count(measured(lists@), start as int, end as int) || (count
            == usize::MAX && candidate_count(measured(lists@), start as int, end as int)
            > usize::MAX),
{
    let mut count: usize = 0;
    let mut i: usize = start;
    while i < end
        invariant
            start <= i <= end <= lists@.len(),
            count == candidate_count(measured(lists@), start as int, i as int) || (count
                == usize::MAX && candidate_count(measured(lists@), start as int, i as int)
                > usize::MAX),
        decreases end - i,
    {
        assert(measured(lists@)[i as int].0 == lists@[i as int].ids@);
        count = count.saturating_add(lists[i].ids.len());
        i = i + 1;
    }
    count
}

/// Offers the rows that pass a filter and are below a limit.
fn scan_rows_below<F: RowIdFilter>(
    heap: &mut ReaderTopKHeap,
    ids: &[i64],
    distances: &[u32],
    filter: Option<&F>,
    limit: Option<u32>,
)
    requires
        old(heap).wf(),
        ids@.len() == distances@.len(),
    ensures
        final(heap).wf(),
        final(heap).limit() == old(heap).limit(),
        final(heap).entries() == top_k::after_pushes(
            old(heap).limit(),
            old(heap).entries(),
            below(limit, top_k::passing(filter, ids@, distances@)),
        ),
{
    let mut row: usize = 0;
    while row < ids.len()
        invariant
            row <= ids@.len(),
            heap.wf(),
            heap.limit() == old(heap).limit(),
            ids@.len() == distances@.len(),
            heap.entries() == top_k::after_pushes(
                heap.limit(),
                old(heap).entries(),
                below(limit, top_k::passing(filter, ids@.subrange(0, row as int), distances@)),
            ),
        decreases ids@.len() - row,
    {
        let id: i64 = ids[row];
        let distance: u32 = distances[row];
        let ghost seen = ids@.subrange(0, row + 1);
        let ghost earlier = top_k::passing(filter, ids@.subrange(0, row as int), distances@);
        assert(seen.drop_last() =~= ids@.subrange(0, row as int));
        let admitted: bool = match filter {
            Some(filter) => filter.contains(id),
            None => true,
        };
        if admitted {
            assert(earlier.push((distance, id)).drop_last() =~= earlier);
            let near: bool = match limit {
                Some(limit) => f32_is_less(distance, limit),
                None => true,
            };
            if near {
                let ghost kept = below(limit, earlier);
                heap.push(distance, id);
                assert(kept.push((distance, id)).drop_last() =~= kept);
            }
        }
        row = row + 1;
    }
    assert(ids@.subrange(0, row as int) =~= ids@);
}

/// Scans lists one after the other.
fn scan_together<F: RowIdFilter>(
    heap: &mut ReaderTopKHeap,
    lists: &Vec<ScannedList>,
    filter: Option<&F>,
    start: usize,
    end: usize,
)
    requires
        old(heap).wf(),
        start <= end <= lists@.len(),
        ivf_search::lists_measured(lists@),
    ensures
        final(heap).wf(),
        final(heap).limit() == old(heap).limit(),
        final(heap).entries() == top_k::after_pushes(
            old(heap).limit(),
            old(heap).entries(),
            together(measured(lists@), filter, start as int, end as int),
        ),
{
    let ghost before = heap.entries();
    let mut i: usize = start;
    while i < end
        invariant
            start <= i <= end <= lists@.len(),
            heap.wf(),
            heap.limit() == old(heap).limit(),
            ivf_search::lists_measured(lists@),
            heap.entries() == top_k::after_pushes(
                heap.limit(),
                before,
                together(measured(lists@), filter, start as int, i as int),
            ),
        decreases end - i,
    {
        let list = &lists[i];
        assert(measured(lists@)[i as int] == (list.ids@, list.distances@));
        scan_rows(list.ids.as_slice(), list.distances.as_slice(), filter, heap);
        proof {
            top_k::law_pushes_compose(
                heap.limit(),
                before,
                together(measured(lists@), filter, start as int, i as int),
                top_k::passing(filter, list.ids@, list.distances@),
            );
        }
        i = i + 1;
    }
}

/// Scans lists apart, with a limit.
fn scan_apart<F: RowIdFilter>(
    heap: &mut ReaderTopKHeap,
    lists: &Vec<ScannedList>,
    filter: Option<&F>,
    k: usize,
    limit: Option<u32>,
    start: usize,
    end: usize,
)
    requires
        old(heap).wf(),
        old(heap).limit() == k,
        start <= end <= lists@.len(),
        ivf_search::lists_measured(lists@),
    ensures
        final(heap).wf(),
        final(heap).limit() == k,
        final(heap).entries() == top_k::after_pushes(
            k as nat,
            old(heap).entries(),
            apart(measured(lists@), filter, k as nat, limit, start as int, end as int),
        ),
{
    let ghost before = heap.entries();
    let mut i: usize = start;
    while i < end
        invariant
            start <= i <= end <= lists@.len(),
            heap.wf(),
            heap.limit() == k,
            ivf_search::lists_measured(lists@),
            heap.entries() == top_k::after_pushes(
                k as nat,
                before,
                apart(measured(lists@), filter, k as nat, limit, start as int, i as int),
            ),
        decreases end - i,
    {
        let list = &lists[i];
        assert(measured(lists@)[i as int] == (list.ids@, list.distances@));
        let mut own = ReaderTopKHeap::new(k);
        scan_rows_below(
            &mut own,
            list.ids.as_slice(),
            list.distances.as_slice(),
            filter,
            limit,
        );
        let results = own.to_sorted();
        merge_results(heap, &results);
        proof {
            top_k::law_pushes_compose(
                k as nat,
                before,
                apart(measured(lists@), filter, k as nat, limit, start as int, i as int),
                results@,
            );
        }
        i = i + 1;
    }
}

/// Scans the lists of one query, batch by batch.
pub(crate) fn scan_batches<F: RowIdFilter>(
    heap: &mut ReaderTopKHeap,
    lists: &Vec<ScannedList>,
    ends: &Vec<usize>,
    filter: Option<&F>,
    k: usize,
    seeds: Ghost<Seq<(u32, i64)>>,
)
    requires
        old(heap).wf(),
        old(heap).limit() == k,
        old(heap).entries() == top_k::after_pushes(k as nat, Seq::empty(), seeds@),
        ivf_search::batches_cover(ends@, lists@.len()),
        ivf_search::lists_measured(lists@),
    ensures
        final(heap).wf(),
        final(heap).limit() == k,
        final(heap).entries() == top_k::after_pushes(
            k as nat,
            Seq::empty(),
            offered(measured(lists@), ends@, filter, k as nat, seeds@, ends@.len()),
        ),
{
    let ghost seeds = seeds@;
    let mut start: usize = 0;
    let mut batch: usize = 0;
    while batch < ends.len()
        invariant
            batch <= ends@.len(),
            start == ivf_search::batch_start(ends@, batch as int),
            start <= lists@.len(),
            heap.wf(),
            heap.limit() == k,
            ivf_search::batches_cover(ends@, lists@.len()),
            ivf_search::lists_measured(lists@),
            heap.entries() == top_k::after_pushes(
                k as nat,
                Seq::empty(),
                offered(measured(lists@), ends@, filter, k as nat, seeds, batch as nat),
            ),
        decreases ends@.len() - batch,
    {
        let end: usize = ends[batch];
        let ghost before = offered(
            measured(lists@),
            ends@,
            filter,
            k as nat,
            seeds,
            batch as nat,
        );
        let count: usize = count_candidates(lists, start, end);
        if start < end && count >= PARALLEL_SQ_SCAN_MIN_CANDIDATES {
            let first = &lists[start];
            let ghost rows = top_k::passing(filter, first.ids@, first.distances@);
            assert(measured(lists@)[start as int] == (first.ids@, first.distances@));
            scan_rows(first.ids.as_slice(), first.distances.as_slice(), filter, heap);
            proof {
                top_k::law_pushes_compose(k as nat, Seq::empty(), before, rows);
            }
            let limit: Option<u32> = heap.worst_distance();
            assert(limit == distance_limit(k as nat, heap.entries()));
            scan_apart(heap, lists, filter, k, limit, start + 1, end);
            proof {
                let others = apart(
                    measured(lists@),
                    filter,
                    k as nat,
                    limit,
                    start + 1,
                    end as int,
                );
                top_k::law_pushes_compose(k as nat, Seq::empty(), before + rows, others);
                assert((before + rows) + others =~= before + (rows + others));
            }
        } else {
            scan_together(heap, lists, filter, start, end);
            proof {
                top_k::law_pushes_compose(
                    k as nat,
                    Seq::empty(),
                    before,
                    together(measured(lists@), filter, start as int, end as int),
                );
            }
        }
        start = end;
        batch = batch + 1;
    }
}

} // verus!
