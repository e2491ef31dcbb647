//! What a search is for: the nearest of the rows that it is given, and of no others.
//!
//! The laws here speak of the identifiers and the distances that a search gets and gives,
//! however it goes about its work.
use vstd::prelude::*;
use crate::batch_laws;
use crate::error::ErrorView;
use crate::filter;
use crate::filter::{RoaringFilter, RowIdFilter};
use crate::flat_scan;
use crate::flat_search;
use crate::float_bits;
use crate::ivf_search;
use crate::ivf_search::{ListRows, ScannedList};
use crate::probes;
use crate::probes::ProbePlan;
use crate::search_laws;
use crate::sq_scan;
use crate::sq_search;
use crate::top_k;

verus! {

/// Whether a filter admits a row.
pub open spec fn admitted<F: RowIdFilter>(filter: Option<&F>) -> spec_fn((u32, i64)) -> bool {
    |row: (u32, i64)|
        match filter {
            Some(filter) => filter.admits(row.1),
            None => true,
        }
}

/// The rows of a list that a filter admits, each with its distance. Without a filter these are
/// all rows.
pub open spec fn list_rows<F: RowIdFilter>(
    filter: Option<&F>,
    ids: Seq<i64>,
    distances: Seq<u32>,
) -> Seq<(u32, i64)> {
    Seq::new(ids.len(), |i: int| (distances[i], ids[i])).filter(admitted(filter))
}

/// The rows of several lists that a filter admits.
pub open spec fn all_rows<F: RowIdFilter>(lists: Seq<ScannedList>, filter: Option<&F>) -> Seq<
    (u32, i64),
> {
    Seq::new(
        lists.len(),
        |l: int| list_rows(filter, lists[l].ids@, lists[l].distances@),
    ).flatten()
}

/// Whether each row of several lists has a distance, and each that a filter admits one that is
/// a number.
pub open spec fn have_numbers<F: RowIdFilter>(
    lists: Seq<ScannedList>,
    filter: Option<&F>,
) -> bool {
    forall|l: int|
        0 <= l < lists.len() ==> {
            &&& (#[trigger] lists[l]).ids@.len() == lists[l].distances@.len()
            &&& forall|i: int|
                0 <= i < lists[l].ids@.len() && (match filter {
                    Some(filter) => filter.admits(lists[l].ids@[i]),
                    None => true,
                }) ==> #[trigger] lists[l].distances@[i] % 0x8000_0000 <= 0x7F80_0000
        }
}

/// A scan of a list offers every row that the filter admits, as often as the list has it and
/// in the order of the list, and nothing else.
pub proof fn law_scans_offer_every_row<F: RowIdFilter>(
    filter: Option<&F>,
    ids: Seq<i64>,
    distances: Seq<u32>,
)
    requires
        ids.len() <= distances.len(),
    ensures
        top_k::passing(filter, ids, distances) == list_rows(filter, ids, distances),
        filter is None ==> top_k::passing(filter, ids, distances).len() == ids.len(),
    decreases ids.len(),
{
    reveal(Seq::filter);
    let rows = Seq::new(ids.len(), |i: int| (distances[i], ids[i]));
    if ids.len() > 0 {
        let fewer = ids.drop_last();
        law_scans_offer_every_row(filter, fewer, distances);
        assert(rows.drop_last() =~= Seq::new(fewer.len(), |i: int| (distances[i], fewer[i])));
    }
}

/// Every row of a list that a filter admits is offered as often as it stands in the list.
pub proof fn law_rows_are_offered_as_often_as_they_stand<F: RowIdFilter>(
    filter: Option<&F>,
    ids: Seq<i64>,
    distances: Seq<u32>,
    row: (u32, i64),
)
    requires
        ids.len() <= distances.len(),
    ensures
        top_k::passing(filter, ids, distances).to_multiset().count(row) == if (match filter {
            Some(filter) => filter.admits(row.1),
            None => true,
        }) {
            Seq::new(ids.len(), |i: int| (distances[i], ids[i])).to_multiset().count(row)
        } else {
            0
        },
    decreases ids.len(),
{
    broadcast use vstd::seq_lib::group_to_multiset_ensures;

    let rows = Seq::new(ids.len(), |i: int| (distances[i], ids[i]));
    if ids.len() > 0 {
        let fewer = ids.drop_last();
        law_rows_are_offered_as_often_as_they_stand(filter, fewer, distances, row);
        let earlier = Seq::new(fewer.len(), |i: int| (distances[i], fewer[i]));
        assert(rows =~= earlier.push((distances[ids.len() - 1], ids.last())));
    }
}

proof fn lemma_all_rows<F: RowIdFilter>(lists: Seq<ScannedList>, filter: Option<&F>, n: nat)
    requires
        n <= lists.len(),
        ivf_search::lists_measured(lists),
    ensures
        batch_laws::scanned_entries(lists, filter, n) == Seq::new(
            n,
            |l: int| list_rows(filter, lists[l].ids@, lists[l].distances@),
        ).flatten_alt(),
    decreases n,
{
    let parts = Seq::new(n, |l: int| list_rows(filter, lists[l].ids@, lists[l].distances@));
    if n > 0 {
        lemma_all_rows(lists, filter, (n - 1) as nat);
        assert(parts.drop_last() =~= Seq::new(
            (n - 1) as nat,
            |l: int| list_rows(filter, lists[l].ids@, lists[l].distances@),
        ));
        assert(lists[n - 1].ids@.len() == lists[n - 1].distances@.len());
        law_scans_offer_every_row(filter, lists[n - 1].ids@, lists[n - 1].distances@);
    }
}

proof fn lemma_rows_have_numbers<F: RowIdFilter>(lists: Seq<ScannedList>, filter: Option<&F>)
    requires
        have_numbers(lists, filter),
    ensures
        ivf_search::all_comparable(lists, filter),
        ivf_search::lists_measured(lists),
        batch_laws::scanned_entries(lists, filter, lists.len()) == all_rows(lists, filter),
{
    assert forall|l: int| 0 <= l < lists.len() implies top_k::rows_comparable(
        filter,
        (#[trigger] lists[l]).ids@,
        lists[l].distances@,
    ) by {
        lemma_passing_numbers(filter, lists[l].ids@, lists[l].distances@);
    }
    lemma_all_rows(lists, filter, lists.len());
    Seq::new(
        lists.len(),
        |l: int| list_rows(filter, lists[l].ids@, lists[l].distances@),
    ).lemma_flatten_and_flatten_alt_are_equivalent();
}

proof fn lemma_passing_numbers<F: RowIdFilter>(
    filter: Option<&F>,
    ids: Seq<i64>,
    distances: Seq<u32>,
)
    requires
        ids.len() <= distances.len(),
        forall|i: int|
            0 <= i < ids.len() && (match filter {
                Some(filter) => filter.admits(ids[i]),
                None => true,
            }) ==> #[trigger] distances[i] % 0x8000_0000 <= 0x7F80_0000,
    ensures
        top_k::comparable(top_k::passing(filter, ids, distances)),
    decreases ids.len(),
{
    if ids.len() > 0 {
        let fewer = ids.drop_last();
        lemma_passing_numbers(filter, fewer, distances);
        let last = distances[ids.len() - 1];
        if filter::passes(filter, ids.last()) {
            assert(last % 0x8000_0000 <= 0x7F80_0000);
            assert(!float_bits::f32_nan(last));
        }
    }
}

/// A search of an IVF-FLAT index for one query gives the nearest of all rows of the lists that
/// it scans, as far as the filter admits them.
pub proof fn law_flat_search_finds_the_nearest<F: RowIdFilter>(
    result: (Vec<i64>, Vec<u32>),
    lists: Seq<ScannedList>,
    ends: Seq<usize>,
    filter: Option<&F>,
    k: nat,
    d: nat,
)
    requires
        flat_search::found_in_lists(result, lists, ends, filter, k, d),
        ivf_search::batches_cover(ends, lists.len()),
        have_numbers(lists, filter),
        k <= usize::MAX,
    ensures
        search_laws::holds_nearest(result.0@, result.1@, all_rows(lists, filter), k),
{
    lemma_rows_have_numbers(lists, filter);
    batch_laws::lemma_flat_search_stands_for_rows(lists, ends, filter, k, d);
    search_laws::lemma_result_holds_nearest(
        k,
        flat_scan::batches_offer(lists, ends, filter, k, d, ends.len()),
        all_rows(lists, filter),
    );
}

/// The places of a query among its seeds that hold a row.
pub open spec fn seed_rows(ids: Seq<i64>, distances: Seq<u32>, query: int, k: nat) -> Seq<
    (u32, i64),
> {
    if ids.len() == 0 {
        Seq::empty()
    } else {
        Seq::new(k, |i: int| (distances[query * k + i], ids[query * k + i])).filter(
            |row: (u32, i64)| row.0 != 0x7F7F_FFFF,
        )
    }
}

/// The seeds of a query are the places of its earlier result that hold a row.
pub proof fn law_seeds_are_the_rows_of_a_result(
    ids: Seq<i64>,
    distances: Seq<u32>,
    query: int,
    k: nat,
)
    ensures
        ivf_search::seeds_of(ids, distances, query, k) == seed_rows(ids, distances, query, k),
{
    lemma_seed_rows(ids, distances, query * k, k);
}

proof fn lemma_seed_rows(ids: Seq<i64>, distances: Seq<u32>, start: int, n: nat)
    ensures
        ivf_search::seeds_from(ids, distances, start, n) == Seq::new(
            n,
            |i: int| (distances[start + i], ids[start + i]),
        ).filter(|row: (u32, i64)| row.0 != 0x7F7F_FFFF),
    decreases n,
{
    reveal(Seq::filter);
    let places = Seq::new(n, |i: int| (distances[start + i], ids[start + i]));
    if n > 0 {
        lemma_seed_rows(ids, distances, start, (n - 1) as nat);
        assert(places.drop_last() =~= Seq::new(
            (n - 1) as nat,
            |i: int| (distances[start + i], ids[start + i]),
        ));
    }
}

/// A batch of an IVF-FLAT index gives each query the nearest of its seeds and of all rows of
/// the lists that it probes, as far as the filter admits them.
pub proof fn law_flat_batch_finds_the_nearest<F: RowIdFilter>(
    result: (Vec<i64>, Vec<u32>),
    plan: &ProbePlan,
    probed: Seq<Vec<usize>>,
    probe_start: nat,
    nlist: nat,
    rows: Seq<ListRows>,
    ends: Seq<usize>,
    scanned: Seq<ScannedList>,
    filter: Option<&F>,
    seed_ids: Seq<i64>,
    seed_distances: Seq<u32>,
    query: int,
    k: nat,
    d: nat,
)
    requires
        flat_search::found_in_plan(
            result,
            plan,
            rows,
            ends,
            filter,
            seed_ids,
            seed_distances,
            probed.len(),
            k,
            d,
        ),
        probed.len() <= usize::MAX,
        0 <= query < probed.len(),
        probed[query]@.no_duplicates(),
        forall|q: int, i: int|
            0 <= q < probed.len() && 0 <= i < probed[q]@.len() ==> #[trigger] probed[q]@[i] < nlist,
        plan.describes(probes::visits(probed, probe_start, probed.len()), nlist),
        batch_laws::readings_agree(
            plan.lists@,
            rows,
            probes::probed(probed[query]@, probe_start),
            scanned,
            query,
        ),
        ivf_search::batches_cover(ends, rows.len()),
        have_numbers(scanned, filter),
        top_k::comparable(seed_rows(seed_ids, seed_distances, query, k)),
        k <= usize::MAX,
    ensures
        search_laws::holds_nearest(
            result.0@.subrange(query * k, query * k + k),
            result.1@.subrange(query * k, query * k + k),
            seed_rows(seed_ids, seed_distances, query, k) + all_rows(scanned, filter),
            k,
        ),
{
    let seeds = seed_rows(seed_ids, seed_distances, query, k);
    let offer = flat_scan::plan_batches_offer(
        plan,
        rows,
        ends,
        filter,
        k,
        d,
        query,
        ends.len(),
    );
    let entries = flat_search::batch_entries(
        plan,
        rows,
        ends,
        filter,
        seed_ids,
        seed_distances,
        k,
        d,
    );
    law_seeds_are_the_rows_of_a_result(seed_ids, seed_distances, query, k);
    lemma_rows_have_numbers(scanned, filter);
    batch_laws::lemma_flat_batch_stands_for_rows(
        plan,
        probed,
        probe_start,
        nlist,
        rows,
        ends,
        scanned,
        filter,
        query,
        k,
        d,
    );
    search_laws::lemma_interchangeable_with_itself(k, seeds);
    search_laws::lemma_interchangeable_concat(k, seeds, seeds, offer, all_rows(scanned, filter));
    search_laws::lemma_drawn_concat(seeds, seeds, offer, all_rows(scanned, filter));
    search_laws::lemma_result_holds_nearest(
        k,
        seeds + offer,
        seeds + all_rows(scanned, filter),
    );
    ivf_search::law_results_stand_in_rows(entries, k, probed.len(), query);
}

/// A search of an IVF-SQ index for one query gives the nearest of its seeds and of all rows of
/// the lists that it scans, as far as the filter admits them.
pub proof fn law_sq_search_finds_the_nearest<F: RowIdFilter>(
    result: (Vec<i64>, Vec<u32>),
    seed_ids: Seq<i64>,
    seed_distances: Seq<u32>,
    lists: Seq<ScannedList>,
    ends: Seq<usize>,
    filter: Option<&F>,
    k: nat,
)
    requires
        sq_search::found_in_lists(result, seed_ids, seed_distances, lists, ends, filter, k),
        ivf_search::batches_cover(ends, lists.len()),
        have_numbers(lists, filter),
        top_k::comparable(seed_rows(seed_ids, seed_distances, 0, k)),
        k <= usize::MAX,
    ensures
        search_laws::holds_nearest(
            result.0@,
            result.1@,
            seed_rows(seed_ids, seed_distances, 0, k) + all_rows(lists, filter),
            k,
        ),
{
    let seeds = seed_rows(seed_ids, seed_distances, 0, k);
    law_seeds_are_the_rows_of_a_result(seed_ids, seed_distances, 0, k);
    lemma_rows_have_numbers(lists, filter);
    batch_laws::lemma_sq_search_stands_for_rows(lists, ends, filter, k, seeds);
    search_laws::lemma_result_holds_nearest(
        k,
        sq_scan::offered(sq_scan::measured(lists), ends, filter, k, seeds, ends.len()),
        seeds + all_rows(lists, filter),
    );
}

/// A batch of an IVF-SQ index gives each query the nearest of its seeds and of all rows of the
/// lists that it probes, as far as the filter admits them.
pub proof fn law_sq_batch_finds_the_nearest<F: RowIdFilter>(
    result: (Vec<i64>, Vec<u32>),
    probed: Seq<Vec<usize>>,
    probe_start: nat,
    lists: Seq<usize>,
    rows: Seq<ListRows>,
    ends: Seq<usize>,
    scanned: Seq<ScannedList>,
    filter: Option<&F>,
    seed_ids: Seq<i64>,
    seed_distances: Seq<u32>,
    query: int,
    k: nat,
)
    requires
        sq_search::found_in_batches(
            result,
            probed,
            probe_start,
            lists,
            rows,
            ends,
            filter,
            seed_ids,
            seed_distances,
            k,
        ),
        0 <= query < probed.len(),
        probed.len() == 1 ==> lists == probes::probed(probed[0]@, probe_start),
        probes::probed(probed[query]@, probe_start).no_duplicates(),
        lists.no_duplicates(),
        forall|i: int|
            0 <= i < probes::probed(probed[query]@, probe_start).len() ==> lists.contains(
                #[trigger] probes::probed(probed[query]@, probe_start)[i],
            ),
        ivf_search::batches_cover(ends, lists.len()),
        batch_laws::readings_agree(
            lists,
            rows,
            probes::probed(probed[query]@, probe_start),
            scanned,
            query,
        ),
        have_numbers(scanned, filter),
        top_k::comparable(seed_rows(seed_ids, seed_distances, query, k)),
        k <= usize::MAX,
    ensures
        search_laws::holds_nearest(
            result.0@.subrange(query * k, query * k + k),
            result.1@.subrange(query * k, query * k + k),
            seed_rows(seed_ids, seed_distances, query, k) + all_rows(scanned, filter),
            k,
        ),
{
    let own = probes::probed(probed[query]@, probe_start);
    let seeds = seed_rows(seed_ids, seed_distances, query, k);
    let entries = sq_search::batch_entries(
        probed,
        probe_start,
        lists,
        rows,
        ends,
        filter,
        seed_ids,
        seed_distances,
        k,
    );
    let wanted = all_rows(scanned, filter);
    law_seeds_are_the_rows_of_a_result(seed_ids, seed_distances, query, k);
    lemma_rows_have_numbers(scanned, filter);
    ivf_search::law_results_stand_in_rows(entries, k, probed.len(), query);
    if probed.len() == 1 {
        assert(sq_scan::measured_for(rows, query) =~= sq_scan::measured(scanned)) by {
            assert forall|p: int| 0 <= p < rows.len() implies sq_scan::measured_for(rows, query)[p]
                == sq_scan::measured(scanned)[p] by {
                assert(lists[p] == own[p]);
                assert(scanned[p].ids@ == rows[p].ids@);
            }
        }
        batch_laws::lemma_sq_search_stands_for_rows(scanned, ends, filter, k, seeds);
        search_laws::lemma_result_holds_nearest(
            k,
            sq_scan::offered(sq_scan::measured(scanned), ends, filter, k, seeds, ends.len()),
            seeds + wanted,
        );
    } else {
        let offer = sq_search::batched_entries(
            own,
            lists,
            rows,
            ends,
            filter,
            query,
            ends.len(),
        );
        batch_laws::lemma_sq_batch_stands_for_rows(
            own,
            lists,
            rows,
            ends,
            scanned,
            filter,
            query,
            k,
        );
        search_laws::lemma_interchangeable_flip(k, wanted, offer);
        search_laws::lemma_interchangeable_with_itself(k, seeds);
        search_laws::lemma_interchangeable_concat(k, seeds, seeds, offer, wanted);
        search_laws::lemma_drawn_concat(seeds, seeds, offer, wanted);
        search_laws::lemma_result_holds_nearest(k, seeds + offer, seeds + wanted);
    }
}

/// Lists that are scanned in another order have the same rows.
pub proof fn law_order_of_lists_does_not_matter<F: RowIdFilter>(
    stored: Seq<ScannedList>,
    order: Seq<usize>,
    scanned: Seq<ScannedList>,
    filter: Option<&F>,
)
    requires
        stored.len() <= usize::MAX,
        order.no_duplicates(),
        forall|l: usize| #[trigger] order.contains(l) <==> l < stored.len(),
        scanned.len() == order.len(),
        forall|i: int| 0 <= i < order.len() ==> #[trigger] scanned[i] == stored[order[i] as int],
        ivf_search::lists_measured(stored),
    ensures
        all_rows(scanned, filter).to_multiset() == all_rows(stored, filter).to_multiset(),
        all_rows(scanned, filter).len() == all_rows(stored, filter).len(),
{
    broadcast use vstd::seq_lib::group_to_multiset_ensures;

    let reading = |l: usize|
        top_k::passing(filter, stored[l as int].ids@, stored[l as int].distances@);
    let all = Seq::new(stored.len(), |l: int| l as usize);
    assert forall|i: int| 0 <= i < scanned.len() implies (#[trigger] scanned[i]).ids@.len()
        == scanned[i].distances@.len() by {
        assert(order.contains(order[i]));
        assert(scanned[i] == stored[order[i] as int]);
    }
    lemma_readings(stored, order, scanned, filter, reading, order.len());
    assert(order.subrange(0, order.len() as int) =~= order);
    lemma_readings(stored, all, stored, filter, reading, all.len());
    assert(all.subrange(0, all.len() as int) =~= all);
    assert forall|l: usize| #[trigger] order.contains(l) <==> all.contains(l) by {
        if l < stored.len() {
            assert(all[l as int] == l);
        }
    }
    batch_laws::lemma_same_lists(order, all, reading);
    assert(all_rows(scanned, filter).to_multiset().len() == all_rows(scanned, filter).len());
    assert(all_rows(stored, filter).to_multiset().len() == all_rows(stored, filter).len());
    lemma_all_rows(scanned, filter, scanned.len());
    lemma_all_rows(stored, filter, stored.len());
    Seq::new(
        stored.len(),
        |l: int| list_rows(filter, stored[l].ids@, stored[l].distances@),
    ).lemma_flatten_and_flatten_alt_are_equivalent();
    Seq::new(
        scanned.len(),
        |l: int| list_rows(filter, scanned[l].ids@, scanned[l].distances@),
    ).lemma_flatten_and_flatten_alt_are_equivalent();
}

proof fn lemma_readings<F: RowIdFilter>(
    stored: Seq<ScannedList>,
    order: Seq<usize>,
    scanned: Seq<ScannedList>,
    filter: Option<&F>,
    reading: spec_fn(usize) -> Seq<(u32, i64)>,
    n: nat,
)
    requires
        n <= order.len(),
        scanned.len() == order.len(),
        forall|i: int| 0 <= i < order.len() ==> #[trigger] scanned[i] == stored[order[i] as int],
        reading == (|l: usize|
            top_k::passing(filter, stored[l as int].ids@, stored[l as int].distances@)),
    ensures
        batch_laws::scanned_entries(scanned, filter, n) == batch_laws::entries_of(
            order.subrange(0, n as int),
            reading,
        ),
    decreases n,
{
    if n > 0 {
        lemma_readings(stored, order, scanned, filter, reading, (n - 1) as nat);
        assert(order.subrange(0, n as int).drop_last() =~= order.subrange(0, n - 1));
        assert(scanned[n - 1] == stored[order[n - 1] as int]);
    }
}

/// A search of an IVF-FLAT index that probes all lists, in whatever order, gives the nearest
/// of all rows that are stored and that the filter admits.
pub proof fn law_flat_searches_of_all_lists_are_exact<F: RowIdFilter>(
    result: (Vec<i64>, Vec<u32>),
    stored: Seq<ScannedList>,
    order: Seq<usize>,
    scanned: Seq<ScannedList>,
    ends: Seq<usize>,
    filter: Option<&F>,
    k: nat,
    d: nat,
)
    requires
        flat_search::found_in_lists(result, scanned, ends, filter, k, d),
        ivf_search::batches_cover(ends, scanned.len()),
        have_numbers(stored, filter),
        stored.len() <= usize::MAX,
        order.no_duplicates(),
        forall|l: usize| #[trigger] order.contains(l) <==> l < stored.len(),
        scanned.len() == order.len(),
        forall|i: int| 0 <= i < order.len() ==> #[trigger] scanned[i] == stored[order[i] as int],
        k <= usize::MAX,
    ensures
        search_laws::holds_nearest(result.0@, result.1@, all_rows(stored, filter), k),
{
    lemma_scanned_numbers(stored, order, scanned, filter);
    law_flat_search_finds_the_nearest(result, scanned, ends, filter, k, d);
    law_order_of_lists_does_not_matter(stored, order, scanned, filter);
    lemma_nearest_of_same_bag(
        result.0@,
        result.1@,
        all_rows(scanned, filter),
        all_rows(stored, filter),
        k,
    );
}

/// A search of an IVF-SQ index that probes all lists, in whatever order, gives the nearest of
/// all rows that are stored and that the filter admits.
pub proof fn law_sq_searches_of_all_lists_are_exact<F: RowIdFilter>(
    result: (Vec<i64>, Vec<u32>),
    stored: Seq<ScannedList>,
    order: Seq<usize>,
    scanned: Seq<ScannedList>,
    ends: Seq<usize>,
    filter: Option<&F>,
    k: nat,
)
    requires
        sq_search::found_in_lists(
            result,
            Seq::empty(),
            Seq::empty(),
            scanned,
            ends,
            filter,
            k,
        ),
        ivf_search::batches_cover(ends, scanned.len()),
        have_numbers(stored, filter),
        stored.len() <= usize::MAX,
        order.no_duplicates(),
        forall|l: usize| #[trigger] order.contains(l) <==> l < stored.len(),
        scanned.len() == order.len(),
        forall|i: int| 0 <= i < order.len() ==> #[trigger] scanned[i] == stored[order[i] as int],
        k <= usize::MAX,
    ensures
        search_laws::holds_nearest(result.0@, result.1@, all_rows(stored, filter), k),
{
    lemma_scanned_numbers(stored, order, scanned, filter);
    law_sq_search_finds_the_nearest(
        result,
        Seq::empty(),
        Seq::empty(),
        scanned,
        ends,
        filter,
        k,
    );
    assert(Seq::<(u32, i64)>::empty() + all_rows(scanned, filter) =~= all_rows(scanned, filter));
    law_order_of_lists_does_not_matter(stored, order, scanned, filter);
    lemma_nearest_of_same_bag(
        result.0@,
        result.1@,
        all_rows(scanned, filter),
        all_rows(stored, filter),
        k,
    );
}

proof fn lemma_scanned_numbers<F: RowIdFilter>(
    stored: Seq<ScannedList>,
    order: Seq<usize>,
    scanned: Seq<ScannedList>,
    filter: Option<&F>,
)
    requires
        have_numbers(stored, filter),
        forall|l: usize| #[trigger] order.contains(l) <==> l < stored.len(),
        scanned.len() == order.len(),
        forall|i: int| 0 <= i < order.len() ==> #[trigger] scanned[i] == stored[order[i] as int],
    ensures
        have_numbers(scanned, filter),
        ivf_search::lists_measured(stored),
{
    assert forall|l: int| 0 <= l < scanned.len() implies {
        &&& (#[trigger] scanned[l]).ids@.len() == scanned[l].distances@.len()
        &&& forall|i: int|
            0 <= i < scanned[l].ids@.len() && (match filter {
                Some(filter) => filter.admits(scanned[l].ids@[i]),
                None => true,
            }) ==> #[trigger] scanned[l].distances@[i] % 0x8000_0000 <= 0x7F80_0000
    } by {
        assert(order.contains(order[l]));
        let list = stored[order[l] as int];
        assert(scanned[l] == list);
        assert(list.ids@.len() == list.distances@.len());
    }
}

proof fn lemma_nearest_of_same_bag(
    ids: Seq<i64>,
    distances: Seq<u32>,
    a: Seq<(u32, i64)>,
    b: Seq<(u32, i64)>,
    k: nat,
)
    requires
        search_laws::holds_nearest(ids, distances, a, k),
        a.to_multiset() == b.to_multiset(),
        a.len() == b.len(),
    ensures
        search_laws::holds_nearest(ids, distances, b, k),
{
    let found = choose|found: Seq<(u32, i64)>| #[trigger]
        search_laws::are_nearest(found, a, k) && forall|j: int|
            0 <= j < k ==> (#[trigger] ids[j], distances[j]) == if j < found.len() {
                (found[j].1, found[j].0)
            } else {
                (-1i64, 0x7F7F_FFFFu32)
            };
    assert(search_laws::are_nearest(found, b, k));
}

/// A filter that was decoded from a serialized bitmap admits an identifier if and only if it
/// is one of the values of the bitmap. No value is negative.
pub proof fn law_bitmaps_admit_what_they_hold(
    filter: &RoaringFilter,
    bytes: Seq<u8>,
    values: Set<u64>,
    count: nat,
    id: i64,
)
    requires
        filter::decoded_treemap(bytes) == Ok::<(Set<u64>, nat), Seq<char>>((values, count)),
        filter::filter_of(bytes) == Ok::<Set<u64>, ErrorView>(filter.values()),
    ensures
        filter.admits(id) <==> id >= 0 && values.contains(id as u64),
{
}

/// Whether the identifier of a row is among given values.
pub open spec fn valued(values: Set<u64>) -> spec_fn((u32, i64)) -> bool {
    |row: (u32, i64)| row.1 >= 0 && values.contains(row.1 as u64)
}

proof fn lemma_same_choice(
    entries: Seq<(u32, i64)>,
    a: spec_fn((u32, i64)) -> bool,
    b: spec_fn((u32, i64)) -> bool,
)
    requires
        forall|row: (u32, i64)| #[trigger] a(row) == b(row),
    ensures
        entries.filter(a) == entries.filter(b),
    decreases entries.len(),
{
    reveal(Seq::filter);
    if entries.len() > 0 {
        lemma_same_choice(entries.drop_last(), a, b);
    }
}

/// The rows of several lists whose identifiers are among given values.
pub open spec fn rows_among(lists: Seq<ScannedList>, values: Set<u64>) -> Seq<(u32, i64)> {
    Seq::new(
        lists.len(),
        |l: int|
            Seq::new(
                lists[l].ids@.len(),
                |i: int| (lists[l].distances@[i], lists[l].ids@[i]),
            ).filter(valued(values)),
    ).flatten()
}

/// The rows that a decoded bitmap admits are those whose identifiers are among its values.
pub proof fn law_bitmaps_select_their_values(
    lists: Seq<ScannedList>,
    filter: &RoaringFilter,
    bytes: Seq<u8>,
    values: Set<u64>,
    count: nat,
)
    requires
        filter::decoded_treemap(bytes) == Ok::<(Set<u64>, nat), Seq<char>>((values, count)),
        filter::filter_of(bytes) == Ok::<Set<u64>, ErrorView>(filter.values()),
    ensures
        all_rows(lists, Some(filter)) == rows_among(lists, values),
{
    let admits = admitted(Some(filter));
    let among = valued(values);
    assert forall|row: (u32, i64)| #[trigger] admits(row) == among(row) by {
        law_bitmaps_admit_what_they_hold(filter, bytes, values, count, row.1);
    }
    assert forall|l: int| 0 <= l < lists.len() implies list_rows(
        Some(filter),
        (#[trigger] lists[l]).ids@,
        lists[l].distances@,
    ) == Seq::new(
        lists[l].ids@.len(),
        |i: int| (lists[l].distances@[i], lists[l].ids@[i]),
    ).filter(valued(values)) by {
        let all = Seq::new(
            lists[l].ids@.len(),
            |i: int| (lists[l].distances@[i], lists[l].ids@[i]),
        );
        lemma_same_choice(all, admits, among);
        assert(list_rows(Some(filter), lists[l].ids@, lists[l].distances@) == all.filter(admits));
    }
    assert(Seq::new(
        lists.len(),
        |l: int| list_rows(Some(filter), lists[l].ids@, lists[l].distances@),
    ) =~= Seq::new(
        lists.len(),
        |l: int|
            Seq::new(
                lists[l].ids@.len(),
                |i: int| (lists[l].distances@[i], lists[l].ids@[i]),
            ).filter(valued(values)),
    ));
}

/// A search of an IVF-FLAT index with a serialized bitmap gives the nearest of all rows of the
/// lists that it scans whose identifiers the bitmap holds.
pub proof fn law_flat_bitmap_searches_find_the_nearest(
    result: (Vec<i64>, Vec<u32>),
    lists: Seq<ScannedList>,
    ends: Seq<usize>,
    filter: &RoaringFilter,
    bytes: Seq<u8>,
    values: Set<u64>,
    count: nat,
    k: nat,
    d: nat,
)
    requires
        filter::decoded_treemap(bytes) == Ok::<(Set<u64>, nat), Seq<char>>((values, count)),
        filter::filter_of(bytes) == Ok::<Set<u64>, ErrorView>(filter.values()),
        flat_search::found_in_lists(result, lists, ends, Some(filter), k, d),
        ivf_search::batches_cover(ends, lists.len()),
        have_numbers(lists, Some(filter)),
        k <= usize::MAX,
    ensures
        search_laws::holds_nearest(result.0@, result.1@, rows_among(lists, values), k),
{
    law_flat_search_finds_the_nearest(result, lists, ends, Some(filter), k, d);
    law_bitmaps_select_their_values(lists, filter, bytes, values, count);
}

/// A search of an IVF-SQ index with a serialized bitmap gives the nearest of all rows of the
/// lists that it scans whose identifiers the bitmap holds.
pub proof fn law_sq_bitmap_searches_find_the_nearest(
    result: (Vec<i64>, Vec<u32>),
    lists: Seq<ScannedList>,
    ends: Seq<usize>,
    filter: &RoaringFilter,
    bytes: Seq<u8>,
    values: Set<u64>,
    count: nat,
    k: nat,
)
    requires
        filter::decoded_treemap(bytes) == Ok::<(Set<u64>, nat), Seq<char>>((values, count)),
        filter::filter_of(bytes) == Ok::<Set<u64>, ErrorView>(filter.values()),
        sq_search::found_in_lists(
            result,
            Seq::empty(),
            Seq::empty(),
            lists,
            ends,
            Some(filter),
            k,
        ),
        ivf_search::batches_cover(ends, lists.len()),
        have_numbers(lists, Some(filter)),
        k <= usize::MAX,
    ensures
        search_laws::holds_nearest(result.0@, result.1@, rows_among(lists, values), k),
{
    law_sq_search_finds_the_nearest(
        result,
        Seq::empty(),
        Seq::empty(),
        lists,
        ends,
        Some(filter),
        k,
    );
    assert(Seq::<(u32, i64)>::empty() + all_rows(lists, Some(filter)) =~= all_rows(
        lists,
        Some(filter),
    ));
    law_bitmaps_select_their_values(lists, filter, bytes, values, count);
}

/// Whether the row at `i` has a number for its distance, if the filter admits it.
pub open spec fn has_number<F: RowIdFilter>(
    filter: Option<&F>,
    ids: Seq<i64>,
    distances: Seq<u32>,
    i: int,
) -> bool {
    (match filter {
        Some(filter) => filter.admits(ids[i]),
        None => true,
    }) ==> distances[i] % 0x8000_0000 <= 0x7F80_0000
}

/// Whether each row has a distance, and each that the filter admits one that is a number.
pub open spec fn are_numbers<F: RowIdFilter>(
    filter: Option<&F>,
    ids: Seq<i64>,
    distances: Seq<u32>,
) -> bool {
    &&& ids.len() == distances.len()
    &&& forall|i: int| 0 <= i < ids.len() ==> #[trigger] has_number(filter, ids, distances, i)
}

/// Rows can be compared if and only if each has a distance, and each that the filter admits one
/// that is a number.
pub proof fn law_rows_with_numbers_can_be_compared<F: RowIdFilter>(
    filter: Option<&F>,
    ids: Seq<i64>,
    distances: Seq<u32>,
)
    ensures
        top_k::rows_comparable(filter, ids, distances) <==> are_numbers(filter, ids, distances),
{
    if ids.len() == distances.len() {
        lemma_compared(filter, ids, distances);
    }
}

proof fn lemma_compared<F: RowIdFilter>(
    filter: Option<&F>,
    ids: Seq<i64>,
    distances: Seq<u32>,
)
    requires
        ids.len() <= distances.len(),
    ensures
        top_k::comparable(top_k::passing(filter, ids, distances)) <==> forall|i: int|
            0 <= i < ids.len() ==> #[trigger] has_number(filter, ids, distances, i),
    decreases ids.len(),
{
    if ids.len() > 0 {
        let fewer = ids.drop_last();
        let before = top_k::passing(filter, fewer, distances);
        let after = top_k::passing(filter, ids, distances);
        let last = ids.len() - 1;
        lemma_compared(filter, fewer, distances);
        assert forall|i: int| 0 <= i < last implies #[trigger] has_number(filter, ids, distances, i)
            == has_number(filter, fewer, distances, i) by {
            assert(fewer[i] == ids[i]);
        }
        let all = forall|i: int|
            0 <= i < ids.len() ==> #[trigger] has_number(filter, ids, distances, i);
        let most = forall|i: int|
            0 <= i < fewer.len() ==> #[trigger] has_number(filter, fewer, distances, i);
        assert(all <==> most && has_number(filter, ids, distances, last)) by {
            if all {
                assert forall|i: int| 0 <= i < fewer.len() implies #[trigger] has_number(
                    filter,
                    fewer,
                    distances,
                    i,
                ) by {
                    assert(has_number(filter, ids, distances, i));
                }
                assert(has_number(filter, ids, distances, last));
            }
        }
        if filter::passes(filter, ids.last()) {
            assert(after == before.push((distances[last], ids[last])));
            assert(top_k::comparable(after) <==> top_k::comparable(before)
                && !float_bits::f32_nan(distances[last])) by {
                assert(after[before.len() as int].0 == distances[last]);
                if top_k::comparable(after) {
                    assert forall|i: int| 0 <= i < before.len() implies !float_bits::f32_nan(
                        #[trigger] before[i].0,
                    ) by {
                        assert(after[i] == before[i]);
                        assert(!float_bits::f32_nan(after[i].0));
                    }
                    assert(!float_bits::f32_nan(after[before.len() as int].0));
                }
            }
        } else {
            assert(after == before);
        }
    }
}

/// A filtered search for one query is carried out if and only if the distances of all rows that
/// the filter admits are numbers; one for several queries, if and only if those from every query
/// that has a distance from each row are.
pub proof fn law_searches_need_numbers<F: RowIdFilter>(
    lists: Seq<ScannedList>,
    rows: Seq<ListRows>,
    nq: nat,
    filter: Option<&F>,
)
    ensures
        ivf_search::all_comparable(lists, filter) <==> forall|l: int|
            0 <= l < lists.len() ==> are_numbers(
                filter,
                (#[trigger] lists[l]).ids@,
                lists[l].distances@,
            ),
        ivf_search::batch_comparable(rows, nq, filter) <==> forall|p: int, q: int|
            0 <= p < rows.len() && 0 <= q < nq && rows[p].ids@.len()
                == rows[p].distances@[q]@.len() ==> are_numbers(
                filter,
                rows[p].ids@,
                #[trigger] rows[p].distances@[q]@,
            ),
{
    assert forall|l: int| 0 <= l < lists.len() implies top_k::rows_comparable(
        filter,
        (#[trigger] lists[l]).ids@,
        lists[l].distances@,
    ) == are_numbers(filter, lists[l].ids@, lists[l].distances@) by {
        law_rows_with_numbers_can_be_compared(filter, lists[l].ids@, lists[l].distances@);
    }
    assert forall|p: int, q: int|
        0 <= p < rows.len() && 0 <= q < nq implies #[trigger] ivf_search::measured_comparable(
        filter,
        rows[p],
        q,
    ) == (rows[p].ids@.len() == rows[p].distances@[q]@.len() ==> are_numbers(
        filter,
        rows[p].ids@,
        rows[p].distances@[q]@,
    )) by {
        law_rows_with_numbers_can_be_compared(filter, rows[p].ids@, rows[p].distances@[q]@);
    }
    if ivf_search::batch_comparable(rows, nq, filter) {
        assert forall|p: int, q: int|
            0 <= p < rows.len() && 0 <= q < nq && rows[p].ids@.len()
                == rows[p].distances@[q]@.len() implies are_numbers(
            filter,
            rows[p].ids@,
            #[trigger] rows[p].distances@[q]@,
        ) by {
            assert(ivf_search::measured_comparable(filter, rows[p], q));
        }
    }
    if forall|p: int, q: int|
        0 <= p < rows.len() && 0 <= q < nq && rows[p].ids@.len() == rows[p].distances@[q]@.len()
            ==> are_numbers(filter, rows[p].ids@, #[trigger] rows[p].distances@[q]@) {
        assert forall|p: int, q: int|
            0 <= p < rows.len() && 0 <= q < nq implies #[trigger] ivf_search::measured_comparable(
            filter,
            rows[p],
            q,
        ) by {
            if rows[p].ids@.len() == rows[p].distances@[q]@.len() {
                assert(are_numbers(filter, rows[p].ids@, rows[p].distances@[q]@));
            }
        }
    }
}

} // verus!
