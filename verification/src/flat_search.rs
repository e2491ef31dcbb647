//! Searching an IVF-FLAT index.
use vstd::prelude::*;
use crate::error;
use crate::error::{Error, ErrorView};
use crate::filter;
use crate::filter::{decode_roaring_filter, RoaringFilter, RowIdFilter};
use crate::flat_reader;
use crate::flat_reader::IVFFlatIndexReader;
use crate::flat_scan;
use crate::flat_scan::{scan_batches, scan_plan};
use crate::ivf_search;
use crate::ivf_search::{
    batch_is_comparable, collect_results, lists_are_comparable, seeded_heaps, validate_batch,
    validate_batch_seed, validate_search, ListRows, ScannedList,
};
use crate::order_laws;
use crate::probes::ProbePlan;
use crate::top_k;
use crate::top_k::{padded_results, ReaderTopKHeap};

verus! {

/// Whether a search for one query gives the nearest rows of the lists that were scanned.
pub open spec fn found_in_lists<F: RowIdFilter>(
    result: (Vec<i64>, Vec<u32>),
    lists: Seq<ScannedList>,
    ends: Seq<usize>,
    filter: Option<&F>,
    k: nat,
    d: nat,
) -> bool {
    let nearest = top_k::result_of(
        k,
        flat_scan::batches_offer(lists, ends, filter, k, d, ends.len()),
    );
    &&& result.0@ == top_k::padded_ids(nearest, k)
    &&& result.1@ == top_k::padded_distances(nearest, k)
}

/// What the rows of a batch leave each query with: the nearest of its seeds and of the rows
/// that it was offered.
pub open spec fn batch_entries<F: RowIdFilter>(
    plan: &ProbePlan,
    rows: Seq<ListRows>,
    ends: Seq<usize>,
    filter: Option<&F>,
    seed_ids: Seq<i64>,
    seed_distances: Seq<u32>,
    k: nat,
    d: nat,
) -> spec_fn(int) -> Seq<(u32, i64)> {
    |query: int|
        top_k::after_pushes(
            k,
            Seq::empty(),
            ivf_search::seeds_of(seed_ids, seed_distances, query, k)
                + flat_scan::plan_batches_offer(
                plan,
                rows,
                ends,
                filter,
                k,
                d,
                query,
                ends.len(),
            ),
        )
}

/// Whether a search for a batch gives the nearest rows of each query.
pub open spec fn found_in_plan<F: RowIdFilter>(
    result: (Vec<i64>, Vec<u32>),
    plan: &ProbePlan,
    rows: Seq<ListRows>,
    ends: Seq<usize>,
    filter: Option<&F>,
    seed_ids: Seq<i64>,
    seed_distances: Seq<u32>,
    nq: nat,
    k: nat,
    d: nat,
) -> bool {
    let entries = batch_entries(plan, rows, ends, filter, seed_ids, seed_distances, k, d);
    &&& result.0@ == ivf_search::result_ids(entries, k, nq)
    &&& result.1@ == ivf_search::result_distances(entries, k, nq)
}

/// Whether lists can be searched for one query: each row has a distance, and the rows can be
/// ordered.
pub open spec fn searchable<F: RowIdFilter>(
    lists: Seq<ScannedList>,
    ends: Seq<usize>,
    filter: Option<&F>,
    k: nat,
    d: nat,
) -> bool {
    ivf_search::lists_measured(lists) && flat_scan::batches_order(lists, ends, filter, k, d)
}

/// Whether a batch can be searched: each row has a distance from each query that probes its
/// list, and the rows of each query can be ordered, with its seeds before them.
pub open spec fn batch_searchable<F: RowIdFilter>(
    plan: &ProbePlan,
    rows: Seq<ListRows>,
    ends: Seq<usize>,
    filter: Option<&F>,
    seed_ids: Seq<i64>,
    seed_distances: Seq<u32>,
    nq: nat,
    k: nat,
    d: nat,
) -> bool {
    &&& flat_scan::plan_measured(plan, rows)
    &&& forall|q: int|
        0 <= q < nq ==> flat_scan::plan_orders(
            plan,
            rows,
            ends,
            filter,
            k,
            d,
            q,
            #[trigger] ivf_search::seeds_of(seed_ids, seed_distances, q, k),
        )
}

/// What is checked of a batch before it is searched.
pub open spec fn checked_range(
    queries_len: nat,
    nq: usize,
    d: usize,
    k: usize,
    probe_start: usize,
    probe_end: usize,
    seed_ids_len: nat,
    seed_distances_len: nat,
) -> Result<(), ErrorView> {
    match ivf_search::checked_batch(queries_len, nq, d, k, probe_start, probe_end) {
        Err(error) => Err(error),
        Ok(_) => ivf_search::checked_seed(seed_ids_len, seed_distances_len, nq, k),
    }
}

impl IVFFlatIndexReader {
    /// Decodes one list from the bytes that were read for it.
    pub fn read_inverted_list(&self, list_id: usize, payload: &[u8]) -> (result: Result<
        (Vec<i64>, Vec<u32>),
        Error,
    >)
        requires
            self.wf(),
            self.loaded,
            self.request(list_id) matches Ok(read) ==> payload.len() == read.payload_len,
        ensures
            match self.request(list_id) {
                Err(wanted) => result matches Err(error) && error@ == wanted,
                Ok(read) => match (
                    result,
                    flat_reader::decoded(read, payload@, self.d as nat),
                ) {
                    (Ok(list), Ok(wanted)) => list.0@ == wanted.0 && list.1@ == wanted.1,
                    (Err(error), Err(wanted)) => error@ == wanted,
                    _ => false,
                },
            },
    {
        match self.list_request(list_id) {
            Err(error) => Err(error),
            Ok(read) => match self.decode_list(&read, payload) {
                Err(error) => Err(error),
                Ok(list) => Ok((list.ids, list.vectors)),
            },
        }
    }

    /// Searches for the nearest rows of the lists that a query probes, given the rows of
    /// each list and their distances.
    pub fn search(&self, query: &[u32], k: usize, nprobe: usize, lists: &Vec<ScannedList>,
        ends: &Vec<usize>,
    ) -> (result:
        Result<(Vec<i64>, Vec<u32>), Error>)
        requires
            self.wf(),
            self.loaded,
            ivf_search::batches_cover(ends@, lists@.len()),
            ivf_search::checked_search(query@.len(), self.d, k, nprobe) is Ok ==> searchable::<
                RoaringFilter,
            >(lists@, ends@, None, k as nat, self.d as nat),
        ensures
            match (result, ivf_search::checked_search(query@.len(), self.d, k, nprobe)) {
                (Ok(result), Ok(_)) => found_in_lists::<RoaringFilter>(
                    result,
                    lists@,
                    ends@,
                    None,
                    k as nat,
                    self.d as nat,
                ),
                (Err(error), Err(wanted)) => error@ == wanted,
                _ => false,
            },
    {
        self.search_with_filter::<RoaringFilter>(query, k, nprobe, lists, ends, None)
    }

    /// Searches for the nearest rows that pass a filter.
    pub fn search_with_filter<F: RowIdFilter>(
        &self,
        query: &[u32],
        k: usize,
        nprobe: usize,
        lists: &Vec<ScannedList>,
        ends: &Vec<usize>,
        filter: Option<&F>,
    ) -> (result: Result<(Vec<i64>, Vec<u32>), Error>)
        requires
            self.wf(),
            self.loaded,
            ivf_search::batches_cover(ends@, lists@.len()),
            ivf_search::checked_search(query@.len(), self.d, k, nprobe) is Ok ==> searchable(
                lists@,
                ends@,
                filter,
                k as nat,
                self.d as nat,
            ),
        ensures
            match (result, ivf_search::checked_search(query@.len(), self.d, k, nprobe)) {
                (Ok(result), Ok(_)) => found_in_lists(
                    result,
                    lists@,
                    ends@,
                    filter,
                    k as nat,
                    self.d as nat,
                ),
                (Err(error), Err(wanted)) => error@ == wanted,
                _ => false,
            },
    {
        if let Err(error) = validate_search(query.len(), self.d, k, nprobe) {
            return Err(error);
        }
        let mut heap = ReaderTopKHeap::new(k);
        scan_batches(&mut heap, lists, ends, filter, k, self.d);
        Ok(padded_results(&heap, k))
    }

    /// Searches for the nearest rows that a serialized bitmap holds.
    pub fn search_with_roaring_filter(
        &self,
        query: &[u32],
        k: usize,
        nprobe: usize,
        lists: &Vec<ScannedList>,
        ends: &Vec<usize>,
        roaring_filter_bytes: &[u8],
    ) -> (result: Result<(Vec<i64>, Vec<u32>), Error>)
        requires
            self.wf(),
            self.loaded,
            ivf_search::batches_cover(ends@, lists@.len()),
            forall|filter: RoaringFilter|
                filter::filter_of(roaring_filter_bytes@) == Ok::<Set<u64>, ErrorView>(
                    filter.values(),
                ) && ivf_search::checked_search(query@.len(), self.d, k, nprobe) is Ok
                    ==> #[trigger] searchable(
                    lists@,
                    ends@,
                    Some(&filter),
                    k as nat,
                    self.d as nat,
                ),
        ensures
            match filter::filter_of(roaring_filter_bytes@) {
                Err(wanted) => result matches Err(error) && error@ == wanted,
                Ok(values) => match (
                    result,
                    ivf_search::checked_search(query@.len(), self.d, k, nprobe),
                ) {
                    (Ok(result), Ok(_)) => exists|filter: RoaringFilter| #[trigger]
                        filter.values() == values && found_in_lists(
                            result,
                            lists@,
                            ends@,
                            Some(&filter),
                            k as nat,
                            self.d as nat,
                        ),
                    (Err(error), Err(wanted)) => error@ == wanted,
                    _ => false,
                },
            },
    {
        match decode_roaring_filter(roaring_filter_bytes) {
            Err(error) => Err(error),
            Ok(filter) => self.search_with_filter(query, k, nprobe, lists, ends, Some(&filter)),
        }
    }
}

impl IVFFlatIndexReader {
    /// Searches as [`IVFFlatIndexReader::search_with_roaring_filter`] does, unless a row that
    /// the bitmap holds has no number for its distance.
    pub fn try_search_with_roaring_filter(
        &self,
        query: &[u32],
        k: usize,
        nprobe: usize,
        lists: &Vec<ScannedList>,
        ends: &Vec<usize>,
        roaring_filter_bytes: &[u8],
    ) -> (result: Option<Result<(Vec<i64>, Vec<u32>), Error>>)
        requires
            self.wf(),
            self.loaded,
            ivf_search::batches_cover(ends@, lists@.len()),
        ensures
            match filter::filter_of(roaring_filter_bytes@) {
                Err(wanted) => result matches Some(Err(error)) && error@ == wanted,
                Ok(values) => exists|filter: RoaringFilter| #[trigger]
                    filter.values() == values && match (
                        result,
                        ivf_search::checked_search(query@.len(), self.d, k, nprobe),
                    ) {
                        (None, _) => !ivf_search::all_comparable(lists@, Some(&filter)),
                        (Some(Ok(result)), Ok(_)) => ivf_search::all_comparable(
                            lists@,
                            Some(&filter),
                        ) && found_in_lists(
                            result,
                            lists@,
                            ends@,
                            Some(&filter),
                            k as nat,
                            self.d as nat,
                        ),
                        (Some(Err(error)), Err(wanted)) => error@ == wanted
                            && ivf_search::all_comparable(lists@, Some(&filter)),
                        _ => false,
                    },
            },
    {
        let filter = match decode_roaring_filter(roaring_filter_bytes) {
            Err(error) => return Some(Err(error)),
            Ok(filter) => filter,
        };
        if !lists_are_comparable(lists, Some(&filter)) {
            assert(filter.values() == filter.values());
            return None;
        }
        proof {
            assert forall|other: RoaringFilter|
                filter::filter_of(roaring_filter_bytes@) == Ok::<Set<u64>, ErrorView>(
                    other.values(),
                ) implies #[trigger] searchable(
                lists@,
                ends@,
                Some(&other),
                k as nat,
                self.d as nat,
            ) by {
                order_laws::lemma_equal_bitmaps_compare(&filter, &other, lists@);
                order_laws::law_flat_numbers_are_searchable(
                    lists@,
                    ends@,
                    Some(&other),
                    k as nat,
                    self.d as nat,
                );
            }
        }
        let result = self.search_with_roaring_filter(
            query,
            k,
            nprobe,
            lists,
            ends,
            roaring_filter_bytes,
        );
        proof {
            if result is Ok {
                let found = result->Ok_0;
                let used = choose|used: RoaringFilter| #[trigger]
                    used.values() == filter.values() && found_in_lists(
                        found,
                        lists@,
                        ends@,
                        Some(&used),
                        k as nat,
                        self.d as nat,
                    );
                order_laws::lemma_equal_bitmaps_compare(&filter, &used, lists@);
                assert(used.values() == filter.values());
            } else {
                assert(filter.values() == filter.values());
            }
        }
        Some(result)
    }
}

/// Searches for a batch of queries. Each list of the plan is read once, and scanned for all
/// queries that probe it.
pub fn search_batch_ivfflat_reader(
    reader: &IVFFlatIndexReader,
    queries: &[u32],
    nq: usize,
    k: usize,
    nprobe: usize,
    plan: &ProbePlan,
    rows: &Vec<ListRows>,
    ends: &Vec<usize>,
) -> (result: Result<(Vec<i64>, Vec<u32>), Error>)
    requires
        reader.wf(),
        reader.loaded,
        ivf_search::rows_match(plan, rows@, nq as nat),
        ivf_search::batches_cover(ends@, rows@.len()),
        checked_range(queries@.len(), nq, reader.d, k, 0, nprobe, 0, 0) is Ok ==> batch_searchable::<RoaringFilter>(
            plan,
            rows@,
            ends@,
            None,
            Seq::empty(),
            Seq::empty(),
            nq as nat,
            k as nat,
            reader.d as nat,
        ),
    ensures
        match (result, checked_range(queries@.len(), nq, reader.d, k, 0, nprobe, 0, 0)) {
            (Ok(result), Ok(_)) => found_in_plan::<RoaringFilter>(
                result,
                plan,
                rows@,
                ends@,
                None,
                Seq::empty(),
                Seq::empty(),
                nq as nat,
                k as nat,
                reader.d as nat,
            ),
            (Err(error), Err(wanted)) => error@ == wanted,
            _ => false,
        },
{
    search_batch_ivfflat_reader_filter::<RoaringFilter>(
        reader,
        queries,
        nq,
        k,
        nprobe,
        plan,
        rows,
        ends,
        None,
    )
}

/// Searches for a batch of queries, among the rows that pass a filter.
pub fn search_batch_ivfflat_reader_filter<F: RowIdFilter>(
    reader: &IVFFlatIndexReader,
    queries: &[u32],
    nq: usize,
    k: usize,
    nprobe: usize,
    plan: &ProbePlan,
    rows: &Vec<ListRows>,
    ends: &Vec<usize>,
    filter: Option<&F>,
) -> (result: Result<(Vec<i64>, Vec<u32>), Error>)
    requires
        reader.wf(),
        reader.loaded,
        ivf_search::rows_match(plan, rows@, nq as nat),
        ivf_search::batches_cover(ends@, rows@.len()),
        checked_range(queries@.len(), nq, reader.d, k, 0, nprobe, 0, 0) is Ok ==> batch_searchable(
            plan,
            rows@,
            ends@,
            filter,
            Seq::empty(),
            Seq::empty(),
            nq as nat,
            k as nat,
            reader.d as nat,
        ),
    ensures
        match (result, checked_range(queries@.len(), nq, reader.d, k, 0, nprobe, 0, 0)) {
            (Ok(result), Ok(_)) => found_in_plan(
                result,
                plan,
                rows@,
                ends@,
                filter,
                Seq::empty(),
                Seq::empty(),
                nq as nat,
                k as nat,
                reader.d as nat,
            ),
            (Err(error), Err(wanted)) => error@ == wanted,
            _ => false,
        },
{
    let no_ids: Vec<i64> = Vec::new();
    let no_distances: Vec<u32> = Vec::new();
    assert(no_ids@ =~= Seq::<i64>::empty());
    assert(no_distances@ =~= Seq::<u32>::empty());
    search_batch_ivfflat_reader_filter_range(
        reader,
        queries,
        nq,
        k,
        0,
        nprobe,
        no_ids.as_slice(),
        no_distances.as_slice(),
        plan,
        rows,
        ends,
        filter,
    )
}

/// Searches for a batch of queries in the lists from `probe_start` up to but not
/// `probe_end` of each query's lists, with the results of earlier rounds as seeds.
pub fn search_batch_ivfflat_reader_filter_range<F: RowIdFilter>(
    reader: &IVFFlatIndexReader,
    queries: &[u32],
    nq: usize,
    k: usize,
    probe_start: usize,
    probe_end: usize,
    seed_ids: &[i64],
    seed_distances: &[u32],
    plan: &ProbePlan,
    rows: &Vec<ListRows>,
    ends: &Vec<usize>,
    filter: Option<&F>,
) -> (result: Result<(Vec<i64>, Vec<u32>), Error>)
    requires
        reader.wf(),
        reader.loaded,
        ivf_search::rows_match(plan, rows@, nq as nat),
        ivf_search::batches_cover(ends@, rows@.len()),
        checked_range(
            queries@.len(),
            nq,
            reader.d,
            k,
            probe_start,
            probe_end,
            seed_ids@.len(),
            seed_distances@.len(),
        ) is Ok ==> batch_searchable(
            plan,
            rows@,
            ends@,
            filter,
            seed_ids@,
            seed_distances@,
            nq as nat,
            k as nat,
            reader.d as nat,
        ),
    ensures
        match (
            result,
            checked_range(
                queries@.len(),
                nq,
                reader.d,
                k,
                probe_start,
                probe_end,
                seed_ids@.len(),
                seed_distances@.len(),
            ),
        ) {
            (Ok(result), Ok(_)) => found_in_plan(
                result,
                plan,
                rows@,
                ends@,
                filter,
                seed_ids@,
                seed_distances@,
                nq as nat,
                k as nat,
                reader.d as nat,
            ),
            (Err(error), Err(wanted)) => error@ == wanted,
            _ => false,
        },
{
    if let Err(error) = validate_batch(
        queries.len(),
        nq,
        reader.d,
        k,
        probe_start,
        probe_end,
    ) {
        return Err(error);
    }
    if let Err(error) = validate_batch_seed(seed_ids, seed_distances, nq, k) {
        return Err(error);
    }
    let mut heaps = seeded_heaps(seed_ids, seed_distances, nq, k);
    let ghost before = |query: int|
        top_k::after_pushes(
            k as nat,
            Seq::empty(),
            ivf_search::seeds_of(seed_ids@, seed_distances@, query, k as nat),
        );
    scan_plan(&mut heaps, plan, rows, ends, filter, k, reader.d, Ghost(before));
    let ghost entries = batch_entries(
        plan,
        rows@,
        ends@,
        filter,
        seed_ids@,
        seed_distances@,
        k as nat,
        reader.d as nat,
    );
    assert forall|q: int| 0 <= q < heaps@.len() implies (#[trigger] heaps@[q]).entries() == entries(
        q,
    ) by {
        top_k::law_pushes_compose(
            k as nat,
            Seq::empty(),
            ivf_search::seeds_of(seed_ids@, seed_distances@, q, k as nat),
            flat_scan::plan_batches_offer(
                plan,
                rows@,
                ends@,
                filter,
                k as nat,
                reader.d as nat,
                q,
                ends@.len(),
            ),
        );
    }
    Ok(collect_results(&heaps, k, Ghost(entries)))
}

/// Searches for a batch of queries, among the rows that a serialized bitmap holds.
pub fn search_batch_ivfflat_reader_roaring_filter(
    reader: &IVFFlatIndexReader,
    queries: &[u32],
    nq: usize,
    k: usize,
    nprobe: usize,
    plan: &ProbePlan,
    rows: &Vec<ListRows>,
    ends: &Vec<usize>,
    roaring_filter_bytes: &[u8],
) -> (result: Result<(Vec<i64>, Vec<u32>), Error>)
    requires
        reader.wf(),
        reader.loaded,
        ivf_search::rows_match(plan, rows@, nq as nat),
        ivf_search::batches_cover(ends@, rows@.len()),
        forall|filter: RoaringFilter|
            filter::filter_of(roaring_filter_bytes@) == Ok::<Set<u64>, ErrorView>(filter.values())
                && checked_range(queries@.len(), nq, reader.d, k, 0, nprobe, 0, 0) is Ok
                ==> #[trigger] batch_searchable(
                plan,
                rows@,
                ends@,
                Some(&filter),
                Seq::empty(),
                Seq::empty(),
                nq as nat,
                k as nat,
                reader.d as nat,
            ),
    ensures
        match filter::filter_of(roaring_filter_bytes@) {
            Err(wanted) => result matches Err(error) && error@ == wanted,
            Ok(values) => match (
                result,
                checked_range(queries@.len(), nq, reader.d, k, 0, nprobe, 0, 0),
            ) {
                (Ok(result), Ok(_)) => exists|filter: RoaringFilter| #[trigger]
                    filter.values() == values && found_in_plan(
                        result,
                        plan,
                        rows@,
                        ends@,
                        Some(&filter),
                        Seq::empty(),
                        Seq::empty(),
                        nq as nat,
                        k as nat,
                        reader.d as nat,
                    ),
                (Err(error), Err(wanted)) => error@ == wanted,
                _ => false,
            },
        },
{
    let no_ids: Vec<i64> = Vec::new();
    let no_distances: Vec<u32> = Vec::new();
    assert(no_ids@ =~= Seq::<i64>::empty());
    assert(no_distances@ =~= Seq::<u32>::empty());
    search_batch_ivfflat_reader_roaring_filter_range(
        reader,
        queries,
        nq,
        k,
        0,
        nprobe,
        no_ids.as_slice(),
        no_distances.as_slice(),
        plan,
        rows,
        ends,
        roaring_filter_bytes,
    )
}

/// Searches for a batch of queries in a range of each query's lists, among the rows that a
/// serialized bitmap holds, with the results of earlier rounds as seeds.
pub fn search_batch_ivfflat_reader_roaring_filter_range(
    reader: &IVFFlatIndexReader,
    queries: &[u32],
    nq: usize,
    k: usize,
    probe_start: usize,
    probe_end: usize,
    seed_ids: &[i64],
    seed_distances: &[u32],
    plan: &ProbePlan,
    rows: &Vec<ListRows>,
    ends: &Vec<usize>,
    roaring_filter_bytes: &[u8],
) -> (result: Result<(Vec<i64>, Vec<u32>), Error>)
    requires
        reader.wf(),
        reader.loaded,
        ivf_search::rows_match(plan, rows@, nq as nat),
        ivf_search::batches_cover(ends@, rows@.len()),
        forall|filter: RoaringFilter|
            filter::filter_of(roaring_filter_bytes@) == Ok::<Set<u64>, ErrorView>(filter.values())
                && checked_range(
                queries@.len(),
                nq,
                reader.d,
                k,
                probe_start,
                probe_end,
                seed_ids@.len(),
                seed_distances@.len(),
            ) is Ok ==> #[trigger] batch_searchable(
                plan,
                rows@,
                ends@,
                Some(&filter),
                seed_ids@,
                seed_distances@,
                nq as nat,
                k as nat,
                reader.d as nat,
            ),
    ensures
        match filter::filter_of(roaring_filter_bytes@) {
            Err(wanted) => result matches Err(error) && error@ == wanted,
            Ok(values) => match (
                result,
                checked_range(
                    queries@.len(),
                    nq,
                    reader.d,
                    k,
                    probe_start,
                    probe_end,
                    seed_ids@.len(),
                    seed_distances@.len(),
                ),
            ) {
                (Ok(result), Ok(_)) => exists|filter: RoaringFilter| #[trigger]
                    filter.values() == values && found_in_plan(
                        result,
                        plan,
                        rows@,
                        ends@,
                        Some(&filter),
                        seed_ids@,
                        seed_distances@,
                        nq as nat,
                        k as nat,
                        reader.d as nat,
                    ),
                (Err(error), Err(wanted)) => error@ == wanted,
                _ => false,
            },
        },
{
    match decode_roaring_filter(roaring_filter_bytes) {
        Err(error) => Err(error),
        Ok(filter) => search_batch_ivfflat_reader_filter_range(
            reader,
            queries,
            nq,
            k,
            probe_start,
            probe_end,
            seed_ids,
            seed_distances,
            plan,
            rows,
            ends,
            Some(&filter),
        ),
    }
}

/// Searches as [`search_batch_ivfflat_reader_roaring_filter`] does, unless a row that the
/// bitmap holds has no number for one of its distances.
pub fn try_search_batch_ivfflat_reader_roaring_filter(
    reader: &IVFFlatIndexReader,
    queries: &[u32],
    nq: usize,
    k: usize,
    nprobe: usize,
    plan: &ProbePlan,
    rows: &Vec<ListRows>,
    ends: &Vec<usize>,
    roaring_filter_bytes: &[u8],
) -> (result: Option<Result<(Vec<i64>, Vec<u32>), Error>>)
    requires
        reader.wf(),
        reader.loaded,
        ivf_search::rows_match(plan, rows@, nq as nat),
        ivf_search::batches_cover(ends@, rows@.len()),
        flat_scan::plan_measured(plan, rows@),
    ensures
        match filter::filter_of(roaring_filter_bytes@) {
            Err(wanted) => result matches Some(Err(error)) && error@ == wanted,
            Ok(values) => exists|filter: RoaringFilter| #[trigger]
                filter.values() == values && match (
                    result,
                    checked_range(queries@.len(), nq, reader.d, k, 0, nprobe, 0, 0),
                ) {
                    (None, _) => !ivf_search::batch_comparable(rows@, nq as nat, Some(&filter)),
                    (Some(Ok(result)), Ok(_)) => ivf_search::batch_comparable(
                        rows@,
                        nq as nat,
                        Some(&filter),
                    ) && found_in_plan(
                        result,
                        plan,
                        rows@,
                        ends@,
                        Some(&filter),
                        Seq::empty(),
                        Seq::empty(),
                        nq as nat,
                        k as nat,
                        reader.d as nat,
                    ),
                    (Some(Err(error)), Err(wanted)) => error@ == wanted
                        && ivf_search::batch_comparable(rows@, nq as nat, Some(&filter)),
                    _ => false,
                },
        },
{
    let filter = match decode_roaring_filter(roaring_filter_bytes) {
        Err(error) => return Some(Err(error)),
        Ok(filter) => filter,
    };
    if !batch_is_comparable(rows, nq, Some(&filter)) {
        assert(filter.values() == filter.values());
        return None;
    }
    proof {
        assert forall|other: RoaringFilter|
            filter::filter_of(roaring_filter_bytes@) == Ok::<Set<u64>, ErrorView>(
                other.values(),
            ) implies #[trigger] batch_searchable(
            plan,
            rows@,
            ends@,
            Some(&other),
            Seq::empty(),
            Seq::empty(),
            nq as nat,
            k as nat,
            reader.d as nat,
        ) by {
            order_laws::lemma_equal_bitmaps_compare_batches(&filter, &other, rows@, nq as nat);
            order_laws::law_flat_batch_numbers_are_searchable(
                plan,
                rows@,
                ends@,
                Some(&other),
                nq as nat,
                k as nat,
                reader.d as nat,
            );
        }
    }
    let result = search_batch_ivfflat_reader_roaring_filter(
        reader,
        queries,
        nq,
        k,
        nprobe,
        plan,
        rows,
        ends,
        roaring_filter_bytes,
    );
    proof {
        if result is Ok {
            let found = result->Ok_0;
            let used = choose|used: RoaringFilter| #[trigger]
                used.values() == filter.values() && found_in_plan(
                    found,
                    plan,
                    rows@,
                    ends@,
                    Some(&used),
                    Seq::empty(),
                    Seq::empty(),
                    nq as nat,
                    k as nat,
                    reader.d as nat,
                );
            order_laws::lemma_equal_bitmaps_compare_batches(&filter, &used, rows@, nq as nat);
            assert(used.values() == filter.values());
        } else {
            assert(filter.values() == filter.values());
        }
    }
    Some(result)
}

} // verus!
