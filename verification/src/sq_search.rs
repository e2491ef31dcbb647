//! Searching an IVF-SQ index.
use vstd::prelude::*;
use crate::error;
use crate::error::{invalid_input, Error, ErrorView};
use crate::filter;
use crate::filter::{decode_roaring_filter, RoaringFilter, RowIdFilter};
use crate::ivf_search;
use crate::ivf_search::{
    batch_is_comparable, collect_results, lists_are_comparable, seeded_heaps,
    validate_batch_seed, ListRows, ScannedList,
};
use crate::order_laws;
use crate::probes;
use crate::rows::copy_of;
use crate::sq_reader::IVFSQIndexReader;
use crate::sq_scan;
use crate::sq_scan::scan_batches;
use crate::text;
use crate::text::decimal_text;
use crate::top_k;
use crate::top_k::{scan_rows, ReaderTopKHeap};

verus! {

/// What [`validate_search_inputs`] answers.
pub open spec fn checked_inputs(
    queries_len: nat,
    nq: usize,
    d: usize,
    k: usize,
    nprobe: usize,
) -> Result<(), ErrorView> {
    if nq == 0 {
        Err(error::input_error("nq must be greater than 0"@))
    } else if nq * d > usize::MAX {
        Err(error::input_error("nq * dimension overflows usize"@))
    } else if queries_len != nq * d {
        Err(
            error::input_error(
                "queries length "@ + text::decimal(queries_len)
                    + " does not match nq * dimension "@ + text::decimal((nq * d) as nat),
            ),
        )
    } else if k == 0 {
        Err(error::input_error("k must be greater than 0"@))
    } else if nprobe == 0 {
        Err(error::input_error("nprobe must be greater than 0"@))
    } else {
        Ok(())
    }
}

/// Checks what a search is asked for.
pub fn validate_search_inputs(queries_len: usize, nq: usize, d: usize, k: usize, nprobe: usize) -> (result:
    Result<(), Error>)
    ensures
        error::outcome(result) == checked_inputs(queries_len as nat, nq, d, k, nprobe),
{
    if nq == 0 {
        return Err(invalid_input("nq must be greater than 0".to_owned()));
    }
    let expected: usize = match nq.checked_mul(d) {
        None => {
            return Err(invalid_input("nq * dimension overflows usize".to_owned()));
        },
        Some(expected) => expected,
    };
    if queries_len != expected {
        let mut message = "queries length ".to_owned();
        message.append(decimal_text(queries_len as u64).as_str());
        message.append(" does not match nq * dimension ");
        message.append(decimal_text(expected as u64).as_str());
        return Err(invalid_input(message));
    }
    if k == 0 {
        return Err(invalid_input("k must be greater than 0".to_owned()));
    }
    if nprobe == 0 {
        return Err(invalid_input("nprobe must be greater than 0".to_owned()));
    }
    Ok(())
}

/// What is checked of a search with one query before it is carried out.
pub open spec fn checked_single(
    query_len: nat,
    d: usize,
    k: usize,
    probe_end: usize,
    seed_ids_len: nat,
    seed_distances_len: nat,
) -> Result<(), ErrorView> {
    match checked_inputs(query_len, 1, d, k, probe_end) {
        Err(error) => Err(error),
        Ok(_) => ivf_search::checked_seed(seed_ids_len, seed_distances_len, 1, k),
    }
}

/// What is checked of a batch before it is searched.
pub open spec fn checked_range(
    queries_len: nat,
    nq: usize,
    d: usize,
    k: usize,
    probe_start: usize,
    probe_end: usize,
    seed_ids_len: nat,
    seed_distances_len: nat,
) -> Result<(), ErrorView> {
    match checked_inputs(queries_len, nq, d, k, probe_end) {
        Err(error) => Err(error),
        Ok(_) => if probe_start >= probe_end {
            Err(error::input_error("probe range must be non-empty"@))
        } else {
            ivf_search::checked_seed(seed_ids_len, seed_distances_len, nq, k)
        },
    }
}

/// Whether a search for one query gives the nearest of its seeds and of the rows of the
/// lists that were scanned.
pub open spec fn found_in_lists<F: RowIdFilter>(
    result: (Vec<i64>, Vec<u32>),
    seed_ids: Seq<i64>,
    seed_distances: Seq<u32>,
    lists: Seq<ScannedList>,
    ends: Seq<usize>,
    filter: Option<&F>,
    k: nat,
) -> bool {
    let nearest = top_k::result_of(
        k,
        sq_scan::offered(
            sq_scan::measured(lists),
            ends,
            filter,
            k,
            ivf_search::seeds_of(seed_ids, seed_distances, 0, k),
            ends.len(),
        ),
    );
    &&& result.0@ == top_k::padded_ids(nearest, k)
    &&& result.1@ == top_k::padded_distances(nearest, k)
}

/// Whether lists can be searched for one query: each row has a distance, and the rows can be
/// ordered, with the seeds before them.
pub open spec fn searchable<F: RowIdFilter>(
    lists: Seq<ScannedList>,
    ends: Seq<usize>,
    filter: Option<&F>,
    seed_ids: Seq<i64>,
    seed_distances: Seq<u32>,
    k: nat,
) -> bool {
    &&& ivf_search::lists_measured(lists)
    &&& sq_scan::batches_order(
        sq_scan::measured(lists),
        ends,
        filter,
        k,
        ivf_search::seeds_of(seed_ids, seed_distances, 0, k),
    )
}

impl IVFSQIndexReader {
    /// Decodes one list from the bytes that were read for it.
    pub fn read_inverted_list(&self, list_id: usize, payload: &[u8]) -> (result: Result<
        (Vec<i64>, Vec<u8>),
        Error,
    >)
        requires
            self.wf(),
            self.request(list_id) matches Ok(read) ==> payload.len() == read.payload_len,
        ensures
            match self.request(list_id) {
                Err(wanted) => result matches Err(error) && error@ == wanted,
                Ok(read) => match (result, self.decoded(read, payload@)) {
                    (Ok(list), Ok(wanted)) => list.0@ == wanted.0 && list.1@ == wanted.1,
                    (Err(error), Err(wanted)) => error@ == wanted,
                    _ => false,
                },
            },
    {
        match self.list_request(list_id) {
            Err(error) => Err(error),
            Ok(read) => match self.decode_list(&read, payload) {
                Err(error) => Err(error),
                Ok(list) => Ok((list.ids, list.codes)),
            },
        }
    }

    /// Searches for the nearest rows of the lists that a query probes, given the rows of
    /// each list and their distances.
    pub fn search(&self, query: &[u32], k: usize, nprobe: usize, lists: &Vec<ScannedList>,
        ends: &Vec<usize>,
    ) -> (result:
        Result<(Vec<i64>, Vec<u32>), Error>)
        requires
            self.wf(),
            ivf_search::batches_cover(ends@, lists@.len()),
            checked_single(query@.len(), self.d, k, nprobe, 0, 0) is Ok ==> searchable::<RoaringFilter>(
                lists@,
                ends@,
                None,
                Seq::empty(),
                Seq::empty(),
                k as nat,
            ),
        ensures
            match (result, checked_single(query@.len(), self.d, k, nprobe, 0, 0)) {
                (Ok(result), Ok(_)) => found_in_lists::<RoaringFilter>(
                    result,
                    Seq::empty(),
                    Seq::empty(),
                    lists@,
                    ends@,
                    None,
                    k as nat,
                ),
                (Err(error), Err(wanted)) => error@ == wanted,
                _ => false,
            },
    {
        self.search_with_filter::<RoaringFilter>(query, k, nprobe, lists, ends, None)
    }

    /// Searches for the nearest rows that pass a filter.
    pub fn search_with_filter<F: RowIdFilter>(
        &self,
        query: &[u32],
        k: usize,
        nprobe: usize,
        lists: &Vec<ScannedList>,
        ends: &Vec<usize>,
        filter: Option<&F>,
    ) -> (result: Result<(Vec<i64>, Vec<u32>), Error>)
        requires
            self.wf(),
            ivf_search::batches_cover(ends@, lists@.len()),
            checked_single(query@.len(), self.d, k, nprobe, 0, 0) is Ok ==> searchable(
                lists@,
                ends@,
                filter,
                Seq::empty(),
                Seq::empty(),
                k as nat,
            ),
        ensures
            match (result, checked_single(query@.len(), self.d, k, nprobe, 0, 0)) {
                (Ok(result), Ok(_)) => found_in_lists(
                    result,
                    Seq::empty(),
                    Seq::empty(),
                    lists@,
                    ends@,
                    filter,
                    k as nat,
                ),
                (Err(error), Err(wanted)) => error@ == wanted,
                _ => false,
            },
    {
        let no_ids: Vec<i64> = Vec::new();
        let no_distances: Vec<u32> = Vec::new();
        assert(no_ids@ =~= Seq::<i64>::empty());
        assert(no_distances@ =~= Seq::<u32>::empty());
        self.search_with_filter_range(
            query,
            k,
            nprobe,
            no_ids.as_slice(),
            no_distances.as_slice(),
            lists,
            ends,
            filter,
        )
    }

    /// Searches for the nearest rows that pass a filter, with the results of earlier rounds
    /// as seeds.
    pub fn search_with_filter_range<F: RowIdFilter>(
        &self,
        query: &[u32],
        k: usize,
        probe_end: usize,
        seed_ids: &[i64],
        seed_distances: &[u32],
        lists: &Vec<ScannedList>,
        ends: &Vec<usize>,
        filter: Option<&F>,
    ) -> (result: Result<(Vec<i64>, Vec<u32>), Error>)
        requires
            self.wf(),
            ivf_search::batches_cover(ends@, lists@.len()),
            checked_single(
                query@.len(),
                self.d,
                k,
                probe_end,
                seed_ids@.len(),
                seed_distances@.len(),
            ) is Ok ==> searchable(lists@, ends@, filter, seed_ids@, seed_distances@, k as nat),
        ensures
            match (
                result,
                checked_single(
                    query@.len(),
                    self.d,
                    k,
                    probe_end,
                    seed_ids@.len(),
                    seed_distances@.len(),
                ),
            ) {
                (Ok(result), Ok(_)) => found_in_lists(
                    result,
                    seed_ids@,
                    seed_distances@,
                    lists@,
                    ends@,
                    filter,
                    k as nat,
                ),
                (Err(error), Err(wanted)) => error@ == wanted,
                _ => false,
            },
    {
        if let Err(error) = validate_search_inputs(query.len(), 1, self.d, k, probe_end) {
            return Err(error);
        }
        if let Err(error) = validate_batch_seed(seed_ids, seed_distances, 1, k) {
            return Err(error);
        }
        let mut heaps = seeded_heaps(seed_ids, seed_distances, 1, k);
        assert(heaps@[0].wf() && heaps@[0].limit() == k);
        let ghost seeds = ivf_search::seeds_of(seed_ids@, seed_distances@, 0, k as nat);
        scan_batches(&mut heaps[0], lists, ends, filter, k, Ghost(seeds));
        Ok(top_k::padded_results(&heaps[0], k))
    }

    /// Searches for the nearest rows that a serialized bitmap holds.
    pub fn search_with_roaring_filter(
        &self,
        query: &[u32],
        k: usize,
        nprobe: usize,
        lists: &Vec<ScannedList>,
        ends: &Vec<usize>,
        roaring_filter_bytes: &[u8],
    ) -> (result: Result<(Vec<i64>, Vec<u32>), Error>)
        requires
            self.wf(),
            ivf_search::batches_cover(ends@, lists@.len()),
            forall|filter: RoaringFilter|
                filter::filter_of(roaring_filter_bytes@) == Ok::<Set<u64>, ErrorView>(
                    filter.values(),
                ) && checked_single(query@.len(), self.d, k, nprobe, 0, 0) is Ok
                    ==> #[trigger] searchable(
                    lists@,
                    ends@,
                    Some(&filter),
                    Seq::empty(),
                    Seq::empty(),
                    k as nat,
                ),
        ensures
            match filter::filter_of(roaring_filter_bytes@) {
                Err(wanted) => result matches Err(error) && error@ == wanted,
                Ok(values) => match (
                    result,
                    checked_single(query@.len(), self.d, k, nprobe, 0, 0),
                ) {
                    (Ok(result), Ok(_)) => exists|filter: RoaringFilter| #[trigger]
                        filter.values() == values && found_in_lists(
                            result,
                            Seq::empty(),
                            Seq::empty(),
                            lists@,
                            ends@,
                            Some(&filter),
                            k as nat,
                        ),
                    (Err(error), Err(wanted)) => error@ == wanted,
                    _ => false,
                },
            },
    {
        match decode_roaring_filter(roaring_filter_bytes) {
            Err(error) => Err(error),
            Ok(filter) => self.search_with_filter(query, k, nprobe, lists, ends, Some(&filter)),
        }
    }
}

impl IVFSQIndexReader {
    /// Searches as [`IVFSQIndexReader::search_with_roaring_filter`] does, unless a row that the
    /// bitmap holds has no number for its distance.
    pub fn try_search_with_roaring_filter(
        &self,
        query: &[u32],
        k: usize,
        nprobe: usize,
        lists: &Vec<ScannedList>,
        ends: &Vec<usize>,
        roaring_filter_bytes: &[u8],
    ) -> (result: Option<Result<(Vec<i64>, Vec<u32>), Error>>)
        requires
            self.wf(),
            ivf_search::batches_cover(ends@, lists@.len()),
        ensures
            match filter::filter_of(roaring_filter_bytes@) {
                Err(wanted) => result matches Some(Err(error)) && error@ == wanted,
                Ok(values) => exists|filter: RoaringFilter| #[trigger]
                    filter.values() == values && match (
                        result,
                        checked_single(query@.len(), self.d, k, nprobe, 0, 0),
                    ) {
                        (None, _) => !ivf_search::all_comparable(lists@, Some(&filter)),
                        (Some(Ok(result)), Ok(_)) => ivf_search::all_comparable(
                            lists@,
                            Some(&filter),
                        ) && found_in_lists(
                            result,
                            Seq::empty(),
                            Seq::empty(),
                            lists@,
                            ends@,
                            Some(&filter),
                            k as nat,
                        ),
                        (Some(Err(error)), Err(wanted)) => error@ == wanted
                            && ivf_search::all_comparable(lists@, Some(&filter)),
                        _ => false,
                    },
            },
    {
        let filter = match decode_roaring_filter(roaring_filter_bytes) {
            Err(error) => return Some(Err(error)),
            Ok(filter) => filter,
        };
        if !lists_are_comparable(lists, Some(&filter)) {
            assert(filter.values() == filter.values());
            return None;
        }
        proof {
            assert forall|other: RoaringFilter|
                filter::filter_of(roaring_filter_bytes@) == Ok::<Set<u64>, ErrorView>(
                    other.values(),
                ) implies #[trigger] searchable(
                lists@,
                ends@,
                Some(&other),
                Seq::empty(),
                Seq::empty(),
                k as nat,
            ) by {
                order_laws::lemma_equal_bitmaps_compare(&filter, &other, lists@);
                order_laws::law_sq_numbers_are_searchable(
                    lists@,
                    ends@,
                    Some(&other),
                    k as nat,
                );
            }
        }
        let result = self.search_with_roaring_filter(
            query,
            k,
            nprobe,
            lists,
            ends,
            roaring_filter_bytes,
        );
        proof {
            if result is Ok {
                let found = result->Ok_0;
                let used = choose|used: RoaringFilter| #[trigger]
                    used.values() == filter.values() && found_in_lists(
                        found,
                        Seq::empty(),
                        Seq::empty(),
                        lists@,
                        ends@,
                        Some(&used),
                        k as nat,
                    );
                order_laws::lemma_equal_bitmaps_compare(&filter, &used, lists@);
                assert(used.values() == filter.values());
            } else {
                assert(filter.values() == filter.values());
            }
        }
        Some(result)
    }
}

/// The place of a list among the lists from `start` up to but not `end`.
pub open spec fn place_in(lists: Seq<usize>, list_id: usize, start: int, end: int) -> Option<int>
    decreases end - start,
{
    if end <= start {
        None
    } else if lists[end - 1] == list_id {
        Some(end - 1)
    } else {
        place_in(lists, list_id, start, end - 1)
    }
}

fn find_list(lists: &Vec<usize>, list_id: usize, start: usize, end: usize) -> (place: Option<usize>)
    requires
        end <= lists.len(),
    ensures
        match (place, place_in(lists@, list_id, start as int, end as int)) {
            (Some(place), Some(wanted)) => place == wanted && start <= place < end && lists@[place as int]
                == list_id,
            (None, None) => true,
            _ => false,
        },
{
    let mut i: usize = end;
    while i > start
        invariant
            i <= end <= lists.len(),
            place_in(lists@, list_id, start as int, end as int) == place_in(
                lists@,
                list_id,
                start as int,
                i as int,
            ),
        decreases i,
    {
        if lists[i - 1] == list_id {
            return Some(i - 1);
        }
        i = i - 1;
    }
    None
}

/// The entries that a query is offered from a batch of lists: those of the first `n` lists
/// that it probes, as far as the batch has them.
pub open spec fn probe_entries<F: RowIdFilter>(
    probed: Seq<usize>,
    lists: Seq<usize>,
    rows: Seq<ListRows>,
    filter: Option<&F>,
    query: int,
    start: int,
    end: int,
    n: nat,
) -> Seq<(u32, i64)>
    decreases n,
{
    if n == 0 {
        Seq::empty()
    } else {
        let before = probe_entries(
            probed,
            lists,
            rows,
            filter,
            query,
            start,
            end,
            (n - 1) as nat,
        );
        match place_in(lists, probed[n - 1], start, end) {
            None => before,
            Some(place) => before + top_k::passing(
                filter,
                rows[place].ids@,
                rows[place].distances@[query]@,
            ),
        }
    }
}

/// The entries that a query is offered from the first `n` batches of lists. Within a batch,
/// the lists come in the order in which the query probes them.
pub open spec fn batched_entries<F: RowIdFilter>(
    probed: Seq<usize>,
    lists: Seq<usize>,
    rows: Seq<ListRows>,
    ends: Seq<usize>,
    filter: Option<&F>,
    query: int,
    n: nat,
) -> Seq<(u32, i64)>
    decreases n,
{
    if n == 0 {
        Seq::empty()
    } else {
        batched_entries(probed, lists, rows, ends, filter, query, (n - 1) as nat) + probe_entries(
            probed,
            lists,
            rows,
            filter,
            query,
            ivf_search::batch_start(ends, n - 1),
            ends[n - 1] as int,
            probed.len(),
        )
    }
}

/// Whether there are rows for each list, with places for the distances of each query.
pub open spec fn rows_cover(lists: Seq<usize>, rows: Seq<ListRows>, nq: nat) -> bool {
    &&& rows.len() == lists.len()
    &&& forall|p: int| 0 <= p < rows.len() ==> (#[trigger] rows[p]).distances@.len() == nq
}

/// Whether each row of the lists that a query probes has a distance from it.
pub open spec fn probes_measured(
    probed: Seq<usize>,
    lists: Seq<usize>,
    rows: Seq<ListRows>,
    query: int,
) -> bool {
    forall|p: int|
        0 <= p < rows.len() && probed.contains(lists[p]) ==> (#[trigger] rows[p]).ids@.len()
            == rows[p].distances@[query]@.len()
}

fn scan_probes<F: RowIdFilter>(
    heap: &mut ReaderTopKHeap,
    probe: &Vec<usize>,
    probe_start: usize,
    lists: &Vec<usize>,
    rows: &Vec<ListRows>,
    filter: Option<&F>,
    query: usize,
    start: usize,
    end: usize,
)
    requires
        old(heap).wf(),
        end <= lists.len(),
        rows@.len() == lists@.len(),
        forall|p: int|
            0 <= p < rows@.len() ==> query < (#[trigger] rows@[p]).distances@.len(),
        probes_measured(
            probes::probed(probe@, probe_start as nat),
            lists@,
            rows@,
            query as int,
        ),
    ensures
        final(heap).wf(),
        final(heap).limit() == old(heap).limit(),
        final(heap).entries() == top_k::after_pushes(
            old(heap).limit(),
            old(heap).entries(),
            probe_entries(
                probes::probed(probe@, probe_start as nat),
                lists@,
                rows@,
                filter,
                query as int,
                start as int,
                end as int,
                probes::probed(probe@, probe_start as nat).len(),
            ),
        ),
{
    let ghost k = heap.limit();
    let ghost before = heap.entries();
    let ghost probed = probes::probed(probe@, probe_start as nat);
    let mut i: usize = probe_start;
    while i < probe.len()
        invariant
            probe_start <= i,
            heap.wf(),
            heap.limit() == k,
            end <= lists.len(),
            rows@.len() == lists@.len(),
            probed == probes::probed(probe@, probe_start as nat),
            i - probe_start <= probed.len(),
            forall|p: int|
                0 <= p < rows@.len() ==> query < (#[trigger] rows@[p]).distances@.len(),
            probes_measured(probed, lists@, rows@, query as int),
            heap.entries() == top_k::after_pushes(
                k,
                before,
                probe_entries(
                    probed,
                    lists@,
                    rows@,
                    filter,
                    query as int,
                    start as int,
                    end as int,
                    (i - probe_start) as nat,
                ),
            ),
        decreases probe@.len() - i,
    {
        let list_id: usize = probe[i];
        assert(probed[i - probe_start] == list_id);
        let ghost earlier = probe_entries(
            probed,
            lists@,
            rows@,
            filter,
            query as int,
            start as int,
            end as int,
            (i - probe_start) as nat,
        );
        if let Some(place) = find_list(lists, list_id, start, end) {
            let list = &rows[place];
            proof {
                assert(probed.contains(lists@[place as int]));
                assert(rows@[place as int].distances@.len() > query);
            }
            scan_rows(
                list.ids.as_slice(),
                list.distances[query].as_slice(),
                filter,
                heap,
            );
            proof {
                top_k::law_pushes_compose(
                    k,
                    before,
                    earlier,
                    top_k::passing(filter, list.ids@, list.distances@[query as int]@),
                );
            }
        }
        i = i + 1;
    }
}

/// Whether each row has a distance from each query that probes its list.
pub open spec fn all_measured(
    probes: Seq<Vec<usize>>,
    probe_start: nat,
    lists: Seq<usize>,
    rows: Seq<ListRows>,
) -> bool {
    forall|q: int|
        0 <= q < probes.len() ==> probes_measured(
            probes::probed((#[trigger] probes[q])@, probe_start),
            lists,
            rows,
            q,
        )
}

fn scan_batch<F: RowIdFilter>(
    heaps: &mut Vec<ReaderTopKHeap>,
    probes: &Vec<Vec<usize>>,
    probe_start: usize,
    lists: &Vec<usize>,
    rows: &Vec<ListRows>,
    filter: Option<&F>,
    start: usize,
    end: usize,
    k: usize,
)
    requires
        ivf_search::all_sound(old(heaps)@, k as nat),
        old(heaps)@.len() == probes@.len(),
        end <= lists.len(),
        rows_cover(lists@, rows@, probes@.len()),
        all_measured(probes@, probe_start as nat, lists@, rows@),
    ensures
        final(heaps)@.len() == old(heaps)@.len(),
        ivf_search::all_sound(final(heaps)@, k as nat),
        forall|q: int|
            0 <= q < final(heaps)@.len() ==> (#[trigger] final(heaps)@[q]).entries()
                == top_k::after_pushes(
                k as nat,
                old(heaps)@[q].entries(),
                probe_entries(
                    probes::probed(probes@[q]@, probe_start as nat),
                    lists@,
                    rows@,
                    filter,
                    q,
                    start as int,
                    end as int,
                    probes::probed(probes@[q]@, probe_start as nat).len(),
                ),
            ),
{
    let ghost before = heaps@;
    let ghost offered = |q: int|
        probe_entries(
            probes::probed(probes@[q]@, probe_start as nat),
            lists@,
            rows@,
            filter,
            q,
            start as int,
            end as int,
            probes::probed(probes@[q]@, probe_start as nat).len(),
        );
    let mut query: usize = 0;
    while query < heaps.len()
        invariant
            query <= heaps@.len(),
            heaps@.len() == before.len(),
            heaps@.len() == probes@.len(),
            ivf_search::all_sound(heaps@, k as nat),
            end <= lists.len(),
            rows_cover(lists@, rows@, probes@.len()),
            all_measured(probes@, probe_start as nat, lists@, rows@),
            offered == (|q: int|
                probe_entries(
                    probes::probed(probes@[q]@, probe_start as nat),
                    lists@,
                    rows@,
                    filter,
                    q,
                    start as int,
                    end as int,
                    probes::probed(probes@[q]@, probe_start as nat).len(),
                )),
            forall|q: int|
                0 <= q < query ==> (#[trigger] heaps@[q]).entries() == top_k::after_pushes(
                    k as nat,
                    before[q].entries(),
                    offered(q),
                ),
            forall|q: int| query <= q < heaps@.len() ==> #[trigger] heaps@[q] == before[q],
        decreases heaps@.len() - query,
    {
        let ghost earlier = heaps@;
        assert(earlier[query as int].wf());
        assert(earlier[query as int] == before[query as int]);
        scan_probes(
            &mut heaps[query],
            &probes[query],
            probe_start,
            lists,
            rows,
            filter,
            query,
            start,
            end,
        );
        assert forall|q: int| 0 <= q < heaps@.len() implies (#[trigger] heaps@[q]).wf()
            && heaps@[q].limit() == k by {
            if q != query {
                assert(heaps@[q] == earlier[q]);
            }
        }
        assert forall|q: int| 0 <= q < query + 1 implies (#[trigger] heaps@[q]).entries()
            == top_k::after_pushes(k as nat, before[q].entries(), offered(q)) by {
            if q != query {
                assert(heaps@[q] == earlier[q]);
            }
        }
        query = query + 1;
    }
}

/// The rows of lists with their distances from the only query.
fn rows_of_one(rows: &Vec<ListRows>) -> (lists: Vec<ScannedList>)
    requires
        forall|p: int| 0 <= p < rows@.len() ==> (#[trigger] rows@[p]).distances@.len() == 1,
    ensures
        sq_scan::measured(lists@) == sq_scan::measured_for(rows@, 0),
{
    let mut lists: Vec<ScannedList> = Vec::new();
    let mut p: usize = 0;
    while p < rows.len()
        invariant
            p <= rows@.len(),
            lists@.len() == p,
            forall|i: int| 0 <= i < rows@.len() ==> (#[trigger] rows@[i]).distances@.len() == 1,
            forall|i: int|
                0 <= i < p ==> (#[trigger] lists@[i]).ids@ == rows@[i].ids@ && lists@[i].distances@
                    == rows@[i].distances@[0]@,
        decreases rows@.len() - p,
    {
        let list = &rows[p];
        assert(rows@[p as int].distances@.len() == 1);
        lists.push(
            ScannedList {
                ids: copy_of(list.ids.as_slice()),
                distances: copy_of(list.distances[0].as_slice()),
            },
        );
        p = p + 1;
    }
    assert(sq_scan::measured(lists@) =~= sq_scan::measured_for(rows@, 0));
    lists
}

/// What a query of a batch is offered: its seeds, and the rows of the lists that it probes.
/// The only query of a batch is searched alone.
pub open spec fn query_offer<F: RowIdFilter>(
    probes: Seq<Vec<usize>>,
    probe_start: nat,
    lists: Seq<usize>,
    rows: Seq<ListRows>,
    ends: Seq<usize>,
    filter: Option<&F>,
    seeds: Seq<(u32, i64)>,
    k: nat,
    query: int,
) -> Seq<(u32, i64)> {
    if probes.len() == 1 {
        sq_scan::offered(
            sq_scan::measured_for(rows, query),
            ends,
            filter,
            k,
            seeds,
            ends.len(),
        )
    } else {
        seeds + batched_entries(
            probes::probed(probes[query]@, probe_start),
            lists,
            rows,
            ends,
            filter,
            query,
            ends.len(),
        )
    }
}

/// Whether what a query of a batch is offered can be ordered.
pub open spec fn query_orders<F: RowIdFilter>(
    probes: Seq<Vec<usize>>,
    probe_start: nat,
    lists: Seq<usize>,
    rows: Seq<ListRows>,
    ends: Seq<usize>,
    filter: Option<&F>,
    seeds: Seq<(u32, i64)>,
    k: nat,
    query: int,
) -> bool {
    if probes.len() == 1 {
        sq_scan::batches_order(sq_scan::measured_for(rows, query), ends, filter, k, seeds)
    } else {
        top_k::orderable(
            k,
            query_offer(probes, probe_start, lists, rows, ends, filter, seeds, k, query),
        )
    }
}

/// Whether a batch can be searched: each row has a distance from each query that probes its
/// list, and what each query is offered can be ordered, with its seeds before that.
pub open spec fn batch_searchable<F: RowIdFilter>(
    probes: Seq<Vec<usize>>,
    probe_start: nat,
    lists: Seq<usize>,
    rows: Seq<ListRows>,
    ends: Seq<usize>,
    filter: Option<&F>,
    seed_ids: Seq<i64>,
    seed_distances: Seq<u32>,
    k: nat,
) -> bool {
    &&& all_measured(probes, probe_start, lists, rows)
    &&& forall|q: int|
        0 <= q < probes.len() ==> query_orders(
            probes,
            probe_start,
            lists,
            rows,
            ends,
            filter,
            #[trigger] ivf_search::seeds_of(seed_ids, seed_distances, q, k),
            k,
            q,
        )
}

/// What the rows of a batch leave each query with: the nearest of those that it was offered.
pub open spec fn batch_entries<F: RowIdFilter>(
    probes: Seq<Vec<usize>>,
    probe_start: nat,
    lists: Seq<usize>,
    rows: Seq<ListRows>,
    ends: Seq<usize>,
    filter: Option<&F>,
    seed_ids: Seq<i64>,
    seed_distances: Seq<u32>,
    k: nat,
) -> spec_fn(int) -> Seq<(u32, i64)> {
    |query: int|
        top_k::after_pushes(
            k,
            Seq::empty(),
            query_offer(
                probes,
                probe_start,
                lists,
                rows,
                ends,
                filter,
                ivf_search::seeds_of(seed_ids, seed_distances, query, k),
                k,
                query,
            ),
        )
}

/// Whether a search for a batch gives the nearest rows of each query.
pub open spec fn found_in_batches<F: RowIdFilter>(
    result: (Vec<i64>, Vec<u32>),
    probes: Seq<Vec<usize>>,
    probe_start: nat,
    lists: Seq<usize>,
    rows: Seq<ListRows>,
    ends: Seq<usize>,
    filter: Option<&F>,
    seed_ids: Seq<i64>,
    seed_distances: Seq<u32>,
    k: nat,
) -> bool {
    let entries = batch_entries(
        probes,
        probe_start,
        lists,
        rows,
        ends,
        filter,
        seed_ids,
        seed_distances,
        k,
    );
    &&& result.0@ == ivf_search::result_ids(entries, k, probes.len())
    &&& result.1@ == ivf_search::result_distances(entries, k, probes.len())
}

/// Searches for a batch of queries in the lists from `probe_start` up to but not
/// `probe_end` of each query's lists, with the results of earlier rounds as seeds. `lists`
/// holds each list once, `rows` its rows, and `ends` where each batch of lists ends that was
/// read at once.
pub fn search_batch_ivfsq_reader_filter_range<F: RowIdFilter>(
    reader: &IVFSQIndexReader,
    queries: &[u32],
    nq: usize,
    k: usize,
    probe_start: usize,
    probe_end: usize,
    seed_ids: &[i64],
    seed_distances: &[u32],
    probes: &Vec<Vec<usize>>,
    lists: &Vec<usize>,
    rows: &Vec<ListRows>,
    ends: &Vec<usize>,
    filter: Option<&F>,
) -> (result: Result<(Vec<i64>, Vec<u32>), Error>)
    requires
        reader.wf(),
        probes@.len() == nq,
        rows_cover(lists@, rows@, nq as nat),
        nq == 1 ==> lists@ == probes::probed(probes@[0]@, probe_start as nat),
        ivf_search::batches_cover(ends@, lists@.len()),
        checked_range(
            queries@.len(),
            nq,
            reader.d,
            k,
            probe_start,
            probe_end,
            seed_ids@.len(),
            seed_distances@.len(),
        ) is Ok ==> batch_searchable(
            probes@,
            probe_start as nat,
            lists@,
            rows@,
            ends@,
            filter,
            seed_ids@,
            seed_distances@,
            k as nat,
        ),
    ensures
        match (
            result,
            checked_range(
                queries@.len(),
                nq,
                reader.d,
                k,
                probe_start,
                probe_end,
                seed_ids@.len(),
                seed_distances@.len(),
            ),
        ) {
            (Ok(result), Ok(_)) => found_in_batches(
                result,
                probes@,
                probe_start as nat,
                lists@,
                rows@,
                ends@,
                filter,
                seed_ids@,
                seed_distances@,
                k as nat,
            ),
            (Err(error), Err(wanted)) => error@ == wanted,
            _ => false,
        },
{
    if let Err(error) = validate_search_inputs(queries.len(), nq, reader.d, k, probe_end) {
        return Err(error);
    }
    if probe_start >= probe_end {
        return Err(invalid_input("probe range must be non-empty".to_owned()));
    }
    if let Err(error) = validate_batch_seed(seed_ids, seed_distances, nq, k) {
        return Err(error);
    }
    if nq == 1 {
        let alone = rows_of_one(rows);
        proof {
            let probed = probes::probed(probes@[0]@, probe_start as nat);
            assert(sq_scan::measured(alone@).len() == sq_scan::measured_for(rows@, 0).len());
            assert(alone@.len() == lists@.len());
            assert(query_orders(
                probes@,
                probe_start as nat,
                lists@,
                rows@,
                ends@,
                filter,
                ivf_search::seeds_of(seed_ids@, seed_distances@, 0, k as nat),
                k as nat,
                0,
            ));
            assert forall|i: int| 0 <= i < alone@.len() implies (#[trigger] alone@[i]).ids@.len()
                == alone@[i].distances@.len() by {
                assert(sq_scan::measured(alone@)[i] == sq_scan::measured_for(rows@, 0)[i]);
                assert(probes_measured(
                    probes::probed(probes@[0]@, probe_start as nat),
                    lists@,
                    rows@,
                    0,
                ));
                assert(probed.contains(lists@[i]));
                assert(rows@[i].ids@.len() == rows@[i].distances@[0]@.len());
            }
            let entries = batch_entries(
                probes@,
                probe_start as nat,
                lists@,
                rows@,
                ends@,
                filter,
                seed_ids@,
                seed_distances@,
                k as nat,
            );
            reveal_with_fuel(ivf_search::result_ids, 2);
            reveal_with_fuel(ivf_search::result_distances, 2);
            let nearest = top_k::sorted_by_distance(entries(0));
            assert(ivf_search::result_ids(entries, k as nat, 1) =~= top_k::padded_ids(
                nearest,
                k as nat,
            ));
            assert(ivf_search::result_distances(entries, k as nat, 1) =~= top_k::padded_distances(
                nearest,
                k as nat,
            ));
        }
        return reader.search_with_filter_range(
            queries,
            k,
            probe_end,
            seed_ids,
            seed_distances,
            &alone,
            ends,
            filter,
        );
    }
    let mut heaps = seeded_heaps(seed_ids, seed_distances, nq, k);
    let ghost seeds = |q: int|
        ivf_search::seeds_of(seed_ids@, seed_distances@, q, k as nat);
    let ghost offered = |q: int, n: nat|
        batched_entries(
            probes::probed(probes@[q]@, probe_start as nat),
            lists@,
            rows@,
            ends@,
            filter,
            q,
            n,
        );
    let mut batch: usize = 0;
    assert forall|q: int| 0 <= q < heaps@.len() implies (#[trigger] heaps@[q]).entries()
        == top_k::after_pushes(k as nat, Seq::empty(), seeds(q) + offered(q, 0)) by {
        assert(seeds(q) + offered(q, 0) =~= seeds(q));
    }
    while batch < ends.len()
        invariant
            batch <= ends@.len(),
            heaps@.len() == nq,
            probes@.len() == nq,
            ivf_search::all_sound(heaps@, k as nat),
            rows_cover(lists@, rows@, nq as nat),
            nq > 1,
            all_measured(probes@, probe_start as nat, lists@, rows@),
            ivf_search::batches_cover(ends@, lists@.len()),
            seeds == (|q: int| ivf_search::seeds_of(seed_ids@, seed_distances@, q, k as nat)),
            offered == (|q: int, n: nat|
                batched_entries(
                    probes::probed(probes@[q]@, probe_start as nat),
                    lists@,
                    rows@,
                    ends@,
                    filter,
                    q,
                    n,
                )),
            forall|q: int|
                0 <= q < heaps@.len() ==> (#[trigger] heaps@[q]).entries() == top_k::after_pushes(
                    k as nat,
                    Seq::empty(),
                    seeds(q) + offered(q, batch as nat),
                ),
        decreases ends@.len() - batch,
    {
        let start: usize = if batch == 0 {
            0
        } else {
            ends[batch - 1]
        };
        let ghost before = heaps@;
        assert(ends@[batch as int] <= lists@.len());
        assert(ivf_search::batch_start(ends@, batch as int) == start);
        scan_batch(
            &mut heaps,
            probes,
            probe_start,
            lists,
            rows,
            filter,
            start,
            ends[batch],
            k,
        );
        assert forall|q: int| 0 <= q < heaps@.len() implies (#[trigger] heaps@[q]).entries()
            == top_k::after_pushes(
            k as nat,
            Seq::empty(),
            seeds(q) + offered(q, (batch + 1) as nat),
        ) by {
            let fresh = probe_entries(
                probes::probed(probes@[q]@, probe_start as nat),
                lists@,
                rows@,
                filter,
                q,
                start as int,
                ends@[batch as int] as int,
                probes::probed(probes@[q]@, probe_start as nat).len(),
            );
            assert(before[q].entries() == top_k::after_pushes(
                k as nat,
                Seq::empty(),
                seeds(q) + offered(q, batch as nat),
            ));
            top_k::law_pushes_compose(
                k as nat,
                Seq::empty(),
                seeds(q) + offered(q, batch as nat),
                fresh,
            );
            assert(offered(q, (batch + 1) as nat) == offered(q, batch as nat) + fresh);
            assert(seeds(q) + offered(q, batch as nat) + fresh =~= seeds(q) + offered(
                q,
                (batch + 1) as nat,
            ));
        }
        batch = batch + 1;
    }
    let ghost entries = batch_entries(
        probes@,
        probe_start as nat,
        lists@,
        rows@,
        ends@,
        filter,
        seed_ids@,
        seed_distances@,
        k as nat,
    );
    assert forall|q: int| 0 <= q < heaps@.len() implies (#[trigger] heaps@[q]).entries() == entries(
        q,
    ) by {
        assert(entries(q) == top_k::after_pushes(
            k as nat,
            Seq::empty(),
            seeds(q) + offered(q, ends@.len()),
        ));
    }
    Ok(collect_results(&heaps, k, Ghost(entries)))
}

/// Searches for a batch of queries, among the rows that pass a filter.
pub fn search_batch_ivfsq_reader_filter<F: RowIdFilter>(
    reader: &IVFSQIndexReader,
    queries: &[u32],
    nq: usize,
    k: usize,
    nprobe: usize,
    probes: &Vec<Vec<usize>>,
    lists: &Vec<usize>,
    rows: &Vec<ListRows>,
    ends: &Vec<usize>,
    filter: Option<&F>,
) -> (result: Result<(Vec<i64>, Vec<u32>), Error>)
    requires
        reader.wf(),
        probes@.len() == nq,
        rows_cover(lists@, rows@, nq as nat),
        nq == 1 ==> lists@ == probes@[0]@,
        ivf_search::batches_cover(ends@, lists@.len()),
        checked_range(queries@.len(), nq, reader.d, k, 0, nprobe, 0, 0) is Ok ==> batch_searchable(
            probes@,
            0,
            lists@,
            rows@,
            ends@,
            filter,
            Seq::empty(),
            Seq::empty(),
            k as nat,
        ),
    ensures
        match (result, checked_range(queries@.len(), nq, reader.d, k, 0, nprobe, 0, 0)) {
            (Ok(result), Ok(_)) => found_in_batches(
                result,
                probes@,
                0,
                lists@,
                rows@,
                ends@,
                filter,
                Seq::empty(),
                Seq::empty(),
                k as nat,
            ),
            (Err(error), Err(wanted)) => error@ == wanted,
            _ => false,
        },
{
    let no_ids: Vec<i64> = Vec::new();
    let no_distances: Vec<u32> = Vec::new();
    assert(no_ids@ =~= Seq::<i64>::empty());
    assert(no_distances@ =~= Seq::<u32>::empty());
    proof {
        if nq == 1 {
            assert(probes::probed(probes@[0]@, 0) =~= probes@[0]@);
        }
    }
    search_batch_ivfsq_reader_filter_range(
        reader,
        queries,
        nq,
        k,
        0,
        nprobe,
        no_ids.as_slice(),
        no_distances.as_slice(),
        probes,
        lists,
        rows,
        ends,
        filter,
    )
}

/// Searches for a batch of queries.
pub fn search_batch_ivfsq_reader(
    reader: &IVFSQIndexReader,
    queries: &[u32],
    nq: usize,
    k: usize,
    nprobe: usize,
    probes: &Vec<Vec<usize>>,
    lists: &Vec<usize>,
    rows: &Vec<ListRows>,
    ends: &Vec<usize>,
) -> (result: Result<(Vec<i64>, Vec<u32>), Error>)
    requires
        reader.wf(),
        probes@.len() == nq,
        rows_cover(lists@, rows@, nq as nat),
        nq == 1 ==> lists@ == probes@[0]@,
        ivf_search::batches_cover(ends@, lists@.len()),
        checked_range(queries@.len(), nq, reader.d, k, 0, nprobe, 0, 0) is Ok ==> batch_searchable::<RoaringFilter>(
            probes@,
            0,
            lists@,
            rows@,
            ends@,
            None,
            Seq::empty(),
            Seq::empty(),
            k as nat,
        ),
    ensures
        match (result, checked_range(queries@.len(), nq, reader.d, k, 0, nprobe, 0, 0)) {
            (Ok(result), Ok(_)) => found_in_batches::<RoaringFilter>(
                result,
                probes@,
                0,
                lists@,
                rows@,
                ends@,
                None,
                Seq::empty(),
                Seq::empty(),
                k as nat,
            ),
            (Err(error), Err(wanted)) => error@ == wanted,
            _ => false,
        },
{
    search_batch_ivfsq_reader_filter::<RoaringFilter>(
        reader,
        queries,
        nq,
        k,
        nprobe,
        probes,
        lists,
        rows,
        ends,
        None,
    )
}

/// Searches for a batch of queries in a range of each query's lists, among the rows that a
/// serialized bitmap holds, with the results of earlier rounds as seeds.
pub fn search_batch_ivfsq_reader_roaring_filter_range(
    reader: &IVFSQIndexReader,
    queries: &[u32],
    nq: usize,
    k: usize,
    probe_start: usize,
    probe_end: usize,
    seed_ids: &[i64],
    seed_distances: &[u32],
    probes: &Vec<Vec<usize>>,
    lists: &Vec<usize>,
    rows: &Vec<ListRows>,
    ends: &Vec<usize>,
    roaring_filter_bytes: &[u8],
) -> (result: Result<(Vec<i64>, Vec<u32>), Error>)
    requires
        reader.wf(),
        probes@.len() == nq,
        rows_cover(lists@, rows@, nq as nat),
        nq == 1 ==> lists@ == probes::probed(probes@[0]@, probe_start as nat),
        ivf_search::batches_cover(ends@, lists@.len()),
        forall|filter: RoaringFilter|
            filter::filter_of(roaring_filter_bytes@) == Ok::<Set<u64>, ErrorView>(filter.values())
                && checked_range(
                queries@.len(),
                nq,
                reader.d,
                k,
                probe_start,
                probe_end,
                seed_ids@.len(),
                seed_distances@.len(),
            ) is Ok ==> #[trigger] batch_searchable(
                probes@,
                probe_start as nat,
                lists@,
                rows@,
                ends@,
                Some(&filter),
                seed_ids@,
                seed_distances@,
                k as nat,
            ),
    ensures
        match filter::filter_of(roaring_filter_bytes@) {
            Err(wanted) => result matches Err(error) && error@ == wanted,
            Ok(values) => match (
                result,
                checked_range(
                    queries@.len(),
                    nq,
                    reader.d,
                    k,
                    probe_start,
                    probe_end,
                    seed_ids@.len(),
                    seed_distances@.len(),
                ),
            ) {
                (Ok(result), Ok(_)) => exists|filter: RoaringFilter| #[trigger]
                    filter.values() == values && found_in_batches(
                        result,
                        probes@,
                        probe_start as nat,
                        lists@,
                        rows@,
                        ends@,
                        Some(&filter),
                        seed_ids@,
                        seed_distances@,
                        k as nat,
                    ),
                (Err(error), Err(wanted)) => error@ == wanted,
                _ => false,
            },
        },
{
    match decode_roaring_filter(roaring_filter_bytes) {
        Err(error) => Err(error),
        Ok(filter) => search_batch_ivfsq_reader_filter_range(
            reader,
            queries,
            nq,
            k,
            probe_start,
            probe_end,
            seed_ids,
            seed_distances,
            probes,
            lists,
            rows,
            ends,
            Some(&filter),
        ),
    }
}

/// Searches for a batch of queries, among the rows that a serialized bitmap holds.
pub fn search_batch_ivfsq_reader_roaring_filter(
    reader: &IVFSQIndexReader,
    queries: &[u32],
    nq: usize,
    k: usize,
    nprobe: usize,
    probes: &Vec<Vec<usize>>,
    lists: &Vec<usize>,
    rows: &Vec<ListRows>,
    ends: &Vec<usize>,
    roaring_filter_bytes: &[u8],
) -> (result: Result<(Vec<i64>, Vec<u32>), Error>)
    requires
        reader.wf(),
        probes@.len() == nq,
        rows_cover(lists@, rows@, nq as nat),
        nq == 1 ==> lists@ == probes@[0]@,
        ivf_search::batches_cover(ends@, lists@.len()),
        forall|filter: RoaringFilter|
            filter::filter_of(roaring_filter_bytes@) == Ok::<Set<u64>, ErrorView>(filter.values())
                && checked_range(queries@.len(), nq, reader.d, k, 0, nprobe, 0, 0) is Ok
                ==> #[trigger] batch_searchable(
                probes@,
                0,
                lists@,
                rows@,
                ends@,
                Some(&filter),
                Seq::empty(),
                Seq::empty(),
                k as nat,
            ),
    ensures
        match filter::filter_of(roaring_filter_bytes@) {
            Err(wanted) => result matches Err(error) && error@ == wanted,
            Ok(values) => match (
                result,
                checked_range(queries@.len(), nq, reader.d, k, 0, nprobe, 0, 0),
            ) {
                (Ok(result), Ok(_)) => exists|filter: RoaringFilter| #[trigger]
                    filter.values() == values && found_in_batches(
                        result,
                        probes@,
                        0,
                        lists@,
                        rows@,
                        ends@,
                        Some(&filter),
                        Seq::empty(),
                        Seq::empty(),
                        k as nat,
                    ),
                (Err(error), Err(wanted)) => error@ == wanted,
                _ => false,
            },
        },
{
    let no_ids: Vec<i64> = Vec::new();
    let no_distances: Vec<u32> = Vec::new();
    assert(no_ids@ =~= Seq::<i64>::empty());
    assert(no_distances@ =~= Seq::<u32>::empty());
    proof {
        if nq == 1 {
            assert(probes::probed(probes@[0]@, 0) =~= probes@[0]@);
        }
    }
    search_batch_ivfsq_reader_roaring_filter_range(
        reader,
        queries,
        nq,
        k,
        0,
        nprobe,
        no_ids.as_slice(),
        no_distances.as_slice(),
        probes,
        lists,
        rows,
        ends,
        roaring_filter_bytes,
    )
}

/// Searches as [`search_batch_ivfsq_reader_roaring_filter`] does, unless a row that the bitmap
/// holds has no number for one of its distances.
pub fn try_search_batch_ivfsq_reader_roaring_filter(
    reader: &IVFSQIndexReader,
    queries: &[u32],
    nq: usize,
    k: usize,
    nprobe: usize,
    probes: &Vec<Vec<usize>>,
    lists: &Vec<usize>,
    rows: &Vec<ListRows>,
    ends: &Vec<usize>,
    roaring_filter_bytes: &[u8],
) -> (result: Option<Result<(Vec<i64>, Vec<u32>), Error>>)
    requires
        reader.wf(),
        probes@.len() == nq,
        rows_cover(lists@, rows@, nq as nat),
        nq == 1 ==> lists@ == probes@[0]@,
        ivf_search::batches_cover(ends@, lists@.len()),
        all_measured(probes@, 0, lists@, rows@),
    ensures
        match filter::filter_of(roaring_filter_bytes@) {
            Err(wanted) => result matches Some(Err(error)) && error@ == wanted,
            Ok(values) => exists|filter: RoaringFilter| #[trigger]
                filter.values() == values && match (
                    result,
                    checked_range(queries@.len(), nq, reader.d, k, 0, nprobe, 0, 0),
                ) {
                    (None, _) => !ivf_search::batch_comparable(rows@, nq as nat, Some(&filter)),
                    (Some(Ok(result)), Ok(_)) => ivf_search::batch_comparable(
                        rows@,
                        nq as nat,
                        Some(&filter),
                    ) && found_in_batches(
                        result,
                        probes@,
                        0,
                        lists@,
                        rows@,
                        ends@,
                        Some(&filter),
                        Seq::empty(),
                        Seq::empty(),
                        k as nat,
                    ),
                    (Some(Err(error)), Err(wanted)) => error@ == wanted
                        && ivf_search::batch_comparable(rows@, nq as nat, Some(&filter)),
                    _ => false,
                },
        },
{
    let filter = match decode_roaring_filter(roaring_filter_bytes) {
        Err(error) => return Some(Err(error)),
        Ok(filter) => filter,
    };
    if !batch_is_comparable(rows, nq, Some(&filter)) {
        assert(filter.values() == filter.values());
        return None;
    }
    proof {
        assert forall|other: RoaringFilter|
            filter::filter_of(roaring_filter_bytes@) == Ok::<Set<u64>, ErrorView>(
                other.values(),
            ) implies #[trigger] batch_searchable(
            probes@,
            0,
            lists@,
            rows@,
            ends@,
            Some(&other),
            Seq::empty(),
            Seq::empty(),
            k as nat,
        ) by {
            order_laws::lemma_equal_bitmaps_compare_batches(&filter, &other, rows@, nq as nat);
            order_laws::law_sq_batch_numbers_are_searchable(
                probes@,
                lists@,
                rows@,
                ends@,
                Some(&other),
                k as nat,
            );
        }
    }
    let result = search_batch_ivfsq_reader_roaring_filter(
        reader,
        queries,
        nq,
        k,
        nprobe,
        probes,
        lists,
        rows,
        ends,
        roaring_filter_bytes,
    );
    proof {
        if result is Ok {
            let found = result->Ok_0;
            let used = choose|used: RoaringFilter| #[trigger]
                used.values() == filter.values() && found_in_batches(
                    found,
                    probes@,
                    0,
                    lists@,
                    rows@,
                    ends@,
                    Some(&used),
                    Seq::empty(),
                    Seq::empty(),
                    k as nat,
                );
            order_laws::lemma_equal_bitmaps_compare_batches(&filter, &used, rows@, nq as nat);
            assert(used.values() == filter.values());
        } else {
            assert(filter.values() == filter.values());
        }
    }
    Some(result)
}

pub proof fn lemma_place_is_within(lists: Seq<usize>, list_id: usize, start: int, end: int)
    ensures
        place_in(lists, list_id, start, end) matches Some(place) ==> start <= place < end
            && lists[place] == list_id,
    decreases end - start,
{
    if start < end && lists[end - 1] != list_id {
        lemma_place_is_within(lists, list_id, start, end - 1);
    }
}

} // verus!
