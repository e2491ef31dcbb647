//! What a cache does not change: searches of an IVF-SQ index find the same rows, whatever
//! memory the cache has and whatever it holds.
use vstd::prelude::*;
use std::sync::Arc;
use crate::error::ErrorView;
use crate::filter::RowIdFilter;
use crate::ivf_search;
use crate::ivf_search::{ListRows, ScannedList};
use crate::probes;
use crate::sq_cache;
use crate::sq_cache::CacheContents;
use crate::sq_reader;
use crate::sq_reader::{IVFSQIndexReader, SqListData};
use crate::sq_scan;
use crate::sq_search;

verus! {

/// What a file says of a list: identifiers and codes, or why they cannot be had.
pub open spec fn list_in_file(reader: &IVFSQIndexReader, file: Seq<u8>, list_id: usize) -> Result<
    (Seq<i64>, Seq<u8>),
    ErrorView,
> {
    match reader.request(list_id) {
        Err(error) => Err(error),
        Ok(read) => reader.decoded(
            read,
            file.subrange(read.offset as int, read.offset + read.payload_len),
        ),
    }
}

/// Whether a list is as the file has it.
pub open spec fn is_in_file(reader: &IVFSQIndexReader, file: Seq<u8>, list: SqListData) -> bool {
    list.list_id < reader.nlist && list_in_file(reader, file, list.list_id) == Ok::<
        (Seq<i64>, Seq<u8>),
        ErrorView,
    >((list.ids@, list.codes@))
}

/// Whether what a cache holds is what the file has.
pub open spec fn holds_file(
    reader: &IVFSQIndexReader,
    file: Seq<u8>,
    contents: Option<CacheContents>,
) -> bool {
    contents matches Some(contents) ==> {
        &&& contents.held.len() == reader.nlist
        &&& forall|i: int|
            0 <= i < contents.queue.len() ==> #[trigger] contents.queue[i] < reader.nlist
        &&& forall|id: int|
            0 <= id < contents.held.len() && (#[trigger] contents.held[id]) is Some ==> {
                let list = *contents.held[id]->0.list;
                list.list_id == id && is_in_file(reader, file, list)
            }
    }
}

/// Whether the cache of a reader holds what the file has.
pub open spec fn is_faithful(reader: &IVFSQIndexReader, file: Seq<u8>) -> bool {
    holds_file(reader, file, reader.cache_contents())
}

/// A reader that was just opened has a cache that holds nothing but what the file has, since
/// it holds nothing.
pub proof fn law_new_readers_are_faithful(reader: &IVFSQIndexReader, file: Seq<u8>, budget: nat)
    requires
        reader.wf(),
        reader.caches(budget),
    ensures
        is_faithful(reader, file),
{
    if let Some(cache) = reader.list_cache {
        cache.law_cache_is_bounded();
        let contents = cache.contents();
        assert forall|id: int|
            0 <= id < contents.held.len() && (#[trigger] contents.held[id]) is Some implies {
            let list = *contents.held[id]->0.list;
            list.list_id == id && is_in_file(reader, file, list)
        } by {
            assert(cache.held()[id] is Some);
            assert(cache.queue().contains(id as usize));
        }
    }
}

proof fn lemma_room(
    reader: &IVFSQIndexReader,
    file: Seq<u8>,
    contents: CacheContents,
    bytes: nat,
)
    requires
        holds_file(reader, file, Some(contents)),
    ensures
        holds_file(reader, file, Some(sq_cache::with_room(contents, bytes))),
    decreases contents.queue.len(),
{
    if contents.queue.len() > 0 && sq_cache::total_charge(contents.held, contents.queue) + bytes
        > contents.capacity {
        let fewer = sq_cache::without_oldest(contents);
        assert(contents.queue[0] < reader.nlist);
        assert forall|i: int| 0 <= i < fewer.queue.len() implies #[trigger] fewer.queue[i]
            < reader.nlist by {
            assert(fewer.queue[i] == contents.queue[i + 1]);
        }
        assert forall|id: int|
            0 <= id < fewer.held.len() && (#[trigger] fewer.held[id]) is Some implies {
            let list = *fewer.held[id]->0.list;
            list.list_id == id && is_in_file(reader, file, list)
        } by {
            assert(fewer.held[id] == contents.held[id]);
        }
        lemma_room(reader, file, fewer, bytes);
    }
}

proof fn lemma_without_subset(queue: Seq<usize>, list_id: usize, nlist: nat)
    requires
        forall|i: int| 0 <= i < queue.len() ==> #[trigger] queue[i] < nlist,
    ensures
        forall|i: int|
            0 <= i < sq_cache::without_id(queue, list_id).len() ==> #[trigger] sq_cache::without_id(
                queue,
                list_id,
            )[i] < nlist,
    decreases queue.len(),
{
    if queue.len() > 0 {
        let rest = queue.drop_last();
        assert forall|i: int| 0 <= i < rest.len() implies #[trigger] rest[i] < nlist by {
            assert(rest[i] == queue[i]);
        }
        lemma_without_subset(rest, list_id, nlist);
        let before = sq_cache::without_id(rest, list_id);
        let after = sq_cache::without_id(queue, list_id);
        assert forall|i: int| 0 <= i < after.len() implies #[trigger] after[i] < nlist by {
            if i < before.len() {
                assert(after[i] == before[i]);
            } else {
                assert(after[i] == queue[queue.len() - 1]);
            }
        }
    }
}

/// Looking lists up finds only lists as the file has them, each in its place, and leaves a
/// cache that holds what the file has.
proof fn lemma_looked_up(
    reader: &IVFSQIndexReader,
    file: Seq<u8>,
    list_ids: Seq<usize>,
    n: nat,
)
    requires
        is_faithful(reader, file),
        n <= list_ids.len(),
        forall|i: int| 0 <= i < n ==> #[trigger] list_ids[i] < reader.nlist,
    ensures
        holds_file(reader, file, reader.looked_up(list_ids, n).0),
        reader.looked_up(list_ids, n).1.len() == n,
        forall|i: int|
            0 <= i < n && (#[trigger] reader.looked_up(list_ids, n).1[i]) is Some ==> {
                let list = *reader.looked_up(list_ids, n).1[i]->0;
                list.list_id == list_ids[i] && is_in_file(reader, file, list)
            },
    decreases n,
{
    if n > 0 {
        let m = (n - 1) as nat;
        lemma_looked_up(reader, file, list_ids, m);
        let (before, found) = reader.looked_up(list_ids, m);
        let (after, all) = reader.looked_up(list_ids, n);
        let list_id = list_ids[n - 1];
        if let Some(contents) = before {
            let fewer = sq_cache::without(contents, list_id);
            lemma_without_subset(contents.queue, list_id, reader.nlist as nat);
            assert forall|id: int|
                0 <= id < fewer.held.len() && (#[trigger] fewer.held[id]) is Some implies {
                let list = *fewer.held[id]->0.list;
                list.list_id == id && is_in_file(reader, file, list)
            } by {
                assert(fewer.held[id] == contents.held[id]);
            }
            assert(holds_file(reader, file, Some(fewer)));
        }
        assert forall|i: int| 0 <= i < n && (#[trigger] all[i]) is Some implies {
            let list = *all[i]->0;
            list.list_id == list_ids[i] && is_in_file(reader, file, list)
        } by {
            if i < m {
                assert(all[i] == found[i]);
            } else {
                let contents = before->0;
                assert(contents.held[list_id as int] is Some);
            }
        }
    }
}

proof fn lemma_offered(
    reader: &IVFSQIndexReader,
    file: Seq<u8>,
    contents: Option<CacheContents>,
    list: Arc<SqListData>,
)
    requires
        holds_file(reader, file, contents),
        is_in_file(reader, file, *list),
    ensures
        holds_file(reader, file, reader.offered_list(contents, list)),
{
    if let Some(before) = contents {
        let entry = sq_cache::CachedSqList {
            entry: reader.lists@[list.list_id as int],
            d: reader.d,
            list,
        };
        let after = sq_cache::after_insert(before, entry);
        if after != before {
            let room = sq_cache::with_room(before, entry.charged());
            lemma_room(reader, file, before, entry.charged());
            assert forall|id: int|
                0 <= id < after.held.len() && (#[trigger] after.held[id]) is Some implies {
                let list = *after.held[id]->0.list;
                list.list_id == id && is_in_file(reader, file, list)
            } by {
                if id != entry.list.list_id {
                    assert(after.held[id] == room.held[id]);
                }
            }
            assert forall|i: int| 0 <= i < after.queue.len() implies #[trigger] after.queue[i]
                < reader.nlist by {
                if i < room.queue.len() {
                    assert(after.queue[i] == room.queue[i]);
                }
            }
        }
    }
}

/// Whether decoded lists are those that a lookup did not find, as the file has them.
pub open spec fn loads_missing(
    reader: &IVFSQIndexReader,
    file: Seq<u8>,
    list_ids: Seq<usize>,
    found: Seq<Option<Arc<SqListData>>>,
    loaded: Seq<SqListData>,
) -> bool {
    let missing = sq_reader::missing(list_ids, found, found.len());
    &&& loaded.len() == missing.len()
    &&& forall|i: int|
        0 <= i < loaded.len() ==> (#[trigger] loaded[i]).list_id == missing[i] && is_in_file(
            reader,
            file,
            loaded[i],
        )
}

proof fn lemma_missing_prefix(
    list_ids: Seq<usize>,
    found: Seq<Option<Arc<SqListData>>>,
    n: nat,
    more: nat,
)
    requires
        n <= more,
    ensures
        sq_reader::missing(list_ids, found, n).len() <= sq_reader::missing(
            list_ids,
            found,
            more,
        ).len(),
        forall|i: int|
            0 <= i < sq_reader::missing(list_ids, found, n).len() ==> #[trigger] sq_reader::missing(
                list_ids,
                found,
                n,
            )[i] == sq_reader::missing(list_ids, found, more)[i],
    decreases more,
{
    if n < more {
        lemma_missing_prefix(list_ids, found, n, (more - 1) as nat);
    }
}

proof fn lemma_filled(
    reader: &IVFSQIndexReader,
    file: Seq<u8>,
    list_ids: Seq<usize>,
    found: Seq<Option<Arc<SqListData>>>,
    loaded: Seq<SqListData>,
    n: nat,
)
    requires
        is_faithful(reader, file),
        found.len() == list_ids.len(),
        n <= found.len(),
        forall|i: int|
            0 <= i < found.len() && (#[trigger] found[i]) is Some ==> (*found[i]->0).list_id
                == list_ids[i] && is_in_file(reader, file, *found[i]->0),
        loads_missing(reader, file, list_ids, found, loaded),
    ensures
        holds_file(reader, file, reader.filled(found, loaded, n).1),
        reader.filled(found, loaded, n).2 == sq_reader::missing(list_ids, found, n).len(),
        reader.filled(found, loaded, n).0.len() == n,
        forall|i: int|
            0 <= i < n ==> (*#[trigger] reader.filled(found, loaded, n).0[i]).list_id == list_ids[i]
                && is_in_file(reader, file, *reader.filled(found, loaded, n).0[i]),
    decreases n,
{
    if n > 0 {
        let m = (n - 1) as nat;
        lemma_filled(reader, file, list_ids, found, loaded, m);
        let (lists, contents, used) = reader.filled(found, loaded, m);
        let after = reader.filled(found, loaded, n).0;
        if found[n - 1] is None {
            lemma_missing_prefix(list_ids, found, n, found.len());
            let missing = sq_reader::missing(list_ids, found, n);
            assert(missing[used as int] == list_ids[n - 1]);
            assert(loaded[used as int].list_id == list_ids[n - 1]);
            lemma_offered(reader, file, contents, Arc::new(loaded[used as int]));
        }
        assert forall|i: int| 0 <= i < n implies (*#[trigger] after[i]).list_id == list_ids[i]
            && is_in_file(reader, file, *after[i]) by {
            if i < m {
                assert(after[i] == lists[i]);
            }
        }
    }
}

proof fn lemma_same_file(a: &IVFSQIndexReader, b: &IVFSQIndexReader, file: Seq<u8>)
    requires
        a.same_but_cache(b),
    ensures
        forall|list_id: usize| #[trigger]
            list_in_file(a, file, list_id) == list_in_file(b, file, list_id),
{
    assert forall|list_id: usize| #[trigger]
        list_in_file(a, file, list_id) == list_in_file(b, file, list_id) by {
        assert(a.request(list_id) == b.request(list_id));
    }
}

/// Scanning lists through the cache gives every list as the file has it, and leaves a cache
/// that holds what the file has. `looked` is the reader behind the lookup, `after` the one
/// behind the decoded lists.
pub proof fn law_scanned_lists_are_those_of_the_file(
    before: &IVFSQIndexReader,
    looked: &IVFSQIndexReader,
    after: &IVFSQIndexReader,
    file: Seq<u8>,
    list_ids: Seq<usize>,
    loaded: Seq<SqListData>,
)
    requires
        is_faithful(before, file),
        forall|i: int| 0 <= i < list_ids.len() ==> #[trigger] list_ids[i] < before.nlist,
        looked.same_but_cache(before),
        looked.cache_contents() == before.looked_up(list_ids, list_ids.len()).0,
        loads_missing(
            before,
            file,
            list_ids,
            before.looked_up(list_ids, list_ids.len()).1,
            loaded,
        ),
        after.same_but_cache(looked),
        after.cache_contents() == looked.filled(
            before.looked_up(list_ids, list_ids.len()).1,
            loaded,
            list_ids.len(),
        ).1,
    ensures
        is_faithful(after, file),
        after.same_but_cache(before),
        ({
            let lists = looked.filled(
                before.looked_up(list_ids, list_ids.len()).1,
                loaded,
                list_ids.len(),
            ).0;
            &&& lists.len() == list_ids.len()
            &&& forall|i: int|
                0 <= i < lists.len() ==> (*#[trigger] lists[i]).list_id == list_ids[i] && is_in_file(
                    before,
                    file,
                    *lists[i],
                )
        }),
{
    let found = before.looked_up(list_ids, list_ids.len()).1;
    lemma_looked_up(before, file, list_ids, list_ids.len());
    lemma_same_file(looked, before, file);
    lemma_same_file(after, before, file);
    lemma_moved(before, looked, file, looked.cache_contents());
    assert(loads_missing(looked, file, list_ids, found, loaded));
    lemma_filled(looked, file, list_ids, found, loaded, list_ids.len());
    lemma_moved(looked, after, file, after.cache_contents());
}

proof fn lemma_moved(
    a: &IVFSQIndexReader,
    b: &IVFSQIndexReader,
    file: Seq<u8>,
    contents: Option<CacheContents>,
)
    requires
        b.same_but_cache(a),
        holds_file(a, file, contents),
    ensures
        holds_file(b, file, contents),
{
    lemma_same_file(b, a, file);
}

/// A reader without a cache finds no list, so that every list is read again.
pub proof fn law_readers_without_a_cache_read_every_list(
    reader: &IVFSQIndexReader,
    list_ids: Seq<usize>,
    n: nat,
)
    requires
        reader.list_cache is None,
        n <= list_ids.len(),
    ensures
        reader.looked_up(list_ids, n).0 is None,
        reader.looked_up(list_ids, n).1.len() == n,
        sq_reader::missing(list_ids, reader.looked_up(list_ids, n).1, n) == list_ids.subrange(
            0,
            n as int,
        ),
    decreases n,
{
    if n > 0 {
        let m = (n - 1) as nat;
        law_readers_without_a_cache_read_every_list(reader, list_ids, m);
        let before = reader.looked_up(list_ids, m).1;
        let after = reader.looked_up(list_ids, n).1;
        lemma_same_missing(list_ids, before, after, m);
        assert(list_ids.subrange(0, n as int) =~= list_ids.subrange(0, m as int).push(
            list_ids[n - 1],
        ));
    } else {
        assert(list_ids.subrange(0, 0) =~= Seq::<usize>::empty());
    }
}

proof fn lemma_same_missing(
    list_ids: Seq<usize>,
    a: Seq<Option<Arc<SqListData>>>,
    b: Seq<Option<Arc<SqListData>>>,
    n: nat,
)
    requires
        forall|i: int| 0 <= i < n ==> #[trigger] a[i] == b[i],
    ensures
        sq_reader::missing(list_ids, a, n) == sq_reader::missing(list_ids, b, n),
    decreases n,
{
    if n > 0 {
        lemma_same_missing(list_ids, a, b, (n - 1) as nat);
        assert(a[n - 1] == b[n - 1]);
    }
}

/// Whether lists were measured: each has the identifiers of the list that was scanned, and
/// distances that depend on the list and its codes alone.
pub open spec fn are_measured(
    lists: Seq<Arc<SqListData>>,
    scanned: Seq<ScannedList>,
    measure: spec_fn(usize, Seq<u8>) -> Seq<u32>,
) -> bool {
    &&& scanned.len() == lists.len()
    &&& forall|i: int|
        0 <= i < lists.len() ==> (#[trigger] scanned[i]).ids@ == lists[i].ids@
            && scanned[i].distances@ == measure(lists[i].list_id, lists[i].codes@)
}

/// Whether lists were measured for several queries.
pub open spec fn are_measured_for(
    lists: Seq<Arc<SqListData>>,
    rows: Seq<ListRows>,
    measure: spec_fn(int, usize, Seq<u8>) -> Seq<u32>,
    nq: nat,
) -> bool {
    &&& rows.len() == lists.len()
    &&& forall|p: int|
        0 <= p < lists.len() ==> (#[trigger] rows[p]).ids@ == lists[p].ids@
    &&& forall|p: int, q: int|
        0 <= p < lists.len() && 0 <= q < nq ==> (#[trigger] rows[p].distances@[q])@ == measure(
            q,
            lists[p].list_id,
            lists[p].codes@,
        )
}

/// Whether lists that a reader scanned are those of a file.
pub open spec fn are_of_the_file(
    reader: &IVFSQIndexReader,
    file: Seq<u8>,
    list_ids: Seq<usize>,
    lists: Seq<Arc<SqListData>>,
) -> bool {
    &&& lists.len() == list_ids.len()
    &&& forall|i: int|
        0 <= i < lists.len() ==> (*#[trigger] lists[i]).list_id == list_ids[i] && is_in_file(
            reader,
            file,
            *lists[i],
        )
}

/// A search of an IVF-SQ index for one query finds the same, whatever the cache of the reader
/// holds and whether there is one: two readers of a file, with any memory budgets and any
/// searches before, give equal results.
pub proof fn law_searches_do_not_depend_on_the_cache<F: RowIdFilter>(
    a: &IVFSQIndexReader,
    b: &IVFSQIndexReader,
    file: Seq<u8>,
    list_ids: Seq<usize>,
    a_lists: Seq<Arc<SqListData>>,
    b_lists: Seq<Arc<SqListData>>,
    a_scanned: Seq<ScannedList>,
    b_scanned: Seq<ScannedList>,
    measure: spec_fn(usize, Seq<u8>) -> Seq<u32>,
    ends: Seq<usize>,
    seed_ids: Seq<i64>,
    seed_distances: Seq<u32>,
    filter: Option<&F>,
    k: nat,
    a_result: (Vec<i64>, Vec<u32>),
    b_result: (Vec<i64>, Vec<u32>),
)
    requires
        a.same_but_cache(b),
        are_of_the_file(a, file, list_ids, a_lists),
        are_of_the_file(b, file, list_ids, b_lists),
        are_measured(a_lists, a_scanned, measure),
        are_measured(b_lists, b_scanned, measure),
        sq_search::found_in_lists(
            a_result,
            seed_ids,
            seed_distances,
            a_scanned,
            ends,
            filter,
            k,
        ),
        sq_search::found_in_lists(
            b_result,
            seed_ids,
            seed_distances,
            b_scanned,
            ends,
            filter,
            k,
        ),
    ensures
        a_result.0@ == b_result.0@,
        a_result.1@ == b_result.1@,
{
    lemma_same_file(a, b, file);
    assert(sq_scan::measured(a_scanned) =~= sq_scan::measured(b_scanned)) by {
        assert forall|i: int| 0 <= i < a_scanned.len() implies #[trigger] sq_scan::measured(
            a_scanned,
        )[i] == sq_scan::measured(b_scanned)[i] by {
            assert(a_lists[i].list_id == list_ids[i] && b_lists[i].list_id == list_ids[i]);
            assert(list_in_file(a, file, list_ids[i]) == list_in_file(b, file, list_ids[i]));
            assert(a_scanned[i].ids@ == a_lists[i].ids@);
            assert(b_scanned[i].ids@ == b_lists[i].ids@);
        }
    }
}

/// Whether rows are the same, with the same distances from each of several queries.
pub open spec fn same_rows(a: Seq<ListRows>, b: Seq<ListRows>, nq: nat) -> bool {
    &&& a.len() == b.len()
    &&& forall|p: int| 0 <= p < a.len() ==> (#[trigger] a[p]).ids@ == b[p].ids@
    &&& forall|p: int, q: int|
        0 <= p < a.len() && 0 <= q < nq ==> (#[trigger] a[p].distances@[q])@ == b[p].distances@[q]@
}

proof fn lemma_same_probe_entries<F: RowIdFilter>(
    probed: Seq<usize>,
    lists: Seq<usize>,
    a: Seq<ListRows>,
    b: Seq<ListRows>,
    filter: Option<&F>,
    query: int,
    nq: nat,
    start: int,
    end: int,
    n: nat,
)
    requires
        same_rows(a, b, nq),
        0 <= query < nq,
        0 <= start,
        end <= a.len(),
    ensures
        sq_search::probe_entries(probed, lists, a, filter, query, start, end, n)
            == sq_search::probe_entries(probed, lists, b, filter, query, start, end, n),
    decreases n,
{
    if n > 0 {
        lemma_same_probe_entries(
            probed,
            lists,
            a,
            b,
            filter,
            query,
            nq,
            start,
            end,
            (n - 1) as nat,
        );
        sq_search::lemma_place_is_within(lists, probed[n - 1], start, end);
        if let Some(place) = sq_search::place_in(lists, probed[n - 1], start, end) {
            assert(a[place].ids@ == b[place].ids@);
            assert(a[place].distances@[query]@ == b[place].distances@[query]@);
        }
    }
}

proof fn lemma_same_batched_entries<F: RowIdFilter>(
    probed: Seq<usize>,
    lists: Seq<usize>,
    a: Seq<ListRows>,
    b: Seq<ListRows>,
    ends: Seq<usize>,
    filter: Option<&F>,
    query: int,
    nq: nat,
    n: nat,
)
    requires
        same_rows(a, b, nq),
        0 <= query < nq,
        a.len() == lists.len(),
        ivf_search::batches_cover(ends, lists.len()),
        n <= ends.len(),
    ensures
        0 <= ivf_search::batch_start(ends, n as int),
        sq_search::batched_entries(probed, lists, a, ends, filter, query, n)
            == sq_search::batched_entries(probed, lists, b, ends, filter, query, n),
    decreases n,
{
    if n > 0 {
        lemma_same_batched_entries(
            probed,
            lists,
            a,
            b,
            ends,
            filter,
            query,
            nq,
            (n - 1) as nat,
        );
        assert(ivf_search::batch_start(ends, n - 1) <= ends[n - 1] <= lists.len());
        lemma_same_probe_entries(
            probed,
            lists,
            a,
            b,
            filter,
            query,
            nq,
            ivf_search::batch_start(ends, n - 1),
            ends[n - 1] as int,
            probed.len(),
        );
    }
}

proof fn lemma_same_results(
    a: spec_fn(int) -> Seq<(u32, i64)>,
    b: spec_fn(int) -> Seq<(u32, i64)>,
    k: nat,
    n: nat,
)
    requires
        forall|q: int| 0 <= q < n ==> #[trigger] a(q) == b(q),
    ensures
        ivf_search::result_ids(a, k, n) == ivf_search::result_ids(b, k, n),
        ivf_search::result_distances(a, k, n) == ivf_search::result_distances(b, k, n),
    decreases n,
{
    if n > 0 {
        lemma_same_results(a, b, k, (n - 1) as nat);
        assert(a(n - 1) == b(n - 1));
    }
}

/// A batch of an IVF-SQ index finds the same, whatever the cache of the reader holds and
/// whether there is one.
pub proof fn law_batches_do_not_depend_on_the_cache<F: RowIdFilter>(
    a: &IVFSQIndexReader,
    b: &IVFSQIndexReader,
    file: Seq<u8>,
    list_ids: Seq<usize>,
    a_lists: Seq<Arc<SqListData>>,
    b_lists: Seq<Arc<SqListData>>,
    a_rows: Seq<ListRows>,
    b_rows: Seq<ListRows>,
    measure: spec_fn(int, usize, Seq<u8>) -> Seq<u32>,
    probed: Seq<Vec<usize>>,
    probe_start: nat,
    ends: Seq<usize>,
    seed_ids: Seq<i64>,
    seed_distances: Seq<u32>,
    filter: Option<&F>,
    k: nat,
    a_result: (Vec<i64>, Vec<u32>),
    b_result: (Vec<i64>, Vec<u32>),
)
    requires
        a.same_but_cache(b),
        are_of_the_file(a, file, list_ids, a_lists),
        are_of_the_file(b, file, list_ids, b_lists),
        are_measured_for(a_lists, a_rows, measure, probed.len()),
        are_measured_for(b_lists, b_rows, measure, probed.len()),
        ivf_search::batches_cover(ends, list_ids.len()),
        sq_search::found_in_batches(
            a_result,
            probed,
            probe_start,
            list_ids,
            a_rows,
            ends,
            filter,
            seed_ids,
            seed_distances,
            k,
        ),
        sq_search::found_in_batches(
            b_result,
            probed,
            probe_start,
            list_ids,
            b_rows,
            ends,
            filter,
            seed_ids,
            seed_distances,
            k,
        ),
    ensures
        a_result.0@ == b_result.0@,
        a_result.1@ == b_result.1@,
{
    let nq = probed.len();
    lemma_same_file(a, b, file);
    assert forall|p: int| 0 <= p < a_rows.len() implies a_lists[p].ids@ == b_lists[p].ids@
        && a_lists[p].codes@ == b_lists[p].codes@ && #[trigger] a_lists[p].list_id
        == b_lists[p].list_id by {
        assert(b_lists[p].list_id == list_ids[p]);
        assert(list_in_file(a, file, list_ids[p]) == list_in_file(b, file, list_ids[p]));
    }
    assert(same_rows(a_rows, b_rows, nq)) by {
        assert forall|p: int| 0 <= p < a_rows.len() implies (#[trigger] a_rows[p]).ids@
            == b_rows[p].ids@ by {
            assert(a_lists[p].list_id == b_lists[p].list_id);
        }
        assert forall|p: int, q: int| 0 <= p < a_rows.len() && 0 <= q < nq implies (
        #[trigger] a_rows[p].distances@[q])@ == b_rows[p].distances@[q]@ by {
            assert(a_lists[p].list_id == b_lists[p].list_id);
            assert(b_rows[p].distances@[q]@ == measure(q, b_lists[p].list_id, b_lists[p].codes@));
        }
    }
    let a_entries = sq_search::batch_entries(
        probed,
        probe_start,
        list_ids,
        a_rows,
        ends,
        filter,
        seed_ids,
        seed_distances,
        k,
    );
    let b_entries = sq_search::batch_entries(
        probed,
        probe_start,
        list_ids,
        b_rows,
        ends,
        filter,
        seed_ids,
        seed_distances,
        k,
    );
    assert forall|q: int| 0 <= q < nq implies #[trigger] a_entries(q) == b_entries(q) by {
        if nq == 1 {
            let x = sq_scan::measured_for(a_rows, q);
            let y = sq_scan::measured_for(b_rows, q);
            assert(x =~= y) by {
                assert forall|p: int| 0 <= p < x.len() implies #[trigger] x[p] == y[p] by {
                    assert(a_rows[p].ids@ == b_rows[p].ids@);
                    assert(a_rows[p].distances@[q]@ == b_rows[p].distances@[q]@);
                }
            }
        } else {
            lemma_same_batched_entries(
                probes::probed(probed[q]@, probe_start),
                list_ids,
                a_rows,
                b_rows,
                ends,
                filter,
                q,
                nq,
                ends.len(),
            );
        }
    }
    lemma_same_results(a_entries, b_entries, k, nq);
}

} // verus!
