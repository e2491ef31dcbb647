//! What is read, kept and put in place: visits, rows, pieces, sizes, and the cache.
use vstd::prelude::*;
use crate::error::ErrorView;
use crate::layout;
use crate::probes;
use crate::probes::Visit;
use crate::read_plan;
use crate::read_plan::{ReadLimits, ReadStep};
use crate::rows;
use crate::sq_cache;
use crate::sq_cache::{CacheContents, CachedSqList, SqListCache};
use crate::sq_reader::SqListData;
use crate::width_laws;

verus! {

/// The visits of a query: the lists that it probes, from the place `start` on.
pub open spec fn visits_of(lists: Seq<usize>, start: nat, query: int) -> Seq<Visit> {
    Seq::new(
        (if start < lists.len() {
            lists.len() - start
        } else {
            0
        }) as nat,
        |i: int| Visit { list_id: lists[start + i], query: query as usize },
    )
}

/// Every query of a batch visits each list that it probes from a place on, and no others; the
/// visits of one query stand behind those of the query before it.
pub proof fn law_queries_visit_what_they_probe(probes: Seq<Vec<usize>>, start: nat, n: nat)
    requires
        n <= probes.len(),
        n <= usize::MAX,
    ensures
        probes::visits(probes, start, n) == Seq::new(
            n,
            |q: int| visits_of(probes[q]@, start, q),
        ).flatten(),
    decreases n,
{
    let parts = Seq::new(n, |q: int| visits_of(probes[q]@, start, q));
    if n > 0 {
        law_queries_visit_what_they_probe(probes, start, (n - 1) as nat);
        let fewer = Seq::new((n - 1) as nat, |q: int| visits_of(probes[q]@, start, q));
        assert(parts.drop_last() =~= fewer);
        parts.lemma_flatten_and_flatten_alt_are_equivalent();
        fewer.lemma_flatten_and_flatten_alt_are_equivalent();
        let lists = probes::probed(probes[n - 1]@, start);
        assert(probes::query_visits(lists, (n - 1) as usize, lists.len()) =~= parts.last());
    } else {
        assert(parts =~= Seq::empty());
    }
}

/// A list is scanned for the queries that visit it, in the order of their visits.
pub proof fn law_lists_are_scanned_for_their_visitors(visits: Seq<Visit>, list_id: int)
    ensures
        probes::visitors(visits, list_id) == visits.filter(
            |visit: Visit| visit.list_id == list_id,
        ).map_values(|visit: Visit| visit.query),
    decreases visits.len(),
{
    reveal(Seq::filter);
    let own = |visit: Visit| visit.list_id == list_id;
    let named = |visit: Visit| visit.query;
    if visits.len() > 0 {
        law_lists_are_scanned_for_their_visitors(visits.drop_last(), list_id);
        let before = visits.drop_last().filter(own);
        if own(visits.last()) {
            assert(before.push(visits.last()).map_values(named) =~= before.map_values(named).push(
                visits.last().query,
            ));
        }
    } else {
        assert(visits.filter(own).map_values(named) =~= Seq::empty());
    }
}

/// Of two lists the one that is visited first is read first. `at` is its first visit.
pub proof fn law_lists_are_read_in_the_order_of_visits(visits: Seq<Visit>, i: int, j: int) -> (at:
    int)
    requires
        0 <= i < j < probes::unique_lists(visits).len(),
    ensures
        0 <= at < visits.len(),
        visits[at].list_id == probes::unique_lists(visits)[i],
        forall|p: int|
            0 <= p <= at ==> (#[trigger] visits[p]).list_id != probes::unique_lists(visits)[j],
    decreases visits.len(),
{
    let rest = visits.drop_last();
    let before = probes::unique_lists(rest);
    let after = probes::unique_lists(visits);
    assert(visits.len() > 0);
    if j < before.len() {
        let at = law_lists_are_read_in_the_order_of_visits(rest, i, j);
        assert(rest[at] == visits[at]);
        assert forall|p: int| 0 <= p <= at implies (#[trigger] visits[p]).list_id != after[j] by {
            assert(rest[p] == visits[p]);
            assert(before[j] == after[j]);
        }
        at
    } else {
        assert(after[i] == before[i]);
        assert(before.contains(after[i]));
        probes::law_lists_are_read_for_their_visitors(rest, after[i], 0);
        probes::law_lists_are_read_for_their_visitors(rest, after[j], 0);
        let at = choose|at: int| 0 <= at < rest.len() && (#[trigger] rest[at]).list_id == after[i];
        assert(visits[at] == rest[at]);
        assert forall|p: int| 0 <= p <= at implies (#[trigger] visits[p]).list_id != after[j] by {
            assert(rest[p] == visits[p]);
            if rest[p].list_id == after[j] {
                assert(before.contains(after[j]));
            }
        }
        at
    }
}

/// Rows that are written to their places stand there, and the rows at all other places stay.
pub proof fn law_rows_are_scattered<T>(
    base: Seq<T>,
    places: Seq<usize>,
    values: Seq<T>,
    count: nat,
    k: nat,
    at: int,
)
    requires
        base.len() == count * k,
        values.len() == places.len() * k,
        forall|i: int| 0 <= i < places.len() ==> #[trigger] places[i] < count,
        forall|i: int, j: int|
            0 <= i < j < places.len() ==> #[trigger] places[i] < #[trigger] places[j],
        0 <= at < count,
    ensures
        ({
            let after = rows::scattered(base, places, values, k, places.len());
            &&& forall|i: int|
                0 <= i < places.len() && #[trigger] places[i] == at ==> after.subrange(
                    at * k,
                    at * k + k,
                ) == values.subrange(i * k, i * k + k)
            &&& !places.contains(at as usize) ==> after.subrange(at * k, at * k + k)
                == base.subrange(at * k, at * k + k)
        }),
{
    rows::lemma_scattered_row(base, places, values, count, k, places.len(), at);
    assert(at <= usize::MAX || places.len() == 0 || places[0] < count);
    if !places.contains(at as usize) && at <= usize::MAX {
        assert forall|i: int| 0 <= i < places.len() implies #[trigger] places[i] != at by {
            assert(places.contains(places[i]));
        }
    }
}

/// A piece of a list has rows, and no more than remain. With more than `alignment` rows it fits
/// beside what is retained; and unless it is the last piece, `alignment` rows more would not.
pub proof fn law_pieces_are_as_large_as_they_may_be(
    remaining: nat,
    row_bytes: nat,
    retained: nat,
    alignment: nat,
    limits: ReadLimits,
)
    requires
        remaining > 0,
        row_bytes > 0,
        alignment > 0,
    ensures
        ({
            let rows = read_plan::stream_rows(remaining, row_bytes, retained, alignment, limits);
            &&& 1 <= rows <= remaining
            &&& rows > alignment ==> retained + rows * row_bytes <= limits.payload_bytes
            &&& rows < remaining ==> rows >= alignment && rows % alignment == 0 && retained + (rows
                + alignment) * row_bytes > limits.payload_bytes
        }),
{
    let rows = read_plan::stream_rows(remaining, row_bytes, retained, alignment, limits);
    let budget: int = if retained < limits.payload_bytes {
        limits.payload_bytes - retained
    } else {
        0
    };
    let whole = budget / (row_bytes as int);
    let pieces = whole / (alignment as int);
    let fitting = pieces * alignment;
    vstd::arithmetic::div_mod::lemma_fundamental_div_mod(budget, row_bytes as int);
    vstd::arithmetic::div_mod::lemma_mod_bound(budget, row_bytes as int);
    vstd::arithmetic::div_mod::lemma_fundamental_div_mod(whole, alignment as int);
    vstd::arithmetic::div_mod::lemma_mod_bound(whole, alignment as int);
    assert(alignment * pieces == fitting && row_bytes * whole == whole * row_bytes)
        by (nonlinear_arith)
        requires
            fitting == pieces * alignment,
    ;
    vstd::arithmetic::div_mod::lemma_mod_multiples_basic(pieces, alignment as int);
    vstd::arithmetic::div_mod::lemma_mod_self_0(alignment as int);
    assert(0 <= pieces) by (nonlinear_arith)
        requires
            pieces == whole / (alignment as int),
            whole >= 0,
            alignment > 0,
    ;
    if rows > alignment {
        assert(rows * row_bytes <= whole * row_bytes) by (nonlinear_arith)
            requires
                rows <= whole,
                row_bytes > 0,
        ;
    }
    if rows < remaining {
        assert(rows + alignment >= whole + 1);
        assert((rows + alignment) * row_bytes >= (whole + 1) * row_bytes) by (nonlinear_arith)
            requires
                rows + alignment >= whole + 1,
                row_bytes > 0,
        ;
        assert((whole + 1) * row_bytes == whole * row_bytes + row_bytes) by (nonlinear_arith);
    }
}

/// Lists are read at once up to the first that would be one too many, or would make the payloads
/// too large; the first list is read in any case.
pub proof fn law_lists_are_read_at_once(lengths: Seq<usize>, position: nat, limits: ReadLimits)
    requires
        lengths.len() > 0,
        position + lengths.len() <= usize::MAX,
    ensures
        read_plan::batch_step(lengths, position, limits) matches ReadStep::Batch { end }
            && position < end <= position + lengths.len() && {
            let n = end - position;
            &&& n > 1 ==> n <= limits.max_ranges && width_laws::total_of(lengths.subrange(0, n))
                <= limits.payload_bytes
            &&& n < lengths.len() ==> n + 1 > limits.max_ranges || width_laws::total_of(
                lengths.subrange(0, n + 1),
            ) > limits.payload_bytes
        },
{
    width_laws::law_batches_are_within_limits(lengths, limits);
    let len = read_plan::batch_len(lengths, limits, 0) as int;
    if len < lengths.len() {
        let longer = lengths.subrange(0, len + 1);
        assert(longer.drop_last() =~= lengths.subrange(0, len));
    }
    if len == 0 && lengths.len() > 1 {
        let two = lengths.subrange(0, 2);
        let one = lengths.subrange(0, 1);
        assert(two.drop_last() =~= one);
        assert(one.drop_last() =~= Seq::empty());
        assert(lengths.subrange(0, 0) =~= Seq::empty());
    }
}

/// Sizes, offsets and counts are accepted if and only if they can be stored, and are kept as
/// they are.
pub proof fn law_sizes_are_checked(
    format: Seq<char>,
    a: nat,
    b: nat,
    offset: i64,
    list_id: usize,
    value: i32,
    place: u64,
)
    ensures
        layout::section_size(format, a, b) is Ok <==> a * b <= 0x4000_0000,
        layout::section_size(format, a, b) matches Ok(n) ==> n == a * b,
        layout::list_bytes(format, a, b) is Ok <==> a * b <= usize::MAX,
        layout::list_bytes(format, a, b) matches Ok(n) ==> n == a * b,
        layout::list_offset(offset, list_id) is Ok <==> offset >= 0,
        layout::list_offset(offset, list_id) matches Ok(n) ==> n == offset,
        layout::as_i32(a, format) is Ok <==> a < 0x8000_0000,
        layout::as_i32(a, format) matches Ok(n) ==> n == a,
        layout::as_i64(a, format) is Ok <==> a < 0x8000_0000_0000_0000,
        layout::as_i64(a, format) matches Ok(n) ==> n == a,
        layout::offset_as_i64(place, format) is Ok <==> place < 0x8000_0000_0000_0000,
        layout::offset_as_i64(place, format) matches Ok(n) ==> n == place,
        layout::positive_i32(value, format) is Ok <==> value > 0,
        layout::positive_i32(value, format) matches Ok(n) ==> n == value,
{
}

/// The rows of an index are counted over all its lists, if there are not too many.
pub proof fn law_rows_are_counted(lengths: Seq<nat>)
    ensures
        ({
            let sum = lengths.fold_left(0int, |sum: int, n: nat| sum + n);
            &&& sum >= 0
            &&& sum < 0x8000_0000_0000_0000 ==> layout::total_count(lengths) == Ok::<
                i64,
                ErrorView,
            >(sum as i64)
            &&& sum >= 0x8000_0000_0000_0000 ==> layout::total_count(lengths) is Err
        }),
    decreases lengths.len(),
{
    if lengths.len() > 0 {
        law_rows_are_counted(lengths.drop_last());
    }
}

/// The bytes that a list in the cache takes: the list itself with the two counters of the
/// references to it, eight bytes for each identifier, and one for each code.
pub open spec fn bytes_of(cached: CachedSqList) -> int {
    let bytes = vstd::layout::size_of::<SqListData>() + 2 * vstd::layout::size_of::<usize>() + 8
        * cached.list.ids@.len() + cached.list.codes@.len();
    if bytes < usize::MAX {
        bytes as int
    } else {
        usize::MAX as int
    }
}

/// The bytes that several lists in the cache take together.
pub open spec fn bytes_of_all(held: Seq<Option<CachedSqList>>, queue: Seq<usize>) -> int {
    queue.fold_left(0int, |sum: int, id: usize| sum + bytes_of(held[id as int]->0))
}

proof fn lemma_bytes(held: Seq<Option<CachedSqList>>, queue: Seq<usize>)
    ensures
        bytes_of_all(held, queue) == sq_cache::total_charge(held, queue),
    decreases queue.len(),
{
    if queue.len() > 0 {
        lemma_bytes(held, queue.drop_last());
    }
}

/// Whether a queue names the lists in the cache, each once.
spec fn is_queue(contents: CacheContents) -> bool {
    &&& contents.queue.no_duplicates()
    &&& forall|i: int|
        0 <= i < contents.queue.len() ==> #[trigger] contents.queue[i] < contents.held.len()
}

proof fn lemma_evicted(contents: CacheContents, bytes: nat) -> (n: int)
    requires
        is_queue(contents),
    ensures
        ({
            let after = sq_cache::with_room(contents, bytes);
            let len = contents.queue.len() as int;
            &&& 0 <= n <= len
            &&& after.capacity == contents.capacity
            &&& after.queue == contents.queue.subrange(n, len)
            &&& after.held.len() == contents.held.len()
            &&& forall|id: int|
                0 <= id < contents.held.len() ==> #[trigger] after.held[id] == if exists|i: int|
                    0 <= i < n && #[trigger] contents.queue[i] == id {
                    None
                } else {
                    contents.held[id]
                }
            &&& n < len ==> bytes_of_all(contents.held, contents.queue.subrange(n, len)) + bytes
                <= contents.capacity
            &&& n > 0 ==> bytes_of_all(contents.held, contents.queue.subrange(n - 1, len)) + bytes
                > contents.capacity
        }),
    decreases contents.queue.len(),
{
    let len = contents.queue.len() as int;
    lemma_bytes(contents.held, contents.queue);
    assert(contents.queue.subrange(0, len) =~= contents.queue);
    if contents.queue.len() == 0 || sq_cache::total_charge(contents.held, contents.queue) + bytes
        <= contents.capacity {
        0
    } else {
        let fewer = sq_cache::without_oldest(contents);
        let oldest = contents.queue[0];
        assert(is_queue(fewer)) by {
            assert forall|i: int| 0 <= i < fewer.queue.len() implies #[trigger] fewer.queue[i]
                < fewer.held.len() by {
                assert(fewer.queue[i] == contents.queue[i + 1]);
            }
        }
        let m = lemma_evicted(fewer, bytes);
        let n = m + 1;
        let after = sq_cache::with_room(contents, bytes);
        assert(fewer.queue.subrange(m, len - 1) =~= contents.queue.subrange(n, len));
        assert forall|id: int| 0 <= id < contents.held.len() implies #[trigger] after.held[id]
            == if exists|i: int| 0 <= i < n && #[trigger] contents.queue[i] == id {
            None
        } else {
            contents.held[id]
        } by {
            if exists|i: int| 0 <= i < m && #[trigger] fewer.queue[i] == id {
                let i = choose|i: int| 0 <= i < m && #[trigger] fewer.queue[i] == id;
                assert(contents.queue[i + 1] == id);
            } else if id == oldest {
                assert(contents.queue[0] == id);
            } else if exists|i: int| 0 <= i < n && #[trigger] contents.queue[i] == id {
                let i = choose|i: int| 0 <= i < n && #[trigger] contents.queue[i] == id;
                assert(fewer.queue[i - 1] == id);
            }
        }
        lemma_bytes_stay(contents.held, oldest, contents.queue.subrange(n, len), contents.queue, n);
        if m > 0 {
            assert(fewer.queue.subrange(m - 1, len - 1) =~= contents.queue.subrange(n - 1, len));
            lemma_bytes_stay(
                contents.held,
                oldest,
                contents.queue.subrange(n - 1, len),
                contents.queue,
                n - 1,
            );
        }
        n
    }
}

proof fn lemma_bytes_stay(
    held: Seq<Option<CachedSqList>>,
    oldest: usize,
    part: Seq<usize>,
    queue: Seq<usize>,
    start: int,
)
    requires
        queue.no_duplicates(),
        queue.len() > 0,
        oldest == queue[0],
        1 <= start,
        start + part.len() <= queue.len(),
        part == queue.subrange(start, start + part.len()),
        oldest < held.len(),
        forall|i: int| 0 <= i < queue.len() ==> #[trigger] queue[i] < held.len(),
    ensures
        bytes_of_all(held.update(oldest as int, None), part) == bytes_of_all(held, part),
    decreases part.len(),
{
    if part.len() > 0 {
        let shorter = part.drop_last();
        assert(shorter =~= queue.subrange(start, start + shorter.len()));
        lemma_bytes_stay(held, oldest, shorter, queue, start);
        assert(part.last() == queue[start + part.len() - 1]);
    }
}

/// A list that is put into the cache is in it, behind all others, if it fits the cache and is
/// not in it already. For that the lists that were put in first leave, just as many as must;
/// the others stay as they are. Otherwise nothing changes. `n` is the number of lists that
/// leave.
pub proof fn law_oldest_lists_make_room(cache: &SqListCache, entry: CachedSqList) -> (n: int)
    requires
        cache.wf(),
        entry.list.list_id < cache.slots(),
    ensures
        ({
            let list_id = entry.list.list_id;
            let before = cache.contents();
            let after = sq_cache::after_insert(before, entry);
            let queue = cache.queue();
            let len = queue.len() as int;
            &&& bytes_of_all(cache.held(), queue) <= cache.capacity()
            &&& bytes_of(entry) > cache.capacity() || cache.held()[list_id as int] is Some ==> after
                == before
            &&& bytes_of(entry) <= cache.capacity() && cache.held()[list_id as int] is None ==> {
                &&& 0 <= n <= len
                &&& after.capacity == cache.capacity()
                &&& after.queue == queue.subrange(n, len).push(list_id)
                &&& after.held.len() == cache.slots()
                &&& after.held[list_id as int] == Some(entry)
                &&& forall|id: int|
                    0 <= id < cache.slots() && id != list_id ==> #[trigger] after.held[id]
                        == if exists|i: int| 0 <= i < n && #[trigger] queue[i] == id {
                        None
                    } else {
                        cache.held()[id]
                    }
                &&& bytes_of_all(cache.held(), queue.subrange(n, len)) + bytes_of(entry)
                    <= cache.capacity()
                &&& n > 0 ==> bytes_of_all(cache.held(), queue.subrange(n - 1, len)) + bytes_of(
                    entry,
                ) > cache.capacity()
            }
        }),
{
    cache.law_cache_is_bounded();
    lemma_bytes(cache.held(), cache.queue());
    let n = lemma_evicted(cache.contents(), entry.charged());
    let len = cache.queue().len() as int;
    assert(cache.queue().subrange(len, len) =~= Seq::empty());
    n
}

/// A list that is taken out of the cache is not in it, and all others stay in their order.
pub proof fn law_lists_are_taken_out(contents: CacheContents, list_id: usize)
    requires
        list_id < contents.held.len(),
    ensures
        ({
            let after = sq_cache::without(contents, list_id);
            &&& after.capacity == contents.capacity
            &&& after.queue == contents.queue.filter(|id: usize| id != list_id)
            &&& after.held.len() == contents.held.len()
            &&& after.held[list_id as int] is None
            &&& forall|id: int|
                0 <= id < contents.held.len() && id != list_id ==> #[trigger] after.held[id]
                    == contents.held[id]
        }),
{
    lemma_taken_out(contents.queue, list_id);
}

proof fn lemma_taken_out(queue: Seq<usize>, list_id: usize)
    ensures
        sq_cache::without_id(queue, list_id) == queue.filter(|id: usize| id != list_id),
    decreases queue.len(),
{
    reveal(Seq::filter);
    if queue.len() > 0 {
        lemma_taken_out(queue.drop_last(), list_id);
    }
}

/// A cache is made if and only if its budget is more than its slots take, and what the slots
/// leave of the budget is for lists.
pub proof fn law_caches_have_what_their_slots_leave(
    cache: &SqListCache,
    nlist: nat,
    budget: nat,
)
    requires
        cache.is_new(nlist, budget),
    ensures
        cache.capacity() + nlist * (vstd::layout::size_of::<Option<CachedSqList>>()
            + vstd::layout::size_of::<usize>()) == budget,
        cache.capacity() > 0,
        cache.slots() == nlist,
        forall|id: int| 0 <= id < nlist ==> #[trigger] cache.held()[id] is None,
{
    cache.law_cache_is_bounded();
    assert forall|id: int| 0 <= id < nlist implies #[trigger] cache.held()[id] is None by {
        assert(!cache.queue().contains(id as usize));
    }
}

} // verus!
