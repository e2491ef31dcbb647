//! Sequences of rows of equal length.
use vstd::prelude::*;

verus! {

/// The values of one of several rows of `k` values.
pub open spec fn row<T>(values: Seq<T>, at: int, k: nat) -> Seq<T> {
    values.subrange(at * k, at * k + k)
}

pub proof fn lemma_row_fits(at: int, n: int, k: int)
    requires
        0 <= at < n,
        0 <= k,
    ensures
        0 <= at * k,
        at * k + k <= n * k,
        (at + 1) * k == at * k + k,
{
    assert(0 <= at * k && at * k + k <= n * k && (at + 1) * k == at * k + k) by (nonlinear_arith)
        requires
            0 <= at < n,
            0 <= k,
    ;
}

/// The rows at several places, one behind the other.
pub open spec fn gathered<T>(base: Seq<T>, places: Seq<usize>, k: nat, n: nat) -> Seq<T>
    decreases n,
{
    if n == 0 {
        Seq::empty()
    } else {
        gathered(base, places, k, (n - 1) as nat) + row(base, places[n - 1] as int, k)
    }
}

/// Values with another row written over one of their rows.
pub open spec fn overwritten<T>(base: Seq<T>, at: int, values: Seq<T>, k: nat) -> Seq<T> {
    base.subrange(0, at * k) + values + base.subrange(at * k + k, base.len() as int)
}

/// Values with the first `n` of several rows written to their places.
pub open spec fn scattered<T>(
    base: Seq<T>,
    places: Seq<usize>,
    values: Seq<T>,
    k: nat,
    n: nat,
) -> Seq<T>
    decreases n,
{
    if n == 0 {
        base
    } else {
        overwritten(
            scattered(base, places, values, k, (n - 1) as nat),
            places[n - 1] as int,
            row(values, n - 1, k),
            k,
        )
    }
}

/// Whether places are places of rows.
pub open spec fn in_range(places: Seq<usize>, n: nat) -> bool {
    forall|i: int| 0 <= i < places.len() ==> #[trigger] places[i] < n
}

/// Copies the rows at several places, one behind the other.
pub fn gather_rows<T: Copy>(base: &[T], places: &[usize], count: usize, k: usize) -> (out: Vec<T>)
    requires
        base.len() == count * k,
        in_range(places@, count as nat),
    ensures
        out@ == gathered(base@, places@, k as nat, places@.len()),
{
    let mut out: Vec<T> = Vec::new();
    let mut i: usize = 0;
    while i < places.len()
        invariant
            i <= places.len(),
            base.len() == count * k,
            in_range(places@, count as nat),
            out@ == gathered(base@, places@, k as nat, i as nat),
        decreases places.len() - i,
    {
        let place: usize = places[i];
        proof {
            lemma_row_fits(place as int, count as int, k as int);
        }
        assert(base.len() == base@.len());
        let start: usize = place * k;
        let ghost before = out@;
        let mut j: usize = 0;
        assert(base@.subrange(start as int, start as int) =~= Seq::empty());
        assert(out@ =~= before + base@.subrange(start as int, start as int));
        while j < k
            invariant
                j <= k,
                start + k <= base.len(),
                out@ == before + base@.subrange(start as int, start + j),
            decreases k - j,
        {
            out.push(base[start + j]);
            assert(base@.subrange(start as int, start + j + 1) =~= base@.subrange(
                start as int,
                start + j,
            ).push(base@[start + j]));
            assert(out@ =~= before + base@.subrange(start as int, start + j + 1));
            j = j + 1;
        }
        i = i + 1;
    }
    out
}

pub proof fn lemma_scattered_len<T>(
    base: Seq<T>,
    places: Seq<usize>,
    values: Seq<T>,
    count: nat,
    k: nat,
    n: nat,
)
    requires
        base.len() == count * k,
        in_range(places, count),
        n <= places.len(),
        values.len() == places.len() * k,
    ensures
        scattered(base, places, values, k, n).len() == base.len(),
    decreases n,
{
    if n > 0 {
        lemma_scattered_len(base, places, values, count, k, (n - 1) as nat);
        lemma_row_fits(n - 1, places.len() as int, k as int);
        lemma_row_fits(places[n - 1] as int, count as int, k as int);
    }
}

/// Writes rows to their places.
pub fn scatter_rows<T: Copy>(
    base: &mut Vec<T>,
    places: &[usize],
    values: &[T],
    count: usize,
    k: usize,
)
    requires
        old(base).len() == count * k,
        in_range(places@, count as nat),
        values.len() == places.len() * k,
    ensures
        final(base)@ == scattered(old(base)@, places@, values@, k as nat, places@.len()),
        final(base).len() == old(base).len(),
{
    let ghost whole = base@;
    let mut i: usize = 0;
    while i < places.len()
        invariant
            i <= places.len(),
            whole.len() == count * k,
            base.len() == count * k,
            in_range(places@, count as nat),
            values.len() == places.len() * k,
            base@ == scattered(whole, places@, values@, k as nat, i as nat),
        decreases places.len() - i,
    {
        let place: usize = places[i];
        proof {
            lemma_row_fits(place as int, count as int, k as int);
            lemma_row_fits(i as int, places@.len() as int, k as int);
        }
        assert(base.len() == base@.len());
        assert(values.len() == values@.len());
        let start: usize = place * k;
        let from: usize = i * k;
        let ghost before = base@;
        let mut j: usize = 0;
        assert(base@ =~= before.subrange(0, start as int) + values@.subrange(
            from as int,
            from as int,
        ) + before.subrange(start as int, before.len() as int));
        while j < k
            invariant
                j <= k,
                start + k <= before.len(),
                from + k <= values.len(),
                base.len() == before.len(),
                base@ == before.subrange(0, start as int) + values@.subrange(
                    from as int,
                    from + j,
                ) + before.subrange(start + j, before.len() as int),
            decreases k - j,
        {
            base.set(start + j, values[from + j]);
            assert(base@ =~= before.subrange(0, start as int) + values@.subrange(
                from as int,
                from + j + 1,
            ) + before.subrange(start + j + 1, before.len() as int));
            j = j + 1;
        }
        assert(base@ == overwritten(before, place as int, row(values@, i as int, k as nat), k as nat));
        i = i + 1;
    }
}

/// Whether numbers increase strictly.
pub open spec fn increasing(values: Seq<usize>) -> bool {
    forall|i: int, j: int| 0 <= i < j < values.len() ==> #[trigger] values[i] < #[trigger] values[j]
}

pub proof fn lemma_increasing_len(values: Seq<usize>, n: nat)
    requires
        in_range(values, n),
        increasing(values),
    ensures
        values.len() <= n,
    decreases values.len(),
{
    if values.len() > 0 {
        let rest = values.drop_last();
        let last = values.last() as nat;
        assert forall|i: int| 0 <= i < rest.len() implies #[trigger] rest[i] < last by {
            assert(rest[i] == values[i]);
            assert(values[i] < values[values.len() - 1]);
        }
        assert(increasing(rest)) by {
            assert forall|i: int, j: int| 0 <= i < j < rest.len() implies #[trigger] rest[i]
                < #[trigger] rest[j] by {
                assert(values[i] < values[j]);
            }
        }
        lemma_increasing_len(rest, last);
        assert(values[values.len() - 1] < n);
    }
}

pub proof fn lemma_scattered_row<T>(
    base: Seq<T>,
    places: Seq<usize>,
    values: Seq<T>,
    count: nat,
    k: nat,
    n: nat,
    at: int,
)
    requires
        base.len() == count * k,
        in_range(places, count),
        increasing(places),
        n <= places.len(),
        values.len() == places.len() * k,
        0 <= at < count,
    ensures
        forall|i: int|
            0 <= i < n && #[trigger] places[i] == at ==> row(
                scattered(base, places, values, k, n),
                at,
                k,
            ) == row(values, i, k),
        (forall|i: int| 0 <= i < n ==> #[trigger] places[i] != at) ==> row(
            scattered(base, places, values, k, n),
            at,
            k,
        ) == row(base, at, k),
    decreases n,
{
    if n > 0 {
        let before = scattered(base, places, values, k, (n - 1) as nat);
        let after = scattered(base, places, values, k, n);
        let place = places[n - 1] as int;
        lemma_scattered_row(base, places, values, count, k, (n - 1) as nat, at);
        lemma_scattered_len(base, places, values, count, k, (n - 1) as nat);
        lemma_row_fits(n - 1, places.len() as int, k as int);
        lemma_row_fits(place, count as int, k as int);
        lemma_row_fits(at, count as int, k as int);
        lemma_overwritten_row(before, place, row(values, n - 1, k), k, at);
        if place == at {
            assert forall|i: int| 0 <= i < n && #[trigger] places[i] == at implies row(
                after,
                at,
                k,
            ) == row(values, i, k) by {
                if i < n - 1 {
                    assert(places[i] < places[n - 1]);
                }
            }
        }
    }
}

pub proof fn lemma_overwritten_row<T>(
    base: Seq<T>,
    place: int,
    values: Seq<T>,
    k: nat,
    at: int,
)
    requires
        0 <= place,
        0 <= at,
        0 <= place * k,
        0 <= at * k,
        place * k + k <= base.len(),
        at * k + k <= base.len(),
        values.len() == k,
    ensures
        overwritten(base, place, values, k).len() == base.len(),
        row(overwritten(base, place, values, k), at, k) == (if at == place {
            values
        } else {
            row(base, at, k)
        }),
{
    let after = overwritten(base, place, values, k);
    if at == place {
        assert(row(after, at, k) =~= values);
    } else {
        assert(at * k + k <= place * k || place * k + k <= at * k) by (nonlinear_arith)
            requires
                at < place || place < at,
                k >= 0,
        ;
        assert(row(after, at, k) =~= row(base, at, k));
    }
}

/// Copies values.
pub fn copy_of<T: Copy>(values: &[T]) -> (copy: Vec<T>)
    ensures
        copy@ == values@,
{
    let mut copy: Vec<T> = Vec::new();
    let mut i: usize = 0;
    while i < values.len()
        invariant
            i <= values.len(),
            copy@ == values@.subrange(0, i as int),
        decreases values.len() - i,
    {
        copy.push(values[i]);
        assert(copy@ =~= values@.subrange(0, i + 1));
        i = i + 1;
    }
    assert(copy@ =~= values@);
    copy
}

} // verus!
