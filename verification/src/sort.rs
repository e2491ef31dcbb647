//! Stable sorting of positions by integer keys.
use vstd::prelude::*;

verus! {

/// Whether position `a` stands before position `b` in the stable order by key.
pub open spec fn before(keys: Seq<i64>, a: int, b: int) -> bool {
    keys[a] < keys[b] || (keys[a] == keys[b] && a < b)
}

/// Whether positions stand in the stable order by key.
pub open spec fn ordered(keys: Seq<i64>, order: Seq<usize>) -> bool {
    forall|i: int, j: int|
        0 <= i < j < order.len() ==> #[trigger] before(keys, order[i] as int, order[j] as int)
}

/// Whether `order` holds the positions from `low` up to `high`.
pub open spec fn covers(order: Seq<usize>, low: int, high: int) -> bool {
    &&& order.len() == high - low
    &&& forall|i: int| 0 <= i < order.len() ==> low <= #[trigger] order[i] < high
    &&& forall|x: usize| low <= x < high ==> #[trigger] order.contains(x)
}

/// Whether `order` is the stable order of all keys. No two sequences are.
pub open spec fn is_stable_order(keys: Seq<i64>, order: Seq<usize>) -> bool {
    ordered(keys, order) && covers(order, 0, keys.len() as int)
}

/// The keys, read in the given order, never decrease.
pub proof fn law_sorted_keys(keys: Seq<i64>, order: Seq<usize>, i: int, j: int)
    requires
        is_stable_order(keys, order),
        0 <= i <= j < order.len(),
    ensures
        keys[order[i] as int] <= keys[order[j] as int],
{
    if i < j {
        assert(before(keys, order[i] as int, order[j] as int));
    }
}

/// A stable order names no position twice.
pub proof fn law_stable_order_is_injective(keys: Seq<i64>, order: Seq<usize>, i: int, j: int)
    requires
        is_stable_order(keys, order),
        0 <= i < j < order.len(),
    ensures
        order[i] != order[j],
{
    assert(before(keys, order[i] as int, order[j] as int));
}

/// There is only one stable order.
pub proof fn law_stable_order_is_unique(keys: Seq<i64>, a: Seq<usize>, b: Seq<usize>)
    requires
        is_stable_order(keys, a),
        is_stable_order(keys, b),
    ensures
        a == b,
{
    lemma_same_prefix(keys, a, b, keys.len());
    assert(a =~= a.subrange(0, keys.len() as int));
    assert(b =~= b.subrange(0, keys.len() as int));
}

/// The stable order of keys.
pub open spec fn order_of(keys: Seq<i64>) -> Seq<usize> {
    choose|order: Seq<usize>| is_stable_order(keys, order)
}

/// Keys that a `usize` can count have a stable order.
pub proof fn law_stable_order_exists(keys: Seq<i64>)
    requires
        keys.len() <= usize::MAX,
    ensures
        is_stable_order(keys, order_of(keys)),
    decreases keys.len(),
{
    if keys.len() == 0 {
        assert(is_stable_order(keys, Seq::<usize>::empty()));
    } else {
        let init = keys.drop_last();
        law_stable_order_exists(init);
        let order = order_of(init);
        let last = (keys.len() - 1) as usize;
        let at = insertion_point(init, order, keys.last(), 0);
        lemma_insertion_point(init, order, keys.last(), 0);
        let longer = order.insert(at, last);
        assert forall|i: int, j: int| 0 <= i < j < longer.len() implies #[trigger] before(
            keys,
            longer[i] as int,
            longer[j] as int,
        ) by {
            let a = if i < at {
                i
            } else {
                i - 1
            };
            let b = if j < at {
                j
            } else {
                j - 1
            };
            if i == at {
                assert(longer[j] == order[b]);
                assert(init[order[b] as int] > keys.last());
            } else if j == at {
                assert(longer[i] == order[a]);
                assert(init[order[a] as int] <= keys.last());
            } else {
                assert(longer[i] == order[a] && longer[j] == order[b]);
                assert(before(init, order[a] as int, order[b] as int));
            }
        }
        assert forall|x: usize| 0 <= x < keys.len() implies #[trigger] longer.contains(x) by {
            if x == last {
                assert(longer[at] == x);
            } else {
                assert(order.contains(x));
                let p = choose|p: int| 0 <= p < order.len() && order[p] == x;
                if p < at {
                    assert(longer[p] == x);
                } else {
                    assert(longer[p + 1] == x);
                }
            }
        }
        assert forall|i: int| 0 <= i < longer.len() implies 0 <= #[trigger] longer[i]
            < keys.len() by {
            if i < at {
                assert(longer[i] == order[i]);
            } else if i > at {
                assert(longer[i] == order[i - 1]);
            }
        }
        assert(is_stable_order(keys, longer));
    }
}

spec fn insertion_point(keys: Seq<i64>, order: Seq<usize>, key: i64, from: int) -> int
    decreases order.len() - from,
{
    if from >= order.len() || keys[order[from] as int] > key {
        from
    } else {
        insertion_point(keys, order, key, from + 1)
    }
}

proof fn lemma_insertion_point(keys: Seq<i64>, order: Seq<usize>, key: i64, from: int)
    requires
        is_stable_order(keys, order),
        0 <= from <= order.len(),
        forall|i: int| 0 <= i < from ==> keys[#[trigger] order[i] as int] <= key,
    ensures
        ({
            let at = insertion_point(keys, order, key, from);
            &&& from <= at <= order.len()
            &&& forall|i: int| 0 <= i < at ==> keys[#[trigger] order[i] as int] <= key
            &&& forall|i: int| at <= i < order.len() ==> keys[#[trigger] order[i] as int] > key
        }),
    decreases order.len() - from,
{
    if from < order.len() && keys[order[from] as int] <= key {
        lemma_insertion_point(keys, order, key, from + 1);
    } else if from < order.len() {
        assert forall|i: int| from <= i < order.len() implies keys[#[trigger] order[i] as int]
            > key by {
            law_sorted_keys(keys, order, from, i);
        }
    }
}

proof fn lemma_same_prefix(keys: Seq<i64>, a: Seq<usize>, b: Seq<usize>, n: nat)
    requires
        is_stable_order(keys, a),
        is_stable_order(keys, b),
        n <= keys.len(),
    ensures
        a.subrange(0, n as int) == b.subrange(0, n as int),
    decreases n,
{
    if n > 0 {
        let k = n - 1;
        lemma_same_prefix(keys, a, b, k as nat);
        assert forall|i: int| 0 <= i < k implies a[i] == b[i] by {
            assert(a.subrange(0, k)[i] == b.subrange(0, k)[i]);
        }
        let x = a[k];
        let y = b[k];
        assert(b.contains(x));
        assert(a.contains(y));
        let p = choose|p: int| 0 <= p < b.len() && b[p] == x;
        let q = choose|q: int| 0 <= q < a.len() && a[q] == y;
        if p < k {
            assert(a[p] == b[p]);
            law_stable_order_is_injective(keys, a, p, k);
        }
        if q < k {
            assert(a[q] == b[q]);
            law_stable_order_is_injective(keys, b, q, k);
        }
        if p > k {
            assert(before(keys, b[k] as int, b[p] as int));
        }
        if q > k {
            assert(before(keys, a[k] as int, a[q] as int));
        }
        assert(x == y);
        assert(a.subrange(0, n as int) =~= a.subrange(0, k).push(x));
        assert(b.subrange(0, n as int) =~= b.subrange(0, k).push(y));
    }
}

fn merge(keys: &[i64], left: &Vec<usize>, right: &Vec<usize>, Ghost(low): Ghost<int>, Ghost(
    middle,
): Ghost<int>, Ghost(high): Ghost<int>) -> (merged: Vec<usize>)
    requires
        0 <= low <= middle <= high <= keys@.len(),
        ordered(keys@, left@),
        ordered(keys@, right@),
        covers(left@, low, middle),
        covers(right@, middle, high),
    ensures
        ordered(keys@, merged@),
        covers(merged@, low, high),
{
    let mut merged: Vec<usize> = Vec::new();
    let mut i: usize = 0;
    let mut j: usize = 0;
    while i < left.len() || j < right.len()
        invariant
            0 <= low <= middle <= high <= keys@.len(),
            ordered(keys@, left@),
            ordered(keys@, right@),
            covers(left@, low, middle),
            covers(right@, middle, high),
            i <= left@.len(),
            j <= right@.len(),
            merged@.len() == i + j,
            ordered(keys@, merged@),
            forall|a: int| 0 <= a < merged@.len() ==> low <= #[trigger] merged@[a] < high,
            forall|a: int, b: int|
                #![trigger merged@[a], left@[b]]
                0 <= a < merged@.len() && i <= b < left@.len() ==> before(
                    keys@,
                    merged@[a] as int,
                    left@[b] as int,
                ),
            forall|a: int, b: int|
                #![trigger merged@[a], right@[b]]
                0 <= a < merged@.len() && j <= b < right@.len() ==> before(
                    keys@,
                    merged@[a] as int,
                    right@[b] as int,
                ),
            forall|a: int| 0 <= a < i ==> merged@.contains(#[trigger] left@[a]),
            forall|a: int| 0 <= a < j ==> merged@.contains(#[trigger] right@[a]),
        decreases left@.len() - i + right@.len() - j,
    {
        let from_left: bool = if i >= left.len() {
            false
        } else if j >= right.len() {
            true
        } else {
            keys[left[i]] <= keys[right[j]]
        };
        let ghost before_push = merged@;
        let next: usize = if from_left {
            left[i]
        } else {
            right[j]
        };
        merged.push(next);
        proof {
            assert forall|x: usize| before_push.contains(x) implies merged@.contains(x) by {
                let p = choose|p: int| 0 <= p < before_push.len() && before_push[p] == x;
                assert(merged@[p] == x);
            }
            assert(merged@[before_push.len() as int] == next);
            assert forall|a: int, b: int| 0 <= a < b < merged@.len() implies #[trigger] before(
                keys@,
                merged@[a] as int,
                merged@[b] as int,
            ) by {
                if b == before_push.len() {
                    if from_left {
                        assert(before(keys@, before_push[a] as int, left@[i as int] as int));
                    } else {
                        assert(before(keys@, before_push[a] as int, right@[j as int] as int));
                    }
                } else {
                    assert(before(keys@, before_push[a] as int, before_push[b] as int));
                }
            }
            if from_left {
                assert forall|b: int| i + 1 <= b < left@.len() implies before(
                    keys@,
                    next as int,
                    #[trigger] left@[b] as int,
                ) by {
                    assert(before(keys@, left@[i as int] as int, left@[b] as int));
                }
                assert forall|b: int| j <= b < right@.len() implies before(
                    keys@,
                    next as int,
                    #[trigger] right@[b] as int,
                ) by {
                    if b > j {
                        assert(before(keys@, right@[j as int] as int, right@[b] as int));
                    }
                }
            } else {
                assert forall|b: int| j + 1 <= b < right@.len() implies before(
                    keys@,
                    next as int,
                    #[trigger] right@[b] as int,
                ) by {
                    assert(before(keys@, right@[j as int] as int, right@[b] as int));
                }
                assert forall|b: int| i <= b < left@.len() implies before(
                    keys@,
                    next as int,
                    #[trigger] left@[b] as int,
                ) by {
                    if b > i {
                        assert(before(keys@, left@[i as int] as int, left@[b] as int));
                    }
                }
            }
        }
        if from_left {
            i = i + 1;
        } else {
            j = j + 1;
        }
    }
    proof {
        assert forall|x: usize| low <= x < high implies #[trigger] merged@.contains(x) by {
            if x < middle {
                assert(left@.contains(x));
                let p = choose|p: int| 0 <= p < left@.len() && left@[p] == x;
                assert(merged@.contains(left@[p]));
            } else {
                assert(right@.contains(x));
                let p = choose|p: int| 0 <= p < right@.len() && right@[p] == x;
                assert(merged@.contains(right@[p]));
            }
        }
    }
    merged
}

fn sort_range(keys: &[i64], low: usize, high: usize) -> (order: Vec<usize>)
    requires
        low <= high <= keys@.len(),
    ensures
        ordered(keys@, order@),
        covers(order@, low as int, high as int),
    decreases high - low,
{
    if high - low <= 1 {
        let mut order: Vec<usize> = Vec::new();
        if low < high {
            order.push(low);
            assert(order@[0] == low);
        }
        order
    } else {
        let middle: usize = low + (high - low) / 2;
        let left = sort_range(keys, low, middle);
        let right = sort_range(keys, middle, high);
        merge(keys, &left, &right, Ghost(low as int), Ghost(middle as int), Ghost(high as int))
    }
}

/// The positions of the keys in stable order: by key, and equal keys by position.
pub fn stable_order(keys: &[i64]) -> (order: Vec<usize>)
    ensures
        is_stable_order(keys@, order@),
{
    sort_range(keys, 0, keys.len())
}

} // verus!
