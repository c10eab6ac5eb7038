//! Stable ordering of positions by an integer key.
//!
//! Sorting is expressed on positions: the order of a key sequence lists the
//! positions `0..n` by ascending key, positions of equal key in ascending
//! position. That sequence is unique, so contracts can name it.

use vstd::prelude::*;

verus! {

/// Position `a` comes before position `b`: smaller key first, and among
/// equal keys the earlier position.
pub open spec fn precedes(keys: Seq<u64>, a: int, b: int) -> bool {
    keys[a] < keys[b] || (keys[a] == keys[b] && a < b)
}

/// `order` lists each of the first `n` positions of `keys` exactly once,
/// each before all that it precedes.
pub open spec fn orders_prefix(order: Seq<int>, keys: Seq<u64>, n: int) -> bool {
    &&& order.len() == n
    &&& forall|p: int| 0 <= p < order.len() ==> 0 <= #[trigger] order[p] < n
    &&& forall|i: int| 0 <= i < n ==> #[trigger] order.contains(i)
    &&& forall|p: int, q: int|
        0 <= p < q < order.len() ==> precedes(keys, #[trigger] order[p], #[trigger] order[q])
}

/// `order` is the stable ascending order of `keys`.
pub open spec fn is_stable_order(order: Seq<int>, keys: Seq<u64>) -> bool {
    orders_prefix(order, keys, keys.len() as int)
}

/// The stable ascending order of `keys`.
pub open spec fn stable_order(keys: Seq<u64>) -> Seq<int> {
    choose|order: Seq<int>| is_stable_order(order, keys)
}

/// The items of `items` in the order that `order` gives.
pub open spec fn arrange<T>(items: Seq<T>, order: Seq<int>) -> Seq<T> {
    Seq::new(order.len(), |i: int| items[order[i]])
}

/// Positions of a vector as mathematical integers.
pub open spec fn positions(order: Seq<usize>) -> Seq<int> {
    Seq::new(order.len(), |i: int| order[i] as int)
}

/// A key sequence has exactly one stable order.
pub proof fn lemma_stable_order_unique(a: Seq<int>, b: Seq<int>, keys: Seq<u64>)
    requires
        is_stable_order(a, keys),
        is_stable_order(b, keys),
    ensures
        a == b,
{
    let n = keys.len() as int;
    assert forall|k: int| 0 <= k < n implies a[k] == b[k] by {
        lemma_same_prefix(a, b, keys, k);
    }
    assert(a =~= b);
}

proof fn lemma_same_prefix(a: Seq<int>, b: Seq<int>, keys: Seq<u64>, k: int)
    requires
        is_stable_order(a, keys),
        is_stable_order(b, keys),
        0 <= k < keys.len(),
    ensures
        a[k] == b[k],
    decreases k,
{
    assert forall|j: int| 0 <= j < k implies a[j] == b[j] by {
        lemma_same_prefix(a, b, keys, j);
    }
    lemma_next_not_later(a, b, keys, k);
    lemma_next_not_later(b, a, keys, k);
}

/// With equal prefixes, what `a` has at `k` is what `b` has there, or comes
/// after it.
proof fn lemma_next_not_later(a: Seq<int>, b: Seq<int>, keys: Seq<u64>, k: int)
    requires
        is_stable_order(a, keys),
        is_stable_order(b, keys),
        0 <= k < keys.len(),
        forall|j: int| 0 <= j < k ==> a[j] == b[j],
    ensures
        a[k] == b[k] || precedes(keys, b[k], a[k]),
{
    let x = a[k];
    assert(b.contains(x));
    let m = choose|m: int| 0 <= m < b.len() && b[m] == x;
    if m < k {
        assert(a[m] == x);
        assert(precedes(keys, a[m], a[k]));
    } else if m > k {
        assert(precedes(keys, b[k], b[m]));
    }
}

/// Every key sequence has a stable order.
pub proof fn lemma_stable_order_exists(keys: Seq<u64>)
    ensures
        is_stable_order(stable_order(keys), keys),
{
    let n = keys.len() as int;
    lemma_prefix_order_exists(keys, n);
    let order = choose|order: Seq<int>| orders_prefix(order, keys, n);
    assert(is_stable_order(order, keys));
}

/// The stable order of `keys` is the only sequence that orders them.
pub proof fn lemma_stable_order_is(order: Seq<int>, keys: Seq<u64>)
    requires
        is_stable_order(order, keys),
    ensures
        order == stable_order(keys),
{
    lemma_stable_order_unique(order, stable_order(keys), keys);
}

/// Arranging items by the stable order of their keys keeps the items: as
/// many as before, and each of them among the given ones and among the
/// arranged ones.
pub proof fn lemma_arrange_stable_order_members<T>(items: Seq<T>, keys: Seq<u64>)
    requires
        items.len() == keys.len(),
    ensures
        is_stable_order(stable_order(keys), keys),
        arrange(items, stable_order(keys)).len() == items.len(),
        forall|i: int|
            0 <= i < items.len() ==> items.contains(
                #[trigger] arrange(items, stable_order(keys))[i],
            ),
        forall|i: int|
            0 <= i < items.len() ==> arrange(items, stable_order(keys)).contains(#[trigger] items[i]),
{
    lemma_stable_order_exists(keys);
    let order = stable_order(keys);
    let arranged = arrange(items, order);
    assert forall|i: int| 0 <= i < items.len() implies arranged.contains(#[trigger] items[i]) by {
        assert(order.contains(i));
        let p = choose|p: int| 0 <= p < order.len() && order[p] == i;
        assert(arranged[p] == items[i]);
    }
}

proof fn lemma_prefix_order_exists(keys: Seq<u64>, n: int)
    requires
        0 <= n <= keys.len(),
    ensures
        exists|order: Seq<int>| orders_prefix(order, keys, n),
    decreases n,
{
    if n == 0 {
        assert(orders_prefix(Seq::<int>::empty(), keys, 0));
    } else {
        let m = n - 1;
        lemma_prefix_order_exists(keys, m);
        let before = choose|order: Seq<int>| orders_prefix(order, keys, m);
        let p = insertion_point(before, keys, m, 0);
        lemma_insertion_point(before, keys, m, 0);
        lemma_insert_orders(before, keys, m, p);
        assert(orders_prefix(before.insert(p, m), keys, n));
    }
}

/// The first position at or after `from` whose key is larger than that of `k`.
spec fn insertion_point(order: Seq<int>, keys: Seq<u64>, k: int, from: int) -> int
    decreases order.len() - from,
{
    if 0 <= from < order.len() && keys[order[from]] <= keys[k] {
        insertion_point(order, keys, k, from + 1)
    } else {
        from
    }
}

proof fn lemma_insertion_point(order: Seq<int>, keys: Seq<u64>, k: int, from: int)
    requires
        0 <= from <= order.len(),
    ensures
        from <= insertion_point(order, keys, k, from) <= order.len(),
        forall|q: int|
            from <= q < insertion_point(order, keys, k, from) ==> keys[#[trigger] order[q]]
                <= keys[k],
        insertion_point(order, keys, k, from) < order.len() ==> keys[order[insertion_point(
            order,
            keys,
            k,
            from,
        )]] > keys[k],
    decreases order.len() - from,
{
    if from < order.len() && keys[order[from]] <= keys[k] {
        lemma_insertion_point(order, keys, k, from + 1);
    }
}

/// Inserting position `k` behind the positions of no larger key, into an
/// order of the positions before `k`, orders the positions up to `k`.
proof fn lemma_insert_orders(before: Seq<int>, keys: Seq<u64>, k: int, p: int)
    requires
        0 <= k < keys.len(),
        orders_prefix(before, keys, k),
        0 <= p <= before.len(),
        forall|q: int| 0 <= q < p ==> keys[#[trigger] before[q]] <= keys[k],
        p < before.len() ==> keys[before[p]] > keys[k],
    ensures
        orders_prefix(before.insert(p, k), keys, k + 1),
{
    let after = before.insert(p, k);
    assert forall|i: int| 0 <= i < k + 1 implies #[trigger] after.contains(i) by {
        if i == k {
            assert(after[p] == k);
        } else {
            assert(before.contains(i));
            let m = choose|m: int| 0 <= m < before.len() && before[m] == i;
            if m < p {
                assert(after[m] == i);
            } else {
                assert(after[m + 1] == i);
            }
        }
    }
    assert forall|a: int, b: int| 0 <= a < b < after.len() implies precedes(
        keys,
        #[trigger] after[a],
        #[trigger] after[b],
    ) by {
        if b < p {
            assert(after[a] == before[a] && after[b] == before[b]);
        } else if b == p {
            assert(after[a] == before[a]);
        } else if a < p {
            assert(after[a] == before[a] && after[b] == before[b - 1]);
        } else if a == p {
            assert(after[b] == before[b - 1]);
            if b - 1 > p {
                assert(precedes(keys, before[p], before[b - 1]));
            }
        } else {
            assert(after[a] == before[a - 1] && after[b] == before[b - 1]);
        }
    }
}

/// Lists the positions of `keys` by ascending key, equal keys in their
/// given order.
pub fn sort_positions(keys: &Vec<u64>) -> (order: Vec<usize>)
    ensures
        positions(order@) == stable_order(keys@),
        is_stable_order(positions(order@), keys@),
        order.len() == keys.len(),
        forall|p: int| 0 <= p < order.len() ==> #[trigger] order[p] < keys.len(),
{
    let n = keys.len();
    let mut order: Vec<usize> = Vec::new();
    let mut k: usize = 0;
    while k < n
        invariant
            n == keys.len(),
            k <= n,
            orders_prefix(positions(order@), keys@, k as int),
            forall|q: int| 0 <= q < order.len() ==> #[trigger] order[q] < k,
        decreases n - k,
    {
        let mut p: usize = 0;
        while p < order.len() && keys[order[p]] <= keys[k]
            invariant
                n == keys.len(),
                k < n,
                p <= order.len(),
                orders_prefix(positions(order@), keys@, k as int),
                forall|q: int| 0 <= q < order.len() ==> #[trigger] order[q] < k,
                forall|q: int| 0 <= q < p ==> keys[#[trigger] positions(order@)[q]] <= keys[k as int],
            decreases order.len() - p,
        {
            assert(positions(order@)[p as int] == order[p as int]);
            p += 1;
        }
        proof {
            if p < order.len() {
                assert(positions(order@)[p as int] == order[p as int]);
            }
            lemma_insert_orders(positions(order@), keys@, k as int, p as int);
            assert(positions(order@.insert(p as int, k)) =~= positions(order@).insert(
                p as int,
                k as int,
            ));
        }
        order.insert(p, k);
        k += 1;
        assert forall|q: int| 0 <= q < order.len() implies #[trigger] order[q] < k by {
            assert(positions(order@)[q] == order[q]);
        }
    }
    proof {
        lemma_stable_order_is(positions(order@), keys@);
        assert forall|p: int| 0 <= p < order.len() implies #[trigger] order[p] < keys.len() by {
            assert(positions(order@)[p] == order[p]);
        }
    }
    order
}
} // verus!
