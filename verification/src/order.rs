//! The order in which items come when they are sorted by a one-byte key,
//! items with equal keys staying in the order in which they were given.

use vstd::prelude::*;

verus! {

/// The items at `places`, in the order of `places`.
pub open spec fn taken<A>(items: Seq<A>, places: Seq<int>) -> Seq<A> {
    places.map_values(|i: int| items[i])
}

/// `places` are places among `n` items, none of them twice.
pub open spec fn distinct_places(places: Seq<int>, n: int) -> bool {
    &&& forall|a: int| 0 <= a < places.len() ==> 0 <= #[trigger] places[a] < n
    &&& forall|a: int, b: int|
        0 <= a < b < places.len() ==> #[trigger] places[a] != #[trigger] places[b]
}

/// There are no more distinct places among `n` items than `n`.
pub proof fn lemma_distinct_places_len(places: Seq<int>, n: int)
    requires
        0 <= n,
        distinct_places(places, n),
    ensures
        places.len() <= n,
    decreases n,
{
    if n == 0 {
        if places.len() > 0 {
            let first = places[0];
            assert(0 <= first < n);
        }
    } else if exists|a: int| 0 <= a < places.len() && places[a] == n - 1 {
        let a = choose|a: int| 0 <= a < places.len() && places[a] == n - 1;
        let rest = places.remove(a);
        assert forall|b: int| 0 <= b < rest.len() implies 0 <= #[trigger] rest[b] < n - 1 by {
            if b < a {
                assert(rest[b] == places[b]);
            } else {
                assert(rest[b] == places[b + 1]);
            }
        }
        assert forall|b: int, c: int| 0 <= b < c < rest.len() implies #[trigger] rest[b]
            != #[trigger] rest[c] by {
            let b0 = if b < a {
                b
            } else {
                b + 1
            };
            let c0 = if c < a {
                c
            } else {
                c + 1
            };
            assert(rest[b] == places[b0] && rest[c] == places[c0]);
        }
        lemma_distinct_places_len(rest, n - 1);
    } else {
        assert forall|b: int| 0 <= b < places.len() implies 0 <= #[trigger] places[b] < n - 1 by {
            assert(places[b] != n - 1);
        }
        lemma_distinct_places_len(places, n - 1);
    }
}

/// The items of `items`, the last first.
pub fn turned<T>(items: Vec<T>) -> (back: Vec<T>)
    ensures
        back@.len() == items@.len(),
        forall|i: int| 0 <= i < back@.len() ==> #[trigger] back@[i] == items@[items@.len() - 1 - i],
{
    let ghost all = items@;
    let mut rest: Vec<T> = items;
    let mut back: Vec<T> = Vec::new();
    while rest.len() > 0
        invariant
            rest@.len() + back@.len() == all.len(),
            forall|i: int| 0 <= i < rest@.len() ==> rest@[i] == all[i],
            forall|i: int| 0 <= i < back@.len() ==> #[trigger] back@[i] == all[all.len() - 1 - i],
        decreases rest@.len(),
    {
        match rest.pop() {
            Some(item) => {
                back.push(item);
            },
            None => {},
        }
    }
    back
}

/// `order` with index `i` put behind the last index whose key is not above
/// the key of `i`.
pub open spec fn placed(order: Seq<int>, keys: Seq<u8>, i: int) -> Seq<int>
    decreases order.len(),
{
    if order.len() == 0 || keys[order.last()] <= keys[i] {
        order.push(i)
    } else {
        placed(order.drop_last(), keys, i).push(order.last())
    }
}

/// The indices below `n`, sorted by their keys, ascending; indices with equal
/// keys ascend.
pub open spec fn stable_order_upto(keys: Seq<u8>, n: int) -> Seq<int>
    decreases n,
{
    if n <= 0 {
        Seq::empty()
    } else {
        placed(stable_order_upto(keys, n - 1), keys, n - 1)
    }
}

/// The indices of `keys`, sorted by their keys, ascending; indices with equal
/// keys ascend.
pub open spec fn stable_order(keys: Seq<u8>) -> Seq<int> {
    stable_order_upto(keys, keys.len() as int)
}

/// Index `a` comes before index `b` when sorted by key: its key is smaller,
/// or the keys are equal and `a` is the smaller index.
pub open spec fn comes_before(keys: Seq<u8>, a: int, b: int) -> bool {
    keys[a] < keys[b] || (keys[a] == keys[b] && a < b)
}

/// `order` holds indices below `n`, each before those that come after it when
/// sorted by key.
pub open spec fn sorted_indices(keys: Seq<u8>, order: Seq<int>, n: int) -> bool {
    &&& forall|a: int| 0 <= a < order.len() ==> 0 <= #[trigger] order[a] < n
    &&& forall|a: int, b: int|
        0 <= a < b < order.len() ==> comes_before(keys, #[trigger] order[a], #[trigger] order[b])
}

/// Placing index `n` into a sorted order of indices below `n` gives a sorted
/// order one longer, which holds `n` and what the order held.
pub proof fn lemma_placed(order: Seq<int>, keys: Seq<u8>, n: int)
    requires
        sorted_indices(keys, order, n),
        0 <= n < keys.len(),
    ensures
        sorted_indices(keys, placed(order, keys, n), n + 1),
        placed(order, keys, n).len() == order.len() + 1,
        placed(order, keys, n).contains(n),
        forall|i: int| #[trigger] order.contains(i) ==> placed(order, keys, n).contains(i),
        forall|i: int| #[trigger]
            placed(order, keys, n).contains(i) ==> i == n || order.contains(i),
    decreases order.len(),
{
    let out = placed(order, keys, n);
    if order.len() == 0 || keys[order.last()] <= keys[n] {
        assert(out[order.len() as int] == n);
        assert forall|i: int| order.contains(i) implies out.contains(i) by {
            let a = choose|a: int| 0 <= a < order.len() && order[a] == i;
            assert(out[a] == i);
        }
        assert forall|a: int, b: int| 0 <= a < b < out.len() implies comes_before(
            keys,
            #[trigger] out[a],
            #[trigger] out[b],
        ) by {
            if b == order.len() {
                assert(out[a] == order[a]);
                if a < order.len() - 1 {
                    assert(comes_before(keys, order[a], order[order.len() - 1]));
                }
            } else {
                assert(out[a] == order[a] && out[b] == order[b]);
            }
        }
    } else {
        let init = order.drop_last();
        let last = order.last();
        assert(sorted_indices(keys, init, n)) by {
            assert forall|a: int| 0 <= a < init.len() implies 0 <= #[trigger] init[a] < n by {
                assert(init[a] == order[a]);
            }
            assert forall|a: int, b: int| 0 <= a < b < init.len() implies comes_before(
                keys,
                #[trigger] init[a],
                #[trigger] init[b],
            ) by {
                assert(init[a] == order[a] && init[b] == order[b]);
            }
        }
        lemma_placed(init, keys, n);
        let inner = placed(init, keys, n);
        assert(out == inner.push(last));
        assert(out[inner.len() as int] == last);
        assert(0 <= order[order.len() - 1] < n);
        assert forall|i: int| order.contains(i) implies out.contains(i) by {
            let a = choose|a: int| 0 <= a < order.len() && order[a] == i;
            if a < init.len() {
                assert(init[a] == i);
                assert(init.contains(i));
                let c = choose|c: int| 0 <= c < inner.len() && inner[c] == i;
                assert(out[c] == i);
            }
        }
        assert(out.contains(n)) by {
            let c = choose|c: int| 0 <= c < inner.len() && inner[c] == n;
            assert(out[c] == n);
        }
        assert forall|i: int| out.contains(i) implies i == n || order.contains(i) by {
            let c = choose|c: int| 0 <= c < out.len() && out[c] == i;
            if c < inner.len() {
                assert(inner[c] == i);
                assert(inner.contains(i));
                if i != n {
                    let a = choose|a: int| 0 <= a < init.len() && init[a] == i;
                    assert(order[a] == i);
                }
            } else {
                assert(order[order.len() - 1] == i);
            }
        }
        assert forall|a: int| 0 <= a < out.len() implies 0 <= #[trigger] out[a] < n + 1 by {
            if a < inner.len() {
                assert(out[a] == inner[a]);
            }
        }
        assert forall|a: int, b: int| 0 <= a < b < out.len() implies comes_before(
            keys,
            #[trigger] out[a],
            #[trigger] out[b],
        ) by {
            if b == inner.len() {
                assert(out[a] == inner[a]);
                assert(inner.contains(inner[a]));
                if inner[a] != n {
                    let c = choose|c: int| 0 <= c < init.len() && init[c] == inner[a];
                    assert(order[c] == inner[a]);
                    assert(comes_before(keys, order[c], order[order.len() - 1]));
                }
            } else {
                assert(out[a] == inner[a] && out[b] == inner[b]);
            }
        }
    }
}

/// The stable order of the first `n` keys holds each index below `n` once,
/// each before those that come after it when sorted by key.
pub proof fn lemma_stable_order_upto(keys: Seq<u8>, n: int)
    requires
        0 <= n <= keys.len(),
    ensures
        sorted_indices(keys, stable_order_upto(keys, n), n),
        stable_order_upto(keys, n).len() == n,
        forall|i: int| 0 <= i < n ==> #[trigger] stable_order_upto(keys, n).contains(i),
    decreases n,
{
    if n > 0 {
        let before = stable_order_upto(keys, n - 1);
        lemma_stable_order_upto(keys, n - 1);
        lemma_placed(before, keys, n - 1);
        assert forall|i: int| 0 <= i < n implies #[trigger] stable_order_upto(keys, n).contains(
            i,
        ) by {
            if i < n - 1 {
                assert(before.contains(i));
            }
        }
    }
}

/// The indices in `order`, as integers.
pub open spec fn as_ints(order: Seq<usize>) -> Seq<int> {
    order.map_values(|i: usize| i as int)
}

/// The indices of `keys` in the order in which their keys ascend; indices with
/// equal keys ascend.
pub fn sort_indices(keys: &Vec<u8>) -> (order: Vec<usize>)
    ensures
        as_ints(order@) == stable_order(keys@),
        order@.len() == keys@.len(),
        forall|a: int| 0 <= a < order@.len() ==> #[trigger] order@[a] < keys@.len(),
{
    let mut order: Vec<usize> = Vec::new();
    let mut i: usize = 0;
    assert(as_ints(order@) =~= stable_order_upto(keys@, 0));
    while i < keys.len()
        invariant
            i <= keys.len(),
            order@.len() == i,
            as_ints(order@) == stable_order_upto(keys@, i as int),
            forall|a: int| 0 <= a < order@.len() ==> #[trigger] order@[a] < i,
        decreases keys.len() - i,
    {
        let ghost before = as_ints(order@);
        let mut j: usize = order.len();
        assert(before.take(j as int) =~= before);
        assert(before.skip(j as int) =~= Seq::<int>::empty());
        while j > 0 && keys[order[j - 1]] > keys[i]
            invariant
                j <= order@.len(),
                i < keys.len(),
                before == as_ints(order@),
                forall|a: int| 0 <= a < order@.len() ==> #[trigger] order@[a] < i,
                placed(before, keys@, i as int) == placed(before.take(j as int), keys@, i as int)
                    + before.skip(j as int),
            decreases j,
        {
            proof {
                let head = before.take(j as int);
                assert(head.last() == order@[j - 1] as int);
                assert(head.drop_last() =~= before.take(j - 1));
                assert(placed(head, keys@, i as int) == placed(
                    before.take(j - 1),
                    keys@,
                    i as int,
                ).push(head.last()));
                assert(placed(before.take(j - 1), keys@, i as int).push(head.last())
                    + before.skip(j as int) =~= placed(before.take(j - 1), keys@, i as int)
                    + before.skip(j - 1));
            }
            j -= 1;
        }
        proof {
            let head = before.take(j as int);
            if j > 0 {
                assert(head.last() == order@[j - 1] as int);
            }
            assert(placed(head, keys@, i as int) == head.push(i as int));
        }
        order.insert(j, i);
        proof {
            assert(as_ints(order@) =~= before.take(j as int).push(i as int) + before.skip(
                j as int,
            ));
            assert forall|a: int| 0 <= a < order@.len() implies #[trigger] order@[a] < i + 1 by {
                if a < j {
                    assert(order@[a] as int == before[a]);
                } else if a > j {
                    assert(order@[a] as int == before[a - 1]);
                }
            }
        }
        i += 1;
    }
    order
}

} // verus!
