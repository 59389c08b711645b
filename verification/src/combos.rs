//! The combinations of a given size that can be drawn from a pool, and how
//! many there are.

use vstd::prelude::*;
use itertools::Itertools;
use crate::parts::ascending;

verus! {

/// The number of ways to draw `k` items from `n`.
pub open spec fn binomial(n: int, k: int) -> int
    decreases n,
{
    if k == 0 {
        1
    } else if n <= 0 {
        0
    } else {
        binomial(n - 1, k - 1) + binomial(n - 1, k)
    }
}

/// The ways to draw `k` items from `pool`, each in the order of the pool:
/// first those that begin with the pool's first item, then those that do not.
pub open spec fn combos(pool: Seq<u8>, k: int) -> Seq<Seq<u8>>
    decreases pool.len(),
{
    if k == 0 {
        seq![Seq::<u8>::empty()]
    } else if pool.len() == 0 {
        Seq::empty()
    } else {
        combos(pool.drop_first(), k - 1).map_values(|c: Seq<u8>| seq![pool[0]] + c) + combos(
            pool.drop_first(),
            k,
        )
    }
}

/// The most combinations that are ever listed at once.
pub open spec fn combination_limit() -> int {
    usize::MAX as int / 64
}

/// The views of the byte vectors of `items`, in order.
pub open spec fn combo_views(items: Seq<Vec<u8>>) -> Seq<Seq<u8>> {
    items.map_values(|c: Vec<u8>| c@)
}

/// `Itertools::combinations` on the items of `pool`, collected.
///
/// Believed of it: it yields every way to draw `k` items from the pool, by
/// position, each in the order of the pool, and these in the lexicographic
/// order of their positions. No more is drawn than the pool holds, since it
/// sets up as many positions as are to be drawn before it looks at the pool,
/// and the list is bounded so that collecting it does not overflow a
/// capacity.
#[verifier::external_body]
fn combinations(pool: Vec<u8>, k: usize) -> (result: Vec<Vec<u8>>)
    requires
        k <= pool@.len(),
        binomial(pool@.len() as int, k as int) <= combination_limit(),
    ensures
        combo_views(result@) == combos(pool@, k as int),
{
    pool.into_iter().combinations(k).collect()
}

/// There is no negative number of ways; there is none to draw more than
/// there is, and there are no more than twice as many with one item more in
/// the pool.
pub proof fn lemma_binomial_bounds(n: int, k: int)
    requires
        0 <= n,
    ensures
        0 <= binomial(n, k),
        k > n ==> binomial(n, k) == 0,
        0 <= k <= n ==> 1 <= binomial(n, k),
    decreases n,
{
    if k != 0 && n > 0 {
        lemma_binomial_bounds(n - 1, k - 1);
        lemma_binomial_bounds(n - 1, k);
    }
}

/// There are `binomial(n, k)` ways to draw `k` items from a pool of `n`.
pub proof fn lemma_combos_len(pool: Seq<u8>, k: int)
    ensures
        combos(pool, k).len() == binomial(pool.len() as int, k),
    decreases pool.len(),
{
    if k != 0 && pool.len() > 0 {
        lemma_combos_len(pool.drop_first(), k - 1);
        lemma_combos_len(pool.drop_first(), k);
    }
}

/// An ascending pool without its first item still ascends.
pub proof fn lemma_rest_ascends(pool: Seq<u8>)
    requires
        ascending(pool),
        pool.len() > 0,
    ensures
        ascending(pool.drop_first()),
{
    let rest = pool.drop_first();
    assert forall|a: int, b: int| 0 <= a < b < rest.len() implies rest[a] < rest[b] by {
        assert(pool[a + 1] < pool[b + 1]);
    }
}

/// Every way to draw `k` items from a pool holds `k` items of the pool, and
/// ascends where the pool ascends.
pub proof fn lemma_combo_shape(pool: Seq<u8>, k: int, j: int)
    requires
        0 <= k,
        0 <= j < combos(pool, k).len(),
    ensures
        combos(pool, k)[j].len() == k,
        forall|i: int| 0 <= i < k ==> pool.contains(#[trigger] combos(pool, k)[j][i]),
        ascending(pool) ==> ascending(combos(pool, k)[j]),
    decreases pool.len(),
{
    let c = combos(pool, k)[j];
    if k == 0 {
    } else {
        let rest = pool.drop_first();
        let with_first = combos(rest, k - 1).map_values(|c: Seq<u8>| seq![pool[0]] + c);
        assert forall|m: int| 0 <= m < rest.len() implies pool.contains(#[trigger] rest[m]) by {
            assert(pool[m + 1] == rest[m]);
        }
        if j < with_first.len() {
            let tail = combos(rest, k - 1)[j];
            lemma_combo_shape(rest, k - 1, j);
            assert(c == seq![pool[0]] + tail);
            assert forall|i: int| 0 <= i < k implies pool.contains(#[trigger] c[i]) by {
                if i == 0 {
                    assert(pool[0] == c[0]);
                } else {
                    assert(c[i] == tail[i - 1]);
                    assert(rest.contains(tail[i - 1]));
                }
            }
            if ascending(pool) {
                lemma_rest_ascends(pool);
                assert forall|a: int, b: int| 0 <= a < b < c.len() implies c[a] < c[b] by {
                    assert(c[b] == tail[b - 1]);
                    if a == 0 {
                        assert(rest.contains(tail[b - 1]));
                        let m = choose|m: int| 0 <= m < rest.len() && rest[m] == tail[b - 1];
                        assert(pool[0] < pool[m + 1]);
                    } else {
                        assert(c[a] == tail[a - 1]);
                    }
                }
            }
        } else {
            lemma_combo_shape(rest, k, j - with_first.len());
            assert(c == combos(rest, k)[j - with_first.len()]);
            assert forall|i: int| 0 <= i < k implies pool.contains(#[trigger] c[i]) by {
                assert(rest.contains(c[i]));
            }
            if ascending(pool) {
                lemma_rest_ascends(pool);
            }
        }
    }
}

/// Every ascending selection from an ascending pool is one of the ways to
/// draw as many items from it.
pub proof fn lemma_combo_found(pool: Seq<u8>, c: Seq<u8>) -> (j: int)
    requires
        ascending(pool),
        ascending(c),
        forall|i: int| 0 <= i < c.len() ==> pool.contains(#[trigger] c[i]),
    ensures
        0 <= j < combos(pool, c.len() as int).len(),
        combos(pool, c.len() as int)[j] == c,
    decreases pool.len(),
{
    let k = c.len() as int;
    if k == 0 {
        assert(c =~= Seq::<u8>::empty());
        0
    } else {
        assert(pool.contains(c[0]));
        let rest = pool.drop_first();
        let with_first = combos(rest, k - 1).map_values(|c: Seq<u8>| seq![pool[0]] + c);
        lemma_rest_ascends(pool);
        if c[0] == pool[0] {
            let tail = c.drop_first();
            assert(ascending(tail)) by {
                assert forall|a: int, b: int| 0 <= a < b < tail.len() implies tail[a] < tail[b] by {
                    assert(c[a + 1] < c[b + 1]);
                }
            }
            assert forall|i: int| 0 <= i < tail.len() implies rest.contains(#[trigger] tail[i]) by {
                assert(tail[i] == c[i + 1]);
                assert(c[0] < c[i + 1]);
                assert(pool.contains(c[i + 1]));
                let m = choose|m: int| 0 <= m < pool.len() && pool[m] == c[i + 1];
                assert(m != 0);
                assert(rest[m - 1] == pool[m]);
            }
            let j = lemma_combo_found(rest, tail);
            assert(with_first[j] == seq![pool[0]] + tail);
            assert(seq![pool[0]] + tail =~= c);
            j
        } else {
            assert forall|i: int| 0 <= i < c.len() implies rest.contains(#[trigger] c[i]) by {
                assert(pool.contains(c[i]));
                let m = choose|m: int| 0 <= m < pool.len() && pool[m] == c[i];
                let m0 = choose|m0: int| 0 <= m0 < pool.len() && pool[m0] == c[0];
                if m0 == 0 {
                } else {
                    assert(pool[0] < pool[m0]);
                }
                if i > 0 {
                    assert(c[0] < c[i]);
                }
                assert(m != 0);
                assert(rest[m - 1] == pool[m]);
            }
            let j = lemma_combo_found(rest, c);
            with_first.len() + j
        }
    }
}

/// Two to the power of `n`.
pub open spec fn two_to(n: nat) -> nat
    decreases n,
{
    if n == 0 {
        1
    } else {
        2 * two_to((n - 1) as nat)
    }
}

/// There are no more ways to draw from `n` items than two to the power of
/// `n`, which grows with `n`.
pub proof fn lemma_binomial_below_power(n: nat, k: int)
    ensures
        binomial(n as int, k) <= two_to(n),
        forall|m: nat| m <= n ==> two_to(m) <= two_to(n),
        1 <= two_to(n),
    decreases n,
{
    if n > 0 {
        lemma_binomial_below_power((n - 1) as nat, k - 1);
        lemma_binomial_below_power((n - 1) as nat, k);
        assert forall|m: nat| m <= n implies two_to(m) <= two_to(n) by {
            if m < n {
                assert(two_to(m) <= two_to((n - 1) as nat));
            }
        }
    }
}

/// The ways to draw from a pool of up to 25 items are within the limit up to
/// which combinations are listed, and on a machine with addresses of more
/// than 32 bits so are those to draw from a pool of up to 31.
pub proof fn lemma_small_pools_within_limit(n: nat, k: int)
    requires
        n <= 25 || (n <= 31 && usize::MAX > 0xffff_ffff),
    ensures
        binomial(n as int, k) <= combination_limit(),
{
    lemma_binomial_below_power(n, k);
    lemma_binomial_below_power(25, k);
    lemma_binomial_below_power(31, k);
    assert(two_to(25) == 0x200_0000) by {
        reveal_with_fuel(two_to, 26);
    }
    assert(two_to(31) == 0x8000_0000) by {
        reveal_with_fuel(two_to, 32);
    }
    if n <= 25 {
        assert(two_to(n) <= two_to(25));
    } else {
        assert(two_to(n) <= two_to(31));
    }
}

/// `x`, or one more than the limit where `x` is above the limit.
pub open spec fn capped(x: int) -> int {
    if x > combination_limit() {
        combination_limit() + 1
    } else {
        x
    }
}

/// There is one way to draw all items of a pool.
pub proof fn lemma_binomial_all(n: int)
    requires
        0 <= n,
    ensures
        binomial(n, n) == 1,
    decreases n,
{
    if n > 0 {
        lemma_binomial_all(n - 1);
        lemma_binomial_bounds(n - 1, n);
    }
}

/// The number of ways to draw `k` items from `n`, where it is within the
/// limit up to which combinations are listed.
pub fn combination_count(n: usize, k: usize) -> (count: Option<usize>)
    ensures
        match count {
            Some(c) => c == binomial(n as int, k as int) && c <= combination_limit(),
            None => binomial(n as int, k as int) > combination_limit(),
        },
{
    proof {
        lemma_binomial_bounds(n as int, k as int);
    }
    if k > n {
        return Some(0);
    }
    if k == n {
        proof {
            lemma_binomial_all(n as int);
        }
        return Some(1);
    }
    let limit: usize = usize::MAX / 64;
    let width: usize = k + 1;
    let mut row: Vec<usize> = vec![0usize; width];
    row.set(0, 1);
    let mut i: usize = 0;
    proof {
        assert forall|j: int| 0 <= j < width implies row@[j] == capped(binomial(0, j)) by {}
    }
    while i < n
        invariant
            i <= n,
            width == k + 1,
            limit == combination_limit(),
            row@.len() == width,
            forall|j: int| 0 <= j < width ==> #[trigger] row@[j] == capped(binomial(i as int, j)),
        decreases n - i,
    {
        let mut j: usize = k;
        while j > 0
            invariant
                j <= k,
                i < n,
                width == k + 1,
                limit == combination_limit(),
                row@.len() == width,
                forall|m: int| 0 <= m <= j ==> #[trigger] row@[m] == capped(binomial(i as int, m)),
                forall|m: int|
                    j < m < width ==> #[trigger] row@[m] == capped(binomial(i as int + 1, m)),
            decreases j,
        {
            proof {
                lemma_binomial_bounds(i as int, j as int);
                lemma_binomial_bounds(i as int, j as int - 1);
                assert(row@[j as int] == capped(binomial(i as int, j as int)));
                assert(row@[j as int - 1] == capped(binomial(i as int, j as int - 1)));
            }
            let sum: usize = row[j] + row[j - 1];
            let next: usize = if sum > limit {
                limit + 1
            } else {
                sum
            };
            row.set(j, next);
            j -= 1;
        }
        proof {
            assert(row@[0] == capped(binomial(i as int, 0)));
        }
        i += 1;
    }
    let last: usize = row[k];
    if last > limit {
        None
    } else {
        Some(last)
    }
}

/// The ways to draw `k` items from `pool`, each in the order of the pool, in
/// the lexicographic order of their positions; `None` where there are more of
/// them than are ever listed at once. There is no way to draw more than the
/// pool holds.
pub fn draw_combinations(pool: Vec<u8>, k: usize) -> (result: Option<Vec<Vec<u8>>>)
    ensures
        match result {
            Some(list) => combo_views(list@) == combos(pool@, k as int) && list@.len() == binomial(
                pool@.len() as int,
                k as int,
            ),
            None => binomial(pool@.len() as int, k as int) > combination_limit(),
        },
        k > pool@.len() ==> (result matches Some(list) && list@.len() == 0),
{
    if k > pool.len() {
        let none: Vec<Vec<u8>> = Vec::new();
        proof {
            lemma_combos_len(pool@, k as int);
            lemma_binomial_bounds(pool@.len() as int, k as int);
            assert(combo_views(none@) =~= combos(pool@, k as int));
        }
        return Some(none);
    }
    match combination_count(pool.len(), k) {
        Some(_) => {
            proof {
                lemma_combos_len(pool@, k as int);
            }
            Some(combinations(pool, k))
        },
        None => None,
    }
}

} // verus!
