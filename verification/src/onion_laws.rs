//! What holds of the onion round the primary key: all canaries, in any
//! order, unwrap it, and fewer than all do not.

use vstd::prelude::*;
use crate::aead::opened;
use crate::aead::KEY_LEN;
use crate::aead::TAG_LEN;
use crate::canary_onion::canaries_of;
use crate::canary_onion::layer_rank;
use crate::canary_onion::layers_open;
use crate::canary_onion::onion;
use crate::canary_onion::outermost_first;
use crate::canary_onion::peeled;
use crate::canary_onion::unwrapped;
use crate::canary_onion::wrapped;
use crate::errors::crypto_error::CryptoError;
use crate::models::canary::CanaryView;
use crate::models::key::KeyView;
use crate::order::comes_before;
use crate::order::distinct_places;
use crate::order::lemma_stable_order_upto;
use crate::order::stable_order;
use crate::order::taken;

verus! {

/// A wrapped key that is not one tag longer than a key for each canary given
/// is not unwrapped: so it is where a canary of a wrapped key is missing.
pub proof fn lemma_canary_necessity(wrapped_key: Seq<u8>, layers: int, given: Seq<CanaryView>)
    requires
        wrapped_key.len() == KEY_LEN + TAG_LEN * layers,
        given.len() != layers,
    ensures
        unwrapped(wrapped_key, given) == Err::<Seq<u8>, CryptoError>(CryptoError::CanaryMismatch),
{
}

/// As many ascending numbers as there are from `low` up to a bound are those
/// numbers.
proof fn lemma_ascending_dense(s: Seq<int>, low: int)
    requires
        forall|i: int| 0 <= i < s.len() ==> low <= #[trigger] s[i] < low + s.len(),
        forall|i: int, j: int| 0 <= i < j < s.len() ==> #[trigger] s[i] < #[trigger] s[j],
    ensures
        forall|i: int| 0 <= i < s.len() ==> #[trigger] s[i] == low + i,
    decreases s.len(),
{
    if s.len() > 0 {
        let init = s.drop_last();
        let top = s[s.len() - 1];
        assert forall|i: int| 0 <= i < init.len() implies low <= #[trigger] init[i] < low
            + init.len() by {
            assert(init[i] == s[i]);
            assert(s[i] < s[s.len() - 1]);
        }
        assert forall|i: int, j: int| 0 <= i < j < init.len() implies #[trigger] init[i]
            < #[trigger] init[j] by {
            assert(init[i] == s[i] && init[j] == s[j]);
        }
        lemma_ascending_dense(init, low);
        assert forall|i: int| 0 <= i < s.len() implies #[trigger] s[i] == low + i by {
            if i < init.len() {
                assert(init[i] == s[i]);
            } else if s.len() >= 2 {
                assert(init[s.len() - 2] == s[s.len() - 2]);
                assert(s[s.len() - 2] < s[s.len() - 1]);
            }
        }
    }
}

/// Opening the outer `m` layers of an onion whose layers open leaves the
/// onion inside them; opening all leaves what was wrapped.
proof fn lemma_peel(primary: Seq<u8>, keys: Seq<KeyView>, sorted: Seq<CanaryView>, m: int)
    requires
        layers_open(primary, keys),
        sorted.len() == keys.len(),
        0 <= m <= keys.len(),
        forall|k: int|
            0 <= k < sorted.len() ==> (#[trigger] sorted[k]).key == keys[keys.len() - 1 - k],
    ensures
        peeled(onion(primary, keys, keys.len() - m), sorted.skip(m)) == Some(primary),
    decreases keys.len() - m,
{
    let count = keys.len() as int;
    let left = sorted.skip(m);
    if m == count {
        assert(keys.take(0) =~= Seq::<KeyView>::empty());
        assert(wrapped(primary, keys.take(0)) == Some(primary));
    } else {
        let l = count - 1 - m;
        assert(left[0] == sorted[m]);
        assert(left.drop_first() =~= sorted.skip(m + 1));
        assert(opened(keys[l], onion(primary, keys, l + 1)) == Some(onion(primary, keys, l)));
        lemma_peel(primary, keys, sorted, m + 1);
    }
}

/// All canaries of an onion whose layers open, in any order, unwrap the key
/// that was wrapped.
pub proof fn lemma_unwrap_all(
    primary: Seq<u8>,
    keys: Seq<KeyView>,
    wrapped_key: Seq<u8>,
    picked: Seq<int>,
)
    requires
        keys.len() <= u8::MAX,
        primary.len() == KEY_LEN,
        wrapped(primary, keys) == Some(wrapped_key),
        wrapped_key.len() == KEY_LEN + TAG_LEN * keys.len(),
        layers_open(primary, keys),
        distinct_places(picked, keys.len() as int),
        picked.len() == keys.len(),
    ensures
        unwrapped(wrapped_key, taken(canaries_of(keys), picked)) == Ok::<Seq<u8>, CryptoError>(
            primary,
        ),
{
    let count = keys.len() as int;
    let all = canaries_of(keys);
    let given = taken(all, picked);
    let ranks = given.map_values(|c: CanaryView| layer_rank(c));
    let order = stable_order(ranks);
    let sorted = outermost_first(given);
    lemma_stable_order_upto(ranks, count);
    assert forall|i: int| 0 <= i < count implies (#[trigger] given[i]) == all[picked[i]]
        && given[i].layer == picked[i] && ranks[i] == 255 - picked[i] by {}
    let low = 255 - (count - 1);
    let along = Seq::new(count as nat, |m: int| ranks[order[m]] as int);
    assert forall|i: int, j: int| 0 <= i < j < along.len() implies #[trigger] along[i]
        < #[trigger] along[j] by {
        assert(comes_before(ranks, order[i], order[j]));
        if order[i] < order[j] {
            assert(picked[order[i]] != picked[order[j]]);
        } else if order[j] < order[i] {
            assert(picked[order[j]] != picked[order[i]]);
        }
    }
    assert forall|i: int| 0 <= i < along.len() implies low <= #[trigger] along[i] < low
        + along.len() by {
        assert(0 <= order[i] < count);
        assert(0 <= picked[order[i]] < count);
    }
    lemma_ascending_dense(along, low);
    assert forall|k: int| 0 <= k < sorted.len() implies (#[trigger] sorted[k]).key == keys[count
        - 1 - k] by {
        assert(sorted[k] == given[order[k]]);
        assert(along[k] == low + k);
        assert(picked[order[k]] == count - 1 - k);
    }
    lemma_peel(primary, keys, sorted, 0);
    assert(sorted.skip(0) =~= sorted);
    assert(keys.take(count) =~= keys);
}

/// What holds of a wrapped key and its canaries: all canaries, in any order,
/// unwrap the primary key, and fewer or more canaries than there are layers
/// unwrap nothing.
pub open spec fn canaries_unwrap(
    canaries: Seq<CanaryView>,
    wrapped_key: Seq<u8>,
    primary: Seq<u8>,
) -> bool {
    &&& forall|cs: Seq<int>|
        distinct_places(cs, canaries.len() as int) && cs.len() == canaries.len()
            ==> #[trigger] unwrapped(wrapped_key, taken(canaries, cs)) == Ok::<
            Seq<u8>,
            CryptoError,
        >(primary)
    &&& forall|given: Seq<CanaryView>|
        given.len() != canaries.len() ==> #[trigger] unwrapped(wrapped_key, given) == Err::<
            Seq<u8>,
            CryptoError,
        >(CryptoError::CanaryMismatch)
}

/// A primary key wrapped in layers that open, and the canaries of the
/// layers, obey [`canaries_unwrap`].
pub proof fn lemma_canaries_unwrap(primary: Seq<u8>, keys: Seq<KeyView>, wrapped_key: Seq<u8>)
    requires
        keys.len() <= u8::MAX,
        primary.len() == KEY_LEN,
        wrapped(primary, keys) == Some(wrapped_key),
        wrapped_key.len() == KEY_LEN + TAG_LEN * keys.len(),
        layers_open(primary, keys),
    ensures
        canaries_unwrap(canaries_of(keys), wrapped_key, primary),
{
    let canaries = canaries_of(keys);
    assert forall|cs: Seq<int>|
        distinct_places(cs, canaries.len() as int) && cs.len() == canaries.len()
        implies #[trigger] unwrapped(wrapped_key, taken(canaries, cs)) == Ok::<
        Seq<u8>,
        CryptoError,
    >(primary) by {
        lemma_unwrap_all(primary, keys, wrapped_key, cs);
    }
    assert forall|given: Seq<CanaryView>| given.len() != canaries.len()
        implies #[trigger] unwrapped(wrapped_key, given) == Err::<Seq<u8>, CryptoError>(
        CryptoError::CanaryMismatch,
    ) by {
        lemma_canary_necessity(wrapped_key, keys.len() as int, given);
    }
}

} // verus!
