//! The onion round the primary key: one sealed layer for each canary.
//!
//! Layer 0 is sealed first and lies innermost. To unwrap, every layer is
//! opened, the outermost first, so every canary is needed.

use vstd::prelude::*;
use crate::aead::all_fit;
use crate::aead::key_fits;
use crate::aead::keys_fit;
use crate::aead::open;
use crate::aead::opened;
use crate::aead::random_key;
use crate::aead::seal;
use crate::aead::sealed;
use crate::aead::KEY_LEN;
use crate::aead::MAX_MESSAGE_LEN;
use crate::aead::TAG_LEN;
use crate::errors::crypto_error::CryptoError;
use crate::models::canary::canary_views;
use crate::models::canary::Canary;
use crate::models::canary::CanaryView;
use crate::models::key::key_views;
use crate::models::key::Key;
use crate::models::key::KeyView;
use crate::onion_laws::canaries_unwrap;
use crate::onion_laws::lemma_canaries_unwrap;
use crate::order::as_ints;
use crate::order::sort_indices;
use crate::order::stable_order;

verus! {

/// `primary` sealed under each of `keys` in turn, the first key innermost;
/// `None` where a layer cannot be sealed.
pub open spec fn wrapped(primary: Seq<u8>, keys: Seq<KeyView>) -> Option<Seq<u8>>
    decreases keys.len(),
{
    if keys.len() == 0 {
        Some(primary)
    } else {
        match wrapped(primary, keys.drop_last()) {
            Some(inner) => sealed(keys.last(), inner),
            None => None,
        }
    }
}

/// The canaries that record `keys`: canary `l` holds key `l` and layer `l`.
pub open spec fn canaries_of(keys: Seq<KeyView>) -> Seq<CanaryView> {
    Seq::new(keys.len(), |l: int| CanaryView { key: keys[l], layer: l as u8 })
}

/// The key by which a canary of a given layer is sorted, so that higher
/// layers come first.
pub open spec fn layer_rank(c: CanaryView) -> u8 {
    (255 - c.layer) as u8
}

/// `canaries` with the outermost layer first; canaries of one layer stay in
/// the order in which they were given.
pub open spec fn outermost_first(canaries: Seq<CanaryView>) -> Seq<CanaryView> {
    stable_order(canaries.map_values(|c: CanaryView| layer_rank(c))).map_values(
        |i: int| canaries[i],
    )
}

/// `wrapped` opened under each of `canaries` in turn, the first canary
/// outermost; `None` where a layer does not open.
pub open spec fn peeled(wrapped: Seq<u8>, canaries: Seq<CanaryView>) -> Option<Seq<u8>>
    decreases canaries.len(),
{
    if canaries.len() == 0 {
        Some(wrapped)
    } else {
        match opened(canaries[0].key, wrapped) {
            Some(inner) => peeled(inner, canaries.drop_first()),
            None => None,
        }
    }
}

/// The primary key inside `wrapped`, given `canaries` in any order. There is
/// none where `wrapped` is not one tag longer than a key for each canary
/// given, or where a layer does not open.
pub open spec fn unwrapped(wrapped: Seq<u8>, canaries: Seq<CanaryView>) -> Result<
    Seq<u8>,
    CryptoError,
> {
    if wrapped.len() != KEY_LEN + TAG_LEN * canaries.len() {
        Err(CryptoError::CanaryMismatch)
    } else {
        match peeled(wrapped, outermost_first(canaries)) {
            Some(primary) => Ok(primary),
            None => Err(CryptoError::CanaryMismatch),
        }
    }
}

/// The onion of the first `l` layers round `primary`.
pub open spec fn onion(primary: Seq<u8>, keys: Seq<KeyView>, l: int) -> Seq<u8> {
    wrapped(primary, keys.take(l))->Some_0
}

/// Every layer of the onion round `primary` was sealed and opens again under
/// its key, to the onion inside it.
pub open spec fn layers_open(primary: Seq<u8>, keys: Seq<KeyView>) -> bool {
    forall|l: int|
        0 <= l < keys.len() ==> wrapped(primary, keys.take(l + 1)) is Some && opened(
            #[trigger] keys[l],
            onion(primary, keys, l + 1),
        ) == Some(onion(primary, keys, l))
}

/// Whether a key of `len` bytes grows too long to be sealed before it has
/// `layers` layers round it.
pub open spec fn outgrows(len: int, layers: int) -> bool {
    layers >= 1 && len + TAG_LEN * (layers - 1) > MAX_MESSAGE_LEN
}

/// Seals `primary_key` under each of `keys` in turn, the first key innermost,
/// and records each key with its layer in a canary.
///
/// Fails with `ConfigurationError` where there are more than 255 keys, with
/// `InvalidLength` where a key does not fit the cipher, and with `AESError`
/// where a layer grows too long to be sealed.
pub fn wrap_with(primary_key: Vec<u8>, keys: Vec<Key>) -> (result: Result<
    (Vec<u8>, Vec<Canary>),
    CryptoError,
>)
    ensures
        result is Ok <==> keys@.len() <= u8::MAX && keys_fit(key_views(keys@))
            && !outgrows(primary_key@.len() as int, keys@.len() as int),
        match result {
            Ok((out, canaries)) => {
                &&& wrapped(primary_key@, key_views(keys@)) == Some(out@)
                &&& layers_open(primary_key@, key_views(keys@))
                &&& canary_views(canaries@) == canaries_of(key_views(keys@))
                &&& out@.len() == primary_key@.len() + TAG_LEN * keys@.len()
                &&& primary_key@.len() == KEY_LEN ==> canaries_unwrap(
                    canary_views(canaries@),
                    out@,
                    primary_key@,
                )
            },
            Err(e) => e == if keys@.len() > u8::MAX {
                CryptoError::ConfigurationError
            } else if !keys_fit(key_views(keys@)) {
                CryptoError::InvalidLength
            } else {
                CryptoError::AESError
            },
        },
{
    if keys.len() > u8::MAX as usize {
        return Err(CryptoError::ConfigurationError);
    }
    if !all_fit(&keys) {
        return Err(CryptoError::InvalidLength);
    }
    let ghost primary = primary_key@;
    let ghost all = key_views(keys@);
    let count: usize = keys.len();
    let mut out: Vec<u8> = primary_key;
    let mut canaries: Vec<Canary> = Vec::new();
    let mut rest: Vec<Key> = keys;
    let mut layer: usize = 0;
    proof {
        assert(all.take(0) =~= Seq::<KeyView>::empty());
        assert(canary_views(canaries@) =~= canaries_of(all.take(0)));
    }
    while layer < count
        invariant
            layer <= count,
            count <= u8::MAX,
            count == all.len(),
            keys_fit(all),
            primary == primary_key@,
            all == key_views(keys@),
            rest@.len() == count - layer,
            key_views(rest@) == all.skip(layer as int),
            wrapped(primary, all.take(layer as int)) == Some(out@),
            forall|l: int|
                0 <= l < layer ==> wrapped(primary, all.take(l + 1)) is Some && opened(
                    #[trigger] all[l],
                    onion(primary, all, l + 1),
                ) == Some(onion(primary, all, l)),
            out@.len() == primary.len() + TAG_LEN * layer,
            !outgrows(primary.len() as int, layer as int),
            canary_views(canaries@) == canaries_of(all.take(layer as int)),
        decreases count - layer,
    {
        let ghost waiting = rest@;
        let key: Key = rest.remove(0);
        proof {
            assert(key@ == all[layer as int]) by {
                assert(key_views(waiting)[0] == all.skip(layer as int)[0]);
            }
            assert(key_views(rest@) =~= all.skip(layer + 1)) by {
                assert forall|i: int| 0 <= i < rest@.len() implies key_views(rest@)[i] == all.skip(
                    layer + 1,
                )[i] by {
                    assert(rest@[i] == waiting[i + 1]);
                    assert(key_views(waiting)[i + 1] == all.skip(layer as int)[i + 1]);
                }
            }
            assert(all.take(layer + 1).drop_last() =~= all.take(layer as int));
            assert(all.take(layer + 1).last() == all[layer as int]);
        }
        out = match seal(&key, out.as_slice()) {
            Ok(next) => next,
            Err(_) => {
                return Err(CryptoError::AESError);
            },
        };
        let ghost before = canary_views(canaries@);
        canaries.push(Canary::new(key, layer as u8));
        proof {
            assert(canary_views(canaries@) =~= before.push(
                CanaryView { key: all[layer as int], layer: layer as u8 },
            ));
            assert(canary_views(canaries@) =~= canaries_of(all.take(layer + 1)));
        }
        layer += 1;
    }
    proof {
        assert(all.take(count as int) =~= all);
        if primary.len() == KEY_LEN {
            lemma_canaries_unwrap(primary, all, out@);
        }
    }
    Ok((out, canaries))
}

/// Makes `count` fresh keys and seals `primary_key` under each in turn, the
/// first innermost; gives the sealed key and one canary for each layer.
///
/// Whether a layer would grow too long is tested before any key is made:
/// then it fails with `AESError`. Else it fails only with `RandomSource`,
/// where the operating system delivers no random bytes; without canaries
/// none are asked for, and the key comes back as it is.
pub fn wrap(primary_key: Vec<u8>, count: u8) -> (result: Result<
    (Vec<u8>, Vec<Canary>),
    CryptoError,
>)
    ensures
        match result {
            Ok((out, canaries)) => {
                &&& canaries@.len() == count
                &&& forall|l: int|
                    0 <= l < count ==> (#[trigger] canaries@[l]).layer == l && key_fits(
                        canaries@[l].key@,
                    )
                &&& wrapped(
                    primary_key@,
                    canary_views(canaries@).map_values(|c: CanaryView| c.key),
                ) == Some(out@)
                &&& out@.len() == primary_key@.len() + TAG_LEN * count
                &&& primary_key@.len() == KEY_LEN ==> canaries_unwrap(
                    canary_views(canaries@),
                    out@,
                    primary_key@,
                )
            },
            Err(e) => e == if outgrows(primary_key@.len() as int, count as int) {
                CryptoError::AESError
            } else {
                CryptoError::RandomSource
            },
        },
        outgrows(primary_key@.len() as int, count as int) ==> result is Err,
        count == 0 ==> (result matches Ok((out, canaries)) && out@ == primary_key@
            && canaries@.len() == 0),
{
    if count >= 1 && primary_key.len() as u64 > MAX_MESSAGE_LEN - (TAG_LEN as u64) * (count as u64
        - 1) {
        return Err(CryptoError::AESError);
    }
    proof {
        if count == 0 {
            assert(key_views(Seq::<Key>::empty()) =~= Seq::<KeyView>::empty());
        }
    }
    let keys: Vec<Key> = match random_keys(count as usize) {
        Ok(keys) => keys,
        Err(e) => {
            return Err(e);
        },
    };
    proof {
        let all = key_views(keys@);
        assert forall|l: int| 0 <= l < all.len() implies key_fits(#[trigger] all[l]) by {
            assert(key_fits(keys@[l]@));
        }
        assert(canaries_of(all).map_values(|c: CanaryView| c.key) =~= all);
    }
    match wrap_with(primary_key, keys) {
        Ok((out, canaries)) => {
            proof {
                if count == 0 {
                    assert(key_views(keys@) =~= Seq::<KeyView>::empty());
                }
                assert forall|l: int| 0 <= l < count implies (#[trigger] canaries@[l]).layer == l
                    && key_fits(canaries@[l].key@) by {
                    assert(canary_views(canaries@)[l] == canaries_of(key_views(keys@))[l]);
                    assert(key_fits(keys@[l]@));
                }
            }
            Ok((out, canaries))
        },
        Err(e) => Err(e),
    }
}

/// `count` fresh keys, each fitting the cipher. Fails with `RandomSource`
/// where the operating system delivers no random bytes; no keys need none.
pub fn random_keys(count: usize) -> (result: Result<Vec<Key>, CryptoError>)
    ensures
        match result {
            Ok(keys) => keys@.len() == count && forall|i: int|
                0 <= i < count ==> key_fits(#[trigger] keys@[i]@),
            Err(e) => e == CryptoError::RandomSource,
        },
        count == 0 ==> result is Ok,
{
    let mut keys: Vec<Key> = Vec::new();
    let mut i: usize = 0;
    while i < count
        invariant
            i <= count,
            keys@.len() == i,
            forall|m: int| 0 <= m < i ==> key_fits(#[trigger] keys@[m]@),
        decreases count - i,
    {
        match random_key() {
            Ok(key) => {
                keys.push(key);
            },
            Err(e) => {
                return Err(e);
            },
        }
        i += 1;
    }
    Ok(keys)
}

/// Opens the layers round the primary key in `wrapped_key`, the outermost
/// first, and gives the primary key.
///
/// Fails with `CanaryMismatch` where the wrapped key is not one tag longer
/// than a key for each canary given, so where a canary is missing, and where
/// a layer does not open under its canary's key.
pub fn unwrap(wrapped_key: Vec<u8>, canaries: &Vec<Canary>) -> (result: Result<
    Vec<u8>,
    CryptoError,
>)
    ensures
        match result {
            Ok(primary) => unwrapped(wrapped_key@, canary_views(canaries@)) == Ok::<
                Seq<u8>,
                CryptoError,
            >(primary@),
            Err(e) => unwrapped(wrapped_key@, canary_views(canaries@)) == Err::<
                Seq<u8>,
                CryptoError,
            >(e),
        },
{
    let ghost all = canary_views(canaries@);
    assert(KEY_LEN == 32 && TAG_LEN == 16 && all.len() == canaries@.len());
    let given: usize = wrapped_key.len();
    if canaries.len() > (usize::MAX - KEY_LEN) / TAG_LEN {
        proof {
            let room = usize::MAX as int - 32;
            vstd::arithmetic::div_mod::lemma_fundamental_div_mod(room, 16);
            vstd::arithmetic::div_mod::lemma_mod_bound(room, 16);
        }
        return Err(CryptoError::CanaryMismatch);
    }
    if given != KEY_LEN + TAG_LEN * canaries.len() {
        return Err(CryptoError::CanaryMismatch);
    }
    let mut ranks: Vec<u8> = Vec::new();
    let mut i: usize = 0;
    while i < canaries.len()
        invariant
            i <= canaries.len(),
            all == canary_views(canaries@),
            ranks@ =~= all.map_values(|c: CanaryView| layer_rank(c)).take(i as int),
        decreases canaries.len() - i,
    {
        ranks.push(255 - canaries[i].layer);
        i += 1;
    }
    let order: Vec<usize> = sort_indices(&ranks);
    let ghost sorted = outermost_first(all);
    proof {
        assert(ranks@ =~= all.map_values(|c: CanaryView| layer_rank(c)));
    }
    let mut current: Vec<u8> = wrapped_key;
    let mut m: usize = 0;
    proof {
        assert(sorted.skip(0) =~= sorted);
    }
    while m < order.len()
        invariant
            m <= order@.len(),
            order@.len() == canaries@.len(),
            all == canary_views(canaries@),
            sorted == outermost_first(all),
            sorted.len() == order@.len(),
            as_ints(order@) == stable_order(all.map_values(|c: CanaryView| layer_rank(c))),
            forall|a: int| 0 <= a < order@.len() ==> #[trigger] order@[a] < canaries@.len(),
            peeled(wrapped_key@, sorted) == peeled(current@, sorted.skip(m as int)),
        decreases order@.len() - m,
    {
        let canary: &Canary = &canaries[order[m]];
        proof {
            let left = sorted.skip(m as int);
            assert(left[0] == sorted[m as int]);
            assert(as_ints(order@)[m as int] == order@[m as int]);
            assert(sorted[m as int] == canary@);
            assert(left.drop_first() =~= sorted.skip(m + 1));
        }
        match open(&canary.key, current.as_slice()) {
            Some(inner) => {
                current = inner;
            },
            None => {
                return Err(CryptoError::CanaryMismatch);
            },
        }
        m += 1;
    }
    proof {
        assert(sorted.skip(m as int) =~= Seq::<CanaryView>::empty());
    }
    Ok(current)
}

} // verus!
