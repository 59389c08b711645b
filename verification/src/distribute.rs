//! Dealing the ciphertext and the wrapped key out to the trustees.
//!
//! Each trustee gets a key of its own and, for each combination of other
//! trustees that makes a quorum with it, a fragment: the ciphertext and the
//! wrapped key, each cut into as many parts as the quorum has members and
//! without the part at the trustee's place among them, the wrapped key sealed
//! under the XOR of the keys of the others.

use vstd::prelude::*;
use crate::aead::aead_sealed;
use crate::aead::all_fit;
use crate::aead::key_fits;
use crate::aead::keys_fit;
use crate::aead::opened;
use crate::aead::seal;
use crate::aead::sealed;
use crate::aead::MAX_MESSAGE_LEN;
use crate::canary_onion::random_keys;
use crate::combos::binomial;
use crate::combos::combination_count;
use crate::combos::combination_limit;
use crate::combos::combo_views;
use crate::combos::combos;
use crate::combos::draw_combinations;
use crate::combos::lemma_combo_shape;
use crate::errors::crypto_error::CryptoError;
use crate::models::fragment::fragment_views;
use crate::models::fragment::Fragment;
use crate::models::fragment::FragmentView;
use crate::models::key::combine;
use crate::models::key::key_views;
use crate::models::key::xor_all;
use crate::models::key::Key;
use crate::models::key::KeyView;
use crate::models::shard::shard_views;
use crate::models::shard::Shard;
use crate::models::shard::ShardView;
use crate::parts::ascending;
use crate::quorum_laws::lemma_dealt_shape;
use crate::quorum_laws::lemma_quorum_recovers;
use crate::quorum_laws::quorum_recovers;
use crate::quorum_laws::well_shaped;
use crate::parts::elide;
use crate::parts::find_insert_index;
use crate::parts::lemma_elide_is_split_without;
use crate::parts::lemma_part_bounds;
use crate::parts::rank;
use crate::parts::remove_part;

verus! {

/// The most trustees there can be: ordinals are bytes below 255.
pub const MAX_TRUSTEES: usize = 255;

/// The ordinals of the `trustees` trustees but `t`, ascending.
pub open spec fn others(trustees: int, t: int) -> Seq<u8> {
    Seq::new(
        (trustees - 1) as nat,
        |i: int|
            if i < t {
                i as u8
            } else {
                (i + 1) as u8
            },
    )
}

/// The keys of the trustees `owners`, in the order of `owners`.
pub open spec fn keys_of(keys: Seq<KeyView>, owners: Seq<u8>) -> Seq<KeyView> {
    owners.map_values(|o: u8| keys[o as int])
}

/// The fragment that trustee `t` holds for the combination `owners`.
pub open spec fn fragment_of(
    ciphertext: Seq<u8>,
    wrapped_key: Seq<u8>,
    keys: Seq<KeyView>,
    quorum: int,
    t: u8,
    owners: Seq<u8>,
) -> FragmentView {
    let combo = combine(keys_of(keys, owners));
    let place = rank(owners, t);
    FragmentView {
        ciphertext: elide(ciphertext, quorum, place),
        key: aead_sealed(combo.key, combo.nonce, elide(wrapped_key, quorum, place)),
        owners: owners,
    }
}

/// The fragments that trustee `t` holds for the combinations `list`, in
/// order.
pub open spec fn fragments_of(
    ciphertext: Seq<u8>,
    wrapped_key: Seq<u8>,
    keys: Seq<KeyView>,
    quorum: int,
    t: u8,
    list: Seq<Seq<u8>>,
) -> Seq<FragmentView> {
    Seq::new(list.len(), |j: int| fragment_of(ciphertext, wrapped_key, keys, quorum, t, list[j]))
}

/// The shard of trustee `t`.
pub open spec fn shard_of(
    ciphertext: Seq<u8>,
    wrapped_key: Seq<u8>,
    pri_nonce: Seq<u8>,
    keys: Seq<KeyView>,
    quorum: int,
    t: int,
) -> ShardView {
    ShardView {
        fragments: fragments_of(
            ciphertext,
            wrapped_key,
            keys,
            quorum,
            t as u8,
            combos(others(keys.len() as int, t), quorum - 1),
        ),
        key: keys[t],
        owner: t as u8,
        pri_nonce: pri_nonce,
    }
}

/// The shards of all trustees, trustee `t` holding key `t`.
pub open spec fn distributed(
    ciphertext: Seq<u8>,
    wrapped_key: Seq<u8>,
    pri_nonce: Seq<u8>,
    keys: Seq<KeyView>,
    quorum: int,
) -> Seq<ShardView> {
    Seq::new(
        keys.len(),
        |t: int| shard_of(ciphertext, wrapped_key, pri_nonce, keys, quorum, t),
    )
}

/// Why nothing is dealt out to `trustees` trustees, if so: the quorum is none
/// or larger than the number of trustees, there are too many trustees or
/// fragments; a trustee's key does not fit the cipher; the wrapped key is too
/// long to be sealed.
pub open spec fn refusal_for(wrapped_len: int, trustees: int, fit: bool, quorum: int) -> Option<
    CryptoError,
> {
    if !(1 <= quorum <= trustees <= MAX_TRUSTEES) || binomial(trustees - 1, quorum - 1)
        > combination_limit() {
        Some(CryptoError::ConfigurationError)
    } else if !fit {
        Some(CryptoError::InvalidLength)
    } else if wrapped_len - wrapped_len / quorum > MAX_MESSAGE_LEN {
        Some(CryptoError::AESError)
    } else {
        None
    }
}

/// Why nothing is dealt out to the trustees that hold `keys`, if so.
pub open spec fn refusal(wrapped_len: int, keys: Seq<KeyView>, quorum: int) -> Option<CryptoError> {
    refusal_for(wrapped_len, keys.len() as int, keys_fit(keys), quorum)
}

/// Fragment `f` of trustee `t` holds the ciphertext without the part at the
/// place of `t` among its owners, and its key opens, under the keys of its
/// owners, to the wrapped key without that part.
pub open spec fn fragment_opens(
    f: FragmentView,
    t: u8,
    ciphertext: Seq<u8>,
    wrapped_key: Seq<u8>,
    keys: Seq<KeyView>,
    quorum: int,
) -> bool {
    &&& f.ciphertext == elide(ciphertext, quorum, rank(f.owners, t))
    &&& opened(combine(keys_of(keys, f.owners)), f.key) == Some(
        elide(wrapped_key, quorum, rank(f.owners, t)),
    )
}

/// `s` is the shard of trustee `t`: it holds key `t`, the primary nonce, and
/// one fragment that opens for each combination of `quorum - 1` others.
pub open spec fn shard_dealt(
    s: ShardView,
    t: int,
    ciphertext: Seq<u8>,
    wrapped_key: Seq<u8>,
    pri_nonce: Seq<u8>,
    keys: Seq<KeyView>,
    quorum: int,
) -> bool {
    let list = combos(others(keys.len() as int, t), quorum - 1);
    &&& s.owner == t
    &&& s.key == keys[t]
    &&& s.pri_nonce == pri_nonce
    &&& s.fragments.len() == list.len()
    &&& forall|j: int|
        0 <= j < list.len() ==> (#[trigger] s.fragments[j]).owners == list[j] && fragment_opens(
            s.fragments[j],
            t as u8,
            ciphertext,
            wrapped_key,
            keys,
            quorum,
        )
}

/// `shards` are the shards of all trustees, in order, each as
/// [`shard_dealt`] says.
pub open spec fn dealt(
    shards: Seq<ShardView>,
    ciphertext: Seq<u8>,
    wrapped_key: Seq<u8>,
    pri_nonce: Seq<u8>,
    keys: Seq<KeyView>,
    quorum: int,
) -> bool {
    &&& shards.len() == keys.len()
    &&& 1 <= quorum <= keys.len() <= MAX_TRUSTEES
    &&& forall|t: int|
        0 <= t < shards.len() ==> shard_dealt(
            #[trigger] shards[t],
            t,
            ciphertext,
            wrapped_key,
            pri_nonce,
            keys,
            quorum,
        )
}

/// The others of a trustee ascend, are trustees, and are not the trustee.
pub proof fn lemma_others(trustees: int, t: int)
    requires
        0 <= t < trustees <= MAX_TRUSTEES,
    ensures
        others(trustees, t).len() == trustees - 1,
        ascending(others(trustees, t)),
        forall|i: int|
            0 <= i < trustees - 1 ==> (#[trigger] others(trustees, t)[i]) < trustees && others(
                trustees,
                t,
            )[i] != t,
        forall|o: u8| o < trustees && o != t ==> others(trustees, t).contains(o),
{
    let pool = others(trustees, t);
    assert forall|o: u8| o < trustees && o != t implies pool.contains(o) by {
        if o < t {
            assert(pool[o as int] == o);
        } else {
            assert(pool[o - 1] == o);
        }
    }
}

/// The XOR of keys that fit the cipher fits the cipher, and so does the
/// all-zero key that no keys give.
pub proof fn lemma_combine_fits(keys: Seq<KeyView>)
    requires
        keys_fit(keys),
    ensures
        key_fits(combine(keys)),
    decreases keys.len(),
{
    if keys.len() >= 1 {
        let init = keys.drop_last();
        assert(key_fits(keys[keys.len() - 1]));
        if init.len() == 0 {
            assert(xor_all(init) == crate::models::key::empty_key());
        } else {
            assert forall|i: int| 0 <= i < init.len() implies key_fits(#[trigger] init[i]) by {
                assert(init[i] == keys[i]);
            }
            lemma_combine_fits(init);
        }
    }
}

/// The ordinals of the `trustees` trustees but `t`, ascending.
fn other_owners(trustees: usize, t: usize) -> (pool: Vec<u8>)
    requires
        t < trustees <= MAX_TRUSTEES,
    ensures
        pool@ == others(trustees as int, t as int),
{
    let mut pool: Vec<u8> = Vec::new();
    let mut n: usize = 0;
    while n < trustees
        invariant
            n <= trustees,
            t < trustees <= MAX_TRUSTEES,
            pool@.len() == if n <= t {
                n as int
            } else {
                n - 1
            },
            forall|i: int|
                0 <= i < pool@.len() ==> #[trigger] pool@[i] == others(
                    trustees as int,
                    t as int,
                )[i],
        decreases trustees - n,
    {
        if n != t {
            pool.push(n as u8);
        }
        n += 1;
    }
    assert(pool@ =~= others(trustees as int, t as int));
    pool
}

/// Copies of the keys of the trustees `owners`, in the order of `owners`.
fn pick_keys(keys: &Vec<Key>, owners: &Vec<u8>) -> (picked: Vec<Key>)
    requires
        forall|i: int| 0 <= i < owners@.len() ==> (#[trigger] owners@[i]) < keys@.len(),
    ensures
        key_views(picked@) == keys_of(key_views(keys@), owners@),
{
    let mut picked: Vec<Key> = Vec::new();
    let mut i: usize = 0;
    while i < owners.len()
        invariant
            i <= owners.len(),
            forall|i: int| 0 <= i < owners@.len() ==> (#[trigger] owners@[i]) < keys@.len(),
            key_views(picked@) =~= keys_of(key_views(keys@), owners@).take(i as int),
        decreases owners.len() - i,
    {
        let ghost before = key_views(picked@);
        let key: Key = keys[owners[i] as usize].clone();
        picked.push(key);
        proof {
            assert(key_views(picked@) =~= before.push(keys@[owners@[i as int] as int]@));
        }
        i += 1;
    }
    assert(key_views(picked@) =~= keys_of(key_views(keys@), owners@));
    picked
}

/// The fragment that trustee `t` holds for the combination `owners`.
fn deal_fragment(
    ciphertext: &Vec<u8>,
    wrapped_key: &Vec<u8>,
    keys: &Vec<Key>,
    quorum: u8,
    t: u8,
    owners: &Vec<u8>,
) -> (result: Result<Fragment, CryptoError>)
    requires
        refusal(wrapped_key@.len() as int, key_views(keys@), quorum as int) is None,
        owners@.len() == quorum - 1,
        forall|i: int| 0 <= i < owners@.len() ==> (#[trigger] owners@[i]) < keys@.len(),
    ensures
        result matches Ok(f) && f@ == fragment_of(
            ciphertext@,
            wrapped_key@,
            key_views(keys@),
            quorum as int,
            t,
            owners@,
        ) && fragment_opens(f@, t, ciphertext@, wrapped_key@, key_views(keys@), quorum as int),
{
    let key_set: Vec<Key> = pick_keys(keys, owners);
    let key_combo: Key = Key::xor_keys(key_set.as_slice());
    let place: usize = find_insert_index(owners, t);
    proof {
        let all = key_views(keys@);
        let chosen = keys_of(all, owners@);
        assert forall|i: int| 0 <= i < chosen.len() implies key_fits(#[trigger] chosen[i]) by {
            assert(chosen[i] == all[owners@[i] as int]);
        }
        lemma_combine_fits(chosen);
        let len = wrapped_key@.len() as int;
        lemma_part_bounds(len, quorum as int, place as int);
        lemma_elide_is_split_without(wrapped_key@, quorum as int, place as int);
    }
    let ct_slice: Vec<u8> = match remove_part(ciphertext, quorum as usize, place) {
        Ok(rest) => rest,
        Err(e) => {
            return Err(e);
        },
    };
    let wk_slice: Vec<u8> = match remove_part(wrapped_key, quorum as usize, place) {
        Ok(rest) => rest,
        Err(e) => {
            return Err(e);
        },
    };
    let wk_slice_enc: Vec<u8> = match seal(&key_combo, wk_slice.as_slice()) {
        Ok(out) => out,
        Err(e) => {
            return Err(e);
        },
    };
    Ok(Fragment::new(ct_slice, wk_slice_enc, owners.clone()))
}

/// The shard of trustee `t`.
fn deal_shard(
    ciphertext: &Vec<u8>,
    wrapped_key: &Vec<u8>,
    pri_nonce: &Vec<u8>,
    keys: &Vec<Key>,
    quorum: u8,
    t: u8,
) -> (result: Result<Shard, CryptoError>)
    requires
        refusal(wrapped_key@.len() as int, key_views(keys@), quorum as int) is None,
        t < keys@.len(),
    ensures
        result matches Ok(s) && s@ == shard_of(
            ciphertext@,
            wrapped_key@,
            pri_nonce@,
            key_views(keys@),
            quorum as int,
            t as int,
        ) && shard_dealt(
            s@,
            t as int,
            ciphertext@,
            wrapped_key@,
            pri_nonce@,
            key_views(keys@),
            quorum as int,
        ),
{
    let ghost all = key_views(keys@);
    let ghost pool = others(keys@.len() as int, t as int);
    let ghost wanted = combos(pool, quorum - 1);
    proof {
        lemma_others(keys@.len() as int, t as int);
    }
    let list: Vec<Vec<u8>> = match draw_combinations(
        other_owners(keys.len(), t as usize),
        quorum as usize - 1,
    ) {
        Some(list) => list,
        None => {
            return Err(CryptoError::ConfigurationError);
        },
    };
    let mut fragments: Vec<Fragment> = Vec::new();
    let mut j: usize = 0;
    while j < list.len()
        invariant
            j <= list@.len(),
            all == key_views(keys@),
            pool == others(keys@.len() as int, t as int),
            wanted == combos(pool, quorum - 1),
            combo_views(list@) == wanted,
            refusal(wrapped_key@.len() as int, all, quorum as int) is None,
            t < keys@.len(),
            forall|i: int|
                0 <= i < pool.len() ==> (#[trigger] pool[i]) < keys@.len(),
            fragments@.len() == j,
            forall|m: int|
                0 <= m < j ==> (#[trigger] fragments@[m])@ == fragment_of(
                    ciphertext@,
                    wrapped_key@,
                    all,
                    quorum as int,
                    t,
                    wanted[m],
                ) && fragment_opens(
                    fragments@[m]@,
                    t,
                    ciphertext@,
                    wrapped_key@,
                    all,
                    quorum as int,
                ),
        decreases list@.len() - j,
    {
        let owners: &Vec<u8> = &list[j];
        proof {
            assert(combo_views(list@)[j as int] == owners@);
            lemma_combo_shape(pool, quorum - 1, j as int);
            assert forall|i: int| 0 <= i < owners@.len() implies (#[trigger] owners@[i])
                < keys@.len() by {
                assert(pool.contains(wanted[j as int][i]));
            }
        }
        let fragment: Fragment = match deal_fragment(
            ciphertext,
            wrapped_key,
            keys,
            quorum,
            t,
            owners,
        ) {
            Ok(fragment) => fragment,
            Err(e) => {
                return Err(e);
            },
        };
        fragments.push(fragment);
        j += 1;
    }
    let shard = Shard {
        fragments: fragments,
        key: keys[t as usize].clone(),
        owner: t,
        pri_nonce: pri_nonce.clone(),
    };
    proof {
        let made = fragment_views(fragments@);
        let want = fragments_of(ciphertext@, wrapped_key@, all, quorum as int, t, wanted);
        assert(made =~= want);
        assert(all[t as int] == keys@[t as int]@);
    }
    Ok(shard)
}

/// Deals `ciphertext` and `wrapped_key` out to as many trustees as there are
/// `keys`, trustee `t` holding key `t`, so that `quorum` of them recover
/// both.
///
/// Fails before anything is sealed: with `ConfigurationError` where the
/// quorum is none or larger than the number of trustees, or there are more
/// than 255 trustees, or more fragments for a trustee than are ever listed
/// at once; with `InvalidLength` where a key does not fit the cipher; with
/// `AESError` where the wrapped key is too long to be sealed.
///
/// With a quorum of one each trustee gets one fragment without owners, which
/// holds nothing of the ciphertext and an empty piece of the wrapped key
/// sealed under the all-zero key. Nothing is recovered from such shards: a
/// recovery needs two members.
pub fn distribute_with(
    ciphertext: &Vec<u8>,
    wrapped_key: &Vec<u8>,
    pri_nonce: &Vec<u8>,
    keys: &Vec<Key>,
    quorum: u8,
) -> (result: Result<Vec<Shard>, CryptoError>)
    ensures
        match result {
            Ok(shards) => {
                &&& refusal(wrapped_key@.len() as int, key_views(keys@), quorum as int) is None
                &&& shard_views(shards@) == distributed(
                    ciphertext@,
                    wrapped_key@,
                    pri_nonce@,
                    key_views(keys@),
                    quorum as int,
                )
                &&& dealt(
                    shard_views(shards@),
                    ciphertext@,
                    wrapped_key@,
                    pri_nonce@,
                    key_views(keys@),
                    quorum as int,
                )
                &&& well_shaped(shard_views(shards@), keys@.len() as int, quorum as int)
                &&& quorum_recovers(
                    shard_views(shards@),
                    quorum as int,
                    ciphertext@,
                    wrapped_key@,
                    pri_nonce@,
                )
            },
            Err(e) => refusal(wrapped_key@.len() as int, key_views(keys@), quorum as int) == Some(
                e,
            ),
        },
{
    let ghost all = key_views(keys@);
    let trustees: usize = keys.len();
    if quorum < 1 || quorum as usize > trustees || trustees > MAX_TRUSTEES {
        return Err(CryptoError::ConfigurationError);
    }
    if combination_count(trustees - 1, quorum as usize - 1).is_none() {
        return Err(CryptoError::ConfigurationError);
    }
    if !all_fit(keys) {
        return Err(CryptoError::InvalidLength);
    }
    let len: usize = wrapped_key.len();
    if (len - len / (quorum as usize)) as u64 > MAX_MESSAGE_LEN {
        return Err(CryptoError::AESError);
    }
    let mut shards: Vec<Shard> = Vec::new();
    let mut t: usize = 0;
    while t < trustees
        invariant
            t <= trustees,
            trustees == keys@.len(),
            trustees <= MAX_TRUSTEES,
            all == key_views(keys@),
            refusal(wrapped_key@.len() as int, all, quorum as int) is None,
            shards@.len() == t,
            forall|m: int|
                0 <= m < t ==> (#[trigger] shards@[m])@ == shard_of(
                    ciphertext@,
                    wrapped_key@,
                    pri_nonce@,
                    all,
                    quorum as int,
                    m,
                ) && shard_dealt(
                    shards@[m]@,
                    m,
                    ciphertext@,
                    wrapped_key@,
                    pri_nonce@,
                    all,
                    quorum as int,
                ),
        decreases trustees - t,
    {
        let shard: Shard = match deal_shard(
            ciphertext,
            wrapped_key,
            pri_nonce,
            keys,
            quorum,
            t as u8,
        ) {
            Ok(shard) => shard,
            Err(e) => {
                return Err(e);
            },
        };
        shards.push(shard);
        t += 1;
    }
    proof {
        let made = shard_views(shards@);
        assert(made =~= distributed(ciphertext@, wrapped_key@, pri_nonce@, all, quorum as int));
        assert forall|m: int| 0 <= m < made.len() implies shard_dealt(
            #[trigger] made[m],
            m,
            ciphertext@,
            wrapped_key@,
            pri_nonce@,
            all,
            quorum as int,
        ) by {
            assert(made[m] == shards@[m]@);
        }
        lemma_dealt_shape(made, ciphertext@, wrapped_key@, pri_nonce@, all, quorum as int);
        lemma_quorum_recovers(made, ciphertext@, wrapped_key@, pri_nonce@, all, quorum as int);
    }
    Ok(shards)
}

/// Makes a fresh key for each of `trustees` trustees and deals `ciphertext`
/// and `wrapped_key` out to them, so that `quorum` of them recover both.
///
/// The counts and the length of the wrapped key are tested before any key is
/// made: what [`refusal_for`] names is the error, whatever the random source
/// does. Else it fails only with `RandomSource`, where the operating system
/// delivers no random bytes.
pub fn distribute(
    ciphertext: &Vec<u8>,
    wrapped_key: &Vec<u8>,
    pri_nonce: &Vec<u8>,
    trustees: u8,
    quorum: u8,
) -> (result: Result<Vec<Shard>, CryptoError>)
    ensures
        match result {
            Ok(shards) => {
                let keys = crate::reconstruct::keys_in(shard_views(shards@));
                &&& refusal_for(wrapped_key@.len() as int, trustees as int, true, quorum as int)
                    is None
                &&& keys.len() == trustees
                &&& keys_fit(keys)
                &&& shard_views(shards@) == distributed(
                    ciphertext@,
                    wrapped_key@,
                    pri_nonce@,
                    keys,
                    quorum as int,
                )
                &&& dealt(
                    shard_views(shards@),
                    ciphertext@,
                    wrapped_key@,
                    pri_nonce@,
                    keys,
                    quorum as int,
                )
                &&& well_shaped(shard_views(shards@), trustees as int, quorum as int)
                &&& quorum_recovers(
                    shard_views(shards@),
                    quorum as int,
                    ciphertext@,
                    wrapped_key@,
                    pri_nonce@,
                )
            },
            Err(e) => e == CryptoError::RandomSource || refusal_for(
                wrapped_key@.len() as int,
                trustees as int,
                true,
                quorum as int,
            ) == Some(e),
        },
        refusal_for(wrapped_key@.len() as int, trustees as int, true, quorum as int) matches Some(
            e,
        ) ==> result == Err::<Vec<Shard>, CryptoError>(e),
{
    if quorum < 1 || quorum > trustees {
        return Err(CryptoError::ConfigurationError);
    }
    if combination_count(trustees as usize - 1, quorum as usize - 1).is_none() {
        return Err(CryptoError::ConfigurationError);
    }
    let len: usize = wrapped_key.len();
    if (len - len / (quorum as usize)) as u64 > MAX_MESSAGE_LEN {
        return Err(CryptoError::AESError);
    }
    let keys: Vec<Key> = match random_keys(trustees as usize) {
        Ok(keys) => keys,
        Err(e) => {
            return Err(e);
        },
    };
    proof {
        let all = key_views(keys@);
        assert forall|i: int| 0 <= i < all.len() implies key_fits(#[trigger] all[i]) by {
            assert(key_fits(keys@[i]@));
        }
    }
    match distribute_with(ciphertext, wrapped_key, pri_nonce, &keys, quorum) {
        Ok(shards) => {
            proof {
                assert(crate::reconstruct::keys_in(shard_views(shards@)) =~= key_views(keys@));
            }
            Ok(shards)
        },
        Err(e) => Err(e),
    }
}

} // verus!
