//! Encrypting a plaintext into canaries and shards, and recovering it from
//! them.

use vstd::prelude::*;
use crate::aead::aead_sealed;
use crate::aead::all_fit;
use crate::aead::fits;
use crate::aead::key_fits;
use crate::aead::keys_fit;
use crate::aead::open;
use crate::aead::opened;
use crate::aead::random_key;
use crate::aead::seal;
use crate::aead::KEY_LEN;
use crate::aead::MAX_MESSAGE_LEN;
use crate::aead::TAG_LEN;
use crate::canary_onion::canaries_of;
use crate::canary_onion::random_keys;
use crate::canary_onion::unwrap;
use crate::canary_onion::unwrapped;
use crate::canary_onion::wrap_with;
use crate::canary_onion::wrapped;
use crate::combos::binomial;
use crate::combos::combination_count;
use crate::combos::combination_limit;
use crate::distribute::dealt;
use crate::distribute::distribute_with;
use crate::distribute::distributed;
use crate::distribute::MAX_TRUSTEES;
use crate::errors::crypto_error::CryptoError;
use crate::models::canary::canary_views;
use crate::models::canary::Canary;
use crate::models::canary::CanaryView;
use crate::models::deliverable::Deliverable;
use crate::models::key::key_views;
use crate::models::key::Key;
use crate::models::key::KeyView;
use crate::models::shard::shard_views;
use crate::models::shard::Shard;
use crate::models::shard::ShardView;
use crate::onion_laws::lemma_canary_necessity;
use crate::onion_laws::lemma_unwrap_all;
use crate::order::distinct_places;
use crate::order::taken;
use crate::order::turned;
use crate::quorum_laws::lemma_quorum_necessity;
use crate::quorum_laws::lemma_quorum_of_one;
use crate::quorum_laws::lemma_quorum_sufficiency;
use crate::quorum_laws::well_shaped;
use crate::reconstruct::reconstruct;
use crate::reconstruct::reconstructed;
use crate::reconstruct::Recovered;

verus! {

/// What `canaries` and `shards` recover: the shards give the wrapped key and
/// the ciphertext, the canaries unwrap the key, and the key opens the
/// ciphertext.
///
/// A recovery goes from the deliverables at hand to a quorum found, to the
/// wrapped key recovered, to the plaintext recovered. It ends before that in
/// `QuorumUnavailable` or `QuorumDecryptFailure` where the shards do not give
/// the wrapped key, in `CanaryMismatch` where the canaries do not unwrap it,
/// and in `PrimaryDecryptFailure` where the key does not open the
/// ciphertext.
pub open spec fn decrypted(canaries: Seq<CanaryView>, shards: Seq<ShardView>) -> Result<
    Seq<u8>,
    CryptoError,
> {
    match reconstructed(shards) {
        Err(e) => Err(e),
        Ok(found) => match unwrapped(found.wrapped_key, canaries) {
            Err(e) => Err(e),
            Ok(primary) => match opened(
                KeyView { key: primary, nonce: found.pri_nonce },
                found.ciphertext,
            ) {
                Some(plaintext) => Ok(plaintext),
                None => Err(CryptoError::PrimaryDecryptFailure),
            },
        },
    }
}

/// Why nothing is encrypted, if so. The quorum is none or larger than the
/// number of trustees, or there are more than 255 canaries or trustees, or
/// more fragments for a trustee than are ever listed at once; a key does not
/// fit the cipher; the plaintext is too long to be sealed.
pub open spec fn encrypt_refusal(
    plaintext_len: int,
    keys_fit: bool,
    canaries: int,
    trustees: int,
    quorum: int,
) -> Option<CryptoError> {
    if !(1 <= quorum <= trustees <= MAX_TRUSTEES) || canaries > u8::MAX || binomial(
        trustees - 1,
        quorum - 1,
    ) > combination_limit() {
        Some(CryptoError::ConfigurationError)
    } else if !keys_fit {
        Some(CryptoError::InvalidLength)
    } else if plaintext_len > MAX_MESSAGE_LEN {
        Some(CryptoError::AESError)
    } else {
        None
    }
}

/// Nothing stands against encrypting a plaintext that the cipher takes for a
/// quorum of one or more among up to 26 trustees, and on a machine with
/// addresses of more than 32 bits among up to 32, whatever the number of
/// canaries, given keys that fit the cipher.
pub proof fn lemma_small_runs_accepted(
    plaintext_len: int,
    canaries: int,
    trustees: int,
    quorum: int,
)
    requires
        plaintext_len <= MAX_MESSAGE_LEN,
        canaries <= u8::MAX,
        1 <= quorum <= trustees,
        trustees <= 26 || (trustees <= 32 && usize::MAX > 0xffff_ffff),
    ensures
        encrypt_refusal(plaintext_len, true, canaries, trustees, quorum) is None,
{
    crate::combos::lemma_small_pools_within_limit((trustees - 1) as nat, quorum - 1);
}

/// The canaries and the shards that encrypting `plaintext` gives, with
/// `primary` for the primary key, one layer for each of `canary_keys`, and a
/// shard for each of `trustee_keys`.
pub open spec fn encrypted(
    plaintext: Seq<u8>,
    primary: KeyView,
    canary_keys: Seq<KeyView>,
    trustee_keys: Seq<KeyView>,
    quorum: int,
) -> (Seq<CanaryView>, Seq<ShardView>) {
    (
        canaries_of(canary_keys),
        distributed(
            aead_sealed(primary.key, primary.nonce, plaintext),
            wrapped(primary.key, canary_keys)->Some_0,
            primary.nonce,
            trustee_keys,
            quorum,
        ),
    )
}

/// What holds of the canaries and the shards that one encryption of
/// `plaintext` gives.
///
/// For a quorum of two or more, all canaries and a quorum or more of the
/// shards, each in any order, recover the plaintext, and a quorum or more of
/// the shards with fewer or more canaries than were made recover nothing.
/// Fewer shards than a quorum recover nothing, whatever canaries come with
/// them; for a quorum of one, no number of shards recovers anything, since a
/// recovery needs two members.
pub open spec fn recovery_laws(
    canaries: Seq<CanaryView>,
    shards: Seq<ShardView>,
    quorum: int,
    plaintext: Seq<u8>,
) -> bool {
    &&& forall|cs: Seq<int>, ss: Seq<int>|
        quorum >= 2 && distinct_places(cs, canaries.len() as int) && cs.len() == canaries.len()
            && distinct_places(ss, shards.len() as int) && ss.len() >= quorum
            ==> #[trigger] decrypted(taken(canaries, cs), taken(shards, ss)) == Ok::<
            Seq<u8>,
            CryptoError,
        >(plaintext)
    &&& forall|given: Seq<CanaryView>, ss: Seq<int>|
        distinct_places(ss, shards.len() as int) && (ss.len() < quorum || quorum == 1)
            ==> #[trigger] decrypted(given, taken(shards, ss)) == Err::<Seq<u8>, CryptoError>(
            CryptoError::QuorumUnavailable,
        )
    &&& forall|given: Seq<CanaryView>, ss: Seq<int>|
        quorum >= 2 && distinct_places(ss, shards.len() as int) && ss.len() >= quorum
            && given.len() != canaries.len() ==> #[trigger] decrypted(
            given,
            taken(shards, ss),
        ) == Err::<
            Seq<u8>,
            CryptoError,
        >(CryptoError::CanaryMismatch)
}

/// The places `0` to `n - 1`, in order.
pub open spec fn all_places(n: nat) -> Seq<int> {
    Seq::new(n, |i: int| i)
}

/// What is recovered from all canaries and all shards is what is recovered
/// from them taken at all their places.
pub proof fn lemma_all_taken(canaries: Seq<CanaryView>, shards: Seq<ShardView>)
    ensures
        taken(canaries, all_places(canaries.len())) == canaries,
        taken(shards, all_places(shards.len())) == shards,
        distinct_places(all_places(canaries.len()), canaries.len() as int),
        distinct_places(all_places(shards.len()), shards.len() as int),
{
    assert(taken(canaries, all_places(canaries.len())) =~= canaries);
    assert(taken(shards, all_places(shards.len())) =~= shards);
}

/// Encrypts `plaintext` under `primary`, wraps the primary secret once for
/// each of `canary_keys`, and deals ciphertext and wrapped key out to as many
/// trustees as there are `trustee_keys`, so that `quorum` of them recover
/// both. Gives one canary for each layer and one shard for each trustee.
/// A quorum of one is taken, but what it gives is recovered by nothing.
///
/// Everything is tested before anything is sealed. Fails with
/// `ConfigurationError`, `InvalidLength` or `AESError` as
/// [`encrypt_refusal`] says, and in no other case.
pub fn encrypt_with(
    plaintext: &Vec<u8>,
    primary: &Key,
    canary_keys: Vec<Key>,
    trustee_keys: &Vec<Key>,
    quorum: u8,
) -> (result: Result<(Vec<Canary>, Vec<Shard>), CryptoError>)
    ensures
        match result {
            Ok((canaries, shards)) => {
                &&& encrypt_refusal(
                    plaintext@.len() as int,
                    key_fits(primary@) && keys_fit(key_views(canary_keys@)) && keys_fit(
                        key_views(trustee_keys@),
                    ),
                    canary_keys@.len() as int,
                    trustee_keys@.len() as int,
                    quorum as int,
                ) is None
                &&& (canary_views(canaries@), shard_views(shards@)) == encrypted(
                    plaintext@,
                    primary@,
                    key_views(canary_keys@),
                    key_views(trustee_keys@),
                    quorum as int,
                )
                &&& well_shaped(shard_views(shards@), trustee_keys@.len() as int, quorum as int)
                &&& quorum >= 2 ==> decrypted(canary_views(canaries@), shard_views(shards@))
                    == Ok::<Seq<u8>, CryptoError>(plaintext@)
                &&& recovery_laws(
                    canary_views(canaries@),
                    shard_views(shards@),
                    quorum as int,
                    plaintext@,
                )
            },
            Err(e) => encrypt_refusal(
                plaintext@.len() as int,
                key_fits(primary@) && keys_fit(key_views(canary_keys@)) && keys_fit(
                    key_views(trustee_keys@),
                ),
                canary_keys@.len() as int,
                trustee_keys@.len() as int,
                quorum as int,
            ) == Some(e),
        },
{
    let trustees: usize = trustee_keys.len();
    if quorum < 1 || quorum as usize > trustees || trustees > MAX_TRUSTEES || canary_keys.len()
        > u8::MAX as usize {
        return Err(CryptoError::ConfigurationError);
    }
    if combination_count(trustees - 1, quorum as usize - 1).is_none() {
        return Err(CryptoError::ConfigurationError);
    }
    if !fits(primary) || !all_fit(&canary_keys) || !all_fit(trustee_keys) {
        return Err(CryptoError::InvalidLength);
    }
    if plaintext.len() as u64 > MAX_MESSAGE_LEN {
        return Err(CryptoError::AESError);
    }
    let ghost layer_keys = key_views(canary_keys@);
    let ciphertext: Vec<u8> = match seal(primary, plaintext.as_slice()) {
        Ok(ciphertext) => ciphertext,
        Err(e) => {
            return Err(e);
        },
    };
    let (wrapped_key, canaries) = match wrap_with(primary.key.clone(), canary_keys) {
        Ok(done) => done,
        Err(e) => {
            return Err(e);
        },
    };
    let shards: Vec<Shard> = match distribute_with(
        &ciphertext,
        &wrapped_key,
        &primary.nonce,
        trustee_keys,
        quorum,
    ) {
        Ok(shards) => shards,
        Err(e) => {
            return Err(e);
        },
    };
    proof {
        lemma_recovery(
            canary_views(canaries@),
            shard_views(shards@),
            plaintext@,
            primary@,
            layer_keys,
            key_views(trustee_keys@),
            quorum as int,
            ciphertext@,
            wrapped_key@,
        );
        lemma_all_taken(canary_views(canaries@), shard_views(shards@));
        if quorum >= 2 {
            assert(decrypted(
                taken(canary_views(canaries@), all_places(canary_views(canaries@).len())),
                taken(shard_views(shards@), all_places(shard_views(shards@).len())),
            ) == Ok::<Seq<u8>, CryptoError>(plaintext@));
        }
    }
    Ok((canaries, shards))
}

/// The canaries and shards of an encryption whose ciphertext opens, whose
/// onion layers open and whose shards were dealt out obey the
/// [`recovery_laws`].
pub proof fn lemma_recovery(
    canaries: Seq<CanaryView>,
    shards: Seq<ShardView>,
    plaintext: Seq<u8>,
    primary: KeyView,
    canary_keys: Seq<KeyView>,
    trustee_keys: Seq<KeyView>,
    quorum: int,
    ciphertext: Seq<u8>,
    wrapped_key: Seq<u8>,
)
    requires
        key_fits(primary),
        opened(primary, ciphertext) == Some(plaintext),
        canary_keys.len() <= u8::MAX,
        canaries == canaries_of(canary_keys),
        wrapped(primary.key, canary_keys) == Some(wrapped_key),
        wrapped_key.len() == KEY_LEN + TAG_LEN * canary_keys.len(),
        crate::canary_onion::layers_open(primary.key, canary_keys),
        dealt(shards, ciphertext, wrapped_key, primary.nonce, trustee_keys, quorum),
    ensures
        recovery_laws(canaries, shards, quorum, plaintext),
{
    assert forall|cs: Seq<int>, ss: Seq<int>|
        quorum >= 2 && distinct_places(cs, canaries.len() as int) && cs.len() == canaries.len()
            && distinct_places(ss, shards.len() as int) && ss.len() >= quorum
        implies #[trigger] decrypted(taken(canaries, cs), taken(shards, ss)) == Ok::<
        Seq<u8>,
        CryptoError,
    >(plaintext) by {
        lemma_quorum_sufficiency(
            shards,
            ciphertext,
            wrapped_key,
            primary.nonce,
            trustee_keys,
            quorum,
            ss,
        );
        lemma_unwrap_all(primary.key, canary_keys, wrapped_key, cs);
    }
    assert forall|given: Seq<CanaryView>, ss: Seq<int>|
        distinct_places(ss, shards.len() as int) && (ss.len() < quorum || quorum == 1)
        implies #[trigger] decrypted(given, taken(shards, ss)) == Err::<Seq<u8>, CryptoError>(
        CryptoError::QuorumUnavailable,
    ) by {
        if quorum == 1 {
            lemma_quorum_of_one(shards, ciphertext, wrapped_key, primary.nonce, trustee_keys, ss);
        } else {
            lemma_quorum_necessity(
                shards,
                ciphertext,
                wrapped_key,
                primary.nonce,
                trustee_keys,
                quorum,
                ss,
            );
        }
    }
    assert forall|given: Seq<CanaryView>, ss: Seq<int>|
        quorum >= 2 && distinct_places(ss, shards.len() as int) && ss.len() >= quorum
            && given.len() != canaries.len()
        implies #[trigger] decrypted(given, taken(shards, ss)) == Err::<
        Seq<u8>,
        CryptoError,
    >(CryptoError::CanaryMismatch) by {
        lemma_quorum_sufficiency(
            shards,
            ciphertext,
            wrapped_key,
            primary.nonce,
            trustee_keys,
            quorum,
            ss,
        );
        lemma_canary_necessity(wrapped_key, canary_keys.len() as int, given);
    }
}

/// Encrypts `plaintext` under a fresh primary key, wraps that key once for
/// each of `canary_count` canaries, and deals ciphertext and wrapped key out
/// to `trustees_count` trustees, so that `quorum_count` of them recover both.
/// Gives one canary for each layer and one shard for each trustee. A quorum
/// of one is taken, but what it gives is recovered by nothing.
///
/// The counts and the length of the plaintext are tested before any key is
/// made: what [`encrypt_refusal`] names is the error, whatever the random
/// source does. Else it fails only with `RandomSource`, where the operating
/// system delivers no random bytes.
pub fn encrypt(
    plaintext: &Vec<u8>,
    canary_count: u8,
    quorum_count: u8,
    trustees_count: u8,
) -> (result: Result<(Vec<Canary>, Vec<Shard>), CryptoError>)
    ensures
        match result {
            Ok((canaries, shards)) => {
                &&& encrypt_refusal(
                    plaintext@.len() as int,
                    true,
                    canary_count as int,
                    trustees_count as int,
                    quorum_count as int,
                ) is None
                &&& exists|primary: KeyView, canary_keys: Seq<KeyView>, trustee_keys: Seq<KeyView>|
                    key_fits(primary) && canary_keys.len() == canary_count && keys_fit(canary_keys)
                        && trustee_keys.len() == trustees_count && keys_fit(trustee_keys) && (
                    canary_views(canaries@),
                    shard_views(shards@),
                ) == #[trigger] encrypted(
                        plaintext@,
                        primary,
                        canary_keys,
                        trustee_keys,
                        quorum_count as int,
                    )
                &&& canaries@.len() == canary_count
                &&& forall|l: int| 0 <= l < canary_count ==> (#[trigger] canaries@[l]).layer == l
                &&& well_shaped(shard_views(shards@), trustees_count as int, quorum_count as int)
                &&& quorum_count >= 2 ==> decrypted(
                    canary_views(canaries@),
                    shard_views(shards@),
                ) == Ok::<Seq<u8>, CryptoError>(plaintext@)
                &&& recovery_laws(
                    canary_views(canaries@),
                    shard_views(shards@),
                    quorum_count as int,
                    plaintext@,
                )
            },
            Err(e) => e == CryptoError::RandomSource || encrypt_refusal(
                plaintext@.len() as int,
                true,
                canary_count as int,
                trustees_count as int,
                quorum_count as int,
            ) == Some(e),
        },
        encrypt_refusal(
            plaintext@.len() as int,
            true,
            canary_count as int,
            trustees_count as int,
            quorum_count as int,
        ) matches Some(e) ==> result == Err::<(Vec<Canary>, Vec<Shard>), CryptoError>(e),
{
    if quorum_count < 1 || quorum_count > trustees_count {
        return Err(CryptoError::ConfigurationError);
    }
    if combination_count(trustees_count as usize - 1, quorum_count as usize - 1).is_none() {
        return Err(CryptoError::ConfigurationError);
    }
    if plaintext.len() as u64 > MAX_MESSAGE_LEN {
        return Err(CryptoError::AESError);
    }
    let primary: Key = match random_key() {
        Ok(key) => key,
        Err(e) => {
            return Err(e);
        },
    };
    let canary_keys: Vec<Key> = match random_keys(canary_count as usize) {
        Ok(keys) => keys,
        Err(e) => {
            return Err(e);
        },
    };
    let trustee_keys: Vec<Key> = match random_keys(trustees_count as usize) {
        Ok(keys) => keys,
        Err(e) => {
            return Err(e);
        },
    };
    proof {
        let layer_keys = key_views(canary_keys@);
        assert forall|i: int| 0 <= i < layer_keys.len() implies key_fits(
            #[trigger] layer_keys[i],
        ) by {
            assert(key_fits(canary_keys@[i]@));
        }
        let own_keys = key_views(trustee_keys@);
        assert forall|i: int| 0 <= i < own_keys.len() implies key_fits(#[trigger] own_keys[i]) by {
            assert(key_fits(trustee_keys@[i]@));
        }
    }
    let ghost layer_keys = key_views(canary_keys@);
    match encrypt_with(plaintext, &primary, canary_keys, &trustee_keys, quorum_count) {
        Ok((canaries, shards)) => {
            proof {
                assert forall|l: int| 0 <= l < canary_count implies (#[trigger] canaries@[l]).layer
                    == l by {
                    assert(canary_views(canaries@)[l] == canaries_of(layer_keys)[l]);
                }
                assert((canary_views(canaries@), shard_views(shards@)) == encrypted(
                    plaintext@,
                    primary@,
                    layer_keys,
                    key_views(trustee_keys@),
                    quorum_count as int,
                ));
            }
            Ok((canaries, shards))
        },
        Err(e) => Err(e),
    }
}

/// Recovers the plaintext from `canaries` and `shards`, each in any order,
/// the shards a quorum or more.
///
/// Fails with `QuorumUnavailable` or `QuorumDecryptFailure` where the shards
/// do not give the wrapped key, with `CanaryMismatch` where the canaries do
/// not unwrap it, and with `PrimaryDecryptFailure` where the key does not
/// open the ciphertext.
pub fn decrypt(canaries: &Vec<Canary>, shards: &Vec<Shard>) -> (result: Result<
    Vec<u8>,
    CryptoError,
>)
    ensures
        match result {
            Ok(plaintext) => decrypted(canary_views(canaries@), shard_views(shards@)) == Ok::<
                Seq<u8>,
                CryptoError,
            >(plaintext@),
            Err(e) => decrypted(canary_views(canaries@), shard_views(shards@)) == Err::<
                Seq<u8>,
                CryptoError,
            >(e),
        },
{
    let found: Recovered = match reconstruct(shards) {
        Ok(found) => found,
        Err(e) => {
            return Err(e);
        },
    };
    let Recovered { wrapped_key, ciphertext, pri_nonce } = found;
    let primary: Vec<u8> = match unwrap(wrapped_key, canaries) {
        Ok(primary) => primary,
        Err(e) => {
            return Err(e);
        },
    };
    let key: Key = Key::new(primary, pri_nonce);
    match open(&key, ciphertext.as_slice()) {
        Some(plaintext) => Ok(plaintext),
        None => Err(CryptoError::PrimaryDecryptFailure),
    }
}

/// The canaries among `deliverables`, in order.
pub open spec fn canaries_among(deliverables: Seq<Deliverable>) -> Seq<Canary>
    decreases deliverables.len(),
{
    if deliverables.len() == 0 {
        Seq::empty()
    } else {
        match deliverables.last() {
            Deliverable::Canary(canary) => canaries_among(deliverables.drop_last()).push(canary),
            Deliverable::Shard(_) => canaries_among(deliverables.drop_last()),
        }
    }
}

/// The shards among `deliverables`, in order.
pub open spec fn shards_among(deliverables: Seq<Deliverable>) -> Seq<Shard>
    decreases deliverables.len(),
{
    if deliverables.len() == 0 {
        Seq::empty()
    } else {
        match deliverables.last() {
            Deliverable::Canary(_) => shards_among(deliverables.drop_last()),
            Deliverable::Shard(shard) => shards_among(deliverables.drop_last()).push(shard),
        }
    }
}

/// Parts `deliverables` into the canaries and the shards among them, each in
/// the order in which they came.
pub fn sort_deliverables(deliverables: Vec<Deliverable>) -> (result: (Vec<Canary>, Vec<Shard>))
    ensures
        result.0@ == canaries_among(deliverables@),
        result.1@ == shards_among(deliverables@),
{
    let ghost all = deliverables@;
    let mut canaries: Vec<Canary> = Vec::new();
    let mut shards: Vec<Shard> = Vec::new();
    // Taking from the end of the turned list takes the first first.
    let mut back: Vec<Deliverable> = turned(deliverables);
    let ghost mut done: int = 0;
    proof {
        assert(all.take(0) =~= Seq::<Deliverable>::empty());
    }
    while back.len() > 0
        invariant
            0 <= done,
            done + back@.len() == all.len(),
            forall|i: int| 0 <= i < back@.len() ==> back@[i] == all[all.len() - 1 - i],
            canaries@ == canaries_among(all.take(done)),
            shards@ == shards_among(all.take(done)),
        decreases back@.len(),
    {
        proof {
            assert(all.take(done + 1).drop_last() =~= all.take(done));
            assert(all.take(done + 1).last() == all[done]);
            assert(back@[back@.len() - 1] == all[done]);
        }
        match back.pop() {
            Some(Deliverable::Canary(canary)) => {
                canaries.push(canary);
            },
            Some(Deliverable::Shard(shard)) => {
                shards.push(shard);
            },
            None => {},
        }
        proof {
            done = done + 1;
        }
    }
    proof {
        assert(all.take(all.len() as int) =~= all);
    }
    (canaries, shards)
}

} // verus!
