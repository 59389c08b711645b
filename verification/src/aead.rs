//! Authenticated encryption under a key and its nonce, and fresh random
//! bytes.
//!
//! The cipher is AES-256-GCM-SIV. Verus does not look into it: what it
//! returns is named here, and the few facts stated of it are the ones the
//! rest of the library builds on.

use vstd::prelude::*;
use aes_gcm_siv::aead::rand_core::RngCore;
use aes_gcm_siv::aead::Aead;
use aes_gcm_siv::aead::KeyInit;
use aes_gcm_siv::aead::OsRng;
use aes_gcm_siv::Aes256GcmSiv;
use aes_gcm_siv::Nonce;
use crate::errors::crypto_error::CryptoError;
use crate::models::key::key_views;
use crate::models::key::Key;
use crate::models::key::KeyView;

verus! {

/// Bytes in a secret.
pub const KEY_LEN: usize = 32;

/// Bytes in a nonce.
pub const NONCE_LEN: usize = 12;

/// Bytes by which a sealed message is longer than the message.
pub const TAG_LEN: usize = 16;

/// The longest message the cipher seals, in bytes.
pub const MAX_MESSAGE_LEN: u64 = 0x10_0000_0000;

/// What `Aead::encrypt` of `aes_gcm_siv::Aes256GcmSiv` gives for `msg` under
/// a 32-byte `key` and a 12-byte `nonce`, without associated data: the
/// encrypted message followed by its tag.
pub uninterp spec fn aead_sealed(key: Seq<u8>, nonce: Seq<u8>, msg: Seq<u8>) -> Seq<u8>;

/// What `Aead::decrypt` of `aes_gcm_siv::Aes256GcmSiv` recovers from
/// `sealed` under a 32-byte `key` and a 12-byte `nonce`, without associated
/// data; `None` where it reports an error.
pub uninterp spec fn aead_opened(key: Seq<u8>, nonce: Seq<u8>, sealed: Seq<u8>) -> Option<Seq<u8>>;

/// The error of `Aead::encrypt` and `Aead::decrypt`, which tells nothing but
/// that they failed.
#[verifier::external_type_specification]
#[verifier::external_body]
pub struct ExAeadError(aes_gcm_siv::Error);

/// The error of `RngCore::try_fill_bytes`. Nothing is read from it.
#[verifier::external_type_specification]
#[verifier::external_body]
pub struct ExRandomError(aes_gcm_siv::aead::rand_core::Error);

/// `Aead::encrypt` of `aes_gcm_siv::Aes256GcmSiv`, on a cipher made of `key`
/// by `KeyInit::new`.
///
/// Believed of it: it fails exactly on a message of more than 2^36 bytes;
/// what it returns depends on key, nonce and message alone, is 16 bytes
/// longer than the message, and is opened again by `Aead::decrypt` under the
/// same key and nonce.
#[verifier::external_body]
fn aead_encrypt(key: &[u8], nonce: &[u8], msg: &[u8]) -> (result: Result<
    Vec<u8>,
    aes_gcm_siv::Error,
>)
    requires
        key@.len() == KEY_LEN,
        nonce@.len() == NONCE_LEN,
    ensures
        result is Ok <==> msg@.len() <= MAX_MESSAGE_LEN,
        result matches Ok(sealed) ==> sealed@ == aead_sealed(key@, nonce@, msg@),
        result matches Ok(sealed) ==> sealed@.len() == msg@.len() + TAG_LEN,
        result matches Ok(sealed) ==> aead_opened(key@, nonce@, sealed@) == Some(msg@),
{
    let cipher = Aes256GcmSiv::new(aes_gcm_siv::Key::<Aes256GcmSiv>::from_slice(key));
    cipher.encrypt(Nonce::from_slice(nonce), msg)
}

/// `Aead::decrypt` of `aes_gcm_siv::Aes256GcmSiv`, on a cipher made of `key`
/// by `KeyInit::new`.
///
/// Believed of it: whether it succeeds and what it returns depend on key,
/// nonce and sealed message alone.
#[verifier::external_body]
fn aead_decrypt(key: &[u8], nonce: &[u8], sealed: &[u8]) -> (result: Result<
    Vec<u8>,
    aes_gcm_siv::Error,
>)
    requires
        key@.len() == KEY_LEN,
        nonce@.len() == NONCE_LEN,
    ensures
        result matches Ok(msg) ==> aead_opened(key@, nonce@, sealed@) == Some(msg@),
        result is Err ==> aead_opened(key@, nonce@, sealed@) is None,
{
    let cipher = Aes256GcmSiv::new(aes_gcm_siv::Key::<Aes256GcmSiv>::from_slice(key));
    cipher.decrypt(Nonce::from_slice(nonce), sealed)
}

/// `RngCore::try_fill_bytes` of `rand_core::OsRng`, on a buffer of `len`
/// bytes.
///
/// Believed of it: where it succeeds, the buffer still has `len` bytes.
/// Nothing is said of the bytes.
#[verifier::external_body]
fn os_random(len: usize) -> (result: Result<Vec<u8>, aes_gcm_siv::aead::rand_core::Error>)
    ensures
        result matches Ok(bytes) ==> bytes@.len() == len,
{
    let mut bytes = vec![0u8; len];
    OsRng.try_fill_bytes(&mut bytes).map(|_| bytes)
}

/// `key` has a secret and a nonce of the sizes the cipher takes.
pub open spec fn key_fits(key: KeyView) -> bool {
    key.key.len() == KEY_LEN && key.nonce.len() == NONCE_LEN
}

/// `msg` sealed under `key`; `None` where the key does not fit the cipher or
/// the message is too long for it.
pub open spec fn sealed(key: KeyView, msg: Seq<u8>) -> Option<Seq<u8>> {
    if key_fits(key) && msg.len() <= MAX_MESSAGE_LEN {
        Some(aead_sealed(key.key, key.nonce, msg))
    } else {
        None
    }
}

/// What `sealed` opens to under `key`; `None` where the key does not fit the
/// cipher or the cipher rejects the sealed message.
pub open spec fn opened(key: KeyView, sealed: Seq<u8>) -> Option<Seq<u8>> {
    if key_fits(key) {
        aead_opened(key.key, key.nonce, sealed)
    } else {
        None
    }
}

/// The view of the bytes in `v`, where there are any.
pub open spec fn bytes_view(v: Option<Vec<u8>>) -> Option<Seq<u8>> {
    match v {
        Some(bytes) => Some(bytes@),
        None => None,
    }
}

/// Whether `key` has a secret and a nonce of the sizes the cipher takes.
pub fn fits(key: &Key) -> (b: bool)
    ensures
        b == key_fits(key@),
{
    key.key.len() == KEY_LEN && key.nonce.len() == NONCE_LEN
}

/// Seals `msg` under `key`. Fails with `InvalidLength` where the key does not
/// fit the cipher, else with `AESError` where the message is too long.
pub fn seal(key: &Key, msg: &[u8]) -> (result: Result<Vec<u8>, CryptoError>)
    ensures
        match result {
            Ok(out) => sealed(key@, msg@) == Some(out@) && opened(key@, out@) == Some(msg@)
                && out@.len() == msg@.len() + TAG_LEN,
            Err(e) => sealed(key@, msg@) is None && e == if key_fits(key@) {
                CryptoError::AESError
            } else {
                CryptoError::InvalidLength
            },
        },
{
    if !fits(key) {
        return Err(CryptoError::InvalidLength);
    }
    match aead_encrypt(key.key.as_slice(), key.nonce.as_slice(), msg) {
        Ok(out) => Ok(out),
        Err(_) => Err(CryptoError::AESError),
    }
}

/// Opens `sealed` under `key`; `None` where the key does not fit the cipher
/// or the cipher rejects the sealed message.
pub fn open(key: &Key, sealed: &[u8]) -> (result: Option<Vec<u8>>)
    ensures
        bytes_view(result) == opened(key@, sealed@),
{
    if !fits(key) {
        return None;
    }
    match aead_decrypt(key.key.as_slice(), key.nonce.as_slice(), sealed) {
        Ok(msg) => Some(msg),
        Err(_) => None,
    }
}

/// `len` fresh bytes from the operating system, or `RandomSource` where it
/// delivers none. For no bytes the operating system is not asked.
pub fn random_bytes(len: usize) -> (result: Result<Vec<u8>, CryptoError>)
    ensures
        match result {
            Ok(bytes) => bytes@.len() == len,
            Err(e) => e == CryptoError::RandomSource,
        },
        len == 0 ==> result is Ok,
{
    if len == 0 {
        return Ok(Vec::new());
    }
    match os_random(len) {
        Ok(bytes) => Ok(bytes),
        Err(_) => Err(CryptoError::RandomSource),
    }
}

/// A fresh key: a random secret and a random nonce of the sizes the cipher
/// takes.
pub fn random_key() -> (result: Result<Key, CryptoError>)
    ensures
        match result {
            Ok(key) => key_fits(key@),
            Err(e) => e == CryptoError::RandomSource,
        },
{
    let secret: Vec<u8> = match random_bytes(KEY_LEN) {
        Ok(bytes) => bytes,
        Err(e) => {
            return Err(e);
        },
    };
    let nonce: Vec<u8> = match random_bytes(NONCE_LEN) {
        Ok(bytes) => bytes,
        Err(e) => {
            return Err(e);
        },
    };
    Ok(Key::new(secret, nonce))
}

/// Every one of `keys` fits the cipher.
pub open spec fn keys_fit(keys: Seq<KeyView>) -> bool {
    forall|i: int| 0 <= i < keys.len() ==> key_fits(#[trigger] keys[i])
}

/// Whether every one of `keys` fits the cipher.
pub fn all_fit(keys: &Vec<Key>) -> (b: bool)
    ensures
        b == keys_fit(key_views(keys@)),
{
    let mut i: usize = 0;
    while i < keys.len()
        invariant
            i <= keys.len(),
            forall|m: int| 0 <= m < i ==> key_fits(#[trigger] key_views(keys@)[m]),
        decreases keys.len() - i,
    {
        if !fits(&keys[i]) {
            assert(!key_fits(key_views(keys@)[i as int]));
            return false;
        }
        i += 1;
    }
    true
}

} // verus!
