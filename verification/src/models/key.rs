//! Keys, and the XOR by which several keys become one.

use vstd::prelude::*;
use vstd::seq_lib::commutative_foldl;
use vstd::seq_lib::lemma_fold_left_permutation;
use crate::aead::KEY_LEN;
use crate::aead::NONCE_LEN;

verus! {

/// A secret with the nonce that goes with it. Canaries and trustees each hold
/// one.
#[derive(Debug)]
pub struct Key {
    /// The secret.
    pub key: Vec<u8>,
    /// The nonce used with the secret.
    pub nonce: Vec<u8>,
}

/// What a [`Key`] holds, as plain sequences.
pub struct KeyView {
    pub key: Seq<u8>,
    pub nonce: Seq<u8>,
}

impl View for Key {
    type V = KeyView;

    open spec fn view(&self) -> KeyView {
        KeyView { key: self.key@, nonce: self.nonce@ }
    }
}

/// Byte `i` of `s`, and zero beyond its end.
pub open spec fn byte_at(s: Seq<u8>, i: int) -> u8 {
    if 0 <= i < s.len() {
        s[i]
    } else {
        0u8
    }
}

/// The bytewise XOR of `a` and `b`, the shorter one continued with zeros.
pub open spec fn xor_seqs(a: Seq<u8>, b: Seq<u8>) -> Seq<u8> {
    Seq::new(
        if a.len() >= b.len() {
            a.len()
        } else {
            b.len()
        },
        |i: int| byte_at(a, i) ^ byte_at(b, i),
    )
}

/// The XOR of two keys: of their secrets and of their nonces.
pub open spec fn xor_pair(a: KeyView, b: KeyView) -> KeyView {
    KeyView { key: xor_seqs(a.key, b.key), nonce: xor_seqs(a.nonce, b.nonce) }
}

/// The key with an empty secret and an empty nonce.
pub open spec fn empty_key() -> KeyView {
    KeyView { key: Seq::empty(), nonce: Seq::empty() }
}

/// The all-zero key: a secret and a nonce of the sizes the cipher takes, every
/// byte of them zero.
pub open spec fn zero_key() -> KeyView {
    KeyView {
        key: Seq::new(KEY_LEN as nat, |i: int| 0u8),
        nonce: Seq::new(NONCE_LEN as nat, |i: int| 0u8),
    }
}

/// All `keys` XOR-ed, one after the other, onto the empty key: secret and
/// nonce each as long as the longest that went in.
pub open spec fn xor_all(keys: Seq<KeyView>) -> KeyView
    decreases keys.len(),
{
    if keys.len() == 0 {
        empty_key()
    } else {
        xor_pair(xor_all(keys.drop_last()), keys.last())
    }
}

/// The XOR of all `keys`, and the all-zero key where there are none.
pub open spec fn combine(keys: Seq<KeyView>) -> KeyView {
    if keys.len() == 0 {
        zero_key()
    } else {
        xor_all(keys)
    }
}

/// The views of `keys`, in order.
pub open spec fn key_views(keys: Seq<Key>) -> Seq<KeyView> {
    keys.map_values(|k: Key| k@)
}

/// XOR of bytes is commutative and associative.
proof fn lemma_xor_bytes(a: u8, b: u8, c: u8)
    ensures
        a ^ b == b ^ a,
        (a ^ b) ^ c == (a ^ c) ^ b,
        0u8 ^ 0u8 == 0u8,
        a ^ 0u8 == a,
{
    assert(a ^ b == b ^ a) by (bit_vector);
    assert((a ^ b) ^ c == (a ^ c) ^ b) by (bit_vector);
    assert(0u8 ^ 0u8 == 0u8) by (bit_vector);
    assert(a ^ 0u8 == a) by (bit_vector);
}

/// XOR-ing two sequences onto a third gives the same in either order.
pub proof fn lemma_xor_seqs_swap(v: Seq<u8>, x: Seq<u8>, y: Seq<u8>)
    ensures
        xor_seqs(xor_seqs(v, x), y) == xor_seqs(xor_seqs(v, y), x),
{
    let left = xor_seqs(xor_seqs(v, x), y);
    let right = xor_seqs(xor_seqs(v, y), x);
    assert(left.len() == right.len());
    assert forall|i: int| 0 <= i < left.len() implies left[i] == right[i] by {
        lemma_xor_bytes(byte_at(v, i), byte_at(x, i), byte_at(y, i));
    }
    assert(left =~= right);
}

/// The XOR of keys does not depend on the order in which they are given.
pub proof fn lemma_combine_permutation(a: Seq<KeyView>, b: Seq<KeyView>)
    requires
        a.to_multiset() == b.to_multiset(),
    ensures
        combine(a) == combine(b),
{
    let f = |acc: KeyView, k: KeyView| xor_pair(acc, k);
    assert(commutative_foldl(f)) by {
        assert forall|x: KeyView, y: KeyView, v: KeyView| #[trigger]
            f(f(v, x), y) == f(f(v, y), x) by {
            lemma_xor_seqs_swap(v.key, x.key, y.key);
            lemma_xor_seqs_swap(v.nonce, x.nonce, y.nonce);
        }
    }
    lemma_xor_all_is_fold(a);
    lemma_xor_all_is_fold(b);
    lemma_fold_left_permutation(a, b, f, empty_key());
    a.to_multiset_ensures();
    b.to_multiset_ensures();
}

proof fn lemma_xor_all_is_fold(keys: Seq<KeyView>)
    ensures
        xor_all(keys) == keys.fold_left(empty_key(), |acc: KeyView, k: KeyView| xor_pair(acc, k)),
    decreases keys.len(),
{
    if keys.len() > 0 {
        lemma_xor_all_is_fold(keys.drop_last());
    }
}

/// No key to combine gives the all-zero key, of 32 and 12 zero bytes; one key
/// gives itself back.
pub proof fn lemma_combine_small(k: KeyView)
    ensures
        combine(Seq::<KeyView>::empty()).key.len() == KEY_LEN,
        combine(Seq::<KeyView>::empty()).nonce.len() == NONCE_LEN,
        forall|i: int| 0 <= i < KEY_LEN ==> combine(Seq::<KeyView>::empty()).key[i] == 0,
        forall|i: int| 0 <= i < NONCE_LEN ==> combine(Seq::<KeyView>::empty()).nonce[i] == 0,
        combine(seq![k]) == k,
{
    let one = seq![k];
    assert(one.drop_last() =~= Seq::<KeyView>::empty());
    assert(xor_all(one.drop_last()) == empty_key());
    assert(combine(one) == xor_pair(empty_key(), k));
    assert forall|i: int| 0 <= i < k.key.len() implies xor_seqs(empty_key().key, k.key)[i]
        == k.key[i] by {
        lemma_xor_bytes(k.key[i], 0u8, 0u8);
    }
    assert forall|i: int| 0 <= i < k.nonce.len() implies xor_seqs(empty_key().nonce, k.nonce)[i]
        == k.nonce[i] by {
        lemma_xor_bytes(k.nonce[i], 0u8, 0u8);
    }
    assert(xor_seqs(empty_key().key, k.key) =~= k.key);
    assert(xor_seqs(empty_key().nonce, k.nonce) =~= k.nonce);
}

impl Key {
    /// A key made of `key` and `nonce`.
    pub fn new(key: Vec<u8>, nonce: Vec<u8>) -> (k: Self)
        ensures
            k.key == key,
            k.nonce == nonce,
    {
        Key { key: key, nonce: nonce }
    }

    /// A copy of this key.
    pub fn clone(&self) -> (k: Self)
        ensures
            k@ == self@,
    {
        Key { key: self.key.clone(), nonce: self.nonce.clone() }
    }

    /// The XOR of all `keys`: of their secrets and of their nonces, each as
    /// long as the longest that went in. No keys give the all-zero key, of 32
    /// and 12 zero bytes.
    pub fn xor_keys(keys: &[Key]) -> (k: Self)
        ensures
            k@ == combine(key_views(keys@)),
    {
        if keys.len() == 0 {
            let zero = Key { key: vec![0u8; KEY_LEN], nonce: vec![0u8; NONCE_LEN] };
            assert(zero.key@ =~= zero_key().key);
            assert(zero.nonce@ =~= zero_key().nonce);
            return zero;
        }
        let mut key_result: Vec<u8> = Vec::new();
        let mut nonce_result: Vec<u8> = Vec::new();
        let mut i: usize = 0;
        assert(key_views(keys@).take(0) =~= Seq::<KeyView>::empty());
        while i < keys.len()
            invariant
                i <= keys.len(),
                (KeyView { key: key_result@, nonce: nonce_result@ }) == xor_all(
                    key_views(keys@).take(i as int),
                ),
            decreases keys.len() - i,
        {
            proof {
                let done = key_views(keys@).take(i as int);
                assert(key_views(keys@).take(i + 1).drop_last() =~= done);
                assert(key_views(keys@).take(i + 1).last() == keys@[i as int]@);
            }
            key_result = Self::xor_vecs(key_result.as_slice(), keys[i].key.as_slice());
            nonce_result = Self::xor_vecs(nonce_result.as_slice(), keys[i].nonce.as_slice());
            i += 1;
        }
        assert(key_views(keys@).take(keys.len() as int) =~= key_views(keys@));
        Key { key: key_result, nonce: nonce_result }
    }

    /// The bytewise XOR of `vec1` and `vec2`, the shorter one continued with
    /// zeros.
    pub fn xor_vecs(vec1: &[u8], vec2: &[u8]) -> (result: Vec<u8>)
        ensures
            result@ == xor_seqs(vec1@, vec2@),
    {
        let max_len: usize = if vec1.len() >= vec2.len() {
            vec1.len()
        } else {
            vec2.len()
        };
        let mut result: Vec<u8> = Vec::with_capacity(max_len);
        let mut i: usize = 0;
        while i < max_len
            invariant
                i <= max_len,
                max_len == xor_seqs(vec1@, vec2@).len(),
                result@ =~= xor_seqs(vec1@, vec2@).take(i as int),
            decreases max_len - i,
        {
            let b1: u8 = if i < vec1.len() {
                vec1[i]
            } else {
                0
            };
            let b2: u8 = if i < vec2.len() {
                vec2[i]
            } else {
                0
            };
            result.push(b1 ^ b2);
            i += 1;
        }
        result
    }
}

} // verus!
