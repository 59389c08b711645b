//! Shards: what one trustee is given.

use vstd::prelude::*;
use crate::models::fragment::fragment_views;
use crate::models::fragment::Fragment;
use crate::models::fragment::FragmentView;
use crate::models::key::Key;
use crate::models::key::KeyView;

verus! {

/// What one trustee is given: a key of its own, the primary nonce, and one
/// fragment for each combination of other trustees that completes a quorum
/// with it.
#[derive(Debug)]
pub struct Shard {
    /// One fragment for each combination of other trustees.
    pub fragments: Vec<Fragment>,
    /// The trustee's key, which opens fragments in other shards.
    pub key: Key,
    /// The trustee's ordinal.
    pub owner: u8,
    /// The nonce that goes with the primary key.
    pub pri_nonce: Vec<u8>,
}

/// What a [`Shard`] holds, as plain values.
pub struct ShardView {
    pub fragments: Seq<FragmentView>,
    pub key: KeyView,
    pub owner: u8,
    pub pri_nonce: Seq<u8>,
}

impl View for Shard {
    type V = ShardView;

    open spec fn view(&self) -> ShardView {
        ShardView {
            fragments: fragment_views(self.fragments@),
            key: self.key@,
            owner: self.owner,
            pri_nonce: self.pri_nonce@,
        }
    }
}

/// The views of `shards`, in order.
pub open spec fn shard_views(shards: Seq<Shard>) -> Seq<ShardView> {
    shards.map_values(|s: Shard| s@)
}

impl Shard {
    /// The shard of trustee `owner`, without fragments yet.
    pub fn new(owner: u8, key: Key, pri_nonce: Vec<u8>) -> (s: Self)
        ensures
            s.fragments@.len() == 0,
            s.key == key,
            s.owner == owner,
            s.pri_nonce == pri_nonce,
    {
        Shard { fragments: Vec::new(), key: key, owner: owner, pri_nonce: pri_nonce }
    }
}

} // verus!
