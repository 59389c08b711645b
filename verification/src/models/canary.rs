//! Canaries: each holds the key of one layer round the primary key.

use vstd::prelude::*;
use crate::models::key::Key;
use crate::models::key::KeyView;

verus! {

/// The key of one layer of the onion round the primary key.
#[derive(Debug)]
pub struct Canary {
    /// The key and nonce under which the layer was sealed.
    pub key: Key,
    /// The place of the layer, counted from the innermost.
    pub layer: u8,
}

/// What a [`Canary`] holds, as plain values.
pub struct CanaryView {
    pub key: KeyView,
    pub layer: u8,
}

impl View for Canary {
    type V = CanaryView;

    open spec fn view(&self) -> CanaryView {
        CanaryView { key: self.key@, layer: self.layer }
    }
}

/// The views of `canaries`, in order.
pub open spec fn canary_views(canaries: Seq<Canary>) -> Seq<CanaryView> {
    canaries.map_values(|c: Canary| c@)
}

impl Canary {
    /// The canary of layer `layer`, sealed under `key`.
    pub fn new(key: Key, layer: u8) -> (c: Self)
        ensures
            c.key == key,
            c.layer == layer,
    {
        Canary { key: key, layer: layer }
    }
}

} // verus!
