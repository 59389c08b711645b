//! Fragments: what one trustee holds for one combination of other trustees.

use vstd::prelude::*;

verus! {

/// What a trustee holds for one combination of other trustees: the
/// ciphertext and the wrapped key, each without the part that stands for the
/// trustee, the latter sealed under the combination's key.
#[derive(Debug)]
pub struct Fragment {
    /// The ciphertext without the holder's part.
    pub ciphertext: Vec<u8>,
    /// The wrapped primary key without the holder's part, sealed.
    pub key: Vec<u8>,
    /// The other trustees whose keys open `key`, ascending.
    pub owners: Vec<u8>,
}

/// What a [`Fragment`] holds, as plain sequences.
pub struct FragmentView {
    pub ciphertext: Seq<u8>,
    pub key: Seq<u8>,
    pub owners: Seq<u8>,
}

impl View for Fragment {
    type V = FragmentView;

    open spec fn view(&self) -> FragmentView {
        FragmentView { ciphertext: self.ciphertext@, key: self.key@, owners: self.owners@ }
    }
}

/// The views of `fragments`, in order.
pub open spec fn fragment_views(fragments: Seq<Fragment>) -> Seq<FragmentView> {
    fragments.map_values(|f: Fragment| f@)
}

impl Fragment {
    /// A fragment made of its three fields.
    pub fn new(ciphertext: Vec<u8>, key: Vec<u8>, owners: Vec<u8>) -> (f: Self)
        ensures
            f.ciphertext == ciphertext,
            f.key == key,
            f.owners == owners,
    {
        Fragment { ciphertext: ciphertext, key: key, owners: owners }
    }
}

} // verus!
