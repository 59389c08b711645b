//! What is written beside every deliverable.

use vstd::prelude::*;

verus! {

/// The version of the tool that made a deliverable, and a description for
/// whoever receives it.
#[derive(Debug)]
pub struct Meta {
    /// The version of the tool that made the deliverable.
    pub ver: String,
    /// Words for the receiver.
    pub desc: String,
}

impl Clone for Meta {
    fn clone(&self) -> (m: Self)
        ensures
            m == *self,
    {
        Meta { ver: self.ver.clone(), desc: self.desc.clone() }
    }
}

impl Meta {
    /// A record of version `ver` with description `desc`.
    pub fn new(ver: String, desc: String) -> (m: Self)
        ensures
            m.ver == ver,
            m.desc == desc,
    {
        Meta { ver: ver, desc: desc }
    }
}

} // verus!
