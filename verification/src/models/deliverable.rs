//! What is handed to one party: a canary or a shard.

use vstd::prelude::*;
use crate::models::canary::Canary;
use crate::models::shard::Shard;

verus! {

/// What is handed to one party.
#[derive(Debug)]
pub enum Deliverable {
    /// A canary's key.
    Canary(Canary),
    /// A trustee's shard.
    Shard(Shard),
}

} // verus!
