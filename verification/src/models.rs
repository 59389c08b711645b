//! The data that encryption hands out and recovery takes in.

pub mod canary;
pub mod deliverable;
pub mod fragment;
pub mod key;
pub mod meta;
pub mod payload;
pub mod shard;
