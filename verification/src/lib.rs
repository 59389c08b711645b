//! Quorum-protected encryption of a single file.
//!
//! A plaintext is sealed under a primary key. The primary key is wrapped once
//! for each canary, and the wrapped key and the ciphertext are cut into parts
//! and dealt out to trustees, so that any quorum of them can put both
//! together again, while every canary keeps a veto.
//!
//! - [`orchestrator`] encrypts and decrypts; its contracts say that what was
//!   encrypted is recovered by all canaries and any quorum of shards, and by
//!   nothing less.
//! - [`distribute`] and [`reconstruct`] deal out and recover; [`quorum_laws`]
//!   proves what one owes the other.
//! - [`canary_onion`] wraps and unwraps the primary key; [`onion_laws`] proves
//!   what one owes the other.
//! - [`parts`] cuts buffers and joins them, [`combos`] lists combinations,
//!   [`order`] sorts, [`aead`] seals and opens.
//! - [`models`] holds the data, [`errors`] the error type.

pub mod aead;
pub mod canary_onion;
pub mod combos;
pub mod distribute;
pub mod errors;
pub mod models;
pub mod onion_laws;
pub mod orchestrator;
pub mod order;
pub mod parts;
pub mod quorum_laws;
pub mod reconstruct;
