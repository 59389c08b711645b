//! Error types.

pub mod crypto_error;
