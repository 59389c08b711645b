//! The one error type of the library.

use vstd::prelude::*;
use vstd::string::StringExecFns;

verus! {

/// Why an encryption or a recovery stopped.
#[derive(Debug, PartialEq, Eq)]
pub enum CryptoError {
    /// The cipher refused to encrypt a message (it is longer than the cipher
    /// accepts).
    AESError,
    /// A key to encrypt under is not key-sized, or its nonce not nonce-sized.
    InvalidLength,
    /// A part was asked for that the partition does not have.
    OutOfRange,
    /// The quorum, the trustee count or the resulting fragment count is not
    /// acceptable.
    ConfigurationError,
    /// The operating system delivered no random bytes.
    RandomSource,
    /// A canary is wrong or missing.
    CanaryMismatch,
    /// The shards at hand cover no fragment of the lowest owner.
    QuorumUnavailable,
    /// A fragment's key piece did not open under its combination key.
    QuorumDecryptFailure,
    /// The ciphertext did not open under the recovered primary key.
    PrimaryDecryptFailure,
    /// Any other failure of a workflow, in words.
    WorkflowError(String),
}

impl CryptoError {
    /// What [`CryptoError::message`] says of this error.
    pub open spec fn words(self) -> Seq<char> {
        match self {
            CryptoError::AESError => "AES error: the message is too long to be sealed"@,
            CryptoError::InvalidLength => "Invalid length error: a key does not fit the cipher"@,
            CryptoError::OutOfRange => "Out of range: there is no such part"@,
            CryptoError::ConfigurationError =>
                "Configuration error: the counts are not acceptable"@,
            CryptoError::RandomSource => "Random source error: no random bytes were delivered"@,
            CryptoError::CanaryMismatch => "Canary mismatch: a canary is wrong or missing"@,
            CryptoError::QuorumUnavailable =>
                "Quorum unavailable: the shards at hand hold no quorum"@,
            CryptoError::QuorumDecryptFailure => "Quorum decrypt failure: a fragment did not open"@,
            CryptoError::PrimaryDecryptFailure =>
                "Primary decrypt failure: the ciphertext did not open"@,
            CryptoError::WorkflowError(msg) => "Workflow error: "@ + msg@,
        }
    }

    /// The error in words, for a reader.
    pub fn message(&self) -> (text: String)
        ensures
            text@ == self.words(),
    {
        match self {
            CryptoError::AESError => String::from_str(
                "AES error: the message is too long to be sealed",
            ),
            CryptoError::InvalidLength => String::from_str(
                "Invalid length error: a key does not fit the cipher",
            ),
            CryptoError::OutOfRange => String::from_str("Out of range: there is no such part"),
            CryptoError::ConfigurationError => String::from_str(
                "Configuration error: the counts are not acceptable",
            ),
            CryptoError::RandomSource => String::from_str(
                "Random source error: no random bytes were delivered",
            ),
            CryptoError::CanaryMismatch => String::from_str(
                "Canary mismatch: a canary is wrong or missing",
            ),
            CryptoError::QuorumUnavailable => String::from_str(
                "Quorum unavailable: the shards at hand hold no quorum",
            ),
            CryptoError::QuorumDecryptFailure => String::from_str(
                "Quorum decrypt failure: a fragment did not open",
            ),
            CryptoError::PrimaryDecryptFailure => String::from_str(
                "Primary decrypt failure: the ciphertext did not open",
            ),
            CryptoError::WorkflowError(msg) => String::from_str("Workflow error: ").concat(
                msg.as_str(),
            ),
        }
    }

    /// A workflow error carrying `msg`.
    pub fn workflow_error(msg: &str) -> (e: Self)
        ensures
            e matches CryptoError::WorkflowError(s) && s@ == msg@,
    {
        CryptoError::WorkflowError(String::from_str(msg))
    }
}

} // verus!
