use vstd::prelude::*;

verus! {

/// The failures of the cryptographic core.
#[derive(Clone, Copy, Debug, PartialEq, Eq, Structural)]
pub enum Error {
    /// Sealing a block failed.
    Encrypt,
    /// Opening a block failed: wrong key, nonce or associated data, or a
    /// ciphertext that was altered, truncated or reordered.
    Decrypt,
    /// The nonce does not have the length that the algorithm requires.
    NonceLengthMismatch,
    /// The stream cipher could not be set up.
    StreamModeInit,
    /// No stored key has the given uuid.
    KeyNotFound,
}

} // verus!
