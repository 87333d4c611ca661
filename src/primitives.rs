use vstd::prelude::*;

verus! {

/// Length of every symmetric key, in bytes.
pub const KEY_LEN: usize = 32;

/// Number of plaintext bytes in each full STREAM block.
pub const BLOCK_SIZE: usize = 1048576;

/// Length of the authentication tag that each sealed block carries.
pub const AEAD_TAG_SIZE: usize = 16;

/// Largest STREAM position that the LE31 counter admits.
pub const COUNTER_MAX: u32 = 0xfff_ffff;

/// Largest associated data, in bytes, that both AEADs accept.
pub const AAD_MAX: u64 = 68719476736;

} // verus!
