//! Authenticated STREAM encryption over XChaCha20-Poly1305 and AES-256-GCM,
//! with the argument and result records of the key-management operations.
pub mod error;
pub mod primitives;
pub mod stream;
pub mod keys;
