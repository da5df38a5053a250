//! Mirrors plugin directories between vaults of a note-taking application.
//!
//! The heart of the crate is the content-addressed delta engine under
//! [`cryptography`]: it partitions a base byte sequence into fixed-size
//! blocks, indexes them by a rolling weak hash plus a strong verification
//! hash, scans a new byte sequence for matching blocks, and expresses the
//! new sequence as a program of copy and insert operations that can be
//! replayed against the base. [`structs`] holds the vault bookkeeping that
//! the surrounding supervisor works with.

pub mod cryptography;
pub mod structs;
