//! The delta engine: block signatures, the rolling-hash match loop, and
//! delta application.

pub mod delta;
pub mod hashes;
pub mod signatures;
