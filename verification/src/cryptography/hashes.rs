//! Trusted bindings for the two hash primitives of the delta engine: the
//! 32-bit BuzHash rolling hash (`fbuzhash`) and the 64-bit strong
//! verification hash (`xxhash_rust`'s xxh3 with the default seed).
//!
//! Both hashes are pure functions of the bytes they are given, so their
//! results are modelled by uninterpreted names: `buz_of` for the rolling
//! sum of a full window, `xxh3_of` for the strong hash of a slice. The
//! rolling hash is stateful; its abstract state is the window width it was
//! created with (`buz_width`) and the bytes its internal ring buffer
//! currently holds (`buz_window`).

use vstd::prelude::*;

verus! {

/// The BuzHash sum of a window, for a hasher whose width equals the
/// window's length. `fbuzhash` computes a cyclic-polynomial hash, so once
/// a hasher of width `w` has ingested at least `w` bytes its sum depends
/// on the latest `w` bytes alone; in particular a freshly created hasher
/// fed exactly `w` bytes and a slid hasher whose ring buffer holds the
/// same `w` bytes agree.
pub uninterp spec fn buz_of(window: Seq<u8>) -> u32;

/// The strong hash of a byte sequence: xxh3-64 with the default seed.
pub uninterp spec fn xxh3_of(data: Seq<u8>) -> u64;

/// The window width a `fbuzhash::BuzHash` was created with.
pub uninterp spec fn buz_width(h: fbuzhash::BuzHash) -> nat;

/// The bytes a `fbuzhash::BuzHash`'s internal ring buffer holds: the
/// latest `buz_width` bytes ingested, or all ingested bytes while fewer
/// than `buz_width` have been seen.
pub uninterp spec fn buz_window(h: fbuzhash::BuzHash) -> Seq<u8>;

#[verifier::external_type_specification]
#[verifier::external_body]
pub struct ExBuzHash(fbuzhash::BuzHash);

/// Relies on `fbuzhash::BuzHash::new`: it allocates a ring buffer of `w`
/// bytes, with no byte ingested yet.
#[verifier::external_body]
pub(crate) fn buz_new(w: u32) -> (h: fbuzhash::BuzHash)
    requires
        w >= 1,
    ensures
        buz_width(h) == w,
        buz_window(h) == Seq::<u8>::empty(),
{
    fbuzhash::BuzHash::new(w)
}

/// Relies on `fbuzhash::BuzHash::hash_byte`: it ingests one byte, rotating
/// the oldest byte out of a full ring buffer, and returns the updated sum,
/// which for a full buffer is the hash of the buffered window.
#[verifier::external_body]
pub(crate) fn buz_push(h: &mut fbuzhash::BuzHash, b: u8) -> (r: u32)
    ensures
        buz_width(*final(h)) == buz_width(*old(h)),
        buz_window(*final(h)) == (if buz_window(*old(h)).len() < buz_width(*old(h)) {
            buz_window(*old(h)).push(b)
        } else {
            buz_window(*old(h)).drop_first().push(b)
        }),
        buz_window(*final(h)).len() == buz_width(*final(h)) ==> r == buz_of(buz_window(*final(h))),
{
    h.hash_byte(b)
}

/// Relies on `fbuzhash::BuzHash::sum32`: it returns the current sum, which
/// for a full ring buffer is the hash of the buffered window.
#[verifier::external_body]
pub(crate) fn buz_sum(h: &fbuzhash::BuzHash) -> (r: u32)
    ensures
        buz_window(*h).len() == buz_width(*h) ==> r == buz_of(buz_window(*h)),
{
    h.sum32()
}

/// Relies on `xxhash_rust::xxh3::xxh3_64`: the result depends on the bytes
/// alone (default seed, default secret).
#[verifier::external_body]
pub(crate) fn strong_hash(data: &[u8]) -> (r: u64)
    ensures
        r == xxh3_of(data@),
{
    xxhash_rust::xxh3::xxh3_64(data)
}

/// Feeds `data[start..start + width]` to a fresh rolling hasher of width
/// `width`, establishing the window invariant the scan loop maintains.
pub(crate) fn seed_window(width: usize, data: &[u8], start: usize) -> (h: fbuzhash::BuzHash)
    requires
        1 <= width <= u32::MAX,
        start + width <= data@.len(),
    ensures
        buz_width(h) == width,
        buz_window(h) == data@.subrange(start as int, start + width),
{
    let mut h = buz_new(width as u32);
    let n = data.len();
    let mut i: usize = 0;
    while i < width
        invariant
            1 <= width <= u32::MAX,
            n == data@.len(),
            start + width <= n,
            i <= width,
            buz_width(h) == width,
            buz_window(h) == data@.subrange(start as int, start + i),
        decreases width - i,
    {
        let _ = buz_push(&mut h, data[start + i]);
        proof {
            assert(buz_window(h) =~= data@.subrange(start as int, start + i + 1));
        }
        i = i + 1;
    }
    h
}

} // verus!
