//! The signature index: one entry per block of the base, keyed by the
//! block's weak rolling hash.

use std::collections::HashMap;
use vstd::prelude::*;

use crate::cryptography::hashes::{buz_of, buz_sum, buz_width, buz_window, seed_window,
    strong_hash, xxh3_of};

verus! {

broadcast use vstd::std_specs::hash::group_hash_axioms;

pub const BLOCK_SIZE: usize = 4096;

/// One indexed block of the base: its strong hash, its byte offset, and
/// its length (the block width, except for a possibly shorter tail).
#[derive(Debug, Clone, Copy)]
pub struct SigEntry {
    pub strong: u64,
    pub offset: usize,
    pub len: usize,
}

#[derive(Debug)]
pub struct Signature {
    entries: HashMap<u32, Vec<SigEntry>>,
}

/// What one entry under weak-hash key `w` says about `base`, for block
/// width `block`: it names a block-aligned slice of the base whose weak
/// hash is `w` and whose strong hash it records.
pub open spec fn entry_ok(block: int, base: Seq<u8>, w: u32, e: SigEntry) -> bool {
    &&& (e.offset as int) % block == 0
    &&& e.offset < base.len()
    &&& e.len == vstd::math::min(block, base.len() - e.offset)
    &&& e.offset + e.len <= base.len()
    &&& w == buz_of(base.subrange(e.offset as int, e.offset + e.len))
    &&& e.strong == xxh3_of(base.subrange(e.offset as int, e.offset + e.len))
}

/// The bucket for the full block starting at offset `o` holds an entry of
/// length `block` for that offset.
pub open spec fn has_full_entry(
    block: int,
    base: Seq<u8>,
    m: Map<u32, Vec<SigEntry>>,
    o: int,
) -> bool {
    let w = buz_of(base.subrange(o, o + block));
    &&& m.contains_key(w)
    &&& exists|i: int|
        0 <= i < m[w]@.len() && (#[trigger] m[w]@[i]).offset == o && m[w]@[i].len == block
}

/// A well-formed signature index for `base` with block width `block`:
/// every entry describes the block at its offset (soundness), every full
/// block of the base is indexed under its weak hash (completeness), and
/// each bucket keeps its entries in ascending offset order (its insertion
/// order).
#[verifier::opaque]
pub open spec fn sig_map_wf(block: int, base: Seq<u8>, m: Map<u32, Vec<SigEntry>>) -> bool {
    &&& forall|w: u32, i: int|
        m.contains_key(w) && 0 <= i < m[w]@.len() ==> entry_ok(block, base, w, #[trigger] m[w]@[i])
    &&& forall|o: int|
        0 <= o && o % block == 0 && o + block <= base.len() ==> #[trigger] has_full_entry(
            block,
            base,
            m,
            o,
        )
    &&& forall|w: u32, i: int, j: int|
        m.contains_key(w) && 0 <= i < j < m[w]@.len() ==> (#[trigger] m[w]@[i]).offset < (
        #[trigger] m[w]@[j]).offset
}

/// Two distinct multiples of `b` lie at least `b` apart.
proof fn lemma_aligned_gap(o: int, off: int, b: int)
    requires
        0 < b,
        o % b == 0,
        off % b == 0,
        o < off,
    ensures
        o + b <= off,
{
    vstd::arithmetic::div_mod::lemma_sub_mod_noop(off, o, b);
    vstd::arithmetic::div_mod::lemma_small_mod(0nat, b as nat);
    assert((off - o) % b == 0);
    if off - o < b {
        vstd::arithmetic::div_mod::lemma_small_mod((off - o) as nat, b as nat);
    }
}

impl View for Signature {
    type V = Map<u32, Vec<SigEntry>>;

    closed spec fn view(&self) -> Map<u32, Vec<SigEntry>> {
        self.entries@
    }
}

impl Signature {
    pub fn new() -> (s: Self)
        ensures
            s@ == Map::<u32, Vec<SigEntry>>::empty(),
    {
        Self { entries: HashMap::new() }
    }

    /// Indexes `base` with the fixed block width of the engine.
    pub fn build(&mut self, base: &[u8])
        ensures
            sig_map_wf(BLOCK_SIZE as int, base@, final(self)@),
    {
        self.build_with(BLOCK_SIZE, base);
    }

    /// Indexes `base`: walks it in strides of `block`, hashing each block
    /// (the final one possibly shorter) and appending an entry to the
    /// bucket of the block's weak hash.
    pub fn build_with(&mut self, block: usize, base: &[u8])
        requires
            1 <= block <= u32::MAX,
        ensures
            sig_map_wf(block as int, base@, final(self)@),
    {
        let ghost b = block as int;
        let mut sigs: HashMap<u32, Vec<SigEntry>> = HashMap::new();
        let mut offset: usize = 0;
        while offset < base.len()
            invariant
                1 <= block <= u32::MAX,
                b == block as int,
                offset <= base@.len(),
                offset % block == 0 || offset == base@.len(),
                forall|w: u32, i: int|
                    sigs@.contains_key(w) && 0 <= i < sigs@[w]@.len() ==> entry_ok(
                        b,
                        base@,
                        w,
                        #[trigger] sigs@[w]@[i],
                    ),
                forall|o: int|
                    0 <= o && o % b == 0 && o + b <= offset ==> #[trigger] has_full_entry(
                        b,
                        base@,
                        sigs@,
                        o,
                    ),
                forall|w: u32, i: int|
                    sigs@.contains_key(w) && 0 <= i < sigs@[w]@.len() ==> (
                    #[trigger] sigs@[w]@[i]).offset < offset,
                forall|w: u32, i: int, j: int|
                    sigs@.contains_key(w) && 0 <= i < j < sigs@[w]@.len() ==> (
                    #[trigger] sigs@[w]@[i]).offset < (#[trigger] sigs@[w]@[j]).offset,
            decreases base@.len() - offset,
        {
            let rem = base.len() - offset;
            let len = if block < rem {
                block
            } else {
                rem
            };
            let h = seed_window(len, base, offset);
            let weak = buz_sum(&h);
            let strong = strong_hash(&base[offset..offset + len]);
            let entry = SigEntry { strong, offset, len };
            proof {
                assert(buz_window(h).len() == buz_width(h));
                assert(entry_ok(b, base@, weak, entry));
            }
            let ghost m0 = sigs@;
            let mut bucket: Vec<SigEntry> = match sigs.remove(&weak) {
                Some(bu) => bu,
                None => Vec::new(),
            };
            let ghost b0 = bucket@;
            proof {
                if m0.contains_key(weak) {
                    assert(b0 == m0[weak]@);
                } else {
                    assert(b0.len() == 0);
                }
            }
            bucket.push(entry);
            sigs.insert(weak, bucket);
            proof {
                let m1 = sigs@;
                assert(forall|w: u32|
                    w != weak ==> (#[trigger] m1.contains_key(w) == m0.contains_key(w)
                        && (m0.contains_key(w) ==> m1[w] == m0[w])));
                assert(m1.contains_key(weak) && m1[weak]@ == b0.push(entry));
                // soundness and offset bounds carry over; the new entry was shown ok
                assert forall|w: u32, i: int|
                    m1.contains_key(w) && 0 <= i < m1[w]@.len() implies entry_ok(
                    b,
                    base@,
                    w,
                    #[trigger] m1[w]@[i],
                ) && m1[w]@[i].offset <= offset by {
                    if w == weak {
                        if i < b0.len() {
                            assert(m1[w]@[i] == b0[i]);
                            assert(entry_ok(b, base@, w, m0[w]@[i]));
                        } else {
                            assert(m1[w]@[i] == entry);
                        }
                    } else {
                        assert(entry_ok(b, base@, w, m0[w]@[i]));
                        assert(m0[w]@[i].offset < offset);
                    }
                }
                // ascending offsets within each bucket
                assert forall|w: u32, i: int, j: int|
                    m1.contains_key(w) && 0 <= i < j < m1[w]@.len() implies (
                #[trigger] m1[w]@[i]).offset < (#[trigger] m1[w]@[j]).offset by {
                    if w == weak {
                        if j < b0.len() {
                            assert(m0[w]@[i].offset < m0[w]@[j].offset);
                        } else {
                            assert(m1[w]@[j] == entry);
                            assert(m1[w]@[i] == b0[i]);
                            assert(m0[w]@[i].offset < offset);
                        }
                    } else {
                        assert(m0[w]@[i].offset < m0[w]@[j].offset);
                    }
                }
                // completeness up to offset + len
                assert forall|o: int|
                    0 <= o && o % b == 0 && o + b <= offset + len implies #[trigger] has_full_entry(
                    b,
                    base@,
                    m1,
                    o,
                ) by {
                    if o + b <= offset {
                        assert(has_full_entry(b, base@, m0, o));
                        let w_o = buz_of(base@.subrange(o, o + b));
                        let i = choose|i: int|
                            0 <= i < m0[w_o]@.len() && (#[trigger] m0[w_o]@[i]).offset == o
                                && m0[w_o]@[i].len == b;
                        if w_o == weak {
                            assert(m1[w_o]@[i] == b0[i]);
                        } else {
                            assert(m1[w_o]@[i] == m0[w_o]@[i]);
                        }
                    } else {
                        // the block indexed this iteration: o == offset and len == block
                        assert(o <= offset) by {
                            if o > offset {
                                lemma_aligned_gap(offset as int, o, b);
                            }
                        }
                        assert(o == offset) by {
                            if o < offset {
                                lemma_aligned_gap(o, offset as int, b);
                            }
                        }
                        assert(len == b);
                        let w_o = buz_of(base@.subrange(o, o + b));
                        assert(w_o == weak);
                        assert(m1[weak]@[b0.len() as int] == entry);
                    }
                }
            }
            offset = offset + len;
            proof {
                if len == block {
                    vstd::arithmetic::div_mod::lemma_add_mod_noop(
                        offset - len,
                        len as int,
                        b,
                    );
                    vstd::arithmetic::div_mod::lemma_mod_self_0(b);
                    vstd::arithmetic::div_mod::lemma_small_mod(0nat, b as nat);
                }
            }
        }
        proof {
            reveal(sig_map_wf);
        }
        self.entries = sigs;
    }

    /// Looks up the bucket of one weak hash.
    pub(crate) fn lookup(&self, weak: u32) -> (r: Option<&Vec<SigEntry>>)
        ensures
            (r matches Some(v) ==> self@.contains_key(weak) && self@[weak] == *v),
            (r is None ==> !self@.contains_key(weak)),
    {
        self.entries.get(&weak)
    }

    pub fn get_entries(&self) -> (r: &HashMap<u32, Vec<SigEntry>>)
        ensures
            r@ == self@,
    {
        &self.entries
    }
}

} // verus!
