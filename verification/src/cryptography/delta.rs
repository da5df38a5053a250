//! Delta construction and application.
//!
//! A delta is an ordered program of `Copy` and `Insert` operations. The
//! builder scans the new bytes with a rolling weak hash, probes the
//! signature index of the base, confirms candidate blocks with the strong
//! hash, and coalesces unmatched bytes into literal inserts. The applier
//! replays the program against the base, clipping out-of-range copies
//! instead of failing.

use vstd::prelude::*;

use crate::cryptography::hashes::{buz_of, buz_push, buz_sum, buz_width, buz_window, seed_window,
    strong_hash, xxh3_of};
use crate::cryptography::signatures::{entry_ok, has_full_entry, sig_map_wf, SigEntry, Signature,
    BLOCK_SIZE};

verus! {

#[derive(Debug)]
pub enum DeltaOperations {
    Copy { offset: usize, len: usize },
    Insert { data: Vec<u8> },
}

#[derive(Debug)]
pub struct Delta {
    operations: Vec<DeltaOperations>,
}

/// The bytes one operation contributes when executed against `base`.
/// A `Copy` is clipped to the base's bounds and contributes nothing when
/// its start lies at or past the end of the base.
pub open spec fn op_bytes(base: Seq<u8>, op: DeltaOperations) -> Seq<u8> {
    match op {
        DeltaOperations::Copy { offset, len } => {
            let start = offset as int;
            let end = vstd::math::min(offset + len, base.len() as int);
            if start < base.len() && start < end {
                base.subrange(start, end)
            } else {
                Seq::<u8>::empty()
            }
        },
        DeltaOperations::Insert { data } => data@,
    }
}

/// The bytes a whole operation list produces, in order, against `base`.
pub open spec fn delta_bytes(base: Seq<u8>, ops: Seq<DeltaOperations>) -> Seq<u8>
    decreases ops.len(),
{
    if ops.len() == 0 {
        Seq::<u8>::empty()
    } else {
        delta_bytes(base, ops.drop_last()) + op_bytes(base, ops.last())
    }
}

/// Every copy in `ops` names a full block of width `block` lying inside
/// `base`.
pub open spec fn copies_bounded(block: int, base: Seq<u8>, ops: Seq<DeltaOperations>) -> bool {
    forall|i: int|
        0 <= i < ops.len() ==> ((#[trigger] ops[i]) matches DeltaOperations::Copy { offset, len }
            ==> offset + len <= base.len() && len == block)
}

/// No two consecutive operations are both inserts: consecutive literal
/// bytes always coalesce.
pub open spec fn no_adjacent_inserts(ops: Seq<DeltaOperations>) -> bool {
    forall|i: int|
        0 <= i < ops.len() - 1 ==> !((#[trigger] ops[i]) is Insert && ops[i + 1] is Insert)
}

spec fn last_not_insert(ops: Seq<DeltaOperations>) -> bool {
    ops.len() > 0 ==> !(ops.last() is Insert)
}

spec fn all_copies(ops: Seq<DeltaOperations>) -> bool {
    forall|i: int| 0 <= i < ops.len() ==> (#[trigger] ops[i]) is Copy
}

/// The degenerate delta: one insert holding all of `new`, or nothing at
/// all when `new` is empty.
pub open spec fn single_insert_shape(ops: Seq<DeltaOperations>, new: Seq<u8>) -> bool {
    if new.len() == 0 {
        ops.len() == 0
    } else {
        ops.len() == 1 && (ops[0] matches DeltaOperations::Insert { data } && data@ == new)
    }
}

/// The delta of identical inputs: one copy per full block of `new`,
/// then one insert holding the short tail when the length is not a
/// multiple of the block width.
pub open spec fn copies_then_tail(block: int, ops: Seq<DeltaOperations>, new: Seq<u8>) -> bool {
    let k = (new.len() as int) / block;
    let tail = (new.len() as int) % block;
    &&& (tail == 0 ==> ops.len() == k)
    &&& (tail != 0 ==> ops.len() == k + 1 && (ops[k] matches DeltaOperations::Insert { data }
        && data@ == new.subrange(k * block, new.len() as int)))
    &&& forall|i: int| 0 <= i < k ==> (#[trigger] ops[i]) is Copy
}

/// The strong hash separates every full-width slice of `base` from every
/// window of `new` with different bytes. The builder confirms matches by
/// the strong hash alone, so its output reconstructs `new` exactly under
/// this premise; a strong-hash collision between unequal slices could
/// make it emit a copy of the colliding block instead.
#[verifier::opaque]
pub open spec fn strong_hash_distinguishes(block: int, base: Seq<u8>, new: Seq<u8>) -> bool {
    forall|o: int, p: int|
        0 <= o && o + block <= base.len() && 0 <= p && p + block <= new.len() && xxh3_of(
            #[trigger] base.subrange(o, o + block),
        ) == xxh3_of(#[trigger] new.subrange(p, p + block)) ==> base.subrange(o, o + block)
            == new.subrange(p, p + block)
}

/// Some window of `new` agrees with some block-aligned full block of
/// `base` under both the weak and the strong hash.
#[verifier::opaque]
pub open spec fn shares_a_block(block: int, base: Seq<u8>, new: Seq<u8>) -> bool {
    exists|o: int, p: int|
        0 <= o && o % block == 0 && o + block <= base.len() && 0 <= p && p + block <= new.len()
            && buz_of(#[trigger] base.subrange(o, o + block)) == buz_of(
            #[trigger] new.subrange(p, p + block),
        ) && xxh3_of(base.subrange(o, o + block)) == xxh3_of(new.subrange(p, p + block))
}

/// The bucket of `weak` (if any) holds no full-width entry whose strong
/// hash is `strong`.
spec fn no_sig_hit(block: int, m: Map<u32, Vec<SigEntry>>, weak: u32, strong: u64) -> bool {
    m.contains_key(weak) ==> forall|i: int|
        0 <= i < m[weak]@.len() ==> !((#[trigger] m[weak]@[i]).len == block && m[weak]@[i].strong
            == strong)
}

proof fn lemma_push_keeps_no_adjacent(ops: Seq<DeltaOperations>, op: DeltaOperations)
    requires
        no_adjacent_inserts(ops),
        op is Insert ==> last_not_insert(ops),
    ensures
        no_adjacent_inserts(ops.push(op)),
{
    let ops1 = ops.push(op);
    assert forall|i: int| 0 <= i < ops1.len() - 1 implies !((#[trigger] ops1[i]) is Insert && ops1[i
        + 1] is Insert) by {
        if i < ops.len() - 1 {
            assert(ops1[i] == ops[i]);
            assert(ops1[i + 1] == ops[i + 1]);
        } else {
            assert(i == ops.len() - 1);
            assert(ops1[i] == ops[i]);
            assert(ops1[i + 1] == op);
        }
    }
}

proof fn lemma_delta_bytes_push(base: Seq<u8>, ops: Seq<DeltaOperations>, op: DeltaOperations)
    ensures
        delta_bytes(base, ops.push(op)) == delta_bytes(base, ops) + op_bytes(base, op),
{
    assert(ops.push(op).drop_last() =~= ops);
    assert(ops.push(op).last() == op);
}

/// An entry found in a well-formed index under key `weak`, with full
/// width, names a block-aligned slice of the base carrying both hashes
/// the index recorded.
proof fn lemma_found_entry(
    blk: int,
    base: Seq<u8>,
    m: Map<u32, Vec<SigEntry>>,
    weak: u32,
    e: SigEntry,
)
    requires
        blk >= 1,
        sig_map_wf(blk, base, m),
        m.contains_key(weak),
        exists|i: int| 0 <= i < m[weak]@.len() && m[weak]@[i] == e,
        e.len == blk,
    ensures
        (e.offset as int) % blk == 0,
        e.offset + blk <= base.len(),
        e.offset < base.len(),
        weak == buz_of(base.subrange(e.offset as int, e.offset + blk)),
        e.strong == xxh3_of(base.subrange(e.offset as int, e.offset + blk)),
{
    reveal(sig_map_wf);
    let i = choose|i: int| 0 <= i < m[weak]@.len() && m[weak]@[i] == e;
    assert(entry_ok(blk, base, weak, m[weak]@[i]));
}

/// Witness form of `shares_a_block`.
proof fn lemma_shares_witness(blk: int, base: Seq<u8>, new: Seq<u8>, o: int, p: int)
    requires
        0 <= o,
        o % blk == 0,
        o + blk <= base.len(),
        0 <= p,
        p + blk <= new.len(),
        buz_of(base.subrange(o, o + blk)) == buz_of(new.subrange(p, p + blk)),
        xxh3_of(base.subrange(o, o + blk)) == xxh3_of(new.subrange(p, p + blk)),
    ensures
        shares_a_block(blk, base, new),
{
    reveal(shares_a_block);
}

/// Applies `strong_hash_distinguishes` to one block/window pair.
proof fn lemma_dist_apply(blk: int, base: Seq<u8>, new: Seq<u8>, o: int, p: int)
    requires
        strong_hash_distinguishes(blk, base, new),
        0 <= o,
        o + blk <= base.len(),
        0 <= p,
        p + blk <= new.len(),
        xxh3_of(base.subrange(o, o + blk)) == xxh3_of(new.subrange(p, p + blk)),
    ensures
        base.subrange(o, o + blk) == new.subrange(p, p + blk),
{
    reveal(strong_hash_distinguishes);
}

/// At an aligned position of the base itself the scan cannot miss: the
/// index is complete, so the bucket of that block's weak hash holds a
/// full entry whose strong hash is the block's.
proof fn lemma_aligned_block_hits(blk: int, base: Seq<u8>, m: Map<u32, Vec<SigEntry>>, pos: int)
    requires
        blk >= 1,
        sig_map_wf(blk, base, m),
        0 <= pos,
        pos % blk == 0,
        pos + blk <= base.len(),
    ensures
        !no_sig_hit(
            blk,
            m,
            buz_of(base.subrange(pos, pos + blk)),
            xxh3_of(base.subrange(pos, pos + blk)),
        ),
{
    reveal(sig_map_wf);
    assert(has_full_entry(blk, base, m, pos));
    let w0 = buz_of(base.subrange(pos, pos + blk));
    let i = choose|i: int|
        0 <= i < m[w0]@.len() && (#[trigger] m[w0]@[i]).offset == pos && m[w0]@[i].len == blk;
    assert(entry_ok(blk, base, w0, m[w0]@[i]));
    assert(m[w0]@[i].len == blk && m[w0]@[i].strong == xxh3_of(base.subrange(pos, pos + blk)));
}

/// Returns the first entry of `bucket` that names a full block of width
/// `block` with strong hash `strong`, in insertion order.
fn find_match(bucket: &Vec<SigEntry>, block: usize, strong: u64) -> (r: Option<SigEntry>)
    ensures
        (r matches Some(e) ==> e.len == block && e.strong == strong && exists|i: int|
            0 <= i < bucket@.len() && bucket@[i] == e),
        (r is None ==> forall|i: int|
            0 <= i < bucket@.len() ==> !((#[trigger] bucket@[i]).len == block && bucket@[i].strong
                == strong)),
{
    let n = bucket.len();
    let mut i: usize = 0;
    while i < n
        invariant
            n == bucket@.len(),
            i <= n,
            forall|j: int|
                0 <= j < i ==> !((#[trigger] bucket@[j]).len == block && bucket@[j].strong
                    == strong),
        decreases n - i,
    {
        let e = bucket[i];
        if e.len == block && e.strong == strong {
            return Some(e);
        }
        i = i + 1;
    }
    None
}

/// Appends the pending literal bytes of `buf` to `ops` as one insert and
/// empties `buf`; a no-op when nothing is pending.
fn flush_inserts(ops: &mut Vec<DeltaOperations>, buf: &mut Vec<u8>)
    ensures
        final(buf)@ == Seq::<u8>::empty(),
        old(buf)@.len() == 0 ==> final(ops)@ == old(ops)@,
        old(buf)@.len() > 0 ==> (final(ops)@.len() == old(ops)@.len() + 1
            && final(ops)@.subrange(0, old(ops)@.len() as int) == old(ops)@
            && (final(ops)@.last() matches DeltaOperations::Insert { data } && data@ == old(
            buf,
        )@)),
{
    if buf.len() > 0 {
        let data = buf.clone();
        proof {
            assert(data@ =~= buf@);
        }
        buf.clear();
        ops.push(DeltaOperations::Insert { data });
        proof {
            assert(ops@.subrange(0, old(ops)@.len() as int) =~= old(ops)@);
        }
    }
}

/// Flushes pending literals and emits the copy of a confirmed match,
/// carrying the scan's bookkeeping forward from `pos` to `pos + block`.
#[verifier::rlimit(100)]
fn emit_match(
    block: usize,
    base: &[u8],
    new_: &[u8],
    pos: usize,
    entry: SigEntry,
    ops: &mut Vec<DeltaOperations>,
    buf: &mut Vec<u8>,
)
    requires
        1 <= block,
        pos + block <= new_@.len(),
        entry.len == block,
        entry.offset + block <= base@.len(),
        strong_hash_distinguishes(block as int, base@, new_@) ==> base@.subrange(
            entry.offset as int,
            entry.offset + block,
        ) == new_@.subrange(pos as int, pos + block),
        copies_bounded(block as int, base@, old(ops)@),
        no_adjacent_inserts(old(ops)@),
        last_not_insert(old(ops)@),
        strong_hash_distinguishes(block as int, base@, new_@) ==> delta_bytes(base@, old(ops)@)
            + old(buf)@ == new_@.take(pos as int),
        base@ == new_@ ==> (old(buf)@.len() == 0 && pos == (block as int) * old(ops)@.len()
            && all_copies(old(ops)@)),
    ensures
        copies_bounded(block as int, base@, final(ops)@),
        no_adjacent_inserts(final(ops)@),
        last_not_insert(final(ops)@),
        final(buf)@.len() == 0,
        strong_hash_distinguishes(block as int, base@, new_@) ==> delta_bytes(base@, final(ops)@)
            + final(buf)@ == new_@.take(pos + block),
        base@ == new_@ ==> (pos + block == (block as int) * final(ops)@.len() && all_copies(
            final(ops)@,
        )),
{
    let ghost blk = block as int;
    let ghost ops0 = ops@;
    let ghost buf0 = buf@;
    flush_inserts(ops, buf);
    proof {
        if buf0.len() > 0 {
            assert(ops@ =~= ops0.push(ops@.last()));
            lemma_push_keeps_no_adjacent(ops0, ops@.last());
            lemma_delta_bytes_push(base@, ops0, ops@.last());
            assert(delta_bytes(base@, ops@) == delta_bytes(base@, ops0) + buf0);
        } else {
            assert(delta_bytes(base@, ops@) + buf0 =~= delta_bytes(base@, ops@));
        }
    }
    let ghost ops1 = ops@;
    let op = DeltaOperations::Copy { offset: entry.offset, len: entry.len };
    ops.push(op);
    proof {
        lemma_push_keeps_no_adjacent(ops1, op);
        lemma_delta_bytes_push(base@, ops1, op);
        let bo = entry.offset as int;
        assert(op_bytes(base@, op) == base@.subrange(bo, bo + blk));
        if strong_hash_distinguishes(blk, base@, new_@) {
            assert(new_@.take(pos + blk) =~= new_@.take(pos as int) + new_@.subrange(
                pos as int,
                pos + blk,
            ));
            assert(delta_bytes(base@, ops@) + buf@ =~= new_@.take(pos + blk));
        }
        if base@ == new_@ {
            assert(ops1 == ops0);
            assert(ops@ =~= ops0.push(op));
            let n1 = ops@.len() as int;
            assert(blk * n1 == blk * (n1 - 1) + blk) by (nonlinear_arith);
            assert forall|i: int| 0 <= i < ops@.len() implies (#[trigger] ops@[i]) is Copy by {
                if i < ops0.len() {
                    assert(ops@[i] == ops0[i]);
                } else {
                    assert(ops@[i] == op);
                }
            }
        }
    }
}

/// Buffers the unscanned tail (shorter than one block) as pending
/// literals and flushes them: the scan's final step on every path.
#[verifier::rlimit(100)]
fn finish_tail(
    block: usize,
    base: &[u8],
    new_: &[u8],
    pos: usize,
    ops: &mut Vec<DeltaOperations>,
    buf: &mut Vec<u8>,
)
    requires
        1 <= block <= new_@.len(),
        pos <= new_@.len() < pos + block,
        copies_bounded(block as int, base@, old(ops)@),
        no_adjacent_inserts(old(ops)@),
        last_not_insert(old(ops)@),
        strong_hash_distinguishes(block as int, base@, new_@) ==> delta_bytes(base@, old(ops)@)
            + old(buf)@ == new_@.take(pos as int),
        !shares_a_block(block as int, base@, new_@) ==> old(ops)@.len() == 0 && old(buf)@
            == new_@.take(pos as int),
        base@ == new_@ ==> (old(buf)@.len() == 0 && pos == (block as int) * old(ops)@.len()
            && all_copies(old(ops)@)),
    ensures
        copies_bounded(block as int, base@, final(ops)@),
        no_adjacent_inserts(final(ops)@),
        strong_hash_distinguishes(block as int, base@, new_@) ==> delta_bytes(base@, final(ops)@)
            == new_@,
        !shares_a_block(block as int, base@, new_@) ==> single_insert_shape(final(ops)@, new_@),
        base@ == new_@ ==> copies_then_tail(block as int, final(ops)@, new_@),
{
    let ghost blk = block as int;
    let nlen = new_.len();
    if pos < nlen {
        extend_bytes(buf, &new_[pos..nlen]);
    }
    proof {
        assert(buf@ =~= old(buf)@ + new_@.subrange(pos as int, nlen as int));
        assert(new_@.take(pos as int) + new_@.subrange(pos as int, nlen as int) =~= new_@);
    }
    let ghost ops0 = ops@;
    let ghost buf1 = buf@;
    flush_inserts(ops, buf);
    proof {
        if buf1.len() > 0 {
            assert(ops@ =~= ops0.push(ops@.last()));
            lemma_push_keeps_no_adjacent(ops0, ops@.last());
            lemma_delta_bytes_push(base@, ops0, ops@.last());
        }
        if strong_hash_distinguishes(blk, base@, new_@) {
            assert(delta_bytes(base@, ops@) =~= new_@);
        }
        if !shares_a_block(blk, base@, new_@) {
            assert(buf1 =~= new_@);
            assert(ops@.len() == 1);
            assert(single_insert_shape(ops@, new_@));
        }
        if base@ == new_@ {
            let c = ops0.len() as int;
            vstd::arithmetic::div_mod::lemma_fundamental_div_mod_converse(
                nlen as int,
                blk,
                c,
                nlen - pos,
            );
            if nlen - pos > 0 {
                assert(buf1 =~= new_@.subrange(c * blk, nlen as int));
                assert(ops@[c] == ops@.last());
            }
            assert(copies_then_tail(blk, ops@, new_@));
        }
    }
}

impl View for Delta {
    type V = Seq<DeltaOperations>;

    closed spec fn view(&self) -> Seq<DeltaOperations> {
        self.operations@
    }
}

impl Delta {
    pub fn new() -> (d: Self)
        ensures
            d@ == Seq::<DeltaOperations>::empty(),
    {
        Self { operations: Vec::new() }
    }

    /// Wraps an explicit operation list, so that a caller can also replay
    /// a delta it did not build itself (the applier must stay robust
    /// against such a delta).
    pub fn from_operations(operations: Vec<DeltaOperations>) -> (d: Self)
        ensures
            d@ == operations@,
    {
        Self { operations }
    }

    pub fn get_operations(&self) -> (r: &Vec<DeltaOperations>)
        ensures
            r@ == self@,
    {
        &self.operations
    }

    /// Builds the delta that rewrites `base` into `new_`, with the fixed
    /// block width of the engine.
    pub fn generate_delta(&self, base: &[u8], new_: &[u8]) -> (d: Delta)
        ensures
            copies_bounded(BLOCK_SIZE as int, base@, d@),
            no_adjacent_inserts(d@),
            new_@.len() < BLOCK_SIZE ==> single_insert_shape(d@, new_@),
            base@.len() == 0 ==> single_insert_shape(d@, new_@),
            !shares_a_block(BLOCK_SIZE as int, base@, new_@) ==> single_insert_shape(d@, new_@),
            strong_hash_distinguishes(BLOCK_SIZE as int, base@, new_@) ==> delta_bytes(base@, d@)
                == new_@,
            base@ == new_@ ==> copies_then_tail(BLOCK_SIZE as int, d@, new_@),
    {
        Self::generate_delta_with(BLOCK_SIZE, base, new_)
    }

    /// Builds the delta that rewrites `base` into `new_` for block width
    /// `block`: seeds a rolling hash over the first window of `new_`,
    /// then repeatedly either confirms a block match (emitting a copy and
    /// jumping a whole block) or slides one byte (buffering it as a
    /// pending literal).
    #[verifier::rlimit(100)]
    pub fn generate_delta_with(block: usize, base: &[u8], new_: &[u8]) -> (d: Delta)
        requires
            1 <= block <= u32::MAX,
        ensures
            copies_bounded(block as int, base@, d@),
            no_adjacent_inserts(d@),
            new_@.len() < block ==> single_insert_shape(d@, new_@),
            base@.len() == 0 ==> single_insert_shape(d@, new_@),
            !shares_a_block(block as int, base@, new_@) ==> single_insert_shape(d@, new_@),
            strong_hash_distinguishes(block as int, base@, new_@) ==> delta_bytes(base@, d@)
                == new_@,
            base@ == new_@ ==> copies_then_tail(block as int, d@, new_@),
    {
        let ghost blk = block as int;
        let ghost dist = strong_hash_distinguishes(blk, base@, new_@);
        let mut sigs = Signature::new();
        sigs.build_with(block, base);
        let mut ops: Vec<DeltaOperations> = Vec::new();
        let mut insert_buf: Vec<u8> = Vec::new();
        let nlen = new_.len();

        proof {
            reveal(shares_a_block);
            if base@.len() == 0 && shares_a_block(blk, base@, new_@) {
                let (o, p) = choose|o: int, p: int|
                    0 <= o && o % blk == 0 && o + blk <= base@.len() && 0 <= p && p + blk
                        <= new_@.len() && buz_of(#[trigger] base@.subrange(o, o + blk)) == buz_of(
                        #[trigger] new_@.subrange(p, p + blk),
                    ) && xxh3_of(base@.subrange(o, o + blk)) == xxh3_of(new_@.subrange(p, p + blk));
                assert(false);
            }
        }

        if nlen < block {
            if nlen > 0 {
                let mut data: Vec<u8> = Vec::new();
                extend_bytes(&mut data, new_);
                proof {
                    assert(data@ =~= new_@);
                }
                ops.push(DeltaOperations::Insert { data });
            }
            proof {
                if ops@.len() == 1 {
                    assert(delta_bytes(base@, ops@) == delta_bytes(base@, ops@.drop_last())
                        + op_bytes(base@, ops@.last()));
                    assert(delta_bytes(base@, ops@) =~= new_@);
                }
                if base@ == new_@ {
                    vstd::arithmetic::div_mod::lemma_fundamental_div_mod_converse(
                        nlen as int,
                        blk,
                        0,
                        nlen as int,
                    );
                    if nlen > 0 {
                        assert(new_@.subrange(0, nlen as int) =~= new_@);
                    }
                }
            }
            return Delta { operations: ops };
        }

        let limit = nlen - block;
        let mut pos: usize = 0;
        let mut bh = seed_window(block, new_, 0);
        let mut weak: u32 = buz_sum(&bh);

        while pos <= limit
            invariant_except_break
                pos <= limit,
                buz_width(bh) == block,
                buz_window(bh) == new_@.subrange(pos as int, pos + blk),
                weak == buz_of(new_@.subrange(pos as int, pos + blk)),
                last_not_insert(ops@),
                dist ==> delta_bytes(base@, ops@) + insert_buf@ == new_@.take(pos as int),
                !shares_a_block(blk, base@, new_@) ==> ops@.len() == 0 && insert_buf@
                    == new_@.take(pos as int),
                base@ == new_@ ==> (insert_buf@.len() == 0 && pos == blk * ops@.len()
                    && all_copies(ops@)),
            invariant
                1 <= block <= u32::MAX,
                blk == block as int,
                nlen == new_@.len(),
                block <= nlen,
                limit == nlen - block,
                sig_map_wf(blk, base@, sigs@),
                dist == strong_hash_distinguishes(blk, base@, new_@),
                pos <= nlen,
                copies_bounded(blk, base@, ops@),
                no_adjacent_inserts(ops@),
            ensures
                copies_bounded(blk, base@, ops@),
                no_adjacent_inserts(ops@),
                dist ==> delta_bytes(base@, ops@) == new_@,
                !shares_a_block(blk, base@, new_@) ==> single_insert_shape(ops@, new_@),
                base@ == new_@ ==> copies_then_tail(blk, ops@, new_@),
            decreases nlen - pos,
        {
            let ghost win = new_@.subrange(pos as int, pos + blk);
            let mut matched = false;
            if let Some(cands) = sigs.lookup(weak) {
                let strong = strong_hash(&new_[pos..pos + block]);
                if let Some(entry) = find_match(cands, block, strong) {
                    proof {
                        lemma_found_entry(blk, base@, sigs@, weak, entry);
                        lemma_shares_witness(blk, base@, new_@, entry.offset as int, pos as int);
                        if dist {
                            lemma_dist_apply(blk, base@, new_@, entry.offset as int, pos as int);
                        }
                    }
                    emit_match(block, base, new_, pos, entry, &mut ops, &mut insert_buf);
                    pos = pos + block;
                    if pos <= limit {
                        bh = seed_window(block, new_, pos);
                        weak = buz_sum(&bh);
                    } else {
                        finish_tail(block, base, new_, pos, &mut ops, &mut insert_buf);
                        break;
                    }
                    matched = true;
                }
            }
            if !matched {
                proof {
                    assert(no_sig_hit(blk, sigs@, weak, xxh3_of(win)));
                    if base@ == new_@ {
                        assert((pos as int) % blk == 0) by {
                            let c = ops@.len() as int;
                            assert(blk * c == c * blk) by (nonlinear_arith);
                            vstd::arithmetic::div_mod::lemma_mod_multiples_basic(c, blk);
                        }
                        assert(base@.subrange(pos as int, pos + blk) == win);
                        lemma_aligned_block_hits(blk, base@, sigs@, pos as int);
                    }
                }
                insert_buf.push(new_[pos]);
                proof {
                    assert(new_@.take(pos + 1) =~= new_@.take(pos as int).push(new_@[pos as int]));
                }
                pos = pos + 1;
                if pos > limit {
                    finish_tail(block, base, new_, pos, &mut ops, &mut insert_buf);
                    break;
                } else {
                    let b = new_[pos + block - 1];
                    let r = buz_push(&mut bh, b);
                    weak = r;
                    proof {
                        assert(new_@.subrange(pos - 1, pos - 1 + blk).drop_first().push(b)
                            =~= new_@.subrange(pos as int, pos + blk));
                    }
                }
            }
        }
        Delta { operations: ops }
    }

    /// Executes the delta against `base` and returns the produced bytes.
    /// Out-of-range copies are clipped, never a panic.
    pub fn apply(&self, base: &[u8]) -> (out: Vec<u8>)
        ensures
            out@ == delta_bytes(base@, self@),
    {
        let mut out: Vec<u8> = Vec::new();
        let n = self.operations.len();
        let mut i: usize = 0;
        while i < n
            invariant
                n == self.operations@.len(),
                i <= n,
                out@ == delta_bytes(base@, self.operations@.take(i as int)),
            decreases n - i,
        {
            let ghost prefix = self.operations@.take(i as int);
            match &self.operations[i] {
                DeltaOperations::Copy { offset, len } => {
                    let start = *offset;
                    if start < base.len() {
                        let avail = base.len() - start;
                        let take_len = if *len < avail {
                            *len
                        } else {
                            avail
                        };
                        extend_bytes(&mut out, &base[start..start + take_len]);
                    }
                },
                DeltaOperations::Insert { data } => {
                    extend_bytes(&mut out, data.as_slice());
                },
            }
            proof {
                assert(self.operations@.take(i + 1).drop_last() =~= prefix);
                assert(self.operations@.take(i + 1).last() == self.operations@[i as int]);
                assert(out@ =~= delta_bytes(base@, self.operations@.take(i + 1)));
            }
            i = i + 1;
        }
        proof {
            assert(self.operations@.take(n as int) =~= self.operations@);
        }
        out
    }
}

/// Appends every byte of `src` to `out`.
fn extend_bytes(out: &mut Vec<u8>, src: &[u8])
    ensures
        final(out)@ == old(out)@ + src@,
{
    let n = src.len();
    let mut i: usize = 0;
    while i < n
        invariant
            n == src@.len(),
            i <= n,
            out@ == old(out)@ + src@.take(i as int),
        decreases n - i,
    {
        out.push(src[i]);
        proof {
            assert(old(out)@ + src@.take(i + 1) =~= (old(out)@ + src@.take(i as int)).push(
                src@[i as int],
            ));
        }
        i = i + 1;
    }
    proof {
        assert(src@.take(n as int) =~= src@);
    }
}

} // verus!
