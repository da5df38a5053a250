use obsidian_syncer::cryptography::signatures::{Signature, BLOCK_SIZE};

#[test]
fn block_size_is_fixed() {
    assert_eq!(BLOCK_SIZE, 4096);
}

#[test]
fn empty_base_has_no_entries() {
    let mut sig = Signature::new();
    sig.build(&[]);
    assert!(sig.get_entries().is_empty());
}

#[test]
fn new_signature_is_empty() {
    let sig = Signature::new();
    assert!(sig.get_entries().is_empty());
}

#[test]
fn blocks_and_tail_are_indexed() {
    // 2 full blocks plus a 2048-byte tail
    let mut base = Vec::new();
    for i in 0..10240usize {
        base.push((i % 251) as u8);
    }
    let mut sig = Signature::new();
    sig.build(&base);
    let mut entries: Vec<(usize, usize, u64)> = Vec::new();
    for bucket in sig.get_entries().values() {
        for e in bucket {
            entries.push((e.offset, e.len, e.strong));
        }
    }
    entries.sort();
    assert_eq!(entries.len(), 3);
    assert_eq!((entries[0].0, entries[0].1), (0, 4096));
    assert_eq!((entries[1].0, entries[1].1), (4096, 4096));
    assert_eq!((entries[2].0, entries[2].1), (8192, 2048));
}

#[test]
fn identical_blocks_share_a_bucket_in_offset_order() {
    let base = vec![7u8; 8192];
    let mut sig = Signature::new();
    sig.build(&base);
    let entries = sig.get_entries();
    assert_eq!(entries.len(), 1);
    let bucket = entries.values().next().unwrap();
    assert_eq!(bucket.len(), 2);
    assert_eq!(bucket[0].offset, 0);
    assert_eq!(bucket[1].offset, 4096);
    assert_eq!(bucket[0].strong, bucket[1].strong);
    assert_eq!(bucket[0].len, 4096);
    assert_eq!(bucket[1].len, 4096);
}

#[test]
fn short_base_gets_one_short_entry() {
    let base = b"tiny".to_vec();
    let mut sig = Signature::new();
    sig.build(&base);
    let entries = sig.get_entries();
    assert_eq!(entries.len(), 1);
    let bucket = entries.values().next().unwrap();
    assert_eq!(bucket.len(), 1);
    assert_eq!(bucket[0].offset, 0);
    assert_eq!(bucket[0].len, 4);
}

#[test]
fn distinct_blocks_get_distinct_strong_hashes() {
    let mut base = vec![0u8; 4096];
    base.extend(vec![1u8; 4096]);
    let mut sig = Signature::new();
    sig.build(&base);
    let mut strongs: Vec<u64> = Vec::new();
    for bucket in sig.get_entries().values() {
        for e in bucket {
            strongs.push(e.strong);
        }
    }
    assert_eq!(strongs.len(), 2);
    assert_ne!(strongs[0], strongs[1]);
}
