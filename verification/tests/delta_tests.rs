use obsidian_syncer::cryptography::delta::{Delta, DeltaOperations};
use obsidian_syncer::cryptography::signatures::BLOCK_SIZE;

fn no_adjacent_inserts(ops: &[DeltaOperations]) -> bool {
    for w in ops.windows(2) {
        if matches!(w[0], DeltaOperations::Insert { .. })
            && matches!(w[1], DeltaOperations::Insert { .. })
        {
            return false;
        }
    }
    true
}

fn copies_bounded(ops: &[DeltaOperations], base_len: usize, block: usize) -> bool {
    for op in ops {
        if let DeltaOperations::Copy { offset, len } = op {
            if *len != block || offset + len > base_len {
                return false;
            }
        }
    }
    true
}

/// Deterministic pseudo-random bytes for round-trip inputs.
fn pseudo_bytes(n: usize, mut seed: u64) -> Vec<u8> {
    let mut out = Vec::with_capacity(n);
    for _ in 0..n {
        seed = seed.wrapping_mul(6364136223846793005).wrapping_add(1442695040888963407);
        out.push((seed >> 33) as u8);
    }
    out
}

#[test]
fn small_block_identity_scenario() {
    let base = b"the quick brown fox".to_vec();
    let new_ = b"the quick brown fox".to_vec();
    let delta = Delta::generate_delta_with(4, &base, &new_);
    let ops = delta.get_operations();
    assert_eq!(ops.len(), 5);
    for (i, op) in ops.iter().take(4).enumerate() {
        match op {
            DeltaOperations::Copy { offset, len } => {
                assert_eq!(*offset, i * 4);
                assert_eq!(*len, 4);
            }
            DeltaOperations::Insert { .. } => panic!("expected a copy at {}", i),
        }
    }
    match &ops[4] {
        DeltaOperations::Insert { data } => assert_eq!(data, b"fox"),
        DeltaOperations::Copy { .. } => panic!("expected a trailing insert"),
    }
    assert_eq!(delta.apply(&base), new_);
}

#[test]
fn half_changed_scenario() {
    let base = vec![0x00u8; 8192];
    let mut new_ = vec![0x00u8; 4096];
    new_.extend(std::iter::repeat(0xFFu8).take(4096));
    let del = Delta::new();
    let delta = del.generate_delta(&base, &new_);
    let ops = delta.get_operations();
    assert_eq!(ops.len(), 2);
    match &ops[0] {
        DeltaOperations::Copy { offset, len } => {
            assert_eq!(*offset, 0);
            assert_eq!(*len, 4096);
        }
        DeltaOperations::Insert { .. } => panic!("expected a leading copy"),
    }
    match &ops[1] {
        DeltaOperations::Insert { data } => assert_eq!(data, &vec![0xFFu8; 4096]),
        DeltaOperations::Copy { .. } => panic!("expected a trailing insert"),
    }
    assert_eq!(delta.apply(&base), new_);
}

#[test]
fn short_input_is_one_insert() {
    let base = b"hello world".to_vec();
    let new_ = b"HELLO WORLD".to_vec();
    let del = Delta::new();
    let delta = del.generate_delta(&base, &new_);
    let ops = delta.get_operations();
    assert_eq!(ops.len(), 1);
    match &ops[0] {
        DeltaOperations::Insert { data } => assert_eq!(data, b"HELLO WORLD"),
        DeltaOperations::Copy { .. } => panic!("expected a single insert"),
    }
    assert_eq!(delta.apply(&base), new_);
}

#[test]
fn empty_base_single_byte() {
    let base: Vec<u8> = Vec::new();
    let new_ = b"x".to_vec();
    let del = Delta::new();
    let delta = del.generate_delta(&base, &new_);
    let ops = delta.get_operations();
    assert_eq!(ops.len(), 1);
    match &ops[0] {
        DeltaOperations::Insert { data } => assert_eq!(data, b"x"),
        DeltaOperations::Copy { .. } => panic!("expected a single insert"),
    }
    assert_eq!(delta.apply(&base), b"x");
}

#[test]
fn empty_base_long_input() {
    let base: Vec<u8> = Vec::new();
    let new_ = pseudo_bytes(10000, 7);
    let del = Delta::new();
    let delta = del.generate_delta(&base, &new_);
    let ops = delta.get_operations();
    assert_eq!(ops.len(), 1);
    match &ops[0] {
        DeltaOperations::Insert { data } => assert_eq!(data, &new_),
        DeltaOperations::Copy { .. } => panic!("expected a single insert"),
    }
    assert_eq!(delta.apply(&base), new_);
}

#[test]
fn empty_inputs_give_empty_delta() {
    let base: Vec<u8> = Vec::new();
    let new_: Vec<u8> = Vec::new();
    let del = Delta::new();
    let delta = del.generate_delta(&base, &new_);
    assert_eq!(delta.get_operations().len(), 0);
    assert_eq!(delta.apply(&base), Vec::<u8>::new());
}

#[test]
fn prefix_insert_resync_scenario() {
    let mut base = Vec::new();
    for _ in 0..1024 {
        base.extend_from_slice(b"abcdefgh");
    }
    let mut new_ = b"Z".to_vec();
    new_.extend_from_slice(&base);
    assert_eq!(base.len(), 8192);
    assert_eq!(new_.len(), 8193);
    let del = Delta::new();
    let delta = del.generate_delta(&base, &new_);
    let ops = delta.get_operations();
    match &ops[0] {
        DeltaOperations::Insert { data } => assert_eq!(data, b"Z"),
        DeltaOperations::Copy { .. } => panic!("expected a leading insert"),
    }
    let mut copied = 0usize;
    for op in ops.iter().skip(1) {
        match op {
            DeltaOperations::Copy { len, .. } => {
                assert_eq!(*len, 4096);
                copied += len;
            }
            DeltaOperations::Insert { .. } => panic!("expected only copies after the insert"),
        }
    }
    assert_eq!(copied, 8192);
    assert_eq!(delta.apply(&base), new_);
}

#[test]
fn crafted_out_of_range_copy_writes_nothing() {
    let base = b"hello".to_vec();
    let ops = vec![DeltaOperations::Copy { offset: base.len(), len: 10 }];
    let delta = Delta::from_operations(ops);
    assert_eq!(delta.apply(&base), Vec::<u8>::new());
}

#[test]
fn crafted_overlong_copy_is_clipped() {
    let base = b"hello".to_vec();
    let ops = vec![
        DeltaOperations::Copy { offset: 2, len: 10 },
        DeltaOperations::Insert { data: b"!".to_vec() },
    ];
    let delta = Delta::from_operations(ops);
    assert_eq!(delta.apply(&base), b"llo!");
}

#[test]
fn identity_delta_is_copies_then_tail() {
    let base = pseudo_bytes(10000, 99);
    let del = Delta::new();
    let delta = del.generate_delta(&base, &base);
    let ops = delta.get_operations();
    // 10000 = 2 * 4096 + 1808
    assert_eq!(ops.len(), 3);
    for op in ops.iter().take(2) {
        match op {
            DeltaOperations::Copy { len, .. } => assert_eq!(*len, 4096),
            DeltaOperations::Insert { .. } => panic!("expected copies first"),
        }
    }
    match &ops[2] {
        DeltaOperations::Insert { data } => assert_eq!(data, &base[8192..]),
        DeltaOperations::Copy { .. } => panic!("expected a trailing insert"),
    }
    assert_eq!(delta.apply(&base), base);
}

#[test]
fn identity_delta_without_tail() {
    let base = pseudo_bytes(8192, 5);
    let del = Delta::new();
    let delta = del.generate_delta(&base, &base);
    let ops = delta.get_operations();
    assert_eq!(ops.len(), 2);
    for op in ops.iter() {
        match op {
            DeltaOperations::Copy { len, .. } => assert_eq!(*len, 4096),
            DeltaOperations::Insert { .. } => panic!("expected only copies"),
        }
    }
    assert_eq!(delta.apply(&base), base);
}

#[test]
fn round_trip_edited_middle() {
    let base = pseudo_bytes(20000, 3);
    let mut new_ = base.clone();
    for b in new_.iter_mut().skip(9000).take(500) {
        *b ^= 0xA5;
    }
    let del = Delta::new();
    let delta = del.generate_delta(&base, &new_);
    assert_eq!(delta.apply(&base), new_);
    let ops = delta.get_operations();
    assert!(copies_bounded(ops, base.len(), BLOCK_SIZE));
    assert!(no_adjacent_inserts(ops));
    assert!(ops
        .iter()
        .any(|op| matches!(op, DeltaOperations::Copy { .. })));
}

#[test]
fn round_trip_inserted_bytes() {
    let base = pseudo_bytes(16384, 11);
    let mut new_ = base[..5000].to_vec();
    new_.extend_from_slice(b"some freshly inserted plugin text");
    new_.extend_from_slice(&base[5000..]);
    let del = Delta::new();
    let delta = del.generate_delta(&base, &new_);
    assert_eq!(delta.apply(&base), new_);
    let ops = delta.get_operations();
    assert!(copies_bounded(ops, base.len(), BLOCK_SIZE));
    assert!(no_adjacent_inserts(ops));
}

#[test]
fn round_trip_deleted_bytes() {
    let base = pseudo_bytes(16384, 13);
    let mut new_ = base[..2000].to_vec();
    new_.extend_from_slice(&base[7000..]);
    let del = Delta::new();
    let delta = del.generate_delta(&base, &new_);
    assert_eq!(delta.apply(&base), new_);
}

#[test]
fn round_trip_dissimilar_inputs() {
    let base = pseudo_bytes(9000, 17);
    let new_ = pseudo_bytes(9000, 18);
    let del = Delta::new();
    let delta = del.generate_delta(&base, &new_);
    let ops = delta.get_operations();
    assert_eq!(ops.len(), 1);
    match &ops[0] {
        DeltaOperations::Insert { data } => assert_eq!(data, &new_),
        DeltaOperations::Copy { .. } => panic!("expected one big insert"),
    }
    assert_eq!(delta.apply(&base), new_);
}

#[test]
fn new_delta_is_empty() {
    let d = Delta::new();
    assert_eq!(d.get_operations().len(), 0);
    assert_eq!(d.apply(b"anything"), Vec::<u8>::new());
}
