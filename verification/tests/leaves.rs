use mem_attest::leaves::{
    derive_leaves, generate_leaves_from_file, generate_leaves_from_memory, power_of_two,
    StructuralError, CHUNK_SIZE,
};

fn image(len: usize) -> Vec<u8> {
    (0..len).map(|i| (i * 31 % 251) as u8).collect()
}

fn digest(bytes: &[u8]) -> [u8; 32] {
    *blake3::hash(bytes).as_bytes()
}

#[test]
fn two_blocks_give_two_leaves() {
    let mem = image(4096);
    let leaves = generate_leaves_from_memory(&mem).unwrap();
    assert_eq!(leaves.len(), 2);
    assert_eq!(leaves[0], digest(&mem[0..2048]));
    assert_eq!(leaves[1], digest(&mem[2048..4096]));
}

#[test]
fn leaves_are_hashes_of_windows_then_zero_padding() {
    let mem = image(5 * 16 + 7);
    let leaves = derive_leaves(&mem, 16).unwrap();
    assert_eq!(leaves.len(), 8);
    for i in 0..5 {
        assert_eq!(leaves[i], digest(&mem[i * 16..(i + 1) * 16]));
    }
    for i in 5..8 {
        assert_eq!(leaves[i], [0u8; 32]);
    }
}

#[test]
fn leaf_count_is_the_next_power_of_two() {
    let expected = [
        (1usize, 1usize),
        (2, 2),
        (3, 4),
        (4, 4),
        (5, 8),
        (8, 8),
        (9, 16),
        (17, 32),
        (64, 64),
        (65, 128),
    ];
    for (blocks, count) in expected {
        let mem = image(blocks * 3);
        assert_eq!(derive_leaves(&mem, 3).unwrap().len(), count);
        assert_eq!(count, blocks.next_power_of_two());
    }
}

#[test]
fn partial_final_block_is_dropped() {
    let mem = image(2 * 10 + 9);
    let leaves = derive_leaves(&mem, 10).unwrap();
    assert_eq!(leaves.len(), 2);
    assert_eq!(leaves, derive_leaves(&mem[..20], 10).unwrap());
    assert_eq!(leaves[1], digest(&mem[10..20]));
}

#[test]
fn single_block_needs_no_padding() {
    let mem = image(2048);
    let leaves = generate_leaves_from_memory(&mem).unwrap();
    assert_eq!(leaves, vec![digest(&mem)]);
}

#[test]
fn image_without_a_block_is_refused() {
    assert_eq!(generate_leaves_from_memory(&image(2047)), Err(StructuralError::NoContent));
    assert_eq!(generate_leaves_from_memory(&[]), Err(StructuralError::NoContent));
    assert_eq!(derive_leaves(&[], 4), Err(StructuralError::NoContent));
    assert_eq!(derive_leaves(&[1, 2, 3], 4), Err(StructuralError::NoContent));
    assert!(derive_leaves(&[1, 2, 3, 4], 4).is_ok());
}

#[test]
fn block_size_of_zero_cuts_no_blocks() {
    assert_eq!(derive_leaves(&[1, 2, 3], 0), Err(StructuralError::NoContent));
    assert_eq!(derive_leaves(&[], 0), Err(StructuralError::NoContent));
}

#[test]
fn leaves_depend_on_the_image_alone() {
    let mem = image(3 * 2048);
    assert_eq!(generate_leaves_from_memory(&mem), generate_leaves_from_memory(&mem.clone()));
}

#[test]
fn stored_image_gives_leaves_and_first_block() {
    let mem = image(3 * 2048 + 100);
    let (leaves, segment) = generate_leaves_from_file(&mem).unwrap();
    assert_eq!(leaves, generate_leaves_from_memory(&mem).unwrap());
    assert_eq!(leaves.len(), 4);
    assert_eq!(segment.len(), CHUNK_SIZE);
    assert_eq!(segment, mem[..2048].to_vec());
}

#[test]
fn stored_image_too_small_is_refused() {
    assert_eq!(generate_leaves_from_file(&image(100)), Err(StructuralError::NoContent));
    assert_eq!(generate_leaves_from_file(&image(2047)), Err(StructuralError::NoContent));
}

#[test]
fn powers_of_two_are_recognised() {
    for n in 0usize..2000 {
        assert_eq!(power_of_two(n), n.is_power_of_two(), "{}", n);
    }
    assert!(power_of_two(1 << 40));
    assert!(!power_of_two((1 << 40) + 1));
    assert!(!power_of_two(usize::MAX));
}
