use merkle_path::{Field, HashError, LeafHash, MerkleError, MerklePath, PathHash};

/// Hashes a `u64` leaf: fails on `u64::MAX`.
struct TestLeafHasher;

impl LeafHash for TestLeafHasher {
    type Leaf = u64;

    fn hash_leaf(&self, leaf: &u64) -> Result<Field, HashError> {
        if *leaf == u64::MAX {
            return Err(HashError);
        }
        let mut bytes = [0u8; 32];
        for (i, byte) in bytes.iter_mut().enumerate() {
            *byte = (leaf.wrapping_mul(0x9E37_79B9_7F4A_7C15).rotate_left(i as u32) >> 7) as u8 ^ (i as u8);
        }
        Ok(Field::new(bytes))
    }
}

/// Combines two children, the order counting: fails where the left child is all `0xEE`.
struct TestPathHasher;

impl PathHash for TestPathHasher {
    fn hash_children(&self, left: &Field, right: &Field) -> Result<Field, HashError> {
        let l = left.to_bytes_le();
        let r = right.to_bytes_le();
        if l.iter().all(|b| *b == 0xEE) {
            return Err(HashError);
        }
        let mut acc: u64 = 0xcbf2_9ce4_8422_2325;
        let mut bytes = [0u8; 32];
        for i in 0..32 {
            acc = (acc ^ l[i] as u64).wrapping_mul(0x0000_0100_0000_01B3);
            acc = (acc ^ (r[i] as u64).wrapping_add(0x55)).wrapping_mul(0x0000_0100_0000_01B3).rotate_left(5);
        }
        for (i, byte) in bytes.iter_mut().enumerate() {
            acc = (acc ^ l[31 - i] as u64).wrapping_mul(0x0000_0100_0000_01B3).rotate_left(11);
            *byte = (acc >> 24) as u8;
        }
        Ok(Field::new(bytes))
    }
}

fn field(seed: u8) -> Field {
    let mut bytes = [0u8; 32];
    for (i, byte) in bytes.iter_mut().enumerate() {
        *byte = seed.wrapping_mul(7).wrapping_add(i as u8);
    }
    Field::new(bytes)
}

fn combine(left: &Field, right: &Field) -> Field {
    TestPathHasher.hash_children(left, right).unwrap()
}

/// All levels of a tree over the given leaves, leaf hashes first, root last.
fn build_tree(leaves: &[u64]) -> Vec<Vec<Field>> {
    let mut levels = vec![leaves.iter().map(|l| TestLeafHasher.hash_leaf(l).unwrap()).collect::<Vec<_>>()];
    while levels.last().unwrap().len() > 1 {
        let below = levels.last().unwrap();
        let mut above = Vec::new();
        for pair in below.chunks(2) {
            above.push(combine(&pair[0], &pair[1]));
        }
        levels.push(above);
    }
    levels
}

fn honest_siblings(levels: &[Vec<Field>], leaf_index: u64) -> Vec<Field> {
    let mut siblings = Vec::new();
    for (level, nodes) in levels.iter().enumerate().take(levels.len() - 1) {
        let position = (leaf_index >> level) as usize;
        siblings.push(nodes[position ^ 1]);
    }
    siblings
}

#[test]
fn depth_two_index_two_follows_right_then_left() {
    let s0 = field(1);
    let s1 = field(2);
    let leaf = 77u64;
    let leaf_hash = TestLeafHasher.hash_leaf(&leaf).unwrap();
    let h0 = combine(&leaf_hash, &s0);
    let h1 = combine(&s1, &h0);
    let path = MerklePath::<2>::try_from((2u64, vec![s0, s1])).unwrap();
    assert_eq!(path.compute_root(&TestLeafHasher, &TestPathHasher, &leaf), Ok(h1));
    assert!(path.verify(&TestLeafHasher, &TestPathHasher, &h1, &leaf));
    // Any other ordering of the children gives another root.
    let swapped_low = combine(&s1, &combine(&s0, &leaf_hash));
    let swapped_high = combine(&h0, &s1);
    assert_ne!(swapped_low, h1);
    assert_ne!(swapped_high, h1);
    assert!(!path.verify(&TestLeafHasher, &TestPathHasher, &swapped_low, &leaf));
    assert!(!path.verify(&TestLeafHasher, &TestPathHasher, &swapped_high, &leaf));
    assert!(!path.verify(&TestLeafHasher, &TestPathHasher, &h0, &leaf));
}

#[test]
fn index_zero_is_always_the_left_child() {
    let siblings = vec![field(3), field(4), field(5)];
    let leaf = 9u64;
    let mut current = TestLeafHasher.hash_leaf(&leaf).unwrap();
    for sibling in &siblings {
        current = combine(&current, sibling);
    }
    let path = MerklePath::<3>::try_from((0u64, siblings)).unwrap();
    assert!(path.verify(&TestLeafHasher, &TestPathHasher, &current, &leaf));
}

#[test]
fn depth_one_path_verifies() {
    let leaf = 5u64;
    let leaf_hash = TestLeafHasher.hash_leaf(&leaf).unwrap();
    let sibling = field(8);
    let left = MerklePath::<1>::try_from((0u64, vec![sibling])).unwrap();
    assert!(left.verify(&TestLeafHasher, &TestPathHasher, &combine(&leaf_hash, &sibling), &leaf));
    let right = MerklePath::<1>::try_from((1u64, vec![sibling])).unwrap();
    assert!(right.verify(&TestLeafHasher, &TestPathHasher, &combine(&sibling, &leaf_hash), &leaf));
    assert!(!right.verify(&TestLeafHasher, &TestPathHasher, &combine(&leaf_hash, &sibling), &leaf));
}

#[test]
fn honest_paths_verify_against_the_root() {
    let leaves: Vec<u64> = (100..108).collect();
    let levels = build_tree(&leaves);
    let root = levels.last().unwrap()[0];
    for (index, leaf) in leaves.iter().enumerate() {
        let siblings = honest_siblings(&levels, index as u64);
        let path = MerklePath::<3>::try_from((index as u64, siblings)).unwrap();
        assert!(path.verify(&TestLeafHasher, &TestPathHasher, &root, leaf));
        // Another leaf at the same place is not a member.
        assert!(!path.verify(&TestLeafHasher, &TestPathHasher, &root, &(leaf + 1000)));
    }
}

#[test]
fn honest_path_at_another_index_is_rejected() {
    let leaves: Vec<u64> = (100..108).collect();
    let levels = build_tree(&leaves);
    let root = levels.last().unwrap()[0];
    let siblings = honest_siblings(&levels, 5);
    let path = MerklePath::<3>::try_from((4u64, siblings)).unwrap();
    assert!(!path.verify(&TestLeafHasher, &TestPathHasher, &root, &leaves[5]));
}

#[test]
fn flipping_one_sibling_bit_is_rejected() {
    let leaves: Vec<u64> = (0..16).collect();
    let levels = build_tree(&leaves);
    let root = levels.last().unwrap()[0];
    let siblings = honest_siblings(&levels, 11);
    for level in 0..4 {
        for bit in [0usize, 7, 100, 255] {
            let mut forged = siblings.clone();
            let mut bytes = forged[level].to_bytes_le();
            bytes[bit / 8] ^= 1 << (bit % 8);
            forged[level] = Field::from_bytes_le(&bytes).unwrap();
            let path = MerklePath::<4>::try_from((11u64, forged)).unwrap();
            assert!(!path.verify(&TestLeafHasher, &TestPathHasher, &root, &leaves[11]));
        }
    }
    let path = MerklePath::<4>::try_from((11u64, siblings)).unwrap();
    assert!(path.verify(&TestLeafHasher, &TestPathHasher, &root, &leaves[11]));
}

fn check_leaf_index_bound<const DEPTH: u8>() {
    let siblings: Vec<Field> = (0..DEPTH).map(field).collect();
    let limit = 1u64 << DEPTH;
    for leaf_index in 0..limit + 20 {
        let built = MerklePath::<DEPTH>::try_from((leaf_index, siblings.clone()));
        if leaf_index < limit {
            let path = built.unwrap();
            assert_eq!(path.leaf_index(), leaf_index);
            assert_eq!(path.siblings(), &siblings[..]);
        } else {
            assert_eq!(built, Err(MerkleError::LeafIndexOutOfBounds));
        }
    }
    assert_eq!(
        MerklePath::<DEPTH>::try_from((u64::MAX, siblings)),
        Err(MerkleError::LeafIndexOutOfBounds)
    );
}

#[test]
fn leaf_index_is_bounded_by_the_depth() {
    check_leaf_index_bound::<1>();
    check_leaf_index_bound::<2>();
    check_leaf_index_bound::<3>();
    check_leaf_index_bound::<4>();
    check_leaf_index_bound::<5>();
    check_leaf_index_bound::<6>();
    check_leaf_index_bound::<7>();
    check_leaf_index_bound::<8>();
}

fn check_path_length<const DEPTH: u8>() {
    for len in 0..(DEPTH as usize + 4) {
        let siblings: Vec<Field> = (0..len as u8).map(field).collect();
        let built = MerklePath::<DEPTH>::try_from((0u64, siblings));
        if len == DEPTH as usize {
            assert!(built.is_ok());
        } else {
            assert_eq!(built, Err(MerkleError::PathLengthMismatch));
        }
    }
}

#[test]
fn sibling_count_must_equal_the_depth() {
    check_path_length::<1>();
    check_path_length::<2>();
    check_path_length::<5>();
    check_path_length::<8>();
    check_path_length::<64>();
}

#[test]
fn depth_must_be_between_one_and_sixty_four() {
    assert_eq!(MerklePath::<0>::try_from((0u64, vec![])), Err(MerkleError::InvalidDepth));
    let siblings: Vec<Field> = (0..65).map(field).collect();
    assert_eq!(MerklePath::<65>::try_from((0u64, siblings)), Err(MerkleError::InvalidDepth));
    assert_eq!(MerklePath::<255>::try_from((0u64, vec![])), Err(MerkleError::InvalidDepth));
}

#[test]
fn depth_sixty_four_takes_every_leaf_index() {
    let siblings: Vec<Field> = (0..64).map(field).collect();
    let path = MerklePath::<64>::try_from((u64::MAX, siblings.clone())).unwrap();
    assert_eq!(path.leaf_index(), u64::MAX);
    let leaf = 1u64;
    let mut current = TestLeafHasher.hash_leaf(&leaf).unwrap();
    for sibling in &siblings {
        current = combine(sibling, &current);
    }
    assert!(path.verify(&TestLeafHasher, &TestPathHasher, &current, &leaf));
    let siblings: Vec<Field> = (0..63).map(field).collect();
    assert_eq!(
        MerklePath::<63>::try_from((1u64 << 63, siblings)),
        Err(MerkleError::LeafIndexOutOfBounds)
    );
}

#[test]
fn the_first_broken_rule_is_reported() {
    // Both the index and the length are wrong: the index comes first.
    assert_eq!(MerklePath::<2>::try_from((4u64, vec![field(1)])), Err(MerkleError::LeafIndexOutOfBounds));
    // The depth comes before both.
    assert_eq!(MerklePath::<0>::try_from((1u64, vec![field(1)])), Err(MerkleError::InvalidDepth));
}

#[test]
fn siblings_are_stored_in_order() {
    let siblings = vec![field(9), field(1), field(9), field(4)];
    let path = MerklePath::<4>::try_from((6u64, siblings.clone())).unwrap();
    assert_eq!(path.siblings(), &siblings[..]);
    assert_eq!(path.leaf_index(), 6);
}

#[test]
fn a_failing_leaf_hasher_rejects() {
    let path = MerklePath::<1>::try_from((0u64, vec![field(1)])).unwrap();
    assert_eq!(
        path.compute_root(&TestLeafHasher, &TestPathHasher, &u64::MAX),
        Err(MerkleError::HashError)
    );
    assert!(!path.verify(&TestLeafHasher, &TestPathHasher, &field(0), &u64::MAX));
}

#[test]
fn a_failing_path_hasher_rejects() {
    let poison = Field::new([0xEE; 32]);
    // Index 1 puts the sibling on the left at level 0.
    let path = MerklePath::<2>::try_from((1u64, vec![poison, field(2)])).unwrap();
    assert_eq!(path.compute_root(&TestLeafHasher, &TestPathHasher, &3), Err(MerkleError::HashError));
    assert!(!path.verify(&TestLeafHasher, &TestPathHasher, &field(0), &3));
    // Index 0 puts it on the right, where this hasher takes it.
    let path = MerklePath::<2>::try_from((0u64, vec![poison, field(2)])).unwrap();
    assert!(path.compute_root(&TestLeafHasher, &TestPathHasher, &3).is_ok());
}

#[test]
fn binary_form_is_index_then_siblings() {
    let siblings = vec![field(1), field(2)];
    let path = MerklePath::<2>::try_from((3u64, siblings.clone())).unwrap();
    let bytes = path.to_bytes_le();
    let mut expected = vec![3u8, 0, 0, 0, 0, 0, 0, 0];
    expected.extend(siblings[0].to_bytes_le());
    expected.extend(siblings[1].to_bytes_le());
    assert_eq!(bytes, expected);
    assert_eq!(bytes.len(), 72);
}

#[test]
fn leaf_index_is_written_little_endian() {
    let siblings: Vec<Field> = (0..64).map(field).collect();
    let path = MerklePath::<64>::try_from((0x0102_0304_0506_0708u64, siblings)).unwrap();
    let bytes = path.to_bytes_le();
    assert_eq!(&bytes[..8], &[8u8, 7, 6, 5, 4, 3, 2, 1]);
    assert_eq!(&bytes[..8], &0x0102_0304_0506_0708u64.to_le_bytes());
    assert_eq!(MerklePath::<64>::read_le(&bytes).unwrap().leaf_index(), 0x0102_0304_0506_0708);
}

#[test]
fn write_le_appends() {
    let path = MerklePath::<1>::try_from((1u64, vec![field(6)])).unwrap();
    let mut out = vec![0xAAu8, 0xBB];
    path.write_le(&mut out);
    assert_eq!(&out[..2], &[0xAA, 0xBB]);
    assert_eq!(&out[2..], &path.to_bytes_le()[..]);
}

fn check_round_trip<const DEPTH: u8>(leaf_index: u64) {
    let siblings: Vec<Field> = (0..DEPTH).map(|i| field(i.wrapping_mul(3))).collect();
    let path = MerklePath::<DEPTH>::try_from((leaf_index, siblings)).unwrap();
    let bytes = path.to_bytes_le();
    assert_eq!(bytes.len(), MerklePath::<DEPTH>::expected_size());
    assert_eq!(MerklePath::<DEPTH>::read_le(&bytes), Ok(path));
}

#[test]
fn decoding_an_encoding_gives_the_path_back() {
    check_round_trip::<1>(0);
    check_round_trip::<1>(1);
    check_round_trip::<3>(5);
    check_round_trip::<8>(255);
    check_round_trip::<32>(0xDEAD_BEEF);
    check_round_trip::<64>(u64::MAX);
}

#[test]
fn expected_size_is_eight_bytes_and_one_field_per_level() {
    assert_eq!(MerklePath::<1>::expected_size(), 40);
    assert_eq!(MerklePath::<2>::expected_size(), 72);
    assert_eq!(MerklePath::<32>::expected_size(), 1032);
    assert_eq!(MerklePath::<64>::expected_size(), 2056);
    assert_eq!(merkle_path::FIELD_SIZE_IN_BYTES, 32);
    assert_eq!(merkle_path::FIELD_SIZE_IN_BITS, 256);
}

#[test]
fn truncated_buffers_are_rejected() {
    let path = MerklePath::<3>::try_from((5u64, vec![field(1), field(2), field(3)])).unwrap();
    let bytes = path.to_bytes_le();
    for len in 0..bytes.len() {
        assert_eq!(MerklePath::<3>::read_le(&bytes[..len]), Err(MerkleError::TruncatedInput));
    }
    assert_eq!(MerklePath::<3>::read_le(&[]), Err(MerkleError::TruncatedInput));
    // Truncation is found before the depth is judged.
    assert_eq!(MerklePath::<0>::read_le(&[0u8; 7]), Err(MerkleError::TruncatedInput));
    assert_eq!(MerklePath::<0>::read_le(&[0u8; 8]), Err(MerkleError::InvalidDepth));
}

#[test]
fn oversized_buffers_decode_from_the_front() {
    let path = MerklePath::<2>::try_from((1u64, vec![field(1), field(2)])).unwrap();
    let mut bytes = path.to_bytes_le();
    bytes.extend([0xFFu8; 50]);
    assert_eq!(MerklePath::<2>::read_le(&bytes), Ok(path));
}

#[test]
fn decoding_checks_the_leaf_index() {
    let mut bytes = vec![4u8, 0, 0, 0, 0, 0, 0, 0];
    bytes.extend([0u8; 64]);
    assert_eq!(MerklePath::<2>::read_le(&bytes), Err(MerkleError::LeafIndexOutOfBounds));
    bytes[0] = 3;
    assert_eq!(MerklePath::<2>::read_le(&bytes).unwrap().leaf_index(), 3);
    // A high byte counts too.
    bytes[7] = 1;
    assert_eq!(MerklePath::<2>::read_le(&bytes), Err(MerkleError::LeafIndexOutOfBounds));
}

#[test]
fn decoded_siblings_are_the_chunks_in_order() {
    let mut bytes = vec![0u8; 8];
    bytes.extend((0..64).map(|i| i as u8));
    let path = MerklePath::<2>::read_le(&bytes).unwrap();
    assert_eq!(path.siblings()[0].to_bytes_le(), (0..32).collect::<Vec<u8>>());
    assert_eq!(path.siblings()[1].to_bytes_le(), (32..64).collect::<Vec<u8>>());
}

#[test]
fn field_takes_exactly_thirty_two_bytes() {
    assert_eq!(Field::from_bytes_le(&[1u8; 31]), None);
    assert_eq!(Field::from_bytes_le(&[1u8; 33]), None);
    assert_eq!(Field::from_bytes_le(&[]), None);
    let bytes: Vec<u8> = (0..32).collect();
    let f = Field::from_bytes_le(&bytes).unwrap();
    assert_eq!(f.to_bytes_le(), bytes);
    let mut out = vec![9u8];
    f.write_le(&mut out);
    assert_eq!(out.len(), 33);
    assert_eq!(&out[1..], &bytes[..]);
}

#[test]
fn fields_compare_by_their_bytes() {
    assert_eq!(Field::new([3u8; 32]), Field::new([3u8; 32]));
    let mut other = [3u8; 32];
    other[31] = 4;
    assert_ne!(Field::new([3u8; 32]), Field::new(other));
    other[31] = 3;
    other[0] = 2;
    assert_ne!(Field::new([3u8; 32]), Field::new(other));
}

#[test]
fn each_error_has_its_message() {
    assert_eq!(MerkleError::InvalidDepth.message(), "Merkle tree depth must be between 1 and 64");
    assert_eq!(MerkleError::LeafIndexOutOfBounds.message(), "Found an out of bounds Merkle leaf index");
    assert_eq!(MerkleError::PathLengthMismatch.message(), "Found an incorrect Merkle path length");
    assert_eq!(MerkleError::TruncatedInput.message(), "Found a truncated Merkle path encoding");
    assert_eq!(MerkleError::HashError.message(), "Failed to hash during Merkle path verification");
}

#[test]
fn paths_compare_by_index_and_siblings() {
    let path = MerklePath::<2>::try_from((1u64, vec![field(1), field(2)])).unwrap();
    assert_eq!(path.clone(), path);
    assert_eq!(path.clone().siblings(), path.siblings());
    assert_ne!(MerklePath::<2>::try_from((0u64, vec![field(1), field(2)])).unwrap(), path);
    assert_ne!(MerklePath::<2>::try_from((1u64, vec![field(1), field(3)])).unwrap(), path);
    assert_ne!(MerklePath::<2>::try_from((1u64, vec![field(2), field(1)])).unwrap(), path);
}
