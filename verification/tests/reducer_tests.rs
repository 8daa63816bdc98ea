use chain_table::reducer::reduce;

#[test]
fn folds_second_chunk_into_first() {
    assert_eq!(reduce(&[1, 2, 3, 4, 5, 6, 7, 8], 4), vec![1 ^ 5, 2 ^ 6, 3 ^ 7, 4 ^ 8]);
    assert_eq!(reduce(&[1, 2, 3, 4, 5, 6, 7, 8], 4), vec![4, 4, 4, 12]);
}

#[test]
fn folds_every_complete_chunk() {
    let digest = [0x10, 0x20, 0x01, 0x02, 0xff, 0x0f, 0x80, 0x08];
    assert_eq!(reduce(&digest, 2), vec![0x10 ^ 0x01 ^ 0xff ^ 0x80, 0x20 ^ 0x02 ^ 0x0f ^ 0x08]);
    assert_eq!(reduce(&digest, 2), vec![0x6e, 0x25]);
}

#[test]
fn ignores_a_trailing_partial_chunk() {
    assert_eq!(reduce(&[1, 2, 3, 4, 5, 6, 7], 3), vec![1 ^ 4, 2 ^ 5, 3 ^ 6]);
    assert_eq!(reduce(&[1, 2, 3, 4, 5, 6, 7], 3), reduce(&[1, 2, 3, 4, 5, 6], 3));
    assert_eq!(reduce(&[1, 2, 3, 4, 5], 3), vec![1, 2, 3]);
}

#[test]
fn digest_of_nonce_width_is_only_truncated() {
    assert_eq!(reduce(&[0x42], 1), vec![0x42]);
    assert_eq!(reduce(&[9, 8, 7, 6], 4), vec![9, 8, 7, 6]);
}

#[test]
fn width_one_folds_all_bytes() {
    assert_eq!(reduce(&[1, 2, 4, 8, 16], 1), vec![31]);
}

#[test]
fn width_zero_gives_the_empty_nonce() {
    assert_eq!(reduce(&[1, 2, 3], 0), Vec::<u8>::new());
    assert_eq!(reduce(&[], 0), Vec::<u8>::new());
}

#[test]
fn result_has_nonce_width() {
    let digest = [0xa5u8; 32];
    for width in 0..=32usize {
        assert_eq!(reduce(&digest, width).len(), width);
    }
}

#[test]
fn equals_xor_of_all_chunks_of_a_32_byte_digest() {
    let mut digest = [0u8; 32];
    for (i, byte) in digest.iter_mut().enumerate() {
        *byte = (i as u8).wrapping_mul(37).wrapping_add(11);
    }
    let mut expected = vec![0u8; 4];
    for chunk in digest.chunks(4) {
        for i in 0..4 {
            expected[i] ^= chunk[i];
        }
    }
    assert_eq!(reduce(&digest, 4), expected);
}

#[test]
fn chunk_order_does_not_matter() {
    let chunks: [[u8; 4]; 4] = [[1, 2, 3, 4], [50, 60, 70, 80], [9, 9, 9, 9], [0xf0, 0x0f, 0xaa, 0x55]];
    let orders: [[usize; 4]; 5] =
        [[0, 1, 2, 3], [3, 2, 1, 0], [1, 0, 3, 2], [2, 3, 0, 1], [3, 0, 1, 2]];
    let mut results = Vec::new();
    for order in orders.iter() {
        let mut digest = Vec::new();
        for &index in order.iter() {
            digest.extend_from_slice(&chunks[index]);
        }
        results.push(reduce(&digest, 4));
    }
    for result in results.iter() {
        assert_eq!(result, &results[0]);
    }
    assert_eq!(results[0], vec![1 ^ 50 ^ 9 ^ 0xf0, 2 ^ 60 ^ 9 ^ 0x0f, 3 ^ 70 ^ 9 ^ 0xaa, 4 ^ 80 ^ 9 ^ 0x55]);
}

#[test]
fn reduce_is_deterministic() {
    let digest = [7u8; 32];
    assert_eq!(reduce(&digest, 4), reduce(&digest, 4));
    assert_eq!(reduce(&digest, 4), vec![0, 0, 0, 0]);
    assert_eq!(reduce(&digest, 5), vec![0, 0, 0, 0, 0]);
    assert_eq!(reduce(&digest, 6), vec![7, 7, 7, 7, 7, 7]);
    assert_eq!(reduce(&digest, 7), vec![0, 0, 0, 0, 0, 0, 0]);
}
