use chain_table::nonce::{nonce_of, same_bytes, space_len, value_of, MAX_NONCE_WIDTH};

#[test]
fn space_is_256_to_the_width() {
    assert_eq!(space_len(0), 1);
    assert_eq!(space_len(1), 256);
    assert_eq!(space_len(2), 65_536);
    assert_eq!(space_len(4), 4_294_967_296);
    assert_eq!(space_len(MAX_NONCE_WIDTH), 72_057_594_037_927_936);
}

#[test]
fn value_reads_most_significant_byte_first() {
    assert_eq!(value_of(&[]), 0);
    assert_eq!(value_of(&[0, 0, 0, 0]), 0);
    assert_eq!(value_of(&[0, 0, 0, 1]), 1);
    assert_eq!(value_of(&[0, 0, 1, 0]), 256);
    assert_eq!(value_of(&[1, 2, 3, 4]), 0x0102_0304);
    assert_eq!(value_of(&[0xff; 7]), 72_057_594_037_927_935);
}

#[test]
fn nonce_spells_most_significant_byte_first() {
    assert_eq!(nonce_of(0, 4), vec![0, 0, 0, 0]);
    assert_eq!(nonce_of(1, 4), vec![0, 0, 0, 1]);
    assert_eq!(nonce_of(256, 4), vec![0, 0, 1, 0]);
    assert_eq!(nonce_of(0x0102_0304, 4), vec![1, 2, 3, 4]);
    assert_eq!(nonce_of(5, 0), Vec::<u8>::new());
}

#[test]
fn nonce_keeps_only_the_low_bytes() {
    assert_eq!(nonce_of(256, 1), vec![0]);
    assert_eq!(nonce_of(0x0102_0304, 2), vec![3, 4]);
    assert_eq!(nonce_of(u64::MAX, 3), vec![0xff, 0xff, 0xff]);
}

#[test]
fn value_and_nonce_are_inverse() {
    for value in [0u64, 1, 255, 256, 65_535, 65_536, 16_777_215] {
        assert_eq!(value_of(&nonce_of(value, 3)), value);
    }
    for nonce in [[0u8, 0, 0], [0, 0, 9], [0, 9, 0], [9, 0, 0], [255, 255, 255]] {
        assert_eq!(nonce_of(value_of(&nonce), 3), nonce.to_vec());
    }
}

#[test]
fn incrementing_carries_into_the_earlier_byte() {
    assert_eq!(nonce_of(value_of(&[0, 0, 0, 255]) + 1, 4), vec![0, 0, 1, 0]);
    assert_eq!(nonce_of(value_of(&[0, 255, 255, 255]) + 1, 4), vec![1, 0, 0, 0]);
    assert_eq!(nonce_of(value_of(&[255, 255, 255, 255]) + 1, 4), vec![0, 0, 0, 0]);
}

#[test]
fn same_bytes_compares_length_and_content() {
    assert!(same_bytes(&[], &[]));
    assert!(same_bytes(&[1, 2, 3], &[1, 2, 3]));
    assert!(!same_bytes(&[1, 2, 3], &[1, 2, 4]));
    assert!(!same_bytes(&[1, 2, 3], &[1, 2]));
    assert!(!same_bytes(&[0], &[]));
}
