use chain_table::explorer::successor;
use chain_table::oracle::{stretch, DIGEST_WIDTH};
use chain_table::reducer::reduce;

fn hex(bytes: &[u8]) -> String {
    let mut out = String::new();
    for byte in bytes {
        out.push_str(&format!("{:02x}", byte));
    }
    out
}

#[test]
fn digest_is_32_bytes_wide() {
    assert_eq!(DIGEST_WIDTH, 32);
    assert_eq!(stretch(b"anything", 3).len(), 32);
}

#[test]
fn no_rounds_is_plain_blake3_of_empty_input() {
    assert_eq!(
        hex(&stretch(b"", 0)),
        "af1349b9f5f9a1a6a0404dea36dcc9499bcb25c9adc112b7cc9a93cae41f3262"
    );
}

#[test]
fn no_rounds_is_plain_blake3_of_abc() {
    assert_eq!(
        hex(&stretch(b"abc", 0)),
        "6437b3ac38465133ffb63b75273a8db548c558465d79db03fd359c6cd5bd9d85"
    );
}

#[test]
fn no_rounds_agrees_with_blake3() {
    let input = [0u8, 0, 0, 7];
    assert_eq!(&stretch(&input, 0), blake3::hash(&input).as_bytes());
}

#[test]
fn each_round_hashes_the_digest_again() {
    let input = [1u8, 2, 3, 4];
    let once = blake3::hash(&input);
    let twice = blake3::hash(once.as_bytes());
    let thrice = blake3::hash(twice.as_bytes());
    assert_eq!(&stretch(&input, 1), twice.as_bytes());
    assert_eq!(&stretch(&input, 2), thrice.as_bytes());
}

#[test]
fn rounds_agree_with_an_incremental_hasher() {
    let input = [9u8, 9, 9, 9];
    let mut current = blake3::hash(&input);
    for _ in 0..100 {
        let mut hasher = blake3::Hasher::new();
        hasher.update(current.as_bytes());
        current = hasher.finalize();
    }
    assert_eq!(&stretch(&input, 100), current.as_bytes());
}

#[test]
fn stretch_accepts_input_of_any_length() {
    let long = vec![0xabu8; 5000];
    assert_eq!(&stretch(&long, 0), blake3::hash(&long).as_bytes());
    assert_eq!(&stretch(&[], 1), blake3::hash(blake3::hash(&[]).as_bytes()).as_bytes());
}

#[test]
fn stretch_is_deterministic() {
    let input = [0u8, 1, 2, 3];
    assert_eq!(stretch(&input, 5), stretch(&input, 5));
    assert_ne!(stretch(&input, 5), stretch(&input, 6));
    assert_ne!(stretch(&input, 5), stretch(&[0u8, 1, 2, 4], 5));
}

#[test]
fn successor_is_a_function_of_the_nonce() {
    for value in 0u8..=20 {
        let nonce = [0u8, 0, 0, value];
        let first = successor(&nonce, 3, 4);
        let second = successor(&nonce, 3, 4);
        assert_eq!(first, second);
        assert_eq!(first.len(), 4);
        assert_eq!(first, reduce(&stretch(&nonce, 3), 4));
    }
}

#[test]
fn successor_folds_the_blake3_digest() {
    let nonce = [0u8, 0, 0, 0];
    let digest = *blake3::hash(&nonce).as_bytes();
    let mut expected = [0u8; 4];
    for chunk in 0..8 {
        for i in 0..4 {
            expected[i] ^= digest[chunk * 4 + i];
        }
    }
    assert_eq!(successor(&nonce, 0, 4), expected.to_vec());
}
