use dedup::digest::{full_digest, partial_digest, BLOCK_LEN};

fn to_hex(d: &[u8]) -> String {
    let mut s = String::new();
    for b in d {
        s.push_str(&format!("{:02x}", b));
    }
    s
}

#[test]
fn equal_content_equal_digests() {
    let a = b"some file content".to_vec();
    let b = b"some file content".to_vec();
    assert_eq!(partial_digest(&a), partial_digest(&b));
    assert_eq!(full_digest(&a), full_digest(&b));
}

#[test]
fn different_content_different_digests() {
    let a = b"some file content".to_vec();
    let b = b"other file content".to_vec();
    assert_ne!(partial_digest(&a), partial_digest(&b));
    assert_ne!(full_digest(&a), full_digest(&b));
}

#[test]
fn digest_is_32_bytes() {
    assert_eq!(partial_digest(b"x").len(), 32);
    assert_eq!(full_digest(b"x").len(), 32);
}

#[test]
fn full_digest_of_empty_is_sha256_of_nothing() {
    // Empty content feeds no block at all to the hash.
    let d = full_digest(&[]);
    assert_eq!(
        to_hex(&d),
        "e3b0c44298fc1c149afbf4c8996fb92427ae41e4649b934ca495991b7852b855"
    );
}

#[test]
fn partial_digest_of_empty_is_one_zero_block() {
    // The partial digest always covers one whole block, zero-padded.
    let zeros = vec![0u8; BLOCK_LEN];
    assert_eq!(partial_digest(&[]), full_digest(&zeros));
    assert_ne!(partial_digest(&[]), full_digest(&[]));
}

#[test]
fn short_content_partial_equals_full() {
    // Content within one block pads to the same single block both ways.
    let a = b"AAAA".to_vec();
    assert_eq!(partial_digest(&a), full_digest(&a));
}

#[test]
fn trailing_zero_padding_is_preserved() {
    // A file ending in a zero byte hashes like the same file without it when
    // both pad to the same block: the historical behaviour, kept on purpose.
    let a = b"AAAA".to_vec();
    let b = b"AAAA\0".to_vec();
    assert_eq!(full_digest(&a), full_digest(&b));
}

#[test]
fn partial_covers_only_the_first_block() {
    // Differences past the first block change the full digest only.
    let mut a = vec![7u8; BLOCK_LEN + 10];
    let mut b = vec![7u8; BLOCK_LEN + 10];
    a[BLOCK_LEN + 5] = 1;
    b[BLOCK_LEN + 5] = 2;
    assert_eq!(partial_digest(&a), partial_digest(&b));
    assert_ne!(full_digest(&a), full_digest(&b));
}

#[test]
fn partial_sees_first_block_differences() {
    let mut a = vec![7u8; BLOCK_LEN + 10];
    let mut b = vec![7u8; BLOCK_LEN + 10];
    a[0] = 1;
    b[0] = 2;
    assert_ne!(partial_digest(&a), partial_digest(&b));
}
