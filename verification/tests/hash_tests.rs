use dedup_engine::hash::{compute_chunk_hash, fnv1a_hash, format_hex16};

#[test]
fn fnv1a_of_empty_is_offset_basis() {
    assert_eq!(fnv1a_hash(&[]), 0xcbf29ce484222325);
}

#[test]
fn fnv1a_known_vectors() {
    assert_eq!(fnv1a_hash(b"a"), 0xaf63dc4c8601ec8c);
    assert_eq!(fnv1a_hash(b"foobar"), 0x85944171f73967e8);
}

#[test]
fn chunk_hash_is_sixteen_lowercase_hex_digits() {
    assert_eq!(compute_chunk_hash(b""), "cbf29ce484222325");
    assert_eq!(compute_chunk_hash(b"foobar"), "85944171f73967e8");
    let zero_block = vec![0u8; 4096];
    assert_eq!(compute_chunk_hash(&zero_block), "b93a0c83ce3b6325");
}

#[test]
fn hex_is_zero_padded() {
    assert_eq!(format_hex16(0), "0000000000000000");
    assert_eq!(format_hex16(0xff), "00000000000000ff");
    assert_eq!(format_hex16(u64::MAX), "ffffffffffffffff");
    assert_eq!(format_hex16(0x0123456789abcdef), format!("{:016x}", 0x0123456789abcdef_u64));
}

#[test]
fn distinct_hashes_give_distinct_names() {
    assert_ne!(format_hex16(1), format_hex16(16));
    assert_ne!(compute_chunk_hash(b"a"), compute_chunk_hash(b"b"));
}
