use dedup_engine::chunk::{pad_block, strip_trailing_zeros, BLOCK_SIZE};
use dedup_engine::compress::compress_chunk;
use dedup_engine::restore::{load_chunk, ChunkSource};

#[test]
fn short_block_is_padded_with_zeros() {
    let chunk = pad_block(b"hello");
    assert_eq!(chunk.len(), BLOCK_SIZE);
    assert_eq!(&chunk[..5], b"hello");
    assert!(chunk[5..].iter().all(|&b| b == 0));
}

#[test]
fn full_block_is_unchanged() {
    let block: Vec<u8> = (0..BLOCK_SIZE).map(|i| (i % 251) as u8 + 1).collect();
    assert_eq!(pad_block(&block), block);
}

#[test]
fn strip_removes_only_trailing_zeros() {
    assert_eq!(strip_trailing_zeros(vec![1, 0, 2, 0, 0]), vec![1, 0, 2]);
    assert_eq!(strip_trailing_zeros(vec![0, 0, 0]), Vec::<u8>::new());
    assert_eq!(strip_trailing_zeros(vec![]), Vec::<u8>::new());
    assert_eq!(strip_trailing_zeros(vec![7]), vec![7]);
}

#[test]
fn padding_then_stripping_gives_the_block_back() {
    let block = b"data ending in a nonzero byte";
    assert_eq!(strip_trailing_zeros(pad_block(block)), block.to_vec());
}

#[test]
fn compressed_chunk_decompresses_to_the_chunk() {
    let chunk = pad_block(b"compress me");
    let frame = compress_chunk(&chunk).expect("zstd compresses");
    assert_ne!(frame, chunk);
    assert!(frame.len() < chunk.len());
    assert_eq!(load_chunk(ChunkSource::Compressed, frame), Some(chunk));
}

#[test]
fn garbage_is_not_a_zstd_frame() {
    assert_eq!(load_chunk(ChunkSource::Compressed, vec![1, 2, 3, 4]), None);
}
