//! Fixed-size blocks: padding a block read from a file to a full chunk, and
//! trimming trailing zeros (for recipes that do not record the file size).

use vstd::prelude::*;

verus! {

/// The size of a chunk: files are read and stored in blocks of this many bytes.
pub const BLOCK_SIZE: usize = 4096;

/// `n` zero bytes.
pub open spec fn zeros(n: nat) -> Seq<u8> {
    Seq::new(n, |i: int| 0u8)
}

/// A block of at most `BLOCK_SIZE` bytes, filled up with zeros to a full chunk.
pub open spec fn padded(block: Seq<u8>) -> Seq<u8> {
    block + zeros((BLOCK_SIZE - block.len()) as nat)
}

/// `s` without its trailing zero bytes.
pub open spec fn trim_trailing_zeros(s: Seq<u8>) -> Seq<u8>
    decreases s.len(),
{
    if s.len() > 0 && s.last() == 0 {
        trim_trailing_zeros(s.drop_last())
    } else {
        s
    }
}

/// The chunk stored for a block of `block.len()` bytes: the block followed by
/// zeros up to `BLOCK_SIZE` bytes.
pub fn pad_block(block: &[u8]) -> (chunk: Vec<u8>)
    requires
        block@.len() <= BLOCK_SIZE,
    ensures
        chunk@ == padded(block@),
        chunk@.len() == BLOCK_SIZE,
{
    let mut chunk: Vec<u8> = Vec::new();
    let n = block.len();
    for i in 0..n
        invariant
            n == block@.len(),
            chunk@ == block@.take(i as int),
    {
        chunk.push(block[i]);
        assert(block@.take(i + 1) == block@.take(i as int).push(block@[i as int]));
    }
    assert(block@.take(n as int) == block@);
    let mut k = n;
    while k < BLOCK_SIZE
        invariant
            n <= k <= BLOCK_SIZE,
            chunk@ == block@ + zeros((k - n) as nat),
        decreases BLOCK_SIZE - k,
    {
        chunk.push(0u8);
        assert(zeros((k + 1 - n) as nat) == zeros((k - n) as nat).push(0u8));
        k = k + 1;
    }
    chunk
}

/// Removes every trailing zero byte of `chunk`.
pub fn strip_trailing_zeros(chunk: Vec<u8>) -> (out: Vec<u8>)
    ensures
        out@ == trim_trailing_zeros(chunk@),
{
    let mut out = chunk;
    while out.len() > 0 && out[out.len() - 1] == 0
        invariant
            trim_trailing_zeros(out@) == trim_trailing_zeros(chunk@),
        decreases out@.len(),
    {
        let _ = out.pop();
    }
    out
}

/// Trimming the padding gives back a block whose last byte is not zero.
pub proof fn lemma_trim_padded(block: Seq<u8>)
    requires
        block.len() <= BLOCK_SIZE,
        block.len() > 0,
        block.last() != 0,
    ensures
        trim_trailing_zeros(padded(block)) == block,
    decreases BLOCK_SIZE - block.len(),
{
    lemma_trim_zeros_suffix(block, (BLOCK_SIZE - block.len()) as nat);
}

proof fn lemma_trim_zeros_suffix(block: Seq<u8>, n: nat)
    requires
        block.len() > 0,
        block.last() != 0,
    ensures
        trim_trailing_zeros(block + zeros(n)) == block,
    decreases n,
{
    if n == 0 {
        assert(block + zeros(0) == block);
    } else {
        let s = block + zeros(n);
        assert(s.last() == 0);
        assert(s.drop_last() == block + zeros((n - 1) as nat));
        lemma_trim_zeros_suffix(block, (n - 1) as nat);
    }
}

} // verus!
