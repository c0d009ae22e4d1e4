//! Chunk arithmetic: how many fixed-size buffers a file of a given size needs.

use vstd::prelude::*;

verus! {

/// Number of bytes in one chunk, and so in one read buffer.
pub const CHUNK_SIZE: usize = 512;

/// The number of chunks that hold `size` bytes: `size / 512`, rounded up.
pub open spec fn chunks_for(size: nat) -> nat {
    if size % 512 == 0 {
        size / 512
    } else {
        size / 512 + 1
    }
}

/// The number of bytes in the buffers of a file of `size` bytes.
pub open spec fn capacity_for(size: nat) -> nat {
    chunks_for(size) * 512
}

/// The number of buffer bytes that a file of `size` bytes leaves unused.
pub open spec fn padding_for(size: nat) -> nat {
    (capacity_for(size) - size) as nat
}

/// `chunks_for(size)` chunks hold `size` bytes, and no smaller number `n`
/// of chunks does.
pub proof fn lemma_chunks_least(size: nat, n: nat)
    ensures
        chunks_for(size) * 512 >= size,
        n * 512 >= size ==> chunks_for(size) <= n,
{
}

/// A size that is an exact multiple of the chunk size takes `size / 512`
/// chunks and leaves no padding; any other size takes one more and leaves
/// fewer than 512 bytes unused.
pub proof fn lemma_chunks_boundary(size: nat)
    ensures
        size % 512 == 0 ==> chunks_for(size) == size / 512 && padding_for(size) == 0,
        size % 512 != 0 ==> chunks_for(size) == size / 512 + 1 && 0 < padding_for(size) < 512,
        chunks_for(size) == 0 <==> size == 0,
        capacity_for(size) == size + padding_for(size),
{
}

/// Computes the chunk count of a file of `fsize` bytes.
pub fn chunk_count(fsize: u64) -> (n: u64)
    ensures
        n == chunks_for(fsize as nat),
        fsize % 512 == 0 ==> n == fsize / 512,
        fsize % 512 != 0 ==> n == fsize / 512 + 1,
        n * 512 >= fsize,
        n == 0 <==> fsize == 0,
{
    let whole: u64 = fsize / 512;
    if fsize % 512 == 0 {
        whole
    } else {
        whole + 1
    }
}

} // verus!
