//! Which memory a ring takes.

use vstd::prelude::*;

verus! {

/// Bytes of a cache line.
pub const CACHE_LINE: usize = 64;

/// Bytes of a memory page.
pub const PAGE_SIZE: usize = 4096;

/// Cache lines that `size` bytes take, from the start of a line on.
pub fn cache_lines(size: usize) -> (lines: usize)
    ensures
        lines as int == (size + 63) / 64,
{
    if size % CACHE_LINE == 0 {
        size / CACHE_LINE
    } else {
        size / CACHE_LINE + 1
    }
}

/// The offsets of the first bytes of all pages of a region.
pub fn page_offsets(size: usize) -> (offsets: Vec<usize>)
    ensures
        offsets@.len() == (size + 4095) / 4096,
        forall|i: int| 0 <= i < offsets@.len() ==> #[trigger] offsets@[i] == i * 4096,
{
    let mut offsets: Vec<usize> = Vec::new();
    let mut at: usize = 0;
    let mut more = size > 0;
    while more
        invariant
            more == (at < size),
            more ==> at == offsets@.len() * 4096,
            !more ==> offsets@.len() == (size + 4095) / 4096,
            forall|i: int| 0 <= i < offsets@.len() ==> #[trigger] offsets@[i] == i * 4096,
        decreases (if more { size - at } else { 0 }),
    {
        offsets.push(at);
        if size - at > PAGE_SIZE {
            at += PAGE_SIZE;
        } else {
            at = size;
            more = false;
        }
    }
    offsets
}

} // verus!
