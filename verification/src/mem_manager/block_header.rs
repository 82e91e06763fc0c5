use vstd::prelude::*;

verus! {

/// Bytes taken by the header that precedes every block's usable memory:
/// `size`, `is_free` padded to a machine word, and `next`, three machine
/// words in all.
pub const HEADER_SIZE: usize = 3 * (usize::BITS as usize / 8);

/// The record kept for one block of memory: where it starts, how many usable
/// bytes follow its header, whether it is free, and where the next block of
/// the list starts (`None` for the last one).
#[derive(Clone, Copy, PartialEq, Eq, Structural, Debug)]
pub struct BlockHeader {
    pub address: usize,
    pub size: usize,
    pub is_free: bool,
    pub next: Option<usize>,
}

impl BlockHeader {
    /// First address past the block.
    pub open spec fn end(self) -> int {
        self.address + self.size + HEADER_SIZE
    }

    /// The two blocks share no byte.
    pub open spec fn disjoint_from(self, other: BlockHeader) -> bool {
        self.end() <= other.address || other.end() <= self.address
    }
}

/// The header is three machine words: 12 bytes on a 32-bit target, 24 on a
/// 64-bit one.
pub proof fn lemma_header_size()
    ensures
        HEADER_SIZE == 12 || HEADER_SIZE == 24,
{
    assert(usize::BITS == 32 || usize::BITS == 64);
}

} // verus!
