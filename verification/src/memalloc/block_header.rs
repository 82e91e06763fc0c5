use vstd::prelude::*;

verus! {

/// Bytes taken by the header that precedes every block's usable memory:
/// `size`, `next` and `prev`, one machine word each.
pub const HEADER_SIZE: usize = 3 * (usize::BITS as usize / 8);

/// The record kept for one block of memory.
///
/// `address` is where the block (its header) starts; `size` is the number of
/// usable bytes after the header; `is_free` tells whether the block sits in
/// the free list (true) or in the list of memory handed out (false).
#[derive(Clone, Copy, PartialEq, Eq, Structural, Debug)]
pub struct BlockHeader {
    pub address: usize,
    pub size: usize,
    pub is_free: bool,
}

impl BlockHeader {
    /// Bytes the block spans, header included.
    pub open spec fn total(self) -> int {
        self.size + HEADER_SIZE
    }

    /// First address past the block.
    pub open spec fn end(self) -> int {
        self.address + self.size + HEADER_SIZE
    }

    /// The block's bytes fit below the top of the address space.
    pub open spec fn in_range(self) -> bool {
        self.end() <= usize::MAX
    }

    /// `self` ends exactly where `next` starts.
    pub open spec fn adjacent_to(self, next: BlockHeader) -> bool {
        self.end() == next.address
    }

    /// The two blocks share no byte.
    pub open spec fn disjoint_from(self, other: BlockHeader) -> bool {
        self.end() <= other.address || other.end() <= self.address
    }

    /// The same block with its free flag set to `free`.
    pub open spec fn with_free(self, free: bool) -> BlockHeader {
        BlockHeader { is_free: free, ..self }
    }
}

/// `x` rounded up to a multiple of 8.
pub open spec fn round_up_8(x: int) -> int {
    (x + 7) - (x + 7) % 8
}

/// Rounds `x` up to a multiple of 8 the way the allocator does it,
/// `(x + 7) & !7`.
pub fn align_up_8(x: usize) -> (r: usize)
    requires
        x + 7 <= usize::MAX,
    ensures
        r == round_up_8(x as int),
        x <= r < x + 8,
        r % 8 == 0,
{
    let y: usize = x + 7;
    assert(y & !7usize == y - y % 8) by (bit_vector);
    y & !7usize
}

/// The header is three machine words: 12 bytes on a 32-bit target, 24 on a
/// 64-bit one.
pub proof fn lemma_header_size()
    ensures
        HEADER_SIZE == 12 || HEADER_SIZE == 24,
{
    assert(usize::BITS == 32 || usize::BITS == 64);
}

} // verus!
