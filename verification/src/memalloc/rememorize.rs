use vstd::prelude::*;
use crate::memalloc::block_header::HEADER_SIZE;
use crate::memalloc::{Memalloc, chain_wf, holds, block_at};
use crate::steps::{ForgetStep, RememorizeStep};

verus! {

impl Memalloc {
    /// Asks that the memory at `block`, handed out by `memorize`, hold `size`
    /// bytes. The null pointer or a request for no bytes gets the null
    /// pointer. A block with room enough is kept as it is. Otherwise the
    /// contents must move: a new block of `size` bytes is asked for, the old
    /// block's usable bytes are copied into it, and the old block is freed.
    pub fn rememorize(&self, block: usize, size: usize) -> (r: RememorizeStep)
        requires
            self.wf(),
            block == 0 || size == 0 || (block >= HEADER_SIZE && holds(
                self.blocks(),
                (block - HEADER_SIZE) as usize,
            )),
        ensures
            ({
                let b = block_at(self.blocks(), (block - HEADER_SIZE) as usize);
                if block == 0 || size == 0 {
                    r == RememorizeStep::Null
                } else if b.size >= size {
                    r == RememorizeStep::Keep(block)
                } else {
                    r == RememorizeStep::Move { copy_len: b.size }
                }
            }),
    {
        if block == 0 || size == 0 {
            return RememorizeStep::Null;
        }
        let header = block - HEADER_SIZE;
        let k = self.find_block(header).unwrap();
        let old_size = self.chain[k].size;
        if old_size >= size {
            return RememorizeStep::Keep(block);
        }
        RememorizeStep::Move { copy_len: old_size }
    }

    /// Some block that the allocator knows starts at `address`.
    pub fn knows_block(&self, address: usize) -> (r: bool)
        requires
            chain_wf(self.blocks()),
        ensures
            r == holds(self.blocks(), address),
    {
        self.find_block(address).is_some()
    }
}

impl Memalloc {
    /// Ends a move that `rememorize` asked for, once the new block was asked
    /// for and the contents copied into it: when no new block could be had
    /// (`new_address` is null) the old block is kept and nothing changes;
    /// otherwise the old block at `block` is freed as `forget` frees it.
    pub fn finish_rememorize(&mut self, block: usize, new_address: usize) -> (r: ForgetStep)
        requires
            old(self).wf(),
        ensures
            final(self).wf(),
            new_address == 0 ==> {
                &&& r == ForgetStep::Done
                &&& final(self).blocks() == old(self).blocks()
                &&& final(self).used() == old(self).used()
                &&& final(self).free() == old(self).free()
                &&& final(self).tail() == old(self).tail()
            },
            new_address != 0 ==> old(self).forgot(*final(self), block, r),
            old(self).keeps_blocks_in_use(*final(self), Some((block - HEADER_SIZE) as usize)),
    {
        if new_address == 0 {
            return ForgetStep::Done;
        }
        self.forget(block)
    }
}

} // verus!
