use vstd::prelude::*;
use crate::memalloc::block_header::{BlockHeader, HEADER_SIZE};
use crate::list_facts::other_than;
use crate::memalloc::laws::{
    lemma_forget_keeps_blocks_in_use, lemma_freed_block_settles, lemma_freeing_keeps_alignment,
    lemma_freeing_keeps_bytes, lemma_run_facts, lemma_unmapping_keeps_alignment, lemma_unmapping_removes_bytes,
    total_bytes,
};
use crate::memalloc::memory_block_linker::{keep_unabsorbed, lemma_merge_lists, run_end, run_start};
use crate::memalloc::{
    Memalloc, chain_wf, lists_wf, holds, holds_with, index_of_address, block_at, lemma_index_of_address,
    lemma_unique_address,
};
use crate::steps::ForgetStep;

verus! {

/// Dropping the block at the tail of the list of blocks in use keeps the
/// lists in step with the blocks.
pub proof fn lemma_remove_tail_lists(c: Seq<BlockHeader>, used: Seq<usize>, free: Seq<usize>)
    requires
        chain_wf(c),
        lists_wf(c, used, free),
        used.len() > 0,
    ensures
        holds_with(c, used.last(), false),
        lists_wf(c.remove(index_of_address(c, used.last())), used.drop_last(), free),
{
    let a = used.last();
    assert(used.contains(a));
    assert(holds_with(c, a, false));
    let k = choose|k: int| 0 <= k < c.len() && c[k].address == a && c[k].is_free == false;
    lemma_index_of_address(c, k);
    let nc = c.remove(k);
    let nu = used.drop_last();
    assert forall|j: int| 0 <= j < k implies nc[j] == c[j] by {}
    assert forall|j: int| k <= j < nc.len() implies nc[j] == c[j + 1] by {}
    assert forall|x: usize| #![trigger nu.contains(x)] #![trigger holds_with(nc, x, false)] nu.contains(x)
        <==> holds_with(nc, x, false) by {
        if nu.contains(x) {
            let y = choose|y: int| 0 <= y < nu.len() && nu[y] == x;
            assert(used[y] == x);
            assert(used.contains(x));
            assert(holds_with(c, x, false));
            let v = choose|v: int| 0 <= v < c.len() && c[v].address == x && c[v].is_free == false;
            if v == k {
                assert(used[used.len() - 1] == used[y]);
            } else if v < k {
                assert(nc[v] == c[v]);
            } else {
                assert(nc[v - 1] == c[v]);
            }
        }
        if holds_with(nc, x, false) {
            let v = choose|v: int| 0 <= v < nc.len() && nc[v].address == x && nc[v].is_free == false;
            let u = if v < k { v } else { v + 1 };
            assert(nc[v] == c[u]);
            assert(holds_with(c, x, false));
            assert(used.contains(x));
            let y = choose|y: int| 0 <= y < used.len() && used[y] == x;
            if y == used.len() - 1 {
                lemma_unique_address(c, u, k);
            }
            assert(nu[y] == x);
        }
    }
    assert forall|x: usize| #![trigger free.contains(x)] #![trigger holds_with(nc, x, true)] free.contains(x)
        <==> holds_with(nc, x, true) by {
        if free.contains(x) {
            assert(holds_with(c, x, true));
            let v = choose|v: int| 0 <= v < c.len() && c[v].address == x && c[v].is_free == true;
            assert(v != k);
            if v < k {
                assert(nc[v] == c[v]);
            } else {
                assert(nc[v - 1] == c[v]);
            }
        }
        if holds_with(nc, x, true) {
            let v = choose|v: int| 0 <= v < nc.len() && nc[v].address == x && nc[v].is_free == true;
            let u = if v < k { v } else { v + 1 };
            assert(nc[v] == c[u]);
            assert(holds_with(c, x, true));
        }
    }
}

impl Memalloc {
    /// `post` and `r` are what `forget(block)` makes of this allocator and
    /// answers.
    pub open(crate) spec fn forgot(self, post: Memalloc, block: usize, r: ForgetStep) -> bool {
        let c = self.blocks();
        let used = self.used();
        let header = (block - HEADER_SIZE) as usize;
        let unchanged = post.blocks() == c && post.used() == used
            && post.free() == self.free() && post.tail() == self.tail();
        if block == 0 || block < HEADER_SIZE {
            r == ForgetStep::Done && unchanged
        } else if self.tail() == Some(header) {
            &&& r == ForgetStep::Unmap {
                address: header,
                length: (block_at(c, header).size + HEADER_SIZE) as usize,
            }
            &&& post.blocks() == c.remove(index_of_address(c, header))
            &&& post.used() == used.drop_last()
            &&& post.free() == self.free()
            &&& post.tail() == if used.len() > 1 {
                Some(used[used.len() - 2])
            } else {
                None::<usize>
            }
        } else if used.contains(header) {
            r == ForgetStep::Done && self.freed_into(post, header)
        } else {
            r == ForgetStep::Done && unchanged
        }
    }

    /// Frees the memory at `block`, a pointer that `memorize` handed out.
    /// The null pointer is ignored. When the block is the tail of the list of
    /// blocks in use (the one mapped last), it leaves the bookkeeping, the
    /// block before it in that list becomes the tail (none when there is no
    /// such block), and its bytes go back to the system. Any other block in
    /// use is freed and merged with the touching free blocks around it (see
    /// `freed_into`). A pointer that names no block in use changes nothing.
    pub fn forget(&mut self, block: usize) -> (r: ForgetStep)
        requires
            old(self).wf(),
        ensures
            final(self).wf(),
            old(self).forgot(*final(self), block, r),
            old(self).keeps_blocks_in_use(*final(self), Some((block - HEADER_SIZE) as usize)),
            // memory goes back to the system exactly when the block freed is
            // the tail of the list in use, and then all of it goes back
            (block >= HEADER_SIZE && old(self).tail() == Some((block - HEADER_SIZE) as usize)) <==> (
            r is Unmap),
            r matches ForgetStep::Unmap { address, length } ==> {
                &&& address + HEADER_SIZE == block
                &&& length == block_at(old(self).blocks(), address).size + HEADER_SIZE
                &&& !holds(final(self).blocks(), address)
                // the tail moves back to the last block still in use,
                // wherever it lies, or to none when nothing is in use
                &&& final(self).used().len() > 0 ==> final(self).tail() == Some(final(self).used().last())
                &&& final(self).used().len() == 0 ==> final(self).tail() == None::<usize>
            },
            r is Done ==> final(self).tail() == old(self).tail(),
            // any other block in use is freed: it leaves the list in use, and
            // the head of the free list is a free block that covers all its
            // bytes and that no other free block touches
            (r is Done && block >= HEADER_SIZE && old(self).used().contains((block - HEADER_SIZE) as usize))
                ==> {
                let header = (block - HEADER_SIZE) as usize;
                let m = block_at(final(self).blocks(), final(self).free()[0]);
                &&& final(self).free().len() > 0
                &&& !final(self).used().contains(header)
                &&& m.is_free
                &&& m.address <= header
                &&& header + block_at(old(self).blocks(), header).size + HEADER_SIZE <= m.end()
                &&& forall|k: int|
                    0 <= k < final(self).blocks().len() && (#[trigger] final(self).blocks()[k]).is_free
                        && final(self).blocks()[k] != m ==> !final(self).blocks()[k].adjacent_to(m)
                        && !m.adjacent_to(final(self).blocks()[k])
            },
            // freeing neither loses nor creates a byte, but for the bytes that
            // go back to the system
            total_bytes(final(self).blocks()) == total_bytes(old(self).blocks()) - match r {
                ForgetStep::Unmap { length, .. } => length as int,
                ForgetStep::Done => 0,
            },
            // a pointer that names no block in use changes nothing
            (block < HEADER_SIZE || !old(self).used().contains((block - HEADER_SIZE) as usize)) ==> {
                &&& r is Done
                &&& final(self).blocks() == old(self).blocks()
                &&& final(self).used() == old(self).used()
                &&& final(self).free() == old(self).free()
                &&& final(self).tail() == old(self).tail()
            },
    {
        if block == 0 || block < HEADER_SIZE {
            return ForgetStep::Done;
        }
        let header = block - HEADER_SIZE;
        if self.tail == Some(header) {
            let ghost c = self.blocks();
            let ghost used = self.used();
            proof {
                lemma_remove_tail_lists(c, used, self.free());
                let k = choose|k: int| 0 <= k < c.len() && c[k].address == header && c[k].is_free == false;
                lemma_index_of_address(c, k);
                lemma_unmapping_keeps_alignment(c, k);
            }
            self.mem_list.pop();
            let n = self.mem_list.len();
            if n == 0 {
                self.tail = None;
            } else {
                self.tail = Some(self.mem_list[n - 1]);
            }
            let k = self.find_block(header).unwrap();
            let size = self.chain[k].size + HEADER_SIZE;
            proof {
                assert(self.blocks()[k as int].in_range());
            }
            self.link_removed_block(header);
            let r = ForgetStep::Unmap { address: header, length: size };
            proof {
                lemma_forget_keeps_blocks_in_use(*old(self), *self, block, r);
                let c = old(self).blocks();
                let kh = index_of_address(c, header);
                lemma_unmapping_removes_bytes(c, kh);
                if holds(self.blocks(), header) {
                    let j = choose|j: int| 0 <= j < self.blocks().len() && self.blocks()[j].address == header;
                    let u = if j < kh { j } else { j + 1 };
                    assert(self.blocks()[j] == c[u]);
                    lemma_unique_address(c, u, kh);
                }
            }
            return r;
        }
        self.set_block_free(header);
        proof {
            lemma_forget_keeps_blocks_in_use(*old(self), *self, block, ForgetStep::Done);
            if old(self).used().contains(header) {
                lemma_freed_block_settles(*old(self), *self, header);
                lemma_freeing_keeps_bytes(*old(self), *self, header);
            }
        }
        ForgetStep::Done
    }

    /// Frees the block in use that starts at `header`: merges it with the
    /// touching free blocks around it, takes it out of the list of blocks in
    /// use and puts the merged block at the head of the free list. Does
    /// nothing when no block in use starts there.
    fn set_block_free(&mut self, header: usize)
        requires
            old(self).wf(),
            old(self).tail() != Some(header),
        ensures
            final(self).wf(),
            if old(self).used().contains(header) {
                old(self).freed_into(*final(self), header)
            } else {
                &&& final(self).blocks() == old(self).blocks()
                &&& final(self).used() == old(self).used()
                &&& final(self).free() == old(self).free()
                &&& final(self).tail() == old(self).tail()
            },
    {
        match crate::memalloc::position_in(&self.mem_list, header) {
            Some(_) => {
                let ghost c = self.blocks();
                let ghost u0 = self.used();
                let ghost f0 = self.free();
                let ghost i = index_of_address(c, header);
                proof {
                    assert(u0.contains(header));
                    assert(holds_with(c, header, false));
                    let w = choose|w: int| 0 <= w < c.len() && c[w].address == header && c[w].is_free == false;
                    lemma_index_of_address(c, w);
                    lemma_run_facts(c, i);
                }
                let merged = self.merge_block(header);
                crate::memalloc::remove_address(&mut self.mem_list, header);
                self.free_list.insert(0, merged);
                proof {
                    let lo = run_start(c, i);
                    let hi = run_end(c, i);
                    lemma_merge_lists(c, u0, f0, i, lo, hi);
                    assert(self.free() =~= seq![merged] + f0.filter(keep_unabsorbed(c, lo, hi, i)));
                    assert(old(self).freed_into(*self, header));
                    lemma_freeing_keeps_alignment(*old(self), *self, header);
                    // the tail, if any, is the last block in use, which stays
                    if let Some(t) = self.tail() {
                        reveal(Seq::filter);
                        assert(t != header);
                        assert(u0.filter(other_than(header)) == u0.drop_last().filter(other_than(header)).push(
                            u0.last(),
                        ));
                    }
                }
            },
            None => {},
        }
    }
}

} // verus!
