use vstd::prelude::*;
use crate::mem_manager::block_header::{BlockHeader, HEADER_SIZE};
use crate::mem_manager::{
    MemManager, list_wf, holds, index_of_address, lemma_drop_tail_keeps_list_wf, lemma_set_flag_keeps_list_wf,
};
use crate::steps::ForgetStep;

verus! {

impl MemManager {
    /// Frees the memory at `block`, a pointer that `memorize` handed out.
    /// The null pointer is ignored. When the block is the tail of the list
    /// (the one mapped last), it leaves the list, the block before it becomes
    /// the tail, and its bytes go back to the system. Any other block of the
    /// list is marked free. A pointer that names no block changes nothing.
    pub fn forget(&mut self, block: usize) -> (r: ForgetStep)
        requires
            old(self).wf(),
        ensures
            final(self).wf(),
            old(self).keeps_blocks_in_use(*final(self), Some((block - HEADER_SIZE) as usize)),
            ({
                let s = old(self).blocks();
                let header = (block - HEADER_SIZE) as usize;
                if block == 0 || block < HEADER_SIZE {
                    r == ForgetStep::Done && final(self).blocks() == s
                } else if s.len() > 0 && header == s.last().address {
                    &&& r == ForgetStep::Unmap {
                        address: header,
                        length: (s.last().size + HEADER_SIZE) as usize,
                    }
                    &&& s.len() == 1 ==> final(self).blocks() == Seq::<BlockHeader>::empty()
                    &&& s.len() > 1 ==> final(self).blocks() == s.drop_last().update(
                        s.len() - 2,
                        BlockHeader { next: None, ..s[s.len() - 2] },
                    )
                } else if holds(s, header) {
                    let k = index_of_address(s, header);
                    &&& r == ForgetStep::Done
                    &&& final(self).blocks() == s.update(k, BlockHeader { is_free: true, ..s[k] })
                } else {
                    r == ForgetStep::Done && final(self).blocks() == s
                }
            }),
    {
        if block == 0 || block < HEADER_SIZE {
            return ForgetStep::Done;
        }
        let header = block - HEADER_SIZE;
        let ghost s = self.blocks();
        let n = self.list.len();
        if n > 0 && self.list[n - 1].address == header {
            let length = self.list[n - 1].size + HEADER_SIZE;
            if n == 1 {
                self.list.pop();
                proof {
                    assert(self.blocks() =~= Seq::<BlockHeader>::empty());
                }
            } else {
                // walk from the head to the block that names the tail as next
                let mut k: usize = 0;
                while k < n - 1 && self.list[k].next != Some(header)
                    invariant
                        self.blocks() == s,
                        list_wf(s),
                        n == s.len(),
                        n > 1,
                        header == s[n - 1].address,
                        k <= n - 1,
                        forall|j: int| 0 <= j < k ==> s[j].next != Some(header),
                    decreases n - k,
                {
                    proof {
                        if k < n - 2 {
                            assert(s[k as int].next == Some(s[k + 1].address));
                            assert(s[k + 1].disjoint_from(s[n - 1]));
                        }
                    }
                    k = k + 1;
                }
                proof {
                    assert(s[n - 2].next == Some(s[n - 1].address));
                    if k < n - 2 {
                        assert(s[k as int].next == Some(s[k + 1].address));
                        assert(s[k + 1].disjoint_from(s[n - 1]));
                    }
                }
                let before_tail = self.list[k];
                self.list.set(k, BlockHeader { next: None, ..before_tail });
                self.list.truncate(k + 1);
                proof {
                    assert(self.blocks() =~= s.drop_last().update(n - 2, BlockHeader { next: None, ..s[n - 2] }));
                    lemma_drop_tail_keeps_list_wf(s);
                }
            }
            return ForgetStep::Unmap { address: header, length };
        }
        match self.valid_header(header) {
            Some(k) => {
                let b = self.list[k];
                self.list.set(k, BlockHeader { is_free: true, ..b });
                proof {
                    lemma_set_flag_keeps_list_wf(s, k as int, true);
                }
            },
            None => {},
        }
        ForgetStep::Done
    }
}

} // verus!
