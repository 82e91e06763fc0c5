use vstd::prelude::*;
use crate::mem_manager::block_header::{lemma_header_size, BlockHeader, HEADER_SIZE};
use crate::mem_manager::{MemManager, lemma_append_keeps_list_wf, lemma_set_flag_keeps_list_wf};
use crate::steps::MemorizeStep;

verus! {

/// The block at position `k` is free and has room for `size` bytes.
pub open spec fn fits(s: Seq<BlockHeader>, size: int, k: int) -> bool {
    s[k].is_free && s[k].size >= size
}

/// `k` is the first position, from the head of the list, of a free block
/// with room for `size` bytes.
pub open spec fn first_fit_at(s: Seq<BlockHeader>, size: int, k: int) -> bool {
    &&& 0 <= k < s.len()
    &&& fits(s, size, k)
    &&& forall|j: int| 0 <= j < k ==> !fits(s, size, j)
}

/// No free block has room for `size` bytes.
pub open spec fn no_fit(s: Seq<BlockHeader>, size: int) -> bool {
    forall|k: int| 0 <= k < s.len() ==> !fits(s, size, k)
}

/// The first free block with room for `size` bytes (when there is one).
pub open spec fn first_fit(s: Seq<BlockHeader>, size: int) -> int {
    choose|k: int| first_fit_at(s, size, k)
}

pub proof fn lemma_first_fit_unique(s: Seq<BlockHeader>, size: int, k: int)
    requires
        first_fit_at(s, size, k),
    ensures
        first_fit(s, size) == k,
{
    let g = first_fit(s, size);
    assert(first_fit_at(s, size, g));
    if g < k {
        assert(!fits(s, size, g));
    } else if k < g {
        assert(!fits(s, size, k));
    }
}

impl MemManager {
    /// Asks for `size` bytes. A request for no bytes gets the null pointer.
    /// Otherwise the first free block of the list with room enough is marked
    /// in use and the address just past its header is the answer. When no
    /// free block is large enough, the answer is a request to map `size` bytes
    /// and a header from the system; `finish_memorize` takes the outcome.
    pub fn memorize(&mut self, size: usize) -> (r: MemorizeStep)
        requires
            old(self).wf(),
            size + HEADER_SIZE <= usize::MAX,
        ensures
            final(self).wf(),
            ({
                let s = old(self).blocks();
                if size == 0 {
                    r == MemorizeStep::Null && final(self).blocks() == s
                } else if no_fit(s, size as int) {
                    r == MemorizeStep::Mmap((HEADER_SIZE + size) as usize) && final(self).blocks() == s
                } else {
                    let k = first_fit(s, size as int);
                    &&& first_fit_at(s, size as int, k)
                    &&& r == MemorizeStep::Ready((s[k].address + HEADER_SIZE) as usize)
                    &&& final(self).blocks() == s.update(k, BlockHeader { is_free: false, ..s[k] })
                }
            }),
            r matches MemorizeStep::Ready(p) ==> p % 8 == HEADER_SIZE % 8,
            old(self).keeps_blocks_in_use(*final(self), None),
            // a mapping is asked for only when no block of the list, wherever
            // it stands, the last one included, is free with room enough
            r matches MemorizeStep::Mmap(_) ==> size > 0 && forall|k: int|
                0 <= k < old(self).blocks().len() ==> !((#[trigger] old(self).blocks()[k]).is_free
                    && old(self).blocks()[k].size >= size),
            // what is handed out is the first free block of the list, at any
            // position, with room enough; it is in use afterwards
            r matches MemorizeStep::Ready(p) ==> exists|k: int|
                0 <= k < old(self).blocks().len() && #[trigger] old(self).blocks()[k].address + HEADER_SIZE == p
                    && old(self).blocks()[k].is_free && old(self).blocks()[k].size >= size
                    && !final(self).blocks()[k].is_free
                    && final(self).blocks()[k].address == old(self).blocks()[k].address
                    && forall|j: int|
                    0 <= j < k ==> !((#[trigger] old(self).blocks()[j]).is_free && old(self).blocks()[j].size
                        >= size),
    {
        proof {
            lemma_header_size();
        }
        let total_size: usize = HEADER_SIZE + size;
        if size == 0 {
            return MemorizeStep::Null;
        }
        match self.get_free_block(size) {
            Some(k) => {
                let b = self.list[k];
                self.list.set(k, BlockHeader { is_free: false, ..b });
                proof {
                    let s = old(self).blocks();
                    assert(s[k as int].end() <= usize::MAX);
                    lemma_set_flag_keeps_list_wf(s, k as int, false);
                    assert forall|j: int| 0 <= j < k implies !((#[trigger] s[j]).is_free && s[j].size >= size) by {
                        assert(!fits(s, size as int, j));
                    }
                    assert(self.blocks()[k as int].address == s[k as int].address);
                    assert(s[k as int].address + HEADER_SIZE == b.address + HEADER_SIZE);
                    lemma_first_fit_unique(s, size as int, k as int);
                }
                MemorizeStep::Ready(b.address + HEADER_SIZE)
            },
            None => {
                proof {
                    let s = old(self).blocks();
                    assert forall|k: int| 0 <= k < s.len() implies !((#[trigger] s[k]).is_free && s[k].size
                        >= size) by {
                        assert(!fits(s, size as int, k));
                    }
                }
                MemorizeStep::Mmap(total_size)
            },
        }
    }

    /// The position of the first free block, from the head of the list, with
    /// room for `size` bytes.
    fn get_free_block(&self, size: usize) -> (r: Option<usize>)
        requires
            self.wf(),
        ensures
            match r {
                Some(k) => first_fit_at(self.blocks(), size as int, k as int),
                None => no_fit(self.blocks(), size as int),
            },
    {
        let mut k: usize = 0;
        while k < self.list.len()
            invariant
                k <= self.blocks().len(),
                forall|j: int| 0 <= j < k ==> !fits(self.blocks(), size as int, j),
            decreases self.blocks().len() - k,
        {
            if self.list[k].is_free && self.list[k].size >= size {
                return Some(k);
            }
            k = k + 1;
        }
        None
    }

    /// Takes the outcome of the mapping that `memorize` asked for: `None` when
    /// the system refused it, which gives the null pointer; otherwise the
    /// address of the mapped bytes, where a block of `size` usable bytes is
    /// recorded, in use, at the tail of the list. The answer is then the
    /// address just past its header.
    pub fn finish_memorize(&mut self, size: usize, mapped: Option<usize>) -> (r: usize)
        requires
            old(self).wf(),
            mapped matches Some(a) ==> {
                &&& a % 8 == 0
                &&& a + size + HEADER_SIZE <= usize::MAX
                &&& forall|k: int|
                    0 <= k < old(self).blocks().len() ==> (#[trigger] old(self).blocks()[k]).disjoint_from(
                        BlockHeader { address: a, size, is_free: false, next: None },
                    )
            },
        ensures
            final(self).wf(),
            old(self).keeps_blocks_in_use(*final(self), None),
            match mapped {
                None => r == 0 && final(self).blocks() == old(self).blocks(),
                Some(a) => {
                    let s = old(self).blocks();
                    let b = BlockHeader { address: a, size, is_free: false, next: None };
                    &&& r == a + HEADER_SIZE
                    &&& r % 8 == HEADER_SIZE % 8
                    &&& s.len() == 0 ==> final(self).blocks() == seq![b]
                    &&& s.len() > 0 ==> final(self).blocks() == s.update(
                        s.len() - 1,
                        BlockHeader { next: Some(a), ..s.last() },
                    ).push(b)
                },
            },
    {
        proof {
            lemma_header_size();
        }
        match mapped {
            None => 0,
            Some(address) => {
                let ghost s = self.blocks();
                let header = BlockHeader { address, size, is_free: false, next: None };
                let n = self.list.len();
                if n > 0 {
                    let tail = self.list[n - 1];
                    self.list.set(n - 1, BlockHeader { next: Some(address), ..tail });
                }
                self.list.push(header);
                proof {
                    lemma_append_keeps_list_wf(s, header);
                    if s.len() == 0 {
                        assert(self.blocks() =~= seq![header]);
                    }
                }
                address + HEADER_SIZE
            },
        }
    }
}

} // verus!
