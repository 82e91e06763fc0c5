pub mod block_header;
pub mod memorize;
pub mod forget;
pub mod laws;

use vstd::prelude::*;
use crate::mem_manager::block_header::{BlockHeader, HEADER_SIZE};

verus! {

/// The blocks form a list in which each one names the next, the last one
/// naming none; every block starts at a multiple of 8 and fits in the address
/// space, and no two share a byte.
pub open spec fn list_wf(s: Seq<BlockHeader>) -> bool {
    &&& forall|k: int| 0 <= k < s.len() ==> (#[trigger] s[k]).end() <= usize::MAX
    &&& forall|k: int| 0 <= k < s.len() ==> (#[trigger] s[k]).address % 8 == 0
    &&& forall|i: int, j: int|
        0 <= i < s.len() && 0 <= j < s.len() && i != j ==> (#[trigger] s[i]).disjoint_from(
            #[trigger] s[j],
        )
    &&& forall|k: int| #![trigger s[k].next] 0 <= k < s.len() - 1 ==> s[k].next == Some(s[k + 1].address)
    &&& s.len() > 0 ==> s.last().next == None::<usize>
}

/// Some block of `s` starts at `a`.
pub open spec fn holds(s: Seq<BlockHeader>, a: usize) -> bool {
    exists|k: int| 0 <= k < s.len() && s[k].address == a
}

/// The position of the block that starts at `a`.
pub open spec fn index_of_address(s: Seq<BlockHeader>, a: usize) -> int {
    choose|k: int| 0 <= k < s.len() && s[k].address == a
}

/// The allocator's bookkeeping: the list of all blocks, from its head to
/// its tail.
pub struct MemManager {
    pub(crate) list: Vec<BlockHeader>,
}

impl MemManager {
    /// The blocks, from the head of the list to its tail.
    pub open(crate) spec fn blocks(&self) -> Seq<BlockHeader> {
        self.list@
    }

    /// Every block that is in use here, but the one at `except`, is still in
    /// use in `post`, at the same place in the list, with the same address and
    /// size.
    pub open(crate) spec fn keeps_blocks_in_use(self, post: MemManager, except: Option<usize>) -> bool {
        forall|j: int|
            0 <= j < self.blocks().len() && !(#[trigger] self.blocks()[j]).is_free && except != Some(
                self.blocks()[j].address,
            ) ==> {
                &&& j < post.blocks().len()
                &&& post.blocks()[j].address == self.blocks()[j].address
                &&& post.blocks()[j].size == self.blocks()[j].size
                &&& !post.blocks()[j].is_free
            }
    }

    /// The list is well formed.
    pub open(crate) spec fn wf(&self) -> bool {
        list_wf(self.blocks())
    }

    /// An allocator that knows no block.
    pub fn new() -> (m: Self)
        ensures
            m.wf(),
            m.blocks() == Seq::<BlockHeader>::empty(),
    {
        MemManager { list: Vec::new() }
    }

    /// Some block of the list starts at `header`.
    fn valid_header(&self, header: usize) -> (r: Option<usize>)
        requires
            self.wf(),
        ensures
            match r {
                Some(k) => k < self.blocks().len() && self.blocks()[k as int].address == header
                    && k == index_of_address(self.blocks(), header),
                None => !holds(self.blocks(), header),
            },
    {
        let mut k: usize = 0;
        while k < self.list.len()
            invariant
                self.wf(),
                k <= self.blocks().len(),
                forall|j: int| 0 <= j < k ==> self.blocks()[j].address != header,
            decreases self.blocks().len() - k,
        {
            if self.list[k].address == header {
                proof {
                    lemma_index_of_address(self.blocks(), k as int);
                }
                return Some(k);
            }
            k = k + 1;
        }
        None
    }

    /// The region of `size` usable bytes and a header at `address` fits in the
    /// address space and shares no byte with a block of the list.
    pub fn region_is_unclaimed(&self, address: usize, size: usize) -> (r: bool)
        requires
            self.wf(),
        ensures
            r == (address + size + HEADER_SIZE <= usize::MAX && forall|k: int|
                0 <= k < self.blocks().len() ==> (#[trigger] self.blocks()[k]).disjoint_from(
                    BlockHeader { address, size, is_free: false, next: None },
                )),
    {
        if size > usize::MAX - HEADER_SIZE || address > usize::MAX - HEADER_SIZE - size {
            return false;
        }
        let end = address + size + HEADER_SIZE;
        let mut k: usize = 0;
        while k < self.list.len()
            invariant
                self.wf(),
                k <= self.blocks().len(),
                end == address + size + HEADER_SIZE,
                forall|j: int|
                    0 <= j < k ==> (#[trigger] self.blocks()[j]).disjoint_from(
                        BlockHeader { address, size, is_free: false, next: None },
                    ),
            decreases self.blocks().len() - k,
        {
            let b = self.list[k];
            proof {
                assert(self.blocks()[k as int].end() <= usize::MAX);
            }
            if !(b.address + b.size + HEADER_SIZE <= address || end <= b.address) {
                return false;
            }
            k = k + 1;
        }
        true
    }
}

/// In a well-formed list, the block found by its address is the one at its
/// position.
pub proof fn lemma_index_of_address(s: Seq<BlockHeader>, k: int)
    requires
        list_wf(s),
        0 <= k < s.len(),
    ensures
        index_of_address(s, s[k].address) == k,
{
    let j = index_of_address(s, s[k].address);
    if j != k {
        assert(s[j].disjoint_from(s[k]));
    }
}

/// Changing one block's free flag keeps the list well formed.
pub proof fn lemma_set_flag_keeps_list_wf(s: Seq<BlockHeader>, k: int, free: bool)
    requires
        list_wf(s),
        0 <= k < s.len(),
    ensures
        list_wf(s.update(k, BlockHeader { is_free: free, ..s[k] })),
{
    let n = s.update(k, BlockHeader { is_free: free, ..s[k] });
    assert forall|i: int, j: int| 0 <= i < n.len() && 0 <= j < n.len() && i != j implies (#[trigger] n[i]).disjoint_from(
        #[trigger] n[j],
    ) by {
        assert(s[i].disjoint_from(s[j]));
    }
    assert forall|j: int| 0 <= j < n.len() - 1 implies n[j].next == Some(n[j + 1].address) by {
        assert(s[j].next == Some(s[j + 1].address));
    }
    assert forall|j: int| 0 <= j < n.len() implies (#[trigger] n[j]).end() <= usize::MAX && n[j].address % 8 == 0 by {
        assert(s[j].end() <= usize::MAX);
        assert(s[j].address % 8 == 0);
    }
}

/// Appending a block that fits, starts at a multiple of 8 and touches no
/// block, with the old last block naming it as next, keeps the list well
/// formed.
pub proof fn lemma_append_keeps_list_wf(s: Seq<BlockHeader>, b: BlockHeader)
    requires
        list_wf(s),
        b.next == None::<usize>,
        b.end() <= usize::MAX,
        b.address % 8 == 0,
        forall|k: int| 0 <= k < s.len() ==> (#[trigger] s[k]).disjoint_from(b),
    ensures
        s.len() == 0 ==> list_wf(seq![b]),
        s.len() > 0 ==> list_wf(
            s.update(s.len() - 1, BlockHeader { next: Some(b.address), ..s.last() }).push(b),
        ),
{
    let m = if s.len() == 0 {
        seq![b]
    } else {
        s.update(s.len() - 1, BlockHeader { next: Some(b.address), ..s.last() }).push(b)
    };
    assert forall|j: int| 0 <= j < m.len() implies (#[trigger] m[j]).end() <= usize::MAX && m[j].address % 8 == 0 by {
        if j < s.len() {
            assert(s[j].end() <= usize::MAX);
            assert(s[j].address % 8 == 0);
        }
    }
    assert forall|i: int, j: int| 0 <= i < m.len() && 0 <= j < m.len() && i != j implies (#[trigger] m[i]).disjoint_from(
        #[trigger] m[j],
    ) by {
        if i < s.len() && j < s.len() {
            assert(s[i].disjoint_from(s[j]));
        } else if i < s.len() {
            assert(s[i].disjoint_from(b));
        } else if j < s.len() {
            assert(s[j].disjoint_from(b));
        }
    }
    assert forall|j: int| 0 <= j < m.len() - 1 implies m[j].next == Some(m[j + 1].address) by {
        if j < s.len() - 1 {
            assert(s[j].next == Some(s[j + 1].address));
        }
    }
}

/// Dropping the last block, the one before it naming no next block, keeps
/// the list well formed.
pub proof fn lemma_drop_tail_keeps_list_wf(s: Seq<BlockHeader>)
    requires
        list_wf(s),
        s.len() > 1,
    ensures
        list_wf(s.drop_last().update(s.len() - 2, BlockHeader { next: None, ..s[s.len() - 2] })),
{
    let m = s.drop_last().update(s.len() - 2, BlockHeader { next: None, ..s[s.len() - 2] });
    assert forall|i: int, j: int| 0 <= i < m.len() && 0 <= j < m.len() && i != j implies (#[trigger] m[i]).disjoint_from(
        #[trigger] m[j],
    ) by {
        assert(s[i].disjoint_from(s[j]));
    }
    assert forall|j: int| 0 <= j < m.len() - 1 implies m[j].next == Some(m[j + 1].address) by {
        assert(s[j].next == Some(s[j + 1].address));
    }
    assert forall|j: int| 0 <= j < m.len() implies (#[trigger] m[j]).end() <= usize::MAX && m[j].address % 8 == 0 by {
        assert(s[j].end() <= usize::MAX);
        assert(s[j].address % 8 == 0);
    }
}

} // verus!
