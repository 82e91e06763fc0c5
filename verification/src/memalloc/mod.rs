pub mod block_header;
pub mod memory_block_linker;
pub mod memorize;
pub mod forget;
pub mod rememorize;
pub mod laws;

use vstd::prelude::*;
use crate::list_facts::other_than;
use crate::memalloc::block_header::BlockHeader;

verus! {

broadcast use vstd::seq_lib::group_filter_ensures;

/// Every block fits in the address space, and the blocks are kept in
/// increasing address order without sharing a byte.
pub open spec fn chain_wf(c: Seq<BlockHeader>) -> bool {
    &&& forall|k: int| 0 <= k < c.len() ==> (#[trigger] c[k]).in_range()
    &&& forall|i: int, j: int|
        0 <= i < j < c.len() ==> (#[trigger] c[i]).end() <= (#[trigger] c[j]).address
}

/// Some block of `c` starts at `a`.
pub open spec fn holds(c: Seq<BlockHeader>, a: usize) -> bool {
    exists|k: int| 0 <= k < c.len() && c[k].address == a
}

/// Some block of `c` starts at `a` and is free (or in use) as `free` says.
pub open spec fn holds_with(c: Seq<BlockHeader>, a: usize, free: bool) -> bool {
    exists|k: int| 0 <= k < c.len() && c[k].address == a && c[k].is_free == free
}

/// The position in `c` of the block that starts at `a`.
pub open spec fn index_of_address(c: Seq<BlockHeader>, a: usize) -> int {
    choose|k: int| 0 <= k < c.len() && c[k].address == a
}

/// The block of `c` that starts at `a`.
pub open spec fn block_at(c: Seq<BlockHeader>, a: usize) -> BlockHeader {
    c[index_of_address(c, a)]
}

/// The list of used blocks and the free list name each block of `c` once,
/// each in the list its free flag says.
pub open spec fn lists_wf(c: Seq<BlockHeader>, used: Seq<usize>, free: Seq<usize>) -> bool {
    &&& used.no_duplicates()
    &&& free.no_duplicates()
    &&& forall|a: usize|
        #![trigger used.contains(a)]
        #![trigger holds_with(c, a, false)]
        used.contains(a) <==> holds_with(c, a, false)
    &&& forall|a: usize|
        #![trigger free.contains(a)]
        #![trigger holds_with(c, a, true)]
        free.contains(a) <==> holds_with(c, a, true)
}

/// Every block starts at a multiple of 8.
pub open spec fn aligned(c: Seq<BlockHeader>) -> bool {
    forall|k: int| 0 <= k < c.len() ==> (#[trigger] c[k]).address % 8 == 0
}

/// When there is a tail block, it is the last block of the list in use.
pub open spec fn tail_wf(used: Seq<usize>, tail: Option<usize>) -> bool {
    tail matches Some(t) ==> used.len() > 0 && t == used.last()
}

/// The allocator's bookkeeping.
///
/// `chain` holds every block the allocator knows, ordered by address: for each
/// block its neighbours and its free flag and size. `mem_list` is the list of
/// blocks handed out, from its head to its last block; `free_list` is the
/// list of free blocks from its head. `tail` is the tail of the list in use:
/// set when a block is mapped, moved back when that block is given back to
/// the system, and none when the list was empty the last time it was moved.
pub struct Memalloc {
    pub(crate) chain: Vec<BlockHeader>,
    pub(crate) mem_list: Vec<usize>,
    pub(crate) free_list: Vec<usize>,
    pub(crate) tail: Option<usize>,
}

impl Memalloc {
    /// All blocks, by address.
    pub open(crate) spec fn blocks(&self) -> Seq<BlockHeader> {
        self.chain@
    }

    /// Addresses of the blocks in use, from the head of their list to its tail.
    pub open(crate) spec fn used(&self) -> Seq<usize> {
        self.mem_list@
    }

    /// Addresses of the free blocks, from the head of the free list.
    pub open(crate) spec fn free(&self) -> Seq<usize> {
        self.free_list@
    }

    /// The tail of the list in use, if it has one.
    pub open(crate) spec fn tail(&self) -> Option<usize> {
        self.tail
    }

    /// Every block that is in use here, but `except`, is still in use in
    /// `post`, with the same record.
    pub open(crate) spec fn keeps_blocks_in_use(self, post: Memalloc, except: Option<usize>) -> bool {
        forall|a: usize|
            #[trigger] self.used().contains(a) && except != Some(a) ==> post.used().contains(a) && block_at(
                post.blocks(),
                a,
            ) == block_at(self.blocks(), a)
    }

    /// The blocks are well laid out, each starts at a multiple of 8, and the
    /// two lists and the tail are in step with them.
    pub open(crate) spec fn wf(&self) -> bool {
        &&& chain_wf(self.blocks())
        &&& aligned(self.blocks())
        &&& lists_wf(self.blocks(), self.used(), self.free())
        &&& tail_wf(self.used(), self.tail())
    }

    /// An allocator that knows no block.
    pub fn new() -> (m: Self)
        ensures
            m.wf(),
            m.blocks() == Seq::<BlockHeader>::empty(),
            m.used() == Seq::<usize>::empty(),
            m.free() == Seq::<usize>::empty(),
            m.tail() == None::<usize>,
    {
        Memalloc { chain: Vec::new(), mem_list: Vec::new(), free_list: Vec::new(), tail: None }
    }

    /// The position of the block that starts at `address`, if there is one.
    pub(crate) fn find_block(&self, address: usize) -> (r: Option<usize>)
        requires
            chain_wf(self.blocks()),
        ensures
            match r {
                Some(k) => k < self.blocks().len() && self.blocks()[k as int].address == address
                    && k == index_of_address(self.blocks(), address),
                None => !holds(self.blocks(), address),
            },
    {
        let mut k: usize = 0;
        while k < self.chain.len()
            invariant
                chain_wf(self.blocks()),
                k <= self.chain@.len(),
                forall|j: int| 0 <= j < k ==> self.chain@[j].address != address,
            decreases self.chain@.len() - k,
        {
            if self.chain[k].address == address {
                proof {
                    lemma_index_of_address(self.blocks(), k as int);
                }
                return Some(k);
            }
            k = k + 1;
        }
        None
    }
}

/// Two blocks of a well-formed chain that start at the same address are the
/// same block.
pub proof fn lemma_unique_address(c: Seq<BlockHeader>, i: int, j: int)
    requires
        chain_wf(c),
        0 <= i < c.len(),
        0 <= j < c.len(),
        c[i].address == c[j].address,
    ensures
        i == j,
{
    if i < j {
        assert(c[i].end() <= c[j].address);
    } else if j < i {
        assert(c[j].end() <= c[i].address);
    }
}

/// In a well-formed chain, the block found by its address is the one at its
/// position.
pub proof fn lemma_index_of_address(c: Seq<BlockHeader>, k: int)
    requires
        chain_wf(c),
        0 <= k < c.len(),
    ensures
        index_of_address(c, c[k].address) == k,
        block_at(c, c[k].address) == c[k],
{
    let j = index_of_address(c, c[k].address);
    lemma_unique_address(c, j, k);
}

/// Where `a` stands in `list`, if it does.
pub(crate) fn position_in(list: &Vec<usize>, a: usize) -> (r: Option<usize>)
    ensures
        match r {
            Some(p) => p < list@.len() && list@[p as int] == a,
            None => !list@.contains(a),
        },
{
    let mut p: usize = 0;
    while p < list.len()
        invariant
            p <= list@.len(),
            forall|j: int| 0 <= j < p ==> list@[j] != a,
        decreases list@.len() - p,
    {
        if list[p] == a {
            return Some(p);
        }
        p = p + 1;
    }
    None
}

/// Takes `a` out of `list`, keeping the order of the rest.
pub(crate) fn remove_address(list: &mut Vec<usize>, a: usize)
    ensures
        final(list)@ == old(list)@.filter(other_than(a)),
{
    let ghost s = list@;
    let mut kept: Vec<usize> = Vec::new();
    let mut i: usize = 0;
    while i < list.len()
        invariant
            list@ == s,
            i <= s.len(),
            kept@ == s.subrange(0, i as int).filter(other_than(a)),
        decreases s.len() - i,
    {
        proof {
            reveal(Seq::filter);
            assert(s.subrange(0, i + 1).drop_last() =~= s.subrange(0, i as int));
        }
        if list[i] != a {
            kept.push(list[i]);
        }
        i = i + 1;
    }
    assert(s.subrange(0, s.len() as int) =~= s);
    *list = kept;
}

} // verus!
