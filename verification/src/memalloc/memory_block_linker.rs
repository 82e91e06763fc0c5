use vstd::prelude::*;
use crate::memalloc::block_header::{BlockHeader, HEADER_SIZE, align_up_8, round_up_8};
use crate::list_facts::{other_than, lemma_filter_all, lemma_filter_filter, lemma_filter_no_duplicates, lemma_filter_contains_iff};
use crate::memalloc::{Memalloc, chain_wf, lists_wf, holds, holds_with, index_of_address, lemma_index_of_address, lemma_unique_address};

verus! {

/// Bytes, header included, that a block must span to hold `size` usable bytes
/// at an 8-byte granularity.
pub open spec fn required_total(size: int) -> int {
    round_up_8(size + HEADER_SIZE)
}

/// Splitting `b` for a request of `size` bytes leaves a remainder that can
/// hold a header and at least one byte.
pub open spec fn split_fits(b: BlockHeader, size: int) -> bool {
    required_total(size) + HEADER_SIZE < b.total()
}

/// The part of `b` kept for a request of `size` bytes when it is split.
pub open spec fn split_head(b: BlockHeader, size: int) -> BlockHeader {
    BlockHeader {
        address: b.address,
        size: (required_total(size) - HEADER_SIZE) as usize,
        is_free: false,
    }
}

/// The free remainder of `b` when it is split for a request of `size` bytes.
pub open spec fn split_rest(b: BlockHeader, size: int) -> BlockHeader {
    BlockHeader {
        address: (b.address + required_total(size)) as usize,
        size: (b.total() - required_total(size) - HEADER_SIZE) as usize,
        is_free: true,
    }
}

/// The place in the free list of the block that starts at `a`.
pub open spec fn free_position(free: Seq<usize>, a: usize) -> int {
    choose|f: int| 0 <= f < free.len() && free[f] == a
}

/// The block at position `j` is free and ends where the next one starts, so
/// it joins a free run that reaches it from the right.
pub open spec fn joins_left(c: Seq<BlockHeader>, j: int) -> bool {
    c[j].is_free && c[j].adjacent_to(c[j + 1])
}

/// The block at position `j` is free and starts where the previous one ends,
/// so it joins a free run that reaches it from the left.
pub open spec fn joins_right(c: Seq<BlockHeader>, j: int) -> bool {
    c[j].is_free && c[j - 1].adjacent_to(c[j])
}

/// The first position of the longest run of touching free blocks that ends
/// at position `i` (the block at `i` itself counts whatever its flag).
pub open spec fn run_start(c: Seq<BlockHeader>, i: int) -> int
    decreases i,
{
    if i > 0 && joins_left(c, i - 1) {
        run_start(c, i - 1)
    } else {
        i
    }
}

/// The last position of the longest run of touching free blocks that starts
/// at position `i`.
pub open spec fn run_end(c: Seq<BlockHeader>, i: int) -> int
    decreases c.len() - i,
{
    if 0 <= i && i + 1 < c.len() && joins_right(c, i + 1) {
        run_end(c, i + 1)
    } else {
        i
    }
}

/// One free block spanning the blocks at positions `lo` to `hi`.
pub open spec fn merged_block(c: Seq<BlockHeader>, lo: int, hi: int) -> BlockHeader {
    BlockHeader {
        address: c[lo].address,
        size: (c[hi].end() - c[lo].address - HEADER_SIZE) as usize,
        is_free: true,
    }
}

/// `c` with the blocks at positions `lo` to `hi` replaced by one free block
/// spanning them.
pub open spec fn merged_chain(c: Seq<BlockHeader>, lo: int, hi: int) -> Seq<BlockHeader> {
    c.subrange(0, lo) + seq![merged_block(c, lo, hi)] + c.subrange(hi + 1, c.len() as int)
}

/// Keeps every address but those of the blocks at positions `lo` to `hi`
/// other than `i`: the blocks that the block at `i` absorbed.
pub open spec fn keep_unabsorbed(c: Seq<BlockHeader>, lo: int, hi: int, i: int) -> spec_fn(usize) -> bool {
    |a: usize| !(exists|j: int| lo <= j <= hi && j != i && c[j].address == a)
}

/// Joining two touching blocks, the second into the first, keeps the chain
/// well formed.
pub proof fn lemma_join_keeps_chain_wf(c: Seq<BlockHeader>, j: int)
    requires
        chain_wf(c),
        0 <= j,
        j + 1 < c.len(),
        c[j].adjacent_to(c[j + 1]),
    ensures
        chain_wf(
            c.remove(j + 1).update(
                j,
                BlockHeader { address: c[j].address, size: (c[j].size + c[j + 1].total()) as usize, is_free: true },
            ),
        ),
{
    let d = c.remove(j + 1);
    let m = d.update(
        j,
        BlockHeader { address: c[j].address, size: (c[j].size + c[j + 1].total()) as usize, is_free: true },
    );
    assert(c[j + 1].in_range());
    assert forall|x: int, y: int| 0 <= x < y < m.len() implies m[x].end() <= m[y].address by {
        if y == j {
            assert(m[x] == d[x]);
        } else if x == j {
            assert(m[y] == c[y + 1]);
        } else {
            assert(m[x] == d[x]);
            assert(m[y] == d[y]);
        }
    }
    assert forall|y: int| 0 <= y < m.len() implies (#[trigger] m[y]).in_range() by {
        if y != j {
            assert(m[y] == d[y]);
        }
    }
}

/// A run that cannot grow to the left starts where `run_start` says.
pub proof fn lemma_run_start(c: Seq<BlockHeader>, i: int, lo: int)
    requires
        0 <= lo <= i < c.len(),
        forall|j: int| lo <= j < i ==> joins_left(c, j),
        lo == 0 || !joins_left(c, lo - 1),
    ensures
        run_start(c, i) == lo,
    decreases i - lo,
{
    if i > lo {
        lemma_run_start(c, i - 1, lo);
    }
}

/// A run that cannot grow to the right ends where `run_end` says.
pub proof fn lemma_run_end(c: Seq<BlockHeader>, i: int, hi: int)
    requires
        0 <= i <= hi < c.len(),
        forall|j: int| i < j <= hi ==> joins_right(c, j),
        hi + 1 == c.len() || !joins_right(c, hi + 1),
    ensures
        run_end(c, i) == hi,
    decreases hi - i,
{
    if i < hi {
        lemma_run_end(c, i + 1, hi);
    }
}

/// Absorbing the free block just left of a merged run extends the run by one
/// position to the left.
pub proof fn lemma_merge_left_step(c: Seq<BlockHeader>, lo: int, hi: int)
    requires
        chain_wf(c),
        0 < lo <= hi < c.len(),
        joins_left(c, lo - 1),
    ensures
        merged_chain(c, lo, hi).remove(lo).update(
            lo - 1,
            BlockHeader {
                address: c[lo - 1].address,
                size: (c[lo - 1].size + merged_block(c, lo, hi).total()) as usize,
                is_free: true,
            },
        ) == merged_chain(c, lo - 1, hi),
{
    if lo < hi {
        assert(c[lo].end() <= c[hi].address);
    }
    assert(c[hi].in_range());
    let x = merged_chain(c, lo, hi).remove(lo).update(
        lo - 1,
        BlockHeader {
            address: c[lo - 1].address,
            size: (c[lo - 1].size + merged_block(c, lo, hi).total()) as usize,
            is_free: true,
        },
    );
    let y = merged_chain(c, lo - 1, hi);
    assert(x.len() == y.len());
    assert forall|j: int| 0 <= j < x.len() implies x[j] == y[j] by {
        if j < lo - 1 {
        } else if j == lo - 1 {
        } else {
            assert(x[j] == c[j + hi - lo + 1]);
        }
    }
    assert(x =~= y);
}

/// Absorbing the free block just right of a merged run extends the run by one
/// position to the right.
pub proof fn lemma_merge_right_step(c: Seq<BlockHeader>, lo: int, hi: int)
    requires
        chain_wf(c),
        0 <= lo <= hi,
        hi + 1 < c.len(),
        joins_right(c, hi + 1),
    ensures
        merged_chain(c, lo, hi).remove(lo + 1).update(
            lo,
            BlockHeader {
                address: c[lo].address,
                size: (merged_block(c, lo, hi).size + c[hi + 1].total()) as usize,
                is_free: true,
            },
        ) == merged_chain(c, lo, hi + 1),
{
    if lo < hi {
        assert(c[lo].end() <= c[hi].address);
    }
    assert(c[hi + 1].in_range());
    let x = merged_chain(c, lo, hi).remove(lo + 1).update(
        lo,
        BlockHeader {
            address: c[lo].address,
            size: (merged_block(c, lo, hi).size + c[hi + 1].total()) as usize,
            is_free: true,
        },
    );
    let y = merged_chain(c, lo, hi + 1);
    assert(x.len() == y.len());
    assert forall|j: int| 0 <= j < x.len() implies x[j] == y[j] by {
        if j < lo {
        } else if j == lo {
        } else {
            assert(x[j] == c[j + hi - lo + 1]);
        }
    }
    assert(x =~= y);
}

/// Growing the run by one position drops one more address from what is kept.
pub proof fn lemma_keep_unabsorbed_grow(
    c: Seq<BlockHeader>,
    lo: int,
    hi: int,
    i: int,
    nlo: int,
    nhi: int,
    j0: int,
)
    requires
        lo <= i <= hi,
        (nlo == lo - 1 && nhi == hi && j0 == lo - 1) || (nlo == lo && nhi == hi + 1 && j0 == hi + 1),
    ensures
        keep_unabsorbed(c, nlo, nhi, i) == (|a: usize|
            keep_unabsorbed(c, lo, hi, i)(a) && other_than(c[j0].address)(a)),
{
    let p = keep_unabsorbed(c, nlo, nhi, i);
    let q = |a: usize| keep_unabsorbed(c, lo, hi, i)(a) && other_than(c[j0].address)(a);
    assert forall|a: usize| #[trigger] p(a) == q(a) by {
        if exists|j: int| nlo <= j <= nhi && j != i && c[j].address == a {
            let j = choose|j: int| nlo <= j <= nhi && j != i && c[j].address == a;
            if j != j0 {
                assert(lo <= j <= hi);
            }
        }
        if exists|j: int| lo <= j <= hi && j != i && c[j].address == a {
            let j = choose|j: int| lo <= j <= hi && j != i && c[j].address == a;
            assert(nlo <= j <= nhi);
        }
        if a == c[j0].address {
            assert(nlo <= j0 <= nhi && j0 != i && c[j0].address == a);
        }
    }
    assert(p =~= q);
}

/// Freeing the block in use at position `i` and merging the free run
/// `lo..=hi` around it keeps both lists in step with the blocks when the
/// freed block leaves the list of blocks in use, the blocks it absorbed leave
/// the free list, and the merged block enters it at its head.
pub proof fn lemma_merge_lists(
    c: Seq<BlockHeader>,
    used: Seq<usize>,
    free: Seq<usize>,
    i: int,
    lo: int,
    hi: int,
)
    requires
        chain_wf(c),
        lists_wf(c, used, free),
        0 <= lo <= i <= hi < c.len(),
        !c[i].is_free,
        forall|j: int| lo <= j < i ==> joins_left(c, j),
        forall|j: int| i < j <= hi ==> joins_right(c, j),
    ensures
        lists_wf(
            merged_chain(c, lo, hi),
            used.filter(other_than(c[i].address)),
            seq![c[lo].address] + free.filter(keep_unabsorbed(c, lo, hi, i)),
        ),
{
    let m = merged_chain(c, lo, hi);
    let ci = c[i].address;
    let keep = keep_unabsorbed(c, lo, hi, i);
    let nu = used.filter(other_than(ci));
    let nf0 = free.filter(keep);
    let nf = seq![c[lo].address] + nf0;
    let d = hi - lo;
    assert(m.len() == c.len() - d);
    assert forall|j: int| 0 <= j < lo implies m[j] == c[j] by {}
    assert forall|j: int| lo < j < m.len() implies m[j] == c[j + d] by {}
    assert(m[lo] == merged_block(c, lo, hi));
    lemma_filter_no_duplicates(used, other_than(ci));
    lemma_filter_no_duplicates(free, keep);
    lemma_filter_contains_iff(free, keep, c[lo].address);
    assert(!nf0.contains(c[lo].address)) by {
        if lo == i && free.contains(ci) {
            assert(holds_with(c, ci, true));
            let w = choose|w: int| 0 <= w < c.len() && c[w].address == ci && c[w].is_free == true;
            lemma_unique_address(c, w, i);
        }
    }
    assert forall|x: int, y: int| 0 <= x < nf.len() && 0 <= y < nf.len() && x != y implies nf[x]
        != nf[y] by {
        if x == 0 {
            assert(nf0.contains(nf[y]));
        } else if y == 0 {
            assert(nf0.contains(nf[x]));
        } else {
            assert(nf[x] == nf0[x - 1]);
            assert(nf[y] == nf0[y - 1]);
        }
    }
    // a block outside the run keeps its place, shifted
    assert forall|a: usize| #![trigger nu.contains(a)] #![trigger holds_with(m, a, false)] nu.contains(a)
        <==> holds_with(m, a, false) by {
        lemma_filter_contains_iff(used, other_than(ci), a);
        if nu.contains(a) {
            assert(holds_with(c, a, false));
            let w = choose|w: int| 0 <= w < c.len() && c[w].address == a && c[w].is_free == false;
            if lo <= w <= hi {
                if w == i {
                } else if w < i {
                    assert(joins_left(c, w));
                } else {
                    assert(joins_right(c, w));
                }
            } else if w < lo {
                assert(m[w] == c[w]);
            } else {
                assert(m[w - d] == c[w]);
            }
        }
        if holds_with(m, a, false) {
            let w = choose|w: int| 0 <= w < m.len() && m[w].address == a && m[w].is_free == false;
            let v = if w < lo { w } else { w + d };
            assert(w != lo);
            assert(m[w] == c[v]);
            assert(holds_with(c, a, false));
            if a == ci {
                lemma_unique_address(c, v, i);
            }
        }
    }
    assert forall|a: usize| #![trigger nf.contains(a)] #![trigger holds_with(m, a, true)] nf.contains(a)
        <==> holds_with(m, a, true) by {
        lemma_filter_contains_iff(free, keep, a);
        if nf.contains(a) {
            let x = choose|x: int| 0 <= x < nf.len() && nf[x] == a;
            if x == 0 {
                assert(m[lo].address == a);
            } else {
                assert(nf0.contains(a)) by {
                    assert(nf0[x - 1] == a);
                }
                assert(holds_with(c, a, true));
                let w = choose|w: int| 0 <= w < c.len() && c[w].address == a && c[w].is_free == true;
                if lo <= w <= hi {
                    assert(w != i);
                    assert(!keep(a));
                } else if w < lo {
                    assert(m[w] == c[w]);
                } else {
                    assert(m[w - d] == c[w]);
                }
            }
        }
        if holds_with(m, a, true) {
            let w = choose|w: int| 0 <= w < m.len() && m[w].address == a && m[w].is_free == true;
            if w == lo {
                assert(nf[0] == a);
            } else {
                let v = if w < lo { w } else { w + d };
                assert(m[w] == c[v]);
                assert(holds_with(c, a, true));
                assert(keep(a)) by {
                    if exists|j: int| lo <= j <= hi && j != i && c[j].address == a {
                        let j = choose|j: int| lo <= j <= hi && j != i && c[j].address == a;
                        lemma_unique_address(c, v, j);
                    }
                }
                assert(nf0.contains(a));
                let x = choose|x: int| 0 <= x < nf0.len() && nf0[x] == a;
                assert(nf[x + 1] == a);
            }
        }
    }
}

impl Memalloc {

    /// `post` is this allocator after the block in use at `block_address` was
    /// freed: merged with the longest runs of touching free blocks on either
    /// side into one free block, taken out of the list of blocks in use, and
    /// the merged block put at the head of the free list, which the blocks it
    /// absorbed have left. The tail does not move.
    pub open(crate) spec fn freed_into(self, post: Memalloc, block_address: usize) -> bool {
        let c = self.blocks();
        let i = index_of_address(c, block_address);
        let lo = run_start(c, i);
        let hi = run_end(c, i);
        &&& post.blocks() == merged_chain(c, lo, hi)
        &&& post.used() == self.used().filter(other_than(block_address))
        &&& post.free() == seq![c[lo].address] + self.free().filter(keep_unabsorbed(c, lo, hi, i))
        &&& post.tail() == self.tail()
    }

    /// Records a new block of `size` usable bytes at `block_address`, in use,
    /// among the blocks the allocator knows, in address order.
    pub fn link_added_block(&mut self, block_address: usize, size: usize)
        requires
            chain_wf(old(self).blocks()),
            block_address + size + HEADER_SIZE <= usize::MAX,
            forall|k: int|
                0 <= k < old(self).blocks().len() ==> (#[trigger] old(self).blocks()[k]).disjoint_from(
                    BlockHeader { address: block_address, size, is_free: false },
                ),
        ensures
            chain_wf(final(self).blocks()),
            exists|p: int|
                0 <= p <= old(self).blocks().len() && final(self).blocks() == old(self).blocks().insert(
                    p,
                    BlockHeader { address: block_address, size, is_free: false },
                ),
            final(self).used() == old(self).used(),
            final(self).free() == old(self).free(),
            final(self).tail() == old(self).tail(),
    {
        let b = BlockHeader { address: block_address, size, is_free: false };
        let ghost c = self.blocks();
        let mut p: usize = 0;
        while p < self.chain.len() && self.chain[p].address < block_address
            invariant
                self.blocks() == c,
                chain_wf(c),
                p <= c.len(),
                forall|j: int| 0 <= j < p ==> c[j].address < block_address,
            decreases c.len() - p,
        {
            p = p + 1;
        }
        self.chain.insert(p, b);
        proof {
            let n = self.blocks();
            assert forall|i: int, j: int| 0 <= i < j < n.len() implies n[i].end() <= n[j].address by {
                assert(b.disjoint_from(b) == false);
                if j < p {
                } else if i < p && j == p {
                    assert(c[i].disjoint_from(b));
                } else if i < p {
                    assert(n[j] == c[j - 1]);
                    if i < j - 1 {
                    }
                } else if i == p {
                    assert(n[j] == c[j - 1]);
                    assert(c[j - 1].disjoint_from(b));
                    assert(c[j - 1].address >= block_address);
                } else {
                    assert(n[i] == c[i - 1]);
                    assert(n[j] == c[j - 1]);
                }
            }
        }
    }

    /// Forgets the block that starts at `block_address`.
    pub fn link_removed_block(&mut self, block_address: usize)
        requires
            chain_wf(old(self).blocks()),
            holds(old(self).blocks(), block_address),
        ensures
            chain_wf(final(self).blocks()),
            final(self).blocks() == old(self).blocks().remove(
                index_of_address(old(self).blocks(), block_address),
            ),
            final(self).used() == old(self).used(),
            final(self).free() == old(self).free(),
            final(self).tail() == old(self).tail(),
    {
        let k = self.find_block(block_address).unwrap();
        self.chain.remove(k);
        proof {
            let c = old(self).blocks();
            let n = self.blocks();
            assert forall|i: int, j: int| 0 <= i < j < n.len() implies n[i].end() <= n[j].address by {
                if j < k {
                } else if i < k {
                    assert(n[j] == c[j + 1]);
                } else {
                    assert(n[i] == c[i + 1]);
                    assert(n[j] == c[j + 1]);
                }
            }
        }
    }
    /// Takes the free block at `block_address` out of the free pool for a
    /// request of `size` bytes: the block is marked in use, and when the rest
    /// of it can hold a header and at least one byte, that rest becomes a free
    /// block of its own, right after it by address and in the free list.
    pub fn split_block(&mut self, block_address: usize, size: usize)
        requires
            old(self).wf(),
            holds_with(old(self).blocks(), block_address, true),
            size + HEADER_SIZE + 7 <= usize::MAX,
        ensures
            chain_wf(final(self).blocks()),
            final(self).used() == old(self).used(),
            final(self).tail() == old(self).tail(),
            ({
                let c = old(self).blocks();
                let k = index_of_address(c, block_address);
                let b = c[k];
                let f = free_position(old(self).free(), block_address);
                &&& 0 <= k < c.len()
                &&& b.address == block_address
                &&& 0 <= f < old(self).free().len()
                &&& old(self).free()[f] == block_address
                &&& split_fits(b, size as int) ==> {
                    &&& final(self).blocks() == c.update(k, split_head(b, size as int)).insert(
                        k + 1,
                        split_rest(b, size as int),
                    )
                    &&& final(self).free() == old(self).free().insert(
                        f + 1,
                        split_rest(b, size as int).address,
                    )
                }
                &&& !split_fits(b, size as int) ==> {
                    &&& final(self).blocks() == c.update(k, b.with_free(false))
                    &&& final(self).free() == old(self).free()
                }
            }),
    {
        let ghost c = self.blocks();
        proof {
            let w = choose|w: int|
                0 <= w < c.len() && c[w].address == block_address && c[w].is_free == true;
            lemma_index_of_address(c, w);
        }
        let k = self.find_block(block_address).unwrap();
        let b = self.chain[k];
        let total_size: usize = b.size + HEADER_SIZE;
        let required_size_aligned = align_up_8(size + HEADER_SIZE);
        self.chain.set(k, BlockHeader { is_free: false, ..b });
        if required_size_aligned < total_size && total_size - required_size_aligned > HEADER_SIZE {
            let smaller_block = BlockHeader {
                address: block_address + required_size_aligned,
                size: total_size - required_size_aligned - HEADER_SIZE,
                is_free: true,
            };
            self.chain.set(k, BlockHeader { address: block_address, size: required_size_aligned - HEADER_SIZE, is_free: false });
            assert(k < self.chain.len());
            self.chain.insert(k + 1, smaller_block);
            let f = crate::memalloc::position_in(&self.free_list, block_address).unwrap();
            assert(f < self.free_list.len());
            self.free_list.insert(f + 1, smaller_block.address);
            proof {
                let fr = old(self).free();
                let f0 = free_position(fr, block_address);
                assert(fr.no_duplicates());
                assert(f0 == f);
                assert(smaller_block == split_rest(b, size as int));
                let n = self.blocks();
                assert forall|i: int, j: int| 0 <= i < j < n.len() implies n[i].end() <= n[j].address by {
                    if j < k {
                    } else if i < k {
                        if j > k + 1 {
                            assert(n[j] == c[j - 1]);
                        }
                    } else if i == k {
                        if j > k + 1 {
                            assert(n[j] == c[j - 1]);
                        }
                    } else if i == k + 1 {
                        assert(n[j] == c[j - 1]);
                    } else {
                        assert(n[i] == c[i - 1]);
                        assert(n[j] == c[j - 1]);
                    }
                }
                assert forall|j: int| 0 <= j < n.len() implies (#[trigger] n[j]).in_range() by {
                    if j > k + 1 {
                        assert(n[j] == c[j - 1]);
                    }
                }
            }
        } else {
            proof {
                let fr = old(self).free();
                assert(holds_with(c, block_address, true));
                assert(fr.contains(block_address));
            }
        }
    }
    /// One step of coalescing: the block at position `block` and its
    /// neighbour at position `neighbor` (one place to its left or right, or
    /// none) are joined when the neighbour is free and the two touch; the
    /// block at the lower address absorbs the other, and the neighbour leaves
    /// the free list. Returns whether they were joined and the position of the
    /// result.
    fn try_merge_neighbors(&mut self, block: usize, neighbor: Option<usize>) -> (r: (bool, usize))
        requires
            chain_wf(old(self).blocks()),
            block < old(self).blocks().len(),
            neighbor matches Some(n) ==> n < old(self).blocks().len() && (n + 1 == block || n == block + 1),
        ensures
            chain_wf(final(self).blocks()),
            final(self).used() == old(self).used(),
            final(self).tail() == old(self).tail(),
            ({
                let c = old(self).blocks();
                let b = c[block as int];
                match neighbor {
                    None => {
                        &&& r == (false, block)
                        &&& final(self).blocks() == c
                        &&& final(self).free() == old(self).free()
                    },
                    Some(neighbor) => {
                        let n = c[neighbor as int];
                        if n.is_free && neighbor == block + 1 && b.adjacent_to(n) {
                            &&& r == (true, block)
                            &&& final(self).blocks() == c.remove(neighbor as int).update(
                                block as int,
                                BlockHeader { address: b.address, size: (b.size + n.total()) as usize, is_free: true },
                            )
                            &&& final(self).free() == old(self).free().filter(other_than(n.address))
                        } else if n.is_free && neighbor + 1 == block && n.adjacent_to(b) {
                            &&& r == (true, neighbor)
                            &&& final(self).blocks() == c.remove(block as int).update(
                                neighbor as int,
                                BlockHeader { address: n.address, size: (n.size + b.total()) as usize, is_free: true },
                            )
                            &&& final(self).free() == old(self).free().filter(other_than(n.address))
                        } else {
                            &&& r == (false, block)
                            &&& final(self).blocks() == c
                            &&& final(self).free() == old(self).free()
                        }
                    },
                }
            }),
    {
        let neighbor = match neighbor {
            None => {
                return (false, block);
            },
            Some(neighbor) => neighbor,
        };
        let ghost c = self.blocks();
        let b = self.chain[block];
        let n = self.chain[neighbor];
        if !n.is_free {
            return (false, block);
        }
        if b.address < n.address && b.address + (b.size + HEADER_SIZE) == n.address {
            let merged_size: usize = (b.size + HEADER_SIZE) + (n.size + HEADER_SIZE) - HEADER_SIZE;
            crate::memalloc::remove_address(&mut self.free_list, n.address);
            proof {
                lemma_index_of_address(c, neighbor as int);
            }
            self.link_removed_block(n.address);
            self.chain.set(block, BlockHeader { address: b.address, size: merged_size, is_free: true });
            proof {
                lemma_join_keeps_chain_wf(c, block as int);
            }
            return (true, block);
        } else if b.address > n.address && n.address + (n.size + HEADER_SIZE) == b.address {
            let merged_size: usize = (b.size + HEADER_SIZE) + (n.size + HEADER_SIZE) - HEADER_SIZE;
            crate::memalloc::remove_address(&mut self.free_list, n.address);
            proof {
                lemma_index_of_address(c, block as int);
            }
            self.link_removed_block(b.address);
            self.chain.set(neighbor, BlockHeader { address: n.address, size: merged_size, is_free: true });
            proof {
                lemma_join_keeps_chain_wf(c, neighbor as int);
            }
            return (true, neighbor);
        }
        proof {
            if neighbor == block + 1 {
                assert(c[block as int].end() <= c[neighbor as int].address);
            } else {
                assert(c[neighbor as int].end() <= c[block as int].address);
            }
        }
        (false, block)
    }

    /// Marks the block at `block_address` free and merges it with its free
    /// neighbours for as long as one touches it: the longest run of touching
    /// free blocks on either side becomes one free block, and the blocks it
    /// absorbed leave the free list. The list of blocks in use and the tail
    /// are left alone. Returns the merged block's address.
    #[verifier::rlimit(40)]
    pub fn merge_block(&mut self, block_address: usize) -> (r: usize)
        requires
            chain_wf(old(self).blocks()),
            holds(old(self).blocks(), block_address),
        ensures
            chain_wf(final(self).blocks()),
            final(self).used() == old(self).used(),
            final(self).tail() == old(self).tail(),
            ({
                let c = old(self).blocks();
                let i = index_of_address(c, block_address);
                let lo = run_start(c, i);
                let hi = run_end(c, i);
                let m = final(self).blocks();
                &&& 0 <= lo <= i <= hi < c.len()
                &&& c[i].address == block_address
                &&& r == c[lo].address
                &&& m == merged_chain(c, lo, hi)
                &&& final(self).free() == old(self).free().filter(keep_unabsorbed(c, lo, hi, i))
                // the result covers the freed block, and nothing is left to
                // merge with it
                &&& m[lo].is_free
                &&& m[lo].address <= c[i].address && c[i].end() <= m[lo].end()
                &&& lo == 0 || !(m[lo - 1].is_free && m[lo - 1].adjacent_to(m[lo]))
                &&& lo + 1 == m.len() || !(m[lo + 1].is_free && m[lo].adjacent_to(m[lo + 1]))
            }),
    {
        let ghost c = self.blocks();
        let ghost f0 = self.free();
        let k = self.find_block(block_address).unwrap();
        let b = self.chain[k];
        self.chain.set(k, BlockHeader { is_free: true, ..b });
        proof {
            assert forall|a: usize| #[trigger] keep_unabsorbed(c, k as int, k as int, k as int)(a) by {}
            lemma_filter_all(f0, keep_unabsorbed(c, k as int, k as int, k as int));
            assert(merged_chain(c, k as int, k as int) =~= self.blocks());
            assert forall|j: int| 0 <= j < self.blocks().len() implies (#[trigger] self.blocks()[j]).in_range() by {
                assert(c[j].in_range());
            }
            assert forall|x: int, y: int| 0 <= x < y < self.blocks().len() implies (#[trigger] self.blocks()[x]).end()
                <= (#[trigger] self.blocks()[y]).address by {
                assert(c[x].end() <= c[y].address);
            }
        }
        let mut idx: usize = k;
        let ghost mut lo: int = k as int;
        let ghost mut hi: int = k as int;
        loop
            invariant
                chain_wf(c),
                c[k as int].address == block_address,
                0 <= lo <= k <= hi < c.len(),
                idx == lo,
                forall|j: int| lo <= j < k ==> joins_left(c, j),
                forall|j: int| k < j <= hi ==> joins_right(c, j),
                chain_wf(self.blocks()),
                self.blocks() == merged_chain(c, lo, hi),
                self.used() == old(self).used(),
                self.tail() == old(self).tail(),
                self.free() == f0.filter(keep_unabsorbed(c, lo, hi, k as int)),
            ensures
                lo == 0 || !joins_left(c, lo - 1),
                hi + 1 == c.len() || !joins_right(c, hi + 1),
            decreases self.blocks().len(),
        {
            let left_neighbor = if idx > 0 { Some(idx - 1) } else { None };
            let (merged1, at) = self.try_merge_neighbors(idx, left_neighbor);
            if merged1 {
                proof {
                    lemma_merge_left_step(c, lo, hi);
                    lemma_keep_unabsorbed_grow(c, lo, hi, k as int, lo - 1, hi, lo - 1);
                    lemma_filter_filter(f0, keep_unabsorbed(c, lo, hi, k as int), other_than(c[lo - 1].address));
                    lo = lo - 1;
                }
            }
            idx = at;
            assert(idx < self.chain.len());
            let right_neighbor = if idx + 1 < self.chain.len() { Some(idx + 1) } else { None };
            let (merged2, at) = self.try_merge_neighbors(idx, right_neighbor);
            if merged2 {
                proof {
                    lemma_merge_right_step(c, lo, hi);
                    lemma_keep_unabsorbed_grow(c, lo, hi, k as int, lo, hi + 1, hi + 1);
                    lemma_filter_filter(f0, keep_unabsorbed(c, lo, hi, k as int), other_than(c[hi + 1].address));
                    hi = hi + 1;
                }
            }
            idx = at;
            if !(merged1 || merged2) {
                break;
            }
        }
        proof {
            lemma_index_of_address(c, k as int);
            lemma_run_start(c, k as int, lo);
            lemma_run_end(c, k as int, hi);
        }
        self.chain[idx].address
    }
}

} // verus!
