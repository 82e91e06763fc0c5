use vstd::prelude::*;
use crate::memalloc::block_header::{lemma_header_size, BlockHeader, HEADER_SIZE, align_up_8, round_up_8};
use crate::memalloc::memory_block_linker::{split_fits, split_head, split_rest, free_position};
use crate::memalloc::{
    Memalloc, chain_wf, lists_wf, holds_with, index_of_address, block_at, lemma_index_of_address,
    lemma_unique_address,
};
use crate::memalloc::laws::{
    lemma_mapping_keeps_alignment, lemma_mapping_keeps_blocks_in_use, lemma_reuse_keeps_alignment,
    lemma_reuse_keeps_blocks_in_use, lemma_first_fit_takes_first_room, lemma_no_fit_means_no_room,
    lemma_reuse_gives_room, lemma_reuse_keeps_bytes, lemma_mapping_adds_bytes, total_bytes,
};
use crate::steps::MemorizeStep;

verus! {

/// The free-list entry at `f` names a block with room for `size` bytes.
pub open spec fn fits(c: Seq<BlockHeader>, free: Seq<usize>, size: int, f: int) -> bool {
    block_at(c, free[f]).size >= size
}

/// `f` is the first free-list entry with room for `size` bytes.
pub open spec fn first_fit_at(c: Seq<BlockHeader>, free: Seq<usize>, size: int, f: int) -> bool {
    &&& 0 <= f < free.len()
    &&& fits(c, free, size, f)
    &&& forall|g: int| 0 <= g < f ==> !fits(c, free, size, g)
}

/// No free block has room for `size` bytes.
pub open spec fn no_fit(c: Seq<BlockHeader>, free: Seq<usize>, size: int) -> bool {
    forall|f: int| 0 <= f < free.len() ==> !fits(c, free, size, f)
}

/// The first free-list entry with room for `size` bytes (when there is one).
pub open spec fn first_fit(c: Seq<BlockHeader>, free: Seq<usize>, size: int) -> int {
    choose|f: int| first_fit_at(c, free, size, f)
}

/// There is only one first fit.
pub proof fn lemma_first_fit_unique(c: Seq<BlockHeader>, free: Seq<usize>, size: int, f: int)
    requires
        first_fit_at(c, free, size, f),
    ensures
        first_fit(c, free, size) == f,
{
    let g = first_fit(c, free, size);
    assert(first_fit_at(c, free, size, g));
    if g < f {
        assert(!fits(c, free, size, g));
    } else if f < g {
        assert(!fits(c, free, size, f));
    }
}

impl Memalloc {
    /// `post` is this allocator after the free block named at position `f`
    /// of the free list was handed out for a request of `size` bytes: split
    /// when its rest can stand as a block of its own (that rest takes its
    /// place in the free list), marked in use, and put at the head of the
    /// list of blocks in use. The tail does not move.
    pub open(crate) spec fn took_free_block(self, post: Memalloc, size: int, f: int) -> bool {
        let c = self.blocks();
        let a = self.free()[f];
        let k = index_of_address(c, a);
        let b = c[k];
        &&& post.used() == seq![a] + self.used()
        &&& post.tail() == self.tail()
        &&& if split_fits(b, size) {
            &&& post.blocks() == c.update(k, split_head(b, size)).insert(k + 1, split_rest(b, size))
            &&& post.free() == self.free().update(f, split_rest(b, size).address)
        } else {
            &&& post.blocks() == c.update(k, b.with_free(false))
            &&& post.free() == self.free().remove(f)
        }
    }
}

/// Handing out a free block keeps the lists in step with the blocks.
pub proof fn lemma_take_lists(
    c: Seq<BlockHeader>,
    used: Seq<usize>,
    free: Seq<usize>,
    f: int,
    size: int,
    nc: Seq<BlockHeader>,
    nfree: Seq<usize>,
)
    requires
        chain_wf(c),
        lists_wf(c, used, free),
        chain_wf(nc),
        0 <= size,
        0 <= f < free.len(),
        ({
            let a = free[f];
            let k = index_of_address(c, a);
            let b = c[k];
            if split_fits(b, size) {
                &&& nc == c.update(k, split_head(b, size)).insert(k + 1, split_rest(b, size))
                &&& nfree == free.update(f, split_rest(b, size).address)
            } else {
                &&& nc == c.update(k, b.with_free(false))
                &&& nfree == free.remove(f)
            }
        }),
    ensures
        lists_wf(nc, seq![free[f]] + used, nfree),
{
    let a = free[f];
    assert(free.contains(a));
    assert(holds_with(c, a, true));
    let w = choose|w: int| 0 <= w < c.len() && c[w].address == a && c[w].is_free == true;
    lemma_index_of_address(c, w);
    let k = w;
    let b = c[k];
    let nused = seq![a] + used;
    assert(!used.contains(a)) by {
        if used.contains(a) {
            assert(holds_with(c, a, false));
            let v = choose|v: int| 0 <= v < c.len() && c[v].address == a && c[v].is_free == false;
            lemma_unique_address(c, v, k);
        }
    }
    assert forall|x: int, y: int| 0 <= x < nused.len() && 0 <= y < nused.len() && x != y implies nused[x]
        != nused[y] by {
        if x == 0 {
            assert(used[y - 1] == nused[y]);
        } else if y == 0 {
            assert(used[x - 1] == nused[x]);
        } else {
            assert(used[x - 1] == nused[x]);
            assert(used[y - 1] == nused[y]);
        }
    }
    if split_fits(b, size) {
        let rest = split_rest(b, size);
        assert(round_up_8(size + HEADER_SIZE) >= size + HEADER_SIZE);
        assert(b.address < rest.address < b.end());
        // the rest starts inside `b`, where no block started
        assert(!free.contains(rest.address)) by {
            if free.contains(rest.address) {
                assert(holds_with(c, rest.address, true));
                let v = choose|v: int| 0 <= v < c.len() && c[v].address == rest.address && c[v].is_free;
                if v < k {
                    assert(c[v].end() <= c[k].address);
                } else if v > k {
                    assert(c[k].end() <= c[v].address);
                }
            }
        }
        assert forall|x: int, y: int| 0 <= x < nfree.len() && 0 <= y < nfree.len() && x != y implies nfree[x]
            != nfree[y] by {
            if x == f {
                assert(free.contains(free[y]));
            } else if y == f {
                assert(free.contains(free[x]));
            }
        }
        assert forall|j: int| 0 <= j < k implies nc[j] == c[j] by {}
        assert forall|j: int| k + 1 < j < nc.len() implies nc[j] == c[j - 1] by {}
        assert(nc[k] == split_head(b, size));
        assert(nc[k + 1] == rest);
        assert forall|x: usize| #![trigger nused.contains(x)] #![trigger holds_with(nc, x, false)] nused.contains(x)
            <==> holds_with(nc, x, false) by {
            if nused.contains(x) {
                if x == a {
                    assert(nc[k].address == x);
                } else {
                    let y = choose|y: int| 0 <= y < nused.len() && nused[y] == x;
                    assert(used[y - 1] == x);
                    assert(used.contains(x));
                    assert(holds_with(c, x, false));
                    let v = choose|v: int| 0 <= v < c.len() && c[v].address == x && c[v].is_free == false;
                    if v < k {
                        assert(nc[v] == c[v]);
                    } else {
                        assert(v != k);
                        assert(nc[v + 1] == c[v]);
                    }
                }
            }
            if holds_with(nc, x, false) {
                let v = choose|v: int| 0 <= v < nc.len() && nc[v].address == x && nc[v].is_free == false;
                if v == k {
                    assert(nused[0] == x);
                } else {
                    let u = if v < k { v } else { v - 1 };
                    assert(nc[v] == c[u]);
                    assert(holds_with(c, x, false));
                    assert(used.contains(x));
                    let y = choose|y: int| 0 <= y < used.len() && used[y] == x;
                    assert(nused[y + 1] == x);
                }
            }
        }
        assert forall|x: usize| #![trigger nfree.contains(x)] #![trigger holds_with(nc, x, true)] nfree.contains(x)
            <==> holds_with(nc, x, true) by {
            if nfree.contains(x) {
                let y = choose|y: int| 0 <= y < nfree.len() && nfree[y] == x;
                if y == f {
                    assert(nc[k + 1].address == x);
                } else {
                    assert(free[y] == x);
                    assert(free.contains(x));
                    assert(holds_with(c, x, true));
                    let v = choose|v: int| 0 <= v < c.len() && c[v].address == x && c[v].is_free == true;
                    assert(v != k);
                    if v < k {
                        assert(nc[v] == c[v]);
                    } else {
                        assert(nc[v + 1] == c[v]);
                    }
                }
            }
            if holds_with(nc, x, true) {
                let v = choose|v: int| 0 <= v < nc.len() && nc[v].address == x && nc[v].is_free == true;
                if v == k + 1 {
                    assert(nfree[f] == x);
                } else {
                    let u = if v < k { v } else { v - 1 };
                    assert(v != k);
                    assert(nc[v] == c[u]);
                    assert(holds_with(c, x, true));
                    assert(free.contains(x));
                    let y = choose|y: int| 0 <= y < free.len() && free[y] == x;
                    if y == f {
                        lemma_unique_address(c, u, k);
                    }
                    assert(nfree[y] == x);
                }
            }
        }
    } else {
        assert(nfree.no_duplicates()) by {
            assert forall|x: int, y: int| 0 <= x < nfree.len() && 0 <= y < nfree.len() && x != y implies nfree[x]
                != nfree[y] by {
                let ux = if x < f { x } else { x + 1 };
                let uy = if y < f { y } else { y + 1 };
                assert(nfree[x] == free[ux]);
                assert(nfree[y] == free[uy]);
            }
        }
        assert forall|x: usize| #![trigger nused.contains(x)] #![trigger holds_with(nc, x, false)] nused.contains(x)
            <==> holds_with(nc, x, false) by {
            if nused.contains(x) {
                if x == a {
                    assert(nc[k].address == x);
                } else {
                    let y = choose|y: int| 0 <= y < nused.len() && nused[y] == x;
                    assert(used[y - 1] == x);
                    assert(used.contains(x));
                    assert(holds_with(c, x, false));
                    let v = choose|v: int| 0 <= v < c.len() && c[v].address == x && c[v].is_free == false;
                    assert(nc[v] == c[v]);
                }
            }
            if holds_with(nc, x, false) {
                let v = choose|v: int| 0 <= v < nc.len() && nc[v].address == x && nc[v].is_free == false;
                if v == k {
                    assert(nused[0] == x);
                } else {
                    assert(nc[v] == c[v]);
                    assert(holds_with(c, x, false));
                    assert(used.contains(x));
                    let y = choose|y: int| 0 <= y < used.len() && used[y] == x;
                    assert(nused[y + 1] == x);
                }
            }
        }
        assert forall|x: usize| #![trigger nfree.contains(x)] #![trigger holds_with(nc, x, true)] nfree.contains(x)
            <==> holds_with(nc, x, true) by {
            if nfree.contains(x) {
                let y = choose|y: int| 0 <= y < nfree.len() && nfree[y] == x;
                let u = if y < f { y } else { y + 1 };
                assert(free[u] == x);
                assert(free.contains(x));
                assert(holds_with(c, x, true));
                let v = choose|v: int| 0 <= v < c.len() && c[v].address == x && c[v].is_free == true;
                if v == k {
                    assert(u != f);
                }
                assert(nc[v] == c[v]);
            }
            if holds_with(nc, x, true) {
                let v = choose|v: int| 0 <= v < nc.len() && nc[v].address == x && nc[v].is_free == true;
                assert(v != k);
                assert(nc[v] == c[v]);
                assert(holds_with(c, x, true));
                assert(free.contains(x));
                let y = choose|y: int| 0 <= y < free.len() && free[y] == x;
                if y == f {
                    lemma_unique_address(c, v, k);
                }
                let z = if y < f { y } else { y - 1 };
                assert(nfree[z] == x);
            }
        }
    }
}

impl Memalloc {
    /// Looks through the free list, from its head, for the first block with
    /// room for `size` bytes and hands it out (see `took_free_block`).
    /// Returns its address, or `None` when no free block is large enough.
    fn get_free_block(&mut self, size: usize) -> (r: Option<usize>)
        requires
            old(self).wf(),
            size + HEADER_SIZE + 7 <= usize::MAX,
        ensures
            final(self).wf(),
            match r {
                Some(a) => {
                    let f = first_fit(old(self).blocks(), old(self).free(), size as int);
                    &&& first_fit_at(old(self).blocks(), old(self).free(), size as int, f)
                    &&& a == old(self).free()[f]
                    &&& old(self).took_free_block(*final(self), size as int, f)
                },
                None => {
                    &&& no_fit(old(self).blocks(), old(self).free(), size as int)
                    &&& final(self).blocks() == old(self).blocks()
                    &&& final(self).used() == old(self).used()
                    &&& final(self).free() == old(self).free()
                    &&& final(self).tail() == old(self).tail()
                },
            },
    {
        let ghost c = self.blocks();
        let ghost used = self.used();
        let ghost free = self.free();
        let mut f: usize = 0;
        while f < self.free_list.len()
            invariant
                self.wf(),
                size + HEADER_SIZE + 7 <= usize::MAX,
                c == old(self).blocks(),
                used == old(self).used(),
                free == old(self).free(),
                self.blocks() == c,
                self.used() == used,
                self.free() == free,
                self.tail() == old(self).tail(),
                f <= free.len(),
                forall|g: int| 0 <= g < f ==> !fits(c, free, size as int, g),
            decreases free.len() - f,
        {
            let a = self.free_list[f];
            proof {
                assert(free.contains(a));
                assert(holds_with(c, a, true));
            }
            let k = self.find_block(a).unwrap();
            let b = self.chain[k];
            if b.size >= size {
                if b.size > size {
                    self.split_block(a, size);
                    proof {
                        assert(free.no_duplicates());
                        assert(free_position(free, a) == f);
                    }
                } else {
                    self.chain.set(k, BlockHeader { is_free: false, ..b });
                    proof {
                        assert(round_up_8(size + HEADER_SIZE) >= size + HEADER_SIZE);
                        let n = self.blocks();
                        assert forall|i: int, j: int| 0 <= i < j < n.len() implies n[i].end() <= n[j].address by {
                            assert(c[i].end() <= c[j].address);
                        }
                        assert forall|j: int| 0 <= j < n.len() implies (#[trigger] n[j]).in_range() by {
                            assert(c[j].in_range());
                        }
                    }
                }
                self.free_list.remove(f);
                self.mem_list.insert(0, a);
                proof {
                    let nf = self.free();
                    if split_fits(b, size as int) {
                        assert(nf =~= free.update(f as int, split_rest(b, size as int).address));
                    } else {
                        assert(round_up_8(size + HEADER_SIZE) >= size + HEADER_SIZE);
                        assert(nf == free.remove(f as int));
                    }
                    assert(self.used() =~= seq![a] + used);
                    lemma_take_lists(c, used, free, f as int, size as int, self.blocks(), nf);
                    assert(fits(c, free, size as int, f as int));
                    assert(first_fit_at(c, free, size as int, f as int));
                    lemma_first_fit_unique(c, free, size as int, f as int);
                    assert(first_fit(c, free, size as int) == f);
                    assert(old(self).took_free_block(*self, size as int, f as int));
                    lemma_reuse_keeps_alignment(*old(self), *self, size as int, f as int);
                    if let Some(t) = self.tail() {
                        assert((seq![a] + used).last() == used.last());
                    }

                }
                return Some(a);
            }
            f = f + 1;
        }
        None
    }

    /// Puts the block at `address` at the tail of the list of blocks in use.
    fn add_block_to_mem_list(&mut self, address: usize)
        ensures
            final(self).used() == old(self).used().push(address),
            final(self).tail() == Some(address),
            final(self).blocks() == old(self).blocks(),
            final(self).free() == old(self).free(),
    {
        self.mem_list.push(address);
        self.tail = Some(address);
    }

    /// Asks for `size` bytes. A request for no bytes gets the null pointer.
    /// Otherwise the first block of the free list with room enough is handed
    /// out (split when its rest can stand as a block of its own) and the
    /// address just past its header is the answer. When no free block is
    /// large enough, the answer is a request to map `size` bytes and a header,
    /// rounded up to a multiple of 8, from the system; `finish_memorize` takes
    /// the outcome.
    pub fn memorize(&mut self, size: usize) -> (r: MemorizeStep)
        requires
            old(self).wf(),
            size + HEADER_SIZE + 7 <= usize::MAX,
        ensures
            final(self).wf(),
            ({
                let c = old(self).blocks();
                let free = old(self).free();
                let unchanged = final(self).blocks() == c && final(self).used() == old(self).used()
                    && final(self).free() == free && final(self).tail() == old(self).tail();
                if size == 0 {
                    r == MemorizeStep::Null && unchanged
                } else if no_fit(c, free, size as int) {
                    r == MemorizeStep::Mmap(round_up_8(HEADER_SIZE + size) as usize) && unchanged
                } else {
                    let f = first_fit(c, free, size as int);
                    &&& first_fit_at(c, free, size as int, f)
                    &&& r == MemorizeStep::Ready((free[f] + HEADER_SIZE) as usize)
                    &&& old(self).took_free_block(*final(self), size as int, f)
                }
            }),
            r matches MemorizeStep::Ready(p) ==> p % 8 == HEADER_SIZE % 8,
            old(self).keeps_blocks_in_use(*final(self), None),
            // a request never moves the tail of the list in use
            final(self).tail() == old(self).tail(),
            // a mapping is asked for only when no free block, wherever it
            // stands, has room for the request
            r matches MemorizeStep::Mmap(_) ==> size > 0 && forall|k: int|
                0 <= k < old(self).blocks().len() && (#[trigger] old(self).blocks()[k]).is_free
                    ==> old(self).blocks()[k].size < size,
            // what is handed out is the first entry of the free list, at any
            // position, whose block has room, and that block heads the list
            // in use afterwards, in use, with room for the request
            r matches MemorizeStep::Ready(p) ==> {
                &&& exists|f: int|
                    0 <= f < old(self).free().len() && #[trigger] old(self).free()[f] + HEADER_SIZE == p
                        && block_at(old(self).blocks(), old(self).free()[f]).is_free
                        && block_at(old(self).blocks(), old(self).free()[f]).size >= size
                        && forall|g: int|
                        0 <= g < f ==> (#[trigger] block_at(old(self).blocks(), old(self).free()[g])).size
                            < size
                &&& final(self).used().len() > 0
                &&& final(self).used()[0] + HEADER_SIZE == p
                &&& !block_at(final(self).blocks(), final(self).used()[0]).is_free
                &&& block_at(final(self).blocks(), final(self).used()[0]).size >= size
            },
            // handing out memory, split or not, neither loses nor creates a byte
            total_bytes(final(self).blocks()) == total_bytes(old(self).blocks()),
    {
        proof {
            lemma_header_size();
        }
        let total_size = align_up_8(HEADER_SIZE + size);
        if size == 0 {
            return MemorizeStep::Null;
        }
        match self.get_free_block(size) {
            Some(block) => {
                proof {
                    let c = old(self).blocks();
                    let k = index_of_address(c, block);
                    assert(old(self).free().contains(block));
                    assert(holds_with(c, block, true));
                    let w = choose|w: int| 0 <= w < c.len() && c[w].address == block && c[w].is_free;
                    assert(c[w].in_range());
                    assert(c[w].address % 8 == 0);
                    let f = first_fit(c, old(self).free(), size as int);
                    lemma_reuse_keeps_blocks_in_use(*old(self), *self, size as int, f);
                    lemma_first_fit_takes_first_room(*old(self), size as int, f);
                    lemma_reuse_gives_room(*old(self), *self, size as int, f);
                    lemma_reuse_keeps_bytes(*old(self), *self, size as int, f);
                }
                MemorizeStep::Ready(block + HEADER_SIZE)
            },
            None => {
                proof {
                    lemma_no_fit_means_no_room(*old(self), size as int);
                }
                MemorizeStep::Mmap(total_size)
            },
        }
    }

    /// The region of `size` usable bytes and a header at `address` fits in the
    /// address space and shares no byte with a block the allocator knows.
    pub fn region_is_unclaimed(&self, address: usize, size: usize) -> (r: bool)
        requires
            chain_wf(self.blocks()),
        ensures
            r == (address + size + HEADER_SIZE <= usize::MAX && forall|k: int|
                0 <= k < self.blocks().len() ==> (#[trigger] self.blocks()[k]).disjoint_from(
                    BlockHeader { address, size, is_free: false },
                )),
    {
        if size > usize::MAX - HEADER_SIZE || address > usize::MAX - HEADER_SIZE - size {
            return false;
        }
        let end = address + size + HEADER_SIZE;
        let mut k: usize = 0;
        while k < self.chain.len()
            invariant
                chain_wf(self.blocks()),
                k <= self.blocks().len(),
                end == address + size + HEADER_SIZE,
                forall|j: int|
                    0 <= j < k ==> (#[trigger] self.blocks()[j]).disjoint_from(
                        BlockHeader { address, size, is_free: false },
                    ),
            decreases self.blocks().len() - k,
        {
            let b = self.chain[k];
            proof {
                assert(self.blocks()[k as int].in_range());
            }
            if !(b.address + b.size + HEADER_SIZE <= address || end <= b.address) {
                return false;
            }
            k = k + 1;
        }
        true
    }

    /// Takes the outcome of the mapping that `memorize` asked for: `None` when
    /// the system refused it, which gives the null pointer; otherwise the
    /// address of the mapped bytes, where a block of `size` usable bytes is
    /// recorded, in use, at the tail of the list of blocks in use. The answer
    /// is then the address just past its header.
    pub fn finish_memorize(&mut self, size: usize, mapped: Option<usize>) -> (r: usize)
        requires
            old(self).wf(),
            mapped matches Some(a) ==> {
                &&& a % 8 == 0
                &&& a + size + HEADER_SIZE <= usize::MAX
                &&& forall|k: int|
                    0 <= k < old(self).blocks().len() ==> (#[trigger] old(self).blocks()[k]).disjoint_from(
                        BlockHeader { address: a, size, is_free: false },
                    )
            },
        ensures
            final(self).wf(),
            old(self).keeps_blocks_in_use(*final(self), None),
            // a recorded mapping adds its bytes, header included, and no more
            total_bytes(final(self).blocks()) == total_bytes(old(self).blocks()) + match mapped {
                Some(_) => size + HEADER_SIZE,
                None => 0,
            },
            match mapped {
                None => {
                    &&& r == 0
                    &&& final(self).blocks() == old(self).blocks()
                    &&& final(self).used() == old(self).used()
                    &&& final(self).free() == old(self).free()
                    &&& final(self).tail() == old(self).tail()
                },
                Some(a) => {
                    &&& r == a + HEADER_SIZE
                    &&& r % 8 == HEADER_SIZE % 8
                    &&& final(self).tail() == Some(a)
                    &&& exists|p: int|
                        0 <= p <= old(self).blocks().len() && final(self).blocks()
                            == old(self).blocks().insert(p, BlockHeader { address: a, size, is_free: false })
                    &&& final(self).used() == old(self).used().push(a)
                    &&& final(self).free() == old(self).free()
                },
            },
    {
        proof {
            lemma_header_size();
        }
        match mapped {
            None => 0,
            Some(block) => {
                let ghost c = self.blocks();
                let ghost used = self.used();
                let ghost free = self.free();
                self.link_added_block(block, size);
                self.add_block_to_mem_list(block);
                proof {
                    let b = BlockHeader { address: block, size, is_free: false };
                    let p = choose|p: int| 0 <= p <= c.len() && self.blocks() == c.insert(p, b);
                    lemma_add_lists(c, used, free, p, b);
                    lemma_mapping_keeps_alignment(c, p, b);
                    lemma_mapping_keeps_blocks_in_use(*old(self), *self, block, size);
                    lemma_mapping_adds_bytes(c, p, b);
                }
                block + HEADER_SIZE
            },
        }
    }
}

/// Recording a new block in use, at the tail of the list of blocks in use,
/// keeps the lists in step with the blocks.
pub proof fn lemma_add_lists(c: Seq<BlockHeader>, used: Seq<usize>, free: Seq<usize>, p: int, b: BlockHeader)
    requires
        lists_wf(c, used, free),
        0 <= p <= c.len(),
        !b.is_free,
        b.in_range(),
        forall|k: int| 0 <= k < c.len() ==> (#[trigger] c[k]).disjoint_from(b),
    ensures
        lists_wf(c.insert(p, b), used.push(b.address), free),
{
    let nc = c.insert(p, b);
    let nu = used.push(b.address);
    assert forall|j: int| 0 <= j < p implies nc[j] == c[j] by {}
    assert forall|j: int| p < j < nc.len() implies nc[j] == c[j - 1] by {}
    assert(nc[p] == b);
    assert(!holds_with(c, b.address, false) && !holds_with(c, b.address, true)) by {
        if exists|k: int| 0 <= k < c.len() && c[k].address == b.address {
            let k = choose|k: int| 0 <= k < c.len() && c[k].address == b.address;
            assert(c[k].disjoint_from(b));
        }
    }
    assert(!used.contains(b.address));
    assert forall|x: int, y: int| 0 <= x < nu.len() && 0 <= y < nu.len() && x != y implies nu[x] != nu[y] by {
        if x == used.len() {
            assert(nu[y] == used[y]);
            assert(used.contains(used[y]));
        } else if y == used.len() {
            assert(nu[x] == used[x]);
        }
    }
    assert forall|x: usize| #![trigger nu.contains(x)] #![trigger holds_with(nc, x, false)] nu.contains(x)
        <==> holds_with(nc, x, false) by {
        if nu.contains(x) {
            if x == b.address {
                assert(nc[p].address == x);
            } else {
                let y = choose|y: int| 0 <= y < nu.len() && nu[y] == x;
                assert(used[y] == x);
                assert(used.contains(x));
                assert(holds_with(c, x, false));
                let v = choose|v: int| 0 <= v < c.len() && c[v].address == x && c[v].is_free == false;
                let u = if v < p { v } else { v + 1 };
                assert(nc[u] == c[v]);
            }
        }
        if holds_with(nc, x, false) {
            let v = choose|v: int| 0 <= v < nc.len() && nc[v].address == x && nc[v].is_free == false;
            if v == p {
                assert(nu[used.len() as int] == x);
            } else {
                let u = if v < p { v } else { v - 1 };
                assert(nc[v] == c[u]);
                assert(holds_with(c, x, false));
                assert(used.contains(x));
                let y = choose|y: int| 0 <= y < used.len() && used[y] == x;
                assert(nu[y] == x);
            }
        }
    }
    assert forall|x: usize| #![trigger free.contains(x)] #![trigger holds_with(nc, x, true)] free.contains(x)
        <==> holds_with(nc, x, true) by {
        if free.contains(x) {
            assert(holds_with(c, x, true));
            let v = choose|v: int| 0 <= v < c.len() && c[v].address == x && c[v].is_free == true;
            let u = if v < p { v } else { v + 1 };
            assert(nc[u] == c[v]);
        }
        if holds_with(nc, x, true) {
            let v = choose|v: int| 0 <= v < nc.len() && nc[v].address == x && nc[v].is_free == true;
            assert(v != p);
            let u = if v < p { v } else { v - 1 };
            assert(nc[v] == c[u]);
            assert(holds_with(c, x, true));
        }
    }
}

} // verus!
