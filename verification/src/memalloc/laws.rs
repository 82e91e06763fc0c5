use vstd::prelude::*;
use crate::memalloc::block_header::{lemma_header_size, BlockHeader, HEADER_SIZE, round_up_8};
use crate::memalloc::memory_block_linker::{
    joins_left, joins_right, run_start, run_end, merged_block, split_fits, split_head, split_rest,
};
use crate::memalloc::memorize::{fits, first_fit_at, no_fit};
use crate::list_facts::{other_than, lemma_filter_contains_iff};
use crate::steps::ForgetStep;
use crate::memalloc::{
    Memalloc, aligned, chain_wf, holds, holds_with, index_of_address, block_at, lemma_index_of_address,
    lemma_unique_address,
};

verus! {

/// Bytes spanned by the blocks of `c`, headers included.
pub open spec fn total_bytes(c: Seq<BlockHeader>) -> int
    decreases c.len(),
{
    if c.len() == 0 {
        0
    } else {
        total_bytes(c.drop_last()) + c.last().total()
    }
}

pub proof fn lemma_total_bytes_concat(a: Seq<BlockHeader>, b: Seq<BlockHeader>)
    ensures
        total_bytes(a + b) == total_bytes(a) + total_bytes(b),
    decreases b.len(),
{
    if b.len() == 0 {
        assert(a + b =~= a);
    } else {
        lemma_total_bytes_concat(a, b.drop_last());
        assert((a + b).drop_last() =~= a + b.drop_last());
    }
}

pub proof fn lemma_total_bytes_single(b: BlockHeader)
    ensures
        total_bytes(seq![b]) == b.total(),
{
    assert(seq![b].drop_last() =~= Seq::<BlockHeader>::empty());
    assert(total_bytes(Seq::<BlockHeader>::empty()) == 0);
}

/// Blocks that touch one after the other span exactly the bytes from the
/// first one's start to the last one's end.
pub proof fn lemma_total_bytes_run(c: Seq<BlockHeader>, lo: int, hi: int)
    requires
        0 <= lo <= hi < c.len(),
        forall|j: int| lo < j <= hi ==> (#[trigger] c[j - 1]).adjacent_to(c[j]),
    ensures
        total_bytes(c.subrange(lo, hi + 1)) == c[hi].end() - c[lo].address,
    decreases hi - lo,
{
    if lo == hi {
        assert(c.subrange(lo, hi + 1) =~= seq![c[lo]]);
        lemma_total_bytes_single(c[lo]);
    } else {
        lemma_total_bytes_run(c, lo, hi - 1);
        assert(c.subrange(lo, hi + 1).drop_last() =~= c.subrange(lo, hi));
        assert(c[hi - 1].adjacent_to(c[hi]));
    }
}

/// The block at `i` lies inside its run, and every block of the run but it
/// is free and touches its neighbour towards `i`.
pub proof fn lemma_run_facts(c: Seq<BlockHeader>, i: int)
    requires
        0 <= i < c.len(),
    ensures
        0 <= run_start(c, i) <= i <= run_end(c, i) < c.len(),
        forall|j: int| run_start(c, i) <= j < i ==> joins_left(c, j),
        forall|j: int| i < j <= run_end(c, i) ==> joins_right(c, j),
{
    lemma_run_start_facts(c, i);
    lemma_run_end_facts(c, i);
}

proof fn lemma_run_start_facts(c: Seq<BlockHeader>, i: int)
    requires
        0 <= i < c.len(),
    ensures
        0 <= run_start(c, i) <= i,
        forall|j: int| run_start(c, i) <= j < i ==> joins_left(c, j),
    decreases i,
{
    if i > 0 && joins_left(c, i - 1) {
        lemma_run_start_facts(c, i - 1);
    }
}

proof fn lemma_run_end_facts(c: Seq<BlockHeader>, i: int)
    requires
        0 <= i < c.len(),
    ensures
        i <= run_end(c, i) < c.len(),
        forall|j: int| i < j <= run_end(c, i) ==> joins_right(c, j),
    decreases c.len() - i,
{
    if i + 1 < c.len() && joins_right(c, i + 1) {
        lemma_run_end_facts(c, i + 1);
    }
}

/// Freeing and merging neither loses nor creates a byte: the blocks span as
/// many bytes after `forget` merged a freed block as before.
pub proof fn lemma_freeing_keeps_bytes(s0: Memalloc, s1: Memalloc, block_address: usize)
    requires
        s0.wf(),
        holds(s0.blocks(), block_address),
        s0.freed_into(s1, block_address),
    ensures
        total_bytes(s1.blocks()) == total_bytes(s0.blocks()),
{
    let c = s0.blocks();
    let w = choose|w: int| 0 <= w < c.len() && c[w].address == block_address;
    lemma_index_of_address(c, w);
    let i = w;
    lemma_run_facts(c, i);
    let lo = run_start(c, i);
    let hi = run_end(c, i);
    assert forall|j: int| lo < j <= hi implies (#[trigger] c[j - 1]).adjacent_to(c[j]) by {
        if j <= i {
            assert(joins_left(c, j - 1));
        } else {
            assert(joins_right(c, j));
        }
    }
    lemma_total_bytes_run(c, lo, hi);
    let left = c.subrange(0, lo);
    let run = c.subrange(lo, hi + 1);
    let right = c.subrange(hi + 1, c.len() as int);
    assert(c =~= left + run + right);
    lemma_total_bytes_concat(left + run, right);
    lemma_total_bytes_concat(left, run);
    let m = merged_block(c, lo, hi);
    assert(c[hi].in_range());
    if lo < hi {
        assert(c[lo].end() <= c[hi].address);
    }
    assert(m.total() == c[hi].end() - c[lo].address);
    lemma_total_bytes_single(m);
    lemma_total_bytes_concat(left + seq![m], right);
    lemma_total_bytes_concat(left, seq![m]);
}

/// Handing out a free block, split or not, neither loses nor creates a byte.
pub proof fn lemma_reuse_keeps_bytes(s0: Memalloc, s1: Memalloc, size: int, f: int)
    requires
        s0.wf(),
        0 <= size,
        0 <= f < s0.free().len(),
        s0.took_free_block(s1, size, f),
    ensures
        total_bytes(s1.blocks()) == total_bytes(s0.blocks()),
{
    let c = s0.blocks();
    let a = s0.free()[f];
    assert(s0.free().contains(a));
    assert(holds_with(c, a, true));
    let w = choose|w: int| 0 <= w < c.len() && c[w].address == a && c[w].is_free;
    lemma_index_of_address(c, w);
    let k = w;
    let b = c[k];
    let left = c.subrange(0, k);
    let right = c.subrange(k + 1, c.len() as int);
    assert(c =~= left + seq![b] + right);
    lemma_total_bytes_concat(left + seq![b], right);
    lemma_total_bytes_concat(left, seq![b]);
    lemma_total_bytes_single(b);
    if split_fits(b, size) {
        let h = split_head(b, size);
        let r = split_rest(b, size);
        assert(round_up_8(size + HEADER_SIZE) >= size + HEADER_SIZE);
        assert(b.in_range());
        assert(h.total() + r.total() == b.total());
        assert(s1.blocks() =~= left + seq![h, r] + right);
        lemma_total_bytes_concat(left + seq![h, r], right);
        lemma_total_bytes_concat(left, seq![h, r]);
        assert(seq![h, r] =~= seq![h] + seq![r]);
        lemma_total_bytes_concat(seq![h], seq![r]);
        lemma_total_bytes_single(h);
        lemma_total_bytes_single(r);
    } else {
        let u = b.with_free(false);
        assert(s1.blocks() =~= left + seq![u] + right);
        lemma_total_bytes_concat(left + seq![u], right);
        lemma_total_bytes_concat(left, seq![u]);
        lemma_total_bytes_single(u);
    }
}

/// Recording a mapped block adds its bytes, header included, and no more.
pub proof fn lemma_mapping_adds_bytes(c: Seq<BlockHeader>, p: int, b: BlockHeader)
    requires
        0 <= p <= c.len(),
    ensures
        total_bytes(c.insert(p, b)) == total_bytes(c) + b.total(),
{
    let left = c.subrange(0, p);
    let right = c.subrange(p, c.len() as int);
    assert(c =~= left + right);
    assert(c.insert(p, b) =~= left + seq![b] + right);
    lemma_total_bytes_concat(left, right);
    lemma_total_bytes_concat(left + seq![b], right);
    lemma_total_bytes_concat(left, seq![b]);
    lemma_total_bytes_single(b);
}

/// Dropping a block takes away exactly its bytes, header included: the
/// length that `forget` gives back to the system.
pub proof fn lemma_unmapping_removes_bytes(c: Seq<BlockHeader>, k: int)
    requires
        0 <= k < c.len(),
    ensures
        total_bytes(c.remove(k)) == total_bytes(c) - c[k].total(),
{
    let left = c.subrange(0, k);
    let right = c.subrange(k + 1, c.len() as int);
    assert(c =~= left + seq![c[k]] + right);
    assert(c.remove(k) =~= left + right);
    lemma_total_bytes_concat(left, right);
    lemma_total_bytes_concat(left + seq![c[k]], right);
    lemma_total_bytes_concat(left, seq![c[k]]);
    lemma_total_bytes_single(c[k]);
}

/// A block freed by `forget` is reused first: after it was freed and merged,
/// the head of the free list is the merged block, which starts no later than
/// the freed one and has room for anything the freed block had room for, so
/// the next `memorize` of at most that many bytes hands it out again.
pub proof fn lemma_freed_block_is_reused(s0: Memalloc, s1: Memalloc, block_address: usize, n: int)
    requires
        s0.wf(),
        s1.wf(),
        holds(s0.blocks(), block_address),
        s0.freed_into(s1, block_address),
        0 <= n <= block_at(s0.blocks(), block_address).size,
    ensures
        first_fit_at(s1.blocks(), s1.free(), n, 0),
        s1.free()[0] <= block_address,
{
    let c = s0.blocks();
    let w = choose|w: int| 0 <= w < c.len() && c[w].address == block_address;
    lemma_index_of_address(c, w);
    let i = w;
    lemma_run_facts(c, i);
    let lo = run_start(c, i);
    let hi = run_end(c, i);
    let m = s1.blocks();
    assert(m[lo] == merged_block(c, lo, hi));
    lemma_index_of_address(m, lo);
    assert(c[hi].in_range());
    if lo < i {
        assert(c[lo].end() <= c[i].address);
    }
    if i < hi {
        assert(c[i].end() <= c[hi].address);
    }
    assert(s1.free()[0] == c[lo].address);
    assert(block_at(m, s1.free()[0]).size >= n);
}

/// The block that `finish_memorize` just recorded is the tail of the list of
/// blocks in use, with the size it was recorded with: freeing it at once
/// gives all its bytes back to the system.
pub proof fn lemma_mapped_block_is_tail(s0: Memalloc, s1: Memalloc, a: usize, size: usize)
    requires
        s1.wf(),
        s1.tail() == Some(a),
        exists|p: int|
            0 <= p <= s0.blocks().len() && s1.blocks() == s0.blocks().insert(
                p,
                BlockHeader { address: a, size, is_free: false },
            ),
    ensures
        s1.used().last() == a,
        block_at(s1.blocks(), a).size == size,
{
    let p = choose|p: int|
        0 <= p <= s0.blocks().len() && s1.blocks() == s0.blocks().insert(
            p,
            BlockHeader { address: a, size, is_free: false },
        );
    assert(s1.blocks()[p].address == a);
    lemma_index_of_address(s1.blocks(), p);
}

/// Mapping a block and freeing it at once gives the allocator back the state
/// it had, provided its tail stood at the last block in use (or there was
/// none in use): the block leaves the chain, the list in use and the tail
/// move back.
pub proof fn lemma_map_then_forget_restores(s0: Memalloc, s1: Memalloc, s2: Memalloc, a: usize, size: usize)
    requires
        s0.wf(),
        s1.wf(),
        s0.tail() == if s0.used().len() > 0 { Some(s0.used().last()) } else { None::<usize> },
        // `finish_memorize(size, Some(a))` took s0 to s1
        exists|p: int|
            0 <= p <= s0.blocks().len() && s1.blocks() == s0.blocks().insert(
                p,
                BlockHeader { address: a, size, is_free: false },
            ),
        s1.used() == s0.used().push(a),
        s1.free() == s0.free(),
        s1.tail() == Some(a),
        // `forget(a + HEADER_SIZE)` took s1 to s2
        s2.blocks() == s1.blocks().remove(index_of_address(s1.blocks(), a)),
        s2.used() == s1.used().drop_last(),
        s2.free() == s1.free(),
        s2.tail() == if s1.used().len() > 1 { Some(s1.used()[s1.used().len() - 2]) } else { None::<usize> },
    ensures
        s2.blocks() == s0.blocks(),
        s2.used() == s0.used(),
        s2.free() == s0.free(),
        s2.tail() == s0.tail(),
{
    let p = choose|p: int|
        0 <= p <= s0.blocks().len() && s1.blocks() == s0.blocks().insert(
            p,
            BlockHeader { address: a, size, is_free: false },
        );
    assert(s1.blocks()[p].address == a);
    lemma_index_of_address(s1.blocks(), p);
    assert(s2.blocks() =~= s0.blocks());
    assert(s2.used() =~= s0.used());
}

/// Recording a block and forgetting it at once leaves the chain of blocks as
/// it was.
pub proof fn lemma_add_then_remove_restores(c: Seq<BlockHeader>, p: int, b: BlockHeader)
    requires
        0 <= p <= c.len(),
        chain_wf(c.insert(p, b)),
    ensures
        c.insert(p, b).remove(index_of_address(c.insert(p, b), b.address)) == c,
{
    assert(c.insert(p, b)[p] == b);
    lemma_index_of_address(c.insert(p, b), p);
    assert(c.insert(p, b).remove(p) =~= c);
}

/// What `memorize` hands out from the free list is in use afterwards, heads
/// the list of blocks in use and has room for the request.
pub proof fn lemma_reuse_gives_room(s0: Memalloc, s1: Memalloc, size: int, f: int)
    requires
        s0.wf(),
        s1.wf(),
        0 <= size,
        first_fit_at(s0.blocks(), s0.free(), size, f),
        s0.took_free_block(s1, size, f),
    ensures
        holds_with(s1.blocks(), s0.free()[f], false),
        block_at(s1.blocks(), s0.free()[f]).size >= size,
        s1.used()[0] == s0.free()[f],
{
    let c = s0.blocks();
    let a = s0.free()[f];
    assert(s0.free().contains(a));
    assert(holds_with(c, a, true));
    let w = choose|w: int| 0 <= w < c.len() && c[w].address == a && c[w].is_free;
    lemma_index_of_address(c, w);
    let b = c[w];
    assert(fits(c, s0.free(), size, f));
    assert(s1.blocks()[w].address == a);
    lemma_index_of_address(s1.blocks(), w);
    if split_fits(b, size) {
        assert(round_up_8(size + HEADER_SIZE) >= size + HEADER_SIZE);
    }
}

/// Splitting a block for a request of `size` bytes cuts it in two touching
/// parts that cover it exactly: the part handed out spans a multiple of 8
/// bytes with room for the request, so the rest starts as aligned as the
/// block did, and the rest holds a header and at least one byte.
pub proof fn lemma_split_tiles(b: BlockHeader, size: int)
    requires
        0 <= size,
        b.in_range(),
        split_fits(b, size),
    ensures
        split_head(b, size).address == b.address,
        split_head(b, size).adjacent_to(split_rest(b, size)),
        split_rest(b, size).end() == b.end(),
        split_head(b, size).total() % 8 == 0,
        split_head(b, size).size >= size,
        split_rest(b, size).size >= 1,
        split_rest(b, size).address % 8 == b.address % 8,
{
    assert(round_up_8(size + HEADER_SIZE) >= size + HEADER_SIZE);
}

/// No two blocks share a byte, so memory handed out never overlaps any other
/// block, in use or free.
pub proof fn lemma_blocks_disjoint(s: Memalloc, i: int, j: int)
    requires
        s.wf(),
        0 <= i < s.blocks().len(),
        0 <= j < s.blocks().len(),
        i != j,
    ensures
        s.blocks()[i].disjoint_from(s.blocks()[j]),
{
    if i < j {
        assert(s.blocks()[i].end() <= s.blocks()[j].address);
    } else {
        assert(s.blocks()[j].end() <= s.blocks()[i].address);
    }
}

/// No block is at once in use and free.
pub proof fn lemma_used_and_free_are_apart(s: Memalloc, a: usize)
    requires
        s.wf(),
    ensures
        !(s.used().contains(a) && s.free().contains(a)),
{
    if s.used().contains(a) && s.free().contains(a) {
        let c = s.blocks();
        assert(holds_with(c, a, false));
        assert(holds_with(c, a, true));
        let v = choose|v: int| 0 <= v < c.len() && c[v].address == a && c[v].is_free == false;
        let w = choose|w: int| 0 <= w < c.len() && c[w].address == a && c[w].is_free == true;
        lemma_unique_address(c, v, w);
    }
}

/// Handing out a free block, split or not, keeps every block starting at a
/// multiple of 8, and the pointer handed out is a multiple of 8 too.
pub proof fn lemma_reuse_keeps_alignment(s0: Memalloc, s1: Memalloc, size: int, f: int)
    requires
        s0.wf(),
        0 <= size,
        0 <= f < s0.free().len(),
        aligned(s0.blocks()),
        s0.took_free_block(s1, size, f),
    ensures
        aligned(s1.blocks()),
        (s0.free()[f] + HEADER_SIZE) % 8 == HEADER_SIZE % 8,
{
    lemma_header_size();
    let c = s0.blocks();
    let a = s0.free()[f];
    assert(s0.free().contains(a));
    assert(holds_with(c, a, true));
    let w = choose|w: int| 0 <= w < c.len() && c[w].address == a && c[w].is_free;
    lemma_index_of_address(c, w);
    let b = c[w];
    assert(b.address % 8 == 0);
    if split_fits(b, size) {
        assert(b.in_range());
        lemma_split_tiles(b, size);
        let n = s1.blocks();
        assert forall|k: int| 0 <= k < n.len() implies (#[trigger] n[k]).address % 8 == 0 by {
            if k < w {
                assert(n[k] == c[k]);
            } else if k > w + 1 {
                assert(n[k] == c[k - 1]);
            }
        }
    } else {
        let n = s1.blocks();
        assert forall|k: int| 0 <= k < n.len() implies (#[trigger] n[k]).address % 8 == 0 by {
            assert(n[k].address == c[k].address);
        }
    }
}

/// Freeing and merging keeps every block starting at a multiple of 8: the
/// merged block starts where one of the merged blocks started.
pub proof fn lemma_freeing_keeps_alignment(s0: Memalloc, s1: Memalloc, block_address: usize)
    requires
        s0.wf(),
        holds(s0.blocks(), block_address),
        aligned(s0.blocks()),
        s0.freed_into(s1, block_address),
    ensures
        aligned(s1.blocks()),
{
    let c = s0.blocks();
    let w = choose|w: int| 0 <= w < c.len() && c[w].address == block_address;
    lemma_index_of_address(c, w);
    lemma_run_facts(c, w);
    let lo = run_start(c, w);
    let hi = run_end(c, w);
    let n = s1.blocks();
    assert forall|k: int| 0 <= k < n.len() implies (#[trigger] n[k]).address % 8 == 0 by {
        if k < lo {
            assert(n[k] == c[k]);
        } else if k == lo {
            assert(n[k].address == c[lo].address);
        } else {
            assert(n[k] == c[k + hi - lo]);
        }
    }
}

/// Recording a block mapped at a multiple of 8 keeps every block starting at
/// a multiple of 8.
pub proof fn lemma_mapping_keeps_alignment(c: Seq<BlockHeader>, p: int, b: BlockHeader)
    requires
        aligned(c),
        0 <= p <= c.len(),
        b.address % 8 == 0,
    ensures
        aligned(c.insert(p, b)),
{
    let n = c.insert(p, b);
    assert forall|j: int| 0 <= j < n.len() implies (#[trigger] n[j]).address % 8 == 0 by {
        if j < p {
            assert(n[j] == c[j]);
        } else if j > p {
            assert(n[j] == c[j - 1]);
        }
    }
}

/// Dropping a block keeps every block starting at a multiple of 8.
pub proof fn lemma_unmapping_keeps_alignment(c: Seq<BlockHeader>, k: int)
    requires
        aligned(c),
        0 <= k < c.len(),
    ensures
        aligned(c.remove(k)),
{
    let r = c.remove(k);
    assert forall|j: int| 0 <= j < r.len() implies (#[trigger] r[j]).address % 8 == 0 by {
        if j < k {
            assert(r[j] == c[j]);
        } else {
            assert(r[j] == c[j + 1]);
        }
    }
}

/// A block found at a new position with the same record is found by its
/// address there.
pub proof fn lemma_block_at_moved(c: Seq<BlockHeader>, c2: Seq<BlockHeader>, j: int, j2: int)
    requires
        chain_wf(c),
        chain_wf(c2),
        0 <= j < c.len(),
        0 <= j2 < c2.len(),
        c2[j2] == c[j],
    ensures
        holds(c2, c[j].address),
        block_at(c2, c[j].address) == block_at(c, c[j].address),
{
    lemma_index_of_address(c, j);
    lemma_index_of_address(c2, j2);
}

/// Handing out a free block leaves every block that was in use in use, with
/// the same record.
pub proof fn lemma_reuse_keeps_blocks_in_use(s0: Memalloc, s1: Memalloc, size: int, f: int)
    requires
        s0.wf(),
        s1.wf(),
        0 <= f < s0.free().len(),
        s0.took_free_block(s1, size, f),
    ensures
        s0.keeps_blocks_in_use(s1, None),
{
    let c = s0.blocks();
    let a = s0.free()[f];
    assert(s0.free().contains(a));
    assert(holds_with(c, a, true));
    let w = choose|w: int| 0 <= w < c.len() && c[w].address == a && c[w].is_free;
    lemma_index_of_address(c, w);
    let b = c[w];
    assert forall|x: usize| #[trigger] s0.used().contains(x) && None::<usize> != Some(x) implies s1.used().contains(x)
        && block_at(s1.blocks(), x) == block_at(s0.blocks(), x) by {
        assert(holds_with(c, x, false));
        let j = choose|j: int| 0 <= j < c.len() && c[j].address == x && c[j].is_free == false;
        assert(j != w);
        let y = choose|y: int| 0 <= y < s0.used().len() && s0.used()[y] == x;
        assert(s1.used()[y + 1] == x);
        if split_fits(b, size) {
            let j2 = if j < w { j } else { j + 1 };
            assert(s1.blocks()[j2] == c[j]);
            lemma_block_at_moved(c, s1.blocks(), j, j2);
        } else {
            assert(s1.blocks()[j] == c[j]);
            lemma_block_at_moved(c, s1.blocks(), j, j);
        }
    }
}

/// Recording a mapped block leaves every block that was in use in use, with
/// the same record.
pub proof fn lemma_mapping_keeps_blocks_in_use(s0: Memalloc, s1: Memalloc, a: usize, size: usize)
    requires
        s0.wf(),
        s1.wf(),
        exists|p: int|
            0 <= p <= s0.blocks().len() && s1.blocks() == s0.blocks().insert(
                p,
                BlockHeader { address: a, size, is_free: false },
            ),
        s1.used() == s0.used().push(a),
    ensures
        s0.keeps_blocks_in_use(s1, None),
{
    let c = s0.blocks();
    let p = choose|p: int|
        0 <= p <= s0.blocks().len() && s1.blocks() == s0.blocks().insert(
            p,
            BlockHeader { address: a, size, is_free: false },
        );
    assert forall|x: usize| #[trigger] s0.used().contains(x) && None::<usize> != Some(x) implies s1.used().contains(x)
        && block_at(s1.blocks(), x) == block_at(s0.blocks(), x) by {
        assert(holds_with(c, x, false));
        let j = choose|j: int| 0 <= j < c.len() && c[j].address == x && c[j].is_free == false;
        let y = choose|y: int| 0 <= y < s0.used().len() && s0.used()[y] == x;
        assert(s1.used()[y] == x);
        let j2 = if j < p { j } else { j + 1 };
        assert(s1.blocks()[j2] == c[j]);
        lemma_block_at_moved(c, s1.blocks(), j, j2);
    }
}

/// Freeing one pointer leaves every other block that was in use in use,
/// with the same record.
pub proof fn lemma_forget_keeps_blocks_in_use(s0: Memalloc, s1: Memalloc, block: usize, r: ForgetStep)
    requires
        s0.wf(),
        s1.wf(),
        s0.forgot(s1, block, r),
    ensures
        s0.keeps_blocks_in_use(s1, Some((block - HEADER_SIZE) as usize)),
{
    let c = s0.blocks();
    let used = s0.used();
    let header = (block - HEADER_SIZE) as usize;
    if block == 0 || block < HEADER_SIZE {
    } else if s0.tail() == Some(header) {
        assert(used.contains(header));
        assert(holds_with(c, header, false));
        let kh = choose|kh: int| 0 <= kh < c.len() && c[kh].address == header && c[kh].is_free == false;
        lemma_index_of_address(c, kh);
        assert forall|x: usize| #[trigger] used.contains(x) && Some(header) != Some(x) implies s1.used().contains(x)
            && block_at(s1.blocks(), x) == block_at(c, x) by {
            assert(holds_with(c, x, false));
            let j = choose|j: int| 0 <= j < c.len() && c[j].address == x && c[j].is_free == false;
            assert(j != kh);
            let y = choose|y: int| 0 <= y < used.len() && used[y] == x;
            assert(y != used.len() - 1);
            assert(s1.used()[y] == x);
            let j2 = if j < kh { j } else { j - 1 };
            assert(s1.blocks()[j2] == c[j]);
            lemma_block_at_moved(c, s1.blocks(), j, j2);
        }
    } else if used.contains(header) {
        assert(holds_with(c, header, false));
        let i = choose|i: int| 0 <= i < c.len() && c[i].address == header && c[i].is_free == false;
        lemma_index_of_address(c, i);
        lemma_run_facts(c, i);
        let lo = run_start(c, i);
        let hi = run_end(c, i);
        assert forall|x: usize| #[trigger] used.contains(x) && Some(header) != Some(x) implies s1.used().contains(x)
            && block_at(s1.blocks(), x) == block_at(c, x) by {
            assert(holds_with(c, x, false));
            let j = choose|j: int| 0 <= j < c.len() && c[j].address == x && c[j].is_free == false;
            if lo <= j <= hi {
                if j < i {
                    assert(joins_left(c, j));
                } else if j > i {
                    assert(joins_right(c, j));
                }
            }
            lemma_filter_contains_iff(used, other_than(header), x);
            let j2 = if j < lo { j } else { j - (hi - lo) };
            assert(s1.blocks()[j2] == c[j]);
            lemma_block_at_moved(c, s1.blocks(), j, j2);
        }
    }
}

/// Two different blocks in use share no byte: memory handed out by two calls
/// of `memorize` and not freed since never overlaps, nor does it overlap a
/// header.
pub proof fn lemma_blocks_in_use_apart(s: Memalloc, a: usize, b: usize)
    requires
        s.wf(),
        s.used().contains(a),
        s.used().contains(b),
        a != b,
    ensures
        block_at(s.blocks(), a).disjoint_from(block_at(s.blocks(), b)),
{
    let c = s.blocks();
    assert(holds_with(c, a, false));
    assert(holds_with(c, b, false));
    let i = choose|i: int| 0 <= i < c.len() && c[i].address == a && c[i].is_free == false;
    let j = choose|j: int| 0 <= j < c.len() && c[j].address == b && c[j].is_free == false;
    lemma_index_of_address(c, i);
    lemma_index_of_address(c, j);
    lemma_blocks_disjoint(s, i, j);
}

/// When no entry of the free list names a block with room for `size` bytes,
/// no free block at all has that room.
pub proof fn lemma_no_fit_means_no_room(s: Memalloc, size: int)
    requires
        s.wf(),
        no_fit(s.blocks(), s.free(), size),
    ensures
        forall|k: int|
            0 <= k < s.blocks().len() && (#[trigger] s.blocks()[k]).is_free ==> s.blocks()[k].size < size,
{
    let c = s.blocks();
    assert forall|k: int| 0 <= k < c.len() && (#[trigger] c[k]).is_free implies c[k].size < size by {
        assert(holds_with(c, c[k].address, true));
        assert(s.free().contains(c[k].address));
        let f = choose|f: int| 0 <= f < s.free().len() && s.free()[f] == c[k].address;
        assert(!fits(c, s.free(), size, f));
        lemma_index_of_address(c, k);
    }
}

/// The first fit names a free block with room, and every entry of the free
/// list before it names a block without.
pub proof fn lemma_first_fit_takes_first_room(s: Memalloc, size: int, f: int)
    requires
        s.wf(),
        first_fit_at(s.blocks(), s.free(), size, f),
    ensures
        block_at(s.blocks(), s.free()[f]).is_free,
        block_at(s.blocks(), s.free()[f]).size >= size,
        forall|g: int| 0 <= g < f ==> (#[trigger] block_at(s.blocks(), s.free()[g])).size < size,
{
    let c = s.blocks();
    let a = s.free()[f];
    assert(s.free().contains(a));
    assert(holds_with(c, a, true));
    let w = choose|w: int| 0 <= w < c.len() && c[w].address == a && c[w].is_free;
    lemma_index_of_address(c, w);
    assert forall|g: int| 0 <= g < f implies (#[trigger] block_at(c, s.free()[g])).size < size by {
        assert(!fits(c, s.free(), size, g));
    }
}

/// A run cannot grow past its ends.
pub proof fn lemma_run_bounds(c: Seq<BlockHeader>, i: int)
    requires
        0 <= i < c.len(),
    ensures
        run_start(c, i) == 0 || !joins_left(c, run_start(c, i) - 1),
        run_end(c, i) + 1 == c.len() || !joins_right(c, run_end(c, i) + 1),
{
    lemma_run_start_bound(c, i);
    lemma_run_end_bound(c, i);
}

proof fn lemma_run_start_bound(c: Seq<BlockHeader>, i: int)
    requires
        0 <= i < c.len(),
    ensures
        run_start(c, i) == 0 || !joins_left(c, run_start(c, i) - 1),
    decreases i,
{
    if i > 0 && joins_left(c, i - 1) {
        lemma_run_start_bound(c, i - 1);
    }
}

proof fn lemma_run_end_bound(c: Seq<BlockHeader>, i: int)
    requires
        0 <= i < c.len(),
    ensures
        run_end(c, i) + 1 == c.len() || !joins_right(c, run_end(c, i) + 1),
    decreases c.len() - i,
{
    if i + 1 < c.len() && joins_right(c, i + 1) {
        lemma_run_end_bound(c, i + 1);
    }
}

/// Freeing a block in use leaves it out of the list in use and puts at the
/// head of the free list a free block that covers all its bytes and that no
/// other free block touches on either side.
pub proof fn lemma_freed_block_settles(s0: Memalloc, s1: Memalloc, header: usize)
    requires
        s0.wf(),
        s1.wf(),
        s0.used().contains(header),
        s0.freed_into(s1, header),
    ensures
        s1.free().len() > 0,
        !s1.used().contains(header),
        ({
            let m = block_at(s1.blocks(), s1.free()[0]);
            &&& m.is_free
            &&& m.address <= header
            &&& header + block_at(s0.blocks(), header).size + HEADER_SIZE <= m.end()
            &&& forall|k: int|
                0 <= k < s1.blocks().len() && (#[trigger] s1.blocks()[k]).is_free && s1.blocks()[k] != m
                    ==> !s1.blocks()[k].adjacent_to(m) && !m.adjacent_to(s1.blocks()[k])
        }),
{
    let c = s0.blocks();
    assert(holds_with(c, header, false));
    let i = choose|i: int| 0 <= i < c.len() && c[i].address == header && c[i].is_free == false;
    lemma_index_of_address(c, i);
    lemma_run_facts(c, i);
    lemma_run_bounds(c, i);
    let lo = run_start(c, i);
    let hi = run_end(c, i);
    let n = s1.blocks();
    let d = hi - lo;
    assert(n[lo] == merged_block(c, lo, hi));
    assert(s1.free()[0] == c[lo].address);
    lemma_index_of_address(n, lo);
    let m = n[lo];
    lemma_filter_contains_iff(s0.used(), other_than(header), header);
    assert(c[hi].in_range());
    if lo < i {
        assert(c[lo].end() <= c[i].address);
    }
    if i < hi {
        assert(c[i].end() <= c[hi].address);
    }
    assert forall|k: int|
        0 <= k < n.len() && (#[trigger] n[k]).is_free && n[k] != m implies !n[k].adjacent_to(m)
        && !m.adjacent_to(n[k]) by {
        assert(k != lo);
        if k < lo {
            assert(n[k] == c[k]);
            if k < lo - 1 {
                assert(n[lo - 1] == c[lo - 1]);
                assert(c[k].end() <= c[lo - 1].address);
            } else {
                assert(!joins_left(c, lo - 1));
            }
            assert(c[k].end() <= c[lo].address);
        } else {
            assert(n[k] == c[k + d]);
            if k > lo + 1 {
                assert(n[lo + 1] == c[hi + 1]);
                assert(c[hi + 1].end() <= c[k + d].address);
            } else {
                assert(!joins_right(c, hi + 1));
            }
            assert(c[hi].end() <= c[k + d].address);
        }
    }
}

} // verus!
