use vstd::prelude::*;
use crate::mem_manager::block_header::BlockHeader;
use crate::mem_manager::memorize::{fits, first_fit_at};
use crate::mem_manager::list_wf;

verus! {

/// A block that `forget` marked free is handed out again by the next
/// `memorize` of at most its size, unless a free block nearer the head of the
/// list has room enough: `memorize` then answers with the same pointer.
pub proof fn lemma_freed_block_is_reused(s0: Seq<BlockHeader>, k: int, n: int)
    requires
        list_wf(s0),
        0 <= k < s0.len(),
        n <= s0[k].size,
        forall|j: int| 0 <= j < k ==> !fits(s0, n, j),
    ensures
        first_fit_at(s0.update(k, BlockHeader { is_free: true, ..s0[k] }), n, k),
{
    let s1 = s0.update(k, BlockHeader { is_free: true, ..s0[k] });
    assert forall|j: int| 0 <= j < k implies !fits(s1, n, j) by {
        assert(s1[j] == s0[j]);
        assert(!fits(s0, n, j));
    }
}

/// The block that `finish_memorize` just recorded is the tail of the list,
/// with the size it was recorded with: freeing it at once gives all its bytes
/// back to the system.
pub proof fn lemma_mapped_block_is_tail(s0: Seq<BlockHeader>, s1: Seq<BlockHeader>, a: usize, size: usize)
    requires
        s0.len() == 0 ==> s1 == seq![BlockHeader { address: a, size, is_free: false, next: None }],
        s0.len() > 0 ==> s1 == s0.update(s0.len() - 1, BlockHeader { next: Some(a), ..s0.last() }).push(
            BlockHeader { address: a, size, is_free: false, next: None },
        ),
    ensures
        s1.len() > 0,
        s1.last().address == a,
        s1.last().size == size,
{
}

/// No two blocks of the list share a byte, so memory handed out never
/// overlaps any other block.
pub proof fn lemma_blocks_disjoint(s: Seq<BlockHeader>, i: int, j: int)
    requires
        list_wf(s),
        0 <= i < s.len(),
        0 <= j < s.len(),
        i != j,
    ensures
        s[i].disjoint_from(s[j]),
{
}

/// Mapping a block and freeing it at once gives the list back as it was: the
/// block that `finish_memorize` appended is the one `forget` drops, and the
/// block before it names no next block again.
pub proof fn lemma_map_then_forget_restores(s0: Seq<BlockHeader>, a: usize, size: usize)
    requires
        list_wf(s0),
    ensures
        ({
            let b = BlockHeader { address: a, size, is_free: false, next: None };
            let s1 = if s0.len() == 0 {
                seq![b]
            } else {
                s0.update(s0.len() - 1, BlockHeader { next: Some(a), ..s0.last() }).push(b)
            };
            let s2 = if s1.len() == 1 {
                Seq::<BlockHeader>::empty()
            } else {
                s1.drop_last().update(s1.len() - 2, BlockHeader { next: None, ..s1[s1.len() - 2] })
            };
            &&& s1.last().address == a
            &&& s1.last().size == size
            &&& s2 == s0
        }),
{
    let b = BlockHeader { address: a, size, is_free: false, next: None };
    if s0.len() == 0 {
        assert(seq![b].len() == 1);
    } else {
        let s1 = s0.update(s0.len() - 1, BlockHeader { next: Some(a), ..s0.last() }).push(b);
        let s2 = s1.drop_last().update(s1.len() - 2, BlockHeader { next: None, ..s1[s1.len() - 2] });
        assert(s2 =~= s0);
    }
}

} // verus!
