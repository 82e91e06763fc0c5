# memalloc

Bookkeeping for a `malloc`-like allocator that takes its memory from the
system with `mmap`, verified with Verus.

- `src/mem_manager/`: the simple allocator. One list of blocks in mapping
  order; a freed block is marked free and reused, first fit, by later
  requests; the block mapped last goes back to the system when it is freed.
- `src/memalloc/`: the allocator with a free list. Blocks are kept by address
  with a list of blocks in use, its tail, and a free list; a reused free block
  is split when its rest can stand as a block of its own, and a freed block is
  merged with the touching free blocks around it.

  The neighbours of each block and its free flag and size could be kept in two
  maps keyed by address, each block's entry naming its left and right
  neighbour, with a new block linked to the right of the last mapped one.
  The library keeps one `Vec` of block records instead, ordered by address,
  and changes that order on purpose: merging joins a freed block with the
  free blocks that touch it, and in address order the blocks that can touch
  a block are exactly the records beside it, so every pair of adjacent free
  blocks is a candidate, as merging is meant to do. The invariant (no
  overlap, increasing addresses, every block in exactly one of the two lists)
  is then stated over one sequence, instead of over the entries of two maps
  that must agree with each other and with a linking order.

- `src/steps.rs`: what a request comes to (`MemorizeStep`, `ForgetStep`,
  `RememorizeStep`): the library decides, the caller performs the system call
  it names and hands the outcome back.
- `src/list_facts.rs`: facts about filtered sequences used by the proofs.
- `app/`: the program, with the locks and the `mmap`, `munmap` and `memcpy`
  calls around the verified bookkeeping.

Each module states its invariant (`wf`), which includes that every block
starts at a multiple of 8 (memory mapped by the system is page aligned, and
splitting cuts at multiples of 8), so every pointer handed out is a header's
length past a multiple of 8, and keeps it in every operation; the laws
it promises (bytes are neither lost nor created by splitting and merging,
freed memory is reused first, blocks never overlap, memory in use stays in
use and apart until it is freed, only the tail of the list in use goes back
to the system, mapping and freeing at once restores the state) are proof
functions in `laws.rs` or clauses of the operations. The header is three
machine words (24 bytes on a 64-bit target, 12 on a 32-bit one).
