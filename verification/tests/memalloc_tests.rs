use memalloc::memalloc::Memalloc;
use memalloc::memalloc::block_header::{HEADER_SIZE, align_up_8};
use memalloc::steps::{ForgetStep, MemorizeStep, RememorizeStep};

/// Asks for `size` bytes and, when a mapping is needed, hands over `mapped`.
fn obtain(m: &mut Memalloc, size: usize, mapped: usize) -> usize {
    match m.memorize(size) {
        MemorizeStep::Null => 0,
        MemorizeStep::Ready(p) => p,
        MemorizeStep::Mmap(len) => {
            assert_eq!(len, align_up_8(HEADER_SIZE + size));
            assert!(m.region_is_unclaimed(mapped, size));
            m.finish_memorize(size, Some(mapped))
        }
    }
}

#[test]
fn rounding_to_eight() {
    assert_eq!(align_up_8(0), 0);
    assert_eq!(align_up_8(1), 8);
    assert_eq!(align_up_8(8), 8);
    assert_eq!(align_up_8(25), 32);
    assert_eq!(align_up_8(usize::MAX - 7), usize::MAX - 7);
}

#[test]
fn mapping_length_is_rounded() {
    let mut m = Memalloc::new();
    assert_eq!(m.memorize(0), MemorizeStep::Null);
    assert_eq!(m.memorize(1), MemorizeStep::Mmap(32));
    assert_eq!(m.memorize(8), MemorizeStep::Mmap(32));
    assert_eq!(m.memorize(9), MemorizeStep::Mmap(40));
    assert_eq!(m.memorize(100), MemorizeStep::Mmap(128));
}

#[test]
fn memalloc_refused_mapping_gives_null() {
    let mut m = Memalloc::new();
    assert_eq!(m.memorize(16), MemorizeStep::Mmap(40));
    assert_eq!(m.finish_memorize(16, None), 0);
    assert!(!m.knows_block(0));
    assert_eq!(m.memorize(16), MemorizeStep::Mmap(40));
}

#[test]
fn forgetting_the_last_mapped_block_unmaps_it() {
    let mut m = Memalloc::new();
    let p1 = obtain(&mut m, 30, 0x10000);
    let p2 = obtain(&mut m, 10, 0x20000);
    assert_eq!(p1, 0x10000 + 24);
    assert_eq!(p2, 0x20000 + 24);
    assert_eq!(m.forget(p2), ForgetStep::Unmap { address: 0x20000, length: 34 });
    assert!(!m.knows_block(0x20000));
    assert_eq!(m.forget(p1), ForgetStep::Unmap { address: 0x10000, length: 54 });
    assert!(!m.knows_block(0x10000));
}

#[test]
fn memalloc_forget_null_or_unknown_does_nothing() {
    let mut m = Memalloc::new();
    let p1 = obtain(&mut m, 30, 0x10000);
    assert_eq!(m.forget(0), ForgetStep::Done);
    assert_eq!(m.forget(3), ForgetStep::Done);
    assert_eq!(m.forget(0x90000), ForgetStep::Done);
    assert!(m.knows_block(0x10000));
    assert_eq!(m.forget(p1), ForgetStep::Unmap { address: 0x10000, length: 54 });
}

#[test]
fn freed_block_is_split_then_merged_back() {
    let mut m = Memalloc::new();
    let a = obtain(&mut m, 200, 0x10000);
    let _b = obtain(&mut m, 8, 0x20000);
    assert_eq!(m.forget(a), ForgetStep::Done);
    // 16 bytes take 40 of the 224 the block spans; the rest, 160 usable
    // bytes at 0x10028, stays free
    let small = obtain(&mut m, 16, 0x30000);
    assert_eq!(small, 0x10018);
    assert!(m.knows_block(0x10028));
    assert_eq!(m.rememorize(small, 16), RememorizeStep::Keep(small));
    assert_eq!(m.rememorize(small, 17), RememorizeStep::Move { copy_len: 16 });
    let rest = obtain(&mut m, 160, 0x30000);
    assert_eq!(rest, 0x10040);
    // nothing free is left
    assert_eq!(m.memorize(1), MemorizeStep::Mmap(32));
    // freeing both pieces merges them back into one block of 200 bytes
    assert_eq!(m.forget(small), ForgetStep::Done);
    assert_eq!(m.forget(rest), ForgetStep::Done);
    assert!(!m.knows_block(0x10028));
    assert_eq!(m.rememorize(a, 200), RememorizeStep::Keep(a));
    assert_eq!(obtain(&mut m, 200, 0x30000), a);
}

#[test]
fn remainder_too_small_is_not_split_off() {
    let mut m = Memalloc::new();
    let a = obtain(&mut m, 40, 0x10000);
    let _b = obtain(&mut m, 8, 0x20000);
    assert_eq!(m.forget(a), ForgetStep::Done);
    // 16 bytes take 40 of the 64 the block spans: the 24 left cannot hold a
    // header and a byte, so the whole block is handed out
    assert_eq!(obtain(&mut m, 16, 0x30000), a);
    assert!(!m.knows_block(0x10028));
    assert_eq!(m.rememorize(a, 40), RememorizeStep::Keep(a));
    assert_eq!(m.memorize(1), MemorizeStep::Mmap(32));
}

#[test]
fn merging_reaches_both_sides() {
    let mut m = Memalloc::new();
    let big = obtain(&mut m, 296, 0x10000); // spans 320 bytes
    let _tail = obtain(&mut m, 8, 0x20000);
    assert_eq!(m.forget(big), ForgetStep::Done);
    // three pieces of 40 bytes each, then the rest of 200 bytes
    let x = obtain(&mut m, 16, 0x30000);
    let y = obtain(&mut m, 16, 0x30000);
    let z = obtain(&mut m, 16, 0x30000);
    assert_eq!(x, 0x10018);
    assert_eq!(y, 0x10040);
    assert_eq!(z, 0x10068);
    let w = obtain(&mut m, 176, 0x30000);
    assert_eq!(w, 0x10090);
    assert_eq!(m.forget(x), ForgetStep::Done);
    assert_eq!(m.forget(z), ForgetStep::Done);
    // y touches free blocks on both sides: the three become one
    assert_eq!(m.forget(y), ForgetStep::Done);
    assert!(m.knows_block(0x10000));
    assert!(!m.knows_block(0x10028));
    assert!(!m.knows_block(0x10050));
    assert_eq!(m.rememorize(x, 96), RememorizeStep::Keep(x));
    assert_eq!(m.rememorize(x, 97), RememorizeStep::Move { copy_len: 96 });
    // the merged block heads the free list and is reused first
    assert_eq!(obtain(&mut m, 96, 0x30000), x);
}

#[test]
fn memalloc_first_free_block_with_room_wins() {
    let mut m = Memalloc::new();
    let a = obtain(&mut m, 8, 0x10000);
    let b = obtain(&mut m, 64, 0x20000);
    let _c = obtain(&mut m, 8, 0x30000);
    assert_eq!(m.forget(a), ForgetStep::Done);
    assert_eq!(m.forget(b), ForgetStep::Done);
    // the free list holds b then a (the last freed heads it)
    assert_eq!(obtain(&mut m, 8, 0x40000), b);
    assert!(m.knows_block(0x20020));
    assert_eq!(obtain(&mut m, 8, 0x40000), 0x20020 + 24);
    assert_eq!(obtain(&mut m, 8, 0x40000), a);
}

#[test]
fn rememorize_edges() {
    let mut m = Memalloc::new();
    let p = obtain(&mut m, 30, 0x10000);
    assert_eq!(m.rememorize(0, 10), RememorizeStep::Null);
    assert_eq!(m.rememorize(p, 0), RememorizeStep::Null);
    assert_eq!(m.rememorize(p, 30), RememorizeStep::Keep(p));
    assert_eq!(m.rememorize(p, 31), RememorizeStep::Move { copy_len: 30 });
}

#[test]
fn merge_block_returns_merged_address() {
    let mut m = Memalloc::new();
    m.link_added_block(0x10000, 16);
    m.link_added_block(0x10028, 16);
    // the left neighbour is in use: nothing to merge
    assert_eq!(m.merge_block(0x10028), 0x10028);
    assert!(m.knows_block(0x10028));
    // the right neighbour is free and touches: the two become one
    assert_eq!(m.merge_block(0x10000), 0x10000);
    assert!(!m.knows_block(0x10028));
    assert!(m.knows_block(0x10000));
}

#[test]
fn block_reused_into_empty_list_is_not_given_back() {
    let mut m = Memalloc::new();
    let a = obtain(&mut m, 200, 0x10000);
    let b = obtain(&mut m, 8, 0x20000);
    assert_eq!(m.forget(a), ForgetStep::Done);
    assert_eq!(m.forget(b), ForgetStep::Unmap { address: 0x20000, length: 32 });
    // nothing is in use and no tail is left; the reused block does not
    // become the tail
    let p = obtain(&mut m, 16, 0x30000);
    assert_eq!(p, a);
    assert_eq!(m.forget(p), ForgetStep::Done);
    assert_eq!(obtain(&mut m, 200, 0x30000), a);
}

#[test]
fn tail_moves_back_when_given_back() {
    let mut m = Memalloc::new();
    let a = obtain(&mut m, 8, 0x10000);
    let b = obtain(&mut m, 8, 0x20000);
    let c = obtain(&mut m, 8, 0x30000);
    assert_eq!(m.forget(c), ForgetStep::Unmap { address: 0x30000, length: 32 });
    assert_eq!(m.forget(b), ForgetStep::Unmap { address: 0x20000, length: 32 });
    assert_eq!(m.forget(a), ForgetStep::Unmap { address: 0x10000, length: 32 });
}

#[test]
fn finish_rememorize_keeps_old_block_without_new_one() {
    let mut m = Memalloc::new();
    let a = obtain(&mut m, 8, 0x10000);
    let _b = obtain(&mut m, 8, 0x20000);
    assert_eq!(m.rememorize(a, 64), RememorizeStep::Move { copy_len: 8 });
    // no new block: the old one stays in use
    assert_eq!(m.finish_rememorize(a, 0), ForgetStep::Done);
    assert_eq!(m.memorize(8), MemorizeStep::Mmap(32));
    // a new block: the old one is freed and can be reused
    assert_eq!(m.finish_rememorize(a, 0x30018), ForgetStep::Done);
    assert_eq!(m.memorize(8), MemorizeStep::Ready(a));
}

#[test]
fn linker_adds_and_removes_blocks() {
    let mut m = Memalloc::new();
    m.link_added_block(0x20000, 8);
    m.link_added_block(0x10000, 8);
    assert!(m.knows_block(0x10000));
    assert!(m.knows_block(0x20000));
    m.link_removed_block(0x20000);
    assert!(!m.knows_block(0x20000));
    assert!(m.knows_block(0x10000));
}

#[test]
fn handed_out_pointers_stay_aligned() {
    let mut m = Memalloc::new();
    let big = obtain(&mut m, 1000, 0x10000);
    let _tail = obtain(&mut m, 8, 0x20000);
    assert_eq!(m.forget(big), ForgetStep::Done);
    let mut sizes_and_pointers = Vec::new();
    for size in [1usize, 3, 17, 5, 40, 9] {
        let p = obtain(&mut m, size, 0x30000);
        assert_eq!(p % 8, HEADER_SIZE % 8);
        assert!(p >= big && p < 0x10000 + 1024);
        sizes_and_pointers.push((size, p));
    }
    // each piece has room for its request and the pieces do not overlap
    for i in 0..sizes_and_pointers.len() {
        let (size, p) = sizes_and_pointers[i];
        assert!(matches!(m.rememorize(p, size), RememorizeStep::Keep(_)));
        for j in 0..sizes_and_pointers.len() {
            if i != j {
                let q = sizes_and_pointers[j].1;
                assert!(p + size <= q - HEADER_SIZE || q + sizes_and_pointers[j].0 <= p - HEADER_SIZE);
            }
        }
    }
}

#[test]
fn freed_memory_is_neither_lost_nor_created() {
    let mut m = Memalloc::new();
    let big = obtain(&mut m, 1000, 0x10000); // spans 1024 bytes
    let _tail = obtain(&mut m, 8, 0x20000);
    assert_eq!(m.forget(big), ForgetStep::Done);
    let mut pointers = Vec::new();
    for size in [1usize, 3, 17, 5, 40, 9] {
        pointers.push(obtain(&mut m, size, 0x30000));
    }
    for p in pointers.iter().rev() {
        assert_eq!(m.forget(*p), ForgetStep::Done);
    }
    // everything merged back: one block of 1000 usable bytes again
    assert!(m.knows_block(0x10000));
    assert_eq!(m.rememorize(big, 1000), RememorizeStep::Keep(big));
    assert_eq!(m.rememorize(big, 1001), RememorizeStep::Move { copy_len: 1000 });
}
