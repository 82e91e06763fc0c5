use memalloc::mem_manager::MemManager;
use memalloc::mem_manager::block_header::HEADER_SIZE;
use memalloc::steps::{ForgetStep, MemorizeStep};

/// Asks for `size` bytes and, when a mapping is needed, hands over `mapped`.
fn obtain(m: &mut MemManager, size: usize, mapped: usize) -> usize {
    match m.memorize(size) {
        MemorizeStep::Null => 0,
        MemorizeStep::Ready(p) => p,
        MemorizeStep::Mmap(len) => {
            assert_eq!(len, HEADER_SIZE + size);
            assert!(m.region_is_unclaimed(mapped, size));
            m.finish_memorize(size, Some(mapped))
        }
    }
}

#[test]
fn header_is_three_words() {
    assert_eq!(HEADER_SIZE, 3 * std::mem::size_of::<usize>());
}

#[test]
fn program_scenario_reuses_freed_block() {
    let mut m = MemManager::new();
    let mem1 = obtain(&mut m, 30, 0x10000);
    assert_eq!(mem1, 0x10000 + 24);
    let mem2 = obtain(&mut m, 10, 0x20000);
    assert_eq!(mem2, 0x20000 + 24);
    assert_eq!(m.forget(mem1), ForgetStep::Done);
    // the freed block of 30 bytes has room for 10: it is handed out again
    let mem3 = obtain(&mut m, 10, 0x30000);
    assert_eq!(mem3, mem1);
}

#[test]
fn zero_bytes_give_null() {
    let mut m = MemManager::new();
    assert_eq!(m.memorize(0), MemorizeStep::Null);
}

#[test]
fn request_asks_for_header_and_bytes() {
    let mut m = MemManager::new();
    assert_eq!(m.memorize(1), MemorizeStep::Mmap(25));
    assert_eq!(m.memorize(100), MemorizeStep::Mmap(124));
}

#[test]
fn refused_mapping_gives_null() {
    let mut m = MemManager::new();
    assert_eq!(m.memorize(16), MemorizeStep::Mmap(40));
    assert_eq!(m.finish_memorize(16, None), 0);
    // nothing was recorded: the next request maps again
    assert_eq!(m.memorize(16), MemorizeStep::Mmap(40));
}

#[test]
fn forget_null_or_unknown_does_nothing() {
    let mut m = MemManager::new();
    let p = obtain(&mut m, 8, 0x10000);
    let q = obtain(&mut m, 8, 0x20000);
    assert_eq!(m.forget(0), ForgetStep::Done);
    assert_eq!(m.forget(5), ForgetStep::Done);
    assert_eq!(m.forget(0x50000), ForgetStep::Done);
    // p is still in use: a request maps anew
    assert_eq!(m.memorize(8), MemorizeStep::Mmap(32));
    assert_eq!(m.forget(q), ForgetStep::Unmap { address: 0x20000, length: 32 });
    assert_eq!(m.forget(p), ForgetStep::Unmap { address: 0x10000, length: 32 });
}

#[test]
fn forgetting_the_tail_unmaps_it() {
    let mut m = MemManager::new();
    let p = obtain(&mut m, 100, 0x10000);
    assert_eq!(m.forget(p), ForgetStep::Unmap { address: 0x10000, length: 124 });
    // the list is empty again
    assert_eq!(m.memorize(100), MemorizeStep::Mmap(124));
}

#[test]
fn block_before_tail_becomes_tail() {
    let mut m = MemManager::new();
    let p1 = obtain(&mut m, 10, 0x10000);
    let p2 = obtain(&mut m, 20, 0x20000);
    let p3 = obtain(&mut m, 30, 0x30000);
    assert_eq!(m.forget(p3), ForgetStep::Unmap { address: 0x30000, length: 54 });
    assert_eq!(m.forget(p2), ForgetStep::Unmap { address: 0x20000, length: 44 });
    assert_eq!(m.forget(p1), ForgetStep::Unmap { address: 0x10000, length: 34 });
}

#[test]
fn freed_block_that_is_not_the_tail_stays_mapped() {
    let mut m = MemManager::new();
    let p1 = obtain(&mut m, 10, 0x10000);
    let _p2 = obtain(&mut m, 20, 0x20000);
    assert_eq!(m.forget(p1), ForgetStep::Done);
    // a request too large for the freed block maps anew
    assert_eq!(m.memorize(11), MemorizeStep::Mmap(35));
    // a request that fits takes it
    assert_eq!(m.memorize(10), MemorizeStep::Ready(p1));
}

#[test]
fn first_free_block_with_room_wins() {
    let mut m = MemManager::new();
    let p1 = obtain(&mut m, 8, 0x10000);
    let p2 = obtain(&mut m, 64, 0x20000);
    let p3 = obtain(&mut m, 32, 0x30000);
    let _p4 = obtain(&mut m, 8, 0x40000);
    assert_eq!(m.forget(p1), ForgetStep::Done);
    assert_eq!(m.forget(p2), ForgetStep::Done);
    assert_eq!(m.forget(p3), ForgetStep::Done);
    // p1 is too small, p2 is the first with room
    assert_eq!(m.memorize(16), MemorizeStep::Ready(p2));
    assert_eq!(m.memorize(16), MemorizeStep::Ready(p3));
    assert_eq!(m.memorize(8), MemorizeStep::Ready(p1));
    assert_eq!(m.memorize(8), MemorizeStep::Mmap(32));
}

#[test]
fn freeing_twice_is_harmless() {
    let mut m = MemManager::new();
    let p1 = obtain(&mut m, 8, 0x10000);
    let _p2 = obtain(&mut m, 8, 0x20000);
    assert_eq!(m.forget(p1), ForgetStep::Done);
    assert_eq!(m.forget(p1), ForgetStep::Done);
    assert_eq!(m.memorize(8), MemorizeStep::Ready(p1));
    assert_eq!(m.memorize(8), MemorizeStep::Mmap(32));
}

#[test]
fn unclaimed_regions() {
    let mut m = MemManager::new();
    let _p = obtain(&mut m, 8, 0x10000);
    // the block spans 0x10000..0x10020
    assert!(!m.region_is_unclaimed(0x10000, 8));
    assert!(!m.region_is_unclaimed(0x1001f, 1));
    assert!(!m.region_is_unclaimed(0xfff0, 8));
    assert!(m.region_is_unclaimed(0x10020, 8));
    assert!(m.region_is_unclaimed(0xffe8, 0));
    assert!(!m.region_is_unclaimed(usize::MAX - 10, 8));
}
