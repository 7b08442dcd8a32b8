use coremark::allocator::{
    full_size, multiple_below, round_up, BoundedGrower, FreeListAllocator, PageCount,
    ERROR_PAGE_COUNT, NODE_SIZE, PAGE_SIZE,
};
use coremark::allocator::MemoryGrower;
use coremark::SyncAllocator;

fn fresh(max_pages: usize) -> FreeListAllocator<BoundedGrower> {
    FreeListAllocator::new(BoundedGrower::new(0, max_pages))
}

#[test]
fn test_page_count_size_in_bytes() {
    assert_eq!(PageCount(0).size_in_bytes(), 0);
    assert_eq!(PageCount(3).size_in_bytes(), 3 * PAGE_SIZE);
}

#[test]
fn test_rounding_helpers() {
    assert_eq!(multiple_below(13, 8), 8);
    assert_eq!(multiple_below(16, 8), 16);
    assert_eq!(round_up(5, 8), 8);
    assert_eq!(round_up(16, 8), 16);
    assert_eq!(full_size(0), NODE_SIZE);
    assert_eq!(full_size(100), 104);
    assert_eq!(full_size(104), 104);
}

#[test]
fn test_alignment() {
    // every returned pointer is a multiple of the requested alignment
    let mut a = fresh(16);
    for &align in &[1usize, 2, 4, 8, 16, 64, 1024, 4096] {
        let p = a.allocate(50, align).expect("allocation should succeed");
        assert_eq!(p % align, 0);
    }
}

#[test]
fn test_reuse_without_growth() {
    // allocate, free, allocate again: the freed block is reused and the page
    // source is not consulted a second time
    let mut a = fresh(16);
    let p1 = a.allocate(300, 8).expect("first allocation");
    assert_eq!(a.grower().grow_calls, 1);
    a.deallocate(p1, 300, 8);
    let p2 = a.allocate(300, 8).expect("second allocation");
    assert_eq!(a.grower().grow_calls, 1);
    assert_eq!(p1, p2);
}

#[test]
fn test_growth_correctness() {
    // a first allocation triggers exactly one page-source call for one page,
    // and the pointer lies in the granted range
    let mut a = fresh(16);
    let p = a.allocate(100, 8).expect("allocation");
    assert_eq!(a.grower().grow_calls, 1);
    assert_eq!(a.grower().pages, 1);
    assert!(p + 100 <= PAGE_SIZE);
}

#[test]
fn test_full_coalescence_scenario() {
    // one page granted, two allocations freed in reverse order: the ledger
    // ends as a single descriptor spanning the whole original free region
    let mut a = fresh(16);
    let p1 = a.allocate(100, 8).expect("first allocation");
    assert_eq!(a.grower().pages, 1);
    let p2 = a.allocate(200, 16).expect("second allocation");
    assert_eq!(a.grower().pages, 1, "no growth for the second allocation");

    a.deallocate(p2, 200, 16);
    a.deallocate(p1, 100, 8);

    let blocks = a.free_blocks();
    assert_eq!(blocks.len(), 1);
    assert_eq!(blocks[0].start, 0);
    assert_eq!(blocks[0].size, PAGE_SIZE);
}

#[test]
fn test_oversized_request_grows_two_pages() {
    // one page cannot hold PAGE_SIZE + 1 bytes, so exactly two pages are
    // requested, and the allocation succeeds
    let mut a = fresh(16);
    let p = a.allocate(PAGE_SIZE + 1, 8).expect("allocation");
    assert_eq!(a.grower().grow_calls, 1);
    assert_eq!(a.grower().pages, 2);
    assert!(p + PAGE_SIZE + 1 <= 2 * PAGE_SIZE);
}

#[test]
fn test_allocation_failure_at_ceiling() {
    // the host refuses to grow past the ceiling: the allocator reports
    // failure instead of panicking, and can still serve smaller requests
    let mut a = fresh(1);
    assert_eq!(a.allocate(PAGE_SIZE + 1, 8), None);
    assert_eq!(a.grower().grow_calls, 1);
    let p = a.allocate(100, 8).expect("small allocation still fits");
    assert_eq!(p % 8, 0);
}

#[test]
fn test_ledger_order_and_disjointness() {
    // free in an interleaved order and check the ledger stays strictly
    // ascending with gaps between blocks
    let mut a = fresh(16);
    let mut ptrs = Vec::new();
    for _ in 0..6 {
        ptrs.push(a.allocate(64, 8).expect("allocation"));
    }
    for &i in &[0usize, 2, 4] {
        a.deallocate(ptrs[i], 64, 8);
    }
    let blocks = a.free_blocks();
    for w in blocks.windows(2) {
        assert!(w[0].start + w[0].size < w[1].start);
    }
    // freeing the rest coalesces everything back into one block
    for &i in &[1usize, 3, 5] {
        a.deallocate(ptrs[i], 64, 8);
    }
    let blocks = a.free_blocks();
    assert_eq!(blocks.len(), 1);
    assert_eq!(blocks[0].size, PAGE_SIZE);
}

#[test]
fn test_no_overlap_live_allocations() {
    let mut a = fresh(16);
    let mut ranges = Vec::new();
    for &(size, align) in &[(100usize, 8usize), (32, 16), (500, 4), (8, 8), (4096, 64)] {
        let p = a.allocate(size, align).expect("allocation");
        ranges.push((p, p + full_size(size)));
    }
    for (i, &(s1, e1)) in ranges.iter().enumerate() {
        for &(s2, e2) in ranges.iter().skip(i + 1) {
            assert!(e1 <= s2 || e2 <= s1, "live allocations overlap");
        }
    }
}

#[test]
fn test_conservation() {
    // free bytes plus live effective bytes always equal the bytes granted
    let mut a = fresh(16);
    let mut live = Vec::new();
    for &(size, align) in &[(100usize, 8usize), (2000, 16), (77, 4)] {
        let p = a.allocate(size, align).expect("allocation");
        live.push((p, size, align));
    }
    let (p0, s0, a0) = live.remove(1);
    a.deallocate(p0, s0, a0);

    let free: usize = a.free_blocks().iter().map(|b| b.size).sum();
    let live_bytes: usize = live.iter().map(|&(_, s, _)| full_size(s)).sum();
    assert_eq!(free + live_bytes, a.grower().pages * PAGE_SIZE);
}

#[test]
fn test_sync_allocator_facade() {
    let mut a = SyncAllocator(fresh(16));
    let p = a.allocate(100, 8).expect("allocation");
    assert_eq!(p % 8, 0);
    a.deallocate(p, 100, 8);
    let q = a.allocate(100, 8).expect("reuse");
    assert_eq!(p, q);
}

#[test]
fn test_bounded_grower_sentinel() {
    let mut g = BoundedGrower::new(0, 1);
    let first = g.memory_grow(PageCount(1));
    assert_eq!(first, PageCount(0));
    let refused = g.memory_grow(PageCount(1));
    assert_eq!(refused.0, ERROR_PAGE_COUNT);
    assert_eq!(g.pages, 1);
}

#[test]
fn test_zero_size_allocation() {
    // a zero-byte request still reserves one whole descriptor
    let mut a = fresh(16);
    let p = a.allocate(0, 1).expect("allocation");
    a.deallocate(p, 0, 1);
    let q = a.allocate(0, 1).expect("reuse");
    assert_eq!(p, q);
    assert_eq!(a.grower().grow_calls, 1);
}

#[test]
fn test_page_aligned_allocation() {
    let mut a = fresh(16);
    let p = a.allocate(100, PAGE_SIZE).expect("allocation");
    assert_eq!(p % PAGE_SIZE, 0);
}
