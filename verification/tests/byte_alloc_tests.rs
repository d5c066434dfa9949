use kmem::AllocError;
use kmem::LabByteAllocator;

const START: usize = 0x10000;
const HDR: usize = 16;

fn fresh(size: usize) -> LabByteAllocator {
    let mut a = LabByteAllocator::new();
    a.init(START, size);
    a
}

#[test]
fn init_accounts_whole_region() {
    let a = fresh(4096);
    assert_eq!(a.total_bytes(), 4096);
    assert_eq!(a.used_bytes(), 0);
    assert_eq!(a.available_bytes(), 4096);
}

#[test]
fn alloc_returns_payload_after_header() {
    let mut a = fresh(4096);
    let p = a.allocate(100, 8).unwrap();
    assert_eq!(p, START + HDR);
    assert_eq!(a.used_bytes(), 100);
}

#[test]
fn alloc_reuses_freed_block_first_fit() {
    // Region of 4096 bytes: two allocations get distinct addresses, and
    // after freeing the first, the third request is served from the freed
    // block at the head of the list.
    let mut a = fresh(4096);
    let p1 = a.allocate(100, 8).unwrap();
    let p2 = a.allocate(100, 8).unwrap();
    assert_ne!(p1, p2);
    a.deallocate(p1, 100, 8);
    let p3 = a.allocate(100, 8).unwrap();
    assert_eq!(p3, p1);
}

#[test]
fn conservation_after_each_call() {
    let mut a = fresh(4096);
    assert_eq!(a.used_bytes() + a.available_bytes(), a.total_bytes());
    let p1 = a.allocate(100, 8).unwrap();
    assert_eq!(a.used_bytes() + a.available_bytes(), a.total_bytes());
    let p2 = a.allocate(300, 16).unwrap();
    assert_eq!(a.used_bytes() + a.available_bytes(), a.total_bytes());
    a.deallocate(p1, 100, 8);
    assert_eq!(a.used_bytes() + a.available_bytes(), a.total_bytes());
    a.deallocate(p2, 300, 16);
    assert_eq!(a.used_bytes() + a.available_bytes(), a.total_bytes());
    assert_eq!(a.used_bytes(), 0);
}

#[test]
fn live_allocations_do_not_overlap() {
    let mut a = fresh(4096);
    let p1 = a.allocate(100, 8).unwrap();
    let p2 = a.allocate(200, 8).unwrap();
    let p3 = a.allocate(50, 8).unwrap();
    let ranges = [(p1, 100), (p2, 200), (p3, 50)];
    for (i, &(s1, n1)) in ranges.iter().enumerate() {
        for &(s2, n2) in ranges.iter().skip(i + 1) {
            assert!(s1 + n1 <= s2 || s2 + n2 <= s1);
        }
    }
}

#[test]
fn split_leaves_exact_remainder() {
    // One block of 4096 - 16 = 4080 usable bytes: carving 100 leaves a
    // remainder block of 4080 - 100 - 16 = 3964 bytes, which can be
    // allocated whole; afterwards nothing is left.
    let mut a = fresh(4096);
    a.allocate(100, 1).unwrap();
    let p = a.allocate(3964, 1).unwrap();
    assert_eq!(p, START + HDR + 100 + HDR);
    assert_eq!(a.allocate(1, 1), Err(AllocError::NoMemory));
}

#[test]
fn required_size_is_max_of_size_and_align() {
    let mut a = fresh(4096);
    a.allocate(8, 256).unwrap();
    assert_eq!(a.used_bytes(), 256);
}

#[test]
fn alloc_fails_when_no_block_fits() {
    let mut a = fresh(256);
    assert_eq!(a.allocate(4096, 1), Err(AllocError::NoMemory));
    assert_eq!(a.used_bytes(), 0);
}

#[test]
fn merge_makes_combined_block_allocatable() {
    // Free the two live blocks back to front: each freed block is pushed
    // to the head and coalesced with its address-adjacent list successor,
    // so one block spanning the whole region reappears and a request for
    // its combined size succeeds at the original address.
    let mut a = fresh(4096);
    let p1 = a.allocate(100, 1).unwrap();
    let p2 = a.allocate(100, 1).unwrap();
    a.deallocate(p2, 100, 1);
    a.deallocate(p1, 100, 1);
    let big = a.allocate(4080, 1).unwrap();
    assert_eq!(big, p1);
}

#[test]
fn add_memory_links_and_coalesces_adjacent_region() {
    // A second region ending exactly where the first begins coalesces
    // with it, so a request larger than either region alone succeeds.
    let mut a = fresh(64);
    assert_eq!(a.allocate(100, 1), Err(AllocError::NoMemory));
    a.add_memory(START - 4096, 4096).unwrap();
    assert_eq!(a.total_bytes(), 64 + 4096);
    let p = a.allocate(4100, 1).unwrap();
    assert_eq!(p, START - 4096 + HDR);
}

#[test]
fn add_memory_far_region_serves_requests() {
    let mut a = fresh(64);
    a.add_memory(0x80000, 1024).unwrap();
    let p = a.allocate(512, 1).unwrap();
    assert_eq!(p, 0x80000 + HDR);
}

#[test]
fn hot_pool_serves_matching_size_from_buffer() {
    // A catalog entry for 32-byte requests: every request of exactly that
    // size returns the same buffer address and leaves the free list and
    // the accounting untouched.
    let mut a = fresh(4096);
    a.add_pool(32, 0x1000, 32 + 256);
    let p1 = a.allocate(32, 8).unwrap();
    let p2 = a.allocate(32, 8).unwrap();
    assert_eq!(p1, 0x1000);
    assert_eq!(p2, 0x1000);
    assert_eq!(a.used_bytes(), 0);
}

#[test]
fn hot_pool_dealloc_is_ignored() {
    let mut a = fresh(4096);
    a.add_pool(32, 0x1000, 32 + 256);
    let p = a.allocate(32, 8).unwrap();
    a.deallocate(p, 32, 8);
    assert_eq!(a.used_bytes(), 0);
    assert_eq!(a.available_bytes(), 4096);
}

#[test]
fn hot_pool_mismatching_size_goes_to_free_list() {
    let mut a = fresh(4096);
    a.add_pool(32, 0x1000, 32 + 256);
    let p = a.allocate(33, 1).unwrap();
    assert_eq!(p, START + HDR);
    assert_eq!(a.used_bytes(), 33);
}
