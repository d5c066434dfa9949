use kmem::AllocError;
use kmem::EarlyAllocator;

const PAGE: usize = 0x1000;
const START: usize = 0x8000;
const HDR: usize = 16;

fn fresh(size: usize) -> EarlyAllocator<PAGE> {
    let mut a = EarlyAllocator::<PAGE>::new();
    a.init(START, size);
    a
}

#[test]
fn init_places_cursors_at_both_ends() {
    let a = fresh(0x4000);
    assert_eq!(a.left_index, START);
    assert_eq!(a.right_index, START + 0x4000);
    assert_eq!(a.total_bytes(), 0x4000);
    assert_eq!(a.used_bytes(), 0);
}

#[test]
fn bytes_grow_forward_pages_grow_backward() {
    let mut a = fresh(0x4000);
    let b = a.allocate(0x100, 8).unwrap();
    assert_eq!(b, START + HDR);
    assert_eq!(a.left_index, START + 0x100);
    let p = a.alloc_pages(1, PAGE).unwrap();
    assert_eq!(p, START + 0x4000 - PAGE);
    assert_eq!(a.right_index, p);
}

#[test]
fn page_stack_discipline_restores_cursor() {
    // Allocating two pages and immediately freeing them at the returned
    // address restores the page cursor to its pre-allocation value.
    let mut a = fresh(0x4000);
    let before = a.right_index;
    let p = a.alloc_pages(2, PAGE).unwrap();
    assert_eq!(p, before - 2 * PAGE);
    a.dealloc_pages(p, 2);
    assert_eq!(a.right_index, before);
}

#[test]
fn dealloc_pages_at_non_top_address_is_ignored() {
    let mut a = fresh(0x4000);
    let p1 = a.alloc_pages(1, PAGE).unwrap();
    let _p2 = a.alloc_pages(1, PAGE).unwrap();
    let right = a.right_index;
    let used = a.used_bytes();
    a.dealloc_pages(p1, 1);
    assert_eq!(a.right_index, right);
    assert_eq!(a.used_bytes(), used);
}

#[test]
fn page_request_spanning_region_fails_no_memory() {
    // init(start, size) then a page request of count * PAGE >= size bytes
    // must fail with NoMemory.
    let mut a = fresh(0x2000);
    assert_eq!(a.alloc_pages(2, PAGE), Err(AllocError::NoMemory));
    assert_eq!(a.right_index, START + 0x2000);
}

#[test]
fn page_align_must_be_page_multiple_power_of_two() {
    let mut a = fresh(0x4000);
    assert_eq!(a.alloc_pages(1, PAGE + 8), Err(AllocError::InvalidParam));
    assert_eq!(a.alloc_pages(1, 3 * PAGE), Err(AllocError::InvalidParam));
    assert!(a.alloc_pages(1, 2 * PAGE).is_ok());
}

#[test]
fn byte_alloc_fails_when_cursors_would_cross() {
    let mut a = fresh(0x2000);
    a.alloc_pages(1, PAGE).unwrap();
    assert_eq!(a.allocate(0x1000, 1), Err(AllocError::NoMemory));
}

#[test]
fn early_conservation_after_each_call() {
    let mut a = fresh(0x4000);
    let b = a.allocate(0x100, 8).unwrap();
    assert_eq!(a.used_bytes() + a.available_bytes(), a.total_bytes());
    let p = a.alloc_pages(1, PAGE).unwrap();
    assert_eq!(a.used_bytes() + a.available_bytes(), a.total_bytes());
    a.deallocate(b, 0x100, 8);
    assert_eq!(a.used_bytes() + a.available_bytes(), a.total_bytes());
    a.dealloc_pages(p, 1);
    assert_eq!(a.used_bytes() + a.available_bytes(), a.total_bytes());
    assert_eq!(a.used_bytes(), 0);
}

#[test]
fn available_bytes_is_idempotent() {
    let mut a = fresh(0x4000);
    a.allocate(0x80, 8).unwrap();
    let v1 = a.available_bytes();
    let v2 = a.available_bytes();
    let v3 = a.available_bytes();
    assert_eq!(v1, v2);
    assert_eq!(v2, v3);
}

#[test]
fn freed_byte_block_is_reused() {
    let mut a = fresh(0x4000);
    let p1 = a.allocate(0x100, 8).unwrap();
    a.deallocate(p1, 0x100, 8);
    let p2 = a.allocate(0x100, 8).unwrap();
    assert_eq!(p2, p1);
}

#[test]
fn page_accessors_report_page_counts() {
    let mut a = fresh(0x4000);
    a.alloc_pages(1, PAGE).unwrap();
    assert_eq!(a.total_pages(), 4);
    assert_eq!(a.used_pages(), 1);
    assert_eq!(a.available_pages(), 3);
}
