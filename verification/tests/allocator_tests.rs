//! The general-purpose allocation adapter: routing to the current
//! core's heap, null on failure, and cross-core frees.

use hvmem::heap::kAllocator;
use hvmem::heap::HEAP_HEADER_SIZE;
use hvmem::heap::HEAP_MAGIC_FREE;
use hvmem::heap::HEAP_MAGIC_IN_USE;

#[test]
fn adapter_allocates_from_the_current_core() {
    let mut ka = kAllocator::new();
    ka.add_core(0x10000, 0x1000);
    ka.add_core(0x20000, 0x1000);
    ka.set_current(0);
    let p0 = ka.allocate(16);
    assert!(p0 >= 0x10000 && p0 < 0x11000);
    ka.set_current(1);
    let p1 = ka.allocate(16);
    assert!(p1 >= 0x20000 && p1 < 0x21000);
}

#[test]
fn adapter_returns_null_on_failure() {
    let mut ka = kAllocator::new();
    ka.add_core(0x10000, 0x1000);
    ka.set_current(0);
    assert_eq!(ka.allocate(0), 0);
    // Far more than the whole arena can hold.
    assert_eq!(ka.allocate(0x2000), 0);
    // A request that cannot even be sized.
    assert_eq!(ka.allocate(usize::MAX), 0);
}

#[test]
fn cross_core_free_succeeds_and_frees_the_owning_arena() {
    let mut ka = kAllocator::new();
    ka.add_core(0x10000, 0x1000);
    ka.add_core(0x20000, 0x1000);
    // Allocate while core 0 is current.
    ka.set_current(0);
    let p = ka.allocate(8);
    assert!(p != 0);
    // Free while core 1 is current: the free is routed by the pointer
    // to core 0's arena and succeeds.
    ka.set_current(1);
    ka.deallocate(p);
    let heap0 = ka.heap_of(0);
    let mut freed = false;
    for i in 0..heap0.block_count() {
        let b = heap0.block_at(i);
        if b.addr + HEAP_HEADER_SIZE == p {
            assert_eq!(b.magic, HEAP_MAGIC_FREE);
            freed = true;
        }
    }
    assert!(freed);
    // The block is available to a subsequent allocation on the
    // owning core's heap.
    ka.set_current(0);
    let q = ka.allocate(8);
    assert_eq!(q, p);
}

#[test]
fn deallocate_of_a_foreign_pointer_changes_nothing() {
    let mut ka = kAllocator::new();
    ka.add_core(0x10000, 0x1000);
    ka.set_current(0);
    let p = ka.allocate(8);
    assert!(p != 0);
    // A pointer in no registered arena is ignored.
    ka.deallocate(0x5000);
    let heap0 = ka.heap_of(0);
    let mut still_in_use = false;
    for i in 0..heap0.block_count() {
        let b = heap0.block_at(i);
        if b.addr + HEAP_HEADER_SIZE == p {
            assert_eq!(b.magic, HEAP_MAGIC_IN_USE);
            still_in_use = true;
        }
    }
    assert!(still_in_use);
}
