//! Per-core heap allocator behaviour: first fit, splitting, the
//! coverage invariant, double frees, exhaustion and consolidation.

use hvmem::error::Cause;
use hvmem::heap::Heap;
use hvmem::heap::HEAP_BLOCK_SIZE;
use hvmem::heap::HEAP_HEADER_SIZE;
use hvmem::heap::HEAP_MAGIC_FREE;
use hvmem::heap::HEAP_MAGIC_IN_USE;

/// The blocks, whatever their list order, must tile the arena exactly:
/// sorted by address they are contiguous, start at the arena base and
/// end at its top, and every tag is one of the two magic words.
fn assert_covers_arena(heap: &Heap) {
    let mut spans: Vec<(u64, u64, u64)> = Vec::new();
    for i in 0..heap.block_count() {
        let b = heap.block_at(i);
        spans.push((b.addr, b.size, b.magic));
    }
    spans.sort();
    let mut expected = heap.arena_base();
    for (addr, size, magic) in spans {
        assert_eq!(addr, expected);
        assert!(magic == HEAP_MAGIC_FREE || magic == HEAP_MAGIC_IN_USE);
        assert!(size >= HEAP_BLOCK_SIZE);
        assert_eq!(size % HEAP_BLOCK_SIZE, 0);
        expected = addr + size;
    }
    assert_eq!(expected, heap.arena_base() + heap.arena_size());
}

#[test]
fn init_installs_one_free_block() {
    let mut heap = Heap::new();
    heap.init(0x1000, 0x400);
    assert_eq!(heap.block_count(), 1);
    let b = heap.block_at(0);
    assert_eq!(b.addr, 0x1000);
    assert_eq!(b.size, 0x400);
    assert_eq!(b.magic, HEAP_MAGIC_FREE);
    assert_covers_arena(&heap);
}

#[test]
fn allocate_carves_from_the_tail() {
    let mut heap = Heap::new();
    heap.init(0, 256);
    let p = heap.allocate::<u8>(1).unwrap();
    // One granularity unit is carved from the tail of the arena.
    assert_eq!(p, 192 + HEAP_HEADER_SIZE);
    assert_eq!(heap.block_count(), 2);
    let carved = heap.block_at(0);
    assert_eq!((carved.addr, carved.size, carved.magic), (192, 64, HEAP_MAGIC_IN_USE));
    let rest = heap.block_at(1);
    assert_eq!((rest.addr, rest.size, rest.magic), (0, 192, HEAP_MAGIC_FREE));
    assert_covers_arena(&heap);
}

#[test]
fn allocate_takes_a_barely_large_enough_block_whole() {
    let mut heap = Heap::new();
    heap.init(0x2000, 64);
    let p = heap.allocate::<u8>(1).unwrap();
    assert_eq!(p, 0x2000 + HEAP_HEADER_SIZE);
    // No unusably small fragment is split off.
    assert_eq!(heap.block_count(), 1);
    assert_eq!(heap.block_at(0).magic, HEAP_MAGIC_IN_USE);
    assert_covers_arena(&heap);
}

#[test]
fn allocate_rounds_up_to_granularity() {
    let mut heap = Heap::new();
    heap.init(0, 0x1000);
    // 4 u64 values: 24 header + 32 payload rounds up to 64.
    let p = heap.allocate::<u64>(4).unwrap();
    let mut found = false;
    for i in 0..heap.block_count() {
        let b = heap.block_at(i);
        if b.addr + HEAP_HEADER_SIZE == p {
            found = true;
            assert_eq!(b.magic, HEAP_MAGIC_IN_USE);
            assert_eq!(b.size % HEAP_BLOCK_SIZE, 0);
            assert!(b.size >= HEAP_HEADER_SIZE + 8 * 4);
            assert_eq!(b.size, 64);
        }
    }
    assert!(found);
    assert_covers_arena(&heap);
}

#[test]
fn allocate_zero_objects_is_a_bad_size() {
    let mut heap = Heap::new();
    heap.init(0, 0x1000);
    assert_eq!(heap.allocate::<u64>(0), Err(Cause::HeapBadSize));
    assert_eq!(heap.block_count(), 1);
}

#[test]
fn coverage_invariant_holds_across_alloc_free_cycles() {
    let mut heap = Heap::new();
    heap.init(0x8000, 0x400);
    let a = heap.allocate::<u8>(10).unwrap();
    assert_covers_arena(&heap);
    let b = heap.allocate::<u32>(40).unwrap();
    assert_covers_arena(&heap);
    heap.free(a).unwrap();
    assert_covers_arena(&heap);
    let c = heap.allocate::<u8>(100).unwrap();
    assert_covers_arena(&heap);
    heap.free(b).unwrap();
    assert_covers_arena(&heap);
    heap.consolidate();
    assert_covers_arena(&heap);
    heap.free(c).unwrap();
    assert_covers_arena(&heap);
    heap.consolidate();
    assert_covers_arena(&heap);
}

#[test]
fn double_free_reports_not_in_use_and_keeps_the_tag() {
    let mut heap = Heap::new();
    heap.init(0, 256);
    let p = heap.allocate::<u8>(1).unwrap();
    assert_eq!(heap.free(p), Ok(()));
    assert_eq!(heap.free(p), Err(Cause::HeapNotInUse));
    // The block is still free, its tag unchanged by the failed free.
    let b = heap.block_at(0);
    assert_eq!(b.addr + HEAP_HEADER_SIZE, p);
    assert_eq!(b.magic, HEAP_MAGIC_FREE);
}

#[test]
fn free_of_an_unknown_pointer_is_a_bad_block() {
    let mut heap = Heap::new();
    heap.init(0, 256);
    let p = heap.allocate::<u8>(1).unwrap();
    assert_eq!(heap.free(p + 8), Err(Cause::HeapBadBlock));
    assert_eq!(heap.free(3), Err(Cause::HeapBadBlock));
    assert_eq!(heap.free(p), Ok(()));
}

#[test]
fn exhaustion_reports_no_free_mem() {
    let mut heap = Heap::new();
    heap.init(0, 128);
    // 200 bytes round up past the whole 128-byte arena.
    assert_eq!(heap.allocate::<u8>(200), Err(Cause::HeapNoFreeMem));
}

#[test]
fn overallocation_eventually_exhausts_the_arena() {
    let mut heap = Heap::new();
    heap.init(0, 256);
    // Each one-byte request takes one 64-byte unit: four fit, no fifth.
    let mut got = Vec::new();
    for _ in 0..4 {
        let p = heap.allocate::<u8>(1).unwrap();
        assert!(p >= HEAP_HEADER_SIZE && p < 256 + HEAP_HEADER_SIZE);
        got.push(p);
        assert_covers_arena(&heap);
    }
    assert_eq!(heap.allocate::<u8>(1), Err(Cause::HeapNoFreeMem));
    // All four pointers are distinct.
    got.sort();
    got.dedup();
    assert_eq!(got.len(), 4);
}

#[test]
fn consolidate_merges_the_corner_pair_to_the_sum() {
    let mut heap = Heap::new();
    heap.init(0, 256);
    let a = heap.allocate::<u8>(1).unwrap();
    heap.free(a).unwrap();
    // List order: the carved 64-byte block first, the 192-byte
    // remainder second, physically just before it.
    let merged = heap.consolidate();
    assert_eq!(merged, 256);
    assert_eq!(heap.block_count(), 1);
    let b = heap.block_at(0);
    assert_eq!((b.addr, b.size, b.magic), (0, 256, HEAP_MAGIC_FREE));
}

#[test]
fn consolidate_merges_adjacent_free_blocks_in_list_order() {
    let mut heap = Heap::new();
    heap.init(0, 320);
    let a1 = heap.allocate::<u8>(1).unwrap(); // carves [256, 320)
    let a2 = heap.allocate::<u8>(1).unwrap(); // carves [192, 256)
    heap.free(a2).unwrap();
    heap.free(a1).unwrap();
    // The pass merges [192,256)+[256,320), then the corner pair
    // swallows the remainder [0,192).
    let merged = heap.consolidate();
    assert_eq!(merged, 320);
    assert_eq!(heap.block_count(), 1);
    assert_covers_arena(&heap);
}

#[test]
fn consolidate_reports_zero_when_nothing_merges() {
    let mut heap = Heap::new();
    heap.init(0, 256);
    assert_eq!(heap.consolidate(), 0);
    let a = heap.allocate::<u8>(1).unwrap();
    assert_eq!(heap.consolidate(), 0);
    heap.free(a).unwrap();
    let merged = heap.consolidate();
    assert_eq!(merged, 256);
}

#[test]
fn freed_memory_is_reused_after_consolidation() {
    let mut heap = Heap::new();
    heap.init(0, 256);
    let mut ptrs = Vec::new();
    for _ in 0..4 {
        ptrs.push(heap.allocate::<u8>(1).unwrap());
    }
    assert_eq!(heap.allocate::<u8>(100), Err(Cause::HeapNoFreeMem));
    for p in ptrs {
        heap.free(p).unwrap();
    }
    // A large request now succeeds: the failed scan consolidates the
    // freed blocks and retries.
    let p = heap.allocate::<u8>(100).unwrap();
    assert!(p >= HEAP_HEADER_SIZE);
    assert_covers_arena(&heap);
}

#[test]
fn an_exact_multiple_request_takes_exactly_one_granule() {
    let mut heap = Heap::new();
    heap.init(0, 256);
    // 5 u64 values: 40 payload + 24 header land exactly on 64 bytes,
    // and rounding up must leave them there, not add another granule.
    let p = heap.allocate::<u64>(5).unwrap();
    let mut size = 0;
    for i in 0..heap.block_count() {
        let b = heap.block_at(i);
        if b.addr + HEAP_HEADER_SIZE == p {
            size = b.size;
        }
    }
    assert_eq!(size, 64);
}
