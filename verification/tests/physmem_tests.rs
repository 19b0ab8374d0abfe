//! Physical memory discovery: totals, frame stacking, kernel
//! exclusion, collision checks and large-page mirror mappings.

use hvmem::error::Cause;
use hvmem::paging::KernelMappings;
use hvmem::paging::PG_GLOBAL;
use hvmem::paging::PG_WRITEABLE;
use hvmem::pgstack::FrameStack;
use hvmem::physmem::add_phys_region;
use hvmem::physmem::init;
use hvmem::physmem::map_phys_region;
use hvmem::physmem::phys_to_kernel;
use hvmem::physmem::MemType;
use hvmem::physmem::MemoryRegion;
use hvmem::physmem::KERNEL_VIRTUAL_UPPER_BASE;
use hvmem::physmem::SMALL_PAGE_SIZE;

#[test]
fn discovery_totals_stacks_and_maps_one_region() {
    // One usable 2 MiB region wholly outside the kernel image.
    let regions = vec![
        MemoryRegion { base_addr: 0x400000, length: 0x200000, mem_type: MemType::Usable },
    ];
    let mut stack = FrameStack::new(0, 0);
    let mut map = KernelMappings::new();
    let total = init(&regions, 0x100000, 0x140000, &mut stack, &mut map).unwrap();
    assert_eq!(total, 0x200000);
    // Pass one sizes the stack at exactly the page count.
    assert_eq!(stack.depth(), 512);
    // Pass two issues exactly one large-page mapping for the region.
    assert_eq!(map.count(), 1);
    let e = map.entry_at(0);
    assert_eq!(e.phys, 0x400000);
    assert_eq!(e.virt, 0x400000 + KERNEL_VIRTUAL_UPPER_BASE);
    assert_eq!(e.flags, PG_WRITEABLE | PG_GLOBAL);
}

#[test]
fn discovery_skips_reserved_regions() {
    let regions = vec![
        MemoryRegion { base_addr: 0x400000, length: 0x200000, mem_type: MemType::Reserved },
        MemoryRegion { base_addr: 0x800000, length: 0x1000, mem_type: MemType::Usable },
    ];
    let mut stack = FrameStack::new(0, 0);
    let mut map = KernelMappings::new();
    let total = init(&regions, 0, 0, &mut stack, &mut map).unwrap();
    assert_eq!(total, 0x1000);
    assert_eq!(stack.depth(), 1);
    assert_eq!(map.count(), 1);
}

#[test]
fn kernel_frames_are_excluded_frame_by_frame() {
    // The region overlaps the kernel image: only the overlapping 16
    // frames are skipped, not the whole region.
    let regions = vec![
        MemoryRegion { base_addr: 0x100000, length: 0x100000, mem_type: MemType::Usable },
    ];
    let mut stack = FrameStack::new(0, 0);
    let mut map = KernelMappings::new();
    let total = init(&regions, 0x120000, 0x130000, &mut stack, &mut map).unwrap();
    assert_eq!(total, 0x100000);
    assert_eq!(stack.depth(), 256 - 16);
    // The highest frame of the region sits on top of the stack.
    let mut stack2 = stack;
    assert_eq!(stack2.pop(), Ok(0x1ff000));
}

#[test]
fn mapping_aligns_the_base_down_before_counting_pages() {
    let mut map = KernelMappings::new();
    map_phys_region(0x500123, 0x10000, &mut map).unwrap();
    assert_eq!(map.count(), 1);
    let e = map.entry_at(0);
    // The nearest 2 MiB boundary at or below 0x500123 is 0x400000.
    assert_eq!(e.phys, 0x400000);
    assert_eq!(e.virt, 0x400000 + KERNEL_VIRTUAL_UPPER_BASE);
}

#[test]
fn a_short_region_still_gets_one_large_page() {
    let mut map = KernelMappings::new();
    map_phys_region(0x400000, 1, &mut map).unwrap();
    assert_eq!(map.count(), 1);
    assert_eq!(map.entry_at(0).phys, 0x400000);
}

#[test]
fn an_empty_region_maps_nothing() {
    let mut map = KernelMappings::new();
    map_phys_region(0x400000, 0, &mut map).unwrap();
    assert_eq!(map.count(), 0);
}

#[test]
fn a_region_spanning_several_large_pages_maps_each() {
    let mut map = KernelMappings::new();
    map_phys_region(0x400000, 0x500000, &mut map).unwrap();
    // 5 MiB needs three 2 MiB pages.
    assert_eq!(map.count(), 3);
    assert_eq!(map.entry_at(0).phys, 0x400000);
    assert_eq!(map.entry_at(1).phys, 0x600000);
    assert_eq!(map.entry_at(2).phys, 0x800000);
}

#[test]
fn remapping_an_occupied_page_elsewhere_is_refused() {
    let mut map = KernelMappings::new();
    let virt = 0x400000 + KERNEL_VIRTUAL_UPPER_BASE;
    assert_eq!(map.map_large_page(virt, 0x400000, PG_WRITEABLE), Ok(()));
    assert_eq!(map.map_large_page(virt, 0x600000, PG_WRITEABLE), Err(Cause::MapFailed));
    assert_eq!(map.count(), 1);
}

#[test]
fn frames_colliding_with_the_stacks_bookkeeping_are_skipped() {
    let mut stack = FrameStack::new(0x401000, 0x402000);
    stack.set_limit(100).unwrap();
    let stacked =
        add_phys_region(0x400000, 0x3000, 0, 0, &mut stack).unwrap();
    assert_eq!(stacked, 0x2000);
    assert_eq!(stack.depth(), 2);
    assert_eq!(stack.pop(), Ok(0x402000));
    assert_eq!(stack.pop(), Ok(0x400000));
}

#[test]
fn a_full_stack_takes_no_more_frames() {
    let mut stack = FrameStack::new(0, 0);
    stack.set_limit(1).unwrap();
    let stacked = add_phys_region(0x400000, 0x2000, 0, 0, &mut stack).unwrap();
    assert_eq!(stacked, SMALL_PAGE_SIZE);
    assert_eq!(stack.depth(), 1);
    assert_eq!(stack.push(0x500000), Err(Cause::FrameStackExhausted));
}

#[test]
fn popping_an_empty_stack_underflows() {
    let mut stack = FrameStack::new(0, 0);
    stack.set_limit(4).unwrap();
    assert_eq!(stack.pop(), Err(Cause::FrameStackUnderflow));
    stack.push(0x1000).unwrap();
    assert_eq!(stack.pop(), Ok(0x1000));
    assert_eq!(stack.pop(), Err(Cause::FrameStackUnderflow));
}

#[test]
fn physical_addresses_mirror_into_the_upper_window() {
    assert_eq!(phys_to_kernel(0), KERNEL_VIRTUAL_UPPER_BASE);
    assert_eq!(phys_to_kernel(0x1000), 0xffff800000001000);
}
