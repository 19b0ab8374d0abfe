//! Physical memory discovery.
//!
//! A two-pass walk over the platform's table of RAM regions. The first
//! pass totals the usable bytes so the frame stack can be sized before
//! anything is pushed onto it. The second pass splits every usable
//! region into 4 KiB frames, stacks each frame that lies outside the
//! kernel image and outside the stack's own bookkeeping range, and
//! mirrors the whole region into the kernel's upper virtual window
//! with 2 MiB pages.

use vstd::prelude::*;

use crate::error::Cause;
use crate::paging::conflicts;
use crate::paging::KernelMappings;
use crate::paging::MappingRequest;
use crate::paging::PG_GLOBAL;
use crate::paging::PG_WRITEABLE;
use crate::pgstack::FrameStack;

verus! {

/// Size of a standard physical page frame.
pub const SMALL_PAGE_SIZE: u64 = 4096;

/// Size of a large physical page.
pub const LARGE_PAGE_SIZE: u64 = 0x200000;

/// Base of the kernel's upper virtual window, into which all of
/// physical memory is mirrored.
pub const KERNEL_VIRTUAL_UPPER_BASE: u64 = 0xffff800000000000;

/// One past the highest physical address the upper window can mirror
/// (the window spans 128 TiB).
pub const PHYS_ADDR_LIMIT: u64 = 0x800000000000;

/// What a region of the platform's memory table holds.
#[derive(Clone, Copy, Debug, PartialEq, Eq, Structural)]
pub enum MemType {
    /// RAM the kernel may claim.
    Usable,
    /// Firmware, device or otherwise reserved space.
    Reserved,
}

/// One region of the platform's memory table.
#[derive(Clone, Copy, Debug, PartialEq, Eq, Structural)]
pub struct MemoryRegion {
    /// Lowest physical address of the region.
    pub base_addr: u64,
    /// Bytes in the region.
    pub length: u64,
    /// What the region holds.
    pub mem_type: MemType,
}

/// Translate a physical address to its mirror in the kernel's upper
/// virtual window.
pub fn phys_to_kernel(phys: u64) -> (virt: u64)
    requires
        phys < PHYS_ADDR_LIMIT,
    ensures
        virt == phys + KERNEL_VIRTUAL_UPPER_BASE,
{
    phys + KERNEL_VIRTUAL_UPPER_BASE
}

/// A frame at this address may be stacked: it lies neither inside the
/// kernel's loaded image nor inside the frame stack's own reserved
/// bookkeeping range.
pub open spec fn frame_kept(addr: int, ks: u64, ke: u64, rb: u64, re: u64) -> bool {
    &&& !(ks <= addr < ke)
    &&& !(rb <= addr < re)
}

/// The frame addresses of one region that pass the filters, in
/// ascending order: the region's first `npages` whole 4 KiB frames,
/// without those inside the kernel image or the reserved range.
pub open spec fn spec_region_frames(
    base: u64,
    npages: int,
    ks: u64,
    ke: u64,
    rb: u64,
    re: u64,
) -> Seq<u64>
    decreases npages,
{
    if npages <= 0 {
        Seq::empty()
    } else {
        let prefix = spec_region_frames(base, npages - 1, ks, ke, rb, re);
        let addr = base + (npages - 1) * SMALL_PAGE_SIZE;
        if frame_kept(addr, ks, ke, rb, re) {
            prefix.push(addr as u64)
        } else {
            prefix
        }
    }
}

/// A region never yields more frames than it has pages.
pub proof fn lemma_region_frames_len(base: u64, npages: int, ks: u64, ke: u64, rb: u64, re: u64)
    ensures
        spec_region_frames(base, npages, ks, ke, rb, re).len() <= if npages <= 0 {
            0
        } else {
            npages
        },
    decreases npages,
{
    if npages > 0 {
        lemma_region_frames_len(base, npages - 1, ks, ke, rb, re);
    }
}

/// How many 2 MiB pages cover `size` bytes: zero for an empty region,
/// otherwise rounded up so that no byte is dropped.
pub open spec fn spec_large_pages(size: u64) -> int {
    if size == 0 {
        0
    } else {
        (size - 1) / (LARGE_PAGE_SIZE as int) + 1
    }
}

/// `base` aligned down to the nearest 2 MiB boundary.
pub open spec fn spec_align_down(base: u64) -> int {
    base - (base as int % (LARGE_PAGE_SIZE as int))
}

/// The mirror mappings of one region, in ascending order: one 2 MiB
/// page for each step from the aligned base, each mapping
/// `phys + upper base -> phys` with the writable and global flags.
pub open spec fn spec_region_maps(aligned: int, npages: int) -> Seq<MappingRequest>
    decreases npages,
{
    if npages <= 0 {
        Seq::empty()
    } else {
        spec_region_maps(aligned, npages - 1).push(
            MappingRequest {
                virt: (aligned + (npages - 1) * LARGE_PAGE_SIZE
                    + KERNEL_VIRTUAL_UPPER_BASE) as u64,
                phys: (aligned + (npages - 1) * LARGE_PAGE_SIZE) as u64,
                flags: PG_WRITEABLE | PG_GLOBAL,
            },
        )
    }
}

/// Every entry of `es` mirrors physical memory into the upper window:
/// its virtual address is its physical address plus the window base.
pub open spec fn mirror_entries(es: Seq<MappingRequest>) -> bool {
    forall|i: int|
        0 <= i < es.len() ==> (#[trigger] es[i]).virt == es[i].phys + KERNEL_VIRTUAL_UPPER_BASE
}

/// A region's mirror mappings all mirror, provided their addresses
/// stay inside the mirrored window.
pub proof fn lemma_region_maps_mirror(aligned: int, npages: int)
    requires
        0 <= aligned,
        aligned + npages * LARGE_PAGE_SIZE <= PHYS_ADDR_LIMIT,
    ensures
        mirror_entries(spec_region_maps(aligned, npages)),
        spec_region_maps(aligned, npages).len() == if npages <= 0 {
            0
        } else {
            npages
        },
    decreases npages,
{
    if npages > 0 {
        assert((npages - 1) * LARGE_PAGE_SIZE == npages * LARGE_PAGE_SIZE - LARGE_PAGE_SIZE)
            by (nonlinear_arith);
        assert(0 <= (npages - 1) * LARGE_PAGE_SIZE) by (nonlinear_arith)
            requires
                0 <= npages - 1,
        ;
        lemma_region_maps_mirror(aligned, npages - 1);
        let es = spec_region_maps(aligned, npages);
        assert forall|i: int|
            0 <= i < es.len() implies (#[trigger] es[i]).virt == es[i].phys
            + KERNEL_VIRTUAL_UPPER_BASE by {
            if i < npages - 1 {
                assert(es[i] == spec_region_maps(aligned, npages - 1)[i]);
            }
        }
    }
}

/// Total usable bytes in the regions from index `from` on.
pub open spec fn spec_usable_total_from(rs: Seq<MemoryRegion>, from: int) -> int
    decreases rs.len() - from,
{
    if from < 0 || from >= rs.len() {
        0
    } else {
        (if rs[from].mem_type == MemType::Usable {
            rs[from].length as int
        } else {
            0
        }) + spec_usable_total_from(rs, from + 1)
    }
}

/// Total usable bytes reported by the first discovery pass.
pub open spec fn spec_usable_total(rs: Seq<MemoryRegion>) -> int {
    spec_usable_total_from(rs, 0)
}

/// Total whole 4 KiB pages of the usable regions from index `from` on.
pub open spec fn spec_pages_from(rs: Seq<MemoryRegion>, from: int) -> int
    decreases rs.len() - from,
{
    if from < 0 || from >= rs.len() {
        0
    } else {
        (if rs[from].mem_type == MemType::Usable {
            rs[from].length as int / (SMALL_PAGE_SIZE as int)
        } else {
            0
        }) + spec_pages_from(rs, from + 1)
    }
}

/// The frames stacked by the second pass for the usable regions from
/// index `from` on, in pass order.
pub open spec fn spec_frames_from(
    rs: Seq<MemoryRegion>,
    from: int,
    ks: u64,
    ke: u64,
    rb: u64,
    re: u64,
) -> Seq<u64>
    decreases rs.len() - from,
{
    if from < 0 || from >= rs.len() {
        Seq::empty()
    } else {
        (if rs[from].mem_type == MemType::Usable {
            spec_region_frames(
                rs[from].base_addr,
                rs[from].length as int / (SMALL_PAGE_SIZE as int),
                ks,
                ke,
                rb,
                re,
            )
        } else {
            Seq::empty()
        }) + spec_frames_from(rs, from + 1, ks, ke, rb, re)
    }
}

/// The frames the whole second pass stacks, in order.
pub open spec fn spec_discovery_frames(
    rs: Seq<MemoryRegion>,
    ks: u64,
    ke: u64,
    rb: u64,
    re: u64,
) -> Seq<u64> {
    spec_frames_from(rs, 0, ks, ke, rb, re)
}

/// The mirror mappings the whole second pass issues, in order.
pub open spec fn spec_maps_from(rs: Seq<MemoryRegion>, from: int) -> Seq<MappingRequest>
    decreases rs.len() - from,
{
    if from < 0 || from >= rs.len() {
        Seq::empty()
    } else {
        (if rs[from].mem_type == MemType::Usable {
            spec_region_maps(
                spec_align_down(rs[from].base_addr),
                spec_large_pages(rs[from].length),
            )
        } else {
            Seq::empty()
        }) + spec_maps_from(rs, from + 1)
    }
}

/// The mirror mappings of the whole discovery, in order.
pub open spec fn spec_discovery_maps(rs: Seq<MemoryRegion>) -> Seq<MappingRequest> {
    spec_maps_from(rs, 0)
}

/// Floor division distributes over a sum only in one direction: page
/// counts of parts never exceed the page count of the whole.
pub proof fn lemma_div_sum(a: int, b: int, d: int)
    requires
        0 <= a,
        0 <= b,
        0 < d,
    ensures
        a / d + b / d <= (a + b) / d,
{
    vstd::arithmetic::div_mod::lemma_fundamental_div_mod(a, d);
    vstd::arithmetic::div_mod::lemma_fundamental_div_mod(b, d);
    vstd::arithmetic::div_mod::lemma_mod_bound(a, d);
    vstd::arithmetic::div_mod::lemma_mod_bound(b, d);
    let q = a / d + b / d;
    assert(a + b == d * q + (a % d + b % d)) by (nonlinear_arith)
        requires
            a == d * (a / d) + a % d && b == d * (b / d) + b % d && q == a / d + b / d,
    ;
    assert((a + b) / d >= q) by {
        vstd::arithmetic::div_mod::lemma_div_is_ordered(d * q, a + b, d);
        vstd::arithmetic::div_mod::lemma_div_multiples_vanish(q, d);
    }
}

/// Break a region of physical RAM into 4 KiB frames and push each
/// frame onto the page-frame stack, skipping frames inside the
/// kernel's loaded image and frames that collide with the stack's own
/// bookkeeping range. A frame the stack cannot take (its limit is
/// reached) is skipped silently; the call itself always succeeds and
/// returns the bytes actually stacked.
pub fn add_phys_region(
    base: u64,
    size: u64,
    kernel_start: u64,
    kernel_end: u64,
    stack: &mut FrameStack,
) -> (r: Result<u64, Cause>)
    requires
        old(stack).wf(),
        base + size <= PHYS_ADDR_LIMIT,
    ensures
        final(stack).wf(),
        final(stack).spec_limit() == old(stack).spec_limit(),
        final(stack).spec_reserved_base() == old(stack).spec_reserved_base(),
        final(stack).spec_reserved_end() == old(stack).spec_reserved_end(),
        ({
            let kept = spec_region_frames(
                base,
                size as int / (SMALL_PAGE_SIZE as int),
                kernel_start,
                kernel_end,
                old(stack).spec_reserved_base(),
                old(stack).spec_reserved_end(),
            );
            let avail = old(stack).spec_limit() - old(stack).spec_frames().len();
            let took = if kept.len() <= avail {
                kept.len() as int
            } else {
                avail as int
            };
            &&& final(stack).spec_frames() == old(stack).spec_frames() + kept.take(took)
            &&& r == Ok::<u64, Cause>((SMALL_PAGE_SIZE * took) as u64)
        }),
{
    let ghost ks = kernel_start;
    let ghost ke = kernel_end;
    let ghost rb = old(stack).spec_reserved_base();
    let ghost re = old(stack).spec_reserved_end();
    let ghost frames0 = old(stack).spec_frames();
    let ghost limit = old(stack).spec_limit();
    let ghost avail = limit - frames0.len();
    let total_pages: u64 = size / SMALL_PAGE_SIZE;
    proof {
        vstd::arithmetic::div_mod::lemma_fundamental_div_mod(
            size as int,
            SMALL_PAGE_SIZE as int,
        );
        vstd::arithmetic::div_mod::lemma_mod_bound(size as int, SMALL_PAGE_SIZE as int);
    }
    let mut stacked: u64 = 0;
    let mut page_nr: u64 = 0;
    while page_nr < total_pages
        invariant
            ks == kernel_start,
            ke == kernel_end,
            frames0 == old(stack).spec_frames(),
            stack.wf(),
            stack.spec_limit() == limit,
            stack.spec_reserved_base() == rb,
            stack.spec_reserved_end() == re,
            avail == limit - frames0.len(),
            0 <= avail,
            base + size <= PHYS_ADDR_LIMIT,
            total_pages == size as int / (SMALL_PAGE_SIZE as int),
            SMALL_PAGE_SIZE * total_pages <= size,
            page_nr <= total_pages,
            ({
                let kept = spec_region_frames(base, page_nr as int, ks, ke, rb, re);
                let took = if kept.len() <= avail {
                    kept.len() as int
                } else {
                    avail as int
                };
                &&& stack.spec_frames() == frames0 + kept.take(took)
                &&& stacked == SMALL_PAGE_SIZE * took
            }),
        decreases total_pages - page_nr,
    {
        proof {
            lemma_region_frames_len(base, page_nr as int, ks, ke, rb, re);
            assert(SMALL_PAGE_SIZE * (page_nr + 1) <= SMALL_PAGE_SIZE * total_pages)
                by (nonlinear_arith)
                requires
                    page_nr + 1 <= total_pages,
            ;
        }
        let page_base = base + page_nr * SMALL_PAGE_SIZE;
        let ghost kept_pre = spec_region_frames(base, page_nr as int, ks, ke, rb, re);
        let ghost kept_post = spec_region_frames(base, page_nr as int + 1, ks, ke, rb, re);
        proof {
            assert(kept_pre.len() <= page_nr);
        }
        proof {
            lemma_region_frames_step(base, page_nr as int, ks, ke, rb, re);
            assert(page_base as int == base + (page_nr as int) * (SMALL_PAGE_SIZE as int));
        }
        if page_base >= kernel_start && page_base < kernel_end {
            proof {
                assert(kept_post == kept_pre);
            }
        } else if stack.check_collision(page_base) {
            proof {
                assert(kept_post == kept_pre);
            }
        } else {
            proof {
                assert(kept_post == kept_pre.push(page_base));
            }
            match stack.push(page_base) {
                Ok(()) => {
                    stacked = stacked + SMALL_PAGE_SIZE;
                    proof {
                        let took_pre = if kept_pre.len() <= avail {
                            kept_pre.len() as int
                        } else {
                            avail as int
                        };
                        assert(frames0.len() + took_pre < limit);
                        assert(took_pre == kept_pre.len());
                        assert(kept_pre.take(kept_pre.len() as int) =~= kept_pre);
                        assert(kept_post.take(kept_post.len() as int) =~= kept_post);
                        assert(frames0 + kept_pre + seq![page_base] =~= frames0 + kept_post);
                    }
                },
                Err(_) => {
                    proof {
                        let took_pre = if kept_pre.len() <= avail {
                            kept_pre.len() as int
                        } else {
                            avail as int
                        };
                        assert(frames0.len() + took_pre >= limit);
                        assert(took_pre == avail);
                        assert(kept_post.take(avail as int) =~= kept_pre.take(avail as int));
                    }
                },
            }
        }
        page_nr = page_nr + 1;
    }
    Ok(stacked)
}

/// Map a region of physical memory into the kernel's upper virtual
/// window with 2 MiB pages, kernel-only, read/write. The base is
/// aligned down to a 2 MiB boundary first; the page count is rounded
/// up so a region shorter than one large page still gets one. Each
/// page maps `phys + upper base -> phys`; the call fails only when a
/// needed virtual page is already mapped somewhere else, and then
/// stops at the conflicting page.
pub fn map_phys_region(base: u64, size: u64, map: &mut KernelMappings) -> (r: Result<(), Cause>)
    requires
        base + size <= PHYS_ADDR_LIMIT,
    ensures
        mirror_entries(old(map).spec_entries()) ==> r == Ok::<(), Cause>(()),
        r == Ok::<(), Cause>(()) ==> final(map).spec_entries() == old(map).spec_entries()
            + spec_region_maps(spec_align_down(base), spec_large_pages(size)),
        r.is_err() ==> r == Err::<(), Cause>(Cause::MapFailed) && (exists|k: int|
            0 <= k < spec_large_pages(size) && final(map).spec_entries() == old(
                map,
            ).spec_entries() + spec_region_maps(spec_align_down(base), k) && conflicts(
                old(map).spec_entries(),
                (spec_align_down(base) + k * LARGE_PAGE_SIZE + KERNEL_VIRTUAL_UPPER_BASE) as u64,
                (spec_align_down(base) + k * LARGE_PAGE_SIZE) as u64,
            )),
{
    let align_diff = base % LARGE_PAGE_SIZE;
    let base_al = base - align_diff;
    let total_pages: u64 = if size == 0 {
        0
    } else {
        (size - 1) / LARGE_PAGE_SIZE + 1
    };
    proof {
        vstd::arithmetic::div_mod::lemma_mod_bound(base as int, LARGE_PAGE_SIZE as int);
        if size > 0 {
            vstd::arithmetic::div_mod::lemma_fundamental_div_mod(
                size as int - 1,
                LARGE_PAGE_SIZE as int,
            );
            vstd::arithmetic::div_mod::lemma_mod_bound(size as int - 1, LARGE_PAGE_SIZE as int);
        }
    }
    let flags = PG_WRITEABLE | PG_GLOBAL;
    let mut page_nr: u64 = 0;
    while page_nr < total_pages
        invariant
            base_al == spec_align_down(base),
            base_al <= base,
            base + size <= PHYS_ADDR_LIMIT,
            total_pages == spec_large_pages(size),
            total_pages >= 1 ==> LARGE_PAGE_SIZE * (total_pages - 1) < size,
            flags == PG_WRITEABLE | PG_GLOBAL,
            page_nr <= total_pages,
            map.spec_entries() == old(map).spec_entries() + spec_region_maps(
                base_al as int,
                page_nr as int,
            ),
        decreases total_pages - page_nr,
    {
        proof {
            assert(LARGE_PAGE_SIZE * page_nr <= LARGE_PAGE_SIZE * (total_pages - 1))
                by (nonlinear_arith)
                requires
                    page_nr <= total_pages - 1,
            ;
        }
        let addr = base_al + page_nr * LARGE_PAGE_SIZE;
        let virt = addr + KERNEL_VIRTUAL_UPPER_BASE;
        proof {
            assert(addr as int == base_al + (page_nr as int) * (LARGE_PAGE_SIZE as int));
        }
        let ghost acc = map.spec_entries();
        match map.map_large_page(virt, addr, flags) {
            Ok(()) => {
                proof {
                    lemma_region_maps_step(base_al as int, page_nr as int);
                    assert(map.spec_entries() =~= old(map).spec_entries() + spec_region_maps(
                        base_al as int,
                        page_nr as int + 1,
                    ));
                }
            },
            Err(e) => {
                proof {
                    assert(conflicts(acc, virt, addr));
                    let ci = choose|ci: int|
                        0 <= ci < acc.len() && (#[trigger] acc[ci]).virt == virt && acc[ci].phys
                            != addr;
                    lemma_region_maps_mirror(base_al as int, page_nr as int);
                    if ci >= old(map).spec_entries().len() {
                        let e2 = spec_region_maps(base_al as int, page_nr as int)[ci - old(
                            map,
                        ).spec_entries().len()];
                        assert(e2.virt == e2.phys + KERNEL_VIRTUAL_UPPER_BASE);
                        assert(false);
                    }
                    assert(conflicts(old(map).spec_entries(), virt, addr));
                }
                return Err(e);
            },
        }
        page_nr = page_nr + 1;
    }
    Ok(())
}

/// Initialize physical memory management: walk the platform's region
/// table twice. The first pass totals the usable bytes and fixes the
/// frame stack's capacity at exactly that many 4 KiB pages — sizing
/// must come first, so the stack never overflows while frames holding
/// its own bookkeeping are being excluded. The second pass stacks
/// every reclaimable frame of each usable region and mirrors the
/// whole region into the kernel's upper virtual window with 2 MiB
/// pages. Returns the total usable bytes found; the difference
/// between that figure and the stacked bytes is kernel-reserved
/// memory and is expected to be non-zero.
pub fn init(
    regions: &Vec<MemoryRegion>,
    kernel_start: u64,
    kernel_end: u64,
    stack: &mut FrameStack,
    map: &mut KernelMappings,
) -> (r: Result<u64, Cause>)
    requires
        old(stack).wf(),
        old(stack).spec_frames().len() == 0,
        old(map).spec_entries().len() == 0,
        forall|i: int|
            0 <= i < regions@.len() && (#[trigger] regions@[i]).mem_type == MemType::Usable
                ==> regions@[i].base_addr + regions@[i].length <= PHYS_ADDR_LIMIT,
        spec_usable_total(regions@) <= PHYS_ADDR_LIMIT,
    ensures
        final(stack).wf(),
        r == Ok::<u64, Cause>(spec_usable_total(regions@) as u64),
        final(stack).spec_limit() == spec_usable_total(regions@) / (SMALL_PAGE_SIZE as int),
        final(stack).spec_reserved_base() == old(stack).spec_reserved_base(),
        final(stack).spec_reserved_end() == old(stack).spec_reserved_end(),
        final(stack).spec_frames() == spec_discovery_frames(
            regions@,
            kernel_start,
            kernel_end,
            old(stack).spec_reserved_base(),
            old(stack).spec_reserved_end(),
        ),
        final(map).spec_entries() == spec_discovery_maps(regions@),
{
    let ghost rs = regions@;
    let ghost ks = kernel_start;
    let ghost ke = kernel_end;
    let ghost rb = old(stack).spec_reserved_base();
    let ghost re = old(stack).spec_reserved_end();
    let n = regions.len();
    // First pass: total the usable bytes.
    let mut mem_total: u64 = 0;
    proof {
        lemma_pages_from_le_total(rs, 0);
    }
    let mut i: usize = 0;
    while i < n
        invariant
            rs == regions@,
            n == rs.len(),
            i <= n,
            spec_usable_total(rs) <= PHYS_ADDR_LIMIT,
            mem_total + spec_usable_total_from(rs, i as int) == spec_usable_total(rs),
            0 <= spec_usable_total_from(rs, i as int),
        decreases n - i,
    {
        let region = regions[i];
        proof {
            lemma_pages_from_le_total(rs, i as int + 1);
            assert(spec_usable_total_from(rs, i as int) == (if rs[i as int].mem_type
                == MemType::Usable {
                rs[i as int].length as int
            } else {
                0
            }) + spec_usable_total_from(rs, i as int + 1));
        }
        if region.mem_type == MemType::Usable {
            mem_total = mem_total + region.length;
        }
        i = i + 1;
    }
    // Fix the stack's capacity before any frame is pushed.
    let pages: u64 = mem_total / SMALL_PAGE_SIZE;
    stack.set_limit(pages)?;
    // Second pass: stack the frames and mirror the regions.
    proof {
        lemma_pages_from_le_total(rs, 0);
    }
    let mut i: usize = 0;
    while i < n
        invariant
            rs == regions@,
            ks == kernel_start,
            ke == kernel_end,
            rb == old(stack).spec_reserved_base(),
            re == old(stack).spec_reserved_end(),
            n == rs.len(),
            i <= n,
            forall|j: int|
                0 <= j < rs.len() && (#[trigger] rs[j]).mem_type == MemType::Usable
                    ==> rs[j].base_addr + rs[j].length <= PHYS_ADDR_LIMIT,
            stack.wf(),
            stack.spec_limit() == pages,
            stack.spec_reserved_base() == rb,
            stack.spec_reserved_end() == re,
            pages == spec_usable_total(rs) / (SMALL_PAGE_SIZE as int),
            stack.spec_frames() + spec_frames_from(rs, i as int, ks, ke, rb, re)
                == spec_discovery_frames(rs, ks, ke, rb, re),
            stack.spec_frames().len() + spec_pages_from(rs, i as int) <= pages,
            map.spec_entries() + spec_maps_from(rs, i as int) == spec_discovery_maps(rs),
            mirror_entries(map.spec_entries()),
        decreases n - i,
    {
        let region = regions[i];
        proof {
            assert(spec_pages_from(rs, i as int) == (if rs[i as int].mem_type == MemType::Usable {
                rs[i as int].length as int / (SMALL_PAGE_SIZE as int)
            } else {
                0
            }) + spec_pages_from(rs, i as int + 1));
            assert(spec_frames_from(rs, i as int, ks, ke, rb, re) == (if rs[i as int].mem_type
                == MemType::Usable {
                spec_region_frames(
                    rs[i as int].base_addr,
                    rs[i as int].length as int / (SMALL_PAGE_SIZE as int),
                    ks,
                    ke,
                    rb,
                    re,
                )
            } else {
                Seq::empty()
            }) + spec_frames_from(rs, i as int + 1, ks, ke, rb, re));
            assert(spec_maps_from(rs, i as int) == (if rs[i as int].mem_type == MemType::Usable {
                spec_region_maps(
                    spec_align_down(rs[i as int].base_addr),
                    spec_large_pages(rs[i as int].length),
                )
            } else {
                Seq::empty()
            }) + spec_maps_from(rs, i as int + 1));
            lemma_pages_from_le_total(rs, i as int + 1);
        }
        if region.mem_type == MemType::Usable {
            let ghost npages = region.length as int / (SMALL_PAGE_SIZE as int);
            let ghost kept = spec_region_frames(region.base_addr, npages, ks, ke, rb, re);
            proof {
                lemma_region_frames_len(region.base_addr, npages, ks, ke, rb, re);
                lemma_pages_from_le_total(rs, i as int + 1);
                vstd::arithmetic::div_mod::lemma_div_is_ordered(
                    0,
                    region.length as int,
                    SMALL_PAGE_SIZE as int,
                );
                assert(spec_pages_from(rs, i as int) == npages + spec_pages_from(
                    rs,
                    i as int + 1,
                ));
                assert(kept.len() <= pages - stack.spec_frames().len());
            }
            let ghost frames_pre = stack.spec_frames();
            let _stacked = add_phys_region(
                region.base_addr,
                region.length,
                kernel_start,
                kernel_end,
                stack,
            )?;
            proof {
                assert(kept.take(kept.len() as int) =~= kept);
                assert(stack.spec_frames() == frames_pre + kept);
                assert(frames_pre + kept + spec_frames_from(rs, i as int + 1, ks, ke, rb, re)
                    =~= frames_pre + (kept + spec_frames_from(rs, i as int + 1, ks, ke, rb, re)));
            }
            let ghost maps_pre = map.spec_entries();
            map_phys_region(region.base_addr, region.length, map)?;
            proof {
                let added = spec_region_maps(
                    spec_align_down(region.base_addr),
                    spec_large_pages(region.length),
                );
                vstd::arithmetic::div_mod::lemma_mod_bound(
                    region.base_addr as int,
                    LARGE_PAGE_SIZE as int,
                );
                if region.length > 0 {
                    vstd::arithmetic::div_mod::lemma_fundamental_div_mod(
                        region.length as int - 1,
                        LARGE_PAGE_SIZE as int,
                    );
                    vstd::arithmetic::div_mod::lemma_mod_bound(
                        region.length as int - 1,
                        LARGE_PAGE_SIZE as int,
                    );
                    assert(LARGE_PAGE_SIZE * spec_large_pages(region.length)
                        < region.length + LARGE_PAGE_SIZE) by (nonlinear_arith)
                        requires
                            spec_large_pages(region.length) == (region.length - 1) / (
                            LARGE_PAGE_SIZE as int) + 1 && region.length as int - 1
                                == LARGE_PAGE_SIZE * ((region.length - 1) / (
                            LARGE_PAGE_SIZE as int)) + (region.length as int - 1) % (
                            LARGE_PAGE_SIZE as int) && 0 <= (region.length as int - 1) % (
                            LARGE_PAGE_SIZE as int),
                    ;
                }
                lemma_region_maps_mirror(
                    spec_align_down(region.base_addr),
                    spec_large_pages(region.length),
                );
                assert(mirror_entries(map.spec_entries())) by {
                    assert forall|j: int|
                        0 <= j < map.spec_entries().len() implies (#[trigger] map.spec_entries()[j]).virt
                        == map.spec_entries()[j].phys + KERNEL_VIRTUAL_UPPER_BASE by {
                        if j < maps_pre.len() {
                            assert(map.spec_entries()[j] == maps_pre[j]);
                        } else {
                            assert(map.spec_entries()[j] == added[j - maps_pre.len()]);
                        }
                    }
                }
                assert(maps_pre + added + spec_maps_from(rs, i as int + 1) =~= maps_pre + (added
                    + spec_maps_from(rs, i as int + 1)));
            }
        }
        i = i + 1;
    }
    Ok(mem_total)
}

/// The pages of the usable regions, counted region by region, never
/// exceed the pages derived from the usable byte total.
pub proof fn lemma_pages_from_le_total(rs: Seq<MemoryRegion>, from: int)
    ensures
        spec_pages_from(rs, from) <= spec_usable_total_from(rs, from) / (SMALL_PAGE_SIZE as int),
        0 <= spec_pages_from(rs, from),
        0 <= spec_usable_total_from(rs, from),
    decreases rs.len() - from,
{
    if 0 <= from && from < rs.len() {
        lemma_pages_from_le_total(rs, from + 1);
        if rs[from].mem_type == MemType::Usable {
            lemma_div_sum(
                rs[from].length as int,
                spec_usable_total_from(rs, from + 1),
                SMALL_PAGE_SIZE as int,
            );
            vstd::arithmetic::div_mod::lemma_div_is_ordered(
                0,
                spec_usable_total_from(rs, from + 1),
                SMALL_PAGE_SIZE as int,
            );
            vstd::arithmetic::div_mod::lemma_div_is_ordered(
                0,
                rs[from].length as int,
                SMALL_PAGE_SIZE as int,
            );
        }
    }
}

/// One unfolding step of a region's kept-frame sequence.
pub proof fn lemma_region_frames_step(base: u64, n: int, ks: u64, ke: u64, rb: u64, re: u64)
    requires
        0 <= n,
    ensures
        spec_region_frames(base, n + 1, ks, ke, rb, re) == if frame_kept(
            base + n * SMALL_PAGE_SIZE,
            ks,
            ke,
            rb,
            re,
        ) {
            spec_region_frames(base, n, ks, ke, rb, re).push((base + n * SMALL_PAGE_SIZE) as u64)
        } else {
            spec_region_frames(base, n, ks, ke, rb, re)
        },
{
}

/// One unfolding step of a region's mirror-mapping sequence.
pub proof fn lemma_region_maps_step(aligned: int, n: int)
    requires
        0 <= n,
    ensures
        spec_region_maps(aligned, n + 1) == spec_region_maps(aligned, n).push(
            MappingRequest {
                virt: (aligned + n * LARGE_PAGE_SIZE + KERNEL_VIRTUAL_UPPER_BASE) as u64,
                phys: (aligned + n * LARGE_PAGE_SIZE) as u64,
                flags: PG_WRITEABLE | PG_GLOBAL,
            },
        ),
{
}

} // verus!
