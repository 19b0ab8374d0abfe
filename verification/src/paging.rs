//! The kernel's boot page-table interface, as consumed by discovery:
//! a recorder of 2 MiB page mappings into the kernel's virtual space.
//!
//! Discovery mirrors all of physical memory into the upper kernel
//! window, so every request it issues maps `phys + upper base -> phys`.
//! A request whose virtual page is already mapped to a different
//! physical page is a conflict and is rejected.

use vstd::prelude::*;

use crate::error::Cause;

verus! {

/// Mapped pages may be written by the kernel.
pub const PG_WRITEABLE: u64 = 0x1;

/// Mapped pages are global: kept in the TLB across address-space
/// switches.
pub const PG_GLOBAL: u64 = 0x2;

/// One accepted 2 MiB page mapping request.
#[derive(Clone, Copy, Debug, PartialEq, Eq, Structural)]
pub struct MappingRequest {
    /// Kernel virtual address of the mapped page.
    pub virt: u64,
    /// Physical address the page maps to.
    pub phys: u64,
    /// Page flags, a combination of `PG_WRITEABLE` and `PG_GLOBAL`.
    pub flags: u64,
}

/// Would mapping `virt -> phys` conflict with an entry of `entries`,
/// by re-mapping an occupied virtual page somewhere else?
pub open spec fn conflicts(entries: Seq<MappingRequest>, virt: u64, phys: u64) -> bool {
    exists|i: int| 0 <= i < entries.len() && (#[trigger] entries[i]).virt == virt
        && entries[i].phys != phys
}

/// The kernel's table of large-page mappings.
pub struct KernelMappings {
    /// Every accepted mapping request, in order of acceptance.
    entries: Vec<MappingRequest>,
}

impl KernelMappings {
    /// The accepted mapping requests, in order.
    pub closed spec fn spec_entries(&self) -> Seq<MappingRequest> {
        self.entries@
    }

    /// A table with no mappings yet.
    pub fn new() -> (m: KernelMappings)
        ensures
            m.spec_entries() == Seq::<MappingRequest>::empty(),
    {
        KernelMappings { entries: Vec::new() }
    }

    /// Map one 2 MiB page at `virt` onto the physical page at `phys`.
    /// The request is recorded unless `virt` is already mapped to a
    /// different physical page.
    pub fn map_large_page(&mut self, virt: u64, phys: u64, flags: u64) -> (r: Result<
        (),
        Cause,
    >)
        ensures
            !conflicts(old(self).spec_entries(), virt, phys) ==> r == Ok::<(), Cause>(())
                && final(self).spec_entries() == old(self).spec_entries().push(
                MappingRequest { virt, phys, flags },
            ),
            conflicts(old(self).spec_entries(), virt, phys) ==> r == Err::<(), Cause>(
                Cause::MapFailed,
            ) && final(self).spec_entries() == old(self).spec_entries(),
    {
        let n = self.entries.len();
        for i in 0..n
            invariant
                n == self.spec_entries().len(),
                forall|j: int|
                    0 <= j < i ==> !((#[trigger] self.spec_entries()[j]).virt == virt
                        && self.spec_entries()[j].phys != phys),
        {
            let e = self.entries[i];
            if e.virt == virt && e.phys != phys {
                return Err(Cause::MapFailed);
            }
        }
        self.entries.push(MappingRequest { virt, phys, flags });
        Ok(())
    }

    /// How many mapping requests have been accepted.
    pub fn count(&self) -> (n: usize)
        ensures
            n == self.spec_entries().len(),
    {
        self.entries.len()
    }

    /// The `i`-th accepted mapping request.
    pub fn entry_at(&self, i: usize) -> (e: MappingRequest)
        requires
            i < self.spec_entries().len(),
        ensures
            e == self.spec_entries()[i as int],
    {
        self.entries[i]
    }
}

} // verus!
