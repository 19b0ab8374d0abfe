//! Hypervisor bring-up on top of the frame stack.
//!
//! Entering hypervisor mode needs one 4 KiB physical page per
//! processor for the processor's control region, and one per guest
//! for the guest's state region. Each page is popped from the frame
//! stack and addressed through its mirror in the kernel's upper
//! window. Whether the hardware accepts a region is decided by
//! privileged instructions that the caller runs; their outcome is
//! passed in here, and on failure the page goes back on the stack.

use vstd::prelude::*;

use crate::error::Cause;
use crate::pgstack::FrameStack;
use crate::physmem::phys_to_kernel;
use crate::physmem::KERNEL_VIRTUAL_UPPER_BASE;

verus! {

/// A per-processor region holding hypervisor-mode state.
#[derive(Clone, Copy, Debug, PartialEq, Eq, Structural)]
pub struct VMXONRegion {
    /// Physical address of the region's page.
    pub phys_addr: u64,
    /// Kernel virtual address of the region's page.
    pub virt_addr: u64,
}

/// A per-guest region holding a guest's state.
#[derive(Clone, Copy, Debug, PartialEq, Eq, Structural)]
pub struct VMGuestRegion {
    /// Physical address of the region's page.
    pub phys_addr: u64,
    /// Kernel virtual address of the region's page.
    pub virt_addr: u64,
}

/// Allocate a physical page for a per-processor region. `entered`
/// reports whether the hardware accepted the region and entered
/// hypervisor mode; if it did not, the page goes back on the stack
/// and the call fails.
pub fn new_vmxon_region(stack: &mut FrameStack, entered: bool) -> (r: Result<VMXONRegion, Cause>)
    requires
        old(stack).wf(),
    ensures
        final(stack).wf(),
        final(stack).spec_limit() == old(stack).spec_limit(),
        final(stack).spec_reserved_base() == old(stack).spec_reserved_base(),
        final(stack).spec_reserved_end() == old(stack).spec_reserved_end(),
        old(stack).spec_frames().len() == 0 ==> r == Err::<VMXONRegion, Cause>(
            Cause::FrameStackUnderflow,
        ) && final(stack).spec_frames() == old(stack).spec_frames(),
        old(stack).spec_frames().len() > 0 && !entered ==> r == Err::<VMXONRegion, Cause>(
            Cause::InitFailed,
        ) && final(stack).spec_frames() == old(stack).spec_frames(),
        old(stack).spec_frames().len() > 0 && entered ==> r == Ok::<VMXONRegion, Cause>(
            (VMXONRegion {
                phys_addr: old(stack).spec_frames().last(),
                virt_addr: (old(stack).spec_frames().last() + KERNEL_VIRTUAL_UPPER_BASE) as u64,
            }),
        ) && final(stack).spec_frames() == old(stack).spec_frames().drop_last(),
{
    let phys_base = match stack.pop() {
        Ok(addr) => addr,
        Err(e) => {
            return Err(e);
        },
    };
    let virt_base = phys_to_kernel(phys_base);
    if !entered {
        let pushed = stack.push(phys_base);
        proof {
            assert(pushed is Ok);
            assert(old(stack).spec_frames().drop_last().push(phys_base) =~= old(
                stack,
            ).spec_frames());
        }
        return Err(Cause::InitFailed);
    }
    Ok(VMXONRegion { phys_addr: phys_base, virt_addr: virt_base })
}

/// Allocate a physical page for a per-guest state region.
/// `initialized` reports whether the hardware accepted the region; if
/// it did not, the page goes back on the stack and the call fails.
pub fn new_vmguest_region(stack: &mut FrameStack, initialized: bool) -> (r: Result<
    VMGuestRegion,
    Cause,
>)
    requires
        old(stack).wf(),
    ensures
        final(stack).wf(),
        final(stack).spec_limit() == old(stack).spec_limit(),
        final(stack).spec_reserved_base() == old(stack).spec_reserved_base(),
        final(stack).spec_reserved_end() == old(stack).spec_reserved_end(),
        old(stack).spec_frames().len() == 0 ==> r == Err::<VMGuestRegion, Cause>(
            Cause::FrameStackUnderflow,
        ) && final(stack).spec_frames() == old(stack).spec_frames(),
        old(stack).spec_frames().len() > 0 && !initialized ==> r == Err::<VMGuestRegion, Cause>(
            Cause::InitFailed,
        ) && final(stack).spec_frames() == old(stack).spec_frames(),
        old(stack).spec_frames().len() > 0 && initialized ==> r == Ok::<VMGuestRegion, Cause>(
            (VMGuestRegion {
                phys_addr: old(stack).spec_frames().last(),
                virt_addr: (old(stack).spec_frames().last() + KERNEL_VIRTUAL_UPPER_BASE) as u64,
            }),
        ) && final(stack).spec_frames() == old(stack).spec_frames().drop_last(),
{
    let phys_base = match stack.pop() {
        Ok(addr) => addr,
        Err(e) => {
            return Err(e);
        },
    };
    let virt_base = phys_to_kernel(phys_base);
    if !initialized {
        let pushed = stack.push(phys_base);
        proof {
            assert(pushed is Ok);
            assert(old(stack).spec_frames().drop_last().push(phys_base) =~= old(
                stack,
            ).spec_frames());
        }
        return Err(Cause::InitFailed);
    }
    Ok(VMGuestRegion { phys_addr: phys_base, virt_addr: virt_base })
}

/// Enter hypervisor mode on this processor and create the first
/// guest: one frame for the processor's own region, one for the
/// guest's. `vmxon_ok` and `vcms_ok` report whether the hardware
/// accepted each region. A region the hardware rejects has its frame
/// pushed back; a frame consumed by an accepted region stays
/// consumed, even when a later step fails.
pub fn init(stack: &mut FrameStack, vmxon_ok: bool, vcms_ok: bool) -> (r: Result<(), Cause>)
    requires
        old(stack).wf(),
    ensures
        final(stack).wf(),
        final(stack).spec_limit() == old(stack).spec_limit(),
        final(stack).spec_reserved_base() == old(stack).spec_reserved_base(),
        final(stack).spec_reserved_end() == old(stack).spec_reserved_end(),
        old(stack).spec_frames().len() == 0 ==> r == Err::<(), Cause>(Cause::FrameStackUnderflow)
            && final(stack).spec_frames() == old(stack).spec_frames(),
        old(stack).spec_frames().len() > 0 && !vmxon_ok ==> r == Err::<(), Cause>(
            Cause::InitFailed,
        ) && final(stack).spec_frames() == old(stack).spec_frames(),
        old(stack).spec_frames().len() == 1 && vmxon_ok ==> r == Err::<(), Cause>(
            Cause::FrameStackUnderflow,
        ) && final(stack).spec_frames() == old(stack).spec_frames().drop_last(),
        old(stack).spec_frames().len() >= 2 && vmxon_ok && !vcms_ok ==> r == Err::<(), Cause>(
            Cause::InitFailed,
        ) && final(stack).spec_frames() == old(stack).spec_frames().drop_last(),
        old(stack).spec_frames().len() >= 2 && vmxon_ok && vcms_ok ==> r == Ok::<(), Cause>(())
            && final(stack).spec_frames() == old(stack).spec_frames().drop_last().drop_last(),
{
    let _vmxon_region = new_vmxon_region(stack, vmxon_ok)?;
    let _guest = new_vmguest_region(stack, vcms_ok)?;
    Ok(())
}

} // verus!
