//! Hypervisor bring-up: frames for the processor and guest regions
//! come off the frame stack and go back when the hardware says no.

use hvmem::error::Cause;
use hvmem::hv::init;
use hvmem::hv::new_vmxon_region;
use hvmem::pgstack::FrameStack;
use hvmem::physmem::KERNEL_VIRTUAL_UPPER_BASE;

fn stack_with(frames: &[u64]) -> FrameStack {
    let mut stack = FrameStack::new(0, 0);
    stack.set_limit(16).unwrap();
    for &f in frames {
        stack.push(f).unwrap();
    }
    stack
}

#[test]
fn hv_init_consumes_one_frame_per_region() {
    let mut stack = stack_with(&[0x1000, 0x2000]);
    assert_eq!(init(&mut stack, true, true), Ok(()));
    assert_eq!(stack.depth(), 0);
}

#[test]
fn a_rejected_processor_region_returns_its_frame() {
    let mut stack = stack_with(&[0x1000, 0x2000]);
    assert_eq!(init(&mut stack, false, true), Err(Cause::InitFailed));
    assert_eq!(stack.depth(), 2);
    assert_eq!(stack.pop(), Ok(0x2000));
}

#[test]
fn a_rejected_guest_region_returns_its_frame() {
    let mut stack = stack_with(&[0x1000, 0x2000]);
    assert_eq!(init(&mut stack, true, false), Err(Cause::InitFailed));
    // The processor region's frame stays consumed; the guest's frame
    // went back.
    assert_eq!(stack.depth(), 1);
    assert_eq!(stack.pop(), Ok(0x1000));
}

#[test]
fn hv_init_without_frames_underflows() {
    let mut stack = stack_with(&[]);
    assert_eq!(init(&mut stack, true, true), Err(Cause::FrameStackUnderflow));
    assert_eq!(stack.depth(), 0);
}

#[test]
fn hv_init_with_one_frame_underflows_on_the_guest() {
    let mut stack = stack_with(&[0x1000]);
    assert_eq!(init(&mut stack, true, true), Err(Cause::FrameStackUnderflow));
    assert_eq!(stack.depth(), 0);
}

#[test]
fn a_processor_region_addresses_its_frame_through_the_mirror() {
    let mut stack = stack_with(&[0x3000]);
    let region = new_vmxon_region(&mut stack, true).unwrap();
    assert_eq!(region.phys_addr, 0x3000);
    assert_eq!(region.virt_addr, 0x3000 + KERNEL_VIRTUAL_UPPER_BASE);
    assert_eq!(stack.depth(), 0);
}
