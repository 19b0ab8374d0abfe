//! The system's physical page-frame stack.
//!
//! A stack of 4 KiB frame addresses with a fixed capacity limit, plus a
//! collision check against the reserved range that holds the stack's
//! own bookkeeping pages. Discovery sizes the stack first (pass one)
//! and then pushes every reclaimable frame (pass two); the hypervisor
//! later pops frames for its own structures.

use vstd::prelude::*;

use crate::error::Cause;
use crate::physmem::PHYS_ADDR_LIMIT;

verus! {

/// A stack of physical page-frame addresses with a capacity limit and
/// a reserved range for its own bookkeeping.
pub struct FrameStack {
    /// The stacked frame addresses; the last entry is the top.
    frames: Vec<u64>,
    /// Maximum number of entries the stack may hold.
    limit: u64,
    /// Lowest address of the stack's reserved bookkeeping range.
    reserved_base: u64,
    /// One past the highest address of the reserved range.
    reserved_end: u64,
}

impl FrameStack {
    /// The stacked frames, bottom first.
    pub closed spec fn spec_frames(&self) -> Seq<u64> {
        self.frames@
    }

    /// The capacity limit, in entries.
    pub closed spec fn spec_limit(&self) -> u64 {
        self.limit
    }

    /// Lowest address of the reserved bookkeeping range.
    pub closed spec fn spec_reserved_base(&self) -> u64 {
        self.reserved_base
    }

    /// One past the highest address of the reserved range.
    pub closed spec fn spec_reserved_end(&self) -> u64 {
        self.reserved_end
    }

    /// The stack invariant: it is within its limit and holds only
    /// addresses inside the physical window that the kernel mirrors.
    pub open spec fn wf(&self) -> bool {
        &&& self.spec_frames().len() <= self.spec_limit()
        &&& forall|i: int|
            0 <= i < self.spec_frames().len() ==> (#[trigger] self.spec_frames()[i])
                < PHYS_ADDR_LIMIT
    }

    /// An empty stack whose bookkeeping pages live in
    /// `[reserved_base, reserved_end)`; frames in that range are
    /// reported as collisions and never stacked.
    pub fn new(reserved_base: u64, reserved_end: u64) -> (s: FrameStack)
        ensures
            s.wf(),
            s.spec_frames() == Seq::<u64>::empty(),
            s.spec_limit() == 0,
            s.spec_reserved_base() == reserved_base,
            s.spec_reserved_end() == reserved_end,
    {
        FrameStack { frames: Vec::new(), limit: 0, reserved_base, reserved_end }
    }

    /// Fix the capacity limit, once the discovery pass has counted the
    /// system's pages.
    pub fn set_limit(&mut self, pages: u64) -> (r: Result<(), Cause>)
        requires
            old(self).wf(),
            old(self).spec_frames().len() <= pages,
        ensures
            final(self).wf(),
            r == Ok::<(), Cause>(()),
            final(self).spec_limit() == pages,
            final(self).spec_frames() == old(self).spec_frames(),
            final(self).spec_reserved_base() == old(self).spec_reserved_base(),
            final(self).spec_reserved_end() == old(self).spec_reserved_end(),
    {
        self.limit = pages;
        Ok(())
    }

    /// Push a frame address, unless the stack is at its limit.
    pub fn push(&mut self, addr: u64) -> (r: Result<(), Cause>)
        requires
            old(self).wf(),
            addr < PHYS_ADDR_LIMIT,
        ensures
            final(self).wf(),
            final(self).spec_limit() == old(self).spec_limit(),
            final(self).spec_reserved_base() == old(self).spec_reserved_base(),
            final(self).spec_reserved_end() == old(self).spec_reserved_end(),
            old(self).spec_frames().len() < old(self).spec_limit() ==> r == Ok::<(), Cause>(())
                && final(self).spec_frames() == old(self).spec_frames().push(addr),
            old(self).spec_frames().len() >= old(self).spec_limit() ==> r == Err::<(), Cause>(
                Cause::FrameStackExhausted,
            ) && final(self).spec_frames() == old(self).spec_frames(),
    {
        if (self.frames.len() as u64) < self.limit {
            self.frames.push(addr);
            Ok(())
        } else {
            Err(Cause::FrameStackExhausted)
        }
    }

    /// Pop the most recently stacked frame address.
    pub fn pop(&mut self) -> (r: Result<u64, Cause>)
        requires
            old(self).wf(),
        ensures
            final(self).wf(),
            final(self).spec_limit() == old(self).spec_limit(),
            final(self).spec_reserved_base() == old(self).spec_reserved_base(),
            final(self).spec_reserved_end() == old(self).spec_reserved_end(),
            old(self).spec_frames().len() == 0 ==> r == Err::<u64, Cause>(
                Cause::FrameStackUnderflow,
            ) && final(self).spec_frames() == old(self).spec_frames(),
            old(self).spec_frames().len() > 0 ==> r == Ok::<u64, Cause>(
                old(self).spec_frames().last(),
            ) && final(self).spec_frames() == old(self).spec_frames().drop_last(),
    {
        match self.frames.pop() {
            Some(addr) => Ok(addr),
            None => Err(Cause::FrameStackUnderflow),
        }
    }

    /// Would stacking this address collide with the stack's own
    /// bookkeeping range?
    pub fn check_collision(&self, addr: u64) -> (r: bool)
        ensures
            r == (self.spec_reserved_base() <= addr < self.spec_reserved_end()),
    {
        self.reserved_base <= addr && addr < self.reserved_end
    }

    /// How many frames are stacked right now.
    pub fn depth(&self) -> (n: usize)
        ensures
            n == self.spec_frames().len(),
    {
        self.frames.len()
    }
}

} // verus!
