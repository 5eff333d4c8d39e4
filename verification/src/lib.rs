//! Core of a small AArch64 microkernel, modelled over plain values so that it
//! can be verified: the four-level page-table engine with copy-on-write fork,
//! the page-fault handler, the task table with context switching, synchronous
//! message IPC, and the exception / system-call decode paths.

use vstd::prelude::*;

pub mod context;
pub mod entry;
pub mod exec;
pub mod fault;
pub mod exception;
pub mod fork;
pub mod mem;
pub mod stack;
pub mod table;
pub mod task;
pub mod timer;

verus! {

/// Size in bytes of one page / frame.
pub const PAGE_SIZE: u64 = 4096;

/// The error kinds the kernel surfaces.
#[derive(Clone, Copy, PartialEq, Eq, Structural, Debug)]
pub enum KernelError {
    /// The frame pool is exhausted.
    OutOfMemory,
    /// An address is outside the half or alignment an operation allows.
    InvalidAddress,
    /// The caller may not perform the operation.
    PermissionDenied,
    /// No task has the given id.
    NoSuchTask,
    /// A receive found no matching message.
    InboxEmpty,
    /// The operation code is not recognised.
    Unsupported,
}

/// A page-aligned address has its low twelve bits clear.
pub open spec fn page_aligned(a: u64) -> bool {
    a % PAGE_SIZE == 0
}

/// Round an address down to the start of its page.
pub fn page_base(a: u64) -> (r: u64)
    ensures
        r == a - a % PAGE_SIZE,
        page_aligned(r),
{
    a / PAGE_SIZE * PAGE_SIZE
}

} // verus!
