//! Core of a teaching operating-system kernel: process and thread lifecycle,
//! a stride scheduler, mutex / semaphore / condition-variable primitives with
//! a Banker's-style deadlock detector, and the memory-mapping and timing
//! syscalls that depend on the scheduler's notion of the current thread.
//!
//! The hardware collaborators (trap entry, page-table walks, the ELF loader,
//! the interrupt timer) are out of scope; the kernel state they feed is
//! modelled as plain data, so every rule in this crate is stated as a
//! contract and proved.
use vstd::prelude::*;

pub mod detect;
pub mod kernel;
pub mod mem;
pub mod sysproc;
pub mod syssync;
pub mod task;

verus! {

/// Size of one page of the address space, in bytes.
pub const PAGE_SIZE: usize = 4096;

} // verus!
