//! A virtual machine for a 32-bit MIPS-like processor that runs many guest
//! tasks cooperatively over a shared, paged address space.
//!
//! - `page`, `memory`: 64 KiB pages, the shared page store, and the byte,
//!   halfword and word model of memory seen through a per-slice view.
//! - `isa`, `interp`: instruction decoding and semantics, each instruction
//!   stated as a spec function, and the interpreter loop.
//! - `scheduler`: earliest-available-first scheduling with an adaptive quantum.
//! - `taskpool`, `system`: live tasks, system calls, and the orchestration of
//!   one execution slice at a time.
use vstd::prelude::*;

pub mod ids;
pub mod page;
pub mod memory;
pub mod task;
pub mod isa;
pub mod scheduler;
pub mod taskpool;
pub mod system;
pub mod interp;

verus! {

} // verus!
