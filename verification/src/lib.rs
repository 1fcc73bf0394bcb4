//! Intra-process isolation runtime built on x86-64 memory protection keys.
//!
//! Mutually distrusting compartments share one address space; each owns a
//! 4-bit protection key and the per-thread PKRU register decides which keys
//! may be read or written at any instant. This crate holds the verified
//! logic of that runtime: the PKRU bit manipulation, the call-gate stack of
//! saved PKRU words, the compartment key-slot table, the segment walker's
//! range arithmetic, the shadow memory map consulted by the syscall tracer,
//! and the pointer type registry checked at trust boundaries.

pub mod gate;
pub mod pkru;
pub mod region;
pub mod registry;
pub mod slots;
pub mod walker;
pub mod memmap;
pub mod tree;
