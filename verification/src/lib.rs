//! A model of a minimal cooperative multitasking kernel for a single-core
//! microcontroller: fixed execution contexts sharing one CPU, a round-robin
//! scheduler driven by a trapped-call (syscall) protocol, a spinlock-style
//! mutex, and a free-list heap allocator.
//!
//! The hardware-facing pieces (the context-switch instruction sequence, the
//! trap vector, the GPIO drivers) live outside this crate; here each is
//! replaced by the narrow, architecture-agnostic operation the kernel logic
//! actually depends on, so that scheduling, dispatch, locking and allocation
//! are stated and proved over plain values.

pub mod allocator;
pub mod mutex;
pub mod process;
pub mod scheduler;
