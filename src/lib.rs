//! Core of a small ARMv6 kernel: physical frame allocation, a self-mapped
//! two-level page-table engine, thread context bookkeeping, a round-robin
//! scheduler and a per-CPU mutex, all modelled over plain values so that
//! every rule is checked by Verus.
pub mod mem;
pub mod frame;
pub mod desc;
pub mod machine;
pub mod paging;
pub mod thread;
pub mod sched;
pub mod sync;
pub mod vector;
pub mod serial;
pub mod manager;
