//! Memory virtualization for a RISC-V Sv39 hypervisor: shadow page tables
//! carved out of a table region with a threaded free list, walks that build
//! missing tables on demand, recursive subtree invalidation, and a read-only
//! walker over guest-owned tables.
pub mod memory_region;
pub mod pte;
pub mod page_tables;
pub mod guest;
pub mod flush;
pub mod laws;
pub mod boot;
