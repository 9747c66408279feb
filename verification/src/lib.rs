//! Physical page-frame allocator for a fixed memory region.
//!
//! The region is split into 4096-byte pages; a descriptor table at the
//! start of the region records, for every page, whether it is taken and
//! whether it is the final page of its allocation run.

pub mod page;
