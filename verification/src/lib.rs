//! Memory-management core of a minimal bare-metal kernel.
//!
//! The crate establishes a virtual heap backed by physical page frames and
//! then serves dynamic allocation requests against that heap:
//!
//! * [`memory`] discovers usable physical frames from the boot memory map,
//!   walks and extends a four-level page table, and translates virtual
//!   addresses.
//! * [`allocator`] maps a fixed virtual heap range and serves allocate /
//!   deallocate requests with three interchangeable strategies (bump,
//!   free-list, segregated fixed-size-block).
//! * [`heap_data`] models the byte contents of the mapped heap region, so
//!   that storing and re-reading values through allocated addresses can be
//!   reasoned about.
//!
//! Hardware access (control registers, raw page-table memory, the spin lock
//! around the global allocator singleton) lives outside this crate; the
//! modules here hold the arithmetic, the data structures and the rules, each
//! with a contract.

pub mod allocator;
pub mod heap_data;
pub mod memory;
