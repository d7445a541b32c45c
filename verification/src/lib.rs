//! Early-boot memory discovery: from what the firmware reports to a
//! partition of physical memory that the memory manager can rely on.
//!
//! * [`memory`]: regions of physical memory, their types, and how types
//!   are ranked and regions ordered.
//! * [`partition`]: what it means for regions that overlap to resolve to a
//!   partition, and what follows from it.
//! * [`normalize`]: sorting regions and resolving their overlaps.
//! * [`window`]: the window through which physical memory is read.
//! * [`bootinfo`]: from the memory map and the modules of a boot record to
//!   what kernel initialisation is handed.

pub mod bootinfo;
pub mod memory;
pub mod normalize;
pub mod partition;
pub mod window;
