//! Early-boot physical memory management: a frame allocator that walks the
//! memory areas reported by the boot loader while skipping the frames that
//! hold the kernel image and the boot information, plus the text-mode
//! console model used to report progress.
use vstd::prelude::*;

pub mod boot;
pub mod memory;
pub mod vga;
