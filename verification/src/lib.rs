//! A verified model of the KnightOS kernel's core logic: the physical frame
//! bitmap, paging entries, the round-robin scheduler, descriptor entries and
//! the framebuffer / text rendering routines.

pub mod backend;
pub mod descriptors;
pub mod display;
pub mod serial;
pub mod user_interface;
pub mod utils;

use vstd::prelude::*;

verus! {

/// The framebuffer geometry and memory size reported by the bootloader.
#[derive(Clone, Copy, Debug, PartialEq, Eq)]
pub struct BootConfig {
    pub fb_addr: u64,
    pub fb_width: u32,
    pub fb_height: u32,
    pub fb_pitch: u32,
    pub fb_bpp: u8,
    pub mem_upper: u32,
}

} // verus!
