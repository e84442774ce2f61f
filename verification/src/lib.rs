//! A small virtual machine for a classic 16-bit hobby-computer instruction
//! set: 4 KiB of memory, sixteen 8-bit registers, a 64x32 monochrome
//! framebuffer, a sixteen-key keypad and two countdown timers.
//!
//! The engine performs no I/O of its own: a host drives it by calling
//! [`chip8::Chip8::clock`] repeatedly, ticking the timers at a fixed rate and
//! presenting the framebuffer however it likes.
use vstd::prelude::*;

pub mod chip8;
pub mod isa;
pub mod laws;

verus! {

/// Width of the framebuffer in pixels.
pub const SCREEN_WIDTH: usize = 64;

/// Height of the framebuffer in pixels.
pub const SCREEN_HEIGHT: usize = 32;

/// Pixel scale factor a host window may use when presenting the framebuffer.
pub const SCALE: u32 = 15;

/// Conventional number of `clock` calls a host makes per timer tick.
pub const TICKS_PER_FRAME: usize = 10;

} // verus!
