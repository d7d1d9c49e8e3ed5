//! Fixed machine parameters: sizes of the memory, register file, stack,
//! keypad and framebuffer, and the program / font load addresses.

use vstd::prelude::*;

verus! {

pub const CHIP_8_MEMORY_SIZE: usize = 4096;
pub const CHIP8_PROGRAM_LOAD_ADDRESS: usize = 512;
pub const CHIP_8_TOTAL_DATA_REGISTER: usize = 16;
pub const CHIP_8_TOTAL_STACK_DEPTH: usize = 16;
pub const CHIP_8_TOTAL_KEYS: usize = 16;
pub const CHIP_8_WIDTH: usize = 64;
pub const CHIP_8_HEIGHT: usize = 32;
pub const CHIP8_DEFAULT_SPRITE_HEIGHT: u16 = 5;
pub const CHIP_8_DEFAULT_CHARACTER_SET_LOAD_ADDRESS: usize = 0;

} // verus!
