//! A verified virtual machine for a fixed 8-bit instruction set: processor
//! state (registers, program counter, stack), a byte-addressable memory
//! pre-seeded with a character set, a monochrome framebuffer with XOR sprite
//! drawing, a sixteen-key keypad, and two countdown timers, advanced one
//! instruction at a time under host-driven timing.
//!
//! The host loads a program with `chip8::Chip8::chip8_load`, calls `tick`
//! some number of times per frame and `tick_timers` once per frame, feeds
//! key transitions to the keyboard, and reads the framebuffer for
//! presentation.

pub mod chip8;
pub mod config;
pub mod keyboard;
pub mod memory;
pub mod registers;
pub mod screen;
pub mod stack;
