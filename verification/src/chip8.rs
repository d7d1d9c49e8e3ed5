//! The machine itself: it owns the memory, register file, stack, keypad and
//! framebuffer, and implements program loading, the fetch/decode/execute
//! cycle and the per-frame timer countdown.
//!
//! Every state transition is specified against [`Chip8View`], a mathematical
//! model of the whole machine. A fault (an address past the end of memory, a
//! full or empty call stack, a key index past the keypad, an opcode outside
//! the instruction table) is reported as an error instead of a panic; a
//! faulting instruction changes nothing beyond the program counter having
//! moved past it.

use vstd::prelude::*;

use crate::config::{
    CHIP8_DEFAULT_SPRITE_HEIGHT, CHIP8_PROGRAM_LOAD_ADDRESS, CHIP_8_HEIGHT, CHIP_8_MEMORY_SIZE,
    CHIP_8_TOTAL_DATA_REGISTER, CHIP_8_TOTAL_KEYS, CHIP_8_TOTAL_STACK_DEPTH, CHIP_8_WIDTH,
};
use crate::keyboard::Chip8Keyboard;
use crate::memory::{initial_memory, opcode_at, Chip8Memory};
use crate::registers::Chip8Regsiters;
use crate::screen::{
    blank_screen, draw_sprite_collision, draw_sprite_spec, screen_wf, Chip8Screen,
};
use crate::stack::Chip8Stack;

verus! {

/// A fault that stops execution: the taxonomy of fatal conditions.
#[derive(Clone, Copy, Debug, PartialEq, Eq, Structural)]
pub enum Chip8Error {
    /// A program larger than the space above the load address.
    LoadOverflow,
    /// A decoded instruction pattern outside the instruction table.
    UnknownOpcode,
    /// A memory access past the end of the address space.
    MemoryOutOfBounds,
    /// A call with all stack slots in use.
    StackOverflow,
    /// A return with no call outstanding.
    StackUnderflow,
    /// A key-testing instruction with a register value past the keypad.
    KeyOutOfRange,
}

/// The whole machine state as mathematical values.
#[verifier::ext_equal]
pub struct Chip8View {
    pub mem: Seq<u8>,
    pub v: Seq<u8>,
    pub i: u16,
    pub dt: u8,
    pub st: u8,
    pub pc: u16,
    pub sp: u16,
    pub stack: Seq<u16>,
    pub keys: Seq<bool>,
    pub pixels: Seq<Seq<bool>>,
}

/// Shape of a well-formed machine state; the stack pointer never runs past
/// the stack (a call on a full stack faults instead of pushing).
pub open spec fn wf_view(s: Chip8View) -> bool {
    &&& s.mem.len() == CHIP_8_MEMORY_SIZE
    &&& s.v.len() == CHIP_8_TOTAL_DATA_REGISTER
    &&& s.stack.len() == CHIP_8_TOTAL_STACK_DEPTH
    &&& s.keys.len() == CHIP_8_TOTAL_KEYS
    &&& screen_wf(s.pixels)
    &&& s.sp <= CHIP_8_TOTAL_STACK_DEPTH
}

/// The machine state right after construction.
pub open spec fn initial_machine() -> Chip8View {
    Chip8View {
        mem: initial_memory(),
        v: Seq::new(CHIP_8_TOTAL_DATA_REGISTER as nat, |j: int| 0u8),
        i: 0u16,
        dt: 0u8,
        st: 0u8,
        pc: 0u16,
        sp: 0u16,
        stack: Seq::new(CHIP_8_TOTAL_STACK_DEPTH as nat, |j: int| 0u16),
        keys: Seq::new(CHIP_8_TOTAL_KEYS as nat, |j: int| false),
        pixels: blank_screen(),
    }
}

/// Highest nibble of an instruction word: the instruction family.
pub open spec fn op_d1(op: u16) -> u16 {
    op / 0x1000
}

/// Second nibble: the register index x.
pub open spec fn op_d2(op: u16) -> u16 {
    (op / 0x100) % 0x10
}

/// Third nibble: the register index y.
pub open spec fn op_d3(op: u16) -> u16 {
    (op / 0x10) % 0x10
}

/// Lowest nibble: the short immediate n.
pub open spec fn op_d4(op: u16) -> u16 {
    op % 0x10
}

/// Low byte: the immediate nn.
pub open spec fn op_nn(op: u16) -> u8 {
    (op % 0x100) as u8
}

/// Low 12 bits: the address immediate nnn.
pub open spec fn op_nnn(op: u16) -> u16 {
    op % 0x1000
}

/// The state with the program counter moved past the instruction word at it.
pub open spec fn advance(s: Chip8View) -> Chip8View {
    Chip8View { pc: (s.pc + 2) as u16, ..s }
}

/// The lowest-numbered key that is down, scanning from key `k` upward.
pub open spec fn first_key_down_from(keys: Seq<bool>, k: int) -> Option<int>
    decreases CHIP_8_TOTAL_KEYS - k,
{
    if k < 0 || k >= CHIP_8_TOTAL_KEYS {
        None
    } else if keys[k] {
        Some(k)
    } else {
        first_key_down_from(keys, k + 1)
    }
}

/// A prefix of keys that are all up does not change the scan's outcome.
proof fn lemma_first_key_down_skip(keys: Seq<bool>, k: int)
    requires
        0 <= k <= CHIP_8_TOTAL_KEYS,
        forall|j: int| 0 <= j < k ==> !keys[j],
    ensures
        first_key_down_from(keys, 0) == first_key_down_from(keys, k),
    decreases k,
{
    if k > 0 {
        lemma_first_key_down_skip(keys, k - 1);
    }
}

/// Effect of the arithmetic/logic family (high nibble 8) on the register
/// file: the low nibble picks the operation; results wrap at a byte, and the
/// flag register VF receives the carry, borrow or shifted-out bit last, so
/// it wins when x is itself 0xF.
pub open spec fn alu_spec(s: Chip8View, op: u16) -> Result<Chip8View, Chip8Error> {
    let x = op_d2(op) as int;
    let y = op_d3(op) as int;
    let n = op_d4(op);
    let vx = s.v[x];
    let vy = s.v[y];
    if n == 0 {
        Ok(Chip8View { v: s.v.update(x, vy), ..s })
    } else if n == 1 {
        Ok(Chip8View { v: s.v.update(x, vx | vy), ..s })
    } else if n == 2 {
        Ok(Chip8View { v: s.v.update(x, vx & vy), ..s })
    } else if n == 3 {
        Ok(Chip8View { v: s.v.update(x, vx ^ vy), ..s })
    } else if n == 4 {
        let new_vx = ((vx + vy) % 256) as u8;
        let new_vf: u8 = if vx + vy > 255 { 1 } else { 0 };
        Ok(Chip8View { v: s.v.update(x, new_vx).update(0xF, new_vf), ..s })
    } else if n == 5 {
        let new_vx = (if vx >= vy { vx - vy } else { vx - vy + 256 }) as u8;
        let new_vf: u8 = if vx < vy { 0 } else { 1 };
        Ok(Chip8View { v: s.v.update(x, new_vx).update(0xF, new_vf), ..s })
    } else if n == 6 {
        Ok(Chip8View { v: s.v.update(x, (vx / 2) as u8).update(0xF, (vx % 2) as u8), ..s })
    } else if n == 7 {
        let new_vx = (if vy >= vx { vy - vx } else { vy - vx + 256 }) as u8;
        let new_vf: u8 = if vy < vx { 0 } else { 1 };
        Ok(Chip8View { v: s.v.update(x, new_vx).update(0xF, new_vf), ..s })
    } else if n == 0xE {
        Ok(Chip8View { v: s.v.update(x, ((vx * 2) % 256) as u8).update(0xF, (vx / 128) as u8), ..s })
    } else {
        Err(Chip8Error::UnknownOpcode)
    }
}

/// Effect of the miscellaneous family (high nibble F), selected by the low
/// byte: timers, wait-for-key, index arithmetic, the glyph address, binary
/// coded decimal, and the register block store/load.
pub open spec fn misc_spec(s: Chip8View, op: u16) -> Result<Chip8View, Chip8Error> {
    let x = op_d2(op) as int;
    let nn = op_nn(op);
    let vx = s.v[x];
    if nn == 0x07 {
        Ok(Chip8View { v: s.v.update(x, s.dt), ..s })
    } else if nn == 0x0A {
        match first_key_down_from(s.keys, 0) {
            Some(k) => Ok(Chip8View { v: s.v.update(x, k as u8), ..s }),
            None => Ok(Chip8View { pc: (s.pc - 2) as u16, ..s }),
        }
    } else if nn == 0x15 {
        Ok(Chip8View { dt: vx, ..s })
    } else if nn == 0x18 {
        Ok(Chip8View { st: vx, ..s })
    } else if nn == 0x1E {
        Ok(Chip8View { i: ((s.i + vx) % 0x10000) as u16, ..s })
    } else if nn == 0x29 {
        Ok(Chip8View { i: (vx * CHIP8_DEFAULT_SPRITE_HEIGHT) as u16, ..s })
    } else if nn == 0x33 {
        if s.i + 2 >= CHIP_8_MEMORY_SIZE {
            Err(Chip8Error::MemoryOutOfBounds)
        } else {
            Ok(
                Chip8View {
                    mem: s.mem.update(s.i as int, (vx / 100) as u8).update(
                        s.i + 1,
                        ((vx / 10) % 10) as u8,
                    ).update(s.i + 2, (vx % 10) as u8),
                    ..s
                },
            )
        }
    } else if nn == 0x55 {
        if s.i + x >= CHIP_8_MEMORY_SIZE {
            Err(Chip8Error::MemoryOutOfBounds)
        } else {
            Ok(
                Chip8View {
                    mem: Seq::new(
                        CHIP_8_MEMORY_SIZE as nat,
                        |j: int|
                            if s.i <= j <= s.i + x {
                                s.v[j - s.i]
                            } else {
                                s.mem[j]
                            },
                    ),
                    ..s
                },
            )
        }
    } else if nn == 0x65 {
        if s.i + x >= CHIP_8_MEMORY_SIZE {
            Err(Chip8Error::MemoryOutOfBounds)
        } else {
            Ok(
                Chip8View {
                    v: Seq::new(
                        CHIP_8_TOTAL_DATA_REGISTER as nat,
                        |j: int|
                            if 0 <= j <= x {
                                s.mem[s.i + j]
                            } else {
                                s.v[j]
                            },
                    ),
                    ..s
                },
            )
        }
    } else {
        Err(Chip8Error::UnknownOpcode)
    }
}

/// Effect of executing the instruction word `op` on a machine whose program
/// counter has already moved past it. `rnd` is the byte drawn for the
/// random-number instruction; every other instruction ignores it.
pub open spec fn execute_spec(s: Chip8View, op: u16, rnd: u8) -> Result<Chip8View, Chip8Error> {
    let d1 = op_d1(op);
    let x = op_d2(op) as int;
    let y = op_d3(op) as int;
    let n = op_d4(op);
    let nn = op_nn(op);
    let nnn = op_nnn(op);
    let vx = s.v[x];
    let vy = s.v[y];
    if d1 == 0 {
        if op == 0x0000 {
            // no-op
            Ok(s)
        } else if op == 0x00E0 {
            // clear screen
            Ok(Chip8View { pixels: blank_screen(), ..s })
        } else if op == 0x00EE {
            // return: pop the stack into the program counter
            if s.sp == 0 {
                Err(Chip8Error::StackUnderflow)
            } else {
                Ok(Chip8View { sp: (s.sp - 1) as u16, pc: s.stack[s.sp - 1], ..s })
            }
        } else {
            Err(Chip8Error::UnknownOpcode)
        }
    } else if d1 == 1 {
        // jump
        Ok(Chip8View { pc: nnn, ..s })
    } else if d1 == 2 {
        // call: push the address after the call, jump
        if s.sp >= CHIP_8_TOTAL_STACK_DEPTH {
            Err(Chip8Error::StackOverflow)
        } else {
            Ok(
                Chip8View {
                    stack: s.stack.update(s.sp as int, s.pc),
                    sp: (s.sp + 1) as u16,
                    pc: nnn,
                    ..s
                },
            )
        }
    } else if d1 == 3 {
        // skip next instruction if Vx == nn
        Ok(Chip8View { pc: if vx == nn { (s.pc + 2) as u16 } else { s.pc }, ..s })
    } else if d1 == 4 {
        // skip next instruction if Vx != nn
        Ok(Chip8View { pc: if vx != nn { (s.pc + 2) as u16 } else { s.pc }, ..s })
    } else if d1 == 5 {
        // skip next instruction if Vx == Vy
        Ok(Chip8View { pc: if vx == vy { (s.pc + 2) as u16 } else { s.pc }, ..s })
    } else if d1 == 6 {
        Ok(Chip8View { v: s.v.update(x, nn), ..s })
    } else if d1 == 7 {
        // add immediate, wrapping, no flag update
        Ok(Chip8View { v: s.v.update(x, ((vx + nn) % 256) as u8), ..s })
    } else if d1 == 8 {
        alu_spec(s, op)
    } else if d1 == 9 {
        // skip next instruction if Vx != Vy
        if n == 0 {
            Ok(Chip8View { pc: if vx != vy { (s.pc + 2) as u16 } else { s.pc }, ..s })
        } else {
            Err(Chip8Error::UnknownOpcode)
        }
    } else if d1 == 0xA {
        Ok(Chip8View { i: nnn, ..s })
    } else if d1 == 0xB {
        // jump to V0 + nnn
        Ok(Chip8View { pc: (s.v[0] + nnn) as u16, ..s })
    } else if d1 == 0xC {
        // random byte masked by nn
        Ok(Chip8View { v: s.v.update(x, rnd & nn), ..s })
    } else if d1 == 0xD {
        // draw an n-row sprite from memory[I..I+n] at (Vx, Vy)
        if s.i + n > CHIP_8_MEMORY_SIZE {
            Err(Chip8Error::MemoryOutOfBounds)
        } else {
            let sprite = s.mem.subrange(s.i as int, s.i + n);
            let collision = draw_sprite_collision(s.pixels, vx as int, vy as int, sprite);
            Ok(
                Chip8View {
                    pixels: draw_sprite_spec(s.pixels, vx as int, vy as int, sprite),
                    v: s.v.update(0xF, if collision { 1u8 } else { 0u8 }),
                    ..s
                },
            )
        }
    } else if d1 == 0xE {
        if nn == 0x9E {
            // skip next instruction if key Vx is down
            if vx >= CHIP_8_TOTAL_KEYS {
                Err(Chip8Error::KeyOutOfRange)
            } else {
                Ok(Chip8View { pc: if s.keys[vx as int] { (s.pc + 2) as u16 } else { s.pc }, ..s })
            }
        } else if nn == 0xA1 {
            // skip next instruction if key Vx is up
            if vx >= CHIP_8_TOTAL_KEYS {
                Err(Chip8Error::KeyOutOfRange)
            } else {
                Ok(Chip8View { pc: if !s.keys[vx as int] { (s.pc + 2) as u16 } else { s.pc }, ..s })
            }
        } else {
            Err(Chip8Error::UnknownOpcode)
        }
    } else {
        misc_spec(s, op)
    }
}

/// One whole fetch/decode/execute step from state `pre` with random byte
/// `rnd`: fetching past the end of memory is a fault that changes nothing;
/// a fault during execution leaves everything but the advanced program
/// counter unchanged.
pub open spec fn step_result_matches(
    pre: Chip8View,
    post: Chip8View,
    rnd: u8,
    r: Result<(), Chip8Error>,
) -> bool {
    if pre.pc + 1 < CHIP_8_MEMORY_SIZE {
        match execute_spec(advance(pre), opcode_at(pre.mem, pre.pc as int), rnd) {
            Ok(s2) => r == Ok::<(), Chip8Error>(()) && post == s2,
            Err(e) => r == Err::<(), Chip8Error>(e) && post == advance(pre),
        }
    } else {
        r == Err::<(), Chip8Error>(Chip8Error::MemoryOutOfBounds) && post == pre
    }
}

/// The whole step as a function of the state and the drawn random byte.
pub open spec fn step_spec(s: Chip8View, rnd: u8) -> Result<Chip8View, Chip8Error> {
    if s.pc + 1 < CHIP_8_MEMORY_SIZE {
        execute_spec(advance(s), opcode_at(s.mem, s.pc as int), rnd)
    } else {
        Err(Chip8Error::MemoryOutOfBounds)
    }
}

/// The state after a push: the value lands in the slot the stack pointer
/// names, and the stack pointer moves up.
pub open spec fn stack_push_view(s: Chip8View, val: u16) -> Chip8View {
    Chip8View { stack: s.stack.update(s.sp as int, val), sp: (s.sp + 1) as u16, ..s }
}

/// The state after a pop: only the stack pointer moves down.
pub open spec fn stack_pop_view(s: Chip8View) -> Chip8View {
    Chip8View { sp: (s.sp - 1) as u16, ..s }
}

/// The value a pop returns: the slot below the stack pointer.
pub open spec fn stack_pop_value(s: Chip8View) -> u16 {
    s.stack[s.sp - 1]
}

/// The state after a successful load of program `prog`, `size` bytes of
/// which are copied to the fixed load address; the program counter is set
/// to that address.
pub open spec fn load_view(s: Chip8View, prog: Seq<u8>, size: int) -> Chip8View {
    Chip8View {
        mem: Seq::new(
            CHIP_8_MEMORY_SIZE as nat,
            |j: int|
                if CHIP8_PROGRAM_LOAD_ADDRESS <= j < CHIP8_PROGRAM_LOAD_ADDRESS + size {
                    prog[j - CHIP8_PROGRAM_LOAD_ADDRESS]
                } else {
                    s.mem[j]
                },
        ),
        pc: CHIP8_PROGRAM_LOAD_ADDRESS as u16,
        ..s
    }
}

/// The state after the once-per-frame timer tick: each non-zero timer counts
/// down by one.
pub open spec fn timers_spec(s: Chip8View) -> Chip8View {
    Chip8View {
        dt: if s.dt > 0 { (s.dt - 1) as u8 } else { s.dt },
        st: if s.st > 0 { (s.st - 1) as u8 } else { s.st },
        ..s
    }
}

/// Relies on rand::random, which draws a value from the thread-local
/// generator; nothing can be promised of the result.
pub assume_specification<T>[ rand::random::<T> ]() -> (r: T)
    where
        rand::distributions::Standard: rand::distributions::Distribution<T>,
;

pub struct Chip8 {
    pub chip8_memory: Chip8Memory,
    pub registers: Chip8Regsiters,
    pub chip8_stack: Chip8Stack,
    pub chip8_keyboard: Chip8Keyboard,
    pub chip8_screen: Chip8Screen,
}

impl View for Chip8 {
    type V = Chip8View;

    open spec fn view(&self) -> Chip8View {
        Chip8View {
            mem: self.chip8_memory@,
            v: self.registers.v@,
            i: self.registers.i,
            dt: self.registers.dt,
            st: self.registers.st,
            pc: self.registers.pc,
            sp: self.registers.sp,
            stack: self.chip8_stack@,
            keys: self.chip8_keyboard@,
            pixels: self.chip8_screen@,
        }
    }
}

impl Chip8 {
    /// Well-formedness of the machine: every component has its fixed size.
    pub open spec fn wf(&self) -> bool {
        &&& self.chip8_memory.wf()
        &&& self.registers.wf()
        &&& self.chip8_stack.wf()
        &&& self.chip8_keyboard.wf()
        &&& self.chip8_screen.wf()
        &&& self@.sp <= CHIP_8_TOTAL_STACK_DEPTH
    }

    pub fn new() -> (r: Self)
        ensures
            r.wf(),
            r@ == initial_machine(),
    {
        let r = Chip8 {
            chip8_memory: Chip8Memory::new(),
            registers: Chip8Regsiters::new(),
            chip8_stack: Chip8Stack::new(),
            chip8_keyboard: Chip8Keyboard::new(),
            chip8_screen: Chip8Screen::new(),
        };
        proof {
            assert(r@ =~~= initial_machine());
        }
        r
    }

    /// Push a return address: it goes into the slot the stack pointer names,
    /// then the stack pointer moves up.
    pub fn chip8_stack_push(&mut self, val: u16)
        requires
            old(self).wf(),
            old(self)@.sp < CHIP_8_TOTAL_STACK_DEPTH,
        ensures
            final(self).wf(),
            final(self)@ == stack_push_view(old(self)@, val),
    {
        let sp = self.registers.sp;
        self.chip8_stack.stack[sp as usize] = val;
        self.registers.sp = sp + 1;
        proof {
            assert(self@ =~~= stack_push_view(old(self)@, val));
        }
    }

    /// Pop a return address: the stack pointer moves down, then the slot it
    /// names is read.
    pub fn chip8_stack_pop(&mut self) -> (r: u16)
        requires
            old(self).wf(),
            1 <= old(self)@.sp <= CHIP_8_TOTAL_STACK_DEPTH,
        ensures
            final(self).wf(),
            final(self)@ == stack_pop_view(old(self)@),
            r == stack_pop_value(old(self)@),
    {
        let sp = self.registers.sp - 1;
        self.registers.sp = sp;
        proof {
            assert(self@ =~~= stack_pop_view(old(self)@));
        }
        self.chip8_stack.stack[sp as usize]
    }

    /// The framebuffer, row-major: pixel (column x, row y) of the view is
    /// entry `y * CHIP_8_WIDTH + x`.
    pub fn get_display(&self) -> (r: &Vec<bool>)
        requires
            self.wf(),
        ensures
            r@.len() == CHIP_8_WIDTH * CHIP_8_HEIGHT,
            forall|yy: int, xx: int|
                0 <= yy < CHIP_8_HEIGHT && 0 <= xx < CHIP_8_WIDTH ==> r@[yy * CHIP_8_WIDTH + xx]
                    == self@.pixels[yy][xx],
    {
        &self.chip8_screen.pixels
    }

    /// Count the timers down once per frame. Returns whether the buzzer
    /// should sound this frame: exactly when the sound timer was running.
    pub fn tick_timers(&mut self) -> (beep: bool)
        requires
            old(self).wf(),
        ensures
            final(self).wf(),
            final(self)@ == timers_spec(old(self)@),
            beep == (old(self)@.st > 0),
    {
        if self.registers.dt > 0 {
            self.registers.dt = self.registers.dt - 1;
        }
        let beep = self.registers.st > 0;
        if beep {
            self.registers.st = self.registers.st - 1;
        }
        proof {
            assert(self@ =~~= timers_spec(old(self)@));
        }
        beep
    }

    /// Load a program: its first `size` bytes go into memory at the program
    /// load address and the program counter is set there. A program that
    /// does not fit above the load address is rejected before any byte of
    /// memory is written.
    pub fn chip8_load(&mut self, buffer: &Vec<u8>, size: usize) -> (r: Result<(), Chip8Error>)
        requires
            old(self).wf(),
            size <= buffer@.len(),
        ensures
            final(self).wf(),
            (r == Ok::<(), Chip8Error>(()) <==> CHIP8_PROGRAM_LOAD_ADDRESS + size
                <= CHIP_8_MEMORY_SIZE),
            (r is Err ==> r == Err::<(), Chip8Error>(Chip8Error::LoadOverflow) && *final(self)
                == *old(self)),
            (r is Ok ==> final(self)@ == load_view(old(self)@, buffer@, size as int)),
    {
        if size > CHIP_8_MEMORY_SIZE - CHIP8_PROGRAM_LOAD_ADDRESS {
            return Err(Chip8Error::LoadOverflow);
        }
        let mut i: usize = 0;
        while i < size
            invariant
                self.wf(),
                i <= size,
                size <= buffer@.len(),
                CHIP8_PROGRAM_LOAD_ADDRESS + size <= CHIP_8_MEMORY_SIZE,
                self.registers == old(self).registers,
                self.chip8_stack == old(self).chip8_stack,
                self.chip8_keyboard == old(self).chip8_keyboard,
                self.chip8_screen == old(self).chip8_screen,
                self@.mem.len() == CHIP_8_MEMORY_SIZE,
                forall|j: int|
                    CHIP8_PROGRAM_LOAD_ADDRESS <= j < CHIP8_PROGRAM_LOAD_ADDRESS + i
                        ==> self@.mem[j] == buffer@[j - CHIP8_PROGRAM_LOAD_ADDRESS],
                forall|j: int|
                    0 <= j < CHIP_8_MEMORY_SIZE && !(CHIP8_PROGRAM_LOAD_ADDRESS <= j
                        < CHIP8_PROGRAM_LOAD_ADDRESS + i) ==> self@.mem[j] == old(self)@.mem[j],
            decreases size - i,
        {
            self.chip8_memory.chip8_memory_set((CHIP8_PROGRAM_LOAD_ADDRESS + i) as u16, buffer[i]);
            i = i + 1;
        }
        self.registers.pc = CHIP8_PROGRAM_LOAD_ADDRESS as u16;
        proof {
            assert(self@ =~~= load_view(old(self)@, buffer@, size as int));
        }
        Ok(())
    }

    /// Read the instruction word at the program counter and move the program
    /// counter past it.
    pub fn fetch(&mut self) -> (op: u16)
        requires
            old(self).wf(),
            old(self)@.pc + 1 < CHIP_8_MEMORY_SIZE,
        ensures
            final(self).wf(),
            final(self)@ == advance(old(self)@),
            op == opcode_at(old(self)@.mem, old(self)@.pc as int),
    {
        let op = self.chip8_memory.chip8_memory_get_opcode(self.registers.pc);
        self.registers.pc = self.registers.pc + 2;
        proof {
            assert(self@ =~~= advance(old(self)@));
        }
        op
    }

    /// Execute an instruction of the arithmetic/logic family (high nibble 8).
    fn execute_alu(&mut self, op: u16) -> (r: Result<(), Chip8Error>)
        requires
            old(self).wf(),
        ensures
            final(self).wf(),
            ({
                let t = alu_spec(old(self)@, op);
                match t {
                    Ok(s2) => r == Ok::<(), Chip8Error>(()) && final(self)@ == s2,
                    Err(e) => r == Err::<(), Chip8Error>(e) && *final(self) == *old(self),
                }
            }),
    {
        let x = ((op / 0x100) % 0x10) as usize;
        let y = ((op / 0x10) % 0x10) as usize;
        let n = op % 0x10;
        let vx = self.registers.v[x];
        let vy = self.registers.v[y];
        if n == 0 {
            self.registers.v[x] = vy;
        } else if n == 1 {
            self.registers.v[x] = vx | vy;
        } else if n == 2 {
            self.registers.v[x] = vx & vy;
        } else if n == 3 {
            self.registers.v[x] = vx ^ vy;
        } else if n == 4 {
            let sum: u16 = vx as u16 + vy as u16;
            let new_vx = (sum % 256) as u8;
            let new_vf: u8 = if sum > 255 { 1 } else { 0 };
            self.registers.v[x] = new_vx;
            self.registers.v[0xF] = new_vf;
        } else if n == 5 {
            let new_vx = if vx >= vy { vx - vy } else { ((vx as u16 + 256) - vy as u16) as u8 };
            let new_vf: u8 = if vx < vy { 0 } else { 1 };
            self.registers.v[x] = new_vx;
            self.registers.v[0xF] = new_vf;
        } else if n == 6 {
            let new_vf = vx % 2;
            self.registers.v[x] = vx / 2;
            self.registers.v[0xF] = new_vf;
        } else if n == 7 {
            let new_vx = if vy >= vx { vy - vx } else { ((vy as u16 + 256) - vx as u16) as u8 };
            let new_vf: u8 = if vy < vx { 0 } else { 1 };
            self.registers.v[x] = new_vx;
            self.registers.v[0xF] = new_vf;
        } else if n == 0xE {
            let new_vf = vx / 128;
            self.registers.v[x] = ((vx as u16 * 2) % 256) as u8;
            self.registers.v[0xF] = new_vf;
        } else {
            return Err(Chip8Error::UnknownOpcode);
        }
        proof {
            let t = alu_spec(old(self)@, op);
            assert(t is Ok && self@ =~~= t->Ok_0);
        }
        Ok(())
    }

    /// Execute an instruction of the miscellaneous family (high nibble F).
    fn execute_misc(&mut self, op: u16) -> (r: Result<(), Chip8Error>)
        requires
            old(self).wf(),
            2 <= old(self)@.pc,
        ensures
            final(self).wf(),
            ({
                let t = misc_spec(old(self)@, op);
                match t {
                    Ok(s2) => r == Ok::<(), Chip8Error>(()) && final(self)@ == s2,
                    Err(e) => r == Err::<(), Chip8Error>(e) && *final(self) == *old(self),
                }
            }),
    {
        let x = ((op / 0x100) % 0x10) as usize;
        let nn = (op % 0x100) as u8;
        if nn == 0x07 {
            self.registers.v[x] = self.registers.dt;
        } else if nn == 0x0A {
            // wait for a key: with none down, rewind the program counter so
            // the same instruction is fetched again next step
            let mut pressed = false;
            let mut k: usize = 0;
            while k < CHIP_8_TOTAL_KEYS && !pressed
                invariant
                    self.wf(),
                    *self == *old(self),
                    k <= CHIP_8_TOTAL_KEYS,
                    x < CHIP_8_TOTAL_DATA_REGISTER,
                    !pressed ==> forall|j: int| 0 <= j < k ==> !self@.keys[j],
                    pressed ==> k >= 1 && self@.keys[k - 1] && (forall|j: int|
                        0 <= j < k - 1 ==> !self@.keys[j]),
                decreases CHIP_8_TOTAL_KEYS - k,
            {
                if self.chip8_keyboard.chip8_keyboard_isdown(k as u8) {
                    pressed = true;
                }
                k = k + 1;
            }
            if pressed {
                let key_index = (k - 1) as u8;
                proof {
                    lemma_first_key_down_skip(self@.keys, k - 1);
                }
                self.registers.v[x] = key_index;
            } else {
                proof {
                    lemma_first_key_down_skip(self@.keys, CHIP_8_TOTAL_KEYS as int);
                }
                self.registers.pc = self.registers.pc - 2;
            }
        } else if nn == 0x15 {
            self.registers.dt = self.registers.v[x];
        } else if nn == 0x18 {
            self.registers.st = self.registers.v[x];
        } else if nn == 0x1E {
            // index register addition wraps at 16 bits
            let sum: u32 = self.registers.i as u32 + self.registers.v[x] as u32;
            self.registers.i = if sum >= 0x10000 {
                (sum - 0x10000) as u16
            } else {
                sum as u16
            };
        } else if nn == 0x29 {
            self.registers.i = (self.registers.v[x] as u16) * CHIP8_DEFAULT_SPRITE_HEIGHT;
        } else if nn == 0x33 {
            // store the three decimal digits of Vx at I, I+1, I+2
            let i0 = self.registers.i as usize;
            if i0 + 2 >= CHIP_8_MEMORY_SIZE {
                return Err(Chip8Error::MemoryOutOfBounds);
            }
            let vx = self.registers.v[x];
            self.chip8_memory.chip8_memory_set(i0 as u16, vx / 100);
            self.chip8_memory.chip8_memory_set((i0 + 1) as u16, (vx / 10) % 10);
            self.chip8_memory.chip8_memory_set((i0 + 2) as u16, vx % 10);
        } else if nn == 0x55 {
            // store V0..Vx into memory starting at I
            let i0 = self.registers.i as usize;
            if i0 + x >= CHIP_8_MEMORY_SIZE {
                return Err(Chip8Error::MemoryOutOfBounds);
            }
            let mut idx: usize = 0;
            while idx <= x
                invariant
                    self.wf(),
                    x < CHIP_8_TOTAL_DATA_REGISTER,
                    idx <= x + 1,
                    i0 + x < CHIP_8_MEMORY_SIZE,
                    i0 == old(self)@.i,
                    self.registers == old(self).registers,
                    self.chip8_stack == old(self).chip8_stack,
                    self.chip8_keyboard == old(self).chip8_keyboard,
                    self.chip8_screen == old(self).chip8_screen,
                    self@.mem.len() == CHIP_8_MEMORY_SIZE,
                    forall|j: int|
                        i0 <= j < i0 + idx ==> self@.mem[j] == old(self)@.v[j - i0],
                    forall|j: int|
                        0 <= j < CHIP_8_MEMORY_SIZE && !(i0 <= j < i0 + idx) ==> self@.mem[j]
                            == old(self)@.mem[j],
                decreases x + 1 - idx,
            {
                self.chip8_memory.chip8_memory_set((i0 + idx) as u16, self.registers.v[idx]);
                idx = idx + 1;
            }
        } else if nn == 0x65 {
            // load V0..Vx from memory starting at I
            let i0 = self.registers.i as usize;
            if i0 + x >= CHIP_8_MEMORY_SIZE {
                return Err(Chip8Error::MemoryOutOfBounds);
            }
            let mut idx: usize = 0;
            while idx <= x
                invariant
                    self.wf(),
                    x < CHIP_8_TOTAL_DATA_REGISTER,
                    idx <= x + 1,
                    i0 + x < CHIP_8_MEMORY_SIZE,
                    i0 == old(self)@.i,
                    self.chip8_memory == old(self).chip8_memory,
                    self.chip8_stack == old(self).chip8_stack,
                    self.chip8_keyboard == old(self).chip8_keyboard,
                    self.chip8_screen == old(self).chip8_screen,
                    self.registers.i == old(self).registers.i,
                    self.registers.dt == old(self).registers.dt,
                    self.registers.st == old(self).registers.st,
                    self.registers.pc == old(self).registers.pc,
                    self.registers.sp == old(self).registers.sp,
                    self@.v.len() == CHIP_8_TOTAL_DATA_REGISTER,
                    forall|j: int| 0 <= j < idx ==> self@.v[j] == old(self)@.mem[i0 + j],
                    forall|j: int|
                        idx <= j < CHIP_8_TOTAL_DATA_REGISTER ==> self@.v[j] == old(self)@.v[j],
                decreases x + 1 - idx,
            {
                let val = self.chip8_memory.chip8_memory_get((i0 + idx) as u16);
                self.registers.v[idx] = val;
                idx = idx + 1;
            }
        } else {
            return Err(Chip8Error::UnknownOpcode);
        }
        proof {
            let t = misc_spec(old(self)@, op);
            assert(t is Ok && self@ =~~= t->Ok_0);
        }
        Ok(())
    }

    /// Decode and execute one instruction word. The program counter has
    /// already moved past it (see `fetch`), so the word's address is
    /// `pc - 2`. The byte `rnd` is consumed only by the random-number
    /// instruction; callers that need determinism inject a fixed byte.
    ///
    /// A fault is reported as the error `execute_spec` names and leaves the
    /// machine exactly as it was.
    pub fn execute(&mut self, op: u16, rnd: u8) -> (r: Result<(), Chip8Error>)
        requires
            old(self).wf(),
            2 <= old(self)@.pc <= CHIP_8_MEMORY_SIZE,
        ensures
            final(self).wf(),
            ({
                let t = execute_spec(old(self)@, op, rnd);
                match t {
                    Ok(s2) => r == Ok::<(), Chip8Error>(()) && final(self)@ == s2,
                    Err(e) => r == Err::<(), Chip8Error>(e) && *final(self) == *old(self),
                }
            }),
    {
        let digit1 = op / 0x1000;
        let digit2 = (op / 0x100) % 0x10;
        let digit3 = (op / 0x10) % 0x10;
        let digit4 = op % 0x10;
        let x = digit2 as usize;
        let y = digit3 as usize;
        let nn = (op % 0x100) as u8;
        let nnn = op % 0x1000;
        if digit1 == 0 {
            if op == 0x0000 {
                // no-op
            } else if op == 0x00E0 {
                self.chip8_screen.clear_screen();
            } else if op == 0x00EE {
                if self.registers.sp == 0 {
                    return Err(Chip8Error::StackUnderflow);
                }
                let ret_addr = self.chip8_stack_pop();
                self.registers.pc = ret_addr;
            } else {
                return Err(Chip8Error::UnknownOpcode);
            }
        } else if digit1 == 1 {
            self.registers.pc = nnn;
        } else if digit1 == 2 {
            if self.registers.sp >= CHIP_8_TOTAL_STACK_DEPTH as u16 {
                return Err(Chip8Error::StackOverflow);
            }
            let pc = self.registers.pc;
            self.chip8_stack_push(pc);
            self.registers.pc = nnn;
        } else if digit1 == 3 {
            if self.registers.v[x] == nn {
                self.registers.pc = self.registers.pc + 2;
            }
        } else if digit1 == 4 {
            if self.registers.v[x] != nn {
                self.registers.pc = self.registers.pc + 2;
            }
        } else if digit1 == 5 {
            if self.registers.v[x] == self.registers.v[y] {
                self.registers.pc = self.registers.pc + 2;
            }
        } else if digit1 == 6 {
            self.registers.v[x] = nn;
        } else if digit1 == 7 {
            let sum: u16 = self.registers.v[x] as u16 + nn as u16;
            self.registers.v[x] = (sum % 256) as u8;
        } else if digit1 == 8 {
            return self.execute_alu(op);
        } else if digit1 == 9 {
            if digit4 != 0 {
                return Err(Chip8Error::UnknownOpcode);
            }
            if self.registers.v[x] != self.registers.v[y] {
                self.registers.pc = self.registers.pc + 2;
            }
        } else if digit1 == 0xA {
            self.registers.i = nnn;
        } else if digit1 == 0xB {
            self.registers.pc = self.registers.v[0] as u16 + nnn;
        } else if digit1 == 0xC {
            self.registers.v[x] = rnd & nn;
        } else if digit1 == 0xD {
            let x_coord = self.registers.v[x] as usize;
            let y_coord = self.registers.v[y] as usize;
            let num = digit4 as usize;
            let start = self.registers.i as usize;
            if start + num > CHIP_8_MEMORY_SIZE {
                return Err(Chip8Error::MemoryOutOfBounds);
            }
            let mut sprite: Vec<u8> = Vec::new();
            let mut k: usize = 0;
            while k < num
                invariant
                    self.wf(),
                    *self == *old(self),
                    k <= num,
                    start == old(self)@.i,
                    start + num <= CHIP_8_MEMORY_SIZE,
                    sprite@.len() == k,
                    forall|j: int| 0 <= j < k ==> sprite@[j] == self@.mem[start + j],
                decreases num - k,
            {
                let b = self.chip8_memory.chip8_memory_get((start + k) as u16);
                sprite.push(b);
                k = k + 1;
            }
            proof {
                assert(sprite@ =~= old(self)@.mem.subrange(
                    start as int,
                    start + old(self)@.mem.subrange(start as int, start + num as int).len(),
                ));
                assert(sprite@ =~= old(self)@.mem.subrange(start as int, start + num as int));
            }
            let collision = self.chip8_screen.chip8_screen_draw_sprite(x_coord, y_coord, &sprite);
            self.registers.v[0xF] = collision;
        } else if digit1 == 0xE {
            if nn == 0x9E {
                let vx = self.registers.v[x];
                if vx as usize >= CHIP_8_TOTAL_KEYS {
                    return Err(Chip8Error::KeyOutOfRange);
                }
                if self.chip8_keyboard.chip8_keyboard_isdown(vx) {
                    self.registers.pc = self.registers.pc + 2;
                }
            } else if nn == 0xA1 {
                let vx = self.registers.v[x];
                if vx as usize >= CHIP_8_TOTAL_KEYS {
                    return Err(Chip8Error::KeyOutOfRange);
                }
                if !self.chip8_keyboard.chip8_keyboard_isdown(vx) {
                    self.registers.pc = self.registers.pc + 2;
                }
            } else {
                return Err(Chip8Error::UnknownOpcode);
            }
        } else {
            return self.execute_misc(op);
        }
        proof {
            let t = execute_spec(old(self)@, op, rnd);
            assert(t is Ok && self@ =~~= t->Ok_0);
        }
        Ok(())
    }

    /// One fetch/decode/execute step. The random-number instruction draws a
    /// fresh byte; every postcondition holds whatever byte came back.
    pub fn tick(&mut self) -> (r: Result<(), Chip8Error>)
        requires
            old(self).wf(),
        ensures
            final(self).wf(),
            exists|rnd: u8| #[trigger] step_result_matches(old(self)@, final(self)@, rnd, r),
    {
        if self.registers.pc as usize + 1 >= CHIP_8_MEMORY_SIZE {
            proof {
                assert(step_result_matches(
                    old(self)@,
                    self@,
                    0u8,
                    Err::<(), Chip8Error>(Chip8Error::MemoryOutOfBounds),
                ));
            }
            return Err(Chip8Error::MemoryOutOfBounds);
        }
        let rnd: u8 = random_byte();
        let op = self.fetch();
        let r = self.execute(op, rnd);
        proof {
            assert(step_result_matches(old(self)@, self@, rnd, r));
        }
        r
    }
}

/// A byte drawn uniformly by the host's random source; the contracts of the
/// callers hold for every value it may return.
fn random_byte() -> u8 {
    rand::random()
}

/// For every pair of register values, add-with-carry stores the modulo-256
/// sum in Vx and records the carry in VF. VF is written after Vx, so it
/// holds the flag even when x is 0xF.
pub proof fn lemma_alu_add_flags(s: Chip8View, op: u16)
    requires
        wf_view(s),
        op_d1(op) == 8,
        op_d4(op) == 4,
    ensures
        ({
            let x = op_d2(op) as int;
            let y = op_d3(op) as int;
            let a = s.v[x];
            let b = s.v[y];
            let t = alu_spec(s, op);
            &&& t is Ok
            &&& t->Ok_0.v[0xF] == (if a + b > 255 { 1u8 } else { 0u8 })
            &&& (x != 0xF ==> t->Ok_0.v[x] == ((a + b) % 256) as u8)
        }),
{
}

/// For every pair of register values, subtract stores the modulo-256
/// difference Vx - Vy in Vx and clears VF exactly when the subtraction
/// borrowed.
pub proof fn lemma_alu_sub_flags(s: Chip8View, op: u16)
    requires
        wf_view(s),
        op_d1(op) == 8,
        op_d4(op) == 5,
    ensures
        ({
            let x = op_d2(op) as int;
            let y = op_d3(op) as int;
            let a = s.v[x];
            let b = s.v[y];
            let t = alu_spec(s, op);
            &&& t is Ok
            &&& t->Ok_0.v[0xF] == (if a < b { 0u8 } else { 1u8 })
            &&& (x != 0xF ==> t->Ok_0.v[x] == ((a - b + 256) % 256) as u8)
        }),
{
    let x = op_d2(op) as int;
    let y = op_d3(op) as int;
    let a = s.v[x];
    let b = s.v[y];
    if a >= b {
        assert(((a - b + 256) % 256) as u8 == (a - b) as u8);
    }
}

/// For every pair of register values, reverse subtract stores the
/// modulo-256 difference Vy - Vx in Vx and clears VF exactly when the
/// subtraction borrowed.
pub proof fn lemma_alu_subn_flags(s: Chip8View, op: u16)
    requires
        wf_view(s),
        op_d1(op) == 8,
        op_d4(op) == 7,
    ensures
        ({
            let x = op_d2(op) as int;
            let y = op_d3(op) as int;
            let a = s.v[x];
            let b = s.v[y];
            let t = alu_spec(s, op);
            &&& t is Ok
            &&& t->Ok_0.v[0xF] == (if b < a { 0u8 } else { 1u8 })
            &&& (x != 0xF ==> t->Ok_0.v[x] == ((b - a + 256) % 256) as u8)
        }),
{
    let x = op_d2(op) as int;
    let y = op_d3(op) as int;
    let a = s.v[x];
    let b = s.v[y];
    if b >= a {
        assert(((b - a + 256) % 256) as u8 == (b - a) as u8);
    }
}

/// Shift right captures the low bit of Vx in VF before the shift: the bit
/// that falls off is the flag, never the post-shift value's.
pub proof fn lemma_alu_shr_flags(s: Chip8View, op: u16)
    requires
        wf_view(s),
        op_d1(op) == 8,
        op_d4(op) == 6,
    ensures
        ({
            let x = op_d2(op) as int;
            let a = s.v[x];
            let t = alu_spec(s, op);
            &&& t is Ok
            &&& t->Ok_0.v[0xF] == (a % 2) as u8
            &&& (x != 0xF ==> t->Ok_0.v[x] == (a / 2) as u8)
        }),
{
}

/// Shift left captures the high bit of Vx in VF before the shift, and the
/// shifted value wraps at a byte.
pub proof fn lemma_alu_shl_flags(s: Chip8View, op: u16)
    requires
        wf_view(s),
        op_d1(op) == 8,
        op_d4(op) == 0xE,
    ensures
        ({
            let x = op_d2(op) as int;
            let a = s.v[x];
            let t = alu_spec(s, op);
            &&& t is Ok
            &&& t->Ok_0.v[0xF] == (a / 128) as u8
            &&& (x != 0xF ==> t->Ok_0.v[x] == ((a * 2) % 256) as u8)
        }),
{
}

/// Pushing a value and popping straight after returns exactly that value,
/// restores the stack pointer, and touches no other register; the stack
/// itself differs only in the slot above the restored pointer.
pub proof fn lemma_stack_round_trip(s: Chip8View, val: u16)
    requires
        wf_view(s),
        s.sp < CHIP_8_TOTAL_STACK_DEPTH,
    ensures
        stack_pop_value(stack_push_view(s, val)) == val,
        stack_pop_view(stack_push_view(s, val)) == (Chip8View {
            stack: s.stack.update(s.sp as int, val),
            ..s
        }),
{
    assert(stack_pop_view(stack_push_view(s, val)) =~~= (Chip8View {
        stack: s.stack.update(s.sp as int, val),
        ..s
    }));
}

/// The state after pushing each value of `vals` in turn.
pub open spec fn stack_push_all_view(s: Chip8View, vals: Seq<u16>) -> Chip8View
    decreases vals.len(),
{
    if vals.len() == 0 {
        s
    } else {
        stack_push_all_view(stack_push_view(s, vals[0]), vals.skip(1))
    }
}

/// The state after `n` pops in a row.
pub open spec fn stack_pop_n_view(s: Chip8View, n: nat) -> Chip8View
    decreases n,
{
    if n == 0 {
        s
    } else {
        stack_pop_n_view(stack_pop_view(s), (n - 1) as nat)
    }
}

/// Each push moves the stack pointer up by one.
proof fn lemma_push_all_sp(s: Chip8View, vals: Seq<u16>)
    requires
        s.sp + vals.len() <= CHIP_8_TOTAL_STACK_DEPTH,
    ensures
        stack_push_all_view(s, vals).sp == s.sp + vals.len(),
    decreases vals.len(),
{
    if vals.len() > 0 {
        lemma_push_all_sp(stack_push_view(s, vals[0]), vals.skip(1));
    }
}

/// Each pop moves the stack pointer down by one.
proof fn lemma_pop_n_sp(s: Chip8View, n: nat)
    requires
        n <= s.sp,
    ensures
        stack_pop_n_view(s, n).sp == s.sp - n,
    decreases n,
{
    if n > 0 {
        lemma_pop_n_sp(stack_pop_view(s), (n - 1) as nat)
    }
}

/// Any run of pushes followed by as many pops restores the stack pointer
/// exactly.
pub proof fn lemma_stack_pushes_then_pops_restore_sp(s: Chip8View, vals: Seq<u16>)
    requires
        s.sp + vals.len() <= CHIP_8_TOTAL_STACK_DEPTH,
    ensures
        stack_pop_n_view(stack_push_all_view(s, vals), vals.len()).sp == s.sp,
{
    lemma_push_all_sp(s, vals);
    lemma_pop_n_sp(stack_push_all_view(s, vals), vals.len());
}

/// A call followed by the return it jumps to leaves the program counter at
/// the address immediately after the call instruction, with the stack
/// pointer restored.
pub proof fn lemma_call_then_ret(s: Chip8View, rnd1: u8, rnd2: u8)
    requires
        wf_view(s),
        s.pc + 1 < CHIP_8_MEMORY_SIZE,
        op_d1(opcode_at(s.mem, s.pc as int)) == 2,
        s.sp < CHIP_8_TOTAL_STACK_DEPTH,
        ({
            // the called address holds a return instruction
            let nnn = op_nnn(opcode_at(s.mem, s.pc as int));
            nnn + 1 < CHIP_8_MEMORY_SIZE && opcode_at(s.mem, nnn as int) == 0x00EE
        }),
    ensures
        ({
            let t1 = step_spec(s, rnd1);
            &&& t1 is Ok
            &&& step_spec(t1->Ok_0, rnd2) is Ok
            &&& step_spec(t1->Ok_0, rnd2)->Ok_0.pc == s.pc + 2
            &&& step_spec(t1->Ok_0, rnd2)->Ok_0.sp == s.sp
        }),
{
    let op1 = opcode_at(s.mem, s.pc as int);
    let s1 = step_spec(s, rnd1)->Ok_0;
    assert(s1.pc == op_nnn(op1));
    assert(s1.stack[s.sp as int] == s.pc + 2);
}

/// With no key down, a wait-for-key step leaves the whole machine state
/// unchanged: the program counter is rewound over the instruction, so the
/// next step fetches it again.
pub proof fn lemma_wait_key_no_key(s: Chip8View, rnd: u8)
    requires
        wf_view(s),
        s.pc + 1 < CHIP_8_MEMORY_SIZE,
        op_d1(opcode_at(s.mem, s.pc as int)) == 0xF,
        op_nn(opcode_at(s.mem, s.pc as int)) == 0x0A,
        forall|k: int| 0 <= k < CHIP_8_TOTAL_KEYS ==> !s.keys[k],
    ensures
        step_spec(s, rnd) == Ok::<Chip8View, Chip8Error>(s),
{
    lemma_first_key_down_skip(s.keys, CHIP_8_TOTAL_KEYS as int);
    let t = step_spec(s, rnd);
    assert(t is Ok);
    assert(t->Ok_0 =~~= s);
}

/// With the lowest-numbered key `k` down, a wait-for-key step stores `k`
/// in Vx and the program counter moves past the instruction.
pub proof fn lemma_wait_key_key_down(s: Chip8View, rnd: u8, k: int)
    requires
        wf_view(s),
        s.pc + 1 < CHIP_8_MEMORY_SIZE,
        op_d1(opcode_at(s.mem, s.pc as int)) == 0xF,
        op_nn(opcode_at(s.mem, s.pc as int)) == 0x0A,
        0 <= k < CHIP_8_TOTAL_KEYS,
        s.keys[k],
        forall|j: int| 0 <= j < k ==> !s.keys[j],
    ensures
        ({
            let t = step_spec(s, rnd);
            let x = op_d2(opcode_at(s.mem, s.pc as int)) as int;
            &&& t is Ok
            &&& t->Ok_0 == (Chip8View { v: s.v.update(x, k as u8), pc: (s.pc + 2) as u16, ..s })
        }),
{
    lemma_first_key_down_skip(s.keys, k);
    let t = step_spec(s, rnd);
    let x = op_d2(opcode_at(s.mem, s.pc as int)) as int;
    assert(t is Ok);
    assert(t->Ok_0 =~~= (Chip8View { v: s.v.update(x, k as u8), pc: (s.pc + 2) as u16, ..s }));
}

} // verus!
