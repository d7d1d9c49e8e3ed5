//! Byte-addressable memory of the machine: a flat array of
//! `CHIP_8_MEMORY_SIZE` bytes, pre-seeded at construction with the built-in
//! 16-glyph, 5-bytes-per-glyph character set at
//! `CHIP_8_DEFAULT_CHARACTER_SET_LOAD_ADDRESS`.

use vstd::prelude::*;

use crate::config::{CHIP_8_DEFAULT_CHARACTER_SET_LOAD_ADDRESS, CHIP_8_MEMORY_SIZE};

verus! {

/// The built-in character set: 16 glyphs (hex digits 0 to F), 5 bytes each.
pub open spec fn character_set_seq() -> Seq<u8> {
    seq![
        0xF0u8, 0x90, 0x90, 0x90, 0xF0, // 0
        0x20, 0x60, 0x20, 0x20, 0x70, // 1
        0xF0, 0x10, 0xF0, 0x80, 0xF0, // 2
        0xF0, 0x10, 0xF0, 0x10, 0xF0, // 3
        0x90, 0x90, 0xF0, 0x10, 0x10, // 4
        0xF0, 0x80, 0xF0, 0x10, 0xF0, // 5
        0xF0, 0x80, 0xF0, 0x90, 0xF0, // 6
        0xF0, 0x10, 0x20, 0x40, 0x40, // 7
        0xF0, 0x90, 0xF0, 0x90, 0xF0, // 8
        0xF0, 0x90, 0xF0, 0x10, 0xF0, // 9
        0xF0, 0x90, 0xF0, 0x90, 0x90, // A
        0xE0, 0x90, 0xE0, 0x90, 0xE0, // B
        0xF0, 0x80, 0x80, 0x80, 0xF0, // C
        0xE0, 0x90, 0x90, 0x90, 0xE0, // D
        0xF0, 0x80, 0xF0, 0x80, 0xF0, // E
        0xF0, 0x80, 0xF0, 0x90, 0x90, // F
    ]
}

/// Memory contents right after construction: the character set at the start,
/// zeroes everywhere else.
pub open spec fn initial_memory() -> Seq<u8> {
    Seq::new(
        CHIP_8_MEMORY_SIZE as nat,
        |j: int|
            if CHIP_8_DEFAULT_CHARACTER_SET_LOAD_ADDRESS <= j
                < CHIP_8_DEFAULT_CHARACTER_SET_LOAD_ADDRESS + character_set_seq().len() {
                character_set_seq()[j - CHIP_8_DEFAULT_CHARACTER_SET_LOAD_ADDRESS]
            } else {
                0u8
            },
    )
}

/// The 16-bit instruction word stored big-endian at address `a`: the byte at
/// `a` is the high byte, the byte at `a + 1` the low byte.
pub open spec fn opcode_at(mem: Seq<u8>, a: int) -> u16 {
    (mem[a] * 256 + mem[a + 1]) as u16
}

/// The built-in character set as a byte vector.
pub fn default_character_set() -> (r: Vec<u8>)
    ensures
        r@ == character_set_seq(),
{
    let mut r: Vec<u8> = Vec::new();
    r.push(0xF0); r.push(0x90); r.push(0x90); r.push(0x90); r.push(0xF0);
    r.push(0x20); r.push(0x60); r.push(0x20); r.push(0x20); r.push(0x70);
    r.push(0xF0); r.push(0x10); r.push(0xF0); r.push(0x80); r.push(0xF0);
    r.push(0xF0); r.push(0x10); r.push(0xF0); r.push(0x10); r.push(0xF0);
    r.push(0x90); r.push(0x90); r.push(0xF0); r.push(0x10); r.push(0x10);
    r.push(0xF0); r.push(0x80); r.push(0xF0); r.push(0x10); r.push(0xF0);
    r.push(0xF0); r.push(0x80); r.push(0xF0); r.push(0x90); r.push(0xF0);
    r.push(0xF0); r.push(0x10); r.push(0x20); r.push(0x40); r.push(0x40);
    r.push(0xF0); r.push(0x90); r.push(0xF0); r.push(0x90); r.push(0xF0);
    r.push(0xF0); r.push(0x90); r.push(0xF0); r.push(0x10); r.push(0xF0);
    r.push(0xF0); r.push(0x90); r.push(0xF0); r.push(0x90); r.push(0x90);
    r.push(0xE0); r.push(0x90); r.push(0xE0); r.push(0x90); r.push(0xE0);
    r.push(0xF0); r.push(0x80); r.push(0x80); r.push(0x80); r.push(0xF0);
    r.push(0xE0); r.push(0x90); r.push(0x90); r.push(0x90); r.push(0xE0);
    r.push(0xF0); r.push(0x80); r.push(0xF0); r.push(0x80); r.push(0xF0);
    r.push(0xF0); r.push(0x80); r.push(0xF0); r.push(0x90); r.push(0x90);
    proof {
        assert(r@ =~= character_set_seq());
    }
    r
}

pub struct Chip8Memory {
    pub memory: Vec<u8>,
}

impl View for Chip8Memory {
    type V = Seq<u8>;

    open spec fn view(&self) -> Seq<u8> {
        self.memory@
    }
}

impl Chip8Memory {
    /// Well-formedness: the memory always spans the whole address space.
    pub open spec fn wf(&self) -> bool {
        self@.len() == CHIP_8_MEMORY_SIZE
    }

    pub fn new() -> (r: Self)
        ensures
            r.wf(),
            r@ == initial_memory(),
    {
        let mut memory: Vec<u8> = Vec::new();
        loop
            invariant
                memory@.len() <= CHIP_8_MEMORY_SIZE,
                forall|j: int| 0 <= j < memory@.len() ==> memory@[j] == 0u8,
            ensures
                memory@.len() == CHIP_8_MEMORY_SIZE,
                forall|j: int| 0 <= j < memory@.len() ==> memory@[j] == 0u8,
            decreases CHIP_8_MEMORY_SIZE - memory@.len(),
        {
            if memory.len() >= CHIP_8_MEMORY_SIZE {
                break;
            }
            memory.push(0u8);
        }

        let character_set = default_character_set();
        let mut i: usize = 0;
        while i < character_set.len()
            invariant
                character_set@ == character_set_seq(),
                i <= character_set@.len(),
                memory@.len() == CHIP_8_MEMORY_SIZE,
                forall|j: int|
                    CHIP_8_DEFAULT_CHARACTER_SET_LOAD_ADDRESS <= j
                        < CHIP_8_DEFAULT_CHARACTER_SET_LOAD_ADDRESS + i ==> memory@[j]
                        == character_set_seq()[j - CHIP_8_DEFAULT_CHARACTER_SET_LOAD_ADDRESS],
                forall|j: int|
                    0 <= j < CHIP_8_MEMORY_SIZE && !(CHIP_8_DEFAULT_CHARACTER_SET_LOAD_ADDRESS <= j
                        < CHIP_8_DEFAULT_CHARACTER_SET_LOAD_ADDRESS + i) ==> memory@[j] == 0u8,
            decreases character_set@.len() - i,
        {
            memory[CHIP_8_DEFAULT_CHARACTER_SET_LOAD_ADDRESS + i] = character_set[i];
            i = i + 1;
        }

        let r = Chip8Memory { memory };
        proof {
            assert(r@ =~= initial_memory());
        }
        r
    }

    /// Set a specific memory location to a value.
    pub fn chip8_memory_set(&mut self, index: u16, val: u8)
        requires
            old(self).wf(),
            index < CHIP_8_MEMORY_SIZE,
        ensures
            final(self).wf(),
            final(self)@ == old(self)@.update(index as int, val),
    {
        self.memory[index as usize] = val;
    }

    /// Get the value at a specific memory location.
    pub fn chip8_memory_get(&self, index: u16) -> (r: u8)
        requires
            self.wf(),
            index < CHIP_8_MEMORY_SIZE,
        ensures
            r == self@[index as int],
    {
        self.memory[index as usize]
    }

    /// Fetch an instruction word (2 bytes, high byte first) at the given index.
    pub fn chip8_memory_get_opcode(&self, index: u16) -> (r: u16)
        requires
            self.wf(),
            index + 1 < CHIP_8_MEMORY_SIZE,
        ensures
            r == opcode_at(self@, index as int),
    {
        let high_byte = self.chip8_memory_get(index);
        let low_byte = self.chip8_memory_get(index + 1);
        (high_byte as u16) * 256 + (low_byte as u16)
    }
}

} // verus!
