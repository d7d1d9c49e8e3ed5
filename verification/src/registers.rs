//! The processor's register file: sixteen general-purpose byte registers
//! V0..VF (VF doubles as the flag register), the 16-bit index register I,
//! the program counter, the stack pointer, and the two countdown timers.

use vstd::prelude::*;

use crate::config::CHIP_8_TOTAL_DATA_REGISTER;

verus! {

pub struct Chip8Regsiters {
    /// v0 to vf register
    pub v: Vec<u8>,
    /// index register
    pub i: u16,
    /// delay timer
    pub dt: u8,
    /// sound timer
    pub st: u8,
    pub pc: u16,
    pub sp: u16,
}

impl Chip8Regsiters {
    /// Well-formedness: there are always exactly sixteen data registers.
    pub open spec fn wf(&self) -> bool {
        self.v@.len() == CHIP_8_TOTAL_DATA_REGISTER
    }

    pub fn new() -> (r: Self)
        ensures
            r.wf(),
            r.v@ == Seq::new(CHIP_8_TOTAL_DATA_REGISTER as nat, |j: int| 0u8),
            r.i == 0u16,
            r.dt == 0u8,
            r.st == 0u8,
            r.pc == 0u16,
            r.sp == 0u16,
    {
        let mut v: Vec<u8> = Vec::new();
        loop
            invariant
                v@.len() <= CHIP_8_TOTAL_DATA_REGISTER,
                forall|j: int| 0 <= j < v@.len() ==> v@[j] == 0u8,
            ensures
                v@.len() == CHIP_8_TOTAL_DATA_REGISTER,
                forall|j: int| 0 <= j < v@.len() ==> v@[j] == 0u8,
            decreases CHIP_8_TOTAL_DATA_REGISTER - v@.len(),
        {
            if v.len() >= CHIP_8_TOTAL_DATA_REGISTER {
                break;
            }
            v.push(0u8);
        }
        proof {
            assert(v@ =~= Seq::new(CHIP_8_TOTAL_DATA_REGISTER as nat, |j: int| 0u8));
        }
        Chip8Regsiters { v, i: 0u16, dt: 0u8, st: 0u8, pc: 0u16, sp: 0u16 }
    }
}

} // verus!
