//! The call stack: a fixed-depth array of 16-bit return addresses, indexed
//! by the stack pointer held in the register file.

use vstd::prelude::*;

use crate::config::CHIP_8_TOTAL_STACK_DEPTH;

verus! {

pub struct Chip8Stack {
    pub stack: Vec<u16>,
}

impl View for Chip8Stack {
    type V = Seq<u16>;

    open spec fn view(&self) -> Seq<u16> {
        self.stack@
    }
}

impl Chip8Stack {
    /// Well-formedness: the stack always has the full fixed depth; only the
    /// slots below the stack pointer are meaningful.
    pub open spec fn wf(&self) -> bool {
        self@.len() == CHIP_8_TOTAL_STACK_DEPTH
    }

    pub fn new() -> (r: Self)
        ensures
            r.wf(),
            r@ == Seq::new(CHIP_8_TOTAL_STACK_DEPTH as nat, |j: int| 0u16),
    {
        let mut stack: Vec<u16> = Vec::new();
        loop
            invariant
                stack@.len() <= CHIP_8_TOTAL_STACK_DEPTH,
                forall|j: int| 0 <= j < stack@.len() ==> stack@[j] == 0u16,
            ensures
                stack@.len() == CHIP_8_TOTAL_STACK_DEPTH,
                forall|j: int| 0 <= j < stack@.len() ==> stack@[j] == 0u16,
            decreases CHIP_8_TOTAL_STACK_DEPTH - stack@.len(),
        {
            if stack.len() >= CHIP_8_TOTAL_STACK_DEPTH {
                break;
            }
            stack.push(0u16);
        }
        proof {
            assert(stack@ =~= Seq::new(CHIP_8_TOTAL_STACK_DEPTH as nat, |j: int| 0u16));
        }
        Chip8Stack { stack }
    }
}

} // verus!
