//! The sixteen-key keypad: one boolean per key, mutated only by external
//! key-down / key-up events and read by the key-testing instructions.

use vstd::prelude::*;

use crate::config::CHIP_8_TOTAL_KEYS;

verus! {

pub struct Chip8Keyboard {
    pub keyboard: Vec<bool>,
}

impl View for Chip8Keyboard {
    type V = Seq<bool>;

    open spec fn view(&self) -> Seq<bool> {
        self.keyboard@
    }
}

impl Chip8Keyboard {
    /// Well-formedness: one state per key, for all sixteen keys.
    pub open spec fn wf(&self) -> bool {
        self@.len() == CHIP_8_TOTAL_KEYS
    }

    pub fn new() -> (r: Self)
        ensures
            r.wf(),
            r@ == Seq::new(CHIP_8_TOTAL_KEYS as nat, |j: int| false),
    {
        let mut keyboard: Vec<bool> = Vec::new();
        loop
            invariant
                keyboard@.len() <= CHIP_8_TOTAL_KEYS,
                forall|j: int| 0 <= j < keyboard@.len() ==> keyboard@[j] == false,
            ensures
                keyboard@.len() == CHIP_8_TOTAL_KEYS,
                forall|j: int| 0 <= j < keyboard@.len() ==> keyboard@[j] == false,
            decreases CHIP_8_TOTAL_KEYS - keyboard@.len(),
        {
            if keyboard.len() >= CHIP_8_TOTAL_KEYS {
                break;
            }
            keyboard.push(false);
        }
        proof {
            assert(keyboard@ =~= Seq::new(CHIP_8_TOTAL_KEYS as nat, |j: int| false));
        }
        Chip8Keyboard { keyboard }
    }

    pub fn chip8_keyboard_down(&mut self, key: u8)
        requires
            old(self).wf(),
            key < CHIP_8_TOTAL_KEYS,
        ensures
            final(self).wf(),
            final(self)@ == old(self)@.update(key as int, true),
    {
        self.keyboard[key as usize] = true;
    }

    pub fn chip8_keyboard_up(&mut self, key: u8)
        requires
            old(self).wf(),
            key < CHIP_8_TOTAL_KEYS,
        ensures
            final(self).wf(),
            final(self)@ == old(self)@.update(key as int, false),
    {
        self.keyboard[key as usize] = false;
    }

    pub fn chip8_keyboard_isdown(&mut self, key: u8) -> (r: bool)
        requires
            old(self).wf(),
            key < CHIP_8_TOTAL_KEYS,
        ensures
            *final(self) == *old(self),
            r == old(self)@[key as int],
    {
        self.keyboard[key as usize]
    }
}

} // verus!
