use chip8::chip8::{Chip8, Chip8Error};
use chip8::config::{CHIP8_PROGRAM_LOAD_ADDRESS, CHIP_8_MEMORY_SIZE};

fn loaded_machine(program: &[u8]) -> Chip8 {
    let mut machine = Chip8::new();
    let buffer: Vec<u8> = program.to_vec();
    machine.chip8_load(&buffer, buffer.len()).unwrap();
    machine
}

#[test]
fn new_machine_starts_zeroed() {
    let machine = Chip8::new();
    assert_eq!(machine.registers.pc, 0);
    assert_eq!(machine.registers.sp, 0);
    assert_eq!(machine.registers.i, 0);
    assert_eq!(machine.registers.dt, 0);
    assert_eq!(machine.registers.st, 0);
    for k in 0..16 {
        assert_eq!(machine.registers.v[k], 0);
    }
}

#[test]
fn new_machine_holds_character_set() {
    let machine = Chip8::new();
    // glyph 0 starts with 0xF0, glyph 1 with 0x20, glyph F row 0 is 0xF0
    assert_eq!(machine.chip8_memory.chip8_memory_get(0), 0xF0);
    assert_eq!(machine.chip8_memory.chip8_memory_get(1), 0x90);
    assert_eq!(machine.chip8_memory.chip8_memory_get(5), 0x20);
    assert_eq!(machine.chip8_memory.chip8_memory_get(79), 0x90);
    // beyond the 80 font bytes everything is zero
    assert_eq!(machine.chip8_memory.chip8_memory_get(80), 0);
    assert_eq!(machine.chip8_memory.chip8_memory_get(0x200), 0);
}

#[test]
fn load_sets_pc_and_copies_program() {
    let machine = loaded_machine(&[0x12, 0x34, 0x56]);
    assert_eq!(machine.registers.pc, CHIP8_PROGRAM_LOAD_ADDRESS as u16);
    assert_eq!(machine.chip8_memory.chip8_memory_get(0x200), 0x12);
    assert_eq!(machine.chip8_memory.chip8_memory_get(0x201), 0x34);
    assert_eq!(machine.chip8_memory.chip8_memory_get(0x202), 0x56);
}

#[test]
fn load_too_large_fails_without_mutating_memory() {
    let mut machine = Chip8::new();
    let too_big = CHIP_8_MEMORY_SIZE - CHIP8_PROGRAM_LOAD_ADDRESS + 1;
    let buffer: Vec<u8> = vec![0xAB; too_big];
    let r = machine.chip8_load(&buffer, buffer.len());
    assert_eq!(r, Err(Chip8Error::LoadOverflow));
    assert_eq!(machine.registers.pc, 0);
    for addr in 0x200..CHIP_8_MEMORY_SIZE {
        assert_eq!(machine.chip8_memory.chip8_memory_get(addr as u16), 0);
    }
}

#[test]
fn load_exactly_filling_memory_succeeds() {
    let mut machine = Chip8::new();
    let size = CHIP_8_MEMORY_SIZE - CHIP8_PROGRAM_LOAD_ADDRESS;
    let buffer: Vec<u8> = vec![0xCD; size];
    assert_eq!(machine.chip8_load(&buffer, buffer.len()), Ok(()));
    assert_eq!(machine.chip8_memory.chip8_memory_get(4095), 0xCD);
}

#[test]
fn fetch_reads_big_endian_and_advances_pc() {
    let mut machine = loaded_machine(&[0x1A, 0xBC]);
    let op = machine.fetch();
    assert_eq!(op, 0x1ABC);
    assert_eq!(machine.registers.pc, 0x202);
}

#[test]
fn tick_executes_jump() {
    let mut machine = loaded_machine(&[0x12, 0x34]);
    assert_eq!(machine.tick(), Ok(()));
    assert_eq!(machine.registers.pc, 0x234);
}

#[test]
fn tick_out_of_range_pc_is_fatal() {
    let mut machine = Chip8::new();
    machine.registers.pc = 4095;
    assert_eq!(machine.tick(), Err(Chip8Error::MemoryOutOfBounds));
    assert_eq!(machine.registers.pc, 4095);
}

#[test]
fn unknown_opcode_is_fatal() {
    let mut machine = loaded_machine(&[0x00, 0xEF]);
    assert_eq!(machine.tick(), Err(Chip8Error::UnknownOpcode));
}

#[test]
fn skip_equal_immediate() {
    // V0 = 7; skip if V0 == 7
    let mut machine = loaded_machine(&[0x60, 0x07, 0x30, 0x07]);
    machine.tick().unwrap();
    machine.tick().unwrap();
    assert_eq!(machine.registers.pc, 0x206);
    assert_eq!(machine.registers.v[0], 7);
}

#[test]
fn skip_not_equal_immediate() {
    let mut machine = loaded_machine(&[0x40, 0x01]);
    machine.tick().unwrap();
    assert_eq!(machine.registers.pc, 0x204);
}

#[test]
fn skip_register_compare() {
    // V0 = 3, V1 = 3: 5xy0 skips, 9xy0 does not
    let mut machine = loaded_machine(&[0x60, 0x03, 0x61, 0x03, 0x50, 0x10]);
    machine.tick().unwrap();
    machine.tick().unwrap();
    machine.tick().unwrap();
    assert_eq!(machine.registers.pc, 0x208);
    let mut machine2 = loaded_machine(&[0x60, 0x03, 0x61, 0x03, 0x90, 0x10]);
    machine2.tick().unwrap();
    machine2.tick().unwrap();
    machine2.tick().unwrap();
    assert_eq!(machine2.registers.pc, 0x206);
}

#[test]
fn add_immediate_wraps_without_flag() {
    // V0 = 0xFF, V0 += 2: wraps to 1 and VF stays 0
    let mut machine = loaded_machine(&[0x60, 0xFF, 0x70, 0x02]);
    machine.tick().unwrap();
    machine.tick().unwrap();
    assert_eq!(machine.registers.v[0], 0x01);
    assert_eq!(machine.registers.v[0xF], 0);
}

#[test]
fn alu_add_sets_carry() {
    // V0 = 0xFF, V1 = 0x01, V0 += V1: result 0x00, carry 1
    let mut machine = loaded_machine(&[0x60, 0xFF, 0x61, 0x01, 0x80, 0x14]);
    machine.tick().unwrap();
    machine.tick().unwrap();
    machine.tick().unwrap();
    assert_eq!(machine.registers.v[0], 0x00);
    assert_eq!(machine.registers.v[0xF], 1);
}

#[test]
fn alu_add_without_carry() {
    let mut machine = loaded_machine(&[0x60, 0x10, 0x61, 0x20, 0x80, 0x14]);
    machine.tick().unwrap();
    machine.tick().unwrap();
    machine.tick().unwrap();
    assert_eq!(machine.registers.v[0], 0x30);
    assert_eq!(machine.registers.v[0xF], 0);
}

#[test]
fn alu_sub_borrow_clears_flag() {
    // V0 = 0x01, V1 = 0x02, V0 -= V1: result 0xFF, VF = 0 (borrowed)
    let mut machine = loaded_machine(&[0x60, 0x01, 0x61, 0x02, 0x80, 0x15]);
    machine.tick().unwrap();
    machine.tick().unwrap();
    machine.tick().unwrap();
    assert_eq!(machine.registers.v[0], 0xFF);
    assert_eq!(machine.registers.v[0xF], 0);
}

#[test]
fn alu_sub_no_borrow_sets_flag() {
    let mut machine = loaded_machine(&[0x60, 0x05, 0x61, 0x03, 0x80, 0x15]);
    machine.tick().unwrap();
    machine.tick().unwrap();
    machine.tick().unwrap();
    assert_eq!(machine.registers.v[0], 0x02);
    assert_eq!(machine.registers.v[0xF], 1);
}

#[test]
fn alu_subn_reverse_subtract() {
    // V0 = 0x03, V1 = 0x05, V0 = V1 - V0: result 0x02, VF = 1
    let mut machine = loaded_machine(&[0x60, 0x03, 0x61, 0x05, 0x80, 0x17]);
    machine.tick().unwrap();
    machine.tick().unwrap();
    machine.tick().unwrap();
    assert_eq!(machine.registers.v[0], 0x02);
    assert_eq!(machine.registers.v[0xF], 1);
}

#[test]
fn alu_bitwise_or_and_xor() {
    let mut machine = loaded_machine(&[0x60, 0b1100, 0x61, 0b1010, 0x80, 0x11]);
    machine.tick().unwrap();
    machine.tick().unwrap();
    machine.tick().unwrap();
    assert_eq!(machine.registers.v[0], 0b1110);
    let mut machine2 = loaded_machine(&[0x60, 0b1100, 0x61, 0b1010, 0x80, 0x12]);
    machine2.tick().unwrap();
    machine2.tick().unwrap();
    machine2.tick().unwrap();
    assert_eq!(machine2.registers.v[0], 0b1000);
    let mut machine3 = loaded_machine(&[0x60, 0b1100, 0x61, 0b1010, 0x80, 0x13]);
    machine3.tick().unwrap();
    machine3.tick().unwrap();
    machine3.tick().unwrap();
    assert_eq!(machine3.registers.v[0], 0b0110);
}

#[test]
fn shift_right_captures_pre_shift_low_bit() {
    // V0 = 0b10000001 shifted right: V0 = 0b01000000, VF = 1
    let mut machine = loaded_machine(&[0x60, 0b1000_0001, 0x80, 0x06]);
    machine.tick().unwrap();
    machine.tick().unwrap();
    assert_eq!(machine.registers.v[0], 0b0100_0000);
    assert_eq!(machine.registers.v[0xF], 1);
}

#[test]
fn shift_left_captures_pre_shift_high_bit() {
    // V0 = 0b10000001 shifted left: V0 = 0b00000010, VF = 1
    let mut machine = loaded_machine(&[0x60, 0b1000_0001, 0x80, 0x0E]);
    machine.tick().unwrap();
    machine.tick().unwrap();
    assert_eq!(machine.registers.v[0], 0b0000_0010);
    assert_eq!(machine.registers.v[0xF], 1);
}

#[test]
fn call_then_ret_returns_past_the_call() {
    // 0x200: CALL 0x204; 0x202: NOP; 0x204: RET
    let mut machine = loaded_machine(&[0x22, 0x04, 0x00, 0x00, 0x00, 0xEE]);
    machine.tick().unwrap();
    assert_eq!(machine.registers.pc, 0x204);
    assert_eq!(machine.registers.sp, 1);
    machine.tick().unwrap();
    assert_eq!(machine.registers.pc, 0x202);
    assert_eq!(machine.registers.sp, 0);
}

#[test]
fn stack_push_pop_round_trip() {
    let mut machine = Chip8::new();
    let sp_before = machine.registers.sp;
    machine.chip8_stack_push(0x1234);
    assert_eq!(machine.registers.sp, sp_before + 1);
    let popped = machine.chip8_stack_pop();
    assert_eq!(popped, 0x1234);
    assert_eq!(machine.registers.sp, sp_before);
}

#[test]
fn stack_many_pushes_then_pops_restore_sp() {
    let mut machine = Chip8::new();
    for k in 0..16u16 {
        machine.chip8_stack_push(0x100 + k);
    }
    assert_eq!(machine.registers.sp, 16);
    for k in (0..16u16).rev() {
        assert_eq!(machine.chip8_stack_pop(), 0x100 + k);
    }
    assert_eq!(machine.registers.sp, 0);
}

#[test]
fn ret_with_empty_stack_underflows() {
    let mut machine = loaded_machine(&[0x00, 0xEE]);
    assert_eq!(machine.tick(), Err(Chip8Error::StackUnderflow));
}

#[test]
fn call_with_full_stack_overflows() {
    let mut machine = loaded_machine(&[0x22, 0x00]);
    machine.registers.sp = 16;
    assert_eq!(machine.tick(), Err(Chip8Error::StackOverflow));
}

#[test]
fn index_register_set_and_add() {
    // I = 0x123; V0 = 0x10; I += V0
    let mut machine = loaded_machine(&[0xA1, 0x23, 0x60, 0x10, 0xF0, 0x1E]);
    machine.tick().unwrap();
    assert_eq!(machine.registers.i, 0x123);
    machine.tick().unwrap();
    machine.tick().unwrap();
    assert_eq!(machine.registers.i, 0x133);
}

#[test]
fn index_register_add_wraps_sixteen_bits() {
    let mut machine = loaded_machine(&[0xF0, 0x1E]);
    machine.registers.i = 0xFFFF;
    machine.registers.v[0] = 0x02;
    machine.tick().unwrap();
    assert_eq!(machine.registers.i, 0x0001);
}

#[test]
fn jump_with_offset() {
    // V0 = 4; jump to V0 + 0x300
    let mut machine = loaded_machine(&[0x60, 0x04, 0xB3, 0x00]);
    machine.tick().unwrap();
    machine.tick().unwrap();
    assert_eq!(machine.registers.pc, 0x304);
}

#[test]
fn random_masks_with_immediate() {
    // C0nn with an injected byte: the register gets rnd & nn
    let mut machine = Chip8::new();
    machine.registers.pc = 0x202;
    machine.execute(0xC00F, 0x5A).unwrap();
    assert_eq!(machine.registers.v[0], 0x5A & 0x0F);
    machine.execute(0xC1FF, 0xA7).unwrap();
    assert_eq!(machine.registers.v[1], 0xA7);
}

#[test]
fn font_address_instruction() {
    // V0 = 0xA: I points at glyph A, at 10 * 5
    let mut machine = loaded_machine(&[0x60, 0x0A, 0xF0, 0x29]);
    machine.tick().unwrap();
    machine.tick().unwrap();
    assert_eq!(machine.registers.i, 50);
}

#[test]
fn bcd_stores_three_decimal_digits() {
    // V0 = 234: memory[I..I+3] = {2, 3, 4}
    let mut machine = loaded_machine(&[0x60, 0xEA, 0xA3, 0x00, 0xF0, 0x33]);
    machine.tick().unwrap();
    machine.tick().unwrap();
    machine.tick().unwrap();
    assert_eq!(machine.chip8_memory.chip8_memory_get(0x300), 2);
    assert_eq!(machine.chip8_memory.chip8_memory_get(0x301), 3);
    assert_eq!(machine.chip8_memory.chip8_memory_get(0x302), 4);
}

#[test]
fn bcd_past_memory_end_is_fatal() {
    let mut machine = loaded_machine(&[0xF0, 0x33]);
    machine.registers.i = 4094;
    assert_eq!(machine.tick(), Err(Chip8Error::MemoryOutOfBounds));
}

#[test]
fn store_and_load_register_block() {
    // V0..V2 = 5,6,7; store at I = 0x300; clear; load back
    let mut machine = loaded_machine(
        &[0x60, 0x05, 0x61, 0x06, 0x62, 0x07, 0xA3, 0x00, 0xF2, 0x55],
    );
    for _ in 0..5 {
        machine.tick().unwrap();
    }
    assert_eq!(machine.chip8_memory.chip8_memory_get(0x300), 5);
    assert_eq!(machine.chip8_memory.chip8_memory_get(0x301), 6);
    assert_eq!(machine.chip8_memory.chip8_memory_get(0x302), 7);
    // V3 untouched by a store up to x = 2
    assert_eq!(machine.chip8_memory.chip8_memory_get(0x303), 0);
    machine.registers.v[0] = 0;
    machine.registers.v[1] = 0;
    machine.registers.v[2] = 0;
    machine.registers.pc = 0x202;
    machine.execute(0xF265, 0).unwrap();
    assert_eq!(machine.registers.v[0], 5);
    assert_eq!(machine.registers.v[1], 6);
    assert_eq!(machine.registers.v[2], 7);
}

#[test]
fn delay_timer_read_and_write() {
    // DT = V0; then V1 = DT
    let mut machine = loaded_machine(&[0x60, 0x2A, 0xF0, 0x15, 0xF1, 0x07]);
    machine.tick().unwrap();
    machine.tick().unwrap();
    assert_eq!(machine.registers.dt, 0x2A);
    machine.tick().unwrap();
    assert_eq!(machine.registers.v[1], 0x2A);
}

#[test]
fn timers_count_down_and_report_beep() {
    let mut machine = Chip8::new();
    machine.registers.dt = 2;
    machine.registers.st = 1;
    assert!(machine.tick_timers());
    assert_eq!(machine.registers.dt, 1);
    assert_eq!(machine.registers.st, 0);
    assert!(!machine.tick_timers());
    assert_eq!(machine.registers.dt, 0);
    assert_eq!(machine.registers.st, 0);
}

#[test]
fn sound_timer_set_from_register() {
    let mut machine = loaded_machine(&[0x60, 0x09, 0xF0, 0x18]);
    machine.tick().unwrap();
    machine.tick().unwrap();
    assert_eq!(machine.registers.st, 9);
}

#[test]
fn wait_for_key_busy_polls_then_reads_key() {
    let mut machine = loaded_machine(&[0xF5, 0x0A]);
    // with no key down the program counter does not move
    for _ in 0..3 {
        machine.tick().unwrap();
        assert_eq!(machine.registers.pc, 0x200);
    }
    machine.chip8_keyboard.chip8_keyboard_down(0xB);
    machine.tick().unwrap();
    assert_eq!(machine.registers.v[5], 0xB);
    assert_eq!(machine.registers.pc, 0x202);
}

#[test]
fn wait_for_key_picks_lowest_key_down() {
    let mut machine = loaded_machine(&[0xF0, 0x0A]);
    machine.chip8_keyboard.chip8_keyboard_down(0xC);
    machine.chip8_keyboard.chip8_keyboard_down(0x3);
    machine.tick().unwrap();
    assert_eq!(machine.registers.v[0], 0x3);
}

#[test]
fn skip_on_key_state() {
    // V0 = 4; skip if key 4 down (it is): pc moves 2 extra
    let mut machine = loaded_machine(&[0x60, 0x04, 0xE0, 0x9E, 0x00, 0x00, 0xE0, 0xA1]);
    machine.chip8_keyboard.chip8_keyboard_down(4);
    machine.tick().unwrap();
    machine.tick().unwrap();
    assert_eq!(machine.registers.pc, 0x206);
    // skip-if-up does not skip while the key is down
    machine.tick().unwrap();
    assert_eq!(machine.registers.pc, 0x208);
}

#[test]
fn key_test_with_out_of_range_register_is_fatal() {
    let mut machine = loaded_machine(&[0xE0, 0x9E]);
    machine.registers.v[0] = 20;
    assert_eq!(machine.tick(), Err(Chip8Error::KeyOutOfRange));
}
