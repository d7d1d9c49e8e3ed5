use chip8::chip8::Chip8;
use chip8::config::{CHIP_8_HEIGHT, CHIP_8_WIDTH};
use chip8::screen::Chip8Screen;

#[test]
fn toggle_pixel_is_xor() {
    let mut screen = Chip8Screen::new();
    assert!(!screen.is_set_screen(3, 7));
    screen.set_screen(3, 7);
    assert!(screen.is_set_screen(3, 7));
    screen.set_screen(3, 7);
    assert!(!screen.is_set_screen(3, 7));
}

#[test]
fn clear_screen_unsets_everything() {
    let mut screen = Chip8Screen::new();
    screen.set_screen(0, 0);
    screen.set_screen(63, 31);
    screen.clear_screen();
    for y in 0..CHIP_8_HEIGHT {
        for x in 0..CHIP_8_WIDTH {
            assert!(!screen.is_set_screen(x, y));
        }
    }
}

#[test]
fn draw_sprite_sets_row_bits() {
    let mut screen = Chip8Screen::new();
    // one row, bits 10110001: columns 2, 4, 5, 9 relative to x = 2
    let collision = screen.chip8_screen_draw_sprite(2, 0, &vec![0b1011_0001]);
    assert_eq!(collision, 0);
    assert!(screen.is_set_screen(2, 0));
    assert!(!screen.is_set_screen(3, 0));
    assert!(screen.is_set_screen(4, 0));
    assert!(screen.is_set_screen(5, 0));
    assert!(!screen.is_set_screen(6, 0));
    assert!(!screen.is_set_screen(7, 0));
    assert!(!screen.is_set_screen(8, 0));
    assert!(screen.is_set_screen(9, 0));
}

#[test]
fn draw_sprite_wraps_columns() {
    // drawing 8 set bits at x = 60 on a 64-wide screen covers columns
    // 60..63 and then 0..3
    let mut screen = Chip8Screen::new();
    screen.chip8_screen_draw_sprite(60, 5, &vec![0xFF]);
    for x in 60..64 {
        assert!(screen.is_set_screen(x, 5));
    }
    for x in 0..4 {
        assert!(screen.is_set_screen(x, 5));
    }
    for x in 4..60 {
        assert!(!screen.is_set_screen(x, 5));
    }
}

#[test]
fn draw_sprite_wraps_rows() {
    let mut screen = Chip8Screen::new();
    screen.chip8_screen_draw_sprite(0, 30, &vec![0x80, 0x80, 0x80, 0x80]);
    assert!(screen.is_set_screen(0, 30));
    assert!(screen.is_set_screen(0, 31));
    assert!(screen.is_set_screen(0, 0));
    assert!(screen.is_set_screen(0, 1));
}

#[test]
fn draw_sprite_coordinates_taken_modulo_screen() {
    // x = 130 behaves as x = 2
    let mut screen = Chip8Screen::new();
    screen.chip8_screen_draw_sprite(130, 40, &vec![0x80]);
    assert!(screen.is_set_screen(2, 8));
}

#[test]
fn draw_twice_restores_screen_and_reports_collision() {
    let mut screen = Chip8Screen::new();
    let sprite = vec![0xF0, 0x90, 0x90, 0x90, 0xF0];
    let first = screen.chip8_screen_draw_sprite(10, 10, &sprite);
    assert_eq!(first, 0);
    let second = screen.chip8_screen_draw_sprite(10, 10, &sprite);
    // the first draw set pixels, so the second turns them off and collides
    assert_eq!(second, 1);
    for y in 0..CHIP_8_HEIGHT {
        for x in 0..CHIP_8_WIDTH {
            assert!(!screen.is_set_screen(x, y));
        }
    }
}

#[test]
fn overlapping_draw_reports_collision_and_xors() {
    let mut screen = Chip8Screen::new();
    screen.chip8_screen_draw_sprite(0, 0, &vec![0b1100_0000]);
    let collision = screen.chip8_screen_draw_sprite(1, 0, &vec![0b1100_0000]);
    assert_eq!(collision, 1);
    // column 0 kept, column 1 toggled off, column 2 newly set
    assert!(screen.is_set_screen(0, 0));
    assert!(!screen.is_set_screen(1, 0));
    assert!(screen.is_set_screen(2, 0));
}

#[test]
fn machine_draw_instruction_sets_collision_flag() {
    // draw the 0 glyph (font at address 0) twice at (V1, V2) = (0, 0):
    // the second draw restores the blank screen and sets VF
    let mut machine = Chip8::new();
    let program: Vec<u8> = vec![0xA0, 0x00, 0xD1, 0x25, 0xD1, 0x25];
    machine.chip8_load(&program, program.len()).unwrap();
    machine.tick().unwrap();
    machine.tick().unwrap();
    assert_eq!(machine.registers.v[0xF], 0);
    assert!(machine.get_display()[0]);
    machine.tick().unwrap();
    assert_eq!(machine.registers.v[0xF], 1);
    let display = machine.get_display();
    assert_eq!(display.len(), CHIP_8_WIDTH * CHIP_8_HEIGHT);
    for px in display.iter() {
        assert!(!px);
    }
}

#[test]
fn clear_screen_instruction() {
    let mut machine = Chip8::new();
    let program: Vec<u8> = vec![0xA0, 0x00, 0xD1, 0x25, 0x00, 0xE0];
    machine.chip8_load(&program, program.len()).unwrap();
    machine.tick().unwrap();
    machine.tick().unwrap();
    assert!(machine.get_display().iter().any(|p| *p));
    machine.tick().unwrap();
    assert!(machine.get_display().iter().all(|p| !*p));
}

#[test]
fn sprite_draw_past_memory_end_is_fatal() {
    let mut machine = Chip8::new();
    let program: Vec<u8> = vec![0xD0, 0x0F];
    machine.chip8_load(&program, program.len()).unwrap();
    machine.registers.i = 4090;
    assert_eq!(
        machine.tick(),
        Err(chip8::chip8::Chip8Error::MemoryOutOfBounds)
    );
}
