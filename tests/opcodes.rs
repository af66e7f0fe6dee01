use chirp8::{
    repeat_bits, Chirp8, Chirp8Mode, QuirkFlags, FLAG_REGISTER_INDEX, PIXEL_OFF, PIXEL_ON,
    PROGRAM_START,
};

#[test]
fn test_repeat_bits() {
    assert_eq!(repeat_bits(1, 1), 0xFF);
    assert_eq!(repeat_bits(0b01, 2), 0b01_01_01_01);
    assert_eq!(repeat_bits(0b10, 2), 0b10_10_10_10);
    assert_eq!(repeat_bits(0b11, 2), 0xFF);
    assert_eq!(repeat_bits(0b1011, 4), 0b1011_1011);

    assert_eq!(repeat_bits(0b0101_1001, 4), 0b1001_1001);
    assert_eq!(repeat_bits(0b11_10_11_01, 2), 0b01_01_01_01);
}

#[test]
fn test_quirks() {
    let quirks = QuirkFlags::from_mode(Chirp8Mode::CosmacChip8);
    assert!(quirks.contains(QuirkFlags::DISPLAY_WAIT_LORES));
    assert!(!quirks.contains(QuirkFlags::DISPLAY_WAIT_HIRES));
}

#[test]
fn opcode_set_vx_nn() {
    let mut emulator = Chirp8::default();
    emulator.ram[PROGRAM_START..PROGRAM_START + 2].copy_from_slice(&[0x63, 0xAB]);
    emulator.step();

    assert_eq!(emulator.registers[3], 0xAB);
}

#[test]
fn opcode_skip_if_key_pressed() {
    let mut emulator = Chirp8::default();
    emulator.ram[PROGRAM_START..PROGRAM_START + 2].copy_from_slice(&[0xE2, 0x9E]);
    emulator.registers[2] = 11;

    emulator.key_release(11);
    let pc_before = emulator.pc;
    emulator.step();
    assert_eq!(emulator.pc, pc_before + 2);

    emulator.pc = PROGRAM_START as u16;

    emulator.key_press(11);
    let pc_before = emulator.pc;
    emulator.step();
    assert_eq!(emulator.pc, pc_before + 4);
}

#[test]
fn opcode_skip_if_key_not_pressed() {
    let mut emulator = Chirp8::default();
    emulator.ram[PROGRAM_START..PROGRAM_START + 2].copy_from_slice(&[0xE2, 0xA1]);
    emulator.registers[2] = 11;

    emulator.key_release(11);
    let pc_before = emulator.pc;
    emulator.step();
    assert_eq!(emulator.pc, pc_before + 4);

    emulator.pc = PROGRAM_START as u16;

    emulator.key_press(11);
    let pc_before = emulator.pc;
    emulator.step();
    assert_eq!(emulator.pc, pc_before + 2);
}

#[test]
fn opcode_draw_high_res() {
    let mut emulator = Chirp8::new(Chirp8Mode::SuperChipModern);
    emulator.ram[PROGRAM_START..PROGRAM_START + 5].copy_from_slice(&[
        0x00, 0xFF, // Enable High-res
        0xD0, 0x11, // Draw v0 v1 1
        0x80, // Sprite with one pixel to the left
    ]);
    emulator.registers[0] = 67;
    emulator.registers[1] = 45;
    emulator.index = PROGRAM_START as u16 + 4;

    emulator.step();
    emulator.step();

    assert_eq!(emulator.get_display_buffer()[45][67], PIXEL_ON);
    assert_eq!(emulator.registers[FLAG_REGISTER_INDEX], 0);

    emulator.pc -= 2;
    emulator.step();

    assert_eq!(emulator.get_display_buffer()[45][67], PIXEL_OFF);
    assert_eq!(emulator.registers[FLAG_REGISTER_INDEX], 1);
}

#[test]
fn opcode_scroll_vertical() {
    let rom = [
        0x00, 0xB5, // Scroll up by 5
        0x00, 0xC7, // Scroll down by 7
        0x80, // Sprite with one pixel to the left
    ];

    let mut emulator = Chirp8::new(Chirp8Mode::SuperChipModern);
    emulator.ram[PROGRAM_START..PROGRAM_START + rom.len()].copy_from_slice(&rom);
    emulator.display_buffer[37][67] = PIXEL_ON;
    emulator.index = PROGRAM_START as u16 + 4;
    emulator.high_resolution = true;

    emulator.step();

    assert_eq!(emulator.display_buffer[37][67], PIXEL_OFF);
    assert_eq!(emulator.display_buffer[32][67], PIXEL_ON);

    emulator.step();

    assert_eq!(emulator.display_buffer[32][67], PIXEL_OFF);
    assert_eq!(emulator.display_buffer[39][67], PIXEL_ON);

    emulator.pc = PROGRAM_START as u16;
    emulator.high_resolution = false;

    emulator.step();

    assert_eq!(emulator.display_buffer[39][67], PIXEL_OFF);
    assert_eq!(emulator.display_buffer[29][67], PIXEL_ON);

    emulator.step();

    assert_eq!(emulator.display_buffer[29][67], PIXEL_OFF);
    assert_eq!(emulator.display_buffer[43][67], PIXEL_ON);
}

#[test]
fn opcode_scroll_horizontal() {
    let rom = [
        0x00, 0xFB, // Scroll right
        0x00, 0xFC, // Scroll left
        0x80, // Sprite with one pixel to the left
    ];

    let mut emulator = Chirp8::new(Chirp8Mode::SuperChipModern);
    emulator.ram[PROGRAM_START..PROGRAM_START + rom.len()].copy_from_slice(&rom);
    emulator.display_buffer[37][67] = PIXEL_ON;
    emulator.index = PROGRAM_START as u16 + 4;
    emulator.high_resolution = true;

    emulator.step();

    assert_eq!(emulator.display_buffer[37][67], PIXEL_OFF);
    assert_eq!(emulator.display_buffer[37][71], PIXEL_ON);

    emulator.step();

    assert_eq!(emulator.display_buffer[37][71], PIXEL_OFF);
    assert_eq!(emulator.display_buffer[37][67], PIXEL_ON);

    emulator.pc = PROGRAM_START as u16;
    emulator.high_resolution = false;

    emulator.step();

    assert_eq!(emulator.display_buffer[37][67], PIXEL_OFF);
    assert_eq!(emulator.display_buffer[37][75], PIXEL_ON);

    emulator.step();

    assert_eq!(emulator.display_buffer[37][75], PIXEL_OFF);
    assert_eq!(emulator.display_buffer[37][67], PIXEL_ON);
}

#[test]
fn opcode_display_colliding_rows() {
    let rom = [
        0xD0, 0x15, // Display v0 v1 5
        0b1000_0000, // Sprite with one pixel to the left, 5 bytes tall
        0b1000_0000,
        0b1000_0000,
        0b1000_0000,
        0b1000_0000,
    ];

    let mut emulator = Chirp8::new(Chirp8Mode::SuperChipModern);
    emulator.ram[PROGRAM_START..PROGRAM_START + rom.len()].copy_from_slice(&rom);

    emulator.index = PROGRAM_START as u16 + 2;
    emulator.high_resolution = true;

    // 2 out of bounds rows
    emulator.registers[0] = 17;
    emulator.registers[1] = 61;
    emulator.step();
    assert_eq!(emulator.display_buffer[61][17], PIXEL_ON);
    assert_eq!(emulator.display_buffer[62][17], PIXEL_ON);
    assert_eq!(emulator.display_buffer[63][17], PIXEL_ON);
    assert_eq!(emulator.registers[FLAG_REGISTER_INDEX], 2);

    // 3 colliding rows (61 to 63 included)
    emulator.pc = PROGRAM_START as u16;
    emulator.registers[0] = 17;
    emulator.registers[1] = 59;
    emulator.step();

    assert_eq!(emulator.display_buffer[59][17], PIXEL_ON);
    assert_eq!(emulator.display_buffer[60][17], PIXEL_ON);
    assert_eq!(emulator.display_buffer[61][17], PIXEL_OFF);
    assert_eq!(emulator.display_buffer[62][17], PIXEL_OFF);
    assert_eq!(emulator.display_buffer[63][17], PIXEL_OFF);
    assert_eq!(emulator.registers[FLAG_REGISTER_INDEX], 3);
}

#[test]
fn opcode_display_colliding_rows_16_16() {
    let mut rom = vec![0xD0, 0x10]; // Display v0 v1 0
    for _ in 0..16 {
        // 16x16 sprite with one pixel to the left
        rom.push(0b1000_0000);
        rom.push(0b0000_0000);
    }

    let mut emulator = Chirp8::new(Chirp8Mode::SuperChipModern);
    emulator.ram[PROGRAM_START..PROGRAM_START + rom.len()].copy_from_slice(&rom);

    emulator.index = PROGRAM_START as u16 + 2;
    emulator.high_resolution = true;

    // 13 out of bounds rows
    emulator.registers[0] = 17;
    emulator.registers[1] = 61;
    emulator.step();
    assert_eq!(emulator.display_buffer[61][17], PIXEL_ON);
    assert_eq!(emulator.display_buffer[62][17], PIXEL_ON);
    assert_eq!(emulator.display_buffer[63][17], PIXEL_ON);
    assert_eq!(emulator.registers[FLAG_REGISTER_INDEX], 13);

    // 3 colliding rows (61 to 63 included)
    emulator.pc = PROGRAM_START as u16;
    emulator.registers[0] = 17;
    emulator.registers[1] = 48;
    emulator.step();

    assert_eq!(emulator.display_buffer[61][17], PIXEL_OFF);
    assert_eq!(emulator.display_buffer[62][17], PIXEL_OFF);
    assert_eq!(emulator.display_buffer[63][17], PIXEL_OFF);
    assert_eq!(emulator.registers[FLAG_REGISTER_INDEX], 3);
}

#[test]
fn opcode_save_range() {
    // 0x5XY2
    let rom = [
        0x56, 0x92, // Save v6 v9
        0x59, 0x62, // Save v9 v6
    ];

    let mut emulator = Chirp8::new(Chirp8Mode::XOChip);
    emulator.ram[PROGRAM_START..PROGRAM_START + rom.len()].copy_from_slice(&rom);

    emulator.registers[6..=9].copy_from_slice(&[3, 7, 13, 59]);
    emulator.index = 0x0ABC;

    emulator.step();
    assert_eq!(emulator.ram[0xABC], 3);
    assert_eq!(emulator.ram[0xABC + 1], 7);
    assert_eq!(emulator.ram[0xABC + 2], 13);
    assert_eq!(emulator.ram[0xABC + 3], 59);
    assert_eq!(emulator.index, 0xABC);

    emulator.step();
    assert_eq!(emulator.ram[0xABC], 59);
    assert_eq!(emulator.ram[0xABC + 1], 13);
    assert_eq!(emulator.ram[0xABC + 2], 7);
    assert_eq!(emulator.ram[0xABC + 3], 3);
    assert_eq!(emulator.index, 0xABC);
}

#[test]
fn opcode_load_range() {
    // 0x5XY3
    let rom = [
        0x56, 0x93, // Load v6 v9
        0x59, 0x63, // Load v9 v6
        0x07, 0x54, 0x23, 0xDA, // 4 bytes of data
    ];

    let mut emulator = Chirp8::new(Chirp8Mode::XOChip);
    emulator.ram[PROGRAM_START..PROGRAM_START + rom.len()].copy_from_slice(&rom);

    emulator.index = PROGRAM_START as u16 + 4;

    emulator.step();
    assert_eq!(emulator.registers[6], 0x07);
    assert_eq!(emulator.registers[7], 0x54);
    assert_eq!(emulator.registers[8], 0x23);
    assert_eq!(emulator.registers[9], 0xDA);
    assert_eq!(emulator.index, PROGRAM_START as u16 + 4);

    emulator.step();
    assert_eq!(emulator.registers[6], 0xDA);
    assert_eq!(emulator.registers[7], 0x23);
    assert_eq!(emulator.registers[8], 0x54);
    assert_eq!(emulator.registers[9], 0x07);
    assert_eq!(emulator.index, PROGRAM_START as u16 + 4);
}

#[test]
fn opcode_display_plane_xo_chip() {
    let rom = [
        0xF2, 0x01, // Select plane 1
        0xD0, 0x13, // Display v0 v1 3
        0xF3, 0x01, // Select both planes
        0xD0, 0x13, // Display v0 v1 3
        0b10000000, // 3-pixels long vertical sprite
        0b10000000,
        0b10000000,
        0b11100000, // 3-pixels long horizontal sprite
        0b00000000,
        0b00000000,
    ];

    let mut emulator = Chirp8::new(Chirp8Mode::XOChip);
    emulator.ram[PROGRAM_START..PROGRAM_START + rom.len()].copy_from_slice(&rom);

    emulator.index = PROGRAM_START as u16 + 8;
    emulator.high_resolution = true;
    emulator.plane_selection = 0;

    emulator.step();
    assert_eq!(emulator.plane_selection, repeat_bits(0b10, 2));

    emulator.registers[0] = 17;
    emulator.registers[1] = 23;

    emulator.step();
    // plane 0 untouched, plane 1 holds the vertical sprite
    assert_eq!(emulator.display_buffer[23][17], repeat_bits(0b10, 2));
    assert_eq!(emulator.display_buffer[24][17], repeat_bits(0b10, 2));
    assert_eq!(emulator.display_buffer[25][17], repeat_bits(0b10, 2));
    assert_eq!(emulator.registers[FLAG_REGISTER_INDEX], 0);

    emulator.step();
    assert_eq!(emulator.plane_selection, repeat_bits(0b11, 2));

    emulator.step();
    // plane 0 holds the vertical sprite, plane 1 the horizontal one XOR'ed over it
    assert_eq!(emulator.display_buffer[23][17], repeat_bits(0b01, 2));
    assert_eq!(emulator.display_buffer[23][18], repeat_bits(0b10, 2));
    assert_eq!(emulator.display_buffer[23][19], repeat_bits(0b10, 2));
    assert_eq!(emulator.display_buffer[24][17], repeat_bits(0b11, 2));
    assert_eq!(emulator.display_buffer[25][17], repeat_bits(0b11, 2));
    assert_eq!(emulator.registers[FLAG_REGISTER_INDEX], 1);
}

#[test]
fn opcode_display_plane_16x16_xo_chip() {
    let mut rom = vec![
        0xF2, 0x01, // Select plane 1
        0xD0, 0x10, // Display v0 v1 0
        0xF3, 0x01, // Select both planes
        0xD0, 0x10, // Display v0 v1 0
    ];
    // 16x16 sprite with one pixel to the left on first 3px
    rom.extend_from_slice(&[0b1000_0000, 0, 0b1000_0000, 0, 0b1000_0000, 0]);
    rom.extend_from_slice(&[0; 26]);
    // 16x16 sprite with one pixel to the top on first 3px
    rom.extend_from_slice(&[0b1110_0000, 0, 0, 0, 0, 0]);
    rom.extend_from_slice(&[0; 26]);

    let mut emulator = Chirp8::new(Chirp8Mode::XOChip);
    emulator.ram[PROGRAM_START..PROGRAM_START + rom.len()].copy_from_slice(&rom);

    emulator.index = PROGRAM_START as u16 + 8;
    emulator.high_resolution = true;
    emulator.plane_selection = 0;

    emulator.step();
    assert_eq!(emulator.plane_selection, repeat_bits(0b10, 2));

    emulator.registers[0] = 17;
    emulator.registers[1] = 23;

    emulator.step();
    assert_eq!(emulator.display_buffer[23][17], repeat_bits(0b10, 2));
    assert_eq!(emulator.display_buffer[24][17], repeat_bits(0b10, 2));
    assert_eq!(emulator.display_buffer[25][17], repeat_bits(0b10, 2));
    assert_eq!(emulator.registers[FLAG_REGISTER_INDEX], 0);

    emulator.step();
    assert_eq!(emulator.plane_selection, repeat_bits(0b11, 2));

    emulator.step();
    assert_eq!(emulator.display_buffer[23][17], repeat_bits(0b01, 2));
    assert_eq!(emulator.display_buffer[23][18], repeat_bits(0b10, 2));
    assert_eq!(emulator.display_buffer[23][19], repeat_bits(0b10, 2));
    assert_eq!(emulator.display_buffer[24][17], repeat_bits(0b11, 2));
    assert_eq!(emulator.display_buffer[25][17], repeat_bits(0b11, 2));
    assert_eq!(emulator.registers[FLAG_REGISTER_INDEX], 1);
}
