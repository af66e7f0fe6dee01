use chirp8::{
    Chirp8, Chirp8Mode, QuirkFlags, Stack, StackError, FLAG_REGISTER_INDEX, PIXEL_OFF, PIXEL_ON,
    PROGRAM_SIZE, PROGRAM_START,
};

fn machine(mode: Chirp8Mode, rom: &[u8]) -> Chirp8 {
    let mut emulator = Chirp8::new(mode);
    assert!(emulator.load_rom(rom));
    emulator
}

#[test]
fn stack_is_lifo_and_bounded() {
    let mut stack: Stack<u16, 2> = Stack::new();
    assert_eq!(stack.pop(), Err(StackError::StackEmpty));
    assert_eq!(stack.push(1), Ok(()));
    assert_eq!(stack.push(2), Ok(()));
    assert_eq!(stack.push(3), Err(StackError::StackFull));
    assert_eq!(stack.pop(), Ok(2));
    assert_eq!(stack.pop(), Ok(1));
    assert_eq!(stack.pop(), Err(StackError::StackEmpty));
    let mut other: Stack<u8, 1> = Stack::default();
    assert_eq!(other.push(7), Ok(()));
    assert_eq!(other.pop(), Ok(7));
}

#[test]
fn quirk_presets() {
    assert_eq!(QuirkFlags::from_mode(Chirp8Mode::CosmacChip8).bits(), 0b0000_0000_0001_0111);
    assert_eq!(QuirkFlags::from_mode(Chirp8Mode::SuperChip1_1).bits(), 0b0010_1101_1111_0100);
    assert_eq!(QuirkFlags::from_mode(Chirp8Mode::SuperChipModern).bits(), 0b0000_1110_1111_0000);
    assert_eq!(QuirkFlags::from_mode(Chirp8Mode::XOChip).bits(), 0b0001_0000_0000_0010);
    let mut quirks = QuirkFlags::empty();
    quirks.insert(QuirkFlags::JUMP_XNN | 0x8000);
    assert_eq!(quirks.bits(), QuirkFlags::JUMP_XNN);
    quirks.remove(QuirkFlags::JUMP_XNN);
    assert_eq!(quirks, QuirkFlags::empty());
    assert_eq!(QuirkFlags::from_bits_truncate(0xFFFF).bits(), 0x3FFF);
}

#[test]
fn fresh_machine() {
    let emulator = Chirp8::new(Chirp8Mode::XOChip);
    assert_eq!(&emulator.ram[0..5], &[0xF0, 0x90, 0x90, 0x90, 0xF0]);
    assert_eq!(&emulator.ram[80..82], &[0x3C, 0x7E]);
    assert_eq!(emulator.ram[239], 0xC0);
    assert_eq!(emulator.pc, 0x200);
    assert_eq!(emulator.steps_per_frame, 30);
    assert_eq!(emulator.plane_selection, 0x55);
    assert_eq!(emulator.get_audio_buffer(), &[0, 0, 0, 0, 0, 0, 0, 0, 255, 255, 255, 255, 255, 255, 255, 255]);
    assert!(emulator.has_sound_wave());
    let cosmac = Chirp8::default();
    assert_eq!(cosmac.steps_per_frame, 10);
    assert_eq!(cosmac.plane_selection, 0xFF);
    assert!(!cosmac.has_sound_wave());
    assert!(cosmac.ram[PROGRAM_START..].iter().all(|b| *b == 0));
}

#[test]
fn random_ram_quirk_fills_program_area() {
    let emulator = Chirp8::new(Chirp8Mode::SuperChip1_1);
    assert!(emulator.ram[PROGRAM_START..].iter().any(|b| *b != 0));
    assert_eq!(emulator.ram[0], 0xF0);
}

#[test]
fn load_rom_accepts_up_to_program_size() {
    let mut emulator = Chirp8::default();
    assert!(emulator.load_rom(&vec![7u8; PROGRAM_SIZE]));
    assert_eq!(emulator.ram[4095], 7);
    let mut other = Chirp8::default();
    assert!(!other.load_rom(&vec![7u8; PROGRAM_SIZE + 1]));
    assert_eq!(other.ram[PROGRAM_START], 0);
}

#[test]
fn pc_stays_even_and_in_memory() {
    // 1FFE jumps to the last word; executing it (0000, unknown) wraps to 0.
    let mut emulator = machine(Chirp8Mode::CosmacChip8, &[0x1F, 0xFE]);
    emulator.step();
    assert_eq!(emulator.pc, 0xFFE);
    emulator.step();
    assert_eq!(emulator.pc, 0);
    for _ in 0..50 {
        emulator.step();
        assert!(emulator.pc < 0x1000);
        assert_eq!(emulator.pc % 2, 0);
    }
}

#[test]
fn frame_counter_wraps_at_steps_per_frame() {
    let mut emulator = machine(Chirp8Mode::CosmacChip8, &[0x12, 0x00]);
    for _ in 0..25 {
        emulator.step();
        assert!(emulator.steps_since_frame < emulator.steps_per_frame);
    }
    assert_eq!(emulator.steps_since_frame, 5);
    emulator.run_frame();
    assert_eq!(emulator.steps_since_frame, 0);
    assert_eq!(emulator.steps, 30);
    emulator.step();
    emulator.set_steps_per_frame(3);
    assert_eq!(emulator.steps_since_frame, 0);
    assert_eq!(emulator.steps, 40);
    assert_eq!(emulator.steps_per_frame, 3);
    emulator.run_frame();
    assert_eq!(emulator.steps, 43);
    assert!(emulator.take_steps(7));
    assert_eq!(emulator.steps, 50);
}

#[test]
fn stack_overflow_halts_the_machine() {
    // 2200: call itself forever.
    let mut emulator = machine(Chirp8Mode::SuperChipModern, &[0x22, 0x00]);
    for _ in 0..16 {
        emulator.step();
    }
    assert!(!emulator.halted);
    assert_eq!(emulator.steps, 16);
    emulator.step();
    assert!(emulator.halted);
    assert_eq!(emulator.pc, 0x200);
    assert_eq!(emulator.steps, 16);
    assert!(!emulator.take_steps(1));
    emulator.run_frame();
    assert_eq!(emulator.steps, 16);
}

#[test]
fn stack_underflow_halts_the_machine() {
    let mut emulator = machine(Chirp8Mode::CosmacChip8, &[0x00, 0xEE]);
    emulator.step();
    assert!(emulator.halted);
    assert_eq!(emulator.pc, 0x200);
}

#[test]
fn call_and_return() {
    // 2206, then at 206: 00EE returns to 202: 6101.
    let mut emulator = machine(Chirp8Mode::CosmacChip8, &[0x22, 0x06, 0x61, 0x01, 0x00, 0x00, 0x00, 0xEE]);
    emulator.step();
    assert_eq!(emulator.pc, 0x206);
    emulator.step();
    assert_eq!(emulator.pc, 0x202);
    emulator.step();
    assert_eq!(emulator.registers[1], 1);
}

#[test]
fn display_cells_stay_plane_encoded() {
    // Draw the font digit 8 on both planes and on plane 1 alone, then scroll.
    let mut emulator = machine(
        Chirp8Mode::XOChip,
        &[0xF3, 0x01, 0xA0, 0x28, 0xD0, 0x15, 0xF2, 0x01, 0x70, 0x02, 0xD0, 0x15, 0x00, 0xD3, 0x00, 0xFB],
    );
    for _ in 0..6 {
        emulator.step();
    }
    let mut seen = [false; 4];
    for row in emulator.get_display_buffer().iter() {
        for cell in row.iter() {
            assert!([0x00, 0x55, 0xAA, 0xFF].contains(cell));
            seen[(*cell & 3) as usize] = true;
        }
    }
    assert!(seen[1] && seen[2] && seen[3]);
    emulator.step();
    emulator.step();
    for row in emulator.get_display_buffer().iter() {
        for cell in row.iter() {
            assert!([0x00, 0x55, 0xAA, 0xFF].contains(cell));
        }
    }
}

#[test]
fn timers_count_down_and_saturate() {
    // 6002 F015 F018 1206
    let mut emulator = machine(Chirp8Mode::CosmacChip8, &[0x60, 0x02, 0xF0, 0x15, 0xF0, 0x18, 0x12, 0x06]);
    emulator.run_frame();
    assert_eq!(emulator.delay_timer, 1);
    assert!(emulator.is_sounding());
    emulator.run_frame();
    assert_eq!(emulator.delay_timer, 0);
    assert!(!emulator.is_sounding());
    emulator.run_frame();
    assert_eq!(emulator.delay_timer, 0);
    assert_eq!(emulator.sound_timer, 0);
}

#[test]
fn drawing_twice_restores_the_display() {
    let mut emulator = machine(Chirp8Mode::SuperChipModern, &[0x00, 0xFF, 0xA0, 0x50, 0xD0, 0x1A, 0xD0, 0x1A]);
    emulator.registers[0] = 123;
    emulator.registers[1] = 60;
    emulator.step();
    emulator.display_buffer[10][10] = PIXEL_ON;
    let before = *emulator.get_display_buffer();
    emulator.step();
    emulator.step();
    assert_ne!(*emulator.get_display_buffer(), before);
    emulator.step();
    assert_eq!(*emulator.get_display_buffer(), before);
    assert!(emulator.registers[FLAG_REGISTER_INDEX] >= 1);
}

#[test]
fn store_then_load_restores_registers() {
    // F355 then 6000..6300 then A300 F365
    let rom = [0xA3, 0x00, 0xF3, 0x55, 0x60, 0x00, 0x61, 0x00, 0x62, 0x00, 0x63, 0x00, 0xA3, 0x00, 0xF3, 0x65];
    let mut emulator = Chirp8::with_custom_quirks(Chirp8Mode::XOChip, QuirkFlags::empty());
    assert!(emulator.load_rom(&rom));
    emulator.registers[0..4].copy_from_slice(&[9, 8, 7, 6]);
    for _ in 0..8 {
        emulator.step();
    }
    assert_eq!(&emulator.registers[0..4], &[9, 8, 7, 6]);
    assert_eq!(emulator.index, 0x300);
    let mut incrementing = Chirp8::new(Chirp8Mode::XOChip);
    assert!(incrementing.load_rom(&rom));
    incrementing.registers[0..4].copy_from_slice(&[9, 8, 7, 6]);
    incrementing.step();
    incrementing.step();
    assert_eq!(incrementing.index, 0x304);
    assert_eq!(&incrementing.ram[0x300..0x304], &[9, 8, 7, 6]);
    for _ in 0..6 {
        incrementing.step();
    }
    assert_eq!(&incrementing.registers[0..4], &[9, 8, 7, 6]);
    assert_eq!(incrementing.index, 0x304);
}

#[test]
fn scroll_right_then_left_restores() {
    let mut emulator = machine(Chirp8Mode::SuperChipModern, &[0x00, 0xFB, 0x00, 0xFC]);
    emulator.high_resolution = true;
    emulator.display_buffer[5][0] = PIXEL_ON;
    emulator.display_buffer[5][123] = PIXEL_ON;
    emulator.display_buffer[6][125] = PIXEL_ON;
    emulator.step();
    assert_eq!(emulator.display_buffer[5][4], PIXEL_ON);
    assert_eq!(emulator.display_buffer[5][127], PIXEL_ON);
    emulator.step();
    assert_eq!(emulator.display_buffer[5][0], PIXEL_ON);
    assert_eq!(emulator.display_buffer[5][123], PIXEL_ON);
    // Pushed off the right edge: lost.
    assert_eq!(emulator.display_buffer[6][125], PIXEL_OFF);
}

#[test]
fn scroll_moves_only_selected_planes() {
    // Plane 0 selected: 00C1 moves plane-0 bits down one row.
    let mut emulator = machine(Chirp8Mode::XOChip, &[0x00, 0xC1]);
    emulator.high_resolution = true;
    emulator.display_buffer[3][3] = 0xFF;
    emulator.step();
    assert_eq!(emulator.display_buffer[3][3], 0xAA);
    assert_eq!(emulator.display_buffer[4][3], 0x55);
}

#[test]
fn sprites_wrap_or_clip_at_edges() {
    // Cosmac clips in low resolution: a sprite at x = 62 loses its right part.
    let mut clipped = machine(Chirp8Mode::CosmacChip8, &[0xA2, 0x06, 0xD0, 0x11, 0x00, 0x00, 0xFF]);
    clipped.registers[0] = 62 + 64; // start coordinates wrap: same as 62
    clipped.registers[1] = 0;
    clipped.step();
    // The draw waits for the start of the next frame.
    clipped.run_frame();
    clipped.step();
    assert_eq!(clipped.display_buffer[0][124], PIXEL_ON);
    assert_eq!(clipped.display_buffer[1][127], PIXEL_ON);
    assert_eq!(clipped.display_buffer[0][0], PIXEL_OFF);
    // XO-Chip wraps: the right part comes back on the left.
    let mut wrapped = machine(Chirp8Mode::XOChip, &[0xA2, 0x06, 0xD0, 0x11, 0x00, 0x00, 0xFF]);
    wrapped.registers[0] = 62;
    wrapped.step();
    wrapped.step();
    assert_eq!(wrapped.display_buffer[0][124], 0x55);
    assert_eq!(wrapped.display_buffer[0][0], 0x55);
    assert_eq!(wrapped.display_buffer[1][11], 0x55);
    assert_eq!(wrapped.display_buffer[0][12], PIXEL_OFF);
}

#[test]
fn add_to_index_sets_flag_on_overflow() {
    let mut emulator = machine(Chirp8Mode::CosmacChip8, &[0xAF, 0xFF, 0xF1, 0x1E, 0xF1, 0x1E]);
    emulator.registers[1] = 2;
    emulator.registers[FLAG_REGISTER_INDEX] = 7;
    emulator.step();
    emulator.step();
    assert_eq!(emulator.index, 1);
    assert_eq!(emulator.registers[FLAG_REGISTER_INDEX], 1);
    emulator.registers[FLAG_REGISTER_INDEX] = 7;
    emulator.step();
    assert_eq!(emulator.index, 3);
    assert_eq!(emulator.registers[FLAG_REGISTER_INDEX], 7);
}

#[test]
fn key_wait_fires_on_release_only() {
    let mut emulator = machine(Chirp8Mode::SuperChipModern, &[0xF5, 0x0A, 0x12, 0x02]);
    emulator.step();
    assert_eq!(emulator.pc, 0x200);
    assert_eq!(emulator.steps, 0);
    emulator.key_press(9);
    emulator.step();
    emulator.step();
    assert_eq!(emulator.pc, 0x200);
    emulator.key_press(4);
    emulator.key_release(9);
    emulator.step();
    assert_eq!(emulator.pc, 0x202);
    assert_eq!(emulator.registers[5], 9);
    assert_eq!(emulator.steps, 1);
}

#[test]
fn take_steps_stops_when_waiting_for_a_key() {
    let mut emulator = machine(Chirp8Mode::CosmacChip8, &[0x60, 0x01, 0xF0, 0x0A]);
    assert!(!emulator.take_steps(5));
    assert_eq!(emulator.steps, 1);
    assert_eq!(emulator.pc, 0x202);
}

#[test]
fn random_byte_is_masked() {
    let mut emulator = machine(Chirp8Mode::CosmacChip8, &[0xC4, 0x0F, 0xC5, 0xF0]);
    emulator.step_with_random(0xAB);
    assert_eq!(emulator.registers[4], 0x0B);
    emulator.step();
    assert_eq!(emulator.registers[5] & 0x0F, 0);
}

#[test]
fn display_changed_is_cleared_by_reading() {
    let mut emulator = Chirp8::default();
    assert!(emulator.display_changed());
    assert!(!emulator.display_changed());
}

#[test]
fn rpl_registers_move_x_plus_one_registers() {
    let mut emulator = machine(Chirp8Mode::SuperChipModern, &[0xF2, 0x75, 0xFA, 0x85]);
    emulator.registers[0..4].copy_from_slice(&[1, 2, 3, 4]);
    emulator.step();
    assert_eq!(&emulator.get_rpl_registers()[0..4], &[1, 2, 3, 0]);
    emulator.load_rpl_registers(&[5; 16]);
    emulator.step();
    // X = 10 is restricted to 10 & 7 = 2 outside XO-Chip: three registers.
    assert_eq!(&emulator.registers[0..4], &[5, 5, 5, 4]);
}

#[test]
fn binary_coded_decimal() {
    let mut emulator = machine(Chirp8Mode::CosmacChip8, &[0xA3, 0x00, 0xF7, 0x33]);
    emulator.registers[7] = 237;
    emulator.step();
    emulator.step();
    assert_eq!(&emulator.ram[0x300..0x303], &[2, 3, 7]);
}

#[test]
fn arithmetic_writes_flag_last() {
    let mut emulator = machine(Chirp8Mode::CosmacChip8, &[0x8F, 0x14, 0x82, 0x35, 0x84, 0x56, 0x86, 0x7E]);
    emulator.registers[15] = 200;
    emulator.registers[1] = 100;
    emulator.registers[2] = 5;
    emulator.registers[3] = 6;
    emulator.registers[5] = 0b0000_0011;
    emulator.registers[7] = 0b1000_0001;
    emulator.step();
    assert_eq!(emulator.registers[15], 1);
    emulator.step();
    assert_eq!(emulator.registers[2], 255);
    assert_eq!(emulator.registers[15], 0);
    emulator.step();
    // Cosmac shifts VY into VX.
    assert_eq!(emulator.registers[4], 1);
    assert_eq!(emulator.registers[15], 1);
    emulator.step();
    assert_eq!(emulator.registers[6], 2);
    assert_eq!(emulator.registers[15], 1);
}

#[test]
fn display_wait_stalls_draw_until_frame_start() {
    let mut emulator = machine(Chirp8Mode::CosmacChip8, &[0x60, 0x00, 0xD0, 0x05]);
    emulator.step();
    assert_eq!(emulator.steps_since_frame, 1);
    emulator.step();
    assert_eq!(emulator.pc, 0x202);
    assert_eq!(emulator.steps, 1);
    emulator.run_frame();
    emulator.step();
    assert_eq!(emulator.pc, 0x204);
    assert_eq!(emulator.steps, 2);
    assert_eq!(emulator.display_buffer[0][0], PIXEL_ON);
    assert_eq!(emulator.display_buffer[1][1], PIXEL_ON);
}

#[test]
fn exit_resets_the_program() {
    let mut emulator = machine(Chirp8Mode::SuperChipModern, &[0x61, 0x05, 0x00, 0xFD]);
    emulator.display_buffer[0][0] = PIXEL_ON;
    emulator.step();
    emulator.display_changed();
    emulator.step();
    assert_eq!(emulator.pc, 0x200);
    assert_eq!(emulator.registers[1], 0);
    assert_eq!(emulator.display_buffer[0][0], PIXEL_OFF);
    assert!(emulator.display_changed());
    emulator.registers[3] = 3;
    emulator.reset();
    assert_eq!(emulator.registers[3], 0);
}

#[test]
fn long_index_load_and_skip_over_it() {
    // XO-Chip: 3000 skips the four-byte F000 1234; then F000 ABCD loads I.
    let mut emulator = machine(
        Chirp8Mode::XOChip,
        &[0x30, 0x00, 0xF0, 0x00, 0x12, 0x34, 0xF0, 0x00, 0xAB, 0xCD],
    );
    emulator.step();
    assert_eq!(emulator.pc, 0x206);
    emulator.step();
    assert_eq!(emulator.pc, 0x20A);
    assert_eq!(emulator.index, 0xBCD);
}

#[test]
fn font_characters() {
    let mut emulator = machine(Chirp8Mode::SuperChipModern, &[0xF1, 0x29, 0xF1, 0x30]);
    emulator.registers[1] = 0xA;
    emulator.step();
    assert_eq!(emulator.index, 50);
    emulator.step();
    assert_eq!(emulator.index, 180);
}

#[test]
fn drawing_twice_restores_the_display_in_low_resolution() {
    let quirks = QuirkFlags::from_bits_truncate(QuirkFlags::FLAG_RESET | QuirkFlags::INC_INDEX);
    let mut emulator = Chirp8::with_custom_quirks(Chirp8Mode::CosmacChip8, quirks);
    assert!(emulator.load_rom(&[0xA0, 0x46, 0xD0, 0x15, 0xD0, 0x15]));
    emulator.registers[0] = 61;
    emulator.registers[1] = 30;
    for (r, c) in [(60, 122), (61, 123), (60, 123), (61, 122)] {
        emulator.display_buffer[r][c] = PIXEL_ON;
    }
    emulator.step();
    let before = *emulator.get_display_buffer();
    emulator.step();
    assert_ne!(*emulator.get_display_buffer(), before);
    emulator.step();
    assert_eq!(*emulator.get_display_buffer(), before);
}

#[test]
fn single_plane_scroll_moves_whole_cells() {
    // XO-Chip without several planes: the selector is 0x55, yet cells move whole.
    let quirks = QuirkFlags::from_bits_truncate(QuirkFlags::INC_INDEX);
    let mut emulator = Chirp8::with_custom_quirks(Chirp8Mode::XOChip, quirks);
    assert!(emulator.load_rom(&[0x00, 0xFF, 0xA2, 0x08, 0xD0, 0x11, 0x00, 0xFB, 0x80]));
    for _ in 0..4 {
        emulator.step();
    }
    assert_eq!(emulator.display_buffer[0][0], PIXEL_OFF);
    assert_eq!(emulator.display_buffer[0][4], PIXEL_ON);
}

#[test]
fn single_plane_clear_clears_everything() {
    let quirks = QuirkFlags::from_bits_truncate(QuirkFlags::INC_INDEX);
    let mut emulator = Chirp8::with_custom_quirks(Chirp8Mode::XOChip, quirks);
    assert!(emulator.load_rom(&[0x00, 0xE0]));
    emulator.display_buffer[3][3] = PIXEL_ON;
    emulator.step();
    assert_eq!(emulator.display_buffer[3][3], PIXEL_OFF);
    // With several planes, only the selected plane (0x55) is cleared.
    let mut planes = machine(Chirp8Mode::XOChip, &[0x00, 0xE0]);
    planes.display_buffer[3][3] = PIXEL_ON;
    planes.step();
    assert_eq!(planes.display_buffer[3][3], 0xAA);
}

#[test]
fn large_sprite_in_low_resolution_doubles_pixels() {
    // XO-Chip draws 16x16 sprites in low resolution too, at low-resolution coordinates.
    let mut rom = vec![0xA2, 0x06, 0xD0, 0x10, 0x00, 0x00, 0x80, 0x01];
    rom.extend_from_slice(&[0; 30]);
    let mut emulator = machine(Chirp8Mode::XOChip, &rom);
    emulator.registers[0] = 64 + 3;
    emulator.registers[1] = 32 + 2;
    emulator.step();
    emulator.step();
    assert_eq!(emulator.display_buffer[4][6], 0x55);
    assert_eq!(emulator.display_buffer[5][7], 0x55);
    assert_eq!(emulator.display_buffer[4][36], 0x55);
    assert_eq!(emulator.display_buffer[5][37], 0x55);
    assert_eq!(emulator.display_buffer[6][6], PIXEL_OFF);
}

#[test]
fn take_steps_of_zero_changes_nothing() {
    let mut emulator = machine(Chirp8Mode::CosmacChip8, &[0x60, 0x01]);
    assert!(emulator.take_steps(0));
    assert_eq!(emulator.pc, 0x200);
    assert_eq!(emulator.steps_since_frame, 0);
}

#[test]
fn take_steps_waits_through_display_wait() {
    // Cosmac display wait idles until the frame boundary; take_steps still counts 3.
    let mut emulator = machine(Chirp8Mode::CosmacChip8, &[0x60, 0x00, 0xD0, 0x01, 0x12, 0x04]);
    assert!(emulator.take_steps(3));
    assert_eq!(emulator.steps, 3);
    assert_eq!(emulator.pc, 0x204);
}

#[test]
fn colliding_row_counts_once_across_planes() {
    let quirks = QuirkFlags::from_bits_truncate(
        QuirkFlags::USE_SEVERAL_PLANES | QuirkFlags::COLLISION_COUNT_HIRES | QuirkFlags::CLIP_SPRITES_HIRES,
    );
    let mut emulator = Chirp8::with_custom_quirks(Chirp8Mode::XOChip, quirks);
    // Select both planes, enable high resolution, draw a 2-line sprite on each plane.
    assert!(emulator.load_rom(&[0xF3, 0x01, 0x00, 0xFF, 0xA2, 0x0A, 0xD0, 0x12, 0x00, 0x00, 0x80, 0x80, 0x80, 0x80]));
    emulator.step();
    emulator.step();
    emulator.step();
    emulator.display_buffer[63][0] = PIXEL_ON;
    emulator.registers[0] = 0;
    emulator.registers[1] = 63;
    emulator.step();
    // Row 63 collides on both planes, row 64 is clipped: two rows, each counted once.
    assert_eq!(emulator.registers[FLAG_REGISTER_INDEX], 2);
    assert_eq!(emulator.display_buffer[63][0], PIXEL_OFF);
}
