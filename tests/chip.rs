use chip8::bits::{first_byte, first_nibble, last_byte, last_nibble};
use chip8::chip::{idx_for_display, Chip8, ExecError, WAIT_FOR_KEY_MICROS};

const NO_KEYS: [bool; 16] = [false; 16];

#[test]
fn splits_words_and_bytes() {
    assert_eq!(first_byte(0xABCD), 0xAB);
    assert_eq!(last_byte(0xABCD), 0xCD);
    assert_eq!(first_nibble(0xAB), 0xA);
    assert_eq!(last_nibble(0xAB), 0xB);
}

#[test]
fn new_installs_font_and_program() {
    let chip = Chip8::new(&[0x12, 0x34]);
    assert_eq!(chip.program_counter, 0x200);
    assert_eq!(&chip.memory[0..5], &[0x60, 0x90, 0x90, 0x90, 0x60]);
    assert_eq!(&chip.memory[75..80], &[0xF0, 0x80, 0xE0, 0x80, 0x80]);
    assert_eq!(chip.memory[80], 0);
    assert_eq!(chip.memory[0x200], 0x12);
    assert_eq!(chip.memory[0x201], 0x34);
    assert_eq!(chip.memory[0x202], 0);
    assert_eq!(chip.stack_pointer, 0);
    assert!(!chip.should_play_sound());
    assert!(chip.display_buffer().iter().all(|p| !p));
}

#[test]
fn frame_runs_until_fault() {
    let mut chip = Chip8::new(&[0x60, 0x05, 0x61, 0x0A, 0x80, 0x14, 0x00, 0x00]);
    let result = chip.process_a_frame(NO_KEYS, 1_000_000);
    assert_eq!(result, Err(ExecError::UnknownOpcode { opcode: 0x0000, pc: 0x206 }));
    assert_eq!(chip.data_registers[0], 0x0F);
    assert_eq!(chip.data_registers[1], 0x0A);
    assert_eq!(chip.data_registers[0xF], 0);
    assert_eq!(chip.program_counter, 0x206);
}

#[test]
fn draws_digit_zero_at_origin() {
    let mut chip = Chip8::new(&[0xA2, 0x10, 0xD0, 0x05, 0x12, 0x02]);
    chip.memory[0x210..0x215].copy_from_slice(&[0xF0, 0x90, 0x90, 0x90, 0xF0]);
    assert_eq!(chip.execute(NO_KEYS, 0), Ok(55));
    assert_eq!(chip.execute(NO_KEYS, 0), Ok(22734));
    let display = chip.display_buffer();
    let row0: Vec<usize> = (0..8).filter(|&x| display[x]).collect();
    assert_eq!(row0, vec![0, 1, 2, 3]);
    let row1: Vec<usize> = (0..8).filter(|&x| display[64 + x]).collect();
    assert_eq!(row1, vec![0, 3]);
    assert_eq!(display.iter().filter(|&&p| p).count(), 14);
    assert_eq!(chip.data_registers[0xF], 0);
    // Drawing the same sprite again erases it and reports the collision.
    chip.program_counter = 0x202;
    assert_eq!(chip.execute(NO_KEYS, 0), Ok(22734));
    assert!(chip.display_buffer().iter().all(|p| !p));
    assert_eq!(chip.data_registers[0xF], 1);
}

#[test]
fn draw_wraps_around_edges() {
    let mut chip = Chip8::new(&[0xD0, 0x11]);
    chip.i_register = 0x300;
    chip.memory[0x300] = 0xFF;
    chip.data_registers[0] = 60;
    chip.data_registers[1] = 31;
    chip.execute(NO_KEYS, 0).unwrap();
    let lit: Vec<usize> = (0..2048).filter(|&c| chip.display_buffer[c]).collect();
    assert_eq!(lit, vec![31 * 64, 31 * 64 + 1, 31 * 64 + 2, 31 * 64 + 3, 31 * 64 + 60, 31 * 64 + 61, 31 * 64 + 62, 31 * 64 + 63]);
}

#[test]
fn pixel_primitive_xors_and_reports_erasure() {
    let mut display = [false; 2048];
    assert!(!Chip8::set_pixel(&mut display, 3, 2, true));
    assert!(display[2 * 64 + 3]);
    assert!(!Chip8::set_pixel(&mut display, 3, 2, false));
    assert!(display[2 * 64 + 3]);
    assert!(Chip8::set_pixel(&mut display, 67, 34, true));
    assert!(!display[2 * 64 + 3]);
    assert_eq!(idx_for_display(64, 32), 0);
    assert_eq!(idx_for_display(63, 31), 2047);
}

#[test]
fn clear_screen_is_idempotent() {
    let mut chip = Chip8::new(&[0x00, 0xE0, 0x00, 0xE0]);
    chip.display_buffer[100] = true;
    assert_eq!(chip.execute(NO_KEYS, 0), Ok(109));
    let once = chip.display_buffer;
    assert!(once.iter().all(|p| !p));
    chip.execute(NO_KEYS, 0).unwrap();
    assert_eq!(chip.display_buffer, once);
    assert_eq!(chip.program_counter, 0x204);
}

#[test]
fn call_and_return_track_depth() {
    // 0x200: CALL 0x206; 0x202: JP 0x202; 0x206: RET
    let mut chip = Chip8::new(&[0x22, 0x06, 0x12, 0x02, 0x00, 0x00, 0x00, 0xEE]);
    assert_eq!(chip.execute(NO_KEYS, 0), Ok(105));
    assert_eq!(chip.stack_pointer, 1);
    assert_eq!(chip.stack[1], 0x200);
    assert_eq!(chip.program_counter, 0x206);
    assert_eq!(chip.execute(NO_KEYS, 0), Ok(105));
    assert_eq!(chip.stack_pointer, 0);
    assert_eq!(chip.program_counter, 0x202);
}

#[test]
fn stack_faults() {
    let mut chip = Chip8::new(&[0x00, 0xEE]);
    assert_eq!(chip.execute(NO_KEYS, 0), Err(ExecError::StackUnderflow { pc: 0x200 }));
    assert_eq!(chip.program_counter, 0x200);
    // A program that calls itself fills the fifteen usable slots, then faults.
    let mut chip = Chip8::new(&[0x22, 0x00]);
    for depth in 1..=15u8 {
        chip.execute(NO_KEYS, 0).unwrap();
        assert_eq!(chip.stack_pointer, depth);
    }
    assert_eq!(chip.execute(NO_KEYS, 0), Err(ExecError::StackOverflow { pc: 0x200 }));
    assert_eq!(chip.stack_pointer, 15);
}

#[test]
fn subtraction_flags_compare_before_writing() {
    let mut chip = Chip8::new(&[0x81, 0x25, 0x83, 0x47, 0x85, 0x65]);
    chip.data_registers[1] = 10;
    chip.data_registers[2] = 3;
    chip.data_registers[3] = 10;
    chip.data_registers[4] = 3;
    chip.data_registers[5] = 3;
    chip.data_registers[6] = 3;
    chip.execute(NO_KEYS, 0).unwrap();
    assert_eq!(chip.data_registers[1], 7);
    assert_eq!(chip.data_registers[0xF], 1);
    chip.execute(NO_KEYS, 0).unwrap();
    assert_eq!(chip.data_registers[3], 249);
    assert_eq!(chip.data_registers[0xF], 0);
    chip.execute(NO_KEYS, 0).unwrap();
    assert_eq!(chip.data_registers[5], 0);
    assert_eq!(chip.data_registers[0xF], 0);
}

#[test]
fn arithmetic_group_sets_flags() {
    // ADD with carry, SHR, SHL, OR, AND, XOR, LD
    let mut chip = Chip8::new(&[0x81, 0x24, 0x83, 0x06, 0x84, 0x0E, 0x85, 0x61, 0x87, 0x82, 0x89, 0xA3, 0x8B, 0xC0]);
    chip.data_registers[1] = 200;
    chip.data_registers[2] = 100;
    chip.data_registers[3] = 0b101;
    chip.data_registers[4] = 0b1000_0001;
    chip.data_registers[5] = 0b0101;
    chip.data_registers[6] = 0b0011;
    chip.data_registers[7] = 0b0101;
    chip.data_registers[8] = 0b0011;
    chip.data_registers[9] = 0b0101;
    chip.data_registers[0xA] = 0b0011;
    chip.data_registers[0xC] = 42;
    chip.execute(NO_KEYS, 0).unwrap();
    assert_eq!((chip.data_registers[1], chip.data_registers[0xF]), (44, 1));
    chip.execute(NO_KEYS, 0).unwrap();
    assert_eq!((chip.data_registers[3], chip.data_registers[0xF]), (0b10, 1));
    chip.execute(NO_KEYS, 0).unwrap();
    assert_eq!((chip.data_registers[4], chip.data_registers[0xF]), (0b10, 1));
    chip.execute(NO_KEYS, 0).unwrap();
    assert_eq!(chip.data_registers[5], 0b0111);
    chip.execute(NO_KEYS, 0).unwrap();
    assert_eq!(chip.data_registers[7], 0b0001);
    chip.execute(NO_KEYS, 0).unwrap();
    assert_eq!(chip.data_registers[9], 0b0110);
    assert_eq!(chip.execute(NO_KEYS, 0), Ok(200));
    assert_eq!(chip.data_registers[0xB], 42);
}

#[test]
fn decimal_digits_of_register() {
    let mut chip = Chip8::new(&[0xF3, 0x33]);
    chip.data_registers[3] = 254;
    chip.i_register = 0x300;
    assert_eq!(chip.execute(NO_KEYS, 0), Ok(927));
    assert_eq!(&chip.memory[0x300..0x303], &[2, 5, 4]);
}

#[test]
fn decimal_digits_hold_for_every_byte() {
    for x in 0..=255u8 {
        let mut chip = Chip8::new(&[0xF0, 0x33]);
        chip.data_registers[0] = x;
        chip.i_register = 0x400;
        chip.execute(NO_KEYS, 0).unwrap();
        let (h, t, o) = (chip.memory[0x400], chip.memory[0x401], chip.memory[0x402]);
        assert_eq!(100 * h as u32 + 10 * t as u32 + o as u32, x as u32);
    }
}

#[test]
fn register_store_never_writes_vf() {
    let mut chip = Chip8::new(&[0xFF, 0x55]);
    for r in 0..16 {
        chip.data_registers[r] = r as u8 + 1;
    }
    chip.i_register = 0x300;
    assert_eq!(chip.execute(NO_KEYS, 0), Ok(605));
    assert_eq!(&chip.memory[0x300..0x30F], &[1, 2, 3, 4, 5, 6, 7, 8, 9, 10, 11, 12, 13, 14, 15]);
    assert_eq!(chip.memory[0x30F], 0);
}

#[test]
fn register_load_reads_through_vx() {
    let mut chip = Chip8::new(&[0xF2, 0x65]);
    chip.i_register = 0x300;
    chip.memory[0x300..0x304].copy_from_slice(&[9, 8, 7, 6]);
    chip.data_registers[3] = 0x55;
    chip.execute(NO_KEYS, 0).unwrap();
    assert_eq!(&chip.data_registers[0..4], &[9, 8, 7, 0x55]);
}

#[test]
fn font_lookup_reads_vx() {
    let mut chip = Chip8::new(&[0xF4, 0x29]);
    chip.data_registers[4] = 0xA;
    assert_eq!(chip.execute(NO_KEYS, 0), Ok(91));
    assert_eq!(chip.i_register, 50);
}

#[test]
fn index_arithmetic_wraps() {
    let mut chip = Chip8::new(&[0xF1, 0x1E, 0xA1, 0x23]);
    chip.i_register = 0xFFFF;
    chip.data_registers[1] = 2;
    assert_eq!(chip.execute(NO_KEYS, 0), Ok(86));
    assert_eq!(chip.i_register, 1);
    assert_eq!(chip.execute(NO_KEYS, 0), Ok(55));
    assert_eq!(chip.i_register, 0x123);
}

#[test]
fn key_wait_ends_frame_until_pressed() {
    let mut chip = Chip8::new(&[0xF5, 0x0A]);
    assert_eq!(chip.process_a_frame(NO_KEYS, 16667), Ok(()));
    assert_eq!(chip.program_counter, 0x200);
    let mut keys = NO_KEYS;
    keys[3] = true;
    keys[0xC] = true;
    assert_eq!(chip.execute(keys, 0), Ok(WAIT_FOR_KEY_MICROS));
    assert_eq!(chip.data_registers[5], 0xC);
    assert_eq!(chip.program_counter, 0x202);
}

#[test]
fn key_skips_follow_snapshot() {
    let mut chip = Chip8::new(&[0xE1, 0x9E, 0x00, 0x00, 0xE1, 0xA1]);
    chip.data_registers[1] = 7;
    let mut keys = NO_KEYS;
    keys[7] = true;
    assert_eq!(chip.execute(keys, 0), Ok(73));
    assert_eq!(chip.program_counter, 0x204);
    assert_eq!(chip.keys, keys);
    assert_eq!(chip.execute(NO_KEYS, 0), Ok(73));
    assert_eq!(chip.program_counter, 0x208);
}

#[test]
fn skips_compare_values_and_registers() {
    let mut chip = Chip8::new(&[0x30, 0x05, 0x00, 0x00, 0x40, 0x05, 0x50, 0x10, 0x00, 0x00, 0x90, 0x10]);
    chip.data_registers[0] = 5;
    chip.data_registers[1] = 5;
    chip.execute(NO_KEYS, 0).unwrap();
    assert_eq!(chip.program_counter, 0x204);
    chip.execute(NO_KEYS, 0).unwrap();
    assert_eq!(chip.program_counter, 0x206);
    chip.execute(NO_KEYS, 0).unwrap();
    assert_eq!(chip.program_counter, 0x20A);
    chip.execute(NO_KEYS, 0).unwrap();
    assert_eq!(chip.program_counter, 0x20C);
}

#[test]
fn random_byte_is_masked() {
    let mut chip = Chip8::new(&[0xC2, 0x0F, 0xC3, 0x00]);
    chip.execute(NO_KEYS, 0xAB).unwrap();
    assert_eq!(chip.data_registers[2], 0x0B);
    chip.data_registers[3] = 0x77;
    assert_eq!(chip.process_next_instruction(NO_KEYS), Ok(164));
    assert_eq!(chip.data_registers[3], 0);
}

#[test]
fn timers_tick_once_per_frame() {
    let mut chip = Chip8::new(&[0x60, 0x03, 0xF0, 0x15, 0xF0, 0x18, 0x12, 0x06]);
    chip.process_a_frame(NO_KEYS, 200).unwrap();
    assert_eq!(chip.delay_timer, 3);
    assert_eq!(chip.sound_timer, 3);
    assert!(chip.should_play_sound());
    chip.process_a_frame(NO_KEYS, 200).unwrap();
    assert_eq!(chip.delay_timer, 2);
    assert_eq!(chip.sound_timer, 2);
    assert!(chip.should_play_sound());
    chip.process_a_frame(NO_KEYS, 0).unwrap();
    chip.process_a_frame(NO_KEYS, 0).unwrap();
    assert_eq!(chip.sound_timer, 0);
    assert!(chip.should_play_sound());
    chip.process_a_frame(NO_KEYS, 0).unwrap();
    assert!(!chip.should_play_sound());
    assert_eq!(chip.delay_timer, 0);
}

#[test]
fn address_and_counter_faults() {
    let mut chip = Chip8::new(&[0xD0, 0x12]);
    chip.i_register = 0xFFF;
    assert_eq!(chip.execute(NO_KEYS, 0), Err(ExecError::AddressOutOfRange { opcode: 0xD012, pc: 0x200 }));
    let mut chip = Chip8::new(&[0x1F, 0xFF]);
    chip.execute(NO_KEYS, 0).unwrap();
    assert_eq!(chip.program_counter, 0xFFF);
    assert_eq!(chip.execute(NO_KEYS, 0), Err(ExecError::PcOutOfRange { pc: 0xFFF }));
    let mut chip = Chip8::new(&[0x51, 0x21]);
    assert_eq!(chip.execute(NO_KEYS, 0), Err(ExecError::UnknownOpcode { opcode: 0x5121, pc: 0x200 }));
    let mut chip = Chip8::new(&[0xB1, 0x23]);
    assert_eq!(chip.execute(NO_KEYS, 0), Err(ExecError::UnknownOpcode { opcode: 0xB123, pc: 0x200 }));
}

#[test]
fn assembled_program_runs_as_written() {
    let rom = chip8::assembler::assemble("LD V1, 0x3\nADD V1, 4\nLD V2, V1\nSE V2, 7\nCLS\nLD I, 0x300\n".to_string()).unwrap();
    let mut chip = Chip8::new(&rom);
    assert_eq!(&chip.memory[0x200..0x20C], rom.as_slice());
    for _ in 0..4 {
        chip.execute(NO_KEYS, 0).unwrap();
    }
    assert_eq!(chip.data_registers[1], 7);
    assert_eq!(chip.data_registers[2], 7);
    // The skip passed over CLS.
    assert_eq!(chip.program_counter, 0x20A);
    chip.execute(NO_KEYS, 0).unwrap();
    assert_eq!(chip.i_register, 0x300);
}
