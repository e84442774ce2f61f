use reborn8::chip8::Chip8;
use reborn8::chip8::Chip8Error;
use reborn8::isa::Instr;

/// A machine with `rom` loaded and ready to run.
fn machine_with(rom: &[u8]) -> Chip8 {
    let mut c = Chip8::new();
    c.load_rom(rom).expect("rom fits");
    c
}

#[test]
fn power_on_state() {
    let c = Chip8::new();
    assert_eq!(c.get_pc(), 0x200);
    assert_eq!(c.get_index(), 0);
    assert_eq!(c.get_stack_pointer(), 0);
    assert_eq!(c.get_delay_timer(), 0);
    assert_eq!(c.get_sound_timer(), 0);
    // The font's first and last bytes, and a byte past the font.
    assert_eq!(c.get_memory_byte(0), 0xF0);
    assert_eq!(c.get_memory_byte(79), 0x80);
    assert_eq!(c.get_memory_byte(80), 0x00);
    for i in 0..16 {
        assert_eq!(c.get_register(i), 0);
    }
    assert!(c.get_display().iter().all(|p| !p));
}

#[test]
fn load_rom_places_bytes_at_start_address() {
    let c = machine_with(&[0xAB, 0xCD, 0xEF]);
    assert_eq!(c.get_memory_byte(0x200), 0xAB);
    assert_eq!(c.get_memory_byte(0x201), 0xCD);
    assert_eq!(c.get_memory_byte(0x202), 0xEF);
    assert_eq!(c.get_memory_byte(0x203), 0x00);
}

#[test]
fn load_rom_rejects_oversized_program() {
    let mut c = Chip8::new();
    let big = vec![0u8; 4096 - 0x200 + 1];
    assert_eq!(c.load_rom(&big), Err(Chip8Error::ProgramTooLarge));
    // A program of exactly the available size is accepted, as is an empty
    // one.
    let exact = vec![0u8; 4096 - 0x200];
    assert_eq!(c.load_rom(&exact), Ok(()));
    assert_eq!(c.load_rom(&[]), Ok(()));
}

#[test]
fn load_immediate_writes_only_that_register() {
    // 0x6A42: load 0x42 into register 10.
    let mut c = machine_with(&[0x6A, 0x42]);
    c.clock().unwrap();
    assert_eq!(c.get_register(10), 0x42);
    for i in 0..16 {
        if i != 10 {
            assert_eq!(c.get_register(i), 0);
        }
    }
    assert_eq!(c.get_pc(), 0x202);
}

#[test]
fn add_with_carry_wraps_and_sets_flag() {
    // V0 = 250, V1 = 10, V0 += V1 with carry in VF.
    let mut c = machine_with(&[0x60, 0xFA, 0x61, 0x0A, 0x80, 0x14]);
    c.clock().unwrap();
    c.clock().unwrap();
    c.clock().unwrap();
    assert_eq!(c.get_register(0), 4);
    assert_eq!(c.get_register(0xF), 1);
}

#[test]
fn add_without_carry_clears_flag() {
    // V0 = 10, V1 = 5, V0 += V1.
    let mut c = machine_with(&[0x60, 0x0A, 0x61, 0x05, 0x80, 0x14]);
    c.clock().unwrap();
    c.clock().unwrap();
    c.clock().unwrap();
    assert_eq!(c.get_register(0), 15);
    assert_eq!(c.get_register(0xF), 0);
}

#[test]
fn subtract_without_borrow_sets_flag() {
    // V0 = 10, V1 = 5, V0 -= V1: flag 1 means no borrow.
    let mut c = machine_with(&[0x60, 0x0A, 0x61, 0x05, 0x80, 0x15]);
    c.clock().unwrap();
    c.clock().unwrap();
    c.clock().unwrap();
    assert_eq!(c.get_register(0), 5);
    assert_eq!(c.get_register(0xF), 1);
}

#[test]
fn subtract_with_borrow_wraps_and_clears_flag() {
    // V0 = 5, V1 = 10, V0 -= V1: wraps to 251, flag 0 means borrow.
    let mut c = machine_with(&[0x60, 0x05, 0x61, 0x0A, 0x80, 0x15]);
    c.clock().unwrap();
    c.clock().unwrap();
    c.clock().unwrap();
    assert_eq!(c.get_register(0), 251);
    assert_eq!(c.get_register(0xF), 0);
}

#[test]
fn reverse_subtract_flag_polarity() {
    let mut c = Chip8::new();
    // V0 = 5, V1 = 10: V0 = V1 - V0 = 5, no borrow, flag 1.
    c.execute(Instr::LoadImm { x: 0, nn: 5 }, 0).unwrap();
    c.execute(Instr::LoadImm { x: 1, nn: 10 }, 0).unwrap();
    c.execute(Instr::SubReverse { x: 0, y: 1 }, 0).unwrap();
    assert_eq!(c.get_register(0), 5);
    assert_eq!(c.get_register(0xF), 1);
    // V2 = 10, V3 = 5: V2 = V3 - V2 wraps to 251, borrow, flag 0.
    c.execute(Instr::LoadImm { x: 2, nn: 10 }, 0).unwrap();
    c.execute(Instr::LoadImm { x: 3, nn: 5 }, 0).unwrap();
    c.execute(Instr::SubReverse { x: 2, y: 3 }, 0).unwrap();
    assert_eq!(c.get_register(2), 251);
    assert_eq!(c.get_register(0xF), 0);
}

#[test]
fn bcd_decomposes_234() {
    // V0 = 234, I = 0x300, then the BCD store.
    let mut c = machine_with(&[0x60, 0xEA, 0xA3, 0x00, 0xF0, 0x33]);
    c.clock().unwrap();
    c.clock().unwrap();
    c.clock().unwrap();
    assert_eq!(c.get_memory_byte(0x300), 2);
    assert_eq!(c.get_memory_byte(0x301), 3);
    assert_eq!(c.get_memory_byte(0x302), 4);
}

#[test]
fn bcd_decomposes_7_with_leading_zeros() {
    let mut c = machine_with(&[0x60, 0x07, 0xA3, 0x00, 0xF0, 0x33]);
    c.clock().unwrap();
    c.clock().unwrap();
    c.clock().unwrap();
    assert_eq!(c.get_memory_byte(0x300), 0);
    assert_eq!(c.get_memory_byte(0x301), 0);
    assert_eq!(c.get_memory_byte(0x302), 7);
}

#[test]
fn clear_screen_turns_every_cell_off() {
    // Draw one row of 0xFF (the rom byte at 0x200 itself), then clear.
    let mut c = machine_with(&[0xFF]);
    c.execute(Instr::SetIndex { nnn: 0x200 }, 0).unwrap();
    c.execute(Instr::LoadImm { x: 0, nn: 5 }, 0).unwrap();
    c.execute(Instr::LoadImm { x: 1, nn: 3 }, 0).unwrap();
    c.execute(Instr::Draw { x: 0, y: 1, n: 1 }, 0).unwrap();
    assert!(c.get_display().iter().any(|p| *p));
    c.execute(Instr::Cls, 0).unwrap();
    assert!(c.get_display().iter().all(|p| !p));
}

#[test]
fn drawing_same_row_twice_toggles_and_reports_collision() {
    // Sprite byte 0xFF at (5, 3), drawn twice.
    let mut c = machine_with(&[0xFF]);
    c.execute(Instr::SetIndex { nnn: 0x200 }, 0).unwrap();
    c.execute(Instr::LoadImm { x: 0, nn: 5 }, 0).unwrap();
    c.execute(Instr::LoadImm { x: 1, nn: 3 }, 0).unwrap();
    c.execute(Instr::Draw { x: 0, y: 1, n: 1 }, 0).unwrap();
    {
        let d = c.get_display();
        for col in 0..8 {
            assert!(d[(5 + col) + 64 * 3]);
        }
    }
    // No previously set pixel was turned off: no collision.
    assert_eq!(c.get_register(0xF), 0);
    c.execute(Instr::Draw { x: 0, y: 1, n: 1 }, 0).unwrap();
    // All eight pixels toggled back off, and the overlap is reported.
    assert!(c.get_display().iter().all(|p| !p));
    assert_eq!(c.get_register(0xF), 1);
}

#[test]
fn drawing_wraps_around_both_axes() {
    // An 8x1 row drawn at (60, 31) wraps into columns 0..4 of row 31 and
    // stays on row 31; a 2-row sprite at row 31 wraps to row 0.
    let mut c = machine_with(&[0xFF, 0x80]);
    c.execute(Instr::SetIndex { nnn: 0x200 }, 0).unwrap();
    c.execute(Instr::LoadImm { x: 0, nn: 60 }, 0).unwrap();
    c.execute(Instr::LoadImm { x: 1, nn: 31 }, 0).unwrap();
    c.execute(Instr::Draw { x: 0, y: 1, n: 2 }, 0).unwrap();
    let d = c.get_display();
    // First row: columns 60..64 and 0..4 of row 31.
    for col in 60..64 {
        assert!(d[col + 64 * 31]);
    }
    for col in 0..4 {
        assert!(d[col + 64 * 31]);
    }
    // Second row (byte 0x80): its leftmost pixel, wrapped to row 0.
    assert!(d[60 + 64 * 0]);
    assert!(!d[61 + 64 * 0]);
}

#[test]
fn drawing_same_tall_sprite_twice_restores_screen() {
    // A 3-row sprite drawn twice at the same spot leaves no trace.
    let mut c = machine_with(&[0x3C, 0x42, 0x81]);
    c.execute(Instr::SetIndex { nnn: 0x200 }, 0).unwrap();
    c.execute(Instr::LoadImm { x: 0, nn: 10 }, 0).unwrap();
    c.execute(Instr::LoadImm { x: 1, nn: 7 }, 0).unwrap();
    c.execute(Instr::Draw { x: 0, y: 1, n: 3 }, 0).unwrap();
    assert!(c.get_display().iter().any(|p| *p));
    c.execute(Instr::Draw { x: 0, y: 1, n: 3 }, 0).unwrap();
    assert!(c.get_display().iter().all(|p| !p));
    assert_eq!(c.get_register(0xF), 1);
}

#[test]
fn key_wait_spins_until_a_key_is_pressed() {
    // 0xF00A: wait for a key into V0.
    let mut c = machine_with(&[0xF0, 0x0A]);
    c.clock().unwrap();
    // Nothing pressed: net zero advance, the instruction re-executes.
    assert_eq!(c.get_pc(), 0x200);
    c.clock().unwrap();
    assert_eq!(c.get_pc(), 0x200);
    // Two keys held: the lowest index wins, and the cycle completes.
    c.is_key_pressed(5, true);
    c.is_key_pressed(2, true);
    c.clock().unwrap();
    assert_eq!(c.get_register(0), 2);
    assert_eq!(c.get_pc(), 0x202);
}

#[test]
fn call_then_return_restores_pc() {
    // 0x2204: call 0x204; at 0x204, 0x00EE: return.
    let mut c = machine_with(&[0x22, 0x04, 0x00, 0x00, 0x00, 0xEE]);
    c.clock().unwrap();
    assert_eq!(c.get_pc(), 0x204);
    assert_eq!(c.get_stack_pointer(), 1);
    c.clock().unwrap();
    // Back at the instruction just after the call.
    assert_eq!(c.get_pc(), 0x202);
    assert_eq!(c.get_stack_pointer(), 0);
}

#[test]
fn timers_floor_at_zero() {
    let mut c = Chip8::new();
    c.execute(Instr::LoadImm { x: 0, nn: 2 }, 0).unwrap();
    c.execute(Instr::SetDelay { x: 0 }, 0).unwrap();
    c.execute(Instr::SetSound { x: 0 }, 0).unwrap();
    assert_eq!(c.get_delay_timer(), 2);
    assert_eq!(c.get_sound_timer(), 2);
    c.tick();
    assert_eq!(c.get_delay_timer(), 1);
    c.tick();
    assert_eq!(c.get_delay_timer(), 0);
    assert_eq!(c.get_sound_timer(), 0);
    // Extra ticks never underflow.
    for _ in 0..10 {
        c.tick();
    }
    assert_eq!(c.get_delay_timer(), 0);
    assert_eq!(c.get_sound_timer(), 0);
}

#[test]
fn get_delay_copies_timer_into_register() {
    let mut c = Chip8::new();
    c.execute(Instr::LoadImm { x: 0, nn: 9 }, 0).unwrap();
    c.execute(Instr::SetDelay { x: 0 }, 0).unwrap();
    c.execute(Instr::GetDelay { x: 3 }, 0).unwrap();
    assert_eq!(c.get_register(3), 9);
}

#[test]
fn random_byte_is_masked() {
    let mut c = Chip8::new();
    // The mask, not the random source, decides these bits.
    c.execute(Instr::Rand { x: 0, nn: 0x0F }, 0xAB).unwrap();
    assert_eq!(c.get_register(0), 0x0B);
    c.execute(Instr::Rand { x: 1, nn: 0x00 }, 0xFF).unwrap();
    assert_eq!(c.get_register(1), 0);
    // Through a whole cycle, a zero mask pins the result whatever byte the
    // random source produced.
    let mut c2 = machine_with(&[0xC5, 0x00]);
    c2.clock().unwrap();
    assert_eq!(c2.get_register(5), 0);
    assert_eq!(c2.get_pc(), 0x202);
}

#[test]
fn bitwise_and_shift_ops() {
    let mut c = Chip8::new();
    c.execute(Instr::LoadImm { x: 0, nn: 0b1100 }, 0).unwrap();
    c.execute(Instr::LoadImm { x: 1, nn: 0b1010 }, 0).unwrap();
    c.execute(Instr::Or { x: 0, y: 1 }, 0).unwrap();
    assert_eq!(c.get_register(0), 0b1110);
    c.execute(Instr::And { x: 0, y: 1 }, 0).unwrap();
    assert_eq!(c.get_register(0), 0b1010);
    c.execute(Instr::Xor { x: 0, y: 1 }, 0).unwrap();
    assert_eq!(c.get_register(0), 0);
    // Shift right: flag takes the bit shifted out.
    c.execute(Instr::LoadImm { x: 2, nn: 0b101 }, 0).unwrap();
    c.execute(Instr::ShiftRight { x: 2 }, 0).unwrap();
    assert_eq!(c.get_register(2), 0b10);
    assert_eq!(c.get_register(0xF), 1);
    // Shift left: flag takes the high bit.
    c.execute(Instr::LoadImm { x: 3, nn: 0x81 }, 0).unwrap();
    c.execute(Instr::ShiftLeft { x: 3 }, 0).unwrap();
    assert_eq!(c.get_register(3), 0x02);
    assert_eq!(c.get_register(0xF), 1);
}

#[test]
fn add_immediate_wraps_without_flag() {
    let mut c = Chip8::new();
    c.execute(Instr::LoadImm { x: 0, nn: 0xFF }, 0).unwrap();
    c.execute(Instr::LoadImm { x: 0xF, nn: 0 }, 0).unwrap();
    c.execute(Instr::AddImm { x: 0, nn: 2 }, 0).unwrap();
    assert_eq!(c.get_register(0), 1);
    // Unlike the carry form, the flag register is untouched.
    assert_eq!(c.get_register(0xF), 0);
}

#[test]
fn skips_take_and_fall_through() {
    // V0 = 7; skip-if-equal 7 skips the next instruction.
    let mut c = machine_with(&[0x60, 0x07, 0x30, 0x07, 0x61, 0x01, 0x62, 0x01]);
    c.clock().unwrap();
    c.clock().unwrap();
    assert_eq!(c.get_pc(), 0x206);
    c.clock().unwrap();
    assert_eq!(c.get_register(1), 0);
    assert_eq!(c.get_register(2), 1);
    // Skip-if-not-equal falls through on equality.
    let mut c2 = machine_with(&[0x60, 0x07, 0x40, 0x07, 0x61, 0x01]);
    c2.clock().unwrap();
    c2.clock().unwrap();
    assert_eq!(c2.get_pc(), 0x204);
    c2.clock().unwrap();
    assert_eq!(c2.get_register(1), 1);
}

#[test]
fn register_skips_and_jumps() {
    let mut c = Chip8::new();
    c.execute(Instr::LoadImm { x: 0, nn: 3 }, 0).unwrap();
    c.execute(Instr::LoadImm { x: 1, nn: 3 }, 0).unwrap();
    let pc = c.get_pc();
    c.execute(Instr::SkipEqReg { x: 0, y: 1 }, 0).unwrap();
    assert_eq!(c.get_pc(), pc + 2);
    c.execute(Instr::SkipNeReg { x: 0, y: 1 }, 0).unwrap();
    assert_eq!(c.get_pc(), pc + 2);
    c.execute(Instr::Jump { nnn: 0x321 }, 0).unwrap();
    assert_eq!(c.get_pc(), 0x321);
    // Indexed jump: nnn plus register 0.
    c.execute(Instr::JumpPlus { nnn: 0x300 }, 0).unwrap();
    assert_eq!(c.get_pc(), 0x303);
}

#[test]
fn key_skips_consult_the_keypad() {
    let mut c = Chip8::new();
    c.execute(Instr::LoadImm { x: 0, nn: 4 }, 0).unwrap();
    let pc = c.get_pc();
    c.execute(Instr::SkipKey { x: 0 }, 0).unwrap();
    assert_eq!(c.get_pc(), pc);
    c.execute(Instr::SkipNoKey { x: 0 }, 0).unwrap();
    assert_eq!(c.get_pc(), pc + 2);
    c.is_key_pressed(4, true);
    c.execute(Instr::SkipKey { x: 0 }, 0).unwrap();
    assert_eq!(c.get_pc(), pc + 4);
    c.is_key_pressed(4, false);
    c.execute(Instr::SkipKey { x: 0 }, 0).unwrap();
    assert_eq!(c.get_pc(), pc + 4);
}

#[test]
fn font_char_points_index_at_glyph() {
    let mut c = Chip8::new();
    c.execute(Instr::LoadImm { x: 0, nn: 0xA }, 0).unwrap();
    c.execute(Instr::FontChar { x: 0 }, 0).unwrap();
    assert_eq!(c.get_index(), 50);
    // The glyph bytes for 0xA start there.
    assert_eq!(c.get_memory_byte(50), 0xF0);
}

#[test]
fn add_index_wraps_at_16_bits() {
    let mut c = Chip8::new();
    c.execute(Instr::SetIndex { nnn: 0xFFF }, 0).unwrap();
    c.execute(Instr::LoadImm { x: 0, nn: 0x10 }, 0).unwrap();
    c.execute(Instr::AddIndex { x: 0 }, 0).unwrap();
    assert_eq!(c.get_index(), 0x100F);
}

#[test]
fn store_and_load_registers_round_trip() {
    let mut c = Chip8::new();
    c.execute(Instr::LoadImm { x: 0, nn: 11 }, 0).unwrap();
    c.execute(Instr::LoadImm { x: 1, nn: 22 }, 0).unwrap();
    c.execute(Instr::LoadImm { x: 2, nn: 33 }, 0).unwrap();
    c.execute(Instr::SetIndex { nnn: 0x400 }, 0).unwrap();
    c.execute(Instr::StoreRegs { x: 2 }, 0).unwrap();
    assert_eq!(c.get_memory_byte(0x400), 11);
    assert_eq!(c.get_memory_byte(0x401), 22);
    assert_eq!(c.get_memory_byte(0x402), 33);
    assert_eq!(c.get_memory_byte(0x403), 0);
    c.execute(Instr::LoadImm { x: 0, nn: 0 }, 0).unwrap();
    c.execute(Instr::LoadImm { x: 1, nn: 0 }, 0).unwrap();
    c.execute(Instr::LoadImm { x: 2, nn: 0 }, 0).unwrap();
    c.execute(Instr::LoadRegs { x: 2 }, 0).unwrap();
    assert_eq!(c.get_register(0), 11);
    assert_eq!(c.get_register(1), 22);
    assert_eq!(c.get_register(2), 33);
}

#[test]
fn copy_register() {
    let mut c = Chip8::new();
    c.execute(Instr::LoadImm { x: 1, nn: 77 }, 0).unwrap();
    c.execute(Instr::Copy { x: 0, y: 1 }, 0).unwrap();
    assert_eq!(c.get_register(0), 77);
}

#[test]
fn unknown_opcode_is_reported_with_word_and_address() {
    let mut c = machine_with(&[0xFF, 0xFF]);
    assert_eq!(
        c.clock(),
        Err(Chip8Error::UnknownOpcode { op: 0xFFFF, addr: 0x200 })
    );
    // The fault left the machine untouched: the pc still points there.
    assert_eq!(c.get_pc(), 0x200);
}

#[test]
fn return_with_empty_stack_underflows() {
    let mut c = machine_with(&[0x00, 0xEE]);
    assert_eq!(c.clock(), Err(Chip8Error::StackUnderflow));
    assert_eq!(c.get_pc(), 0x200);
}

#[test]
fn seventeenth_nested_call_overflows() {
    // 0x2200 calls address 0x200: each cycle pushes another return address.
    let mut c = machine_with(&[0x22, 0x00]);
    for _ in 0..16 {
        c.clock().unwrap();
    }
    assert_eq!(c.get_stack_pointer(), 16);
    assert_eq!(c.clock(), Err(Chip8Error::StackOverflow));
    assert_eq!(c.get_stack_pointer(), 16);
    assert_eq!(c.get_pc(), 0x200);
}

#[test]
fn sprite_read_past_memory_end_is_out_of_bounds() {
    let mut c = Chip8::new();
    c.execute(Instr::SetIndex { nnn: 0xFFF }, 0).unwrap();
    assert_eq!(
        c.execute(Instr::Draw { x: 0, y: 1, n: 2 }, 0),
        Err(Chip8Error::OutOfBoundsAccess)
    );
    // One row starting at the last byte is still in bounds.
    assert_eq!(c.execute(Instr::Draw { x: 0, y: 1, n: 1 }, 0), Ok(()));
}

#[test]
fn bcd_past_memory_end_is_out_of_bounds() {
    let mut c = Chip8::new();
    c.execute(Instr::SetIndex { nnn: 0xFFE }, 0).unwrap();
    assert_eq!(
        c.execute(Instr::Bcd { x: 0 }, 0),
        Err(Chip8Error::OutOfBoundsAccess)
    );
}

#[test]
fn register_store_past_memory_end_is_out_of_bounds() {
    let mut c = Chip8::new();
    c.execute(Instr::SetIndex { nnn: 0xFFF }, 0).unwrap();
    assert_eq!(
        c.execute(Instr::StoreRegs { x: 1 }, 0),
        Err(Chip8Error::OutOfBoundsAccess)
    );
    assert_eq!(
        c.execute(Instr::LoadRegs { x: 1 }, 0),
        Err(Chip8Error::OutOfBoundsAccess)
    );
}

#[test]
fn key_skip_with_out_of_range_register_is_out_of_bounds() {
    let mut c = Chip8::new();
    c.execute(Instr::LoadImm { x: 0, nn: 16 }, 0).unwrap();
    assert_eq!(
        c.execute(Instr::SkipKey { x: 0 }, 0),
        Err(Chip8Error::OutOfBoundsAccess)
    );
    assert_eq!(
        c.execute(Instr::SkipNoKey { x: 0 }, 0),
        Err(Chip8Error::OutOfBoundsAccess)
    );
}

#[test]
fn fetch_past_memory_end_is_out_of_bounds() {
    let mut c = Chip8::new();
    c.execute(Instr::Jump { nnn: 0xFFF }, 0).unwrap();
    assert_eq!(c.clock(), Err(Chip8Error::OutOfBoundsAccess));
    assert_eq!(c.get_pc(), 0xFFF);
}

#[test]
fn nop_only_advances() {
    let mut c = machine_with(&[0x00, 0x00]);
    c.clock().unwrap();
    assert_eq!(c.get_pc(), 0x202);
    for i in 0..16 {
        assert_eq!(c.get_register(i), 0);
    }
}
