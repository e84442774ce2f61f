//! Instruction set: the decoded instruction type and the decoder from 16-bit
//! instruction words.
use vstd::prelude::*;

verus! {

/// One decoded instruction. The four 4-bit fields of the instruction word are
/// split into named parts: `x` and `y` are register indices (always below 16),
/// `nn` is an immediate byte, `nnn` a 12-bit address (always below 4096), and
/// `n` a 4-bit sprite height (always below 16).
#[derive(Clone, Copy, PartialEq, Eq, Structural, Debug)]
pub enum Instr {
    /// `0000`: do nothing.
    Nop,
    /// `00E0`: clear the framebuffer.
    Cls,
    /// `00EE`: pop the call stack into the program counter.
    Ret,
    /// `1nnn`: jump to `nnn`.
    Jump { nnn: u16 },
    /// `2nnn`: push the program counter, jump to `nnn`.
    Call { nnn: u16 },
    /// `3xnn`: skip the next instruction if register `x` equals `nn`.
    SkipEqImm { x: usize, nn: u8 },
    /// `4xnn`: skip the next instruction if register `x` differs from `nn`.
    SkipNeImm { x: usize, nn: u8 },
    /// `5xy0`: skip the next instruction if registers `x` and `y` are equal.
    SkipEqReg { x: usize, y: usize },
    /// `6xnn`: load the immediate `nn` into register `x`.
    LoadImm { x: usize, nn: u8 },
    /// `7xnn`: add `nn` to register `x`, wrapping, with no flag effect.
    AddImm { x: usize, nn: u8 },
    /// `8xy0`: copy register `y` into register `x`.
    Copy { x: usize, y: usize },
    /// `8xy1`: bitwise OR of registers `x` and `y` into `x`.
    Or { x: usize, y: usize },
    /// `8xy2`: bitwise AND of registers `x` and `y` into `x`.
    And { x: usize, y: usize },
    /// `8xy3`: bitwise XOR of registers `x` and `y` into `x`.
    Xor { x: usize, y: usize },
    /// `8xy4`: add register `y` to `x`, the flag register records the carry.
    AddCarry { x: usize, y: usize },
    /// `8xy5`: subtract register `y` from `x`; the flag register becomes 1
    /// when no borrow occurred, 0 when it did.
    SubBorrow { x: usize, y: usize },
    /// `8xy6`: shift register `x` right by one; the flag register receives
    /// the bit shifted out.
    ShiftRight { x: usize },
    /// `8xy7`: store `y - x` into register `x`, with the same flag polarity
    /// as `SubBorrow`.
    SubReverse { x: usize, y: usize },
    /// `8xyE`: shift register `x` left by one; the flag register receives
    /// the bit shifted out.
    ShiftLeft { x: usize },
    /// `9xy0`: skip the next instruction if registers `x` and `y` differ.
    SkipNeReg { x: usize, y: usize },
    /// `Annn`: load `nnn` into the index register.
    SetIndex { nnn: u16 },
    /// `Bnnn`: jump to `nnn` plus the value of register 0.
    JumpPlus { nnn: u16 },
    /// `Cxnn`: load a random byte masked with `nn` into register `x`.
    Rand { x: usize, nn: u8 },
    /// `Dxyn`: draw an 8-wide, `n`-tall sprite read from memory at the index
    /// register, at the position held in registers `x` and `y`.
    Draw { x: usize, y: usize, n: u8 },
    /// `Ex9E`: skip the next instruction if the key indexed by register `x`
    /// is pressed.
    SkipKey { x: usize },
    /// `ExA1`: skip the next instruction if the key indexed by register `x`
    /// is not pressed.
    SkipNoKey { x: usize },
    /// `Fx07`: copy the delay timer into register `x`.
    GetDelay { x: usize },
    /// `Fx0A`: wait for a key: store the lowest pressed key index in register
    /// `x`, or rewind the program counter so the instruction re-executes.
    WaitKey { x: usize },
    /// `Fx15`: set the delay timer from register `x`.
    SetDelay { x: usize },
    /// `Fx18`: set the sound timer from register `x`.
    SetSound { x: usize },
    /// `Fx1E`: add register `x` into the index register, wrapping at 16 bits.
    AddIndex { x: usize },
    /// `Fx29`: point the index register at the font glyph for register `x`.
    FontChar { x: usize },
    /// `Fx33`: store the decimal digits of register `x` at the index
    /// register: hundreds, tens, ones.
    Bcd { x: usize },
    /// `Fx55`: store registers 0 through `x` into memory at the index
    /// register.
    StoreRegs { x: usize },
    /// `Fx65`: load registers 0 through `x` from memory at the index
    /// register.
    LoadRegs { x: usize },
}

/// The field ranges that `decode` guarantees: register indices below 16,
/// addresses below 4096, sprite heights below 16.
pub open spec fn instr_wf(i: Instr) -> bool {
    match i {
        Instr::Nop | Instr::Cls | Instr::Ret => true,
        Instr::Jump { nnn } | Instr::Call { nnn } | Instr::SetIndex { nnn } | Instr::JumpPlus {
            nnn,
        } => nnn < 4096,
        Instr::SkipEqImm { x, nn } | Instr::SkipNeImm { x, nn } | Instr::LoadImm { x, nn }
        | Instr::AddImm { x, nn } | Instr::Rand { x, nn } => x < 16,
        Instr::SkipEqReg { x, y } | Instr::SkipNeReg { x, y } | Instr::Copy { x, y } | Instr::Or {
            x,
            y,
        } | Instr::And { x, y } | Instr::Xor { x, y } | Instr::AddCarry { x, y }
        | Instr::SubBorrow { x, y } | Instr::SubReverse { x, y } => x < 16 && y < 16,
        Instr::ShiftRight { x } | Instr::ShiftLeft { x } | Instr::SkipKey { x }
        | Instr::SkipNoKey { x } | Instr::GetDelay { x } | Instr::WaitKey { x } | Instr::SetDelay {
            x,
        } | Instr::SetSound { x } | Instr::AddIndex { x } | Instr::FontChar { x } | Instr::Bcd {
            x,
        } | Instr::StoreRegs { x } | Instr::LoadRegs { x } => x < 16,
        Instr::Draw { x, y, n } => x < 16 && y < 16 && n < 16,
    }
}

/// What `decode` returns: the instruction encoded by the word `op`, split
/// into its named fields, or `None` for a word outside the instruction set.
pub open spec fn spec_decode(op: u16) -> Option<Instr> {
    let d1 = (op >> 12) & 0xF;
    let x = ((op >> 8) & 0xF) as usize;
    let y = ((op >> 4) & 0xF) as usize;
    let d4 = op & 0xF;
    let nn = (op & 0xFF) as u8;
    let nnn = op & 0xFFF;
    if op == 0x0000 {
        Some(Instr::Nop)
    } else if op == 0x00E0 {
        Some(Instr::Cls)
    } else if op == 0x00EE {
        Some(Instr::Ret)
    } else if d1 == 0x1 {
        Some(Instr::Jump { nnn })
    } else if d1 == 0x2 {
        Some(Instr::Call { nnn })
    } else if d1 == 0x3 {
        Some(Instr::SkipEqImm { x, nn })
    } else if d1 == 0x4 {
        Some(Instr::SkipNeImm { x, nn })
    } else if d1 == 0x5 && d4 == 0x0 {
        Some(Instr::SkipEqReg { x, y })
    } else if d1 == 0x6 {
        Some(Instr::LoadImm { x, nn })
    } else if d1 == 0x7 {
        Some(Instr::AddImm { x, nn })
    } else if d1 == 0x8 && d4 == 0x0 {
        Some(Instr::Copy { x, y })
    } else if d1 == 0x8 && d4 == 0x1 {
        Some(Instr::Or { x, y })
    } else if d1 == 0x8 && d4 == 0x2 {
        Some(Instr::And { x, y })
    } else if d1 == 0x8 && d4 == 0x3 {
        Some(Instr::Xor { x, y })
    } else if d1 == 0x8 && d4 == 0x4 {
        Some(Instr::AddCarry { x, y })
    } else if d1 == 0x8 && d4 == 0x5 {
        Some(Instr::SubBorrow { x, y })
    } else if d1 == 0x8 && d4 == 0x6 {
        Some(Instr::ShiftRight { x })
    } else if d1 == 0x8 && d4 == 0x7 {
        Some(Instr::SubReverse { x, y })
    } else if d1 == 0x8 && d4 == 0xE {
        Some(Instr::ShiftLeft { x })
    } else if d1 == 0x9 && d4 == 0x0 {
        Some(Instr::SkipNeReg { x, y })
    } else if d1 == 0xA {
        Some(Instr::SetIndex { nnn })
    } else if d1 == 0xB {
        Some(Instr::JumpPlus { nnn })
    } else if d1 == 0xC {
        Some(Instr::Rand { x, nn })
    } else if d1 == 0xD {
        Some(Instr::Draw { x, y, n: d4 as u8 })
    } else if d1 == 0xE && nn == 0x9E {
        Some(Instr::SkipKey { x })
    } else if d1 == 0xE && nn == 0xA1 {
        Some(Instr::SkipNoKey { x })
    } else if d1 == 0xF && nn == 0x07 {
        Some(Instr::GetDelay { x })
    } else if d1 == 0xF && nn == 0x0A {
        Some(Instr::WaitKey { x })
    } else if d1 == 0xF && nn == 0x15 {
        Some(Instr::SetDelay { x })
    } else if d1 == 0xF && nn == 0x18 {
        Some(Instr::SetSound { x })
    } else if d1 == 0xF && nn == 0x1E {
        Some(Instr::AddIndex { x })
    } else if d1 == 0xF && nn == 0x29 {
        Some(Instr::FontChar { x })
    } else if d1 == 0xF && nn == 0x33 {
        Some(Instr::Bcd { x })
    } else if d1 == 0xF && nn == 0x55 {
        Some(Instr::StoreRegs { x })
    } else if d1 == 0xF && nn == 0x65 {
        Some(Instr::LoadRegs { x })
    } else {
        None
    }
}

/// Every instruction the decoder produces has its fields in range.
pub proof fn lemma_decode_wf(op: u16)
    ensures
        spec_decode(op) matches Some(i) ==> instr_wf(i),
{
    assert(((op >> 12) & 0xF) < 16 && ((op >> 8) & 0xF) < 16 && ((op >> 4) & 0xF) < 16 && (op
        & 0xF) < 16 && (op & 0xFFF) < 4096) by (bit_vector);
}

/// Splits an instruction word into a decoded instruction, or reports a word
/// with no defined meaning.
pub fn decode(op: u16) -> (r: Option<Instr>)
    ensures
        r == spec_decode(op),
        r matches Some(i) ==> instr_wf(i),
{
    proof {
        lemma_decode_wf(op);
    }
    let d1 = (op >> 12) & 0xF;
    let x = (((op >> 8) & 0xF)) as usize;
    let y = (((op >> 4) & 0xF)) as usize;
    let d4 = op & 0xF;
    let nn = (op & 0xFF) as u8;
    let nnn = op & 0xFFF;
    if op == 0x0000 {
        Some(Instr::Nop)
    } else if op == 0x00E0 {
        Some(Instr::Cls)
    } else if op == 0x00EE {
        Some(Instr::Ret)
    } else if d1 == 0x1 {
        Some(Instr::Jump { nnn })
    } else if d1 == 0x2 {
        Some(Instr::Call { nnn })
    } else if d1 == 0x3 {
        Some(Instr::SkipEqImm { x, nn })
    } else if d1 == 0x4 {
        Some(Instr::SkipNeImm { x, nn })
    } else if d1 == 0x5 && d4 == 0x0 {
        Some(Instr::SkipEqReg { x, y })
    } else if d1 == 0x6 {
        Some(Instr::LoadImm { x, nn })
    } else if d1 == 0x7 {
        Some(Instr::AddImm { x, nn })
    } else if d1 == 0x8 && d4 == 0x0 {
        Some(Instr::Copy { x, y })
    } else if d1 == 0x8 && d4 == 0x1 {
        Some(Instr::Or { x, y })
    } else if d1 == 0x8 && d4 == 0x2 {
        Some(Instr::And { x, y })
    } else if d1 == 0x8 && d4 == 0x3 {
        Some(Instr::Xor { x, y })
    } else if d1 == 0x8 && d4 == 0x4 {
        Some(Instr::AddCarry { x, y })
    } else if d1 == 0x8 && d4 == 0x5 {
        Some(Instr::SubBorrow { x, y })
    } else if d1 == 0x8 && d4 == 0x6 {
        Some(Instr::ShiftRight { x })
    } else if d1 == 0x8 && d4 == 0x7 {
        Some(Instr::SubReverse { x, y })
    } else if d1 == 0x8 && d4 == 0xE {
        Some(Instr::ShiftLeft { x })
    } else if d1 == 0x9 && d4 == 0x0 {
        Some(Instr::SkipNeReg { x, y })
    } else if d1 == 0xA {
        Some(Instr::SetIndex { nnn })
    } else if d1 == 0xB {
        Some(Instr::JumpPlus { nnn })
    } else if d1 == 0xC {
        Some(Instr::Rand { x, nn })
    } else if d1 == 0xD {
        Some(Instr::Draw { x, y, n: d4 as u8 })
    } else if d1 == 0xE && nn == 0x9E {
        Some(Instr::SkipKey { x })
    } else if d1 == 0xE && nn == 0xA1 {
        Some(Instr::SkipNoKey { x })
    } else if d1 == 0xF && nn == 0x07 {
        Some(Instr::GetDelay { x })
    } else if d1 == 0xF && nn == 0x0A {
        Some(Instr::WaitKey { x })
    } else if d1 == 0xF && nn == 0x15 {
        Some(Instr::SetDelay { x })
    } else if d1 == 0xF && nn == 0x18 {
        Some(Instr::SetSound { x })
    } else if d1 == 0xF && nn == 0x1E {
        Some(Instr::AddIndex { x })
    } else if d1 == 0xF && nn == 0x29 {
        Some(Instr::FontChar { x })
    } else if d1 == 0xF && nn == 0x33 {
        Some(Instr::Bcd { x })
    } else if d1 == 0xF && nn == 0x55 {
        Some(Instr::StoreRegs { x })
    } else if d1 == 0xF && nn == 0x65 {
        Some(Instr::LoadRegs { x })
    } else {
        None
    }
}

} // verus!
