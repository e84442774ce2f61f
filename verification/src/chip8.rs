//! The machine itself: state, construction, program loading, the
//! fetch-decode-execute cycle and the timer tick.
use vstd::prelude::*;

use crate::isa::Instr;
use crate::isa::instr_wf;
use crate::isa::spec_decode;

verus! {

/// Where loaded programs begin in memory.
pub const START_ADDRESS: u16 = 0x200;

/// Number of bytes of built-in font data at the bottom of memory.
pub const FONTSET_SIZE: usize = 80;

/// Number of bytes of memory.
pub const MEMORY_SIZE: usize = 4096;

/// A fault raised by one machine operation. Each aborts only the operation
/// that raised it: the machine state is left exactly as it was.
#[derive(Clone, Copy, PartialEq, Eq, Structural, Debug)]
pub enum Chip8Error {
    /// The fetched instruction word `op`, read at address `addr`, matches no
    /// instruction.
    UnknownOpcode { op: u16, addr: u16 },
    /// A computed address fell outside the 4096-byte memory, or a
    /// register-derived key index fell outside the sixteen-key keypad.
    OutOfBoundsAccess,
    /// A call was executed with sixteen return addresses already stacked.
    StackOverflow,
    /// A return was executed with an empty call stack.
    StackUnderflow,
    /// A program image larger than the memory above the load address.
    ProgramTooLarge,
}

/// The mathematical model of the machine: every component of its state as a
/// plain value or sequence.
#[verifier::ext_equal]
pub ghost struct Chip8View {
    /// The call stack: sixteen slots for return addresses.
    pub stack: Seq<u16>,
    /// The program counter: address of the next instruction to fetch.
    pub pc: u16,
    /// The stack pointer: number of return addresses currently stacked.
    pub sp: u16,
    /// The index register: a memory-address base for sprites and transfers.
    pub index: u16,
    /// The 4096 bytes of memory.
    pub memory: Seq<u8>,
    /// The sixteen general-purpose registers; register 15 is the flag.
    pub registers: Seq<u8>,
    /// The 64x32 framebuffer, row-major: pixel (x, y) is cell x + 64 * y.
    pub video: Seq<bool>,
    /// The sixteen key-pressed flags.
    pub keyboard: Seq<bool>,
    /// The delay timer.
    pub delay_timer: u8,
    /// The sound timer.
    pub sound_timer: u8,
}

/// Well-formedness of a machine state: every component has its fixed size
/// and the stack pointer never exceeds the stack capacity.
pub open spec fn view_wf(v: Chip8View) -> bool {
    &&& v.stack.len() == 16
    &&& v.memory.len() == MEMORY_SIZE
    &&& v.registers.len() == 16
    &&& v.video.len() == 2048
    &&& v.keyboard.len() == 16
    &&& v.sp <= 16
}

/// The built-in font: sixteen glyphs of five bytes each, loaded at address 0.
pub open spec fn spec_font() -> Seq<u8> {
    seq![
        0xF0u8, 0x90, 0x90, 0x90, 0xF0, 0x20, 0x60, 0x20, 0x20, 0x70, 0xF0, 0x10, 0xF0, 0x80,
        0xF0, 0xF0, 0x10, 0xF0, 0x10, 0xF0, 0x90, 0x90, 0xF0, 0x10, 0x10, 0xF0, 0x80, 0xF0,
        0x10, 0xF0, 0xF0, 0x80, 0xF0, 0x90, 0xF0, 0xF0, 0x10, 0x20, 0x40, 0x40, 0xF0, 0x90,
        0xF0, 0x90, 0xF0, 0xF0, 0x90, 0xF0, 0x10, 0xF0, 0xF0, 0x90, 0xF0, 0x90, 0x90, 0xE0,
        0x90, 0xE0, 0x90, 0xE0, 0xF0, 0x80, 0x80, 0x80, 0xF0, 0xE0, 0x90, 0x90, 0x90, 0xE0,
        0xF0, 0x80, 0xF0, 0x80, 0xF0, 0xF0, 0x80, 0xF0, 0x80, 0x80,
    ]
}

/// The state a newly constructed machine is in: the font in the first 80
/// memory cells, the program counter at the load address, all else zeroed.
pub open spec fn initial_state() -> Chip8View {
    Chip8View {
        stack: Seq::new(16, |i: int| 0u16),
        pc: START_ADDRESS,
        sp: 0,
        index: 0,
        memory: Seq::new(MEMORY_SIZE as nat, |i: int| if i < FONTSET_SIZE {
            spec_font()[i]
        } else {
            0u8
        }),
        registers: Seq::new(16, |i: int| 0u8),
        video: Seq::new(2048, |i: int| false),
        keyboard: Seq::new(16, |i: int| false),
        delay_timer: 0,
        sound_timer: 0,
    }
}

/// Addition on 8-bit values that wraps around.
pub open spec fn wrap_add8(a: u8, b: u8) -> u8 {
    if a + b > 255 {
        (a + b - 256) as u8
    } else {
        (a + b) as u8
    }
}

/// Subtraction on 8-bit values that wraps around.
pub open spec fn wrap_sub8(a: u8, b: u8) -> u8 {
    if a - b < 0 {
        (a - b + 256) as u8
    } else {
        (a - b) as u8
    }
}

/// Addition on 16-bit values that wraps around.
pub open spec fn wrap_add16(a: u16, b: u16) -> u16 {
    if a + b > 0xFFFF {
        (a + b - 0x10000) as u16
    } else {
        (a + b) as u16
    }
}

/// Subtraction on 16-bit values that wraps around.
pub open spec fn wrap_sub16(a: u16, b: u16) -> u16 {
    if a - b < 0 {
        (a - b + 0x10000) as u16
    } else {
        (a - b) as u16
    }
}

/// The state `v` with register `x` set to `val`.
pub open spec fn with_reg(v: Chip8View, x: usize, val: u8) -> Chip8View {
    Chip8View { registers: v.registers.update(x as int, val), ..v }
}

/// The state `v` with register `x` set to `val` and the flag register set to
/// `flag`. When `x` is the flag register itself, the flag value wins, as it
/// is written second.
pub open spec fn with_reg_flag(v: Chip8View, x: usize, val: u8, flag: u8) -> Chip8View {
    Chip8View { registers: v.registers.update(x as int, val).update(15, flag), ..v }
}

/// The state `v` with the program counter advanced past one instruction when
/// `skip` holds.
pub open spec fn with_skip(v: Chip8View, skip: bool) -> Chip8View {
    Chip8View { pc: if skip { wrap_add16(v.pc, 2) } else { v.pc }, ..v }
}

/// The lowest pressed key at or above index `k`, if any.
pub open spec fn first_pressed_from(kb: Seq<bool>, k: int) -> Option<u8>
    decreases 16 - k,
{
    if k < 0 || k >= 16 {
        None
    } else if kb[k] {
        Some(k as u8)
    } else {
        first_pressed_from(kb, k + 1)
    }
}

/// The single-bit mask selecting sprite column `col`, 0 being leftmost.
pub open spec fn bit_mask(col: int) -> u8 {
    if col == 0 {
        0x80
    } else if col == 1 {
        0x40
    } else if col == 2 {
        0x20
    } else if col == 3 {
        0x10
    } else if col == 4 {
        0x08
    } else if col == 5 {
        0x04
    } else if col == 6 {
        0x02
    } else {
        0x01
    }
}

/// Whether sprite byte `b` has its pixel at column `col` set.
pub open spec fn sprite_bit(b: u8, col: int) -> bool {
    b & bit_mask(col) != 0
}

/// The framebuffer cell hit by sprite pixel coordinates (`x`, `y`): both
/// wrap around the 64x32 screen independently.
pub open spec fn pixel_cell(x: int, y: int) -> int {
    (x % 64) + 64 * (y % 32)
}

/// XOR-draws the bits of sprite byte `b` from column `col` rightward into
/// the framebuffer row `y`, starting at screen column `x0`. Returns the new
/// framebuffer and the collision flag: `fl`, or whether any drawn pixel was
/// previously on.
pub open spec fn draw_row(vid: Seq<bool>, fl: bool, b: u8, x0: int, y: int, col: int) -> (Seq<
    bool,
>, bool)
    decreases 8 - col,
{
    if col < 0 || col >= 8 {
        (vid, fl)
    } else {
        let cell = pixel_cell(x0 + col, y);
        if sprite_bit(b, col) {
            draw_row(vid.update(cell, !vid[cell]), fl || vid[cell], b, x0, y, col + 1)
        } else {
            draw_row(vid, fl, b, x0, y, col + 1)
        }
    }
}

/// XOR-draws sprite rows `row` up to `n`, read from memory at `base`, at
/// screen position (`x0`, `y0`). Returns the new framebuffer and the
/// collision flag accumulated over every drawn pixel.
pub open spec fn draw_rows(
    vid: Seq<bool>,
    fl: bool,
    mem: Seq<u8>,
    base: int,
    x0: int,
    y0: int,
    row: int,
    n: int,
) -> (Seq<bool>, bool)
    decreases n - row,
{
    if row < 0 || row >= n {
        (vid, fl)
    } else {
        let rd = draw_row(vid, fl, mem[base + row], x0, y0 + row, 0);
        draw_rows(rd.0, rd.1, mem, base, x0, y0, row + 1, n)
    }
}

/// Memory with registers 0 through `count - 1` stored at `base`.
pub open spec fn mem_stored(mem: Seq<u8>, regs: Seq<u8>, base: int, count: int) -> Seq<u8> {
    Seq::new(mem.len(), |j: int| if base <= j < base + count {
        regs[j - base]
    } else {
        mem[j]
    })
}

/// Registers 0 through `count - 1` loaded from memory at `base`; the rest
/// keep their values.
pub open spec fn regs_loaded(regs: Seq<u8>, mem: Seq<u8>, base: int, count: int) -> Seq<u8> {
    Seq::new(16, |j: int| if j < count {
        mem[base + j]
    } else {
        regs[j]
    })
}

/// The big-endian combination of two instruction bytes.
pub open spec fn spec_word(hi: u8, lo: u8) -> u16 {
    ((hi as u16) << 8) | (lo as u16)
}

/// What executing one decoded instruction does: the next machine state, or
/// the fault that leaves the state untouched. `v` is the state after the
/// fetch advanced the program counter past the instruction; `rnd` is the
/// byte the random source handed over, which only `Instr::Rand` reads.
pub open spec fn spec_execute(v: Chip8View, i: Instr, rnd: u8) -> Result<Chip8View, Chip8Error> {
    match i {
        Instr::Nop => Ok(v),
        Instr::Cls => Ok(Chip8View { video: Seq::new(2048, |j: int| false), ..v }),
        Instr::Ret => if v.sp == 0 {
            Err(Chip8Error::StackUnderflow)
        } else {
            Ok(Chip8View { sp: (v.sp - 1) as u16, pc: v.stack[v.sp - 1], ..v })
        },
        Instr::Jump { nnn } => Ok(Chip8View { pc: nnn, ..v }),
        Instr::Call { nnn } => if v.sp >= 16 {
            Err(Chip8Error::StackOverflow)
        } else {
            Ok(
                Chip8View {
                    stack: v.stack.update(v.sp as int, v.pc),
                    sp: (v.sp + 1) as u16,
                    pc: nnn,
                    ..v
                },
            )
        },
        Instr::SkipEqImm { x, nn } => Ok(with_skip(v, v.registers[x as int] == nn)),
        Instr::SkipNeImm { x, nn } => Ok(with_skip(v, v.registers[x as int] != nn)),
        Instr::SkipEqReg { x, y } => Ok(
            with_skip(v, v.registers[x as int] == v.registers[y as int]),
        ),
        Instr::LoadImm { x, nn } => Ok(with_reg(v, x, nn)),
        Instr::AddImm { x, nn } => Ok(with_reg(v, x, wrap_add8(v.registers[x as int], nn))),
        Instr::Copy { x, y } => Ok(with_reg(v, x, v.registers[y as int])),
        Instr::Or { x, y } => Ok(with_reg(v, x, v.registers[x as int] | v.registers[y as int])),
        Instr::And { x, y } => Ok(with_reg(v, x, v.registers[x as int] & v.registers[y as int])),
        Instr::Xor { x, y } => Ok(with_reg(v, x, v.registers[x as int] ^ v.registers[y as int])),
        Instr::AddCarry { x, y } => Ok(
            with_reg_flag(
                v,
                x,
                wrap_add8(v.registers[x as int], v.registers[y as int]),
                if v.registers[x as int] + v.registers[y as int] > 255 {
                    1u8
                } else {
                    0u8
                },
            ),
        ),
        Instr::SubBorrow { x, y } => Ok(
            with_reg_flag(
                v,
                x,
                wrap_sub8(v.registers[x as int], v.registers[y as int]),
                if v.registers[x as int] >= v.registers[y as int] {
                    1u8
                } else {
                    0u8
                },
            ),
        ),
        Instr::ShiftRight { x } => Ok(
            with_reg_flag(v, x, v.registers[x as int] >> 1u8, v.registers[x as int] & 1),
        ),
        Instr::SubReverse { x, y } => Ok(
            with_reg_flag(
                v,
                x,
                wrap_sub8(v.registers[y as int], v.registers[x as int]),
                if v.registers[y as int] >= v.registers[x as int] {
                    1u8
                } else {
                    0u8
                },
            ),
        ),
        Instr::ShiftLeft { x } => Ok(
            with_reg_flag(
                v,
                x,
                v.registers[x as int] << 1u8,
                (v.registers[x as int] >> 7u8) & 1,
            ),
        ),
        Instr::SkipNeReg { x, y } => Ok(
            with_skip(v, v.registers[x as int] != v.registers[y as int]),
        ),
        Instr::SetIndex { nnn } => Ok(Chip8View { index: nnn, ..v }),
        Instr::JumpPlus { nnn } => Ok(Chip8View { pc: (v.registers[0] + nnn) as u16, ..v }),
        Instr::Rand { x, nn } => Ok(with_reg(v, x, rnd & nn)),
        Instr::Draw { x, y, n } => if n > 0 && v.index + n > MEMORY_SIZE {
            Err(Chip8Error::OutOfBoundsAccess)
        } else {
            let rd = draw_rows(
                v.video,
                false,
                v.memory,
                v.index as int,
                v.registers[x as int] as int,
                v.registers[y as int] as int,
                0,
                n as int,
            );
            Ok(
                Chip8View {
                    video: rd.0,
                    registers: v.registers.update(15, if rd.1 {
                        1u8
                    } else {
                        0u8
                    }),
                    ..v
                },
            )
        },
        Instr::SkipKey { x } => if v.registers[x as int] >= 16 {
            Err(Chip8Error::OutOfBoundsAccess)
        } else {
            Ok(with_skip(v, v.keyboard[v.registers[x as int] as int]))
        },
        Instr::SkipNoKey { x } => if v.registers[x as int] >= 16 {
            Err(Chip8Error::OutOfBoundsAccess)
        } else {
            Ok(with_skip(v, !v.keyboard[v.registers[x as int] as int]))
        },
        Instr::GetDelay { x } => Ok(with_reg(v, x, v.delay_timer)),
        Instr::WaitKey { x } => match first_pressed_from(v.keyboard, 0) {
            Some(k) => Ok(with_reg(v, x, k)),
            None => Ok(Chip8View { pc: wrap_sub16(v.pc, 2), ..v }),
        },
        Instr::SetDelay { x } => Ok(Chip8View { delay_timer: v.registers[x as int], ..v }),
        Instr::SetSound { x } => Ok(Chip8View { sound_timer: v.registers[x as int], ..v }),
        Instr::AddIndex { x } => Ok(
            Chip8View { index: wrap_add16(v.index, v.registers[x as int] as u16), ..v },
        ),
        Instr::FontChar { x } => Ok(Chip8View { index: (v.registers[x as int] * 5) as u16, ..v }),
        Instr::Bcd { x } => if v.index + 2 >= MEMORY_SIZE {
            Err(Chip8Error::OutOfBoundsAccess)
        } else {
            Ok(
                Chip8View {
                    memory: v.memory.update(v.index as int, (v.registers[x as int] / 100) as u8)
                        .update(v.index + 1, ((v.registers[x as int] / 10) % 10) as u8).update(
                        v.index + 2,
                        (v.registers[x as int] % 10) as u8,
                    ),
                    ..v
                },
            )
        },
        Instr::StoreRegs { x } => if v.index + x >= MEMORY_SIZE {
            Err(Chip8Error::OutOfBoundsAccess)
        } else {
            Ok(
                Chip8View {
                    memory: mem_stored(v.memory, v.registers, v.index as int, x + 1),
                    ..v
                },
            )
        },
        Instr::LoadRegs { x } => if v.index + x >= MEMORY_SIZE {
            Err(Chip8Error::OutOfBoundsAccess)
        } else {
            Ok(
                Chip8View {
                    registers: regs_loaded(v.registers, v.memory, v.index as int, x + 1),
                    ..v
                },
            )
        },
    }
}

/// What one timer tick does: each timer counts down by one and floors at
/// zero; nothing else moves.
pub open spec fn spec_tick(v: Chip8View) -> Chip8View {
    Chip8View {
        delay_timer: if v.delay_timer > 0 {
            (v.delay_timer - 1) as u8
        } else {
            0u8
        },
        sound_timer: if v.sound_timer > 0 {
            (v.sound_timer - 1) as u8
        } else {
            0u8
        },
        ..v
    }
}

/// What one whole fetch-decode-execute cycle does, given the byte `rnd` the
/// random source hands over: the next state, or the fault that leaves the
/// state untouched. The program counter is advanced past the instruction
/// before the instruction executes, so jumps overwrite the advance.
pub open spec fn spec_step(v: Chip8View, rnd: u8) -> Result<Chip8View, Chip8Error> {
    if v.pc + 1 >= MEMORY_SIZE {
        Err(Chip8Error::OutOfBoundsAccess)
    } else {
        let op = spec_word(v.memory[v.pc as int], v.memory[v.pc + 1]);
        match crate::isa::spec_decode(op) {
            None => Err(Chip8Error::UnknownOpcode { op, addr: v.pc }),
            Some(i) => spec_execute(
                Chip8View { pc: (v.pc + 2) as u16, ..v },
                i,
                rnd,
            ),
        }
    }
}

/// Whether the next step of `v` executes the random-byte instruction: only
/// then does the step depend on the random source.
pub open spec fn step_is_random(v: Chip8View) -> bool {
    &&& v.pc + 1 < MEMORY_SIZE
    &&& (crate::isa::spec_decode(spec_word(v.memory[v.pc as int], v.memory[v.pc + 1])) matches Some(
        Instr::Rand { x, nn },
    ))
}

/// The interpreter. All state lives here; the host drives it through
/// [`Chip8::clock`], [`Chip8::tick`] and [`Chip8::is_key_pressed`] and reads
/// the framebuffer through [`Chip8::get_display`].
pub struct Chip8 {
    stack: Vec<u16>,
    pc: u16,
    sp: u16,
    index: u16,
    memory: Vec<u8>,
    registers: Vec<u8>,
    video: Vec<bool>,
    keyboard: Vec<bool>,
    delay_timer: u8,
    sound_timer: u8,
}

impl View for Chip8 {
    type V = Chip8View;

    closed spec fn view(&self) -> Chip8View {
        Chip8View {
            stack: self.stack@,
            pc: self.pc,
            sp: self.sp,
            index: self.index,
            memory: self.memory@,
            registers: self.registers@,
            video: self.video@,
            keyboard: self.keyboard@,
            delay_timer: self.delay_timer,
            sound_timer: self.sound_timer,
        }
    }
}

impl Chip8 {
    /// Well-formedness of the machine, in terms of its model.
    pub open spec fn wf(&self) -> bool {
        view_wf(self@)
    }

    /// The 80 font bytes, as executable data.
    fn font_bytes() -> (r: Vec<u8>)
        ensures
            r@ == spec_font(),
    {
        let r: Vec<u8> = vec![
            0xF0u8, 0x90, 0x90, 0x90, 0xF0, 0x20, 0x60, 0x20, 0x20, 0x70, 0xF0, 0x10, 0xF0, 0x80,
            0xF0, 0xF0, 0x10, 0xF0, 0x10, 0xF0, 0x90, 0x90, 0xF0, 0x10, 0x10, 0xF0, 0x80, 0xF0,
            0x10, 0xF0, 0xF0, 0x80, 0xF0, 0x90, 0xF0, 0xF0, 0x10, 0x20, 0x40, 0x40, 0xF0, 0x90,
            0xF0, 0x90, 0xF0, 0xF0, 0x90, 0xF0, 0x10, 0xF0, 0xF0, 0x90, 0xF0, 0x90, 0x90, 0xE0,
            0x90, 0xE0, 0x90, 0xE0, 0xF0, 0x80, 0x80, 0x80, 0xF0, 0xE0, 0x90, 0x90, 0x90, 0xE0,
            0xF0, 0x80, 0xF0, 0x80, 0xF0, 0xF0, 0x80, 0xF0, 0x80, 0x80,
        ];
        proof {
            assert(r@ =~= spec_font());
        }
        r
    }

    /// A vector holding `n` copies of `val`.
    fn filled<T: Copy>(val: T, n: usize) -> (r: Vec<T>)
        ensures
            r@ == Seq::new(n as nat, |i: int| val),
    {
        let mut r: Vec<T> = Vec::new();
        while r.len() < n
            invariant
                r@.len() <= n,
                forall|j: int| 0 <= j < r@.len() ==> r@[j] == val,
            decreases n - r@.len(),
        {
            r.push(val);
        }
        proof {
            assert(r@ =~= Seq::new(n as nat, |i: int| val));
        }
        r
    }

    /// Loads the font into the first 80 memory cells; the rest of memory is
    /// untouched.
    fn init_memory(&mut self)
        requires
            old(self).wf(),
        ensures
            final(self).wf(),
            final(self)@ == (Chip8View {
                memory: Seq::new(MEMORY_SIZE as nat, |i: int| if i < FONTSET_SIZE {
                    spec_font()[i]
                } else {
                    old(self)@.memory[i]
                }),
                ..old(self)@
            }),
    {
        let font = Self::font_bytes();
        let mut i: usize = 0;
        while i < FONTSET_SIZE
            invariant
                self.wf(),
                i <= FONTSET_SIZE,
                font@ == spec_font(),
                self@ == (Chip8View {
                    memory: Seq::new(MEMORY_SIZE as nat, |j: int| if j < i {
                        spec_font()[j]
                    } else {
                        old(self)@.memory[j]
                    }),
                    ..old(self)@
                }),
            decreases FONTSET_SIZE - i,
        {
            self.memory[i] = font[i];
            i = i + 1;
            proof {
                assert(self@.memory =~= Seq::new(MEMORY_SIZE as nat, |j: int| if j < i {
                    spec_font()[j]
                } else {
                    old(self)@.memory[j]
                }));
                assert(self@ =~= (Chip8View {
                    memory: Seq::new(MEMORY_SIZE as nat, |j: int| if j < i {
                        spec_font()[j]
                    } else {
                        old(self)@.memory[j]
                    }),
                    ..old(self)@
                }));
            }
        }
        proof {
            assert(self@ =~= (Chip8View {
                memory: Seq::new(MEMORY_SIZE as nat, |i: int| if i < FONTSET_SIZE {
                    spec_font()[i]
                } else {
                    old(self)@.memory[i]
                }),
                ..old(self)@
            }));
        }
    }

    /// Builds a machine in its power-on state: font loaded, program counter
    /// at the load address, everything else zeroed.
    pub fn new() -> (r: Self)
        ensures
            r.wf(),
            r@ == initial_state(),
    {
        let mut emu = Chip8 {
            stack: Self::filled(0u16, 16),
            pc: START_ADDRESS,
            sp: 0,
            index: 0,
            memory: Self::filled(0u8, MEMORY_SIZE),
            registers: Self::filled(0u8, 16),
            video: Self::filled(false, 2048),
            keyboard: Self::filled(false, 16),
            delay_timer: 0,
            sound_timer: 0,
        };
        emu.init_memory();
        proof {
            assert(emu@.memory =~= initial_state().memory);
            assert(emu@ =~= initial_state());
        }
        emu
    }

    /// Copies a program image into memory at the load address. A program
    /// larger than the memory above that address is rejected whole.
    pub fn load_rom(&mut self, data: &[u8]) -> (r: Result<(), Chip8Error>)
        requires
            old(self).wf(),
        ensures
            final(self).wf(),
            match r {
                Ok(()) => data@.len() <= MEMORY_SIZE - START_ADDRESS && final(self)@ == (Chip8View {
                    memory: Seq::new(MEMORY_SIZE as nat, |j: int| if START_ADDRESS <= j
                        < START_ADDRESS + data@.len() {
                        data@[j - START_ADDRESS]
                    } else {
                        old(self)@.memory[j]
                    }),
                    ..old(self)@
                }),
                Err(e) => {
                    &&& e == Chip8Error::ProgramTooLarge
                    &&& data@.len() > MEMORY_SIZE - START_ADDRESS
                    &&& final(self)@ == old(self)@
                },
            },
    {
        if data.len() > MEMORY_SIZE - (START_ADDRESS as usize) {
            return Err(Chip8Error::ProgramTooLarge);
        }
        let start = START_ADDRESS as usize;
        let mut i: usize = 0;
        while i < data.len()
            invariant
                self.wf(),
                start == START_ADDRESS as usize,
                i <= data@.len(),
                data@.len() <= MEMORY_SIZE - START_ADDRESS,
                self@ == (Chip8View {
                    memory: Seq::new(MEMORY_SIZE as nat, |j: int| if START_ADDRESS <= j
                        < START_ADDRESS + i {
                        data@[j - START_ADDRESS]
                    } else {
                        old(self)@.memory[j]
                    }),
                    ..old(self)@
                }),
            decreases data@.len() - i,
        {
            self.memory[start + i] = data[i];
            i = i + 1;
            proof {
                assert(self@.memory =~= Seq::new(MEMORY_SIZE as nat, |j: int| if START_ADDRESS <= j
                    < START_ADDRESS + i {
                    data@[j - START_ADDRESS]
                } else {
                    old(self)@.memory[j]
                }));
                assert(self@ =~= (Chip8View {
                    memory: Seq::new(MEMORY_SIZE as nat, |j: int| if START_ADDRESS <= j
                        < START_ADDRESS + i {
                        data@[j - START_ADDRESS]
                    } else {
                        old(self)@.memory[j]
                    }),
                    ..old(self)@
                }));
            }
        }
        proof {
            assert(self@.memory =~= Seq::new(MEMORY_SIZE as nat, |j: int| if START_ADDRESS <= j
                < START_ADDRESS + data@.len() {
                data@[j - START_ADDRESS]
            } else {
                old(self)@.memory[j]
            }));
            assert(self@ =~= (Chip8View {
                memory: Seq::new(MEMORY_SIZE as nat, |j: int| if START_ADDRESS <= j
                    < START_ADDRESS + data@.len() {
                    data@[j - START_ADDRESS]
                } else {
                    old(self)@.memory[j]
                }),
                ..old(self)@
            }));
        }
        Ok(())
    }

    /// Counts both timers down by one, flooring at zero.
    pub fn tick(&mut self)
        requires
            old(self).wf(),
        ensures
            final(self).wf(),
            final(self)@ == spec_tick(old(self)@),
    {
        if self.delay_timer > 0 {
            self.delay_timer = self.delay_timer - 1;
        }
        if self.sound_timer > 0 {
            if self.sound_timer == 1 {
                // The sound timer reaching zero is where a host would start
                // or stop a tone; the engine itself stays silent.
            }
            self.sound_timer = self.sound_timer - 1;
        }
        proof {
            assert(self@ =~= spec_tick(old(self)@));
        }
    }

    /// Records one key going down or up. `index` is the logical key, 0
    /// through 15.
    pub fn is_key_pressed(&mut self, index: usize, pressed: bool)
        requires
            old(self).wf(),
            index < 16,
        ensures
            final(self).wf(),
            final(self)@ == (Chip8View {
                keyboard: old(self)@.keyboard.update(index as int, pressed),
                ..old(self)@
            }),
    {
        self.keyboard[index] = pressed;
        proof {
            assert(self@ =~= (Chip8View {
                keyboard: old(self)@.keyboard.update(index as int, pressed),
                ..old(self)@
            }));
        }
    }

    /// A read-only view of the 64x32 framebuffer, row-major: pixel (x, y) is
    /// cell x + 64 * y.
    pub fn get_display(&self) -> (r: &[bool])
        ensures
            r@ == self@.video,
    {
        self.video.as_slice()
    }

    /// The value of general-purpose register `i`.
    pub fn get_register(&self, i: usize) -> (r: u8)
        requires
            self.wf(),
            i < 16,
        ensures
            r == self@.registers[i as int],
    {
        self.registers[i]
    }

    /// The program counter.
    pub fn get_pc(&self) -> (r: u16)
        ensures
            r == self@.pc,
    {
        self.pc
    }

    /// The index register.
    pub fn get_index(&self) -> (r: u16)
        ensures
            r == self@.index,
    {
        self.index
    }

    /// The byte of memory at `addr`.
    pub fn get_memory_byte(&self, addr: usize) -> (r: u8)
        requires
            self.wf(),
            addr < MEMORY_SIZE,
        ensures
            r == self@.memory[addr as int],
    {
        self.memory[addr]
    }

    /// The delay timer.
    pub fn get_delay_timer(&self) -> (r: u8)
        ensures
            r == self@.delay_timer,
    {
        self.delay_timer
    }

    /// The sound timer.
    pub fn get_sound_timer(&self) -> (r: u8)
        ensures
            r == self@.sound_timer,
    {
        self.sound_timer
    }

    /// How many return addresses are currently stacked.
    pub fn get_stack_pointer(&self) -> (r: u16)
        ensures
            r == self@.sp,
    {
        self.sp
    }

    /// Pushes a return address. The caller has checked that a slot is free.
    fn push(&mut self, value: u16)
        requires
            old(self).wf(),
            old(self)@.sp < 16,
        ensures
            final(self).wf(),
            final(self)@ == (Chip8View {
                stack: old(self)@.stack.update(old(self)@.sp as int, value),
                sp: (old(self)@.sp + 1) as u16,
                ..old(self)@
            }),
    {
        let sp = self.sp as usize;
        self.stack[sp] = value;
        self.sp = self.sp + 1;
        proof {
            assert(self@ =~= (Chip8View {
                stack: old(self)@.stack.update(old(self)@.sp as int, value),
                sp: (old(self)@.sp + 1) as u16,
                ..old(self)@
            }));
        }
    }

    /// Pops a return address. The caller has checked that one is stacked.
    fn pop(&mut self) -> (r: u16)
        requires
            old(self).wf(),
            old(self)@.sp > 0,
        ensures
            final(self).wf(),
            r == old(self)@.stack[old(self)@.sp - 1],
            final(self)@ == (Chip8View { sp: (old(self)@.sp - 1) as u16, ..old(self)@ }),
    {
        self.sp = self.sp - 1;
        let r = self.stack[self.sp as usize];
        proof {
            assert(self@ =~= (Chip8View { sp: (old(self)@.sp - 1) as u16, ..old(self)@ }));
        }
        r
    }

    /// Reads the two instruction bytes at the program counter and combines
    /// them big-endian, or reports the program counter out of bounds.
    fn fetch(&self) -> (r: Result<u16, Chip8Error>)
        requires
            self.wf(),
        ensures
            match r {
                Ok(op) => self@.pc + 1 < MEMORY_SIZE && op == spec_word(
                    self@.memory[self@.pc as int],
                    self@.memory[self@.pc + 1],
                ),
                Err(e) => self@.pc + 1 >= MEMORY_SIZE && e == Chip8Error::OutOfBoundsAccess,
            },
    {
        let pc = self.pc as usize;
        if pc + 1 >= MEMORY_SIZE {
            return Err(Chip8Error::OutOfBoundsAccess);
        }
        let higher_byte = self.memory[pc] as u16;
        let lower_byte = self.memory[pc + 1] as u16;
        Ok((higher_byte << 8u16) | lower_byte)
    }

    /// Turns every framebuffer cell off.
    fn op_cls(&mut self)
        requires
            old(self).wf(),
        ensures
            final(self).wf(),
            final(self)@ == (Chip8View { video: Seq::new(2048, |j: int| false), ..old(self)@ }),
    {
        self.video = Self::filled(false, 2048);
        proof {
            assert(self@.video =~= Seq::new(2048, |j: int| false));
            assert(self@ =~= (Chip8View { video: Seq::new(2048, |j: int| false), ..old(self)@ }));
        }
    }

    /// Scans the keypad from key 0 upward: stores the first pressed key in
    /// register `x`, or rewinds the program counter by one instruction so
    /// the wait re-executes on the next cycle.
    fn op_wait_key(&mut self, x: usize)
        requires
            old(self).wf(),
            x < 16,
        ensures
            final(self).wf(),
            final(self)@ == (match first_pressed_from(old(self)@.keyboard, 0) {
                Some(k) => with_reg(old(self)@, x, k),
                None => Chip8View { pc: wrap_sub16(old(self)@.pc, 2), ..old(self)@ },
            }),
    {
        let mut i: usize = 0;
        while i < 16
            invariant
                self.wf(),
                self@ == old(self)@,
                x < 16,
                i <= 16,
                first_pressed_from(self@.keyboard, 0) == first_pressed_from(
                    self@.keyboard,
                    i as int,
                ),
            decreases 16 - i,
        {
            if self.keyboard[i] {
                proof {
                    assert(first_pressed_from(self@.keyboard, i as int) == Some(i as u8));
                }
                self.registers[x] = i as u8;
                proof {
                    assert(self@ =~= with_reg(old(self)@, x, i as u8));
                }
                return ;
            }
            i = i + 1;
        }
        proof {
            assert(first_pressed_from(self@.keyboard, 16) is None);
        }
        self.pc = self.pc.wrapping_sub(2);
        proof {
            assert(self@ =~= (Chip8View { pc: wrap_sub16(old(self)@.pc, 2), ..old(self)@ }));
        }
    }

    /// Stores registers 0 through `x` into memory at the index register, or
    /// reports the destination running off the end of memory.
    fn op_store_regs(&mut self, x: usize) -> (r: Result<(), Chip8Error>)
        requires
            old(self).wf(),
            x < 16,
        ensures
            final(self).wf(),
            match r {
                Ok(()) => old(self)@.index + x < MEMORY_SIZE && final(self)@ == (Chip8View {
                    memory: mem_stored(
                        old(self)@.memory,
                        old(self)@.registers,
                        old(self)@.index as int,
                        x + 1,
                    ),
                    ..old(self)@
                }),
                Err(e) => {
                    &&& old(self)@.index + x >= MEMORY_SIZE
                    &&& e == Chip8Error::OutOfBoundsAccess
                    &&& final(self)@ == old(self)@
                },
            },
    {
        let base = self.index as usize;
        if base + x >= MEMORY_SIZE {
            return Err(Chip8Error::OutOfBoundsAccess);
        }
        let mut k: usize = 0;
        proof {
            assert(self@.memory =~= mem_stored(
                old(self)@.memory,
                old(self)@.registers,
                base as int,
                0,
            ));
            assert(self@ =~= (Chip8View {
                memory: mem_stored(old(self)@.memory, old(self)@.registers, base as int, 0),
                ..old(self)@
            }));
        }
        while k <= x
            invariant
                self.wf(),
                base == old(self)@.index,
                x < 16,
                base + x < MEMORY_SIZE,
                k <= x + 1,
                self@ == (Chip8View {
                    memory: mem_stored(
                        old(self)@.memory,
                        old(self)@.registers,
                        base as int,
                        k as int,
                    ),
                    ..old(self)@
                }),
            decreases x + 1 - k,
        {
            self.memory[base + k] = self.registers[k];
            k = k + 1;
            proof {
                assert(self@.memory =~= mem_stored(
                    old(self)@.memory,
                    old(self)@.registers,
                    base as int,
                    k as int,
                ));
                assert(self@ =~= (Chip8View {
                    memory: mem_stored(
                        old(self)@.memory,
                        old(self)@.registers,
                        base as int,
                        k as int,
                    ),
                    ..old(self)@
                }));
            }
        }
        Ok(())
    }

    /// Loads registers 0 through `x` from memory at the index register, or
    /// reports the source running off the end of memory.
    fn op_load_regs(&mut self, x: usize) -> (r: Result<(), Chip8Error>)
        requires
            old(self).wf(),
            x < 16,
        ensures
            final(self).wf(),
            match r {
                Ok(()) => old(self)@.index + x < MEMORY_SIZE && final(self)@ == (Chip8View {
                    registers: regs_loaded(
                        old(self)@.registers,
                        old(self)@.memory,
                        old(self)@.index as int,
                        x + 1,
                    ),
                    ..old(self)@
                }),
                Err(e) => {
                    &&& old(self)@.index + x >= MEMORY_SIZE
                    &&& e == Chip8Error::OutOfBoundsAccess
                    &&& final(self)@ == old(self)@
                },
            },
    {
        let base = self.index as usize;
        if base + x >= MEMORY_SIZE {
            return Err(Chip8Error::OutOfBoundsAccess);
        }
        let mut k: usize = 0;
        proof {
            assert(self@.registers =~= regs_loaded(
                old(self)@.registers,
                old(self)@.memory,
                base as int,
                0,
            ));
            assert(self@ =~= (Chip8View {
                registers: regs_loaded(old(self)@.registers, old(self)@.memory, base as int, 0),
                ..old(self)@
            }));
        }
        while k <= x
            invariant
                self.wf(),
                base == old(self)@.index,
                x < 16,
                base + x < MEMORY_SIZE,
                k <= x + 1,
                self@ == (Chip8View {
                    registers: regs_loaded(
                        old(self)@.registers,
                        old(self)@.memory,
                        base as int,
                        k as int,
                    ),
                    ..old(self)@
                }),
            decreases x + 1 - k,
        {
            self.registers[k] = self.memory[base + k];
            k = k + 1;
            proof {
                assert(self@.registers =~= regs_loaded(
                    old(self)@.registers,
                    old(self)@.memory,
                    base as int,
                    k as int,
                ));
                assert(self@ =~= (Chip8View {
                    registers: regs_loaded(
                        old(self)@.registers,
                        old(self)@.memory,
                        base as int,
                        k as int,
                    ),
                    ..old(self)@
                }));
            }
        }
        Ok(())
    }

    /// XOR-draws an `n`-row sprite read from memory at the index register,
    /// at the screen position held in registers `x` and `y`, and records in
    /// the flag register whether any pixel was turned off.
    fn op_draw(&mut self, x: usize, y: usize, n: u8) -> (r: Result<(), Chip8Error>)
        requires
            old(self).wf(),
            x < 16,
            y < 16,
            n < 16,
        ensures
            final(self).wf(),
            match r {
                Ok(()) => !(n > 0 && old(self)@.index + n > MEMORY_SIZE) && ({
                    let rd = draw_rows(
                        old(self)@.video,
                        false,
                        old(self)@.memory,
                        old(self)@.index as int,
                        old(self)@.registers[x as int] as int,
                        old(self)@.registers[y as int] as int,
                        0,
                        n as int,
                    );
                    final(self)@ == (Chip8View {
                        video: rd.0,
                        registers: old(self)@.registers.update(15, if rd.1 {
                            1u8
                        } else {
                            0u8
                        }),
                        ..old(self)@
                    })
                }),
                Err(e) => {
                    &&& n > 0 && old(self)@.index + n > MEMORY_SIZE
                    &&& e == Chip8Error::OutOfBoundsAccess
                    &&& final(self)@ == old(self)@
                },
            },
    {
        let base = self.index as usize;
        if n > 0 && base + (n as usize) > MEMORY_SIZE {
            return Err(Chip8Error::OutOfBoundsAccess);
        }
        let x_coord = self.registers[x] as usize;
        let y_coord = self.registers[y] as usize;
        let mut flipped = false;
        let mut row: usize = 0;
        while row < n as usize
            invariant
                self.wf(),
                x < 16,
                y < 16,
                n < 16,
                row <= n,
                n > 0 ==> base + n <= MEMORY_SIZE,
                base == old(self)@.index,
                x_coord == old(self)@.registers[x as int],
                y_coord == old(self)@.registers[y as int],
                self@ == (Chip8View { video: self@.video, ..old(self)@ }),
                draw_rows(
                    old(self)@.video,
                    false,
                    old(self)@.memory,
                    base as int,
                    x_coord as int,
                    y_coord as int,
                    0,
                    n as int,
                ) == draw_rows(
                    self@.video,
                    flipped,
                    old(self)@.memory,
                    base as int,
                    x_coord as int,
                    y_coord as int,
                    row as int,
                    n as int,
                ),
            decreases n - row,
        {
            let ghost vid_row = self@.video;
            let ghost fl_row = flipped;
            let pixels = self.memory[base + row];
            let mut col: usize = 0;
            while col < 8
                invariant
                    self.wf(),
                    x < 16,
                    y < 16,
                    n < 16,
                    row < n,
                    col <= 8,
                    base == old(self)@.index,
                    x_coord == old(self)@.registers[x as int],
                    y_coord == old(self)@.registers[y as int],
                    self@ == (Chip8View { video: self@.video, ..old(self)@ }),
                    draw_row(
                        vid_row,
                        fl_row,
                        pixels,
                        x_coord as int,
                        y_coord + row,
                        0,
                    ) == draw_row(
                        self@.video,
                        flipped,
                        pixels,
                        x_coord as int,
                        y_coord + row,
                        col as int,
                    ),
                decreases 8 - col,
            {
                let mask: u8 = if col == 0 {
                    0x80
                } else if col == 1 {
                    0x40
                } else if col == 2 {
                    0x20
                } else if col == 3 {
                    0x10
                } else if col == 4 {
                    0x08
                } else if col == 5 {
                    0x04
                } else if col == 6 {
                    0x02
                } else {
                    0x01
                };
                proof {
                    assert(mask == bit_mask(col as int));
                }
                if pixels & mask != 0 {
                    let px = (x_coord + col) % 64;
                    let py = (y_coord + row) % 32;
                    let cell = px + 64 * py;
                    proof {
                        assert(cell == pixel_cell(x_coord + col, y_coord + row));
                    }
                    let prev = self.video[cell];
                    if prev {
                        flipped = true;
                    }
                    self.video[cell] = !prev;
                }
                col = col + 1;
            }
            proof {
                assert(draw_row(
                    self@.video,
                    flipped,
                    pixels,
                    x_coord as int,
                    y_coord + row,
                    8,
                ) == (self@.video, flipped));
                assert(pixels == old(self)@.memory[base + row]);
            }
            row = row + 1;
        }
        let flag: u8 = if flipped {
            1
        } else {
            0
        };
        proof {
            assert(draw_rows(
                self@.video,
                flipped,
                old(self)@.memory,
                base as int,
                x_coord as int,
                y_coord as int,
                n as int,
                n as int,
            ) == (self@.video, flipped));
        }
        self.registers[0xF] = flag;
        proof {
            let rd = draw_rows(
                old(self)@.video,
                false,
                old(self)@.memory,
                old(self)@.index as int,
                old(self)@.registers[x as int] as int,
                old(self)@.registers[y as int] as int,
                0,
                n as int,
            );
            assert(self@ =~= (Chip8View {
                video: rd.0,
                registers: old(self)@.registers.update(15, if rd.1 {
                    1u8
                } else {
                    0u8
                }),
                ..old(self)@
            }));
        }
        Ok(())
    }

    /// Executes one decoded instruction against the current state. `rnd` is
    /// the byte the random source handed over; only `Instr::Rand` reads it.
    /// A fault leaves the machine exactly as it was.
    pub fn execute(&mut self, instr: Instr, rnd: u8) -> (r: Result<(), Chip8Error>)
        requires
            old(self).wf(),
            instr_wf(instr),
        ensures
            final(self).wf(),
            match r {
                Ok(()) => spec_execute(old(self)@, instr, rnd) == Ok::<Chip8View, Chip8Error>(
                    final(self)@,
                ),
                Err(e) => final(self)@ == old(self)@ && spec_execute(old(self)@, instr, rnd)
                    == Err::<Chip8View, Chip8Error>(e),
            },
    {
        match instr {
            Instr::Nop => Ok(()),
            Instr::Cls => {
                self.op_cls();
                Ok(())
            },
            Instr::Ret => {
                if self.sp == 0 {
                    return Err(Chip8Error::StackUnderflow);
                }
                let ret_addr = self.pop();
                self.pc = ret_addr;
                proof {
                    assert(self@ =~= (Chip8View {
                        sp: (old(self)@.sp - 1) as u16,
                        pc: old(self)@.stack[old(self)@.sp - 1],
                        ..old(self)@
                    }));
                }
                Ok(())
            },
            Instr::Jump { nnn } => {
                self.pc = nnn;
                Ok(())
            },
            Instr::Call { nnn } => {
                if self.sp >= 16 {
                    return Err(Chip8Error::StackOverflow);
                }
                let pc = self.pc;
                self.push(pc);
                self.pc = nnn;
                proof {
                    assert(self@ =~= (Chip8View {
                        stack: old(self)@.stack.update(old(self)@.sp as int, old(self)@.pc),
                        sp: (old(self)@.sp + 1) as u16,
                        pc: nnn,
                        ..old(self)@
                    }));
                }
                Ok(())
            },
            Instr::SkipEqImm { x, nn } => {
                if self.registers[x] == nn {
                    self.pc = self.pc.wrapping_add(2);
                }
                Ok(())
            },
            Instr::SkipNeImm { x, nn } => {
                if self.registers[x] != nn {
                    self.pc = self.pc.wrapping_add(2);
                }
                Ok(())
            },
            Instr::SkipEqReg { x, y } => {
                if self.registers[x] == self.registers[y] {
                    self.pc = self.pc.wrapping_add(2);
                }
                Ok(())
            },
            Instr::LoadImm { x, nn } => {
                self.registers[x] = nn;
                Ok(())
            },
            Instr::AddImm { x, nn } => {
                self.registers[x] = self.registers[x].wrapping_add(nn);
                Ok(())
            },
            Instr::Copy { x, y } => {
                self.registers[x] = self.registers[y];
                Ok(())
            },
            Instr::Or { x, y } => {
                self.registers[x] = self.registers[x] | self.registers[y];
                Ok(())
            },
            Instr::And { x, y } => {
                self.registers[x] = self.registers[x] & self.registers[y];
                Ok(())
            },
            Instr::Xor { x, y } => {
                self.registers[x] = self.registers[x] ^ self.registers[y];
                Ok(())
            },
            Instr::AddCarry { x, y } => {
                let vx = self.registers[x];
                let vy = self.registers[y];
                let carry: u8 = if (vx as u16) + (vy as u16) > 255 {
                    1
                } else {
                    0
                };
                self.registers[x] = vx.wrapping_add(vy);
                self.registers[0xF] = carry;
                Ok(())
            },
            Instr::SubBorrow { x, y } => {
                let vx = self.registers[x];
                let vy = self.registers[y];
                let no_borrow: u8 = if vx >= vy {
                    1
                } else {
                    0
                };
                self.registers[x] = vx.wrapping_sub(vy);
                self.registers[0xF] = no_borrow;
                Ok(())
            },
            Instr::ShiftRight { x } => {
                let vx = self.registers[x];
                self.registers[x] = vx >> 1u8;
                self.registers[0xF] = vx & 1;
                Ok(())
            },
            Instr::SubReverse { x, y } => {
                let vx = self.registers[x];
                let vy = self.registers[y];
                let no_borrow: u8 = if vy >= vx {
                    1
                } else {
                    0
                };
                self.registers[x] = vy.wrapping_sub(vx);
                self.registers[0xF] = no_borrow;
                Ok(())
            },
            Instr::ShiftLeft { x } => {
                let vx = self.registers[x];
                self.registers[x] = vx << 1u8;
                self.registers[0xF] = (vx >> 7u8) & 1;
                Ok(())
            },
            Instr::SkipNeReg { x, y } => {
                if self.registers[x] != self.registers[y] {
                    self.pc = self.pc.wrapping_add(2);
                }
                Ok(())
            },
            Instr::SetIndex { nnn } => {
                self.index = nnn;
                Ok(())
            },
            Instr::JumpPlus { nnn } => {
                self.pc = (self.registers[0] as u16) + nnn;
                Ok(())
            },
            Instr::Rand { x, nn } => {
                self.registers[x] = rnd & nn;
                Ok(())
            },
            Instr::Draw { x, y, n } => self.op_draw(x, y, n),
            Instr::SkipKey { x } => {
                let vx = self.registers[x];
                if vx >= 16 {
                    return Err(Chip8Error::OutOfBoundsAccess);
                }
                if self.keyboard[vx as usize] {
                    self.pc = self.pc.wrapping_add(2);
                }
                Ok(())
            },
            Instr::SkipNoKey { x } => {
                let vx = self.registers[x];
                if vx >= 16 {
                    return Err(Chip8Error::OutOfBoundsAccess);
                }
                if !self.keyboard[vx as usize] {
                    self.pc = self.pc.wrapping_add(2);
                }
                Ok(())
            },
            Instr::GetDelay { x } => {
                self.registers[x] = self.delay_timer;
                Ok(())
            },
            Instr::WaitKey { x } => {
                self.op_wait_key(x);
                Ok(())
            },
            Instr::SetDelay { x } => {
                self.delay_timer = self.registers[x];
                Ok(())
            },
            Instr::SetSound { x } => {
                self.sound_timer = self.registers[x];
                Ok(())
            },
            Instr::AddIndex { x } => {
                let vx = self.registers[x] as u16;
                self.index = self.index.wrapping_add(vx);
                Ok(())
            },
            Instr::FontChar { x } => {
                let c = self.registers[x] as u16;
                self.index = c * 5;
                Ok(())
            },
            Instr::Bcd { x } => {
                let i = self.index as usize;
                if i + 2 >= MEMORY_SIZE {
                    return Err(Chip8Error::OutOfBoundsAccess);
                }
                let vx = self.registers[x];
                self.memory[i] = vx / 100;
                self.memory[i + 1] = (vx / 10) % 10;
                self.memory[i + 2] = vx % 10;
                Ok(())
            },
            Instr::StoreRegs { x } => self.op_store_regs(x),
            Instr::LoadRegs { x } => self.op_load_regs(x),
        }
    }

    /// Relies on rand::random::<u8>: a pseudo-random byte drawn uniformly
    /// from the full 8-bit range. Nothing is promised of its value.
    #[verifier::external_body]
    fn random_byte() -> u8 {
        rand::random::<u8>()
    }

    /// Runs one fetch-decode-execute cycle. A fault aborts only this cycle
    /// and leaves the machine exactly as it was. Except for the random-byte
    /// instruction, the cycle is a function of the machine state alone.
    pub fn clock(&mut self) -> (r: Result<(), Chip8Error>)
        requires
            old(self).wf(),
        ensures
            final(self).wf(),
            match r {
                Ok(()) => exists|rnd: u8|
                    spec_step(old(self)@, rnd) == Ok::<Chip8View, Chip8Error>(final(self)@),
                Err(e) => final(self)@ == old(self)@ && forall|rnd: u8|
                    spec_step(old(self)@, rnd) == Err::<Chip8View, Chip8Error>(e),
            },
            !step_is_random(old(self)@) ==> (match r {
                Ok(()) => spec_step(old(self)@, 0) == Ok::<Chip8View, Chip8Error>(final(self)@),
                Err(e) => spec_step(old(self)@, 0) == Err::<Chip8View, Chip8Error>(e),
            }),
    {
        let op = match self.fetch() {
            Ok(op) => op,
            Err(e) => {
                proof {
                    assert forall|rnd: u8|
                        spec_step(old(self)@, rnd) == Err::<Chip8View, Chip8Error>(e) by {
                        lemma_step_rnd_independent(old(self)@, 0, rnd);
                    }
                }
                return Err(e);
            },
        };
        let instr = match crate::isa::decode(op) {
            Some(i) => i,
            None => {
                let addr = self.pc;
                let e = Chip8Error::UnknownOpcode { op, addr };
                proof {
                    assert forall|rnd: u8|
                        spec_step(old(self)@, rnd) == Err::<Chip8View, Chip8Error>(e) by {
                        lemma_step_rnd_independent(old(self)@, 0, rnd);
                    }
                }
                return Err(e);
            },
        };
        self.pc = self.pc + 2;
        proof {
            assert(self@ =~= (Chip8View { pc: (old(self)@.pc + 2) as u16, ..old(self)@ }));
        }
        let rnd = Self::random_byte();
        match self.execute(instr, rnd) {
            Ok(()) => {
                proof {
                    assert(spec_step(old(self)@, rnd) == Ok::<Chip8View, Chip8Error>(self@));
                    lemma_step_rnd_independent(old(self)@, rnd, 0);
                }
                Ok(())
            },
            Err(e) => {
                self.pc = self.pc - 2;
                proof {
                    assert(self@ =~= old(self)@);
                    assert(spec_step(old(self)@, rnd) == Err::<Chip8View, Chip8Error>(e));
                    assert forall|rb: u8|
                        spec_step(old(self)@, rb) == Err::<Chip8View, Chip8Error>(e) by {
                        lemma_step_rnd_independent(old(self)@, rnd, rb);
                    }
                }
                Err(e)
            },
        }
    }
}

/// A cycle that does not execute the random-byte instruction is a function
/// of the machine state alone; in particular, whether a cycle faults, and
/// with which fault, never depends on the random source.
pub proof fn lemma_step_rnd_independent(v: Chip8View, r1: u8, r2: u8)
    ensures
        !step_is_random(v) ==> spec_step(v, r1) == spec_step(v, r2),
        spec_step(v, r1) matches Err(_) ==> spec_step(v, r1) == spec_step(v, r2),
{
    if v.pc + 1 < MEMORY_SIZE {
        let op = spec_word(v.memory[v.pc as int], v.memory[v.pc + 1]);
        let w = Chip8View { pc: (v.pc + 2) as u16, ..v };
        match spec_decode(op) {
            Some(i) => {
                match i {
                    Instr::Rand { x, nn } => {
                        assert(spec_execute(w, i, r1) is Ok);
                        assert(spec_execute(w, i, r2) is Ok);
                    },
                    _ => {
                        assert(spec_execute(w, i, r1) == spec_execute(w, i, r2));
                    },
                }
            },
            None => {},
        }
    }
}

} // verus!
