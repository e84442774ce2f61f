//! Machine-wide laws: proofs that pin down whole instruction executions and
//! how consecutive cycles relate.
use vstd::prelude::*;

use crate::chip8::Chip8Error;
use crate::chip8::Chip8View;
use crate::chip8::MEMORY_SIZE;
use crate::chip8::draw_row;
use crate::chip8::draw_rows;
use crate::chip8::first_pressed_from;
use crate::chip8::pixel_cell;
use crate::chip8::spec_execute;
use crate::chip8::spec_step;
use crate::chip8::spec_tick;
use crate::chip8::spec_word;
use crate::chip8::sprite_bit;
use crate::chip8::view_wf;
use crate::isa::Instr;
use crate::isa::spec_decode;

verus! {

/// Loading an immediate writes exactly the named register: afterwards
/// register `x` holds `nn`, every other register keeps its value, and no
/// other machine state moves.
pub proof fn lemma_load_imm(v: Chip8View, x: usize, nn: u8, rnd: u8)
    requires
        view_wf(v),
        x < 16,
    ensures
        spec_execute(v, Instr::LoadImm { x, nn }, rnd) matches Ok(w) && {
            &&& w.registers[x as int] == nn
            &&& forall|j: int| 0 <= j < 16 && j != x ==> w.registers[j] == v.registers[j]
            &&& w == (Chip8View { registers: w.registers, ..v })
        },
{
}

/// Clearing the screen turns every framebuffer cell off, whatever was on
/// it, and touches nothing else.
pub proof fn lemma_cls_clears_all(v: Chip8View, rnd: u8)
    requires
        view_wf(v),
    ensures
        spec_execute(v, Instr::Cls, rnd) matches Ok(w) && {
            &&& forall|c: int| 0 <= c < 2048 ==> !w.video[c]
            &&& w == (Chip8View { video: w.video, ..v })
        },
{
}

/// A keypad with nothing pressed has no first pressed key.
proof fn lemma_no_key_none(kb: Seq<bool>, k: int)
    requires
        forall|j: int| 0 <= j < 16 ==> !kb[j],
        0 <= k <= 16,
    ensures
        first_pressed_from(kb, k) is None,
    decreases 16 - k,
{
    if k < 16 {
        lemma_no_key_none(kb, k + 1);
    }
}

/// The key scan finds the lowest pressed key at or above `k`.
proof fn lemma_first_pressed_some(kb: Seq<bool>, k: int)
    requires
        0 <= k <= 16,
        exists|j: int| k <= j < 16 && kb[j],
    ensures
        first_pressed_from(kb, k) matches Some(i) && {
            &&& k <= i < 16
            &&& kb[i as int]
            &&& forall|j: int| k <= j < i ==> !kb[j]
        },
    decreases 16 - k,
{
    if !kb[k] {
        lemma_first_pressed_some(kb, k + 1);
    }
}

/// The key-wait instruction with nothing pressed leaves the machine exactly
/// as it was: the program counter's advance past the instruction is undone,
/// so the same instruction re-executes on the next cycle.
pub proof fn lemma_key_wait_blocks(v: Chip8View, x: usize, rnd: u8)
    requires
        view_wf(v),
        v.pc + 1 < MEMORY_SIZE,
        spec_decode(spec_word(v.memory[v.pc as int], v.memory[v.pc + 1])) == Some(
            Instr::WaitKey { x },
        ),
        forall|k: int| 0 <= k < 16 ==> !v.keyboard[k],
    ensures
        spec_step(v, rnd) == Ok::<Chip8View, Chip8Error>(v),
{
    lemma_no_key_none(v.keyboard, 0);
    let w = Chip8View { pc: (v.pc + 2) as u16, ..v };
    assert(spec_execute(w, Instr::WaitKey { x }, rnd) matches Ok(u) && u =~= v);
}

/// The key-wait instruction with a key pressed consumes the instruction:
/// the program counter advances normally and the target register receives
/// the lowest pressed key index; nothing else moves.
pub proof fn lemma_key_wait_takes_lowest(v: Chip8View, x: usize, rnd: u8)
    requires
        view_wf(v),
        x < 16,
        v.pc + 1 < MEMORY_SIZE,
        spec_decode(spec_word(v.memory[v.pc as int], v.memory[v.pc + 1])) == Some(
            Instr::WaitKey { x },
        ),
        exists|k: int| 0 <= k < 16 && v.keyboard[k],
    ensures
        spec_step(v, rnd) matches Ok(w) && {
            &&& w.pc == v.pc + 2
            &&& v.keyboard[w.registers[x as int] as int]
            &&& forall|j: int| 0 <= j < w.registers[x as int] ==> !v.keyboard[j]
            &&& w == (Chip8View {
                pc: (v.pc + 2) as u16,
                registers: v.registers.update(x as int, w.registers[x as int]),
                ..v
            })
        },
{
    lemma_first_pressed_some(v.keyboard, 0);
}

/// A call followed immediately by a return restores the program counter to
/// its value just after the call instruction, and leaves the stack pointer
/// as it was.
pub proof fn lemma_call_ret_round_trip(v: Chip8View, nnn: u16, rnd1: u8, rnd2: u8)
    requires
        view_wf(v),
        v.pc + 1 < MEMORY_SIZE,
        spec_decode(spec_word(v.memory[v.pc as int], v.memory[v.pc + 1])) == Some(
            Instr::Call { nnn },
        ),
        v.sp < 16,
        nnn + 1 < MEMORY_SIZE,
        spec_word(v.memory[nnn as int], v.memory[nnn + 1]) == 0x00EE,
    ensures
        spec_step(v, rnd1) matches Ok(w1) && spec_step(w1, rnd2) matches Ok(w2) && {
            &&& w2.pc == v.pc + 2
            &&& w2.sp == v.sp
            &&& w2.registers == v.registers
            &&& w2.memory == v.memory
            &&& w2.video == v.video
        },
{
    let w1 = spec_step(v, rnd1)->Ok_0;
    assert(w1.stack[v.sp as int] == (v.pc + 2) as u16);
    assert(spec_decode(0x00EE) == Some(Instr::Ret));
}

/// What `n` timer ticks in a row do.
pub open spec fn spec_tick_n(v: Chip8View, n: nat) -> Chip8View
    decreases n,
{
    if n == 0 {
        v
    } else {
        spec_tick(spec_tick_n(v, (n - 1) as nat))
    }
}

/// Each tick counts a nonzero timer down by exactly one and holds a zero
/// timer at zero.
pub proof fn lemma_tick_floors(v: Chip8View)
    ensures
        spec_tick(v).delay_timer == if v.delay_timer > 0 {
            v.delay_timer - 1
        } else {
            0
        },
        spec_tick(v).sound_timer == if v.sound_timer > 0 {
            v.sound_timer - 1
        } else {
            0
        },
{
}

/// Timers never underflow: once a timer reaches zero it stays at zero, no
/// matter how many further ticks occur.
pub proof fn lemma_tick_never_underflows(v: Chip8View, n: nat)
    ensures
        v.delay_timer == 0 ==> spec_tick_n(v, n).delay_timer == 0,
        v.sound_timer == 0 ==> spec_tick_n(v, n).sound_timer == 0,
    decreases n,
{
    if n > 0 {
        lemma_tick_never_underflows(v, (n - 1) as nat);
    }
}

/// Two sprite columns never land on the same framebuffer cell within one
/// row: the eight columns wrap around the 64-cell row without colliding.
proof fn lemma_col_cells_distinct(x0: int, y: int, a: int, b: int)
    requires
        0 <= x0,
        0 <= a < b < 8,
    ensures
        pixel_cell(x0 + a, y) != pixel_cell(x0 + b, y),
{
    let ma = (x0 + a) % 64;
    let mb = (x0 + b) % 64;
    if ma == mb {
        vstd::arithmetic::div_mod::lemma_fundamental_div_mod(x0 + a, 64);
        vstd::arithmetic::div_mod::lemma_fundamental_div_mod(x0 + b, 64);
        let qa = (x0 + a) / 64;
        let qb = (x0 + b) / 64;
        assert(b - a == 64 * qb - 64 * qa);
        assert(64 * qb - 64 * qa == 64 * (qb - qa)) by (nonlinear_arith);
        assert(64 * (qb - qa) == b - a && 0 < b - a < 8 ==> false) by (nonlinear_arith);
    }
}

/// Cell-by-cell effect of drawing one sprite row: exactly the cells under
/// the row's set bits are flipped, and the collision flag reports whether
/// any of them was on.
proof fn lemma_draw_row_cells(v: Seq<bool>, fl: bool, b: u8, x0: int, y: int, col: int)
    requires
        v.len() == 2048,
        0 <= x0,
        0 <= y,
        0 <= col <= 8,
    ensures
        draw_row(v, fl, b, x0, y, col).0.len() == 2048,
        forall|c: int| 0 <= c < 2048 ==> draw_row(v, fl, b, x0, y, col).0[c] == (if (exists|j: int|
            col <= j < 8 && sprite_bit(b, j) && c == pixel_cell(x0 + j, y)) {
            !v[c]
        } else {
            v[c]
        }),
        draw_row(v, fl, b, x0, y, col).1 == (fl || exists|j: int|
            col <= j < 8 && sprite_bit(b, j) && v[pixel_cell(x0 + j, y)]),
    decreases 8 - col,
{
    vstd::arithmetic::div_mod::lemma_mod_bound(x0 + col, 64);
    vstd::arithmetic::div_mod::lemma_mod_bound(y, 32);
    if col < 8 {
        let cell = pixel_cell(x0 + col, y);
        assert(0 <= cell < 2048);
        assert forall|j: int| col < j < 8 implies #[trigger] pixel_cell(x0 + j, y) != cell by {
            lemma_col_cells_distinct(x0, y, col, j);
        }
        assert forall|j: int| col <= j < 8 implies 0 <= #[trigger] pixel_cell(x0 + j, y)
            < 2048 by {
            vstd::arithmetic::div_mod::lemma_mod_bound(x0 + j, 64);
            vstd::arithmetic::div_mod::lemma_mod_bound(y, 32);
        }
        if sprite_bit(b, col) {
            let v1 = v.update(cell, !v[cell]);
            let fl1 = fl || v[cell];
            lemma_draw_row_cells(v1, fl1, b, x0, y, col + 1);
            assert forall|c: int| 0 <= c < 2048 implies draw_row(v, fl, b, x0, y, col).0[c] == (
            if (exists|j: int| col <= j < 8 && sprite_bit(b, j) && c == pixel_cell(x0 + j, y)) {
                !v[c]
            } else {
                v[c]
            }) by {
                assert(draw_row(v, fl, b, x0, y, col) == draw_row(v1, fl1, b, x0, y, col + 1));
                assert(draw_row(v1, fl1, b, x0, y, col + 1).0[c] == (if (exists|j: int|
                    col + 1 <= j < 8 && sprite_bit(b, j) && c == pixel_cell(x0 + j, y)) {
                    !v1[c]
                } else {
                    v1[c]
                }));
                if c == cell {
                    assert(!(exists|j: int|
                        col + 1 <= j < 8 && sprite_bit(b, j) && c == pixel_cell(x0 + j, y)));
                    assert(col <= col < 8 && sprite_bit(b, col) && c == pixel_cell(x0 + col, y));
                } else {
                    if exists|j: int|
                        col + 1 <= j < 8 && sprite_bit(b, j) && c == pixel_cell(x0 + j, y) {
                        let j = choose|j: int|
                            col + 1 <= j < 8 && sprite_bit(b, j) && c == pixel_cell(x0 + j, y);
                        assert(col <= j < 8 && sprite_bit(b, j) && c == pixel_cell(x0 + j, y));
                        assert(v1[c] == v[c]);
                    } else {
                        if exists|j: int|
                            col <= j < 8 && sprite_bit(b, j) && c == pixel_cell(x0 + j, y) {
                            let j = choose|j: int|
                                col <= j < 8 && sprite_bit(b, j) && c == pixel_cell(x0 + j, y);
                            assert(j != col);
                            assert(col + 1 <= j < 8 && sprite_bit(b, j) && c == pixel_cell(
                                x0 + j,
                                y,
                            ));
                            assert(false);
                        }
                        assert(v1[c] == v[c]);
                    }
                }
            }
            assert(draw_row(v, fl, b, x0, y, col).1 == (fl || exists|j: int|
                col <= j < 8 && sprite_bit(b, j) && v[pixel_cell(x0 + j, y)])) by {
                assert(draw_row(v, fl, b, x0, y, col) == draw_row(v1, fl1, b, x0, y, col + 1));
                assert(draw_row(v1, fl1, b, x0, y, col + 1).1 == (fl1 || exists|j: int|
                    col + 1 <= j < 8 && sprite_bit(b, j) && v1[pixel_cell(x0 + j, y)]));
                if exists|j: int| col + 1 <= j < 8 && sprite_bit(b, j) && v1[pixel_cell(
                    x0 + j,
                    y,
                )] {
                    let j = choose|j: int|
                        col + 1 <= j < 8 && sprite_bit(b, j) && v1[pixel_cell(x0 + j, y)];
                    assert(pixel_cell(x0 + j, y) != cell);
                    assert(col <= j < 8 && sprite_bit(b, j) && v[pixel_cell(x0 + j, y)]);
                }
                if exists|j: int| col <= j < 8 && sprite_bit(b, j) && v[pixel_cell(x0 + j, y)] {
                    let j = choose|j: int|
                        col <= j < 8 && sprite_bit(b, j) && v[pixel_cell(x0 + j, y)];
                    if j != col {
                        assert(pixel_cell(x0 + j, y) != cell);
                        assert(col + 1 <= j < 8 && sprite_bit(b, j) && v1[pixel_cell(x0 + j, y)]);
                    }
                }
            }
        } else {
            lemma_draw_row_cells(v, fl, b, x0, y, col + 1);
            assert forall|c: int| 0 <= c < 2048 implies draw_row(v, fl, b, x0, y, col).0[c] == (
            if (exists|j: int| col <= j < 8 && sprite_bit(b, j) && c == pixel_cell(x0 + j, y)) {
                !v[c]
            } else {
                v[c]
            }) by {
                assert(draw_row(v, fl, b, x0, y, col) == draw_row(v, fl, b, x0, y, col + 1));
                assert(draw_row(v, fl, b, x0, y, col + 1).0[c] == (if (exists|j: int|
                    col + 1 <= j < 8 && sprite_bit(b, j) && c == pixel_cell(x0 + j, y)) {
                    !v[c]
                } else {
                    v[c]
                }));
                if exists|j: int| col <= j < 8 && sprite_bit(b, j) && c == pixel_cell(x0 + j, y) {
                    let j = choose|j: int|
                        col <= j < 8 && sprite_bit(b, j) && c == pixel_cell(x0 + j, y);
                    assert(j != col);
                    assert(col + 1 <= j < 8 && sprite_bit(b, j) && c == pixel_cell(x0 + j, y));
                }
            }
            assert(draw_row(v, fl, b, x0, y, col).1 == (fl || exists|j: int|
                col <= j < 8 && sprite_bit(b, j) && v[pixel_cell(x0 + j, y)])) by {
                assert(draw_row(v, fl, b, x0, y, col) == draw_row(v, fl, b, x0, y, col + 1));
                assert(draw_row(v, fl, b, x0, y, col + 1).1 == (fl || exists|j: int|
                    col + 1 <= j < 8 && sprite_bit(b, j) && v[pixel_cell(x0 + j, y)]));
                if exists|j: int| col <= j < 8 && sprite_bit(b, j) && v[pixel_cell(x0 + j, y)] {
                    let j = choose|j: int|
                        col <= j < 8 && sprite_bit(b, j) && v[pixel_cell(x0 + j, y)];
                    assert(j != col);
                    assert(col + 1 <= j < 8 && sprite_bit(b, j) && v[pixel_cell(x0 + j, y)]);
                }
            }
        }
    }
}

/// Every nonzero sprite byte has at least one set bit among its eight
/// columns.
proof fn lemma_nonzero_byte_has_bit(b: u8)
    ensures
        b != 0 ==> exists|j: int| 0 <= j < 8 && sprite_bit(b, j),
{
    if b != 0 {
        if b & 0x80 != 0 {
            assert(sprite_bit(b, 0));
        } else if b & 0x40 != 0 {
            assert(sprite_bit(b, 1));
        } else if b & 0x20 != 0 {
            assert(sprite_bit(b, 2));
        } else if b & 0x10 != 0 {
            assert(sprite_bit(b, 3));
        } else if b & 0x08 != 0 {
            assert(sprite_bit(b, 4));
        } else if b & 0x04 != 0 {
            assert(sprite_bit(b, 5));
        } else if b & 0x02 != 0 {
            assert(sprite_bit(b, 6));
        } else if b & 0x01 != 0 {
            assert(sprite_bit(b, 7));
        } else {
            assert(b & 0x80 == 0 && b & 0x40 == 0 && b & 0x20 == 0 && b & 0x10 == 0 && b & 0x08
                == 0 && b & 0x04 == 0 && b & 0x02 == 0 && b & 0x01 == 0 ==> b == 0) by (bit_vector);
        }
    }
}

/// The XOR draw is an involution: drawing one 8-pixel sprite row twice at
/// the same position restores every framebuffer cell, whatever was on the
/// screen before. If the row has any set bit and the cells under its set
/// bits all started off, the first draw reports no collision and the second
/// draw reports one.
pub proof fn lemma_draw_row_twice(v: Seq<bool>, b: u8, x0: int, y: int)
    requires
        v.len() == 2048,
        0 <= x0,
        0 <= y,
    ensures
        draw_row(draw_row(v, false, b, x0, y, 0).0, false, b, x0, y, 0).0 == v,
        (forall|j: int| 0 <= j < 8 && sprite_bit(b, j) ==> !v[pixel_cell(x0 + j, y)]) ==> {
            &&& !draw_row(v, false, b, x0, y, 0).1
            &&& (exists|j: int| 0 <= j < 8 && sprite_bit(b, j)) ==> draw_row(
                draw_row(v, false, b, x0, y, 0).0,
                false,
                b,
                x0,
                y,
                0,
            ).1
        },
{
    let v1 = draw_row(v, false, b, x0, y, 0).0;
    lemma_draw_row_cells(v, false, b, x0, y, 0);
    lemma_draw_row_cells(v1, false, b, x0, y, 0);
    assert forall|c: int| 0 <= c < 2048 implies draw_row(v1, false, b, x0, y, 0).0[c] == v[c] by {
        vstd::arithmetic::div_mod::lemma_mod_bound(y, 32);
    }
    assert(draw_row(v1, false, b, x0, y, 0).0 =~= v);
    if (forall|j: int| 0 <= j < 8 && sprite_bit(b, j) ==> !v[pixel_cell(x0 + j, y)]) {
        if exists|j: int| 0 <= j < 8 && sprite_bit(b, j) {
            let j = choose|j: int| 0 <= j < 8 && sprite_bit(b, j);
            vstd::arithmetic::div_mod::lemma_mod_bound(x0 + j, 64);
            vstd::arithmetic::div_mod::lemma_mod_bound(y, 32);
            assert(v1[pixel_cell(x0 + j, y)]);
        }
    }
}

/// Whether the sprite of `n` rows at memory `base`, drawn at (`x0`, `y0`),
/// puts a pixel on framebuffer cell `c` with one of its rows `row` and up.
pub open spec fn sprite_covers(
    mem: Seq<u8>,
    base: int,
    x0: int,
    y0: int,
    row: int,
    n: int,
    c: int,
) -> bool {
    exists|r: int, j: int|
        row <= r < n && 0 <= j < 8 && sprite_bit(mem[base + r], j) && c == #[trigger] pixel_cell(
            x0 + j,
            y0 + r,
        )
}

/// Whether any pixel the sprite covers is on in framebuffer `vid`.
pub open spec fn sprite_hits(
    mem: Seq<u8>,
    base: int,
    x0: int,
    y0: int,
    row: int,
    n: int,
    vid: Seq<bool>,
) -> bool {
    exists|r: int, j: int|
        row <= r < n && 0 <= j < 8 && sprite_bit(mem[base + r], j) && vid[#[trigger] pixel_cell(
            x0 + j,
            y0 + r,
        )]
}

/// Two sprite pixels of different rows never land on the same framebuffer
/// cell, as long as the sprite has at most 32 rows: the rows wrap around
/// the 32-row screen without colliding.
proof fn lemma_row_cells_distinct(x0: int, y0: int, a: int, b: int, r1: int, r2: int)
    requires
        0 <= x0,
        0 <= y0,
        0 <= a < 8,
        0 <= b < 8,
        0 <= r1,
        0 <= r2,
        r1 != r2,
        -32 < r2 - r1 < 32,
    ensures
        pixel_cell(x0 + a, y0 + r1) != pixel_cell(x0 + b, y0 + r2),
{
    let m1 = (y0 + r1) % 32;
    let m2 = (y0 + r2) % 32;
    vstd::arithmetic::div_mod::lemma_mod_bound(y0 + r1, 32);
    vstd::arithmetic::div_mod::lemma_mod_bound(y0 + r2, 32);
    vstd::arithmetic::div_mod::lemma_mod_bound(x0 + a, 64);
    vstd::arithmetic::div_mod::lemma_mod_bound(x0 + b, 64);
    if m1 == m2 {
        vstd::arithmetic::div_mod::lemma_fundamental_div_mod(y0 + r1, 32);
        vstd::arithmetic::div_mod::lemma_fundamental_div_mod(y0 + r2, 32);
        let q1 = (y0 + r1) / 32;
        let q2 = (y0 + r2) / 32;
        assert(r2 - r1 == 32 * q2 - 32 * q1);
        assert(32 * q2 - 32 * q1 == 32 * (q2 - q1)) by (nonlinear_arith);
        assert(32 * (q2 - q1) == r2 - r1 && -32 < r2 - r1 < 32 && r2 != r1 ==> false)
            by (nonlinear_arith);
    }
}

/// Cell-by-cell effect of drawing a whole sprite: exactly the cells it
/// covers are flipped, each exactly once, and the collision flag reports
/// whether any covered pixel was on.
proof fn lemma_draw_rows_cells(
    vid: Seq<bool>,
    fl: bool,
    mem: Seq<u8>,
    base: int,
    x0: int,
    y0: int,
    row: int,
    n: int,
)
    requires
        vid.len() == 2048,
        0 <= x0,
        0 <= y0,
        0 <= row <= n,
        n <= 15,
        0 <= base,
        base + n <= mem.len(),
    ensures
        draw_rows(vid, fl, mem, base, x0, y0, row, n).0.len() == 2048,
        forall|c: int| 0 <= c < 2048 ==> draw_rows(vid, fl, mem, base, x0, y0, row, n).0[c] == (
        if sprite_covers(mem, base, x0, y0, row, n, c) {
            !vid[c]
        } else {
            vid[c]
        }),
        draw_rows(vid, fl, mem, base, x0, y0, row, n).1 == (fl || sprite_hits(
            mem,
            base,
            x0,
            y0,
            row,
            n,
            vid,
        )),
    decreases n - row,
{
    if row < n {
        let b = mem[base + row];
        let rd = draw_row(vid, fl, b, x0, y0 + row, 0);
        lemma_draw_row_cells(vid, fl, b, x0, y0 + row, 0);
        lemma_draw_rows_cells(rd.0, rd.1, mem, base, x0, y0, row + 1, n);
        assert(draw_rows(vid, fl, mem, base, x0, y0, row, n) == draw_rows(
            rd.0,
            rd.1,
            mem,
            base,
            x0,
            y0,
            row + 1,
            n,
        ));
        assert forall|j: int| 0 <= j < 8 implies 0 <= #[trigger] pixel_cell(x0 + j, y0 + row)
            < 2048 by {
            vstd::arithmetic::div_mod::lemma_mod_bound(x0 + j, 64);
            vstd::arithmetic::div_mod::lemma_mod_bound(y0 + row, 32);
        }
        assert forall|c: int| 0 <= c < 2048 implies draw_rows(
            vid,
            fl,
            mem,
            base,
            x0,
            y0,
            row,
            n,
        ).0[c] == (if sprite_covers(mem, base, x0, y0, row, n, c) {
            !vid[c]
        } else {
            vid[c]
        }) by {
            let own = exists|j: int|
                0 <= j < 8 && sprite_bit(b, j) && c == pixel_cell(x0 + j, y0 + row);
            if own {
                let j = choose|j: int|
                    0 <= j < 8 && sprite_bit(b, j) && c == pixel_cell(x0 + j, y0 + row);
                assert(rd.0[c] == !vid[c]);
                if sprite_covers(mem, base, x0, y0, row + 1, n, c) {
                    let (r2, j2) = choose|r2: int, j2: int|
                        row + 1 <= r2 < n && 0 <= j2 < 8 && sprite_bit(mem[base + r2], j2) && c
                            == #[trigger] pixel_cell(x0 + j2, y0 + r2);
                    lemma_row_cells_distinct(x0, y0, j, j2, row, r2);
                    assert(false);
                }
                assert(sprite_covers(mem, base, x0, y0, row, n, c)) by {
                    assert(row <= row < n && 0 <= j < 8 && sprite_bit(mem[base + row], j) && c
                        == pixel_cell(x0 + j, y0 + row));
                }
            } else {
                assert(rd.0[c] == vid[c]);
                if sprite_covers(mem, base, x0, y0, row, n, c) {
                    let (r2, j2) = choose|r2: int, j2: int|
                        row <= r2 < n && 0 <= j2 < 8 && sprite_bit(mem[base + r2], j2) && c
                            == #[trigger] pixel_cell(x0 + j2, y0 + r2);
                    assert(r2 != row);
                    assert(sprite_covers(mem, base, x0, y0, row + 1, n, c)) by {
                        assert(row + 1 <= r2 < n && 0 <= j2 < 8 && sprite_bit(mem[base + r2], j2)
                            && c == pixel_cell(x0 + j2, y0 + r2));
                    }
                } else {
                    assert(!sprite_covers(mem, base, x0, y0, row + 1, n, c)) by {
                        if sprite_covers(mem, base, x0, y0, row + 1, n, c) {
                            let (r2, j2) = choose|r2: int, j2: int|
                                row + 1 <= r2 < n && 0 <= j2 < 8 && sprite_bit(mem[base + r2], j2)
                                    && c == #[trigger] pixel_cell(x0 + j2, y0 + r2);
                            assert(row <= r2 < n && 0 <= j2 < 8 && sprite_bit(mem[base + r2], j2)
                                && c == pixel_cell(x0 + j2, y0 + r2));
                        }
                    }
                }
            }
        }
        assert(draw_rows(vid, fl, mem, base, x0, y0, row, n).1 == (fl || sprite_hits(
            mem,
            base,
            x0,
            y0,
            row,
            n,
            vid,
        ))) by {
            assert(draw_rows(vid, fl, mem, base, x0, y0, row, n).1 == (rd.1 || sprite_hits(
                mem,
                base,
                x0,
                y0,
                row + 1,
                n,
                rd.0,
            )));
            if sprite_hits(mem, base, x0, y0, row + 1, n, rd.0) {
                let (r2, j2) = choose|r2: int, j2: int|
                    row + 1 <= r2 < n && 0 <= j2 < 8 && sprite_bit(mem[base + r2], j2) && rd.0[
                        #[trigger] pixel_cell(x0 + j2, y0 + r2)
                    ];
                vstd::arithmetic::div_mod::lemma_mod_bound(x0 + j2, 64);
                vstd::arithmetic::div_mod::lemma_mod_bound(y0 + r2, 32);
                let c2 = pixel_cell(x0 + j2, y0 + r2);
                assert(rd.0[c2] == vid[c2]) by {
                    if exists|j: int|
                        0 <= j < 8 && sprite_bit(b, j) && c2 == pixel_cell(x0 + j, y0 + row) {
                        let j = choose|j: int|
                            0 <= j < 8 && sprite_bit(b, j) && c2 == pixel_cell(x0 + j, y0 + row);
                        lemma_row_cells_distinct(x0, y0, j, j2, row, r2);
                        assert(false);
                    }
                }
                assert(sprite_hits(mem, base, x0, y0, row, n, vid)) by {
                    assert(row <= r2 < n && 0 <= j2 < 8 && sprite_bit(mem[base + r2], j2) && vid[
                        pixel_cell(x0 + j2, y0 + r2)
                    ]);
                }
            }
            if rd.1 && !fl {
                let j = choose|j: int|
                    0 <= j < 8 && sprite_bit(b, j) && vid[pixel_cell(x0 + j, y0 + row)];
                assert(sprite_hits(mem, base, x0, y0, row, n, vid)) by {
                    assert(row <= row < n && 0 <= j < 8 && sprite_bit(mem[base + row], j) && vid[
                        pixel_cell(x0 + j, y0 + row)
                    ]);
                }
            }
            if sprite_hits(mem, base, x0, y0, row, n, vid) {
                let (r2, j2) = choose|r2: int, j2: int|
                    row <= r2 < n && 0 <= j2 < 8 && sprite_bit(mem[base + r2], j2) && vid[
                        #[trigger] pixel_cell(x0 + j2, y0 + r2)
                    ];
                if r2 == row {
                    assert(rd.1);
                } else {
                    vstd::arithmetic::div_mod::lemma_mod_bound(x0 + j2, 64);
                    vstd::arithmetic::div_mod::lemma_mod_bound(y0 + r2, 32);
                    let c2 = pixel_cell(x0 + j2, y0 + r2);
                    assert(rd.0[c2] == vid[c2]) by {
                        if exists|j: int|
                            0 <= j < 8 && sprite_bit(b, j) && c2 == pixel_cell(x0 + j, y0 + row) {
                            let j = choose|j: int|
                                0 <= j < 8 && sprite_bit(b, j) && c2 == pixel_cell(
                                    x0 + j,
                                    y0 + row,
                                );
                            lemma_row_cells_distinct(x0, y0, j, j2, row, r2);
                            assert(false);
                        }
                    }
                    assert(sprite_hits(mem, base, x0, y0, row + 1, n, rd.0)) by {
                        assert(row + 1 <= r2 < n && 0 <= j2 < 8 && sprite_bit(mem[base + r2], j2)
                            && rd.0[pixel_cell(x0 + j2, y0 + r2)]);
                    }
                }
            }
        }
    }
}

/// The XOR draw is an involution for whole sprites too: drawing the same
/// sprite, of any height, twice at the same position restores every
/// framebuffer cell, whatever was on the screen before.
pub proof fn lemma_draw_sprite_twice(
    vid: Seq<bool>,
    mem: Seq<u8>,
    base: int,
    x0: int,
    y0: int,
    n: int,
)
    requires
        vid.len() == 2048,
        0 <= x0,
        0 <= y0,
        0 <= n <= 15,
        0 <= base,
        base + n <= mem.len(),
    ensures
        draw_rows(
            draw_rows(vid, false, mem, base, x0, y0, 0, n).0,
            false,
            mem,
            base,
            x0,
            y0,
            0,
            n,
        ).0 == vid,
{
    let v1 = draw_rows(vid, false, mem, base, x0, y0, 0, n).0;
    lemma_draw_rows_cells(vid, false, mem, base, x0, y0, 0, n);
    lemma_draw_rows_cells(v1, false, mem, base, x0, y0, 0, n);
    assert(draw_rows(v1, false, mem, base, x0, y0, 0, n).0 =~= vid);
}

/// The same law at instruction level: executing the same one-row draw
/// twice restores every framebuffer cell. When the cells under the row's
/// set bits all started off, the first draw reports no collision in the
/// flag register; when the row is nonzero, the second draw reports one.
/// The position registers must not be the flag register, which the draw
/// itself overwrites.
pub proof fn lemma_draw_instr_twice(v: Chip8View, x: usize, y: usize, rnd1: u8, rnd2: u8)
    requires
        view_wf(v),
        x < 15,
        y < 15,
        v.index < MEMORY_SIZE,
    ensures
        spec_execute(v, Instr::Draw { x, y, n: 1 }, rnd1) matches Ok(w1) && spec_execute(
            w1,
            Instr::Draw { x, y, n: 1 },
            rnd2,
        ) matches Ok(w2) && {
            let b = v.memory[v.index as int];
            let x0 = v.registers[x as int] as int;
            let y0 = v.registers[y as int] as int;
            &&& w2.video == v.video
            &&& (forall|j: int| 0 <= j < 8 && sprite_bit(b, j) ==> !v.video[pixel_cell(
                x0 + j,
                y0,
            )]) ==> {
                &&& w1.registers[15] == 0
                &&& b != 0 ==> w2.registers[15] == 1
            }
        },
{
    let b = v.memory[v.index as int];
    let x0 = v.registers[x as int] as int;
    let y0 = v.registers[y as int] as int;
    let r1 = draw_row(v.video, false, b, x0, y0, 0);
    assert(crate::chip8::draw_rows(r1.0, r1.1, v.memory, v.index as int, x0, y0, 1, 1) == r1);
    assert(crate::chip8::draw_rows(v.video, false, v.memory, v.index as int, x0, y0, 0, 1) == r1);
    let w1 = spec_execute(v, Instr::Draw { x, y, n: 1 }, rnd1)->Ok_0;
    assert(w1.registers[x as int] == v.registers[x as int]);
    assert(w1.registers[y as int] == v.registers[y as int]);
    let r2 = draw_row(w1.video, false, b, x0, y0, 0);
    assert(crate::chip8::draw_rows(r2.0, r2.1, w1.memory, w1.index as int, x0, y0, 1, 1) == r2);
    assert(crate::chip8::draw_rows(w1.video, false, w1.memory, w1.index as int, x0, y0, 0, 1) == r2);
    lemma_draw_row_twice(v.video, b, x0, y0);
    lemma_draw_row_cells(v.video, false, b, x0, y0, 0);
    lemma_nonzero_byte_has_bit(b);
}

} // verus!

