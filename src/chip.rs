//! The CHIP-8 virtual machine: state, instruction executor and frame driver.
use vstd::prelude::*;

use crate::bits::{first_byte, first_nibble, last_byte, last_nibble};

verus! {

pub const CHIP_DISPLAY_WIDTH_IN_PIXELS: usize = 64;

pub const CHIP_DISPLAY_HEIGHT_IN_PIXELS: usize = 32;

/// Where programs are loaded and where execution starts.
pub const PROGRAM_OFFSET: usize = 0x200;

/// The largest program that fits between the program origin and the end of memory.
pub const MAX_ROM_SIZE: usize = 3584;

/// Where the built-in hexadecimal digit sprites start.
pub const FONT_START_LOCATION: usize = 0;

pub const FONT_SPRITE_LENGTH_IN_BYTES: usize = 5;

/// The elapsed time reported by an instruction that waits for a key: it ends the frame.
pub const WAIT_FOR_KEY_MICROS: u32 = 0xFFFF_FFFF;

/// The whole machine, as the host sees it between frames.
#[derive(Debug)]
pub struct Chip8 {
    pub memory: [u8; 4096],
    pub data_registers: [u8; 16],
    pub program_counter: usize,
    pub stack: [u16; 16],
    pub stack_pointer: u8,
    pub i_register: u16,
    pub display_buffer: [bool; 2048],
    pub delay_timer: u8,
    pub sound_timer: u8,
    pub keys: [bool; 16],
    pub should_play_sound: bool,
}

/// The mathematical model of a machine.
#[verifier::ext_equal]
pub struct ChipState {
    pub memory: Seq<u8>,
    pub v: Seq<u8>,
    pub pc: usize,
    pub stack: Seq<u16>,
    pub sp: u8,
    pub i: u16,
    pub display: Seq<bool>,
    pub delay_timer: u8,
    pub sound_timer: u8,
    pub keys: Seq<bool>,
    pub sound_gate: bool,
}

impl View for Chip8 {
    type V = ChipState;

    open spec fn view(&self) -> ChipState {
        ChipState {
            memory: self.memory@,
            v: self.data_registers@,
            pc: self.program_counter,
            stack: self.stack@,
            sp: self.stack_pointer,
            i: self.i_register,
            display: self.display_buffer@,
            delay_timer: self.delay_timer,
            sound_timer: self.sound_timer,
            keys: self.keys@,
            sound_gate: self.should_play_sound,
        }
    }
}

/// The sixteen 5-byte digit sprites, 0 to F.
pub open spec fn font() -> Seq<u8> {
    seq![
        0x60, 0x90, 0x90, 0x90, 0x60,
        0x60, 0x20, 0x20, 0x20, 0x70,
        0xE0, 0x10, 0x30, 0x60, 0xF0,
        0xE0, 0x10, 0x60, 0x10, 0xE0,
        0xA0, 0xA0, 0xE0, 0x20, 0x20,
        0xF0, 0x80, 0xF0, 0x10, 0xF0,
        0x80, 0x80, 0xF0, 0x90, 0xF0,
        0xF0, 0x10, 0x20, 0x20, 0x20,
        0xF0, 0x90, 0xF0, 0x90, 0xF0,
        0xF0, 0x90, 0xF0, 0x10, 0x10,
        0x60, 0x90, 0xF0, 0x90, 0x90,
        0x80, 0x80, 0xF0, 0x90, 0xF0,
        0xF0, 0x80, 0x80, 0x80, 0xF0,
        0xE0, 0x90, 0x90, 0x90, 0xE0,
        0xF0, 0x80, 0xE0, 0x80, 0xF0,
        0xF0, 0x80, 0xE0, 0x80, 0x80,
    ]
}

/// Memory right after power-on: the font at the bottom, the program at its origin.
pub open spec fn initial_memory(rom: Seq<u8>) -> Seq<u8> {
    Seq::new(
        4096,
        |a: int|
            if a < 80 {
                font()[a]
            } else if 0x200 <= a < 0x200 + rom.len() {
                rom[a - 0x200]
            } else {
                0u8
            },
    )
}

/// The machine right after power-on.
pub open spec fn initial_state(rom: Seq<u8>) -> ChipState {
    ChipState {
        memory: initial_memory(rom),
        v: Seq::new(16, |r: int| 0u8),
        pc: 0x200,
        stack: Seq::new(16, |k: int| 0u16),
        sp: 0,
        i: 0,
        display: Seq::new(2048, |c: int| false),
        delay_timer: 0,
        sound_timer: 0,
        keys: Seq::new(16, |k: int| false),
        sound_gate: false,
    }
}

/// Why an instruction could not run. Each one is fatal to the program.
#[derive(Debug, Clone, Copy, PartialEq, Eq, Structural)]
pub enum ExecError {
    /// The opcode at `pc` is not one the machine knows.
    UnknownOpcode { opcode: u16, pc: usize },
    /// A `CALL` with all fifteen usable stack slots taken, or a `RET` with the stack pointer
    /// past the end of the stack.
    StackOverflow { pc: usize },
    /// A `RET` with an empty stack.
    StackUnderflow { pc: usize },
    /// The program counter leaves no room for a two-byte instruction.
    PcOutOfRange { pc: usize },
    /// The instruction would read or write memory past its end.
    AddressOutOfRange { opcode: u16, pc: usize },
}

impl ChipState {
    pub open spec fn with_v(self, r: int, val: u8) -> ChipState {
        ChipState { v: self.v.update(r, val), ..self }
    }

    pub open spec fn with_pc(self, pc: int) -> ChipState {
        ChipState { pc: pc as usize, ..self }
    }

    /// Whether the model has the sizes of the real machine.
    pub open spec fn sized(self) -> bool {
        &&& self.memory.len() == 4096
        &&& self.v.len() == 16
        &&& self.stack.len() == 16
        &&& self.display.len() == 2048
        &&& self.keys.len() == 16
    }
}

/// Result and flag of the `8xyN` arithmetic and logic group, or `None` for an unknown `N`.
pub open spec fn alu(n: u8, vx: u8, vy: u8) -> Option<(u8, Option<u8>)> {
    if n == 0 {
        Some((vy, None))
    } else if n == 1 {
        Some((vx | vy, None))
    } else if n == 2 {
        Some((vx & vy, None))
    } else if n == 3 {
        Some((vx ^ vy, None))
    } else if n == 4 {
        Some((((vx + vy) % 256) as u8, Some(if vx + vy > 255 { 1u8 } else { 0u8 })))
    } else if n == 5 {
        Some((((vx - vy + 256) % 256) as u8, Some(if vx > vy { 1u8 } else { 0u8 })))
    } else if n == 6 {
        Some(((vx / 2) as u8, Some((vx % 2) as u8)))
    } else if n == 7 {
        Some((((vy - vx + 256) % 256) as u8, Some(if vy > vx { 1u8 } else { 0u8 })))
    } else if n == 0xE {
        Some((((vx * 2) % 256) as u8, Some((vx / 128) as u8)))
    } else {
        None
    }
}

/// Whether key `k` is down; a value past the keypad counts as not pressed.
pub open spec fn key_pressed(keys: Seq<bool>, k: u8) -> bool {
    k < 16 && keys[k as int]
}

/// The highest index below `n` whose key is down.
pub open spec fn last_pressed(keys: Seq<bool>, n: int) -> Option<u8>
    decreases n,
{
    if n <= 0 {
        None
    } else if keys[n - 1] {
        Some((n - 1) as u8)
    } else {
        last_pressed(keys, n - 1)
    }
}

/// Bit `b` of a sprite row, counted from the most significant (leftmost) pixel.
pub open spec fn sprite_bit(byte: u8, b: int) -> bool {
    (byte >> ((7 - b) as u8)) & 1u8 == 1u8
}

/// The column of cell `c` relative to a sprite drawn at column `vx`.
pub open spec fn offset_x(c: int, vx: u8) -> int {
    (c % 64 - vx as int % 64 + 64) % 64
}

/// The row of cell `c` relative to a sprite drawn at row `vy`.
pub open spec fn offset_y(c: int, vy: u8) -> int {
    (c / 64 - vy as int % 32 + 32) % 32
}

/// Whether an `n`-row sprite read at `I` and drawn at (vx, vy) has a set pixel over cell `c`.
pub open spec fn drawn(s: ChipState, vx: u8, vy: u8, n: int, c: int) -> bool {
    let dx = offset_x(c, vx);
    let dy = offset_y(c, vy);
    dx < 8 && dy < n && sprite_bit(s.memory[s.i + dy], dx)
}

/// Whether drawing the sprite erases a lit pixel: some set sprite bit lands on a lit cell.
pub open spec fn sprite_collides(s: ChipState, vx: u8, vy: u8, n: int) -> bool {
    exists|row: int, b: int|
        0 <= row < n && 0 <= b < 8 && #[trigger] sprite_bit(s.memory[s.i + row], b)
            && s.display[cell(vx + b, vy + row)]
}

/// The display after XOR-drawing the sprite.
pub open spec fn drawn_display(s: ChipState, vx: u8, vy: u8, n: int) -> Seq<bool> {
    Seq::new(2048, |c: int| s.display[c] != drawn(s, vx, vy, n, c))
}

/// Memory after `Fx33`: the decimal digits of `val` at `I`, `I+1`, `I+2`.
pub open spec fn bcd_memory(s: ChipState, val: u8) -> Seq<u8> {
    s.memory.update(s.i as int, (val / 100) as u8).update(s.i + 1, ((val / 10) % 10) as u8).update(
        s.i + 2,
        (val % 10) as u8,
    )
}

/// The instruction whose two bytes are `hi` and `lo`, run on `s`: the next state and the
/// elapsed microseconds, or the fault.
pub open spec fn execute_op(s: ChipState, hi: u8, lo: u8, rnd: u8) -> Result<(ChipState, u32), ExecError> {
    let op = (hi as int * 256 + lo as int) as u16;
    let x = (hi % 16) as int;
    let y = (lo / 16) as int;
    let n = lo % 16;
    let nnn = (hi % 16) as int * 256 + lo as int;
    let vx = s.v[x];
    let vy = s.v[y];
    let next = s.with_pc(s.pc + 2);
    let skip = s.with_pc(s.pc + 4);
    let unknown = Err(ExecError::UnknownOpcode { opcode: op, pc: s.pc });
    let out_of_range = Err(ExecError::AddressOutOfRange { opcode: op, pc: s.pc });
    let group = hi / 16;
    if group == 0 {
        if hi == 0 && lo == 0xE0 {
            Ok((ChipState { display: Seq::new(2048, |c: int| false), ..next }, 109))
        } else if hi == 0 && lo == 0xEE {
            if s.sp == 0 {
                Err(ExecError::StackUnderflow { pc: s.pc })
            } else if s.sp >= 16 {
                Err(ExecError::StackOverflow { pc: s.pc })
            } else {
                Ok((ChipState { pc: (s.stack[s.sp as int] + 2) as usize, sp: (s.sp - 1) as u8, ..s }, 105))
            }
        } else {
            unknown
        }
    } else if group == 1 {
        Ok((s.with_pc(nnn), 105))
    } else if group == 2 {
        if s.sp >= 15 {
            Err(ExecError::StackOverflow { pc: s.pc })
        } else {
            Ok((
                ChipState {
                    sp: (s.sp + 1) as u8,
                    stack: s.stack.update(s.sp + 1, s.pc as u16),
                    pc: nnn as usize,
                    ..s
                },
                105,
            ))
        }
    } else if group == 3 {
        Ok((if vx == lo { skip } else { next }, 55))
    } else if group == 4 {
        Ok((if vx != lo { skip } else { next }, 55))
    } else if group == 5 {
        if n == 0 { Ok((if vx == vy { skip } else { next }, 73)) } else { unknown }
    } else if group == 6 {
        Ok((next.with_v(x, lo), 27))
    } else if group == 7 {
        Ok((next.with_v(x, ((vx + lo) % 256) as u8), 45))
    } else if group == 8 {
        match alu(n, vx, vy) {
            Some((val, None)) => Ok((next.with_v(x, val), 200)),
            Some((val, Some(flag))) => Ok((next.with_v(x, val).with_v(15, flag), 200)),
            None => unknown,
        }
    } else if group == 9 {
        if n == 0 { Ok((if vx != vy { skip } else { next }, 73)) } else { unknown }
    } else if group == 0xA {
        Ok((ChipState { i: nnn as u16, ..next }, 55))
    } else if group == 0xC {
        Ok((next.with_v(x, rnd & lo), 164))
    } else if group == 0xD {
        if s.i + n > 4096 {
            out_of_range
        } else {
            let drawn = ChipState { display: drawn_display(s, vx, vy, n as int), ..next };
            Ok((drawn.with_v(15, if sprite_collides(s, vx, vy, n as int) { 1u8 } else { 0u8 }), 22734))
        }
    } else if group == 0xE {
        if lo == 0x9E {
            Ok((if key_pressed(s.keys, vx) { skip } else { next }, 73))
        } else if lo == 0xA1 {
            Ok((if !key_pressed(s.keys, vx) { skip } else { next }, 73))
        } else {
            unknown
        }
    } else if group == 0xF {
        if lo == 0x07 {
            Ok((next.with_v(x, s.delay_timer), 45))
        } else if lo == 0x0A {
            match last_pressed(s.keys, 16) {
                Some(k) => Ok((next.with_v(x, k), WAIT_FOR_KEY_MICROS)),
                None => Ok((s, WAIT_FOR_KEY_MICROS)),
            }
        } else if lo == 0x15 {
            Ok((ChipState { delay_timer: vx, ..next }, 45))
        } else if lo == 0x18 {
            Ok((ChipState { sound_timer: vx, sound_gate: vx > 0 || s.sound_gate, ..next }, 45))
        } else if lo == 0x1E {
            Ok((ChipState { i: ((s.i + vx) % 65536) as u16, ..next }, 86))
        } else if lo == 0x29 {
            Ok((
                ChipState { i: (FONT_START_LOCATION + FONT_SPRITE_LENGTH_IN_BYTES * vx) as u16, ..next },
                91,
            ))
        } else if lo == 0x33 {
            if s.i + 2 >= 4096 {
                out_of_range
            } else {
                Ok((ChipState { memory: bcd_memory(s, vx), ..next }, 927))
            }
        } else if lo == 0x55 {
            let last = if x < 14 { x } else { 14 };
            if s.i + last >= 4096 {
                out_of_range
            } else {
                let mem = Seq::new(
                    4096,
                    |a: int| if s.i <= a <= s.i + last { s.v[a - s.i] } else { s.memory[a] },
                );
                Ok((ChipState { memory: mem, ..next }, 605))
            }
        } else if lo == 0x65 {
            if s.i + x >= 4096 {
                out_of_range
            } else {
                let regs = Seq::new(16, |r: int| if r <= x { s.memory[s.i + r] } else { s.v[r] });
                Ok((ChipState { v: regs, ..next }, 605))
            }
        } else {
            unknown
        }
    } else {
        unknown
    }
}

/// One fetch-decode-execute step on `s` with the keypad snapshot `keys`; `rnd` is the byte
/// that `Cxkk` draws.
pub open spec fn step(s: ChipState, keys: Seq<bool>, rnd: u8) -> Result<(ChipState, u32), ExecError> {
    let s = ChipState { keys, ..s };
    if s.pc >= 4095 {
        Err(ExecError::PcOutOfRange { pc: s.pc })
    } else {
        execute_op(s, s.memory[s.pc as int], s.memory[s.pc + 1], rnd)
    }
}

/// `post` and `r` are what `outcome` says; on a fault the machine is left as `pre`.
pub open spec fn outcome_matches(
    outcome: Result<(ChipState, u32), ExecError>,
    pre: ChipState,
    post: ChipState,
    r: Result<u32, ExecError>,
) -> bool {
    match outcome {
        Ok((next, t)) => post == next && r == Ok::<u32, ExecError>(t),
        Err(e) => post == pre && r == Err::<u32, ExecError>(e),
    }
}

/// The 60 Hz timer tick at the top of a frame: both timers count down, and the sound gate
/// is open exactly when the sound timer was running.
pub open spec fn tick(s: ChipState) -> ChipState {
    ChipState {
        delay_timer: if s.delay_timer > 0 { (s.delay_timer - 1) as u8 } else { 0 },
        sound_timer: if s.sound_timer > 0 { (s.sound_timer - 1) as u8 } else { 0 },
        sound_gate: s.sound_timer > 0,
        ..s
    }
}

/// Running steps from `s` while `left` microseconds of the budget remain, the i-th step
/// drawing `rnds[i]`: the final state and whether a fault stopped the run. `None` when
/// `rnds` does not hold exactly one byte per step taken.
pub open spec fn run_steps(s: ChipState, keys: Seq<bool>, left: int, rnds: Seq<u8>) -> Option<
    (ChipState, Result<(), ExecError>),
>
    decreases rnds.len(),
{
    if left <= 0 {
        if rnds.len() == 0 {
            Some((s, Ok(())))
        } else {
            None
        }
    } else if rnds.len() == 0 {
        None
    } else {
        match step(s, keys, rnds[0]) {
            Err(e) => if rnds.len() == 1 {
                Some((ChipState { keys, ..s }, Err(e)))
            } else {
                None
            },
            Ok((next, t)) => if t == WAIT_FOR_KEY_MICROS {
                if rnds.len() == 1 {
                    Some((next, Ok(())))
                } else {
                    None
                }
            } else {
                run_steps(next, keys, left - t, rnds.drop_first())
            },
        }
    }
}

/// One video frame with budget `budget` microseconds: the timer tick, then steps until the
/// budget is spent, a key wait ends the frame, or a fault stops it.
pub open spec fn frame(s: ChipState, keys: Seq<bool>, budget: int, rnds: Seq<u8>) -> Option<
    (ChipState, Result<(), ExecError>),
> {
    run_steps(tick(s), keys, budget, rnds)
}

/// Every instruction that runs takes some time.
pub proof fn lemma_step_time_positive(s: ChipState, keys: Seq<bool>, rnd: u8)
    ensures
        step(s, keys, rnd) matches Ok((next, t)) ==> t > 0,
{
}

/// Whether the live return addresses (slots 1 to `sp`) are even addresses inside memory.
pub open spec fn stack_addresses_ok(s: ChipState) -> bool {
    forall|k: int| 1 <= k <= s.sp && k < 16 ==> #[trigger] s.stack[k] % 2 == 0 && s.stack[k] < 0x1000
}

/// Whether a jump or call at the program counter targets an even address.
pub open spec fn jump_target_even(s: ChipState) -> bool {
    s.pc + 1 < s.memory.len() ==> ((s.memory[s.pc as int] / 16 == 1 || s.memory[s.pc as int] / 16
        == 2) ==> s.memory[s.pc + 1] % 2 == 0)
}

/// The instruction at the program counter, as a word.
pub open spec fn opcode_at(s: ChipState) -> int {
    s.memory[s.pc as int] as int * 256 + s.memory[s.pc + 1] as int
}

/// How a step changes the stack depth: one up for `CALL`, one down for `RET`.
pub open spec fn stack_delta(s: ChipState) -> int {
    if s.memory[s.pc as int] / 16 == 2 {
        1
    } else if opcode_at(s) == 0x00EE {
        -1
    } else {
        0
    }
}

/// The program counter stays even across a step, and stays inside memory unless the program
/// ran off its end, in which case the next step faults; the live return addresses stay even
/// and inside memory. This holds for programs whose jumps and calls target even addresses.
pub proof fn lemma_pc_stays_even(s: ChipState, keys: Seq<bool>, rnd: u8)
    requires
        s.sized(),
        keys.len() == 16,
        s.pc % 2 == 0,
        s.pc < 0x1000,
        s.sp < 16,
        stack_addresses_ok(s),
        jump_target_even(s),
    ensures
        step(s, keys, rnd) matches Ok((next, t)) ==> {
            &&& next.pc % 2 == 0
            &&& next.sp < 16
            &&& stack_addresses_ok(next)
            &&& (next.pc < 0x1000 || forall|k: Seq<bool>, r: u8| #[trigger] step(next, k, r) is Err)
        },
{
    if let Ok((next, t)) = step(s, keys, rnd) {
        assert(next.pc % 2 == 0);
        assert(stack_addresses_ok(next));
    }
}

/// The stack pointer stays below 16 and moves by one for each `CALL` (up) and `RET` (down),
/// so that from power-on it counts the calls not yet returned from.
pub proof fn lemma_stack_depth(s: ChipState, keys: Seq<bool>, rnd: u8)
    requires
        s.sized(),
        s.sp < 16,
    ensures
        step(s, keys, rnd) matches Ok((next, t)) ==> next.sp < 16 && next.sp == s.sp + stack_delta(
            s,
        ) && next.stack[0] == s.stack[0],
{
}

/// Calls minus returns among the steps that `run_steps` completes.
pub open spec fn net_calls(s: ChipState, keys: Seq<bool>, left: int, rnds: Seq<u8>) -> int
    decreases rnds.len(),
{
    if left <= 0 || rnds.len() == 0 {
        0
    } else {
        match step(s, keys, rnds[0]) {
            Err(_) => 0,
            Ok((next, t)) => stack_delta(s) + if t == WAIT_FOR_KEY_MICROS {
                0
            } else {
                net_calls(next, keys, left - t, rnds.drop_first())
            },
        }
    }
}

/// A step keeps the sizes of memory, registers, stack, display and keypad.
pub proof fn lemma_step_keeps_sizes(s: ChipState, keys: Seq<bool>, rnd: u8)
    requires
        s.sized(),
        keys.len() == 16,
    ensures
        step(s, keys, rnd) matches Ok((next, t)) ==> next.sized(),
{
}

proof fn lemma_run_stack_depth(s: ChipState, keys: Seq<bool>, left: int, rnds: Seq<u8>)
    requires
        s.sized(),
        keys.len() == 16,
        s.sp < 16,
    ensures
        run_steps(s, keys, left, rnds) matches Some((last, r)) ==> last.sp < 16 && last.sp == s.sp
            + net_calls(s, keys, left, rnds) && last.stack[0] == s.stack[0] && last.sized(),
    decreases rnds.len(),
{
    if left > 0 && rnds.len() > 0 {
        lemma_stack_depth(s, keys, rnds[0]);
        lemma_step_keeps_sizes(s, keys, rnds[0]);
        if let Ok((next, t)) = step(s, keys, rnds[0]) {
            if t != WAIT_FOR_KEY_MICROS {
                lemma_run_stack_depth(next, keys, left - t, rnds.drop_first());
            }
        }
    }
}

/// Over a whole frame the stack pointer stays below 16 and moves by the number of calls
/// minus the number of returns the frame ran; from power-on it therefore counts the calls
/// not yet returned from.
pub proof fn lemma_frame_stack_depth(s: ChipState, keys: Seq<bool>, budget: int, rnds: Seq<u8>)
    requires
        s.sized(),
        keys.len() == 16,
        s.sp < 16,
    ensures
        frame(s, keys, budget, rnds) matches Some((last, r)) ==> last.sp < 16 && last.sp == s.sp
            + net_calls(tick(s), keys, budget, rnds) && last.stack[0] == s.stack[0] && last.sized(),
{
    lemma_run_stack_depth(tick(s), keys, budget, rnds);
}

/// What one frame is given: the keypad snapshot, the budget in microseconds, and the bytes
/// that its random draws take.
pub struct FrameInput {
    pub keys: Seq<bool>,
    pub budget: int,
    pub rnds: Seq<u8>,
}

/// The machine after the frames of `inputs`, one after another; `None` if one of them
/// faults or its random bytes do not match its steps.
pub open spec fn run_frames(s: ChipState, inputs: Seq<FrameInput>) -> Option<ChipState>
    decreases inputs.len(),
{
    if inputs.len() == 0 {
        Some(s)
    } else {
        match frame(s, inputs[0].keys, inputs[0].budget, inputs[0].rnds) {
            Some((next, Ok(()))) => run_frames(next, inputs.drop_first()),
            _ => None,
        }
    }
}

/// Calls minus returns over the frames of `inputs`.
pub open spec fn frames_net_calls(s: ChipState, inputs: Seq<FrameInput>) -> int
    decreases inputs.len(),
{
    if inputs.len() == 0 {
        0
    } else {
        match frame(s, inputs[0].keys, inputs[0].budget, inputs[0].rnds) {
            Some((next, Ok(()))) => net_calls(tick(s), inputs[0].keys, inputs[0].budget, inputs[0].rnds)
                + frames_net_calls(next, inputs.drop_first()),
            _ => 0,
        }
    }
}

proof fn lemma_frames_stack_depth(s: ChipState, inputs: Seq<FrameInput>)
    requires
        s.sized(),
        s.sp < 16,
        forall|k: int| 0 <= k < inputs.len() ==> (#[trigger] inputs[k]).keys.len() == 16,
    ensures
        run_frames(s, inputs) matches Some(last) ==> last.sp < 16 && last.sp == s.sp
            + frames_net_calls(s, inputs) && last.stack[0] == s.stack[0],
    decreases inputs.len(),
{
    if inputs.len() > 0 {
        let i = inputs[0];
        lemma_frame_stack_depth(s, i.keys, i.budget, i.rnds);
        if let Some((next, Ok(()))) = frame(s, i.keys, i.budget, i.rnds) {
            let rest = inputs.drop_first();
            assert forall|k: int| 0 <= k < rest.len() implies (#[trigger] rest[k]).keys.len() == 16 by {
                assert(rest[k] == inputs[k + 1]);
            }
            lemma_frames_stack_depth(next, rest);
        }
    }
}

/// From power-on, after any run of frames that does not fault, the stack pointer equals the
/// number of calls minus the number of returns executed, stays below 16, and the stack slot
/// 0 has never been written.
pub proof fn lemma_power_on_stack_depth(rom: Seq<u8>, inputs: Seq<FrameInput>)
    requires
        rom.len() <= MAX_ROM_SIZE,
        forall|k: int| 0 <= k < inputs.len() ==> (#[trigger] inputs[k]).keys.len() == 16,
    ensures
        run_frames(initial_state(rom), inputs) matches Some(last) ==> last.sp < 16 && last.sp
            == frames_net_calls(initial_state(rom), inputs) && last.stack[0] == 0,
{
    lemma_frames_stack_depth(initial_state(rom), inputs);
}

/// Whether every step that `run_steps` takes from `s` starts on a jump or call with an even
/// target, if it starts on a jump or call at all.
pub open spec fn jumps_even_along(s: ChipState, keys: Seq<bool>, left: int, rnds: Seq<u8>) -> bool
    decreases rnds.len(),
{
    if left <= 0 || rnds.len() == 0 {
        true
    } else {
        jump_target_even(s) && match step(s, keys, rnds[0]) {
            Ok((next, t)) => t == WAIT_FOR_KEY_MICROS || jumps_even_along(
                next,
                keys,
                left - t,
                rnds.drop_first(),
            ),
            Err(_) => true,
        }
    }
}

proof fn lemma_run_pc_even(s: ChipState, keys: Seq<bool>, left: int, rnds: Seq<u8>)
    requires
        s.sized(),
        keys.len() == 16,
        s.pc % 2 == 0,
        s.sp < 16,
        stack_addresses_ok(s),
        jumps_even_along(s, keys, left, rnds),
    ensures
        run_steps(s, keys, left, rnds) matches Some((last, r)) ==> last.pc % 2 == 0 && last.sp < 16
            && stack_addresses_ok(last),
    decreases rnds.len(),
{
    if left > 0 && rnds.len() > 0 {
        if s.pc < 0x1000 {
            lemma_pc_stays_even(s, keys, rnds[0]);
        }
        lemma_step_keeps_sizes(s, keys, rnds[0]);
        if let Ok((next, t)) = step(s, keys, rnds[0]) {
            if t != WAIT_FOR_KEY_MICROS {
                lemma_run_pc_even(next, keys, left - t, rnds.drop_first());
            }
        }
    }
}

/// Over a whole frame the program counter stays even, and inside memory unless the program
/// ran off its end (then the next step faults); the stack pointer stays below 16 and the
/// live return addresses stay even and inside memory. This holds for programs whose jumps
/// and calls, as the frame meets them, target even addresses.
pub proof fn lemma_frame_pc_even(s: ChipState, keys: Seq<bool>, budget: int, rnds: Seq<u8>)
    requires
        s.sized(),
        keys.len() == 16,
        s.pc % 2 == 0,
        s.sp < 16,
        stack_addresses_ok(s),
        jumps_even_along(tick(s), keys, budget, rnds),
    ensures
        frame(s, keys, budget, rnds) matches Some((last, r)) ==> {
            &&& last.pc % 2 == 0
            &&& last.sp < 16
            &&& stack_addresses_ok(last)
            &&& (last.pc < 0x1000 || forall|k: Seq<bool>, r2: u8| #[trigger] step(last, k, r2) is Err)
        },
{
    lemma_run_pc_even(tick(s), keys, budget, rnds);
}

/// After a draw, `VF` is 0 or 1, and it is 1 exactly when some set bit of the sprite lands
/// on a lit cell.
pub proof fn lemma_draw_flag(s: ChipState, keys: Seq<bool>, rnd: u8)
    requires
        s.sized(),
        s.pc < 4095,
        s.memory[s.pc as int] / 16 == 0xD,
    ensures
        step(s, keys, rnd) matches Ok((next, t)) ==> {
            let vx = s.v[(s.memory[s.pc as int] % 16) as int];
            let vy = s.v[(s.memory[s.pc + 1] / 16) as int];
            let n = (s.memory[s.pc + 1] % 16) as int;
            &&& next.v[15] <= 1
            &&& next.v[15] == 1 <==> exists|row: int, b: int|
                0 <= row < n && 0 <= b < 8 && #[trigger] sprite_bit(s.memory[s.i + row], b)
                    && s.display[cell(vx + b, vy + row)]
        },
{
}

/// After `8xy5`, `VF` is 1 exactly when Vx was above Vy; after `8xy7`, exactly when Vy was
/// above Vx.
pub proof fn lemma_subtract_flag(s: ChipState, keys: Seq<bool>, rnd: u8)
    requires
        s.sized(),
        s.pc < 4095,
        s.memory[s.pc as int] / 16 == 8,
        s.memory[s.pc + 1] % 16 == 5 || s.memory[s.pc + 1] % 16 == 7,
    ensures
        step(s, keys, rnd) matches Ok((next, t)) ==> {
            let vx = s.v[(s.memory[s.pc as int] % 16) as int];
            let vy = s.v[(s.memory[s.pc + 1] / 16) as int];
            if s.memory[s.pc + 1] % 16 == 5 {
                next.v[15] == if vx > vy { 1u8 } else { 0u8 }
            } else {
                next.v[15] == if vy > vx { 1u8 } else { 0u8 }
            }
        },
{
}

/// `Fx33` writes three decimal digits h, t, o at `I` with 100·h + 10·t + o = Vx.
pub proof fn lemma_bcd_digits(s: ChipState, keys: Seq<bool>, rnd: u8)
    requires
        s.sized(),
        s.pc < 4095,
        s.memory[s.pc as int] / 16 == 0xF,
        s.memory[s.pc + 1] == 0x33,
    ensures
        step(s, keys, rnd) matches Ok((next, t)) ==> {
            let vx = s.v[(s.memory[s.pc as int] % 16) as int];
            let h = next.memory[s.i as int];
            let tens = next.memory[s.i + 1];
            let o = next.memory[s.i + 2];
            &&& h < 10 && tens < 10 && o < 10
            &&& 100 * h + 10 * tens + o == vx
        },
{
    if let Ok((next, t)) = step(s, keys, rnd) {
        let vx = s.v[(s.memory[s.pc as int] % 16) as int];
        assert(100 * (vx / 100) + 10 * ((vx / 10) % 10) + vx % 10 == vx && vx / 100 < 10)
            by (nonlinear_arith)
            requires
                0 <= vx < 256,
        ;
    }
}

/// Clearing the screen twice leaves it as clearing it once.
pub proof fn lemma_cls_idempotent(s: ChipState, keys: Seq<bool>, rnd: u8)
    requires
        s.sized(),
        s.pc < 4093,
        s.memory[s.pc as int] == 0,
        s.memory[s.pc + 1] == 0xE0,
        s.memory[s.pc + 2] == 0,
        s.memory[s.pc + 3] == 0xE0,
    ensures
        step(s, keys, rnd) matches Ok((once, t)) && step(once, keys, rnd) matches Ok((twice, t2))
            && twice.display == once.display,
{
}

/// Relies on rand::random: a byte drawn from the thread-local generator. Nothing is promised
/// of its value.
#[verifier::external_body]
fn random_byte() -> (r: u8) {
    rand::random::<u8>()
}

/// The display cell that pixel (x, y) lands on, with wrap-around on both axes.
pub open spec fn cell(x: int, y: int) -> int {
    x % 64 + (y % 32) * 64
}

fn font_sprites() -> (r: [u8; 80])
    ensures
        r@ == font(),
{
    let r: [u8; 80] = [
        0x60, 0x90, 0x90, 0x90, 0x60,
        0x60, 0x20, 0x20, 0x20, 0x70,
        0xE0, 0x10, 0x30, 0x60, 0xF0,
        0xE0, 0x10, 0x60, 0x10, 0xE0,
        0xA0, 0xA0, 0xE0, 0x20, 0x20,
        0xF0, 0x80, 0xF0, 0x10, 0xF0,
        0x80, 0x80, 0xF0, 0x90, 0xF0,
        0xF0, 0x10, 0x20, 0x20, 0x20,
        0xF0, 0x90, 0xF0, 0x90, 0xF0,
        0xF0, 0x90, 0xF0, 0x10, 0x10,
        0x60, 0x90, 0xF0, 0x90, 0x90,
        0x80, 0x80, 0xF0, 0x90, 0xF0,
        0xF0, 0x80, 0x80, 0x80, 0xF0,
        0xE0, 0x90, 0x90, 0x90, 0xE0,
        0xF0, 0x80, 0xE0, 0x80, 0xF0,
        0xF0, 0x80, 0xE0, 0x80, 0x80,
    ];
    assert(r@ =~= font());
    r
}

impl Chip8 {
    /// A machine with the font installed and `rom` loaded at the program origin.
    pub fn new(rom: &[u8]) -> (chip: Self)
        requires
            rom@.len() <= MAX_ROM_SIZE,
        ensures
            chip@ == initial_state(rom@),
    {
        let mut memory: [u8; 4096] = [0; 4096];
        let sprites = font_sprites();
        let mut k: usize = 0;
        while k < 80
            invariant
                0 <= k <= 80,
                sprites@ == font(),
                memory@.len() == 4096,
                forall|a: int| 0 <= a < k ==> memory@[a] == font()[a],
                forall|a: int| k <= a < 4096 ==> memory@[a] == 0,
            decreases 80 - k,
        {
            memory[FONT_START_LOCATION + k] = sprites[k];
            k = k + 1;
        }
        let mut k: usize = 0;
        while k < rom.len()
            invariant
                0 <= k <= rom@.len(),
                rom@.len() <= MAX_ROM_SIZE,
                memory@.len() == 4096,
                forall|a: int| 0 <= a < 80 ==> memory@[a] == font()[a],
                forall|a: int| 0x200 <= a < 0x200 + k ==> memory@[a] == rom@[a - 0x200],
                forall|a: int| 80 <= a < 0x200 ==> memory@[a] == 0,
                forall|a: int| 0x200 + k <= a < 4096 ==> memory@[a] == 0,
            decreases rom@.len() - k,
        {
            memory[PROGRAM_OFFSET + k] = rom[k];
            k = k + 1;
        }
        let chip = Chip8 {
            memory,
            data_registers: [0; 16],
            program_counter: PROGRAM_OFFSET,
            i_register: 0,
            display_buffer: [false; 2048],
            stack_pointer: 0,
            stack: [0; 16],
            delay_timer: 0,
            sound_timer: 0,
            keys: [false; 16],
            should_play_sound: false,
        };
        assert(chip.memory@ =~= initial_memory(rom@));
        assert(chip.data_registers@ =~= Seq::new(16, |r: int| 0u8));
        assert(chip.stack@ =~= Seq::new(16, |k: int| 0u16));
        assert(chip.display_buffer@ =~= Seq::new(2048, |c: int| false));
        assert(chip.keys@ =~= Seq::new(16, |k: int| false));
        chip
    }

    fn increment_pc(&mut self)
        requires
            old(self).program_counter <= 0x2000,
        ensures
            final(self)@ == old(self)@.with_pc(old(self)@.pc + 2),
    {
        self.program_counter = self.program_counter + 2;
    }

    fn is_key_pressed(&self, key_value: u8) -> (r: bool)
        requires
            self@.sized(),
        ensures
            r == key_pressed(self@.keys, key_value),
    {
        key_value < 16 && self.keys[key_value as usize]
    }

    /// Runs the instruction at the program counter with the keypad snapshot `keys`, where
    /// `rnd` is the byte that a `Cxkk` draws. Returns the instruction's pacing cost in
    /// microseconds (`WAIT_FOR_KEY_MICROS` for `Fx0A`), or the fault, in which case nothing
    /// but the keypad snapshot has changed.
    pub fn execute(&mut self, keys: [bool; 16], rnd: u8) -> (r: Result<u32, ExecError>)
        ensures
            outcome_matches(
                step(old(self)@, keys@, rnd),
                ChipState { keys: keys@, ..old(self)@ },
                final(self)@,
                r,
            ),
    {
        self.keys = keys;
        let pc = self.program_counter;
        if pc >= 4095 {
            return Err(ExecError::PcOutOfRange { pc });
        }
        let opcode: u16 = (self.memory[pc] as u16) * 256 + self.memory[pc + 1] as u16;
        let hi = first_byte(opcode);
        let lo = last_byte(opcode);
        let group = first_nibble(hi);
        if group <= 2 {
            self.execute_flow(hi, lo)
        } else if group == 8 {
            self.execute_alu(hi, lo)
        } else if group == 0xD {
            self.execute_draw(hi, lo)
        } else if group == 0xF {
            self.execute_misc(hi, lo)
        } else {
            self.execute_simple(hi, lo, rnd)
        }
    }

    /// `00E0`, `00EE`, `1nnn` and `2nnn`.
    fn execute_flow(&mut self, hi: u8, lo: u8) -> (r: Result<u32, ExecError>)
        requires
            old(self).program_counter < 4095,
            hi / 16 <= 2,
        ensures
            outcome_matches(execute_op(old(self)@, hi, lo, 0), old(self)@, final(self)@, r),
    {
        let pc = self.program_counter;
        let opcode: u16 = (hi as u16) * 256 + lo as u16;
        let group = first_nibble(hi);
        let nnn: u16 = (last_nibble(hi) as u16) * 256 + lo as u16;
        if group == 0 {
            if hi == 0 && lo == 0xE0 {
                // 00E0 - CLS
                self.display_buffer = [false; 2048];
                self.increment_pc();
                assert(self.display_buffer@ =~= Seq::new(2048, |c: int| false));
                Ok(109)
            } else if hi == 0 && lo == 0xEE {
                // 00EE - RET
                if self.stack_pointer == 0 {
                    return Err(ExecError::StackUnderflow { pc });
                }
                if self.stack_pointer >= 16 {
                    return Err(ExecError::StackOverflow { pc });
                }
                self.program_counter = self.stack[self.stack_pointer as usize] as usize + 2;
                self.stack_pointer = self.stack_pointer - 1;
                Ok(105)
            } else {
                Err(ExecError::UnknownOpcode { opcode, pc })
            }
        } else if group == 1 {
            // 1nnn - JP addr
            self.program_counter = nnn as usize;
            Ok(105)
        } else {
            // 2nnn - CALL addr; stack[0] is never used
            if self.stack_pointer >= 15 {
                return Err(ExecError::StackOverflow { pc });
            }
            self.stack_pointer = self.stack_pointer + 1;
            self.stack[self.stack_pointer as usize] = pc as u16;
            self.program_counter = nnn as usize;
            Ok(105)
        }
    }

    /// The skips, loads, `ADD Vx, kk`, `LD I, nnn` and `RND`: groups 3 to 7, 9, A, B, C and E.
    fn execute_simple(&mut self, hi: u8, lo: u8, rnd: u8) -> (r: Result<u32, ExecError>)
        requires
            old(self).program_counter < 4095,
            old(self)@.sized(),
            3 <= hi / 16,
            hi / 16 != 8,
            hi / 16 != 0xD,
            hi / 16 != 0xF,
        ensures
            outcome_matches(execute_op(old(self)@, hi, lo, rnd), old(self)@, final(self)@, r),
    {
        let pc = self.program_counter;
        let opcode: u16 = (hi as u16) * 256 + lo as u16;
        let group = first_nibble(hi);
        let x_register = last_nibble(hi) as usize;
        let y_register = first_nibble(lo) as usize;
        let n = last_nibble(lo);
        let x = self.data_registers[x_register];
        let y = self.data_registers[y_register];
        if group == 3 {
            // 3xkk - SE Vx, byte
            self.increment_pc();
            if x == lo {
                self.increment_pc();
            }
            Ok(55)
        } else if group == 4 {
            // 4xkk - SNE Vx, byte
            self.increment_pc();
            if x != lo {
                self.increment_pc();
            }
            Ok(55)
        } else if group == 5 {
            // 5xy0 - SE Vx, Vy
            if n != 0 {
                return Err(ExecError::UnknownOpcode { opcode, pc });
            }
            self.increment_pc();
            if x == y {
                self.increment_pc();
            }
            Ok(73)
        } else if group == 6 {
            // 6xkk - LD Vx, byte
            self.data_registers[x_register] = lo;
            self.increment_pc();
            Ok(27)
        } else if group == 7 {
            // 7xkk - ADD Vx, byte
            self.data_registers[x_register] = ((x as u16 + lo as u16) % 256) as u8;
            self.increment_pc();
            Ok(45)
        } else if group == 9 {
            // 9xy0 - SNE Vx, Vy
            if n != 0 {
                return Err(ExecError::UnknownOpcode { opcode, pc });
            }
            self.increment_pc();
            if x != y {
                self.increment_pc();
            }
            Ok(73)
        } else if group == 0xA {
            // Annn - LD I, addr
            self.i_register = (last_nibble(hi) as u16) * 256 + lo as u16;
            self.increment_pc();
            Ok(55)
        } else if group == 0xC {
            // Cxkk - RND Vx, byte
            self.data_registers[x_register] = rnd & lo;
            self.increment_pc();
            Ok(164)
        } else if group == 0xE && lo == 0x9E {
            // Ex9E - SKP Vx
            if self.is_key_pressed(x) {
                self.increment_pc();
            }
            self.increment_pc();
            Ok(73)
        } else if group == 0xE && lo == 0xA1 {
            // ExA1 - SKNP Vx
            if !self.is_key_pressed(x) {
                self.increment_pc();
            }
            self.increment_pc();
            Ok(73)
        } else {
            Err(ExecError::UnknownOpcode { opcode, pc })
        }
    }

    /// `8xyN`: register-to-register arithmetic and logic, with `VF` as the flag.
    fn execute_alu(&mut self, hi: u8, lo: u8) -> (r: Result<u32, ExecError>)
        requires
            old(self).program_counter < 4095,
            old(self)@.sized(),
            hi / 16 == 8,
        ensures
            outcome_matches(execute_op(old(self)@, hi, lo, 0), old(self)@, final(self)@, r),
    {
        let pc = self.program_counter;
        let opcode: u16 = (hi as u16) * 256 + lo as u16;
        let x_register = last_nibble(hi) as usize;
        let y_register = first_nibble(lo) as usize;
        let x = self.data_registers[x_register];
        let y = self.data_registers[y_register];
        let n = last_nibble(lo);
        if n == 0 {
            self.data_registers[x_register] = y;
        } else if n == 1 {
            self.data_registers[x_register] = x | y;
        } else if n == 2 {
            self.data_registers[x_register] = x & y;
        } else if n == 3 {
            self.data_registers[x_register] = x ^ y;
        } else if n == 4 {
            let sum: u16 = x as u16 + y as u16;
            self.data_registers[x_register] = (sum % 256) as u8;
            self.data_registers[15] = if sum > 255 { 1 } else { 0 };
        } else if n == 5 {
            self.data_registers[x_register] = ((x as u16 + 256 - y as u16) % 256) as u8;
            self.data_registers[15] = if x > y { 1 } else { 0 };
        } else if n == 6 {
            self.data_registers[x_register] = x / 2;
            self.data_registers[15] = x % 2;
        } else if n == 7 {
            self.data_registers[x_register] = ((y as u16 + 256 - x as u16) % 256) as u8;
            self.data_registers[15] = if y > x { 1 } else { 0 };
        } else if n == 0xE {
            self.data_registers[x_register] = ((x as u16 * 2) % 256) as u8;
            self.data_registers[15] = x / 128;
        } else {
            return Err(ExecError::UnknownOpcode { opcode, pc });
        }
        self.increment_pc();
        Ok(200)
    }

    /// `Dxyn`: XOR-draws the `n`-row sprite at `I` onto the display at (Vx, Vy); `VF` records
    /// whether a lit pixel was erased.
    fn execute_draw(&mut self, hi: u8, lo: u8) -> (r: Result<u32, ExecError>)
        requires
            old(self).program_counter < 4095,
            old(self)@.sized(),
            hi / 16 == 0xD,
        ensures
            outcome_matches(execute_op(old(self)@, hi, lo, 0), old(self)@, final(self)@, r),
    {
        let ghost s0 = self@;
        let pc = self.program_counter;
        let opcode: u16 = (hi as u16) * 256 + lo as u16;
        let x = self.data_registers[last_nibble(hi) as usize];
        let y = self.data_registers[first_nibble(lo) as usize];
        let n_bytes = last_nibble(lo) as usize;
        let memory_location = self.i_register as usize;
        if memory_location + n_bytes > 4096 {
            return Err(ExecError::AddressOutOfRange { opcode, pc });
        }
        let mut was_collision = false;
        let mut row: usize = 0;
        while row < n_bytes
            invariant
                0 <= row <= n_bytes,
                n_bytes < 16,
                memory_location == s0.i,
                memory_location + n_bytes <= 4096,
                self@ == (ChipState { display: self@.display, ..s0 }),
                self@.display.len() == 2048,
                s0.sized(),
                forall|c: int|
                    0 <= c < 2048 ==> #[trigger] self@.display[c] == (s0.display[c] != (drawn(
                        s0,
                        x,
                        y,
                        n_bytes as int,
                        c,
                    ) && offset_y(c, y) < row)),
                was_collision == exists|rr: int, b: int|
                    0 <= rr < row && 0 <= b < 8 && #[trigger] sprite_bit(s0.memory[s0.i + rr], b)
                        && s0.display[cell(x + b, y + rr)],
            decreases n_bytes - row,
        {
            let byte = self.memory[memory_location + row];
            let mut bit_position: usize = 0;
            while bit_position < 8
                invariant
                    0 <= row < n_bytes,
                    0 <= bit_position <= 8,
                    n_bytes < 16,
                    memory_location == s0.i,
                    memory_location + n_bytes <= 4096,
                    byte == s0.memory[s0.i + row],
                    self@ == (ChipState { display: self@.display, ..s0 }),
                    self@.display.len() == 2048,
                    s0.sized(),
                    forall|c: int|
                        0 <= c < 2048 ==> #[trigger] self@.display[c] == (s0.display[c] != (drawn(
                            s0,
                            x,
                            y,
                            n_bytes as int,
                            c,
                        ) && (offset_y(c, y) < row || (offset_y(c, y) == row && offset_x(c, x)
                            < bit_position)))),
                    was_collision == exists|rr: int, b: int|
                        0 <= rr < n_bytes && 0 <= b < 8 && (rr < row || (rr == row && b
                            < bit_position)) && #[trigger] sprite_bit(s0.memory[s0.i + rr], b)
                            && s0.display[cell(x + b, y + rr)],
                decreases 8 - bit_position,
            {
                let bit_is_set = ((byte >> (7 - bit_position as u8)) & 0x1) == 1;
                let ghost c0 = cell(x + bit_position, y + row);
                proof {
                    lemma_cell_offsets(x, y, bit_position as int, row as int);
                    assert forall|c: int| 0 <= c < 2048 && c != c0 implies !(offset_y(c, y) == row
                        && offset_x(c, x) == bit_position) by {
                        lemma_offsets_cell(x, y, c);
                    }
                }
                let ghost before = self@.display;
                let erased = Chip8::set_pixel(
                    &mut self.display_buffer,
                    x as usize + bit_position,
                    y as usize + row,
                    bit_is_set,
                );
                proof {
                    assert(cell((x + bit_position) as int, (y + row) as int) == c0);
                    assert(before[c0] == s0.display[c0]);
                    assert forall|c: int|
                        0 <= c < 2048 implies #[trigger] self@.display[c] == (s0.display[c] != (drawn(
                            s0,
                            x,
                            y,
                            n_bytes as int,
                            c,
                        ) && (offset_y(c, y) < row || (offset_y(c, y) == row && offset_x(c, x)
                            < bit_position + 1)))) by {
                        if c == c0 {
                        } else {
                            assert(before[c] == self@.display[c]);
                        }
                    }
                }
                proof {
                    assert(bit_is_set == sprite_bit(s0.memory[s0.i + row], bit_position as int));
                    if erased {
                        assert(sprite_bit(s0.memory[s0.i + row], bit_position as int)
                            && s0.display[cell(x + bit_position, y + row)]);
                    }
                }
                if erased {
                    was_collision = true;
                }
                bit_position = bit_position + 1;
            }
            row = row + 1;
        }
        proof {
            assert(self@.display =~= drawn_display(s0, x, y, n_bytes as int));
            assert(was_collision == sprite_collides(s0, x, y, n_bytes as int));
        }
        self.data_registers[15] = if was_collision { 1 } else { 0 };
        self.increment_pc();
        Ok(22734)
    }

    /// `Fx..`: timers, key wait, index arithmetic, font lookup, decimal digits and register
    /// block transfers.
    fn execute_misc(&mut self, hi: u8, lo: u8) -> (r: Result<u32, ExecError>)
        requires
            old(self).program_counter < 4095,
            old(self)@.sized(),
            hi / 16 == 0xF,
        ensures
            outcome_matches(execute_op(old(self)@, hi, lo, 0), old(self)@, final(self)@, r),
    {
        let ghost s0 = self@;
        let pc = self.program_counter;
        let opcode: u16 = (hi as u16) * 256 + lo as u16;
        let x_register = last_nibble(hi) as usize;
        let x = self.data_registers[x_register];
        if lo == 0x07 {
            // Fx07 - LD Vx, DT
            self.data_registers[x_register] = self.delay_timer;
            self.increment_pc();
            Ok(45)
        } else if lo == 0x0A {
            // Fx0A - LD Vx, K: waits, ending the frame, until a key is down
            let mut pressed_key: Option<u8> = None;
            let mut k: usize = 0;
            while k < 16
                invariant
                    0 <= k <= 16,
                    self@ == s0,
                    s0.sized(),
                    pressed_key == last_pressed(s0.keys, k as int),
                decreases 16 - k,
            {
                if self.keys[k] {
                    pressed_key = Some(k as u8);
                }
                k = k + 1;
            }
            if let Some(key) = pressed_key {
                self.data_registers[x_register] = key;
                self.increment_pc();
            }
            Ok(WAIT_FOR_KEY_MICROS)
        } else if lo == 0x15 {
            // Fx15 - LD DT, Vx
            self.delay_timer = x;
            self.increment_pc();
            Ok(45)
        } else if lo == 0x18 {
            // Fx18 - LD ST, Vx
            self.sound_timer = x;
            if x > 0 {
                self.should_play_sound = true;
            }
            self.increment_pc();
            Ok(45)
        } else if lo == 0x1E {
            // Fx1E - ADD I, Vx
            self.i_register = ((self.i_register as u32 + x as u32) % 65536) as u16;
            self.increment_pc();
            Ok(86)
        } else if lo == 0x29 {
            // Fx29 - LD F, Vx
            let offset: u16 = (FONT_SPRITE_LENGTH_IN_BYTES as u16) * (x as u16);
            self.i_register = FONT_START_LOCATION as u16 + offset;
            self.increment_pc();
            Ok(91)
        } else if lo == 0x33 {
            // Fx33 - LD B, Vx
            let start = self.i_register as usize;
            if start + 2 >= 4096 {
                return Err(ExecError::AddressOutOfRange { opcode, pc });
            }
            let ones = x % 10;
            let tens = (x / 10) % 10;
            let hundreds = x / 100;
            self.memory[start] = hundreds;
            self.memory[start + 1] = tens;
            self.memory[start + 2] = ones;
            self.increment_pc();
            Ok(927)
        } else if lo == 0x55 {
            // Fx55 - LD [I], Vx; VF is never stored
            let start = self.i_register as usize;
            let last: usize = if x_register < 14 { x_register } else { 14 };
            if start + last >= 4096 {
                return Err(ExecError::AddressOutOfRange { opcode, pc });
            }
            let mut reg: usize = 0;
            while reg <= last
                invariant
                    0 <= reg <= last + 1,
                    last <= 14,
                    start == s0.i,
                    start + last < 4096,
                    s0.sized(),
                    self@ == (ChipState { memory: self@.memory, ..s0 }),
                    self@.memory.len() == 4096,
                    forall|a: int|
                        0 <= a < 4096 ==> #[trigger] self@.memory[a] == if start <= a < start + reg {
                            s0.v[a - start]
                        } else {
                            s0.memory[a]
                        },
                decreases last + 1 - reg,
            {
                self.memory[start + reg] = self.data_registers[reg];
                reg = reg + 1;
            }
            assert(self@.memory =~= Seq::new(
                4096,
                |a: int| if s0.i <= a <= s0.i + last { s0.v[a - s0.i] } else { s0.memory[a] },
            ));
            self.increment_pc();
            Ok(605)
        } else if lo == 0x65 {
            // Fx65 - LD Vx, [I]
            let start = self.i_register as usize;
            if start + x_register >= 4096 {
                return Err(ExecError::AddressOutOfRange { opcode, pc });
            }
            let mut reg: usize = 0;
            while reg <= x_register
                invariant
                    0 <= reg <= x_register + 1,
                    x_register < 16,
                    start == s0.i,
                    start + x_register < 4096,
                    s0.sized(),
                    self@ == (ChipState { v: self@.v, ..s0 }),
                    self@.v.len() == 16,
                    forall|r: int|
                        0 <= r < 16 ==> #[trigger] self@.v[r] == if r < reg {
                            s0.memory[start + r]
                        } else {
                            s0.v[r]
                        },
                decreases x_register + 1 - reg,
            {
                self.data_registers[reg] = self.memory[start + reg];
                reg = reg + 1;
            }
            assert(self@.v =~= Seq::new(
                16,
                |r: int| if r <= x_register { s0.memory[s0.i + r] } else { s0.v[r] },
            ));
            self.increment_pc();
            Ok(605)
        } else {
            Err(ExecError::UnknownOpcode { opcode, pc })
        }
    }

    /// Runs the instruction at the program counter, drawing the byte for `Cxkk` at random.
    /// What holds is what `execute` states for some drawn byte.
    pub fn process_next_instruction(&mut self, keys: [bool; 16]) -> (r: Result<u32, ExecError>)
        ensures
            exists|rnd: u8|
                outcome_matches(
                    #[trigger] step(old(self)@, keys@, rnd),
                    ChipState { keys: keys@, ..old(self)@ },
                    final(self)@,
                    r,
                ),
    {
        let rnd = random_byte();
        self.execute(keys, rnd)
    }

    /// Advances one video frame: ticks the timers, then runs instructions until their pacing
    /// costs reach `processing_time_target` microseconds or a key wait ends the frame.
    /// A fault stops the frame and is returned; the machine stays as the fault found it.
    pub fn process_a_frame(&mut self, keys: [bool; 16], processing_time_target: u32) -> (r: Result<
        (),
        ExecError,
    >)
        ensures
            exists|rnds: Seq<u8>|
                frame(old(self)@, keys@, processing_time_target as int, rnds) == Some(
                    (final(self)@, r),
                ),
    {
        if self.delay_timer != 0 {
            self.delay_timer = self.delay_timer - 1;
        }
        if self.sound_timer != 0 {
            self.should_play_sound = true;
            self.sound_timer = self.sound_timer - 1;
        } else {
            self.should_play_sound = false;
        }
        let ghost start = self@;
        assert(start == tick(old(self)@));
        let ghost mut used: Seq<u8> = Seq::empty();
        let target = processing_time_target as u64;
        let mut elapsed_time: u64 = 0;
        while elapsed_time < target
            invariant
                target == processing_time_target,
                start == tick(old(self)@),
                forall|tail: Seq<u8>|
                    #[trigger] run_steps(start, keys@, target as int, used + tail) == run_steps(
                        self@,
                        keys@,
                        target - elapsed_time,
                        tail,
                    ),
            decreases if elapsed_time < target { target - elapsed_time } else { 0 },
        {
            let ghost pre = self@;
            let result = self.process_next_instruction(keys);
            let ghost rnd = choose|rnd: u8|
                outcome_matches(
                    #[trigger] step(pre, keys@, rnd),
                    ChipState { keys: keys@, ..pre },
                    self@,
                    result,
                );
            assert(outcome_matches(
                step(pre, keys@, rnd),
                ChipState { keys: keys@, ..pre },
                self@,
                result,
            ));
            proof {
                lemma_step_time_positive(pre, keys@, rnd);
                let one = seq![rnd];
                assert(used + (one + Seq::<u8>::empty()) =~= used.push(rnd));
                assert((one + Seq::<u8>::empty()).drop_first() =~= Seq::<u8>::empty());
                assert(run_steps(start, keys@, target as int, used + (one + Seq::<u8>::empty()))
                    == run_steps(pre, keys@, target - elapsed_time, one + Seq::<u8>::empty()));
                assert forall|tail: Seq<u8>|
                    #[trigger] run_steps(start, keys@, target as int, used.push(rnd) + tail)
                        == run_steps(pre, keys@, target - elapsed_time, one + tail) by {
                    assert(used.push(rnd) + tail =~= used + (one + tail));
                }
                assert forall|tail: Seq<u8>| (#[trigger] (one + tail)).drop_first() =~= tail by {}
            }
            match result {
                Err(e) => {
                    proof {
                        assert(run_steps(start, keys@, target as int, used.push(rnd) + Seq::<
                            u8,
                        >::empty()) == Some((self@, Err::<(), ExecError>(e))));
                        assert(used.push(rnd) + Seq::<u8>::empty() =~= used.push(rnd));
                        assert(frame(old(self)@, keys@, processing_time_target as int, used.push(rnd))
                            == Some((self@, Err::<(), ExecError>(e))));
                    }
                    return Err(e);
                },
                Ok(processing_time) => {
                    if processing_time == WAIT_FOR_KEY_MICROS {
                        proof {
                            assert(run_steps(start, keys@, target as int, used.push(rnd) + Seq::<
                                u8,
                            >::empty()) == Some((self@, Ok::<(), ExecError>(()))));
                            assert(used.push(rnd) + Seq::<u8>::empty() =~= used.push(rnd));
                            assert(frame(old(self)@, keys@, processing_time_target as int, used.push(rnd))
                                == Some((self@, Ok::<(), ExecError>(()))));
                        }
                        return Ok(());
                    }
                    proof {
                        assert forall|tail: Seq<u8>|
                            #[trigger] run_steps(start, keys@, target as int, used.push(rnd) + tail)
                                == run_steps(
                                self@,
                                keys@,
                                target - (elapsed_time + processing_time),
                                tail,
                            ) by {
                            assert((seq![rnd] + tail).drop_first() =~= tail);
                            assert((seq![rnd] + tail)[0] == rnd);
                        }
                        used = used.push(rnd);
                    }
                    assert(processing_time > 0) by {
                        assert(step(pre, keys@, rnd) is Ok);
                        assert(step(pre, keys@, rnd)->Ok_0.1 == processing_time);
                    }
                    elapsed_time = elapsed_time + processing_time as u64;
                },
            }
        }
        proof {
            assert(used + Seq::<u8>::empty() =~= used);
            assert(frame(old(self)@, keys@, processing_time_target as int, used)
                == Some((self@, Ok::<(), ExecError>(()))));
        }
        Ok(())
    }

    /// Whether the square-wave gate is open: the sound timer was running at the last tick.
    pub fn should_play_sound(&self) -> (r: bool)
        ensures
            r == self@.sound_gate,
    {
        self.should_play_sound
    }

    /// The display, row-major, for the host to blit.
    pub fn display_buffer(&self) -> (r: &[bool; 2048])
        ensures
            r@ == self@.display,
    {
        &self.display_buffer
    }

    /// XORs `value` into pixel (x, y), wrapping both coordinates.
    /// Returns whether a lit pixel was erased.
    pub fn set_pixel(display_buffer: &mut [bool], x: usize, y: usize, value: bool) -> (erased: bool)
        requires
            old(display_buffer)@.len() == 2048,
        ensures
            final(display_buffer)@ == old(display_buffer)@.update(
                cell(x as int, y as int),
                old(display_buffer)@[cell(x as int, y as int)] != value,
            ),
            erased == (old(display_buffer)@[cell(x as int, y as int)] && value),
    {
        assert((x as u8) % 64 == x % 64) by (bit_vector);
        assert((y as u8) % 32 == y % 32) by (bit_vector);
        let idx = idx_for_display(x as u8, y as u8);
        let previous_pixel = display_buffer[idx];
        display_buffer[idx] = previous_pixel ^ value;
        previous_pixel && value
    }
}

/// A sprite pixel at offset (b, row) from (vx, vy) lands on a cell whose offsets are (b, row).
proof fn lemma_cell_offsets(vx: u8, vy: u8, b: int, row: int)
    requires
        0 <= b < 8,
        0 <= row < 32,
    ensures
        0 <= cell(vx + b, vy + row) < 2048,
        offset_x(cell(vx + b, vy + row), vx) == b,
        offset_y(cell(vx + b, vy + row), vy) == row,
{
    let c = cell(vx + b, vy + row);
    let cx = (vx + b) % 64;
    let cy = (vy + row) % 32;
    assert(0 <= cx < 64 && 0 <= cy < 32);
    assert(c == cx + cy * 64);
    assert(c % 64 == cx && c / 64 == cy) by (nonlinear_arith)
        requires
            c == cx + cy * 64,
            0 <= cx < 64,
            0 <= cy < 32,
    ;
    assert((cx - vx as int % 64 + 64) % 64 == b) by (nonlinear_arith)
        requires
            cx == (vx + b) % 64,
            0 <= b < 8,
            0 <= vx < 256,
    ;
    assert((cy - vy as int % 32 + 32) % 32 == row) by (nonlinear_arith)
        requires
            cy == (vy + row) % 32,
            0 <= row < 32,
            0 <= vy < 256,
    ;
}

/// Every cell is the one at its own offsets from (vx, vy).
proof fn lemma_offsets_cell(vx: u8, vy: u8, c: int)
    requires
        0 <= c < 2048,
    ensures
        c == cell(vx + offset_x(c, vx), vy + offset_y(c, vy)),
{
    let dx = offset_x(c, vx);
    let dy = offset_y(c, vy);
    assert((vx + dx) % 64 == c % 64) by (nonlinear_arith)
        requires
            dx == (c % 64 - vx as int % 64 + 64) % 64,
            0 <= c,
            0 <= vx < 256,
    ;
    assert((vy + dy) % 32 == c / 64) by (nonlinear_arith)
        requires
            dy == (c / 64 - vy as int % 32 + 32) % 32,
            0 <= c < 2048,
            0 <= vy < 256,
    ;
    assert(c == c % 64 + (c / 64) * 64) by (nonlinear_arith)
        requires
            0 <= c,
    ;
}

/// The index of pixel (x, y) in the row-major display, wrapping both coordinates.
pub fn idx_for_display(x: u8, y: u8) -> (idx: usize)
    ensures
        idx == cell(x as int, y as int),
        idx < 2048,
{
    (x as usize % CHIP_DISPLAY_WIDTH_IN_PIXELS) + ((y as usize % CHIP_DISPLAY_HEIGHT_IN_PIXELS)
        * CHIP_DISPLAY_WIDTH_IN_PIXELS)
}

} // verus!
