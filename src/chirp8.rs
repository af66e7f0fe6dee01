use vstd::prelude::*;

use rand::rngs::SmallRng;

use crate::display::{
    cells, clear_cells, clear_plane_bits, display_ok, display_solid, draw_plane, drawn_cells, flagged_rows, line_hit, same_geometry,
    on_screen, pixel_ok, scroll_cells, scrolled_cell, DisplayBuffer, SpritePlane, DISPLAY_HEIGHT,
    DISPLAY_WIDTH,
};
use crate::quirks::QuirkFlags;
use crate::rng::{next_random, seeded_rng};
use crate::stack::Stack;
use vstd::arithmetic::div_mod::{lemma_add_mod_noop, lemma_mod_self_0, lemma_small_mod};

verus! {

/// Number of elements storable in the emulator's stack.
pub const STACK_SIZE: usize = 16;
/// The whole memory is RAM, with 12-bit addresses.
pub const RAM_SIZE: usize = 0x1000;
/// Every program starts at this address.
pub const PROGRAM_START: usize = 0x200;
/// The maximum size a program can use.
pub const PROGRAM_SIZE: usize = RAM_SIZE - PROGRAM_START;
/// Number of general registers.
pub const REGISTERS_COUNT: usize = 16;
/// The index of the register used as a flag.
pub const FLAG_REGISTER_INDEX: usize = 0xF;
/// Number of keys of the key-pad.
pub const KEYS_COUNT: u8 = 16;
/// The location in memory of the font sprite '0'.
pub const FONT_SPRITES_ADDRESS: usize = 0;
/// The font sprites, from '0' to 'F'. Same as the Cosmac VIP font.
pub const FONT_SPRITES: [u8; 80] = [
    0xF0, 0x90, 0x90, 0x90, 0xF0, // 0
    0x20, 0x60, 0x20, 0x20, 0x70, // 1
    0xF0, 0x10, 0xF0, 0x80, 0xF0, // 2
    0xF0, 0x10, 0xF0, 0x10, 0xF0, // 3
    0x90, 0x90, 0xF0, 0x10, 0x10, // 4
    0xF0, 0x80, 0xF0, 0x10, 0xF0, // 5
    0xF0, 0x80, 0xF0, 0x90, 0xF0, // 6
    0xF0, 0x10, 0x20, 0x40, 0x40, // 7
    0xF0, 0x90, 0xF0, 0x90, 0xF0, // 8
    0xF0, 0x90, 0xF0, 0x10, 0xF0, // 9
    0xF0, 0x90, 0xF0, 0x90, 0x90, // A
    0xE0, 0x90, 0xE0, 0x90, 0xE0, // B
    0xF0, 0x80, 0x80, 0x80, 0xF0, // C
    0xE0, 0x90, 0x90, 0x90, 0xE0, // D
    0xF0, 0x80, 0xF0, 0x80, 0xF0, // E
    0xF0, 0x80, 0xF0, 0x80, 0x80, // F
];
/// The location in memory of the high-resolution font sprite '0'.
pub const FONT_SPRITES_HIGH_ADDRESS: usize = 80;
/// The high-resolution 8x10 font sprites, from '0' to 'F'.
pub const FONT_SPRITES_HIGH: [u8; 160] = [
    0x3C, 0x7E, 0xE7, 0xC3, 0xC3, 0xC3, 0xC3, 0xE7, 0x7E, 0x3C, // 0
    0x18, 0x38, 0x58, 0x18, 0x18, 0x18, 0x18, 0x18, 0x18, 0x3C, // 1
    0x3E, 0x7F, 0xC3, 0x06, 0x0C, 0x18, 0x30, 0x60, 0xFF, 0xFF, // 2
    0x3C, 0x7E, 0xC3, 0x03, 0x0E, 0x0E, 0x03, 0xC3, 0x7E, 0x3C, // 3
    0x06, 0x0E, 0x1E, 0x36, 0x66, 0xC6, 0xFF, 0xFF, 0x06, 0x06, // 4
    0xFF, 0xFF, 0xC0, 0xC0, 0xFC, 0xFE, 0x03, 0xC3, 0x7E, 0x3C, // 5
    0x3E, 0x7C, 0xC0, 0xC0, 0xFC, 0xFE, 0xC3, 0xC3, 0x7E, 0x3C, // 6
    0xFF, 0xFF, 0x03, 0x06, 0x0C, 0x18, 0x30, 0x60, 0x60, 0x60, // 7
    0x3C, 0x7E, 0xC3, 0xC3, 0x7E, 0x7E, 0xC3, 0xC3, 0x7E, 0x3C, // 8
    0x3C, 0x7E, 0xC3, 0xC3, 0x7F, 0x3F, 0x03, 0x03, 0x3E, 0x7C, // 9
    0x7E, 0xFF, 0xC3, 0xC3, 0xC3, 0xFF, 0xFF, 0xC3, 0xC3, 0xC3, // A
    0xFC, 0xFC, 0xC3, 0xC3, 0xFC, 0xFC, 0xC3, 0xC3, 0xFC, 0xFC, // B
    0x3C, 0xFF, 0xC3, 0xC0, 0xC0, 0xC0, 0xC0, 0xC3, 0xFF, 0x3C, // C
    0xFC, 0xFE, 0xC3, 0xC3, 0xC3, 0xC3, 0xC3, 0xC3, 0xFE, 0xFC, // D
    0xFF, 0xFF, 0xC0, 0xC0, 0xFF, 0xFF, 0xC0, 0xC0, 0xFF, 0xFF, // E
    0xFF, 0xFF, 0xC0, 0xC0, 0xFF, 0xFF, 0xC0, 0xC0, 0xC0, 0xC0, // F
];
/// Refresh rate, number of frames per second; also the rate of the timers.
pub const REFRESH_RATE_HZ: usize = 60;
/// Number of RPL flags registers. 8 on the HP48, 16 on XO-Chip.
pub const RPL_REGISTERS_COUNT: usize = 16;
/// Number of memory bytes read by the CPU at each cycle.
pub const PROGRAM_COUNTER_STEP: u16 = 2;
/// The value of a pixel not set, when not in XO-Chip.
pub const PIXEL_OFF: u8 = 0x00;
/// The value of a pixel set, when not in XO-Chip.
pub const PIXEL_ON: u8 = 0xFF;
/// The value to add to a pixel to get the next value, on XO-Chip: 0, 85, 170, 255.
pub const PIXEL_STEP: u8 = 0x55;
/// Number of bytes of the audio pattern buffer on XO-Chip.
pub const AUDIO_BUFFER_SIZE: usize = 16;
/// Seed of the random number generator.
pub const RANDOM_SEED: u64 = 0xDEADCAFEDEADCAFE;

/// The mode in which the emulator runs, affects the display size and the
/// way some instruction are handled.
#[derive(Debug, Clone, Copy, PartialEq, Eq, Structural, PartialOrd)]
pub enum Chirp8Mode {
    /// Cosmac VIP Chip-8 from 1977, uses a 64x32 display.
    CosmacChip8,
    /// HP48 Super-Chip 1.1 extension from 1991, uses 128x64 display.
    SuperChip1_1,
    /// Modernized Super-Chip 1.1, without the "display wait" and "half scroll" quirks.
    SuperChipModern,
    /// Octo XO-Chip extension from 2014. Uses 4-color 128x64 display.
    XOChip,
}

/// Whether `mode` is Super-Chip 1.1 or a later dialect.
pub open spec fn is_super(mode: Chirp8Mode) -> bool {
    mode != Chirp8Mode::CosmacChip8
}

fn super_mode(mode: Chirp8Mode) -> (r: bool)
    ensures
        r == is_super(mode),
{
    match mode {
        Chirp8Mode::CosmacChip8 => false,
        _ => true,
    }
}

/// Whether bit `i` of `v` is set.
pub open spec fn bit_set(v: u8, i: u8) -> bool {
    (v >> i) & 1u8 == 1u8
}

/// Repeats the `count` least-significant bits of `value` on following bits:
/// bit `i` of the result is bit `i % count` of `value`.
pub fn repeat_bits(value: u8, count: usize) -> (r: u8)
    requires
        count == 1 || count == 2 || count == 4,
    ensures
        forall|i: u8| i < 8 ==> #[trigger] bit_set(r, i) == bit_set(value, (i % count as u8) as u8),
{
    let lanes: u16 = count as u16;
    let shifted: u16 = 1u16 << lanes;
    proof {
        assert(lanes == 1 ==> shifted == 2) by (bit_vector)
            requires
                shifted == 1u16 << lanes,
        ;
        assert(lanes == 2 ==> shifted == 4) by (bit_vector)
            requires
                shifted == 1u16 << lanes,
        ;
        assert(lanes == 4 ==> shifted == 16) by (bit_vector)
            requires
                shifted == 1u16 << lanes,
        ;
    }
    let lanes_mask: u8 = (shifted - 1) as u8;
    let step: u8 = 255u8 / lanes_mask;
    let r = (value & lanes_mask).wrapping_mul(step);
    if count == 1 {
        assert(value & 1u8 <= 1u8) by (bit_vector);
        assert(lanes_mask == 1);
        assert(step == 255u8 / 1u8);
        assert(step == 255);
        assert(r == ((value & 1u8) * 255u8) as u8);
        assert forall|i: u8| i < 8 implies #[trigger] bit_set(r, i) == bit_set(value, (i % 1) as u8) by {
            assert(((r >> i) & 1u8 == 1u8) == ((value >> (i % 1u8)) & 1u8 == 1u8)) by (bit_vector)
                requires
                    r == ((value & 1u8) * 255u8) as u8,
                    i < 8,
            ;
        }
    } else if count == 2 {
        assert(value & 3u8 <= 3u8) by (bit_vector);
        assert(lanes_mask == 3);
        assert(step == 255u8 / 3u8);
        assert(step == 85);
        assert(r == ((value & 3u8) * 85u8) as u8);
        assert forall|i: u8| i < 8 implies #[trigger] bit_set(r, i) == bit_set(value, (i % 2) as u8) by {
            assert(((r >> i) & 1u8 == 1u8) == ((value >> (i % 2u8)) & 1u8 == 1u8)) by (bit_vector)
                requires
                    r == ((value & 3u8) * 85u8) as u8,
                    i < 8,
            ;
        }
    } else {
        assert(value & 15u8 <= 15u8) by (bit_vector);
        assert(lanes_mask == 15);
        assert(step == 255u8 / 15u8);
        assert(step == 17);
        assert(r == ((value & 15u8) * 17u8) as u8);
        assert forall|i: u8| i < 8 implies #[trigger] bit_set(r, i) == bit_set(value, (i % 4) as u8) by {
            assert(((r >> i) & 1u8 == 1u8) == ((value >> (i % 4u8)) & 1u8 == 1u8)) by (bit_vector)
                requires
                    r == ((value & 15u8) * 17u8) as u8,
                    i < 8,
            ;
        }
    }
    r
}


/// Bits equal bit by bit are equal bytes.
proof fn lemma_bits_eq(a: u8, b: u8)
    requires
        forall|i: u8| i < 8 ==> #[trigger] bit_set(a, i) == bit_set(b, i),
    ensures
        a == b,
{
    assert(bit_set(a, 0) == bit_set(b, 0));
    assert(bit_set(a, 1) == bit_set(b, 1));
    assert(bit_set(a, 2) == bit_set(b, 2));
    assert(bit_set(a, 3) == bit_set(b, 3));
    assert(bit_set(a, 4) == bit_set(b, 4));
    assert(bit_set(a, 5) == bit_set(b, 5));
    assert(bit_set(a, 6) == bit_set(b, 6));
    assert(bit_set(a, 7) == bit_set(b, 7));
    assert(a == b) by (bit_vector)
        requires
            ((a >> 0u8) & 1u8 == 1u8) == ((b >> 0u8) & 1u8 == 1u8),
            ((a >> 1u8) & 1u8 == 1u8) == ((b >> 1u8) & 1u8 == 1u8),
            ((a >> 2u8) & 1u8 == 1u8) == ((b >> 2u8) & 1u8 == 1u8),
            ((a >> 3u8) & 1u8 == 1u8) == ((b >> 3u8) & 1u8 == 1u8),
            ((a >> 4u8) & 1u8 == 1u8) == ((b >> 4u8) & 1u8 == 1u8),
            ((a >> 5u8) & 1u8 == 1u8) == ((b >> 5u8) & 1u8 == 1u8),
            ((a >> 6u8) & 1u8 == 1u8) == ((b >> 6u8) & 1u8 == 1u8),
            ((a >> 7u8) & 1u8 == 1u8) == ((b >> 7u8) & 1u8 == 1u8),
    ;
}

/// The plane selector for the low two bits of `x`: each bit pattern repeated
/// in 2-bit lanes.
pub open spec fn plane_selector(x: int) -> u8 {
    if x % 4 == 0 {
        0x00
    } else if x % 4 == 1 {
        0x55
    } else if x % 4 == 2 {
        0xAA
    } else {
        0xFF
    }
}

/// `repeat_bits(x, 2)` is the plane selector of `x`.
fn plane_selector_of(x: u8) -> (r: u8)
    ensures
        r == plane_selector(x as int),
        pixel_ok(r),
{
    let r = repeat_bits(x, 2);
    let ghost want = plane_selector(x as int);
    proof {
        assert forall|i: u8| i < 8 implies #[trigger] bit_set(r, i) == bit_set(want, i) by {
            assert(bit_set(r, i) == bit_set(x, (i % 2) as u8));
            assert(((x >> (i % 2u8)) & 1u8 == 1u8) == ((((x & 3u8) * 85u8) as u8 >> i) & 1u8 == 1u8)) by (bit_vector)
                requires
                    i < 8,
            ;
            assert((x & 3u8) == x % 4) by (bit_vector);
        }
        lemma_bits_eq(r, want);
    }
    r
}

/// Chip-8 emulator. The fields are public; `wf` states what the methods
/// need of them, and every method keeps it.
pub struct Chirp8 {
    /// Memory of the interpreter.
    pub ram: [u8; RAM_SIZE],
    /// Display buffer: one bit per plane in each cell.
    pub display_buffer: DisplayBuffer,
    /// V0 to VF.
    pub registers: [u8; REGISTERS_COUNT],
    /// Program counter.
    pub pc: u16,
    /// Index register, "I".
    pub index: u16,
    /// Stack used for calling subroutines.
    pub stack: Stack<u16, STACK_SIZE>,
    /// Sound timer, sound is on when non zero.
    pub sound_timer: u8,
    /// Delay timer used by programs to keep count of time.
    pub delay_timer: u8,
    /// Persistent RPL flags registers.
    pub rpl_registers: [u8; RPL_REGISTERS_COUNT],
    /// The audio pattern buffer of XO-Chip.
    pub audio_buffer: [u8; AUDIO_BUFFER_SIZE],
    /// The pitch: each bit of the audio buffer is played at a rate of 4000*2^((pitch-64)/48).
    pub pitch: u8,
    /// Each key is true while pressed.
    pub keys: [bool; 16],
    /// The keys at the end of the last step, to see which were just released.
    pub keys_previous: [bool; 16],
    /// On Super Chip 8 and above, true when high-resolution is enabled.
    pub high_resolution: bool,
    /// Bit-mask of the selected planes, the plane pattern repeated across the byte.
    pub plane_selection: u8,
    /// The current running mode of the emulator.
    pub mode: Chirp8Mode,
    /// The enabled quirks of the emulator.
    pub quirks: QuirkFlags,
    /// Number of steps taken since the last timer decrement.
    pub steps_since_frame: usize,
    /// Whether the display changed since it was last asked.
    pub display_changed: bool,
    /// Random numbers generator.
    pub randomizer: SmallRng,
    /// Number of steps taken; idle steps are not counted.
    pub steps: usize,
    /// Number of steps between two consecutive frames, and between two timer decrements.
    pub steps_per_frame: usize,
    /// Set by a stack overflow or underflow: the machine executes no more instructions.
    pub halted: bool,
}

/// Opcode: the high nibble of the instruction.
pub open spec fn op(i: int) -> int {
    i / 4096
}

/// Second nibble: the register `VX`.
pub open spec fn nx(i: int) -> int {
    (i / 256) % 16
}

/// Third nibble: the register `VY`.
pub open spec fn ny(i: int) -> int {
    (i / 16) % 16
}

/// Fourth nibble.
pub open spec fn nibble(i: int) -> int {
    i % 16
}

/// Low byte.
pub open spec fn nn(i: int) -> int {
    i % 256
}

/// Low 12 bits: an address.
pub open spec fn nnn(i: int) -> int {
    i % 4096
}

/// The big-endian 16-bit word at `address`, addresses wrapping around memory.
pub open spec fn word_at(ram: [u8; RAM_SIZE], address: int) -> int {
    ram[address % 4096] as int * 256 + ram[(address + 1) % 4096] as int
}

/// The lowest key from `k` on that went from pressed at the last step to
/// released now, or 16 if none.
pub open spec fn first_released(keys: [bool; 16], keys_previous: [bool; 16], k: int) -> int
    decreases 16 - k,
{
    if k >= 16 {
        16
    } else if keys_previous[k] && !keys[k] {
        k
    } else {
        first_released(keys, keys_previous, k + 1)
    }
}

/// `|a - b|`.
pub open spec fn distance(a: int, b: int) -> int {
    if a <= b { b - a } else { a - b }
}

/// Number of RPL registers that FX75 and FX85 move.
pub open spec fn rpl_count(mode: Chirp8Mode, x: int) -> int {
    if mode == Chirp8Mode::XOChip { x + 1 } else { x % 8 + 1 }
}

impl Chirp8 {
    /// The machine's invariant.
    pub open spec fn wf(&self) -> bool {
        &&& self.pc < RAM_SIZE
        &&& self.index < RAM_SIZE
        &&& self.stack.wf()
        &&& forall|k: int| 0 <= k < self.stack@.len() ==> #[trigger] self.stack@[k] < RAM_SIZE
        &&& self.steps_since_frame == 0 || self.steps_since_frame < self.steps_per_frame
        &&& display_ok(self.display_buffer)
        &&& !self.several_planes() ==> display_solid(self.display_buffer)
        &&& pixel_ok(self.plane_selection)
    }

    /// Value of register `k`.
    pub open spec fn v(&self, k: int) -> int {
        self.registers[k] as int
    }

    /// Address following the current instruction.
    pub open spec fn pc_next(&self) -> int {
        (self.pc + 2) % 4096
    }

    /// The instruction at the program counter.
    pub open spec fn instruction(&self) -> int {
        word_at(self.ram, self.pc as int)
    }

    /// The lowest key that was just released, or 16 if none.
    pub open spec fn released_key(&self) -> int {
        first_released(self.keys, self.keys_previous, 0)
    }

    /// Whether skip instruction `i` skips.
    pub open spec fn skips(&self, i: int) -> bool {
        let vx = self.v(nx(i));
        if op(i) == 3 {
            vx == nn(i)
        } else if op(i) == 4 {
            vx != nn(i)
        } else if op(i) == 5 && nibble(i) == 0 {
            vx == self.v(ny(i))
        } else if op(i) == 9 {
            vx != self.v(ny(i))
        } else if op(i) == 0xE && nn(i) == 0x9E {
            self.keys[vx % 16]
        } else if op(i) == 0xE && nn(i) == 0xA1 {
            !self.keys[vx % 16]
        } else {
            false
        }
    }

    /// Where a skip lands: over four bytes when skipping an XO-Chip `F000 NNNN`.
    pub open spec fn skip_target(&self) -> int {
        let step = if self.mode == Chirp8Mode::XOChip && word_at(self.ram, self.pc_next()) == 0xF000 {
            4int
        } else {
            2int
        };
        (self.pc_next() + step) % 4096
    }

    /// Whether the display-wait quirk stalls draw instruction `i` until the frame boundary.
    pub open spec fn display_waits(&self, i: int) -> bool {
        &&& op(i) == 0xD
        &&& self.quirks.has(
            if self.high_resolution { QuirkFlags::DISPLAY_WAIT_HIRES } else { QuirkFlags::DISPLAY_WAIT_LORES },
        )
        &&& self.steps_since_frame != 0
    }

    /// Whether `FX0A` waits: no key was just released.
    pub open spec fn key_waits(&self, i: int) -> bool {
        op(i) == 0xF && nn(i) == 0x0A && self.released_key() == 16
    }

    /// Whether instruction `i` leaves the machine idle: rewound and not counted.
    pub open spec fn idles(&self, i: int) -> bool {
        self.display_waits(i) || self.key_waits(i)
    }

    /// Whether instruction `i` overflows or underflows the stack.
    pub open spec fn stack_faults(&self, i: int) -> bool {
        (op(i) == 0 && nn(i) == 0xEE && self.stack@.len() == 0) || (op(i) == 2 && self.stack@.len()
            >= STACK_SIZE)
    }

    /// Whether `00FD` resets the machine.
    pub open spec fn exits(&self, i: int) -> bool {
        op(i) == 0 && nn(i) == 0xFD && is_super(self.mode)
    }

    /// Whether `F000 NNNN` loads a 16-bit address.
    pub open spec fn loads_long_index(&self, i: int) -> bool {
        op(i) == 0xF && nn(i) == 0 && self.mode == Chirp8Mode::XOChip && nx(i) == 0
    }

    /// Program counter after instruction `i`.
    pub open spec fn next_pc(&self, i: int) -> int {
        if self.stack_faults(i) || self.idles(i) {
            self.pc as int
        } else if op(i) == 0 && nn(i) == 0xEE {
            self.stack@.last() as int
        } else if self.exits(i) {
            PROGRAM_START as int
        } else if op(i) == 1 || op(i) == 2 {
            nnn(i)
        } else if op(i) == 0xB {
            let offset = if self.quirks.has(QuirkFlags::JUMP_XNN) { self.v(nx(i)) } else { self.v(0) };
            (nnn(i) + offset) % 4096
        } else if self.skips(i) {
            self.skip_target()
        } else if self.loads_long_index(i) {
            (self.pc_next() + 2) % 4096
        } else {
            self.pc_next()
        }
    }

    /// Index register after instruction `i`.
    pub open spec fn next_index(&self, i: int) -> int {
        let x = nx(i);
        if op(i) == 0xA {
            nnn(i)
        } else if self.loads_long_index(i) {
            word_at(self.ram, self.pc_next()) % 4096
        } else if op(i) == 0xF && nn(i) == 0x1E {
            (self.index + self.v(x)) % 4096
        } else if op(i) == 0xF && nn(i) == 0x29 {
            5 * self.v(x)
        } else if op(i) == 0xF && nn(i) == 0x30 && is_super(self.mode) {
            80 + 10 * self.v(x)
        } else if op(i) == 0xF && (nn(i) == 0x55 || nn(i) == 0x65) && self.quirks.has(QuirkFlags::INC_INDEX) {
            (self.index + x + 1) % 4096
        } else {
            self.index as int
        }
    }

    /// Memory after instruction `i`.
    pub open spec fn next_ram(&self, i: int) -> Seq<u8> {
        let x = nx(i);
        let y = ny(i);
        let base = self.index as int;
        if op(i) == 5 && nibble(i) == 2 && self.mode == Chirp8Mode::XOChip {
            Seq::new(
                RAM_SIZE as nat,
                |a: int|
                    {
                        let j = (a - base) % 4096;
                        if j <= distance(x, y) {
                            self.registers[if x <= y { x + j } else { x - j }]
                        } else {
                            self.ram[a]
                        }
                    },
            )
        } else if op(i) == 0xF && nn(i) == 0x33 {
            let value = self.v(x);
            Seq::new(
                RAM_SIZE as nat,
                |a: int|
                    {
                        let j = (a - base) % 4096;
                        if j == 0 {
                            (value / 100) as u8
                        } else if j == 1 {
                            ((value % 100) / 10) as u8
                        } else if j == 2 {
                            (value % 10) as u8
                        } else {
                            self.ram[a]
                        }
                    },
            )
        } else if op(i) == 0xF && nn(i) == 0x55 {
            Seq::new(
                RAM_SIZE as nat,
                |a: int|
                    {
                        let j = (a - base) % 4096;
                        if j <= x { self.registers[j] } else { self.ram[a] }
                    },
            )
        } else {
            self.ram@
        }
    }

    /// Whether instruction `i` draws.
    pub open spec fn draws(&self, i: int) -> bool {
        op(i) == 0xD && !self.display_waits(i)
    }

    /// Whether a draw of height `n` draws a 16x16 sprite.
    pub open spec fn large_sprite(&self, n: int) -> bool {
        if self.mode != Chirp8Mode::XOChip {
            self.mode != Chirp8Mode::CosmacChip8 && self.high_resolution && n == 0
        } else {
            n == 0
        }
    }

    /// Whether several planes are drawn.
    pub open spec fn several_planes(&self) -> bool {
        self.quirks.has(QuirkFlags::USE_SEVERAL_PLANES)
    }

    /// Cell bits of plane `plane`.
    pub open spec fn plane_bits(&self, plane: int) -> u8 {
        if !self.several_planes() {
            0xFF
        } else if plane == 0 {
            0x55
        } else {
            0xAA
        }
    }

    /// Whether sprites wrap around the screen edges in the current resolution.
    pub open spec fn wrapping(&self) -> bool {
        !self.quirks.has(
            if self.high_resolution { QuirkFlags::CLIP_SPRITES_HIRES } else { QuirkFlags::CLIP_SPRITES_LORES },
        )
    }

    /// Whether the collision flag counts rows.
    pub open spec fn counting(&self) -> bool {
        self.quirks.has(QuirkFlags::COLLISION_COUNT_HIRES)
    }

    /// Plane `plane` of the sprite drawn at `(vx, vy)` with height `n`, the
    /// `drawn`-th plane drawn.
    pub open spec fn sprite_plane(&self, vx: int, vy: int, n: int, plane: int, drawn: int) -> SpritePlane {
        if self.large_sprite(n) {
            SpritePlane {
                x0: (if self.high_resolution { vx % 128 } else { vx % 64 }) as usize,
                y0: (if self.high_resolution { vy % 64 } else { vy % 32 }) as usize,
                scale: if self.high_resolution { 1 } else { 2 },
                width: 16,
                height: 16,
                base: ((self.index + 32 * drawn) % 4096) as usize,
                mask: self.plane_bits(plane),
                wrapping: self.wrapping(),
            }
        } else {
            SpritePlane {
                x0: (if self.high_resolution { vx % 128 } else { vx % 64 }) as usize,
                y0: (if self.high_resolution { vy % 64 } else { vy % 32 }) as usize,
                scale: if self.high_resolution { 1 } else { 2 },
                width: 8,
                height: n as usize,
                base: ((self.index + n * drawn) % 4096) as usize,
                mask: self.plane_bits(plane),
                wrapping: self.wrapping(),
            }
        }
    }

    /// The planes drawn for a sprite at `(vx, vy)` with height `n`, in order.
    pub open spec fn sprite_planes(&self, vx: int, vy: int, n: int) -> Seq<SpritePlane> {
        if !self.several_planes() {
            if self.plane_selection != 0 {
                seq![self.sprite_plane(vx, vy, n, 0, 0)]
            } else {
                Seq::empty()
            }
        } else {
            let first = self.plane_selection & 0x55 != 0;
            let second = self.plane_selection & 0xAA != 0;
            let s0: Seq<SpritePlane> = if first { seq![self.sprite_plane(vx, vy, n, 0, 0)] } else { Seq::empty() };
            let s1: Seq<SpritePlane> = if second {
                seq![self.sprite_plane(vx, vy, n, 1, if first { 1 } else { 0 })]
            } else {
                Seq::empty()
            };
            s0 + s1
        }
    }

    /// The collision flag left by drawing at `(vx, vy)` with height `n`.
    pub open spec fn draw_flag(&self, vx: int, vy: int, n: int) -> int {
        let total = flagged_rows(
            cells(self.display_buffer),
            self.ram,
            self.sprite_planes(vx, vy, n),
            self.counting(),
            self.sprite_plane(vx, vy, n, 0, 0).height as int,
        ) as int;
        if self.counting() {
            total
        } else if total > 0 {
            1
        } else {
            0
        }
    }

    /// Cell `(r, c)` after drawing at `(vx, vy)` with height `n`.
    pub open spec fn drawn_cell(&self, vx: int, vy: int, n: int, r: int, c: int) -> u8 {
        drawn_cells(cells(self.display_buffer), self.ram, self.sprite_planes(vx, vy, n))(r, c)
    }

    /// Whether `8XYN` is an instruction.
    pub open spec fn alu_defined(&self, n: int) -> bool {
        0 <= n <= 7 || n == 0xE
    }

    /// The value that `8XYN` writes to `VX`.
    pub open spec fn alu_value(&self, n: int, vx: u8, vy: u8) -> u8 {
        let shifted = if self.quirks.has(QuirkFlags::SHIFT_X_ONLY) { vx } else { vy };
        if n == 0 {
            vy
        } else if n == 1 {
            vx | vy
        } else if n == 2 {
            vx & vy
        } else if n == 3 {
            vx ^ vy
        } else if n == 4 {
            (if vx + vy > 255 { vx + vy - 256 } else { vx + vy }) as u8
        } else if n == 5 {
            (if vx >= vy { vx - vy } else { vx - vy + 256 }) as u8
        } else if n == 6 {
            shifted / 2
        } else if n == 7 {
            (if vy >= vx { vy - vx } else { vy - vx + 256 }) as u8
        } else {
            (if shifted < 128 { 2 * shifted } else { 2 * shifted - 256 }) as u8
        }
    }

    /// The value that `8XYN` then writes to `VF`, if any.
    pub open spec fn alu_flag(&self, n: int, vx: u8, vy: u8) -> Option<u8> {
        let shifted = if self.quirks.has(QuirkFlags::SHIFT_X_ONLY) { vx } else { vy };
        if 1 <= n <= 3 {
            if self.quirks.has(QuirkFlags::FLAG_RESET) { Some(0u8) } else { None }
        } else if n == 4 {
            Some(if vx + vy > 255 { 1u8 } else { 0u8 })
        } else if n == 5 {
            Some(if vx >= vy { 1u8 } else { 0u8 })
        } else if n == 6 {
            Some(shifted % 2)
        } else if n == 7 {
            Some(if vy >= vx { 1u8 } else { 0u8 })
        } else if n == 0xE {
            Some(shifted / 128)
        } else {
            None
        }
    }

    /// Registers after instruction `i`, with `rnd` the random byte for `CXNN`.
    pub open spec fn next_registers(&self, i: int, rnd: u8) -> Seq<u8> {
        let regs = self.registers@;
        let x = nx(i);
        let y = ny(i);
        let vx = self.v(x);
        let vy = self.v(y);
        let flag_reset = self.quirks.has(QuirkFlags::FLAG_RESET);
        let shifted = if self.quirks.has(QuirkFlags::SHIFT_X_ONLY) { vx } else { vy };
        if self.exits(i) {
            Seq::new(REGISTERS_COUNT as nat, |k: int| 0u8)
        } else if op(i) == 5 && nibble(i) == 3 && self.mode == Chirp8Mode::XOChip {
            Seq::new(
                REGISTERS_COUNT as nat,
                |k: int|
                    if (x <= k <= y) || (y <= k <= x) {
                        self.ram[(self.index + distance(k, x)) % 4096]
                    } else {
                        self.registers[k]
                    },
            )
        } else if op(i) == 6 {
            regs.update(x, nn(i) as u8)
        } else if op(i) == 7 {
            regs.update(x, ((vx + nn(i)) % 256) as u8)
        } else if op(i) == 8 && self.alu_defined(nibble(i)) {
            let value = self.alu_value(nibble(i), self.registers[x], self.registers[y]);
            match self.alu_flag(nibble(i), self.registers[x], self.registers[y]) {
                Some(flag) => regs.update(x, value).update(15, flag),
                None => regs.update(x, value),
            }
        } else if op(i) == 0xC {
            regs.update(x, rnd & (nn(i) as u8))
        } else if self.draws(i) {
            regs.update(15, self.draw_flag(self.v(nx(i)), self.v(ny(i)), nibble(i)) as u8)
        } else if op(i) == 0xF && nn(i) == 0x07 {
            regs.update(x, self.delay_timer)
        } else if op(i) == 0xF && nn(i) == 0x0A && !self.key_waits(i) {
            regs.update(x, self.released_key() as u8)
        } else if op(i) == 0xF && nn(i) == 0x1E && self.index + vx >= 4096 {
            regs.update(15, 1)
        } else if op(i) == 0xF && nn(i) == 0x65 {
            Seq::new(
                REGISTERS_COUNT as nat,
                |k: int| if k <= x { self.ram[(self.index + k) % 4096] } else { self.registers[k] },
            )
        } else if op(i) == 0xF && nn(i) == 0x85 && is_super(self.mode) {
            Seq::new(
                REGISTERS_COUNT as nat,
                |k: int| if k < rpl_count(self.mode, x) { self.rpl_registers[k] } else { self.registers[k] },
            )
        } else {
            regs
        }
    }

    /// Scroll distance of `n` pixels in the current resolution.
    pub open spec fn scroll_amount(&self, n: int) -> int {
        if !self.quirks.has(QuirkFlags::SCROLL_HALF_PIXEL) && !self.high_resolution {
            2 * n
        } else {
            n
        }
    }

    /// Cell bits that the scrolls move: the selected planes when several
    /// planes are drawn, else the whole cell.
    pub open spec fn scroll_planes(&self) -> u8 {
        if self.several_planes() {
            self.plane_selection
        } else {
            0xFF
        }
    }

    /// Whether instruction `i` clears the whole display.
    pub open spec fn clears(&self, i: int) -> bool {
        ||| op(i) == 0 && nn(i) == 0xE0 && !self.several_planes()
        ||| self.exits(i)
        ||| op(i) == 0 && (nn(i) == 0xFE || nn(i) == 0xFF) && is_super(self.mode) && self.quirks.has(
            QuirkFlags::CLEAR_ON_RES,
        )
    }

    /// Cell `(r, c)` after instruction `i`.
    pub open spec fn next_cell(&self, i: int, r: int, c: int) -> u8 {
        let f = cells(self.display_buffer);
        let planes = self.scroll_planes();
        if self.clears(i) {
            0
        } else if op(i) == 0 && nn(i) == 0xE0 {
            self.display_buffer[r][c] & !self.plane_selection
        } else if op(i) == 0 && 0xC0 <= nn(i) <= 0xCF && is_super(self.mode) {
            scrolled_cell(f, planes, self.scroll_amount(nibble(i)), 0, r, c)
        } else if op(i) == 0 && ((0xD0 <= nn(i) <= 0xDF && self.mode == Chirp8Mode::XOChip) || (0xB0
            <= nn(i) <= 0xBF && self.mode == Chirp8Mode::SuperChipModern)) {
            scrolled_cell(f, planes, -self.scroll_amount(nibble(i)), 0, r, c)
        } else if op(i) == 0 && nn(i) == 0xFB && is_super(self.mode) {
            scrolled_cell(f, planes, 0, self.scroll_amount(4), r, c)
        } else if op(i) == 0 && nn(i) == 0xFC && is_super(self.mode) {
            scrolled_cell(f, planes, 0, -self.scroll_amount(4), r, c)
        } else if self.draws(i) {
            self.drawn_cell(self.v(nx(i)), self.v(ny(i)), nibble(i), r, c)
        } else {
            self.display_buffer[r][c]
        }
    }

    /// Stack after instruction `i`.
    pub open spec fn next_stack(&self, i: int) -> Seq<u16> {
        if self.stack_faults(i) {
            self.stack@
        } else if op(i) == 0 && nn(i) == 0xEE {
            self.stack@.drop_last()
        } else if op(i) == 2 {
            self.stack@.push(self.pc_next() as u16)
        } else {
            self.stack@
        }
    }

    /// RPL registers after instruction `i`.
    pub open spec fn next_rpl(&self, i: int) -> Seq<u8> {
        if op(i) == 0xF && nn(i) == 0x75 && is_super(self.mode) {
            Seq::new(
                RPL_REGISTERS_COUNT as nat,
                |k: int| if k < rpl_count(self.mode, nx(i)) { self.registers[k] } else { self.rpl_registers[k] },
            )
        } else {
            self.rpl_registers@
        }
    }

    /// Resolution after instruction `i`.
    pub open spec fn next_high_resolution(&self, i: int) -> bool {
        if op(i) == 0 && nn(i) == 0xFE && is_super(self.mode) {
            false
        } else if op(i) == 0 && nn(i) == 0xFF && is_super(self.mode) {
            true
        } else {
            self.high_resolution
        }
    }

    /// Plane selector after instruction `i`.
    pub open spec fn next_plane_selection(&self, i: int) -> u8 {
        if op(i) == 0xF && nn(i) == 0x01 && self.mode == Chirp8Mode::XOChip {
            plane_selector(nx(i))
        } else {
            self.plane_selection
        }
    }

    /// Delay timer after instruction `i`, before the frame tick.
    pub open spec fn next_delay(&self, i: int) -> u8 {
        if op(i) == 0xF && nn(i) == 0x15 {
            self.registers[nx(i)]
        } else {
            self.delay_timer
        }
    }

    /// Sound timer after instruction `i`, before the frame tick.
    pub open spec fn next_sound(&self, i: int) -> u8 {
        if op(i) == 0xF && nn(i) == 0x18 {
            self.registers[nx(i)]
        } else {
            self.sound_timer
        }
    }

    /// Fields that no instruction changes.
    pub open spec fn same_setup(&self, other: &Chirp8) -> bool {
        &&& other.mode == self.mode
        &&& other.quirks == self.quirks
        &&& other.steps_per_frame == self.steps_per_frame
        &&& other.audio_buffer == self.audio_buffer
        &&& other.pitch == self.pitch
        &&& other.keys == self.keys
    }

    /// `after` is this machine once instruction `i` has executed, with `rnd`
    /// the random byte; the step count and the frame tick are not included.
    pub open spec fn executed(&self, after: &Chirp8, i: int, rnd: u8) -> bool {
        let faults = self.stack_faults(i);
        &&& self.same_setup(after)
        &&& after.steps == self.steps
        &&& after.steps_since_frame == self.steps_since_frame
        &&& after.keys_previous == self.keys_previous
        &&& after.halted == (self.halted || faults)
        &&& after.pc == self.next_pc(i)
        &&& after.stack@ == self.next_stack(i)
        &&& faults ==> {
            &&& after.index == self.index
            &&& after.registers == self.registers
            &&& after.ram == self.ram
            &&& after.display_buffer == self.display_buffer
            &&& after.rpl_registers == self.rpl_registers
            &&& after.high_resolution == self.high_resolution
            &&& after.plane_selection == self.plane_selection
            &&& after.delay_timer == self.delay_timer
            &&& after.sound_timer == self.sound_timer
            &&& after.display_changed == self.display_changed
        }
        &&& !faults ==> {
            &&& after.index == self.next_index(i)
            &&& after.registers@ == self.next_registers(i, rnd)
            &&& after.ram@ == self.next_ram(i)
            &&& forall|r: int, c: int| on_screen(r, c) ==> #[trigger] after.display_buffer[r][c] == self.next_cell(i, r, c)
            &&& after.rpl_registers@ == self.next_rpl(i)
            &&& after.high_resolution == self.next_high_resolution(i)
            &&& after.plane_selection == self.next_plane_selection(i)
            &&& after.delay_timer == self.next_delay(i)
            &&& after.sound_timer == self.next_sound(i)
            &&& after.display_changed == (self.display_changed || self.exits(i) || self.draws(i))
        }
    }
}

impl Chirp8 {
    /// The state of a machine just built for `mode` with `quirks`.
    pub open spec fn fresh(&self, mode: Chirp8Mode, quirks: QuirkFlags) -> bool {
        &&& self.wf()
        &&& self.mode == mode
        &&& self.quirks == quirks
        &&& self.pc == PROGRAM_START
        &&& self.index == 0
        &&& self.stack@ == Seq::<u16>::empty()
        &&& forall|k: int| 0 <= k < 16 ==> #[trigger] self.registers[k] == 0
        &&& forall|k: int| 0 <= k < 16 ==> #[trigger] self.rpl_registers[k] == 0
        &&& forall|k: int| 0 <= k < 16 ==> !#[trigger] self.keys[k] && !self.keys_previous[k]
        &&& self.sound_timer == 0
        &&& self.delay_timer == 0
        &&& self.pitch == 0
        &&& !self.high_resolution
        &&& self.plane_selection == (if mode == Chirp8Mode::XOChip { 0x55u8 } else { 0xFFu8 })
        &&& self.steps_since_frame == 0
        &&& self.display_changed
        &&& self.steps == 0
        &&& self.steps_per_frame == (if mode == Chirp8Mode::CosmacChip8 { 10usize } else { 30usize })
        &&& !self.halted
        &&& forall|k: int| 0 <= k < 80 ==> #[trigger] self.ram[k] == FONT_SPRITES[k]
        &&& forall|k: int| 80 <= k < 240 ==> #[trigger] self.ram[k] == FONT_SPRITES_HIGH[k - 80]
        &&& forall|k: int| 240 <= k < PROGRAM_START ==> #[trigger] self.ram[k] == 0
        &&& !quirks.has(QuirkFlags::RAM_RANDOM) ==> forall|k: int|
            PROGRAM_START <= k < RAM_SIZE ==> #[trigger] self.ram[k] == 0
        &&& forall|r: int, c: int| on_screen(r, c) ==> #[trigger] self.display_buffer[r][c] == 0
        &&& forall|k: int| 0 <= k < 8 ==> #[trigger] self.audio_buffer[k] == 0
        &&& forall|k: int| 8 <= k < 16 ==> #[trigger] self.audio_buffer[k] == 0xFF
    }

    /// Creates a new emulator, which will behave according to given `mode`.
    pub fn new(mode: Chirp8Mode) -> (r: Chirp8)
        ensures
            r.fresh(mode, QuirkFlags { bits: QuirkFlags::preset_bits(mode) }),
    {
        Chirp8::with_custom_quirks(mode, QuirkFlags::from_mode(mode))
    }

    /// Creates a new emulator, which will behave according to given `mode` and
    /// with custom quirks.
    pub fn with_custom_quirks(mode: Chirp8Mode, quirks: QuirkFlags) -> (r: Chirp8)
        ensures
            r.fresh(mode, quirks),
    {
        let mut ram = [0u8; RAM_SIZE];
        let mut k: usize = 0;
        while k < 80
            invariant
                k <= 80,
                forall|j: int| 0 <= j < k ==> #[trigger] ram[j] == FONT_SPRITES[j],
                forall|j: int| k <= j < RAM_SIZE ==> #[trigger] ram[j] == 0,
            decreases 80 - k,
        {
            ram[FONT_SPRITES_ADDRESS + k] = FONT_SPRITES[k];
            k += 1;
        }
        let mut k: usize = 0;
        while k < 160
            invariant
                k <= 160,
                forall|j: int| 0 <= j < 80 ==> #[trigger] ram[j] == FONT_SPRITES[j],
                forall|j: int| 80 <= j < 80 + k ==> #[trigger] ram[j] == FONT_SPRITES_HIGH[j - 80],
                forall|j: int| 80 + k <= j < RAM_SIZE ==> #[trigger] ram[j] == 0,
            decreases 160 - k,
        {
            ram[FONT_SPRITES_HIGH_ADDRESS + k] = FONT_SPRITES_HIGH[k];
            k += 1;
        }
        let steps_per_frame: usize = match mode {
            Chirp8Mode::CosmacChip8 => 10,
            Chirp8Mode::SuperChip1_1 => 30,
            Chirp8Mode::SuperChipModern => 30,
            Chirp8Mode::XOChip => 30,
        };
        let plane_selection = if mode == Chirp8Mode::XOChip {
            // First plane selected.
            plane_selector_of(1)
        } else {
            // Draw on all planes.
            PIXEL_ON
        };
        // 128-samples long square wave.
        let audio_buffer: [u8; AUDIO_BUFFER_SIZE] = [0, 0, 0, 0, 0, 0, 0, 0, 0xFF, 0xFF, 0xFF, 0xFF, 0xFF, 0xFF, 0xFF, 0xFF];
        let mut randomizer = seeded_rng(RANDOM_SEED);
        if quirks.contains(QuirkFlags::RAM_RANDOM) {
            let mut k: usize = PROGRAM_START;
            while k < RAM_SIZE
                invariant
                    PROGRAM_START <= k <= RAM_SIZE,
                    forall|j: int| 0 <= j < 80 ==> #[trigger] ram[j] == FONT_SPRITES[j],
                    forall|j: int| 80 <= j < 240 ==> #[trigger] ram[j] == FONT_SPRITES_HIGH[j - 80],
                    forall|j: int| 240 <= j < PROGRAM_START ==> #[trigger] ram[j] == 0,
                decreases RAM_SIZE - k,
            {
                let value = next_random(&mut randomizer);
                ram[k] = #[verifier::truncate] (value as u8);
                k += 1;
            }
        }
        let r = Chirp8 {
            ram,
            display_buffer: [[PIXEL_OFF; DISPLAY_WIDTH]; DISPLAY_HEIGHT],
            registers: [0; REGISTERS_COUNT],
            pc: PROGRAM_START as u16,
            index: 0,
            stack: Stack::new(),
            sound_timer: 0,
            delay_timer: 0,
            rpl_registers: [0; RPL_REGISTERS_COUNT],
            audio_buffer,
            pitch: 0,
            keys: [false; 16],
            keys_previous: [false; 16],
            high_resolution: false,
            plane_selection,
            mode,
            quirks,
            steps_since_frame: 0,
            display_changed: true,
            randomizer,
            steps: 0,
            steps_per_frame,
            halted: false,
        };
        assert(display_ok(r.display_buffer));
        r
    }

    /// Press the given `key` on the key-pad, between 0 and 15 included.
    pub fn key_press(&mut self, key: u8)
        ensures
            final(self).keys@ == (if key < KEYS_COUNT { old(self).keys@.update(key as int, true) } else { old(self).keys@ }),
            *final(self) == (Chirp8 { keys: final(self).keys, ..*old(self) }),
    {
        self.key_set(key, true);
    }

    /// Release the given `key` on the key-pad, between 0 and 15 included.
    pub fn key_release(&mut self, key: u8)
        ensures
            final(self).keys@ == (if key < KEYS_COUNT { old(self).keys@.update(key as int, false) } else { old(self).keys@ }),
            *final(self) == (Chirp8 { keys: final(self).keys, ..*old(self) }),
    {
        self.key_set(key, false);
    }

    /// Set the given `key` on the key-pad, between 0 and 15 included, to pressed or released.
    pub fn key_set(&mut self, key: u8, pressed: bool)
        ensures
            final(self).keys@ == (if key < KEYS_COUNT { old(self).keys@.update(key as int, pressed) } else { old(self).keys@ }),
            *final(self) == (Chirp8 { keys: final(self).keys, ..*old(self) }),
    {
        if key < KEYS_COUNT {
            self.keys[key as usize] = pressed;
        }
    }
}

impl Chirp8 {
    /// Clears the screen.
    fn clear_display(&mut self)
        requires
            old(self).wf(),
        ensures
            final(self).wf(),
            forall|r: int, c: int| on_screen(r, c) ==> #[trigger] final(self).display_buffer[r][c] == 0,
            *final(self) == (Chirp8 { display_buffer: final(self).display_buffer, ..*old(self) }),
    {
        clear_cells(&mut self.display_buffer);
    }

    /// Clears the selected screen planes.
    fn clear_planes(&mut self)
        requires
            old(self).wf(),
            old(self).several_planes(),
        ensures
            final(self).wf(),
            forall|r: int, c: int| on_screen(r, c) ==> #[trigger] final(self).display_buffer[r][c]
                == old(self).display_buffer[r][c] & !old(self).plane_selection,
            *final(self) == (Chirp8 { display_buffer: final(self).display_buffer, ..*old(self) }),
    {
        let planes = self.plane_selection;
        clear_plane_bits(&mut self.display_buffer, planes);
    }

    /// Scroll distance of `scroll` pixels in the current resolution.
    fn scroll_distance(&self, scroll: u8) -> (r: i32)
        requires
            scroll <= 15,
        ensures
            r == self.scroll_amount(scroll as int),
            0 <= r <= 30,
    {
        if !self.quirks.contains(QuirkFlags::SCROLL_HALF_PIXEL) && !self.high_resolution {
            2 * scroll as i32
        } else {
            scroll as i32
        }
    }

    /// Moves the scrolled bits of every cell by `dr` rows and `dc` columns.
    fn scroll(&mut self, dr: i32, dc: i32)
        requires
            old(self).wf(),
            -64 <= dr <= 64,
            -128 <= dc <= 128,
        ensures
            final(self).wf(),
            forall|r: int, c: int| on_screen(r, c) ==> #[trigger] final(self).display_buffer[r][c]
                == scrolled_cell(cells(old(self).display_buffer), old(self).scroll_planes(), dr as int, dc as int, r, c),
            *final(self) == (Chirp8 { display_buffer: final(self).display_buffer, ..*old(self) }),
    {
        let planes = if self.quirks.contains(QuirkFlags::USE_SEVERAL_PLANES) {
            self.plane_selection
        } else {
            PIXEL_ON
        };
        scroll_cells(&mut self.display_buffer, planes, dr, dc);
        proof {
            assert forall|r: int, c: int| on_screen(r, c) implies #[trigger] self.display_buffer[r][c]
                == scrolled_cell(cells(old(self).display_buffer), old(self).scroll_planes(), dr as int, dc as int, r, c) by {}
        }
    }

    /// Scrolls the display up by `scroll` pixels.
    fn scroll_up(&mut self, scroll: u8)
        requires
            old(self).wf(),
            scroll <= 15,
        ensures
            final(self).wf(),
            forall|r: int, c: int| on_screen(r, c) ==> #[trigger] final(self).display_buffer[r][c]
                == scrolled_cell(cells(old(self).display_buffer), old(self).scroll_planes(), -old(self).scroll_amount(scroll as int), 0, r, c),
            *final(self) == (Chirp8 { display_buffer: final(self).display_buffer, ..*old(self) }),
    {
        let d = self.scroll_distance(scroll);
        self.scroll(-d, 0);
    }

    /// Scrolls the display down by `scroll` pixels.
    fn scroll_down(&mut self, scroll: u8)
        requires
            old(self).wf(),
            scroll <= 15,
        ensures
            final(self).wf(),
            forall|r: int, c: int| on_screen(r, c) ==> #[trigger] final(self).display_buffer[r][c]
                == scrolled_cell(cells(old(self).display_buffer), old(self).scroll_planes(), old(self).scroll_amount(scroll as int), 0, r, c),
            *final(self) == (Chirp8 { display_buffer: final(self).display_buffer, ..*old(self) }),
    {
        let d = self.scroll_distance(scroll);
        self.scroll(d, 0);
    }

    /// Scrolls the display left by `scroll` pixels.
    fn scroll_left(&mut self, scroll: u8)
        requires
            old(self).wf(),
            scroll <= 15,
        ensures
            final(self).wf(),
            forall|r: int, c: int| on_screen(r, c) ==> #[trigger] final(self).display_buffer[r][c]
                == scrolled_cell(cells(old(self).display_buffer), old(self).scroll_planes(), 0, -old(self).scroll_amount(scroll as int), r, c),
            *final(self) == (Chirp8 { display_buffer: final(self).display_buffer, ..*old(self) }),
    {
        let d = self.scroll_distance(scroll);
        self.scroll(0, -d);
    }

    /// Scrolls the display right by `scroll` pixels.
    fn scroll_right(&mut self, scroll: u8)
        requires
            old(self).wf(),
            scroll <= 15,
        ensures
            final(self).wf(),
            forall|r: int, c: int| on_screen(r, c) ==> #[trigger] final(self).display_buffer[r][c]
                == scrolled_cell(cells(old(self).display_buffer), old(self).scroll_planes(), 0, old(self).scroll_amount(scroll as int), r, c),
            *final(self) == (Chirp8 { display_buffer: final(self).display_buffer, ..*old(self) }),
    {
        let d = self.scroll_distance(scroll);
        self.scroll(0, d);
    }
}

impl Chirp8 {
    /// Plane `plane` of the sprite at `(vx, vy)` with height `n`, the `drawn`-th plane drawn.
    fn plane_for(&self, vx: u8, vy: u8, n: u8, plane: usize, drawn: usize) -> (p: SpritePlane)
        requires
            self.wf(),
            n <= 15,
            plane <= 1,
            drawn <= 1,
        ensures
            p == self.sprite_plane(vx as int, vy as int, n as int, plane as int, drawn as int),
            p.wf(),
            pixel_ok(p.mask),
    {
        let mask: u8 = if !self.quirks.contains(QuirkFlags::USE_SEVERAL_PLANES) {
            0xFF
        } else if plane == 0 {
            0x55
        } else {
            0xAA
        };
        let wrapping = !self.quirks.contains(
            if self.high_resolution { QuirkFlags::CLIP_SPRITES_HIRES } else { QuirkFlags::CLIP_SPRITES_LORES },
        );
        let large = if self.mode != Chirp8Mode::XOChip {
            self.mode != Chirp8Mode::CosmacChip8 && self.high_resolution && n == 0
        } else {
            n == 0
        };
        proof {
            assert(n as int * drawn as int == if drawn == 1 { n as int } else { 0 }) by (nonlinear_arith)
                requires
                    drawn <= 1,
            ;
        }
        // Coordinates wrap at the screen size; each pixel is doubled in low-resolution.
        let (x0, y0, scale) = if self.high_resolution {
            ((vx % 128) as usize, (vy % 64) as usize, 1)
        } else {
            ((vx % 64) as usize, (vy % 32) as usize, 2)
        };
        if large {
            // Large 16x16 sprite: two bytes per line.
            SpritePlane {
                x0,
                y0,
                scale,
                width: 16,
                height: 16,
                base: (self.index as usize + 32 * drawn) % RAM_SIZE,
                mask,
                wrapping,
            }
        } else {
            // 8xN sprite.
            SpritePlane {
                x0,
                y0,
                scale,
                width: 8,
                height: n as usize,
                base: (self.index as usize + if drawn == 1 { n as usize } else { 0 }) % RAM_SIZE,
                mask,
                wrapping,
            }
        }
    }

    /// XORs one sprite plane onto the display, and returns its colliding lines.
    fn draw_sprite_plane(&mut self, p: &SpritePlane) -> (hits: [bool; 16])
        requires
            old(self).wf(),
            p.wf(),
            pixel_ok(p.mask),
            !old(self).several_planes() ==> p.mask == 0xFF,
        ensures
            final(self).wf(),
            forall|l: int| 0 <= l < 16 ==> #[trigger] hits[l] == (l < p.height && p.row_visible(l) && p.line_collides(
                cells(old(self).display_buffer),
                old(self).ram,
                l,
            )),
            cells(final(self).display_buffer) == (|r: int, c: int| p.drawn_cell(cells(old(self).display_buffer), old(self).ram, r, c)),
            *final(self) == (Chirp8 { display_buffer: final(self).display_buffer, ..*old(self) }),
    {
        let hits = draw_plane(&mut self.display_buffer, &self.ram, p);
        proof {
            assert(cells(self.display_buffer) =~= (|r: int, c: int| p.drawn_cell(cells(old(self).display_buffer), old(self).ram, r, c)));
        }
        hits
    }

    /// Draws the sprite at `(vx, vy)` with height `n` on every selected plane.
    /// Returns which lines collide on some plane, and whether any plane was drawn.
    fn display_sprite(&mut self, vx: u8, vy: u8, n: u8) -> (r: ([bool; 16], bool))
        requires
            old(self).wf(),
            n <= 15,
        ensures
            final(self).wf(),
            forall|l: int| 0 <= l < 16 ==> #[trigger] r.0[l] == line_hit(
                cells(old(self).display_buffer),
                old(self).ram,
                old(self).sprite_planes(vx as int, vy as int, n as int),
                l,
            ),
            r.1 == (old(self).sprite_planes(vx as int, vy as int, n as int).len() > 0),
            forall|r: int, c: int| on_screen(r, c) ==> #[trigger] final(self).display_buffer[r][c]
                == old(self).drawn_cell(vx as int, vy as int, n as int, r, c),
            *final(self) == (Chirp8 { display_buffer: final(self).display_buffer, ..*old(self) }),
    {
        let ghost s0 = *self;
        let ghost f0 = cells(self.display_buffer);
        let ghost ps = s0.sprite_planes(vx as int, vy as int, n as int);
        let ghost ram = s0.ram;
        let ghost e = Seq::<SpritePlane>::empty();
        let several = self.quirks.contains(QuirkFlags::USE_SEVERAL_PLANES);
        let first = if several { self.plane_selection & 0x55 != 0 } else { self.plane_selection != 0 };
        let second = several && self.plane_selection & 0xAA != 0;
        let ghost p0 = s0.sprite_plane(vx as int, vy as int, n as int, 0, 0);
        let ghost p1 = s0.sprite_plane(vx as int, vy as int, n as int, 1, if first { 1 } else { 0 });
        let ghost g1 = if first { (|r: int, c: int| p0.drawn_cell(f0, ram, r, c)) } else { f0 };
        let ghost g2 = if second { (|r: int, c: int| p1.drawn_cell(g1, ram, r, c)) } else { g1 };
        let mut hits = [false; 16];
        if first {
            let q0 = self.plane_for(vx, vy, n, 0, 0);
            hits = self.draw_sprite_plane(&q0);
        }
        proof {
            assert(cells(self.display_buffer) == g1);
        }
        let ghost h1 = hits;
        if second {
            let q1 = self.plane_for(vx, vy, n, 1, if first { 1 } else { 0 });
            assert(q1 == p1);
            let more = self.draw_sprite_plane(&q1);
            let mut l: usize = 0;
            while l < 16
                invariant
                    l <= 16,
                    forall|j: int| 0 <= j < l ==> #[trigger] hits[j] == (h1[j] || more[j]),
                    forall|j: int| l <= j < 16 ==> #[trigger] hits[j] == h1[j],
                decreases 16 - l,
            {
                hits[l] = hits[l] || more[l];
                l += 1;
            }
        }
        proof {
            assert(cells(self.display_buffer) == g2);
            if !several {
                if first {
                    assert(ps =~= seq![p0]);
                    assert(ps.drop_first() =~= e);
                } else {
                    assert(ps =~= e);
                }
            } else if first && second {
                assert(ps =~= seq![p0, p1]);
                assert(ps.drop_first() =~= seq![p1]);
                assert(seq![p1].drop_first() =~= e);
            } else if first {
                assert(ps =~= seq![p0]);
                assert(ps.drop_first() =~= e);
            } else if second {
                assert(ps =~= seq![p1]);
                assert(ps.drop_first() =~= e);
            } else {
                assert(ps =~= e);
            }
            assert forall|l: int| 0 <= l < 16 implies #[trigger] hits[l] == line_hit(f0, ram, ps, l) by {
                if first && second {
                    assert(line_hit(f0, ram, ps, l) == ((l < p0.height && p0.row_visible(l) && p0.line_collides(f0, ram, l))
                        || line_hit(g1, ram, ps.drop_first(), l)));
                    assert(line_hit(g1, ram, seq![p1], l) == ((l < p1.height && p1.row_visible(l) && p1.line_collides(g1, ram, l))
                        || line_hit(g2, ram, e, l)));
                } else if first {
                    assert(line_hit(f0, ram, ps, l) == ((l < p0.height && p0.row_visible(l) && p0.line_collides(f0, ram, l))
                        || line_hit(g1, ram, e, l)));
                } else if second {
                    assert(line_hit(f0, ram, ps, l) == ((l < p1.height && p1.row_visible(l) && p1.line_collides(f0, ram, l))
                        || line_hit(g2, ram, e, l)));
                }
            }
            if first && second {
                assert(drawn_cells(f0, ram, ps) == drawn_cells(g1, ram, ps.drop_first()));
                assert(drawn_cells(g1, ram, seq![p1]) == drawn_cells(g2, ram, e));
            } else if first {
                assert(drawn_cells(f0, ram, ps) == drawn_cells(g1, ram, ps.drop_first()));
            } else if second {
                assert(drawn_cells(f0, ram, ps) == drawn_cells(g2, ram, ps.drop_first()));
            }
            assert(drawn_cells(g2, ram, e) == g2);
            assert(drawn_cells(f0, ram, ps) == g2);
            assert forall|r: int, c: int| on_screen(r, c) implies #[trigger] self.display_buffer[r][c]
                == s0.drawn_cell(vx as int, vy as int, n as int, r, c) by {
                assert(cells(self.display_buffer)(r, c) == self.display_buffer[r][c]);
            }
        }
        (hits, first || second)
    }

    /// Draws the sprite of height `height` at `x_y_coordinates`; a height of 0
    /// stands for a 16x16 sprite where the dialect has them.
    fn handle_display_instruction(&mut self, x_y_coordinates: (u8, u8), height: u8)
        requires
            old(self).wf(),
            height <= 15,
        ensures
            final(self).wf(),
            final(self).registers@ == old(self).registers@.update(
                FLAG_REGISTER_INDEX as int,
                old(self).draw_flag(x_y_coordinates.0 as int, x_y_coordinates.1 as int, height as int) as u8,
            ),
            forall|r: int, c: int| on_screen(r, c) ==> #[trigger] final(self).display_buffer[r][c]
                == old(self).drawn_cell(x_y_coordinates.0 as int, x_y_coordinates.1 as int, height as int, r, c),
            *final(self) == (Chirp8 {
                display_buffer: final(self).display_buffer,
                registers: final(self).registers,
                display_changed: true,
                ..*old(self)
            }),
    {
        let (vx, vy) = x_y_coordinates;
        let ghost s0 = *self;
        self.display_changed = true;
        let geometry = self.plane_for(vx, vy, height, 0, 0);
        let (hits, drew) = self.display_sprite(vx, vy, height);
        let counting = self.quirks.contains(QuirkFlags::COLLISION_COUNT_HIRES);
        let rows_count: usize = if geometry.scale == 2 { 32 } else { 64 };
        assert(drew ==> same_geometry(s0.sprite_planes(vx as int, vy as int, height as int)[0], geometry));
        // A row counts once: a collision on any plane, or, when counting, a clipped row.
        let mut total: u8 = 0;
        let mut l: usize = 0;
        while l < geometry.height
            invariant
                geometry == s0.sprite_plane(vx as int, vy as int, height as int, 0, 0),
                geometry.wf(),
                rows_count == geometry.rows(),
                l <= geometry.height,
                total <= l,
                total as int == flagged_rows(
                    cells(s0.display_buffer),
                    s0.ram,
                    s0.sprite_planes(vx as int, vy as int, height as int),
                    s0.counting(),
                    l as int,
                ),
                drew ==> same_geometry(s0.sprite_planes(vx as int, vy as int, height as int)[0], geometry),
                counting == s0.counting(),
                drew == (s0.sprite_planes(vx as int, vy as int, height as int).len() > 0),
                forall|j: int| 0 <= j < 16 ==> #[trigger] hits[j] == line_hit(
                    cells(s0.display_buffer),
                    s0.ram,
                    s0.sprite_planes(vx as int, vy as int, height as int),
                    j,
                ),
            decreases geometry.height - l,
        {
            let clipped = !geometry.wrapping && geometry.y0 + l >= rows_count;
            if drew && ((counting && clipped) || hits[l]) {
                total = total + 1;
            }
            l += 1;
        }
        // VF counts the flagged rows instead of being 0 or 1.
        let flag = if self.quirks.contains(QuirkFlags::COLLISION_COUNT_HIRES) {
            total
        } else if total != 0 {
            1
        } else {
            0
        };
        self.registers[FLAG_REGISTER_INDEX] = flag;
    }
}

impl Chirp8 {
    /// Resets the interpreter to the beginning of the program: program counter
    /// at the program start, registers zeroed, display cleared.
    pub fn reset(&mut self)
        requires
            old(self).wf(),
        ensures
            final(self).wf(),
            final(self).pc == PROGRAM_START,
            forall|k: int| 0 <= k < REGISTERS_COUNT ==> #[trigger] final(self).registers[k] == 0,
            forall|r: int, c: int| on_screen(r, c) ==> #[trigger] final(self).display_buffer[r][c] == 0,
            *final(self) == (Chirp8 {
                pc: PROGRAM_START as u16,
                registers: final(self).registers,
                display_buffer: final(self).display_buffer,
                display_changed: true,
                ..*old(self)
            }),
    {
        self.pc = PROGRAM_START as u16;
        self.registers = [0; REGISTERS_COUNT];
        self.display_changed = true;
        self.clear_display();
    }

    /// Indicates if the display changed since the last time this method was
    /// called, and forgets it.
    pub fn display_changed(&mut self) -> (r: bool)
        ensures
            r == old(self).display_changed,
            *final(self) == (Chirp8 { display_changed: false, ..*old(self) }),
    {
        let result = self.display_changed;
        self.display_changed = false;
        result
    }

    /// Indicates whether the sound buzzer is currently on.
    pub fn is_sounding(&self) -> (r: bool)
        ensures
            r == (self.sound_timer > 0),
    {
        self.sound_timer > 0
    }

    /// Indicates whether the emulator plays the audio buffer (XO-Chip) rather
    /// than a simple buzz.
    pub fn has_sound_wave(&self) -> (r: bool)
        ensures
            r == (self.mode == Chirp8Mode::XOChip),
    {
        self.mode == Chirp8Mode::XOChip
    }

    /// Loads a ROM into memory at the program start. Returns false, and
    /// changes nothing, when the ROM is larger than the program area.
    pub fn load_rom(&mut self, rom: &[u8]) -> (r: bool)
        ensures
            r == (rom@.len() <= PROGRAM_SIZE),
            r ==> final(self).ram@ == old(self).ram@.subrange(0, PROGRAM_START as int) + rom@
                + old(self).ram@.subrange(PROGRAM_START + rom@.len(), RAM_SIZE as int),
            *final(self) == (Chirp8 { ram: final(self).ram, ..*old(self) }),
            !r ==> final(self).ram == old(self).ram,
    {
        if rom.len() <= PROGRAM_SIZE {
            let mut k: usize = 0;
            while k < rom.len()
                invariant
                    k <= rom@.len() <= PROGRAM_SIZE,
                    *self == (Chirp8 { ram: self.ram, ..*old(self) }),
                    forall|j: int| 0 <= j < PROGRAM_START + k ==> #[trigger] self.ram[j] == if j
                        < PROGRAM_START { old(self).ram[j] } else { rom@[j - PROGRAM_START] },
                    forall|j: int| PROGRAM_START + k <= j < RAM_SIZE ==> #[trigger] self.ram[j] == old(self).ram[j],
                decreases rom@.len() - k,
            {
                self.ram[PROGRAM_START + k] = rom[k];
                k += 1;
            }
            assert(self.ram@ =~= old(self).ram@.subrange(0, PROGRAM_START as int) + rom@
                + old(self).ram@.subrange(PROGRAM_START + rom@.len(), RAM_SIZE as int));
            true
        } else {
            false
        }
    }

    /// Loads given data into the persistent RPL registers.
    pub fn load_rpl_registers(&mut self, registers: &[u8; RPL_REGISTERS_COUNT])
        ensures
            *final(self) == (Chirp8 { rpl_registers: *registers, ..*old(self) }),
    {
        self.rpl_registers = *registers;
    }

    /// The persistent RPL registers.
    pub fn get_rpl_registers(&self) -> (r: &[u8; RPL_REGISTERS_COUNT])
        ensures
            *r == self.rpl_registers,
    {
        &self.rpl_registers
    }

    /// The display buffer. In low-resolution each pixel is a 2 by 2 square.
    pub fn get_display_buffer(&self) -> (r: &DisplayBuffer)
        ensures
            *r == self.display_buffer,
    {
        &self.display_buffer
    }

    /// The 128 1-bit samples of the audio buffer.
    pub fn get_audio_buffer(&self) -> (r: &[u8; AUDIO_BUFFER_SIZE])
        ensures
            *r == self.audio_buffer,
    {
        &self.audio_buffer
    }

    /// The big-endian word at `address`.
    fn word_at(&self, address: u16) -> (r: u16)
        requires
            address < RAM_SIZE,
        ensures
            r as int == word_at(self.ram, address as int),
    {
        let high = self.ram[address as usize] as u16;
        let low = self.ram[(address as usize + 1) % RAM_SIZE] as u16;
        high * 256 + low
    }

    /// The instruction at the program counter.
    fn next_instruction(&self) -> (r: u16)
        requires
            self.wf(),
        ensures
            r as int == self.instruction(),
    {
        self.word_at(self.pc)
    }

    /// Moves the program counter over the next instruction, four bytes for an
    /// XO-Chip `F000 NNNN`.
    fn skip_next_instruction(&mut self)
        requires
            old(self).pc < RAM_SIZE,
        ensures
            final(self).pc == (old(self).pc + (if old(self).mode == Chirp8Mode::XOChip && word_at(
                old(self).ram,
                old(self).pc as int,
            ) == 0xF000 { 4int } else { 2int })) % 4096,
            *final(self) == (Chirp8 { pc: final(self).pc, ..*old(self) }),
    {
        let offset: u16 = if self.mode == Chirp8Mode::XOChip && self.word_at(self.pc) == 0xF000 {
            // Jump over a four bytes instruction.
            PROGRAM_COUNTER_STEP * 2
        } else {
            PROGRAM_COUNTER_STEP
        };
        self.pc = (self.pc + offset) % (RAM_SIZE as u16);
    }
}

impl Chirp8 {
    /// Jumps, calls and `ANNN`.
    fn exec_flow(&mut self, i: u16, at: u16, rnd: u8, Ghost(s): Ghost<Chirp8>)
        requires
            s.wf(),
            at == s.pc,
            *old(self) == (Chirp8 { pc: s.pc_next() as u16, ..s }),
            op(i as int) == 1 || op(i as int) == 2 || op(i as int) == 0xA || op(i as int) == 0xB,
        ensures
            s.executed(&*final(self), i as int, rnd),
            final(self).wf(),
            final(self).randomizer == old(self).randomizer,
    {
        let opcode = i / 4096;
        let x = ((i / 256) % 16) as usize;
        let nnn = i % 4096;
        if opcode == 1 {
            self.pc = nnn;
        } else if opcode == 2 {
            match self.stack.push(self.pc) {
                Ok(()) => {
                    self.pc = nnn;
                },
                Err(_) => {
                    // Stack overflow: the machine stops.
                    self.pc = at;
                    self.halted = true;
                },
            }
        } else if opcode == 0xA {
            self.index = nnn;
        } else {
            let offset = if self.quirks.contains(QuirkFlags::JUMP_XNN) {
                self.registers[x]
            } else {
                self.registers[0]
            };
            self.pc = (nnn + offset as u16) % (RAM_SIZE as u16);
        }
        proof {
            assert(self.ram@ == s.next_ram(i as int));
            assert(self.registers@ == s.next_registers(i as int, rnd));
            assert(self.rpl_registers@ == s.next_rpl(i as int));
        }
    }

    /// Conditional skips: `3XNN`, `4XNN`, `5XY0`, `9XY0`, `EX9E`, `EXA1`.
    fn exec_skip(&mut self, i: u16, rnd: u8, Ghost(s): Ghost<Chirp8>)
        requires
            s.wf(),
            *old(self) == (Chirp8 { pc: s.pc_next() as u16, ..s }),
            op(i as int) == 3 || op(i as int) == 4 || (op(i as int) == 5 && nibble(i as int) == 0) || op(
                i as int,
            ) == 9 || op(i as int) == 0xE,
        ensures
            s.executed(&*final(self), i as int, rnd),
            final(self).wf(),
            final(self).randomizer == old(self).randomizer,
    {
        let opcode = i / 4096;
        let x = ((i / 256) % 16) as usize;
        let y = ((i / 16) % 16) as usize;
        let nn = (i % 256) as u8;
        let vx = self.registers[x];
        let vy = self.registers[y];
        let skip = if opcode == 3 {
            vx == nn
        } else if opcode == 4 {
            vx != nn
        } else if opcode == 5 {
            vx == vy
        } else if opcode == 9 {
            vx != vy
        } else if nn == 0x9E {
            self.keys[(vx % 16) as usize]
        } else if nn == 0xA1 {
            !self.keys[(vx % 16) as usize]
        } else {
            false
        };
        if skip {
            self.skip_next_instruction();
        }
        proof {
            assert(skip == s.skips(i as int));
            assert(self.ram@ == s.next_ram(i as int));
            assert(self.registers@ == s.next_registers(i as int, rnd));
            assert(self.rpl_registers@ == s.next_rpl(i as int));
        }
    }
}

/// The cell `j` bytes after `base`, addresses wrapping around memory.
pub proof fn lemma_offset(base: int, j: int, a: int)
    requires
        0 <= base < 4096,
        0 <= j < 4096,
        0 <= a < 4096,
    ensures
        ((a - base) % 4096 == j) == (a == (base + j) % 4096),
{
    if a >= base {
        assert((a - base) % 4096 == a - base);
    } else {
        assert((a - base) % 4096 == a - base + 4096);
    }
    if base + j >= 4096 {
        assert((base + j) % 4096 == base + j - 4096);
    } else {
        assert((base + j) % 4096 == base + j);
    }
}

impl Chirp8 {
    /// `5XY0`, and the XO-Chip register range save `5XY2` and load `5XY3`.
    fn exec_five(&mut self, i: u16, rnd: u8, Ghost(s): Ghost<Chirp8>)
        requires
            s.wf(),
            *old(self) == (Chirp8 { pc: s.pc_next() as u16, ..s }),
            op(i as int) == 5,
        ensures
            s.executed(&*final(self), i as int, rnd),
            final(self).wf(),
            final(self).randomizer == old(self).randomizer,
    {
        let x = ((i / 256) % 16) as usize;
        let y = ((i / 16) % 16) as usize;
        let n = i % 16;
        if n == 0 {
            self.exec_skip(i, rnd, Ghost(s));
        } else if n == 2 && self.mode == Chirp8Mode::XOChip {
            let count = if x <= y { y - x } else { x - y };
            let base = self.index as usize;
            let mut j: usize = 0;
            while j <= count
                invariant
                    count == distance(x as int, y as int),
                    j <= count + 1,
                    x < 16,
                    y < 16,
                    base == s.index,
                    base < RAM_SIZE,
                    *self == (Chirp8 { ram: self.ram, ..*old(self) }),
                    self.registers == s.registers,
                    forall|a: int| 0 <= a < RAM_SIZE ==> #[trigger] self.ram[a] == (if (a - base) % 4096 < j {
                        s.registers[if x <= y { x + (a - base) % 4096 } else { x - (a - base) % 4096 }]
                    } else {
                        s.ram[a]
                    }),
                decreases count + 1 - j,
            {
                let k = if x <= y { x + j } else { x - j };
                let ghost before = self.ram;
                self.ram[(base + j) % RAM_SIZE] = self.registers[k];
                proof {
                    assert forall|a: int| 0 <= a < RAM_SIZE implies #[trigger] self.ram[a] == (if (a - base) % 4096 < j + 1 {
                        s.registers[if x <= y { x + (a - base) % 4096 } else { x - (a - base) % 4096 }]
                    } else {
                        s.ram[a]
                    }) by {
                        lemma_offset(base as int, j as int, a);
                        if a == (base + j) % 4096 {
                            assert(self.ram[a] == s.registers[k as int]);
                            assert((a - base) % 4096 == j);
                        } else {
                            assert(self.ram[a] == before[a]);
                        }
                        assert(before[a] == (if (a - base) % 4096 < j {
                            s.registers[if x <= y { x + (a - base) % 4096 } else { x - (a - base) % 4096 }]
                        } else {
                            s.ram[a]
                        }));
                    }
                }
                j += 1;
            }
            proof {
                assert(self.ram@ =~= s.next_ram(i as int));
                assert(self.registers@ == s.next_registers(i as int, rnd));
                assert(self.rpl_registers@ == s.next_rpl(i as int));
            }
        } else if n == 3 && self.mode == Chirp8Mode::XOChip {
            let count = if x <= y { y - x } else { x - y };
            let base = self.index as usize;
            let mut j: usize = 0;
            while j <= count
                invariant
                    count == distance(x as int, y as int),
                    j <= count + 1,
                    x < 16,
                    y < 16,
                    base == s.index,
                    base < RAM_SIZE,
                    *self == (Chirp8 { registers: self.registers, ..*old(self) }),
                    self.ram == s.ram,
                    forall|k: int| 0 <= k < REGISTERS_COUNT ==> #[trigger] self.registers[k] == (if ((x <= k <= y)
                        || (y <= k <= x)) && distance(k, x as int) < j {
                        s.ram[(base + distance(k, x as int)) % 4096]
                    } else {
                        s.registers[k]
                    }),
                decreases count + 1 - j,
            {
                let k = if x <= y { x + j } else { x - j };
                let ghost before = self.registers;
                self.registers[k] = self.ram[(base + j) % RAM_SIZE];
                proof {
                    assert forall|kk: int| 0 <= kk < REGISTERS_COUNT implies #[trigger] self.registers[kk] == (if ((x <= kk <= y)
                        || (y <= kk <= x)) && distance(kk, x as int) < j + 1 {
                        s.ram[(base + distance(kk, x as int)) % 4096]
                    } else {
                        s.registers[kk]
                    }) by {
                        if kk == k {
                            assert(distance(kk, x as int) == j);
                            assert(self.registers[kk] == s.ram[(base + j) % 4096]);
                        } else {
                            assert(self.registers[kk] == before[kk]);
                        }
                        assert(before[kk] == (if ((x <= kk <= y) || (y <= kk <= x)) && distance(kk, x as int) < j {
                            s.ram[(base + distance(kk, x as int)) % 4096]
                        } else {
                            s.registers[kk]
                        }));
                    }
                }
                j += 1;
            }
            proof {
                assert(self.registers@ =~= s.next_registers(i as int, rnd));
                assert(self.ram@ == s.next_ram(i as int));
                assert(self.rpl_registers@ == s.next_rpl(i as int));
            }
        } else {
            proof {
                assert(self.ram@ == s.next_ram(i as int));
                assert(self.registers@ == s.next_registers(i as int, rnd));
                assert(self.rpl_registers@ == s.next_rpl(i as int));
            }
        }
    }

    /// `6XNN`, `7XNN` and `CXNN`, with `rnd` the random byte.
    fn exec_set(&mut self, i: u16, rnd: u8, Ghost(s): Ghost<Chirp8>)
        requires
            s.wf(),
            *old(self) == (Chirp8 { pc: s.pc_next() as u16, ..s }),
            op(i as int) == 6 || op(i as int) == 7 || op(i as int) == 0xC,
        ensures
            s.executed(&*final(self), i as int, rnd),
            final(self).wf(),
            final(self).randomizer == old(self).randomizer,
    {
        let opcode = i / 4096;
        let x = ((i / 256) % 16) as usize;
        let nn = (i % 256) as u8;
        if opcode == 6 {
            self.registers[x] = nn;
        } else if opcode == 7 {
            self.registers[x] = self.registers[x].wrapping_add(nn);
        } else {
            self.registers[x] = rnd & nn;
        }
        proof {
            assert(self.registers@ =~= s.next_registers(i as int, rnd));
            assert(self.ram@ == s.next_ram(i as int));
            assert(self.rpl_registers@ == s.next_rpl(i as int));
        }
    }

    /// Sets the flag register to 1.
    fn set_flag(&mut self)
        ensures
            final(self).registers@ == old(self).registers@.update(FLAG_REGISTER_INDEX as int, 1),
            *final(self) == (Chirp8 { registers: final(self).registers, ..*old(self) }),
    {
        self.registers[FLAG_REGISTER_INDEX] = 1;
    }

    /// Sets the flag register to 0.
    fn reset_flag(&mut self)
        ensures
            final(self).registers@ == old(self).registers@.update(FLAG_REGISTER_INDEX as int, 0),
            *final(self) == (Chirp8 { registers: final(self).registers, ..*old(self) }),
    {
        self.registers[FLAG_REGISTER_INDEX] = 0;
    }

    /// The value that `8XYN` writes to `VX`.
    fn alu_result(&self, n: u16, vx: u8, vy: u8) -> (r: u8)
        requires
            self.alu_defined(n as int),
        ensures
            r == self.alu_value(n as int, vx, vy),
    {
        let shifted = if self.quirks.contains(QuirkFlags::SHIFT_X_ONLY) { vx } else { vy };
        match n {
            0 => vy,
            1 => vx | vy,
            2 => vx & vy,
            3 => vx ^ vy,
            4 => vx.wrapping_add(vy),
            5 => vx.wrapping_sub(vy),
            6 => shifted / 2,
            7 => vy.wrapping_sub(vx),
            _ => if shifted < 128 {
                2 * shifted
            } else {
                (2 * shifted as u16 - 256) as u8
            },
        }
    }

    /// The value that `8XYN` then writes to `VF`, if any.
    fn alu_carry(&self, n: u16, vx: u8, vy: u8) -> (r: Option<u8>)
        requires
            self.alu_defined(n as int),
        ensures
            r == self.alu_flag(n as int, vx, vy),
    {
        let shifted = if self.quirks.contains(QuirkFlags::SHIFT_X_ONLY) { vx } else { vy };
        match n {
            1 | 2 | 3 => if self.quirks.contains(QuirkFlags::FLAG_RESET) {
                Some(0)
            } else {
                None
            },
            4 => Some(if vx as u16 + vy as u16 > 255 { 1 } else { 0 }),
            5 => Some(if vx >= vy { 1 } else { 0 }),
            6 => Some(shifted % 2),
            7 => Some(if vy >= vx { 1 } else { 0 }),
            0 => None,
            _ => Some(shifted / 128),
        }
    }

    /// Logic and arithmetic: `8XYN`. The flag register is written last.
    fn exec_alu(&mut self, i: u16, rnd: u8, Ghost(s): Ghost<Chirp8>)
        requires
            s.wf(),
            *old(self) == (Chirp8 { pc: s.pc_next() as u16, ..s }),
            op(i as int) == 8,
        ensures
            s.executed(&*final(self), i as int, rnd),
            final(self).wf(),
            final(self).randomizer == old(self).randomizer,
    {
        let x = ((i / 256) % 16) as usize;
        let y = ((i / 16) % 16) as usize;
        let n = i % 16;
        if n <= 7 || n == 0xE {
            let value = self.alu_result(n, self.registers[x], self.registers[y]);
            let flag = self.alu_carry(n, self.registers[x], self.registers[y]);
            self.registers[x] = value;
            match flag {
                Some(f) => {
                    self.registers[FLAG_REGISTER_INDEX] = f;
                },
                None => {},
            }
        }
        proof {
            assert(self.registers@ =~= s.next_registers(i as int, rnd));
            assert(self.ram@ == s.next_ram(i as int));
            assert(self.rpl_registers@ == s.next_rpl(i as int));
        }
    }
}

impl Chirp8 {
    /// System instructions `0NNN`: clear, return, exit, resolution and scrolls.
    #[verifier::rlimit(40)]
    fn exec_system(&mut self, i: u16, at: u16, rnd: u8, Ghost(s): Ghost<Chirp8>)
        requires
            s.wf(),
            at == s.pc,
            *old(self) == (Chirp8 { pc: s.pc_next() as u16, ..s }),
            op(i as int) == 0,
        ensures
            s.executed(&*final(self), i as int, rnd),
            final(self).wf(),
            final(self).randomizer == old(self).randomizer,
    {
        let nn = i % 256;
        let n = (i % 16) as u8;
        let is_super = super_mode(self.mode);
        if nn == 0xE0 {
            if !self.quirks.contains(QuirkFlags::USE_SEVERAL_PLANES) {
                self.clear_display();
            } else {
                self.clear_planes();
            }
        } else if nn == 0xEE {
            match self.stack.pop() {
                Ok(address) => {
                    self.pc = address;
                },
                Err(_) => {
                    // Stack underflow: the machine stops.
                    self.pc = at;
                    self.halted = true;
                },
            }
        } else if nn == 0xFD && is_super {
            self.reset();
        } else if (nn == 0xFE || nn == 0xFF) && is_super {
            self.high_resolution = nn == 0xFF;
            if self.quirks.contains(QuirkFlags::CLEAR_ON_RES) {
                self.clear_display();
            }
        } else if 0xD0 <= nn && nn <= 0xDF && self.mode == Chirp8Mode::XOChip {
            self.scroll_up(n);
        } else if 0xB0 <= nn && nn <= 0xBF && self.mode == Chirp8Mode::SuperChipModern {
            self.scroll_up(n);
        } else if 0xC0 <= nn && nn <= 0xCF && is_super {
            self.scroll_down(n);
        } else if nn == 0xFB && is_super {
            self.scroll_right(4);
        } else if nn == 0xFC && is_super {
            self.scroll_left(4);
        }
        proof {
            assert(self.ram@ == s.next_ram(i as int));
            assert(self.registers@ =~= s.next_registers(i as int, rnd));
            assert(self.rpl_registers@ == s.next_rpl(i as int));
        }
    }

    /// `DXYN`: draw, or stay on this instruction while the display waits for
    /// the frame boundary.
    fn exec_display(&mut self, i: u16, at: u16, rnd: u8, Ghost(s): Ghost<Chirp8>)
        requires
            s.wf(),
            at == s.pc,
            *old(self) == (Chirp8 { pc: s.pc_next() as u16, ..s }),
            op(i as int) == 0xD,
        ensures
            s.executed(&*final(self), i as int, rnd),
            final(self).wf(),
            final(self).randomizer == old(self).randomizer,
    {
        let x = ((i / 256) % 16) as usize;
        let y = ((i / 16) % 16) as usize;
        let n = (i % 16) as u8;
        let wait_enabled = self.quirks.contains(
            if self.high_resolution { QuirkFlags::DISPLAY_WAIT_HIRES } else { QuirkFlags::DISPLAY_WAIT_LORES },
        );
        if wait_enabled && self.steps_since_frame != 0 {
            self.pc = at;
        } else {
            let vx = self.registers[x];
            let vy = self.registers[y];
            self.handle_display_instruction((vx, vy), n);
        }
        proof {
            assert(self.ram@ == s.next_ram(i as int));
            assert(self.registers@ =~= s.next_registers(i as int, rnd));
            assert(self.rpl_registers@ == s.next_rpl(i as int));
        }
    }
}

impl Chirp8 {
    /// The lowest key just released, between 0 and 15 included, if any.
    fn get_first_key_released(&self) -> (r: Option<u8>)
        ensures
            r == (if self.released_key() == 16 { None } else { Some(self.released_key() as u8) }),
            self.released_key() <= 16,
    {
        let mut k: usize = 0;
        while k < 16
            invariant
                k <= 16,
                self.released_key() == first_released(self.keys, self.keys_previous, k as int),
            decreases 16 - k,
        {
            if self.keys_previous[k] && !self.keys[k] {
                return Some(k as u8);
            }
            k += 1;
        }
        None
    }

    /// `FX__` instructions on the index, the timers, the keys and the planes.
    #[verifier::rlimit(60)]
    fn exec_misc(&mut self, i: u16, at: u16, rnd: u8, Ghost(s): Ghost<Chirp8>)
        requires
            s.wf(),
            at == s.pc,
            *old(self) == (Chirp8 { pc: s.pc_next() as u16, ..s }),
            op(i as int) == 0xF,
            nn(i as int) != 0x33 && nn(i as int) != 0x55 && nn(i as int) != 0x65 && nn(i as int) != 0x75
                && nn(i as int) != 0x85,
        ensures
            s.executed(&*final(self), i as int, rnd),
            final(self).wf(),
            final(self).randomizer == old(self).randomizer,
    {
        let x = ((i / 256) % 16) as usize;
        let nn = i % 256;
        if nn == 0x00 {
            if self.mode == Chirp8Mode::XOChip && x == 0 {
                // The next two bytes are a 16-bit address.
                self.index = self.word_at(self.pc) % (RAM_SIZE as u16);
                self.pc = (self.pc + PROGRAM_COUNTER_STEP) % (RAM_SIZE as u16);
            }
        } else if nn == 0x01 {
            if self.mode == Chirp8Mode::XOChip {
                self.plane_selection = plane_selector_of(x as u8);
            }
        } else if nn == 0x07 {
            self.registers[x] = self.delay_timer;
            assert(self.registers@ =~= s.next_registers(i as int, rnd));
        } else if nn == 0x15 {
            self.delay_timer = self.registers[x];
        } else if nn == 0x18 {
            self.sound_timer = self.registers[x];
        } else if nn == 0x1E {
            let sum = self.index + self.registers[x] as u16;
            if sum >= RAM_SIZE as u16 {
                self.index = sum - RAM_SIZE as u16;
                self.set_flag();
                assert(self.registers@ =~= s.next_registers(i as int, rnd));
            } else {
                self.index = sum;
                assert(self.registers@ =~= s.next_registers(i as int, rnd));
            }
        } else if nn == 0x0A {
            match self.get_first_key_released() {
                Some(key) => {
                    self.registers[x] = key;
                    assert(self.registers@ =~= s.next_registers(i as int, rnd));
                },
                None => {
                    self.pc = at;
                    assert(self.registers@ =~= s.next_registers(i as int, rnd));
                },
            }
        } else if nn == 0x29 {
            self.index = self.registers[x] as u16 * 5;
        } else if nn == 0x30 {
            if super_mode(self.mode) {
                self.index = FONT_SPRITES_HIGH_ADDRESS as u16 + self.registers[x] as u16 * 10;
            }
        }
        proof {
            assert(self.ram@ == s.next_ram(i as int));
            assert(self.registers@ =~= s.next_registers(i as int, rnd));
            assert(self.rpl_registers@ == s.next_rpl(i as int));
        }
    }

    /// `FX33`, `FX55`, `FX65`, `FX75`, `FX85`: memory and RPL registers.
    #[verifier::rlimit(60)]
    fn exec_memory(&mut self, i: u16, rnd: u8, Ghost(s): Ghost<Chirp8>)
        requires
            s.wf(),
            *old(self) == (Chirp8 { pc: s.pc_next() as u16, ..s }),
            op(i as int) == 0xF,
            nn(i as int) == 0x33 || nn(i as int) == 0x55 || nn(i as int) == 0x65 || nn(i as int) == 0x75
                || nn(i as int) == 0x85,
        ensures
            s.executed(&*final(self), i as int, rnd),
            final(self).wf(),
            final(self).randomizer == old(self).randomizer,
    {
        let x = ((i / 256) % 16) as usize;
        let nn = i % 256;
        let base = self.index as usize;
        if nn == 0x33 {
            // Binary-coded decimal conversion.
            let value = self.registers[x];
            self.ram[base] = value / 100;
            self.ram[(base + 1) % RAM_SIZE] = (value % 100) / 10;
            self.ram[(base + 2) % RAM_SIZE] = value % 10;
            proof {
                assert forall|a: int| 0 <= a < RAM_SIZE implies #[trigger] self.ram@[a] == s.next_ram(i as int)[a] by {
                    lemma_offset(base as int, 0, a);
                    lemma_offset(base as int, 1, a);
                    lemma_offset(base as int, 2, a);
                }
                assert(self.ram@ =~= s.next_ram(i as int));
            }
        } else if nn == 0x55 {
            let mut j: usize = 0;
            while j <= x
                invariant
                    x < 16,
                    j <= x + 1,
                    base == s.index,
                    base < RAM_SIZE,
                    *self == (Chirp8 { ram: self.ram, ..*old(self) }),
                    self.registers == s.registers,
                    forall|a: int| 0 <= a < RAM_SIZE ==> #[trigger] self.ram[a] == (if (a - base) % 4096 < j {
                        s.registers[(a - base) % 4096]
                    } else {
                        s.ram[a]
                    }),
                decreases x + 1 - j,
            {
                let ghost before = self.ram;
                self.ram[(base + j) % RAM_SIZE] = self.registers[j];
                proof {
                    assert forall|a: int| 0 <= a < RAM_SIZE implies #[trigger] self.ram[a] == (if (a - base) % 4096
                        < j + 1 {
                        s.registers[(a - base) % 4096]
                    } else {
                        s.ram[a]
                    }) by {
                        lemma_offset(base as int, j as int, a);
                        if a == (base + j) % 4096 {
                            assert(self.ram[a] == s.registers[j as int]);
                        } else {
                            assert(self.ram[a] == before[a]);
                        }
                    }
                }
                j += 1;
            }
            if self.quirks.contains(QuirkFlags::INC_INDEX) {
                self.index = ((base + x + 1) % RAM_SIZE) as u16;
            }
            proof {
                assert(self.ram@ =~= s.next_ram(i as int));
            }
        } else if nn == 0x65 {
            let mut j: usize = 0;
            while j <= x
                invariant
                    x < 16,
                    j <= x + 1,
                    base == s.index,
                    base < RAM_SIZE,
                    *self == (Chirp8 { registers: self.registers, ..*old(self) }),
                    self.ram == s.ram,
                    forall|k: int| 0 <= k < REGISTERS_COUNT ==> #[trigger] self.registers[k] == (if k < j {
                        s.ram[(base + k) % 4096]
                    } else {
                        s.registers[k]
                    }),
                decreases x + 1 - j,
            {
                self.registers[j] = self.ram[(base + j) % RAM_SIZE];
                j += 1;
            }
            if self.quirks.contains(QuirkFlags::INC_INDEX) {
                self.index = ((base + x + 1) % RAM_SIZE) as u16;
            }
        } else if super_mode(self.mode) {
            let count = if self.mode == Chirp8Mode::XOChip { x + 1 } else { x % 8 + 1 };
            let mut j: usize = 0;
            if nn == 0x75 {
                while j < count
                    invariant
                        count == rpl_count(s.mode, x as int),
                        count <= 16,
                        j <= count,
                        *self == (Chirp8 { rpl_registers: self.rpl_registers, ..*old(self) }),
                        self.registers == s.registers,
                        forall|k: int| 0 <= k < RPL_REGISTERS_COUNT ==> #[trigger] self.rpl_registers[k] == (if k
                            < j { s.registers[k] } else { s.rpl_registers[k] }),
                    decreases count - j,
                {
                    self.rpl_registers[j] = self.registers[j];
                    j += 1;
                }
                proof {
                    assert(self.rpl_registers@ =~= s.next_rpl(i as int));
                }
            } else {
                while j < count
                    invariant
                        count == rpl_count(s.mode, x as int),
                        count <= 16,
                        j <= count,
                        *self == (Chirp8 { registers: self.registers, ..*old(self) }),
                        self.rpl_registers == s.rpl_registers,
                        forall|k: int| 0 <= k < REGISTERS_COUNT ==> #[trigger] self.registers[k] == (if k < j {
                            s.rpl_registers[k]
                        } else {
                            s.registers[k]
                        }),
                    decreases count - j,
                {
                    self.registers[j] = self.rpl_registers[j];
                    j += 1;
                }
            }
        }
        proof {
            assert(self.ram@ =~= s.next_ram(i as int));
            assert(self.registers@ =~= s.next_registers(i as int, rnd));
            assert(self.rpl_registers@ =~= s.next_rpl(i as int));
        }
    }
}

/// `t` after a frame tick: one less, saturating at zero, when the frame ends.
pub open spec fn decremented(t: u8, frame_ends: bool) -> u8 {
    if frame_ends && t > 0 {
        (t - 1) as u8
    } else {
        t
    }
}

impl Chirp8 {
    /// Whether the step about to be taken ends the frame.
    pub open spec fn frame_ends(&self) -> bool {
        self.steps_since_frame + 1 >= self.steps_per_frame
    }

    /// The in-frame step counter after this step.
    pub open spec fn ticked(&self) -> usize {
        if self.frame_ends() {
            0
        } else {
            (self.steps_since_frame + 1) as usize
        }
    }

    /// `after` is this machine after one step, with `rnd` the random byte for
    /// `CXNN`: the instruction executes (a halted machine executes none), the
    /// step is counted unless it idled or faulted, the frame ticks, and the
    /// keys are remembered.
    pub open spec fn stepped(&self, after: &Chirp8, rnd: u8) -> bool {
        let i = self.instruction();
        let fe = self.frame_ends();
        if self.halted {
            *after == (Chirp8 {
                steps_since_frame: self.ticked(),
                delay_timer: decremented(self.delay_timer, fe),
                sound_timer: decremented(self.sound_timer, fe),
                keys_previous: self.keys,
                ..*self
            })
        } else {
            let faults = self.stack_faults(i);
            let delay = if faults { self.delay_timer } else { self.next_delay(i) };
            let sound = if faults { self.sound_timer } else { self.next_sound(i) };
            let counted = !faults && !self.idles(i);
            &&& self.executed(
                &(Chirp8 {
                    steps: self.steps,
                    steps_since_frame: self.steps_since_frame,
                    delay_timer: delay,
                    sound_timer: sound,
                    keys_previous: self.keys_previous,
                    ..*after
                }),
                i,
                rnd,
            )
            &&& after.steps == (if !counted {
                self.steps
            } else if self.steps == usize::MAX {
                0
            } else {
                (self.steps + 1) as usize
            })
            &&& after.steps_since_frame == self.ticked()
            &&& after.delay_timer == decremented(delay, fe)
            &&& after.sound_timer == decremented(sound, fe)
            &&& after.keys_previous == self.keys
        }
    }

    /// `b` is reached from `a` in `n` steps.
    pub open spec fn reaches(a: Chirp8, b: Chirp8, n: nat) -> bool
        decreases n,
    {
        if n == 0 {
            a == b
        } else {
            exists|m: Chirp8, rnd: u8| Self::reaches(a, m, (n - 1) as nat) && #[trigger] m.stepped(&b, rnd)
        }
    }

    /// Executes instruction `instruction`, fetched at the program counter, and
    /// returns whether the step counts.
    fn execute(&mut self, instruction: u16, random: u8) -> (counted: bool)
        requires
            old(self).wf(),
            !old(self).halted,
            instruction as int == old(self).instruction(),
        ensures
            old(self).executed(&*final(self), instruction as int, random),
            final(self).wf(),
            final(self).randomizer == old(self).randomizer,
            counted == !(old(self).idles(instruction as int) || old(self).stack_faults(instruction as int)),
    {
        let ghost s = *self;
        let i = instruction;
        let at = self.pc;
        let opcode = i / 4096;
        let nn = i % 256;
        let idle = if opcode == 0xD {
            self.quirks.contains(
                if self.high_resolution { QuirkFlags::DISPLAY_WAIT_HIRES } else { QuirkFlags::DISPLAY_WAIT_LORES },
            ) && self.steps_since_frame != 0
        } else if opcode == 0xF && nn == 0x0A {
            match self.get_first_key_released() {
                Some(_) => false,
                None => true,
            }
        } else {
            false
        };
        self.pc = (self.pc + PROGRAM_COUNTER_STEP) % (RAM_SIZE as u16);
        if opcode == 0 {
            self.exec_system(i, at, random, Ghost(s));
        } else if opcode == 1 || opcode == 2 || opcode == 0xA || opcode == 0xB {
            self.exec_flow(i, at, random, Ghost(s));
        } else if opcode == 3 || opcode == 4 || opcode == 9 || opcode == 0xE {
            self.exec_skip(i, random, Ghost(s));
        } else if opcode == 5 {
            self.exec_five(i, random, Ghost(s));
        } else if opcode == 6 || opcode == 7 || opcode == 0xC {
            self.exec_set(i, random, Ghost(s));
        } else if opcode == 8 {
            self.exec_alu(i, random, Ghost(s));
        } else if opcode == 0xD {
            self.exec_display(i, at, random, Ghost(s));
        } else if nn == 0x33 || nn == 0x55 || nn == 0x65 || nn == 0x75 || nn == 0x85 {
            self.exec_memory(i, random, Ghost(s));
        } else {
            self.exec_misc(i, at, random, Ghost(s));
        }
        !idle && !self.halted
    }

    /// Ticks the frame counter, and decrements the timers when a frame ends.
    fn step_timers(&mut self)
        requires
            old(self).steps_since_frame == 0 || old(self).steps_since_frame < old(self).steps_per_frame,
        ensures
            *final(self) == (Chirp8 {
                steps_since_frame: old(self).ticked(),
                delay_timer: decremented(old(self).delay_timer, old(self).frame_ends()),
                sound_timer: decremented(old(self).sound_timer, old(self).frame_ends()),
                ..*old(self)
            }),
    {
        self.steps_since_frame += 1;
        if self.steps_since_frame >= self.steps_per_frame {
            self.steps_since_frame = 0;
            self.delay_timer = self.delay_timer.saturating_sub(1);
            self.sound_timer = self.sound_timer.saturating_sub(1);
        }
    }

    /// Executes one instruction with `random` as the random byte of `CXNN`,
    /// then ticks the frame and the timers.
    pub fn step_with_random(&mut self, random: u8)
        requires
            old(self).wf(),
        ensures
            final(self).wf(),
            old(self).stepped(&*final(self), random),
            final(self).randomizer == old(self).randomizer,
    {
        if self.halted {
            self.step_timers();
            self.keys_previous = self.keys;
            return;
        }
        let instruction = self.next_instruction();
        let counted = self.execute(instruction, random);
        if counted {
            self.steps = self.steps.wrapping_add(1);
        }
        self.step_timers();
        self.keys_previous = self.keys;
    }

    /// Executes one machine instruction and decrements the timers when a frame
    /// ends. While the interpreter idles (display wait, key wait) the step is
    /// not counted.
    pub fn step(&mut self)
        requires
            old(self).wf(),
        ensures
            final(self).wf(),
            exists|rnd: u8| old(self).stepped(&*final(self), rnd),
    {
        let ghost s = *self;
        let random: u8 = if !self.halted && self.next_instruction() / 4096 == 0xC {
            let value = next_random(&mut self.randomizer);
            #[verifier::truncate] (value as u8)
        } else {
            0
        };
        let ghost mid = *self;
        self.step_with_random(random);
        proof {
            assert(mid == (Chirp8 { randomizer: mid.randomizer, ..s }));
            assert(s.instruction() == mid.instruction());
            assert(s.stepped(&*self, random));
        }
    }
}

/// With the keys as they were at the last step, no key was just released.
proof fn lemma_steady_keys(keys: [bool; 16], k: int)
    requires
        0 <= k,
    ensures
        first_released(keys, keys, k) == 16,
    decreases 16 - k,
{
    if k < 16 {
        lemma_steady_keys(keys, k + 1);
    }
}

/// A step that counts nothing and leaves the machine neither halted nor
/// waiting for a key is a display wait: it comes inside a frame, and ticks it.
#[verifier::rlimit(60)]
proof fn lemma_uncounted_step(a: Chirp8, b: Chirp8, rnd: u8)
    requires
        a.wf(),
        a.stepped(&b, rnd),
        b.steps == a.steps,
        !b.halted,
        !b.key_waits(b.instruction()),
    ensures
        a.steps_since_frame != 0,
        b.steps_since_frame == a.ticked(),
        b.steps_per_frame == a.steps_per_frame,
{
    let i = a.instruction();
    if !a.halted {
        assert(!a.stack_faults(i));
        assert(a.idles(i));
        if a.key_waits(i) {
            assert(b.pc == a.pc);
            assert(b.ram@ == a.ram@);
            assert(b.instruction() == i);
            assert(b.keys_previous == a.keys);
            assert(b.keys == a.keys);
            lemma_steady_keys(a.keys, 0);
            assert(b.key_waits(b.instruction()));
        }
    }
}

/// A step ticks the in-frame counter and keeps the frame length.
proof fn lemma_step_ticks(a: Chirp8, b: Chirp8, rnd: u8)
    requires
        a.stepped(&b, rnd),
    ensures
        b.steps_since_frame == a.ticked(),
        b.steps_per_frame == a.steps_per_frame,
{
}

/// A path of `n` steps extended by one step is a path of `n + 1` steps.
proof fn lemma_reaches_step(a: Chirp8, m: Chirp8, b: Chirp8, n: nat, rnd: u8)
    requires
        Chirp8::reaches(a, m, n),
        m.stepped(&b, rnd),
    ensures
        Chirp8::reaches(a, b, n + 1),
{
    assert(Chirp8::reaches(a, m, ((n + 1) - 1) as nat));
}

impl Chirp8 {
    /// Number of steps that complete the current frame, none when it has not started.
    pub open spec fn rest_of_frame(&self) -> nat {
        if self.steps_since_frame == 0 {
            0
        } else {
            (self.steps_per_frame - self.steps_since_frame) as nat
        }
    }

    /// Number of steps that `run_frame` takes: at least one.
    pub open spec fn frame_length(&self) -> nat {
        if self.steps_per_frame == 0 {
            1
        } else {
            (self.steps_per_frame - self.steps_since_frame) as nat
        }
    }

    /// Runs as many instructions as necessary to complete a frame: steps until
    /// the in-frame step counter wraps back to zero.
    pub fn run_frame(&mut self)
        requires
            old(self).wf(),
        ensures
            final(self).wf(),
            final(self).steps_since_frame == 0,
            Self::reaches(*old(self), *final(self), old(self).frame_length()),
    {
        let ghost start = *self;
        let ghost mut k: nat = 0;
        loop
            invariant_except_break
                self.steps_since_frame == start.steps_since_frame + k,
            invariant
                self.wf(),
                Self::reaches(start, *self, k),
                self.steps_per_frame == start.steps_per_frame,
                start.wf(),
            ensures
                self.steps_since_frame == 0,
                k == start.frame_length(),
                Self::reaches(start, *self, k),
            decreases self.steps_per_frame - self.steps_since_frame,
        {
            let ghost prev = *self;
            self.step();
            proof {
                let rnd = choose|r: u8| prev.stepped(&*self, r);
                lemma_reaches_step(start, prev, *self, k, rnd);
                lemma_step_ticks(prev, *self, rnd);
                k = k + 1;
            }
            if self.steps_since_frame == 0 {
                break;
            }
        }
    }

    /// Whether the machine waits on `FX0A` with no key just released.
    fn waits_for_key(&self) -> (r: bool)
        requires
            self.wf(),
        ensures
            r == self.key_waits(self.instruction()),
    {
        let i = self.next_instruction();
        if i / 4096 == 0xF && i % 256 == 0x0A {
            match self.get_first_key_released() {
                Some(_) => false,
                None => true,
            }
        } else {
            false
        }
    }

    /// Takes steps until `steps` of them have been counted, and returns true.
    /// Returns false early only when the machine is halted, or waits on `FX0A`
    /// with no key released: no further step would be counted.
    pub fn take_steps(&mut self, steps: usize) -> (done: bool)
        requires
            old(self).wf(),
        ensures
            final(self).wf(),
            exists|n: nat| #[trigger] Self::reaches(*old(self), *final(self), n),
            done ==> final(self).steps as int == (old(self).steps as int + steps as int) % (usize::MAX as int
                + 1),
            !done ==> final(self).halted || final(self).key_waits(final(self).instruction()),
            steps == 0 ==> done && *final(self) == *old(self),
    {
        let ghost start = *self;
        let ghost mut k: nat = 0;
        let mut counted: usize = 0;
        let ghost modulus: int = usize::MAX as int + 1;
        proof {
            lemma_small_mod(start.steps as nat, modulus as nat);
        }
        while counted < steps
            invariant
                self.wf(),
                Self::reaches(start, *self, k),
                self.steps_per_frame == start.steps_per_frame,
                counted <= steps,
                steps == 0 ==> k == 0,
                start == *old(self),
                modulus == usize::MAX as int + 1,
                self.steps as int == (start.steps as int + counted as int) % modulus,
            decreases steps - counted, if self.steps_since_frame == 0 {
                0
            } else {
                self.steps_per_frame - self.steps_since_frame
            },
        {
            let before = self.steps;
            let ghost prev = *self;
            self.step();
            let ghost rnd = choose|r: u8| prev.stepped(&*self, r);
            proof {
                lemma_reaches_step(start, prev, *self, k, rnd);
                k = k + 1;
            }
            if self.steps != before {
                proof {
                    if before == usize::MAX {
                        assert(modulus % modulus == 0) by {
                            lemma_mod_self_0(modulus);
                        }
                    } else {
                        lemma_small_mod((before + 1) as nat, modulus as nat);
                    }
                    assert(self.steps as int == (before as int + 1) % modulus);
                    lemma_small_mod(1, modulus as nat);
                    lemma_add_mod_noop(start.steps as int + counted as int, 1, modulus);
                }
                counted += 1;
            } else {
                if self.halted || self.waits_for_key() {
                    assert(Self::reaches(start, *self, k));
                    return false;
                }
                proof {
                    lemma_uncounted_step(prev, *self, rnd);
                }
            }
        }
        assert(Self::reaches(start, *self, k));
        true
    }

    /// Completes the current frame, then sets the number of steps per frame.
    pub fn set_steps_per_frame(&mut self, steps: usize)
        requires
            old(self).wf(),
        ensures
            final(self).wf(),
            final(self).steps_since_frame == 0,
            final(self).steps_per_frame == steps,
            exists|m: Chirp8| #[trigger] Self::reaches(*old(self), m, old(self).rest_of_frame())
                && *final(self) == (Chirp8 { steps_per_frame: steps, ..m }),
    {
        let ghost start = *self;
        if self.steps_since_frame != 0 {
            self.run_frame();
        }
        let ghost m = *self;
        self.steps_per_frame = steps;
        assert(Self::reaches(start, m, start.rest_of_frame()));
    }
}

impl Default for Chirp8 {
    /// A Cosmac VIP Chip-8 emulator.
    fn default() -> (r: Chirp8)
        ensures
            r.fresh(
                Chirp8Mode::CosmacChip8,
                QuirkFlags { bits: QuirkFlags::preset_bits(Chirp8Mode::CosmacChip8) },
            ),
    {
        Chirp8::new(Chirp8Mode::CosmacChip8)
    }
}

} // verus!
