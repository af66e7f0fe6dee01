use vstd::prelude::*;

use crate::chirp8::Chirp8Mode;

verus! {

/// Set of deviations from the Cosmac VIP Chip-8 language, one bit per quirk.
#[derive(Debug, Clone, Copy, PartialEq, Eq, Structural)]
pub struct QuirkFlags {
    pub bits: u16,
}

/// The AND, OR and XOR opcodes (8xy1, 8xy2 and 8xy3) reset the flags register to zero.
pub const FLAG_RESET_BIT: u16 = 1 << 0;
/// The save and load opcodes (Fx55 and Fx65) increment the index register.
pub const INC_INDEX_BIT: u16 = 1 << 1;
/// Drawing sprites waits for the vertical blank interrupt in low-resolution.
pub const DISPLAY_WAIT_LORES_BIT: u16 = 1 << 2;
/// Drawing sprites waits for the vertical blank interrupt in high-resolution.
pub const DISPLAY_WAIT_HIRES_BIT: u16 = 1 << 3;
/// Sprites drawn in low-resolution are clipped at the screen edges instead of wrapping.
pub const CLIP_SPRITES_LORES_BIT: u16 = 1 << 4;
/// Sprites drawn in high-resolution are clipped at the screen edges instead of wrapping.
pub const CLIP_SPRITES_HIRES_BIT: u16 = 1 << 5;
/// The shift opcodes (8xy6 and 8xyE) shift vX in place instead of shifting vY into vX.
pub const SHIFT_X_ONLY_BIT: u16 = 1 << 6;
/// The jump with offset opcode (BNNN) jumps to NNN + vX instead of NNN + v0.
pub const JUMP_XNN_BIT: u16 = 1 << 7;
/// The program memory is filled with random bytes at start.
pub const RAM_RANDOM_BIT: u16 = 1 << 8;
/// The screen is cleared when switching between low and high resolution.
pub const CLEAR_ON_RES_BIT: u16 = 1 << 9;
/// In low-resolution, VF counts colliding or clipped rows instead of being 0 or 1.
pub const COLLISION_COUNT_LORES_BIT: u16 = 1 << 10;
/// In high-resolution, VF counts colliding or clipped rows instead of being 0 or 1.
pub const COLLISION_COUNT_HIRES_BIT: u16 = 1 << 11;
/// The display has more than one plane (2 on XO-Chip).
pub const USE_SEVERAL_PLANES_BIT: u16 = 1 << 12;
/// The scroll opcodes scroll by half pixels in low-resolution.
pub const SCROLL_HALF_PIXEL_BIT: u16 = 1 << 13;
/// Every defined quirk bit.
pub const ALL_QUIRK_BITS: u16 = 0x3FFF;

impl QuirkFlags {
    pub const FLAG_RESET: u16 = FLAG_RESET_BIT;
    pub const INC_INDEX: u16 = INC_INDEX_BIT;
    pub const DISPLAY_WAIT_LORES: u16 = DISPLAY_WAIT_LORES_BIT;
    pub const DISPLAY_WAIT_HIRES: u16 = DISPLAY_WAIT_HIRES_BIT;
    pub const CLIP_SPRITES_LORES: u16 = CLIP_SPRITES_LORES_BIT;
    pub const CLIP_SPRITES_HIRES: u16 = CLIP_SPRITES_HIRES_BIT;
    pub const SHIFT_X_ONLY: u16 = SHIFT_X_ONLY_BIT;
    pub const JUMP_XNN: u16 = JUMP_XNN_BIT;
    pub const RAM_RANDOM: u16 = RAM_RANDOM_BIT;
    pub const CLEAR_ON_RES: u16 = CLEAR_ON_RES_BIT;
    pub const COLLISION_COUNT_LORES: u16 = COLLISION_COUNT_LORES_BIT;
    pub const COLLISION_COUNT_HIRES: u16 = COLLISION_COUNT_HIRES_BIT;
    pub const USE_SEVERAL_PLANES: u16 = USE_SEVERAL_PLANES_BIT;
    pub const SCROLL_HALF_PIXEL: u16 = SCROLL_HALF_PIXEL_BIT;

    /// Whether every quirk of `flags` is set in `self`.
    pub open spec fn has(self, flags: u16) -> bool {
        self.bits & flags == flags
    }

    /// The set with no quirk.
    pub fn empty() -> (r: QuirkFlags)
        ensures
            r.bits == 0,
    {
        QuirkFlags { bits: 0 }
    }

    /// The set made of the defined quirks among `bits`.
    pub fn from_bits_truncate(bits: u16) -> (r: QuirkFlags)
        ensures
            r.bits == bits & ALL_QUIRK_BITS,
    {
        QuirkFlags { bits: bits & ALL_QUIRK_BITS }
    }

    /// The raw bits of the set.
    pub fn bits(&self) -> (r: u16)
        ensures
            r == self.bits,
    {
        self.bits
    }

    /// Whether every quirk of `flags` is set in `self`.
    pub fn contains(&self, flags: u16) -> (r: bool)
        ensures
            r == self.has(flags),
    {
        self.bits & flags == flags
    }

    /// Adds the quirks of `flags` to `self`.
    pub fn insert(&mut self, flags: u16)
        ensures
            final(self).bits == old(self).bits | (flags & ALL_QUIRK_BITS),
    {
        self.bits = self.bits | (flags & ALL_QUIRK_BITS);
    }

    /// Removes the quirks of `flags` from `self`.
    pub fn remove(&mut self, flags: u16)
        ensures
            final(self).bits == old(self).bits & !flags,
    {
        self.bits = self.bits & !flags;
    }

    /// The quirks of the preset for `mode`.
    pub open spec fn preset_bits(mode: Chirp8Mode) -> u16 {
        match mode {
            Chirp8Mode::CosmacChip8 => FLAG_RESET_BIT | INC_INDEX_BIT | DISPLAY_WAIT_LORES_BIT
                | CLIP_SPRITES_LORES_BIT,
            Chirp8Mode::SuperChip1_1 => DISPLAY_WAIT_LORES_BIT | CLIP_SPRITES_LORES_BIT
                | CLIP_SPRITES_HIRES_BIT | SHIFT_X_ONLY_BIT | JUMP_XNN_BIT | RAM_RANDOM_BIT
                | COLLISION_COUNT_LORES_BIT | COLLISION_COUNT_HIRES_BIT | SCROLL_HALF_PIXEL_BIT,
            Chirp8Mode::SuperChipModern => CLIP_SPRITES_LORES_BIT | CLIP_SPRITES_HIRES_BIT
                | SHIFT_X_ONLY_BIT | JUMP_XNN_BIT | CLEAR_ON_RES_BIT | COLLISION_COUNT_LORES_BIT
                | COLLISION_COUNT_HIRES_BIT,
            Chirp8Mode::XOChip => INC_INDEX_BIT | USE_SEVERAL_PLANES_BIT,
        }
    }

    /// Creates the quirks configuration corresponding to given preset.
    pub fn from_mode(mode: Chirp8Mode) -> (r: QuirkFlags)
        ensures
            r.bits == Self::preset_bits(mode),
    {
        let bits = match mode {
            Chirp8Mode::CosmacChip8 => QuirkFlags::FLAG_RESET | QuirkFlags::INC_INDEX
                | QuirkFlags::DISPLAY_WAIT_LORES | QuirkFlags::CLIP_SPRITES_LORES,
            Chirp8Mode::SuperChip1_1 => QuirkFlags::DISPLAY_WAIT_LORES
                | QuirkFlags::CLIP_SPRITES_LORES | QuirkFlags::CLIP_SPRITES_HIRES
                | QuirkFlags::SHIFT_X_ONLY | QuirkFlags::JUMP_XNN | QuirkFlags::RAM_RANDOM
                | QuirkFlags::COLLISION_COUNT_LORES | QuirkFlags::COLLISION_COUNT_HIRES
                | QuirkFlags::SCROLL_HALF_PIXEL,
            Chirp8Mode::SuperChipModern => QuirkFlags::CLIP_SPRITES_LORES
                | QuirkFlags::CLIP_SPRITES_HIRES | QuirkFlags::SHIFT_X_ONLY
                | QuirkFlags::JUMP_XNN | QuirkFlags::CLEAR_ON_RES
                | QuirkFlags::COLLISION_COUNT_LORES | QuirkFlags::COLLISION_COUNT_HIRES,
            Chirp8Mode::XOChip => QuirkFlags::INC_INDEX | QuirkFlags::USE_SEVERAL_PLANES,
        };
        QuirkFlags { bits }
    }
}

} // verus!
