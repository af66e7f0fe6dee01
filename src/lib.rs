pub mod chirp8;
pub mod display;
pub mod laws;
pub mod quirks;
mod rng;
pub mod stack;

pub use chirp8::{
    repeat_bits, Chirp8, Chirp8Mode, AUDIO_BUFFER_SIZE, FLAG_REGISTER_INDEX, PIXEL_OFF, PIXEL_ON,
    PIXEL_STEP, PROGRAM_SIZE, PROGRAM_START, REFRESH_RATE_HZ, RPL_REGISTERS_COUNT, STACK_SIZE,
};
pub use display::{DisplayBuffer, DISPLAY_HEIGHT, DISPLAY_WIDTH};
pub use quirks::QuirkFlags;
pub use stack::{Stack, StackError};
