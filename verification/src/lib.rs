//! Monophonic pitch detection, and what a tuner makes of it.
//!
//! The detector estimates the fundamental of a window of samples by the McLeod
//! pitch method. Around it stand the window of recent samples, the smoothed pitch
//! history and its plot, the target note and its reference tone, and an analyzer
//! that grades the detector on a recording.
//!
//! Samples and pitches are singles held as bit patterns. The operations on them
//! come from an implementation of [`arith::Arithmetic`]; comparing, rounding and
//! everything decided by them is done, and proved, here.
pub mod analysis;
pub mod arith;
pub mod cadence;
pub mod histogram;
pub mod history;
pub mod loudness;
pub mod notes;
pub mod order;
pub mod peak;
pub mod pitch;
pub mod plot;
pub mod reference;
pub mod rounding;
pub mod scale;
pub mod shared;
pub mod signal;
pub mod single;
pub mod tone;
pub mod wav;

pub use notes::{hz_to_midi, note_name, NOTE_NAMES};
pub use pitch::{detect_pitch, FRAME_SIZE};
pub use shared::Shared;
pub use single::Single;
pub use tone::Tone;
