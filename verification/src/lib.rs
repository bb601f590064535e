//! Per-chunk loudness profiles of a sample buffer.
//!
//! A buffer is cut into consecutive chunks of a fixed number of samples, the
//! last one holding what is left, and each chunk is measured on its own: a
//! reducer turns the chunk into an amplitude and a converter turns the
//! amplitude into a level. The levels, in chunk order, are the profile.
//!
//! The library never looks inside a sample, an amplitude or a level, so it is
//! generic in all three and takes the two stages as arguments. For PCM audio
//! the reducer is the root mean square of the chunk and the converter maps it
//! to decibels relative to full scale.
//!
//! The geometry of the cut lives in [`partition`]; the walk over the chunks
//! and the assembly of the profile live in [`profile`].

pub mod partition;
pub mod profile;

pub use partition::num_chunks;
pub use profile::analyze_audio_rms;
