//! Continuous recording of microphone and system audio, cut into short, encoded,
//! timestamped segments.
//!
//! Captured frames travel from the audio thread through a [`ring`] to the worker, which
//! resamples ([`resample`]), mixes ([`mix`]) or keeps the sources apart, cuts fixed-length
//! windows and places them on the wall clock ([`pipeline`]), asks whether anything is to be
//! heard in them ([`vad`]), encodes ([`encode`], [`opus`]) and numbers those that are kept.
//! [`worker`] holds all of it between two ticks, and [`rounds`] says what holds of a whole
//! session.
//!
//! Samples and levels are floating-point numbers, on which nothing is proved here: they are
//! type parameters, and the arithmetic on them is handed in as functions.

mod buffer;
pub mod calendar;
pub mod capture;
pub mod config;
pub mod converter;
pub mod double;
pub mod encode;
pub mod error;
pub mod mix;
pub mod opus;
pub mod pipeline;
pub mod recording;
pub mod resample;
pub mod ring;
pub mod sample;
pub mod rounds;
pub mod segment;
pub mod segmenter;
pub mod source;
pub mod span;
pub mod tap;
pub mod timestamp;
pub mod vad;
pub mod worker;

pub use config::{Activity, Config, Format, Source};
pub use error::Error;
pub use segment::{Segment, Track};
pub use tap::Frames;
