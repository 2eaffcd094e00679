//! A MIDI pattern sequencer core: exact rational durations, a compact pattern
//! language, a sample-accurate scheduler and the per-cycle coordinator that
//! drives it.
pub mod controller;
pub mod dsl;
pub mod dur;
pub mod host;
pub mod lex;
pub mod numbers;
pub mod parse;
pub mod pattern;
pub mod playback;
pub mod plugin;
pub mod precise;
pub mod scales;
