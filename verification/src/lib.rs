//! Protocol decoders for waveform signals and the small text utilities they share.

pub mod decoders;
pub mod text;
pub mod wave_container;
pub mod memory_viewer;
pub mod translator_names;
pub mod translation;
