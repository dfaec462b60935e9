//! BRSTM: a library for the looped, block-interleaved audio container used on
//! the Wii. It parses and re-serializes container files byte-exactly, encodes
//! 16-bit PCM into GC-DSP ADPCM packets, decodes them back, and reshapes the
//! tracks and channels of a parsed container.

use vstd::prelude::*;

pub mod bytes;
pub mod structs;
pub mod gc_dspadpcm;
pub mod brstm;
pub mod reshaper;
pub mod track_reshaper;
pub mod encoder;
pub mod songs;
pub mod wav;

verus! {

/// Source reference for one output track of a track-level reshape: either a
/// track index of the original container or a silent filler track.
#[derive(Debug, Clone, Copy, PartialEq, Eq, Structural)]
pub enum ReshapeSrc {
    Track(u8),
    Empty,
}

} // verus!
