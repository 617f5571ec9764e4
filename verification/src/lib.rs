//! A compiler and synthesis planner for symbolic piano scores.
//!
//! A score arrives as a symbolic tree (atoms and nested lists). The
//! notation module compiles it into a `Sheet`: two tracks of notes whose
//! pitches are resolved to exact symbolic frequencies (octave-table index,
//! octave shift, semitone sharps) under the clef and accidental context in
//! force when each note was read. The build module places every note on a
//! sample-exact time axis at a fixed tempo and sample rate, and the
//! soundprim module gives the elementwise signal algebra (product,
//! superposition, delay) together with the PCM sample codec.

pub mod builder;
pub mod frac;
pub mod notation;
pub mod notes;
pub mod sexp;
pub mod soundprim;
