//! Send a WAV recording through the Opus codec and back, and keep the result in files that any
//! player opens.
//!
//! The codec, the files and the floating-point arithmetic are the caller's. What is here are
//! the two containers, byte for byte; the decisions in between, as machines that say what is
//! to be done next and are told what came of it; and the counting behind the measurements.

use vstd::prelude::*;

pub mod args;
pub mod bytes;
pub mod clip;
pub mod compare;
pub mod crc;
pub mod delay;
pub mod demux;
pub mod job;
pub mod job_laws;
pub mod ogg;
pub mod ogg_laws;
pub mod plan;
pub mod report;
pub mod signals;
pub mod spectrum;
pub mod text;
pub mod trial;
pub mod trial_laws;
pub mod trip;
pub mod trip_laws;
pub mod wav;
pub mod wav_laws;

verus! {

} // verus!
