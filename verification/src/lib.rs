//! Lenia cellular automata: mass-conserving multi-channel worlds, their GPU
//! pipelines, their arithmetic and their sound.
//!
//! Arithmetic is written against the [`scalar::Real`] trait, so one body serves
//! every floating-point width of the host; GPU work is recorded as plain
//! descriptions ([`gpu::Device`], [`gpu::Queue`]) that a host replays.

use vstd::prelude::*;

pub mod analysis;
pub mod audio;
pub mod bytes;
pub mod complex;
pub mod connectivity;
pub mod creature;
pub mod dataflow;
pub mod downloads;
pub mod exact;
pub mod field;
pub mod fl;
pub mod flow;
pub mod frame;
pub mod gpu;
pub mod gpu_flow_dataflow;
pub mod gpu_flow_lenia;
pub mod mace;
pub mod memory;
pub mod ml;
pub mod names;
pub mod peopling;
pub mod pictures;
pub mod runs;
pub mod sample;
pub mod sample_shapes;
pub mod scalar;
pub mod settlement;
pub mod twiddle;
pub mod uploads;

verus! {

} // verus!
