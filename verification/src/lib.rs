//! Sampling and reporting of system load figures (CPU, GPU, memory, network),
//! with the text handling and arithmetic of the monitor verified.

pub mod text;
pub mod io;
pub mod unit_types;
pub mod ram;
pub mod cpu;
pub mod result;
pub mod network;
pub mod gpu;
pub mod profiler;

use vstd::prelude::*;

verus! {

/// Seconds that a sampling window spans.
pub const BUFFER: u16 = 4;

/// Samples kept per window.
pub const ITER: u16 = 40;

/// Microseconds between two samples: `BUFFER` seconds spread over `ITER` samples.
pub const STEP: u64 = 100_000;

/// Whether the sampling loop times itself.
pub const PROFILING: bool = true;

/// How long the sampling loop sleeps after a pass that took `delta` microseconds:
/// what is left of `STEP`, or nothing once `STEP` is used up.
pub fn sleep_micros(delta: u64) -> (pause: u64)
    ensures
        pause == if delta < STEP { STEP - delta } else { 0 },
{
    let used = if delta < STEP { delta } else { STEP };
    STEP - used
}

} // verus!
