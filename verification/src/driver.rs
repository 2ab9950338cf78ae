//! The decisions of the simulation driver: when to write output and when to stop.
//!
//! The driver writes the initial state, then after each step writes a frame
//! when the step number is a multiple of the output interval, and stops after
//! the last step or once the simulated time reaches its end. The final state
//! is written once more unless the last step already wrote it.

use vstd::prelude::*;

verus! {

/// What the driver does after finishing a step.
#[derive(Clone, Copy, Debug, PartialEq, Eq, Structural)]
pub struct StepOutcome {
    /// Write an output frame for this step.
    pub write_frame: bool,
    /// Stop the time loop after this step.
    pub stop: bool,
}

/// The outcome of finishing step `step_num` (counted from 1) of at most
/// `max_steps`, where `time_reached` says whether the simulated time has
/// reached its end.
pub fn step_outcome(step_num: usize, max_steps: usize, output_interval: usize, time_reached: bool) -> (r:
    StepOutcome)
    requires
        output_interval > 0,
    ensures
        r.write_frame == (step_num % output_interval == 0),
        r.stop == (time_reached || step_num >= max_steps),
{
    StepOutcome {
        write_frame: step_num % output_interval == 0,
        stop: time_reached || step_num >= max_steps,
    }
}

/// Whether the state after the last step `last_step` still needs a frame.
pub fn final_frame_needed(last_step: usize, output_interval: usize) -> (r: bool)
    requires
        output_interval > 0,
    ensures
        r == (last_step % output_interval != 0),
{
    last_step % output_interval != 0
}

} // verus!
