//! Frame pacing for the fixed-timestep loop.

use vstd::prelude::*;

verus! {

/// Target frame rate of the fixed-timestep loop, in frames per second.
pub const FPS: u64 = 20;

/// Target duration of one frame, in nanoseconds.
pub const FRAME_DURATION_NANOS: u64 = 1000000000 / FPS;

/// How long to sleep after a tick: exactly the time left of the target
/// frame duration, and nothing at all when the tick ran over - a slow
/// frame proceeds immediately, with no catch-up on the next one.
pub fn frame_sleep_nanos(target: u64, elapsed: u64) -> (r: u64)
    ensures
        r == (if elapsed < target {
            target - elapsed
        } else {
            0int
        }),
{
    if elapsed < target {
        target - elapsed
    } else {
        0
    }
}

} // verus!
