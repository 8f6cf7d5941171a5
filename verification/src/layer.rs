//! The decisions of the iterative rectification loop.
//!
//! Each pass segments the current image and, when a projection came out,
//! warps by it; the loop stops on a failed segmentation, on a small enough
//! error, or after the iteration cap.  The warp itself is resampling work for
//! the caller; every decision is made here.
use vstd::prelude::*;

use crate::SegmentResult;

verus! {

/// Index of the last pass the layer loop may run: passes count from zero, so
/// the loop runs at most five times.
pub const LAST_LAYER_ITERATION: u32 = 4;

/// What the layer loop does after one segmentation pass.
#[derive(Clone, Copy, PartialEq, Eq, Structural, Debug)]
pub enum LayerDecision {
    /// No projection came out: keep the image as it stands.
    Stop,
    /// Warp by the projection, then stop: the board fills at least half the
    /// frame, or the iteration cap is reached.
    WarpThenStop,
    /// Warp by the projection and segment again.
    WarpThenContinue,
}

/// The decision after pass `iteration`, given that pass's outcome.
pub open spec fn layer_decision_spec(iteration: u32, outcome: Option<SegmentResult>) -> LayerDecision {
    match outcome {
        None => LayerDecision::Stop,
        Some(res) => {
            if 2 * res.mbb_area > res.input_area {
                LayerDecision::WarpThenStop
            } else if iteration >= LAST_LAYER_ITERATION {
                LayerDecision::WarpThenStop
            } else {
                LayerDecision::WarpThenContinue
            }
        },
    }
}

/// Decides how the layer loop goes on after one segmentation pass: stop on a
/// failed segmentation; warp, and stop when the error metric dropped below a
/// half (the board quad covers more than half the frame) or the pass cap is
/// reached; else warp and run another pass.
pub fn layer_decision(iteration: u32, outcome: Option<&SegmentResult>) -> (r: LayerDecision)
    requires
        outcome matches Some(res) ==> res.wf(),
    ensures
        match outcome {
            None => r == layer_decision_spec(iteration, None::<SegmentResult>),
            Some(res) => r == layer_decision_spec(iteration, Some(*res)),
        },
{
    match outcome {
        None => LayerDecision::Stop,
        Some(res) => {
            if 2 * res.mbb_area > res.input_area {
                LayerDecision::WarpThenStop
            } else if iteration >= LAST_LAYER_ITERATION {
                LayerDecision::WarpThenStop
            } else {
                LayerDecision::WarpThenContinue
            }
        },
    }
}

} // verus!
