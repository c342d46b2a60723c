//! Frame-to-frame decisions of the temporal processor: the frame counter and
//! whether a frame is blended with the state left by the one before it.
use vstd::prelude::*;

verus! {

/// What the temporal processor does with the next frame of a sequence.
#[derive(Clone, Copy, Debug, PartialEq, Eq, Structural)]
pub struct TemporalStep {
    /// Number of the frame (counting from 1).
    pub frame_index: usize,
    /// The transmission is blended with the motion-compensated transmission
    /// of the previous frame.
    pub blend: bool,
}

/// The step [`temporal_step`] takes: the counter goes up by one, and the
/// frame is blended only without a scene change and with a previous state of
/// the same size.
pub open spec fn step_spec(
    frame_index: usize,
    scene_reset: bool,
    previous_len: Option<usize>,
    current_len: usize,
) -> TemporalStep {
    TemporalStep {
        frame_index: (frame_index + 1) as usize,
        blend: !scene_reset && previous_len == Some(current_len),
    }
}

/// The frame counter of a processor that starts at 0 and is handed frames
/// described by `frames` (scene change reported for the frame, size of the
/// previous state, size of the frame), one step each.
pub open spec fn counter_after(frames: Seq<(bool, Option<usize>, usize)>) -> usize
    decreases frames.len(),
{
    if frames.len() == 0 {
        0
    } else {
        let f = frames.last();
        step_spec(counter_after(frames.drop_last()), f.0, f.1, f.2).frame_index
    }
}

/// Frames are numbered from 1 in the order they are handed in: after any
/// sequence of frames, whatever scene changes and sizes they bring, the
/// counter equals the number of frames (scene changes never reset it).
pub proof fn lemma_counter_counts_frames(frames: Seq<(bool, Option<usize>, usize)>)
    requires
        frames.len() <= usize::MAX,
    ensures
        counter_after(frames) == frames.len(),
    decreases frames.len(),
{
    if frames.len() > 0 {
        lemma_counter_counts_frames(frames.drop_last());
    }
}

/// Counts the next frame, and blends it with the previous frame's state only
/// when the airlight tracker reports no scene change and there is a previous
/// state whose luma plane (`previous_len` samples) has the size of this
/// frame's (`current_len` samples).
pub fn temporal_step(
    frame_index: usize,
    scene_reset: bool,
    previous_len: Option<usize>,
    current_len: usize,
) -> (step: TemporalStep)
    requires
        frame_index < usize::MAX,
    ensures
        step == step_spec(frame_index, scene_reset, previous_len, current_len),
        step.frame_index == frame_index + 1,
        step.blend <==> (!scene_reset && previous_len == Some(current_len)),
{
    let blend = match previous_len {
        Some(len) => !scene_reset && len == current_len,
        None => false,
    };
    TemporalStep { frame_index: frame_index + 1, blend }
}

} // verus!
