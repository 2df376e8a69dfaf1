use vstd::prelude::*;

verus! {

/// What the surface reported when asked for its next texture.
#[derive(Clone, Copy, Debug, PartialEq, Eq, Structural)]
pub enum SurfaceStatus {
    Success,
    Suboptimal,
    Timeout,
    Occluded,
    Validation,
    Lost,
    Outdated,
}

/// What to do with the frame after asking the surface for a texture.
#[derive(Clone, Copy, Debug, PartialEq, Eq, Structural)]
pub enum FrameDecision {
    /// Render into the texture and present it.
    Render,
    /// Skip this frame.
    Skip,
    /// Configure the surface again and skip this frame.
    Reconfigure,
}

/// Decides whether a frame can be rendered: never before the surface is
/// configured; a usable texture (even a suboptimal one) is rendered; an
/// outdated surface is reconfigured; anything else skips the frame.
pub fn acquire_decision(is_surface_configured: bool, status: SurfaceStatus) -> (r: FrameDecision)
    ensures
        r == if !is_surface_configured {
            FrameDecision::Skip
        } else {
            match status {
                SurfaceStatus::Success | SurfaceStatus::Suboptimal => FrameDecision::Render,
                SurfaceStatus::Outdated => FrameDecision::Reconfigure,
                _ => FrameDecision::Skip,
            }
        },
{
    if !is_surface_configured {
        return FrameDecision::Skip;
    }
    match status {
        SurfaceStatus::Suboptimal | SurfaceStatus::Success => FrameDecision::Render,
        SurfaceStatus::Timeout
        | SurfaceStatus::Occluded
        | SurfaceStatus::Validation
        | SurfaceStatus::Lost => FrameDecision::Skip,
        SurfaceStatus::Outdated => FrameDecision::Reconfigure,
    }
}

} // verus!
