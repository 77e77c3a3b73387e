use vstd::prelude::*;

verus! {

/// The event that a hooked function reports.
#[derive(Debug, Clone, Copy, PartialEq, Eq, Structural)]
pub enum Message {
    /// `DispSyncSource::onVsyncCallback` ran.
    Vsync,
    /// `SurfaceFlinger::postComposition` ran.
    Soft,
}

} // verus!
