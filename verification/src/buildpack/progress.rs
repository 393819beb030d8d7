//! Build progress notifications.

use vstd::prelude::*;

verus! {

/// Receives notifications as lifecycle phases run.
pub trait BuildProgress: Send + Sync {
    fn phase_started(&self, phase: &str);

    fn phase_output(&self, phase: &str, output: &str);

    fn phase_completed(&self, phase: &str);

    fn phase_failed(&self, phase: &str, error: &str);
}

/// Progress reporting that ignores every notification.
#[derive(Debug, Copy, Clone)]
pub struct NoOpProgress;

impl BuildProgress for NoOpProgress {
    fn phase_started(&self, phase: &str) {
    }

    fn phase_output(&self, phase: &str, output: &str) {
    }

    fn phase_completed(&self, phase: &str) {
    }

    fn phase_failed(&self, phase: &str, error: &str) {
    }
}

} // verus!
