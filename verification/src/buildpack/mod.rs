//! Cloud Native Buildpacks lifecycle layout and progress reporting.

pub mod lifecycle;
pub mod progress;
