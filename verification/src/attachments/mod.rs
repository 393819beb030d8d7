//! Attachment compatibility state: who holds each project, manual stops,
//! instance owners, listing filters and sections, and the directory
//! hierarchy a first publication creates.

pub mod model;
pub mod state;
pub mod store;
pub mod laws;

pub use model::{Attachment, AttachmentSource, ManualCliSession};
pub use state::{
    AttachmentCompatibilityEvidence, AttachmentLivenessEvidence, AttachmentProjectDelta, AttachmentProjectSnapshot,
    AttachmentStoreSnapshot,
};
pub use store::AttachmentStore;

use crate::paths::{ancestors, ancestors_below_root, below_root, texts};
use vstd::prelude::*;

verus! {

/// Which projects a listing shows.
#[derive(Debug, Clone, Copy, PartialEq, Eq, Structural)]
pub enum ProjectFilter {
    Active,
    Pinned,
    Recent,
    All,
}

/// The section a project is listed under.
#[derive(Debug, Clone, Copy, PartialEq, Eq, Structural)]
pub enum ProjectSection {
    Active,
    AlwaysOn,
    Recent,
}

/// One project as a listing shows it.
#[derive(Debug, Clone, PartialEq, Eq)]
pub struct ProjectListEntry {
    pub project_path: String,
    pub project_name: Option<String>,
    pub attachments: Vec<Attachment>,
    pub is_running: bool,
    pub section: ProjectSection,
}

/// A load, validation, or persistence failure of attachment state.
#[derive(Debug)]
pub enum AttachmentStoreError {
    InvalidData { path: String, reason: String },
    Io { operation: String, path: String, reason: String },
    PublishedNotDurable { path: String, reason: String },
}

/// The directories a first publication beneath `parent` must sync: every
/// proper ancestor below the filesystem root, nearest first.
pub fn attachment_hierarchy_owners(parent: &str) -> (r: Vec<String>)
    ensures
        texts(r@) == below_root(ancestors(parent@)),
{
    ancestors_below_root(parent)
}

} // verus!
