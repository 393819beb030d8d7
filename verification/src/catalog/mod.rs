//! Versioned, daemon-owned project identity catalog.
//!
//! The catalog makes opaque identities authoritative while retaining paths as
//! current or historical locators. It deliberately excludes availability,
//! readiness, and runtime state; those change at a different cadence and have
//! their own persistence model.

pub mod records;
pub mod slug;
pub mod discovery;
pub mod entries;
pub mod hydrate;
pub mod laws;
pub mod legacy;
pub mod lookup;
pub mod mutate;
pub mod parts;
pub mod prune;
pub mod reconcile;
pub mod tables;
pub mod validate;

pub use slug::allocate_unique_domain_slug;

use crate::agent::AgentConversationKey;
use crate::domain::{DomainError, DomainIndex};
use crate::identity::{IdentityError, ProjectInstanceId};
use crate::paths::{join_path, path_join};
use crate::text::lex_lt;
use records::{
    InstanceView, ProjectInstanceRecord, ProjectRecord, ProjectView, RepositoryRecord, RepositoryView, UnresolvedLegacyProject,
    UnresolvedView, WorktreeRecord, WorktreeView,
};
use vstd::prelude::*;

verus! {

/// The current identity, exact-domain, and ambient-agent binding schema.
pub const CATALOG_VERSION: u32 = 4;

/// The schema before ambient-agent bindings.
pub const PREVIOUS_CATALOG_VERSION: u32 = 3;

/// Paths used to initialize a catalog and collect legacy locator evidence.
#[derive(Debug, Clone, PartialEq, Eq)]
pub struct CatalogPaths {
    pub catalog: String,
    pub legacy_registry: String,
    pub legacy_attachments: String,
    pub legacy_runtime_state: String,
}

impl CatalogPaths {
    /// Build the standard file layout beneath a locald data directory.
    pub fn for_data_dir(data_dir: &str) -> (r: Self)
        ensures
            r.catalog@ == path_join(data_dir@, "catalog.json"@),
            r.legacy_registry@ == path_join(data_dir@, "registry.json"@),
            r.legacy_attachments@ == path_join(data_dir@, "attachments.json"@),
            r.legacy_runtime_state@ == path_join(data_dir@, "state.json"@),
    {
        CatalogPaths {
            catalog: join_path(data_dir, "catalog.json"),
            legacy_registry: join_path(data_dir, "registry.json"),
            legacy_attachments: join_path(data_dir, "attachments.json"),
            legacy_runtime_state: join_path(data_dir, "state.json"),
        }
    }
}

/// A catalog load, validation, discovery, or persistence failure.
#[derive(Debug)]
pub enum CatalogError {
    Io { operation: String, path: String, reason: String },
    UnsupportedVersion { path: String, found: u64, expected: u32 },
    InvalidData { path: String, reason: String },
    Identity(IdentityError),
    Domain(DomainError),
    TaskJoin { operation: String, reason: String },
    LiveIdentityConflict { kind: String, identity: String, existing: String, discovered: String },
    Invariant(String),
    PublishedNotDurable { path: String, reason: String },
    AgentBindingConflict,
}

/// Strictly increasing integers.
pub open spec fn ascending(s: Seq<u128>) -> bool {
    forall|i: int, j: int| 0 <= i < j < s.len() ==> s[i] < s[j]
}

/// Strictly increasing texts.
pub open spec fn texts_ascending(s: Seq<Seq<char>>) -> bool {
    forall|i: int, j: int| 0 <= i < j < s.len() ==> lex_lt(s[i], s[j])
}

pub open spec fn repository_ids(s: Seq<RepositoryView>) -> Seq<u128> {
    s.map_values(|r: RepositoryView| r.id.value)
}

pub open spec fn worktree_ids(s: Seq<WorktreeView>) -> Seq<u128> {
    s.map_values(|r: WorktreeView| r.id.value)
}

pub open spec fn project_ids(s: Seq<ProjectView>) -> Seq<u128> {
    s.map_values(|r: ProjectView| r.id.value)
}

pub open spec fn instance_ids(s: Seq<InstanceView>) -> Seq<u128> {
    s.map_values(|r: InstanceView| r.id.value)
}

pub open spec fn legacy_keys(s: Seq<(Seq<char>, ProjectInstanceId)>) -> Seq<Seq<char>> {
    s.map_values(|e: (Seq<char>, ProjectInstanceId)| e.0)
}

pub open spec fn unresolved_keys(s: Seq<UnresolvedView>) -> Seq<Seq<char>> {
    s.map_values(|r: UnresolvedView| r.path)
}

pub open spec fn binding_keys(s: Seq<(Seq<char>, ProjectInstanceId)>) -> Seq<Seq<char>> {
    s.map_values(|e: (Seq<char>, ProjectInstanceId)| e.0)
}

/// The catalog's contents: each table in key order.
pub struct CatalogView {
    pub version: u32,
    pub repositories: Seq<RepositoryView>,
    pub worktrees: Seq<WorktreeView>,
    pub projects: Seq<ProjectView>,
    pub instances: Seq<InstanceView>,
    pub legacy_paths: Seq<(Seq<char>, ProjectInstanceId)>,
    pub unresolved: Seq<UnresolvedView>,
    pub domain_index: DomainIndex,
    pub bindings: Seq<(Seq<char>, ProjectInstanceId)>,
    pub storage_path: Seq<char>,
}

/// Every table is keyed and ordered as a sorted map.
pub open spec fn tables_ordered(v: CatalogView) -> bool {
    &&& ascending(repository_ids(v.repositories))
    &&& ascending(worktree_ids(v.worktrees))
    &&& ascending(project_ids(v.projects))
    &&& ascending(instance_ids(v.instances))
    &&& texts_ascending(legacy_keys(v.legacy_paths))
    &&& texts_ascending(unresolved_keys(v.unresolved))
    &&& texts_ascending(binding_keys(v.bindings))
}

/// Versioned durable identity catalog.
#[derive(Debug)]
pub struct ProjectCatalog {
    version: u32,
    repositories: Vec<RepositoryRecord>,
    worktrees: Vec<WorktreeRecord>,
    projects: Vec<ProjectRecord>,
    instances: Vec<ProjectInstanceRecord>,
    legacy_paths: Vec<(String, ProjectInstanceId)>,
    unresolved_legacy: Vec<UnresolvedLegacyProject>,
    domain_index: DomainIndex,
    agent_bindings: Vec<(AgentConversationKey, ProjectInstanceId)>,
    storage_path: String,
}

impl View for ProjectCatalog {
    type V = CatalogView;

    closed spec fn view(&self) -> CatalogView {
        CatalogView {
            version: self.version,
            repositories: self.repositories@.map_values(|r: RepositoryRecord| r@),
            worktrees: self.worktrees@.map_values(|r: WorktreeRecord| r@),
            projects: self.projects@.map_values(|r: ProjectRecord| r@),
            instances: self.instances@.map_values(|r: ProjectInstanceRecord| r@),
            legacy_paths: self.legacy_paths@.map_values(|e: (String, ProjectInstanceId)| (e.0@, e.1)),
            unresolved: self.unresolved_legacy@.map_values(|r: UnresolvedLegacyProject| r@),
            domain_index: self.domain_index,
            bindings: self.agent_bindings@.map_values(|e: (AgentConversationKey, ProjectInstanceId)| (e.0@, e.1)),
            storage_path: self.storage_path@,
        }
    }
}

impl ProjectCatalog {
    #[verifier::type_invariant]
    closed spec fn ordered(self) -> bool {
        tables_ordered(self@)
    }
}

} // verus!
