//! Durable catalog records and the discoveries reconciled into them.

use crate::availability::opt_view;
use crate::domain::string_views;
use crate::identity::{
    uuid_text, ProjectId, ProjectInstanceId, RepositoryId, ResolvedProjectIdentity, WorktreeId,
};
use vstd::prelude::*;

verus! {

/// Coarse filesystem presence, distinct from service availability.
#[derive(Debug, Clone, Copy, PartialEq, Eq, Structural)]
pub enum CatalogPresence {
    Active,
    Missing,
}

/// How a logical project received its identity.
#[derive(Debug, PartialEq, Eq)]
pub enum ProjectOrigin {
    Git { repository_id: RepositoryId, repository_relative_root: String },
    NonGit,
}

impl Clone for ProjectOrigin {
    fn clone(&self) -> (r: Self)
        ensures
            r == *self,
    {
        match self {
            ProjectOrigin::Git { repository_id, repository_relative_root } => ProjectOrigin::Git {
                repository_id: *repository_id,
                repository_relative_root: repository_relative_root.clone(),
            },
            ProjectOrigin::NonGit => ProjectOrigin::NonGit,
        }
    }
}

/// A project origin with its root as text.
pub enum OriginView {
    Git { repository_id: RepositoryId, repository_relative_root: Seq<char> },
    NonGit,
}

impl View for ProjectOrigin {
    type V = OriginView;

    open spec fn view(&self) -> OriginView {
        match *self {
            ProjectOrigin::Git { repository_id, repository_relative_root } => OriginView::Git {
                repository_id,
                repository_relative_root: repository_relative_root@,
            },
            ProjectOrigin::NonGit => OriginView::NonGit,
        }
    }
}

/// How a physical project instance received its identity.
#[derive(Debug, Clone, Copy, PartialEq, Eq, Structural)]
pub enum ProjectInstanceOrigin {
    Git { worktree_id: WorktreeId },
    NonGit,
}

/// Durable metadata for one physical Git clone.
#[derive(Debug, PartialEq, Eq)]
pub struct RepositoryRecord {
    pub id: RepositoryId,
    pub current_git_dir: Option<String>,
    pub last_known_git_dir: String,
    pub display_name: Option<String>,
    pub presence: CatalogPresence,
}

/// Durable metadata for one physical Git worktree.
#[derive(Debug, PartialEq, Eq)]
pub struct WorktreeRecord {
    pub id: WorktreeId,
    pub repository_id: RepositoryId,
    pub current_path: Option<String>,
    pub last_known_path: String,
    pub branch: Option<String>,
    pub head: Option<String>,
    pub display_name: Option<String>,
    pub presence: CatalogPresence,
}

/// Durable metadata for one logical locald project.
#[derive(Debug, PartialEq, Eq)]
pub struct ProjectRecord {
    pub id: ProjectId,
    pub origin: ProjectOrigin,
    pub display_name: Option<String>,
}

/// Durable metadata for a logical project in one physical workspace.
///
/// `last_seen` counts nanoseconds since the Unix epoch; `domain_claims` is a
/// set of domain texts.
#[derive(Debug, PartialEq, Eq)]
pub struct ProjectInstanceRecord {
    pub id: ProjectInstanceId,
    pub project_id: ProjectId,
    pub origin: ProjectInstanceOrigin,
    pub current_path: Option<String>,
    pub last_known_path: String,
    pub presence: CatalogPresence,
    pub display_name: Option<String>,
    pub pinned: bool,
    pub last_seen: u64,
    pub domain_slug: Option<String>,
    pub domain_claims: Vec<String>,
}

/// A repository record with its locators as text.
pub struct RepositoryView {
    pub id: RepositoryId,
    pub current_git_dir: Option<Seq<char>>,
    pub last_known_git_dir: Seq<char>,
    pub display_name: Option<Seq<char>>,
    pub presence: CatalogPresence,
}

impl View for RepositoryRecord {
    type V = RepositoryView;

    open spec fn view(&self) -> RepositoryView {
        RepositoryView {
            id: self.id,
            current_git_dir: opt_view(self.current_git_dir),
            last_known_git_dir: self.last_known_git_dir@,
            display_name: opt_view(self.display_name),
            presence: self.presence,
        }
    }
}

/// A worktree record with its locators and labels as text.
pub struct WorktreeView {
    pub id: WorktreeId,
    pub repository_id: RepositoryId,
    pub current_path: Option<Seq<char>>,
    pub last_known_path: Seq<char>,
    pub branch: Option<Seq<char>>,
    pub head: Option<Seq<char>>,
    pub display_name: Option<Seq<char>>,
    pub presence: CatalogPresence,
}

impl View for WorktreeRecord {
    type V = WorktreeView;

    open spec fn view(&self) -> WorktreeView {
        WorktreeView {
            id: self.id,
            repository_id: self.repository_id,
            current_path: opt_view(self.current_path),
            last_known_path: self.last_known_path@,
            branch: opt_view(self.branch),
            head: opt_view(self.head),
            display_name: opt_view(self.display_name),
            presence: self.presence,
        }
    }
}

/// A project record with its texts as sequences.
pub struct ProjectView {
    pub id: ProjectId,
    pub origin: OriginView,
    pub display_name: Option<Seq<char>>,
}

impl View for ProjectRecord {
    type V = ProjectView;

    open spec fn view(&self) -> ProjectView {
        ProjectView { id: self.id, origin: self.origin@, display_name: opt_view(self.display_name) }
    }
}

/// Legacy stores that supplied a path before it could be assigned an identity.
#[derive(Debug, Clone, Copy, PartialEq, Eq, Structural, PartialOrd, Ord)]
pub enum LegacyLocatorSource {
    Registry,
    Attachment,
    ManualStop,
    RuntimeState,
}

/// Preserved evidence for a legacy path whose identity cannot currently be read.
#[derive(Debug, PartialEq, Eq)]
pub struct UnresolvedLegacyProject {
    pub path: String,
    pub display_name: Option<String>,
    pub pinned: bool,
    pub last_seen: Option<u64>,
    pub sources: Vec<LegacyLocatorSource>,
}

/// Path-oriented compatibility projection used by the existing IPC surface.
#[derive(Debug, PartialEq, Eq)]
pub struct ProjectEntry {
    pub path: String,
    pub name: Option<String>,
    pub pinned: bool,
    pub last_seen: u64,
}

/// Copy an optional string exactly.
pub(crate) fn clone_opt(o: &Option<String>) -> (r: Option<String>)
    ensures
        r == *o,
{
    match o {
        Some(s) => Some(s.clone()),
        None => None,
    }
}

/// Copy a list of strings exactly.
pub(crate) fn clone_strings(v: &Vec<String>) -> (r: Vec<String>)
    ensures
        r@ == v@,
{
    let mut r: Vec<String> = Vec::new();
    let mut i: usize = 0;
    while i < v.len()
        invariant
            i <= v@.len(),
            r@ == v@.take(i as int),
        decreases v@.len() - i,
    {
        r.push(v[i].clone());
        i = i + 1;
        assert(r@ =~= v@.take(i as int));
    }
    assert(v@.take(v@.len() as int) =~= v@);
    r
}

impl Clone for RepositoryRecord {
    fn clone(&self) -> (r: Self)
        ensures
            r == *self,
    {
        RepositoryRecord {
            id: self.id,
            current_git_dir: clone_opt(&self.current_git_dir),
            last_known_git_dir: self.last_known_git_dir.clone(),
            display_name: clone_opt(&self.display_name),
            presence: self.presence,
        }
    }
}

impl Clone for WorktreeRecord {
    fn clone(&self) -> (r: Self)
        ensures
            r == *self,
    {
        WorktreeRecord {
            id: self.id,
            repository_id: self.repository_id,
            current_path: clone_opt(&self.current_path),
            last_known_path: self.last_known_path.clone(),
            branch: clone_opt(&self.branch),
            head: clone_opt(&self.head),
            display_name: clone_opt(&self.display_name),
            presence: self.presence,
        }
    }
}

impl Clone for ProjectRecord {
    fn clone(&self) -> (r: Self)
        ensures
            r == *self,
    {
        ProjectRecord { id: self.id, origin: self.origin.clone(), display_name: clone_opt(&self.display_name) }
    }
}

impl Clone for ProjectInstanceRecord {
    fn clone(&self) -> (r: Self)
        ensures
            r@ == self@,
    {
        ProjectInstanceRecord {
            id: self.id,
            project_id: self.project_id,
            origin: self.origin,
            current_path: clone_opt(&self.current_path),
            last_known_path: self.last_known_path.clone(),
            presence: self.presence,
            display_name: clone_opt(&self.display_name),
            pinned: self.pinned,
            last_seen: self.last_seen,
            domain_slug: clone_opt(&self.domain_slug),
            domain_claims: clone_strings(&self.domain_claims),
        }
    }
}

impl Clone for UnresolvedLegacyProject {
    fn clone(&self) -> (r: Self)
        ensures
            r@ == self@,
    {
        let mut sources: Vec<LegacyLocatorSource> = Vec::new();
        let mut i: usize = 0;
        while i < self.sources.len()
            invariant
                i <= self.sources@.len(),
                sources@ == self.sources@.take(i as int),
            decreases self.sources@.len() - i,
        {
            sources.push(self.sources[i]);
            i = i + 1;
            assert(sources@ =~= self.sources@.take(i as int));
        }
        assert(self.sources@.take(self.sources@.len() as int) =~= self.sources@);
        UnresolvedLegacyProject {
            path: self.path.clone(),
            display_name: clone_opt(&self.display_name),
            pinned: self.pinned,
            last_seen: self.last_seen,
            sources,
        }
    }
}

/// An instance record with its claim list as a sequence.
pub struct InstanceView {
    pub id: ProjectInstanceId,
    pub project_id: ProjectId,
    pub origin: ProjectInstanceOrigin,
    pub current_path: Option<Seq<char>>,
    pub last_known_path: Seq<char>,
    pub presence: CatalogPresence,
    pub display_name: Option<Seq<char>>,
    pub pinned: bool,
    pub last_seen: u64,
    pub domain_slug: Option<Seq<char>>,
    pub domain_claims: Seq<Seq<char>>,
}

impl View for ProjectInstanceRecord {
    type V = InstanceView;

    open spec fn view(&self) -> InstanceView {
        InstanceView {
            id: self.id,
            project_id: self.project_id,
            origin: self.origin,
            current_path: opt_view(self.current_path),
            last_known_path: self.last_known_path@,
            presence: self.presence,
            display_name: opt_view(self.display_name),
            pinned: self.pinned,
            last_seen: self.last_seen,
            domain_slug: opt_view(self.domain_slug),
            domain_claims: string_views(self.domain_claims@),
        }
    }
}

/// Unresolved legacy evidence with its sources as a sequence.
pub struct UnresolvedView {
    pub path: Seq<char>,
    pub display_name: Option<Seq<char>>,
    pub pinned: bool,
    pub last_seen: Option<u64>,
    pub sources: Seq<LegacyLocatorSource>,
}

impl View for UnresolvedLegacyProject {
    type V = UnresolvedView;

    open spec fn view(&self) -> UnresolvedView {
        UnresolvedView {
            path: self.path@,
            display_name: opt_view(self.display_name),
            pinned: self.pinned,
            last_seen: self.last_seen,
            sources: self.sources@,
        }
    }
}

/// A discovered project before it is reconciled with persistent catalog state.
#[derive(Debug)]
pub enum ProjectDiscovery {
    Git { resolved: ResolvedProjectIdentity, branch: Option<String>, head: Option<String> },
    NonGit { project_root: String },
}

/// The canonical project root a discovery names.
pub open spec fn discovery_root(d: ProjectDiscovery) -> String {
    match d {
        ProjectDiscovery::Git { resolved, .. } => resolved.project_root,
        ProjectDiscovery::NonGit { project_root } => project_root,
    }
}

impl ProjectDiscovery {
    /// Return the canonical project root associated with this discovery.
    pub fn project_root(&self) -> (r: &String)
        ensures
            *r == discovery_root(*self),
    {
        match self {
            ProjectDiscovery::Git { resolved, .. } => &resolved.project_root,
            ProjectDiscovery::NonGit { project_root } => project_root,
        }
    }

    /// Return the stable physical instance identity when Git supplies it.
    pub fn git_project_instance_id(&self) -> (r: Option<ProjectInstanceId>)
        ensures
            r == match *self {
                ProjectDiscovery::Git { resolved, .. } => Some(resolved.identity.project_instance_id),
                ProjectDiscovery::NonGit { .. } => None::<ProjectInstanceId>,
            },
    {
        match self {
            ProjectDiscovery::Git { resolved, .. } => Some(resolved.identity.project_instance_id),
            ProjectDiscovery::NonGit { .. } => None,
        }
    }

    /// Whether this project lives in a linked Git worktree rather than the
    /// repository's primary checkout.
    pub fn is_linked_worktree(&self) -> (r: bool)
        ensures
            r == (*self matches ProjectDiscovery::Git { resolved, .. } && resolved.common_git_dir@
                != resolved.worktree_git_dir@),
    {
        match self {
            ProjectDiscovery::Git { resolved, .. } => resolved.common_git_dir != resolved.worktree_git_dir,
            ProjectDiscovery::NonGit { .. } => false,
        }
    }
}

/// Whether an optional locator names exactly `path`.
pub open spec fn locates(o: Option<String>, path: Seq<char>) -> bool {
    opt_view(o) == Some(path)
}

/// The identity text of an instance.
pub open spec fn instance_text(id: ProjectInstanceId) -> Seq<char> {
    uuid_text(id.value)
}

} // verus!
