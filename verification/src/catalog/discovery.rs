//! Reconciling a discovered project with the durable catalog.

use super::records::{
    clone_opt, CatalogPresence, ProjectDiscovery, UnresolvedLegacyProject, UnresolvedView, InstanceView, OriginView, ProjectInstanceOrigin, ProjectInstanceRecord, ProjectOrigin,
    ProjectRecord, ProjectView, RepositoryRecord, RepositoryView, WorktreeRecord, WorktreeView,
};
use super::tables::{
    clone_instances, clone_legacy, legacy_index, locate_legacy, clone_projects, clone_repositories, clone_unresolved, clone_worktrees, drop_unresolved,
    instance_index, legacy_put, unresolved_index, locate_instance, locate_project, locate_repository, locate_worktree, project_index,
    put_instance, put_legacy, put_project, put_repository, put_worktree, release_instances, release_repositories,
    release_worktrees, repository_index, retire_instances, retire_repositories, retire_worktrees, unresolved_without,
    upsert_instance, upsert_project, upsert_repository, upsert_worktree, worktree_index,
};
use super::{CatalogError, CatalogView, ProjectCatalog};
use crate::availability::opt_view;
use crate::identity::{uuid_text, IdentityError, ProjectId, ProjectInstanceId, RepositoryId, ResolvedProjectIdentity, WorktreeId};
use crate::paths::{file_name, parent_path, path_file_name, path_parent};
use crate::text::push_str;
use vstd::prelude::*;

verus! {

/// Locators where a catalogued identity was found still live, besides the
/// discovered one: for the repository, the worktree, and the instance.
#[derive(Debug, Clone)]
pub struct LocatorConflicts {
    pub repository: Option<String>,
    pub worktree: Option<String>,
    pub instance: Option<String>,
}

/// The locators to probe for a live copy of a catalogued identity before
/// moving it to `discovered`: its current locator, then its last-known one,
/// each only when it differs from `discovered`, and without repeats.
pub open spec fn candidate_locators(current: Option<Seq<char>>, last_known: Seq<char>, discovered: Seq<char>) -> Seq<
    Seq<char>,
> {
    let first = match current {
        Some(c) => if c != discovered {
            seq![c]
        } else {
            Seq::empty()
        },
        None => Seq::empty(),
    };
    if last_known != discovered && !first.contains(last_known) {
        first.push(last_known)
    } else {
        first
    }
}

/// The locators to probe; see `candidate_locators`.
pub fn locator_candidates(current: &Option<String>, last_known: &String, discovered: &String) -> (r: Vec<String>)
    ensures
        crate::domain::string_views(r@) == candidate_locators(opt_view(*current), last_known@, discovered@),
{
    let mut candidates: Vec<String> = Vec::new();
    match current {
        Some(c) => {
            if *c != *discovered {
                candidates.push(c.clone());
                proof {
                    assert(crate::domain::string_views(candidates@) =~= seq![c@]);
                }
            } else {
                proof {
                    assert(crate::domain::string_views(candidates@) =~= Seq::<Seq<char>>::empty());
                }
            }
        },
        None => {
            proof {
                assert(crate::domain::string_views(candidates@) =~= Seq::<Seq<char>>::empty());
            }
        },
    }
    let ghost first = crate::domain::string_views(candidates@);
    let repeated = match current {
        Some(c) => *c != *discovered && *c == *last_known,
        None => false,
    };
    proof {
        assert(first.contains(last_known@) <==> repeated) by {
            if first.contains(last_known@) {
                assert(first[0] == last_known@);
            }
            if repeated {
                assert(first[0] == last_known@);
            }
        }
    }
    if *last_known != *discovered && !repeated {
        candidates.push(last_known.clone());
        proof {
            assert(crate::domain::string_views(candidates@) =~= first.push(last_known@));
        }
    }
    candidates
}

/// Whether an identity failure only means the locator no longer holds a
/// usable checkout (so reconciliation treats it as missing), rather than
/// damaged identity state that must stop it.
pub fn unavailable_git_locator(error: &IdentityError) -> (r: bool)
    ensures
        r == (error is CanonicalizeProjectRoot || error is BrokenWorktree || error is UnrepairedWorktree
            || error is BareRepository || error is CanonicalizeGitDirectory || error is ProjectOutsideWorktree
            || error is MarkerIo),
{
    match error {
        IdentityError::CanonicalizeProjectRoot { .. } | IdentityError::BrokenWorktree { .. } | IdentityError::UnrepairedWorktree {
            ..
        } | IdentityError::BareRepository { .. } | IdentityError::CanonicalizeGitDirectory { .. }
        | IdentityError::ProjectOutsideWorktree { .. } | IdentityError::MarkerIo { .. } => true,
        IdentityError::NotGit { .. } | IdentityError::InvalidMarker { .. } | IdentityError::UnsupportedProjectPath {
            ..
        } => false,
    }
}

/// Why a Git discovery cannot be reconciled.
pub enum GitRejection {
    RepositoryConflict(Seq<char>),
    WorktreeRepositoryChanged,
    WorktreeConflict(Seq<char>),
    ProjectOriginChanged,
    InstanceRelationshipChanged,
    InstanceConflict(Seq<char>),
}

/// The locators after a record is found at `discovered`: unchanged when it
/// is already current there; else `discovered` becomes current and any
/// previous current locator becomes the last known one.
pub open spec fn relocate(current: Option<Seq<char>>, last_known: Seq<char>, discovered: Seq<char>) -> (
    Option<Seq<char>>,
    Seq<char>,
) {
    if current == Some(discovered) {
        (current, last_known)
    } else {
        (
            Some(discovered),
            match current {
                Some(p) => p,
                None => last_known,
            },
        )
    }
}

/// The display name of a path: its final component.
pub open spec fn path_display_name(p: Seq<char>) -> Option<Seq<char>> {
    path_file_name(p)
}

/// The display name of a repository: the final component of the directory
/// holding its common Git directory.
pub open spec fn repository_display_name(common_git_dir: Seq<char>) -> Option<Seq<char>> {
    match path_parent(common_git_dir) {
        Some(parent) => path_file_name(parent),
        None => None,
    }
}

/// A supplied display name replaces the recorded one; none keeps it.
pub open spec fn renamed(recorded: Option<Seq<char>>, supplied: Option<Seq<char>>) -> Option<Seq<char>> {
    if supplied is Some {
        supplied
    } else {
        recorded
    }
}

pub open spec fn next_repository(s: Seq<RepositoryView>, id: RepositoryId, dir: Seq<char>, conflict: Option<Seq<char>>) -> Result<
    Seq<RepositoryView>,
    GitRejection,
> {
    match repository_index(s, id) {
        Some(i) => if conflict is Some {
            Err(GitRejection::RepositoryConflict(conflict->0))
        } else {
            let (c, l) = relocate(s[i].current_git_dir, s[i].last_known_git_dir, dir);
            Ok(
                upsert_repository(
                    s,
                    RepositoryView {
                        current_git_dir: c,
                        last_known_git_dir: l,
                        display_name: repository_display_name(dir),
                        presence: CatalogPresence::Active,
                        ..s[i]
                    },
                ),
            )
        },
        None => Ok(
            upsert_repository(
                s,
                RepositoryView {
                    id,
                    current_git_dir: Some(dir),
                    last_known_git_dir: dir,
                    display_name: repository_display_name(dir),
                    presence: CatalogPresence::Active,
                },
            ),
        ),
    }
}

pub open spec fn next_worktree(
    s: Seq<WorktreeView>,
    id: WorktreeId,
    repository_id: RepositoryId,
    root: Seq<char>,
    branch: Option<Seq<char>>,
    head: Option<Seq<char>>,
    conflict: Option<Seq<char>>,
) -> Result<Seq<WorktreeView>, GitRejection> {
    match worktree_index(s, id) {
        Some(i) => if s[i].repository_id != repository_id {
            Err(GitRejection::WorktreeRepositoryChanged)
        } else if conflict is Some {
            Err(GitRejection::WorktreeConflict(conflict->0))
        } else {
            let (c, l) = relocate(s[i].current_path, s[i].last_known_path, root);
            Ok(
                upsert_worktree(
                    s,
                    WorktreeView {
                        current_path: c,
                        last_known_path: l,
                        branch,
                        head,
                        display_name: path_display_name(root),
                        presence: CatalogPresence::Active,
                        ..s[i]
                    },
                ),
            )
        },
        None => Ok(
            upsert_worktree(
                s,
                WorktreeView {
                    id,
                    repository_id,
                    current_path: Some(root),
                    last_known_path: root,
                    branch,
                    head,
                    display_name: path_display_name(root),
                    presence: CatalogPresence::Active,
                },
            ),
        ),
    }
}

pub open spec fn next_project(s: Seq<ProjectView>, id: ProjectId, origin: OriginView, display_name: Option<Seq<char>>) -> Result<
    Seq<ProjectView>,
    GitRejection,
> {
    match project_index(s, id) {
        Some(i) => if s[i].origin != origin {
            Err(GitRejection::ProjectOriginChanged)
        } else {
            Ok(upsert_project(s, ProjectView { display_name: renamed(s[i].display_name, display_name), ..s[i] }))
        },
        None => Ok(upsert_project(s, ProjectView { id, origin, display_name })),
    }
}

pub open spec fn next_instance(
    s: Seq<InstanceView>,
    id: ProjectInstanceId,
    project_id: ProjectId,
    worktree_id: WorktreeId,
    root: Seq<char>,
    display_name: Option<Seq<char>>,
    pinned: bool,
    last_seen: u64,
    conflict: Option<Seq<char>>,
) -> Result<Seq<InstanceView>, GitRejection> {
    match instance_index(s, id) {
        Some(i) => if s[i].project_id != project_id || s[i].origin != (ProjectInstanceOrigin::Git { worktree_id }) {
            Err(GitRejection::InstanceRelationshipChanged)
        } else if conflict is Some {
            Err(GitRejection::InstanceConflict(conflict->0))
        } else {
            let (c, l) = relocate(s[i].current_path, s[i].last_known_path, root);
            Ok(
                upsert_instance(
                    s,
                    InstanceView {
                        current_path: c,
                        last_known_path: l,
                        presence: CatalogPresence::Active,
                        display_name: renamed(s[i].display_name, display_name),
                        pinned: s[i].pinned || pinned,
                        last_seen,
                        ..s[i]
                    },
                ),
            )
        },
        None => Ok(
            upsert_instance(
                s,
                InstanceView {
                    id,
                    project_id,
                    origin: ProjectInstanceOrigin::Git { worktree_id },
                    current_path: Some(root),
                    last_known_path: root,
                    presence: CatalogPresence::Active,
                    display_name,
                    pinned,
                    last_seen,
                    domain_slug: None,
                    domain_claims: Seq::empty(),
                },
            ),
        ),
    }
}

/// The catalog after reconciling one Git discovery: its three locators are
/// released by every other record and claimed by the discovered identities,
/// whose records are created or brought up to date; or why it cannot be.
pub open spec fn git_applied(
    v: CatalogView,
    d: ResolvedProjectIdentity,
    branch: Option<Seq<char>>,
    head: Option<Seq<char>>,
    display_name: Option<Seq<char>>,
    pinned: bool,
    last_seen: u64,
    conflicts: LocatorConflicts,
) -> Result<CatalogView, GitRejection> {
    let id = d.identity;
    let dir = d.common_git_dir@;
    let wroot = d.worktree_root@;
    let root = d.project_root@;
    match next_repository(
        retire_repositories(v.repositories, dir, id.repository_id),
        id.repository_id,
        dir,
        opt_view(conflicts.repository),
    ) {
        Err(e) => Err(e),
        Ok(repositories) => match next_worktree(
            retire_worktrees(v.worktrees, wroot, id.worktree_id),
            id.worktree_id,
            id.repository_id,
            wroot,
            branch,
            head,
            opt_view(conflicts.worktree),
        ) {
            Err(e) => Err(e),
            Ok(worktrees) => match next_project(
                v.projects,
                id.project_id,
                OriginView::Git {
                    repository_id: id.repository_id,
                    repository_relative_root: d.repository_relative_project_root@,
                },
                display_name,
            ) {
                Err(e) => Err(e),
                Ok(projects) => match next_instance(
                    retire_instances(v.instances, root, id.project_instance_id),
                    id.project_instance_id,
                    id.project_id,
                    id.worktree_id,
                    root,
                    display_name,
                    pinned,
                    last_seen,
                    opt_view(conflicts.instance),
                ) {
                    Err(e) => Err(e),
                    Ok(instances) => Ok(
                        CatalogView {
                            repositories,
                            worktrees,
                            projects,
                            instances,
                            legacy_paths: legacy_put(v.legacy_paths, root, id.project_instance_id),
                            unresolved: unresolved_without(v.unresolved, root),
                            ..v
                        },
                    ),
                },
            },
        },
    }
}

/// The error reported for a rejected Git discovery.
pub open spec fn rejection_reported(e: CatalogError, rej: GitRejection, d: ResolvedProjectIdentity) -> bool {
    let id = d.identity;
    match rej {
        GitRejection::RepositoryConflict(existing) => e matches CatalogError::LiveIdentityConflict {
            kind,
            identity,
            existing: x,
            discovered,
        } && kind@ == "repository"@ && identity@ == uuid_text(id.repository_id.value) && x@ == existing && discovered@
            == d.common_git_dir@,
        GitRejection::WorktreeRepositoryChanged => e matches CatalogError::Invariant(m) && m@ == "worktree "@ + uuid_text(
            id.worktree_id.value,
        ) + " changed repository identity"@,
        GitRejection::WorktreeConflict(existing) => e matches CatalogError::LiveIdentityConflict {
            kind,
            identity,
            existing: x,
            discovered,
        } && kind@ == "worktree"@ && identity@ == uuid_text(id.worktree_id.value) && x@ == existing && discovered@
            == d.worktree_root@,
        GitRejection::ProjectOriginChanged => e matches CatalogError::Invariant(m) && m@ == "project "@ + uuid_text(
            id.project_id.value,
        ) + " changed its Git origin"@,
        GitRejection::InstanceRelationshipChanged => e matches CatalogError::Invariant(m) && m@ == "project instance "@
            + uuid_text(id.project_instance_id.value) + " changed identity relationships"@,
        GitRejection::InstanceConflict(existing) => e matches CatalogError::LiveIdentityConflict {
            kind,
            identity,
            existing: x,
            discovered,
        } && kind@ == "project instance"@ && identity@ == uuid_text(id.project_instance_id.value) && x@ == existing
            && discovered@ == d.project_root@,
    }
}

/// Move a record's locators to `discovered`.
fn relocate_exec(current: &mut Option<String>, last_known: &mut String, discovered: &String)
    ensures
        (opt_view(*final(current)), final(last_known)@) == relocate(opt_view(*old(current)), old(last_known)@, discovered@),
{
    let here = match current {
        Some(c) => *c == *discovered,
        None => false,
    };
    if here {
        return;
    }
    match current {
        Some(c) => {
            *last_known = c.clone();
        },
        None => {},
    }
    *current = Some(discovered.clone());
}

fn repository_display(common_git_dir: &str) -> (r: Option<String>)
    ensures
        opt_view(r) == repository_display_name(common_git_dir@),
{
    match parent_path(common_git_dir) {
        Some(parent) => file_name(parent.as_str()),
        None => None,
    }
}

fn live_conflict(kind: &str, id: u128, existing: &String, discovered: &String) -> (r: CatalogError)
    ensures
        r matches CatalogError::LiveIdentityConflict { kind: k, identity, existing: x, discovered: d } && k@ == kind@
            && identity@ == uuid_text(id) && x@ == existing@ && d@ == discovered@,
{
    CatalogError::LiveIdentityConflict {
        kind: String::from_str(kind),
        identity: ProjectInstanceId { value: id }.to_string(),
        existing: existing.clone(),
        discovered: discovered.clone(),
    }
}

impl ProjectCatalog {
    /// Reconcile a Git discovery: release its locators from every other
    /// record, then create or update the repository, worktree, project, and
    /// instance records it names. Nothing changes on a rejection.
    #[verifier::rlimit(40)]
    pub(crate) fn apply_git_discovery(
        &mut self,
        resolved: &ResolvedProjectIdentity,
        branch: &Option<String>,
        head: &Option<String>,
        display_name: &Option<String>,
        pinned: bool,
        last_seen: u64,
        conflicts: &LocatorConflicts,
    ) -> (r: Result<ProjectInstanceId, CatalogError>)
        ensures
            match git_applied(
                old(self)@,
                *resolved,
                opt_view(*branch),
                opt_view(*head),
                opt_view(*display_name),
                pinned,
                last_seen,
                *conflicts,
            ) {
                Ok(v) => r == Ok::<ProjectInstanceId, CatalogError>(resolved.identity.project_instance_id) && final(self)@ == v,
                Err(rej) => final(self)@ == old(self)@ && (r matches Err(e) && rejection_reported(e, rej, *resolved)),
            },
    {
        proof {
            use_type_invariant(&*self);
        }
        let id = resolved.identity;
        let mut repos = clone_repositories(&self.repositories);
        release_repositories(&mut repos, &resolved.common_git_dir, id.repository_id);
        let mut worktrees = clone_worktrees(&self.worktrees);
        release_worktrees(&mut worktrees, &resolved.worktree_root, id.worktree_id);
        let mut projects = clone_projects(&self.projects);
        let mut instances = clone_instances(&self.instances);
        release_instances(&mut instances, &resolved.project_root, id.project_instance_id);
        let mut legacy = clone_legacy(&self.legacy_paths);
        put_legacy(&mut legacy, &resolved.project_root, id.project_instance_id);
        let mut unresolved = clone_unresolved(&self.unresolved_legacy);
        drop_unresolved(&mut unresolved, &resolved.project_root);

        let ghost r0 = repos@.map_values(|y: RepositoryRecord| y@);
        let ghost w0 = worktrees@.map_values(|y: WorktreeRecord| y@);
        let ghost p0 = projects@.map_values(|y: ProjectRecord| y@);
        let ghost i0 = instances@.map_values(|y: ProjectInstanceRecord| y@);
        let repo_display = repository_display(resolved.common_git_dir.as_str());
        match locate_repository(&repos, id.repository_id) {
            Some(i) => {
                match &conflicts.repository {
                    Some(existing) => {
                        return Err(live_conflict("repository", id.repository_id.value, existing, &resolved.common_git_dir));
                    },
                    None => {},
                }
                let mut record = repos[i].clone();
                proof {
                    assert(r0[i as int] == repos@[i as int]@);
                    assert(repository_index(r0, id.repository_id) == Some(i as int));
                }
                relocate_exec(&mut record.current_git_dir, &mut record.last_known_git_dir, &resolved.common_git_dir);
                record.display_name = repo_display;
                record.presence = CatalogPresence::Active;
                proof {
                    let (c, l) = relocate(r0[i as int].current_git_dir, r0[i as int].last_known_git_dir, resolved.common_git_dir@);
                    assert(record@ == RepositoryView {
                        current_git_dir: c,
                        last_known_git_dir: l,
                        display_name: repository_display_name(resolved.common_git_dir@),
                        presence: CatalogPresence::Active,
                        ..r0[i as int]
                    });
                }
                put_repository(&mut repos, record);
            },
            None => {
                put_repository(
                    &mut repos,
                    RepositoryRecord {
                        id: id.repository_id,
                        current_git_dir: Some(resolved.common_git_dir.clone()),
                        last_known_git_dir: resolved.common_git_dir.clone(),
                        display_name: repo_display,
                        presence: CatalogPresence::Active,
                    },
                );
            },
        }

        proof {
            assert(next_repository(r0, id.repository_id, resolved.common_git_dir@, opt_view(conflicts.repository)) == Ok::<
                Seq<RepositoryView>,
                GitRejection,
            >(repos@.map_values(|y: RepositoryRecord| y@)));
        }
        let worktree_display = file_name(resolved.worktree_root.as_str());
        match locate_worktree(&worktrees, id.worktree_id) {
            Some(i) => {
                proof {
                    let ws = worktrees@.map_values(|y: WorktreeRecord| y@);
                    assert(ws[i as int] == worktrees@[i as int]@);
                }
                if worktrees[i].repository_id != id.repository_id {
                    return Err(super::validate::broken("worktree ", id.worktree_id.value, " changed repository identity"));
                }
                match &conflicts.worktree {
                    Some(existing) => {
                        return Err(live_conflict("worktree", id.worktree_id.value, existing, &resolved.worktree_root));
                    },
                    None => {},
                }
                let mut record = worktrees[i].clone();
                relocate_exec(&mut record.current_path, &mut record.last_known_path, &resolved.worktree_root);
                record.branch = clone_opt(branch);
                record.head = clone_opt(head);
                record.display_name = worktree_display;
                record.presence = CatalogPresence::Active;
                put_worktree(&mut worktrees, record);
            },
            None => {
                put_worktree(
                    &mut worktrees,
                    WorktreeRecord {
                        id: id.worktree_id,
                        repository_id: id.repository_id,
                        current_path: Some(resolved.worktree_root.clone()),
                        last_known_path: resolved.worktree_root.clone(),
                        branch: clone_opt(branch),
                        head: clone_opt(head),
                        display_name: worktree_display,
                        presence: CatalogPresence::Active,
                    },
                );
            },
        }

        proof {
            assert(next_worktree(
                w0,
                id.worktree_id,
                id.repository_id,
                resolved.worktree_root@,
                opt_view(*branch),
                opt_view(*head),
                opt_view(conflicts.worktree),
            ) == Ok::<Seq<WorktreeView>, GitRejection>(worktrees@.map_values(|y: WorktreeRecord| y@)));
        }
        let origin = ProjectOrigin::Git {
            repository_id: id.repository_id,
            repository_relative_root: resolved.repository_relative_project_root.clone(),
        };
        match locate_project(&projects, id.project_id) {
            Some(i) => {
                let same = match &projects[i].origin {
                    ProjectOrigin::Git { repository_id, repository_relative_root } => *repository_id == id.repository_id
                        && *repository_relative_root == resolved.repository_relative_project_root,
                    ProjectOrigin::NonGit => false,
                };
                if !same {
                    return Err(super::validate::broken("project ", id.project_id.value, " changed its Git origin"));
                }
                let mut record = projects[i].clone();
                if display_name.is_some() {
                    record.display_name = clone_opt(display_name);
                }
                put_project(&mut projects, record);
            },
            None => {
                put_project(&mut projects, ProjectRecord { id: id.project_id, origin, display_name: clone_opt(display_name) });
            },
        }

        proof {
            assert(next_project(
                p0,
                id.project_id,
                OriginView::Git {
                    repository_id: id.repository_id,
                    repository_relative_root: resolved.repository_relative_project_root@,
                },
                opt_view(*display_name),
            ) == Ok::<Seq<ProjectView>, GitRejection>(projects@.map_values(|y: ProjectRecord| y@)));
        }
        let instance_origin = ProjectInstanceOrigin::Git { worktree_id: id.worktree_id };
        match locate_instance(&instances, id.project_instance_id) {
            Some(i) => {
                if instances[i].project_id != id.project_id || instances[i].origin != instance_origin {
                    return Err(
                        super::validate::broken(
                            "project instance ",
                            id.project_instance_id.value,
                            " changed identity relationships",
                        ),
                    );
                }
                match &conflicts.instance {
                    Some(existing) => {
                        return Err(
                            live_conflict("project instance", id.project_instance_id.value, existing, &resolved.project_root),
                        );
                    },
                    None => {},
                }
                let mut record = instances[i].clone();
                relocate_exec(&mut record.current_path, &mut record.last_known_path, &resolved.project_root);
                record.presence = CatalogPresence::Active;
                if display_name.is_some() {
                    record.display_name = clone_opt(display_name);
                }
                record.pinned = record.pinned || pinned;
                record.last_seen = last_seen;
                put_instance(&mut instances, record);
            },
            None => {
                let record = ProjectInstanceRecord {
                    id: id.project_instance_id,
                    project_id: id.project_id,
                    origin: instance_origin,
                    current_path: Some(resolved.project_root.clone()),
                    last_known_path: resolved.project_root.clone(),
                    presence: CatalogPresence::Active,
                    display_name: clone_opt(display_name),
                    pinned,
                    last_seen,
                    domain_slug: None,
                    domain_claims: Vec::new(),
                };
                proof {
                    assert(record@.domain_claims =~= Seq::<Seq<char>>::empty());
                }
                put_instance(&mut instances, record);
            },
        }
        proof {
            assert(next_instance(
                i0,
                id.project_instance_id,
                id.project_id,
                id.worktree_id,
                resolved.project_root@,
                opt_view(*display_name),
                pinned,
                last_seen,
                opt_view(conflicts.instance),
            ) == Ok::<Seq<InstanceView>, GitRejection>(instances@.map_values(|y: ProjectInstanceRecord| y@)));
        }
        self.repositories = repos;
        self.worktrees = worktrees;
        self.projects = projects;
        self.instances = instances;
        self.legacy_paths = legacy;
        self.unresolved_legacy = unresolved;
        Ok(id.project_instance_id)
    }
}

/// Whether `i` is the first instance currently at `path`.
pub open spec fn first_at(s: Seq<InstanceView>, path: Seq<char>, i: int) -> bool {
    0 <= i < s.len() && s[i].current_path == Some(path) && forall|j: int| 0 <= j < i ==> s[j].current_path != Some(path)
}

/// The first instance, in identity order, currently at `path`.
pub open spec fn first_current_at(s: Seq<InstanceView>, path: Seq<char>) -> Option<int> {
    if exists|i: int| 0 <= i < s.len() && s[i].current_path == Some(path) {
        Some(choose|i: int| #[trigger] first_at(s, path, i))
    } else {
        None
    }
}

/// A non-Git instance that was last seen at `root` and is not current anywhere.
pub open spec fn detached_at(r: InstanceView, root: Seq<char>) -> bool {
    r.origin == ProjectInstanceOrigin::NonGit && r.current_path is None && r.last_known_path == root
}

/// `a` was seen later than `b`, identities breaking ties.
pub open spec fn seen_later(a: InstanceView, b: InstanceView) -> bool {
    a.last_seen > b.last_seen || (a.last_seen == b.last_seen && a.id.value > b.id.value)
}

/// Whether `i` is the latest detached non-Git instance at `root`.
pub open spec fn latest_at(s: Seq<InstanceView>, root: Seq<char>, i: int) -> bool {
    0 <= i < s.len() && detached_at(s[i], root) && forall|j: int|
        0 <= j < s.len() && j != i && #[trigger] detached_at(s[j], root) ==> seen_later(s[i], s[j])
}

/// The latest detached non-Git instance at `root`.
pub open spec fn latest_detached(s: Seq<InstanceView>, root: Seq<char>) -> Option<int> {
    if exists|i: int| 0 <= i < s.len() && detached_at(s[i], root) {
        Some(choose|i: int| #[trigger] latest_at(s, root, i))
    } else {
        None
    }
}

/// A legacy alias of `root` naming a detached non-Git instance at `root`.
pub open spec fn aliased_non_git(v: CatalogView, root: Seq<char>) -> Option<ProjectInstanceId> {
    match legacy_index(v.legacy_paths, root) {
        Some(i) => match instance_index(v.instances, v.legacy_paths[i].1) {
            Some(j) => if detached_at(v.instances[j], root) {
                Some(v.legacy_paths[i].1)
            } else {
                None
            },
            None => None,
        },
        None => None,
    }
}

/// The non-Git instance a discovery at `root` continues: the instance
/// currently there if it is non-Git, else one aliased there, else the
/// latest one last seen there.
pub open spec fn continued_non_git(v: CatalogView, root: Seq<char>) -> Option<ProjectInstanceId> {
    match first_current_at(v.instances, root) {
        Some(i) if v.instances[i].origin == ProjectInstanceOrigin::NonGit => Some(v.instances[i].id),
        _ => match aliased_non_git(v, root) {
            Some(id) => Some(id),
            None => match latest_detached(v.instances, root) {
                Some(j) => Some(v.instances[j].id),
                None => None,
            },
        },
    }
}

/// The catalog after reconciling a non-Git project at `root`, and the
/// instance it is: a continued instance is brought back to `root`; else the
/// fresh identities become a new project and instance.
pub open spec fn non_git_applied(
    v: CatalogView,
    root: Seq<char>,
    display_name: Option<Seq<char>>,
    pinned: bool,
    last_seen: u64,
    fresh: (ProjectId, ProjectInstanceId),
) -> (CatalogView, ProjectInstanceId) {
    match continued_non_git(v, root) {
        Some(eid) => {
            let instances = retire_instances(v.instances, root, eid);
            match instance_index(instances, eid) {
                Some(j) => (
                    CatalogView {
                        instances: upsert_instance(
                            instances,
                            InstanceView {
                                display_name: renamed(instances[j].display_name, display_name),
                                pinned: instances[j].pinned || pinned,
                                last_seen,
                                current_path: Some(root),
                                presence: CatalogPresence::Active,
                                ..instances[j]
                            },
                        ),
                        legacy_paths: legacy_put(v.legacy_paths, root, eid),
                        unresolved: unresolved_without(v.unresolved, root),
                        ..v
                    },
                    eid,
                ),
                None => (v, eid),
            }
        },
        None => {
            let (pid, iid) = fresh;
            (
                CatalogView {
                    projects: upsert_project(v.projects, ProjectView { id: pid, origin: OriginView::NonGit, display_name }),
                    instances: upsert_instance(
                        retire_instances(v.instances, root, iid),
                        InstanceView {
                            id: iid,
                            project_id: pid,
                            origin: ProjectInstanceOrigin::NonGit,
                            current_path: Some(root),
                            last_known_path: root,
                            presence: CatalogPresence::Active,
                            display_name,
                            pinned,
                            last_seen,
                            domain_slug: None,
                            domain_claims: Seq::empty(),
                        },
                    ),
                    legacy_paths: legacy_put(v.legacy_paths, root, iid),
                    unresolved: unresolved_without(v.unresolved, root),
                    ..v
                },
                iid,
            )
        },
    }
}

impl ProjectCatalog {
    fn first_instance_at(&self, path: &String) -> (r: Option<usize>)
        ensures
            r matches Some(i) ==> i < self@.instances.len() && first_current_at(self@.instances, path@) == Some(i as int),
            r is None ==> first_current_at(self@.instances, path@) is None,
    {
        let ghost s = self@.instances;
        let mut i: usize = 0;
        while i < self.instances.len()
            invariant
                i <= self.instances@.len(),
                s == self@.instances,
                s == self.instances@.map_values(|y: ProjectInstanceRecord| y@),
                forall|j: int| 0 <= j < i ==> s[j].current_path != Some(path@),
            decreases self.instances@.len() - i,
        {
            let hit = match &self.instances[i].current_path {
                Some(c) => *c == *path,
                None => false,
            };
            proof {
                assert(s[i as int] == self.instances@[i as int]@);
            }
            if hit {
                proof {
                    assert(first_at(s, path@, i as int));
                    let k = choose|k: int| #[trigger] first_at(s, path@, k);
                    assert(first_at(s, path@, k));
                    if k < i {
                        assert(s[k].current_path != Some(path@));
                    }
                    if k > i {
                        assert(s[i as int].current_path != Some(path@));
                    }
                }
                return Some(i);
            }
            i = i + 1;
        }
        None
    }

    fn latest_detached_at(&self, root: &String) -> (r: Option<usize>)
        ensures
            r matches Some(i) ==> i < self@.instances.len() && latest_detached(self@.instances, root@) == Some(i as int),
            r is None ==> latest_detached(self@.instances, root@) is None,
    {
        proof {
            use_type_invariant(self);
        }
        let ghost s = self@.instances;
        let mut best: Option<usize> = None;
        let mut i: usize = 0;
        while i < self.instances.len()
            invariant
                i <= self.instances@.len(),
                s == self@.instances,
                s == self.instances@.map_values(|y: ProjectInstanceRecord| y@),
                super::ascending(super::instance_ids(s)),
                best is None ==> forall|j: int| 0 <= j < i ==> !detached_at(s[j], root@),
                best matches Some(b) ==> b < i && detached_at(s[b as int], root@) && forall|j: int|
                    0 <= j < i && j != b && #[trigger] detached_at(s[j], root@) ==> seen_later(s[b as int], s[j]),
            decreases self.instances@.len() - i,
        {
            let rec = &self.instances[i];
            proof {
                assert(s[i as int] == rec@);
            }
            let detached = rec.origin == ProjectInstanceOrigin::NonGit && rec.current_path.is_none()
                && rec.last_known_path == *root;
            if detached {
                match best {
                    None => {
                        best = Some(i);
                    },
                    Some(b) => {
                        let cur = &self.instances[b];
                        proof {
                            assert(s[b as int] == cur@);
                            assert(super::instance_ids(s)[b as int] == s[b as int].id.value);
                            assert(super::instance_ids(s)[i as int] == s[i as int].id.value);
                        }
                        if rec.last_seen > cur.last_seen || (rec.last_seen == cur.last_seen && rec.id.value > cur.id.value) {
                            proof {
                                assert forall|j: int| 0 <= j <= i && j != i && #[trigger] detached_at(s[j], root@) implies seen_later(
                                    s[i as int],
                                    s[j],
                                ) by {
                                    if j != b {
                                        assert(seen_later(s[b as int], s[j]));
                                    }
                                }
                            }
                            best = Some(i);
                        }
                    },
                }
            }
            i = i + 1;
        }
        match best {
            None => None,
            Some(b) => {
                proof {
                    assert(latest_at(s, root@, b as int));
                    let k = choose|k: int| #[trigger] latest_at(s, root@, k);
                    assert(latest_at(s, root@, k));
                    if k != b {
                        assert(seen_later(s[b as int], s[k]));
                        assert(seen_later(s[k], s[b as int]));
                    }
                }
                Some(b)
            },
        }
    }

    fn continued_non_git_exec(&self, root: &String) -> (r: Option<ProjectInstanceId>)
        ensures
            r == continued_non_git(self@, root@),
    {
        proof {
            use_type_invariant(self);
        }
        let ghost v = self@;
        match self.first_instance_at(root) {
            Some(i) => {
                proof {
                    assert(v.instances[i as int] == self.instances@[i as int]@);
                }
                if self.instances[i].origin == ProjectInstanceOrigin::NonGit {
                    return Some(self.instances[i].id);
                }
            },
            None => {},
        }
        let aliased = match locate_legacy(&self.legacy_paths, root) {
            Some(li) => {
                let id = self.legacy_paths[li].1;
                proof {
                    assert(v.legacy_paths[li as int] == (self.legacy_paths@[li as int].0@, self.legacy_paths@[li as int].1));
                }
                match locate_instance(&self.instances, id) {
                    Some(j) => {
                        let rec = &self.instances[j];
                        proof {
                            assert(v.instances[j as int] == rec@);
                        }
                        if rec.origin == ProjectInstanceOrigin::NonGit && rec.current_path.is_none() && rec.last_known_path
                            == *root {
                            Some(id)
                        } else {
                            None
                        }
                    },
                    None => None,
                }
            },
            None => None,
        };
        proof {
            assert(aliased == aliased_non_git(v, root@));
        }
        match aliased {
            Some(id) => {
                return Some(id);
            },
            None => {},
        }
        match self.latest_detached_at(root) {
            Some(j) => {
                proof {
                    assert(v.instances[j as int] == self.instances@[j as int]@);
                }
                Some(self.instances[j].id)
            },
            None => None,
        }
    }

    /// Reconcile a non-Git project at `root`, continuing the instance last
    /// seen there or recording `fresh` as a new project and instance.
    pub(crate) fn apply_non_git_discovery(
        &mut self,
        root: &String,
        display_name: &Option<String>,
        pinned: bool,
        last_seen: u64,
        fresh: (ProjectId, ProjectInstanceId),
    ) -> (r: ProjectInstanceId)
        ensures
            (final(self)@, r) == non_git_applied(old(self)@, root@, opt_view(*display_name), pinned, last_seen, fresh),
    {
        proof {
            use_type_invariant(&*self);
        }
        let existing = self.continued_non_git_exec(root);
        let eid = match existing {
            Some(eid) => eid,
            None => fresh.1,
        };
        let mut instances = clone_instances(&self.instances);
        release_instances(&mut instances, root, eid);
        let mut legacy = clone_legacy(&self.legacy_paths);
        put_legacy(&mut legacy, root, eid);
        let mut unresolved = clone_unresolved(&self.unresolved_legacy);
        drop_unresolved(&mut unresolved, root);
        let ghost i0 = instances@.map_values(|y: ProjectInstanceRecord| y@);
        match existing {
            Some(eid) => {
                match locate_instance(&instances, eid) {
                    Some(j) => {
                        let mut record = instances[j].clone();
                        proof {
                            assert(i0[j as int] == instances@[j as int]@);
                        }
                        if display_name.is_some() {
                            record.display_name = clone_opt(display_name);
                        }
                        record.pinned = record.pinned || pinned;
                        record.last_seen = last_seen;
                        record.current_path = Some(root.clone());
                        record.presence = CatalogPresence::Active;
                        put_instance(&mut instances, record);
                    },
                    None => {
                        return eid;
                    },
                }
            },
            None => {
                let mut projects = clone_projects(&self.projects);
                put_project(&mut projects, ProjectRecord { id: fresh.0, origin: ProjectOrigin::NonGit, display_name: clone_opt(display_name) });
                let record = ProjectInstanceRecord {
                    id: fresh.1,
                    project_id: fresh.0,
                    origin: ProjectInstanceOrigin::NonGit,
                    current_path: Some(root.clone()),
                    last_known_path: root.clone(),
                    presence: CatalogPresence::Active,
                    display_name: clone_opt(display_name),
                    pinned,
                    last_seen,
                    domain_slug: None,
                    domain_claims: Vec::new(),
                };
                proof {
                    assert(record@.domain_claims =~= Seq::<Seq<char>>::empty());
                }
                put_instance(&mut instances, record);
                self.projects = projects;
            },
        }
        self.instances = instances;
        self.legacy_paths = legacy;
        self.unresolved_legacy = unresolved;
        eid
    }
}

/// The catalog after reconciling a discovery (and recording an extra alias
/// when one is given), with the instance it resolved to; or why a Git
/// discovery cannot be reconciled.
pub open spec fn discovery_applied(
    v: CatalogView,
    d: ProjectDiscovery,
    display_name: Option<Seq<char>>,
    pinned: bool,
    last_seen: u64,
    legacy_path: Option<Seq<char>>,
    conflicts: LocatorConflicts,
    fresh: (ProjectId, ProjectInstanceId),
) -> Result<(CatalogView, ProjectInstanceId), GitRejection> {
    let base = match d {
        ProjectDiscovery::Git { resolved, branch, head } => match git_applied(
            v,
            resolved,
            opt_view(branch),
            opt_view(head),
            display_name,
            pinned,
            last_seen,
            conflicts,
        ) {
            Ok(nv) => Ok((nv, resolved.identity.project_instance_id)),
            Err(e) => Err(e),
        },
        ProjectDiscovery::NonGit { project_root } => Ok(
            non_git_applied(v, project_root@, display_name, pinned, last_seen, fresh),
        ),
    };
    match base {
        Ok((nv, id)) => Ok(
            (
                match legacy_path {
                    Some(p) => CatalogView { legacy_paths: legacy_put(nv.legacy_paths, p, id), ..nv },
                    None => nv,
                },
                id,
            ),
        ),
        Err(e) => Err(e),
    }
}

/// The error reported when a discovery is rejected.
pub open spec fn discovery_rejection_reported(e: CatalogError, rej: GitRejection, d: ProjectDiscovery) -> bool {
    match d {
        ProjectDiscovery::Git { resolved, .. } => rejection_reported(e, rej, resolved),
        ProjectDiscovery::NonGit { .. } => false,
    }
}

impl ProjectCatalog {
    /// Reconcile a discovery as one transaction: the catalog changes only
    /// when the discovery is accepted and the result validates.
    pub fn apply_discovery(
        &mut self,
        discovery: &ProjectDiscovery,
        display_name: &Option<String>,
        pinned: bool,
        last_seen: u64,
        legacy_path: &Option<String>,
        conflicts: &LocatorConflicts,
        fresh: (ProjectId, ProjectInstanceId),
    ) -> (r: Result<ProjectInstanceId, CatalogError>)
        ensures
            match discovery_applied(
                old(self)@,
                *discovery,
                opt_view(*display_name),
                pinned,
                last_seen,
                opt_view(*legacy_path),
                *conflicts,
                fresh,
            ) {
                Ok((nv, id)) => if super::validate::catalog_valid(nv) {
                    r == Ok::<ProjectInstanceId, CatalogError>(id) && final(self)@ == nv
                } else {
                    final(self)@ == old(self)@ && (r matches Err(e) && super::validate::validation_error(e))
                },
                Err(rej) => final(self)@ == old(self)@ && (r matches Err(e) && discovery_rejection_reported(e, rej, *discovery)),
            },
    {
        proof {
            use_type_invariant(&*self);
        }
        let ghost v0 = self@;
        let saved_repositories = clone_repositories(&self.repositories);
        let saved_worktrees = clone_worktrees(&self.worktrees);
        let saved_projects = clone_projects(&self.projects);
        let saved_instances = clone_instances(&self.instances);
        let saved_legacy = clone_legacy(&self.legacy_paths);
        let saved_unresolved = clone_unresolved(&self.unresolved_legacy);
        let id = match discovery {
            ProjectDiscovery::Git { resolved, branch, head } => {
                match self.apply_git_discovery(resolved, branch, head, display_name, pinned, last_seen, conflicts) {
                    Ok(id) => id,
                    Err(e) => {
                        return Err(e);
                    },
                }
            },
            ProjectDiscovery::NonGit { project_root } => {
                self.apply_non_git_discovery(project_root, display_name, pinned, last_seen, fresh)
            },
        };
        match legacy_path {
            Some(p) => {
                proof {
                    use_type_invariant(&*self);
                }
                let mut legacy = clone_legacy(&self.legacy_paths);
                put_legacy(&mut legacy, p, id);
                self.legacy_paths = legacy;
            },
            None => {},
        }
        match self.validate() {
            Ok(()) => Ok(id),
            Err(e) => {
                proof {
                    use_type_invariant(&*self);
                    assert(super::tables_ordered(v0));
                }
                self.repositories = saved_repositories;
                self.worktrees = saved_worktrees;
                self.projects = saved_projects;
                self.instances = saved_instances;
                self.legacy_paths = saved_legacy;
                self.unresolved_legacy = saved_unresolved;
                Err(e)
            },
        }
    }
}

/// The listed paths that have unresolved evidence, in list order.
pub open spec fn found_paths(u: Seq<UnresolvedView>, ms: Seq<Seq<char>>) -> Seq<Seq<char>>
    decreases ms.len(),
{
    if ms.len() == 0 {
        Seq::empty()
    } else if unresolved_index(u, ms.last()) is Some {
        found_paths(u, ms.drop_last()).push(ms.last())
    } else {
        found_paths(u, ms.drop_last())
    }
}

/// The first display name recorded for a listed unresolved path.
pub open spec fn first_found_name(u: Seq<UnresolvedView>, ms: Seq<Seq<char>>) -> Option<Seq<char>>
    decreases ms.len(),
{
    if ms.len() == 0 {
        None
    } else {
        match first_found_name(u, ms.drop_last()) {
            Some(n) => Some(n),
            None => match unresolved_index(u, ms.last()) {
                Some(i) => u[i].display_name,
                None => None,
            },
        }
    }
}

/// Whether any listed unresolved path was pinned.
pub open spec fn any_found_pinned(u: Seq<UnresolvedView>, ms: Seq<Seq<char>>) -> bool {
    exists|k: int| 0 <= k < ms.len() && (unresolved_index(u, #[trigger] ms[k]) matches Some(i) && u[i].pinned)
}

/// The catalog with each path moved from unresolved evidence to an alias of `id`.
pub open spec fn adopted(v: CatalogView, ps: Seq<Seq<char>>, id: ProjectInstanceId) -> CatalogView
    decreases ps.len(),
{
    if ps.len() == 0 {
        v
    } else {
        let w = adopted(v, ps.drop_last(), id);
        CatalogView {
            unresolved: unresolved_without(w.unresolved, ps.last()),
            legacy_paths: legacy_put(w.legacy_paths, ps.last(), id),
            ..w
        }
    }
}

/// What registering a discovery does: listed unresolved paths lend their
/// first name (unless one is given) and any pin; the discovery is
/// reconciled, and those paths become aliases of the instance; the catalog
/// changes only if the discovery is accepted and both stages validate.
pub open spec fn registration_outcome(
    old: CatalogView,
    new: CatalogView,
    r: Result<ProjectInstanceId, CatalogError>,
    discovery: ProjectDiscovery,
    display_name: Option<Seq<char>>,
    now: u64,
    conflicts: LocatorConflicts,
    fresh: (ProjectId, ProjectInstanceId),
    ms: Seq<Seq<char>>,
) -> bool {
    let u = old.unresolved;
    let name = if display_name is Some {
        display_name
    } else {
        first_found_name(u, ms)
    };
    match discovery_applied(old, discovery, name, any_found_pinned(u, ms), now, None, conflicts, fresh) {
        Err(rej) => new == old && (r matches Err(e) && discovery_rejection_reported(e, rej, discovery)),
        Ok((nv, id)) => {
            let fv = adopted(nv, found_paths(u, ms), id);
            if super::validate::catalog_valid(nv) && super::validate::catalog_valid(fv) {
                r == Ok::<ProjectInstanceId, CatalogError>(id) && new == fv
            } else {
                new == old && (r matches Err(e) && super::validate::validation_error(e))
            }
        },
    }
}

impl ProjectCatalog {
    /// Reconcile a discovered project and return its stable instance
    /// identity. The unresolved legacy paths naming the same location as the
    /// project root (`normalized_root` is the root's normalized form and
    /// `normalized_keys` that of each unresolved path, in table order) carry
    /// their name and pin over and become aliases of the instance. `fresh`
    /// names a non-Git project seen for the first time. The catalog changes
    /// only if everything validates.
    pub fn register_project(
        &mut self,
        discovery: &ProjectDiscovery,
        display_name: &Option<String>,
        now: u64,
        conflicts: &LocatorConflicts,
        fresh: (ProjectId, ProjectInstanceId),
        normalized_root: &String,
        normalized_keys: &Vec<Option<String>>,
    ) -> (r: Result<ProjectInstanceId, CatalogError>)
        requires
            normalized_keys@.len() == old(self)@.unresolved.len(),
        ensures
            registration_outcome(
                old(self)@,
                final(self)@,
                r,
                *discovery,
                opt_view(*display_name),
                now,
                *conflicts,
                fresh,
                super::mutate::matching_paths(
                    old(self)@.unresolved,
                    normalized_keys@.map_values(|o: Option<String>| opt_view(o)),
                    super::records::discovery_root(*discovery)@,
                    normalized_root@,
                ),
            ),
    {
        let matching = self.matching_unresolved_paths(discovery.project_root(), normalized_root, normalized_keys);
        self.register_matching(discovery, display_name, now, conflicts, fresh, &matching)
    }

    fn register_matching(
        &mut self,
        discovery: &ProjectDiscovery,
        display_name: &Option<String>,
        now: u64,
        conflicts: &LocatorConflicts,
        fresh: (ProjectId, ProjectInstanceId),
        matching: &Vec<String>,
    ) -> (r: Result<ProjectInstanceId, CatalogError>)
        ensures
            registration_outcome(
                old(self)@,
                final(self)@,
                r,
                *discovery,
                opt_view(*display_name),
                now,
                *conflicts,
                fresh,
                crate::domain::string_views(matching@),
            ),
    {
        proof {
            use_type_invariant(&*self);
        }
        let ghost v0 = self@;
        let ghost u = v0.unresolved;
        let ghost ms = crate::domain::string_views(matching@);
        let mut found: Vec<String> = Vec::new();
        let mut name: Option<String> = None;
        let mut pinned = false;
        let mut k: usize = 0;
        proof {
            assert(ms.take(0) =~= Seq::<Seq<char>>::empty());
            assert(crate::domain::string_views(found@) =~= Seq::<Seq<char>>::empty());
        }
        while k < matching.len()
            invariant
                k <= matching@.len(),
                v0 == self@,
                u == v0.unresolved,
                ms == crate::domain::string_views(matching@),
                crate::domain::string_views(found@) == found_paths(u, ms.take(k as int)),
                opt_view(name) == first_found_name(u, ms.take(k as int)),
                pinned == any_found_pinned(u, ms.take(k as int)),
            decreases matching@.len() - k,
        {
            proof {
                assert(ms.take(k + 1).drop_last() =~= ms.take(k as int));
                assert(ms.take(k + 1).last() == matching@[k as int]@);
            }
            match self.locate_unresolved(&matching[k]) {
                Some(i) => {
                    let ghost before = crate::domain::string_views(found@);
                    found.push(matching[k].clone());
                    proof {
                        assert(crate::domain::string_views(found@) =~= before.push(matching@[k as int]@));
                        assert(u[i as int] == self.unresolved_legacy@[i as int]@);
                    }
                    if name.is_none() {
                        name = clone_opt(&self.unresolved_legacy[i].display_name);
                    }
                    if self.unresolved_legacy[i].pinned {
                        proof {
                            assert(ms.take(k + 1)[k as int] == matching@[k as int]@);
                        }
                    }
                    proof {
                        if pinned {
                            let q = choose|q: int| 0 <= q < k && (unresolved_index(u, #[trigger] ms.take(k as int)[q]) matches Some(i) && u[i].pinned);
                            assert(ms.take(k + 1)[q] == ms.take(k as int)[q]);
                        }
                        if any_found_pinned(u, ms.take(k + 1)) && !self.unresolved_legacy@[i as int].pinned {
                            let q = choose|q: int| 0 <= q < k + 1 && (unresolved_index(u, #[trigger] ms.take(k + 1)[q]) matches Some(i) && u[i].pinned);
                            assert(q < k);
                            assert(ms.take(k + 1)[q] == ms.take(k as int)[q]);
                        }
                    }
                    pinned = pinned || self.unresolved_legacy[i].pinned;
                },
                None => {
                    proof {
                        if pinned {
                            let q = choose|q: int| 0 <= q < k && (unresolved_index(u, #[trigger] ms.take(k as int)[q]) matches Some(i) && u[i].pinned);
                            assert(ms.take(k + 1)[q] == ms.take(k as int)[q]);
                        }
                        if any_found_pinned(u, ms.take(k + 1)) {
                            let q = choose|q: int| 0 <= q < k + 1 && (unresolved_index(u, #[trigger] ms.take(k + 1)[q]) matches Some(i) && u[i].pinned);
                            assert(q < k);
                            assert(ms.take(k + 1)[q] == ms.take(k as int)[q]);
                        }
                    }
                },
            }
            k = k + 1;
        }
        proof {
            assert(ms.take(ms.len() as int) =~= ms);
        }
        let inherited = if display_name.is_some() {
            clone_opt(display_name)
        } else {
            name
        };
        let saved_repositories = clone_repositories(&self.repositories);
        let saved_worktrees = clone_worktrees(&self.worktrees);
        let saved_projects = clone_projects(&self.projects);
        let saved_instances = clone_instances(&self.instances);
        let saved_legacy = clone_legacy(&self.legacy_paths);
        let saved_unresolved = clone_unresolved(&self.unresolved_legacy);
        let id = match self.apply_discovery(discovery, &inherited, pinned, now, &None, conflicts, fresh) {
            Ok(id) => id,
            Err(e) => {
                return Err(e);
            },
        };
        let ghost nv = self@;
        proof {
            use_type_invariant(&*self);
        }
        let mut legacy = clone_legacy(&self.legacy_paths);
        let mut unresolved = clone_unresolved(&self.unresolved_legacy);
        let mut j: usize = 0;
        proof {
            let fs = found_paths(u, ms);
            assert(fs.take(0) =~= Seq::<Seq<char>>::empty());
        }
        while j < found.len()
            invariant
                j <= found@.len(),
                crate::domain::string_views(found@) == found_paths(u, ms),
                super::texts_ascending(super::legacy_keys(legacy@.map_values(|e: (String, ProjectInstanceId)| (e.0@, e.1)))),
                super::texts_ascending(super::unresolved_keys(unresolved@.map_values(|x: UnresolvedLegacyProject| x@))),
                adopted(nv, found_paths(u, ms).take(j as int), id) == (CatalogView {
                    unresolved: unresolved@.map_values(|x: UnresolvedLegacyProject| x@),
                    legacy_paths: legacy@.map_values(|e: (String, ProjectInstanceId)| (e.0@, e.1)),
                    ..nv
                }),
            decreases found@.len() - j,
        {
            proof {
                let fs = found_paths(u, ms);
                assert(fs.take(j + 1).drop_last() =~= fs.take(j as int));
                assert(fs.take(j + 1).last() == found@[j as int]@);
            }
            drop_unresolved(&mut unresolved, &found[j]);
            put_legacy(&mut legacy, &found[j], id);
            j = j + 1;
        }
        proof {
            let fs = found_paths(u, ms);
            assert(fs.take(fs.len() as int) =~= fs);
        }
        self.legacy_paths = legacy;
        self.unresolved_legacy = unresolved;
        match self.validate() {
            Ok(()) => Ok(id),
            Err(e) => {
                proof {
                    use_type_invariant(&*self);
                    assert(super::tables_ordered(v0));
                }
                self.repositories = saved_repositories;
                self.worktrees = saved_worktrees;
                self.projects = saved_projects;
                self.instances = saved_instances;
                self.legacy_paths = saved_legacy;
                self.unresolved_legacy = saved_unresolved;
                Err(e)
            },
        }
    }
}

} // verus!
