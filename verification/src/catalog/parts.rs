//! Assembling a catalog from decoded tables.

use super::records::{
    ProjectInstanceRecord, ProjectRecord, RepositoryRecord, UnresolvedLegacyProject, WorktreeRecord,
};
use super::{
    ascending, binding_keys, instance_ids, legacy_keys, project_ids, repository_ids, texts_ascending, unresolved_keys,
    worktree_ids, CatalogError, CatalogView, ProjectCatalog,
};
use crate::agent::AgentConversationKey;
use crate::domain::DomainIndex;
use crate::identity::{ProjectId, ProjectInstanceId, RepositoryId, WorktreeId};
use crate::text::{compare_chars, lemma_lex_transitive, lex_lt, str_chars};
use vstd::prelude::*;

verus! {

/// Keyed entries whose keys name their records and strictly increase.
pub open spec fn keyed_repositories(e: Seq<(RepositoryId, RepositoryRecord)>) -> bool {
    &&& forall|i: int| 0 <= i < e.len() ==> (#[trigger] e[i]).0 == e[i].1.id
    &&& forall|i: int, j: int| 0 <= i < j < e.len() ==> (#[trigger] e[i]).0.value < (#[trigger] e[j]).0.value
}

fn unkey_repositories(e: Vec<(RepositoryId, RepositoryRecord)>) -> (r: Result<Vec<RepositoryRecord>, CatalogError>)
    ensures
        r is Ok <==> keyed_repositories(e@),
        r matches Ok(v) ==> v@.map_values(|x: RepositoryRecord| x@) == e@.map_values(|p: (RepositoryId, RepositoryRecord)| p.1@) && ascending(
            repository_ids(v@.map_values(|x: RepositoryRecord| x@)),
        ),
        r matches Err(x) ==> x is Invariant,
{
    let mut v: Vec<RepositoryRecord> = Vec::new();
    let ghost orig = e@;
    let n = e.len();
    let mut i: usize = 0;
    while i < n
        invariant
            n == orig.len(),
            i <= n,
            e@ == orig,
            v@.len() == i,
            forall|k: int| 0 <= k < i ==> v@[k]@ == orig[k].1@,
            forall|k: int| 0 <= k < i ==> (#[trigger] orig[k]).0 == orig[k].1.id,
            forall|a: int, b: int| 0 <= a < b < i ==> (#[trigger] orig[a]).0.value < (#[trigger] orig[b]).0.value,
        decreases n - i,
    {
        if e[i].0 != e[i].1.id {
            return Err(CatalogError::Invariant(String::from_str("repository map key does not match its record")));
        }
        if i > 0 && e[i - 1].0.value >= e[i].0.value {
            proof {
                assert(!(orig[i - 1].0.value < orig[i as int].0.value));
            }
            return Err(CatalogError::Invariant(String::from_str("repository map keys are not in order")));
        }
        proof {
            assert forall|a: int, b: int| 0 <= a < b < i + 1 implies (#[trigger] orig[a]).0.value < (#[trigger] orig[b]).0.value by {
                if b == i && a < i - 1 {
                    assert(orig[a].0.value < orig[i - 1].0.value);
                }
            }
        }
        v.push(e[i].1.clone());
        i = i + 1;
    }
    proof {
        assert(v@.map_values(|x: RepositoryRecord| x@) =~= orig.map_values(|p: (RepositoryId, RepositoryRecord)| p.1@));
        let ghost idv = repository_ids(v@.map_values(|x: RepositoryRecord| x@));
        assert forall|a: int, b: int| 0 <= a < b < v@.len() implies #[trigger] idv[a] < #[trigger] idv[b] by {
            assert(idv[a] == orig[a].0.value);
            assert(idv[b] == orig[b].0.value);
        }
    }
    Ok(v)
}

/// Keyed entries whose keys name their records and strictly increase.
pub open spec fn keyed_worktrees(e: Seq<(WorktreeId, WorktreeRecord)>) -> bool {
    &&& forall|i: int| 0 <= i < e.len() ==> (#[trigger] e[i]).0 == e[i].1.id
    &&& forall|i: int, j: int| 0 <= i < j < e.len() ==> (#[trigger] e[i]).0.value < (#[trigger] e[j]).0.value
}

fn unkey_worktrees(e: Vec<(WorktreeId, WorktreeRecord)>) -> (r: Result<Vec<WorktreeRecord>, CatalogError>)
    ensures
        r is Ok <==> keyed_worktrees(e@),
        r matches Ok(v) ==> v@.map_values(|x: WorktreeRecord| x@) == e@.map_values(|p: (WorktreeId, WorktreeRecord)| p.1@) && ascending(
            worktree_ids(v@.map_values(|x: WorktreeRecord| x@)),
        ),
        r matches Err(x) ==> x is Invariant,
{
    let mut v: Vec<WorktreeRecord> = Vec::new();
    let ghost orig = e@;
    let n = e.len();
    let mut i: usize = 0;
    while i < n
        invariant
            n == orig.len(),
            i <= n,
            e@ == orig,
            v@.len() == i,
            forall|k: int| 0 <= k < i ==> v@[k]@ == orig[k].1@,
            forall|k: int| 0 <= k < i ==> (#[trigger] orig[k]).0 == orig[k].1.id,
            forall|a: int, b: int| 0 <= a < b < i ==> (#[trigger] orig[a]).0.value < (#[trigger] orig[b]).0.value,
        decreases n - i,
    {
        if e[i].0 != e[i].1.id {
            return Err(CatalogError::Invariant(String::from_str("worktree map key does not match its record")));
        }
        if i > 0 && e[i - 1].0.value >= e[i].0.value {
            proof {
                assert(!(orig[i - 1].0.value < orig[i as int].0.value));
            }
            return Err(CatalogError::Invariant(String::from_str("worktree map keys are not in order")));
        }
        proof {
            assert forall|a: int, b: int| 0 <= a < b < i + 1 implies (#[trigger] orig[a]).0.value < (#[trigger] orig[b]).0.value by {
                if b == i && a < i - 1 {
                    assert(orig[a].0.value < orig[i - 1].0.value);
                }
            }
        }
        v.push(e[i].1.clone());
        i = i + 1;
    }
    proof {
        assert(v@.map_values(|x: WorktreeRecord| x@) =~= orig.map_values(|p: (WorktreeId, WorktreeRecord)| p.1@));
        let ghost idv = worktree_ids(v@.map_values(|x: WorktreeRecord| x@));
        assert forall|a: int, b: int| 0 <= a < b < v@.len() implies #[trigger] idv[a] < #[trigger] idv[b] by {
            assert(idv[a] == orig[a].0.value);
            assert(idv[b] == orig[b].0.value);
        }
    }
    Ok(v)
}

/// Keyed entries whose keys name their records and strictly increase.
pub open spec fn keyed_projects(e: Seq<(ProjectId, ProjectRecord)>) -> bool {
    &&& forall|i: int| 0 <= i < e.len() ==> (#[trigger] e[i]).0 == e[i].1.id
    &&& forall|i: int, j: int| 0 <= i < j < e.len() ==> (#[trigger] e[i]).0.value < (#[trigger] e[j]).0.value
}

fn unkey_projects(e: Vec<(ProjectId, ProjectRecord)>) -> (r: Result<Vec<ProjectRecord>, CatalogError>)
    ensures
        r is Ok <==> keyed_projects(e@),
        r matches Ok(v) ==> v@.map_values(|x: ProjectRecord| x@) == e@.map_values(|p: (ProjectId, ProjectRecord)| p.1@) && ascending(
            project_ids(v@.map_values(|x: ProjectRecord| x@)),
        ),
        r matches Err(x) ==> x is Invariant,
{
    let mut v: Vec<ProjectRecord> = Vec::new();
    let ghost orig = e@;
    let n = e.len();
    let mut i: usize = 0;
    while i < n
        invariant
            n == orig.len(),
            i <= n,
            e@ == orig,
            v@.len() == i,
            forall|k: int| 0 <= k < i ==> v@[k]@ == orig[k].1@,
            forall|k: int| 0 <= k < i ==> (#[trigger] orig[k]).0 == orig[k].1.id,
            forall|a: int, b: int| 0 <= a < b < i ==> (#[trigger] orig[a]).0.value < (#[trigger] orig[b]).0.value,
        decreases n - i,
    {
        if e[i].0 != e[i].1.id {
            return Err(CatalogError::Invariant(String::from_str("project map key does not match its record")));
        }
        if i > 0 && e[i - 1].0.value >= e[i].0.value {
            proof {
                assert(!(orig[i - 1].0.value < orig[i as int].0.value));
            }
            return Err(CatalogError::Invariant(String::from_str("project map keys are not in order")));
        }
        proof {
            assert forall|a: int, b: int| 0 <= a < b < i + 1 implies (#[trigger] orig[a]).0.value < (#[trigger] orig[b]).0.value by {
                if b == i && a < i - 1 {
                    assert(orig[a].0.value < orig[i - 1].0.value);
                }
            }
        }
        v.push(e[i].1.clone());
        i = i + 1;
    }
    proof {
        assert(v@.map_values(|x: ProjectRecord| x@) =~= orig.map_values(|p: (ProjectId, ProjectRecord)| p.1@));
        let ghost idv = project_ids(v@.map_values(|x: ProjectRecord| x@));
        assert forall|a: int, b: int| 0 <= a < b < v@.len() implies #[trigger] idv[a] < #[trigger] idv[b] by {
            assert(idv[a] == orig[a].0.value);
            assert(idv[b] == orig[b].0.value);
        }
    }
    Ok(v)
}

/// Keyed entries whose keys name their records and strictly increase.
pub open spec fn keyed_instances(e: Seq<(ProjectInstanceId, ProjectInstanceRecord)>) -> bool {
    &&& forall|i: int| 0 <= i < e.len() ==> (#[trigger] e[i]).0 == e[i].1.id
    &&& forall|i: int, j: int| 0 <= i < j < e.len() ==> (#[trigger] e[i]).0.value < (#[trigger] e[j]).0.value
}

fn unkey_instances(e: Vec<(ProjectInstanceId, ProjectInstanceRecord)>) -> (r: Result<Vec<ProjectInstanceRecord>, CatalogError>)
    ensures
        r is Ok <==> keyed_instances(e@),
        r matches Ok(v) ==> v@.map_values(|x: ProjectInstanceRecord| x@) == e@.map_values(|p: (ProjectInstanceId, ProjectInstanceRecord)| p.1@) && ascending(
            instance_ids(v@.map_values(|x: ProjectInstanceRecord| x@)),
        ),
        r matches Err(x) ==> x is Invariant,
{
    let mut v: Vec<ProjectInstanceRecord> = Vec::new();
    let ghost orig = e@;
    let n = e.len();
    let mut i: usize = 0;
    while i < n
        invariant
            n == orig.len(),
            i <= n,
            e@ == orig,
            v@.len() == i,
            forall|k: int| 0 <= k < i ==> v@[k]@ == orig[k].1@,
            forall|k: int| 0 <= k < i ==> (#[trigger] orig[k]).0 == orig[k].1.id,
            forall|a: int, b: int| 0 <= a < b < i ==> (#[trigger] orig[a]).0.value < (#[trigger] orig[b]).0.value,
        decreases n - i,
    {
        if e[i].0 != e[i].1.id {
            return Err(CatalogError::Invariant(String::from_str("project instance map key does not match its record")));
        }
        if i > 0 && e[i - 1].0.value >= e[i].0.value {
            proof {
                assert(!(orig[i - 1].0.value < orig[i as int].0.value));
            }
            return Err(CatalogError::Invariant(String::from_str("project instance map keys are not in order")));
        }
        proof {
            assert forall|a: int, b: int| 0 <= a < b < i + 1 implies (#[trigger] orig[a]).0.value < (#[trigger] orig[b]).0.value by {
                if b == i && a < i - 1 {
                    assert(orig[a].0.value < orig[i - 1].0.value);
                }
            }
        }
        v.push(e[i].1.clone());
        i = i + 1;
    }
    proof {
        assert(v@.map_values(|x: ProjectInstanceRecord| x@) =~= orig.map_values(|p: (ProjectInstanceId, ProjectInstanceRecord)| p.1@));
        let ghost idv = instance_ids(v@.map_values(|x: ProjectInstanceRecord| x@));
        assert forall|a: int, b: int| 0 <= a < b < v@.len() implies #[trigger] idv[a] < #[trigger] idv[b] by {
            assert(idv[a] == orig[a].0.value);
            assert(idv[b] == orig[b].0.value);
        }
    }
    Ok(v)
}

/// Whether adjacent texts strictly increase.
fn texts_increase(keys: &Vec<String>) -> (r: bool)
    ensures
        r == texts_ascending(crate::domain::string_views(keys@)),
{
    let ghost s = crate::domain::string_views(keys@);
    let mut i: usize = 1;
    if keys.len() == 0 {
        return true;
    }
    while i < keys.len()
        invariant
            1 <= i <= keys@.len(),
            s == crate::domain::string_views(keys@),
            forall|a: int, b: int| 0 <= a < b < i ==> lex_lt(#[trigger] s[a], #[trigger] s[b]),
        decreases keys@.len() - i,
    {
        let a = str_chars(keys[i - 1].as_str());
        let b = str_chars(keys[i].as_str());
        if compare_chars(a.as_slice(), b.as_slice()) >= 0 {
            proof {
                assert(!lex_lt(s[i - 1], s[i as int]));
            }
            return false;
        }
        proof {
            assert forall|x: int, y: int| 0 <= x < y < i + 1 implies lex_lt(#[trigger] s[x], #[trigger] s[y]) by {
                if y == i && x < i - 1 {
                    lemma_lex_transitive(s[x], s[i - 1], s[y]);
                }
            }
        }
        i = i + 1;
    }
    true
}

impl ProjectCatalog {
    /// Assemble a catalog image from decoded tables, each given as its map
    /// entries in key order. Fails when a key does not name its record or
    /// the keys are out of order; no other check is made here (see
    /// [`ProjectCatalog::validate`]).
    pub fn from_parts(
        version: u32,
        repositories: Vec<(RepositoryId, RepositoryRecord)>,
        worktrees: Vec<(WorktreeId, WorktreeRecord)>,
        projects: Vec<(ProjectId, ProjectRecord)>,
        instances: Vec<(ProjectInstanceId, ProjectInstanceRecord)>,
        legacy_paths: Vec<(String, ProjectInstanceId)>,
        unresolved_legacy: Vec<UnresolvedLegacyProject>,
        domain_index: DomainIndex,
        agent_bindings: Vec<(AgentConversationKey, ProjectInstanceId)>,
        storage_path: String,
    ) -> (r: Result<Self, CatalogError>)
        ensures
            r is Ok <==> keyed_repositories(repositories@) && keyed_worktrees(worktrees@) && keyed_projects(projects@)
                && keyed_instances(instances@) && texts_ascending(
                legacy_keys(legacy_paths@.map_values(|e: (String, ProjectInstanceId)| (e.0@, e.1))),
            ) && texts_ascending(unresolved_keys(unresolved_legacy@.map_values(|x: UnresolvedLegacyProject| x@)))
                && texts_ascending(
                binding_keys(agent_bindings@.map_values(|e: (AgentConversationKey, ProjectInstanceId)| (e.0@, e.1))),
            ),
            r matches Ok(c) ==> c@ == (CatalogView {
                version,
                repositories: repositories@.map_values(|p: (RepositoryId, RepositoryRecord)| p.1@),
                worktrees: worktrees@.map_values(|p: (WorktreeId, WorktreeRecord)| p.1@),
                projects: projects@.map_values(|p: (ProjectId, ProjectRecord)| p.1@),
                instances: instances@.map_values(|p: (ProjectInstanceId, ProjectInstanceRecord)| p.1@),
                legacy_paths: legacy_paths@.map_values(|e: (String, ProjectInstanceId)| (e.0@, e.1)),
                unresolved: unresolved_legacy@.map_values(|x: UnresolvedLegacyProject| x@),
                domain_index,
                bindings: agent_bindings@.map_values(|e: (AgentConversationKey, ProjectInstanceId)| (e.0@, e.1)),
                storage_path: storage_path@,
            }),
            r matches Err(e) ==> e is Invariant,
    {
        let repositories = match unkey_repositories(repositories) {
            Ok(v) => v,
            Err(e) => {
                return Err(e);
            },
        };
        let worktrees = match unkey_worktrees(worktrees) {
            Ok(v) => v,
            Err(e) => {
                return Err(e);
            },
        };
        let projects = match unkey_projects(projects) {
            Ok(v) => v,
            Err(e) => {
                return Err(e);
            },
        };
        let instances = match unkey_instances(instances) {
            Ok(v) => v,
            Err(e) => {
                return Err(e);
            },
        };
        let mut legacy_keys_v: Vec<String> = Vec::new();
        let mut i: usize = 0;
        while i < legacy_paths.len()
            invariant
                i <= legacy_paths@.len(),
                legacy_keys_v@.len() == i,
                forall|k: int| 0 <= k < i ==> legacy_keys_v@[k]@ == legacy_paths@[k].0@,
            decreases legacy_paths@.len() - i,
        {
            legacy_keys_v.push(legacy_paths[i].0.clone());
            i = i + 1;
        }
        proof {
            assert(crate::domain::string_views(legacy_keys_v@) =~= legacy_keys(
                legacy_paths@.map_values(|e: (String, ProjectInstanceId)| (e.0@, e.1)),
            ));
        }
        if !texts_increase(&legacy_keys_v) {
            return Err(CatalogError::Invariant(String::from_str("legacy path keys are not in order")));
        }
        let mut unresolved_keys_v: Vec<String> = Vec::new();
        i = 0;
        while i < unresolved_legacy.len()
            invariant
                i <= unresolved_legacy@.len(),
                unresolved_keys_v@.len() == i,
                forall|k: int| 0 <= k < i ==> unresolved_keys_v@[k]@ == unresolved_legacy@[k].path@,
            decreases unresolved_legacy@.len() - i,
        {
            unresolved_keys_v.push(unresolved_legacy[i].path.clone());
            i = i + 1;
        }
        proof {
            assert(crate::domain::string_views(unresolved_keys_v@) =~= unresolved_keys(
                unresolved_legacy@.map_values(|x: UnresolvedLegacyProject| x@),
            ));
        }
        if !texts_increase(&unresolved_keys_v) {
            return Err(CatalogError::Invariant(String::from_str("unresolved legacy keys are not in order")));
        }
        let mut binding_keys_v: Vec<String> = Vec::new();
        i = 0;
        while i < agent_bindings.len()
            invariant
                i <= agent_bindings@.len(),
                binding_keys_v@.len() == i,
                forall|k: int| 0 <= k < i ==> binding_keys_v@[k]@ == agent_bindings@[k].0@,
            decreases agent_bindings@.len() - i,
        {
            binding_keys_v.push(String::from_str(agent_bindings[i].0.as_opaque_str()));
            i = i + 1;
        }
        proof {
            assert(crate::domain::string_views(binding_keys_v@) =~= binding_keys(
                agent_bindings@.map_values(|e: (AgentConversationKey, ProjectInstanceId)| (e.0@, e.1)),
            ));
        }
        if !texts_increase(&binding_keys_v) {
            return Err(CatalogError::Invariant(String::from_str("agent binding keys are not in order")));
        }
        let c = ProjectCatalog {
            version,
            repositories,
            worktrees,
            projects,
            instances,
            legacy_paths,
            unresolved_legacy,
            domain_index,
            agent_bindings,
            storage_path,
        };
        Ok(c)
    }
}

} // verus!
