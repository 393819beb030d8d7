//! Pins, forgetting, agent bindings, domain claims, and schema upgrades.

use super::lookup::{binding_index, resolved_instance};
use super::records::{
    CatalogPresence, InstanceView, OriginView, ProjectInstanceOrigin, ProjectInstanceRecord, ProjectOrigin, ProjectRecord,
    ProjectView, RepositoryRecord, RepositoryView, UnresolvedLegacyProject, UnresolvedView, WorktreeRecord, WorktreeView,
};
use super::tables::{
    clone_instances, clone_legacy, clone_projects, clone_repositories, clone_unresolved, clone_worktrees, drop_unresolved,
    instance_index, lemma_ids_remove, lemma_text_position, locate_instance, locate_project, locate_worktree, project_index,
    text_position, unresolved_without, worktree_index,
};
use super::validate::{has_instance, validation_error};
use super::{
    ascending, binding_keys, instance_ids, legacy_keys, project_ids, repository_ids, texts_ascending, unresolved_keys,
    worktree_ids, CatalogError, CatalogView, ProjectCatalog, CATALOG_VERSION, PREVIOUS_CATALOG_VERSION,
};
use crate::agent::AgentConversationKey;
use crate::availability::opt_view;
use crate::digest::is_canonical_digest;
use crate::domain::{replaced_exact, replaced_wildcards, replacement_accepted, DomainClaim};
use crate::identity::{ProjectInstanceId, RepositoryId};
use crate::text::{compare_chars, lemma_lex_irreflexive, lemma_lex_transitive, lex_lt, str_chars};
use vstd::prelude::*;

verus! {

/// Alias or binding entries that do not name `id`, in order.
pub open spec fn entries_without(s: Seq<(Seq<char>, ProjectInstanceId)>, id: ProjectInstanceId) -> Seq<(Seq<char>, ProjectInstanceId)>
    decreases s.len(),
{
    if s.len() == 0 {
        s
    } else if s.last().1 != id {
        entries_without(s.drop_last(), id).push(s.last())
    } else {
        entries_without(s.drop_last(), id)
    }
}

pub proof fn lemma_entries_without(s: Seq<(Seq<char>, ProjectInstanceId)>, id: ProjectInstanceId)
    ensures
        forall|k: int| 0 <= k < entries_without(s, id).len() ==> exists|j: int| 0 <= j < s.len() && #[trigger] entries_without(s, id)[k] == s[j],
        forall|k: int| 0 <= k < entries_without(s, id).len() ==> (#[trigger] entries_without(s, id)[k]).1 != id,
        forall|j: int| 0 <= j < s.len() && s[j].1 != id ==> entries_without(s, id).contains(#[trigger] s[j]),
        texts_ascending(legacy_keys(s)) ==> texts_ascending(legacy_keys(entries_without(s, id))),
    decreases s.len(),
{
    if s.len() > 0 {
        let t = s.drop_last();
        lemma_entries_without(t, id);
        let r = entries_without(t, id);
        assert forall|k: int| 0 <= k < r.len() implies exists|j: int| 0 <= j < s.len() && #[trigger] r[k] == s[j] by {
            let j = choose|j: int| 0 <= j < t.len() && r[k] == t[j];
            assert(s[j] == t[j]);
        }
        assert forall|j: int| 0 <= j < s.len() && s[j].1 != id implies entries_without(s, id).contains(s[j]) by {
            if j < s.len() - 1 {
                assert(t[j] == s[j]);
                assert(r.contains(t[j]));
                if s.last().1 != id {
                    let k = choose|k: int| 0 <= k < r.len() && r[k] == t[j];
                    assert(r.push(s.last())[k] == s[j]);
                }
            } else {
                assert(r.push(s.last())[r.len() as int] == s[j]);
            }
        }
        if texts_ascending(legacy_keys(s)) {
            assert(texts_ascending(legacy_keys(t))) by {
                assert forall|a: int, b: int| 0 <= a < b < legacy_keys(t).len() implies lex_lt(legacy_keys(t)[a], legacy_keys(t)[b]) by {
                    assert(legacy_keys(t)[a] == legacy_keys(s)[a]);
                    assert(legacy_keys(t)[b] == legacy_keys(s)[b]);
                }
            }
            if s.last().1 != id {
                let u = r.push(s.last());
                assert forall|a: int, b: int| 0 <= a < b < legacy_keys(u).len() implies lex_lt(legacy_keys(u)[a], legacy_keys(u)[b]) by {
                    if b < r.len() {
                        assert(legacy_keys(u)[a] == legacy_keys(r)[a]);
                        assert(legacy_keys(u)[b] == legacy_keys(r)[b]);
                    } else {
                        let j = choose|j: int| 0 <= j < t.len() && r[a] == t[j];
                        assert(legacy_keys(u)[a] == r[a].0);
                        assert(legacy_keys(u)[b] == s.last().0);
                        assert(legacy_keys(s)[j] == s[j].0);
                        assert(legacy_keys(s)[s.len() - 1] == s.last().0);
                    }
                }
            }
        }
    }
}

fn legacy_without(v: &Vec<(String, ProjectInstanceId)>, id: ProjectInstanceId) -> (r: Vec<(String, ProjectInstanceId)>)
    ensures
        r@.map_values(|e: (String, ProjectInstanceId)| (e.0@, e.1)) == entries_without(
            v@.map_values(|e: (String, ProjectInstanceId)| (e.0@, e.1)),
            id,
        ),
{
    let ghost s = v@.map_values(|e: (String, ProjectInstanceId)| (e.0@, e.1));
    let mut r: Vec<(String, ProjectInstanceId)> = Vec::new();
    let mut i: usize = 0;
    while i < v.len()
        invariant
            i <= v@.len(),
            s == v@.map_values(|e: (String, ProjectInstanceId)| (e.0@, e.1)),
            r@.map_values(|e: (String, ProjectInstanceId)| (e.0@, e.1)) == entries_without(s.take(i as int), id),
        decreases v@.len() - i,
    {
        proof {
            assert(s.take(i + 1).drop_last() =~= s.take(i as int));
            assert(s.take(i + 1).last() == s[i as int]);
        }
        if v[i].1 != id {
            let ghost before = r@.map_values(|e: (String, ProjectInstanceId)| (e.0@, e.1));
            r.push((v[i].0.clone(), v[i].1));
            proof {
                assert(r@.map_values(|e: (String, ProjectInstanceId)| (e.0@, e.1)) =~= before.push(s[i as int]));
            }
        }
        i = i + 1;
    }
    proof {
        assert(s.take(s.len() as int) =~= s);
    }
    r
}

fn bindings_without(v: &Vec<(AgentConversationKey, ProjectInstanceId)>, id: ProjectInstanceId) -> (r: Vec<
    (AgentConversationKey, ProjectInstanceId),
>)
    ensures
        r@.map_values(|e: (AgentConversationKey, ProjectInstanceId)| (e.0@, e.1)) == entries_without(
            v@.map_values(|e: (AgentConversationKey, ProjectInstanceId)| (e.0@, e.1)),
            id,
        ),
{
    let ghost s = v@.map_values(|e: (AgentConversationKey, ProjectInstanceId)| (e.0@, e.1));
    let mut r: Vec<(AgentConversationKey, ProjectInstanceId)> = Vec::new();
    let mut i: usize = 0;
    while i < v.len()
        invariant
            i <= v@.len(),
            s == v@.map_values(|e: (AgentConversationKey, ProjectInstanceId)| (e.0@, e.1)),
            r@.map_values(|e: (AgentConversationKey, ProjectInstanceId)| (e.0@, e.1)) == entries_without(s.take(i as int), id),
        decreases v@.len() - i,
    {
        proof {
            assert(s.take(i + 1).drop_last() =~= s.take(i as int));
            assert(s.take(i + 1).last() == s[i as int]);
        }
        if v[i].1 != id {
            let ghost before = r@.map_values(|e: (AgentConversationKey, ProjectInstanceId)| (e.0@, e.1));
            r.push((v[i].0.clone(), v[i].1));
            proof {
                assert(r@.map_values(|e: (AgentConversationKey, ProjectInstanceId)| (e.0@, e.1)) =~= before.push(s[i as int]));
            }
        }
        i = i + 1;
    }
    proof {
        assert(s.take(s.len() as int) =~= s);
    }
    r
}

/// Whether a remaining instance belongs to the project.
pub open spec fn project_in_use(s: Seq<InstanceView>, pid: crate::identity::ProjectId) -> bool {
    exists|j: int| 0 <= j < s.len() && s[j].project_id == pid
}

/// Whether a remaining instance lives in the worktree.
pub open spec fn worktree_in_use(s: Seq<InstanceView>, wt: crate::identity::WorktreeId) -> bool {
    exists|j: int| 0 <= j < s.len() && s[j].origin == (ProjectInstanceOrigin::Git { worktree_id: wt })
}

/// Whether a project origin names the repository.
pub open spec fn names_repository(o: OriginView, id: RepositoryId) -> bool {
    match o {
        OriginView::Git { repository_id, .. } => repository_id == id,
        OriginView::NonGit => false,
    }
}

/// Whether a project's origin or a worktree still names the repository.
pub open spec fn repository_in_use(projects: Seq<ProjectView>, worktrees: Seq<WorktreeView>, id: RepositoryId) -> bool {
    (exists|j: int| 0 <= j < projects.len() && names_repository((#[trigger] projects[j]).origin, id))
        || (exists|j: int| 0 <= j < worktrees.len() && (#[trigger] worktrees[j]).repository_id == id)
}

/// The repositories still named by a project or worktree, in order.
pub open spec fn repositories_in_use(s: Seq<RepositoryView>, projects: Seq<ProjectView>, worktrees: Seq<WorktreeView>) -> Seq<
    RepositoryView,
>
    decreases s.len(),
{
    if s.len() == 0 {
        s
    } else if repository_in_use(projects, worktrees, s.last().id) {
        repositories_in_use(s.drop_last(), projects, worktrees).push(s.last())
    } else {
        repositories_in_use(s.drop_last(), projects, worktrees)
    }
}

pub proof fn lemma_repositories_in_use(s: Seq<RepositoryView>, p: Seq<ProjectView>, w: Seq<WorktreeView>)
    ensures
        forall|k: int|
            0 <= k < repositories_in_use(s, p, w).len() ==> exists|j: int|
                0 <= j < s.len() && #[trigger] repositories_in_use(s, p, w)[k] == s[j],
        ascending(repository_ids(s)) ==> ascending(repository_ids(repositories_in_use(s, p, w))),
    decreases s.len(),
{
    if s.len() > 0 {
        let t = s.drop_last();
        lemma_repositories_in_use(t, p, w);
        let r = repositories_in_use(t, p, w);
        assert forall|k: int| 0 <= k < r.len() implies exists|j: int| 0 <= j < s.len() && #[trigger] r[k] == s[j] by {
            let j = choose|j: int| 0 <= j < t.len() && r[k] == t[j];
            assert(s[j] == t[j]);
        }
        if repository_in_use(p, w, s.last().id) {
            let u = r.push(s.last());
            assert forall|k: int| 0 <= k < u.len() implies exists|j: int| 0 <= j < s.len() && #[trigger] u[k] == s[j] by {
                if k < r.len() {
                    assert(u[k] == r[k]);
                } else {
                    assert(u[k] == s[s.len() - 1]);
                }
            }
        }
        if ascending(repository_ids(s)) {
            assert(ascending(repository_ids(t))) by {
                assert forall|a: int, b: int| 0 <= a < b < repository_ids(t).len() implies repository_ids(t)[a] < repository_ids(t)[b] by {
                    assert(repository_ids(t)[a] == repository_ids(s)[a]);
                    assert(repository_ids(t)[b] == repository_ids(s)[b]);
                }
            }
            if repository_in_use(p, w, s.last().id) {
                let u = r.push(s.last());
                assert forall|a: int, b: int| 0 <= a < b < repository_ids(u).len() implies repository_ids(u)[a] < repository_ids(u)[b] by {
                    if b < r.len() {
                        assert(repository_ids(u)[a] == repository_ids(r)[a]);
                        assert(repository_ids(u)[b] == repository_ids(r)[b]);
                    } else {
                        let j = choose|j: int| 0 <= j < t.len() && r[a] == t[j];
                        assert(repository_ids(u)[a] == r[a].id.value);
                        assert(repository_ids(s)[j] == s[j].id.value);
                        assert(repository_ids(s)[s.len() - 1] == s.last().id.value);
                    }
                }
            }
        }
    }
}

/// The catalog without an instance and everything only it kept alive: its
/// aliases and agent bindings, its project when no other instance shares
/// it, its worktree when no other instance lives there, and repositories
/// nothing names any more. The domain index is replaced separately.
pub open spec fn instance_removed(v: CatalogView, id: ProjectInstanceId) -> CatalogView {
    match instance_index(v.instances, id) {
        None => v,
        Some(i) => {
            let r = v.instances[i];
            let instances = v.instances.remove(i);
            let projects = if project_in_use(instances, r.project_id) {
                v.projects
            } else {
                match project_index(v.projects, r.project_id) {
                    Some(p) => v.projects.remove(p),
                    None => v.projects,
                }
            };
            let worktrees = match r.origin {
                ProjectInstanceOrigin::Git { worktree_id } => if worktree_in_use(instances, worktree_id) {
                    v.worktrees
                } else {
                    match worktree_index(v.worktrees, worktree_id) {
                        Some(w) => v.worktrees.remove(w),
                        None => v.worktrees,
                    }
                },
                ProjectInstanceOrigin::NonGit => v.worktrees,
            };
            CatalogView {
                instances,
                projects,
                worktrees,
                repositories: repositories_in_use(v.repositories, projects, worktrees),
                legacy_paths: entries_without(v.legacy_paths, id),
                bindings: entries_without(v.bindings, id),
                ..v
            }
        },
    }
}

fn project_used(instances: &Vec<ProjectInstanceRecord>, pid: crate::identity::ProjectId) -> (r: bool)
    ensures
        r == project_in_use(instances@.map_values(|y: ProjectInstanceRecord| y@), pid),
{
    let ghost s = instances@.map_values(|y: ProjectInstanceRecord| y@);
    let mut i: usize = 0;
    while i < instances.len()
        invariant
            i <= instances@.len(),
            s == instances@.map_values(|y: ProjectInstanceRecord| y@),
            forall|j: int| 0 <= j < i ==> s[j].project_id != pid,
        decreases instances@.len() - i,
    {
        proof {
            assert(s[i as int] == instances@[i as int]@);
        }
        if instances[i].project_id == pid {
            return true;
        }
        i = i + 1;
    }
    false
}

fn worktree_used(instances: &Vec<ProjectInstanceRecord>, wt: crate::identity::WorktreeId) -> (r: bool)
    ensures
        r == worktree_in_use(instances@.map_values(|y: ProjectInstanceRecord| y@), wt),
{
    let ghost s = instances@.map_values(|y: ProjectInstanceRecord| y@);
    let mut i: usize = 0;
    while i < instances.len()
        invariant
            i <= instances@.len(),
            s == instances@.map_values(|y: ProjectInstanceRecord| y@),
            forall|j: int| 0 <= j < i ==> s[j].origin != (ProjectInstanceOrigin::Git { worktree_id: wt }),
        decreases instances@.len() - i,
    {
        proof {
            assert(s[i as int] == instances@[i as int]@);
        }
        if instances[i].origin == (ProjectInstanceOrigin::Git { worktree_id: wt }) {
            return true;
        }
        i = i + 1;
    }
    false
}

fn repository_used(projects: &Vec<ProjectRecord>, worktrees: &Vec<WorktreeRecord>, id: RepositoryId) -> (r: bool)
    ensures
        r == repository_in_use(
            projects@.map_values(|y: ProjectRecord| y@),
            worktrees@.map_values(|y: WorktreeRecord| y@),
            id,
        ),
{
    let ghost ps = projects@.map_values(|y: ProjectRecord| y@);
    let ghost ws = worktrees@.map_values(|y: WorktreeRecord| y@);
    let mut i: usize = 0;
    while i < projects.len()
        invariant
            i <= projects@.len(),
            ps == projects@.map_values(|y: ProjectRecord| y@),
            forall|j: int| 0 <= j < i ==> !names_repository((#[trigger] ps[j]).origin, id),
        decreases projects@.len() - i,
    {
        proof {
            assert(ps[i as int] == projects@[i as int]@);
        }
        let hit = match &projects[i].origin {
            ProjectOrigin::Git { repository_id, .. } => *repository_id == id,
            ProjectOrigin::NonGit => false,
        };
        if hit {
            return true;
        }
        i = i + 1;
    }
    let mut k: usize = 0;
    while k < worktrees.len()
        invariant
            k <= worktrees@.len(),
            ps == projects@.map_values(|y: ProjectRecord| y@),
            ws == worktrees@.map_values(|y: WorktreeRecord| y@),
            forall|j: int| 0 <= j < ps.len() ==> !names_repository((#[trigger] ps[j]).origin, id),
            forall|j: int| 0 <= j < k ==> (#[trigger] ws[j]).repository_id != id,
        decreases worktrees@.len() - k,
    {
        proof {
            assert(ws[k as int] == worktrees@[k as int]@);
        }
        if worktrees[k].repository_id == id {
            return true;
        }
        k = k + 1;
    }
    false
}

fn repositories_used(
    repositories: &Vec<RepositoryRecord>,
    projects: &Vec<ProjectRecord>,
    worktrees: &Vec<WorktreeRecord>,
) -> (r: Vec<RepositoryRecord>)
    ensures
        r@.map_values(|y: RepositoryRecord| y@) == repositories_in_use(
            repositories@.map_values(|y: RepositoryRecord| y@),
            projects@.map_values(|y: ProjectRecord| y@),
            worktrees@.map_values(|y: WorktreeRecord| y@),
        ),
{
    let ghost s = repositories@.map_values(|y: RepositoryRecord| y@);
    let ghost ps = projects@.map_values(|y: ProjectRecord| y@);
    let ghost ws = worktrees@.map_values(|y: WorktreeRecord| y@);
    let mut r: Vec<RepositoryRecord> = Vec::new();
    let mut i: usize = 0;
    while i < repositories.len()
        invariant
            i <= repositories@.len(),
            s == repositories@.map_values(|y: RepositoryRecord| y@),
            ps == projects@.map_values(|y: ProjectRecord| y@),
            ws == worktrees@.map_values(|y: WorktreeRecord| y@),
            r@.map_values(|y: RepositoryRecord| y@) == repositories_in_use(s.take(i as int), ps, ws),
        decreases repositories@.len() - i,
    {
        proof {
            assert(s.take(i + 1).drop_last() =~= s.take(i as int));
            assert(s.take(i + 1).last() == s[i as int]);
            assert(s[i as int] == repositories@[i as int]@);
        }
        if repository_used(projects, worktrees, repositories[i].id) {
            let ghost before = r@.map_values(|y: RepositoryRecord| y@);
            r.push(repositories[i].clone());
            proof {
                assert(r@.map_values(|y: RepositoryRecord| y@) =~= before.push(s[i as int]));
            }
        }
        i = i + 1;
    }
    proof {
        assert(s.take(s.len() as int) =~= s);
    }
    r
}

impl ProjectCatalog {
    /// Forget one instance and what only it kept alive, releasing its
    /// domain claims back to the platform fallbacks.
    pub fn remove_instance(&mut self, instance_id: ProjectInstanceId) -> (r: Result<(), CatalogError>)
        ensures
            r is Ok <==> replacement_accepted(
                old(self)@.domain_index.exact_map(),
                old(self)@.domain_index.wildcard_map(),
                instance_id,
                Seq::empty(),
            ),
            r is Err ==> final(self)@ == old(self)@ && r matches Err(CatalogError::Domain(_)),
            r is Ok ==> final(self)@.domain_index.exact_map() == replaced_exact(
                old(self)@.domain_index.exact_map(),
                instance_id,
                Seq::empty(),
            ) && final(self)@.domain_index.wildcard_map() == replaced_wildcards(
                old(self)@.domain_index.wildcard_map(),
                instance_id,
                Seq::empty(),
            ) && final(self)@ == (CatalogView {
                domain_index: final(self)@.domain_index,
                ..instance_removed(old(self)@, instance_id)
            }),
    {
        proof {
            use_type_invariant(&*self);
        }
        let ghost v = self@;
        let empty: Vec<DomainClaim> = Vec::new();
        proof {
            assert(empty@ =~= Seq::<DomainClaim>::empty());
        }
        let replacement = match self.domain_index.replacing_instance(instance_id, empty) {
            Ok(x) => x,
            Err(e) => {
                return Err(CatalogError::Domain(e));
            },
        };
        let i = match locate_instance(&self.instances, instance_id) {
            Some(i) => i,
            None => {
                self.domain_index = replacement;
                return Ok(());
            },
        };
        let pid = self.instances[i].project_id;
        let origin = self.instances[i].origin;
        proof {
            assert(v.instances[i as int] == self.instances@[i as int]@);
        }
        let mut instances = clone_instances(&self.instances);
        let ghost iv = instances@.map_values(|y: ProjectInstanceRecord| y@);
        instances.remove(i);
        proof {
            assert(instances@.map_values(|y: ProjectInstanceRecord| y@) =~= iv.remove(i as int));
            assert(instance_ids(instances@.map_values(|y: ProjectInstanceRecord| y@)) =~= instance_ids(iv).remove(i as int));
            lemma_ids_remove(instance_ids(iv), i as int);
        }
        let mut projects = clone_projects(&self.projects);
        if !project_used(&instances, pid) {
            match locate_project(&projects, pid) {
                Some(p) => {
                    let ghost pv = projects@.map_values(|y: ProjectRecord| y@);
                    projects.remove(p);
                    proof {
                        assert(projects@.map_values(|y: ProjectRecord| y@) =~= pv.remove(p as int));
                        assert(project_ids(projects@.map_values(|y: ProjectRecord| y@)) =~= project_ids(pv).remove(p as int));
                        lemma_ids_remove(project_ids(pv), p as int);
                    }
                },
                None => {},
            }
        }
        let mut worktrees = clone_worktrees(&self.worktrees);
        match origin {
            ProjectInstanceOrigin::Git { worktree_id } => {
                if !worktree_used(&instances, worktree_id) {
                    match locate_worktree(&worktrees, worktree_id) {
                        Some(w) => {
                            let ghost wv = worktrees@.map_values(|y: WorktreeRecord| y@);
                            worktrees.remove(w);
                            proof {
                                assert(worktrees@.map_values(|y: WorktreeRecord| y@) =~= wv.remove(w as int));
                                assert(worktree_ids(worktrees@.map_values(|y: WorktreeRecord| y@)) =~= worktree_ids(wv).remove(w as int));
                                lemma_ids_remove(worktree_ids(wv), w as int);
                            }
                        },
                        None => {},
                    }
                }
            },
            ProjectInstanceOrigin::NonGit => {},
        }
        let repositories = repositories_used(&self.repositories, &projects, &worktrees);
        let legacy = legacy_without(&self.legacy_paths, instance_id);
        let bindings = bindings_without(&self.agent_bindings, instance_id);
        proof {
            lemma_repositories_in_use(
                v.repositories,
                projects@.map_values(|y: ProjectRecord| y@),
                worktrees@.map_values(|y: WorktreeRecord| y@),
            );
            lemma_entries_without(v.legacy_paths, instance_id);
            lemma_entries_without(v.bindings, instance_id);
            assert(legacy_keys(v.bindings) == binding_keys(v.bindings));
            assert(legacy_keys(entries_without(v.bindings, instance_id)) == binding_keys(entries_without(v.bindings, instance_id)));
        }
        self.domain_index = replacement;
        self.instances = instances;
        self.projects = projects;
        self.worktrees = worktrees;
        self.repositories = repositories;
        self.legacy_paths = legacy;
        self.agent_bindings = bindings;
        Ok(())
    }
}

/// Unresolved evidence pinned or unpinned when its path is listed.
pub open spec fn pin_entry(r: UnresolvedView, matching: Seq<Seq<char>>, pinned: bool) -> UnresolvedView {
    if matching.contains(r.path) {
        UnresolvedView { pinned, ..r }
    } else {
        r
    }
}

/// Whether any unresolved evidence is listed.
pub open spec fn any_listed(s: Seq<UnresolvedView>, matching: Seq<Seq<char>>) -> bool {
    exists|j: int| 0 <= j < s.len() && matching.contains(#[trigger] s[j].path)
}

/// The catalog after setting the pin bit for a path locator: on the
/// instance it resolves to, else on each matching unresolved path; and
/// whether anything was found.
pub open spec fn pin_applied(
    v: CatalogView,
    path: Seq<char>,
    canonical: Seq<char>,
    matching: Seq<Seq<char>>,
    pinned: bool,
) -> (CatalogView, bool) {
    match resolved_instance(v, path, canonical) {
        Some(id) if instance_index(v.instances, id) is Some => {
            let i = instance_index(v.instances, id)->0;
            (CatalogView { instances: v.instances.update(i, InstanceView { pinned, ..v.instances[i] }), ..v }, true)
        },
        _ => if any_listed(v.unresolved, matching) {
            (CatalogView { unresolved: v.unresolved.map_values(|r: UnresolvedView| pin_entry(r, matching, pinned)), ..v }, true)
        } else {
            (v, false)
        },
    }
}

/// The evidence table without each listed path.
pub open spec fn without_all(s: Seq<UnresolvedView>, ps: Seq<Seq<char>>) -> Seq<UnresolvedView>
    decreases ps.len(),
{
    if ps.len() == 0 {
        s
    } else {
        unresolved_without(without_all(s, ps.drop_last()), ps.last())
    }
}

/// The catalog with a conversation bound to an instance.
pub open spec fn binding_put(s: Seq<(Seq<char>, ProjectInstanceId)>, key: Seq<char>, id: ProjectInstanceId) -> Seq<
    (Seq<char>, ProjectInstanceId),
> {
    s.insert(text_position(binding_keys(s), key), (key, id))
}

impl ProjectCatalog {
    fn set_pin(&mut self, path: &String, canonical: &String, matching: &Vec<String>, pinned: bool) -> (r: bool)
        ensures
            (final(self)@, r) == pin_applied(old(self)@, path@, canonical@, crate::domain::string_views(matching@), pinned),
    {
        proof {
            use_type_invariant(&*self);
        }
        let ghost v = self@;
        let ghost ms = crate::domain::string_views(matching@);
        match self.project_instance_for_path(path, canonical) {
            Some(id) => {
                match locate_instance(&self.instances, id) {
                    Some(i) => {
                        let ghost iv = self.instances@.map_values(|y: ProjectInstanceRecord| y@);
                        let mut instances = clone_instances(&self.instances);
                        let mut record = instances[i].clone();
                        record.pinned = pinned;
                        proof {
                            assert(iv[i as int] == self.instances@[i as int]@);
                        }
                        instances.set(i, record);
                        proof {
                            assert(instances@.map_values(|y: ProjectInstanceRecord| y@) =~= iv.update(
                                i as int,
                                InstanceView { pinned, ..iv[i as int] },
                            ));
                            assert(instance_ids(instances@.map_values(|y: ProjectInstanceRecord| y@)) =~= instance_ids(iv));
                        }
                        self.instances = instances;
                        return true;
                    },
                    None => {},
                }
            },
            None => {},
        }
        let ghost us = self.unresolved_legacy@.map_values(|r: UnresolvedLegacyProject| r@);
        let mut unresolved = clone_unresolved(&self.unresolved_legacy);
        let mut changed = false;
        let mut i: usize = 0;
        while i < unresolved.len()
            invariant
                i <= unresolved@.len(),
                unresolved@.len() == us.len(),
                us == v.unresolved,
                ms == crate::domain::string_views(matching@),
                forall|j: int| 0 <= j < i ==> unresolved@[j]@ == pin_entry(us[j], ms, pinned),
                forall|j: int| i <= j < unresolved@.len() ==> unresolved@[j]@ == us[j],
                changed == exists|j: int| 0 <= j < i && ms.contains(#[trigger] us[j].path),
            decreases unresolved@.len() - i,
        {
            let listed = super::validate::text_in(matching, &unresolved[i].path);
            proof {
                assert(unresolved@[i as int]@ == us[i as int]);
            }
            if listed {
                let mut record = unresolved[i].clone();
                record.pinned = pinned;
                unresolved.set(i, record);
                changed = true;
            }
            i = i + 1;
        }
        if changed {
            proof {
                assert(unresolved@.map_values(|r: UnresolvedLegacyProject| r@) =~= us.map_values(
                    |r: UnresolvedView| pin_entry(r, ms, pinned),
                ));
                assert(unresolved_keys(unresolved@.map_values(|r: UnresolvedLegacyProject| r@)) =~= unresolved_keys(us));
            }
            self.unresolved_legacy = unresolved;
            return true;
        }
        false
    }

    /// Enable the transitional legacy pin bit for a known path. `canonical`
    /// is the path's normalized form and `normalized_keys` the normalized
    /// form of each unresolved legacy path, in table order.
    pub fn pin_project(&mut self, path: &String, canonical: &String, normalized_keys: &Vec<Option<String>>) -> (r: bool)
        requires
            normalized_keys@.len() == old(self)@.unresolved.len(),
        ensures
            (final(self)@, r) == pin_applied(
                old(self)@,
                path@,
                canonical@,
                matching_paths(old(self)@.unresolved, normalized_keys@.map_values(|o: Option<String>| opt_view(o)), path@, canonical@),
                true,
            ),
    {
        let matching = self.matching_unresolved_paths(path, canonical, normalized_keys);
        self.set_pin(path, canonical, &matching, true)
    }

    /// Disable the transitional legacy pin bit for a known path; the
    /// arguments are as for [`ProjectCatalog::pin_project`].
    pub fn unpin_project(&mut self, path: &String, canonical: &String, normalized_keys: &Vec<Option<String>>) -> (r: bool)
        requires
            normalized_keys@.len() == old(self)@.unresolved.len(),
        ensures
            (final(self)@, r) == pin_applied(
                old(self)@,
                path@,
                canonical@,
                matching_paths(old(self)@.unresolved, normalized_keys@.map_values(|o: Option<String>| opt_view(o)), path@, canonical@),
                false,
            ),
    {
        let matching = self.matching_unresolved_paths(path, canonical, normalized_keys);
        self.set_pin(path, canonical, &matching, false)
    }

    /// Explicitly forget a project's catalog record while leaving its
    /// resources alone: the unresolved legacy evidence naming the same
    /// location if there is any, else the instance the path resolves to. The
    /// arguments are as for [`ProjectCatalog::pin_project`].
    pub fn unregister_project(&mut self, path: &String, canonical: &String, normalized_keys: &Vec<Option<String>>) -> (r:
        Result<bool, CatalogError>)
        requires
            normalized_keys@.len() == old(self)@.unresolved.len(),
        ensures
            unregistered(
                old(self)@,
                final(self)@,
                r,
                path@,
                canonical@,
                matching_paths(old(self)@.unresolved, normalized_keys@.map_values(|o: Option<String>| opt_view(o)), path@, canonical@),
            ),
    {
        let matching = self.matching_unresolved_paths(path, canonical, normalized_keys);
        self.unregister_matching(path, canonical, &matching)
    }

    fn unregister_matching(&mut self, path: &String, canonical: &String, matching: &Vec<String>) -> (r: Result<
        bool,
        CatalogError,
    >)
        ensures
            unregistered(old(self)@, final(self)@, r, path@, canonical@, crate::domain::string_views(matching@)),
    {
        proof {
            use_type_invariant(&*self);
        }
        if matching.len() > 0 {
            let ghost ms = crate::domain::string_views(matching@);
            let mut unresolved = clone_unresolved(&self.unresolved_legacy);
            let ghost us = unresolved@.map_values(|r: UnresolvedLegacyProject| r@);
            let mut i: usize = 0;
            proof {
                assert(ms.take(0) =~= Seq::<Seq<char>>::empty());
            }
            while i < matching.len()
                invariant
                    i <= matching@.len(),
                    ms == crate::domain::string_views(matching@),
                    texts_ascending(unresolved_keys(unresolved@.map_values(|r: UnresolvedLegacyProject| r@))),
                    unresolved@.map_values(|r: UnresolvedLegacyProject| r@) == without_all(us, ms.take(i as int)),
                decreases matching@.len() - i,
            {
                drop_unresolved(&mut unresolved, &matching[i]);
                proof {
                    assert(ms.take(i + 1).drop_last() =~= ms.take(i as int));
                    assert(ms.take(i + 1).last() == matching@[i as int]@);
                }
                i = i + 1;
            }
            proof {
                assert(ms.take(ms.len() as int) =~= ms);
            }
            self.unresolved_legacy = unresolved;
            return Ok(true);
        }
        match self.project_instance_for_path(path, canonical) {
            None => Ok(false),
            Some(id) => {
                match self.remove_instance(id) {
                    Ok(()) => Ok(true),
                    Err(e) => Err(e),
                }
            },
        }
    }

    fn insert_binding(&mut self, conversation: AgentConversationKey, instance_id: ProjectInstanceId)
        requires
            binding_index(old(self)@.bindings, conversation@) is None,
        ensures
            final(self)@ == (CatalogView {
                bindings: binding_put(old(self)@.bindings, conversation@, instance_id),
                ..old(self)@
            }),
    {
        proof {
            use_type_invariant(&*self);
        }
        let ghost s = self@.bindings;
        let ghost key = conversation@;
        let kc = str_chars(conversation.as_opaque_str());
        let mut i: usize = 0;
        while i < self.agent_bindings.len()
            invariant
                i <= self.agent_bindings@.len(),
                s == self.agent_bindings@.map_values(|e: (AgentConversationKey, ProjectInstanceId)| (e.0@, e.1)),
                kc@ == key,
                key == conversation@,
                texts_ascending(binding_keys(s)),
                binding_index(s, key) is None,
                forall|j: int| 0 <= j < i ==> lex_lt(#[trigger] binding_keys(s)[j], key),
            ensures
                i <= self.agent_bindings@.len(),
                s == self.agent_bindings@.map_values(|e: (AgentConversationKey, ProjectInstanceId)| (e.0@, e.1)),
                key == conversation@,
                texts_ascending(binding_keys(s)),
                forall|j: int| 0 <= j < i ==> lex_lt(#[trigger] binding_keys(s)[j], key),
                i < self.agent_bindings@.len() ==> lex_lt(key, binding_keys(s)[i as int]),
            decreases self.agent_bindings@.len() - i,
        {
            assert(binding_keys(s)[i as int] == s[i as int].0);
            let bc = str_chars(self.agent_bindings[i].0.as_opaque_str());
            if compare_chars(bc.as_slice(), kc.as_slice()) > 0 {
                break;
            }
            proof {
                if s[i as int].0 == key {
                    assert(exists|j: int| 0 <= j < s.len() && s[j].0 == key);
                }
                crate::text::lemma_lex_total(binding_keys(s)[i as int], key);
            }
            i = i + 1;
        }
        proof {
            assert forall|j: int| i <= j < s.len() implies lex_lt(key, binding_keys(s)[j]) by {
                if j > i {
                    lemma_lex_transitive(key, binding_keys(s)[i as int], binding_keys(s)[j]);
                }
            }
            lemma_text_position(binding_keys(s), key, i as int);
        }
        let mut bindings: Vec<(AgentConversationKey, ProjectInstanceId)> = Vec::new();
        let mut k: usize = 0;
        while k < self.agent_bindings.len()
            invariant
                k <= self.agent_bindings@.len(),
                bindings@.len() == k,
                forall|j: int| 0 <= j < k ==> bindings@[j].0@ == self.agent_bindings@[j].0@ && bindings@[j].1 == self.agent_bindings@[j].1,
            decreases self.agent_bindings@.len() - k,
        {
            bindings.push((self.agent_bindings[k].0.clone(), self.agent_bindings[k].1));
            k = k + 1;
        }
        proof {
            assert(bindings@.map_values(|e: (AgentConversationKey, ProjectInstanceId)| (e.0@, e.1)) =~= s);
        }
        bindings.insert(i, (conversation, instance_id));
        proof {
            assert(bindings@.map_values(|e: (AgentConversationKey, ProjectInstanceId)| (e.0@, e.1)) =~= s.insert(
                i as int,
                (key, instance_id),
            ));
            assert(binding_keys(bindings@.map_values(|e: (AgentConversationKey, ProjectInstanceId)| (e.0@, e.1)))
                =~= binding_keys(s).insert(i as int, key));
        }
        self.agent_bindings = bindings;
    }

    /// Bind one opaque conversation to its first resolved project instance.
    ///
    /// Repeating the same binding is idempotent. A different target fails
    /// closed so mutable workspace labels cannot silently retarget a chat.
    pub fn bind_agent_conversation(&mut self, conversation: AgentConversationKey, instance_id: ProjectInstanceId) -> (r:
        Result<bool, CatalogError>)
        ensures
            !is_canonical_digest(conversation@) ==> final(self)@ == old(self)@ && r matches Err(CatalogError::Invariant(_)),
            is_canonical_digest(conversation@) && !has_instance(old(self)@, instance_id) ==> final(self)@ == old(self)@
                && r matches Err(CatalogError::Invariant(_)),
            is_canonical_digest(conversation@) && has_instance(old(self)@, instance_id) ==> match super::lookup::bound_instance(
                old(self)@,
                conversation@,
            ) {
                Some(b) => final(self)@ == old(self)@ && if b == instance_id {
                    r == Ok::<bool, CatalogError>(false)
                } else {
                    r matches Err(CatalogError::AgentBindingConflict)
                },
                None => final(self)@ == (CatalogView {
                    bindings: binding_put(old(self)@.bindings, conversation@, instance_id),
                    ..old(self)@
                }) && (r is Ok <==> super::validate::catalog_valid(final(self)@)) && (r is Ok ==> r == Ok::<
                    bool,
                    CatalogError,
                >(true)) && (r matches Err(e) ==> validation_error(e)),
            },
    {
        match conversation.validate() {
            Err(_) => {
                let mut m = String::new();
                crate::text::push_str(&mut m, "invalid agent conversation key: agent conversation key is not a valid opaque SHA-256 digest");
                return Err(CatalogError::Invariant(m));
            },
            Ok(()) => {},
        }
        if self.find_instance(instance_id).is_none() {
            return Err(
                CatalogError::Invariant(
                    String::from_str("agent conversation binding references a missing project instance"),
                ),
            );
        }
        match self.agent_binding(&conversation) {
            Some(bound) => {
                if bound == instance_id {
                    Ok(false)
                } else {
                    Err(CatalogError::AgentBindingConflict)
                }
            },
            None => {
                proof {
                    assert(binding_index(self@.bindings, conversation@) is None);
                }
                self.insert_binding(conversation, instance_id);
                match self.validate() {
                    Ok(()) => Ok(true),
                    Err(e) => Err(e),
                }
            },
        }
    }
}

/// The slugs reserved by instances of a project.
pub open spec fn reserved_slugs(s: Seq<InstanceView>, pid: crate::identity::ProjectId) -> Set<Seq<char>> {
    Set::new(|t: Seq<char>| exists|j: int| 0 <= j < s.len() && s[j].project_id == pid && s[j].domain_slug == Some(t))
}

/// What unregistering does: with matching unresolved evidence `ms`, drop
/// exactly that evidence; otherwise remove the instance the path resolves to,
/// releasing its domain claims, or report that nothing was there.
pub open spec fn unregistered(
    v: CatalogView,
    w: CatalogView,
    r: Result<bool, CatalogError>,
    path: Seq<char>,
    canonical: Seq<char>,
    ms: Seq<Seq<char>>,
) -> bool {
    &&& (ms.len() > 0 ==> r == Ok::<bool, CatalogError>(true) && w == (CatalogView {
                unresolved: without_all(v.unresolved, ms),
                ..v
            }))
    &&& (ms.len() == 0 ==> match resolved_instance(v, path, canonical) {
                None => r == Ok::<bool, CatalogError>(false) && w == v,
                Some(id) => (r is Ok <==> replacement_accepted(
                    v.domain_index.exact_map(),
                    v.domain_index.wildcard_map(),
                    id,
                    Seq::empty(),
                )) && (r is Err ==> w == v && r matches Err(CatalogError::Domain(_))) && (r is Ok ==> r
                    == Ok::<bool, CatalogError>(true) && w.domain_index.exact_map() == replaced_exact(
                    v.domain_index.exact_map(),
                    id,
                    Seq::empty(),
                ) && w.domain_index.wildcard_map() == replaced_wildcards(
                    v.domain_index.wildcard_map(),
                    id,
                    Seq::empty(),
                ) && w == (CatalogView { domain_index: w.domain_index, ..instance_removed(v, id) })),
            })
}

/// A hint's slug label, if any of it survives sanitizing.
pub open spec fn hint_label(hint: Option<Seq<char>>) -> Option<Seq<char>> {
    match hint {
        Some(h) => super::slug::spec_sanitize_slug_hint(h),
        None => None,
    }
}

/// The label a linked worktree's slug is allocated from: the first hint that
/// sanitizes to a DNS label among the trusted label, the last segment of the
/// worktree's branch, and its display name; else `wt-` and the first eight
/// digits of the instance.
pub open spec fn slug_base(
    label: Option<Seq<char>>,
    branch: Option<Seq<char>>,
    display_name: Option<Seq<char>>,
    id: ProjectInstanceId,
) -> Seq<char> {
    let branch_segment = match branch {
        Some(b) => Some(super::slug::spec_branch_last_segment(b)),
        None => None,
    };
    if hint_label(label) is Some {
        hint_label(label)->0
    } else if hint_label(branch_segment) is Some {
        hint_label(branch_segment)->0
    } else if hint_label(display_name) is Some {
        hint_label(display_name)->0
    } else {
        "wt-"@ + crate::identity::uuid_text(id.value).take(8)
    }
}

/// The first hint of the chain that sanitizes to a label.
fn first_hint_label(label: Option<&str>, branch: &Option<String>, display_name: &Option<String>) -> (r: Option<String>)
    ensures
        r matches Some(t) ==> crate::text::all_ascii(t@) && t@.len() <= 63,
        match r {
            Some(t) => {
                let branch_segment = match opt_view(*branch) {
                    Some(b) => Some(super::slug::spec_branch_last_segment(b)),
                    None => None,
                };
                Some(t@) == (if hint_label(opt_str_view(label)) is Some {
                    hint_label(opt_str_view(label))
                } else if hint_label(branch_segment) is Some {
                    hint_label(branch_segment)
                } else {
                    hint_label(opt_view(*display_name))
                })
            },
            None => {
                &&& hint_label(opt_str_view(label)) is None
                &&& hint_label(
                    match opt_view(*branch) {
                        Some(b) => Some(super::slug::spec_branch_last_segment(b)),
                        None => None,
                    },
                ) is None
                &&& hint_label(opt_view(*display_name)) is None
            },
        },
{
    if let Some(l) = label {
        if let Some(t) = super::slug::sanitize_slug_hint(l) {
            return Some(t);
        }
    }
    if let Some(b) = branch {
        let segment = super::slug::branch_last_segment(b.as_str());
        if let Some(t) = super::slug::sanitize_slug_hint(segment.as_str()) {
            return Some(t);
        }
    }
    if let Some(d) = display_name {
        if let Some(t) = super::slug::sanitize_slug_hint(d.as_str()) {
            return Some(t);
        }
    }
    None
}

/// The text of an optional string slice.
pub open spec fn opt_str_view(o: Option<&str>) -> Option<Seq<char>> {
    match o {
        Some(s) => Some(s@),
        None => None,
    }
}

/// The unresolved paths that name `path`: equal to it or to its normalized
/// form, or normalizing (per `normalized_keys`, aligned with the table) to it.
pub open spec fn matching_paths(
    s: Seq<UnresolvedView>,
    normalized_keys: Seq<Option<Seq<char>>>,
    path: Seq<char>,
    normalized: Seq<char>,
) -> Seq<Seq<char>>
    decreases s.len(),
{
    if s.len() == 0 || normalized_keys.len() == 0 {
        Seq::empty()
    } else {
        let rest = matching_paths(s.drop_last(), normalized_keys.drop_last(), path, normalized);
        if s.last().path == path || s.last().path == normalized || normalized_keys.last() == Some(normalized) {
            rest.push(s.last().path)
        } else {
            rest
        }
    }
}

impl ProjectCatalog {
    /// The unresolved legacy paths naming the same location as `path`.
    pub fn matching_unresolved_paths(&self, path: &String, normalized: &String, normalized_keys: &Vec<Option<String>>) -> (r:
        Vec<String>)
        requires
            normalized_keys@.len() == self@.unresolved.len(),
        ensures
            crate::domain::string_views(r@) == matching_paths(
                self@.unresolved,
                normalized_keys@.map_values(|o: Option<String>| opt_view(o)),
                path@,
                normalized@,
            ),
    {
        let ghost s = self@.unresolved;
        let ghost nk = normalized_keys@.map_values(|o: Option<String>| opt_view(o));
        let mut r: Vec<String> = Vec::new();
        let mut i: usize = 0;
        proof {
            assert(crate::domain::string_views(r@) =~= Seq::<Seq<char>>::empty());
        }
        while i < self.unresolved_legacy.len()
            invariant
                i <= self.unresolved_legacy@.len(),
                normalized_keys@.len() == self.unresolved_legacy@.len(),
                s == self.unresolved_legacy@.map_values(|x: UnresolvedLegacyProject| x@),
                nk == normalized_keys@.map_values(|o: Option<String>| opt_view(o)),
                crate::domain::string_views(r@) == matching_paths(s.take(i as int), nk.take(i as int), path@, normalized@),
            decreases self.unresolved_legacy@.len() - i,
        {
            let key = &self.unresolved_legacy[i].path;
            let hit = *key == *path || *key == *normalized || match &normalized_keys[i] {
                Some(n) => *n == *normalized,
                None => false,
            };
            proof {
                assert(s.take(i + 1).drop_last() =~= s.take(i as int));
                assert(nk.take(i + 1).drop_last() =~= nk.take(i as int));
                assert(s.take(i + 1).last() == s[i as int]);
                assert(nk.take(i + 1).last() == nk[i as int]);
                assert(s[i as int] == self.unresolved_legacy@[i as int]@);
            }
            if hit {
                let ghost before = r@;
                r.push(key.clone());
                proof {
                    assert(crate::domain::string_views(r@) =~= crate::domain::string_views(before).push(key@));
                }
            }
            i = i + 1;
        }
        proof {
            assert(s.take(s.len() as int) =~= s);
            assert(nk.take(nk.len() as int) =~= nk);
        }
        r
    }

    /// Replace one instance's complete exact and wildcard claim set.
    pub fn replace_domain_claims(&mut self, instance_id: ProjectInstanceId, claims: Vec<DomainClaim>) -> (r: Result<
        (),
        CatalogError,
    >)
        ensures
            !has_instance(old(self)@, instance_id) ==> final(self)@ == old(self)@ && r matches Err(CatalogError::Invariant(_)),
            has_instance(old(self)@, instance_id) && !replacement_accepted(
                old(self)@.domain_index.exact_map(),
                old(self)@.domain_index.wildcard_map(),
                instance_id,
                claims@,
            ) ==> final(self)@ == old(self)@ && r matches Err(CatalogError::Domain(_)),
            has_instance(old(self)@, instance_id) && replacement_accepted(
                old(self)@.domain_index.exact_map(),
                old(self)@.domain_index.wildcard_map(),
                instance_id,
                claims@,
            ) ==> {
                let i = instance_index(old(self)@.instances, instance_id)->0;
                &&& final(self)@.domain_index.exact_map() == replaced_exact(
                    old(self)@.domain_index.exact_map(),
                    instance_id,
                    claims@,
                )
                &&& final(self)@.domain_index.wildcard_map() == replaced_wildcards(
                    old(self)@.domain_index.wildcard_map(),
                    instance_id,
                    claims@,
                )
                &&& final(self)@ == (CatalogView {
                    domain_index: final(self)@.domain_index,
                    instances: old(self)@.instances.update(
                        i,
                        InstanceView { domain_claims: final(self)@.instances[i].domain_claims, ..old(self)@.instances[i] },
                    ),
                    ..old(self)@
                })
                &&& final(self)@.instances[i].domain_claims.to_set() == crate::domain::spec_instance_domains(
                    final(self)@.domain_index.exact_map(),
                    final(self)@.domain_index.wildcard_map(),
                    instance_id,
                )
                &&& (r is Ok <==> super::validate::catalog_valid(final(self)@))
                &&& (r matches Err(e) ==> validation_error(e))
            },
    {
        proof {
            use_type_invariant(&*self);
        }
        let i = match locate_instance(&self.instances, instance_id) {
            Some(i) => i,
            None => {
                proof {
                    assert(!has_instance(self@, instance_id)) by {
                        if has_instance(self@, instance_id) {
                            let j = choose|j: int| 0 <= j < self@.instances.len() && self@.instances[j].id == instance_id;
                        }
                    }
                }
                return Err(super::validate::broken("domain claims reference missing project instance ", instance_id.value, ""));
            },
        };
        let replacement = match self.domain_index.replacing_instance(instance_id, claims) {
            Ok(x) => x,
            Err(e) => {
                return Err(CatalogError::Domain(e));
            },
        };
        let domains = replacement.domains_for_instance(instance_id);
        let ghost iv = self.instances@.map_values(|y: ProjectInstanceRecord| y@);
        let mut instances = clone_instances(&self.instances);
        let mut record = instances[i].clone();
        proof {
            assert(iv[i as int] == self.instances@[i as int]@);
        }
        record.domain_claims = domains;
        instances.set(i, record);
        proof {
            assert(instances@.map_values(|y: ProjectInstanceRecord| y@) =~= iv.update(
                i as int,
                InstanceView { domain_claims: instances@[i as int]@.domain_claims, ..iv[i as int] },
            ));
            assert(instance_ids(instances@.map_values(|y: ProjectInstanceRecord| y@)) =~= instance_ids(iv));
        }
        self.instances = instances;
        self.domain_index = replacement;
        self.validate()
    }

    /// Allocate and persist the stable DNS label for a linked worktree.
    ///
    /// `hint` is the first usable label among the trusted task label, the
    /// branch, and the worktree path, already sanitized to a DNS label.
    /// Once assigned, a slug remains reserved until the instance is
    /// explicitly forgotten.
    pub fn ensure_worktree_domain_slug(
        &mut self,
        instance_id: ProjectInstanceId,
        is_linked_worktree: bool,
        trusted_label: Option<&str>,
    ) -> (r: Result<Option<String>, CatalogError>)
        requires
            old(self)@.instances.len() + 3 <= 0xffff_ffff_ffff_ffff,
        ensures
            match instance_index(old(self)@.instances, instance_id) {
                None => final(self)@ == old(self)@ && r matches Err(CatalogError::Invariant(_)),
                Some(i) => {
                    let rec = old(self)@.instances[i];
                    if rec.domain_slug is Some {
                        final(self)@ == old(self)@ && (r matches Ok(Some(x)) && Some(x@) == rec.domain_slug)
                    } else if !is_linked_worktree || rec.origin == ProjectInstanceOrigin::NonGit {
                        final(self)@ == old(self)@ && r == Ok::<Option<String>, CatalogError>(None)
                    } else if !super::validate::has_worktree(old(self)@, rec.origin->worktree_id) {
                        final(self)@ == old(self)@ && r matches Err(CatalogError::Invariant(_))
                    } else {
                        exists|slug: Seq<char>|
                            super::slug::slug_allocated(
                                slug_base(
                                    opt_str_view(trusted_label),
                                    old(self)@.worktrees[worktree_index(old(self)@.worktrees, rec.origin->worktree_id)->0].branch,
                                    old(self)@.worktrees[worktree_index(old(self)@.worktrees, rec.origin->worktree_id)->0].display_name,
                                    instance_id,
                                ),
                                reserved_slugs(old(self)@.instances, rec.project_id),
                                slug,
                            ) && slug.len() <= 63 && final(self)@ == (CatalogView {
                                instances: old(self)@.instances.update(i, InstanceView { domain_slug: Some(slug), ..rec }),
                                ..old(self)@
                            }) && (r is Ok <==> super::validate::catalog_valid(final(self)@)) && (r matches Ok(x) ==> (x
                                matches Some(t) && t@ == slug)) && (r matches Err(e) ==> validation_error(e))
                    }
                },
            },
    {
        proof {
            use_type_invariant(&*self);
        }
        let ghost v = self@;
        let i = match locate_instance(&self.instances, instance_id) {
            Some(i) => i,
            None => {
                return Err(super::validate::broken("domain slug references missing project instance ", instance_id.value, ""));
            },
        };
        proof {
            assert(v.instances[i as int] == self.instances@[i as int]@);
        }
        match &self.instances[i].domain_slug {
            Some(slug) => {
                return Ok(Some(slug.clone()));
            },
            None => {},
        }
        if !is_linked_worktree {
            return Ok(None);
        }
        let project_id = self.instances[i].project_id;
        let worktree_id = match self.instances[i].origin {
            ProjectInstanceOrigin::Git { worktree_id } => worktree_id,
            ProjectInstanceOrigin::NonGit => {
                return Ok(None);
            },
        };
        let w = match locate_worktree(&self.worktrees, worktree_id) {
            Some(w) => w,
            None => {
                return Err(super::validate::broken("project instance ", instance_id.value, " references a missing worktree"));
            },
        };
        proof {
            assert(v.worktrees[w as int] == self.worktrees@[w as int]@);
        }
        let hinted = first_hint_label(trusted_label, &self.worktrees[w].branch, &self.worktrees[w].display_name);
        let base = match hinted {
            Some(h) => h,
            None => {
                let text = instance_id.to_string();
                let chars = str_chars(text.as_str());
                let mut b = String::from_str("wt-");
                let mut k: usize = 0;
                proof {
                    reveal_strlit("wt-");
                    crate::identity::lemma_uuid_text_shape(instance_id.value);
                }
                while k < 8
                    invariant
                        k <= 8,
                        chars@ == crate::identity::uuid_text(instance_id.value),
                        chars@.len() == 36,
                        b@ == "wt-"@ + chars@.take(k as int),
                    decreases 8 - k,
                {
                    crate::text::push_char(&mut b, chars[k]);
                    k = k + 1;
                    proof {
                        assert(b@ =~= "wt-"@ + chars@.take(k as int));
                    }
                }
                b
            },
        };
        proof {
            reveal_strlit("wt-");
            assert(base@ == slug_base(
                opt_str_view(trusted_label),
                v.worktrees[w as int].branch,
                v.worktrees[w as int].display_name,
                instance_id,
            ));
            if hinted is None {
                crate::identity::lemma_uuid_text_shape(instance_id.value);
                let t = crate::identity::uuid_text(instance_id.value);
                assert forall|q: int| 0 <= q < base@.len() implies (base@[q] as u32) < 128 by {
                    if q >= 3 {
                        assert(base@[q] == t[q - 3]);
                    }
                }
            }
        }
        let mut reserved: Vec<String> = Vec::new();
        let mut j: usize = 0;
        while j < self.instances.len()
            invariant
                j <= self.instances@.len(),
                v == self@,
                v.instances == self.instances@.map_values(|y: ProjectInstanceRecord| y@),
                reserved@.len() <= j,
                super::slug::text_set(reserved@) == Set::new(
                    |t: Seq<char>| exists|k: int| 0 <= k < j && v.instances[k].project_id == project_id && v.instances[k].domain_slug == Some(t),
                ),
            decreases self.instances@.len() - j,
        {
            proof {
                assert(v.instances[j as int] == self.instances@[j as int]@);
            }
            if self.instances[j].project_id == project_id {
                match &self.instances[j].domain_slug {
                    Some(slug) => {
                        let ghost before = reserved@;
                        reserved.push(slug.clone());
                        proof {
                            assert(super::slug::text_set(reserved@) =~= Set::new(
                                |t: Seq<char>| exists|k: int| 0 <= k < j + 1 && v.instances[k].project_id == project_id && v.instances[k].domain_slug == Some(t),
                            )) by {
                                assert(reserved@.map_values(|x: String| x@) =~= before.map_values(|x: String| x@).push(slug@));
                                before.map_values(|x: String| x@).lemma_push_to_set_commute(slug@);
                                assert(v.instances[j as int].domain_slug == Some(slug@));
                            }
                        }
                    },
                    None => {
                        proof {
                            assert(super::slug::text_set(reserved@) =~= Set::new(
                                |t: Seq<char>| exists|k: int| 0 <= k < j + 1 && v.instances[k].project_id == project_id && v.instances[k].domain_slug == Some(t),
                            ));
                        }
                    },
                }
            } else {
                proof {
                    assert(super::slug::text_set(reserved@) =~= Set::new(
                        |t: Seq<char>| exists|k: int| 0 <= k < j + 1 && v.instances[k].project_id == project_id && v.instances[k].domain_slug == Some(t),
                    ));
                }
            }
            j = j + 1;
        }
        proof {
            assert(super::slug::text_set(reserved@) =~= reserved_slugs(v.instances, project_id));
        }
        let slug = super::slug::allocate_unique_domain_slug(base.as_str(), reserved.as_slice());
        let ghost iv = self.instances@.map_values(|y: ProjectInstanceRecord| y@);
        let mut instances = clone_instances(&self.instances);
        let mut record = instances[i].clone();
        record.domain_slug = Some(slug.clone());
        instances.set(i, record);
        proof {
            assert(instances@.map_values(|y: ProjectInstanceRecord| y@) =~= iv.update(
                i as int,
                InstanceView { domain_slug: Some(slug@), ..iv[i as int] },
            ));
            assert(instance_ids(instances@.map_values(|y: ProjectInstanceRecord| y@)) =~= instance_ids(iv));
        }
        self.instances = instances;
        match self.validate() {
            Ok(()) => Ok(Some(slug)),
            Err(e) => Err(e),
        }
    }

    /// Upgrade one catalog image embedded in a replayable lifecycle journal:
    /// the previous schema gains an empty agent-binding table.
    pub fn upgrade_embedded_schema(&mut self) -> (r: Result<bool, CatalogError>)
        ensures
            old(self)@.version != CATALOG_VERSION && old(self)@.version != PREVIOUS_CATALOG_VERSION ==> final(self)@ == old(
                self,
            )@ && r matches Err(CatalogError::Invariant(_)),
            old(self)@.version == CATALOG_VERSION ==> final(self)@ == old(self)@,
            old(self)@.version == PREVIOUS_CATALOG_VERSION ==> final(self)@ == (CatalogView {
                version: CATALOG_VERSION,
                bindings: Seq::empty(),
                ..old(self)@
            }),
            old(self)@.version == CATALOG_VERSION || old(self)@.version == PREVIOUS_CATALOG_VERSION ==> (r is Ok
                <==> super::validate::catalog_valid(final(self)@)) && (r matches Ok(u) ==> u == (old(self)@.version
                == PREVIOUS_CATALOG_VERSION)) && (r matches Err(e) ==> validation_error(e)
                && super::validate::validation_reports(final(self)@, e)),
    {
        proof {
            use_type_invariant(&*self);
        }
        let upgraded = if self.version == CATALOG_VERSION {
            false
        } else if self.version == PREVIOUS_CATALOG_VERSION {
            self.version = CATALOG_VERSION;
            self.agent_bindings = Vec::new();
            proof {
                assert(self@.bindings =~= Seq::<(Seq<char>, ProjectInstanceId)>::empty());
            }
            true
        } else {
            let mut m = String::new();
            crate::text::push_str(&mut m, "embedded catalog schema version ");
            crate::text::push_decimal(&mut m, self.version as u64);
            crate::text::push_str(&mut m, " cannot be upgraded to 4");
            return Err(CatalogError::Invariant(m));
        };
        match self.validate() {
            Ok(()) => Ok(upgraded),
            Err(e) => Err(e),
        }
    }
}

} // verus!
