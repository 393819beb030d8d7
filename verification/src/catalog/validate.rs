//! The relationships every catalog image must satisfy.

use super::records::{
    CatalogPresence, InstanceView, OriginView, ProjectInstanceOrigin, ProjectOrigin, ProjectRecord, RepositoryRecord,
    WorktreeRecord,
};
use super::{CatalogError, CatalogView, ProjectCatalog, CATALOG_VERSION};
use crate::availability::{opt_string_eq, opt_view};
use crate::domain::{entries_view, spec_index_valid, spec_instance_domains, string_views, DomainTarget};
use crate::identity::{
    derive_project_id, derive_project_instance_id, instance_id_name, project_id_name, relative_components,
    uuid_text, uuid_v5, uuid_version, uuid_version_of, ProjectId, ProjectInstanceId, RepositoryId, WorktreeId,
};
use crate::text::push_str;
use vstd::prelude::*;

verus! {

pub open spec fn has_repository(v: CatalogView, id: RepositoryId) -> bool {
    exists|j: int| 0 <= j < v.repositories.len() && v.repositories[j].id == id
}

pub open spec fn has_worktree(v: CatalogView, id: WorktreeId) -> bool {
    exists|j: int| 0 <= j < v.worktrees.len() && v.worktrees[j].id == id
}

pub open spec fn has_project(v: CatalogView, id: ProjectId) -> bool {
    exists|j: int| 0 <= j < v.projects.len() && v.projects[j].id == id
}

pub open spec fn has_instance(v: CatalogView, id: ProjectInstanceId) -> bool {
    exists|j: int| 0 <= j < v.instances.len() && v.instances[j].id == id
}

/// A record is active exactly when it has a current locator.
pub open spec fn presence_ok(p: CatalogPresence, current: Option<Seq<char>>) -> bool {
    (p == CatalogPresence::Active) <==> (current is Some)
}

/// Two records do not both claim the same current locator.
pub open spec fn distinct_locators(a: Option<Seq<char>>, b: Option<Seq<char>>) -> bool {
    !(a is Some && a == b)
}

/// Every agent binding names a catalogued instance.
pub open spec fn bindings_resolve(v: CatalogView) -> bool {
    forall|i: int| 0 <= i < v.bindings.len() ==> has_instance(v, #[trigger] v.bindings[i].1)
}

/// Every exact service claim names a catalogued instance.
pub open spec fn claims_resolve(v: CatalogView) -> bool {
    forall|i: int|
        0 <= i < v.domain_index.exact_entries().len() ==> ((#[trigger] v.domain_index.exact_entries()[i]).1 matches DomainTarget::Service {
            project_instance_id,
            ..
        } ==> has_instance(v, project_instance_id))
}

pub open spec fn repository_ok(v: CatalogView, i: int) -> bool {
    uuid_version(v.repositories[i].id.value) == 4 && presence_ok(v.repositories[i].presence, v.repositories[i].current_git_dir)
}

pub open spec fn repositories_ok(v: CatalogView) -> bool {
    &&& forall|i: int| 0 <= i < v.repositories.len() ==> #[trigger] repository_ok(v, i)
    &&& forall|i: int, j: int|
        0 <= i < j < v.repositories.len() ==> distinct_locators(
            #[trigger] v.repositories[i].current_git_dir,
            #[trigger] v.repositories[j].current_git_dir,
        )
}

pub open spec fn worktree_ok(v: CatalogView, i: int) -> bool {
    &&& has_repository(v, v.worktrees[i].repository_id)
    &&& uuid_version(v.worktrees[i].id.value) == 4
    &&& presence_ok(v.worktrees[i].presence, v.worktrees[i].current_path)
}

pub open spec fn worktrees_ok(v: CatalogView) -> bool {
    &&& forall|i: int| 0 <= i < v.worktrees.len() ==> #[trigger] worktree_ok(v, i)
    &&& forall|i: int, j: int|
        0 <= i < j < v.worktrees.len() ==> distinct_locators(
            #[trigger] v.worktrees[i].current_path,
            #[trigger] v.worktrees[j].current_path,
        )
}

/// A Git project's identity is derived from its repository and relative
/// root; a non-Git project's is a random (version 4) UUID.
pub open spec fn project_ok(v: CatalogView, i: int) -> bool {
    match v.projects[i].origin {
        OriginView::Git { repository_id, repository_relative_root } => has_repository(v, repository_id)
            && match relative_components(repository_relative_root) {
            Ok(parts) => v.projects[i].id.value == uuid_v5(repository_id.value, project_id_name(parts)),
            Err(_) => false,
        },
        OriginView::NonGit => uuid_version(v.projects[i].id.value) == 4,
    }
}

pub open spec fn projects_ok(v: CatalogView) -> bool {
    forall|i: int| 0 <= i < v.projects.len() ==> #[trigger] project_ok(v, i)
}

/// An instance agrees with its project's origin: a Git instance lives in a
/// worktree of the project's repository and has the derived identity; a
/// non-Git instance has a random identity.
pub open spec fn instance_origin_ok(v: CatalogView, r: InstanceView) -> bool {
    forall|j: int|
        0 <= j < v.projects.len() && (#[trigger] v.projects[j]).id == r.project_id ==> match (r.origin, v.projects[j].origin) {
            (ProjectInstanceOrigin::Git { worktree_id }, OriginView::Git { repository_id, .. }) => {
                &&& has_worktree(v, worktree_id)
                &&& forall|k: int|
                    0 <= k < v.worktrees.len() && (#[trigger] v.worktrees[k]).id == worktree_id ==> v.worktrees[k].repository_id
                        == repository_id
                &&& r.id.value == uuid_v5(worktree_id.value, instance_id_name(r.project_id))
            },
            (ProjectInstanceOrigin::NonGit, OriginView::NonGit) => uuid_version(r.id.value) == 4,
            _ => false,
        }
}

/// A persistent slug is already one sanitized DNS label.
pub open spec fn slug_well_formed(slug: Option<Seq<char>>) -> bool {
    slug matches Some(t) ==> super::slug::spec_sanitize_slug_hint(t) == Some(t)
}

pub open spec fn instance_ok(v: CatalogView, i: int) -> bool {
    let r = v.instances[i];
    &&& has_project(v, r.project_id)
    &&& slug_well_formed(r.domain_slug)
    &&& presence_ok(r.presence, r.current_path)
    &&& instance_origin_ok(v, r)
    &&& r.domain_claims.to_set() == spec_instance_domains(
        v.domain_index.exact_map(),
        v.domain_index.wildcard_map(),
        r.id,
    )
}

/// Two instances of one project do not reserve the same domain slug.
pub open spec fn slugs_distinct(a: InstanceView, b: InstanceView) -> bool {
    !(a.domain_slug is Some && a.project_id == b.project_id && a.domain_slug == b.domain_slug)
}

pub open spec fn instances_ok(v: CatalogView) -> bool {
    &&& forall|i: int| 0 <= i < v.instances.len() ==> #[trigger] instance_ok(v, i)
    &&& forall|i: int, j: int|
        0 <= i < j < v.instances.len() ==> distinct_locators(
            #[trigger] v.instances[i].current_path,
            #[trigger] v.instances[j].current_path,
        ) && slugs_distinct(v.instances[i], v.instances[j])
}

/// Whether an instance currently claims a locator.
pub open spec fn currently_at(v: CatalogView, j: int, path: Seq<char>) -> bool {
    v.instances[j].current_path == Some(path)
}

/// A legacy alias names a catalogued instance, agrees with any instance
/// currently at that path, and is not also unresolved.
pub open spec fn legacy_ok(v: CatalogView, i: int) -> bool {
    let (path, id) = v.legacy_paths[i];
    &&& has_instance(v, id)
    &&& forall|j: int| 0 <= j < v.instances.len() && #[trigger] currently_at(v, j, path) ==> v.instances[j].id == id
    &&& forall|u: int| 0 <= u < v.unresolved.len() ==> (#[trigger] v.unresolved[u]).path != path
}

pub open spec fn legacy_paths_ok(v: CatalogView) -> bool {
    forall|i: int| 0 <= i < v.legacy_paths.len() ==> #[trigger] legacy_ok(v, i)
}

/// No unresolved legacy path is claimed by an identified instance.
pub open spec fn unresolved_ok(v: CatalogView) -> bool {
    forall|i: int, j: int|
        0 <= i < v.unresolved.len() && 0 <= j < v.instances.len() ==> !#[trigger] currently_at(
            v,
            j,
            (#[trigger] v.unresolved[i]).path,
        )
}

/// Every key, relationship, locator, and presence invariant of a catalog.
pub open spec fn catalog_valid(v: CatalogView) -> bool {
    &&& v.version == CATALOG_VERSION
    &&& spec_index_valid(v.domain_index.exact_map(), v.domain_index.wildcard_map())
    &&& bindings_resolve(v)
    &&& claims_resolve(v)
    &&& repositories_ok(v)
    &&& worktrees_ok(v)
    &&& projects_ok(v)
    &&& instances_ok(v)
    &&& legacy_paths_ok(v)
    &&& unresolved_ok(v)
}

/// A broken catalog invariant, in words.
pub(crate) fn broken(prefix: &str, id: u128, suffix: &str) -> (r: CatalogError)
    ensures
        r matches CatalogError::Invariant(m) && m@ == prefix@ + uuid_text(id) + suffix@,
{
    let mut m = String::new();
    push_str(&mut m, prefix);
    let t = ProjectInstanceId { value: id }.to_string();
    push_str(&mut m, t.as_str());
    push_str(&mut m, suffix);
    CatalogError::Invariant(m)
}

/// A broken catalog invariant about a locator, in words.
pub(crate) fn path_invariant(prefix: &str, path: &str, suffix: &str) -> (r: CatalogError)
    ensures
        r matches CatalogError::Invariant(m) && m@ == prefix@ + path@ + suffix@,
{
    let mut m = String::new();
    push_str(&mut m, prefix);
    push_str(&mut m, path);
    push_str(&mut m, suffix);
    CatalogError::Invariant(m)
}

/// The kinds of error validation reports.
pub open spec fn validation_error(e: CatalogError) -> bool {
    e is Invariant || e is Domain || e is Identity
}

/// The first project that breaks its rule has a Git origin whose
/// repository exists but whose relative root does not split into components.
pub open spec fn project_identity_fault(v: CatalogView) -> bool {
    exists|i: int|
        0 <= i < v.projects.len() && !project_ok(v, i) && (forall|k: int| 0 <= k < i ==> #[trigger] project_ok(v, k)) && match
            #[trigger] v.projects[i].origin {
            OriginView::Git { repository_id, repository_relative_root } => has_repository(v, repository_id)
                && relative_components(repository_relative_root) is Err,
            OriginView::NonGit => false,
        }
}

/// The error validation reports for the first rule a catalog breaks: the
/// domain index's own fault as `Domain`; a project whose relative root cannot
/// be resolved as `Identity`; every other broken rule as `Invariant`.
pub open spec fn validation_reports(v: CatalogView, e: CatalogError) -> bool {
    if v.version != CATALOG_VERSION {
        e is Invariant
    } else if !spec_index_valid(v.domain_index.exact_map(), v.domain_index.wildcard_map()) {
        e is Domain
    } else if !bindings_resolve(v) || !claims_resolve(v) || !repositories_ok(v) || !worktrees_ok(v) {
        e is Invariant
    } else if !projects_ok(v) && project_identity_fault(v) {
        e is Identity
    } else {
        e is Invariant
    }
}

/// A project identity fault lies at the first project that breaks its rule.
proof fn lemma_first_fault_unique(v: CatalogView, i: int)
    requires
        0 <= i < v.projects.len(),
        !project_ok(v, i),
        forall|k: int| 0 <= k < i ==> #[trigger] project_ok(v, k),
    ensures
        project_identity_fault(v) <==> match v.projects[i].origin {
            OriginView::Git { repository_id, repository_relative_root } => has_repository(v, repository_id)
                && relative_components(repository_relative_root) is Err,
            OriginView::NonGit => false,
        },
{
    if project_identity_fault(v) {
        let j = choose|j: int|
            0 <= j < v.projects.len() && !project_ok(v, j) && (forall|k: int| 0 <= k < j ==> #[trigger] project_ok(v, k)) && match
                #[trigger] v.projects[j].origin {
                OriginView::Git { repository_id, repository_relative_root } => has_repository(v, repository_id)
                    && relative_components(repository_relative_root) is Err,
                OriginView::NonGit => false,
            };
        if j < i {
            assert(project_ok(v, j));
        } else if i < j {
            assert(project_ok(v, i));
        }
    }
}

/// Whether two lists hold the same texts.
pub(crate) fn same_text_sets(a: &Vec<String>, b: &Vec<String>) -> (r: bool)
    ensures
        r == (string_views(a@).to_set() == string_views(b@).to_set()),
{
    let ghost sa = string_views(a@);
    let ghost sb = string_views(b@);
    let mut i: usize = 0;
    while i < a.len()
        invariant
            i <= a@.len(),
            sa == string_views(a@),
            sb == string_views(b@),
            forall|k: int| 0 <= k < i ==> sb.contains(#[trigger] sa[k]),
        decreases a@.len() - i,
    {
        if !text_in(b, &a[i]) {
            proof {
                assert(sa.to_set().contains(sa[i as int]));
                assert(!sb.to_set().contains(sa[i as int]));
            }
            return false;
        }
        i = i + 1;
    }
    let mut j: usize = 0;
    while j < b.len()
        invariant
            j <= b@.len(),
            sa == string_views(a@),
            sb == string_views(b@),
            forall|k: int| 0 <= k < a@.len() ==> sb.contains(#[trigger] sa[k]),
            forall|k: int| 0 <= k < j ==> sa.contains(#[trigger] sb[k]),
        decreases b@.len() - j,
    {
        if !text_in(a, &b[j]) {
            proof {
                assert(sb.to_set().contains(sb[j as int]));
                assert(!sa.to_set().contains(sb[j as int]));
            }
            return false;
        }
        j = j + 1;
    }
    proof {
        assert forall|x: Seq<char>| sa.to_set().contains(x) <==> sb.to_set().contains(x) by {
            if sa.contains(x) {
                let k = choose|k: int| 0 <= k < sa.len() && sa[k] == x;
                assert(sb.contains(sa[k]));
            }
            if sb.contains(x) {
                let k = choose|k: int| 0 <= k < sb.len() && sb[k] == x;
                assert(sa.contains(sb[k]));
            }
        }
        assert(sa.to_set() =~= sb.to_set());
    }
    true
}

/// Whether a list holds a text.
pub(crate) fn text_in(v: &Vec<String>, t: &String) -> (r: bool)
    ensures
        r == string_views(v@).contains(t@),
{
    let ghost sv = string_views(v@);
    let mut i: usize = 0;
    while i < v.len()
        invariant
            i <= v@.len(),
            sv == string_views(v@),
            forall|k: int| 0 <= k < i ==> sv[k] != t@,
        decreases v@.len() - i,
    {
        if v[i] == *t {
            proof {
                assert(sv[i as int] == t@);
            }
            return true;
        }
        i = i + 1;
    }
    false
}

impl ProjectCatalog {
    pub(crate) fn find_repository(&self, id: RepositoryId) -> (r: Option<usize>)
        ensures
            match r {
                Some(j) => j < self@.repositories.len() && self@.repositories[j as int].id == id,
                None => !has_repository(self@, id),
            },
    {
        let mut i: usize = 0;
        while i < self.repositories.len()
            invariant
                i <= self.repositories@.len(),
                self@.repositories == self.repositories@.map_values(|r: RepositoryRecord| r@),
                forall|k: int| 0 <= k < i ==> self.repositories@[k].id != id,
            decreases self.repositories@.len() - i,
        {
            if self.repositories[i].id == id {
                return Some(i);
            }
            i = i + 1;
        }
        None
    }

    pub(crate) fn find_worktree(&self, id: WorktreeId) -> (r: Option<usize>)
        ensures
            match r {
                Some(j) => j < self@.worktrees.len() && self@.worktrees[j as int].id == id,
                None => !has_worktree(self@, id),
            },
    {
        let mut i: usize = 0;
        while i < self.worktrees.len()
            invariant
                i <= self.worktrees@.len(),
                self@.worktrees == self.worktrees@.map_values(|r: WorktreeRecord| r@),
                forall|k: int| 0 <= k < i ==> self.worktrees@[k].id != id,
            decreases self.worktrees@.len() - i,
        {
            if self.worktrees[i].id == id {
                return Some(i);
            }
            i = i + 1;
        }
        None
    }

    pub(crate) fn find_project(&self, id: ProjectId) -> (r: Option<usize>)
        ensures
            match r {
                Some(j) => j < self@.projects.len() && self@.projects[j as int].id == id,
                None => !has_project(self@, id),
            },
    {
        let mut i: usize = 0;
        while i < self.projects.len()
            invariant
                i <= self.projects@.len(),
                self@.projects == self.projects@.map_values(|r: ProjectRecord| r@),
                forall|k: int| 0 <= k < i ==> self.projects@[k].id != id,
            decreases self.projects@.len() - i,
        {
            if self.projects[i].id == id {
                return Some(i);
            }
            i = i + 1;
        }
        None
    }

    pub(crate) fn find_instance(&self, id: ProjectInstanceId) -> (r: Option<usize>)
        ensures
            match r {
                Some(j) => j < self@.instances.len() && self@.instances[j as int].id == id,
                None => !has_instance(self@, id),
            },
    {
        let mut i: usize = 0;
        while i < self.instances.len()
            invariant
                i <= self.instances@.len(),
                self@.instances == self.instances@.map_values(|r: super::records::ProjectInstanceRecord| r@),
                forall|k: int| 0 <= k < i ==> self.instances@[k].id != id,
            decreases self.instances@.len() - i,
        {
            if self.instances[i].id == id {
                return Some(i);
            }
            i = i + 1;
        }
        None
    }
}

impl ProjectCatalog {
    fn check_bindings(&self) -> (r: Result<(), CatalogError>)
        ensures
            r is Ok <==> bindings_resolve(self@),
            r matches Err(e) ==> e is Invariant,
    {
        let ghost v = self@;
        let mut i: usize = 0;
        while i < self.agent_bindings.len()
            invariant
                i <= self.agent_bindings@.len(),
                v == self@,
                v.bindings == self.agent_bindings@.map_values(
                    |e: (crate::agent::AgentConversationKey, ProjectInstanceId)| (e.0@, e.1),
                ),
                forall|k: int| 0 <= k < i ==> has_instance(v, #[trigger] v.bindings[k].1),
            decreases self.agent_bindings@.len() - i,
        {
            if self.find_instance(self.agent_bindings[i].1).is_none() {
                proof {
                    assert(v.bindings[i as int].1 == self.agent_bindings@[i as int].1);
                }
                return Err(
                    CatalogError::Invariant(
                        String::from_str("agent conversation binding references a missing project instance"),
                    ),
                );
            }
            i = i + 1;
        }
        Ok(())
    }

    fn check_claims(&self) -> (r: Result<(), CatalogError>)
        ensures
            r is Ok <==> claims_resolve(self@),
            r matches Err(e) ==> e is Invariant,
    {
        let ghost v = self@;
        let claims = self.domain_index.claims();
        let ghost es = v.domain_index.exact_entries();
        let mut i: usize = 0;
        while i < claims.len()
            invariant
                i <= claims@.len(),
                v == self@,
                entries_view(claims@) == es,
                es == v.domain_index.exact_entries(),
                forall|k: int|
                    0 <= k < i ==> ((#[trigger] es[k]).1 matches DomainTarget::Service { project_instance_id, .. }
                        ==> has_instance(v, project_instance_id)),
            decreases claims@.len() - i,
        {
            proof {
                assert(es[i as int] == (claims@[i as int].0@, claims@[i as int].1));
            }
            match &claims[i].1 {
                DomainTarget::Service { project_instance_id, .. } => {
                    if self.find_instance(*project_instance_id).is_none() {
                        let mut m = String::new();
                        push_str(&mut m, "domain `");
                        push_str(&mut m, claims[i].0.as_str());
                        push_str(&mut m, "` references missing project instance ");
                        let t = project_instance_id.to_string();
                        push_str(&mut m, t.as_str());
                        return Err(CatalogError::Invariant(m));
                    }
                },
                DomainTarget::Platform { .. } => {},
            }
            i = i + 1;
        }
        Ok(())
    }

    fn check_repositories(&self) -> (r: Result<(), CatalogError>)
        ensures
            r is Ok <==> repositories_ok(self@),
            r matches Err(e) ==> e is Invariant,
    {
        let ghost v = self@;
        let mut i: usize = 0;
        while i < self.repositories.len()
            invariant
                i <= self.repositories@.len(),
                v == self@,
                v.repositories == self.repositories@.map_values(|r: RepositoryRecord| r@),
                forall|k: int| 0 <= k < i ==> #[trigger] repository_ok(v, k),
                forall|a: int, b: int|
                    0 <= a < b < i ==> distinct_locators(
                        #[trigger] v.repositories[a].current_git_dir,
                        #[trigger] v.repositories[b].current_git_dir,
                    ),
            decreases self.repositories@.len() - i,
        {
            let record = &self.repositories[i];
            proof {
                assert(v.repositories[i as int] == record@);
                assert(repository_ok(v, i as int) || !repository_ok(v, i as int));
            }
            if uuid_version_of(record.id.value) != 4 {
                proof {
                    assert(!repository_ok(v, i as int));
                }
                return Err(broken("repository ", record.id.value, " must use UUID version 4"));
            }
            if (record.presence == CatalogPresence::Active) != record.current_git_dir.is_some() {
                proof {
                    assert(!repository_ok(v, i as int));
                }
                return Err(broken("repository ", record.id.value, " presence does not match its current locator"));
            }
            if record.current_git_dir.is_some() {
                let mut j: usize = 0;
                while j < i
                    invariant
                        j <= i < self.repositories@.len(),
                        v == self@,
                        v.repositories == self.repositories@.map_values(|r: RepositoryRecord| r@),
                        record == self.repositories@[i as int],
                        v.repositories[i as int] == record@,
                        record.current_git_dir is Some,
                        forall|a: int| 0 <= a < j ==> distinct_locators(#[trigger] v.repositories[a].current_git_dir, record@.current_git_dir),
                    decreases i - j,
                {
                    if opt_string_eq(&self.repositories[j].current_git_dir, &record.current_git_dir) {
                        proof {
                            assert(v.repositories[j as int] == self.repositories@[j as int]@);
                            assert(!distinct_locators(v.repositories[j as int].current_git_dir, v.repositories[i as int].current_git_dir));
                        }
                        return Err(broken("repository ", record.id.value, " shares its current Git directory with another repository"));
                    }
                    j = j + 1;
                }
            }
            i = i + 1;
        }
        Ok(())
    }

    fn check_worktrees(&self) -> (r: Result<(), CatalogError>)
        ensures
            r is Ok <==> worktrees_ok(self@),
            r matches Err(e) ==> e is Invariant,
    {
        let ghost v = self@;
        let mut i: usize = 0;
        while i < self.worktrees.len()
            invariant
                i <= self.worktrees@.len(),
                v == self@,
                v.worktrees == self.worktrees@.map_values(|r: WorktreeRecord| r@),
                forall|k: int| 0 <= k < i ==> #[trigger] worktree_ok(v, k),
                forall|a: int, b: int|
                    0 <= a < b < i ==> distinct_locators(
                        #[trigger] v.worktrees[a].current_path,
                        #[trigger] v.worktrees[b].current_path,
                    ),
            decreases self.worktrees@.len() - i,
        {
            let record = &self.worktrees[i];
            proof {
                assert(v.worktrees[i as int] == record@);
                assert(worktree_ok(v, i as int) || !worktree_ok(v, i as int));
            }
            if self.find_repository(record.repository_id).is_none() {
                proof {
                    assert(!worktree_ok(v, i as int));
                }
                return Err(broken("worktree ", record.id.value, " has an invalid key or repository relationship"));
            }
            if uuid_version_of(record.id.value) != 4 {
                proof {
                    assert(!worktree_ok(v, i as int));
                }
                return Err(broken("worktree ", record.id.value, " must use UUID version 4"));
            }
            if (record.presence == CatalogPresence::Active) != record.current_path.is_some() {
                proof {
                    assert(!worktree_ok(v, i as int));
                }
                return Err(broken("worktree ", record.id.value, " presence does not match its current locator"));
            }
            if record.current_path.is_some() {
                let mut j: usize = 0;
                while j < i
                    invariant
                        j <= i < self.worktrees@.len(),
                        v == self@,
                        v.worktrees == self.worktrees@.map_values(|r: WorktreeRecord| r@),
                        record == self.worktrees@[i as int],
                        v.worktrees[i as int] == record@,
                        record.current_path is Some,
                        forall|a: int| 0 <= a < j ==> distinct_locators(#[trigger] v.worktrees[a].current_path, record@.current_path),
                    decreases i - j,
                {
                    if opt_string_eq(&self.worktrees[j].current_path, &record.current_path) {
                        proof {
                            assert(v.worktrees[j as int] == self.worktrees@[j as int]@);
                            assert(!distinct_locators(v.worktrees[j as int].current_path, v.worktrees[i as int].current_path));
                        }
                        return Err(broken("worktree ", record.id.value, " shares its current path with another worktree"));
                    }
                    j = j + 1;
                }
            }
            i = i + 1;
        }
        Ok(())
    }

    fn check_projects(&self) -> (r: Result<(), CatalogError>)
        ensures
            r is Ok <==> projects_ok(self@),
            r matches Err(e) ==> (e is Identity <==> project_identity_fault(self@)) && (e is Identity || e is Invariant),
    {
        let ghost v = self@;
        let mut i: usize = 0;
        while i < self.projects.len()
            invariant
                i <= self.projects@.len(),
                v == self@,
                v.projects == self.projects@.map_values(|r: ProjectRecord| r@),
                forall|k: int| 0 <= k < i ==> #[trigger] project_ok(v, k),
            decreases self.projects@.len() - i,
        {
            let record = &self.projects[i];
            proof {
                assert(v.projects[i as int] == record@);
                assert(project_ok(v, i as int) || !project_ok(v, i as int));
            }
            match &record.origin {
                ProjectOrigin::Git { repository_id, repository_relative_root } => {
                    if self.find_repository(*repository_id).is_none() {
                        proof {
                            assert(!project_ok(v, i as int));
                        }
                        proof {
                            lemma_first_fault_unique(v, i as int);
                        }
                        return Err(broken("project ", record.id.value, " references a missing repository"));
                    }
                    match derive_project_id(*repository_id, repository_relative_root.as_str(), repository_relative_root.as_str()) {
                        Err(e) => {
                            proof {
                                assert(!project_ok(v, i as int));
                                assert(v.projects[i as int].origin == v.projects[i as int].origin);
                            }
                            return Err(CatalogError::Identity(e));
                        },
                        Ok(expected) => {
                            if expected.value != record.id.value {
                                proof {
                                    assert(!project_ok(v, i as int));
                                }
                                proof {
                                    lemma_first_fault_unique(v, i as int);
                                }
                                return Err(broken("Git project ", record.id.value, " does not match its repository and relative root"));
                            }
                        },
                    }
                },
                ProjectOrigin::NonGit => {
                    if uuid_version_of(record.id.value) != 4 {
                        proof {
                            assert(!project_ok(v, i as int));
                        }
                        proof {
                            lemma_first_fault_unique(v, i as int);
                        }
                        return Err(broken("non-Git project ", record.id.value, " must use UUID version 4"));
                    }
                },
            }
            i = i + 1;
        }
        Ok(())
    }
}

impl ProjectCatalog {
    fn check_instances(&self) -> (r: Result<(), CatalogError>)
        ensures
            r is Ok <==> instances_ok(self@),
            r matches Err(e) ==> e is Invariant,
    {
        proof {
            use_type_invariant(self);
        }
        let ghost v = self@;
        let mut i: usize = 0;
        while i < self.instances.len()
            invariant
                i <= self.instances@.len(),
                v == self@,
                v.instances == self.instances@.map_values(|r: super::records::ProjectInstanceRecord| r@),
                v.projects == self.projects@.map_values(|r: ProjectRecord| r@),
                v.worktrees == self.worktrees@.map_values(|r: WorktreeRecord| r@),
                super::tables_ordered(v),
                forall|k: int| 0 <= k < i ==> #[trigger] instance_ok(v, k),
                forall|a: int, b: int|
                    0 <= a < b < i ==> distinct_locators(
                        #[trigger] v.instances[a].current_path,
                        #[trigger] v.instances[b].current_path,
                    ) && slugs_distinct(v.instances[a], v.instances[b]),
            decreases self.instances@.len() - i,
        {
            let record = &self.instances[i];
            proof {
                assert(v.instances[i as int] == record@);
            }
            let pj = match self.find_project(record.project_id) {
                None => {
                    proof {
                        assert(!instance_ok(v, i as int));
                    }
                    return Err(broken("project instance ", record.id.value, " has an invalid key or project relationship"));
                },
                Some(pj) => pj,
            };
            if (record.presence == CatalogPresence::Active) != record.current_path.is_some() {
                proof {
                    assert(!instance_ok(v, i as int));
                }
                return Err(broken("project instance ", record.id.value, " presence does not match its current locator"));
            }
            proof {
                assert(v.projects[pj as int].id == record.project_id);
                assert forall|j: int| 0 <= j < v.projects.len() && v.projects[j].id == record.project_id implies j
                    == pj by {
                    assert(super::project_ids(v.projects)[j] == v.projects[j].id.value);
                    assert(super::project_ids(v.projects)[pj as int] == v.projects[pj as int].id.value);
                }
            }
            match (record.origin, &self.projects[pj].origin) {
                (ProjectInstanceOrigin::Git { worktree_id }, ProjectOrigin::Git { repository_id, .. }) => {
                    let wk = match self.find_worktree(worktree_id) {
                        None => {
                            proof {
                                assert(!instance_origin_ok(v, record@));
                                assert(!instance_ok(v, i as int));
                            }
                            return Err(broken("project instance ", record.id.value, " references a missing worktree"));
                        },
                        Some(wk) => wk,
                    };
                    proof {
                        assert(v.worktrees[wk as int].id == worktree_id);
                        assert forall|k: int| 0 <= k < v.worktrees.len() && v.worktrees[k].id == worktree_id implies k
                            == wk by {
                            assert(super::worktree_ids(v.worktrees)[k] == v.worktrees[k].id.value);
                            assert(super::worktree_ids(v.worktrees)[wk as int] == v.worktrees[wk as int].id.value);
                        }
                    }
                    if self.worktrees[wk].repository_id != *repository_id {
                        proof {
                            assert(!instance_origin_ok(v, record@));
                            assert(!instance_ok(v, i as int));
                        }
                        return Err(broken("project instance ", record.id.value, " crosses repository identities"));
                    }
                    let expected = derive_project_instance_id(worktree_id, record.project_id);
                    if expected.value != record.id.value {
                        proof {
                            assert(!instance_origin_ok(v, record@));
                            assert(!instance_ok(v, i as int));
                        }
                        return Err(broken("Git project instance ", record.id.value, " does not match its worktree and project"));
                    }
                    proof {
                        assert(instance_origin_ok(v, record@));
                    }
                },
                (ProjectInstanceOrigin::NonGit, ProjectOrigin::NonGit) => {
                    if uuid_version_of(record.id.value) != 4 {
                        proof {
                            assert(!instance_origin_ok(v, record@));
                            assert(!instance_ok(v, i as int));
                        }
                        return Err(broken("non-Git project instance ", record.id.value, " must use UUID version 4"));
                    }
                    proof {
                        assert(instance_origin_ok(v, record@));
                    }
                },
                _ => {
                    proof {
                        assert(!instance_origin_ok(v, record@));
                        assert(!instance_ok(v, i as int));
                    }
                    return Err(broken("project instance ", record.id.value, " mixes Git and non-Git identities"));
                },
            }
            if record.domain_slug.is_some() {
                let sanitized = match &record.domain_slug {
                    Some(slug) => super::slug::sanitize_slug_hint(slug.as_str()),
                    None => None,
                };
                if !opt_string_eq(&sanitized, &record.domain_slug) {
                    proof {
                        assert(!slug_well_formed(record@.domain_slug));
                        assert(!instance_ok(v, i as int));
                    }
                    return Err(broken("project instance ", record.id.value, " has an invalid persistent domain slug"));
                }
            }
            let mut j: usize = 0;
            while j < i
                invariant
                    j <= i < self.instances@.len(),
                    v == self@,
                    v.instances == self.instances@.map_values(|r: super::records::ProjectInstanceRecord| r@),
                    record == self.instances@[i as int],
                    forall|a: int|
                        0 <= a < j ==> distinct_locators(#[trigger] v.instances[a].current_path, record@.current_path)
                            && slugs_distinct(v.instances[a], record@),
                decreases i - j,
            {
                let other = &self.instances[j];
                proof {
                    assert(v.instances[j as int] == other@);
                }
                if record.current_path.is_some() && opt_string_eq(&other.current_path, &record.current_path) {
                    proof {
                        assert(v.instances[i as int] == record@);
                        assert(!distinct_locators(v.instances[j as int].current_path, v.instances[i as int].current_path));
                    }
                    return Err(broken("project instance ", record.id.value, " shares its current path with another instance"));
                }
                if record.domain_slug.is_some() && other.project_id == record.project_id && opt_string_eq(
                    &other.domain_slug,
                    &record.domain_slug,
                ) {
                    proof {
                        assert(v.instances[i as int] == record@);
                        assert(!slugs_distinct(v.instances[j as int], v.instances[i as int]));
                    }
                    return Err(broken("project instance ", record.id.value, " reserves a domain slug another instance holds"));
                }
                j = j + 1;
            }
            let domains = self.domain_index.domains_for_instance(record.id);
            if !same_text_sets(&record.domain_claims, &domains) {
                proof {
                    assert(!instance_ok(v, i as int));
                }
                return Err(broken("project instance ", record.id.value, " domain claims do not match the persistent domain index"));
            }
            proof {
                assert(instance_ok(v, i as int));
            }
            i = i + 1;
        }
        Ok(())
    }

    fn check_legacy_paths(&self) -> (r: Result<(), CatalogError>)
        ensures
            r is Ok <==> legacy_paths_ok(self@),
            r matches Err(e) ==> e is Invariant,
    {
        let ghost v = self@;
        let mut i: usize = 0;
        while i < self.legacy_paths.len()
            invariant
                i <= self.legacy_paths@.len(),
                v == self@,
                v.legacy_paths == self.legacy_paths@.map_values(|e: (String, ProjectInstanceId)| (e.0@, e.1)),
                v.instances == self.instances@.map_values(|r: super::records::ProjectInstanceRecord| r@),
                v.unresolved == self.unresolved_legacy@.map_values(|r: super::records::UnresolvedLegacyProject| r@),
                forall|k: int| 0 <= k < i ==> #[trigger] legacy_ok(v, k),
            decreases self.legacy_paths@.len() - i,
        {
            let path = &self.legacy_paths[i].0;
            let id = self.legacy_paths[i].1;
            if self.find_instance(id).is_none() {
                proof {
                    assert(!legacy_ok(v, i as int));
                }
                return Err(path_invariant("legacy path `", path.as_str(), "` references a missing instance"));
            }
            let mut j: usize = 0;
            while j < self.instances.len()
                invariant
                    j <= self.instances@.len(),
                    i < self.legacy_paths@.len(),
                    v == self@,
                    v.legacy_paths == self.legacy_paths@.map_values(|e: (String, ProjectInstanceId)| (e.0@, e.1)),
                    v.instances == self.instances@.map_values(|r: super::records::ProjectInstanceRecord| r@),
                    path@ == v.legacy_paths[i as int].0,
                    id == v.legacy_paths[i as int].1,
                    forall|a: int| 0 <= a < j && #[trigger] currently_at(v, a, path@) ==> v.instances[a].id == id,
                decreases self.instances@.len() - j,
            {
                let at = match &self.instances[j].current_path {
                    Some(c) => *c == *path,
                    None => false,
                };
                proof {
                    assert(v.instances[j as int] == self.instances@[j as int]@);
                }
                if at && self.instances[j].id != id {
                    proof {
                        assert(currently_at(v, j as int, path@));
                        assert(!legacy_ok(v, i as int));
                    }
                    return Err(path_invariant("legacy path `", path.as_str(), "` references an instance while another active instance claims it"));
                }
                j = j + 1;
            }
            let mut u: usize = 0;
            while u < self.unresolved_legacy.len()
                invariant
                    u <= self.unresolved_legacy@.len(),
                    i < self.legacy_paths@.len(),
                    v == self@,
                    v.legacy_paths == self.legacy_paths@.map_values(|e: (String, ProjectInstanceId)| (e.0@, e.1)),
                    v.unresolved == self.unresolved_legacy@.map_values(|r: super::records::UnresolvedLegacyProject| r@),
                    path@ == v.legacy_paths[i as int].0,
                    forall|a: int| 0 <= a < u ==> (#[trigger] v.unresolved[a]).path != path@,
                decreases self.unresolved_legacy@.len() - u,
            {
                proof {
                    assert(v.unresolved[u as int] == self.unresolved_legacy@[u as int]@);
                }
                if self.unresolved_legacy[u].path == *path {
                    proof {
                        assert(!legacy_ok(v, i as int));
                    }
                    return Err(path_invariant("legacy path `", path.as_str(), "` is both resolved and unresolved"));
                }
                u = u + 1;
            }
            proof {
                assert(legacy_ok(v, i as int));
            }
            i = i + 1;
        }
        Ok(())
    }

    fn check_unresolved(&self) -> (r: Result<(), CatalogError>)
        ensures
            r is Ok <==> unresolved_ok(self@),
            r matches Err(e) ==> e is Invariant,
    {
        let ghost v = self@;
        let mut i: usize = 0;
        while i < self.unresolved_legacy.len()
            invariant
                i <= self.unresolved_legacy@.len(),
                v == self@,
                v.instances == self.instances@.map_values(|r: super::records::ProjectInstanceRecord| r@),
                v.unresolved == self.unresolved_legacy@.map_values(|r: super::records::UnresolvedLegacyProject| r@),
                forall|a: int, b: int|
                    0 <= a < i && 0 <= b < v.instances.len() ==> !#[trigger] currently_at(v, b, (#[trigger] v.unresolved[a]).path),
            decreases self.unresolved_legacy@.len() - i,
        {
            let path = &self.unresolved_legacy[i].path;
            proof {
                assert(v.unresolved[i as int] == self.unresolved_legacy@[i as int]@);
            }
            let mut j: usize = 0;
            while j < self.instances.len()
                invariant
                    j <= self.instances@.len(),
                    i < self.unresolved_legacy@.len(),
                    v == self@,
                    v.instances == self.instances@.map_values(|r: super::records::ProjectInstanceRecord| r@),
                    v.unresolved == self.unresolved_legacy@.map_values(|r: super::records::UnresolvedLegacyProject| r@),
                    path@ == v.unresolved[i as int].path,
                    forall|b: int| 0 <= b < j ==> !#[trigger] currently_at(v, b, path@),
                    forall|a: int, b: int|
                        0 <= a < i && 0 <= b < v.instances.len() ==> !#[trigger] currently_at(v, b, (#[trigger] v.unresolved[a]).path),
                decreases self.instances@.len() - j,
            {
                proof {
                    assert(v.instances[j as int] == self.instances@[j as int]@);
                }
                let at = match &self.instances[j].current_path {
                    Some(c) => *c == *path,
                    None => false,
                };
                if at {
                    proof {
                        assert(currently_at(v, j as int, v.unresolved[i as int].path));
                    }
                    return Err(path_invariant("unresolved legacy path `", path.as_str(), "` is also claimed by an identified instance"));
                }
                j = j + 1;
            }
            i = i + 1;
        }
        Ok(())
    }

    /// Validate all keys, relationships, paths, and presence invariants.
    pub fn validate(&self) -> (r: Result<(), CatalogError>)
        ensures
            r is Ok <==> catalog_valid(self@),
            r matches Err(e) ==> validation_reports(self@, e) && validation_error(e),
    {
        if self.version != CATALOG_VERSION {
            let mut m = String::new();
            push_str(&mut m, "in-memory schema version ");
            crate::text::push_decimal(&mut m, self.version as u64);
            push_str(&mut m, " is not 4");
            return Err(CatalogError::Invariant(m));
        }
        match self.domain_index.validate() {
            Err(e) => {
                return Err(CatalogError::Domain(e));
            },
            Ok(()) => {},
        }
        match self.check_bindings() {
            Err(e) => {
                return Err(e);
            },
            Ok(()) => {},
        }
        match self.check_claims() {
            Err(e) => {
                return Err(e);
            },
            Ok(()) => {},
        }
        match self.check_repositories() {
            Err(e) => {
                return Err(e);
            },
            Ok(()) => {},
        }
        match self.check_worktrees() {
            Err(e) => {
                return Err(e);
            },
            Ok(()) => {},
        }
        match self.check_projects() {
            Err(e) => {
                return Err(e);
            },
            Ok(()) => {},
        }
        match self.check_instances() {
            Err(e) => {
                return Err(e);
            },
            Ok(()) => {},
        }
        match self.check_legacy_paths() {
            Err(e) => {
                return Err(e);
            },
            Ok(()) => {},
        }
        self.check_unresolved()
    }
}

} // verus!
