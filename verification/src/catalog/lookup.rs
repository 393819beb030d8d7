//! Catalog construction, accessors, and locator lookups.

use super::records::{
    clone_opt, CatalogPresence, InstanceView, ProjectEntry, ProjectInstanceRecord, ProjectRecord, RepositoryRecord,
    UnresolvedLegacyProject, UnresolvedView, WorktreeRecord,
};
use super::tables::{instance_index, legacy_index, locate_instance, locate_legacy, unresolved_index, lemma_unresolved_index};
use super::discovery::first_current_at;
use super::{binding_keys, tables_ordered, texts_ascending, CatalogError, CatalogView, ProjectCatalog, CATALOG_VERSION};
use crate::agent::AgentConversationKey;
use crate::availability::opt_view;
use crate::domain::{lemma_platform_index_valid, platform_map, DomainIndex, DomainTarget};
use super::validate::catalog_valid;
use crate::identity::ProjectInstanceId;
use crate::text::{compare_chars, lemma_lex_irreflexive, lemma_lex_transitive, lex_lt, str_chars};
use vstd::prelude::*;

verus! {

/// A catalog holding nothing but the platform domain fallbacks.
pub open spec fn empty_catalog(v: CatalogView, storage_path: Seq<char>) -> bool {
    &&& v.version == CATALOG_VERSION
    &&& v.repositories.len() == 0
    &&& v.worktrees.len() == 0
    &&& v.projects.len() == 0
    &&& v.instances.len() == 0
    &&& v.legacy_paths.len() == 0
    &&& v.unresolved.len() == 0
    &&& v.bindings.len() == 0
    &&& v.domain_index.exact_map() == platform_map()
    &&& v.domain_index.wildcard_map() == Map::<Seq<char>, DomainTarget>::empty()
    &&& v.storage_path == storage_path
}

/// The position of a conversation's binding.
pub open spec fn binding_index(s: Seq<(Seq<char>, ProjectInstanceId)>, key: Seq<char>) -> Option<int> {
    if exists|i: int| 0 <= i < s.len() && s[i].0 == key {
        Some(choose|i: int| 0 <= i < s.len() && s[i].0 == key)
    } else {
        None
    }
}

/// The instance a conversation is bound to.
pub open spec fn bound_instance(v: CatalogView, key: Seq<char>) -> Option<ProjectInstanceId> {
    match binding_index(v.bindings, key) {
        Some(i) => Some(v.bindings[i].1),
        None => None,
    }
}

/// The instance first in identity order currently at `path`.
pub open spec fn current_instance(v: CatalogView, path: Seq<char>) -> Option<ProjectInstanceId> {
    match first_current_at(v.instances, path) {
        Some(i) => Some(v.instances[i].id),
        None => None,
    }
}

/// The instance an alias names.
pub open spec fn aliased_instance(v: CatalogView, path: Seq<char>) -> Option<ProjectInstanceId> {
    match legacy_index(v.legacy_paths, path) {
        Some(i) => Some(v.legacy_paths[i].1),
        None => None,
    }
}

/// Whether an instance was last known at either locator.
pub open spec fn known_at(r: InstanceView, a: Seq<char>, b: Seq<char>) -> bool {
    r.last_known_path == a || r.last_known_path == b
}

/// `a` was seen later than `b`, identities breaking ties.
pub open spec fn seen_after(a: InstanceView, b: InstanceView) -> bool {
    a.last_seen > b.last_seen || (a.last_seen == b.last_seen && a.id.value > b.id.value)
}

/// Whether `i` is the latest instance last known at either locator.
pub open spec fn latest_known_at(s: Seq<InstanceView>, a: Seq<char>, b: Seq<char>, i: int) -> bool {
    0 <= i < s.len() && known_at(s[i], a, b) && forall|j: int|
        0 <= j < s.len() && j != i && #[trigger] known_at(s[j], a, b) ==> seen_after(s[i], s[j])
}

/// The latest instance last known at either locator.
pub open spec fn latest_known(s: Seq<InstanceView>, a: Seq<char>, b: Seq<char>) -> Option<ProjectInstanceId> {
    if exists|i: int| 0 <= i < s.len() && known_at(s[i], a, b) {
        Some(s[choose|i: int| #[trigger] latest_known_at(s, a, b, i)].id)
    } else {
        None
    }
}

/// The instance a path locator resolves to: the one currently at its
/// canonical form, else an alias of the canonical form or of the path as
/// given, else the latest instance last known at either.
pub open spec fn resolved_instance(v: CatalogView, path: Seq<char>, canonical: Seq<char>) -> Option<ProjectInstanceId> {
    match current_instance(v, canonical) {
        Some(id) => Some(id),
        None => match aliased_instance(v, canonical) {
            Some(id) => Some(id),
            None => match aliased_instance(v, path) {
                Some(id) => Some(id),
                None => latest_known(v.instances, canonical, path),
            },
        },
    }
}

/// The compatibility entry of an instance record.
pub open spec fn instance_entry(r: InstanceView) -> (Seq<char>, Option<Seq<char>>, bool, u64) {
    (
        match r.current_path {
            Some(p) => p,
            None => r.last_known_path,
        },
        r.display_name,
        r.pinned,
        r.last_seen,
    )
}

/// The compatibility entry of unresolved legacy evidence.
pub open spec fn legacy_entry(r: UnresolvedView) -> (Seq<char>, Option<Seq<char>>, bool, u64) {
    (
        r.path,
        r.display_name,
        r.pinned,
        match r.last_seen {
            Some(t) => t,
            None => 0,
        },
    )
}

/// An entry by its plain values.
pub open spec fn entry_view(e: ProjectEntry) -> (Seq<char>, Option<Seq<char>>, bool, u64) {
    (e.path@, opt_view(e.name), e.pinned, e.last_seen)
}

/// The entry a path locator resolves to.
pub open spec fn spec_get_project(v: CatalogView, path: Seq<char>, canonical: Seq<char>) -> Option<
    (Seq<char>, Option<Seq<char>>, bool, u64),
> {
    match resolved_instance(v, path, canonical) {
        Some(id) => match instance_index(v.instances, id) {
            Some(i) => Some(instance_entry(v.instances[i])),
            None => None,
        },
        None => match unresolved_index(v.unresolved, canonical) {
            Some(i) => Some(legacy_entry(v.unresolved[i])),
            None => match unresolved_index(v.unresolved, path) {
                Some(i) => Some(legacy_entry(v.unresolved[i])),
                None => None,
            },
        },
    }
}

impl ProjectCatalog {
    /// An empty catalog persisted at `storage_path`.
    pub fn with_path(storage_path: String) -> (r: Self)
        ensures
            empty_catalog(r@, storage_path@),
            catalog_valid(r@),
    {
        let r = ProjectCatalog {
            version: CATALOG_VERSION,
            repositories: Vec::new(),
            worktrees: Vec::new(),
            projects: Vec::new(),
            instances: Vec::new(),
            legacy_paths: Vec::new(),
            unresolved_legacy: Vec::new(),
            domain_index: DomainIndex::new(),
            agent_bindings: Vec::new(),
            storage_path,
        };
        proof {
            assert(r@.repositories =~= Seq::empty());
            assert(r@.worktrees =~= Seq::empty());
            assert(r@.projects =~= Seq::empty());
            assert(r@.instances =~= Seq::empty());
            assert(r@.legacy_paths =~= Seq::empty());
            assert(r@.unresolved =~= Seq::empty());
            assert(r@.bindings =~= Seq::empty());
            lemma_platform_index_valid();
        }
        r
    }

    /// The schema version of this in-memory image.
    pub fn version(&self) -> (r: u32)
        ensures
            r == self@.version,
    {
        self.version
    }

    /// The persistence path owned by this in-memory catalog image.
    pub fn storage_path(&self) -> (r: &String)
        ensures
            r@ == self@.storage_path,
    {
        &self.storage_path
    }

    /// Rebind an image to the live writer's persistence path.
    pub fn set_storage_path(&mut self, storage_path: String)
        ensures
            final(self)@ == (CatalogView { storage_path: storage_path@, ..old(self)@ }),
    {
        proof {
            use_type_invariant(&*self);
        }
        self.storage_path = storage_path;
    }

    /// The complete persistent exact-domain ownership index.
    pub fn domain_index(&self) -> (r: &DomainIndex)
        ensures
            *r == self@.domain_index,
    {
        &self.domain_index
    }

    /// Repository records in identity order.
    pub fn repositories(&self) -> (r: &Vec<RepositoryRecord>)
        ensures
            r@.map_values(|x: RepositoryRecord| x@) == self@.repositories,
    {
        &self.repositories
    }

    /// Worktree records in identity order.
    pub fn worktrees(&self) -> (r: &Vec<WorktreeRecord>)
        ensures
            r@.map_values(|x: WorktreeRecord| x@) == self@.worktrees,
    {
        &self.worktrees
    }

    /// Project records in identity order.
    pub fn projects(&self) -> (r: &Vec<ProjectRecord>)
        ensures
            r@.map_values(|x: ProjectRecord| x@) == self@.projects,
    {
        &self.projects
    }

    /// Project-instance records in identity order.
    pub fn instances(&self) -> (r: &Vec<ProjectInstanceRecord>)
        ensures
            r@.map_values(|x: ProjectInstanceRecord| x@) == self@.instances,
    {
        &self.instances
    }

    /// Historical path aliases in path order.
    pub fn legacy_paths(&self) -> (r: &Vec<(String, ProjectInstanceId)>)
        ensures
            r@.map_values(|e: (String, ProjectInstanceId)| (e.0@, e.1)) == self@.legacy_paths,
    {
        &self.legacy_paths
    }

    /// Every agent conversation binding, in key order.
    pub fn agent_bindings(&self) -> (r: &Vec<(AgentConversationKey, ProjectInstanceId)>)
        ensures
            r@.map_values(|e: (AgentConversationKey, ProjectInstanceId)| (e.0@, e.1)) == self@.bindings,
    {
        &self.agent_bindings
    }

    /// Unresolved legacy evidence in path order.
    pub fn unresolved_legacy(&self) -> (r: &Vec<UnresolvedLegacyProject>)
        ensures
            r@.map_values(|x: UnresolvedLegacyProject| x@) == self@.unresolved,
    {
        &self.unresolved_legacy
    }

    fn locate_binding(&self, key: &AgentConversationKey) -> (r: Option<usize>)
        ensures
            r matches Some(i) ==> i < self@.bindings.len() && binding_index(self@.bindings, key@) == Some(i as int),
            r is None ==> binding_index(self@.bindings, key@) is None,
    {
        proof {
            use_type_invariant(self);
        }
        let ghost s = self@.bindings;
        let kc = str_chars(key.as_opaque_str());
        let mut i: usize = 0;
        while i < self.agent_bindings.len()
            invariant
                i <= self.agent_bindings@.len(),
                s == self@.bindings,
                s == self.agent_bindings@.map_values(|e: (AgentConversationKey, ProjectInstanceId)| (e.0@, e.1)),
                texts_ascending(binding_keys(s)),
                kc@ == key@,
                forall|j: int| 0 <= j < i ==> s[j].0 != key@,
            decreases self.agent_bindings@.len() - i,
        {
            let bc = str_chars(self.agent_bindings[i].0.as_opaque_str());
            if compare_chars(bc.as_slice(), kc.as_slice()) == 0 {
                proof {
                    assert(s[i as int].0 == key@);
                    let j = choose|j: int| 0 <= j < s.len() && s[j].0 == key@;
                    assert(binding_keys(s)[i as int] == s[i as int].0);
                    assert(binding_keys(s)[j] == s[j].0);
                    lemma_lex_irreflexive(key@);
                }
                return Some(i);
            }
            i = i + 1;
        }
        None
    }

    /// The durable project-instance binding of one opaque conversation.
    pub fn agent_binding(&self, conversation: &AgentConversationKey) -> (r: Option<ProjectInstanceId>)
        ensures
            r == bound_instance(self@, conversation@),
    {
        match self.locate_binding(conversation) {
            Some(i) => Some(self.agent_bindings[i].1),
            None => None,
        }
    }

    /// The instance first in identity order currently at `path`.
    pub fn current_instance_at(&self, path: &String) -> (r: Option<ProjectInstanceId>)
        ensures
            r == current_instance(self@, path@),
    {
        let ghost s = self@.instances;
        let mut i: usize = 0;
        while i < self.instances.len()
            invariant
                i <= self.instances@.len(),
                s == self@.instances,
                s == self.instances@.map_values(|y: ProjectInstanceRecord| y@),
                forall|j: int| 0 <= j < i ==> s[j].current_path != Some(path@),
            decreases self.instances@.len() - i,
        {
            let hit = match &self.instances[i].current_path {
                Some(c) => *c == *path,
                None => false,
            };
            proof {
                assert(s[i as int] == self.instances@[i as int]@);
            }
            if hit {
                proof {
                    assert(super::discovery::first_at(s, path@, i as int));
                    let k = choose|k: int| #[trigger] super::discovery::first_at(s, path@, k);
                    assert(super::discovery::first_at(s, path@, k));
                    if k < i {
                        assert(s[k].current_path != Some(path@));
                    }
                    if k > i {
                        assert(s[i as int].current_path != Some(path@));
                    }
                }
                return Some(self.instances[i].id);
            }
            i = i + 1;
        }
        None
    }

    fn alias_of(&self, path: &String) -> (r: Option<ProjectInstanceId>)
        ensures
            r == aliased_instance(self@, path@),
    {
        proof {
            use_type_invariant(self);
        }
        match locate_legacy(&self.legacy_paths, path) {
            Some(i) => {
                proof {
                    assert(self@.legacy_paths[i as int] == (self.legacy_paths@[i as int].0@, self.legacy_paths@[i as int].1));
                }
                Some(self.legacy_paths[i].1)
            },
            None => None,
        }
    }

    fn latest_known_instance(&self, a: &String, b: &String) -> (r: Option<ProjectInstanceId>)
        ensures
            r == latest_known(self@.instances, a@, b@),
    {
        proof {
            use_type_invariant(self);
        }
        let ghost s = self@.instances;
        let mut best: Option<usize> = None;
        let mut i: usize = 0;
        while i < self.instances.len()
            invariant
                i <= self.instances@.len(),
                s == self@.instances,
                s == self.instances@.map_values(|y: ProjectInstanceRecord| y@),
                super::ascending(super::instance_ids(s)),
                best is None ==> forall|j: int| 0 <= j < i ==> !known_at(s[j], a@, b@),
                best matches Some(c) ==> c < i && known_at(s[c as int], a@, b@) && forall|j: int|
                    0 <= j < i && j != c && #[trigger] known_at(s[j], a@, b@) ==> seen_after(s[c as int], s[j]),
            decreases self.instances@.len() - i,
        {
            let rec = &self.instances[i];
            proof {
                assert(s[i as int] == rec@);
            }
            if rec.last_known_path == *a || rec.last_known_path == *b {
                match best {
                    None => {
                        best = Some(i);
                    },
                    Some(c) => {
                        let cur = &self.instances[c];
                        proof {
                            assert(s[c as int] == cur@);
                            assert(super::instance_ids(s)[c as int] == s[c as int].id.value);
                            assert(super::instance_ids(s)[i as int] == s[i as int].id.value);
                        }
                        if rec.last_seen > cur.last_seen || (rec.last_seen == cur.last_seen && rec.id.value > cur.id.value) {
                            proof {
                                assert forall|j: int| 0 <= j <= i && j != i && #[trigger] known_at(s[j], a@, b@) implies seen_after(
                                    s[i as int],
                                    s[j],
                                ) by {
                                    if j != c {
                                        assert(seen_after(s[c as int], s[j]));
                                    }
                                }
                            }
                            best = Some(i);
                        }
                    },
                }
            }
            i = i + 1;
        }
        match best {
            None => None,
            Some(c) => {
                proof {
                    assert(latest_known_at(s, a@, b@, c as int));
                    let k = choose|k: int| #[trigger] latest_known_at(s, a@, b@, k);
                    assert(latest_known_at(s, a@, b@, k));
                    if k != c {
                        assert(seen_after(s[c as int], s[k]));
                        assert(seen_after(s[k], s[c as int]));
                    }
                    assert(s[c as int] == self.instances@[c as int]@);
                }
                Some(self.instances[c].id)
            },
        }
    }

    /// Resolve a current or historical path locator to its catalogued
    /// instance; `canonical` is the locator's normalized form, or the
    /// locator itself when it cannot be normalized.
    pub fn project_instance_for_path(&self, path: &String, canonical: &String) -> (r: Option<ProjectInstanceId>)
        ensures
            r == resolved_instance(self@, path@, canonical@),
    {
        match self.current_instance_at(canonical) {
            Some(id) => {
                return Some(id);
            },
            None => {},
        }
        match self.alias_of(canonical) {
            Some(id) => {
                return Some(id);
            },
            None => {},
        }
        match self.alias_of(path) {
            Some(id) => {
                return Some(id);
            },
            None => {},
        }
        self.latest_known_instance(canonical, path)
    }

    fn entry_for_instance(&self, instance_id: ProjectInstanceId) -> (r: Option<ProjectEntry>)
        ensures
            match instance_index(self@.instances, instance_id) {
                Some(i) => r matches Some(e) && entry_view(e) == instance_entry(self@.instances[i]),
                None => r is None,
            },
    {
        proof {
            use_type_invariant(self);
        }
        match locate_instance(&self.instances, instance_id) {
            Some(i) => {
                let record = &self.instances[i];
                proof {
                    assert(self@.instances[i as int] == record@);
                }
                let path = match &record.current_path {
                    Some(p) => p.clone(),
                    None => record.last_known_path.clone(),
                };
                Some(
                    ProjectEntry {
                        path,
                        name: clone_opt(&record.display_name),
                        pinned: record.pinned,
                        last_seen: record.last_seen,
                    },
                )
            },
            None => None,
        }
    }

    pub(crate) fn locate_unresolved(&self, path: &String) -> (r: Option<usize>)
        ensures
            r matches Some(i) ==> i < self@.unresolved.len() && unresolved_index(self@.unresolved, path@) == Some(i as int),
            r is None ==> unresolved_index(self@.unresolved, path@) is None,
    {
        proof {
            use_type_invariant(self);
        }
        let ghost s = self@.unresolved;
        let mut i: usize = 0;
        while i < self.unresolved_legacy.len()
            invariant
                i <= self.unresolved_legacy@.len(),
                s == self@.unresolved,
                s == self.unresolved_legacy@.map_values(|r: UnresolvedLegacyProject| r@),
                texts_ascending(super::unresolved_keys(s)),
                forall|j: int| 0 <= j < i ==> s[j].path != path@,
            decreases self.unresolved_legacy@.len() - i,
        {
            if self.unresolved_legacy[i].path == *path {
                proof {
                    assert(s[i as int].path == path@);
                    lemma_unresolved_index(s, i as int);
                }
                return Some(i);
            }
            i = i + 1;
        }
        None
    }

    pub(crate) fn unresolved_entry(&self, i: usize) -> (r: ProjectEntry)
        requires
            i < self@.unresolved.len(),
        ensures
            entry_view(r) == legacy_entry(self@.unresolved[i as int]),
    {
        let record = &self.unresolved_legacy[i];
        proof {
            assert(self@.unresolved[i as int] == record@);
        }
        ProjectEntry {
            path: record.path.clone(),
            name: clone_opt(&record.display_name),
            pinned: record.pinned,
            last_seen: match record.last_seen {
                Some(t) => t,
                None => 0,
            },
        }
    }

    /// One compatibility entry for a path locator or historical alias.
    pub fn get_project(&self, path: &String, canonical: &String) -> (r: Option<ProjectEntry>)
        ensures
            match spec_get_project(self@, path@, canonical@) {
                Some(e) => r matches Some(x) && entry_view(x) == e,
                None => r is None,
            },
    {
        match self.project_instance_for_path(path, canonical) {
            Some(id) => {
                return self.entry_for_instance(id);
            },
            None => {},
        }
        match self.locate_unresolved(canonical) {
            Some(i) => {
                return Some(self.unresolved_entry(i));
            },
            None => {},
        }
        match self.locate_unresolved(path) {
            Some(i) => Some(self.unresolved_entry(i)),
            None => None,
        }
    }
}

} // verus!
