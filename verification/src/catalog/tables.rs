//! Ordered record tables: lookup, insertion, and replacement by identity.

use super::records::{
    CatalogPresence, InstanceView, ProjectInstanceRecord, ProjectRecord, ProjectView, RepositoryRecord, RepositoryView, UnresolvedLegacyProject,
    UnresolvedView, WorktreeRecord, WorktreeView,
};
use super::{ascending, instance_ids, legacy_keys, project_ids, repository_ids, texts_ascending, unresolved_keys, worktree_ids};
use crate::identity::{ProjectId, ProjectInstanceId, RepositoryId, WorktreeId};
use crate::text::{compare_chars, lex_lt, lemma_lex_asymmetric, lemma_lex_irreflexive, lemma_lex_transitive, str_chars};
use vstd::prelude::*;

verus! {

/// Everything before `p` is below `k` and everything from `p` above it.
pub open spec fn splits_ids(ids: Seq<u128>, k: u128, p: int) -> bool {
    0 <= p <= ids.len() && (forall|i: int| 0 <= i < p ==> ids[i] < k) && (forall|i: int| p <= i < ids.len() ==> k < ids[i])
}

/// Where an identity belongs in an ascending list of identities.
pub open spec fn id_position(ids: Seq<u128>, k: u128) -> int {
    choose|p: int| #[trigger] splits_ids(ids, k, p)
}

pub proof fn lemma_id_position(ids: Seq<u128>, k: u128, p: int)
    requires
        0 <= p <= ids.len(),
        forall|i: int| 0 <= i < p ==> ids[i] < k,
        forall|i: int| p <= i < ids.len() ==> k < ids[i],
    ensures
        id_position(ids, k) == p,
        ascending(ids) ==> ascending(ids.insert(p, k)),
{
    assert(splits_ids(ids, k, p));
    let q = id_position(ids, k);
    assert(splits_ids(ids, k, q));
    if q < p {
        assert(ids[q] < k && k < ids[q]);
    }
    if p < q {
        assert(ids[p] < k && k < ids[p]);
    }
    if ascending(ids) {
        let t = ids.insert(p, k);
        assert forall|i: int, j: int| 0 <= i < j < t.len() implies t[i] < t[j] by {
            if j < p {
                assert(t[i] == ids[i] && t[j] == ids[j]);
            } else if j == p {
                assert(t[i] == ids[i]);
            } else if i < p {
                assert(t[i] == ids[i] && t[j] == ids[j - 1]);
            } else if i == p {
                assert(t[j] == ids[j - 1]);
            } else {
                assert(t[i] == ids[i - 1] && t[j] == ids[j - 1]);
            }
        }
    }
}

/// Everything before `p` sorts below `t` and everything from `p` above it.
pub open spec fn splits_texts(keys: Seq<Seq<char>>, t: Seq<char>, p: int) -> bool {
    0 <= p <= keys.len() && (forall|i: int| 0 <= i < p ==> lex_lt(keys[i], t)) && (forall|i: int|
        p <= i < keys.len() ==> lex_lt(t, keys[i]))
}

/// Where a text belongs in an ascending list of texts.
pub open spec fn text_position(keys: Seq<Seq<char>>, t: Seq<char>) -> int {
    choose|p: int| #[trigger] splits_texts(keys, t, p)
}

pub proof fn lemma_text_position(keys: Seq<Seq<char>>, t: Seq<char>, p: int)
    requires
        0 <= p <= keys.len(),
        forall|i: int| 0 <= i < p ==> lex_lt(keys[i], t),
        forall|i: int| p <= i < keys.len() ==> lex_lt(t, keys[i]),
    ensures
        text_position(keys, t) == p,
        texts_ascending(keys) ==> texts_ascending(keys.insert(p, t)),
{
    assert(splits_texts(keys, t, p));
    let q = text_position(keys, t);
    assert(splits_texts(keys, t, q));
    if q < p {
        lemma_lex_asymmetric(keys[q], t);
    }
    if p < q {
        lemma_lex_asymmetric(keys[p], t);
    }
    if texts_ascending(keys) {
        let s = keys.insert(p, t);
        assert forall|i: int, j: int| 0 <= i < j < s.len() implies lex_lt(s[i], s[j]) by {
            if j < p {
                assert(s[i] == keys[i] && s[j] == keys[j]);
            } else if j == p {
                assert(s[i] == keys[i]);
            } else if i < p {
                assert(s[i] == keys[i] && s[j] == keys[j - 1]);
            } else if i == p {
                assert(s[j] == keys[j - 1]);
            } else {
                assert(s[i] == keys[i - 1] && s[j] == keys[j - 1]);
            }
        }
    }
}

/// Removing an entry keeps a list ascending.
pub proof fn lemma_texts_remove(keys: Seq<Seq<char>>, i: int)
    requires
        texts_ascending(keys),
        0 <= i < keys.len(),
    ensures
        texts_ascending(keys.remove(i)),
{
    let s = keys.remove(i);
    assert forall|a: int, b: int| 0 <= a < b < s.len() implies lex_lt(s[a], s[b]) by {
        let a2 = if a < i { a } else { a + 1 };
        let b2 = if b < i { b } else { b + 1 };
        assert(s[a] == keys[a2] && s[b] == keys[b2]);
    }
}

/// Removing an entry keeps a list ascending.
pub proof fn lemma_ids_remove(ids: Seq<u128>, i: int)
    requires
        ascending(ids),
        0 <= i < ids.len(),
    ensures
        ascending(ids.remove(i)),
{
    let s = ids.remove(i);
    assert forall|a: int, b: int| 0 <= a < b < s.len() implies s[a] < s[b] by {
        let a2 = if a < i { a } else { a + 1 };
        let b2 = if b < i { b } else { b + 1 };
        assert(s[a] == ids[a2] && s[b] == ids[b2]);
    }
}

/// The position of a repository in its table.
pub open spec fn repository_index(s: Seq<RepositoryView>, id: RepositoryId) -> Option<int> {
    if exists|i: int| 0 <= i < s.len() && s[i].id == id {
        Some(choose|i: int| 0 <= i < s.len() && s[i].id == id)
    } else {
        None
    }
}

/// The repository table with `x` inserted, or replacing the record of its identity.
pub open spec fn upsert_repository(s: Seq<RepositoryView>, x: RepositoryView) -> Seq<RepositoryView> {
    match repository_index(s, x.id) {
        Some(i) => s.update(i, x),
        None => s.insert(id_position(repository_ids(s), x.id.value), x),
    }
}

/// Identities are unique in an ordered table.
pub proof fn lemma_repository_index(s: Seq<RepositoryView>, i: int)
    requires
        ascending(repository_ids(s)),
        0 <= i < s.len(),
    ensures
        repository_index(s, s[i].id) == Some(i),
{
    let j = choose|j: int| 0 <= j < s.len() && s[j].id == s[i].id;
    assert(repository_ids(s)[i] == s[i].id.value);
    assert(repository_ids(s)[j] == s[j].id.value);
}

pub(crate) fn clone_repositories(v: &Vec<RepositoryRecord>) -> (r: Vec<RepositoryRecord>)
    ensures
        r@.map_values(|x: RepositoryRecord| x@) == v@.map_values(|x: RepositoryRecord| x@),
{
    let mut r: Vec<RepositoryRecord> = Vec::new();
    let mut i: usize = 0;
    while i < v.len()
        invariant
            i <= v@.len(),
            r@.len() == i,
            forall|j: int| 0 <= j < i ==> r@[j]@ == v@[j]@,
        decreases v@.len() - i,
    {
        let c = v[i].clone();
        r.push(c);
        i = i + 1;
    }
    assert(r@.map_values(|x: RepositoryRecord| x@) =~= v@.map_values(|x: RepositoryRecord| x@));
    r
}

/// Insert a repository or replace the record of its identity, keeping the
/// table ordered.
pub(crate) fn put_repository(v: &mut Vec<RepositoryRecord>, x: RepositoryRecord)
    requires
        ascending(repository_ids(old(v)@.map_values(|y: RepositoryRecord| y@))),
    ensures
        final(v)@.map_values(|y: RepositoryRecord| y@) == upsert_repository(old(v)@.map_values(|y: RepositoryRecord| y@), x@),
        ascending(repository_ids(final(v)@.map_values(|y: RepositoryRecord| y@))),
{
    let ghost s = v@.map_values(|y: RepositoryRecord| y@);
    let ghost xv = x@;
    let k = x.id.value;
    let mut i: usize = 0;
    while i < v.len()
        invariant
            i <= v@.len(),
            s == v@.map_values(|y: RepositoryRecord| y@),
            s == old(v)@.map_values(|y: RepositoryRecord| y@),
            xv == x@,
            k == x.id.value,
            ascending(repository_ids(s)),
            forall|j: int| 0 <= j < i ==> repository_ids(s)[j] < k,
        decreases v@.len() - i,
    {
        assert(repository_ids(s)[i as int] == s[i as int].id.value);
        if v[i].id.value == k {
            proof {
                lemma_repository_index(s, i as int);
                assert(s[i as int].id == x.id);
                assert(repository_index(s, xv.id) == Some(i as int));
                assert(upsert_repository(s, xv) == s.update(i as int, xv));
            }
            v.set(i, x);
            proof {
                assert(v@.map_values(|y: RepositoryRecord| y@) =~= s.update(i as int, xv));
                assert(repository_ids(v@.map_values(|y: RepositoryRecord| y@)) =~= repository_ids(s));
            }
            return;
        }
        if k < v[i].id.value {
            proof {
                assert forall|j: int| i <= j < s.len() implies k < repository_ids(s)[j] by {
                    assert(repository_ids(s)[i as int] <= repository_ids(s)[j]);
                }
                lemma_id_position(repository_ids(s), k, i as int);
                assert forall|j: int| 0 <= j < s.len() implies s[j].id != x.id by {
                    assert(repository_ids(s)[j] == s[j].id.value);
                }
                assert(repository_index(s, xv.id) is None);
                assert(upsert_repository(s, xv) == s.insert(i as int, xv));
            }
            v.insert(i, x);
            proof {
                assert(v@.map_values(|y: RepositoryRecord| y@) =~= s.insert(i as int, xv));
                assert(repository_ids(v@.map_values(|y: RepositoryRecord| y@)) =~= repository_ids(s).insert(i as int, k));
            }
            return;
        }
        i = i + 1;
    }
    proof {
        lemma_id_position(repository_ids(s), k, s.len() as int);
        assert forall|j: int| 0 <= j < s.len() implies s[j].id != x.id by {
            assert(repository_ids(s)[j] == s[j].id.value);
        }
        assert(repository_index(s, xv.id) is None);
    }
    v.push(x);
    proof {
        assert(v@.map_values(|y: RepositoryRecord| y@) =~= s.insert(s.len() as int, xv));
        assert(repository_ids(v@.map_values(|y: RepositoryRecord| y@)) =~= repository_ids(s).insert(s.len() as int, k));
    }
}

/// Find a repository by identity.
pub(crate) fn locate_repository(v: &Vec<RepositoryRecord>, id: RepositoryId) -> (r: Option<usize>)
    requires
        ascending(repository_ids(v@.map_values(|y: RepositoryRecord| y@))),
    ensures
        r matches Some(i) ==> i < v@.len() && repository_index(v@.map_values(|y: RepositoryRecord| y@), id) == Some(i as int),
        r is None ==> repository_index(v@.map_values(|y: RepositoryRecord| y@), id) is None,
{
    let ghost s = v@.map_values(|y: RepositoryRecord| y@);
    let mut i: usize = 0;
    while i < v.len()
        invariant
            i <= v@.len(),
            s == v@.map_values(|y: RepositoryRecord| y@),
            ascending(repository_ids(s)),
            forall|j: int| 0 <= j < i ==> s[j].id != id,
        decreases v@.len() - i,
    {
        if v[i].id == id {
            proof {
                assert(s[i as int].id == id);
                lemma_repository_index(s, i as int);
            }
            return Some(i);
        }
        i = i + 1;
    }
    None
}

/// The position of a worktree in its table.
pub open spec fn worktree_index(s: Seq<WorktreeView>, id: WorktreeId) -> Option<int> {
    if exists|i: int| 0 <= i < s.len() && s[i].id == id {
        Some(choose|i: int| 0 <= i < s.len() && s[i].id == id)
    } else {
        None
    }
}

/// The worktree table with `x` inserted, or replacing the record of its identity.
pub open spec fn upsert_worktree(s: Seq<WorktreeView>, x: WorktreeView) -> Seq<WorktreeView> {
    match worktree_index(s, x.id) {
        Some(i) => s.update(i, x),
        None => s.insert(id_position(worktree_ids(s), x.id.value), x),
    }
}

/// Identities are unique in an ordered table.
pub proof fn lemma_worktree_index(s: Seq<WorktreeView>, i: int)
    requires
        ascending(worktree_ids(s)),
        0 <= i < s.len(),
    ensures
        worktree_index(s, s[i].id) == Some(i),
{
    let j = choose|j: int| 0 <= j < s.len() && s[j].id == s[i].id;
    assert(worktree_ids(s)[i] == s[i].id.value);
    assert(worktree_ids(s)[j] == s[j].id.value);
}

pub(crate) fn clone_worktrees(v: &Vec<WorktreeRecord>) -> (r: Vec<WorktreeRecord>)
    ensures
        r@.map_values(|x: WorktreeRecord| x@) == v@.map_values(|x: WorktreeRecord| x@),
{
    let mut r: Vec<WorktreeRecord> = Vec::new();
    let mut i: usize = 0;
    while i < v.len()
        invariant
            i <= v@.len(),
            r@.len() == i,
            forall|j: int| 0 <= j < i ==> r@[j]@ == v@[j]@,
        decreases v@.len() - i,
    {
        let c = v[i].clone();
        r.push(c);
        i = i + 1;
    }
    assert(r@.map_values(|x: WorktreeRecord| x@) =~= v@.map_values(|x: WorktreeRecord| x@));
    r
}

/// Insert a worktree or replace the record of its identity, keeping the
/// table ordered.
pub(crate) fn put_worktree(v: &mut Vec<WorktreeRecord>, x: WorktreeRecord)
    requires
        ascending(worktree_ids(old(v)@.map_values(|y: WorktreeRecord| y@))),
    ensures
        final(v)@.map_values(|y: WorktreeRecord| y@) == upsert_worktree(old(v)@.map_values(|y: WorktreeRecord| y@), x@),
        ascending(worktree_ids(final(v)@.map_values(|y: WorktreeRecord| y@))),
{
    let ghost s = v@.map_values(|y: WorktreeRecord| y@);
    let ghost xv = x@;
    let k = x.id.value;
    let mut i: usize = 0;
    while i < v.len()
        invariant
            i <= v@.len(),
            s == v@.map_values(|y: WorktreeRecord| y@),
            s == old(v)@.map_values(|y: WorktreeRecord| y@),
            xv == x@,
            k == x.id.value,
            ascending(worktree_ids(s)),
            forall|j: int| 0 <= j < i ==> worktree_ids(s)[j] < k,
        decreases v@.len() - i,
    {
        assert(worktree_ids(s)[i as int] == s[i as int].id.value);
        if v[i].id.value == k {
            proof {
                lemma_worktree_index(s, i as int);
                assert(s[i as int].id == x.id);
                assert(worktree_index(s, xv.id) == Some(i as int));
                assert(upsert_worktree(s, xv) == s.update(i as int, xv));
            }
            v.set(i, x);
            proof {
                assert(v@.map_values(|y: WorktreeRecord| y@) =~= s.update(i as int, xv));
                assert(worktree_ids(v@.map_values(|y: WorktreeRecord| y@)) =~= worktree_ids(s));
            }
            return;
        }
        if k < v[i].id.value {
            proof {
                assert forall|j: int| i <= j < s.len() implies k < worktree_ids(s)[j] by {
                    assert(worktree_ids(s)[i as int] <= worktree_ids(s)[j]);
                }
                lemma_id_position(worktree_ids(s), k, i as int);
                assert forall|j: int| 0 <= j < s.len() implies s[j].id != x.id by {
                    assert(worktree_ids(s)[j] == s[j].id.value);
                }
                assert(worktree_index(s, xv.id) is None);
                assert(upsert_worktree(s, xv) == s.insert(i as int, xv));
            }
            v.insert(i, x);
            proof {
                assert(v@.map_values(|y: WorktreeRecord| y@) =~= s.insert(i as int, xv));
                assert(worktree_ids(v@.map_values(|y: WorktreeRecord| y@)) =~= worktree_ids(s).insert(i as int, k));
            }
            return;
        }
        i = i + 1;
    }
    proof {
        lemma_id_position(worktree_ids(s), k, s.len() as int);
        assert forall|j: int| 0 <= j < s.len() implies s[j].id != x.id by {
            assert(worktree_ids(s)[j] == s[j].id.value);
        }
        assert(worktree_index(s, xv.id) is None);
    }
    v.push(x);
    proof {
        assert(v@.map_values(|y: WorktreeRecord| y@) =~= s.insert(s.len() as int, xv));
        assert(worktree_ids(v@.map_values(|y: WorktreeRecord| y@)) =~= worktree_ids(s).insert(s.len() as int, k));
    }
}

/// Find a worktree by identity.
pub(crate) fn locate_worktree(v: &Vec<WorktreeRecord>, id: WorktreeId) -> (r: Option<usize>)
    requires
        ascending(worktree_ids(v@.map_values(|y: WorktreeRecord| y@))),
    ensures
        r matches Some(i) ==> i < v@.len() && worktree_index(v@.map_values(|y: WorktreeRecord| y@), id) == Some(i as int),
        r is None ==> worktree_index(v@.map_values(|y: WorktreeRecord| y@), id) is None,
{
    let ghost s = v@.map_values(|y: WorktreeRecord| y@);
    let mut i: usize = 0;
    while i < v.len()
        invariant
            i <= v@.len(),
            s == v@.map_values(|y: WorktreeRecord| y@),
            ascending(worktree_ids(s)),
            forall|j: int| 0 <= j < i ==> s[j].id != id,
        decreases v@.len() - i,
    {
        if v[i].id == id {
            proof {
                assert(s[i as int].id == id);
                lemma_worktree_index(s, i as int);
            }
            return Some(i);
        }
        i = i + 1;
    }
    None
}

/// The position of a project in its table.
pub open spec fn project_index(s: Seq<ProjectView>, id: ProjectId) -> Option<int> {
    if exists|i: int| 0 <= i < s.len() && s[i].id == id {
        Some(choose|i: int| 0 <= i < s.len() && s[i].id == id)
    } else {
        None
    }
}

/// The project table with `x` inserted, or replacing the record of its identity.
pub open spec fn upsert_project(s: Seq<ProjectView>, x: ProjectView) -> Seq<ProjectView> {
    match project_index(s, x.id) {
        Some(i) => s.update(i, x),
        None => s.insert(id_position(project_ids(s), x.id.value), x),
    }
}

/// Identities are unique in an ordered table.
pub proof fn lemma_project_index(s: Seq<ProjectView>, i: int)
    requires
        ascending(project_ids(s)),
        0 <= i < s.len(),
    ensures
        project_index(s, s[i].id) == Some(i),
{
    let j = choose|j: int| 0 <= j < s.len() && s[j].id == s[i].id;
    assert(project_ids(s)[i] == s[i].id.value);
    assert(project_ids(s)[j] == s[j].id.value);
}

pub(crate) fn clone_projects(v: &Vec<ProjectRecord>) -> (r: Vec<ProjectRecord>)
    ensures
        r@.map_values(|x: ProjectRecord| x@) == v@.map_values(|x: ProjectRecord| x@),
{
    let mut r: Vec<ProjectRecord> = Vec::new();
    let mut i: usize = 0;
    while i < v.len()
        invariant
            i <= v@.len(),
            r@.len() == i,
            forall|j: int| 0 <= j < i ==> r@[j]@ == v@[j]@,
        decreases v@.len() - i,
    {
        let c = v[i].clone();
        r.push(c);
        i = i + 1;
    }
    assert(r@.map_values(|x: ProjectRecord| x@) =~= v@.map_values(|x: ProjectRecord| x@));
    r
}

/// Insert a project or replace the record of its identity, keeping the
/// table ordered.
pub(crate) fn put_project(v: &mut Vec<ProjectRecord>, x: ProjectRecord)
    requires
        ascending(project_ids(old(v)@.map_values(|y: ProjectRecord| y@))),
    ensures
        final(v)@.map_values(|y: ProjectRecord| y@) == upsert_project(old(v)@.map_values(|y: ProjectRecord| y@), x@),
        ascending(project_ids(final(v)@.map_values(|y: ProjectRecord| y@))),
{
    let ghost s = v@.map_values(|y: ProjectRecord| y@);
    let ghost xv = x@;
    let k = x.id.value;
    let mut i: usize = 0;
    while i < v.len()
        invariant
            i <= v@.len(),
            s == v@.map_values(|y: ProjectRecord| y@),
            s == old(v)@.map_values(|y: ProjectRecord| y@),
            xv == x@,
            k == x.id.value,
            ascending(project_ids(s)),
            forall|j: int| 0 <= j < i ==> project_ids(s)[j] < k,
        decreases v@.len() - i,
    {
        assert(project_ids(s)[i as int] == s[i as int].id.value);
        if v[i].id.value == k {
            proof {
                lemma_project_index(s, i as int);
                assert(s[i as int].id == x.id);
                assert(project_index(s, xv.id) == Some(i as int));
                assert(upsert_project(s, xv) == s.update(i as int, xv));
            }
            v.set(i, x);
            proof {
                assert(v@.map_values(|y: ProjectRecord| y@) =~= s.update(i as int, xv));
                assert(project_ids(v@.map_values(|y: ProjectRecord| y@)) =~= project_ids(s));
            }
            return;
        }
        if k < v[i].id.value {
            proof {
                assert forall|j: int| i <= j < s.len() implies k < project_ids(s)[j] by {
                    assert(project_ids(s)[i as int] <= project_ids(s)[j]);
                }
                lemma_id_position(project_ids(s), k, i as int);
                assert forall|j: int| 0 <= j < s.len() implies s[j].id != x.id by {
                    assert(project_ids(s)[j] == s[j].id.value);
                }
                assert(project_index(s, xv.id) is None);
                assert(upsert_project(s, xv) == s.insert(i as int, xv));
            }
            v.insert(i, x);
            proof {
                assert(v@.map_values(|y: ProjectRecord| y@) =~= s.insert(i as int, xv));
                assert(project_ids(v@.map_values(|y: ProjectRecord| y@)) =~= project_ids(s).insert(i as int, k));
            }
            return;
        }
        i = i + 1;
    }
    proof {
        lemma_id_position(project_ids(s), k, s.len() as int);
        assert forall|j: int| 0 <= j < s.len() implies s[j].id != x.id by {
            assert(project_ids(s)[j] == s[j].id.value);
        }
        assert(project_index(s, xv.id) is None);
    }
    v.push(x);
    proof {
        assert(v@.map_values(|y: ProjectRecord| y@) =~= s.insert(s.len() as int, xv));
        assert(project_ids(v@.map_values(|y: ProjectRecord| y@)) =~= project_ids(s).insert(s.len() as int, k));
    }
}

/// Find a project by identity.
pub(crate) fn locate_project(v: &Vec<ProjectRecord>, id: ProjectId) -> (r: Option<usize>)
    requires
        ascending(project_ids(v@.map_values(|y: ProjectRecord| y@))),
    ensures
        r matches Some(i) ==> i < v@.len() && project_index(v@.map_values(|y: ProjectRecord| y@), id) == Some(i as int),
        r is None ==> project_index(v@.map_values(|y: ProjectRecord| y@), id) is None,
{
    let ghost s = v@.map_values(|y: ProjectRecord| y@);
    let mut i: usize = 0;
    while i < v.len()
        invariant
            i <= v@.len(),
            s == v@.map_values(|y: ProjectRecord| y@),
            ascending(project_ids(s)),
            forall|j: int| 0 <= j < i ==> s[j].id != id,
        decreases v@.len() - i,
    {
        if v[i].id == id {
            proof {
                assert(s[i as int].id == id);
                lemma_project_index(s, i as int);
            }
            return Some(i);
        }
        i = i + 1;
    }
    None
}

/// The position of a instance in its table.
pub open spec fn instance_index(s: Seq<InstanceView>, id: ProjectInstanceId) -> Option<int> {
    if exists|i: int| 0 <= i < s.len() && s[i].id == id {
        Some(choose|i: int| 0 <= i < s.len() && s[i].id == id)
    } else {
        None
    }
}

/// The instance table with `x` inserted, or replacing the record of its identity.
pub open spec fn upsert_instance(s: Seq<InstanceView>, x: InstanceView) -> Seq<InstanceView> {
    match instance_index(s, x.id) {
        Some(i) => s.update(i, x),
        None => s.insert(id_position(instance_ids(s), x.id.value), x),
    }
}

/// Identities are unique in an ordered table.
pub proof fn lemma_instance_index(s: Seq<InstanceView>, i: int)
    requires
        ascending(instance_ids(s)),
        0 <= i < s.len(),
    ensures
        instance_index(s, s[i].id) == Some(i),
{
    let j = choose|j: int| 0 <= j < s.len() && s[j].id == s[i].id;
    assert(instance_ids(s)[i] == s[i].id.value);
    assert(instance_ids(s)[j] == s[j].id.value);
}

pub(crate) fn clone_instances(v: &Vec<ProjectInstanceRecord>) -> (r: Vec<ProjectInstanceRecord>)
    ensures
        r@.map_values(|x: ProjectInstanceRecord| x@) == v@.map_values(|x: ProjectInstanceRecord| x@),
{
    let mut r: Vec<ProjectInstanceRecord> = Vec::new();
    let mut i: usize = 0;
    while i < v.len()
        invariant
            i <= v@.len(),
            r@.len() == i,
            forall|j: int| 0 <= j < i ==> r@[j]@ == v@[j]@,
        decreases v@.len() - i,
    {
        let c = v[i].clone();
        r.push(c);
        i = i + 1;
    }
    assert(r@.map_values(|x: ProjectInstanceRecord| x@) =~= v@.map_values(|x: ProjectInstanceRecord| x@));
    r
}

/// Insert a instance or replace the record of its identity, keeping the
/// table ordered.
pub(crate) fn put_instance(v: &mut Vec<ProjectInstanceRecord>, x: ProjectInstanceRecord)
    requires
        ascending(instance_ids(old(v)@.map_values(|y: ProjectInstanceRecord| y@))),
    ensures
        final(v)@.map_values(|y: ProjectInstanceRecord| y@) == upsert_instance(old(v)@.map_values(|y: ProjectInstanceRecord| y@), x@),
        ascending(instance_ids(final(v)@.map_values(|y: ProjectInstanceRecord| y@))),
{
    let ghost s = v@.map_values(|y: ProjectInstanceRecord| y@);
    let ghost xv = x@;
    let k = x.id.value;
    let mut i: usize = 0;
    while i < v.len()
        invariant
            i <= v@.len(),
            s == v@.map_values(|y: ProjectInstanceRecord| y@),
            s == old(v)@.map_values(|y: ProjectInstanceRecord| y@),
            xv == x@,
            k == x.id.value,
            ascending(instance_ids(s)),
            forall|j: int| 0 <= j < i ==> instance_ids(s)[j] < k,
        decreases v@.len() - i,
    {
        assert(instance_ids(s)[i as int] == s[i as int].id.value);
        if v[i].id.value == k {
            proof {
                lemma_instance_index(s, i as int);
                assert(s[i as int].id == x.id);
                assert(instance_index(s, xv.id) == Some(i as int));
                assert(upsert_instance(s, xv) == s.update(i as int, xv));
            }
            v.set(i, x);
            proof {
                assert(v@.map_values(|y: ProjectInstanceRecord| y@) =~= s.update(i as int, xv));
                assert(instance_ids(v@.map_values(|y: ProjectInstanceRecord| y@)) =~= instance_ids(s));
            }
            return;
        }
        if k < v[i].id.value {
            proof {
                assert forall|j: int| i <= j < s.len() implies k < instance_ids(s)[j] by {
                    assert(instance_ids(s)[i as int] <= instance_ids(s)[j]);
                }
                lemma_id_position(instance_ids(s), k, i as int);
                assert forall|j: int| 0 <= j < s.len() implies s[j].id != x.id by {
                    assert(instance_ids(s)[j] == s[j].id.value);
                }
                assert(instance_index(s, xv.id) is None);
                assert(upsert_instance(s, xv) == s.insert(i as int, xv));
            }
            v.insert(i, x);
            proof {
                assert(v@.map_values(|y: ProjectInstanceRecord| y@) =~= s.insert(i as int, xv));
                assert(instance_ids(v@.map_values(|y: ProjectInstanceRecord| y@)) =~= instance_ids(s).insert(i as int, k));
            }
            return;
        }
        i = i + 1;
    }
    proof {
        lemma_id_position(instance_ids(s), k, s.len() as int);
        assert forall|j: int| 0 <= j < s.len() implies s[j].id != x.id by {
            assert(instance_ids(s)[j] == s[j].id.value);
        }
        assert(instance_index(s, xv.id) is None);
    }
    v.push(x);
    proof {
        assert(v@.map_values(|y: ProjectInstanceRecord| y@) =~= s.insert(s.len() as int, xv));
        assert(instance_ids(v@.map_values(|y: ProjectInstanceRecord| y@)) =~= instance_ids(s).insert(s.len() as int, k));
    }
}

/// Find a instance by identity.
pub(crate) fn locate_instance(v: &Vec<ProjectInstanceRecord>, id: ProjectInstanceId) -> (r: Option<usize>)
    requires
        ascending(instance_ids(v@.map_values(|y: ProjectInstanceRecord| y@))),
    ensures
        r matches Some(i) ==> i < v@.len() && instance_index(v@.map_values(|y: ProjectInstanceRecord| y@), id) == Some(i as int),
        r is None ==> instance_index(v@.map_values(|y: ProjectInstanceRecord| y@), id) is None,
{
    let ghost s = v@.map_values(|y: ProjectInstanceRecord| y@);
    let mut i: usize = 0;
    while i < v.len()
        invariant
            i <= v@.len(),
            s == v@.map_values(|y: ProjectInstanceRecord| y@),
            ascending(instance_ids(s)),
            forall|j: int| 0 <= j < i ==> s[j].id != id,
        decreases v@.len() - i,
    {
        if v[i].id == id {
            proof {
                assert(s[i as int].id == id);
                lemma_instance_index(s, i as int);
            }
            return Some(i);
        }
        i = i + 1;
    }
    None
}

/// A repository that held `path` as its current locator, unless it is `keep`,
/// gives the locator up and records it as last known.
pub open spec fn retire_repository(r: RepositoryView, path: Seq<char>, keep: RepositoryId) -> RepositoryView {
    if r.id != keep && r.current_git_dir == Some(path) {
        RepositoryView { current_git_dir: None, last_known_git_dir: path, presence: CatalogPresence::Missing, ..r }
    } else {
        r
    }
}

pub open spec fn retire_repositories(s: Seq<RepositoryView>, path: Seq<char>, keep: RepositoryId) -> Seq<RepositoryView> {
    s.map_values(|r: RepositoryView| retire_repository(r, path, keep))
}

/// Release `path` from every repository but `keep`.
pub(crate) fn release_repositories(v: &mut Vec<RepositoryRecord>, path: &String, keep: RepositoryId)
    ensures
        final(v)@.map_values(|y: RepositoryRecord| y@) == retire_repositories(old(v)@.map_values(|y: RepositoryRecord| y@), path@, keep),
        repository_ids(final(v)@.map_values(|y: RepositoryRecord| y@)) == repository_ids(old(v)@.map_values(|y: RepositoryRecord| y@)),
{
    let ghost s = v@.map_values(|y: RepositoryRecord| y@);
    let mut i: usize = 0;
    while i < v.len()
        invariant
            i <= v@.len(),
            v@.len() == s.len(),
            s == old(v)@.map_values(|y: RepositoryRecord| y@),
            forall|j: int| 0 <= j < i ==> v@[j]@ == retire_repository(s[j], path@, keep),
            forall|j: int| i <= j < v@.len() ==> v@[j]@ == s[j],
        decreases v@.len() - i,
    {
        let hit = match &v[i].current_git_dir {
            Some(c) => *c == *path,
            None => false,
        };
        if v[i].id != keep && hit {
            let mut r = v[i].clone();
            r.current_git_dir = None;
            r.last_known_git_dir = path.clone();
            r.presence = CatalogPresence::Missing;
            v.set(i, r);
        }
        i = i + 1;
    }
    assert(v@.map_values(|y: RepositoryRecord| y@) =~= retire_repositories(s, path@, keep));
    assert(repository_ids(v@.map_values(|y: RepositoryRecord| y@)) =~= repository_ids(s));
}

/// A worktree that held `path` as its current locator, unless it is `keep`,
/// gives the locator up and records it as last known.
pub open spec fn retire_worktree(r: WorktreeView, path: Seq<char>, keep: WorktreeId) -> WorktreeView {
    if r.id != keep && r.current_path == Some(path) {
        WorktreeView { current_path: None, last_known_path: path, presence: CatalogPresence::Missing, ..r }
    } else {
        r
    }
}

pub open spec fn retire_worktrees(s: Seq<WorktreeView>, path: Seq<char>, keep: WorktreeId) -> Seq<WorktreeView> {
    s.map_values(|r: WorktreeView| retire_worktree(r, path, keep))
}

/// Release `path` from every worktree but `keep`.
pub(crate) fn release_worktrees(v: &mut Vec<WorktreeRecord>, path: &String, keep: WorktreeId)
    ensures
        final(v)@.map_values(|y: WorktreeRecord| y@) == retire_worktrees(old(v)@.map_values(|y: WorktreeRecord| y@), path@, keep),
        worktree_ids(final(v)@.map_values(|y: WorktreeRecord| y@)) == worktree_ids(old(v)@.map_values(|y: WorktreeRecord| y@)),
{
    let ghost s = v@.map_values(|y: WorktreeRecord| y@);
    let mut i: usize = 0;
    while i < v.len()
        invariant
            i <= v@.len(),
            v@.len() == s.len(),
            s == old(v)@.map_values(|y: WorktreeRecord| y@),
            forall|j: int| 0 <= j < i ==> v@[j]@ == retire_worktree(s[j], path@, keep),
            forall|j: int| i <= j < v@.len() ==> v@[j]@ == s[j],
        decreases v@.len() - i,
    {
        let hit = match &v[i].current_path {
            Some(c) => *c == *path,
            None => false,
        };
        if v[i].id != keep && hit {
            let mut r = v[i].clone();
            r.current_path = None;
            r.last_known_path = path.clone();
            r.presence = CatalogPresence::Missing;
            v.set(i, r);
        }
        i = i + 1;
    }
    assert(v@.map_values(|y: WorktreeRecord| y@) =~= retire_worktrees(s, path@, keep));
    assert(worktree_ids(v@.map_values(|y: WorktreeRecord| y@)) =~= worktree_ids(s));
}

/// A instance that held `path` as its current locator, unless it is `keep`,
/// gives the locator up and records it as last known.
pub open spec fn retire_instance(r: InstanceView, path: Seq<char>, keep: ProjectInstanceId) -> InstanceView {
    if r.id != keep && r.current_path == Some(path) {
        InstanceView { current_path: None, last_known_path: path, presence: CatalogPresence::Missing, ..r }
    } else {
        r
    }
}

pub open spec fn retire_instances(s: Seq<InstanceView>, path: Seq<char>, keep: ProjectInstanceId) -> Seq<InstanceView> {
    s.map_values(|r: InstanceView| retire_instance(r, path, keep))
}

/// Release `path` from every instance but `keep`.
pub(crate) fn release_instances(v: &mut Vec<ProjectInstanceRecord>, path: &String, keep: ProjectInstanceId)
    ensures
        final(v)@.map_values(|y: ProjectInstanceRecord| y@) == retire_instances(old(v)@.map_values(|y: ProjectInstanceRecord| y@), path@, keep),
        instance_ids(final(v)@.map_values(|y: ProjectInstanceRecord| y@)) == instance_ids(old(v)@.map_values(|y: ProjectInstanceRecord| y@)),
{
    let ghost s = v@.map_values(|y: ProjectInstanceRecord| y@);
    let mut i: usize = 0;
    while i < v.len()
        invariant
            i <= v@.len(),
            v@.len() == s.len(),
            s == old(v)@.map_values(|y: ProjectInstanceRecord| y@),
            forall|j: int| 0 <= j < i ==> v@[j]@ == retire_instance(s[j], path@, keep),
            forall|j: int| i <= j < v@.len() ==> v@[j]@ == s[j],
        decreases v@.len() - i,
    {
        let hit = match &v[i].current_path {
            Some(c) => *c == *path,
            None => false,
        };
        if v[i].id != keep && hit {
            let mut r = v[i].clone();
            r.current_path = None;
            r.last_known_path = path.clone();
            r.presence = CatalogPresence::Missing;
            v.set(i, r);
        }
        i = i + 1;
    }
    assert(v@.map_values(|y: ProjectInstanceRecord| y@) =~= retire_instances(s, path@, keep));
    assert(instance_ids(v@.map_values(|y: ProjectInstanceRecord| y@)) =~= instance_ids(s));
}

/// The position of a legacy alias in its table.
pub open spec fn legacy_index(s: Seq<(Seq<char>, ProjectInstanceId)>, path: Seq<char>) -> Option<int> {
    if exists|i: int| 0 <= i < s.len() && s[i].0 == path {
        Some(choose|i: int| 0 <= i < s.len() && s[i].0 == path)
    } else {
        None
    }
}

/// The alias table with `path` naming `id`.
pub open spec fn legacy_put(s: Seq<(Seq<char>, ProjectInstanceId)>, path: Seq<char>, id: ProjectInstanceId) -> Seq<
    (Seq<char>, ProjectInstanceId),
> {
    match legacy_index(s, path) {
        Some(i) => s.update(i, (path, id)),
        None => s.insert(text_position(legacy_keys(s), path), (path, id)),
    }
}

pub proof fn lemma_legacy_index(s: Seq<(Seq<char>, ProjectInstanceId)>, i: int)
    requires
        texts_ascending(legacy_keys(s)),
        0 <= i < s.len(),
    ensures
        legacy_index(s, s[i].0) == Some(i),
{
    let j = choose|j: int| 0 <= j < s.len() && s[j].0 == s[i].0;
    assert(legacy_keys(s)[i] == s[i].0);
    assert(legacy_keys(s)[j] == s[j].0);
    lemma_lex_irreflexive(s[i].0);
}

/// Record `path` as an alias of `id`, keeping the table ordered.
pub(crate) fn put_legacy(v: &mut Vec<(String, ProjectInstanceId)>, path: &String, id: ProjectInstanceId)
    requires
        texts_ascending(legacy_keys(old(v)@.map_values(|e: (String, ProjectInstanceId)| (e.0@, e.1)))),
    ensures
        final(v)@.map_values(|e: (String, ProjectInstanceId)| (e.0@, e.1)) == legacy_put(
            old(v)@.map_values(|e: (String, ProjectInstanceId)| (e.0@, e.1)),
            path@,
            id,
        ),
        texts_ascending(legacy_keys(final(v)@.map_values(|e: (String, ProjectInstanceId)| (e.0@, e.1)))),
{
    let ghost s = v@.map_values(|e: (String, ProjectInstanceId)| (e.0@, e.1));
    let pc = str_chars(path.as_str());
    let mut i: usize = 0;
    while i < v.len()
        invariant
            i <= v@.len(),
            s == v@.map_values(|e: (String, ProjectInstanceId)| (e.0@, e.1)),
            s == old(v)@.map_values(|e: (String, ProjectInstanceId)| (e.0@, e.1)),
            pc@ == path@,
            texts_ascending(legacy_keys(s)),
            forall|j: int| 0 <= j < i ==> lex_lt(#[trigger] legacy_keys(s)[j], path@),
        decreases v@.len() - i,
    {
        assert(legacy_keys(s)[i as int] == s[i as int].0);
        let kc = str_chars(v[i].0.as_str());
        let c = compare_chars(kc.as_slice(), pc.as_slice());
        if c == 0 {
            proof {
                lemma_legacy_index(s, i as int);
            }
            v.set(i, (path.clone(), id));
            proof {
                assert(v@.map_values(|e: (String, ProjectInstanceId)| (e.0@, e.1)) =~= s.update(i as int, (path@, id)));
                assert(legacy_keys(v@.map_values(|e: (String, ProjectInstanceId)| (e.0@, e.1))) =~= legacy_keys(s));
            }
            return;
        }
        if c > 0 {
            proof {
                assert forall|j: int| i <= j < s.len() implies lex_lt(path@, legacy_keys(s)[j]) by {
                    if j > i {
                        lemma_lex_transitive(path@, legacy_keys(s)[i as int], legacy_keys(s)[j]);
                    }
                }
                lemma_text_position(legacy_keys(s), path@, i as int);
                assert forall|j: int| 0 <= j < s.len() implies s[j].0 != path@ by {
                    assert(legacy_keys(s)[j] == s[j].0);
                    lemma_lex_irreflexive(path@);
                }
            }
            v.insert(i, (path.clone(), id));
            proof {
                assert(v@.map_values(|e: (String, ProjectInstanceId)| (e.0@, e.1)) =~= s.insert(i as int, (path@, id)));
                assert(legacy_keys(v@.map_values(|e: (String, ProjectInstanceId)| (e.0@, e.1))) =~= legacy_keys(s).insert(
                    i as int,
                    path@,
                ));
            }
            return;
        }
        i = i + 1;
    }
    proof {
        lemma_text_position(legacy_keys(s), path@, s.len() as int);
        assert forall|j: int| 0 <= j < s.len() implies s[j].0 != path@ by {
            assert(legacy_keys(s)[j] == s[j].0);
            lemma_lex_irreflexive(path@);
        }
    }
    v.push((path.clone(), id));
    proof {
        assert(v@.map_values(|e: (String, ProjectInstanceId)| (e.0@, e.1)) =~= s.insert(s.len() as int, (path@, id)));
        assert(legacy_keys(v@.map_values(|e: (String, ProjectInstanceId)| (e.0@, e.1))) =~= legacy_keys(s).insert(
            s.len() as int,
            path@,
        ));
    }
}

/// The position of unresolved evidence for a path.
pub open spec fn unresolved_index(s: Seq<UnresolvedView>, path: Seq<char>) -> Option<int> {
    if exists|i: int| 0 <= i < s.len() && s[i].path == path {
        Some(choose|i: int| 0 <= i < s.len() && s[i].path == path)
    } else {
        None
    }
}

/// The evidence table without the entry for `path`.
pub open spec fn unresolved_without(s: Seq<UnresolvedView>, path: Seq<char>) -> Seq<UnresolvedView> {
    match unresolved_index(s, path) {
        Some(i) => s.remove(i),
        None => s,
    }
}

pub proof fn lemma_unresolved_index(s: Seq<UnresolvedView>, i: int)
    requires
        texts_ascending(unresolved_keys(s)),
        0 <= i < s.len(),
    ensures
        unresolved_index(s, s[i].path) == Some(i),
{
    let j = choose|j: int| 0 <= j < s.len() && s[j].path == s[i].path;
    assert(unresolved_keys(s)[i] == s[i].path);
    assert(unresolved_keys(s)[j] == s[j].path);
    lemma_lex_irreflexive(s[i].path);
}

/// Drop the unresolved evidence for `path`, if any.
pub(crate) fn drop_unresolved(v: &mut Vec<UnresolvedLegacyProject>, path: &String)
    requires
        texts_ascending(unresolved_keys(old(v)@.map_values(|r: UnresolvedLegacyProject| r@))),
    ensures
        final(v)@.map_values(|r: UnresolvedLegacyProject| r@) == unresolved_without(
            old(v)@.map_values(|r: UnresolvedLegacyProject| r@),
            path@,
        ),
        texts_ascending(unresolved_keys(final(v)@.map_values(|r: UnresolvedLegacyProject| r@))),
{
    let ghost s = v@.map_values(|r: UnresolvedLegacyProject| r@);
    let mut i: usize = 0;
    while i < v.len()
        invariant
            i <= v@.len(),
            s == v@.map_values(|r: UnresolvedLegacyProject| r@),
            s == old(v)@.map_values(|r: UnresolvedLegacyProject| r@),
            texts_ascending(unresolved_keys(s)),
            forall|j: int| 0 <= j < i ==> s[j].path != path@,
        decreases v@.len() - i,
    {
        if v[i].path == *path {
            proof {
                assert(s[i as int].path == path@);
                lemma_unresolved_index(s, i as int);
                lemma_texts_remove(unresolved_keys(s), i as int);
            }
            v.remove(i);
            proof {
                assert(v@.map_values(|r: UnresolvedLegacyProject| r@) =~= s.remove(i as int));
                assert(unresolved_keys(v@.map_values(|r: UnresolvedLegacyProject| r@)) =~= unresolved_keys(s).remove(i as int));
            }
            return;
        }
        i = i + 1;
    }
}

pub(crate) fn clone_legacy(v: &Vec<(String, ProjectInstanceId)>) -> (r: Vec<(String, ProjectInstanceId)>)
    ensures
        r@.map_values(|e: (String, ProjectInstanceId)| (e.0@, e.1)) == v@.map_values(|e: (String, ProjectInstanceId)| (e.0@, e.1)),
{
    let mut r: Vec<(String, ProjectInstanceId)> = Vec::new();
    let mut i: usize = 0;
    while i < v.len()
        invariant
            i <= v@.len(),
            r@.len() == i,
            forall|j: int| 0 <= j < i ==> r@[j].0@ == v@[j].0@ && r@[j].1 == v@[j].1,
        decreases v@.len() - i,
    {
        r.push((v[i].0.clone(), v[i].1));
        i = i + 1;
    }
    assert(r@.map_values(|e: (String, ProjectInstanceId)| (e.0@, e.1)) =~= v@.map_values(|e: (String, ProjectInstanceId)| (e.0@, e.1)));
    r
}

pub(crate) fn clone_unresolved(v: &Vec<UnresolvedLegacyProject>) -> (r: Vec<UnresolvedLegacyProject>)
    ensures
        r@.map_values(|x: UnresolvedLegacyProject| x@) == v@.map_values(|x: UnresolvedLegacyProject| x@),
{
    let mut r: Vec<UnresolvedLegacyProject> = Vec::new();
    let mut i: usize = 0;
    while i < v.len()
        invariant
            i <= v@.len(),
            r@.len() == i,
            forall|j: int| 0 <= j < i ==> r@[j]@ == v@[j]@,
        decreases v@.len() - i,
    {
        r.push(v[i].clone());
        i = i + 1;
    }
    assert(r@.map_values(|x: UnresolvedLegacyProject| x@) =~= v@.map_values(|x: UnresolvedLegacyProject| x@));
    r
}

/// Find the alias entry for a path.
pub(crate) fn locate_legacy(v: &Vec<(String, ProjectInstanceId)>, path: &String) -> (r: Option<usize>)
    requires
        texts_ascending(legacy_keys(v@.map_values(|e: (String, ProjectInstanceId)| (e.0@, e.1)))),
    ensures
        r matches Some(i) ==> i < v@.len() && legacy_index(v@.map_values(|e: (String, ProjectInstanceId)| (e.0@, e.1)), path@)
            == Some(i as int),
        r is None ==> legacy_index(v@.map_values(|e: (String, ProjectInstanceId)| (e.0@, e.1)), path@) is None,
{
    let ghost s = v@.map_values(|e: (String, ProjectInstanceId)| (e.0@, e.1));
    let mut i: usize = 0;
    while i < v.len()
        invariant
            i <= v@.len(),
            s == v@.map_values(|e: (String, ProjectInstanceId)| (e.0@, e.1)),
            texts_ascending(legacy_keys(s)),
            forall|j: int| 0 <= j < i ==> s[j].0 != path@,
        decreases v@.len() - i,
    {
        if v[i].0 == *path {
            proof {
                assert(s[i as int].0 == path@);
                lemma_legacy_index(s, i as int);
            }
            return Some(i);
        }
        i = i + 1;
    }
    None
}

} // verus!
