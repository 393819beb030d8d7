//! Reconciling recorded locators with what the filesystem shows.
//!
//! Probing a locator reads identity markers from disk, so the caller probes
//! and hands the answers in: for each record, in table order, whether its
//! current locator and its last-known locator still resolve to its identity.

use super::records::{
    CatalogPresence, InstanceView, ProjectInstanceRecord, RepositoryRecord, RepositoryView, UnresolvedLegacyProject,
    WorktreeRecord, WorktreeView,
};
use super::tables::{
    clone_instances, clone_legacy, clone_repositories, clone_unresolved, clone_worktrees, drop_unresolved, legacy_index,
    legacy_put, put_legacy, unresolved_without,
};
use super::validate::validation_error;
use crate::domain::string_views;
use super::{
    ascending, instance_ids, repository_ids, worktree_ids, CatalogError, CatalogView, ProjectCatalog,
};
use crate::identity::ProjectInstanceId;
use vstd::prelude::*;

verus! {

/// Probe answers for each record, in table order: does its current locator,
/// and does its last-known locator, still resolve to its identity.
#[derive(Debug, Clone)]
pub struct LocatorProbes {
    pub repositories: Vec<(bool, bool)>,
    pub worktrees: Vec<(bool, bool)>,
    pub instances: Vec<(bool, bool)>,
}

/// Whether a record gives up its current locator: it has one and the
/// locator no longer resolves to it.
pub open spec fn released(current: Option<Seq<char>>, probe: (bool, bool)) -> bool {
    current is Some && !probe.0
}

/// Whether a missing record's last-known locator resolves to it once the
/// first pass is done: a locator just released does not.
pub open spec fn restorable(current: Option<Seq<char>>, probe: (bool, bool)) -> bool {
    !released(current, probe) && probe.1
}

pub open spec fn release_repository(r: RepositoryView, probe: (bool, bool)) -> RepositoryView {
    if released(r.current_git_dir, probe) {
        RepositoryView {
            current_git_dir: None,
            last_known_git_dir: r.current_git_dir->0,
            presence: CatalogPresence::Missing,
            ..r
        }
    } else {
        r
    }
}

pub open spec fn release_worktree(r: WorktreeView, probe: (bool, bool)) -> WorktreeView {
    if released(r.current_path, probe) {
        WorktreeView { current_path: None, last_known_path: r.current_path->0, presence: CatalogPresence::Missing, ..r }
    } else {
        r
    }
}

pub open spec fn release_instance(r: InstanceView, probe: (bool, bool)) -> InstanceView {
    if released(r.current_path, probe) {
        InstanceView { current_path: None, last_known_path: r.current_path->0, presence: CatalogPresence::Missing, ..r }
    } else {
        r
    }
}

/// How many records of a table give up their current locator.
pub open spec fn release_count(currents: Seq<Option<Seq<char>>>, probes: Seq<(bool, bool)>) -> nat
    decreases currents.len(),
{
    if currents.len() == 0 {
        0
    } else {
        release_count(currents.drop_last(), probes.drop_last()) + if released(currents.last(), probes[currents.len() - 1]) {
            1nat
        } else {
            0nat
        }
    }
}

/// The current locators of a table.
pub open spec fn current_set(currents: Seq<Option<Seq<char>>>) -> Set<Seq<char>> {
    Set::new(|p: Seq<char>| exists|i: int| 0 <= i < currents.len() && currents[i] == Some(p))
}

pub proof fn lemma_current_set_push(cs: Seq<Option<Seq<char>>>, o: Option<Seq<char>>)
    ensures
        current_set(cs.push(o)) == match o {
            Some(p) => current_set(cs).insert(p),
            None => current_set(cs),
        },
{
    let t = cs.push(o);
    let expected = match o {
        Some(p) => current_set(cs).insert(p),
        None => current_set(cs),
    };
    assert forall|x: Seq<char>| current_set(t).contains(x) <==> expected.contains(x) by {
        if current_set(t).contains(x) {
            let j = choose|j: int| 0 <= j < t.len() && t[j] == Some(x);
            if j < cs.len() {
                assert(cs[j] == Some(x));
            }
        }
        if current_set(cs).contains(x) {
            let j = choose|j: int| 0 <= j < cs.len() && cs[j] == Some(x);
            assert(t[j] == Some(x));
        }
        if o == Some(x) {
            assert(t[cs.len() as int] == Some(x));
        }
    }
    assert(current_set(t) =~= expected);
}

/// The second pass over repositories, in identity order: a missing
/// repository whose last-known directory resolves to it again, and that no
/// other repository currently claims, becomes current there.
pub open spec fn restore_repositories(s: Seq<RepositoryView>, ok: Seq<bool>, n: nat) -> (Seq<RepositoryView>, Set<Seq<char>>, nat)
    decreases n,
{
    if n == 0 {
        (s, current_set(s.map_values(|r: RepositoryView| r.current_git_dir)), 0)
    } else {
        let (t, cur, c) = restore_repositories(s, ok, (n - 1) as nat);
        let i = n - 1;
        let r = t[i];
        if r.presence == CatalogPresence::Missing && !cur.contains(r.last_known_git_dir) && ok[i] {
            (
                t.update(i, RepositoryView { current_git_dir: Some(r.last_known_git_dir), presence: CatalogPresence::Active, ..r }),
                cur.insert(r.last_known_git_dir),
                c + 1,
            )
        } else {
            (t, cur, c)
        }
    }
}

/// The second pass over worktrees, in identity order.
pub open spec fn restore_worktrees(s: Seq<WorktreeView>, ok: Seq<bool>, n: nat) -> (Seq<WorktreeView>, Set<Seq<char>>, nat)
    decreases n,
{
    if n == 0 {
        (s, current_set(s.map_values(|r: WorktreeView| r.current_path)), 0)
    } else {
        let (t, cur, c) = restore_worktrees(s, ok, (n - 1) as nat);
        let i = n - 1;
        let r = t[i];
        if r.presence == CatalogPresence::Missing && !cur.contains(r.last_known_path) && ok[i] {
            (
                t.update(i, WorktreeView { current_path: Some(r.last_known_path), presence: CatalogPresence::Active, ..r }),
                cur.insert(r.last_known_path),
                c + 1,
            )
        } else {
            (t, cur, c)
        }
    }
}

/// Whether an instance is the one its last-known path is an alias of.
pub open spec fn alias_owner(legacy: Seq<(Seq<char>, ProjectInstanceId)>, r: InstanceView) -> bool {
    match legacy_index(legacy, r.last_known_path) {
        Some(k) => legacy[k].1 == r.id,
        None => false,
    }
}

/// The order missing instances reclaim contested paths in: aliases of
/// their path first, then the most recently seen, then higher identities.
pub open spec fn restores_before(legacy: Seq<(Seq<char>, ProjectInstanceId)>, a: InstanceView, b: InstanceView) -> bool {
    (alias_owner(legacy, a) && !alias_owner(legacy, b)) || (alias_owner(legacy, a) == alias_owner(legacy, b) && (a.last_seen
        > b.last_seen || (a.last_seen == b.last_seen && a.id.value > b.id.value)))
}

/// `order` lists each missing instance once, in reclaiming order.
pub open spec fn restore_order(is: Seq<InstanceView>, legacy: Seq<(Seq<char>, ProjectInstanceId)>, order: Seq<int>) -> bool {
    &&& forall|k: int| 0 <= k < order.len() ==> 0 <= #[trigger] order[k] < is.len() && is[order[k]].presence == CatalogPresence::Missing
    &&& forall|i: int| 0 <= i < is.len() && is[i].presence == CatalogPresence::Missing ==> order.contains(i)
    &&& forall|a: int, b: int| 0 <= a < b < order.len() ==> restores_before(legacy, is[#[trigger] order[a]], is[#[trigger] order[b]])
}

/// Reclaiming order is a strict total order on distinct instances.
pub proof fn lemma_restores_before(legacy: Seq<(Seq<char>, ProjectInstanceId)>, a: InstanceView, b: InstanceView, c: InstanceView)
    ensures
        !restores_before(legacy, a, a),
        restores_before(legacy, a, b) && restores_before(legacy, b, c) ==> restores_before(legacy, a, c),
        a.id != b.id ==> restores_before(legacy, a, b) || restores_before(legacy, b, a),
        restores_before(legacy, a, b) ==> !restores_before(legacy, b, a),
{
}

/// The second pass over instances, in reclaiming order: a missing instance
/// whose last-known path resolves to it again, and that no instance
/// currently claims, becomes current there; the path becomes its alias and
/// stops being unresolved.
pub open spec fn restore_instances(v: CatalogView, order: Seq<int>, ok: Seq<bool>, n: nat) -> (CatalogView, Set<Seq<char>>, nat)
    decreases n,
{
    if n == 0 {
        (v, current_set(v.instances.map_values(|r: InstanceView| r.current_path)), 0)
    } else {
        let (t, cur, c) = restore_instances(v, order, ok, (n - 1) as nat);
        let i = order[n - 1];
        let r = t.instances[i];
        if !cur.contains(r.last_known_path) && ok[i] {
            (
                CatalogView {
                    instances: t.instances.update(
                        i,
                        InstanceView { current_path: Some(r.last_known_path), presence: CatalogPresence::Active, ..r },
                    ),
                    legacy_paths: legacy_put(t.legacy_paths, r.last_known_path, r.id),
                    unresolved: unresolved_without(t.unresolved, r.last_known_path),
                    ..t
                },
                cur.insert(r.last_known_path),
                c + 1,
            )
        } else {
            (t, cur, c)
        }
    }
}

/// The catalog after releasing stale locators and restoring repositories
/// and worktrees, and how many records that changed.
pub open spec fn first_passes(v: CatalogView, p: (Seq<(bool, bool)>, Seq<(bool, bool)>, Seq<(bool, bool)>)) -> (CatalogView, nat) {
    let rs = v.repositories;
    let ws = v.worktrees;
    let is = v.instances;
    let r1 = Seq::new(rs.len(), |i: int| release_repository(rs[i], p.0[i]));
    let w1 = Seq::new(ws.len(), |i: int| release_worktree(ws[i], p.1[i]));
    let i1 = Seq::new(is.len(), |i: int| release_instance(is[i], p.2[i]));
    let released_total = release_count(rs.map_values(|r: RepositoryView| r.current_git_dir), p.0) + release_count(
        ws.map_values(|r: WorktreeView| r.current_path),
        p.1,
    ) + release_count(is.map_values(|r: InstanceView| r.current_path), p.2);
    let (r2, _, rc) = restore_repositories(
        r1,
        Seq::new(rs.len(), |i: int| restorable(rs[i].current_git_dir, p.0[i])),
        rs.len(),
    );
    let (w2, _, wc) = restore_worktrees(w1, Seq::new(ws.len(), |i: int| restorable(ws[i].current_path, p.1[i])), ws.len());
    (CatalogView { repositories: r2, worktrees: w2, instances: i1, ..v }, released_total + rc + wc)
}

/// The catalog after both passes, instances reclaiming paths in `order`,
/// and how many records changed.
pub open spec fn reconciled(v: CatalogView, p: (Seq<(bool, bool)>, Seq<(bool, bool)>, Seq<(bool, bool)>), order: Seq<int>) -> (
    CatalogView,
    nat,
) {
    let (v1, c1) = first_passes(v, p);
    let (v2, _, ic) = restore_instances(
        v1,
        order,
        Seq::new(v.instances.len(), |i: int| restorable(v.instances[i].current_path, p.2[i])),
        order.len(),
    );
    (v2, c1 + ic)
}

fn release_stale_repositories(v: &mut Vec<RepositoryRecord>, probes: &Vec<(bool, bool)>) -> (c: usize)
    requires
        probes@.len() == old(v)@.len(),
    ensures
        final(v)@.map_values(|y: RepositoryRecord| y@) == Seq::new(
            old(v)@.len(),
            |i: int| release_repository(old(v)@.map_values(|y: RepositoryRecord| y@)[i], probes@[i]),
        ),
        c == release_count(old(v)@.map_values(|y: RepositoryRecord| y@).map_values(|r: RepositoryView| r.current_git_dir), probes@),
        c <= old(v)@.len(),
        repository_ids(final(v)@.map_values(|y: RepositoryRecord| y@)) == repository_ids(old(v)@.map_values(|y: RepositoryRecord| y@)),
{
    let ghost s = v@.map_values(|y: RepositoryRecord| y@);
    let ghost cs = s.map_values(|r: RepositoryView| r.current_git_dir);
    let mut c: usize = 0;
    let mut i: usize = 0;
    while i < v.len()
        invariant
            i <= v@.len(),
            v@.len() == s.len(),
            probes@.len() == s.len(),
            s == old(v)@.map_values(|y: RepositoryRecord| y@),
            cs == s.map_values(|r: RepositoryView| r.current_git_dir),
            forall|j: int| 0 <= j < i ==> v@[j]@ == release_repository(s[j], probes@[j]),
            forall|j: int| i <= j < v@.len() ==> v@[j]@ == s[j],
            c == release_count(cs.take(i as int), probes@.take(i as int)),
            c <= i,
        decreases v@.len() - i,
    {
        proof {
            assert(cs.take(i + 1).drop_last() =~= cs.take(i as int));
            assert(probes@.take(i + 1).drop_last() =~= probes@.take(i as int));
            assert(cs.take(i + 1).last() == cs[i as int]);
            assert(probes@.take(i + 1)[i as int] == probes@[i as int]);
            assert(v@[i as int]@ == s[i as int]);
            assert(cs[i as int] == s[i as int].current_git_dir);
        }
        if v[i].current_git_dir.is_some() && !probes[i].0 {
            let mut r = v[i].clone();
            let p = match &r.current_git_dir {
                Some(p) => p.clone(),
                None => String::new(),
            };
            r.current_git_dir = None;
            r.last_known_git_dir = p;
            r.presence = CatalogPresence::Missing;
            v.set(i, r);
            c = c + 1;
        }
        i = i + 1;
    }
    proof {
        assert(v@.map_values(|y: RepositoryRecord| y@) =~= Seq::new(s.len(), |i: int| release_repository(s[i], probes@[i])));
        assert(repository_ids(v@.map_values(|y: RepositoryRecord| y@)) =~= repository_ids(s));
        assert(cs.take(cs.len() as int) =~= cs);
        assert(probes@.take(probes@.len() as int) =~= probes@);
    }
    c
}

/// Collect the current locators of a table.
fn current_repositories(v: &Vec<RepositoryRecord>) -> (r: Vec<String>)
    ensures
        string_views(r@).to_set() == current_set(v@.map_values(|y: RepositoryRecord| y@).map_values(|x: RepositoryView| x.current_git_dir)),
{
    let ghost cs = v@.map_values(|y: RepositoryRecord| y@).map_values(|x: RepositoryView| x.current_git_dir);
    let mut r: Vec<String> = Vec::new();
    let mut i: usize = 0;
    proof {
        assert(string_views(r@).to_set() =~= current_set(cs.take(0)));
    }
    while i < v.len()
        invariant
            i <= v@.len(),
            cs == v@.map_values(|y: RepositoryRecord| y@).map_values(|x: RepositoryView| x.current_git_dir),
            string_views(r@).to_set() == current_set(cs.take(i as int)),
        decreases v@.len() - i,
    {
        proof {
            assert(cs[i as int] == v@[i as int]@.current_git_dir);
            assert(cs.take(i + 1) =~= cs.take(i as int).push(cs[i as int]));
            lemma_current_set_push(cs.take(i as int), cs[i as int]);
        }
        match &v[i].current_git_dir {
            Some(p) => {
                let ghost before = string_views(r@);
                r.push(p.clone());
                proof {
                    assert(string_views(r@) =~= before.push(p@));
                    before.lemma_push_to_set_commute(p@);
                }
            },
            None => {},
        }
        i = i + 1;
    }
    proof {
        assert(cs.take(cs.len() as int) =~= cs);
    }
    r
}

fn restore_stale_repositories(v: &mut Vec<RepositoryRecord>, ok: &Vec<bool>) -> (c: usize)
    requires
        ok@.len() == old(v)@.len(),
    ensures
        final(v)@.map_values(|y: RepositoryRecord| y@) == restore_repositories(old(v)@.map_values(|y: RepositoryRecord| y@), ok@, old(v)@.len()).0,
        c == restore_repositories(old(v)@.map_values(|y: RepositoryRecord| y@), ok@, old(v)@.len()).2,
        c <= old(v)@.len(),
        repository_ids(final(v)@.map_values(|y: RepositoryRecord| y@)) == repository_ids(old(v)@.map_values(|y: RepositoryRecord| y@)),
{
    let ghost s = v@.map_values(|y: RepositoryRecord| y@);
    let mut cur = current_repositories(v);
    let mut c: usize = 0;
    let mut i: usize = 0;
    while i < v.len()
        invariant
            i <= v@.len(),
            v@.len() == s.len(),
            ok@.len() == s.len(),
            s == old(v)@.map_values(|y: RepositoryRecord| y@),
            restore_repositories(s, ok@, i as nat) == (v@.map_values(|y: RepositoryRecord| y@), string_views(cur@).to_set(), c as nat),
            forall|j: int| i <= j < v@.len() ==> v@[j]@ == s[j],
            repository_ids(v@.map_values(|y: RepositoryRecord| y@)) == repository_ids(s),
            c <= i,
        decreases v@.len() - i,
    {
        let ghost t = v@.map_values(|y: RepositoryRecord| y@);
        proof {
            assert(t[i as int] == v@[i as int]@);
        }
        let hit = super::validate::text_in(&cur, &v[i].last_known_git_dir);
        if v[i].presence == CatalogPresence::Missing && !hit && ok[i] {
            let mut r = v[i].clone();
            let p = r.last_known_git_dir.clone();
            r.current_git_dir = Some(p.clone());
            r.presence = CatalogPresence::Active;
            v.set(i, r);
            let ghost before = string_views(cur@);
            cur.push(p);
            proof {
                assert(string_views(cur@) =~= before.push(t[i as int].last_known_git_dir));
                before.lemma_push_to_set_commute(t[i as int].last_known_git_dir);
                assert(v@.map_values(|y: RepositoryRecord| y@) =~= t.update(i as int, RepositoryView { current_git_dir: Some(t[i as int].last_known_git_dir), presence: CatalogPresence::Active, ..t[i as int] }));
                assert(repository_ids(v@.map_values(|y: RepositoryRecord| y@)) =~= repository_ids(t));
            }
            c = c + 1;
        }
        i = i + 1;
    }
    c
}

fn release_stale_worktrees(v: &mut Vec<WorktreeRecord>, probes: &Vec<(bool, bool)>) -> (c: usize)
    requires
        probes@.len() == old(v)@.len(),
    ensures
        final(v)@.map_values(|y: WorktreeRecord| y@) == Seq::new(
            old(v)@.len(),
            |i: int| release_worktree(old(v)@.map_values(|y: WorktreeRecord| y@)[i], probes@[i]),
        ),
        c == release_count(old(v)@.map_values(|y: WorktreeRecord| y@).map_values(|r: WorktreeView| r.current_path), probes@),
        c <= old(v)@.len(),
        worktree_ids(final(v)@.map_values(|y: WorktreeRecord| y@)) == worktree_ids(old(v)@.map_values(|y: WorktreeRecord| y@)),
{
    let ghost s = v@.map_values(|y: WorktreeRecord| y@);
    let ghost cs = s.map_values(|r: WorktreeView| r.current_path);
    let mut c: usize = 0;
    let mut i: usize = 0;
    while i < v.len()
        invariant
            i <= v@.len(),
            v@.len() == s.len(),
            probes@.len() == s.len(),
            s == old(v)@.map_values(|y: WorktreeRecord| y@),
            cs == s.map_values(|r: WorktreeView| r.current_path),
            forall|j: int| 0 <= j < i ==> v@[j]@ == release_worktree(s[j], probes@[j]),
            forall|j: int| i <= j < v@.len() ==> v@[j]@ == s[j],
            c == release_count(cs.take(i as int), probes@.take(i as int)),
            c <= i,
        decreases v@.len() - i,
    {
        proof {
            assert(cs.take(i + 1).drop_last() =~= cs.take(i as int));
            assert(probes@.take(i + 1).drop_last() =~= probes@.take(i as int));
            assert(cs.take(i + 1).last() == cs[i as int]);
            assert(probes@.take(i + 1)[i as int] == probes@[i as int]);
            assert(v@[i as int]@ == s[i as int]);
            assert(cs[i as int] == s[i as int].current_path);
        }
        if v[i].current_path.is_some() && !probes[i].0 {
            let mut r = v[i].clone();
            let p = match &r.current_path {
                Some(p) => p.clone(),
                None => String::new(),
            };
            r.current_path = None;
            r.last_known_path = p;
            r.presence = CatalogPresence::Missing;
            v.set(i, r);
            c = c + 1;
        }
        i = i + 1;
    }
    proof {
        assert(v@.map_values(|y: WorktreeRecord| y@) =~= Seq::new(s.len(), |i: int| release_worktree(s[i], probes@[i])));
        assert(worktree_ids(v@.map_values(|y: WorktreeRecord| y@)) =~= worktree_ids(s));
        assert(cs.take(cs.len() as int) =~= cs);
        assert(probes@.take(probes@.len() as int) =~= probes@);
    }
    c
}

/// Collect the current locators of a table.
fn current_worktrees(v: &Vec<WorktreeRecord>) -> (r: Vec<String>)
    ensures
        string_views(r@).to_set() == current_set(v@.map_values(|y: WorktreeRecord| y@).map_values(|x: WorktreeView| x.current_path)),
{
    let ghost cs = v@.map_values(|y: WorktreeRecord| y@).map_values(|x: WorktreeView| x.current_path);
    let mut r: Vec<String> = Vec::new();
    let mut i: usize = 0;
    proof {
        assert(string_views(r@).to_set() =~= current_set(cs.take(0)));
    }
    while i < v.len()
        invariant
            i <= v@.len(),
            cs == v@.map_values(|y: WorktreeRecord| y@).map_values(|x: WorktreeView| x.current_path),
            string_views(r@).to_set() == current_set(cs.take(i as int)),
        decreases v@.len() - i,
    {
        proof {
            assert(cs[i as int] == v@[i as int]@.current_path);
            assert(cs.take(i + 1) =~= cs.take(i as int).push(cs[i as int]));
            lemma_current_set_push(cs.take(i as int), cs[i as int]);
        }
        match &v[i].current_path {
            Some(p) => {
                let ghost before = string_views(r@);
                r.push(p.clone());
                proof {
                    assert(string_views(r@) =~= before.push(p@));
                    before.lemma_push_to_set_commute(p@);
                }
            },
            None => {},
        }
        i = i + 1;
    }
    proof {
        assert(cs.take(cs.len() as int) =~= cs);
    }
    r
}

fn restore_stale_worktrees(v: &mut Vec<WorktreeRecord>, ok: &Vec<bool>) -> (c: usize)
    requires
        ok@.len() == old(v)@.len(),
    ensures
        final(v)@.map_values(|y: WorktreeRecord| y@) == restore_worktrees(old(v)@.map_values(|y: WorktreeRecord| y@), ok@, old(v)@.len()).0,
        c == restore_worktrees(old(v)@.map_values(|y: WorktreeRecord| y@), ok@, old(v)@.len()).2,
        c <= old(v)@.len(),
        worktree_ids(final(v)@.map_values(|y: WorktreeRecord| y@)) == worktree_ids(old(v)@.map_values(|y: WorktreeRecord| y@)),
{
    let ghost s = v@.map_values(|y: WorktreeRecord| y@);
    let mut cur = current_worktrees(v);
    let mut c: usize = 0;
    let mut i: usize = 0;
    while i < v.len()
        invariant
            i <= v@.len(),
            v@.len() == s.len(),
            ok@.len() == s.len(),
            s == old(v)@.map_values(|y: WorktreeRecord| y@),
            restore_worktrees(s, ok@, i as nat) == (v@.map_values(|y: WorktreeRecord| y@), string_views(cur@).to_set(), c as nat),
            forall|j: int| i <= j < v@.len() ==> v@[j]@ == s[j],
            worktree_ids(v@.map_values(|y: WorktreeRecord| y@)) == worktree_ids(s),
            c <= i,
        decreases v@.len() - i,
    {
        let ghost t = v@.map_values(|y: WorktreeRecord| y@);
        proof {
            assert(t[i as int] == v@[i as int]@);
        }
        let hit = super::validate::text_in(&cur, &v[i].last_known_path);
        if v[i].presence == CatalogPresence::Missing && !hit && ok[i] {
            let mut r = v[i].clone();
            let p = r.last_known_path.clone();
            r.current_path = Some(p.clone());
            r.presence = CatalogPresence::Active;
            v.set(i, r);
            let ghost before = string_views(cur@);
            cur.push(p);
            proof {
                assert(string_views(cur@) =~= before.push(t[i as int].last_known_path));
                before.lemma_push_to_set_commute(t[i as int].last_known_path);
                assert(v@.map_values(|y: WorktreeRecord| y@) =~= t.update(i as int, WorktreeView { current_path: Some(t[i as int].last_known_path), presence: CatalogPresence::Active, ..t[i as int] }));
                assert(worktree_ids(v@.map_values(|y: WorktreeRecord| y@)) =~= worktree_ids(t));
            }
            c = c + 1;
        }
        i = i + 1;
    }
    c
}

fn release_stale_instances(v: &mut Vec<ProjectInstanceRecord>, probes: &Vec<(bool, bool)>) -> (c: usize)
    requires
        probes@.len() == old(v)@.len(),
    ensures
        final(v)@.map_values(|y: ProjectInstanceRecord| y@) == Seq::new(
            old(v)@.len(),
            |i: int| release_instance(old(v)@.map_values(|y: ProjectInstanceRecord| y@)[i], probes@[i]),
        ),
        c == release_count(old(v)@.map_values(|y: ProjectInstanceRecord| y@).map_values(|r: InstanceView| r.current_path), probes@),
        c <= old(v)@.len(),
        instance_ids(final(v)@.map_values(|y: ProjectInstanceRecord| y@)) == instance_ids(old(v)@.map_values(|y: ProjectInstanceRecord| y@)),
{
    let ghost s = v@.map_values(|y: ProjectInstanceRecord| y@);
    let ghost cs = s.map_values(|r: InstanceView| r.current_path);
    let mut c: usize = 0;
    let mut i: usize = 0;
    while i < v.len()
        invariant
            i <= v@.len(),
            v@.len() == s.len(),
            probes@.len() == s.len(),
            s == old(v)@.map_values(|y: ProjectInstanceRecord| y@),
            cs == s.map_values(|r: InstanceView| r.current_path),
            forall|j: int| 0 <= j < i ==> v@[j]@ == release_instance(s[j], probes@[j]),
            forall|j: int| i <= j < v@.len() ==> v@[j]@ == s[j],
            c == release_count(cs.take(i as int), probes@.take(i as int)),
            c <= i,
        decreases v@.len() - i,
    {
        proof {
            assert(cs.take(i + 1).drop_last() =~= cs.take(i as int));
            assert(probes@.take(i + 1).drop_last() =~= probes@.take(i as int));
            assert(cs.take(i + 1).last() == cs[i as int]);
            assert(probes@.take(i + 1)[i as int] == probes@[i as int]);
            assert(v@[i as int]@ == s[i as int]);
            assert(cs[i as int] == s[i as int].current_path);
        }
        if v[i].current_path.is_some() && !probes[i].0 {
            let mut r = v[i].clone();
            let p = match &r.current_path {
                Some(p) => p.clone(),
                None => String::new(),
            };
            r.current_path = None;
            r.last_known_path = p;
            r.presence = CatalogPresence::Missing;
            v.set(i, r);
            c = c + 1;
        }
        i = i + 1;
    }
    proof {
        assert(v@.map_values(|y: ProjectInstanceRecord| y@) =~= Seq::new(s.len(), |i: int| release_instance(s[i], probes@[i])));
        assert(instance_ids(v@.map_values(|y: ProjectInstanceRecord| y@)) =~= instance_ids(s));
        assert(cs.take(cs.len() as int) =~= cs);
        assert(probes@.take(probes@.len() as int) =~= probes@);
    }
    c
}

/// Collect the current locators of a table.
fn current_instances(v: &Vec<ProjectInstanceRecord>) -> (r: Vec<String>)
    ensures
        string_views(r@).to_set() == current_set(v@.map_values(|y: ProjectInstanceRecord| y@).map_values(|x: InstanceView| x.current_path)),
{
    let ghost cs = v@.map_values(|y: ProjectInstanceRecord| y@).map_values(|x: InstanceView| x.current_path);
    let mut r: Vec<String> = Vec::new();
    let mut i: usize = 0;
    proof {
        assert(string_views(r@).to_set() =~= current_set(cs.take(0)));
    }
    while i < v.len()
        invariant
            i <= v@.len(),
            cs == v@.map_values(|y: ProjectInstanceRecord| y@).map_values(|x: InstanceView| x.current_path),
            string_views(r@).to_set() == current_set(cs.take(i as int)),
        decreases v@.len() - i,
    {
        proof {
            assert(cs[i as int] == v@[i as int]@.current_path);
            assert(cs.take(i + 1) =~= cs.take(i as int).push(cs[i as int]));
            lemma_current_set_push(cs.take(i as int), cs[i as int]);
        }
        match &v[i].current_path {
            Some(p) => {
                let ghost before = string_views(r@);
                r.push(p.clone());
                proof {
                    assert(string_views(r@) =~= before.push(p@));
                    before.lemma_push_to_set_commute(p@);
                }
            },
            None => {},
        }
        i = i + 1;
    }
    proof {
        assert(cs.take(cs.len() as int) =~= cs);
    }
    r
}


fn alias_flags(instances: &Vec<ProjectInstanceRecord>, legacy: &Vec<(String, ProjectInstanceId)>) -> (r: Vec<bool>)
    requires
        super::texts_ascending(super::legacy_keys(legacy@.map_values(|e: (String, ProjectInstanceId)| (e.0@, e.1)))),
    ensures
        r@.len() == instances@.len(),
        forall|i: int| 0 <= i < r@.len() ==> r@[i] == alias_owner(
            legacy@.map_values(|e: (String, ProjectInstanceId)| (e.0@, e.1)),
            instances@[i]@,
        ),
{
    let ghost lv = legacy@.map_values(|e: (String, ProjectInstanceId)| (e.0@, e.1));
    let mut r: Vec<bool> = Vec::new();
    let mut i: usize = 0;
    while i < instances.len()
        invariant
            i <= instances@.len(),
            r@.len() == i,
            lv == legacy@.map_values(|e: (String, ProjectInstanceId)| (e.0@, e.1)),
            super::texts_ascending(super::legacy_keys(lv)),
            forall|j: int| 0 <= j < i ==> r@[j] == alias_owner(lv, instances@[j]@),
        decreases instances@.len() - i,
    {
        let flag = match super::tables::locate_legacy(legacy, &instances[i].last_known_path) {
            Some(k) => {
                proof {
                    assert(lv[k as int] == (legacy@[k as int].0@, legacy@[k as int].1));
                }
                legacy[k].1 == instances[i].id
            },
            None => false,
        };
        r.push(flag);
        i = i + 1;
    }
    r
}

fn reclaims_before(alias_a: bool, a: &ProjectInstanceRecord, alias_b: bool, b: &ProjectInstanceRecord) -> (r: bool)
    ensures
        r == ((alias_a && !alias_b) || (alias_a == alias_b && (a.last_seen > b.last_seen || (a.last_seen == b.last_seen
            && a.id.value > b.id.value)))),
{
    (alias_a && !alias_b) || (alias_a == alias_b && (a.last_seen > b.last_seen || (a.last_seen == b.last_seen
        && a.id.value > b.id.value)))
}

/// The missing instances in reclaiming order.
fn reclaim_order(instances: &Vec<ProjectInstanceRecord>, legacy: &Vec<(String, ProjectInstanceId)>) -> (r: Vec<usize>)
    requires
        ascending(instance_ids(instances@.map_values(|y: ProjectInstanceRecord| y@))),
        super::texts_ascending(super::legacy_keys(legacy@.map_values(|e: (String, ProjectInstanceId)| (e.0@, e.1)))),
    ensures
        restore_order(
            instances@.map_values(|y: ProjectInstanceRecord| y@),
            legacy@.map_values(|e: (String, ProjectInstanceId)| (e.0@, e.1)),
            r@.map_values(|k: usize| k as int),
        ),
        r@.len() <= instances@.len(),
{
    let ghost is = instances@.map_values(|y: ProjectInstanceRecord| y@);
    let ghost lv = legacy@.map_values(|e: (String, ProjectInstanceId)| (e.0@, e.1));
    let alias = alias_flags(instances, legacy);
    let mut order: Vec<usize> = Vec::new();
    let mut i: usize = 0;
    while i < instances.len()
        invariant
            i <= instances@.len(),
            is == instances@.map_values(|y: ProjectInstanceRecord| y@),
            lv == legacy@.map_values(|e: (String, ProjectInstanceId)| (e.0@, e.1)),
            ascending(instance_ids(is)),
            alias@.len() == instances@.len(),
            order@.len() <= i,
            forall|j: int| 0 <= j < alias@.len() ==> alias@[j] == alias_owner(lv, instances@[j]@),
            forall|k: int| 0 <= k < order@.len() ==> (#[trigger] order@[k]) < i && is[order@[k] as int].presence == CatalogPresence::Missing,
            forall|j: int| 0 <= j < i && is[j].presence == CatalogPresence::Missing ==> order@.map_values(|k: usize| k as int).contains(j),
            forall|a: int, b: int|
                0 <= a < b < order@.len() ==> restores_before(lv, is[#[trigger] order@[a] as int], is[#[trigger] order@[b] as int]),
        decreases instances@.len() - i,
    {
        proof {
            assert(is[i as int] == instances@[i as int]@);
        }
        if instances[i].presence == CatalogPresence::Missing {
            let mut p: usize = 0;
            while p < order.len()
                invariant
                    p <= order@.len(),
                    i < instances@.len(),
                    is == instances@.map_values(|y: ProjectInstanceRecord| y@),
                    alias@.len() == instances@.len(),
                    forall|j: int| 0 <= j < alias@.len() ==> alias@[j] == alias_owner(lv, instances@[j]@),
                    forall|k: int| 0 <= k < order@.len() ==> (#[trigger] order@[k]) < i,
                    forall|q: int| 0 <= q < p ==> restores_before(lv, is[#[trigger] order@[q] as int], is[i as int]),
                ensures
                    p <= order@.len(),
                    forall|q: int| 0 <= q < p ==> restores_before(lv, is[#[trigger] order@[q] as int], is[i as int]),
                    p < order@.len() ==> !restores_before(lv, is[order@[p as int] as int], is[i as int]),
                decreases order@.len() - p,
            {
                let o = order[p];
                proof {
                    assert(is[o as int] == instances@[o as int]@);
                }
                if !reclaims_before(alias[o], &instances[o], alias[i], &instances[i]) {
                    break;
                }
                p = p + 1;
            }
            proof {
                assert forall|q: int| p <= q < order@.len() implies restores_before(lv, is[i as int], is[order@[q] as int]) by {
                    let o = order@[p as int] as int;
                    assert(instance_ids(is)[o] == is[o].id.value);
                    assert(instance_ids(is)[i as int] == is[i as int].id.value);
                    lemma_restores_before(lv, is[i as int], is[o], is[o]);
                    lemma_restores_before(lv, is[o], is[i as int], is[i as int]);
                    if q > p {
                        lemma_restores_before(lv, is[i as int], is[o], is[order@[q] as int]);
                    }
                }
            }
            let ghost before = order@;
            order.insert(p, i);
            proof {
                assert forall|a: int, b: int| 0 <= a < b < order@.len() implies restores_before(
                    lv,
                    is[#[trigger] order@[a] as int],
                    is[#[trigger] order@[b] as int],
                ) by {
                    if b < p {
                        assert(order@[a] == before[a] && order@[b] == before[b]);
                    } else if b == p {
                        assert(order@[a] == before[a]);
                    } else if a < p {
                        assert(order@[a] == before[a] && order@[b] == before[b - 1]);
                        lemma_restores_before(lv, is[before[a] as int], is[i as int], is[before[b - 1] as int]);
                    } else if a == p {
                        assert(order@[b] == before[b - 1]);
                    } else {
                        assert(order@[a] == before[a - 1] && order@[b] == before[b - 1]);
                    }
                }
                assert forall|j: int| 0 <= j < i + 1 && is[j].presence == CatalogPresence::Missing implies order@.map_values(
                    |k: usize| k as int,
                ).contains(j) by {
                    if j == i {
                        assert(order@.map_values(|k: usize| k as int)[p as int] == j);
                    } else {
                        let bm = before.map_values(|k: usize| k as int);
                        assert(bm.contains(j));
                        let m = choose|m: int| 0 <= m < bm.len() && #[trigger] bm[m] == j;
                        if m < p {
                            assert(order@.map_values(|k: usize| k as int)[m] == j);
                        } else {
                            assert(order@.map_values(|k: usize| k as int)[m + 1] == j);
                        }
                    }
                }
            }
        }
        i = i + 1;
    }
    proof {
        let ord = order@.map_values(|k: usize| k as int);
        assert forall|a: int, b: int| 0 <= a < b < ord.len() implies restores_before(lv, is[#[trigger] ord[a]], is[#[trigger] ord[b]]) by {
            assert(ord[a] == order@[a] as int && ord[b] == order@[b] as int);
        }
        assert forall|k: int| 0 <= k < ord.len() implies 0 <= #[trigger] ord[k] < is.len() && is[ord[k]].presence == CatalogPresence::Missing by {
            assert(ord[k] == order@[k] as int);
        }
    }
    order
}

fn restorable_flags(currents: Ghost<Seq<Option<Seq<char>>>>, has_current: &Vec<bool>, probes: &Vec<(bool, bool)>) -> (r: Vec<bool>)
    requires
        has_current@.len() == probes@.len(),
        currents@.len() == probes@.len(),
        forall|i: int| 0 <= i < currents@.len() ==> has_current@[i] == (currents@[i] is Some),
    ensures
        r@ == Seq::new(probes@.len(), |i: int| restorable(currents@[i], probes@[i])),
{
    let mut r: Vec<bool> = Vec::new();
    let mut i: usize = 0;
    while i < probes.len()
        invariant
            i <= probes@.len(),
            has_current@.len() == probes@.len(),
            currents@.len() == probes@.len(),
            forall|j: int| 0 <= j < currents@.len() ==> has_current@[j] == (currents@[j] is Some),
            r@.len() == i,
            forall|j: int| 0 <= j < i ==> r@[j] == restorable(currents@[j], probes@[j]),
        decreases probes@.len() - i,
    {
        r.push(!(has_current[i] && !probes[i].0) && probes[i].1);
        i = i + 1;
    }
    assert(r@ =~= Seq::new(probes@.len(), |i: int| restorable(currents@[i], probes@[i])));
    r
}

impl ProjectCatalog {
    /// Reconcile catalog presence with the filesystem without deleting
    /// records: first every current locator that no longer resolves to its
    /// record is released; then missing repositories, worktrees, and (in
    /// reclaiming order) instances whose last-known locator resolves to them
    /// again, and that nothing else currently claims, become current there.
    /// Returns how many records changed.
    pub fn reconcile_missing(&mut self, probes: &LocatorProbes) -> (r: Result<usize, CatalogError>)
        requires
            probes.repositories@.len() == old(self)@.repositories.len(),
            probes.worktrees@.len() == old(self)@.worktrees.len(),
            probes.instances@.len() == old(self)@.instances.len(),
            2 * (old(self)@.repositories.len() + old(self)@.worktrees.len() + old(self)@.instances.len()) <= usize::MAX,
        ensures
            exists|order: Seq<int>|
                restore_order(
                    first_passes(old(self)@, (probes.repositories@, probes.worktrees@, probes.instances@)).0.instances,
                    old(self)@.legacy_paths,
                    order,
                ) && final(self)@ == reconciled(old(self)@, (probes.repositories@, probes.worktrees@, probes.instances@), order).0
                    && (r is Ok <==> super::validate::catalog_valid(final(self)@)) && (r matches Ok(c) ==> c == reconciled(
                    old(self)@,
                    (probes.repositories@, probes.worktrees@, probes.instances@),
                    order,
                ).1) && (r matches Err(e) ==> validation_error(e)),
    {
        proof {
            use_type_invariant(&*self);
        }
        let ghost v = self@;
        let ghost p = (probes.repositories@, probes.worktrees@, probes.instances@);
        // Which records hold a current locator before the first pass.
        let mut repo_current: Vec<bool> = Vec::new();
        let mut k: usize = 0;
        while k < self.repositories.len()
            invariant
                k <= self.repositories@.len(),
                v == self@,
                v.repositories == self.repositories@.map_values(|y: RepositoryRecord| y@),
                repo_current@.len() == k,
                forall|j: int| 0 <= j < k ==> repo_current@[j] == (v.repositories[j].current_git_dir is Some),
            decreases self.repositories@.len() - k,
        {
            proof {
                assert(v.repositories[k as int] == self.repositories@[k as int]@);
            }
            repo_current.push(self.repositories[k].current_git_dir.is_some());
            k = k + 1;
        }
        let mut wt_current: Vec<bool> = Vec::new();
        k = 0;
        while k < self.worktrees.len()
            invariant
                k <= self.worktrees@.len(),
                v == self@,
                v.worktrees == self.worktrees@.map_values(|y: WorktreeRecord| y@),
                wt_current@.len() == k,
                forall|j: int| 0 <= j < k ==> wt_current@[j] == (v.worktrees[j].current_path is Some),
            decreases self.worktrees@.len() - k,
        {
            proof {
                assert(v.worktrees[k as int] == self.worktrees@[k as int]@);
            }
            wt_current.push(self.worktrees[k].current_path.is_some());
            k = k + 1;
        }
        let mut inst_current: Vec<bool> = Vec::new();
        k = 0;
        while k < self.instances.len()
            invariant
                k <= self.instances@.len(),
                v == self@,
                v.instances == self.instances@.map_values(|y: ProjectInstanceRecord| y@),
                inst_current@.len() == k,
                forall|j: int| 0 <= j < k ==> inst_current@[j] == (v.instances[j].current_path is Some),
            decreases self.instances@.len() - k,
        {
            proof {
                assert(v.instances[k as int] == self.instances@[k as int]@);
            }
            inst_current.push(self.instances[k].current_path.is_some());
            k = k + 1;
        }
        let repo_ok = restorable_flags(
            Ghost(v.repositories.map_values(|r: RepositoryView| r.current_git_dir)),
            &repo_current,
            &probes.repositories,
        );
        let wt_ok = restorable_flags(
            Ghost(v.worktrees.map_values(|r: WorktreeView| r.current_path)),
            &wt_current,
            &probes.worktrees,
        );
        let inst_ok = restorable_flags(
            Ghost(v.instances.map_values(|r: InstanceView| r.current_path)),
            &inst_current,
            &probes.instances,
        );
        proof {
            assert(repo_ok@ =~= Seq::new(v.repositories.len(), |i: int| restorable(v.repositories[i].current_git_dir, p.0[i])));
            assert(wt_ok@ =~= Seq::new(v.worktrees.len(), |i: int| restorable(v.worktrees[i].current_path, p.1[i])));
            assert(inst_ok@ =~= Seq::new(v.instances.len(), |i: int| restorable(v.instances[i].current_path, p.2[i])));
        }

        let mut repos = clone_repositories(&self.repositories);
        let c1 = release_stale_repositories(&mut repos, &probes.repositories);
        let c2 = restore_stale_repositories(&mut repos, &repo_ok);
        let mut worktrees = clone_worktrees(&self.worktrees);
        let c3 = release_stale_worktrees(&mut worktrees, &probes.worktrees);
        let c4 = restore_stale_worktrees(&mut worktrees, &wt_ok);
        let mut instances = clone_instances(&self.instances);
        let c5 = release_stale_instances(&mut instances, &probes.instances);
        let ghost v1 = first_passes(v, p).0;
        proof {
            assert(v1.instances == instances@.map_values(|y: ProjectInstanceRecord| y@));
            assert(v1.repositories == repos@.map_values(|y: RepositoryRecord| y@));
            assert(v1.worktrees == worktrees@.map_values(|y: WorktreeRecord| y@));
            assert(v1.legacy_paths == v.legacy_paths);
        }
        let order = reclaim_order(&instances, &self.legacy_paths);
        let ghost ord = order@.map_values(|q: usize| q as int);
        let mut legacy = clone_legacy(&self.legacy_paths);
        let mut unresolved = clone_unresolved(&self.unresolved_legacy);
        let mut cur = current_instances(&instances);
        let mut c6: usize = 0;
        let mut q: usize = 0;
        while q < order.len()
            invariant
                q <= order@.len(),
                ord == order@.map_values(|x: usize| x as int),
                restore_order(v1.instances, v.legacy_paths, ord),
                inst_ok@.len() == v1.instances.len(),
                instances@.len() == v1.instances.len(),
                ascending(instance_ids(instances@.map_values(|y: ProjectInstanceRecord| y@))),
                super::texts_ascending(super::legacy_keys(legacy@.map_values(|e: (String, ProjectInstanceId)| (e.0@, e.1)))),
                super::texts_ascending(super::unresolved_keys(unresolved@.map_values(|x: UnresolvedLegacyProject| x@))),
                restore_instances(v1, ord, inst_ok@, q as nat) == (
                    CatalogView {
                        instances: instances@.map_values(|y: ProjectInstanceRecord| y@),
                        legacy_paths: legacy@.map_values(|e: (String, ProjectInstanceId)| (e.0@, e.1)),
                        unresolved: unresolved@.map_values(|x: UnresolvedLegacyProject| x@),
                        ..v1
                    },
                    string_views(cur@).to_set(),
                    c6 as nat,
                ),
                c6 <= q,
                order@.len() <= v1.instances.len(),
            decreases order@.len() - q,
        {
            let i = order[q];
            proof {
                assert(ord[q as int] == i as int);
                assert(0 <= ord[q as int] < v1.instances.len());
            }
            let ghost iv = instances@.map_values(|y: ProjectInstanceRecord| y@);
            proof {
                assert(iv[i as int] == instances@[i as int]@);
            }
            let hit = super::validate::text_in(&cur, &instances[i].last_known_path);
            if !hit && inst_ok[i] {
                let path = instances[i].last_known_path.clone();
                let id = instances[i].id;
                let mut record = instances[i].clone();
                record.current_path = Some(path.clone());
                record.presence = CatalogPresence::Active;
                instances.set(i, record);
                proof {
                    assert(instances@.map_values(|y: ProjectInstanceRecord| y@) =~= iv.update(
                        i as int,
                        InstanceView { current_path: Some(iv[i as int].last_known_path), presence: CatalogPresence::Active, ..iv[i as int] },
                    ));
                    assert(instance_ids(instances@.map_values(|y: ProjectInstanceRecord| y@)) =~= instance_ids(iv));
                }
                put_legacy(&mut legacy, &path, id);
                drop_unresolved(&mut unresolved, &path);
                let ghost before = string_views(cur@);
                cur.push(path);
                proof {
                    assert(string_views(cur@) =~= before.push(iv[i as int].last_known_path));
                    before.lemma_push_to_set_commute(iv[i as int].last_known_path);
                }
                c6 = c6 + 1;
            }
            q = q + 1;
        }
        proof {
            assert(restore_order(first_passes(v, p).0.instances, v.legacy_paths, ord));
        }
        self.repositories = repos;
        self.worktrees = worktrees;
        self.instances = instances;
        self.legacy_paths = legacy;
        self.unresolved_legacy = unresolved;
        let changed = c1 + c2 + c3 + c4 + c5 + c6;
        match self.validate() {
            Ok(()) => Ok(changed),
            Err(e) => Err(e),
        }
    }
}

} // verus!
