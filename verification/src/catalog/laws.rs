//! Properties that hold across catalog operations.

use super::discovery::{
    adopted, discovery_applied, first_at, first_current_at, git_applied, next_instance, non_git_applied, registration_outcome,
    relocate, LocatorConflicts,
};
use super::lookup::{binding_index, bound_instance, resolved_instance};
use super::mutate::{binding_put, entries_without, instance_removed, lemma_entries_without};
use super::records::{InstanceView, ProjectDiscovery};
use super::tables::{
    instance_index, lemma_instance_index, lemma_text_position, legacy_put, retire_instances, text_position,
    unresolved_without, upsert_instance,
};
use super::validate::{catalog_valid, distinct_locators, has_instance, instances_ok};
use super::{ascending, binding_keys, instance_ids, legacy_keys, texts_ascending, CatalogError, CatalogView};
use crate::identity::{ProjectId, ProjectInstanceId};
use crate::text::lemma_lex_irreflexive;
use vstd::prelude::*;

verus! {

/// An absent identity has a place in an ascending list.
proof fn lemma_split_exists(ids: Seq<u128>, k: u128)
    requires
        ascending(ids),
        forall|i: int| 0 <= i < ids.len() ==> ids[i] != k,
    ensures
        exists|p: int| #[trigger] super::tables::splits_ids(ids, k, p),
    decreases ids.len(),
{
    if ids.len() == 0 {
        assert(super::tables::splits_ids(ids, k, 0));
    } else if ids.last() < k {
        assert(super::tables::splits_ids(ids, k, ids.len() as int));
    } else {
        let t = ids.drop_last();
        assert(ascending(t));
        lemma_split_exists(t, k);
        let p = choose|p: int| #[trigger] super::tables::splits_ids(t, k, p);
        assert(ids[ids.len() - 1] != k);
        assert forall|i: int| p <= i < ids.len() implies k < ids[i] by {
            if i < ids.len() - 1 {
                assert(t[i] == ids[i]);
            }
        }
        assert forall|i: int| 0 <= i < p implies ids[i] < k by {
            assert(t[i] == ids[i]);
        }
        assert(super::tables::splits_ids(ids, k, p));
    }
}

/// An inserted or replacing record is in an ordered table afterwards.
proof fn lemma_upsert_holds(s: Seq<InstanceView>, x: InstanceView)
    requires
        ascending(instance_ids(s)),
    ensures
        exists|k: int| 0 <= k < upsert_instance(s, x).len() && upsert_instance(s, x)[k] == x,
{
    match instance_index(s, x.id) {
        Some(i) => {
            let t = s.update(i, x);
            assert(0 <= i < s.len());
            assert(upsert_instance(s, x) == t);
            assert(t[i] == x);
        },
        None => {
            assert forall|i: int| 0 <= i < instance_ids(s).len() implies instance_ids(s)[i] != x.id.value by {
                assert(instance_ids(s)[i] == s[i].id.value);
            }
            lemma_split_exists(instance_ids(s), x.id.value);
            let p = super::tables::id_position(instance_ids(s), x.id.value);
            assert(super::tables::splits_ids(instance_ids(s), x.id.value, p));
            let t = s.insert(p, x);
            assert(upsert_instance(s, x) == t);
            assert(t[p] == x);
        },
    }
}

/// Retiring locators keeps every identity in place.
proof fn lemma_retire_ids(s: Seq<InstanceView>, path: Seq<char>, keep: ProjectInstanceId)
    ensures
        instance_ids(retire_instances(s, path, keep)) == instance_ids(s),
{
    assert(instance_ids(retire_instances(s, path, keep)) =~= instance_ids(s));
}

/// Moving paths into aliases leaves the instances alone.
proof fn lemma_adopted_instances(v: CatalogView, ps: Seq<Seq<char>>, id: ProjectInstanceId)
    ensures
        adopted(v, ps, id).instances == v.instances,
    decreases ps.len(),
{
    if ps.len() > 0 {
        lemma_adopted_instances(v, ps.drop_last(), id);
    }
}

/// The one instance currently at a path in a valid catalog is the first.
proof fn lemma_current_unique(v: CatalogView, k: int, p: Seq<char>)
    requires
        instances_ok(v),
        0 <= k < v.instances.len(),
        v.instances[k].current_path == Some(p),
    ensures
        first_current_at(v.instances, p) == Some(k),
        resolved_instance(v, p, p) == Some(v.instances[k].id),
{
    let s = v.instances;
    assert forall|j: int| 0 <= j < k implies s[j].current_path != Some(p) by {
        assert(distinct_locators(s[j].current_path, s[k].current_path));
    }
    assert(first_at(s, p, k));
    let q = choose|q: int| #[trigger] first_at(s, p, q);
    assert(first_at(s, p, q));
    if q > k {
        assert(s[k].current_path != Some(p));
    }
    if q < k {
        assert(s[q].current_path != Some(p));
    }
}

/// A detached non-Git instance at a path has a latest one.
proof fn lemma_latest_exists(s: Seq<InstanceView>, root: Seq<char>)
    requires
        ascending(instance_ids(s)),
        exists|i: int| 0 <= i < s.len() && super::discovery::detached_at(s[i], root),
    ensures
        exists|i: int| #[trigger] super::discovery::latest_at(s, root, i),
    decreases s.len(),
{
    let t = s.drop_last();
    let n = s.len() - 1;
    assert(ascending(instance_ids(t))) by {
        assert forall|a: int, b: int| 0 <= a < b < instance_ids(t).len() implies instance_ids(t)[a] < instance_ids(t)[b] by {
            assert(instance_ids(t)[a] == instance_ids(s)[a]);
            assert(instance_ids(t)[b] == instance_ids(s)[b]);
        }
    }
    if exists|i: int| 0 <= i < t.len() && super::discovery::detached_at(t[i], root) {
        lemma_latest_exists(t, root);
        let m = choose|m: int| #[trigger] super::discovery::latest_at(t, root, m);
        assert(instance_ids(s)[m] == s[m].id.value);
        assert(instance_ids(s)[n] == s[n].id.value);
        if super::discovery::detached_at(s[n], root) && super::discovery::seen_later(s[n], s[m]) {
            assert forall|j: int| 0 <= j < s.len() && j != n && #[trigger] super::discovery::detached_at(s[j], root) implies super::discovery::seen_later(
                s[n],
                s[j],
            ) by {
                assert(t[j] == s[j]);
                if j != m {
                    assert(super::discovery::seen_later(t[m], t[j]));
                }
            }
            assert(super::discovery::latest_at(s, root, n));
        } else {
            assert forall|j: int| 0 <= j < s.len() && j != m && #[trigger] super::discovery::detached_at(s[j], root) implies super::discovery::seen_later(
                s[m],
                s[j],
            ) by {
                if j < n {
                    assert(t[j] == s[j]);
                    assert(super::discovery::detached_at(t[j], root));
                }
            }
            assert(t[m] == s[m]);
            assert(super::discovery::latest_at(s, root, m));
        }
    } else {
        let i = choose|i: int| 0 <= i < s.len() && super::discovery::detached_at(s[i], root);
        if i < n {
            assert(t[i] == s[i]);
        }
        assert forall|j: int| 0 <= j < s.len() && j != n && #[trigger] super::discovery::detached_at(s[j], root) implies super::discovery::seen_later(
            s[n],
            s[j],
        ) by {
            assert(t[j] == s[j]);
        }
        assert(super::discovery::latest_at(s, root, n));
    }
}

/// An instance currently at a path has a first one.
proof fn lemma_first_exists(s: Seq<InstanceView>, p: Seq<char>)
    requires
        exists|i: int| 0 <= i < s.len() && s[i].current_path == Some(p),
    ensures
        exists|i: int| #[trigger] first_at(s, p, i),
    decreases s.len(),
{
    let t = s.drop_last();
    if exists|i: int| 0 <= i < t.len() && t[i].current_path == Some(p) {
        lemma_first_exists(t, p);
        let m = choose|m: int| #[trigger] first_at(t, p, m);
        assert forall|j: int| 0 <= j < m implies s[j].current_path != Some(p) by {
            assert(t[j] == s[j]);
        }
        assert(t[m] == s[m]);
        assert(first_at(s, p, m));
    } else {
        let i = choose|i: int| 0 <= i < s.len() && s[i].current_path == Some(p);
        assert forall|j: int| 0 <= j < s.len() - 1 implies s[j].current_path != Some(p) by {
            assert(t[j] == s[j]);
        }
        if i < s.len() - 1 {
            assert(t[i] == s[i]);
        }
        assert(first_at(s, p, s.len() - 1));
    }
}

/// The instance a non-Git discovery continues is catalogued.
proof fn lemma_continued_exists(v: CatalogView, root: Seq<char>)
    requires
        super::tables_ordered(v),
        super::discovery::continued_non_git(v, root) is Some,
    ensures
        exists|i: int| 0 <= i < v.instances.len() && v.instances[i].id == super::discovery::continued_non_git(v, root)->0,
{
    let s = v.instances;
    match first_current_at(s, root) {
        Some(i) if s[i].origin == super::records::ProjectInstanceOrigin::NonGit => {
            lemma_first_exists(s, root);
        },
        _ => {
            match super::discovery::aliased_non_git(v, root) {
                Some(id) => {},
                None => {
                    lemma_latest_exists(s, root);
                },
            }
        },
    }
}

/// An accepted discovery's instance is current at `root`, under the
/// supplied name when one was supplied.
pub open spec fn holds_at(
    r: Result<(CatalogView, ProjectInstanceId), super::discovery::GitRejection>,
    root: Seq<char>,
    dn: Option<Seq<char>>,
) -> bool {
    match r {
        Ok((nv, id)) => exists|k: int|
            0 <= k < nv.instances.len() && nv.instances[k].id == id && nv.instances[k].current_path == Some(root) && (
            dn is Some ==> nv.instances[k].display_name == dn),
        Err(_) => true,
    }
}

/// A reconciled discovery leaves its instance current at the project root.
proof fn lemma_applied_holds(
    v: CatalogView,
    d: ProjectDiscovery,
    dn: Option<Seq<char>>,
    pinned: bool,
    last_seen: u64,
    lp: Option<Seq<char>>,
    conflicts: LocatorConflicts,
    fresh: (ProjectId, ProjectInstanceId),
)
    requires
        super::tables_ordered(v),
        discovery_applied(v, d, dn, pinned, last_seen, lp, conflicts, fresh) is Ok,
    ensures
        holds_at(discovery_applied(v, d, dn, pinned, last_seen, lp, conflicts, fresh), super::records::discovery_root(d)@, dn),
{
    match d {
        ProjectDiscovery::Git { resolved, branch, head } => {
            let id = resolved.identity;
            let root = resolved.project_root@;
            let s = retire_instances(v.instances, root, id.project_instance_id);
            lemma_retire_ids(v.instances, root, id.project_instance_id);
            let g = git_applied(
                v,
                resolved,
                crate::availability::opt_view(branch),
                crate::availability::opt_view(head),
                dn,
                pinned,
                last_seen,
                conflicts,
            );
            assert(g is Ok);
            let x = match instance_index(s, id.project_instance_id) {
                Some(i) => {
                    let (c, l) = relocate(s[i].current_path, s[i].last_known_path, root);
                    InstanceView {
                        current_path: c,
                        last_known_path: l,
                        presence: super::records::CatalogPresence::Active,
                        display_name: super::discovery::renamed(s[i].display_name, dn),
                        pinned: s[i].pinned || pinned,
                        last_seen,
                        ..s[i]
                    }
                },
                None => InstanceView {
                    id: id.project_instance_id,
                    project_id: id.project_id,
                    origin: super::records::ProjectInstanceOrigin::Git { worktree_id: id.worktree_id },
                    current_path: Some(root),
                    last_known_path: root,
                    presence: super::records::CatalogPresence::Active,
                    display_name: dn,
                    pinned,
                    last_seen,
                    domain_slug: None,
                    domain_claims: Seq::empty(),
                },
            };
            assert(x.id == id.project_instance_id && x.current_path == Some(root));
            lemma_upsert_holds(s, x);
            assert(g->Ok_0.instances == upsert_instance(s, x));
            let k = choose|k: int| 0 <= k < upsert_instance(s, x).len() && upsert_instance(s, x)[k] == x;
            let (nv, rid) = discovery_applied(v, d, dn, pinned, last_seen, lp, conflicts, fresh)->Ok_0;
            assert(nv.instances == g->Ok_0.instances);
            assert(rid == id.project_instance_id);
            assert(nv.instances[k] == x);
            assert(super::records::discovery_root(d)@ == root);
            assert(0 <= k < nv.instances.len() && nv.instances[k].id == rid && nv.instances[k].current_path == Some(root));
            assert(dn is Some ==> nv.instances[k].display_name == dn);
            assert(exists|k2: int|
                0 <= k2 < nv.instances.len() && nv.instances[k2].id == rid && nv.instances[k2].current_path == Some(
                    super::records::discovery_root(d)@,
                ) && (dn is Some ==> nv.instances[k2].display_name == dn));
        },
        ProjectDiscovery::NonGit { project_root } => {
            let root = project_root@;
            let (nv, eid) = non_git_applied(v, root, dn, pinned, last_seen, fresh);
            match super::discovery::continued_non_git(v, root) {
                Some(e) => {
                    let s = retire_instances(v.instances, root, e);
                    lemma_retire_ids(v.instances, root, e);
                    match instance_index(s, e) {
                        Some(j) => {
                            let x = InstanceView {
                                display_name: super::discovery::renamed(s[j].display_name, dn),
                                pinned: s[j].pinned || pinned,
                                last_seen,
                                current_path: Some(root),
                                presence: super::records::CatalogPresence::Active,
                                ..s[j]
                            };
                            lemma_upsert_holds(s, x);
                        },
                        None => {
                            lemma_continued_exists(v, root);
                            let i = choose|i: int| 0 <= i < v.instances.len() && v.instances[i].id == e;
                            assert(instance_ids(s)[i] == instance_ids(v.instances)[i]);
                            assert(s[i].id.value == v.instances[i].id.value);
                            assert(s[i].id == e);
                        },
                    }
                },
                None => {
                    let s = retire_instances(v.instances, root, fresh.1);
                    lemma_retire_ids(v.instances, root, fresh.1);
                    let x = InstanceView {
                        id: fresh.1,
                        project_id: fresh.0,
                        origin: super::records::ProjectInstanceOrigin::NonGit,
                        current_path: Some(root),
                        last_known_path: root,
                        presence: super::records::CatalogPresence::Active,
                        display_name: dn,
                        pinned,
                        last_seen,
                        domain_slug: None,
                        domain_claims: Seq::empty(),
                    };
                    lemma_upsert_holds(s, x);
                },
            }
        },
    }
}

/// Registering a project makes its root resolve to the returned instance:
/// a lookup of the root after a successful registration finds exactly the
/// identity the registration handed out, that instance is active there, no
/// other instance still claims the root, and the catalog is valid.
pub proof fn lemma_registered_root_resolves(
    old: CatalogView,
    new: CatalogView,
    r: Result<ProjectInstanceId, CatalogError>,
    discovery: ProjectDiscovery,
    display_name: Option<Seq<char>>,
    now: u64,
    conflicts: LocatorConflicts,
    fresh: (ProjectId, ProjectInstanceId),
    matching: Seq<Seq<char>>,
)
    requires
        super::tables_ordered(old),
        registration_outcome(old, new, r, discovery, display_name, now, conflicts, fresh, matching),
        r is Ok,
    ensures
        resolved_instance(new, super::records::discovery_root(discovery)@, super::records::discovery_root(discovery)@)
            == Some(r->Ok_0),
        super::validate::catalog_valid(new),
        exists|k: int|
            0 <= k < new.instances.len() && (#[trigger] new.instances[k]).id == r->Ok_0 && new.instances[k].current_path
                == Some(super::records::discovery_root(discovery)@) && new.instances[k].presence
                == super::records::CatalogPresence::Active,
        forall|j: int|
            0 <= j < new.instances.len() && (#[trigger] new.instances[j]).current_path == Some(
                super::records::discovery_root(discovery)@,
            ) ==> new.instances[j].id == r->Ok_0,
{
    let u = old.unresolved;
    let name = if display_name is Some {
        display_name
    } else {
        super::discovery::first_found_name(u, matching)
    };
    let pinned = super::discovery::any_found_pinned(u, matching);
    let applied = discovery_applied(old, discovery, name, pinned, now, None, conflicts, fresh);
    let root = super::records::discovery_root(discovery)@;
    match applied {
        Ok((nv, id)) => {
            lemma_applied_holds(old, discovery, name, pinned, now, None, conflicts, fresh);
            let k = choose|k: int| 0 <= k < nv.instances.len() && nv.instances[k].id == id && nv.instances[k].current_path == Some(root);
            let fv = adopted(nv, super::discovery::found_paths(u, matching), id);
            lemma_adopted_instances(nv, super::discovery::found_paths(u, matching), id);
            assert(new == fv);
            assert(fv.instances[k].current_path == Some(root));
            lemma_current_unique(fv, k, root);
            assert(super::validate::instance_ok(fv, k));
            assert forall|j: int|
                0 <= j < fv.instances.len() && (#[trigger] fv.instances[j]).current_path == Some(root) implies fv.instances[j].id
                    == id by {
                if j != k {
                    if j < k {
                        assert(super::validate::distinct_locators(fv.instances[j].current_path, fv.instances[k].current_path));
                    } else {
                        assert(super::validate::distinct_locators(fv.instances[k].current_path, fv.instances[j].current_path));
                    }
                }
            }
        },
        Err(_) => {},
    }
}

/// A bound conversation resolves to its instance, so binding it again to
/// the same instance changes nothing and reports no new binding.
pub proof fn lemma_bound_after_binding(old: CatalogView, key: Seq<char>, id: ProjectInstanceId)
    requires
        texts_ascending(binding_keys(old.bindings)),
        binding_index(old.bindings, key) is None,
    ensures
        bound_instance(CatalogView { bindings: binding_put(old.bindings, key, id), ..old }, key) == Some(id),
{
    let s = old.bindings;
    let keys = binding_keys(s);
    assert forall|i: int| 0 <= i < keys.len() implies keys[i] != key by {
        assert(keys[i] == s[i].0);
    }
    super::laws::lemma_text_split_exists(keys, key);
    let p = text_position(keys, key);
    assert(super::tables::splits_texts(keys, key, p));
    lemma_text_position(keys, key, p);
    let t = s.insert(p, (key, id));
    assert(binding_keys(t) =~= keys.insert(p, key));
    assert(t[p] == (key, id));
    let j = choose|j: int| 0 <= j < t.len() && t[j].0 == key;
    assert(binding_keys(t)[j] == t[j].0);
    assert(binding_keys(t)[p] == t[p].0);
    lemma_lex_irreflexive(key);
}

/// An absent text has a place in an ascending list.
pub proof fn lemma_text_split_exists(keys: Seq<Seq<char>>, t: Seq<char>)
    requires
        texts_ascending(keys),
        forall|i: int| 0 <= i < keys.len() ==> keys[i] != t,
    ensures
        exists|p: int| #[trigger] super::tables::splits_texts(keys, t, p),
    decreases keys.len(),
{
    if keys.len() == 0 {
        assert(super::tables::splits_texts(keys, t, 0));
    } else {
        crate::text::lemma_lex_total(keys.last(), t);
        if crate::text::lex_lt(keys.last(), t) {
            assert forall|i: int| 0 <= i < keys.len() implies crate::text::lex_lt(keys[i], t) by {
                if i < keys.len() - 1 {
                    crate::text::lemma_lex_transitive(keys[i], keys.last(), t);
                }
            }
            assert(super::tables::splits_texts(keys, t, keys.len() as int));
        } else {
            let s = keys.drop_last();
            assert(texts_ascending(s));
            lemma_text_split_exists(s, t);
            let p = choose|p: int| #[trigger] super::tables::splits_texts(s, t, p);
            assert forall|i: int| p <= i < keys.len() implies crate::text::lex_lt(t, keys[i]) by {
                if i < keys.len() - 1 {
                    assert(s[i] == keys[i]);
                }
            }
            assert forall|i: int| 0 <= i < p implies crate::text::lex_lt(keys[i], t) by {
                assert(s[i] == keys[i]);
            }
            assert(super::tables::splits_texts(keys, t, p));
        }
    }
}

/// Forgetting an instance leaves nothing that names it: no record, no
/// path alias, and no agent binding.
pub proof fn lemma_forgotten_instance_unreferenced(old: CatalogView, id: ProjectInstanceId)
    requires
        super::tables_ordered(old),
        catalog_valid(old),
    ensures
        !has_instance(instance_removed(old, id), id),
        forall|k: int|
            0 <= k < instance_removed(old, id).legacy_paths.len() ==> (#[trigger] instance_removed(old, id).legacy_paths[k]).1 != id,
        forall|k: int| 0 <= k < instance_removed(old, id).bindings.len() ==> (#[trigger] instance_removed(old, id).bindings[k]).1 != id,
{
    let s = old.instances;
    match instance_index(s, id) {
        None => {
            assert(!has_instance(old, id)) by {
                if has_instance(old, id) {
                    let j = choose|j: int| 0 <= j < s.len() && s[j].id == id;
                }
            }
            assert forall|k: int| 0 <= k < old.legacy_paths.len() implies (#[trigger] old.legacy_paths[k]).1 != id by {
                assert(super::validate::legacy_ok(old, k));
            }
            assert forall|k: int| 0 <= k < old.bindings.len() implies (#[trigger] old.bindings[k]).1 != id by {
                assert(has_instance(old, old.bindings[k].1));
            }
        },
        Some(i) => {
            lemma_entries_without(old.legacy_paths, id);
            lemma_entries_without(old.bindings, id);
            let t = s.remove(i);
            assert(s[i].id == id);
            assert forall|j: int| 0 <= j < t.len() implies t[j].id != id by {
                let j2 = if j < i { j } else { j + 1 };
                assert(t[j] == s[j2]);
                assert(instance_ids(s)[j2] == s[j2].id.value);
                assert(instance_ids(s)[i] == s[i].id.value);
            }
        },
    }
}

proof fn lemma_upsert_project_holds(s: Seq<super::records::ProjectView>, x: super::records::ProjectView)
    requires
        ascending(super::project_ids(s)),
    ensures
        exists|k: int| 0 <= k < super::tables::upsert_project(s, x).len() && super::tables::upsert_project(s, x)[k] == x,
{
    match super::tables::project_index(s, x.id) {
        Some(i) => {
            let t = s.update(i, x);
            assert(super::tables::upsert_project(s, x) == t);
            assert(t[i] == x);
        },
        None => {
            assert forall|i: int| 0 <= i < super::project_ids(s).len() implies super::project_ids(s)[i] != x.id.value by {
                assert(super::project_ids(s)[i] == s[i].id.value);
            }
            lemma_split_exists(super::project_ids(s), x.id.value);
            let p = super::tables::id_position(super::project_ids(s), x.id.value);
            let t = s.insert(p, x);
            assert(super::tables::upsert_project(s, x) == t);
            assert(t[p] == x);
        },
    }
}

/// A supplied display name replaces the recorded one: after a successful
/// registration with `Some(n)`, the registered instance, current at the
/// project root, is named `n` whatever name it had before.
pub proof fn lemma_registration_applies_supplied_name(
    old: CatalogView,
    new: CatalogView,
    r: Result<ProjectInstanceId, CatalogError>,
    discovery: ProjectDiscovery,
    n: Seq<char>,
    now: u64,
    conflicts: LocatorConflicts,
    fresh: (ProjectId, ProjectInstanceId),
    matching: Seq<Seq<char>>,
)
    requires
        super::tables_ordered(old),
        registration_outcome(old, new, r, discovery, Some(n), now, conflicts, fresh, matching),
        r is Ok,
    ensures
        exists|k: int|
            0 <= k < new.instances.len() && (#[trigger] new.instances[k]).id == r->Ok_0 && new.instances[k].display_name
                == Some(n) && new.instances[k].current_path == Some(super::records::discovery_root(discovery)@),
        discovery matches ProjectDiscovery::Git { resolved, .. } ==> exists|j: int|
            0 <= j < new.projects.len() && (#[trigger] new.projects[j]).id == resolved.identity.project_id
                && new.projects[j].display_name == Some(n),
{
    let u = old.unresolved;
    let pinned = super::discovery::any_found_pinned(u, matching);
    let applied = discovery_applied(old, discovery, Some(n), pinned, now, None, conflicts, fresh);
    let root = super::records::discovery_root(discovery)@;
    match applied {
        Ok((nv, id)) => {
            lemma_applied_holds(old, discovery, Some(n), pinned, now, None, conflicts, fresh);
            let k = choose|k: int|
                0 <= k < nv.instances.len() && nv.instances[k].id == id && nv.instances[k].current_path == Some(root) && (
                Some(n) is Some ==> nv.instances[k].display_name == Some(n));
            let fv = adopted(nv, super::discovery::found_paths(u, matching), id);
            lemma_adopted_instances(nv, super::discovery::found_paths(u, matching), id);
            assert(new == fv);
            assert(fv.instances[k] == nv.instances[k]);
            lemma_adopted_projects(nv, super::discovery::found_paths(u, matching), id);
            match discovery {
                ProjectDiscovery::Git { resolved, branch, head } => {
                    let rid = resolved.identity;
                    let origin = super::records::OriginView::Git {
                        repository_id: rid.repository_id,
                        repository_relative_root: resolved.repository_relative_project_root@,
                    };
                    let g = git_applied(
                        old,
                        resolved,
                        crate::availability::opt_view(branch),
                        crate::availability::opt_view(head),
                        Some(n),
                        pinned,
                        now,
                        conflicts,
                    );
                    assert(g is Ok);
                    let x = match super::tables::project_index(old.projects, rid.project_id) {
                        Some(i) => super::records::ProjectView {
                            display_name: super::discovery::renamed(old.projects[i].display_name, Some(n)),
                            ..old.projects[i]
                        },
                        None => super::records::ProjectView { id: rid.project_id, origin, display_name: Some(n) },
                    };
                    if let Some(i) = super::tables::project_index(old.projects, rid.project_id) {
                        assert(old.projects[i].id == rid.project_id);
                    }
                    lemma_upsert_project_holds(old.projects, x);
                    assert(nv.projects == g->Ok_0.projects);
                    assert(g->Ok_0.projects == super::tables::upsert_project(old.projects, x));
                    let j = choose|j: int|
                        0 <= j < super::tables::upsert_project(old.projects, x).len() && super::tables::upsert_project(
                            old.projects,
                            x,
                        )[j] == x;
                    assert(new.projects[j] == x);
                },
                _ => {},
            }
        },
        Err(_) => {},
    }
}

proof fn lemma_adopted_projects(v: CatalogView, ps: Seq<Seq<char>>, id: ProjectInstanceId)
    ensures
        adopted(v, ps, id).projects == v.projects,
    decreases ps.len(),
{
    if ps.len() > 0 {
        lemma_adopted_projects(v, ps.drop_last(), id);
    }
}

} // verus!
