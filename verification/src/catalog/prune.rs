//! Cleaning: forgetting the missing projects nothing keeps, once presence
//! has been reconciled.

use super::mutate::{instance_removed, without_all};
use super::records::{CatalogPresence, ProjectInstanceOrigin, ProjectInstanceRecord, UnresolvedLegacyProject};
use super::tables::{clone_unresolved, drop_unresolved};
use super::validate::{catalog_valid, validation_error};
use super::{binding_keys, legacy_keys, texts_ascending, unresolved_keys, CatalogError, CatalogView, ProjectCatalog};
use crate::domain::{replaced_exact, replaced_wildcards, replacement_accepted, string_views, DomainTarget};
use crate::agent::AgentConversationKey;
use crate::identity::ProjectInstanceId;
use vstd::prelude::*;

verus! {

/// Whether an agent conversation is bound to `id`.
pub open spec fn bound_to(bindings: Seq<(Seq<char>, ProjectInstanceId)>, id: ProjectInstanceId) -> bool {
    exists|j: int| 0 <= j < bindings.len() && #[trigger] bindings[j].1 == id
}

/// Whether cleaning forgets instance `i`: it is missing, unpinned, bound to
/// no conversation, and, for a git instance, its last-known locator no
/// longer hosts it (`hosted[i]`).
pub open spec fn prunable(v: CatalogView, hosted: Seq<bool>, i: int) -> bool {
    let r = v.instances[i];
    &&& r.presence == CatalogPresence::Missing
    &&& !r.pinned
    &&& !bound_to(v.bindings, r.id)
    &&& (r.origin is Git ==> !hosted[i])
}

/// The instances cleaning forgets among the first `n`, in table order.
pub open spec fn forgettable(v: CatalogView, hosted: Seq<bool>, n: int) -> Seq<ProjectInstanceId>
    decreases n,
{
    if n <= 0 {
        Seq::empty()
    } else if prunable(v, hosted, n - 1) {
        forgettable(v, hosted, n - 1).push(v.instances[n - 1].id)
    } else {
        forgettable(v, hosted, n - 1)
    }
}

/// The unresolved legacy paths cleaning forgets among the first `n`: those
/// unpinned whose locator is gone (`!exists[i]`), in table order.
pub open spec fn stale_unresolved(v: CatalogView, exists: Seq<bool>, n: int) -> Seq<Seq<char>>
    decreases n,
{
    if n <= 0 {
        Seq::empty()
    } else if !v.unresolved[n - 1].pinned && !exists[n - 1] {
        stale_unresolved(v, exists, n - 1).push(v.unresolved[n - 1].path)
    } else {
        stale_unresolved(v, exists, n - 1)
    }
}

/// The catalog after forgetting each instance of `ids` in turn (domain
/// claims aside).
pub open spec fn removed_all(v: CatalogView, ids: Seq<ProjectInstanceId>) -> CatalogView
    decreases ids.len(),
{
    if ids.len() == 0 {
        v
    } else {
        instance_removed(removed_all(v, ids.drop_last()), ids.last())
    }
}

/// Exact domain claims after releasing each instance of `ids` in turn.
pub open spec fn exact_after(m: Map<Seq<char>, DomainTarget>, ids: Seq<ProjectInstanceId>) -> Map<Seq<char>, DomainTarget>
    decreases ids.len(),
{
    if ids.len() == 0 {
        m
    } else {
        replaced_exact(exact_after(m, ids.drop_last()), ids.last(), Seq::empty())
    }
}

/// Wildcard domain claims after releasing each instance of `ids` in turn.
pub open spec fn wildcards_after(
    m: Map<Seq<char>, DomainTarget>,
    w: Map<Seq<char>, DomainTarget>,
    ids: Seq<ProjectInstanceId>,
) -> Map<Seq<char>, DomainTarget>
    decreases ids.len(),
{
    if ids.len() == 0 {
        w
    } else {
        replaced_wildcards(wildcards_after(m, w, ids.drop_last()), ids.last(), Seq::empty())
    }
}

/// Whether the domain index accepts releasing each instance of `ids` in turn.
pub open spec fn releases_accepted(
    m: Map<Seq<char>, DomainTarget>,
    w: Map<Seq<char>, DomainTarget>,
    ids: Seq<ProjectInstanceId>,
) -> bool
    decreases ids.len(),
{
    if ids.len() == 0 {
        true
    } else {
        releases_accepted(m, w, ids.drop_last()) && replacement_accepted(
            exact_after(m, ids.drop_last()),
            wildcards_after(m, w, ids.drop_last()),
            ids.last(),
            Seq::empty(),
        )
    }
}

/// The catalog after cleaning (domain claims aside).
pub open spec fn pruned(v: CatalogView, ids: Seq<ProjectInstanceId>, paths: Seq<Seq<char>>) -> CatalogView {
    CatalogView { unresolved: without_all(removed_all(v, ids).unresolved, paths), ..removed_all(v, ids) }
}

impl ProjectCatalog {
    /// Forget, once `reconcile_missing` has run, every missing instance that
    /// nothing keeps (see `prunable`; `hosted[i]` answers whether instance
    /// `i`'s last-known locator still hosts it) and every unpinned
    /// unresolved legacy path whose locator is gone (`exists[i]` for entry
    /// `i`). Returns how many records went.
    pub fn prune_missing_projects(&mut self, hosted: &Vec<bool>, exists: &Vec<bool>) -> (r: Result<usize, CatalogError>)
        requires
            hosted@.len() == old(self)@.instances.len(),
            exists@.len() == old(self)@.unresolved.len(),
            old(self)@.instances.len() + old(self)@.unresolved.len() <= usize::MAX,
        ensures
            ({
                let v = old(self)@;
                let ids = forgettable(v, hosted@, v.instances.len() as int);
                let paths = stale_unresolved(v, exists@, v.unresolved.len() as int);
                let m = v.domain_index.exact_map();
                let w = v.domain_index.wildcard_map();
                &&& !releases_accepted(m, w, ids) ==> (r matches Err(CatalogError::Domain(_)))
                &&& releases_accepted(m, w, ids) ==> {
                    &&& final(self)@ == (CatalogView { domain_index: final(self)@.domain_index, ..pruned(v, ids, paths) })
                    &&& final(self)@.domain_index.exact_map() == exact_after(m, ids)
                    &&& final(self)@.domain_index.wildcard_map() == wildcards_after(m, w, ids)
                    &&& (r is Ok <==> catalog_valid(final(self)@))
                    &&& (r matches Ok(n) ==> n == ids.len() + paths.len())
                    &&& (r matches Err(e) ==> validation_error(e))
                }
            }),
    {
        proof {
            use_type_invariant(&*self);
        }
        let ghost v = self@;
        let ghost m = v.domain_index.exact_map();
        let ghost w = v.domain_index.wildcard_map();
        // Which instances go, decided on the catalog as reconciled.
        let mut ids: Vec<ProjectInstanceId> = Vec::new();
        let mut i: usize = 0;
        while i < self.instances.len()
            invariant
                i <= self.instances@.len(),
                v == self@,
                v.instances == self.instances@.map_values(|y: ProjectInstanceRecord| y@),
                hosted@.len() == v.instances.len(),
                ids@ == forgettable(v, hosted@, i as int),
                ids@.len() <= i,
            decreases self.instances@.len() - i,
        {
            let record = &self.instances[i];
            proof {
                assert(v.instances[i as int] == record@);
            }
            let mut keep = record.presence != CatalogPresence::Missing || record.pinned;
            if !keep {
                proof {
                    assert(v.bindings =~= self.agent_bindings@.map_values(|e: (AgentConversationKey, ProjectInstanceId)| (e.0@, e.1)));
                }
                keep = bound_somewhere(&self.agent_bindings, record.id);
            }
            if !keep {
                match record.origin {
                    ProjectInstanceOrigin::Git { .. } => {
                        if hosted[i] {
                            keep = true;
                        }
                    },
                    ProjectInstanceOrigin::NonGit => {},
                }
            }
            if !keep {
                ids.push(record.id);
            }
            proof {
                assert(keep == !prunable(v, hosted@, i as int));
            }
            i = i + 1;
        }
        let mut paths: Vec<String> = Vec::new();
        let mut k: usize = 0;
        while k < self.unresolved_legacy.len()
            invariant
                k <= self.unresolved_legacy@.len(),
                v == self@,
                v.unresolved == self.unresolved_legacy@.map_values(|y: UnresolvedLegacyProject| y@),
                exists@.len() == v.unresolved.len(),
                string_views(paths@) == stale_unresolved(v, exists@, k as int),
                paths@.len() <= k,
            decreases self.unresolved_legacy@.len() - k,
        {
            proof {
                assert(v.unresolved[k as int] == self.unresolved_legacy@[k as int]@);
            }
            if !self.unresolved_legacy[k].pinned && !exists[k] {
                let ghost before = paths@;
                paths.push(self.unresolved_legacy[k].path.clone());
                proof {
                    assert(string_views(paths@) =~= string_views(before).push(v.unresolved[k as int].path));
                }
            }
            k = k + 1;
        }
        let ghost gone = ids@;
        let ghost stale = string_views(paths@);
        // Forget the instances one by one.
        let mut n: usize = 0;
        proof {
            assert(gone.take(0) =~= Seq::<ProjectInstanceId>::empty());
            assert(self@ == (CatalogView { domain_index: self@.domain_index, ..removed_all(v, gone.take(0)) }));
        }
        while n < ids.len()
            invariant
                n <= ids@.len(),
                gone == ids@,
                releases_accepted(m, w, gone.take(n as int)),
                self@ == (CatalogView { domain_index: self@.domain_index, ..removed_all(v, gone.take(n as int)) }),
                self@.domain_index.exact_map() == exact_after(m, gone.take(n as int)),
                self@.domain_index.wildcard_map() == wildcards_after(m, w, gone.take(n as int)),
                self@.unresolved == v.unresolved,
                gone.len() <= v.instances.len(),
                stale.len() <= v.unresolved.len(),
                v.instances.len() + v.unresolved.len() <= usize::MAX,
                gone == forgettable(v, hosted@, v.instances.len() as int),
                stale == stale_unresolved(v, exists@, v.unresolved.len() as int),
                stale == string_views(paths@),
                v == old(self)@,
                m == v.domain_index.exact_map(),
                w == v.domain_index.wildcard_map(),
            decreases ids@.len() - n,
        {
            proof {
                assert(gone.take(n + 1).drop_last() =~= gone.take(n as int));
                assert(gone.take(n + 1).last() == gone[n as int]);
            }
            match self.remove_instance(ids[n]) {
                Ok(()) => {},
                Err(e) => {
                    proof {
                        lemma_releases_stay_refused(m, w, gone, n as int + 1);
                    }
                    return Err(e);
                },
            }
            n = n + 1;
        }
        proof {
            assert(gone.take(gone.len() as int) =~= gone);
            use_type_invariant(&*self);
        }
        // Forget the stale unresolved paths.
        let mut unresolved = clone_unresolved(&self.unresolved_legacy);
        let ghost us = unresolved@.map_values(|x: UnresolvedLegacyProject| x@);
        let mut q: usize = 0;
        proof {
            assert(stale.take(0) =~= Seq::<Seq<char>>::empty());
        }
        while q < paths.len()
            invariant
                q <= paths@.len(),
                stale == string_views(paths@),
                texts_ascending(unresolved_keys(unresolved@.map_values(|x: UnresolvedLegacyProject| x@))),
                unresolved@.map_values(|x: UnresolvedLegacyProject| x@) == without_all(us, stale.take(q as int)),
                ids@.len() <= v.instances.len(),
                paths@.len() <= v.unresolved.len(),
                v.instances.len() + v.unresolved.len() <= usize::MAX,
            decreases paths@.len() - q,
        {
            drop_unresolved(&mut unresolved, &paths[q]);
            proof {
                assert(stale.take(q + 1).drop_last() =~= stale.take(q as int));
                assert(stale.take(q + 1).last() == paths@[q as int]@);
            }
            q = q + 1;
        }
        proof {
            assert(stale.take(stale.len() as int) =~= stale);
        }
        self.unresolved_legacy = unresolved;
        match self.validate() {
            Ok(()) => Ok(ids.len() + paths.len()),
            Err(e) => Err(e),
        }
    }
}

/// Instance `id` is among the first `n` and cleaning forgets it.
pub open spec fn forgets(v: CatalogView, hosted: Seq<bool>, n: int, id: ProjectInstanceId) -> bool {
    exists|i: int| 0 <= i < n && v.instances[i].id == id && #[trigger] prunable(v, hosted, i)
}

/// Cleaning forgets only instances that are missing, unpinned, bound to no
/// agent conversation, and, when git-backed, no longer hosted where they
/// were last seen: a pinned, present, or agent-bound instance survives.
pub proof fn lemma_cleaning_spares_kept_instances(v: CatalogView, hosted: Seq<bool>, n: int)
    requires
        0 <= n <= v.instances.len(),
    ensures
        forall|k: int| 0 <= k < forgettable(v, hosted, n).len() ==> forgets(v, hosted, n, #[trigger] forgettable(v, hosted, n)[k]),
    decreases n,
{
    if n > 0 {
        lemma_cleaning_spares_kept_instances(v, hosted, n - 1);
        let f = forgettable(v, hosted, n);
        let g = forgettable(v, hosted, n - 1);
        assert forall|k: int| 0 <= k < f.len() implies forgets(v, hosted, n, #[trigger] f[k]) by {
            if k < g.len() {
                assert(f[k] == g[k]);
                assert(forgets(v, hosted, n - 1, g[k]));
                let i = choose|i: int| 0 <= i < n - 1 && v.instances[i].id == g[k] && #[trigger] prunable(v, hosted, i);
                assert(prunable(v, hosted, i));
            } else {
                assert(prunable(v, hosted, n - 1));
            }
        }
    }
}

/// Whether some conversation is bound to `id`.
fn bound_somewhere(bindings: &Vec<(AgentConversationKey, ProjectInstanceId)>, id: ProjectInstanceId) -> (r: bool)
    ensures
        r == bound_to(bindings@.map_values(|e: (AgentConversationKey, ProjectInstanceId)| (e.0@, e.1)), id),
{
    let ghost b = bindings@.map_values(|e: (AgentConversationKey, ProjectInstanceId)| (e.0@, e.1));
    let mut j: usize = 0;
    while j < bindings.len()
        invariant
            j <= bindings@.len(),
            b == bindings@.map_values(|e: (AgentConversationKey, ProjectInstanceId)| (e.0@, e.1)),
            forall|q: int| 0 <= q < j ==> b[q].1 != id,
        decreases bindings@.len() - j,
    {
        assert(b[j as int].1 == bindings@[j as int].1);
        if bindings[j].1 == id {
            return true;
        }
        j = j + 1;
    }
    false
}

/// Once a release is refused, releasing more never succeeds.
proof fn lemma_releases_stay_refused(
    m: Map<Seq<char>, DomainTarget>,
    w: Map<Seq<char>, DomainTarget>,
    ids: Seq<ProjectInstanceId>,
    n: int,
)
    requires
        0 < n <= ids.len(),
        !releases_accepted(m, w, ids.take(n)),
    ensures
        !releases_accepted(m, w, ids),
    decreases ids.len() - n,
{
    if n < ids.len() {
        assert(ids.take(n + 1).drop_last() =~= ids.take(n));
        lemma_releases_stay_refused(m, w, ids, n + 1);
    } else {
        assert(ids.take(n) =~= ids);
    }
}

} // verus!
