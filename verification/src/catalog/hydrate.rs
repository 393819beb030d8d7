//! Building the domain index of a catalog written before it had one, from
//! each instance's flat list of claimed names.

use super::records::{InstanceView, ProjectInstanceRecord};
use super::tables::clone_instances;
use super::{instance_ids, CatalogError, CatalogView, ProjectCatalog};
use crate::domain::{
    platform_map, replaced_exact, replaced_wildcards, replacement_accepted, requested_map, spec_instance_domains,
    spec_parse_domain_name, string_views, DomainClaim, DomainIndex, DomainName, DomainTarget,
};
use crate::identity::ProjectInstanceId;
use vstd::prelude::*;

verus! {

/// `d` claims `names` for `id` the legacy way: one primary, service-less,
/// exact claim per name, in order, each naming the canonical form of its
/// name.
pub open spec fn legacy_claims_for(d: Seq<DomainClaim>, names: Seq<Seq<char>>, id: ProjectInstanceId) -> bool {
    &&& d.len() == names.len()
    &&& forall|i: int|
        0 <= i < d.len() ==> (#[trigger] d[i]).domain is Exact && spec_parse_domain_name(names[i]) == Ok::<
            Seq<char>,
            Seq<char>,
        >(d[i].domain.spec_domain()@) && d[i].target == (DomainTarget::Service {
            project_instance_id: id,
            service_name: None,
            primary: true,
        })
}

/// Every name parses as an exact hostname.
pub open spec fn names_parse(names: Seq<Seq<char>>) -> bool {
    forall|i: int| 0 <= i < names.len() ==> (#[trigger] spec_parse_domain_name(names[i])) is Ok
}

/// The legacy claims of `names` for `id`.
pub open spec fn legacy_claims(names: Seq<Seq<char>>, id: ProjectInstanceId) -> Seq<DomainClaim> {
    choose|d: Seq<DomainClaim>| legacy_claims_for(d, names, id)
}

/// The exact and wildcard claims after hydrating the first `n` instances in
/// order, starting from the platform defaults; none once a name does not
/// parse or a replacement is refused.
pub open spec fn hydration(v: CatalogView, n: int) -> Option<(Map<Seq<char>, DomainTarget>, Map<Seq<char>, DomainTarget>)>
    decreases n,
{
    if n <= 0 {
        Some((platform_map(), Map::empty()))
    } else {
        match hydration(v, n - 1) {
            None => None,
            Some((m, w)) => {
                let r = v.instances[n - 1];
                if !names_parse(r.domain_claims) {
                    None
                } else {
                    let d = legacy_claims(r.domain_claims, r.id);
                    if replacement_accepted(m, w, r.id, d) {
                        Some((replaced_exact(m, r.id, d), replaced_wildcards(w, r.id, d)))
                    } else {
                        None
                    }
                }
            }
        }
    }
}

/// Two claim lists that claim the same names the same way request the
/// same domains.
proof fn lemma_legacy_requests_agree(d: Seq<DomainClaim>, e: Seq<DomainClaim>, names: Seq<Seq<char>>, id: ProjectInstanceId, k: int, exact: bool)
    requires
        legacy_claims_for(d, names, id),
        legacy_claims_for(e, names, id),
        0 <= k <= d.len(),
    ensures
        requested_map(d.take(k), exact) == requested_map(e.take(k), exact),
    decreases k,
{
    if k > 0 {
        lemma_legacy_requests_agree(d, e, names, id, k - 1, exact);
        assert(d.take(k).drop_last() =~= d.take(k - 1));
        assert(e.take(k).drop_last() =~= e.take(k - 1));
        assert(d[k - 1].domain is Exact && e[k - 1].domain is Exact);
        assert(d[k - 1].domain.spec_domain()@ == e[k - 1].domain.spec_domain()@);
    } else {
        assert(d.take(0) =~= e.take(0));
    }
}

/// Replacing an instance's claims with either of two such lists gives the
/// same result.
proof fn lemma_legacy_claims_agree(
    m: Map<Seq<char>, DomainTarget>,
    w: Map<Seq<char>, DomainTarget>,
    d: Seq<DomainClaim>,
    e: Seq<DomainClaim>,
    names: Seq<Seq<char>>,
    id: ProjectInstanceId,
)
    requires
        legacy_claims_for(d, names, id),
        legacy_claims_for(e, names, id),
    ensures
        replacement_accepted(m, w, id, d) == replacement_accepted(m, w, id, e),
        replaced_exact(m, id, d) == replaced_exact(m, id, e),
        replaced_wildcards(w, id, d) == replaced_wildcards(w, id, e),
{
    lemma_legacy_requests_agree(d, e, names, id, d.len() as int, true);
    lemma_legacy_requests_agree(d, e, names, id, d.len() as int, false);
    assert(d.take(d.len() as int) =~= d);
    assert(e.take(e.len() as int) =~= e);
    assert forall|i: int| 0 <= i < d.len() implies requested_map(d.take(i), d[i].domain is Exact) == requested_map(
        e.take(i),
        e[i].domain is Exact,
    ) by {
        lemma_legacy_requests_agree(d, e, names, id, i, true);
    }
    assert forall|i: int| 0 <= i < d.len() implies crate::domain::claim_rejected(d, id, i) == crate::domain::claim_rejected(
        e,
        id,
        i,
    ) by {
        lemma_legacy_requests_agree(d, e, names, id, i, true);
        assert(d[i].domain.spec_domain()@ == e[i].domain.spec_domain()@);
    }
    assert(crate::domain::requests_ok(d, id) == crate::domain::requests_ok(e, id));
}

/// Once hydration fails it stays failed.
proof fn lemma_hydration_stays_failed(v: CatalogView, n: int, k: int)
    requires
        0 < n <= k,
        hydration(v, n) is None,
    ensures
        hydration(v, k) is None,
    decreases k - n,
{
    if n < k {
        lemma_hydration_stays_failed(v, n, k - 1);
    }
}

/// The legacy claims of one instance's names, or the first parse failure.
fn legacy_claims_of(names: &Vec<String>, id: ProjectInstanceId) -> (r: Result<Vec<DomainClaim>, CatalogError>)
    ensures
        r is Ok <==> names_parse(string_views(names@)),
        r matches Ok(d) ==> legacy_claims_for(d@, string_views(names@), id),
        r matches Err(e) ==> e is Domain,
{
    let ghost n = string_views(names@);
    let mut claims: Vec<DomainClaim> = Vec::new();
    let mut j: usize = 0;
    while j < names.len()
        invariant
            j <= names@.len(),
            n == string_views(names@),
            legacy_claims_for(claims@, n.take(j as int), id),
            names_parse(n.take(j as int)),
        decreases names@.len() - j,
    {
        match DomainName::parse(names[j].as_str()) {
            Ok(name) => {
                let ghost before = claims@;
                claims.push(DomainClaim::legacy(name, id));
                proof {
                    assert(n.take(j + 1) =~= n.take(j as int).push(n[j as int]));
                    assert forall|i: int| 0 <= i < claims@.len() implies (#[trigger] claims@[i]).domain is Exact
                        && spec_parse_domain_name(n.take(j + 1)[i]) == Ok::<Seq<char>, Seq<char>>(
                        claims@[i].domain.spec_domain()@,
                    ) && claims@[i].target == (DomainTarget::Service {
                        project_instance_id: id,
                        service_name: None,
                        primary: true,
                    }) by {
                        if i < j {
                            assert(claims@[i] == before[i]);
                            assert(n.take(j + 1)[i] == n.take(j as int)[i]);
                        }
                    }
                    assert forall|i: int| 0 <= i < n.take(j + 1).len() implies (#[trigger] spec_parse_domain_name(
                        n.take(j + 1)[i],
                    )) is Ok by {
                        if i < j {
                            assert(n.take(j + 1)[i] == n.take(j as int)[i]);
                        }
                    }
                }
            },
            Err(e) => {
                proof {
                    assert(!(spec_parse_domain_name(n[j as int]) is Ok));
                }
                return Err(CatalogError::Domain(e));
            },
        }
        j = j + 1;
    }
    proof {
        assert(n.take(n.len() as int) =~= n);
    }
    Ok(claims)
}

impl ProjectCatalog {
    /// Build the domain index of a catalog from before domain indexes: each
    /// instance, in identity order, claims its recorded names as owned legacy
    /// exact names; then every instance records the names the index gives
    /// it. Nothing changes when a name does not parse or a claim is refused.
    pub fn hydrate_legacy_domain_index(&mut self) -> (r: Result<(), CatalogError>)
        ensures
            hydration(old(self)@, old(self)@.instances.len() as int) is None ==> (r matches Err(CatalogError::Domain(_)))
                && final(self)@ == old(self)@,
            hydration(old(self)@, old(self)@.instances.len() as int) matches Some((m, w)) ==> {
                &&& r is Ok
                &&& final(self)@.domain_index.exact_map() == m
                &&& final(self)@.domain_index.wildcard_map() == w
                &&& final(self)@ == (CatalogView {
                    domain_index: final(self)@.domain_index,
                    instances: final(self)@.instances,
                    ..old(self)@
                })
                &&& final(self)@.instances.len() == old(self)@.instances.len()
                &&& forall|i: int|
                    0 <= i < old(self)@.instances.len() ==> (#[trigger] final(self)@.instances[i]) == (InstanceView {
                        domain_claims: final(self)@.instances[i].domain_claims,
                        ..old(self)@.instances[i]
                    }) && final(self)@.instances[i].domain_claims.to_set() == spec_instance_domains(
                        m,
                        w,
                        old(self)@.instances[i].id,
                    )
            },
    {
        proof {
            use_type_invariant(&*self);
        }
        let ghost v = self@;
        let mut index = DomainIndex::new();
        let mut i: usize = 0;
        while i < self.instances.len()
            invariant
                i <= self.instances@.len(),
                v == self@,
                v == old(self)@,
                v.instances == self.instances@.map_values(|y: ProjectInstanceRecord| y@),
                hydration(v, i as int) == Some((index.exact_map(), index.wildcard_map())),
            decreases self.instances@.len() - i,
        {
            let id = self.instances[i].id;
            let ghost r = v.instances[i as int];
            proof {
                assert(r == self.instances@[i as int]@);
            }
            let claims = match legacy_claims_of(&self.instances[i].domain_claims, id) {
                Ok(d) => d,
                Err(e) => {
                    proof {
                        assert(hydration(v, i + 1) is None);
                        lemma_hydration_stays_failed(v, i + 1, v.instances.len() as int);
                    }
                    return Err(e);
                },
            };
            let ghost d = claims@;
            proof {
                let e = legacy_claims(r.domain_claims, r.id);
                assert(legacy_claims_for(e, r.domain_claims, r.id));
                lemma_legacy_claims_agree(index.exact_map(), index.wildcard_map(), d, e, r.domain_claims, r.id);
            }
            match index.replacing_instance(id, claims) {
                Ok(next) => {
                    index = next;
                },
                Err(e) => {
                    proof {
                        assert(hydration(v, i + 1) is None);
                        lemma_hydration_stays_failed(v, i + 1, v.instances.len() as int);
                    }
                    return Err(CatalogError::Domain(e));
                },
            }
            i = i + 1;
        }
        let ghost m = index.exact_map();
        let ghost w = index.wildcard_map();
        let mut instances = clone_instances(&self.instances);
        let mut k: usize = 0;
        while k < instances.len()
            invariant
                k <= instances@.len(),
                instances@.len() == v.instances.len(),
                v == old(self)@,
                m == index.exact_map(),
                w == index.wildcard_map(),
                forall|q: int|
                    k <= q < instances@.len() ==> (#[trigger] instances@[q])@ == v.instances[q],
                forall|q: int|
                    0 <= q < k ==> (#[trigger] instances@[q])@ == (InstanceView {
                        domain_claims: instances@[q]@.domain_claims,
                        ..v.instances[q]
                    }) && instances@[q]@.domain_claims.to_set() == spec_instance_domains(m, w, v.instances[q].id),
            decreases instances@.len() - k,
        {
            let mut record = instances[k].clone();
            record.domain_claims = index.domains_for_instance(record.id);
            let ghost before = instances@;
            instances.set(k, record);
            proof {
                assert forall|q: int| 0 <= q < k + 1 implies (#[trigger] instances@[q])@ == (InstanceView {
                    domain_claims: instances@[q]@.domain_claims,
                    ..v.instances[q]
                }) && instances@[q]@.domain_claims.to_set() == spec_instance_domains(m, w, v.instances[q].id) by {
                    if q < k {
                        assert(instances@[q] == before[q]);
                    }
                }
                assert forall|q: int| k + 1 <= q < instances@.len() implies (#[trigger] instances@[q])@ == v.instances[q] by {
                    assert(instances@[q] == before[q]);
                }
            }
            k = k + 1;
        }
        proof {
            assert(instance_ids(instances@.map_values(|y: ProjectInstanceRecord| y@)) =~= instance_ids(v.instances)) by {
                assert forall|q: int| 0 <= q < v.instances.len() implies instance_ids(
                    instances@.map_values(|y: ProjectInstanceRecord| y@),
                )[q] == instance_ids(v.instances)[q] by {
                    assert(instances@[q]@.id == v.instances[q].id);
                }
            }
        }
        self.domain_index = index;
        self.instances = instances;
        proof {
            assert(self@.instances.len() == v.instances.len());
            assert forall|q: int| 0 <= q < v.instances.len() implies (#[trigger] self@.instances[q]) == (InstanceView {
                domain_claims: self@.instances[q].domain_claims,
                ..v.instances[q]
            }) && self@.instances[q].domain_claims.to_set() == spec_instance_domains(m, w, v.instances[q].id) by {
                assert(self@.instances[q] == instances@[q]@);
            }
            assert(self@ == (CatalogView { domain_index: self@.domain_index, instances: self@.instances, ..v }));
        }
        Ok(())
    }
}

} // verus!
