//! Legacy locator evidence: merging the records several legacy paths leave
//! for one project locator, and keeping what cannot yet be resolved.

use super::records::{clone_opt, LegacyLocatorSource, UnresolvedLegacyProject, UnresolvedView};
use super::tables::{lemma_text_position, splits_texts, text_position, unresolved_index, lemma_unresolved_index};
use super::{texts_ascending, unresolved_keys, ProjectCatalog};
use crate::availability::opt_view;
use crate::text::{compare_chars, lemma_lex_irreflexive, lemma_lex_transitive, lex_lt, str_chars};
use vstd::prelude::*;

verus! {

/// Whether `a` is later than `b`, an unknown time being earliest.
pub open spec fn later(a: Option<u64>, b: Option<u64>) -> bool {
    match (a, b) {
        (Some(x), Some(y)) => x > y,
        (Some(_), None) => true,
        _ => false,
    }
}

/// The later of two times, an unknown time being earliest.
pub open spec fn latest(a: Option<u64>, b: Option<u64>) -> Option<u64> {
    if later(b, a) {
        b
    } else {
        a
    }
}

/// The sources in `s`, each once, in the order the stores are named.
pub open spec fn ordered_sources(s: Set<LegacyLocatorSource>) -> Seq<LegacyLocatorSource> {
    let a = if s.contains(LegacyLocatorSource::Registry) {
        seq![LegacyLocatorSource::Registry]
    } else {
        Seq::empty()
    };
    let b = if s.contains(LegacyLocatorSource::Attachment) {
        a.push(LegacyLocatorSource::Attachment)
    } else {
        a
    };
    let c = if s.contains(LegacyLocatorSource::ManualStop) {
        b.push(LegacyLocatorSource::ManualStop)
    } else {
        b
    };
    if s.contains(LegacyLocatorSource::RuntimeState) {
        c.push(LegacyLocatorSource::RuntimeState)
    } else {
        c
    }
}

/// `existing` after absorbing `record` for the same locator: a name comes
/// from the record when it has one and the existing record has none or is
/// older; pins and sources accumulate; the later time stays.
pub open spec fn absorbed(existing: UnresolvedView, record: UnresolvedView) -> UnresolvedView {
    UnresolvedView {
        path: existing.path,
        display_name: if record.display_name is Some && (existing.display_name is None || later(
            record.last_seen,
            existing.last_seen,
        )) {
            record.display_name
        } else {
            existing.display_name
        },
        pinned: existing.pinned || record.pinned,
        last_seen: latest(existing.last_seen, record.last_seen),
        sources: ordered_sources(existing.sources.to_set().union(record.sources.to_set())),
    }
}

/// The evidence per locator after merging `rs` in order.
pub open spec fn merged_evidence(rs: Seq<UnresolvedView>) -> Map<Seq<char>, UnresolvedView>
    decreases rs.len(),
{
    if rs.len() == 0 {
        Map::empty()
    } else {
        let m = merged_evidence(rs.drop_last());
        let r = rs.last();
        if m.contains_key(r.path) {
            m.insert(r.path, absorbed(m[r.path], r))
        } else {
            m.insert(r.path, r)
        }
    }
}

/// One project of the legacy registry as read: its key, the path its entry
/// records (if it records one), and its fields.
#[derive(Debug, Clone, PartialEq, Eq)]
pub struct RegistryEntry {
    pub key: String,
    pub recorded_path: Option<String>,
    pub name: Option<String>,
    pub pinned: bool,
    pub last_seen: Option<u64>,
}

/// The evidence a registry entry gives.
pub open spec fn registry_record(e: RegistryEntry) -> UnresolvedView {
    UnresolvedView {
        path: e.key@,
        display_name: opt_view(e.name),
        pinned: e.pinned,
        last_seen: e.last_seen,
        sources: seq![LegacyLocatorSource::Registry],
    }
}

/// Whether an entry's recorded path names another path than its key.
pub open spec fn entry_disagrees(e: RegistryEntry) -> bool {
    e.recorded_path is Some && !crate::paths::same_path_text(e.recorded_path->0@, e.key@)
}

/// The registry's evidence, one record per entry in entry order; an entry
/// whose recorded path disagrees with its key makes the registry invalid.
pub fn registry_evidence(source_path: &String, entries: &Vec<RegistryEntry>) -> (r: Result<
    Vec<UnresolvedLegacyProject>,
    super::CatalogError,
>)
    ensures
        r is Ok <==> forall|i: int| 0 <= i < entries@.len() ==> !entry_disagrees(#[trigger] entries@[i]),
        r matches Ok(v) ==> v@.len() == entries@.len() && forall|i: int|
            0 <= i < v@.len() ==> (#[trigger] v@[i])@ == registry_record(entries@[i]),
        r matches Err(e) ==> (e matches super::CatalogError::InvalidData { path, .. } && path@ == source_path@),
{
    let mut out: Vec<UnresolvedLegacyProject> = Vec::new();
    let mut i: usize = 0;
    while i < entries.len()
        invariant
            i <= entries@.len(),
            out@.len() == i,
            forall|j: int| 0 <= j < i ==> !entry_disagrees(#[trigger] entries@[j]),
            forall|j: int| 0 <= j < i ==> (#[trigger] out@[j])@ == registry_record(entries@[j]),
        decreases entries@.len() - i,
    {
        let entry = &entries[i];
        match &entry.recorded_path {
            Some(recorded) => {
                if !crate::paths::same_path(recorded.as_str(), entry.key.as_str()) {
                    let mut reason = String::new();
                    crate::text::push_str(&mut reason, "registry key `");
                    crate::text::push_str(&mut reason, entry.key.as_str());
                    crate::text::push_str(&mut reason, "` disagrees with entry path `");
                    crate::text::push_str(&mut reason, recorded.as_str());
                    crate::text::push_str(&mut reason, "`");
                    return Err(super::CatalogError::InvalidData { path: source_path.clone(), reason });
                }
            },
            None => {},
        }
        let sources: Vec<LegacyLocatorSource> = vec![LegacyLocatorSource::Registry];
        out.push(
            UnresolvedLegacyProject {
                path: entry.key.clone(),
                display_name: clone_opt(&entry.name),
                pinned: entry.pinned,
                last_seen: entry.last_seen,
                sources,
            },
        );
        proof {
            assert(out@[i as int]@.sources =~= seq![LegacyLocatorSource::Registry]);
        }
        i = i + 1;
    }
    Ok(out)
}

/// Evidence after noting that a legacy store named each of `paths` as
/// `source`: a known path gains the source, an unknown one gets a record of
/// its own at the end.
pub open spec fn noted(evidence: Seq<UnresolvedView>, paths: Seq<Seq<char>>, source: LegacyLocatorSource) -> Seq<UnresolvedView>
    decreases paths.len(),
{
    if paths.len() == 0 {
        evidence
    } else {
        let e = noted(evidence, paths.drop_last(), source);
        let p = paths.last();
        if exists|i: int| 0 <= i < e.len() && e[i].path == p {
            let i = choose|i: int| 0 <= i < e.len() && e[i].path == p;
            e.update(i, UnresolvedView { sources: ordered_sources(e[i].sources.to_set().insert(source)), ..e[i] })
        } else {
            e.push(
                UnresolvedView { path: p, display_name: None, pinned: false, last_seen: None, sources: seq![source] },
            )
        }
    }
}

/// Paths of a list of evidence each occur once.
pub open spec fn distinct_paths(e: Seq<UnresolvedView>) -> bool {
    forall|i: int, j: int| 0 <= i < j < e.len() ==> e[i].path != e[j].path
}

/// Note that a legacy store named each of `paths` as `source`; see `noted`.
pub fn note_locator_source(evidence: &mut Vec<UnresolvedLegacyProject>, paths: &Vec<String>, source: LegacyLocatorSource)
    requires
        distinct_paths(old(evidence)@.map_values(|x: UnresolvedLegacyProject| x@)),
    ensures
        distinct_paths(final(evidence)@.map_values(|x: UnresolvedLegacyProject| x@)),
        final(evidence)@.map_values(|x: UnresolvedLegacyProject| x@) == noted(
            old(evidence)@.map_values(|x: UnresolvedLegacyProject| x@),
            crate::domain::string_views(paths@),
            source,
        ),
{
    let ghost e0 = evidence@.map_values(|x: UnresolvedLegacyProject| x@);
    let ghost ps = crate::domain::string_views(paths@);
    let mut n: usize = 0;
    proof {
        assert(ps.take(0) =~= Seq::<Seq<char>>::empty());
    }
    while n < paths.len()
        invariant
            n <= paths@.len(),
            ps == crate::domain::string_views(paths@),
            distinct_paths(evidence@.map_values(|x: UnresolvedLegacyProject| x@)),
            evidence@.map_values(|x: UnresolvedLegacyProject| x@) == noted(e0, ps.take(n as int), source),
        decreases paths@.len() - n,
    {
        let ghost e = evidence@.map_values(|x: UnresolvedLegacyProject| x@);
        let path = &paths[n];
        proof {
            assert(ps.take(n + 1).drop_last() =~= ps.take(n as int));
            assert(ps.take(n + 1).last() == path@);
        }
        let mut i: usize = 0;
        while i < evidence.len()
            invariant
                i <= evidence@.len(),
                e == evidence@.map_values(|x: UnresolvedLegacyProject| x@),
                forall|j: int| 0 <= j < i ==> e[j].path != path@,
            ensures
                i <= evidence@.len(),
                i < evidence@.len() ==> e[i as int].path == path@,
            decreases evidence@.len() - i,
        {
            if evidence[i].path == *path {
                break;
            }
            i = i + 1;
        }
        if i < evidence.len() {
            let record = &evidence[i];
            let single: Vec<LegacyLocatorSource> = vec![source];
            let updated = UnresolvedLegacyProject {
                path: record.path.clone(),
                display_name: clone_opt(&record.display_name),
                pinned: record.pinned,
                last_seen: record.last_seen,
                sources: sources_in_order(&record.sources, &single),
            };
            proof {
                assert(single@.to_set() =~= Set::empty().insert(source));
                assert(e[i as int].sources.to_set().union(single@.to_set()) =~= e[i as int].sources.to_set().insert(source));
                let c = choose|q: int| 0 <= q < e.len() && e[q].path == path@;
                assert(c == i);
            }
            evidence.set(i, updated);
            proof {
                assert(evidence@.map_values(|x: UnresolvedLegacyProject| x@) =~= e.update(
                    i as int,
                    UnresolvedView { sources: ordered_sources(e[i as int].sources.to_set().insert(source)), ..e[i as int] },
                ));
            }
        } else {
            let mut single: Vec<LegacyLocatorSource> = Vec::new();
            single.push(source);
            proof {
                assert(single@ =~= seq![source]);
            }
            evidence.push(
                UnresolvedLegacyProject { path: path.clone(), display_name: None, pinned: false, last_seen: None, sources: single },
            );
            proof {
                assert(!(exists|q: int| 0 <= q < e.len() && e[q].path == path@));
                assert(evidence@.map_values(|x: UnresolvedLegacyProject| x@) =~= e.push(
                    UnresolvedView { path: path@, display_name: None, pinned: false, last_seen: None, sources: seq![source] },
                ));
            }
        }
        n = n + 1;
    }
    proof {
        assert(ps.take(ps.len() as int) =~= ps);
    }
}

/// The sources of a set, in store order; see `ordered_sources`.
fn sources_in_order(a: &Vec<LegacyLocatorSource>, b: &Vec<LegacyLocatorSource>) -> (r: Vec<LegacyLocatorSource>)
    ensures
        r@ == ordered_sources(a@.to_set().union(b@.to_set())),
{
    let ghost s = a@.to_set().union(b@.to_set());
    let mut r: Vec<LegacyLocatorSource> = Vec::new();
    if holds_source(a, b, LegacyLocatorSource::Registry) {
        r.push(LegacyLocatorSource::Registry);
    }
    if holds_source(a, b, LegacyLocatorSource::Attachment) {
        r.push(LegacyLocatorSource::Attachment);
    }
    if holds_source(a, b, LegacyLocatorSource::ManualStop) {
        r.push(LegacyLocatorSource::ManualStop);
    }
    if holds_source(a, b, LegacyLocatorSource::RuntimeState) {
        r.push(LegacyLocatorSource::RuntimeState);
    }
    proof {
        assert(r@ =~= ordered_sources(s));
    }
    r
}

/// Whether either list names `x`.
fn holds_source(a: &Vec<LegacyLocatorSource>, b: &Vec<LegacyLocatorSource>, x: LegacyLocatorSource) -> (r: bool)
    ensures
        r == a@.to_set().union(b@.to_set()).contains(x),
{
    let mut i: usize = 0;
    while i < a.len()
        invariant
            i <= a@.len(),
            forall|j: int| 0 <= j < i ==> a@[j] != x,
        decreases a@.len() - i,
    {
        if a[i] == x {
            assert(a@.contains(x));
            return true;
        }
        i = i + 1;
    }
    let mut j: usize = 0;
    while j < b.len()
        invariant
            j <= b@.len(),
            forall|q: int| 0 <= q < j ==> b@[q] != x,
        decreases b@.len() - j,
    {
        if b[j] == x {
            assert(b@.contains(x));
            return true;
        }
        j = j + 1;
    }
    assert(!a@.contains(x));
    assert(!b@.contains(x));
    false
}

/// `existing` after absorbing `record`; see `absorbed`.
fn absorb(existing: &UnresolvedLegacyProject, record: &UnresolvedLegacyProject) -> (r: UnresolvedLegacyProject)
    ensures
        r@ == absorbed(existing@, record@),
{
    let newer = match (record.last_seen, existing.last_seen) {
        (Some(x), Some(y)) => x > y,
        (Some(_), None) => true,
        _ => false,
    };
    let display_name = if record.display_name.is_some() && (existing.display_name.is_none() || newer) {
        clone_opt(&record.display_name)
    } else {
        clone_opt(&existing.display_name)
    };
    let older = match (existing.last_seen, record.last_seen) {
        (Some(x), Some(y)) => y > x,
        (None, Some(_)) => true,
        _ => false,
    };
    let last_seen = if older {
        record.last_seen
    } else {
        existing.last_seen
    };
    UnresolvedLegacyProject {
        path: existing.path.clone(),
        display_name,
        pinned: existing.pinned || record.pinned,
        last_seen,
        sources: sources_in_order(&existing.sources, &record.sources),
    }
}

/// Merge legacy evidence whose paths are already normalized locators:
/// records for one locator are absorbed in order (see `absorbed`), and the
/// result holds one record per locator, in locator order.
pub fn merge_legacy_evidence(records: Vec<UnresolvedLegacyProject>) -> (r: Vec<UnresolvedLegacyProject>)
    ensures
        texts_ascending(unresolved_keys(r@.map_values(|x: UnresolvedLegacyProject| x@))),
        unresolved_keys(r@.map_values(|x: UnresolvedLegacyProject| x@)).to_set() == merged_evidence(
            records@.map_values(|x: UnresolvedLegacyProject| x@),
        ).dom(),
        forall|i: int|
            0 <= i < r@.len() ==> (#[trigger] r@[i])@ == merged_evidence(records@.map_values(|x: UnresolvedLegacyProject| x@))[r@[i]@.path],
{
    let ghost rs = records@.map_values(|x: UnresolvedLegacyProject| x@);
    let mut out: Vec<UnresolvedLegacyProject> = Vec::new();
    let mut n: usize = 0;
    proof {
        assert(rs.take(0) =~= Seq::<UnresolvedView>::empty());
        assert(unresolved_keys(out@.map_values(|x: UnresolvedLegacyProject| x@)) =~= Seq::<Seq<char>>::empty());
        assert(unresolved_keys(out@.map_values(|x: UnresolvedLegacyProject| x@)).to_set() =~= merged_evidence(rs.take(0)).dom());
    }
    while n < records.len()
        invariant
            n <= records@.len(),
            rs == records@.map_values(|x: UnresolvedLegacyProject| x@),
            texts_ascending(unresolved_keys(out@.map_values(|x: UnresolvedLegacyProject| x@))),
            unresolved_keys(out@.map_values(|x: UnresolvedLegacyProject| x@)).to_set() == merged_evidence(
                rs.take(n as int),
            ).dom(),
            forall|i: int|
                0 <= i < out@.len() ==> (#[trigger] out@[i])@ == merged_evidence(rs.take(n as int))[out@[i]@.path],
        decreases records@.len() - n,
    {
        let ghost o = out@.map_values(|x: UnresolvedLegacyProject| x@);
        let ghost m = merged_evidence(rs.take(n as int));
        let record = &records[n];
        proof {
            assert(rs.take(n + 1).drop_last() =~= rs.take(n as int));
            assert(rs.take(n + 1).last() == record@);
        }
        let (found, i) = evidence_slot(&out, &record.path);
        if found {
            let merged = absorb(&out[i], record);
            let ghost before = out@;
            out.set(i, merged);
            proof {
                assert(o[i as int].path == record@.path);
                assert(unresolved_keys(o)[i as int] == record@.path);
                assert(m.contains_key(record@.path));
                assert(out@.map_values(|x: UnresolvedLegacyProject| x@) =~= o.update(i as int, absorbed(o[i as int], record@)));
                assert(unresolved_keys(out@.map_values(|x: UnresolvedLegacyProject| x@)) =~= unresolved_keys(o));
                lemma_keys_unique(o, i as int);
                assert forall|q: int| 0 <= q < out@.len() implies (#[trigger] out@[q])@ == merged_evidence(rs.take(n + 1))[out@[q]@.path] by {
                    if q != i {
                        assert(out@[q] == before[q]);
                        assert(unresolved_keys(o)[q] == o[q].path);
                    }
                }
            }
        } else {
            let copy = record.clone();
            proof {
                lemma_text_position(unresolved_keys(o), record@.path, i as int);
                assert(!m.contains_key(record@.path)) by {
                    if m.contains_key(record@.path) {
                        assert(unresolved_keys(o).contains(record@.path));
                        let q = choose|q: int| 0 <= q < unresolved_keys(o).len() && unresolved_keys(o)[q] == record@.path;
                        lemma_lex_irreflexive(record@.path);
                    }
                }
            }
            let ghost before = out@;
            out.insert(i, copy);
            proof {
                assert(out@.map_values(|x: UnresolvedLegacyProject| x@) =~= o.insert(i as int, record@));
                assert(unresolved_keys(out@.map_values(|x: UnresolvedLegacyProject| x@)) =~= unresolved_keys(o).insert(
                    i as int,
                    record@.path,
                ));
                assert forall|q: int| 0 <= q < out@.len() implies (#[trigger] out@[q])@ == merged_evidence(rs.take(n + 1))[out@[q]@.path] by {
                    if q < i {
                        assert(out@[q] == before[q]);
                        assert(unresolved_keys(o)[q] == o[q].path);
                        assert(lex_lt(o[q].path, record@.path));
                        if o[q].path == record@.path {
                            lemma_lex_irreflexive(record@.path);
                        }
                    } else if q > i {
                        assert(out@[q] == before[q - 1]);
                        assert(unresolved_keys(o)[q - 1] == o[q - 1].path);
                        assert(lex_lt(record@.path, o[q - 1].path));
                        if o[q - 1].path == record@.path {
                            lemma_lex_irreflexive(record@.path);
                        }
                    }
                }
            }
        }
        proof {
            let u = unresolved_keys(out@.map_values(|x: UnresolvedLegacyProject| x@));
            assert forall|k: Seq<char>| u.to_set().contains(k) <==> merged_evidence(rs.take(n + 1)).dom().contains(k) by {
                assert(unresolved_keys(o).to_set().contains(k) <==> m.dom().contains(k));
                if u.contains(k) && k != record@.path {
                    let q = choose|q: int| 0 <= q < u.len() && u[q] == k;
                    if found {
                        assert(unresolved_keys(o)[q] == k);
                    } else if q < i {
                        assert(unresolved_keys(o)[q] == k);
                    } else {
                        assert(unresolved_keys(o)[q - 1] == k);
                    }
                }
                if merged_evidence(rs.take(n + 1)).contains_key(k) {
                    if k == record@.path {
                        assert(u[i as int] == k);
                    } else {
                        assert(unresolved_keys(o).contains(k));
                        let q = choose|q: int| 0 <= q < unresolved_keys(o).len() && unresolved_keys(o)[q] == k;
                        if found || q < i {
                            assert(u[q] == k);
                        } else {
                            assert(u[q + 1] == k);
                        }
                    }
                }
            }
            assert(u.to_set() =~= merged_evidence(rs.take(n + 1)).dom());
        }
        n = n + 1;
    }
    proof {
        assert(rs.take(rs.len() as int) =~= rs);
    }
    out
}

/// Distinct entries of an ascending table carry distinct paths.
proof fn lemma_keys_unique(o: Seq<UnresolvedView>, i: int)
    requires
        texts_ascending(unresolved_keys(o)),
        0 <= i < o.len(),
    ensures
        forall|q: int| 0 <= q < o.len() && q != i ==> o[q].path != o[i].path,
{
    assert forall|q: int| 0 <= q < o.len() && q != i implies o[q].path != o[i].path by {
        assert(unresolved_keys(o)[q] == o[q].path && unresolved_keys(o)[i] == o[i].path);
        if o[q].path == o[i].path {
            lemma_lex_irreflexive(o[i].path);
        }
    }
}

/// Where `path` stands among ascending evidence: its index when present,
/// otherwise where it would be inserted.
fn evidence_slot(v: &Vec<UnresolvedLegacyProject>, path: &String) -> (r: (bool, usize))
    requires
        texts_ascending(unresolved_keys(v@.map_values(|x: UnresolvedLegacyProject| x@))),
    ensures
        r.1 <= v@.len(),
        r.0 ==> r.1 < v@.len() && v@[r.1 as int]@.path == path@,
        !r.0 ==> splits_texts(unresolved_keys(v@.map_values(|x: UnresolvedLegacyProject| x@)), path@, r.1 as int),
{
    let ghost s = unresolved_keys(v@.map_values(|x: UnresolvedLegacyProject| x@));
    let pc = str_chars(path.as_str());
    let mut i: usize = 0;
    while i < v.len()
        invariant
            i <= v@.len(),
            s == unresolved_keys(v@.map_values(|x: UnresolvedLegacyProject| x@)),
            pc@ == path@,
            texts_ascending(s),
            forall|j: int| 0 <= j < i ==> lex_lt(#[trigger] s[j], path@),
        decreases v@.len() - i,
    {
        assert(s[i as int] == v@[i as int]@.path);
        let kc = str_chars(v[i].path.as_str());
        let c = compare_chars(kc.as_slice(), pc.as_slice());
        if c == 0 {
            return (true, i);
        }
        if c > 0 {
            proof {
                assert forall|j: int| i <= j < s.len() implies lex_lt(path@, s[j]) by {
                    if j > i {
                        lemma_lex_transitive(path@, s[i as int], s[j]);
                    }
                }
            }
            return (false, i);
        }
        i = i + 1;
    }
    (false, i)
}

impl ProjectCatalog {
    /// Keep legacy evidence for a path whose identity cannot be read yet,
    /// replacing any evidence already kept for that path.
    pub fn record_unresolved_legacy(&mut self, record: UnresolvedLegacyProject)
        ensures
            final(self)@ == (super::CatalogView { unresolved: unresolved_put(old(self)@.unresolved, record@), ..old(self)@ }),
    {
        proof {
            use_type_invariant(&*self);
        }
        let mut table = super::tables::clone_unresolved(&self.unresolved_legacy);
        let ghost o = table@.map_values(|x: UnresolvedLegacyProject| x@);
        let (found, i) = evidence_slot(&table, &record.path);
        if found {
            proof {
                lemma_unresolved_index(o, i as int);
            }
            table.set(i, record);
            proof {
                assert(table@.map_values(|x: UnresolvedLegacyProject| x@) =~= o.update(i as int, record@));
                assert(unresolved_keys(table@.map_values(|x: UnresolvedLegacyProject| x@)) =~= unresolved_keys(o));
            }
        } else {
            proof {
                lemma_text_position(unresolved_keys(o), record@.path, i as int);
                assert(unresolved_index(o, record@.path) is None) by {
                    if exists|j: int| 0 <= j < o.len() && o[j].path == record@.path {
                        let j = choose|j: int| 0 <= j < o.len() && o[j].path == record@.path;
                        assert(unresolved_keys(o)[j] == record@.path);
                        lemma_lex_irreflexive(record@.path);
                    }
                }
            }
            let ghost p = record@.path;
            table.insert(i, record);
            proof {
                assert(table@.map_values(|x: UnresolvedLegacyProject| x@) =~= o.insert(i as int, table@[i as int]@));
                assert(unresolved_keys(table@.map_values(|x: UnresolvedLegacyProject| x@)) =~= unresolved_keys(o).insert(i as int, p));
            }
        }
        self.unresolved_legacy = table;
    }
}

/// The evidence table with `x` kept for its path.
pub open spec fn unresolved_put(s: Seq<UnresolvedView>, x: UnresolvedView) -> Seq<UnresolvedView> {
    match unresolved_index(s, x.path) {
        Some(i) => s.update(i, x),
        None => s.insert(text_position(unresolved_keys(s), x.path), x),
    }
}

} // verus!
