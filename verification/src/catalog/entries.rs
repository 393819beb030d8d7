//! The path-oriented compatibility projection of the catalog.

use super::lookup::{entry_view, instance_entry, legacy_entry, seen_after};
use super::records::{clone_opt, CatalogPresence, InstanceView, ProjectEntry, ProjectInstanceRecord, UnresolvedLegacyProject};
use super::tables::unresolved_index;
use super::{texts_ascending, CatalogView, ProjectCatalog};
use crate::domain::string_views;
use crate::keyed::insert_text;

use vstd::prelude::*;

verus! {

/// Where an instance is shown: its current locator, else its last-known one.
pub open spec fn display_path(r: InstanceView) -> Seq<char> {
    match r.current_path {
        Some(p) => p,
        None => r.last_known_path,
    }
}

pub open spec fn shows_active(r: InstanceView, p: Seq<char>) -> bool {
    r.presence == CatalogPresence::Active && display_path(r) == p
}

pub open spec fn shows_missing(r: InstanceView, p: Seq<char>) -> bool {
    r.presence == CatalogPresence::Missing && r.last_known_path == p
}

/// The last active instance, in identity order, shown at `p`.
pub open spec fn last_active_at(s: Seq<InstanceView>, p: Seq<char>, i: int) -> bool {
    0 <= i < s.len() && shows_active(s[i], p) && forall|j: int| i < j < s.len() ==> !#[trigger] shows_active(s[j], p)
}

/// The most recently seen missing instance last known at `p`.
pub open spec fn latest_missing_at(s: Seq<InstanceView>, p: Seq<char>, i: int) -> bool {
    0 <= i < s.len() && shows_missing(s[i], p) && forall|j: int|
        0 <= j < s.len() && j != i && #[trigger] shows_missing(s[j], p) ==> seen_after(s[i], s[j])
}

/// The entry shown for a path: an active instance there wins, then the
/// latest missing instance last known there, then unresolved evidence.
pub open spec fn entry_at(v: CatalogView, p: Seq<char>) -> Option<(Seq<char>, Option<Seq<char>>, bool, u64)> {
    if exists|i: int| 0 <= i < v.instances.len() && shows_active(v.instances[i], p) {
        Some(instance_entry(v.instances[choose|i: int| #[trigger] last_active_at(v.instances, p, i)]))
    } else if exists|i: int| 0 <= i < v.instances.len() && shows_missing(v.instances[i], p) {
        let r = v.instances[choose|i: int| #[trigger] latest_missing_at(v.instances, p, i)];
        Some((r.last_known_path, r.display_name, r.pinned, r.last_seen))
    } else {
        match unresolved_index(v.unresolved, p) {
            Some(u) => Some(legacy_entry(v.unresolved[u])),
            None => None,
        }
    }
}

impl ProjectCatalog {
    /// The paths the projection shows, in path order.
    fn entry_paths(&self) -> (r: Vec<String>)
        ensures
            texts_ascending(string_views(r@)),
            forall|p: Seq<char>| string_views(r@).contains(p) <==> entry_at(self@, p) is Some,
    {
        let ghost v = self@;
        let mut paths: Vec<String> = Vec::new();
        let mut i: usize = 0;
        proof {
            assert(string_views(paths@).to_set() =~= Set::<Seq<char>>::empty());
        }
        while i < self.instances.len()
            invariant
                i <= self.instances@.len(),
                v == self@,
                v.instances == self.instances@.map_values(|y: ProjectInstanceRecord| y@),
                texts_ascending(string_views(paths@)),
                string_views(paths@).to_set() == Set::new(
                    |p: Seq<char>| exists|j: int| 0 <= j < i && (shows_active(v.instances[j], p) || shows_missing(v.instances[j], p)),
                ),
            decreases self.instances@.len() - i,
        {
            let ghost before = string_views(paths@).to_set();
            let record = &self.instances[i];
            proof {
                assert(v.instances[i as int] == record@);
            }
            let shown = if record.presence == CatalogPresence::Active {
                match &record.current_path {
                    Some(p) => p,
                    None => &record.last_known_path,
                }
            } else {
                &record.last_known_path
            };
            insert_text(&mut paths, shown);
            proof {
                assert(string_views(paths@).to_set() =~= Set::new(
                    |p: Seq<char>| exists|j: int| 0 <= j < i + 1 && (shows_active(v.instances[j], p) || shows_missing(v.instances[j], p)),
                )) by {
                    assert forall|p: Seq<char>| (exists|j: int| 0 <= j < i + 1 && (shows_active(v.instances[j], p) || shows_missing(v.instances[j], p)))
                        <==> before.insert(shown@).contains(p) by {
                        if exists|j: int| 0 <= j < i + 1 && (shows_active(v.instances[j], p) || shows_missing(v.instances[j], p)) {
                            let j = choose|j: int| 0 <= j < i + 1 && (shows_active(v.instances[j], p) || shows_missing(v.instances[j], p));
                            if j < i {
                                assert(before.contains(p));
                            }
                        }
                        if p == shown@ {
                            assert(shows_active(v.instances[i as int], p) || shows_missing(v.instances[i as int], p));
                        }
                    }
                }
            }
            i = i + 1;
        }
        let mut u: usize = 0;
        while u < self.unresolved_legacy.len()
            invariant
                u <= self.unresolved_legacy@.len(),
                v == self@,
                v.instances == self.instances@.map_values(|y: ProjectInstanceRecord| y@),
                v.unresolved == self.unresolved_legacy@.map_values(|x: UnresolvedLegacyProject| x@),
                texts_ascending(string_views(paths@)),
                string_views(paths@).to_set() == Set::new(
                    |p: Seq<char>| (exists|j: int| 0 <= j < v.instances.len() && (shows_active(v.instances[j], p) || shows_missing(v.instances[j], p)))
                        || exists|k: int| 0 <= k < u && v.unresolved[k].path == p,
                ),
            decreases self.unresolved_legacy@.len() - u,
        {
            let ghost before = string_views(paths@).to_set();
            proof {
                assert(v.unresolved[u as int] == self.unresolved_legacy@[u as int]@);
            }
            insert_text(&mut paths, &self.unresolved_legacy[u].path);
            proof {
                let p0 = v.unresolved[u as int].path;
                assert(string_views(paths@).to_set() =~= Set::new(
                    |p: Seq<char>| (exists|j: int| 0 <= j < v.instances.len() && (shows_active(v.instances[j], p) || shows_missing(v.instances[j], p)))
                        || exists|k: int| 0 <= k < u + 1 && v.unresolved[k].path == p,
                )) by {
                    assert forall|p: Seq<char>| ((exists|j: int| 0 <= j < v.instances.len() && (shows_active(v.instances[j], p) || shows_missing(v.instances[j], p)))
                        || exists|k: int| 0 <= k < u + 1 && v.unresolved[k].path == p) <==> before.insert(p0).contains(p) by {
                        if exists|k: int| 0 <= k < u + 1 && v.unresolved[k].path == p {
                            let k = choose|k: int| 0 <= k < u + 1 && v.unresolved[k].path == p;
                            if k < u {
                                assert(before.contains(p));
                            }
                        }
                    }
                }
            }
            u = u + 1;
        }
        proof {
            assert forall|p: Seq<char>| string_views(paths@).contains(p) <==> entry_at(v, p) is Some by {
                assert(string_views(paths@).to_set().contains(p) == string_views(paths@).contains(p));
                if exists|k: int| 0 <= k < v.unresolved.len() && v.unresolved[k].path == p {
                    let k = choose|k: int| 0 <= k < v.unresolved.len() && v.unresolved[k].path == p;
                    if !(exists|i: int| 0 <= i < v.instances.len() && shows_active(v.instances[i], p)) && !(exists|i: int|
                        0 <= i < v.instances.len() && shows_missing(v.instances[i], p)) {
                        assert(unresolved_index(v.unresolved, p) is Some);
                    }
                }
                if exists|j: int| 0 <= j < v.instances.len() && (shows_active(v.instances[j], p) || shows_missing(v.instances[j], p)) {
                    let j = choose|j: int| 0 <= j < v.instances.len() && (shows_active(v.instances[j], p) || shows_missing(v.instances[j], p));
                    if shows_active(v.instances[j], p) {
                        assert(exists|i: int| 0 <= i < v.instances.len() && shows_active(v.instances[i], p));
                    } else {
                        assert(exists|i: int| 0 <= i < v.instances.len() && shows_missing(v.instances[i], p));
                    }
                }
                if entry_at(v, p) is Some {
                    if !(exists|i: int| 0 <= i < v.instances.len() && shows_active(v.instances[i], p)) && !(exists|i: int|
                        0 <= i < v.instances.len() && shows_missing(v.instances[i], p)) {
                        let k = unresolved_index(v.unresolved, p)->0;
                        assert(v.unresolved[k].path == p);
                    }
                }
            }
        }
        paths
    }
}

impl ProjectCatalog {
    fn entry_for_path(&self, p: &String) -> (r: Option<ProjectEntry>)
        ensures
            match entry_at(self@, p@) {
                Some(e) => r matches Some(x) && entry_view(x) == e && x.path@ == p@,
                None => r is None,
            },
    {
        proof {
            use_type_invariant(self);
        }
        let ghost v = self@;
        let ghost s = v.instances;
        let mut last: Option<usize> = None;
        let mut i: usize = 0;
        while i < self.instances.len()
            invariant
                i <= self.instances@.len(),
                v == self@,
                s == v.instances,
                s == self.instances@.map_values(|y: ProjectInstanceRecord| y@),
                last is None ==> forall|j: int| 0 <= j < i ==> !shows_active(s[j], p@),
                last matches Some(b) ==> b < i && shows_active(s[b as int], p@) && forall|j: int|
                    b < j < i ==> !#[trigger] shows_active(s[j], p@),
            decreases self.instances@.len() - i,
        {
            let record = &self.instances[i];
            proof {
                assert(s[i as int] == record@);
            }
            let shown = match &record.current_path {
                Some(c) => *c == *p,
                None => record.last_known_path == *p,
            };
            if record.presence == CatalogPresence::Active && shown {
                last = Some(i);
            }
            i = i + 1;
        }
        match last {
            Some(b) => {
                proof {
                    assert(last_active_at(s, p@, b as int));
                    let k = choose|k: int| #[trigger] last_active_at(s, p@, k);
                    assert(last_active_at(s, p@, k));
                    if k < b {
                        assert(shows_active(s[b as int], p@));
                    }
                    if k > b {
                        assert(shows_active(s[k], p@));
                    }
                    assert(s[b as int] == self.instances@[b as int]@);
                }
                let record = &self.instances[b];
                let path = match &record.current_path {
                    Some(c) => c.clone(),
                    None => record.last_known_path.clone(),
                };
                return Some(
                    ProjectEntry { path, name: clone_opt(&record.display_name), pinned: record.pinned, last_seen: record.last_seen },
                );
            },
            None => {},
        }
        let mut best: Option<usize> = None;
        let mut i: usize = 0;
        while i < self.instances.len()
            invariant
                i <= self.instances@.len(),
                v == self@,
                s == v.instances,
                s == self.instances@.map_values(|y: ProjectInstanceRecord| y@),
                super::ascending(super::instance_ids(s)),
                best is None ==> forall|j: int| 0 <= j < i ==> !shows_missing(s[j], p@),
                best matches Some(c) ==> c < i && shows_missing(s[c as int], p@) && forall|j: int|
                    0 <= j < i && j != c && #[trigger] shows_missing(s[j], p@) ==> seen_after(s[c as int], s[j]),
            decreases self.instances@.len() - i,
        {
            let rec = &self.instances[i];
            proof {
                assert(s[i as int] == rec@);
            }
            if rec.presence == CatalogPresence::Missing && rec.last_known_path == *p {
                match best {
                    None => {
                        best = Some(i);
                    },
                    Some(c) => {
                        let cur = &self.instances[c];
                        proof {
                            assert(s[c as int] == cur@);
                            assert(super::instance_ids(s)[c as int] == s[c as int].id.value);
                            assert(super::instance_ids(s)[i as int] == s[i as int].id.value);
                        }
                        if rec.last_seen > cur.last_seen || (rec.last_seen == cur.last_seen && rec.id.value > cur.id.value) {
                            proof {
                                assert forall|j: int| 0 <= j <= i && j != i && #[trigger] shows_missing(s[j], p@) implies seen_after(
                                    s[i as int],
                                    s[j],
                                ) by {
                                    if j != c {
                                        assert(seen_after(s[c as int], s[j]));
                                    }
                                }
                            }
                            best = Some(i);
                        }
                    },
                }
            }
            i = i + 1;
        }
        match best {
            Some(c) => {
                proof {
                    assert(latest_missing_at(s, p@, c as int));
                    let k = choose|k: int| #[trigger] latest_missing_at(s, p@, k);
                    assert(latest_missing_at(s, p@, k));
                    if k != c {
                        assert(seen_after(s[c as int], s[k]));
                        assert(seen_after(s[k], s[c as int]));
                    }
                    assert(s[c as int] == self.instances@[c as int]@);
                }
                let record = &self.instances[c];
                return Some(
                    ProjectEntry {
                        path: record.last_known_path.clone(),
                        name: clone_opt(&record.display_name),
                        pinned: record.pinned,
                        last_seen: record.last_seen,
                    },
                );
            },
            None => {},
        }
        match self.locate_unresolved(p) {
            Some(u) => {
                proof {
                    let k = unresolved_index(v.unresolved, p@)->0;
                    assert(v.unresolved[k].path == p@);
                }
                Some(self.unresolved_entry(u))
            },
            None => None,
        }
    }

    /// The path-based compatibility projection, one entry per shown path,
    /// in path order.
    pub fn project_entries(&self) -> (r: Vec<ProjectEntry>)
        ensures
            texts_ascending(r@.map_values(|e: ProjectEntry| e.path@)),
            forall|k: int| 0 <= k < r@.len() ==> entry_at(self@, (#[trigger] r@[k]).path@) == Some(entry_view(r@[k])),
            forall|p: Seq<char>| entry_at(self@, p) is Some ==> exists|k: int| 0 <= k < r@.len() && (#[trigger] r@[k]).path@ == p,
    {
        let paths = self.entry_paths();
        let mut out: Vec<ProjectEntry> = Vec::new();
        let mut i: usize = 0;
        while i < paths.len()
            invariant
                i <= paths@.len(),
                out@.len() == i,
                texts_ascending(string_views(paths@)),
                forall|p: Seq<char>| string_views(paths@).contains(p) <==> entry_at(self@, p) is Some,
                forall|k: int| 0 <= k < i ==> (#[trigger] out@[k]).path@ == paths@[k]@ && entry_at(self@, out@[k].path@) == Some(entry_view(out@[k])),
            decreases paths@.len() - i,
        {
            proof {
                assert(string_views(paths@)[i as int] == paths@[i as int]@);
                assert(string_views(paths@).contains(paths@[i as int]@));
            }
            match self.entry_for_path(&paths[i]) {
                Some(e) => {
                    out.push(e);
                },
                None => {
                    proof {
                        assert(false);
                    }
                },
            }
            i = i + 1;
        }
        proof {
            assert(out@.map_values(|e: ProjectEntry| e.path@) =~= string_views(paths@));
            assert forall|p: Seq<char>| entry_at(self@, p) is Some implies exists|k: int| 0 <= k < out@.len() && (#[trigger] out@[k]).path@ == p by {
                assert(string_views(paths@).contains(p));
                let k = choose|k: int| 0 <= k < string_views(paths@).len() && string_views(paths@)[k] == p;
                assert(out@[k].path@ == p);
            }
        }
        out
    }
}

impl ProjectCatalog {
    /// The path-based compatibility projection keyed by each entry's path,
    /// in path order.
    pub fn project_entries_by_path(&self) -> (r: Vec<(String, ProjectEntry)>)
        ensures
            texts_ascending(crate::keyed::string_keys(r@)),
            forall|k: int|
                0 <= k < r@.len() ==> (#[trigger] r@[k]).0@ == r@[k].1.path@ && entry_at(self@, r@[k].0@) == Some(
                    entry_view(r@[k].1),
                ),
            forall|p: Seq<char>| entry_at(self@, p) is Some ==> exists|k: int| 0 <= k < r@.len() && (#[trigger] r@[k]).0@ == p,
    {
        let entries = self.project_entries();
        let mut out: Vec<(String, ProjectEntry)> = Vec::new();
        let mut i: usize = 0;
        while i < entries.len()
            invariant
                i <= entries@.len(),
                out@.len() == i,
                forall|k: int| 0 <= k < i ==> (#[trigger] out@[k]).0@ == entries@[k].path@ && out@[k].1.path@ == entries@[k].path@
                    && entry_view(out@[k].1) == entry_view(entries@[k]),
            decreases entries@.len() - i,
        {
            let e = &entries[i];
            let copy = ProjectEntry { path: e.path.clone(), name: clone_opt(&e.name), pinned: e.pinned, last_seen: e.last_seen };
            out.push((e.path.clone(), copy));
            i = i + 1;
        }
        proof {
            let ks = crate::keyed::string_keys(out@);
            let ps = entries@.map_values(|e: ProjectEntry| e.path@);
            assert(ks =~= ps);
            assert forall|p: Seq<char>| entry_at(self@, p) is Some implies exists|k: int| 0 <= k < out@.len() && (#[trigger] out@[k]).0@ == p by {
                let k = choose|k: int| 0 <= k < entries@.len() && (#[trigger] entries@[k]).path@ == p;
                assert(out@[k].0@ == p);
            }
        }
        out
    }
}

} // verus!
