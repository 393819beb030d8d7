//! The exact compatibility state: attachments by project path, manual-stop
//! markers, and instance owners, each table in path order.

use super::model::{
    attachment_alive, copy_attachment, copy_attachments, exact_difference, first_match, is_alive, lemma_first_position,
    relabeled, same_attachment, views, all_relabeled, Attachment, AttachmentView,
};
use crate::catalog::texts_ascending;
use crate::domain::string_views;
use crate::identity::ProjectInstanceId;
use crate::keyed::{
    has_text, insert_text, key_slot, keyed, keys_of, lemma_table_absent, lemma_table_entry, lemma_table_insert,
    lemma_table_remove, lemma_table_update, remove_text, string_keys, table_map, holds_key,
};
use crate::text::push_str;
use vstd::prelude::*;

verus! {

/// The attachment table by view.
pub open spec fn bucket_table(v: Seq<(String, Vec<Attachment>)>) -> Seq<(Seq<char>, Seq<AttachmentView>)> {
    Seq::new(v.len(), |i: int| (v[i].0@, views(v[i].1@)))
}

/// The owner table by view.
pub open spec fn owner_table(v: Seq<(String, ProjectInstanceId)>) -> Seq<(Seq<char>, ProjectInstanceId)> {
    Seq::new(v.len(), |i: int| (v[i].0@, v[i].1))
}

/// The compatibility state as maps and a set keyed by project path.
#[verifier::ext_equal]
pub struct CompatView {
    pub buckets: Map<Seq<char>, Seq<AttachmentView>>,
    pub stopped: Set<Seq<char>>,
    pub owners: Map<Seq<char>, ProjectInstanceId>,
}

/// An exact, deterministically ordered attachment compatibility projection:
/// project keys and stop markers in path order, each project's attachments
/// in the order the store holds them.
#[derive(Debug, Clone, PartialEq, Eq)]
pub struct AttachmentStoreSnapshot {
    pub attachments: Vec<(String, Vec<Attachment>)>,
    pub manually_stopped: Vec<String>,
    pub instance_owners: Vec<(String, ProjectInstanceId)>,
}

impl View for AttachmentStoreSnapshot {
    type V = CompatView;

    open spec fn view(&self) -> CompatView {
        CompatView {
            buckets: table_map(bucket_table(self.attachments@)),
            stopped: string_views(self.manually_stopped@).to_set(),
            owners: table_map(owner_table(self.instance_owners@)),
        }
    }
}

/// The complete compatibility state of one project path.
#[derive(Debug, Clone, PartialEq, Eq)]
pub struct AttachmentProjectSnapshot {
    pub project_path: String,
    pub attachments: Vec<Attachment>,
    pub manually_stopped: bool,
    pub instance_owner: Option<ProjectInstanceId>,
}

pub struct ProjectSnapshotView {
    pub project_path: Seq<char>,
    pub attachments: Seq<AttachmentView>,
    pub manually_stopped: bool,
    pub instance_owner: Option<ProjectInstanceId>,
}

impl View for AttachmentProjectSnapshot {
    type V = ProjectSnapshotView;

    open spec fn view(&self) -> ProjectSnapshotView {
        ProjectSnapshotView {
            project_path: self.project_path@,
            attachments: views(self.attachments@),
            manually_stopped: self.manually_stopped,
            instance_owner: self.instance_owner,
        }
    }
}

/// The exact effect of replacing one project's compatibility state.
#[derive(Debug, Clone, PartialEq, Eq)]
pub struct AttachmentProjectDelta {
    pub before: AttachmentProjectSnapshot,
    pub after: AttachmentProjectSnapshot,
    pub removed: Vec<Attachment>,
    pub added: Vec<Attachment>,
}

pub struct DeltaView {
    pub before: ProjectSnapshotView,
    pub after: ProjectSnapshotView,
    pub removed: Seq<AttachmentView>,
    pub added: Seq<AttachmentView>,
}

impl View for AttachmentProjectDelta {
    type V = DeltaView;

    open spec fn view(&self) -> DeltaView {
        DeltaView { before: self.before@, after: self.after@, removed: views(self.removed@), added: views(self.added@) }
    }
}

/// One attachment with its liveness at a chosen time.
#[derive(Debug, Clone, PartialEq, Eq)]
pub struct AttachmentLivenessEvidence {
    pub attachment: Attachment,
    pub alive: bool,
}

/// Deterministic lifecycle evidence for one project of the compatibility state.
#[derive(Debug, Clone, PartialEq, Eq)]
pub struct AttachmentCompatibilityEvidence {
    pub project_path: String,
    pub attachments: Vec<AttachmentLivenessEvidence>,
    pub manually_stopped: bool,
}

pub struct EvidenceView {
    pub project_path: Seq<char>,
    pub attachments: Seq<(AttachmentView, bool)>,
    pub manually_stopped: bool,
}

impl View for AttachmentCompatibilityEvidence {
    type V = EvidenceView;

    open spec fn view(&self) -> EvidenceView {
        EvidenceView {
            project_path: self.project_path@,
            attachments: Seq::new(
                self.attachments@.len(),
                |i: int| (self.attachments@[i].attachment@, self.attachments@[i].alive),
            ),
            manually_stopped: self.manually_stopped,
        }
    }
}

/// The state with nothing in it.
pub open spec fn empty_state() -> CompatView {
    CompatView { buckets: Map::empty(), stopped: Set::empty(), owners: Map::empty() }
}

/// A project's attachments, none when it has no entry.
pub open spec fn bucket_or_empty(s: CompatView, k: Seq<char>) -> Seq<AttachmentView> {
    if s.buckets.contains_key(k) {
        s.buckets[k]
    } else {
        Seq::empty()
    }
}

/// A project's instance owner.
pub open spec fn owner_of(s: CompatView, k: Seq<char>) -> Option<ProjectInstanceId> {
    if s.owners.contains_key(k) {
        Some(s.owners[k])
    } else {
        None
    }
}

/// A project's state as one record.
pub open spec fn project_view(s: CompatView, k: Seq<char>) -> ProjectSnapshotView {
    ProjectSnapshotView {
        project_path: k,
        attachments: bucket_or_empty(s, k),
        manually_stopped: s.stopped.contains(k),
        instance_owner: owner_of(s, k),
    }
}

/// The state after a project's attachments became `b`: an empty list drops
/// the entry, and with it the owner of a project not manually stopped.
pub open spec fn settled(s: CompatView, k: Seq<char>, b: Seq<AttachmentView>) -> CompatView {
    if b.len() == 0 {
        CompatView {
            buckets: s.buckets.remove(k),
            stopped: s.stopped,
            owners: if s.stopped.contains(k) {
                s.owners
            } else {
                s.owners.remove(k)
            },
        }
    } else {
        CompatView { buckets: s.buckets.insert(k, b), stopped: s.stopped, owners: s.owners }
    }
}

/// The state after replacing a project's attachments with `b` and its stop
/// marker with `stop`; a project left with neither loses its owner.
pub open spec fn replaced(s: CompatView, k: Seq<char>, b: Seq<AttachmentView>, stop: bool) -> CompatView {
    CompatView {
        buckets: if b.len() == 0 {
            s.buckets.remove(k)
        } else {
            s.buckets.insert(k, b)
        },
        stopped: if stop {
            s.stopped.insert(k)
        } else {
            s.stopped.remove(k)
        },
        owners: if b.len() == 0 && !stop {
            s.owners.remove(k)
        } else {
            s.owners
        },
    }
}

/// The invariants of exact compatibility authority: every entry is non-empty
/// and owned by its key, and every owner belongs to a project with
/// attachments or a stop marker.
pub open spec fn exact_ok(s: CompatView) -> bool {
    &&& forall|k: Seq<char>| #[trigger]
        s.buckets.contains_key(k) ==> s.buckets[k].len() > 0 && forall|i: int|
            0 <= i < s.buckets[k].len() ==> (#[trigger] s.buckets[k][i]).project_path == k
    &&& forall|k: Seq<char>| #[trigger]
        s.owners.contains_key(k) ==> (s.buckets.contains_key(k) && s.buckets[k].len() > 0) || s.stopped.contains(k)
}

/// Each attachment of `b` paired with its liveness.
pub open spec fn with_liveness(b: Seq<AttachmentView>, now: u64, live: Seq<u32>, legacy: bool) -> Seq<
    (AttachmentView, bool),
> {
    Seq::new(b.len(), |i: int| (b[i], attachment_alive(b[i], now, live, legacy)))
}

/// The lifecycle evidence of one project.
pub open spec fn evidence_view(s: CompatView, k: Seq<char>, now: u64, live: Seq<u32>) -> EvidenceView {
    EvidenceView {
        project_path: k,
        attachments: with_liveness(bucket_or_empty(s, k), now, live, !s.owners.contains_key(k)),
        manually_stopped: s.stopped.contains(k),
    }
}

/// The state after removing exactly the record `x` of project `k`, if held.
pub open spec fn without_exact(s: CompatView, k: Seq<char>, x: AttachmentView) -> CompatView {
    let b = bucket_or_empty(s, k);
    if s.buckets.contains_key(k) && b.contains(x) {
        settled(s, k, b.remove(first_position_of(b, x)))
    } else {
        s
    }
}

pub open spec fn first_position_of(b: Seq<AttachmentView>, x: AttachmentView) -> int {
    super::model::first_position(b, x)
}

/// The liveness evidence of a list, in list order.
pub fn liveness_of(v: &Vec<Attachment>, now: u64, live: &[u32], legacy: bool) -> (r: Vec<AttachmentLivenessEvidence>)
    ensures
        Seq::new(r@.len(), |i: int| (r@[i].attachment@, r@[i].alive)) == with_liveness(views(v@), now, live@, legacy),
{
    let mut r: Vec<AttachmentLivenessEvidence> = Vec::new();
    let mut i: usize = 0;
    while i < v.len()
        invariant
            i <= v@.len(),
            r@.len() == i,
            forall|j: int| 0 <= j < i ==> (#[trigger] r@[j]).attachment@ == v@[j]@ && r@[j].alive == attachment_alive(
                v@[j]@,
                now,
                live@,
                legacy,
            ),
        decreases v@.len() - i,
    {
        let alive = is_alive(&v[i], now, live, legacy);
        r.push(AttachmentLivenessEvidence { attachment: copy_attachment(&v[i]), alive });
        i = i + 1;
    }
    assert(Seq::new(r@.len(), |i: int| (r@[i].attachment@, r@[i].alive)) =~= with_liveness(
        views(v@),
        now,
        live@,
        legacy,
    ));
    r
}

/// What is left of `candidates` after each one cancels the first equal,
/// not yet cancelled, item of `comparison`.
pub fn exact_attachment_difference(candidates: &Vec<Attachment>, comparison: &Vec<Attachment>) -> (r: Vec<Attachment>)
    ensures
        views(r@) == exact_difference(views(candidates@), views(comparison@)),
{
    let ghost c = views(candidates@);
    let mut unmatched = copy_attachments(comparison);
    let mut difference: Vec<Attachment> = Vec::new();
    let mut i: usize = 0;
    proof {
        assert(c.subrange(0, c.len() as int) =~= c);
        assert(views(difference@) + exact_difference(c, views(unmatched@)) =~= exact_difference(c, views(comparison@)));
    }
    while i < candidates.len()
        invariant
            i <= candidates@.len(),
            c == views(candidates@),
            views(difference@) + exact_difference(c.subrange(i as int, c.len() as int), views(unmatched@))
                == exact_difference(c, views(comparison@)),
        decreases candidates@.len() - i,
    {
        let ghost rest = c.subrange(i as int, c.len() as int);
        let ghost u = views(unmatched@);
        let ghost d = views(difference@);
        let x = &candidates[i];
        proof {
            assert(rest[0] == x@);
            assert(rest.subrange(1, rest.len() as int) =~= c.subrange(i + 1, c.len() as int));
        }
        let mut j: usize = 0;
        while j < unmatched.len()
            invariant
                j <= unmatched@.len(),
                u == views(unmatched@),
                forall|m: int| 0 <= m < j ==> u[m] != x@,
            ensures
                j <= unmatched@.len(),
                j < unmatched@.len() ==> u[j as int] == x@,
            decreases unmatched@.len() - j,
        {
            if same_attachment(&unmatched[j], x) {
                break;
            }
            j = j + 1;
        }
        if j < unmatched.len() {
            proof {
                assert(first_match(u, x@, j as int));
                lemma_first_position(u, x@, j as int);
                assert(u.contains(x@));
            }
            unmatched.remove(j);
            proof {
                assert(views(unmatched@) =~= u.remove(j as int));
            }
        } else {
            proof {
                assert(!u.contains(x@));
            }
            difference.push(copy_attachment(x));
            proof {
                assert(views(difference@) =~= d.push(x@));
                assert(d.push(x@) + exact_difference(c.subrange(i + 1, c.len() as int), u) =~= d + (seq![x@]
                    + exact_difference(c.subrange(i + 1, c.len() as int), u)));
            }
        }
        i = i + 1;
    }
    proof {
        assert(c.subrange(c.len() as int, c.len() as int) =~= Seq::<AttachmentView>::empty());
        assert(views(difference@) + Seq::<AttachmentView>::empty() =~= views(difference@));
    }
    difference
}

impl Default for AttachmentStoreSnapshot {
    fn default() -> (r: Self)
        ensures
            r.wf(),
            r@ == empty_state(),
    {
        AttachmentStoreSnapshot::empty()
    }
}

impl AttachmentStoreSnapshot {
    /// Each table in strictly ascending path order.
    pub open spec fn wf(&self) -> bool {
        &&& keyed(bucket_table(self.attachments@))
        &&& texts_ascending(string_views(self.manually_stopped@))
        &&& keyed(owner_table(self.instance_owners@))
    }

    /// The state with nothing in it.
    pub fn empty() -> (r: Self)
        ensures
            r.wf(),
            r@ == empty_state(),
    {
        let r = AttachmentStoreSnapshot { attachments: Vec::new(), manually_stopped: Vec::new(), instance_owners: Vec::new() };
        proof {
            assert(table_map(bucket_table(r.attachments@)) =~= Map::empty());
            assert(table_map(owner_table(r.instance_owners@)) =~= Map::empty());
            assert(string_views(r.manually_stopped@).to_set() =~= Set::empty());
        }
        r
    }

    /// Whether every table is in strictly ascending path order.
    pub fn is_well_formed(&self) -> (r: bool)
        ensures
            r == self.wf(),
    {
        let a = ascending_keys(&self.attachments);
        let o = ascending_keys(&self.instance_owners);
        let s = ascending_texts(&self.manually_stopped);
        proof {
            assert(keys_of(bucket_table(self.attachments@)) =~= string_keys(self.attachments@));
            assert(keys_of(owner_table(self.instance_owners@)) =~= string_keys(self.instance_owners@));
        }
        a && o && s
    }

    /// Where a project's entry stands, if it has one.
    pub(crate) fn locate_bucket(&self, k: &String) -> (r: Option<usize>)
        requires
            self.wf(),
        ensures
            r matches Some(i) ==> i < self.attachments@.len() && self.attachments@[i as int].0@ == k@
                && self@.buckets.contains_key(k@) && self@.buckets[k@] == views(self.attachments@[i as int].1@),
            r is None ==> !self@.buckets.contains_key(k@),
    {
        let ghost t = bucket_table(self.attachments@);
        proof {
            assert(keys_of(t) =~= string_keys(self.attachments@));
        }
        let (found, i) = key_slot(&self.attachments, k.as_str());
        if found {
            proof {
                lemma_table_entry(t, i as int);
            }
            Some(i)
        } else {
            proof {
                lemma_table_absent(t, k@, i as int);
            }
            None
        }
    }

    /// A project's attachments, none when it has no entry.
    pub(crate) fn bucket(&self, k: &String) -> (r: Vec<Attachment>)
        requires
            self.wf(),
        ensures
            views(r@) == bucket_or_empty(self@, k@),
    {
        match self.locate_bucket(k) {
            Some(i) => copy_attachments(&self.attachments[i].1),
            None => {
                let r: Vec<Attachment> = Vec::new();
                assert(views(r@) =~= Seq::<AttachmentView>::empty());
                r
            },
        }
    }

    /// Give project `k` the attachments `b`.
    pub(crate) fn put_bucket(&mut self, k: &String, b: Vec<Attachment>)
        requires
            old(self).wf(),
        ensures
            final(self).wf(),
            final(self)@ == (CompatView {
                buckets: old(self)@.buckets.insert(k@, views(b@)),
                stopped: old(self)@.stopped,
                owners: old(self)@.owners,
            }),
    {
        let ghost t = bucket_table(self.attachments@);
        let ghost vb = views(b@);
        proof {
            assert(keys_of(t) =~= string_keys(self.attachments@));
        }
        let (found, i) = key_slot(&self.attachments, k.as_str());
        if found {
            proof {
                lemma_table_update(t, i as int, vb);
            }
            self.attachments.set(i, (k.clone(), b));
            proof {
                assert(bucket_table(self.attachments@) =~= t.update(i as int, (t[i as int].0, vb)));
            }
        } else {
            proof {
                lemma_table_insert(t, i as int, k@, vb);
            }
            self.attachments.insert(i, (k.clone(), b));
            proof {
                assert(bucket_table(self.attachments@) =~= t.insert(i as int, (k@, vb)));
            }
        }
        proof {
            assert(self@ =~= CompatView {
                buckets: old(self)@.buckets.insert(k@, vb),
                stopped: old(self)@.stopped,
                owners: old(self)@.owners,
            });
        }
    }

    /// Drop project `k`'s entry; whether it had one.
    pub(crate) fn drop_bucket(&mut self, k: &String) -> (r: bool)
        requires
            old(self).wf(),
        ensures
            final(self).wf(),
            r == old(self)@.buckets.contains_key(k@),
            final(self)@ == (CompatView {
                buckets: old(self)@.buckets.remove(k@),
                stopped: old(self)@.stopped,
                owners: old(self)@.owners,
            }),
    {
        let ghost t = bucket_table(self.attachments@);
        proof {
            assert(keys_of(t) =~= string_keys(self.attachments@));
        }
        let (found, i) = key_slot(&self.attachments, k.as_str());
        if found {
            proof {
                lemma_table_remove(t, i as int);
                lemma_table_entry(t, i as int);
            }
            self.attachments.remove(i);
            proof {
                assert(bucket_table(self.attachments@) =~= t.remove(i as int));
                assert(self@ =~= CompatView {
                    buckets: old(self)@.buckets.remove(k@),
                    stopped: old(self)@.stopped,
                    owners: old(self)@.owners,
                });
            }
            true
        } else {
            proof {
                lemma_table_absent(t, k@, i as int);
                assert(old(self)@.buckets.remove(k@) =~= old(self)@.buckets);
                assert(self@ =~= CompatView {
                    buckets: old(self)@.buckets.remove(k@),
                    stopped: old(self)@.stopped,
                    owners: old(self)@.owners,
                });
            }
            false
        }
    }

    /// Project `k`'s instance owner.
    pub(crate) fn owner_at(&self, k: &String) -> (r: Option<ProjectInstanceId>)
        requires
            self.wf(),
        ensures
            r == owner_of(self@, k@),
    {
        let ghost t = owner_table(self.instance_owners@);
        proof {
            assert(keys_of(t) =~= string_keys(self.instance_owners@));
        }
        let (found, i) = key_slot(&self.instance_owners, k.as_str());
        if found {
            proof {
                lemma_table_entry(t, i as int);
            }
            Some(self.instance_owners[i].1)
        } else {
            proof {
                lemma_table_absent(t, k@, i as int);
            }
            None
        }
    }

    /// Make `id` the owner of project `k`.
    pub(crate) fn put_owner(&mut self, k: &String, id: ProjectInstanceId)
        requires
            old(self).wf(),
        ensures
            final(self).wf(),
            final(self)@ == (CompatView {
                buckets: old(self)@.buckets,
                stopped: old(self)@.stopped,
                owners: old(self)@.owners.insert(k@, id),
            }),
    {
        let ghost t = owner_table(self.instance_owners@);
        proof {
            assert(keys_of(t) =~= string_keys(self.instance_owners@));
        }
        let (found, i) = key_slot(&self.instance_owners, k.as_str());
        if found {
            proof {
                lemma_table_update(t, i as int, id);
            }
            self.instance_owners.set(i, (k.clone(), id));
            proof {
                assert(owner_table(self.instance_owners@) =~= t.update(i as int, (t[i as int].0, id)));
            }
        } else {
            proof {
                lemma_table_insert(t, i as int, k@, id);
            }
            self.instance_owners.insert(i, (k.clone(), id));
            proof {
                assert(owner_table(self.instance_owners@) =~= t.insert(i as int, (k@, id)));
            }
        }
        proof {
            assert(self@ =~= CompatView {
                buckets: old(self)@.buckets,
                stopped: old(self)@.stopped,
                owners: old(self)@.owners.insert(k@, id),
            });
        }
    }

    /// Drop project `k`'s owner; whether it had one.
    pub(crate) fn drop_owner(&mut self, k: &String) -> (r: bool)
        requires
            old(self).wf(),
        ensures
            final(self).wf(),
            r == old(self)@.owners.contains_key(k@),
            final(self)@ == (CompatView {
                buckets: old(self)@.buckets,
                stopped: old(self)@.stopped,
                owners: old(self)@.owners.remove(k@),
            }),
    {
        let ghost t = owner_table(self.instance_owners@);
        proof {
            assert(keys_of(t) =~= string_keys(self.instance_owners@));
        }
        let (found, i) = key_slot(&self.instance_owners, k.as_str());
        if found {
            proof {
                lemma_table_remove(t, i as int);
                lemma_table_entry(t, i as int);
            }
            self.instance_owners.remove(i);
            proof {
                assert(owner_table(self.instance_owners@) =~= t.remove(i as int));
                assert(self@ =~= CompatView {
                    buckets: old(self)@.buckets,
                    stopped: old(self)@.stopped,
                    owners: old(self)@.owners.remove(k@),
                });
            }
            true
        } else {
            proof {
                lemma_table_absent(t, k@, i as int);
                assert(old(self)@.owners.remove(k@) =~= old(self)@.owners);
                assert(self@ =~= CompatView {
                    buckets: old(self)@.buckets,
                    stopped: old(self)@.stopped,
                    owners: old(self)@.owners.remove(k@),
                });
            }
            false
        }
    }

    /// Mark project `k` manually stopped.
    pub(crate) fn put_stop(&mut self, k: &String)
        requires
            old(self).wf(),
        ensures
            final(self).wf(),
            final(self)@ == (CompatView {
                buckets: old(self)@.buckets,
                stopped: old(self)@.stopped.insert(k@),
                owners: old(self)@.owners,
            }),
    {
        insert_text(&mut self.manually_stopped, k);
        proof {
            assert(self@ =~= CompatView {
                buckets: old(self)@.buckets,
                stopped: old(self)@.stopped.insert(k@),
                owners: old(self)@.owners,
            });
        }
    }

    /// Clear project `k`'s stop marker; whether it had one.
    pub(crate) fn drop_stop(&mut self, k: &String) -> (r: bool)
        requires
            old(self).wf(),
        ensures
            final(self).wf(),
            r == old(self)@.stopped.contains(k@),
            final(self)@ == (CompatView {
                buckets: old(self)@.buckets,
                stopped: old(self)@.stopped.remove(k@),
                owners: old(self)@.owners,
            }),
    {
        let r = remove_text(&mut self.manually_stopped, k);
        proof {
            assert(self@ =~= CompatView {
                buckets: old(self)@.buckets,
                stopped: old(self)@.stopped.remove(k@),
                owners: old(self)@.owners,
            });
        }
        r
    }

    /// Whether project `k` is manually stopped.
    pub(crate) fn has_stop(&self, k: &String) -> (r: bool)
        ensures
            r == self@.stopped.contains(k@),
    {
        has_text(&self.manually_stopped, k)
    }

    /// Make `b` project `k`'s attachments; see `settled`.
    pub(crate) fn settle(&mut self, k: &String, b: Vec<Attachment>)
        requires
            old(self).wf(),
        ensures
            final(self).wf(),
            final(self)@ == settled(old(self)@, k@, views(b@)),
    {
        if b.len() == 0 {
            self.drop_bucket(k);
            if !self.has_stop(k) {
                self.drop_owner(k);
            }
            proof {
                assert(self@ =~= settled(old(self)@, k@, views(b@)));
            }
        } else {
            self.put_bucket(k, b);
            proof {
                assert(self@ =~= settled(old(self)@, k@, views(b@)));
            }
        }
    }

    /// The exact compatibility state of one project.
    pub fn project(&self, project_path: &String) -> (r: AttachmentProjectSnapshot)
        requires
            self.wf(),
        ensures
            r@ == project_view(self@, project_path@),
    {
        AttachmentProjectSnapshot {
            project_path: project_path.clone(),
            attachments: self.bucket(project_path),
            manually_stopped: self.has_stop(project_path),
            instance_owner: self.owner_at(project_path),
        }
    }

    /// Replace one project's complete compatibility state and return the
    /// exact before/after delta. Parked runtime evidence is accepted here:
    /// whole-project replacement is the seam of migration and replay.
    pub fn replace_project(&mut self, project_path: &String, attachments: Vec<Attachment>, manually_stopped: bool) -> (r:
        AttachmentProjectDelta)
        requires
            old(self).wf(),
        ensures
            final(self).wf(),
            final(self)@ == replaced(
                old(self)@,
                project_path@,
                all_relabeled(views(attachments@), project_path@),
                manually_stopped,
            ),
            r@.before == project_view(old(self)@, project_path@),
            r@.after == project_view(final(self)@, project_path@),
            r@.removed == exact_difference(r@.before.attachments, r@.after.attachments),
            r@.added == exact_difference(r@.after.attachments, r@.before.attachments),
    {
        let ghost k = project_path@;
        let before = self.project(project_path);
        let relabel = relabel_all(&attachments, project_path);
        let ghost b = views(relabel@);
        let empty = relabel.len() == 0;
        if empty {
            self.drop_bucket(project_path);
        } else {
            let kept = copy_attachments(&relabel);
            self.put_bucket(project_path, kept);
        }
        if manually_stopped {
            self.put_stop(project_path);
        } else {
            self.drop_stop(project_path);
        }
        if empty && !manually_stopped {
            self.drop_owner(project_path);
        }
        proof {
            assert(self@ =~= replaced(old(self)@, k, b, manually_stopped));
            if empty {
                assert(b =~= Seq::<AttachmentView>::empty());
            }
        }
        let instance_owner = self.owner_at(project_path);
        let after = AttachmentProjectSnapshot {
            project_path: project_path.clone(),
            attachments: relabel,
            manually_stopped,
            instance_owner,
        };
        let removed = exact_attachment_difference(&before.attachments, &after.attachments);
        let added = exact_attachment_difference(&after.attachments, &before.attachments);
        AttachmentProjectDelta { before, after, removed, added }
    }

    /// Project `k`'s instance owner.
    pub fn instance_owner(&self, project_path: &String) -> (r: Option<ProjectInstanceId>)
        requires
            self.wf(),
        ensures
            r == owner_of(self@, project_path@),
    {
        self.owner_at(project_path)
    }

    /// Record `instance_id` as the owner of a project.
    pub fn set_instance_owner(&mut self, project_path: &String, instance_id: ProjectInstanceId)
        requires
            old(self).wf(),
        ensures
            final(self).wf(),
            final(self)@ == (CompatView {
                buckets: old(self)@.buckets,
                stopped: old(self)@.stopped,
                owners: old(self)@.owners.insert(project_path@, instance_id),
            }),
    {
        self.put_owner(project_path, instance_id);
    }

    /// Forget a project's owner.
    pub fn clear_instance_owner(&mut self, project_path: &String)
        requires
            old(self).wf(),
        ensures
            final(self).wf(),
            final(self)@ == (CompatView {
                buckets: old(self)@.buckets,
                stopped: old(self)@.stopped,
                owners: old(self)@.owners.remove(project_path@),
            }),
    {
        self.drop_owner(project_path);
    }

    /// Check the invariants of exact compatibility authority; the error
    /// names the first project that breaks one.
    pub fn validate_exact(&self) -> (r: Result<(), String>)
        requires
            self.wf(),
        ensures
            r is Ok <==> exact_ok(self@),
    {
        let ghost t = bucket_table(self.attachments@);
        let ghost s = self@;
        let mut i: usize = 0;
        while i < self.attachments.len()
            invariant
                i <= self.attachments@.len(),
                t == bucket_table(self.attachments@),
                s == self@,
                keyed(t),
                forall|j: int|
                    0 <= j < i ==> t[j].1.len() > 0 && forall|m: int|
                        0 <= m < t[j].1.len() ==> (#[trigger] t[j].1[m]).project_path == t[j].0,
            decreases self.attachments@.len() - i,
        {
            let path = &self.attachments[i].0;
            let list = &self.attachments[i].1;
            assert(t[i as int].0 == path@ && t[i as int].1 == views(list@));
            if list.len() == 0 {
                proof {
                    lemma_table_entry(t, i as int);
                }
                let mut message = String::new();
                push_str(&mut message, "attachment state contains an empty compatibility entry at `");
                push_str(&mut message, path.as_str());
                push_str(&mut message, "`");
                return Err(message);
            }
            let mut m: usize = 0;
            while m < list.len()
                invariant
                    m <= list@.len(),
                    i < self.attachments@.len(),
                    t == bucket_table(self.attachments@),
                    s == self@,
                    keyed(t),
                    t[i as int].0 == path@ && t[i as int].1 == views(list@),
                    forall|q: int| 0 <= q < m ==> (#[trigger] t[i as int].1[q]).project_path == t[i as int].0,
                decreases list@.len() - m,
            {
                if list[m].project_path != *path {
                    proof {
                        lemma_table_entry(t, i as int);
                        assert(s.buckets[path@][m as int].project_path != path@);
                    }
                    let mut message = String::new();
                    push_str(&mut message, "attachment state at `");
                    push_str(&mut message, path.as_str());
                    push_str(&mut message, "` contains an attachment owned by a different project path");
                    return Err(message);
                }
                m = m + 1;
            }
            i = i + 1;
        }
        assert forall|k: Seq<char>| #[trigger] s.buckets.contains_key(k) implies s.buckets[k].len() > 0 && forall|m: int|
            0 <= m < s.buckets[k].len() ==> (#[trigger] s.buckets[k][m]).project_path == k by {
            let j = choose|j: int| #[trigger] holds_key(t, k, j);
            lemma_table_entry(t, j);
        }
        let ghost o = owner_table(self.instance_owners@);
        let mut n: usize = 0;
        while n < self.instance_owners.len()
            invariant
                n <= self.instance_owners@.len(),
                o == owner_table(self.instance_owners@),
                s == self@,
                self.wf(),
                forall|j: int|
                    0 <= j < n ==> (s.buckets.contains_key(#[trigger] o[j].0) && s.buckets[o[j].0].len() > 0)
                        || s.stopped.contains(o[j].0),
            decreases self.instance_owners@.len() - n,
        {
            let path = &self.instance_owners[n].0;
            assert(o[n as int].0 == path@);
            let held = match self.locate_bucket(path) {
                Some(b) => self.attachments[b].1.len() > 0,
                None => false,
            };
            if !held && !self.has_stop(path) {
                proof {
                    lemma_table_entry(o, n as int);
                    assert(s.owners.contains_key(path@));
                    assert(!(s.buckets.contains_key(path@) && s.buckets[path@].len() > 0));
                    assert(!exact_ok(s));
                }
                let mut message = String::new();
                push_str(&mut message, "attachment state contains an instance owner without compatibility state at `");
                push_str(&mut message, path.as_str());
                push_str(&mut message, "`");
                return Err(message);
            }
            n = n + 1;
        }
        assert forall|k: Seq<char>| #[trigger] s.owners.contains_key(k) implies (s.buckets.contains_key(k)
            && s.buckets[k].len() > 0) || s.stopped.contains(k) by {
            let j = choose|j: int| #[trigger] holds_key(o, k, j);
            assert(o[j].0 == k);
        }
        Ok(())
    }

    /// The lifecycle evidence of one project at `now`, when exactly the
    /// processes in `live_pids` run.
    pub fn compatibility_evidence_at(&self, project_path: &String, now: u64, live_pids: &[u32]) -> (r:
        AttachmentCompatibilityEvidence)
        requires
            self.wf(),
        ensures
            r@ == evidence_view(self@, project_path@, now, live_pids@),
    {
        let list = self.bucket(project_path);
        let legacy = self.owner_at(project_path).is_none();
        let attachments = liveness_of(&list, now, live_pids, legacy);
        AttachmentCompatibilityEvidence {
            project_path: project_path.clone(),
            attachments,
            manually_stopped: self.has_stop(project_path),
        }
    }

    /// Remove exactly the observed record `attachment` (relabeled to the
    /// project) from a project; whether it was there. A refreshed owner with
    /// the same window identity is left alone.
    pub fn remove_exact_attachment(&mut self, project_path: &String, attachment: &Attachment) -> (r: bool)
        requires
            old(self).wf(),
        ensures
            final(self).wf(),
            final(self)@ == without_exact(old(self)@, project_path@, relabeled(attachment@, project_path@)),
            r == (old(self)@.buckets.contains_key(project_path@) && bucket_or_empty(old(self)@, project_path@).contains(
                relabeled(attachment@, project_path@),
            )),
    {
        let ghost x = relabeled(attachment@, project_path@);
        let slot = self.locate_bucket(project_path);
        let index = match slot {
            Some(i) => i,
            None => {
                return false;
            },
        };
        let expected = Attachment {
            project_path: project_path.clone(),
            source: super::model::copy_source(&attachment.source),
            created_at: attachment.created_at,
        };
        let mut list = copy_attachments(&self.attachments[index].1);
        let ghost u = views(list@);
        let mut j: usize = 0;
        while j < list.len()
            invariant
                j <= list@.len(),
                u == views(list@),
                expected@ == x,
                forall|m: int| 0 <= m < j ==> u[m] != x,
            ensures
                j <= list@.len(),
                j < list@.len() ==> u[j as int] == x,
            decreases list@.len() - j,
        {
            if same_attachment(&list[j], &expected) {
                break;
            }
            j = j + 1;
        }
        if j == list.len() {
            proof {
                assert(!u.contains(x));
            }
            return false;
        }
        proof {
            assert(first_match(u, x, j as int));
            lemma_first_position(u, x, j as int);
        }
        list.remove(j);
        proof {
            assert(views(list@) =~= u.remove(j as int));
        }
        self.settle(project_path, list);
        true
    }
}

/// Each attachment of `v` relabeled to `path`.
pub(crate) fn relabel_all(v: &Vec<Attachment>, path: &String) -> (r: Vec<Attachment>)
    ensures
        views(r@) == all_relabeled(views(v@), path@),
{
    let mut r: Vec<Attachment> = Vec::new();
    let mut i: usize = 0;
    while i < v.len()
        invariant
            i <= v@.len(),
            r@.len() == i,
            forall|j: int| 0 <= j < i ==> (#[trigger] r@[j])@ == relabeled(v@[j]@, path@),
        decreases v@.len() - i,
    {
        let a = Attachment {
            project_path: path.clone(),
            source: super::model::copy_source(&v[i].source),
            created_at: v[i].created_at,
        };
        r.push(a);
        i = i + 1;
    }
    assert(views(r@) =~= all_relabeled(views(v@), path@));
    r
}

/// Whether the keys of a keyed vector strictly ascend.
fn ascending_keys<V>(v: &Vec<(String, V)>) -> (r: bool)
    ensures
        r == texts_ascending(string_keys(v@)),
{
    let ghost s = string_keys(v@);
    if v.len() == 0 {
        return true;
    }
    let mut i: usize = 1;
    while i < v.len()
        invariant
            1 <= i <= v@.len(),
            s == string_keys(v@),
            forall|a: int, b: int| 0 <= a < b < i ==> crate::text::lex_lt(#[trigger] s[a], #[trigger] s[b]),
        decreases v@.len() - i,
    {
        let x = crate::text::str_chars(v[i - 1].0.as_str());
        let y = crate::text::str_chars(v[i].0.as_str());
        if crate::text::compare_chars(x.as_slice(), y.as_slice()) >= 0 {
            proof {
                assert(s[i - 1] == x@ && s[i as int] == y@);
            }
            return false;
        }
        proof {
            assert forall|a: int, b: int| 0 <= a < b < i + 1 implies crate::text::lex_lt(#[trigger] s[a], #[trigger] s[b]) by {
                if b == i && a < i - 1 {
                    crate::text::lemma_lex_transitive(s[a], s[i - 1], s[b]);
                }
            }
        }
        i = i + 1;
    }
    true
}

/// Whether a list of texts strictly ascends.
fn ascending_texts(v: &Vec<String>) -> (r: bool)
    ensures
        r == texts_ascending(string_views(v@)),
{
    let ghost s = string_views(v@);
    if v.len() == 0 {
        return true;
    }
    let mut i: usize = 1;
    while i < v.len()
        invariant
            1 <= i <= v@.len(),
            s == string_views(v@),
            forall|a: int, b: int| 0 <= a < b < i ==> crate::text::lex_lt(#[trigger] s[a], #[trigger] s[b]),
        decreases v@.len() - i,
    {
        let x = crate::text::str_chars(v[i - 1].as_str());
        let y = crate::text::str_chars(v[i].as_str());
        if crate::text::compare_chars(x.as_slice(), y.as_slice()) >= 0 {
            proof {
                assert(s[i - 1] == x@ && s[i as int] == y@);
            }
            return false;
        }
        proof {
            assert forall|a: int, b: int| 0 <= a < b < i + 1 implies crate::text::lex_lt(#[trigger] s[a], #[trigger] s[b]) by {
                if b == i && a < i - 1 {
                    crate::text::lemma_lex_transitive(s[a], s[i - 1], s[b]);
                }
            }
        }
        i = i + 1;
    }
    true
}

} // verus!
