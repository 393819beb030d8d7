//! The in-memory attachment compatibility store: attaching, detaching,
//! manual stops, reaping, and the listing section of each project.

use super::model::{
    all_relabeled, any_live, attachment_alive, copy_attachment, copy_attachments, has_live, is_alive,
    matches_source, source_matches, views, Attachment, AttachmentSource, AttachmentView, SourceView,
};
use super::state::{
    bucket_or_empty, bucket_table, empty_state, evidence_view, owner_table, replaced, settled,
    AttachmentCompatibilityEvidence, AttachmentProjectDelta, AttachmentStoreSnapshot, CompatView,
};
use super::ProjectSection;
use crate::catalog::records::clone_strings;
use crate::catalog::texts_ascending;
use crate::domain::string_views;
use crate::identity::ProjectInstanceId;
use crate::keyed::{
    holds_key, insert_text, keyed, keys_of, lemma_table_entry, lemma_table_insert, table_map,
};
use crate::text::{lemma_lex_transitive, lex_lt, push_str};
use vstd::prelude::*;

verus! {

/// `b` without the sources that `needle` matches.
pub open spec fn without_source(b: Seq<AttachmentView>, needle: SourceView) -> Seq<AttachmentView> {
    b.filter(|a: AttachmentView| !source_matches(needle, a.source))
}

/// `b` with only its pins and parked runtime evidence.
pub open spec fn pins_and_parked(b: Seq<AttachmentView>) -> Seq<AttachmentView> {
    b.filter(|a: AttachmentView| a.source is Pin || a.source is Runtime)
}

/// `b` with only what is alive at `now`.
pub open spec fn alive_only(b: Seq<AttachmentView>, now: u64, live: Seq<u32>, legacy: bool) -> Seq<AttachmentView> {
    b.filter(|a: AttachmentView| attachment_alive(a, now, live, legacy))
}

/// Every attachment of `b` is parked runtime evidence.
pub open spec fn all_parked(b: Seq<AttachmentView>) -> bool {
    forall|i: int| 0 <= i < b.len() ==> (#[trigger] b[i]).source is Runtime
}

/// The state after attaching `a` to its project: any attachment its source
/// matches is replaced, and `a` goes last.
pub open spec fn attached(s: CompatView, a: AttachmentView) -> CompatView {
    CompatView {
        buckets: s.buckets.insert(a.project_path, without_source(bucket_or_empty(s, a.project_path), a.source).push(a)),
        stopped: s.stopped,
        owners: s.owners,
    }
}

/// The state after detaching `needle` from project `k`.
pub open spec fn detached(s: CompatView, k: Seq<char>, needle: SourceView) -> CompatView {
    if needle is Runtime || !s.buckets.contains_key(k) {
        s
    } else {
        settled(s, k, without_source(s.buckets[k], needle))
    }
}

/// The state after keeping only the pins and parked evidence of project `k`.
pub open spec fn unattached(s: CompatView, k: Seq<char>) -> CompatView {
    if !s.buckets.contains_key(k) {
        s
    } else {
        settled(s, k, pins_and_parked(s.buckets[k]))
    }
}

/// What survives of project `k`'s attachments at `now`; a project without
/// an owner is judged by the migration rules.
pub open spec fn reaped_bucket(s: CompatView, k: Seq<char>, now: u64, live: Seq<u32>) -> Seq<AttachmentView> {
    alive_only(s.buckets[k], now, live, !s.owners.contains_key(k))
}

/// The state after reaping every project at `now`.
pub open spec fn reaped(s: CompatView, now: u64, live: Seq<u32>) -> CompatView {
    CompatView {
        buckets: Map::new(
            |k: Seq<char>| s.buckets.contains_key(k) && reaped_bucket(s, k, now, live).len() > 0,
            |k: Seq<char>| reaped_bucket(s, k, now, live),
        ),
        stopped: s.stopped,
        owners: Map::new(
            |k: Seq<char>|
                s.owners.contains_key(k) && !(s.buckets.contains_key(k) && reaped_bucket(s, k, now, live).len() == 0
                    && !s.stopped.contains(k)),
            |k: Seq<char>| s.owners[k],
        ),
    }
}

/// The projects whose last live attachment a reap at `now` removes.
pub open spec fn orphaned(s: CompatView, now: u64, live: Seq<u32>) -> Set<Seq<char>> {
    Set::new(
        |k: Seq<char>|
            s.buckets.contains_key(k) && has_live(s.buckets[k]) && !has_live(reaped_bucket(s, k, now, live)),
    )
}

/// The listing section of a project with attachments `b`: active when a
/// source other than a pin or parked evidence holds it, always-on when only
/// pinned, recent otherwise.
pub open spec fn section_of(b: Seq<AttachmentView>) -> ProjectSection {
    if exists|i: int| 0 <= i < b.len() && !((#[trigger] b[i]).source is Pin) && !(b[i].source is Runtime) {
        ProjectSection::Active
    } else if exists|i: int| 0 <= i < b.len() && (#[trigger] b[i]).source is Pin {
        ProjectSection::AlwaysOn
    } else {
        ProjectSection::Recent
    }
}

/// The state with every empty attachment entry left out.
pub open spec fn without_empty(s: CompatView) -> CompatView {
    CompatView {
        buckets: Map::new(|k: Seq<char>| s.buckets.contains_key(k) && s.buckets[k].len() > 0, |k: Seq<char>| s.buckets[k]),
        stopped: s.stopped,
        owners: s.owners,
    }
}

/// The attachments legacy entries give each project, in entry order, every
/// attachment relabeled to its project.
pub open spec fn merged_buckets(e: Seq<(Seq<char>, Seq<AttachmentView>)>) -> Map<Seq<char>, Seq<AttachmentView>>
    decreases e.len(),
{
    if e.len() == 0 {
        Map::empty()
    } else {
        let m = merged_buckets(e.drop_last());
        let k = e.last().0;
        let earlier = if m.contains_key(k) {
            m[k]
        } else {
            Seq::empty()
        };
        m.insert(k, earlier + all_relabeled(e.last().1, k))
    }
}

/// The owners legacy entries give each project, or none when two entries
/// for one project disagree.
pub open spec fn merged_owners(o: Seq<(Seq<char>, ProjectInstanceId)>) -> Option<Map<Seq<char>, ProjectInstanceId>>
    decreases o.len(),
{
    if o.len() == 0 {
        Some(Map::empty())
    } else {
        match merged_owners(o.drop_last()) {
            None => None,
            Some(m) => {
                let (k, id) = o.last();
                if m.contains_key(k) && m[k] != id {
                    None
                } else {
                    Some(m.insert(k, id))
                }
            },
        }
    }
}

/// The attachment compatibility store persisted at one path.
#[derive(Debug)]
pub struct AttachmentStore {
    path: String,
    state: AttachmentStoreSnapshot,
}

impl View for AttachmentStore {
    type V = CompatView;

    closed spec fn view(&self) -> CompatView {
        self.state@
    }
}

/// `b` without the sources `needle` matches.
fn drop_matching(b: &Vec<Attachment>, needle: &AttachmentSource) -> (r: Vec<Attachment>)
    ensures
        views(r@) == without_source(views(b@), needle@),
{
    let ghost f = |a: AttachmentView| !source_matches(needle@, a.source);
    let mut r: Vec<Attachment> = Vec::new();
    let mut i: usize = 0;
    while i < b.len()
        invariant
            i <= b@.len(),
            f == (|a: AttachmentView| !source_matches(needle@, a.source)),
            views(r@) == views(b@).take(i as int).filter(f),
        decreases b@.len() - i,
    {
        proof {
            assert(views(b@).take(i + 1) =~= views(b@).take(i as int).push(views(b@)[i as int]));
            views(b@).take(i as int).lemma_filter_push(views(b@)[i as int], f);
        }
        if !matches_source(needle, &b[i].source) {
            let ghost before = r@;
            r.push(copy_attachment(&b[i]));
            proof {
                assert(views(r@) =~= views(before).push(b@[i as int]@));
            }
        }
        i = i + 1;
    }
    assert(views(b@).take(b@.len() as int) =~= views(b@));
    r
}

/// `b` with only its pins and parked runtime evidence.
fn keep_pins_and_parked(b: &Vec<Attachment>) -> (r: Vec<Attachment>)
    ensures
        views(r@) == pins_and_parked(views(b@)),
{
    let ghost f = |a: AttachmentView| a.source is Pin || a.source is Runtime;
    let mut r: Vec<Attachment> = Vec::new();
    let mut i: usize = 0;
    while i < b.len()
        invariant
            i <= b@.len(),
            f == (|a: AttachmentView| a.source is Pin || a.source is Runtime),
            views(r@) == views(b@).take(i as int).filter(f),
        decreases b@.len() - i,
    {
        proof {
            assert(views(b@).take(i + 1) =~= views(b@).take(i as int).push(views(b@)[i as int]));
            views(b@).take(i as int).lemma_filter_push(views(b@)[i as int], f);
        }
        if matches!(b[i].source, AttachmentSource::Pin | AttachmentSource::Runtime) {
            let ghost before = r@;
            r.push(copy_attachment(&b[i]));
            proof {
                assert(views(r@) =~= views(before).push(b@[i as int]@));
            }
        }
        i = i + 1;
    }
    assert(views(b@).take(b@.len() as int) =~= views(b@));
    r
}

/// `b` with only what is alive at `now`.
fn keep_alive(b: &Vec<Attachment>, now: u64, live: &[u32], legacy: bool) -> (r: Vec<Attachment>)
    ensures
        views(r@) == alive_only(views(b@), now, live@, legacy),
{
    let ghost f = |a: AttachmentView| attachment_alive(a, now, live@, legacy);
    let mut r: Vec<Attachment> = Vec::new();
    let mut i: usize = 0;
    while i < b.len()
        invariant
            i <= b@.len(),
            f == (|a: AttachmentView| attachment_alive(a, now, live@, legacy)),
            views(r@) == views(b@).take(i as int).filter(f),
        decreases b@.len() - i,
    {
        proof {
            assert(views(b@).take(i + 1) =~= views(b@).take(i as int).push(views(b@)[i as int]));
            views(b@).take(i as int).lemma_filter_push(views(b@)[i as int], f);
        }
        if is_alive(&b[i], now, live, legacy) {
            let ghost before = r@;
            r.push(copy_attachment(&b[i]));
            proof {
                assert(views(r@) =~= views(before).push(b@[i as int]@));
            }
        }
        i = i + 1;
    }
    assert(views(b@).take(b@.len() as int) =~= views(b@));
    r
}

/// Whether every attachment of `b` is parked runtime evidence.
fn every_parked(b: &Vec<Attachment>) -> (r: bool)
    ensures
        r == all_parked(views(b@)),
{
    let mut i: usize = 0;
    while i < b.len()
        invariant
            i <= b@.len(),
            forall|j: int| 0 <= j < i ==> (#[trigger] views(b@)[j]).source is Runtime,
        decreases b@.len() - i,
    {
        if !matches!(b[i].source, AttachmentSource::Runtime) {
            assert(!(views(b@)[i as int].source is Runtime));
            return false;
        }
        i = i + 1;
    }
    true
}

impl AttachmentStore {
    #[verifier::type_invariant]
    spec fn ordered(self) -> bool {
        self.state.wf()
    }

    /// The file the store persists to.
    pub closed spec fn location(self) -> Seq<char> {
        self.path@
    }

    /// Take the state out, leaving an empty one behind.
    fn take_state(&mut self) -> (r: AttachmentStoreSnapshot)
        ensures
            r.wf(),
            r@ == old(self)@,
            final(self)@ == empty_state(),
            final(self).location() == old(self).location(),
    {
        proof {
            use_type_invariant(&*self);
        }
        let mut st = AttachmentStoreSnapshot::empty();
        std::mem::swap(&mut st, &mut self.state);
        st
    }

    /// A store persisting at `path`, with nothing in it.
    pub fn new(path: String) -> (r: Self)
        ensures
            r@ == empty_state(),
            r.location() == path@,
    {
        AttachmentStore { path, state: AttachmentStoreSnapshot::empty() }
    }

    /// The file this store persists to.
    pub fn storage_path(&self) -> (r: &String)
        ensures
            r@ == self.location(),
    {
        &self.path
    }

    /// The complete state, in path order.
    pub fn snapshot(&self) -> (r: AttachmentStoreSnapshot)
        ensures
            r.wf(),
            r@ == self@,
    {
        proof {
            use_type_invariant(self);
        }
        copy_state(&self.state)
    }

    /// Make `snapshot` the in-memory state.
    pub fn apply_snapshot(&mut self, snapshot: AttachmentStoreSnapshot)
        requires
            snapshot.wf(),
        ensures
            final(self)@ == snapshot@,
            final(self).location() == old(self).location(),
    {
        self.state = snapshot;
    }

    /// The state to publish: the current one without empty entries, which
    /// ignored legacy sources can leave behind.
    pub fn publication_snapshot(&self) -> (r: AttachmentStoreSnapshot)
        ensures
            r.wf(),
            r@ == without_empty(self@),
    {
        proof {
            use_type_invariant(self);
        }
        let mut r = copy_state(&self.state);
        let ghost s = self.state@;
        let ghost t = bucket_table(self.state.attachments@);
        let mut kept: Vec<(String, Vec<Attachment>)> = Vec::new();
        let mut i: usize = 0;
        proof {
            assert(table_map(bucket_table(kept@)) =~= Map::new(
                |k: Seq<char>| seen_key(t, 0, k) && s.buckets[k].len() > 0,
                |k: Seq<char>| s.buckets[k],
            ));
        }
        while i < self.state.attachments.len()
            invariant
                i <= self.state.attachments@.len(),
                t == bucket_table(self.state.attachments@),
                s == self.state@,
                keyed(t),
                keyed(bucket_table(kept@)),
                forall|j: int| 0 <= j < kept@.len() ==> seen_key(t, i as int, (#[trigger] kept@[j]).0@),
                table_map(bucket_table(kept@)) == Map::new(
                    |k: Seq<char>| seen_key(t, i as int, k) && s.buckets[k].len() > 0,
                    |k: Seq<char>| s.buckets[k],
                ),
            decreases self.state.attachments@.len() - i,
        {
            let ghost kt = bucket_table(kept@);
            proof {
                lemma_table_entry(t, i as int);
            }
            if self.state.attachments[i].1.len() > 0 {
                let entry = (self.state.attachments[i].0.clone(), copy_attachments(&self.state.attachments[i].1));
                proof {
                    lemma_below_all(t, kt, i as int, kept@);
                    lemma_table_insert(kt, kt.len() as int, t[i as int].0, t[i as int].1);
                }
                let ghost before = kept@;
                kept.push(entry);
                proof {
                    assert(bucket_table(kept@) =~= kt.insert(kt.len() as int, (t[i as int].0, t[i as int].1)));
                    lemma_seen_next(t, i as int);
                    assert forall|j: int| 0 <= j < kept@.len() implies seen_key(t, i + 1, (#[trigger] kept@[j]).0@) by {
                        if j < kt.len() {
                            assert(kept@[j] == before[j]);
                            assert(seen_key(t, i as int, before[j].0@));
                        } else {
                            assert(t[i as int].0 == kept@[j].0@);
                        }
                    }
                }
            }
            proof {
                assert(table_map(bucket_table(kept@)) =~= Map::new(
                    |k: Seq<char>| seen_key(t, i + 1, k) && s.buckets[k].len() > 0,
                    |k: Seq<char>| s.buckets[k],
                )) by {
                    lemma_seen_next(t, i as int);
                }
            }
            i = i + 1;
        }
        proof {
            lemma_seen_all(t);
        }
        r.attachments = kept;
        proof {
            assert(r@ =~= without_empty(self@));
        }
        r
    }

    /// Replace one project's state and return the exact delta; see
    /// `AttachmentStoreSnapshot::replace_project`.
    pub fn replace_project(&mut self, project_path: &String, attachments: Vec<Attachment>, manually_stopped: bool) -> (r:
        AttachmentProjectDelta)
        ensures
            final(self)@ == replaced(
                old(self)@,
                project_path@,
                all_relabeled(views(attachments@), project_path@),
                manually_stopped,
            ),
            final(self).location() == old(self).location(),
            r@.before == super::state::project_view(old(self)@, project_path@),
            r@.after == super::state::project_view(final(self)@, project_path@),
            r@.removed == super::model::exact_difference(r@.before.attachments, r@.after.attachments),
            r@.added == super::model::exact_difference(r@.after.attachments, r@.before.attachments),
    {
        let mut st = self.take_state();
        let delta = st.replace_project(project_path, attachments, manually_stopped);
        self.state = st;
        delta
    }

    /// Record `instance_id` as the owner of a project.
    pub fn set_instance_owner(&mut self, project_path: &String, instance_id: ProjectInstanceId)
        ensures
            final(self)@ == (CompatView {
                buckets: old(self)@.buckets,
                stopped: old(self)@.stopped,
                owners: old(self)@.owners.insert(project_path@, instance_id),
            }),
            final(self).location() == old(self).location(),
    {
        let mut st = self.take_state();
        st.put_owner(project_path, instance_id);
        self.state = st;
    }

    /// Forget a project's owner.
    pub fn clear_instance_owner(&mut self, project_path: &String)
        ensures
            final(self)@ == (CompatView {
                buckets: old(self)@.buckets,
                stopped: old(self)@.stopped,
                owners: old(self)@.owners.remove(project_path@),
            }),
            final(self).location() == old(self).location(),
    {
        let mut st = self.take_state();
        st.drop_owner(project_path);
        self.state = st;
    }

    /// Attach a source to the project the attachment names, replacing any
    /// attachment of a matching source; whether the project had no live
    /// attachment before. Parked runtime evidence cannot be created.
    pub fn attach(&mut self, attachment: Attachment) -> (r: Result<bool, String>)
        ensures
            final(self).location() == old(self).location(),
            attachment@.source is Runtime ==> r is Err && final(self)@ == old(self)@,
            !(attachment@.source is Runtime) ==> r == Ok::<bool, String>(
                all_parked(bucket_or_empty(old(self)@, attachment@.project_path)),
            ) && final(self)@ == attached(old(self)@, attachment@),
    {
        if matches!(attachment.source, AttachmentSource::Runtime) {
            let mut message = String::new();
            push_str(&mut message, "Runtime attachment evidence is loaded from legacy state and cannot be created");
            return Err(message);
        }
        let mut st = self.take_state();
        let path = attachment.project_path.clone();
        let existing = st.bucket(&path);
        let is_first = every_parked(&existing);
        let mut entry = drop_matching(&existing, &attachment.source);
        let ghost e = views(entry@);
        entry.push(attachment);
        proof {
            assert(views(entry@) =~= e.push(attachment@));
        }
        st.put_bucket(&path, entry);
        self.state = st;
        Ok(is_first)
    }

    /// Detach a source from a project; whether that removed the project's
    /// last live attachment. Parked runtime evidence cannot be detached.
    pub fn detach(&mut self, project_path: &String, source: &AttachmentSource) -> (r: bool)
        ensures
            final(self).location() == old(self).location(),
            final(self)@ == detached(old(self)@, project_path@, source@),
            r == (!(source@ is Runtime) && old(self)@.buckets.contains_key(project_path@) && has_live(
                old(self)@.buckets[project_path@],
            ) && !has_live(without_source(old(self)@.buckets[project_path@], source@))),
    {
        if matches!(source, AttachmentSource::Runtime) {
            return false;
        }
        let mut st = self.take_state();
        let slot = st.locate_bucket(project_path);
        let index = match slot {
            Some(i) => i,
            None => {
                self.state = st;
                return false;
            },
        };
        let entry = copy_attachments(&st.attachments[index].1);
        let live_before = any_live(&entry);
        let remaining = drop_matching(&entry, source);
        let live_after = any_live(&remaining);
        st.settle(project_path, remaining);
        self.state = st;
        live_before && !live_after
    }

    /// Detach every source but pins (parked evidence stays too); whether that
    /// removed the project's last live attachment.
    pub fn detach_all_non_pin(&mut self, project_path: &String) -> (r: bool)
        ensures
            final(self).location() == old(self).location(),
            final(self)@ == unattached(old(self)@, project_path@),
            r == (old(self)@.buckets.contains_key(project_path@) && has_live(old(self)@.buckets[project_path@])
                && !has_live(pins_and_parked(old(self)@.buckets[project_path@]))),
    {
        let mut st = self.take_state();
        let slot = st.locate_bucket(project_path);
        let index = match slot {
            Some(i) => i,
            None => {
                self.state = st;
                return false;
            },
        };
        let entry = copy_attachments(&st.attachments[index].1);
        let live_before = any_live(&entry);
        let remaining = keep_pins_and_parked(&entry);
        let live_after = any_live(&remaining);
        st.settle(project_path, remaining);
        self.state = st;
        live_before && !live_after
    }

    /// Mark a project manually stopped.
    pub fn mark_stopped(&mut self, project_path: &String)
        ensures
            final(self).location() == old(self).location(),
            final(self)@ == (CompatView {
                buckets: old(self)@.buckets,
                stopped: old(self)@.stopped.insert(project_path@),
                owners: old(self)@.owners,
            }),
    {
        let mut st = self.take_state();
        st.put_stop(project_path);
        self.state = st;
    }

    /// Clear a project's manual stop; a project left without attachments
    /// loses its owner.
    pub fn clear_stopped(&mut self, project_path: &String)
        ensures
            final(self).location() == old(self).location(),
            final(self)@ == (CompatView {
                buckets: old(self)@.buckets,
                stopped: old(self)@.stopped.remove(project_path@),
                owners: if old(self)@.buckets.contains_key(project_path@) {
                    old(self)@.owners
                } else {
                    old(self)@.owners.remove(project_path@)
                },
            }),
    {
        let mut st = self.take_state();
        st.drop_stop(project_path);
        if st.locate_bucket(project_path).is_none() {
            st.drop_owner(project_path);
        }
        self.state = st;
    }

    /// Whether a project is manually stopped.
    pub fn is_stopped(&self, project_path: &String) -> (r: bool)
        ensures
            r == self@.stopped.contains(project_path@),
    {
        self.state.has_stop(project_path)
    }

    /// A project's attachments, in the order they were made.
    pub fn attachments_for(&self, project_path: &String) -> (r: Vec<Attachment>)
        ensures
            views(r@) == bucket_or_empty(self@, project_path@),
    {
        proof {
            use_type_invariant(self);
        }
        self.state.bucket(project_path)
    }

    /// Every project with an attachment entry, in path order.
    pub fn all_projects(&self) -> (r: Vec<String>)
        ensures
            texts_ascending(string_views(r@)),
            string_views(r@).to_set() == self@.buckets.dom(),
    {
        proof {
            use_type_invariant(self);
        }
        let ghost t = bucket_table(self.state.attachments@);
        let mut r: Vec<String> = Vec::new();
        let mut i: usize = 0;
        while i < self.state.attachments.len()
            invariant
                i <= self.state.attachments@.len(),
                t == bucket_table(self.state.attachments@),
                keyed(t),
                string_views(r@) == keys_of(t).take(i as int),
            decreases self.state.attachments@.len() - i,
        {
            let ghost before = r@;
            r.push(self.state.attachments[i].0.clone());
            proof {
                assert(string_views(r@) =~= string_views(before).push(keys_of(t)[i as int]));
                assert(keys_of(t).take(i + 1) =~= keys_of(t).take(i as int).push(keys_of(t)[i as int]));
            }
            i = i + 1;
        }
        proof {
            assert(string_views(r@) =~= keys_of(t));
            assert forall|k: Seq<char>| string_views(r@).to_set().contains(k) <==> self@.buckets.dom().contains(k) by {
                if self@.buckets.dom().contains(k) {
                    let m = choose|m: int| #[trigger] holds_key(t, k, m);
                    assert(keys_of(t)[m] == k);
                }
                if string_views(r@).contains(k) {
                    let m = choose|m: int| 0 <= m < keys_of(t).len() && keys_of(t)[m] == k;
                    assert(holds_key(t, k, m));
                }
            }
            assert(string_views(r@).to_set() =~= self@.buckets.dom());
        }
        r
    }

    /// Remove every attachment, the stop marker, and the owner of a project
    /// being removed; whether there was any.
    pub fn forget_project(&mut self, project_path: &String) -> (r: bool)
        ensures
            final(self).location() == old(self).location(),
            final(self)@ == (CompatView {
                buckets: old(self)@.buckets.remove(project_path@),
                stopped: old(self)@.stopped.remove(project_path@),
                owners: old(self)@.owners.remove(project_path@),
            }),
            r == (old(self)@.buckets.contains_key(project_path@) || old(self)@.stopped.contains(project_path@)
                || old(self)@.owners.contains_key(project_path@)),
    {
        let mut st = self.take_state();
        let removed_attachments = st.drop_bucket(project_path);
        let removed_stop = st.drop_stop(project_path);
        let removed_owner = st.drop_owner(project_path);
        self.state = st;
        removed_attachments || removed_stop || removed_owner
    }

    /// The listing section of a project.
    pub fn section_for(&self, project_path: &String) -> (r: ProjectSection)
        ensures
            r == section_of(bucket_or_empty(self@, project_path@)),
    {
        proof {
            use_type_invariant(self);
        }
        let b = self.state.bucket(project_path);
        let ghost v = views(b@);
        let mut has_pin = false;
        let mut has_active = false;
        let mut i: usize = 0;
        while i < b.len()
            invariant
                i <= b@.len(),
                v == views(b@),
                has_pin == exists|j: int| 0 <= j < i && (#[trigger] v[j]).source is Pin,
                has_active == exists|j: int| 0 <= j < i && !((#[trigger] v[j]).source is Pin) && !(v[j].source is Runtime),
            decreases b@.len() - i,
        {
            match b[i].source {
                AttachmentSource::Pin => {
                    has_pin = true;
                },
                AttachmentSource::Runtime => {},
                _ => {
                    has_active = true;
                },
            }
            proof {
                assert(v[i as int] == b@[i as int]@);
            }
            i = i + 1;
        }
        if has_active {
            ProjectSection::Active
        } else if has_pin {
            ProjectSection::AlwaysOn
        } else {
            ProjectSection::Recent
        }
    }

    /// Reap every project at `now`, when exactly the processes in `live_pids`
    /// run; ownerless projects are judged by the migration rules. Returns, in
    /// path order, the projects whose last live attachment went.
    pub fn reap_stale_attachments_with(&mut self, now: u64, live_pids: &[u32]) -> (r: Vec<String>)
        ensures
            final(self).location() == old(self).location(),
            final(self)@ == reaped(old(self)@, now, live_pids@),
            texts_ascending(string_views(r@)),
            string_views(r@).to_set() == orphaned(old(self)@, now, live_pids@),
    {
        let mut st = self.take_state();
        let ghost s = st@;
        let ghost t = bucket_table(st.attachments@);
        let ghost live = live_pids@;
        let mut kept: Vec<(String, Vec<Attachment>)> = Vec::new();
        let mut emptied: Vec<String> = Vec::new();
        let mut cleared: Vec<String> = Vec::new();
        let mut i: usize = 0;
        proof {
            assert(table_map(bucket_table(kept@)) =~= Map::new(
                |k: Seq<char>| seen_key(t, 0, k) && reaped_bucket(s, k, now, live).len() > 0,
                |k: Seq<char>| reaped_bucket(s, k, now, live),
            ));
            assert(string_views(emptied@).to_set() =~= Set::new(
                |k: Seq<char>| seen_key(t, 0, k) && has_live(s.buckets[k]) && !has_live(reaped_bucket(s, k, now, live)),
            ));
            assert(string_views(cleared@).to_set() =~= Set::new(
                |k: Seq<char>| seen_key(t, 0, k) && reaped_bucket(s, k, now, live).len() == 0,
            ));
        }
        while i < st.attachments.len()
            invariant
                i <= st.attachments@.len(),
                st.wf(),
                s == st@,
                live == live_pids@,
                t == bucket_table(st.attachments@),
                keyed(t),
                keyed(bucket_table(kept@)),
                forall|j: int| 0 <= j < kept@.len() ==> seen_key(t, i as int, (#[trigger] kept@[j]).0@),
                table_map(bucket_table(kept@)) == Map::new(
                    |k: Seq<char>| seen_key(t, i as int, k) && reaped_bucket(s, k, now, live).len() > 0,
                    |k: Seq<char>| reaped_bucket(s, k, now, live),
                ),
                texts_ascending(string_views(emptied@)),
                string_views(emptied@).to_set() == Set::new(
                    |k: Seq<char>|
                        seen_key(t, i as int, k) && has_live(s.buckets[k]) && !has_live(reaped_bucket(s, k, now, live)),
                ),
                string_views(cleared@).to_set() == Set::new(
                    |k: Seq<char>| seen_key(t, i as int, k) && reaped_bucket(s, k, now, live).len() == 0,
                ),
            decreases st.attachments@.len() - i,
        {
            let ghost k = t[i as int].0;
            let ghost kt = bucket_table(kept@);
            let path = st.attachments[i].0.clone();
            let legacy = st.owner_at(&path).is_none();
            let remaining = keep_alive(&st.attachments[i].1, now, live_pids, legacy);
            let live_before = any_live(&st.attachments[i].1);
            let live_after = any_live(&remaining);
            proof {
                lemma_table_entry(t, i as int);
                assert(path@ == k);
                assert(views(remaining@) == reaped_bucket(s, k, now, live));
                lemma_seen_next(t, i as int);
                lemma_not_seen_yet(t, i as int);
            }
            if live_before && !live_after {
                let ghost before = emptied@;
                emptied.push(path.clone());
                proof {
                    lemma_push_ascending(string_views(before), k, t, i as int);
                    assert(string_views(emptied@) =~= string_views(before).push(k));
                }
            }
            if remaining.len() == 0 {
                let ghost before = cleared@;
                cleared.push(path);
                proof {
                    assert(string_views(cleared@) =~= string_views(before).push(k));
                    string_views(before).lemma_push_to_set_commute(k);
                }
            } else {
                proof {
                    lemma_below_all(t, kt, i as int, kept@);
                    lemma_table_insert(kt, kt.len() as int, k, views(remaining@));
                }
                let ghost before = kept@;
                kept.push((path, remaining));
                proof {
                    assert(bucket_table(kept@) =~= kt.insert(kt.len() as int, (k, reaped_bucket(s, k, now, live))));
                    assert forall|j: int| 0 <= j < kept@.len() implies seen_key(t, i + 1, (#[trigger] kept@[j]).0@) by {
                        if j < before.len() {
                            assert(kept@[j] == before[j]);
                            assert(seen_key(t, i as int, before[j].0@));
                        }
                    }
                }
            }
            proof {
                assert(table_map(bucket_table(kept@)) =~= Map::new(
                    |q: Seq<char>| seen_key(t, i + 1, q) && reaped_bucket(s, q, now, live).len() > 0,
                    |q: Seq<char>| reaped_bucket(s, q, now, live),
                ));
                assert(string_views(emptied@).to_set() =~= Set::new(
                    |q: Seq<char>|
                        seen_key(t, i + 1, q) && has_live(s.buckets[q]) && !has_live(reaped_bucket(s, q, now, live)),
                ));
                assert(string_views(cleared@).to_set() =~= Set::new(
                    |q: Seq<char>| seen_key(t, i + 1, q) && reaped_bucket(s, q, now, live).len() == 0,
                ));
            }
            i = i + 1;
        }
        proof {
            lemma_seen_all(t);
        }
        st.attachments = kept;
        let ghost gone = string_views(cleared@);
        let mut j: usize = 0;
        proof {
            assert(st@.owners =~= Map::new(
                |q: Seq<char>| s.owners.contains_key(q) && !(gone.take(0).to_set().contains(q) && !s.stopped.contains(q)),
                |q: Seq<char>| s.owners[q],
            ));
        }
        while j < cleared.len()
            invariant
                j <= cleared@.len(),
                st.wf(),
                gone == string_views(cleared@),
                st@.buckets == reaped(s, now, live).buckets,
                st@.stopped == s.stopped,
                st@.owners == Map::new(
                    |q: Seq<char>| s.owners.contains_key(q) && !(gone.take(j as int).to_set().contains(q) && !s.stopped.contains(q)),
                    |q: Seq<char>| s.owners[q],
                ),
            decreases cleared@.len() - j,
        {
            let ghost before = st@.owners;
            let stopped = st.has_stop(&cleared[j]);
            if !stopped {
                st.drop_owner(&cleared[j]);
            }
            proof {
                assert(gone.take(j + 1) =~= gone.take(j as int).push(gone[j as int]));
                gone.take(j as int).lemma_push_to_set_commute(gone[j as int]);
                assert(st@.owners =~= Map::new(
                    |q: Seq<char>| s.owners.contains_key(q) && !(gone.take(j + 1).to_set().contains(q) && !s.stopped.contains(q)),
                    |q: Seq<char>| s.owners[q],
                ));
            }
            j = j + 1;
        }
        proof {
            assert(gone.take(gone.len() as int) =~= gone);
            assert(st@ =~= reaped(s, now, live));
            assert(string_views(emptied@).to_set() =~= orphaned(s, now, live));
        }
        self.state = st;
        emptied
    }

    /// The lifecycle evidence of every project with attachments or a stop
    /// marker, in path order, at `now` when exactly the processes in
    /// `live_pids` run. Nothing changes.
    pub fn compatibility_evidence_at(&self, now: u64, live_pids: &[u32]) -> (r: Vec<AttachmentCompatibilityEvidence>)
        ensures
            texts_ascending(evidence_paths(r@)),
            evidence_paths(r@).to_set() == self@.buckets.dom().union(self@.stopped),
            forall|j: int| 0 <= j < r@.len() ==> (#[trigger] r@[j])@ == evidence_view(self@, r@[j].project_path@, now, live_pids@),
    {
        proof {
            use_type_invariant(self);
        }
        let ghost s = self@;
        let ghost t = bucket_table(self.state.attachments@);
        let mut paths = clone_strings(&self.state.manually_stopped);
        let mut i: usize = 0;
        proof {
            assert(string_views(paths@) =~= string_views(self.state.manually_stopped@));
            assert(Set::new(|k: Seq<char>| seen_key(t, 0, k)) =~= Set::<Seq<char>>::empty());
            assert(string_views(paths@).to_set() =~= s.stopped.union(Set::new(|k: Seq<char>| seen_key(t, 0, k))));
        }
        while i < self.state.attachments.len()
            invariant
                i <= self.state.attachments@.len(),
                s == self@,
                self.state.wf(),
                t == bucket_table(self.state.attachments@),
                texts_ascending(string_views(paths@)),
                string_views(paths@).to_set() == s.stopped.union(Set::new(|k: Seq<char>| seen_key(t, i as int, k))),
            decreases self.state.attachments@.len() - i,
        {
            insert_text(&mut paths, &self.state.attachments[i].0);
            proof {
                lemma_seen_next(t, i as int);
                assert(string_views(paths@).to_set() =~= s.stopped.union(Set::new(|k: Seq<char>| seen_key(t, i + 1, k))));
            }
            i = i + 1;
        }
        proof {
            lemma_seen_all(t);
            assert(Set::new(|k: Seq<char>| seen_key(t, t.len() as int, k)) =~= s.buckets.dom());
        }
        let mut r: Vec<AttachmentCompatibilityEvidence> = Vec::new();
        let mut j: usize = 0;
        while j < paths.len()
            invariant
                j <= paths@.len(),
                s == self@,
                self.state.wf(),
                r@.len() == j,
                forall|m: int| 0 <= m < j ==> (#[trigger] r@[m]).project_path@ == paths@[m]@,
                forall|m: int| 0 <= m < j ==> (#[trigger] r@[m])@ == evidence_view(s, r@[m].project_path@, now, live_pids@),
            decreases paths@.len() - j,
        {
            let e = self.state.compatibility_evidence_at(&paths[j], now, live_pids);
            r.push(e);
            j = j + 1;
        }
        proof {
            assert(evidence_paths(r@) =~= string_views(paths@));
        }
        r
    }

    /// Build a store from legacy state, whose paths the caller has already
    /// normalized: the attachments of entries for one project are merged in
    /// entry order and relabeled to it, and the owners of entries for one
    /// project must agree.
    pub fn from_legacy_state(
        path: String,
        entries: Vec<(String, Vec<Attachment>)>,
        stopped: Vec<String>,
        owners: Vec<(String, ProjectInstanceId)>,
    ) -> (r: Result<AttachmentStore, String>)
        ensures
            r is Ok <==> merged_owners(owner_table(owners@)) is Some,
            r matches Ok(store) ==> store.location() == path@ && store@ == (CompatView {
                buckets: merged_buckets(bucket_table(entries@)),
                stopped: string_views(stopped@).to_set(),
                owners: merged_owners(owner_table(owners@))->0,
            }),
    {
        let mut st = AttachmentStoreSnapshot::empty();
        let ghost e = bucket_table(entries@);
        let mut i: usize = 0;
        proof {
            assert(e.take(0) =~= Seq::<(Seq<char>, Seq<AttachmentView>)>::empty());
        }
        while i < entries.len()
            invariant
                i <= entries@.len(),
                e == bucket_table(entries@),
                st.wf(),
                st@.buckets == merged_buckets(e.take(i as int)),
                st@.stopped == Set::<Seq<char>>::empty(),
                st@.owners == Map::<Seq<char>, ProjectInstanceId>::empty(),
            decreases entries@.len() - i,
        {
            let key = &entries[i].0;
            let mut combined = st.bucket(key);
            let mut more = super::state::relabel_all(&entries[i].1, key);
            let ghost earlier = views(combined@);
            let ghost added = views(more@);
            combined.append(&mut more);
            proof {
                assert(views(combined@) =~= earlier + added);
                assert(e.take(i + 1).drop_last() =~= e.take(i as int));
                assert(e.take(i + 1).last() == e[i as int]);
            }
            st.put_bucket(key, combined);
            i = i + 1;
        }
        let mut j: usize = 0;
        proof {
            assert(e.take(e.len() as int) =~= e);
            assert(string_views(stopped@).take(0).to_set() =~= Set::<Seq<char>>::empty());
        }
        while j < stopped.len()
            invariant
                j <= stopped@.len(),
                st.wf(),
                st@.buckets == merged_buckets(e),
                st@.stopped == string_views(stopped@).take(j as int).to_set(),
                st@.owners == Map::<Seq<char>, ProjectInstanceId>::empty(),
            decreases stopped@.len() - j,
        {
            st.put_stop(&stopped[j]);
            proof {
                assert(string_views(stopped@).take(j + 1) =~= string_views(stopped@).take(j as int).push(stopped@[j as int]@));
                string_views(stopped@).take(j as int).lemma_push_to_set_commute(stopped@[j as int]@);
            }
            j = j + 1;
        }
        let ghost o = owner_table(owners@);
        let mut n: usize = 0;
        proof {
            assert(string_views(stopped@).take(stopped@.len() as int) =~= string_views(stopped@));
            assert(o.take(0) =~= Seq::<(Seq<char>, ProjectInstanceId)>::empty());
        }
        while n < owners.len()
            invariant
                n <= owners@.len(),
                o == owner_table(owners@),
                st.wf(),
                st@.buckets == merged_buckets(e),
                st@.stopped == string_views(stopped@).to_set(),
                merged_owners(o.take(n as int)) == Some(st@.owners),
            decreases owners@.len() - n,
        {
            let key = &owners[n].0;
            let id = owners[n].1;
            proof {
                assert(o.take(n + 1).drop_last() =~= o.take(n as int));
                assert(o.take(n + 1).last() == o[n as int]);
            }
            match st.owner_at(key) {
                Some(existing) => {
                    if existing != id {
                        proof {
                            lemma_merged_owners_stay_none(o, n + 1);
                            assert(o.take(o.len() as int) =~= o);
                        }
                        let mut message = String::new();
                        push_str(&mut message, "legacy attachment aliases for `");
                        push_str(&mut message, key.as_str());
                        push_str(&mut message, "` disagree about their project instance owner");
                        return Err(message);
                    }
                },
                None => {},
            }
            st.put_owner(key, id);
            n = n + 1;
        }
        proof {
            assert(o.take(o.len() as int) =~= o);
        }
        Ok(AttachmentStore { path, state: st })
    }

    /// Reap one project at `now`, when exactly the processes in `live_pids`
    /// run; whether that removed its last live attachment.
    pub fn reap_stale_attachments_for_with(&mut self, project_path: &String, now: u64, live_pids: &[u32]) -> (r: bool)
        ensures
            final(self).location() == old(self).location(),
            !old(self)@.buckets.contains_key(project_path@) ==> final(self)@ == old(self)@ && !r,
            old(self)@.buckets.contains_key(project_path@) ==> final(self)@ == settled(
                old(self)@,
                project_path@,
                reaped_bucket(old(self)@, project_path@, now, live_pids@),
            ) && r == (has_live(old(self)@.buckets[project_path@]) && !has_live(
                reaped_bucket(old(self)@, project_path@, now, live_pids@),
            )),
    {
        let mut st = self.take_state();
        let legacy = st.owner_at(project_path).is_none();
        let slot = st.locate_bucket(project_path);
        let index = match slot {
            Some(i) => i,
            None => {
                self.state = st;
                return false;
            },
        };
        let entry = copy_attachments(&st.attachments[index].1);
        let live_before = any_live(&entry);
        let remaining = keep_alive(&entry, now, live_pids, legacy);
        let live_after = any_live(&remaining);
        st.settle(project_path, remaining);
        self.state = st;
        live_before && !live_after
    }
}

/// Key `k` occurs among the first `i` entries of `t`.
pub open spec fn seen_key(t: Seq<(Seq<char>, Seq<AttachmentView>)>, i: int, k: Seq<char>) -> bool {
    exists|m: int| #[trigger] holds_key(t, k, m) && m < i
}

proof fn lemma_seen_next(t: Seq<(Seq<char>, Seq<AttachmentView>)>, i: int)
    requires
        0 <= i < t.len(),
    ensures
        forall|k: Seq<char>| #[trigger] seen_key(t, i + 1, k) <==> (seen_key(t, i, k) || k == t[i].0),
{
    assert forall|k: Seq<char>| #[trigger] seen_key(t, i + 1, k) <==> (seen_key(t, i, k) || k == t[i].0) by {
        if k == t[i].0 {
            assert(holds_key(t, k, i));
        }
        if seen_key(t, i, k) {
            let m = choose|m: int| #[trigger] holds_key(t, k, m) && m < i;
            assert(holds_key(t, k, m) && m < i + 1);
        }
    }
}

proof fn lemma_seen_all(t: Seq<(Seq<char>, Seq<AttachmentView>)>)
    ensures
        forall|k: Seq<char>| #[trigger] seen_key(t, t.len() as int, k) <==> table_map(t).contains_key(k),
{
    assert forall|k: Seq<char>| #[trigger] seen_key(t, t.len() as int, k) <==> table_map(t).contains_key(k) by {
        if table_map(t).contains_key(k) {
            let m = choose|m: int| #[trigger] holds_key(t, k, m);
            assert(holds_key(t, k, m) && m < t.len());
        }
    }
}

/// Once two owners disagree, no longer list of entries merges.
proof fn lemma_merged_owners_stay_none(o: Seq<(Seq<char>, ProjectInstanceId)>, n: int)
    requires
        0 <= n <= o.len(),
        merged_owners(o.take(n)) is None,
    ensures
        merged_owners(o) is None,
    decreases o.len() - n,
{
    if n < o.len() {
        assert(o.take(n + 1).drop_last() =~= o.take(n));
        lemma_merged_owners_stay_none(o, n + 1);
    } else {
        assert(o.take(n) =~= o);
    }
}

/// The project paths of a list of evidence.
pub open spec fn evidence_paths(r: Seq<AttachmentCompatibilityEvidence>) -> Seq<Seq<char>> {
    Seq::new(r.len(), |j: int| r[j].project_path@)
}

/// No key occurs twice, so entry `i`'s key is not among the first `i`.
proof fn lemma_not_seen_yet(t: Seq<(Seq<char>, Seq<AttachmentView>)>, i: int)
    requires
        keyed(t),
        0 <= i < t.len(),
    ensures
        !seen_key(t, i, t[i].0),
{
    if seen_key(t, i, t[i].0) {
        let m = choose|m: int| #[trigger] holds_key(t, t[i].0, m) && m < i;
        crate::keyed::lemma_key_unique(t, m, i);
    }
}

/// Pushing entry `i`'s key keeps a list of earlier keys ascending.
proof fn lemma_push_ascending(e: Seq<Seq<char>>, k: Seq<char>, t: Seq<(Seq<char>, Seq<AttachmentView>)>, i: int)
    requires
        keyed(t),
        0 <= i < t.len(),
        k == t[i].0,
        texts_ascending(e),
        forall|j: int| 0 <= j < e.len() ==> e.to_set().contains(#[trigger] e[j]),
        forall|x: Seq<char>| e.to_set().contains(x) ==> seen_key(t, i, x),
    ensures
        texts_ascending(e.push(k)),
        e.push(k).to_set() == e.to_set().insert(k),
{
    let f = e.push(k);
    assert forall|a: int, b: int| 0 <= a < b < f.len() implies lex_lt(f[a], f[b]) by {
        if b == e.len() {
            assert(e.to_set().contains(e[a]));
            let m = choose|m: int| #[trigger] holds_key(t, e[a], m) && m < i;
            assert(keys_of(t)[m] == t[m].0 && keys_of(t)[i] == t[i].0);
        } else {
            assert(f[a] == e[a] && f[b] == e[b]);
        }
    }
    e.lemma_push_to_set_commute(k);
}

/// Every key of a table built from the first `i` entries of `t` sorts below
/// entry `i`'s key.
proof fn lemma_below_all(
    t: Seq<(Seq<char>, Seq<AttachmentView>)>,
    kt: Seq<(Seq<char>, Seq<AttachmentView>)>,
    i: int,
    kept: Seq<(String, Vec<Attachment>)>,
)
    requires
        keyed(t),
        0 <= i < t.len(),
        kt == bucket_table(kept),
        forall|j: int| 0 <= j < kept.len() ==> seen_key(t, i, (#[trigger] kept[j]).0@),
    ensures
        crate::catalog::tables::splits_texts(keys_of(kt), t[i].0, kt.len() as int),
{
    assert forall|j: int| 0 <= j < kt.len() implies lex_lt(keys_of(kt)[j], t[i].0) by {
        assert(kt[j].0 == kept[j].0@);
        assert(seen_key(t, i, kept[j].0@));
        let m = choose|m: int| #[trigger] holds_key(t, kept[j].0@, m) && m < i;
        assert(keys_of(t)[m] == t[m].0 && keys_of(t)[i] == t[i].0);
    }
}

/// A copy of a snapshot.
fn copy_state(s: &AttachmentStoreSnapshot) -> (r: AttachmentStoreSnapshot)
    requires
        s.wf(),
    ensures
        r.wf(),
        r@ == s@,
{
    let mut attachments: Vec<(String, Vec<Attachment>)> = Vec::new();
    let mut i: usize = 0;
    while i < s.attachments.len()
        invariant
            i <= s.attachments@.len(),
            bucket_table(attachments@) == bucket_table(s.attachments@).take(i as int),
        decreases s.attachments@.len() - i,
    {
        let ghost before = attachments@;
        attachments.push((s.attachments[i].0.clone(), copy_attachments(&s.attachments[i].1)));
        proof {
            assert(bucket_table(attachments@) =~= bucket_table(before).push(bucket_table(s.attachments@)[i as int]));
            assert(bucket_table(s.attachments@).take(i + 1) =~= bucket_table(s.attachments@).take(i as int).push(
                bucket_table(s.attachments@)[i as int],
            ));
        }
        i = i + 1;
    }
    let mut owners: Vec<(String, ProjectInstanceId)> = Vec::new();
    let mut j: usize = 0;
    while j < s.instance_owners.len()
        invariant
            j <= s.instance_owners@.len(),
            owner_table(owners@) == owner_table(s.instance_owners@).take(j as int),
        decreases s.instance_owners@.len() - j,
    {
        let ghost before = owners@;
        owners.push((s.instance_owners[j].0.clone(), s.instance_owners[j].1));
        proof {
            assert(owner_table(owners@) =~= owner_table(before).push(owner_table(s.instance_owners@)[j as int]));
            assert(owner_table(s.instance_owners@).take(j + 1) =~= owner_table(s.instance_owners@).take(j as int).push(
                owner_table(s.instance_owners@)[j as int],
            ));
        }
        j = j + 1;
    }
    proof {
        assert(bucket_table(s.attachments@).take(s.attachments@.len() as int) =~= bucket_table(s.attachments@));
        assert(owner_table(s.instance_owners@).take(s.instance_owners@.len() as int) =~= owner_table(s.instance_owners@));
    }
    let stopped = clone_strings(&s.manually_stopped);
    let r = AttachmentStoreSnapshot { attachments, manually_stopped: stopped, instance_owners: owners };
    proof {
        assert(string_views(r.manually_stopped@) =~= string_views(s.manually_stopped@));
        assert(r@ =~= s@);
    }
    r
}

} // verus!
