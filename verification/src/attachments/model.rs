//! Attachments, their sources, and when each one still counts as alive.

use crate::availability::{MANUAL_DEMAND_TTL, NANOS_PER_SECOND, VSCODE_DEMAND_TTL};
use crate::identity::uuid_version;
use vstd::prelude::*;

verus! {

/// How long a pid-less editor attachment from before instance ownership
/// stays alive while its project migrates.
pub const LEGACY_EDITOR_MIGRATION_TTL: u64 = 30 * 60 * NANOS_PER_SECOND;

/// Retry-stable identity for one log-following `locald up` session: the
/// process and the 128-bit value of the session's random UUID.
#[derive(Debug, Clone, Copy, PartialEq, Eq, Structural)]
pub struct ManualCliSession {
    pub pid: u32,
    pub id: u128,
}

impl ManualCliSession {
    /// A session for `pid` under the fresh random (version 4) identity `id`.
    pub fn new(pid: u32, id: u128) -> (r: Self)
        requires
            uuid_version(id) == 4,
        ensures
            r.pid == pid,
            r.id == id,
            uuid_version(r.id) == 4,
    {
        ManualCliSession { pid, id }
    }

    pub fn pid(self) -> (r: u32)
        ensures
            r == self.pid,
    {
        self.pid
    }

    pub fn id(self) -> (r: u128)
        ensures
            r == self.id,
    {
        self.id
    }

    /// The attachment source this session owns.
    pub fn attachment_source(self) -> (r: AttachmentSource)
        ensures
            r@ == SourceView::ManualCli(self),
    {
        AttachmentSource::ManualCLI(self)
    }
}

/// Who holds an attachment to a project.
#[derive(Debug, Clone, PartialEq, Eq)]
pub enum AttachmentSource {
    Editor { name: String, id: String, pid: Option<u32> },
    CLI { pid: u32 },
    /// Process owner paired with the `Start` request that acquired the Manual
    /// CLI demand of a log-following `locald up` session; detaching exactly
    /// this owner may release that demand.
    ManualCLI(ManualCliSession),
    /// Parked quiet-up hold kept as legacy evidence; it never counts as a
    /// live attachment.
    Runtime,
    Pin,
}

/// An attachment of a source to a project; `created_at` is in nanoseconds
/// since the Unix epoch.
#[derive(Debug, Clone, PartialEq, Eq)]
pub struct Attachment {
    pub project_path: String,
    pub source: AttachmentSource,
    pub created_at: u64,
}

pub enum SourceView {
    Editor { name: Seq<char>, id: Seq<char>, pid: Option<u32> },
    Cli { pid: u32 },
    ManualCli(ManualCliSession),
    Runtime,
    Pin,
}

pub struct AttachmentView {
    pub project_path: Seq<char>,
    pub source: SourceView,
    pub created_at: u64,
}

impl View for AttachmentSource {
    type V = SourceView;

    open spec fn view(&self) -> SourceView {
        match self {
            AttachmentSource::Editor { name, id, pid } => SourceView::Editor { name: name@, id: id@, pid: *pid },
            AttachmentSource::CLI { pid } => SourceView::Cli { pid: *pid },
            AttachmentSource::ManualCLI(s) => SourceView::ManualCli(*s),
            AttachmentSource::Runtime => SourceView::Runtime,
            AttachmentSource::Pin => SourceView::Pin,
        }
    }
}

impl View for Attachment {
    type V = AttachmentView;

    open spec fn view(&self) -> AttachmentView {
        AttachmentView { project_path: self.project_path@, source: self.source@, created_at: self.created_at }
    }
}

/// The views of a list of attachments.
pub open spec fn views(s: Seq<Attachment>) -> Seq<AttachmentView> {
    Seq::new(s.len(), |i: int| s[i]@)
}

/// Whether removing `needle` removes an existing source: editors match on
/// their window identity (and on their name unless the needle's is empty),
/// every other source on equality.
pub open spec fn source_matches(needle: SourceView, existing: SourceView) -> bool {
    match needle {
        SourceView::Editor { name, id, .. } => match existing {
            SourceView::Editor { name: other_name, id: other_id, .. } => if name.len() == 0 {
                id == other_id
            } else {
                name == other_name && id == other_id
            },
            _ => false,
        },
        _ => needle == existing,
    }
}

/// Whether an attachment is a live one (anything but parked runtime evidence).
pub open spec fn is_live(a: AttachmentView) -> bool {
    !(a.source is Runtime)
}

/// Whether a list holds a live attachment.
pub open spec fn has_live(b: Seq<AttachmentView>) -> bool {
    exists|i: int| 0 <= i < b.len() && is_live(#[trigger] b[i])
}

/// The age at `now` of something created at `created` is below `ttl`
/// (a creation time in the future counts as age zero).
pub open spec fn younger_than(now: u64, created: u64, ttl: u64) -> bool {
    now < created || now - created < ttl
}

/// The age at `now` of something created at `created` is at most `ttl`.
pub open spec fn no_older_than(now: u64, created: u64, ttl: u64) -> bool {
    now < created || now - created <= ttl
}

/// Whether an attachment is still alive at `now` when exactly the processes
/// in `live` run; `legacy` marks a project no instance has claimed yet.
pub open spec fn attachment_alive(a: AttachmentView, now: u64, live: Seq<u32>, legacy: bool) -> bool {
    match a.source {
        SourceView::Editor { pid, .. } => match pid {
            Some(p) => live.contains(p),
            None => if legacy {
                no_older_than(now, a.created_at, LEGACY_EDITOR_MIGRATION_TTL)
            } else {
                younger_than(now, a.created_at, VSCODE_DEMAND_TTL)
            },
        },
        SourceView::Cli { pid } => live.contains(pid),
        SourceView::ManualCli(session) => live.contains(session.pid),
        SourceView::Runtime => younger_than(now, a.created_at, MANUAL_DEMAND_TTL),
        SourceView::Pin => true,
    }
}

/// `a` with its project path replaced by `path`.
pub open spec fn relabeled(a: AttachmentView, path: Seq<char>) -> AttachmentView {
    AttachmentView { project_path: path, source: a.source, created_at: a.created_at }
}

/// Every attachment of a list relabeled to `path`.
pub open spec fn all_relabeled(b: Seq<AttachmentView>, path: Seq<char>) -> Seq<AttachmentView> {
    Seq::new(b.len(), |i: int| relabeled(b[i], path))
}

/// `j` is the first position of `x` in `u`.
pub open spec fn first_match(u: Seq<AttachmentView>, x: AttachmentView, j: int) -> bool {
    0 <= j < u.len() && u[j] == x && forall|k: int| 0 <= k < j ==> u[k] != x
}

/// The first position of `x` in `u`.
pub open spec fn first_position(u: Seq<AttachmentView>, x: AttachmentView) -> int {
    choose|j: int| #[trigger] first_match(u, x, j)
}

/// The candidates left over after each one cancels the first equal, not yet
/// cancelled, item of `comparison`, in candidate order.
pub open spec fn exact_difference(candidates: Seq<AttachmentView>, comparison: Seq<AttachmentView>) -> Seq<
    AttachmentView,
>
    decreases candidates.len(),
{
    if candidates.len() == 0 {
        Seq::empty()
    } else if comparison.contains(candidates[0]) {
        exact_difference(
            candidates.subrange(1, candidates.len() as int),
            comparison.remove(first_position(comparison, candidates[0])),
        )
    } else {
        seq![candidates[0]] + exact_difference(candidates.subrange(1, candidates.len() as int), comparison)
    }
}

pub proof fn lemma_first_position(u: Seq<AttachmentView>, x: AttachmentView, j: int)
    requires
        first_match(u, x, j),
    ensures
        first_position(u, x) == j,
{
    let q = first_position(u, x);
    assert(first_match(u, x, q));
    if q < j {
        assert(u[q] == x);
    }
    if j < q {
        assert(u[j] == x);
    }
}

/// Whether `live` holds `pid`.
fn holds_pid(live: &[u32], pid: u32) -> (r: bool)
    ensures
        r == live@.contains(pid),
{
    let mut i: usize = 0;
    while i < live.len()
        invariant
            i <= live@.len(),
            forall|j: int| 0 <= j < i ==> live@[j] != pid,
        decreases live@.len() - i,
    {
        if live[i] == pid {
            assert(live@[i as int] == pid);
            return true;
        }
        i = i + 1;
    }
    false
}

/// Whether `now` is within `ttl` of `created` (strictly below, or up to and
/// including it when `inclusive`).
fn within(now: u64, created: u64, ttl: u64, inclusive: bool) -> (r: bool)
    ensures
        inclusive ==> r == no_older_than(now, created, ttl),
        !inclusive ==> r == younger_than(now, created, ttl),
{
    if now < created {
        true
    } else if inclusive {
        now - created <= ttl
    } else {
        now - created < ttl
    }
}

/// Whether an attachment is still alive; see `attachment_alive`.
pub fn is_alive(a: &Attachment, now: u64, live: &[u32], legacy: bool) -> (r: bool)
    ensures
        r == attachment_alive(a@, now, live@, legacy),
{
    match &a.source {
        AttachmentSource::Editor { pid, .. } => match pid {
            Some(p) => holds_pid(live, *p),
            None => if legacy {
                within(now, a.created_at, LEGACY_EDITOR_MIGRATION_TTL, true)
            } else {
                within(now, a.created_at, VSCODE_DEMAND_TTL, false)
            },
        },
        AttachmentSource::CLI { pid } => holds_pid(live, *pid),
        AttachmentSource::ManualCLI(session) => holds_pid(live, session.pid),
        AttachmentSource::Runtime => within(now, a.created_at, MANUAL_DEMAND_TTL, false),
        AttachmentSource::Pin => true,
    }
}

/// Whether `needle` removes `existing`; see `source_matches`.
pub fn matches_source(needle: &AttachmentSource, existing: &AttachmentSource) -> (r: bool)
    ensures
        r == source_matches(needle@, existing@),
{
    match needle {
        AttachmentSource::Editor { name, id, .. } => match existing {
            AttachmentSource::Editor { name: other_name, id: other_id, .. } => {
                if name.as_str().is_empty() {
                    *id == *other_id
                } else {
                    *name == *other_name && *id == *other_id
                }
            },
            _ => false,
        },
        _ => same_source(needle, existing),
    }
}

/// Whether two sources are equal.
pub fn same_source(a: &AttachmentSource, b: &AttachmentSource) -> (r: bool)
    ensures
        r == (a@ == b@),
{
    match (a, b) {
        (
            AttachmentSource::Editor { name, id, pid },
            AttachmentSource::Editor { name: other_name, id: other_id, pid: other_pid },
        ) => {
            let same_pid = match (pid, other_pid) {
                (Some(x), Some(y)) => *x == *y,
                (None, None) => true,
                _ => false,
            };
            *name == *other_name && *id == *other_id && same_pid
        },
        (AttachmentSource::CLI { pid }, AttachmentSource::CLI { pid: other }) => *pid == *other,
        (AttachmentSource::ManualCLI(x), AttachmentSource::ManualCLI(y)) => x.pid == y.pid && x.id == y.id,
        (AttachmentSource::Runtime, AttachmentSource::Runtime) => true,
        (AttachmentSource::Pin, AttachmentSource::Pin) => true,
        _ => false,
    }
}

/// Whether two attachments are equal.
pub fn same_attachment(a: &Attachment, b: &Attachment) -> (r: bool)
    ensures
        r == (a@ == b@),
{
    a.project_path == b.project_path && a.created_at == b.created_at && same_source(&a.source, &b.source)
}

/// A copy of a source.
pub fn copy_source(s: &AttachmentSource) -> (r: AttachmentSource)
    ensures
        r@ == s@,
{
    match s {
        AttachmentSource::Editor { name, id, pid } => AttachmentSource::Editor {
            name: name.clone(),
            id: id.clone(),
            pid: *pid,
        },
        AttachmentSource::CLI { pid } => AttachmentSource::CLI { pid: *pid },
        AttachmentSource::ManualCLI(x) => AttachmentSource::ManualCLI(*x),
        AttachmentSource::Runtime => AttachmentSource::Runtime,
        AttachmentSource::Pin => AttachmentSource::Pin,
    }
}

/// A copy of an attachment.
pub fn copy_attachment(a: &Attachment) -> (r: Attachment)
    ensures
        r@ == a@,
{
    Attachment { project_path: a.project_path.clone(), source: copy_source(&a.source), created_at: a.created_at }
}

/// A copy of a list of attachments.
pub fn copy_attachments(v: &Vec<Attachment>) -> (r: Vec<Attachment>)
    ensures
        views(r@) == views(v@),
{
    let mut r: Vec<Attachment> = Vec::new();
    let mut i: usize = 0;
    while i < v.len()
        invariant
            i <= v@.len(),
            r@.len() == i,
            views(r@) == views(v@).take(i as int),
        decreases v@.len() - i,
    {
        let ghost before = r@;
        let x = copy_attachment(&v[i]);
        r.push(x);
        proof {
            assert(r@ == before.push(x));
            assert(views(r@)[i as int] == x@);
            assert forall|k: int| 0 <= k < i + 1 implies views(r@)[k] == views(v@).take(i + 1)[k] by {
                if k < i {
                    assert(views(before)[k] == views(v@).take(i as int)[k]);
                }
            }
            assert(views(r@) =~= views(v@).take(i + 1));
        }
        i = i + 1;
    }
    assert(views(v@).take(v@.len() as int) =~= views(v@));
    r
}

/// Whether a list holds a live attachment; see `has_live`.
pub fn any_live(v: &Vec<Attachment>) -> (r: bool)
    ensures
        r == has_live(views(v@)),
{
    let mut i: usize = 0;
    while i < v.len()
        invariant
            i <= v@.len(),
            forall|j: int| 0 <= j < i ==> !is_live(#[trigger] views(v@)[j]),
        decreases v@.len() - i,
    {
        if !matches!(v[i].source, AttachmentSource::Runtime) {
            assert(is_live(views(v@)[i as int]));
            return true;
        }
        i = i + 1;
    }
    false
}

} // verus!
