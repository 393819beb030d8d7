//! Laws of the compatibility store: replacement deltas are exact multiset
//! differences, detaching undoes attaching, pins survive reaping, and the
//! operations keep the exact-state invariants.

use super::model::{
    all_relabeled, attachment_alive, exact_difference, first_match, first_position, lemma_first_position, source_matches,
    AttachmentView, SourceView,
};
use super::state::{bucket_or_empty, exact_ok, replaced, settled, without_exact, CompatView};
use super::store::{
    alive_only, attached, detached, pins_and_parked, reaped, reaped_bucket, unattached, without_source,
};
use vstd::prelude::*;

verus! {

/// Every source matches itself.
pub proof fn lemma_source_matches_itself(x: SourceView)
    ensures
        source_matches(x, x),
{
}

/// A list in which `x` occurs has a first occurrence of it.
pub proof fn lemma_first_match_exists(u: Seq<AttachmentView>, x: AttachmentView, j: int)
    requires
        0 <= j < u.len(),
        u[j] == x,
    ensures
        first_match(u, x, first_position(u, x)),
    decreases j,
{
    if forall|k: int| 0 <= k < j ==> u[k] != x {
        assert(first_match(u, x, j));
        lemma_first_position(u, x, j);
    } else {
        let k = choose|k: int| 0 <= k < j && u[k] == x;
        lemma_first_match_exists(u, x, k);
    }
}

/// What `exact_difference` leaves is exactly the multiset difference of the
/// candidates and the comparison: so the removed and added lists of a
/// replacement are what the old and new attachment lists hold beyond each
/// other, counted with multiplicity.
pub proof fn lemma_exact_difference_multiset(c: Seq<AttachmentView>, u: Seq<AttachmentView>)
    ensures
        exact_difference(c, u).to_multiset() == c.to_multiset().sub(u.to_multiset()),
    decreases c.len(),
{
    broadcast use vstd::multiset::group_multiset_axioms, vstd::seq_lib::group_to_multiset_ensures;

    if c.len() == 0 {
        let d = exact_difference(c, u);
        assert forall|y: AttachmentView| c.to_multiset().count(y) == 0 by {
            assert(!c.contains(y));
        }
        assert forall|y: AttachmentView| d.to_multiset().count(y) == 0 by {
            assert(!d.contains(y));
        }
        assert(d.to_multiset() =~= c.to_multiset().sub(u.to_multiset()));
    } else {
        let x = c[0];
        let rest = c.subrange(1, c.len() as int);
        assert(c =~= rest.insert(0, x));
        vstd::seq_lib::to_multiset_insert(rest, 0, x);
        if u.contains(x) {
            let j = choose|j: int| 0 <= j < u.len() && u[j] == x;
            lemma_first_match_exists(u, x, j);
            let p = first_position(u, x);
            let u2 = u.remove(p);
            lemma_exact_difference_multiset(rest, u2);
            assert(u.to_multiset().count(x) > 0);
            assert(exact_difference(c, u).to_multiset() =~= c.to_multiset().sub(u.to_multiset()));
        } else {
            let e = exact_difference(rest, u);
            lemma_exact_difference_multiset(rest, u);
            assert(seq![x] + e =~= e.insert(0, x));
            vstd::seq_lib::to_multiset_insert(e, 0, x);
            assert(u.to_multiset().count(x) == 0);
            assert(exact_difference(c, u).to_multiset() =~= c.to_multiset().sub(u.to_multiset()));
        }
    }
}

/// Filtering twice by one predicate filters once.
pub proof fn lemma_filter_twice(b: Seq<AttachmentView>, f: spec_fn(AttachmentView) -> bool)
    ensures
        b.filter(f).filter(f) == b.filter(f),
    decreases b.len(),
{
    if b.len() > 0 {
        let d = b.drop_last();
        let l = b.last();
        assert(b =~= d.push(l));
        d.lemma_filter_push(l, f);
        lemma_filter_twice(d, f);
        if f(l) {
            d.filter(f).lemma_filter_push(l, f);
        }
    } else {
        assert(b.filter(f) =~= b);
    }
}

/// Filtering keeps a property every item has.
pub proof fn lemma_filter_keeps_path(b: Seq<AttachmentView>, f: spec_fn(AttachmentView) -> bool, path: Seq<char>)
    requires
        forall|i: int| 0 <= i < b.len() ==> (#[trigger] b[i]).project_path == path,
    ensures
        forall|i: int| 0 <= i < b.filter(f).len() ==> (#[trigger] b.filter(f)[i]).project_path == path,
{
    assert forall|i: int| 0 <= i < b.filter(f).len() implies (#[trigger] b.filter(f)[i]).project_path == path by {
        assert(b.filter(f).contains(b.filter(f)[i]));
        b.lemma_filter_contains_rev(f, b.filter(f)[i]);
    }
}

/// Attaching a source and then detaching it leaves the project's attachments
/// as they were less every attachment of that source; other projects and
/// the stop markers are untouched.
pub proof fn lemma_detach_undoes_attach(s: CompatView, a: AttachmentView)
    requires
        !(a.source is Runtime),
    ensures
        bucket_or_empty(detached(attached(s, a), a.project_path, a.source), a.project_path) == without_source(
            bucket_or_empty(s, a.project_path),
            a.source,
        ),
        forall|q: Seq<char>|
            q != a.project_path ==> bucket_or_empty(#[trigger] detached(attached(s, a), a.project_path, a.source), q)
                == bucket_or_empty(s, q),
        detached(attached(s, a), a.project_path, a.source).stopped == s.stopped,
{
    let p = a.project_path;
    let f = |x: AttachmentView| !source_matches(a.source, x.source);
    let b = bucket_or_empty(s, p);
    let s1 = attached(s, a);
    lemma_source_matches_itself(a.source);
    b.filter(f).lemma_filter_push(a, f);
    lemma_filter_twice(b, f);
    assert(s1.buckets[p] == b.filter(f).push(a));
    assert(without_source(s1.buckets[p], a.source) == b.filter(f));
    let s2 = detached(s1, p, a.source);
    if b.filter(f).len() == 0 {
        assert(bucket_or_empty(s2, p) =~= b.filter(f));
    }
}

/// Reaping never removes a pin.
pub proof fn lemma_reap_keeps_pins(s: CompatView, now: u64, live: Seq<u32>, k: Seq<char>, i: int)
    requires
        s.buckets.contains_key(k),
        0 <= i < s.buckets[k].len(),
        s.buckets[k][i].source is Pin,
    ensures
        reaped(s, now, live).buckets.contains_key(k),
        reaped(s, now, live).buckets[k].contains(s.buckets[k][i]),
{
    let legacy = !s.owners.contains_key(k);
    let f = |a: AttachmentView| attachment_alive(a, now, live, legacy);
    assert(f(s.buckets[k][i]));
    s.buckets[k].lemma_filter_contains(f, i);
    assert(reaped_bucket(s, k, now, live) == s.buckets[k].filter(f));
    assert(reaped_bucket(s, k, now, live).len() > 0);
}

/// Settling a project on attachments that all name it keeps the exact-state
/// invariants.
pub proof fn lemma_settled_keeps_exact(s: CompatView, k: Seq<char>, b: Seq<AttachmentView>)
    requires
        exact_ok(s),
        forall|i: int| 0 <= i < b.len() ==> (#[trigger] b[i]).project_path == k,
    ensures
        exact_ok(settled(s, k, b)),
{
    let r = settled(s, k, b);
    assert forall|q: Seq<char>| #[trigger] r.buckets.contains_key(q) implies r.buckets[q].len() > 0 && forall|i: int|
        0 <= i < r.buckets[q].len() ==> (#[trigger] r.buckets[q][i]).project_path == q by {
        if q != k {
            assert(s.buckets.contains_key(q));
        }
    }
    assert forall|q: Seq<char>| #[trigger] r.owners.contains_key(q) implies (r.buckets.contains_key(q)
        && r.buckets[q].len() > 0) || r.stopped.contains(q) by {
        assert(s.owners.contains_key(q));
    }
}

/// Attaching keeps the exact-state invariants.
pub proof fn lemma_attach_keeps_exact(s: CompatView, a: AttachmentView)
    requires
        exact_ok(s),
    ensures
        exact_ok(attached(s, a)),
{
    let p = a.project_path;
    let b = bucket_or_empty(s, p);
    let f = |x: AttachmentView| !source_matches(a.source, x.source);
    if s.buckets.contains_key(p) {
        assert(forall|i: int| 0 <= i < b.len() ==> (#[trigger] b[i]).project_path == p);
    }
    lemma_filter_keeps_path(b, f, p);
    let n = b.filter(f).push(a);
    assert(forall|i: int| 0 <= i < n.len() ==> (#[trigger] n[i]).project_path == p);
    lemma_settled_keeps_exact(s, p, n);
}

/// Detaching keeps the exact-state invariants.
pub proof fn lemma_detach_keeps_exact(s: CompatView, k: Seq<char>, needle: SourceView)
    requires
        exact_ok(s),
    ensures
        exact_ok(detached(s, k, needle)),
{
    if !(needle is Runtime) && s.buckets.contains_key(k) {
        lemma_filter_keeps_path(s.buckets[k], |x: AttachmentView| !source_matches(needle, x.source), k);
        lemma_settled_keeps_exact(s, k, without_source(s.buckets[k], needle));
    }
}

/// Detaching everything but pins keeps the exact-state invariants.
pub proof fn lemma_unattach_keeps_exact(s: CompatView, k: Seq<char>)
    requires
        exact_ok(s),
    ensures
        exact_ok(unattached(s, k)),
{
    if s.buckets.contains_key(k) {
        lemma_filter_keeps_path(s.buckets[k], |a: AttachmentView| a.source is Pin || a.source is Runtime, k);
        lemma_settled_keeps_exact(s, k, pins_and_parked(s.buckets[k]));
    }
}

/// Removing an exact record keeps the exact-state invariants.
pub proof fn lemma_remove_exact_keeps_exact(s: CompatView, k: Seq<char>, x: AttachmentView)
    requires
        exact_ok(s),
    ensures
        exact_ok(without_exact(s, k, x)),
{
    let b = bucket_or_empty(s, k);
    if s.buckets.contains_key(k) && b.contains(x) {
        let j = choose|j: int| 0 <= j < b.len() && b[j] == x;
        lemma_first_match_exists(b, x, j);
        let p = first_position(b, x);
        let n = b.remove(p);
        assert forall|i: int| 0 <= i < n.len() implies (#[trigger] n[i]).project_path == k by {
            if i < p {
                assert(n[i] == b[i]);
            } else {
                assert(n[i] == b[i + 1]);
            }
        }
        lemma_settled_keeps_exact(s, k, n);
    }
}

/// Replacing a project's state keeps the exact-state invariants.
pub proof fn lemma_replace_keeps_exact(s: CompatView, k: Seq<char>, b: Seq<AttachmentView>, stop: bool)
    requires
        exact_ok(s),
    ensures
        exact_ok(replaced(s, k, all_relabeled(b, k), stop)),
{
    let r = replaced(s, k, all_relabeled(b, k), stop);
    assert forall|q: Seq<char>| #[trigger] r.buckets.contains_key(q) implies r.buckets[q].len() > 0 && forall|i: int|
        0 <= i < r.buckets[q].len() ==> (#[trigger] r.buckets[q][i]).project_path == q by {
        if q != k {
            assert(s.buckets.contains_key(q));
        }
    }
    assert forall|q: Seq<char>| #[trigger] r.owners.contains_key(q) implies (r.buckets.contains_key(q)
        && r.buckets[q].len() > 0) || r.stopped.contains(q) by {
        assert(s.owners.contains_key(q));
    }
}

/// Reaping every project keeps the exact-state invariants.
pub proof fn lemma_reap_keeps_exact(s: CompatView, now: u64, live: Seq<u32>)
    requires
        exact_ok(s),
    ensures
        exact_ok(reaped(s, now, live)),
{
    let r = reaped(s, now, live);
    assert forall|q: Seq<char>| #[trigger] r.buckets.contains_key(q) implies r.buckets[q].len() > 0 && forall|i: int|
        0 <= i < r.buckets[q].len() ==> (#[trigger] r.buckets[q][i]).project_path == q by {
        assert(s.buckets.contains_key(q));
        lemma_filter_keeps_path(
            s.buckets[q],
            |a: AttachmentView| attachment_alive(a, now, live, !s.owners.contains_key(q)),
            q,
        );
    }
    assert forall|q: Seq<char>| #[trigger] r.owners.contains_key(q) implies (r.buckets.contains_key(q)
        && r.buckets[q].len() > 0) || r.stopped.contains(q) by {
        assert(s.owners.contains_key(q));
    }
}

/// The process an attachment's source names, if any: a CLI or Manual CLI
/// session's pid, or an editor's when it reported one.
pub open spec fn owning_pid(x: SourceView) -> Option<u32> {
    match x {
        SourceView::Cli { pid } => Some(pid),
        SourceView::ManualCli(session) => Some(session.pid),
        SourceView::Editor { pid, .. } => pid,
        _ => None,
    }
}

/// Reaping follows the processes: an attachment whose source names a process
/// survives exactly when that process is among the live ones, and a pin
/// always survives. With no live process, every process-owned attachment
/// of the project is reaped.
pub proof fn lemma_reap_follows_processes(s: CompatView, k: Seq<char>, now: u64, live: Seq<u32>)
    requires
        s.buckets.contains_key(k),
    ensures
        forall|i: int|
            0 <= i < reaped_bucket(s, k, now, live).len() ==> (owning_pid((#[trigger] reaped_bucket(s, k, now, live)[i]).source)
                matches Some(p) ==> live.contains(p)),
        forall|i: int|
            0 <= i < s.buckets[k].len() ==> ((owning_pid((#[trigger] s.buckets[k][i]).source) matches Some(p) && live.contains(p))
                ==> reaped_bucket(s, k, now, live).contains(s.buckets[k][i])),
        forall|i: int|
            0 <= i < s.buckets[k].len() && (#[trigger] s.buckets[k][i]).source is Pin ==> reaped_bucket(
                s,
                k,
                now,
                live,
            ).contains(s.buckets[k][i]),
        live.len() == 0 ==> forall|i: int|
            0 <= i < reaped_bucket(s, k, now, live).len() ==> owning_pid(
                (#[trigger] reaped_bucket(s, k, now, live)[i]).source,
            ) is None,
{
    let b = s.buckets[k];
    let legacy = !s.owners.contains_key(k);
    let pred = |a: AttachmentView| attachment_alive(a, now, live, legacy);
    assert(reaped_bucket(s, k, now, live) == b.filter(pred));
    assert forall|i: int| 0 <= i < b.filter(pred).len() implies pred(#[trigger] b.filter(pred)[i]) by {
        b.lemma_filter_pred(pred, i);
    }
    assert forall|i: int| 0 <= i < b.len() && pred(#[trigger] b[i]) implies b.filter(pred).contains(b[i]) by {
        b.lemma_filter_contains(pred, i);
    }
}

} // verus!
