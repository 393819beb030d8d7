//! Lexical path operations on path text.

use crate::availability::opt_view;
use crate::text::{push_char, push_str};
use vstd::prelude::*;

verus! {

/// The parent of a path: the path without its final component, if it has one.
pub uninterp spec fn path_parent(path: Seq<char>) -> Option<Seq<char>>;

/// `std::path::Path::parent` on path text: the path without its final
/// component, a function of the text alone and strictly shorter than it.
#[verifier::external_body]
pub(crate) fn parent_path(path: &str) -> (r: Option<String>)
    ensures
        opt_view(r) == path_parent(path@),
        r matches Some(p) ==> p@.len() < path@.len(),
{
    std::path::Path::new(path).parent().map(|p| p.to_string_lossy().into_owned())
}

/// The final component a path names, if it names one.
pub uninterp spec fn path_file_name(path: Seq<char>) -> Option<Seq<char>>;

/// `std::path::Path::file_name` on path text: the final normal component,
/// none for a root or a path ending in `..`; a function of the text alone.
#[verifier::external_body]
pub(crate) fn file_name(path: &str) -> (r: Option<String>)
    ensures
        opt_view(r) == path_file_name(path@),
{
    std::path::Path::new(path).file_name().map(|n| n.to_string_lossy().into_owned())
}

/// Whether two path texts name the same path component by component.
pub uninterp spec fn same_path_text(a: Seq<char>, b: Seq<char>) -> bool;

/// `std::path::Path`'s equality on path text: equal when the component
/// sequences are equal (so a trailing separator does not count); a function
/// of the two texts alone.
#[verifier::external_body]
pub(crate) fn same_path(a: &str, b: &str) -> (r: bool)
    ensures
        r == same_path_text(a@, b@),
{
    std::path::Path::new(a) == std::path::Path::new(b)
}

/// Appending a relative component: a separator goes between unless the base
/// is empty or already ends with one.
pub open spec fn path_join(base: Seq<char>, component: Seq<char>) -> Seq<char> {
    if base.len() == 0 || base.last() == '/' {
        base + component
    } else {
        base + seq!['/'] + component
    }
}

/// Append a relative component to a path.
pub fn join_path(base: &str, component: &str) -> (r: String)
    ensures
        r@ == path_join(base@, component@),
{
    let mut r = String::new();
    push_str(&mut r, base);
    let n = base.unicode_len();
    if n > 0 && base.get_char(n - 1) != '/' {
        push_char(&mut r, '/');
    }
    push_str(&mut r, component);
    assert(r@ =~= path_join(base@, component@));
    r
}

/// The proper ancestors of a path, nearest first, following at most `fuel`
/// parent steps.
pub open spec fn ancestor_chain(path: Seq<char>, fuel: nat) -> Seq<Seq<char>>
    decreases fuel,
{
    if fuel == 0 {
        Seq::empty()
    } else {
        match path_parent(path) {
            None => Seq::empty(),
            Some(p) => seq![p] + ancestor_chain(p, (fuel - 1) as nat),
        }
    }
}

/// The proper ancestors of a path, nearest first (each parent step shortens
/// the path, so its length bounds the chain).
pub open spec fn ancestors(path: Seq<char>) -> Seq<Seq<char>> {
    ancestor_chain(path, path.len() + 1)
}

/// The non-empty proper ancestors, nearest first.
pub open spec fn non_empty(s: Seq<Seq<char>>) -> Seq<Seq<char>>
    decreases s.len(),
{
    if s.len() == 0 {
        s
    } else if s[0].len() == 0 {
        non_empty(s.drop_first())
    } else {
        seq![s[0]] + non_empty(s.drop_first())
    }
}

/// The leading ancestors that themselves have a parent: every proper
/// ancestor below the filesystem root.
pub open spec fn below_root(s: Seq<Seq<char>>) -> Seq<Seq<char>>
    decreases s.len(),
{
    if s.len() == 0 || path_parent(s[0]) is None {
        Seq::empty()
    } else {
        seq![s[0]] + below_root(s.drop_first())
    }
}

/// Path texts by their characters.
pub open spec fn texts(v: Seq<String>) -> Seq<Seq<char>> {
    v.map_values(|s: String| s@)
}

/// Walk the parent chain, keeping ancestors accepted by `keep`; stop at the
/// first ancestor without a parent when `stop_at_root` holds.
fn collect_ancestors(path: &str, skip_empty: bool, stop_at_root: bool) -> (r: Vec<String>)
    ensures
        skip_empty && !stop_at_root ==> texts(r@) == non_empty(ancestors(path@)),
        !skip_empty && stop_at_root ==> texts(r@) == below_root(ancestors(path@)),
{
    let ghost full = ancestors(path@);
    let mut out: Vec<String> = Vec::new();
    let mut current = parent_path(path);
    let ghost mut fuel: nat = path@.len() as nat;
    proof {
        assert(full == match path_parent(path@) {
            None => Seq::<Seq<char>>::empty(),
            Some(p) => seq![p] + ancestor_chain(p, fuel),
        });
    }
    let ghost mut rest: Seq<Seq<char>> = match opt_view(current) {
        None => Seq::empty(),
        Some(p) => seq![p] + ancestor_chain(p, fuel),
    };
    proof {
        assert(rest == full);
        assert(texts(out@) =~= Seq::<Seq<char>>::empty());
    }
    loop
        invariant
            rest == match opt_view(current) {
                None => Seq::<Seq<char>>::empty(),
                Some(p) => seq![p] + ancestor_chain(p, fuel),
            },
            current matches Some(p) ==> p@.len() < fuel,
            full == ancestors(path@),
            skip_empty && !stop_at_root ==> non_empty(full) == texts(out@) + non_empty(rest),
            !skip_empty && stop_at_root ==> below_root(full) == texts(out@) + below_root(rest),
        decreases fuel,
    {
        let p = match current {
            Some(p) => p,
            None => {
                proof {
                    assert(rest =~= Seq::<Seq<char>>::empty());
                    assert(texts(out@) + Seq::<Seq<char>>::empty() =~= texts(out@));
                }
                return out;
            },
        };
        let next = parent_path(p.as_str());
        proof {
            assert(rest.drop_first() =~= ancestor_chain(p@, fuel));
            assert(rest[0] == p@);
        }
        if stop_at_root && next.is_none() {
            proof {
                assert(below_root(rest) =~= Seq::<Seq<char>>::empty());
                assert(texts(out@) + Seq::<Seq<char>>::empty() =~= texts(out@));
            }
            return out;
        }
        let keep = !(skip_empty && p.unicode_len() == 0);
        let ghost before = texts(out@);
        if keep {
            out.push(p);
        }
        proof {
            if keep {
                assert(texts(out@) =~= before.push(rest[0]));
            } else {
                assert(texts(out@) =~= before);
            }
            let new_rest = match opt_view(next) {
                None => Seq::<Seq<char>>::empty(),
                Some(q) => seq![q] + ancestor_chain(q, (fuel - 1) as nat),
            };
            assert(fuel > 0);
            assert(ancestor_chain(rest[0], fuel) == new_rest);
            if skip_empty && !stop_at_root {
                assert(non_empty(rest) == (if rest[0].len() == 0 {
                    non_empty(rest.drop_first())
                } else {
                    seq![rest[0]] + non_empty(rest.drop_first())
                }));
                assert(texts(out@) + non_empty(new_rest) =~= before + non_empty(rest));
            }
            if !skip_empty && stop_at_root {
                assert(below_root(rest) == seq![rest[0]] + below_root(rest.drop_first()));
                assert(texts(out@) + below_root(new_rest) =~= before + below_root(rest));
            }
            rest = new_rest;
            fuel = (fuel - 1) as nat;
        }
        current = next;
    }
}

/// The directories whose entries a first publication beneath `directory`
/// creates: every non-empty proper ancestor, nearest first.
pub fn non_empty_ancestors(directory: &str) -> (r: Vec<String>)
    ensures
        texts(r@) == non_empty(ancestors(directory@)),
{
    collect_ancestors(directory, true, false)
}

/// Every proper ancestor of `directory` below the filesystem root, nearest first.
pub fn ancestors_below_root(directory: &str) -> (r: Vec<String>)
    ensures
        texts(r@) == below_root(ancestors(directory@)),
{
    collect_ancestors(directory, false, true)
}

/// Completed `/`-separated segments and the segment being read.
pub open spec fn segments_acc(s: Seq<char>) -> (Seq<Seq<char>>, Seq<char>)
    decreases s.len(),
{
    if s.len() == 0 {
        (Seq::empty(), Seq::empty())
    } else {
        let (done, cur) = segments_acc(s.drop_last());
        if s.last() == '/' {
            (done.push(cur), Seq::empty())
        } else {
            (done, cur.push(s.last()))
        }
    }
}

/// The `/`-separated segments of a path, empty ones included.
pub open spec fn segments(s: Seq<char>) -> Seq<Seq<char>> {
    segments_acc(s).0.push(segments_acc(s).1)
}

} // verus!
