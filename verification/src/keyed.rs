//! Text-keyed tables held in ascending key order: the map each one stands
//! for, and the searches and updates that keep that order.

use crate::catalog::tables::{lemma_text_position, splits_texts};
use crate::catalog::texts_ascending;
use crate::domain::string_views;
use crate::text::{compare_chars, lemma_lex_irreflexive, lemma_lex_transitive, lex_lt, str_chars};
use vstd::prelude::*;

verus! {

/// The keys of a table, in table order.
pub open spec fn keys_of<V>(t: Seq<(Seq<char>, V)>) -> Seq<Seq<char>> {
    Seq::new(t.len(), |i: int| t[i].0)
}

/// Keys strictly ascending, so each key occurs once.
pub open spec fn keyed<V>(t: Seq<(Seq<char>, V)>) -> bool {
    texts_ascending(keys_of(t))
}

/// Entry `i` carries key `k`.
pub open spec fn holds_key<V>(t: Seq<(Seq<char>, V)>, k: Seq<char>, i: int) -> bool {
    0 <= i < t.len() && t[i].0 == k
}

/// The map a table stands for.
pub open spec fn table_map<V>(t: Seq<(Seq<char>, V)>) -> Map<Seq<char>, V> {
    Map::new(
        |k: Seq<char>| exists|i: int| #[trigger] holds_key(t, k, i),
        |k: Seq<char>| t[choose|i: int| #[trigger] holds_key(t, k, i)].1,
    )
}

/// The keys of a vector of keyed entries.
pub open spec fn string_keys<V>(s: Seq<(String, V)>) -> Seq<Seq<char>> {
    Seq::new(s.len(), |i: int| s[i].0@)
}

pub proof fn lemma_key_unique<V>(t: Seq<(Seq<char>, V)>, i: int, j: int)
    requires
        keyed(t),
        0 <= i < t.len(),
        0 <= j < t.len(),
        t[i].0 == t[j].0,
    ensures
        i == j,
{
    assert(keys_of(t)[i] == t[i].0);
    assert(keys_of(t)[j] == t[j].0);
    if i != j {
        lemma_lex_irreflexive(t[i].0);
    }
}

/// An entry of a table is what its map holds at the entry's key.
pub proof fn lemma_table_entry<V>(t: Seq<(Seq<char>, V)>, i: int)
    requires
        keyed(t),
        0 <= i < t.len(),
    ensures
        table_map(t).contains_key(t[i].0),
        table_map(t)[t[i].0] == t[i].1,
{
    assert(holds_key(t, t[i].0, i));
    let j = choose|j: int| #[trigger] holds_key(t, t[i].0, j);
    lemma_key_unique(t, i, j);
}

/// A key that sorts between the entries is absent from the map.
pub proof fn lemma_table_absent<V>(t: Seq<(Seq<char>, V)>, k: Seq<char>, p: int)
    requires
        splits_texts(keys_of(t), k, p),
    ensures
        !table_map(t).contains_key(k),
{
    assert forall|i: int| !holds_key(t, k, i) by {
        if 0 <= i < t.len() && t[i].0 == k {
            assert(keys_of(t)[i] == k);
            lemma_lex_irreflexive(k);
        }
    }
}

/// Replacing an entry's value replaces the map's value at its key.
pub proof fn lemma_table_update<V>(t: Seq<(Seq<char>, V)>, i: int, x: V)
    requires
        keyed(t),
        0 <= i < t.len(),
    ensures
        keyed(t.update(i, (t[i].0, x))),
        table_map(t.update(i, (t[i].0, x))) == table_map(t).insert(t[i].0, x),
{
    let s = t.update(i, (t[i].0, x));
    assert(keys_of(s) =~= keys_of(t));
    assert forall|k: Seq<char>| table_map(s).contains_key(k) <==> table_map(t).insert(t[i].0, x).contains_key(k) by {
        if table_map(t).contains_key(k) {
            let j = choose|j: int| #[trigger] holds_key(t, k, j);
            assert(holds_key(s, k, j));
        }
        if table_map(s).contains_key(k) {
            let j = choose|j: int| #[trigger] holds_key(s, k, j);
            assert(holds_key(t, k, j));
        }
        if k == t[i].0 {
            assert(holds_key(s, k, i));
        }
    }
    assert forall|k: Seq<char>| #[trigger] table_map(s).contains_key(k) implies table_map(s)[k] == table_map(t).insert(
        t[i].0,
        x,
    )[k] by {
        let j = choose|j: int| #[trigger] holds_key(s, k, j);
        lemma_table_entry(s, j);
        if j == i {
        } else {
            lemma_table_entry(t, j);
            if k == t[i].0 {
                lemma_key_unique(t, i, j);
            }
        }
    }
    assert(table_map(s) =~= table_map(t).insert(t[i].0, x));
}

/// Inserting a new key where it sorts adds it to the map.
pub proof fn lemma_table_insert<V>(t: Seq<(Seq<char>, V)>, p: int, k: Seq<char>, x: V)
    requires
        keyed(t),
        splits_texts(keys_of(t), k, p),
    ensures
        keyed(t.insert(p, (k, x))),
        table_map(t.insert(p, (k, x))) == table_map(t).insert(k, x),
{
    let s = t.insert(p, (k, x));
    lemma_text_position(keys_of(t), k, p);
    assert(keys_of(s) =~= keys_of(t).insert(p, k));
    lemma_table_absent(t, k, p);
    assert forall|q: Seq<char>| table_map(s).contains_key(q) <==> table_map(t).insert(k, x).contains_key(q) by {
        if table_map(t).contains_key(q) {
            let j = choose|j: int| #[trigger] holds_key(t, q, j);
            if j < p {
                assert(holds_key(s, q, j));
            } else {
                assert(holds_key(s, q, j + 1));
            }
        }
        if table_map(s).contains_key(q) {
            let j = choose|j: int| #[trigger] holds_key(s, q, j);
            if j < p {
                assert(holds_key(t, q, j));
            } else if j > p {
                assert(holds_key(t, q, j - 1));
            }
        }
        if q == k {
            assert(holds_key(s, q, p));
        }
    }
    assert forall|q: Seq<char>| #[trigger] table_map(s).contains_key(q) implies table_map(s)[q] == table_map(t).insert(
        k,
        x,
    )[q] by {
        let j = choose|j: int| #[trigger] holds_key(s, q, j);
        lemma_table_entry(s, j);
        if j < p {
            lemma_table_entry(t, j);
        } else if j > p {
            lemma_table_entry(t, j - 1);
        }
    }
    assert(table_map(s) =~= table_map(t).insert(k, x));
}

/// Removing an entry removes its key from the map.
pub proof fn lemma_table_remove<V>(t: Seq<(Seq<char>, V)>, i: int)
    requires
        keyed(t),
        0 <= i < t.len(),
    ensures
        keyed(t.remove(i)),
        table_map(t.remove(i)) == table_map(t).remove(t[i].0),
{
    let s = t.remove(i);
    assert(keys_of(s) =~= keys_of(t).remove(i));
    crate::catalog::tables::lemma_texts_remove(keys_of(t), i);
    assert forall|q: Seq<char>| table_map(s).contains_key(q) <==> table_map(t).remove(t[i].0).contains_key(q) by {
        if table_map(t).contains_key(q) && q != t[i].0 {
            let j = choose|j: int| #[trigger] holds_key(t, q, j);
            if j < i {
                assert(holds_key(s, q, j));
            } else {
                assert(holds_key(s, q, j - 1));
            }
        }
        if table_map(s).contains_key(q) {
            let j = choose|j: int| #[trigger] holds_key(s, q, j);
            let j2 = if j < i { j } else { j + 1 };
            assert(holds_key(t, q, j2));
            if q == t[i].0 {
                lemma_key_unique(t, i, j2);
            }
        }
    }
    assert forall|q: Seq<char>| #[trigger] table_map(s).contains_key(q) implies table_map(s)[q] == table_map(t).remove(
        t[i].0,
    )[q] by {
        let j = choose|j: int| #[trigger] holds_key(s, q, j);
        lemma_table_entry(s, j);
        if j < i {
            lemma_table_entry(t, j);
        } else {
            lemma_table_entry(t, j + 1);
        }
    }
    assert(table_map(s) =~= table_map(t).remove(t[i].0));
}

/// Where a key stands in an ascending keyed vector: its index when present,
/// otherwise the index where it would be inserted.
pub fn key_slot<V>(v: &Vec<(String, V)>, k: &str) -> (r: (bool, usize))
    requires
        texts_ascending(string_keys(v@)),
    ensures
        r.1 <= v@.len(),
        r.0 ==> r.1 < v@.len() && v@[r.1 as int].0@ == k@,
        !r.0 ==> splits_texts(string_keys(v@), k@, r.1 as int),
{
    let ghost s = string_keys(v@);
    let kc = str_chars(k);
    let mut i: usize = 0;
    while i < v.len()
        invariant
            i <= v@.len(),
            s == string_keys(v@),
            kc@ == k@,
            texts_ascending(s),
            forall|j: int| 0 <= j < i ==> lex_lt(#[trigger] s[j], k@),
        decreases v@.len() - i,
    {
        let ec = str_chars(v[i].0.as_str());
        let c = compare_chars(ec.as_slice(), kc.as_slice());
        assert(s[i as int] == v@[i as int].0@);
        if c == 0 {
            return (true, i);
        }
        if c > 0 {
            proof {
                assert forall|j: int| i <= j < s.len() implies lex_lt(k@, s[j]) by {
                    if j > i {
                        lemma_lex_transitive(k@, s[i as int], s[j]);
                    }
                }
            }
            return (false, i);
        }
        i = i + 1;
    }
    (false, i)
}

/// Add a text to an ascending list unless it is there.
pub(crate) fn insert_text(v: &mut Vec<String>, t: &String)
    requires
        texts_ascending(string_views(old(v)@)),
    ensures
        texts_ascending(string_views(final(v)@)),
        string_views(final(v)@).to_set() == string_views(old(v)@).to_set().insert(t@),
{
    let ghost s = string_views(v@);
    let tc = str_chars(t.as_str());
    let mut i: usize = 0;
    while i < v.len()
        invariant
            i <= v@.len(),
            s == string_views(v@),
            s == string_views(old(v)@),
            tc@ == t@,
            texts_ascending(s),
            forall|j: int| 0 <= j < i ==> lex_lt(#[trigger] s[j], t@),
        decreases v@.len() - i,
    {
        let kc = str_chars(v[i].as_str());
        let c = compare_chars(kc.as_slice(), tc.as_slice());
        if c == 0 {
            proof {
                assert(s[i as int] == t@);
                assert(s.to_set().insert(t@) =~= s.to_set());
            }
            return;
        }
        if c > 0 {
            proof {
                assert forall|j: int| i <= j < s.len() implies lex_lt(t@, s[j]) by {
                    if j > i {
                        lemma_lex_transitive(t@, s[i as int], s[j]);
                    }
                }
                lemma_text_position(s, t@, i as int);
            }
            v.insert(i, t.clone());
            proof {
                assert(string_views(v@) =~= s.insert(i as int, t@));
                assert forall|x: Seq<char>| string_views(v@).to_set().contains(x) <==> s.to_set().insert(t@).contains(x) by {
                    if s.contains(x) {
                        let k = choose|k: int| 0 <= k < s.len() && s[k] == x;
                        if k < i {
                            assert(string_views(v@)[k] == x);
                        } else {
                            assert(string_views(v@)[k + 1] == x);
                        }
                    }
                    if string_views(v@).contains(x) {
                        let k = choose|k: int| 0 <= k < string_views(v@).len() && string_views(v@)[k] == x;
                        if k < i {
                            assert(s[k] == x);
                        } else if k > i {
                            assert(s[k - 1] == x);
                        }
                    }
                    if x == t@ {
                        assert(string_views(v@)[i as int] == x);
                    }
                }
                assert(string_views(v@).to_set() =~= s.to_set().insert(t@));
            }
            return;
        }
        i = i + 1;
    }
    proof {
        lemma_text_position(s, t@, s.len() as int);
    }
    v.push(t.clone());
    proof {
        assert(string_views(v@) =~= s.insert(s.len() as int, t@));
        assert(string_views(v@) =~= s.push(t@));
        s.lemma_push_to_set_commute(t@);
    }
}

/// Remove a text from an ascending list; whether it was there.
pub(crate) fn remove_text(v: &mut Vec<String>, t: &String) -> (r: bool)
    requires
        texts_ascending(string_views(old(v)@)),
    ensures
        texts_ascending(string_views(final(v)@)),
        string_views(final(v)@).to_set() == string_views(old(v)@).to_set().remove(t@),
        r == string_views(old(v)@).to_set().contains(t@),
{
    let ghost s = string_views(v@);
    let mut i: usize = 0;
    while i < v.len()
        invariant
            i <= v@.len(),
            s == string_views(v@),
            s == string_views(old(v)@),
            texts_ascending(s),
            forall|j: int| 0 <= j < i ==> s[j] != t@,
        decreases v@.len() - i,
    {
        if v[i] == *t {
            proof {
                assert(s[i as int] == t@);
                assert(s.contains(t@));
            }
            v.remove(i);
            proof {
                let u = string_views(v@);
                assert(u =~= s.remove(i as int));
                crate::catalog::tables::lemma_texts_remove(s, i as int);
                assert forall|x: Seq<char>| u.to_set().contains(x) <==> s.to_set().remove(t@).contains(x) by {
                    if u.contains(x) {
                        let k = choose|k: int| 0 <= k < u.len() && u[k] == x;
                        let k2 = if k < i { k } else { k + 1 };
                        assert(s[k2] == x);
                        if x == t@ {
                            assert(s[i as int] == x);
                            if k2 != i {
                                assert(string_views(v@)[k] == x);
                                if k2 < i {
                                    assert(lex_lt(s[k2], s[i as int]));
                                } else {
                                    assert(lex_lt(s[i as int], s[k2]));
                                }
                                lemma_lex_irreflexive(x);
                            }
                        }
                    }
                    if s.contains(x) && x != t@ {
                        let k = choose|k: int| 0 <= k < s.len() && s[k] == x;
                        if k < i {
                            assert(u[k] == x);
                        } else {
                            assert(k != i);
                            assert(u[k - 1] == x);
                        }
                    }
                }
                assert(u.to_set() =~= s.to_set().remove(t@));
            }
            return true;
        }
        i = i + 1;
    }
    proof {
        assert(!s.contains(t@));
        assert(s.to_set().remove(t@) =~= s.to_set());
    }
    false
}

/// Whether an ascending list holds a text.
pub(crate) fn has_text(v: &Vec<String>, t: &String) -> (r: bool)
    ensures
        r == string_views(v@).to_set().contains(t@),
{
    let mut i: usize = 0;
    while i < v.len()
        invariant
            i <= v@.len(),
            forall|j: int| 0 <= j < i ==> v@[j]@ != t@,
        decreases v@.len() - i,
    {
        if v[i] == *t {
            assert(string_views(v@)[i as int] == t@);
            return true;
        }
        i = i + 1;
    }
    assert(!string_views(v@).contains(t@)) by {
        if string_views(v@).contains(t@) {
            let k = choose|k: int| 0 <= k < string_views(v@).len() && string_views(v@)[k] == t@;
            assert(v@[k]@ == t@);
        }
    }
    false
}

} // verus!
