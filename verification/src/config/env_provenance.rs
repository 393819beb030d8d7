//! Layered environment resolution with per-variable provenance.

use crate::text::{compare_chars, lemma_lex_irreflexive, lemma_lex_transitive, lex_lt, str_chars};
use vstd::prelude::*;

verus! {

/// Where an environment layer comes from, in increasing precedence.
#[derive(Debug, Clone, Copy, PartialEq, Eq, Structural)]
pub enum EnvLayerKind {
    Global,
    Context,
    Workspace,
    DotEnv,
    Project,
}

/// The file that supplied a variable.
#[derive(Debug, PartialEq, Eq)]
pub struct EnvLayerSource {
    pub kind: EnvLayerKind,
    pub path: String,
}

impl Clone for EnvLayerSource {
    fn clone(&self) -> (r: Self)
        ensures
            r@ == self@,
    {
        EnvLayerSource { kind: self.kind, path: self.path.clone() }
    }
}

impl View for EnvLayerSource {
    type V = (EnvLayerKind, Seq<char>);

    open spec fn view(&self) -> (EnvLayerKind, Seq<char>) {
        (self.kind, self.path@)
    }
}

/// One layer of variables; a later pair for the same name wins.
#[derive(Debug, PartialEq, Eq)]
pub struct EnvLayer {
    pub kind: EnvLayerKind,
    pub path: String,
    pub vars: Vec<(String, String)>,
}

/// A resolved value and the layer that supplied it.
#[derive(Debug, PartialEq, Eq)]
pub struct ResolvedEnvVar {
    pub value: String,
    pub source: EnvLayerSource,
}

impl Clone for ResolvedEnvVar {
    fn clone(&self) -> (r: Self)
        ensures
            r@ == self@,
    {
        ResolvedEnvVar { value: self.value.clone(), source: self.source.clone() }
    }
}

impl View for ResolvedEnvVar {
    type V = (Seq<char>, (EnvLayerKind, Seq<char>));

    open spec fn view(&self) -> (Seq<char>, (EnvLayerKind, Seq<char>)) {
        (self.value@, self.source@)
    }
}

/// A resolved variable by name.
pub type EnvEntryView = (Seq<char>, (Seq<char>, (EnvLayerKind, Seq<char>)));

/// Entries by their views.
pub open spec fn entry_views(v: Seq<(String, ResolvedEnvVar)>) -> Seq<EnvEntryView> {
    v.map_values(|e: (String, ResolvedEnvVar)| (e.0@, e.1@))
}

/// Names strictly increase.
pub open spec fn names_sorted(s: Seq<EnvEntryView>) -> bool {
    forall|i: int, j: int| 0 <= i < j < s.len() ==> lex_lt(s[i].0, s[j].0)
}

/// The variables the entries denote.
pub open spec fn env_map(s: Seq<EnvEntryView>) -> Map<Seq<char>, (Seq<char>, (EnvLayerKind, Seq<char>))>
    decreases s.len(),
{
    if s.len() == 0 {
        Map::empty()
    } else {
        env_map(s.drop_last()).insert(s.last().0, s.last().1)
    }
}

/// Assignments applied in order, each attributed to `source`.
pub open spec fn assign_all(
    m: Map<Seq<char>, (Seq<char>, (EnvLayerKind, Seq<char>))>,
    pairs: Seq<(String, String)>,
    source: (EnvLayerKind, Seq<char>),
) -> Map<Seq<char>, (Seq<char>, (EnvLayerKind, Seq<char>))>
    decreases pairs.len(),
{
    if pairs.len() == 0 {
        m
    } else {
        assign_all(m, pairs.drop_last(), source).insert(pairs.last().0@, (pairs.last().1@, source))
    }
}

/// Layers applied in order: a later layer overrides an earlier one.
pub open spec fn merged(layers: Seq<EnvLayer>) -> Map<Seq<char>, (Seq<char>, (EnvLayerKind, Seq<char>))>
    decreases layers.len(),
{
    if layers.len() == 0 {
        Map::empty()
    } else {
        assign_all(merged(layers.drop_last()), layers.last().vars@, (layers.last().kind, layers.last().path@))
    }
}

/// Every resolved variable in name order, with provenance.
#[derive(Debug, PartialEq, Eq)]
pub struct ResolvedEnv {
    vars: Vec<(String, ResolvedEnvVar)>,
}

proof fn lemma_env_map_dom(s: Seq<EnvEntryView>, k: Seq<char>)
    ensures
        env_map(s).contains_key(k) <==> exists|i: int| 0 <= i < s.len() && s[i].0 == k,
    decreases s.len(),
{
    if s.len() > 0 {
        lemma_env_map_dom(s.drop_last(), k);
        if env_map(s).contains_key(k) && k != s.last().0 {
            let i = choose|i: int| 0 <= i < s.drop_last().len() && s.drop_last()[i].0 == k;
            assert(s[i].0 == k);
        }
        if exists|i: int| 0 <= i < s.len() && s[i].0 == k {
            let i = choose|i: int| 0 <= i < s.len() && s[i].0 == k;
            if i < s.len() - 1 {
                assert(s.drop_last()[i].0 == k);
            }
        }
    }
}

proof fn lemma_env_map_value(s: Seq<EnvEntryView>, i: int)
    requires
        names_sorted(s),
        0 <= i < s.len(),
    ensures
        env_map(s).contains_key(s[i].0),
        env_map(s)[s[i].0] == s[i].1,
    decreases s.len(),
{
    if i < s.len() - 1 {
        let t = s.drop_last();
        assert(names_sorted(t)) by {
            assert forall|a: int, b: int| 0 <= a < b < t.len() implies lex_lt(t[a].0, t[b].0) by {
                assert(t[a] == s[a] && t[b] == s[b]);
            }
        }
        lemma_env_map_value(t, i);
        assert(lex_lt(s[i].0, s.last().0));
        lemma_lex_irreflexive(s[i].0);
        assert(t[i] == s[i]);
    }
}

proof fn lemma_env_map_ext(s: Seq<EnvEntryView>, m: Map<Seq<char>, (Seq<char>, (EnvLayerKind, Seq<char>))>)
    requires
        names_sorted(s),
        forall|i: int| 0 <= i < s.len() ==> m.contains_key(#[trigger] s[i].0) && m[s[i].0] == s[i].1,
        forall|k: Seq<char>| m.contains_key(k) ==> exists|i: int| 0 <= i < s.len() && s[i].0 == k,
    ensures
        env_map(s) == m,
{
    assert forall|k: Seq<char>| #[trigger] env_map(s).contains_key(k) <==> m.contains_key(k) by {
        lemma_env_map_dom(s, k);
    }
    assert forall|k: Seq<char>| #[trigger] env_map(s).contains_key(k) implies env_map(s)[k] == m[k] by {
        lemma_env_map_dom(s, k);
        let i = choose|i: int| 0 <= i < s.len() && s[i].0 == k;
        lemma_env_map_value(s, i);
    }
    assert(env_map(s) =~= m);
}

impl ResolvedEnv {
    #[verifier::type_invariant]
    spec fn sorted(self) -> bool {
        names_sorted(entry_views(self.vars@))
    }

    /// The resolved variables by name.
    pub closed spec fn spec_vars(&self) -> Map<Seq<char>, (Seq<char>, (EnvLayerKind, Seq<char>))> {
        env_map(entry_views(self.vars@))
    }

    /// No variables.
    pub fn new() -> (r: Self)
        ensures
            r.spec_vars() == Map::<Seq<char>, (Seq<char>, (EnvLayerKind, Seq<char>))>::empty(),
    {
        let r = ResolvedEnv { vars: Vec::new() };
        assert(entry_views(r.vars@) =~= Seq::<EnvEntryView>::empty());
        r
    }

    /// Every variable in name order.
    pub fn vars(&self) -> (r: &[(String, ResolvedEnvVar)])
        ensures
            names_sorted(entry_views(r@)),
            env_map(entry_views(r@)) == self.spec_vars(),
    {
        proof {
            use_type_invariant(self);
        }
        self.vars.as_slice()
    }

    /// The resolved variable named `key`, with its provenance.
    pub fn get(&self, key: &str) -> (r: Option<&ResolvedEnvVar>)
        ensures
            match r {
                Some(v) => self.spec_vars().contains_key(key@) && self.spec_vars()[key@] == v@,
                None => !self.spec_vars().contains_key(key@),
            },
    {
        proof {
            use_type_invariant(self);
        }
        let k = str_chars(key);
        let ghost s = entry_views(self.vars@);
        let mut i: usize = 0;
        while i < self.vars.len()
            invariant
                i <= self.vars@.len(),
                s == entry_views(self.vars@),
                names_sorted(s),
                k@ == key@,
                forall|j: int| 0 <= j < i ==> s[j].0 != key@,
            decreases self.vars@.len() - i,
        {
            let name = str_chars(self.vars[i].0.as_str());
            if compare_chars(name.as_slice(), k.as_slice()) == 0 {
                proof {
                    assert(s[i as int] == (self.vars@[i as int].0@, self.vars@[i as int].1@));
                    lemma_env_map_value(s, i as int);
                }
                return Some(&self.vars[i].1);
            }
            proof {
                assert(s[i as int] == (self.vars@[i as int].0@, self.vars@[i as int].1@));
            }
            i = i + 1;
        }
        proof {
            lemma_env_map_dom(s, key@);
        }
        None
    }

    /// The resolved value of `key`.
    pub fn get_value(&self, key: &str) -> (r: Option<&str>)
        ensures
            match r {
                Some(v) => self.spec_vars().contains_key(key@) && self.spec_vars()[key@].0 == v@,
                None => !self.spec_vars().contains_key(key@),
            },
    {
        match self.get(key) {
            Some(v) => Some(v.value.as_str()),
            None => None,
        }
    }

    /// Set one variable, replacing any earlier value.
    fn assign(&mut self, name: String, var: ResolvedEnvVar)
        ensures
            final(self).spec_vars() == old(self).spec_vars().insert(name@, var@),
    {
        proof {
            use_type_invariant(&*self);
        }
        let ghost old_s = entry_views(self.vars@);
        let key = str_chars(name.as_str());
        let mut i: usize = 0;
        while i < self.vars.len()
            invariant
                i <= self.vars@.len(),
                entry_views(self.vars@) == old_s,
                names_sorted(old_s),
                forall|j: int| 0 <= j < i ==> lex_lt(old_s[j].0, key@),
                key@ == name@,
            ensures
                i <= self.vars@.len(),
                entry_views(self.vars@) == old_s,
                forall|j: int| 0 <= j < i ==> lex_lt(old_s[j].0, key@),
                i < self.vars@.len() ==> lex_lt(key@, old_s[i as int].0) || old_s[i as int].0 == key@,
            decreases self.vars@.len() - i,
        {
            let k = str_chars(self.vars[i].0.as_str());
            let c = compare_chars(k.as_slice(), key.as_slice());
            proof {
                assert(old_s[i as int] == (self.vars@[i as int].0@, self.vars@[i as int].1@));
            }
            if c >= 0 {
                break;
            }
            i = i + 1;
        }
        let ghost m = env_map(old_s).insert(name@, var@);
        let replace = i < self.vars.len() && {
            let k = str_chars(self.vars[i].0.as_str());
            compare_chars(k.as_slice(), key.as_slice()) == 0
        };
        proof {
            if i < self.vars@.len() {
                assert(old_s[i as int] == (self.vars@[i as int].0@, self.vars@[i as int].1@));
            }
        }
        let ghost pair = (name@, var@);
        let ghost before = self.vars@;
        let ghost new_s: Seq<EnvEntryView>;
        if replace {
            let mut vars = Vec::new();
            std::mem::swap(&mut vars, &mut self.vars);
            proof {
                assert(entry_views(vars@) == old_s);
            }
            vars.set(i, (name, var));
            proof {
                new_s = entry_views(vars@);
                assert(new_s =~= old_s.update(i as int, pair));
                assert forall|a: int, b: int| 0 <= a < b < new_s.len() implies lex_lt(new_s[a].0, new_s[b].0) by {
                    assert(new_s[a].0 == old_s[a].0);
                    assert(new_s[b].0 == old_s[b].0);
                }
                assert forall|j: int| 0 <= j < new_s.len() implies m.contains_key(#[trigger] new_s[j].0) && m[new_s[j].0]
                    == new_s[j].1 by {
                    if j != i {
                        lemma_env_map_value(old_s, j);
                        assert(new_s[j] == old_s[j]);
                        assert(lex_lt(old_s[j].0, old_s[i as int].0) || lex_lt(old_s[i as int].0, old_s[j].0));
                        lemma_lex_irreflexive(old_s[j].0);
                    }
                }
                assert forall|k2: Seq<char>| m.contains_key(k2) implies exists|j: int| 0 <= j < new_s.len() && new_s[j].0 == k2 by {
                    if k2 != key@ {
                        lemma_env_map_dom(old_s, k2);
                        let j = choose|j: int| 0 <= j < old_s.len() && old_s[j].0 == k2;
                        assert(new_s[j].0 == k2);
                    } else {
                        assert(new_s[i as int].0 == k2);
                    }
                }
                lemma_env_map_ext(new_s, m);
            }
            self.vars = vars;
        } else {
            proof {
                assert forall|j: int| i <= j < old_s.len() implies lex_lt(key@, #[trigger] old_s[j].0) by {
                    assert(lex_lt(key@, old_s[i as int].0));
                    if j > i {
                        lemma_lex_transitive(key@, old_s[i as int].0, old_s[j].0);
                    }
                }
            }
            let mut vars = Vec::new();
            std::mem::swap(&mut vars, &mut self.vars);
            proof {
                assert(entry_views(vars@) == old_s);
            }
            vars.insert(i, (name, var));
            proof {
                new_s = entry_views(vars@);
                assert(new_s =~= old_s.insert(i as int, pair));
                assert forall|a: int, b: int| 0 <= a < b < new_s.len() implies lex_lt(new_s[a].0, new_s[b].0) by {
                    if b < i {
                        assert(new_s[a] == old_s[a] && new_s[b] == old_s[b]);
                    } else if b == i {
                        assert(new_s[a] == old_s[a]);
                    } else if a == i {
                        assert(new_s[b] == old_s[b - 1]);
                    } else if a < i {
                        assert(new_s[a] == old_s[a] && new_s[b] == old_s[b - 1]);
                        lemma_lex_transitive(old_s[a].0, key@, old_s[b - 1].0);
                    } else {
                        assert(new_s[a] == old_s[a - 1] && new_s[b] == old_s[b - 1]);
                    }
                }
                assert forall|j: int| 0 <= j < new_s.len() implies m.contains_key(#[trigger] new_s[j].0) && m[new_s[j].0]
                    == new_s[j].1 by {
                    if j < i {
                        lemma_env_map_value(old_s, j);
                        lemma_lex_irreflexive(key@);
                        assert(new_s[j] == old_s[j]);
                    } else if j > i {
                        lemma_env_map_value(old_s, j - 1);
                        lemma_lex_irreflexive(key@);
                        assert(new_s[j] == old_s[j - 1]);
                    }
                }
                assert forall|k2: Seq<char>| m.contains_key(k2) implies exists|j: int| 0 <= j < new_s.len() && new_s[j].0 == k2 by {
                    if k2 != key@ {
                        lemma_env_map_dom(old_s, k2);
                        let j = choose|j: int| 0 <= j < old_s.len() && old_s[j].0 == k2;
                        if j < i {
                            assert(new_s[j].0 == k2);
                        } else {
                            assert(new_s[j + 1].0 == k2);
                        }
                    } else {
                        assert(new_s[i as int].0 == k2);
                    }
                }
                lemma_env_map_ext(new_s, m);
            }
            self.vars = vars;
        }
    }

    /// Apply assignments in order, each attributed to `source`.
    fn assign_pairs(&mut self, pairs: &Vec<(String, String)>, source: &EnvLayerSource)
        ensures
            final(self).spec_vars() == assign_all(old(self).spec_vars(), pairs@, source@),
    {
        let ghost start = self.spec_vars();
        let mut i: usize = 0;
        proof {
            assert(pairs@.take(0) =~= Seq::<(String, String)>::empty());
        }
        while i < pairs.len()
            invariant
                i <= pairs@.len(),
                self.spec_vars() == assign_all(start, pairs@.take(i as int), source@),
            decreases pairs@.len() - i,
        {
            proof {
                assert(pairs@.take(i + 1).drop_last() =~= pairs@.take(i as int));
                assert(pairs@.take(i + 1).last() == pairs@[i as int]);
            }
            let var = ResolvedEnvVar { value: pairs[i].1.clone(), source: source.clone() };
            self.assign(pairs[i].0.clone(), var);
            i = i + 1;
        }
        proof {
            assert(pairs@.take(pairs@.len() as int) =~= pairs@);
        }
    }

    /// An independent copy.
    pub fn duplicate(&self) -> (r: Self)
        ensures
            r.spec_vars() == self.spec_vars(),
    {
        proof {
            use_type_invariant(self);
        }
        let mut vars: Vec<(String, ResolvedEnvVar)> = Vec::new();
        let mut i: usize = 0;
        while i < self.vars.len()
            invariant
                i <= self.vars@.len(),
                vars@.len() == i,
                forall|j: int| 0 <= j < i ==> (#[trigger] vars@[j]).0@ == self.vars@[j].0@ && vars@[j].1@ == self.vars@[j].1@,
            decreases self.vars@.len() - i,
        {
            let name = self.vars[i].0.clone();
            let var = self.vars[i].1.clone();
            vars.push((name, var));
            i = i + 1;
        }
        assert(entry_views(vars@) =~= entry_views(self.vars@));
        ResolvedEnv { vars }
    }
}

/// Merge layers in order; a later layer wins and each value remembers the
/// layer that supplied it.
pub fn merge_env_layers(layers: &[EnvLayer]) -> (r: ResolvedEnv)
    ensures
        r.spec_vars() == merged(layers@),
{
    let mut resolved = ResolvedEnv::new();
    let mut i: usize = 0;
    proof {
        assert(layers@.take(0) =~= Seq::<EnvLayer>::empty());
    }
    while i < layers.len()
        invariant
            i <= layers@.len(),
            resolved.spec_vars() == merged(layers@.take(i as int)),
        decreases layers@.len() - i,
    {
        proof {
            assert(layers@.take(i + 1).drop_last() =~= layers@.take(i as int));
            assert(layers@.take(i + 1).last() == layers@[i as int]);
        }
        let source = EnvLayerSource { kind: layers[i].kind, path: layers[i].path.clone() };
        resolved.assign_pairs(&layers[i].vars, &source);
        i = i + 1;
    }
    proof {
        assert(layers@.take(layers@.len() as int) =~= layers@);
    }
    resolved
}

/// Overlay assignments on a resolved environment; each overlaid value is
/// attributed to `source` and every other variable keeps its provenance.
pub fn overlay_env(base: &ResolvedEnv, overlay: &Vec<(String, String)>, source: &EnvLayerSource) -> (r: ResolvedEnv)
    ensures
        r.spec_vars() == assign_all(base.spec_vars(), overlay@, source@),
{
    let mut resolved = base.duplicate();
    resolved.assign_pairs(overlay, source);
    resolved
}

/// A later layer overrides every variable it sets, and the value it sets
/// carries that layer's provenance; variables it does not set keep theirs.
pub proof fn lemma_later_layer_wins(layers: Seq<EnvLayer>, layer: EnvLayer, k: Seq<char>)
    ensures
        (exists|i: int| 0 <= i < layer.vars@.len() && #[trigger] layer.vars@[i].0@ == k) ==> merged(layers.push(layer)).contains_key(k)
            && merged(layers.push(layer))[k].1 == (layer.kind, layer.path@),
        (forall|i: int| 0 <= i < layer.vars@.len() ==> #[trigger] layer.vars@[i].0@ != k) ==> merged(layers.push(layer)).contains_key(k)
            == merged(layers).contains_key(k) && (merged(layers).contains_key(k) ==> merged(layers.push(layer))[k]
            == merged(layers)[k]),
{
    assert(layers.push(layer).drop_last() =~= layers);
    lemma_assign_all_source(merged(layers), layer.vars@, (layer.kind, layer.path@), k);
}

proof fn lemma_assign_all_source(
    m: Map<Seq<char>, (Seq<char>, (EnvLayerKind, Seq<char>))>,
    pairs: Seq<(String, String)>,
    source: (EnvLayerKind, Seq<char>),
    k: Seq<char>,
)
    ensures
        (exists|i: int| 0 <= i < pairs.len() && #[trigger] pairs[i].0@ == k) ==> assign_all(m, pairs, source).contains_key(k)
            && assign_all(m, pairs, source)[k].1 == source,
        (forall|i: int| 0 <= i < pairs.len() ==> #[trigger] pairs[i].0@ != k) ==> assign_all(m, pairs, source).contains_key(k)
            == m.contains_key(k) && (m.contains_key(k) ==> assign_all(m, pairs, source)[k] == m[k]),
    decreases pairs.len(),
{
    if pairs.len() > 0 {
        let t = pairs.drop_last();
        lemma_assign_all_source(m, t, source, k);
        if exists|i: int| 0 <= i < pairs.len() && #[trigger] pairs[i].0@ == k {
            let i = choose|i: int| 0 <= i < pairs.len() && #[trigger] pairs[i].0@ == k;
            if i < pairs.len() - 1 {
                assert(t[i].0@ == k);
            }
        }
        if forall|i: int| 0 <= i < pairs.len() ==> #[trigger] pairs[i].0@ != k {
            assert forall|i: int| 0 <= i < t.len() implies #[trigger] t[i].0@ != k by {
                assert(t[i] == pairs[i]);
            }
            assert(pairs[pairs.len() - 1].0@ != k);
        }
    }
}

} // verus!
