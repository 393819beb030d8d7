//! Stable DNS labels for linked worktrees.

use crate::domain::{lemma_sanitized_label_ascii, sanitize_dns_label, spec_sanitize_dns_label, trim_trailing_dashes};
use crate::text::{all_ascii, decimal, digit_char, push_char, push_decimal, str_chars};
use vstd::prelude::*;
use vstd::relations::injective_on;
use vstd::set_lib::*;

verus! {

// ---------------------------------------------------------------------------
// Worktree domain slugs
// ---------------------------------------------------------------------------

/// The last `/`-separated segment of a branch name: the whole name when it
/// holds no `/`.
pub open spec fn spec_branch_last_segment(branch: Seq<char>) -> Seq<char>
    decreases branch.len(),
{
    if branch.len() == 0 {
        branch
    } else if branch.last() == '/' {
        Seq::empty()
    } else {
        spec_branch_last_segment(branch.drop_last()).push(branch.last())
    }
}

/// A slug hint as one DNS label (ASCII letters and digits lowercased, other
/// runs collapsed to `-`, at most 63 characters, no edge dashes), or nothing
/// when no letter or digit survives.
pub open spec fn spec_sanitize_slug_hint(hint: Seq<char>) -> Option<Seq<char>> {
    let label = spec_sanitize_dns_label(hint, Seq::empty());
    if label.len() == 0 {
        None
    } else {
        Some(label)
    }
}

/// The last `/`-separated segment of a branch name.
pub fn branch_last_segment(branch: &str) -> (r: String)
    ensures
        r@ == spec_branch_last_segment(branch@),
{
    let chars = str_chars(branch);
    let mut start: usize = 0;
    let mut i: usize = 0;
    while i < chars.len()
        invariant
            chars@ == branch@,
            start <= i <= chars@.len(),
            spec_branch_last_segment(chars@.take(i as int)) == chars@.subrange(start as int, i as int),
        decreases chars@.len() - i,
    {
        proof {
            assert(chars@.take(i + 1).drop_last() =~= chars@.take(i as int));
        }
        if chars[i] == '/' {
            start = i + 1;
            proof {
                assert(chars@.subrange(start as int, i + 1) =~= Seq::<char>::empty());
            }
        } else {
            proof {
                assert(chars@.subrange(start as int, i + 1) =~= chars@.subrange(start as int, i as int).push(chars@[i as int]));
            }
        }
        i = i + 1;
    }
    proof {
        assert(chars@.take(i as int) =~= chars@);
    }
    let mut out = String::new();
    let mut k: usize = start;
    while k < chars.len()
        invariant
            start <= k <= chars@.len(),
            out@ == chars@.subrange(start as int, k as int),
        decreases chars@.len() - k,
    {
        push_char(&mut out, chars[k]);
        k = k + 1;
        proof {
            assert(out@ =~= chars@.subrange(start as int, k as int));
        }
    }
    out
}

/// A slug hint as one DNS label, or `None` when nothing of it survives.
pub fn sanitize_slug_hint(hint: &str) -> (r: Option<String>)
    ensures
        r matches Some(t) ==> spec_sanitize_slug_hint(hint@) == Some(t@),
        r is None ==> spec_sanitize_slug_hint(hint@) is None,
        r matches Some(t) ==> all_ascii(t@) && 0 < t@.len() <= 63,
{
    let label = sanitize_dns_label(hint, "");
    proof {
        reveal_strlit("");
        lemma_sanitized_label_ascii(hint@, Seq::empty());
        crate::domain::lemma_sanitized_label_len(hint@, Seq::empty());
    }
    if label.as_str().is_empty() {
        None
    } else {
        Some(label)
    }
}

/// The suffix that makes the `n`th candidate slug distinct.
pub open spec fn slug_suffix(n: nat) -> Seq<char> {
    seq!['-'] + decimal(n)
}

/// The `n`th candidate slug: as much of `base` as leaves room for the suffix
/// within one 63-character DNS label, without trailing dashes, then the suffix.
pub open spec fn slug_candidate(base: Seq<char>, n: nat) -> Seq<char> {
    let suffix = slug_suffix(n);
    let available = if suffix.len() <= 63 {
        63 - suffix.len()
    } else {
        0
    };
    let keep = if base.len() < available {
        base.len() as int
    } else {
        available
    };
    trim_trailing_dashes(base.take(keep)) + suffix
}

/// Text by characters.
pub open spec fn text_set(v: Seq<String>) -> Set<Seq<char>> {
    v.map_values(|s: String| s@).to_set()
}

/// The slug allocated for `base` against the reserved slugs: `base` itself
/// when free, else the first free candidate from the second on.
pub open spec fn slug_allocated(base: Seq<char>, reserved: Set<Seq<char>>, r: Seq<char>) -> bool {
    !reserved.contains(r) && (r == base || (reserved.contains(base) && exists|n: nat|
        2 <= n && r == slug_candidate(base, n) && forall|m: nat| 2 <= m < n ==> reserved.contains(#[trigger] slug_candidate(base, m))))
}

proof fn lemma_decimal_digits(n: nat)
    ensures
        decimal(n).len() >= 1,
        n >= 10 ==> decimal(n).len() >= 2,
        forall|i: int| 0 <= i < decimal(n).len() ==> '0' <= #[trigger] decimal(n)[i] <= '9',
    decreases n,
{
    if n >= 10 {
        lemma_decimal_digits(n / 10);
        let d = decimal(n / 10);
        assert forall|i: int| 0 <= i < decimal(n).len() implies '0' <= #[trigger] decimal(n)[i] <= '9' by {
            if i < d.len() {
                assert(decimal(n)[i] == d[i]);
            }
        }
    }
}

proof fn lemma_digit_char_injective(a: int, b: int)
    requires
        0 <= a <= 9,
        0 <= b <= 9,
        digit_char(a) == digit_char(b),
    ensures
        a == b,
{
    assert((digit_char(a) as int) == 48 + a);
    assert((digit_char(b) as int) == 48 + b);
}

proof fn lemma_decimal_injective(n: nat, m: nat)
    requires
        decimal(n) == decimal(m),
    ensures
        n == m,
    decreases n,
{
    lemma_decimal_digits(n);
    lemma_decimal_digits(m);
    if n < 10 && m < 10 {
        assert(decimal(n) == seq![digit_char(n as int)]);
        assert(decimal(m) == seq![digit_char(m as int)]);
        assert(decimal(n)[0] == digit_char(n as int));
        assert(decimal(m)[0] == digit_char(m as int));
        lemma_digit_char_injective(n as int, m as int);
    } else if n >= 10 && m >= 10 {
        assert(decimal(n) == decimal(n / 10).push(digit_char((n % 10) as int)));
        assert(decimal(m) == decimal(m / 10).push(digit_char((m % 10) as int)));
        assert(decimal(n).last() == digit_char((n % 10) as int));
        assert(decimal(m).last() == digit_char((m % 10) as int));
        lemma_digit_char_injective((n % 10) as int, (m % 10) as int);
        assert(decimal(n / 10) =~= decimal(n).drop_last());
        assert(decimal(m / 10) =~= decimal(m).drop_last());
        lemma_decimal_injective(n / 10, m / 10);
    }
}

proof fn lemma_candidates_distinct(base: Seq<char>, n: nat, m: nat)
    requires
        slug_candidate(base, n) == slug_candidate(base, m),
    ensures
        n == m,
{
    let c = slug_candidate(base, n);
    let pn = trim_trailing_dashes(base.take(if base.len() < (if slug_suffix(n).len() <= 63 { 63 - slug_suffix(n).len() } else { 0 }) { base.len() as int } else { if slug_suffix(n).len() <= 63 { 63 - slug_suffix(n).len() } else { 0 } }));
    let pm = trim_trailing_dashes(base.take(if base.len() < (if slug_suffix(m).len() <= 63 { 63 - slug_suffix(m).len() } else { 0 }) { base.len() as int } else { if slug_suffix(m).len() <= 63 { 63 - slug_suffix(m).len() } else { 0 } }));
    let dn = decimal(n);
    let dm = decimal(m);
    lemma_decimal_digits(n);
    lemma_decimal_digits(m);
    assert(c == pn + seq!['-'] + dn);
    assert(c == pm + seq!['-'] + dm);
    if dn.len() < dm.len() {
        let k = c.len() - dn.len() - 1;
        assert(c[k] == '-');
        assert(c[k] == dm[dm.len() - dn.len() - 1]);
    } else if dm.len() < dn.len() {
        let k = c.len() - dm.len() - 1;
        assert(c[k] == '-');
        assert(c[k] == dn[dn.len() - dm.len() - 1]);
    } else {
        assert(dn =~= c.subrange(c.len() - dn.len(), c.len() as int));
        assert(dm =~= c.subrange(c.len() - dm.len(), c.len() as int));
        lemma_decimal_injective(n, m);
    }
}

/// Ten to the power `k`.
pub open spec fn pow10(k: nat) -> nat
    decreases k,
{
    if k == 0 {
        1
    } else {
        10 * pow10((k - 1) as nat)
    }
}

proof fn lemma_decimal_len(n: nat, k: nat)
    requires
        k >= 1,
        n < pow10(k),
    ensures
        decimal(n).len() <= k,
    decreases k,
{
    if n >= 10 {
        assert(k >= 2) by {
            if k == 1 {
                assert(pow10(1) == 10 * pow10(0));
            }
        }
        assert(pow10(k) == 10 * pow10((k - 1) as nat));
        assert(n / 10 < pow10((k - 1) as nat));
        lemma_decimal_len(n / 10, (k - 1) as nat);
    }
}

/// A numbered candidate of any 64-bit ordinal fits in one DNS label.
proof fn lemma_candidate_len(base: Seq<char>, n: u64)
    ensures
        slug_candidate(base, n as nat).len() <= 63,
{
    reveal_with_fuel(pow10, 21);
    assert(pow10(20) == 100000000000000000000);
    lemma_decimal_len(n as nat, 20);
    let suffix = slug_suffix(n as nat);
    assert(suffix.len() <= 21);
    let available = 63 - suffix.len();
    let keep = if base.len() < available { base.len() as int } else { available };
    crate::domain::lemma_trim_len(base.take(keep));
}

fn texts_contain(reserved: &[String], s: &[char]) -> (r: bool)
    ensures
        r == text_set(reserved@).contains(s@),
{
    let ghost views = reserved@.map_values(|x: String| x@);
    let mut i: usize = 0;
    while i < reserved.len()
        invariant
            i <= reserved@.len(),
            views == reserved@.map_values(|x: String| x@),
            forall|j: int| 0 <= j < i ==> views[j] != s@,
        decreases reserved@.len() - i,
    {
        let c = str_chars(reserved[i].as_str());
        if crate::text::compare_chars(c.as_slice(), s) == 0 {
            proof {
                assert(views[i as int] == s@);
                assert(views.contains(s@));
            }
            return true;
        }
        i = i + 1;
    }
    proof {
        assert(!views.contains(s@));
    }
    false
}

fn candidate_chars(base: &Vec<char>, n: u64) -> (r: Vec<char>)
    ensures
        r@ == slug_candidate(base@, n as nat),
{
    let mut suffix_text = String::new();
    push_char(&mut suffix_text, '-');
    push_decimal(&mut suffix_text, n);
    let suffix = str_chars(suffix_text.as_str());
    assert(suffix@ =~= slug_suffix(n as nat));
    let available: usize = if suffix.len() <= 63 { 63 - suffix.len() } else { 0 };
    let mut keep: usize = if base.len() < available { base.len() } else { available };
    let ghost taken = base@.take(keep as int);
    while keep > 0 && base[keep - 1] == '-'
        invariant
            keep <= base@.len(),
            trim_trailing_dashes(taken) == trim_trailing_dashes(base@.take(keep as int)),
        decreases keep,
    {
        proof {
            assert(base@.take(keep as int).drop_last() =~= base@.take(keep - 1));
        }
        keep = keep - 1;
    }
    proof {
        let t = base@.take(keep as int);
        if t.len() > 0 {
            assert(t.last() != '-');
        }
        assert(trim_trailing_dashes(t) == t);
    }
    let mut out: Vec<char> = Vec::new();
    let mut i: usize = 0;
    while i < keep
        invariant
            i <= keep <= base@.len(),
            out@ == base@.take(i as int),
        decreases keep - i,
    {
        out.push(base[i]);
        i = i + 1;
        assert(out@ =~= base@.take(i as int));
    }
    let ghost prefix = out@;
    let mut j: usize = 0;
    while j < suffix.len()
        invariant
            j <= suffix@.len(),
            out@ == prefix + suffix@.take(j as int),
        decreases suffix@.len() - j,
    {
        out.push(suffix[j]);
        j = j + 1;
        assert(out@ =~= prefix + suffix@.take(j as int));
    }
    assert(suffix@.take(suffix@.len() as int) =~= suffix@);
    out
}

/// Allocate a worktree slug unique among `reserved`: `base` when free, else
/// the first free numbered candidate.
pub fn allocate_unique_domain_slug(base: &str, reserved: &[String]) -> (r: String)
    requires
        all_ascii(base@),
        reserved@.len() + 3 <= 0xffff_ffff_ffff_ffff,
    ensures
        slug_allocated(base@, text_set(reserved@), r@),
        base@.len() <= 63 ==> r@.len() <= 63,
{
    let b = str_chars(base);
    if !texts_contain(reserved, b.as_slice()) {
        return String::from_str(base);
    }
    let ghost rs = text_set(reserved@);
    let k = reserved.len() as u64;
    let mut n: u64 = 2;
    loop
        invariant
            2 <= n <= k + 2,
            k == reserved@.len(),
            k + 3 <= 0xffff_ffff_ffff_ffff,
            rs == text_set(reserved@),
            b@ == base@,
            rs.contains(base@),
            forall|m: nat| 2 <= m < n ==> rs.contains(#[trigger] slug_candidate(base@, m)),
        decreases k + 2 - n,
    {
        let c = candidate_chars(&b, n);
        proof {
            lemma_candidate_len(base@, n);
        }
        if !texts_contain(reserved, c.as_slice()) {
            let r = crate::text::chars_to_string(c.as_slice());
            return r;
        }
        if n == k + 2 {
            proof {
                lemma_free_candidate_exists(base@, rs, reserved@, n as nat);
                let m = choose|m: nat| 2 <= m <= n && !rs.contains(#[trigger] slug_candidate(base@, m));
                assert(rs.contains(slug_candidate(base@, n as nat)));
                assert(false);
            }
            let r = crate::text::chars_to_string(c.as_slice());
            return r;
        }
        n = n + 1;
    }
}

/// Among the first `reserved.len() + 1` numbered candidates at least one is free.
proof fn lemma_free_candidate_exists(base: Seq<char>, rs: Set<Seq<char>>, reserved: Seq<String>, last: nat)
    requires
        rs == text_set(reserved),
        last == reserved.len() + 2,
    ensures
        exists|m: nat| 2 <= m <= last && !rs.contains(#[trigger] slug_candidate(base, m)),
{
    if forall|m: nat| 2 <= m <= last ==> rs.contains(#[trigger] slug_candidate(base, m)) {
        let x = set_int_range(2, last as int + 1);
        lemma_int_range(2, last as int + 1);
        let f = |i: int| slug_candidate(base, i as nat);
        assert(injective_on(f, x)) by {
            assert forall|a: int, b: int| x.contains(a) && x.contains(b) && #[trigger] f(a) == #[trigger] f(b) implies a == b by {
                lemma_candidates_distinct(base, a as nat, b as nat);
            }
        }
        let y = x.map(f);
        lemma_map_size(x, y, f);
        assert(y.subset_of(rs)) by {
            assert forall|s: Seq<char>| y.contains(s) implies rs.contains(s) by {
                let i = choose|i: int| x.contains(i) && f(i) == s;
                assert(rs.contains(slug_candidate(base, i as nat)));
            }
        }
        reserved.map_values(|x: String| x@).lemma_cardinality_of_set();
        lemma_len_subset(y, rs);
    }
}

} // verus!
