//! Domain ownership shared by routing, status, hosts, and TLS.

use crate::identity::ProjectInstanceId;
use crate::text::{
    all_ascii, ascii_lower, ascii_lower_seq, char_ascii_lower, char_is_ascii_alnum, chars_to_string,
    compare_chars, ends_with, has_char, is_whitespace_char, is_whitespace_exec, is_ascii_alnum, lemma_lex_asymmetric, lemma_lex_irreflexive, lemma_lex_transitive,
    lex_lt, starts_with, str_chars,
};
use vstd::prelude::*;
use vstd::string::*;

verus! {

// ---------------------------------------------------------------------------
// DNS label sanitization
// ---------------------------------------------------------------------------

/// The DNS-label form of one display-name character.
pub open spec fn label_char(c: char) -> char {
    if is_ascii_alnum(c) {
        ascii_lower(c)
    } else {
        '-'
    }
}

/// One step of label sanitization: the accumulated label and whether the
/// 63-character limit stopped the scan.
pub open spec fn sanitize_step(acc: Seq<char>, c: char) -> (Seq<char>, bool) {
    let n = label_char(c);
    if n == '-' && (acc.len() == 0 || acc.last() == '-') {
        (acc, false)
    } else if acc.len() == 63 {
        (acc, true)
    } else {
        (acc.push(n), false)
    }
}

/// The label accumulated after scanning the first `i` characters of `s`.
pub open spec fn sanitize_scan(s: Seq<char>, i: nat) -> (Seq<char>, bool)
    decreases i,
{
    if i == 0 || i > s.len() {
        (Seq::empty(), false)
    } else {
        let prev = sanitize_scan(s, (i - 1) as nat);
        if prev.1 {
            prev
        } else {
            sanitize_step(prev.0, s[i - 1])
        }
    }
}

/// `s` without any trailing `-` characters.
pub open spec fn trim_trailing_dashes(s: Seq<char>) -> Seq<char>
    decreases s.len(),
{
    if s.len() > 0 && s.last() == '-' {
        trim_trailing_dashes(s.drop_last())
    } else {
        s
    }
}

/// The deterministic DNS label for a display name, or `fallback` when no
/// letter or digit survives.
pub open spec fn spec_sanitize_dns_label(value: Seq<char>, fallback: Seq<char>) -> Seq<char> {
    let label = trim_trailing_dashes(sanitize_scan(value, value.len()).0);
    if label.len() == 0 {
        fallback
    } else {
        label
    }
}

proof fn lemma_scan_stays_stopped(s: Seq<char>, i: nat, k: nat)
    requires
        0 < i <= k <= s.len(),
        sanitize_scan(s, i).1,
    ensures
        sanitize_scan(s, k) == sanitize_scan(s, i),
    decreases k - i,
{
    if k > i {
        lemma_scan_stays_stopped(s, i, (k - 1) as nat);
    }
}

proof fn lemma_scan_shape(s: Seq<char>, i: nat)
    requires
        i <= s.len(),
    ensures
        sanitize_scan(s, i).0.len() <= 63,
        sanitize_scan(s, i).0.len() > 0 ==> sanitize_scan(s, i).0[0] != '-',
    decreases i,
{
    if i > 0 {
        lemma_scan_shape(s, (i - 1) as nat);
    }
}

proof fn lemma_trim_trailing_dashes_prefix(s: Seq<char>)
    ensures
        trim_trailing_dashes(s).len() <= s.len(),
        trim_trailing_dashes(s) == s.subrange(0, trim_trailing_dashes(s).len() as int),
        trim_trailing_dashes(s).len() > 0 ==> trim_trailing_dashes(s).last() != '-',
    decreases s.len(),
{
    if s.len() > 0 && s.last() == '-' {
        lemma_trim_trailing_dashes_prefix(s.drop_last());
        let t = trim_trailing_dashes(s.drop_last());
        assert(t =~= s.subrange(0, t.len() as int));
    } else {
        assert(s =~= s.subrange(0, s.len() as int));
    }
}

proof fn lemma_scan_ascii(s: Seq<char>, i: nat)
    requires
        i <= s.len(),
    ensures
        all_ascii(sanitize_scan(s, i).0),
    decreases i,
{
    if i > 0 {
        lemma_scan_ascii(s, (i - 1) as nat);
        let c = s[i - 1];
        let n = label_char(c);
        if 'A' <= c && c <= 'Z' {
            assert((n as u32) < 128);
        }
        assert((n as u32) < 128);
        let prev = sanitize_scan(s, (i - 1) as nat);
        if !prev.1 {
            let acc = prev.0;
            assert forall|k: int| 0 <= k < acc.push(n).len() implies (acc.push(n)[k] as u32) < 128 by {
                if k < acc.len() {
                    assert(acc.push(n)[k] == acc[k]);
                }
            }
        }
    }
}

/// A sanitized label is ASCII when its fallback is.
pub proof fn lemma_sanitized_label_ascii(value: Seq<char>, fallback: Seq<char>)
    requires
        all_ascii(fallback),
    ensures
        all_ascii(spec_sanitize_dns_label(value, fallback)),
{
    let scan = sanitize_scan(value, value.len()).0;
    lemma_scan_ascii(value, value.len());
    lemma_trim_trailing_dashes_prefix(scan);
    let t = trim_trailing_dashes(scan);
    assert forall|k: int| 0 <= k < t.len() implies (t[k] as u32) < 128 by {
        assert(t[k] == scan.subrange(0, t.len() as int)[k]);
    }
}

/// A character a sanitized label may hold.
pub open spec fn dns_label_char(c: char) -> bool {
    ('a' <= c && c <= 'z') || ('0' <= c && c <= '9') || c == '-'
}

/// One DNS label as sanitizing produces it: 1 to 63 lowercase ASCII letters,
/// digits and dashes, no dash at either end and no two dashes together.
pub open spec fn is_dns_label(s: Seq<char>) -> bool {
    &&& 0 < s.len() <= 63
    &&& forall|i: int| 0 <= i < s.len() ==> dns_label_char(#[trigger] s[i])
    &&& s[0] != '-'
    &&& s.last() != '-'
    &&& forall|i: int| 0 <= i < s.len() - 1 ==> !(#[trigger] s[i] == '-' && s[i + 1] == '-')
}

proof fn lemma_scan_label(s: Seq<char>, i: nat)
    requires
        i <= s.len(),
    ensures
        forall|k: int| 0 <= k < sanitize_scan(s, i).0.len() ==> dns_label_char(#[trigger] sanitize_scan(s, i).0[k]),
        forall|k: int|
            0 <= k < sanitize_scan(s, i).0.len() - 1 ==> !(#[trigger] sanitize_scan(s, i).0[k] == '-' && sanitize_scan(s, i).0[k
                + 1] == '-'),
    decreases i,
{
    if i > 0 {
        lemma_scan_label(s, (i - 1) as nat);
        let prev = sanitize_scan(s, (i - 1) as nat);
        let c = s[i - 1];
        let n = label_char(c);
        assert(dns_label_char(n));
        if !prev.1 {
            let acc = prev.0;
            if !(n == '-' && (acc.len() == 0 || acc.last() == '-')) && acc.len() != 63 {
                let out = acc.push(n);
                assert(sanitize_scan(s, i).0 == out);
                assert forall|k: int| 0 <= k < out.len() implies dns_label_char(#[trigger] out[k]) by {
                    if k < acc.len() {
                        assert(out[k] == acc[k]);
                    }
                }
                assert forall|k: int| 0 <= k < out.len() - 1 implies !(#[trigger] out[k] == '-' && out[k + 1] == '-') by {
                    if k < acc.len() - 1 {
                        assert(out[k] == acc[k] && out[k + 1] == acc[k + 1]);
                    } else {
                        assert(k == acc.len() - 1);
                        assert(out[k] == acc.last());
                    }
                }
            }
        }
    }
}

proof fn lemma_label_scans_to_itself(l: Seq<char>, i: nat)
    requires
        is_dns_label(l),
        i <= l.len(),
    ensures
        sanitize_scan(l, i) == (l.take(i as int), false),
    decreases i,
{
    if i > 0 {
        lemma_label_scans_to_itself(l, (i - 1) as nat);
        let c = l[i - 1];
        assert(dns_label_char(c));
        assert(label_char(c) == c);
        let acc = l.take(i - 1);
        if i >= 2 {
            assert(acc.last() == l[i - 2]);
            assert(!(l[i - 2] == '-' && l[i - 1] == '-'));
        }
        assert(l.take(i as int) =~= acc.push(c));
    }
}

/// Sanitizing yields one DNS label, and sanitizing that label again changes
/// nothing, whenever the fallback is itself such a label.
pub proof fn lemma_sanitize_dns_label_law(value: Seq<char>, fallback: Seq<char>)
    requires
        is_dns_label(fallback),
    ensures
        is_dns_label(spec_sanitize_dns_label(value, fallback)),
        spec_sanitize_dns_label(spec_sanitize_dns_label(value, fallback), fallback) == spec_sanitize_dns_label(value, fallback),
{
    let scan = sanitize_scan(value, value.len()).0;
    lemma_scan_shape(value, value.len());
    lemma_scan_label(value, value.len());
    lemma_trim_trailing_dashes_prefix(scan);
    let t = trim_trailing_dashes(scan);
    if t.len() > 0 {
        assert forall|k: int| 0 <= k < t.len() implies dns_label_char(#[trigger] t[k]) by {
            assert(t[k] == scan.subrange(0, t.len() as int)[k]);
        }
        assert forall|k: int| 0 <= k < t.len() - 1 implies !(#[trigger] t[k] == '-' && t[k + 1] == '-') by {
            assert(t[k] == scan.subrange(0, t.len() as int)[k]);
            assert(t[k + 1] == scan.subrange(0, t.len() as int)[k + 1]);
        }
        assert(t[0] == scan.subrange(0, t.len() as int)[0]);
    }
    let l = spec_sanitize_dns_label(value, fallback);
    assert(is_dns_label(l));
    lemma_label_scans_to_itself(l, l.len());
    assert(l.take(l.len() as int) =~= l);
    assert(trim_trailing_dashes(l) == l);
}

/// A sanitized label is the fallback or at most 63 characters long.
pub proof fn lemma_sanitized_label_len(value: Seq<char>, fallback: Seq<char>)
    ensures
        spec_sanitize_dns_label(value, fallback) == fallback || spec_sanitize_dns_label(value, fallback).len() <= 63,
{
    lemma_scan_shape(value, value.len());
    lemma_trim_trailing_dashes_prefix(sanitize_scan(value, value.len()).0);
}

/// Trimming trailing dashes never lengthens a text.
pub proof fn lemma_trim_len(s: Seq<char>)
    ensures
        trim_trailing_dashes(s).len() <= s.len(),
{
    lemma_trim_trailing_dashes_prefix(s);
}

/// Convert a project display name into a deterministic DNS label for its
/// implicit `.localhost` domain.
///
/// Explicitly configured domains remain strict and are never rewritten.
pub fn sanitize_project_name_for_dns(project_name: &str) -> (r: String)
    ensures
        r@ == spec_sanitize_dns_label(project_name@, "project"@),
        is_dns_label(r@),
{
    proof {
        reveal_strlit("project");
        assert(is_dns_label("project"@));
        lemma_sanitize_dns_label_law(project_name@, "project"@);
    }
    sanitize_dns_label(project_name, "project")
}

/// Convert a service display name into the DNS label used for its generated
/// service subdomain. The original name remains the runtime service identity.
pub fn sanitize_service_name_for_dns(service_name: &str) -> (r: String)
    ensures
        r@ == spec_sanitize_dns_label(service_name@, "service"@),
        is_dns_label(r@),
{
    proof {
        reveal_strlit("service");
        assert(is_dns_label("service"@));
        lemma_sanitize_dns_label_law(service_name@, "service"@);
    }
    sanitize_dns_label(service_name, "service")
}

/// Map a display name onto one DNS label: ASCII letters and digits are
/// lowercased, every other run of characters becomes one `-`, the label is
/// capped at 63 characters and trailing dashes are trimmed.
pub fn sanitize_dns_label(value: &str, empty_fallback: &str) -> (r: String)
    ensures
        r@ == spec_sanitize_dns_label(value@, empty_fallback@),
{
    let chars = str_chars(value);
    let mut result: Vec<char> = Vec::new();
    let mut i: usize = 0;
    while i < chars.len()
        invariant
            chars@ == value@,
            i <= chars@.len(),
            sanitize_scan(value@, i as nat).0 == result@,
            i < chars@.len() ==> !sanitize_scan(value@, i as nat).1,
        ensures
            i == chars@.len(),
        decreases chars@.len() - i,
    {
        let c = chars[i];
        let normalized = if char_is_ascii_alnum(c) {
            char_ascii_lower(c)
        } else {
            '-'
        };
        assert(normalized == label_char(c));
        if normalized == '-' && (result.len() == 0 || result[result.len() - 1] == '-') {
            i = i + 1;
            continue;
        }
        if result.len() == 63 {
            proof {
                assert(sanitize_scan(value@, (i + 1) as nat) == (result@, true));
                lemma_scan_stays_stopped(value@, (i + 1) as nat, value@.len());
            }
            i = chars.len();
            break;
        }
        result.push(normalized);
        i = i + 1;
    }
    assert(sanitize_scan(value@, value@.len()).0 == result@);
    // Trim the trailing dashes.
    let mut end: usize = result.len();
    proof {
        assert(result@.subrange(0, end as int) =~= result@);
    }
    while end > 0 && result[end - 1] == '-'
        invariant
            end <= result@.len(),
            sanitize_scan(value@, value@.len()).0 == result@,
            trim_trailing_dashes(result@) == trim_trailing_dashes(result@.subrange(0, end as int)),
        decreases end,
    {
        proof {
            assert(result@.subrange(0, end as int).drop_last() =~= result@.subrange(0, end - 1));
        }
        end = end - 1;
    }
    let mut trimmed: Vec<char> = Vec::new();
    let mut j: usize = 0;
    while j < end
        invariant
            j <= end <= result@.len(),
            sanitize_scan(value@, value@.len()).0 == result@,
            trim_trailing_dashes(result@) == trim_trailing_dashes(result@.subrange(0, end as int)),
            end == 0 || result@[end - 1] != '-',
            trimmed@ == result@.subrange(0, j as int),
        decreases end - j,
    {
        trimmed.push(result[j]);
        j = j + 1;
        proof {
            assert(trimmed@ =~= result@.subrange(0, j as int));
        }
    }
    proof {
        assert(trim_trailing_dashes(result@.subrange(0, end as int)) == result@.subrange(0, end as int));
        assert(trimmed@ == trim_trailing_dashes(result@));
    }
    if trimmed.len() == 0 {
        String::from_str(empty_fallback)
    } else {
        chars_to_string(trimmed.as_slice())
    }
}


// ---------------------------------------------------------------------------
// Exact hostnames
// ---------------------------------------------------------------------------

/// Whether trimming whitespace would change `v`.
pub open spec fn has_edge_whitespace(v: Seq<char>) -> bool {
    v.len() > 0 && (is_whitespace_char(v[0]) || is_whitespace_char(v.last()))
}

/// `v` without one optional trailing root dot.
pub open spec fn strip_trailing_dot(v: Seq<char>) -> Seq<char> {
    if v.len() > 0 && v.last() == '.' {
        v.drop_last()
    } else {
        v
    }
}

/// The index of the first `.` at or after `i`, or the length of `s`.
pub open spec fn next_dot(s: Seq<char>, i: int) -> int
    decreases s.len() - i,
{
    if i >= s.len() {
        s.len() as int
    } else if s[i] == '.' {
        i
    } else {
        next_dot(s, i + 1)
    }
}

pub proof fn lemma_next_dot(s: Seq<char>, i: int)
    requires
        0 <= i <= s.len(),
    ensures
        i <= next_dot(s, i) <= s.len(),
        next_dot(s, i) < s.len() ==> s[next_dot(s, i)] == '.',
        forall|j: int| i <= j < next_dot(s, i) ==> s[j] != '.',
    decreases s.len() - i,
{
    if i < s.len() && s[i] != '.' {
        lemma_next_dot(s, i + 1);
    }
}

pub open spec fn reason_whitespace() -> Seq<char> {
    "leading or trailing whitespace is not allowed"@
}

pub open spec fn reason_not_ascii() -> Seq<char> {
    "only ASCII hostnames are supported"@
}

pub open spec fn reason_scheme_or_path() -> Seq<char> {
    "use a hostname without a scheme or path"@
}

pub open spec fn reason_port() -> Seq<char> {
    "ports are internal to locald and cannot appear in a domain claim"@
}

pub open spec fn reason_wildcard_in_exact() -> Seq<char> {
    "wildcard syntax is not valid in an exact hostname"@
}

pub open spec fn reason_empty() -> Seq<char> {
    "the hostname is empty"@
}

pub open spec fn reason_too_long() -> Seq<char> {
    "the hostname exceeds 253 characters"@
}

pub open spec fn reason_empty_label() -> Seq<char> {
    "empty DNS labels are not allowed"@
}

pub open spec fn reason_label(label: Seq<char>, tail: Seq<char>) -> Seq<char> {
    "DNS label `"@ + label + tail
}

pub open spec fn tail_label_too_long() -> Seq<char> {
    "` exceeds 63 characters"@
}

pub open spec fn tail_label_edge() -> Seq<char> {
    "` must start and end with a letter or digit"@
}

pub open spec fn tail_label_character() -> Seq<char> {
    "` contains an unsupported character"@
}

/// Whether a character may appear inside a DNS label.
pub open spec fn is_label_char(c: char) -> bool {
    is_ascii_alnum(c) || c == '-'
}

/// The first rule one DNS label breaks, if any.
pub open spec fn label_error(label: Seq<char>) -> Option<Seq<char>> {
    if label.len() == 0 {
        Some(reason_empty_label())
    } else if label.len() > 63 {
        Some(reason_label(label, tail_label_too_long()))
    } else if !is_ascii_alnum(label[0]) || !is_ascii_alnum(label.last()) {
        Some(reason_label(label, tail_label_edge()))
    } else if exists|i: int| 0 <= i < label.len() && !is_label_char(label[i]) {
        Some(reason_label(label, tail_label_character()))
    } else {
        None
    }
}

/// The first rule broken by the dot-separated labels of `s` starting at
/// offset `start`, if any.
pub open spec fn labels_error(s: Seq<char>, start: int) -> Option<Seq<char>>
    decreases s.len() - start,
{
    if start < 0 || start > s.len() {
        None
    } else {
        proof {
            lemma_next_dot(s, start);
        }
        let end = next_dot(s, start);
        match label_error(s.subrange(start, end)) {
            Some(reason) => Some(reason),
            None => if end >= s.len() {
                None
            } else {
                labels_error(s, end + 1)
            },
        }
    }
}

/// The canonical hostname for `v`, or the reason `v` is not a valid exact
/// hostname.
pub open spec fn spec_parse_domain_name(v: Seq<char>) -> Result<Seq<char>, Seq<char>> {
    if has_edge_whitespace(v) {
        Err(reason_whitespace())
    } else if !all_ascii(v) {
        Err(reason_not_ascii())
    } else if has_char(v, '/') || has_char(v, '\\') {
        Err(reason_scheme_or_path())
    } else if has_char(v, ':') {
        Err(reason_port())
    } else if has_char(v, '*') {
        Err(reason_wildcard_in_exact())
    } else {
        let canonical = ascii_lower_seq(strip_trailing_dot(v));
        if canonical.len() == 0 {
            Err(reason_empty())
        } else if canonical.len() > 253 {
            Err(reason_too_long())
        } else {
            match labels_error(canonical, 0) {
                Some(reason) => Err(reason),
                None => Ok(canonical),
            }
        }
    }
}

/// Whether `v` contains `c`.
pub fn contains_char(v: &[char], c: char) -> (r: bool)
    ensures
        r == has_char(v@, c),
{
    let mut i: usize = 0;
    while i < v.len()
        invariant
            i <= v@.len(),
            forall|j: int| 0 <= j < i ==> v@[j] != c,
        decreases v@.len() - i,
    {
        if v[i] == c {
            return true;
        }
        i = i + 1;
    }
    false
}

fn all_ascii_exec(v: &[char]) -> (r: bool)
    ensures
        r == all_ascii(v@),
{
    let mut i: usize = 0;
    while i < v.len()
        invariant
            i <= v@.len(),
            forall|j: int| 0 <= j < i ==> (v@[j] as u32) < 128,
        decreases v@.len() - i,
    {
        if (v[i] as u32) >= 128 {
            return false;
        }
        i = i + 1;
    }
    true
}

/// The characters `v[start..end]`.
pub fn slice_chars(v: &[char], start: usize, end: usize) -> (r: Vec<char>)
    requires
        start <= end <= v@.len(),
    ensures
        r@ == v@.subrange(start as int, end as int),
{
    let mut r: Vec<char> = Vec::new();
    let mut i: usize = start;
    while i < end
        invariant
            start <= i <= end <= v@.len(),
            r@ == v@.subrange(start as int, i as int),
        decreases end - i,
    {
        r.push(v[i]);
        i = i + 1;
        proof {
            assert(r@ =~= v@.subrange(start as int, i as int));
        }
    }
    r
}

fn label_reason(label: &[char], tail: &str) -> (r: String)
    ensures
        r@ == reason_label(label@, tail@),
{
    let mut r = String::from_str("DNS label `");
    let middle = chars_to_string(label);
    r.append(middle.as_str());
    r.append(tail);
    r
}

fn label_error_exec(label: &[char]) -> (r: Option<String>)
    ensures
        match r {
            Some(reason) => label_error(label@) == Some(reason@),
            None => label_error(label@) is None,
        },
{
    if label.len() == 0 {
        return Some(String::from_str("empty DNS labels are not allowed"));
    }
    if label.len() > 63 {
        return Some(label_reason(label, "` exceeds 63 characters"));
    }
    if !char_is_ascii_alnum(label[0]) || !char_is_ascii_alnum(label[label.len() - 1]) {
        return Some(label_reason(label, "` must start and end with a letter or digit"));
    }
    let mut i: usize = 0;
    while i < label.len()
        invariant
            i <= label@.len(),
            0 < label@.len() <= 63,
            is_ascii_alnum(label@[0]) && is_ascii_alnum(label@.last()),
            forall|j: int| 0 <= j < i ==> is_label_char(label@[j]),
        decreases label@.len() - i,
    {
        let c = label[i];
        if !(char_is_ascii_alnum(c) || c == '-') {
            assert(!is_label_char(label@[i as int]));
            return Some(label_reason(label, "` contains an unsupported character"));
        }
        i = i + 1;
    }
    None
}

/// Check every dot-separated label of a canonical candidate.
fn labels_error_exec(s: &[char]) -> (r: Option<String>)
    ensures
        match r {
            Some(reason) => labels_error(s@, 0) == Some(reason@),
            None => labels_error(s@, 0) is None,
        },
{
    let mut start: usize = 0;
    loop
        invariant
            start <= s@.len(),
            labels_error(s@, 0) == labels_error(s@, start as int),
        decreases s@.len() - start,
    {
        let mut end: usize = start;
        while end < s.len() && s[end] != '.'
            invariant
                start <= end <= s@.len(),
                next_dot(s@, start as int) == next_dot(s@, end as int),
            decreases s@.len() - end,
        {
            end = end + 1;
        }
        proof {
            lemma_next_dot(s@, start as int);
            assert(next_dot(s@, end as int) == end);
        }
        let label = slice_chars(s, start, end);
        match label_error_exec(label.as_slice()) {
            Some(reason) => {
                return Some(reason);
            },
            None => {},
        }
        if end >= s.len() {
            return None;
        }
        start = end + 1;
    }
}

/// The canonical lowercase form without one trailing dot.
fn canonical_chars(v: &[char]) -> (r: Vec<char>)
    ensures
        r@ == ascii_lower_seq(strip_trailing_dot(v@)),
{
    let n = if v.len() > 0 && v[v.len() - 1] == '.' {
        v.len() - 1
    } else {
        v.len()
    };
    let mut r: Vec<char> = Vec::new();
    let mut i: usize = 0;
    while i < n
        invariant
            n <= v@.len(),
            n == strip_trailing_dot(v@).len(),
            strip_trailing_dot(v@) == v@.subrange(0, n as int),
            i <= n,
            r@ == ascii_lower_seq(v@.subrange(0, i as int)),
        decreases n - i,
    {
        r.push(char_ascii_lower(v[i]));
        i = i + 1;
        proof {
            assert(r@ =~= ascii_lower_seq(v@.subrange(0, i as int)));
        }
    }
    proof {
        if v@.len() > 0 && v@.last() == '.' {
            assert(v@.drop_last() =~= v@.subrange(0, n as int));
        } else {
            assert(v@ =~= v@.subrange(0, n as int));
        }
    }
    r
}

/// A normalized exact DNS hostname.
///
/// Names are ASCII lowercase and omit the optional trailing root dot. Wildcard
/// ownership composes this exact type as a suffix through [`DomainPattern`].
#[derive(Debug, PartialEq, Eq, PartialOrd, Ord, Hash)]
pub struct DomainName {
    name: String,
}

impl View for DomainName {
    type V = Seq<char>;

    closed spec fn view(&self) -> Seq<char> {
        self.name@
    }
}

impl DomainName {
    /// Parse and canonicalize one exact hostname.
    pub fn parse(value: &str) -> (r: Result<DomainName, DomainError>)
        ensures
            match r {
                Ok(name) => spec_parse_domain_name(value@) == Ok::<Seq<char>, Seq<char>>(name@),
                Err(error) => match error {
                    DomainError::InvalidName { value: v, reason } => v@ == value@
                        && spec_parse_domain_name(value@) == Err::<Seq<char>, Seq<char>>(reason@),
                    _ => false,
                },
            },
    {
        let v = str_chars(value);
        let reason: String;
        if v.len() > 0 && (is_whitespace_exec(v[0]) || is_whitespace_exec(v[v.len() - 1])) {
            reason = String::from_str("leading or trailing whitespace is not allowed");
        } else if !all_ascii_exec(v.as_slice()) {
            reason = String::from_str("only ASCII hostnames are supported");
        } else if contains_char(v.as_slice(), '/') || contains_char(v.as_slice(), '\\') {
            reason = String::from_str("use a hostname without a scheme or path");
        } else if contains_char(v.as_slice(), ':') {
            reason = String::from_str("ports are internal to locald and cannot appear in a domain claim");
        } else if contains_char(v.as_slice(), '*') {
            reason = String::from_str("wildcard syntax is not valid in an exact hostname");
        } else {
            let canonical = canonical_chars(v.as_slice());
            if canonical.len() == 0 {
                reason = String::from_str("the hostname is empty");
            } else if canonical.len() > 253 {
                reason = String::from_str("the hostname exceeds 253 characters");
            } else {
                match labels_error_exec(canonical.as_slice()) {
                    Some(label_reason) => {
                        reason = label_reason;
                    },
                    None => {
                        return Ok(DomainName { name: chars_to_string(canonical.as_slice()) });
                    },
                }
            }
        }
        Err(DomainError::InvalidName { value: String::from_str(value), reason })
    }
}

impl Clone for DomainName {
    fn clone(&self) -> (r: Self)
        ensures
            r == *self,
    {
        DomainName { name: self.name.clone() }
    }
}

impl DomainName {
    /// Return the canonical hostname.
    pub fn as_str(&self) -> (r: &str)
        ensures
            r@ == self@,
    {
        self.name.as_str()
    }

    /// Return the canonical hostname as an owned string.
    pub fn to_string(&self) -> (r: String)
        ensures
            r@ == self@,
    {
        self.name.clone()
    }

    /// The characters of the canonical hostname.
    pub fn chars(&self) -> (r: Vec<char>)
        ensures
            r@ == self@,
    {
        str_chars(self.name.as_str())
    }

    /// Create a child hostname beneath this exact name.
    pub fn with_prefix(&self, prefix: &str) -> (r: Result<DomainName, DomainError>)
        ensures
            match r {
                Ok(name) => spec_parse_domain_name(prefix@ + "."@ + self@)
                    == Ok::<Seq<char>, Seq<char>>(name@),
                Err(error) => match error {
                    DomainError::InvalidName { value: v, reason } => v@ == prefix@ + "."@ + self@
                        && spec_parse_domain_name(v@) == Err::<Seq<char>, Seq<char>>(reason@),
                    _ => false,
                },
            },
            has_char(prefix@, '*') || has_char(prefix@, ':') || has_char(prefix@, '/') ==> r is Err,
    {
        proof {
            let v = prefix@ + "."@ + self@;
            assert forall|c: char| #[trigger] has_char(prefix@, c) implies has_char(v, c) by {
                let i = choose|i: int| 0 <= i < prefix@.len() && prefix@[i] == c;
                assert(v[i] == c);
            }
        }
        let mut candidate = String::from_str(prefix);
        candidate.append(".");
        candidate.append(self.name.as_str());
        DomainName::parse(candidate.as_str())
    }
}

/// Build a name directly from text already known to be canonical.
fn domain_name_from_literal(name: &str) -> (r: DomainName)
    ensures
        r@ == name@,
{
    DomainName { name: String::from_str(name) }
}

// ---------------------------------------------------------------------------
// Exact and wildcard patterns
// ---------------------------------------------------------------------------

pub open spec fn reason_one_leftmost_wildcard() -> Seq<char> {
    "only one leftmost `*.` wildcard label is supported"@
}

pub open spec fn reason_leftmost_wildcard() -> Seq<char> {
    "only a leftmost `*.` wildcard label is supported"@
}

/// The parse of a pattern: whether it is exact, its canonical name or
/// suffix, and the text a failure reports as the invalid value.
pub open spec fn spec_parse_domain_pattern(v: Seq<char>) -> Result<(bool, Seq<char>), (Seq<char>, Seq<char>)> {
    if starts_with(v, "*."@) {
        let suffix = v.subrange(2, v.len() as int);
        if has_char(suffix, '*') {
            Err((v, reason_one_leftmost_wildcard()))
        } else {
            match spec_parse_domain_name(suffix) {
                Ok(name) => Ok((false, name)),
                Err(reason) => Err((suffix, reason)),
            }
        }
    } else if has_char(v, '*') {
        Err((v, reason_leftmost_wildcard()))
    } else {
        match spec_parse_domain_name(v) {
            Ok(name) => Ok((true, name)),
            Err(reason) => Err((v, reason)),
        }
    }
}

/// Whether a one-label wildcard on `suffix` owns the concrete hostname: the
/// hostname is one non-empty label without a dot, a dot, then the suffix.
pub open spec fn wildcard_matches(suffix: Seq<char>, concrete: Seq<char>) -> bool {
    &&& concrete.len() >= suffix.len() + 2
    &&& ends_with(concrete, suffix)
    &&& concrete[concrete.len() - suffix.len() - 1] == '.'
    &&& !has_char(concrete.subrange(0, concrete.len() - suffix.len() - 1), '.')
}

/// An exact hostname or a leftmost, one-label wildcard claim.
///
/// Wildcards are stored by their exact suffix and render in the familiar
/// `*.example.localhost` form. A wildcard matches exactly one additional DNS
/// label; it never absorbs multiple labels.
#[derive(Debug, PartialEq, Eq, PartialOrd, Ord, Hash)]
pub enum DomainPattern {
    Exact(DomainName),
    Wildcard(DomainName),
}

impl Clone for DomainPattern {
    fn clone(&self) -> (r: Self)
        ensures
            r == *self,
    {
        match self {
            DomainPattern::Exact(name) => DomainPattern::Exact(name.clone()),
            DomainPattern::Wildcard(name) => DomainPattern::Wildcard(name.clone()),
        }
    }
}

impl DomainPattern {
    /// The underlying exact name or wildcard suffix.
    pub open spec fn spec_domain(&self) -> DomainName {
        match self {
            DomainPattern::Exact(d) => *d,
            DomainPattern::Wildcard(d) => *d,
        }
    }

    /// The rendered form: the name, or `*.` and the suffix.
    pub open spec fn spec_text(&self) -> Seq<char> {
        match self {
            DomainPattern::Exact(d) => d@,
            DomainPattern::Wildcard(d) => "*."@ + d@,
        }
    }

    /// Whether this pattern owns a concrete hostname.
    pub open spec fn spec_matches(&self, concrete: Seq<char>) -> bool {
        match self {
            DomainPattern::Exact(d) => d@ == concrete,
            DomainPattern::Wildcard(d) => wildcard_matches(d@, concrete),
        }
    }

    /// Build an exact claim.
    pub fn exact(domain: DomainName) -> (r: Self)
        ensures
            r == DomainPattern::Exact(domain),
    {
        DomainPattern::Exact(domain)
    }

    /// Build a one-label wildcard claim from its exact suffix.
    pub fn wildcard(suffix: DomainName) -> (r: Self)
        ensures
            r == DomainPattern::Wildcard(suffix),
    {
        DomainPattern::Wildcard(suffix)
    }

    /// Return the underlying exact name or wildcard suffix.
    pub fn domain(&self) -> (r: &DomainName)
        ensures
            *r == self.spec_domain(),
    {
        match self {
            DomainPattern::Exact(d) => d,
            DomainPattern::Wildcard(d) => d,
        }
    }

    /// Return whether this is an exact claim.
    pub fn is_exact(&self) -> (r: bool)
        ensures
            r == (self is Exact),
    {
        match self {
            DomainPattern::Exact(_) => true,
            DomainPattern::Wildcard(_) => false,
        }
    }

    /// Render the pattern, `*.suffix` for a wildcard.
    pub fn to_string(&self) -> (r: String)
        ensures
            r@ == self.spec_text(),
    {
        match self {
            DomainPattern::Exact(d) => d.to_string(),
            DomainPattern::Wildcard(d) => {
                let mut r = String::from_str("*.");
                r.append(d.as_str());
                r
            },
        }
    }

    /// Return whether this pattern owns a concrete hostname.
    pub fn matches(&self, concrete: &DomainName) -> (r: bool)
        ensures
            r == self.spec_matches(concrete@),
    {
        match self {
            DomainPattern::Exact(d) => {
                let a = d.chars();
                let b = concrete.chars();
                compare_chars(a.as_slice(), b.as_slice()) == 0
            },
            DomainPattern::Wildcard(d) => {
                let suffix = d.chars();
                let c = concrete.chars();
                wildcard_matches_exec(suffix.as_slice(), c.as_slice())
            },
        }
    }

    /// Parse an exact hostname or a leftmost `*.` wildcard.
    pub fn parse(value: &str) -> (r: Result<DomainPattern, DomainError>)
        ensures
            match r {
                Ok(p) => spec_parse_domain_pattern(value@) == Ok::<(bool, Seq<char>), (Seq<char>, Seq<char>)>(
                    (p is Exact, p.spec_domain()@),
                ),
                Err(error) => match error {
                    DomainError::InvalidName { value: v, reason } => spec_parse_domain_pattern(value@)
                        == Err::<(bool, Seq<char>), (Seq<char>, Seq<char>)>((v@, reason@)),
                    _ => false,
                },
            },
    {
        let v = str_chars(value);
        if v.len() >= 2 && v[0] == '*' && v[1] == '.' {
            proof {
                reveal_strlit("*.");
                assert(v@.subrange(0, 2) =~= "*."@);
            }
            let suffix_chars = slice_chars(v.as_slice(), 2, v.len());
            if contains_char(suffix_chars.as_slice(), '*') {
                return Err(DomainError::InvalidName {
                    value: String::from_str(value),
                    reason: String::from_str("only one leftmost `*.` wildcard label is supported"),
                });
            }
            let suffix = chars_to_string(suffix_chars.as_slice());
            return match DomainName::parse(suffix.as_str()) {
                Ok(name) => Ok(DomainPattern::Wildcard(name)),
                Err(e) => Err(e),
            };
        }
        proof {
            reveal_strlit("*.");
            if starts_with(v@, "*."@) {
                assert(v@[0] == "*."@[0]);
                assert(v@[1] == "*."@[1]);
            }
        }
        if contains_char(v.as_slice(), '*') {
            return Err(DomainError::InvalidName {
                value: String::from_str(value),
                reason: String::from_str("only a leftmost `*.` wildcard label is supported"),
            });
        }
        match DomainName::parse(value) {
            Ok(name) => Ok(DomainPattern::Exact(name)),
            Err(e) => Err(e),
        }
    }
}

impl core::str::FromStr for DomainName {
    type Err = DomainError;

    fn from_str(value: &str) -> Result<Self, Self::Err> {
        DomainName::parse(value)
    }
}

impl core::str::FromStr for DomainPattern {
    type Err = DomainError;

    fn from_str(value: &str) -> Result<Self, Self::Err> {
        DomainPattern::parse(value)
    }
}

fn wildcard_matches_exec(suffix: &[char], concrete: &[char]) -> (r: bool)
    ensures
        r == wildcard_matches(suffix@, concrete@),
{
    if concrete.len() < suffix.len() || concrete.len() - suffix.len() < 2 {
        return false;
    }
    let cut = concrete.len() - suffix.len();
    let tail = slice_chars(concrete, cut, concrete.len());
    if compare_chars(tail.as_slice(), suffix) != 0 {
        return false;
    }
    if concrete[cut - 1] != '.' {
        return false;
    }
    let head = slice_chars(concrete, 0, cut - 1);
    !contains_char(head.as_slice(), '.')
}

// ---------------------------------------------------------------------------
// Owners
// ---------------------------------------------------------------------------

/// A locald-owned platform surface used when no project service overrides it.
#[derive(Debug, Clone, Copy, PartialEq, Eq, Structural, PartialOrd, Ord, Hash)]
pub enum PlatformDomain {
    Dashboard,
    Docs,
    DashboardDev,
    DocsDev,
}

/// The name a platform surface prints under.
pub open spec fn surface_name(s: PlatformDomain) -> Seq<char> {
    match s {
        PlatformDomain::Dashboard => "Dashboard"@,
        PlatformDomain::Docs => "Docs"@,
        PlatformDomain::DashboardDev => "DashboardDev"@,
        PlatformDomain::DocsDev => "DocsDev"@,
    }
}

/// How a target is described to people.
pub open spec fn target_text(t: DomainTarget) -> Seq<char> {
    match t {
        DomainTarget::Platform { surface } => "locald platform "@ + surface_name(surface),
        DomainTarget::Service { project_instance_id, service_name, .. } => match service_name {
            Some(name) => "service `"@ + name@ + "` in instance "@ + crate::identity::uuid_text(project_instance_id.value),
            None => "legacy claim in instance "@ + crate::identity::uuid_text(project_instance_id.value),
        },
    }
}

/// The durable owner and routing target for one domain claim.
///
/// Legacy flat claims may not identify their service. All newly applied
/// configuration records the full runtime service name. `primary` marks the
/// exact claim used as the service's canonical semantic origin.
#[derive(Debug, PartialEq, Eq, PartialOrd, Ord)]
pub enum DomainTarget {
    Platform { surface: PlatformDomain },
    Service {
        project_instance_id: ProjectInstanceId,
        service_name: Option<String>,
        primary: bool,
    },
}

impl DomainTarget {
    /// The target as people read it: the platform surface, or the service
    /// (or legacy claim) and its instance.
    pub fn to_string(&self) -> (r: String)
        ensures
            r@ == target_text(*self),
    {
        let mut out = String::new();
        match self {
            DomainTarget::Platform { surface } => {
                crate::text::push_str(&mut out, "locald platform ");
                let name = match surface {
                    PlatformDomain::Dashboard => "Dashboard",
                    PlatformDomain::Docs => "Docs",
                    PlatformDomain::DashboardDev => "DashboardDev",
                    PlatformDomain::DocsDev => "DocsDev",
                };
                crate::text::push_str(&mut out, name);
                proof {
                    reveal_strlit("locald platform ");
                    reveal_strlit("Dashboard");
                    reveal_strlit("Docs");
                    reveal_strlit("DashboardDev");
                    reveal_strlit("DocsDev");
                }
            },
            DomainTarget::Service { project_instance_id, service_name, .. } => {
                let id = project_instance_id.to_string();
                match service_name {
                    Some(name) => {
                        crate::text::push_str(&mut out, "service `");
                        crate::text::push_str(&mut out, name.as_str());
                        crate::text::push_str(&mut out, "` in instance ");
                        crate::text::push_str(&mut out, id.as_str());
                    },
                    None => {
                        crate::text::push_str(&mut out, "legacy claim in instance ");
                        crate::text::push_str(&mut out, id.as_str());
                    },
                }
            },
        }
        proof {
            assert(out@ =~= target_text(*self));
        }
        out
    }
}

impl Clone for DomainTarget {
    fn clone(&self) -> (r: Self)
        ensures
            r == *self,
    {
        match self {
            DomainTarget::Platform { surface } => DomainTarget::Platform { surface: *surface },
            DomainTarget::Service { project_instance_id, service_name, primary } => {
                let name = match service_name {
                    Some(n) => Some(n.clone()),
                    None => None,
                };
                DomainTarget::Service {
                    project_instance_id: *project_instance_id,
                    service_name: name,
                    primary: *primary,
                }
            },
        }
    }
}

/// Whether a target is a service claim of the given instance.
pub open spec fn owned_by(target: DomainTarget, instance_id: ProjectInstanceId) -> bool {
    match target {
        DomainTarget::Service { project_instance_id, .. } => project_instance_id == instance_id,
        DomainTarget::Platform { .. } => false,
    }
}

fn is_owned_by(target: &DomainTarget, instance_id: ProjectInstanceId) -> (r: bool)
    ensures
        r == owned_by(*target, instance_id),
{
    match target {
        DomainTarget::Service { project_instance_id, .. } => *project_instance_id == instance_id,
        DomainTarget::Platform { .. } => false,
    }
}

// ---------------------------------------------------------------------------
// Sorted claim tables
// ---------------------------------------------------------------------------

/// A table's entries by key text.
pub open spec fn entries_view(v: Seq<(DomainName, DomainTarget)>) -> Seq<(Seq<char>, DomainTarget)> {
    v.map_values(|p: (DomainName, DomainTarget)| (p.0@, p.1))
}

/// Keys strictly increase, so each key occurs once.
pub open spec fn sorted_keys(s: Seq<(Seq<char>, DomainTarget)>) -> bool {
    forall|i: int, j: int| 0 <= i < j < s.len() ==> lex_lt(s[i].0, s[j].0)
}

/// Whether the names of a claim table strictly ascend.
fn names_ascending(v: &Vec<(DomainName, DomainTarget)>) -> (r: bool)
    ensures
        r == sorted_keys(entries_view(v@)),
{
    let ghost s = entries_view(v@);
    if v.len() == 0 {
        return true;
    }
    let mut i: usize = 1;
    while i < v.len()
        invariant
            1 <= i <= v@.len(),
            s == entries_view(v@),
            forall|a: int, b: int| 0 <= a < b < i ==> lex_lt(#[trigger] s[a].0, #[trigger] s[b].0),
        decreases v@.len() - i,
    {
        let x = v[i - 1].0.chars();
        let y = v[i].0.chars();
        if crate::text::compare_chars(x.as_slice(), y.as_slice()) >= 0 {
            proof {
                assert(s[i - 1].0 == x@ && s[i as int].0 == y@);
            }
            return false;
        }
        proof {
            assert(s[i - 1].0 == x@ && s[i as int].0 == y@);
            assert forall|a: int, b: int| 0 <= a < b < i + 1 implies lex_lt(#[trigger] s[a].0, #[trigger] s[b].0) by {
                if b == i && a < i - 1 {
                    crate::text::lemma_lex_transitive(s[a].0, s[i - 1].0, s[b].0);
                }
            }
        }
        i = i + 1;
    }
    true
}

/// The map a table denotes.
pub open spec fn entries_map(s: Seq<(Seq<char>, DomainTarget)>) -> Map<Seq<char>, DomainTarget>
    decreases s.len(),
{
    if s.len() == 0 {
        Map::empty()
    } else {
        entries_map(s.drop_last()).insert(s.last().0, s.last().1)
    }
}

pub proof fn lemma_entries_map_dom(s: Seq<(Seq<char>, DomainTarget)>, k: Seq<char>)
    ensures
        entries_map(s).contains_key(k) <==> exists|i: int| 0 <= i < s.len() && s[i].0 == k,
    decreases s.len(),
{
    if s.len() > 0 {
        lemma_entries_map_dom(s.drop_last(), k);
        if entries_map(s).contains_key(k) && k != s.last().0 {
            let i = choose|i: int| 0 <= i < s.drop_last().len() && s.drop_last()[i].0 == k;
            assert(s[i].0 == k);
        }
        if exists|i: int| 0 <= i < s.len() && s[i].0 == k {
            let i = choose|i: int| 0 <= i < s.len() && s[i].0 == k;
            if i < s.len() - 1 {
                assert(s.drop_last()[i].0 == k);
            }
        }
    }
}

pub proof fn lemma_entries_map_value(s: Seq<(Seq<char>, DomainTarget)>, i: int)
    requires
        sorted_keys(s),
        0 <= i < s.len(),
    ensures
        entries_map(s).contains_key(s[i].0),
        entries_map(s)[s[i].0] == s[i].1,
    decreases s.len(),
{
    if i < s.len() - 1 {
        let t = s.drop_last();
        assert(sorted_keys(t));
        lemma_entries_map_value(t, i);
        assert(lex_lt(s[i].0, s.last().0));
        lemma_lex_irreflexive(s[i].0);
        assert(s[i].0 != s.last().0);
        assert(t[i] == s[i]);
    }
}

/// Two duplicate-free tables with the same entries denote the same map.
pub proof fn lemma_entries_map_ext(s: Seq<(Seq<char>, DomainTarget)>, m: Map<Seq<char>, DomainTarget>)
    requires
        sorted_keys(s),
        forall|i: int| 0 <= i < s.len() ==> m.contains_key(#[trigger] s[i].0) && m[s[i].0] == s[i].1,
        forall|k: Seq<char>| m.contains_key(k) ==> exists|i: int| 0 <= i < s.len() && s[i].0 == k,
    ensures
        entries_map(s) == m,
{
    assert forall|k: Seq<char>| #[trigger] entries_map(s).contains_key(k) <==> m.contains_key(k) by {
        lemma_entries_map_dom(s, k);
    }
    assert forall|k: Seq<char>| #[trigger] entries_map(s).contains_key(k) implies entries_map(s)[k] == m[k] by {
        lemma_entries_map_dom(s, k);
        let i = choose|i: int| 0 <= i < s.len() && s[i].0 == k;
        lemma_entries_map_value(s, i);
    }
    assert(entries_map(s) =~= m);
}

/// Find the entry with key `key`.
fn table_find(v: &Vec<(DomainName, DomainTarget)>, key: &[char]) -> (r: Option<usize>)
    ensures
        match r {
            Some(i) => i < v@.len() && entries_view(v@)[i as int].0 == key@,
            None => forall|i: int| 0 <= i < v@.len() ==> entries_view(v@)[i].0 != key@,
        },
{
    let mut i: usize = 0;
    while i < v.len()
        invariant
            i <= v@.len(),
            forall|j: int| 0 <= j < i ==> entries_view(v@)[j].0 != key@,
        decreases v@.len() - i,
    {
        let k = v[i].0.chars();
        if compare_chars(k.as_slice(), key) == 0 {
            return Some(i);
        }
        i = i + 1;
    }
    None
}

/// Insert or replace the entry for `name`, keeping keys sorted.
fn table_upsert(v: &mut Vec<(DomainName, DomainTarget)>, name: DomainName, target: DomainTarget)
    requires
        sorted_keys(entries_view(old(v)@)),
    ensures
        sorted_keys(entries_view(final(v)@)),
        entries_map(entries_view(final(v)@)) == entries_map(entries_view(old(v)@)).insert(name@, target),
{
    let ghost old_s = entries_view(v@);
    assert(old_s == entries_view(old(v)@));
    let key = name.chars();
    let mut i: usize = 0;
    while i < v.len()
        invariant
            i <= v@.len(),
            entries_view(v@) == old_s,
            sorted_keys(old_s),
            forall|j: int| 0 <= j < i ==> lex_lt(old_s[j].0, key@),
            key@ == name@,
            old_s == entries_view(old(v)@),
        ensures
            i <= v@.len(),
            entries_view(v@) == old_s,
            forall|j: int| 0 <= j < i ==> lex_lt(old_s[j].0, key@),
            i < v@.len() ==> lex_lt(key@, old_s[i as int].0),
        decreases v@.len() - i,
    {
        let k = v[i].0.chars();
        let c = compare_chars(k.as_slice(), key.as_slice());
        if c == 0 {
            let ghost before = v@;
            v.set(i, (name, target));
            proof {
                let s = entries_view(v@);
                assert(v@.len() == before.len());
                assert(s.len() == old_s.len());
                assert forall|j: int| 0 <= j < s.len() implies #[trigger] s[j] == old_s.update(i as int, (key@, target))[j] by {
                    assert(s[j] == (v@[j].0@, v@[j].1));
                    if j != i {
                        assert(v@[j] == before[j]);
                        assert(old_s[j] == entries_view(before)[j]);
                        assert(entries_view(before)[j] == (before[j].0@, before[j].1));
                    } else {
                        assert(v@[j].0 == name);
                        assert(name@ == key@);
                    }
                }
                assert(s =~= old_s.update(i as int, (key@, target)));
                assert forall|a: int, b: int| 0 <= a < b < s.len() implies lex_lt(s[a].0, s[b].0) by {
                    assert(s[a].0 == old_s[a].0);
                    assert(s[b].0 == old_s[b].0);
                }
                let m = entries_map(old_s).insert(key@, target);
                assert(old_s[i as int].0 == key@);
                assert forall|j: int| 0 <= j < s.len() implies m.contains_key(#[trigger] s[j].0) && m[s[j].0] == s[j].1 by {
                    if j != i {
                        lemma_entries_map_value(old_s, j);
                        assert(s[j] == old_s[j]);
                        assert(lex_lt(old_s[j].0, old_s[i as int].0) || lex_lt(old_s[i as int].0, old_s[j].0));
                        lemma_lex_irreflexive(old_s[j].0);
                    }
                }
                assert forall|k2: Seq<char>| m.contains_key(k2) implies exists|j: int| 0 <= j < s.len() && s[j].0 == k2 by {
                    if k2 != key@ {
                        lemma_entries_map_dom(old_s, k2);
                        let j = choose|j: int| 0 <= j < old_s.len() && old_s[j].0 == k2;
                        assert(s[j].0 == k2);
                    } else {
                        assert(s[i as int].0 == k2);
                    }
                }
                lemma_entries_map_ext(s, m);
                assert(entries_map(s) == m);
            }
            return;
        }
        if c > 0 {
            break;
        }
        i = i + 1;
    }
    // Every key before `i` is smaller; every key from `i` is larger.
    proof {
        assert forall|j: int| i <= j < old_s.len() implies lex_lt(key@, #[trigger] old_s[j].0) by {
            if i < old_s.len() {
                assert(lex_lt(key@, old_s[i as int].0));
                if j > i {
                    assert(lex_lt(old_s[i as int].0, old_s[j].0));
                    lemma_lex_transitive(key@, old_s[i as int].0, old_s[j].0);
                }
            }
        }
    }
    v.insert(i, (name, target));
    proof {
        let s = entries_view(v@);
        assert(s =~= old_s.insert(i as int, (key@, target)));
        assert forall|a: int, b: int| 0 <= a < b < s.len() implies lex_lt(s[a].0, s[b].0) by {
            if b < i {
                assert(s[a] == old_s[a] && s[b] == old_s[b]);
            } else if b == i {
                assert(s[a] == old_s[a]);
            } else if a == i {
                assert(s[b] == old_s[b - 1]);
            } else if a < i {
                assert(s[a] == old_s[a] && s[b] == old_s[b - 1]);
                assert(lex_lt(old_s[a].0, key@));
                assert(lex_lt(key@, old_s[b - 1].0));
                lemma_lex_transitive(old_s[a].0, key@, old_s[b - 1].0);
            } else {
                assert(s[a] == old_s[a - 1] && s[b] == old_s[b - 1]);
            }
        }
        let m = entries_map(old_s).insert(key@, target);
        assert forall|j: int| 0 <= j < s.len() implies m.contains_key(#[trigger] s[j].0) && m[s[j].0] == s[j].1 by {
            if j < i {
                lemma_entries_map_value(old_s, j);
                lemma_lex_irreflexive(key@);
                assert(s[j] == old_s[j]);
            } else if j > i {
                lemma_entries_map_value(old_s, j - 1);
                lemma_lex_irreflexive(key@);
                assert(s[j] == old_s[j - 1]);
            }
        }
        assert forall|k2: Seq<char>| m.contains_key(k2) implies exists|j: int| 0 <= j < s.len() && s[j].0 == k2 by {
            if k2 != key@ {
                lemma_entries_map_dom(old_s, k2);
                let j = choose|j: int| 0 <= j < old_s.len() && old_s[j].0 == k2;
                if j < i {
                    assert(s[j].0 == k2);
                } else {
                    assert(s[j + 1].0 == k2);
                }
            } else {
                assert(s[i as int].0 == k2);
            }
        }
        lemma_entries_map_ext(s, m);
    }
}

/// The map without the service claims of one instance.
pub open spec fn without_instance(m: Map<Seq<char>, DomainTarget>, instance_id: ProjectInstanceId) -> Map<Seq<char>, DomainTarget> {
    Map::new(|k: Seq<char>| m.contains_key(k) && !owned_by(m[k], instance_id), |k: Seq<char>| m[k])
}

/// The table without the service claims of one instance, keys still sorted.
fn table_without_instance(v: &Vec<(DomainName, DomainTarget)>, instance_id: ProjectInstanceId) -> (r: Vec<(DomainName, DomainTarget)>)
    requires
        sorted_keys(entries_view(v@)),
    ensures
        sorted_keys(entries_view(r@)),
        entries_map(entries_view(r@)) == without_instance(entries_map(entries_view(v@)), instance_id),
{
    let ghost old_s = entries_view(v@);
    let mut out: Vec<(DomainName, DomainTarget)> = Vec::new();
    // `origin[a]` is the index in `v` of the entry copied to `out[a]`.
    let ghost mut origin: Seq<int> = Seq::empty();
    let mut i: usize = 0;
    while i < v.len()
        invariant
            old_s == entries_view(v@),
            sorted_keys(old_s),
            i <= v@.len(),
            origin.len() == out@.len(),
            forall|a: int| 0 <= a < origin.len() ==> 0 <= #[trigger] origin[a] < i && entries_view(out@)[a] == old_s[origin[a]],
            forall|a: int, b: int| 0 <= a < b < origin.len() ==> origin[a] < origin[b],
            forall|a: int| 0 <= a < out@.len() ==> !owned_by(#[trigger] entries_view(out@)[a].1, instance_id),
            forall|j: int| 0 <= j < i && !owned_by(#[trigger] old_s[j].1, instance_id) ==> exists|a: int| 0 <= a < origin.len() && origin[a] == j,
        decreases v@.len() - i,
    {
        if !is_owned_by(&v[i].1, instance_id) {
            let ghost before = entries_view(out@);
            let ghost origin_before = origin;
            let entry = (v[i].0.clone(), v[i].1.clone());
            out.push(entry);
            proof {
                origin = origin.push(i as int);
                let now = entries_view(out@);
                assert(now =~= before.push(old_s[i as int]));
                assert forall|a: int| 0 <= a < origin.len() implies 0 <= #[trigger] origin[a] < i + 1 && now[a] == old_s[origin[a]] by {
                    if a < origin_before.len() {
                        assert(origin[a] == origin_before[a]);
                        assert(now[a] == before[a]);
                    }
                }
                assert forall|a: int| 0 <= a < now.len() implies !owned_by(#[trigger] now[a].1, instance_id) by {
                    if a < before.len() {
                        assert(now[a] == before[a]);
                    }
                }
                assert forall|j: int| 0 <= j < i + 1 && !owned_by(#[trigger] old_s[j].1, instance_id) implies exists|a: int| 0 <= a < origin.len() && origin[a] == j by {
                    if j < i {
                        let a = choose|a: int| 0 <= a < origin_before.len() && origin_before[a] == j;
                        assert(origin[a] == j);
                    } else {
                        assert(origin[origin.len() - 1] == j);
                    }
                }
            }
        }
        i = i + 1;
    }
    proof {
        let s2 = entries_view(out@);
        assert forall|a: int, b: int| 0 <= a < b < s2.len() implies lex_lt(s2[a].0, s2[b].0) by {
            assert(origin[a] < origin[b]);
        }
        let m = without_instance(entries_map(old_s), instance_id);
        assert forall|a: int| 0 <= a < s2.len() implies m.contains_key(#[trigger] s2[a].0) && m[s2[a].0] == s2[a].1 by {
            lemma_entries_map_value(old_s, origin[a]);
        }
        assert forall|k2: Seq<char>| m.contains_key(k2) implies exists|a: int| 0 <= a < s2.len() && s2[a].0 == k2 by {
            lemma_entries_map_dom(old_s, k2);
            let j = choose|j: int| 0 <= j < old_s.len() && old_s[j].0 == k2;
            lemma_entries_map_value(old_s, j);
            let a = choose|a: int| 0 <= a < origin.len() && origin[a] == j;
            assert(s2[a].0 == k2);
        }
        lemma_entries_map_ext(s2, m);
    }
    out
}

// ---------------------------------------------------------------------------
// Claims and the ownership index
// ---------------------------------------------------------------------------

/// The platform surface that owns a fallback hostname, if it is one of the
/// nine locald-owned names.
pub open spec fn platform_surface(d: Seq<char>) -> Option<PlatformDomain> {
    if d == "localhost"@ || d == "locald.localhost"@ || d == "locald.local"@ {
        Some(PlatformDomain::Dashboard)
    } else if d == "docs.localhost"@ || d == "docs.local"@ {
        Some(PlatformDomain::Docs)
    } else if d == "dev.locald.localhost"@ || d == "dev.locald.local"@ {
        Some(PlatformDomain::DashboardDev)
    } else if d == "dev.docs.localhost"@ || d == "dev.docs.local"@ {
        Some(PlatformDomain::DocsDev)
    } else {
        None
    }
}

/// The platform fallback claims of an empty index.
pub open spec fn platform_map() -> Map<Seq<char>, DomainTarget> {
    Map::new(
        |k: Seq<char>| platform_surface(k) is Some,
        |k: Seq<char>| DomainTarget::Platform { surface: platform_surface(k)->0 },
    )
}

fn equals_literal(d: &[char], literal: &str) -> (r: bool)
    ensures
        r == (d@ == literal@),
{
    let l = str_chars(literal);
    compare_chars(d, l.as_slice()) == 0
}

/// The platform surface owning `d`, if any.
fn platform_surface_exec(d: &[char]) -> (r: Option<PlatformDomain>)
    ensures
        r == platform_surface(d@),
{
    if equals_literal(d, "localhost") || equals_literal(d, "locald.localhost") || equals_literal(d, "locald.local") {
        Some(PlatformDomain::Dashboard)
    } else if equals_literal(d, "docs.localhost") || equals_literal(d, "docs.local") {
        Some(PlatformDomain::Docs)
    } else if equals_literal(d, "dev.locald.localhost") || equals_literal(d, "dev.locald.local") {
        Some(PlatformDomain::DashboardDev)
    } else if equals_literal(d, "dev.docs.localhost") || equals_literal(d, "dev.docs.local") {
        Some(PlatformDomain::DocsDev)
    } else {
        None
    }
}

/// One desired exact or one-label wildcard hostname claim.
#[derive(Debug, PartialEq, Eq)]
pub struct DomainClaim {
    pub domain: DomainPattern,
    pub target: DomainTarget,
}

impl Clone for DomainClaim {
    fn clone(&self) -> (r: Self)
        ensures
            r == *self,
    {
        DomainClaim { domain: self.domain.clone(), target: self.target.clone() }
    }
}

impl DomainClaim {
    /// Build a service claim with its stable instance and current runtime name.
    pub fn service(domain: DomainName, project_instance_id: ProjectInstanceId, service_name: String) -> (r: Self)
        ensures
            r == (DomainClaim {
                domain: DomainPattern::Exact(domain),
                target: DomainTarget::Service { project_instance_id, service_name: Some(service_name), primary: true },
            }),
    {
        Self::service_pattern(DomainPattern::Exact(domain), project_instance_id, service_name, true)
    }

    /// Build a service claim with explicit pattern and canonical-origin status.
    pub fn service_pattern(
        domain: DomainPattern,
        project_instance_id: ProjectInstanceId,
        service_name: String,
        primary: bool,
    ) -> (r: Self)
        ensures
            r == (DomainClaim {
                domain,
                target: DomainTarget::Service { project_instance_id, service_name: Some(service_name), primary },
            }),
    {
        DomainClaim {
            domain,
            target: DomainTarget::Service { project_instance_id, service_name: Some(service_name), primary },
        }
    }

    /// Build an ownership-only claim imported from the original flat catalog field.
    pub fn legacy(domain: DomainName, project_instance_id: ProjectInstanceId) -> (r: Self)
        ensures
            r == (DomainClaim {
                domain: DomainPattern::Exact(domain),
                target: DomainTarget::Service { project_instance_id, service_name: None, primary: true },
            }),
    {
        DomainClaim {
            domain: DomainPattern::Exact(domain),
            target: DomainTarget::Service { project_instance_id, service_name: None, primary: true },
        }
    }
}

/// The keys of the entries satisfying `p`, in table order.
pub open spec fn keys_where(
    s: Seq<(Seq<char>, DomainTarget)>,
    p: spec_fn(Seq<char>, DomainTarget) -> bool,
) -> Seq<Seq<char>>
    decreases s.len(),
{
    if s.len() == 0 {
        Seq::empty()
    } else {
        let rest = keys_where(s.drop_last(), p);
        if p(s.last().0, s.last().1) {
            rest.push(s.last().0)
        } else {
            rest
        }
    }
}

/// The text of each string.
pub open spec fn string_views(v: Seq<String>) -> Seq<Seq<char>> {
    Seq::new(v.len(), |i: int| v[i]@)
}

/// The hostname of each name.
pub open spec fn name_views(v: Seq<DomainName>) -> Seq<Seq<char>> {
    Seq::new(v.len(), |i: int| v[i]@)
}

pub proof fn lemma_string_views_push(v: Seq<String>, x: String)
    ensures
        string_views(v.push(x)) == string_views(v).push(x@),
{
    assert(string_views(v.push(x)) =~= string_views(v).push(x@));
}

pub proof fn lemma_name_views_push(v: Seq<DomainName>, x: DomainName)
    ensures
        name_views(v.push(x)) == name_views(v).push(x@),
{
    assert(name_views(v.push(x)) =~= name_views(v).push(x@));
}

pub proof fn lemma_wildcard_texts_push(v: Seq<Seq<char>>, x: Seq<char>)
    ensures
        wildcard_texts(v.push(x)) == wildcard_texts(v).push("*."@ + x),
{
    assert(wildcard_texts(v.push(x)) =~= wildcard_texts(v).push("*."@ + x));
}

/// Selects service claims.
pub open spec fn service_pred() -> spec_fn(Seq<char>, DomainTarget) -> bool {
    |k: Seq<char>, t: DomainTarget| is_service_target(t)
}

/// Selects entries needing a hosts-file mapping.
pub open spec fn hosts_pred() -> spec_fn(Seq<char>, DomainTarget) -> bool {
    |k: Seq<char>, t: DomainTarget| needs_hosts_entry(k, t)
}

/// Selects entries macOS must map explicitly.
pub open spec fn macos_hosts_pred() -> spec_fn(Seq<char>, DomainTarget) -> bool {
    |k: Seq<char>, t: DomainTarget| needs_macos_hosts_entry(k, t)
}

/// Selects the service claims of one instance.
pub open spec fn owned_pred(instance_id: ProjectInstanceId) -> spec_fn(Seq<char>, DomainTarget) -> bool {
    |k: Seq<char>, t: DomainTarget| owned_by(t, instance_id)
}

/// Each key rendered as a wildcard, `*.` and the suffix.
pub open spec fn wildcard_texts(v: Seq<Seq<char>>) -> Seq<Seq<char>> {
    Seq::new(v.len(), |i: int| "*."@ + v[i])
}

/// Whether a target is any project-service claim.
pub open spec fn is_service_target(t: DomainTarget) -> bool {
    t is Service
}

/// Entries that need an explicit hosts-file mapping: service claims, and
/// platform aliases whose last label is `local`.
pub open spec fn needs_hosts_entry(k: Seq<char>, t: DomainTarget) -> bool {
    t is Service || (t is Platform && ends_with(k, ".local"@))
}

/// Entries that macOS must map explicitly: service claims outside
/// `localhost` and `*.localhost`.
pub open spec fn needs_macos_hosts_entry(k: Seq<char>, t: DomainTarget) -> bool {
    t is Service && k != "localhost"@ && !ends_with(k, ".localhost"@)
}

/// The unique wildcard suffix that could own `d`: everything after its
/// first label.
pub proof fn lemma_wildcard_match_unique(k1: Seq<char>, k2: Seq<char>, d: Seq<char>)
    requires
        wildcard_matches(k1, d),
        wildcard_matches(k2, d),
    ensures
        k1 == k2,
{
    let p1 = d.len() - k1.len() - 1;
    let p2 = d.len() - k2.len() - 1;
    if k1.len() < k2.len() {
        assert(d.subrange(0, p1)[p2] == d[p2]);
        assert(false);
    } else if k2.len() < k1.len() {
        assert(d.subrange(0, p2)[p1] == d[p1]);
        assert(false);
    } else {
        assert(k1 =~= k2) by {
            assert forall|i: int| 0 <= i < k1.len() implies k1[i] == k2[i] by {
                assert(d.subrange(d.len() - k1.len(), d.len() as int)[i] == d[d.len() - k1.len() + i]);
                assert(d.subrange(d.len() - k2.len(), d.len() as int)[i] == d[d.len() - k2.len() + i]);
            }
        }
    }
}

/// A complete immutable snapshot of all domains owned by locald.
///
/// Exact claims and wildcard suffixes are each kept in one table sorted by
/// hostname, so iteration follows hostname order.
#[derive(Debug, PartialEq, Eq)]
pub struct DomainIndex {
    claims: Vec<(DomainName, DomainTarget)>,
    wildcard_claims: Vec<(DomainName, DomainTarget)>,
}

impl DomainIndex {
    #[verifier::type_invariant]
    spec fn tables_sorted(self) -> bool {
        sorted_keys(entries_view(self.claims@)) && sorted_keys(entries_view(self.wildcard_claims@))
    }

    /// Exact claims in hostname order.
    pub closed spec fn exact_entries(&self) -> Seq<(Seq<char>, DomainTarget)> {
        entries_view(self.claims@)
    }

    /// Wildcard suffix claims in hostname order.
    pub closed spec fn wildcard_entries(&self) -> Seq<(Seq<char>, DomainTarget)> {
        entries_view(self.wildcard_claims@)
    }

    /// Exact ownership by hostname.
    pub open spec fn exact_map(&self) -> Map<Seq<char>, DomainTarget> {
        entries_map(self.exact_entries())
    }

    /// Wildcard ownership by suffix.
    pub open spec fn wildcard_map(&self) -> Map<Seq<char>, DomainTarget> {
        entries_map(self.wildcard_entries())
    }

    /// The owner of a concrete canonical hostname: an exact claim wins over
    /// the wildcard whose suffix follows the hostname's first label.
    pub open spec fn spec_owner(&self, d: Seq<char>) -> Option<DomainTarget> {
        if self.exact_map().contains_key(d) {
            Some(self.exact_map()[d])
        } else if exists|k: Seq<char>| self.wildcard_map().contains_key(k) && wildcard_matches(k, d) {
            Some(self.wildcard_map()[choose|k: Seq<char>| self.wildcard_map().contains_key(k) && wildcard_matches(k, d)])
        } else {
            None
        }
    }

    /// The certificate identity authorizing a concrete canonical hostname.
    pub open spec fn spec_certificate_name(&self, d: Seq<char>) -> Option<Seq<char>> {
        if self.exact_map().contains_key(d) {
            Some(d)
        } else if exists|k: Seq<char>| self.wildcard_map().contains_key(k) && wildcard_matches(k, d) {
            Some("*."@ + choose|k: Seq<char>| self.wildcard_map().contains_key(k) && wildcard_matches(k, d))
        } else {
            None
        }
    }

    /// The index holding exactly the nine platform fallback names.
    /// An index from stored claim tables, each in strictly ascending name
    /// order as a stored index holds them; none when a table is out of order.
    pub fn from_entries(claims: Vec<(DomainName, DomainTarget)>, wildcard_claims: Vec<(DomainName, DomainTarget)>) -> (r:
        Option<DomainIndex>)
        ensures
            r is Some <==> sorted_keys(entries_view(claims@)) && sorted_keys(entries_view(wildcard_claims@)),
            r matches Some(x) ==> x.exact_entries() == entries_view(claims@) && x.wildcard_entries() == entries_view(
                wildcard_claims@,
            ),
    {
        if names_ascending(&claims) && names_ascending(&wildcard_claims) {
            Some(DomainIndex { claims, wildcard_claims })
        } else {
            None
        }
    }

    pub fn new() -> (r: Self)
        ensures
            r.exact_map() == platform_map(),
            r.wildcard_map() == Map::<Seq<char>, DomainTarget>::empty(),
            forall|i: int| 0 <= i < r.exact_entries().len() ==> (#[trigger] r.exact_entries()[i]).1 is Platform,
    {
        let mut claims: Vec<(DomainName, DomainTarget)> = Vec::new();
        let ghost m0 = entries_map(entries_view(claims@));
        assert(m0 =~= Map::<Seq<char>, DomainTarget>::empty());
        let names: [&str; 9] = [
            "localhost",
            "locald.localhost",
            "locald.local",
            "docs.localhost",
            "docs.local",
            "dev.locald.localhost",
            "dev.locald.local",
            "dev.docs.localhost",
            "dev.docs.local",
        ];
        let mut i: usize = 0;
        while i < 9
            invariant
                i <= 9,
                sorted_keys(entries_view(claims@)),
                forall|k: Seq<char>| #[trigger] entries_map(entries_view(claims@)).contains_key(k) ==> platform_surface(k) is Some
                    && entries_map(entries_view(claims@))[k] == (DomainTarget::Platform { surface: platform_surface(k)->0 }),
                forall|j: int| 0 <= j < i ==> #[trigger] entries_map(entries_view(claims@)).contains_key(names@[j]@),
                names@ == seq!["localhost", "locald.localhost", "locald.local", "docs.localhost", "docs.local",
                    "dev.locald.localhost", "dev.locald.local", "dev.docs.localhost", "dev.docs.local"],
            decreases 9 - i,
        {
            let name = domain_name_from_literal(names[i]);
            let chars = name.chars();
            let surface = platform_surface_exec(chars.as_slice());
            match surface {
                Some(surface) => {
                    table_upsert(&mut claims, name, DomainTarget::Platform { surface });
                },
                None => {
                    proof {
                        assert(false);
                    }
                },
            }
            i = i + 1;
        }
        proof {
            let m = entries_map(entries_view(claims@));
            assert forall|k: Seq<char>| platform_surface(k) is Some implies #[trigger] m.contains_key(k) by {
                assert(m.contains_key(names@[0]@));
                assert(m.contains_key(names@[1]@));
                assert(m.contains_key(names@[2]@));
                assert(m.contains_key(names@[3]@));
                assert(m.contains_key(names@[4]@));
                assert(m.contains_key(names@[5]@));
                assert(m.contains_key(names@[6]@));
                assert(m.contains_key(names@[7]@));
                assert(m.contains_key(names@[8]@));
            }
            assert(m =~= platform_map());
            let es = entries_view(claims@);
            assert forall|i: int| 0 <= i < es.len() implies (#[trigger] es[i]).1 is Platform by {
                lemma_entries_map_value(es, i);
            }
        }
        let wildcard_claims: Vec<(DomainName, DomainTarget)> = Vec::new();
        proof {
            assert(entries_view(wildcard_claims@) =~= Seq::<(Seq<char>, DomainTarget)>::empty());
            assert(entries_map(entries_view(wildcard_claims@)) =~= Map::<Seq<char>, DomainTarget>::empty());
        }
        DomainIndex { claims, wildcard_claims }
    }

    /// Return the owner for a normalized or normalizable concrete hostname.
    ///
    /// Exact ownership wins over a wildcard. Wildcards match exactly one
    /// leading label.
    pub fn resolve(&self, domain: &str) -> (r: Option<&DomainTarget>)
        ensures
            match spec_parse_domain_name(domain@) {
                Ok(d) => match r {
                    Some(t) => self.spec_owner(d) == Some(*t),
                    None => self.spec_owner(d) is None,
                },
                Err(_) => r is None,
            },
    {
        let parsed = DomainName::parse(domain);
        let name = match parsed {
            Ok(n) => n,
            Err(_) => return None,
        };
        let d = name.chars();
        match self.find_owner_index(d.as_slice()) {
            OwnerIndex::Exact(i) => Some(&self.claims[i].1),
            OwnerIndex::Wildcard(i) => Some(&self.wildcard_claims[i].1),
            OwnerIndex::Unowned => None,
        }
    }

    /// Return the finite certificate identity that authorizes one concrete SNI.
    ///
    /// Exact claims use their concrete hostname. A concrete hostname owned by
    /// a wildcard uses the reusable wildcard identity, preventing arbitrary
    /// matching labels from growing the certificate cache.
    pub fn certificate_name_for(&self, domain: &str) -> (r: Option<String>)
        ensures
            match spec_parse_domain_name(domain@) {
                Ok(d) => match r {
                    Some(name) => self.spec_certificate_name(d) == Some(name@),
                    None => self.spec_certificate_name(d) is None,
                },
                Err(_) => r is None,
            },
    {
        let parsed = DomainName::parse(domain);
        let name = match parsed {
            Ok(n) => n,
            Err(_) => return None,
        };
        let d = name.chars();
        match self.find_owner_index(d.as_slice()) {
            OwnerIndex::Exact(_) => Some(name.to_string()),
            OwnerIndex::Wildcard(i) => {
                let mut r = String::from_str("*.");
                r.append(self.wildcard_claims[i].0.as_str());
                Some(r)
            },
            OwnerIndex::Unowned => None,
        }
    }

    fn find_owner_index(&self, d: &[char]) -> (r: OwnerIndex)
        ensures
            match r {
                OwnerIndex::Exact(i) => i < self.claims@.len() && self.exact_map().contains_key(d@)
                    && self.exact_entries()[i as int] == (d@, self.exact_map()[d@]),
                OwnerIndex::Wildcard(i) => i < self.wildcard_claims@.len() && !self.exact_map().contains_key(d@)
                    && (exists|k: Seq<char>| self.wildcard_map().contains_key(k) && wildcard_matches(k, d@))
                    && self.wildcard_entries()[i as int].0 == (choose|k: Seq<char>| self.wildcard_map().contains_key(k) && wildcard_matches(k, d@))
                    && self.wildcard_entries()[i as int].1 == self.wildcard_map()[self.wildcard_entries()[i as int].0],
                OwnerIndex::Unowned => !self.exact_map().contains_key(d@)
                    && !(exists|k: Seq<char>| self.wildcard_map().contains_key(k) && wildcard_matches(k, d@)),
            },
    {
        proof {
            use_type_invariant(self);
        }
        match table_find(&self.claims, d) {
            Some(i) => {
                proof {
                    lemma_entries_map_value(self.exact_entries(), i as int);
                }
                return OwnerIndex::Exact(i);
            },
            None => {
                proof {
                    lemma_entries_map_dom(self.exact_entries(), d@);
                }
            },
        }
        let mut i: usize = 0;
        while i < self.wildcard_claims.len()
            invariant
                i <= self.wildcard_claims@.len(),
                sorted_keys(self.wildcard_entries()),
                !self.exact_map().contains_key(d@),
                forall|j: int| 0 <= j < i ==> !wildcard_matches(#[trigger] self.wildcard_entries()[j].0, d@),
            decreases self.wildcard_claims@.len() - i,
        {
            let suffix = self.wildcard_claims[i].0.chars();
            if wildcard_matches_exec(suffix.as_slice(), d) {
                proof {
                    let s = self.wildcard_entries();
                    let k = s[i as int].0;
                    lemma_entries_map_value(s, i as int);
                    assert(self.wildcard_map().contains_key(k) && wildcard_matches(k, d@));
                    let c = choose|k: Seq<char>| self.wildcard_map().contains_key(k) && wildcard_matches(k, d@);
                    lemma_wildcard_match_unique(c, k, d@);
                }
                return OwnerIndex::Wildcard(i);
            }
            i = i + 1;
        }
        proof {
            assert forall|k: Seq<char>| self.wildcard_map().contains_key(k) implies !wildcard_matches(k, d@) by {
                lemma_entries_map_dom(self.wildcard_entries(), k);
            }
        }
        OwnerIndex::Unowned
    }

    /// Return the complete exact-claim table in hostname order.
    pub fn claims(&self) -> (r: &[(DomainName, DomainTarget)])
        ensures
            entries_view(r@) == self.exact_entries(),
    {
        self.claims.as_slice()
    }

    /// Return the complete wildcard-suffix table in hostname order.
    pub fn wildcard_claims(&self) -> (r: &[(DomainName, DomainTarget)])
        ensures
            entries_view(r@) == self.wildcard_entries(),
    {
        self.wildcard_claims.as_slice()
    }

    /// Return an instance service's canonical exact domain: the first exact
    /// claim, in hostname order, that is that service's primary claim.
    pub fn domain_for_service(&self, instance_id: ProjectInstanceId, service_name: &str) -> (r: Option<&DomainName>)
        ensures
            match r {
                Some(d) => exists|i: int| 0 <= i < self.exact_entries().len()
                    && self.exact_entries()[i].0 == d@
                    && is_primary_of(self.exact_entries()[i].1, instance_id, service_name@)
                    && forall|j: int| 0 <= j < i ==> !is_primary_of(#[trigger] self.exact_entries()[j].1, instance_id, service_name@),
                None => forall|j: int| 0 <= j < self.exact_entries().len() ==> !is_primary_of(#[trigger] self.exact_entries()[j].1, instance_id, service_name@),
            },
    {
        let wanted = str_chars(service_name);
        let mut i: usize = 0;
        while i < self.claims.len()
            invariant
                i <= self.claims@.len(),
                wanted@ == service_name@,
                forall|j: int| 0 <= j < i ==> !is_primary_of(#[trigger] self.exact_entries()[j].1, instance_id, service_name@),
            decreases self.claims@.len() - i,
        {
            if target_is_primary_of(&self.claims[i].1, instance_id, wanted.as_slice()) {
                assert(self.exact_entries()[i as int] == (self.claims@[i as int].0@, self.claims@[i as int].1));
                return Some(&self.claims[i].0);
            }
            i = i + 1;
        }
        None
    }

    /// Return all project-service domains, in hostname order.
    pub fn service_domains(&self) -> (r: Vec<String>)
        ensures
            string_views(r@) == keys_where(self.exact_entries(), service_pred()),
    {
        let ghost p = service_pred();
        let mut out: Vec<String> = Vec::new();
        let mut i: usize = 0;
        while i < self.claims.len()
            invariant
                p == service_pred(),
                i <= self.claims@.len(),
                string_views(out@) == keys_where(self.exact_entries().take(i as int), p),
            decreases self.claims@.len() - i,
        {
            let is_service = match &self.claims[i].1 {
                DomainTarget::Service { .. } => true,
                DomainTarget::Platform { .. } => false,
            };
            proof {
                lemma_keys_where_step(self.exact_entries(), p, i as int);
                assert(self.exact_entries()[i as int] == (self.claims@[i as int].0@, self.claims@[i as int].1));
            }
            let ghost before = out@;
            if is_service {
                let text = self.claims[i].0.to_string();
                out.push(text);
                proof {
                    lemma_string_views_push(before, text);
                }
            }
            i = i + 1;
        }
        proof {
            assert(self.exact_entries().take(i as int) =~= self.exact_entries());
        }
        out
    }

    /// Return the exact hostnames that require explicit hosts-file mappings.
    ///
    /// Project-service domains remain in the compatibility projection. Platform
    /// `.local` aliases also require an entry because, unlike `.localhost`, they
    /// do not resolve to loopback by definition.
    pub fn hosts_domains(&self) -> (r: Vec<String>)
        ensures
            string_views(r@) == keys_where(self.exact_entries(), hosts_pred()),
            hostnames_ascending(string_views(r@)),
    {
        let names = self.hosts_domain_names();
        let mut out: Vec<String> = Vec::new();
        let mut i: usize = 0;
        while i < names.len()
            invariant
                i <= names@.len(),
                string_views(out@) == name_views(names@.take(i as int)),
            decreases names@.len() - i,
        {
            let ghost before = out@;
            let text = names[i].to_string();
            out.push(text);
            proof {
                lemma_string_views_push(before, text);
                assert(names@.take(i + 1) =~= names@.take(i as int).push(names@[i as int]));
                lemma_name_views_push(names@.take(i as int), names@[i as int]);
            }
            i = i + 1;
        }
        proof {
            assert(names@.take(i as int) =~= names@);
        }
        out
    }

    /// Return validated exact names that require explicit hosts-file mappings.
    pub fn hosts_domain_names(&self) -> (r: Vec<DomainName>)
        ensures
            name_views(r@) == keys_where(self.exact_entries(), hosts_pred()),
            hostnames_ascending(name_views(r@)),
    {
        proof {
            use_type_invariant(self);
            lemma_keys_where_ascending(self.exact_entries(), hosts_pred());
        }
        let ghost p = hosts_pred();
        let mut out: Vec<DomainName> = Vec::new();
        let mut i: usize = 0;
        while i < self.claims.len()
            invariant
                p == hosts_pred(),
                i <= self.claims@.len(),
                name_views(out@) == keys_where(self.exact_entries().take(i as int), p),
            decreases self.claims@.len() - i,
        {
            let key = self.claims[i].0.chars();
            let keep = match &self.claims[i].1 {
                DomainTarget::Service { .. } => true,
                DomainTarget::Platform { .. } => chars_end_with(key.as_slice(), ".local"),
            };
            proof {
                lemma_keys_where_step(self.exact_entries(), p, i as int);
                assert(self.exact_entries()[i as int] == (self.claims@[i as int].0@, self.claims@[i as int].1));
            }
            let ghost before = out@;
            if keep {
                let name = self.claims[i].0.clone();
                out.push(name);
                proof {
                    lemma_name_views_push(before, name);
                }
            }
            i = i + 1;
        }
        proof {
            assert(self.exact_entries().take(i as int) =~= self.exact_entries());
        }
        out
    }

    /// Return exact service-owned names that macOS must map explicitly.
    ///
    /// `.localhost` is resolved natively. Historical `.local` platform
    /// fallbacks are intentionally omitted, while an identically named
    /// project-service claim remains an active custom domain.
    pub fn macos_hosts_domain_names(&self) -> (r: Vec<DomainName>)
        ensures
            name_views(r@) == keys_where(self.exact_entries(), macos_hosts_pred()),
            hostnames_ascending(name_views(r@)),
    {
        proof {
            use_type_invariant(self);
            lemma_keys_where_ascending(self.exact_entries(), macos_hosts_pred());
        }
        let ghost p = macos_hosts_pred();
        let mut out: Vec<DomainName> = Vec::new();
        let mut i: usize = 0;
        while i < self.claims.len()
            invariant
                p == macos_hosts_pred(),
                i <= self.claims@.len(),
                name_views(out@) == keys_where(self.exact_entries().take(i as int), p),
            decreases self.claims@.len() - i,
        {
            let key = self.claims[i].0.chars();
            let keep = match &self.claims[i].1 {
                DomainTarget::Service { .. } => !equals_literal(key.as_slice(), "localhost")
                    && !chars_end_with(key.as_slice(), ".localhost"),
                DomainTarget::Platform { .. } => false,
            };
            proof {
                lemma_keys_where_step(self.exact_entries(), p, i as int);
                assert(self.exact_entries()[i as int] == (self.claims@[i as int].0@, self.claims@[i as int].1));
            }
            let ghost before = out@;
            if keep {
                let name = self.claims[i].0.clone();
                out.push(name);
                proof {
                    lemma_name_views_push(before, name);
                }
            }
            i = i + 1;
        }
        proof {
            assert(self.exact_entries().take(i as int) =~= self.exact_entries());
        }
        out
    }

    /// Return every exact and wildcard claim owned by one project instance,
    /// wildcards rendered as `*.suffix`.
    pub fn domains_for_instance(&self, instance_id: ProjectInstanceId) -> (r: Vec<String>)
        ensures
            string_views(r@).to_set() == spec_instance_domains(self.exact_map(), self.wildcard_map(), instance_id),
            crate::catalog::texts_ascending(string_views(r@)),
    {
        let found = self.instance_domains_found(instance_id);
        let mut sorted: Vec<String> = Vec::new();
        proof {
            assert(string_views(sorted@) =~= Seq::<Seq<char>>::empty());
            assert(string_views(sorted@).to_set() =~= Set::<Seq<char>>::empty());
        }
        let mut i: usize = 0;
        while i < found.len()
            invariant
                i <= found@.len(),
                crate::catalog::texts_ascending(string_views(sorted@)),
                string_views(sorted@).to_set() == string_views(found@.take(i as int)).to_set(),
            decreases found@.len() - i,
        {
            crate::keyed::insert_text(&mut sorted, &found[i]);
            proof {
                assert(found@.take(i + 1) =~= found@.take(i as int).push(found@[i as int]));
                lemma_string_views_push(found@.take(i as int), found@[i as int]);
                string_views(found@.take(i as int)).lemma_push_to_set_commute(found@[i as int]@);
            }
            i = i + 1;
        }
        proof {
            assert(found@.take(i as int) =~= found@);
        }
        sorted
    }

    /// Every claim of one instance, wildcards first, each table in order.
    fn instance_domains_found(&self, instance_id: ProjectInstanceId) -> (r: Vec<String>)
        ensures
            string_views(r@).to_set() == spec_instance_domains(self.exact_map(), self.wildcard_map(), instance_id),
    {
        proof {
            use_type_invariant(self);
        }
        let ghost p = owned_pred(instance_id);
        let mut out: Vec<String> = Vec::new();
        let mut i: usize = 0;
        while i < self.wildcard_claims.len()
            invariant
                p == owned_pred(instance_id),
                i <= self.wildcard_claims@.len(),
                string_views(out@) == wildcard_texts(keys_where(self.wildcard_entries().take(i as int), p)),
            decreases self.wildcard_claims@.len() - i,
        {
            proof {
                lemma_keys_where_step(self.wildcard_entries(), p, i as int);
                assert(self.wildcard_entries()[i as int] == (self.wildcard_claims@[i as int].0@, self.wildcard_claims@[i as int].1));
            }
            let ghost before = out@;
            if is_owned_by(&self.wildcard_claims[i].1, instance_id) {
                let mut text = String::from_str("*.");
                text.append(self.wildcard_claims[i].0.as_str());
                out.push(text);
                proof {
                    lemma_string_views_push(before, text);
                    lemma_wildcard_texts_push(keys_where(self.wildcard_entries().take(i as int), p), self.wildcard_entries()[i as int].0);
                }
            }
            i = i + 1;
        }
        let ghost wild_part = string_views(out@);
        proof {
            assert(self.wildcard_entries().take(i as int) =~= self.wildcard_entries());
        }
        let mut j: usize = 0;
        while j < self.claims.len()
            invariant
                p == owned_pred(instance_id),
                j <= self.claims@.len(),
                wild_part == wildcard_texts(keys_where(self.wildcard_entries(), p)),
                string_views(out@) == wild_part + keys_where(self.exact_entries().take(j as int), p),
            decreases self.claims@.len() - j,
        {
            proof {
                lemma_keys_where_step(self.exact_entries(), p, j as int);
                assert(self.exact_entries()[j as int] == (self.claims@[j as int].0@, self.claims@[j as int].1));
            }
            let ghost before = out@;
            if is_owned_by(&self.claims[j].1, instance_id) {
                let text = self.claims[j].0.to_string();
                out.push(text);
                proof {
                    lemma_string_views_push(before, text);
                    assert(wild_part + keys_where(self.exact_entries().take(j as int), p).push(text@)
                        =~= (wild_part + keys_where(self.exact_entries().take(j as int), p)).push(text@));
                }
            }
            j = j + 1;
        }
        proof {
            assert(self.exact_entries().take(j as int) =~= self.exact_entries());
            let all = string_views(out@);
            let target = spec_instance_domains(self.exact_map(), self.wildcard_map(), instance_id);
            let exact_keys = keys_where(self.exact_entries(), p);
            let wild_keys = keys_where(self.wildcard_entries(), p);
            assert(all =~= wildcard_texts(wild_keys) + exact_keys);
            assert forall|x: Seq<char>| #[trigger] all.to_set().contains(x) implies target.contains(x) by {
                let n = choose|n: int| 0 <= n < all.len() && all[n] == x;
                if n < wild_part.len() {
                    let e = lemma_keys_where_source(self.wildcard_entries(), p, n);
                    lemma_entries_map_value(self.wildcard_entries(), e);
                    let k = self.wildcard_entries()[e].0;
                    assert(self.wildcard_map().contains_key(k) && owned_by(self.wildcard_map()[k], instance_id) && x == "*."@ + k);
                } else {
                    let e = lemma_keys_where_source(self.exact_entries(), p, n - wild_part.len());
                    lemma_entries_map_value(self.exact_entries(), e);
                    let k = self.exact_entries()[e].0;
                    assert(self.exact_map().contains_key(k) && owned_by(self.exact_map()[k], instance_id) && x == k);
                }
            }
            assert forall|x: Seq<char>| target.contains(x) implies #[trigger] all.to_set().contains(x) by {
                if exists|k: Seq<char>| self.exact_map().contains_key(k) && owned_by(self.exact_map()[k], instance_id) && x == k {
                    let k = choose|k: Seq<char>| self.exact_map().contains_key(k) && owned_by(self.exact_map()[k], instance_id) && x == k;
                    lemma_entries_map_dom(self.exact_entries(), k);
                    let e = choose|e: int| 0 <= e < self.exact_entries().len() && self.exact_entries()[e].0 == k;
                    lemma_entries_map_value(self.exact_entries(), e);
                    let n = lemma_keys_where_includes(self.exact_entries(), p, e);
                    assert(all[wild_part.len() + n] == x);
                } else {
                    let k = choose|k: Seq<char>| self.wildcard_map().contains_key(k) && owned_by(self.wildcard_map()[k], instance_id) && x == "*."@ + k;
                    lemma_entries_map_dom(self.wildcard_entries(), k);
                    let e = choose|e: int| 0 <= e < self.wildcard_entries().len() && self.wildcard_entries()[e].0 == k;
                    lemma_entries_map_value(self.wildcard_entries(), e);
                    let n = lemma_keys_where_includes(self.wildcard_entries(), p, e);
                    assert(all[n] == x);
                }
            }
            assert(all.to_set() =~= target);
        }
        out
    }

    /// Check platform fallbacks, owners, and canonical service origins.
    pub fn validate(&self) -> (r: Result<(), DomainError>)
        ensures
            r is Ok <==> spec_index_valid(self.exact_map(), self.wildcard_map()),
            r matches Err(e) ==> validation_error_explains(e, self.exact_map(), self.wildcard_map()),
    {
        proof {
            use_type_invariant(self);
        }
        let ghost m = self.exact_map();
        let ghost w = self.wildcard_map();
        let ghost es = self.exact_entries();
        let ghost ws = self.wildcard_entries();
        // Platform fallbacks.
        let names: [&str; 9] = [
            "localhost",
            "locald.localhost",
            "locald.local",
            "docs.localhost",
            "docs.local",
            "dev.locald.localhost",
            "dev.locald.local",
            "dev.docs.localhost",
            "dev.docs.local",
        ];
        let mut p: usize = 0;
        while p < 9
            invariant
                p <= 9,
                m == self.exact_map(),
                es == self.exact_entries(),
                sorted_keys(es),
                names@ == seq!["localhost", "locald.localhost", "locald.local", "docs.localhost", "docs.local",
                    "dev.locald.localhost", "dev.locald.local", "dev.docs.localhost", "dev.docs.local"],
                forall|j: int| 0 <= j < p ==> platform_fallback_ok(m, #[trigger] names@[j]@),
            decreases 9 - p,
        {
            let name = domain_name_from_literal(names[p]);
            let chars = name.chars();
            let expected = match platform_surface_exec(chars.as_slice()) {
                Some(surface) => surface,
                None => {
                    proof {
                        assert(false);
                    }
                    PlatformDomain::Dashboard
                },
            };
            match table_find(&self.claims, chars.as_slice()) {
                None => {
                    proof {
                        lemma_entries_map_dom(es, chars@);
                    }
                    return Err(DomainError::MissingPlatformDomain { domain: name });
                },
                Some(i) => {
                    proof {
                        lemma_entries_map_value(es, i as int);
                        assert(es[i as int] == (self.claims@[i as int].0@, self.claims@[i as int].1));
                    }
                    match &self.claims[i].1 {
                        DomainTarget::Platform { surface } => {
                            if *surface != expected {
                                let actual = self.claims[i].1.clone();
                                return Err(DomainError::Conflict {
                                    domain: DomainPattern::Exact(name),
                                    existing: Box::new(DomainTarget::Platform { surface: expected }),
                                    requested: Box::new(actual),
                                });
                            }
                        },
                        DomainTarget::Service { .. } => {},
                    }
                },
            }
            p = p + 1;
        }
        proof {
            assert forall|n: Seq<char>| #[trigger] platform_surface(n) is Some implies platform_fallback_ok(m, n) by {
                assert(platform_fallback_ok(m, names@[0]@));
                assert(platform_fallback_ok(m, names@[1]@));
                assert(platform_fallback_ok(m, names@[2]@));
                assert(platform_fallback_ok(m, names@[3]@));
                assert(platform_fallback_ok(m, names@[4]@));
                assert(platform_fallback_ok(m, names@[5]@));
                assert(platform_fallback_ok(m, names@[6]@));
                assert(platform_fallback_ok(m, names@[7]@));
                assert(platform_fallback_ok(m, names@[8]@));
            }
        }
        // Exact claims: platform placement and one primary per service.
        let mut i: usize = 0;
        while i < self.claims.len()
            invariant
                i <= self.claims@.len(),
                m == self.exact_map(),
                es == self.exact_entries(),
                sorted_keys(es),
                forall|n: Seq<char>| #[trigger] platform_surface(n) is Some ==> platform_fallback_ok(m, n),
                forall|j: int| 0 <= j < i && #[trigger] es[j].1 is Platform ==> platform_surface(es[j].0) == Some(es[j].1->surface),
                forall|a: int, b: int, id: ProjectInstanceId, name: Seq<char>|
                    0 <= a < b < i && #[trigger] is_primary_of(es[a].1, id, name) && #[trigger] is_primary_of(es[b].1, id, name) ==> false,
            decreases self.claims@.len() - i,
        {
            proof {
                assert(es[i as int] == (self.claims@[i as int].0@, self.claims@[i as int].1));
                lemma_entries_map_value(es, i as int);
            }
            match &self.claims[i].1 {
                DomainTarget::Platform { surface } => {
                    let key = self.claims[i].0.chars();
                    let found = platform_surface_exec(key.as_slice());
                    let fits = match found {
                        Some(s) => s == *surface,
                        None => false,
                    };
                    if !fits {
                        return Err(DomainError::UnexpectedPlatformDomain {
                            domain: self.claims[i].0.clone(),
                            surface: *surface,
                        });
                    }
                },
                DomainTarget::Service { project_instance_id, service_name: Some(name), primary } => {
                    if *primary {
                        let wanted = str_chars(name.as_str());
                        let mut j: usize = 0;
                        while j < i
                            invariant
                                j <= i < self.claims@.len(),
                                es == self.exact_entries(),
                                m == self.exact_map(),
                                sorted_keys(es),
                                wanted@ == name@,
                                is_primary_of(es[i as int].1, *project_instance_id, wanted@),
                                forall|a: int| 0 <= a < j ==> !is_primary_of(#[trigger] es[a].1, *project_instance_id, wanted@),
                            decreases i - j,
                        {
                            proof {
                                assert(es[j as int] == (self.claims@[j as int].0@, self.claims@[j as int].1));
                            }
                            if target_is_primary_of(&self.claims[j].1, *project_instance_id, wanted.as_slice()) {
                                proof {
                                    lemma_entries_map_value(es, j as int);
                                    lemma_entries_map_value(es, i as int);
                                    assert(lex_lt(es[j as int].0, es[i as int].0));
                                    lemma_lex_irreflexive(es[j as int].0);
                                    assert(es[i as int] == (self.claims@[i as int].0@, self.claims@[i as int].1));
                                }
                                return Err(DomainError::PrimaryDomainConflict {
                                    service_name: name.clone(),
                                    existing_domain: self.claims[j].0.clone(),
                                    instance_id: *project_instance_id,
                                    requested_domain: self.claims[i].0.clone(),
                                });
                            }
                            j = j + 1;
                        }
                        proof {
                            assert forall|a: int, b: int, id: ProjectInstanceId, nm: Seq<char>|
                                0 <= a < b < i + 1 && #[trigger] is_primary_of(es[a].1, id, nm) && #[trigger] is_primary_of(es[b].1, id, nm) implies false by {
                                if b == i {
                                    assert(id == *project_instance_id && nm == wanted@);
                                }
                            }
                        }
                    }
                },
                DomainTarget::Service { service_name: None, .. } => {},
            }
            i = i + 1;
        }
        // Wildcard claims: non-primary claims of named services.
        let mut i: usize = 0;
        while i < self.wildcard_claims.len()
            invariant
                i <= self.wildcard_claims@.len(),
                w == self.wildcard_map(),
                ws == self.wildcard_entries(),
                sorted_keys(ws),
                forall|j: int| 0 <= j < i ==> wildcard_target_ok(#[trigger] ws[j].1),
            decreases self.wildcard_claims@.len() - i,
        {
            proof {
                assert(ws[i as int] == (self.wildcard_claims@[i as int].0@, self.wildcard_claims@[i as int].1));
                lemma_entries_map_value(ws, i as int);
            }
            match &self.wildcard_claims[i].1 {
                DomainTarget::Platform { .. } => {
                    return Err(DomainError::WildcardPlatformDomain {
                        domain: DomainPattern::Wildcard(self.wildcard_claims[i].0.clone()),
                    });
                },
                DomainTarget::Service { service_name: None, .. } => {
                    return Err(DomainError::WildcardLegacyDomain {
                        domain: DomainPattern::Wildcard(self.wildcard_claims[i].0.clone()),
                    });
                },
                DomainTarget::Service { primary: true, .. } => {
                    return Err(DomainError::WildcardPrimaryDomain {
                        domain: DomainPattern::Wildcard(self.wildcard_claims[i].0.clone()),
                    });
                },
                DomainTarget::Service { .. } => {},
            }
            i = i + 1;
        }
        // Every claimed service has a canonical origin.
        let mut i: usize = 0;
        while i < self.claims.len()
            invariant
                i <= self.claims@.len(),
                m == self.exact_map(),
                es == self.exact_entries(),
                sorted_keys(es),
                forall|j: int, id: ProjectInstanceId, name: Seq<char>|
                    0 <= j < i && #[trigger] names_service(es[j].1, id, name) ==> has_primary(m, id, name),
            decreases self.claims@.len() - i,
        {
            proof {
                assert(es[i as int] == (self.claims@[i as int].0@, self.claims@[i as int].1));
                lemma_entries_map_value(es, i as int);
            }
            match &self.claims[i].1 {
                DomainTarget::Service { project_instance_id, service_name: Some(name), .. } => {
                    let found = self.domain_for_service(*project_instance_id, name.as_str());
                    if found.is_none() {
                        proof {
                            assert forall|k: Seq<char>| m.contains_key(k) implies !is_primary_of(m[k], *project_instance_id, name@) by {
                                lemma_entries_map_dom(es, k);
                                let e = choose|e: int| 0 <= e < es.len() && es[e].0 == k;
                                lemma_entries_map_value(es, e);
                            }
                            assert(names_service(m[es[i as int].0], *project_instance_id, name@));
                        }
                        return Err(DomainError::MissingPrimaryDomain {
                            service_name: name.clone(),
                            instance_id: *project_instance_id,
                        });
                    }
                    proof {
                        let d = found->0;
                        let e = choose|e: int| 0 <= e < es.len() && es[e].0 == d@ && is_primary_of(es[e].1, *project_instance_id, name@)
                            && forall|j: int| 0 <= j < e ==> !is_primary_of(#[trigger] es[j].1, *project_instance_id, name@);
                        lemma_entries_map_value(es, e);
                        assert forall|j: int, id: ProjectInstanceId, nm: Seq<char>|
                            0 <= j < i + 1 && #[trigger] names_service(es[j].1, id, nm) implies has_primary(m, id, nm) by {
                            if j == i {
                                assert(id == *project_instance_id && nm == name@);
                                assert(m.contains_key(es[e].0) && is_primary_of(m[es[e].0], id, nm));
                            }
                        }
                    }
                },
                _ => {},
            }
            i = i + 1;
        }
        let mut i: usize = 0;
        while i < self.wildcard_claims.len()
            invariant
                i <= self.wildcard_claims@.len(),
                m == self.exact_map(),
                w == self.wildcard_map(),
                es == self.exact_entries(),
                ws == self.wildcard_entries(),
                sorted_keys(es),
                sorted_keys(ws),
                forall|j: int, id: ProjectInstanceId, name: Seq<char>|
                    0 <= j < i && #[trigger] names_service(ws[j].1, id, name) ==> has_primary(m, id, name),
            decreases self.wildcard_claims@.len() - i,
        {
            proof {
                assert(ws[i as int] == (self.wildcard_claims@[i as int].0@, self.wildcard_claims@[i as int].1));
                lemma_entries_map_value(ws, i as int);
            }
            match &self.wildcard_claims[i].1 {
                DomainTarget::Service { project_instance_id, service_name: Some(name), .. } => {
                    let found = self.domain_for_service(*project_instance_id, name.as_str());
                    if found.is_none() {
                        proof {
                            assert forall|k: Seq<char>| m.contains_key(k) implies !is_primary_of(m[k], *project_instance_id, name@) by {
                                lemma_entries_map_dom(es, k);
                                let e = choose|e: int| 0 <= e < es.len() && es[e].0 == k;
                                lemma_entries_map_value(es, e);
                            }
                            assert(names_service(w[ws[i as int].0], *project_instance_id, name@));
                        }
                        return Err(DomainError::MissingPrimaryDomain {
                            service_name: name.clone(),
                            instance_id: *project_instance_id,
                        });
                    }
                    proof {
                        let d = found->0;
                        let e = choose|e: int| 0 <= e < es.len() && es[e].0 == d@ && is_primary_of(es[e].1, *project_instance_id, name@)
                            && forall|j: int| 0 <= j < e ==> !is_primary_of(#[trigger] es[j].1, *project_instance_id, name@);
                        lemma_entries_map_value(es, e);
                        assert forall|j: int, id: ProjectInstanceId, nm: Seq<char>|
                            0 <= j < i + 1 && #[trigger] names_service(ws[j].1, id, nm) implies has_primary(m, id, nm) by {
                            if j == i {
                                assert(id == *project_instance_id && nm == name@);
                                assert(m.contains_key(es[e].0) && is_primary_of(m[es[e].0], id, nm));
                            }
                        }
                    }
                },
                _ => {},
            }
            i = i + 1;
        }
        proof {
            assert forall|k: Seq<char>| #[trigger] m.contains_key(k) && m[k] is Platform implies platform_surface(k) == Some(m[k]->surface) by {
                lemma_entries_map_dom(es, k);
                let e = choose|e: int| 0 <= e < es.len() && es[e].0 == k;
                lemma_entries_map_value(es, e);
            }
            assert forall|k1: Seq<char>, k2: Seq<char>, id: ProjectInstanceId, name: Seq<char>|
                m.contains_key(k1) && m.contains_key(k2) && #[trigger] is_primary_of(m[k1], id, name)
                    && #[trigger] is_primary_of(m[k2], id, name) implies k1 == k2 by {
                lemma_entries_map_dom(es, k1);
                lemma_entries_map_dom(es, k2);
                let a = choose|e: int| 0 <= e < es.len() && es[e].0 == k1;
                let b = choose|e: int| 0 <= e < es.len() && es[e].0 == k2;
                lemma_entries_map_value(es, a);
                lemma_entries_map_value(es, b);
                if a < b {
                    assert(is_primary_of(es[a].1, id, name) && is_primary_of(es[b].1, id, name));
                } else if b < a {
                    assert(is_primary_of(es[b].1, id, name) && is_primary_of(es[a].1, id, name));
                }
            }
            assert forall|k: Seq<char>| #[trigger] w.contains_key(k) implies wildcard_target_ok(w[k]) by {
                lemma_entries_map_dom(ws, k);
                let e = choose|e: int| 0 <= e < ws.len() && ws[e].0 == k;
                lemma_entries_map_value(ws, e);
            }
            assert forall|k: Seq<char>, id: ProjectInstanceId, name: Seq<char>|
                m.contains_key(k) && #[trigger] names_service(m[k], id, name) implies has_primary(m, id, name) by {
                lemma_entries_map_dom(es, k);
                let e = choose|e: int| 0 <= e < es.len() && es[e].0 == k;
                lemma_entries_map_value(es, e);
            }
            assert forall|k: Seq<char>, id: ProjectInstanceId, name: Seq<char>|
                w.contains_key(k) && #[trigger] names_service(w[k], id, name) implies has_primary(m, id, name) by {
                lemma_entries_map_dom(ws, k);
                let e = choose|e: int| 0 <= e < ws.len() && ws[e].0 == k;
                lemma_entries_map_value(ws, e);
            }
        }
        Ok(())
    }

    /// Atomically replace every exact and wildcard claim owned by one project
    /// instance, restoring platform fallbacks the instance no longer holds.
    ///
    /// Requested claims must belong to the instance and must not repeat a
    /// pattern. A requested exact name may take over a platform fallback but
    /// no other owner's name; a requested wildcard suffix may not be owned by
    /// anyone else. The result must pass [`DomainIndex::validate`].
    pub fn replacing_instance(&self, instance_id: ProjectInstanceId, desired: Vec<DomainClaim>) -> (r: Result<
        DomainIndex,
        DomainError,
    >)
        ensures
            r is Ok <==> replacement_accepted(self.exact_map(), self.wildcard_map(), instance_id, desired@),
            r matches Ok(x) ==> x.exact_map() == replaced_exact(self.exact_map(), instance_id, desired@)
                && x.wildcard_map() == replaced_wildcards(self.wildcard_map(), instance_id, desired@),
            r matches Err(e) ==> replacement_error_explains(e, self.exact_map(), self.wildcard_map(), instance_id, desired@),
    {
        proof {
            use_type_invariant(self);
        }
        let ghost d = desired@;
        // Requested claims: owner checks and duplicate patterns, in request order.
        let mut inc_exact: Vec<(DomainName, DomainTarget)> = Vec::new();
        let mut inc_wild: Vec<(DomainName, DomainTarget)> = Vec::new();
        proof {
            assert(entries_view(inc_exact@) =~= Seq::<(Seq<char>, DomainTarget)>::empty());
            assert(entries_view(inc_wild@) =~= Seq::<(Seq<char>, DomainTarget)>::empty());
            assert(d.take(0) =~= Seq::<DomainClaim>::empty());
        }
        let mut i: usize = 0;
        while i < desired.len()
            invariant
                i <= d.len(),
                d == desired@,
                sorted_keys(entries_view(inc_exact@)),
                sorted_keys(entries_view(inc_wild@)),
                entries_map(entries_view(inc_exact@)) == requested_map(d.take(i as int), true),
                entries_map(entries_view(inc_wild@)) == requested_map(d.take(i as int), false),
                forall|j: int| 0 <= j < i ==> !claim_rejected(d, instance_id, j),
            decreases d.len() - i,
        {
            let claim = &desired[i];
            match &claim.target {
                DomainTarget::Service { project_instance_id, .. } => {
                    if *project_instance_id != instance_id {
                        proof {
                            assert(claim_rejected(d, instance_id, i as int));
                        }
                        return Err(DomainError::WrongInstance {
                            expected: instance_id,
                            actual: *project_instance_id,
                            domain: claim.domain.clone(),
                        });
                    }
                },
                DomainTarget::Platform { .. } => {
                    proof {
                        assert(claim_rejected(d, instance_id, i as int));
                    }
                    return Err(DomainError::PlatformReplacement { instance_id, domain: claim.domain.clone() });
                },
            }
            let key = claim.domain.domain().chars();
            let exact = claim.domain.is_exact();
            proof {
                assert(d.take(i + 1).drop_last() =~= d.take(i as int));
                assert(d.take(i + 1).last() == d[i as int]);
            }
            if exact {
                match table_find(&inc_exact, key.as_slice()) {
                    Some(j) => {
                        proof {
                            lemma_entries_map_value(entries_view(inc_exact@), j as int);
                            assert(entries_view(inc_exact@)[j as int] == (inc_exact@[j as int].0@, inc_exact@[j as int].1));
                            assert(claim_rejected(d, instance_id, i as int));
                        }
                        return Err(DomainError::Conflict {
                            domain: claim.domain.clone(),
                            existing: Box::new(inc_exact[j].1.clone()),
                            requested: Box::new(claim.target.clone()),
                        });
                    },
                    None => {
                        proof {
                            lemma_entries_map_dom(entries_view(inc_exact@), key@);
                        }
                        table_upsert(&mut inc_exact, claim.domain.domain().clone(), claim.target.clone());
                    },
                }
            } else {
                match table_find(&inc_wild, key.as_slice()) {
                    Some(j) => {
                        proof {
                            lemma_entries_map_value(entries_view(inc_wild@), j as int);
                            assert(entries_view(inc_wild@)[j as int] == (inc_wild@[j as int].0@, inc_wild@[j as int].1));
                            assert(claim_rejected(d, instance_id, i as int));
                        }
                        return Err(DomainError::Conflict {
                            domain: claim.domain.clone(),
                            existing: Box::new(inc_wild[j].1.clone()),
                            requested: Box::new(claim.target.clone()),
                        });
                    },
                    None => {
                        proof {
                            lemma_entries_map_dom(entries_view(inc_wild@), key@);
                        }
                        table_upsert(&mut inc_wild, claim.domain.domain().clone(), claim.target.clone());
                    },
                }
            }
            i = i + 1;
        }
        proof {
            assert(d.take(d.len() as int) =~= d);
        }
        // The index without the instance, platform fallbacks restored.
        let mut claims = table_without_instance(&self.claims, instance_id);
        restore_platform_fallbacks(&mut claims);
        let mut wild = table_without_instance(&self.wildcard_claims, instance_id);
        let ghost base = base_exact(self.exact_map(), instance_id);
        let ghost base_w = without_instance(self.wildcard_map(), instance_id);
        let ghost ies = entries_view(inc_exact@);
        let ghost iws = entries_view(inc_wild@);
        proof {
            assert(ies.take(0) =~= Seq::<(Seq<char>, DomainTarget)>::empty());
            assert(entries_map(ies.take(0)) =~= Map::<Seq<char>, DomainTarget>::empty());
            assert(base.union_prefer_right(entries_map(ies.take(0))) =~= base);
        }
        let mut j: usize = 0;
        while j < inc_exact.len()
            invariant
                j <= ies.len(),
                ies == entries_view(inc_exact@),
                d == desired@,
                base == base_exact(self.exact_map(), instance_id),
                entries_map(ies) == requested_map(d, true),
                requests_ok(d, instance_id),
                sorted_keys(ies),
                sorted_keys(entries_view(claims@)),
                entries_map(entries_view(claims@)) == base.union_prefer_right(entries_map(ies.take(j as int))),
                forall|a: int| 0 <= a < j ==> !exact_conflict(base, #[trigger] ies[a].0),
            decreases ies.len() - j,
        {
            let key = inc_exact[j].0.chars();
            proof {
                assert(ies[j as int] == (inc_exact@[j as int].0@, inc_exact@[j as int].1));
                lemma_take_excludes_next(ies, j as int);
                assert(ies.take(j + 1).drop_last() =~= ies.take(j as int));
            }
            match table_find(&claims, key.as_slice()) {
                Some(p) => {
                    proof {
                        lemma_entries_map_value(entries_view(claims@), p as int);
                        assert(entries_view(claims@)[p as int] == (claims@[p as int].0@, claims@[p as int].1));
                    }
                    let takes_over = match &claims[p].1 {
                        DomainTarget::Platform { .. } => platform_surface_exec(key.as_slice()).is_some(),
                        DomainTarget::Service { .. } => false,
                    };
                    if !takes_over {
                        proof {
                            lemma_first_conflict(ies, j as int, base);
                        }
                        return Err(DomainError::Conflict {
                            domain: DomainPattern::Exact(inc_exact[j].0.clone()),
                            existing: Box::new(claims[p].1.clone()),
                            requested: Box::new(inc_exact[j].1.clone()),
                        });
                    }
                },
                None => {
                    proof {
                        lemma_entries_map_dom(entries_view(claims@), key@);
                    }
                },
            }
            table_upsert(&mut claims, inc_exact[j].0.clone(), inc_exact[j].1.clone());
            proof {
                assert(base.union_prefer_right(entries_map(ies.take(j + 1))) =~= base.union_prefer_right(
                    entries_map(ies.take(j as int)),
                ).insert(ies[j as int].0, ies[j as int].1));
            }
            j = j + 1;
        }
        proof {
            assert(ies.take(ies.len() as int) =~= ies);
            lemma_all_keys_checked(ies, base);
            assert(iws.take(0) =~= Seq::<(Seq<char>, DomainTarget)>::empty());
            assert(entries_map(iws.take(0)) =~= Map::<Seq<char>, DomainTarget>::empty());
            assert(base_w.union_prefer_right(entries_map(iws.take(0))) =~= base_w);
        }
        let mut j: usize = 0;
        while j < inc_wild.len()
            invariant
                j <= iws.len(),
                iws == entries_view(inc_wild@),
                d == desired@,
                base_w == without_instance(self.wildcard_map(), instance_id),
                entries_map(iws) == requested_map(d, false),
                requests_ok(d, instance_id),
                exact_requests_free(self.exact_map(), instance_id, d),
                sorted_keys(iws),
                sorted_keys(entries_view(wild@)),
                entries_map(entries_view(wild@)) == base_w.union_prefer_right(entries_map(iws.take(j as int))),
                forall|a: int| 0 <= a < j ==> !base_w.contains_key(#[trigger] iws[a].0),
            decreases iws.len() - j,
        {
            let key = inc_wild[j].0.chars();
            proof {
                assert(iws[j as int] == (inc_wild@[j as int].0@, inc_wild@[j as int].1));
                lemma_take_excludes_next(iws, j as int);
                assert(iws.take(j + 1).drop_last() =~= iws.take(j as int));
            }
            match table_find(&wild, key.as_slice()) {
                Some(p) => {
                    proof {
                        lemma_entries_map_value(entries_view(wild@), p as int);
                        assert(entries_view(wild@)[p as int] == (wild@[p as int].0@, wild@[p as int].1));
                        lemma_first_taken(iws, j as int, base_w);
                    }
                    return Err(DomainError::Conflict {
                        domain: DomainPattern::Wildcard(inc_wild[j].0.clone()),
                        existing: Box::new(wild[p].1.clone()),
                        requested: Box::new(inc_wild[j].1.clone()),
                    });
                },
                None => {
                    proof {
                        lemma_entries_map_dom(entries_view(wild@), key@);
                    }
                },
            }
            table_upsert(&mut wild, inc_wild[j].0.clone(), inc_wild[j].1.clone());
            proof {
                assert(base_w.union_prefer_right(entries_map(iws.take(j + 1))) =~= base_w.union_prefer_right(
                    entries_map(iws.take(j as int)),
                ).insert(iws[j as int].0, iws[j as int].1));
            }
            j = j + 1;
        }
        proof {
            assert(iws.take(iws.len() as int) =~= iws);
            lemma_all_suffixes_checked(iws, base_w);
        }
        let replacement = DomainIndex { claims, wildcard_claims: wild };
        match replacement.validate() {
            Ok(()) => Ok(replacement),
            Err(e) => Err(e),
        }
    }
}

// ---------------------------------------------------------------------------
// Replacing one instance's claims
// ---------------------------------------------------------------------------

/// The requested claims of one kind (exact or wildcard), by key.
pub open spec fn requested_map(d: Seq<DomainClaim>, exact: bool) -> Map<Seq<char>, DomainTarget>
    decreases d.len(),
{
    if d.len() == 0 {
        Map::empty()
    } else {
        let rest = requested_map(d.drop_last(), exact);
        if (d.last().domain is Exact) == exact {
            rest.insert(d.last().domain.spec_domain()@, d.last().target)
        } else {
            rest
        }
    }
}

/// Whether the `i`th requested claim is refused on its own: another owner,
/// or a pattern an earlier request already named.
pub open spec fn claim_rejected(d: Seq<DomainClaim>, instance_id: ProjectInstanceId, i: int) -> bool {
    !owned_by(d[i].target, instance_id) || requested_map(d.take(i), d[i].domain is Exact).contains_key(
        d[i].domain.spec_domain()@,
    )
}

/// Whether every requested claim is acceptable on its own.
pub open spec fn requests_ok(d: Seq<DomainClaim>, instance_id: ProjectInstanceId) -> bool {
    forall|i: int| 0 <= i < d.len() ==> !claim_rejected(d, instance_id, i)
}

/// Exact claims once the instance's own claims are gone and platform
/// fallbacks are restored where nothing else holds them.
pub open spec fn base_exact(m: Map<Seq<char>, DomainTarget>, instance_id: ProjectInstanceId) -> Map<Seq<char>, DomainTarget> {
    platform_map().union_prefer_right(without_instance(m, instance_id))
}

/// A requested exact name that someone other than a platform fallback holds.
pub open spec fn exact_conflict(base: Map<Seq<char>, DomainTarget>, k: Seq<char>) -> bool {
    base.contains_key(k) && !(base[k] is Platform && platform_surface(k) is Some)
}

/// The exact claims after a replacement.
pub open spec fn replaced_exact(m: Map<Seq<char>, DomainTarget>, instance_id: ProjectInstanceId, d: Seq<DomainClaim>) -> Map<
    Seq<char>,
    DomainTarget,
> {
    base_exact(m, instance_id).union_prefer_right(requested_map(d, true))
}

/// The wildcard claims after a replacement.
pub open spec fn replaced_wildcards(w: Map<Seq<char>, DomainTarget>, instance_id: ProjectInstanceId, d: Seq<DomainClaim>) -> Map<
    Seq<char>,
    DomainTarget,
> {
    without_instance(w, instance_id).union_prefer_right(requested_map(d, false))
}

/// Whether no requested exact name collides with a surviving owner.
pub open spec fn exact_requests_free(m: Map<Seq<char>, DomainTarget>, instance_id: ProjectInstanceId, d: Seq<DomainClaim>) -> bool {
    forall|k: Seq<char>| #[trigger] requested_map(d, true).contains_key(k) ==> !exact_conflict(base_exact(m, instance_id), k)
}

/// Whether no requested wildcard suffix is owned by a surviving claim.
pub open spec fn wildcard_requests_free(w: Map<Seq<char>, DomainTarget>, instance_id: ProjectInstanceId, d: Seq<DomainClaim>) -> bool {
    forall|k: Seq<char>| #[trigger] requested_map(d, false).contains_key(k) ==> !without_instance(w, instance_id).contains_key(k)
}

/// When a replacement succeeds.
pub open spec fn replacement_accepted(
    m: Map<Seq<char>, DomainTarget>,
    w: Map<Seq<char>, DomainTarget>,
    instance_id: ProjectInstanceId,
    d: Seq<DomainClaim>,
) -> bool {
    &&& requests_ok(d, instance_id)
    &&& exact_requests_free(m, instance_id, d)
    &&& wildcard_requests_free(w, instance_id, d)
    &&& spec_index_valid(replaced_exact(m, instance_id, d), replaced_wildcards(w, instance_id, d))
}

/// The error for the first refused request `i`.
pub open spec fn rejection_error(e: DomainError, d: Seq<DomainClaim>, instance_id: ProjectInstanceId, i: int) -> bool {
    if !owned_by(d[i].target, instance_id) {
        match d[i].target {
            DomainTarget::Service { project_instance_id, .. } => e == (DomainError::WrongInstance {
                expected: instance_id,
                actual: project_instance_id,
                domain: d[i].domain,
            }),
            DomainTarget::Platform { .. } => e == (DomainError::PlatformReplacement { instance_id, domain: d[i].domain }),
        }
    } else {
        match e {
            DomainError::Conflict { domain, existing, requested } => domain == d[i].domain
                && *existing == requested_map(d.take(i), d[i].domain is Exact)[d[i].domain.spec_domain()@]
                && *requested == d[i].target,
            _ => false,
        }
    }
}

/// What a refused replacement reports: the first refused request; else the
/// smallest requested exact name held by another owner; else the smallest
/// requested wildcard suffix already owned; else the broken index rule.
pub open spec fn replacement_error_explains(
    e: DomainError,
    m: Map<Seq<char>, DomainTarget>,
    w: Map<Seq<char>, DomainTarget>,
    instance_id: ProjectInstanceId,
    d: Seq<DomainClaim>,
) -> bool {
    if !requests_ok(d, instance_id) {
        exists|i: int|
            0 <= i < d.len() && #[trigger] claim_rejected(d, instance_id, i) && (forall|j: int|
                0 <= j < i ==> !claim_rejected(d, instance_id, j)) && rejection_error(e, d, instance_id, i)
    } else if !exact_requests_free(m, instance_id, d) {
        let base = base_exact(m, instance_id);
        let inc = requested_map(d, true);
        match e {
            DomainError::Conflict { domain, existing, requested } => {
                let k = domain.spec_domain()@;
                &&& domain is Exact
                &&& inc.contains_key(k) && exact_conflict(base, k)
                &&& *existing == base[k] && *requested == inc[k]
                &&& forall|k2: Seq<char>| #[trigger] inc.contains_key(k2) && lex_lt(k2, k) ==> !exact_conflict(base, k2)
            },
            _ => false,
        }
    } else if !wildcard_requests_free(w, instance_id, d) {
        let base = without_instance(w, instance_id);
        let inc = requested_map(d, false);
        match e {
            DomainError::Conflict { domain, existing, requested } => {
                let k = domain.spec_domain()@;
                &&& domain is Wildcard
                &&& inc.contains_key(k) && base.contains_key(k)
                &&& *existing == base[k] && *requested == inc[k]
                &&& forall|k2: Seq<char>| #[trigger] inc.contains_key(k2) && lex_lt(k2, k) ==> !base.contains_key(k2)
            },
            _ => false,
        }
    } else {
        validation_error_explains(e, replaced_exact(m, instance_id, d), replaced_wildcards(w, instance_id, d))
    }
}

/// A replacement leaves every claim of other owners in place unless the
/// instance requested that very name, and the instance ends up owning
/// exactly the names it requested.
pub proof fn lemma_replacement_keeps_other_owners(
    m: Map<Seq<char>, DomainTarget>,
    w: Map<Seq<char>, DomainTarget>,
    instance_id: ProjectInstanceId,
    d: Seq<DomainClaim>,
)
    requires
        replacement_accepted(m, w, instance_id, d),
    ensures
        forall|k: Seq<char>|
            #[trigger] m.contains_key(k) && !owned_by(m[k], instance_id) && !requested_map(d, true).contains_key(k)
                ==> replaced_exact(m, instance_id, d).contains_key(k) && replaced_exact(m, instance_id, d)[k] == m[k],
        forall|k: Seq<char>|
            #[trigger] w.contains_key(k) && !owned_by(w[k], instance_id) ==> replaced_wildcards(w, instance_id, d).contains_key(k)
                && replaced_wildcards(w, instance_id, d)[k] == w[k],
        forall|k: Seq<char>|
            #[trigger] replaced_exact(m, instance_id, d).contains_key(k) && owned_by(replaced_exact(m, instance_id, d)[k], instance_id)
                <==> requested_map(d, true).contains_key(k),
        forall|k: Seq<char>|
            #[trigger] replaced_wildcards(w, instance_id, d).contains_key(k) && owned_by(
                replaced_wildcards(w, instance_id, d)[k],
                instance_id,
            ) <==> requested_map(d, false).contains_key(k),
{
    lemma_requested_owned(d, instance_id, true);
    lemma_requested_owned(d, instance_id, false);
    assert forall|k: Seq<char>|
        #[trigger] w.contains_key(k) && !owned_by(w[k], instance_id) implies replaced_wildcards(w, instance_id, d).contains_key(k)
            && replaced_wildcards(w, instance_id, d)[k] == w[k] by {
        assert(!requested_map(d, false).contains_key(k));
    }
}

/// Every requested claim of an acceptable request list belongs to the instance.
pub proof fn lemma_requested_owned(d: Seq<DomainClaim>, instance_id: ProjectInstanceId, exact: bool)
    requires
        requests_ok(d, instance_id),
    ensures
        forall|k: Seq<char>| #[trigger] requested_map(d, exact).contains_key(k) ==> owned_by(requested_map(d, exact)[k], instance_id),
    decreases d.len(),
{
    if d.len() > 0 {
        let t = d.drop_last();
        assert forall|i: int| 0 <= i < t.len() implies !claim_rejected(t, instance_id, i) by {
            assert(t.take(i) =~= d.take(i));
            assert(!claim_rejected(d, instance_id, i));
        }
        lemma_requested_owned(t, instance_id, exact);
        assert(!claim_rejected(d, instance_id, d.len() - 1));
        assert(owned_by(d.last().target, instance_id));
        assert forall|k: Seq<char>| #[trigger] requested_map(d, exact).contains_key(k) implies owned_by(
            requested_map(d, exact)[k],
            instance_id,
        ) by {
            if (d.last().domain is Exact) == exact && k == d.last().domain.spec_domain()@ {
            } else {
                assert(requested_map(t, exact).contains_key(k));
            }
        }
    }
}

/// Applying the same accepted replacement again is accepted and changes nothing.
pub proof fn lemma_replacement_idempotent(
    m: Map<Seq<char>, DomainTarget>,
    w: Map<Seq<char>, DomainTarget>,
    instance_id: ProjectInstanceId,
    d: Seq<DomainClaim>,
)
    requires
        replacement_accepted(m, w, instance_id, d),
    ensures
        replacement_accepted(replaced_exact(m, instance_id, d), replaced_wildcards(w, instance_id, d), instance_id, d),
        replaced_exact(replaced_exact(m, instance_id, d), instance_id, d) == replaced_exact(m, instance_id, d),
        replaced_wildcards(replaced_wildcards(w, instance_id, d), instance_id, d) == replaced_wildcards(w, instance_id, d),
{
    lemma_requested_owned(d, instance_id, true);
    lemma_requested_owned(d, instance_id, false);
    let m1 = replaced_exact(m, instance_id, d);
    let w1 = replaced_wildcards(w, instance_id, d);
    let req = requested_map(d, true);
    let reqw = requested_map(d, false);
    let base = base_exact(m, instance_id);
    let base2 = base_exact(m1, instance_id);
    assert forall|k: Seq<char>| #[trigger] base2.contains_key(k) <==> (base.contains_key(k) && !req.contains_key(k))
        || platform_surface(k) is Some by {
    }
    assert forall|k: Seq<char>| #[trigger] req.contains_key(k) implies !exact_conflict(base2, k) by {
        assert(!exact_conflict(base, k));
    }
    assert(replaced_exact(m1, instance_id, d) =~= m1) by {
        assert forall|k: Seq<char>| #[trigger] m1.contains_key(k) && !req.contains_key(k) implies base2.contains_key(k)
            && base2[k] == m1[k] by {
            assert(base.contains_key(k));
        }
    }
    assert(replaced_wildcards(w1, instance_id, d) =~= w1);
}

/// Put back every platform fallback name nothing holds.
fn restore_platform_fallbacks(claims: &mut Vec<(DomainName, DomainTarget)>)
    requires
        sorted_keys(entries_view(old(claims)@)),
    ensures
        sorted_keys(entries_view(final(claims)@)),
        entries_map(entries_view(final(claims)@)) == platform_map().union_prefer_right(
            entries_map(entries_view(old(claims)@)),
        ),
{
    let ghost m0 = entries_map(entries_view(claims@));
    let names: [&str; 9] = [
        "localhost",
        "locald.localhost",
        "locald.local",
        "docs.localhost",
        "docs.local",
        "dev.locald.localhost",
        "dev.locald.local",
        "dev.docs.localhost",
        "dev.docs.local",
    ];
    let mut i: usize = 0;
    while i < 9
        invariant
            i <= 9,
            m0 == entries_map(entries_view(old(claims)@)),
            sorted_keys(entries_view(claims@)),
            forall|k: Seq<char>| #[trigger] entries_map(entries_view(claims@)).contains_key(k) ==> m0.contains_key(k)
                || platform_surface(k) is Some,
            forall|k: Seq<char>| #[trigger] entries_map(entries_view(claims@)).contains_key(k) ==> entries_map(
                entries_view(claims@),
            )[k] == (if m0.contains_key(k) { m0[k] } else { platform_map()[k] }),
            forall|k: Seq<char>| #[trigger] m0.contains_key(k) ==> entries_map(entries_view(claims@)).contains_key(k),
            forall|j: int| 0 <= j < i ==> #[trigger] entries_map(entries_view(claims@)).contains_key(names@[j]@),
            names@ == seq!["localhost", "locald.localhost", "locald.local", "docs.localhost", "docs.local",
                "dev.locald.localhost", "dev.locald.local", "dev.docs.localhost", "dev.docs.local"],
        decreases 9 - i,
    {
        let name = domain_name_from_literal(names[i]);
        let chars = name.chars();
        match table_find(claims, chars.as_slice()) {
            Some(p) => {
                proof {
                    lemma_entries_map_value(entries_view(claims@), p as int);
                }
            },
            None => {
                proof {
                    lemma_entries_map_dom(entries_view(claims@), chars@);
                }
                match platform_surface_exec(chars.as_slice()) {
                    Some(surface) => {
                        table_upsert(claims, name, DomainTarget::Platform { surface });
                    },
                    None => {
                        proof {
                            assert(false);
                        }
                    },
                }
            },
        }
        i = i + 1;
    }
    proof {
        let m = entries_map(entries_view(claims@));
        assert forall|k: Seq<char>| platform_surface(k) is Some implies #[trigger] m.contains_key(k) by {
            assert(m.contains_key(names@[0]@));
            assert(m.contains_key(names@[1]@));
            assert(m.contains_key(names@[2]@));
            assert(m.contains_key(names@[3]@));
            assert(m.contains_key(names@[4]@));
            assert(m.contains_key(names@[5]@));
            assert(m.contains_key(names@[6]@));
            assert(m.contains_key(names@[7]@));
            assert(m.contains_key(names@[8]@));
        }
        assert(m =~= platform_map().union_prefer_right(m0));
    }
}

/// In a sorted table, the `j`th key is not among the first `j`.
proof fn lemma_take_excludes_next(s: Seq<(Seq<char>, DomainTarget)>, j: int)
    requires
        sorted_keys(s),
        0 <= j < s.len(),
    ensures
        !entries_map(s.take(j)).contains_key(s[j].0),
        entries_map(s.take(j + 1)) == entries_map(s.take(j)).insert(s[j].0, s[j].1),
{
    lemma_entries_map_dom(s.take(j), s[j].0);
    if entries_map(s.take(j)).contains_key(s[j].0) {
        let a = choose|a: int| 0 <= a < s.take(j).len() && s.take(j)[a].0 == s[j].0;
        assert(lex_lt(s[a].0, s[j].0));
        lemma_lex_irreflexive(s[j].0);
    }
    assert(s.take(j + 1).drop_last() =~= s.take(j));
}

/// A key of a sorted table smaller than its `j`th key sits before `j`.
proof fn lemma_smaller_key_before(s: Seq<(Seq<char>, DomainTarget)>, j: int, k2: Seq<char>) -> (a: int)
    requires
        sorted_keys(s),
        0 <= j < s.len(),
        entries_map(s).contains_key(k2),
        lex_lt(k2, s[j].0),
    ensures
        0 <= a < j,
        s[a].0 == k2,
{
    lemma_entries_map_dom(s, k2);
    let a = choose|a: int| 0 <= a < s.len() && s[a].0 == k2;
    if a >= j {
        if a > j {
            assert(lex_lt(s[j].0, s[a].0));
            lemma_lex_asymmetric(s[j].0, k2);
        } else {
            lemma_lex_irreflexive(k2);
        }
    }
    a
}

/// The first conflicting key of a sorted table is the smallest conflicting key.
proof fn lemma_first_conflict(s: Seq<(Seq<char>, DomainTarget)>, j: int, base: Map<Seq<char>, DomainTarget>)
    requires
        sorted_keys(s),
        0 <= j < s.len(),
        forall|a: int| 0 <= a < j ==> !exact_conflict(base, #[trigger] s[a].0),
    ensures
        entries_map(s).contains_key(s[j].0),
        entries_map(s)[s[j].0] == s[j].1,
        forall|k2: Seq<char>| #[trigger] entries_map(s).contains_key(k2) && lex_lt(k2, s[j].0) ==> !exact_conflict(base, k2),
{
    lemma_entries_map_value(s, j);
    assert forall|k2: Seq<char>| #[trigger] entries_map(s).contains_key(k2) && lex_lt(k2, s[j].0) implies !exact_conflict(
        base,
        k2,
    ) by {
        let a = lemma_smaller_key_before(s, j, k2);
    }
}

/// The first taken suffix of a sorted table is the smallest taken suffix.
proof fn lemma_first_taken(s: Seq<(Seq<char>, DomainTarget)>, j: int, base: Map<Seq<char>, DomainTarget>)
    requires
        sorted_keys(s),
        0 <= j < s.len(),
        forall|a: int| 0 <= a < j ==> !base.contains_key(#[trigger] s[a].0),
    ensures
        entries_map(s).contains_key(s[j].0),
        entries_map(s)[s[j].0] == s[j].1,
        forall|k2: Seq<char>| #[trigger] entries_map(s).contains_key(k2) && lex_lt(k2, s[j].0) ==> !base.contains_key(k2),
{
    lemma_entries_map_value(s, j);
    assert forall|k2: Seq<char>| #[trigger] entries_map(s).contains_key(k2) && lex_lt(k2, s[j].0) implies !base.contains_key(
        k2,
    ) by {
        let a = lemma_smaller_key_before(s, j, k2);
    }
}

proof fn lemma_all_keys_checked(s: Seq<(Seq<char>, DomainTarget)>, base: Map<Seq<char>, DomainTarget>)
    requires
        forall|a: int| 0 <= a < s.len() ==> !exact_conflict(base, #[trigger] s[a].0),
    ensures
        forall|k: Seq<char>| #[trigger] entries_map(s).contains_key(k) ==> !exact_conflict(base, k),
{
    assert forall|k: Seq<char>| #[trigger] entries_map(s).contains_key(k) implies !exact_conflict(base, k) by {
        lemma_entries_map_dom(s, k);
    }
}

proof fn lemma_all_suffixes_checked(s: Seq<(Seq<char>, DomainTarget)>, base: Map<Seq<char>, DomainTarget>)
    requires
        forall|a: int| 0 <= a < s.len() ==> !base.contains_key(#[trigger] s[a].0),
    ensures
        forall|k: Seq<char>| #[trigger] entries_map(s).contains_key(k) ==> !base.contains_key(k),
{
    assert forall|k: Seq<char>| #[trigger] entries_map(s).contains_key(k) implies !base.contains_key(k) by {
        lemma_entries_map_dom(s, k);
    }
}

/// Every exact and `*.`-rendered wildcard claim owned by one instance.
pub open spec fn spec_instance_domains(
    exact: Map<Seq<char>, DomainTarget>,
    wildcard: Map<Seq<char>, DomainTarget>,
    instance_id: ProjectInstanceId,
) -> Set<Seq<char>> {
    Set::new(|x: Seq<char>|
        (exists|k: Seq<char>| exact.contains_key(k) && owned_by(exact[k], instance_id) && x == k)
        || (exists|k: Seq<char>| wildcard.contains_key(k) && owned_by(wildcard[k], instance_id) && x == "*."@ + k))
}


/// A platform name is still owned by its platform surface or overridden by
/// a project service.
pub open spec fn platform_fallback_ok(m: Map<Seq<char>, DomainTarget>, n: Seq<char>) -> bool {
    m.contains_key(n) && (m[n] is Service || m[n] == (DomainTarget::Platform { surface: platform_surface(n)->0 }))
}

/// Whether a target names the service `(instance_id, service_name)`.
pub open spec fn names_service(t: DomainTarget, instance_id: ProjectInstanceId, service_name: Seq<char>) -> bool {
    match t {
        DomainTarget::Service { project_instance_id, service_name: Some(n), .. } =>
            project_instance_id == instance_id && n@ == service_name,
        _ => false,
    }
}

/// Whether the exact claims give the service a canonical origin.
pub open spec fn has_primary(m: Map<Seq<char>, DomainTarget>, instance_id: ProjectInstanceId, service_name: Seq<char>) -> bool {
    exists|k: Seq<char>| m.contains_key(k) && is_primary_of(m[k], instance_id, service_name)
}

/// Whether a wildcard target is a non-primary claim of a named service.
pub open spec fn wildcard_target_ok(t: DomainTarget) -> bool {
    match t {
        DomainTarget::Service { service_name: Some(_), primary, .. } => !primary,
        _ => false,
    }
}

/// The ownership rules of a complete index: every platform fallback name is
/// owned by its surface or by a service; platform targets sit only on their
/// own names; a service has at most one primary exact claim, and exactly one
/// once it claims anything; wildcards are non-primary claims of named
/// services.
pub open spec fn spec_index_valid(m: Map<Seq<char>, DomainTarget>, w: Map<Seq<char>, DomainTarget>) -> bool {
    &&& forall|n: Seq<char>| #[trigger] platform_surface(n) is Some ==> platform_fallback_ok(m, n)
    &&& forall|k: Seq<char>| #[trigger] m.contains_key(k) && m[k] is Platform ==> platform_surface(k) == Some(m[k]->surface)
    &&& forall|k1: Seq<char>, k2: Seq<char>, id: ProjectInstanceId, name: Seq<char>|
        m.contains_key(k1) && m.contains_key(k2) && #[trigger] is_primary_of(m[k1], id, name)
            && #[trigger] is_primary_of(m[k2], id, name) ==> k1 == k2
    &&& forall|k: Seq<char>| #[trigger] w.contains_key(k) ==> wildcard_target_ok(w[k])
    &&& forall|k: Seq<char>, id: ProjectInstanceId, name: Seq<char>|
        m.contains_key(k) && #[trigger] names_service(m[k], id, name) ==> has_primary(m, id, name)
    &&& forall|k: Seq<char>, id: ProjectInstanceId, name: Seq<char>|
        w.contains_key(k) && #[trigger] names_service(w[k], id, name) ==> has_primary(m, id, name)
}

/// The rendered patterns a replacement requests.
pub open spec fn requested_texts(d: Seq<DomainClaim>) -> Set<Seq<char>> {
    Set::new(|x: Seq<char>| exists|i: int| 0 <= i < d.len() && x == (#[trigger] d[i]).domain.spec_text())
}

proof fn lemma_requested_map_source(d: Seq<DomainClaim>, exact: bool, k: Seq<char>)
    requires
        requested_map(d, exact).contains_key(k),
    ensures
        exists|i: int|
            0 <= i < d.len() && ((#[trigger] d[i]).domain is Exact) == exact && d[i].domain.spec_domain()@ == k
                && d[i].target == requested_map(d, exact)[k],
    decreases d.len(),
{
    let rest = requested_map(d.drop_last(), exact);
    let last = d.last();
    if (last.domain is Exact) == exact && last.domain.spec_domain()@ == k {
        assert(d[d.len() - 1] == last);
    } else {
        lemma_requested_map_source(d.drop_last(), exact, k);
        let i = choose|i: int|
            0 <= i < d.drop_last().len() && ((#[trigger] d.drop_last()[i]).domain is Exact) == exact
                && d.drop_last()[i].domain.spec_domain()@ == k && d.drop_last()[i].target == rest[k];
        assert(d[i] == d.drop_last()[i]);
    }
}

proof fn lemma_requested_map_holds(d: Seq<DomainClaim>, i: int)
    requires
        0 <= i < d.len(),
    ensures
        requested_map(d, d[i].domain is Exact).contains_key(d[i].domain.spec_domain()@),
    decreases d.len(),
{
    if i < d.len() - 1 {
        lemma_requested_map_holds(d.drop_last(), i);
        assert(d.drop_last()[i] == d[i]);
    }
}

/// An accepted replacement leaves a valid index; the instance then holds
/// exactly the patterns it asked for, and every other instance keeps exactly
/// the patterns it held.
pub proof fn lemma_accepted_replacement(
    m: Map<Seq<char>, DomainTarget>,
    w: Map<Seq<char>, DomainTarget>,
    instance_id: ProjectInstanceId,
    d: Seq<DomainClaim>,
    other: ProjectInstanceId,
)
    requires
        replacement_accepted(m, w, instance_id, d),
    ensures
        spec_index_valid(replaced_exact(m, instance_id, d), replaced_wildcards(w, instance_id, d)),
        spec_instance_domains(replaced_exact(m, instance_id, d), replaced_wildcards(w, instance_id, d), instance_id)
            == requested_texts(d),
        other != instance_id ==> spec_instance_domains(
            replaced_exact(m, instance_id, d),
            replaced_wildcards(w, instance_id, d),
            other,
        ) == spec_instance_domains(m, w, other),
{
    let e = replaced_exact(m, instance_id, d);
    let x = replaced_wildcards(w, instance_id, d);
    let re = requested_map(d, true);
    let rw = requested_map(d, false);
    assert forall|k: Seq<char>| #[trigger] re.contains_key(k) implies owned_by(re[k], instance_id) by {
        lemma_requested_map_source(d, true, k);
        let i = choose|i: int|
            0 <= i < d.len() && ((#[trigger] d[i]).domain is Exact) == true && d[i].domain.spec_domain()@ == k
                && d[i].target == re[k];
        assert(!claim_rejected(d, instance_id, i));
    }
    assert forall|k: Seq<char>| #[trigger] rw.contains_key(k) implies owned_by(rw[k], instance_id) by {
        lemma_requested_map_source(d, false, k);
        let i = choose|i: int|
            0 <= i < d.len() && ((#[trigger] d[i]).domain is Exact) == false && d[i].domain.spec_domain()@ == k
                && d[i].target == rw[k];
        assert(!claim_rejected(d, instance_id, i));
    }
    // The instance's own patterns.
    let mine = spec_instance_domains(e, x, instance_id);
    assert forall|t: Seq<char>| mine.contains(t) implies requested_texts(d).contains(t) by {
        if exists|k: Seq<char>| e.contains_key(k) && owned_by(e[k], instance_id) && t == k {
            let k = choose|k: Seq<char>| e.contains_key(k) && owned_by(e[k], instance_id) && t == k;
            if !re.contains_key(k) {
                assert(e[k] == base_exact(m, instance_id)[k]);
                assert(false);
            }
            lemma_requested_map_source(d, true, k);
            let i = choose|i: int|
                0 <= i < d.len() && ((#[trigger] d[i]).domain is Exact) == true && d[i].domain.spec_domain()@ == k
                    && d[i].target == re[k];
            assert(t == d[i].domain.spec_text());
        } else {
            let k = choose|k: Seq<char>| x.contains_key(k) && owned_by(x[k], instance_id) && t == "*."@ + k;
            if !rw.contains_key(k) {
                assert(x[k] == without_instance(w, instance_id)[k]);
                assert(false);
            }
            lemma_requested_map_source(d, false, k);
            let i = choose|i: int|
                0 <= i < d.len() && ((#[trigger] d[i]).domain is Exact) == false && d[i].domain.spec_domain()@ == k
                    && d[i].target == rw[k];
            assert(t == d[i].domain.spec_text());
        }
    }
    assert forall|t: Seq<char>| requested_texts(d).contains(t) implies mine.contains(t) by {
        let i = choose|i: int| 0 <= i < d.len() && t == (#[trigger] d[i]).domain.spec_text();
        lemma_requested_map_holds(d, i);
        let k = d[i].domain.spec_domain()@;
        if d[i].domain is Exact {
            assert(e.contains_key(k) && e[k] == re[k]);
            assert(owned_by(e[k], instance_id));
        } else {
            assert(x.contains_key(k) && x[k] == rw[k]);
            assert(owned_by(x[k], instance_id));
            assert(t == "*."@ + k);
        }
    }
    assert(mine =~= requested_texts(d));
    if other != instance_id {
        let after = spec_instance_domains(e, x, other);
        let before = spec_instance_domains(m, w, other);
        assert forall|t: Seq<char>| after.contains(t) implies before.contains(t) by {
            if exists|k: Seq<char>| e.contains_key(k) && owned_by(e[k], other) && t == k {
                let k = choose|k: Seq<char>| e.contains_key(k) && owned_by(e[k], other) && t == k;
                if re.contains_key(k) {
                    assert(false);
                }
                assert(e[k] == base_exact(m, instance_id)[k]);
                if without_instance(m, instance_id).contains_key(k) {
                    assert(m.contains_key(k) && m[k] == e[k]);
                } else {
                    assert(e[k] == platform_map()[k]);
                    assert(false);
                }
            } else {
                let k = choose|k: Seq<char>| x.contains_key(k) && owned_by(x[k], other) && t == "*."@ + k;
                if rw.contains_key(k) {
                    assert(false);
                }
                assert(x[k] == without_instance(w, instance_id)[k]);
                assert(w.contains_key(k) && w[k] == x[k]);
            }
        }
        assert forall|t: Seq<char>| before.contains(t) implies after.contains(t) by {
            if exists|k: Seq<char>| m.contains_key(k) && owned_by(m[k], other) && t == k {
                let k = choose|k: Seq<char>| m.contains_key(k) && owned_by(m[k], other) && t == k;
                assert(without_instance(m, instance_id).contains_key(k));
                if re.contains_key(k) {
                    assert(exact_conflict(base_exact(m, instance_id), k));
                    assert(false);
                }
                assert(e.contains_key(k) && e[k] == m[k]);
            } else {
                let k = choose|k: Seq<char>| w.contains_key(k) && owned_by(w[k], other) && t == "*."@ + k;
                assert(without_instance(w, instance_id).contains_key(k));
                if rw.contains_key(k) {
                    assert(false);
                }
                assert(x.contains_key(k) && x[k] == w[k]);
            }
        }
        assert(after =~= before);
    }
}

/// The index of only the platform fallback names is valid.
pub proof fn lemma_platform_index_valid()
    ensures
        spec_index_valid(platform_map(), Map::<Seq<char>, DomainTarget>::empty()),
{
}

/// The rule a validation error reports is broken by the index.
pub open spec fn validation_error_explains(e: DomainError, m: Map<Seq<char>, DomainTarget>, w: Map<Seq<char>, DomainTarget>) -> bool {
    match e {
        DomainError::MissingPlatformDomain { domain } => platform_surface(domain@) is Some && !m.contains_key(domain@),
        DomainError::Conflict { domain, existing, requested } => domain is Exact
            && platform_surface(domain.spec_domain()@) is Some
            && *existing == (DomainTarget::Platform { surface: platform_surface(domain.spec_domain()@)->0 })
            && m.contains_key(domain.spec_domain()@) && m[domain.spec_domain()@] == *requested
            && !platform_fallback_ok(m, domain.spec_domain()@),
        DomainError::UnexpectedPlatformDomain { domain, surface } => m.contains_key(domain@)
            && m[domain@] == (DomainTarget::Platform { surface }) && platform_surface(domain@) != Some(surface),
        DomainError::PrimaryDomainConflict { service_name, existing_domain, instance_id, requested_domain } =>
            existing_domain@ != requested_domain@
            && m.contains_key(existing_domain@) && is_primary_of(m[existing_domain@], instance_id, service_name@)
            && m.contains_key(requested_domain@) && is_primary_of(m[requested_domain@], instance_id, service_name@),
        DomainError::WildcardPlatformDomain { domain } => domain is Wildcard && w.contains_key(domain.spec_domain()@)
            && w[domain.spec_domain()@] is Platform,
        DomainError::WildcardLegacyDomain { domain } => domain is Wildcard && w.contains_key(domain.spec_domain()@)
            && (w[domain.spec_domain()@] matches DomainTarget::Service { service_name: None, .. }),
        DomainError::WildcardPrimaryDomain { domain } => domain is Wildcard && w.contains_key(domain.spec_domain()@)
            && (w[domain.spec_domain()@] matches DomainTarget::Service { service_name: Some(_), primary: true, .. }),
        DomainError::MissingPrimaryDomain { service_name, instance_id } =>
            ((exists|k: Seq<char>| m.contains_key(k) && names_service(m[k], instance_id, service_name@))
                || (exists|k: Seq<char>| w.contains_key(k) && names_service(w[k], instance_id, service_name@)))
            && !has_primary(m, instance_id, service_name@),
        _ => false,
    }
}

/// Whether a target is the primary claim of one instance service.
pub open spec fn is_primary_of(t: DomainTarget, instance_id: ProjectInstanceId, service_name: Seq<char>) -> bool {
    match t {
        DomainTarget::Service { project_instance_id, service_name: Some(n), primary } =>
            primary && project_instance_id == instance_id && n@ == service_name,
        _ => false,
    }
}

fn target_is_primary_of(t: &DomainTarget, instance_id: ProjectInstanceId, service_name: &[char]) -> (r: bool)
    ensures
        r == is_primary_of(*t, instance_id, service_name@),
{
    match t {
        DomainTarget::Service { project_instance_id, service_name: Some(n), primary } => {
            if !*primary || *project_instance_id != instance_id {
                return false;
            }
            let chars = str_chars(n.as_str());
            compare_chars(chars.as_slice(), service_name) == 0
        },
        _ => false,
    }
}

/// Whether `v` ends with the literal `suffix`.
pub(crate) fn chars_end_with(v: &[char], suffix: &str) -> (r: bool)
    ensures
        r == ends_with(v@, suffix@),
{
    let s = str_chars(suffix);
    if s.len() > v.len() {
        return false;
    }
    let tail = slice_chars(v, v.len() - s.len(), v.len());
    compare_chars(tail.as_slice(), s.as_slice()) == 0
}

/// The position of a hostname's owner in an index.
enum OwnerIndex {
    Exact(usize),
    Wildcard(usize),
    Unowned,
}

proof fn lemma_keys_where_step(
    s: Seq<(Seq<char>, DomainTarget)>,
    p: spec_fn(Seq<char>, DomainTarget) -> bool,
    i: int,
)
    requires
        0 <= i < s.len(),
    ensures
        keys_where(s.take(i + 1), p) == if p(s[i].0, s[i].1) {
            keys_where(s.take(i), p).push(s[i].0)
        } else {
            keys_where(s.take(i), p)
        },
{
    assert(s.take(i + 1).drop_last() =~= s.take(i));
}

/// Hostnames in strictly ascending order.
pub open spec fn hostnames_ascending(s: Seq<Seq<char>>) -> bool {
    forall|i: int, j: int| 0 <= i < j < s.len() ==> lex_lt(#[trigger] s[i], #[trigger] s[j])
}

proof fn lemma_keys_where_below(
    s: Seq<(Seq<char>, DomainTarget)>,
    p: spec_fn(Seq<char>, DomainTarget) -> bool,
    b: Seq<char>,
)
    requires
        forall|k: int| 0 <= k < s.len() ==> lex_lt(#[trigger] s[k].0, b),
    ensures
        forall|i: int| 0 <= i < keys_where(s, p).len() ==> lex_lt(#[trigger] keys_where(s, p)[i], b),
    decreases s.len(),
{
    if s.len() > 0 {
        let t = s.drop_last();
        assert forall|k: int| 0 <= k < t.len() implies lex_lt(#[trigger] t[k].0, b) by {
            assert(t[k] == s[k]);
        }
        lemma_keys_where_below(t, p, b);
        assert(lex_lt(s[s.len() - 1].0, b));
        let rest = keys_where(t, p);
        if p(s.last().0, s.last().1) {
            let kw = rest.push(s.last().0);
            assert(keys_where(s, p) == kw);
            assert forall|i: int| 0 <= i < kw.len() implies lex_lt(#[trigger] kw[i], b) by {
                if i < rest.len() {
                    assert(kw[i] == rest[i]);
                }
            }
        } else {
            assert(keys_where(s, p) == rest);
        }
    }
}

/// The keys a filter keeps from a table in key order are in key order.
proof fn lemma_keys_where_ascending(s: Seq<(Seq<char>, DomainTarget)>, p: spec_fn(Seq<char>, DomainTarget) -> bool)
    requires
        sorted_keys(s),
    ensures
        hostnames_ascending(keys_where(s, p)),
    decreases s.len(),
{
    if s.len() > 0 {
        let t = s.drop_last();
        let last = s.last().0;
        assert forall|i: int, j: int| 0 <= i < j < t.len() implies lex_lt(t[i].0, t[j].0) by {
            assert(t[i] == s[i] && t[j] == s[j]);
        }
        lemma_keys_where_ascending(t, p);
        assert forall|k: int| 0 <= k < t.len() implies lex_lt(#[trigger] t[k].0, last) by {
            assert(t[k] == s[k]);
        }
        lemma_keys_where_below(t, p, last);
        let rest = keys_where(t, p);
        if p(last, s.last().1) {
            let kw = rest.push(last);
            assert forall|i: int, j: int| 0 <= i < j < kw.len() implies lex_lt(#[trigger] kw[i], #[trigger] kw[j]) by {
                if j < rest.len() {
                    assert(kw[i] == rest[i] && kw[j] == rest[j]);
                } else {
                    assert(kw[i] == rest[i]);
                }
            }
        }
    }
}

proof fn lemma_keys_where_source(s: Seq<(Seq<char>, DomainTarget)>, p: spec_fn(Seq<char>, DomainTarget) -> bool, n: int) -> (e: int)
    requires
        0 <= n < keys_where(s, p).len(),
    ensures
        0 <= e < s.len(),
        s[e].0 == keys_where(s, p)[n],
        p(s[e].0, s[e].1),
    decreases s.len(),
{
    let t = s.drop_last();
    let rt = keys_where(t, p);
    if n < rt.len() {
        let e = lemma_keys_where_source(t, p, n);
        assert(s[e] == t[e]);
        e
    } else {
        s.len() - 1
    }
}

proof fn lemma_keys_where_includes(s: Seq<(Seq<char>, DomainTarget)>, p: spec_fn(Seq<char>, DomainTarget) -> bool, e: int) -> (n: int)
    requires
        0 <= e < s.len(),
        p(s[e].0, s[e].1),
    ensures
        0 <= n < keys_where(s, p).len(),
        keys_where(s, p)[n] == s[e].0,
    decreases s.len(),
{
    let t = s.drop_last();
    if e < s.len() - 1 {
        assert(t[e] == s[e]);
        let n = lemma_keys_where_includes(t, p, e);
        assert(keys_where(s, p)[n] == keys_where(t, p)[n]);
        n
    } else {
        keys_where(s, p).len() - 1
    }
}

fn clone_table(v: &Vec<(DomainName, DomainTarget)>) -> (r: Vec<(DomainName, DomainTarget)>)
    ensures
        r@ == v@,
{
    let mut out: Vec<(DomainName, DomainTarget)> = Vec::new();
    let mut i: usize = 0;
    while i < v.len()
        invariant
            i <= v@.len(),
            out@ == v@.take(i as int),
        decreases v@.len() - i,
    {
        out.push((v[i].0.clone(), v[i].1.clone()));
        i = i + 1;
        assert(out@ =~= v@.take(i as int));
    }
    assert(v@.take(v@.len() as int) =~= v@);
    out
}

impl Clone for DomainIndex {
    fn clone(&self) -> (r: Self)
        ensures
            r.exact_entries() == self.exact_entries(),
            r.wildcard_entries() == self.wildcard_entries(),
            r.exact_map() == self.exact_map(),
            r.wildcard_map() == self.wildcard_map(),
    {
        proof {
            use_type_invariant(self);
        }
        DomainIndex { claims: clone_table(&self.claims), wildcard_claims: clone_table(&self.wildcard_claims) }
    }
}

impl Default for DomainIndex {
    /// The index holding only the platform fallback names.
    fn default() -> (r: Self)
        ensures
            r.exact_map() == platform_map(),
            r.wildcard_map() == Map::<Seq<char>, DomainTarget>::empty(),
    {
        DomainIndex::new()
    }
}

/// An invalid domain claim or ownership conflict.
#[derive(Debug)]
pub enum DomainError {
    InvalidName { value: String, reason: String },
    Conflict { domain: DomainPattern, existing: Box<DomainTarget>, requested: Box<DomainTarget> },
    WrongInstance { expected: ProjectInstanceId, actual: ProjectInstanceId, domain: DomainPattern },
    PlatformReplacement { instance_id: ProjectInstanceId, domain: DomainPattern },
    MissingPlatformDomain { domain: DomainName },
    UnexpectedPlatformDomain { domain: DomainName, surface: PlatformDomain },
    PrimaryDomainConflict {
        service_name: String,
        existing_domain: DomainName,
        instance_id: ProjectInstanceId,
        requested_domain: DomainName,
    },
    MissingPrimaryDomain { service_name: String, instance_id: ProjectInstanceId },
    WildcardPlatformDomain { domain: DomainPattern },
    WildcardLegacyDomain { domain: DomainPattern },
    WildcardPrimaryDomain { domain: DomainPattern },
}

} // verus!
