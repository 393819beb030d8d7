//! locald's generated section of the system hosts file.
//!
//! The section is the run of lines from a line `# BEGIN locald` through the
//! next line `# END locald`. Its `127.0.0.1` lines map loopback to the
//! managed hostnames; every other line of the file belongs to the user.

use crate::text::{ascii_lower_seq, char_ascii_lower, ends_with, push_char, push_str, str_chars};
use vstd::prelude::*;

verus! {

/// Historical macOS platform aliases retained for explicit migrations.
///
/// Canonical platform domains use `.localhost`. Daemon synchronization omits
/// these spellings when they are platform fallbacks, while preserving an
/// identically named service-owned claim.
pub const LEGACY_MACOS_HOST_ALIASES: [&'static str; 4] = ["dev.docs.local", "dev.locald.local", "docs.local", "locald.local"];

/// A hosts file whose generated section cannot be rewritten safely.
#[derive(Debug, Clone, PartialEq, Eq)]
pub enum HostsContentError {
    MalformedSection(String),
}

/// The diagnostic for a section that is opened but never closed.
pub open spec fn unclosed_section_message() -> Seq<char> {
    "locald hosts section is missing its `# END locald` marker"@
}

/// The characters a line ends at.
pub open spec fn split_step(acc: (Seq<Seq<char>>, Seq<char>), c: char) -> (Seq<Seq<char>>, Seq<char>) {
    if c == '\n' {
        (acc.0.push(acc.1), Seq::empty())
    } else {
        (acc.0, acc.1.push(c))
    }
}

/// Completed lines and the unterminated tail of `s`.
pub open spec fn split_acc(s: Seq<char>) -> (Seq<Seq<char>>, Seq<char>)
    decreases s.len(),
{
    if s.len() == 0 {
        (Seq::empty(), Seq::empty())
    } else {
        split_step(split_acc(s.drop_last()), s.last())
    }
}

/// The lines of a text, without their newlines; a final unterminated line counts.
pub open spec fn lines_of(s: Seq<char>) -> Seq<Seq<char>> {
    let (done, tail) = split_acc(s);
    if tail.len() > 0 {
        done.push(tail)
    } else {
        done
    }
}

/// Lines joined back with a newline after each.
pub open spec fn join_lines(lines: Seq<Seq<char>>) -> Seq<char>
    decreases lines.len(),
{
    if lines.len() == 0 {
        Seq::empty()
    } else {
        join_lines(lines.drop_last()) + lines.last() + seq!['\n']
    }
}

/// The index of the first line equal to `marker` at or after `from`, or the
/// number of lines.
pub open spec fn find_line(lines: Seq<Seq<char>>, marker: Seq<char>, from: int) -> int
    decreases lines.len() - from,
{
    if from >= lines.len() {
        lines.len() as int
    } else if lines[from] == marker {
        from
    } else {
        find_line(lines, marker, from + 1)
    }
}

/// Where the section opens.
pub open spec fn section_begin(lines: Seq<Seq<char>>) -> int {
    find_line(lines, "# BEGIN locald"@, 0)
}

/// Where the section closes.
pub open spec fn section_end(lines: Seq<Seq<char>>) -> int {
    find_line(lines, "# END locald"@, section_begin(lines) + 1)
}

/// Whether a section is opened but never closed.
pub open spec fn section_unclosed(lines: Seq<Seq<char>>) -> bool {
    section_begin(lines) < lines.len() && section_end(lines) == lines.len()
}

/// The lines inside the section, markers excluded; none without a section.
pub open spec fn section_body(lines: Seq<Seq<char>>) -> Seq<Seq<char>> {
    if section_begin(lines) < lines.len() {
        lines.subrange(section_begin(lines) + 1, section_end(lines))
    } else {
        Seq::empty()
    }
}

/// The user's lines: everything outside the section.
pub open spec fn outside_section(lines: Seq<Seq<char>>) -> Seq<Seq<char>> {
    if section_begin(lines) < lines.len() {
        lines.subrange(0, section_begin(lines)) + lines.subrange(section_end(lines) + 1, lines.len() as int)
    } else {
        lines
    }
}

/// Whether `c` separates the fields of a hosts line.
pub open spec fn is_field_space(c: char) -> bool {
    c == ' ' || c == '\t' || c == '\r'
}

/// Completed fields and the field being read.
pub open spec fn fields_acc(s: Seq<char>) -> (Seq<Seq<char>>, Seq<char>)
    decreases s.len(),
{
    if s.len() == 0 {
        (Seq::empty(), Seq::empty())
    } else {
        let (done, cur) = fields_acc(s.drop_last());
        if is_field_space(s.last()) {
            if cur.len() > 0 {
                (done.push(cur), Seq::empty())
            } else {
                (done, cur)
            }
        } else {
            (done, cur.push(s.last()))
        }
    }
}

/// The whitespace-separated fields of a line.
pub open spec fn fields_of(line: Seq<char>) -> Seq<Seq<char>> {
    let (done, cur) = fields_acc(line);
    if cur.len() > 0 {
        done.push(cur)
    } else {
        done
    }
}

/// The hostnames a section line maps to IPv4 loopback.
pub open spec fn loopback_hosts(line: Seq<char>) -> Seq<Seq<char>> {
    let f = fields_of(line);
    if f.len() > 0 && f[0] == "127.0.0.1"@ {
        f.drop_first()
    } else {
        Seq::empty()
    }
}

/// The hostnames of several section lines, in order.
pub open spec fn hosts_of_lines(lines: Seq<Seq<char>>) -> Seq<Seq<char>>
    decreases lines.len(),
{
    if lines.len() == 0 {
        Seq::empty()
    } else {
        hosts_of_lines(lines.drop_last()) + loopback_hosts(lines.last())
    }
}

/// The hostnames the section manages, in file order.
pub open spec fn managed_hosts(content: Seq<char>) -> Seq<Seq<char>> {
    hosts_of_lines(section_body(lines_of(content)))
}

/// The section for a set of hostnames: one loopback line per name.
pub open spec fn section_lines(domains: Seq<Seq<char>>) -> Seq<Seq<char>> {
    seq!["# BEGIN locald"@] + domains.map_values(|d: Seq<char>| "127.0.0.1 "@ + d) + seq!["# END locald"@]
}

/// The file with its section replaced: the user's lines, then the section
/// for `domains`, which is left out entirely when there are none.
pub open spec fn spec_updated_content(content: Seq<char>, domains: Seq<Seq<char>>) -> Seq<char> {
    let kept = outside_section(lines_of(content));
    if domains.len() == 0 {
        join_lines(kept)
    } else {
        join_lines(kept + section_lines(domains))
    }
}

/// Strings by their characters.
pub open spec fn string_texts(v: Seq<String>) -> Seq<Seq<char>> {
    v.map_values(|s: String| s@)
}

fn split_lines(content: &str) -> (r: Vec<Vec<char>>)
    ensures
        r@.map_values(|l: Vec<char>| l@) == lines_of(content@),
{
    let chars = str_chars(content);
    let mut done: Vec<Vec<char>> = Vec::new();
    let mut cur: Vec<char> = Vec::new();
    let mut i: usize = 0;
    proof {
        assert(chars@.take(0) =~= Seq::<char>::empty());
        assert(done@.map_values(|l: Vec<char>| l@) =~= Seq::<Seq<char>>::empty());
    }
    while i < chars.len()
        invariant
            i <= chars@.len(),
            chars@ == content@,
            (done@.map_values(|l: Vec<char>| l@), cur@) == split_acc(chars@.take(i as int)),
        decreases chars@.len() - i,
    {
        proof {
            assert(chars@.take(i + 1).drop_last() =~= chars@.take(i as int));
            assert(chars@.take(i + 1).last() == chars@[i as int]);
        }
        let ghost before = done@.map_values(|l: Vec<char>| l@);
        if chars[i] == '\n' {
            let line = cur;
            cur = Vec::new();
            done.push(line);
            proof {
                assert(done@.map_values(|l: Vec<char>| l@) =~= before.push(done@[done@.len() - 1]@));
            }
        } else {
            cur.push(chars[i]);
            proof {
                assert(done@.map_values(|l: Vec<char>| l@) =~= before);
            }
        }
        i = i + 1;
    }
    proof {
        assert(chars@.take(chars@.len() as int) =~= chars@);
    }
    if cur.len() > 0 {
        let ghost before = done@.map_values(|l: Vec<char>| l@);
        done.push(cur);
        proof {
            assert(done@.map_values(|l: Vec<char>| l@) =~= before.push(done@[done@.len() - 1]@));
        }
    }
    done
}

fn line_is(line: &Vec<char>, marker: &str) -> (r: bool)
    ensures
        r == (line@ == marker@),
{
    let m = str_chars(marker);
    crate::text::compare_chars(line.as_slice(), m.as_slice()) == 0
}

fn find_line_exec(lines: &Vec<Vec<char>>, marker: &str, from: usize) -> (r: usize)
    requires
        from <= lines@.len(),
    ensures
        r as int == find_line(lines@.map_values(|l: Vec<char>| l@), marker@, from as int),
        from <= r <= lines@.len(),
    decreases lines@.len() - from,
{
    let ghost ls = lines@.map_values(|l: Vec<char>| l@);
    if from >= lines.len() {
        return lines.len();
    }
    if line_is(&lines[from], marker) {
        assert(ls[from as int] == lines@[from as int]@);
        return from;
    }
    assert(ls[from as int] == lines@[from as int]@);
    find_line_exec(lines, marker, from + 1)
}

fn line_fields(line: &Vec<char>) -> (r: Vec<Vec<char>>)
    ensures
        r@.map_values(|f: Vec<char>| f@) == fields_of(line@),
{
    let mut done: Vec<Vec<char>> = Vec::new();
    let mut cur: Vec<char> = Vec::new();
    let mut i: usize = 0;
    proof {
        assert(line@.take(0) =~= Seq::<char>::empty());
        assert(done@.map_values(|l: Vec<char>| l@) =~= Seq::<Seq<char>>::empty());
    }
    while i < line.len()
        invariant
            i <= line@.len(),
            (done@.map_values(|l: Vec<char>| l@), cur@) == fields_acc(line@.take(i as int)),
        decreases line@.len() - i,
    {
        proof {
            assert(line@.take(i + 1).drop_last() =~= line@.take(i as int));
            assert(line@.take(i + 1).last() == line@[i as int]);
        }
        let c = line[i];
        let ghost before = done@.map_values(|l: Vec<char>| l@);
        if c == ' ' || c == '\t' || c == '\r' {
            if cur.len() > 0 {
                let f = cur;
                cur = Vec::new();
                done.push(f);
                proof {
                    assert(done@.map_values(|l: Vec<char>| l@) =~= before.push(done@[done@.len() - 1]@));
                }
            }
        } else {
            cur.push(c);
            proof {
                assert(done@.map_values(|l: Vec<char>| l@) =~= before);
            }
        }
        i = i + 1;
    }
    proof {
        assert(line@.take(line@.len() as int) =~= line@);
    }
    if cur.len() > 0 {
        let ghost before = done@.map_values(|l: Vec<char>| l@);
        done.push(cur);
        proof {
            assert(done@.map_values(|l: Vec<char>| l@) =~= before.push(done@[done@.len() - 1]@));
        }
    }
    done
}

/// The hostnames locald's section manages, in file order.
pub fn managed_host_set(content: &str) -> (r: Result<Vec<String>, HostsContentError>)
    ensures
        match r {
            Ok(v) => !section_unclosed(lines_of(content@)) && string_texts(v@) == managed_hosts(content@),
            Err(HostsContentError::MalformedSection(m)) => section_unclosed(lines_of(content@)) && m@
                == unclosed_section_message(),
        },
{
    let lines = split_lines(content);
    let ghost ls = lines@.map_values(|l: Vec<char>| l@);
    let begin = find_line_exec(&lines, "# BEGIN locald", 0);
    if begin == lines.len() {
        let v: Vec<String> = Vec::new();
        proof {
            assert(section_body(ls) =~= Seq::<Seq<char>>::empty());
            assert(string_texts(v@) =~= Seq::<Seq<char>>::empty());
        }
        return Ok(v);
    }
    let end = find_line_exec(&lines, "# END locald", begin + 1);
    if end == lines.len() {
        return Err(HostsContentError::MalformedSection(
            String::from_str("locald hosts section is missing its `# END locald` marker"),
        ));
    }
    proof {
        lemma_find_line_bounds(ls, "# END locald"@, begin + 1);
    }
    let ghost body = ls.subrange(begin + 1, end as int);
    let mut out: Vec<String> = Vec::new();
    let mut i: usize = begin + 1;
    proof {
        assert(body.take(0) =~= Seq::<Seq<char>>::empty());
        assert(string_texts(out@) =~= Seq::<Seq<char>>::empty());
    }
    while i < end
        invariant
            begin + 1 <= i <= end < lines@.len(),
            ls == lines@.map_values(|l: Vec<char>| l@),
            body == ls.subrange(begin + 1, end as int),
            string_texts(out@) == hosts_of_lines(body.take(i - begin - 1)),
        decreases end - i,
    {
        proof {
            assert(body.take(i - begin) .drop_last() =~= body.take(i - begin - 1));
            assert(body.take(i - begin).last() == lines@[i as int]@);
        }
        let fields = line_fields(&lines[i]);
        let ghost fv = fields@.map_values(|f: Vec<char>| f@);
        if fields.len() > 0 && line_is(&fields[0], "127.0.0.1") {
            proof {
                assert(fv[0] == fields@[0]@);
            }
            let mut j: usize = 1;
            let ghost before = string_texts(out@);
            while j < fields.len()
                invariant
                    1 <= j <= fields@.len(),
                    fv == fields@.map_values(|f: Vec<char>| f@),
                    string_texts(out@) == before + fv.subrange(1, j as int),
                decreases fields@.len() - j,
            {
                let host = crate::text::chars_to_string(fields[j].as_slice());
                let ghost prev = string_texts(out@);
                out.push(host);
                proof {
                    assert(fv[j as int] == fields@[j as int]@);
                    assert(string_texts(out@) =~= prev.push(fields@[j as int]@));
                    assert(string_texts(out@) =~= before + fv.subrange(1, j + 1));
                }
                j = j + 1;
            }
            proof {
                assert(fv.subrange(1, fv.len() as int) =~= fv.drop_first());
            }
        } else {
            proof {
                if fields@.len() > 0 {
                    assert(fv[0] == fields@[0]@);
                }
                assert(loopback_hosts(lines@[i as int]@) =~= Seq::<Seq<char>>::empty());
                assert(hosts_of_lines(body.take(i - begin - 1)) + Seq::<Seq<char>>::empty() =~= hosts_of_lines(body.take(i - begin - 1)));
            }
        }
        i = i + 1;
    }
    proof {
        assert(body.take(end - begin - 1) =~= body);
    }
    Ok(out)
}

proof fn lemma_find_line_bounds(lines: Seq<Seq<char>>, marker: Seq<char>, from: int)
    requires
        0 <= from,
    ensures
        from <= find_line(lines, marker, from) || find_line(lines, marker, from) == lines.len(),
        find_line(lines, marker, from) <= lines.len() || from > lines.len(),
    decreases lines.len() - from,
{
    if from < lines.len() && lines[from] != marker {
        lemma_find_line_bounds(lines, marker, from + 1);
    }
}


fn push_line(out: &mut String, line: &[char])
    ensures
        final(out)@ == old(out)@ + line@ + seq!['\n'],
{
    let ghost o = out@;
    let mut i: usize = 0;
    while i < line.len()
        invariant
            i <= line@.len(),
            out@ == o + line@.subrange(0, i as int),
        decreases line@.len() - i,
    {
        push_char(out, line[i]);
        i = i + 1;
        assert(out@ =~= o + line@.subrange(0, i as int));
    }
    push_char(out, '\n');
    assert(line@.subrange(0, line@.len() as int) =~= line@);
    assert(out@ =~= o + line@ + seq!['\n']);
}

proof fn lemma_join_push(a: Seq<Seq<char>>, x: Seq<char>)
    ensures
        join_lines(a.push(x)) == join_lines(a) + x + seq!['\n'],
{
    assert(a.push(x).drop_last() =~= a);
}

/// Rewrite the file with locald's section holding exactly `domains`.
///
/// The user's lines keep their order; the section is written after them and
/// left out when `domains` is empty. A section that is opened but never
/// closed is refused rather than rewritten.
pub fn update_hosts_content(content: &str, domains: &[String]) -> (r: Result<String, HostsContentError>)
    ensures
        match r {
            Ok(s) => !section_unclosed(lines_of(content@)) && s@ == spec_updated_content(content@, string_texts(domains@)),
            Err(HostsContentError::MalformedSection(m)) => section_unclosed(lines_of(content@)) && m@
                == unclosed_section_message(),
        },
{
    let lines = split_lines(content);
    let ghost ls = lines@.map_values(|l: Vec<char>| l@);
    let begin = find_line_exec(&lines, "# BEGIN locald", 0);
    let mut end = lines.len();
    if begin < lines.len() {
        end = find_line_exec(&lines, "# END locald", begin + 1);
        if end == lines.len() {
            return Err(HostsContentError::MalformedSection(
                String::from_str("locald hosts section is missing its `# END locald` marker"),
            ));
        }
    }
    let ghost kept = outside_section(ls);
    let mut out = String::new();
    let mut i: usize = 0;
    proof {
        assert(ls.subrange(0, 0) =~= Seq::<Seq<char>>::empty());
    }
    while i < begin
        invariant
            i <= begin <= lines@.len(),
            ls == lines@.map_values(|l: Vec<char>| l@),
            out@ == join_lines(ls.subrange(0, i as int)),
        decreases begin - i,
    {
        push_line(&mut out, lines[i].as_slice());
        proof {
            assert(ls.subrange(0, i + 1) =~= ls.subrange(0, i as int).push(ls[i as int]));
            lemma_join_push(ls.subrange(0, i as int), ls[i as int]);
        }
        i = i + 1;
    }
    if begin < lines.len() {
        let mut k: usize = end + 1;
        proof {
            assert(ls.subrange(0, begin as int) + ls.subrange(end + 1, end + 1) =~= ls.subrange(0, begin as int));
        }
        while k < lines.len()
            invariant
                begin < end < k <= lines@.len() || (begin < end && k == end + 1 && k <= lines@.len()),
                ls == lines@.map_values(|l: Vec<char>| l@),
                out@ == join_lines(ls.subrange(0, begin as int) + ls.subrange(end + 1, k as int)),
            decreases lines@.len() - k,
        {
            push_line(&mut out, lines[k].as_slice());
            proof {
                let a = ls.subrange(0, begin as int) + ls.subrange(end + 1, k as int);
                assert(ls.subrange(0, begin as int) + ls.subrange(end + 1, k + 1) =~= a.push(ls[k as int]));
                lemma_join_push(a, ls[k as int]);
            }
            k = k + 1;
        }
        proof {
            assert(kept == ls.subrange(0, begin as int) + ls.subrange(end + 1, lines@.len() as int));
        }
    } else {
        proof {
            assert(ls.subrange(0, begin as int) =~= ls);
        }
    }
    assert(out@ == join_lines(kept));
    if domains.len() == 0 {
        return Ok(out);
    }
    let ghost ds = string_texts(domains@);
    let ghost head = kept + seq!["# BEGIN locald"@];
    let begin_marker = str_chars("# BEGIN locald");
    push_line(&mut out, begin_marker.as_slice());
    proof {
        lemma_join_push(kept, "# BEGIN locald"@);
        assert(head =~= kept.push("# BEGIN locald"@));
        assert(ds.take(0).map_values(|d: Seq<char>| "127.0.0.1 "@ + d) =~= Seq::<Seq<char>>::empty());
        assert(head + ds.take(0).map_values(|d: Seq<char>| "127.0.0.1 "@ + d) =~= head);
    }
    let mut j: usize = 0;
    while j < domains.len()
        invariant
            j <= domains@.len(),
            ds == string_texts(domains@),
            out@ == join_lines(head + ds.take(j as int).map_values(|d: Seq<char>| "127.0.0.1 "@ + d)),
        decreases domains@.len() - j,
    {
        let mut line = str_chars("127.0.0.1 ");
        let d = str_chars(domains[j].as_str());
        let mut m: usize = 0;
        let ghost l0 = line@;
        while m < d.len()
            invariant
                m <= d@.len(),
                line@ == l0 + d@.subrange(0, m as int),
            decreases d@.len() - m,
        {
            line.push(d[m]);
            m = m + 1;
            assert(line@ =~= l0 + d@.subrange(0, m as int));
        }
        proof {
            assert(d@.subrange(0, d@.len() as int) =~= d@);
        }
        push_line(&mut out, line.as_slice());
        proof {
            let a = head + ds.take(j as int).map_values(|x: Seq<char>| "127.0.0.1 "@ + x);
            assert(ds[j as int] == domains@[j as int]@);
            assert(head + ds.take(j + 1).map_values(|x: Seq<char>| "127.0.0.1 "@ + x) =~= a.push("127.0.0.1 "@ + ds[j as int]));
            lemma_join_push(a, "127.0.0.1 "@ + ds[j as int]);
        }
        j = j + 1;
    }
    let end_marker = str_chars("# END locald");
    push_line(&mut out, end_marker.as_slice());
    proof {
        let a = head + ds.take(ds.len() as int).map_values(|x: Seq<char>| "127.0.0.1 "@ + x);
        lemma_join_push(a, "# END locald"@);
        assert(ds.take(ds.len() as int) =~= ds);
        assert(a.push("# END locald"@) =~= kept + section_lines(ds));
    }
    Ok(out)
}

/// The hostnames without those `remove` selects, in order.
pub open spec fn retained_hosts(hosts: Seq<Seq<char>>, remove: spec_fn(Seq<char>) -> bool) -> Seq<Seq<char>>
    decreases hosts.len(),
{
    if hosts.len() == 0 {
        hosts
    } else if remove(hosts.last()) {
        retained_hosts(hosts.drop_last(), remove)
    } else {
        retained_hosts(hosts.drop_last(), remove).push(hosts.last())
    }
}

/// The file after removing the selected hostnames from the section: the
/// file unchanged when none is managed, else rewritten with the rest.
pub open spec fn spec_removed_content(content: Seq<char>, remove: spec_fn(Seq<char>) -> bool) -> Seq<char> {
    let managed = managed_hosts(content);
    let retained = retained_hosts(managed, remove);
    if retained.len() == managed.len() {
        content
    } else {
        spec_updated_content(content, retained)
    }
}

/// Whether a hostname is one of `names`.
pub open spec fn listed_in(names: Seq<Seq<char>>) -> spec_fn(Seq<char>) -> bool {
    |d: Seq<char>| names.contains(d)
}

/// Whether macOS resolves a hostname natively: `localhost` or a subdomain
/// of it, in any letter case.
pub open spec fn resolved_natively() -> spec_fn(Seq<char>) -> bool {
    |d: Seq<char>| ascii_lower_seq(d) == "localhost"@ || ends_with(ascii_lower_seq(d), ".localhost"@)
}

proof fn lemma_retained_len(hosts: Seq<Seq<char>>, remove: spec_fn(Seq<char>) -> bool)
    ensures
        retained_hosts(hosts, remove).len() <= hosts.len(),
    decreases hosts.len(),
{
    if hosts.len() > 0 {
        lemma_retained_len(hosts.drop_last(), remove);
    }
}

/// A generated section of one hosts file.
#[derive(Debug)]
pub struct HostsFileSection {
    path: String,
}

impl HostsFileSection {
    /// The system hosts file.
    pub fn new() -> (r: Self)
        ensures
            r.spec_path() == "/etc/hosts"@,
    {
        HostsFileSection { path: String::from_str("/etc/hosts") }
    }

    /// A hosts file at `path`.
    pub fn with_path(path: String) -> (r: Self)
        ensures
            r.spec_path() == path@,
    {
        HostsFileSection { path }
    }

    pub closed spec fn spec_path(&self) -> Seq<char> {
        self.path@
    }

    /// The file this section lives in.
    pub fn path(&self) -> (r: &str)
        ensures
            r@ == self.spec_path(),
    {
        self.path.as_str()
    }

    /// Rewrite `current_content` with the section holding exactly `domains`.
    pub fn update_content(&self, current_content: &str, domains: &[String]) -> (r: Result<String, HostsContentError>)
        ensures
            match r {
                Ok(s) => !section_unclosed(lines_of(current_content@)) && s@ == spec_updated_content(
                    current_content@,
                    string_texts(domains@),
                ),
                Err(HostsContentError::MalformedSection(m)) => section_unclosed(lines_of(current_content@)) && m@
                    == unclosed_section_message(),
            },
    {
        update_hosts_content(current_content, domains)
    }

    /// Rebuild locald's generated section after removing the named domains
    /// from its IPv4 loopback mappings.
    pub fn remove_domains_from_content(&self, current_content: &str, domains: &[&str]) -> (r: Result<
        String,
        HostsContentError,
    >)
        ensures
            match r {
                Ok(s) => !section_unclosed(lines_of(current_content@)) && s@ == spec_removed_content(
                    current_content@,
                    listed_in(domains@.map_values(|d: &str| d@)),
                ),
                Err(HostsContentError::MalformedSection(m)) => section_unclosed(lines_of(current_content@)) && m@
                    == unclosed_section_message(),
            },
    {
        let ghost names = domains@.map_values(|d: &str| d@);
        let managed = managed_host_set(current_content)?;
        let mut retained: Vec<String> = Vec::new();
        let ghost mv = string_texts(managed@);
        let mut i: usize = 0;
        proof {
            assert(mv.take(0) =~= Seq::<Seq<char>>::empty());
            assert(string_texts(retained@) =~= Seq::<Seq<char>>::empty());
        }
        while i < managed.len()
            invariant
                i <= managed@.len(),
                mv == string_texts(managed@),
                names == domains@.map_values(|d: &str| d@),
                string_texts(retained@) == retained_hosts(mv.take(i as int), listed_in(names)),
            decreases managed@.len() - i,
        {
            proof {
                assert(mv.take(i + 1).drop_last() =~= mv.take(i as int));
                assert(mv.take(i + 1).last() == managed@[i as int]@);
            }
            let d = str_chars(managed[i].as_str());
            let mut listed = false;
            let mut j: usize = 0;
            while j < domains.len()
                invariant
                    j <= domains@.len(),
                    names == domains@.map_values(|d: &str| d@),
                    listed == (exists|a: int| 0 <= a < j && names[a] == d@),
                decreases domains@.len() - j,
            {
                let c = str_chars(domains[j]);
                if crate::text::compare_chars(c.as_slice(), d.as_slice()) == 0 {
                    listed = true;
                }
                proof {
                    assert(names[j as int] == domains@[j as int]@);
                }
                j = j + 1;
            }
            proof {
                assert(listed == names.contains(d@));
            }
            if !listed {
                let ghost prev = string_texts(retained@);
                retained.push(managed[i].clone());
                proof {
                    assert(string_texts(retained@) =~= prev.push(managed@[i as int]@));
                }
            }
            i = i + 1;
        }
        proof {
            assert(mv.take(mv.len() as int) =~= mv);
            lemma_retained_len(mv, listed_in(names));
        }
        if retained.len() == managed.len() {
            return Ok(String::from_str(current_content));
        }
        self.update_content(current_content, retained.as_slice())
    }

    /// Rebuild locald's generated section after removing IPv4 loopback
    /// mappings that macOS resolves natively.
    ///
    /// Historical `.local` spellings are deliberately retained here because
    /// the hosts file does not reveal whether a name is a stale platform alias
    /// or an active service-owned claim.
    pub fn remove_native_macos_domains_from_content(&self, current_content: &str) -> (r: Result<String, HostsContentError>)
        ensures
            match r {
                Ok(s) => !section_unclosed(lines_of(current_content@)) && s@ == spec_removed_content(
                    current_content@,
                    resolved_natively(),
                ),
                Err(HostsContentError::MalformedSection(m)) => section_unclosed(lines_of(current_content@)) && m@
                    == unclosed_section_message(),
            },
    {
        let managed = managed_host_set(current_content)?;
        let mut retained: Vec<String> = Vec::new();
        let ghost mv = string_texts(managed@);
        let mut i: usize = 0;
        proof {
            assert(mv.take(0) =~= Seq::<Seq<char>>::empty());
            assert(string_texts(retained@) =~= Seq::<Seq<char>>::empty());
        }
        while i < managed.len()
            invariant
                i <= managed@.len(),
                mv == string_texts(managed@),
                string_texts(retained@) == retained_hosts(mv.take(i as int), resolved_natively()),
            decreases managed@.len() - i,
        {
            proof {
                assert(mv.take(i + 1).drop_last() =~= mv.take(i as int));
                assert(mv.take(i + 1).last() == managed@[i as int]@);
            }
            let d = str_chars(managed[i].as_str());
            let mut lower: Vec<char> = Vec::new();
            let mut m: usize = 0;
            while m < d.len()
                invariant
                    m <= d@.len(),
                    lower@ == ascii_lower_seq(d@.take(m as int)),
                decreases d@.len() - m,
            {
                lower.push(char_ascii_lower(d[m]));
                m = m + 1;
                assert(lower@ =~= ascii_lower_seq(d@.take(m as int)));
            }
            proof {
                assert(d@.take(d@.len() as int) =~= d@);
            }
            let native = crate::text::compare_chars(lower.as_slice(), str_chars("localhost").as_slice()) == 0
                || crate::domain::chars_end_with(lower.as_slice(), ".localhost");
            if !native {
                let ghost prev = string_texts(retained@);
                retained.push(managed[i].clone());
                proof {
                    assert(string_texts(retained@) =~= prev.push(managed@[i as int]@));
                }
            }
            i = i + 1;
        }
        proof {
            assert(mv.take(mv.len() as int) =~= mv);
            lemma_retained_len(mv, resolved_natively());
        }
        if retained.len() == managed.len() {
            return Ok(String::from_str(current_content));
        }
        self.update_content(current_content, retained.as_slice())
    }
}
} // verus!
