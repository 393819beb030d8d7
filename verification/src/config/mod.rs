//! Project and service configuration rules.

pub mod env_provenance;
pub mod global;
pub mod service;

use crate::paths::{segments, segments_acc};
use crate::text::{ascii_lower_seq, char_ascii_lower, has_char, starts_with, str_chars};
use vstd::prelude::*;
use vstd::string::*;

verus! {

/// Seconds between health probes when a declaration gives none.
pub const DEFAULT_HEALTH_CHECK_INTERVAL_SECS: u64 = 1;

/// Seconds a health probe may take when a declaration gives none.
pub const DEFAULT_HEALTH_CHECK_TIMEOUT_SECS: u64 = 5;

/// Deprecated configuration for branch-derived worktree domains; accepted
/// but ignored.
#[derive(Debug, Clone, PartialEq, Eq)]
pub struct WorktreesConfig {
    pub domain: Option<String>,
}

/// A plugin source reference in locald.toml.
#[derive(Debug, Clone, PartialEq, Eq)]
pub enum PluginSource {
    /// Simple URL string.
    Url(String),
    /// URL with optional checksum.
    Remote { url: String, sha256: Option<String> },
    /// Local path reference.
    Path { path: String },
    /// Reference to an installed plugin.
    Installed { installed: String },
}

impl PluginSource {
    /// Whether this is a remote URL source.
    pub fn is_remote(&self) -> (r: bool)
        ensures
            r == (self is Url || self is Remote),
    {
        match self {
            PluginSource::Url(_) | PluginSource::Remote { .. } => true,
            _ => false,
        }
    }

    /// The URL of a remote source.
    pub fn url(&self) -> (r: Option<&str>)
        ensures
            match self {
                PluginSource::Url(u) => r matches Some(x) && x@ == u@,
                PluginSource::Remote { url, .. } => r matches Some(x) && x@ == url@,
                _ => r is None,
            },
    {
        match self {
            PluginSource::Url(u) => Some(u.as_str()),
            PluginSource::Remote { url, .. } => Some(url.as_str()),
            _ => None,
        }
    }

    /// The checksum of a remote source, if present.
    pub fn checksum(&self) -> (r: Option<&str>)
        ensures
            match self {
                PluginSource::Remote { sha256: Some(c), .. } => r matches Some(x) && x@ == c@,
                _ => r is None,
            },
    {
        match self {
            PluginSource::Remote { sha256: Some(c), .. } => Some(c.as_str()),
            _ => None,
        }
    }

    /// The local path of a path source.
    pub fn path(&self) -> (r: Option<&str>)
        ensures
            match self {
                PluginSource::Path { path } => r matches Some(x) && x@ == path@,
                _ => r is None,
            },
    {
        match self {
            PluginSource::Path { path } => Some(path.as_str()),
            _ => None,
        }
    }

    /// The name of an installed plugin source.
    pub fn installed(&self) -> (r: Option<&str>)
        ensures
            match self {
                PluginSource::Installed { installed } => r matches Some(x) && x@ == installed@,
                _ => r is None,
            },
    {
        match self {
            PluginSource::Installed { installed } => Some(installed.as_str()),
            _ => None,
        }
    }
}

/// Configuration specific to the project identity.
#[derive(Debug, PartialEq, Eq)]
pub struct ProjectConfig {
    /// The name of the project.
    pub name: String,
    /// The domain to serve the project on. Defaults to `{name}.localhost`.
    pub domain: Option<String>,
    /// The name of the workspace the project belongs to.
    pub workspace: Option<String>,
    /// The name of the constellation the project belongs to.
    pub constellation: Option<String>,
}

impl Default for ProjectConfig {
    fn default() -> (r: Self)
        ensures
            r.name@ == "default"@,
            r.domain is None,
            r.workspace is None,
            r.constellation is None,
    {
        ProjectConfig { name: String::from_str("default"), domain: None, workspace: None, constellation: None }
    }
}

/// Probe type accepted by a published service declaration.
#[derive(Debug, Clone, Copy, PartialEq, Eq, Structural)]
pub enum PublishedProbeType {
    /// An application-level HTTP GET.
    Http,
}

/// Whether a path segment is a dot segment, literally or percent-encoded.
pub open spec fn is_dot_segment(segment: Seq<char>) -> bool {
    let s = ascii_lower_seq(segment);
    s == "."@ || s == ".."@ || s == "%2e"@ || s == ".%2e"@ || s == "%2e."@ || s == "%2e%2e"@
}

/// The text before the first `?`.
pub open spec fn before_query(p: Seq<char>) -> Seq<char>
    decreases p.len(),
{
    if p.len() == 0 {
        p
    } else if p[0] == '?' {
        Seq::empty()
    } else {
        seq![p[0]] + before_query(p.drop_first())
    }
}

/// Whether a health-check path is origin-relative: it begins with exactly
/// one `/`, has no fragment or line break, and no dot segment before its query.
pub open spec fn health_path_ok(p: Seq<char>) -> bool {
    &&& starts_with(p, "/"@)
    &&& !starts_with(p, "//"@)
    &&& !has_char(p, '#')
    &&& !has_char(p, '\r')
    &&& !has_char(p, '\n')
    &&& forall|i: int| 0 <= i < segments(before_query(p)).len() ==> !is_dot_segment(#[trigger] segments(before_query(p))[i])
}

/// The diagnostic for a path that is not origin-relative.
pub open spec fn health_path_message() -> Seq<char> {
    "a published service health-check path must be origin-relative, begin with one `/`, and contain no authority, fragment, or dot segment"@
}

/// The diagnostic for an interval out of range.
pub open spec fn health_interval_message() -> Seq<char> {
    "a published service health-check interval must be between 1 and 60 seconds"@
}

/// The diagnostic for a timeout out of range.
pub open spec fn health_timeout_message() -> Seq<char> {
    "a published service health-check timeout must be between 1 and 10 seconds"@
}

/// HTTP-only health configuration for one published service.
#[derive(Debug, PartialEq, Eq)]
pub struct PublishedHealthCheckConfig {
    kind: PublishedProbeType,
    path: String,
    interval: u64,
    timeout: u64,
}

impl Clone for PublishedHealthCheckConfig {
    fn clone(&self) -> (r: Self)
        ensures
            r.spec_kind() == self.spec_kind(),
            r.spec_path() == self.spec_path(),
            r.spec_interval() == self.spec_interval(),
            r.spec_timeout() == self.spec_timeout(),
    {
        PublishedHealthCheckConfig { kind: self.kind, path: self.path.clone(), interval: self.interval, timeout: self.timeout }
    }
}

impl Default for PublishedHealthCheckConfig {
    /// `GET /` every second with a five-second timeout.
    fn default() -> (r: Self)
        ensures
            r.spec_kind() == PublishedProbeType::Http,
            r.spec_path() == "/"@,
            r.spec_interval() == DEFAULT_HEALTH_CHECK_INTERVAL_SECS,
            r.spec_timeout() == DEFAULT_HEALTH_CHECK_TIMEOUT_SECS,
    {
        PublishedHealthCheckConfig {
            kind: PublishedProbeType::Http,
            path: String::from_str("/"),
            interval: DEFAULT_HEALTH_CHECK_INTERVAL_SECS,
            timeout: DEFAULT_HEALTH_CHECK_TIMEOUT_SECS,
        }
    }
}

fn is_dot_segment_exec(segment: &Vec<char>) -> (r: bool)
    ensures
        r == is_dot_segment(segment@),
{
    let mut lower: Vec<char> = Vec::new();
    let mut i: usize = 0;
    while i < segment.len()
        invariant
            i <= segment@.len(),
            lower@ == ascii_lower_seq(segment@.take(i as int)),
        decreases segment@.len() - i,
    {
        lower.push(char_ascii_lower(segment[i]));
        i = i + 1;
        assert(lower@ =~= ascii_lower_seq(segment@.take(i as int)));
    }
    assert(segment@.take(segment@.len() as int) =~= segment@);
    let l = lower.as_slice();
    crate::text::compare_chars(l, str_chars(".").as_slice()) == 0 || crate::text::compare_chars(l, str_chars("..").as_slice())
        == 0 || crate::text::compare_chars(l, str_chars("%2e").as_slice()) == 0 || crate::text::compare_chars(
        l,
        str_chars(".%2e").as_slice(),
    ) == 0 || crate::text::compare_chars(l, str_chars("%2e.").as_slice()) == 0 || crate::text::compare_chars(
        l,
        str_chars("%2e%2e").as_slice(),
    ) == 0
}

fn has_dot_segment(p: &Vec<char>) -> (r: bool)
    ensures
        r == exists|i: int| 0 <= i < segments(before_query(p@)).len() && is_dot_segment(#[trigger] segments(before_query(p@))[i]),
{
    let mut head: Vec<char> = Vec::new();
    let mut k: usize = 0;
    proof {
        assert(p@.skip(0) =~= p@);
        assert(head@ + before_query(p@) =~= before_query(p@));
    }
    while k < p.len() && p[k] != '?'
        invariant
            k <= p@.len(),
            head@ == p@.take(k as int),
            forall|j: int| 0 <= j < k ==> p@[j] != '?',
            before_query(p@) == head@ + before_query(p@.skip(k as int)),
        decreases p@.len() - k,
    {
        proof {
            let rest = p@.skip(k as int);
            assert(rest[0] == p@[k as int]);
            assert(rest.drop_first() =~= p@.skip(k + 1));
            assert(head@.push(p@[k as int]) =~= p@.take(k + 1));
            assert(before_query(rest) == seq![rest[0]] + before_query(rest.drop_first()));
            assert(head@ + (seq![p@[k as int]] + before_query(p@.skip(k + 1))) =~= head@.push(p@[k as int]) + before_query(p@.skip(k + 1)));
        }
        head.push(p[k]);
        k = k + 1;
    }
    proof {
        let rest = p@.skip(k as int);
        if k < p@.len() {
            assert(rest[0] == '?');
        }
        assert(before_query(rest) =~= Seq::<char>::empty());
        assert(head@ + Seq::<char>::empty() =~= head@);
    }
    let ghost q = head@;
    let mut done_any = false;
    let mut cur: Vec<char> = Vec::new();
    let mut i: usize = 0;
    let ghost mut done: Seq<Seq<char>> = Seq::empty();
    proof {
        assert(q.take(0) =~= Seq::<char>::empty());
    }
    while i < head.len()
        invariant
            i <= head@.len(),
            q == head@,
            (done, cur@) == segments_acc(q.take(i as int)),
            done_any == exists|j: int| 0 <= j < done.len() && is_dot_segment(#[trigger] done[j]),
        decreases head@.len() - i,
    {
        proof {
            assert(q.take(i + 1).drop_last() =~= q.take(i as int));
            assert(q.take(i + 1).last() == head@[i as int]);
        }
        if head[i] == '/' {
            let dot = is_dot_segment_exec(&cur);
            proof {
                let nd = done.push(cur@);
                assert forall|j: int| 0 <= j < nd.len() && is_dot_segment(#[trigger] nd[j]) implies (j < done.len() && is_dot_segment(done[j])) || (j == done.len() && dot) by {
                    if j < done.len() {
                        assert(nd[j] == done[j]);
                    }
                }
                if done_any {
                    let j = choose|j: int| 0 <= j < done.len() && is_dot_segment(#[trigger] done[j]);
                    assert(nd[j] == done[j]);
                }
                if dot {
                    assert(nd[done.len() as int] == cur@);
                }
                done = nd;
            }
            done_any = done_any || dot;
            cur = Vec::new();
        } else {
            cur.push(head[i]);
        }
        i = i + 1;
    }
    proof {
        assert(q.take(q.len() as int) =~= q);
    }
    let last_dot = is_dot_segment_exec(&cur);
    proof {
        let all = done.push(cur@);
        assert(segments(before_query(p@)) == all);
        if done_any {
            let j = choose|j: int| 0 <= j < done.len() && is_dot_segment(#[trigger] done[j]);
            assert(all[j] == done[j]);
        }
        if last_dot {
            assert(all[done.len() as int] == cur@);
        }
        assert forall|j: int| 0 <= j < all.len() && is_dot_segment(#[trigger] all[j]) implies done_any || last_dot by {
            if j < done.len() {
                assert(all[j] == done[j]);
            }
        }
    }
    done_any || last_dot
}

fn chars_contain(p: &Vec<char>, c: char) -> (r: bool)
    ensures
        r == has_char(p@, c),
{
    let mut i: usize = 0;
    while i < p.len()
        invariant
            i <= p@.len(),
            forall|j: int| 0 <= j < i ==> p@[j] != c,
        decreases p@.len() - i,
    {
        if p[i] == c {
            return true;
        }
        i = i + 1;
    }
    false
}

impl PublishedHealthCheckConfig {
    pub closed spec fn spec_kind(&self) -> PublishedProbeType {
        self.kind
    }

    pub closed spec fn spec_path(&self) -> Seq<char> {
        self.path@
    }

    pub closed spec fn spec_interval(&self) -> u64 {
        self.interval
    }

    pub closed spec fn spec_timeout(&self) -> u64 {
        self.timeout
    }

    /// Accept a declaration whose path is origin-relative, whose interval is
    /// 1 to 60 seconds, and whose timeout is 1 to 10 seconds.
    pub fn new(kind: PublishedProbeType, path: String, interval: u64, timeout: u64) -> (r: Result<Self, String>)
        ensures
            !health_path_ok(path@) ==> (r matches Err(m) && m@ == health_path_message()),
            health_path_ok(path@) && !(1 <= interval <= 60) ==> (r matches Err(m) && m@ == health_interval_message()),
            health_path_ok(path@) && 1 <= interval <= 60 && !(1 <= timeout <= 10) ==> (r matches Err(m) && m@
                == health_timeout_message()),
            health_path_ok(path@) && 1 <= interval <= 60 && 1 <= timeout <= 10 ==> (r matches Ok(c) && c.spec_kind() == kind
                && c.spec_path() == path@ && c.spec_interval() == interval && c.spec_timeout() == timeout),
    {
        let p = str_chars(path.as_str());
        let starts_one = p.len() >= 1 && p[0] == '/';
        let starts_two = p.len() >= 2 && p[0] == '/' && p[1] == '/';
        proof {
            if p@.len() >= 1 {
                assert(starts_with(p@, "/"@) == (p@[0] == '/')) by {
                    reveal_strlit("/");
                    assert("/"@ =~= seq!['/']);
                    assert(p@.subrange(0, 1) =~= seq![p@[0]]);
                    if starts_with(p@, "/"@) {
                        assert(p@.subrange(0, 1)[0] == '/');
                    }
                }
            } else {
                reveal_strlit("/");
            }
            if p@.len() >= 2 {
                assert(starts_with(p@, "//"@) == (p@[0] == '/' && p@[1] == '/')) by {
                    reveal_strlit("//");
                    assert("//"@ =~= seq!['/', '/']);
                    assert(p@.subrange(0, 2) =~= seq![p@[0], p@[1]]);
                    if starts_with(p@, "//"@) {
                        assert(p@.subrange(0, 2)[0] == '/');
                        assert(p@.subrange(0, 2)[1] == '/');
                    }
                }
            } else {
                reveal_strlit("//");
            }
        }
        if !starts_one || starts_two || chars_contain(&p, '#') || chars_contain(&p, '\r') || chars_contain(&p, '\n')
            || has_dot_segment(&p) {
            return Err(String::from_str(
                "a published service health-check path must be origin-relative, begin with one `/`, and contain no authority, fragment, or dot segment",
            ));
        }
        if !(1 <= interval && interval <= 60) {
            return Err(String::from_str("a published service health-check interval must be between 1 and 60 seconds"));
        }
        if !(1 <= timeout && timeout <= 10) {
            return Err(String::from_str("a published service health-check timeout must be between 1 and 10 seconds"));
        }
        Ok(PublishedHealthCheckConfig { kind, path, interval, timeout })
    }

    /// The probe protocol.
    pub fn kind(&self) -> (r: PublishedProbeType)
        ensures
            r == self.spec_kind(),
    {
        self.kind
    }

    /// Return the validated origin-relative probe path.
    pub fn path(&self) -> (r: &str)
        ensures
            r@ == self.spec_path(),
    {
        self.path.as_str()
    }

    /// Return the validated probe interval in seconds.
    pub fn interval_secs(&self) -> (r: u64)
        ensures
            r == self.spec_interval(),
    {
        self.interval
    }

    /// Return the validated per-request timeout in seconds.
    pub fn timeout_secs(&self) -> (r: u64)
        ensures
            r == self.spec_timeout(),
    {
        self.timeout
    }
}

/// Whether an explicit domain list is acceptable: non-empty, with at least
/// one exact (non-`*.`) claim.
pub open spec fn published_domains_ok(domains: Seq<String>) -> bool {
    domains.len() > 0 && exists|i: int| 0 <= i < domains.len() && !starts_with(#[trigger] domains[i]@, "*."@)
}

/// Configuration for a service whose runtime is owned by an external publisher.
#[derive(Debug, PartialEq, Eq)]
pub struct PublishedServiceConfig {
    domains: Option<Vec<String>>,
    health_check: Option<PublishedHealthCheckConfig>,
}

impl PublishedServiceConfig {
    pub closed spec fn spec_domains(&self) -> Option<Seq<String>> {
        match self.domains {
            Some(d) => Some(d@),
            None => None,
        }
    }

    pub closed spec fn spec_health_check(&self) -> Option<PublishedHealthCheckConfig> {
        self.health_check
    }

    /// Accept a declaration; an explicit domain list must be non-empty and
    /// contain at least one exact claim.
    pub fn new(domains: Option<Vec<String>>, health_check: Option<PublishedHealthCheckConfig>) -> (r: Result<Self, String>)
        ensures
            domains matches Some(d) && d@.len() == 0 ==> (r matches Err(m) && m@
                == "a published service's explicit `domains` list cannot be empty"@),
            domains matches Some(d) && d@.len() > 0 && !published_domains_ok(d@) ==> (r matches Err(m) && m@
                == "a published service's explicit `domains` list must contain at least one exact domain claim"@),
            (domains matches Some(d) ==> published_domains_ok(d@)) ==> (r matches Ok(c) && c.spec_domains() == (match domains {
                Some(d) => Some(d@),
                None => None::<Seq<String>>,
            }) && c.spec_health_check() == health_check),
    {
        if let Some(list) = &domains {
            if list.len() == 0 {
                return Err(String::from_str("a published service's explicit `domains` list cannot be empty"));
            }
            let mut i: usize = 0;
            let mut exact = false;
            while i < list.len()
                invariant
                    i <= list@.len(),
                    exact == exists|j: int| 0 <= j < i && !starts_with(#[trigger] list@[j]@, "*."@),
                decreases list@.len() - i,
            {
                let c = str_chars(list[i].as_str());
                let wild = c.len() >= 2 && c[0] == '*' && c[1] == '.';
                proof {
                    reveal_strlit("*.");
                    if c@.len() >= 2 {
                        assert(starts_with(c@, "*."@) == (c@[0] == '*' && c@[1] == '.')) by {
                            assert("*."@ =~= seq!['*', '.']);
                            assert(c@.subrange(0, 2) =~= seq![c@[0], c@[1]]);
                            if starts_with(c@, "*."@) {
                                assert(c@.subrange(0, 2)[0] == '*');
                            }
                        }
                    }
                }
                if !wild {
                    exact = true;
                }
                i = i + 1;
            }
            if !exact {
                return Err(String::from_str(
                    "a published service's explicit `domains` list must contain at least one exact domain claim",
                ));
            }
        }
        Ok(PublishedServiceConfig { domains, health_check })
    }

    /// The explicit domain claims, if any.
    pub fn domains(&self) -> (r: Option<&[String]>)
        ensures
            match r {
                Some(d) => self.spec_domains() == Some(d@),
                None => self.spec_domains() is None,
            },
    {
        match &self.domains {
            Some(d) => Some(d.as_slice()),
            None => None,
        }
    }

    /// Return the effective HTTP health policy: the declared one, else the
    /// default `GET /` policy.
    pub fn normalized_health_check(&self) -> (r: PublishedHealthCheckConfig)
        ensures
            match self.spec_health_check() {
                Some(h) => r.spec_kind() == h.spec_kind() && r.spec_path() == h.spec_path() && r.spec_interval()
                    == h.spec_interval() && r.spec_timeout() == h.spec_timeout(),
                None => r.spec_kind() == PublishedProbeType::Http && r.spec_path() == "/"@ && r.spec_interval()
                    == DEFAULT_HEALTH_CHECK_INTERVAL_SECS && r.spec_timeout() == DEFAULT_HEALTH_CHECK_TIMEOUT_SECS,
            },
    {
        match &self.health_check {
            Some(h) => h.clone(),
            None => PublishedHealthCheckConfig::default(),
        }
    }
}

/// The type of health check probe.
#[derive(Debug, Clone, Copy, PartialEq, Eq, Structural)]
pub enum ProbeType {
    /// An HTTP GET request.
    Http,
    /// A TCP connection attempt.
    Tcp,
    /// A shell command execution.
    Command,
}

/// Configuration for a health check probe.
#[derive(Debug, Clone, PartialEq, Eq)]
pub struct ProbeConfig {
    /// The type of probe to perform.
    pub kind: ProbeType,
    /// The path to check (for HTTP probes).
    pub path: Option<String>,
    /// The interval between checks in seconds.
    pub interval: Option<u64>,
    /// The timeout for each check in seconds.
    pub timeout: Option<u64>,
    /// The command to run (for Command probes).
    pub command: Option<String>,
}

impl ProbeConfig {
    /// Seconds between checks: the declared interval, else one second.
    pub fn interval_duration(&self) -> (r: u64)
        ensures
            r == match self.interval {
                Some(i) => i,
                None => DEFAULT_HEALTH_CHECK_INTERVAL_SECS,
            },
    {
        match self.interval {
            Some(i) => i,
            None => DEFAULT_HEALTH_CHECK_INTERVAL_SECS,
        }
    }

    /// Seconds each check may take: the declared timeout, else five seconds.
    pub fn timeout_duration(&self) -> (r: u64)
        ensures
            r == match self.timeout {
                Some(t) => t,
                None => DEFAULT_HEALTH_CHECK_TIMEOUT_SECS,
            },
    {
        match self.timeout {
            Some(t) => t,
            None => DEFAULT_HEALTH_CHECK_TIMEOUT_SECS,
        }
    }
}

/// A container health check: a shell command or a structured probe.
#[derive(Debug, Clone, PartialEq, Eq)]
pub enum HealthCheckConfig {
    /// A shell command to run.
    Command(String),
    /// A structured probe configuration.
    Probe(ProbeConfig),
}

/// Configuration for building a service using Cloud Native Buildpacks.
#[derive(Debug, Clone, PartialEq, Eq)]
pub struct BuildConfig {
    /// The builder image to use.
    pub builder: String,
    /// List of buildpacks to use.
    pub buildpacks: Vec<String>,
}

/// The builder image used when a build declares none.
pub fn default_builder() -> (r: String)
    ensures
        r@ == "heroku/builder:22"@,
{
    String::from_str("heroku/builder:22")
}

} // verus!
