//! Service declarations: the typed kinds, the settings they share, and when
//! two declarations need the same runtime.

use super::{BuildConfig, HealthCheckConfig, ProbeConfig, ProbeType, PublishedServiceConfig};
use crate::availability::{clone_opt_string, opt_string_eq, opt_view};
use crate::catalog::records::clone_strings;
use crate::domain::string_views;
use vstd::prelude::*;

verus! {

/// A service declaration: a typed kind, or a plain legacy exec service.
#[derive(Debug, PartialEq, Eq)]
pub enum ServiceConfig {
    Typed(TypedServiceConfig),
    Legacy(ExecServiceConfig),
}

/// The typed service kinds.
#[derive(Debug, PartialEq, Eq)]
pub enum TypedServiceConfig {
    Exec(ExecServiceConfig),
    Postgres(PostgresServiceConfig),
    Worker(WorkerServiceConfig),
    Container(ContainerServiceConfig),
    Site(SiteServiceConfig),
    Published(PublishedServiceConfig),
}

/// Settings shared by every process-owned service kind. `env` is an
/// unordered map given as its entries; `generated` maps each generated
/// file to its configuration in file order, and each replacement pointer to
/// the JSON text of its value in pointer order.
#[derive(Debug, Default, PartialEq, Eq)]
pub struct CommonServiceConfig {
    pub port: Option<u16>,
    pub listeners: Vec<String>,
    pub generated: Vec<(String, GeneratedFileConfig)>,
    pub domains: Option<Vec<String>>,
    pub env: Vec<(String, String)>,
    pub depends_on: Vec<String>,
    pub health_check: Option<HealthCheckConfig>,
    pub stop_signal: Option<String>,
}

/// One JSON or JSONC file generated for a host exec or worker service.
#[derive(Debug, PartialEq, Eq)]
pub struct GeneratedFileConfig {
    pub source: String,
    pub replace: Vec<(String, String)>,
}

/// A generic executable service.
#[derive(Debug, Default, PartialEq, Eq)]
pub struct ExecServiceConfig {
    pub common: CommonServiceConfig,
    pub command: Option<String>,
    pub workdir: Option<String>,
    pub build: Option<BuildConfig>,
}

/// A managed Postgres database service.
#[derive(Debug, Default, PartialEq, Eq)]
pub struct PostgresServiceConfig {
    pub common: CommonServiceConfig,
    pub version: Option<String>,
}

/// A background worker service.
#[derive(Debug, Default, PartialEq, Eq)]
pub struct WorkerServiceConfig {
    pub common: CommonServiceConfig,
    pub command: String,
    pub workdir: Option<String>,
}

/// A container-based service.
#[derive(Debug, Default, PartialEq, Eq)]
pub struct ContainerServiceConfig {
    pub common: CommonServiceConfig,
    pub image: String,
    pub command: Option<String>,
    pub container_port: Option<u16>,
    pub workdir: Option<String>,
}

/// A managed site service.
#[derive(Debug, Default, PartialEq, Eq)]
pub struct SiteServiceConfig {
    pub common: CommonServiceConfig,
    pub path: String,
    pub build: String,
    pub name: String,
}

pub struct ProbeView {
    pub kind: ProbeType,
    pub path: Option<Seq<char>>,
    pub interval: Option<u64>,
    pub timeout: Option<u64>,
    pub command: Option<Seq<char>>,
}

pub enum HealthView {
    Command(Seq<char>),
    Probe(ProbeView),
}

pub struct BuildView {
    pub builder: Seq<char>,
    pub buildpacks: Seq<Seq<char>>,
}

pub struct GeneratedView {
    pub source: Seq<char>,
    pub replace: Seq<(Seq<char>, Seq<char>)>,
}

pub struct CommonView {
    pub port: Option<u16>,
    pub listeners: Seq<Seq<char>>,
    pub generated: Seq<(Seq<char>, GeneratedView)>,
    pub domains: Option<Seq<Seq<char>>>,
    pub env: Set<(Seq<char>, Seq<char>)>,
    pub depends_on: Seq<Seq<char>>,
    pub health_check: Option<HealthView>,
    pub stop_signal: Option<Seq<char>>,
}

/// A service declaration by view: each kind's settings; a published
/// service is represented by its declaration.
pub enum ServiceView {
    Exec { legacy: bool, common: CommonView, command: Option<Seq<char>>, workdir: Option<Seq<char>>, build: Option<BuildView> },
    Postgres { common: CommonView, version: Option<Seq<char>> },
    Worker { common: CommonView, command: Seq<char>, workdir: Option<Seq<char>> },
    Container {
        common: CommonView,
        image: Seq<char>,
        command: Option<Seq<char>>,
        container_port: Option<u16>,
        workdir: Option<Seq<char>>,
    },
    Site { common: CommonView, path: Seq<char>, build: Seq<char>, name: Seq<char> },
    Published,
}

/// Text pairs by view.
pub open spec fn pair_views(v: Seq<(String, String)>) -> Seq<(Seq<char>, Seq<char>)> {
    Seq::new(v.len(), |i: int| (v[i].0@, v[i].1@))
}

pub open spec fn probe_view(p: ProbeConfig) -> ProbeView {
    ProbeView { kind: p.kind, path: opt_view(p.path), interval: p.interval, timeout: p.timeout, command: opt_view(p.command) }
}

pub open spec fn health_view(h: HealthCheckConfig) -> HealthView {
    match h {
        HealthCheckConfig::Command(c) => HealthView::Command(c@),
        HealthCheckConfig::Probe(p) => HealthView::Probe(probe_view(p)),
    }
}

pub open spec fn build_view(b: BuildConfig) -> BuildView {
    BuildView { builder: b.builder@, buildpacks: string_views(b.buildpacks@) }
}

pub open spec fn generated_view(g: GeneratedFileConfig) -> GeneratedView {
    GeneratedView { source: g.source@, replace: pair_views(g.replace@) }
}

pub open spec fn generated_views(v: Seq<(String, GeneratedFileConfig)>) -> Seq<(Seq<char>, GeneratedView)> {
    Seq::new(v.len(), |i: int| (v[i].0@, generated_view(v[i].1)))
}

impl View for CommonServiceConfig {
    type V = CommonView;

    open spec fn view(&self) -> CommonView {
        CommonView {
            port: self.port,
            listeners: string_views(self.listeners@),
            generated: generated_views(self.generated@),
            domains: match self.domains {
                Some(d) => Some(string_views(d@)),
                None => None,
            },
            env: pair_views(self.env@).to_set(),
            depends_on: string_views(self.depends_on@),
            health_check: match self.health_check {
                Some(h) => Some(health_view(h)),
                None => None,
            },
            stop_signal: opt_view(self.stop_signal),
        }
    }
}

pub open spec fn exec_view(c: ExecServiceConfig, legacy: bool) -> ServiceView {
    ServiceView::Exec {
        legacy,
        common: c.common@,
        command: opt_view(c.command),
        workdir: opt_view(c.workdir),
        build: match c.build {
            Some(b) => Some(build_view(b)),
            None => None,
        },
    }
}

impl View for ServiceConfig {
    type V = ServiceView;

    open spec fn view(&self) -> ServiceView {
        match self {
            ServiceConfig::Legacy(c) => exec_view(*c, true),
            ServiceConfig::Typed(TypedServiceConfig::Exec(c)) => exec_view(*c, false),
            ServiceConfig::Typed(TypedServiceConfig::Postgres(c)) => ServiceView::Postgres {
                common: c.common@,
                version: opt_view(c.version),
            },
            ServiceConfig::Typed(TypedServiceConfig::Worker(c)) => ServiceView::Worker {
                common: c.common@,
                command: c.command@,
                workdir: opt_view(c.workdir),
            },
            ServiceConfig::Typed(TypedServiceConfig::Container(c)) => ServiceView::Container {
                common: c.common@,
                image: c.image@,
                command: opt_view(c.command),
                container_port: c.container_port,
                workdir: opt_view(c.workdir),
            },
            ServiceConfig::Typed(TypedServiceConfig::Site(c)) => ServiceView::Site {
                common: c.common@,
                path: c.path@,
                build: c.build@,
                name: c.name@,
            },
            ServiceConfig::Typed(TypedServiceConfig::Published(_)) => ServiceView::Published,
        }
    }
}

/// The shared settings of a process-owned declaration; none for a
/// published one.
pub open spec fn common_of(s: ServiceView) -> Option<CommonView> {
    match s {
        ServiceView::Exec { common, .. } => Some(common),
        ServiceView::Postgres { common, .. } => Some(common),
        ServiceView::Worker { common, .. } => Some(common),
        ServiceView::Container { common, .. } => Some(common),
        ServiceView::Site { common, .. } => Some(common),
        ServiceView::Published => None,
    }
}

/// Shared settings with the domain claims left out.
pub open spec fn without_domains(c: CommonView) -> CommonView {
    CommonView { domains: None, ..c }
}

/// A declaration with its domain claims left out.
pub open spec fn without_claims(s: ServiceView) -> ServiceView {
    match s {
        ServiceView::Exec { legacy, common, command, workdir, build } => ServiceView::Exec {
            legacy,
            common: without_domains(common),
            command,
            workdir,
            build,
        },
        ServiceView::Postgres { common, version } => ServiceView::Postgres { common: without_domains(common), version },
        ServiceView::Worker { common, command, workdir } => ServiceView::Worker {
            common: without_domains(common),
            command,
            workdir,
        },
        ServiceView::Container { common, image, command, container_port, workdir } => ServiceView::Container {
            common: without_domains(common),
            image,
            command,
            container_port,
            workdir,
        },
        ServiceView::Site { common, path, build, name } => ServiceView::Site {
            common: without_domains(common),
            path,
            build,
            name,
        },
        ServiceView::Published => ServiceView::Published,
    }
}

/// Whether two declarations need the same runtime: both published, or
/// equal apart from their domain claims.
pub open spec fn same_runtime(a: ServiceView, b: ServiceView) -> bool {
    if a is Published || b is Published {
        a is Published && b is Published
    } else {
        without_claims(a) == without_claims(b)
    }
}

/// Whether two text lists are equal.
pub fn same_strings(a: &Vec<String>, b: &Vec<String>) -> (r: bool)
    ensures
        r == (string_views(a@) == string_views(b@)),
{
    if a.len() != b.len() {
        proof {
            assert(string_views(a@).len() != string_views(b@).len());
        }
        return false;
    }
    let mut i: usize = 0;
    while i < a.len()
        invariant
            i <= a@.len(),
            a@.len() == b@.len(),
            forall|j: int| 0 <= j < i ==> a@[j]@ == b@[j]@,
        decreases a@.len() - i,
    {
        if a[i] != b[i] {
            proof {
                assert(string_views(a@)[i as int] != string_views(b@)[i as int]);
            }
            return false;
        }
        i = i + 1;
    }
    proof {
        assert(string_views(a@) =~= string_views(b@));
    }
    true
}

/// Whether two lists of text pairs are equal, in order.
fn same_pairs(a: &Vec<(String, String)>, b: &Vec<(String, String)>) -> (r: bool)
    ensures
        r == (pair_views(a@) == pair_views(b@)),
{
    if a.len() != b.len() {
        proof {
            assert(pair_views(a@).len() != pair_views(b@).len());
        }
        return false;
    }
    let mut i: usize = 0;
    while i < a.len()
        invariant
            i <= a@.len(),
            a@.len() == b@.len(),
            forall|j: int| 0 <= j < i ==> a@[j].0@ == b@[j].0@ && a@[j].1@ == b@[j].1@,
        decreases a@.len() - i,
    {
        if a[i].0 != b[i].0 || a[i].1 != b[i].1 {
            proof {
                assert(pair_views(a@)[i as int] != pair_views(b@)[i as int]);
            }
            return false;
        }
        i = i + 1;
    }
    proof {
        assert(pair_views(a@) =~= pair_views(b@));
    }
    true
}

/// Whether every pair of `a` is among the pairs of `b`.
fn pairs_within(a: &Vec<(String, String)>, b: &Vec<(String, String)>) -> (r: bool)
    ensures
        r == (forall|i: int| 0 <= i < a@.len() ==> pair_views(b@).contains(#[trigger] pair_views(a@)[i])),
{
    let mut i: usize = 0;
    while i < a.len()
        invariant
            i <= a@.len(),
            forall|k: int| 0 <= k < i ==> pair_views(b@).contains(#[trigger] pair_views(a@)[k]),
        decreases a@.len() - i,
    {
        let mut j: usize = 0;
        let mut found = false;
        while j < b.len() && !found
            invariant
                j <= b@.len(),
                i < a@.len(),
                found ==> pair_views(b@).contains(pair_views(a@)[i as int]),
                !found ==> forall|q: int| 0 <= q < j ==> pair_views(b@)[q] != pair_views(a@)[i as int],
            decreases b@.len() - j,
        {
            if a[i].0 == b[j].0 && a[i].1 == b[j].1 {
                proof {
                    assert(pair_views(b@)[j as int] == pair_views(a@)[i as int]);
                }
                found = true;
            }
            j = j + 1;
        }
        if !found {
            proof {
                assert(!pair_views(b@).contains(pair_views(a@)[i as int]));
            }
            return false;
        }
        i = i + 1;
    }
    true
}

/// Whether two environments hold the same entries, in any order.
fn same_env(a: &Vec<(String, String)>, b: &Vec<(String, String)>) -> (r: bool)
    ensures
        r == (pair_views(a@).to_set() == pair_views(b@).to_set()),
{
    let x = pairs_within(a, b);
    let y = pairs_within(b, a);
    proof {
        let sa = pair_views(a@);
        let sb = pair_views(b@);
        if x && y {
            assert forall|p: (Seq<char>, Seq<char>)| sa.to_set().contains(p) <==> sb.to_set().contains(p) by {
                if sa.contains(p) {
                    let k = choose|k: int| 0 <= k < sa.len() && sa[k] == p;
                    assert(sb.contains(sa[k]));
                }
                if sb.contains(p) {
                    let k = choose|k: int| 0 <= k < sb.len() && sb[k] == p;
                    assert(sa.contains(sb[k]));
                }
            }
            assert(sa.to_set() =~= sb.to_set());
        }
        if !x {
            let k = choose|k: int| 0 <= k < a@.len() && !sb.contains(#[trigger] sa[k]);
            assert(sa.to_set().contains(sa[k]));
            assert(!sb.to_set().contains(sa[k]));
        }
        if x && !y {
            let k = choose|k: int| 0 <= k < b@.len() && !sa.contains(#[trigger] sb[k]);
            assert(sb.to_set().contains(sb[k]));
            assert(!sa.to_set().contains(sb[k]));
        }
    }
    x && y
}

/// Whether two generated-file tables are equal, in order.
fn same_generated(a: &Vec<(String, GeneratedFileConfig)>, b: &Vec<(String, GeneratedFileConfig)>) -> (r: bool)
    ensures
        r == (generated_views(a@) == generated_views(b@)),
{
    if a.len() != b.len() {
        proof {
            assert(generated_views(a@).len() != generated_views(b@).len());
        }
        return false;
    }
    let mut i: usize = 0;
    while i < a.len()
        invariant
            i <= a@.len(),
            a@.len() == b@.len(),
            forall|j: int| 0 <= j < i ==> #[trigger] generated_views(a@)[j] == generated_views(b@)[j],
        decreases a@.len() - i,
    {
        let same = a[i].0 == b[i].0 && a[i].1.source == b[i].1.source && same_pairs(&a[i].1.replace, &b[i].1.replace);
        if !same {
            proof {
                assert(generated_views(a@)[i as int] != generated_views(b@)[i as int]);
            }
            return false;
        }
        proof {
            assert(generated_views(a@)[i as int] == generated_views(b@)[i as int]);
        }
        i = i + 1;
    }
    proof {
        assert(generated_views(a@) =~= generated_views(b@));
    }
    true
}

fn same_health(a: &Option<HealthCheckConfig>, b: &Option<HealthCheckConfig>) -> (r: bool)
    ensures
        r == ((match *a {
            Some(h) => Some(health_view(h)),
            None => None,
        }) == (match *b {
            Some(h) => Some(health_view(h)),
            None => None,
        })),
{
    match (a, b) {
        (None, None) => true,
        (Some(HealthCheckConfig::Command(x)), Some(HealthCheckConfig::Command(y))) => *x == *y,
        (Some(HealthCheckConfig::Probe(x)), Some(HealthCheckConfig::Probe(y))) => {
            x.kind == y.kind && opt_string_eq(&x.path, &y.path) && x.interval == y.interval && x.timeout == y.timeout
                && opt_string_eq(&x.command, &y.command)
        },
        _ => false,
    }
}

fn same_build(a: &Option<BuildConfig>, b: &Option<BuildConfig>) -> (r: bool)
    ensures
        r == ((match *a {
            Some(x) => Some(build_view(x)),
            None => None,
        }) == (match *b {
            Some(x) => Some(build_view(x)),
            None => None,
        })),
{
    match (a, b) {
        (None, None) => true,
        (Some(x), Some(y)) => x.builder == y.builder && same_strings(&x.buildpacks, &y.buildpacks),
        _ => false,
    }
}

/// Whether two sets of shared settings agree apart from domain claims.
fn same_common_runtime(a: &CommonServiceConfig, b: &CommonServiceConfig) -> (r: bool)
    ensures
        r == (without_domains(a@) == without_domains(b@)),
{
    let same = a.port == b.port && same_strings(&a.listeners, &b.listeners) && same_generated(&a.generated, &b.generated)
        && same_env(&a.env, &b.env) && same_strings(&a.depends_on, &b.depends_on) && same_health(
        &a.health_check,
        &b.health_check,
    ) && opt_string_eq(&a.stop_signal, &b.stop_signal);
    proof {
        if same {
            assert(without_domains(a@) == without_domains(b@));
        } else if without_domains(a@) == without_domains(b@) {
            assert(a@.port == b@.port);
            assert(a@.listeners == b@.listeners);
        }
    }
    same
}

fn same_exec_runtime(a: &ExecServiceConfig, b: &ExecServiceConfig) -> (r: bool)
    ensures
        r == (without_claims(exec_view(*a, false)) == without_claims(exec_view(*b, false))),
{
    same_common_runtime(&a.common, &b.common) && opt_string_eq(&a.command, &b.command) && opt_string_eq(
        &a.workdir,
        &b.workdir,
    ) && same_build(&a.build, &b.build)
}

/// A copy of a list of text pairs.
fn clone_pairs(v: &Vec<(String, String)>) -> (r: Vec<(String, String)>)
    ensures
        pair_views(r@) == pair_views(v@),
{
    let mut r: Vec<(String, String)> = Vec::new();
    let mut i: usize = 0;
    while i < v.len()
        invariant
            i <= v@.len(),
            r@.len() == i,
            forall|j: int| 0 <= j < i ==> (#[trigger] r@[j]).0@ == v@[j].0@ && r@[j].1@ == v@[j].1@,
        decreases v@.len() - i,
    {
        r.push((v[i].0.clone(), v[i].1.clone()));
        i = i + 1;
    }
    assert(pair_views(r@) =~= pair_views(v@));
    r
}

/// A copy of a generated-file table.
fn clone_generated(v: &Vec<(String, GeneratedFileConfig)>) -> (r: Vec<(String, GeneratedFileConfig)>)
    ensures
        generated_views(r@) == generated_views(v@),
{
    let mut r: Vec<(String, GeneratedFileConfig)> = Vec::new();
    let mut i: usize = 0;
    while i < v.len()
        invariant
            i <= v@.len(),
            r@.len() == i,
            forall|j: int| 0 <= j < i ==> #[trigger] generated_views(r@)[j] == generated_views(v@)[j],
        decreases v@.len() - i,
    {
        let entry = (
            v[i].0.clone(),
            GeneratedFileConfig { source: v[i].1.source.clone(), replace: clone_pairs(&v[i].1.replace) },
        );
        let ghost before = r@;
        r.push(entry);
        proof {
            assert forall|j: int| 0 <= j < i + 1 implies #[trigger] generated_views(r@)[j] == generated_views(v@)[j] by {
                if j < i {
                    assert(r@[j] == before[j]);
                    assert(generated_views(before)[j] == generated_views(v@)[j]);
                }
            }
        }
        i = i + 1;
    }
    assert(generated_views(r@) =~= generated_views(v@));
    r
}

fn clone_health(h: &Option<HealthCheckConfig>) -> (r: Option<HealthCheckConfig>)
    ensures
        (match r {
            Some(x) => Some(health_view(x)),
            None => None,
        }) == (match *h {
            Some(x) => Some(health_view(x)),
            None => None,
        }),
{
    match h {
        None => None,
        Some(HealthCheckConfig::Command(c)) => Some(HealthCheckConfig::Command(c.clone())),
        Some(HealthCheckConfig::Probe(p)) => Some(
            HealthCheckConfig::Probe(
                ProbeConfig {
                    kind: p.kind,
                    path: clone_opt_string(&p.path),
                    interval: p.interval,
                    timeout: p.timeout,
                    command: clone_opt_string(&p.command),
                },
            ),
        ),
    }
}

/// A copy of a set of shared settings.
fn clone_common(c: &CommonServiceConfig) -> (r: CommonServiceConfig)
    ensures
        r@ == c@,
{
    let domains = match &c.domains {
        Some(d) => Some(clone_strings(d)),
        None => None,
    };
    let r = CommonServiceConfig {
        port: c.port,
        listeners: clone_strings(&c.listeners),
        generated: clone_generated(&c.generated),
        domains,
        env: clone_pairs(&c.env),
        depends_on: clone_strings(&c.depends_on),
        health_check: clone_health(&c.health_check),
        stop_signal: clone_opt_string(&c.stop_signal),
    };
    proof {
        assert(string_views(r.listeners@) =~= string_views(c.listeners@));
        assert(string_views(r.depends_on@) =~= string_views(c.depends_on@));
    }
    r
}

/// Shared settings with nothing declared.
pub open spec fn empty_common() -> CommonView {
    CommonView {
        port: None,
        listeners: Seq::empty(),
        generated: Seq::empty(),
        domains: None,
        env: Set::empty(),
        depends_on: Seq::empty(),
        health_check: None,
        stop_signal: None,
    }
}

impl CommonServiceConfig {
    /// Shared settings with nothing declared.
    pub fn empty() -> (r: Self)
        ensures
            r@ == empty_common(),
    {
        let r = CommonServiceConfig {
            port: None,
            listeners: Vec::new(),
            generated: Vec::new(),
            domains: None,
            env: Vec::new(),
            depends_on: Vec::new(),
            health_check: None,
            stop_signal: None,
        };
        proof {
            assert(string_views(r.listeners@) =~= Seq::<Seq<char>>::empty());
            assert(string_views(r.depends_on@) =~= Seq::<Seq<char>>::empty());
            assert(generated_views(r.generated@) =~= Seq::<(Seq<char>, GeneratedView)>::empty());
            assert(pair_views(r.env@).to_set() =~= Set::<(Seq<char>, Seq<char>)>::empty());
        }
        r
    }
}

impl ServiceConfig {
    /// Whether an external publisher fulfils this declaration.
    pub fn is_published(&self) -> (r: bool)
        ensures
            r == (self@ is Published),
    {
        matches!(self, ServiceConfig::Typed(TypedServiceConfig::Published(_)))
    }

    /// The published-service declaration, when this is one.
    pub fn published(&self) -> (r: Option<&PublishedServiceConfig>)
        ensures
            r is Some == (self@ is Published),
            r matches Some(p) ==> *self == ServiceConfig::Typed(TypedServiceConfig::Published(*p)),
    {
        match self {
            ServiceConfig::Typed(TypedServiceConfig::Published(config)) => Some(config),
            _ => None,
        }
    }

    /// The shared process settings; a published service has none, and reads
    /// as an empty set of settings.
    pub fn common(&self) -> (r: CommonServiceConfig)
        ensures
            r@ == match common_of(self@) {
                Some(c) => c,
                None => empty_common(),
            },
    {
        match self {
            ServiceConfig::Typed(TypedServiceConfig::Exec(c)) | ServiceConfig::Legacy(c) => clone_common(&c.common),
            ServiceConfig::Typed(TypedServiceConfig::Postgres(c)) => clone_common(&c.common),
            ServiceConfig::Typed(TypedServiceConfig::Worker(c)) => clone_common(&c.common),
            ServiceConfig::Typed(TypedServiceConfig::Container(c)) => clone_common(&c.common),
            ServiceConfig::Typed(TypedServiceConfig::Site(c)) => clone_common(&c.common),
            ServiceConfig::Typed(TypedServiceConfig::Published(_)) => CommonServiceConfig::empty(),
        }
    }

    /// The shared settings a process-owned declaration holds; none for a
    /// published one.
    pub fn common_ref(&self) -> (r: Option<&CommonServiceConfig>)
        ensures
            match common_of(self@) {
                Some(c) => r matches Some(x) && x@ == c,
                None => r is None,
            },
    {
        match self {
            ServiceConfig::Typed(TypedServiceConfig::Exec(c)) | ServiceConfig::Legacy(c) => Some(&c.common),
            ServiceConfig::Typed(TypedServiceConfig::Postgres(c)) => Some(&c.common),
            ServiceConfig::Typed(TypedServiceConfig::Worker(c)) => Some(&c.common),
            ServiceConfig::Typed(TypedServiceConfig::Container(c)) => Some(&c.common),
            ServiceConfig::Typed(TypedServiceConfig::Site(c)) => Some(&c.common),
            ServiceConfig::Typed(TypedServiceConfig::Published(_)) => None,
        }
    }

    /// The declared primary port.
    pub fn port(&self) -> (r: Option<u16>)
        ensures
            r == match common_of(self@) {
                Some(c) => c.port,
                None => None,
            },
    {
        match self.common_ref() {
            Some(c) => c.port,
            None => None,
        }
    }

    /// The declared named listeners.
    pub fn listeners(&self) -> (r: Vec<String>)
        ensures
            string_views(r@) == match common_of(self@) {
                Some(c) => c.listeners,
                None => Seq::empty(),
            },
    {
        match self.common_ref() {
            Some(c) => clone_strings(&c.listeners),
            None => {
                let r: Vec<String> = Vec::new();
                assert(string_views(r@) =~= Seq::<Seq<char>>::empty());
                r
            },
        }
    }

    /// The declared generated files.
    pub fn generated(&self) -> (r: Vec<(String, GeneratedFileConfig)>)
        ensures
            generated_views(r@) == match common_of(self@) {
                Some(c) => c.generated,
                None => Seq::empty(),
            },
    {
        match self.common_ref() {
            Some(c) => clone_generated(&c.generated),
            None => {
                let r: Vec<(String, GeneratedFileConfig)> = Vec::new();
                assert(generated_views(r@) =~= Seq::<(Seq<char>, GeneratedView)>::empty());
                r
            },
        }
    }

    /// Whether this kind can own dynamically allocated listeners: host exec
    /// and worker processes only.
    pub fn supports_named_listeners(&self) -> (r: bool)
        ensures
            r == (self@ is Exec || self@ is Worker),
    {
        matches!(
            self,
            ServiceConfig::Legacy(_) | ServiceConfig::Typed(TypedServiceConfig::Exec(_)) | ServiceConfig::Typed(
                TypedServiceConfig::Worker(_),
            )
        )
    }

    /// Whether this kind can own host-accessible generated files: workers,
    /// and exec services that are not built from buildpacks.
    pub fn supports_generated_files(&self) -> (r: bool)
        ensures
            r == match self@ {
                ServiceView::Exec { build, .. } => build is None,
                ServiceView::Worker { .. } => true,
                _ => false,
            },
    {
        match self {
            ServiceConfig::Legacy(config) | ServiceConfig::Typed(TypedServiceConfig::Exec(config)) => config.build.is_none(),
            ServiceConfig::Typed(TypedServiceConfig::Worker(_)) => true,
            _ => false,
        }
    }

    /// The declared environment.
    pub fn env(&self) -> (r: Vec<(String, String)>)
        ensures
            pair_views(r@).to_set() == match common_of(self@) {
                Some(c) => c.env,
                None => Set::empty(),
            },
    {
        match self.common_ref() {
            Some(c) => clone_pairs(&c.env),
            None => {
                let r: Vec<(String, String)> = Vec::new();
                assert(pair_views(r@).to_set() =~= Set::<(Seq<char>, Seq<char>)>::empty());
                r
            },
        }
    }

    /// The declared domain claims: a published service's, or the shared
    /// settings' of any other kind.
    pub fn domains(&self) -> (r: Option<&[String]>)
        ensures
            (self matches ServiceConfig::Typed(TypedServiceConfig::Published(p)) ==> match p.spec_domains() {
                Some(d) => r matches Some(x) && x@ == d,
                None => r is None,
            }),
            match common_of(self@) {
                Some(c) => match r {
                    Some(d) => c.domains == Some(string_views(d@)),
                    None => c.domains is None,
                },
                None => true,
            },
    {
        match self {
            ServiceConfig::Typed(TypedServiceConfig::Published(config)) => config.domains(),
            _ => match self.common_ref() {
                Some(c) => match &c.domains {
                    Some(d) => Some(d.as_slice()),
                    None => None,
                },
                None => None,
            },
        }
    }

    /// The services this one starts after.
    pub fn depends_on(&self) -> (r: Vec<String>)
        ensures
            string_views(r@) == match common_of(self@) {
                Some(c) => c.depends_on,
                None => Seq::empty(),
            },
    {
        match self.common_ref() {
            Some(c) => clone_strings(&c.depends_on),
            None => {
                let r: Vec<String> = Vec::new();
                assert(string_views(r@) =~= Seq::<Seq<char>>::empty());
                r
            },
        }
    }

    /// The declared container health check.
    pub fn health_check(&self) -> (r: Option<&HealthCheckConfig>)
        ensures
            match common_of(self@) {
                Some(c) => c.health_check == match r {
                    Some(h) => Some(health_view(*h)),
                    None => None,
                },
                None => r is None,
            },
    {
        match self.common_ref() {
            Some(c) => c.health_check.as_ref(),
            None => None,
        }
    }

    /// The shared settings to edit; none for a published service.
    pub fn common_mut(&mut self) -> (r: Option<&mut CommonServiceConfig>)
        ensures
            match common_of(old(self)@) {
                Some(c) => r matches Some(x) && x@ == c,
                None => r is None,
            },
    {
        match self {
            ServiceConfig::Typed(TypedServiceConfig::Exec(c)) => Some(&mut c.common),
            ServiceConfig::Legacy(c) => Some(&mut c.common),
            ServiceConfig::Typed(TypedServiceConfig::Postgres(c)) => Some(&mut c.common),
            ServiceConfig::Typed(TypedServiceConfig::Worker(c)) => Some(&mut c.common),
            ServiceConfig::Typed(TypedServiceConfig::Container(c)) => Some(&mut c.common),
            ServiceConfig::Typed(TypedServiceConfig::Site(c)) => Some(&mut c.common),
            ServiceConfig::Typed(TypedServiceConfig::Published(_)) => None,
        }
    }

    /// Whether two declarations need the same runtime: domain aliases and
    /// wildcard claims are proxy ownership and do not count.
    pub fn runtime_eq(&self, other: &Self) -> (r: bool)
        ensures
            r == same_runtime(self@, other@),
    {
        if self.is_published() || other.is_published() {
            return self.is_published() && other.is_published();
        }
        match (self, other) {
            (ServiceConfig::Legacy(a), ServiceConfig::Legacy(b)) => same_exec_runtime(a, b),
            (ServiceConfig::Typed(TypedServiceConfig::Exec(a)), ServiceConfig::Typed(TypedServiceConfig::Exec(b))) => {
                same_exec_runtime(a, b)
            },
            (
                ServiceConfig::Typed(TypedServiceConfig::Postgres(a)),
                ServiceConfig::Typed(TypedServiceConfig::Postgres(b)),
            ) => same_common_runtime(&a.common, &b.common) && opt_string_eq(&a.version, &b.version),
            (ServiceConfig::Typed(TypedServiceConfig::Worker(a)), ServiceConfig::Typed(TypedServiceConfig::Worker(b))) => {
                same_common_runtime(&a.common, &b.common) && a.command == b.command && opt_string_eq(&a.workdir, &b.workdir)
            },
            (
                ServiceConfig::Typed(TypedServiceConfig::Container(a)),
                ServiceConfig::Typed(TypedServiceConfig::Container(b)),
            ) => same_common_runtime(&a.common, &b.common) && a.image == b.image && opt_string_eq(&a.command, &b.command)
                && a.container_port == b.container_port && opt_string_eq(&a.workdir, &b.workdir),
            (ServiceConfig::Typed(TypedServiceConfig::Site(a)), ServiceConfig::Typed(TypedServiceConfig::Site(b))) => {
                same_common_runtime(&a.common, &b.common) && a.path == b.path && a.build == b.build && a.name == b.name
            },
            _ => false,
        }
    }
}

/// The declaration with its domain claims set to `domains`.
pub open spec fn with_domains(s: ServiceView, domains: Option<Seq<Seq<char>>>) -> ServiceView {
    match s {
        ServiceView::Exec { legacy, common, command, workdir, build } => ServiceView::Exec {
            legacy,
            common: CommonView { domains, ..common },
            command,
            workdir,
            build,
        },
        ServiceView::Postgres { common, version } => ServiceView::Postgres { common: CommonView { domains, ..common }, version },
        ServiceView::Worker { common, command, workdir } => ServiceView::Worker {
            common: CommonView { domains, ..common },
            command,
            workdir,
        },
        ServiceView::Container { common, image, command, container_port, workdir } => ServiceView::Container {
            common: CommonView { domains, ..common },
            image,
            command,
            container_port,
            workdir,
        },
        ServiceView::Site { common, path, build, name } => ServiceView::Site {
            common: CommonView { domains, ..common },
            path,
            build,
            name,
        },
        ServiceView::Published => ServiceView::Published,
    }
}

/// The domain claims a declaration makes.
pub open spec fn claims_of(s: ServiceView) -> Option<Seq<Seq<char>>> {
    match s {
        ServiceView::Exec { common, .. } => common.domains,
        ServiceView::Postgres { common, .. } => common.domains,
        ServiceView::Worker { common, .. } => common.domains,
        ServiceView::Container { common, .. } => common.domains,
        ServiceView::Site { common, .. } => common.domains,
        ServiceView::Published => None,
    }
}

/// Domain claims are the only difference a running service ignores: two
/// declarations keep the same runtime exactly when one becomes the other by
/// changing its domain claims alone, so any other change (a command, a
/// working directory, a build, an image, the environment, a port) requires
/// a restart. Published declarations agree only with each other.
pub proof fn lemma_runtime_ignores_only_domains(a: ServiceView, b: ServiceView, domains: Option<Seq<Seq<char>>>)
    ensures
        !(a is Published) && !(b is Published) ==> (same_runtime(a, b) <==> with_domains(a, claims_of(b)) == b),
        same_runtime(a, with_domains(a, domains)),
        (a is Published || b is Published) ==> (same_runtime(a, b) <==> a is Published && b is Published),
{
    if !(a is Published) && !(b is Published) {
        if same_runtime(a, b) {
            assert(without_claims(a) == without_claims(b));
            match (a, b) {
                (ServiceView::Exec { common: ca, .. }, ServiceView::Exec { common: cb, .. }) => {
                    assert(without_domains(ca) == without_domains(cb));
                    assert(CommonView { domains: cb.domains, ..ca } == cb);
                },
                (ServiceView::Postgres { common: ca, .. }, ServiceView::Postgres { common: cb, .. }) => {
                    assert(without_domains(ca) == without_domains(cb));
                    assert(CommonView { domains: cb.domains, ..ca } == cb);
                },
                (ServiceView::Worker { common: ca, .. }, ServiceView::Worker { common: cb, .. }) => {
                    assert(without_domains(ca) == without_domains(cb));
                    assert(CommonView { domains: cb.domains, ..ca } == cb);
                },
                (ServiceView::Container { common: ca, .. }, ServiceView::Container { common: cb, .. }) => {
                    assert(without_domains(ca) == without_domains(cb));
                    assert(CommonView { domains: cb.domains, ..ca } == cb);
                },
                (ServiceView::Site { common: ca, .. }, ServiceView::Site { common: cb, .. }) => {
                    assert(without_domains(ca) == without_domains(cb));
                    assert(CommonView { domains: cb.domains, ..ca } == cb);
                },
                _ => {},
            }
        }
    }
}

} // verus!
