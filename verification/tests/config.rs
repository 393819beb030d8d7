use locald_core::config::global::ServerConfig;
use locald_core::config::service::{
    CommonServiceConfig, ExecServiceConfig, GeneratedFileConfig, PostgresServiceConfig, ServiceConfig, TypedServiceConfig,
    WorkerServiceConfig,
};
use locald_core::config::{
    default_builder, BuildConfig, HealthCheckConfig, PluginSource, ProbeConfig, ProbeType, PublishedHealthCheckConfig,
    PublishedProbeType, PublishedServiceConfig,
};

#[test]
fn test_plugin_source_url() {
    let source = PluginSource::Url("https://plugins.locald.dev/redis.locald-package".to_string());
    assert!(source.is_remote());
    assert_eq!(source.url(), Some("https://plugins.locald.dev/redis.locald-package"));
    assert_eq!(source.checksum(), None);
    assert_eq!(source.path(), None);
}

#[test]
fn test_plugin_source_with_checksum() {
    let source = PluginSource::Remote { url: "https://x/p".to_string(), sha256: Some("abc123".to_string()) };
    assert!(source.is_remote());
    assert_eq!(source.url(), Some("https://x/p"));
    assert_eq!(source.checksum(), Some("abc123"));
}

#[test]
fn test_plugin_source_path() {
    let source = PluginSource::Path { path: "../plugin.wasm".to_string() };
    assert!(!source.is_remote());
    assert_eq!(source.path(), Some("../plugin.wasm"));
    assert_eq!(source.url(), None);
}

#[test]
fn test_plugin_source_installed() {
    let source = PluginSource::Installed { installed: "redis".to_string() };
    assert!(!source.is_remote());
    assert_eq!(source.installed(), Some("redis"));
}

#[test]
fn published_service_accepts_only_normalized_http_health() {
    for path in ["/", "/health", "/a/b?x=..", "/..a"] {
        assert!(PublishedHealthCheckConfig::new(PublishedProbeType::Http, path.to_string(), 1, 5).is_ok(), "{path}");
    }
    for path in ["health", "//evil", "/a#b", "/a\nb", "/a/../b", "/%2E%2e/x", "/./x", "/a/."] {
        assert!(PublishedHealthCheckConfig::new(PublishedProbeType::Http, path.to_string(), 1, 5).is_err(), "{path}");
    }
    assert!(PublishedHealthCheckConfig::new(PublishedProbeType::Http, "/".to_string(), 0, 5).is_err());
    assert!(PublishedHealthCheckConfig::new(PublishedProbeType::Http, "/".to_string(), 61, 5).is_err());
    assert!(PublishedHealthCheckConfig::new(PublishedProbeType::Http, "/".to_string(), 60, 11).is_err());
    assert!(PublishedHealthCheckConfig::new(PublishedProbeType::Http, "/".to_string(), 60, 10).is_ok());
}

#[test]
fn published_service_round_trips_with_normalized_http_defaults() {
    let service = PublishedServiceConfig::new(None, None).expect("no explicit domains");
    let health = service.normalized_health_check();
    assert_eq!(health.path(), "/");
    assert_eq!(health.interval_secs(), 1);
    assert_eq!(health.timeout_secs(), 5);

    assert!(PublishedServiceConfig::new(Some(Vec::new()), None).is_err());
    assert!(PublishedServiceConfig::new(Some(vec!["*.app.localhost".to_string()]), None).is_err());
    assert!(
        PublishedServiceConfig::new(Some(vec!["*.app.localhost".to_string(), "app.localhost".to_string()]), None).is_ok()
    );
}

#[test]
fn probe_defaults_apply_when_unset() {
    let probe = ProbeConfig { kind: ProbeType::Http, path: None, interval: None, timeout: Some(9), command: None };
    assert_eq!(probe.interval_duration(), 1);
    assert_eq!(probe.timeout_duration(), 9);
}

#[test]
fn legacy_privileged_ports_setting_enables_sandbox() {
    assert!(ServerConfig { sandbox: true, privileged_ports_compat: None }.is_sandbox());
    assert!(ServerConfig { sandbox: false, privileged_ports_compat: Some(false) }.is_sandbox());
    assert!(!ServerConfig { sandbox: false, privileged_ports_compat: Some(true) }.is_sandbox());
}

fn exec_service(command: &str, domains: &[&str]) -> ServiceConfig {
    let mut common = CommonServiceConfig::empty();
    common.domains = Some(domains.iter().map(|d| d.to_string()).collect());
    ServiceConfig::Legacy(ExecServiceConfig { common, command: Some(command.to_string()), workdir: None, build: None })
}

#[test]
fn runtime_equality_ignores_only_domain_claims() {
    let mut current = exec_service("serve", &["frame", "*.frame"]);
    let mut candidate = exec_service("serve", &["frame", "*.frame"]);
    candidate.common_mut().expect("managed service common config").domains =
        Some(["frame", "preview"].into_iter().map(str::to_owned).collect());

    assert!(current.runtime_eq(&candidate));

    current.common_mut().expect("managed service common config").env.push(("MODE".into(), "old".into()));
    candidate.common_mut().expect("managed service common config").env.push(("MODE".into(), "new".into()));
    assert!(!current.runtime_eq(&candidate));
}

#[test]
fn runtime_equality_treats_the_environment_as_unordered() {
    let mut left = exec_service("serve", &[]);
    let mut right = exec_service("serve", &[]);
    left.common_mut().unwrap().env = vec![("A".into(), "1".into()), ("B".into(), "2".into())];
    right.common_mut().unwrap().env = vec![("B".into(), "2".into()), ("A".into(), "1".into())];
    assert!(left.runtime_eq(&right));
    right.common_mut().unwrap().listeners.push("admin".into());
    assert!(!left.runtime_eq(&right));
}

#[test]
fn published_services_only_match_published_services() {
    let published = ServiceConfig::Typed(TypedServiceConfig::Published(PublishedServiceConfig::new(None, None).unwrap()));
    let other = ServiceConfig::Typed(TypedServiceConfig::Published(
        PublishedServiceConfig::new(Some(vec!["api".to_string()]), None).unwrap(),
    ));
    assert!(published.runtime_eq(&other));
    assert!(!published.runtime_eq(&exec_service("serve", &[])));
    assert!(published.is_published());
    assert!(published.published().is_some());
    assert_eq!(published.port(), None);
    assert!(published.listeners().is_empty());
    assert!(published.common_ref().is_none());
    assert_eq!(other.domains(), Some(&["api".to_string()][..]));
}

#[test]
fn listener_and_generated_file_support_depends_on_the_kind() {
    let worker = ServiceConfig::Typed(TypedServiceConfig::Worker(WorkerServiceConfig {
        common: CommonServiceConfig::empty(),
        command: "work".to_string(),
        workdir: None,
    }));
    assert!(worker.supports_named_listeners());
    assert!(worker.supports_generated_files());

    let built = ServiceConfig::Typed(TypedServiceConfig::Exec(ExecServiceConfig {
        common: CommonServiceConfig::empty(),
        command: None,
        workdir: None,
        build: Some(BuildConfig { builder: default_builder(), buildpacks: Vec::new() }),
    }));
    assert!(built.supports_named_listeners());
    assert!(!built.supports_generated_files());

    let postgres = ServiceConfig::Typed(TypedServiceConfig::Postgres(PostgresServiceConfig {
        common: CommonServiceConfig::empty(),
        version: Some("15".to_string()),
    }));
    assert!(!postgres.supports_named_listeners());
    assert!(!postgres.supports_generated_files());
    assert!(exec_service("serve", &[]).supports_generated_files());
}

#[test]
fn shared_settings_read_through_every_kind() {
    let mut service = exec_service("serve", &["web"]);
    {
        let common = service.common_mut().unwrap();
        common.port = Some(3000);
        common.depends_on.push("db".to_string());
        common.health_check = Some(HealthCheckConfig::Command("true".to_string()));
        common.generated.push((
            "config.json".to_string(),
            GeneratedFileConfig { source: "config.template.json".to_string(), replace: Vec::new() },
        ));
    }
    assert_eq!(service.port(), Some(3000));
    assert_eq!(service.depends_on(), vec!["db".to_string()]);
    assert_eq!(service.health_check(), Some(&HealthCheckConfig::Command("true".to_string())));
    assert_eq!(service.domains(), Some(&["web".to_string()][..]));
    assert_eq!(service.generated().len(), 1);
    assert_eq!(service.common().port, Some(3000));
    assert!(service.env().is_empty());
}
