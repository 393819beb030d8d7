use locald_core::domain::{
    sanitize_project_name_for_dns, sanitize_service_name_for_dns, DomainClaim, DomainError, DomainIndex, DomainName,
    DomainPattern, DomainTarget, PlatformDomain,
};
use locald_core::identity::ProjectInstanceId;

fn instance(seed: u128) -> ProjectInstanceId {
    ProjectInstanceId::from_u128(seed)
}

fn service_claim(domain: &str, instance_id: ProjectInstanceId, service: &str) -> DomainClaim {
    DomainClaim::service(domain.parse().expect("valid test domain"), instance_id, service.to_owned())
}

fn service_pattern_claim(domain: &str, instance_id: ProjectInstanceId, service: &str, primary: bool) -> DomainClaim {
    DomainClaim::service_pattern(domain.parse().expect("valid test domain pattern"), instance_id, service.to_owned(), primary)
}

#[test]
fn exact_names_normalize_case_and_one_trailing_dot() {
    let domain: DomainName = "API.Example.Localhost.".parse().expect("valid domain");

    assert_eq!(domain.as_str(), "api.example.localhost");
    assert_eq!(domain, "api.example.localhost".parse().expect("valid domain"));
}

#[test]
fn project_names_receive_deterministic_dns_labels() {
    assert_eq!(sanitize_project_name_for_dns("My_App v2!"), "my-app-v2");
    assert_eq!(sanitize_project_name_for_dns("--My___App // v2--"), "my-app-v2");
    assert_eq!(sanitize_project_name_for_dns("préview"), "pr-view");
    assert_eq!(sanitize_project_name_for_dns("東京_App"), "app");
    assert_eq!(sanitize_project_name_for_dns(""), "project");
    assert_eq!(sanitize_project_name_for_dns("---"), "project");

    let boundary = "a".repeat(63);
    assert_eq!(sanitize_project_name_for_dns(&boundary), boundary);
    assert_eq!(sanitize_project_name_for_dns(&"a".repeat(64)).len(), 63);
    assert_eq!(sanitize_project_name_for_dns(&format!("{}-suffix", "a".repeat(62))), "a".repeat(62));
}

#[test]
fn service_names_receive_service_specific_dns_labels() {
    assert_eq!(sanitize_service_name_for_dns("My_API v2!"), "my-api-v2");
    assert_eq!(sanitize_service_name_for_dns(""), "service");
    assert_eq!(sanitize_service_name_for_dns("---"), "service");
}

#[test]
fn invalid_exact_names_are_rejected() {
    for invalid in [
        "",
        ".",
        "api..localhost",
        "-api.localhost",
        "api-.localhost",
        "api_localhost",
        "*.localhost",
        "https://api.localhost",
        "api.localhost/path",
        "api.localhost:443",
        " api.localhost",
    ] {
        assert!(invalid.parse::<DomainName>().is_err(), "`{invalid}` should be invalid");
    }
}

#[test]
fn wildcard_patterns_accept_only_one_leftmost_label() {
    let pattern: DomainPattern = "*.FRAME.App.Localhost.".parse().expect("valid wildcard pattern");
    assert_eq!(pattern.to_string(), "*.frame.app.localhost");

    for invalid in ["*", "*frame.app.localhost", "frame.*.app.localhost", "*.*.app.localhost", "*.api..localhost"] {
        assert!(invalid.parse::<DomainPattern>().is_err(), "`{invalid}` should be invalid");
    }
}

#[test]
fn dns_length_limits_are_enforced() {
    let long_label = "a".repeat(64);
    assert!(format!("{long_label}.localhost").parse::<DomainName>().is_err());

    let too_long = format!("{}.{}.{}.{}", "a".repeat(63), "b".repeat(63), "c".repeat(63), "d".repeat(62));
    assert!(too_long.parse::<DomainName>().is_err());
}

#[test]
fn platform_domains_have_owned_fallbacks() {
    let index = DomainIndex::default();

    assert_eq!(index.resolve("DOCS.LOCALHOST."), Some(&DomainTarget::Platform { surface: PlatformDomain::Docs }));
    assert!(index.validate().is_ok());
    assert_eq!(index.hosts_domains(), ["dev.docs.local", "dev.locald.local", "docs.local", "locald.local"]);
}

#[test]
fn hosts_projection_combines_service_claims_with_platform_aliases() {
    let instance_id = instance(5);
    let index = DomainIndex::default()
        .replacing_instance(
            instance_id,
            vec![service_claim("app.localhost", instance_id, "app:web"), service_claim("docs.local", instance_id, "app:docs")],
        )
        .expect("service claims");

    assert_eq!(
        index.hosts_domains(),
        ["app.localhost", "dev.docs.local", "dev.locald.local", "docs.local", "locald.local"]
    );
}

#[test]
fn macos_hosts_projection_uses_ownership_not_legacy_spelling() {
    let instance_id = instance(5);
    let index = DomainIndex::default()
        .replacing_instance(
            instance_id,
            vec![
                service_claim("app.localhost", instance_id, "app:web"),
                service_claim("docs.local", instance_id, "app:docs"),
                service_claim("custom.example.test", instance_id, "app:custom"),
            ],
        )
        .expect("service claims");

    assert_eq!(
        index.macos_hosts_domain_names(),
        [
            "custom.example.test".parse::<DomainName>().expect("custom domain"),
            "docs.local".parse::<DomainName>().expect("explicit legacy-spelling service domain"),
        ]
    );
}

#[test]
fn whole_instance_replacement_removes_stale_claims() {
    let instance_id = instance(10);
    let first = DomainIndex::default()
        .replacing_instance(
            instance_id,
            vec![
                service_claim("app.localhost", instance_id, "app:web"),
                service_claim("api.app.localhost", instance_id, "app:api"),
            ],
        )
        .expect("first claim set");

    let second = first
        .replacing_instance(instance_id, vec![service_claim("new.localhost", instance_id, "app:web")])
        .expect("replacement claim set");

    assert!(second.resolve("app.localhost").is_none());
    assert!(second.resolve("api.app.localhost").is_none());
    assert!(matches!(second.resolve("new.localhost"), Some(DomainTarget::Service { .. })));
}

#[test]
fn exact_claims_override_one_label_wildcards() {
    let wildcard_instance = instance(11);
    let exact_instance = instance(12);
    let index = DomainIndex::default()
        .replacing_instance(
            wildcard_instance,
            vec![
                service_pattern_claim("frame.app.localhost", wildcard_instance, "app:frame", true),
                service_pattern_claim("*.frame.app.localhost", wildcard_instance, "app:frame", false),
            ],
        )
        .expect("wildcard claim")
        .replacing_instance(exact_instance, vec![service_claim("special.frame.app.localhost", exact_instance, "special:web")])
        .expect("more-specific exact claim");

    assert!(matches!(
        index.resolve("other.frame.app.localhost"),
        Some(DomainTarget::Service { project_instance_id, .. }) if *project_instance_id == wildcard_instance
    ));
    assert!(matches!(
        index.resolve("special.frame.app.localhost"),
        Some(DomainTarget::Service { project_instance_id, .. }) if *project_instance_id == exact_instance
    ));
    assert!(index.resolve("deep.other.frame.app.localhost").is_none());
    assert_eq!(index.certificate_name_for("other.frame.app.localhost"), Some("*.frame.app.localhost".to_owned()));
    assert_eq!(
        index.certificate_name_for("special.frame.app.localhost"),
        Some("special.frame.app.localhost".to_owned())
    );
    assert!(index.certificate_name_for("deep.other.frame.app.localhost").is_none());
}

#[test]
fn another_instance_cannot_take_an_owned_name() {
    let first = instance(20);
    let second = instance(21);
    let index = DomainIndex::default()
        .replacing_instance(first, vec![service_claim("app.localhost", first, "app:web")])
        .expect("first claim");

    let refused = index.replacing_instance(second, vec![service_claim("app.localhost", second, "other:web")]);
    assert!(matches!(refused, Err(DomainError::Conflict { .. })));
}

#[test]
fn replacement_rejects_claims_of_another_instance() {
    let owner = instance(30);
    let other = instance(31);
    let refused = DomainIndex::default().replacing_instance(owner, vec![service_claim("app.localhost", other, "app:web")]);
    assert!(matches!(refused, Err(DomainError::WrongInstance { .. })));
}

#[test]
fn replacement_rejects_duplicate_requests() {
    let owner = instance(32);
    let refused = DomainIndex::default().replacing_instance(
        owner,
        vec![service_claim("app.localhost", owner, "app:web"), service_claim("app.localhost", owner, "app:api")],
    );
    assert!(matches!(refused, Err(DomainError::Conflict { .. })));
}

#[test]
fn a_service_needs_one_primary_domain() {
    let owner = instance(33);
    let refused = DomainIndex::default().replacing_instance(
        owner,
        vec![service_pattern_claim("*.frame.app.localhost", owner, "app:frame", false)],
    );
    assert!(matches!(refused, Err(DomainError::MissingPrimaryDomain { .. })));

    let refused = DomainIndex::default().replacing_instance(
        owner,
        vec![
            service_claim("one.localhost", owner, "app:web"),
            service_claim("two.localhost", owner, "app:web"),
        ],
    );
    assert!(matches!(refused, Err(DomainError::PrimaryDomainConflict { .. })));
}

#[test]
fn service_claims_may_take_over_platform_fallbacks_and_return_them() {
    let owner = instance(34);
    let index = DomainIndex::default()
        .replacing_instance(owner, vec![service_claim("docs.localhost", owner, "app:docs")])
        .expect("take over platform fallback");
    assert!(matches!(index.resolve("docs.localhost"), Some(DomainTarget::Service { .. })));

    let released = index.replacing_instance(owner, Vec::new()).expect("release");
    assert_eq!(released.resolve("docs.localhost"), Some(&DomainTarget::Platform { surface: PlatformDomain::Docs }));
    assert!(released.domains_for_instance(owner).is_empty());
}

#[test]
fn replaying_one_replacement_changes_nothing() {
    let owner = instance(35);
    let claims = || vec![service_claim("app.localhost", owner, "app:web")];
    let once = DomainIndex::default().replacing_instance(owner, claims()).expect("first");
    let twice = once.replacing_instance(owner, claims()).expect("second");
    assert_eq!(once, twice);
}

#[test]
fn service_domain_lookup_and_instance_projection() {
    let owner = instance(36);
    let index = DomainIndex::default()
        .replacing_instance(
            owner,
            vec![
                service_claim("app.localhost", owner, "app:web"),
                service_pattern_claim("*.app.localhost", owner, "app:web", false),
            ],
        )
        .expect("claims");
    assert_eq!(index.domain_for_service(owner, "app:web").map(|d| d.as_str()), Some("app.localhost"));
    assert!(index.domain_for_service(owner, "app:api").is_none());
    assert_eq!(index.domains_for_instance(owner), vec!["*.app.localhost".to_string(), "app.localhost".to_string()]);
    assert_eq!(index.service_domains(), vec!["app.localhost".to_string()]);
}

#[test]
fn prefixed_names_are_validated_again() {
    let base: DomainName = "app.localhost".parse().expect("valid");
    assert_eq!(base.with_prefix("api").expect("valid prefix").as_str(), "api.app.localhost");
    assert!(base.with_prefix("bad_label").is_err());
}

#[test]
fn a_replacement_leaves_other_instances_their_domains_in_order() {
    let first = instance(30);
    let second = instance(31);
    let index = DomainIndex::default()
        .replacing_instance(
            first,
            vec![
                service_pattern_claim("zeta.localhost", first, "app:web", true),
                service_pattern_claim("*.zeta.localhost", first, "app:web", false),
            ],
        )
        .expect("first");
    let before = index.domains_for_instance(first);
    assert_eq!(before, vec!["*.zeta.localhost".to_string(), "zeta.localhost".to_string()]);
    let replaced = index
        .replacing_instance(second, vec![service_claim("beta.localhost", second, "other:web")])
        .expect("second");
    assert!(replaced.validate().is_ok());
    assert_eq!(replaced.domains_for_instance(first), before);
    assert_eq!(replaced.domains_for_instance(second), vec!["beta.localhost".to_string()]);
    let copy = replaced.clone();
    assert_eq!(copy.domains_for_instance(second), vec!["beta.localhost".to_string()]);
}
