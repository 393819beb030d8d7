use locald_core::hosts::{HostsFileSection, LEGACY_MACOS_HOST_ALIASES};

fn hosts() -> HostsFileSection {
    HostsFileSection::with_path("/tmp/hosts".to_string())
}

#[test]
fn test_append_new_section() {
    let hosts = hosts();
    let content = "127.0.0.1 localhost\n";
    let domains = vec!["app.local".to_string(), "api.local".to_string()];

    let new_content = hosts.update_content(content, &domains).unwrap();

    assert!(new_content.contains("# BEGIN locald"));
    assert!(new_content.contains("127.0.0.1 app.local"));
    assert!(new_content.contains("127.0.0.1 api.local"));
    assert!(new_content.contains("# END locald"));
    assert!(new_content.starts_with("127.0.0.1 localhost\n"));
}

#[test]
fn test_replace_existing_section() {
    let hosts = hosts();
    let content = "127.0.0.1 localhost\n# BEGIN locald\n127.0.0.1 old.local\n# END locald\n";
    let domains = vec!["new.local".to_string()];

    let new_content = hosts.update_content(content, &domains).unwrap();

    assert!(new_content.contains("127.0.0.1 new.local"));
    assert!(!new_content.contains("127.0.0.1 old.local"));
    assert_eq!(new_content.matches("# BEGIN locald").count(), 1);
}

#[test]
fn empty_domains_remove_an_existing_section_without_creating_one() {
    let hosts = hosts();
    let content = "127.0.0.1 localhost\n# BEGIN locald\n127.0.0.1 old.local\n# END locald\n";

    let updated = hosts.update_content(content, &[]).unwrap();
    assert_eq!(updated, "127.0.0.1 localhost\n");
    assert_eq!(hosts.update_content(&updated, &[]).unwrap(), updated);
}

#[test]
fn removing_legacy_domains_preserves_active_custom_mappings() {
    let hosts = hosts();
    let content = "127.0.0.1 localhost\n# BEGIN locald\n127.0.0.1 locald.local custom.example.test\n# END locald\n";

    let updated = hosts.remove_domains_from_content(content, &LEGACY_MACOS_HOST_ALIASES).unwrap();
    assert!(!updated.contains("locald.local"));
    assert!(updated.contains("127.0.0.1 custom.example.test"));
    assert!(updated.contains("# BEGIN locald"));
}

#[test]
fn removing_the_only_legacy_domains_retires_the_generated_section() {
    let hosts = hosts();
    let content = "127.0.0.1 localhost\n# BEGIN locald\n127.0.0.1 locald.local\n# END locald\n";

    let updated = hosts.remove_domains_from_content(content, &LEGACY_MACOS_HOST_ALIASES).unwrap();
    assert_eq!(updated, "127.0.0.1 localhost\n");
}

#[test]
fn removing_native_macos_domains_preserves_custom_mappings() {
    let hosts = hosts();
    let content = "127.0.0.1 localhost\n# BEGIN locald\n127.0.0.1 locald.local app.localhost frame.turn.v0.localhost custom.example.test\n# END locald\n";

    let updated = hosts.remove_native_macos_domains_from_content(content).unwrap();
    assert!(updated.contains("127.0.0.1 locald.local"));
    assert!(!updated.contains("app.localhost"));
    assert!(!updated.contains("frame.turn.v0.localhost"));
    assert!(updated.contains("127.0.0.1 custom.example.test"));
    assert!(updated.contains("# BEGIN locald"));
}

#[test]
fn removing_only_native_macos_domains_retires_the_generated_section() {
    let hosts = hosts();
    let content = "127.0.0.1 localhost\n# BEGIN locald\n127.0.0.1 app.localhost frame.turn.v0.localhost\n# END locald\n";

    let updated = hosts.remove_native_macos_domains_from_content(content).unwrap();
    assert_eq!(updated, "127.0.0.1 localhost\n");
}

#[test]
fn malformed_managed_section_is_reported_instead_of_rewritten() {
    let hosts = hosts();
    let malformed = "127.0.0.1 localhost\n# BEGIN locald\n127.0.0.1 app.localhost\n";

    assert!(hosts.update_content(malformed, &[]).is_err());
    assert!(hosts.remove_native_macos_domains_from_content(malformed).is_err());
}

#[test]
fn removing_nothing_leaves_the_file_untouched() {
    let hosts = hosts();
    let content = "127.0.0.1 localhost";
    assert_eq!(hosts.remove_domains_from_content(content, &["x.local"]).unwrap(), content);
    assert_eq!(HostsFileSection::new().path(), "/etc/hosts");
}
