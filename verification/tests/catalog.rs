use locald_core::catalog::allocate_unique_domain_slug;

#[test]
fn collision_suffixes_keep_the_slug_within_one_dns_label() {
    let base = "a".repeat(63);
    let reserved = vec![base.clone()];

    let allocated = allocate_unique_domain_slug(&base, &reserved);

    assert_eq!(allocated.len(), 63);
    assert!(allocated.ends_with("-2"));
}

#[test]
fn free_slugs_are_kept_and_taken_ones_numbered() {
    assert_eq!(allocate_unique_domain_slug("feature", &[]), "feature");
    let reserved = vec!["feature".to_string(), "feature-2".to_string()];
    assert_eq!(allocate_unique_domain_slug("feature", &reserved), "feature-3");
    let reserved = vec!["fix-".to_string()];
    assert_eq!(allocate_unique_domain_slug("fix-", &reserved), "fix-2");
}
