use locald_core::attachments::attachment_hierarchy_owners;

#[test]
fn first_snapshot_publication_repairs_every_non_root_hierarchy_owner() {
    assert_eq!(
        attachment_hierarchy_owners("/existing/missing/nested/attachment-state"),
        vec!["/existing/missing/nested".to_string(), "/existing/missing".to_string(), "/existing".to_string()]
    );
}

#[test]
fn relative_hierarchies_stop_before_the_empty_path() {
    assert_eq!(attachment_hierarchy_owners("a/b/c"), vec!["a/b".to_string(), "a".to_string()]);
}
