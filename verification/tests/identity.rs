use locald_core::identity::{
    derive_project_id, derive_project_instance_id, marker_payload, parse_marker, project_identity,
    relative_root_components, uuid_version_of, IdentityError, ProjectInstanceId, RepositoryId,
    WorktreeId,
};

#[test]
fn derivation_format_matches_fixed_compatibility_vectors() {
    let repository_id =
        RepositoryId::from_str("11111111-1111-4111-8111-111111111111").expect("repository vector UUID");
    let worktree_id =
        WorktreeId::from_str("22222222-2222-4222-8222-222222222222").expect("worktree vector UUID");

    for (relative_root, expected_project, expected_instance) in [
        (
            "",
            "3ac8a4a9-14cb-5723-9501-e9574325d94a",
            "9d24a2e2-b011-5bf4-ace9-07053e37ecaf",
        ),
        (
            "packages/app",
            "00bb1da8-510e-52d5-8fe3-6f66e96b7b28",
            "889b5a0c-9dc9-5f96-9166-f00e07796a9a",
        ),
    ] {
        let project_id = derive_project_id(repository_id, relative_root, relative_root)
            .expect("derive project vector");
        let instance_id = derive_project_instance_id(worktree_id, project_id);

        assert_eq!(project_id.to_string(), expected_project);
        assert_eq!(instance_id.to_string(), expected_instance);
    }
}

#[test]
fn project_identity_combines_both_derivations() {
    let repository_id = RepositoryId::from_u128(0x1111_1111_1111_4111_8111_1111_1111_1111);
    let worktree_id = WorktreeId::from_u128(0x2222_2222_2222_4222_8222_2222_2222_2222);
    let identity = project_identity(repository_id, worktree_id, "packages/app", "/repo/packages/app")
        .expect("identity");
    assert_eq!(identity.repository_id, repository_id);
    assert_eq!(identity.worktree_id, worktree_id);
    assert_eq!(identity.project_id.to_string(), "00bb1da8-510e-52d5-8fe3-6f66e96b7b28");
    assert_eq!(
        identity.project_instance_id.to_string(),
        "889b5a0c-9dc9-5f96-9166-f00e07796a9a"
    );
}

#[test]
fn empty_and_dot_segments_do_not_change_the_project_identity() {
    let repository_id = RepositoryId::from_u128(0x1111_1111_1111_4111_8111_1111_1111_1111);
    let plain = derive_project_id(repository_id, "packages/app", "p").expect("plain");
    let noisy = derive_project_id(repository_id, "packages//./app/", "p").expect("noisy");
    assert_eq!(plain, noisy);
}

#[test]
fn unsupported_relative_components_are_rejected() {
    let repository_id = RepositoryId::from_u128(1);
    for (root, component) in [("/abs", "RootDir"), ("./x", "CurDir"), ("a/../b", "ParentDir")] {
        match derive_project_id(repository_id, root, "/project") {
            Err(IdentityError::UnsupportedProjectPath {
                project_root,
                component: c,
            }) => {
                assert_eq!(project_root, "/project");
                assert_eq!(c, component);
            }
            other => panic!("unexpected result {other:?}"),
        }
    }
    assert_eq!(
        relative_root_components("a//b/./c").expect("components"),
        vec!["a".to_string(), "b".to_string(), "c".to_string()]
    );
    assert_eq!(relative_root_components("").expect("empty"), Vec::<String>::new());
}

#[test]
fn identity_text_parses_back_to_the_same_identity() {
    let id = ProjectInstanceId::from_u128(0x9d24_a2e2_b011_5bf4_ace9_0705_3e37_ecaf);
    let text = id.to_string();
    assert_eq!(text, "9d24a2e2-b011-5bf4-ace9-07053e37ecaf");
    assert_eq!(ProjectInstanceId::from_str(&text).expect("parse"), id);
    assert_eq!(id.as_u128(), 0x9d24_a2e2_b011_5bf4_ace9_0705_3e37_ecaf);
}

#[test]
fn invalid_identity_text_reports_the_value() {
    let error = ProjectInstanceId::from_str("not-a-uuid").expect_err("invalid");
    assert_eq!(error.value, "not-a-uuid");
    assert!(error.message().starts_with("invalid locald identity `not-a-uuid`: "));
}

#[test]
fn uuid_version_is_read_from_the_value() {
    assert_eq!(uuid_version_of(0x1111_1111_1111_4111_8111_1111_1111_1111), 4);
    assert_eq!(uuid_version_of(0x3ac8_a4a9_14cb_5723_9501_e957_4325_d94a), 5);
}

#[test]
fn written_markers_read_back_as_their_identity() {
    let value = 0x1111_1111_1111_4111_8111_1111_1111_1111u128;
    let payload = marker_payload(value);
    assert_eq!(payload, "v1 11111111-1111-4111-8111-111111111111\n");
    assert_eq!(parse_marker("/m", &payload).expect("marker"), value);
}

fn marker_reason(contents: &str) -> String {
    match parse_marker("/git/locald/repository-id", contents) {
        Err(IdentityError::InvalidMarker { path, reason }) => {
            assert_eq!(path, "/git/locald/repository-id");
            reason
        }
        other => panic!("unexpected marker result {other:?}"),
    }
}

#[test]
fn malformed_markers_are_rejected_with_their_reason() {
    assert_eq!(
        marker_reason("v1 11111111-1111-4111-8111-111111111111"),
        "marker must end with one newline"
    );
    assert_eq!(marker_reason(""), "marker must end with one newline");
    assert_eq!(
        marker_reason("v1 11111111-1111-4111-8111-111111111111\r\n"),
        "marker must contain exactly one line"
    );
    assert_eq!(
        marker_reason("v1 a\nv1 b\n"),
        "marker must contain exactly one line"
    );
    assert_eq!(
        marker_reason("v2 11111111-1111-4111-8111-111111111111\n"),
        "expected `v1 <uuid>`"
    );
    assert!(marker_reason("v1 definitely-not-a-uuid\n").starts_with("invalid UUID: "));
    assert_eq!(
        marker_reason("v1 3ac8a4a9-14cb-5723-9501-e9574325d94a\n"),
        "persisted marker UUID must be version 4"
    );
}
