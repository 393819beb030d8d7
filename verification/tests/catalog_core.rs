use locald_core::catalog::slug::{branch_last_segment, sanitize_slug_hint};
use locald_core::agent::AgentConversationKey;
use locald_core::catalog::discovery::{locator_candidates, unavailable_git_locator, LocatorConflicts};
use locald_core::catalog::reconcile::LocatorProbes;
use locald_core::catalog::legacy::{merge_legacy_evidence, note_locator_source, registry_evidence, RegistryEntry};
use locald_core::catalog::records::{
    CatalogPresence, LegacyLocatorSource, ProjectDiscovery, ProjectInstanceOrigin, ProjectInstanceRecord, ProjectOrigin,
    ProjectRecord, UnresolvedLegacyProject,
};
use locald_core::domain::{DomainIndex, DomainTarget};
use locald_core::catalog::{CatalogError, CatalogPaths, ProjectCatalog};
use locald_core::identity::{
    derive_project_id, derive_project_instance_id, IdentityError, ProjectId, ProjectIdentity, ProjectInstanceId, RepositoryId,
    ResolvedProjectIdentity, WorktreeId,
};

const REPOSITORY: u128 = 0x1111_1111_1111_4111_8111_1111_1111_1111;
const WORKTREE: u128 = 0x2222_2222_2222_4222_8222_2222_2222_2222;
const LINKED_WORKTREE: u128 = 0x3333_3333_3333_4333_8333_3333_3333_3333;

fn no_conflicts() -> LocatorConflicts {
    LocatorConflicts { repository: None, worktree: None, instance: None }
}

fn fresh() -> (ProjectId, ProjectInstanceId) {
    (
        ProjectId::from_u128(0x4444_4444_4444_4444_8444_4444_4444_4444),
        ProjectInstanceId::from_u128(0x5555_5555_5555_4555_8555_5555_5555_5555),
    )
}

fn git_discovery(worktree: u128, worktree_root: &str, worktree_git_dir: &str, relative: &str) -> ProjectDiscovery {
    git_discovery_on_branch(worktree, worktree_root, worktree_git_dir, relative, Some("main"))
}

fn git_discovery_on_branch(
    worktree: u128,
    worktree_root: &str,
    worktree_git_dir: &str,
    relative: &str,
    branch: Option<&str>,
) -> ProjectDiscovery {
    let repository_id = RepositoryId::from_u128(REPOSITORY);
    let worktree_id = WorktreeId::from_u128(worktree);
    let project_id = derive_project_id(repository_id, relative, relative).expect("project id");
    let project_instance_id = derive_project_instance_id(worktree_id, project_id);
    let project_root = if relative.is_empty() {
        worktree_root.to_string()
    } else {
        format!("{worktree_root}/{relative}")
    };
    ProjectDiscovery::Git {
        resolved: ResolvedProjectIdentity {
            identity: ProjectIdentity { repository_id, worktree_id, project_id, project_instance_id },
            common_git_dir: "/work/repo/.git".to_string(),
            worktree_git_dir: worktree_git_dir.to_string(),
            worktree_root: worktree_root.to_string(),
            project_root,
            repository_relative_project_root: relative.to_string(),
        },
        branch: branch.map(str::to_string),
        head: Some("abc123".to_string()),
    }
}

fn primary() -> ProjectDiscovery {
    git_discovery(WORKTREE, "/work/repo", "/work/repo/.git", "")
}

fn register(catalog: &mut ProjectCatalog, discovery: &ProjectDiscovery) -> ProjectInstanceId {
    catalog
        .register_project(discovery, &Some("app".to_string()), 10, &no_conflicts(), fresh(), &String::new(), &Vec::new())
        .expect("register")
}

#[test]
fn catalog_paths_follow_the_data_directory() {
    let paths = CatalogPaths::for_data_dir("/data");
    assert_eq!(paths.catalog, "/data/catalog.json");
    assert_eq!(paths.legacy_registry, "/data/registry.json");
    assert_eq!(paths.legacy_attachments, "/data/attachments.json");
    assert_eq!(paths.legacy_runtime_state, "/data/state.json");
}

#[test]
fn an_empty_catalog_validates() {
    let catalog = ProjectCatalog::with_path("/data/catalog.json".to_string());
    assert!(catalog.validate().is_ok());
    assert_eq!(catalog.storage_path(), "/data/catalog.json");
    assert_eq!(catalog.version(), 4);
    assert!(catalog.project_entries().is_empty());
}

#[test]
fn registering_a_git_project_records_every_identity_level() {
    let mut catalog = ProjectCatalog::with_path("/c".to_string());
    let discovery = primary();
    let id = register(&mut catalog, &discovery);
    assert_eq!(Some(id), discovery.git_project_instance_id());
    assert!(catalog.validate().is_ok());
    assert_eq!(catalog.repositories().len(), 1);
    assert_eq!(catalog.worktrees().len(), 1);
    assert_eq!(catalog.projects().len(), 1);
    assert_eq!(catalog.instances().len(), 1);
    let repository = &catalog.repositories()[0];
    assert_eq!(repository.current_git_dir.as_deref(), Some("/work/repo/.git"));
    assert_eq!(repository.display_name.as_deref(), Some("repo"));
    let worktree = &catalog.worktrees()[0];
    assert_eq!(worktree.display_name.as_deref(), Some("repo"));
    assert_eq!(worktree.branch.as_deref(), Some("main"));
    let instance = &catalog.instances()[0];
    assert_eq!(instance.current_path.as_deref(), Some("/work/repo"));
    assert_eq!(instance.presence, CatalogPresence::Active);
    assert_eq!(instance.display_name.as_deref(), Some("app"));
    assert_eq!(
        catalog.project_instance_for_path(&"/work/repo".to_string(), &"/work/repo".to_string()),
        Some(id)
    );
    let entry = catalog
        .get_project(&"/work/repo".to_string(), &"/work/repo".to_string())
        .expect("entry");
    assert_eq!(entry.path, "/work/repo");
    assert_eq!(entry.name.as_deref(), Some("app"));
    assert_eq!(entry.last_seen, 10);
}

#[test]
fn registering_the_same_discovery_twice_is_stable() {
    let mut catalog = ProjectCatalog::with_path("/c".to_string());
    let discovery = primary();
    let first = register(&mut catalog, &discovery);
    let second = register(&mut catalog, &discovery);
    assert_eq!(first, second);
    assert_eq!(catalog.instances().len(), 1);
    assert_eq!(catalog.repositories().len(), 1);
}

#[test]
fn linked_worktrees_share_the_project_but_not_the_instance() {
    let mut catalog = ProjectCatalog::with_path("/c".to_string());
    let primary_id = register(&mut catalog, &primary());
    let linked = git_discovery(LINKED_WORKTREE, "/work/linked", "/work/repo/.git/worktrees/linked", "");
    assert!(linked.is_linked_worktree());
    assert!(!primary().is_linked_worktree());
    let linked_id = register(&mut catalog, &linked);
    assert_ne!(primary_id, linked_id);
    assert_eq!(catalog.projects().len(), 1);
    assert_eq!(catalog.worktrees().len(), 2);
    assert_eq!(catalog.instances().len(), 2);
    assert!(catalog.validate().is_ok());
}

#[test]
fn a_live_copy_of_the_identity_is_rejected_without_changes() {
    let mut catalog = ProjectCatalog::with_path("/c".to_string());
    register(&mut catalog, &primary());
    let moved = git_discovery(WORKTREE, "/work/copy", "/work/repo/.git", "");
    let conflicts = LocatorConflicts {
        repository: None,
        worktree: Some("/work/repo".to_string()),
        instance: None,
    };
    let result = catalog.register_project(&moved, &None, 20, &conflicts, fresh(), &String::new(), &Vec::new());
    match result {
        Err(CatalogError::LiveIdentityConflict { kind, existing, discovered, .. }) => {
            assert_eq!(kind, "worktree");
            assert_eq!(existing, "/work/repo");
            assert_eq!(discovered, "/work/copy");
        }
        other => panic!("unexpected {other:?}"),
    }
    assert_eq!(catalog.instances()[0].current_path.as_deref(), Some("/work/repo"));
    assert_eq!(catalog.instances()[0].last_seen, 10);
}

#[test]
fn a_moved_worktree_keeps_its_identity_and_remembers_the_old_path() {
    let mut catalog = ProjectCatalog::with_path("/c".to_string());
    let id = register(&mut catalog, &primary());
    let moved = git_discovery(WORKTREE, "/work/moved", "/work/repo/.git", "");
    let moved_id = register(&mut catalog, &moved);
    assert_eq!(id, moved_id);
    let instance = &catalog.instances()[0];
    assert_eq!(instance.current_path.as_deref(), Some("/work/moved"));
    assert_eq!(instance.last_known_path, "/work/repo");
    assert_eq!(
        catalog.project_instance_for_path(&"/work/repo".to_string(), &"/work/repo".to_string()),
        Some(id)
    );
}

#[test]
fn non_git_projects_keep_their_random_identity() {
    let mut catalog = ProjectCatalog::with_path("/c".to_string());
    let discovery = ProjectDiscovery::NonGit { project_root: "/plain".to_string() };
    let id = register(&mut catalog, &discovery);
    assert_eq!(id, fresh().1);
    assert_eq!(catalog.instances()[0].origin, ProjectInstanceOrigin::NonGit);
    let other_fresh = (
        ProjectId::from_u128(0x6666_6666_6666_4666_8666_6666_6666_6666),
        ProjectInstanceId::from_u128(0x7777_7777_7777_4777_8777_7777_7777_7777),
    );
    let again = catalog
        .register_project(&discovery, &None, 30, &no_conflicts(), other_fresh, &String::new(), &Vec::new())
        .expect("again");
    assert_eq!(again, id);
    assert_eq!(catalog.instances().len(), 1);
    assert_eq!(catalog.instances()[0].last_seen, 30);
    assert!(catalog.validate().is_ok());
}

#[test]
fn fresh_identities_name_a_new_non_git_project() {
    let mut catalog = ProjectCatalog::with_path("/c".to_string());
    let discovery = ProjectDiscovery::NonGit { project_root: "/plain".to_string() };
    let id = catalog
        .register_project(&discovery, &None, 1, &no_conflicts(), fresh(), &String::new(), &Vec::new())
        .expect("register");
    assert_eq!(id, fresh().1);
    assert_eq!(locald_core::identity::uuid_version_of(id.as_u128()), 4);
    assert!(catalog.validate().is_ok());
}

#[test]
fn pins_follow_the_resolved_instance() {
    let mut catalog = ProjectCatalog::with_path("/c".to_string());
    register(&mut catalog, &primary());
    let path = "/work/repo".to_string();
    assert!(catalog.pin_project(&path, &path, &Vec::new()));
    assert!(catalog.get_project(&path, &path).expect("entry").pinned);
    assert!(catalog.unpin_project(&path, &path, &Vec::new()));
    assert!(!catalog.get_project(&path, &path).expect("entry").pinned);
    assert!(!catalog.pin_project(&"/nowhere".to_string(), &"/nowhere".to_string(), &Vec::new()));
}

#[test]
fn agent_bindings_are_idempotent_and_fail_closed() {
    let mut catalog = ProjectCatalog::with_path("/c".to_string());
    let id = register(&mut catalog, &primary());
    let key = AgentConversationKey::digest("conversation-1").expect("key");
    let key_again = AgentConversationKey::digest("conversation-1").expect("key");
    assert_eq!(catalog.agent_binding(&key), None);
    assert!(catalog.bind_agent_conversation(key, id).expect("bind"));
    assert_eq!(catalog.agent_binding(&key_again), Some(id));
    assert!(!catalog.bind_agent_conversation(key_again, id).expect("repeat"));
    let other = ProjectInstanceId::from_u128(0x9999);
    let key_third = AgentConversationKey::digest("conversation-1").expect("key");
    assert!(matches!(
        catalog.bind_agent_conversation(key_third, other),
        Err(CatalogError::Invariant(_))
    ));
    let invalid = AgentConversationKey::from_opaque("not-a-digest".to_string());
    assert!(invalid.is_err());
}

#[test]
fn a_different_binding_target_is_refused() {
    let mut catalog = ProjectCatalog::with_path("/c".to_string());
    let id = register(&mut catalog, &primary());
    let linked = git_discovery(LINKED_WORKTREE, "/work/linked", "/work/repo/.git/worktrees/linked", "");
    let other = register(&mut catalog, &linked);
    let key = AgentConversationKey::digest("chat").expect("key");
    assert!(catalog.bind_agent_conversation(key, id).expect("bind"));
    let key = AgentConversationKey::digest("chat").expect("key");
    assert!(matches!(catalog.bind_agent_conversation(key, other), Err(CatalogError::AgentBindingConflict)));
}

#[test]
fn unregistering_forgets_the_instance_and_what_only_it_used() {
    let mut catalog = ProjectCatalog::with_path("/c".to_string());
    let id = register(&mut catalog, &primary());
    let key = AgentConversationKey::digest("chat").expect("key");
    catalog.bind_agent_conversation(key, id).expect("bind");
    let path = "/work/repo".to_string();
    assert!(catalog.unregister_project(&path, &path, &Vec::new()).expect("unregister"));
    assert!(catalog.instances().is_empty());
    assert!(catalog.projects().is_empty());
    assert!(catalog.worktrees().is_empty());
    assert!(catalog.repositories().is_empty());
    assert!(catalog.legacy_paths().is_empty());
    let key = AgentConversationKey::digest("chat").expect("key");
    assert_eq!(catalog.agent_binding(&key), None);
    assert!(!catalog.unregister_project(&path, &path, &Vec::new()).expect("again"));
    assert!(catalog.validate().is_ok());
}

#[test]
fn reconciliation_releases_and_restores_locators() {
    let mut catalog = ProjectCatalog::with_path("/c".to_string());
    let id = register(&mut catalog, &primary());
    let gone = LocatorProbes {
        repositories: vec![(false, false)],
        worktrees: vec![(false, false)],
        instances: vec![(false, false)],
    };
    assert_eq!(catalog.reconcile_missing(&gone).expect("reconcile"), 3);
    assert_eq!(catalog.instances()[0].presence, CatalogPresence::Missing);
    assert_eq!(catalog.instances()[0].current_path, None);
    assert_eq!(catalog.instances()[0].last_known_path, "/work/repo");
    let path = "/work/repo".to_string();
    assert_eq!(catalog.project_instance_for_path(&path, &path), Some(id));
    let back = LocatorProbes {
        repositories: vec![(true, true)],
        worktrees: vec![(true, true)],
        instances: vec![(true, true)],
    };
    assert_eq!(catalog.reconcile_missing(&back).expect("restore"), 3);
    assert_eq!(catalog.instances()[0].presence, CatalogPresence::Active);
    assert_eq!(catalog.instances()[0].current_path.as_deref(), Some("/work/repo"));
    assert_eq!(catalog.reconcile_missing(&back).expect("steady"), 0);
}

#[test]
fn project_entries_are_sorted_by_path() {
    let mut catalog = ProjectCatalog::with_path("/c".to_string());
    register(&mut catalog, &ProjectDiscovery::NonGit { project_root: "/zeta".to_string() });
    let other_fresh = (
        ProjectId::from_u128(0x6666_6666_6666_4666_8666_6666_6666_6666),
        ProjectInstanceId::from_u128(0x7777_7777_7777_4777_8777_7777_7777_7777),
    );
    catalog
        .register_project(
            &ProjectDiscovery::NonGit { project_root: "/alpha".to_string() },
            &None,
            5,
            &no_conflicts(),
            other_fresh,
            &String::new(),
            &Vec::new(),
        )
        .expect("alpha");
    let entries = catalog.project_entries();
    let paths: Vec<&str> = entries.iter().map(|e| e.path.as_str()).collect();
    assert_eq!(paths, vec!["/alpha", "/zeta"]);
}

#[test]
fn linked_worktrees_get_a_stable_fallback_slug() {
    let mut catalog = ProjectCatalog::with_path("/c".to_string());
    let linked = git_discovery_on_branch(LINKED_WORKTREE, "/work/---", "/work/repo/.git/worktrees/linked", "", None);
    let id = register(&mut catalog, &linked);
    let slug = catalog.ensure_worktree_domain_slug(id, true, None).expect("slug").expect("some");
    let text = id.to_string();
    assert_eq!(slug, format!("wt-{}", &text[..8]));
    let again = catalog.ensure_worktree_domain_slug(id, true, Some("feature")).expect("slug");
    assert_eq!(again, Some(slug));
    let primary_id = register(&mut catalog, &primary());
    assert_eq!(catalog.ensure_worktree_domain_slug(primary_id, false, None).expect("primary"), None);
    assert!(catalog.validate().is_ok());
}

#[test]
fn linked_worktree_slug_falls_back_to_the_branch_then_the_display_name() {
    let mut catalog = ProjectCatalog::with_path("/c".to_string());
    let branch = git_discovery_on_branch(
        LINKED_WORKTREE,
        "/work/linked",
        "/work/repo/.git/worktrees/linked",
        "",
        Some("feature/checkout-flow"),
    );
    let id = register(&mut catalog, &branch);
    assert_eq!(catalog.ensure_worktree_domain_slug(id, true, None).expect("slug").as_deref(), Some("checkout-flow"));

    let mut other = ProjectCatalog::with_path("/c".to_string());
    let named = git_discovery_on_branch(LINKED_WORKTREE, "/work/Linked Tree", "/work/repo/.git/worktrees/t", "", None);
    let id = register(&mut other, &named);
    assert_eq!(other.ensure_worktree_domain_slug(id, true, Some("!!!")).expect("slug").as_deref(), Some("linked-tree"));
}

#[test]
fn trusted_slug_labels_are_sanitized() {
    let mut catalog = ProjectCatalog::with_path("/c".to_string());
    let linked = git_discovery(LINKED_WORKTREE, "/work/linked", "/work/repo/.git/worktrees/linked", "");
    let id = register(&mut catalog, &linked);
    assert_eq!(
        catalog.ensure_worktree_domain_slug(id, true, Some("My Täsk_Label!")).expect("slug").as_deref(),
        Some("my-t-sk-label")
    );
}

#[test]
fn colliding_slug_hints_are_numbered_within_a_project() {
    let mut catalog = ProjectCatalog::with_path("/c".to_string());
    let a = register(&mut catalog, &git_discovery(LINKED_WORKTREE, "/work/a", "/work/repo/.git/worktrees/a", ""));
    let b = register(
        &mut catalog,
        &git_discovery(0x3333_3333_3333_4333_8333_3333_3333_3334, "/work/b", "/work/repo/.git/worktrees/b", ""),
    );
    let first = catalog.ensure_worktree_domain_slug(a, true, Some("feature")).expect("a");
    let second = catalog.ensure_worktree_domain_slug(b, true, Some("feature")).expect("b");
    assert_eq!(first.as_deref(), Some("feature"));
    assert_eq!(second.as_deref(), Some("feature-2"));
}

#[test]
fn branch_collisions_are_numbered() {
    let mut catalog = ProjectCatalog::with_path("/c".to_string());
    let first = register(
        &mut catalog,
        &git_discovery_on_branch(LINKED_WORKTREE, "/work/first", "/work/repo/.git/worktrees/first", "", Some("feature/turn-trace")),
    );
    let second = register(
        &mut catalog,
        &git_discovery_on_branch(
            0x3333_3333_3333_4333_8333_3333_3333_3334,
            "/work/second",
            "/work/repo/.git/worktrees/second",
            "",
            Some("bugfix/turn-trace"),
        ),
    );
    assert_eq!(catalog.ensure_worktree_domain_slug(first, true, None).expect("a").as_deref(), Some("turn-trace"));
    assert_eq!(catalog.ensure_worktree_domain_slug(second, true, None).expect("b").as_deref(), Some("turn-trace-2"));
}

#[test]
fn legacy_alias_to_a_missing_instance_is_an_invariant_error() {
    let missing = ProjectInstanceId::from_u128(0x0000_0000_0000_4000_8000_0000_0000_0123);
    let build = |legacy: Vec<(String, ProjectInstanceId)>| {
        ProjectCatalog::from_parts(
            4,
            Vec::new(),
            Vec::new(),
            Vec::new(),
            Vec::new(),
            legacy,
            Vec::new(),
            DomainIndex::default(),
            Vec::new(),
            "/tmp/catalog.json".to_string(),
        )
        .expect("parts")
    };
    assert!(build(Vec::new()).validate().is_ok());
    let catalog = build(vec![("/projects/a".to_string(), missing)]);
    assert!(matches!(catalog.validate(), Err(CatalogError::Invariant(_))));
    let mut image = build(vec![("/projects/a".to_string(), missing)]);
    assert_eq!(
        format!("{:?}", image.upgrade_embedded_schema()),
        format!("{:?}", catalog.validate().map(|_| false))
    );
}

#[test]
fn schema_upgrades_are_reported() {
    let mut catalog = ProjectCatalog::with_path("/c".to_string());
    assert!(!catalog.upgrade_embedded_schema().expect("current"));
}

#[test]
fn unresolved_legacy_paths_match_by_locator() {
    let catalog = ProjectCatalog::with_path("/c".to_string());
    let matches = catalog.matching_unresolved_paths(&"/p".to_string(), &"/p".to_string(), &Vec::new());
    assert!(matches.is_empty());
}

fn all_gone() -> LocatorProbes {
    LocatorProbes { repositories: vec![(false, false)], worktrees: vec![(false, false)], instances: vec![(false, false)] }
}

#[test]
fn clean_forgets_unpinned_missing_instances() {
    let mut catalog = ProjectCatalog::with_path("/c".to_string());
    register(&mut catalog, &primary());
    assert_eq!(catalog.prune_missing_projects(&vec![false], &Vec::new()).expect("nothing missing"), 0);
    assert_eq!(catalog.instances().len(), 1);

    catalog.reconcile_missing(&all_gone()).expect("reconcile");
    assert_eq!(catalog.prune_missing_projects(&vec![true], &Vec::new()).expect("still hosted"), 0);
    assert_eq!(catalog.instances().len(), 1);

    assert_eq!(catalog.prune_missing_projects(&vec![false], &Vec::new()).expect("prune"), 1);
    assert!(catalog.instances().is_empty());
    assert!(catalog.projects().is_empty());
    assert!(catalog.repositories().is_empty());
    assert!(catalog.validate().is_ok());
}

#[test]
fn clean_keeps_pinned_and_agent_bound_instances() {
    let mut catalog = ProjectCatalog::with_path("/c".to_string());
    let id = register(&mut catalog, &primary());
    let path = "/work/repo".to_string();
    catalog.pin_project(&path, &path, &Vec::new());
    catalog.reconcile_missing(&all_gone()).expect("reconcile");
    assert_eq!(catalog.prune_missing_projects(&vec![false], &Vec::new()).expect("pinned"), 0);
    catalog.unpin_project(&path, &path, &Vec::new());

    let key = AgentConversationKey::digest("chat").expect("key");
    catalog.bind_agent_conversation(key, id).expect("bind");
    assert_eq!(catalog.prune_missing_projects(&vec![false], &Vec::new()).expect("bound"), 0);
    assert_eq!(catalog.instances().len(), 1);
    assert!(catalog.unregister_project(&path, &path, &Vec::new()).expect("explicit forget"));
}

#[test]
fn clean_forgets_missing_non_git_projects_without_probing() {
    let mut catalog = ProjectCatalog::with_path("/c".to_string());
    register(&mut catalog, &ProjectDiscovery::NonGit { project_root: "/scratch".to_string() });
    let gone = LocatorProbes { repositories: Vec::new(), worktrees: Vec::new(), instances: vec![(false, false)] };
    catalog.reconcile_missing(&gone).expect("reconcile");
    assert_eq!(catalog.prune_missing_projects(&vec![true], &Vec::new()).expect("prune"), 1);
    assert!(catalog.instances().is_empty());
}

#[test]
fn probing_candidates_skip_the_discovered_locator() {
    let discovered = "/new".to_string();
    assert_eq!(
        locator_candidates(&Some("/old".to_string()), &"/older".to_string(), &discovered),
        vec!["/old".to_string(), "/older".to_string()]
    );
    assert_eq!(locator_candidates(&Some("/new".to_string()), &"/older".to_string(), &discovered), vec!["/older".to_string()]);
    assert_eq!(locator_candidates(&Some("/old".to_string()), &"/old".to_string(), &discovered), vec!["/old".to_string()]);
    assert!(locator_candidates(&None, &"/new".to_string(), &discovered).is_empty());
}

#[test]
fn unavailable_git_locators_are_classified() {
    assert!(unavailable_git_locator(&IdentityError::BareRepository { git_dir: "/g".to_string() }));
    assert!(unavailable_git_locator(&IdentityError::MarkerIo {
        operation: "read".to_string(),
        path: "/m".to_string(),
        reason: "denied".to_string()
    }));
    assert!(!unavailable_git_locator(&IdentityError::NotGit { project_root: "/p".to_string() }));
    assert!(!unavailable_git_locator(&IdentityError::InvalidMarker { path: "/m".to_string(), reason: "bad".to_string() }));
}

fn legacy_catalog(claims: Vec<&str>) -> (ProjectCatalog, ProjectInstanceId) {
    let pid = ProjectId::from_u128(0x6666_6666_6666_4666_8666_6666_6666_6666);
    let iid = ProjectInstanceId::from_u128(0x7777_7777_7777_4777_8777_7777_7777_7777);
    let project = ProjectRecord { id: pid, origin: ProjectOrigin::NonGit, display_name: None };
    let instance = ProjectInstanceRecord {
        id: iid,
        project_id: pid,
        origin: ProjectInstanceOrigin::NonGit,
        current_path: Some("/legacy".to_string()),
        last_known_path: "/legacy".to_string(),
        presence: CatalogPresence::Active,
        display_name: Some("legacy-domain".to_string()),
        pinned: false,
        last_seen: 0,
        domain_slug: None,
        domain_claims: claims.into_iter().map(str::to_string).collect(),
    };
    let catalog = ProjectCatalog::from_parts(
        4,
        Vec::new(),
        Vec::new(),
        vec![(pid, project)],
        vec![(iid, instance)],
        Vec::new(),
        Vec::new(),
        DomainIndex::default(),
        Vec::new(),
        "/c".to_string(),
    )
    .expect("parts");
    (catalog, iid)
}

#[test]
fn legacy_flat_domain_claims_hydrate_as_owned_exact_names() {
    let (mut catalog, iid) = legacy_catalog(vec!["LEGACY.LOCALHOST."]);
    catalog.hydrate_legacy_domain_index().expect("hydrate legacy claims");
    assert_eq!(
        catalog.domain_index().resolve("legacy.localhost"),
        Some(&DomainTarget::Service { project_instance_id: iid, service_name: None, primary: true })
    );
    assert_eq!(catalog.instances()[0].domain_claims, vec!["legacy.localhost".to_string()]);
}

#[test]
fn unparseable_legacy_claims_leave_the_catalog_unchanged() {
    let (mut catalog, _) = legacy_catalog(vec!["http://bad/path"]);
    assert!(matches!(catalog.hydrate_legacy_domain_index(), Err(CatalogError::Domain(_))));
    assert_eq!(catalog.instances()[0].domain_claims, vec!["http://bad/path".to_string()]);
}

fn evidence(path: &str, name: Option<&str>, pinned: bool, last_seen: Option<u64>, sources: Vec<LegacyLocatorSource>) -> UnresolvedLegacyProject {
    UnresolvedLegacyProject { path: path.to_string(), display_name: name.map(str::to_string), pinned, last_seen, sources }
}

#[test]
fn legacy_evidence_merges_per_normalized_locator() {
    let merged = merge_legacy_evidence(vec![
        evidence("/b", Some("old"), false, Some(5), vec![LegacyLocatorSource::Registry]),
        evidence("/a", None, false, None, vec![LegacyLocatorSource::RuntimeState]),
        evidence("/b", Some("new"), true, Some(9), vec![LegacyLocatorSource::Attachment]),
        evidence("/b", Some("stale"), false, Some(1), vec![LegacyLocatorSource::Registry]),
        evidence("/a", Some("named"), false, None, vec![LegacyLocatorSource::ManualStop]),
    ]);
    assert_eq!(merged.len(), 2);
    assert_eq!(merged[0].path, "/a");
    assert_eq!(merged[0].display_name.as_deref(), Some("named"));
    assert_eq!(merged[0].sources, vec![LegacyLocatorSource::ManualStop, LegacyLocatorSource::RuntimeState]);
    assert_eq!(merged[1].path, "/b");
    assert_eq!(merged[1].display_name.as_deref(), Some("new"));
    assert!(merged[1].pinned);
    assert_eq!(merged[1].last_seen, Some(9));
    assert_eq!(merged[1].sources, vec![LegacyLocatorSource::Registry, LegacyLocatorSource::Attachment]);
}

#[test]
fn unresolved_legacy_evidence_is_kept_per_path() {
    let mut catalog = ProjectCatalog::with_path("/c".to_string());
    catalog.record_unresolved_legacy(evidence("/z", None, false, None, vec![LegacyLocatorSource::Registry]));
    catalog.record_unresolved_legacy(evidence("/y", None, true, None, vec![LegacyLocatorSource::Attachment]));
    catalog.record_unresolved_legacy(evidence("/z", Some("zed"), false, Some(3), vec![LegacyLocatorSource::Registry]));
    let kept = catalog.unresolved_legacy();
    assert_eq!(kept.len(), 2);
    assert_eq!(kept[0].path, "/y");
    assert_eq!(kept[1].display_name.as_deref(), Some("zed"));
    assert!(catalog.validate().is_ok());

    let mut pruned = catalog;
    assert_eq!(pruned.prune_missing_projects(&Vec::new(), &vec![false, false]).expect("prune"), 1);
    assert_eq!(pruned.unresolved_legacy().len(), 1);
    assert_eq!(pruned.unresolved_legacy()[0].path, "/y");
}

#[test]
fn mismatched_legacy_registry_path_blocks_catalog_creation() {
    let entry = RegistryEntry {
        key: "/projects/a".to_string(),
        recorded_path: Some("/projects/b".to_string()),
        name: None,
        pinned: false,
        last_seen: None,
    };
    let result = registry_evidence(&"/data/registry.json".to_string(), &vec![entry]);
    match result {
        Err(CatalogError::InvalidData { path, reason }) => {
            assert_eq!(path, "/data/registry.json");
            assert!(reason.contains("disagrees with entry path"));
        },
        other => panic!("expected invalid registry, got {other:?}"),
    }
}

#[test]
fn registry_and_compatibility_sources_are_unioned() {
    let entries = vec![
        RegistryEntry {
            key: "/projects/a/".to_string(),
            recorded_path: Some("/projects/a".to_string()),
            name: Some("a".to_string()),
            pinned: true,
            last_seen: Some(4),
        },
        RegistryEntry { key: "/projects/b".to_string(), recorded_path: None, name: None, pinned: false, last_seen: None },
    ];
    let mut evidence = registry_evidence(&"/data/registry.json".to_string(), &entries).expect("registry");
    assert_eq!(evidence.len(), 2);
    assert_eq!(evidence[0].display_name.as_deref(), Some("a"));
    assert!(evidence[0].pinned);
    note_locator_source(&mut evidence, &vec!["/projects/b".to_string(), "/projects/c".to_string()], LegacyLocatorSource::Attachment);
    note_locator_source(&mut evidence, &vec!["/projects/b".to_string()], LegacyLocatorSource::RuntimeState);
    assert_eq!(evidence.len(), 3);
    assert_eq!(
        evidence[1].sources,
        vec![LegacyLocatorSource::Registry, LegacyLocatorSource::Attachment, LegacyLocatorSource::RuntimeState]
    );
    assert_eq!(evidence[2].path, "/projects/c");
    assert_eq!(evidence[2].sources, vec![LegacyLocatorSource::Attachment]);
}

#[test]
fn slug_hints_are_sanitized_labels_of_the_last_branch_segment() {
    assert_eq!(branch_last_segment("feature/checkout-flow"), "checkout-flow");
    assert_eq!(branch_last_segment("main"), "main");
    assert_eq!(branch_last_segment("trailing/"), "");
    assert_eq!(sanitize_slug_hint("--My___Task // v2--").as_deref(), Some("my-task-v2"));
    assert_eq!(sanitize_slug_hint("___"), None);
    assert_eq!(sanitize_slug_hint(&"a".repeat(64)).map(|s| s.len()), Some(63));
}

#[test]
fn agent_binding_accepts_a_digest_key() {
    let mut catalog = ProjectCatalog::with_path("/c".to_string());
    let id = register(&mut catalog, &primary());
    let key = AgentConversationKey::digest("private conversation").expect("digest");
    assert_eq!(catalog.bind_agent_conversation(key.clone(), id).expect("bind"), true);
    assert_eq!(catalog.bind_agent_conversation(key.clone(), id).expect("again"), false);
    let other = catalog
        .register_project(
            &ProjectDiscovery::NonGit { project_root: "/other".to_string() },
            &None,
            5,
            &no_conflicts(),
            (
                ProjectId::from_u128(0x6666_6666_6666_4666_8666_6666_6666_6666),
                ProjectInstanceId::from_u128(0x7777_7777_7777_4777_8777_7777_7777_7777),
            ),
            &String::new(),
            &Vec::new(),
        )
        .expect("other");
    assert!(matches!(catalog.bind_agent_conversation(key.clone(), other), Err(CatalogError::AgentBindingConflict)));
    assert_eq!(catalog.agent_binding(&key), Some(id));
    let missing = ProjectInstanceId::from_u128(0x0000_0000_0000_4000_8000_0000_0000_0999);
    let fresh_key = AgentConversationKey::digest("another conversation").expect("digest");
    assert!(matches!(catalog.bind_agent_conversation(fresh_key, missing), Err(CatalogError::Invariant(_))));
}

#[test]
fn project_entries_are_keyed_by_their_path() {
    let mut catalog = ProjectCatalog::with_path("/c".to_string());
    register(&mut catalog, &ProjectDiscovery::NonGit { project_root: "/zeta".to_string() });
    let by_path = catalog.project_entries_by_path();
    assert_eq!(by_path.len(), 1);
    assert_eq!(by_path[0].0, "/zeta");
    assert_eq!(by_path[0].1.path, "/zeta");
    assert_eq!(by_path[0].1.name.as_deref(), Some("app"));
}
