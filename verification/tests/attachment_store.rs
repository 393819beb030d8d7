use locald_core::attachments::{
    Attachment, AttachmentSource, AttachmentStore, AttachmentStoreSnapshot, ManualCliSession, ProjectSection,
};
use locald_core::availability::{MANUAL_DEMAND_TTL, NANOS_PER_SECOND, VSCODE_DEMAND_TTL};
use locald_core::identity::ProjectInstanceId;
use std::time::{SystemTime, UNIX_EPOCH};

fn now_nanos() -> u64 {
    SystemTime::now().duration_since(UNIX_EPOCH).unwrap().as_nanos() as u64
}

fn secs(n: u64) -> u64 {
    n * NANOS_PER_SECOND
}

fn store() -> AttachmentStore {
    AttachmentStore::new("/state/attachments.json".to_string())
}

fn project() -> String {
    "/projects/project".to_string()
}

fn attachment(path: &str, source: AttachmentSource, created_at: u64) -> Attachment {
    Attachment { project_path: path.to_string(), source, created_at }
}

fn editor(name: &str, id: &str, pid: Option<u32>) -> AttachmentSource {
    AttachmentSource::Editor { name: name.to_string(), id: id.to_string(), pid }
}

fn instance() -> ProjectInstanceId {
    ProjectInstanceId::from_str("00000000-0000-4000-8000-000000000123").expect("parse project instance ID")
}

#[test]
fn attach_and_detach_updates_counts() {
    let mut store = store();
    let project = project();

    let first = store.attach(attachment(&project, AttachmentSource::Pin, now_nanos())).expect("attach pin");
    assert!(first);
    assert_eq!(store.attachments_for(&project).len(), 1);

    let second = store
        .attach(attachment(&project, AttachmentSource::CLI { pid: 1234 }, now_nanos()))
        .expect("attach CLI");
    assert!(!second);
    assert_eq!(store.attachments_for(&project).len(), 2);

    let last_removed = store.detach(&project, &AttachmentSource::Pin);
    assert!(!last_removed);
    assert_eq!(store.attachments_for(&project).len(), 1);

    let last_removed = store.detach(&project, &AttachmentSource::CLI { pid: 1234 });
    assert!(last_removed);
    assert!(store.attachments_for(&project).is_empty());
}

#[test]
fn section_for_respects_pin_and_activity() {
    let mut store = store();
    let project = project();

    assert_eq!(store.section_for(&project), ProjectSection::Recent);

    store.attach(attachment(&project, AttachmentSource::CLI { pid: 42 }, now_nanos())).expect("attach CLI");
    assert_eq!(store.section_for(&project), ProjectSection::Active);

    store.attach(attachment(&project, AttachmentSource::Pin, now_nanos())).expect("attach pin");
    assert_eq!(store.section_for(&project), ProjectSection::Active);

    store.detach(&project, &AttachmentSource::CLI { pid: 42 });
    assert_eq!(store.section_for(&project), ProjectSection::AlwaysOn);
}

#[test]
fn detach_all_non_pin_keeps_pin() {
    let mut store = store();
    let project = project();

    store.attach(attachment(&project, AttachmentSource::Pin, now_nanos())).expect("attach pin");
    store.attach(attachment(&project, AttachmentSource::CLI { pid: 42 }, now_nanos())).expect("attach CLI");

    let last_removed = store.detach_all_non_pin(&project);
    assert!(!last_removed);

    let remaining = store.attachments_for(&project);
    assert_eq!(remaining.len(), 1);
    assert!(matches!(remaining[0].source, AttachmentSource::Pin));
}

#[test]
fn reap_stale_attachments_prunes_legacy_old_editor() {
    let mut store = store();
    let project = project();
    let now = now_nanos();

    store
        .attach(attachment(&project, editor("vscode", "abc", None), now - secs(31 * 60)))
        .expect("attach old editor");

    let removed = store.reap_stale_attachments_with(now, &[]);
    assert_eq!(removed, vec![project.clone()]);
    assert!(store.attachments_for(&project).is_empty());
}

#[test]
fn reap_stale_attachments_keeps_legacy_fresh_editor() {
    let mut store = store();
    let project = project();
    let now = now_nanos();

    store.attach(attachment(&project, editor("vscode", "abc", None), now)).expect("attach fresh editor");

    let removed = store.reap_stale_attachments_with(now, &[]);
    assert!(removed.is_empty());
    assert_eq!(store.attachments_for(&project).len(), 1);
}

#[test]
fn pidless_editor_compatibility_expires_with_the_authoritative_editor_lease() {
    let mut store = store();
    let project = project();
    let now = secs(10_000);
    store
        .attach(attachment(&project, editor("vscode", "window", None), now - VSCODE_DEMAND_TTL))
        .expect("attach editor at expiry boundary");
    store.set_instance_owner(&project, instance());

    assert_eq!(store.reap_stale_attachments_with(now, &[]), vec![project.clone()]);
}

#[test]
fn unclaimed_pidless_editor_uses_legacy_liveness_until_instance_claim() {
    let mut store = store();
    let project = project();
    let now = secs(10_000);
    store
        .attach(attachment(&project, editor("vscode", "legacy-window", None), now - secs(5 * 60)))
        .expect("attach five-minute-old legacy editor");

    assert!(store.compatibility_evidence_at(now, &[])[0].attachments[0].alive);
    assert!(store.reap_stale_attachments_with(now, &[]).is_empty());

    store.set_instance_owner(&project, instance());
    assert_eq!(store.reap_stale_attachments_with(now, &[]), vec![project.clone()]);
}

#[test]
fn deferred_runtime_evidence_expires_after_its_migration_window() {
    let mut store = store();
    let project = project();
    let now = secs(20_000);
    store.replace_project(
        &project,
        vec![attachment(&project, AttachmentSource::Runtime, now - MANUAL_DEMAND_TTL + secs(1))],
        false,
    );

    assert!(store.compatibility_evidence_at(now, &[])[0].attachments[0].alive);
    let after_deadline = now + secs(1);
    assert_eq!(store.reap_stale_attachments_with(after_deadline, &[]), Vec::<String>::new());
    assert!(store.attachments_for(&project).is_empty());
}

#[test]
fn reap_stale_attachments_prunes_dead_editor_pid() {
    let mut store = store();
    let project = project();

    store
        .attach(attachment(&project, editor("vscode", "abc", Some(u32::MAX)), now_nanos()))
        .expect("attach dead editor");

    let removed = store.reap_stale_attachments_with(now_nanos(), &[]);
    assert_eq!(removed, vec![project.clone()]);
    assert!(store.attachments_for(&project).is_empty());
}

#[test]
fn reap_stale_attachments_keeps_pin() {
    let mut store = store();
    let project = project();
    let now = now_nanos();

    store.attach(attachment(&project, AttachmentSource::Pin, now - secs(31 * 60))).expect("attach pin");

    let removed = store.reap_stale_attachments_with(now, &[]);
    assert!(removed.is_empty());
    assert_eq!(store.attachments_for(&project).len(), 1);
}

#[test]
fn detach_editor_matching_ignores_pid() {
    let mut store = store();
    let project = project();

    store.attach(attachment(&project, editor("vscode", "abc", Some(1234)), now_nanos())).expect("attach editor");

    let last_removed = store.detach(&project, &editor("", "abc", None));

    assert!(last_removed);
    assert!(store.attachments_for(&project).is_empty());
}

#[test]
fn exact_snapshot_removal_preserves_refreshed_editor_owner() {
    let project = "/projects/editor-refresh".to_string();
    let stale = attachment(&project, editor("Code", "window-a", Some(10)), secs(1));
    let refreshed = attachment(&project, editor("Code", "window-a", Some(20)), secs(2));
    let mut snapshot = AttachmentStoreSnapshot::default();
    snapshot.replace_project(&project, vec![refreshed.clone()], false);

    assert!(!snapshot.remove_exact_attachment(&project, &stale));
    assert_eq!(snapshot.project(&project).attachments, vec![refreshed]);
}

#[test]
fn snapshot_target_replacement_reports_an_exact_multiset_delta() {
    let canonical = "/projects/project".to_string();
    let first = attachment(&canonical, AttachmentSource::CLI { pid: 1 }, secs(10));
    let duplicate = first.clone();
    let retained = attachment(&canonical, AttachmentSource::Pin, secs(20));
    let added = attachment(&canonical, editor("vscode", "window", None), secs(30));

    let mut snapshot = AttachmentStoreSnapshot::default();
    snapshot.attachments.push((canonical.clone(), vec![first.clone(), duplicate, retained.clone()]));

    let delta = snapshot.replace_project(&canonical, vec![first.clone(), retained.clone(), added.clone()], true);

    assert_eq!(delta.before.attachments.len(), 3);
    assert_eq!(delta.after.attachments, vec![first, retained, added.clone()]);
    assert_eq!(delta.removed.len(), 1);
    assert!(matches!(delta.removed[0].source, AttachmentSource::CLI { pid: 1 }));
    assert_eq!(delta.added, vec![added]);
    assert!(delta.after.manually_stopped);
    assert_eq!(snapshot.project(&canonical), delta.after);
}

#[test]
fn compatibility_evidence_uses_injected_time_and_process_liveness() {
    let first_project = "/tmp/dir/a-project".to_string();
    let stopped_project = "/tmp/dir/b-stopped".to_string();
    let now = secs(10_000);
    let attachments = vec![
        attachment(&first_project, AttachmentSource::CLI { pid: 10 }, now),
        attachment(&first_project, editor("vscode", "old-window", None), now - secs(31 * 60)),
        attachment(&first_project, AttachmentSource::Runtime, 0),
    ];
    let mut store = store();
    store.replace_project(&first_project, attachments, false);
    store.mark_stopped(&stopped_project);

    let evidence = store.compatibility_evidence_at(now, &[10]);

    assert_eq!(evidence.len(), 2);
    assert_eq!(evidence[0].project_path, first_project);
    assert_eq!(evidence[0].attachments.iter().map(|item| item.alive).collect::<Vec<_>>(), vec![true, false, true]);
    assert!(!evidence[0].manually_stopped);
    assert_eq!(evidence[1].project_path, stopped_project);
    assert!(evidence[1].attachments.is_empty());
    assert!(evidence[1].manually_stopped);
}

#[test]
fn deterministic_reaper_keeps_parked_evidence_and_reports_orphaned_projects() {
    let project = project();
    let now = secs(10_000);
    let mut store = store();
    store.replace_project(
        &project,
        vec![
            attachment(&project, AttachmentSource::Runtime, 0),
            attachment(&project, AttachmentSource::CLI { pid: 22 }, now),
        ],
        false,
    );

    let orphaned = store.reap_stale_attachments_with(now, &[]);

    assert_eq!(orphaned, vec![project.clone()]);
    assert_eq!(store.attachments_for(&project).len(), 1);
    assert!(matches!(store.attachments_for(&project)[0].source, AttachmentSource::Runtime));
}

#[test]
fn runtime_evidence_cannot_be_attached() {
    let mut store = store();
    let result = store.attach(attachment(&project(), AttachmentSource::Runtime, 0));
    assert!(result.is_err());
    assert!(store.attachments_for(&project()).is_empty());
    assert!(store.all_projects().is_empty());
}

#[test]
fn attaching_a_matching_source_replaces_it_and_goes_last() {
    let mut store = store();
    let project = project();
    store.attach(attachment(&project, editor("vscode", "w", Some(1)), secs(1))).unwrap();
    store.attach(attachment(&project, AttachmentSource::Pin, secs(2))).unwrap();
    let first = store.attach(attachment(&project, editor("vscode", "w", Some(2)), secs(3))).unwrap();
    assert!(!first);
    let held = store.attachments_for(&project);
    assert_eq!(held.len(), 2);
    assert!(matches!(held[0].source, AttachmentSource::Pin));
    assert_eq!(held[1].source, editor("vscode", "w", Some(2)));
}

#[test]
fn parked_evidence_alone_leaves_the_first_attach_first() {
    let mut store = store();
    let project = project();
    store.replace_project(&project, vec![attachment(&project, AttachmentSource::Runtime, 0)], false);
    assert!(store.attach(attachment(&project, AttachmentSource::CLI { pid: 5 }, secs(1))).unwrap());
    assert_eq!(store.attachments_for(&project).len(), 2);
}

#[test]
fn detaching_the_last_owner_clears_the_instance_owner_unless_stopped() {
    let mut store = store();
    let project = project();
    store.attach(attachment(&project, AttachmentSource::CLI { pid: 5 }, secs(1))).unwrap();
    store.set_instance_owner(&project, instance());
    assert!(store.detach(&project, &AttachmentSource::CLI { pid: 5 }));
    assert_eq!(store.snapshot().instance_owner(&project), None);

    store.attach(attachment(&project, AttachmentSource::CLI { pid: 6 }, secs(2))).unwrap();
    store.set_instance_owner(&project, instance());
    store.mark_stopped(&project);
    assert!(store.detach(&project, &AttachmentSource::CLI { pid: 6 }));
    assert_eq!(store.snapshot().instance_owner(&project), Some(instance()));
    store.clear_stopped(&project);
    assert_eq!(store.snapshot().instance_owner(&project), None);
}

#[test]
fn forget_project_removes_everything_it_owned() {
    let mut store = store();
    let project = project();
    assert!(!store.forget_project(&project));
    store.attach(attachment(&project, AttachmentSource::Pin, secs(1))).unwrap();
    store.mark_stopped(&project);
    store.set_instance_owner(&project, instance());
    assert!(store.forget_project(&project));
    assert!(store.attachments_for(&project).is_empty());
    assert!(!store.is_stopped(&project));
    assert_eq!(store.snapshot().instance_owner(&project), None);
}

#[test]
fn manual_stop_marks_and_clears() {
    let mut store = store();
    let project = project();
    store.mark_stopped(&project);
    assert!(store.is_stopped(&project));
    store.clear_stopped(&project);
    assert!(!store.is_stopped(&project));
}

#[test]
fn all_projects_lists_attached_paths_in_order() {
    let mut store = store();
    store.attach(attachment("/p/b", AttachmentSource::Pin, 0)).unwrap();
    store.attach(attachment("/p/a", AttachmentSource::Pin, 0)).unwrap();
    store.mark_stopped(&"/p/c".to_string());
    assert_eq!(store.all_projects(), vec!["/p/a".to_string(), "/p/b".to_string()]);
}

#[test]
fn single_project_reaping_reports_its_last_live_owner() {
    let mut store = store();
    let project = project();
    store.attach(attachment(&project, AttachmentSource::CLI { pid: 7 }, 0)).unwrap();
    assert!(!store.reap_stale_attachments_for_with(&project, secs(1), &[7]));
    assert!(store.reap_stale_attachments_for_with(&project, secs(1), &[]));
    assert!(!store.reap_stale_attachments_for_with(&project, secs(1), &[]));
}

#[test]
fn manual_cli_sessions_match_only_themselves() {
    let session = ManualCliSession::new(77, 0x1111_1111_1111_4111_8111_1111_1111_1111);
    assert_eq!(session.pid(), 77);
    assert_eq!(session.id(), 0x1111_1111_1111_4111_8111_1111_1111_1111);
    assert_eq!((session.id() >> 76) & 0xf, 4);
    let other = ManualCliSession::new(77, 0x2222_2222_2222_4222_8222_2222_2222_2222);
    let mut store = store();
    let project = project();
    store.attach(attachment(&project, session.attachment_source(), 0)).unwrap();
    assert!(!store.detach(&project, &other.attachment_source()));
    assert!(store.detach(&project, &session.attachment_source()));
}

#[test]
fn exact_validation_names_each_broken_invariant() {
    let mut snapshot = AttachmentStoreSnapshot::default();
    assert!(snapshot.validate_exact().is_ok());

    snapshot.attachments.push(("/p/a".to_string(), Vec::new()));
    let error = snapshot.validate_exact().unwrap_err();
    assert!(error.contains("empty compatibility entry"));
    assert!(error.contains("/p/a"));

    let mut foreign = AttachmentStoreSnapshot::default();
    foreign.attachments.push(("/p/a".to_string(), vec![attachment("/p/b", AttachmentSource::Pin, 0)]));
    assert!(foreign.validate_exact().unwrap_err().contains("different project path"));

    let mut orphan = AttachmentStoreSnapshot::default();
    orphan.set_instance_owner(&"/p/a".to_string(), instance());
    assert!(orphan.validate_exact().unwrap_err().contains("instance owner without compatibility state"));
    orphan.replace_project(&"/p/a".to_string(), Vec::new(), true);
    assert!(orphan.validate_exact().is_ok());
}

#[test]
fn replacement_relabels_and_clears_owners_of_abandoned_projects() {
    let mut snapshot = AttachmentStoreSnapshot::default();
    let project = project();
    let delta = snapshot.replace_project(&project, vec![attachment("/elsewhere", AttachmentSource::Pin, 3)], false);
    assert_eq!(delta.after.attachments[0].project_path, project);
    assert!(delta.removed.is_empty());
    assert_eq!(delta.added.len(), 1);
    snapshot.set_instance_owner(&project, instance());
    assert_eq!(snapshot.instance_owner(&project), Some(instance()));

    let delta = snapshot.replace_project(&project, Vec::new(), false);
    assert_eq!(delta.removed.len(), 1);
    assert!(delta.added.is_empty());
    assert_eq!(snapshot.instance_owner(&project), None);
    assert!(snapshot.attachments.is_empty());
}

#[test]
fn publication_leaves_out_empty_entries() {
    let mut snapshot = AttachmentStoreSnapshot::default();
    snapshot.attachments.push(("/p/a".to_string(), Vec::new()));
    snapshot.attachments.push(("/p/b".to_string(), vec![attachment("/p/b", AttachmentSource::Pin, 0)]));
    assert!(snapshot.is_well_formed());
    let mut store = store();
    store.apply_snapshot(snapshot);
    let published = store.publication_snapshot();
    assert_eq!(published.attachments.len(), 1);
    assert_eq!(published.attachments[0].0, "/p/b");
}

#[test]
fn legacy_aliases_merge_in_entry_order_and_owners_must_agree() {
    let entries = vec![
        ("/p/a".to_string(), vec![attachment("/p/alias", AttachmentSource::CLI { pid: 1 }, 0)]),
        ("/p/b".to_string(), vec![attachment("/p/b", AttachmentSource::Pin, 0)]),
        ("/p/a".to_string(), vec![attachment("/p/a", AttachmentSource::CLI { pid: 2 }, 0)]),
    ];
    let store = AttachmentStore::from_legacy_state(
        "/state/attachments.json".to_string(),
        entries.clone(),
        vec!["/p/c".to_string()],
        vec![("/p/a".to_string(), instance()), ("/p/a".to_string(), instance())],
    )
    .expect("agreeing owners merge");
    let held = store.attachments_for(&"/p/a".to_string());
    assert_eq!(held.len(), 2);
    assert_eq!(held[0].source, AttachmentSource::CLI { pid: 1 });
    assert_eq!(held[0].project_path, "/p/a");
    assert_eq!(held[1].source, AttachmentSource::CLI { pid: 2 });
    assert!(store.is_stopped(&"/p/c".to_string()));
    assert_eq!(store.storage_path(), "/state/attachments.json");

    let other = ProjectInstanceId::from_str("00000000-0000-4000-8000-000000000124").unwrap();
    let conflict = AttachmentStore::from_legacy_state(
        "/state/attachments.json".to_string(),
        entries,
        Vec::new(),
        vec![("/p/a".to_string(), instance()), ("/p/a".to_string(), other)],
    );
    assert!(conflict.unwrap_err().contains("disagree about their project instance owner"));
}

#[test]
fn out_of_order_snapshots_are_not_well_formed() {
    let mut snapshot = AttachmentStoreSnapshot::default();
    snapshot.manually_stopped = vec!["/p/b".to_string(), "/p/a".to_string()];
    assert!(!snapshot.is_well_formed());
}
