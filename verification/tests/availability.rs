use locald_core::availability::{
    availability_hierarchy_owners, availability_path, prepare_availability_batch, prepared_publication,
    AvailabilityBatch, AvailabilityBatchDisposition, AvailabilityBatchOperation, AvailabilityError,
    AvailabilityStateImage, ConvergenceDecision, DemandKey, DemandKind, EnsureDemandEffect, ProjectAvailability,
    RenewDemandResult, NANOS_PER_SECOND, SHUTDOWN_COOLDOWN, VSCODE_DEMAND_TTL,
};
use locald_core::identity::ProjectInstanceId;

const START_SECONDS: u64 = 1_000_000;

fn start() -> u64 {
    START_SECONDS * NANOS_PER_SECOND
}

#[test]
fn desired_state_combines_always_on_pause_and_live_demands() {
    let now = start();
    let mut availability = ProjectAvailability::default();

    assert!(!availability.desired_up_at(now));
    availability.always_on = true;
    assert!(availability.desired_up_at(now));
    availability.pause_through_generation = Some(0);
    assert!(!availability.desired_up_at(now));
    availability.activity_generation = 1;
    assert!(availability.desired_up_at(now));
}

#[test]
fn cooldown_defers_shutdown_without_authorizing_start_or_restore() {
    let now = start();
    let mut availability =
        ProjectAvailability { shutdown_cooldown_until: Some(now + SHUTDOWN_COOLDOWN), ..ProjectAvailability::default() };

    assert!(!availability.desired_up_at(now));
    assert!(availability.shutdown_deferred_at(now));
    assert!(!availability.shutdown_deferred_at(now + SHUTDOWN_COOLDOWN));

    availability.pause_through_generation = Some(0);
    assert!(!availability.shutdown_deferred_at(now));
}

#[test]
fn first_publication_repairs_every_hierarchy_owner() {
    assert_eq!(
        availability_hierarchy_owners("/existing/missing/nested/instances/instance-id"),
        vec![
            "/existing/missing/nested/instances".to_string(),
            "/existing/missing/nested".to_string(),
            "/existing/missing".to_string(),
            "/existing".to_string(),
            "/".to_string(),
        ]
    );
}

#[test]
fn availability_lives_under_the_instance_directory() {
    let id = ProjectInstanceId::from_u128(0x0123_4567_89ab_cdef_0123_4567_89ab_cdef);
    assert_eq!(
        availability_path("/data", id),
        "/data/instances/01234567-89ab-cdef-0123-456789abcdef/availability.json"
    );
    assert_eq!(
        availability_path("/data/", id),
        "/data/instances/01234567-89ab-cdef-0123-456789abcdef/availability.json"
    );
}

#[test]
fn owned_keys_are_private_digests() {
    let key = DemandKey::vs_code_window("window-1").expect("owned key");
    let again = DemandKey::vs_code_window("window-1").expect("owned key");
    assert_eq!(key, again);
    assert_eq!(key.kind(), DemandKind::VsCodeWindow);
    assert_eq!(key.safe_label(), "VS Code window");
    let digest = key.owner.as_ref().expect("owner").digest.clone();
    assert_eq!(digest.len(), 64);
    assert!(!digest.contains("window"));
    assert!(key.validate().is_ok());
    assert_ne!(key, DemandKey::agent_conversation("window-1").expect("owned key"));
    assert!(DemandKey::vs_code_window("  \t").is_err());
    assert!(DemandKey::manual_cli().validate().is_ok());
}

#[test]
fn ensure_acquires_renews_and_resumes() {
    let now = start();
    let mut availability = ProjectAvailability::default();
    let editor = DemandKey::vs_code_window("window-1").expect("editor key");

    let acquired = availability.ensure_demand(editor.clone(), now).expect("acquire");
    assert_eq!(acquired.effect, EnsureDemandEffect::Acquired);
    assert_eq!(acquired.lease.generation(), 1);
    assert_eq!(acquired.lease.expires_at(), Some(now + VSCODE_DEMAND_TTL));
    assert!(availability.desired_up_at(now));

    let renewed = availability.ensure_demand(editor.clone(), now + 10).expect("renew");
    assert_eq!(renewed.effect, EnsureDemandEffect::Renewed);
    assert_eq!(renewed.lease.generation(), 1);

    assert!(availability.pause_project());
    assert!(!availability.desired_up_at(now + 10));
    let resumed = availability.ensure_demand(editor, now + 20).expect("resume");
    assert_eq!(resumed.effect, EnsureDemandEffect::Resumed);
    assert_eq!(resumed.lease.generation(), 2);
    assert!(availability.desired_up_at(now + 20));
    assert!(availability.validate().is_ok());
}

#[test]
fn releasing_the_last_demand_arms_the_cooldown() {
    let now = start();
    let mut availability = ProjectAvailability::default();
    let editor = DemandKey::vs_code_window("window-1").expect("editor key");
    availability.ensure_demand(editor.clone(), now).expect("acquire");

    assert!(availability.release_demand(&editor, now + 5).expect("release"));
    assert_eq!(availability.shutdown_cooldown_until(), Some(now + 5 + SHUTDOWN_COOLDOWN));
    assert!(!availability.desired_up_at(now + 5));
    assert_eq!(
        availability.convergence_decision_at(now + 5),
        ConvergenceDecision::PreserveRuntimeUntil { deadline: now + 5 + SHUTDOWN_COOLDOWN }
    );
    assert_eq!(availability.convergence_decision_at(now + 5 + SHUTDOWN_COOLDOWN), ConvergenceDecision::EnsureDown);
    assert!(!availability.release_demand(&editor, now + 6).expect("release again"));
}

#[test]
fn delayed_expiry_uses_the_lease_deadline_for_cooldown() {
    let now = start();
    let mut availability = ProjectAvailability::default();
    let editor = DemandKey::vs_code_window("window-1").expect("editor key");
    availability.ensure_demand(editor, now).expect("acquire");

    let later = now + VSCODE_DEMAND_TTL + SHUTDOWN_COOLDOWN + NANOS_PER_SECOND;
    assert_eq!(availability.expire_demands(later).expect("expire"), 1);
    assert_eq!(availability.shutdown_cooldown_until(), Some(now + VSCODE_DEMAND_TTL + SHUTDOWN_COOLDOWN));
    assert!(!availability.shutdown_deferred_at(later));
}

#[test]
fn passive_renewal_of_a_lapsed_lease_reports_expiry() {
    let now = start();
    let mut availability = ProjectAvailability::default();
    let editor = DemandKey::vs_code_window("window-1").expect("editor key");
    availability.ensure_demand(editor.clone(), now).expect("acquire");

    assert!(matches!(availability.renew_demand(&editor, now + 1).expect("renew"), RenewDemandResult::Renewed(_)));
    let lapsed = now + 1 + VSCODE_DEMAND_TTL;
    assert_eq!(availability.renew_demand(&editor, lapsed).expect("renew"), RenewDemandResult::Expired);
    assert!(availability.demands().is_empty());
    assert_eq!(availability.renew_demand(&editor, lapsed).expect("renew"), RenewDemandResult::Missing);
}

#[test]
fn imports_ignore_holds_that_already_lapsed() {
    let now = start();
    let mut availability = ProjectAvailability::default();
    let legacy = DemandKey::legacy_process_attachment("pid:42").expect("legacy key");
    assert!(!availability.import_demand(legacy.clone(), now - VSCODE_DEMAND_TTL, now).expect("import"));
    assert!(availability.import_demand(legacy.clone(), now - 1, now).expect("import"));
    assert!(!availability.import_demand(legacy, now, now).expect("duplicate import"));
    assert_eq!(availability.activity_generation(), 1);
}

#[test]
fn always_on_policy_toggles_and_arms_cooldown() {
    let now = start();
    let mut availability = ProjectAvailability::default();
    assert!(availability.set_always_on(true, now).expect("enable"));
    assert!(availability.desired_up_at(now));
    assert!(!availability.set_always_on(true, now).expect("enable again"));
    assert!(availability.set_always_on(false, now).expect("disable"));
    assert_eq!(availability.shutdown_cooldown_until(), Some(now + SHUTDOWN_COOLDOWN));
    assert!(!availability.set_always_on(false, now).expect("disable again"));
}

#[test]
fn validation_reports_broken_records() {
    let mut availability = ProjectAvailability::default();
    availability.pause_through_generation = Some(3);
    assert_eq!(availability.validate(), Err("pause generation exceeds activity generation 0".to_string()));

    let mut availability = ProjectAvailability::default();
    availability.last_convergence_error = Some("  ".to_string());
    assert_eq!(availability.validate(), Err("last convergence error must not be empty".to_string()));

    let mut availability = ProjectAvailability::default();
    availability.trusted_launch_path = Some("/bin\0".to_string());
    assert_eq!(availability.validate(), Err("trusted launch PATH contains a NUL byte".to_string()));
}

#[test]
fn prepared_batches_replay_exactly() {
    let now = start();
    let id = ProjectInstanceId::from_u128(7);
    let batch = AvailabilityBatch::new(now)
        .with_operation(AvailabilityBatchOperation::Initialize)
        .with_operation(AvailabilityBatchOperation::EnsureDemand(DemandKey::manual_cli()))
        .with_operation(AvailabilityBatchOperation::SetTrustedLaunchPath(Some("/usr/bin".to_string())));
    let prepared =
        prepare_availability_batch(id, AvailabilityStateImage::Retired, &batch, "/data/availability.json").expect("prepare");
    assert!(prepared.validate().is_ok());
    let target = prepared.target().availability().expect("present").clone();
    assert!(target.desired_up_at(now));
    assert_eq!(target.trusted_launch_path(), Some("/usr/bin"));

    assert_eq!(
        prepared_publication(&prepared, &AvailabilityStateImage::Retired, "/p").expect("publish"),
        AvailabilityBatchDisposition::Published
    );
    assert_eq!(
        prepared_publication(&prepared, prepared.target(), "/p").expect("replay"),
        AvailabilityBatchDisposition::AlreadyApplied
    );
    let third = AvailabilityStateImage::Present(ProjectAvailability::default());
    assert!(matches!(prepared_publication(&prepared, &third, "/p"), Err(AvailabilityError::BatchBaseMismatch { .. })));
}

#[test]
fn tampered_prepared_targets_are_rejected() {
    let now = start();
    let id = ProjectInstanceId::from_u128(8);
    let batch = AvailabilityBatch::new(now).with_operation(AvailabilityBatchOperation::SetAlwaysOn(true));
    let mut prepared =
        prepare_availability_batch(id, AvailabilityStateImage::Retired, &batch, "/data/availability.json").expect("prepare");
    prepared.target = AvailabilityStateImage::Retired;
    assert!(matches!(prepared.validate(), Err(AvailabilityError::InvalidData { .. })));
}

#[test]
fn batches_refuse_malformed_keys() {
    let now = start();
    let id = ProjectInstanceId::from_u128(9);
    let bad = DemandKey { kind: DemandKind::StoppedPageResume, owner: DemandKey::manual_cli_session("x").unwrap().owner };
    let batch = AvailabilityBatch::new(now).with_operation(AvailabilityBatchOperation::EnsureDemand(bad));
    let refused = prepare_availability_batch(id, AvailabilityStateImage::Retired, &batch, "/data/availability.json");
    assert!(matches!(refused, Err(AvailabilityError::InvalidData { .. })));
}
