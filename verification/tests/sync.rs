use abs_screens::sync::{Banner, ManualSync, SyncOutcome};

#[test]
fn a_banner_reports_and_goes_away() {
    let mut banner = Banner::new();
    assert!(!banner.revealed);
    banner.report(&SyncOutcome::Failed("timeout".to_string()));
    assert!(banner.revealed);
    assert_eq!(banner.details.as_deref(), Some("timeout"));
    banner.conceal();
    assert!(!banner.revealed);
    assert_eq!(banner.title, "Couldn't sync — showing what's cached.");
}

#[test]
fn a_guard_grants_one_claim_at_a_time() {
    let mut guard = ManualSync::new();
    assert!(guard.claim());
    assert!(!guard.claim());
    assert_eq!(guard.finish(true), "Sync complete");
    assert!(guard.claim());
    assert_eq!(guard.finish(false), "Sync failed");
    assert!(!guard.in_flight);
}

#[test]
fn only_a_sync_that_ended_well_succeeded() {
    assert!(SyncOutcome::Synced.succeeded());
    assert!(!SyncOutcome::Unauthorized("a".to_string()).succeeded());
    assert!(!SyncOutcome::Failed("b".to_string()).succeeded());
}
