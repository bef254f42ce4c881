use solver_core::error::{Error, ErrorEnvelope};
use solver_core::progress::ProgressBeacon;

#[test]
fn error_envelope_wraps_input_reason() {
    let e = Error::Input("json: expected value".to_string());
    let env = ErrorEnvelope::from(&e);
    match env {
        ErrorEnvelope::Input { reason } => assert_eq!(reason, "json: expected value"),
    }
}

#[test]
fn beacon_starts_empty_and_records_last_write() {
    let beacon = ProgressBeacon::new();
    assert_eq!(beacon.iter_snapshot(), 0);
    assert_eq!(beacon.placement_count_snapshot(), 0);
    assert_eq!(beacon.best_score_snapshot(), 0);
    assert!(!beacon.feasible_snapshot());
    assert!(!beacon.cancel_requested());
    beacon.record(7, 12, 99, true);
    beacon.record(8, 13, 42, false);
    assert_eq!(beacon.iter_snapshot(), 8);
    assert_eq!(beacon.placement_count_snapshot(), 13);
    assert_eq!(beacon.best_score_snapshot(), 42);
    assert!(!beacon.feasible_snapshot());
}

#[test]
fn beacon_cancel_is_idempotent() {
    let beacon = ProgressBeacon::new();
    beacon.request_cancel();
    beacon.request_cancel();
    assert!(beacon.cancel_requested());
}

#[test]
fn default_beacon_starts_empty() {
    let b = ProgressBeacon::default();
    assert_eq!(b.iter_snapshot(), 0);
    assert_eq!(b.placement_count_snapshot(), 0);
    assert_eq!(b.best_score_snapshot(), 0);
    assert!(!b.feasible_snapshot());
    assert!(!b.cancel_requested());
}
