use policy_transform::internal_events::{
    emit_dropped, DropCounts, DropReason, DroppedRecords, EvalErrors,
};

#[test]
fn reason_strings_are_stable() {
    // These tag values flow into emitted metrics. Changing them would be
    // a user-visible break, so the test exists to draw attention to it.
    assert_eq!(DropReason::PolicyDrop.as_str(), "policy_drop");
    assert_eq!(
        DropReason::SampleRejected.as_str(),
        "policy_sample_rejected"
    );
    assert_eq!(DropReason::RateLimited.as_str(), "policy_rate_limited");
}

#[test]
fn counts_are_reported_once_per_reason() {
    let mut counts = DropCounts::default();
    assert!(counts.emit().is_empty());
    counts.record(DropReason::RateLimited);
    counts.record(DropReason::PolicyDrop);
    counts.record(DropReason::RateLimited);
    assert_eq!(
        counts.emit(),
        vec![
            DroppedRecords { reason: "policy_drop", count: 1 },
            DroppedRecords { reason: "policy_rate_limited", count: 2 },
        ],
    );
}

#[test]
fn zero_drops_are_not_reported() {
    assert_eq!(emit_dropped(DropReason::SampleRejected, 0), None);
    assert_eq!(
        emit_dropped(DropReason::SampleRejected, 7),
        Some(DroppedRecords { reason: "policy_sample_rejected", count: 7 }),
    );
}

#[test]
fn errors_are_reported_by_the_first_one() {
    let mut errors = EvalErrors::default();
    assert_eq!(errors.emit(), None);
    errors.record("bad regex");
    errors.record("out of memory");
    let report = errors.emit().unwrap();
    assert_eq!(report.count, 2);
    assert_eq!(report.error, "bad regex");
    assert_eq!(
        report.message,
        "Policy evaluation failed; affected OTLP records were passed through unchanged.",
    );
}
