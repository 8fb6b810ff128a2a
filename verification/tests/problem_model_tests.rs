use logcore::problems::model::{
    internal_line_index, public_line_number, BoundaryFlags, LineNumberError, ProblemEvent, ProblemEventDraft,
    ProblemEventError, ProblemKind,
};
use std::mem::{needs_drop, size_of};

#[test]
fn problem_event_is_compact_and_owns_no_heap_data() {
    assert!(size_of::<ProblemEvent>() <= 48);
    assert!(!needs_drop::<ProblemEvent>());
}

#[test]
fn public_and_internal_line_numbers_have_explicit_bounds() {
    assert_eq!(internal_line_index(1), Ok(0));
    assert_eq!(internal_line_index(u32::MAX as u64 + 1), Ok(u32::MAX));
    assert_eq!(internal_line_index(u32::MAX as u64 + 2), Err(LineNumberError::IndexOverflow));
    assert_eq!(internal_line_index(0), Err(LineNumberError::Zero));
    assert_eq!(public_line_number(u32::MAX), u32::MAX as u64 + 1);
}

#[test]
fn event_constructor_rejects_an_invalid_range() {
    let draft = ProblemEventDraft { start_line: 12, end_line: 11, anchor_line: 12, ..ProblemEventDraft::minimal(ProblemKind::Anr) };

    assert_eq!(ProblemEvent::new(draft, 1, 0, 0, 0), Err(ProblemEventError::InvalidRange));
}

#[test]
fn observation_counts_enforce_materialized_and_adopted_limits() {
    let draft = ProblemEventDraft::minimal(ProblemKind::JavaCrash);
    assert!(ProblemEvent::new(draft, 0, 0, 8, 4_096).is_ok());
    assert_eq!(ProblemEvent::new(draft, 0, 0, 9, 9), Err(ProblemEventError::TooManyMaterializedObservations));
    assert_eq!(ProblemEvent::new(draft, 0, 0, 8, 4_097), Err(ProblemEventError::InvalidObservationTotal));
    assert_eq!(ProblemEvent::new(draft, 0, 0, 8, 7), Err(ProblemEventError::InvalidObservationTotal));
}

#[test]
fn input_and_detector_limit_truncation_have_distinct_bits() {
    assert_ne!(BoundaryFlags::TRUNCATED_BY_INPUT().bits(), BoundaryFlags::TRUNCATED_BY_LIMIT().bits());
}

#[test]
fn a_valid_event_keeps_its_draft_fields() {
    let draft = ProblemEventDraft {
        start_line: 3,
        end_line: 9,
        anchor_line: 5,
        pid: 77,
        ..ProblemEventDraft::minimal(ProblemKind::NativeCrash)
    };
    let event = ProblemEvent::new(draft, 4, 10, 2, 3).unwrap();
    assert_eq!(event.start_line(), 3);
    assert_eq!(event.end_line(), 9);
    assert_eq!(event.anchor_line(), 5);
    assert_eq!(event.pid(), 77);
    assert_eq!(event.group_id_raw(), 4);
    assert_eq!(event.observation_start(), 10);
    assert_eq!(event.observation_len(), 2);
    assert_eq!(event.observation_total(), 3);
    assert_eq!(event.kind(), ProblemKind::NativeCrash);
}
