use logcore::problems::facts::{EvidencePriority, ObservationCandidate, ObservationRef, ObservationRole, RuleId};
use logcore::problems::fingerprint::{FingerprintBuilder, FingerprintTokenKind, ProcessFingerprintKey};
use logcore::problems::index::{
    AppendDropReason, AppendOutcome, GroupId, GroupKey, GroupQuery, GroupSort, PageSpec, PageSpecError, ProblemIndex,
    ProblemIndexError, ProblemIndexLimits, ProblemIndexLimitsError, ProblemStats, SnapshotError,
};
use logcore::problems::model::{
    BoundaryFlags, IdentityQuality, PackedLogTimestamp, ProblemEventDraft, ProblemEventError, ProblemEventId,
    ProblemKind, SignatureQuality,
};
use logcore::problems::provenance::{EvidenceFormat, LineProvenance};
use std::time::{Duration, Instant};

fn key(seed: &[u8]) -> GroupKey {
    let process = ProcessFingerprintKey::new(Some("com.example.app"));
    let mut builder = FingerprintBuilder::new(
        ProblemKind::JavaCrash,
        1,
        SignatureQuality::FullStack,
        IdentityQuality::KnownProcess,
        &process,
    );
    builder.token(FingerprintTokenKind::ExceptionType, seed);
    GroupKey::new(ProblemKind::JavaCrash, 1, SignatureQuality::FullStack, IdentityQuality::KnownProcess, builder.finish())
}

fn draft(line: u32) -> ProblemEventDraft {
    ProblemEventDraft { start_line: line, end_line: line, anchor_line: line, ..ProblemEventDraft::minimal(ProblemKind::JavaCrash) }
}

fn timestamp(second: u8) -> PackedLogTimestamp {
    PackedLogTimestamp::new(7, 26, 12, 0, second, 0).unwrap()
}

fn candidate(line: u32, role: ObservationRole, priority: EvidencePriority) -> ObservationCandidate {
    ObservationCandidate::new(
        ObservationRef::new(line, RuleId::JavaUncaughtV1, role, EvidenceFormat::AospText, LineProvenance::Unknown).unwrap(),
        priority,
    )
}

fn stored(outcome: AppendOutcome) -> (ProblemEventId, GroupId) {
    match outcome {
        AppendOutcome::Stored { event_id, group_id, .. } => (event_id, group_id),
        other => panic!("expected stored occurrence, got {other:?}"),
    }
}

#[test]
fn default_limits_freeze_the_structural_caps() {
    let limits = ProblemIndexLimits::default();
    assert_eq!(limits.max_events, 1_000_000);
    assert_eq!(limits.max_observation_refs, 4_000_000);
    assert_eq!(limits.max_groups, 100_000);
    assert_eq!(limits.max_snapshots, 8);
    assert_eq!(limits.snapshot_ttl, Duration::from_secs(5 * 60));
    assert_eq!(limits.max_snapshot_id_bytes, 16 * 1024 * 1024);
}

#[test]
fn append_groups_occurrences_and_materializes_by_priority() {
    let mut index = ProblemIndex::new();
    let group_key = key(b"java.lang.IllegalStateException");
    let observations = [
        candidate(20, ObservationRole::Supporting, EvidencePriority::Supporting),
        candidate(10, ObservationRole::Primary, EvidencePriority::MinimumGrammar),
        candidate(11, ObservationRole::Death, EvidencePriority::Outcome),
        candidate(10, ObservationRole::Primary, EvidencePriority::Supporting),
    ];

    let first = index.append(draft(10), group_key, &observations).unwrap();
    let second = index.append(draft(30), group_key, &[]).unwrap();
    let (first_id, group_id) = match first {
        AppendOutcome::Stored { event_id, group_id, created_group: true } => (event_id, group_id),
        outcome => panic!("unexpected first append: {outcome:?}"),
    };
    assert!(matches!(
        second,
        AppendOutcome::Stored { group_id: id, created_group: false, .. } if id == group_id
    ));

    let event = index.event(first_id).unwrap();
    assert_eq!(event.observation_total(), 3);
    assert_eq!(
        index.event_observations(first_id).unwrap().iter().map(|reference| reference.line()).collect::<Vec<_>>(),
        vec![10, 11, 20]
    );
    let group = index.group(group_id).unwrap();
    assert_eq!(group.observed_occurrence_count, 2);
    assert_eq!(group.stored_occurrence_count, 2);
    assert_eq!(index.group_event_ids(group_id).unwrap().len(), 2);
    assert_eq!(index.stats().observed_occurrence_count, 2);
    assert_eq!(index.stats().stored_occurrence_count, 2);
}

#[test]
fn capacity_drop_is_atomic_and_counts_existing_and_ungrouped_events() {
    let limits =
        ProblemIndexLimits { max_events: 2, max_observation_refs: 1, max_groups: 1, ..ProblemIndexLimits::default() };
    let mut index = ProblemIndex::with_limits(limits).unwrap();
    let existing = key(b"existing");
    let one_ref = [candidate(1, ObservationRole::Primary, EvidencePriority::MinimumGrammar)];
    let two_refs = [
        candidate(2, ObservationRole::Primary, EvidencePriority::MinimumGrammar),
        candidate(3, ObservationRole::ExceptionType, EvidencePriority::MinimumGrammar),
    ];

    let group_id = match index.append(draft(1), existing, &one_ref).unwrap() {
        AppendOutcome::Stored { group_id, .. } => group_id,
        outcome => panic!("unexpected append: {outcome:?}"),
    };
    assert_eq!(
        index.append(draft(2), existing, &two_refs).unwrap(),
        AppendOutcome::Dropped { group_id: Some(group_id), reason: AppendDropReason::ObservationRefLimit }
    );
    assert_eq!(
        index.append(draft(4), key(b"new"), &[]).unwrap(),
        AppendOutcome::Dropped { group_id: None, reason: AppendDropReason::GroupLimit }
    );

    assert_eq!(
        index.stats(),
        ProblemStats {
            observed_occurrence_count: 3,
            stored_occurrence_count: 1,
            dropped_occurrence_count: 2,
            stored_group_count: 1,
            ungrouped_dropped_occurrence_count: 1,
            revision: 3,
            limited: true,
        }
    );
    assert_eq!(index.events_len(), 1);
    assert_eq!(index.observation_refs_len(), 1);
    assert_eq!(index.group_event_ids(group_id).unwrap().len(), 1);
    let group = index.group(group_id).unwrap();
    assert_eq!(group.observed_occurrence_count, 2);
    assert_eq!(group.stored_occurrence_count, 1);
    assert_eq!(group.dropped_occurrence_count, 1);
    assert_eq!(group.representative_stored_event_id, Some(ProblemEventId(0)));
}

#[test]
fn group_first_and_last_follow_source_lines_despite_clock_rollback() {
    let mut index = ProblemIndex::new();
    let group_key = key(b"source-order");
    let mut middle = draft(100);
    middle.anchor_timestamp = timestamp(10);
    let mut first = draft(50);
    first.anchor_timestamp = timestamp(20);
    let mut last = draft(150);
    last.anchor_timestamp = timestamp(5);

    let first_stored = stored(index.append(middle, group_key, &[]).unwrap());
    let second_id = stored(index.append(first, group_key, &[]).unwrap()).0;
    let third_id = stored(index.append(last, group_key, &[]).unwrap()).0;

    let group = index.group(first_stored.1).unwrap();
    assert_eq!(group.first_observed_line, 50);
    assert_eq!(group.first_observed_timestamp, timestamp(20));
    assert_eq!(group.last_observed_line, 150);
    assert_eq!(group.last_observed_timestamp, timestamp(5));
    assert_eq!(group.representative_stored_event_id, Some(first_stored.0));
    assert_eq!(group.first_stored_event_id, Some(second_id));
    assert_eq!(group.last_stored_event_id, Some(third_id));
    assert_eq!(index.group_event_ids(first_stored.1).unwrap(), &[first_stored.0, second_id, third_id]);
}

#[test]
fn adopted_observations_are_deduplicated_capped_and_materialized_to_eight() {
    let mut index = ProblemIndex::new();
    let mut observations = (0..4_100)
        .map(|line| candidate(line, ObservationRole::Primary, EvidencePriority::MinimumGrammar))
        .collect::<Vec<_>>();
    observations.push(candidate(0, ObservationRole::Primary, EvidencePriority::Supporting));

    let event_id = stored(index.append(draft(0), key(b"observation-cap"), &observations).unwrap()).0;
    let event = index.event(event_id).unwrap();
    assert_eq!(event.observation_total(), 4_096);
    assert_eq!(event.observation_len(), 8);
    assert!(event.boundary().contains(BoundaryFlags::OBSERVATION_COUNT_LIMITED()));
    assert!(event.boundary().contains(BoundaryFlags::OBSERVATION_REFS_TRUNCATED()));
    assert_eq!(index.event_observations(event_id).unwrap().len(), 8);
}

#[test]
fn group_key_includes_kind_version_and_both_quality_dimensions() {
    let process = ProcessFingerprintKey::new(Some("com.example.app"));
    let fingerprint = FingerprintBuilder::new(
        ProblemKind::JavaCrash,
        1,
        SignatureQuality::FullStack,
        IdentityQuality::KnownProcess,
        &process,
    )
    .finish();
    let baseline =
        GroupKey::new(ProblemKind::JavaCrash, 1, SignatureQuality::FullStack, IdentityQuality::KnownProcess, fingerprint);
    assert_ne!(
        baseline,
        GroupKey::new(ProblemKind::Anr, 1, SignatureQuality::FullStack, IdentityQuality::KnownProcess, fingerprint)
    );
    assert_ne!(
        baseline,
        GroupKey::new(ProblemKind::JavaCrash, 2, SignatureQuality::FullStack, IdentityQuality::KnownProcess, fingerprint)
    );
    assert_ne!(
        baseline,
        GroupKey::new(ProblemKind::JavaCrash, 1, SignatureQuality::TypeOnly, IdentityQuality::KnownProcess, fingerprint)
    );
    assert_ne!(
        baseline,
        GroupKey::new(ProblemKind::JavaCrash, 1, SignatureQuality::FullStack, IdentityQuality::UnknownProcess, fingerprint)
    );
}

#[test]
fn snapshots_freeze_group_order_and_occurrence_prefix() {
    let mut index = ProblemIndex::new();
    let (_, group_10) = stored(index.append(draft(10), key(b"10"), &[]).unwrap());
    let (first_20, group_20) = stored(index.append(draft(20), key(b"20"), &[]).unwrap());
    let (_, group_30) = stored(index.append(draft(30), key(b"30"), &[]).unwrap());
    let now = Instant::now();
    let groups_snapshot = index.create_group_snapshot_at(&GroupQuery::default(), now).unwrap();
    let occurrence_snapshot = index.create_occurrence_snapshot_at(group_20, now).unwrap();

    stored(index.append(draft(40), key(b"40"), &[]).unwrap());
    stored(index.append(draft(50), key(b"20"), &[]).unwrap());

    let first_page = index
        .group_snapshot_page_at(groups_snapshot, PageSpec::new(0, 2).unwrap(), now + Duration::from_secs(1))
        .unwrap();
    let second_page = index
        .group_snapshot_page_at(groups_snapshot, PageSpec::new(2, 2).unwrap(), now + Duration::from_secs(2))
        .unwrap();
    assert_eq!(
        first_page.items.iter().chain(&second_page.items).map(|group| group.id).collect::<Vec<_>>(),
        vec![group_30, group_20, group_10]
    );
    assert_eq!(
        index
            .occurrence_snapshot_page_at(occurrence_snapshot, PageSpec::new(0, 200).unwrap(), now + Duration::from_secs(3))
            .unwrap()
            .items,
        vec![first_20]
    );
}

#[test]
fn snapshot_ttl_lru_release_and_id_budget_have_explicit_outcomes() {
    let limits = ProblemIndexLimits {
        max_snapshots: 2,
        snapshot_ttl: Duration::from_secs(5),
        max_snapshot_id_bytes: 8,
        ..ProblemIndexLimits::default()
    };
    let mut index = ProblemIndex::with_limits(limits).unwrap();
    let (_, first_group) = stored(index.append(draft(1), key(b"one"), &[]).unwrap());
    stored(index.append(draft(2), key(b"two"), &[]).unwrap());
    let now = Instant::now();

    let expiring = index.create_occurrence_snapshot_at(first_group, now).unwrap();
    assert_eq!(
        index
            .occurrence_snapshot_page_at(expiring, PageSpec::new(0, 1).unwrap(), now + Duration::from_secs(5))
            .unwrap_err(),
        SnapshotError::Expired
    );

    let group_snapshot = index.create_group_snapshot_at(&GroupQuery::default(), now + Duration::from_secs(6)).unwrap();
    let old_occurrence = index.create_occurrence_snapshot_at(first_group, now + Duration::from_secs(7)).unwrap();
    index.group_snapshot_page_at(group_snapshot, PageSpec::new(0, 1).unwrap(), now + Duration::from_secs(8)).unwrap();
    let releasable = index.create_occurrence_snapshot_at(first_group, now + Duration::from_secs(9)).unwrap();
    assert_eq!(
        index
            .occurrence_snapshot_page_at(old_occurrence, PageSpec::new(0, 1).unwrap(), now + Duration::from_secs(9))
            .unwrap_err(),
        SnapshotError::Evicted
    );
    assert!(index.release_snapshot(releasable));
    assert!(!index.release_snapshot(releasable));
    assert_eq!(
        index
            .occurrence_snapshot_page_at(releasable, PageSpec::new(0, 1).unwrap(), now + Duration::from_secs(9))
            .unwrap_err(),
        SnapshotError::Released
    );

    stored(index.append(draft(3), key(b"three"), &[]).unwrap());
    assert_eq!(
        index.create_group_snapshot_at(&GroupQuery::default(), now + Duration::from_secs(10)).unwrap_err(),
        SnapshotError::IdVectorLimit
    );
    assert!(index.snapshot_count() <= 2);
    assert!(index.snapshot_id_bytes() <= 8);
}

#[test]
fn reset_clears_index_and_marks_old_snapshots_invalid() {
    let mut index = ProblemIndex::new();
    let (_, group_id) = stored(index.append(draft(1), key(b"reset"), &[]).unwrap());
    let snapshot = index.create_occurrence_snapshot(group_id).unwrap();

    index.reset();

    assert_eq!(index.stats(), ProblemStats::default());
    assert_eq!(index.events_len(), 0);
    assert_eq!(index.observation_refs_len(), 0);
    assert_eq!(index.snapshot_count(), 0);
    assert!(index.event(ProblemEventId(0)).is_none());
    assert_eq!(
        index.occurrence_snapshot_page(snapshot, PageSpec::new(0, 1).unwrap()).unwrap_err(),
        SnapshotError::Reset
    );
}

#[test]
fn invalid_drafts_kinds_and_limits_are_rejected() {
    let mut index = ProblemIndex::new();
    let bad = ProblemEventDraft { start_line: 5, end_line: 4, anchor_line: 5, ..draft(0) };
    assert_eq!(
        index.append(bad, key(b"x"), &[]),
        Err(ProblemIndexError::InvalidEvent(ProblemEventError::InvalidRange))
    );
    let anr = ProblemEventDraft::minimal(ProblemKind::Anr);
    assert_eq!(
        index.append(anr, key(b"x"), &[]),
        Err(ProblemIndexError::GroupKindMismatch { event_kind: ProblemKind::Anr, group_kind: ProblemKind::JavaCrash })
    );
    assert_eq!(index.stats(), ProblemStats::default());

    let too_many = ProblemIndexLimits { max_groups: 100_001, ..ProblemIndexLimits::default() };
    assert!(matches!(
        ProblemIndex::with_limits(too_many),
        Err(ProblemIndexError::InvalidLimits(ProblemIndexLimitsError::ExceedsStructuralCap("max_groups")))
    ));
    let zero = ProblemIndexLimits { max_snapshots: 0, ..ProblemIndexLimits::default() };
    assert!(matches!(
        ProblemIndex::with_limits(zero),
        Err(ProblemIndexError::InvalidLimits(ProblemIndexLimitsError::SnapshotCountMustBePositive))
    ));
    let no_ttl = ProblemIndexLimits { snapshot_ttl: Duration::ZERO, ..ProblemIndexLimits::default() };
    assert!(matches!(
        ProblemIndex::with_limits(no_ttl),
        Err(ProblemIndexError::InvalidLimits(ProblemIndexLimitsError::SnapshotTtlMustBePositive))
    ));
    let long_ttl = ProblemIndexLimits { snapshot_ttl: Duration::from_secs(301), ..ProblemIndexLimits::default() };
    assert!(matches!(
        ProblemIndex::with_limits(long_ttl),
        Err(ProblemIndexError::InvalidLimits(ProblemIndexLimitsError::ExceedsStructuralCap("snapshot_ttl")))
    ));
}

#[test]
fn page_specs_and_sorted_snapshots() {
    assert_eq!(PageSpec::new(0, 0), Err(PageSpecError::EmptyPage));
    assert_eq!(PageSpec::new(0, 201), Err(PageSpecError::PageTooLarge));
    assert_eq!(PageSpec::MAX_LIMIT(), 200);
    let mut index = ProblemIndex::new();
    let (_, a) = stored(index.append(draft(30), key(b"a"), &[]).unwrap());
    let (_, b) = stored(index.append(draft(10), key(b"b"), &[]).unwrap());
    stored(index.append(draft(40), key(b"b"), &[]).unwrap());
    let query = GroupQuery { kind: None, sort: GroupSort::FirstOccurrenceAsc };
    let snapshot = index.create_group_snapshot(&query).unwrap();
    let page = index.group_snapshot_page(snapshot, PageSpec::new(0, 1).unwrap()).unwrap();
    assert_eq!(page.items.iter().map(|g| g.id).collect::<Vec<_>>(), vec![b]);
    assert_eq!(page.total, 2);
    assert_eq!(page.next_offset, Some(1));
    let counted = GroupQuery { kind: Some(ProblemKind::JavaCrash), sort: GroupSort::ObservedCountDesc };
    let snapshot = index.create_group_snapshot(&counted).unwrap();
    let page = index.group_snapshot_page(snapshot, PageSpec::new(0, 5).unwrap()).unwrap();
    assert_eq!(page.items.iter().map(|g| g.id).collect::<Vec<_>>(), vec![b, a]);
    assert_eq!(page.next_offset, None);
    assert_eq!(
        index.occurrence_snapshot_page(snapshot, PageSpec::new(0, 1).unwrap()).unwrap_err(),
        SnapshotError::WrongKind
    );
    let anr_only = GroupQuery { kind: Some(ProblemKind::Anr), sort: GroupSort::LastOccurrenceDesc };
    let snapshot = index.create_group_snapshot(&anr_only).unwrap();
    assert_eq!(index.group_snapshot_page(snapshot, PageSpec::new(0, 5).unwrap()).unwrap().total, 0);
}
