use logcore::problems::correlation::{ProvisionalLimits, ProvisionalStore, RecentObservationLimits, RecentObservationStore};
use logcore::problems::facts::{EvidencePriority, ObservationCandidate, ObservationRef, ObservationRole, RuleId};
use logcore::problems::fingerprint::fingerprint_from_digest;
use logcore::problems::index::GroupKey;
use logcore::problems::model::{
    BoundaryFlags, EvidenceFlags, IdentityQuality, OutcomeFlags, PackedLogTimestamp, ProblemEventDraft, ProblemKind,
    ProcessInstanceKey, SignatureQuality,
};
use logcore::problems::pairing::{
    can_merge_faults, range_distance, resolve_safe_fault_pairs, CorrelationIdentity, CorrelationSource, CorrelationToken,
    CorrelationWork, ProvisionalOccurrence, RecentLifecycleObservation,
};
use logcore::problems::provenance::{EvidenceFormat, LineProvenance, LogBuffer};
use logcore::problems::recognized::RecognizedProblem;

fn candidate(line: u32, rule: RuleId, priority: EvidencePriority) -> ObservationCandidate {
    let reference = ObservationRef::new(
        line,
        rule,
        ObservationRole::Primary,
        EvidenceFormat::AospText,
        LineProvenance::Known(LogBuffer::Crash),
    )
    .unwrap();
    ObservationCandidate::new(reference, priority)
}

fn draft(start: u32, end: u32, evidence: u16) -> ProblemEventDraft {
    ProblemEventDraft {
        start_line: start,
        end_line: end,
        anchor_line: start,
        anchor_timestamp: PackedLogTimestamp(0),
        pid: 100,
        process_instance: ProcessInstanceKey(5),
        kind: ProblemKind::JavaCrash,
        evidence: EvidenceFlags(evidence),
        outcome: OutcomeFlags(0),
        boundary: BoundaryFlags(0),
    }
}

fn key(quality: SignatureQuality, byte: u8) -> GroupKey {
    GroupKey::new(ProblemKind::JavaCrash, 1, quality, IdentityQuality::KnownProcess, fingerprint_from_digest([byte; 32]))
}

fn occurrence(problem: RecognizedProblem, source: CorrelationSource) -> ProvisionalOccurrence {
    let mask = match source {
        CorrelationSource::Body => 1,
        CorrelationSource::Structured => 2,
        CorrelationSource::Signal => 4,
        CorrelationSource::Direct => 8,
    };
    ProvisionalOccurrence {
        problem,
        identity: CorrelationIdentity { process: CorrelationToken(7), subject: None },
        source_mask: mask,
        clocks: [None; 4],
        ambiguity_recorded: false,
    }
}

fn work(remaining: usize) -> CorrelationWork {
    CorrelationWork { remaining, used: 0, exhausted: false, capacity_limited: false, ambiguity_count: 0 }
}

#[test]
fn merge_keeps_the_better_signature_and_spans_both() {
    let mut left = RecognizedProblem::new(
        draft(10, 12, 1),
        key(SignatureQuality::TypeOnly, 9),
        candidate(10, RuleId::JavaUncaughtV1, EvidencePriority::MinimumGrammar),
    );
    let right = RecognizedProblem::new(
        draft(20, 25, 2),
        key(SignatureQuality::FullStack, 3),
        candidate(20, RuleId::ManagedAmCrashV1, EvidencePriority::Outcome),
    );
    left.merge_from(right);
    assert_eq!(left.group_key().signature_quality(), SignatureQuality::FullStack);
    assert_eq!(left.draft().start_line, 10);
    assert_eq!(left.draft().end_line, 25);
    assert_eq!(left.draft().evidence.0, 1 | 2 | 8);
    assert_eq!(left.observation_total(), 2);
    let lines: Vec<u32> = left.observations().iter().map(|c| c.reference.line()).collect();
    assert_eq!(lines, vec![10, 20]);
}

#[test]
fn merge_counts_a_shared_observation_once() {
    let shared = candidate(10, RuleId::JavaUncaughtV1, EvidencePriority::MinimumGrammar);
    let mut left = RecognizedProblem::new(draft(10, 12, 0), key(SignatureQuality::TypeOnly, 1), shared);
    let right = RecognizedProblem::new(draft(10, 14, 0), key(SignatureQuality::TypeOnly, 2), shared);
    left.merge_from(right);
    assert_eq!(left.observation_total(), 1);
    assert_eq!(left.observations().len(), 1);
    assert_eq!(left.group_key().fingerprint().as_bytes()[0], 1);
    assert_eq!(left.draft().end_line, 14);
}

#[test]
fn push_observation_marks_truncation_past_the_materialized_slots() {
    let mut problem = RecognizedProblem::new(
        draft(1, 1, 0),
        key(SignatureQuality::TypeOnly, 1),
        candidate(1, RuleId::JavaUncaughtV1, EvidencePriority::MinimumGrammar),
    );
    for line in 2..=8 {
        assert!(problem.push_observation(candidate(line, RuleId::JavaUncaughtV1, EvidencePriority::Supporting)));
    }
    assert!(problem.push_observation(candidate(5, RuleId::JavaUncaughtV1, EvidencePriority::Supporting)));
    assert!(!problem.push_observation(candidate(9, RuleId::JavaUncaughtV1, EvidencePriority::Supporting)));
    assert_eq!(problem.observations().len(), 8);
    assert_eq!(problem.observation_total(), 9);
    assert_eq!(problem.draft().boundary.0 & 2, 2);
}

#[test]
fn range_distance_is_zero_on_overlap() {
    assert_eq!(range_distance(10, 12, 20, 25), 8);
    assert_eq!(range_distance(20, 25, 10, 12), 8);
    assert_eq!(range_distance(10, 30, 20, 25), 0);
}

fn pair_store() -> ProvisionalStore<ProvisionalOccurrence> {
    let body = RecognizedProblem::new(
        draft(10, 12, 1),
        key(SignatureQuality::FullStack, 1),
        candidate(10, RuleId::JavaUncaughtV1, EvidencePriority::MinimumGrammar),
    );
    let structured = RecognizedProblem::new(
        draft(20, 25, 2),
        key(SignatureQuality::StructuredFields, 2),
        candidate(20, RuleId::ManagedAmCrashV1, EvidencePriority::Outcome),
    );
    let mut store = ProvisionalStore::with_limits(ProvisionalLimits::new(10, 1 << 20).unwrap());
    store.insert(12 + 4096, occurrence(body, CorrelationSource::Body)).unwrap();
    store.insert(25 + 4096, occurrence(structured, CorrelationSource::Structured)).unwrap();
    store
}

#[test]
fn faults_from_two_sources_may_merge() {
    let store = pair_store();
    let entries: Vec<&ProvisionalOccurrence> = store.iter().map(|e| e.payload()).collect();
    let second = entries[1];
    assert!(can_merge_faults(
        entries[0],
        &second.problem,
        second.identity,
        CorrelationSource::Structured,
        None
    ));
    assert!(!can_merge_faults(entries[0], &second.problem, second.identity, CorrelationSource::Body, None));
}

#[test]
fn a_safe_mutual_pair_is_merged_into_the_earlier_occurrence() {
    let mut store = pair_store();
    let recent: RecentObservationStore<RecentLifecycleObservation> =
        RecentObservationStore::with_limits(RecentObservationLimits::new(10, 1 << 20).unwrap());
    let mut budget = work(100);
    resolve_safe_fault_pairs(&mut store, &recent, 10_000, &mut budget);
    assert_eq!(store.len(), 1);
    let merged = store.iter().next().unwrap();
    assert_eq!(merged.sequence(), 0);
    assert_eq!(merged.payload().source_mask, 3);
    assert_eq!(merged.payload().problem.draft().start_line, 10);
    assert_eq!(merged.payload().problem.draft().end_line, 25);
    assert_eq!(merged.finalize_after_line(), 25 + 4096);
    assert!(!budget.exhausted);
    assert!(budget.used > 0);
}

#[test]
fn nothing_is_resolved_before_the_deadlines_or_without_work() {
    let mut store = pair_store();
    let recent: RecentObservationStore<RecentLifecycleObservation> =
        RecentObservationStore::with_limits(RecentObservationLimits::new(10, 1 << 20).unwrap());
    let mut budget = work(100);
    resolve_safe_fault_pairs(&mut store, &recent, 100, &mut budget);
    assert_eq!(store.len(), 2);
    assert_eq!(budget.used, 0);
    let mut none = work(0);
    resolve_safe_fault_pairs(&mut store, &recent, 10_000, &mut none);
    assert_eq!(store.len(), 2);
    assert!(none.exhausted);
}
