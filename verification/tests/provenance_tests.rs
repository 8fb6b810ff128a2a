use logcore::problems::provenance::{
    evidence_admission, parse_logcat_buffer_divider, BufferProvenanceTracker, BufferSet, EvidenceAdmission,
    EvidenceFormat, InputCoverage, LineProvenance, LogBuffer, RangeCompleteness, SourceSpan, SourceSpanError,
    SourceSpanIndex,
};

#[test]
fn requested_events_without_line_metadata_is_only_inferred() {
    let coverage =
        InputCoverage::adb_live(BufferSet::MAIN() | BufferSet::SYSTEM() | BufferSet::EVENTS(), RangeCompleteness::Bounded);

    let provenance = coverage.infer_format_provenance(EvidenceFormat::EventLogShapedText, LineProvenance::Unknown);

    assert_eq!(provenance, LineProvenance::Inferred(LogBuffer::Events));
    assert_eq!(
        evidence_admission(EvidenceFormat::EventLogShapedText, provenance),
        EvidenceAdmission::SupportingOnly
    );
}

#[test]
fn main_only_capture_rejects_eventlog_shaped_text() {
    let coverage = InputCoverage::adb_live(BufferSet::MAIN(), RangeCompleteness::StartTruncated);

    assert_eq!(
        coverage.infer_format_provenance(EvidenceFormat::EventLogShapedText, LineProvenance::Unknown),
        LineProvenance::Unknown
    );
    assert_eq!(
        coverage.admit_line(EvidenceFormat::EventLogShapedText, LineProvenance::Unknown),
        EvidenceAdmission::Rejected
    );
    assert_eq!(
        coverage.admit_line(EvidenceFormat::EventLogShapedText, LineProvenance::Known(LogBuffer::Events)),
        EvidenceAdmission::Rejected,
        "capture contract wins over contradictory per-line metadata"
    );
}

#[test]
fn only_known_kernel_source_can_commit_kernel_shaped_text() {
    assert_eq!(
        evidence_admission(EvidenceFormat::KernelShapedText, LineProvenance::Known(LogBuffer::Kernel)),
        EvidenceAdmission::CommitEligible
    );
    assert_eq!(
        evidence_admission(EvidenceFormat::KernelShapedText, LineProvenance::Inferred(LogBuffer::Kernel)),
        EvidenceAdmission::Rejected
    );
}

#[test]
fn source_span_index_requires_non_overlapping_proven_ranges() {
    let mut spans = SourceSpanIndex::new();
    spans.insert(SourceSpan::new(10, 19, LogBuffer::Events).unwrap()).unwrap();
    spans.insert(SourceSpan::new(20, 30, LogBuffer::Crash).unwrap()).unwrap();

    assert_eq!(spans.provenance_at(10), LineProvenance::Known(LogBuffer::Events));
    assert_eq!(spans.provenance_at(30), LineProvenance::Known(LogBuffer::Crash));
    assert_eq!(spans.provenance_at(31), LineProvenance::Unknown);
    assert_eq!(spans.insert(SourceSpan::new(18, 21, LogBuffer::Main).unwrap()), Err(SourceSpanError::Overlap));
}

#[test]
fn standard_logcat_dividers_change_only_subsequent_line_provenance() {
    let mut tracker = BufferProvenanceTracker::new();

    assert_eq!(
        tracker.observe_stable_line(b"--------- beginning of main\n", LineProvenance::Unknown),
        LineProvenance::Unknown
    );
    assert_eq!(
        tracker.observe_stable_line(b"main payload\n", LineProvenance::Unknown),
        LineProvenance::Known(LogBuffer::Main)
    );
    assert_eq!(
        tracker.observe_stable_line(b"--------- beginning of events\r\n", LineProvenance::Unknown),
        LineProvenance::Known(LogBuffer::Main)
    );
    assert_eq!(
        tracker.observe_stable_line(b"events payload\n", LineProvenance::Unknown),
        LineProvenance::Known(LogBuffer::Events)
    );
    assert_eq!(
        tracker.observe_stable_line(b"--------- beginning of crash\n", LineProvenance::Unknown),
        LineProvenance::Known(LogBuffer::Events)
    );
    assert_eq!(
        tracker.observe_stable_line(b"crash payload\n", LineProvenance::Unknown),
        LineProvenance::Known(LogBuffer::Crash)
    );
}

#[test]
fn every_supported_standard_divider_is_recognized_exactly() {
    for (divider, buffer) in [
        (b"--------- beginning of main\n".as_slice(), LogBuffer::Main),
        (b"--------- beginning of system\n".as_slice(), LogBuffer::System),
        (b"--------- beginning of events\n".as_slice(), LogBuffer::Events),
        (b"--------- beginning of crash\n".as_slice(), LogBuffer::Crash),
        (b"--------- beginning of radio\n".as_slice(), LogBuffer::Radio),
        (b"--------- beginning of kernel\n".as_slice(), LogBuffer::Kernel),
    ] {
        let mut tracker = BufferProvenanceTracker::new();
        assert_eq!(tracker.observe_stable_line(divider, LineProvenance::Unknown), LineProvenance::Unknown);
        assert_eq!(
            tracker.observe_stable_line(b"payload\n", LineProvenance::Unknown),
            LineProvenance::Known(buffer)
        );
    }
}

#[test]
fn ordinary_messages_cannot_forge_a_logcat_divider() {
    for lookalike in [
        b"07-26 12:00:00.000  1  1 I App: --------- beginning of events\n".as_slice(),
        b"prefix --------- beginning of events\n".as_slice(),
        b" --------- beginning of events\n".as_slice(),
        b"--------- beginning of events trailing\n".as_slice(),
        b"--------- switch to events\n".as_slice(),
        b"---------- beginning of events\n".as_slice(),
    ] {
        let mut tracker = BufferProvenanceTracker::new();
        assert_eq!(tracker.observe_stable_line(lookalike, LineProvenance::Unknown), LineProvenance::Unknown);
        assert_eq!(
            tracker.observe_stable_line(b"next payload\n", LineProvenance::Unknown),
            LineProvenance::Unknown
        );
    }
}

#[test]
fn explicit_adapter_provenance_wins_without_blocking_divider_progress() {
    let mut tracker = BufferProvenanceTracker::new();

    assert_eq!(
        tracker.observe_stable_line(b"--------- beginning of events\n", LineProvenance::Known(LogBuffer::Main)),
        LineProvenance::Known(LogBuffer::Main),
        "the adapter owns attribution for the divider row itself"
    );
    assert_eq!(
        tracker.observe_stable_line(b"payload inside explicit span\n", LineProvenance::Known(LogBuffer::Crash)),
        LineProvenance::Known(LogBuffer::Crash),
        "an explicit adapter span wins a conflict on its rows"
    );
    assert_eq!(
        tracker.observe_stable_line(b"payload after explicit span\n", LineProvenance::Unknown),
        LineProvenance::Known(LogBuffer::Events),
        "the divider remains the fallback after the explicit span ends"
    );
}

#[test]
fn tracker_state_is_constant_size_and_unknown_without_a_divider() {
    assert!(std::mem::size_of::<BufferProvenanceTracker>() <= 2);
    let mut tracker = BufferProvenanceTracker::new();
    for _ in 0..10_000 {
        assert_eq!(
            tracker.observe_stable_line(b"ordinary payload\n", LineProvenance::Unknown),
            LineProvenance::Unknown
        );
    }
}

#[test]
fn packed_provenance_round_trips() {
    for p in [
        LineProvenance::Unknown,
        LineProvenance::Known(LogBuffer::Radio),
        LineProvenance::Inferred(LogBuffer::Events),
    ] {
        assert_eq!(LineProvenance::unpack(p.pack()), Some(p));
    }
    for b in [LogBuffer::Main, LogBuffer::System, LogBuffer::Kernel] {
        assert_eq!(LogBuffer::from_packed(b.code()), Some(b));
    }
}

#[test]
fn divider_parser_and_reversed_span_are_exact() {
    assert_eq!(parse_logcat_buffer_divider(b"--------- beginning of radio"), Some(LogBuffer::Radio));
    assert_eq!(parse_logcat_buffer_divider(b"--------- beginning of nothing"), None);
    assert!(SourceSpan::new(5, 4, LogBuffer::Main).is_err());
    let span = SourceSpan::new(4, 4, LogBuffer::Main).unwrap();
    assert_eq!((span.start_line(), span.end_line()), (4, 4));
}
