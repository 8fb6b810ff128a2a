use logcore::parser::parse_line_ref;
use logcore::problems::delta::{ObservedLine, ProblemDelta};
use logcore::problems::index::{AppendDropReason, AppendOutcome, GroupId};
use logcore::problems::model::ProblemEventId;
use logcore::problems::provenance::{InputCoverage, LineProvenance, RangeCompleteness};

#[test]
fn delta_counts_stored_and_dropped_commits() {
    let mut delta = ProblemDelta::default();
    assert_eq!(delta.committed(), 0);
    assert_eq!(delta.last_stored_event(), None);
    delta.record(AppendOutcome::Stored { event_id: ProblemEventId(4), group_id: GroupId(0), created_group: true });
    delta.record(AppendOutcome::Dropped { group_id: None, reason: AppendDropReason::EventLimit });
    delta.record(AppendOutcome::Stored { event_id: ProblemEventId(7), group_id: GroupId(0), created_group: false });
    assert_eq!(delta.committed(), 3);
    assert_eq!(delta.stored(), 2);
    assert_eq!(delta.dropped(), 1);
    assert_eq!(delta.failed(), 0);
    assert_eq!(delta.last_stored_event(), Some(ProblemEventId(7)));
    assert_eq!(delta.committed(), delta.stored() + delta.dropped());
}

#[test]
fn delta_counts_stop_at_their_limit() {
    let mut delta = ProblemDelta::default();
    for _ in 0..300 {
        delta.record(AppendOutcome::Dropped { group_id: Some(GroupId(1)), reason: AppendDropReason::Allocation });
    }
    assert_eq!(delta.committed(), 255);
    assert_eq!(delta.dropped(), 255);
    assert_eq!(delta.stored(), 0);
}

#[test]
fn observed_line_is_borrowed_and_does_not_own_raw_text() {
    let raw = b"07-26 12:00:00.000  42  42 E AndroidRuntime: fatal";
    let text = std::str::from_utf8(raw).unwrap();
    let observed = ObservedLine::new(
        9,
        raw,
        parse_line_ref(text),
        LineProvenance::Unknown,
        InputCoverage::static_file(RangeCompleteness::Bounded),
    );
    assert_eq!(observed.raw.as_ptr(), raw.as_ptr());
    assert_eq!(observed.parsed.pid, "42");
}

#[test]
fn observed_line_keeps_its_position_and_parsed_fields() {
    let raw = b"07-26 12:00:00.000  42  42 E AndroidRuntime: fatal";
    let text = std::str::from_utf8(raw).unwrap();
    let line = ObservedLine::new(9, raw, parse_line_ref(text), LineProvenance::Unknown, InputCoverage::static_file(RangeCompleteness::Unknown));
    assert_eq!(line.line, 9);
    assert_eq!(line.parsed.tag, "AndroidRuntime");
    assert_eq!(line.parsed.message, "fatal");
}
