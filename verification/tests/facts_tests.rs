use logcore::problems::facts::{fact_code, FactCode, FactMappingError, ObservationRef, ObservationRole, RuleId};
use logcore::problems::provenance::{EvidenceFormat, LineProvenance, LogBuffer};
use std::mem::size_of;

#[test]
fn observation_ref_has_the_frozen_eight_byte_layout() {
    assert_eq!(size_of::<ObservationRef>(), 8);
}

#[test]
fn observation_ref_round_trips_compact_fields_and_derives_fact() {
    let reference = ObservationRef::new(
        123,
        RuleId::NativeTombstoneV1,
        ObservationRole::Signal,
        EvidenceFormat::TombstoneShapedText,
        LineProvenance::Known(LogBuffer::Crash),
    )
    .unwrap();

    assert_eq!(reference.line(), 123);
    assert_eq!(reference.rule(), RuleId::NativeTombstoneV1);
    assert_eq!(reference.role(), ObservationRole::Signal);
    assert_eq!(reference.format(), EvidenceFormat::TombstoneShapedText);
    assert_eq!(reference.provenance(), LineProvenance::Known(LogBuffer::Crash));
    assert_eq!(reference.fact(), FactCode::FatalSignalRecorded);
}

#[test]
fn every_published_rule_role_has_a_total_fact_mapping() {
    for rule in RuleId::all() {
        for role in ObservationRole::all() {
            assert_eq!(
                fact_code(rule, role).is_ok(),
                rule.supported_roles().contains(&role),
                "mapping contract drift for {rule:?}/{role:?}"
            );
        }
    }
}

#[test]
fn unpublished_rule_role_combination_is_a_detector_bug() {
    assert_eq!(
        fact_code(RuleId::JavaUncaughtV1, ObservationRole::Reason),
        Err(FactMappingError::DetectorBug { rule: RuleId::JavaUncaughtV1, role: ObservationRole::Reason })
    );
}

#[test]
fn deduplication_key_is_line_rule_and_role_only() {
    let first = ObservationRef::new(
        9,
        RuleId::AnrActivityManagerV1,
        ObservationRole::Primary,
        EvidenceFormat::AospText,
        LineProvenance::Unknown,
    )
    .unwrap();
    let second = ObservationRef::new(
        9,
        RuleId::AnrActivityManagerV1,
        ObservationRole::Primary,
        EvidenceFormat::EventLogShapedText,
        LineProvenance::Inferred(LogBuffer::Events),
    )
    .unwrap();

    assert_eq!(first.dedup_key(), second.dedup_key());
}

#[test]
fn rule_and_role_codes_round_trip() {
    for rule in RuleId::all() {
        assert_eq!(RuleId::from_raw(rule.raw()), Some(rule));
    }
    for role in ObservationRole::all() {
        assert_eq!(ObservationRole::from_packed(role.code()), Some(role));
    }
    assert_eq!(RuleId::from_raw(0), None);
}
