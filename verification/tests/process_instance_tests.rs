use logcore::problems::model::{IdentityQuality, ProcessInstanceKey};
use logcore::problems::process_instance::{
    ProcessEpochOrigin, ProcessIdentity, ProcessIdentityError, ProcessInstanceTracker, ProcessTrackerLimitsError,
    MAX_ACTIVE_PROCESS_INSTANCES, MAX_RECENT_TERMINATED_INSTANCES,
};

#[test]
fn strong_mid_log_identity_starts_a_provisional_epoch() {
    let mut tracker = ProcessInstanceTracker::new();
    let identity = ProcessIdentity::new(42, "com.example.player", Some(10_042), Some(0)).unwrap();

    let first = tracker.observe_identity(100, identity).unwrap();
    let repeated = tracker.observe_identity(101, identity).unwrap();

    assert_ne!(first.key(), ProcessInstanceKey(0));
    assert_eq!(first.epoch_origin(), ProcessEpochOrigin::Provisional);
    assert_eq!(first.identity_quality(), IdentityQuality::KnownProcess);
    assert_eq!(repeated.key(), first.key());
    assert_eq!(repeated.epoch(), first.epoch());

    let active = tracker.active_for_pid(42).unwrap();
    assert_eq!(active.pid(), 42);
    assert_eq!(active.process_name(), "com.example.player");
    assert_eq!(active.start_line(), 100);
    assert_eq!(active.last_touched_line(), 101);
}

#[test]
fn every_explicit_start_advances_the_epoch_for_a_reused_pid() {
    let mut tracker = ProcessInstanceTracker::new();
    let identity = ProcessIdentity::new(42, "com.example.player", Some(10_042), Some(0)).unwrap();

    let first = tracker.observe_start(10, identity).unwrap();
    let second = tracker.observe_start(20, identity).unwrap();

    assert_eq!(first.epoch_origin(), ProcessEpochOrigin::ExplicitStart);
    assert_eq!(second.epoch_origin(), ProcessEpochOrigin::ExplicitStart);
    assert_ne!(first.key(), second.key());
    assert!(second.epoch() > first.epoch());
    assert_eq!(tracker.active_for_pid(42).unwrap().instance(), second);
}

#[test]
fn conflicting_identity_on_a_reused_pid_starts_a_new_provisional_epoch() {
    let mut tracker = ProcessInstanceTracker::new();
    let first_identity = ProcessIdentity::new(42, "com.example.first", Some(10_042), Some(0)).unwrap();
    let reused_identity = ProcessIdentity::new(42, "com.example.second", Some(10_043), Some(0)).unwrap();

    let first = tracker.observe_identity(10, first_identity).unwrap();
    let reused = tracker.observe_identity(20, reused_identity).unwrap();

    assert_ne!(first.key(), reused.key());
    assert!(reused.epoch() > first.epoch());
    assert_eq!(reused.epoch_origin(), ProcessEpochOrigin::Provisional);
    assert_eq!(tracker.active_for_pid(42).unwrap().process_name(), "com.example.second");
}

#[test]
fn active_matching_requires_pid_and_process_and_rejects_known_field_conflicts() {
    let mut tracker = ProcessInstanceTracker::new();
    let exact = ProcessIdentity::new(42, "com.example.player", Some(10_042), Some(0)).unwrap();
    let instance = tracker.observe_start(10, exact).unwrap();

    let missing_optional = ProcessIdentity::new(42, "com.example.player", None, None).unwrap();
    let wrong_pid = ProcessIdentity::new(43, "com.example.player", Some(10_042), Some(0)).unwrap();
    let wrong_process = ProcessIdentity::new(42, "com.example.other", Some(10_042), Some(0)).unwrap();
    let wrong_uid = ProcessIdentity::new(42, "com.example.player", Some(10_043), Some(0)).unwrap();
    let wrong_user = ProcessIdentity::new(42, "com.example.player", Some(10_042), Some(10)).unwrap();

    assert_eq!(tracker.active_matching(exact).map(|found| found.instance()), Some(instance));
    assert_eq!(tracker.active_matching(missing_optional).map(|found| found.instance()), Some(instance));
    assert!(tracker.active_matching(wrong_pid).is_none());
    assert!(tracker.active_matching(wrong_process).is_none());
    assert!(tracker.active_matching(wrong_uid).is_none());
    assert!(tracker.active_matching(wrong_user).is_none());
}

#[test]
fn recent_death_matching_requires_uid_and_process_and_never_uses_name_only() {
    let mut tracker = ProcessInstanceTracker::new();
    let started = ProcessIdentity::new(42, "com.example.player", Some(10_042), Some(0)).unwrap();
    let death_without_optional_fields = ProcessIdentity::new(42, "com.example.player", None, None).unwrap();
    let instance = tracker.observe_start(10, started).unwrap();

    let terminated = tracker.observe_death(20, death_without_optional_fields).unwrap();

    assert_eq!(terminated, instance);
    assert!(tracker.active_for_pid(42).is_none());
    assert!(tracker.recent_terminated_matching("com.example.player", None, None).is_none());
    assert!(tracker.recent_terminated_matching("com.example.player", Some(10_043), None).is_none());
    assert!(tracker.recent_terminated_matching("com.example.other", Some(10_042), None).is_none());
    assert!(tracker.recent_terminated_matching("com.example.player", Some(10_042), Some(10)).is_none());

    let historical = tracker.recent_terminated_matching("com.example.player", Some(10_042), None).unwrap();
    assert_eq!(historical.instance(), instance);
    assert_eq!(historical.pid(), 42);
    assert_eq!(historical.death_line(), 20);
    assert_eq!(historical.uid(), Some(10_042));
    assert_eq!(historical.user(), Some(0));
}

#[test]
fn tracker_limits_are_fixed_at_the_documented_hard_caps() {
    let tracker = ProcessInstanceTracker::new();

    assert_eq!(tracker.stats().max_active_instances(), MAX_ACTIVE_PROCESS_INSTANCES);
    assert_eq!(tracker.stats().max_recent_terminated(), MAX_RECENT_TERMINATED_INSTANCES);
    assert!(matches!(
        ProcessInstanceTracker::with_limits(MAX_ACTIVE_PROCESS_INSTANCES + 1, 1),
        Err(ProcessTrackerLimitsError::InvalidActiveLimit)
    ));
    assert!(matches!(
        ProcessInstanceTracker::with_limits(1, MAX_RECENT_TERMINATED_INSTANCES + 1),
        Err(ProcessTrackerLimitsError::InvalidRecentLimit)
    ));
    assert!(matches!(
        ProcessInstanceTracker::with_limits(0, 1),
        Err(ProcessTrackerLimitsError::InvalidActiveLimit)
    ));
    assert!(matches!(
        ProcessInstanceTracker::with_limits(1, 0),
        Err(ProcessTrackerLimitsError::InvalidRecentLimit)
    ));
}

#[test]
fn active_capacity_evicts_by_last_touched_line_then_instance_key() {
    let mut tracker = ProcessInstanceTracker::with_limits(2, 2).unwrap();
    let first = ProcessIdentity::new(1, "com.example.first", Some(10_001), Some(0)).unwrap();
    let second = ProcessIdentity::new(2, "com.example.second", Some(10_002), Some(0)).unwrap();
    let third = ProcessIdentity::new(3, "com.example.third", Some(10_003), Some(0)).unwrap();
    let fourth = ProcessIdentity::new(4, "com.example.fourth", Some(10_004), Some(0)).unwrap();

    tracker.observe_start(10, first).unwrap();
    tracker.observe_start(10, second).unwrap();
    tracker.observe_start(10, third).unwrap();

    assert!(tracker.active_for_pid(1).is_none());
    assert!(tracker.active_for_pid(2).is_some());
    assert!(tracker.active_for_pid(3).is_some());

    tracker.observe_identity(11, second).unwrap();
    tracker.observe_start(11, fourth).unwrap();

    assert!(tracker.active_for_pid(2).is_some());
    assert!(tracker.active_for_pid(3).is_none());
    assert!(tracker.active_for_pid(4).is_some());
    assert_eq!(tracker.stats().active_instances(), 2);
    assert_eq!(tracker.stats().active_eviction_count(), 2);
    assert!(tracker.stats().identity_coverage_limited());
}

#[test]
fn recent_terminated_capacity_evicts_oldest_death_deterministically() {
    let mut tracker = ProcessInstanceTracker::with_limits(3, 2).unwrap();
    let first = ProcessIdentity::new(1, "com.example.first", Some(10_001), Some(0)).unwrap();
    let second = ProcessIdentity::new(2, "com.example.second", Some(10_002), Some(0)).unwrap();
    let third = ProcessIdentity::new(3, "com.example.third", Some(10_003), Some(0)).unwrap();

    for identity in [first, second, third] {
        tracker.observe_start(10, identity).unwrap();
        tracker.observe_death(20, identity).unwrap();
    }

    assert!(tracker.recent_terminated_matching("com.example.first", Some(10_001), None).is_none());
    assert!(tracker.recent_terminated_matching("com.example.second", Some(10_002), None).is_some());
    assert!(tracker.recent_terminated_matching("com.example.third", Some(10_003), None).is_some());
    assert_eq!(tracker.stats().recent_terminated(), 2);
    assert_eq!(tracker.stats().recent_eviction_count(), 1);
    assert!(tracker.stats().identity_coverage_limited());
}

#[test]
fn identity_rejects_pid_zero_and_blank_names() {
    assert!(matches!(ProcessIdentity::new(0, "com.example", None, None), Err(ProcessIdentityError::ZeroPid)));
    assert!(matches!(ProcessIdentity::new(1, "", None, None), Err(ProcessIdentityError::EmptyProcessName)));
    assert!(matches!(ProcessIdentity::new(1, " \t ", None, None), Err(ProcessIdentityError::EmptyProcessName)));
    assert!(ProcessIdentity::new(1, "com.example", None, None).is_ok());
}

#[test]
fn death_of_an_unknown_process_records_a_provisional_termination() {
    let mut tracker = ProcessInstanceTracker::new();
    let identity = ProcessIdentity::new(5, "com.example.ghost", Some(10_005), None).unwrap();
    let instance = tracker.observe_death(3, identity).unwrap();
    assert_eq!(instance.epoch_origin(), ProcessEpochOrigin::Provisional);
    assert_eq!(tracker.stats().active_instances(), 0);
    assert_eq!(tracker.stats().recent_terminated(), 1);
    let historical = tracker.recent_terminated_matching("com.example.ghost", Some(10_005), None).unwrap();
    assert_eq!(historical.instance(), instance);
    assert_eq!(historical.death_line(), 3);
}
