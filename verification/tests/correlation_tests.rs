use logcore::problems::budget::ProblemMemoryBudget;
use logcore::problems::correlation::{
    CompactCorrelationPayload, CorrelationLimitsError, ProvisionalFinalizeReason, ProvisionalLimits, ProvisionalStats,
    ProvisionalStore, RecentObservationLimits, RecentObservationStats, RecentObservationStore,
};

#[derive(Debug, PartialEq, Eq)]
struct TestPayload {
    id: u16,
    bytes: u32,
}

impl CompactCorrelationPayload for TestPayload {
    fn spec_payload_bytes(&self) -> u32 {
        self.bytes
    }

    fn logical_bytes(&self) -> u32 {
        self.bytes
    }
}

fn payload(id: u16, bytes: u32) -> TestPayload {
    TestPayload { id, bytes }
}

fn recent_ids(store: &RecentObservationStore<TestPayload>) -> Vec<u16> {
    store.iter().map(|item| item.payload().id).collect()
}

fn provisional_ids(store: &ProvisionalStore<TestPayload>) -> Vec<u16> {
    store.iter().map(|entry| entry.payload().id).collect()
}

#[test]
fn recent_store_accepts_the_exact_count_and_byte_boundaries() {
    let limits = RecentObservationLimits::new(2, 10).unwrap();
    let mut store = RecentObservationStore::with_limits(limits);

    let first = store.insert(1, 10, payload(1, 4)).unwrap();
    let second = store.insert(2, 10, payload(2, 6)).unwrap();

    assert_eq!(first.forcibly_evicted, 0);
    assert_eq!(second.forcibly_evicted, 0);
    assert_eq!(store.stats().retained_observation_count, 2);
    assert_eq!(store.stats().retained_logical_bytes, 10);
    assert_eq!(recent_ids(&store), vec![1, 2]);
}

#[test]
fn recent_store_forcibly_evicts_oldest_at_count_plus_one() {
    let limits = RecentObservationLimits::new(2, 100).unwrap();
    let mut store = RecentObservationStore::with_limits(limits);
    store.insert(1, 20, payload(1, 1)).unwrap();
    store.insert(2, 20, payload(2, 1)).unwrap();

    let outcome = store.insert(3, 20, payload(3, 1)).unwrap();

    assert_eq!(outcome.forcibly_evicted, 1);
    assert_eq!(recent_ids(&store), vec![2, 3]);
    assert_eq!(store.stats().dropped_recent_observation_count, 1);
    assert!(store.stats().correlation_limited);
}

#[test]
fn recent_store_forcibly_evicts_oldest_at_byte_limit_plus_one() {
    let limits = RecentObservationLimits::new(10, 10).unwrap();
    let mut store = RecentObservationStore::with_limits(limits);
    store.insert(1, 20, payload(1, 5)).unwrap();

    let outcome = store.insert(2, 20, payload(2, 6)).unwrap();

    assert_eq!(outcome.forcibly_evicted, 1);
    assert_eq!(recent_ids(&store), vec![2]);
    assert_eq!(store.stats().retained_logical_bytes, 6);
    assert_eq!(store.stats().dropped_recent_observation_count, 1);
}

#[test]
fn an_individually_oversized_recent_observation_is_not_retained() {
    let limits = RecentObservationLimits::new(2, 10).unwrap();
    let mut store = RecentObservationStore::with_limits(limits);

    let outcome = store.insert(1, 10, payload(1, 11)).unwrap();

    assert!(!outcome.retained);
    assert_eq!(outcome.forcibly_evicted, 1);
    assert!(store.is_empty());
    assert_eq!(store.stats().retained_logical_bytes, 0);
    assert_eq!(store.stats().dropped_recent_observation_count, 1);
    assert!(store.stats().correlation_limited);
}

#[test]
fn recent_store_expires_the_fifo_head_before_insert_without_counting_a_drop() {
    let limits = RecentObservationLimits::new(2, 10).unwrap();
    let mut store = RecentObservationStore::with_limits(limits);
    store.insert(1, 5, payload(1, 5)).unwrap();

    let outcome = store.insert(6, 10, payload(2, 5)).unwrap();

    assert_eq!(outcome.naturally_expired, 1);
    assert_eq!(outcome.forcibly_evicted, 0);
    assert_eq!(recent_ids(&store), vec![2]);
    assert_eq!(store.stats().dropped_recent_observation_count, 0);
    assert!(!store.stats().correlation_limited);
}

#[test]
fn recent_store_limit_state_is_sticky_until_reset() {
    let limits = RecentObservationLimits::new(1, 10).unwrap();
    let mut store = RecentObservationStore::with_limits(limits);
    store.insert(1, 5, payload(1, 1)).unwrap();
    store.insert(2, 5, payload(2, 1)).unwrap();

    assert_eq!(store.advance_watermark(5), 0);
    assert_eq!(store.advance_watermark(6), 1);
    assert!(store.stats().correlation_limited);
    assert_eq!(store.stats().dropped_recent_observation_count, 1);

    store.reset();

    assert_eq!(
        store.stats(),
        RecentObservationStats {
            retained_observation_count: 0,
            retained_logical_bytes: 0,
            dropped_recent_observation_count: 0,
            correlation_limited: false,
        }
    );
    assert_eq!(store.insert(7, 8, payload(3, 1)).unwrap().sequence, 0);
}

#[test]
fn recent_finish_discards_retained_items_but_preserves_limit_statistics() {
    let limits = RecentObservationLimits::new(1, 10).unwrap();
    let mut store = RecentObservationStore::with_limits(limits);
    store.insert(1, 10, payload(1, 1)).unwrap();
    store.insert(2, 10, payload(2, 1)).unwrap();

    assert_eq!(store.finish(), 1);

    assert!(store.is_empty());
    assert_eq!(store.stats().retained_logical_bytes, 0);
    assert_eq!(store.stats().dropped_recent_observation_count, 1);
    assert!(store.stats().correlation_limited);
}

#[test]
fn provisional_store_accepts_the_exact_count_and_byte_boundaries() {
    let limits = ProvisionalLimits::new(2, 10).unwrap();
    let mut store = ProvisionalStore::with_limits(limits);

    let first = store.insert(20, payload(1, 4)).unwrap();
    let second = store.insert(10, payload(2, 6)).unwrap();

    assert!(first.finalized.is_empty());
    assert!(second.finalized.is_empty());
    assert_eq!(
        store.stats(),
        ProvisionalStats { provisional_occurrence_count: 2, retained_logical_bytes: 10, capacity_finalized_count: 0 }
    );
}

#[test]
fn provisional_store_finalizes_the_earliest_deadline_at_count_plus_one() {
    let limits = ProvisionalLimits::new(2, 100).unwrap();
    let mut store = ProvisionalStore::with_limits(limits);
    store.insert(20, payload(1, 1)).unwrap();
    store.insert(10, payload(2, 1)).unwrap();

    let outcome = store.insert(30, payload(3, 1)).unwrap();

    assert_eq!(outcome.finalized.len(), 1);
    assert_eq!(outcome.finalized[0].reason, ProvisionalFinalizeReason::Capacity);
    assert_eq!(outcome.finalized[0].entry.payload().id, 2);
    assert_eq!(provisional_ids(&store), vec![1, 3]);
    assert_eq!(store.stats().capacity_finalized_count, 1);
}

#[test]
fn provisional_watermark_must_strictly_cross_the_finalize_line() {
    let limits = ProvisionalLimits::new(3, 100).unwrap();
    let mut store = ProvisionalStore::with_limits(limits);
    store.insert(10, payload(1, 1)).unwrap();
    store.insert(11, payload(2, 1)).unwrap();

    assert!(store.advance_watermark(10).is_empty());
    let finalized = store.advance_watermark(11);

    assert_eq!(finalized.len(), 1);
    assert_eq!(finalized[0].reason, ProvisionalFinalizeReason::Watermark);
    assert_eq!(finalized[0].entry.payload().id, 1);
    assert_eq!(provisional_ids(&store), vec![2]);
}

#[test]
fn provisional_finish_flushes_every_entry_in_deadline_then_sequence_order() {
    let limits = ProvisionalLimits::new(3, 100).unwrap();
    let mut store = ProvisionalStore::with_limits(limits);
    store.insert(20, payload(1, 1)).unwrap();
    store.insert(10, payload(2, 1)).unwrap();
    store.insert(10, payload(3, 1)).unwrap();

    let finalized = store.finish();

    assert_eq!(
        finalized.iter().map(|item| (item.entry.payload().id, item.reason)).collect::<Vec<_>>(),
        vec![
            (2, ProvisionalFinalizeReason::Finish),
            (3, ProvisionalFinalizeReason::Finish),
            (1, ProvisionalFinalizeReason::Finish),
        ]
    );
    assert_eq!(
        store.stats(),
        ProvisionalStats { provisional_occurrence_count: 0, retained_logical_bytes: 0, capacity_finalized_count: 0 }
    );
}

#[test]
fn provisional_reset_discards_pending_state_and_restarts_statistics() {
    let limits = ProvisionalLimits::new(1, 10).unwrap();
    let mut store = ProvisionalStore::with_limits(limits);
    store.insert(20, payload(1, 1)).unwrap();
    store.insert(30, payload(2, 1)).unwrap();
    assert_eq!(store.stats().capacity_finalized_count, 1);

    store.reset();

    assert_eq!(
        store.stats(),
        ProvisionalStats { provisional_occurrence_count: 0, retained_logical_bytes: 0, capacity_finalized_count: 0 }
    );
    assert_eq!(store.insert(40, payload(3, 1)).unwrap().sequence, 0);
}

#[test]
fn provisional_payload_can_be_updated_without_rekeying_the_store() {
    let limits = ProvisionalLimits::new(2, 10).unwrap();
    let mut store = ProvisionalStore::with_limits(limits);
    store.insert(20, payload(1, 4)).unwrap();

    store.payload_mut(0).unwrap().id = 7;

    let finalized = store.finish();
    assert_eq!(finalized[0].entry.payload().id, 7);
    assert_eq!(finalized[0].entry.logical_bytes(), 4);
}

#[test]
fn frozen_default_limits_match_the_correlation_contract() {
    let recent = RecentObservationLimits::default();
    assert_eq!(recent.max_observations(), 16_384);
    assert_eq!(recent.max_logical_bytes(), 256 * 1024);

    let provisional = ProvisionalLimits::default();
    assert_eq!(provisional.max_occurrences(), 4_096);
    assert_eq!(provisional.max_logical_bytes(), 4 * 1024 * 1024);
}

#[test]
fn provisional_byte_pressure_uses_deadline_order_not_insertion_order() {
    let limits = ProvisionalLimits::new(10, 10).unwrap();
    let mut store = ProvisionalStore::with_limits(limits);
    store.insert(20, payload(1, 4)).unwrap();

    let outcome = store.insert(10, payload(2, 7)).unwrap();

    assert_eq!(outcome.finalized.len(), 1);
    assert_eq!(outcome.finalized[0].entry.payload().id, 2);
    assert_eq!(outcome.finalized[0].reason, ProvisionalFinalizeReason::Capacity);
    assert_eq!(provisional_ids(&store), vec![1]);
    assert_eq!(store.stats().retained_logical_bytes, 4);
}

#[test]
fn an_individually_oversized_provisional_is_returned_for_capacity_finalization() {
    let limits = ProvisionalLimits::new(2, 10).unwrap();
    let mut store = ProvisionalStore::with_limits(limits);

    let outcome = store.insert(10, payload(1, 11)).unwrap();

    assert!(store.is_empty());
    assert_eq!(outcome.finalized.len(), 1);
    assert_eq!(outcome.finalized[0].entry.payload().id, 1);
    assert_eq!(outcome.finalized[0].reason, ProvisionalFinalizeReason::Capacity);
    assert_eq!(store.stats().capacity_finalized_count, 1);
}

#[test]
fn provisional_equal_deadlines_are_finalized_by_sequence() {
    let limits = ProvisionalLimits::new(2, 100).unwrap();
    let mut store = ProvisionalStore::with_limits(limits);
    store.insert(10, payload(1, 1)).unwrap();
    store.insert(10, payload(2, 1)).unwrap();

    let outcome = store.insert(10, payload(3, 1)).unwrap();

    assert_eq!(outcome.finalized[0].entry.sequence(), 0);
    assert_eq!(outcome.finalized[0].entry.payload().id, 1);
}

#[test]
fn zero_capacity_is_rejected_for_both_stores() {
    assert_eq!(RecentObservationLimits::new(0, 1), Err(CorrelationLimitsError));
    assert_eq!(RecentObservationLimits::new(1, 0), Err(CorrelationLimitsError));
    assert_eq!(ProvisionalLimits::new(0, 1), Err(CorrelationLimitsError));
    assert_eq!(ProvisionalLimits::new(1, 0), Err(CorrelationLimitsError));
}

#[test]
fn recent_and_provisional_stores_share_one_non_bypassable_budget() {
    let budget = ProblemMemoryBudget::with_limit_bytes(2 * 1024).unwrap();
    let provisional_limits = ProvisionalLimits::new(100, 1024 * 1024).unwrap();
    let recent_limits = RecentObservationLimits::new(100, 1024 * 1024).unwrap();
    let mut provisional = ProvisionalStore::with_limits_and_budget(provisional_limits, budget.clone());
    let mut recent = RecentObservationStore::with_limits_and_budget(recent_limits, budget.clone());

    for id in 0..100 {
        let _ = provisional.insert(u64::from(id) + 100, payload(id, 32)).unwrap();
    }
    for id in 0..100 {
        let _ = recent.insert(u64::from(id), u64::from(id) + 100, payload(id, 32)).unwrap();
    }

    assert!(provisional.stats().capacity_finalized_count > 0 || recent.stats().dropped_recent_observation_count > 0);
    assert!(budget.stats().limited);
    assert!(budget.stats().charged_bytes <= budget.stats().limit_bytes);
    assert!(budget.stats().retained_heap_bytes <= budget.stats().charged_bytes);

    provisional.reset();
    recent.reset();
    budget.clear_limit_state();
    assert_eq!(budget.stats().charged_bytes, 0);
    assert_eq!(budget.stats().retained_heap_bytes, 0);
    assert!(!budget.stats().limited);
}

#[test]
fn provisional_remove_and_extend_deadline_keep_the_order() {
    let limits = ProvisionalLimits::new(4, 100).unwrap();
    let mut store = ProvisionalStore::with_limits(limits);
    let a = store.insert(10, payload(1, 1)).unwrap().sequence;
    let b = store.insert(20, payload(2, 1)).unwrap().sequence;
    store.insert(30, payload(3, 1)).unwrap();

    assert!(store.extend_finalize_after_line(a, 25));
    assert_eq!(provisional_ids(&store), vec![2, 1, 3]);
    assert_eq!(store.next_finalize_after_line(), Some(20));
    assert!(!store.extend_finalize_after_line(99, 40));

    let removed = store.remove(b).unwrap();
    assert_eq!(removed.payload().id, 2);
    assert!(store.remove(b).is_none());
    assert_eq!(provisional_ids(&store), vec![1, 3]);
    assert_eq!(store.len(), 2);
    assert_eq!(store.stats().retained_logical_bytes, 2);
}

#[test]
fn recent_next_expiry_and_payload_update() {
    let limits = RecentObservationLimits::new(3, 100).unwrap();
    let mut store = RecentObservationStore::with_limits(limits);
    assert_eq!(store.next_expiry_line(), None);
    store.insert(1, 7, payload(1, 1)).unwrap();
    store.insert(2, 9, payload(2, 1)).unwrap();
    assert_eq!(store.next_expiry_line(), Some(7));
    store.payload_mut(1).unwrap().id = 5;
    assert_eq!(recent_ids(&store), vec![1, 5]);
    assert!(store.payload_mut(2).is_none());
    assert_eq!(store.len(), 2);
}

#[test]
fn provisional_deadline_never_shrinks() {
    let limits = ProvisionalLimits::new(4, 100).unwrap();
    let mut store = ProvisionalStore::with_limits(limits);
    let a = store.insert(30, payload(1, 1)).unwrap().sequence;
    store.insert(20, payload(2, 1)).unwrap();
    assert!(store.extend_finalize_after_line(a, 10));
    assert_eq!(provisional_ids(&store), vec![2, 1]);
    let deadlines: Vec<u64> = store.iter().map(|e| e.finalize_after_line()).collect();
    assert_eq!(deadlines, vec![20, 30]);
    assert!(store.extend_finalize_after_line(a, 40));
    let deadlines: Vec<u64> = store.iter().map(|e| e.finalize_after_line()).collect();
    assert_eq!(deadlines, vec![20, 40]);
    assert_eq!(store.stats().retained_logical_bytes, 2);
}
