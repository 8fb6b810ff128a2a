use logcore::problems::budget::{
    hash_map_usage, vec_deque_usage, vec_usage, ProblemMemoryAccount, ProblemMemoryBudget, ProblemMemoryBudgetError, ProblemMemoryUsage,
    DEFAULT_PROBLEM_MEMORY_BUDGET_BYTES,
};

#[test]
fn shared_accounts_cannot_bypass_the_total_limit() {
    let budget = ProblemMemoryBudget::with_limit_bytes(1_000).unwrap();
    let mut index = budget.account();
    let mut correlation = budget.account();

    index
        .try_set_usage(ProblemMemoryUsage { retained_bytes: 400, charged_bytes: 600 })
        .unwrap();
    assert_eq!(
        correlation.try_set_usage(ProblemMemoryUsage { retained_bytes: 300, charged_bytes: 500 }),
        Err(ProblemMemoryBudgetError::LimitExceeded)
    );

    assert_eq!(index.usage().charged_bytes, 600);
    assert_eq!(correlation.usage().charged_bytes, 0);
    assert_eq!(budget.stats().charged_bytes, 600);
    assert_eq!(budget.stats().retained_heap_bytes, 400);
    assert_eq!(budget.stats().denied_reservation_count, 1);
    assert!(budget.stats().limited);
}

#[test]
fn release_and_reset_reclaim_usage_and_limit_state() {
    let budget = ProblemMemoryBudget::with_limit_bytes(1_000).unwrap();
    let mut account = budget.account();
    account
        .try_set_usage(ProblemMemoryUsage { retained_bytes: 500, charged_bytes: 750 })
        .unwrap();
    assert!(account
        .try_set_usage(ProblemMemoryUsage { retained_bytes: 900, charged_bytes: 1_100 })
        .is_err());

    account.release();
    budget.clear_limit_state();

    assert_eq!(budget.stats().charged_bytes, 0);
    assert_eq!(budget.stats().retained_heap_bytes, 0);
    assert_eq!(budget.stats().high_water_charged_bytes, 0);
    assert_eq!(budget.stats().denied_reservation_count, 0);
    assert!(!budget.stats().limited);
}

#[test]
fn conservative_container_charges_exceed_retained_capacity_bytes() {
    let vector = vec_usage::<u64>(100).unwrap();
    let map = hash_map_usage::<u32, u64>(100).unwrap();
    assert_eq!(vector.retained_bytes, 800);
    assert!(vector.charged_bytes > vector.retained_bytes);
    assert!(map.retained_bytes >= 100 * (4 + 8));
    assert!(map.charged_bytes > map.retained_bytes);
}

#[test]
fn a_zero_limit_is_rejected() {
    assert!(ProblemMemoryBudget::with_limit_bytes(0).is_err());
    let budget = ProblemMemoryBudget::new();
    assert_eq!(budget.stats().limit_bytes, DEFAULT_PROBLEM_MEMORY_BUDGET_BYTES);
    assert_eq!(budget.stats().charged_bytes, 0);
}

#[test]
fn checked_add_sums_both_fields_and_detects_overflow() {
    let a = ProblemMemoryUsage { retained_bytes: 3, charged_bytes: 5 };
    let b = ProblemMemoryUsage { retained_bytes: 7, charged_bytes: 11 };
    assert_eq!(a.checked_add(b), Ok(ProblemMemoryUsage { retained_bytes: 10, charged_bytes: 16 }));
    let big = ProblemMemoryUsage { retained_bytes: usize::MAX, charged_bytes: usize::MAX };
    assert!(big.checked_add(a).is_err());
    assert_eq!(ProblemMemoryUsage::ZERO(), ProblemMemoryUsage { retained_bytes: 0, charged_bytes: 0 });
}

#[test]
fn shrinking_usage_returns_bytes_to_the_shared_ledger() {
    let budget = ProblemMemoryBudget::with_limit_bytes(1_000).unwrap();
    let mut first = budget.account();
    let mut second = budget.share().account();
    first.try_set_usage(ProblemMemoryUsage { retained_bytes: 500, charged_bytes: 900 }).unwrap();
    assert!(second.try_set_usage(ProblemMemoryUsage { retained_bytes: 100, charged_bytes: 200 }).is_err());
    first.try_set_usage(ProblemMemoryUsage { retained_bytes: 100, charged_bytes: 300 }).unwrap();
    second.try_set_usage(ProblemMemoryUsage { retained_bytes: 100, charged_bytes: 200 }).unwrap();
    assert_eq!(budget.stats().charged_bytes, 500);
    assert_eq!(budget.stats().high_water_charged_bytes, 900);
}

#[test]
fn deque_usage_counts_the_ring_buffer() {
    let deque = vec_deque_usage::<u32>(10).unwrap();
    assert_eq!(deque.retained_bytes, 40);
    assert!(deque.charged_bytes >= deque.retained_bytes);
}

#[test]
fn private_account_grants_exactly_up_to_its_limit() {
    let mut account = ProblemMemoryAccount::private(100);
    assert!(account.try_set_usage(ProblemMemoryUsage { retained_bytes: 40, charged_bytes: 100 }).is_ok());
    assert_eq!(account.usage().charged_bytes, 100);
    assert_eq!(
        account.try_set_usage(ProblemMemoryUsage { retained_bytes: 101, charged_bytes: 0 }),
        Err(ProblemMemoryBudgetError::LimitExceeded)
    );
    assert_eq!(account.usage().charged_bytes, 100);
    account.release();
    assert_eq!(account.usage().charged_bytes, 0);
}
