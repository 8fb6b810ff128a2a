use vstd::prelude::*;
use vstd::rwlock::{RwLock, RwLockPredicate};
use std::sync::Arc;

verus! {

pub const DEFAULT_PROBLEM_MEMORY_BUDGET_BYTES: usize = 112 * 1024 * 1024;

#[derive(Debug, Clone, Copy, PartialEq, Eq, Structural)]
pub enum ProblemMemoryBudgetError {
    ZeroLimit,
    LimitExceeded,
    SizeOverflow,
}

#[derive(Debug, Clone, Copy, PartialEq, Eq, Structural)]
pub struct ProblemMemoryStats {
    pub limit_bytes: usize,
    pub charged_bytes: usize,
    pub retained_heap_bytes: usize,
    pub high_water_charged_bytes: usize,
    pub denied_reservation_count: u64,
    pub limited: bool,
}

/// The bytes an owner retains on the heap, and the bytes charged for them (retained bytes
/// plus allocator overhead).
#[derive(Debug, Default, Clone, Copy, PartialEq, Eq, Structural)]
pub struct ProblemMemoryUsage {
    pub retained_bytes: usize,
    pub charged_bytes: usize,
}

impl ProblemMemoryUsage {
    #[allow(non_snake_case)]
    pub fn ZERO() -> (r: ProblemMemoryUsage)
        ensures
            r.retained_bytes == 0 && r.charged_bytes == 0,
    {
        ProblemMemoryUsage { retained_bytes: 0, charged_bytes: 0 }
    }

    pub fn checked_add(self, other: Self) -> (r: Result<Self, ProblemMemoryBudgetError>)
        ensures
            match r {
                Ok(u) => u.retained_bytes == self.retained_bytes + other.retained_bytes
                    && u.charged_bytes == self.charged_bytes + other.charged_bytes,
                Err(e) => e == ProblemMemoryBudgetError::SizeOverflow && (self.retained_bytes
                    + other.retained_bytes > usize::MAX || self.charged_bytes + other.charged_bytes
                    > usize::MAX),
            },
    {
        let retained_bytes = match self.retained_bytes.checked_add(other.retained_bytes) {
            Some(v) => v,
            None => return Err(ProblemMemoryBudgetError::SizeOverflow),
        };
        let charged_bytes = match self.charged_bytes.checked_add(other.charged_bytes) {
            Some(v) => v,
            None => return Err(ProblemMemoryBudgetError::SizeOverflow),
        };
        Ok(ProblemMemoryUsage { retained_bytes, charged_bytes })
    }
}

/// A usage whose charge covers at least its retained bytes.
pub open spec fn spec_normalized(u: ProblemMemoryUsage) -> ProblemMemoryUsage {
    ProblemMemoryUsage {
        retained_bytes: u.retained_bytes,
        charged_bytes: if u.charged_bytes >= u.retained_bytes { u.charged_bytes } else { u.retained_bytes },
    }
}

struct BudgetState {
    limit_bytes: usize,
    charged_bytes: usize,
    retained_heap_bytes: usize,
    high_water_charged_bytes: usize,
    denied_reservation_count: u64,
    limited: bool,
}

/// What every state of a shared ledger keeps: its fixed limit, and charges within it.
pub ghost struct BudgetInvariant {
    pub limit: usize,
}

impl RwLockPredicate<BudgetState> for BudgetInvariant {
    closed spec fn inv(self, v: BudgetState) -> bool {
        &&& v.limit_bytes == self.limit
        &&& 0 < v.limit_bytes
        &&& v.charged_bytes <= v.limit_bytes
        &&& v.charged_bytes <= v.high_water_charged_bytes
    }
}

/// A shared ledger of the memory the Problems stores retain. Every account that a budget
/// hands out charges the same ledger, so the total charge never exceeds the limit.
pub struct ProblemMemoryBudget {
    limit_bytes: usize,
    state: Arc<RwLock<BudgetState, BudgetInvariant>>,
}

impl ProblemMemoryBudget {
    #[verifier::type_invariant]
    closed spec fn wf(self) -> bool {
        &&& self.state.pred().limit == self.limit_bytes
        &&& 0 < self.limit_bytes
    }

    /// The limit this budget was made with.
    pub closed spec fn spec_limit(self) -> usize {
        self.limit_bytes
    }

    pub fn new() -> (r: Self)
        ensures
            r.spec_limit() == DEFAULT_PROBLEM_MEMORY_BUDGET_BYTES,
    {
        ProblemMemoryBudget::fresh(DEFAULT_PROBLEM_MEMORY_BUDGET_BYTES)
    }

    fn fresh(limit_bytes: usize) -> (r: Self)
        requires
            limit_bytes > 0,
        ensures
            r.spec_limit() == limit_bytes,
    {
        let state = BudgetState {
            limit_bytes,
            charged_bytes: 0,
            retained_heap_bytes: 0,
            high_water_charged_bytes: 0,
            denied_reservation_count: 0,
            limited: false,
        };
        let lock = RwLock::new(state, Ghost(BudgetInvariant { limit: limit_bytes }));
        ProblemMemoryBudget { limit_bytes, state: Arc::new(lock) }
    }

    pub fn with_limit_bytes(limit_bytes: usize) -> (r: Result<Self, ProblemMemoryBudgetError>)
        ensures
            limit_bytes == 0 <==> r == Err::<Self, ProblemMemoryBudgetError>(ProblemMemoryBudgetError::ZeroLimit),
            r matches Ok(b) ==> b.spec_limit() == limit_bytes,
    {
        if limit_bytes == 0 {
            return Err(ProblemMemoryBudgetError::ZeroLimit);
        }
        Ok(ProblemMemoryBudget::fresh(limit_bytes))
    }

    /// A snapshot of the ledger. Other holders of the ledger may change it at any time, so
    /// only what every state keeps is stated: the limit, and a charge within it.
    pub fn stats(&self) -> (r: ProblemMemoryStats)
        ensures
            r.limit_bytes == self.spec_limit(),
            0 < r.limit_bytes,
            r.charged_bytes <= r.limit_bytes,
            r.charged_bytes <= r.high_water_charged_bytes,
    {
        proof {
            use_type_invariant(self);
        }
        let handle = self.state.acquire_read();
        let state = handle.borrow();
        let r = ProblemMemoryStats {
            limit_bytes: state.limit_bytes,
            charged_bytes: state.charged_bytes,
            retained_heap_bytes: state.retained_heap_bytes,
            high_water_charged_bytes: state.high_water_charged_bytes,
            denied_reservation_count: state.denied_reservation_count,
            limited: state.limited,
        };
        handle.release_read();
        r
    }

    /// Another handle on the same ledger.
    pub fn share(&self) -> (r: Self)
        ensures
            r.spec_limit() == self.spec_limit(),
    {
        proof {
            use_type_invariant(self);
        }
        ProblemMemoryBudget { limit_bytes: self.limit_bytes, state: Arc::clone(&self.state) }
    }

    /// A new account on this ledger, holding nothing.
    pub fn account(&self) -> (r: ProblemMemoryAccount)
        ensures
            r.spec_usage() == (ProblemMemoryUsage { retained_bytes: 0, charged_bytes: 0 }),
            r.spec_limit() == self.spec_limit(),
            !r.spec_private(),
    {
        proof {
            use_type_invariant(self);
        }
        ProblemMemoryAccount {
            ledger: Some(self.share()),
            limit_bytes: self.limit_bytes,
            usage: ProblemMemoryUsage { retained_bytes: 0, charged_bytes: 0 },
        }
    }

    /// Restarts the limit statistics: the high-water mark falls to the present charge, and the
    /// denial count and the limited flag clear.
    pub fn clear_limit_state(&self) {
        proof {
            use_type_invariant(self);
        }
        let (mut state, handle) = self.state.acquire_write();
        state.high_water_charged_bytes = state.charged_bytes;
        state.denied_reservation_count = 0;
        state.limited = false;
        handle.release_write(state);
    }
}

impl Clone for ProblemMemoryBudget {
    fn clone(&self) -> (r: Self)
        ensures
            r.spec_limit() == self.spec_limit(),
    {
        self.share()
    }
}

/// One owner's share of a budget's ledger. An account made with a budget of its own keeps
/// that ledger to itself: nobody else can charge it, so it holds exactly this account's
/// charge.
pub struct ProblemMemoryAccount {
    ledger: Option<ProblemMemoryBudget>,
    limit_bytes: usize,
    usage: ProblemMemoryUsage,
}

impl ProblemMemoryAccount {
    #[verifier::type_invariant]
    closed spec fn wf(self) -> bool {
        &&& 0 < self.limit_bytes
        &&& self.ledger matches Some(b) ==> b.spec_limit() == self.limit_bytes
        &&& self.usage.charged_bytes <= self.limit_bytes
        &&& self.usage.retained_bytes <= self.usage.charged_bytes
    }

    pub closed spec fn spec_usage(self) -> ProblemMemoryUsage {
        self.usage
    }

    pub closed spec fn spec_limit(self) -> usize {
        self.limit_bytes
    }

    /// Whether the account has its budget to itself.
    pub closed spec fn spec_private(self) -> bool {
        self.ledger is None
    }

    /// An account with a budget of its own of `limit_bytes`, holding nothing.
    pub fn private(limit_bytes: usize) -> (r: Self)
        requires
            limit_bytes > 0,
        ensures
            r.spec_private(),
            r.spec_limit() == limit_bytes,
            r.spec_usage() == (ProblemMemoryUsage { retained_bytes: 0, charged_bytes: 0 }),
    {
        ProblemMemoryAccount { ledger: None, limit_bytes, usage: ProblemMemoryUsage { retained_bytes: 0, charged_bytes: 0 } }
    }

    pub fn usage(&self) -> (r: ProblemMemoryUsage)
        ensures
            r == self.spec_usage(),
            r.retained_bytes <= r.charged_bytes <= self.spec_limit(),
    {
        proof {
            use_type_invariant(self);
        }
        self.usage
    }

    /// Replaces this account's usage, counting a refusal against the ledger's limit state.
    pub fn try_set_usage(&mut self, usage: ProblemMemoryUsage) -> (r: Result<(), ProblemMemoryBudgetError>)
        ensures
            final(self).spec_limit() == old(self).spec_limit(),
            r is Ok ==> final(self).spec_usage() == spec_normalized(usage),
            r is Err ==> final(self).spec_usage() == old(self).spec_usage(),
            r is Err ==> r == Err::<(), ProblemMemoryBudgetError>(ProblemMemoryBudgetError::LimitExceeded)
                || r == Err::<(), ProblemMemoryBudgetError>(ProblemMemoryBudgetError::SizeOverflow),
            spec_normalized(usage).charged_bytes > old(self).spec_limit() ==> r is Err,
            final(self).spec_private() == old(self).spec_private(),
            old(self).spec_private() ==> (r is Ok <==> spec_normalized(usage).charged_bytes <= old(self).spec_limit()),
    {
        self.try_set_usage_inner(usage, true)
    }

    /// Replaces this account's usage without touching the ledger's limit state on refusal.
    pub fn try_set_usage_transient(&mut self, usage: ProblemMemoryUsage) -> (r: Result<(), ProblemMemoryBudgetError>)
        ensures
            final(self).spec_limit() == old(self).spec_limit(),
            r is Ok ==> final(self).spec_usage() == spec_normalized(usage),
            r is Err ==> final(self).spec_usage() == old(self).spec_usage(),
            r is Err ==> r == Err::<(), ProblemMemoryBudgetError>(ProblemMemoryBudgetError::LimitExceeded)
                || r == Err::<(), ProblemMemoryBudgetError>(ProblemMemoryBudgetError::SizeOverflow),
            spec_normalized(usage).charged_bytes > old(self).spec_limit() ==> r is Err,
            final(self).spec_private() == old(self).spec_private(),
            old(self).spec_private() ==> (r is Ok <==> spec_normalized(usage).charged_bytes <= old(self).spec_limit()),
    {
        self.try_set_usage_inner(usage, false)
    }

    /// The ledger holds the charges of every account. Should it ever hold less than this
    /// account's own share, the shortfall is taken as zero.
    fn try_set_usage_inner(&mut self, usage: ProblemMemoryUsage, mark_limited: bool) -> (r: Result<(), ProblemMemoryBudgetError>)
        ensures
            final(self).spec_limit() == old(self).spec_limit(),
            r is Ok ==> final(self).spec_usage() == spec_normalized(usage),
            r is Err ==> final(self).spec_usage() == old(self).spec_usage(),
            r is Err ==> r == Err::<(), ProblemMemoryBudgetError>(ProblemMemoryBudgetError::LimitExceeded)
                || r == Err::<(), ProblemMemoryBudgetError>(ProblemMemoryBudgetError::SizeOverflow),
            spec_normalized(usage).charged_bytes > old(self).spec_limit() ==> r is Err,
            final(self).spec_private() == old(self).spec_private(),
            old(self).spec_private() ==> (r is Ok <==> spec_normalized(usage).charged_bytes <= old(self).spec_limit()),
    {
        proof {
            use_type_invariant(&*self);
        }
        let mut usage = usage;
        if usage.charged_bytes < usage.retained_bytes {
            usage.charged_bytes = usage.retained_bytes;
        }
        let budget = match &self.ledger {
            Some(b) => b,
            None => {
                if usage.charged_bytes > self.limit_bytes {
                    return Err(ProblemMemoryBudgetError::LimitExceeded);
                }
                self.usage = usage;
                return Ok(());
            },
        };
        proof {
            use_type_invariant(budget);
        }
        let (mut state, handle) = budget.state.acquire_write();
        let other_charged = state.charged_bytes.saturating_sub(self.usage.charged_bytes);
        let next_charged = match other_charged.checked_add(usage.charged_bytes) {
            Some(v) => v,
            None => {
                handle.release_write(state);
                return Err(ProblemMemoryBudgetError::SizeOverflow);
            },
        };
        if next_charged > state.limit_bytes {
            if mark_limited {
                state.denied_reservation_count = state.denied_reservation_count.saturating_add(1);
                state.limited = true;
            }
            handle.release_write(state);
            return Err(ProblemMemoryBudgetError::LimitExceeded);
        }
        let other_retained = state.retained_heap_bytes.saturating_sub(self.usage.retained_bytes);
        let next_retained = match other_retained.checked_add(usage.retained_bytes) {
            Some(v) => v,
            None => {
                handle.release_write(state);
                return Err(ProblemMemoryBudgetError::SizeOverflow);
            },
        };
        state.charged_bytes = next_charged;
        state.retained_heap_bytes = next_retained;
        if state.high_water_charged_bytes < state.charged_bytes {
            state.high_water_charged_bytes = state.charged_bytes;
        }
        handle.release_write(state);
        self.usage = usage;
        Ok(())
    }

    /// Settles a precharge down to the actual usage. A usage above the precharge is asked
    /// of the ledger instead, and kept only if the ledger grants it.
    pub fn settle_precharged(&mut self, usage: ProblemMemoryUsage)
        ensures
            final(self).spec_limit() == old(self).spec_limit(),
            final(self).spec_private() == old(self).spec_private(),
            spec_normalized(usage).charged_bytes <= old(self).spec_usage().charged_bytes ==> final(self).spec_usage()
                == spec_normalized(usage),
            spec_normalized(usage).charged_bytes > old(self).spec_usage().charged_bytes ==> (final(self).spec_usage()
                == spec_normalized(usage) || final(self).spec_usage() == old(self).spec_usage()),
    {
        proof {
            use_type_invariant(&*self);
        }
        let mut usage = usage;
        if usage.charged_bytes < usage.retained_bytes {
            usage.charged_bytes = usage.retained_bytes;
        }
        if usage.charged_bytes > self.usage.charged_bytes {
            let _ = self.try_set_usage(usage);
            return;
        }
        let budget = match &self.ledger {
            Some(b) => b,
            None => {
                self.usage = usage;
                return;
            },
        };
        proof {
            use_type_invariant(budget);
        }
        let (mut state, handle) = budget.state.acquire_write();
        let charged = state.charged_bytes.saturating_sub(self.usage.charged_bytes);
        state.charged_bytes = if charged <= state.limit_bytes - usage.charged_bytes {
            charged + usage.charged_bytes
        } else {
            state.limit_bytes
        };
        let retained = state.retained_heap_bytes.saturating_sub(self.usage.retained_bytes);
        state.retained_heap_bytes = retained.saturating_add(usage.retained_bytes);
        if state.high_water_charged_bytes < state.charged_bytes {
            state.high_water_charged_bytes = state.charged_bytes;
        }
        handle.release_write(state);
        self.usage = usage;
    }

    /// Returns everything this account holds to the ledger.
    pub fn release(&mut self)
        ensures
            final(self).spec_limit() == old(self).spec_limit(),
            final(self).spec_private() == old(self).spec_private(),
            final(self).spec_usage() == (ProblemMemoryUsage { retained_bytes: 0, charged_bytes: 0 }),
    {
        self.settle_precharged(ProblemMemoryUsage { retained_bytes: 0, charged_bytes: 0 });
    }
}

/// The usage of `count` allocations retaining `retained` bytes: each allocation costs 64
/// bytes of allocator overhead, and the retained bytes a quarter more.
pub open spec fn spec_conservative_usage(retained: int, count: int) -> Option<(int, int)> {
    if count == 0 {
        Some((0, 0))
    } else {
        let overhead = retained / 4 + count * 64;
        if count * 64 > usize::MAX || overhead > usize::MAX || retained + overhead > usize::MAX {
            None
        } else {
            Some((retained, retained + overhead))
        }
    }
}

/// Whether a usage is the given pair, or an overflow when there is none.
pub open spec fn spec_usage_is(r: Result<ProblemMemoryUsage, ProblemMemoryBudgetError>, expected: Option<(int, int)>) -> bool {
    match (r, expected) {
        (Ok(u), Some((retained, charged))) => u.retained_bytes == retained && u.charged_bytes == charged,
        (Err(e), None) => e == ProblemMemoryBudgetError::SizeOverflow,
        _ => false,
    }
}

fn conservative_usage(retained_bytes: usize, allocation_count: usize) -> (r: Result<ProblemMemoryUsage, ProblemMemoryBudgetError>)
    ensures
        spec_usage_is(r, spec_conservative_usage(retained_bytes as int, allocation_count as int)),
{
    if allocation_count == 0 {
        return Ok(ProblemMemoryUsage { retained_bytes: 0, charged_bytes: 0 });
    }
    let fixed = match allocation_count.checked_mul(64) {
        Some(v) => v,
        None => return Err(ProblemMemoryBudgetError::SizeOverflow),
    };
    let allocator_overhead = match (retained_bytes / 4).checked_add(fixed) {
        Some(v) => v,
        None => return Err(ProblemMemoryBudgetError::SizeOverflow),
    };
    let charged_bytes = match retained_bytes.checked_add(allocator_overhead) {
        Some(v) => v,
        None => return Err(ProblemMemoryBudgetError::SizeOverflow),
    };
    Ok(ProblemMemoryUsage { retained_bytes, charged_bytes })
}

/// The retained bytes of `capacity` elements of `size` bytes in `count` allocations.
pub open spec fn spec_aggregate_usage(capacity: int, size: int, count: int) -> Option<(int, int)> {
    if capacity * size > usize::MAX {
        None
    } else {
        spec_conservative_usage(capacity * size, count)
    }
}

pub fn aggregate_vec_usage<T>(total_capacity: usize, allocation_count: usize) -> (r: Result<ProblemMemoryUsage, ProblemMemoryBudgetError>)
    ensures
        spec_usage_is(r, spec_aggregate_usage(total_capacity as int, vstd::layout::size_of::<T>() as int, allocation_count as int)),
{
    let size = core::mem::size_of::<T>();
    let retained_bytes = match total_capacity.checked_mul(size) {
        Some(v) => v,
        None => return Err(ProblemMemoryBudgetError::SizeOverflow),
    };
    conservative_usage(retained_bytes, allocation_count)
}

pub fn vec_usage<T>(capacity: usize) -> (r: Result<ProblemMemoryUsage, ProblemMemoryBudgetError>)
    ensures
        spec_usage_is(r, spec_aggregate_usage(capacity as int, vstd::layout::size_of::<T>() as int, if capacity != 0 { 1int } else { 0int })),
{
    aggregate_vec_usage::<T>(capacity, if capacity != 0 { 1 } else { 0 })
}

pub fn vec_deque_usage<T>(capacity: usize) -> (r: Result<ProblemMemoryUsage, ProblemMemoryBudgetError>)
    ensures
        spec_usage_is(r, spec_aggregate_usage(capacity as int, vstd::layout::size_of::<T>() as int, if capacity != 0 { 1int } else { 0int })),
{
    vec_usage::<T>(capacity)
}

/// The sum of two usages, or none when either is none or a sum overflows.
pub open spec fn spec_combined_usage(a: Option<(int, int)>, b: Option<(int, int)>) -> Option<(int, int)> {
    match (a, b) {
        (Some(x), Some(y)) => if x.0 + y.0 > usize::MAX || x.1 + y.1 > usize::MAX {
            None
        } else {
            Some((x.0 + y.0, x.1 + y.1))
        },
        _ => None,
    }
}

/// What settling an account that held `before` on the usage `u` leaves it holding: nothing
/// changes when there is no usage; a usage no larger than the charge is settled; a larger
/// one is kept only when the ledger grants it.
pub open spec fn spec_settled(before: ProblemMemoryUsage, after: ProblemMemoryUsage, u: Option<(int, int)>) -> bool {
    match u {
        None => after == before,
        Some(p) => {
            let n = spec_normalized(ProblemMemoryUsage { retained_bytes: p.0 as usize, charged_bytes: p.1 as usize });
            &&& n.charged_bytes <= before.charged_bytes ==> after == n
            &&& n.charged_bytes > before.charged_bytes ==> after == n || after == before
        },
    }
}

/// The usage of a table of `len` entries of `entry` bytes each.
pub open spec fn spec_table_usage(len: int, entry: int) -> Option<(int, int)> {
    if entry > usize::MAX {
        None
    } else {
        spec_aggregate_usage(len, entry, if len != 0 { 1int } else { 0int })
    }
}

pub fn hash_map_usage<K, V>(capacity: usize) -> (r: Result<ProblemMemoryUsage, ProblemMemoryBudgetError>)
    ensures
        spec_usage_is(r, spec_table_usage(capacity as int, (vstd::layout::size_of::<K>() + vstd::layout::size_of::<V>() + 16) as int)),
{
    let k = core::mem::size_of::<K>();
    let v = core::mem::size_of::<V>();
    let entry_bytes = match k.checked_add(v) {
        Some(b) => match b.checked_add(16) {
            Some(e) => e,
            None => return Err(ProblemMemoryBudgetError::SizeOverflow),
        },
        None => return Err(ProblemMemoryBudgetError::SizeOverflow),
    };
    let retained_bytes = match capacity.checked_mul(entry_bytes) {
        Some(b) => b,
        None => return Err(ProblemMemoryBudgetError::SizeOverflow),
    };
    conservative_usage(retained_bytes, if capacity != 0 { 1 } else { 0 })
}

pub fn btree_map_usage<K, V>(len: usize) -> (r: Result<ProblemMemoryUsage, ProblemMemoryBudgetError>)
    ensures
        spec_usage_is(r, spec_table_usage(len as int, (vstd::layout::size_of::<K>() + vstd::layout::size_of::<V>() + 4 * vstd::layout::size_of::<usize>()) as int)),
{
    let k = core::mem::size_of::<K>();
    let v = core::mem::size_of::<V>();
    let word = core::mem::size_of::<usize>();
    let links = match word.checked_mul(4) {
        Some(b) => b,
        None => return Err(ProblemMemoryBudgetError::SizeOverflow),
    };
    let entry_bytes = match k.checked_add(v) {
        Some(b) => match b.checked_add(links) {
            Some(e) => e,
            None => return Err(ProblemMemoryBudgetError::SizeOverflow),
        },
        None => return Err(ProblemMemoryBudgetError::SizeOverflow),
    };
    let retained_bytes = match len.checked_mul(entry_bytes) {
        Some(b) => b,
        None => return Err(ProblemMemoryBudgetError::SizeOverflow),
    };
    conservative_usage(retained_bytes, if len != 0 { 1 } else { 0 })
}

} // verus!
