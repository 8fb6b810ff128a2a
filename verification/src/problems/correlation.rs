use vstd::prelude::*;
use std::collections::VecDeque;
use vstd::std_specs::iter::IteratorSpec;
use crate::problems::budget::{
    btree_map_usage, vec_deque_usage, vec_usage, ProblemMemoryAccount, ProblemMemoryBudget, DEFAULT_PROBLEM_MEMORY_BUDGET_BYTES,
    ProblemMemoryBudgetError, ProblemMemoryUsage, spec_combined_usage, spec_settled, spec_aggregate_usage, spec_table_usage, spec_usage_is,
};

verus! {

pub const MAX_RECENT_OBSERVATIONS: usize = 16_384;

pub const MAX_RECENT_OBSERVATION_BYTES: usize = 256 * 1024;

pub const MAX_PROVISIONAL_OCCURRENCES: usize = 4_096;

pub const MAX_PROVISIONAL_BYTES: usize = 4 * 1024 * 1024;

/// Payloads retained by the correlation stores must be compact metadata. The
/// reported logical size must include every retained byte and must not change
/// while the payload is stored. Raw log text belongs in the source file, not in
/// a correlation payload.
pub trait CompactCorrelationPayload {
    /// The logical size the payload reports.
    spec fn spec_payload_bytes(&self) -> u32;

    fn logical_bytes(&self) -> (r: u32)
        ensures
            r == self.spec_payload_bytes(),
    ;
}

#[derive(Debug, Clone, Copy, PartialEq, Eq, Structural)]
pub struct CorrelationLimitsError;

#[derive(Debug, Clone, Copy, PartialEq, Eq, Structural)]
pub struct RecentObservationLimits {
    max_observations: usize,
    max_logical_bytes: usize,
}

impl RecentObservationLimits {
    pub closed spec fn spec_max_observations(self) -> usize {
        self.max_observations
    }

    pub closed spec fn spec_max_logical_bytes(self) -> usize {
        self.max_logical_bytes
    }

    /// Limits are positive.
    pub closed spec fn wf(self) -> bool {
        self.max_observations > 0 && self.max_logical_bytes > 0
    }

    pub fn new(max_observations: usize, max_logical_bytes: usize) -> (r: Result<Self, CorrelationLimitsError>)
        ensures
            (max_observations == 0 || max_logical_bytes == 0) <==> r is Err,
            r matches Ok(l) ==> l.spec_max_observations() == max_observations && l.spec_max_logical_bytes()
                == max_logical_bytes && l.wf(),
    {
        if max_observations == 0 || max_logical_bytes == 0 {
            return Err(CorrelationLimitsError);
        }
        Ok(RecentObservationLimits { max_observations, max_logical_bytes })
    }

    pub fn max_observations(self) -> (r: usize)
        ensures
            r == self.spec_max_observations(),
    {
        self.max_observations
    }

    pub fn max_logical_bytes(self) -> (r: usize)
        ensures
            r == self.spec_max_logical_bytes(),
    {
        self.max_logical_bytes
    }
}

impl Default for RecentObservationLimits {
    fn default() -> (r: Self)
        ensures
            r.spec_max_observations() == MAX_RECENT_OBSERVATIONS,
            r.spec_max_logical_bytes() == MAX_RECENT_OBSERVATION_BYTES,
            r.wf(),
    {
        RecentObservationLimits { max_observations: MAX_RECENT_OBSERVATIONS, max_logical_bytes: MAX_RECENT_OBSERVATION_BYTES }
    }
}

pub struct RecentObservation<P> {
    sequence: u64,
    expiry_line: u64,
    logical_bytes: u32,
    payload: P,
}

impl<P> RecentObservation<P> {
    pub closed spec fn spec_sequence(self) -> u64 {
        self.sequence
    }

    pub closed spec fn spec_expiry_line(self) -> u64 {
        self.expiry_line
    }

    pub closed spec fn spec_logical_bytes(self) -> u32 {
        self.logical_bytes
    }

    pub closed spec fn spec_payload(self) -> P {
        self.payload
    }

    pub fn sequence(&self) -> (r: u64)
        ensures
            r == self.spec_sequence(),
    {
        self.sequence
    }

    pub fn expiry_line(&self) -> (r: u64)
        ensures
            r == self.spec_expiry_line(),
    {
        self.expiry_line
    }

    pub fn logical_bytes(&self) -> (r: u32)
        ensures
            r == self.spec_logical_bytes(),
    {
        self.logical_bytes
    }

    pub fn payload(&self) -> (r: &P)
        ensures
            *r == self.spec_payload(),
    {
        &self.payload
    }

    pub fn payload_mut(&mut self) -> (r: &mut P)
        ensures
            *r == old(self).spec_payload(),
            final(self).spec_payload() == *final(r),
            final(self).spec_sequence() == old(self).spec_sequence(),
            final(self).spec_expiry_line() == old(self).spec_expiry_line(),
            final(self).spec_logical_bytes() == old(self).spec_logical_bytes(),
    {
        &mut self.payload
    }
}

#[derive(Debug, Clone, Copy, PartialEq, Eq, Structural)]
pub struct RecentObservationStats {
    pub retained_observation_count: usize,
    pub retained_logical_bytes: usize,
    pub dropped_recent_observation_count: u64,
    pub correlation_limited: bool,
}

#[derive(Debug, Clone, Copy, PartialEq, Eq, Structural)]
pub struct RecentInsertOutcome {
    pub sequence: u64,
    pub naturally_expired: usize,
    pub forcibly_evicted: usize,
    pub retained: bool,
}

#[derive(Debug, Clone, Copy, PartialEq, Eq, Structural)]
pub struct CorrelationSequenceExhausted;

/// The total logical bytes of stored observations.
pub open spec fn spec_obs_bytes<P>(s: Seq<RecentObservation<P>>) -> int
    decreases s.len(),
{
    if s.len() == 0 {
        0
    } else {
        s[0].spec_logical_bytes() + spec_obs_bytes(s.drop_first())
    }
}

pub proof fn lemma_obs_bytes_push<P>(s: Seq<RecentObservation<P>>, x: RecentObservation<P>)
    ensures
        spec_obs_bytes(s.push(x)) == spec_obs_bytes(s) + x.spec_logical_bytes(),
    decreases s.len(),
{
    reveal_with_fuel(spec_obs_bytes, 2);
    if s.len() > 0 {
        assert(s.push(x).drop_first() =~= s.drop_first().push(x));
        assert(s.push(x)[0] == s[0]);
        lemma_obs_bytes_push(s.drop_first(), x);
        assert(spec_obs_bytes(s.push(x)) == s[0].spec_logical_bytes() + spec_obs_bytes(s.drop_first().push(x)));
    } else {
        assert(s.push(x).drop_first() =~= Seq::<RecentObservation<P>>::empty());
        assert(s.push(x)[0] == x);
        assert(spec_obs_bytes(s.push(x).drop_first()) == 0);
    }
}

pub proof fn lemma_obs_bytes_update<P>(s: Seq<RecentObservation<P>>, i: int, x: RecentObservation<P>)
    requires
        0 <= i < s.len(),
        x.spec_logical_bytes() == s[i].spec_logical_bytes(),
    ensures
        spec_obs_bytes(s.update(i, x)) == spec_obs_bytes(s),
    decreases s.len(),
{
    if i > 0 {
        assert(s.update(i, x).drop_first() =~= s.drop_first().update(i - 1, x));
        lemma_obs_bytes_update(s.drop_first(), i - 1, x);
    } else {
        assert(s.update(i, x).drop_first() =~= s.drop_first());
    }
}

pub proof fn lemma_obs_bytes_nonneg<P>(s: Seq<RecentObservation<P>>)
    ensures
        spec_obs_bytes(s) >= 0,
        s.len() > 0 ==> spec_obs_bytes(s) >= s[0].spec_logical_bytes(),
    decreases s.len(),
{
    if s.len() > 0 {
        lemma_obs_bytes_nonneg(s.drop_first());
    }
}

/// The number of leading observations whose expiry line the watermark has passed.
pub open spec fn spec_expired_prefix<P>(s: Seq<RecentObservation<P>>, watermark: u64) -> int
    decreases s.len(),
{
    if s.len() > 0 && watermark > s[0].spec_expiry_line() {
        1 + spec_expired_prefix(s.drop_first(), watermark)
    } else {
        0
    }
}

pub proof fn lemma_expired_prefix_bounds<P>(s: Seq<RecentObservation<P>>, watermark: u64)
    ensures
        0 <= spec_expired_prefix(s, watermark) <= s.len(),
    decreases s.len(),
{
    if s.len() > 0 && watermark > s[0].spec_expiry_line() {
        lemma_expired_prefix_bounds(s.drop_first(), watermark);
    }
}

/// Whether a new observation of `bytes` fits once the first `k` stored ones are gone.
pub open spec fn spec_recent_fits<P>(s: Seq<RecentObservation<P>>, bytes: int, limits: RecentObservationLimits, k: int) -> bool {
    s.len() - k < limits.spec_max_observations() && bytes <= limits.spec_max_logical_bytes()
        - spec_obs_bytes(s.skip(k))
}

/// The fewest leading observations to evict so that a new one of `bytes` fits the count and
/// byte limits, if any number does.
#[verifier::opaque]
pub open spec fn spec_recent_first_fit<P>(s: Seq<RecentObservation<P>>, bytes: int, limits: RecentObservationLimits) -> Option<int> {
    if exists|k: int| 0 <= k <= s.len() && #[trigger] spec_recent_fits(s, bytes, limits, k) {
        Some(choose|k: int| 0 <= k <= s.len() && #[trigger] spec_recent_fits(s, bytes, limits, k) && forall|j: int| 0 <= j < k ==> !spec_recent_fits(s, bytes, limits, j))
    } else {
        None
    }
}

/// `VecDeque::capacity`, which std documents as at least the length; an allocation never
/// exceeds `isize::MAX` bytes.
#[verifier::external_body]
fn deque_capacity<T>(v: &VecDeque<T>) -> (r: usize)
    ensures
        r >= v@.len(),
        r * vstd::layout::size_of::<T>() <= isize::MAX,
{
    v.capacity()
}

/// `VecDeque::try_reserve_exact`: whether room for `additional` more elements could be
/// reserved; the elements are unchanged either way.
#[verifier::external_body]
fn deque_try_reserve_exact<T>(v: &mut VecDeque<T>, additional: usize) -> (r: bool)
    ensures
        final(v)@ == old(v)@,
{
    v.try_reserve_exact(additional).is_ok()
}

/// `VecDeque::get_mut` at an index inside the deque.
#[verifier::external_body]
fn deque_get_mut<T>(v: &mut VecDeque<T>, index: usize) -> (r: &mut T)
    requires
        index < old(v)@.len(),
    ensures
        *r == old(v)@[index as int],
        final(v)@ == old(v)@.update(index as int, *final(r)),
{
    v.get_mut(index).unwrap()
}

/// The smallest power of two at or above `n`, counting from `p`.
pub open spec fn spec_pow2_from(n: int, p: int) -> int
    decreases (if p < n { n - p } else { 0int }),
    when p >= 1
{
    if p >= n {
        p
    } else {
        spec_pow2_from(n, 2 * p)
    }
}

/// The capacity a deque of `len` elements and `capacity` slots grows to for `additional` more.
pub open spec fn spec_projected_capacity(len: usize, capacity: usize, additional: usize) -> usize {
    let required = if len + additional > usize::MAX { usize::MAX as int } else { len + additional };
    if required <= capacity {
        capacity
    } else if spec_pow2_from(required, 1) > usize::MAX {
        usize::MAX
    } else {
        spec_pow2_from(required, 1) as usize
    }
}

fn projected_deque_capacity(len: usize, capacity: usize, additional: usize) -> (r: usize)
    ensures
        r == spec_projected_capacity(len, capacity, additional),
{
    let required = len.saturating_add(additional);
    if required <= capacity {
        return capacity;
    }
    let mut p: usize = 1;
    while p < required
        invariant
            p >= 1,
            required > capacity,
            required == (if len + additional > usize::MAX { usize::MAX as int } else { len + additional }),
            spec_pow2_from(required as int, 1) == spec_pow2_from(required as int, p as int),
        decreases (if p < required { required - p } else { 0 }),
    {
        if p > usize::MAX / 2 {
            proof {
                lemma_pow2_from_at_least(required as int, 2 * p);
                assert(spec_pow2_from(required as int, p as int) == spec_pow2_from(required as int, 2 * p));
            }
            return usize::MAX;
        }
        proof {
            assert(spec_pow2_from(required as int, p as int) == spec_pow2_from(required as int, 2 * p));
        }
        p = p * 2;
    }
    p
}

proof fn lemma_pow2_from_at_least(n: int, p: int)
    requires
        p >= 1,
    ensures
        spec_pow2_from(n, p) >= p,
    decreases (if p < n { n - p } else { 0int }),
{
    if p < n {
        lemma_pow2_from_at_least(n, 2 * p);
    }
}

/// The memory a deque of observations with `capacity` slots and `logical_bytes` payload
/// bytes is charged for.
pub open spec fn spec_recent_usage<P>(capacity: usize, logical_bytes: int) -> Option<(int, int)> {
    spec_combined_usage(
        spec_aggregate_usage(capacity as int, vstd::layout::size_of::<RecentObservation<P>>() as int, if capacity != 0 { 1int } else { 0int }),
        spec_aggregate_usage(logical_bytes, vstd::layout::size_of::<u8>() as int, if logical_bytes != 0 { 1int } else { 0int }),
    )
}

fn recent_memory_usage<P>(capacity: usize, logical_bytes: usize) -> (r: Result<ProblemMemoryUsage, ProblemMemoryBudgetError>)
    ensures
        spec_usage_is(r, spec_recent_usage::<P>(capacity, logical_bytes as int)),
{
    let deque = match vec_deque_usage::<RecentObservation<P>>(capacity) {
        Ok(u) => u,
        Err(e) => return Err(e),
    };
    let bytes = match vec_usage::<u8>(logical_bytes) {
        Ok(u) => u,
        Err(e) => return Err(e),
    };
    deque.checked_add(bytes)
}

/// The memory estimate for one more observation of `b` logical bytes beside `s` overflows,
/// for some capacity that a deque holding `s` can have.
pub open spec fn spec_recent_estimate_overflows<P>(s: Seq<RecentObservation<P>>, b: int) -> bool {
    exists|capacity: usize| capacity >= s.len() && capacity * vstd::layout::size_of::<RecentObservation<P>>() <= isize::MAX
        && (#[trigger] spec_recent_usage::<P>(spec_projected_capacity(s.len() as usize, capacity, 1), spec_obs_bytes(s) + b)) is None
}

/// A memory budget of `limit` bytes that the store has to itself refuses one more
/// observation of `b` logical bytes beside `s`, for some capacity that a deque holding `s`
/// can have.
pub open spec fn spec_recent_memory_refused<P>(s: Seq<RecentObservation<P>>, b: int, limit: usize) -> bool {
    exists|capacity: usize| capacity >= s.len() && capacity * vstd::layout::size_of::<RecentObservation<P>>() <= isize::MAX
        && (match #[trigger] spec_recent_usage::<P>(spec_projected_capacity(s.len() as usize, capacity, 1), spec_obs_bytes(s) + b) {
            Some(u) => (if u.1 >= u.0 { u.1 } else { u.0 }) > limit,
            None => false,
        })
}

/// With a memory budget of its own, an insert that evicted `k` observations beyond those that
/// expired evicted more than the count and byte limits demand only while the budget refused
/// the new one.
pub open spec fn spec_recent_evictions_refused<P>(pre: Seq<RecentObservation<P>>, b: int, limits: RecentObservationLimits, k: int, limit: usize) -> bool {
    match spec_recent_first_fit(pre, b, limits) {
        Some(k1) => forall|j: int| k1 <= j < k ==> #[trigger] spec_recent_memory_refused(pre.skip(j), b, limit),
        None => true,
    }
}

pub struct RecentObservationStore<P> {
    limits: RecentObservationLimits,
    observations: VecDeque<RecentObservation<P>>,
    retained_logical_bytes: usize,
    next_sequence: u64,
    dropped_recent_observation_count: u64,
    correlation_limited: bool,
    memory: ProblemMemoryAccount,
}

/// `a + b`, stopping at `u64::MAX`.
pub open spec fn spec_sat_add(a: u64, b: int) -> u64 {
    if a + b > u64::MAX { u64::MAX } else { (a + b) as u64 }
}

impl<P> RecentObservationStore<P> {
    /// The store's bookkeeping agrees with what it holds, within its limits.
    pub closed spec fn wf(self) -> bool {
        &&& self.limits.wf()
        &&& self.retained_logical_bytes == spec_obs_bytes(self.observations@)
        &&& self.observations@.len() <= self.limits.spec_max_observations()
        &&& self.retained_logical_bytes <= self.limits.spec_max_logical_bytes()
    }

    pub closed spec fn spec_observations(self) -> Seq<RecentObservation<P>> {
        self.observations@
    }

    pub closed spec fn spec_limits(self) -> RecentObservationLimits {
        self.limits
    }

    pub closed spec fn spec_next_sequence(self) -> u64 {
        self.next_sequence
    }

    pub closed spec fn spec_dropped(self) -> u64 {
        self.dropped_recent_observation_count
    }

    pub closed spec fn spec_limited(self) -> bool {
        self.correlation_limited
    }

    /// The memory this store's account holds in the shared ledger.
    pub closed spec fn spec_memory_usage(self) -> ProblemMemoryUsage {
        self.memory.spec_usage()
    }

    /// Whether the store has its memory budget to itself.
    pub closed spec fn spec_memory_private(self) -> bool {
        self.memory.spec_private()
    }

    /// The limit of the store's memory budget.
    pub closed spec fn spec_memory_limit(self) -> usize {
        self.memory.spec_limit()
    }
}

/// `a` and `b` charge the same kind of budget, with the same limit.
pub open spec fn spec_recent_same_ledger<P>(a: RecentObservationStore<P>, b: RecentObservationStore<P>) -> bool {
    a.spec_memory_private() == b.spec_memory_private() && a.spec_memory_limit() == b.spec_memory_limit()
}

impl<P: CompactCorrelationPayload> RecentObservationStore<P> {
    pub fn new() -> (r: Self)
        ensures
            r.spec_observations().len() == 0,
            r.spec_limits().spec_max_observations() == MAX_RECENT_OBSERVATIONS,
            r.spec_limits().spec_max_logical_bytes() == MAX_RECENT_OBSERVATION_BYTES,
            r.spec_next_sequence() == 0,
            r.spec_dropped() == 0,
            !r.spec_limited(),
            r.wf(),
    {
        RecentObservationStore::with_limits(RecentObservationLimits::default())
    }

    pub fn with_limits(limits: RecentObservationLimits) -> (r: Self)
        requires
            limits.wf(),
        ensures
            r.spec_observations().len() == 0,
            r.spec_limits() == limits,
            r.spec_next_sequence() == 0,
            r.spec_dropped() == 0,
            !r.spec_limited(),
            r.wf(),
            r.spec_memory_private(),
            r.spec_memory_limit() == DEFAULT_PROBLEM_MEMORY_BUDGET_BYTES,
    {
        RecentObservationStore::with_limits_and_account(limits, ProblemMemoryAccount::private(DEFAULT_PROBLEM_MEMORY_BUDGET_BYTES))
    }

    /// A store whose memory is charged to `budget`'s shared ledger.
    pub fn with_limits_and_budget(limits: RecentObservationLimits, budget: ProblemMemoryBudget) -> (r: Self)
        requires
            limits.wf(),
        ensures
            r.spec_observations().len() == 0,
            r.spec_limits() == limits,
            r.spec_next_sequence() == 0,
            r.spec_dropped() == 0,
            !r.spec_limited(),
            r.wf(),
    {
        RecentObservationStore::with_limits_and_account(limits, budget.account())
    }

    fn with_limits_and_account(limits: RecentObservationLimits, memory: ProblemMemoryAccount) -> (r: Self)
        requires
            limits.wf(),
        ensures
            r.spec_memory_private() == memory.spec_private(),
            r.spec_memory_limit() == memory.spec_limit(),
            r.spec_observations().len() == 0,
            r.spec_limits() == limits,
            r.spec_next_sequence() == 0,
            r.spec_dropped() == 0,
            !r.spec_limited(),
            r.wf(),
    {
        let r = RecentObservationStore {
            limits,
            observations: VecDeque::new(),
            retained_logical_bytes: 0,
            next_sequence: 0,
            dropped_recent_observation_count: 0,
            correlation_limited: false,
            memory,
        };
        r
    }

    /// Drops every observation whose expiry line the watermark has passed, from the front.
    pub fn advance_watermark(&mut self, watermark: u64) -> (r: usize)
        requires
            old(self).wf(),
        ensures
            spec_recent_same_ledger(*old(self), *final(self)),
            final(self).wf(),
            r == spec_expired_prefix(old(self).spec_observations(), watermark),
            final(self).spec_observations() == old(self).spec_observations().skip(r as int),
            final(self).spec_limits() == old(self).spec_limits(),
            final(self).spec_next_sequence() == old(self).spec_next_sequence(),
            final(self).spec_dropped() == old(self).spec_dropped(),
            final(self).spec_limited() == old(self).spec_limited(),
    {
        let r = self.expire(watermark);
        self.settle_memory();
        r
    }

    fn expire(&mut self, watermark: u64) -> (r: usize)
        requires
            old(self).wf(),
        ensures
            spec_recent_same_ledger(*old(self), *final(self)),
            final(self).wf(),
            r == spec_expired_prefix(old(self).spec_observations(), watermark),
            final(self).spec_observations() == old(self).spec_observations().skip(r as int),
            final(self).spec_limits() == old(self).spec_limits(),
            final(self).spec_next_sequence() == old(self).spec_next_sequence(),
            final(self).spec_dropped() == old(self).spec_dropped(),
            final(self).spec_limited() == old(self).spec_limited(),
    {
        proof {
            lemma_expired_prefix_bounds(self.observations@, watermark);
        }
        let ghost s0 = self.observations@;
        let mut expired: usize = 0;
        while self.observations.len() > 0 && watermark > self.observations[0].expiry_line
            invariant
                self.wf(),
                spec_recent_same_ledger(*old(self), *self),
                0 <= expired <= s0.len(),
                expired + self.observations@.len() == s0.len(),
                s0.len() <= self.limits.spec_max_observations(),
                self.observations@ == s0.skip(expired as int),
                spec_expired_prefix(s0, watermark) == expired + spec_expired_prefix(self.observations@, watermark),
                self.limits == old(self).limits,
                self.next_sequence == old(self).next_sequence,
                self.dropped_recent_observation_count == old(self).dropped_recent_observation_count,
                self.correlation_limited == old(self).correlation_limited,
            decreases self.observations@.len(),
        {
            proof {
                lemma_obs_bytes_nonneg(self.observations@);
            }
            let mut observations = VecDeque::new();
            std::mem::swap(&mut observations, &mut self.observations);
            let retained = self.retained_logical_bytes;
            self.retained_logical_bytes = 0;
            let ghost before = observations@;
            let front = observations.pop_front();
            match front {
                Some(o) => {
                    proof {
                        assert(observations@ =~= before.drop_first());
                        assert(s0.skip(expired + 1) =~= s0.skip(expired as int).drop_first());
                    }
                    self.retained_logical_bytes = retained - o.logical_bytes as usize;
                    std::mem::swap(&mut observations, &mut self.observations);
                },
                None => {
                    std::mem::swap(&mut observations, &mut self.observations);
                    self.retained_logical_bytes = retained;
                },
            }
            expired = expired + 1;
        }
        expired
    }

    fn settle_memory(&mut self)
        requires
            old(self).wf(),
        ensures
            spec_recent_same_ledger(*old(self), *final(self)),
            final(self).wf(),
            final(self).spec_observations() == old(self).spec_observations(),
            final(self).spec_limits() == old(self).spec_limits(),
            final(self).spec_next_sequence() == old(self).spec_next_sequence(),
            final(self).spec_dropped() == old(self).spec_dropped(),
            final(self).spec_limited() == old(self).spec_limited(),
            exists|capacity: usize| capacity >= old(self).spec_observations().len() && spec_settled(
                old(self).spec_memory_usage(),
                final(self).spec_memory_usage(),
                #[trigger] spec_recent_usage::<P>(capacity, spec_obs_bytes(old(self).spec_observations())),
            ),
    {
        let capacity = deque_capacity(&self.observations);
        let ghost before = self.memory.spec_usage();
        let ghost expected = spec_recent_usage::<P>(capacity, spec_obs_bytes(self.observations@));
        let usage = match recent_memory_usage::<P>(capacity, self.retained_logical_bytes) {
            Ok(u) => u,
            Err(_) => {
                assert(spec_settled(before, self.memory.spec_usage(), expected));
                assert(capacity >= old(self).spec_observations().len() && spec_settled(old(self).spec_memory_usage(),
                    self.spec_memory_usage(), spec_recent_usage::<P>(capacity, spec_obs_bytes(old(self).spec_observations()))));
                return;
            },
        };
        if usage.charged_bytes <= self.memory.usage().charged_bytes {
            self.memory.settle_precharged(usage);
        } else {
            let _ = self.memory.try_set_usage(usage);
        }
        assert(spec_settled(before, self.memory.spec_usage(), expected));
        assert(capacity >= old(self).spec_observations().len() && spec_settled(old(self).spec_memory_usage(),
            self.spec_memory_usage(), spec_recent_usage::<P>(capacity, spec_obs_bytes(old(self).spec_observations()))));
    }

    pub fn len(&self) -> (r: usize)
        ensures
            r == self.spec_observations().len(),
    {
        self.observations.len()
    }

    pub fn is_empty(&self) -> (r: bool)
        ensures
            r == (self.spec_observations().len() == 0),
    {
        self.observations.len() == 0
    }

    pub fn next_expiry_line(&self) -> (r: Option<u64>)
        ensures
            self.spec_observations().len() == 0 ==> r is None,
            self.spec_observations().len() > 0 ==> r == Some(self.spec_observations()[0].spec_expiry_line()),
    {
        if self.observations.len() == 0 {
            None
        } else {
            Some(self.observations[0].expiry_line)
        }
    }

    pub fn stats(&self) -> (r: RecentObservationStats)
        requires
            self.wf(),
        ensures
            r.retained_observation_count == self.spec_observations().len(),
            r.retained_logical_bytes == spec_obs_bytes(self.spec_observations()),
            r.dropped_recent_observation_count == self.spec_dropped(),
            r.correlation_limited == self.spec_limited(),
            r.retained_observation_count <= self.spec_limits().spec_max_observations(),
            r.retained_logical_bytes <= self.spec_limits().spec_max_logical_bytes(),
    {
        RecentObservationStats {
            retained_observation_count: self.observations.len(),
            retained_logical_bytes: self.retained_logical_bytes,
            dropped_recent_observation_count: self.dropped_recent_observation_count,
            correlation_limited: self.correlation_limited,
        }
    }

    /// Releases observations after input finish while preserving session-level
    /// evidence-loss statistics for the query UI.
    pub fn finish(&mut self) -> (r: usize)
        requires
            old(self).wf(),
        ensures
            spec_recent_same_ledger(*old(self), *final(self)),
            final(self).wf(),
            r == old(self).spec_observations().len(),
            final(self).spec_observations().len() == 0,
            final(self).spec_limits() == old(self).spec_limits(),
            final(self).spec_next_sequence() == old(self).spec_next_sequence(),
            final(self).spec_dropped() == old(self).spec_dropped(),
            final(self).spec_limited() == old(self).spec_limited(),
    {
        let discarded = self.observations.len();
        let mut empty = VecDeque::new();
        std::mem::swap(&mut empty, &mut self.observations);
        self.retained_logical_bytes = 0;
        self.memory.release();
        discarded
    }

    pub fn reset(&mut self)
        requires
            old(self).wf(),
        ensures
            spec_recent_same_ledger(*old(self), *final(self)),
            final(self).wf(),
            final(self).spec_observations().len() == 0,
            final(self).spec_limits() == old(self).spec_limits(),
            final(self).spec_next_sequence() == 0,
            final(self).spec_dropped() == 0,
            !final(self).spec_limited(),
    {
        let mut empty = VecDeque::new();
        std::mem::swap(&mut empty, &mut self.observations);
        self.retained_logical_bytes = 0;
        self.next_sequence = 0;
        self.dropped_recent_observation_count = 0;
        self.correlation_limited = false;
        self.memory.release();
    }

    /// The stored observations, oldest first.
    /// The observation at `index`, oldest first.
    pub fn observation_at(&self, index: usize) -> (r: &RecentObservation<P>)
        requires
            index < self.spec_observations().len(),
        ensures
            *r == self.spec_observations()[index as int],
    {
        &self.observations[index]
    }

    pub fn iter(&self) -> (r: std::collections::vec_deque::Iter<'_, RecentObservation<P>>)
        ensures
            r.remaining() == self.spec_observations().map_values(|o: RecentObservation<P>| &o),
    {
        self.observations.iter()
    }

    /// The payload of the observation at `index`, for mutating compact claim metadata in
    /// place. The payload's reported logical size must remain unchanged while retained.
    pub fn payload_mut(&mut self, index: usize) -> (r: Option<&mut P>)
        requires
            old(self).wf(),
        ensures
            spec_recent_same_ledger(*old(self), *final(self)),
            final(self).wf(),
            index >= old(self).spec_observations().len() ==> r is None && final(self).spec_observations()
                == old(self).spec_observations(),
            index < old(self).spec_observations().len() ==> (r matches Some(p) && *p
                == old(self).spec_observations()[index as int].spec_payload()),
            final(self).spec_observations().len() == old(self).spec_observations().len(),
            final(self).spec_limits() == old(self).spec_limits(),
            final(self).spec_next_sequence() == old(self).spec_next_sequence(),
            final(self).spec_dropped() == old(self).spec_dropped(),
            final(self).spec_limited() == old(self).spec_limited(),
    {
        if index >= self.observations.len() {
            return None;
        }
        let ghost s0 = self.observations@;
        proof {
            assert forall|x: RecentObservation<P>| x.spec_logical_bytes() == s0[index as int].spec_logical_bytes()
                implies #[trigger] spec_obs_bytes(s0.update(index as int, x)) == spec_obs_bytes(s0) by {
                lemma_obs_bytes_update(s0, index as int, x);
            }
        }
        let o = deque_get_mut(&mut self.observations, index);
        Some(o.payload_mut())
    }
}

pub proof fn lemma_obs_bytes_skip<P>(s: Seq<RecentObservation<P>>, k: int)
    requires
        0 <= k < s.len(),
    ensures
        spec_obs_bytes(s.skip(k)) == s[k].spec_logical_bytes() + spec_obs_bytes(s.skip(k + 1)),
        spec_obs_bytes(s.skip(k + 1)) >= 0,
{
    assert(s.skip(k).drop_first() =~= s.skip(k + 1));
    assert(s.skip(k)[0] == s[k]);
    lemma_obs_bytes_nonneg(s.skip(k + 1));
}

/// A fit stays a fit when one more observation is evicted.
pub proof fn lemma_recent_fits_step<P>(s: Seq<RecentObservation<P>>, b: int, limits: RecentObservationLimits, k: int)
    requires
        0 <= k < s.len(),
        spec_recent_fits(s, b, limits, k),
    ensures
        spec_recent_fits(s, b, limits, k + 1),
{
    lemma_obs_bytes_skip(s, k);
}

/// The first fit is the `k` that fits with no fit before it.
pub proof fn lemma_recent_first_fit_is<P>(s: Seq<RecentObservation<P>>, b: int, limits: RecentObservationLimits, k: int)
    requires
        0 <= k <= s.len(),
        spec_recent_fits(s, b, limits, k),
        forall|j: int| 0 <= j < k ==> !spec_recent_fits(s, b, limits, j),
    ensures
        spec_recent_first_fit(s, b, limits) == Some(k),
{
    reveal(spec_recent_first_fit);
    let c = choose|c: int| 0 <= c <= s.len() && #[trigger] spec_recent_fits(s, b, limits, c) && forall|j: int| 0 <= j < c ==> !spec_recent_fits(s, b, limits, j);
    assert(c == k) by {
        if c < k {
        } else if c > k {
        }
    }
}

pub proof fn lemma_sat_add_compose(d: u64, a: int, b: int)
    requires
        a >= 0,
        b >= 0,
    ensures
        spec_sat_add(spec_sat_add(d, a), b) == spec_sat_add(d, a + b),
{
}

/// `a + b`, stopping at `usize::MAX`.
pub open spec fn spec_sat_usize(a: int, b: int) -> int {
    if a + b > usize::MAX { usize::MAX as int } else { a + b }
}

/// What an insert that returned `out` did, with `b` the logical size the payload reported
/// and `k` the number of stored observations evicted: the leading observations that expired
/// went first, then the oldest ones as limits and memory required, never fewer than the
/// count and byte limits demand.
pub open spec fn spec_recent_insert<P>(
    old_obs: Seq<RecentObservation<P>>,
    new_obs: Seq<RecentObservation<P>>,
    limits: RecentObservationLimits,
    watermark: u64,
    expiry_line: u64,
    payload: P,
    b: u32,
    k: int,
    out: RecentInsertOutcome,
    old_dropped: u64,
    new_dropped: u64,
) -> bool {
    let pre = old_obs.skip(out.naturally_expired as int);
    &&& out.naturally_expired == spec_expired_prefix(old_obs, watermark)
    &&& new_dropped == spec_sat_add(old_dropped, k + if out.retained { 0int } else { 1int })
    &&& out.forcibly_evicted == spec_sat_usize(k, if out.retained { 0int } else { 1int })
    &&& 0 <= k <= pre.len()
    &&& (match spec_recent_first_fit(pre, b as int, limits) {
        Some(k1) => k1 <= k,
        None => !out.retained && k == pre.len(),
    })
    &&& if out.retained {
        &&& new_obs.len() == pre.len() - k + 1
        &&& new_obs.drop_last() == pre.skip(k)
        &&& new_obs.last().spec_sequence() == out.sequence
        &&& new_obs.last().spec_expiry_line() == expiry_line
        &&& new_obs.last().spec_logical_bytes() == b
        &&& new_obs.last().spec_payload() == payload
    } else {
        new_obs == pre.skip(k)
    }
}

/// An insert that returned `out` took the next sequence number and did what
/// `spec_recent_insert` describes for the payload's reported size, for some eviction count.
pub open spec fn spec_recent_inserted<P: CompactCorrelationPayload>(
    o: RecentObservationStore<P>,
    n: RecentObservationStore<P>,
    watermark: u64,
    expiry_line: u64,
    payload: P,
    out: RecentInsertOutcome,
) -> bool {
    &&& o.spec_next_sequence() < u64::MAX
    &&& out.sequence == o.spec_next_sequence()
    &&& n.spec_next_sequence() == o.spec_next_sequence() + 1
    &&& n.spec_limited() == (o.spec_limited() || out.forcibly_evicted > 0)
    &&& exists|k: int| #[trigger] spec_recent_insert(o.spec_observations(), n.spec_observations(), o.spec_limits(), watermark, expiry_line, payload, payload.spec_payload_bytes(), k, out, o.spec_dropped(), n.spec_dropped())
        && (o.spec_memory_private() ==> spec_recent_evictions_refused(o.spec_observations().skip(out.naturally_expired as int),
        payload.spec_payload_bytes() as int, o.spec_limits(), k, o.spec_memory_limit()))
}

impl<P: CompactCorrelationPayload> RecentObservationStore<P> {
    /// Evicts the oldest observation; `None` when there is none.
    fn evict_oldest(&mut self) -> (r: bool)
        requires
            old(self).wf(),
        ensures
            spec_recent_same_ledger(*old(self), *final(self)),
            final(self).wf(),
            r == (old(self).spec_observations().len() > 0),
            final(self).spec_observations() == (if r { old(self).spec_observations().drop_first() } else { old(self).spec_observations() }),
            final(self).spec_limits() == old(self).spec_limits(),
            final(self).spec_next_sequence() == old(self).spec_next_sequence(),
            final(self).spec_dropped() == spec_sat_add(old(self).spec_dropped(), 1),
            final(self).spec_limited(),
    {
        proof {
            lemma_obs_bytes_nonneg(self.observations@);
        }
        let ghost s0 = self.observations@;
        let front = self.observations.pop_front();
        self.dropped_recent_observation_count = self.dropped_recent_observation_count.saturating_add(1);
        self.correlation_limited = true;
        match front {
            Some(e) => {
                proof {
                    assert(self.observations@ =~= s0.drop_first());
                }
                self.retained_logical_bytes = self.retained_logical_bytes - e.logical_bytes as usize;
                true
            },
            None => false,
        }
    }

    /// Evicts the oldest observations until one of `b` logical bytes fits the count and
    /// byte limits; `false` when even an empty store has no room for it.
    fn evict_to_fit(&mut self, b: u32) -> (r: (usize, bool))
        requires
            old(self).wf(),
        ensures
            spec_recent_same_ledger(*old(self), *final(self)),
            final(self).wf(),
            final(self).spec_limits() == old(self).spec_limits(),
            final(self).spec_next_sequence() == old(self).spec_next_sequence(),
            r.0 <= old(self).spec_observations().len(),
            final(self).spec_observations() == old(self).spec_observations().skip(r.0 as int),
            r.1 ==> spec_recent_first_fit(old(self).spec_observations(), b as int, old(self).spec_limits()) == Some(r.0 as int),
            r.1 ==> spec_recent_fits(old(self).spec_observations(), b as int, old(self).spec_limits(), r.0 as int),
            !r.1 ==> spec_recent_first_fit(old(self).spec_observations(), b as int, old(self).spec_limits()) is None
                && r.0 == old(self).spec_observations().len(),
            final(self).spec_dropped() == spec_sat_add(old(self).spec_dropped(), r.0 as int + (if r.1 { 0int } else { 1int })),
            final(self).spec_limited() == (old(self).spec_limited() || r.0 > 0 || !r.1),
    {
        let ghost pre = self.observations@;
        let ghost limits = self.limits;
        let ghost d0 = self.dropped_recent_observation_count;
        let ghost l0 = self.correlation_limited;
        let ghost n0 = self.next_sequence;
        let mut k: usize = 0;
        while self.observations.len() >= self.limits.max_observations
            || b as usize > self.limits.max_logical_bytes - self.retained_logical_bytes
            invariant
                self.wf(),
                spec_recent_same_ledger(*old(self), *self),
                self.limits == limits,
                limits == old(self).limits,
                n0 == old(self).next_sequence,
                pre == old(self).observations@,
                d0 == old(self).dropped_recent_observation_count,
                l0 == old(self).correlation_limited,
                self.next_sequence == n0,
                0 <= k <= pre.len(),
                pre.len() <= limits.spec_max_observations(),
                self.observations@ == pre.skip(k as int),
                forall|j: int| 0 <= j < k ==> !spec_recent_fits(pre, b as int, limits, j),
                self.dropped_recent_observation_count == spec_sat_add(d0, k as int),
                self.correlation_limited == (l0 || k > 0),
            decreases self.observations@.len(),
        {
            assert(!spec_recent_fits(pre, b as int, limits, k as int));
            if !self.evict_oldest() {
                proof {
                    assert forall|j: int| 0 <= j <= pre.len() implies !#[trigger] spec_recent_fits(pre, b as int, limits, j) by {
                        if j == k {
                        }
                    }
                    reveal(spec_recent_first_fit);
                }
                return (k, false);
            }
            proof {
                assert(pre.skip(k + 1) =~= pre.skip(k as int).drop_first());
            }
            k = k + 1;
        }
        proof {
            lemma_recent_first_fit_is(pre, b as int, limits, k as int);
        }
        (k, true)
    }

    /// Asks the ledger for room for one more observation of `b` logical bytes, evicting the
    /// oldest ones while it refuses; `false` when it refuses even an empty store.
    fn reserve_memory(&mut self, b: u32) -> (r: Result<(usize, bool), CorrelationSequenceExhausted>)
        requires
            old(self).wf(),
            spec_recent_fits(old(self).spec_observations(), b as int, old(self).spec_limits(), 0),
        ensures
            spec_recent_same_ledger(*old(self), *final(self)),
            final(self).wf(),
            final(self).spec_limits() == old(self).spec_limits(),
            final(self).spec_next_sequence() == old(self).spec_next_sequence(),
            match r {
                Ok((k, room)) => {
                    &&& old(self).spec_memory_private() ==> forall|j: int| 0 <= j < k ==> #[trigger] spec_recent_memory_refused(
                        old(self).spec_observations().skip(j), b as int, old(self).spec_memory_limit())
                    &&& k <= old(self).spec_observations().len()
                    &&& final(self).spec_observations() == old(self).spec_observations().skip(k as int)
                    &&& room ==> spec_recent_fits(old(self).spec_observations(), b as int, old(self).spec_limits(), k as int)
                    &&& !room ==> k == old(self).spec_observations().len()
                    &&& final(self).spec_dropped() == spec_sat_add(old(self).spec_dropped(), k as int + (if room { 0int } else { 1int }))
                    &&& final(self).spec_limited() == (old(self).spec_limited() || k > 0 || !room)
                },
                Err(_) => {
                    &&& exists|k: int| 0 <= k <= old(self).spec_observations().len() && final(self).spec_observations()
                        == old(self).spec_observations().skip(k)
                    &&& spec_recent_estimate_overflows(final(self).spec_observations(), b as int)
                },
            },
    {
        let ghost pre = self.observations@;
        let ghost limits = self.limits;
        let ghost d0 = self.dropped_recent_observation_count;
        let ghost l0 = self.correlation_limited;
        let ghost n0 = self.next_sequence;
        let mut k: usize = 0;
        proof {
            assert(pre.skip(0) =~= pre);
        }
        loop
            invariant
                self.wf(),
                spec_recent_same_ledger(*old(self), *self),
                self.limits == limits,
                limits == old(self).limits,
                n0 == old(self).next_sequence,
                pre == old(self).observations@,
                d0 == old(self).dropped_recent_observation_count,
                l0 == old(self).correlation_limited,
                self.next_sequence == n0,
                0 <= k <= pre.len(),
                pre.len() <= limits.spec_max_observations(),
                self.observations@ == pre.skip(k as int),
                spec_recent_fits(pre, b as int, limits, k as int),
                self.dropped_recent_observation_count == spec_sat_add(d0, k as int),
                self.correlation_limited == (l0 || k > 0),
                old(self).spec_memory_private() ==> forall|jj: int| 0 <= jj < k ==> #[trigger] spec_recent_memory_refused(
                    pre.skip(jj), b as int, old(self).spec_memory_limit()),
            decreases self.observations@.len(),
        {
            let capacity = deque_capacity(&self.observations);
            let projected_capacity = projected_deque_capacity(self.observations.len(), capacity, 1);
            let projected_logical = match self.retained_logical_bytes.checked_add(b as usize) {
                Some(v) => v,
                None => {
                    proof {
                        assert(self.retained_logical_bytes + b <= limits.spec_max_logical_bytes());
                    }
                    return Err(CorrelationSequenceExhausted);
                },
            };
            let projection = match recent_memory_usage::<P>(projected_capacity, projected_logical) {
                Ok(u) => u,
                Err(_) => {
                    assert(0 <= k <= pre.len() && self.spec_observations() == old(self).spec_observations().skip(k as int));
                    assert(spec_recent_usage::<P>(projected_capacity, projected_logical as int) is None);
                    assert(projected_logical as int == spec_obs_bytes(self.spec_observations()) + b);
                    assert(capacity >= self.spec_observations().len() && capacity * vstd::layout::size_of::<RecentObservation<P>>() <= isize::MAX
                        && spec_recent_usage::<P>(
                        spec_projected_capacity(self.spec_observations().len() as usize, capacity, 1),
                        spec_obs_bytes(self.spec_observations()) + b,
                    ) is None);
                    assert(spec_recent_estimate_overflows(self.spec_observations(), b as int));
                    return Err(CorrelationSequenceExhausted);
                },
            };
            if self.memory.try_set_usage(projection).is_ok() {
                return Ok((k, true));
            }
            proof {
                if old(self).spec_memory_private() {
                    assert(capacity >= self.spec_observations().len() && capacity * vstd::layout::size_of::<RecentObservation<P>>() <= isize::MAX);
                    assert(projected_logical as int == spec_obs_bytes(self.spec_observations()) + b);
                    assert(spec_recent_memory_refused(pre.skip(k as int), b as int, old(self).spec_memory_limit()));
                }
            }
            if !self.evict_oldest() {
                self.settle_memory();
                return Ok((k, false));
            }
            proof {
                assert(pre.skip(k + 1) =~= pre.skip(k as int).drop_first());
                lemma_recent_fits_step(pre, b as int, limits, k as int);
            }
            k = k + 1;
            self.settle_memory();
        }
    }

    #[verifier::rlimit(60)]
    #[verifier::spinoff_prover]
    pub fn insert(&mut self, watermark: u64, expiry_line: u64, payload: P) -> (r: Result<RecentInsertOutcome, CorrelationSequenceExhausted>)
        requires
            old(self).wf(),
        ensures
            spec_recent_same_ledger(*old(self), *final(self)),
            final(self).wf(),
            final(self).spec_limits() == old(self).spec_limits(),
            match r {
                Ok(out) => spec_recent_inserted(*old(self), *final(self), watermark, expiry_line, payload, out),
                Err(_) => {
                    &&& old(self).spec_next_sequence() == u64::MAX ==> final(self).spec_observations() == old(self).spec_observations().skip(spec_expired_prefix(old(self).spec_observations(), watermark))
                        && final(self).spec_next_sequence() == old(self).spec_next_sequence()
                    &&& old(self).spec_next_sequence() < u64::MAX ==> {
                        &&& final(self).spec_next_sequence() == old(self).spec_next_sequence() + 1
                        &&& exists|k: int| 0 <= k <= old(self).spec_observations().len() && final(self).spec_observations() == old(self).spec_observations().skip(k)
                        &&& spec_recent_estimate_overflows(final(self).spec_observations(), payload.spec_payload_bytes() as int)
                    }
                },
            },
    {
        let ghost o = *self;
        let naturally_expired = self.advance_watermark(watermark);
        let ghost pre = self.observations@;
        let ghost d0 = self.dropped_recent_observation_count;
        let sequence = self.next_sequence;
        if sequence == u64::MAX {
            return Err(CorrelationSequenceExhausted);
        }
        self.next_sequence = sequence + 1;
        let logical_bytes = payload.logical_bytes();
        let (k1, fits) = self.evict_to_fit(logical_bytes);
        if !fits {
            let out = RecentInsertOutcome { sequence, naturally_expired, forcibly_evicted: k1.saturating_add(1), retained: false };
            proof {
                assert(spec_recent_insert(o.spec_observations(), self.spec_observations(), o.spec_limits(), watermark, expiry_line, payload, logical_bytes, k1 as int, out, o.spec_dropped(), self.spec_dropped()));
                assert(spec_recent_inserted(o, *self, watermark, expiry_line, payload, out));
            }
            return Ok(out);
        }
        let ghost mid = self.observations@;
        proof {
            assert(mid.skip(0) =~= mid);
            assert(spec_recent_fits(mid, logical_bytes as int, o.limits, 0));
        }
        let (k2, room) = match self.reserve_memory(logical_bytes) {
            Ok(v) => v,
            Err(e) => {
                proof {
                    let k3 = choose|k: int| 0 <= k <= mid.len() && self.spec_observations() == mid.skip(k);
                    let e0 = naturally_expired as int;
                    lemma_expired_prefix_bounds(o.spec_observations(), watermark);
                    assert(pre == o.spec_observations().skip(e0));
                    assert(mid == pre.skip(k1 as int));
                    assert(0 <= k3 <= mid.len());
                    assert(o.spec_observations().skip(e0).skip(k1 as int).skip(k3) =~= o.spec_observations().skip(e0 + k1 + k3));
                    assert(0 <= e0 + k1 + k3 <= o.spec_observations().len());
                }
                return Err(e);
            },
        };
        proof {
            if o.spec_memory_private() {
                assert forall|j: int| k1 <= j < k1 + k2 implies #[trigger] spec_recent_memory_refused(pre.skip(j),
                    logical_bytes as int, o.spec_memory_limit()) by {
                    assert(pre.skip(j) =~= mid.skip(j - k1));
                    assert(spec_recent_memory_refused(mid.skip(j - k1), logical_bytes as int, o.spec_memory_limit()));
                }
                assert(spec_recent_evictions_refused(pre, logical_bytes as int, o.spec_limits(), k1 + k2, o.spec_memory_limit()));
            }
            assert(pre.skip(k1 as int).skip(k2 as int) =~= pre.skip(k1 + k2));
            lemma_sat_add_compose(o.dropped_recent_observation_count, k1 as int, k2 as int + if room { 0int } else { 1int });
        }
        if !room {
            let out = RecentInsertOutcome { sequence, naturally_expired, forcibly_evicted: (k1 + k2).saturating_add(1), retained: false };
            proof {
                assert(spec_recent_insert(o.spec_observations(), self.spec_observations(), o.spec_limits(), watermark, expiry_line, payload, logical_bytes, k1 + k2, out, o.spec_dropped(), self.spec_dropped()));
                assert(spec_recent_inserted(o, *self, watermark, expiry_line, payload, out));
            }
            return Ok(out);
        }
        if !deque_try_reserve_exact(&mut self.observations, 1) {
            self.dropped_recent_observation_count = self.dropped_recent_observation_count.saturating_add(1);
            self.correlation_limited = true;
            self.settle_memory();
            let out = RecentInsertOutcome { sequence, naturally_expired, forcibly_evicted: (k1 + k2).saturating_add(1), retained: false };
            proof {
                assert(spec_recent_insert(o.spec_observations(), self.spec_observations(), o.spec_limits(), watermark, expiry_line, payload, logical_bytes, k1 + k2, out, o.spec_dropped(), self.spec_dropped()));
                assert(spec_recent_inserted(o, *self, watermark, expiry_line, payload, out));
            }
            return Ok(out);
        }
        let ghost before = self.observations@;
        let observation = RecentObservation { sequence, expiry_line, logical_bytes, payload };
        proof {
            lemma_obs_bytes_push(before, observation);
            assert(before =~= mid.skip(k2 as int));
        }
        self.retained_logical_bytes = self.retained_logical_bytes + logical_bytes as usize;
        self.observations.push_back(observation);
        self.settle_memory();
        let out = RecentInsertOutcome { sequence, naturally_expired, forcibly_evicted: k1 + k2, retained: true };
        proof {
            assert(self.observations@.drop_last() =~= before);
            assert(spec_recent_insert(o.spec_observations(), self.spec_observations(), o.spec_limits(), watermark, expiry_line, payload, logical_bytes, k1 + k2, out, o.spec_dropped(), self.spec_dropped()));
                assert(spec_recent_inserted(o, *self, watermark, expiry_line, payload, out));
        }
        Ok(out)
    }
}

#[derive(Debug, Clone, Copy, PartialEq, Eq, Structural)]
pub struct ProvisionalLimits {
    max_occurrences: usize,
    max_logical_bytes: usize,
}

impl ProvisionalLimits {
    pub closed spec fn spec_max_occurrences(self) -> usize {
        self.max_occurrences
    }

    pub closed spec fn spec_max_logical_bytes(self) -> usize {
        self.max_logical_bytes
    }

    /// Limits are positive.
    pub closed spec fn wf(self) -> bool {
        self.max_occurrences > 0 && self.max_logical_bytes > 0
    }

    pub fn new(max_occurrences: usize, max_logical_bytes: usize) -> (r: Result<Self, CorrelationLimitsError>)
        ensures
            (max_occurrences == 0 || max_logical_bytes == 0) <==> r is Err,
            r matches Ok(l) ==> l.spec_max_occurrences() == max_occurrences && l.spec_max_logical_bytes()
                == max_logical_bytes && l.wf(),
    {
        if max_occurrences == 0 || max_logical_bytes == 0 {
            return Err(CorrelationLimitsError);
        }
        Ok(ProvisionalLimits { max_occurrences, max_logical_bytes })
    }

    pub fn max_occurrences(self) -> (r: usize)
        ensures
            r == self.spec_max_occurrences(),
    {
        self.max_occurrences
    }

    pub fn max_logical_bytes(self) -> (r: usize)
        ensures
            r == self.spec_max_logical_bytes(),
    {
        self.max_logical_bytes
    }
}

impl Default for ProvisionalLimits {
    fn default() -> (r: Self)
        ensures
            r.spec_max_occurrences() == MAX_PROVISIONAL_OCCURRENCES,
            r.spec_max_logical_bytes() == MAX_PROVISIONAL_BYTES,
            r.wf(),
    {
        ProvisionalLimits { max_occurrences: MAX_PROVISIONAL_OCCURRENCES, max_logical_bytes: MAX_PROVISIONAL_BYTES }
    }
}

pub struct ProvisionalEntry<P> {
    sequence: u64,
    finalize_after_line: u64,
    logical_bytes: u32,
    payload: P,
}

impl<P> ProvisionalEntry<P> {
    pub closed spec fn spec_sequence(self) -> u64 {
        self.sequence
    }

    pub closed spec fn spec_finalize_after_line(self) -> u64 {
        self.finalize_after_line
    }

    pub closed spec fn spec_logical_bytes(self) -> u32 {
        self.logical_bytes
    }

    pub closed spec fn spec_payload(self) -> P {
        self.payload
    }

    pub fn sequence(&self) -> (r: u64)
        ensures
            r == self.spec_sequence(),
    {
        self.sequence
    }

    pub fn finalize_after_line(&self) -> (r: u64)
        ensures
            r == self.spec_finalize_after_line(),
    {
        self.finalize_after_line
    }

    pub fn logical_bytes(&self) -> (r: u32)
        ensures
            r == self.spec_logical_bytes(),
    {
        self.logical_bytes
    }

    pub fn payload(&self) -> (r: &P)
        ensures
            *r == self.spec_payload(),
    {
        &self.payload
    }

    pub fn payload_mut(&mut self) -> (r: &mut P)
        ensures
            *r == old(self).spec_payload(),
            final(self).spec_payload() == *final(r),
            final(self).spec_sequence() == old(self).spec_sequence(),
            final(self).spec_finalize_after_line() == old(self).spec_finalize_after_line(),
            final(self).spec_logical_bytes() == old(self).spec_logical_bytes(),
    {
        &mut self.payload
    }

    pub fn into_payload(self) -> (r: P)
        ensures
            r == self.spec_payload(),
    {
        self.payload
    }
}

#[derive(Debug, Clone, Copy, PartialEq, Eq, Structural)]
pub enum ProvisionalFinalizeReason {
    Watermark,
    Capacity,
    Finish,
}

pub struct FinalizedProvisional<P> {
    pub entry: ProvisionalEntry<P>,
    pub reason: ProvisionalFinalizeReason,
}

pub struct ProvisionalInsertOutcome<P> {
    pub sequence: u64,
    pub finalized: Vec<FinalizedProvisional<P>>,
}

#[derive(Debug, Clone, Copy, PartialEq, Eq, Structural)]
pub struct ProvisionalStats {
    pub provisional_occurrence_count: usize,
    pub retained_logical_bytes: usize,
    pub capacity_finalized_count: u64,
}

/// The store key of an entry: its deadline, then its sequence.
pub open spec fn spec_entry_key<P>(e: ProvisionalEntry<P>) -> (u64, u64) {
    (e.spec_finalize_after_line(), e.spec_sequence())
}

/// `a` sorts before `b`.
pub open spec fn spec_key_lt(a: (u64, u64), b: (u64, u64)) -> bool {
    a.0 < b.0 || (a.0 == b.0 && a.1 < b.1)
}

/// Entries in strictly increasing key order.
pub open spec fn spec_entries_sorted<P>(s: Seq<ProvisionalEntry<P>>) -> bool {
    forall|i: int, j: int| 0 <= i < j < s.len() ==> spec_key_lt(spec_entry_key(#[trigger] s[i]), spec_entry_key(#[trigger] s[j]))
}

/// The total logical bytes of stored entries.
pub open spec fn spec_entry_bytes<P>(s: Seq<ProvisionalEntry<P>>) -> int
    decreases s.len(),
{
    if s.len() == 0 {
        0
    } else {
        s[0].spec_logical_bytes() + spec_entry_bytes(s.drop_first())
    }
}

pub proof fn lemma_entry_bytes_nonneg<P>(s: Seq<ProvisionalEntry<P>>)
    ensures
        spec_entry_bytes(s) >= 0,
        s.len() > 0 ==> spec_entry_bytes(s) >= s[0].spec_logical_bytes(),
    decreases s.len(),
{
    if s.len() > 0 {
        lemma_entry_bytes_nonneg(s.drop_first());
    }
}

pub proof fn lemma_entry_bytes_insert<P>(s: Seq<ProvisionalEntry<P>>, i: int, x: ProvisionalEntry<P>)
    requires
        0 <= i <= s.len(),
    ensures
        spec_entry_bytes(s.insert(i, x)) == spec_entry_bytes(s) + x.spec_logical_bytes(),
    decreases s.len(),
{
    reveal_with_fuel(spec_entry_bytes, 2);
    if i == 0 {
        assert(s.insert(0, x).drop_first() =~= s);
    } else {
        assert(s.insert(i, x).drop_first() =~= s.drop_first().insert(i - 1, x));
        assert(s.insert(i, x)[0] == s[0]);
        lemma_entry_bytes_insert(s.drop_first(), i - 1, x);
    }
}

pub proof fn lemma_entry_bytes_remove<P>(s: Seq<ProvisionalEntry<P>>, i: int)
    requires
        0 <= i < s.len(),
    ensures
        spec_entry_bytes(s.remove(i)) == spec_entry_bytes(s) - s[i].spec_logical_bytes(),
    decreases s.len(),
{
    lemma_entry_bytes_insert(s.remove(i), i, s[i]);
    assert(s.remove(i).insert(i, s[i]) =~= s);
}

pub proof fn lemma_entry_bytes_update<P>(s: Seq<ProvisionalEntry<P>>, i: int, x: ProvisionalEntry<P>)
    requires
        0 <= i < s.len(),
        x.spec_logical_bytes() == s[i].spec_logical_bytes(),
    ensures
        spec_entry_bytes(s.update(i, x)) == spec_entry_bytes(s),
{
    lemma_entry_bytes_remove(s, i);
    lemma_entry_bytes_remove(s.update(i, x), i);
    assert(s.update(i, x).remove(i) =~= s.remove(i));
}

/// The entries of finalized records, in order.
pub open spec fn spec_finalized_entries<P>(f: Seq<FinalizedProvisional<P>>) -> Seq<ProvisionalEntry<P>> {
    f.map_values(|x: FinalizedProvisional<P>| x.entry)
}

/// Every record was finalized for `reason`.
pub open spec fn spec_all_for<P>(f: Seq<FinalizedProvisional<P>>, reason: ProvisionalFinalizeReason) -> bool {
    forall|i: int| 0 <= i < f.len() ==> (#[trigger] f[i]).reason == reason
}

/// The memory a table of `len` provisional entries with `logical_bytes` payload bytes is
/// charged for.
pub open spec fn spec_provisional_usage<P>(len: usize, logical_bytes: int) -> Option<(int, int)> {
    spec_combined_usage(
        spec_table_usage(len as int, (vstd::layout::size_of::<(u64, u64)>() + vstd::layout::size_of::<ProvisionalEntry<P>>()
            + 4 * vstd::layout::size_of::<usize>()) as int),
        spec_aggregate_usage(logical_bytes, vstd::layout::size_of::<u8>() as int, if logical_bytes != 0 { 1int } else { 0int }),
    )
}

fn provisional_memory_usage<P>(len: usize, logical_bytes: usize) -> (r: Result<ProblemMemoryUsage, ProblemMemoryBudgetError>)
    ensures
        spec_usage_is(r, spec_provisional_usage::<P>(len, logical_bytes as int)),
{
    let table = match btree_map_usage::<(u64, u64), ProvisionalEntry<P>>(len) {
        Ok(u) => u,
        Err(e) => return Err(e),
    };
    let bytes = match vec_usage::<u8>(logical_bytes) {
        Ok(u) => u,
        Err(e) => return Err(e),
    };
    table.checked_add(bytes)
}

/// `e` is the entry an insert built: its sequence, deadline, reported size and payload.
pub open spec fn spec_is_entry<P>(e: ProvisionalEntry<P>, sequence: u64, finalize_after_line: u64, b: u32, payload: P) -> bool {
    &&& e.spec_sequence() == sequence
    &&& e.spec_finalize_after_line() == finalize_after_line
    &&& e.spec_logical_bytes() == b
    &&& e.spec_payload() == payload
}

/// One more entry of `b` logical bytes fits beside `s` within the count and byte limits.
pub open spec fn spec_provisional_fits<P>(s: Seq<ProvisionalEntry<P>>, b: int, limits: ProvisionalLimits) -> bool {
    &&& s.len() < limits.spec_max_occurrences()
    &&& b <= limits.spec_max_logical_bytes() - spec_entry_bytes(s)
}

/// What an insert of a payload of `b` logical bytes due after `finalize_after_line` did, with
/// `k` the number of stored entries it finalized for capacity: those were the earliest ones,
/// each due no later than the new one; the new entry was kept where there was then room for
/// it, and otherwise finalized itself, only once no earlier entry was left to give way.
pub open spec fn spec_provisional_insert<P>(
    old_entries: Seq<ProvisionalEntry<P>>,
    new_entries: Seq<ProvisionalEntry<P>>,
    limits: ProvisionalLimits,
    sequence: u64,
    finalize_after_line: u64,
    payload: P,
    b: u32,
    k: int,
    finalized: Seq<FinalizedProvisional<P>>,
    old_count: u64,
    new_count: u64,
) -> bool {
    let retained = finalized.len() == k;
    let rest = old_entries.skip(k);
    &&& 0 <= k <= old_entries.len()
    &&& forall|i: int| 0 <= i < k ==> (#[trigger] old_entries[i]).spec_finalize_after_line() <= finalize_after_line
    &&& finalized.len() == k || finalized.len() == k + 1
    &&& spec_finalized_entries(finalized).take(k) == old_entries.take(k)
    &&& spec_all_for(finalized, ProvisionalFinalizeReason::Capacity)
    &&& new_count == spec_sat_add(old_count, finalized.len() as int)
    &&& if retained {
        &&& spec_provisional_fits(rest, b as int, limits)
        &&& new_entries.len() == rest.len() + 1
        &&& exists|i: int| 0 <= i <= rest.len() && #[trigger] new_entries.remove(i) == rest
            && spec_is_entry(new_entries[i], sequence, finalize_after_line, b, payload)
    } else {
        &&& k == old_entries.len() || old_entries[k].spec_finalize_after_line() > finalize_after_line
        &&& spec_is_entry(finalized[k].entry, sequence, finalize_after_line, b, payload)
        &&& new_entries == rest
    }
}

/// One more entry of `b` logical bytes fits beside `s` within the count and byte limits and
/// within a memory budget of `limit` bytes that the store has to itself.
pub open spec fn spec_provisional_room<P>(s: Seq<ProvisionalEntry<P>>, b: int, limits: ProvisionalLimits, limit: usize) -> bool {
    &&& spec_provisional_fits(s, b, limits)
    &&& match spec_provisional_usage::<P>((s.len() + 1) as usize, spec_entry_bytes(s) + b) {
        Some((retained, charged)) => (if charged >= retained { charged } else { retained }) <= limit,
        None => false,
    }
}

/// With a memory budget of its own, an insert that finalized `k` stored entries finalized
/// each only while there was no room for the new one, and kept the new one exactly when
/// there was room.
pub open spec fn spec_room_decided<P>(s: Seq<ProvisionalEntry<P>>, limits: ProvisionalLimits, b: int, k: int, retained: bool, limit: usize) -> bool {
    &&& forall|j: int| 0 <= j < k ==> !#[trigger] spec_provisional_room(s.skip(j), b, limits, limit)
    &&& retained == spec_provisional_room(s.skip(k), b, limits, limit)
}

/// An insert that returned `out` took the next sequence number and did what
/// `spec_provisional_insert` describes for the payload's reported size, for some count of
/// finalized entries; with a budget of its own, room alone decided that count.
pub open spec fn spec_provisional_inserted<P: CompactCorrelationPayload>(
    o: ProvisionalStore<P>,
    n: ProvisionalStore<P>,
    finalize_after_line: u64,
    payload: P,
    out: ProvisionalInsertOutcome<P>,
) -> bool {
    &&& o.spec_next_sequence() < u64::MAX
    &&& out.sequence == o.spec_next_sequence()
    &&& n.spec_next_sequence() == o.spec_next_sequence() + 1
    &&& exists|k: int| #[trigger] spec_provisional_insert(o.spec_entries(), n.spec_entries(), o.spec_limits(), out.sequence,
        finalize_after_line, payload, payload.spec_payload_bytes(), k, out.finalized@, o.spec_capacity_finalized(), n.spec_capacity_finalized())
        && (o.spec_memory_private() ==> spec_room_decided(o.spec_entries(), o.spec_limits(), payload.spec_payload_bytes() as int, k,
        out.finalized@.len() == k, o.spec_memory_limit()))
}

/// The memory estimate for one more entry of `b` logical bytes beside `s` overflows.
pub open spec fn spec_provisional_estimate_overflows<P>(s: Seq<ProvisionalEntry<P>>, b: int) -> bool {
    spec_provisional_usage::<P>((s.len() + 1) as usize, spec_entry_bytes(s) + b) is None
}

/// `n` is `o` with the entry of `sequence`, where there is one, due after `new_deadline`
/// when that is later than its deadline: the entry keeps its sequence, size and payload and
/// moves to its place in deadline order, and every other entry stays.
pub open spec fn spec_deadline_extended<P>(o: Seq<ProvisionalEntry<P>>, n: Seq<ProvisionalEntry<P>>, sequence: u64, new_deadline: u64) -> bool {
    if exists|i: int| 0 <= i < o.len() && (#[trigger] o[i]).spec_sequence() == sequence {
        let i = choose|i: int| 0 <= i < o.len() && (#[trigger] o[i]).spec_sequence() == sequence;
        let e = o[i];
        if new_deadline <= e.spec_finalize_after_line() {
            n == o
        } else {
            exists|j: int| 0 <= j < n.len() && #[trigger] n.remove(j) == o.remove(i)
                && spec_is_entry(n[j], sequence, new_deadline, e.spec_logical_bytes(), e.spec_payload())
        }
    } else {
        n == o
    }
}

/// `n` is `o` with the payload of the entry at `index` replaced by `payload`, the entry
/// keeping its sequence, deadline and reported size.
pub open spec fn spec_payload_replaced<P>(o: Seq<ProvisionalEntry<P>>, n: Seq<ProvisionalEntry<P>>, index: int, payload: P) -> bool {
    &&& n.len() == o.len()
    &&& forall|k: int| 0 <= k < o.len() && k != index ==> #[trigger] n[k] == o[k]
    &&& n[index].spec_sequence() == o[index].spec_sequence()
    &&& n[index].spec_finalize_after_line() == o[index].spec_finalize_after_line()
    &&& n[index].spec_logical_bytes() == o[index].spec_logical_bytes()
    &&& n[index].spec_payload() == payload
}

/// Provisional entries awaiting their deadlines. The entries are kept in a vector sorted by
/// deadline, then sequence, the order a map keyed by `(deadline, sequence)` would give: vstd
/// specifies no ordered access on `BTreeMap` (its first entry, or taking it), which the
/// store needs at every finalization.
pub struct ProvisionalStore<P> {
    limits: ProvisionalLimits,
    entries: Vec<ProvisionalEntry<P>>,
    retained_logical_bytes: usize,
    next_sequence: u64,
    capacity_finalized_count: u64,
    memory: ProblemMemoryAccount,
}

impl<P> ProvisionalStore<P> {
    /// The store's bookkeeping agrees with what it holds, in deadline then sequence order and
    /// within its limits.
    pub closed spec fn wf(self) -> bool {
        &&& self.limits.wf()
        &&& spec_entries_sorted(self.entries@)
        &&& forall|i: int| 0 <= i < self.entries@.len() ==> (#[trigger] self.entries@[i]).spec_sequence() < self.next_sequence
        &&& forall|i: int, j: int| 0 <= i < self.entries@.len() && 0 <= j < self.entries@.len() && i != j
            ==> (#[trigger] self.entries@[i]).spec_sequence() != (#[trigger] self.entries@[j]).spec_sequence()
        &&& self.retained_logical_bytes == spec_entry_bytes(self.entries@)
        &&& self.entries@.len() <= self.limits.spec_max_occurrences()
        &&& self.retained_logical_bytes <= self.limits.spec_max_logical_bytes()
    }

    /// No two stored entries share a sequence number.
    pub proof fn lemma_sequences_distinct(self)
        requires
            self.wf(),
        ensures
            forall|i: int, j: int| 0 <= i < self.spec_entries().len() && 0 <= j < self.spec_entries().len() && i != j
                ==> (#[trigger] self.spec_entries()[i]).spec_sequence() != (#[trigger] self.spec_entries()[j]).spec_sequence(),
    {
    }

    pub closed spec fn spec_entries(self) -> Seq<ProvisionalEntry<P>> {
        self.entries@
    }

    pub closed spec fn spec_limits(self) -> ProvisionalLimits {
        self.limits
    }

    pub closed spec fn spec_next_sequence(self) -> u64 {
        self.next_sequence
    }

    pub closed spec fn spec_capacity_finalized(self) -> u64 {
        self.capacity_finalized_count
    }

    /// The memory this store's account holds in the shared ledger.
    pub closed spec fn spec_memory_usage(self) -> ProblemMemoryUsage {
        self.memory.spec_usage()
    }

    /// Whether the store has its memory budget to itself.
    pub closed spec fn spec_memory_private(self) -> bool {
        self.memory.spec_private()
    }

    /// The limit of the store's memory budget.
    pub closed spec fn spec_memory_limit(self) -> usize {
        self.memory.spec_limit()
    }
}

/// `a` and `b` charge the same kind of budget, with the same limit.
pub open spec fn spec_same_ledger<P>(a: ProvisionalStore<P>, b: ProvisionalStore<P>) -> bool {
    a.spec_memory_private() == b.spec_memory_private() && a.spec_memory_limit() == b.spec_memory_limit()
}

impl<P: CompactCorrelationPayload> ProvisionalStore<P> {
    pub fn new() -> (r: Self)
        ensures
            r.wf(),
            r.spec_entries().len() == 0,
            r.spec_limits().spec_max_occurrences() == MAX_PROVISIONAL_OCCURRENCES,
            r.spec_limits().spec_max_logical_bytes() == MAX_PROVISIONAL_BYTES,
            r.spec_next_sequence() == 0,
            r.spec_capacity_finalized() == 0,
            r.spec_memory_private(),
            r.spec_memory_limit() == DEFAULT_PROBLEM_MEMORY_BUDGET_BYTES,
    {
        ProvisionalStore::with_limits(ProvisionalLimits::default())
    }

    pub fn with_limits(limits: ProvisionalLimits) -> (r: Self)
        requires
            limits.wf(),
        ensures
            r.wf(),
            r.spec_entries().len() == 0,
            r.spec_limits() == limits,
            r.spec_next_sequence() == 0,
            r.spec_capacity_finalized() == 0,
            r.spec_memory_private(),
            r.spec_memory_limit() == DEFAULT_PROBLEM_MEMORY_BUDGET_BYTES,
    {
        ProvisionalStore::with_limits_and_account(limits, ProblemMemoryAccount::private(DEFAULT_PROBLEM_MEMORY_BUDGET_BYTES))
    }

    /// A store whose memory is charged to `budget`'s shared ledger.
    pub fn with_limits_and_budget(limits: ProvisionalLimits, budget: ProblemMemoryBudget) -> (r: Self)
        requires
            limits.wf(),
        ensures
            r.wf(),
            r.spec_entries().len() == 0,
            r.spec_limits() == limits,
            r.spec_next_sequence() == 0,
            r.spec_capacity_finalized() == 0,
            !r.spec_memory_private(),
            r.spec_memory_limit() == budget.spec_limit(),
    {
        ProvisionalStore::with_limits_and_account(limits, budget.account())
    }

    fn with_limits_and_account(limits: ProvisionalLimits, memory: ProblemMemoryAccount) -> (r: Self)
        requires
            limits.wf(),
            memory.spec_usage() == (ProblemMemoryUsage { retained_bytes: 0, charged_bytes: 0 }),
        ensures
            r.wf(),
            r.spec_entries().len() == 0,
            r.spec_limits() == limits,
            r.spec_next_sequence() == 0,
            r.spec_capacity_finalized() == 0,
            r.spec_memory_private() == memory.spec_private(),
            r.spec_memory_limit() == memory.spec_limit(),
    {
        ProvisionalStore {
            limits,
            entries: Vec::new(),
            retained_logical_bytes: 0,
            next_sequence: 0,
            capacity_finalized_count: 0,
            memory,
        }
    }

    /// The entry at `index`, in deadline then sequence order.
    pub fn entry_at(&self, index: usize) -> (r: &ProvisionalEntry<P>)
        requires
            index < self.spec_entries().len(),
        ensures
            *r == self.spec_entries()[index as int],
    {
        &self.entries[index]
    }

    /// The stored entries, earliest deadline first, then by sequence.
    pub fn iter(&self) -> (r: core::slice::Iter<'_, ProvisionalEntry<P>>)
        ensures
            r.remaining() == self.spec_entries().map_values(|e: ProvisionalEntry<P>| &e),
    {
        self.entries.as_slice().iter()
    }

    pub fn len(&self) -> (r: usize)
        ensures
            r == self.spec_entries().len(),
    {
        self.entries.len()
    }

    pub fn is_empty(&self) -> (r: bool)
        ensures
            r == (self.spec_entries().len() == 0),
    {
        self.entries.len() == 0
    }

    pub fn next_finalize_after_line(&self) -> (r: Option<u64>)
        ensures
            self.spec_entries().len() == 0 ==> r is None,
            self.spec_entries().len() > 0 ==> r == Some(self.spec_entries()[0].spec_finalize_after_line()),
    {
        if self.entries.len() == 0 {
            None
        } else {
            Some(self.entries[0].finalize_after_line)
        }
    }

    pub fn stats(&self) -> (r: ProvisionalStats)
        requires
            self.wf(),
        ensures
            r.provisional_occurrence_count == self.spec_entries().len(),
            r.retained_logical_bytes == spec_entry_bytes(self.spec_entries()),
            r.capacity_finalized_count == self.spec_capacity_finalized(),
            r.provisional_occurrence_count <= self.spec_limits().spec_max_occurrences(),
            r.retained_logical_bytes <= self.spec_limits().spec_max_logical_bytes(),
    {
        ProvisionalStats {
            provisional_occurrence_count: self.entries.len(),
            retained_logical_bytes: self.retained_logical_bytes,
            capacity_finalized_count: self.capacity_finalized_count,
        }
    }

    fn settle_memory(&mut self)
        requires
            old(self).wf(),
        ensures
            spec_same_ledger(*old(self), *final(self)),
            final(self).wf(),
            final(self).spec_entries() == old(self).spec_entries(),
            final(self).spec_limits() == old(self).spec_limits(),
            final(self).spec_next_sequence() == old(self).spec_next_sequence(),
            final(self).spec_capacity_finalized() == old(self).spec_capacity_finalized(),
            spec_settled(
                old(self).spec_memory_usage(),
                final(self).spec_memory_usage(),
                spec_provisional_usage::<P>(old(self).spec_entries().len() as usize, spec_entry_bytes(old(self).spec_entries())),
            ),
    {
        let usage = match provisional_memory_usage::<P>(self.entries.len(), self.retained_logical_bytes) {
            Ok(u) => u,
            Err(_) => return,
        };
        if usage.charged_bytes <= self.memory.usage().charged_bytes {
            self.memory.settle_precharged(usage);
        } else {
            let _ = self.memory.try_set_usage(usage);
        }
    }

    /// Removes the entry at `index`.
    fn take_at(&mut self, index: usize) -> (r: ProvisionalEntry<P>)
        requires
            old(self).wf(),
            index < old(self).spec_entries().len(),
        ensures
            spec_same_ledger(*old(self), *final(self)),
            final(self).wf(),
            r == old(self).spec_entries()[index as int],
            final(self).spec_entries() == old(self).spec_entries().remove(index as int),
            final(self).spec_limits() == old(self).spec_limits(),
            final(self).spec_next_sequence() == old(self).spec_next_sequence(),
            final(self).spec_capacity_finalized() == old(self).spec_capacity_finalized(),
    {
        let ghost s0 = self.entries@;
        proof {
            lemma_entry_bytes_remove(s0, index as int);
            lemma_entry_bytes_nonneg(s0.remove(index as int));
        }
        let entry = self.entries.remove(index);
        self.retained_logical_bytes = self.retained_logical_bytes - entry.logical_bytes as usize;
        proof {
            let s1 = self.entries@;
            assert forall|i: int, j: int| 0 <= i < j < s1.len() implies spec_key_lt(spec_entry_key(#[trigger] s1[i]), spec_entry_key(#[trigger] s1[j])) by {
                let pi = if i < index { i } else { i + 1 };
                let pj = if j < index { j } else { j + 1 };
                assert(s1[i] == s0[pi]);
                assert(s1[j] == s0[pj]);
            }
            assert forall|i: int, j: int| 0 <= i < s1.len() && 0 <= j < s1.len() && i != j implies (#[trigger] s1[i]).spec_sequence() != (#[trigger] s1[j]).spec_sequence() by {
                let pi = if i < index { i } else { i + 1 };
                let pj = if j < index { j } else { j + 1 };
                assert(s1[i] == s0[pi]);
                assert(s1[j] == s0[pj]);
            }
            assert forall|i: int| 0 <= i < s1.len() implies (#[trigger] s1[i]).spec_sequence() < self.next_sequence by {
                let pi = if i < index { i } else { i + 1 };
                assert(s1[i] == s0[pi]);
            }
        }
        entry
    }

    /// Finalizes every entry whose deadline the watermark has strictly crossed, earliest first.
    pub fn advance_watermark(&mut self, watermark: u64) -> (r: Vec<FinalizedProvisional<P>>)
        requires
            old(self).wf(),
        ensures
            spec_same_ledger(*old(self), *final(self)),
            final(self).wf(),
            spec_finalized_entries(r@) == old(self).spec_entries().take(r@.len() as int),
            final(self).spec_entries() == old(self).spec_entries().skip(r@.len() as int),
            spec_all_for(r@, ProvisionalFinalizeReason::Watermark),
            forall|i: int| 0 <= i < r@.len() ==> watermark > (#[trigger] old(self).spec_entries()[i]).spec_finalize_after_line(),
            r@.len() < old(self).spec_entries().len() ==> watermark <= old(self).spec_entries()[r@.len() as int].spec_finalize_after_line(),
            final(self).spec_limits() == old(self).spec_limits(),
            final(self).spec_next_sequence() == old(self).spec_next_sequence(),
            final(self).spec_capacity_finalized() == old(self).spec_capacity_finalized(),
    {
        let ghost s0 = self.entries@;
        let mut finalized: Vec<FinalizedProvisional<P>> = Vec::new();
        while self.entries.len() > 0 && watermark > self.entries[0].finalize_after_line
            invariant
                self.wf(),
                spec_same_ledger(*old(self), *self),
                finalized@.len() <= s0.len(),
                self.entries@ == s0.skip(finalized@.len() as int),
                spec_finalized_entries(finalized@) == s0.take(finalized@.len() as int),
                spec_all_for(finalized@, ProvisionalFinalizeReason::Watermark),
                forall|i: int| 0 <= i < finalized@.len() ==> watermark > (#[trigger] s0[i]).spec_finalize_after_line(),
                self.limits == old(self).limits,
                self.next_sequence == old(self).next_sequence,
                self.capacity_finalized_count == old(self).capacity_finalized_count,
                s0 == old(self).entries@,
            decreases self.entries@.len(),
        {
            let ghost n = finalized@.len() as int;
            let entry = self.take_at(0);
            proof {
                assert(s0[n] == entry);
                assert(s0.skip(n + 1) =~= s0.skip(n).remove(0));
            }
            finalized.push(FinalizedProvisional { entry, reason: ProvisionalFinalizeReason::Watermark });
            proof {
                assert(spec_finalized_entries(finalized@) =~= s0.take(n + 1));
            }
        }
        self.settle_memory();
        finalized
    }

    /// Finalizes every entry, earliest deadline first, then by sequence.
    pub fn finish(&mut self) -> (r: Vec<FinalizedProvisional<P>>)
        requires
            old(self).wf(),
        ensures
            spec_same_ledger(*old(self), *final(self)),
            final(self).wf(),
            spec_finalized_entries(r@) == old(self).spec_entries(),
            final(self).spec_entries().len() == 0,
            spec_all_for(r@, ProvisionalFinalizeReason::Finish),
            final(self).spec_limits() == old(self).spec_limits(),
            final(self).spec_next_sequence() == old(self).spec_next_sequence(),
            final(self).spec_capacity_finalized() == old(self).spec_capacity_finalized(),
    {
        let ghost s0 = self.entries@;
        let mut finalized: Vec<FinalizedProvisional<P>> = Vec::new();
        while self.entries.len() > 0
            invariant
                self.wf(),
                spec_same_ledger(*old(self), *self),
                finalized@.len() <= s0.len(),
                self.entries@ == s0.skip(finalized@.len() as int),
                spec_finalized_entries(finalized@) == s0.take(finalized@.len() as int),
                spec_all_for(finalized@, ProvisionalFinalizeReason::Finish),
                self.limits == old(self).limits,
                self.next_sequence == old(self).next_sequence,
                self.capacity_finalized_count == old(self).capacity_finalized_count,
                s0 == old(self).entries@,
            decreases self.entries@.len(),
        {
            let ghost n = finalized@.len() as int;
            let entry = self.take_at(0);
            proof {
                assert(s0[n] == entry);
                assert(s0.skip(n + 1) =~= s0.skip(n).remove(0));
            }
            finalized.push(FinalizedProvisional { entry, reason: ProvisionalFinalizeReason::Finish });
            proof {
                assert(spec_finalized_entries(finalized@) =~= s0.take(n + 1));
            }
        }
        proof {
            assert(s0.take(finalized@.len() as int) =~= s0);
        }
        self.settle_memory();
        finalized
    }

    pub fn reset(&mut self)
        requires
            old(self).wf(),
        ensures
            spec_same_ledger(*old(self), *final(self)),
            final(self).wf(),
            final(self).spec_entries().len() == 0,
            final(self).spec_limits() == old(self).spec_limits(),
            final(self).spec_next_sequence() == 0,
            final(self).spec_capacity_finalized() == 0,
    {
        self.entries = Vec::new();
        self.retained_logical_bytes = 0;
        self.next_sequence = 0;
        self.capacity_finalized_count = 0;
        self.memory.release();
    }

    /// The index of the entry with `sequence`.
    fn find_sequence(&self, sequence: u64) -> (r: Option<usize>)
        ensures
            match r {
                Some(i) => i < self.spec_entries().len() && self.spec_entries()[i as int].spec_sequence() == sequence,
                None => forall|i: int| 0 <= i < self.spec_entries().len() ==> (#[trigger] self.spec_entries()[i]).spec_sequence() != sequence,
            },
    {
        let mut i: usize = 0;
        while i < self.entries.len()
            invariant
                0 <= i <= self.entries@.len(),
                forall|k: int| 0 <= k < i ==> (#[trigger] self.entries@[k]).spec_sequence() != sequence,
            decreases self.entries@.len() - i,
        {
            if self.entries[i].sequence == sequence {
                return Some(i);
            }
            i = i + 1;
        }
        None
    }

    /// Removes one retained entry by its stable sequence number.
    ///
    /// Correlation uses this only after a delayed, one-to-one match has become
    /// deterministic. Keeping removal inside the store preserves exact logical
    /// byte accounting.
    pub fn remove(&mut self, sequence: u64) -> (r: Option<ProvisionalEntry<P>>)
        requires
            old(self).wf(),
        ensures
            spec_same_ledger(*old(self), *final(self)),
            final(self).wf(),
            match r {
                Some(e) => exists|i: int| 0 <= i < old(self).spec_entries().len() && old(self).spec_entries()[i] == e
                    && e.spec_sequence() == sequence && final(self).spec_entries() == old(self).spec_entries().remove(i),
                None => final(self).spec_entries() == old(self).spec_entries() && forall|i: int|
                    0 <= i < old(self).spec_entries().len() ==> (#[trigger] old(self).spec_entries()[i]).spec_sequence() != sequence,
            },
            final(self).spec_limits() == old(self).spec_limits(),
            final(self).spec_next_sequence() == old(self).spec_next_sequence(),
            final(self).spec_capacity_finalized() == old(self).spec_capacity_finalized(),
    {
        let index = match self.find_sequence(sequence) {
            Some(i) => i,
            None => return None,
        };
        let entry = self.take_at(index);
        self.settle_memory();
        Some(entry)
    }

    /// The position at which an entry with `key` keeps the order.
    fn insert_position(&self, key: (u64, u64)) -> (r: usize)
        requires
            self.wf(),
        ensures
            r <= self.spec_entries().len(),
            forall|i: int| 0 <= i < r ==> spec_key_lt(spec_entry_key(#[trigger] self.spec_entries()[i]), key) || spec_entry_key(self.spec_entries()[i]) == key,
            forall|i: int| r <= i < self.spec_entries().len() ==> spec_key_lt(key, spec_entry_key(#[trigger] self.spec_entries()[i])),
    {
        let mut i: usize = 0;
        while i < self.entries.len() && !(key.0 < self.entries[i].finalize_after_line
            || (key.0 == self.entries[i].finalize_after_line && key.1 < self.entries[i].sequence))
            invariant
                self.wf(),
                0 <= i <= self.entries@.len(),
                forall|k: int| 0 <= k < i ==> spec_key_lt(spec_entry_key(#[trigger] self.entries@[k]), key) || spec_entry_key(self.entries@[k]) == key,
            decreases self.entries@.len() - i,
        {
            i = i + 1;
        }
        proof {
            if i < self.entries@.len() {
                assert forall|k: int| i <= k < self.entries@.len() implies spec_key_lt(key, spec_entry_key(#[trigger] self.entries@[k])) by {
                    if k > i {
                        assert(spec_key_lt(spec_entry_key(self.entries@[i as int]), spec_entry_key(self.entries@[k])));
                    }
                }
            }
        }
        i
    }

    /// Puts `entry` in key order.
    fn insert_sorted(&mut self, entry: ProvisionalEntry<P>)
        requires
            old(self).wf(),
            entry.spec_sequence() < old(self).spec_next_sequence(),
            forall|i: int| 0 <= i < old(self).spec_entries().len() ==> (#[trigger] old(self).spec_entries()[i]).spec_sequence() != entry.spec_sequence(),
            old(self).spec_entries().len() < old(self).spec_limits().spec_max_occurrences(),
            spec_entry_bytes(old(self).spec_entries()) + entry.spec_logical_bytes() <= old(self).spec_limits().spec_max_logical_bytes(),
        ensures
            spec_same_ledger(*old(self), *final(self)),
            final(self).wf(),
            final(self).spec_entries().to_multiset() == old(self).spec_entries().to_multiset().insert(entry),
            final(self).spec_entries().len() == old(self).spec_entries().len() + 1,
            exists|i: int| 0 <= i <= old(self).spec_entries().len() && final(self).spec_entries() == old(self).spec_entries().insert(i, entry),
            final(self).spec_limits() == old(self).spec_limits(),
            final(self).spec_next_sequence() == old(self).spec_next_sequence(),
            final(self).spec_capacity_finalized() == old(self).spec_capacity_finalized(),
    {
        let ghost s0 = self.entries@;
        let key = (entry.finalize_after_line, entry.sequence);
        let i = self.insert_position(key);
        proof {
            lemma_entry_bytes_insert(s0, i as int, entry);
            vstd::seq_lib::to_multiset_insert(s0, i as int, entry);
        }
        self.retained_logical_bytes = self.retained_logical_bytes + entry.logical_bytes as usize;
        self.entries.insert(i, entry);
        proof {
            let s1 = self.entries@;
            assert(s1 == s0.insert(i as int, entry));
            assert forall|a: int, b: int| 0 <= a < b < s1.len() implies spec_key_lt(spec_entry_key(#[trigger] s1[a]), spec_entry_key(#[trigger] s1[b])) by {
                if a < i && b < i {
                    assert(s1[a] == s0[a] && s1[b] == s0[b]);
                } else if a < i && b == i {
                    assert(s1[a] == s0[a]);
                    assert(spec_entry_key(s0[a]) != key);
                } else if a < i && b > i {
                    assert(s1[a] == s0[a] && s1[b] == s0[b - 1]);
                } else if a == i {
                    assert(s1[b] == s0[b - 1]);
                } else {
                    assert(s1[a] == s0[a - 1] && s1[b] == s0[b - 1]);
                }
            }
            assert forall|a: int, b: int| 0 <= a < s1.len() && 0 <= b < s1.len() && a != b implies (#[trigger] s1[a]).spec_sequence() != (#[trigger] s1[b]).spec_sequence() by {
                let pa = if a < i { a } else if a == i { -1 } else { a - 1 };
                let pb = if b < i { b } else if b == i { -1 } else { b - 1 };
                if pa >= 0 {
                    assert(s1[a] == s0[pa]);
                }
                if pb >= 0 {
                    assert(s1[b] == s0[pb]);
                }
            }
            assert forall|a: int| 0 <= a < s1.len() implies (#[trigger] s1[a]).spec_sequence() < self.next_sequence by {
                if a < i {
                    assert(s1[a] == s0[a]);
                } else if a > i {
                    assert(s1[a] == s0[a - 1]);
                }
            }
        }
    }

    /// Finalizes the earliest entry for capacity when it is due no later than
    /// `finalize_after_line`.
    fn finalize_earliest_within(&mut self, finalize_after_line: u64) -> (r: Option<ProvisionalEntry<P>>)
        requires
            old(self).wf(),
        ensures
            spec_same_ledger(*old(self), *final(self)),
            final(self).wf(),
            final(self).spec_limits() == old(self).spec_limits(),
            final(self).spec_next_sequence() == old(self).spec_next_sequence(),
            match r {
                Some(e) => {
                    &&& old(self).spec_entries().len() > 0
                    &&& e == old(self).spec_entries()[0]
                    &&& e.spec_finalize_after_line() <= finalize_after_line
                    &&& final(self).spec_entries() == old(self).spec_entries().drop_first()
                    &&& final(self).spec_capacity_finalized() == spec_sat_add(old(self).spec_capacity_finalized(), 1)
                },
                None => {
                    &&& (old(self).spec_entries().len() == 0 || old(self).spec_entries()[0].spec_finalize_after_line() > finalize_after_line)
                    &&& final(self).spec_entries() == old(self).spec_entries()
                    &&& final(self).spec_capacity_finalized() == old(self).spec_capacity_finalized()
                },
            },
    {
        if self.entries.len() == 0 || self.entries[0].finalize_after_line > finalize_after_line {
            return None;
        }
        let entry = self.take_at(0);
        proof {
            assert(self.entries@ =~= old(self).entries@.drop_first());
        }
        self.capacity_finalized_count = self.capacity_finalized_count.saturating_add(1);
        Some(entry)
    }

    /// Stores a payload due after `finalize_after_line` under the next sequence number. Where
    /// the count limit, the byte limit or the memory ledger leave no room, the earliest entries
    /// due no later than it are finalized for capacity first; where none is left, the new one
    /// is finalized itself.
    #[verifier::rlimit(60)]
    #[verifier::spinoff_prover]
    pub fn insert(&mut self, finalize_after_line: u64, payload: P) -> (r: Result<ProvisionalInsertOutcome<P>, CorrelationSequenceExhausted>)
        requires
            old(self).wf(),
        ensures
            spec_same_ledger(*old(self), *final(self)),
            final(self).wf(),
            final(self).spec_limits() == old(self).spec_limits(),
            match r {
                Ok(out) => spec_provisional_inserted(*old(self), *final(self), finalize_after_line, payload, out),
                Err(_) => {
                    &&& old(self).spec_next_sequence() == u64::MAX ==> final(self).spec_entries() == old(self).spec_entries()
                        && final(self).spec_next_sequence() == old(self).spec_next_sequence()
                        && final(self).spec_capacity_finalized() == old(self).spec_capacity_finalized()
                    &&& old(self).spec_next_sequence() < u64::MAX ==> {
                        &&& final(self).spec_next_sequence() == old(self).spec_next_sequence() + 1
                        &&& exists|k: int| 0 <= k <= old(self).spec_entries().len() && final(self).spec_entries() == old(self).spec_entries().skip(k)
                        &&& spec_provisional_estimate_overflows(final(self).spec_entries(), payload.spec_payload_bytes() as int)
                    }
                },
            },
    {
        let ghost o = *self;
        let ghost s = self.entries@;
        let sequence = self.next_sequence;
        if sequence == u64::MAX {
            return Err(CorrelationSequenceExhausted);
        }
        self.next_sequence = sequence + 1;
        let logical_bytes = payload.logical_bytes();
        let mut finalized: Vec<FinalizedProvisional<P>> = Vec::new();
        let mut k: usize = 0;
        while self.entries.len() >= self.limits.max_occurrences
            || logical_bytes as usize > self.limits.max_logical_bytes - self.retained_logical_bytes
            invariant
                self.wf(),
                spec_same_ledger(o, *self),
                self.limits == o.limits,
                self.next_sequence == sequence + 1,
                sequence == o.next_sequence,
                s == o.entries@,
                o == *old(self),
                o.wf(),
                0 <= k <= s.len(),
                self.entries@ == s.skip(k as int),
                finalized@.len() == k,
                spec_finalized_entries(finalized@) == s.take(k as int),
                spec_all_for(finalized@, ProvisionalFinalizeReason::Capacity),
                forall|i: int| 0 <= i < k ==> (#[trigger] s[i]).spec_finalize_after_line() <= finalize_after_line,
                self.capacity_finalized_count == spec_sat_add(o.capacity_finalized_count, k as int),
                logical_bytes == payload.spec_payload_bytes(),
                o.spec_memory_private() ==> forall|jj: int| 0 <= jj < k ==> !#[trigger] spec_provisional_room(s.skip(jj),
                    logical_bytes as int, o.limits, o.spec_memory_limit()),
            decreases self.entries@.len(),
        {
            proof {
                assert(!spec_provisional_fits(s.skip(k as int), logical_bytes as int, o.limits));
                assert(!spec_provisional_room(s.skip(k as int), logical_bytes as int, o.limits, o.spec_memory_limit()));
            }
            match self.finalize_earliest_within(finalize_after_line) {
                Some(entry) => {
                    proof {
                        assert(s[k as int] == entry);
                        assert(s.skip(k + 1) =~= s.skip(k as int).drop_first());
                        lemma_sat_add_compose(o.capacity_finalized_count, k as int, 1);
                    }
                    finalized.push(FinalizedProvisional { entry, reason: ProvisionalFinalizeReason::Capacity });
                    proof {
                        assert(spec_finalized_entries(finalized@) =~= s.take(k + 1));
                    }
                    k = k + 1;
                },
                None => {
                    return Ok(self.finalize_incoming(sequence, finalize_after_line, logical_bytes, payload, finalized, Ghost(o), Ghost(k as int)));
                },
            }
        }
        loop
            invariant
                self.wf(),
                spec_same_ledger(o, *self),
                self.limits == o.limits,
                self.next_sequence == sequence + 1,
                sequence == o.next_sequence,
                s == o.entries@,
                o == *old(self),
                o.wf(),
                0 <= k <= s.len(),
                self.entries@ == s.skip(k as int),
                finalized@.len() == k,
                spec_finalized_entries(finalized@) == s.take(k as int),
                spec_all_for(finalized@, ProvisionalFinalizeReason::Capacity),
                forall|i: int| 0 <= i < k ==> (#[trigger] s[i]).spec_finalize_after_line() <= finalize_after_line,
                self.capacity_finalized_count == spec_sat_add(o.capacity_finalized_count, k as int),
                spec_provisional_fits(self.entries@, logical_bytes as int, self.limits),
                logical_bytes == payload.spec_payload_bytes(),
                o.spec_memory_private() ==> forall|jj: int| 0 <= jj < k ==> !#[trigger] spec_provisional_room(s.skip(jj),
                    logical_bytes as int, o.limits, o.spec_memory_limit()),
            ensures
                o.spec_memory_private() ==> spec_provisional_room(s.skip(k as int), logical_bytes as int, o.limits, o.spec_memory_limit()),
            decreases self.entries@.len(),
        {
            let projected_logical = match self.retained_logical_bytes.checked_add(logical_bytes as usize) {
                Some(v) => v,
                None => {
                    proof {
                        assert(self.retained_logical_bytes + logical_bytes <= self.limits.spec_max_logical_bytes());
                    }
                    return Err(CorrelationSequenceExhausted);
                },
            };
            let projection = match provisional_memory_usage::<P>(self.entries.len() + 1, projected_logical) {
                Ok(u) => u,
                Err(_) => {
                    proof {
                        assert(spec_provisional_estimate_overflows(self.spec_entries(), logical_bytes as int));
                        assert(0 <= k <= o.spec_entries().len() && self.spec_entries() == o.spec_entries().skip(k as int));
                    }
                    return Err(CorrelationSequenceExhausted);
                },
            };
            if self.memory.try_set_usage(projection).is_ok() {
                proof {
                    if o.spec_memory_private() {
                        assert(spec_provisional_room(s.skip(k as int), logical_bytes as int, o.limits, o.spec_memory_limit()));
                    }
                }
                break;
            }
            proof {
                if o.spec_memory_private() {
                    assert(!spec_provisional_room(s.skip(k as int), logical_bytes as int, o.limits, o.spec_memory_limit()));
                }
            }
            match self.finalize_earliest_within(finalize_after_line) {
                Some(entry) => {
                    proof {
                        assert(s[k as int] == entry);
                        assert(s.skip(k + 1) =~= s.skip(k as int).drop_first());
                        lemma_sat_add_compose(o.capacity_finalized_count, k as int, 1);
                        lemma_entry_bytes_nonneg(s.skip(k as int));
                        assert(spec_entry_bytes(s.skip(k as int)) == entry.spec_logical_bytes() + spec_entry_bytes(s.skip(k + 1)));
                    }
                    finalized.push(FinalizedProvisional { entry, reason: ProvisionalFinalizeReason::Capacity });
                    proof {
                        assert(spec_finalized_entries(finalized@) =~= s.take(k + 1));
                    }
                    k = k + 1;
                },
                None => {
                    return Ok(self.finalize_incoming(sequence, finalize_after_line, logical_bytes, payload, finalized, Ghost(o), Ghost(k as int)));
                },
            }
        }
        let entry = ProvisionalEntry { sequence, finalize_after_line, logical_bytes, payload };
        let ghost mid = self.entries@;
        proof {
            assert forall|i: int| 0 <= i < mid.len() implies (#[trigger] mid[i]).spec_sequence() != entry.spec_sequence() by {
                assert(mid[i] == s[i + k]);
                assert(s[i + k].spec_sequence() < o.next_sequence);
            }
        }
        self.insert_sorted(entry);
        self.settle_memory();
        let out = ProvisionalInsertOutcome { sequence, finalized };
        proof {
            let n = self.entries@;
            let i = choose|i: int| 0 <= i <= mid.len() && n == mid.insert(i, entry);
            assert(n.remove(i) =~= mid);
            assert(n[i] == entry);
            assert(spec_finalized_entries(out.finalized@).take(k as int) =~= s.take(k as int));
            assert(spec_provisional_insert(s, n, o.limits, sequence, finalize_after_line, payload, logical_bytes, k as int,
                out.finalized@, o.capacity_finalized_count, self.capacity_finalized_count));
            assert(spec_provisional_insert(o.spec_entries(), self.spec_entries(), o.spec_limits(), out.sequence, finalize_after_line,
                payload, logical_bytes, k as int, out.finalized@, o.spec_capacity_finalized(), self.spec_capacity_finalized()));
            assert(spec_provisional_inserted(o, *self, finalize_after_line, payload, out));
        }
        Ok(out)
    }

    /// Finalizes the incoming entry for capacity, when no earlier entry is left to give way.
    fn finalize_incoming(
        &mut self,
        sequence: u64,
        finalize_after_line: u64,
        logical_bytes: u32,
        payload: P,
        finalized: Vec<FinalizedProvisional<P>>,
        Ghost(o): Ghost<ProvisionalStore<P>>,
        Ghost(k): Ghost<int>,
    ) -> (out: ProvisionalInsertOutcome<P>)
        requires
            logical_bytes == payload.spec_payload_bytes(),
            old(self).wf(),
            o.wf(),
            old(self).spec_limits() == o.spec_limits(),
            o.spec_next_sequence() == sequence,
            sequence < u64::MAX,
            old(self).spec_next_sequence() == sequence + 1,
            0 <= k <= o.spec_entries().len(),
            old(self).spec_entries() == o.spec_entries().skip(k),
            old(self).spec_entries().len() == 0 || old(self).spec_entries()[0].spec_finalize_after_line() > finalize_after_line,
            finalized@.len() == k,
            spec_finalized_entries(finalized@) == o.spec_entries().take(k),
            spec_all_for(finalized@, ProvisionalFinalizeReason::Capacity),
            forall|i: int| 0 <= i < k ==> (#[trigger] o.spec_entries()[i]).spec_finalize_after_line() <= finalize_after_line,
            old(self).spec_capacity_finalized() == spec_sat_add(o.spec_capacity_finalized(), k),
            spec_same_ledger(o, *old(self)),
            o.spec_memory_private() ==> forall|jj: int| 0 <= jj <= k ==> !#[trigger] spec_provisional_room(o.spec_entries().skip(jj),
                logical_bytes as int, o.spec_limits(), o.spec_memory_limit()),
        ensures
            spec_same_ledger(*old(self), *final(self)),
            final(self).wf(),
            final(self).spec_limits() == o.spec_limits(),
            spec_provisional_inserted(o, *final(self), finalize_after_line, payload, out),
    {
        let ghost s = o.spec_entries();
        let mut finalized = finalized;
        proof {
            lemma_sat_add_compose(o.spec_capacity_finalized(), k, 1);
        }
        self.capacity_finalized_count = self.capacity_finalized_count.saturating_add(1);
        let entry = ProvisionalEntry { sequence, finalize_after_line, logical_bytes, payload };
        let ghost f0 = finalized@;
        finalized.push(FinalizedProvisional { entry, reason: ProvisionalFinalizeReason::Capacity });
        self.settle_memory();
        let out = ProvisionalInsertOutcome { sequence, finalized };
        proof {
            let f = out.finalized@;
            assert(spec_finalized_entries(f).take(k) =~= spec_finalized_entries(f0));
            assert(f[k].entry == entry);
            if k < s.len() {
                assert(s.skip(k)[0] == s[k]);
            }
            assert(spec_provisional_insert(s, self.spec_entries(), o.spec_limits(), sequence, finalize_after_line, payload,
                logical_bytes, k, f, o.spec_capacity_finalized(), self.spec_capacity_finalized()));
            assert(spec_provisional_insert(o.spec_entries(), self.spec_entries(), o.spec_limits(), out.sequence, finalize_after_line,
                payload, logical_bytes, k, out.finalized@, o.spec_capacity_finalized(), self.spec_capacity_finalized()));
        }
        out
    }

    /// Extends an entry's strict source-line finalization deadline while
    /// preserving its original deterministic sequence tie-breaker.
    ///
    /// Correlation can discover a later member of the same occurrence. That
    /// member may itself admit forward evidence, so retaining the old deadline
    /// would finalize the occurrence too early.
    pub fn extend_finalize_after_line(&mut self, sequence: u64, new_deadline: u64) -> (r: bool)
        requires
            old(self).wf(),
        ensures
            spec_same_ledger(*old(self), *final(self)),
            final(self).wf(),
            r == exists|i: int| 0 <= i < old(self).spec_entries().len() && (#[trigger] old(self).spec_entries()[i]).spec_sequence() == sequence,
            spec_deadline_extended(old(self).spec_entries(), final(self).spec_entries(), sequence, new_deadline),
            final(self).spec_entries().len() == old(self).spec_entries().len(),
            final(self).spec_limits() == old(self).spec_limits(),
            final(self).spec_next_sequence() == old(self).spec_next_sequence(),
            final(self).spec_capacity_finalized() == old(self).spec_capacity_finalized(),
    {
        let index = match self.find_sequence(sequence) {
            Some(i) => i,
            None => return false,
        };
        let ghost s0 = self.entries@;
        proof {
            let c = choose|i: int| 0 <= i < s0.len() && (#[trigger] s0[i]).spec_sequence() == sequence;
            if c != index as int {
                assert(s0[c].spec_sequence() != s0[index as int].spec_sequence());
            }
            assert(c == index as int);
        }
        if new_deadline <= self.entries[index].finalize_after_line {
            return true;
        }
        let mut entry = self.take_at(index);
        entry.finalize_after_line = new_deadline;
        proof {
            assert forall|i: int| 0 <= i < self.entries@.len() implies (#[trigger] self.entries@[i]).spec_sequence() != entry.spec_sequence() by {
                let pi = if i < index { i } else { i + 1 };
                assert(self.entries@[i] == s0[pi]);
            }
            lemma_entry_bytes_remove(s0, index as int);
        }
        let ghost mid = self.entries@;
        self.insert_sorted(entry);
        proof {
            let n = self.entries@;
            let j = choose|j: int| 0 <= j <= mid.len() && n == mid.insert(j, entry);
            assert(n.remove(j) =~= mid);
            assert(n[j] == entry);
        }
        true
    }

    /// The payload of the entry at `index`, for mutating compact evidence in place without
    /// changing deadline ordering. The payload's reported logical size must remain unchanged
    /// while retained.
    pub fn payload_mut(&mut self, index: usize) -> (r: Option<&mut P>)
        requires
            old(self).wf(),
        ensures
            spec_same_ledger(*old(self), *final(self)),
            final(self).wf(),
            index >= old(self).spec_entries().len() ==> r is None && final(self).spec_entries() == old(self).spec_entries(),
            index < old(self).spec_entries().len() ==> (r matches Some(p) && *p == old(self).spec_entries()[index as int].spec_payload()
                && spec_payload_replaced(old(self).spec_entries(), final(self).spec_entries(), index as int, *final(p))),
            final(self).spec_entries().len() == old(self).spec_entries().len(),
            final(self).spec_limits() == old(self).spec_limits(),
            final(self).spec_next_sequence() == old(self).spec_next_sequence(),
            final(self).spec_capacity_finalized() == old(self).spec_capacity_finalized(),
    {
        if index >= self.entries.len() {
            return None;
        }
        let ghost s0 = self.entries@;
        proof {
            assert forall|x: ProvisionalEntry<P>| x.spec_logical_bytes() == s0[index as int].spec_logical_bytes()
                implies #[trigger] spec_entry_bytes(s0.update(index as int, x)) == spec_entry_bytes(s0) by {
                lemma_entry_bytes_update(s0, index as int, x);
            }
        }
        let e = &mut self.entries[index];
        Some(e.payload_mut())
    }
}


/// What an insert that returned `out` hands back and keeps: the finalized entries followed by
/// the stored ones are the old entries and the new one, in key order; so the finalized
/// entries are the smallest keys among them, and the store keeps the rest.
pub proof fn lemma_insert_finalizes_smallest_keys<P: CompactCorrelationPayload>(
    o: ProvisionalStore<P>,
    n: ProvisionalStore<P>,
    f: u64,
    payload: P,
    out: ProvisionalInsertOutcome<P>,
)
    requires
        o.wf(),
        n.wf(),
        spec_provisional_inserted(o, n, f, payload, out),
    ensures
        exists|e: ProvisionalEntry<P>| #[trigger] spec_is_entry(e, out.sequence, f, payload.spec_payload_bytes(), payload)
            && (spec_finalized_entries(out.finalized@) + n.spec_entries()).to_multiset() == o.spec_entries().to_multiset().insert(e),
        spec_entries_sorted(spec_finalized_entries(out.finalized@) + n.spec_entries()),
{
    let old = o.entries@;
    let new = n.entries@;
    let fin = spec_finalized_entries(out.finalized@);
    let b = payload.spec_payload_bytes();
    let k = choose|k: int| #[trigger] spec_provisional_insert(o.spec_entries(), n.spec_entries(), o.spec_limits(), out.sequence,
        f, payload, b, k, out.finalized@, o.spec_capacity_finalized(), n.spec_capacity_finalized())
        && (o.spec_memory_private() ==> spec_room_decided(o.spec_entries(), o.spec_limits(), b as int, k,
        out.finalized@.len() == k, o.spec_memory_limit()));
    let cat = fin + new;
    assert(old =~= old.take(k) + old.skip(k));
    vstd::seq_lib::lemma_multiset_commutative(old.take(k), old.skip(k));
    if out.finalized@.len() == k {
        assert(fin =~= old.take(k));
        let i = choose|i: int| 0 <= i <= old.skip(k).len() && #[trigger] new.remove(i) == old.skip(k)
            && spec_is_entry(new[i], out.sequence, f, b, payload);
        let e = new[i];
        vstd::seq_lib::lemma_multiset_commutative(fin, new);
        vstd::seq_lib::to_multiset_remove(new, i);
        assert(new.to_multiset() =~= old.skip(k).to_multiset().insert(e)) by {
            new.to_multiset_ensures();
        }
        assert(cat.to_multiset() =~= old.to_multiset().insert(e));
        assert(spec_is_entry(e, out.sequence, f, b, payload));
        assert forall|x: int, y: int| 0 <= x < y < cat.len() implies spec_key_lt(spec_entry_key(#[trigger] cat[x]), spec_entry_key(#[trigger] cat[y])) by {
            if y < k {
                assert(cat[x] == old[x] && cat[y] == old[y]);
            } else if x >= k {
                assert(cat[x] == new[x - k] && cat[y] == new[y - k]);
            } else {
                assert(cat[x] == old[x]);
                assert(old[x].spec_finalize_after_line() <= f);
                let yy = y - k;
                assert(cat[y] == new[yy]);
                if yy == i {
                    assert(old[x].spec_sequence() < o.next_sequence);
                } else if yy < i {
                    assert(new[yy] == new.remove(i)[yy]);
                    assert(new.remove(i)[yy] == old[k + yy]);
                } else {
                    assert(new[yy] == new.remove(i)[yy - 1]);
                    assert(new.remove(i)[yy - 1] == old[k + yy - 1]);
                }
            }
        }
    } else {
        let e = fin[k];
        assert(fin =~= old.take(k).push(e));
        assert(new == old.skip(k));
        vstd::seq_lib::lemma_multiset_commutative(fin, new);
        vstd::seq_lib::lemma_multiset_commutative(old.take(k).push(e), old.skip(k));
        assert(fin.to_multiset() =~= old.take(k).to_multiset().insert(e)) by {
            old.take(k).to_multiset_ensures();
        }
        assert(cat.to_multiset() =~= old.to_multiset().insert(e));
        assert forall|x: int, y: int| 0 <= x < y < cat.len() implies spec_key_lt(spec_entry_key(#[trigger] cat[x]), spec_entry_key(#[trigger] cat[y])) by {
            if y < k {
                assert(cat[x] == old[x] && cat[y] == old[y]);
            } else if y == k {
                assert(cat[x] == old[x] && cat[y] == e);
                assert(old[x].spec_finalize_after_line() <= f);
                assert(old[x].spec_sequence() < o.next_sequence);
            } else if x > k {
                assert(cat[x] == old[x - 1] && cat[y] == old[y - 1]);
            } else if x == k {
                assert(cat[y] == old[y - 1]);
                assert(old[k].spec_finalize_after_line() > f);
                if y - 1 > k {
                    assert(spec_key_lt(spec_entry_key(old[k]), spec_entry_key(old[y - 1])));
                }
            } else {
                assert(cat[x] == old[x] && cat[y] == old[y - 1]);
            }
        }
    }
}

} // verus!
