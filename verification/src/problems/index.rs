use vstd::prelude::*;
use std::collections::VecDeque;
use std::time::{Duration, Instant};
use crate::problems::facts::{ObservationCandidate, ObservationRef};
use crate::problems::fingerprint::ProblemFingerprint;
use crate::problems::model::{
    spec_event_error, BoundaryFlags, IdentityQuality, PackedLogTimestamp, ProblemEvent, ProblemEventDraft,
    ProblemEventError, ProblemEventId, ProblemKind, SignatureQuality, MAX_ADOPTED_OBSERVATIONS,
    MAX_MATERIALIZED_OBSERVATIONS,
};

verus! {

pub const DEFAULT_MAX_EVENTS: usize = 1_000_000;

pub const DEFAULT_MAX_OBSERVATION_REFS: usize = 4_000_000;

pub const DEFAULT_MAX_GROUPS: usize = 100_000;

pub const DEFAULT_MAX_SNAPSHOTS: usize = 8;

/// The default snapshot time-to-live, five minutes, in seconds.
pub const DEFAULT_SNAPSHOT_TTL_SECS: u64 = 300;

pub const DEFAULT_MAX_SNAPSHOT_ID_BYTES: usize = 16 * 1024 * 1024;

/// The number of released, evicted or expired snapshot ids whose fate is remembered.
pub const MAX_RETIRED_SNAPSHOTS: usize = 64;

/// The bytes one group id takes in a snapshot.
pub const GROUP_ID_BYTES: usize = 4;

#[verifier::external_type_specification]
#[verifier::external_body]
pub struct ExInstant(Instant);

/// Builds a `Duration` of whole seconds with `Duration::from_secs`.
#[verifier::external_body]
fn duration_from_secs(secs: u64) -> (r: Duration) {
    Duration::from_secs(secs)
}

/// The length of a `Duration` in nanoseconds, by `Duration::as_nanos`.
#[verifier::external_body]
fn duration_nanos(d: Duration) -> (r: u128) {
    d.as_nanos()
}

/// How long after `earlier` the instant `now` is, by `Instant::saturating_duration_since`
/// (zero when `now` is not later).
#[verifier::external_body]
fn saturating_duration_since(now: Instant, earlier: Instant) -> (r: Duration) {
    now.saturating_duration_since(earlier)
}

/// The current instant, by `Instant::now`.
#[verifier::external_body]
fn instant_now() -> (r: Instant) {
    Instant::now()
}

#[derive(Debug, Clone, Copy, PartialEq, Eq)]
pub struct ProblemIndexLimits {
    pub max_events: usize,
    pub max_observation_refs: usize,
    pub max_groups: usize,
    pub max_snapshots: usize,
    pub snapshot_ttl: Duration,
    pub max_snapshot_id_bytes: usize,
}

impl Default for ProblemIndexLimits {
    fn default() -> (r: Self)
        ensures
            r.max_events == DEFAULT_MAX_EVENTS,
            r.max_observation_refs == DEFAULT_MAX_OBSERVATION_REFS,
            r.max_groups == DEFAULT_MAX_GROUPS,
            r.max_snapshots == DEFAULT_MAX_SNAPSHOTS,
            r.max_snapshot_id_bytes == DEFAULT_MAX_SNAPSHOT_ID_BYTES,
    {
        ProblemIndexLimits {
            max_events: DEFAULT_MAX_EVENTS,
            max_observation_refs: DEFAULT_MAX_OBSERVATION_REFS,
            max_groups: DEFAULT_MAX_GROUPS,
            max_snapshots: DEFAULT_MAX_SNAPSHOTS,
            snapshot_ttl: duration_from_secs(DEFAULT_SNAPSHOT_TTL_SECS),
            max_snapshot_id_bytes: DEFAULT_MAX_SNAPSHOT_ID_BYTES,
        }
    }
}

#[derive(Debug, Clone, Copy, PartialEq, Eq)]
pub enum ProblemIndexLimitsError {
    ExceedsStructuralCap(&'static str),
    SnapshotCountMustBePositive,
    SnapshotTtlMustBePositive,
}

/// The default time-to-live in nanoseconds.
pub open spec fn spec_default_ttl_nanos() -> int {
    DEFAULT_SNAPSHOT_TTL_SECS as u128 * 1_000_000_000
}

/// Which check, if any, limits with a time-to-live of `ttl_nanos` fail: the first structural
/// cap exceeded, then a zero snapshot count, then a zero time-to-live.
pub open spec fn spec_limits_error(limits: ProblemIndexLimits, ttl_nanos: u128) -> Option<Seq<char>> {
    if limits.max_events > DEFAULT_MAX_EVENTS {
        Some("max_events"@)
    } else if limits.max_observation_refs > DEFAULT_MAX_OBSERVATION_REFS {
        Some("max_observation_refs"@)
    } else if limits.max_groups > DEFAULT_MAX_GROUPS {
        Some("max_groups"@)
    } else if limits.max_snapshots > DEFAULT_MAX_SNAPSHOTS {
        Some("max_snapshots"@)
    } else if limits.max_snapshot_id_bytes > DEFAULT_MAX_SNAPSHOT_ID_BYTES {
        Some("max_snapshot_id_bytes"@)
    } else if ttl_nanos > spec_default_ttl_nanos() {
        Some("snapshot_ttl"@)
    } else {
        None
    }
}

/// What checking `limits` with a time-to-live of `ttl_nanos` nanoseconds gives: the first
/// exceeded cap, else a zero snapshot count, else a zero time-to-live, else the limits.
pub open spec fn spec_validation(limits: ProblemIndexLimits, ttl_nanos: u128, r: Result<ProblemIndexLimits, ProblemIndexLimitsError>) -> bool {
    &&& spec_limits_error(limits, ttl_nanos) is Some ==> (r matches Err(ProblemIndexLimitsError::ExceedsStructuralCap(n))
        && n@ == spec_limits_error(limits, ttl_nanos)->0)
    &&& spec_limits_error(limits, ttl_nanos) is None && limits.max_snapshots == 0 ==> r == Err::<
        ProblemIndexLimits,
        ProblemIndexLimitsError,
    >(ProblemIndexLimitsError::SnapshotCountMustBePositive)
    &&& spec_limits_error(limits, ttl_nanos) is None && limits.max_snapshots > 0 && ttl_nanos == 0 ==> r == Err::<
        ProblemIndexLimits,
        ProblemIndexLimitsError,
    >(ProblemIndexLimitsError::SnapshotTtlMustBePositive)
    &&& spec_limits_error(limits, ttl_nanos) is None && limits.max_snapshots > 0 && ttl_nanos > 0 ==> r == Ok::<
        ProblemIndexLimits,
        ProblemIndexLimitsError,
    >(limits)
}

impl ProblemIndexLimits {
    /// Checks limits whose time-to-live lasts `ttl_nanos` nanoseconds.
    pub fn validate_with_ttl_nanos(self, ttl_nanos: u128) -> (r: Result<Self, ProblemIndexLimitsError>)
        ensures
            spec_limits_error(self, ttl_nanos) is Some ==> (r matches Err(
                ProblemIndexLimitsError::ExceedsStructuralCap(n),
            ) && n@ == spec_limits_error(self, ttl_nanos)->0),
            spec_limits_error(self, ttl_nanos) is None && self.max_snapshots == 0 ==> r == Err::<Self, ProblemIndexLimitsError>(
                ProblemIndexLimitsError::SnapshotCountMustBePositive,
            ),
            spec_limits_error(self, ttl_nanos) is None && self.max_snapshots > 0 && ttl_nanos == 0 ==> r == Err::<
                Self,
                ProblemIndexLimitsError,
            >(ProblemIndexLimitsError::SnapshotTtlMustBePositive),
            spec_limits_error(self, ttl_nanos) is None && self.max_snapshots > 0 && ttl_nanos > 0 ==> r == Ok::<
                Self,
                ProblemIndexLimitsError,
            >(self),
    {
        proof {
            reveal_strlit("max_events");
            reveal_strlit("max_observation_refs");
            reveal_strlit("max_groups");
            reveal_strlit("max_snapshots");
            reveal_strlit("max_snapshot_id_bytes");
            reveal_strlit("snapshot_ttl");
        }
        if self.max_events > DEFAULT_MAX_EVENTS {
            return Err(ProblemIndexLimitsError::ExceedsStructuralCap("max_events"));
        }
        if self.max_observation_refs > DEFAULT_MAX_OBSERVATION_REFS {
            return Err(ProblemIndexLimitsError::ExceedsStructuralCap("max_observation_refs"));
        }
        if self.max_groups > DEFAULT_MAX_GROUPS {
            return Err(ProblemIndexLimitsError::ExceedsStructuralCap("max_groups"));
        }
        if self.max_snapshots > DEFAULT_MAX_SNAPSHOTS {
            return Err(ProblemIndexLimitsError::ExceedsStructuralCap("max_snapshots"));
        }
        if self.max_snapshot_id_bytes > DEFAULT_MAX_SNAPSHOT_ID_BYTES {
            return Err(ProblemIndexLimitsError::ExceedsStructuralCap("max_snapshot_id_bytes"));
        }
        if ttl_nanos > DEFAULT_SNAPSHOT_TTL_SECS as u128 * 1_000_000_000 {
            return Err(ProblemIndexLimitsError::ExceedsStructuralCap("snapshot_ttl"));
        }
        if self.max_snapshots == 0 {
            return Err(ProblemIndexLimitsError::SnapshotCountMustBePositive);
        }
        if ttl_nanos == 0 {
            return Err(ProblemIndexLimitsError::SnapshotTtlMustBePositive);
        }
        Ok(self)
    }

    /// Checks the limits against the structural caps, reading the time-to-live's length: the
    /// result is the check of the limits with that length in nanoseconds.
    fn validate(self) -> (r: Result<Self, ProblemIndexLimitsError>)
        ensures
            exists|ttl_nanos: u128| #[trigger] spec_validation(self, ttl_nanos, r),
            r matches Ok(l) ==> (l == self && self.max_events <= DEFAULT_MAX_EVENTS
                && self.max_observation_refs <= DEFAULT_MAX_OBSERVATION_REFS && self.max_groups <= DEFAULT_MAX_GROUPS
                && 0 < self.max_snapshots <= DEFAULT_MAX_SNAPSHOTS
                && self.max_snapshot_id_bytes <= DEFAULT_MAX_SNAPSHOT_ID_BYTES),
    {
        let ttl_nanos = duration_nanos(self.snapshot_ttl);
        let r = self.validate_with_ttl_nanos(ttl_nanos);
        proof {
            assert(spec_validation(self, ttl_nanos, r));
        }
        r
    }
}

#[derive(Debug, Clone, Copy, PartialEq, Eq, Hash, PartialOrd, Ord, Structural)]
pub struct GroupId(pub u32);

impl GroupId {
    pub fn raw(self) -> (r: u32)
        ensures
            r == self.0,
    {
        self.0
    }
}

#[derive(Debug, Clone, Copy, PartialEq, Eq, Hash)]
pub struct GroupKey {
    kind: ProblemKind,
    fingerprint_version: u16,
    signature_quality: SignatureQuality,
    identity_quality: IdentityQuality,
    fingerprint: ProblemFingerprint,
}

/// The abstract value of a group key.
pub struct GroupKeyView {
    pub kind: ProblemKind,
    pub fingerprint_version: u16,
    pub signature_quality: SignatureQuality,
    pub identity_quality: IdentityQuality,
    pub fingerprint: Seq<u8>,
}

impl View for GroupKey {
    type V = GroupKeyView;

    closed spec fn view(&self) -> GroupKeyView {
        GroupKeyView {
            kind: self.kind,
            fingerprint_version: self.fingerprint_version,
            signature_quality: self.signature_quality,
            identity_quality: self.identity_quality,
            fingerprint: self.fingerprint.spec_bytes(),
        }
    }
}

impl GroupKey {
    pub fn new(
        kind: ProblemKind,
        fingerprint_version: u16,
        signature_quality: SignatureQuality,
        identity_quality: IdentityQuality,
        fingerprint: ProblemFingerprint,
    ) -> (r: Self)
        ensures
            r@ == (GroupKeyView {
                kind,
                fingerprint_version,
                signature_quality,
                identity_quality,
                fingerprint: fingerprint.spec_bytes(),
            }),
    {
        GroupKey { kind, fingerprint_version, signature_quality, identity_quality, fingerprint }
    }

    pub fn kind(self) -> (r: ProblemKind)
        ensures
            r == self@.kind,
    {
        self.kind
    }

    pub fn fingerprint_version(self) -> (r: u16)
        ensures
            r == self@.fingerprint_version,
    {
        self.fingerprint_version
    }

    pub fn signature_quality(self) -> (r: SignatureQuality)
        ensures
            r == self@.signature_quality,
    {
        self.signature_quality
    }

    pub fn identity_quality(self) -> (r: IdentityQuality)
        ensures
            r == self@.identity_quality,
    {
        self.identity_quality
    }

    pub fn fingerprint(self) -> (r: ProblemFingerprint)
        ensures
            r.spec_bytes() == self@.fingerprint,
    {
        self.fingerprint
    }

    /// Whether two keys name the same group.
    pub fn same_as(&self, other: &GroupKey) -> (r: bool)
        ensures
            r == (self@ == other@),
    {
        if self.kind != other.kind || self.fingerprint_version != other.fingerprint_version
            || self.signature_quality != other.signature_quality || self.identity_quality != other.identity_quality {
            return false;
        }
        let a = self.fingerprint.as_bytes();
        let b = other.fingerprint.as_bytes();
        assert(a@ == self@.fingerprint && b@ == other@.fingerprint);
        let mut i: usize = 0;
        while i < 16
            invariant
                0 <= i <= 16,
                a@.len() == 16,
                b@.len() == 16,
                a@ == self@.fingerprint,
                b@ == other@.fingerprint,
                forall|k: int| 0 <= k < i ==> a@[k] == b@[k],
            decreases 16 - i,
        {
            if a[i] != b[i] {
                proof {
                    assert(self@.fingerprint[i as int] != other@.fingerprint[i as int]);
                }
                return false;
            }
            i = i + 1;
        }
        proof {
            assert(a@ =~= b@);
        }
        true
    }
}

#[derive(Debug, Clone, Copy, PartialEq, Eq)]
pub struct ProblemGroupSummary {
    pub id: GroupId,
    pub key: GroupKey,
    pub observed_occurrence_count: u64,
    pub stored_occurrence_count: u64,
    pub dropped_occurrence_count: u64,
    pub first_observed_line: u32,
    pub first_observed_timestamp: PackedLogTimestamp,
    pub last_observed_line: u32,
    pub last_observed_timestamp: PackedLogTimestamp,
    pub first_stored_event_id: Option<ProblemEventId>,
    pub last_stored_event_id: Option<ProblemEventId>,
    pub representative_stored_event_id: Option<ProblemEventId>,
}

#[derive(Debug, Clone, Copy, PartialEq, Eq, Structural)]
pub struct ProblemStats {
    pub observed_occurrence_count: u64,
    pub stored_occurrence_count: u64,
    pub dropped_occurrence_count: u64,
    pub stored_group_count: u32,
    pub ungrouped_dropped_occurrence_count: u64,
    pub revision: u64,
    pub limited: bool,
}

/// Statistics of an index that has seen nothing.
pub open spec fn spec_zero_stats() -> ProblemStats {
    ProblemStats {
        observed_occurrence_count: 0,
        stored_occurrence_count: 0,
        dropped_occurrence_count: 0,
        stored_group_count: 0,
        ungrouped_dropped_occurrence_count: 0,
        revision: 0,
        limited: false,
    }
}

impl Default for ProblemStats {
    fn default() -> (r: Self)
        ensures
            r == (ProblemStats {
                observed_occurrence_count: 0,
                stored_occurrence_count: 0,
                dropped_occurrence_count: 0,
                stored_group_count: 0,
                ungrouped_dropped_occurrence_count: 0,
                revision: 0,
                limited: false,
            }),
    {
        ProblemStats {
            observed_occurrence_count: 0,
            stored_occurrence_count: 0,
            dropped_occurrence_count: 0,
            stored_group_count: 0,
            ungrouped_dropped_occurrence_count: 0,
            revision: 0,
            limited: false,
        }
    }
}

#[derive(Debug, Clone, Copy, PartialEq, Eq, Structural)]
pub enum AppendDropReason {
    EventLimit,
    ObservationRefLimit,
    GroupLimit,
    Allocation,
}

#[derive(Debug, Clone, Copy, PartialEq, Eq, Structural)]
pub enum AppendOutcome {
    Stored { event_id: ProblemEventId, group_id: GroupId, created_group: bool },
    Dropped { group_id: Option<GroupId>, reason: AppendDropReason },
}

#[derive(Debug, Clone, Copy, PartialEq, Eq)]
pub enum ProblemIndexError {
    InvalidLimits(ProblemIndexLimitsError),
    InvalidEvent(ProblemEventError),
    GroupKindMismatch { event_kind: ProblemKind, group_kind: ProblemKind },
    PreparationAllocation,
}

#[derive(Debug, Clone, Copy, PartialEq, Eq, Hash, PartialOrd, Ord, Structural)]
pub struct QuerySnapshotId(pub u64);

impl QuerySnapshotId {
    pub fn raw(self) -> (r: u64)
        ensures
            r == self.0,
    {
        self.0
    }
}

#[derive(Debug, Default, Clone, Copy, PartialEq, Eq, Structural)]
pub enum GroupSort {
    #[default]
    LastOccurrenceDesc,
    FirstOccurrenceAsc,
    ObservedCountDesc,
}

#[derive(Debug, Default, Clone, Copy, PartialEq, Eq, Structural)]
pub struct GroupQuery {
    pub kind: Option<ProblemKind>,
    pub sort: GroupSort,
}

#[derive(Debug, Clone, Copy, PartialEq, Eq, Structural)]
pub enum PageSpecError {
    EmptyPage,
    PageTooLarge,
}

/// The largest page a query may ask for.
pub const PAGE_MAX_LIMIT: usize = 200;

#[derive(Debug, Clone, Copy, PartialEq, Eq, Structural)]
pub struct PageSpec {
    offset: usize,
    limit: usize,
}

impl PageSpec {
    pub closed spec fn spec_offset(self) -> usize {
        self.offset
    }

    pub closed spec fn spec_limit(self) -> usize {
        self.limit
    }

    /// Every page holds between one and `PAGE_MAX_LIMIT` items.
    pub closed spec fn wf(self) -> bool {
        1 <= self.limit <= PAGE_MAX_LIMIT
    }

    #[allow(non_snake_case)]
    pub fn MAX_LIMIT() -> (r: usize)
        ensures
            r == PAGE_MAX_LIMIT,
    {
        PAGE_MAX_LIMIT
    }

    pub fn new(offset: usize, limit: usize) -> (r: Result<Self, PageSpecError>)
        ensures
            limit == 0 ==> r == Err::<Self, PageSpecError>(PageSpecError::EmptyPage),
            limit > PAGE_MAX_LIMIT ==> r == Err::<Self, PageSpecError>(PageSpecError::PageTooLarge),
            1 <= limit <= PAGE_MAX_LIMIT ==> (r matches Ok(p) && p.spec_offset() == offset && p.spec_limit() == limit
                && p.wf()),
    {
        if limit == 0 {
            return Err(PageSpecError::EmptyPage);
        }
        if limit > PAGE_MAX_LIMIT {
            return Err(PageSpecError::PageTooLarge);
        }
        Ok(PageSpec { offset, limit })
    }

    pub fn offset(self) -> (r: usize)
        ensures
            r == self.spec_offset(),
    {
        self.offset
    }

    pub fn limit(self) -> (r: usize)
        ensures
            r == self.spec_limit(),
    {
        self.limit
    }
}

#[derive(Debug, Clone, PartialEq, Eq)]
pub struct GroupPage {
    pub snapshot_id: QuerySnapshotId,
    pub revision: u64,
    pub total: usize,
    pub items: Vec<ProblemGroupSummary>,
    pub next_offset: Option<usize>,
}

#[derive(Debug, Clone, PartialEq, Eq)]
pub struct OccurrencePage {
    pub snapshot_id: QuerySnapshotId,
    pub revision: u64,
    pub total: usize,
    pub items: Vec<ProblemEventId>,
    pub next_offset: Option<usize>,
}

#[derive(Debug, Clone, Copy, PartialEq, Eq, Structural)]
pub enum SnapshotError {
    GroupNotFound,
    NotFound,
    Expired,
    Evicted,
    Released,
    Reset,
    WrongKind,
    IdVectorLimit,
    Allocation,
    IdExhausted,
}

/// The reasons a snapshot is retired for.
pub open spec fn spec_retirement_reason(e: SnapshotError) -> bool {
    e == SnapshotError::Expired || e == SnapshotError::Evicted || e == SnapshotError::Released || e == SnapshotError::Reset
}

/// Two candidates describe the same observation: the same line, rule and role.
pub open spec fn spec_same_observation(a: ObservationCandidate, b: ObservationCandidate) -> bool {
    &&& a.reference.spec_line() == b.reference.spec_line()
    &&& a.reference.spec_rule() == b.reference.spec_rule()
    &&& a.reference.spec_role() == b.reference.spec_role()
}

/// The last index of an adopted candidate that describes the same observation as `c`.
pub open spec fn spec_adopted_index(u: Seq<(ObservationCandidate, usize)>, c: ObservationCandidate) -> Option<int>
    decreases u.len(),
{
    if u.len() == 0 {
        None
    } else if spec_same_observation(u.last().0, c) {
        Some(u.len() - 1)
    } else {
        spec_adopted_index(u.drop_last(), c)
    }
}

/// The candidates adopted from `c`, each with the position where its observation first
/// appeared: one per observation, the one of the best priority (the first among equals),
/// at most `MAX_ADOPTED_OBSERVATIONS` of them; and whether an observation was left out.
pub open spec fn spec_adopt(c: Seq<ObservationCandidate>) -> (Seq<(ObservationCandidate, usize)>, bool)
    decreases c.len(),
{
    if c.len() == 0 {
        (Seq::empty(), false)
    } else {
        let (u, limited) = spec_adopt(c.drop_last());
        let x = c.last();
        match spec_adopted_index(u, x) {
            Some(j) => if x.priority.spec_rank() < u[j].0.priority.spec_rank() {
                (u.update(j, (x, u[j].1)), limited)
            } else {
                (u, limited)
            },
            None => if u.len() == MAX_ADOPTED_OBSERVATIONS {
                (u, true)
            } else {
                (u.push((x, (c.len() - 1) as usize)), limited)
            },
        }
    }
}

/// `a` sorts no later than `b`: better priority first, then earlier first appearance.
pub open spec fn spec_adopted_le(a: (ObservationCandidate, usize), b: (ObservationCandidate, usize)) -> bool {
    a.0.priority.spec_rank() < b.0.priority.spec_rank() || (a.0.priority.spec_rank() == b.0.priority.spec_rank()
        && a.1 <= b.1)
}

/// `s` is in adopted order.
pub open spec fn spec_adopted_sorted(s: Seq<(ObservationCandidate, usize)>) -> bool {
    forall|i: int, j: int| 0 <= i < j < s.len() ==> spec_adopted_le(#[trigger] s[i], #[trigger] s[j])
}

/// The observations selected from `candidates`: the adopted ones in priority order, the
/// first `MAX_MATERIALIZED_OBSERVATIONS` of them materialized.
pub struct SelectedObservations {
    pub materialized: Vec<ObservationRef>,
    pub total: u16,
    pub count_limited: bool,
    pub sorted: Vec<(ObservationCandidate, usize)>,
}

/// Selecting from `c` gave `sel`.
pub open spec fn spec_selected(c: Seq<ObservationCandidate>, sel: SelectedObservations) -> bool {
    let (u, limited) = spec_adopt(c);
    let s = sel.sorted@;
    &&& s.to_multiset() == u.to_multiset()
    &&& s.len() == u.len()
    &&& spec_adopted_sorted(s)
    &&& sel.total == u.len()
    &&& sel.count_limited == limited
    &&& sel.materialized@.len() == (if s.len() < MAX_MATERIALIZED_OBSERVATIONS { s.len() } else { MAX_MATERIALIZED_OBSERVATIONS as nat })
    &&& forall|i: int| 0 <= i < sel.materialized@.len() ==> sel.materialized@[i] == (#[trigger] s[i]).0.reference
}

pub proof fn lemma_adopt_bounds(c: Seq<ObservationCandidate>)
    ensures
        spec_adopt(c).0.len() <= MAX_ADOPTED_OBSERVATIONS,
        spec_adopt(c).0.len() <= c.len(),
        forall|i: int| 0 <= i < spec_adopt(c).0.len() ==> (#[trigger] spec_adopt(c).0[i]).1 < c.len(),
    decreases c.len(),
{
    if c.len() > 0 {
        lemma_adopt_bounds(c.drop_last());
        let (u, limited) = spec_adopt(c.drop_last());
        match spec_adopted_index(u, c.last()) {
            Some(j) => {
                lemma_adopted_index_bounds(u, c.last());
            },
            None => {},
        }
    }
}

pub proof fn lemma_adopted_index_bounds(u: Seq<(ObservationCandidate, usize)>, c: ObservationCandidate)
    ensures
        spec_adopted_index(u, c) matches Some(j) ==> 0 <= j < u.len() && spec_same_observation(u[j].0, c),
    decreases u.len(),
{
    if u.len() > 0 && !spec_same_observation(u.last().0, c) {
        lemma_adopted_index_bounds(u.drop_last(), c);
    }
}

/// The last index of an adopted candidate that describes the same observation as `c`.
fn adopted_index(u: &Vec<(ObservationCandidate, usize)>, c: ObservationCandidate) -> (r: Option<usize>)
    ensures
        match spec_adopted_index(u@, c) {
            Some(j) => r == Some(j as usize),
            None => r is None,
        },
{
    let ghost g = u@;
    let mut j = u.len();
    proof {
        assert(g.take(j as int) =~= g);
    }
    while j > 0
        invariant
            0 <= j <= u@.len(),
            g == u@,
            spec_adopted_index(g, c) == spec_adopted_index(g.take(j as int), c),
        decreases j,
    {
        let k = j - 1;
        let cand = u[k].0;
        proof {
            assert(g.take(j as int).drop_last() =~= g.take(k as int));
            assert(g.take(j as int).last() == g[k as int]);
        }
        let a = cand.reference.dedup_key();
        let b = c.reference.dedup_key();
        if a.0 == b.0 && a.1 == b.1 && a.2 == b.2 {
            return Some(k);
        }
        j = k;
    }
    proof {
        assert(g.take(0) =~= Seq::<(ObservationCandidate, usize)>::empty());
    }
    None
}

/// Adopts candidates one by one, as `spec_adopt` describes.
fn adopt(candidates: &[ObservationCandidate]) -> (r: (Vec<(ObservationCandidate, usize)>, bool))
    ensures
        r.0@ == spec_adopt(candidates@).0,
        r.1 == spec_adopt(candidates@).1,
{
    let mut unique: Vec<(ObservationCandidate, usize)> = Vec::new();
    let mut limited = false;
    let mut i: usize = 0;
    proof {
        assert(candidates@.take(0) =~= Seq::<ObservationCandidate>::empty());
    }
    while i < candidates.len()
        invariant
            0 <= i <= candidates@.len(),
            unique@ == spec_adopt(candidates@.take(i as int)).0,
            limited == spec_adopt(candidates@.take(i as int)).1,
        decreases candidates@.len() - i,
    {
        let x = candidates[i];
        proof {
            let t = candidates@.take(i + 1);
            assert(t.drop_last() =~= candidates@.take(i as int));
            assert(t.last() == x);
            lemma_adopted_index_bounds(unique@, x);
            lemma_adopt_bounds(candidates@.take(i as int));
        }
        match adopted_index(&unique, x) {
            Some(j) => {
                let existing = unique[j];
                if x.priority.rank() < existing.0.priority.rank() {
                    unique.set(j, (x, existing.1));
                }
            },
            None => {
                if unique.len() == 4096 {
                    limited = true;
                } else {
                    unique.push((x, i));
                }
            },
        }
        i = i + 1;
    }
    proof {
        assert(candidates@.take(candidates@.len() as int) =~= candidates@);
    }
    (unique, limited)
}

/// Whether `a` sorts no later than `b`.
fn adopted_le(a: (ObservationCandidate, usize), b: (ObservationCandidate, usize)) -> (r: bool)
    ensures
        r == spec_adopted_le(a, b),
{
    let ra = a.0.priority.rank();
    let rb = b.0.priority.rank();
    ra < rb || (ra == rb && a.1 <= b.1)
}

/// Sorts adopted candidates by priority, then first appearance.
fn sort_adopted(u: &Vec<(ObservationCandidate, usize)>) -> (r: Vec<(ObservationCandidate, usize)>)
    ensures
        r@.to_multiset() == u@.to_multiset(),
        r@.len() == u@.len(),
        spec_adopted_sorted(r@),
{
    let mut sorted: Vec<(ObservationCandidate, usize)> = Vec::new();
    let mut i: usize = 0;
    proof {
        assert(u@.take(0) =~= sorted@);
    }
    while i < u.len()
        invariant
            0 <= i <= u@.len(),
            sorted@.to_multiset() == u@.take(i as int).to_multiset(),
            sorted@.len() == i,
            spec_adopted_sorted(sorted@),
        decreases u@.len() - i,
    {
        let x = u[i];
        let mut p: usize = 0;
        while p < sorted.len() && adopted_le(sorted[p], x)
            invariant
                0 <= p <= sorted@.len(),
                forall|k: int| 0 <= k < p ==> spec_adopted_le(#[trigger] sorted@[k], x),
            decreases sorted@.len() - p,
        {
            p = p + 1;
        }
        let ghost s0 = sorted@;
        proof {
            vstd::seq_lib::to_multiset_insert(s0, p as int, x);
            assert(u@.take(i + 1) =~= u@.take(i as int).push(x));
            u@.take(i as int).to_multiset_ensures();
            assert(u@.take(i as int).push(x).to_multiset() =~= u@.take(i as int).to_multiset().insert(x));
        }
        sorted.insert(p, x);
        proof {
            let s1 = sorted@;
            assert(s1 == s0.insert(p as int, x));
            assert forall|a: int, b: int| 0 <= a < b < s1.len() implies spec_adopted_le(#[trigger] s1[a], #[trigger] s1[b]) by {
                if a < p && b < p {
                    assert(s1[a] == s0[a] && s1[b] == s0[b]);
                } else if a < p && b == p {
                    assert(s1[a] == s0[a]);
                } else if a < p && b > p {
                    assert(s1[a] == s0[a] && s1[b] == s0[b - 1]);
                    assert(spec_adopted_le(s0[a], s0[p as int]));
                } else if a == p {
                    assert(s1[b] == s0[b - 1]);
                    assert(!spec_adopted_le(s0[p as int], x));
                    assert(spec_adopted_le(s0[p as int], s0[b - 1]) || p == b - 1);
                } else {
                    assert(s1[a] == s0[a - 1] && s1[b] == s0[b - 1]);
                }
            }
        }
        i = i + 1;
    }
    proof {
        assert(u@.take(u@.len() as int) =~= u@);
    }
    sorted
}

/// Adopts and orders the candidates of one occurrence.
pub fn select_observations(candidates: &[ObservationCandidate]) -> (r: SelectedObservations)
    ensures
        spec_selected(candidates@, r),
{
    let (unique, count_limited) = adopt(candidates);
    proof {
        lemma_adopt_bounds(candidates@);
    }
    let sorted = sort_adopted(&unique);
    let mut materialized: Vec<ObservationRef> = Vec::new();
    let mut i: usize = 0;
    while i < sorted.len() && i < 8
        invariant
            0 <= i <= sorted@.len(),
            i <= 8,
            materialized@.len() == i,
            forall|k: int| 0 <= k < i ==> materialized@[k] == (#[trigger] sorted@[k]).0.reference,
        decreases sorted@.len() - i,
    {
        materialized.push(sorted[i].0.reference);
        i = i + 1;
    }
    let total = unique.len() as u16;
    SelectedObservations { materialized, total, count_limited, sorted }
}


/// Appends `items` to `out`.
fn push_all<T: Copy>(out: &mut Vec<T>, items: &Vec<T>)
    ensures
        final(out)@ == old(out)@ + items@,
{
    let ghost start = out@;
    let mut k: usize = 0;
    while k < items.len()
        invariant
            0 <= k <= items@.len(),
            out@ == start + items@.take(k as int),
        decreases items@.len() - k,
    {
        out.push(items[k]);
        proof {
            assert(items@.take(k + 1) =~= items@.take(k as int).push(items@[k as int]));
        }
        k = k + 1;
    }
    proof {
        assert(items@.take(items@.len() as int) =~= items@);
    }
}

/// Tries to make `v`'s capacity at least its length plus `additional` with
/// `Vec::try_reserve_exact`; `false` when the allocator refuses. The contents stay as they were.
#[verifier::external_body]
fn vec_try_reserve_exact<T>(v: &mut Vec<T>, additional: usize) -> (r: bool)
    ensures
        final(v)@ == old(v)@,
{
    v.try_reserve_exact(additional).is_ok()
}

/// `v`'s capacity, by `Vec::capacity`; it is never below the length.
#[verifier::external_body]
fn vec_capacity<T>(v: &Vec<T>) -> (r: usize)
    ensures
        r >= v@.len(),
{
    v.capacity()
}

/// The abstract value of a stored group.
pub struct GroupView {
    pub summary: ProblemGroupSummary,
    pub event_ids: Seq<ProblemEventId>,
    pub first_stored_line: u32,
    pub last_stored_line: u32,
}

/// A group created by the occurrence `draft` stored as `event_id`.
pub open spec fn spec_new_group(id: GroupId, key: GroupKey, draft: ProblemEventDraft, event_id: ProblemEventId) -> GroupView {
    GroupView {
        summary: ProblemGroupSummary {
            id,
            key,
            observed_occurrence_count: 1,
            stored_occurrence_count: 1,
            dropped_occurrence_count: 0,
            first_observed_line: draft.anchor_line,
            first_observed_timestamp: draft.anchor_timestamp,
            last_observed_line: draft.anchor_line,
            last_observed_timestamp: draft.anchor_timestamp,
            first_stored_event_id: Some(event_id),
            last_stored_event_id: Some(event_id),
            representative_stored_event_id: Some(event_id),
        },
        event_ids: seq![event_id],
        first_stored_line: draft.anchor_line,
        last_stored_line: draft.anchor_line,
    }
}

/// `n + 1`, stopping at `u64::MAX`.
pub open spec fn spec_inc(n: u64) -> u64 {
    if n == u64::MAX { n } else { (n + 1) as u64 }
}

/// A group that saw one more occurrence: its count grows, and the earliest and latest
/// observed source lines move to the occurrence's anchor when it lies outside them.
pub open spec fn spec_record_observed(g: GroupView, draft: ProblemEventDraft) -> GroupView {
    let s = g.summary;
    let first = draft.anchor_line < s.first_observed_line;
    let last = draft.anchor_line > s.last_observed_line;
    GroupView {
        summary: ProblemGroupSummary {
            observed_occurrence_count: spec_inc(s.observed_occurrence_count),
            first_observed_line: if first { draft.anchor_line } else { s.first_observed_line },
            first_observed_timestamp: if first { draft.anchor_timestamp } else { s.first_observed_timestamp },
            last_observed_line: if last { draft.anchor_line } else { s.last_observed_line },
            last_observed_timestamp: if last { draft.anchor_timestamp } else { s.last_observed_timestamp },
            ..s
        },
        ..g
    }
}

/// A group that lost one occurrence to a limit.
pub open spec fn spec_record_dropped(g: GroupView) -> GroupView {
    GroupView {
        summary: ProblemGroupSummary {
            dropped_occurrence_count: spec_inc(g.summary.dropped_occurrence_count),
            ..g.summary
        },
        ..g
    }
}

/// A group that stored one more occurrence as `event_id`: the earliest and latest stored
/// events follow source lines, and the event joins the group's members.
pub open spec fn spec_record_stored(g: GroupView, draft: ProblemEventDraft, event_id: ProblemEventId) -> GroupView {
    let first = draft.anchor_line < g.first_stored_line;
    let last = draft.anchor_line > g.last_stored_line;
    GroupView {
        summary: ProblemGroupSummary {
            stored_occurrence_count: spec_inc(g.summary.stored_occurrence_count),
            first_stored_event_id: if first { Some(event_id) } else { g.summary.first_stored_event_id },
            last_stored_event_id: if last { Some(event_id) } else { g.summary.last_stored_event_id },
            ..g.summary
        },
        event_ids: g.event_ids.push(event_id),
        first_stored_line: if first { draft.anchor_line } else { g.first_stored_line },
        last_stored_line: if last { draft.anchor_line } else { g.last_stored_line },
    }
}

struct ProblemGroup {
    summary: ProblemGroupSummary,
    event_ids: Vec<ProblemEventId>,
    first_stored_line: u32,
    last_stored_line: u32,
}

impl View for ProblemGroup {
    type V = GroupView;

    closed spec fn view(&self) -> GroupView {
        GroupView {
            summary: self.summary,
            event_ids: self.event_ids@,
            first_stored_line: self.first_stored_line,
            last_stored_line: self.last_stored_line,
        }
    }
}

impl ProblemGroup {
    fn new(id: GroupId, key: GroupKey, draft: ProblemEventDraft, event_id: ProblemEventId, event_ids: Vec<ProblemEventId>) -> (r: Self)
        requires
            event_ids@ == seq![event_id],
        ensures
            r@ == spec_new_group(id, key, draft, event_id),
    {
        ProblemGroup {
            summary: ProblemGroupSummary {
                id,
                key,
                observed_occurrence_count: 1,
                stored_occurrence_count: 1,
                dropped_occurrence_count: 0,
                first_observed_line: draft.anchor_line,
                first_observed_timestamp: draft.anchor_timestamp,
                last_observed_line: draft.anchor_line,
                last_observed_timestamp: draft.anchor_timestamp,
                first_stored_event_id: Some(event_id),
                last_stored_event_id: Some(event_id),
                representative_stored_event_id: Some(event_id),
            },
            event_ids,
            first_stored_line: draft.anchor_line,
            last_stored_line: draft.anchor_line,
        }
    }

    fn record_observed(&mut self, draft: ProblemEventDraft)
        ensures
            final(self)@ == spec_record_observed(old(self)@, draft),
    {
        self.summary.observed_occurrence_count = self.summary.observed_occurrence_count.saturating_add(1);
        if draft.anchor_line < self.summary.first_observed_line {
            self.summary.first_observed_line = draft.anchor_line;
            self.summary.first_observed_timestamp = draft.anchor_timestamp;
        }
        if draft.anchor_line > self.summary.last_observed_line {
            self.summary.last_observed_line = draft.anchor_line;
            self.summary.last_observed_timestamp = draft.anchor_timestamp;
        }
    }

    /// Makes room for one more member; `false` when the allocator refuses.
    fn reserve_member(&mut self) -> (r: bool)
        ensures
            final(self)@ == old(self)@,
    {
        self.event_ids.try_reserve(1).is_ok()
    }

    fn record_dropped(&mut self)
        ensures
            final(self)@ == spec_record_dropped(old(self)@),
    {
        self.summary.dropped_occurrence_count = self.summary.dropped_occurrence_count.saturating_add(1);
    }

    fn record_stored(&mut self, draft: ProblemEventDraft, event_id: ProblemEventId)
        ensures
            final(self)@ == spec_record_stored(old(self)@, draft, event_id),
    {
        self.summary.stored_occurrence_count = self.summary.stored_occurrence_count.saturating_add(1);
        if draft.anchor_line < self.first_stored_line {
            self.first_stored_line = draft.anchor_line;
            self.summary.first_stored_event_id = Some(event_id);
        }
        if draft.anchor_line > self.last_stored_line {
            self.last_stored_line = draft.anchor_line;
            self.summary.last_stored_event_id = Some(event_id);
        }
        self.event_ids.push(event_id);
    }
}

enum SnapshotData {
    Groups { ids: Vec<GroupId> },
    Occurrences { group_id: GroupId, frozen_len: usize, max_event_id: Option<ProblemEventId> },
}

/// The view of a snapshot with `data`.
spec fn spec_data_view(data: SnapshotData, id: u64, revision: u64, id_bytes: usize) -> SnapshotView {
    SnapshotView {
        id: QuerySnapshotId(id),
        revision,
        id_bytes,
        group_ids: match data {
            SnapshotData::Groups { ids } => Some(ids@),
            SnapshotData::Occurrences { .. } => None,
        },
        occurrences: match data {
            SnapshotData::Groups { .. } => None,
            SnapshotData::Occurrences { group_id, frozen_len, .. } => Some((group_id, frozen_len)),
        },
    }
}

struct QuerySnapshot {
    id: QuerySnapshotId,
    revision: u64,
    last_access: Instant,
    id_bytes: usize,
    data: SnapshotData,
}

/// The id bytes held by `s`.
pub open spec fn spec_snapshot_bytes(s: Seq<usize>) -> int
    decreases s.len(),
{
    if s.len() == 0 { 0 } else { spec_snapshot_bytes(s.drop_last()) + s.last() }
}

pub proof fn lemma_snapshot_bytes_remove(s: Seq<usize>, i: int)
    requires
        0 <= i < s.len(),
    ensures
        spec_snapshot_bytes(s.remove(i)) == spec_snapshot_bytes(s) - s[i],
        spec_snapshot_bytes(s) >= s[i],
    decreases s.len(),
{
    if i == s.len() - 1 {
        assert(s.remove(i) =~= s.drop_last());
        lemma_snapshot_bytes_nonneg(s.drop_last());
    } else {
        lemma_snapshot_bytes_remove(s.drop_last(), i);
        assert(s.remove(i).drop_last() =~= s.drop_last().remove(i));
        assert(s.remove(i).last() == s.last());
    }
}

pub proof fn lemma_snapshot_bytes_nonneg(s: Seq<usize>)
    ensures
        spec_snapshot_bytes(s) >= 0,
    decreases s.len(),
{
    if s.len() > 0 {
        lemma_snapshot_bytes_nonneg(s.drop_last());
    }
}

/// A snapshot refers only to the first `groups` groups.
pub open spec fn spec_snapshot_in_range(v: SnapshotView, groups: nat) -> bool {
    &&& (v.group_ids matches Some(ids) ==> forall|k: int| 0 <= k < ids.len() ==> (#[trigger] ids[k]).0 < groups)
    &&& (v.occurrences matches Some((g, _)) ==> g.0 < groups)
}

/// The abstract value of a query snapshot (its last access time aside).
pub struct SnapshotView {
    pub id: QuerySnapshotId,
    pub revision: u64,
    pub id_bytes: usize,
    pub group_ids: Option<Seq<GroupId>>,
    pub occurrences: Option<(GroupId, usize)>,
}

impl View for QuerySnapshot {
    type V = SnapshotView;

    closed spec fn view(&self) -> SnapshotView {
        SnapshotView {
            id: self.id,
            revision: self.revision,
            id_bytes: self.id_bytes,
            group_ids: match &self.data {
                SnapshotData::Groups { ids } => Some(ids@),
                SnapshotData::Occurrences { .. } => None,
            },
            occurrences: match &self.data {
                SnapshotData::Groups { .. } => None,
                SnapshotData::Occurrences { group_id, frozen_len, .. } => Some((*group_id, *frozen_len)),
            },
        }
    }
}

/// The draft an occurrence is stored with: its boundary also records that adopted
/// observations were capped and that not all of them were materialized.
pub open spec fn spec_bounded_draft(draft: ProblemEventDraft, c: Seq<ObservationCandidate>) -> ProblemEventDraft {
    let (u, limited) = spec_adopt(c);
    let b1 = if limited { draft.boundary.0 | 4u8 } else { draft.boundary.0 };
    let b2 = if u.len() > MAX_MATERIALIZED_OBSERVATIONS { b1 | 2u8 } else { b1 };
    ProblemEventDraft { boundary: BoundaryFlags(b2), ..draft }
}

/// The observation references an occurrence materializes from the candidates `c`, for some
/// order `s` of its adopted ones: the first `MAX_MATERIALIZED_OBSERVATIONS` of them.
pub open spec fn spec_materialized_from(c: Seq<ObservationCandidate>, s: Seq<(ObservationCandidate, usize)>) -> Seq<ObservationRef> {
    let m = if s.len() < MAX_MATERIALIZED_OBSERVATIONS { s.len() as int } else { MAX_MATERIALIZED_OBSERVATIONS as int };
    s.take(m).map_values(|x: (ObservationCandidate, usize)| x.0.reference)
}

/// `s` is the adopted candidates of `c`, in priority then first-appearance order.
pub open spec fn spec_adopted_order(c: Seq<ObservationCandidate>, s: Seq<(ObservationCandidate, usize)>) -> bool {
    &&& s.to_multiset() == spec_adopt(c).0.to_multiset()
    &&& s.len() == spec_adopt(c).0.len()
    &&& spec_adopted_sorted(s)
}

/// The index of the group with `key`.
pub open spec fn spec_group_index(groups: Seq<GroupView>, key: GroupKey) -> Option<int> {
    if exists|i: int| 0 <= i < groups.len() && (#[trigger] groups[i]).summary.key@ == key@ {
        Some(choose|i: int| 0 <= i < groups.len() && (#[trigger] groups[i]).summary.key@ == key@)
    } else {
        None
    }
}

/// The stored content of two indexes is the same.
pub open spec fn spec_content_unchanged(a: ProblemIndex, b: ProblemIndex) -> bool {
    &&& a.spec_events() == b.spec_events()
    &&& a.spec_refs() == b.spec_refs()
    &&& a.spec_groups() == b.spec_groups()
    &&& a.spec_stats() == b.spec_stats()
}

/// The limit, if any, that refuses to store an occurrence in a group (`None`: a new group)
/// with `m` materialized references.
pub open spec fn spec_drop_reason(o: ProblemIndex, existing: Option<int>, m: int) -> Option<AppendDropReason> {
    if existing is None && o.spec_groups().len() >= o.spec_limits().max_groups {
        Some(AppendDropReason::GroupLimit)
    } else if o.spec_events().len() >= o.spec_limits().max_events {
        Some(AppendDropReason::EventLimit)
    } else if o.spec_refs().len() + m > o.spec_limits().max_observation_refs {
        Some(AppendDropReason::ObservationRefLimit)
    } else {
        None
    }
}

/// What appending the occurrence `draft` of the group `key`, with candidates `c`, did to
/// `o`, giving `n` and `out`. The occurrence is counted as observed (and in its group, when
/// the group exists); then either a limit, or the allocator, refuses it and it is counted as
/// dropped, or it is stored as the next event, with the first references of its adopted
/// observations in priority order, in its group or in a new one.
pub open spec fn spec_appended(
    o: ProblemIndex,
    n: ProblemIndex,
    draft: ProblemEventDraft,
    key: GroupKey,
    c: Seq<ObservationCandidate>,
    out: AppendOutcome,
) -> bool {
    let d = spec_bounded_draft(draft, c);
    let u = spec_adopt(c).0;
    let m = if u.len() < MAX_MATERIALIZED_OBSERVATIONS { u.len() as int } else { MAX_MATERIALIZED_OBSERVATIONS as int };
    let existing = spec_group_index(o.spec_groups(), key);
    let st = ProblemStats {
        observed_occurrence_count: spec_inc(o.spec_stats().observed_occurrence_count),
        revision: spec_inc(o.spec_stats().revision),
        ..o.spec_stats()
    };
    let g1 = match existing {
        Some(i) => o.spec_groups().update(i, spec_record_observed(o.spec_groups()[i], d)),
        None => o.spec_groups(),
    };
    let reason = spec_drop_reason(o, existing, m);
    match out {
        AppendOutcome::Dropped { group_id, reason: why } => {
            &&& group_id == (match existing {
                Some(i) => Some(GroupId(i as u32)),
                None => None,
            })
            &&& why == (match reason {
                Some(x) => x,
                None => AppendDropReason::Allocation,
            })
            &&& n.spec_events() == o.spec_events()
            &&& n.spec_refs() == o.spec_refs()
            &&& n.spec_groups() == (match existing {
                Some(i) => g1.update(i, spec_record_dropped(g1[i])),
                None => g1,
            })
            &&& n.spec_stats() == (ProblemStats {
                dropped_occurrence_count: spec_inc(st.dropped_occurrence_count),
                ungrouped_dropped_occurrence_count: if existing is None {
                    spec_inc(st.ungrouped_dropped_occurrence_count)
                } else {
                    st.ungrouped_dropped_occurrence_count
                },
                limited: true,
                ..st
            })
        },
        AppendOutcome::Stored { event_id, group_id, created_group } => {
            let e = n.spec_events().last();
            &&& reason is None
            &&& event_id == ProblemEventId(o.spec_events().len() as u32)
            &&& created_group == (existing is None)
            &&& group_id == (match existing {
                Some(i) => GroupId(i as u32),
                None => GroupId(o.spec_groups().len() as u32),
            })
            &&& n.spec_events().len() == o.spec_events().len() + 1
            &&& n.spec_events().drop_last() == o.spec_events()
            &&& e.spec_draft() == d
            &&& e.spec_group_id() == group_id.0
            &&& e.spec_observation_start() == o.spec_refs().len()
            &&& e.spec_observation_len() == m
            &&& e.spec_observation_total() == u.len()
            &&& exists|s: Seq<(ObservationCandidate, usize)>| #[trigger] spec_adopted_order(c, s)
                && n.spec_refs() == o.spec_refs() + spec_materialized_from(c, s)
            &&& n.spec_groups() == (match existing {
                Some(i) => g1.update(i, spec_record_stored(g1[i], d, event_id)),
                None => g1.push(spec_new_group(group_id, key, d, event_id)),
            })
            &&& n.spec_stats() == (ProblemStats {
                stored_occurrence_count: spec_inc(st.stored_occurrence_count),
                stored_group_count: n.spec_groups().len() as u32,
                ..st
            })
        },
    }
}

/// Every occurrence an index observes it either stores or drops: while the counters do not
/// saturate, appending keeps the observed count equal to the stored plus the dropped, and
/// the stored count equal to the number of events.
pub proof fn lemma_append_accounts_for_every_occurrence(
    o: ProblemIndex,
    n: ProblemIndex,
    draft: ProblemEventDraft,
    key: GroupKey,
    c: Seq<ObservationCandidate>,
    out: AppendOutcome,
)
    requires
        spec_appended(o, n, draft, key, c, out),
        o.spec_stats().observed_occurrence_count == o.spec_stats().stored_occurrence_count
            + o.spec_stats().dropped_occurrence_count,
        o.spec_stats().stored_occurrence_count == o.spec_events().len(),
        o.spec_stats().observed_occurrence_count < u64::MAX,
    ensures
        n.spec_stats().observed_occurrence_count == n.spec_stats().stored_occurrence_count
            + n.spec_stats().dropped_occurrence_count,
        n.spec_stats().stored_occurrence_count == n.spec_events().len(),
        n.spec_stats().observed_occurrence_count == o.spec_stats().observed_occurrence_count + 1,
{
}

/// Whether `a` comes before `b` in a group listing sorted by `sort`.
pub open spec fn spec_group_before(sort: GroupSort, a: ProblemGroupSummary, b: ProblemGroupSummary) -> bool {
    match sort {
        GroupSort::LastOccurrenceDesc => a.last_observed_line > b.last_observed_line
            || (a.last_observed_line == b.last_observed_line && a.id.0 < b.id.0),
        GroupSort::FirstOccurrenceAsc => a.first_observed_line < b.first_observed_line
            || (a.first_observed_line == b.first_observed_line && a.id.0 < b.id.0),
        GroupSort::ObservedCountDesc => a.observed_occurrence_count > b.observed_occurrence_count
            || (a.observed_occurrence_count == b.observed_occurrence_count && (a.last_observed_line > b.last_observed_line
            || (a.last_observed_line == b.last_observed_line && a.id.0 < b.id.0))),
    }
}

/// The ids of the groups among the first `n` whose kind the query admits, in id order.
pub open spec fn spec_query_ids(groups: Seq<GroupView>, kind: Option<ProblemKind>, n: int) -> Seq<GroupId>
    decreases n,
{
    if n <= 0 {
        Seq::empty()
    } else {
        let prev = spec_query_ids(groups, kind, n - 1);
        if kind is None || groups[n - 1].summary.key@.kind == kind->0 {
            prev.push(GroupId((n - 1) as u32))
        } else {
            prev
        }
    }
}

proof fn lemma_query_ids_members(groups: Seq<GroupView>, kind: Option<ProblemKind>, n: int)
    requires
        0 <= n <= groups.len(),
        groups.len() <= u32::MAX,
    ensures
        forall|g: int| 0 <= g < groups.len() ==> (spec_query_ids(groups, kind, n).contains(GroupId(g as u32)) <==> (g < n
            && (kind is None || (#[trigger] groups[g]).summary.key@.kind == kind->0))),
        forall|x: GroupId| spec_query_ids(groups, kind, n).contains(x) ==> x.0 < n,
    decreases n,
{
    if n > 0 {
        lemma_query_ids_members(groups, kind, n - 1);
        let prev = spec_query_ids(groups, kind, n - 1);
        let cur = spec_query_ids(groups, kind, n);
        assert forall|x: GroupId| cur.contains(x) implies x.0 < n by {
            if kind is None || groups[n - 1].summary.key@.kind == kind->0 {
                let w = choose|w: int| 0 <= w < cur.len() && cur[w] == x;
                if w < prev.len() {
                    assert(cur[w] == prev[w]);
                    assert(prev.contains(x));
                }
            }
        }
        assert forall|g: int| 0 <= g < groups.len() implies (cur.contains(GroupId(g as u32)) <==> (g < n
            && (kind is None || (#[trigger] groups[g]).summary.key@.kind == kind->0))) by {
            if kind is None || groups[n - 1].summary.key@.kind == kind->0 {
                if prev.contains(GroupId(g as u32)) {
                    let w = choose|w: int| 0 <= w < prev.len() && prev[w] == GroupId(g as u32);
                    assert(cur[w] == prev[w]);
                }
                if g == n - 1 {
                    assert(cur[prev.len() as int] == GroupId(g as u32));
                }
                if cur.contains(GroupId(g as u32)) {
                    let w = choose|w: int| 0 <= w < cur.len() && cur[w] == GroupId(g as u32);
                    if w < prev.len() {
                        assert(cur[w] == prev[w]);
                        assert(prev.contains(GroupId(g as u32)));
                    }
                }
            }
        }
    }
}

/// A group snapshot lists each group its query admits exactly once and no other, ordered by
/// the query's sort key with ties broken by ascending id.
pub proof fn lemma_group_listing(groups: Seq<GroupView>, query: GroupQuery, ids: Seq<GroupId>)
    requires
        spec_query_listing(groups, query, ids),
        groups.len() <= u32::MAX,
    ensures
        forall|g: int| 0 <= g < groups.len() ==> (ids.contains(GroupId(g as u32)) <==> (query.kind is None
            || (#[trigger] groups[g]).summary.key@.kind == query.kind->0)),
        forall|x: GroupId| ids.contains(x) ==> x.0 < groups.len(),
        forall|i: int, j: int| 0 <= i < j < ids.len() ==> #[trigger] ids[i] != #[trigger] ids[j],
        forall|i: int, j: int| 0 <= i < j < ids.len() ==> spec_group_before(query.sort,
            groups[(#[trigger] ids[i]).0 as int].summary, groups[(#[trigger] ids[j]).0 as int].summary),
{
    let q = spec_query_ids(groups, query.kind, groups.len() as int);
    lemma_query_ids_members(groups, query.kind, groups.len() as int);
    ids.to_multiset_ensures();
    q.to_multiset_ensures();
    assert forall|x: GroupId| ids.contains(x) <==> q.contains(x) by {
        assert(ids.to_multiset().count(x) == q.to_multiset().count(x));
    }
    assert forall|i: int, j: int| 0 <= i < j < ids.len() implies #[trigger] ids[i] != #[trigger] ids[j] by {
        let a = groups[ids[i].0 as int].summary;
        assert(spec_group_before(query.sort, a, groups[ids[j].0 as int].summary));
    }
}

/// `ids` lists the groups a query admits, in its order.
pub open spec fn spec_query_listing(groups: Seq<GroupView>, query: GroupQuery, ids: Seq<GroupId>) -> bool {
    &&& ids.to_multiset() == spec_query_ids(groups, query.kind, groups.len() as int).to_multiset()
    &&& forall|i: int, j: int| 0 <= i < j < ids.len() ==> spec_group_before(query.sort,
        groups[(#[trigger] ids[i]).0 as int].summary, groups[(#[trigger] ids[j]).0 as int].summary)
}

/// The window of a page over `total` items.
pub open spec fn spec_page_start(page: PageSpec, total: int) -> int {
    if page.spec_offset() < total { page.spec_offset() as int } else { total }
}

pub open spec fn spec_page_end(page: PageSpec, total: int) -> int {
    let start = spec_page_start(page, total);
    if start + page.spec_limit() < total { start + page.spec_limit() } else { total }
}

/// The page of a group snapshot `v`, read from `groups`.
pub open spec fn spec_group_page(v: SnapshotView, groups: Seq<GroupView>, snapshot_id: QuerySnapshotId, page: PageSpec, out: GroupPage) -> bool {
    let ids = v.group_ids->0;
    let start = spec_page_start(page, ids.len() as int);
    let end = spec_page_end(page, ids.len() as int);
    &&& v.group_ids is Some
    &&& out.snapshot_id == snapshot_id
    &&& out.revision == v.revision
    &&& out.total == ids.len()
    &&& out.items@ == ids.subrange(start, end).map_values(|g: GroupId| groups[g.0 as int].summary)
    &&& out.next_offset == (if end < ids.len() { Some(end as usize) } else { None })
}

/// The page of an occurrence snapshot `v`, read from `groups`.
pub open spec fn spec_occurrence_page(v: SnapshotView, groups: Seq<GroupView>, snapshot_id: QuerySnapshotId, page: PageSpec, out: OccurrencePage) -> bool {
    let (g, frozen) = v.occurrences->0;
    let members = groups[g.0 as int].event_ids;
    let total = if frozen < members.len() { frozen as int } else { members.len() as int };
    let start = spec_page_start(page, total);
    let end = spec_page_end(page, total);
    &&& v.occurrences is Some
    &&& out.snapshot_id == snapshot_id
    &&& out.revision == v.revision
    &&& out.total == total
    &&& out.items@ == members.subrange(start, end)
    &&& out.next_offset == (if end < total { Some(end as usize) } else { None })
}

/// The position of the first live snapshot with `id`, if any.
pub open spec fn spec_snapshot_position(v: Seq<SnapshotView>, id: QuerySnapshotId) -> Option<int> {
    if exists|i: int| 0 <= i < v.len() && (#[trigger] v[i]).id == id {
        Some(choose|i: int| 0 <= i < v.len() && (#[trigger] v[i]).id == id && forall|j: int| 0 <= j < i ==> (#[trigger] v[j]).id != id)
    } else {
        None
    }
}

/// How a request for a page of snapshot `id` of the given kind is refused before anything is
/// read: as its retirement reason (or `NotFound`) when no live snapshot has the id, as
/// `WrongKind` when the live one is of the other kind; `None` when it is served.
pub open spec fn spec_page_refusal(v: Seq<SnapshotView>, retired: Seq<(QuerySnapshotId, SnapshotError)>, id: QuerySnapshotId, groups_kind: bool) -> Option<SnapshotError> {
    match spec_snapshot_position(v, id) {
        None => Some(spec_refusal(retired, id)),
        Some(i) => if (v[i].group_ids is Some) == groups_kind { None } else { Some(SnapshotError::WrongKind) },
    }
}

/// The snapshot, if any, with `id`.
pub open spec fn spec_has_snapshot(v: Seq<SnapshotView>, id: QuerySnapshotId) -> bool {
    exists|i: int| 0 <= i < v.len() && (#[trigger] v[i]).id == id
}

/// Why a snapshot that is not live is refused: the reason of its newest retirement still
/// remembered, else `NotFound`.
pub open spec fn spec_refusal(retired: Seq<(QuerySnapshotId, SnapshotError)>, id: QuerySnapshotId) -> SnapshotError
    decreases retired.len(),
{
    if retired.len() == 0 {
        SnapshotError::NotFound
    } else if retired.last().0 == id {
        retired.last().1
    } else {
        spec_refusal(retired.drop_last(), id)
    }
}

/// A refusal of a snapshot that is not live is a retirement reason or `NotFound`.
pub proof fn lemma_refusal_kinds(retired: Seq<(QuerySnapshotId, SnapshotError)>, id: QuerySnapshotId)
    requires
        forall|k: int| 0 <= k < retired.len() ==> spec_retirement_reason((#[trigger] retired[k]).1),
    ensures
        spec_retirement_reason(spec_refusal(retired, id)) || spec_refusal(retired, id) == SnapshotError::NotFound,
    decreases retired.len(),
{
    if retired.len() > 0 {
        assert(spec_retirement_reason(retired[retired.len() - 1].1));
        if retired.last().0 != id {
            assert forall|k: int| 0 <= k < retired.drop_last().len() implies spec_retirement_reason((#[trigger] retired.drop_last()[k]).1) by {
                assert(retired.drop_last()[k] == retired[k]);
            }
            lemma_refusal_kinds(retired.drop_last(), id);
        }
    }
}

/// `retired` after one more retirement, forgetting the oldest where it is full.
pub open spec fn spec_push_retired(retired: Seq<(QuerySnapshotId, SnapshotError)>, entry: (QuerySnapshotId, SnapshotError)) -> Seq<(QuerySnapshotId, SnapshotError)> {
    (if retired.len() == MAX_RETIRED_SNAPSHOTS { retired.drop_first() } else { retired }).push(entry)
}

/// `retired` after the snapshots `v` are retired for `reason`, first to last.
pub open spec fn spec_retire_all(retired: Seq<(QuerySnapshotId, SnapshotError)>, v: Seq<SnapshotView>, reason: SnapshotError) -> Seq<(QuerySnapshotId, SnapshotError)>
    decreases v.len(),
{
    if v.len() == 0 {
        retired
    } else {
        spec_push_retired(spec_retire_all(retired, v.drop_last(), reason), (v.last().id, reason))
    }
}

/// Retiring `v` leaves each of its snapshots, in order, at the end of the retired list,
/// which stays within its bound.
proof fn lemma_retire_all_suffix(retired: Seq<(QuerySnapshotId, SnapshotError)>, v: Seq<SnapshotView>, reason: SnapshotError)
    requires
        retired.len() <= MAX_RETIRED_SNAPSHOTS,
        v.len() <= MAX_RETIRED_SNAPSHOTS,
    ensures
        ({
            let r = spec_retire_all(retired, v, reason);
            &&& r.len() <= MAX_RETIRED_SNAPSHOTS
            &&& r.len() >= v.len()
            &&& forall|j: int| 0 <= j < v.len() ==> #[trigger] r[r.len() - v.len() + j] == (v[j].id, reason)
        }),
    decreases v.len(),
{
    if v.len() > 0 {
        let l = v.drop_last();
        lemma_retire_all_suffix(retired, l, reason);
        let r0 = spec_retire_all(retired, l, reason);
        let kept = if r0.len() == MAX_RETIRED_SNAPSHOTS { r0.drop_first() } else { r0 };
        let r = kept.push((v.last().id, reason));
        assert(r == spec_retire_all(retired, v, reason));
        assert forall|j: int| 0 <= j < v.len() implies #[trigger] r[r.len() - v.len() + j] == (v[j].id, reason) by {
            if j < l.len() {
                assert(v[j] == l[j]);
                assert(r0[r0.len() - l.len() + j] == (l[j].id, reason));
                if r0.len() == MAX_RETIRED_SNAPSHOTS {
                    assert(kept[r0.len() - l.len() + j - 1] == r0[r0.len() - l.len() + j]);
                }
            }
        }
    }
}

/// Where the last `m` retirements all carry `reason` and one of them is of `id`, `id` is
/// refused for `reason`.
proof fn lemma_refusal_in_suffix(r: Seq<(QuerySnapshotId, SnapshotError)>, m: int, id: QuerySnapshotId, reason: SnapshotError)
    requires
        0 <= m <= r.len(),
        forall|j: int| r.len() - m <= j < r.len() ==> (#[trigger] r[j]).1 == reason,
        exists|j: int| r.len() - m <= j < r.len() && (#[trigger] r[j]).0 == id,
    ensures
        spec_refusal(r, id) == reason,
    decreases r.len(),
{
    if r.last().0 != id {
        let w = choose|j: int| r.len() - m <= j < r.len() && (#[trigger] r[j]).0 == id;
        assert(r.drop_last()[w] == r[w]);
        assert forall|j: int| r.drop_last().len() - (m - 1) <= j < r.drop_last().len() implies (#[trigger] r.drop_last()[j]).1 == reason by {
            assert(r.drop_last()[j] == r[j]);
        }
        lemma_refusal_in_suffix(r.drop_last(), m - 1, id, reason);
    }
}

/// A snapshot retired together with others for one reason is refused for that reason
/// afterwards: so every snapshot that `reset` retired is refused as reset, until later
/// retirements push it out.
pub proof fn lemma_retired_snapshot_is_refused_for_its_reason(
    retired: Seq<(QuerySnapshotId, SnapshotError)>,
    v: Seq<SnapshotView>,
    reason: SnapshotError,
    id: QuerySnapshotId,
)
    requires
        retired.len() <= MAX_RETIRED_SNAPSHOTS,
        v.len() <= MAX_RETIRED_SNAPSHOTS,
        exists|i: int| 0 <= i < v.len() && (#[trigger] v[i]).id == id,
    ensures
        spec_refusal(spec_retire_all(retired, v, reason), id) == reason,
{
    lemma_retire_all_suffix(retired, v, reason);
    let r = spec_retire_all(retired, v, reason);
    let i = choose|i: int| 0 <= i < v.len() && (#[trigger] v[i]).id == id;
    assert(r[r.len() - v.len() + i] == (v[i].id, reason));
    assert forall|j: int| r.len() - v.len() <= j < r.len() implies (#[trigger] r[j]).1 == reason by {
        assert(r[r.len() - v.len() + (j - (r.len() - v.len()))] == (v[j - (r.len() - v.len())].id, reason));
    }
    lemma_refusal_in_suffix(r, v.len() as int, id, reason);
}

/// The id bytes a group snapshot whose id vector has `capacity` slots takes, or
/// `IdVectorLimit` where that overflows or exceeds `max_snapshot_id_bytes`.
pub fn snapshot_id_bytes(capacity: usize, max_snapshot_id_bytes: usize) -> (r: Result<usize, SnapshotError>)
    ensures
        match r {
            Ok(b) => b == capacity * GROUP_ID_BYTES && b <= max_snapshot_id_bytes,
            Err(e) => e == SnapshotError::IdVectorLimit && capacity * GROUP_ID_BYTES > max_snapshot_id_bytes,
        },
{
    let id_bytes = match capacity.checked_mul(GROUP_ID_BYTES) {
        Some(b) => b,
        None => return Err(SnapshotError::IdVectorLimit),
    };
    if id_bytes > max_snapshot_id_bytes {
        return Err(SnapshotError::IdVectorLimit);
    }
    Ok(id_bytes)
}

pub struct ProblemIndex {
    limits: ProblemIndexLimits,
    events: Vec<ProblemEvent>,
    observation_refs: Vec<ObservationRef>,
    groups: Vec<ProblemGroup>,
    stats: ProblemStats,
    snapshots: Vec<QuerySnapshot>,
    retired_snapshots: VecDeque<(QuerySnapshotId, SnapshotError)>,
    snapshot_id_bytes: usize,
    next_snapshot_id: u64,
}

impl ProblemIndex {
    pub closed spec fn spec_limits(self) -> ProblemIndexLimits {
        self.limits
    }

    pub closed spec fn spec_events(self) -> Seq<ProblemEvent> {
        self.events@
    }

    pub closed spec fn spec_refs(self) -> Seq<ObservationRef> {
        self.observation_refs@
    }

    pub closed spec fn spec_groups(self) -> Seq<GroupView> {
        self.groups@.map_values(|g: ProblemGroup| g@)
    }

    pub closed spec fn spec_stats(self) -> ProblemStats {
        self.stats
    }

    pub closed spec fn spec_snapshot_count(self) -> nat {
        self.snapshots@.len()
    }

    pub closed spec fn spec_snapshot_id_bytes(self) -> usize {
        self.snapshot_id_bytes
    }

    pub closed spec fn spec_snapshots(self) -> Seq<SnapshotView> {
        self.snapshots@.map_values(|q: QuerySnapshot| q@)
    }

    /// When each live snapshot was last used.
    pub closed spec fn spec_last_accesses(self) -> Seq<Instant> {
        self.snapshots@.map_values(|q: QuerySnapshot| q.last_access)
    }

    pub closed spec fn spec_next_snapshot_id(self) -> u64 {
        self.next_snapshot_id
    }

    pub closed spec fn spec_retired(self) -> Seq<(QuerySnapshotId, SnapshotError)> {
        self.retired_snapshots@
    }

    /// The index's bookkeeping agrees with what it holds and stays within its limits:
    /// group ids are positions, keys are distinct, every event points into its group and
    /// its observation references, and the snapshots' id bytes add up.
    pub closed spec fn wf(self) -> bool {
        &&& self.limits.max_events <= DEFAULT_MAX_EVENTS
        &&& self.limits.max_observation_refs <= DEFAULT_MAX_OBSERVATION_REFS
        &&& self.limits.max_groups <= DEFAULT_MAX_GROUPS
        &&& 0 < self.limits.max_snapshots <= DEFAULT_MAX_SNAPSHOTS
        &&& self.limits.max_snapshot_id_bytes <= DEFAULT_MAX_SNAPSHOT_ID_BYTES
        &&& self.events@.len() <= self.limits.max_events
        &&& self.observation_refs@.len() <= self.limits.max_observation_refs
        &&& self.groups@.len() <= self.limits.max_groups
        &&& self.stats.stored_group_count == self.groups@.len()
        &&& forall|i: int| 0 <= i < self.groups@.len() ==> (#[trigger] self.groups@[i]).summary.id == GroupId(i as u32)
        &&& forall|i: int, j: int| 0 <= i < self.groups@.len() && 0 <= j < self.groups@.len() && i != j
            ==> (#[trigger] self.groups@[i]).summary.key@ != (#[trigger] self.groups@[j]).summary.key@
        &&& self.snapshots@.len() <= self.limits.max_snapshots
        &&& self.snapshot_id_bytes == spec_snapshot_bytes(self.snapshots@.map_values(|q: QuerySnapshot| q.id_bytes))
        &&& self.snapshot_id_bytes <= self.limits.max_snapshot_id_bytes
        &&& self.retired_snapshots@.len() <= MAX_RETIRED_SNAPSHOTS
        &&& forall|k: int| 0 <= k < self.retired_snapshots@.len() ==> spec_retirement_reason((#[trigger] self.retired_snapshots@[k]).1)
        &&& forall|i: int| 0 <= i < self.snapshots@.len() ==> spec_snapshot_in_range(#[trigger] self.snapshots@[i]@, self.groups@.len())
    }

    /// What a well-formed index holds stays within the structural caps: event, reference and
    /// group counts, and so every event id and group id, fit in 32 bits.
    pub proof fn lemma_within_caps(self)
        requires
            self.wf(),
        ensures
            self.spec_events().len() <= DEFAULT_MAX_EVENTS,
            self.spec_refs().len() <= DEFAULT_MAX_OBSERVATION_REFS,
            self.spec_groups().len() <= DEFAULT_MAX_GROUPS,
            self.spec_snapshots().len() <= DEFAULT_MAX_SNAPSHOTS,
            DEFAULT_MAX_EVENTS < u32::MAX,
            DEFAULT_MAX_GROUPS < u32::MAX,
    {
    }

    fn empty_with(limits: ProblemIndexLimits) -> (r: Self)
        requires
            limits.max_events <= DEFAULT_MAX_EVENTS,
            limits.max_observation_refs <= DEFAULT_MAX_OBSERVATION_REFS,
            limits.max_groups <= DEFAULT_MAX_GROUPS,
            0 < limits.max_snapshots <= DEFAULT_MAX_SNAPSHOTS,
            limits.max_snapshot_id_bytes <= DEFAULT_MAX_SNAPSHOT_ID_BYTES,
        ensures
            r.wf(),
            r.spec_limits() == limits,
            r.spec_events().len() == 0,
            r.spec_refs().len() == 0,
            r.spec_groups().len() == 0,
            r.spec_stats() == spec_zero_stats(),
            r.spec_snapshot_count() == 0,
    {
        let r = ProblemIndex {
            limits,
            events: Vec::new(),
            observation_refs: Vec::new(),
            groups: Vec::new(),
            stats: ProblemStats::default(),
            snapshots: Vec::new(),
            retired_snapshots: VecDeque::new(),
            snapshot_id_bytes: 0,
            next_snapshot_id: 1,
        };
        proof {
            assert(r.snapshots@.map_values(|q: QuerySnapshot| q.id_bytes) =~= Seq::<usize>::empty());
            assert(r.spec_groups() =~= Seq::<GroupView>::empty());
        }
        r
    }

    pub fn new() -> (r: Self)
        ensures
            r.wf(),
            r.spec_limits().max_events == DEFAULT_MAX_EVENTS,
            r.spec_limits().max_observation_refs == DEFAULT_MAX_OBSERVATION_REFS,
            r.spec_limits().max_groups == DEFAULT_MAX_GROUPS,
            r.spec_limits().max_snapshots == DEFAULT_MAX_SNAPSHOTS,
            r.spec_limits().max_snapshot_id_bytes == DEFAULT_MAX_SNAPSHOT_ID_BYTES,
            r.spec_events().len() == 0,
            r.spec_groups().len() == 0,
            r.spec_stats() == spec_zero_stats(),
    {
        ProblemIndex::empty_with(ProblemIndexLimits::default())
    }

    pub fn with_limits(limits: ProblemIndexLimits) -> (r: Result<Self, ProblemIndexError>)
        ensures
            match r {
                Ok(index) => index.wf() && index.spec_limits() == limits && index.spec_events().len() == 0
                    && index.spec_groups().len() == 0 && index.spec_stats() == spec_zero_stats(),
                Err(e) => e matches ProblemIndexError::InvalidLimits(_),
            },
    {
        match limits.validate() {
            Ok(l) => Ok(ProblemIndex::empty_with(l)),
            Err(e) => Err(ProblemIndexError::InvalidLimits(e)),
        }
    }

    pub fn stats(&self) -> (r: ProblemStats)
        ensures
            r == self.spec_stats(),
    {
        self.stats
    }

    pub fn event(&self, id: ProblemEventId) -> (r: Option<ProblemEvent>)
        ensures
            id.0 < self.spec_events().len() ==> r == Some(self.spec_events()[id.0 as int]),
            id.0 >= self.spec_events().len() ==> r is None,
    {
        let i = id.0 as usize;
        if i < self.events.len() {
            Some(self.events[i])
        } else {
            None
        }
    }

    /// The materialized observation references of an event.
    pub fn event_observations(&self, id: ProblemEventId) -> (r: Option<&[ObservationRef]>)
        ensures
            match r {
                Some(refs) => {
                    &&& id.0 < self.spec_events().len()
                    &&& {
                        let e = self.spec_events()[id.0 as int];
                        let start = e.spec_observation_start() as int;
                        &&& start + e.spec_observation_len() <= self.spec_refs().len()
                        &&& refs@ == self.spec_refs().subrange(start, start + e.spec_observation_len())
                    }
                },
                None => id.0 >= self.spec_events().len() || {
                    let e = self.spec_events()[id.0 as int];
                    e.spec_observation_start() + e.spec_observation_len() > self.spec_refs().len()
                },
            },
    {
        let i = id.0 as usize;
        if i >= self.events.len() {
            return None;
        }
        let event = self.events[i];
        let start = event.observation_start() as usize;
        let available = self.observation_refs.len();
        let end = match start.checked_add(event.observation_len() as usize) {
            Some(e) => e,
            None => {
                assert(available <= usize::MAX);
                return None;
            },
        };
        if end > self.observation_refs.len() {
            return None;
        }
        Some(vstd::slice::slice_subrange(self.observation_refs.as_slice(), start, end))
    }

    pub fn group(&self, id: GroupId) -> (r: Option<ProblemGroupSummary>)
        ensures
            id.0 < self.spec_groups().len() ==> r == Some(self.spec_groups()[id.0 as int].summary),
            id.0 >= self.spec_groups().len() ==> r is None,
    {
        let i = id.0 as usize;
        if i < self.groups.len() {
            Some(self.groups[i].summary)
        } else {
            None
        }
    }

    pub fn group_event_ids(&self, id: GroupId) -> (r: Option<&[ProblemEventId]>)
        ensures
            id.0 < self.spec_groups().len() ==> (r matches Some(ids) && ids@ == self.spec_groups()[id.0 as int].event_ids),
            id.0 >= self.spec_groups().len() ==> r is None,
    {
        let i = id.0 as usize;
        if i < self.groups.len() {
            Some(self.groups[i].event_ids.as_slice())
        } else {
            None
        }
    }

    pub fn events_len(&self) -> (r: usize)
        ensures
            r == self.spec_events().len(),
    {
        self.events.len()
    }

    pub fn observation_refs_len(&self) -> (r: usize)
        ensures
            r == self.spec_refs().len(),
    {
        self.observation_refs.len()
    }

    pub fn snapshot_count(&self) -> (r: usize)
        ensures
            r == self.spec_snapshot_count(),
    {
        self.snapshots.len()
    }

    pub fn snapshot_id_bytes(&self) -> (r: usize)
        ensures
            r == self.spec_snapshot_id_bytes(),
    {
        self.snapshot_id_bytes
    }


    /// Records an occurrence the limits or the allocator refused.
    fn record_drop(&mut self, group: Option<usize>, reason: AppendDropReason) -> (r: AppendOutcome)
        requires
            old(self).wf(),
            group matches Some(i) ==> i < old(self).spec_groups().len(),
        ensures
            final(self).wf(),
            final(self).spec_limits() == old(self).spec_limits(),
            final(self).spec_events() == old(self).spec_events(),
            final(self).spec_refs() == old(self).spec_refs(),
            final(self).spec_groups() == (match group {
                Some(i) => old(self).spec_groups().update(i as int, spec_record_dropped(old(self).spec_groups()[i as int])),
                None => old(self).spec_groups(),
            }),
            final(self).spec_stats() == (ProblemStats {
                dropped_occurrence_count: spec_inc(old(self).spec_stats().dropped_occurrence_count),
                ungrouped_dropped_occurrence_count: if group is None {
                    spec_inc(old(self).spec_stats().ungrouped_dropped_occurrence_count)
                } else {
                    old(self).spec_stats().ungrouped_dropped_occurrence_count
                },
                limited: true,
                ..old(self).spec_stats()
            }),
            r == (AppendOutcome::Dropped {
                group_id: match group {
                    Some(i) => Some(GroupId(i as u32)),
                    None => None,
                },
                reason,
            }),
    {
        self.stats.limited = true;
        self.stats.dropped_occurrence_count = self.stats.dropped_occurrence_count.saturating_add(1);
        let ghost g0 = self.groups@;
        match group {
            Some(i) => {
                self.groups[i].record_dropped();
                proof {
                    assert(self.groups@ == g0.update(i as int, self.groups@[i as int]));
                    assert(self.spec_groups() =~= old(self).spec_groups().update(i as int, spec_record_dropped(old(self).spec_groups()[i as int])));
                }
                AppendOutcome::Dropped { group_id: Some(GroupId(i as u32)), reason }
            },
            None => {
                self.stats.ungrouped_dropped_occurrence_count = self.stats.ungrouped_dropped_occurrence_count.saturating_add(1);
                AppendOutcome::Dropped { group_id: None, reason }
            },
        }
    }

    /// Appends one occurrence of the group `group_key`, with its candidate observations.
    #[verifier::rlimit(80)]
    #[verifier::spinoff_prover]
    pub fn append(&mut self, draft: ProblemEventDraft, group_key: GroupKey, candidates: &[ObservationCandidate]) -> (r: Result<AppendOutcome, ProblemIndexError>)
        requires
            old(self).wf(),
        ensures
            final(self).wf(),
            final(self).spec_limits() == old(self).spec_limits(),
            spec_event_error(draft, 0, 0) is Some ==> r == Err::<AppendOutcome, ProblemIndexError>(
                ProblemIndexError::InvalidEvent(spec_event_error(draft, 0, 0)->0),
            ) && spec_content_unchanged(*old(self), *final(self)),
            spec_event_error(draft, 0, 0) is None && draft.kind != group_key@.kind ==> r == Err::<AppendOutcome, ProblemIndexError>(
                ProblemIndexError::GroupKindMismatch { event_kind: draft.kind, group_kind: group_key@.kind },
            ) && spec_content_unchanged(*old(self), *final(self)),
            spec_event_error(draft, 0, 0) is None && draft.kind == group_key@.kind ==> (r matches Ok(out)
                && spec_appended(*old(self), *final(self), draft, group_key, candidates@, out)),
    {
        match ProblemEvent::new(draft, 0, 0, 0, 0) {
            Ok(_) => {},
            Err(e) => return Err(ProblemIndexError::InvalidEvent(e)),
        }
        if draft.kind != group_key.kind {
            return Err(ProblemIndexError::GroupKindMismatch { event_kind: draft.kind, group_kind: group_key.kind });
        }
        let ghost o = *self;
        let selected = select_observations(candidates);
        proof {
            lemma_adopt_bounds(candidates@);
        }
        let mut d = draft;
        if selected.count_limited {
            d.boundary.insert(BoundaryFlags::OBSERVATION_COUNT_LIMITED());
        }
        if selected.total > MAX_MATERIALIZED_OBSERVATIONS as u16 {
            d.boundary.insert(BoundaryFlags::OBSERVATION_REFS_TRUNCATED());
        }
        assert(d == spec_bounded_draft(draft, candidates@));
        self.stats.observed_occurrence_count = self.stats.observed_occurrence_count.saturating_add(1);
        self.stats.revision = self.stats.revision.saturating_add(1);
        let existing = self.find_group(&group_key);
        let ghost g0 = self.groups@;
        if let Some(i) = existing {
            self.groups[i].record_observed(d);
            proof {
                assert(self.groups@ == g0.update(i as int, self.groups@[i as int]));
                assert(self.spec_groups() =~= o.spec_groups().update(i as int, spec_record_observed(o.spec_groups()[i as int], d)));
            }
        }
        let m = selected.materialized.len();
        let reason = if existing.is_none() && self.groups.len() >= self.limits.max_groups {
            Some(AppendDropReason::GroupLimit)
        } else if self.events.len() >= self.limits.max_events {
            Some(AppendDropReason::EventLimit)
        } else if self.observation_refs.len() + m > self.limits.max_observation_refs {
            Some(AppendDropReason::ObservationRefLimit)
        } else {
            None
        };
        if let Some(why) = reason {
            return Ok(self.record_drop(existing, why));
        }
        let mut membership: Vec<ProblemEventId> = Vec::new();
        let reserved = self.events.try_reserve(1).is_ok() && self.observation_refs.try_reserve(m).is_ok()
            && match existing {
            Some(i) => {
                let ghost before = self.groups@;
                let ok = self.groups[i].reserve_member();
                proof {
                    assert(self.groups@ == before.update(i as int, self.groups@[i as int]));
                    assert(self.spec_groups() =~= before.map_values(|g: ProblemGroup| g@));
                }
                ok
            },
            None => membership.try_reserve(1).is_ok() && self.groups.try_reserve(1).is_ok(),
        };
        if !reserved {
            return Ok(self.record_drop(existing, AppendDropReason::Allocation));
        }
        let event_id = ProblemEventId(self.events.len() as u32);
        let group_id = match existing {
            Some(i) => GroupId(i as u32),
            None => GroupId(self.groups.len() as u32),
        };
        let observation_start = self.observation_refs.len() as u32;
        let event = match ProblemEvent::new(d, group_id.0, observation_start, m as u8, selected.total) {
            Ok(e) => e,
            Err(e) => {
                assert(false);
                return Err(ProblemIndexError::InvalidEvent(e));
            },
        };
        let ghost refs0 = self.observation_refs@;
        push_all(&mut self.observation_refs, &selected.materialized);
        self.events.push(event);
        let ghost g1 = self.groups@;
        let created_group = existing.is_none();
        match existing {
            Some(i) => {
                self.groups[i].record_stored(d, event_id);
                proof {
                    assert(self.groups@ == g1.update(i as int, self.groups@[i as int]));
                }
            },
            None => {
                membership.push(event_id);
                proof {
                    assert(membership@ =~= seq![event_id]);
                }
                let group = ProblemGroup::new(group_id, group_key, d, event_id, membership);
                self.groups.push(group);
            },
        }
        self.stats.stored_group_count = self.groups.len() as u32;
        self.stats.stored_occurrence_count = self.stats.stored_occurrence_count.saturating_add(1);
        let out = AppendOutcome::Stored { event_id, group_id, created_group };
        proof {
            let s = selected.sorted@;
            assert(spec_materialized_from(candidates@, s) =~= selected.materialized@);
            assert(spec_adopted_order(candidates@, s));
            let n = *self;
            match existing {
                Some(i) => {
                    assert(n.spec_groups() =~= g1.map_values(|g: ProblemGroup| g@).update(i as int, spec_record_stored(g1[i as int]@, d, event_id)));
                },
                None => {
                    assert(n.spec_groups() =~= g1.map_values(|g: ProblemGroup| g@).push(spec_new_group(group_id, group_key, d, event_id)));
                    let gs = self.groups@;
                    assert(gs[g1.len() as int].summary.key@ == group_key@);
                    assert forall|a: int| 0 <= a < g1.len() implies (#[trigger] gs[a]).summary.key@ != group_key@ by {
                        assert(gs[a] == g1[a]);
                        assert(o.spec_groups()[a] == g1[a]@);
                        if gs[a].summary.key@ == group_key@ {
                            assert(0 <= a < o.spec_groups().len() && (#[trigger] o.spec_groups()[a]).summary.key@ == group_key@);
                        }
                    }
                    assert forall|a: int, b: int| 0 <= a < gs.len() && 0 <= b < gs.len() && a != b
                        implies (#[trigger] gs[a]).summary.key@ != (#[trigger] gs[b]).summary.key@ by {
                        if a < g1.len() && b < g1.len() {
                            assert(gs[a] == g1[a] && gs[b] == g1[b]);
                        }
                    }
                },
            }
            assert(n.spec_events().drop_last() =~= o.spec_events());
            assert(spec_appended(o, n, draft, group_key, candidates@, out));
        }
        Ok(out)
    }


    /// Retires the snapshot at `index` for `reason`.
    fn remove_snapshot(&mut self, index: usize, reason: SnapshotError)
        requires
            old(self).wf(),
            spec_retirement_reason(reason),
            index < old(self).spec_snapshots().len(),
        ensures
            final(self).wf(),
            spec_content_unchanged(*old(self), *final(self)),
            final(self).spec_limits() == old(self).spec_limits(),
            final(self).spec_next_snapshot_id() == old(self).spec_next_snapshot_id(),
            final(self).spec_snapshots() == old(self).spec_snapshots().remove(index as int),
            final(self).spec_retired() == spec_push_retired(old(self).spec_retired(), (old(self).spec_snapshots()[index as int].id, reason)),
    {
        let ghost bytes0 = self.snapshots@.map_values(|q: QuerySnapshot| q.id_bytes);
        let ghost snaps0 = self.snapshots@;
        proof {
            lemma_snapshot_bytes_remove(bytes0, index as int);
        }
        let removed = self.snapshots.remove(index);
        proof {
            assert(self.snapshots@.map_values(|q: QuerySnapshot| q.id_bytes) =~= bytes0.remove(index as int));
            assert(self.spec_snapshots() =~= old(self).spec_snapshots().remove(index as int));
            assert forall|i: int| 0 <= i < self.snapshots@.len() implies spec_snapshot_in_range(#[trigger] self.snapshots@[i]@, self.groups@.len()) by {
                let k = if i < index { i } else { i + 1 };
                assert(self.snapshots@[i] == snaps0[k]);
            }
        }
        self.snapshot_id_bytes = self.snapshot_id_bytes - removed.id_bytes;
        if self.retired_snapshots.len() == MAX_RETIRED_SNAPSHOTS {
            let _ = self.retired_snapshots.pop_front();
        }
        self.retired_snapshots.push_back((removed.id, reason));
    }

    /// Retires every snapshot whose last access lies at least a time-to-live before `now`.
    fn expire_snapshots(&mut self, now: Instant)
        requires
            old(self).wf(),
        ensures
            final(self).wf(),
            spec_content_unchanged(*old(self), *final(self)),
            final(self).spec_limits() == old(self).spec_limits(),
            final(self).spec_next_snapshot_id() == old(self).spec_next_snapshot_id(),
            final(self).spec_snapshots().len() <= old(self).spec_snapshots().len(),
            final(self).spec_snapshots().len() == old(self).spec_snapshots().len() ==> final(self).spec_retired() == old(self).spec_retired()
                && final(self).spec_snapshots() == old(self).spec_snapshots(),
    {
        let ttl = duration_nanos(self.limits.snapshot_ttl);
        let mut index = self.snapshots.len();
        while index > 0
            invariant
                self.wf(),
                spec_content_unchanged(*old(self), *self),
                self.limits == old(self).limits,
                self.next_snapshot_id == old(self).next_snapshot_id,
                index <= self.spec_snapshots().len() <= old(self).spec_snapshots().len(),
                self.spec_snapshots().len() == self.snapshots@.len(),
                self.spec_snapshots().len() == old(self).spec_snapshots().len() ==> self.spec_retired() == old(self).spec_retired()
                    && self.spec_snapshots() == old(self).spec_snapshots(),
            decreases index,
        {
            index = index - 1;
            let elapsed = duration_nanos(saturating_duration_since(now, self.snapshots[index].last_access));
            if elapsed >= ttl {
                self.remove_snapshot(index, SnapshotError::Expired);
            }
        }
    }

    /// Retires the least recently used snapshot (the lower id among equals).
    fn evict_lru(&mut self)
        requires
            old(self).wf(),
            old(self).spec_snapshots().len() > 0,
        ensures
            final(self).wf(),
            spec_content_unchanged(*old(self), *final(self)),
            final(self).spec_limits() == old(self).spec_limits(),
            final(self).spec_next_snapshot_id() == old(self).spec_next_snapshot_id(),
            final(self).spec_snapshots().len() == old(self).spec_snapshots().len() - 1,
    {
        let mut best: usize = 0;
        let mut i: usize = 1;
        while i < self.snapshots.len()
            invariant
                best < self.snapshots@.len(),
                1 <= i <= self.snapshots@.len(),
            decreases self.snapshots@.len() - i,
        {
            let candidate = self.snapshots[i].last_access;
            let current = self.snapshots[best].last_access;
            let candidate_earlier = duration_nanos(saturating_duration_since(current, candidate)) > 0;
            let current_earlier = duration_nanos(saturating_duration_since(candidate, current)) > 0;
            if candidate_earlier || (!current_earlier && self.snapshots[i].id.0 < self.snapshots[best].id.0) {
                best = i;
            }
            i = i + 1;
        }
        self.remove_snapshot(best, SnapshotError::Evicted);
    }

    /// Installs a snapshot of `id_bytes` ids, retiring expired and then least recently used
    /// snapshots until the count and byte limits leave room for it.
    fn install_snapshot(&mut self, now: Instant, id_bytes: usize, data: SnapshotData) -> (r: Result<QuerySnapshotId, SnapshotError>)
        requires
            old(self).wf(),
            spec_snapshot_in_range(spec_data_view(data, 0, 0, id_bytes), old(self).spec_groups().len()),
        ensures
            final(self).wf(),
            spec_content_unchanged(*old(self), *final(self)),
            final(self).spec_limits() == old(self).spec_limits(),
            id_bytes > old(self).spec_limits().max_snapshot_id_bytes ==> r == Err::<QuerySnapshotId, SnapshotError>(SnapshotError::IdVectorLimit),
            match r {
                Ok(id) => {
                    &&& id == QuerySnapshotId(old(self).spec_next_snapshot_id())
                    &&& final(self).spec_next_snapshot_id() == old(self).spec_next_snapshot_id() + 1
                    &&& final(self).spec_snapshots().len() > 0
                    &&& final(self).spec_snapshots().last() == spec_data_view(data, id.0, old(self).spec_stats().revision, id_bytes)
                },
                Err(e) => {
                    &&& (e == SnapshotError::IdVectorLimit || e == SnapshotError::Allocation || e == SnapshotError::IdExhausted)
                    &&& e == SnapshotError::IdExhausted ==> old(self).spec_next_snapshot_id() == u64::MAX
                    &&& e == SnapshotError::IdVectorLimit ==> id_bytes > old(self).spec_limits().max_snapshot_id_bytes
                },
            },
    {
        if id_bytes > self.limits.max_snapshot_id_bytes {
            return Err(SnapshotError::IdVectorLimit);
        }
        self.expire_snapshots(now);
        while self.snapshots.len() >= self.limits.max_snapshots
            || self.snapshot_id_bytes + id_bytes > self.limits.max_snapshot_id_bytes
            invariant
                self.wf(),
                spec_content_unchanged(*old(self), *self),
                self.limits == old(self).limits,
                self.next_snapshot_id == old(self).next_snapshot_id,
                id_bytes <= self.limits.max_snapshot_id_bytes,
            decreases self.snapshots@.len(),
        {
            if self.snapshots.len() == 0 {
                return Err(SnapshotError::IdVectorLimit);
            }
            self.evict_lru();
        }
        if self.snapshots.try_reserve(1).is_err() {
            return Err(SnapshotError::Allocation);
        }
        let id = QuerySnapshotId(self.next_snapshot_id);
        if self.next_snapshot_id == u64::MAX {
            return Err(SnapshotError::IdExhausted);
        }
        self.next_snapshot_id = self.next_snapshot_id + 1;
        let ghost snaps0 = self.snapshots@;
        let snapshot = QuerySnapshot { id, revision: self.stats.revision, last_access: now, id_bytes, data };
        assert(snapshot@ == spec_data_view(data, id.0, old(self).spec_stats().revision, id_bytes));
        self.snapshot_id_bytes = self.snapshot_id_bytes + id_bytes;
        self.snapshots.push(snapshot);
        proof {
            assert(self.snapshots@.map_values(|q: QuerySnapshot| q.id_bytes).drop_last() =~= snaps0.map_values(|q: QuerySnapshot| q.id_bytes));
            assert(self.spec_snapshots().last() == snapshot@);
            assert forall|i: int| 0 <= i < self.snapshots@.len() implies spec_snapshot_in_range(#[trigger] self.snapshots@[i]@, self.groups@.len()) by {
                if i < snaps0.len() {
                    assert(self.snapshots@[i] == snaps0[i]);
                }
            }
        }
        Ok(id)
    }

    /// The reason a snapshot that is no longer held was retired, newest retirement first.
    fn retired_reason(&self, id: QuerySnapshotId) -> (r: Option<SnapshotError>)
        ensures
            r matches Some(e) ==> e == spec_refusal(self.spec_retired(), id),
            r is None ==> spec_refusal(self.spec_retired(), id) == SnapshotError::NotFound,
    {
        let ghost rs = self.spec_retired();
        let mut k = self.retired_snapshots.len();
        proof {
            assert(rs.take(k as int) =~= rs);
        }
        while k > 0
            invariant
                k <= self.retired_snapshots@.len(),
                rs == self.spec_retired(),
                spec_refusal(rs, id) == spec_refusal(rs.take(k as int), id),
            decreases k,
        {
            let ghost prefix = rs.take(k as int);
            k = k - 1;
            let entry = self.retired_snapshots[k];
            proof {
                assert(self.spec_retired()[k as int] == entry);
                assert(prefix.last() == entry);
                assert(prefix.drop_last() =~= rs.take(k as int));
            }
            if entry.0.0 == id.0 {
                proof {
                    assert(entry.0 == id);
                }
                return Some(entry.1);
            }
        }
        None
    }

    /// The position of the live snapshot `id` of the expected kind, after expiring old ones;
    /// marks it used at `now`.
    fn active_snapshot(&mut self, id: QuerySnapshotId, groups_kind: bool, now: Instant) -> (r: Result<usize, SnapshotError>)
        requires
            old(self).wf(),
        ensures
            final(self).wf(),
            spec_content_unchanged(*old(self), *final(self)),
            final(self).spec_limits() == old(self).spec_limits(),
            final(self).spec_next_snapshot_id() == old(self).spec_next_snapshot_id(),
            match r {
                Ok(i) => i < final(self).spec_snapshots().len() && final(self).spec_snapshots()[i as int].id == id
                    && (final(self).spec_snapshots()[i as int].group_ids is Some) == groups_kind
                    && (final(self).spec_snapshots()[i as int].occurrences is Some) == !groups_kind,
                Err(e) => spec_page_refusal(final(self).spec_snapshots(), final(self).spec_retired(), id, groups_kind) == Some(e),
            },
            r is Ok <==> spec_page_refusal(final(self).spec_snapshots(), final(self).spec_retired(), id, groups_kind) is None,
            r matches Ok(i) ==> spec_snapshot_position(final(self).spec_snapshots(), id) == Some(i as int),
            r != Err::<usize, SnapshotError>(SnapshotError::Allocation),
    {
        self.expire_snapshots(now);
        let mut index: usize = 0;
        while index < self.snapshots.len() && self.snapshots[index].id.0 != id.0
            invariant
                index <= self.snapshots@.len(),
                forall|j: int| 0 <= j < index ==> (#[trigger] self.snapshots@[j]).id != id,
            decreases self.snapshots@.len() - index,
        {
            index = index + 1;
        }
        if index == self.snapshots.len() {
            proof {
                assert forall|j: int| 0 <= j < self.spec_snapshots().len() implies (#[trigger] self.spec_snapshots()[j]).id != id by {
                    assert(self.spec_snapshots()[j] == self.snapshots@[j]@);
                }
                assert(spec_snapshot_position(self.spec_snapshots(), id) is None);
                lemma_refusal_kinds(self.spec_retired(), id);
            }
            return match self.retired_reason(id) {
                Some(e) => Err(e),
                None => Err(SnapshotError::NotFound),
            };
        }
        proof {
            let v = self.spec_snapshots();
            assert forall|j: int| 0 <= j < index implies (#[trigger] v[j]).id != id by {
                assert(v[j] == self.snapshots@[j]@);
            }
            assert(v[index as int] == self.snapshots@[index as int]@);
            assert(v[index as int].id == id);
            let c = choose|i: int| 0 <= i < v.len() && (#[trigger] v[i]).id == id && forall|j: int| 0 <= j < i ==> (#[trigger] v[j]).id != id;
            if c < index as int {
            } else if c > index as int {
                assert(v[index as int].id != id);
            }
            assert(spec_snapshot_position(v, id) == Some(index as int));
        }
        let is_groups = match &self.snapshots[index].data {
            SnapshotData::Groups { .. } => true,
            SnapshotData::Occurrences { .. } => false,
        };
        if is_groups != groups_kind {
            proof {
                assert(self.spec_snapshots()[index as int].id == id);
            }
            return Err(SnapshotError::WrongKind);
        }
        let ghost snaps0 = self.snapshots@;
        self.touch_snapshot(index, now);
        Ok(index)
    }

    /// Marks the snapshot at `index` used at `now`.
    fn touch_snapshot(&mut self, index: usize, now: Instant)
        requires
            old(self).wf(),
            index < old(self).spec_snapshots().len(),
        ensures
            final(self).wf(),
            spec_content_unchanged(*old(self), *final(self)),
            final(self).spec_limits() == old(self).spec_limits(),
            final(self).spec_next_snapshot_id() == old(self).spec_next_snapshot_id(),
            final(self).spec_snapshots() == old(self).spec_snapshots(),
            final(self).spec_retired() == old(self).spec_retired(),
            final(self).spec_last_accesses() == old(self).spec_last_accesses().update(index as int, now),
    {
        let ghost snaps0 = self.snapshots@;
        let ghost g0 = self.groups@.len();
        self.snapshots[index].last_access = now;
        proof {
            assert(self.spec_last_accesses() =~= old(self).spec_last_accesses().update(index as int, now));
            assert(self.snapshots@ == snaps0.update(index as int, self.snapshots@[index as int]));
            assert(self.snapshots@.map_values(|q: QuerySnapshot| q.id_bytes) =~= snaps0.map_values(|q: QuerySnapshot| q.id_bytes));
            assert(self.spec_snapshots() =~= old(self).spec_snapshots());
            assert forall|i: int| 0 <= i < self.snapshots@.len() implies spec_snapshot_in_range(#[trigger] self.snapshots@[i]@, self.groups@.len()) by {
                assert(self.snapshots@[i]@ == snaps0[i]@);
            }
        }
    }


    /// Whether group `a` comes before group `b` in a listing sorted by `sort`.
    fn group_before(&self, sort: GroupSort, a: GroupId, b: GroupId) -> (r: bool)
        requires
            a.0 < self.spec_groups().len(),
            b.0 < self.spec_groups().len(),
        ensures
            r == spec_group_before(sort, self.spec_groups()[a.0 as int].summary, self.spec_groups()[b.0 as int].summary),
    {
        let x = self.groups[a.0 as usize].summary;
        let y = self.groups[b.0 as usize].summary;
        match sort {
            GroupSort::LastOccurrenceDesc => x.last_observed_line > y.last_observed_line
                || (x.last_observed_line == y.last_observed_line && x.id.0 < y.id.0),
            GroupSort::FirstOccurrenceAsc => x.first_observed_line < y.first_observed_line
                || (x.first_observed_line == y.first_observed_line && x.id.0 < y.id.0),
            GroupSort::ObservedCountDesc => x.observed_occurrence_count > y.observed_occurrence_count
                || (x.observed_occurrence_count == y.observed_occurrence_count && (x.last_observed_line
                > y.last_observed_line || (x.last_observed_line == y.last_observed_line && x.id.0 < y.id.0))),
        }
    }

    /// Lists the groups `query` admits, in its order, into `ids`.
    fn list_groups(&self, query: &GroupQuery, ids: &mut Vec<GroupId>)
        requires
            self.wf(),
            old(ids)@.len() == 0,
        ensures
            spec_query_listing(self.spec_groups(), *query, final(ids)@),
            forall|k: int| 0 <= k < final(ids)@.len() ==> (#[trigger] final(ids)@[k]).0 < self.spec_groups().len(),
            final(ids)@.len() <= self.spec_groups().len(),
    {
        let ghost gs = self.spec_groups();
        let mut i: usize = 0;
        proof {
            assert(ids@ =~= spec_query_ids(gs, query.kind, 0));
        }
        while i < self.groups.len()
            invariant
                self.wf(),
                gs == self.spec_groups(),
                0 <= i <= self.groups@.len(),
                ids@.to_multiset() == spec_query_ids(gs, query.kind, i as int).to_multiset(),
                ids@.len() <= i,
                forall|k: int| 0 <= k < ids@.len() ==> (#[trigger] ids@[k]).0 < i,
                forall|a: int, b: int| 0 <= a < b < ids@.len() ==> spec_group_before(query.sort,
                    gs[(#[trigger] ids@[a]).0 as int].summary, gs[(#[trigger] ids@[b]).0 as int].summary),
            decreases self.groups@.len() - i,
        {
            let admitted = match query.kind {
                None => true,
                Some(kind) => self.groups[i].summary.key.kind == kind,
            };
            proof {
                assert(gs[i as int] == self.groups@[i as int]@);
            }
            if admitted {
                let x = GroupId(i as u32);
                let mut p: usize = 0;
                while p < ids.len() && !self.group_before(query.sort, x, ids[p])
                    invariant
                        self.wf(),
                        gs == self.spec_groups(),
                        i < self.groups@.len(),
                        x.0 == i,
                        0 <= p <= ids@.len(),
                        forall|k: int| 0 <= k < ids@.len() ==> (#[trigger] ids@[k]).0 < i,
                        forall|k: int| 0 <= k < p ==> !spec_group_before(query.sort, gs[i as int].summary, gs[(#[trigger] ids@[k]).0 as int].summary),
                    decreases ids@.len() - p,
                {
                    p = p + 1;
                }
                let ghost s0 = ids@;
                proof {
                    vstd::seq_lib::to_multiset_insert(s0, p as int, x);
                    assert(spec_query_ids(gs, query.kind, i + 1) == spec_query_ids(gs, query.kind, i as int).push(x));
                    spec_query_ids(gs, query.kind, i as int).to_multiset_ensures();
                    assert(spec_query_ids(gs, query.kind, i as int).push(x).to_multiset() =~= spec_query_ids(gs, query.kind, i as int).to_multiset().insert(x));
                    assert(gs[i as int].summary.id == x);
                    assert forall|k: int| 0 <= k < s0.len() implies (#[trigger] gs[s0[k].0 as int]).summary.id == s0[k] by {
                        assert(gs[s0[k].0 as int] == self.groups@[s0[k].0 as int]@);
                    }
                }
                ids.insert(p, x);
                proof {
                    let s1 = ids@;
                    assert(s1 == s0.insert(p as int, x));
                    assert forall|a: int, b: int| 0 <= a < b < s1.len() implies spec_group_before(query.sort,
                        gs[(#[trigger] s1[a]).0 as int].summary, gs[(#[trigger] s1[b]).0 as int].summary) by {
                        if a < p && b < p {
                            assert(s1[a] == s0[a] && s1[b] == s0[b]);
                        } else if a < p && b == p {
                            assert(s1[a] == s0[a]);
                            assert(gs[s0[a].0 as int].summary.id == s0[a]);
                        } else if a < p && b > p {
                            assert(s1[a] == s0[a] && s1[b] == s0[b - 1]);
                        } else if a == p {
                            assert(s1[b] == s0[b - 1]);
                            if b - 1 > p {
                                assert(spec_group_before(query.sort, gs[s0[p as int].0 as int].summary, gs[s0[b - 1].0 as int].summary));
                            }
                        } else {
                            assert(s1[a] == s0[a - 1] && s1[b] == s0[b - 1]);
                        }
                    }
                }
            } else {
                proof {
                    assert(spec_query_ids(gs, query.kind, i + 1) == spec_query_ids(gs, query.kind, i as int));
                }
            }
            i = i + 1;
        }
    }

    /// Freezes the groups `query` admits, in its order, as a snapshot used at `now`.
    pub fn create_group_snapshot_at(&mut self, query: &GroupQuery, now: Instant) -> (r: Result<QuerySnapshotId, SnapshotError>)
        requires
            old(self).wf(),
        ensures
            final(self).wf(),
            spec_content_unchanged(*old(self), *final(self)),
            final(self).spec_limits() == old(self).spec_limits(),
            match r {
                Ok(id) => {
                    &&& id == QuerySnapshotId(old(self).spec_next_snapshot_id())
                    &&& final(self).spec_snapshots().len() > 0
                    &&& final(self).spec_snapshots().last().id == id
                    &&& final(self).spec_snapshots().last().revision == old(self).spec_stats().revision
                    &&& final(self).spec_snapshots().last().group_ids matches Some(ids)
                        && spec_query_listing(old(self).spec_groups(), *query, ids)
                },
                Err(e) => e == SnapshotError::IdVectorLimit || e == SnapshotError::Allocation || e == SnapshotError::IdExhausted,
            },
            r == Err::<QuerySnapshotId, SnapshotError>(SnapshotError::IdExhausted) ==> old(self).spec_next_snapshot_id() == u64::MAX,
            old(self).spec_next_snapshot_id() == u64::MAX ==> r is Err,
            r == Err::<QuerySnapshotId, SnapshotError>(SnapshotError::IdVectorLimit) ==> exists|capacity: usize|
                capacity >= spec_query_ids(old(self).spec_groups(), query.kind, old(self).spec_groups().len() as int).len()
                && #[trigger] (capacity * GROUP_ID_BYTES) > old(self).spec_limits().max_snapshot_id_bytes,
            spec_query_ids(old(self).spec_groups(), query.kind, old(self).spec_groups().len() as int).len() * GROUP_ID_BYTES
                > old(self).spec_limits().max_snapshot_id_bytes ==> r == Err::<QuerySnapshotId, SnapshotError>(SnapshotError::IdVectorLimit)
                || r == Err::<QuerySnapshotId, SnapshotError>(SnapshotError::Allocation),
    {
        let mut ids: Vec<GroupId> = Vec::new();
        if !vec_try_reserve_exact(&mut ids, self.groups.len()) {
            return Err(SnapshotError::Allocation);
        }
        self.list_groups(query, &mut ids);
        let capacity = vec_capacity(&ids);
        proof {
            ids@.to_multiset_ensures();
            spec_query_ids(self.spec_groups(), query.kind, self.spec_groups().len() as int).to_multiset_ensures();
        }
        let id_bytes = match snapshot_id_bytes(capacity, self.limits.max_snapshot_id_bytes) {
            Ok(b) => b,
            Err(e) => return Err(e),
        };
        self.install_snapshot(now, id_bytes, SnapshotData::Groups { ids })
    }

    pub fn create_group_snapshot(&mut self, query: &GroupQuery) -> (r: Result<QuerySnapshotId, SnapshotError>)
        requires
            old(self).wf(),
        ensures
            final(self).wf(),
            spec_content_unchanged(*old(self), *final(self)),
            final(self).spec_limits() == old(self).spec_limits(),
            match r {
                Ok(id) => {
                    &&& id == QuerySnapshotId(old(self).spec_next_snapshot_id())
                    &&& final(self).spec_snapshots().len() > 0
                    &&& final(self).spec_snapshots().last().id == id
                    &&& final(self).spec_snapshots().last().group_ids matches Some(ids)
                        && spec_query_listing(old(self).spec_groups(), *query, ids)
                },
                Err(e) => e == SnapshotError::IdVectorLimit || e == SnapshotError::Allocation || e == SnapshotError::IdExhausted,
            },
            r == Err::<QuerySnapshotId, SnapshotError>(SnapshotError::IdExhausted) ==> old(self).spec_next_snapshot_id() == u64::MAX,
            old(self).spec_next_snapshot_id() == u64::MAX ==> r is Err,
            r == Err::<QuerySnapshotId, SnapshotError>(SnapshotError::IdVectorLimit) ==> exists|capacity: usize|
                capacity >= spec_query_ids(old(self).spec_groups(), query.kind, old(self).spec_groups().len() as int).len()
                && #[trigger] (capacity * GROUP_ID_BYTES) > old(self).spec_limits().max_snapshot_id_bytes,
            spec_query_ids(old(self).spec_groups(), query.kind, old(self).spec_groups().len() as int).len() * GROUP_ID_BYTES
                > old(self).spec_limits().max_snapshot_id_bytes ==> r == Err::<QuerySnapshotId, SnapshotError>(SnapshotError::IdVectorLimit)
                || r == Err::<QuerySnapshotId, SnapshotError>(SnapshotError::Allocation),
    {
        self.create_group_snapshot_at(query, instant_now())
    }

    /// Freezes the members a group has now as a snapshot used at `now`.
    pub fn create_occurrence_snapshot_at(&mut self, group_id: GroupId, now: Instant) -> (r: Result<QuerySnapshotId, SnapshotError>)
        requires
            old(self).wf(),
        ensures
            final(self).wf(),
            spec_content_unchanged(*old(self), *final(self)),
            final(self).spec_limits() == old(self).spec_limits(),
            group_id.0 >= old(self).spec_groups().len() ==> r == Err::<QuerySnapshotId, SnapshotError>(SnapshotError::GroupNotFound),
            match r {
                Ok(id) => {
                    &&& id == QuerySnapshotId(old(self).spec_next_snapshot_id())
                    &&& final(self).spec_snapshots().len() > 0
                    &&& final(self).spec_snapshots().last().id == id
                    &&& final(self).spec_snapshots().last().revision == old(self).spec_stats().revision
                    &&& final(self).spec_snapshots().last().occurrences == Some((group_id,
                        old(self).spec_groups()[group_id.0 as int].event_ids.len() as usize))
                },
                Err(e) => e == SnapshotError::GroupNotFound || e == SnapshotError::Allocation || e == SnapshotError::IdExhausted,
            },
            r == Err::<QuerySnapshotId, SnapshotError>(SnapshotError::GroupNotFound) ==> group_id.0 >= old(self).spec_groups().len(),
            r == Err::<QuerySnapshotId, SnapshotError>(SnapshotError::IdExhausted) ==> old(self).spec_next_snapshot_id() == u64::MAX,
            old(self).spec_next_snapshot_id() == u64::MAX ==> r is Err,
    {
        let i = group_id.0 as usize;
        if i >= self.groups.len() {
            return Err(SnapshotError::GroupNotFound);
        }
        let members = &self.groups[i].event_ids;
        let frozen_len = members.len();
        let max_event_id = if frozen_len == 0 { None } else { Some(members[frozen_len - 1]) };
        proof {
            assert(self.spec_groups()[i as int] == self.groups@[i as int]@);
        }
        self.install_snapshot(now, 0, SnapshotData::Occurrences { group_id, frozen_len, max_event_id })
    }

    pub fn create_occurrence_snapshot(&mut self, group_id: GroupId) -> (r: Result<QuerySnapshotId, SnapshotError>)
        requires
            old(self).wf(),
        ensures
            final(self).wf(),
            spec_content_unchanged(*old(self), *final(self)),
            final(self).spec_limits() == old(self).spec_limits(),
            group_id.0 >= old(self).spec_groups().len() ==> r == Err::<QuerySnapshotId, SnapshotError>(SnapshotError::GroupNotFound),
            r matches Ok(id) ==> id == QuerySnapshotId(old(self).spec_next_snapshot_id()) && final(self).spec_snapshots().len() > 0
                && final(self).spec_snapshots().last().occurrences == Some((group_id,
                old(self).spec_groups()[group_id.0 as int].event_ids.len() as usize)),
            r == Err::<QuerySnapshotId, SnapshotError>(SnapshotError::IdExhausted) ==> old(self).spec_next_snapshot_id() == u64::MAX,
            old(self).spec_next_snapshot_id() == u64::MAX ==> r is Err,
            r is Err ==> r == Err::<QuerySnapshotId, SnapshotError>(SnapshotError::GroupNotFound)
                || r == Err::<QuerySnapshotId, SnapshotError>(SnapshotError::Allocation)
                || r == Err::<QuerySnapshotId, SnapshotError>(SnapshotError::IdExhausted),
            r == Err::<QuerySnapshotId, SnapshotError>(SnapshotError::GroupNotFound) ==> group_id.0 >= old(self).spec_groups().len(),
    {
        self.create_occurrence_snapshot_at(group_id, instant_now())
    }

    /// A page of a group snapshot, read at `now`.
    pub fn group_snapshot_page_at(&mut self, snapshot_id: QuerySnapshotId, page: PageSpec, now: Instant) -> (r: Result<GroupPage, SnapshotError>)
        requires
            old(self).wf(),
            page.wf(),
        ensures
            final(self).wf(),
            spec_content_unchanged(*old(self), *final(self)),
            final(self).spec_limits() == old(self).spec_limits(),
            match r {
                Ok(out) => exists|k: int| 0 <= k < final(self).spec_snapshots().len()
                    && (#[trigger] final(self).spec_snapshots()[k]).id == snapshot_id
                    && spec_group_page(final(self).spec_snapshots()[k], final(self).spec_groups(), snapshot_id, page, out),
                Err(e) => e == SnapshotError::Allocation
                    || spec_page_refusal(final(self).spec_snapshots(), final(self).spec_retired(), snapshot_id, true) == Some(e),
            },
            spec_page_refusal(final(self).spec_snapshots(), final(self).spec_retired(), snapshot_id, true) matches Some(e)
                ==> r == Err::<GroupPage, SnapshotError>(e),
            r == Err::<GroupPage, SnapshotError>(SnapshotError::Allocation) ==> spec_page_refusal(final(self).spec_snapshots(),
                final(self).spec_retired(), snapshot_id, true) is None,
    {
        let index = match self.active_snapshot(snapshot_id, true, now) {
            Ok(i) => i,
            Err(e) => return Err(e),
        };
        let ghost v = self.spec_snapshots()[index as int];
        let snapshot = &self.snapshots[index];
        proof {
            assert(v == snapshot@);
        }
        let ids = match &snapshot.data {
            SnapshotData::Groups { ids } => ids,
            SnapshotData::Occurrences { .. } => {
                assert(false);
                return Err(SnapshotError::WrongKind);
            },
        };
        let total = ids.len();
        let start = if page.offset < total { page.offset } else { total };
        let end = if page.limit < total - start { start + page.limit } else { total };
        let mut items: Vec<ProblemGroupSummary> = Vec::new();
        if !vec_try_reserve_exact(&mut items, end - start) {
            return Err(SnapshotError::Allocation);
        }
        let mut k = start;
        proof {
            assert(spec_snapshot_in_range(self.snapshots@[index as int]@, self.groups@.len()));
            assert(ids@ == v.group_ids->0);
            assert forall|j: int| 0 <= j < ids@.len() implies (#[trigger] ids@[j]).0 < self.groups@.len() by {
                assert(v.group_ids->0[j] == ids@[j]);
            }
        }
        while k < end
            invariant
                start <= k <= end <= ids@.len(),
                ids@ == v.group_ids->0,
                forall|j: int| 0 <= j < ids@.len() ==> (#[trigger] ids@[j]).0 < self.groups@.len(),
                items@ == ids@.subrange(start as int, k as int).map_values(|g: GroupId| self.spec_groups()[g.0 as int].summary),
            decreases end - k,
        {
            let g = ids[k];
            proof {
                assert(self.spec_groups()[g.0 as int] == self.groups@[g.0 as int]@);
            }
            items.push(self.groups[g.0 as usize].summary);
            proof {
                assert(ids@.subrange(start as int, k + 1).map_values(|g: GroupId| self.spec_groups()[g.0 as int].summary)
                    =~= ids@.subrange(start as int, k as int).map_values(|g: GroupId| self.spec_groups()[g.0 as int].summary).push(
                    self.spec_groups()[g.0 as int].summary));
            }
            k = k + 1;
        }
        let revision = snapshot.revision;
        let next_offset = if end < total { Some(end) } else { None };
        let out = GroupPage { snapshot_id, revision, total, items, next_offset };
        proof {
            assert(spec_group_page(v, self.spec_groups(), snapshot_id, page, out));
        }
        Ok(out)
    }

    pub fn group_snapshot_page(&mut self, snapshot_id: QuerySnapshotId, page: PageSpec) -> (r: Result<GroupPage, SnapshotError>)
        requires
            old(self).wf(),
            page.wf(),
        ensures
            final(self).wf(),
            spec_content_unchanged(*old(self), *final(self)),
            final(self).spec_limits() == old(self).spec_limits(),
            match r {
                Ok(out) => exists|k: int| 0 <= k < final(self).spec_snapshots().len()
                    && (#[trigger] final(self).spec_snapshots()[k]).id == snapshot_id
                    && spec_group_page(final(self).spec_snapshots()[k], final(self).spec_groups(), snapshot_id, page, out),
                Err(e) => e == SnapshotError::Allocation
                    || spec_page_refusal(final(self).spec_snapshots(), final(self).spec_retired(), snapshot_id, true) == Some(e),
            },
            spec_page_refusal(final(self).spec_snapshots(), final(self).spec_retired(), snapshot_id, true) matches Some(e)
                ==> r == Err::<GroupPage, SnapshotError>(e),
            r == Err::<GroupPage, SnapshotError>(SnapshotError::Allocation) ==> spec_page_refusal(final(self).spec_snapshots(),
                final(self).spec_retired(), snapshot_id, true) is None,
    {
        self.group_snapshot_page_at(snapshot_id, page, instant_now())
    }

    /// A page of an occurrence snapshot, read at `now`.
    pub fn occurrence_snapshot_page_at(&mut self, snapshot_id: QuerySnapshotId, page: PageSpec, now: Instant) -> (r: Result<OccurrencePage, SnapshotError>)
        requires
            old(self).wf(),
            page.wf(),
        ensures
            final(self).wf(),
            spec_content_unchanged(*old(self), *final(self)),
            final(self).spec_limits() == old(self).spec_limits(),
            match r {
                Ok(out) => exists|k: int| 0 <= k < final(self).spec_snapshots().len()
                    && (#[trigger] final(self).spec_snapshots()[k]).id == snapshot_id
                    && spec_occurrence_page(final(self).spec_snapshots()[k], final(self).spec_groups(), snapshot_id, page, out),
                Err(e) => e == SnapshotError::Allocation
                    || spec_page_refusal(final(self).spec_snapshots(), final(self).spec_retired(), snapshot_id, false) == Some(e),
            },
            spec_page_refusal(final(self).spec_snapshots(), final(self).spec_retired(), snapshot_id, false) matches Some(e)
                ==> r == Err::<OccurrencePage, SnapshotError>(e),
            r == Err::<OccurrencePage, SnapshotError>(SnapshotError::Allocation) ==> spec_page_refusal(final(self).spec_snapshots(),
                final(self).spec_retired(), snapshot_id, false) is None,
    {
        let index = match self.active_snapshot(snapshot_id, false, now) {
            Ok(i) => i,
            Err(e) => return Err(e),
        };
        let ghost v = self.spec_snapshots()[index as int];
        let snapshot = &self.snapshots[index];
        proof {
            assert(v == snapshot@);
            assert(spec_snapshot_in_range(self.snapshots@[index as int]@, self.groups@.len()));
        }
        let (group_id, frozen_len) = match &snapshot.data {
            SnapshotData::Occurrences { group_id, frozen_len, .. } => (*group_id, *frozen_len),
            SnapshotData::Groups { .. } => {
                assert(false);
                return Err(SnapshotError::WrongKind);
            },
        };
        let revision = snapshot.revision;
        let members = &self.groups[group_id.0 as usize].event_ids;
        proof {
            assert(self.spec_groups()[group_id.0 as int] == self.groups@[group_id.0 as int]@);
        }
        let total = if frozen_len < members.len() { frozen_len } else { members.len() };
        let start = if page.offset < total { page.offset } else { total };
        let end = if page.limit < total - start { start + page.limit } else { total };
        let mut items: Vec<ProblemEventId> = Vec::new();
        if !vec_try_reserve_exact(&mut items, end - start) {
            return Err(SnapshotError::Allocation);
        }
        let mut k = start;
        while k < end
            invariant
                start <= k <= end <= members@.len(),
                items@ == members@.subrange(start as int, k as int),
            decreases end - k,
        {
            items.push(members[k]);
            proof {
                assert(members@.subrange(start as int, k + 1) =~= members@.subrange(start as int, k as int).push(members@[k as int]));
            }
            k = k + 1;
        }
        let next_offset = if end < total { Some(end) } else { None };
        let out = OccurrencePage { snapshot_id, revision, total, items, next_offset };
        proof {
            assert(spec_occurrence_page(v, self.spec_groups(), snapshot_id, page, out));
        }
        Ok(out)
    }

    pub fn occurrence_snapshot_page(&mut self, snapshot_id: QuerySnapshotId, page: PageSpec) -> (r: Result<OccurrencePage, SnapshotError>)
        requires
            old(self).wf(),
            page.wf(),
        ensures
            final(self).wf(),
            spec_content_unchanged(*old(self), *final(self)),
            final(self).spec_limits() == old(self).spec_limits(),
            match r {
                Ok(out) => exists|k: int| 0 <= k < final(self).spec_snapshots().len()
                    && (#[trigger] final(self).spec_snapshots()[k]).id == snapshot_id
                    && spec_occurrence_page(final(self).spec_snapshots()[k], final(self).spec_groups(), snapshot_id, page, out),
                Err(e) => e == SnapshotError::Allocation
                    || spec_page_refusal(final(self).spec_snapshots(), final(self).spec_retired(), snapshot_id, false) == Some(e),
            },
            spec_page_refusal(final(self).spec_snapshots(), final(self).spec_retired(), snapshot_id, false) matches Some(e)
                ==> r == Err::<OccurrencePage, SnapshotError>(e),
            r == Err::<OccurrencePage, SnapshotError>(SnapshotError::Allocation) ==> spec_page_refusal(final(self).spec_snapshots(),
                final(self).spec_retired(), snapshot_id, false) is None,
    {
        self.occurrence_snapshot_page_at(snapshot_id, page, instant_now())
    }

    /// Releases a live snapshot; `false` when none has that id.
    pub fn release_snapshot(&mut self, snapshot_id: QuerySnapshotId) -> (r: bool)
        requires
            old(self).wf(),
        ensures
            final(self).wf(),
            spec_content_unchanged(*old(self), *final(self)),
            final(self).spec_limits() == old(self).spec_limits(),
            r == spec_has_snapshot(old(self).spec_snapshots(), snapshot_id),
            r ==> final(self).spec_snapshots().len() == old(self).spec_snapshots().len() - 1
                && final(self).spec_retired() == spec_push_retired(old(self).spec_retired(), (snapshot_id, SnapshotError::Released)),
            !r ==> final(self).spec_snapshots() == old(self).spec_snapshots(),
    {
        let mut index: usize = 0;
        while index < self.snapshots.len() && self.snapshots[index].id.0 != snapshot_id.0
            invariant
                index <= self.snapshots@.len(),
                forall|j: int| 0 <= j < index ==> (#[trigger] self.snapshots@[j]).id != snapshot_id,
            decreases self.snapshots@.len() - index,
        {
            index = index + 1;
        }
        if index == self.snapshots.len() {
            proof {
                assert forall|j: int| 0 <= j < self.spec_snapshots().len() implies (#[trigger] self.spec_snapshots()[j]).id != snapshot_id by {
                    assert(self.spec_snapshots()[j] == self.snapshots@[j]@);
                }
            }
            return false;
        }
        proof {
            assert(self.spec_snapshots()[index as int].id == snapshot_id);
        }
        self.remove_snapshot(index, SnapshotError::Released);
        true
    }

    /// Forgets every occurrence and group; live snapshots are retired as reset.
    pub fn reset(&mut self)
        requires
            old(self).wf(),
        ensures
            final(self).wf(),
            final(self).spec_limits() == old(self).spec_limits(),
            final(self).spec_events().len() == 0,
            final(self).spec_refs().len() == 0,
            final(self).spec_groups().len() == 0,
            final(self).spec_stats() == spec_zero_stats(),
            final(self).spec_snapshots().len() == 0,
            final(self).spec_retired() == spec_retire_all(old(self).spec_retired(), old(self).spec_snapshots(), SnapshotError::Reset),
            final(self).spec_next_snapshot_id() == old(self).spec_next_snapshot_id(),
    {
        let ghost live = self.spec_snapshots();
        let mut i: usize = 0;
        proof {
            assert(live.len() == self.snapshots@.len());
            assert(live.take(0) =~= Seq::<SnapshotView>::empty());
            assert(live.skip(0) =~= live);
        }
        while self.snapshots.len() > 0
            invariant
                self.wf(),
                self.limits == old(self).limits,
                self.next_snapshot_id == old(self).next_snapshot_id,
                live == old(self).spec_snapshots(),
                live.len() <= DEFAULT_MAX_SNAPSHOTS,
                i <= live.len(),
                self.spec_snapshots() == live.skip(i as int),
                self.spec_retired() == spec_retire_all(old(self).spec_retired(), live.take(i as int), SnapshotError::Reset),
            decreases self.snapshots@.len(),
        {
            proof {
                assert(self.spec_snapshots().len() == self.snapshots@.len());
                assert(i < live.len());
                assert(live.take(i + 1).drop_last() =~= live.take(i as int));
                assert(live.take(i + 1).last() == live[i as int]);
                assert(live.skip(i + 1) =~= live.skip(i as int).remove(0));
            }
            self.remove_snapshot(0, SnapshotError::Reset);
            i = i + 1;
        }
        proof {
            assert(live.take(i as int) =~= live);
        }
        self.events.clear();
        self.observation_refs.clear();
        self.groups.clear();
        self.stats = ProblemStats::default();
        proof {
            assert(self.spec_groups() =~= Seq::<GroupView>::empty());
        }
    }

    /// The position of the group with `key`.
    fn find_group(&self, key: &GroupKey) -> (r: Option<usize>)
        requires
            self.wf(),
        ensures
            match r {
                Some(i) => i < self.spec_groups().len() && self.spec_groups()[i as int].summary.key@ == key@
                    && spec_group_index(self.spec_groups(), *key) == Some(i as int),
                None => spec_group_index(self.spec_groups(), *key) is None,
            },
    {
        let mut i: usize = 0;
        while i < self.groups.len()
            invariant
                self.wf(),
                0 <= i <= self.groups@.len(),
                forall|k: int| 0 <= k < i ==> (#[trigger] self.groups@[k]).summary.key@ != key@,
            decreases self.groups@.len() - i,
        {
            if self.groups[i].summary.key.same_as(key) {
                proof {
                    let g = self.spec_groups();
                    assert(g[i as int].summary.key@ == key@);
                    let w = choose|j: int| 0 <= j < g.len() && (#[trigger] g[j]).summary.key@ == key@;
                    assert(g[w].summary.key@ == key@);
                    if w != i {
                        assert(self.groups@[w].summary.key@ != self.groups@[i as int].summary.key@);
                    }
                }
                return Some(i);
            }
            i = i + 1;
        }
        proof {
            let g = self.spec_groups();
            assert forall|j: int| 0 <= j < g.len() implies (#[trigger] g[j]).summary.key@ != key@ by {
                assert(g[j] == self.groups@[j]@);
            }
        }
        None
    }
}

} // verus!
