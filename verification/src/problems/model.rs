use vstd::prelude::*;

verus! {

/// The most observation references a single occurrence materializes.
pub const MAX_MATERIALIZED_OBSERVATIONS: u8 = 8;
/// The most observation references a single occurrence adopts in total.
pub const MAX_ADOPTED_OBSERVATIONS: u16 = 4096;

#[derive(Debug, Clone, Copy, PartialEq, Eq, Hash, Structural)]
pub enum ProblemKind {
    JavaCrash,
    JavaOom,
    Anr,
    NativeCrash,
    ProcessRestart,
    SignalExit,
    LmkKill,
    KernelOomKill,
}

impl ProblemKind {
    /// The stable wire code of the kind.
    pub open spec fn spec_code(self) -> u8 {
        match self {
            ProblemKind::JavaCrash => 0,
            ProblemKind::JavaOom => 1,
            ProblemKind::Anr => 2,
            ProblemKind::NativeCrash => 3,
            ProblemKind::ProcessRestart => 4,
            ProblemKind::SignalExit => 5,
            ProblemKind::LmkKill => 6,
            ProblemKind::KernelOomKill => 7,
        }
    }

    pub fn code(self) -> (r: u8)
        ensures
            r == self.spec_code(),
    {
        match self {
            ProblemKind::JavaCrash => 0,
            ProblemKind::JavaOom => 1,
            ProblemKind::Anr => 2,
            ProblemKind::NativeCrash => 3,
            ProblemKind::ProcessRestart => 4,
            ProblemKind::SignalExit => 5,
            ProblemKind::LmkKill => 6,
            ProblemKind::KernelOomKill => 7,
        }
    }

    /// Every kind, in code order.
    pub fn all() -> (r: Vec<ProblemKind>)
        ensures
            r@.len() == 8,
            forall|i: int| 0 <= i < 8 ==> (#[trigger] r@[i]).spec_code() == i,
    {
        vec![
            ProblemKind::JavaCrash,
            ProblemKind::JavaOom,
            ProblemKind::Anr,
            ProblemKind::NativeCrash,
            ProblemKind::ProcessRestart,
            ProblemKind::SignalExit,
            ProblemKind::LmkKill,
            ProblemKind::KernelOomKill,
        ]
    }
}

#[derive(Debug, Clone, Copy, PartialEq, Eq, Hash, Structural)]
pub enum SignatureQuality {
    FullStack,
    TypeFile,
    TypeOnly,
    SignalOnly,
    StructuredFields,
    Minimal,
}

impl SignatureQuality {
    pub open spec fn spec_code(self) -> u8 {
        match self {
            SignatureQuality::FullStack => 0,
            SignatureQuality::TypeFile => 1,
            SignatureQuality::TypeOnly => 2,
            SignatureQuality::SignalOnly => 3,
            SignatureQuality::StructuredFields => 4,
            SignatureQuality::Minimal => 5,
        }
    }

    pub fn code(self) -> (r: u8)
        ensures
            r == self.spec_code(),
    {
        match self {
            SignatureQuality::FullStack => 0,
            SignatureQuality::TypeFile => 1,
            SignatureQuality::TypeOnly => 2,
            SignatureQuality::SignalOnly => 3,
            SignatureQuality::StructuredFields => 4,
            SignatureQuality::Minimal => 5,
        }
    }
}

#[derive(Debug, Clone, Copy, PartialEq, Eq, Hash, Structural)]
pub enum IdentityQuality {
    KnownProcess,
    UnknownProcess,
}

impl IdentityQuality {
    pub open spec fn spec_code(self) -> u8 {
        match self {
            IdentityQuality::KnownProcess => 0,
            IdentityQuality::UnknownProcess => 1,
        }
    }

    pub fn code(self) -> (r: u8)
        ensures
            r == self.spec_code(),
    {
        match self {
            IdentityQuality::KnownProcess => 0,
            IdentityQuality::UnknownProcess => 1,
        }
    }
}

/// Evidence bits attached to an occurrence.
#[derive(Debug, Default, Clone, Copy, PartialEq, Eq, Hash, Structural)]
pub struct EvidenceFlags(pub u16);

impl EvidenceFlags {
    #[allow(non_snake_case)]
    pub fn NONE() -> (r: EvidenceFlags)
        ensures
            r.0 == 0,
    {
        EvidenceFlags(0)
    }

    #[allow(non_snake_case)]
    pub fn PRIMARY() -> (r: EvidenceFlags)
        ensures
            r.0 == 1,
    {
        EvidenceFlags(1)
    }

    #[allow(non_snake_case)]
    pub fn STRUCTURED() -> (r: EvidenceFlags)
        ensures
            r.0 == 2,
    {
        EvidenceFlags(2)
    }

    #[allow(non_snake_case)]
    pub fn MULTILINE() -> (r: EvidenceFlags)
        ensures
            r.0 == 4,
    {
        EvidenceFlags(4)
    }

    #[allow(non_snake_case)]
    pub fn CORRELATED() -> (r: EvidenceFlags)
        ensures
            r.0 == 8,
    {
        EvidenceFlags(8)
    }

    pub fn from_bits(bits: u16) -> (r: Self)
        ensures
            r.0 == bits,
    {
        EvidenceFlags(bits)
    }

    pub fn bits(self) -> (r: u16)
        ensures
            r == self.0,
    {
        self.0
    }

    pub fn contains(self, other: Self) -> (r: bool)
        ensures
            r == (self.0 & other.0 == other.0),
    {
        self.0 & other.0 == other.0
    }

    pub fn insert(&mut self, other: Self)
        ensures
            final(self).0 == old(self).0 | other.0,
    {
        self.0 = self.0 | other.0;
    }
}

impl core::ops::BitOr for EvidenceFlags {
    type Output = EvidenceFlags;

    fn bitor(self, rhs: EvidenceFlags) -> (r: EvidenceFlags) {
        EvidenceFlags(self.0 | rhs.0)
    }
}

impl vstd::std_specs::ops::BitOrSpecImpl for EvidenceFlags {
    open spec fn obeys_bitor_spec() -> bool {
        true
    }

    open spec fn bitor_req(self, rhs: EvidenceFlags) -> bool {
        true
    }

    open spec fn bitor_spec(self, rhs: EvidenceFlags) -> EvidenceFlags {
        EvidenceFlags(self.0 | rhs.0)
    }
}

/// Outcome bits attached to an occurrence.
#[derive(Debug, Default, Clone, Copy, PartialEq, Eq, Hash, Structural)]
pub struct OutcomeFlags(pub u8);

impl OutcomeFlags {
    #[allow(non_snake_case)]
    pub fn NONE() -> (r: OutcomeFlags)
        ensures
            r.0 == 0,
    {
        OutcomeFlags(0)
    }

    #[allow(non_snake_case)]
    pub fn KILL_REQUESTED() -> (r: OutcomeFlags)
        ensures
            r.0 == 1,
    {
        OutcomeFlags(1)
    }

    #[allow(non_snake_case)]
    pub fn KILL_ISSUED() -> (r: OutcomeFlags)
        ensures
            r.0 == 2,
    {
        OutcomeFlags(2)
    }

    #[allow(non_snake_case)]
    pub fn DEATH_OBSERVED() -> (r: OutcomeFlags)
        ensures
            r.0 == 4,
    {
        OutcomeFlags(4)
    }

    #[allow(non_snake_case)]
    pub fn START_AFTER_DEATH_OBSERVED() -> (r: OutcomeFlags)
        ensures
            r.0 == 8,
    {
        OutcomeFlags(8)
    }

    #[allow(non_snake_case)]
    pub fn EXPLICITLY_RECOVERABLE() -> (r: OutcomeFlags)
        ensures
            r.0 == 16,
    {
        OutcomeFlags(16)
    }

    #[allow(non_snake_case)]
    pub fn CONFLICT() -> (r: OutcomeFlags)
        ensures
            r.0 == 32,
    {
        OutcomeFlags(32)
    }

    pub fn from_bits(bits: u8) -> (r: Self)
        ensures
            r.0 == bits,
    {
        OutcomeFlags(bits)
    }

    pub fn bits(self) -> (r: u8)
        ensures
            r == self.0,
    {
        self.0
    }

    pub fn contains(self, other: Self) -> (r: bool)
        ensures
            r == (self.0 & other.0 == other.0),
    {
        self.0 & other.0 == other.0
    }

    pub fn insert(&mut self, other: Self)
        ensures
            final(self).0 == old(self).0 | other.0,
    {
        self.0 = self.0 | other.0;
    }
}

impl core::ops::BitOr for OutcomeFlags {
    type Output = OutcomeFlags;

    fn bitor(self, rhs: OutcomeFlags) -> (r: OutcomeFlags) {
        OutcomeFlags(self.0 | rhs.0)
    }
}

impl vstd::std_specs::ops::BitOrSpecImpl for OutcomeFlags {
    open spec fn obeys_bitor_spec() -> bool {
        true
    }

    open spec fn bitor_req(self, rhs: OutcomeFlags) -> bool {
        true
    }

    open spec fn bitor_spec(self, rhs: OutcomeFlags) -> OutcomeFlags {
        OutcomeFlags(self.0 | rhs.0)
    }
}

/// Boundary bits attached to an occurrence.
#[derive(Debug, Default, Clone, Copy, PartialEq, Eq, Hash, Structural)]
pub struct BoundaryFlags(pub u8);

impl BoundaryFlags {
    #[allow(non_snake_case)]
    pub fn NONE() -> (r: BoundaryFlags)
        ensures
            r.0 == 0,
    {
        BoundaryFlags(0)
    }

    #[allow(non_snake_case)]
    pub fn TRUNCATED_BY_INPUT() -> (r: BoundaryFlags)
        ensures
            r.0 == 1,
    {
        BoundaryFlags(1)
    }

    #[allow(non_snake_case)]
    pub fn OBSERVATION_REFS_TRUNCATED() -> (r: BoundaryFlags)
        ensures
            r.0 == 2,
    {
        BoundaryFlags(2)
    }

    #[allow(non_snake_case)]
    pub fn OBSERVATION_COUNT_LIMITED() -> (r: BoundaryFlags)
        ensures
            r.0 == 4,
    {
        BoundaryFlags(4)
    }

    #[allow(non_snake_case)]
    pub fn LINE_INDEX_OVERFLOW() -> (r: BoundaryFlags)
        ensures
            r.0 == 8,
    {
        BoundaryFlags(8)
    }

    #[allow(non_snake_case)]
    pub fn CORRELATION_LIMITED() -> (r: BoundaryFlags)
        ensures
            r.0 == 16,
    {
        BoundaryFlags(16)
    }

    #[allow(non_snake_case)]
    pub fn TRUNCATED_BY_LIMIT() -> (r: BoundaryFlags)
        ensures
            r.0 == 32,
    {
        BoundaryFlags(32)
    }

    pub fn from_bits(bits: u8) -> (r: Self)
        ensures
            r.0 == bits,
    {
        BoundaryFlags(bits)
    }

    pub fn bits(self) -> (r: u8)
        ensures
            r == self.0,
    {
        self.0
    }

    pub fn contains(self, other: Self) -> (r: bool)
        ensures
            r == (self.0 & other.0 == other.0),
    {
        self.0 & other.0 == other.0
    }

    pub fn insert(&mut self, other: Self)
        ensures
            final(self).0 == old(self).0 | other.0,
    {
        self.0 = self.0 | other.0;
    }
}

impl core::ops::BitOr for BoundaryFlags {
    type Output = BoundaryFlags;

    fn bitor(self, rhs: BoundaryFlags) -> (r: BoundaryFlags) {
        BoundaryFlags(self.0 | rhs.0)
    }
}

impl vstd::std_specs::ops::BitOrSpecImpl for BoundaryFlags {
    open spec fn obeys_bitor_spec() -> bool {
        true
    }

    open spec fn bitor_req(self, rhs: BoundaryFlags) -> bool {
        true
    }

    open spec fn bitor_spec(self, rhs: BoundaryFlags) -> BoundaryFlags {
        BoundaryFlags(self.0 | rhs.0)
    }
}

/// The packed value of a valid month/day/hour/minute/second/millisecond tuple.
pub open spec fn spec_packed_timestamp(month: u8, day: u8, hour: u8, minute: u8, second: u8, millis: u16) -> int {
    (((((month * 32 + day) * 24 + hour) * 60 + minute) * 60 + second) * 1000 + millis) + 1
}

/// Whether the fields form a valid Android log timestamp.
pub open spec fn spec_valid_timestamp_fields(month: u8, day: u8, hour: u8, minute: u8, second: u8, millis: u16) -> bool {
    &&& 1 <= month <= 12
    &&& 1 <= day <= 31
    &&& hour <= 23
    &&& minute <= 59
    &&& second <= 59
    &&& millis <= 999
}

/// An optional packed Android log timestamp. Zero represents an unavailable timestamp.
#[derive(Debug, Default, Clone, Copy, PartialEq, Eq, Hash, PartialOrd, Ord, Structural)]
pub struct PackedLogTimestamp(pub u64);

impl PackedLogTimestamp {
    #[allow(non_snake_case)]
    pub fn UNKNOWN() -> (r: PackedLogTimestamp)
        ensures
            r.0 == 0,
    {
        PackedLogTimestamp(0)
    }

    pub fn new(month: u8, day: u8, hour: u8, minute: u8, second: u8, millis: u16) -> (r: Option<Self>)
        ensures
            r is Some <==> spec_valid_timestamp_fields(month, day, hour, minute, second, millis),
            r matches Some(t) ==> t.0 == spec_packed_timestamp(month, day, hour, minute, second, millis),
    {
        if month < 1 || month > 12 || day < 1 || day > 31 || hour > 23 || minute > 59 || second > 59
            || millis > 999 {
            return None;
        }
        let a: u64 = month as u64 * 32 + day as u64;
        assert(a <= 415);
        let b: u64 = a * 24 + hour as u64;
        assert(b <= 415 * 24 + 23) by (nonlinear_arith)
            requires
                a <= 415,
                hour <= 23,
                b == a * 24 + hour,
        ;
        let c: u64 = b * 60 + minute as u64;
        assert(c <= (415 * 24 + 23) * 60 + 59) by (nonlinear_arith)
            requires
                b <= 415 * 24 + 23,
                minute <= 59,
                c == b * 60 + minute,
        ;
        let d: u64 = c * 60 + second as u64;
        assert(d <= ((415 * 24 + 23) * 60 + 59) * 60 + 59) by (nonlinear_arith)
            requires
                c <= (415 * 24 + 23) * 60 + 59,
                second <= 59,
                d == c * 60 + second,
        ;
        let e: u64 = d * 1000 + millis as u64 + 1;
        Some(PackedLogTimestamp(e))
    }

    pub fn is_known(self) -> (r: bool)
        ensures
            r == (self.0 != 0),
    {
        self.0 != 0
    }

    pub fn raw(self) -> (r: u64)
        ensures
            r == self.0,
    {
        self.0
    }
}

#[derive(Debug, Clone, Copy, PartialEq, Eq, Hash, Structural)]
pub struct ProblemEventId(pub u32);

#[derive(Debug, Clone, Copy, PartialEq, Eq, Hash, Structural)]
pub struct ProcessInstanceKey(pub u32);

#[derive(Debug, Clone, Copy, PartialEq, Eq, Structural)]
pub enum LineNumberError {
    Zero,
    IndexOverflow,
}

/// Convert the public 1-based line convention to the compact internal 0-based index.
pub fn internal_line_index(public_line: u64) -> (r: Result<u32, LineNumberError>)
    ensures
        public_line == 0 ==> r == Err::<u32, LineNumberError>(LineNumberError::Zero),
        public_line != 0 && public_line - 1 > u32::MAX ==> r == Err::<u32, LineNumberError>(
            LineNumberError::IndexOverflow,
        ),
        public_line != 0 && public_line - 1 <= u32::MAX ==> r == Ok::<u32, LineNumberError>(
            (public_line - 1) as u32,
        ),
{
    if public_line == 0 {
        return Err(LineNumberError::Zero);
    }
    let index = public_line - 1;
    if index > u32::MAX as u64 {
        Err(LineNumberError::IndexOverflow)
    } else {
        Ok(index as u32)
    }
}

/// Convert the compact internal 0-based index back to the public 1-based line number.
pub fn public_line_number(internal_line: u32) -> (r: u64)
    ensures
        r == internal_line + 1,
{
    internal_line as u64 + 1
}

#[derive(Debug, Clone, Copy, PartialEq, Eq, Structural)]
pub struct ProblemEventDraft {
    pub start_line: u32,
    pub end_line: u32,
    pub anchor_line: u32,
    pub anchor_timestamp: PackedLogTimestamp,
    pub pid: u32,
    pub process_instance: ProcessInstanceKey,
    pub kind: ProblemKind,
    pub evidence: EvidenceFlags,
    pub outcome: OutcomeFlags,
    pub boundary: BoundaryFlags,
}

impl ProblemEventDraft {
    pub fn minimal(kind: ProblemKind) -> (r: Self)
        ensures
            r == (ProblemEventDraft {
                start_line: 0,
                end_line: 0,
                anchor_line: 0,
                anchor_timestamp: PackedLogTimestamp(0),
                pid: 0,
                process_instance: ProcessInstanceKey(0),
                kind,
                evidence: EvidenceFlags(0),
                outcome: OutcomeFlags(0),
                boundary: BoundaryFlags(0),
            }),
    {
        ProblemEventDraft {
            start_line: 0,
            end_line: 0,
            anchor_line: 0,
            anchor_timestamp: PackedLogTimestamp(0),
            pid: 0,
            process_instance: ProcessInstanceKey(0),
            kind,
            evidence: EvidenceFlags(0),
            outcome: OutcomeFlags(0),
            boundary: BoundaryFlags(0),
        }
    }
}

#[derive(Debug, Clone, Copy, PartialEq, Eq, Structural)]
pub enum ProblemEventError {
    InvalidRange,
    InvalidAnchor,
    TooManyMaterializedObservations,
    InvalidObservationTotal,
}

/// The error, if any, that `ProblemEvent::new` reports for the given arguments.
pub open spec fn spec_event_error(draft: ProblemEventDraft, observation_len: u8, observation_total: u16) -> Option<ProblemEventError> {
    if draft.start_line > draft.end_line {
        Some(ProblemEventError::InvalidRange)
    } else if !(draft.start_line <= draft.anchor_line <= draft.end_line) {
        Some(ProblemEventError::InvalidAnchor)
    } else if observation_len > MAX_MATERIALIZED_OBSERVATIONS {
        Some(ProblemEventError::TooManyMaterializedObservations)
    } else if observation_total > MAX_ADOPTED_OBSERVATIONS || observation_len > observation_total {
        Some(ProblemEventError::InvalidObservationTotal)
    } else {
        None
    }
}

/// Compact occurrence metadata. Raw log text and fingerprints live outside this record.
#[derive(Debug, Clone, Copy, PartialEq, Eq, Structural)]
pub struct ProblemEvent {
    anchor_timestamp: PackedLogTimestamp,
    start_line: u32,
    end_line: u32,
    anchor_line: u32,
    pid: u32,
    process_instance: u32,
    group_id: u32,
    observation_start: u32,
    observation_total: u16,
    evidence: EvidenceFlags,
    kind: ProblemKind,
    observation_len: u8,
    outcome: OutcomeFlags,
    boundary: BoundaryFlags,
}

impl ProblemEvent {
    /// The draft that the event stores.
    pub closed spec fn spec_draft(self) -> ProblemEventDraft {
        ProblemEventDraft {
            start_line: self.start_line,
            end_line: self.end_line,
            anchor_line: self.anchor_line,
            anchor_timestamp: self.anchor_timestamp,
            pid: self.pid,
            process_instance: ProcessInstanceKey(self.process_instance),
            kind: self.kind,
            evidence: self.evidence,
            outcome: self.outcome,
            boundary: self.boundary,
        }
    }

    pub closed spec fn spec_group_id(self) -> u32 {
        self.group_id
    }

    pub closed spec fn spec_observation_start(self) -> u32 {
        self.observation_start
    }

    pub closed spec fn spec_observation_len(self) -> u8 {
        self.observation_len
    }

    pub closed spec fn spec_observation_total(self) -> u16 {
        self.observation_total
    }

    /// The stored event always satisfies the constructor's checks.
    pub closed spec fn wf(self) -> bool {
        spec_event_error(self.spec_draft(), self.observation_len, self.observation_total) is None
    }

    pub fn new(
        draft: ProblemEventDraft,
        group_id: u32,
        observation_start: u32,
        observation_len: u8,
        observation_total: u16,
    ) -> (r: Result<Self, ProblemEventError>)
        ensures
            spec_event_error(draft, observation_len, observation_total) matches Some(e) ==> r
                == Err::<Self, ProblemEventError>(e),
            spec_event_error(draft, observation_len, observation_total) is None ==> r is Ok,
            r matches Ok(event) ==> {
                &&& event.spec_draft() == draft
                &&& event.spec_group_id() == group_id
                &&& event.spec_observation_start() == observation_start
                &&& event.spec_observation_len() == observation_len
                &&& event.spec_observation_total() == observation_total
                &&& event.wf()
            },
    {
        if draft.start_line > draft.end_line {
            return Err(ProblemEventError::InvalidRange);
        }
        if !(draft.start_line <= draft.anchor_line && draft.anchor_line <= draft.end_line) {
            return Err(ProblemEventError::InvalidAnchor);
        }
        if observation_len > MAX_MATERIALIZED_OBSERVATIONS {
            return Err(ProblemEventError::TooManyMaterializedObservations);
        }
        if observation_total > MAX_ADOPTED_OBSERVATIONS || observation_len as u16 > observation_total {
            return Err(ProblemEventError::InvalidObservationTotal);
        }
        Ok(ProblemEvent {
            anchor_timestamp: draft.anchor_timestamp,
            start_line: draft.start_line,
            end_line: draft.end_line,
            anchor_line: draft.anchor_line,
            pid: draft.pid,
            process_instance: draft.process_instance.0,
            group_id,
            observation_start,
            observation_total,
            evidence: draft.evidence,
            kind: draft.kind,
            observation_len,
            outcome: draft.outcome,
            boundary: draft.boundary,
        })
    }

    pub fn start_line(self) -> (r: u32)
        ensures
            r == self.spec_draft().start_line,
    {
        self.start_line
    }

    pub fn end_line(self) -> (r: u32)
        ensures
            r == self.spec_draft().end_line,
    {
        self.end_line
    }

    pub fn anchor_line(self) -> (r: u32)
        ensures
            r == self.spec_draft().anchor_line,
    {
        self.anchor_line
    }

    pub fn anchor_timestamp(self) -> (r: PackedLogTimestamp)
        ensures
            r == self.spec_draft().anchor_timestamp,
    {
        self.anchor_timestamp
    }

    pub fn pid(self) -> (r: u32)
        ensures
            r == self.spec_draft().pid,
    {
        self.pid
    }

    pub fn process_instance(self) -> (r: ProcessInstanceKey)
        ensures
            r == self.spec_draft().process_instance,
    {
        ProcessInstanceKey(self.process_instance)
    }

    pub fn group_id_raw(self) -> (r: u32)
        ensures
            r == self.spec_group_id(),
    {
        self.group_id
    }

    pub fn observation_start(self) -> (r: u32)
        ensures
            r == self.spec_observation_start(),
    {
        self.observation_start
    }

    pub fn observation_len(self) -> (r: u8)
        ensures
            r == self.spec_observation_len(),
    {
        self.observation_len
    }

    pub fn observation_total(self) -> (r: u16)
        ensures
            r == self.spec_observation_total(),
    {
        self.observation_total
    }

    pub fn kind(self) -> (r: ProblemKind)
        ensures
            r == self.spec_draft().kind,
    {
        self.kind
    }

    pub fn evidence(self) -> (r: EvidenceFlags)
        ensures
            r == self.spec_draft().evidence,
    {
        self.evidence
    }

    pub fn outcome(self) -> (r: OutcomeFlags)
        ensures
            r == self.spec_draft().outcome,
    {
        self.outcome
    }

    pub fn boundary(self) -> (r: BoundaryFlags)
        ensures
            r == self.spec_draft().boundary,
    {
        self.boundary
    }
}

} // verus!
