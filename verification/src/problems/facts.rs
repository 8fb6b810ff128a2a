use vstd::prelude::*;
use crate::problems::provenance::{EvidenceFormat, LineProvenance};

verus! {

#[derive(Debug, Clone, Copy, PartialEq, Eq, Hash, Structural)]
pub enum RuleId {
    JavaUncaughtV1,
    JavaOomV1,
    ManagedAmCrashV1,
    AnrActivityManagerV1,
    NativeTombstoneV1,
    NativeLibcSignalV1,
    ProcessStartV1,
    ProcessDiedV1,
    ProcessRestartV1,
    SignalExitV1,
    LmkdKillV1,
    KernelOomKillV1,
    AmKillRequestV1,
}

impl RuleId {
    /// The stable numeric id of a rule.
    pub open spec fn spec_raw(self) -> u16 {
        match self {
            RuleId::JavaUncaughtV1 => 1,
            RuleId::JavaOomV1 => 2,
            RuleId::ManagedAmCrashV1 => 3,
            RuleId::AnrActivityManagerV1 => 4,
            RuleId::NativeTombstoneV1 => 5,
            RuleId::NativeLibcSignalV1 => 6,
            RuleId::ProcessStartV1 => 7,
            RuleId::ProcessDiedV1 => 8,
            RuleId::ProcessRestartV1 => 9,
            RuleId::SignalExitV1 => 10,
            RuleId::LmkdKillV1 => 11,
            RuleId::KernelOomKillV1 => 12,
            RuleId::AmKillRequestV1 => 13,
        }
    }

    pub fn raw(self) -> (r: u16)
        ensures
            r == self.spec_raw(),
    {
        match self {
            RuleId::JavaUncaughtV1 => 1,
            RuleId::JavaOomV1 => 2,
            RuleId::ManagedAmCrashV1 => 3,
            RuleId::AnrActivityManagerV1 => 4,
            RuleId::NativeTombstoneV1 => 5,
            RuleId::NativeLibcSignalV1 => 6,
            RuleId::ProcessStartV1 => 7,
            RuleId::ProcessDiedV1 => 8,
            RuleId::ProcessRestartV1 => 9,
            RuleId::SignalExitV1 => 10,
            RuleId::LmkdKillV1 => 11,
            RuleId::KernelOomKillV1 => 12,
            RuleId::AmKillRequestV1 => 13,
        }
    }

    pub open spec fn spec_from_raw(value: u16) -> Option<RuleId> {
        if value == 1 {
            Some(RuleId::JavaUncaughtV1)
        }         else if value == 2 {
            Some(RuleId::JavaOomV1)
        }         else if value == 3 {
            Some(RuleId::ManagedAmCrashV1)
        }         else if value == 4 {
            Some(RuleId::AnrActivityManagerV1)
        }         else if value == 5 {
            Some(RuleId::NativeTombstoneV1)
        }         else if value == 6 {
            Some(RuleId::NativeLibcSignalV1)
        }         else if value == 7 {
            Some(RuleId::ProcessStartV1)
        }         else if value == 8 {
            Some(RuleId::ProcessDiedV1)
        }         else if value == 9 {
            Some(RuleId::ProcessRestartV1)
        }         else if value == 10 {
            Some(RuleId::SignalExitV1)
        }         else if value == 11 {
            Some(RuleId::LmkdKillV1)
        }         else if value == 12 {
            Some(RuleId::KernelOomKillV1)
        }         else if value == 13 {
            Some(RuleId::AmKillRequestV1)
        } else {
            None
        }
    }

    pub fn from_raw(value: u16) -> (r: Option<RuleId>)
        ensures
            r == Self::spec_from_raw(value),
    {
        match value {
            1 => Some(RuleId::JavaUncaughtV1),
            2 => Some(RuleId::JavaOomV1),
            3 => Some(RuleId::ManagedAmCrashV1),
            4 => Some(RuleId::AnrActivityManagerV1),
            5 => Some(RuleId::NativeTombstoneV1),
            6 => Some(RuleId::NativeLibcSignalV1),
            7 => Some(RuleId::ProcessStartV1),
            8 => Some(RuleId::ProcessDiedV1),
            9 => Some(RuleId::ProcessRestartV1),
            10 => Some(RuleId::SignalExitV1),
            11 => Some(RuleId::LmkdKillV1),
            12 => Some(RuleId::KernelOomKillV1),
            13 => Some(RuleId::AmKillRequestV1),
            _ => None,
        }
    }

    /// Every published rule.
    pub fn all() -> (r: Vec<RuleId>)
        ensures
            r@.len() == 13,
            forall|i: int| 0 <= i < 13 ==> (#[trigger] r@[i]).spec_raw() == i + 1,
    {
        vec![RuleId::JavaUncaughtV1, RuleId::JavaOomV1, RuleId::ManagedAmCrashV1, RuleId::AnrActivityManagerV1, RuleId::NativeTombstoneV1, RuleId::NativeLibcSignalV1, RuleId::ProcessStartV1, RuleId::ProcessDiedV1, RuleId::ProcessRestartV1, RuleId::SignalExitV1, RuleId::LmkdKillV1, RuleId::KernelOomKillV1, RuleId::AmKillRequestV1]
    }

    /// The roles a rule publishes, in published order.
    pub open spec fn spec_supported_roles(self) -> Seq<ObservationRole> {
        match self {
            RuleId::JavaUncaughtV1 => seq![ObservationRole::Primary, ObservationRole::ProcessIdentity, ObservationRole::ExceptionType, ObservationRole::StackFrame, ObservationRole::Death, ObservationRole::Supporting],
            RuleId::JavaOomV1 => seq![ObservationRole::Primary, ObservationRole::ProcessIdentity, ObservationRole::ExceptionType, ObservationRole::StackFrame, ObservationRole::Death, ObservationRole::Supporting],
            RuleId::ManagedAmCrashV1 => seq![ObservationRole::Primary, ObservationRole::ProcessIdentity, ObservationRole::Death, ObservationRole::Supporting],
            RuleId::AnrActivityManagerV1 => seq![ObservationRole::Primary, ObservationRole::ProcessIdentity, ObservationRole::Reason, ObservationRole::Death, ObservationRole::Supporting],
            RuleId::NativeTombstoneV1 => seq![ObservationRole::Primary, ObservationRole::ProcessIdentity, ObservationRole::Signal, ObservationRole::BacktraceFrame, ObservationRole::Recovery, ObservationRole::Death, ObservationRole::Supporting],
            RuleId::NativeLibcSignalV1 => seq![ObservationRole::Primary, ObservationRole::ProcessIdentity, ObservationRole::Signal, ObservationRole::Death, ObservationRole::Supporting],
            RuleId::ProcessStartV1 => seq![ObservationRole::Primary, ObservationRole::ProcessIdentity, ObservationRole::Start],
            RuleId::ProcessDiedV1 => seq![ObservationRole::Primary, ObservationRole::ProcessIdentity, ObservationRole::Death],
            RuleId::ProcessRestartV1 => seq![ObservationRole::Primary, ObservationRole::ProcessIdentity, ObservationRole::Death, ObservationRole::Restart],
            RuleId::SignalExitV1 => seq![ObservationRole::Primary, ObservationRole::ProcessIdentity, ObservationRole::Signal, ObservationRole::Death],
            RuleId::LmkdKillV1 => seq![ObservationRole::Primary, ObservationRole::ProcessIdentity, ObservationRole::KillIssued, ObservationRole::Death, ObservationRole::Supporting],
            RuleId::KernelOomKillV1 => seq![ObservationRole::Primary, ObservationRole::ProcessIdentity, ObservationRole::KillIssued, ObservationRole::Death, ObservationRole::Supporting],
            RuleId::AmKillRequestV1 => seq![ObservationRole::Primary, ObservationRole::ProcessIdentity, ObservationRole::KillRequest, ObservationRole::Supporting],
        }
    }

    pub fn supported_roles(self) -> (r: Vec<ObservationRole>)
        ensures
            r@ == self.spec_supported_roles(),
    {
        match self {
            RuleId::JavaUncaughtV1 => vec![ObservationRole::Primary, ObservationRole::ProcessIdentity, ObservationRole::ExceptionType, ObservationRole::StackFrame, ObservationRole::Death, ObservationRole::Supporting],
            RuleId::JavaOomV1 => vec![ObservationRole::Primary, ObservationRole::ProcessIdentity, ObservationRole::ExceptionType, ObservationRole::StackFrame, ObservationRole::Death, ObservationRole::Supporting],
            RuleId::ManagedAmCrashV1 => vec![ObservationRole::Primary, ObservationRole::ProcessIdentity, ObservationRole::Death, ObservationRole::Supporting],
            RuleId::AnrActivityManagerV1 => vec![ObservationRole::Primary, ObservationRole::ProcessIdentity, ObservationRole::Reason, ObservationRole::Death, ObservationRole::Supporting],
            RuleId::NativeTombstoneV1 => vec![ObservationRole::Primary, ObservationRole::ProcessIdentity, ObservationRole::Signal, ObservationRole::BacktraceFrame, ObservationRole::Recovery, ObservationRole::Death, ObservationRole::Supporting],
            RuleId::NativeLibcSignalV1 => vec![ObservationRole::Primary, ObservationRole::ProcessIdentity, ObservationRole::Signal, ObservationRole::Death, ObservationRole::Supporting],
            RuleId::ProcessStartV1 => vec![ObservationRole::Primary, ObservationRole::ProcessIdentity, ObservationRole::Start],
            RuleId::ProcessDiedV1 => vec![ObservationRole::Primary, ObservationRole::ProcessIdentity, ObservationRole::Death],
            RuleId::ProcessRestartV1 => vec![ObservationRole::Primary, ObservationRole::ProcessIdentity, ObservationRole::Death, ObservationRole::Restart],
            RuleId::SignalExitV1 => vec![ObservationRole::Primary, ObservationRole::ProcessIdentity, ObservationRole::Signal, ObservationRole::Death],
            RuleId::LmkdKillV1 => vec![ObservationRole::Primary, ObservationRole::ProcessIdentity, ObservationRole::KillIssued, ObservationRole::Death, ObservationRole::Supporting],
            RuleId::KernelOomKillV1 => vec![ObservationRole::Primary, ObservationRole::ProcessIdentity, ObservationRole::KillIssued, ObservationRole::Death, ObservationRole::Supporting],
            RuleId::AmKillRequestV1 => vec![ObservationRole::Primary, ObservationRole::ProcessIdentity, ObservationRole::KillRequest, ObservationRole::Supporting],
        }
    }
}

/// Decoding the id of a rule gives the rule back.
pub proof fn lemma_rule_raw_round_trip(rule: RuleId)
    ensures
        RuleId::spec_from_raw(rule.spec_raw()) == Some(rule),
{
}

#[derive(Debug, Clone, Copy, PartialEq, Eq, Hash, Structural)]
pub enum ObservationRole {
    Primary,
    ProcessIdentity,
    ExceptionType,
    StackFrame,
    Reason,
    Signal,
    BacktraceFrame,
    Start,
    Death,
    Restart,
    KillRequest,
    KillIssued,
    Supporting,
    Recovery,
}

impl ObservationRole {
    pub open spec fn spec_code(self) -> u8 {
        match self {
            ObservationRole::Primary => 0,
            ObservationRole::ProcessIdentity => 1,
            ObservationRole::ExceptionType => 2,
            ObservationRole::StackFrame => 3,
            ObservationRole::Reason => 4,
            ObservationRole::Signal => 5,
            ObservationRole::BacktraceFrame => 6,
            ObservationRole::Start => 7,
            ObservationRole::Death => 8,
            ObservationRole::Restart => 9,
            ObservationRole::KillRequest => 10,
            ObservationRole::KillIssued => 11,
            ObservationRole::Supporting => 12,
            ObservationRole::Recovery => 13,
        }
    }

    pub fn code(self) -> (r: u8)
        ensures
            r == self.spec_code(),
    {
        match self {
            ObservationRole::Primary => 0,
            ObservationRole::ProcessIdentity => 1,
            ObservationRole::ExceptionType => 2,
            ObservationRole::StackFrame => 3,
            ObservationRole::Reason => 4,
            ObservationRole::Signal => 5,
            ObservationRole::BacktraceFrame => 6,
            ObservationRole::Start => 7,
            ObservationRole::Death => 8,
            ObservationRole::Restart => 9,
            ObservationRole::KillRequest => 10,
            ObservationRole::KillIssued => 11,
            ObservationRole::Supporting => 12,
            ObservationRole::Recovery => 13,
        }
    }

    pub open spec fn spec_from_packed(value: u8) -> Option<ObservationRole> {
        if value == 0 {
            Some(ObservationRole::Primary)
        }         else if value == 1 {
            Some(ObservationRole::ProcessIdentity)
        }         else if value == 2 {
            Some(ObservationRole::ExceptionType)
        }         else if value == 3 {
            Some(ObservationRole::StackFrame)
        }         else if value == 4 {
            Some(ObservationRole::Reason)
        }         else if value == 5 {
            Some(ObservationRole::Signal)
        }         else if value == 6 {
            Some(ObservationRole::BacktraceFrame)
        }         else if value == 7 {
            Some(ObservationRole::Start)
        }         else if value == 8 {
            Some(ObservationRole::Death)
        }         else if value == 9 {
            Some(ObservationRole::Restart)
        }         else if value == 10 {
            Some(ObservationRole::KillRequest)
        }         else if value == 11 {
            Some(ObservationRole::KillIssued)
        }         else if value == 12 {
            Some(ObservationRole::Supporting)
        }         else if value == 13 {
            Some(ObservationRole::Recovery)
        } else {
            None
        }
    }

    pub fn from_packed(value: u8) -> (r: Option<ObservationRole>)
        ensures
            r == Self::spec_from_packed(value),
    {
        match value {
            0 => Some(ObservationRole::Primary),
            1 => Some(ObservationRole::ProcessIdentity),
            2 => Some(ObservationRole::ExceptionType),
            3 => Some(ObservationRole::StackFrame),
            4 => Some(ObservationRole::Reason),
            5 => Some(ObservationRole::Signal),
            6 => Some(ObservationRole::BacktraceFrame),
            7 => Some(ObservationRole::Start),
            8 => Some(ObservationRole::Death),
            9 => Some(ObservationRole::Restart),
            10 => Some(ObservationRole::KillRequest),
            11 => Some(ObservationRole::KillIssued),
            12 => Some(ObservationRole::Supporting),
            13 => Some(ObservationRole::Recovery),
            _ => None,
        }
    }

    /// Every role.
    pub fn all() -> (r: Vec<ObservationRole>)
        ensures
            r@.len() == 14,
            forall|i: int| 0 <= i < 14 ==> (#[trigger] r@[i]).spec_code() == i,
    {
        vec![ObservationRole::Primary, ObservationRole::ProcessIdentity, ObservationRole::ExceptionType, ObservationRole::StackFrame, ObservationRole::Reason, ObservationRole::Signal, ObservationRole::BacktraceFrame, ObservationRole::Start, ObservationRole::Death, ObservationRole::Restart, ObservationRole::KillRequest, ObservationRole::KillIssued, ObservationRole::Supporting, ObservationRole::Recovery]
    }
}

/// Decoding the code of a role gives the role back.
pub proof fn lemma_role_code_round_trip(role: ObservationRole)
    ensures
        ObservationRole::spec_from_packed(role.spec_code()) == Some(role),
        role.spec_code() < 16,
{
}

#[derive(Debug, Clone, Copy, PartialEq, Eq, Hash, Structural)]
pub enum FactCode {
    JavaUncaughtException,
    JavaOutOfMemoryError,
    ManagedCrashRecord,
    AnrDetected,
    NativeCrashDetected,
    SignalExitDetected,
    ProcessStarted,
    ProcessDied,
    ProcessRestarted,
    LmkKillIssued,
    KernelOomKillIssued,
    KillRequested,
    ProcessIdentityRecorded,
    ExceptionTypeRecorded,
    StackFrameRecorded,
    AnrReasonRecorded,
    FatalSignalRecorded,
    NativeFrameRecorded,
    ProcessDeathObserved,
    StartAfterDeathObserved,
    NativeRecoveryRecorded,
    SupportingEvidenceRecorded,
}

#[derive(Debug, Clone, Copy, PartialEq, Eq, Structural)]
pub enum FactMappingError {
    DetectorBug { rule: RuleId, role: ObservationRole },
}

/// The fact a published (rule, role) pair records, or `None` for an unpublished pair.
pub open spec fn spec_fact(rule: RuleId, role: ObservationRole) -> Option<FactCode> {
    if !rule.spec_supported_roles().contains(role) {
        None
    } else {
        match (rule, role) {
            (_, ObservationRole::ProcessIdentity) => Some(FactCode::ProcessIdentityRecorded),
            (_, ObservationRole::Death) => Some(FactCode::ProcessDeathObserved),
            (_, ObservationRole::Supporting) => Some(FactCode::SupportingEvidenceRecorded),
            (RuleId::JavaUncaughtV1, ObservationRole::Primary) => Some(FactCode::JavaUncaughtException),
            (RuleId::JavaOomV1, ObservationRole::Primary) => Some(FactCode::JavaOutOfMemoryError),
            (RuleId::ManagedAmCrashV1, ObservationRole::Primary) => Some(FactCode::ManagedCrashRecord),
            (RuleId::AnrActivityManagerV1, ObservationRole::Primary) => Some(FactCode::AnrDetected),
            (RuleId::NativeTombstoneV1, ObservationRole::Primary) => Some(FactCode::NativeCrashDetected),
            (RuleId::NativeLibcSignalV1, ObservationRole::Primary) => Some(FactCode::SignalExitDetected),
            (RuleId::SignalExitV1, ObservationRole::Primary) => Some(FactCode::SignalExitDetected),
            (RuleId::ProcessStartV1, ObservationRole::Primary) => Some(FactCode::ProcessStarted),
            (RuleId::ProcessStartV1, ObservationRole::Start) => Some(FactCode::ProcessStarted),
            (RuleId::ProcessDiedV1, ObservationRole::Primary) => Some(FactCode::ProcessDied),
            (RuleId::ProcessRestartV1, ObservationRole::Primary) => Some(FactCode::ProcessRestarted),
            (RuleId::LmkdKillV1, ObservationRole::Primary) => Some(FactCode::LmkKillIssued),
            (RuleId::LmkdKillV1, ObservationRole::KillIssued) => Some(FactCode::LmkKillIssued),
            (RuleId::KernelOomKillV1, ObservationRole::Primary) => Some(FactCode::KernelOomKillIssued),
            (RuleId::KernelOomKillV1, ObservationRole::KillIssued) => Some(FactCode::KernelOomKillIssued),
            (RuleId::AmKillRequestV1, ObservationRole::Primary) => Some(FactCode::KillRequested),
            (RuleId::AmKillRequestV1, ObservationRole::KillRequest) => Some(FactCode::KillRequested),
            (RuleId::JavaUncaughtV1, ObservationRole::ExceptionType) => Some(FactCode::ExceptionTypeRecorded),
            (RuleId::JavaOomV1, ObservationRole::ExceptionType) => Some(FactCode::ExceptionTypeRecorded),
            (RuleId::JavaUncaughtV1, ObservationRole::StackFrame) => Some(FactCode::StackFrameRecorded),
            (RuleId::JavaOomV1, ObservationRole::StackFrame) => Some(FactCode::StackFrameRecorded),
            (RuleId::AnrActivityManagerV1, ObservationRole::Reason) => Some(FactCode::AnrReasonRecorded),
            (RuleId::NativeTombstoneV1, ObservationRole::Signal) => Some(FactCode::FatalSignalRecorded),
            (RuleId::NativeLibcSignalV1, ObservationRole::Signal) => Some(FactCode::FatalSignalRecorded),
            (RuleId::SignalExitV1, ObservationRole::Signal) => Some(FactCode::FatalSignalRecorded),
            (RuleId::NativeTombstoneV1, ObservationRole::BacktraceFrame) => Some(FactCode::NativeFrameRecorded),
            (RuleId::NativeTombstoneV1, ObservationRole::Recovery) => Some(FactCode::NativeRecoveryRecorded),
            (RuleId::ProcessRestartV1, ObservationRole::Restart) => Some(FactCode::StartAfterDeathObserved),
            _ => None,
        }
    }
}

/// Every published (rule, role) pair maps to a fact, and no unpublished pair does.
pub proof fn lemma_fact_mapping_is_total_on_published_pairs(rule: RuleId, role: ObservationRole)
    ensures
        spec_fact(rule, role) is Some <==> rule.spec_supported_roles().contains(role),
{
    let roles = rule.spec_supported_roles();
    if roles.contains(role) {
        let i = choose|i: int| 0 <= i < roles.len() && roles[i] == role;
        assert(roles[i] == role);
    }
}

fn role_is_supported(rule: RuleId, role: ObservationRole) -> (r: bool)
    ensures
        r == rule.spec_supported_roles().contains(role),
{
    let roles = rule.supported_roles();
    let mut i: usize = 0;
    while i < roles.len()
        invariant
            roles@ == rule.spec_supported_roles(),
            0 <= i <= roles@.len(),
            forall|k: int| 0 <= k < i ==> roles@[k] != role,
        decreases roles@.len() - i,
    {
        if roles[i] == role {
            assert(roles@[i as int] == role);
            return true;
        }
        i = i + 1;
    }
    false
}

pub fn fact_code(rule: RuleId, role: ObservationRole) -> (r: Result<FactCode, FactMappingError>)
    ensures
        spec_fact(rule, role) matches Some(code) ==> r == Ok::<FactCode, FactMappingError>(code),
        spec_fact(rule, role) is None ==> r == Err::<FactCode, FactMappingError>(FactMappingError::DetectorBug { rule, role }),
{
    proof {
        lemma_fact_mapping_is_total_on_published_pairs(rule, role);
    }
    if !role_is_supported(rule, role) {
        return Err(FactMappingError::DetectorBug { rule, role });
    }
    let code = match (rule, role) {
        (_, ObservationRole::ProcessIdentity) => FactCode::ProcessIdentityRecorded,
        (_, ObservationRole::Death) => FactCode::ProcessDeathObserved,
        (_, ObservationRole::Supporting) => FactCode::SupportingEvidenceRecorded,
        (RuleId::JavaUncaughtV1, ObservationRole::Primary) => FactCode::JavaUncaughtException,
        (RuleId::JavaOomV1, ObservationRole::Primary) => FactCode::JavaOutOfMemoryError,
        (RuleId::ManagedAmCrashV1, ObservationRole::Primary) => FactCode::ManagedCrashRecord,
        (RuleId::AnrActivityManagerV1, ObservationRole::Primary) => FactCode::AnrDetected,
        (RuleId::NativeTombstoneV1, ObservationRole::Primary) => FactCode::NativeCrashDetected,
        (RuleId::NativeLibcSignalV1, ObservationRole::Primary) => FactCode::SignalExitDetected,
        (RuleId::SignalExitV1, ObservationRole::Primary) => FactCode::SignalExitDetected,
        (RuleId::ProcessStartV1, ObservationRole::Primary) => FactCode::ProcessStarted,
        (RuleId::ProcessStartV1, ObservationRole::Start) => FactCode::ProcessStarted,
        (RuleId::ProcessDiedV1, ObservationRole::Primary) => FactCode::ProcessDied,
        (RuleId::ProcessRestartV1, ObservationRole::Primary) => FactCode::ProcessRestarted,
        (RuleId::LmkdKillV1, ObservationRole::Primary) => FactCode::LmkKillIssued,
        (RuleId::LmkdKillV1, ObservationRole::KillIssued) => FactCode::LmkKillIssued,
        (RuleId::KernelOomKillV1, ObservationRole::Primary) => FactCode::KernelOomKillIssued,
        (RuleId::KernelOomKillV1, ObservationRole::KillIssued) => FactCode::KernelOomKillIssued,
        (RuleId::AmKillRequestV1, ObservationRole::Primary) => FactCode::KillRequested,
        (RuleId::AmKillRequestV1, ObservationRole::KillRequest) => FactCode::KillRequested,
        (RuleId::JavaUncaughtV1, ObservationRole::ExceptionType) => FactCode::ExceptionTypeRecorded,
        (RuleId::JavaOomV1, ObservationRole::ExceptionType) => FactCode::ExceptionTypeRecorded,
        (RuleId::JavaUncaughtV1, ObservationRole::StackFrame) => FactCode::StackFrameRecorded,
        (RuleId::JavaOomV1, ObservationRole::StackFrame) => FactCode::StackFrameRecorded,
        (RuleId::AnrActivityManagerV1, ObservationRole::Reason) => FactCode::AnrReasonRecorded,
        (RuleId::NativeTombstoneV1, ObservationRole::Signal) => FactCode::FatalSignalRecorded,
        (RuleId::NativeLibcSignalV1, ObservationRole::Signal) => FactCode::FatalSignalRecorded,
        (RuleId::SignalExitV1, ObservationRole::Signal) => FactCode::FatalSignalRecorded,
        (RuleId::NativeTombstoneV1, ObservationRole::BacktraceFrame) => FactCode::NativeFrameRecorded,
        (RuleId::NativeTombstoneV1, ObservationRole::Recovery) => FactCode::NativeRecoveryRecorded,
        (RuleId::ProcessRestartV1, ObservationRole::Restart) => FactCode::StartAfterDeathObserved,
        _ => {
            return Err(FactMappingError::DetectorBug { rule, role });
        },
    };
    Ok(code)
}

#[derive(Debug, Clone, Copy, PartialEq, Eq, PartialOrd, Ord, Structural)]
pub enum EvidencePriority {
    MinimumGrammar,
    Outcome,
    Correlation,
    Supporting,
}

impl EvidencePriority {
    /// The rank of a priority; lower ranks are preferred.
    pub open spec fn spec_rank(self) -> u8 {
        match self {
            EvidencePriority::MinimumGrammar => 0,
            EvidencePriority::Outcome => 1,
            EvidencePriority::Correlation => 2,
            EvidencePriority::Supporting => 3,
        }
    }

    pub fn rank(self) -> (r: u8)
        ensures
            r == self.spec_rank(),
    {
        match self {
            EvidencePriority::MinimumGrammar => 0,
            EvidencePriority::Outcome => 1,
            EvidencePriority::Correlation => 2,
            EvidencePriority::Supporting => 3,
        }
    }
}

#[derive(Debug, Clone, Copy, PartialEq, Eq, Structural)]
pub struct ObservationCandidate {
    pub reference: ObservationRef,
    pub priority: EvidencePriority,
}

impl ObservationCandidate {
    pub fn new(reference: ObservationRef, priority: EvidencePriority) -> (r: Self)
        ensures
            r == (ObservationCandidate { reference, priority }),
    {
        ObservationCandidate { reference, priority }
    }
}

/// Compact pointer into the original source. Fact text is derived from rule + role.
#[derive(Debug, Clone, Copy, PartialEq, Eq, Hash, Structural)]
pub struct ObservationRef {
    line: u32,
    rule: u16,
    role_and_format: u8,
    source_and_provenance: u8,
}

impl ObservationRef {
    /// Every stored reference packs a published rule/role pair, a format and a provenance.
    #[verifier::type_invariant]
    pub closed spec fn wf(self) -> bool {
        &&& RuleId::spec_from_raw(self.rule) is Some
        &&& ObservationRole::spec_from_packed(self.role_and_format % 16) is Some
        &&& EvidenceFormat::spec_from_code(self.role_and_format / 16) is Some
        &&& LineProvenance::spec_unpack(self.source_and_provenance) is Some
        &&& spec_fact(RuleId::spec_from_raw(self.rule)->0, ObservationRole::spec_from_packed(self.role_and_format % 16)->0) is Some
    }

    pub closed spec fn spec_line(self) -> u32 {
        self.line
    }

    pub closed spec fn spec_rule(self) -> RuleId {
        RuleId::spec_from_raw(self.rule)->0
    }

    pub closed spec fn spec_role(self) -> ObservationRole {
        ObservationRole::spec_from_packed(self.role_and_format % 16)->0
    }

    pub closed spec fn spec_format(self) -> EvidenceFormat {
        EvidenceFormat::spec_from_code(self.role_and_format / 16)->0
    }

    pub closed spec fn spec_provenance(self) -> LineProvenance {
        LineProvenance::spec_unpack(self.source_and_provenance)->0
    }

    pub fn new(
        line: u32,
        rule: RuleId,
        role: ObservationRole,
        format: EvidenceFormat,
        provenance: LineProvenance,
    ) -> (r: Result<Self, FactMappingError>)
        ensures
            spec_fact(rule, role) is None ==> r == Err::<Self, FactMappingError>(FactMappingError::DetectorBug { rule, role }),
            spec_fact(rule, role) is Some ==> (r matches Ok(reference) && reference.wf()
                && reference.spec_line() == line && reference.spec_rule() == rule && reference.spec_role() == role
                && reference.spec_format() == format && reference.spec_provenance() == provenance),
    {
        match fact_code(rule, role) {
            Err(e) => {
                return Err(e);
            },
            Ok(_) => {},
        }
        let packed_role = format.code() * 16 + role.code();
        proof {
            crate::problems::provenance::lemma_provenance_pack_round_trip(provenance);
            lemma_role_code_round_trip(role);
            lemma_rule_raw_round_trip(rule);
            assert(packed_role % 16 == role.spec_code());
            assert(packed_role / 16 == format.spec_code());
        }
        Ok(ObservationRef {
            line,
            rule: rule.raw(),
            role_and_format: packed_role,
            source_and_provenance: provenance.pack(),
        })
    }

    pub fn line(self) -> (r: u32)
        ensures
            r == self.spec_line(),
    {
        self.line
    }

    pub fn rule(self) -> (r: RuleId)
        ensures
            r == self.spec_rule(),
    {
        proof {
            use_type_invariant(&self);
        }
        match RuleId::from_raw(self.rule) {
            Some(rule) => rule,
            None => {
                proof {
                    assert(false);
                }
                RuleId::JavaUncaughtV1
            },
        }
    }

    pub fn role(self) -> (r: ObservationRole)
        ensures
            r == self.spec_role(),
    {
        proof {
            use_type_invariant(&self);
        }
        match ObservationRole::from_packed(self.role_and_format % 16) {
            Some(role) => role,
            None => {
                proof {
                    assert(false);
                }
                ObservationRole::Primary
            },
        }
    }

    pub fn format(self) -> (r: EvidenceFormat)
        ensures
            r == self.spec_format(),
    {
        proof {
            use_type_invariant(&self);
        }
        match EvidenceFormat::from_packed(self.role_and_format / 16) {
            Some(format) => format,
            None => {
                proof {
                    assert(false);
                }
                EvidenceFormat::AospText
            },
        }
    }

    pub fn provenance(self) -> (r: LineProvenance)
        ensures
            r == self.spec_provenance(),
    {
        proof {
            use_type_invariant(&self);
        }
        match LineProvenance::unpack(self.source_and_provenance) {
            Some(provenance) => provenance,
            None => {
                proof {
                    assert(false);
                }
                LineProvenance::Unknown
            },
        }
    }

    pub fn fact(self) -> (r: FactCode)
        ensures
            Some(r) == spec_fact(self.spec_rule(), self.spec_role()),
    {
        proof {
            use_type_invariant(&self);
        }
        match fact_code(self.rule(), self.role()) {
            Ok(code) => code,
            Err(_) => {
                proof {
                    assert(false);
                }
                FactCode::ProcessIdentityRecorded
            },
        }
    }

    pub fn dedup_key(self) -> (r: (u32, RuleId, ObservationRole))
        ensures
            r == (self.spec_line(), self.spec_rule(), self.spec_role()),
    {
        proof {
            use_type_invariant(&self);
        }
        (self.line, self.rule(), self.role())
    }
}

} // verus!
