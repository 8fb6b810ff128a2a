//! Correlation of fault occurrences that two sources report: which provisional occurrences
//! may be one, and how a safe pair is merged.
use vstd::prelude::*;
use crate::problems::correlation::{
    spec_deadline_extended, spec_payload_replaced, CompactCorrelationPayload, ProvisionalEntry, ProvisionalStore, RecentObservation, RecentObservationStore,
};
use crate::problems::facts::{ObservationCandidate, RuleId};
use crate::problems::model::{ProblemKind, ProcessInstanceKey};
use crate::problems::provenance::EvidenceFormat;
use crate::problems::recognized::{spec_merge, spec_obs_sorted, RecognizedProblem};

verus! {

pub const MANAGED_CORRELATION_WINDOW_LINES: u32 = 512;

pub const FAULT_OUTCOME_WINDOW_LINES: u32 = 4_096;

pub const MAX_CORRELATION_TIME_DELTA_MS: u64 = 60_000;

/// A keyed digest of a process name or a signature, 16 bytes wide.
#[derive(Debug, Clone, Copy, PartialEq, Eq, Structural)]
pub struct CorrelationToken(pub u128);

/// Who an occurrence happened to: its process and, where known, its signature.
#[derive(Debug, Clone, Copy, PartialEq, Eq, Structural)]
pub struct CorrelationIdentity {
    pub process: CorrelationToken,
    pub subject: Option<CorrelationToken>,
}

/// A log timestamp within a segment of comparable clock readings.
#[derive(Debug, Clone, Copy, PartialEq, Eq, Structural)]
pub struct CorrelationClock {
    pub segment: u64,
    pub millis: u64,
}

/// Which kind of source reported an occurrence.
#[derive(Debug, Clone, Copy, PartialEq, Eq, Structural)]
pub enum CorrelationSource {
    Body,
    Structured,
    Signal,
    Direct,
}

impl CorrelationSource {
    pub open spec fn spec_bit(self) -> u8 {
        match self {
            CorrelationSource::Body => 1,
            CorrelationSource::Structured => 2,
            CorrelationSource::Signal => 4,
            CorrelationSource::Direct => 8,
        }
    }

    pub open spec fn spec_slot(self) -> int {
        match self {
            CorrelationSource::Body => 0,
            CorrelationSource::Structured => 1,
            CorrelationSource::Signal => 2,
            CorrelationSource::Direct => 3,
        }
    }

    pub fn bit(self) -> (r: u8)
        ensures
            r == self.spec_bit(),
    {
        match self {
            CorrelationSource::Body => 1,
            CorrelationSource::Structured => 2,
            CorrelationSource::Signal => 4,
            CorrelationSource::Direct => 8,
        }
    }

    pub fn slot(self) -> (r: usize)
        ensures
            r == self.spec_slot(),
    {
        match self {
            CorrelationSource::Body => 0,
            CorrelationSource::Structured => 1,
            CorrelationSource::Signal => 2,
            CorrelationSource::Direct => 3,
        }
    }
}

/// Which source a problem came from, by its primary observation: a libc fatal signal, an
/// event-log or ActivityManager record, the body of a crash or ANR report, or else directly.
pub open spec fn spec_correlation_source(p: RecognizedProblem) -> CorrelationSource {
    let primary = p.spec_observations()[0].reference;
    if primary.spec_rule() == RuleId::NativeLibcSignalV1 {
        CorrelationSource::Signal
    } else if primary.spec_format() == EvidenceFormat::EventLogShapedText || primary.spec_rule() == RuleId::ManagedAmCrashV1 {
        CorrelationSource::Structured
    } else if p.spec_draft().kind == ProblemKind::JavaCrash || p.spec_draft().kind == ProblemKind::JavaOom
        || p.spec_draft().kind == ProblemKind::Anr || p.spec_draft().kind == ProblemKind::NativeCrash {
        CorrelationSource::Body
    } else {
        CorrelationSource::Direct
    }
}

pub fn correlation_source(p: &RecognizedProblem) -> (r: CorrelationSource)
    requires
        p.wf(),
    ensures
        r == spec_correlation_source(*p),
{
    proof {
        p.lemma_wf_bounds();
    }
    let primary = p.observations()[0].reference;
    let kind = p.draft().kind;
    if primary.rule() == RuleId::NativeLibcSignalV1 {
        CorrelationSource::Signal
    } else if primary.format() == EvidenceFormat::EventLogShapedText || primary.rule() == RuleId::ManagedAmCrashV1 {
        CorrelationSource::Structured
    } else if kind == ProblemKind::JavaCrash || kind == ProblemKind::JavaOom || kind == ProblemKind::Anr
        || kind == ProblemKind::NativeCrash {
        CorrelationSource::Body
    } else {
        CorrelationSource::Direct
    }
}

/// The lines between two line ranges (none where they overlap).
pub open spec fn spec_range_distance(left_start: u32, left_end: u32, right_start: u32, right_end: u32) -> u32 {
    if left_end < right_start {
        (right_start - left_end) as u32
    } else if right_end < left_start {
        (left_start - right_end) as u32
    } else {
        0
    }
}

pub fn range_distance(left_start: u32, left_end: u32, right_start: u32, right_end: u32) -> (r: u32)
    ensures
        r == spec_range_distance(left_start, left_end, right_start, right_end),
{
    if left_end < right_start {
        right_start - left_end
    } else if right_end < left_start {
        left_start - right_end
    } else {
        0
    }
}

/// Two clock readings are compatible unless they lie in one segment more than a minute apart.
pub open spec fn spec_time_compatible(left: Option<CorrelationClock>, right: Option<CorrelationClock>) -> bool {
    match (left, right) {
        (Some(l), Some(r)) => l.segment == r.segment ==> (if l.millis >= r.millis { l.millis - r.millis } else { r.millis
            - l.millis }) <= MAX_CORRELATION_TIME_DELTA_MS,
        _ => true,
    }
}

pub fn correlation_time_compatible(left: Option<CorrelationClock>, right: Option<CorrelationClock>) -> (r: bool)
    ensures
        r == spec_time_compatible(left, right),
{
    match (left, right) {
        (Some(l), Some(r)) => {
            if l.segment == r.segment {
                let d = if l.millis >= r.millis { l.millis - r.millis } else { r.millis - l.millis };
                d <= MAX_CORRELATION_TIME_DELTA_MS
            } else {
                true
            }
        },
        _ => true,
    }
}

/// The deadline of a provisional occurrence whose last evidence is on `line`.
pub open spec fn spec_provisional_deadline(line: u32) -> u64 {
    (line + FAULT_OUTCOME_WINDOW_LINES) as u64
}

pub fn provisional_deadline(line: u32) -> (r: u64)
    ensures
        r == spec_provisional_deadline(line),
{
    line as u64 + FAULT_OUTCOME_WINDOW_LINES as u64
}

/// An occurrence held back while evidence from another source may still arrive.
pub struct ProvisionalOccurrence {
    pub problem: RecognizedProblem,
    pub identity: CorrelationIdentity,
    pub source_mask: u8,
    pub clocks: [Option<CorrelationClock>; 4],
    pub ambiguity_recorded: bool,
}

impl CompactCorrelationPayload for ProvisionalOccurrence {
    open spec fn spec_payload_bytes(&self) -> u32 {
        vstd::layout::size_of::<ProvisionalOccurrence>() as u32
    }

    fn logical_bytes(&self) -> (r: u32) {
        core::mem::size_of::<ProvisionalOccurrence>() as u32
    }
}

/// The occurrence's clocks are compatible with `clock`: it has none, or one of them is.
pub open spec fn spec_occurrence_time_compatible(o: ProvisionalOccurrence, clock: Option<CorrelationClock>) -> bool {
    (forall|k: int| 0 <= k < 4 ==> (#[trigger] o.clocks@[k]) is None)
        || exists|k: int| 0 <= k < 4 && (#[trigger] o.clocks@[k]) is Some && spec_time_compatible(o.clocks@[k], clock)
}

impl ProvisionalOccurrence {
    pub fn time_compatible(&self, clock: Option<CorrelationClock>) -> (r: bool)
        ensures
            r == spec_occurrence_time_compatible(*self, clock),
    {
        let mut any_known = false;
        let mut k: usize = 0;
        while k < 4
            invariant
                0 <= k <= 4,
                any_known == exists|j: int| 0 <= j < k && (#[trigger] self.clocks@[j]) is Some,
                forall|j: int| 0 <= j < k && (#[trigger] self.clocks@[j]) is Some ==> !spec_time_compatible(self.clocks@[j], clock),
            decreases 4 - k,
        {
            let c = self.clocks[k];
            if c.is_some() {
                any_known = true;
                if correlation_time_compatible(c, clock) {
                    return true;
                }
            }
            k = k + 1;
        }
        !any_known
    }
}

/// The window within which occurrences of a kind may be one, for the kinds that correlate.
pub open spec fn spec_correlation_window(kind: ProblemKind) -> Option<u32> {
    match kind {
        ProblemKind::JavaCrash | ProblemKind::JavaOom | ProblemKind::Anr => Some(MANAGED_CORRELATION_WINDOW_LINES),
        ProblemKind::NativeCrash => Some(FAULT_OUTCOME_WINDOW_LINES),
        _ => None,
    }
}

/// `problem`, seen from `source`, may be the same fault as the provisional `candidate`: the
/// candidate has not heard from that source yet, and both are of one correlating kind, pid,
/// process, signature (where both know one), known process instance and compatible time,
/// within the kind's window of lines.
pub open spec fn spec_can_merge_faults(
    candidate: ProvisionalOccurrence,
    problem: RecognizedProblem,
    identity: CorrelationIdentity,
    source: CorrelationSource,
    clock: Option<CorrelationClock>,
) -> bool {
    let c = candidate.problem.spec_draft();
    let p = problem.spec_draft();
    &&& source != CorrelationSource::Direct
    &&& candidate.source_mask & source.spec_bit() == 0
    &&& c.kind == p.kind
    &&& c.pid != 0
    &&& c.pid == p.pid
    &&& candidate.identity.process == identity.process
    &&& !(candidate.identity.subject is Some && identity.subject is Some && candidate.identity.subject != identity.subject)
    &&& c.process_instance != ProcessInstanceKey(0)
    &&& p.process_instance != ProcessInstanceKey(0)
    &&& c.process_instance == p.process_instance
    &&& spec_occurrence_time_compatible(candidate, clock)
    &&& spec_correlation_window(p.kind) matches Some(w)
    &&& spec_range_distance(c.start_line, c.end_line, p.start_line, p.end_line) <= w
}

pub fn can_merge_faults(
    candidate: &ProvisionalOccurrence,
    problem: &RecognizedProblem,
    identity: CorrelationIdentity,
    source: CorrelationSource,
    clock: Option<CorrelationClock>,
) -> (r: bool)
    ensures
        r == spec_can_merge_faults(*candidate, *problem, identity, source, clock),
{
    let c = candidate.problem.draft();
    let p = problem.draft();
    let subject_clash = match (candidate.identity.subject, identity.subject) {
        (Some(l), Some(r)) => l != r,
        _ => false,
    };
    if source == CorrelationSource::Direct || candidate.source_mask & source.bit() != 0 || c.kind != p.kind || c.pid == 0
        || c.pid != p.pid || candidate.identity.process != identity.process || subject_clash || c.process_instance.0 == 0
        || p.process_instance.0 == 0 || c.process_instance.0 != p.process_instance.0 || !candidate.time_compatible(clock) {
        return false;
    }
    let window = match p.kind {
        ProblemKind::JavaCrash | ProblemKind::JavaOom | ProblemKind::Anr => MANAGED_CORRELATION_WINDOW_LINES,
        ProblemKind::NativeCrash => FAULT_OUTCOME_WINDOW_LINES,
        _ => return false,
    };
    range_distance(c.start_line, c.end_line, p.start_line, p.end_line) <= window
}

/// The line after which no further evidence from another source can pair with `o`.
pub open spec fn spec_cross_source_safe_after(o: ProvisionalOccurrence) -> u64 {
    match spec_correlation_window(o.problem.spec_draft().kind) {
        Some(w) => (o.problem.spec_draft().end_line + w) as u64,
        None => u64::MAX,
    }
}

pub fn cross_source_safe_after(o: &ProvisionalOccurrence) -> (r: u64)
    ensures
        r == spec_cross_source_safe_after(*o),
{
    let d = o.problem.draft();
    let end = d.end_line as u64;
    match d.kind {
        ProblemKind::JavaCrash | ProblemKind::JavaOom | ProblemKind::Anr => end + MANAGED_CORRELATION_WINDOW_LINES as u64,
        ProblemKind::NativeCrash => end + FAULT_OUTCOME_WINDOW_LINES as u64,
        _ => u64::MAX,
    }
}

/// `new` is what merging `b` into `a` gives (see `spec_merge`), its observations in order.
pub open spec fn spec_problem_merged(new: RecognizedProblem, a: RecognizedProblem, b: RecognizedProblem) -> bool {
    &&& new.wf()
    &&& new.spec_draft() == spec_merge(a, b).0
    &&& new.spec_group_key() == spec_merge(a, b).1
    &&& new.spec_observations().to_multiset() == spec_merge(a, b).2.to_multiset()
    &&& spec_obs_sorted(new.spec_observations())
    &&& new.spec_total() == spec_merge(a, b).3
}

#[verifier::opaque]
/// `n` is `o` with `other` merged in: the signature taken from `other` where `o` knows none,
/// both sources, each clock slot filled from `other` where `o`'s is empty, ambiguity
/// recorded where either recorded it, and the two problems merged.
pub open spec fn spec_occurrence_merged(n: ProvisionalOccurrence, o: ProvisionalOccurrence, other: ProvisionalOccurrence) -> bool {
    &&& n.identity.process == o.identity.process
    &&& n.identity.subject == (if o.identity.subject is None { other.identity.subject } else { o.identity.subject })
    &&& n.source_mask == o.source_mask | other.source_mask
    &&& forall|k: int| 0 <= k < 4 ==> #[trigger] n.clocks@[k] == (if o.clocks@[k] is None { other.clocks@[k] } else { o.clocks@[k] })
    &&& n.ambiguity_recorded == (o.ambiguity_recorded || other.ambiguity_recorded)
    &&& spec_problem_merged(n.problem, o.problem, other.problem)
}

/// A merged occurrence holds a well-formed problem.
pub proof fn lemma_occurrence_merged_wf(n: ProvisionalOccurrence, o: ProvisionalOccurrence, other: ProvisionalOccurrence)
    requires
        spec_occurrence_merged(n, o, other),
    ensures
        n.problem.wf(),
{
    reveal(spec_occurrence_merged);
}

impl ProvisionalOccurrence {
    /// The last line of the occurrence's evidence.
    pub fn max_line(&self) -> (r: u32)
        ensures
            r == self.problem.spec_draft().end_line,
    {
        self.problem.draft().end_line
    }

    /// Merges `other`, the same fault seen from another source, into this occurrence.
    pub fn merge_occurrence(&mut self, other: ProvisionalOccurrence)
        requires
            old(self).problem.wf(),
            other.problem.wf(),
        ensures
            spec_occurrence_merged(*final(self), *old(self), other),
    {
        if self.identity.subject.is_none() {
            self.identity.subject = other.identity.subject;
        }
        self.source_mask = self.source_mask | other.source_mask;
        let ghost c0 = self.clocks;
        let mut k: usize = 0;
        while k < 4
            invariant
                0 <= k <= 4,
                self.problem == old(self).problem,
                self.identity == (if old(self).identity.subject is None { CorrelationIdentity { subject: other.identity.subject,
                    ..old(self).identity } } else { old(self).identity }),
                self.source_mask == old(self).source_mask | other.source_mask,
                self.ambiguity_recorded == old(self).ambiguity_recorded,
                forall|j: int| 0 <= j < k ==> #[trigger] self.clocks@[j] == (if c0@[j] is None { other.clocks@[j] } else { c0@[j] }),
                forall|j: int| k <= j < 4 ==> #[trigger] self.clocks@[j] == c0@[j],
            decreases 4 - k,
        {
            if self.clocks[k].is_none() {
                self.clocks.set(k, other.clocks[k]);
            }
            k = k + 1;
        }
        self.ambiguity_recorded = self.ambiguity_recorded || other.ambiguity_recorded;
        self.problem.merge_from(other.problem);
        proof {
            reveal(spec_occurrence_merged);
        }
    }
}

/// The work budget correlation may spend, what it has spent, and what ran out.
#[derive(Debug, Clone, Copy, PartialEq, Eq, Structural)]
pub struct CorrelationWork {
    pub remaining: usize,
    pub used: usize,
    pub exhausted: bool,
    pub capacity_limited: bool,
    pub ambiguity_count: u64,
}

/// Spending one unit of work: refused, marking the budget exhausted, when none is left.
pub open spec fn spec_consume(w: CorrelationWork) -> (bool, CorrelationWork) {
    if w.remaining == 0 {
        (false, CorrelationWork { exhausted: true, ..w })
    } else {
        (true, CorrelationWork {
            remaining: (w.remaining - 1) as usize,
            used: if w.used == usize::MAX { usize::MAX } else { (w.used + 1) as usize },
            ..w
        })
    }
}

impl CorrelationWork {
    pub fn consume(&mut self) -> (r: bool)
        ensures
            (r, *final(self)) == spec_consume(*old(self)),
    {
        if self.remaining == 0 {
            self.exhausted = true;
            return false;
        }
        self.remaining = self.remaining - 1;
        self.used = self.used.saturating_add(1);
        true
    }
}

/// What a recent lifecycle observation was.
#[derive(Debug, Clone, Copy, PartialEq, Eq, Structural)]
pub enum LifecycleObservationKind {
    Start,
    Death,
    KillRequest,
}

/// A process lifecycle observation kept for late correlation.
#[derive(Debug, Clone, Copy, PartialEq, Eq, Structural)]
pub struct RecentLifecycleObservation {
    pub kind: LifecycleObservationKind,
    pub line: u32,
    pub pid: u32,
    pub process: CorrelationToken,
    pub process_instance: ProcessInstanceKey,
    pub clock: Option<CorrelationClock>,
    pub reference: ObservationCandidate,
    pub claimed_by: Option<u64>,
}

impl CompactCorrelationPayload for RecentLifecycleObservation {
    open spec fn spec_payload_bytes(&self) -> u32 {
        vstd::layout::size_of::<RecentLifecycleObservation>() as u32
    }

    fn logical_bytes(&self) -> (r: u32) {
        core::mem::size_of::<RecentLifecycleObservation>() as u32
    }
}

/// The lifecycle payloads of recent observations, oldest first.
pub open spec fn spec_lifecycle(obs: Seq<RecentObservation<RecentLifecycleObservation>>) -> Seq<RecentLifecycleObservation> {
    obs.map_values(|o: RecentObservation<RecentLifecycleObservation>| o.spec_payload())
}

/// Scanning the recent observations from `i` for a start of `pid` on a line from `start` to
/// `end`, one unit of work each: whether one was found (or the work ran out), and the work
/// left.
pub open spec fn spec_barrier_from(obs: Seq<RecentLifecycleObservation>, i: int, pid: u32, start: u32, end: u32, w: CorrelationWork)
    -> (bool, CorrelationWork)
    decreases obs.len() - i,
{
    if i < 0 || i >= obs.len() {
        (false, w)
    } else {
        let (ok, w1) = spec_consume(w);
        if !ok {
            (true, w1)
        } else if obs[i].kind == LifecycleObservationKind::Start && obs[i].pid == pid && start <= obs[i].line <= end {
            (true, w1)
        } else {
            spec_barrier_from(obs, i + 1, pid, start, end, w1)
        }
    }
}

/// Whether a start of `pid` lies between the two lines, so that occurrences on either side
/// belong to different process instances; running out of work counts as a barrier.
pub fn has_start_barrier(
    recent: &RecentObservationStore<RecentLifecycleObservation>,
    pid: u32,
    left_line: u32,
    right_line: u32,
    work: &mut CorrelationWork,
) -> (r: bool)
    requires
        recent.wf(),
    ensures
        ({
            let start = if left_line < right_line { left_line } else { right_line };
            let end = if left_line < right_line { right_line } else { left_line };
            (r, *final(work)) == spec_barrier_from(spec_lifecycle(recent.spec_observations()), 0, pid, start, end, *old(work))
        }),
{
    let start = if left_line < right_line { left_line } else { right_line };
    let end = if left_line < right_line { right_line } else { left_line };
    let ghost obs = spec_lifecycle(recent.spec_observations());
    let n = recent.len();
    let mut i: usize = 0;
    let mut found = false;
    while i < n && !found
        invariant
            0 <= i <= n,
            n == obs.len(),
            obs == spec_lifecycle(recent.spec_observations()),
            recent.wf(),
            !found ==> spec_barrier_from(obs, 0, pid, start, end, *old(work)) == spec_barrier_from(obs, i as int, pid, start, end, *work),
            found ==> spec_barrier_from(obs, 0, pid, start, end, *old(work)) == (true, *work),
        decreases n - i,
    {
        let o = recent.observation_at(i).payload();
        proof {
            assert(*o == obs[i as int]);
        }
        let ghost wb = *work;
        let ok = work.consume();
        proof {
            assert(spec_barrier_from(obs, i as int, pid, start, end, wb) == (if !ok { (true, *work) } else if obs[i as int].kind
                == LifecycleObservationKind::Start && obs[i as int].pid == pid && start <= obs[i as int].line <= end { (true, *work) } else {
                spec_barrier_from(obs, i + 1, pid, start, end, *work) }));
        }
        if !ok || (o.kind == LifecycleObservationKind::Start && o.pid == pid && start <= o.line && o.line <= end) {
            found = true;
        }
        i = i + 1;
    }
    found
}

/// Which provisional occurrence a new one would merge with.
#[derive(Debug, Clone, Copy, PartialEq, Eq, Structural)]
pub enum CorrelationTarget {
    NoCandidate,
    Unique(u64),
    Ambiguous,
}

/// The target of a scan that ended with `nearest` and `tied`.
pub open spec fn spec_target_of(nearest: Option<(u32, u64)>, tied: bool) -> CorrelationTarget {
    if tied {
        CorrelationTarget::Ambiguous
    } else {
        match nearest {
            Some((_, s)) => CorrelationTarget::Unique(s),
            None => CorrelationTarget::NoCandidate,
        }
    }
}

/// Scanning the provisional entries from `i` for the nearest one `problem` may merge with,
/// one unit of work each (and the barrier scans' units): the entries it may merge with and
/// that no process start separates from it are ranked by line distance, earliest first on a
/// tie of positions, two at the nearest distance making the target ambiguous; running out of
/// work makes it ambiguous too.
pub open spec fn spec_target_from(
    entries: Seq<ProvisionalEntry<ProvisionalOccurrence>>,
    i: int,
    nearest: Option<(u32, u64)>,
    tied: bool,
    obs: Seq<RecentLifecycleObservation>,
    problem: RecognizedProblem,
    identity: CorrelationIdentity,
    source: CorrelationSource,
    clock: Option<CorrelationClock>,
    w: CorrelationWork,
) -> (CorrelationTarget, CorrelationWork)
    decreases entries.len() - i,
{
    if i < 0 || i >= entries.len() {
        (spec_target_of(nearest, tied), w)
    } else {
        let (ok, w1) = spec_consume(w);
        let c = entries[i].spec_payload();
        let p = problem.spec_draft();
        let cd = c.problem.spec_draft();
        if !ok {
            (CorrelationTarget::Ambiguous, w1)
        } else if !spec_can_merge_faults(c, problem, identity, source, clock) {
            spec_target_from(entries, i + 1, nearest, tied, obs, problem, identity, source, clock, w1)
        } else {
            let (bar, w2) = spec_barrier_from(obs, 0, p.pid, if cd.start_line < p.end_line { cd.start_line } else { p.end_line },
                if cd.start_line < p.end_line { p.end_line } else { cd.start_line }, w1);
            let d = spec_range_distance(cd.start_line, cd.end_line, p.start_line, p.end_line);
            let seq = entries[i].spec_sequence();
            if bar {
                spec_target_from(entries, i + 1, nearest, tied, obs, problem, identity, source, clock, w2)
            } else {
                match nearest {
                    None => spec_target_from(entries, i + 1, Some((d, seq)), false, obs, problem, identity, source, clock, w2),
                    Some((k, _)) => if d < k {
                        spec_target_from(entries, i + 1, Some((d, seq)), false, obs, problem, identity, source, clock, w2)
                    } else if d == k {
                        spec_target_from(entries, i + 1, nearest, true, obs, problem, identity, source, clock, w2)
                    } else {
                        spec_target_from(entries, i + 1, nearest, tied, obs, problem, identity, source, clock, w2)
                    },
                }
            }
        }
    }
}

/// The nearest provisional occurrence `problem` may merge with (see `spec_target_from`).
pub fn merge_target(
    provisional: &ProvisionalStore<ProvisionalOccurrence>,
    recent: &RecentObservationStore<RecentLifecycleObservation>,
    problem: &RecognizedProblem,
    identity: CorrelationIdentity,
    source: CorrelationSource,
    clock: Option<CorrelationClock>,
    work: &mut CorrelationWork,
) -> (r: CorrelationTarget)
    requires
        provisional.wf(),
        recent.wf(),
    ensures
        (r, *final(work)) == spec_target_from(provisional.spec_entries(), 0, None, false, spec_lifecycle(recent.spec_observations()),
            *problem, identity, source, clock, *old(work)),
{
    let ghost entries = provisional.spec_entries();
    let ghost obs = spec_lifecycle(recent.spec_observations());
    let n = provisional.len();
    let p = problem.draft();
    let mut nearest: Option<(u32, u64)> = None;
    let mut tied = false;
    let mut cut = false;
    let mut i: usize = 0;
    while i < n && !cut
        invariant
            0 <= i <= n,
            n == entries.len(),
            entries == provisional.spec_entries(),
            obs == spec_lifecycle(recent.spec_observations()),
            provisional.wf(),
            recent.wf(),
            p == problem.spec_draft(),
            !cut ==> spec_target_from(entries, 0, None, false, obs, *problem, identity, source, clock, *old(work))
                == spec_target_from(entries, i as int, nearest, tied, obs, *problem, identity, source, clock, *work),
            cut ==> spec_target_from(entries, 0, None, false, obs, *problem, identity, source, clock, *old(work))
                == (CorrelationTarget::Ambiguous, *work),
        decreases n - i,
    {
        let entry = provisional.entry_at(i);
        let c = entry.payload();
        let seq = entry.sequence();
        let ghost wb = *work;
        let ok = work.consume();
        if !ok {
            cut = true;
        } else if can_merge_faults(c, problem, identity, source, clock) {
            let cd = c.problem.draft();
            let bar = has_start_barrier(recent, p.pid, cd.start_line, p.end_line, work);
            if !bar {
                let d = range_distance(cd.start_line, cd.end_line, p.start_line, p.end_line);
                match nearest {
                    None => {
                        nearest = Some((d, seq));
                        tied = false;
                    },
                    Some((k, _)) => {
                        if d < k {
                            nearest = Some((d, seq));
                            tied = false;
                        } else if d == k {
                            tied = true;
                        }
                    },
                }
            }
        }
        i = i + 1;
    }
    if cut {
        CorrelationTarget::Ambiguous
    } else if tied {
        CorrelationTarget::Ambiguous
    } else {
        match nearest {
            Some((_, s)) => CorrelationTarget::Unique(s),
            None => CorrelationTarget::NoCandidate,
        }
    }
}

/// The position of the first entry with sequence `seq`, if any.
pub open spec fn spec_entry_position(entries: Seq<ProvisionalEntry<ProvisionalOccurrence>>, seq: u64) -> Option<int> {
    if exists|i: int| 0 <= i < entries.len() && (#[trigger] entries[i]).spec_sequence() == seq {
        Some(choose|i: int| 0 <= i < entries.len() && (#[trigger] entries[i]).spec_sequence() == seq
            && forall|j: int| 0 <= j < i ==> (#[trigger] entries[j]).spec_sequence() != seq)
    } else {
        None
    }
}

/// Every stored occurrence's problem is well formed.
pub open spec fn spec_payloads_wf(entries: Seq<ProvisionalEntry<ProvisionalOccurrence>>) -> bool {
    forall|i: int| 0 <= i < entries.len() ==> (#[trigger] entries[i]).spec_payload().problem.wf()
}

/// Exactly one source bit is set.
pub open spec fn spec_one_source(mask: u8) -> bool {
    mask == 1 || mask == 2 || mask == 4 || mask == 8 || mask == 16 || mask == 32 || mask == 64 || mask == 128
}

fn find_entry(provisional: &ProvisionalStore<ProvisionalOccurrence>, seq: u64) -> (r: Option<usize>)
    requires
        provisional.wf(),
    ensures
        match r {
            Some(k) => spec_entry_position(provisional.spec_entries(), seq) == Some(k as int) && k < provisional.spec_entries().len()
                && provisional.spec_entries()[k as int].spec_sequence() == seq,
            None => spec_entry_position(provisional.spec_entries(), seq) is None,
        },
{
    let ghost e = provisional.spec_entries();
    let n = provisional.len();
    let mut i: usize = 0;
    let mut found = false;
    while i < n && !found
        invariant
            0 <= i <= n,
            n == e.len(),
            e == provisional.spec_entries(),
            !found ==> forall|j: int| 0 <= j < i ==> (#[trigger] e[j]).spec_sequence() != seq,
            found ==> 0 < i && e[i - 1].spec_sequence() == seq && forall|j: int| 0 <= j < i - 1 ==> (#[trigger] e[j]).spec_sequence() != seq,
        decreases n - i,
    {
        if provisional.entry_at(i).sequence() == seq {
            found = true;
        }
        i = i + 1;
    }
    if found {
        proof {
            let k = (i - 1) as int;
            let c = choose|c: int| 0 <= c < e.len() && (#[trigger] e[c]).spec_sequence() == seq
                && forall|j: int| 0 <= j < c ==> (#[trigger] e[j]).spec_sequence() != seq;
            if c < k {
            } else if c > k {
                assert(e[k].spec_sequence() == seq);
            }
        }
        Some(i - 1)
    } else {
        None
    }
}

/// The target the occurrence with sequence `seq` would merge with: none where there is no
/// such occurrence or it has already heard from more than one source.
pub open spec fn spec_target_for_sequence(
    entries: Seq<ProvisionalEntry<ProvisionalOccurrence>>,
    seq: u64,
    obs: Seq<RecentLifecycleObservation>,
    w: CorrelationWork,
) -> (CorrelationTarget, CorrelationWork) {
    match spec_entry_position(entries, seq) {
        None => (CorrelationTarget::NoCandidate, w),
        Some(k) => {
            let c = entries[k].spec_payload();
            if !spec_one_source(c.source_mask) {
                (CorrelationTarget::NoCandidate, w)
            } else {
                let src = spec_correlation_source(c.problem);
                spec_target_from(entries, 0, None, false, obs, c.problem, c.identity, src, c.clocks@[src.spec_slot()], w)
            }
        },
    }
}

pub fn merge_target_for_sequence(
    provisional: &ProvisionalStore<ProvisionalOccurrence>,
    recent: &RecentObservationStore<RecentLifecycleObservation>,
    seq: u64,
    work: &mut CorrelationWork,
) -> (r: CorrelationTarget)
    requires
        provisional.wf(),
        recent.wf(),
        spec_payloads_wf(provisional.spec_entries()),
    ensures
        (r, *final(work)) == spec_target_for_sequence(provisional.spec_entries(), seq, spec_lifecycle(recent.spec_observations()),
            *old(work)),
{
    let k = match find_entry(provisional, seq) {
        Some(k) => k,
        None => return CorrelationTarget::NoCandidate,
    };
    let c = provisional.entry_at(k).payload();
    proof {
        assert(c.problem.wf());
    }
    let m = c.source_mask;
    if !(m == 1 || m == 2 || m == 4 || m == 8 || m == 16 || m == 32 || m == 64 || m == 128) {
        return CorrelationTarget::NoCandidate;
    }
    let source = correlation_source(&c.problem);
    merge_target(provisional, recent, &c.problem, c.identity, source, c.clocks[source.slot()], work)
}

/// The sequences of the entries from `i` whose deadline the watermark has strictly crossed,
/// in order, one unit of work each, stopping where the work runs out.
pub open spec fn spec_ready_from(entries: Seq<ProvisionalEntry<ProvisionalOccurrence>>, i: int, watermark: u64, w: CorrelationWork)
    -> (Seq<u64>, CorrelationWork)
    decreases entries.len() - i,
{
    if i < 0 || i >= entries.len() {
        (Seq::empty(), w)
    } else if !(watermark > entries[i].spec_finalize_after_line()) {
        spec_ready_from(entries, i + 1, watermark, w)
    } else {
        let (ok, w1) = spec_consume(w);
        if !ok {
            (Seq::empty(), w1)
        } else {
            let (rest, w2) = spec_ready_from(entries, i + 1, watermark, w1);
            (seq![entries[i].spec_sequence()] + rest, w2)
        }
    }
}

/// Looking through the ready sequences from `j`: the pairs (smaller sequence first) whose
/// members are each the other's unique target, the target being past the point where more
/// evidence could arrive, and the sequences found ambiguous; correlation stops, marked
/// capacity limited, once the work has run out.
pub open spec fn spec_pairs_from(
    entries: Seq<ProvisionalEntry<ProvisionalOccurrence>>,
    ready: Seq<u64>,
    j: int,
    watermark: u64,
    obs: Seq<RecentLifecycleObservation>,
    w: CorrelationWork,
    pairs: Seq<(u64, u64)>,
    amb: Seq<u64>,
) -> (Seq<(u64, u64)>, Seq<u64>, CorrelationWork)
    decreases ready.len() - j,
{
    if j < 0 || j >= ready.len() {
        (pairs, amb, w)
    } else {
        let s = ready[j];
        let (t, w1) = spec_target_for_sequence(entries, s, obs, w);
        let (p2, a2, w2) = match t {
            CorrelationTarget::Ambiguous => (pairs, amb.push(s), w1),
            CorrelationTarget::Unique(target) => {
                let safe = match spec_entry_position(entries, target) {
                    Some(k) => watermark > spec_cross_source_safe_after(entries[k].spec_payload()),
                    None => false,
                };
                if safe {
                    let (t2, w3) = spec_target_for_sequence(entries, target, obs, w1);
                    match t2 {
                        CorrelationTarget::Unique(rev) => if rev == s && s < target {
                            (pairs.push((s, target)), amb, w3)
                        } else {
                            (pairs, amb, w3)
                        },
                        CorrelationTarget::Ambiguous => (pairs, amb.push(target), w3),
                        CorrelationTarget::NoCandidate => (pairs, amb, w3),
                    }
                } else {
                    (pairs, amb, w1)
                }
            },
            CorrelationTarget::NoCandidate => (pairs, amb, w1),
        };
        if w2.exhausted {
            (p2, a2, CorrelationWork { capacity_limited: true, ..w2 })
        } else {
            spec_pairs_from(entries, ready, j + 1, watermark, obs, w2, p2, a2)
        }
    }
}

fn ready_sequences(provisional: &ProvisionalStore<ProvisionalOccurrence>, watermark: u64, work: &mut CorrelationWork) -> (r: Vec<u64>)
    requires
        provisional.wf(),
    ensures
        (r@, *final(work)) == spec_ready_from(provisional.spec_entries(), 0, watermark, *old(work)),
{
    let ghost e = provisional.spec_entries();
    let n = provisional.len();
    let mut out: Vec<u64> = Vec::new();
    let mut i: usize = 0;
    let mut cut = false;
    while i < n && !cut
        invariant
            0 <= i <= n,
            n == e.len(),
            e == provisional.spec_entries(),
            !cut ==> spec_ready_from(e, 0, watermark, *old(work)) == (out@ + spec_ready_from(e, i as int, watermark, *work).0,
                spec_ready_from(e, i as int, watermark, *work).1),
            cut ==> spec_ready_from(e, 0, watermark, *old(work)) == (out@, *work),
        decreases n - i,
    {
        let entry = provisional.entry_at(i);
        if watermark > entry.finalize_after_line() {
            let ghost wb = *work;
            let ghost before = out@;
            if work.consume() {
                out.push(entry.sequence());
                proof {
                    let rest = spec_ready_from(e, i + 1, watermark, *work);
                    assert(spec_ready_from(e, i as int, watermark, wb) == (seq![e[i as int].spec_sequence()] + rest.0, rest.1));
                    assert(before + (seq![e[i as int].spec_sequence()] + rest.0) =~= out@ + rest.0);
                }
            } else {
                proof {
                    assert(before + Seq::<u64>::empty() =~= before);
                }
                cut = true;
            }
        }
        i = i + 1;
    }
    proof {
        if !cut {
            assert(out@ + Seq::<u64>::empty() =~= out@);
        }
    }
    out
}

/// `m` is `e` with every occurrence whose sequence `amb` lists marked as having recorded its
/// ambiguity.
pub open spec fn spec_marked(e: Seq<ProvisionalEntry<ProvisionalOccurrence>>, m: Seq<ProvisionalEntry<ProvisionalOccurrence>>, amb: Seq<u64>) -> bool {
    &&& m.len() == e.len()
    &&& forall|k: int| 0 <= k < e.len() ==> {
        &&& (#[trigger] m[k]).spec_sequence() == e[k].spec_sequence()
        &&& m[k].spec_finalize_after_line() == e[k].spec_finalize_after_line()
        &&& m[k].spec_logical_bytes() == e[k].spec_logical_bytes()
        &&& m[k].spec_payload() == (ProvisionalOccurrence {
            ambiguity_recorded: e[k].spec_payload().ambiguity_recorded || amb.contains(e[k].spec_sequence()),
            ..e[k].spec_payload()
        })
    }
}

/// The ambiguity count after marking the first `n` of `amb`, from `c0`: each occurrence
/// counts once, when it is first marked.
pub open spec fn spec_mark_count(e: Seq<ProvisionalEntry<ProvisionalOccurrence>>, amb: Seq<u64>, n: int, c0: u64) -> u64
    decreases n,
{
    if n <= 0 || n > amb.len() {
        c0
    } else {
        let prev = spec_mark_count(e, amb, n - 1, c0);
        let s = amb[n - 1];
        match spec_entry_position(e, s) {
            Some(p) => if !(e[p].spec_payload().ambiguity_recorded || amb.take(n - 1).contains(s)) {
                if prev == u64::MAX { prev } else { (prev + 1) as u64 }
            } else {
                prev
            },
            None => prev,
        }
    }
}

/// The larger of two deadlines.
pub open spec fn spec_max_u64(a: u64, b: u64) -> u64 {
    if a >= b { a } else { b }
}

/// `other` (due after `other_deadline`) merged into the entry of `keep`, where there is one:
/// the merged occurrence replaces its payload and its deadline becomes the latest of
/// `other_deadline`, the merged occurrence's own and its previous one.
pub open spec fn spec_merged_into(
    o: Seq<ProvisionalEntry<ProvisionalOccurrence>>,
    n: Seq<ProvisionalEntry<ProvisionalOccurrence>>,
    keep: u64,
    other: ProvisionalOccurrence,
    other_deadline: u64,
) -> bool {
    match spec_entry_position(o, keep) {
        None => n == o,
        Some(k) => spec_merged_at(o, n, k, keep, other, other_deadline),
    }
}

/// `other` merged into the entry at `k`, of sequence `keep` (see `spec_merged_into`).
pub open spec fn spec_merged_at(
    o: Seq<ProvisionalEntry<ProvisionalOccurrence>>,
    n: Seq<ProvisionalEntry<ProvisionalOccurrence>>,
    k: int,
    keep: u64,
    other: ProvisionalOccurrence,
    other_deadline: u64,
) -> bool {
    exists|mid: Seq<ProvisionalEntry<ProvisionalOccurrence>>, merged: ProvisionalOccurrence|
        #[trigger] spec_payload_replaced(o, mid, k, merged) && spec_occurrence_merged(merged, o[k].spec_payload(), other)
        && spec_deadline_extended(mid, n, keep, spec_max_u64(spec_max_u64(other_deadline,
        spec_provisional_deadline(merged.problem.spec_draft().end_line)), o[k].spec_finalize_after_line()))
}

/// One pair merged: the entry of `remove` leaves, and its occurrence is merged into that of
/// `keep` where that is still there.
pub open spec fn spec_pair_step(o: Seq<ProvisionalEntry<ProvisionalOccurrence>>, n: Seq<ProvisionalEntry<ProvisionalOccurrence>>, pair: (u64, u64)) -> bool {
    let (keep, remove) = pair;
    match spec_entry_position(o, remove) {
        None => n == o,
        Some(i) => spec_merged_into(o.remove(i), n, keep, o[i].spec_payload(), o[i].spec_finalize_after_line()),
    }
}

/// `states` runs from the first to the last through one merged pair each.
pub open spec fn spec_pairs_chain(states: Seq<Seq<ProvisionalEntry<ProvisionalOccurrence>>>, pairs: Seq<(u64, u64)>) -> bool {
    &&& states.len() == pairs.len() + 1
    &&& forall|i: int| 0 <= i < pairs.len() ==> spec_pair_step(#[trigger] states[i], states[i + 1], pairs[i])
}

proof fn lemma_extend_keeps_payloads_wf(o: Seq<ProvisionalEntry<ProvisionalOccurrence>>, n: Seq<ProvisionalEntry<ProvisionalOccurrence>>, seq: u64, d: u64)
    requires
        spec_deadline_extended(o, n, seq, d),
        spec_payloads_wf(o),
    ensures
        spec_payloads_wf(n),
{
    if exists|i: int| 0 <= i < o.len() && (#[trigger] o[i]).spec_sequence() == seq {
        let i = choose|i: int| 0 <= i < o.len() && (#[trigger] o[i]).spec_sequence() == seq;
        if d > o[i].spec_finalize_after_line() {
            let j = choose|j: int| 0 <= j < n.len() && #[trigger] n.remove(j) == o.remove(i)
                && crate::problems::correlation::spec_is_entry(n[j], seq, d, o[i].spec_logical_bytes(), o[i].spec_payload());
            assert(n.remove(j).len() == o.remove(i).len());
            assert(n.len() == o.len());
            assert forall|x: int| 0 <= x < n.len() implies (#[trigger] n[x]).spec_payload().problem.wf() by {
                if x < j {
                    assert(n[x] == n.remove(j)[x]);
                    if x < i {
                        assert(o.remove(i)[x] == o[x]);
                    } else {
                        assert(o.remove(i)[x] == o[x + 1]);
                    }
                } else if x > j {
                    assert(n[x] == n.remove(j)[x - 1]);
                    if x - 1 < i {
                        assert(o.remove(i)[x - 1] == o[x - 1]);
                    } else {
                        assert(o.remove(i)[x - 1] == o[x]);
                    }
                }
            }
        }
    }
}

/// Merges `other`, due after `other_deadline`, into the entry of `keep` (see
/// `spec_merged_into`).
#[verifier::rlimit(100)]
#[verifier::spinoff_prover]
fn merge_into_keep(provisional: &mut ProvisionalStore<ProvisionalOccurrence>, keep: u64, other: ProvisionalOccurrence, other_deadline: u64)
    requires
        old(provisional).wf(),
        spec_payloads_wf(old(provisional).spec_entries()),
        other.problem.wf(),
    ensures
        final(provisional).wf(),
        spec_payloads_wf(final(provisional).spec_entries()),
        spec_merged_into(old(provisional).spec_entries(), final(provisional).spec_entries(), keep, other, other_deadline),
        final(provisional).spec_limits() == old(provisional).spec_limits(),
        final(provisional).spec_next_sequence() == old(provisional).spec_next_sequence(),
{
    let ghost o1 = provisional.spec_entries();
    match find_entry(provisional, keep) {
        Some(k) => {
            let keep_deadline = provisional.entry_at(k).finalize_after_line();
            match provisional.payload_mut(k) {
                Some(p) => {
                    p.merge_occurrence(other);
                },
                None => {},
            }
            let ghost mid = provisional.spec_entries();
            let max_line = provisional.entry_at(k).payload().max_line();
            let d1 = provisional_deadline(max_line);
            let d0 = if other_deadline >= d1 { other_deadline } else { d1 };
            let new_deadline = if d0 >= keep_deadline { d0 } else { keep_deadline };
            proof {
                lemma_occurrence_merged_wf(mid[k as int].spec_payload(), o1[k as int].spec_payload(), other);
                assert forall|x: int| 0 <= x < mid.len() implies (#[trigger] mid[x]).spec_payload().problem.wf() by {
                    if x != k as int {
                        assert(mid[x] == o1[x]);
                    }
                }
            }
            provisional.extend_finalize_after_line(keep, new_deadline);
            proof {
                lemma_extend_keeps_payloads_wf(mid, provisional.spec_entries(), keep, new_deadline);
                let merged = mid[k as int].spec_payload();
                assert(spec_payload_replaced(o1, mid, k as int, merged));
                assert(spec_occurrence_merged(merged, o1[k as int].spec_payload(), other));
                assert(new_deadline == spec_max_u64(spec_max_u64(other_deadline, spec_provisional_deadline(merged.problem.spec_draft().end_line)),
                    o1[k as int].spec_finalize_after_line()));
                assert(spec_deadline_extended(mid, provisional.spec_entries(), keep, new_deadline));
                assert(spec_entry_position(o1, keep) == Some(k as int));
                let fin = provisional.spec_entries();
                let kk = k as int;
                assert(exists|m2: Seq<ProvisionalEntry<ProvisionalOccurrence>>, mg: ProvisionalOccurrence|
                    #[trigger] spec_payload_replaced(o1, m2, kk, mg) && spec_occurrence_merged(mg, o1[kk].spec_payload(), other)
                    && spec_deadline_extended(m2, fin, keep, spec_max_u64(spec_max_u64(other_deadline,
                    spec_provisional_deadline(mg.problem.spec_draft().end_line)), o1[kk].spec_finalize_after_line())));
                assert(spec_merged_at(o1, fin, kk, keep, other, other_deadline));
                assert(spec_merged_into(o1, fin, keep, other, other_deadline));
            }
        },
        None => {
            proof {
                assert(spec_merged_into(o1, provisional.spec_entries(), keep, other, other_deadline));
            }
        },
    }
}

/// Merges the occurrence of `remove` into that of `keep` (see `spec_pair_step`).
fn merge_pair(provisional: &mut ProvisionalStore<ProvisionalOccurrence>, keep: u64, remove: u64)
    requires
        old(provisional).wf(),
        spec_payloads_wf(old(provisional).spec_entries()),
    ensures
        final(provisional).wf(),
        spec_payloads_wf(final(provisional).spec_entries()),
        spec_pair_step(old(provisional).spec_entries(), final(provisional).spec_entries(), (keep, remove)),
        final(provisional).spec_limits() == old(provisional).spec_limits(),
        final(provisional).spec_next_sequence() == old(provisional).spec_next_sequence(),
{
    let ghost o = provisional.spec_entries();
    proof {
        provisional.lemma_sequences_distinct();
    }
    match provisional.remove(remove) {
        Some(removed) => {
            let ghost o1 = provisional.spec_entries();
            proof {
                let i = choose|i: int| 0 <= i < o.len() && o[i] == removed && removed.spec_sequence() == remove && o1 == o.remove(i);
                let c = choose|x: int| 0 <= x < o.len() && (#[trigger] o[x]).spec_sequence() == remove
                    && forall|y: int| 0 <= y < x ==> (#[trigger] o[y]).spec_sequence() != remove;
                if c != i {
                    assert(o[c].spec_sequence() != o[i].spec_sequence());
                }
                assert(spec_entry_position(o, remove) == Some(i));
                assert forall|x: int| 0 <= x < o1.len() implies (#[trigger] o1[x]).spec_payload().problem.wf() by {
                    if x < i {
                        assert(o1[x] == o[x]);
                    } else {
                        assert(o1[x] == o[x + 1]);
                    }
                }
                assert(removed.spec_payload().problem.wf());
            }
            let removed_deadline = removed.finalize_after_line();
            let removed_payload = removed.into_payload();
            merge_into_keep(provisional, keep, removed_payload, removed_deadline);
        },
        None => {
            proof {
                assert(spec_entry_position(o, remove) is None);
            }
        },
    }
}

/// What resolving the safe pairs at `watermark` does to the entries `e0` and the work `w0`:
/// nothing more than spending the work where no entry is ready; otherwise the ambiguous
/// occurrences are marked and counted once, then the pairs are merged in turn.
pub open spec fn spec_resolved(
    e0: Seq<ProvisionalEntry<ProvisionalOccurrence>>,
    obs: Seq<RecentLifecycleObservation>,
    watermark: u64,
    w0: CorrelationWork,
    fin: Seq<ProvisionalEntry<ProvisionalOccurrence>>,
    wf: CorrelationWork,
) -> bool {
    let ready = spec_ready_from(e0, 0, watermark, w0).0;
    let w1 = spec_ready_from(e0, 0, watermark, w0).1;
    let pairs = spec_pairs_from(e0, ready, 0, watermark, obs, w1, Seq::empty(), Seq::empty()).0;
    let amb = spec_pairs_from(e0, ready, 0, watermark, obs, w1, Seq::empty(), Seq::empty()).1;
    let w2 = spec_pairs_from(e0, ready, 0, watermark, obs, w1, Seq::empty(), Seq::empty()).2;
    if ready.len() == 0 {
        fin == e0 && wf == w1
    } else {
        &&& wf == (CorrelationWork { ambiguity_count: spec_mark_count(e0, amb, amb.len() as int, w2.ambiguity_count), ..w2 })
        &&& exists|m: Seq<ProvisionalEntry<ProvisionalOccurrence>>, states: Seq<Seq<ProvisionalEntry<ProvisionalOccurrence>>>|
            #[trigger] spec_marked(e0, m, amb) && #[trigger] spec_pairs_chain(states, pairs) && states[0] == m && states.last() == fin
    }
}

/// Resolves the fault pairs that are safe to merge at `watermark`: among the occurrences
/// whose deadline it has crossed (as far as the work allows), those that are each other's
/// unique target, the target being past the point where more evidence could arrive, are
/// merged into the one with the smaller sequence; ambiguous ones are marked and counted once.
#[verifier::rlimit(100)]
#[verifier::spinoff_prover]
pub fn resolve_safe_fault_pairs(
    provisional: &mut ProvisionalStore<ProvisionalOccurrence>,
    recent: &RecentObservationStore<RecentLifecycleObservation>,
    watermark: u64,
    work: &mut CorrelationWork,
)
    requires
        old(provisional).wf(),
        recent.wf(),
        spec_payloads_wf(old(provisional).spec_entries()),
    ensures
        final(provisional).wf(),
        spec_payloads_wf(final(provisional).spec_entries()),
        final(provisional).spec_limits() == old(provisional).spec_limits(),
        final(provisional).spec_next_sequence() == old(provisional).spec_next_sequence(),
        spec_resolved(old(provisional).spec_entries(), spec_lifecycle(recent.spec_observations()), watermark, *old(work),
            final(provisional).spec_entries(), *final(work)),
{
    let ghost e0 = provisional.spec_entries();
    let ghost obs = spec_lifecycle(recent.spec_observations());
    let ready = ready_sequences(provisional, watermark, work);
    if ready.len() == 0 {
        return;
    }
    let ghost w1 = *work;
    let mut pairs: Vec<(u64, u64)> = Vec::new();
    let mut ambiguous: Vec<u64> = Vec::new();
    let mut j: usize = 0;
    let mut stop = false;
    while j < ready.len() && !stop
        invariant
            0 <= j <= ready@.len(),
            provisional.wf(),
            recent.wf(),
            provisional.spec_entries() == e0,
            obs == spec_lifecycle(recent.spec_observations()),
            spec_payloads_wf(e0),
            !stop ==> spec_pairs_from(e0, ready@, 0, watermark, obs, w1, Seq::empty(), Seq::empty())
                == spec_pairs_from(e0, ready@, j as int, watermark, obs, *work, pairs@, ambiguous@),
            stop ==> spec_pairs_from(e0, ready@, 0, watermark, obs, w1, Seq::empty(), Seq::empty()) == (pairs@, ambiguous@, *work),
        decreases ready@.len() - j,
    {
        let s = ready[j];
        let t = merge_target_for_sequence(provisional, recent, s, work);
        match t {
            CorrelationTarget::Ambiguous => {
                ambiguous.push(s);
            },
            CorrelationTarget::Unique(target) => {
                let safe = match find_entry(provisional, target) {
                    Some(k) => watermark > cross_source_safe_after(provisional.entry_at(k).payload()),
                    None => false,
                };
                if safe {
                    match merge_target_for_sequence(provisional, recent, target, work) {
                        CorrelationTarget::Unique(rev) => {
                            if rev == s && s < target {
                                pairs.push((s, target));
                            }
                        },
                        CorrelationTarget::Ambiguous => {
                            ambiguous.push(target);
                        },
                        CorrelationTarget::NoCandidate => {},
                    }
                }
            },
            CorrelationTarget::NoCandidate => {},
        }
        if work.exhausted {
            work.capacity_limited = true;
            stop = true;
        }
        j = j + 1;
    }
    let ghost pairs_all = pairs@;
    let ghost amb = ambiguous@;
    let ghost w2 = *work;
    proof {
        assert(spec_pairs_from(e0, ready@, 0, watermark, obs, w1, Seq::empty(), Seq::empty()) == (pairs_all, amb, w2));
    }
    proof {
        provisional.lemma_sequences_distinct();
        assert(ambiguous@.take(0) =~= Seq::<u64>::empty());
        assert(spec_marked(e0, e0, ambiguous@.take(0))) by {
            assert forall|k: int| 0 <= k < e0.len() implies (#[trigger] e0[k]).spec_payload() == (ProvisionalOccurrence {
                ambiguity_recorded: e0[k].spec_payload().ambiguity_recorded || ambiguous@.take(0).contains(e0[k].spec_sequence()),
                ..e0[k].spec_payload()
            }) by {}
        }
    }
    let mut a: usize = 0;
    while a < ambiguous.len()
        invariant
            0 <= a <= ambiguous@.len(),
            amb == ambiguous@,
            provisional.wf(),
            forall|x: int, y: int| 0 <= x < e0.len() && 0 <= y < e0.len() && x != y ==> (#[trigger] e0[x]).spec_sequence()
                != (#[trigger] e0[y]).spec_sequence(),
            spec_marked(e0, provisional.spec_entries(), amb.take(a as int)),
            spec_payloads_wf(e0),
            spec_payloads_wf(provisional.spec_entries()),
            *work == (CorrelationWork { ambiguity_count: spec_mark_count(e0, amb, a as int, w2.ambiguity_count), ..w2 }),
            provisional.spec_limits() == old(provisional).spec_limits(),
            provisional.spec_next_sequence() == old(provisional).spec_next_sequence(),
        decreases ambiguous@.len() - a,
    {
        let s = ambiguous[a];
        let ghost cur = provisional.spec_entries();
        proof {
            assert(amb.take(a + 1) =~= amb.take(a as int).push(s));
        }
        match find_entry(provisional, s) {
            Some(k) => {
                proof {
                    assert(cur[k as int].spec_sequence() == e0[k as int].spec_sequence());
                    assert forall|y: int| 0 <= y < k implies (#[trigger] e0[y]).spec_sequence() != s by {
                        assert(cur[y].spec_sequence() == e0[y].spec_sequence());
                    }
                    let c = choose|x: int| 0 <= x < e0.len() && (#[trigger] e0[x]).spec_sequence() == s
                        && forall|y: int| 0 <= y < x ==> (#[trigger] e0[y]).spec_sequence() != s;
                    if c != k as int {
                        assert(e0[c].spec_sequence() != e0[k as int].spec_sequence());
                    }
                    assert(spec_entry_position(e0, s) == Some(k as int));
                }
                let recorded = provisional.entry_at(k).payload().ambiguity_recorded;
                if !recorded {
                    match provisional.payload_mut(k) {
                        Some(p) => {
                            p.ambiguity_recorded = true;
                        },
                        None => {},
                    }
                    work.ambiguity_count = work.ambiguity_count.saturating_add(1);
                }
                proof {
                    let now = provisional.spec_entries();
                    assert forall|x: int| 0 <= x < e0.len() implies amb.take(a + 1).contains((#[trigger] e0[x]).spec_sequence())
                        == (amb.take(a as int).contains(e0[x].spec_sequence()) || e0[x].spec_sequence() == s) by {
                        if amb.take(a as int).contains(e0[x].spec_sequence()) {
                            let w = choose|w: int| 0 <= w < amb.take(a as int).len() && amb.take(a as int)[w] == e0[x].spec_sequence();
                            assert(amb.take(a + 1)[w] == amb.take(a as int)[w]);
                        }
                        if e0[x].spec_sequence() == s {
                            assert(amb.take(a + 1)[a as int] == s);
                        }
                    }
                    assert forall|x: int| 0 <= x < e0.len() && x != k as int implies #[trigger] now[x] == cur[x] by {}
                }
            },
            None => {
                proof {
                    assert forall|x: int| 0 <= x < e0.len() implies (#[trigger] e0[x]).spec_sequence() != s by {
                        assert(cur[x].spec_sequence() == e0[x].spec_sequence());
                    }
                    assert(spec_entry_position(e0, s) is None);
                    assert forall|x: int| 0 <= x < e0.len() implies amb.take(a + 1).contains((#[trigger] e0[x]).spec_sequence())
                        == amb.take(a as int).contains(e0[x].spec_sequence()) by {
                        if amb.take(a as int).contains(e0[x].spec_sequence()) {
                            let w = choose|w: int| 0 <= w < amb.take(a as int).len() && amb.take(a as int)[w] == e0[x].spec_sequence();
                            assert(amb.take(a + 1)[w] == amb.take(a as int)[w]);
                        }
                    }
                }
            },
        }
        a = a + 1;
    }
    proof {
        assert(amb.take(amb.len() as int) =~= amb);
    }
    let ghost marked = provisional.spec_entries();
    let ghost mut states: Seq<Seq<ProvisionalEntry<ProvisionalOccurrence>>> = seq![marked];
    let mut q: usize = 0;
    proof {
        assert(pairs_all.take(0) =~= Seq::<(u64, u64)>::empty());
    }
    while q < pairs.len()
        invariant
            0 <= q <= pairs@.len(),
            pairs_all == pairs@,
            provisional.wf(),
            spec_payloads_wf(provisional.spec_entries()),
            spec_pairs_chain(states, pairs_all.take(q as int)),
            states[0] == marked,
            states.last() == provisional.spec_entries(),
            provisional.spec_limits() == old(provisional).spec_limits(),
            provisional.spec_next_sequence() == old(provisional).spec_next_sequence(),
        decreases pairs@.len() - q,
    {
        let (keep, remove) = pairs[q];
        let ghost o = provisional.spec_entries();
        proof {
            assert(pairs_all.take(q + 1).drop_last() =~= pairs_all.take(q as int));
            assert(pairs_all.take(q + 1).last() == (keep, remove));
        }
        merge_pair(provisional, keep, remove);
        proof {
            let ps = pairs_all.take(q + 1);
            let prev = states;
            states = states.push(provisional.spec_entries());
            assert forall|i: int| 0 <= i < ps.len() implies spec_pair_step(#[trigger] states[i], states[i + 1], ps[i]) by {
                if i < q {
                    assert(ps[i] == pairs_all.take(q as int)[i]);
                    assert(states[i] == prev[i] && states[i + 1] == prev[i + 1]);
                } else {
                    assert(states[i] == prev.last());
                }
            }
        }
        q = q + 1;
    }
    proof {
        assert(pairs_all.take(pairs_all.len() as int) =~= pairs_all);
        assert(spec_marked(e0, marked, amb));
        assert(spec_pairs_chain(states, pairs_all));
        assert(states[0] == marked && states.last() == provisional.spec_entries());
        let fin = provisional.spec_entries();
        assert(exists|m: Seq<ProvisionalEntry<ProvisionalOccurrence>>, st: Seq<Seq<ProvisionalEntry<ProvisionalOccurrence>>>|
            #[trigger] spec_marked(e0, m, amb) && #[trigger] spec_pairs_chain(st, pairs_all) && st[0] == m && st.last() == fin);
        assert(*work == (CorrelationWork { ambiguity_count: spec_mark_count(e0, amb, amb.len() as int, w2.ambiguity_count), ..w2 }));
        assert(ready@.len() > 0);
        assert(ready@ == spec_ready_from(e0, 0, watermark, *old(work)).0);
        assert(w1 == spec_ready_from(e0, 0, watermark, *old(work)).1);
        assert(pairs_all == spec_pairs_from(e0, ready@, 0, watermark, obs, w1, Seq::empty(), Seq::empty()).0);
        assert(amb == spec_pairs_from(e0, ready@, 0, watermark, obs, w1, Seq::empty(), Seq::empty()).1);
        assert(w2 == spec_pairs_from(e0, ready@, 0, watermark, obs, w1, Seq::empty(), Seq::empty()).2);
        assert(spec_resolved(e0, obs, watermark, *old(work), fin, *work));
    }
}

} // verus!
