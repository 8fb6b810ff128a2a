use vstd::prelude::*;
use vstd::string::StringExecFns;
use crate::chars::spec_ws;
use crate::problems::model::{IdentityQuality, ProcessInstanceKey};
use crate::util::str_equal;

verus! {

pub const MAX_ACTIVE_PROCESS_INSTANCES: usize = 65_536;

pub const MAX_RECENT_TERMINATED_INSTANCES: usize = 4_096;

#[derive(Debug, Clone, Copy, PartialEq, Eq, Structural)]
pub enum ProcessIdentityError {
    ZeroPid,
    EmptyProcessName,
}

#[derive(Debug, Clone, Copy)]
pub struct ProcessIdentity<'a> {
    pid: u32,
    process_name: &'a str,
    uid: Option<u32>,
    user: Option<u32>,
}

/// The abstract value of a process identity.
pub struct IdentityView {
    pub pid: u32,
    pub process_name: Seq<char>,
    pub uid: Option<u32>,
    pub user: Option<u32>,
}

impl<'a> View for ProcessIdentity<'a> {
    type V = IdentityView;

    closed spec fn view(&self) -> IdentityView {
        IdentityView { pid: self.pid, process_name: self.process_name@, uid: self.uid, user: self.user }
    }
}

/// A name that is not all whitespace.
pub open spec fn spec_has_non_ws(name: Seq<char>) -> bool {
    exists|i: int| 0 <= i < name.len() && !spec_ws(#[trigger] name[i])
}

impl<'a> ProcessIdentity<'a> {
    pub fn new(pid: u32, process_name: &'a str, uid: Option<u32>, user: Option<u32>) -> (r: Result<
        Self,
        ProcessIdentityError,
    >)
        ensures
            pid == 0 ==> r == Err::<Self, ProcessIdentityError>(ProcessIdentityError::ZeroPid),
            pid != 0 && !spec_has_non_ws(process_name@) ==> r == Err::<Self, ProcessIdentityError>(
                ProcessIdentityError::EmptyProcessName,
            ),
            pid != 0 && spec_has_non_ws(process_name@) ==> (r matches Ok(id) && id@ == (IdentityView {
                pid,
                process_name: process_name@,
                uid,
                user,
            })),
    {
        if pid == 0 {
            return Err(ProcessIdentityError::ZeroPid);
        }
        let chars = crate::chars::str_chars(process_name);
        let mut i: usize = 0;
        let mut found = false;
        while i < chars.len()
            invariant
                chars@ == process_name@,
                0 <= i <= chars@.len(),
                found == exists|k: int| 0 <= k < i && !spec_ws(#[trigger] chars@[k]),
            decreases chars@.len() - i,
        {
            if !crate::chars::is_ws(chars[i]) {
                found = true;
            }
            proof {
                if found && spec_ws(chars@[i as int]) {
                    let w = choose|k: int| 0 <= k < i && !spec_ws(#[trigger] chars@[k]);
                    assert(0 <= w < i + 1 && !spec_ws(chars@[w]));
                }
                if !spec_ws(chars@[i as int]) {
                    assert(0 <= i < i + 1 && !spec_ws(chars@[i as int]));
                }
                if !found {
                    assert forall|k: int| 0 <= k < i + 1 implies spec_ws(#[trigger] chars@[k]) by {
                        if k < i {
                            if !spec_ws(chars@[k]) {
                                assert(exists|k2: int| 0 <= k2 < i && !spec_ws(#[trigger] chars@[k2]));
                            }
                        }
                    }
                }
            }
            i = i + 1;
        }
        if !found {
            return Err(ProcessIdentityError::EmptyProcessName);
        }
        Ok(ProcessIdentity { pid, process_name, uid, user })
    }
}

#[derive(Debug, Clone, Copy, PartialEq, Eq, Structural)]
pub enum ProcessEpochOrigin {
    ExplicitStart,
    Provisional,
}

#[derive(Debug, Clone, Copy, PartialEq, Eq, Structural)]
pub enum ProcessTrackerError {
    KeySpaceExhausted,
    EpochSpaceExhausted,
}

#[derive(Debug, Clone, Copy, PartialEq, Eq, Structural)]
pub enum ProcessTrackerLimitsError {
    InvalidActiveLimit,
    InvalidRecentLimit,
}

#[derive(Debug, Clone, Copy, PartialEq, Eq, Structural)]
pub struct ProcessInstance {
    key: ProcessInstanceKey,
    epoch: u64,
    epoch_origin: ProcessEpochOrigin,
}

impl ProcessInstance {
    pub closed spec fn spec_key(self) -> ProcessInstanceKey {
        self.key
    }

    pub closed spec fn spec_epoch(self) -> u64 {
        self.epoch
    }

    pub closed spec fn spec_epoch_origin(self) -> ProcessEpochOrigin {
        self.epoch_origin
    }

    pub fn key(self) -> (r: ProcessInstanceKey)
        ensures
            r == self.spec_key(),
    {
        self.key
    }

    pub fn epoch(self) -> (r: u64)
        ensures
            r == self.spec_epoch(),
    {
        self.epoch
    }

    pub fn epoch_origin(self) -> (r: ProcessEpochOrigin)
        ensures
            r == self.spec_epoch_origin(),
    {
        self.epoch_origin
    }

    pub fn identity_quality(self) -> (r: IdentityQuality)
        ensures
            r == IdentityQuality::KnownProcess,
    {
        IdentityQuality::KnownProcess
    }
}

/// The instance with the given key, epoch and origin.
pub closed spec fn spec_new_instance(key: u32, epoch: u64, origin: ProcessEpochOrigin) -> ProcessInstance {
    ProcessInstance { key: ProcessInstanceKey(key), epoch, epoch_origin: origin }
}

pub proof fn lemma_new_instance(key: u32, epoch: u64, origin: ProcessEpochOrigin)
    ensures
        spec_new_instance(key, epoch, origin).spec_key() == ProcessInstanceKey(key),
        spec_new_instance(key, epoch, origin).spec_epoch() == epoch,
        spec_new_instance(key, epoch, origin).spec_epoch_origin() == origin,
{
}

struct ActiveProcess {
    instance: ProcessInstance,
    pid: u32,
    process_name: String,
    uid: Option<u32>,
    user: Option<u32>,
    start_line: u32,
    last_touched_line: u32,
}

/// The abstract value of a tracked live process.
pub struct ActiveView {
    pub instance: ProcessInstance,
    pub pid: u32,
    pub process_name: Seq<char>,
    pub uid: Option<u32>,
    pub user: Option<u32>,
    pub start_line: u32,
    pub last_touched_line: u32,
}

impl View for ActiveProcess {
    type V = ActiveView;

    closed spec fn view(&self) -> ActiveView {
        ActiveView {
            instance: self.instance,
            pid: self.pid,
            process_name: self.process_name@,
            uid: self.uid,
            user: self.user,
            start_line: self.start_line,
            last_touched_line: self.last_touched_line,
        }
    }
}

struct TerminatedProcess {
    process: ActiveProcess,
    death_line: u32,
}

/// The abstract value of a recently terminated process.
pub struct TerminatedView {
    pub process: ActiveView,
    pub death_line: u32,
}

impl View for TerminatedProcess {
    type V = TerminatedView;

    closed spec fn view(&self) -> TerminatedView {
        TerminatedView { process: self.process@, death_line: self.death_line }
    }
}

#[derive(Clone, Copy)]
pub struct TrackedProcessInstance<'a> {
    active: &'a ActiveProcess,
}

impl<'a> View for TrackedProcessInstance<'a> {
    type V = ActiveView;

    closed spec fn view(&self) -> ActiveView {
        self.active@
    }
}

impl<'a> TrackedProcessInstance<'a> {
    pub fn instance(self) -> (r: ProcessInstance)
        ensures
            r == self@.instance,
    {
        self.active.instance
    }

    pub fn process_name(self) -> (r: &'a str)
        ensures
            r@ == self@.process_name,
    {
        self.active.process_name.as_str()
    }

    pub fn pid(self) -> (r: u32)
        ensures
            r == self@.pid,
    {
        self.active.pid
    }

    pub fn uid(self) -> (r: Option<u32>)
        ensures
            r == self@.uid,
    {
        self.active.uid
    }

    pub fn user(self) -> (r: Option<u32>)
        ensures
            r == self@.user,
    {
        self.active.user
    }

    pub fn start_line(self) -> (r: u32)
        ensures
            r == self@.start_line,
    {
        self.active.start_line
    }

    pub fn last_touched_line(self) -> (r: u32)
        ensures
            r == self@.last_touched_line,
    {
        self.active.last_touched_line
    }
}

#[derive(Clone, Copy)]
pub struct TerminatedProcessInstance<'a> {
    terminated: &'a TerminatedProcess,
}

impl<'a> View for TerminatedProcessInstance<'a> {
    type V = TerminatedView;

    closed spec fn view(&self) -> TerminatedView {
        self.terminated@
    }
}

impl<'a> TerminatedProcessInstance<'a> {
    pub fn instance(self) -> (r: ProcessInstance)
        ensures
            r == self@.process.instance,
    {
        self.terminated.process.instance
    }

    pub fn process_name(self) -> (r: &'a str)
        ensures
            r@ == self@.process.process_name,
    {
        self.terminated.process.process_name.as_str()
    }

    pub fn pid(self) -> (r: u32)
        ensures
            r == self@.process.pid,
    {
        self.terminated.process.pid
    }

    pub fn uid(self) -> (r: Option<u32>)
        ensures
            r == self@.process.uid,
    {
        self.terminated.process.uid
    }

    pub fn user(self) -> (r: Option<u32>)
        ensures
            r == self@.process.user,
    {
        self.terminated.process.user
    }

    pub fn death_line(self) -> (r: u32)
        ensures
            r == self@.death_line,
    {
        self.terminated.death_line
    }
}

#[derive(Debug, Clone, Copy, PartialEq, Eq, Structural)]
pub struct ProcessTrackerStats {
    active_instances: usize,
    recent_terminated: usize,
    max_active_instances: usize,
    max_recent_terminated: usize,
    active_eviction_count: u64,
    recent_eviction_count: u64,
}

impl ProcessTrackerStats {
    pub closed spec fn spec_fields(self) -> (usize, usize, usize, usize, u64, u64) {
        (
            self.active_instances,
            self.recent_terminated,
            self.max_active_instances,
            self.max_recent_terminated,
            self.active_eviction_count,
            self.recent_eviction_count,
        )
    }

    pub fn active_instances(self) -> (r: usize)
        ensures
            r == self.spec_fields().0,
    {
        self.active_instances
    }

    pub fn recent_terminated(self) -> (r: usize)
        ensures
            r == self.spec_fields().1,
    {
        self.recent_terminated
    }

    pub fn max_active_instances(self) -> (r: usize)
        ensures
            r == self.spec_fields().2,
    {
        self.max_active_instances
    }

    pub fn max_recent_terminated(self) -> (r: usize)
        ensures
            r == self.spec_fields().3,
    {
        self.max_recent_terminated
    }

    pub fn active_eviction_count(self) -> (r: u64)
        ensures
            r == self.spec_fields().4,
    {
        self.active_eviction_count
    }

    pub fn recent_eviction_count(self) -> (r: u64)
        ensures
            r == self.spec_fields().5,
    {
        self.recent_eviction_count
    }

    pub fn identity_coverage_limited(self) -> (r: bool)
        ensures
            r == (self.spec_fields().4 != 0 || self.spec_fields().5 != 0),
    {
        self.active_eviction_count != 0 || self.recent_eviction_count != 0
    }
}

/// The abstract state of a tracker.
pub struct TrackerView {
    pub active: Seq<ActiveView>,
    pub recent: Seq<TerminatedView>,
    pub max_active: usize,
    pub max_recent: usize,
    pub active_evictions: u64,
    pub recent_evictions: u64,
    pub next_key: u32,
    pub next_epoch: u64,
}

/// An optional field matches unless both sides are known and differ.
pub open spec fn spec_optional_matches(known: Option<u32>, observed: Option<u32>) -> bool {
    match (known, observed) {
        (Some(k), Some(o)) => k == o,
        _ => true,
    }
}

/// A live process matches an identity: same name, and no known field conflicts.
pub open spec fn spec_matches(a: ActiveView, id: IdentityView) -> bool {
    a.process_name == id.process_name && spec_optional_matches(a.uid, id.uid) && spec_optional_matches(
        a.user,
        id.user,
    )
}

/// Unknown optional fields filled in from the identity, and the touch line advanced.
pub open spec fn spec_enrich(a: ActiveView, id: IdentityView, line: u32) -> ActiveView {
    ActiveView {
        uid: if a.uid is None { id.uid } else { a.uid },
        user: if a.user is None { id.user } else { a.user },
        last_touched_line: if a.last_touched_line >= line { a.last_touched_line } else { line },
        ..a
    }
}

/// A fresh live process for an identity first seen at `line`.
pub open spec fn spec_fresh(instance: ProcessInstance, id: IdentityView, line: u32) -> ActiveView {
    ActiveView {
        instance,
        pid: id.pid,
        process_name: id.process_name,
        uid: id.uid,
        user: id.user,
        start_line: line,
        last_touched_line: line,
    }
}

/// The index of the live process with `pid`.
pub open spec fn spec_pid_index(s: Seq<ActiveView>, pid: u32) -> Option<int> {
    if exists|i: int| 0 <= i < s.len() && (#[trigger] s[i]).pid == pid {
        Some(choose|i: int| 0 <= i < s.len() && (#[trigger] s[i]).pid == pid)
    } else {
        None
    }
}

/// `a` comes before `b` in eviction order: by last touched line, then key, then pid.
pub open spec fn spec_evicts_before(a: ActiveView, b: ActiveView) -> bool {
    a.last_touched_line < b.last_touched_line || (a.last_touched_line == b.last_touched_line && (
    a.instance.spec_key().0 < b.instance.spec_key().0 || (a.instance.spec_key().0 == b.instance.spec_key().0
        && a.pid < b.pid)))
}

/// The index of the live process evicted first.
pub open spec fn spec_oldest_index(s: Seq<ActiveView>) -> int {
    choose|i: int| spec_is_oldest(s, i)
}

/// No live process comes before the one at `i` in eviction order.
pub open spec fn spec_is_oldest(s: Seq<ActiveView>, i: int) -> bool {
    0 <= i < s.len() && forall|j: int| 0 <= j < s.len() ==> !spec_evicts_before(#[trigger] s[j], s[i])
}

/// No two live processes share a pid.
pub open spec fn spec_unique_pids(s: Seq<ActiveView>) -> bool {
    forall|i: int, j: int| 0 <= i < s.len() && 0 <= j < s.len() && i != j ==> (#[trigger] s[i]).pid != (#[trigger] s[j]).pid
}

/// The live processes after storing `a` under its pid and evicting the oldest when over
/// capacity, with the eviction count.
pub open spec fn spec_insert_active(v: TrackerView, a: ActiveView) -> TrackerView {
    let removed = match spec_pid_index(v.active, a.pid) {
        Some(i) => v.active.remove(i),
        None => v.active,
    };
    let pushed = removed.push(a);
    if pushed.len() > v.max_active {
        TrackerView {
            active: pushed.remove(spec_oldest_index(pushed)),
            active_evictions: if v.active_evictions == u64::MAX { u64::MAX } else { (v.active_evictions + 1) as u64 },
            ..v
        }
    } else {
        TrackerView { active: pushed, ..v }
    }
}

/// The next instance, or why none can be made.
pub open spec fn spec_allocate(v: TrackerView, origin: ProcessEpochOrigin) -> (TrackerView, Result<ProcessInstance, ProcessTrackerError>) {
    if v.next_key == u32::MAX {
        (v, Err(ProcessTrackerError::KeySpaceExhausted))
    } else if v.next_epoch == u64::MAX {
        (TrackerView { next_key: (v.next_key + 1) as u32, ..v }, Err(ProcessTrackerError::EpochSpaceExhausted))
    } else {
        (
            TrackerView { next_key: (v.next_key + 1) as u32, next_epoch: (v.next_epoch + 1) as u64, ..v },
            Ok(spec_new_instance(v.next_key, v.next_epoch, origin)),
        )
    }
}

/// The tracker after seeing an identity mid-log.
pub open spec fn spec_observe_identity(v: TrackerView, line: u32, id: IdentityView) -> (TrackerView, Result<ProcessInstance, ProcessTrackerError>) {
    match spec_pid_index(v.active, id.pid) {
        Some(i) if spec_matches(v.active[i], id) => (
            spec_insert_active(v, spec_enrich(v.active[i], id, line)),
            Ok(v.active[i].instance),
        ),
        _ => {
            let (w, r) = spec_allocate(v, ProcessEpochOrigin::Provisional);
            match r {
                Err(e) => (w, Err(e)),
                Ok(instance) => (spec_insert_active(w, spec_fresh(instance, id, line)), Ok(instance)),
            }
        },
    }
}

/// The tracker after an explicit process start.
pub open spec fn spec_observe_start(v: TrackerView, line: u32, id: IdentityView) -> (TrackerView, Result<ProcessInstance, ProcessTrackerError>) {
    let (w, r) = spec_allocate(v, ProcessEpochOrigin::ExplicitStart);
    match r {
        Err(e) => (w, Err(e)),
        Ok(instance) => (spec_insert_active(w, spec_fresh(instance, id, line)), Ok(instance)),
    }
}

/// `v` with the live process of `pid`, if any, removed.
pub open spec fn spec_without_pid(v: TrackerView, pid: u32) -> TrackerView {
    match spec_pid_index(v.active, pid) {
        Some(i) => TrackerView { active: v.active.remove(i), ..v },
        None => v,
    }
}

/// `v` with a death appended to the recent deaths, evicting the oldest when over capacity.
pub open spec fn spec_record_death(v: TrackerView, t: TerminatedView) -> TrackerView {
    let pushed = v.recent.push(t);
    if pushed.len() > v.max_recent {
        TrackerView {
            recent: pushed.drop_first(),
            recent_evictions: if v.recent_evictions == u64::MAX { u64::MAX } else { (v.recent_evictions + 1) as u64 },
            ..v
        }
    } else {
        TrackerView { recent: pushed, ..v }
    }
}

/// The tracker after a process death.
pub open spec fn spec_observe_death(v: TrackerView, line: u32, id: IdentityView) -> (TrackerView, Result<ProcessInstance, ProcessTrackerError>) {
    match spec_pid_index(v.active, id.pid) {
        Some(i) if spec_matches(v.active[i], id) => {
            let p = spec_enrich(v.active[i], id, line);
            (
                spec_record_death(spec_without_pid(v, id.pid), TerminatedView { process: p, death_line: line }),
                Ok(p.instance),
            )
        },
        _ => {
            let (w, r) = spec_allocate(spec_without_pid(v, id.pid), ProcessEpochOrigin::Provisional);
            match r {
                Err(e) => (w, Err(e)),
                Ok(instance) => {
                    let p = spec_enrich(spec_fresh(instance, id, line), id, line);
                    (spec_record_death(w, TerminatedView { process: p, death_line: line }), Ok(instance))
                },
            }
        },
    }
}

/// The most recent death with this name and uid whose user does not conflict.
pub open spec fn spec_recent_match(recent: Seq<TerminatedView>, name: Seq<char>, uid: Option<u32>, user: Option<u32>) -> Option<int> {
    match uid {
        None => None,
        Some(u) => if exists|i: int| 0 <= i < recent.len() && spec_terminated_matches(#[trigger] recent[i], name, u, user) {
            Some(choose|i: int| 0 <= i < recent.len() && spec_terminated_matches(#[trigger] recent[i], name, u, user)
                && forall|k: int| i < k < recent.len() ==> !spec_terminated_matches(#[trigger] recent[k], name, u, user))
        } else {
            None
        },
    }
}

/// A recent death matches a name, a uid and an optional user.
pub open spec fn spec_terminated_matches(t: TerminatedView, name: Seq<char>, uid: u32, user: Option<u32>) -> bool {
    t.process.process_name == name && t.process.uid == Some(uid) && spec_optional_matches(t.process.user, user)
}

pub struct ProcessInstanceTracker {
    active: Vec<ActiveProcess>,
    recent_terminated: Vec<TerminatedProcess>,
    max_active_instances: usize,
    max_recent_terminated: usize,
    active_eviction_count: u64,
    recent_eviction_count: u64,
    next_key: u32,
    next_epoch: u64,
}

impl View for ProcessInstanceTracker {
    type V = TrackerView;

    closed spec fn view(&self) -> TrackerView {
        TrackerView {
            active: self.active@.map_values(|a: ActiveProcess| a@),
            recent: self.recent_terminated@.map_values(|t: TerminatedProcess| t@),
            max_active: self.max_active_instances,
            max_recent: self.max_recent_terminated,
            active_evictions: self.active_eviction_count,
            recent_evictions: self.recent_eviction_count,
            next_key: self.next_key,
            next_epoch: self.next_epoch,
        }
    }
}

/// A tracker state that keeps its limits.
pub open spec fn spec_tracker_wf(v: TrackerView) -> bool {
    &&& 1 <= v.max_active <= MAX_ACTIVE_PROCESS_INSTANCES
    &&& 1 <= v.max_recent <= MAX_RECENT_TERMINATED_INSTANCES
    &&& v.active.len() <= v.max_active
    &&& v.recent.len() <= v.max_recent
    &&& spec_unique_pids(v.active)
}

impl ProcessInstanceTracker {
    #[verifier::type_invariant]
    closed spec fn inv(self) -> bool {
        spec_tracker_wf(self@)
    }

    pub fn new() -> (r: Self)
        ensures
            r@.active.len() == 0,
            r@.recent.len() == 0,
            r@.max_active == MAX_ACTIVE_PROCESS_INSTANCES,
            r@.max_recent == MAX_RECENT_TERMINATED_INSTANCES,
            r@.active_evictions == 0,
            r@.recent_evictions == 0,
            r@.next_key == 1,
            r@.next_epoch == 1,
    {
        let r = ProcessInstanceTracker {
            active: Vec::new(),
            recent_terminated: Vec::new(),
            max_active_instances: MAX_ACTIVE_PROCESS_INSTANCES,
            max_recent_terminated: MAX_RECENT_TERMINATED_INSTANCES,
            active_eviction_count: 0,
            recent_eviction_count: 0,
            next_key: 1,
            next_epoch: 1,
        };
        proof {
            assert(r@.active =~= Seq::<ActiveView>::empty());
        }
        r
    }

    pub fn with_limits(max_active_instances: usize, max_recent_terminated: usize) -> (r: Result<
        Self,
        ProcessTrackerLimitsError,
    >)
        ensures
            !(1 <= max_active_instances <= MAX_ACTIVE_PROCESS_INSTANCES) ==> r matches Err(
                ProcessTrackerLimitsError::InvalidActiveLimit,
            ),
            (1 <= max_active_instances <= MAX_ACTIVE_PROCESS_INSTANCES) && !(1 <= max_recent_terminated
                <= MAX_RECENT_TERMINATED_INSTANCES) ==> r matches Err(
                ProcessTrackerLimitsError::InvalidRecentLimit,
            ),
            (1 <= max_active_instances <= MAX_ACTIVE_PROCESS_INSTANCES) && (1 <= max_recent_terminated
                <= MAX_RECENT_TERMINATED_INSTANCES) ==> (r matches Ok(t) && t@.active.len() == 0
                && t@.recent.len() == 0 && t@.max_active == max_active_instances && t@.max_recent
                == max_recent_terminated && t@.active_evictions == 0 && t@.recent_evictions == 0
                && t@.next_key == 1 && t@.next_epoch == 1),
    {
        if !(1 <= max_active_instances && max_active_instances <= MAX_ACTIVE_PROCESS_INSTANCES) {
            return Err(ProcessTrackerLimitsError::InvalidActiveLimit);
        }
        if !(1 <= max_recent_terminated && max_recent_terminated <= MAX_RECENT_TERMINATED_INSTANCES) {
            return Err(ProcessTrackerLimitsError::InvalidRecentLimit);
        }
        let r = ProcessInstanceTracker {
            active: Vec::new(),
            recent_terminated: Vec::new(),
            max_active_instances,
            max_recent_terminated,
            active_eviction_count: 0,
            recent_eviction_count: 0,
            next_key: 1,
            next_epoch: 1,
        };
        proof {
            assert(r@.active =~= Seq::<ActiveView>::empty());
        }
        Ok(r)
    }
}

/// The abstract values of stored live processes.
spec fn spec_actives(v: Seq<ActiveProcess>) -> Seq<ActiveView> {
    v.map_values(|a: ActiveProcess| a@)
}

fn optional_field_matches(known: Option<u32>, observed: Option<u32>) -> (r: bool)
    ensures
        r == spec_optional_matches(known, observed),
{
    match (known, observed) {
        (Some(k), Some(o)) => k == o,
        _ => true,
    }
}

impl ActiveProcess {
    fn matches(&self, identity: &ProcessIdentity<'_>) -> (r: bool)
        ensures
            r == spec_matches(self@, identity@),
    {
        str_equal(self.process_name.as_str(), identity.process_name) && optional_field_matches(
            self.uid,
            identity.uid,
        ) && optional_field_matches(self.user, identity.user)
    }

    fn enrich(&mut self, identity: &ProcessIdentity<'_>, line: u32)
        ensures
            final(self)@ == spec_enrich(old(self)@, identity@, line),
    {
        if self.uid.is_none() {
            self.uid = identity.uid;
        }
        if self.user.is_none() {
            self.user = identity.user;
        }
        if self.last_touched_line < line {
            self.last_touched_line = line;
        }
    }

    fn fresh(instance: ProcessInstance, identity: &ProcessIdentity<'_>, line: u32) -> (r: ActiveProcess)
        ensures
            r@ == spec_fresh(instance, identity@, line),
    {
        ActiveProcess {
            instance,
            pid: identity.pid,
            process_name: String::from_str(identity.process_name),
            uid: identity.uid,
            user: identity.user,
            start_line: line,
            last_touched_line: line,
        }
    }
}

proof fn lemma_pid_index_is(s: Seq<ActiveView>, pid: u32, i: int)
    requires
        spec_unique_pids(s),
        0 <= i < s.len(),
        s[i].pid == pid,
    ensures
        spec_pid_index(s, pid) == Some(i),
{
    let c = choose|k: int| 0 <= k < s.len() && (#[trigger] s[k]).pid == pid;
    assert(c == i) by {
        if c != i {
            assert(s[c].pid != s[i].pid);
        }
    }
}

fn find_pid(active: &Vec<ActiveProcess>, pid: u32) -> (r: Option<usize>)
    requires
        spec_unique_pids(spec_actives(active@)),
    ensures
        match r {
            Some(i) => spec_pid_index(spec_actives(active@), pid) == Some(i as int) && i < active@.len(),
            None => spec_pid_index(spec_actives(active@), pid) is None,
        },
{
    let ghost s = spec_actives(active@);
    let mut i: usize = 0;
    while i < active.len()
        invariant
            s == spec_actives(active@),
            spec_unique_pids(s),
            0 <= i <= active@.len(),
            forall|k: int| 0 <= k < i ==> (#[trigger] s[k]).pid != pid,
        decreases active@.len() - i,
    {
        assert(s[i as int] == active@[i as int]@);
        if active[i].pid == pid {
            proof {
                lemma_pid_index_is(s, pid, i as int);
            }
            return Some(i);
        }
        i = i + 1;
    }
    None
}

proof fn lemma_oldest_is(s: Seq<ActiveView>, b: int)
    requires
        spec_unique_pids(s),
        spec_is_oldest(s, b),
    ensures
        spec_oldest_index(s) == b,
{
    let c = choose|i: int| spec_is_oldest(s, i);
    assert(spec_is_oldest(s, c));
    assert(c == b) by {
        if c != b {
            assert(!spec_evicts_before(s[c], s[b]));
            assert(!spec_evicts_before(s[b], s[c]));
            assert(s[c].pid != s[b].pid);
        }
    }
}

fn oldest_index(active: &Vec<ActiveProcess>) -> (r: usize)
    requires
        active@.len() > 0,
        spec_unique_pids(spec_actives(active@)),
    ensures
        r == spec_oldest_index(spec_actives(active@)),
        r < active@.len(),
{
    let ghost s = spec_actives(active@);
    let mut best: usize = 0;
    let mut i: usize = 1;
    while i < active.len()
        invariant
            s == spec_actives(active@),
            spec_unique_pids(s),
            s.len() == active@.len(),
            1 <= i <= active@.len(),
            best < i,
            forall|j: int| 0 <= j < i ==> !spec_evicts_before(#[trigger] s[j], s[best as int]),
        decreases active@.len() - i,
    {
        assert(s[i as int] == active@[i as int]@);
        assert(s[best as int] == active@[best as int]@);
        let a = &active[i];
        let b = &active[best];
        if a.last_touched_line < b.last_touched_line || (a.last_touched_line == b.last_touched_line && (
        a.instance.key.0 < b.instance.key.0 || (a.instance.key.0 == b.instance.key.0 && a.pid < b.pid))) {
            best = i;
        }
        i = i + 1;
    }
    proof {
        lemma_oldest_is(s, best as int);
    }
    best
}

impl ProcessInstanceTracker {
    /// Stores `a` under its pid, evicting the oldest live process when over capacity.
    fn insert_active(&mut self, a: ActiveProcess)
        ensures
            final(self)@ == spec_insert_active(old(self)@, a@),
    {
        proof {
            use_type_invariant(&*self);
        }
        let ghost v = self@;
        let mut active: Vec<ActiveProcess> = Vec::new();
        std::mem::swap(&mut active, &mut self.active);
        let ghost s0 = spec_actives(active@);
        assert(s0 == v.active);
        let ghost removed;
        match find_pid(&active, a.pid) {
            Some(i) => {
                active.remove(i);
                proof {
                    removed = s0.remove(i as int);
                    assert(spec_actives(active@) =~= removed);
                }
            },
            None => {
                proof {
                    removed = s0;
                }
            },
        }
        proof {
            assert forall|k: int| 0 <= k < removed.len() implies (#[trigger] removed[k]).pid != a@.pid by {
                if removed[k].pid == a@.pid {
                    match spec_pid_index(s0, a@.pid) {
                        Some(i) => {
                            if k < i {
                                assert(removed[k] == s0[k]);
                            } else {
                                assert(removed[k] == s0[k + 1]);
                            }
                        },
                        None => {
                            assert(removed[k] == s0[k]);
                        },
                    }
                }
            }
        }
        let ghost pushed = removed.push(a@);
        active.push(a);
        proof {
            assert(spec_actives(active@) =~= pushed);
            assert(spec_unique_pids(pushed));
        }
        if active.len() > self.max_active_instances {
            let oldest = oldest_index(&active);
            active.remove(oldest);
            proof {
                assert(spec_actives(active@) =~= pushed.remove(oldest as int));
                let after = pushed.remove(oldest as int);
                assert forall|i: int, j: int| 0 <= i < after.len() && 0 <= j < after.len() && i != j implies (#[trigger] after[i]).pid != (#[trigger] after[j]).pid by {
                    let pi = if i < oldest { i } else { i + 1 };
                    let pj = if j < oldest { j } else { j + 1 };
                    assert(after[i] == pushed[pi]);
                    assert(after[j] == pushed[pj]);
                }
            }
            std::mem::swap(&mut active, &mut self.active);
            self.active_eviction_count = self.active_eviction_count.saturating_add(1);
        } else {
            std::mem::swap(&mut active, &mut self.active);
        }
    }
}

impl ProcessInstanceTracker {
    fn allocate_instance(&mut self, epoch_origin: ProcessEpochOrigin) -> (r: Result<ProcessInstance, ProcessTrackerError>)
        ensures
            (final(self)@, r) == spec_allocate(old(self)@, epoch_origin),
    {
        proof {
            use_type_invariant(&*self);
        }
        let key = self.next_key;
        self.next_key = match self.next_key.checked_add(1) {
            Some(k) => k,
            None => return Err(ProcessTrackerError::KeySpaceExhausted),
        };
        let epoch = self.next_epoch;
        self.next_epoch = match self.next_epoch.checked_add(1) {
            Some(e) => e,
            None => return Err(ProcessTrackerError::EpochSpaceExhausted),
        };
        Ok(ProcessInstance { key: ProcessInstanceKey(key), epoch, epoch_origin })
    }

    /// Removes and returns the live process of `pid`, if any.
    fn remove_active(&mut self, pid: u32) -> (r: Option<ActiveProcess>)
        ensures
            final(self)@ == spec_without_pid(old(self)@, pid),
            match r {
                Some(a) => spec_pid_index(old(self)@.active, pid) matches Some(i) && a@ == old(self)@.active[i],
                None => spec_pid_index(old(self)@.active, pid) is None,
            },
    {
        proof {
            use_type_invariant(&*self);
        }
        let ghost v = self@;
        match find_pid(&self.active, pid) {
            None => None,
            Some(i) => {
                let mut active: Vec<ActiveProcess> = Vec::new();
                std::mem::swap(&mut active, &mut self.active);
                let ghost s0 = spec_actives(active@);
                let a = active.remove(i);
                proof {
                    assert(s0[i as int] == a@);
                    assert(spec_actives(active@) =~= s0.remove(i as int));
                    let after = s0.remove(i as int);
                    assert forall|x: int, y: int| 0 <= x < after.len() && 0 <= y < after.len() && x != y implies (#[trigger] after[x]).pid != (#[trigger] after[y]).pid by {
                        let px = if x < i { x } else { x + 1 };
                        let py = if y < i { y } else { y + 1 };
                        assert(after[x] == s0[px]);
                        assert(after[y] == s0[py]);
                    }
                }
                std::mem::swap(&mut active, &mut self.active);
                Some(a)
            },
        }
    }

    /// Appends a death, evicting the oldest recent death when over capacity.
    fn record_death(&mut self, t: TerminatedProcess)
        ensures
            final(self)@ == spec_record_death(old(self)@, t@),
    {
        proof {
            use_type_invariant(&*self);
        }
        let mut recent: Vec<TerminatedProcess> = Vec::new();
        std::mem::swap(&mut recent, &mut self.recent_terminated);
        let ghost r0 = recent@.map_values(|t: TerminatedProcess| t@);
        recent.push(t);
        proof {
            assert(recent@.map_values(|t: TerminatedProcess| t@) =~= r0.push(t@));
        }
        if recent.len() > self.max_recent_terminated {
            let ghost pushed = recent@.map_values(|t: TerminatedProcess| t@);
            recent.remove(0);
            proof {
                assert(recent@.map_values(|t: TerminatedProcess| t@) =~= pushed.drop_first());
            }
            std::mem::swap(&mut recent, &mut self.recent_terminated);
            self.recent_eviction_count = self.recent_eviction_count.saturating_add(1);
        } else {
            std::mem::swap(&mut recent, &mut self.recent_terminated);
        }
    }

    pub fn observe_identity(&mut self, line: u32, identity: ProcessIdentity<'_>) -> (r: Result<ProcessInstance, ProcessTrackerError>)
        ensures
            (final(self)@, r) == spec_observe_identity(old(self)@, line, identity@),
    {
        proof {
            use_type_invariant(&*self);
        }
        let ghost v = self@;
        let found = find_pid(&self.active, identity.pid);
        let matching = match found {
            Some(i) => {
                assert(spec_actives(self.active@)[i as int] == self.active@[i as int]@);
                self.active[i].matches(&identity)
            },
            None => false,
        };
        if matching {
            let mut active = match self.remove_active(identity.pid) {
                Some(a) => a,
                None => {
                    assert(false);
                    return Err(ProcessTrackerError::KeySpaceExhausted);
                },
            };
            active.enrich(&identity, line);
            let instance = active.instance;
            let ghost w = self@;
            proof {
                let i = spec_pid_index(v.active, identity@.pid)->0;
                assert(w.active == v.active.remove(i));
                assert(spec_pid_index(w.active, identity@.pid) is None) by {
                    if exists|k: int| 0 <= k < w.active.len() && (#[trigger] w.active[k]).pid == identity@.pid {
                        let k = choose|k: int| 0 <= k < w.active.len() && (#[trigger] w.active[k]).pid == identity@.pid;
                        let pk = if k < i { k } else { k + 1 };
                        assert(w.active[k] == v.active[pk]);
                    }
                }
                assert(w.active.push(active@) =~= v.active.remove(i).push(active@));
            }
            self.insert_active(active);
            return Ok(instance);
        }
        let instance = match self.allocate_instance(ProcessEpochOrigin::Provisional) {
            Ok(i) => i,
            Err(e) => return Err(e),
        };
        let fresh = ActiveProcess::fresh(instance, &identity, line);
        self.insert_active(fresh);
        Ok(instance)
    }

    pub fn observe_start(&mut self, line: u32, identity: ProcessIdentity<'_>) -> (r: Result<ProcessInstance, ProcessTrackerError>)
        ensures
            (final(self)@, r) == spec_observe_start(old(self)@, line, identity@),
    {
        let instance = match self.allocate_instance(ProcessEpochOrigin::ExplicitStart) {
            Ok(i) => i,
            Err(e) => return Err(e),
        };
        let fresh = ActiveProcess::fresh(instance, &identity, line);
        self.insert_active(fresh);
        Ok(instance)
    }

    pub fn observe_death(&mut self, line: u32, identity: ProcessIdentity<'_>) -> (r: Result<ProcessInstance, ProcessTrackerError>)
        ensures
            (final(self)@, r) == spec_observe_death(old(self)@, line, identity@),
    {
        proof {
            use_type_invariant(&*self);
        }
        let found = find_pid(&self.active, identity.pid);
        let matching = match found {
            Some(i) => {
                assert(spec_actives(self.active@)[i as int] == self.active@[i as int]@);
                self.active[i].matches(&identity)
            },
            None => false,
        };
        let mut process = if matching {
            match self.remove_active(identity.pid) {
                Some(a) => a,
                None => {
                    assert(false);
                    return Err(ProcessTrackerError::KeySpaceExhausted);
                },
            }
        } else {
            self.remove_active(identity.pid);
            let instance = match self.allocate_instance(ProcessEpochOrigin::Provisional) {
                Ok(i) => i,
                Err(e) => return Err(e),
            };
            ActiveProcess::fresh(instance, &identity, line)
        };
        process.enrich(&identity, line);
        let instance = process.instance;
        self.record_death(TerminatedProcess { process, death_line: line });
        Ok(instance)
    }

    pub fn active_for_pid(&self, pid: u32) -> (r: Option<TrackedProcessInstance<'_>>)
        ensures
            match r {
                Some(t) => spec_pid_index(self@.active, pid) matches Some(i) && t@ == self@.active[i],
                None => spec_pid_index(self@.active, pid) is None,
            },
    {
        proof {
            use_type_invariant(self);
        }
        match find_pid(&self.active, pid) {
            Some(i) => {
                assert(spec_actives(self.active@)[i as int] == self.active@[i as int]@);
                Some(TrackedProcessInstance { active: &self.active[i] })
            },
            None => None,
        }
    }

    pub fn active_matching(&self, identity: ProcessIdentity<'_>) -> (r: Option<TrackedProcessInstance<'_>>)
        ensures
            match r {
                Some(t) => spec_pid_index(self@.active, identity@.pid) matches Some(i) && spec_matches(
                    self@.active[i],
                    identity@,
                ) && t@ == self@.active[i],
                None => !(spec_pid_index(self@.active, identity@.pid) matches Some(i) && spec_matches(
                    self@.active[i],
                    identity@,
                )),
            },
    {
        proof {
            use_type_invariant(self);
        }
        match find_pid(&self.active, identity.pid) {
            Some(i) => {
                assert(spec_actives(self.active@)[i as int] == self.active@[i as int]@);
                if self.active[i].matches(&identity) {
                    Some(TrackedProcessInstance { active: &self.active[i] })
                } else {
                    None
                }
            },
            None => None,
        }
    }

    pub fn recent_terminated_matching(&self, process_name: &str, uid: Option<u32>, user: Option<u32>) -> (r: Option<
        TerminatedProcessInstance<'_>,
    >)
        ensures
            match r {
                Some(t) => spec_recent_match(self@.recent, process_name@, uid, user) matches Some(i)
                    && t@ == self@.recent[i],
                None => spec_recent_match(self@.recent, process_name@, uid, user) is None,
            },
    {
        let u = match uid {
            Some(u) => u,
            None => return None,
        };
        let ghost rs = self@.recent;
        let mut n = self.recent_terminated.len();
        while n > 0
            invariant
                rs == self@.recent,
                rs.len() == self.recent_terminated@.len(),
                uid == Some(u),
                0 <= n <= rs.len(),
                forall|k: int| n <= k < rs.len() ==> !spec_terminated_matches(#[trigger] rs[k], process_name@, u, user),
            decreases n,
        {
            let t = &self.recent_terminated[n - 1];
            assert(rs[n - 1] == t@);
            if str_equal(t.process.process_name.as_str(), process_name) && t.process.uid == Some(u)
                && optional_field_matches(t.process.user, user) {
                proof {
                    let i = n - 1;
                    assert(spec_terminated_matches(rs[i as int], process_name@, u, user));
                    let c = choose|j: int| 0 <= j < rs.len() && spec_terminated_matches(#[trigger] rs[j], process_name@, u, user)
                        && forall|k: int| j < k < rs.len() ==> !spec_terminated_matches(#[trigger] rs[k], process_name@, u, user);
                    assert(c == i) by {
                        if c < i {
                        } else if c > i {
                        }
                    }
                }
                return Some(TerminatedProcessInstance { terminated: t });
            }
            n = n - 1;
        }
        None
    }

    pub fn stats(&self) -> (r: ProcessTrackerStats)
        ensures
            r.spec_fields() == (
                self@.active.len() as usize,
                self@.recent.len() as usize,
                self@.max_active,
                self@.max_recent,
                self@.active_evictions,
                self@.recent_evictions,
            ),
            self@.active.len() <= self@.max_active <= MAX_ACTIVE_PROCESS_INSTANCES,
            self@.recent.len() <= self@.max_recent <= MAX_RECENT_TERMINATED_INSTANCES,
            spec_unique_pids(self@.active),
    {
        proof {
            use_type_invariant(self);
        }
        ProcessTrackerStats {
            active_instances: self.active.len(),
            recent_terminated: self.recent_terminated.len(),
            max_active_instances: self.max_active_instances,
            max_recent_terminated: self.max_recent_terminated,
            active_eviction_count: self.active_eviction_count,
            recent_eviction_count: self.recent_eviction_count,
        }
    }
}

/// Every new instance takes the next key and the next epoch, and both counters move past it.
pub proof fn lemma_allocation_is_fresh(v: TrackerView, origin: ProcessEpochOrigin)
    ensures
        spec_allocate(v, origin).1 matches Ok(i) ==> i.spec_key() == ProcessInstanceKey(v.next_key)
            && i.spec_epoch() == v.next_epoch && i.spec_epoch_origin() == origin
            && spec_allocate(v, origin).0.next_epoch == v.next_epoch + 1
            && spec_allocate(v, origin).0.next_key == v.next_key + 1,
{
}

/// Every explicit start opens a new epoch, later than any the tracker handed out before.
pub proof fn lemma_start_advances_epoch(v: TrackerView, line: u32, id: IdentityView)
    ensures
        spec_observe_start(v, line, id).1 matches Ok(i) ==> i.spec_epoch() == v.next_epoch
            && i.spec_epoch_origin() == ProcessEpochOrigin::ExplicitStart
            && spec_observe_start(v, line, id).0.next_epoch > i.spec_epoch(),
{
}

/// An identity that matches the live process of its pid keeps that process's instance.
pub proof fn lemma_matching_identity_keeps_instance(v: TrackerView, line: u32, id: IdentityView)
    requires
        spec_pid_index(v.active, id.pid) matches Some(i) && spec_matches(v.active[i], id),
    ensures
        spec_observe_identity(v, line, id).1 == Ok::<ProcessInstance, ProcessTrackerError>(
            v.active[spec_pid_index(v.active, id.pid)->0].instance,
        ),
{
}

/// After a death is recorded, no live process keeps the dead pid.
pub proof fn lemma_death_ends_the_live_process(v: TrackerView, line: u32, id: IdentityView)
    requires
        spec_unique_pids(v.active),
        spec_observe_death(v, line, id).1 is Ok,
    ensures
        spec_pid_index(spec_observe_death(v, line, id).0.active, id.pid) is None,
{
    let w = spec_without_pid(v, id.pid);
    assert(spec_pid_index(w.active, id.pid) is None) by {
        match spec_pid_index(v.active, id.pid) {
            Some(i) => {
                if exists|k: int| 0 <= k < w.active.len() && (#[trigger] w.active[k]).pid == id.pid {
                    let k = choose|k: int| 0 <= k < w.active.len() && (#[trigger] w.active[k]).pid == id.pid;
                    let pk = if k < i { k } else { k + 1 };
                    assert(w.active[k] == v.active[pk]);
                }
            },
            None => {},
        }
    }
}

} // verus!
