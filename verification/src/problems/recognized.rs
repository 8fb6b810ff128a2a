//! A recognized problem on its way to the index, and how two recognitions of one occurrence
//! are merged into one event.
use vstd::prelude::*;
use crate::problems::facts::{ObservationCandidate, ObservationRole, RuleId};
use crate::problems::index::{spec_same_observation, GroupKey};
use crate::problems::model::{
    BoundaryFlags, EvidenceFlags, OutcomeFlags, ProblemEventDraft, ProcessInstanceKey, MAX_ADOPTED_OBSERVATIONS,
    MAX_MATERIALIZED_OBSERVATIONS,
};

verus! {

/// The order observations are kept in: by priority, then line, rule and role.
pub open spec fn spec_obs_key_lt(a: ObservationCandidate, b: ObservationCandidate) -> bool {
    let (pa, pb) = (a.priority.spec_rank(), b.priority.spec_rank());
    let (la, lb) = (a.reference.spec_line(), b.reference.spec_line());
    let (ra, rb) = (a.reference.spec_rule().spec_raw(), b.reference.spec_rule().spec_raw());
    let (oa, ob) = (a.reference.spec_role().spec_code(), b.reference.spec_role().spec_code());
    pa < pb || (pa == pb && (la < lb || (la == lb && (ra < rb || (ra == rb && oa < ob)))))
}

/// `s` is in strictly increasing observation order.
pub open spec fn spec_obs_sorted(s: Seq<ObservationCandidate>) -> bool {
    forall|i: int, j: int| 0 <= i < j < s.len() ==> spec_obs_key_lt(#[trigger] s[i], #[trigger] s[j])
}

/// No two observations of `s` describe the same source observation.
pub open spec fn spec_obs_distinct(s: Seq<ObservationCandidate>) -> bool {
    forall|i: int, j: int| 0 <= i < j < s.len() ==> !spec_same_observation(#[trigger] s[i], #[trigger] s[j])
}

fn obs_key_lt(a: ObservationCandidate, b: ObservationCandidate) -> (r: bool)
    ensures
        r == spec_obs_key_lt(a, b),
{
    let (pa, pb) = (a.priority.rank(), b.priority.rank());
    let (la, lb) = (a.reference.line(), b.reference.line());
    let (ra, rb) = (a.reference.rule().raw(), b.reference.rule().raw());
    let (oa, ob) = (a.reference.role().code(), b.reference.role().code());
    pa < pb || (pa == pb && (la < lb || (la == lb && (ra < rb || (ra == rb && oa < ob)))))
}

proof fn lemma_rule_raw_injective(a: RuleId, b: RuleId)
    ensures
        a.spec_raw() == b.spec_raw() ==> a == b,
{
}

proof fn lemma_role_code_injective(a: ObservationRole, b: ObservationRole)
    ensures
        a.spec_code() == b.spec_code() ==> a == b,
{
}

/// Two observations that are not the same source observation are ordered one way or the other.
proof fn lemma_obs_key_total(a: ObservationCandidate, b: ObservationCandidate)
    requires
        !spec_same_observation(a, b),
    ensures
        spec_obs_key_lt(a, b) || spec_obs_key_lt(b, a),
        !(spec_obs_key_lt(a, b) && spec_obs_key_lt(b, a)),
{
    lemma_rule_raw_injective(a.reference.spec_rule(), b.reference.spec_rule());
    lemma_role_code_injective(a.reference.spec_role(), b.reference.spec_role());
}

proof fn lemma_obs_key_transitive(a: ObservationCandidate, b: ObservationCandidate, c: ObservationCandidate)
    requires
        spec_obs_key_lt(a, b),
        spec_obs_key_lt(b, c),
    ensures
        spec_obs_key_lt(a, c),
{
}

/// `s` in observation order: the same observations, strictly increasing.
fn sort_observations(s: Vec<ObservationCandidate>) -> (r: Vec<ObservationCandidate>)
    requires
        spec_obs_distinct(s@),
    ensures
        r@.to_multiset() == s@.to_multiset(),
        spec_obs_sorted(r@),
        spec_obs_distinct(r@),
        r@.len() == s@.len(),
{
    let mut out: Vec<ObservationCandidate> = Vec::new();
    let mut i: usize = 0;
    proof {
        assert(s@.take(0) =~= Seq::<ObservationCandidate>::empty());
    }
    while i < s.len()
        invariant
            0 <= i <= s@.len(),
            spec_obs_distinct(s@),
            out@.to_multiset() == s@.take(i as int).to_multiset(),
            spec_obs_sorted(out@),
            spec_obs_distinct(out@),
        decreases s@.len() - i,
    {
        let x = s[i];
        let mut pos: usize = 0;
        while pos < out.len() && !obs_key_lt(x, out[pos])
            invariant
                0 <= pos <= out@.len(),
                forall|k: int| 0 <= k < pos ==> !spec_obs_key_lt(x, #[trigger] out@[k]),
            decreases out@.len() - pos,
        {
            pos = pos + 1;
        }
        let ghost before = out@;
        proof {
            s@.take(i as int).to_multiset_ensures();
            before.to_multiset_ensures();
            assert forall|k: int| 0 <= k < before.len() implies !spec_same_observation(#[trigger] before[k], x) by {
                assert(before.to_multiset().count(before[k]) > 0);
                assert(s@.take(i as int).contains(before[k]));
                let w = choose|w: int| 0 <= w < i && s@.take(i as int)[w] == before[k];
                assert(s@[w] == before[k]);
                assert(s@[i as int] == x);
            }
        }
        out.insert(pos, x);
        proof {
            vstd::seq_lib::to_multiset_insert(before, pos as int, x);
            assert(s@.take(i + 1) =~= s@.take(i as int).push(x));
            s@.take(i as int).to_multiset_ensures();
            assert forall|a: int, b: int| 0 <= a < b < out@.len() implies spec_obs_key_lt(#[trigger] out@[a], #[trigger] out@[b]) by {
                if b < pos {
                    assert(out@[a] == before[a] && out@[b] == before[b]);
                } else if b == pos {
                    assert(out@[a] == before[a]);
                    lemma_obs_key_total(before[a], x);
                } else if a < pos {
                    assert(out@[a] == before[a] && out@[b] == before[b - 1]);
                } else if a == pos {
                    assert(out@[b] == before[b - 1]);
                    if b - 1 > pos {
                        assert(spec_obs_key_lt(x, before[pos as int]));
                        lemma_obs_key_transitive(x, before[pos as int], before[b - 1]);
                    }
                } else {
                    assert(out@[a] == before[a - 1] && out@[b] == before[b - 1]);
                }
            }
            assert forall|a: int, b: int| 0 <= a < b < out@.len() implies !spec_same_observation(#[trigger] out@[a], #[trigger] out@[b]) by {
                if b < pos {
                    assert(out@[a] == before[a] && out@[b] == before[b]);
                } else if b == pos {
                    assert(out@[a] == before[a]);
                } else if a < pos {
                    assert(out@[a] == before[a] && out@[b] == before[b - 1]);
                } else if a == pos {
                    assert(out@[b] == before[b - 1]);
                } else {
                    assert(out@[a] == before[a - 1] && out@[b] == before[b - 1]);
                }
            }
        }
        i = i + 1;
    }
    proof {
        assert(s@.take(s@.len() as int) =~= s@);
        out@.to_multiset_ensures();
        s@.to_multiset_ensures();
    }
    out
}

/// What pushing observations keeps track of: the observations held, the count of
/// observations seen, and the boundary bits.
pub type PushState = (Seq<ObservationCandidate>, int, u8);

/// Pushing `c`: an observation already held changes nothing; past the adopted limit only the
/// count-limited bit is set; otherwise it is counted, and held unless all slots are taken,
/// which sets the truncated bit.
pub open spec fn spec_push(st: PushState, c: ObservationCandidate) -> PushState {
    let (obs, total, boundary) = st;
    if exists|k: int| 0 <= k < obs.len() && spec_same_observation(#[trigger] obs[k], c) {
        st
    } else if total == MAX_ADOPTED_OBSERVATIONS {
        (obs, total, boundary | 4u8)
    } else if obs.len() == MAX_MATERIALIZED_OBSERVATIONS {
        (obs, total + 1, boundary | 2u8)
    } else {
        (obs.push(c), total + 1, boundary)
    }
}

/// Pushing each of `cs` in turn.
pub open spec fn spec_push_all(st: PushState, cs: Seq<ObservationCandidate>) -> PushState
    decreases cs.len(),
{
    if cs.len() == 0 {
        st
    } else {
        spec_push(spec_push_all(st, cs.drop_last()), cs.last())
    }
}

/// Lexicographic `<=` on byte strings.
pub open spec fn spec_bytes_le(a: Seq<u8>, b: Seq<u8>) -> bool
    decreases a.len(),
{
    if a.len() == 0 {
        true
    } else if b.len() == 0 {
        false
    } else if a[0] != b[0] {
        a[0] < b[0]
    } else {
        spec_bytes_le(a.drop_first(), b.drop_first())
    }
}

/// How many observations of `l` describe one of `r`.
pub open spec fn spec_count_shared(l: Seq<ObservationCandidate>, r: Seq<ObservationCandidate>) -> int
    decreases l.len(),
{
    if l.len() == 0 {
        0
    } else {
        spec_count_shared(l.drop_last(), r) + if exists|j: int| 0 <= j < r.len() && spec_same_observation(l.last(), #[trigger] r[j]) {
            1int
        } else {
            0int
        }
    }
}

/// A recognized occurrence: its draft event, its group, the observations that support it
/// (a few materialized, all of them counted) and nothing of the raw text.
pub struct RecognizedProblem {
    draft: ProblemEventDraft,
    group_key: GroupKey,
    observations: Vec<ObservationCandidate>,
    observation_total: u16,
}

/// `a`'s canonical draft is preferred to `b`'s: a better signature quality, then the smaller
/// fingerprint.
pub open spec fn spec_canonical_precedes(a: RecognizedProblem, b: RecognizedProblem) -> bool {
    let qa = a.spec_group_key()@.signature_quality.spec_code();
    let qb = b.spec_group_key()@.signature_quality.spec_code();
    qa < qb || (qa == qb && spec_bytes_le(a.spec_group_key()@.fingerprint, b.spec_group_key()@.fingerprint))
}

/// `a + b` and `a - b` on `u16`, stopping at the bounds.
pub open spec fn spec_u16_sat(x: int) -> int {
    if x < 0 { 0 } else if x > u16::MAX { u16::MAX as int } else { x }
}

/// What merging `b` into `a` gives: the canonical draft and group of the preferred one,
/// spanning both, with both evidence sets (marked correlated), outcomes and boundaries, the
/// first known process instance (preferred, then `a`, then `b`); the preferred one's
/// observations with the other's pushed after them (before sorting); and the combined count
/// of distinct observations, capped at the adopted limit, flagged where it was limited or
/// where not all of them are materialized.
pub open spec fn spec_merge(a: RecognizedProblem, b: RecognizedProblem) -> (ProblemEventDraft, GroupKey, Seq<ObservationCandidate>, u16) {
    let better = spec_canonical_precedes(a, b);
    let canon = if better { a } else { b };
    let second = if better { b } else { a };
    let combined = spec_u16_sat(spec_u16_sat(a.spec_total() + b.spec_total()) - spec_count_shared(a.spec_observations(),
        b.spec_observations()));
    let total_limited = combined > MAX_ADOPTED_OBSERVATIONS || a.spec_draft().boundary.0 & 4u8 == 4u8 || b.spec_draft().boundary.0 & 4u8 == 4u8;
    let (pushed, _, bnd1) = spec_push_all((canon.spec_observations(), a.spec_total() as int, a.spec_draft().boundary.0 | b.spec_draft().boundary.0),
        second.spec_observations());
    let total = if combined < MAX_ADOPTED_OBSERVATIONS { combined } else { MAX_ADOPTED_OBSERVATIONS as int };
    let bnd2 = if total_limited { bnd1 | 4u8 } else { bnd1 };
    let bnd3 = if total > pushed.len() { bnd2 | 2u8 } else { bnd2 };
    let pi = if canon.spec_draft().process_instance != ProcessInstanceKey(0) {
        canon.spec_draft().process_instance
    } else if a.spec_draft().process_instance != ProcessInstanceKey(0) {
        a.spec_draft().process_instance
    } else {
        b.spec_draft().process_instance
    };
    let draft = ProblemEventDraft {
        start_line: if a.spec_draft().start_line < b.spec_draft().start_line { a.spec_draft().start_line } else { b.spec_draft().start_line },
        end_line: if a.spec_draft().end_line > b.spec_draft().end_line { a.spec_draft().end_line } else { b.spec_draft().end_line },
        process_instance: pi,
        evidence: EvidenceFlags((a.spec_draft().evidence.0 | b.spec_draft().evidence.0) | 8u16),
        outcome: OutcomeFlags(a.spec_draft().outcome.0 | b.spec_draft().outcome.0),
        boundary: BoundaryFlags(bnd3),
        ..canon.spec_draft()
    };
    (draft, canon.spec_group_key(), pushed, total as u16)
}

impl RecognizedProblem {
    pub closed spec fn spec_observations(self) -> Seq<ObservationCandidate> {
        self.observations@
    }

    pub closed spec fn spec_total(self) -> u16 {
        self.observation_total
    }

    pub closed spec fn spec_draft(self) -> ProblemEventDraft {
        self.draft
    }

    pub closed spec fn spec_group_key(self) -> GroupKey {
        self.group_key
    }

    /// At least one and at most the materialized limit of observations, none twice, and a
    /// count within the adopted limit.
    pub closed spec fn wf(self) -> bool {
        &&& 1 <= self.observations@.len() <= MAX_MATERIALIZED_OBSERVATIONS
        &&& self.observation_total <= MAX_ADOPTED_OBSERVATIONS
        &&& spec_obs_distinct(self.observations@)
    }

    /// A well-formed problem holds between one and the materialized limit of observations,
    /// none twice, and counts no more than the adopted limit.
    pub proof fn lemma_wf_bounds(self)
        requires
            self.wf(),
        ensures
            1 <= self.spec_observations().len() <= MAX_MATERIALIZED_OBSERVATIONS,
            self.spec_total() <= MAX_ADOPTED_OBSERVATIONS,
            spec_obs_distinct(self.spec_observations()),
    {
    }

    /// A problem supported by its primary observation alone.
    pub fn new(draft: ProblemEventDraft, group_key: GroupKey, primary: ObservationCandidate) -> (r: Self)
        ensures
            r.wf(),
            r.spec_draft() == draft,
            r.spec_group_key() == group_key,
            r.spec_observations() == seq![primary],
            r.spec_total() == 1,
    {
        let r = RecognizedProblem { draft, group_key, observations: vec![primary], observation_total: 1 };
        proof {
            assert(r.observations@ =~= seq![primary]);
        }
        r
    }

    pub fn draft(&self) -> (r: ProblemEventDraft)
        ensures
            r == self.spec_draft(),
    {
        self.draft
    }

    pub fn group_key(&self) -> (r: GroupKey)
        ensures
            r == self.spec_group_key(),
    {
        self.group_key
    }

    pub fn observations(&self) -> (r: &[ObservationCandidate])
        ensures
            r@ == self.spec_observations(),
    {
        self.observations.as_slice()
    }

    pub fn observation_total(&self) -> (r: u16)
        ensures
            r == self.spec_total(),
    {
        self.observation_total
    }

    fn holds(&self, c: ObservationCandidate) -> (r: bool)
        ensures
            r == exists|k: int| 0 <= k < self.spec_observations().len() && spec_same_observation(#[trigger] self.spec_observations()[k], c),
    {
        let mut k: usize = 0;
        while k < self.observations.len()
            invariant
                0 <= k <= self.observations@.len(),
                forall|j: int| 0 <= j < k ==> !spec_same_observation(#[trigger] self.observations@[j], c),
            decreases self.observations@.len() - k,
        {
            let a = self.observations[k].reference.dedup_key();
            let b = c.reference.dedup_key();
            if a.0 == b.0 && a.1 == b.1 && a.2 == b.2 {
                proof {
                    assert(spec_same_observation(self.observations@[k as int], c));
                    assert(self.spec_observations()[k as int] == self.observations@[k as int]);
                }
                return true;
            }
            k = k + 1;
        }
        false
    }

    /// Adds a supporting observation (see `spec_push`); `false` when it was counted but not
    /// kept, or not even counted.
    pub fn push_observation(&mut self, observation: ObservationCandidate) -> (r: bool)
        requires
            old(self).wf(),
        ensures
            final(self).wf(),
            (final(self).spec_observations(), final(self).spec_total() as int, final(self).spec_draft().boundary.0) == spec_push(
                (old(self).spec_observations(), old(self).spec_total() as int, old(self).spec_draft().boundary.0), observation),
            final(self).spec_group_key() == old(self).spec_group_key(),
            final(self).spec_draft() == (ProblemEventDraft { boundary: final(self).spec_draft().boundary, ..old(self).spec_draft() }),
            r == (spec_push((old(self).spec_observations(), old(self).spec_total() as int, old(self).spec_draft().boundary.0),
                observation).0.len() > old(self).spec_observations().len()
                || exists|k: int| 0 <= k < old(self).spec_observations().len() && spec_same_observation(
                #[trigger] old(self).spec_observations()[k], observation)),
    {
        if self.holds(observation) {
            return true;
        }
        if self.observation_total == MAX_ADOPTED_OBSERVATIONS {
            self.draft.boundary = BoundaryFlags(self.draft.boundary.0 | 4u8);
            return false;
        }
        self.observation_total = self.observation_total + 1;
        if self.observations.len() == MAX_MATERIALIZED_OBSERVATIONS as usize {
            self.draft.boundary = BoundaryFlags(self.draft.boundary.0 | 2u8);
            return false;
        }
        let ghost before = self.observations@;
        self.observations.push(observation);
        proof {
            assert forall|i: int, j: int| 0 <= i < j < self.observations@.len() implies !spec_same_observation(
                #[trigger] self.observations@[i], #[trigger] self.observations@[j]) by {
                if j == before.len() {
                    assert(self.observations@[i] == before[i]);
                } else {
                    assert(self.observations@[i] == before[i] && self.observations@[j] == before[j]);
                }
            }
        }
        true
    }
}

/// Whether `a`'s fingerprint comes no later than `b`'s.
fn fingerprint_le(a: &GroupKey, b: &GroupKey) -> (r: bool)
    ensures
        r == spec_bytes_le(a@.fingerprint, b@.fingerprint),
{
    let fa = a.fingerprint();
    let fb = b.fingerprint();
    let x = fa.as_bytes();
    let y = fb.as_bytes();
    let ghost sx = x@;
    let ghost sy = y@;
    let mut i: usize = 0;
    proof {
        assert(sx.skip(0) =~= sx);
        assert(sy.skip(0) =~= sy);
    }
    while i < 16
        invariant
            0 <= i <= 16,
            sx == x@,
            sy == y@,
            sx == a@.fingerprint,
            sy == b@.fingerprint,
            sx.len() == 16,
            sy.len() == 16,
            spec_bytes_le(sx, sy) == spec_bytes_le(sx.skip(i as int), sy.skip(i as int)),
        decreases 16 - i,
    {
        proof {
            assert(sx.skip(i as int)[0] == sx[i as int]);
            assert(sy.skip(i as int)[0] == sy[i as int]);
            assert(sx.skip(i as int).drop_first() =~= sx.skip(i + 1));
            assert(sy.skip(i as int).drop_first() =~= sy.skip(i + 1));
        }
        let xi = x[i];
        let yi = y[i];
        if xi != yi {
            proof {
                assert(xi == sx[i as int] && yi == sy[i as int]);
                assert(sx.skip(i as int).len() > 0 && sy.skip(i as int).len() > 0);
                assert(spec_bytes_le(sx.skip(i as int), sy.skip(i as int)) == (sx[i as int] < sy[i as int]));
            }
            return xi < yi;
        }
        i = i + 1;
    }
    proof {
        assert(sx.skip(16).len() == 0);
    }
    true
}

/// Whether `left`'s canonical draft is preferred to `right`'s.
fn canonical_problem_precedes(left: &RecognizedProblem, right: &RecognizedProblem) -> (r: bool)
    ensures
        r == spec_canonical_precedes(*left, *right),
{
    let lq = left.group_key.signature_quality().code();
    let rq = right.group_key.signature_quality().code();
    lq < rq || (lq == rq && fingerprint_le(&left.group_key, &right.group_key))
}

/// How many observations of `l` describe one of `r`.
fn count_shared(l: &Vec<ObservationCandidate>, r: &Vec<ObservationCandidate>) -> (n: u16)
    requires
        l@.len() <= MAX_MATERIALIZED_OBSERVATIONS,
    ensures
        n == spec_count_shared(l@, r@),
        n <= l@.len(),
{
    let mut n: u16 = 0;
    let mut i: usize = 0;
    proof {
        assert(l@.take(0) =~= Seq::<ObservationCandidate>::empty());
    }
    while i < l.len()
        invariant
            0 <= i <= l@.len(),
            l@.len() <= MAX_MATERIALIZED_OBSERVATIONS,
            n == spec_count_shared(l@.take(i as int), r@),
            n <= i,
        decreases l@.len() - i,
    {
        let mut found = false;
        let mut j: usize = 0;
        while j < r.len()
            invariant
                0 <= j <= r@.len(),
                i < l@.len(),
                found == exists|k: int| 0 <= k < j && spec_same_observation(l@[i as int], #[trigger] r@[k]),
            decreases r@.len() - j,
        {
            let a = l[i].reference.dedup_key();
            let b = r[j].reference.dedup_key();
            if a.0 == b.0 && a.1 == b.1 && a.2 == b.2 {
                proof {
                    assert(spec_same_observation(l@[i as int], r@[j as int]));
                }
                found = true;
            }
            j = j + 1;
        }
        proof {
            assert(l@.take(i + 1).drop_last() =~= l@.take(i as int));
            assert(l@.take(i + 1).last() == l@[i as int]);
        }
        if found {
            n = n + 1;
        }
        i = i + 1;
    }
    proof {
        assert(l@.take(l@.len() as int) =~= l@);
    }
    n
}

impl RecognizedProblem {
    /// Merges `other`, a second recognition of the same occurrence, into this one, as
    /// `spec_merge` describes; the observations end up in observation order.
    pub fn merge_from(&mut self, other: RecognizedProblem)
        requires
            old(self).wf(),
            other.wf(),
        ensures
            final(self).wf(),
            final(self).spec_draft() == spec_merge(*old(self), other).0,
            final(self).spec_group_key() == spec_merge(*old(self), other).1,
            final(self).spec_observations().to_multiset() == spec_merge(*old(self), other).2.to_multiset(),
            spec_obs_sorted(final(self).spec_observations()),
            final(self).spec_total() == spec_merge(*old(self), other).3,
    {
        let ghost a = *self;
        let left_total = self.observation_total;
        let right_total = other.observation_total;
        let duplicate_materialized = count_shared(&self.observations, &other.observations);
        let combined_total = left_total.saturating_add(right_total).saturating_sub(duplicate_materialized);
        let total_limited = combined_total > MAX_ADOPTED_OBSERVATIONS || self.draft.boundary.0 & 4u8 == 4u8
            || other.draft.boundary.0 & 4u8 == 4u8;
        let left_draft = self.draft;
        let right_draft = other.draft;
        let self_is_better = canonical_problem_precedes(self, &other);
        let other_draft = other.draft;
        let other_key = other.group_key;
        let mut secondary = other.observations;
        let canonical_draft = if self_is_better {
            self.draft
        } else {
            std::mem::swap(&mut self.observations, &mut secondary);
            self.group_key = other_key;
            other_draft
        };
        let process_instance = if canonical_draft.process_instance.0 != 0 {
            canonical_draft.process_instance
        } else if left_draft.process_instance.0 != 0 {
            left_draft.process_instance
        } else {
            right_draft.process_instance
        };
        self.draft = ProblemEventDraft {
            start_line: if left_draft.start_line < right_draft.start_line { left_draft.start_line } else { right_draft.start_line },
            end_line: if left_draft.end_line > right_draft.end_line { left_draft.end_line } else { right_draft.end_line },
            process_instance,
            evidence: EvidenceFlags((left_draft.evidence.0 | right_draft.evidence.0) | 8u16),
            outcome: OutcomeFlags(left_draft.outcome.0 | right_draft.outcome.0),
            boundary: BoundaryFlags(left_draft.boundary.0 | right_draft.boundary.0),
            ..canonical_draft
        };
        let ghost init: PushState = (self.observations@, left_total as int, self.draft.boundary.0);
        let ghost draft0 = self.draft;
        let ghost key0 = self.group_key;
        let mut i: usize = 0;
        proof {
            assert(secondary@.take(0) =~= Seq::<ObservationCandidate>::empty());
        }
        while i < secondary.len()
            invariant
                0 <= i <= secondary@.len(),
                self.wf(),
                (self.observations@, self.observation_total as int, self.draft.boundary.0) == spec_push_all(init, secondary@.take(i as int)),
                self.draft == (ProblemEventDraft { boundary: self.draft.boundary, ..draft0 }),
                self.group_key == key0,
            decreases secondary@.len() - i,
        {
            let c = secondary[i];
            proof {
                assert(secondary@.take(i + 1).drop_last() =~= secondary@.take(i as int));
                assert(secondary@.take(i + 1).last() == c);
            }
            if !self.holds(c) {
                self.push_observation(c);
            }
            i = i + 1;
        }
        proof {
            assert(secondary@.take(secondary@.len() as int) =~= secondary@);
        }
        let mut held: Vec<ObservationCandidate> = Vec::new();
        std::mem::swap(&mut self.observations, &mut held);
        self.observations = sort_observations(held);
        self.observation_total = if combined_total < MAX_ADOPTED_OBSERVATIONS { combined_total } else { MAX_ADOPTED_OBSERVATIONS };
        if total_limited {
            self.draft.boundary = BoundaryFlags(self.draft.boundary.0 | 4u8);
        }
        if self.observation_total as usize > self.observations.len() {
            self.draft.boundary = BoundaryFlags(self.draft.boundary.0 | 2u8);
        }
    }
}

} // verus!
