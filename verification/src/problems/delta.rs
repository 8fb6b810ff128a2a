use vstd::prelude::*;
use crate::parser::ParsedLine;
use crate::problems::index::AppendOutcome;
use crate::problems::model::ProblemEventId;
use crate::problems::provenance::{InputCoverage, LineProvenance};

verus! {

/// A borrowed source line as the problem engine sees it. Recognizers may read `raw` and
/// `parsed` only while they observe the line; what they keep holds compact summaries and
/// source positions, never the borrowed text.
#[derive(Debug, Clone, Copy)]
pub struct ObservedLine<'a> {
    pub line: u32,
    pub raw: &'a [u8],
    pub parsed: ParsedLine<'a>,
    pub provenance: LineProvenance,
    pub coverage: InputCoverage,
}

impl<'a> ObservedLine<'a> {
    pub fn new(
        line: u32,
        raw: &'a [u8],
        parsed: ParsedLine<'a>,
        provenance: LineProvenance,
        coverage: InputCoverage,
    ) -> (r: Self)
        ensures
            r == (ObservedLine { line, raw, parsed, provenance, coverage }),
    {
        ObservedLine { line, raw, parsed, provenance, coverage }
    }
}

/// A bounded summary of what one engine operation changed: problems committed to the
/// index, stored and dropped among them, the last stored event, and failures.
#[derive(Debug, Default, Clone, Copy, PartialEq, Eq, Structural)]
pub struct ProblemDelta {
    committed: u8,
    stored: u8,
    dropped: u8,
    last_stored_event: Option<ProblemEventId>,
    failed: u8,
}

/// `n + 1`, stopping at 255.
pub open spec fn spec_sat_inc(n: u8) -> u8 {
    if n == u8::MAX { n } else { (n + 1) as u8 }
}

impl ProblemDelta {
    pub closed spec fn spec_committed(self) -> u8 {
        self.committed
    }

    pub closed spec fn spec_stored(self) -> u8 {
        self.stored
    }

    pub closed spec fn spec_dropped(self) -> u8 {
        self.dropped
    }

    pub closed spec fn spec_last_stored_event(self) -> Option<ProblemEventId> {
        self.last_stored_event
    }

    pub closed spec fn spec_failed(self) -> u8 {
        self.failed
    }

    pub fn committed(self) -> (r: u8)
        ensures
            r == self.spec_committed(),
    {
        self.committed
    }

    pub fn stored(self) -> (r: u8)
        ensures
            r == self.spec_stored(),
    {
        self.stored
    }

    pub fn dropped(self) -> (r: u8)
        ensures
            r == self.spec_dropped(),
    {
        self.dropped
    }

    pub fn last_stored_event(self) -> (r: Option<ProblemEventId>)
        ensures
            r == self.spec_last_stored_event(),
    {
        self.last_stored_event
    }

    pub fn failed(self) -> (r: u8)
        ensures
            r == self.spec_failed(),
    {
        self.failed
    }

    /// Counts the outcome of one commit: committed, and stored (as the last stored event)
    /// or dropped; the counts stop at 255.
    pub fn record(&mut self, outcome: AppendOutcome)
        ensures
            spec_recorded(*old(self), *final(self), outcome),
    {
        self.committed = self.committed.saturating_add(1);
        match outcome {
            AppendOutcome::Stored { event_id, .. } => {
                self.stored = self.stored.saturating_add(1);
                self.last_stored_event = Some(event_id);
            },
            AppendOutcome::Dropped { .. } => {
                self.dropped = self.dropped.saturating_add(1);
            },
        }
    }
}

/// What recording `outcome` does to a delta.
pub open spec fn spec_recorded(before: ProblemDelta, after: ProblemDelta, outcome: AppendOutcome) -> bool {
    &&& after.spec_committed() == spec_sat_inc(before.spec_committed())
    &&& after.spec_failed() == before.spec_failed()
    &&& match outcome {
        AppendOutcome::Stored { event_id, .. } => {
            &&& after.spec_stored() == spec_sat_inc(before.spec_stored())
            &&& after.spec_dropped() == before.spec_dropped()
            &&& after.spec_last_stored_event() == Some(event_id)
        },
        AppendOutcome::Dropped { .. } => {
            &&& after.spec_stored() == before.spec_stored()
            &&& after.spec_dropped() == spec_sat_inc(before.spec_dropped())
            &&& after.spec_last_stored_event() == before.spec_last_stored_event()
        },
    }
}

/// Every commit a delta counts is stored or dropped: while its counts stay below 255,
/// recording keeps the committed count equal to the stored plus the dropped.
pub proof fn lemma_delta_accounts_for_every_commit(before: ProblemDelta, after: ProblemDelta, outcome: AppendOutcome)
    requires
        spec_recorded(before, after, outcome),
        before.spec_committed() == before.spec_stored() + before.spec_dropped(),
        before.spec_committed() < u8::MAX,
    ensures
        after.spec_committed() == after.spec_stored() + after.spec_dropped(),
{
}

} // verus!
