//! Why records are dropped, and what is reported of drops and failures once per envelope.

use vstd::prelude::*;

verus! {

/// Why the policy engine declined to forward a record. The text of a reason tags the metric
/// that counts discarded events.
#[derive(Clone, Copy, Debug, PartialEq, Eq, Structural)]
pub enum DropReason {
    /// A matching policy drops unconditionally.
    PolicyDrop,
    /// A sampling policy decided against the record.
    SampleRejected,
    /// A rate-limiting policy's quota is used up.
    RateLimited,
}

impl DropReason {
    /// The reason's tag.
    pub open spec fn tag(self) -> Seq<char> {
        match self {
            DropReason::PolicyDrop => "policy_drop"@,
            DropReason::SampleRejected => "policy_sample_rejected"@,
            DropReason::RateLimited => "policy_rate_limited"@,
        }
    }

    /// The reason's tag.
    pub fn as_str(self) -> (r: &'static str)
        ensures
            r@ == self.tag(),
    {
        match self {
            DropReason::PolicyDrop => "policy_drop",
            DropReason::SampleRejected => "policy_sample_rejected",
            DropReason::RateLimited => "policy_rate_limited",
        }
    }
}

/// The tags of different reasons differ.
pub proof fn law_tags_differ(a: DropReason, b: DropReason)
    ensures
        a.tag() == b.tag() ==> a == b,
{
    reveal_strlit("policy_drop");
    reveal_strlit("policy_sample_rejected");
    reveal_strlit("policy_rate_limited");
    assert("policy_drop"@.len() == 11);
    assert("policy_sample_rejected"@.len() == 22);
    assert("policy_rate_limited"@.len() == 19);
}

/// How many records of an envelope were dropped for each reason.
#[derive(Debug, PartialEq, Eq)]
pub struct DropCounts {
    pub policy_drop: u64,
    pub sample_rejected: u64,
    pub rate_limited: u64,
}

/// A report of discarded records: the reason's tag and how many there were.
#[derive(Debug, PartialEq, Eq)]
pub struct DroppedRecords {
    pub reason: &'static str,
    pub count: u64,
}

impl DroppedRecords {
    /// The report as a pair.
    pub open spec fn view(self) -> (Seq<char>, u64) {
        (self.reason@, self.count)
    }
}

/// The reports that a count gives rise to: none for zero, else one.
pub open spec fn reports(reason: DropReason, count: u64) -> Seq<(Seq<char>, u64)> {
    if count == 0 {
        Seq::empty()
    } else {
        seq![(reason.tag(), count)]
    }
}

impl Default for DropCounts {
    fn default() -> (r: DropCounts)
        ensures
            forall|reason: DropReason| #[trigger] r.of(reason) == 0,
    {
        DropCounts { policy_drop: 0, sample_rejected: 0, rate_limited: 0 }
    }
}

impl DropCounts {
    /// The count for a reason.
    pub open spec fn of(self, reason: DropReason) -> u64 {
        match reason {
            DropReason::PolicyDrop => self.policy_drop,
            DropReason::SampleRejected => self.sample_rejected,
            DropReason::RateLimited => self.rate_limited,
        }
    }

    /// One more drop can be counted, whatever its reason.
    pub open spec fn has_room(self) -> bool {
        forall|reason: DropReason| #[trigger] self.of(reason) < u64::MAX
    }

    /// Counts one drop.
    pub fn record(&mut self, reason: DropReason)
        requires
            old(self).of(reason) < u64::MAX,
        ensures
            final(self).of(reason) == old(self).of(reason) + 1,
            forall|other: DropReason|
                other != reason ==> #[trigger] final(self).of(other) == old(self).of(other),
    {
        match reason {
            DropReason::PolicyDrop => {
                self.policy_drop = self.policy_drop + 1;
            },
            DropReason::SampleRejected => {
                self.sample_rejected = self.sample_rejected + 1;
            },
            DropReason::RateLimited => {
                self.rate_limited = self.rate_limited + 1;
            },
        }
    }

    /// What is to be reported: one report for each reason that something was dropped for.
    pub fn emit(&self) -> (r: Vec<DroppedRecords>)
        ensures
            r@.map_values(|report: DroppedRecords| report@) == reports(
                DropReason::PolicyDrop,
                self.policy_drop,
            ) + reports(DropReason::SampleRejected, self.sample_rejected) + reports(
                DropReason::RateLimited,
                self.rate_limited,
            ),
    {
        let mut all: Vec<DroppedRecords> = Vec::new();
        match emit_dropped(DropReason::PolicyDrop, self.policy_drop) {
            Some(report) => all.push(report),
            None => {},
        }
        match emit_dropped(DropReason::SampleRejected, self.sample_rejected) {
            Some(report) => all.push(report),
            None => {},
        }
        match emit_dropped(DropReason::RateLimited, self.rate_limited) {
            Some(report) => all.push(report),
            None => {},
        }
        assert(all@.map_values(|report: DroppedRecords| report@) =~= reports(
            DropReason::PolicyDrop,
            self.policy_drop,
        ) + reports(DropReason::SampleRejected, self.sample_rejected) + reports(
            DropReason::RateLimited,
            self.rate_limited,
        ));
        all
    }
}

/// The report of `count` records dropped for one reason. There is none for a count of zero.
pub fn emit_dropped(reason: DropReason, count: u64) -> (r: Option<DroppedRecords>)
    ensures
        match r {
            Some(report) => count > 0 && report@ == (reason.tag(), count),
            None => count == 0,
        },
{
    if count == 0 {
        None
    } else {
        Some(DroppedRecords { reason: reason.as_str(), count })
    }
}

/// The evaluation errors of an envelope: how many there were, and the first one's text.
#[derive(Debug, PartialEq, Eq)]
pub struct EvalErrors {
    pub count: u64,
    pub first: Option<String>,
}

/// A report of evaluation errors.
#[derive(Debug, PartialEq, Eq)]
pub struct FailedEvaluations {
    pub message: &'static str,
    pub count: u64,
    pub error: String,
}

impl Default for EvalErrors {
    fn default() -> (r: EvalErrors)
        ensures
            r.count == 0,
            r.first is None,
    {
        EvalErrors { count: 0, first: None }
    }
}

impl EvalErrors {
    /// Counts one error, and keeps its text if it is the first.
    pub fn record(&mut self, error: &str)
        requires
            old(self).count < u64::MAX,
        ensures
            final(self).count == old(self).count + 1,
            crate::value::text_of(final(self).first) == match old(self).first {
                Some(first) => Some(first@),
                None => Some(error@),
            },
    {
        if self.first.is_none() {
            self.first = Some(error.to_string());
        }
        self.count = self.count + 1;
    }

    /// What is to be reported: nothing without errors, else one report for all of them.
    pub fn emit(&self) -> (r: Option<FailedEvaluations>)
        ensures
            r is None <==> self.count == 0,
            r matches Some(report) ==> {
                &&& report.message@
                    == "Policy evaluation failed; affected OTLP records were passed through unchanged."@
                &&& report.count == self.count
                &&& report.error@ == match self.first {
                    Some(first) => first@,
                    None => Seq::empty(),
                }
            },
    {
        if self.count == 0 {
            return None;
        }
        let error = match &self.first {
            Some(first) => first.clone(),
            None => String::new(),
        };
        Some(
            FailedEvaluations {
                message: "Policy evaluation failed; affected OTLP records were passed through unchanged.",
                count: self.count,
                error,
            },
        )
    }
}

/// The tags that flow into metrics.
pub proof fn law_tags()
    ensures
        DropReason::PolicyDrop.tag() == "policy_drop"@,
        DropReason::SampleRejected.tag() == "policy_sample_rejected"@,
        DropReason::RateLimited.tag() == "policy_rate_limited"@,
{
}

/// Every count that is not zero is reported once, with its reason's tag; zero is not reported.
pub proof fn law_reports(reason: DropReason, count: u64)
    ensures
        reports(reason, 0) == Seq::<(Seq<char>, u64)>::empty(),
        count > 0 ==> reports(reason, count) == seq![(reason.tag(), count)],
{
}

/// Each reason has its own count.
pub proof fn law_counts(counts: DropCounts)
    ensures
        counts.of(DropReason::PolicyDrop) == counts.policy_drop,
        counts.of(DropReason::SampleRejected) == counts.sample_rejected,
        counts.of(DropReason::RateLimited) == counts.rate_limited,
{
}

} // verus!
