//! Conformance rules checked against an event filter.
//!
//! A rule asks the filter about one or two keys. The filter never misses an admitted
//! key but may report one it never admitted, so each check is stated as: the result is
//! the rule's verdict on some observation the filter can give for its keys.
pub mod conformance;
pub mod event_filter;
pub mod laws;
pub mod samples;

use vstd::prelude::*;
use vstd::multiset::Multiset;

use crate::filter::{admits_count, admits_presence, link_key, EventFilter};

verus! {

/// Checks a rule against the events recorded in a filter, for the event whose image id
/// preceded the current one.
pub trait RuleChecker {
    fn check(&self, qf: &EventFilter, previous_image_id: &[u32; 8]) -> bool;
}

/// Whether two event ids are the same.
pub fn same_event(a: &[u32; 8], b: &[u32; 8]) -> (r: bool)
    ensures
        r == (a@ == b@),
{
    let mut i: usize = 0;
    while i < 8
        invariant
            0 <= i <= 8,
            forall|j: int| 0 <= j < i ==> a@[j] == b@[j],
        decreases 8 - i,
    {
        if a[i] != b[i] {
            return false;
        }
        i = i + 1;
    }
    assert(a@ =~= b@);
    true
}

/// The preceding event must be recorded and be the previous event.
#[derive(Debug, Hash, Clone, Copy)]
pub struct PrecedenceRule {
    pub preceeding: [u32; 8],
}

impl PrecedenceRule {
    /// The verdict when the filter reports `seen` for the preceding event.
    pub open spec fn verdict(self, seen: bool, previous: Seq<u32>) -> bool {
        seen && self.preceeding@ == previous
    }

    /// Decides the rule from what the filter reported.
    pub fn decide(&self, seen: bool, previous_image_id: &[u32; 8]) -> (r: bool)
        ensures
            r == self.verdict(seen, previous_image_id@),
            r == (seen && self.preceeding@ == previous_image_id@),
    {
        seen && same_event(&self.preceeding, previous_image_id)
    }
}

impl RuleChecker for PrecedenceRule {
    fn check(&self, qf: &EventFilter, previous_image_id: &[u32; 8]) -> (r: bool)
        ensures
            exists|seen: bool|
                #[trigger] admits_presence(qf.keys(), self.preceeding@, seen) && r
                    == self.verdict(seen, previous_image_id@),
            qf.keys().len() == 0 ==> !r,
            r == (qf.reports(self.preceeding@) && self.preceeding@ == previous_image_id@),
    {
        let seen = qf.contains_event(&self.preceeding);
        let r = self.decide(seen, previous_image_id);
        assert(admits_presence(qf.keys(), self.preceeding@, seen));
        r
    }
}

/// The event `prior` must have been recorded between `min` and `max` times.
#[derive(Debug, Hash, Clone, Copy)]
pub struct CardinalityRule {
    pub prior: [u32; 8],
    pub min: u64,
    pub max: u64,
}

impl CardinalityRule {
    /// The verdict when the filter reports `count` for the event.
    pub open spec fn verdict(self, count: u64) -> bool {
        self.min <= count <= self.max
    }

    /// Decides the rule from what the filter reported.
    pub fn decide(&self, count: u64) -> (r: bool)
        ensures
            r == self.verdict(count),
            r == (self.min <= count && count <= self.max),
    {
        count >= self.min && count <= self.max
    }
}

impl RuleChecker for CardinalityRule {
    fn check(&self, qf: &EventFilter, _previous_image_id: &[u32; 8]) -> (r: bool)
        ensures
            exists|count: u64|
                #[trigger] admits_count(qf.keys(), self.prior@, count) && r == self.verdict(
                    count,
                ),
            qf.keys().len() == 0 ==> r == (self.min == 0),
            r == (self.min <= qf.tally(self.prior@) && qf.tally(self.prior@) <= self.max),
    {
        let mut mut_qf = qf.duplicate();
        let count = mut_qf.count_event(self.prior);
        let r = self.decide(count);
        assert(admits_count(qf.keys(), self.prior@, count));
        r
    }
}

/// Exactly one of the two events must have been recorded.
#[derive(Debug, Hash, Clone, Copy)]
pub struct ExclusivenessRule {
    pub prior_a: [u32; 8],
    pub prior_b: [u32; 8],
}

impl ExclusivenessRule {
    /// The verdict when the filter reports `seen_a` and `seen_b` for the two events.
    pub open spec fn verdict(self, seen_a: bool, seen_b: bool) -> bool {
        (seen_a || seen_b) && !(seen_a && seen_b)
    }

    /// Decides the rule from what the filter reported.
    pub fn decide(&self, seen_a: bool, seen_b: bool) -> (r: bool)
        ensures
            r == self.verdict(seen_a, seen_b),
            r == (seen_a != seen_b),
    {
        if seen_a || seen_b {
            if seen_a && seen_b {
                return false;
            }
            return true;
        }
        false
    }
}

impl RuleChecker for ExclusivenessRule {
    fn check(&self, qf: &EventFilter, _previous_image_id: &[u32; 8]) -> (r: bool)
        ensures
            exists|seen_a: bool, seen_b: bool|
                #[trigger] admits_presence(qf.keys(), self.prior_a@, seen_a)
                    && #[trigger] admits_presence(qf.keys(), self.prior_b@, seen_b) && (
                self.prior_a@ == self.prior_b@ ==> seen_a == seen_b) && r == self.verdict(
                    seen_a,
                    seen_b,
                ),
            qf.keys().len() == 0 ==> !r,
            self.prior_a@ == self.prior_b@ ==> !r,
            r == (qf.reports(self.prior_a@) != qf.reports(self.prior_b@)),
    {
        let seen_a = qf.contains_event(&self.prior_a);
        // the same event asked twice gets the same answer
        let seen_b = if same_event(&self.prior_a, &self.prior_b) {
            seen_a
        } else {
            qf.contains_event(&self.prior_b)
        };
        let r = self.decide(seen_a, seen_b);
        assert(admits_presence(qf.keys(), self.prior_a@, seen_a));
        assert(admits_presence(qf.keys(), self.prior_b@, seen_b));
        r
    }
}

/// The event `prior` must have been followed by the event `next`.
#[derive(Debug, Hash, Clone, Copy)]
pub struct OrderingRule {
    pub prior: [u32; 8],
    pub next: [u32; 8],
}

impl OrderingRule {
    /// The verdict when the filter reports `seen` for the link "prior followed by next".
    pub open spec fn verdict(self, seen: bool) -> bool {
        seen
    }

    /// Decides the rule from what the filter reported.
    pub fn decide(&self, seen: bool) -> (r: bool)
        ensures
            r == self.verdict(seen),
            r == seen,
    {
        seen
    }
}

impl RuleChecker for OrderingRule {
    fn check(&self, qf: &EventFilter, _previous_image_id: &[u32; 8]) -> (r: bool)
        ensures
            exists|seen: bool|
                #[trigger] admits_presence(qf.keys(), link_key(self.prior@, self.next@), seen)
                    && r == self.verdict(seen),
            qf.keys().len() == 0 ==> !r,
            r == qf.reports(link_key(self.prior@, self.next@)),
    {
        let seen = qf.contains_link(self.prior, self.next);
        let r = self.decide(seen);
        assert(admits_presence(qf.keys(), link_key(self.prior@, self.next@), seen));
        r
    }
}

/// Any of the four kinds of rule.
#[derive(Debug, Hash, Clone, Copy)]
pub enum Rule {
    Precedence(PrecedenceRule),
    Cardinality(CardinalityRule),
    Exclusiveness(ExclusivenessRule),
    Order(OrderingRule),
}

/// What a filter reported for the keys a rule asks about: the presence of its first
/// and second key, and the count of its event.
#[derive(Debug, Clone, Copy)]
pub struct Observation {
    pub first: bool,
    pub second: bool,
    pub count: u64,
}

impl Rule {
    /// `obs` is an observation the filter with `keys` can give for this rule.
    pub open spec fn consistent(self, keys: Multiset<Seq<u32>>, obs: Observation) -> bool {
        match self {
            Rule::Precedence(r) => admits_presence(keys, r.preceeding@, obs.first),
            Rule::Cardinality(r) => admits_count(keys, r.prior@, obs.count),
            Rule::Exclusiveness(r) => admits_presence(keys, r.prior_a@, obs.first)
                && admits_presence(keys, r.prior_b@, obs.second) && (r.prior_a@ == r.prior_b@
                ==> obs.first == obs.second),
            Rule::Order(r) => admits_presence(keys, link_key(r.prior@, r.next@), obs.first),
        }
    }

    /// The rule's verdict on observation `obs`.
    pub open spec fn verdict(self, obs: Observation, previous: Seq<u32>) -> bool {
        match self {
            Rule::Precedence(r) => r.verdict(obs.first, previous),
            Rule::Cardinality(r) => r.verdict(obs.count),
            Rule::Exclusiveness(r) => r.verdict(obs.first, obs.second),
            Rule::Order(r) => r.verdict(obs.first),
        }
    }

    /// Decides the rule from what the filter reported.
    pub fn decide(&self, obs: &Observation, previous_image_id: &[u32; 8]) -> (r: bool)
        ensures
            r == self.verdict(*obs, previous_image_id@),
    {
        match self {
            Rule::Precedence(rule) => rule.decide(obs.first, previous_image_id),
            Rule::Cardinality(rule) => rule.decide(obs.count),
            Rule::Exclusiveness(rule) => rule.decide(obs.first, obs.second),
            Rule::Order(rule) => rule.decide(obs.first),
        }
    }

    /// What the filter `qf`, as it stands, answers for this rule, with `previous` the
    /// previous image id: the preceding event reported and the previous one; the event
    /// counted between `min` and `max` times; exactly one of the two events reported;
    /// the link reported.
    pub open spec fn answer(self, qf: EventFilter, previous: Seq<u32>) -> bool {
        match self {
            Rule::Precedence(r) => qf.reports(r.preceeding@) && r.preceeding@ == previous,
            Rule::Cardinality(r) => r.min <= qf.tally(r.prior@) && qf.tally(r.prior@) <= r.max,
            Rule::Exclusiveness(r) => qf.reports(r.prior_a@) != qf.reports(r.prior_b@),
            Rule::Order(r) => qf.reports(link_key(r.prior@, r.next@)),
        }
    }

    /// The filter with `keys` passes the rule whatever it reports for false positives.
    pub open spec fn must_pass(self, keys: Multiset<Seq<u32>>, previous: Seq<u32>) -> bool {
        forall|obs: Observation| #[trigger] self.consistent(keys, obs) ==> self.verdict(obs, previous)
    }

    /// The filter with `keys` fails the rule whatever it reports for false positives.
    pub open spec fn must_fail(self, keys: Multiset<Seq<u32>>, previous: Seq<u32>) -> bool {
        forall|obs: Observation| #[trigger] self.consistent(keys, obs) ==> !self.verdict(obs, previous)
    }
}

impl RuleChecker for Rule {
    fn check(&self, qf: &EventFilter, previous_image_id: &[u32; 8]) -> (r: bool)
        ensures
            exists|obs: Observation|
                #[trigger] self.consistent(qf.keys(), obs) && r == self.verdict(
                    obs,
                    previous_image_id@,
                ),
            r == self.answer(*qf, previous_image_id@),
    {
        let ghost keys = qf.keys();
        match self {
            Rule::Precedence(rule) => {
                let r = rule.check(qf, previous_image_id);
                let ghost seen = choose|seen: bool|
                    #[trigger] admits_presence(keys, rule.preceeding@, seen) && r == rule.verdict(
                        seen,
                        previous_image_id@,
                    );
                assert(self.consistent(keys, Observation { first: seen, second: false, count: 0 }));
                r
            },
            Rule::Cardinality(rule) => {
                let r = rule.check(qf, previous_image_id);
                let ghost count = choose|count: u64|
                    #[trigger] admits_count(keys, rule.prior@, count) && r == rule.verdict(count);
                assert(self.consistent(keys, Observation { first: false, second: false, count }));
                r
            },
            Rule::Exclusiveness(rule) => {
                let r = rule.check(qf, previous_image_id);
                let ghost (seen_a, seen_b) = choose|seen_a: bool, seen_b: bool|
                    #[trigger] admits_presence(keys, rule.prior_a@, seen_a)
                        && #[trigger] admits_presence(keys, rule.prior_b@, seen_b) && (
                    rule.prior_a@ == rule.prior_b@ ==> seen_a == seen_b) && r == rule.verdict(
                        seen_a,
                        seen_b,
                    );
                assert(self.consistent(
                    keys,
                    Observation { first: seen_a, second: seen_b, count: 0 },
                ));
                r
            },
            Rule::Order(rule) => {
                let r = rule.check(qf, previous_image_id);
                let ghost seen = choose|seen: bool|
                    #[trigger] admits_presence(keys, link_key(rule.prior@, rule.next@), seen) && r
                        == rule.verdict(seen);
                assert(self.consistent(keys, Observation { first: seen, second: false, count: 0 }));
                r
            },
        }
    }
}

} // verus!
