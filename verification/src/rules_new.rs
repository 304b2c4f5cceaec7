//! The conformance rules in the form that carries the current event in the
//! precedence rule and ships rules, filter and image ids together.
use vstd::prelude::*;
use vstd::multiset::Multiset;

use crate::filter::{
    admits_count, admits_presence, count_next, link_key, ordered_insertion, reported_insertion,
    EventFilter,
};
use crate::rules::same_event;
pub use crate::rules::{CardinalityRule, ExclusivenessRule, Observation, OrderingRule};

verus! {

/// The bits of the low byte of a character's code point, most significant first.
pub open spec fn event_bits(ch: char) -> Seq<u32> {
    Seq::new(8, |i: int| ((ch as u32) >> ((7 - i) as u32)) & 1u32)
}

/// The event id of a character: the eight bits of its code point's low byte, most
/// significant first, one per word.
pub fn char_to_u32_array(ch: char) -> (result: [u32; 8])
    ensures
        result@ == event_bits(ch),
{
    let mut result = [0u32; 8];
    let code_point = ch as u32;
    let mut i: usize = 0;
    while i < 8
        invariant
            0 <= i <= 8,
            code_point == ch as u32,
            forall|j: int| 8 - i <= j < 8 ==> result@[j] == (code_point >> ((7 - j) as u32)) & 1u32,
        decreases 8 - i,
    {
        result[7 - i] = (code_point >> (i as u32)) & 1;
        i = i + 1;
    }
    assert(result@ =~= event_bits(ch));
    result
}

/// The (prior, next) pairs of a list of ordering rules.
pub open spec fn ordering_links(rules: Seq<OrderingRule>) -> Seq<(Seq<u32>, Seq<u32>)> {
    rules.map_values(|r: OrderingRule| (r.prior@, r.next@))
}

/// References to each of the rules, in order.
fn rule_refs(rules: &Vec<OrderingRule>) -> (refs: Vec<&OrderingRule>)
    ensures
        refs@.len() == rules@.len(),
        forall|i: int| 0 <= i < rules@.len() ==> *refs@[i] == rules@[i],
{
    let mut refs: Vec<&OrderingRule> = Vec::new();
    let mut i: usize = 0;
    while i < rules.len()
        invariant
            0 <= i <= rules@.len(),
            refs@.len() == i,
            forall|j: int| 0 <= j < i ==> *refs@[j] == rules@[j],
        decreases rules@.len() - i,
    {
        refs.push(&rules[i]);
        i = i + 1;
    }
    refs
}

/// Recording events in a filter.
pub trait InsertEvent: Sized {
    /// The keys recorded so far.
    spec fn recorded(&self) -> Multiset<Seq<u32>>;

    /// How many keys can be recorded in all.
    spec fn key_capacity(&self) -> nat;

    /// What the filter, as it stands, answers for each key.
    spec fn reported(&self) -> spec_fn(Seq<u32>) -> bool;

    /// Inserts an event into the filter and adds a FollowedBy relation if an ordering
    /// rule is fulfilled: for each rule whose `next` is the event and whose `prior` the
    /// filter reports present, the link is recorded; then the event is, if there is
    /// room left for it. A filter that holds nothing reports no prior event, so no link
    /// is recorded in it; otherwise there must be room for a link for every rule into
    /// the event.
    fn insert_ordered_event(&mut self, event: [u32; 8], rules: Vec<OrderingRule>) -> (r: Result<
        (),
        qfilter::Error,
    >)
        requires
            old(self).recorded().len() == 0 || old(self).recorded().len() + count_next(
                ordering_links(rules@),
                event@,
                rules@.len() as int,
            ) <= old(self).key_capacity(),
        ensures
            ordered_insertion(
                old(self).recorded(),
                final(self).recorded(),
                old(self).key_capacity(),
                event@,
                ordering_links(rules@),
                r is Ok,
            ),
            reported_insertion(
                old(self).recorded(),
                final(self).recorded(),
                old(self).key_capacity(),
                event@,
                ordering_links(rules@),
                r is Ok,
                old(self).reported(),
            ),
            final(self).key_capacity() == old(self).key_capacity(),
    ;

    /// Records the event alone, if there is room left for it.
    fn insert_event(&mut self, event: [u32; 8]) -> (r: Result<(), qfilter::Error>)
        ensures
            r is Ok <==> old(self).recorded().len() < old(self).key_capacity(),
            final(self).recorded() == if r is Ok {
                old(self).recorded().insert(event@)
            } else {
                old(self).recorded()
            },
            final(self).key_capacity() == old(self).key_capacity(),
    ;
}

impl InsertEvent for EventFilter {
    open spec fn recorded(&self) -> Multiset<Seq<u32>> {
        self.keys()
    }

    open spec fn key_capacity(&self) -> nat {
        self.capacity()
    }

    open spec fn reported(&self) -> spec_fn(Seq<u32>) -> bool {
        self.report_fn()
    }

    fn insert_ordered_event(&mut self, event: [u32; 8], rules: Vec<OrderingRule>) -> (r: Result<
        (),
        qfilter::Error,
    >) {
        let refs = rule_refs(&rules);
        assert(crate::rules::event_filter::ordering_links(refs@) =~= ordering_links(rules@));
        crate::rules::event_filter::InsertEvent::insert_ordered_event(self, event, refs)
    }

    fn insert_event(&mut self, event: [u32; 8]) -> (r: Result<(), qfilter::Error>) {
        self.insert_event_key(event)
    }
}

/// The rules of a conformance step, with the filter of the events recorded so far and
/// the image ids of the previous and the current step.
pub struct ConformanceMetadata {
    pub previous_image_id: [u32; 8],
    pub current_image_id: [u32; 8],
    pub rules: Vec<Rule>,
    pub qf: EventFilter,
}

/// Checks a rule against the events recorded in a filter.
pub trait RuleChecker {
    fn check(&self, qf: &EventFilter) -> bool;
}

/// The current event must be recorded, and be the one that should precede.
#[derive(Debug, Hash, Clone, Copy)]
pub struct PrecedenceRule {
    pub preceeding: [u32; 8],
    pub current: [u32; 8],
}

impl PrecedenceRule {
    /// The verdict when the filter reports `seen` for the current event.
    pub open spec fn verdict(self, seen: bool) -> bool {
        seen && self.preceeding@ == self.current@
    }

    /// Decides the rule from what the filter reported.
    pub fn decide(&self, seen: bool) -> (r: bool)
        ensures
            r == self.verdict(seen),
            r == (seen && self.preceeding@ == self.current@),
    {
        seen && same_event(&self.preceeding, &self.current)
    }
}

impl RuleChecker for PrecedenceRule {
    fn check(&self, qf: &EventFilter) -> (r: bool)
        ensures
            exists|seen: bool|
                #[trigger] admits_presence(qf.keys(), self.current@, seen) && r
                    == self.verdict(seen),
            qf.keys().len() == 0 ==> !r,
            r == (qf.reports(self.current@) && self.preceeding@ == self.current@),
    {
        let seen = qf.contains_event(&self.current);
        let r = self.decide(seen);
        assert(admits_presence(qf.keys(), self.current@, seen));
        r
    }
}

// The other three kinds of rule ask the filter nothing about image ids; they are
// checked as in `crate::rules`, with a previous image id that plays no part.

impl RuleChecker for CardinalityRule {
    fn check(&self, qf: &EventFilter) -> (r: bool)
        ensures
            exists|count: u64|
                #[trigger] admits_count(qf.keys(), self.prior@, count) && r == self.verdict(
                    count,
                ),
            qf.keys().len() == 0 ==> r == (self.min == 0),
            r == (self.min <= qf.tally(self.prior@) && qf.tally(self.prior@) <= self.max),
    {
        crate::rules::RuleChecker::check(self, qf, &[0u32; 8])
    }
}

impl RuleChecker for ExclusivenessRule {
    fn check(&self, qf: &EventFilter) -> (r: bool)
        ensures
            exists|seen_a: bool, seen_b: bool|
                #[trigger] admits_presence(qf.keys(), self.prior_a@, seen_a)
                    && #[trigger] admits_presence(qf.keys(), self.prior_b@, seen_b) && (
                self.prior_a@ == self.prior_b@ ==> seen_a == seen_b) && r == self.verdict(
                    seen_a,
                    seen_b,
                ),
            qf.keys().len() == 0 ==> !r,
            self.prior_a@ == self.prior_b@ ==> !r,
            r == (qf.reports(self.prior_a@) != qf.reports(self.prior_b@)),
    {
        crate::rules::RuleChecker::check(self, qf, &[0u32; 8])
    }
}

impl RuleChecker for OrderingRule {
    fn check(&self, qf: &EventFilter) -> (r: bool)
        ensures
            exists|seen: bool|
                #[trigger] admits_presence(qf.keys(), link_key(self.prior@, self.next@), seen)
                    && r == self.verdict(seen),
            qf.keys().len() == 0 ==> !r,
            r == qf.reports(link_key(self.prior@, self.next@)),
    {
        crate::rules::RuleChecker::check(self, qf, &[0u32; 8])
    }
}

/// Any of the four kinds of rule.
#[derive(Debug, Hash, Clone, Copy)]
pub enum Rule {
    Precedence(PrecedenceRule),
    Cardinality(CardinalityRule),
    Exclusiveness(ExclusivenessRule),
    Order(OrderingRule),
}

impl Rule {
    /// `obs` is an observation the filter with `keys` can give for this rule.
    pub open spec fn consistent(self, keys: Multiset<Seq<u32>>, obs: Observation) -> bool {
        match self {
            Rule::Precedence(r) => admits_presence(keys, r.current@, obs.first),
            Rule::Cardinality(r) => crate::rules::Rule::Cardinality(r).consistent(keys, obs),
            Rule::Exclusiveness(r) => crate::rules::Rule::Exclusiveness(r).consistent(keys, obs),
            Rule::Order(r) => crate::rules::Rule::Order(r).consistent(keys, obs),
        }
    }

    /// The rule's verdict on observation `obs`.
    pub open spec fn verdict(self, obs: Observation) -> bool {
        match self {
            Rule::Precedence(r) => r.verdict(obs.first),
            Rule::Cardinality(r) => r.verdict(obs.count),
            Rule::Exclusiveness(r) => r.verdict(obs.first, obs.second),
            Rule::Order(r) => r.verdict(obs.first),
        }
    }

    /// Decides the rule from what the filter reported.
    pub fn decide(&self, obs: &Observation) -> (r: bool)
        ensures
            r == self.verdict(*obs),
    {
        match self {
            Rule::Precedence(rule) => rule.decide(obs.first),
            Rule::Cardinality(rule) => rule.decide(obs.count),
            Rule::Exclusiveness(rule) => rule.decide(obs.first, obs.second),
            Rule::Order(rule) => rule.decide(obs.first),
        }
    }

    /// What the filter `qf`, as it stands, answers for this rule: the current event
    /// reported and the one that should precede; otherwise as in `crate::rules`.
    pub open spec fn answer(self, qf: EventFilter) -> bool {
        match self {
            Rule::Precedence(r) => qf.reports(r.current@) && r.preceeding@ == r.current@,
            Rule::Cardinality(r) => crate::rules::Rule::Cardinality(r).answer(qf, Seq::empty()),
            Rule::Exclusiveness(r) => crate::rules::Rule::Exclusiveness(r).answer(qf, Seq::empty()),
            Rule::Order(r) => crate::rules::Rule::Order(r).answer(qf, Seq::empty()),
        }
    }

    /// The filter with `keys` passes the rule whatever it reports for false positives.
    pub open spec fn must_pass(self, keys: Multiset<Seq<u32>>) -> bool {
        forall|obs: Observation| #[trigger] self.consistent(keys, obs) ==> self.verdict(obs)
    }

    /// The filter with `keys` fails the rule whatever it reports for false positives.
    pub open spec fn must_fail(self, keys: Multiset<Seq<u32>>) -> bool {
        forall|obs: Observation| #[trigger] self.consistent(keys, obs) ==> !self.verdict(obs)
    }
}

impl RuleChecker for Rule {
    fn check(&self, qf: &EventFilter) -> (r: bool)
        ensures
            exists|obs: Observation| #[trigger] self.consistent(qf.keys(), obs) && r == self.verdict(obs),
            r == self.answer(*qf),
    {
        let ghost keys = qf.keys();
        let zero: [u32; 8] = [0u32; 8];
        match self {
            Rule::Precedence(rule) => {
                let r = rule.check(qf);
                let ghost seen = choose|seen: bool|
                    #[trigger] admits_presence(keys, rule.current@, seen) && r == rule.verdict(seen);
                assert(self.consistent(keys, Observation { first: seen, second: false, count: 0 }));
                r
            },
            Rule::Cardinality(rule) => {
                let shared = crate::rules::Rule::Cardinality(*rule);
                let r = crate::rules::RuleChecker::check(&shared, qf, &zero);
                let ghost obs = choose|obs: Observation|
                    #[trigger] shared.consistent(keys, obs) && r == shared.verdict(obs, zero@);
                assert(self.consistent(keys, obs));
                r
            },
            Rule::Exclusiveness(rule) => {
                let shared = crate::rules::Rule::Exclusiveness(*rule);
                let r = crate::rules::RuleChecker::check(&shared, qf, &zero);
                let ghost obs = choose|obs: Observation|
                    #[trigger] shared.consistent(keys, obs) && r == shared.verdict(obs, zero@);
                assert(self.consistent(keys, obs));
                r
            },
            Rule::Order(rule) => {
                let shared = crate::rules::Rule::Order(*rule);
                let r = crate::rules::RuleChecker::check(&shared, qf, &zero);
                let ghost obs = choose|obs: Observation|
                    #[trigger] shared.consistent(keys, obs) && r == shared.verdict(obs, zero@);
                assert(self.consistent(keys, obs));
                r
            },
        }
    }
}

/// The current event, once recorded, passes a precedence rule that names it as the
/// one that should precede.
pub proof fn precedence_holds_once_current_recorded(rule: PrecedenceRule, keys: Multiset<Seq<u32>>)
    requires
        keys.count(rule.current@) > 0,
        rule.preceeding@ == rule.current@,
    ensures
        Rule::Precedence(rule).must_pass(keys),
{
}

/// A precedence rule whose preceding event is not the current one fails, whatever the
/// filter holds or reports: the whole ids must agree.
pub proof fn precedence_fails_for_another_current(rule: PrecedenceRule, keys: Multiset<Seq<u32>>)
    requires
        rule.preceeding@ != rule.current@,
    ensures
        Rule::Precedence(rule).must_fail(keys),
{
}

/// An ordering rule passes once its next event has been recorded after its prior one.
pub proof fn ordering_passes_after_next_event(
    rules: Seq<OrderingRule>,
    i: int,
    old_keys: Multiset<Seq<u32>>,
    new_keys: Multiset<Seq<u32>>,
    capacity: nat,
    admitted: bool,
)
    requires
        0 <= i < rules.len(),
        ordered_insertion(
            old_keys,
            new_keys,
            capacity,
            rules[i].next@,
            ordering_links(rules),
            admitted,
        ),
        old_keys.count(rules[i].prior@) > 0,
    ensures
        Rule::Order(rules[i]).must_pass(new_keys),
{
    let links = ordering_links(rules);
    assert(links[i] == (rules[i].prior@, rules[i].next@));
    crate::rules::laws::fulfilled_ordering_is_linked(
        old_keys,
        new_keys,
        capacity,
        rules[i].next@,
        links,
        admitted,
        i,
    );
}

/// Two characters get the same event id exactly when their code points agree in the
/// low byte.
pub proof fn event_bits_match_low_byte(a: char, b: char)
    ensures
        event_bits(a) == event_bits(b) <==> (a as u32) % 256 == (b as u32) % 256,
{
    let x = a as u32;
    let y = b as u32;
    if event_bits(a) == event_bits(b) {
        assert(event_bits(a)[0] == event_bits(b)[0]);
        assert(event_bits(a)[1] == event_bits(b)[1]);
        assert(event_bits(a)[2] == event_bits(b)[2]);
        assert(event_bits(a)[3] == event_bits(b)[3]);
        assert(event_bits(a)[4] == event_bits(b)[4]);
        assert(event_bits(a)[5] == event_bits(b)[5]);
        assert(event_bits(a)[6] == event_bits(b)[6]);
        assert(event_bits(a)[7] == event_bits(b)[7]);
        assert((x >> 7u32) & 1u32 == (y >> 7u32) & 1u32);
        assert((x >> 6u32) & 1u32 == (y >> 6u32) & 1u32);
        assert((x >> 5u32) & 1u32 == (y >> 5u32) & 1u32);
        assert((x >> 4u32) & 1u32 == (y >> 4u32) & 1u32);
        assert((x >> 3u32) & 1u32 == (y >> 3u32) & 1u32);
        assert((x >> 2u32) & 1u32 == (y >> 2u32) & 1u32);
        assert((x >> 1u32) & 1u32 == (y >> 1u32) & 1u32);
        assert((x >> 0u32) & 1u32 == (y >> 0u32) & 1u32);
        assert(x % 256 == y % 256) by (bit_vector)
            requires
                (x >> 7u32) & 1u32 == (y >> 7u32) & 1u32,
                (x >> 6u32) & 1u32 == (y >> 6u32) & 1u32,
                (x >> 5u32) & 1u32 == (y >> 5u32) & 1u32,
                (x >> 4u32) & 1u32 == (y >> 4u32) & 1u32,
                (x >> 3u32) & 1u32 == (y >> 3u32) & 1u32,
                (x >> 2u32) & 1u32 == (y >> 2u32) & 1u32,
                (x >> 1u32) & 1u32 == (y >> 1u32) & 1u32,
                (x >> 0u32) & 1u32 == (y >> 0u32) & 1u32,
        ;
    }
    if x % 256 == y % 256 {
        assert forall|k: u32| k < 8 implies #[trigger] (x >> k) & 1u32 == (y >> k) & 1u32 by {
            assert((x >> k) & 1u32 == (y >> k) & 1u32) by (bit_vector)
                requires
                    x % 256 == y % 256,
                    k < 8,
            ;
        }
        assert forall|k: int| 0 <= k < 8 implies event_bits(a)[k] == event_bits(b)[k] by {
            let s = (7 - k) as u32;
            assert((x >> s) & 1u32 == (y >> s) & 1u32);
        }
        assert(event_bits(a) =~= event_bits(b));
    }
}

} // verus!
