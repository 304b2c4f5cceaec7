//! Inputs and outputs of one conformance step, and the step itself.
use vstd::prelude::*;
use vstd::multiset::Multiset;

use crate::filter::EventFilter;
use crate::rules::event_filter::InsertEvent;
use crate::rules::{Observation, OrderingRule, Rule, RuleChecker};

verus! {

/// What a proving step receives: its image id, the rules to check, and the public
/// output and metadata (both JSON) of the previous step, if there was one.
pub struct PoamInput {
    pub image_id: [u32; 8],
    pub rule_input: RuleInput,
    pub public_data: Option<(String, String)>,
}

/// What a proving step passes on: whether it was the first event, its image id, and
/// the filter of the events recorded so far.
pub struct PoamMetadata {
    pub was_first_event: bool,
    pub image_id: [u32; 8],
    pub qf: EventFilter,
}

/// The rules a step is checked against.
pub struct RuleInput {
    pub rules: Option<Vec<Rule>>,
    pub ordering_rules: Option<Vec<OrderingRule>>,
}

/// The rules that a step's input asks to check.
pub open spec fn requested_rules(pi: PoamInput) -> Seq<Rule> {
    match pi.rule_input.rules {
        Some(rules) => rules@,
        None => Seq::empty(),
    }
}

/// The rules were checked in order, each against an observation the filter with
/// `keys` can give, until one failed: `passed` when all of them passed.
pub open spec fn checked_in_order(
    rules: Seq<Rule>,
    keys: Multiset<Seq<u32>>,
    previous: Seq<u32>,
    obs: Seq<Observation>,
    passed: bool,
) -> bool {
    &&& obs.len() <= rules.len()
    &&& forall|i: int| 0 <= i < obs.len() ==> rules[i].consistent(keys, #[trigger] obs[i])
    &&& forall|i: int| 0 <= i < obs.len() - 1 ==> rules[i].verdict(#[trigger] obs[i], previous)
    &&& passed ==> obs.len() == rules.len() && forall|i: int|
        0 <= i < obs.len() ==> rules[i].verdict(#[trigger] obs[i], previous)
    &&& !passed ==> obs.len() > 0 && !rules[obs.len() - 1].verdict(obs.last(), previous)
}

/// One conformance step: every requested rule must pass against the events recorded
/// so far, for the step's own image id; only then is the step's event recorded (if
/// the filter has room left). When a rule fails the metadata is left as it was.
pub fn conform_and_record(pm: &mut PoamMetadata, pi: &PoamInput) -> (passed: bool)
    ensures
        exists|obs: Seq<Observation>|
            #[trigger] checked_in_order(
                requested_rules(*pi),
                old(pm).qf.keys(),
                pi.image_id@,
                obs,
                passed,
            ),
        passed == forall|i: int|
            0 <= i < requested_rules(*pi).len() ==> #[trigger] requested_rules(*pi)[i].answer(
                old(pm).qf,
                pi.image_id@,
            ),
        !passed ==> *final(pm) == *old(pm),
        passed ==> final(pm).was_first_event == old(pm).was_first_event,
        passed ==> final(pm).image_id == old(pm).image_id,
        passed ==> final(pm).qf.capacity() == old(pm).qf.capacity(),
        passed ==> final(pm).qf.keys() == if old(pm).qf.keys().len() < old(pm).qf.capacity() {
            old(pm).qf.keys().insert(pi.image_id@)
        } else {
            old(pm).qf.keys()
        },
{
    let ghost keys = pm.qf.keys();
    let ghost rules_spec = requested_rules(*pi);
    let ghost mut obs: Seq<Observation> = Seq::empty();
    match &pi.rule_input.rules {
        Some(rules) => {
            let mut i: usize = 0;
            while i < rules.len()
                invariant
                    0 <= i <= rules.len(),
                    rules_spec == rules@,
                    rules_spec == requested_rules(*pi),
                    keys == old(pm).qf.keys(),
                    pm.qf.keys() == keys,
                    *pm == *old(pm),
                    obs.len() == i,
                    forall|j: int| 0 <= j < i ==> rules_spec[j].consistent(keys, #[trigger] obs[j]),
                    forall|j: int| 0 <= j < i ==> rules_spec[j].verdict(#[trigger] obs[j], pi.image_id@),
                    forall|j: int| 0 <= j < i ==> #[trigger] rules_spec[j].answer(old(pm).qf, pi.image_id@),
                decreases rules.len() - i,
            {
                let ok = rules[i].check(&pm.qf, &pi.image_id);
                let ghost o = choose|o: Observation|
                    #[trigger] rules_spec[i as int].consistent(keys, o) && ok == rules_spec[i as int].verdict(
                        o,
                        pi.image_id@,
                    );
                proof {
                    obs = obs.push(o);
                }
                if !ok {
                    assert(checked_in_order(
                        requested_rules(*pi),
                        old(pm).qf.keys(),
                        pi.image_id@,
                        obs,
                        false,
                    ));
                    return false;
                }
                i = i + 1;
            }
        },
        None => {},
    }
    let _ = pm.qf.insert_event(pi.image_id);
    assert(checked_in_order(rules_spec, keys, pi.image_id@, obs, true));
    true
}

/// Where a step starts from: the previous step's metadata, no longer the first event,
/// when the input carries the previous step's output; otherwise a first event with
/// the step's own image id and the fresh filter `fresh`.
pub fn resume_metadata(pi: &PoamInput, previous: Option<PoamMetadata>, fresh: EventFilter) -> (pm: PoamMetadata)
    requires
        previous is Some <==> pi.public_data is Some,
    ensures
        match previous {
            Some(p) => pm == PoamMetadata { was_first_event: false, ..p },
            None => pm == PoamMetadata { was_first_event: true, image_id: pi.image_id, qf: fresh },
        },
{
    match previous {
        Some(mut p) => {
            p.was_first_event = false;
            p
        },
        None => PoamMetadata { was_first_event: true, image_id: pi.image_id, qf: fresh },
    }
}

/// A step passes when every rule it asks for passes whatever the filter reports for
/// keys it never admitted, and fails when one of them fails whatever it reports.
pub proof fn certain_rules_decide_the_step(
    rules: Seq<Rule>,
    keys: Multiset<Seq<u32>>,
    previous: Seq<u32>,
    obs: Seq<Observation>,
    passed: bool,
)
    requires
        checked_in_order(rules, keys, previous, obs, passed),
    ensures
        (forall|i: int| 0 <= i < rules.len() ==> #[trigger] rules[i].must_pass(keys, previous))
            ==> passed,
        (exists|i: int| 0 <= i < rules.len() && #[trigger] rules[i].must_fail(keys, previous))
            ==> !passed,
{
    if forall|i: int| 0 <= i < rules.len() ==> #[trigger] rules[i].must_pass(keys, previous) {
        if !passed {
            let last = obs.len() - 1;
            assert(rules[last].must_pass(keys, previous));
            assert(rules[last].consistent(keys, obs[last]));
        }
    }
    if exists|i: int| 0 <= i < rules.len() && #[trigger] rules[i].must_fail(keys, previous) {
        let i = choose|i: int| 0 <= i < rules.len() && #[trigger] rules[i].must_fail(keys, previous);
        if passed {
            assert(rules[i].consistent(keys, obs[i]));
            assert(rules[i].verdict(obs[i], previous));
        }
    }
}

} // verus!
