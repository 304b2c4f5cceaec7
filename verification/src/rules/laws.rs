//! What holds of the rules and of recording events, whatever the filter reports for
//! keys it never admitted.
use vstd::prelude::*;
use vstd::multiset::Multiset;

use crate::filter::{
    count_linked, lemma_count_linked_none, lemma_links_upto_has, link_key, linked_by_reports,
    links_upto, ordered_insertion, reported_insertion, valid_linking,
};
use crate::rules::event_filter::ordering_links;
use crate::rules::{
    CardinalityRule, ExclusivenessRule, Observation, OrderingRule, PrecedenceRule, Rule,
};

verus! {

/// Once the preceding event is recorded, and it is the previous event, the
/// precedence rule passes.
pub proof fn precedence_holds_once_recorded(
    rule: PrecedenceRule,
    keys: Multiset<Seq<u32>>,
    previous: Seq<u32>,
)
    requires
        keys.count(rule.preceeding@) > 0,
        rule.preceeding@ == previous,
    ensures
        Rule::Precedence(rule).must_pass(keys, previous),
{
}

/// A precedence rule fails whenever its event is not the previous one.
pub proof fn precedence_fails_for_another_previous(
    rule: PrecedenceRule,
    keys: Multiset<Seq<u32>>,
    previous: Seq<u32>,
)
    requires
        rule.preceeding@ != previous,
    ensures
        Rule::Precedence(rule).must_fail(keys, previous),
{
}

/// A cardinality rule fails once its event has been recorded more than `max` times.
pub proof fn cardinality_fails_above_max(
    rule: CardinalityRule,
    keys: Multiset<Seq<u32>>,
    previous: Seq<u32>,
)
    requires
        keys.count(rule.prior@) > rule.max,
    ensures
        Rule::Cardinality(rule).must_fail(keys, previous),
{
}

/// An exclusiveness rule fails once both of its events have been recorded.
pub proof fn exclusiveness_fails_when_both_recorded(
    rule: ExclusivenessRule,
    keys: Multiset<Seq<u32>>,
    previous: Seq<u32>,
)
    requires
        keys.count(rule.prior_a@) > 0,
        keys.count(rule.prior_b@) > 0,
    ensures
        Rule::Exclusiveness(rule).must_fail(keys, previous),
{
}

/// An ordering rule passes once its link has been recorded.
pub proof fn ordering_holds_once_linked(
    rule: OrderingRule,
    keys: Multiset<Seq<u32>>,
    previous: Seq<u32>,
)
    requires
        keys.count(link_key(rule.prior@, rule.next@)) > 0,
    ensures
        Rule::Order(rule).must_pass(keys, previous),
{
}

/// A precedence or ordering rule that passes whatever the filter reports keeps passing
/// as more keys are recorded: the key it asks about stays admitted.
pub proof fn certain_passes_persist(
    rule: Rule,
    keys: Multiset<Seq<u32>>,
    more: Multiset<Seq<u32>>,
    previous: Seq<u32>,
)
    requires
        forall|k: Seq<u32>| keys.count(k) <= #[trigger] more.count(k),
        rule is Precedence || rule is Order,
        rule.must_pass(keys, previous),
    ensures
        rule.must_pass(more, previous),
{
    let key = match rule {
        Rule::Precedence(r) => r.preceeding@,
        Rule::Order(r) => link_key(r.prior@, r.next@),
        _ => Seq::empty(),
    };
    let unseen = Observation { first: false, second: false, count: 0 };
    if keys.count(key) == 0 {
        assert(rule.consistent(keys, unseen));
        assert(!rule.verdict(unseen, previous));
    }
    assert(keys.count(key) > 0);
    let seen = Observation { first: true, second: false, count: 0 };
    assert(rule.consistent(keys, seen));
    assert(rule.verdict(seen, previous));
    assert(more.count(key) >= keys.count(key));
    assert forall|obs: Observation| #[trigger] rule.consistent(more, obs) implies rule.verdict(
        obs,
        previous,
    ) by {
        assert(obs.first);
    }
}

/// Recording an event never loses a key recorded before.
pub proof fn recording_keeps_keys(
    old_keys: Multiset<Seq<u32>>,
    new_keys: Multiset<Seq<u32>>,
    capacity: nat,
    event: Seq<u32>,
    links: Seq<(Seq<u32>, Seq<u32>)>,
    admitted: bool,
)
    requires
        ordered_insertion(old_keys, new_keys, capacity, event, links, admitted),
    ensures
        forall|k: Seq<u32>| old_keys.count(k) <= #[trigger] new_keys.count(k),
        admitted ==> new_keys.count(event) > 0,
{
    let linked = choose|linked: Seq<bool>|
        #[trigger] valid_linking(old_keys, event, links, linked) && {
            let with_links = old_keys.add(links_upto(links, linked, links.len() as int));
            &&& admitted <==> old_keys.len() + crate::filter::count_linked(
                linked,
                links.len() as int,
            ) < capacity
            &&& new_keys == if admitted {
                with_links.insert(event)
            } else {
                with_links
            }
        };
    let with_links = old_keys.add(links_upto(links, linked, links.len() as int));
    assert forall|k: Seq<u32>| old_keys.count(k) <= #[trigger] new_keys.count(k) by {
        assert(old_keys.count(k) <= with_links.count(k));
        if admitted {
            assert(with_links.count(k) <= with_links.insert(event).count(k));
        }
    }
}

/// Inserts an event and adds a FollowedBy relation if an ordering rule is fulfilled:
/// a rule into the event whose prior event was already recorded gets its link recorded.
pub proof fn fulfilled_ordering_is_linked(
    old_keys: Multiset<Seq<u32>>,
    new_keys: Multiset<Seq<u32>>,
    capacity: nat,
    event: Seq<u32>,
    links: Seq<(Seq<u32>, Seq<u32>)>,
    admitted: bool,
    i: int,
)
    requires
        ordered_insertion(old_keys, new_keys, capacity, event, links, admitted),
        0 <= i < links.len(),
        links[i].1 == event,
        old_keys.count(links[i].0) > 0,
    ensures
        new_keys.count(link_key(links[i].0, links[i].1)) > 0,
{
    let linked = choose|linked: Seq<bool>|
        #[trigger] valid_linking(old_keys, event, links, linked) && {
            let with_links = old_keys.add(links_upto(links, linked, links.len() as int));
            &&& admitted <==> old_keys.len() + crate::filter::count_linked(
                linked,
                links.len() as int,
            ) < capacity
            &&& new_keys == if admitted {
                with_links.insert(event)
            } else {
                with_links
            }
        };
    assert(old_keys.count(links[i].0) > 0);
    assert(linked[i]);
    lemma_links_upto_has(links, linked, links.len() as int, i);
    let key = link_key(links[i].0, links[i].1);
    let with_links = old_keys.add(links_upto(links, linked, links.len() as int));
    assert(with_links.count(key) > 0);
    if admitted {
        assert(with_links.insert(event).count(key) >= with_links.count(key));
    }
}

/// An ordering rule passes once its next event has been recorded after its prior one.
pub proof fn ordering_passes_after_next_event(
    rules: Seq<&OrderingRule>,
    i: int,
    old_keys: Multiset<Seq<u32>>,
    new_keys: Multiset<Seq<u32>>,
    capacity: nat,
    admitted: bool,
    previous: Seq<u32>,
)
    requires
        0 <= i < rules.len(),
        ordered_insertion(
            old_keys,
            new_keys,
            capacity,
            rules[i].next@,
            ordering_links(rules),
            admitted,
        ),
        old_keys.count(rules[i].prior@) > 0,
    ensures
        Rule::Order(*rules[i]).must_pass(new_keys, previous),
{
    let links = ordering_links(rules);
    assert(links[i] == (rules[i].prior@, rules[i].next@));
    fulfilled_ordering_is_linked(old_keys, new_keys, capacity, rules[i].next@, links, admitted, i);
}

/// No link recorded among the first `n` means no link key admitted.
proof fn lemma_links_upto_none(links: Seq<(Seq<u32>, Seq<u32>)>, linked: Seq<bool>, n: int)
    requires
        forall|j: int| 0 <= j < n ==> !#[trigger] linked[j],
    ensures
        links_upto(links, linked, n) == Multiset::<Seq<u32>>::empty(),
    decreases n,
{
    if n > 0 {
        lemma_links_upto_none(links, linked, n - 1);
    }
}

/// Recording an event under ordering rules none of which leads into it is recording
/// the event alone: no link is admitted, and the event is admitted exactly when the
/// filter has room for it, as `insert_event` does.
pub proof fn unlinked_event_is_recorded_alone(
    old_keys: Multiset<Seq<u32>>,
    new_keys: Multiset<Seq<u32>>,
    capacity: nat,
    event: Seq<u32>,
    links: Seq<(Seq<u32>, Seq<u32>)>,
    admitted: bool,
)
    requires
        ordered_insertion(old_keys, new_keys, capacity, event, links, admitted),
        forall|i: int| 0 <= i < links.len() ==> #[trigger] links[i].1 != event,
    ensures
        admitted <==> old_keys.len() < capacity,
        new_keys == if admitted {
            old_keys.insert(event)
        } else {
            old_keys
        },
{
    let linked = choose|linked: Seq<bool>|
        #[trigger] valid_linking(old_keys, event, links, linked) && {
            let with_links = old_keys.add(links_upto(links, linked, links.len() as int));
            &&& admitted <==> old_keys.len() + count_linked(linked, links.len() as int) < capacity
            &&& new_keys == if admitted {
                with_links.insert(event)
            } else {
                with_links
            }
        };
    assert forall|j: int| 0 <= j < links.len() implies !#[trigger] linked[j] by {
        if linked[j] {
            assert(links[j].1 == event);
        }
    }
    lemma_count_linked_none(linked, links.len() as int);
    lemma_links_upto_none(links, linked, links.len() as int);
    assert(old_keys.add(Multiset::empty()) =~= old_keys);
}

/// A filter that holds nothing records no link, whatever the rules: the first event
/// is recorded alone, so an event never precedes itself.
pub proof fn empty_filter_records_no_link(
    new_keys: Multiset<Seq<u32>>,
    capacity: nat,
    event: Seq<u32>,
    links: Seq<(Seq<u32>, Seq<u32>)>,
    admitted: bool,
)
    requires
        ordered_insertion(Multiset::empty(), new_keys, capacity, event, links, admitted),
    ensures
        admitted <==> 0 < capacity,
        new_keys == if admitted {
            Multiset::<Seq<u32>>::empty().insert(event)
        } else {
            Multiset::<Seq<u32>>::empty()
        },
{
    let old_keys = Multiset::<Seq<u32>>::empty();
    let linked = choose|linked: Seq<bool>|
        #[trigger] valid_linking(old_keys, event, links, linked) && {
            let with_links = old_keys.add(links_upto(links, linked, links.len() as int));
            &&& admitted <==> old_keys.len() + count_linked(linked, links.len() as int) < capacity
            &&& new_keys == if admitted {
                with_links.insert(event)
            } else {
                with_links
            }
        };
    lemma_count_linked_none(linked, links.len() as int);
    lemma_links_upto_none(links, linked, links.len() as int);
    assert(old_keys.add(Multiset::empty()) =~= old_keys);
}

/// A filter that holds nothing fails every precedence, exclusiveness and ordering
/// rule, whatever it is asked: it reports no key present.
pub proof fn empty_filter_fails_presence_rules(rule: Rule, previous: Seq<u32>)
    requires
        !(rule is Cardinality),
    ensures
        rule.must_fail(Multiset::empty(), previous),
{
}

/// While the filter reports none of the priors, nothing gets linked and the filter's
/// answers stay as they were.
proof fn lemma_no_link_while_unreported(
    first: spec_fn(Seq<u32>) -> bool,
    event: Seq<u32>,
    links: Seq<(Seq<u32>, Seq<u32>)>,
    linked: Seq<bool>,
    states: Seq<spec_fn(Seq<u32>) -> bool>,
    n: int,
)
    requires
        linked_by_reports(first, event, links, linked, states),
        forall|i: int| 0 <= i < links.len() && links[i].1 == event ==> !first(#[trigger] links[i].0),
        0 <= n <= links.len(),
    ensures
        states[n] == first,
        forall|j: int| 0 <= j < n ==> !#[trigger] linked[j],
    decreases n,
{
    if n > 0 {
        lemma_no_link_while_unreported(first, event, links, linked, states, n - 1);
        assert(!linked[n - 1]);
        assert(states[n] == states[n - 1]);
    }
}

/// A link is recorded only for a prior that the filter reported: when the filter, as
/// it stood before the event arrived, reports the prior of no rule into the event, the
/// event is recorded alone, exactly as `insert_event` records it.
pub proof fn unreported_priors_get_no_link(
    old_keys: Multiset<Seq<u32>>,
    new_keys: Multiset<Seq<u32>>,
    capacity: nat,
    event: Seq<u32>,
    links: Seq<(Seq<u32>, Seq<u32>)>,
    admitted: bool,
    first: spec_fn(Seq<u32>) -> bool,
)
    requires
        reported_insertion(old_keys, new_keys, capacity, event, links, admitted, first),
        forall|i: int| 0 <= i < links.len() && links[i].1 == event ==> !first(#[trigger] links[i].0),
    ensures
        admitted <==> old_keys.len() < capacity,
        new_keys == if admitted {
            old_keys.insert(event)
        } else {
            old_keys
        },
{
    let (linked, states) = choose|linked: Seq<bool>, states: Seq<spec_fn(Seq<u32>) -> bool>|
        #[trigger] linked_by_reports(first, event, links, linked, states) && valid_linking(
            old_keys,
            event,
            links,
            linked,
        ) && {
            let with_links = old_keys.add(links_upto(links, linked, links.len() as int));
            &&& admitted <==> old_keys.len() + count_linked(linked, links.len() as int) < capacity
            &&& new_keys == if admitted {
                with_links.insert(event)
            } else {
                with_links
            }
        };
    lemma_no_link_while_unreported(first, event, links, linked, states, links.len() as int);
    lemma_count_linked_none(linked, links.len() as int);
    lemma_links_upto_none(links, linked, links.len() as int);
    assert(old_keys.add(Multiset::empty()) =~= old_keys);
}

/// Under a single ordering rule, the link is recorded exactly when the rule leads into
/// the event and the filter, as it stood before the event arrived, reported the rule's
/// prior. (An event id is never a link key: events have eight words, links sixteen.)
pub proof fn first_link_follows_the_report(
    old_keys: Multiset<Seq<u32>>,
    new_keys: Multiset<Seq<u32>>,
    capacity: nat,
    event: Seq<u32>,
    links: Seq<(Seq<u32>, Seq<u32>)>,
    admitted: bool,
    first: spec_fn(Seq<u32>) -> bool,
)
    requires
        reported_insertion(old_keys, new_keys, capacity, event, links, admitted, first),
        links.len() == 1,
        event != link_key(links[0].0, links[0].1),
    ensures
        new_keys.count(link_key(links[0].0, links[0].1)) > old_keys.count(
            link_key(links[0].0, links[0].1),
        ) ==> links[0].1 == event && first(links[0].0),
        links[0].1 == event && first(links[0].0) ==> new_keys.count(
            link_key(links[0].0, links[0].1),
        ) > old_keys.count(link_key(links[0].0, links[0].1)),
{
    let (linked, states) = choose|linked: Seq<bool>, states: Seq<spec_fn(Seq<u32>) -> bool>|
        #[trigger] linked_by_reports(first, event, links, linked, states) && valid_linking(
            old_keys,
            event,
            links,
            linked,
        ) && {
            let with_links = old_keys.add(links_upto(links, linked, links.len() as int));
            &&& admitted <==> old_keys.len() + count_linked(linked, links.len() as int) < capacity
            &&& new_keys == if admitted {
                with_links.insert(event)
            } else {
                with_links
            }
        };
    let key = link_key(links[0].0, links[0].1);
    reveal_with_fuel(links_upto, 2);
    let added = links_upto(links, linked, 1);
    let with_links = old_keys.add(added);
    assert(linked[0] <==> links[0].1 == event && first(links[0].0));
    if linked[0] {
        assert(added.count(key) == 1);
    } else {
        assert(added.count(key) == 0);
    }
    if admitted {
        assert(new_keys.count(key) == with_links.count(key));
    }
}

/// A cardinality rule passes whenever the filter holds nothing but its event, recorded
/// between `min` and `max` times: every count the filter can then report lies between
/// the two.
pub proof fn cardinality_holds_within_bounds(
    rule: CardinalityRule,
    keys: Multiset<Seq<u32>>,
    previous: Seq<u32>,
)
    requires
        keys.count(rule.prior@) == keys.len(),
        rule.min <= keys.count(rule.prior@) <= rule.max,
    ensures
        Rule::Cardinality(rule).must_pass(keys, previous),
{
}

/// A cardinality rule fails whenever the filter holds fewer keys than its `min`: no
/// count it can report reaches `min`.
pub proof fn cardinality_fails_below_min(
    rule: CardinalityRule,
    keys: Multiset<Seq<u32>>,
    previous: Seq<u32>,
)
    requires
        keys.len() < rule.min,
    ensures
        Rule::Cardinality(rule).must_fail(keys, previous),
{
}

} // verus!
