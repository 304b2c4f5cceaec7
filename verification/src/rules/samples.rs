//! A sample event log and rule set: events named by characters, recorded with an
//! optional ordering rule, and the five rules they are meant to satisfy.
use vstd::prelude::*;
use vstd::multiset::Multiset;

use crate::filter::{count_linked, count_next, link_key, links_upto, valid_linking, EventFilter};
use crate::rules::event_filter::{ordering_links, InsertEvent};
use crate::rules::{CardinalityRule, ExclusivenessRule, OrderingRule, PrecedenceRule, Rule};
use crate::rules_new::{char_to_u32_array, event_bits};

verus! {

/// The keys admitted by recording the first `n` events of `events`, each preceded by
/// the link `link` where `linked` says so.
pub open spec fn log_keys(events: Seq<char>, linked: Seq<bool>, link: Seq<u32>, n: int) -> Multiset<
    Seq<u32>,
>
    decreases n,
{
    if n <= 0 {
        Multiset::empty()
    } else {
        let before = log_keys(events, linked, link, n - 1);
        let with_link = if linked[n - 1] {
            before.insert(link)
        } else {
            before
        };
        with_link.insert(event_bits(events[n - 1]))
    }
}

/// Which events got the link of `rule` recorded before them: only events that are the
/// rule's `next`, and at least those whose `prior` was already recorded, in
/// `old_keys` or as an earlier event.
pub open spec fn linked_as_ordered(
    old_keys: Multiset<Seq<u32>>,
    events: Seq<char>,
    rule: OrderingRule,
    linked: Seq<bool>,
) -> bool {
    &&& linked.len() == events.len()
    &&& forall|j: int| 0 <= j < events.len() && #[trigger] linked[j] ==> event_bits(events[j]) == rule.next@
    &&& forall|j: int|
        0 <= j < events.len() && event_bits(#[trigger] events[j]) == rule.next@ && (old_keys.count(
            rule.prior@,
        ) > 0 || exists|i: int| 0 <= i < j && event_bits(events[i]) == rule.prior@) ==> linked[j]
}

/// No event gets a link.
pub open spec fn no_links(n: nat) -> Seq<bool> {
    Seq::new(n, |j: int| false)
}

/// The keys `new_keys` are `old_keys` with the log `events` recorded in order: with an
/// ordering rule, each event as an ordered event under it, otherwise each alone.
pub open spec fn recorded_log(
    old_keys: Multiset<Seq<u32>>,
    new_keys: Multiset<Seq<u32>>,
    events: Seq<char>,
    or: Option<OrderingRule>,
) -> bool {
    match or {
        None => new_keys == old_keys.add(log_keys(events, no_links(events.len()), Seq::empty(), events.len() as int)),
        Some(rule) => exists|linked: Seq<bool>|
            #[trigger] linked_as_ordered(old_keys, events, rule, linked) && new_keys == old_keys.add(
                log_keys(events, linked, link_key(rule.prior@, rule.next@), events.len() as int),
            ),
    }
}

proof fn lemma_log_keys_has_event(events: Seq<char>, linked: Seq<bool>, link: Seq<u32>, n: int, i: int)
    requires
        0 <= i < n,
    ensures
        log_keys(events, linked, link, n).count(event_bits(events[i])) > 0,
    decreases n,
{
    if i < n - 1 {
        lemma_log_keys_has_event(events, linked, link, n - 1, i);
    }
}

proof fn lemma_log_keys_len(events: Seq<char>, linked: Seq<bool>, link: Seq<u32>, n: int)
    requires
        0 <= n <= linked.len(),
    ensures
        log_keys(events, linked, link, n).len() == n + count_linked(linked, n),
    decreases n,
{
    if n > 0 {
        lemma_log_keys_len(events, linked, link, n - 1);
    }
}

proof fn lemma_log_keys_prefix(events: Seq<char>, a: Seq<bool>, b: Seq<bool>, link: Seq<u32>, n: int)
    requires
        forall|j: int| 0 <= j < n ==> a[j] == b[j],
    ensures
        log_keys(events, a, link, n) == log_keys(events, b, link, n),
        count_linked(a, n) == count_linked(b, n),
    decreases n,
{
    if n > 0 {
        lemma_log_keys_prefix(events, a, b, link, n - 1);
    }
}

/// Records the events in order into `qf` (a fresh filter with room for them): with an
/// ordering rule, each as an ordered event under that rule, otherwise each alone.
pub fn generate_event_filter(qf: EventFilter, events: [char; 5], or: Option<OrderingRule>) -> (r:
    EventFilter)
    requires
        qf.keys().len() + 10 <= qf.capacity(),
    ensures
        r.capacity() == qf.capacity(),
        recorded_log(qf.keys(), r.keys(), events@, or),
{
    let mut qf = qf;
    let ghost keys = qf.keys();
    let ghost cap = qf.capacity();
    let ghost link = match or {
        Some(rule) => link_key(rule.prior@, rule.next@),
        None => Seq::empty(),
    };
    let ghost mut linked: Seq<bool> = Seq::empty();
    let mut j: usize = 0;
    while j < 5
        invariant
            0 <= j <= 5,
            linked.len() == j,
            qf.capacity() == cap,
            keys.len() + 10 <= cap,
            qf.keys() == keys.add(log_keys(events@, linked, link, j as int)),
            count_linked(linked, j as int) <= j,
            link == match or {
                Some(rule) => link_key(rule.prior@, rule.next@),
                None => Seq::<u32>::empty(),
            },
            or is None ==> forall|k: int| 0 <= k < j ==> !#[trigger] linked[k],
            forall|rule: OrderingRule|
                or == Some(rule) ==> forall|k: int|
                    0 <= k < j && #[trigger] linked[k] ==> event_bits(events@[k]) == rule.next@,
            forall|rule: OrderingRule|
                or == Some(rule) ==> forall|k: int|
                    0 <= k < j && event_bits(#[trigger] events@[k]) == rule.next@ && (keys.count(
                        rule.prior@,
                    ) > 0 || exists|i: int| 0 <= i < k && event_bits(events@[i]) == rule.prior@)
                        ==> linked[k],
        decreases 5 - j,
    {
        let ghost cur = qf.keys();
        let ghost before = linked;
        proof {
            lemma_log_keys_len(events@, linked, link, j as int);
        }
        let event = char_to_u32_array(events[j]);
        match &or {
            Some(rule) => {
                let rules: Vec<&OrderingRule> = vec![rule];
                let ghost links = ordering_links(rules@);
                assert(links =~= seq![(rule.prior@, rule.next@)]);
                proof {
                    reveal_with_fuel(count_next, 2);
                    assert(count_next(links, event@, 1) <= 1);
                    assert(cur.len() <= keys.len() + 8);
                }
                let res = qf.insert_ordered_event(event, rules);
                let ghost step = choose|step: Seq<bool>|
                    #[trigger] valid_linking(cur, event@, links, step) && {
                        let with_links = cur.add(links_upto(links, step, links.len() as int));
                        &&& (res is Ok) <==> cur.len() + count_linked(step, links.len() as int) < cap
                        &&& qf.keys() == if res is Ok {
                            with_links.insert(event@)
                        } else {
                            with_links
                        }
                    };
                proof {
                    reveal_with_fuel(count_linked, 2);
                    assert(count_linked(step, 1) <= 1);
                }
                match res {
                    Ok(_) => {},
                    Err(_) => {
                        assert(false);
                    },
                }
                proof {
                    let did = step[0];
                    if rule.next@ == event@ && (keys.count(rule.prior@) > 0 || exists|i: int|
                        0 <= i < j && event_bits(events@[i]) == rule.prior@) {
                        if keys.count(rule.prior@) > 0 {
                            assert(cur.count(rule.prior@) > 0);
                        } else {
                            let i = choose|i: int|
                                0 <= i < j && event_bits(events@[i]) == rule.prior@;
                            lemma_log_keys_has_event(events@, linked, link, j as int, i);
                            assert(cur.count(rule.prior@) > 0);
                        }
                        assert(links[0].1 == event@ && cur.count(links[0].0) > 0);
                        assert(did);
                    }
                    linked = linked.push(did);
                    lemma_log_keys_prefix(events@, linked, before, link, j as int);
                    assert(link == link_key(links[0].0, links[0].1));
                    reveal_with_fuel(links_upto, 2);
                    let added = links_upto(links, step, 1);
                    assert(added == if did {
                        Multiset::<Seq<u32>>::empty().insert(link)
                    } else {
                        Multiset::<Seq<u32>>::empty()
                    });
                    let prev_log = log_keys(events@, before, link, j as int);
                    assert(log_keys(events@, linked, link, j + 1) == (if did {
                        prev_log.insert(link)
                    } else {
                        prev_log
                    }).insert(event@));
                    assert(qf.keys() =~= keys.add(
                        log_keys(events@, linked, link, j + 1),
                    ));
                }
            },
            None => {
                let res = qf.insert_event(event);
                match res {
                    Ok(_) => {},
                    Err(_) => {
                        assert(false);
                    },
                }
                proof {
                    linked = linked.push(false);
                    lemma_log_keys_prefix(events@, linked, before, link, j as int);
                    assert(qf.keys() =~= keys.add(
                        log_keys(events@, linked, link, j + 1),
                    ));
                }
            },
        }
        j = j + 1;
    }
    proof {
        match or {
            None => {
                assert(linked =~= no_links(5));
                assert(events@.len() == 5);
            },
            Some(rule) => {
                assert(linked_as_ordered(keys, events@, rule, linked));
            },
        }
    }
    qf
}

/// Records the sample log into `qf` when it has room for it; otherwise hands the
/// filter back as it was.
pub fn try_generate_event_filter(qf: EventFilter, events: [char; 5], or: Option<OrderingRule>) -> (r:
    Result<EventFilter, EventFilter>)
    ensures
        r is Ok <==> qf.keys().len() + 10 <= qf.capacity(),
        r matches Err(f) ==> f == qf,
        r matches Ok(f) ==> f.capacity() == qf.capacity() && recorded_log(
            qf.keys(),
            f.keys(),
            events@,
            or,
        ),
{
    if qf.has_room(10) {
        Ok(generate_event_filter(qf, events, or))
    } else {
        Err(qf)
    }
}

/// The sample rule set for a log whose last event is `preceeding_event`: that event
/// precedes, `b` occurs once, `a` twice, `a` excludes `e`, and `a` is followed by `c`.
pub fn generate_rule_set(preceeding_event: char) -> (rules: Vec<Rule>)
    ensures
        rules@.len() == 5,
        rules@[0] matches Rule::Precedence(p) && p.preceeding@ == event_bits(preceeding_event),
        rules@[1] matches Rule::Cardinality(c) && c.prior@ == event_bits('b') && c.min == 1 && c.max
            == 1,
        rules@[2] matches Rule::Cardinality(c) && c.prior@ == event_bits('a') && c.min == 2 && c.max
            == 2,
        rules@[3] matches Rule::Exclusiveness(x) && x.prior_a@ == event_bits('a') && x.prior_b@
            == event_bits('e'),
        rules@[4] matches Rule::Order(o) && o.prior@ == event_bits('a') && o.next@ == event_bits(
            'c',
        ),
{
    let rules: Vec<Rule> = vec![
        Rule::Precedence(PrecedenceRule { preceeding: char_to_u32_array(preceeding_event) }),
        Rule::Cardinality(CardinalityRule { prior: char_to_u32_array('b'), max: 1, min: 1 }),
        Rule::Cardinality(CardinalityRule { prior: char_to_u32_array('a'), max: 2, min: 2 }),
        Rule::Exclusiveness(
            ExclusivenessRule { prior_a: char_to_u32_array('a'), prior_b: char_to_u32_array('e') },
        ),
        Rule::Order(OrderingRule { prior: char_to_u32_array('a'), next: char_to_u32_array('c') }),
    ];
    rules
}

} // verus!
