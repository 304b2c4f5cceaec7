//! Recording events, and the links between them, in an event filter.
use vstd::prelude::*;
use vstd::multiset::Multiset;

use crate::filter::{
    count_linked, count_next, lemma_count_linked_none, lemma_count_next_monotone, lemma_linked_prefix,
    lemma_links_upto_len, link_key, linked_by_reports, links_upto, ordered_insertion,
    reported_insertion, valid_linking, EventFilter,
};
use crate::rules::{same_event, OrderingRule};

verus! {

/// The relation "`prior` was followed by `next`", recorded in a filter when an
/// ordering rule is fulfilled.
#[derive(Debug, Hash, Clone, Copy)]
pub struct FollowedBy {
    pub prior: [u32; 8],
    pub next: [u32; 8],
}

/// The (prior, next) pairs of a list of ordering rules.
pub open spec fn ordering_links(rules: Seq<&OrderingRule>) -> Seq<(Seq<u32>, Seq<u32>)> {
    rules.map_values(|r: &OrderingRule| (r.prior@, r.next@))
}

/// Recording events in a filter.
pub trait InsertEvent: Sized {
    /// The keys recorded so far.
    spec fn recorded(&self) -> Multiset<Seq<u32>>;

    /// How many keys can be recorded in all.
    spec fn key_capacity(&self) -> nat;

    /// What the filter, as it stands, answers for each key.
    spec fn reported(&self) -> spec_fn(Seq<u32>) -> bool;

    /// Inserts an event into the filter and adds a FollowedBy relation if an ordering
    /// rule is fulfilled: for each rule whose `next` is the event and whose `prior` the
    /// filter reports present, the link is recorded; then the event is, if there is
    /// room left for it. A filter that holds nothing reports no prior event, so no link
    /// is recorded in it; otherwise there must be room for a link for every rule into
    /// the event.
    fn insert_ordered_event(&mut self, event: [u32; 8], rules: Vec<&OrderingRule>) -> (r: Result<
        (),
        qfilter::Error,
    >)
        requires
            old(self).recorded().len() == 0 || old(self).recorded().len() + count_next(
                ordering_links(rules@),
                event@,
                rules@.len() as int,
            ) <= old(self).key_capacity(),
        ensures
            ordered_insertion(
                old(self).recorded(),
                final(self).recorded(),
                old(self).key_capacity(),
                event@,
                ordering_links(rules@),
                r is Ok,
            ),
            reported_insertion(
                old(self).recorded(),
                final(self).recorded(),
                old(self).key_capacity(),
                event@,
                ordering_links(rules@),
                r is Ok,
                old(self).reported(),
            ),
            final(self).key_capacity() == old(self).key_capacity(),
    ;

    /// Records the event alone, if there is room left for it.
    fn insert_event(&mut self, event: [u32; 8]) -> (r: Result<(), qfilter::Error>)
        ensures
            r is Ok <==> old(self).recorded().len() < old(self).key_capacity(),
            final(self).recorded() == if r is Ok {
                old(self).recorded().insert(event@)
            } else {
                old(self).recorded()
            },
            final(self).key_capacity() == old(self).key_capacity(),
    ;
}

impl InsertEvent for EventFilter {
    open spec fn recorded(&self) -> Multiset<Seq<u32>> {
        self.keys()
    }

    open spec fn key_capacity(&self) -> nat {
        self.capacity()
    }

    open spec fn reported(&self) -> spec_fn(Seq<u32>) -> bool {
        self.report_fn()
    }

    fn insert_ordered_event(&mut self, event: [u32; 8], rules: Vec<&OrderingRule>) -> (r: Result<
        (),
        qfilter::Error,
    >) {
        let ghost links = ordering_links(rules@);
        let ghost old_keys = self.keys();
        let ghost cap = self.capacity();
        let ghost mut linked: Seq<bool> = Seq::empty();
        let ghost first = self.report_fn();
        let ghost mut states: Seq<spec_fn(Seq<u32>) -> bool> = Seq::empty().push(first);
        let mut i: usize = 0;
        while i < rules.len()
            invariant
                0 <= i <= rules.len(),
                links == ordering_links(rules@),
                states.len() == i + 1,
                states[0] == first,
                states[i as int] == self.report_fn(),
                forall|j: int|
                    0 <= j < i ==> (#[trigger] linked[j] <==> links[j].1 == event@ && (states[j])(
                        links[j].0,
                    )),
                forall|j: int| 0 <= j < i && !#[trigger] linked[j] ==> states[j + 1] == states[j],
                links.len() == rules@.len(),
                linked.len() == i,
                forall|j: int| 0 <= j < i ==> (#[trigger] linked[j] ==> links[j].1 == event@),
                forall|j: int|
                    0 <= j < i && links[j].1 == event@ && old_keys.count(#[trigger] links[j].0) > 0
                        ==> linked[j],
                self.keys() == old_keys.add(links_upto(links, linked, i as int)),
                self.capacity() == cap,
                old_keys.len() == 0 || old_keys.len() + count_next(links, event@, rules@.len() as int) <= cap,
                old_keys.len() == 0 ==> forall|j: int| 0 <= j < i ==> !#[trigger] linked[j],
                count_linked(linked, i as int) <= count_next(links, event@, i as int),
            decreases rules.len() - i,
        {
            let rule: &OrderingRule = rules[i];
            let ghost before = linked;
            let ghost before_states = states;
            assert(links[i as int] == (rule.prior@, rule.next@));
            proof {
                lemma_links_upto_len(links, linked, i as int);
            }
            if same_event(&rule.next, &event) {
                if self.contains_event(&rule.prior) {
                    proof {
                        lemma_count_next_monotone(links, event@, i + 1, rules@.len() as int);
                    }
                    proof {
                        if old_keys.len() == 0 {
                            lemma_count_linked_none(linked, i as int);
                            lemma_links_upto_len(links, linked, i as int);
                            assert(self.keys().len() == 0);
                        }
                    }
                    let res = self.insert_link_key(rule.prior, rule.next);
                    match res {
                        Ok(_) => {},
                        Err(_) => {
                            assert(false);
                        },
                    }
                    proof {
                        linked = linked.push(true);
                        lemma_linked_prefix(links, linked, before, i as int);
                        assert(links_upto(links, linked, i + 1) == links_upto(links, before, i as int).insert(
                            link_key(links[i as int].0, links[i as int].1),
                        ));
                    }
                } else {
                    proof {
                        linked = linked.push(false);
                        lemma_linked_prefix(links, linked, before, i as int);
                        assert(links_upto(links, linked, i + 1) == links_upto(links, before, i as int));
                    }
                }
            } else {
                proof {
                    linked = linked.push(false);
                    lemma_linked_prefix(links, linked, before, i as int);
                    assert(links_upto(links, linked, i + 1) == links_upto(links, before, i as int));
                }
            }
            proof {
                states = states.push(self.report_fn());
                assert forall|j: int| 0 <= j < i + 1 implies (#[trigger] linked[j] <==> links[j].1
                    == event@ && (states[j])(links[j].0)) by {
                    if j < i {
                        assert(before[j] == linked[j]);
                        assert(before_states[j] == states[j]);
                    }
                }
                assert forall|j: int| 0 <= j < i + 1 && !#[trigger] linked[j] implies states[j + 1]
                    == states[j] by {
                    if j < i {
                        assert(before_states[j + 1] == before_states[j]);
                    }
                }
            }
            i = i + 1;
        }
        proof {
            lemma_links_upto_len(links, linked, rules@.len() as int);
        }
        let r = self.insert_event_key(event);
        assert(valid_linking(old_keys, event@, links, linked));
        assert(linked_by_reports(first, event@, links, linked, states));
        r
    }

    fn insert_event(&mut self, event: [u32; 8]) -> (r: Result<(), qfilter::Error>) {
        self.insert_event_key(event)
    }
}

/// How many of the rules lead into `event`.
pub fn count_rules_into(event: &[u32; 8], rules: &Vec<&OrderingRule>) -> (n: usize)
    ensures
        n == count_next(ordering_links(rules@), event@, rules@.len() as int),
{
    let ghost links = ordering_links(rules@);
    let mut n: usize = 0;
    let mut i: usize = 0;
    while i < rules.len()
        invariant
            0 <= i <= rules@.len(),
            links == ordering_links(rules@),
            links.len() == rules@.len(),
            n == count_next(links, event@, i as int),
            n <= i,
        decreases rules@.len() - i,
    {
        let rule: &OrderingRule = rules[i];
        if same_event(&rule.next, event) {
            n = n + 1;
        }
        i = i + 1;
    }
    n
}

/// Records an ordered event when the filter holds nothing or has room for a link for
/// every rule into the event; otherwise leaves the filter as it is and returns `None`.
pub fn try_insert_ordered_event(qf: &mut EventFilter, event: [u32; 8], rules: Vec<&OrderingRule>) -> (r: Option<
    Result<(), qfilter::Error>,
>)
    ensures
        r is Some <==> old(qf).keys().len() == 0 || old(qf).keys().len() + count_next(
            ordering_links(rules@),
            event@,
            rules@.len() as int,
        ) <= old(qf).capacity(),
        r is None ==> *final(qf) == *old(qf),
        r matches Some(res) ==> ordered_insertion(
            old(qf).keys(),
            final(qf).keys(),
            old(qf).capacity(),
            event@,
            ordering_links(rules@),
            res is Ok,
        ),
        r matches Some(res) ==> reported_insertion(
            old(qf).keys(),
            final(qf).keys(),
            old(qf).capacity(),
            event@,
            ordering_links(rules@),
            res is Ok,
            old(qf).report_fn(),
        ),
        final(qf).capacity() == old(qf).capacity(),
{
    let into = count_rules_into(&event, &rules);
    if qf.len() == 0 || qf.has_room(into as u64) {
        Some(qf.insert_ordered_event(event, rules))
    } else {
        None
    }
}

} // verus!
