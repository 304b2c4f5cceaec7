use poam::filter::EventFilter;
use poam::rules::event_filter::{count_rules_into, try_insert_ordered_event, InsertEvent};
use poam::rules::samples::{generate_event_filter, generate_rule_set, try_generate_event_filter};
use poam::rules::{
    same_event, CardinalityRule, ExclusivenessRule, Observation, OrderingRule, PrecedenceRule, Rule,
    RuleChecker,
};
use poam::rules_new::char_to_u32_array;

fn fresh_filter() -> EventFilter {
    EventFilter::with_fingerprint_size(100, 14).unwrap()
}

fn small_filter() -> EventFilter {
    EventFilter::with_fingerprint_size(1, 7).unwrap()
}

#[test]
fn all_rules() {
    let preceeding_event = 'c';
    let qf: EventFilter = generate_event_filter(
        fresh_filter(),
        ['a', 'a', 'b', 'c', preceeding_event],
        Some(OrderingRule { prior: char_to_u32_array('a'), next: char_to_u32_array('c') }),
    );
    let rules: Vec<Rule> = generate_rule_set(preceeding_event);
    for rule in rules.iter() {
        println!("({:?})", rule);
        assert_eq!(rule.check(&qf, &char_to_u32_array(preceeding_event)), true);
    }
}

#[test]
fn sample_rule_set_values() {
    let rules = generate_rule_set('d');
    assert_eq!(rules.len(), 5);
    match rules[0] {
        Rule::Precedence(p) => assert_eq!(p.preceeding, char_to_u32_array('d')),
        _ => panic!("first rule is not a precedence rule"),
    }
    match rules[2] {
        Rule::Cardinality(c) => {
            assert_eq!(c.prior, char_to_u32_array('a'));
            assert_eq!((c.min, c.max), (2, 2));
        }
        _ => panic!("third rule is not a cardinality rule"),
    }
    match rules[4] {
        Rule::Order(o) => {
            assert_eq!(o.prior, char_to_u32_array('a'));
            assert_eq!(o.next, char_to_u32_array('c'));
        }
        _ => panic!("last rule is not an ordering rule"),
    }
}

#[test]
fn sample_log_without_ordering_records_no_link() {
    let qf = generate_event_filter(fresh_filter(), ['a', 'a', 'b', 'c', 'c'], None);
    assert_eq!(qf.len(), 5);
    let rule = OrderingRule { prior: char_to_u32_array('a'), next: char_to_u32_array('c') };
    assert!(!rule.check(&qf, &char_to_u32_array('c')));
}

#[test]
fn sample_log_with_ordering_records_two_links() {
    let qf = generate_event_filter(
        fresh_filter(),
        ['a', 'a', 'b', 'c', 'c'],
        Some(OrderingRule { prior: char_to_u32_array('a'), next: char_to_u32_array('c') }),
    );
    // five events and one link for each 'c' that followed an 'a'
    assert_eq!(qf.len(), 7);
}

#[test]
fn sample_log_refused_without_room() {
    let mut qf = small_filter();
    let cap = qf.max_capacity();
    for i in 0..(cap - 5) {
        qf.insert_event([i as u32, 0, 0, 0, 0, 0, 0, 9]).unwrap();
    }
    let before = qf.len();
    match try_generate_event_filter(qf, ['a', 'b', 'c', 'd', 'e'], None) {
        Ok(_) => panic!("a nearly full filter was accepted"),
        Err(back) => assert_eq!(back.len(), before),
    }
    let roomy = try_generate_event_filter(fresh_filter(), ['a', 'b', 'c', 'd', 'e'], None);
    assert_eq!(roomy.ok().unwrap().len(), 5);
}

#[test]
fn precedence_needs_recorded_previous_event() {
    let c = char_to_u32_array('c');
    let rule = PrecedenceRule { preceeding: c };
    let mut qf = fresh_filter();
    assert!(!rule.check(&qf, &c));
    qf.insert_event(c).unwrap();
    assert!(rule.check(&qf, &c));
    assert!(!rule.check(&qf, &char_to_u32_array('d')));
    assert!(rule.decide(true, &c));
    assert!(!rule.decide(false, &c));
}

#[test]
fn cardinality_counts_duplicates() {
    let b = char_to_u32_array('b');
    let mut qf = fresh_filter();
    qf.insert_event(b).unwrap();
    qf.insert_event(b).unwrap();
    assert!(!CardinalityRule { prior: b, min: 1, max: 1 }.check(&qf, &b));
    assert!(CardinalityRule { prior: b, min: 2, max: 2 }.check(&qf, &b));
    assert!(!CardinalityRule { prior: b, min: 3, max: 9 }.check(&qf, &b));
    assert!(CardinalityRule { prior: b, min: 0, max: 0 }.decide(0));
}

#[test]
fn exclusiveness_wants_exactly_one() {
    let a = char_to_u32_array('a');
    let e = char_to_u32_array('e');
    let rule = ExclusivenessRule { prior_a: a, prior_b: e };
    let mut qf = fresh_filter();
    assert!(!rule.check(&qf, &a));
    qf.insert_event(a).unwrap();
    assert!(rule.check(&qf, &a));
    qf.insert_event(e).unwrap();
    assert!(!rule.check(&qf, &a));
    assert!(rule.decide(false, true));
    assert!(!rule.decide(true, true));
}

#[test]
fn ordering_needs_prior_before_next() {
    let a = char_to_u32_array('a');
    let c = char_to_u32_array('c');
    let rule = OrderingRule { prior: a, next: c };

    let mut in_order = fresh_filter();
    in_order.insert_ordered_event(a, vec![&rule]).unwrap();
    in_order.insert_ordered_event(c, vec![&rule]).unwrap();
    assert!(rule.check(&in_order, &c));
    assert_eq!(in_order.len(), 3);

    let mut reversed = fresh_filter();
    reversed.insert_ordered_event(c, vec![&rule]).unwrap();
    reversed.insert_ordered_event(a, vec![&rule]).unwrap();
    assert!(!rule.check(&reversed, &c));
    assert_eq!(reversed.len(), 2);
}

#[test]
fn rule_enum_dispatches_to_each_kind() {
    let a = char_to_u32_array('a');
    let c = char_to_u32_array('c');
    let mut qf = fresh_filter();
    let order = OrderingRule { prior: a, next: c };
    qf.insert_ordered_event(a, vec![&order]).unwrap();
    qf.insert_ordered_event(c, vec![&order]).unwrap();
    assert!(Rule::Precedence(PrecedenceRule { preceeding: c }).check(&qf, &c));
    assert!(Rule::Cardinality(CardinalityRule { prior: a, min: 1, max: 1 }).check(&qf, &c));
    assert!(!Rule::Exclusiveness(ExclusivenessRule { prior_a: a, prior_b: c }).check(&qf, &c));
    assert!(Rule::Order(order).check(&qf, &c));
}

#[test]
fn full_filter_refuses_events() {
    let mut qf = small_filter();
    let cap = qf.max_capacity();
    for i in 0..cap {
        assert!(qf.insert_event([i as u32, 1, 2, 3, 4, 5, 6, 7]).is_ok());
    }
    assert!(qf.insert_event(char_to_u32_array('z')).is_err());
    assert_eq!(qf.len(), cap);
    let rule = OrderingRule { prior: char_to_u32_array('y'), next: char_to_u32_array('z') };
    assert!(try_insert_ordered_event(&mut qf, char_to_u32_array('z'), vec![&rule]).is_none());
    assert_eq!(qf.len(), cap);
}

#[test]
fn checked_ordered_insert_with_room() {
    let a = char_to_u32_array('a');
    let c = char_to_u32_array('c');
    let rule = OrderingRule { prior: a, next: c };
    let other = OrderingRule { prior: c, next: a };
    assert_eq!(count_rules_into(&c, &vec![&rule, &other, &rule]), 2);
    let mut qf = fresh_filter();
    qf.insert_event(a).unwrap();
    let r = try_insert_ordered_event(&mut qf, c, vec![&rule, &other]);
    assert!(matches!(r, Some(Ok(()))));
    assert_eq!(qf.len(), 3);
}

#[test]
fn same_event_compares_all_words() {
    let a = [1, 2, 3, 4, 5, 6, 7, 8];
    let mut b = a;
    assert!(same_event(&a, &b));
    b[7] = 0;
    assert!(!same_event(&a, &b));
}

#[test]
fn rule_decisions_from_observations() {
    let a = char_to_u32_array('a');
    let c = char_to_u32_array('c');
    let seen = Observation { first: true, second: false, count: 2 };
    let unseen = Observation { first: false, second: false, count: 0 };
    assert!(Rule::Precedence(PrecedenceRule { preceeding: c }).decide(&seen, &c));
    assert!(!Rule::Precedence(PrecedenceRule { preceeding: c }).decide(&seen, &a));
    assert!(!Rule::Precedence(PrecedenceRule { preceeding: c }).decide(&unseen, &c));
    assert!(Rule::Cardinality(CardinalityRule { prior: a, min: 2, max: 3 }).decide(&seen, &c));
    assert!(!Rule::Cardinality(CardinalityRule { prior: a, min: 1, max: 1 }).decide(&seen, &c));
    assert!(Rule::Exclusiveness(ExclusivenessRule { prior_a: a, prior_b: c }).decide(&seen, &c));
    assert!(!Rule::Exclusiveness(ExclusivenessRule { prior_a: a, prior_b: c }).decide(&unseen, &c));
    assert!(Rule::Order(OrderingRule { prior: a, next: c }).decide(&seen, &c));
    let new_rule = poam::rules_new::Rule::Precedence(poam::rules_new::PrecedenceRule {
        preceeding: c,
        current: c,
    });
    assert!(new_rule.decide(&seen));
    assert!(!new_rule.decide(&unseen));
}

#[test]
fn room_counts_against_grown_capacity() {
    let mut qf = small_filter();
    let cap = qf.max_capacity();
    assert!(qf.has_room(cap));
    assert!(!qf.has_room(cap + 1));
    qf.insert_event(char_to_u32_array('a')).unwrap();
    assert!(qf.has_room(cap - 1));
    assert!(!qf.has_room(cap));
}

#[test]
fn certain_verdicts_survive_more_events() {
    let a = char_to_u32_array('a');
    let c = char_to_u32_array('c');
    let order = OrderingRule { prior: a, next: c };
    let mut qf = fresh_filter();
    qf.insert_ordered_event(a, vec![&order]).unwrap();
    qf.insert_ordered_event(c, vec![&order]).unwrap();
    assert!(order.check(&qf, &c));
    let too_many = CardinalityRule { prior: a, min: 0, max: 0 };
    assert!(!too_many.check(&qf, &c));
    for ch in ['x', 'y', 'a', 'z'] {
        qf.insert_ordered_event(char_to_u32_array(ch), vec![&order]).unwrap();
        assert!(order.check(&qf, &c));
        assert!(!too_many.check(&qf, &c));
        assert!(PrecedenceRule { preceeding: a }.check(&qf, &a));
    }
    assert_eq!(qf.len(), 7);
}

#[test]
fn event_filter_is_made_empty() {
    let fresh = fresh_filter();
    assert_eq!(fresh.len(), 0);
    assert_eq!(fresh.as_filter().len(), 0);
    // 128 slots to start with, growing to 2^13 slots while remainder bits last
    assert_eq!(fresh.max_capacity(), 7783);
    assert_eq!(small_filter().max_capacity(), 61);
    assert!(EventFilter::with_fingerprint_size(100, 6).is_err());
    assert!(EventFilter::with_fingerprint_size(100, 65).is_err());
    assert!(EventFilter::with_fingerprint_size(100, 7).is_err());
    assert!(EventFilter::with_fingerprint_size(100, 8).is_ok());
}

#[test]
fn exclusiveness_of_an_event_with_itself_fails() {
    let a = char_to_u32_array('a');
    let rule = ExclusivenessRule { prior_a: a, prior_b: a };
    let mut qf = fresh_filter();
    assert!(!rule.check(&qf, &a));
    qf.insert_event(a).unwrap();
    assert!(!rule.check(&qf, &a));
}

#[test]
fn event_never_precedes_itself_in_fresh_filter() {
    let x = char_to_u32_array('c');
    let r = OrderingRule { prior: x, next: x };
    let mut qf = fresh_filter();
    assert!(qf.insert_ordered_event(x, vec![&r]).is_ok());
    assert!(qf.contains_event(&x));
    assert!(!qf.contains_link(x, x));
    assert_eq!(qf.len(), 1);
}

#[test]
fn unlinked_event_is_inserted_alone() {
    let a = char_to_u32_array('a');
    let b = char_to_u32_array('b');
    let c = char_to_u32_array('c');
    let into_c = OrderingRule { prior: a, next: c };
    let mut ordered = fresh_filter();
    let mut plain = fresh_filter();
    ordered.insert_event(a).unwrap();
    plain.insert_event(a).unwrap();
    assert!(ordered.insert_ordered_event(b, vec![&into_c]).is_ok());
    assert!(plain.insert_event(b).is_ok());
    assert_eq!(ordered.len(), plain.len());
    assert_eq!(ordered.len(), 2);
    assert!(!ordered.contains_link(a, c));
}

#[test]
fn fresh_filter_reports_nothing() {
    let a = char_to_u32_array('a');
    let c = char_to_u32_array('c');
    let qf = fresh_filter();
    assert!(!qf.contains_event(&a));
    assert!(!PrecedenceRule { preceeding: a }.check(&qf, &a));
    assert!(!ExclusivenessRule { prior_a: a, prior_b: c }.check(&qf, &a));
    assert!(!OrderingRule { prior: a, next: c }.check(&qf, &a));
    assert!(CardinalityRule { prior: a, min: 0, max: 0 }.check(&qf, &a));
    assert!(!CardinalityRule { prior: a, min: 1, max: 5 }.check(&qf, &a));
}

#[test]
fn count_never_exceeds_what_is_held() {
    let b = char_to_u32_array('b');
    let mut qf = fresh_filter();
    qf.insert_event(b).unwrap();
    let mut copy = qf.duplicate();
    assert_eq!(copy.count_event(b), 1);
    assert_eq!(copy.len(), qf.len());
    assert!(!CardinalityRule { prior: b, min: 2, max: 9 }.check(&qf, &b));
}
