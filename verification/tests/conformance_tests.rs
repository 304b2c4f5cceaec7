use poam::filter::EventFilter;
use poam::rules::conformance::{conform_and_record, resume_metadata, PoamInput, PoamMetadata, RuleInput};
use poam::rules::{CardinalityRule, PrecedenceRule, Rule};
use poam::rules_new::{
    char_to_u32_array, ConformanceMetadata, InsertEvent, OrderingRule, PrecedenceRule as CurrentPrecedence,
    Rule as NewRule, RuleChecker,
};

fn fresh_filter() -> EventFilter {
    EventFilter::with_fingerprint_size(100, 14).unwrap()
}

#[test]
fn it_works() {
    let mut qf: EventFilter = fresh_filter();
    let events: [char; 5] = ['a', 'a', 'b', 'c', 'd'];
    let current_event = char_to_u32_array('d');
    for event in events.iter() {
        qf.insert_ordered_event(
            char_to_u32_array(*event),
            vec![OrderingRule { prior: char_to_u32_array('a'), next: char_to_u32_array('c') }],
        )
        .unwrap();
    }

    let rules: Vec<NewRule> = vec![
        NewRule::Precedence(CurrentPrecedence {
            current: current_event,
            preceeding: char_to_u32_array('d'),
        }),
        NewRule::Cardinality(poam::rules_new::CardinalityRule {
            prior: char_to_u32_array('b'),
            max: 1,
            min: 1,
        }),
        NewRule::Cardinality(poam::rules_new::CardinalityRule {
            prior: char_to_u32_array('a'),
            max: 2,
            min: 2,
        }),
        NewRule::Exclusiveness(poam::rules_new::ExclusivenessRule {
            prior_a: char_to_u32_array('a'),
            prior_b: char_to_u32_array('e'),
        }),
        NewRule::Order(OrderingRule { prior: char_to_u32_array('a'), next: char_to_u32_array('c') }),
    ];
    let task_rules = ConformanceMetadata {
        previous_image_id: current_event,
        current_image_id: current_event,
        rules: rules,
        qf,
    };

    for rule in task_rules.rules.iter() {
        assert_eq!(rule.check(&task_rules.qf), true);
    }
}

#[test]
fn current_precedence_needs_matching_ids() {
    let d = char_to_u32_array('d');
    let mut qf = fresh_filter();
    qf.insert_event(d).unwrap();
    assert!(CurrentPrecedence { current: d, preceeding: d }.check(&qf));
    assert!(!CurrentPrecedence { current: d, preceeding: char_to_u32_array('c') }.check(&qf));
    assert!(!CurrentPrecedence { current: char_to_u32_array('e'), preceeding: char_to_u32_array('e') }
        .check(&qf));
}

#[test]
fn event_ids_are_bits_of_the_low_byte() {
    assert_eq!(char_to_u32_array('a'), [0, 1, 1, 0, 0, 0, 0, 1]);
    assert_eq!(char_to_u32_array('\0'), [0; 8]);
    assert_eq!(char_to_u32_array('\u{ff}'), [1; 8]);
    // U+0161 has the same low byte as 'a'
    assert_eq!(char_to_u32_array('\u{161}'), char_to_u32_array('a'));
    assert_ne!(char_to_u32_array('b'), char_to_u32_array('a'));
}

fn step_input(image_id: [u32; 8], rules: Option<Vec<Rule>>, previous: bool) -> PoamInput {
    PoamInput {
        image_id,
        rule_input: RuleInput { rules, ordering_rules: None },
        public_data: if previous {
            Some(("3.0".to_string(), "{}".to_string()))
        } else {
            None
        },
    }
}

#[test]
fn conformance_step_records_event_when_rules_pass() {
    let id = char_to_u32_array('p');
    let mut qf = fresh_filter();
    qf.insert_event(id).unwrap();
    let mut pm = PoamMetadata { was_first_event: false, image_id: id, qf };
    let pi = step_input(id, Some(vec![Rule::Precedence(PrecedenceRule { preceeding: id })]), true);
    assert!(conform_and_record(&mut pm, &pi));
    assert_eq!(pm.qf.len(), 2);
    assert!(!pm.was_first_event);
}

#[test]
fn conformance_step_without_rules_records_event() {
    let id = char_to_u32_array('q');
    let mut pm = PoamMetadata { was_first_event: true, image_id: id, qf: fresh_filter() };
    let pi = step_input(id, None, false);
    assert!(conform_and_record(&mut pm, &pi));
    assert_eq!(pm.qf.len(), 1);
}

#[test]
fn conformance_step_stops_at_failing_rule() {
    let id = char_to_u32_array('r');
    let mut pm = PoamMetadata { was_first_event: true, image_id: id, qf: fresh_filter() };
    let rules = vec![
        Rule::Cardinality(CardinalityRule { prior: id, min: 0, max: 0 }),
        Rule::Precedence(PrecedenceRule { preceeding: id }),
    ];
    let pi = step_input(id, Some(rules), false);
    assert!(!conform_and_record(&mut pm, &pi));
    assert_eq!(pm.qf.len(), 0);
    assert!(pm.was_first_event);
}

#[test]
fn resuming_without_previous_starts_first_event() {
    let id = char_to_u32_array('s');
    let pi = step_input(id, None, false);
    let pm = resume_metadata(&pi, None, fresh_filter());
    assert!(pm.was_first_event);
    assert_eq!(pm.image_id, id);
    assert_eq!(pm.qf.len(), 0);
}

#[test]
fn resuming_with_previous_keeps_its_filter() {
    let id = char_to_u32_array('t');
    let earlier = char_to_u32_array('u');
    let mut qf = fresh_filter();
    qf.insert_event(earlier).unwrap();
    let previous = PoamMetadata { was_first_event: true, image_id: earlier, qf };
    let pi = step_input(id, None, true);
    let pm = resume_metadata(&pi, Some(previous), fresh_filter());
    assert!(!pm.was_first_event);
    assert_eq!(pm.image_id, earlier);
    assert_eq!(pm.qf.len(), 1);
}
