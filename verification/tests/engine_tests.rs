use ocpq::binding::{Binding, EventOrObjectIndex};
use ocpq::cel::NoCel;
use ocpq::expand::MAX_BINDINGS;
use ocpq::extras::{string_to_index, ExportFormat, IndexOrID};
use ocpq::filters::string_vec_contains;
use ocpq::log::{EventInput, IndexedLog, LogError, LogInput, ObjectInput};
use ocpq::query::{
    BindingBox, BindingStep, EvalError, EventVariable, Filter, ObjectVariable, ValueFilter,
    Variable,
};
use ocpq::text::{ev_index_to_name, ob_index_to_name};
use ocpq::values::{int_to_float_bits, AttributeValue};

fn s(x: &str) -> String {
    x.to_string()
}

/// A log with two events (an order at 10:00, a shipment at 10:05) and one
/// order object referenced by the first event.
fn small_log() -> IndexedLog {
    let input = LogInput {
        event_types: vec![s("Order"), s("Ship")],
        object_types: vec![s("Order")],
        events: vec![
            EventInput {
                id: s("e1"),
                event_type: s("Order"),
                time: 36_000_000,
                attributes: vec![(s("amount"), AttributeValue::Integer(30))],
                relationships: vec![(s("ref"), s("o1"))],
            },
            EventInput {
                id: s("e2"),
                event_type: s("Ship"),
                time: 36_300_000,
                attributes: vec![],
                relationships: vec![],
            },
        ],
        objects: vec![ObjectInput {
            id: s("o1"),
            object_type: s("Order"),
            attributes: vec![],
            relationships: vec![],
        }],
    };
    IndexedLog::build(input).unwrap()
}

fn empty_box() -> BindingBox {
    BindingBox {
        new_event_vars: vec![],
        new_object_vars: vec![],
        filters: vec![],
        size_filters: vec![],
        constraints: vec![],
        ev_var_labels: vec![],
        ob_var_labels: vec![],
        labels: vec![],
    }
}

#[test]
fn event_binding_with_type_restriction() {
    let log = small_log();
    let mut bbox = empty_box();
    bbox.new_event_vars = vec![(EventVariable(0), vec![s("Order")])];
    let (bindings, skipped) = bbox.expand(Binding::empty(), &log, MAX_BINDINGS, &NoCel).unwrap();
    assert_eq!(bindings.len(), 1);
    assert!(!skipped);
    assert_eq!(bindings[0].get_ev_index(&EventVariable(0)), Some(0));
}

#[test]
fn object_to_event_join() {
    let log = small_log();
    let mut bbox = empty_box();
    bbox.new_event_vars = vec![(EventVariable(0), vec![s("Order")])];
    bbox.new_object_vars = vec![(ObjectVariable(0), vec![s("Order")])];
    bbox.filters = vec![Filter::O2E {
        object: ObjectVariable(0),
        event: EventVariable(0),
        qualifier: None,
        filter_label: None,
    }];
    let (bindings, skipped) = bbox.expand(Binding::empty(), &log, MAX_BINDINGS, &NoCel).unwrap();
    assert_eq!(bindings.len(), 1);
    assert!(!skipped);
    assert_eq!(bindings[0].get_ev_index(&EventVariable(0)), Some(0));
    assert_eq!(bindings[0].get_ob_index(&ObjectVariable(0)), Some(0));
}

#[test]
fn time_window_between_events() {
    let log = small_log();
    let mut bbox = empty_box();
    bbox.new_event_vars = vec![
        (EventVariable(0), vec![s("Order")]),
        (EventVariable(1), vec![s("Ship")]),
    ];
    bbox.filters = vec![Filter::TimeBetweenEvents {
        from_event: EventVariable(0),
        to_event: EventVariable(1),
        min_millis: Some(0),
        max_millis: Some(600_000),
    }];
    let (bindings, skipped) = bbox.expand(Binding::empty(), &log, MAX_BINDINGS, &NoCel).unwrap();
    assert_eq!(bindings.len(), 1);
    assert!(!skipped);
    assert_eq!(bindings[0].get_ev_index(&EventVariable(0)), Some(0));
    assert_eq!(bindings[0].get_ev_index(&EventVariable(1)), Some(1));
}

#[test]
fn time_window_rejects_out_of_bounds() {
    let log = small_log();
    let mut bbox = empty_box();
    bbox.new_event_vars = vec![
        (EventVariable(0), vec![s("Order")]),
        (EventVariable(1), vec![s("Ship")]),
    ];
    bbox.filters = vec![Filter::TimeBetweenEvents {
        from_event: EventVariable(0),
        to_event: EventVariable(1),
        min_millis: Some(0),
        max_millis: Some(100_000),
    }];
    let (bindings, _) = bbox.expand(Binding::empty(), &log, MAX_BINDINGS, &NoCel).unwrap();
    assert_eq!(bindings.len(), 0);
}

#[test]
fn relational_symmetry_in_reverse_lists() {
    let log = small_log();
    // the forward relationship of e1 to o1 appears in o1's reverse list
    assert_eq!(log.events[0].e2o.len(), 1);
    assert_eq!(log.events[0].e2o[0].1, 0);
    assert_eq!(log.e2o_rev[0].len(), 1);
    assert_eq!(log.e2o_rev[0][0].0, "ref");
    assert_eq!(log.e2o_rev[0][0].1, 0);
}

#[test]
fn duplicate_event_id_is_rejected() {
    let input = LogInput {
        event_types: vec![s("Order")],
        object_types: vec![],
        events: vec![
            EventInput {
                id: s("e1"),
                event_type: s("Order"),
                time: 0,
                attributes: vec![],
                relationships: vec![],
            },
            EventInput {
                id: s("e1"),
                event_type: s("Order"),
                time: 1,
                attributes: vec![],
                relationships: vec![],
            },
        ],
        objects: vec![],
    };
    assert!(matches!(IndexedLog::build(input), Err(LogError::DuplicateEventId(_))));
}

#[test]
fn dangling_relationship_is_rejected() {
    let input = LogInput {
        event_types: vec![s("Order")],
        object_types: vec![],
        events: vec![EventInput {
            id: s("e1"),
            event_type: s("Order"),
            time: 0,
            attributes: vec![],
            relationships: vec![(s("ref"), s("missing"))],
        }],
        objects: vec![],
    };
    assert!(matches!(IndexedLog::build(input), Err(LogError::DanglingObjectId(_))));
}

#[test]
fn unknown_event_type_fails_at_plan_time() {
    let log = small_log();
    let mut bbox = empty_box();
    bbox.new_event_vars = vec![(EventVariable(0), vec![s("NoSuchType")])];
    let r = BindingStep::get_binding_order(&bbox, None, &log);
    assert!(matches!(r, Err(EvalError::UnknownEventType(EventVariable(0)))));
}

#[test]
fn unbound_filter_variable_fails_at_plan_time() {
    let log = small_log();
    let mut bbox = empty_box();
    bbox.filters = vec![Filter::O2E {
        object: ObjectVariable(7),
        event: EventVariable(7),
        qualifier: None,
        filter_label: None,
    }];
    let r = BindingStep::get_binding_order(&bbox, None, &log);
    assert!(r.is_err());
}

#[test]
fn unbound_variable_in_filter_check() {
    let log = small_log();
    let b = Binding::empty();
    let f = Filter::O2E {
        object: ObjectVariable(0),
        event: EventVariable(0),
        qualifier: None,
        filter_label: None,
    };
    assert!(matches!(
        f.check_binding(&b, &log, &NoCel),
        Err(EvalError::UnboundObjectVariable(ObjectVariable(0)))
    ));
}

#[test]
fn not_equal_filter_on_distinct_kinds() {
    let log = small_log();
    let b = Binding::empty().expand_with_ev(EventVariable(0), 0).expand_with_ob(
        ObjectVariable(0),
        0,
    );
    let f = Filter::NotEqual {
        var_1: Variable::Event(EventVariable(0)),
        var_2: Variable::Object(ObjectVariable(0)),
    };
    assert_eq!(f.check_binding(&b, &log, &NoCel), Ok(true));
}

#[test]
fn event_attribute_value_filter() {
    let log = small_log();
    let b = Binding::empty().expand_with_ev(EventVariable(0), 0);
    let f = Filter::EventAttributeValueFilter {
        event: EventVariable(0),
        attribute_name: s("amount"),
        value_filter: ValueFilter::Integer { min: Some(10), max: Some(40) },
    };
    assert_eq!(f.check_binding(&b, &log, &NoCel), Ok(true));
    let f2 = Filter::EventAttributeValueFilter {
        event: EventVariable(0),
        attribute_name: s("amount"),
        value_filter: ValueFilter::Integer { min: Some(31), max: None },
    };
    assert_eq!(f2.check_binding(&b, &log, &NoCel), Ok(false));
}

#[test]
fn integer_promotes_against_float_bounds() {
    let vf = ValueFilter::Float {
        min: Some(25.0f64.to_bits()),
        max: Some(35.0f64.to_bits()),
    };
    assert!(vf.check_value(&AttributeValue::Integer(30)));
    assert!(!vf.check_value(&AttributeValue::Integer(40)));
    assert!(vf.check_value(&AttributeValue::Float(30.5f64.to_bits())));
}

#[test]
fn integer_to_float_bits_is_exact() {
    assert_eq!(int_to_float_bits(0), 0.0f64.to_bits());
    assert_eq!(int_to_float_bits(3), 3.0f64.to_bits());
    assert_eq!(int_to_float_bits(-7), (-7.0f64).to_bits());
    assert_eq!(int_to_float_bits(1 << 60), ((1i64 << 60) as f64).to_bits());
    assert_eq!(int_to_float_bits(i64::MAX), (i64::MAX as f64).to_bits());
    assert_eq!(int_to_float_bits(i64::MIN), (i64::MIN as f64).to_bits());
    assert_eq!(int_to_float_bits((1 << 60) + 1), (((1i64 << 60) + 1) as f64).to_bits());
}

#[test]
fn index_names_round_trip() {
    assert_eq!(ev_index_to_name(5), "ev_5");
    assert_eq!(ob_index_to_name(12), "ob_12");
    assert_eq!(
        string_to_index(&s("ev_5")),
        Some(EventOrObjectIndex::Event(5))
    );
    assert_eq!(
        string_to_index(&s("ob_12")),
        Some(EventOrObjectIndex::Object(12))
    );
    assert_eq!(string_to_index(&s("xx_3")), None);
}

#[test]
fn export_format_extensions() {
    assert_eq!(ExportFormat::XML.to_extension(), "xml");
    assert_eq!(ExportFormat::JSON.to_extension(), "json");
    assert_eq!(ExportFormat::SQLITE.to_extension(), "sqlite");
    let by_id = IndexOrID::ID(s("e1"));
    assert!(matches!(by_id, IndexOrID::ID(_)));
}

#[test]
fn id_lookups_and_counts() {
    let log = small_log();
    assert_eq!(log.num_events(), 2);
    assert_eq!(log.num_objects(), 1);
    assert_eq!(log.event_index_by_id(&s("e2")), Some(1));
    assert_eq!(log.object_index_by_id(&s("o1")), Some(0));
    assert_eq!(log.event_index_by_id(&s("nope")), None);
    assert_eq!(log.get_ev_time(0), 36_000_000);
    let names = vec![s("a"), s("b")];
    assert!(string_vec_contains(&names, &s("a")));
    assert!(!string_vec_contains(&names, &s("c")));
}

#[test]
fn cap_truncates_and_reports() {
    let log = small_log();
    let mut bbox = empty_box();
    bbox.new_event_vars = vec![
        (EventVariable(0), vec![s("Order"), s("Ship")]),
        (EventVariable(1), vec![s("Order"), s("Ship")]),
    ];
    // 2 x 2 = 4 candidate bindings, capped at 3
    let (bindings, skipped) = bbox.expand(Binding::empty(), &log, 3, &NoCel).unwrap();
    assert_eq!(bindings.len(), 3);
    assert!(skipped);
    // uncapped, all four appear
    let (all, skipped2) = bbox.expand(Binding::empty(), &log, MAX_BINDINGS, &NoCel).unwrap();
    assert_eq!(all.len(), 4);
    assert!(!skipped2);
}
