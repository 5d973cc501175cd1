use ocpq::binding::Binding;
use ocpq::cel::NoCel;
use ocpq::cel_values::{cel_event_attr, cel_object_attr_at, cel_sum, ev_name_to_index};
use ocpq::evaluate::evaluate_box_tree;
use ocpq::expand::MAX_BINDINGS;
use ocpq::filter_log::filter_ocel_box_tree;
use ocpq::log::{EventInput, IndexedLog, LogInput, ObjectInput};
use ocpq::query::{
    BindingBox, BindingBoxTree, BindingBoxTreeNode, Constraint, EvalError, EventVariable, Filter,
    FilterLabel, ObjectVariable, SizeFilter, Variable, ViolationReason,
};
use ocpq::text::ev_index_to_name;
use ocpq::values::{AttributeValue, LabelValue};

fn s(x: &str) -> String {
    x.to_string()
}

fn small_log() -> IndexedLog {
    let input = LogInput {
        event_types: vec![s("Order"), s("Ship")],
        object_types: vec![s("Order")],
        events: vec![
            EventInput {
                id: s("e1"),
                event_type: s("Order"),
                time: 36_000_000,
                attributes: vec![(s("amount"), AttributeValue::Integer(30))],
                relationships: vec![(s("ref"), s("o1"))],
            },
            EventInput {
                id: s("e2"),
                event_type: s("Ship"),
                time: 36_300_000,
                attributes: vec![],
                relationships: vec![],
            },
        ],
        objects: vec![ObjectInput {
            id: s("o1"),
            object_type: s("Order"),
            attributes: vec![
                (s("state"), AttributeValue::String(s("new")), 100),
                (s("state"), AttributeValue::String(s("paid")), 200),
            ],
            relationships: vec![],
        }],
    };
    IndexedLog::build(input).unwrap()
}

fn empty_box() -> BindingBox {
    BindingBox {
        new_event_vars: vec![],
        new_object_vars: vec![],
        filters: vec![],
        size_filters: vec![],
        constraints: vec![],
        ev_var_labels: vec![],
        ob_var_labels: vec![],
        labels: vec![],
    }
}

/// The tree used by the combinator tests: node 0 binds the order event,
/// node 1 combines nodes 2 and 3, node 2 joins the order object (always
/// satisfied), node 3 binds the shipment under an impossible time window
/// (always violated).
fn combinator_tree(combine_and: bool) -> BindingBoxTree {
    let mut root = empty_box();
    root.new_event_vars = vec![(EventVariable(0), vec![s("Order")])];
    let mut sat_box = empty_box();
    sat_box.new_object_vars = vec![(ObjectVariable(0), vec![s("Order")])];
    sat_box.filters = vec![Filter::O2E {
        object: ObjectVariable(0),
        event: EventVariable(0),
        qualifier: None,
        filter_label: None,
    }];
    let mut bad_box = empty_box();
    bad_box.new_event_vars = vec![(EventVariable(1), vec![s("Ship")])];
    bad_box.constraints = vec![Constraint::Filter {
        filter: Filter::TimeBetweenEvents {
            from_event: EventVariable(0),
            to_event: EventVariable(1),
            min_millis: None,
            max_millis: Some(-1),
        },
    }];
    let combiner = if combine_and {
        BindingBoxTreeNode::AND(2, 3)
    } else {
        BindingBoxTreeNode::OR(2, 3)
    };
    BindingBoxTree {
        nodes: vec![
            BindingBoxTreeNode::Box(root, vec![1]),
            combiner,
            BindingBoxTreeNode::Box(sat_box, vec![]),
            BindingBoxTreeNode::Box(bad_box, vec![]),
        ],
        edge_names: vec![],
    }
}

#[test]
fn and_combinator_reports_violated_child() {
    let log = small_log();
    let tree = combinator_tree(true);
    let out = evaluate_box_tree(&tree, &log, &NoCel, MAX_BINDINGS).unwrap();
    assert_eq!(out.evaluation_results.len(), 4);
    assert!(!out.bindings_skipped);
    // the AND node sees a violated binding under its second child
    let and_node = &out.evaluation_results[1];
    assert_eq!(and_node.situation_count, 1);
    assert_eq!(and_node.situation_violated_count, 1);
    assert!(matches!(
        and_node.situations[0].1,
        Some(ViolationReason::ConstraintNotSatisfied(0))
    ));
    // the join child is satisfied, the time-window child is violated
    assert_eq!(out.evaluation_results[2].situation_violated_count, 0);
    assert_eq!(out.evaluation_results[2].situation_count, 1);
    assert_eq!(out.evaluation_results[3].situation_count, 1);
    assert_eq!(out.evaluation_results[3].situation_violated_count, 1);
    assert!(matches!(
        out.evaluation_results[3].situations[0].1,
        Some(ViolationReason::ConstraintNotSatisfied(0))
    ));
}

#[test]
fn or_combinator_satisfied_by_one_child() {
    let log = small_log();
    let tree = combinator_tree(false);
    let out = evaluate_box_tree(&tree, &log, &NoCel, MAX_BINDINGS).unwrap();
    let or_node = &out.evaluation_results[1];
    assert_eq!(or_node.situation_count, 1);
    assert_eq!(or_node.situation_violated_count, 0);
    assert!(or_node.situations[0].1.is_none());
}

#[test]
fn evaluation_reports_log_ids() {
    let log = small_log();
    let mut root = empty_box();
    root.new_event_vars = vec![(EventVariable(0), vec![s("Order")])];
    let tree = BindingBoxTree {
        nodes: vec![BindingBoxTreeNode::Box(root, vec![])],
        edge_names: vec![],
    };
    let out = evaluate_box_tree(&tree, &log, &NoCel, MAX_BINDINGS).unwrap();
    assert_eq!(out.event_ids, vec![s("e1"), s("e2")]);
    assert_eq!(out.object_ids, vec![s("o1")]);
    assert_eq!(out.evaluation_results[0].situation_count, 1);
}

#[test]
fn projection_keeps_unbound_variables_distinct() {
    let log = small_log();
    let bound = Binding::empty().expand_with_ob(ObjectVariable(0), 0);
    let bound_again = Binding::empty().expand_with_ob(ObjectVariable(0), 0);
    // child A projects to {o1, unbound}, child B to {o1} alone: the sets
    // differ because the unbound entry participates
    let child_res = vec![
        (s("A"), vec![(bound, None), (Binding::empty(), None)]),
        (s("B"), vec![(bound_again, None)]),
    ];
    let filter = SizeFilter::BindingSetProjectionEqual {
        child_name_with_var_name: vec![
            (s("A"), Variable::Object(ObjectVariable(0))),
            (s("B"), Variable::Object(ObjectVariable(0))),
        ],
    };
    let r = filter.check(&Binding::empty(), &child_res, &log, &NoCel);
    assert!(matches!(r, Ok(false)));
}

#[test]
fn projection_equal_when_unbound_on_both_sides() {
    let log = small_log();
    let bound = Binding::empty().expand_with_ob(ObjectVariable(0), 0);
    let bound_again = Binding::empty().expand_with_ob(ObjectVariable(0), 0);
    let child_res = vec![
        (s("A"), vec![(bound, None), (Binding::empty(), None)]),
        (s("B"), vec![(Binding::empty(), None), (bound_again, None)]),
    ];
    let filter = SizeFilter::BindingSetProjectionEqual {
        child_name_with_var_name: vec![
            (s("A"), Variable::Object(ObjectVariable(0))),
            (s("B"), Variable::Object(ObjectVariable(0))),
        ],
    };
    let r = filter.check(&Binding::empty(), &child_res, &log, &NoCel);
    assert!(matches!(r, Ok(true)));
}

#[test]
fn expression_compile_failure_surfaces() {
    let log = small_log();
    let mut bbox = empty_box();
    bbox.new_event_vars = vec![(EventVariable(0), vec![s("Order")])];
    bbox.filters = vec![Filter::BasicFilterCEL {
        cel: s("true"),
        event_vars: vec![EventVariable(0)],
        object_vars: vec![],
    }];
    // the empty environment compiles nothing, so the error must surface
    // instead of silently dropping the filter
    let r = bbox.expand(Binding::empty(), &log, MAX_BINDINGS, &NoCel);
    assert!(matches!(r, Err(EvalError::ExpressionCompile)));
}

#[test]
fn filtering_keeps_only_included_events() {
    let log = small_log();
    let mut root = empty_box();
    root.new_event_vars = vec![(EventVariable(0), vec![s("Order")])];
    root.ev_var_labels = vec![(EventVariable(0), FilterLabel::INCLUDED)];
    let tree = BindingBoxTree {
        nodes: vec![BindingBoxTreeNode::Box(root, vec![])],
        edge_names: vec![],
    };
    let out = filter_ocel_box_tree(&tree, &log, &NoCel, MAX_BINDINGS).unwrap();
    assert_eq!(out.events.len(), 1);
    assert_eq!(out.events[0].id, s("e1"));
    // no object carries an included label, so none survives, and the
    // surviving event loses its relationship to the dropped object
    assert!(out.objects.is_empty());
    assert!(out.events[0].relationships.is_empty());
}

#[test]
fn attr_primitive_reads_first_value() {
    let log = small_log();
    let amount = s("amount");
    assert!(matches!(
        cel_event_attr(&log, 0, &amount),
        Some(AttributeValue::Integer(30))
    ));
    assert!(cel_event_attr(&log, 1, &amount).is_none());
}

#[test]
fn attr_at_primitive_respects_time() {
    let log = small_log();
    let state = s("state");
    assert!(cel_object_attr_at(&log, 0, &state, 50).is_none());
    match cel_object_attr_at(&log, 0, &state, 150) {
        Some(AttributeValue::String(v)) => assert_eq!(v, s("new")),
        other => panic!("unexpected value: {other:?}"),
    }
    match cel_object_attr_at(&log, 0, &state, 300) {
        Some(AttributeValue::String(v)) => assert_eq!(v, s("paid")),
        other => panic!("unexpected value: {other:?}"),
    }
}

#[test]
fn sum_primitive_reads_ints_and_numeric_strings() {
    let xs = vec![
        LabelValue::Int(5),
        LabelValue::String(s("7")),
        LabelValue::String(s("junk")),
        LabelValue::Bool(true),
    ];
    assert_eq!(cel_sum(&xs), Some(12));
    let overflow = vec![LabelValue::Int(i64::MAX), LabelValue::Int(1)];
    assert_eq!(cel_sum(&overflow), None);
}

#[test]
fn index_names_parse_back() {
    assert_eq!(ev_name_to_index(&ev_index_to_name(42)), Some(42));
    assert_eq!(ev_name_to_index(&s("ob_42")), None);
    assert_eq!(ev_name_to_index(&s("ev_")), None);
    assert_eq!(ev_name_to_index(&s("ev_x")), None);
}

#[test]
fn binding_variable_lists_and_id_string() {
    let log = small_log();
    let b = Binding::empty()
        .expand_with_ev(EventVariable(1), 0)
        .expand_with_ob(ObjectVariable(0), 0);
    assert_eq!(b.get_all_ev_vars(), vec![EventVariable(1)]);
    assert_eq!(b.get_all_ob_vars(), vec![ObjectVariable(0)]);
    assert_eq!(b.to_id_string(&log), s("e1, o1, "));
}

#[test]
fn tree_variable_sets_and_as_box() {
    let tree = combinator_tree(true);
    let evs = tree.get_ev_vars();
    assert_eq!(evs.len(), 2);
    assert!(evs.contains(&EventVariable(0)));
    assert!(evs.contains(&EventVariable(1)));
    assert_eq!(tree.get_ob_vars(), vec![ObjectVariable(0)]);
    assert!(tree.nodes[0].as_box().is_some());
    assert!(tree.nodes[1].as_box().is_none());
}

#[test]
fn trimmed_clone_keeps_counts_and_ids() {
    let log = small_log();
    let tree = combinator_tree(true);
    let out = evaluate_box_tree(&tree, &log, &NoCel, MAX_BINDINGS).unwrap();
    let trimmed = out.clone_first_few();
    assert_eq!(trimmed.evaluation_results.len(), out.evaluation_results.len());
    for (t, o) in trimmed.evaluation_results.iter().zip(out.evaluation_results.iter()) {
        assert_eq!(t.situation_count, o.situation_count);
        assert_eq!(t.situation_violated_count, o.situation_violated_count);
        assert_eq!(t.situations.len(), o.situations.len());
    }
    assert_eq!(trimmed.event_ids, out.event_ids);
    assert_eq!(trimmed.object_ids, out.object_ids);
    assert_eq!(trimmed.bindings_skipped, out.bindings_skipped);
}
