//! Filter predicates: pure boolean predicates over a binding and the log.
//!
//! Each filter kind has a ghost meaning (a spec function over the models)
//! and an executable check proved equal to it. A filter that reads a
//! variable without a value reports exactly which variable was unbound;
//! embedded expression programs are delegated to the caller's expression
//! environment and carry no promise.
use crate::binding::{lookup_any, lookup_ev_map, lookup_ob_map, Binding, BindingModel};
use crate::cel::CelEnv;
use crate::log::IndexedLog;
use crate::query::{
    EvalError, EventVariable, Filter, FilterModel, ObjectValueFilterTimepoint, ObjectVariable,
    ValueFilter, ValueFilterModel, Variable,
};
use crate::values::{
    float_le, float_le_spec, int_to_float_bits, int_to_float_bits_spec, AttrVal, AttributeValue,
};
use vstd::prelude::*;

verus! {

/// Whether a qualifier restriction accepts the actual qualifier: the
/// wildcard `None` accepts everything.
pub open spec fn qual_matches(q: Option<Seq<char>>, actual: Seq<char>) -> bool {
    match q {
        None => true,
        Some(s) => s == actual,
    }
}

/// Whether event `e` is related to object `o` under a qualifier accepted by `q`.
pub open spec fn o2e_holds(log: IndexedLog, e: int, o: int, q: Option<Seq<char>>) -> bool {
    exists|j: int|
        0 <= j < log.events@[e].e2o@.len() && (#[trigger] log.events@[e].e2o@[j]).1 == o
            && qual_matches(q, log.events@[e].e2o@[j].0@)
}

/// Whether object `o1` is related to object `o2` under a qualifier accepted by `q`.
pub open spec fn o2o_holds(log: IndexedLog, o1: int, o2: int, q: Option<Seq<char>>) -> bool {
    exists|j: int|
        0 <= j < log.objects@[o1].o2o@.len() && (#[trigger] log.objects@[o1].o2o@[j]).1 == o2
            && qual_matches(q, log.objects@[o1].o2o@[j].0@)
}

/// Whether the time from event `e1` to event `e2` lies within the bounds, in
/// milliseconds; an absent bound does not restrict.
pub open spec fn time_between_holds(
    log: IndexedLog,
    e1: int,
    e2: int,
    min_millis: Option<i64>,
    max_millis: Option<i64>,
) -> bool {
    let diff = log.events@[e2].time - log.events@[e1].time;
    &&& !(min_millis is Some && diff < min_millis->0)
    &&& !(max_millis is Some && diff > max_millis->0)
}

/// Whether `bits` lies within the optional double bounds, by the IEEE total
/// order.
pub open spec fn float_in_bounds(bits: u64, min: Option<u64>, max: Option<u64>) -> bool {
    &&& (min is None || float_le_spec(min->0, bits))
    &&& (max is None || float_le_spec(bits, max->0))
}

/// The meaning of a value filter on one attribute value: numeric kinds
/// cross-match by promotion to double, all other kind mismatches are false.
pub open spec fn value_filter_holds(vf: ValueFilterModel, val: AttrVal) -> bool {
    match vf {
        ValueFilterModel::Float { min, max } => match val {
            AttrVal::Float(bits) => float_in_bounds(bits, min, max),
            AttrVal::Integer(i) => float_in_bounds(int_to_float_bits_spec(i), min, max),
            _ => false,
        },
        ValueFilterModel::Integer { min, max } => match val {
            AttrVal::Integer(v) => {
                &&& !(min is Some && v < min->0)
                &&& !(max is Some && v > max->0)
            },
            AttrVal::Float(bits) => float_in_bounds(
                bits,
                match min {
                    Some(m) => Some(int_to_float_bits_spec(m)),
                    None => None,
                },
                match max {
                    Some(m) => Some(int_to_float_bits_spec(m)),
                    None => None,
                },
            ),
            _ => false,
        },
        ValueFilterModel::Boolean { is_true } => match val {
            AttrVal::Boolean(b) => b == is_true,
            _ => false,
        },
        ValueFilterModel::String { is_in } => match val {
            AttrVal::String(s) => is_in.contains(s),
            _ => false,
        },
        ValueFilterModel::Time { from, to } => match val {
            AttrVal::Timestamp(t) => {
                &&& !(from is Some && t < from->0)
                &&& !(to is Some && t > to->0)
            },
            _ => false,
        },
    }
}

/// The first value under `name` in an attribute list, if any.
pub open spec fn attr_lookup(attrs: Seq<(Seq<char>, AttrVal)>, name: Seq<char>) -> Option<AttrVal>
    decreases attrs.len(),
{
    if attrs.len() == 0 {
        None
    } else if attrs[0].0 == name {
        Some(attrs[0].1)
    } else {
        attr_lookup(attrs.skip(1), name)
    }
}

/// The latest value of `name` with valid-from time at most `t`; among equal
/// times the later entry wins, as a stable sort by time read from the back.
pub open spec fn latest_attr_at(
    attrs: Seq<(Seq<char>, AttrVal, i64)>,
    name: Seq<char>,
    t: i64,
) -> Option<(AttrVal, i64)>
    decreases attrs.len(),
{
    if attrs.len() == 0 {
        None
    } else {
        let rest = latest_attr_at(attrs.drop_last(), name, t);
        let last = attrs.last();
        if last.0 == name && last.2 <= t {
            match rest {
                None => Some((last.1, last.2)),
                Some(r) => if last.2 >= r.1 {
                    Some((last.1, last.2))
                } else {
                    Some(r)
                },
            }
        } else {
            rest
        }
    }
}

/// The meaning of an event attribute filter on event `e`: the names
/// `ocel:id` and `ocel:time` read the event's id and time, any other name
/// reads the first attribute of that name; a missing attribute is false.
pub open spec fn event_attr_holds(
    log: IndexedLog,
    e: int,
    name: Seq<char>,
    vf: ValueFilterModel,
) -> bool {
    if name == "ocel:id"@ {
        match vf {
            ValueFilterModel::String { is_in } => is_in.contains(log.events@[e].id@),
            _ => false,
        }
    } else if name == "ocel:time"@ {
        value_filter_holds(vf, AttrVal::Timestamp(log.events@[e].time))
    } else {
        match attr_lookup(log.events@[e].attributes.deep_view(), name) {
            Some(v) => value_filter_holds(vf, v),
            None => false,
        }
    }
}

/// The meaning of an object attribute filter on object `o`: object
/// attributes are time-valued, so the timepoint decides whether every value,
/// some value, or the latest value before the bound event is read.
pub open spec fn object_attr_holds(
    log: IndexedLog,
    o: int,
    name: Seq<char>,
    at_time: ObjectValueFilterTimepoint,
    vf: ValueFilterModel,
    b: BindingModel,
) -> bool {
    let attrs = log.objects@[o].attributes.deep_view();
    if name == "ocel:id"@ {
        match vf {
            ValueFilterModel::String { is_in } => is_in.contains(log.objects@[o].id@),
            _ => false,
        }
    } else {
        match at_time {
            ObjectValueFilterTimepoint::Always => forall|j: int|
                0 <= j < attrs.len() && (#[trigger] attrs[j]).0 == name ==> value_filter_holds(
                    vf,
                    attrs[j].1,
                ),
            ObjectValueFilterTimepoint::Sometime => exists|j: int|
                0 <= j < attrs.len() && (#[trigger] attrs[j]).0 == name && value_filter_holds(
                    vf,
                    attrs[j].1,
                ),
            ObjectValueFilterTimepoint::AtEvent { event } => match lookup_ev_map(
                b.event_map,
                event,
            ) {
                Some(e) => match latest_attr_at(attrs, name, log.events@[e as int].time) {
                    Some(v) => value_filter_holds(vf, v.0),
                    None => false,
                },
                None => false,
            },
        }
    }
}

/// The meaning of a filter on a binding: true exactly when the predicate
/// holds, taking an unbound variable of the attribute filters and of
/// `NotEqual` as false. Embedded expression filters are outside this model.
pub open spec fn filter_holds(f: FilterModel, b: BindingModel, log: IndexedLog) -> bool {
    match f {
        FilterModel::O2E { object, event, qualifier, .. } => match (
            lookup_ob_map(b.object_map, object),
            lookup_ev_map(b.event_map, event),
        ) {
            (Some(o), Some(e)) => o2e_holds(log, e as int, o as int, qualifier),
            _ => false,
        },
        FilterModel::O2O { object, other_object, qualifier, .. } => match (
            lookup_ob_map(b.object_map, object),
            lookup_ob_map(b.object_map, other_object),
        ) {
            (Some(o1), Some(o2)) => o2o_holds(log, o1 as int, o2 as int, qualifier),
            _ => false,
        },
        FilterModel::TimeBetweenEvents { from_event, to_event, min_millis, max_millis } => match (
            lookup_ev_map(b.event_map, from_event),
            lookup_ev_map(b.event_map, to_event),
        ) {
            (Some(e1), Some(e2)) => time_between_holds(
                log,
                e1 as int,
                e2 as int,
                min_millis,
                max_millis,
            ),
            _ => false,
        },
        FilterModel::NotEqual { var_1, var_2 } => {
            let v1 = lookup_any(b, var_1);
            let v2 = lookup_any(b, var_2);
            !(v1 is None || v2 is None || v1 == v2)
        },
        FilterModel::EventAttributeValueFilter { event, attribute_name, value_filter } => match lookup_ev_map(
            b.event_map,
            event,
        ) {
            Some(e) => event_attr_holds(log, e as int, attribute_name, value_filter),
            None => false,
        },
        FilterModel::ObjectAttributeValueFilter {
            object,
            attribute_name,
            at_time,
            value_filter,
        } => match lookup_ob_map(b.object_map, object) {
            Some(o) => object_attr_holds(log, o as int, attribute_name, at_time, value_filter, b),
            None => false,
        },
        FilterModel::BasicFilterCEL { .. } => false,
    }
}

/// The error a filter check reports, if any: the relational and temporal
/// filters demand their variables bound and name the first unbound one.
pub open spec fn filter_error(f: FilterModel, b: BindingModel) -> Option<EvalError> {
    match f {
        FilterModel::O2E { object, event, .. } => if lookup_ob_map(b.object_map, object) is None {
            Some(EvalError::UnboundObjectVariable(object))
        } else if lookup_ev_map(b.event_map, event) is None {
            Some(EvalError::UnboundEventVariable(event))
        } else {
            None
        },
        FilterModel::O2O { object, other_object, .. } => if lookup_ob_map(b.object_map, object) is None {
            Some(EvalError::UnboundObjectVariable(object))
        } else if lookup_ob_map(b.object_map, other_object) is None {
            Some(EvalError::UnboundObjectVariable(other_object))
        } else {
            None
        },
        FilterModel::TimeBetweenEvents { from_event, to_event, .. } => if lookup_ev_map(
            b.event_map,
            from_event,
        ) is None {
            Some(EvalError::UnboundEventVariable(from_event))
        } else if lookup_ev_map(b.event_map, to_event) is None {
            Some(EvalError::UnboundEventVariable(to_event))
        } else {
            None
        },
        _ => None,
    }
}

/// All event and object indices of a binding are valid for the log.
pub open spec fn binding_indices_valid(b: BindingModel, log: IndexedLog) -> bool {
    &&& forall|k: int|
        0 <= k < b.event_map.len() ==> (#[trigger] b.event_map[k]).1 < log.events@.len()
    &&& forall|k: int|
        0 <= k < b.object_map.len() ==> (#[trigger] b.object_map[k]).1 < log.objects@.len()
}

/// A bound event index is always in range for a valid binding.
pub proof fn lemma_lookup_ev_in_range_pub(b: BindingModel, log: IndexedLog, v: EventVariable)
    requires
        binding_indices_valid(b, log),
        lookup_ev_map(b.event_map, v) is Some,
    ensures
        lookup_ev_map(b.event_map, v)->0 < log.events@.len(),
{
    lemma_lookup_ev_member(b.event_map, v);
}

/// A bound object index is always in range for a valid binding.
pub proof fn lemma_lookup_ob_in_range_pub(b: BindingModel, log: IndexedLog, v: ObjectVariable)
    requires
        binding_indices_valid(b, log),
        lookup_ob_map(b.object_map, v) is Some,
    ensures
        lookup_ob_map(b.object_map, v)->0 < log.objects@.len(),
{
    lemma_lookup_ob_member(b.object_map, v);
}

/// A bound event index is always in range for a valid binding.
proof fn lemma_lookup_ev_in_range(b: BindingModel, log: IndexedLog, v: EventVariable)
    requires
        binding_indices_valid(b, log),
        lookup_ev_map(b.event_map, v) is Some,
    ensures
        lookup_ev_map(b.event_map, v)->0 < log.events@.len(),
{
    lemma_lookup_ev_member(b.event_map, v);
}

proof fn lemma_lookup_ev_member(s: Seq<(EventVariable, usize)>, v: EventVariable)
    requires
        lookup_ev_map(s, v) is Some,
    ensures
        exists|k: int| 0 <= k < s.len() && (#[trigger] s[k]).1 == lookup_ev_map(s, v)->0,
    decreases s.len(),
{
    if s.len() > 0 && s[0].0 != v {
        lemma_lookup_ev_member(s.skip(1), v);
        let k = choose|k: int|
            0 <= k < s.skip(1).len() && (#[trigger] s.skip(1)[k]).1 == lookup_ev_map(
                s.skip(1),
                v,
            )->0;
        assert(s[k + 1].1 == lookup_ev_map(s, v)->0);
    }
}

proof fn lemma_lookup_ob_member(s: Seq<(ObjectVariable, usize)>, v: ObjectVariable)
    requires
        lookup_ob_map(s, v) is Some,
    ensures
        exists|k: int| 0 <= k < s.len() && (#[trigger] s[k]).1 == lookup_ob_map(s, v)->0,
    decreases s.len(),
{
    if s.len() > 0 && s[0].0 != v {
        lemma_lookup_ob_member(s.skip(1), v);
        let k = choose|k: int|
            0 <= k < s.skip(1).len() && (#[trigger] s.skip(1)[k]).1 == lookup_ob_map(
                s.skip(1),
                v,
            )->0;
        assert(s[k + 1].1 == lookup_ob_map(s, v)->0);
    }
}

/// A bound object index is always in range for a valid binding.
proof fn lemma_lookup_ob_in_range(b: BindingModel, log: IndexedLog, v: ObjectVariable)
    requires
        binding_indices_valid(b, log),
        lookup_ob_map(b.object_map, v) is Some,
    ensures
        lookup_ob_map(b.object_map, v)->0 < log.objects@.len(),
{
    lemma_lookup_ob_member(b.object_map, v);
}

/// Whether some string of `v` equals `x`.
pub fn string_vec_contains(v: &Vec<String>, x: &String) -> (r: bool)
    ensures
        r == v.deep_view().contains(x@),
{
    let n = v.len();
    let mut i: usize = 0;
    while i < n
        invariant
            n == v@.len(),
            i <= n,
            forall|k: int| 0 <= k < i ==> v.deep_view()[k] != x@,
        decreases n - i,
    {
        if v[i] == *x {
            assert(v.deep_view()[i as int] == x@);
            return true;
        }
        i = i + 1;
    }
    assert(!v.deep_view().contains(x@));
    false
}

impl ValueFilter {
    /// Whether the attribute value passes this filter;
    /// exactly [`value_filter_holds`] of the models.
    pub fn check_value(&self, val: &AttributeValue) -> (r: bool)
        ensures
            r == value_filter_holds(self.deep_view(), val.deep_view()),
    {
        match self {
            ValueFilter::Float { min, max } => {
                let bits: u64 = match val {
                    AttributeValue::Float(b) => *b,
                    AttributeValue::Integer(i) => int_to_float_bits(*i),
                    _ => {
                        return false;
                    },
                };
                let min_ok = match min {
                    Some(m) => float_le(*m, bits),
                    None => true,
                };
                let max_ok = match max {
                    Some(m) => float_le(bits, *m),
                    None => true,
                };
                min_ok && max_ok
            },
            ValueFilter::Integer { min, max } => match val {
                AttributeValue::Integer(v) => {
                    let min_ok = match min {
                        Some(m) => *v >= *m,
                        None => true,
                    };
                    let max_ok = match max {
                        Some(m) => *v <= *m,
                        None => true,
                    };
                    min_ok && max_ok
                },
                AttributeValue::Float(bits) => {
                    let min_ok = match min {
                        Some(m) => float_le(int_to_float_bits(*m), *bits),
                        None => true,
                    };
                    let max_ok = match max {
                        Some(m) => float_le(*bits, int_to_float_bits(*m)),
                        None => true,
                    };
                    min_ok && max_ok
                },
                _ => false,
            },
            ValueFilter::Boolean { is_true } => match val {
                AttributeValue::Boolean(b) => *b == *is_true,
                _ => false,
            },
            ValueFilter::String { is_in } => match val {
                AttributeValue::String(s) => string_vec_contains(is_in, s),
                _ => false,
            },
            ValueFilter::Time { from, to } => match val {
                AttributeValue::Timestamp(t) => {
                    let from_ok = match from {
                        Some(m) => *t >= *m,
                        None => true,
                    };
                    let to_ok = match to {
                        Some(m) => *t <= *m,
                        None => true,
                    };
                    from_ok && to_ok
                },
                _ => false,
            },
        }
    }
}

/// Whether the qualifier restriction accepts the actual qualifier.
fn qual_matches_exec(q: &Option<String>, actual: &String) -> (r: bool)
    ensures
        r == qual_matches(
            match q {
                Some(s) => Some(s@),
                None => None,
            },
            actual@,
        ),
{
    match q {
        None => true,
        Some(s) => *s == *actual,
    }
}

impl Filter {
    /// Checks this filter on a binding.
    ///
    /// For every filter but an embedded expression: `Err` exactly when a
    /// variable the filter demands is unbound ([`filter_error`]), otherwise
    /// the result is exactly [`filter_holds`]. An embedded expression filter
    /// returns whatever the expression environment answers, including its
    /// compile error.
    pub fn check_binding<C: CelEnv>(
        &self,
        b: &Binding,
        log: &IndexedLog,
        cel: &C,
    ) -> (r: Result<bool, EvalError>)
        requires
            binding_indices_valid(b.deep_view(), *log),
        ensures
            match r {
                Ok(res) => filter_error(self.deep_view(), b.deep_view()) is None && (!(
                self.deep_view() is BasicFilterCEL) ==> res == filter_holds(
                    self.deep_view(),
                    b.deep_view(),
                    *log,
                )),
                Err(e) => self.deep_view() is BasicFilterCEL || filter_error(
                    self.deep_view(),
                    b.deep_view(),
                ) == Some(e),
            },
    {
        match self {
            Filter::O2E { object, event, qualifier, filter_label: _ } => {
                let o = match b.get_ob_index(object) {
                    Some(o) => o,
                    None => {
                        return Err(EvalError::UnboundObjectVariable(*object));
                    },
                };
                let e = match b.get_ev_index(event) {
                    Some(e) => e,
                    None => {
                        return Err(EvalError::UnboundEventVariable(*event));
                    },
                };
                proof {
                    lemma_lookup_ev_in_range(b.deep_view(), *log, *event);
                }
                let rels = &log.events[e].e2o;
                let n = rels.len();
                let mut j: usize = 0;
                while j < n
                    invariant
                        n == log.events@[e as int].e2o@.len(),
                        e < log.events@.len(),
                        j <= n,
                        rels == &log.events@[e as int].e2o,
                        forall|k: int|
                            0 <= k < j ==> !((#[trigger] log.events@[e as int].e2o@[k]).1 == o
                                && qual_matches(
                                qualifier_view_of(qualifier),
                                log.events@[e as int].e2o@[k].0@,
                            )),
                    decreases n - j,
                {
                    if rels[j].1 == o && qual_matches_exec(qualifier, &rels[j].0) {
                        proof {
                            assert(log.events@[e as int].e2o@[j as int].1 == o && qual_matches(
                                qualifier_view_of(qualifier),
                                log.events@[e as int].e2o@[j as int].0@,
                            ));
                        }
                        return Ok(true);
                    }
                    j = j + 1;
                }
                Ok(false)
            },
            Filter::O2O { object, other_object, qualifier, filter_label: _ } => {
                let o1 = match b.get_ob_index(object) {
                    Some(o) => o,
                    None => {
                        return Err(EvalError::UnboundObjectVariable(*object));
                    },
                };
                let o2 = match b.get_ob_index(other_object) {
                    Some(o) => o,
                    None => {
                        return Err(EvalError::UnboundObjectVariable(*other_object));
                    },
                };
                proof {
                    lemma_lookup_ob_in_range(b.deep_view(), *log, *object);
                }
                let rels = &log.objects[o1].o2o;
                let n = rels.len();
                let mut j: usize = 0;
                while j < n
                    invariant
                        n == log.objects@[o1 as int].o2o@.len(),
                        o1 < log.objects@.len(),
                        j <= n,
                        rels == &log.objects@[o1 as int].o2o,
                        forall|k: int|
                            0 <= k < j ==> !((#[trigger] log.objects@[o1 as int].o2o@[k]).1 == o2
                                && qual_matches(
                                qualifier_view_of(qualifier),
                                log.objects@[o1 as int].o2o@[k].0@,
                            )),
                    decreases n - j,
                {
                    if rels[j].1 == o2 && qual_matches_exec(qualifier, &rels[j].0) {
                        proof {
                            assert(log.objects@[o1 as int].o2o@[j as int].1 == o2 && qual_matches(
                                qualifier_view_of(qualifier),
                                log.objects@[o1 as int].o2o@[j as int].0@,
                            ));
                        }
                        return Ok(true);
                    }
                    j = j + 1;
                }
                Ok(false)
            },
            Filter::TimeBetweenEvents { from_event, to_event, min_millis, max_millis } => {
                let e1 = match b.get_ev_index(from_event) {
                    Some(e) => e,
                    None => {
                        return Err(EvalError::UnboundEventVariable(*from_event));
                    },
                };
                let e2 = match b.get_ev_index(to_event) {
                    Some(e) => e,
                    None => {
                        return Err(EvalError::UnboundEventVariable(*to_event));
                    },
                };
                proof {
                    lemma_lookup_ev_in_range(b.deep_view(), *log, *from_event);
                    lemma_lookup_ev_in_range(b.deep_view(), *log, *to_event);
                }
                let diff: i128 = log.events[e2].time as i128 - log.events[e1].time as i128;
                let min_ok = match min_millis {
                    Some(m) => diff >= *m as i128,
                    None => true,
                };
                let max_ok = match max_millis {
                    Some(m) => diff <= *m as i128,
                    None => true,
                };
                Ok(min_ok && max_ok)
            },
            Filter::NotEqual { var_1, var_2 } => {
                match (b.get_any_index(var_1), b.get_any_index(var_2)) {
                    (Some(v1), Some(v2)) => Ok(v1 != v2),
                    _ => Ok(false),
                }
            },
            Filter::EventAttributeValueFilter { event, attribute_name, value_filter } => {
                let e = match b.get_ev_index(event) {
                    Some(e) => e,
                    None => {
                        return Ok(false);
                    },
                };
                proof {
                    lemma_lookup_ev_in_range(b.deep_view(), *log, *event);
                }
                let id_key: String = "ocel:id".to_owned();
                let time_key: String = "ocel:time".to_owned();
                if *attribute_name == id_key {
                    match value_filter {
                        ValueFilter::String { is_in } => Ok(
                            string_vec_contains(is_in, &log.events[e].id),
                        ),
                        _ => Ok(false),
                    }
                } else if *attribute_name == time_key {
                    let tv = AttributeValue::Timestamp(log.events[e].time);
                    Ok(value_filter.check_value(&tv))
                } else {
                    let attrs = &log.events[e].attributes;
                    let n = attrs.len();
                    let mut j: usize = 0;
                    proof {
                        assert(attrs.deep_view().skip(0) =~= attrs.deep_view());
                    }
                    while j < n
                        invariant
                            n == attrs@.len(),
                            j <= n,
                            attrs == &log.events@[e as int].attributes,
                            e < log.events@.len(),
                            attr_lookup(attrs.deep_view(), attribute_name@) == attr_lookup(
                                attrs.deep_view().skip(j as int),
                                attribute_name@,
                            ),
                        decreases n - j,
                    {
                        proof {
                            assert(attrs.deep_view().skip(j as int)[0] == attrs.deep_view()[j as int]);
                            assert(attrs.deep_view().skip(j as int).skip(1) =~= attrs.deep_view().skip(
                                j + 1,
                            ));
                        }
                        if attrs[j].0 == *attribute_name {
                            proof {
                                assert(attrs.deep_view()[j as int].0 == attrs@[j as int].0@);
                                assert(attrs.deep_view()[j as int].1 == attrs@[
                                    j as int
                                ].1.deep_view());
                            }
                            return Ok(value_filter.check_value(&attrs[j].1));
                        }
                        j = j + 1;
                    }
                    Ok(false)
                }
            },
            Filter::ObjectAttributeValueFilter { object, attribute_name, at_time, value_filter } => {
                let o = match b.get_ob_index(object) {
                    Some(o) => o,
                    None => {
                        return Ok(false);
                    },
                };
                proof {
                    lemma_lookup_ob_in_range(b.deep_view(), *log, *object);
                }
                let id_key: String = "ocel:id".to_owned();
                if *attribute_name == id_key {
                    match value_filter {
                        ValueFilter::String { is_in } => Ok(
                            string_vec_contains(is_in, &log.objects[o].id),
                        ),
                        _ => Ok(false),
                    }
                } else {
                    let attrs = &log.objects[o].attributes;
                    let n = attrs.len();
                    match at_time {
                        ObjectValueFilterTimepoint::Always => {
                            let mut j: usize = 0;
                            while j < n
                                invariant
                                    n == attrs@.len(),
                                    j <= n,
                                    attrs == &log.objects@[o as int].attributes,
                                    o < log.objects@.len(),
                                    forall|k: int|
                                        0 <= k < j && (#[trigger] attrs.deep_view()[k]).0
                                            == attribute_name@ ==> value_filter_holds(
                                            value_filter.deep_view(),
                                            attrs.deep_view()[k].1,
                                        ),
                                decreases n - j,
                            {
                                if attrs[j].0 == *attribute_name {
                                    proof {
                                        assert(attrs.deep_view()[j as int].0 == attrs@[
                                            j as int
                                        ].0@);
                                        assert(attrs.deep_view()[j as int].1 == attrs@[
                                            j as int
                                        ].1.deep_view());
                                    }
                                    if !value_filter.check_value(&attrs[j].1) {
                                        return Ok(false);
                                    }
                                }
                                j = j + 1;
                            }
                            Ok(true)
                        },
                        ObjectValueFilterTimepoint::Sometime => {
                            let mut j: usize = 0;
                            while j < n
                                invariant
                                    n == attrs@.len(),
                                    j <= n,
                                    attrs == &log.objects@[o as int].attributes,
                                    o < log.objects@.len(),
                                    forall|k: int|
                                        0 <= k < j ==> !((#[trigger] attrs.deep_view()[k]).0
                                            == attribute_name@ && value_filter_holds(
                                            value_filter.deep_view(),
                                            attrs.deep_view()[k].1,
                                        )),
                                decreases n - j,
                            {
                                if attrs[j].0 == *attribute_name {
                                    proof {
                                        assert(attrs.deep_view()[j as int].0 == attrs@[
                                            j as int
                                        ].0@);
                                        assert(attrs.deep_view()[j as int].1 == attrs@[
                                            j as int
                                        ].1.deep_view());
                                    }
                                    if value_filter.check_value(&attrs[j].1) {
                                        return Ok(true);
                                    }
                                }
                                j = j + 1;
                            }
                            Ok(false)
                        },
                        ObjectValueFilterTimepoint::AtEvent { event } => {
                            let e = match b.get_ev_index(event) {
                                Some(e) => e,
                                None => {
                                    return Ok(false);
                                },
                            };
                            proof {
                                lemma_lookup_ev_in_range(b.deep_view(), *log, *event);
                            }
                            let t = log.events[e].time;
                            let mut best: Option<usize> = None;
                            let mut j: usize = 0;
                            proof {
                                assert(attrs.deep_view().take(0) =~= Seq::<
                                    (Seq<char>, AttrVal, i64),
                                >::empty());
                            }
                            while j < n
                                invariant
                                    n == attrs@.len(),
                                    j <= n,
                                    attrs == &log.objects@[o as int].attributes,
                                    o < log.objects@.len(),
                                    match best {
                                        Some(k) => k < j && latest_attr_at(
                                            attrs.deep_view().take(j as int),
                                            attribute_name@,
                                            t,
                                        ) == Some(
                                            (attrs.deep_view()[k as int].1, attrs.deep_view()[k as int].2),
                                        ),
                                        None => latest_attr_at(
                                            attrs.deep_view().take(j as int),
                                            attribute_name@,
                                            t,
                                        ) is None,
                                    },
                                decreases n - j,
                            {
                                proof {
                                    assert(attrs.deep_view().take(j + 1).drop_last()
                                        =~= attrs.deep_view().take(j as int));
                                    assert(attrs.deep_view().take(j + 1).last()
                                        == attrs.deep_view()[j as int]);
                                }
                                if attrs[j].0 == *attribute_name && attrs[j].2 <= t {
                                    match best {
                                        Some(k) => {
                                            if attrs[j].2 >= attrs[k].2 {
                                                best = Some(j);
                                            }
                                        },
                                        None => {
                                            best = Some(j);
                                        },
                                    }
                                }
                                j = j + 1;
                            }
                            proof {
                                assert(attrs.deep_view().take(n as int) =~= attrs.deep_view());
                            }
                            match best {
                                Some(k) => Ok(value_filter.check_value(&attrs[k].1)),
                                None => Ok(false),
                            }
                        },
                    }
                }
            },
            Filter::BasicFilterCEL { cel: program, event_vars: _, object_vars: _ } => {
                cel.eval_predicate(program, b, None, log)
            },
        }
    }

    /// The variables this filter reads, in declaration order.
    pub fn get_involved_variables(&self) -> (r: Vec<Variable>)
        ensures
            r@ == involved_vars(self.deep_view()),
    {
        let mut out: Vec<Variable> = Vec::new();
        match self {
            Filter::O2E { object, event, .. } => {
                out.push(Variable::Object(*object));
                out.push(Variable::Event(*event));
            },
            Filter::O2O { object, other_object, .. } => {
                out.push(Variable::Object(*object));
                out.push(Variable::Object(*other_object));
            },
            Filter::TimeBetweenEvents { from_event, to_event, .. } => {
                out.push(Variable::Event(*from_event));
                out.push(Variable::Event(*to_event));
            },
            Filter::NotEqual { var_1, var_2 } => {
                out.push(*var_1);
                out.push(*var_2);
            },
            Filter::EventAttributeValueFilter { event, .. } => {
                out.push(Variable::Event(*event));
            },
            Filter::ObjectAttributeValueFilter { object, at_time, .. } => {
                out.push(Variable::Object(*object));
                if let ObjectValueFilterTimepoint::AtEvent { event } = at_time {
                    out.push(Variable::Event(*event));
                }
            },
            Filter::BasicFilterCEL { cel: _, event_vars, object_vars } => {
                let mut i: usize = 0;
                let n = event_vars.len();
                while i < n
                    invariant
                        n == event_vars@.len(),
                        i <= n,
                        out@ =~= event_vars@.take(i as int).map_values(
                            |v: EventVariable| Variable::Event(v),
                        ),
                    decreases n - i,
                {
                    out.push(Variable::Event(event_vars[i]));
                    proof {
                        assert(event_vars@.take(i + 1).drop_last() =~= event_vars@.take(i as int));
                        assert(out@ =~= event_vars@.take(i + 1).map_values(
                            |v: EventVariable| Variable::Event(v),
                        ));
                    }
                    i = i + 1;
                }
                proof {
                    assert(event_vars@.take(n as int) =~= event_vars@);
                }
                let mut i2: usize = 0;
                let n2 = object_vars.len();
                while i2 < n2
                    invariant
                        n2 == object_vars@.len(),
                        i2 <= n2,
                        out@ =~= event_vars@.map_values(|v: EventVariable| Variable::Event(v))
                            + object_vars@.take(i2 as int).map_values(
                            |v: ObjectVariable| Variable::Object(v),
                        ),
                    decreases n2 - i2,
                {
                    out.push(Variable::Object(object_vars[i2]));
                    proof {
                        assert(object_vars@.take(i2 + 1).drop_last() =~= object_vars@.take(
                            i2 as int,
                        ));
                        assert(out@ =~= event_vars@.map_values(
                            |v: EventVariable| Variable::Event(v),
                        ) + object_vars@.take(i2 + 1).map_values(
                            |v: ObjectVariable| Variable::Object(v),
                        ));
                    }
                    i2 = i2 + 1;
                }
                proof {
                    assert(object_vars@.take(n2 as int) =~= object_vars@);
                }
            },
        }
        proof {
            assert(out@ =~= involved_vars(self.deep_view()));
        }
        out
    }
}

/// Ghost view of a qualifier reference.
pub open spec fn qualifier_view_of(q: &Option<String>) -> Option<Seq<char>> {
    match q {
        Some(s) => Some(s@),
        None => None,
    }
}

/// The variables a filter reads, in declaration order: both endpoints of the
/// relational and temporal filters, the variables of the attribute filters,
/// and the declared variables of an embedded expression.
pub open spec fn involved_vars(f: FilterModel) -> Seq<Variable> {
    match f {
        FilterModel::O2E { object, event, .. } => seq![
            Variable::Object(object),
            Variable::Event(event),
        ],
        FilterModel::O2O { object, other_object, .. } => seq![
            Variable::Object(object),
            Variable::Object(other_object),
        ],
        FilterModel::TimeBetweenEvents { from_event, to_event, .. } => seq![
            Variable::Event(from_event),
            Variable::Event(to_event),
        ],
        FilterModel::NotEqual { var_1, var_2 } => seq![var_1, var_2],
        FilterModel::EventAttributeValueFilter { event, .. } => seq![Variable::Event(event)],
        FilterModel::ObjectAttributeValueFilter { object, at_time, .. } => match at_time {
            ObjectValueFilterTimepoint::AtEvent { event } => seq![
                Variable::Object(object),
                Variable::Event(event),
            ],
            _ => seq![Variable::Object(object)],
        },
        FilterModel::BasicFilterCEL { event_vars, object_vars, .. } => event_vars.map_values(
            |v: EventVariable| Variable::Event(v),
        ) + object_vars.map_values(|v: ObjectVariable| Variable::Object(v)),
    }
}

} // verus!
