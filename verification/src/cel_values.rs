//! Primitive accessors behind the expression language.
//!
//! Each expression-language primitive that reads the log (`type`, `id`,
//! `attr`, `attrAt`, `attrs`, `time`, `numEvents`, `numObjects`, `events`,
//! `objects`, `sum`) is a verified function here, from plain values to
//! plain values; the expression interpreter's bridge only parses the
//! `ev_<i>` / `ob_<i>` variable names and forwards to these.
use crate::filter_log::{clone_attributes, clone_timed_attributes};
use crate::filters::{attr_lookup, latest_attr_at};
use crate::log::IndexedLog;
use crate::text::{ev_index_name_spec, ev_index_to_name, ob_index_name_spec, ob_index_to_name};
use crate::text::{parse_i64_chars, parse_i64_spec};
use crate::values::{AttributeValue, LabelValue};
use vstd::prelude::*;

verus! {

/// The index encoded by `s` under the two-letter prefix `c0 c1` and an
/// underscore: `Some(i)` exactly when `s` is the prefix followed by a
/// non-negative signed decimal.
pub open spec fn prefixed_index_spec(s: Seq<char>, c0: char, c1: char) -> Option<usize> {
    if s.len() >= 3 && s[0] == c0 && s[1] == c1 && s[2] == '_' {
        match parse_i64_spec(s.skip(3)) {
            Some(v) => if v >= 0 {
                Some(v as usize)
            } else {
                Option::<usize>::None
            },
            Option::<i64>::None => Option::<usize>::None,
        }
    } else {
        Option::<usize>::None
    }
}

/// Parses an index name of the given two-letter prefix.
fn parse_prefixed(cs: &Vec<char>, c0: char, c1: char) -> (r: Option<usize>)
    ensures
        r == prefixed_index_spec(cs@, c0, c1),
{
    if cs.len() < 3 || cs[0] != c0 || cs[1] != c1 || cs[2] != '_' {
        return Option::<usize>::None;
    }
    let n = cs.len();
    let mut rest: Vec<char> = Vec::new();
    let mut i: usize = 3;
    while i < n
        invariant
            3 <= i <= n,
            n == cs@.len(),
            rest@ =~= cs@.skip(3).take(i - 3),
        decreases n - i,
    {
        rest.push(cs[i]);
        i = i + 1;
    }
    proof {
        assert(rest@ =~= cs@.skip(3));
    }
    match parse_i64_chars(&rest) {
        Some(v) => if v >= 0 {
            Some(v as usize)
        } else {
            Option::<usize>::None
        },
        Option::<i64>::None => Option::<usize>::None,
    }
}

/// The event index named by `s` in the expression language (`ev_<i>`).
pub fn ev_name_to_index(s: &String) -> (r: Option<usize>)
    ensures
        r == prefixed_index_spec(s@, 'e', 'v'),
{
    let cs = crate::outside::chars_vec(s.as_str());
    parse_prefixed(&cs, 'e', 'v')
}

/// The object index named by `s` in the expression language (`ob_<i>`).
pub fn ob_name_to_index(s: &String) -> (r: Option<usize>)
    ensures
        r == prefixed_index_spec(s@, 'o', 'b'),
{
    let cs = crate::outside::chars_vec(s.as_str());
    parse_prefixed(&cs, 'o', 'b')
}

/// The `type` primitive on an event: the name of the event's type.
pub fn cel_event_type(log: &IndexedLog, e: usize) -> (r: String)
    requires
        log.wf(),
        e < log.events@.len(),
    ensures
        r@ == log.event_types@[log.events@[e as int].type_index as int]@,
{
    log.event_types[log.events[e].type_index].clone()
}

/// The `type` primitive on an object: the name of the object's type.
pub fn cel_object_type(log: &IndexedLog, o: usize) -> (r: String)
    requires
        log.wf(),
        o < log.objects@.len(),
    ensures
        r@ == log.object_types@[log.objects@[o as int].type_index as int]@,
{
    log.object_types[log.objects[o].type_index].clone()
}

/// The `id` primitive on an event.
pub fn cel_event_id(log: &IndexedLog, e: usize) -> (r: String)
    requires
        e < log.events@.len(),
    ensures
        r@ == log.events@[e as int].id@,
{
    log.events[e].id.clone()
}

/// The `id` primitive on an object.
pub fn cel_object_id(log: &IndexedLog, o: usize) -> (r: String)
    requires
        o < log.objects@.len(),
    ensures
        r@ == log.objects@[o as int].id@,
{
    log.objects[o].id.clone()
}

/// The `time` primitive: the event's timestamp in milliseconds.
pub fn cel_event_time(log: &IndexedLog, e: usize) -> (r: i64)
    requires
        e < log.events@.len(),
    ensures
        r == log.events@[e as int].time,
{
    log.events[e].time
}

/// The `attr` primitive on an event: the first attribute of that name.
pub fn cel_event_attr(log: &IndexedLog, e: usize, name: &String) -> (r: Option<AttributeValue>)
    requires
        e < log.events@.len(),
    ensures
        r.deep_view() == attr_lookup(log.events@[e as int].attributes.deep_view(), name@),
{
    let attrs = &log.events[e].attributes;
    let n = attrs.len();
    let mut j: usize = 0;
    proof {
        assert(attrs.deep_view().skip(0) =~= attrs.deep_view());
    }
    while j < n
        invariant
            n == attrs@.len(),
            j <= n,
            attrs == &log.events@[e as int].attributes,
            e < log.events@.len(),
            attr_lookup(attrs.deep_view(), name@) == attr_lookup(
                attrs.deep_view().skip(j as int),
                name@,
            ),
        decreases n - j,
    {
        proof {
            assert(attrs.deep_view().skip(j as int)[0] == attrs.deep_view()[j as int]);
            assert(attrs.deep_view().skip(j as int).skip(1) =~= attrs.deep_view().skip(j + 1));
        }
        if attrs[j].0 == *name {
            proof {
                assert(attrs.deep_view()[j as int].0 == attrs@[j as int].0@);
                assert(attrs.deep_view()[j as int].1 == attrs@[j as int].1.deep_view());
            }
            return Some(attrs[j].1.clone());
        }
        j = j + 1;
    }
    Option::<AttributeValue>::None
}

/// The `attr` primitive on an object: the first attribute of that name,
/// regardless of its valid-from time.
pub fn cel_object_attr(log: &IndexedLog, o: usize, name: &String) -> (r: Option<AttributeValue>)
    requires
        o < log.objects@.len(),
    ensures
        (match r {
            Some(v) => exists|j: int|
                0 <= j < log.objects@[o as int].attributes.deep_view().len()
                    && first_named_at(log.objects@[o as int].attributes.deep_view(), name@) == Some(
                    j,
                ) && v.deep_view() == log.objects@[o as int].attributes.deep_view()[j].1,
            Option::<AttributeValue>::None => first_named_at(
                log.objects@[o as int].attributes.deep_view(),
                name@,
            ) is None,
        }),
{
    let attrs = &log.objects[o].attributes;
    let n = attrs.len();
    let mut j: usize = 0;
    proof {
        assert(first_named_from(attrs.deep_view(), name@, 0) == first_named_at(
            attrs.deep_view(),
            name@,
        ));
    }
    while j < n
        invariant
            n == attrs@.len(),
            j <= n,
            attrs == &log.objects@[o as int].attributes,
            o < log.objects@.len(),
            first_named_at(attrs.deep_view(), name@) == first_named_from(
                attrs.deep_view(),
                name@,
                j as int,
            ),
        decreases n - j,
    {
        if attrs[j].0 == *name {
            proof {
                assert(attrs.deep_view()[j as int].0 == attrs@[j as int].0@);
                assert(attrs.deep_view()[j as int].1 == attrs@[j as int].1.deep_view());
            }
            return Some(attrs[j].1.clone());
        }
        j = j + 1;
    }
    Option::<AttributeValue>::None
}

/// The position of the first attribute named `name`, scanning from `j`.
pub open spec fn first_named_from(
    attrs: Seq<(Seq<char>, crate::values::AttrVal, i64)>,
    name: Seq<char>,
    j: int,
) -> Option<int>
    decreases attrs.len() - j,
{
    if j < 0 || j >= attrs.len() {
        Option::<int>::None
    } else if attrs[j].0 == name {
        Some(j)
    } else {
        first_named_from(attrs, name, j + 1)
    }
}

/// The position of the first attribute named `name`, if any.
pub open spec fn first_named_at(
    attrs: Seq<(Seq<char>, crate::values::AttrVal, i64)>,
    name: Seq<char>,
) -> Option<int> {
    first_named_from(attrs, name, 0)
}

/// The `attrAt` primitive on an object: the latest value of the attribute
/// whose valid-from time is at most `t`; among equal times the later entry
/// wins.
pub fn cel_object_attr_at(log: &IndexedLog, o: usize, name: &String, t: i64) -> (r: Option<
    AttributeValue,
>)
    requires
        o < log.objects@.len(),
    ensures
        (match r {
            Some(v) => exists|tv: i64|
                latest_attr_at(log.objects@[o as int].attributes.deep_view(), name@, t) == Some(
                    (v.deep_view(), tv),
                ),
            Option::<AttributeValue>::None => latest_attr_at(
                log.objects@[o as int].attributes.deep_view(),
                name@,
                t,
            ) is None,
        }),
{
    let attrs = &log.objects[o].attributes;
    let n = attrs.len();
    let mut best: Option<usize> = Option::<usize>::None;
    let mut j: usize = 0;
    proof {
        assert(attrs.deep_view().take(0) =~= Seq::<
            (Seq<char>, crate::values::AttrVal, i64),
        >::empty());
    }
    while j < n
        invariant
            n == attrs@.len(),
            j <= n,
            attrs == &log.objects@[o as int].attributes,
            o < log.objects@.len(),
            (match best {
                Some(k) => k < j && latest_attr_at(attrs.deep_view().take(j as int), name@, t)
                    == Some((attrs.deep_view()[k as int].1, attrs.deep_view()[k as int].2)),
                Option::<usize>::None => latest_attr_at(
                    attrs.deep_view().take(j as int),
                    name@,
                    t,
                ) is None,
            }),
        decreases n - j,
    {
        proof {
            assert(attrs.deep_view().take(j + 1).drop_last() =~= attrs.deep_view().take(j as int));
            assert(attrs.deep_view().take(j + 1).last() == attrs.deep_view()[j as int]);
        }
        if attrs[j].0 == *name && attrs[j].2 <= t {
            match best {
                Some(k) => {
                    if attrs[j].2 >= attrs[k].2 {
                        best = Some(j);
                    }
                },
                Option::<usize>::None => {
                    best = Some(j);
                },
            }
        }
        j = j + 1;
    }
    proof {
        assert(attrs.deep_view().take(n as int) =~= attrs.deep_view());
    }
    match best {
        Some(k) => Some(attrs[k].1.clone()),
        Option::<usize>::None => Option::<AttributeValue>::None,
    }
}

/// The `attrs` primitive on an event: all attributes, in order.
pub fn cel_event_attrs(log: &IndexedLog, e: usize) -> (r: Vec<(String, AttributeValue)>)
    requires
        e < log.events@.len(),
    ensures
        r.deep_view() == log.events@[e as int].attributes.deep_view(),
{
    clone_attributes(&log.events[e].attributes)
}

/// The `attrs` primitive on an object: all attributes with their
/// valid-from times, in order.
pub fn cel_object_attrs(log: &IndexedLog, o: usize) -> (r: Vec<(String, AttributeValue, i64)>)
    requires
        o < log.objects@.len(),
    ensures
        r.deep_view() == log.objects@[o as int].attributes.deep_view(),
{
    clone_timed_attributes(&log.objects[o].attributes)
}

/// The `events` primitive: the expression-language names of all events.
pub fn cel_event_names(log: &IndexedLog) -> (r: Vec<String>)
    ensures
        r@.len() == log.events@.len(),
        forall|i: int| 0 <= i < r@.len() ==> r@[i]@ == ev_index_name_spec(i as nat),
{
    let n = log.events.len();
    let mut out: Vec<String> = Vec::new();
    let mut i: usize = 0;
    while i < n
        invariant
            i <= n,
            n == log.events@.len(),
            out@.len() == i,
            forall|k: int| 0 <= k < i ==> out@[k]@ == ev_index_name_spec(k as nat),
        decreases n - i,
    {
        out.push(ev_index_to_name(i));
        i = i + 1;
    }
    out
}

/// The `objects` primitive: the expression-language names of all objects.
pub fn cel_object_names(log: &IndexedLog) -> (r: Vec<String>)
    ensures
        r@.len() == log.objects@.len(),
        forall|i: int| 0 <= i < r@.len() ==> r@[i]@ == ob_index_name_spec(i as nat),
{
    let n = log.objects.len();
    let mut out: Vec<String> = Vec::new();
    let mut i: usize = 0;
    while i < n
        invariant
            i <= n,
            n == log.objects@.len(),
            out@.len() == i,
            forall|k: int| 0 <= k < i ==> out@[k]@ == ob_index_name_spec(k as nat),
        decreases n - i,
    {
        out.push(ob_index_to_name(i));
        i = i + 1;
    }
    out
}

/// The whole-number reading of a label value: an integer itself, a string
/// its signed decimal value (or zero), anything else zero.
pub open spec fn label_int(v: LabelValue) -> int {
    match v {
        LabelValue::Int(i) => i as int,
        LabelValue::String(s) => match parse_i64_spec(s@) {
            Some(i) => i as int,
            Option::<i64>::None => 0,
        },
        _ => 0,
    }
}

/// The left-to-right sum of the whole-number readings under 64-bit checked
/// addition: none from the first addition that leaves the signed range on.
pub open spec fn checked_sum_labels(s: Seq<LabelValue>) -> Option<i64>
    decreases s.len(),
{
    if s.len() == 0 {
        Some(0i64)
    } else {
        match checked_sum_labels(s.drop_last()) {
            Some(a) => {
                let t = a + label_int(s.last());
                if i64::MIN <= t <= i64::MAX {
                    Some(t as i64)
                } else {
                    Option::<i64>::None
                }
            },
            Option::<i64>::None => Option::<i64>::None,
        }
    }
}

/// The whole-number reading of one label value.
pub fn label_int_value(v: &LabelValue) -> (r: i64)
    ensures
        r as int == label_int(*v),
{
    match v {
        LabelValue::Int(i) => *i,
        LabelValue::String(s) => {
            let cs = crate::outside::chars_vec(s.as_str());
            match parse_i64_chars(&cs) {
                Some(i) => i,
                Option::<i64>::None => 0,
            }
        },
        _ => 0,
    }
}

/// The `sum` primitive over whole-number readings: the left-to-right sum,
/// or none as soon as an addition leaves the signed 64-bit range.
pub fn cel_sum(xs: &Vec<LabelValue>) -> (r: Option<i64>)
    ensures
        r == checked_sum_labels(xs@),
{
    let n = xs.len();
    let mut acc: i64 = 0;
    let mut i: usize = 0;
    proof {
        assert(xs@.take(0) =~= Seq::<LabelValue>::empty());
    }
    while i < n
        invariant
            i <= n,
            n == xs@.len(),
            checked_sum_labels(xs@.take(i as int)) == Some(acc),
        decreases n - i,
    {
        proof {
            assert(xs@.take(i + 1).drop_last() =~= xs@.take(i as int));
            assert(xs@.take(i + 1).last() == xs@[i as int]);
        }
        let v = label_int_value(&xs[i]);
        let t: i128 = acc as i128 + v as i128;
        if t < i64::MIN as i128 || t > i64::MAX as i128 {
            proof {
                lemma_checked_sum_absorbs(xs@, i + 1);
            }
            return Option::<i64>::None;
        }
        acc = t as i64;
        i = i + 1;
    }
    proof {
        assert(xs@.take(n as int) =~= xs@);
    }
    Some(acc)
}

/// Once a prefix of the sum has overflowed, the whole sum has.
proof fn lemma_checked_sum_absorbs(s: Seq<LabelValue>, j: int)
    requires
        0 <= j <= s.len(),
        checked_sum_labels(s.take(j)) is None,
    ensures
        checked_sum_labels(s) is None,
    decreases s.len() - j,
{
    if j < s.len() {
        assert(s.take(j + 1).drop_last() =~= s.take(j));
        lemma_checked_sum_absorbs(s, j + 1);
    } else {
        assert(s.take(j) =~= s);
    }
}

} // verus!
