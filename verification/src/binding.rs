//! Bindings: finite assignments from query variables to event and object
//! indices, plus computed labels.
//!
//! A binding holds three sparse maps as vectors of pairs: event variables
//! and object variables are kept sorted by variable number for fast lookup;
//! labels are kept in insertion order with unique names. Bindings are
//! values: expansion returns a copy with one mapping added or replaced.
use crate::query::{EventVariable, LabelVal, ObjectVariable, Variable};
use crate::text::{lemma_lex_lt_trans, lex_cmp, lex_lt};
use crate::values::LabelValue;
use vstd::pervasive::VecAdditionalExecFns;
use vstd::prelude::*;

verus! {

/// Either an event index or an object index, tagged by kind.
#[derive(Debug, Clone, Copy, PartialEq, Eq, Structural)]
pub enum EventOrObjectIndex {
    Event(usize),
    Object(usize),
}

impl DeepView for EventOrObjectIndex {
    type V = EventOrObjectIndex;

    open spec fn deep_view(&self) -> EventOrObjectIndex {
        *self
    }
}

/// A finite assignment of query variables to log indices, with labels.
#[derive(Debug)]
pub struct Binding {
    /// Event variable to event index, sorted strictly by variable number.
    pub event_map: Vec<(EventVariable, usize)>,
    /// Object variable to object index, sorted strictly by variable number.
    pub object_map: Vec<(ObjectVariable, usize)>,
    /// Label name to value, in insertion order, names unique.
    pub label_map: Vec<(String, LabelValue)>,
}

/// Ghost model of a [`Binding`].
#[verifier::ext_equal]
pub struct BindingModel {
    pub event_map: Seq<(EventVariable, usize)>,
    pub object_map: Seq<(ObjectVariable, usize)>,
    pub label_map: Seq<(Seq<char>, LabelVal)>,
}

impl DeepView for Binding {
    type V = BindingModel;

    open spec fn deep_view(&self) -> BindingModel {
        BindingModel {
            event_map: self.event_map@,
            object_map: self.object_map@,
            label_map: self.label_map.deep_view(),
        }
    }
}

/// The event index assigned to `v`, reading the pair list left to right.
pub open spec fn lookup_ev_map(s: Seq<(EventVariable, usize)>, v: EventVariable) -> Option<usize>
    decreases s.len(),
{
    if s.len() == 0 {
        None
    } else if s[0].0 == v {
        Some(s[0].1)
    } else {
        lookup_ev_map(s.skip(1), v)
    }
}

/// The object index assigned to `v`, reading the pair list left to right.
pub open spec fn lookup_ob_map(s: Seq<(ObjectVariable, usize)>, v: ObjectVariable) -> Option<usize>
    decreases s.len(),
{
    if s.len() == 0 {
        None
    } else if s[0].0 == v {
        Some(s[0].1)
    } else {
        lookup_ob_map(s.skip(1), v)
    }
}

/// The label value stored under `name`, reading the pair list left to right.
/// The id text contributed by the bound events: each id then a comma and a
/// space, in binding order.
pub open spec fn id_string_ev(
    em: Seq<(EventVariable, usize)>,
    log: crate::log::IndexedLog,
) -> Seq<char>
    decreases em.len(),
{
    if em.len() == 0 {
        Seq::empty()
    } else {
        id_string_ev(em.drop_last(), log) + log.events@[em.last().1 as int].id@ + ", "@
    }
}

/// The id text contributed by the bound objects.
pub open spec fn id_string_ob(
    om: Seq<(ObjectVariable, usize)>,
    log: crate::log::IndexedLog,
) -> Seq<char>
    decreases om.len(),
{
    if om.len() == 0 {
        Seq::empty()
    } else {
        id_string_ob(om.drop_last(), log) + log.objects@[om.last().1 as int].id@ + ", "@
    }
}

pub open spec fn lookup_label_map(s: Seq<(Seq<char>, LabelVal)>, name: Seq<char>) -> Option<
    LabelVal,
>
    decreases s.len(),
{
    if s.len() == 0 {
        None
    } else if s[0].0 == name {
        Some(s[0].1)
    } else {
        lookup_label_map(s.skip(1), name)
    }
}

/// Sorted insertion into an event map: replaces the entry of `v` or inserts
/// it before the first larger variable.
pub open spec fn insert_ev_map(
    s: Seq<(EventVariable, usize)>,
    v: EventVariable,
    idx: usize,
) -> Seq<(EventVariable, usize)>
    decreases s.len(),
{
    if s.len() == 0 {
        seq![(v, idx)]
    } else if s[0].0.0 < v.0 {
        seq![s[0]] + insert_ev_map(s.skip(1), v, idx)
    } else if s[0].0 == v {
        seq![(v, idx)] + s.skip(1)
    } else {
        seq![(v, idx)] + s
    }
}

/// Sorted insertion into an object map.
pub open spec fn insert_ob_map(
    s: Seq<(ObjectVariable, usize)>,
    v: ObjectVariable,
    idx: usize,
) -> Seq<(ObjectVariable, usize)>
    decreases s.len(),
{
    if s.len() == 0 {
        seq![(v, idx)]
    } else if s[0].0.0 < v.0 {
        seq![s[0]] + insert_ob_map(s.skip(1), v, idx)
    } else if s[0].0 == v {
        seq![(v, idx)] + s.skip(1)
    } else {
        seq![(v, idx)] + s
    }
}

/// Sorted insertion into a label map: replaces the entry of `name` or
/// inserts it before the first lexicographically larger name.
pub open spec fn insert_label_map(
    s: Seq<(Seq<char>, LabelVal)>,
    name: Seq<char>,
    value: LabelVal,
) -> Seq<(Seq<char>, LabelVal)>
    decreases s.len(),
{
    if s.len() == 0 {
        seq![(name, value)]
    } else if lex_lt(s[0].0, name) {
        seq![s[0]] + insert_label_map(s.skip(1), name, value)
    } else if s[0].0 == name {
        seq![(name, value)] + s.skip(1)
    } else {
        seq![(name, value)] + s
    }
}

impl Binding {
    /// Both variable maps are sorted strictly by variable number, and the
    /// label map strictly by name.
    pub open spec fn wf(self) -> bool {
        &&& forall|i: int, j: int|
            0 <= i < j < self.event_map@.len() ==> (#[trigger] self.event_map@[i]).0.0 < (
            #[trigger] self.event_map@[j]).0.0
        &&& forall|i: int, j: int|
            0 <= i < j < self.object_map@.len() ==> (#[trigger] self.object_map@[i]).0.0 < (
            #[trigger] self.object_map@[j]).0.0
        &&& forall|i: int, j: int|
            0 <= i < j < self.label_map@.len() ==> lex_lt(
                (#[trigger] self.label_map@[i]).0@,
                (#[trigger] self.label_map@[j]).0@,
            )
    }

    /// The empty binding.
    pub fn empty() -> (r: Binding)
        ensures
            r.wf(),
            r.deep_view().event_map.len() == 0,
            r.deep_view().object_map.len() == 0,
            r.deep_view().label_map.len() == 0,
    {
        Binding { event_map: Vec::new(), object_map: Vec::new(), label_map: Vec::new() }
    }

    /// The event index bound to `v`, if any.
    pub fn get_ev_index(&self, v: &EventVariable) -> (r: Option<usize>)
        ensures
            r == lookup_ev_map(self.event_map@, *v),
    {
        let n = self.event_map.len();
        let mut i: usize = 0;
        proof {
            assert(self.event_map@.skip(0) =~= self.event_map@);
        }
        while i < n
            invariant
                n == self.event_map@.len(),
                i <= n,
                lookup_ev_map(self.event_map@, *v) == lookup_ev_map(
                    self.event_map@.skip(i as int),
                    *v,
                ),
            decreases n - i,
        {
            proof {
                assert(self.event_map@.skip(i as int)[0] == self.event_map@[i as int]);
                assert(self.event_map@.skip(i as int).skip(1) =~= self.event_map@.skip(i + 1));
            }
            if self.event_map[i].0.0 == v.0 {
                return Some(self.event_map[i].1);
            }
            i = i + 1;
        }
        None
    }

    /// The object index bound to `v`, if any.
    pub fn get_ob_index(&self, v: &ObjectVariable) -> (r: Option<usize>)
        ensures
            r == lookup_ob_map(self.object_map@, *v),
    {
        let n = self.object_map.len();
        let mut i: usize = 0;
        proof {
            assert(self.object_map@.skip(0) =~= self.object_map@);
        }
        while i < n
            invariant
                n == self.object_map@.len(),
                i <= n,
                lookup_ob_map(self.object_map@, *v) == lookup_ob_map(
                    self.object_map@.skip(i as int),
                    *v,
                ),
            decreases n - i,
        {
            proof {
                assert(self.object_map@.skip(i as int)[0] == self.object_map@[i as int]);
                assert(self.object_map@.skip(i as int).skip(1) =~= self.object_map@.skip(i + 1));
            }
            if self.object_map[i].0.0 == v.0 {
                return Some(self.object_map[i].1);
            }
            i = i + 1;
        }
        None
    }

    /// The index bound to the variable, tagged by its kind.
    /// All event variables bound in this binding, in insertion order.
    pub fn get_all_ev_vars(&self) -> (r: Vec<EventVariable>)
        ensures
            r@.len() == self.event_map@.len(),
            forall|i: int| 0 <= i < r@.len() ==> r@[i] == self.event_map@[i].0,
    {
        let n = self.event_map.len();
        let mut out: Vec<EventVariable> = Vec::new();
        let mut i: usize = 0;
        while i < n
            invariant
                i <= n,
                n == self.event_map@.len(),
                out@.len() == i,
                forall|k: int| 0 <= k < i ==> out@[k] == self.event_map@[k].0,
            decreases n - i,
        {
            out.push(self.event_map[i].0);
            i = i + 1;
        }
        out
    }

    /// All object variables bound in this binding, in insertion order.
    pub fn get_all_ob_vars(&self) -> (r: Vec<ObjectVariable>)
        ensures
            r@.len() == self.object_map@.len(),
            forall|i: int| 0 <= i < r@.len() ==> r@[i] == self.object_map@[i].0,
    {
        let n = self.object_map.len();
        let mut out: Vec<ObjectVariable> = Vec::new();
        let mut i: usize = 0;
        while i < n
            invariant
                i <= n,
                n == self.object_map@.len(),
                out@.len() == i,
                forall|k: int| 0 <= k < i ==> out@[k] == self.object_map@[k].0,
            decreases n - i,
        {
            out.push(self.object_map[i].0);
            i = i + 1;
        }
        out
    }

    /// A display string for the binding: the bound events' ids, then the
    /// bound objects' ids, each followed by a comma and a space.
    pub fn to_id_string(&self, log: &crate::log::IndexedLog) -> (r: String)
        requires
            forall|k: int|
                0 <= k < self.event_map@.len() ==> (#[trigger] self.event_map@[k]).1
                    < log.events@.len(),
            forall|k: int|
                0 <= k < self.object_map@.len() ==> (#[trigger] self.object_map@[k]).1
                    < log.objects@.len(),
        ensures
            r@ == id_string_ev(self.event_map.deep_view(), *log) + id_string_ob(
                self.object_map.deep_view(),
                *log,
            ),
    {
        let mut ret = String::new();
        let sep: String = ", ".to_owned();
        let sep_chars = crate::outside::chars_vec(sep.as_str());
        let ne = self.event_map.len();
        let mut i: usize = 0;
        proof {
            assert(self.event_map.deep_view().take(0) =~= Seq::<
                (EventVariable, usize),
            >::empty());
            assert(ret@ =~= id_string_ev(self.event_map.deep_view().take(0), *log));
        }
        while i < ne
            invariant
                i <= ne,
                ne == self.event_map@.len(),
                sep_chars@ == ", "@,
                forall|k: int|
                    0 <= k < self.event_map@.len() ==> (#[trigger] self.event_map@[k]).1
                        < log.events@.len(),
                ret@ == id_string_ev(self.event_map.deep_view().take(i as int), *log),
            decreases ne - i,
        {
            proof {
                assert(self.event_map.deep_view().take(i + 1).drop_last()
                    =~= self.event_map.deep_view().take(i as int));
                assert(self.event_map.deep_view().take(i + 1).last() == self.event_map.deep_view()[
                    i as int
                ]);
                assert(self.event_map.deep_view()[i as int].1 == self.event_map@[i as int].1);
            }
            let e = self.event_map[i].1;
            let id_chars = crate::outside::chars_vec(log.events[e].id.as_str());
            crate::text::push_chars(&mut ret, &id_chars);
            crate::text::push_chars(&mut ret, &sep_chars);
            proof {
                assert(ret@ =~= id_string_ev(self.event_map.deep_view().take(i + 1), *log));
            }
            i = i + 1;
        }
        proof {
            assert(self.event_map.deep_view().take(ne as int) =~= self.event_map.deep_view());
        }
        let no = self.object_map.len();
        let ghost ev_part = ret@;
        let mut j: usize = 0;
        proof {
            assert(self.object_map.deep_view().take(0) =~= Seq::<
                (ObjectVariable, usize),
            >::empty());
            assert(ret@ =~= ev_part + id_string_ob(self.object_map.deep_view().take(0), *log));
        }
        while j < no
            invariant
                j <= no,
                no == self.object_map@.len(),
                sep_chars@ == ", "@,
                forall|k: int|
                    0 <= k < self.object_map@.len() ==> (#[trigger] self.object_map@[k]).1
                        < log.objects@.len(),
                ret@ == ev_part + id_string_ob(self.object_map.deep_view().take(j as int), *log),
            decreases no - j,
        {
            proof {
                assert(self.object_map.deep_view().take(j + 1).drop_last()
                    =~= self.object_map.deep_view().take(j as int));
                assert(self.object_map.deep_view().take(j + 1).last()
                    == self.object_map.deep_view()[j as int]);
                assert(self.object_map.deep_view()[j as int].1 == self.object_map@[j as int].1);
            }
            let o = self.object_map[j].1;
            let id_chars = crate::outside::chars_vec(log.objects[o].id.as_str());
            crate::text::push_chars(&mut ret, &id_chars);
            crate::text::push_chars(&mut ret, &sep_chars);
            proof {
                assert(ret@ =~= ev_part + id_string_ob(
                    self.object_map.deep_view().take(j + 1),
                    *log,
                ));
            }
            j = j + 1;
        }
        proof {
            assert(self.object_map.deep_view().take(no as int) =~= self.object_map.deep_view());
            assert(ev_part == id_string_ev(self.event_map.deep_view(), *log));
        }
        ret
    }

    pub fn get_any_index(&self, var: &Variable) -> (r: Option<EventOrObjectIndex>)
        ensures
            r == lookup_any(self.deep_view(), *var),
    {
        match var {
            Variable::Event(ev) => match self.get_ev_index(ev) {
                Some(e) => Some(EventOrObjectIndex::Event(e)),
                None => None,
            },
            Variable::Object(ov) => match self.get_ob_index(ov) {
                Some(o) => Some(EventOrObjectIndex::Object(o)),
                None => None,
            },
        }
    }

    /// The label value stored under `name`, if any.
    pub fn get_label_value(&self, name: &String) -> (r: Option<&LabelValue>)
        ensures
            match r {
                Some(l) => lookup_label_map(self.deep_view().label_map, name@) == Some(
                    l.deep_view(),
                ),
                None => lookup_label_map(self.deep_view().label_map, name@) is None,
            },
    {
        let n = self.label_map.len();
        let mut i: usize = 0;
        proof {
            assert(self.deep_view().label_map.skip(0) =~= self.deep_view().label_map);
        }
        while i < n
            invariant
                n == self.label_map@.len(),
                i <= n,
                lookup_label_map(self.deep_view().label_map, name@) == lookup_label_map(
                    self.deep_view().label_map.skip(i as int),
                    name@,
                ),
            decreases n - i,
        {
            proof {
                assert(self.deep_view().label_map.skip(i as int)[0]
                    == self.deep_view().label_map[i as int]);
                assert(self.deep_view().label_map.skip(i as int).skip(1)
                    =~= self.deep_view().label_map.skip(i + 1));
            }
            if self.label_map[i].0 == *name {
                return Some(&self.label_map[i].1);
            }
            i = i + 1;
        }
        None
    }

    /// Returns this binding with `v` bound to event index `idx`, inserted at
    /// the sorted position or replacing an earlier assignment of `v`.
    pub fn expand_with_ev(self, v: EventVariable, idx: usize) -> (r: Binding)
        requires
            self.wf(),
        ensures
            r.wf(),
            r.event_map@ == insert_ev_map(self.event_map@, v, idx),
            r.object_map@ == self.object_map@,
            r.deep_view().label_map == self.deep_view().label_map,
    {
        let ghost s = self.event_map@;
        let mut m = self;
        let n = m.event_map.len();
        let mut i: usize = 0;
        while i < n && m.event_map[i].0.0 < v.0
            invariant
                m == self,
                n == m.event_map@.len(),
                i <= n,
                forall|k: int| 0 <= k < i ==> (#[trigger] m.event_map@[k]).0.0 < v.0,
            decreases n - i,
        {
            i = i + 1;
        }
        if i < n && m.event_map[i].0.0 == v.0 {
            m.event_map.set(i, (v, idx));
            proof {
                lemma_insert_ev_at(s, v, idx, i as int, true);
                assert(m.event_map@ =~= insert_ev_map(s, v, idx));
                assert forall|k1: int, k2: int|
                    0 <= k1 < k2 < m.event_map@.len() implies (#[trigger] m.event_map@[k1]).0.0 < (
                #[trigger] m.event_map@[k2]).0.0 by {
                    assert(s[i as int].0.0 == v.0);
                }
            }
        } else {
            m.event_map.insert(i, (v, idx));
            proof {
                lemma_insert_ev_at(s, v, idx, i as int, false);
                assert(m.event_map@ =~= insert_ev_map(s, v, idx));
                assert forall|k1: int, k2: int|
                    0 <= k1 < k2 < m.event_map@.len() implies (#[trigger] m.event_map@[k1]).0.0 < (
                #[trigger] m.event_map@[k2]).0.0 by {
                    if k1 < i && k2 > i {
                        assert(m.event_map@[k1] == s[k1]);
                        assert(m.event_map@[k2] == s[k2 - 1]);
                    }
                }
            }
        }
        m
    }

    /// Returns this binding with `v` bound to object index `idx`, inserted at
    /// the sorted position or replacing an earlier assignment of `v`.
    pub fn expand_with_ob(self, v: ObjectVariable, idx: usize) -> (r: Binding)
        requires
            self.wf(),
        ensures
            r.wf(),
            r.object_map@ == insert_ob_map(self.object_map@, v, idx),
            r.event_map@ == self.event_map@,
            r.deep_view().label_map == self.deep_view().label_map,
    {
        let ghost s = self.object_map@;
        let mut m = self;
        let n = m.object_map.len();
        let mut i: usize = 0;
        while i < n && m.object_map[i].0.0 < v.0
            invariant
                m == self,
                n == m.object_map@.len(),
                i <= n,
                forall|k: int| 0 <= k < i ==> (#[trigger] m.object_map@[k]).0.0 < v.0,
            decreases n - i,
        {
            i = i + 1;
        }
        if i < n && m.object_map[i].0.0 == v.0 {
            m.object_map.set(i, (v, idx));
            proof {
                lemma_insert_ob_at(s, v, idx, i as int, true);
                assert(m.object_map@ =~= insert_ob_map(s, v, idx));
                assert forall|k1: int, k2: int|
                    0 <= k1 < k2 < m.object_map@.len() implies (#[trigger] m.object_map@[k1]).0.0
                    < (#[trigger] m.object_map@[k2]).0.0 by {
                    assert(s[i as int].0.0 == v.0);
                }
            }
        } else {
            m.object_map.insert(i, (v, idx));
            proof {
                lemma_insert_ob_at(s, v, idx, i as int, false);
                assert(m.object_map@ =~= insert_ob_map(s, v, idx));
                assert forall|k1: int, k2: int|
                    0 <= k1 < k2 < m.object_map@.len() implies (#[trigger] m.object_map@[k1]).0.0
                    < (#[trigger] m.object_map@[k2]).0.0 by {
                    if k1 < i && k2 > i {
                        assert(m.object_map@[k1] == s[k1]);
                        assert(m.object_map@[k2] == s[k2 - 1]);
                    }
                }
            }
        }
        m
    }

    /// Stores `value` under `label`, replacing an earlier value of the same
    /// name or inserting the pair at its sorted position.
    pub fn add_label(&mut self, label: String, value: LabelValue)
        requires
            old(self).wf(),
        ensures
            final(self).wf(),
            final(self).deep_view().label_map == insert_label_map(
                old(self).deep_view().label_map,
                label@,
                value.deep_view(),
            ),
            final(self).event_map@ == old(self).event_map@,
            final(self).object_map@ == old(self).object_map@,
    {
        let ghost s = self.deep_view().label_map;
        let n = self.label_map.len();
        let mut i: usize = 0;
        while i < n && lex_cmp(&self.label_map[i].0, &label) < 0
            invariant
                *self == *old(self),
                n == self.label_map@.len(),
                i <= n,
                forall|k: int| 0 <= k < i ==> lex_lt((#[trigger] self.label_map@[k]).0@, label@),
            decreases n - i,
        {
            i = i + 1;
        }
        let replace = if i < n {
            lex_cmp(&self.label_map[i].0, &label) == 0
        } else {
            false
        };
        proof {
            assert forall|k: int| 0 <= k < s.len() implies #[trigger] s[k] == (
                self.label_map@[k].0@,
                self.label_map@[k].1.deep_view(),
            ) by {
            }
        }
        if replace {
            self.label_map.set(i, (label, value));
            proof {
                lemma_insert_label_sorted(s, label@, value.deep_view(), i as int, true);
                assert(self.deep_view().label_map =~= insert_label_map(
                    s,
                    label@,
                    value.deep_view(),
                ));
                assert forall|a: int, b: int|
                    0 <= a < b < self.label_map@.len() implies lex_lt(
                    (#[trigger] self.label_map@[a]).0@,
                    (#[trigger] self.label_map@[b]).0@,
                ) by {
                    assert(s[i as int].0 == label@);
                }
            }
        } else {
            self.label_map.insert(i, (label, value));
            proof {
                lemma_insert_label_sorted(s, label@, value.deep_view(), i as int, false);
                assert(self.deep_view().label_map =~= insert_label_map(
                    s,
                    label@,
                    value.deep_view(),
                ));
                assert forall|a: int, b: int|
                    0 <= a < b < self.label_map@.len() implies lex_lt(
                    (#[trigger] self.label_map@[a]).0@,
                    (#[trigger] self.label_map@[b]).0@,
                ) by {
                    if a < i && b > i {
                        assert(self.label_map@[a] == old(self).label_map@[a]);
                        assert(self.label_map@[b] == old(self).label_map@[b - 1]);
                        if i < old(self).label_map@.len() {
                            if b - 1 > i {
                                lemma_lex_lt_trans(
                                    label@,
                                    old(self).label_map@[i as int].0@,
                                    old(self).label_map@[b - 1].0@,
                                );
                            }
                        }
                    } else if a == i && b > i {
                        assert(self.label_map@[b] == old(self).label_map@[b - 1]);
                        if b - 1 > i {
                            lemma_lex_lt_trans(
                                label@,
                                old(self).label_map@[i as int].0@,
                                old(self).label_map@[b - 1].0@,
                            );
                        }
                    } else if a < i && b == i {
                        assert(self.label_map@[a] == old(self).label_map@[a]);
                    }
                }
            }
        }
    }
}

/// The index bound to `var` in the binding model, tagged by its kind.
pub open spec fn lookup_any(b: BindingModel, var: Variable) -> Option<EventOrObjectIndex> {
    match var {
        Variable::Event(ev) => match lookup_ev_map(b.event_map, ev) {
            Some(e) => Some(EventOrObjectIndex::Event(e)),
            None => None,
        },
        Variable::Object(ov) => match lookup_ob_map(b.object_map, ov) {
            Some(o) => Some(EventOrObjectIndex::Object(o)),
            None => None,
        },
    }
}

proof fn lemma_insert_ev_at(
    s: Seq<(EventVariable, usize)>,
    v: EventVariable,
    idx: usize,
    i: int,
    replace: bool,
)
    requires
        forall|k1: int, k2: int|
            0 <= k1 < k2 < s.len() ==> (#[trigger] s[k1]).0.0 < (#[trigger] s[k2]).0.0,
        0 <= i <= s.len(),
        forall|k: int| 0 <= k < i ==> (#[trigger] s[k]).0.0 < v.0,
        replace ==> i < s.len() && s[i].0 == v,
        !replace ==> (i == s.len() || s[i].0.0 > v.0),
    ensures
        replace ==> insert_ev_map(s, v, idx) =~= s.update(i, (v, idx)),
        !replace ==> insert_ev_map(s, v, idx) =~= s.take(i) + seq![(v, idx)] + s.skip(i),
    decreases i,
{
    if i == 0 {
        if replace {
            assert(insert_ev_map(s, v, idx) == seq![(v, idx)] + s.skip(1));
        }
    } else {
        assert(s[0].0.0 < v.0);
        lemma_insert_ev_at(s.skip(1), v, idx, i - 1, replace);
        assert(insert_ev_map(s, v, idx) == seq![s[0]] + insert_ev_map(s.skip(1), v, idx));
        if replace {
            assert(s.skip(1).update(i - 1, (v, idx)) =~= s.update(i, (v, idx)).skip(1));
        } else {
            assert(s.skip(1).take(i - 1) =~= s.take(i).skip(1));
            assert(s.skip(1).skip(i - 1) =~= s.skip(i));
        }
    }
}

proof fn lemma_insert_ob_at(
    s: Seq<(ObjectVariable, usize)>,
    v: ObjectVariable,
    idx: usize,
    i: int,
    replace: bool,
)
    requires
        forall|k1: int, k2: int|
            0 <= k1 < k2 < s.len() ==> (#[trigger] s[k1]).0.0 < (#[trigger] s[k2]).0.0,
        0 <= i <= s.len(),
        forall|k: int| 0 <= k < i ==> (#[trigger] s[k]).0.0 < v.0,
        replace ==> i < s.len() && s[i].0 == v,
        !replace ==> (i == s.len() || s[i].0.0 > v.0),
    ensures
        replace ==> insert_ob_map(s, v, idx) =~= s.update(i, (v, idx)),
        !replace ==> insert_ob_map(s, v, idx) =~= s.take(i) + seq![(v, idx)] + s.skip(i),
    decreases i,
{
    if i == 0 {
        if replace {
            assert(insert_ob_map(s, v, idx) == seq![(v, idx)] + s.skip(1));
        }
    } else {
        assert(s[0].0.0 < v.0);
        lemma_insert_ob_at(s.skip(1), v, idx, i - 1, replace);
        assert(insert_ob_map(s, v, idx) == seq![s[0]] + insert_ob_map(s.skip(1), v, idx));
        if replace {
            assert(s.skip(1).update(i - 1, (v, idx)) =~= s.update(i, (v, idx)).skip(1));
        } else {
            assert(s.skip(1).take(i - 1) =~= s.take(i).skip(1));
            assert(s.skip(1).skip(i - 1) =~= s.skip(i));
        }
    }
}

proof fn lemma_insert_label_sorted(
    s: Seq<(Seq<char>, LabelVal)>,
    name: Seq<char>,
    value: LabelVal,
    i: int,
    replace: bool,
)
    requires
        forall|k1: int, k2: int|
            0 <= k1 < k2 < s.len() ==> lex_lt((#[trigger] s[k1]).0, (#[trigger] s[k2]).0),
        0 <= i <= s.len(),
        forall|k: int| 0 <= k < i ==> lex_lt((#[trigger] s[k]).0, name),
        replace ==> i < s.len() && s[i].0 == name,
        !replace ==> (i == s.len() || (!lex_lt(s[i].0, name) && s[i].0 != name)),
    ensures
        replace ==> insert_label_map(s, name, value) =~= s.update(i, (name, value)),
        !replace ==> insert_label_map(s, name, value) =~= s.take(i) + seq![(name, value)] + s.skip(
            i,
        ),
    decreases i,
{
    if i == 0 {
        if replace {
            if s.len() > 0 && lex_lt(s[0].0, name) {
                lemma_lex_lt_irrefl(name);
            }
            assert(insert_label_map(s, name, value) == seq![(name, value)] + s.skip(1));
        }
    } else {
        assert(lex_lt(s[0].0, name));
        lemma_insert_label_sorted(s.skip(1), name, value, i - 1, replace);
        assert(insert_label_map(s, name, value) == seq![s[0]] + insert_label_map(
            s.skip(1),
            name,
            value,
        ));
        if replace {
            assert(s.skip(1).update(i - 1, (name, value)) =~= s.update(i, (name, value)).skip(1));
        } else {
            assert(s.skip(1).take(i - 1) =~= s.take(i).skip(1));
            assert(s.skip(1).skip(i - 1) =~= s.skip(i));
        }
    }
}

/// The lexicographic order is irreflexive.
proof fn lemma_lex_lt_irrefl(a: Seq<char>)
    ensures
        !lex_lt(a, a),
    decreases a.len(),
{
    if a.len() > 0 {
        lemma_lex_lt_irrefl(a.skip(1));
    }
}

impl Clone for Binding {
    /// Clones the binding; the copy has the same model and well-formedness.
    fn clone(&self) -> (r: Self)
        ensures
            r.deep_view() == self.deep_view(),
            r.event_map@ == self.event_map@,
            r.object_map@ == self.object_map@,
            self.wf() ==> r.wf(),
    {
        let mut event_map: Vec<(EventVariable, usize)> = Vec::new();
        let n1 = self.event_map.len();
        let mut i: usize = 0;
        while i < n1
            invariant
                n1 == self.event_map@.len(),
                i <= n1,
                event_map@ == self.event_map@.take(i as int),
            decreases n1 - i,
        {
            event_map.push(self.event_map[i]);
            proof {
                assert(event_map@ =~= self.event_map@.take(i + 1));
            }
            i = i + 1;
        }
        let mut object_map: Vec<(ObjectVariable, usize)> = Vec::new();
        let n2 = self.object_map.len();
        let mut i2: usize = 0;
        while i2 < n2
            invariant
                n2 == self.object_map@.len(),
                i2 <= n2,
                object_map@ == self.object_map@.take(i2 as int),
            decreases n2 - i2,
        {
            object_map.push(self.object_map[i2]);
            proof {
                assert(object_map@ =~= self.object_map@.take(i2 + 1));
            }
            i2 = i2 + 1;
        }
        let mut label_map: Vec<(String, LabelValue)> = Vec::new();
        let n3 = self.label_map.len();
        let mut i3: usize = 0;
        while i3 < n3
            invariant
                n3 == self.label_map@.len(),
                i3 <= n3,
                label_map@.len() == i3,
                forall|k: int|
                    0 <= k < i3 ==> #[trigger] label_map.deep_view()[k]
                        == self.label_map.deep_view()[k],
                forall|k: int|
                    0 <= k < i3 ==> (#[trigger] label_map@[k]).0@ == self.label_map@[k].0@,
            decreases n3 - i3,
        {
            let ghost old_map = label_map.deep_view();
            label_map.push((self.label_map[i3].0.clone(), self.label_map[i3].1.clone()));
            proof {
                assert forall|k: int| 0 <= k < i3 + 1 implies #[trigger] label_map.deep_view()[k]
                    == self.label_map.deep_view()[k] by {
                    assert(label_map.deep_view()[k] == label_map@[k].deep_view());
                    if k < i3 {
                        assert(label_map@[k].deep_view() == old_map[k]);
                    } else {
                        assert(label_map@[k].0@ == self.label_map@[k].0@);
                        assert(label_map@[k].1.deep_view() == self.label_map@[k].1.deep_view());
                    }
                }
            }
            i3 = i3 + 1;
        }
        let r = Binding { event_map, object_map, label_map };
        proof {
            assert(self.event_map@.take(n1 as int) =~= self.event_map@);
            assert(self.object_map@.take(n2 as int) =~= self.object_map@);
            assert(r.label_map.deep_view() =~= self.label_map.deep_view());
            assert forall|a: int, b: int|
                0 <= a < b < r.label_map@.len() implies (lex_lt(
                (#[trigger] r.label_map@[a]).0@,
                (#[trigger] r.label_map@[b]).0@,
            ) == lex_lt(
                (#[trigger] self.label_map@[a]).0@,
                (#[trigger] self.label_map@[b]).0@,
            )) by {
                assert(r.label_map@[a].0@ == self.label_map@[a].0@);
                assert(r.label_map@[b].0@ == self.label_map@[b].0@);
            }
        }
        r
    }
}

} // verus!
