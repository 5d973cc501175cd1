//! Binding expander: executes a plan for one binding box, turning a parent
//! binding into the list of bindings that satisfy the plan's bind and
//! filter steps, bounded by a hard cap.
//!
//! The meaning of a plan is [`expand_spec`]: steps run in order, a bind step
//! replaces each binding by one extension per candidate, a filter step keeps
//! the bindings that pass, and after each step everything beyond the cap is
//! dropped and the overflow is reported. For plans without embedded
//! expression programs the expander returns exactly that.
use crate::binding::{
    insert_ev_map, insert_ob_map, lookup_any, lookup_ev_map, lookup_ob_map, Binding, BindingModel,
};
use crate::cel::CelEnv;
use crate::filters::{binding_indices_valid, filter_error, filter_holds, involved_vars, qual_matches};
use crate::log::IndexedLog;
use crate::planner::{bound_in_parent, plan_prefix_binds, plan_safe, step_bound_var, step_reads};
use crate::query::{
    BindingBox, BindingStep, BindingStepModel, EvalError, EventVariable, FilterModel,
    ObjectVariable, Variable,
};
use vstd::prelude::*;

verus! {

/// The default hard cap on the number of bindings one box may produce.
pub const MAX_BINDINGS: usize = 10_000_000;

/// The allowed type names of a new event variable; empty if undeclared.
pub open spec fn lookup_types_ev(
    s: Seq<(EventVariable, Seq<Seq<char>>)>,
    v: EventVariable,
) -> Seq<Seq<char>>
    decreases s.len(),
{
    if s.len() == 0 {
        Seq::empty()
    } else if s[0].0 == v {
        s[0].1
    } else {
        lookup_types_ev(s.skip(1), v)
    }
}

/// The allowed type names of a new object variable; empty if undeclared.
pub open spec fn lookup_types_ob(
    s: Seq<(ObjectVariable, Seq<Seq<char>>)>,
    v: ObjectVariable,
) -> Seq<Seq<char>>
    decreases s.len(),
{
    if s.len() == 0 {
        Seq::empty()
    } else if s[0].0 == v {
        s[0].1
    } else {
        lookup_types_ob(s.skip(1), v)
    }
}

/// The first position at or after `i` whose string reads `x`, if any.
pub open spec fn find_string_from(s: Seq<String>, x: Seq<char>, i: int) -> Option<int>
    decreases s.len() - i,
{
    if i < 0 || i >= s.len() {
        None
    } else if s[i]@ == x {
        Some(i)
    } else {
        find_string_from(s, x, i + 1)
    }
}

/// The events of the event type named `t`, in index (and so time) order.
pub open spec fn ev_type_events(log: IndexedLog, t: Seq<char>) -> Seq<usize> {
    match find_string_from(log.event_types@, t, 0) {
        Some(ti) => log.events_of_type@[ti]@,
        None => Seq::empty(),
    }
}

/// The objects of the object type named `t`, in index order.
pub open spec fn ob_type_objects(log: IndexedLog, t: Seq<char>) -> Seq<usize> {
    match find_string_from(log.object_types@, t, 0) {
        Some(ti) => log.objects_of_type@[ti]@,
        None => Seq::empty(),
    }
}

/// The candidate events of a type-name list: the events of each named type,
/// concatenated in list order.
pub open spec fn ev_candidates(types: Seq<Seq<char>>, log: IndexedLog) -> Seq<usize>
    decreases types.len(),
{
    if types.len() == 0 {
        Seq::empty()
    } else {
        ev_candidates(types.drop_last(), log) + ev_type_events(log, types.last())
    }
}

/// The candidate objects of a type-name list.
pub open spec fn ob_candidates(types: Seq<Seq<char>>, log: IndexedLog) -> Seq<usize>
    decreases types.len(),
{
    if types.len() == 0 {
        Seq::empty()
    } else {
        ob_candidates(types.drop_last(), log) + ob_type_objects(log, types.last())
    }
}

/// Whether candidate event `e` satisfies one time window against its bound
/// reference event; an unbound reference admits nothing.
pub open spec fn one_time_ok(
    c: (EventVariable, (Option<i64>, Option<i64>)),
    b: BindingModel,
    e: usize,
    log: IndexedLog,
) -> bool {
    match lookup_ev_map(b.event_map, c.0) {
        Some(ref_e) => {
            let diff = log.events@[e as int].time - log.events@[ref_e as int].time;
            &&& !(c.1.0 is Some && diff < c.1.0->0)
            &&& !(c.1.1 is Some && diff > c.1.1->0)
        },
        None => false,
    }
}

/// Whether candidate event `e` satisfies all time windows of the step.
pub open spec fn time_ok(
    cs: Option<Seq<(EventVariable, (Option<i64>, Option<i64>))>>,
    b: BindingModel,
    e: usize,
    log: IndexedLog,
) -> bool {
    match cs {
        None => true,
        Some(list) => forall|k: int| 0 <= k < list.len() ==> one_time_ok(#[trigger] list[k], b, e, log),
    }
}

/// The binding with `v` set to event `e`.
pub open spec fn bm_insert_ev(b: BindingModel, v: EventVariable, e: usize) -> BindingModel {
    BindingModel {
        event_map: insert_ev_map(b.event_map, v, e),
        object_map: b.object_map,
        label_map: b.label_map,
    }
}

/// The binding with `v` set to object `o`.
pub open spec fn bm_insert_ob(b: BindingModel, v: ObjectVariable, o: usize) -> BindingModel {
    BindingModel {
        event_map: b.event_map,
        object_map: insert_ob_map(b.object_map, v, o),
        label_map: b.label_map,
    }
}

/// One extension of `b` per candidate event that passes the time windows.
pub open spec fn ev_bind_results(
    cands: Seq<usize>,
    cs: Option<Seq<(EventVariable, (Option<i64>, Option<i64>))>>,
    b: BindingModel,
    log: IndexedLog,
    v: EventVariable,
) -> Seq<BindingModel>
    decreases cands.len(),
{
    if cands.len() == 0 {
        Seq::empty()
    } else {
        ev_bind_results(cands.drop_last(), cs, b, log, v) + if time_ok(cs, b, cands.last(), log) {
            seq![bm_insert_ev(b, v, cands.last())]
        } else {
            Seq::empty()
        }
    }
}

/// One extension of `b` per candidate object.
pub open spec fn ob_bind_results(
    cands: Seq<usize>,
    b: BindingModel,
    v: ObjectVariable,
) -> Seq<BindingModel>
    decreases cands.len(),
{
    if cands.len() == 0 {
        Seq::empty()
    } else {
        ob_bind_results(cands.drop_last(), b, v) + seq![bm_insert_ob(b, v, cands.last())]
    }
}

/// The object targets of a relationship list whose qualifier is accepted
/// and whose target's type is in the allowed list, in list order.
pub open spec fn ob_targets(
    rels: Seq<(String, usize)>,
    allowed: Seq<Seq<char>>,
    q: Option<Seq<char>>,
    log: IndexedLog,
) -> Seq<usize>
    decreases rels.len(),
{
    if rels.len() == 0 {
        Seq::empty()
    } else {
        ob_targets(rels.drop_last(), allowed, q, log) + if qual_matches(q, rels.last().0@)
            && allowed.contains(
            log.object_types@[log.objects@[rels.last().1 as int].type_index as int]@,
        ) {
            seq![rels.last().1]
        } else {
            Seq::empty()
        }
    }
}

/// The event targets of a reverse relationship list whose qualifier is
/// accepted and whose target's type is in the allowed list, in list order.
pub open spec fn ev_targets(
    rels: Seq<(String, usize)>,
    allowed: Seq<Seq<char>>,
    q: Option<Seq<char>>,
    log: IndexedLog,
) -> Seq<usize>
    decreases rels.len(),
{
    if rels.len() == 0 {
        Seq::empty()
    } else {
        ev_targets(rels.drop_last(), allowed, q, log) + if qual_matches(q, rels.last().0@)
            && allowed.contains(
            log.event_types@[log.events@[rels.last().1 as int].type_index as int]@,
        ) {
            seq![rels.last().1]
        } else {
            Seq::empty()
        }
    }
}

/// The distinct indices of `s`, first occurrences in order.
pub open spec fn dedup_indices(s: Seq<usize>) -> Seq<usize>
    decreases s.len(),
{
    if s.len() == 0 {
        Seq::empty()
    } else {
        let prev = dedup_indices(s.drop_last());
        if prev.contains(s.last()) {
            prev
        } else {
            prev.push(s.last())
        }
    }
}

/// The bindings one bind step produces from one binding: the step's
/// candidates, each inserted for the step's variable. An unbound source of
/// a relational step yields nothing.
pub open spec fn step_candidates(
    bb: &BindingBox,
    log: IndexedLog,
    s: BindingStepModel,
    b: BindingModel,
) -> Seq<BindingModel> {
    match s {
        BindingStepModel::BindEv(v, cs) => ev_bind_results(
            ev_candidates(lookup_types_ev(bb.new_event_vars.deep_view(), v), log),
            cs,
            b,
            log,
            v,
        ),
        BindingStepModel::BindOb(v) => ob_bind_results(
            ob_candidates(lookup_types_ob(bb.new_object_vars.deep_view(), v), log),
            b,
            v,
        ),
        BindingStepModel::BindObFromEv(v, from, q) => match lookup_ev_map(b.event_map, from) {
            Some(e) => ob_bind_results(
                dedup_indices(
                    ob_targets(
                        log.events@[e as int].e2o@,
                        lookup_types_ob(bb.new_object_vars.deep_view(), v),
                        q,
                        log,
                    ),
                ),
                b,
                v,
            ),
            None => Seq::empty(),
        },
        BindingStepModel::BindObFromOb(v, from, q, reversed) => match lookup_ob_map(
            b.object_map,
            from,
        ) {
            Some(o) => if reversed {
                ob_bind_results(
                    ob_targets(
                        log.o2o_rev@[o as int]@,
                        lookup_types_ob(bb.new_object_vars.deep_view(), v),
                        q,
                        log,
                    ),
                    b,
                    v,
                )
            } else {
                ob_bind_results(
                    dedup_indices(
                        ob_targets(
                            log.objects@[o as int].o2o@,
                            lookup_types_ob(bb.new_object_vars.deep_view(), v),
                            q,
                            log,
                        ),
                    ),
                    b,
                    v,
                )
            },
            None => Seq::empty(),
        },
        BindingStepModel::BindEvFromOb(v, from, q) => match lookup_ob_map(b.object_map, from) {
            Some(o) => ev_bind_results(
                ev_targets(
                    log.e2o_rev@[o as int]@,
                    lookup_types_ev(bb.new_event_vars.deep_view(), v),
                    q,
                    log,
                ),
                None,
                b,
                log,
                v,
            ),
            None => Seq::empty(),
        },
        BindingStepModel::Filter(_) => Seq::empty(),
    }
}

/// The bindings a bind step produces from a list of bindings, in order.
pub open spec fn expand_step_all(
    bb: &BindingBox,
    log: IndexedLog,
    s: BindingStepModel,
    current: Seq<BindingModel>,
) -> Seq<BindingModel>
    decreases current.len(),
{
    if current.len() == 0 {
        Seq::empty()
    } else {
        expand_step_all(bb, log, s, current.drop_last()) + step_candidates(
            bb,
            log,
            s,
            current.last(),
        )
    }
}

/// The bindings of `current` that pass the filter, in order.
pub open spec fn filter_all(
    f: FilterModel,
    current: Seq<BindingModel>,
    log: IndexedLog,
) -> Seq<BindingModel>
    decreases current.len(),
{
    if current.len() == 0 {
        Seq::empty()
    } else {
        filter_all(f, current.drop_last(), log) + if filter_holds(f, current.last(), log) {
            seq![current.last()]
        } else {
            Seq::empty()
        }
    }
}

/// The meaning of a plan: steps run in order over the list of bindings;
/// after each step everything beyond the cap is dropped and the run stops
/// with the overflow reported.
pub open spec fn expand_spec(
    bb: &BindingBox,
    log: IndexedLog,
    steps: Seq<BindingStepModel>,
    current: Seq<BindingModel>,
    cap: usize,
) -> (Seq<BindingModel>, bool)
    decreases steps.len(),
{
    if steps.len() == 0 {
        (current, false)
    } else {
        let produced = match steps[0] {
            BindingStepModel::Filter(f) => filter_all(f, current, log),
            _ => expand_step_all(bb, log, steps[0], current),
        };
        if produced.len() > cap {
            (produced.take(cap as int), true)
        } else {
            expand_spec(bb, log, steps.skip(1), produced, cap)
        }
    }
}

/// Whether no step of the plan carries an embedded expression program.
pub open spec fn steps_cel_free(steps: Seq<BindingStepModel>) -> bool {
    forall|i: int|
        0 <= i < steps.len() ==> !((#[trigger] steps[i]) matches BindingStepModel::Filter(f)
            && f is BasicFilterCEL)
}

/// Every lookup that succeeds in `b` also succeeds after an event insert,
/// and the inserted variable succeeds.
proof fn lemma_lookup_after_insert_ev(
    s: Seq<(EventVariable, usize)>,
    v: EventVariable,
    idx: usize,
    w: EventVariable,
)
    ensures
        lookup_ev_map(insert_ev_map(s, v, idx), w) == if w == v {
            Some(idx)
        } else {
            lookup_ev_map(s, w)
        },
    decreases s.len(),
{
    if s.len() == 0 {
        assert(insert_ev_map(s, v, idx) == seq![(v, idx)]);
        let r = insert_ev_map(s, v, idx);
        assert(r[0] == (v, idx));
        assert(r.skip(1) =~= Seq::<(EventVariable, usize)>::empty());
        assert(lookup_ev_map(r.skip(1), w) is None);
        if w == v {
            assert(lookup_ev_map(r, w) == Some(idx));
        } else {
            assert(r[0].0 != w);
            assert(lookup_ev_map(r, w) == lookup_ev_map(r.skip(1), w));
        }
    } else if s[0].0.0 < v.0 {
        lemma_lookup_after_insert_ev(s.skip(1), v, idx, w);
        let r = insert_ev_map(s, v, idx);
        assert(r == seq![s[0]] + insert_ev_map(s.skip(1), v, idx));
        assert(r[0] == s[0]);
        assert(r.skip(1) =~= insert_ev_map(s.skip(1), v, idx));
    } else if s[0].0 == v {
        let r = insert_ev_map(s, v, idx);
        assert(r == seq![(v, idx)] + s.skip(1));
        assert(r[0] == (v, idx));
        assert(r.skip(1) =~= s.skip(1));
    } else {
        let r = insert_ev_map(s, v, idx);
        assert(r == seq![(v, idx)] + s);
        assert(r[0] == (v, idx));
        assert(r.skip(1) =~= s);
    }
}

/// Every lookup that succeeds in `b` also succeeds after an object insert,
/// and the inserted variable succeeds.
proof fn lemma_lookup_after_insert_ob(
    s: Seq<(ObjectVariable, usize)>,
    v: ObjectVariable,
    idx: usize,
    w: ObjectVariable,
)
    ensures
        lookup_ob_map(insert_ob_map(s, v, idx), w) == if w == v {
            Some(idx)
        } else {
            lookup_ob_map(s, w)
        },
    decreases s.len(),
{
    if s.len() == 0 {
        assert(insert_ob_map(s, v, idx) == seq![(v, idx)]);
        let r = insert_ob_map(s, v, idx);
        assert(r[0] == (v, idx));
        assert(r.skip(1) =~= Seq::<(ObjectVariable, usize)>::empty());
        assert(lookup_ob_map(r.skip(1), w) is None);
        if w == v {
            assert(lookup_ob_map(r, w) == Some(idx));
        } else {
            assert(r[0].0 != w);
            assert(lookup_ob_map(r, w) == lookup_ob_map(r.skip(1), w));
        }
    } else if s[0].0.0 < v.0 {
        lemma_lookup_after_insert_ob(s.skip(1), v, idx, w);
        let r = insert_ob_map(s, v, idx);
        assert(r == seq![s[0]] + insert_ob_map(s.skip(1), v, idx));
        assert(r[0] == s[0]);
        assert(r.skip(1) =~= insert_ob_map(s.skip(1), v, idx));
    } else if s[0].0 == v {
        let r = insert_ob_map(s, v, idx);
        assert(r == seq![(v, idx)] + s.skip(1));
        assert(r[0] == (v, idx));
        assert(r.skip(1) =~= s.skip(1));
    } else {
        let r = insert_ob_map(s, v, idx);
        assert(r == seq![(v, idx)] + s);
        assert(r[0] == (v, idx));
        assert(r.skip(1) =~= s);
    }
}

impl BindingBox {
    /// Expands the parent binding through the steps of the plan.
    ///
    /// Returns the produced bindings and whether the cap dropped any. For a
    /// plan without embedded expression programs the result is exactly
    /// [`expand_spec`] of the plan on the parent binding and no error
    /// occurs; an error can only come from an embedded expression program.
    /// Every returned binding is well-formed, holds only valid log indices,
    /// and binds every variable the parent binds and every variable the
    /// plan binds.
    pub fn expand_with_steps<C: CelEnv>(
        &self,
        parent_binding: Binding,
        log: &IndexedLog,
        steps: &Vec<BindingStep>,
        max_bindings: usize,
        cel: &C,
    ) -> (r: Result<(Vec<Binding>, bool), EvalError>)
        requires
            log.wf(),
            parent_binding.wf(),
            binding_indices_valid(parent_binding.deep_view(), *log),
            plan_safe(steps.deep_view(), parent_binding.deep_view()),
        ensures
            match r {
                Ok(out) => {
                    &&& steps_cel_free(steps.deep_view()) ==> (out.0.deep_view(), out.1)
                        == expand_spec(
                        self,
                        *log,
                        steps.deep_view(),
                        seq![parent_binding.deep_view()],
                        max_bindings,
                    )
                    &&& forall|k: int|
                        0 <= k < out.0@.len() ==> (#[trigger] out.0@[k]).wf()
                            && binding_indices_valid(out.0@[k].deep_view(), *log)
                    &&& !out.1 ==> forall|k: int, w: Variable|
                        0 <= k < out.0@.len() && (bound_in_parent(parent_binding.deep_view(), w)
                            || plan_prefix_binds(
                            steps.deep_view(),
                            steps.deep_view().len() as int,
                            w,
                        )) ==> #[trigger] lookup_any(out.0@[k].deep_view(), w) is Some
                },
                Err(_) => !steps_cel_free(steps.deep_view()),
            },
    {
        let ghost parent_model = parent_binding.deep_view();
        let ghost steps_model = steps.deep_view();
        let mut current: Vec<Binding> = Vec::new();
        current.push(parent_binding);
        proof {
            assert(current.deep_view() =~= seq![parent_model]);
            assert(steps_model.skip(0) =~= steps_model);
        }
        let n = steps.len();
        let mut i: usize = 0;
        while i < n
            invariant
                n == steps@.len(),
                steps_model == steps.deep_view(),
                i <= n,
                log.wf(),
                plan_safe(steps_model, parent_model),
                steps_cel_free(steps_model) ==> expand_spec(
                    self,
                    *log,
                    steps_model,
                    seq![parent_model],
                    max_bindings,
                ) == expand_spec(
                    self,
                    *log,
                    steps_model.skip(i as int),
                    current.deep_view(),
                    max_bindings,
                ),
                forall|k: int|
                    0 <= k < current@.len() ==> (#[trigger] current@[k]).wf()
                        && binding_indices_valid(current@[k].deep_view(), *log),
                forall|k: int, w: Variable|
                    0 <= k < current@.len() && (bound_in_parent(parent_model, w)
                        || plan_prefix_binds(steps_model, i as int, w)) ==> #[trigger] lookup_any(
                        current@[k].deep_view(),
                        w,
                    ) is Some,
            decreases n - i,
        {
            let ghost cur0 = current.deep_view();
            let step = &steps[i];
            let produced: Vec<Binding> = match step {
                BindingStep::Filter(f) => {
                    let mut out: Vec<Binding> = Vec::new();
                    let m = current.len();
                    let mut k: usize = 0;
                    proof {
                        assert(cur0.take(0) =~= Seq::<BindingModel>::empty());
                    }
                    while k < m
                        invariant
                            m == current@.len(),
                            k <= m,
                            cur0 == current.deep_view(),
                            steps_model == steps.deep_view(),
                            i < n,
                            n == steps@.len(),
                            log.wf(),
                            plan_safe(steps_model, parent_model),
                            steps@[i as int] == *step,
                            step matches BindingStep::Filter(ff) && ff == f,
                            forall|w: int|
                                0 <= w < current@.len() ==> (#[trigger] current@[w]).wf()
                                    && binding_indices_valid(current@[w].deep_view(), *log),
                            forall|w: int, x: Variable|
                                0 <= w < current@.len() && (bound_in_parent(parent_model, x)
                                    || plan_prefix_binds(steps_model, i as int, x))
                                    ==> #[trigger] lookup_any(
                                    current@[w].deep_view(),
                                    x,
                                ) is Some,
                            !(f.deep_view() is BasicFilterCEL) ==> out.deep_view() == filter_all(
                                f.deep_view(),
                                cur0.take(k as int),
                                *log,
                            ),
                            forall|w: int|
                                0 <= w < out@.len() ==> (#[trigger] out@[w]).wf()
                                    && binding_indices_valid(out@[w].deep_view(), *log),
                            forall|w: int, x: Variable|
                                0 <= w < out@.len() && (bound_in_parent(parent_model, x)
                                    || plan_prefix_binds(steps_model, i as int, x))
                                    ==> #[trigger] lookup_any(
                                    out@[w].deep_view(),
                                    x,
                                ) is Some,
                        decreases m - k,
                    {
                        proof {
                            assert(cur0.take(k + 1).drop_last() =~= cur0.take(k as int));
                            assert(cur0.take(k + 1).last() == cur0[k as int]);
                            assert(cur0[k as int] == current@[k as int].deep_view());
                            assert forall|x: int|
                                0 <= x < involved_vars(f.deep_view()).len() implies lookup_ok_for(
                                current@[k as int].deep_view(),
                                involved_vars(f.deep_view())[x],
                            ) by {
                                assert(step_reads(steps_model[i as int])[x] == involved_vars(
                                    f.deep_view(),
                                )[x]);
                            }
                            lemma_filter_no_error(
                                f.deep_view(),
                                current@[k as int].deep_view(),
                            );
                        }
                        let keep = match f.check_binding(&current[k], log, cel) {
                            Ok(x) => x,
                            Err(e) => {
                                proof {
                                    assert((steps_model[i as int]
                                        matches BindingStepModel::Filter(fm)
                                        && fm is BasicFilterCEL));
                                    assert(!steps_cel_free(steps_model));
                                }
                                return Err(e);
                            },
                        };
                        if keep {
                            let ghost out0 = out.deep_view();
                            out.push(current[k].clone());
                            proof {
                                assert(out.deep_view() =~= out0.push(cur0[k as int]));
                            }
                        }
                        k = k + 1;
                    }
                    proof {
                        assert(cur0.take(m as int) =~= cur0);
                    }
                    out
                },
                _ => {
                    let mut out: Vec<Binding> = Vec::new();
                    let m = current.len();
                    let mut k: usize = 0;
                    proof {
                        assert(cur0.take(0) =~= Seq::<BindingModel>::empty());
                    }
                    while k < m
                        invariant
                            m == current@.len(),
                            k <= m,
                            cur0 == current.deep_view(),
                            steps_model == steps.deep_view(),
                            i < n,
                            n == steps@.len(),
                            log.wf(),
                            steps@[i as int] == *step,
                            !(step matches BindingStep::Filter(_)),
                            forall|w: int|
                                0 <= w < current@.len() ==> (#[trigger] current@[w]).wf()
                                    && binding_indices_valid(current@[w].deep_view(), *log),
                            forall|w: int, x: Variable|
                                0 <= w < current@.len() && (bound_in_parent(parent_model, x)
                                    || plan_prefix_binds(steps_model, i as int, x))
                                    ==> #[trigger] lookup_any(
                                    current@[w].deep_view(),
                                    x,
                                ) is Some,
                            out.deep_view() == expand_step_all(
                                self,
                                *log,
                                step.deep_view(),
                                cur0.take(k as int),
                            ),
                            forall|w: int|
                                0 <= w < out@.len() ==> (#[trigger] out@[w]).wf()
                                    && binding_indices_valid(out@[w].deep_view(), *log),
                            forall|w: int, x: Variable|
                                0 <= w < out@.len() && (bound_in_parent(parent_model, x)
                                    || plan_prefix_binds(steps_model, i as int, x) || Some(x)
                                    == step_bound_var(step.deep_view())) ==> #[trigger] lookup_any(
                                    out@[w].deep_view(),
                                    x,
                                ) is Some,
                        decreases m - k,
                    {
                        proof {
                            assert(cur0.take(k + 1).drop_last() =~= cur0.take(k as int));
                            assert(cur0.take(k + 1).last() == cur0[k as int]);
                            assert(cur0[k as int] == current@[k as int].deep_view());
                        }
                        let ghost out0 = out.deep_view();
                        let mut adds = bind_one(self, log, &current[k], step);
                        let ghost adds_model = adds.deep_view();
                        let ghost adds_raw = adds@;
                        out.append(&mut adds);
                        proof {
                            assert(out.deep_view() =~= out0 + adds_model);
                            assert(out.deep_view() =~= expand_step_all(
                                self,
                                *log,
                                step.deep_view(),
                                cur0.take(k + 1),
                            ));
                            assert forall|w: int|
                                0 <= w < out@.len() implies (#[trigger] out@[w]).wf()
                                && binding_indices_valid(out@[w].deep_view(), *log) by {
                                if w >= out0.len() {
                                    assert(out@[w] == adds_raw[w - out0.len()]);
                                }
                            }
                            assert forall|w: int, x: Variable|
                                0 <= w < out@.len() && (bound_in_parent(parent_model, x)
                                    || plan_prefix_binds(steps_model, i as int, x) || Some(x)
                                    == step_bound_var(step.deep_view())) implies #[trigger] lookup_any(
                                out@[w].deep_view(),
                                x,
                            ) is Some by {
                                if w >= out0.len() {
                                    assert(out@[w] == adds_raw[w - out0.len()]);
                                    if bound_in_parent(parent_model, x) || plan_prefix_binds(
                                        steps_model,
                                        i as int,
                                        x,
                                    ) {
                                        assert(lookup_any(cur0[k as int], x) is Some);
                                    }
                                }
                            }
                        }
                        k = k + 1;
                    }
                    proof {
                        assert(cur0.take(m as int) =~= cur0);
                    }
                    out
                },
            };
            let ghost produced_model = produced.deep_view();
            if produced.len() > max_bindings {
                let mut truncated = produced;
                let ghost before = truncated.deep_view();
                truncated.truncate(max_bindings);
                proof {
                    assert(truncated.deep_view() =~= produced_model.take(max_bindings as int));
                    assert forall|k: int|
                        0 <= k < truncated@.len() implies (#[trigger] truncated@[k]).wf()
                        && binding_indices_valid(truncated@[k].deep_view(), *log) by {
                        assert(truncated@[k] == produced@[k]);
                    }
                }
                return Ok((truncated, true));
            }
            current = produced;
            i = i + 1;
            proof {
                assert(steps_model.skip(i - 1).skip(1) =~= steps_model.skip(i as int));
                assert(steps_model.skip(i - 1)[0] == steps_model[i - 1]);
                assert forall|k: int, w: Variable|
                    0 <= k < current@.len() && (bound_in_parent(parent_model, w)
                        || plan_prefix_binds(steps_model, i as int, w)) implies #[trigger] lookup_any(
                    current@[k].deep_view(),
                    w,
                ) is Some by {
                    if !bound_in_parent(parent_model, w) && !plan_prefix_binds(
                        steps_model,
                        i - 1,
                        w,
                    ) {
                        let j = choose|j: int|
                            0 <= j < i && step_bound_var(#[trigger] steps_model[j]) == Some(w);
                        assert(j == i - 1);
                    }
                }
            }
        }
        proof {
            assert(steps_model.skip(n as int) =~= Seq::<BindingStepModel>::empty());
        }
        Ok((current, false))
    }

    /// Plans the box against the parent binding and expands it.
    ///
    /// Fails exactly when planning fails (a declared type unknown to the
    /// log, or a filter variable neither declared nor parent-bound) or when
    /// an embedded expression program of the box reports an error. On
    /// success some plan exists that carries the planner's guarantees —
    /// safety, every new variable bound once, every filter covered once —
    /// and, for a box without embedded expression programs, the result is
    /// exactly [`expand_spec`] of that plan on the parent binding.
    pub fn expand<C: CelEnv>(
        &self,
        parent_binding: Binding,
        log: &IndexedLog,
        max_bindings: usize,
        cel: &C,
    ) -> (r: Result<(Vec<Binding>, bool), EvalError>)
        requires
            log.wf(),
            parent_binding.wf(),
            binding_indices_valid(parent_binding.deep_view(), *log),
        ensures
            match r {
                Ok(out) => {
                    &&& crate::planner::plan_input_ok(self, parent_binding.deep_view(), *log)
                    &&& exists|pm: Seq<BindingStepModel>|
                        #[trigger] crate::planner::plan_guarantees(
                            pm,
                            self,
                            parent_binding.deep_view(),
                            *log,
                        ) && (steps_cel_free(pm) ==> (out.0.deep_view(), out.1) == expand_spec(
                            self,
                            *log,
                            pm,
                            seq![parent_binding.deep_view()],
                            max_bindings,
                        ))
                    &&& forall|k: int|
                        0 <= k < out.0@.len() ==> (#[trigger] out.0@[k]).wf()
                            && binding_indices_valid(out.0@[k].deep_view(), *log)
                },
                Err(_) => !crate::planner::plan_input_ok(self, parent_binding.deep_view(), *log)
                    || !box_cel_free(self),
            },
    {
        let steps = match BindingStep::get_binding_order(self, Some(&parent_binding), log) {
            Ok(s) => s,
            Err(e) => {
                return Err(e);
            },
        };
        let ghost pm = steps.deep_view();
        let ghost parent_model = parent_binding.deep_view();
        match self.expand_with_steps(parent_binding, log, &steps, max_bindings, cel) {
            Ok(out) => {
                proof {
                    assert(crate::planner::plan_guarantees(pm, self, parent_model, *log) && (
                    steps_cel_free(pm) ==> (out.0.deep_view(), out.1) == expand_spec(
                        self,
                        *log,
                        pm,
                        seq![parent_model],
                        max_bindings,
                    )));
                }
                Ok(out)
            },
            Err(e) => {
                proof {
                    lemma_plan_with_cel_filter(pm, self, parent_model, *log);
                }
                Err(e)
            },
        }
    }
}

/// Whether no filter of the box carries an embedded expression program.
pub open spec fn box_cel_free(bb: &BindingBox) -> bool {
    forall|fi: int|
        0 <= fi < bb.filters@.len() ==> !((#[trigger] bb.filters.deep_view()[fi])
            is BasicFilterCEL)
}

/// A plan with an expression filter step comes from a box with an
/// expression filter: every filter step of a guaranteed plan is one of the
/// box's filters.
pub(crate) proof fn lemma_plan_with_cel_filter(
    pm: Seq<BindingStepModel>,
    bb: &BindingBox,
    parent: BindingModel,
    log: IndexedLog,
)
    requires
        crate::planner::plan_guarantees(pm, bb, parent, log),
        !steps_cel_free(pm),
    ensures
        !box_cel_free(bb),
{
    let i = choose|i: int|
        0 <= i < pm.len() && ((#[trigger] pm[i]) matches BindingStepModel::Filter(f)
            && f is BasicFilterCEL);
    assert(bb.filters.deep_view().contains(pm[i]->Filter_0));
    let fi = choose|fi: int|
        0 <= fi < bb.filters.deep_view().len() && #[trigger] bb.filters.deep_view()[fi] == pm[
            i
        ]->Filter_0;
}

/// Whether one produced binding is well-formed and in range for the log.
pub open spec fn wf_valid_for(b: BindingModel, log: IndexedLog) -> bool {
    binding_indices_valid(b, log)
}

/// Helper naming for lookups inside proofs.
pub open spec fn lookup_ok_for(b: BindingModel, v: Variable) -> bool {
    lookup_any(b, v) is Some
}

/// If all variables a filter involves are bound in the binding, the filter
/// check reports no error.
proof fn lemma_filter_no_error(f: FilterModel, b: BindingModel)
    requires
        forall|x: int|
            0 <= x < involved_vars(f).len() ==> lookup_ok_for(b, #[trigger] involved_vars(f)[x]),
    ensures
        filter_error(f, b) is None,
{
    match f {
        FilterModel::O2E { object, event, .. } => {
            assert(involved_vars(f)[0] == Variable::Object(object));
            assert(involved_vars(f)[1] == Variable::Event(event));
        },
        FilterModel::O2O { object, other_object, .. } => {
            assert(involved_vars(f)[0] == Variable::Object(object));
            assert(involved_vars(f)[1] == Variable::Object(other_object));
        },
        FilterModel::TimeBetweenEvents { from_event, to_event, .. } => {
            assert(involved_vars(f)[0] == Variable::Event(from_event));
            assert(involved_vars(f)[1] == Variable::Event(to_event));
        },
        _ => {},
    }
}

/// Expands one binding through one bind step.
fn bind_one(
    bbox: &BindingBox,
    log: &IndexedLog,
    b: &Binding,
    step: &BindingStep,
) -> (r: Vec<Binding>)
    requires
        log.wf(),
        b.wf(),
        binding_indices_valid(b.deep_view(), *log),
        !(step matches BindingStep::Filter(_)),
    ensures
        r.deep_view() == step_candidates(bbox, *log, step.deep_view(), b.deep_view()),
        forall|w: int|
            0 <= w < r@.len() ==> (#[trigger] r@[w]).wf() && binding_indices_valid(
                r@[w].deep_view(),
                *log,
            ),
        forall|w: int, x: Variable|
            0 <= w < r@.len() && (lookup_any(b.deep_view(), x) is Some || Some(x) == step_bound_var(
                step.deep_view(),
            )) ==> #[trigger] lookup_any(r@[w].deep_view(), x) is Some,
{
    match step {
        BindingStep::BindEv(v, cs) => {
            let types = lookup_ev_types_exec(&bbox.new_event_vars, v);
            let cands = collect_ev_candidates(log, types);
            proof {
                if let Some(list) = cs {
                    assert forall|k: int| 0 <= k < list@.len() implies #[trigger] list.deep_view()[
                        k
                    ] == list@[k] by {
                    }
                    assert(list.deep_view() =~= list@);
                }
            }
            ev_extend(log, b, *v, cs, &cands)
        },
        BindingStep::BindOb(v) => {
            let types = lookup_ob_types_exec(&bbox.new_object_vars, v);
            let cands = collect_ob_candidates(log, types);
            ob_extend(log, b, *v, &cands)
        },
        BindingStep::BindObFromEv(v, from, q) => {
            match b.get_ev_index(from) {
                Some(e) => {
                    proof {
                        crate::filters::lemma_lookup_ev_in_range_pub(b.deep_view(), *log, *from);
                    }
                    let types = lookup_ob_types_exec(&bbox.new_object_vars, v);
                    let targets = collect_ob_targets(log, &log.events[e].e2o, types, q);
                    let deduped = dedup_exec(&targets);
                    proof {
                        lemma_ob_targets_valid(
                            log.events@[e as int].e2o@,
                            lookup_types_ob(bbox.new_object_vars.deep_view(), *v),
                            crate::query::qualifier_view_ref(q),
                            *log,
                        );
                        lemma_dedup_valid(
                            ob_targets(
                                log.events@[e as int].e2o@,
                                lookup_types_ob(bbox.new_object_vars.deep_view(), *v),
                                crate::query::qualifier_view_ref(q),
                                *log,
                            ),
                            log.objects@.len() as int,
                        );
                    }
                    ob_extend(log, b, *v, &deduped)
                },
                None => Vec::new(),
            }
        },
        BindingStep::BindObFromOb(v, from, q, reversed) => {
            match b.get_ob_index(from) {
                Some(o) => {
                    proof {
                        crate::filters::lemma_lookup_ob_in_range_pub(b.deep_view(), *log, *from);
                    }
                    let types = lookup_ob_types_exec(&bbox.new_object_vars, v);
                    if *reversed {
                        let targets = collect_ob_targets(log, &log.o2o_rev[o], types, q);
                        proof {
                            lemma_ob_targets_valid_rev(
                                log.o2o_rev@[o as int]@,
                                lookup_types_ob(bbox.new_object_vars.deep_view(), *v),
                                crate::query::qualifier_view_ref(q),
                                *log,
                                o as int,
                            );
                        }
                        ob_extend(log, b, *v, &targets)
                    } else {
                        let targets = collect_ob_targets(log, &log.objects[o].o2o, types, q);
                        let deduped = dedup_exec(&targets);
                        proof {
                            lemma_ob_targets_valid(
                                log.objects@[o as int].o2o@,
                                lookup_types_ob(bbox.new_object_vars.deep_view(), *v),
                                crate::query::qualifier_view_ref(q),
                                *log,
                            );
                            lemma_dedup_valid(
                                ob_targets(
                                    log.objects@[o as int].o2o@,
                                    lookup_types_ob(bbox.new_object_vars.deep_view(), *v),
                                    crate::query::qualifier_view_ref(q),
                                    *log,
                                ),
                                log.objects@.len() as int,
                            );
                        }
                        ob_extend(log, b, *v, &deduped)
                    }
                },
                None => Vec::new(),
            }
        },
        BindingStep::BindEvFromOb(v, from, q) => {
            match b.get_ob_index(from) {
                Some(o) => {
                    proof {
                        crate::filters::lemma_lookup_ob_in_range_pub(b.deep_view(), *log, *from);
                    }
                    let types = lookup_ev_types_exec(&bbox.new_event_vars, v);
                    proof {
                        assert forall|k: int|
                            0 <= k < log.e2o_rev@[o as int]@.len() implies (#[trigger] log.e2o_rev@[
                            o as int
                        ]@[k]).1 < log.events@.len() by {
                            assert(log.e2o_rev@[o as int]@[k] == log.e2o_rev@[o as int]@[k]);
                        }
                    }
                    let targets = collect_ev_targets(log, &log.e2o_rev[o], types, q);
                    proof {
                        lemma_ev_targets_valid(
                            log.e2o_rev@[o as int]@,
                            lookup_types_ev(bbox.new_event_vars.deep_view(), *v),
                            crate::query::qualifier_view_ref(q),
                            *log,
                        );
                    }
                    let no_cs: Option<Vec<(EventVariable, (Option<i64>, Option<i64>))>> = None;
                    ev_extend(log, b, *v, &no_cs, &targets)
                },
                None => Vec::new(),
            }
        },
        BindingStep::Filter(_) => Vec::new(),
    }
}

/// The allowed type list of a new event variable, as declared by the box.
fn lookup_ev_types_exec<'a>(
    s: &'a Vec<(EventVariable, Vec<String>)>,
    v: &EventVariable,
) -> (r: Option<&'a Vec<String>>)
    ensures
        match r {
            Some(ts) => lookup_types_ev(s.deep_view(), *v) == ts.deep_view(),
            None => lookup_types_ev(s.deep_view(), *v) == Seq::<Seq<char>>::empty(),
        },
{
    let n = s.len();
    let mut i: usize = 0;
    proof {
        assert(s.deep_view().skip(0) =~= s.deep_view());
    }
    while i < n
        invariant
            n == s@.len(),
            i <= n,
            lookup_types_ev(s.deep_view(), *v) == lookup_types_ev(
                s.deep_view().skip(i as int),
                *v,
            ),
        decreases n - i,
    {
        proof {
            assert(s.deep_view().skip(i as int)[0] == s.deep_view()[i as int]);
            assert(s.deep_view().skip(i as int).skip(1) =~= s.deep_view().skip(i + 1));
            assert(s.deep_view()[i as int].0 == s@[i as int].0);
            assert(s.deep_view()[i as int].1 == s@[i as int].1.deep_view());
        }
        if s[i].0.0 == v.0 {
            return Some(&s[i].1);
        }
        i = i + 1;
    }
    None
}

/// The allowed type list of a new object variable, as declared by the box.
fn lookup_ob_types_exec<'a>(
    s: &'a Vec<(ObjectVariable, Vec<String>)>,
    v: &ObjectVariable,
) -> (r: Option<&'a Vec<String>>)
    ensures
        match r {
            Some(ts) => lookup_types_ob(s.deep_view(), *v) == ts.deep_view(),
            None => lookup_types_ob(s.deep_view(), *v) == Seq::<Seq<char>>::empty(),
        },
{
    let n = s.len();
    let mut i: usize = 0;
    proof {
        assert(s.deep_view().skip(0) =~= s.deep_view());
    }
    while i < n
        invariant
            n == s@.len(),
            i <= n,
            lookup_types_ob(s.deep_view(), *v) == lookup_types_ob(
                s.deep_view().skip(i as int),
                *v,
            ),
        decreases n - i,
    {
        proof {
            assert(s.deep_view().skip(i as int)[0] == s.deep_view()[i as int]);
            assert(s.deep_view().skip(i as int).skip(1) =~= s.deep_view().skip(i + 1));
            assert(s.deep_view()[i as int].0 == s@[i as int].0);
            assert(s.deep_view()[i as int].1 == s@[i as int].1.deep_view());
        }
        if s[i].0.0 == v.0 {
            return Some(&s[i].1);
        }
        i = i + 1;
    }
    None
}

/// Looks up an event type by name, matching [`find_string_from`].
fn find_ev_type(log: &IndexedLog, t: &String) -> (r: Option<usize>)
    ensures
        match r {
            Some(ti) => find_string_from(log.event_types@, t@, 0) == Some(ti as int) && ti
                < log.event_types@.len(),
            None => find_string_from(log.event_types@, t@, 0) is None,
        },
{
    let n = log.event_types.len();
    let mut i: usize = 0;
    while i < n
        invariant
            n == log.event_types@.len(),
            i <= n,
            find_string_from(log.event_types@, t@, 0) == find_string_from(
                log.event_types@,
                t@,
                i as int,
            ),
        decreases n - i,
    {
        if log.event_types[i] == *t {
            return Some(i);
        }
        i = i + 1;
    }
    None
}

/// Looks up an object type by name, matching [`find_string_from`].
fn find_ob_type(log: &IndexedLog, t: &String) -> (r: Option<usize>)
    ensures
        match r {
            Some(ti) => find_string_from(log.object_types@, t@, 0) == Some(ti as int) && ti
                < log.object_types@.len(),
            None => find_string_from(log.object_types@, t@, 0) is None,
        },
{
    let n = log.object_types.len();
    let mut i: usize = 0;
    while i < n
        invariant
            n == log.object_types@.len(),
            i <= n,
            find_string_from(log.object_types@, t@, 0) == find_string_from(
                log.object_types@,
                t@,
                i as int,
            ),
        decreases n - i,
    {
        if log.object_types[i] == *t {
            return Some(i);
        }
        i = i + 1;
    }
    None
}

/// All candidate events of the allowed types, concatenated in list order.
fn collect_ev_candidates(log: &IndexedLog, types: Option<&Vec<String>>) -> (r: Vec<usize>)
    requires
        log.wf(),
    ensures
        r@ == ev_candidates(
            match types {
                Some(ts) => ts.deep_view(),
                None => Seq::<Seq<char>>::empty(),
            },
            *log,
        ),
        forall|k: int| 0 <= k < r@.len() ==> (#[trigger] r@[k]) < log.events@.len(),
{
    let mut out: Vec<usize> = Vec::new();
    let ts = match types {
        Some(ts) => ts,
        None => {
            proof {
                assert(out@ =~= ev_candidates(Seq::<Seq<char>>::empty(), *log));
            }
            return out;
        },
    };
    let n = ts.len();
    let mut i: usize = 0;
    proof {
        assert(out@ =~= ev_candidates(ts.deep_view().take(0), *log));
    }
    while i < n
        invariant
            n == ts@.len(),
            i <= n,
            log.wf(),
            out@ == ev_candidates(ts.deep_view().take(i as int), *log),
            forall|k: int| 0 <= k < out@.len() ==> (#[trigger] out@[k]) < log.events@.len(),
        decreases n - i,
    {
        proof {
            assert(ts.deep_view().take(i + 1).drop_last() =~= ts.deep_view().take(i as int));
            assert(ts.deep_view().take(i + 1).last() == ts.deep_view()[i as int]);
            assert(ts.deep_view()[i as int] == ts@[i as int]@);
        }
        let ghost out0 = out@;
        match find_ev_type(log, &ts[i]) {
            Some(ti) => {
                proof {
                    assert(log.events_of_type@.len() == log.event_types@.len());
                }
                let evs = &log.events_of_type[ti];
                let m = evs.len();
                let mut j: usize = 0;
                while j < m
                    invariant
                        m == log.events_of_type@[ti as int]@.len(),
                        ti < log.events_of_type@.len(),
                        j <= m,
                        log.wf(),
                        out@ == out0 + log.events_of_type@[ti as int]@.take(j as int),
                        forall|k: int|
                            0 <= k < out@.len() ==> (#[trigger] out@[k]) < log.events@.len(),
                        forall|k: int| 0 <= k < out0.len() ==> out0[k] < log.events@.len(),
                    decreases m - j,
                {
                    out.push(log.events_of_type[ti][j]);
                    proof {
                        assert(out@ =~= out0 + log.events_of_type@[ti as int]@.take(j + 1));
                    }
                    j = j + 1;
                }
                proof {
                    assert(log.events_of_type@[ti as int]@.take(m as int) =~= log.events_of_type@[
                        ti as int
                    ]@);
                    assert(out@ =~= ev_candidates(ts.deep_view().take(i + 1), *log));
                }
            },
            None => {
                proof {
                    assert(ev_type_events(*log, ts.deep_view()[i as int]) =~= Seq::<
                        usize,
                    >::empty());
                    assert(out@ =~= ev_candidates(ts.deep_view().take(i + 1), *log));
                }
            },
        }
        i = i + 1;
    }
    proof {
        assert(ts.deep_view().take(n as int) =~= ts.deep_view());
    }
    out
}

/// All candidate objects of the allowed types, concatenated in list order.
fn collect_ob_candidates(log: &IndexedLog, types: Option<&Vec<String>>) -> (r: Vec<usize>)
    requires
        log.wf(),
    ensures
        r@ == ob_candidates(
            match types {
                Some(ts) => ts.deep_view(),
                None => Seq::<Seq<char>>::empty(),
            },
            *log,
        ),
        forall|k: int| 0 <= k < r@.len() ==> (#[trigger] r@[k]) < log.objects@.len(),
{
    let mut out: Vec<usize> = Vec::new();
    let ts = match types {
        Some(ts) => ts,
        None => {
            proof {
                assert(out@ =~= ob_candidates(Seq::<Seq<char>>::empty(), *log));
            }
            return out;
        },
    };
    let n = ts.len();
    let mut i: usize = 0;
    proof {
        assert(out@ =~= ob_candidates(ts.deep_view().take(0), *log));
    }
    while i < n
        invariant
            n == ts@.len(),
            i <= n,
            log.wf(),
            out@ == ob_candidates(ts.deep_view().take(i as int), *log),
            forall|k: int| 0 <= k < out@.len() ==> (#[trigger] out@[k]) < log.objects@.len(),
        decreases n - i,
    {
        proof {
            assert(ts.deep_view().take(i + 1).drop_last() =~= ts.deep_view().take(i as int));
            assert(ts.deep_view().take(i + 1).last() == ts.deep_view()[i as int]);
            assert(ts.deep_view()[i as int] == ts@[i as int]@);
        }
        let ghost out0 = out@;
        match find_ob_type(log, &ts[i]) {
            Some(ti) => {
                proof {
                    assert(log.objects_of_type@.len() == log.object_types@.len());
                }
                let obs = &log.objects_of_type[ti];
                let m = obs.len();
                let mut j: usize = 0;
                while j < m
                    invariant
                        m == log.objects_of_type@[ti as int]@.len(),
                        ti < log.objects_of_type@.len(),
                        j <= m,
                        log.wf(),
                        out@ == out0 + log.objects_of_type@[ti as int]@.take(j as int),
                        forall|k: int|
                            0 <= k < out@.len() ==> (#[trigger] out@[k]) < log.objects@.len(),
                        forall|k: int| 0 <= k < out0.len() ==> out0[k] < log.objects@.len(),
                    decreases m - j,
                {
                    out.push(log.objects_of_type[ti][j]);
                    proof {
                        assert(out@ =~= out0 + log.objects_of_type@[ti as int]@.take(j + 1));
                    }
                    j = j + 1;
                }
                proof {
                    assert(log.objects_of_type@[ti as int]@.take(m as int) =~= log.objects_of_type@[
                        ti as int
                    ]@);
                    assert(out@ =~= ob_candidates(ts.deep_view().take(i + 1), *log));
                }
            },
            None => {
                proof {
                    assert(ob_type_objects(*log, ts.deep_view()[i as int]) =~= Seq::<
                        usize,
                    >::empty());
                    assert(out@ =~= ob_candidates(ts.deep_view().take(i + 1), *log));
                }
            },
        }
        i = i + 1;
    }
    proof {
        assert(ts.deep_view().take(n as int) =~= ts.deep_view());
    }
    out
}

/// The object targets of a relationship list that pass the qualifier and
/// type restrictions, in list order.
fn collect_ob_targets(
    log: &IndexedLog,
    rels: &Vec<(String, usize)>,
    types: Option<&Vec<String>>,
    q: &Option<String>,
) -> (r: Vec<usize>)
    requires
        log.wf(),
        forall|k: int| 0 <= k < rels@.len() ==> (#[trigger] rels@[k]).1 < log.objects@.len(),
    ensures
        r@ == ob_targets(
            rels@,
            match types {
                Some(ts) => ts.deep_view(),
                None => Seq::<Seq<char>>::empty(),
            },
            crate::query::qualifier_view_ref(q),
            *log,
        ),
{
    let ghost allowed = match types {
        Some(ts) => ts.deep_view(),
        None => Seq::<Seq<char>>::empty(),
    };
    let mut out: Vec<usize> = Vec::new();
    let n = rels.len();
    let mut i: usize = 0;
    proof {
        assert(out@ =~= ob_targets(rels@.take(0), allowed, crate::query::qualifier_view_ref(q), *log));
    }
    while i < n
        invariant
            n == rels@.len(),
            i <= n,
            log.wf(),
            forall|k: int| 0 <= k < rels@.len() ==> (#[trigger] rels@[k]).1 < log.objects@.len(),
            allowed == (match types {
                Some(ts) => ts.deep_view(),
                None => Seq::<Seq<char>>::empty(),
            }),
            out@ == ob_targets(rels@.take(i as int), allowed, crate::query::qualifier_view_ref(q), *log),
        decreases n - i,
    {
        proof {
            assert(rels@.take(i + 1).drop_last() =~= rels@.take(i as int));
            assert(rels@.take(i + 1).last() == rels@[i as int]);
        }
        let qual_ok = match q {
            None => true,
            Some(qs) => rels[i].0 == *qs,
        };
        let type_ok = if qual_ok {
            let o = rels[i].1;
            let tname = &log.object_types[log.objects[o].type_index];
            match types {
                Some(ts) => type_list_contains(ts, tname),
                None => false,
            }
        } else {
            false
        };
        if qual_ok && type_ok {
            out.push(rels[i].1);
            proof {
                assert(out@ =~= ob_targets(rels@.take(i + 1), allowed, crate::query::qualifier_view_ref(q), *log));
            }
        } else {
            proof {
                assert(out@ =~= ob_targets(rels@.take(i + 1), allowed, crate::query::qualifier_view_ref(q), *log));
            }
        }
        i = i + 1;
    }
    proof {
        assert(rels@.take(n as int) =~= rels@);
    }
    out
}

/// The event targets of a reverse relationship list that pass the qualifier
/// and type restrictions, in list order.
fn collect_ev_targets(
    log: &IndexedLog,
    rels: &Vec<(String, usize)>,
    types: Option<&Vec<String>>,
    q: &Option<String>,
) -> (r: Vec<usize>)
    requires
        log.wf(),
        forall|k: int| 0 <= k < rels@.len() ==> (#[trigger] rels@[k]).1 < log.events@.len(),
    ensures
        r@ == ev_targets(
            rels@,
            match types {
                Some(ts) => ts.deep_view(),
                None => Seq::<Seq<char>>::empty(),
            },
            crate::query::qualifier_view_ref(q),
            *log,
        ),
{
    let ghost allowed = match types {
        Some(ts) => ts.deep_view(),
        None => Seq::<Seq<char>>::empty(),
    };
    let mut out: Vec<usize> = Vec::new();
    let n = rels.len();
    let mut i: usize = 0;
    proof {
        assert(out@ =~= ev_targets(rels@.take(0), allowed, crate::query::qualifier_view_ref(q), *log));
    }
    while i < n
        invariant
            n == rels@.len(),
            i <= n,
            log.wf(),
            forall|k: int| 0 <= k < rels@.len() ==> (#[trigger] rels@[k]).1 < log.events@.len(),
            allowed == (match types {
                Some(ts) => ts.deep_view(),
                None => Seq::<Seq<char>>::empty(),
            }),
            out@ == ev_targets(rels@.take(i as int), allowed, crate::query::qualifier_view_ref(q), *log),
        decreases n - i,
    {
        proof {
            assert(rels@.take(i + 1).drop_last() =~= rels@.take(i as int));
            assert(rels@.take(i + 1).last() == rels@[i as int]);
        }
        let qual_ok = match q {
            None => true,
            Some(qs) => rels[i].0 == *qs,
        };
        let type_ok = if qual_ok {
            let e = rels[i].1;
            let tname = &log.event_types[log.events[e].type_index];
            match types {
                Some(ts) => type_list_contains(ts, tname),
                None => false,
            }
        } else {
            false
        };
        if qual_ok && type_ok {
            out.push(rels[i].1);
            proof {
                assert(out@ =~= ev_targets(rels@.take(i + 1), allowed, crate::query::qualifier_view_ref(q), *log));
            }
        } else {
            proof {
                assert(out@ =~= ev_targets(rels@.take(i + 1), allowed, crate::query::qualifier_view_ref(q), *log));
            }
        }
        i = i + 1;
    }
    proof {
        assert(rels@.take(n as int) =~= rels@);
    }
    out
}

/// Whether the type-name list holds `x`.
fn type_list_contains(ts: &Vec<String>, x: &String) -> (r: bool)
    ensures
        r == ts.deep_view().contains(x@),
{
    let n = ts.len();
    let mut i: usize = 0;
    while i < n
        invariant
            n == ts@.len(),
            i <= n,
            forall|k: int| 0 <= k < i ==> ts.deep_view()[k] != x@,
        decreases n - i,
    {
        if ts[i] == *x {
            assert(ts.deep_view()[i as int] == x@);
            return true;
        }
        assert(ts.deep_view()[i as int] == ts@[i as int]@);
        i = i + 1;
    }
    assert(!ts.deep_view().contains(x@));
    false
}

/// First occurrences of the indices, in order.
fn dedup_exec(s: &Vec<usize>) -> (r: Vec<usize>)
    ensures
        r@ == dedup_indices(s@),
{
    let mut out: Vec<usize> = Vec::new();
    let n = s.len();
    let mut i: usize = 0;
    proof {
        assert(s@.take(0) =~= Seq::<usize>::empty());
    }
    while i < n
        invariant
            n == s@.len(),
            i <= n,
            out@ == dedup_indices(s@.take(i as int)),
        decreases n - i,
    {
        proof {
            assert(s@.take(i + 1).drop_last() =~= s@.take(i as int));
            assert(s@.take(i + 1).last() == s@[i as int]);
        }
        let x = s[i];
        let mut seen = false;
        let m = out.len();
        let mut k: usize = 0;
        while k < m
            invariant
                m == out@.len(),
                k <= m,
                seen == out@.take(k as int).contains(x),
            decreases m - k,
        {
            proof {
                assert(out@.take(k + 1).drop_last() =~= out@.take(k as int));
            }
            if out[k] == x {
                seen = true;
            }
            proof {
                if out@.take(k as int).contains(x) {
                    assert(out@.take(k + 1).contains(x));
                }
                if out@[k as int] == x {
                    assert(out@.take(k + 1)[k as int] == x);
                }
                if seen != out@.take(k + 1).contains(x) {
                    assert(out@.take(k + 1).contains(x));
                    let w = choose|w: int| 0 <= w < k + 1 && #[trigger] out@.take(k + 1)[w] == x;
                    assert(out@.take(k as int).contains(x) || out@[k as int] == x);
                }
            }
            k = k + 1;
        }
        proof {
            assert(out@.take(m as int) =~= out@);
        }
        if !seen {
            out.push(x);
        }
        i = i + 1;
    }
    proof {
        assert(s@.take(n as int) =~= s@);
    }
    out
}

/// Every target produced from a forward relationship list is a valid object.
proof fn lemma_ob_targets_valid(
    rels: Seq<(String, usize)>,
    allowed: Seq<Seq<char>>,
    q: Option<Seq<char>>,
    log: IndexedLog,
)
    requires
        forall|k: int| 0 <= k < rels.len() ==> (#[trigger] rels[k]).1 < log.objects@.len(),
    ensures
        forall|k: int|
            0 <= k < ob_targets(rels, allowed, q, log).len() ==> (#[trigger] ob_targets(
                rels,
                allowed,
                q,
                log,
            )[k]) < log.objects@.len(),
    decreases rels.len(),
{
    if rels.len() > 0 {
        assert forall|k: int| 0 <= k < rels.drop_last().len() implies (#[trigger] rels.drop_last()[
            k
        ]).1 < log.objects@.len() by {
            assert(rels.drop_last()[k] == rels[k]);
        }
        lemma_ob_targets_valid(rels.drop_last(), allowed, q, log);
        let r = ob_targets(rels, allowed, q, log);
        let prev = ob_targets(rels.drop_last(), allowed, q, log);
        assert forall|k: int| 0 <= k < r.len() implies (#[trigger] r[k]) < log.objects@.len() by {
            if k < prev.len() {
                assert(r[k] == prev[k]);
            } else {
                assert(r[k] == rels.last().1);
                assert(rels[rels.len() - 1].1 < log.objects@.len());
            }
        }
    }
}

/// Every target produced from a reverse list is a valid object.
proof fn lemma_ob_targets_valid_rev(
    rels: Seq<(String, usize)>,
    allowed: Seq<Seq<char>>,
    q: Option<Seq<char>>,
    log: IndexedLog,
    o: int,
)
    requires
        log.wf(),
        0 <= o < log.o2o_rev@.len(),
        rels == log.o2o_rev@[o]@,
    ensures
        forall|k: int|
            0 <= k < ob_targets(rels, allowed, q, log).len() ==> (#[trigger] ob_targets(
                rels,
                allowed,
                q,
                log,
            )[k]) < log.objects@.len(),
{
    assert forall|k: int| 0 <= k < rels.len() implies (#[trigger] rels[k]).1
        < log.objects@.len() by {
        assert(log.o2o_rev@[o]@[k].1 < log.objects@.len());
    }
    lemma_ob_targets_valid(rels, allowed, q, log);
}

/// Every event target produced from a relationship list is a valid event.
proof fn lemma_ev_targets_valid(
    rels: Seq<(String, usize)>,
    allowed: Seq<Seq<char>>,
    q: Option<Seq<char>>,
    log: IndexedLog,
)
    requires
        forall|k: int| 0 <= k < rels.len() ==> (#[trigger] rels[k]).1 < log.events@.len(),
    ensures
        forall|k: int|
            0 <= k < ev_targets(rels, allowed, q, log).len() ==> (#[trigger] ev_targets(
                rels,
                allowed,
                q,
                log,
            )[k]) < log.events@.len(),
    decreases rels.len(),
{
    if rels.len() > 0 {
        assert forall|k: int| 0 <= k < rels.drop_last().len() implies (#[trigger] rels.drop_last()[
            k
        ]).1 < log.events@.len() by {
            assert(rels.drop_last()[k] == rels[k]);
        }
        lemma_ev_targets_valid(rels.drop_last(), allowed, q, log);
        let r = ev_targets(rels, allowed, q, log);
        let prev = ev_targets(rels.drop_last(), allowed, q, log);
        assert forall|k: int| 0 <= k < r.len() implies (#[trigger] r[k]) < log.events@.len() by {
            if k < prev.len() {
                assert(r[k] == prev[k]);
            } else {
                assert(r[k] == rels.last().1);
                assert(rels[rels.len() - 1].1 < log.events@.len());
            }
        }
    }
}

/// Deduplication keeps every element below the same bound.
proof fn lemma_dedup_valid(s: Seq<usize>, bound: int)
    requires
        forall|k: int| 0 <= k < s.len() ==> (#[trigger] s[k]) < bound,
    ensures
        forall|k: int| 0 <= k < dedup_indices(s).len() ==> (#[trigger] dedup_indices(s)[k]) < bound,
    decreases s.len(),
{
    if s.len() > 0 {
        assert forall|k: int| 0 <= k < s.drop_last().len() implies (#[trigger] s.drop_last()[k])
            < bound by {
            assert(s.drop_last()[k] == s[k]);
        }
        lemma_dedup_valid(s.drop_last(), bound);
        let r = dedup_indices(s);
        let prev = dedup_indices(s.drop_last());
        assert forall|k: int| 0 <= k < r.len() implies (#[trigger] r[k]) < bound by {
            if k < prev.len() {
                assert(r[k] == prev[k]);
            } else {
                assert(r[k] == s.last());
                assert(s[s.len() - 1] < bound);
            }
        }
    }
}

/// Extends one binding with each candidate event that passes the time
/// windows.
fn ev_extend(
    log: &IndexedLog,
    b: &Binding,
    v: EventVariable,
    cs: &Option<Vec<(EventVariable, (Option<i64>, Option<i64>))>>,
    cands: &Vec<usize>,
) -> (r: Vec<Binding>)
    requires
        log.wf(),
        b.wf(),
        binding_indices_valid(b.deep_view(), *log),
        forall|k: int| 0 <= k < cands@.len() ==> (#[trigger] cands@[k]) < log.events@.len(),
    ensures
        r.deep_view() == ev_bind_results(cands@, cs_view(cs), b.deep_view(), *log, v),
        forall|w: int|
            0 <= w < r@.len() ==> (#[trigger] r@[w]).wf() && binding_indices_valid(
                r@[w].deep_view(),
                *log,
            ),
        forall|w: int, x: Variable|
            0 <= w < r@.len() && (lookup_any(b.deep_view(), x) is Some || x == Variable::Event(v))
                ==> #[trigger] lookup_any(r@[w].deep_view(), x) is Some,
{
    let mut out: Vec<Binding> = Vec::new();
    let n = cands.len();
    let mut i: usize = 0;
    proof {
        assert(cands@.take(0) =~= Seq::<usize>::empty());
    }
    while i < n
        invariant
            n == cands@.len(),
            i <= n,
            log.wf(),
            b.wf(),
            binding_indices_valid(b.deep_view(), *log),
            forall|k: int| 0 <= k < cands@.len() ==> (#[trigger] cands@[k]) < log.events@.len(),
            out.deep_view() == ev_bind_results(
                cands@.take(i as int),
                cs_view(cs),
                b.deep_view(),
                *log,
                v,
            ),
            forall|w: int|
                0 <= w < out@.len() ==> (#[trigger] out@[w]).wf() && binding_indices_valid(
                    out@[w].deep_view(),
                    *log,
                ),
            forall|w: int, x: Variable|
                0 <= w < out@.len() && (lookup_any(b.deep_view(), x) is Some || x
                    == Variable::Event(v)) ==> #[trigger] lookup_any(
                    out@[w].deep_view(),
                    x,
                ) is Some,
        decreases n - i,
    {
        proof {
            assert(cands@.take(i + 1).drop_last() =~= cands@.take(i as int));
            assert(cands@.take(i + 1).last() == cands@[i as int]);
        }
        let e = cands[i];
        let passes = match cs {
            None => true,
            Some(list) => {
                let mut ok = true;
                let lm = list.len();
                let mut k: usize = 0;
                while k < lm
                    invariant
                        lm == list@.len(),
                        k <= lm,
                        e < log.events@.len(),
                        binding_indices_valid(b.deep_view(), *log),
                        ok ==> forall|w: int|
                            0 <= w < k ==> one_time_ok(#[trigger] list@[w], b.deep_view(), e, *log),
                        !ok ==> !time_ok(cs_view(cs), b.deep_view(), e, *log),
                    decreases lm - k,
                {
                    let c = &list[k];
                    let this_ok = match b.get_ev_index(&c.0) {
                        Some(ref_e) => {
                            proof {
                                crate::filters::lemma_lookup_ev_in_range_pub(
                                    b.deep_view(),
                                    *log,
                                    c.0,
                                );
                            }
                            let diff: i128 = log.events[e].time as i128 - log.events[ref_e].time
                                as i128;
                            let lo_ok = match c.1.0 {
                                Some(m) => diff >= m as i128,
                                None => true,
                            };
                            let hi_ok = match c.1.1 {
                                Some(m) => diff <= m as i128,
                                None => true,
                            };
                            lo_ok && hi_ok
                        },
                        None => false,
                    };
                    proof {
                        assert(this_ok == one_time_ok(list@[k as int], b.deep_view(), e, *log));
                        if !this_ok {
                            assert(!time_ok(cs_view(cs), b.deep_view(), e, *log)) by {
                                assert(!one_time_ok(list@[k as int], b.deep_view(), e, *log));
                            }
                        }
                    }
                    ok = ok && this_ok;
                    k = k + 1;
                }
                ok
            },
        };
        proof {
            assert(passes == time_ok(cs_view(cs), b.deep_view(), e, *log));
        }
        if passes {
            let ghost out0 = out.deep_view();
            let nb = b.clone().expand_with_ev(v, e);
            proof {
                assert(nb.deep_view() == bm_insert_ev(b.deep_view(), v, e));
                assert(out.deep_view().push(nb.deep_view()) =~= ev_bind_results(
                    cands@.take(i + 1),
                    cs_view(cs),
                    b.deep_view(),
                    *log,
                    v,
                ));
                lemma_insert_ev_valid(b.deep_view(), v, e, *log);
                assert forall|x: Variable|
                    lookup_any(b.deep_view(), x) is Some || x == Variable::Event(v) implies
                    lookup_any(nb.deep_view(), x) is Some by {
                    match x {
                        Variable::Event(ev) => {
                            lemma_lookup_after_insert_ev(b.deep_view().event_map, v, e, ev);
                        },
                        Variable::Object(ov) => {},
                    }
                }
            }
            out.push(nb);
        } else {
            proof {
                assert(out.deep_view() =~= ev_bind_results(
                    cands@.take(i + 1),
                    cs_view(cs),
                    b.deep_view(),
                    *log,
                    v,
                ));
            }
        }
        i = i + 1;
    }
    proof {
        assert(cands@.take(n as int) =~= cands@);
    }
    out
}

/// Extends one binding with each candidate object.
fn ob_extend(log: &IndexedLog, b: &Binding, v: ObjectVariable, cands: &Vec<usize>) -> (r: Vec<
    Binding,
>)
    requires
        log.wf(),
        b.wf(),
        binding_indices_valid(b.deep_view(), *log),
        forall|k: int| 0 <= k < cands@.len() ==> (#[trigger] cands@[k]) < log.objects@.len(),
    ensures
        r.deep_view() == ob_bind_results(cands@, b.deep_view(), v),
        forall|w: int|
            0 <= w < r@.len() ==> (#[trigger] r@[w]).wf() && binding_indices_valid(
                r@[w].deep_view(),
                *log,
            ),
        forall|w: int, x: Variable|
            0 <= w < r@.len() && (lookup_any(b.deep_view(), x) is Some || x == Variable::Object(v))
                ==> #[trigger] lookup_any(r@[w].deep_view(), x) is Some,
{
    let mut out: Vec<Binding> = Vec::new();
    let n = cands.len();
    let mut i: usize = 0;
    proof {
        assert(cands@.take(0) =~= Seq::<usize>::empty());
    }
    while i < n
        invariant
            n == cands@.len(),
            i <= n,
            log.wf(),
            b.wf(),
            binding_indices_valid(b.deep_view(), *log),
            forall|k: int| 0 <= k < cands@.len() ==> (#[trigger] cands@[k]) < log.objects@.len(),
            out.deep_view() == ob_bind_results(cands@.take(i as int), b.deep_view(), v),
            forall|w: int|
                0 <= w < out@.len() ==> (#[trigger] out@[w]).wf() && binding_indices_valid(
                    out@[w].deep_view(),
                    *log,
                ),
            forall|w: int, x: Variable|
                0 <= w < out@.len() && (lookup_any(b.deep_view(), x) is Some || x
                    == Variable::Object(v)) ==> #[trigger] lookup_any(
                    out@[w].deep_view(),
                    x,
                ) is Some,
        decreases n - i,
    {
        proof {
            assert(cands@.take(i + 1).drop_last() =~= cands@.take(i as int));
            assert(cands@.take(i + 1).last() == cands@[i as int]);
        }
        let o = cands[i];
        let ghost out0 = out.deep_view();
        let nb = b.clone().expand_with_ob(v, o);
        proof {
            assert(nb.deep_view() == bm_insert_ob(b.deep_view(), v, o));
            assert(out.deep_view().push(nb.deep_view()) =~= ob_bind_results(
                cands@.take(i + 1),
                b.deep_view(),
                v,
            ));
            lemma_insert_ob_valid(b.deep_view(), v, o, *log);
            assert forall|x: Variable|
                lookup_any(b.deep_view(), x) is Some || x == Variable::Object(v) implies lookup_any(
                nb.deep_view(),
                x,
            ) is Some by {
                match x {
                    Variable::Object(ov) => {
                        lemma_lookup_after_insert_ob(b.deep_view().object_map, v, o, ov);
                    },
                    Variable::Event(ev) => {},
                }
            }
        }
        out.push(nb);
        i = i + 1;
    }
    proof {
        assert(cands@.take(n as int) =~= cands@);
    }
    out
}

/// Ghost view of an optional time-constraint list.
pub open spec fn cs_view(
    cs: &Option<Vec<(EventVariable, (Option<i64>, Option<i64>))>>,
) -> Option<Seq<(EventVariable, (Option<i64>, Option<i64>))>> {
    match cs {
        Some(list) => Some(list@),
        None => None,
    }
}

/// An event insert keeps all indices of the binding valid.
proof fn lemma_insert_ev_valid(b: BindingModel, v: EventVariable, e: usize, log: IndexedLog)
    requires
        binding_indices_valid(b, log),
        e < log.events@.len(),
    ensures
        binding_indices_valid(bm_insert_ev(b, v, e), log),
    decreases b.event_map.len(),
{
    lemma_insert_ev_map_entries(b.event_map, v, e);
    let nb = bm_insert_ev(b, v, e);
    assert forall|k: int| 0 <= k < nb.event_map.len() implies (#[trigger] nb.event_map[k]).1
        < log.events@.len() by {
        if nb.event_map[k] != (v, e) {
            assert(b.event_map.contains(nb.event_map[k]));
            let w = choose|w: int|
                0 <= w < b.event_map.len() && #[trigger] b.event_map[w] == nb.event_map[k];
        }
    }
}

/// An object insert keeps all indices of the binding valid.
proof fn lemma_insert_ob_valid(b: BindingModel, v: ObjectVariable, o: usize, log: IndexedLog)
    requires
        binding_indices_valid(b, log),
        o < log.objects@.len(),
    ensures
        binding_indices_valid(bm_insert_ob(b, v, o), log),
{
    lemma_insert_ob_map_entries(b.object_map, v, o);
    let nb = bm_insert_ob(b, v, o);
    assert forall|k: int| 0 <= k < nb.object_map.len() implies (#[trigger] nb.object_map[k]).1
        < log.objects@.len() by {
        if nb.object_map[k] != (v, o) {
            assert(b.object_map.contains(nb.object_map[k]));
            let w = choose|w: int|
                0 <= w < b.object_map.len() && #[trigger] b.object_map[w] == nb.object_map[k];
        }
    }
}

/// Every entry of an inserted event map is the new pair or an old entry.
proof fn lemma_insert_ev_map_entries(s: Seq<(EventVariable, usize)>, v: EventVariable, e: usize)
    ensures
        forall|k: int|
            0 <= k < insert_ev_map(s, v, e).len() ==> (#[trigger] insert_ev_map(s, v, e)[k]) == (
            v,
            e,
            ) || s.contains(insert_ev_map(s, v, e)[k]),
    decreases s.len(),
{
    if s.len() > 0 {
        lemma_insert_ev_map_entries(s.skip(1), v, e);
        assert forall|k: int| 0 <= k < insert_ev_map(s, v, e).len() implies (
        #[trigger] insert_ev_map(s, v, e)[k]) == (v, e) || s.contains(insert_ev_map(s, v, e)[k]) by {
            let r = insert_ev_map(s, v, e);
            if s[0].0.0 < v.0 {
                assert(r == seq![s[0]] + insert_ev_map(s.skip(1), v, e));
                if k == 0 {
                    assert(s.contains(s[0]));
                } else {
                    let x = insert_ev_map(s.skip(1), v, e)[k - 1];
                    assert(r[k] == x);
                    if x != (v, e) {
                        assert(s.skip(1).contains(x));
                        let w = choose|w: int|
                            0 <= w < s.skip(1).len() && #[trigger] s.skip(1)[w] == x;
                        assert(s[w + 1] == x);
                    }
                }
            } else if s[0].0 == v {
                assert(r == seq![(v, e)] + s.skip(1));
                if k > 0 {
                    assert(r[k] == s.skip(1)[k - 1]);
                    assert(s[k] == s.skip(1)[k - 1]);
                }
            } else {
                assert(r == seq![(v, e)] + s);
                if k > 0 {
                    assert(r[k] == s[k - 1]);
                }
            }
        }
    }
}

/// Every entry of an inserted object map is the new pair or an old entry.
proof fn lemma_insert_ob_map_entries(s: Seq<(ObjectVariable, usize)>, v: ObjectVariable, o: usize)
    ensures
        forall|k: int|
            0 <= k < insert_ob_map(s, v, o).len() ==> (#[trigger] insert_ob_map(s, v, o)[k]) == (
            v,
            o,
            ) || s.contains(insert_ob_map(s, v, o)[k]),
    decreases s.len(),
{
    if s.len() > 0 {
        lemma_insert_ob_map_entries(s.skip(1), v, o);
        assert forall|k: int| 0 <= k < insert_ob_map(s, v, o).len() implies (
        #[trigger] insert_ob_map(s, v, o)[k]) == (v, o) || s.contains(insert_ob_map(s, v, o)[k]) by {
            let r = insert_ob_map(s, v, o);
            if s[0].0.0 < v.0 {
                assert(r == seq![s[0]] + insert_ob_map(s.skip(1), v, o));
                if k == 0 {
                    assert(s.contains(s[0]));
                } else {
                    let x = insert_ob_map(s.skip(1), v, o)[k - 1];
                    assert(r[k] == x);
                    if x != (v, o) {
                        assert(s.skip(1).contains(x));
                        let w = choose|w: int|
                            0 <= w < s.skip(1).len() && #[trigger] s.skip(1)[w] == x;
                        assert(s[w + 1] == x);
                    }
                }
            } else if s[0].0 == v {
                assert(r == seq![(v, o)] + s.skip(1));
                if k > 0 {
                    assert(r[k] == s.skip(1)[k - 1]);
                    assert(s[k] == s.skip(1)[k - 1]);
                }
            } else {
                assert(r == seq![(v, o)] + s);
                if k > 0 {
                    assert(r[k] == s[k - 1]);
                }
            }
        }
    }
}

/// Raising the hard cap never removes a binding: a run that did not hit the
/// cap returns exactly the same bindings under any higher cap.
pub proof fn lemma_cap_monotonic(
    bb: &BindingBox,
    log: IndexedLog,
    steps: Seq<BindingStepModel>,
    current: Seq<BindingModel>,
    c1: usize,
    c2: usize,
)
    requires
        c1 <= c2,
        !expand_spec(bb, log, steps, current, c1).1,
    ensures
        expand_spec(bb, log, steps, current, c2) == expand_spec(bb, log, steps, current, c1),
    decreases steps.len(),
{
    if steps.len() > 0 {
        let produced = match steps[0] {
            BindingStepModel::Filter(f) => filter_all(f, current, log),
            _ => expand_step_all(bb, log, steps[0], current),
        };
        assert(produced.len() <= c1);
        lemma_cap_monotonic(bb, log, steps.skip(1), produced, c1, c2);
    }
}

/// The bindings a bind step produces when each new binding is checked
/// against a filter the moment it is generated, before it is collected.
pub open spec fn fused_step_all(
    bb: &BindingBox,
    log: IndexedLog,
    s: BindingStepModel,
    f: FilterModel,
    current: Seq<BindingModel>,
) -> Seq<BindingModel>
    decreases current.len(),
{
    if current.len() == 0 {
        Seq::empty()
    } else {
        fused_step_all(bb, log, s, f, current.drop_last()) + filter_all(
            f,
            step_candidates(bb, log, s, current.last()),
            log,
        )
    }
}

/// Filtering distributes over concatenation.
proof fn lemma_filter_all_concat(f: FilterModel, a: Seq<BindingModel>, b: Seq<BindingModel>, log: IndexedLog)
    ensures
        filter_all(f, a + b, log) == filter_all(f, a, log) + filter_all(f, b, log),
    decreases b.len(),
{
    if b.len() == 0 {
        assert(a + b =~= a);
        assert(filter_all(f, a, log) + filter_all(f, b, log) =~= filter_all(f, a, log));
    } else {
        lemma_filter_all_concat(f, a, b.drop_last(), log);
        assert((a + b).drop_last() =~= a + b.drop_last());
        assert((a + b).last() == b.last());
        assert(filter_all(f, a, log) + filter_all(f, b, log) =~= filter_all(f, a, log)
            + filter_all(f, b.drop_last(), log) + (if filter_holds(f, b.last(), log) {
            seq![b.last()]
        } else {
            Seq::<BindingModel>::empty()
        }));
    }
}

/// Opportunistic filter fusion does not change the produced bindings:
/// running a filter on each new binding as a bind step generates it yields
/// exactly the bindings of the bind step followed by the filter step.
pub proof fn lemma_fusion_equivalence(
    bb: &BindingBox,
    log: IndexedLog,
    s: BindingStepModel,
    f: FilterModel,
    current: Seq<BindingModel>,
)
    ensures
        fused_step_all(bb, log, s, f, current) == filter_all(
            f,
            expand_step_all(bb, log, s, current),
            log,
        ),
    decreases current.len(),
{
    if current.len() > 0 {
        lemma_fusion_equivalence(bb, log, s, f, current.drop_last());
        lemma_filter_all_concat(
            f,
            expand_step_all(bb, log, s, current.drop_last()),
            step_candidates(bb, log, s, current.last()),
            log,
        );
    }
}

} // verus!
