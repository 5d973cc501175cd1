//! Step planner: turns one binding box and the variables already bound by
//! its parent into an ordered plan of bind and filter steps.
//!
//! The plan is safe by contract: every step reads only variables that the
//! parent binds or that an earlier step of the plan binds, every new
//! variable of the box is bound by exactly the steps of the plan, and every
//! filter of the box is either emitted as a filter step or absorbed into the
//! relational bind step that was derived from it.
//!
//! The order is chosen by heuristics: a variable reachable through a
//! relationship of an already-bound variable is preferred to a type scan,
//! the relational source with the smallest type population is preferred,
//! events are preferred to objects, and remaining ties fall back to
//! declaration order. The heuristics only pick among safe plans; the
//! contract does not depend on them.
use crate::binding::{lookup_any, Binding, BindingModel};
use crate::filters::involved_vars;
use crate::log::IndexedLog;
use crate::query::{
    BindingBox, BindingStep, BindingStepModel, EvalError, EventVariable, Filter, FilterModel,
    ObjectVariable, Variable, clone_qualifier, qualifier_view_ref,
};
use vstd::prelude::*;

verus! {

/// The variable a step binds, if it is a bind step.
pub open spec fn step_bound_var(s: BindingStepModel) -> Option<Variable> {
    match s {
        BindingStepModel::BindEv(v, _) => Some(Variable::Event(v)),
        BindingStepModel::BindOb(v) => Some(Variable::Object(v)),
        BindingStepModel::BindObFromEv(v, _, _) => Some(Variable::Object(v)),
        BindingStepModel::BindObFromOb(v, _, _, _) => Some(Variable::Object(v)),
        BindingStepModel::BindEvFromOb(v, _, _) => Some(Variable::Event(v)),
        BindingStepModel::Filter(_) => None,
    }
}

/// The variables a step reads: the reference variables of a constrained
/// event bind, the source of a relational bind, and the variables a filter
/// involves.
pub open spec fn step_reads(s: BindingStepModel) -> Seq<Variable> {
    match s {
        BindingStepModel::BindEv(_, cs) => match cs {
            Some(constraints) => constraints.map_values(
                |c: (EventVariable, (Option<i64>, Option<i64>))| Variable::Event(c.0),
            ),
            None => Seq::empty(),
        },
        BindingStepModel::BindOb(_) => Seq::empty(),
        BindingStepModel::BindObFromEv(_, from, _) => seq![Variable::Event(from)],
        BindingStepModel::BindObFromOb(_, from, _, _) => seq![Variable::Object(from)],
        BindingStepModel::BindEvFromOb(_, from, _) => seq![Variable::Object(from)],
        BindingStepModel::Filter(f) => involved_vars(f),
    }
}

/// Whether the parent binding assigns a value to `v`.
pub open spec fn bound_in_parent(p: BindingModel, v: Variable) -> bool {
    lookup_any(p, v) is Some
}

/// Whether a step before position `i` binds `v`.
pub open spec fn plan_prefix_binds(plan: Seq<BindingStepModel>, i: int, v: Variable) -> bool {
    exists|j: int| 0 <= j < i && step_bound_var(#[trigger] plan[j]) == Some(v)
}

/// Plan safety: every variable a step reads is bound by the parent or by an
/// earlier step. In particular every filter step references only variables
/// already bound at its position.
pub open spec fn plan_safe(plan: Seq<BindingStepModel>, parent: BindingModel) -> bool {
    forall|i: int, k: int|
        0 <= i < plan.len() && 0 <= k < step_reads(plan[i]).len() ==> {
            let v = #[trigger] step_reads(plan[i])[k];
            bound_in_parent(parent, v) || plan_prefix_binds(plan, i, v)
        }
}

/// The new variables a box declares, events first, in declaration order.
pub open spec fn new_vars_of(
    new_event_vars: Seq<(EventVariable, Seq<Seq<char>>)>,
    new_object_vars: Seq<(ObjectVariable, Seq<Seq<char>>)>,
) -> Seq<Variable> {
    new_event_vars.map_values(|p: (EventVariable, Seq<Seq<char>>)| Variable::Event(p.0))
        + new_object_vars.map_values(|p: (ObjectVariable, Seq<Seq<char>>)| Variable::Object(p.0))
}

/// Whether a plan step covers a filter of the box: it is that filter as a
/// filter step, or the relational bind step derived from it.
pub open spec fn step_covers_filter(s: BindingStepModel, f: FilterModel) -> bool {
    ||| s == BindingStepModel::Filter(f)
    ||| match f {
        FilterModel::O2E { object, event, qualifier, .. } => {
            ||| s == BindingStepModel::BindObFromEv(object, event, qualifier)
            ||| s == BindingStepModel::BindEvFromOb(event, object, qualifier)
        },
        FilterModel::O2O { object, other_object, qualifier, .. } => {
            ||| s == BindingStepModel::BindObFromOb(other_object, object, qualifier, false)
            ||| s == BindingStepModel::BindObFromOb(object, other_object, qualifier, true)
        },
        _ => false,
    }
}

/// Whether some step of the plan covers filter `w` of the box.
pub open spec fn filter_covered(pm: Seq<BindingStepModel>, filters: Seq<FilterModel>, w: int) -> bool {
    exists|i: int| 0 <= i < pm.len() && step_covers_filter(#[trigger] pm[i], filters[w])
}

/// Appending a step keeps every covered filter covered.
proof fn lemma_covered_push(
    pm: Seq<BindingStepModel>,
    s: BindingStepModel,
    filters: Seq<FilterModel>,
    w: int,
)
    requires
        filter_covered(pm, filters, w),
    ensures
        filter_covered(pm.push(s), filters, w),
{
    let i0 = choose|i0: int| 0 <= i0 < pm.len() && step_covers_filter(#[trigger] pm[i0], filters[w]);
    assert(pm.push(s)[i0] == pm[i0]);
}

/// Whether planning can succeed: every type a new variable declares exists
/// in the log, and every variable a filter involves is either declared by
/// the box or bound by the parent.
pub open spec fn plan_input_ok(bb: &BindingBox, parent: BindingModel, log: IndexedLog) -> bool {
    &&& forall|k: int, t: int|
        0 <= k < bb.new_event_vars@.len() && 0 <= t < bb.new_event_vars@[k].1@.len()
            ==> crate::log::string_seq_has(
            log.event_types@,
            (#[trigger] bb.new_event_vars@[k].1@[t])@,
        )
    &&& forall|k: int, t: int|
        0 <= k < bb.new_object_vars@.len() && 0 <= t < bb.new_object_vars@[k].1@.len()
            ==> crate::log::string_seq_has(
            log.object_types@,
            (#[trigger] bb.new_object_vars@[k].1@[t])@,
        )
    &&& forall|fi: int, k: int|
        0 <= fi < bb.filters@.len() && 0 <= k < involved_vars(bb.filters.deep_view()[fi]).len()
            ==> {
            let v = #[trigger] involved_vars(bb.filters.deep_view()[fi])[k];
            new_vars_of(bb.new_event_vars.deep_view(), bb.new_object_vars.deep_view()).contains(v)
                || bound_in_parent(parent, v)
        }
}

/// An assignment of each filter step of the plan to a filter of the box:
/// in range, matching, and no two filter steps drawing on the same filter.
pub open spec fn filter_index_map_ok(
    pm: Seq<BindingStepModel>,
    filters: Seq<FilterModel>,
    ix: Seq<int>,
) -> bool {
    &&& ix.len() == pm.len()
    &&& forall|i: int|
        0 <= i < pm.len() && (#[trigger] pm[i]) is Filter ==> 0 <= ix[i] < filters.len()
            && filters[ix[i]] == pm[i]->Filter_0
    &&& forall|i: int, j: int|
        0 <= i < j < pm.len() && (#[trigger] pm[i]) is Filter && (#[trigger] pm[j]) is Filter
            ==> ix[i] != ix[j]
}

/// The assignment, tied to the planner's bookkeeping: every assigned filter
/// is marked used.
pub open spec fn filter_index_used_ok(
    pm: Seq<BindingStepModel>,
    filters: Seq<FilterModel>,
    used: Seq<bool>,
    ix: Seq<int>,
) -> bool {
    &&& filter_index_map_ok(pm, filters, ix)
    &&& forall|i: int| 0 <= i < pm.len() && (#[trigger] pm[i]) is Filter ==> used[ix[i]]
}

/// No filter of the box is applied twice as a filter step: the plan's
/// filter steps draw on pairwise distinct filters of the box.
pub open spec fn filter_steps_at_most_once(
    pm: Seq<BindingStepModel>,
    filters: Seq<FilterModel>,
) -> bool {
    exists|ix: Seq<int>| #[trigger] filter_index_map_ok(pm, filters, ix)
}

/// What a successful plan guarantees: safety, every new variable bound,
/// no variable bound twice, only new variables bound, and every filter of
/// the box covered by some step that is either the filter itself or the
/// relational bind derived from it.
pub open spec fn plan_guarantees(
    pm: Seq<BindingStepModel>,
    bbox: &BindingBox,
    parent: BindingModel,
    log: IndexedLog,
) -> bool {
    let newv = new_vars_of(bbox.new_event_vars.deep_view(), bbox.new_object_vars.deep_view());
    &&& plan_safe(pm, parent)
    &&& forall|k: int|
        0 <= k < newv.len() ==> plan_prefix_binds(pm, pm.len() as int, #[trigger] newv[k])
    &&& forall|i: int|
        0 <= i < pm.len() && step_bound_var(#[trigger] pm[i]) is Some ==> newv.contains(
            step_bound_var(pm[i])->0,
        )
    &&& forall|i: int, j: int|
        0 <= i < j < pm.len() && step_bound_var(#[trigger] pm[i]) is Some && step_bound_var(
            #[trigger] pm[j],
        ) is Some ==> step_bound_var(pm[i]) != step_bound_var(pm[j])
    &&& forall|fi: int|
        0 <= fi < bbox.filters@.len() ==> #[trigger] filter_covered(
            pm,
            bbox.filters.deep_view(),
            fi,
        )
    &&& forall|i: int|
        0 <= i < pm.len() && (#[trigger] pm[i]) is Filter ==> bbox.filters.deep_view().contains(
            pm[i]->Filter_0,
        )
    &&& filter_steps_at_most_once(pm, bbox.filters.deep_view())
}

/// Ghost model of an optional parent binding: absent means empty.
pub open spec fn opt_parent_model(p: Option<&Binding>) -> BindingModel {
    match p {
        Some(b) => b.deep_view(),
        None => BindingModel {
            event_map: Seq::empty(),
            object_map: Seq::empty(),
            label_map: Seq::empty(),
        },
    }
}

/// Whether `v` holds the variable `x`.
fn vars_contains(v: &Vec<Variable>, x: &Variable) -> (r: bool)
    ensures
        r == v@.contains(*x),
{
    let n = v.len();
    let mut i: usize = 0;
    while i < n
        invariant
            n == v@.len(),
            i <= n,
            forall|k: int| 0 <= k < i ==> v@[k] != *x,
        decreases n - i,
    {
        if v[i] == *x {
            return true;
        }
        i = i + 1;
    }
    false
}

/// The expected number of candidates a scan of `bound_by` would produce:
/// the population of the type the parent bound it to, or the summed
/// populations of its declared types, saturating at the machine limit.
///
/// A pure heuristic for ordering relational sources; the planner's contract
/// does not depend on its value.
pub fn get_expected_relation_count(
    bound_by: &Variable,
    bbox: &BindingBox,
    parent_binding_opt: Option<&Binding>,
    log: &IndexedLog,
) -> (r: Option<usize>)
    requires
        log.wf(),
        match parent_binding_opt {
            Some(p) => crate::filters::binding_indices_valid(p.deep_view(), *log),
            None => true,
        },
    ensures
        r is Some,
{
    if let Some(parent) = parent_binding_opt {
        match bound_by {
            Variable::Event(ev) => {
                if let Some(e) = parent.get_ev_index(ev) {
                    proof {
                        crate::filters::lemma_lookup_ev_in_range_pub(
                            parent.deep_view(),
                            *log,
                            *ev,
                        );
                    }
                    let t = log.events[e].type_index;
                    return Some(log.events_of_type[t].len());
                }
            },
            Variable::Object(ov) => {
                if let Some(o) = parent.get_ob_index(ov) {
                    proof {
                        crate::filters::lemma_lookup_ob_in_range_pub(
                            parent.deep_view(),
                            *log,
                            *ov,
                        );
                    }
                    let t = log.objects[o].type_index;
                    return Some(log.objects_of_type[t].len());
                }
            },
        }
    }
    let mut total: usize = 0;
    match bound_by {
        Variable::Event(ev) => {
            let mut k: usize = 0;
            let nv = bbox.new_event_vars.len();
            while k < nv
                invariant
                    nv == bbox.new_event_vars@.len(),
                    k <= nv,
                decreases nv - k,
            {
                if bbox.new_event_vars[k].0.0 == ev.0 {
                    let types = &bbox.new_event_vars[k].1;
                    let nt = types.len();
                    let mut t: usize = 0;
                    while t < nt
                        invariant
                            nt == types@.len(),
                            t <= nt,
                        decreases nt - t,
                    {
                        let count = match log.event_type_index(&types[t]) {
                            Some(ti) => log.events_of_type[ti].len(),
                            None => 0,
                        };
                        total = if total > usize::MAX - count {
                            usize::MAX
                        } else {
                            total + count
                        };
                        t = t + 1;
                    }
                    return Some(total);
                }
                k = k + 1;
            }
        },
        Variable::Object(ov) => {
            let mut k: usize = 0;
            let nv = bbox.new_object_vars.len();
            while k < nv
                invariant
                    nv == bbox.new_object_vars@.len(),
                    k <= nv,
                decreases nv - k,
            {
                if bbox.new_object_vars[k].0.0 == ov.0 {
                    let types = &bbox.new_object_vars[k].1;
                    let nt = types.len();
                    let mut t: usize = 0;
                    while t < nt
                        invariant
                            nt == types@.len(),
                            t <= nt,
                        decreases nt - t,
                    {
                        let count = match log.object_type_index(&types[t]) {
                            Some(ti) => log.objects_of_type[ti].len(),
                            None => 0,
                        };
                        total = if total > usize::MAX - count {
                            usize::MAX
                        } else {
                            total + count
                        };
                        t = t + 1;
                    }
                    return Some(total);
                }
                k = k + 1;
            }
        },
    }
    Some(0)
}

/// Appending a step whose reads are available keeps a plan safe.
proof fn lemma_plan_safe_push(plan: Seq<BindingStepModel>, parent: BindingModel, s: BindingStepModel)
    requires
        plan_safe(plan, parent),
        forall|k: int|
            0 <= k < step_reads(s).len() ==> {
                let v = #[trigger] step_reads(s)[k];
                bound_in_parent(parent, v) || plan_prefix_binds(plan, plan.len() as int, v)
            },
    ensures
        plan_safe(plan.push(s), parent),
{
    let plan2 = plan.push(s);
    assert forall|i: int, k: int|
        0 <= i < plan2.len() && 0 <= k < step_reads(plan2[i]).len() implies {
        let v = #[trigger] step_reads(plan2[i])[k];
        bound_in_parent(parent, v) || plan_prefix_binds(plan2, i, v)
    } by {
        if i < plan.len() {
            assert(plan2[i] == plan[i]);
            let v = step_reads(plan[i])[k];
            if !bound_in_parent(parent, v) {
                assert(plan_prefix_binds(plan, i, v));
                let j = choose|j: int| 0 <= j < i && step_bound_var(#[trigger] plan[j]) == Some(v);
                assert(plan2[j] == plan[j]);
                assert(plan_prefix_binds(plan2, i, v));
            }
        } else {
            assert(plan2[i] == s);
            let v = step_reads(s)[k];
            if !bound_in_parent(parent, v) {
                assert(plan_prefix_binds(plan, plan.len() as int, v));
                let j = choose|j: int|
                    0 <= j < plan.len() && step_bound_var(#[trigger] plan[j]) == Some(v);
                assert(plan2[j] == plan[j]);
                assert(plan_prefix_binds(plan2, i, v));
            }
        }
    }
}

impl BindingStep {
    /// Plans the order in which the box's variables are bound and its
    /// filters applied.
    ///
    /// On success the plan is safe — every step reads only variables bound
    /// by the parent or by an earlier step of the plan — the plan's bind
    /// steps bind exactly the box's new variables, and each filter of the
    /// box is covered exactly once: as a filter step or by the relational
    /// bind step derived from it.
    ///
    /// Fails exactly when a declared type is not in the log or a filter
    /// involves a variable neither declared by the box nor bound by the
    /// parent.
    pub fn get_binding_order(
        bbox: &BindingBox,
        parent_binding_opt: Option<&Binding>,
        log: &IndexedLog,
    ) -> (r: Result<Vec<BindingStep>, EvalError>)
        requires
            log.wf(),
            match parent_binding_opt {
                Some(p) => crate::filters::binding_indices_valid(p.deep_view(), *log),
                None => true,
            },
        ensures
            match r {
                Ok(plan) => plan_input_ok(bbox, opt_parent_model(parent_binding_opt), *log)
                    && plan_guarantees(
                    plan.deep_view(),
                    bbox,
                    opt_parent_model(parent_binding_opt),
                    *log,
                ),
                Err(e) => !plan_input_ok(bbox, opt_parent_model(parent_binding_opt), *log),
            },
    {
        let ghost parent = opt_parent_model(parent_binding_opt);
        let ghost newv = new_vars_of(
            bbox.new_event_vars.deep_view(),
            bbox.new_object_vars.deep_view(),
        );
        // The box's new variables, events first, in declaration order, each
        // variable once even if declared with several type lists.
        let ghost em = bbox.new_event_vars.deep_view().map_values(
            |p: (EventVariable, Seq<Seq<char>>)| Variable::Event(p.0),
        );
        let ghost om = bbox.new_object_vars.deep_view().map_values(
            |p: (ObjectVariable, Seq<Seq<char>>)| Variable::Object(p.0),
        );
        proof {
            assert(newv =~= em + om);
        }
        let mut new_vars: Vec<Variable> = Vec::new();
        let nev = bbox.new_event_vars.len();
        let mut k: usize = 0;
        while k < nev
            invariant
                nev == bbox.new_event_vars@.len(),
                k <= nev,
                em == bbox.new_event_vars.deep_view().map_values(
                    |p: (EventVariable, Seq<Seq<char>>)| Variable::Event(p.0),
                ),
                newv == em + om,
                forall|i: int, j: int|
                    0 <= i < j < new_vars@.len() ==> (#[trigger] new_vars@[i]) != (
                    #[trigger] new_vars@[j]),
                forall|w: int| 0 <= w < k ==> new_vars@.contains(#[trigger] em[w]),
                forall|i: int| 0 <= i < new_vars@.len() ==> newv.contains(#[trigger] new_vars@[i]),
            decreases nev - k,
        {
            let v = Variable::Event(bbox.new_event_vars[k].0);
            proof {
                assert(bbox.new_event_vars.deep_view()[k as int].0 == bbox.new_event_vars@[
                    k as int
                ].0);
                assert(em[k as int] == v);
                assert(newv[k as int] == v);
            }
            if !vars_contains(&new_vars, &v) {
                let ghost nv0 = new_vars@;
                new_vars.push(v);
                proof {
                    assert(new_vars@[nv0.len() as int] == v);
                    assert forall|w: int| 0 <= w < k + 1 implies new_vars@.contains(
                        #[trigger] em[w],
                    ) by {
                        if w < k {
                            let z = choose|z: int| 0 <= z < nv0.len() && nv0[z] == em[w];
                            assert(new_vars@[z] == em[w]);
                        }
                    }
                }
            } else {
                proof {
                    assert forall|w: int| 0 <= w < k + 1 implies new_vars@.contains(
                        #[trigger] em[w],
                    ) by {
                    }
                }
            }
            k = k + 1;
        }
        let nov = bbox.new_object_vars.len();
        let mut k2: usize = 0;
        while k2 < nov
            invariant
                nov == bbox.new_object_vars@.len(),
                nev == bbox.new_event_vars@.len(),
                k2 <= nov,
                om == bbox.new_object_vars.deep_view().map_values(
                    |p: (ObjectVariable, Seq<Seq<char>>)| Variable::Object(p.0),
                ),
                newv == em + om,
                em.len() == nev,
                forall|i: int, j: int|
                    0 <= i < j < new_vars@.len() ==> (#[trigger] new_vars@[i]) != (
                    #[trigger] new_vars@[j]),
                forall|w: int| 0 <= w < em.len() ==> new_vars@.contains(#[trigger] em[w]),
                forall|w: int| 0 <= w < k2 ==> new_vars@.contains(#[trigger] om[w]),
                forall|i: int| 0 <= i < new_vars@.len() ==> newv.contains(#[trigger] new_vars@[i]),
            decreases nov - k2,
        {
            let v = Variable::Object(bbox.new_object_vars[k2].0);
            proof {
                assert(bbox.new_object_vars.deep_view()[k2 as int].0 == bbox.new_object_vars@[
                    k2 as int
                ].0);
                assert(om[k2 as int] == v);
                assert(newv[em.len() + k2] == v);
            }
            if !vars_contains(&new_vars, &v) {
                let ghost nv0 = new_vars@;
                new_vars.push(v);
                proof {
                    assert(new_vars@[nv0.len() as int] == v);
                    assert forall|w: int| 0 <= w < em.len() implies new_vars@.contains(
                        #[trigger] em[w],
                    ) by {
                        let z = choose|z: int| 0 <= z < nv0.len() && nv0[z] == em[w];
                        assert(new_vars@[z] == em[w]);
                    }
                    assert forall|w: int| 0 <= w < k2 + 1 implies new_vars@.contains(
                        #[trigger] om[w],
                    ) by {
                        if w < k2 {
                            let z = choose|z: int| 0 <= z < nv0.len() && nv0[z] == om[w];
                            assert(new_vars@[z] == om[w]);
                        }
                    }
                }
            } else {
                proof {
                    assert forall|w: int| 0 <= w < k2 + 1 implies new_vars@.contains(
                        #[trigger] om[w],
                    ) by {
                    }
                }
            }
            k2 = k2 + 1;
        }
        proof {
            assert forall|w: int| 0 <= w < newv.len() implies new_vars@.contains(
                #[trigger] newv[w],
            ) by {
                if w < em.len() {
                    assert(newv[w] == em[w]);
                } else {
                    assert(newv[w] == om[w - em.len()]);
                }
            }
        }
        // Validate declared types against the log.
        let mut k3: usize = 0;
        while k3 < nev
            invariant
                nev == bbox.new_event_vars@.len(),
                k3 <= nev,
                forall|w: int, t: int|
                    0 <= w < k3 && 0 <= t < bbox.new_event_vars@[w].1@.len()
                        ==> crate::log::string_seq_has(
                        log.event_types@,
                        (#[trigger] bbox.new_event_vars@[w].1@[t])@,
                    ),
            decreases nev - k3,
        {
            let types = &bbox.new_event_vars[k3].1;
            let nt = types.len();
            let mut t: usize = 0;
            while t < nt
                invariant
                    nt == types@.len(),
                    types == &bbox.new_event_vars@[k3 as int].1,
                    k3 < nev,
                    t <= nt,
                    forall|w: int|
                        0 <= w < t ==> crate::log::string_seq_has(
                            log.event_types@,
                            (#[trigger] types@[w])@,
                        ),
                decreases nt - t,
            {
                match log.event_type_index(&types[t]) {
                    Some(_) => {},
                    None => {
                        return Err(EvalError::UnknownEventType(bbox.new_event_vars[k3].0));
                    },
                }
                t = t + 1;
            }
            k3 = k3 + 1;
        }
        let mut k4: usize = 0;
        while k4 < nov
            invariant
                nov == bbox.new_object_vars@.len(),
                k4 <= nov,
                forall|w: int, t: int|
                    0 <= w < k4 && 0 <= t < bbox.new_object_vars@[w].1@.len()
                        ==> crate::log::string_seq_has(
                        log.object_types@,
                        (#[trigger] bbox.new_object_vars@[w].1@[t])@,
                    ),
            decreases nov - k4,
        {
            let types = &bbox.new_object_vars[k4].1;
            let nt = types.len();
            let mut t: usize = 0;
            while t < nt
                invariant
                    nt == types@.len(),
                    types == &bbox.new_object_vars@[k4 as int].1,
                    k4 < nov,
                    t <= nt,
                    forall|w: int|
                        0 <= w < t ==> crate::log::string_seq_has(
                            log.object_types@,
                            (#[trigger] types@[w])@,
                        ),
                decreases nt - t,
            {
                match log.object_type_index(&types[t]) {
                    Some(_) => {},
                    None => {
                        return Err(EvalError::UnknownObjectType(bbox.new_object_vars[k4].0));
                    },
                }
                t = t + 1;
            }
            k4 = k4 + 1;
        }
        // Validate that every filter variable is declared or parent-bound.
        let nf = bbox.filters.len();
        let mut fi: usize = 0;
        while fi < nf
            invariant
                nf == bbox.filters@.len(),
                fi <= nf,
                forall|w: int| 0 <= w < newv.len() ==> new_vars@.contains(#[trigger] newv[w]),
                forall|i: int| 0 <= i < new_vars@.len() ==> newv.contains(#[trigger] new_vars@[i]),
                forall|i: int, j: int|
                    0 <= i < j < new_vars@.len() ==> (#[trigger] new_vars@[i]) != (
                    #[trigger] new_vars@[j]),
                forall|w: int, k: int|
                    0 <= w < fi && 0 <= k < involved_vars(bbox.filters.deep_view()[w]).len() ==> {
                        let v = #[trigger] involved_vars(bbox.filters.deep_view()[w])[k];
                        newv.contains(v) || bound_in_parent(parent, v)
                    },
            decreases nf - fi,
        {
            let vars = bbox.filters[fi].get_involved_variables();
            let nvars = vars.len();
            let mut k5: usize = 0;
            while k5 < nvars
                invariant
                    nvars == vars@.len(),
                    vars@ == involved_vars(bbox.filters.deep_view()[fi as int]),
                    fi < nf,
                    nf == bbox.filters@.len(),
                    forall|w: int| 0 <= w < newv.len() ==> new_vars@.contains(#[trigger] newv[w]),
                    forall|i: int|
                        0 <= i < new_vars@.len() ==> newv.contains(#[trigger] new_vars@[i]),
                    k5 <= nvars,
                    forall|k: int|
                        0 <= k < k5 ==> {
                            let v = #[trigger] vars@[k];
                            newv.contains(v) || bound_in_parent(parent, v)
                        },
                decreases nvars - k5,
            {
                let v = vars[k5];
                let declared = vars_contains(&new_vars, &v);
                proof {
                    if !declared && newv.contains(v) {
                        assert(new_vars@.contains(v));
                    }
                    if declared {
                        let z = choose|z: int| 0 <= z < new_vars@.len() && new_vars@[z] == v;
                        assert(newv.contains(v));
                    }
                }
                if !declared {
                    let bound = match parent_binding_opt {
                        Some(p) => match p.get_any_index(&v) {
                            Some(_) => true,
                            None => false,
                        },
                        None => false,
                    };
                    if !bound {
                        match v {
                            Variable::Event(ev) => {
                                return Err(EvalError::UnboundEventVariable(ev));
                            },
                            Variable::Object(ov) => {
                                return Err(EvalError::UnboundObjectVariable(ov));
                            },
                        }
                    }
                }
                k5 = k5 + 1;
            }
            fi = fi + 1;
        }
        // From here on planning cannot fail.
        let mut plan: Vec<BindingStep> = Vec::new();
        let ghost mut ixs: Seq<int> = Seq::<int>::empty();
        let mut used: Vec<bool> = Vec::new();
        let mut k6: usize = 0;
        while k6 < nf
            invariant
                k6 <= nf,
                used@.len() == k6,
                forall|w: int| 0 <= w < k6 ==> !(#[trigger] used@[w]),
            decreases nf - k6,
        {
            used.push(false);
            k6 = k6 + 1;
        }
        let mut remaining: Vec<Variable> = new_vars;
        let mut bound_new: Vec<Variable> = Vec::new();
        while remaining.len() > 0
            invariant
                log.wf(),
                nf == bbox.filters@.len(),
                used@.len() == nf,
                parent == opt_parent_model(parent_binding_opt),
                match parent_binding_opt {
                    Some(p) => crate::filters::binding_indices_valid(p.deep_view(), *log),
                    None => true,
                },
                plan_input_ok(bbox, parent, *log),
                plan_safe(plan.deep_view(), parent),
                // every variable of bound_new is bound by some plan step
                forall|k: int|
                    0 <= k < bound_new@.len() ==> plan_prefix_binds(
                        plan.deep_view(),
                        plan.deep_view().len() as int,
                        #[trigger] bound_new@[k],
                    ),
                // every bind step binds a new variable recorded in bound_new
                forall|i: int|
                    0 <= i < plan.deep_view().len() && step_bound_var(
                        #[trigger] plan.deep_view()[i],
                    ) is Some ==> newv.contains(step_bound_var(plan.deep_view()[i])->0)
                        && bound_new@.contains(step_bound_var(plan.deep_view()[i])->0),
                // remaining and bound_new partition the new variables
                forall|k: int|
                    0 <= k < newv.len() ==> remaining@.contains(#[trigger] newv[k])
                        || bound_new@.contains(newv[k]),
                forall|k: int| 0 <= k < remaining@.len() ==> newv.contains(#[trigger] remaining@[k]),
                // remaining holds no duplicates and nothing already bound
                forall|i: int, j: int|
                    0 <= i < j < remaining@.len() ==> (#[trigger] remaining@[i]) != (
                    #[trigger] remaining@[j]),
                forall|k: int|
                    0 <= k < remaining@.len() ==> !bound_new@.contains(#[trigger] remaining@[k]),
                // no two bind steps target the same variable
                forall|i: int, j: int|
                    0 <= i < j < plan.deep_view().len() && step_bound_var(
                        #[trigger] plan.deep_view()[i],
                    ) is Some && step_bound_var(#[trigger] plan.deep_view()[j]) is Some
                        ==> step_bound_var(plan.deep_view()[i]) != step_bound_var(
                        plan.deep_view()[j],
                    ),
                // used filters are covered by some plan step
                forall|w: int|
                    0 <= w < nf && (#[trigger] used@[w]) ==> filter_covered(
                        plan.deep_view(),
                        bbox.filters.deep_view(),
                        w,
                    ),
                // filter steps come from the box
                forall|i: int|
                    0 <= i < plan.deep_view().len() && (#[trigger] plan.deep_view()[i]) is Filter
                        ==> bbox.filters.deep_view().contains(plan.deep_view()[i]->Filter_0),
                filter_index_used_ok(plan.deep_view(), bbox.filters.deep_view(), used@, ixs),
            decreases remaining@.len(),
        {
            let (pos, step, used_filter): (usize, BindingStep, Option<usize>) = choose_next_step(
                bbox,
                parent_binding_opt,
                log,
                &remaining,
                &bound_new,
                Ghost(parent),
                Ghost(newv),
            );
            let var = remaining[pos];
            let ghost plan0 = plan.deep_view();
            let ghost old_remaining = remaining@;
            let ghost old_bound = bound_new@;
            proof {
                assert forall|k: int|
                    0 <= k < step_reads(step.deep_view()).len() implies {
                    let v = #[trigger] step_reads(step.deep_view())[k];
                    bound_in_parent(parent, v) || plan_prefix_binds(plan0, plan0.len() as int, v)
                } by {
                    let v = step_reads(step.deep_view())[k];
                    if old_bound.contains(v) {
                        let w = choose|w: int| 0 <= w < old_bound.len() && old_bound[w] == v;
                        assert(plan_prefix_binds(plan0, plan0.len() as int, v));
                    }
                }
                lemma_plan_safe_push(plan0, parent, step.deep_view());
            }
            plan.push(step);
            bound_new.push(var);
            remaining.remove(pos);
            let ghost old_used2 = used@;
            let ghost old_ixs = ixs;
            if let Some(ufi) = used_filter {
                used.set(ufi, true);
            }
            proof {
                ixs = ixs.push(-1);
                let pm = plan.deep_view();
                assert(pm =~= plan0.push(step.deep_view()));
                assert(pm[plan0.len() as int] == step.deep_view());
                assert(bound_new@ == old_bound.push(var));
                assert(bound_new@[old_bound.len() as int] == var);
                assert forall|k: int| 0 <= k < bound_new@.len() implies plan_prefix_binds(
                    pm,
                    pm.len() as int,
                    #[trigger] bound_new@[k],
                ) by {
                    let v = bound_new@[k];
                    if k < old_bound.len() {
                        let j = choose|j: int|
                            0 <= j < plan0.len() && step_bound_var(#[trigger] plan0[j]) == Some(v);
                        assert(pm[j] == plan0[j]);
                    } else {
                        assert(v == var);
                        assert(step_bound_var(pm[plan0.len() as int]) == Some(var));
                    }
                }
                assert forall|i: int|
                    0 <= i < pm.len() && step_bound_var(#[trigger] pm[i]) is Some implies
                    newv.contains(step_bound_var(pm[i])->0) && bound_new@.contains(
                    step_bound_var(pm[i])->0) by {
                    if i < plan0.len() {
                        assert(pm[i] == plan0[i]);
                        let x = step_bound_var(plan0[i])->0;
                        let w = choose|w: int| 0 <= w < old_bound.len() && old_bound[w] == x;
                        assert(bound_new@[w] == x);
                    } else {
                        assert(step_bound_var(pm[i]) == Some(var));
                        assert(old_remaining[pos as int] == var);
                        assert(newv.contains(var));
                        assert(bound_new@[old_bound.len() as int] == var);
                    }
                }
                assert forall|k: int| 0 <= k < newv.len() implies remaining@.contains(
                    #[trigger] newv[k],
                ) || bound_new@.contains(newv[k]) by {
                    let v = newv[k];
                    if old_remaining.contains(v) {
                        let w = choose|w: int|
                            0 <= w < old_remaining.len() && old_remaining[w] == v;
                        if w == pos {
                            assert(bound_new@[old_bound.len() as int] == var);
                        } else if w < pos {
                            assert(remaining@[w] == old_remaining[w]);
                        } else {
                            assert(remaining@[w - 1] == old_remaining[w]);
                        }
                    } else {
                        let w = choose|w: int| 0 <= w < old_bound.len() && old_bound[w] == v;
                        assert(bound_new@[w] == v);
                    }
                }
                assert forall|k: int| 0 <= k < remaining@.len() implies newv.contains(
                    #[trigger] remaining@[k],
                ) by {
                    if k < pos {
                        assert(remaining@[k] == old_remaining[k]);
                    } else {
                        assert(remaining@[k] == old_remaining[k + 1]);
                    }
                }
                assert forall|i: int, j: int| 0 <= i < j < remaining@.len() implies (
                #[trigger] remaining@[i]) != (#[trigger] remaining@[j]) by {
                    let i0: int = if i < pos {
                        i
                    } else {
                        i + 1
                    };
                    let j0: int = if j < pos {
                        j
                    } else {
                        j + 1
                    };
                    assert(remaining@[i] == old_remaining[i0]);
                    assert(remaining@[j] == old_remaining[j0]);
                }
                assert forall|k: int| 0 <= k < remaining@.len() implies !bound_new@.contains(
                    #[trigger] remaining@[k],
                ) by {
                    let k0: int = if k < pos {
                        k
                    } else {
                        k + 1
                    };
                    assert(remaining@[k] == old_remaining[k0]);
                    assert(old_remaining[k0] != var);
                    if bound_new@.contains(remaining@[k]) {
                        let w = choose|w: int|
                            0 <= w < bound_new@.len() && bound_new@[w] == remaining@[k];
                        if w < old_bound.len() {
                            assert(old_bound.contains(remaining@[k]));
                        }
                    }
                }
                assert forall|i: int, j: int|
                    0 <= i < j < pm.len() && step_bound_var(#[trigger] pm[i]) is Some
                        && step_bound_var(#[trigger] pm[j]) is Some implies step_bound_var(pm[i])
                    != step_bound_var(pm[j]) by {
                    if j < plan0.len() {
                        assert(pm[i] == plan0[i]);
                        assert(pm[j] == plan0[j]);
                    } else {
                        assert(pm[i] == plan0[i]);
                        assert(step_bound_var(pm[j]) == Some(var));
                        assert(old_bound.contains(step_bound_var(plan0[i])->0));
                        assert(!old_bound.contains(var));
                        assert(old_remaining[pos as int] == var);
                    }
                }
                assert forall|w: int| 0 <= w < nf && (#[trigger] used@[w]) implies filter_covered(
                    pm,
                    bbox.filters.deep_view(),
                    w,
                ) by {
                    if used_filter == Some(w as usize) {
                        assert(step_covers_filter(
                            pm[plan0.len() as int],
                            bbox.filters.deep_view()[w],
                        ));
                    } else {
                        lemma_covered_push(plan0, step.deep_view(), bbox.filters.deep_view(), w);
                    }
                }
                assert forall|i: int|
                    0 <= i < pm.len() && (#[trigger] pm[i]) is Filter implies
                    bbox.filters.deep_view().contains(pm[i]->Filter_0) by {
                    if i < plan0.len() {
                        assert(pm[i] == plan0[i]);
                    } else {
                        assert(step_bound_var(pm[i]) is Some);
                    }
                }
                assert forall|i: int|
                    0 <= i < pm.len() && (#[trigger] pm[i]) is Filter implies 0 <= ixs[i]
                        < bbox.filters.deep_view().len() && bbox.filters.deep_view()[ixs[i]]
                        == pm[i]->Filter_0 && used@[ixs[i]] by {
                    if i < plan0.len() {
                        assert(pm[i] == plan0[i]);
                        assert(ixs[i] == old_ixs[i]);
                        assert(old_used2[old_ixs[i]]);
                    } else {
                        assert(step_bound_var(pm[i]) is Some);
                    }
                }
                assert forall|i: int, j: int|
                    0 <= i < j < pm.len() && (#[trigger] pm[i]) is Filter && (#[trigger] pm[j])
                        is Filter implies ixs[i] != ixs[j] by {
                    if j < plan0.len() {
                        assert(pm[i] == plan0[i]);
                        assert(pm[j] == plan0[j]);
                        assert(ixs[i] == old_ixs[i]);
                        assert(ixs[j] == old_ixs[j]);
                    } else {
                        assert(step_bound_var(pm[j]) is Some);
                    }
                }
                assert(filter_index_used_ok(pm, bbox.filters.deep_view(), used@, ixs));
            }
            // Emit every not yet used filter whose variables are all bound.
            let mut fj: usize = 0;
            while fj < nf
                invariant
                    log.wf(),
                    nf == bbox.filters@.len(),
                    used@.len() == nf,
                    fj <= nf,
                    parent == opt_parent_model(parent_binding_opt),
                    plan_input_ok(bbox, parent, *log),
                    plan_safe(plan.deep_view(), parent),
                    forall|k: int|
                        0 <= k < bound_new@.len() ==> plan_prefix_binds(
                            plan.deep_view(),
                            plan.deep_view().len() as int,
                            #[trigger] bound_new@[k],
                        ),
                    forall|i: int|
                        0 <= i < plan.deep_view().len() && step_bound_var(
                            #[trigger] plan.deep_view()[i],
                        ) is Some ==> newv.contains(step_bound_var(plan.deep_view()[i])->0)
                            && bound_new@.contains(step_bound_var(plan.deep_view()[i])->0),
                    forall|w: int|
                        0 <= w < nf && (#[trigger] used@[w]) ==> filter_covered(
                            plan.deep_view(),
                            bbox.filters.deep_view(),
                            w,
                        ),
                    forall|i: int|
                        0 <= i < plan.deep_view().len() && (#[trigger] plan.deep_view()[i]) is Filter
                            ==> bbox.filters.deep_view().contains(plan.deep_view()[i]->Filter_0),
                    forall|i: int, j: int|
                        0 <= i < j < plan.deep_view().len() && step_bound_var(
                            #[trigger] plan.deep_view()[i],
                        ) is Some && step_bound_var(#[trigger] plan.deep_view()[j]) is Some
                            ==> step_bound_var(plan.deep_view()[i]) != step_bound_var(
                            plan.deep_view()[j],
                        ),
                    filter_index_used_ok(plan.deep_view(), bbox.filters.deep_view(), used@, ixs),
                decreases nf - fj,
            {
                if !used[fj] {
                    if filter_vars_available(&bbox.filters[fj], &bound_new, parent_binding_opt, Ghost(newv), Ghost(parent)) {
                        let ghost plan1 = plan.deep_view();
                        let ghost old_used = used@;
                        let f2 = bbox.filters[fj].clone();
                        proof {
                            assert(f2.deep_view() == bbox.filters.deep_view()[fj as int]);
                            let s = BindingStepModel::Filter(f2.deep_view());
                            assert forall|k: int| 0 <= k < step_reads(s).len() implies {
                                let v = #[trigger] step_reads(s)[k];
                                bound_in_parent(parent, v) || plan_prefix_binds(
                                    plan1,
                                    plan1.len() as int,
                                    v,
                                )
                            } by {
                                let v = step_reads(s)[k];
                                if bound_new@.contains(v) {
                                    let w = choose|w: int|
                                        0 <= w < bound_new@.len() && bound_new@[w] == v;
                                }
                            }
                            lemma_plan_safe_push(plan1, parent, s);
                        }
                        let ghost old_ixs = ixs;
                        plan.push(BindingStep::Filter(f2));
                        used.set(fj, true);
                        proof {
                            ixs = ixs.push(fj as int);
                            let pm = plan.deep_view();
                            assert(pm =~= plan1.push(
                                BindingStepModel::Filter(bbox.filters.deep_view()[fj as int]),
                            ));
                            assert forall|i: int|
                                0 <= i < pm.len() && (#[trigger] pm[i]) is Filter implies 0
                                <= ixs[i] < bbox.filters.deep_view().len()
                                && bbox.filters.deep_view()[ixs[i]] == pm[i]->Filter_0
                                && used@[ixs[i]] by {
                                if i < plan1.len() {
                                    assert(pm[i] == plan1[i]);
                                    assert(ixs[i] == old_ixs[i]);
                                    assert(old_used[old_ixs[i]]);
                                } else {
                                    assert(ixs[i] == fj as int);
                                }
                            }
                            assert forall|i: int, j: int|
                                0 <= i < j < pm.len() && (#[trigger] pm[i]) is Filter && (
                            #[trigger] pm[j]) is Filter implies ixs[i] != ixs[j] by {
                                assert(pm[i] == plan1[i]);
                                assert(ixs[i] == old_ixs[i]);
                                if j < plan1.len() {
                                    assert(pm[j] == plan1[j]);
                                    assert(ixs[j] == old_ixs[j]);
                                } else {
                                    assert(ixs[j] == fj as int);
                                    assert(old_used[old_ixs[i]]);
                                    assert(!old_used[fj as int]);
                                }
                            }
                            assert(filter_index_used_ok(
                                pm,
                                bbox.filters.deep_view(),
                                used@,
                                ixs,
                            ));
                            assert(pm[plan1.len() as int] == BindingStepModel::Filter(
                                bbox.filters.deep_view()[fj as int],
                            ));
                            assert forall|k: int| 0 <= k < bound_new@.len() implies plan_prefix_binds(
                                pm,
                                pm.len() as int,
                                #[trigger] bound_new@[k],
                            ) by {
                                let v = bound_new@[k];
                                let j = choose|j: int|
                                    0 <= j < plan1.len() && step_bound_var(#[trigger] plan1[j])
                                        == Some(v);
                                assert(pm[j] == plan1[j]);
                            }
                            assert forall|i: int|
                                0 <= i < pm.len() && step_bound_var(#[trigger] pm[i]) is Some
                                implies newv.contains(step_bound_var(pm[i])->0)
                                && bound_new@.contains(step_bound_var(pm[i])->0) by {
                                if i < plan1.len() {
                                    assert(pm[i] == plan1[i]);
                                }
                            }
                            assert forall|i: int, j: int|
                                0 <= i < j < pm.len() && step_bound_var(
                                    #[trigger] pm[i],
                                ) is Some && step_bound_var(#[trigger] pm[j]) is Some implies
                                step_bound_var(pm[i]) != step_bound_var(pm[j]) by {
                                assert(pm[i] == plan1[i]);
                                if j < plan1.len() {
                                    assert(pm[j] == plan1[j]);
                                }
                            }
                            assert forall|w: int|
                                0 <= w < nf && (#[trigger] used@[w]) implies filter_covered(
                                pm,
                                bbox.filters.deep_view(),
                                w,
                            ) by {
                                if w == fj {
                                    assert(step_covers_filter(
                                        pm[plan1.len() as int],
                                        bbox.filters.deep_view()[w],
                                    ));
                                } else {
                                    assert(old_used[w]);
                                    lemma_covered_push(
                                        plan1,
                                        BindingStepModel::Filter(
                                            bbox.filters.deep_view()[fj as int],
                                        ),
                                        bbox.filters.deep_view(),
                                        w,
                                    );
                                }
                            }
                            assert forall|i: int|
                                0 <= i < pm.len() && (#[trigger] pm[i]) is Filter implies
                                bbox.filters.deep_view().contains(pm[i]->Filter_0) by {
                                if i < plan1.len() {
                                    assert(pm[i] == plan1[i]);
                                } else {
                                    assert(pm[i]->Filter_0 == bbox.filters.deep_view()[fj as int]);
                                }
                            }
                        }
                    }
                }
                fj = fj + 1;
            }
        }
        // Append the filters that are still unused; all variables are bound
        // by now, so the plan stays safe.
        let mut fj2: usize = 0;
        while fj2 < nf
            invariant
                log.wf(),
                nf == bbox.filters@.len(),
                used@.len() == nf,
                fj2 <= nf,
                parent == opt_parent_model(parent_binding_opt),
                plan_input_ok(bbox, parent, *log),
                plan_safe(plan.deep_view(), parent),
                remaining@.len() == 0,
                forall|k: int|
                    0 <= k < bound_new@.len() ==> plan_prefix_binds(
                        plan.deep_view(),
                        plan.deep_view().len() as int,
                        #[trigger] bound_new@[k],
                    ),
                forall|k: int| 0 <= k < newv.len() ==> bound_new@.contains(#[trigger] newv[k]),
                forall|i: int|
                    0 <= i < plan.deep_view().len() && step_bound_var(
                        #[trigger] plan.deep_view()[i],
                    ) is Some ==> newv.contains(step_bound_var(plan.deep_view()[i])->0),
                forall|i: int, j: int|
                    0 <= i < j < plan.deep_view().len() && step_bound_var(
                        #[trigger] plan.deep_view()[i],
                    ) is Some && step_bound_var(#[trigger] plan.deep_view()[j]) is Some
                        ==> step_bound_var(plan.deep_view()[i]) != step_bound_var(
                        plan.deep_view()[j],
                    ),
                forall|w: int|
                    #![trigger filter_covered(plan.deep_view(), bbox.filters.deep_view(), w)]
                    0 <= w < fj2 ==> filter_covered(
                        plan.deep_view(),
                        bbox.filters.deep_view(),
                        w,
                    ),
                forall|w: int|
                    0 <= w < nf && (#[trigger] used@[w]) ==> filter_covered(
                        plan.deep_view(),
                        bbox.filters.deep_view(),
                        w,
                    ),
                forall|i: int|
                    0 <= i < plan.deep_view().len() && (#[trigger] plan.deep_view()[i]) is Filter
                        ==> bbox.filters.deep_view().contains(plan.deep_view()[i]->Filter_0),
                filter_index_used_ok(plan.deep_view(), bbox.filters.deep_view(), used@, ixs),
            decreases nf - fj2,
        {
            if !used[fj2] {
                let ghost plan1 = plan.deep_view();
                let ghost old_used = used@;
                let f2 = bbox.filters[fj2].clone();
                proof {
                    assert(f2.deep_view() == bbox.filters.deep_view()[fj2 as int]);
                    assert forall|k: int|
                        0 <= k < step_reads(BindingStepModel::Filter(f2.deep_view())).len() implies {
                        let v = #[trigger] step_reads(BindingStepModel::Filter(f2.deep_view()))[k];
                        bound_in_parent(parent, v) || plan_prefix_binds(
                            plan1,
                            plan1.len() as int,
                            v,
                        )
                    } by {
                        let v = involved_vars(bbox.filters.deep_view()[fj2 as int])[k];
                        if newv.contains(v) {
                            assert(bound_new@.contains(v));
                            let w = choose|w: int|
                                0 <= w < bound_new@.len() && bound_new@[w] == v;
                        }
                    }
                    lemma_plan_safe_push(plan1, parent, BindingStepModel::Filter(f2.deep_view()));
                }
                let ghost old_ixs = ixs;
                plan.push(BindingStep::Filter(f2));
                used.set(fj2, true);
                proof {
                    ixs = ixs.push(fj2 as int);
                    let pm = plan.deep_view();
                    assert(pm =~= plan1.push(
                        BindingStepModel::Filter(bbox.filters.deep_view()[fj2 as int]),
                    ));
                    assert forall|i: int|
                        0 <= i < pm.len() && (#[trigger] pm[i]) is Filter implies 0 <= ixs[i]
                        < bbox.filters.deep_view().len() && bbox.filters.deep_view()[ixs[i]]
                        == pm[i]->Filter_0 && used@[ixs[i]] by {
                        if i < plan1.len() {
                            assert(pm[i] == plan1[i]);
                            assert(ixs[i] == old_ixs[i]);
                            assert(old_used[old_ixs[i]]);
                        } else {
                            assert(ixs[i] == fj2 as int);
                        }
                    }
                    assert forall|i: int, j: int|
                        0 <= i < j < pm.len() && (#[trigger] pm[i]) is Filter && (#[trigger] pm[j])
                            is Filter implies ixs[i] != ixs[j] by {
                        assert(pm[i] == plan1[i]);
                        assert(ixs[i] == old_ixs[i]);
                        if j < plan1.len() {
                            assert(pm[j] == plan1[j]);
                            assert(ixs[j] == old_ixs[j]);
                        } else {
                            assert(ixs[j] == fj2 as int);
                            assert(old_used[old_ixs[i]]);
                            assert(!old_used[fj2 as int]);
                        }
                    }
                    assert(filter_index_used_ok(pm, bbox.filters.deep_view(), used@, ixs));
                    assert(pm[plan1.len() as int] == BindingStepModel::Filter(
                        bbox.filters.deep_view()[fj2 as int],
                    ));
                    assert forall|k: int| 0 <= k < bound_new@.len() implies plan_prefix_binds(
                        pm,
                        pm.len() as int,
                        #[trigger] bound_new@[k],
                    ) by {
                        let v = bound_new@[k];
                        let j = choose|j: int|
                            0 <= j < plan1.len() && step_bound_var(#[trigger] plan1[j]) == Some(v);
                        assert(pm[j] == plan1[j]);
                    }
                    assert forall|i: int|
                        0 <= i < pm.len() && step_bound_var(#[trigger] pm[i]) is Some implies
                        newv.contains(step_bound_var(pm[i])->0) by {
                        if i < plan1.len() {
                            assert(pm[i] == plan1[i]);
                        }
                    }
                    assert forall|i: int, j: int|
                        0 <= i < j < pm.len() && step_bound_var(#[trigger] pm[i]) is Some
                            && step_bound_var(#[trigger] pm[j]) is Some implies step_bound_var(
                        pm[i],
                    ) != step_bound_var(pm[j]) by {
                        assert(pm[i] == plan1[i]);
                        if j < plan1.len() {
                            assert(pm[j] == plan1[j]);
                        }
                    }
                    assert forall|w: int|
                        0 <= w < fj2 + 1 implies filter_covered(
                        pm,
                        bbox.filters.deep_view(),
                        w,
                    ) by {
                        if w == fj2 {
                            assert(step_covers_filter(
                                pm[plan1.len() as int],
                                bbox.filters.deep_view()[w],
                            ));
                        } else {
                            assert(filter_covered(plan1, bbox.filters.deep_view(), w));
                            lemma_covered_push(
                                plan1,
                                BindingStepModel::Filter(bbox.filters.deep_view()[fj2 as int]),
                                bbox.filters.deep_view(),
                                w,
                            );
                        }
                    }
                    assert forall|w: int|
                        0 <= w < nf && (#[trigger] used@[w]) implies filter_covered(
                        pm,
                        bbox.filters.deep_view(),
                        w,
                    ) by {
                        if w == fj2 {
                            assert(step_covers_filter(
                                pm[plan1.len() as int],
                                bbox.filters.deep_view()[w],
                            ));
                        } else {
                            assert(old_used[w]);
                            assert(filter_covered(plan1, bbox.filters.deep_view(), w));
                            lemma_covered_push(
                                plan1,
                                BindingStepModel::Filter(bbox.filters.deep_view()[fj2 as int]),
                                bbox.filters.deep_view(),
                                w,
                            );
                        }
                    }
                    assert forall|i: int|
                        0 <= i < pm.len() && (#[trigger] pm[i]) is Filter implies
                        bbox.filters.deep_view().contains(pm[i]->Filter_0) by {
                        if i < plan1.len() {
                            assert(pm[i] == plan1[i]);
                        } else {
                            assert(pm[i]->Filter_0 == bbox.filters.deep_view()[fj2 as int]);
                        }
                    }
                }
            } else {
                proof {
                    assert forall|w: int| 0 <= w < fj2 + 1 implies filter_covered(
                        plan.deep_view(),
                        bbox.filters.deep_view(),
                        w,
                    ) by {
                    }
                }
            }
            fj2 = fj2 + 1;
        }
        proof {
            assert forall|fi2w: int| 0 <= fi2w < bbox.filters@.len() implies filter_covered(
                plan.deep_view(),
                bbox.filters.deep_view(),
                fi2w,
            ) by {
            }
            assert forall|k: int| 0 <= k < newv.len() implies plan_prefix_binds(
                plan.deep_view(),
                plan.deep_view().len() as int,
                #[trigger] newv[k],
            ) by {
                assert(bound_new@.contains(newv[k]));
                let w = choose|w: int| 0 <= w < bound_new@.len() && bound_new@[w] == newv[k];
            }
            assert(plan_guarantees(plan.deep_view(), bbox, parent, *log));
        }
        proof {
            assert(filter_index_map_ok(plan.deep_view(), bbox.filters.deep_view(), ixs));
            assert(filter_steps_at_most_once(plan.deep_view(), bbox.filters.deep_view()));
        }
        proof {
            assert(filter_index_map_ok(plan.deep_view(), bbox.filters.deep_view(), ixs));
            assert(filter_steps_at_most_once(plan.deep_view(), bbox.filters.deep_view()));
        }
        Ok(plan)
    }
}

/// Whether every variable the filter involves is bound: new variables must
/// stand in `bound_new`, other variables were validated as parent-bound.
fn filter_vars_available(
    f: &Filter,
    bound_new: &Vec<Variable>,
    parent_binding_opt: Option<&Binding>,
    Ghost(newv): Ghost<Seq<Variable>>,
    Ghost(parent): Ghost<BindingModel>,
) -> (r: bool)
    requires
        parent == opt_parent_model(parent_binding_opt),
        forall|k: int|
            0 <= k < involved_vars(f.deep_view()).len() ==> {
                let v = #[trigger] involved_vars(f.deep_view())[k];
                newv.contains(v) || bound_in_parent(parent, v)
            },
    ensures
        r ==> forall|k: int|
            0 <= k < involved_vars(f.deep_view()).len() ==> {
                let v = #[trigger] involved_vars(f.deep_view())[k];
                bound_new@.contains(v) || bound_in_parent(parent, v)
            },
{
    let vars = f.get_involved_variables();
    let n = vars.len();
    let mut k: usize = 0;
    while k < n
        invariant
            n == vars@.len(),
            vars@ == involved_vars(f.deep_view()),
            parent == opt_parent_model(parent_binding_opt),
            k <= n,
            forall|w: int|
                0 <= w < k ==> {
                    let v = #[trigger] vars@[w];
                    bound_new@.contains(v) || bound_in_parent(parent, v)
                },
        decreases n - k,
    {
        let v = vars[k];
        if !vars_contains(bound_new, &v) {
            let bound = match parent_binding_opt {
                Some(p) => match p.get_any_index(&v) {
                    Some(_) => true,
                    None => false,
                },
                None => false,
            };
            if !bound {
                return false;
            }
        }
        k = k + 1;
    }
    true
}

/// Picks the next variable to bind and the step that binds it.
///
/// Preference order: a variable reachable through a relationship of a bound
/// variable (with the smallest-population source), then an event variable
/// with a time window against a bound reference event, then a free type
/// scan, events before objects; remaining ties fall back to declaration
/// order. Returns the position of the chosen variable in `remaining`, the
/// step, and the index of the relational filter the step was derived from,
/// if any.
#[verifier::rlimit(30)]
fn choose_next_step(
    bbox: &BindingBox,
    parent_binding_opt: Option<&Binding>,
    log: &IndexedLog,
    remaining: &Vec<Variable>,
    bound_new: &Vec<Variable>,
    Ghost(parent): Ghost<BindingModel>,
    Ghost(newv): Ghost<Seq<Variable>>,
) -> (r: (usize, BindingStep, Option<usize>))
    requires
        log.wf(),
        remaining@.len() > 0,
        parent == opt_parent_model(parent_binding_opt),
        match parent_binding_opt {
            Some(p) => crate::filters::binding_indices_valid(p.deep_view(), *log),
            None => true,
        },
        plan_input_ok(bbox, parent, *log),
        forall|k: int| 0 <= k < remaining@.len() ==> newv.contains(#[trigger] remaining@[k]),
    ensures
        r.0 < remaining@.len(),
        step_bound_var(r.1.deep_view()) == Some(remaining@[r.0 as int]),
        forall|k: int|
            0 <= k < step_reads(r.1.deep_view()).len() ==> {
                let v = #[trigger] step_reads(r.1.deep_view())[k];
                bound_new@.contains(v) || bound_in_parent(parent, v)
            },
        match r.2 {
            Some(fi) => fi < bbox.filters@.len() && step_covers_filter(
                r.1.deep_view(),
                bbox.filters.deep_view()[fi as int],
            ),
            None => true,
        },
{
    let nf = bbox.filters.len();
    let nr = remaining.len();
    // Tier 1: a relational bind from an already bound source, choosing the
    // source with the smallest expected population.
    let mut pos: usize = 0;
    while pos < nr
        invariant
            nr == remaining@.len(),
            nf == bbox.filters@.len(),
            log.wf(),
            parent == opt_parent_model(parent_binding_opt),
            match parent_binding_opt {
                Some(p) => crate::filters::binding_indices_valid(p.deep_view(), *log),
                None => true,
            },
            plan_input_ok(bbox, parent, *log),
            pos <= nr,
        decreases nr - pos,
    {
        let var = remaining[pos];
        let mut best: Option<(usize, BindingStep)> = None;
        let ghost best_ok = |cand: (usize, BindingStep)|
            {
                &&& cand.0 < bbox.filters@.len()
                &&& step_covers_filter(
                    cand.1.deep_view(),
                    bbox.filters.deep_view()[cand.0 as int],
                )
                &&& step_bound_var(cand.1.deep_view()) == Some(var)
                &&& forall|k: int|
                    0 <= k < step_reads(cand.1.deep_view()).len() ==> {
                        let v = #[trigger] step_reads(cand.1.deep_view())[k];
                        bound_new@.contains(v) || bound_in_parent(parent, v)
                    }
            };
        let mut best_count: usize = 0;
        let mut fi: usize = 0;
        while fi < nf
            invariant
                nf == bbox.filters@.len(),
                nr == remaining@.len(),
                pos < nr,
                var == remaining@[pos as int],
                log.wf(),
                parent == opt_parent_model(parent_binding_opt),
                match parent_binding_opt {
                    Some(p) => crate::filters::binding_indices_valid(p.deep_view(), *log),
                    None => true,
                },
                fi <= nf,
                match best {
                    Some(cand) => best_ok(cand),
                    None => true,
                },
            decreases nf - fi,
        {
            let candidate: Option<(Variable, BindingStep)> = match &bbox.filters[fi] {
                Filter::O2E { object, event, qualifier, .. } => {
                    if var == Variable::Object(*object) {
                        Some(
                            (
                                Variable::Event(*event),
                                BindingStep::BindObFromEv(
                                    *object,
                                    *event,
                                    clone_qualifier(qualifier),
                                ),
                            ),
                        )
                    } else if var == Variable::Event(*event) {
                        Some(
                            (
                                Variable::Object(*object),
                                BindingStep::BindEvFromOb(
                                    *event,
                                    *object,
                                    clone_qualifier(qualifier),
                                ),
                            ),
                        )
                    } else {
                        None
                    }
                },
                Filter::O2O { object, other_object, qualifier, .. } => {
                    if var == Variable::Object(*other_object) {
                        Some(
                            (
                                Variable::Object(*object),
                                BindingStep::BindObFromOb(
                                    *other_object,
                                    *object,
                                    clone_qualifier(qualifier),
                                    false,
                                ),
                            ),
                        )
                    } else if var == Variable::Object(*object) {
                        Some(
                            (
                                Variable::Object(*other_object),
                                BindingStep::BindObFromOb(
                                    *object,
                                    *other_object,
                                    clone_qualifier(qualifier),
                                    true,
                                ),
                            ),
                        )
                    } else {
                        None
                    }
                },
                _ => None,
            };
            if let Some((source, step)) = candidate {
                let source_ok = if vars_contains(bound_new, &source) {
                    true
                } else {
                    match parent_binding_opt {
                        Some(p) => match p.get_any_index(&source) {
                            Some(_) => true,
                            None => false,
                        },
                        None => false,
                    }
                };
                if source_ok {
                    let count = match get_expected_relation_count(
                        &source,
                        bbox,
                        parent_binding_opt,
                        log,
                    ) {
                        Some(c) => c,
                        None => 10,
                    };
                    let better = match &best {
                        Some(_) => count < best_count,
                        None => true,
                    };
                    if better {
                        best = Some((fi, step));
                        best_count = count;
                    }
                }
            }
            fi = fi + 1;
        }
        if let Some((bfi, step)) = best {
            return (pos, step, Some(bfi));
        }
        pos = pos + 1;
    }
    // Tier 2: an event variable constrained by a time window whose
    // reference event is already bound.
    let mut pos2: usize = 0;
    while pos2 < nr
        invariant
            nr == remaining@.len(),
            nf == bbox.filters@.len(),
            parent == opt_parent_model(parent_binding_opt),
            pos2 <= nr,
        decreases nr - pos2,
    {
        let var = remaining[pos2];
        if let Variable::Event(ev) = var {
            let mut fi2: usize = 0;
            while fi2 < nf
                invariant
                    nf == bbox.filters@.len(),
                    nr == remaining@.len(),
                    pos2 < nr,
                    var == remaining@[pos2 as int],
                    var == Variable::Event(ev),
                    parent == opt_parent_model(parent_binding_opt),
                    fi2 <= nf,
                decreases nf - fi2,
            {
                if let Filter::TimeBetweenEvents { from_event, to_event, min_millis, max_millis }
                    = &bbox.filters[fi2] {
                    let (reference, lo, hi): (EventVariable, Option<i64>, Option<i64>) = if ev.0
                        == to_event.0 {
                        (*from_event, *min_millis, *max_millis)
                    } else if ev.0 == from_event.0 {
                        (
                            *to_event,
                            match max_millis {
                                Some(m) => Some(neg_saturating(*m)),
                                None => None,
                            },
                            match min_millis {
                                Some(m) => Some(neg_saturating(*m)),
                                None => None,
                            },
                        )
                    } else {
                        fi2 = fi2 + 1;
                        continue ;
                    };
                    let ref_ok = if vars_contains(bound_new, &Variable::Event(reference)) {
                        true
                    } else {
                        match parent_binding_opt {
                            Some(p) => match p.get_ev_index(&reference) {
                                Some(_) => true,
                                None => false,
                            },
                            None => false,
                        }
                    };
                    if ref_ok {
                        let mut constraints: Vec<(EventVariable, (Option<i64>, Option<i64>))> =
                            Vec::new();
                        constraints.push((reference, (lo, hi)));
                        let step = BindingStep::BindEv(ev, Some(constraints));
                        proof {
                            assert(constraints.deep_view() =~= seq![(
                                reference,
                                (lo, hi),
                            )]);
                            assert(step_reads(step.deep_view()) =~= seq![
                                Variable::Event(reference),
                            ]);
                            if parent_binding_opt is Some && !bound_new@.contains(
                                Variable::Event(reference),
                            ) {
                                assert(bound_in_parent(parent, Variable::Event(reference)));
                            }
                        }
                        return (pos2, step, None);
                    }
                }
                fi2 = fi2 + 1;
            }
        }
        pos2 = pos2 + 1;
    }
    // Tier 3: a free type scan, events before objects by construction of
    // the remaining list.
    let var = remaining[0];
    match var {
        Variable::Event(ev) => (0, BindingStep::BindEv(ev, None), None),
        Variable::Object(ov) => (0, BindingStep::BindOb(ov), None),
    }
}

/// Negation that saturates at the numeric limits instead of overflowing.
fn neg_saturating(x: i64) -> (r: i64)
    ensures
        x != i64::MIN ==> r == -x,
        x == i64::MIN ==> r == i64::MAX,
{
    if x == i64::MIN {
        i64::MAX
    } else {
        -x
    }
}

} // verus!
