//! Size filters: predicates on the collections of child results of a
//! binding.
//!
//! A size filter counts a child's bindings, counts or compares the sets of
//! values a variable takes over a child's bindings, or compares whole
//! binding sets across children. A named child that is missing fails the
//! filter.
use crate::binding::{lookup_any, Binding, BindingModel, EventOrObjectIndex};
use crate::cel::{CelEnv, ChildResults};
use crate::log::IndexedLog;
use crate::query::{EvalError, SizeFilter, SizeFilterModel, Variable, ViolationReason};
use crate::values::LabelValue;
use vstd::prelude::*;

verus! {

/// Ghost model of the child results of one node.
pub type ChildResultsModel = Seq<(Seq<char>, Seq<(BindingModel, Option<ViolationReason>)>)>;

/// The results recorded under `name`, reading the list left to right.
pub open spec fn child_res_lookup(cr: ChildResultsModel, name: Seq<char>) -> Option<
    Seq<(BindingModel, Option<ViolationReason>)>,
>
    decreases cr.len(),
{
    if cr.len() == 0 {
        None
    } else if cr[0].0 == name {
        Some(cr[0].1)
    } else {
        child_res_lookup(cr.skip(1), name)
    }
}

/// The distinct values the variable takes over the bindings, first
/// occurrences in order; bindings that leave the variable unbound add
/// nothing.
pub open spec fn proj_values(
    rs: Seq<(BindingModel, Option<ViolationReason>)>,
    var: Variable,
) -> Seq<EventOrObjectIndex>
    decreases rs.len(),
{
    if rs.len() == 0 {
        Seq::empty()
    } else {
        let prev = proj_values(rs.drop_last(), var);
        match lookup_any(rs.last().0, var) {
            Some(x) => if prev.contains(x) {
                prev
            } else {
                prev.push(x)
            },
            None => prev,
        }
    }
}

/// The distinct values the variable projects to over the bindings, first
/// occurrences in order, an unbound variable contributing `None`.
pub open spec fn proj_values_opt(
    rs: Seq<(BindingModel, Option<ViolationReason>)>,
    var: Variable,
) -> Seq<Option<EventOrObjectIndex>>
    decreases rs.len(),
{
    if rs.len() == 0 {
        Seq::empty()
    } else {
        let prev = proj_values_opt(rs.drop_last(), var);
        let x = lookup_any(rs.last().0, var);
        if prev.contains(x) {
            prev
        } else {
            prev.push(x)
        }
    }
}

/// Whether the binding stands in the results.
pub open spec fn results_contain(
    rs: Seq<(BindingModel, Option<ViolationReason>)>,
    b: BindingModel,
) -> bool {
    exists|k: int| 0 <= k < rs.len() && (#[trigger] rs[k]).0 == b
}

/// Whether two results hold the same set of bindings.
pub open spec fn binding_sets_equal(
    a: Seq<(BindingModel, Option<ViolationReason>)>,
    b: Seq<(BindingModel, Option<ViolationReason>)>,
) -> bool {
    &&& forall|k: int| 0 <= k < a.len() ==> results_contain(b, (#[trigger] a[k]).0)
    &&& forall|k: int| 0 <= k < b.len() ==> results_contain(a, (#[trigger] b[k]).0)
}

/// Whether two results project the two variables to the same value set; a
/// binding that leaves its variable unbound contributes `None` to the set.
pub open spec fn proj_sets_equal(
    a: Seq<(BindingModel, Option<ViolationReason>)>,
    va: Variable,
    b: Seq<(BindingModel, Option<ViolationReason>)>,
    vb: Variable,
) -> bool {
    &&& forall|k: int|
        0 <= k < proj_values_opt(a, va).len() ==> proj_values_opt(b, vb).contains(
            #[trigger] proj_values_opt(a, va)[k],
        )
    &&& forall|k: int|
        0 <= k < proj_values_opt(b, vb).len() ==> proj_values_opt(a, va).contains(
            #[trigger] proj_values_opt(b, vb)[k],
        )
}

/// Whether an optional count bound pair accepts `n`.
pub open spec fn count_in_bounds(n: int, min: Option<usize>, max: Option<usize>) -> bool {
    &&& !(min is Some && n < min->0)
    &&& !(max is Some && n > max->0)
}

/// The meaning of a size filter on the child results: a missing child name
/// is false. Embedded expression filters are outside this model.
pub open spec fn size_filter_holds(
    sf: SizeFilterModel,
    b: BindingModel,
    cr: ChildResultsModel,
) -> bool {
    match sf {
        SizeFilterModel::NumChilds { child_name, min, max } => match child_res_lookup(
            cr,
            child_name,
        ) {
            Some(rs) => count_in_bounds(rs.len() as int, min, max),
            None => false,
        },
        SizeFilterModel::NumChildsProj { child_name, var_name, min, max } => match child_res_lookup(
            cr,
            child_name,
        ) {
            Some(rs) => count_in_bounds(proj_values(rs, var_name).len() as int, min, max),
            None => false,
        },
        SizeFilterModel::BindingSetEqual { child_names } => if child_names.len() == 0 {
            true
        } else {
            match child_res_lookup(cr, child_names[0]) {
                Some(rs0) => forall|k: int|
                    1 <= k < child_names.len() ==> match child_res_lookup(
                        cr,
                        #[trigger] child_names[k],
                    ) {
                        Some(rsk) => binding_sets_equal(rs0, rsk),
                        None => false,
                    },
                None => false,
            }
        },
        SizeFilterModel::BindingSetProjectionEqual { child_name_with_var_name } => if child_name_with_var_name.len()
            == 0 {
            true
        } else {
            match child_res_lookup(cr, child_name_with_var_name[0].0) {
                Some(rs0) => forall|k: int|
                    1 <= k < child_name_with_var_name.len() ==> match child_res_lookup(
                        cr,
                        (#[trigger] child_name_with_var_name[k]).0,
                    ) {
                        Some(rsk) => proj_sets_equal(
                            rs0,
                            child_name_with_var_name[0].1,
                            rsk,
                            child_name_with_var_name[k].1,
                        ),
                        None => false,
                    },
                None => false,
            }
        },
        SizeFilterModel::AdvancedCEL { .. } => false,
    }
}

/// Whether two label values carry the same model.
fn label_values_equal(a: &LabelValue, b: &LabelValue) -> (r: bool)
    ensures
        r == (a.deep_view() == b.deep_view()),
{
    match (a, b) {
        (LabelValue::String(x), LabelValue::String(y)) => *x == *y,
        (LabelValue::Int(x), LabelValue::Int(y)) => *x == *y,
        (LabelValue::Float(x), LabelValue::Float(y)) => *x == *y,
        (LabelValue::Bool(x), LabelValue::Bool(y)) => *x == *y,
        (LabelValue::Null, LabelValue::Null) => true,
        _ => false,
    }
}

/// Whether two bindings carry the same model: the same variable
/// assignments in the same order and the same labels in the same order.
pub fn bindings_equal(a: &Binding, b: &Binding) -> (r: bool)
    ensures
        r == (a.deep_view() == b.deep_view()),
{
    if a.event_map.len() != b.event_map.len() || a.object_map.len() != b.object_map.len()
        || a.label_map.len() != b.label_map.len() {
        proof {
            assert(a.deep_view().label_map.len() == a.label_map@.len());
            assert(b.deep_view().label_map.len() == b.label_map@.len());
        }
        return false;
    }
    let n1 = a.event_map.len();
    let mut i: usize = 0;
    while i < n1
        invariant
            n1 == a.event_map@.len(),
            n1 == b.event_map@.len(),
            i <= n1,
            forall|k: int| 0 <= k < i ==> a.event_map@[k] == b.event_map@[k],
        decreases n1 - i,
    {
        if a.event_map[i].0.0 != b.event_map[i].0.0 || a.event_map[i].1 != b.event_map[i].1 {
            assert(a.event_map@[i as int] != b.event_map@[i as int]);
            return false;
        }
        i = i + 1;
    }
    let n2 = a.object_map.len();
    let mut i2: usize = 0;
    while i2 < n2
        invariant
            n2 == a.object_map@.len(),
            n2 == b.object_map@.len(),
            i2 <= n2,
            forall|k: int| 0 <= k < i2 ==> a.object_map@[k] == b.object_map@[k],
        decreases n2 - i2,
    {
        if a.object_map[i2].0.0 != b.object_map[i2].0.0 || a.object_map[i2].1 != b.object_map[i2].1 {
            assert(a.object_map@[i2 as int] != b.object_map@[i2 as int]);
            return false;
        }
        i2 = i2 + 1;
    }
    let n3 = a.label_map.len();
    let mut i3: usize = 0;
    while i3 < n3
        invariant
            n3 == a.label_map@.len(),
            n3 == b.label_map@.len(),
            i3 <= n3,
            forall|k: int|
                0 <= k < i3 ==> a.deep_view().label_map[k] == b.deep_view().label_map[k],
        decreases n3 - i3,
    {
        if !(a.label_map[i3].0 == b.label_map[i3].0) || !label_values_equal(
            &a.label_map[i3].1,
            &b.label_map[i3].1,
        ) {
            assert(a.deep_view().label_map[i3 as int] != b.deep_view().label_map[i3 as int]);
            return false;
        }
        assert(a.deep_view().label_map[i3 as int] == b.deep_view().label_map[i3 as int]);
        i3 = i3 + 1;
    }
    proof {
        assert(a.deep_view().event_map =~= b.deep_view().event_map);
        assert(a.deep_view().object_map =~= b.deep_view().object_map);
        assert(a.deep_view().label_map =~= b.deep_view().label_map);
        assert(a.deep_view() =~= b.deep_view());
    }
    true
}

/// Whether `rs` holds a binding with the same model as `b`.
fn results_contain_exec(rs: &Vec<(Binding, Option<ViolationReason>)>, b: &Binding) -> (r: bool)
    ensures
        r == results_contain(rs.deep_view(), b.deep_view()),
{
    let n = rs.len();
    let mut i: usize = 0;
    while i < n
        invariant
            n == rs@.len(),
            i <= n,
            forall|k: int| 0 <= k < i ==> (#[trigger] rs.deep_view()[k]).0 != b.deep_view(),
        decreases n - i,
    {
        if bindings_equal(&rs[i].0, b) {
            assert(rs.deep_view()[i as int].0 == b.deep_view());
            return true;
        }
        assert(rs.deep_view()[i as int].0 == rs@[i as int].0.deep_view());
        i = i + 1;
    }
    false
}

/// Whether the two results hold the same set of bindings.
fn binding_sets_equal_exec(
    a: &Vec<(Binding, Option<ViolationReason>)>,
    b: &Vec<(Binding, Option<ViolationReason>)>,
) -> (r: bool)
    ensures
        r == binding_sets_equal(a.deep_view(), b.deep_view()),
{
    let na = a.len();
    let mut i: usize = 0;
    while i < na
        invariant
            na == a@.len(),
            i <= na,
            forall|k: int|
                0 <= k < i ==> results_contain(b.deep_view(), (#[trigger] a.deep_view()[k]).0),
        decreases na - i,
    {
        if !results_contain_exec(b, &a[i].0) {
            assert(!results_contain(b.deep_view(), a.deep_view()[i as int].0));
            return false;
        }
        assert(a.deep_view()[i as int].0 == a@[i as int].0.deep_view());
        i = i + 1;
    }
    let nb = b.len();
    let mut j: usize = 0;
    while j < nb
        invariant
            nb == b@.len(),
            j <= nb,
            forall|k: int|
                0 <= k < j ==> results_contain(a.deep_view(), (#[trigger] b.deep_view()[k]).0),
        decreases nb - j,
    {
        if !results_contain_exec(a, &b[j].0) {
            assert(!results_contain(a.deep_view(), b.deep_view()[j as int].0));
            return false;
        }
        assert(b.deep_view()[j as int].0 == b@[j as int].0.deep_view());
        j = j + 1;
    }
    true
}

/// The results recorded under `name`, if the child exists.
pub fn child_res_lookup_exec<'a>(cr: &'a ChildResults, name: &String) -> (r: Option<
    &'a Vec<(Binding, Option<ViolationReason>)>,
>)
    ensures
        match r {
            Some(rs) => child_res_lookup(cr.deep_view(), name@) == Some(rs.deep_view()),
            None => child_res_lookup(cr.deep_view(), name@) is None,
        },
{
    let n = cr.len();
    let mut i: usize = 0;
    proof {
        assert(cr.deep_view().skip(0) =~= cr.deep_view());
    }
    while i < n
        invariant
            n == cr@.len(),
            i <= n,
            child_res_lookup(cr.deep_view(), name@) == child_res_lookup(
                cr.deep_view().skip(i as int),
                name@,
            ),
        decreases n - i,
    {
        proof {
            assert(cr.deep_view().skip(i as int)[0] == cr.deep_view()[i as int]);
            assert(cr.deep_view().skip(i as int).skip(1) =~= cr.deep_view().skip(i + 1));
        }
        if cr[i].0 == *name {
            return Some(&cr[i].1);
        }
        i = i + 1;
    }
    None
}

/// The distinct values `var` takes over the results, first occurrences in
/// order.
fn proj_values_exec(rs: &Vec<(Binding, Option<ViolationReason>)>, var: &Variable) -> (r: Vec<
    EventOrObjectIndex,
>)
    ensures
        r@ == proj_values(rs.deep_view(), *var),
{
    let n = rs.len();
    let mut out: Vec<EventOrObjectIndex> = Vec::new();
    let mut i: usize = 0;
    proof {
        assert(rs.deep_view().take(0) =~= Seq::<(BindingModel, Option<ViolationReason>)>::empty());
    }
    while i < n
        invariant
            n == rs@.len(),
            i <= n,
            out@ == proj_values(rs.deep_view().take(i as int), *var),
        decreases n - i,
    {
        proof {
            assert(rs.deep_view().take(i + 1).drop_last() =~= rs.deep_view().take(i as int));
            assert(rs.deep_view().take(i + 1).last() == rs.deep_view()[i as int]);
            assert(rs.deep_view()[i as int].0 == rs@[i as int].0.deep_view());
        }
        match rs[i].0.get_any_index(var) {
            Some(x) => {
                let mut seen = false;
                let m = out.len();
                let mut k: usize = 0;
                while k < m
                    invariant
                        m == out@.len(),
                        k <= m,
                        seen == out@.take(k as int).contains(x),
                    decreases m - k,
                {
                    proof {
                        assert(out@.take(k + 1).drop_last() =~= out@.take(k as int));
                    }
                    if out[k] == x {
                        seen = true;
                    }
                    proof {
                        if out@.take(k as int).contains(x) {
                            assert(out@.take(k + 1).contains(x));
                        }
                        if out@[k as int] == x {
                            assert(out@.take(k + 1)[k as int] == x);
                        }
                        if seen != out@.take(k + 1).contains(x) {
                            assert(out@.take(k + 1).contains(x));
                            let w = choose|w: int| 0 <= w < k + 1 && #[trigger] out@.take(k + 1)[w] == x;
                            assert(out@.take(k as int).contains(x) || out@[k as int] == x);
                        }
                    }
                    k = k + 1;
                }
                proof {
                    assert(out@.take(m as int) =~= out@);
                }
                if !seen {
                    out.push(x);
                }
            },
            None => {},
        }
        i = i + 1;
    }
    proof {
        assert(rs.deep_view().take(n as int) =~= rs.deep_view());
    }
    out
}

/// The distinct values `var` projects to over the results, `None` for an
/// unbound variable, first occurrences in order.
fn proj_values_opt_exec(rs: &Vec<(Binding, Option<ViolationReason>)>, var: &Variable) -> (r: Vec<
    Option<EventOrObjectIndex>,
>)
    ensures
        r@ == proj_values_opt(rs.deep_view(), *var),
{
    let n = rs.len();
    let mut out: Vec<Option<EventOrObjectIndex>> = Vec::new();
    let mut i: usize = 0;
    proof {
        assert(rs.deep_view().take(0) =~= Seq::<(BindingModel, Option<ViolationReason>)>::empty());
    }
    while i < n
        invariant
            n == rs@.len(),
            i <= n,
            out@ == proj_values_opt(rs.deep_view().take(i as int), *var),
        decreases n - i,
    {
        proof {
            assert(rs.deep_view().take(i + 1).drop_last() =~= rs.deep_view().take(i as int));
            assert(rs.deep_view().take(i + 1).last() == rs.deep_view()[i as int]);
            assert(rs.deep_view()[i as int].0 == rs@[i as int].0.deep_view());
        }
        let x = rs[i].0.get_any_index(var);
        let mut seen = false;
        let m = out.len();
        let mut k: usize = 0;
        while k < m
            invariant
                m == out@.len(),
                k <= m,
                seen == out@.take(k as int).contains(x),
            decreases m - k,
        {
            proof {
                assert(out@.take(k + 1).drop_last() =~= out@.take(k as int));
            }
            if opt_index_eq(&out[k], &x) {
                seen = true;
            }
            proof {
                if out@.take(k as int).contains(x) {
                    assert(out@.take(k + 1).contains(x));
                }
                if out@[k as int] == x {
                    assert(out@.take(k + 1)[k as int] == x);
                }
                if seen != out@.take(k + 1).contains(x) {
                    assert(out@.take(k + 1).contains(x));
                    let w = choose|w: int| 0 <= w < k + 1 && #[trigger] out@.take(k + 1)[w] == x;
                    assert(out@.take(k as int).contains(x) || out@[k as int] == x);
                }
            }
            k = k + 1;
        }
        proof {
            assert(out@.take(m as int) =~= out@);
        }
        if !seen {
            out.push(x);
        }
        i = i + 1;
    }
    proof {
        assert(rs.deep_view().take(n as int) =~= rs.deep_view());
    }
    out
}

/// Whether two optional indices are equal.
fn opt_index_eq(a: &Option<EventOrObjectIndex>, b: &Option<EventOrObjectIndex>) -> (r: bool)
    ensures
        r == (a == b),
{
    match (a, b) {
        (Some(x), Some(y)) => *x == *y,
        (None, None) => true,
        _ => false,
    }
}

/// Whether the two results project the two variables to the same value set.
fn proj_sets_equal_exec(
    a: &Vec<(Binding, Option<ViolationReason>)>,
    va: &Variable,
    b: &Vec<(Binding, Option<ViolationReason>)>,
    vb: &Variable,
) -> (r: bool)
    ensures
        r == proj_sets_equal(a.deep_view(), *va, b.deep_view(), *vb),
{
    let pa = proj_values_opt_exec(a, va);
    let pb = proj_values_opt_exec(b, vb);
    let na = pa.len();
    let mut i: usize = 0;
    while i < na
        invariant
            na == pa@.len(),
            pa@ == proj_values_opt(a.deep_view(), *va),
            pb@ == proj_values_opt(b.deep_view(), *vb),
            i <= na,
            forall|k: int| 0 <= k < i ==> pb@.contains(#[trigger] pa@[k]),
        decreases na - i,
    {
        if !opt_index_vec_contains(&pb, &pa[i]) {
            return false;
        }
        i = i + 1;
    }
    let nb = pb.len();
    let mut j: usize = 0;
    while j < nb
        invariant
            nb == pb@.len(),
            pa@ == proj_values_opt(a.deep_view(), *va),
            pb@ == proj_values_opt(b.deep_view(), *vb),
            j <= nb,
            forall|k: int| 0 <= k < j ==> pa@.contains(#[trigger] pb@[k]),
        decreases nb - j,
    {
        if !opt_index_vec_contains(&pa, &pb[j]) {
            return false;
        }
        j = j + 1;
    }
    true
}

/// Whether `v` holds `x`.
fn opt_index_vec_contains(
    v: &Vec<Option<EventOrObjectIndex>>,
    x: &Option<EventOrObjectIndex>,
) -> (r: bool)
    ensures
        r == v@.contains(*x),
{
    let n = v.len();
    let mut i: usize = 0;
    while i < n
        invariant
            n == v@.len(),
            i <= n,
            forall|k: int| 0 <= k < i ==> v@[k] != *x,
        decreases n - i,
    {
        if opt_index_eq(&v[i], x) {
            return true;
        }
        i = i + 1;
    }
    false
}

/// Whether `v` holds `x`.
fn index_vec_contains(v: &Vec<EventOrObjectIndex>, x: &EventOrObjectIndex) -> (r: bool)
    ensures
        r == v@.contains(*x),
{
    let n = v.len();
    let mut i: usize = 0;
    while i < n
        invariant
            n == v@.len(),
            i <= n,
            forall|k: int| 0 <= k < i ==> v@[k] != *x,
        decreases n - i,
    {
        if v[i] == *x {
            return true;
        }
        i = i + 1;
    }
    false
}

impl SizeFilter {
    /// Checks this size filter against the child results.
    ///
    /// For every kind but an embedded expression the result is exactly
    /// [`size_filter_holds`] and no error occurs; an embedded expression
    /// returns whatever the expression environment answers, including its
    /// compile error.
    pub fn check<C: CelEnv>(
        &self,
        binding: &Binding,
        child_res: &ChildResults,
        log: &IndexedLog,
        cel: &C,
    ) -> (r: Result<bool, EvalError>)
        ensures
            match r {
                Ok(res) => !(self.deep_view() is AdvancedCEL) ==> res == size_filter_holds(
                    self.deep_view(),
                    binding.deep_view(),
                    child_res.deep_view(),
                ),
                Err(_) => self.deep_view() is AdvancedCEL,
            },
    {
        match self {
            SizeFilter::NumChilds { child_name, min, max } => {
                match child_res_lookup_exec(child_res, child_name) {
                    Some(rs) => {
                        let len = rs.len();
                        let min_ok = match min {
                            Some(m) => len >= *m,
                            None => true,
                        };
                        let max_ok = match max {
                            Some(m) => len <= *m,
                            None => true,
                        };
                        Ok(min_ok && max_ok)
                    },
                    None => Ok(false),
                }
            },
            SizeFilter::NumChildsProj { child_name, var_name, min, max } => {
                match child_res_lookup_exec(child_res, child_name) {
                    Some(rs) => {
                        let len = proj_values_exec(rs, var_name).len();
                        let min_ok = match min {
                            Some(m) => len >= *m,
                            None => true,
                        };
                        let max_ok = match max {
                            Some(m) => len <= *m,
                            None => true,
                        };
                        Ok(min_ok && max_ok)
                    },
                    None => Ok(false),
                }
            },
            SizeFilter::BindingSetEqual { child_names } => {
                if child_names.len() == 0 {
                    return Ok(true);
                }
                let rs0 = match child_res_lookup_exec(child_res, &child_names[0]) {
                    Some(rs) => rs,
                    None => {
                        return Ok(false);
                    },
                };
                proof {
                    assert(child_names.deep_view()[0] == child_names@[0]@);
                }
                let n = child_names.len();
                let mut k: usize = 1;
                while k < n
                    invariant
                        n == child_names@.len(),
                        1 <= k <= n,
                        child_res_lookup(child_res.deep_view(), child_names.deep_view()[0])
                            == Some(rs0.deep_view()),
                        forall|w: int|
                            1 <= w < k ==> match child_res_lookup(
                                child_res.deep_view(),
                                #[trigger] child_names.deep_view()[w],
                            ) {
                                Some(rsk) => binding_sets_equal(rs0.deep_view(), rsk),
                                None => false,
                            },
                    decreases n - k,
                {
                    proof {
                        assert(child_names.deep_view()[k as int] == child_names@[k as int]@);
                    }
                    match child_res_lookup_exec(child_res, &child_names[k]) {
                        Some(rsk) => {
                            if !binding_sets_equal_exec(rs0, rsk) {
                                return Ok(false);
                            }
                        },
                        None => {
                            return Ok(false);
                        },
                    }
                    k = k + 1;
                }
                Ok(true)
            },
            SizeFilter::BindingSetProjectionEqual { child_name_with_var_name } => {
                if child_name_with_var_name.len() == 0 {
                    return Ok(true);
                }
                let rs0 = match child_res_lookup_exec(child_res, &child_name_with_var_name[0].0) {
                    Some(rs) => rs,
                    None => {
                        return Ok(false);
                    },
                };
                proof {
                    assert(child_name_with_var_name.deep_view()[0] == (
                        child_name_with_var_name@[0].0@,
                        child_name_with_var_name@[0].1,
                    ));
                }
                let var0 = child_name_with_var_name[0].1;
                let n = child_name_with_var_name.len();
                let mut k: usize = 1;
                while k < n
                    invariant
                        n == child_name_with_var_name@.len(),
                        1 <= k <= n,
                        child_res_lookup(
                            child_res.deep_view(),
                            child_name_with_var_name.deep_view()[0].0,
                        ) == Some(rs0.deep_view()),
                        var0 == child_name_with_var_name.deep_view()[0].1,
                        forall|w: int|
                            1 <= w < k ==> match child_res_lookup(
                                child_res.deep_view(),
                                (#[trigger] child_name_with_var_name.deep_view()[w]).0,
                            ) {
                                Some(rsk) => proj_sets_equal(
                                    rs0.deep_view(),
                                    child_name_with_var_name.deep_view()[0].1,
                                    rsk,
                                    child_name_with_var_name.deep_view()[w].1,
                                ),
                                None => false,
                            },
                    decreases n - k,
                {
                    proof {
                        assert(child_name_with_var_name.deep_view()[k as int] == (
                            child_name_with_var_name@[k as int].0@,
                            child_name_with_var_name@[k as int].1,
                        ));
                    }
                    match child_res_lookup_exec(child_res, &child_name_with_var_name[k].0) {
                        Some(rsk) => {
                            if !proj_sets_equal_exec(
                                rs0,
                                &var0,
                                rsk,
                                &child_name_with_var_name[k].1,
                            ) {
                                return Ok(false);
                            }
                        },
                        None => {
                            return Ok(false);
                        },
                    }
                    k = k + 1;
                }
                Ok(true)
            },
            SizeFilter::AdvancedCEL { cel: program } => {
                cel.eval_predicate(program, binding, Some(child_res), log)
            },
        }
    }
}

} // verus!
