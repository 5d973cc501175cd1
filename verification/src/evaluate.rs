//! Tree evaluator: recursive evaluation of a binding-box tree over the
//! indexed log.
//!
//! Each node expands its box against the parent binding; for every produced
//! binding the children are evaluated recursively, label functions run,
//! size filters may drop the binding, and the node's constraints decide
//! whether it counts as satisfied or violated (the first failing constraint
//! names the violation). Boolean combinator nodes evaluate as a box with
//! the matching constraint over synthesised edge names. A cooperative
//! safety bound stops work when the product of children, child results and
//! bindings grows too large; hitting it is reported, not an error.
use crate::binding::{lookup_ev_map, lookup_ob_map, Binding, BindingModel};
use crate::cel::{CelEnv, ChildResults};
use crate::expand::{box_cel_free, expand_spec, lemma_plan_with_cel_filter, steps_cel_free};
use crate::filters::{binding_indices_valid, filter_error, filter_holds, involved_vars};
use crate::log::IndexedLog;
use crate::planner::{plan_guarantees, plan_input_ok};
use crate::query::{
    BindingBox, BindingBoxTree, BindingBoxTreeNode, BindingStepModel, Constraint, ConstraintModel,
    EvalError, TreeNodeModel, ViolationReason,
};
use crate::size_filters::{child_res_lookup, size_filter_holds, ChildResultsModel};
use crate::text::{unnamed_edge_name, unnamed_edge_name_spec};
use vstd::prelude::*;

verus! {

/// The default tripwire on `children x child results x bindings`.
pub const TREE_SAFETY_PRODUCT: u128 = 25_000_000;

/// The child node indices of a tree node.
pub open spec fn node_children(n: TreeNodeModel) -> Seq<usize> {
    match n {
        TreeNodeModel::Box(_, children) => children,
        TreeNodeModel::OR(c1, c2) => seq![c1, c2],
        TreeNodeModel::AND(c1, c2) => seq![c1, c2],
        TreeNodeModel::NOT(c) => seq![c],
    }
}

/// Whether every path from node `i` stays inside the tree and is shorter
/// than `fuel`: the acyclicity witness under which evaluation terminates.
pub open spec fn no_cycle_from(nodes: Seq<TreeNodeModel>, i: int, fuel: nat) -> bool
    decreases fuel,
{
    &&& fuel > 0
    &&& 0 <= i < nodes.len()
    &&& forall|k: int|
        0 <= k < node_children(nodes[i]).len() ==> no_cycle_from(
            nodes,
            (#[trigger] node_children(nodes[i])[k]) as int,
            (fuel - 1) as nat,
        )
}

/// Whether the tree is empty or acyclic from its root: every path from node
/// 0 visits at most as many nodes as the tree has.
pub open spec fn rooted_acyclic(tree: &BindingBoxTree) -> bool {
    tree.nodes@.len() == 0 || no_cycle_from(
        tree.deep_view().nodes,
        0,
        tree.nodes@.len() as nat + 1,
    )
}

/// The name of the edge to `child`: the first declared entry, or the
/// synthesised name.
pub open spec fn edge_name_spec(
    edges: Seq<((usize, usize), Seq<char>)>,
    parent: usize,
    child: usize,
) -> Seq<char>
    decreases edges.len(),
{
    if edges.len() == 0 {
        unnamed_edge_name_spec(child as nat)
    } else if edges[0].0 == (parent, child) {
        edges[0].1
    } else {
        edge_name_spec(edges.skip(1), parent, child)
    }
}

/// Looks up the name of the edge from `parent` to `child`.
fn edge_name_of(tree: &BindingBoxTree, parent: usize, child: usize) -> (r: String)
    ensures
        r@ == edge_name_spec(tree.edge_names.deep_view(), parent, child),
{
    let n = tree.edge_names.len();
    let mut i: usize = 0;
    proof {
        assert(tree.edge_names.deep_view().skip(0) =~= tree.edge_names.deep_view());
    }
    while i < n
        invariant
            n == tree.edge_names@.len(),
            i <= n,
            edge_name_spec(tree.edge_names.deep_view(), parent, child) == edge_name_spec(
                tree.edge_names.deep_view().skip(i as int),
                parent,
                child,
            ),
        decreases n - i,
    {
        proof {
            assert(tree.edge_names.deep_view().skip(i as int)[0] == tree.edge_names.deep_view()[
                i as int
            ]);
            assert(tree.edge_names.deep_view().skip(i as int).skip(1)
                =~= tree.edge_names.deep_view().skip(i + 1));
            assert(tree.edge_names.deep_view()[i as int].0 == tree.edge_names@[i as int].0);
            assert(tree.edge_names.deep_view()[i as int].1 == tree.edge_names@[i as int].1@);
        }
        if tree.edge_names[i].0.0 == parent && tree.edge_names[i].0.1 == child {
            return tree.edge_names[i].1.clone();
        }
        i = i + 1;
    }
    unnamed_edge_name(child)
}

/// Whether some binding of the results is violated.
pub open spec fn has_violated(rs: Seq<(BindingModel, Option<ViolationReason>)>) -> bool {
    exists|k: int| 0 <= k < rs.len() && (#[trigger] rs[k]).1 is Some
}

/// Whether every binding of the results is violated.
pub open spec fn all_violated(rs: Seq<(BindingModel, Option<ViolationReason>)>) -> bool {
    forall|k: int| 0 <= k < rs.len() ==> (#[trigger] rs[k]).1 is Some
}

/// Whether every binding of the results is satisfied.
pub open spec fn all_satisfied(rs: Seq<(BindingModel, Option<ViolationReason>)>) -> bool {
    forall|k: int| 0 <= k < rs.len() ==> (#[trigger] rs[k]).1 is None
}

/// Whether the named child counts against a for-all constraint: it is
/// missing or has a violated binding.
pub open spec fn name_breaks_sat(cr: ChildResultsModel, name: Seq<char>) -> bool {
    match child_res_lookup(cr, name) {
        Some(rs) => has_violated(rs),
        None => true,
    }
}

/// Whether the named child counts against a there-exists constraint: it is
/// missing or all its bindings are violated.
pub open spec fn name_breaks_any(cr: ChildResultsModel, name: Seq<char>) -> bool {
    match child_res_lookup(cr, name) {
        Some(rs) => all_violated(rs),
        None => true,
    }
}

/// Whether the named child has a satisfied binding (a missing child counts
/// as having one, as the negation constraint reads it).
pub open spec fn name_has_satisfied(cr: ChildResultsModel, name: Seq<char>) -> bool {
    match child_res_lookup(cr, name) {
        Some(rs) => exists|k: int| 0 <= k < rs.len() && (#[trigger] rs[k]).1 is None,
        None => true,
    }
}

/// Whether the named child is fully satisfied (a missing child counts as
/// fully satisfied, as the disjunctive constraints read it).
pub open spec fn name_all_satisfied(cr: ChildResultsModel, name: Seq<char>) -> bool {
    match child_res_lookup(cr, name) {
        Some(rs) => all_satisfied(rs),
        None => true,
    }
}

/// Whether some named child breaks a for-all constraint.
pub open spec fn some_breaks_sat(cr: ChildResultsModel, names: Seq<Seq<char>>) -> bool {
    exists|j: int| 0 <= j < names.len() && name_breaks_sat(cr, #[trigger] names[j])
}

/// Whether some named child breaks a there-exists constraint.
pub open spec fn some_breaks_any(cr: ChildResultsModel, names: Seq<Seq<char>>) -> bool {
    exists|j: int| 0 <= j < names.len() && name_breaks_any(cr, #[trigger] names[j])
}

/// Whether every named child has a satisfied binding.
pub open spec fn every_has_satisfied(cr: ChildResultsModel, names: Seq<Seq<char>>) -> bool {
    forall|j: int| 0 <= j < names.len() ==> name_has_satisfied(cr, #[trigger] names[j])
}

/// Whether some named child is fully satisfied.
pub open spec fn some_all_satisfied(cr: ChildResultsModel, names: Seq<Seq<char>>) -> bool {
    exists|j: int| 0 <= j < names.len() && name_all_satisfied(cr, #[trigger] names[j])
}

/// Whether every named child is fully satisfied.
pub open spec fn every_all_satisfied(cr: ChildResultsModel, names: Seq<Seq<char>>) -> bool {
    forall|j: int| 0 <= j < names.len() ==> name_all_satisfied(cr, #[trigger] names[j])
}

/// Whether a constraint is violated on a binding and its child results.
/// Embedded expression constraints are outside this model.
pub open spec fn constraint_violated(
    c: ConstraintModel,
    b: BindingModel,
    cr: ChildResultsModel,
    log: IndexedLog,
) -> bool {
    match c {
        ConstraintModel::Filter { filter } => !filter_holds(filter, b, log),
        ConstraintModel::SizeFilter { filter } => !size_filter_holds(filter, b, cr),
        ConstraintModel::SAT { child_names } => some_breaks_sat(cr, child_names),
        ConstraintModel::ANY { child_names } => some_breaks_any(cr, child_names),
        ConstraintModel::NOT { child_names } => every_has_satisfied(cr, child_names),
        ConstraintModel::OR { child_names } => !some_all_satisfied(cr, child_names),
        ConstraintModel::AND { child_names } => !every_all_satisfied(cr, child_names),
    }
}

/// The position of the first violated constraint at or after `i`, if any.
pub open spec fn first_violated_from(
    cs: Seq<ConstraintModel>,
    i: int,
    b: BindingModel,
    cr: ChildResultsModel,
    log: IndexedLog,
) -> Option<int>
    decreases cs.len() - i,
{
    if i < 0 || i >= cs.len() {
        None
    } else if constraint_violated(cs[i], b, cr, log) {
        Some(i)
    } else {
        first_violated_from(cs, i + 1, b, cr, log)
    }
}

/// Whether a constraint carries an embedded expression program.
pub open spec fn constraint_has_program(c: ConstraintModel) -> bool {
    match c {
        ConstraintModel::Filter { filter } => filter is BasicFilterCEL,
        ConstraintModel::SizeFilter { filter } => filter is AdvancedCEL,
        _ => false,
    }
}

/// Whether no part of the box runs an embedded expression program: no
/// expression filter, no expression size filter or constraint, and no label
/// function.
pub open spec fn box_programs_free(bb: &BindingBox) -> bool {
    &&& box_cel_free(bb)
    &&& forall|k: int|
        0 <= k < bb.size_filters@.len() ==> !((#[trigger] bb.size_filters.deep_view()[k])
            is AdvancedCEL)
    &&& forall|k: int|
        0 <= k < bb.constraints@.len() ==> !constraint_has_program(
            #[trigger] bb.constraints.deep_view()[k],
        )
    &&& bb.labels@.len() == 0
}

/// Extending a children evaluation by one more child keeps it exact.
proof fn lemma_children_eval_snoc(
    tree: &BindingBoxTree,
    node: usize,
    children: Seq<usize>,
    b: BindingModel,
    log: IndexedLog,
    cap: usize,
    cf0: FlatModel,
    cr0: ChildResultsModel,
    cfl: FlatModel,
    pv: PerModel,
    cflat: FlatModel,
    cr: ChildResultsModel,
    fuel: nat,
)
    requires
        children.len() > 0,
        fuel > 0,
        exact_children_eval(tree, node, children.drop_last(), b, log, cap, cf0, cr0, fuel),
        exact_node_eval(tree, children.last(), b, log, cap, cfl, pv, (fuel - 1) as nat),
        cflat == cf0 + cfl,
        cr == cr0.push((edge_name_spec(tree.edge_names.deep_view(), node, children.last()), pv)),
    ensures
        exact_children_eval(tree, node, children, b, log, cap, cflat, cr, fuel),
{
    assert(children_eval_step(
        tree,
        node,
        children,
        b,
        log,
        cap,
        cf0,
        cr0,
        cfl,
        pv,
        cflat,
        cr,
        fuel,
    ));
    assert(eval_witness(cf0, cr0, cfl, pv));
    assert(children.len() != 0);
    assert(exact_children_eval(tree, node, children, b, log, cap, cflat, cr, fuel));
}

/// Extending a per-binding evaluation by one more binding keeps it exact.
proof fn lemma_bindings_eval_snoc(
    tree: &BindingBoxTree,
    node: usize,
    bs: Seq<BindingModel>,
    log: IndexedLog,
    cap: usize,
    flat0: FlatModel,
    per0: PerModel,
    cflat: FlatModel,
    cr: ChildResultsModel,
    flat: FlatModel,
    per: PerModel,
    fuel: nat,
)
    requires
        bs.len() > 0,
        node < tree.nodes@.len(),
        exact_bindings_eval(tree, node, bs.drop_last(), log, cap, flat0, per0, fuel),
        exact_children_eval(
            tree,
            node,
            node_children(tree.deep_view().nodes[node as int]),
            bs.last(),
            log,
            cap,
            cflat,
            cr,
            fuel,
        ),
        ({
            let bbm = node_box_model(tree.deep_view().nodes[node as int]);
            if passes_size_filters(bbm, bs.last(), cr) {
                let v = situation_verdict(bbm.constraints, bs.last(), cr, log);
                flat == flat0 + cflat + seq![(node, bs.last(), v)] && per == per0 + seq![
                    (bs.last(), v),
                ]
            } else {
                flat == flat0 && per == per0
            }
        }),
    ensures
        exact_bindings_eval(tree, node, bs, log, cap, flat, per, fuel),
{
    assert(bindings_eval_step(tree, node, bs, log, cap, flat0, per0, cflat, cr, flat, per, fuel));
    assert(eval_witness(flat0, cr, cflat, per0));
    assert(bs.len() != 0);
    assert(exact_bindings_eval(tree, node, bs, log, cap, flat, per, fuel));
}

/// Whether some binding of `rs` has a violated entry.
fn has_violated_exec(rs: &Vec<(Binding, Option<ViolationReason>)>) -> (r: bool)
    ensures
        r == has_violated(rs.deep_view()),
{
    let n = rs.len();
    let mut i: usize = 0;
    while i < n
        invariant
            n == rs@.len(),
            i <= n,
            forall|k: int| 0 <= k < i ==> !((#[trigger] rs.deep_view()[k]).1 is Some),
        decreases n - i,
    {
        proof {
            assert(rs.deep_view()[i as int].1 == rs@[i as int].1.deep_view());
        }
        if rs[i].1.is_some() {
            proof {
                assert(rs.deep_view()[i as int].1 is Some);
            }
            return true;
        }
        i = i + 1;
    }
    false
}

/// Whether every binding of `rs` is violated.
fn all_violated_exec(rs: &Vec<(Binding, Option<ViolationReason>)>) -> (r: bool)
    ensures
        r == all_violated(rs.deep_view()),
{
    let n = rs.len();
    let mut i: usize = 0;
    while i < n
        invariant
            n == rs@.len(),
            i <= n,
            forall|k: int| 0 <= k < i ==> (#[trigger] rs.deep_view()[k]).1 is Some,
        decreases n - i,
    {
        proof {
            assert(rs.deep_view()[i as int].1 == rs@[i as int].1.deep_view());
        }
        if rs[i].1.is_none() {
            proof {
                assert(rs.deep_view()[i as int].1 is None);
            }
            return false;
        }
        i = i + 1;
    }
    true
}

/// Whether every binding of `rs` is satisfied.
fn all_satisfied_exec(rs: &Vec<(Binding, Option<ViolationReason>)>) -> (r: bool)
    ensures
        r == all_satisfied(rs.deep_view()),
{
    let n = rs.len();
    let mut i: usize = 0;
    while i < n
        invariant
            n == rs@.len(),
            i <= n,
            forall|k: int| 0 <= k < i ==> (#[trigger] rs.deep_view()[k]).1 is None,
        decreases n - i,
    {
        proof {
            assert(rs.deep_view()[i as int].1 == rs@[i as int].1.deep_view());
        }
        if rs[i].1.is_some() {
            proof {
                assert(rs.deep_view()[i as int].1 is Some);
            }
            return false;
        }
        i = i + 1;
    }
    true
}

/// Whether the named child breaks a for-all constraint.
fn name_breaks_sat_exec(cr: &ChildResults, name: &String) -> (r: bool)
    ensures
        r == name_breaks_sat(cr.deep_view(), name@),
{
    match crate::size_filters::child_res_lookup_exec(cr, name) {
        Some(rs) => has_violated_exec(rs),
        None => true,
    }
}

/// Whether the named child breaks a there-exists constraint.
fn name_breaks_any_exec(cr: &ChildResults, name: &String) -> (r: bool)
    ensures
        r == name_breaks_any(cr.deep_view(), name@),
{
    match crate::size_filters::child_res_lookup_exec(cr, name) {
        Some(rs) => all_violated_exec(rs),
        None => true,
    }
}

/// Whether the named child has a satisfied binding (missing counts as yes).
fn name_has_satisfied_exec(cr: &ChildResults, name: &String) -> (r: bool)
    ensures
        r == name_has_satisfied(cr.deep_view(), name@),
{
    match crate::size_filters::child_res_lookup_exec(cr, name) {
        Some(rs) => {
            let n = rs.len();
            let mut i: usize = 0;
            while i < n
                invariant
                    n == rs@.len(),
                    i <= n,
                    forall|k: int| 0 <= k < i ==> !((#[trigger] rs.deep_view()[k]).1 is None),
                decreases n - i,
            {
                proof {
                    assert(rs.deep_view()[i as int].1 == rs@[i as int].1.deep_view());
                }
                if rs[i].1.is_none() {
                    proof {
                        assert(rs.deep_view()[i as int].1 is None);
                    }
                    return true;
                }
                i = i + 1;
            }
            false
        },
        None => true,
    }
}

/// Whether the named child is fully satisfied (missing counts as yes).
fn name_all_satisfied_exec(cr: &ChildResults, name: &String) -> (r: bool)
    ensures
        r == name_all_satisfied(cr.deep_view(), name@),
{
    match crate::size_filters::child_res_lookup_exec(cr, name) {
        Some(rs) => all_satisfied_exec(rs),
        None => true,
    }
}

/// Evaluates one constraint on a binding and its child results.
///
/// For a constraint without an embedded expression program the result is
/// exactly [`constraint_violated`] and no error occurs; an error can only
/// come from an expression program.
fn check_one_constraint<C: CelEnv>(
    c: &Constraint,
    b: &Binding,
    child_res: &ChildResults,
    log: &IndexedLog,
    cel: &C,
) -> (r: Result<bool, EvalError>)
    requires
        log.wf(),
        binding_indices_valid(b.deep_view(), *log),
    ensures
        match r {
            Ok(v) => !constraint_has_program(c.deep_view()) ==> v == constraint_violated(
                c.deep_view(),
                b.deep_view(),
                child_res.deep_view(),
                *log,
            ),
            Err(_) => constraint_has_program(c.deep_view()),
        },
{
    match c {
        Constraint::Filter { filter } => {
            match filter.check_binding(b, log, cel) {
                Ok(ok) => Ok(!ok),
                Err(e) => {
                    if let crate::query::Filter::BasicFilterCEL { .. } = filter {
                        Err(e)
                    } else {
                        // an unbound variable makes the filter fail, which
                        // violates the constraint
                        proof {
                            lemma_unbound_filter_false(
                                filter.deep_view(),
                                b.deep_view(),
                                *log,
                            );
                        }
                        Ok(true)
                    }
                },
            }
        },
        Constraint::SizeFilter { filter } => {
            match filter.check(b, child_res, log, cel) {
                Ok(ok) => Ok(!ok),
                Err(e) => Err(e),
            }
        },
        Constraint::SAT { child_names } => {
            let n = child_names.len();
            let mut j: usize = 0;
            while j < n
                invariant
                    n == child_names@.len(),
                    j <= n,
                    forall|k: int|
                        0 <= k < j ==> !name_breaks_sat(
                            child_res.deep_view(),
                            #[trigger] child_names.deep_view()[k],
                        ),
                decreases n - j,
            {
                proof {
                    assert(child_names.deep_view()[j as int] == child_names@[j as int]@);
                }
                if name_breaks_sat_exec(child_res, &child_names[j]) {
                    proof {
                        assert(name_breaks_sat(
                            child_res.deep_view(),
                            child_names.deep_view()[j as int],
                        ));
                        assert(exists|w: int|
                            0 <= w < child_names.deep_view().len() && name_breaks_sat(
                                child_res.deep_view(),
                                #[trigger] child_names.deep_view()[w],
                            ));
                        assert(c.deep_view() == ConstraintModel::SAT {
                            child_names: child_names.deep_view(),
                        });
                        assert(constraint_violated(
                            c.deep_view(),
                            b.deep_view(),
                            child_res.deep_view(),
                            *log,
                        ));
                    }
                    return Ok(true);
                }
                j = j + 1;
            }
            Ok(false)
        },
        Constraint::ANY { child_names } => {
            let n = child_names.len();
            let mut j: usize = 0;
            while j < n
                invariant
                    n == child_names@.len(),
                    j <= n,
                    forall|k: int|
                        0 <= k < j ==> !name_breaks_any(
                            child_res.deep_view(),
                            #[trigger] child_names.deep_view()[k],
                        ),
                decreases n - j,
            {
                proof {
                    assert(child_names.deep_view()[j as int] == child_names@[j as int]@);
                }
                if name_breaks_any_exec(child_res, &child_names[j]) {
                    proof {
                        assert(name_breaks_any(
                            child_res.deep_view(),
                            child_names.deep_view()[j as int],
                        ));
                        assert(exists|w: int|
                            0 <= w < child_names.deep_view().len() && name_breaks_any(
                                child_res.deep_view(),
                                #[trigger] child_names.deep_view()[w],
                            ));
                        assert(c.deep_view() == ConstraintModel::ANY {
                            child_names: child_names.deep_view(),
                        });
                        assert(constraint_violated(
                            c.deep_view(),
                            b.deep_view(),
                            child_res.deep_view(),
                            *log,
                        ));
                    }
                    return Ok(true);
                }
                j = j + 1;
            }
            Ok(false)
        },
        Constraint::NOT { child_names } => {
            let n = child_names.len();
            let mut j: usize = 0;
            while j < n
                invariant
                    n == child_names@.len(),
                    j <= n,
                    forall|k: int|
                        0 <= k < j ==> name_has_satisfied(
                            child_res.deep_view(),
                            #[trigger] child_names.deep_view()[k],
                        ),
                decreases n - j,
            {
                proof {
                    assert(child_names.deep_view()[j as int] == child_names@[j as int]@);
                }
                if !name_has_satisfied_exec(child_res, &child_names[j]) {
                    proof {
                        assert(!name_has_satisfied(
                            child_res.deep_view(),
                            child_names.deep_view()[j as int],
                        ));
                        assert(!constraint_violated(
                            c.deep_view(),
                            b.deep_view(),
                            child_res.deep_view(),
                            *log,
                        ));
                    }
                    return Ok(false);
                }
                j = j + 1;
            }
            Ok(true)
        },
        Constraint::OR { child_names } => {
            let n = child_names.len();
            let mut j: usize = 0;
            while j < n
                invariant
                    n == child_names@.len(),
                    j <= n,
                    forall|k: int|
                        0 <= k < j ==> !name_all_satisfied(
                            child_res.deep_view(),
                            #[trigger] child_names.deep_view()[k],
                        ),
                decreases n - j,
            {
                proof {
                    assert(child_names.deep_view()[j as int] == child_names@[j as int]@);
                }
                if name_all_satisfied_exec(child_res, &child_names[j]) {
                    proof {
                        assert(name_all_satisfied(
                            child_res.deep_view(),
                            child_names.deep_view()[j as int],
                        ));
                        assert(exists|w: int|
                            0 <= w < child_names.deep_view().len() && name_all_satisfied(
                                child_res.deep_view(),
                                #[trigger] child_names.deep_view()[w],
                            ));
                        assert(!constraint_violated(
                            c.deep_view(),
                            b.deep_view(),
                            child_res.deep_view(),
                            *log,
                        ));
                    }
                    return Ok(false);
                }
                j = j + 1;
            }
            Ok(true)
        },
        Constraint::AND { child_names } => {
            let n = child_names.len();
            let mut j: usize = 0;
            while j < n
                invariant
                    n == child_names@.len(),
                    j <= n,
                    forall|k: int|
                        0 <= k < j ==> name_all_satisfied(
                            child_res.deep_view(),
                            #[trigger] child_names.deep_view()[k],
                        ),
                decreases n - j,
            {
                proof {
                    assert(child_names.deep_view()[j as int] == child_names@[j as int]@);
                }
                if !name_all_satisfied_exec(child_res, &child_names[j]) {
                    proof {
                        assert(!name_all_satisfied(
                            child_res.deep_view(),
                            child_names.deep_view()[j as int],
                        ));
                        assert(constraint_violated(
                            c.deep_view(),
                            b.deep_view(),
                            child_res.deep_view(),
                            *log,
                        ));
                    }
                    return Ok(true);
                }
                j = j + 1;
            }
            Ok(false)
        },
    }
}

/// A structural or temporal filter that errors reads an unbound variable,
/// and then does not hold.
proof fn lemma_unbound_filter_false(
    f: crate::query::FilterModel,
    b: BindingModel,
    log: IndexedLog,
)
    requires
        filter_error(f, b) is Some,
    ensures
        !filter_holds(f, b, log),
{
}

/// Evaluates the constraints of a box in order on one binding.
///
/// For a box whose constraints run no expression program the result is
/// exactly the first violated constraint's position, as
/// [`first_violated_from`] gives it; an error can only come from an
/// expression program.
fn check_constraints<C: CelEnv>(
    bbox: &BindingBox,
    b: &Binding,
    child_res: &ChildResults,
    log: &IndexedLog,
    cel: &C,
) -> (r: Result<Option<ViolationReason>, EvalError>)
    requires
        log.wf(),
        binding_indices_valid(b.deep_view(), *log),
    ensures
        match r {
            Ok(v) => (forall|k: int|
                0 <= k < bbox.constraints@.len() ==> !constraint_has_program(
                    #[trigger] bbox.constraints.deep_view()[k],
                )) ==> v == (match first_violated_from(
                bbox.constraints.deep_view(),
                0,
                b.deep_view(),
                child_res.deep_view(),
                *log,
            ) {
                Some(k) => Some(ViolationReason::ConstraintNotSatisfied(k as usize)),
                None => None,
            }),
            Err(_) => exists|k: int|
                0 <= k < bbox.constraints@.len() && constraint_has_program(
                    #[trigger] bbox.constraints.deep_view()[k],
                ),
        },
{
    let n = bbox.constraints.len();
    let mut i: usize = 0;
    while i < n
        invariant
            n == bbox.constraints@.len(),
            i <= n,
            log.wf(),
            binding_indices_valid(b.deep_view(), *log),
            (forall|k: int|
                0 <= k < bbox.constraints@.len() ==> !constraint_has_program(
                    #[trigger] bbox.constraints.deep_view()[k],
                )) ==> first_violated_from(
                bbox.constraints.deep_view(),
                0,
                b.deep_view(),
                child_res.deep_view(),
                *log,
            ) == first_violated_from(
                bbox.constraints.deep_view(),
                i as int,
                b.deep_view(),
                child_res.deep_view(),
                *log,
            ),
        decreases n - i,
    {
        let violated = match check_one_constraint(&bbox.constraints[i], b, child_res, log, cel) {
            Ok(v) => v,
            Err(e) => {
                proof {
                    assert(constraint_has_program(bbox.constraints.deep_view()[i as int]));
                }
                return Err(e);
            },
        };
        if violated {
            return Ok(Some(ViolationReason::ConstraintNotSatisfied(i)));
        }
        i = i + 1;
    }
    Ok(None)
}

/// Whether every size filter of the box accepts the binding's child
/// results; exactly so when no size filter runs an expression program, an
/// error coming only from one that does.
fn size_filters_pass<C: CelEnv>(
    bbox: &BindingBox,
    b: &Binding,
    child_res: &ChildResults,
    log: &IndexedLog,
    cel: &C,
) -> (r: Result<bool, EvalError>)
    ensures
        match r {
            Ok(v) => (forall|k: int|
                0 <= k < bbox.size_filters@.len() ==> !((
                #[trigger] bbox.size_filters.deep_view()[k]) is AdvancedCEL)) ==> v == (forall|
                k: int,
            |
                0 <= k < bbox.size_filters@.len() ==> size_filter_holds(
                    #[trigger] bbox.size_filters.deep_view()[k],
                    b.deep_view(),
                    child_res.deep_view(),
                )),
            Err(_) => exists|k: int|
                0 <= k < bbox.size_filters@.len() && (#[trigger] bbox.size_filters.deep_view()[k])
                    is AdvancedCEL,
        },
{
    let n = bbox.size_filters.len();
    let mut i: usize = 0;
    while i < n
        invariant
            n == bbox.size_filters@.len(),
            i <= n,
            forall|k: int|
                0 <= k < i && !((#[trigger] bbox.size_filters.deep_view()[k]) is AdvancedCEL)
                    ==> size_filter_holds(
                    bbox.size_filters.deep_view()[k],
                    b.deep_view(),
                    child_res.deep_view(),
                ),
        decreases n - i,
    {
        match bbox.size_filters[i].check(b, child_res, log, cel) {
            Ok(ok) => {
                if !ok {
                    proof {
                        if !(bbox.size_filters.deep_view()[i as int] is AdvancedCEL) {
                            assert(!size_filter_holds(
                                bbox.size_filters.deep_view()[i as int],
                                b.deep_view(),
                                child_res.deep_view(),
                            ));
                        }
                    }
                    if let crate::query::SizeFilter::AdvancedCEL { .. } = &bbox.size_filters[i] {
                        return Ok(false);
                    } else {
                        return Ok(false);
                    }
                }
            },
            Err(e) => {
                return Err(e);
            },
        }
        i = i + 1;
    }
    Ok(true)
}

/// One situation of the flat result list: the node it belongs to, the
/// produced binding, and its violation if any.
pub type EvaluationResult = (usize, Binding, Option<ViolationReason>);

/// The model of a flat situation list.
pub type FlatModel = Seq<(usize, BindingModel, Option<ViolationReason>)>;

/// The model of a per-binding verdict list.
pub type PerModel = Seq<(BindingModel, Option<ViolationReason>)>;

/// The box a node evaluates under, at model level: a box node's own box, a
/// combinator an otherwise-empty box holding the matching constraint.
pub open spec fn node_box_model(n: TreeNodeModel) -> crate::query::BindingBoxModel {
    match n {
        TreeNodeModel::Box(b, _) => b,
        _ => crate::query::BindingBoxModel {
            new_event_vars: Seq::empty(),
            new_object_vars: Seq::empty(),
            filters: Seq::empty(),
            size_filters: Seq::empty(),
            constraints: combinator_constraints(n),
            ev_var_labels: Seq::empty(),
            ob_var_labels: Seq::empty(),
            labels: Seq::empty(),
        },
    }
}

/// Whether the box model runs no embedded expression program: no expression
/// filter, size filter or constraint, and no label function.
pub open spec fn model_programs_free(bbm: crate::query::BindingBoxModel) -> bool {
    &&& forall|k: int| 0 <= k < bbm.filters.len() ==> !((#[trigger] bbm.filters[k]) is BasicFilterCEL)
    &&& forall|k: int|
        0 <= k < bbm.size_filters.len() ==> !((#[trigger] bbm.size_filters[k]) is AdvancedCEL)
    &&& forall|k: int|
        0 <= k < bbm.constraints.len() ==> !constraint_has_program(#[trigger] bbm.constraints[k])
    &&& bbm.labels.len() == 0
}

/// Whether no node of the tree runs an embedded expression program.
pub open spec fn tree_programs_free(tree: &BindingBoxTree) -> bool {
    forall|n: int|
        0 <= n < tree.nodes@.len() ==> model_programs_free(
            node_box_model(#[trigger] tree.deep_view().nodes[n]),
        )
}

/// The model of the empty binding evaluation starts from at the root.
pub open spec fn root_binding_model() -> BindingModel {
    BindingModel { event_map: Seq::empty(), object_map: Seq::empty(), label_map: Seq::empty() }
}

/// The verdict of a binding under the box's constraints: none when every
/// constraint holds, else the position of the first violated one.
pub open spec fn situation_verdict(
    cs: Seq<ConstraintModel>,
    b: BindingModel,
    cr: ChildResultsModel,
    log: IndexedLog,
) -> Option<ViolationReason> {
    match first_violated_from(cs, 0, b, cr, log) {
        Some(k) => Some(ViolationReason::ConstraintNotSatisfied(k as usize)),
        None => None,
    }
}

/// Whether every size filter of the box model accepts the binding.
pub open spec fn passes_size_filters(
    bbm: crate::query::BindingBoxModel,
    b: BindingModel,
    cr: ChildResultsModel,
) -> bool {
    forall|k: int|
        0 <= k < bbm.size_filters.len() ==> size_filter_holds(#[trigger] bbm.size_filters[k], b, cr)
}

/// Whether every exec box with the node's model admits every plan input:
/// the condition under which a program-free tree evaluates without error.
pub open spec fn all_plan_inputs_ok(tree: &BindingBoxTree, log: IndexedLog) -> bool {
    forall|n: int, bb: BindingBox, p: BindingModel|
        #![trigger crate::planner::plan_input_ok(&bb, p, log), tree.deep_view().nodes[n]]
        0 <= n < tree.nodes@.len() && bb.deep_view() == node_box_model(
            tree.deep_view().nodes[n],
        ) ==> crate::planner::plan_input_ok(&bb, p, log)
}

/// What an unskipped evaluation of `node` on `parent` returns, exactly: the
/// node's box expands under some plan with the planner's guarantees, and the
/// flat situations and per-binding verdicts arise binding by binding from the
/// recursive evaluation of the children, the size-filter drop and the
/// first-violated-constraint rule.
pub open spec fn exact_node_eval(
    tree: &BindingBoxTree,
    node: usize,
    parent: BindingModel,
    log: IndexedLog,
    cap: usize,
    flat: FlatModel,
    per: PerModel,
    fuel: nat,
) -> bool
    decreases fuel, 2int, 0int, 0int,
{
    &&& fuel > 0
    &&& node < tree.nodes@.len()
    &&& exists|bb: BindingBox, pm: Seq<crate::query::BindingStepModel>|
        {
            &&& #[trigger] crate::planner::plan_guarantees(pm, &bb, parent, log)
            &&& bb.deep_view() == node_box_model(tree.deep_view().nodes[node as int])
            &&& crate::expand::expand_spec(&bb, log, pm, seq![parent], cap).1 == false
            &&& exact_bindings_eval(
                tree,
                node,
                crate::expand::expand_spec(&bb, log, pm, seq![parent], cap).0,
                log,
                cap,
                flat,
                per,
                fuel,
            )
        }
}

/// Marker naming a quadruple of evaluation witnesses; used as the trigger
/// of the existential steps below.
pub open spec fn eval_witness(
    a: FlatModel,
    b: ChildResultsModel,
    c: FlatModel,
    d: PerModel,
) -> bool {
    true
}

/// Marker naming a per-binding verdict list; the trigger of the
/// existential in the tree evaluation contract.
pub open spec fn per_witness(p: PerModel) -> bool {
    true
}

/// Marker naming a flat situation list and a skipped flag; triggers of the
/// existentials in the aggregation and log-filter contracts.
pub open spec fn flat_skip_witness(fm: FlatModel, sk: bool) -> bool {
    true
}

/// One step of the per-binding evaluation: the witness facts that extend an
/// exact evaluation of the earlier bindings to one more binding.
pub open spec fn bindings_eval_step(
    tree: &BindingBoxTree,
    node: usize,
    bs: Seq<BindingModel>,
    log: IndexedLog,
    cap: usize,
    flat0: FlatModel,
    per0: PerModel,
    cflat: FlatModel,
    cr: ChildResultsModel,
    flat: FlatModel,
    per: PerModel,
    fuel: nat,
) -> bool
    decreases fuel, 1int, bs.len(), 0int,
{
    &&& bs.len() > 0
    &&& exact_bindings_eval(tree, node, bs.drop_last(), log, cap, flat0, per0, fuel)
    &&& exact_children_eval(
        tree,
        node,
        node_children(tree.deep_view().nodes[node as int]),
        bs.last(),
        log,
        cap,
        cflat,
        cr,
        fuel,
    )
    &&& {
        let bbm = node_box_model(tree.deep_view().nodes[node as int]);
        if passes_size_filters(bbm, bs.last(), cr) {
            let v = situation_verdict(bbm.constraints, bs.last(), cr, log);
            flat == flat0 + cflat + seq![(node, bs.last(), v)] && per == per0 + seq![
                (bs.last(), v),
            ]
        } else {
            flat == flat0 && per == per0
        }
    }
}

/// One step of the children evaluation: the witness facts that extend an
/// exact evaluation of the earlier children to one more child.
pub open spec fn children_eval_step(
    tree: &BindingBoxTree,
    node: usize,
    children: Seq<usize>,
    b: BindingModel,
    log: IndexedLog,
    cap: usize,
    cf0: FlatModel,
    cr0: ChildResultsModel,
    cfl: FlatModel,
    pv: PerModel,
    cflat: FlatModel,
    cr: ChildResultsModel,
    fuel: nat,
) -> bool
    decreases fuel, 0int, children.len(), 0int,
{
    &&& children.len() > 0
    &&& exact_children_eval(tree, node, children.drop_last(), b, log, cap, cf0, cr0, fuel)
    &&& fuel > 0
    &&& exact_node_eval(tree, children.last(), b, log, cap, cfl, pv, (fuel - 1) as nat)
    &&& cflat == cf0 + cfl
    &&& cr == cr0.push((edge_name_spec(tree.edge_names.deep_view(), node, children.last()), pv))
}

/// The bindings of the node are processed left to right: each evaluates its
/// children, is dropped (with its children's situations) when a size filter
/// rejects it, and otherwise contributes its children's situations and its
/// own verdict.
pub open spec fn exact_bindings_eval(
    tree: &BindingBoxTree,
    node: usize,
    bs: Seq<BindingModel>,
    log: IndexedLog,
    cap: usize,
    flat: FlatModel,
    per: PerModel,
    fuel: nat,
) -> bool
    decreases fuel, 1int, bs.len(), 1int,
{
    if bs.len() == 0 {
        flat.len() == 0 && per.len() == 0
    } else {
        exists|flat0: FlatModel, per0: PerModel, cflat: FlatModel, cr: ChildResultsModel|
            #[trigger] eval_witness(flat0, cr, cflat, per0) && bindings_eval_step(
                tree,
                node,
                bs,
                log,
                cap,
                flat0,
                per0,
                cflat,
                cr,
                flat,
                per,
                fuel,
            )
    }
}

/// The children of the node are evaluated left to right on the binding:
/// each child's flat situations are collected and its per-binding verdicts
/// enter the child-results list under the edge's name.
pub open spec fn exact_children_eval(
    tree: &BindingBoxTree,
    node: usize,
    children: Seq<usize>,
    b: BindingModel,
    log: IndexedLog,
    cap: usize,
    cflat: FlatModel,
    cr: ChildResultsModel,
    fuel: nat,
) -> bool
    decreases fuel, 0int, children.len(), 1int,
{
    if children.len() == 0 {
        cflat.len() == 0 && cr.len() == 0
    } else {
        exists|cf0: FlatModel, cr0: ChildResultsModel, cfl: FlatModel, pv: PerModel|
            #[trigger] eval_witness(cf0, cr0, cfl, pv) && children_eval_step(
                tree,
                node,
                children,
                b,
                log,
                cap,
                cf0,
                cr0,
                cfl,
                pv,
                cflat,
                cr,
                fuel,
            )
    }
}

/// The per-node outcome handed to the caller: the situations of the node
/// with their count and how many of them are violated.
pub struct EvaluationResultWithCount {
    pub situations: Vec<(Binding, Option<ViolationReason>)>,
    pub situation_count: usize,
    pub situation_violated_count: usize,
}

/// The whole evaluation's outcome: per-node situations and counts, the ids
/// of the log, and whether any cap or safety bound dropped work.
pub struct EvaluateBoxTreeResult {
    pub evaluation_results: Vec<EvaluationResultWithCount>,
    pub object_ids: Vec<String>,
    pub event_ids: Vec<String>,
    pub bindings_skipped: bool,
}

impl BindingBoxTreeNode {
    /// The node's own box, for a box node.
    pub fn as_box(&self) -> (r: Option<&BindingBox>)
        ensures
            match r {
                Some(b) => self is Box && b == &self->Box_0,
                None => !(self is Box),
            },
    {
        match self {
            BindingBoxTreeNode::Box(b, _) => Some(b),
            _ => Option::<&BindingBox>::None,
        }
    }

    /// The box this node evaluates as, with its child indices: a box node
    /// yields its own parts, a combinator yields an otherwise-empty box
    /// holding the matching constraint over the synthesised edge names.
    pub fn to_box(&self) -> (r: (BindingBox, Vec<usize>))
        ensures
            r.1@ == node_children(self.deep_view()),
            self is Box ==> r.0.deep_view() == self->Box_0.deep_view(),
            !(self is Box) ==> {
                &&& r.0.new_event_vars@.len() == 0
                &&& r.0.new_object_vars@.len() == 0
                &&& r.0.filters@.len() == 0
                &&& r.0.size_filters@.len() == 0
                &&& r.0.labels@.len() == 0
                &&& r.0.ev_var_labels@.len() == 0
                &&& r.0.ob_var_labels@.len() == 0
                &&& r.0.constraints.deep_view() == combinator_constraints(self.deep_view())
            },
    {
        match self {
            BindingBoxTreeNode::Box(b, children) => {
                let bb = clone_box(b);
                let mut ch: Vec<usize> = Vec::new();
                let n = children.len();
                let mut i: usize = 0;
                while i < n
                    invariant
                        n == children@.len(),
                        i <= n,
                        ch@ == children@.take(i as int),
                    decreases n - i,
                {
                    ch.push(children[i]);
                    proof {
                        assert(ch@ =~= children@.take(i + 1));
                    }
                    i = i + 1;
                }
                proof {
                    assert(children@.take(n as int) =~= children@);
                }
                (bb, ch)
            },
            BindingBoxTreeNode::OR(c1, c2) => {
                let mut names: Vec<String> = Vec::new();
                names.push(unnamed_edge_name(*c1));
                names.push(unnamed_edge_name(*c2));
                proof {
                    assert(names.deep_view() =~= seq![
                        unnamed_edge_name_spec(*c1 as nat),
                        unnamed_edge_name_spec(*c2 as nat),
                    ]);
                }
                let mut constraints: Vec<Constraint> = Vec::new();
                constraints.push(Constraint::OR { child_names: names });
                let mut ch: Vec<usize> = Vec::new();
                ch.push(*c1);
                ch.push(*c2);
                proof {
                    assert(ch@ =~= seq![*c1, *c2]);
                    assert(constraints.deep_view() =~= combinator_constraints(self.deep_view()));
                }
                (empty_box_with(constraints), ch)
            },
            BindingBoxTreeNode::AND(c1, c2) => {
                let mut names: Vec<String> = Vec::new();
                names.push(unnamed_edge_name(*c1));
                names.push(unnamed_edge_name(*c2));
                proof {
                    assert(names.deep_view() =~= seq![
                        unnamed_edge_name_spec(*c1 as nat),
                        unnamed_edge_name_spec(*c2 as nat),
                    ]);
                }
                let mut constraints: Vec<Constraint> = Vec::new();
                constraints.push(Constraint::AND { child_names: names });
                let mut ch: Vec<usize> = Vec::new();
                ch.push(*c1);
                ch.push(*c2);
                proof {
                    assert(ch@ =~= seq![*c1, *c2]);
                    assert(constraints.deep_view() =~= combinator_constraints(self.deep_view()));
                }
                (empty_box_with(constraints), ch)
            },
            BindingBoxTreeNode::NOT(c1) => {
                let mut names: Vec<String> = Vec::new();
                names.push(unnamed_edge_name(*c1));
                proof {
                    assert(names.deep_view() =~= seq![unnamed_edge_name_spec(*c1 as nat)]);
                }
                let mut constraints: Vec<Constraint> = Vec::new();
                constraints.push(Constraint::NOT { child_names: names });
                let mut ch: Vec<usize> = Vec::new();
                ch.push(*c1);
                proof {
                    assert(ch@ =~= seq![*c1]);
                    assert(constraints.deep_view() =~= combinator_constraints(self.deep_view()));
                }
                (empty_box_with(constraints), ch)
            },
        }
    }
}

/// The constraint list a combinator node evaluates under: the matching
/// boolean constraint over the synthesised names of its children.
pub open spec fn combinator_constraints(n: TreeNodeModel) -> Seq<ConstraintModel> {
    match n {
        TreeNodeModel::Box(_, _) => Seq::empty(),
        TreeNodeModel::OR(c1, c2) => seq![
            ConstraintModel::OR {
                child_names: seq![
                    unnamed_edge_name_spec(c1 as nat),
                    unnamed_edge_name_spec(c2 as nat),
                ],
            },
        ],
        TreeNodeModel::AND(c1, c2) => seq![
            ConstraintModel::AND {
                child_names: seq![
                    unnamed_edge_name_spec(c1 as nat),
                    unnamed_edge_name_spec(c2 as nat),
                ],
            },
        ],
        TreeNodeModel::NOT(c1) => seq![
            ConstraintModel::NOT { child_names: seq![unnamed_edge_name_spec(c1 as nat)] },
        ],
    }
}

/// A box holding only the given constraints.
fn empty_box_with(constraints: Vec<Constraint>) -> (r: BindingBox)
    ensures
        r.new_event_vars@.len() == 0,
        r.new_object_vars@.len() == 0,
        r.filters@.len() == 0,
        r.size_filters@.len() == 0,
        r.labels@.len() == 0,
        r.ev_var_labels@.len() == 0,
        r.ob_var_labels@.len() == 0,
        r.constraints == constraints,
    {
    BindingBox {
        new_event_vars: Vec::new(),
        new_object_vars: Vec::new(),
        filters: Vec::new(),
        size_filters: Vec::new(),
        constraints,
        ev_var_labels: Vec::new(),
        ob_var_labels: Vec::new(),
        labels: Vec::new(),
    }
}

/// How many situations of each node a trimmed copy keeps.
pub const SITUATION_CLONE_LIMIT: usize = 10_000;

impl EvaluateBoxTreeResult {
    /// A copy whose per-node situation lists are trimmed to the first
    /// [`SITUATION_CLONE_LIMIT`] entries; the counts and id lists are kept
    /// unchanged.
    pub fn clone_first_few(&self) -> (r: EvaluateBoxTreeResult)
        ensures
            r.evaluation_results@.len() == self.evaluation_results@.len(),
            forall|n: int|
                0 <= n < r.evaluation_results@.len() ==> {
                    let e = #[trigger] r.evaluation_results@[n];
                    let s = self.evaluation_results@[n];
                    &&& e.situation_count == s.situation_count
                    &&& e.situation_violated_count == s.situation_violated_count
                    &&& e.situations.deep_view() == s.situations.deep_view().take(
                        if s.situations@.len() < SITUATION_CLONE_LIMIT {
                            s.situations@.len() as int
                        } else {
                            SITUATION_CLONE_LIMIT as int
                        },
                    )
                },
            r.event_ids@ == self.event_ids@,
            r.object_ids@ == self.object_ids@,
            r.bindings_skipped == self.bindings_skipped,
    {
        let nn = self.evaluation_results.len();
        let mut results: Vec<EvaluationResultWithCount> = Vec::new();
        let mut n: usize = 0;
        while n < nn
            invariant
                n <= nn,
                nn == self.evaluation_results@.len(),
                results@.len() == n,
                forall|w: int|
                    0 <= w < n ==> {
                        let e = #[trigger] results@[w];
                        let s = self.evaluation_results@[w];
                        &&& e.situation_count == s.situation_count
                        &&& e.situation_violated_count == s.situation_violated_count
                        &&& e.situations.deep_view() == s.situations.deep_view().take(
                            if s.situations@.len() < SITUATION_CLONE_LIMIT {
                                s.situations@.len() as int
                            } else {
                                SITUATION_CLONE_LIMIT as int
                            },
                        )
                    },
            decreases nn - n,
        {
            let src = &self.evaluation_results[n];
            let limit = if src.situations.len() < SITUATION_CLONE_LIMIT {
                src.situations.len()
            } else {
                SITUATION_CLONE_LIMIT
            };
            let mut situations: Vec<(Binding, Option<ViolationReason>)> = Vec::new();
            let mut k: usize = 0;
            while k < limit
                invariant
                    k <= limit,
                    limit <= src.situations@.len(),
                    src == &self.evaluation_results@[n as int],
                    n < self.evaluation_results@.len(),
                    situations.deep_view() =~= src.situations.deep_view().take(k as int),
                decreases limit - k,
            {
                situations.push((src.situations[k].0.clone(), src.situations[k].1));
                proof {
                    assert(situations.deep_view() =~= src.situations.deep_view().take(k + 1));
                }
                k = k + 1;
            }
            results.push(
                EvaluationResultWithCount {
                    situations,
                    situation_count: src.situation_count,
                    situation_violated_count: src.situation_violated_count,
                },
            );
            n = n + 1;
        }
        let event_ids = clone_string_vec(&self.event_ids);
        let object_ids = clone_string_vec(&self.object_ids);
        EvaluateBoxTreeResult {
            evaluation_results: results,
            object_ids,
            event_ids,
            bindings_skipped: self.bindings_skipped,
        }
    }
}

/// Clones a list of strings.
fn clone_string_vec(v: &Vec<String>) -> (r: Vec<String>)
    ensures
        r@ == v@,
{
    let n = v.len();
    let mut out: Vec<String> = Vec::new();
    let mut i: usize = 0;
    while i < n
        invariant
            i <= n,
            n == v@.len(),
            out@ =~= v@.take(i as int),
        decreases n - i,
    {
        out.push(v[i].clone());
        proof {
            assert(out@ =~= v@.take(i + 1));
        }
        i = i + 1;
    }
    proof {
        assert(v@.take(n as int) =~= v@);
    }
    out
}

/// The `k`-th declared event variable of a node's box, if the node is a box
/// and has one.
pub open spec fn node_ev_var(node: TreeNodeModel, k: int) -> Option<crate::query::EventVariable> {
    match node {
        TreeNodeModel::Box(b, _) => if 0 <= k < b.new_event_vars.len() {
            Some(b.new_event_vars[k].0)
        } else {
            Option::<crate::query::EventVariable>::None
        },
        _ => Option::<crate::query::EventVariable>::None,
    }
}

/// The `k`-th declared object variable of a node's box, if any.
pub open spec fn node_ob_var(node: TreeNodeModel, k: int) -> Option<crate::query::ObjectVariable> {
    match node {
        TreeNodeModel::Box(b, _) => if 0 <= k < b.new_object_vars.len() {
            Some(b.new_object_vars[k].0)
        } else {
            Option::<crate::query::ObjectVariable>::None
        },
        _ => Option::<crate::query::ObjectVariable>::None,
    }
}

/// Whether some box of the tree declares the event variable.
pub open spec fn declared_ev_var(tree: &BindingBoxTree, v: crate::query::EventVariable) -> bool {
    exists|n: int, k: int|
        0 <= n < tree.nodes@.len() && #[trigger] node_ev_var(tree.deep_view().nodes[n], k) == Some(
            v,
        )
}

/// Whether some box of the tree declares the object variable.
pub open spec fn declared_ob_var(tree: &BindingBoxTree, v: crate::query::ObjectVariable) -> bool {
    exists|n: int, k: int|
        0 <= n < tree.nodes@.len() && #[trigger] node_ob_var(tree.deep_view().nodes[n], k) == Some(
            v,
        )
}

/// Whether the list holds the event variable.
fn ev_vec_contains(v: &Vec<crate::query::EventVariable>, x: crate::query::EventVariable) -> (r:
    bool)
    ensures
        r == v@.contains(x),
{
    let n = v.len();
    let mut i: usize = 0;
    while i < n
        invariant
            i <= n,
            n == v@.len(),
            forall|k: int| 0 <= k < i ==> v@[k] != x,
        decreases n - i,
    {
        if v[i].0 == x.0 {
            proof {
                assert(v@[i as int] == x);
            }
            return true;
        }
        i = i + 1;
    }
    false
}

/// Whether the list holds the object variable.
fn ob_vec_contains(v: &Vec<crate::query::ObjectVariable>, x: crate::query::ObjectVariable) -> (r:
    bool)
    ensures
        r == v@.contains(x),
{
    let n = v.len();
    let mut i: usize = 0;
    while i < n
        invariant
            i <= n,
            n == v@.len(),
            forall|k: int| 0 <= k < i ==> v@[k] != x,
        decreases n - i,
    {
        if v[i].0 == x.0 {
            proof {
                assert(v@[i as int] == x);
            }
            return true;
        }
        i = i + 1;
    }
    false
}

impl BindingBoxTree {
    /// The event variables declared by the boxes of the tree, without
    /// duplicates, in first-declaration order.
    pub fn get_ev_vars(&self) -> (r: Vec<crate::query::EventVariable>)
        ensures
            forall|i: int, j: int| 0 <= i < j < r@.len() ==> r@[i] != r@[j],
            forall|v: crate::query::EventVariable| r@.contains(v) == declared_ev_var(self, v),
    {
        let nn = self.nodes.len();
        let mut out: Vec<crate::query::EventVariable> = Vec::new();
        let mut n: usize = 0;
        while n < nn
            invariant
                n <= nn,
                nn == self.nodes@.len(),
                forall|i: int, j: int| 0 <= i < j < out@.len() ==> out@[i] != out@[j],
                forall|i: int| 0 <= i < out@.len() ==> declared_ev_var(self, #[trigger] out@[i]),
                forall|w: int, k: int|
                    0 <= w < n && #[trigger] node_ev_var(self.deep_view().nodes[w], k) is Some
                        ==> out@.contains(node_ev_var(self.deep_view().nodes[w], k)->0),
            decreases nn - n,
        {
            proof {
                assert(self.deep_view().nodes[n as int] == self.nodes@[n as int].deep_view());
            }
            if let BindingBoxTreeNode::Box(b, _) = &self.nodes[n] {
                let nv = b.new_event_vars.len();
                let mut k: usize = 0;
                while k < nv
                    invariant
                        k <= nv,
                        n < nn,
                        nn == self.nodes@.len(),
                        nv == b.new_event_vars@.len(),
                        self.nodes@[n as int] is Box && b == &self.nodes@[n as int]->Box_0,
                        self.deep_view().nodes[n as int] == self.nodes@[n as int].deep_view(),
                        forall|i: int, j: int| 0 <= i < j < out@.len() ==> out@[i] != out@[j],
                        forall|i: int|
                            0 <= i < out@.len() ==> declared_ev_var(self, #[trigger] out@[i]),
                        forall|w: int, kk: int|
                            0 <= w < n && #[trigger] node_ev_var(
                                self.deep_view().nodes[w],
                                kk,
                            ) is Some ==> out@.contains(
                                node_ev_var(self.deep_view().nodes[w], kk)->0,
                            ),
                        forall|kk: int|
                            0 <= kk < k ==> out@.contains(
                                #[trigger] b.new_event_vars.deep_view()[kk].0,
                            ),
                    decreases nv - k,
                {
                    let v = b.new_event_vars[k].0;
                    proof {
                        assert(b.new_event_vars.deep_view()[k as int].0 == b.new_event_vars@[
                            k as int
                        ].0);
                        assert(node_ev_var(self.deep_view().nodes[n as int], k as int) == Some(v));
                    }
                    if !ev_vec_contains(&out, v) {
                        let ghost out0 = out@;
                        out.push(v);
                        proof {
                            assert(out@ =~= out0.push(v));
                            assert(out@.contains(v)) by {
                                assert(out@[out0.len() as int] == v);
                            }
                            assert forall|i: int|
                                0 <= i < out@.len() implies declared_ev_var(
                                self,
                                #[trigger] out@[i],
                            ) by {
                                if i < out0.len() {
                                    assert(out@[i] == out0[i]);
                                } else {
                                    assert(out@[i] == v);
                                }
                            }
                            assert forall|w: int, kk: int|
                                0 <= w < n && #[trigger] node_ev_var(
                                    self.deep_view().nodes[w],
                                    kk,
                                ) is Some implies out@.contains(
                                node_ev_var(self.deep_view().nodes[w], kk)->0,
                            ) by {
                                let u = node_ev_var(self.deep_view().nodes[w], kk)->0;
                                assert(out0.contains(u));
                                let wi = choose|wi: int| 0 <= wi < out0.len() && out0[wi] == u;
                                assert(out@[wi] == u);
                            }
                            assert forall|kk: int| 0 <= kk < k + 1 implies out@.contains(
                                #[trigger] b.new_event_vars.deep_view()[kk].0,
                            ) by {
                                let u = b.new_event_vars.deep_view()[kk].0;
                                if kk < k {
                                    assert(out0.contains(u));
                                    let wi = choose|wi: int|
                                        0 <= wi < out0.len() && out0[wi] == u;
                                    assert(out@[wi] == u);
                                } else {
                                    assert(u == v);
                                    assert(out@[out0.len() as int] == v);
                                }
                            }
                        }
                    } else {
                        proof {
                            assert forall|kk: int| 0 <= kk < k + 1 implies out@.contains(
                                #[trigger] b.new_event_vars.deep_view()[kk].0,
                            ) by {}
                        }
                    }
                    k = k + 1;
                }
                proof {
                    assert forall|kk: int|
                        node_ev_var(self.deep_view().nodes[n as int], kk) is Some implies out@
                        .contains(node_ev_var(self.deep_view().nodes[n as int], kk)->0) by {
                        assert(0 <= kk < b.new_event_vars.deep_view().len());
                        assert(node_ev_var(self.deep_view().nodes[n as int], kk)->0
                            == b.new_event_vars.deep_view()[kk].0);
                    }
                }
            } else {
                proof {
                    assert forall|kk: int|
                        node_ev_var(
                            self.deep_view().nodes[n as int],
                            kk,
                        ) is Some implies false by {}
                }
            }
            n = n + 1;
        }
        proof {
            assert forall|v: crate::query::EventVariable| out@.contains(v) == declared_ev_var(
                self,
                v,
            ) by {
                if out@.contains(v) {
                    let i = choose|i: int| 0 <= i < out@.len() && out@[i] == v;
                    assert(declared_ev_var(self, out@[i]));
                }
                if declared_ev_var(self, v) {
                    let (w, k): (int, int) = choose|w: int, k: int|
                        0 <= w < self.nodes@.len() && #[trigger] node_ev_var(
                            self.deep_view().nodes[w],
                            k,
                        ) == Some(v);
                    assert(out@.contains(node_ev_var(self.deep_view().nodes[w], k)->0));
                }
            }
        }
        out
    }

    /// The object variables declared by the boxes of the tree, without
    /// duplicates, in first-declaration order.
    pub fn get_ob_vars(&self) -> (r: Vec<crate::query::ObjectVariable>)
        ensures
            forall|i: int, j: int| 0 <= i < j < r@.len() ==> r@[i] != r@[j],
            forall|v: crate::query::ObjectVariable| r@.contains(v) == declared_ob_var(self, v),
    {
        let nn = self.nodes.len();
        let mut out: Vec<crate::query::ObjectVariable> = Vec::new();
        let mut n: usize = 0;
        while n < nn
            invariant
                n <= nn,
                nn == self.nodes@.len(),
                forall|i: int, j: int| 0 <= i < j < out@.len() ==> out@[i] != out@[j],
                forall|i: int| 0 <= i < out@.len() ==> declared_ob_var(self, #[trigger] out@[i]),
                forall|w: int, k: int|
                    0 <= w < n && #[trigger] node_ob_var(self.deep_view().nodes[w], k) is Some
                        ==> out@.contains(node_ob_var(self.deep_view().nodes[w], k)->0),
            decreases nn - n,
        {
            proof {
                assert(self.deep_view().nodes[n as int] == self.nodes@[n as int].deep_view());
            }
            if let BindingBoxTreeNode::Box(b, _) = &self.nodes[n] {
                let nv = b.new_object_vars.len();
                let mut k: usize = 0;
                while k < nv
                    invariant
                        k <= nv,
                        n < nn,
                        nn == self.nodes@.len(),
                        nv == b.new_object_vars@.len(),
                        self.nodes@[n as int] is Box && b == &self.nodes@[n as int]->Box_0,
                        self.deep_view().nodes[n as int] == self.nodes@[n as int].deep_view(),
                        forall|i: int, j: int| 0 <= i < j < out@.len() ==> out@[i] != out@[j],
                        forall|i: int|
                            0 <= i < out@.len() ==> declared_ob_var(self, #[trigger] out@[i]),
                        forall|w: int, kk: int|
                            0 <= w < n && #[trigger] node_ob_var(
                                self.deep_view().nodes[w],
                                kk,
                            ) is Some ==> out@.contains(
                                node_ob_var(self.deep_view().nodes[w], kk)->0,
                            ),
                        forall|kk: int|
                            0 <= kk < k ==> out@.contains(
                                #[trigger] b.new_object_vars.deep_view()[kk].0,
                            ),
                    decreases nv - k,
                {
                    let v = b.new_object_vars[k].0;
                    proof {
                        assert(b.new_object_vars.deep_view()[k as int].0 == b.new_object_vars@[
                            k as int
                        ].0);
                        assert(node_ob_var(self.deep_view().nodes[n as int], k as int) == Some(v));
                    }
                    if !ob_vec_contains(&out, v) {
                        let ghost out0 = out@;
                        out.push(v);
                        proof {
                            assert(out@ =~= out0.push(v));
                            assert(out@.contains(v)) by {
                                assert(out@[out0.len() as int] == v);
                            }
                            assert forall|i: int|
                                0 <= i < out@.len() implies declared_ob_var(
                                self,
                                #[trigger] out@[i],
                            ) by {
                                if i < out0.len() {
                                    assert(out@[i] == out0[i]);
                                } else {
                                    assert(out@[i] == v);
                                }
                            }
                            assert forall|w: int, kk: int|
                                0 <= w < n && #[trigger] node_ob_var(
                                    self.deep_view().nodes[w],
                                    kk,
                                ) is Some implies out@.contains(
                                node_ob_var(self.deep_view().nodes[w], kk)->0,
                            ) by {
                                let u = node_ob_var(self.deep_view().nodes[w], kk)->0;
                                assert(out0.contains(u));
                                let wi = choose|wi: int| 0 <= wi < out0.len() && out0[wi] == u;
                                assert(out@[wi] == u);
                            }
                            assert forall|kk: int| 0 <= kk < k + 1 implies out@.contains(
                                #[trigger] b.new_object_vars.deep_view()[kk].0,
                            ) by {
                                let u = b.new_object_vars.deep_view()[kk].0;
                                if kk < k {
                                    assert(out0.contains(u));
                                    let wi = choose|wi: int|
                                        0 <= wi < out0.len() && out0[wi] == u;
                                    assert(out@[wi] == u);
                                } else {
                                    assert(u == v);
                                    assert(out@[out0.len() as int] == v);
                                }
                            }
                        }
                    } else {
                        proof {
                            assert forall|kk: int| 0 <= kk < k + 1 implies out@.contains(
                                #[trigger] b.new_object_vars.deep_view()[kk].0,
                            ) by {}
                        }
                    }
                    k = k + 1;
                }
                proof {
                    assert forall|kk: int|
                        node_ob_var(self.deep_view().nodes[n as int], kk) is Some implies out@
                        .contains(node_ob_var(self.deep_view().nodes[n as int], kk)->0) by {
                        assert(0 <= kk < b.new_object_vars.deep_view().len());
                        assert(node_ob_var(self.deep_view().nodes[n as int], kk)->0
                            == b.new_object_vars.deep_view()[kk].0);
                    }
                }
            } else {
                proof {
                    assert forall|kk: int|
                        node_ob_var(
                            self.deep_view().nodes[n as int],
                            kk,
                        ) is Some implies false by {}
                }
            }
            n = n + 1;
        }
        proof {
            assert forall|v: crate::query::ObjectVariable| out@.contains(v) == declared_ob_var(
                self,
                v,
            ) by {
                if out@.contains(v) {
                    let i = choose|i: int| 0 <= i < out@.len() && out@[i] == v;
                    assert(declared_ob_var(self, out@[i]));
                }
                if declared_ob_var(self, v) {
                    let (w, k): (int, int) = choose|w: int, k: int|
                        0 <= w < self.nodes@.len() && #[trigger] node_ob_var(
                            self.deep_view().nodes[w],
                            k,
                        ) == Some(v);
                    assert(out@.contains(node_ob_var(self.deep_view().nodes[w], k)->0));
                }
            }
        }
        out
    }

    /// Evaluates the tree on the log: node 0 is the root and starts from
    /// the empty binding. Returns the flat list of situations over all
    /// nodes and whether any cap or safety bound dropped work. Every
    /// returned situation names a node of the tree and holds a well-formed
    /// binding with valid indices.
    pub fn evaluate<C: CelEnv>(
        &self,
        log: &IndexedLog,
        cel: &C,
        max_bindings: usize,
    ) -> (r: Result<(Vec<EvaluationResult>, bool), EvalError>)
        requires
            log.wf(),
            rooted_acyclic(self),
        ensures
            self.nodes@.len() == 0 ==> (r matches Ok(out) && out.0@.len() == 0 && out.1 == false),
            match r {
                Ok(out) => {
                    &&& forall|k: int|
                        0 <= k < out.0@.len() ==> (#[trigger] out.0@[k]).0 < self.nodes@.len()
                            && out.0@[k].1.wf() && binding_indices_valid(
                            out.0@[k].1.deep_view(),
                            *log,
                        )
                    &&& (self.nodes@.len() > 0 && tree_programs_free(self) && out.1 == false)
                        ==> exists|per: PerModel|
                        #[trigger] per_witness(per) && exact_node_eval(
                            self,
                            0,
                            root_binding_model(),
                            *log,
                            max_bindings,
                            out.0.deep_view(),
                            per,
                            self.nodes@.len() as nat + 1,
                        )
                },
                Err(_) => !tree_programs_free(self) || !all_plan_inputs_ok(self, *log),
            },
    {
        if self.nodes.len() == 0 {
            return Ok((Vec::new(), false));
        }
        let ghost fuel = self.nodes@.len() as nat + 1;
        let root = Binding::empty();
        proof {
            assert(root.deep_view().event_map =~= Seq::<
                (crate::query::EventVariable, usize),
            >::empty());
            assert(root.deep_view().object_map =~= Seq::<
                (crate::query::ObjectVariable, usize),
            >::empty());
            assert(root.deep_view().label_map =~= Seq::<
                (Seq<char>, crate::query::LabelVal),
            >::empty());
            assert(root.deep_view() == root_binding_model());
        }
        match evaluate_node(self, 0, root, log, cel, max_bindings, Ghost(fuel)) {
            Ok((flat, per, skipped)) => {
                proof {
                    if tree_programs_free(self) && !skipped {
                        assert(exact_node_eval(
                            self,
                            0,
                            root_binding_model(),
                            *log,
                            max_bindings,
                            flat.deep_view(),
                            per.deep_view(),
                            fuel,
                        ));
                        assert(per_witness(per.deep_view()));
                    }
                }
                Ok((flat, skipped))
            },
            Err(e) => Err(e),
        }
    }
}

/// Evaluates the node against a parent binding: expands its box, evaluates
/// the children per produced binding, runs labels, size filters and
/// constraints, and reports the node's situations, its per-binding verdicts
/// for the parent, and whether any bound dropped work.
pub fn evaluate_node<C: CelEnv>(
    tree: &BindingBoxTree,
    node: usize,
    parent: Binding,
    log: &IndexedLog,
    cel: &C,
    max_bindings: usize,
    Ghost(fuel): Ghost<nat>,
) -> (r: Result<
    (Vec<EvaluationResult>, Vec<(Binding, Option<ViolationReason>)>, bool),
    EvalError,
>)
    requires
        log.wf(),
        parent.wf(),
        binding_indices_valid(parent.deep_view(), *log),
        no_cycle_from(tree.deep_view().nodes, node as int, fuel),
    ensures
        match r {
            Ok(out) => {
                &&& forall|k: int|
                    0 <= k < out.0@.len() ==> (#[trigger] out.0@[k]).0 < tree.nodes@.len()
                        && out.0@[k].1.wf() && binding_indices_valid(
                        out.0@[k].1.deep_view(),
                        *log,
                    )
                &&& forall|k: int|
                    0 <= k < out.1@.len() ==> (#[trigger] out.1@[k]).0.wf()
                        && binding_indices_valid(out.1@[k].0.deep_view(), *log)
                &&& (tree_programs_free(tree) && out.2 == false) ==> exact_node_eval(
                    tree,
                    node,
                    parent.deep_view(),
                    *log,
                    max_bindings,
                    out.0.deep_view(),
                    out.1.deep_view(),
                    fuel,
                )
            },
            Err(_) => !tree_programs_free(tree) || !all_plan_inputs_ok(tree, *log),
        },
    decreases fuel, 1int,
{
    let (bbox, children) = tree.nodes[node].to_box();
    proof {
        assert(tree.deep_view().nodes[node as int] == tree.nodes@[node as int].deep_view());
        assert(children@ == node_children(tree.deep_view().nodes[node as int]));
        let nm = tree.deep_view().nodes[node as int];
        if tree.nodes@[node as int] is Box {
            assert(nm is Box && nm->Box_0 == tree.nodes@[node as int]->Box_0.deep_view());
            assert(bbox.deep_view() == node_box_model(nm));
        } else {
            assert(bbox.deep_view().new_event_vars =~= Seq::<
                (crate::query::EventVariable, Seq<Seq<char>>),
            >::empty());
            assert(bbox.deep_view().new_object_vars =~= Seq::<
                (crate::query::ObjectVariable, Seq<Seq<char>>),
            >::empty());
            assert(bbox.deep_view().filters =~= Seq::<crate::query::FilterModel>::empty());
            assert(bbox.deep_view().size_filters =~= Seq::<
                crate::query::SizeFilterModel,
            >::empty());
            assert(bbox.deep_view().labels =~= Seq::<crate::query::LabelFunctionModel>::empty());
            assert(bbox.deep_view().ev_var_labels =~= Seq::<
                (crate::query::EventVariable, crate::query::FilterLabel),
            >::empty());
            assert(bbox.deep_view().ob_var_labels =~= Seq::<
                (crate::query::ObjectVariable, crate::query::FilterLabel),
            >::empty());
            assert(bbox.deep_view().constraints == combinator_constraints(nm));
            assert(bbox.deep_view() == node_box_model(nm));
        }
    }
    let r = evaluate_box_node(
        tree,
        node,
        &bbox,
        &children,
        parent,
        log,
        cel,
        max_bindings,
        Ghost(fuel),
    );
    proof {
        if r is Err {
            let nm = tree.deep_view().nodes[node as int];
            if !model_programs_free(bbox.deep_view()) {
                assert(!tree_programs_free(tree));
            } else if exists|p: BindingModel| !#[trigger] plan_input_ok(&bbox, p, *log) {
                let p = choose|p: BindingModel| !#[trigger] plan_input_ok(&bbox, p, *log);
                assert(bbox.deep_view() == node_box_model(nm));
                assert(!plan_input_ok(&bbox, p, *log));
                assert(!all_plan_inputs_ok(tree, *log));
            }
        }
    }
    r
}

/// Evaluates one node's box and children; the recursion body shared by box
/// and combinator nodes.
#[verifier::rlimit(60)]
fn evaluate_box_node<C: CelEnv>(
    tree: &BindingBoxTree,
    node: usize,
    bbox: &BindingBox,
    children: &Vec<usize>,
    parent: Binding,
    log: &IndexedLog,
    cel: &C,
    max_bindings: usize,
    Ghost(fuel): Ghost<nat>,
) -> (r: Result<
    (Vec<EvaluationResult>, Vec<(Binding, Option<ViolationReason>)>, bool),
    EvalError,
>)
    requires
        log.wf(),
        parent.wf(),
        binding_indices_valid(parent.deep_view(), *log),
        node < tree.nodes@.len(),
        fuel > 0,
        forall|k: int|
            0 <= k < children@.len() ==> no_cycle_from(
                tree.deep_view().nodes,
                (#[trigger] children@[k]) as int,
                (fuel - 1) as nat,
            ),
    ensures
        match r {
            Ok(out) => {
                &&& forall|k: int|
                    0 <= k < out.0@.len() ==> (#[trigger] out.0@[k]).0 < tree.nodes@.len()
                        && out.0@[k].1.wf() && binding_indices_valid(
                        out.0@[k].1.deep_view(),
                        *log,
                    )
                &&& forall|k: int|
                    0 <= k < out.1@.len() ==> (#[trigger] out.1@[k]).0.wf()
                        && binding_indices_valid(out.1@[k].0.deep_view(), *log)
                &&& (tree_programs_free(tree) && bbox.deep_view() == node_box_model(
                    tree.deep_view().nodes[node as int],
                ) && children@ == node_children(tree.deep_view().nodes[node as int]) && out.2
                    == false) ==> exact_node_eval(
                    tree,
                    node,
                    parent.deep_view(),
                    *log,
                    max_bindings,
                    out.0.deep_view(),
                    out.1.deep_view(),
                    fuel,
                )
            },
            Err(_) => {
                ||| !model_programs_free(bbox.deep_view())
                ||| exists|p: BindingModel| !#[trigger] plan_input_ok(bbox, p, *log)
                ||| !tree_programs_free(tree)
                ||| !all_plan_inputs_ok(tree, *log)
            },
        },
    decreases fuel, 0int,
{
    let ghost parent0 = parent.deep_view();
    let ghost exact_mode = tree_programs_free(tree) && bbox.deep_view() == node_box_model(
        tree.deep_view().nodes[node as int],
    ) && children@ == node_children(tree.deep_view().nodes[node as int]);
    let (bindings, expand_skipped) = match bbox.expand(parent, log, max_bindings, cel) {
        Ok(out) => out,
        Err(e) => {
            proof {
                if box_cel_free(bbox) {
                    assert(!plan_input_ok(bbox, parent0, *log));
                } else {
                    let fi = choose|fi: int|
                        0 <= fi < bbox.filters@.len() && (#[trigger] bbox.filters.deep_view()[fi])
                            is BasicFilterCEL;
                    assert(bbox.deep_view().filters[fi] is BasicFilterCEL);
                    assert(!model_programs_free(bbox.deep_view()));
                }
            }
            return Err(e);
        },
    };
    let ghost pm = choose|pm: Seq<BindingStepModel>|
        #[trigger] plan_guarantees(pm, bbox, parent0, *log) && (steps_cel_free(pm) ==> (
        bindings.deep_view(),
        expand_skipped,
        ) == expand_spec(bbox, *log, pm, seq![parent0], max_bindings));
    let ghost bs_full = bindings.deep_view();
    proof {
        if exact_mode {
            assert(model_programs_free(bbox.deep_view()));
            if !steps_cel_free(pm) {
                assert forall|fi: int|
                    0 <= fi < bbox.filters@.len() implies !((
                #[trigger] bbox.filters.deep_view()[fi]) is BasicFilterCEL) by {
                    assert(bbox.filters.deep_view()[fi] == bbox.deep_view().filters[fi]);
                }
                lemma_plan_with_cel_filter(pm, bbox, parent0, *log);
                assert(false);
            }
            assert((bs_full, expand_skipped) == expand_spec(
                bbox,
                *log,
                pm,
                seq![parent0],
                max_bindings,
            ));
        }
    }
    let total = bindings.len();
    let n_children = children.len();
    let mut flat: Vec<EvaluationResult> = Vec::new();
    let mut per: Vec<(Binding, Option<ViolationReason>)> = Vec::new();
    let mut skipped = expand_skipped;
    let mut cancelled = false;
    let mut bi: usize = 0;
    proof {
        assert(bs_full.take(0) =~= Seq::<BindingModel>::empty());
    }
    while bi < total && !cancelled
        invariant
            log.wf(),
            total == bindings@.len(),
            n_children == children@.len(),
            node < tree.nodes@.len(),
            fuel > 0,
            bi <= total,
            bs_full == bindings.deep_view(),
            expand_skipped ==> skipped,
            forall|k: int|
                0 <= k < bindings@.len() ==> (#[trigger] bindings@[k]).wf()
                    && binding_indices_valid(bindings@[k].deep_view(), *log),
            forall|k: int|
                0 <= k < children@.len() ==> no_cycle_from(
                    tree.deep_view().nodes,
                    (#[trigger] children@[k]) as int,
                    (fuel - 1) as nat,
                ),
            forall|k: int|
                0 <= k < flat@.len() ==> (#[trigger] flat@[k]).0 < tree.nodes@.len() && flat@[
                    k
                ].1.wf() && binding_indices_valid(flat@[k].1.deep_view(), *log),
            forall|k: int|
                0 <= k < per@.len() ==> (#[trigger] per@[k]).0.wf() && binding_indices_valid(
                    per@[k].0.deep_view(),
                    *log,
                ),
            exact_mode && !skipped && !cancelled ==> exact_bindings_eval(
                tree,
                node,
                bs_full.take(bi as int),
                *log,
                max_bindings,
                flat.deep_view(),
                per.deep_view(),
                fuel,
            ),
        decreases total - bi,
    {
        let ghost sk0 = skipped;
        let ghost cc0 = cancelled;
        let mut b = bindings[bi].clone();
        proof {
            assert(b.deep_view() == bs_full[bi as int]);
        }
        let mut child_res: ChildResults = Vec::new();
        let mut local_flat: Vec<EvaluationResult> = Vec::new();
        let mut ci: usize = 0;
        proof {
            assert(children@.take(0) =~= Seq::<usize>::empty());
        }
        while ci < n_children
            invariant
                log.wf(),
                total == bindings@.len(),
                bi < total,
                n_children == children@.len(),
                node < tree.nodes@.len(),
                fuel > 0,
                b.wf(),
                binding_indices_valid(b.deep_view(), *log),
                b.deep_view() == bs_full[bi as int],
                expand_skipped ==> skipped,
                sk0 ==> skipped,
                cc0 ==> cancelled,
                ci <= n_children,
                forall|k: int|
                    0 <= k < bindings@.len() ==> (#[trigger] bindings@[k]).wf()
                        && binding_indices_valid(bindings@[k].deep_view(), *log),
                forall|k: int|
                    0 <= k < children@.len() ==> no_cycle_from(
                        tree.deep_view().nodes,
                        (#[trigger] children@[k]) as int,
                        (fuel - 1) as nat,
                    ),
                forall|k: int|
                    0 <= k < local_flat@.len() ==> (#[trigger] local_flat@[k]).0
                        < tree.nodes@.len() && local_flat@[k].1.wf() && binding_indices_valid(
                        local_flat@[k].1.deep_view(),
                        *log,
                    ),
                exact_mode && !skipped ==> exact_children_eval(
                    tree,
                    node,
                    children@.take(ci as int),
                    b.deep_view(),
                    *log,
                    max_bindings,
                    local_flat.deep_view(),
                    child_res.deep_view(),
                    fuel,
                ),
            decreases n_children - ci,
        {
            let c = children[ci];
            let name = edge_name_of(tree, node, c);
            let ghost cf0 = local_flat.deep_view();
            let ghost cr0 = child_res.deep_view();
            let (c_flat, c_viol, c_skip) = match evaluate_node(
                tree,
                c,
                b.clone(),
                log,
                cel,
                max_bindings,
                Ghost((fuel - 1) as nat),
            ) {
                Ok(out) => out,
                Err(e) => {
                    return Err(e);
                },
            };
            let ghost cfl = c_flat.deep_view();
            let ghost pv = c_viol.deep_view();
            if c_skip {
                skipped = true;
            }
            let c_count = c_flat.len();
            if n_children > 0 && c_count > 0 && (total as u128) > TREE_SAFETY_PRODUCT / (
            n_children as u128) / (c_count as u128) {
                cancelled = true;
            }
            let mut c_flat_mut = c_flat;
            local_flat.append(&mut c_flat_mut);
            child_res.push((name, c_viol));
            proof {
                if exact_mode && !skipped {
                    assert(exact_node_eval(
                        tree,
                        c,
                        b.deep_view(),
                        *log,
                        max_bindings,
                        cfl,
                        pv,
                        (fuel - 1) as nat,
                    ));
                    assert(local_flat.deep_view() =~= cf0 + cfl);
                    assert(child_res.deep_view() =~= cr0.push((name@, pv)));
                    assert(children@.take(ci + 1).drop_last() =~= children@.take(ci as int));
                    assert(children@.take(ci + 1).last() == c);
                    assert(exact_children_eval(
                        tree,
                        node,
                        children@.take(ci as int),
                        b.deep_view(),
                        *log,
                        max_bindings,
                        cf0,
                        cr0,
                        fuel,
                    ));
                    assert(exact_children_eval(
                        tree,
                        node,
                        children@.take(ci + 1).drop_last(),
                        b.deep_view(),
                        *log,
                        max_bindings,
                        cf0,
                        cr0,
                        fuel,
                    ));
                    assert(exact_node_eval(
                        tree,
                        children@.take(ci + 1).last(),
                        b.deep_view(),
                        *log,
                        max_bindings,
                        cfl,
                        pv,
                        (fuel - 1) as nat,
                    ));
                    assert(local_flat.deep_view() == cf0 + cfl);
                    assert(child_res.deep_view() == cr0.push(
                        (
                            edge_name_spec(
                                tree.edge_names.deep_view(),
                                node,
                                children@.take(ci + 1).last(),
                            ),
                            pv,
                        ),
                    ));
                    lemma_children_eval_snoc(
                        tree,
                        node,
                        children@.take(ci + 1),
                        b.deep_view(),
                        *log,
                        max_bindings,
                        cf0,
                        cr0,
                        cfl,
                        pv,
                        local_flat.deep_view(),
                        child_res.deep_view(),
                        fuel,
                    );
                    assert(exact_children_eval(
                        tree,
                        node,
                        children@.take(ci + 1),
                        b.deep_view(),
                        *log,
                        max_bindings,
                        local_flat.deep_view(),
                        child_res.deep_view(),
                        fuel,
                    ));
                }
            }
            ci = ci + 1;
        }
        proof {
            if exact_mode && !skipped {
                assert(children@.take(n_children as int) =~= children@);
            }
        }
        // label functions
        let nl = bbox.labels.len();
        proof {
            if exact_mode {
                assert(bbox.labels.deep_view().len() == bbox.deep_view().labels.len());
                assert(nl == 0);
            }
        }
        let ghost b_before_labels = b.deep_view();
        let mut li: usize = 0;
        while li < nl
            invariant
                nl == bbox.labels@.len(),
                li <= nl,
                log.wf(),
                b.wf(),
                binding_indices_valid(b.deep_view(), *log),
                nl == 0 ==> b.deep_view() == b_before_labels,
            decreases nl - li,
        {
            let value = match cel.eval_label(&bbox.labels[li].cel, &b, Some(&child_res), log) {
                Ok(v) => v,
                Err(e) => {
                    proof {
                        assert(bbox.deep_view().labels.len() > 0);
                        assert(!model_programs_free(bbox.deep_view()));
                    }
                    return Err(e);
                },
            };
            let ghost b0 = b.deep_view();
            b.add_label(bbox.labels[li].label.clone(), value);
            proof {
                assert(b.deep_view().event_map == b0.event_map);
                assert(b.deep_view().object_map == b0.object_map);
            }
            li = li + 1;
        }
        // size filters: a rejected binding is dropped with its child results
        let keep = match size_filters_pass(bbox, &b, &child_res, log, cel) {
            Ok(v) => v,
            Err(e) => {
                proof {
                    let k = choose|k: int|
                        0 <= k < bbox.size_filters@.len() && (
                        #[trigger] bbox.size_filters.deep_view()[k]) is AdvancedCEL;
                    assert(bbox.deep_view().size_filters[k] is AdvancedCEL);
                    assert(!model_programs_free(bbox.deep_view()));
                }
                return Err(e);
            },
        };
        proof {
            if exact_mode && !skipped {
                let bbm = node_box_model(tree.deep_view().nodes[node as int]);
                assert forall|k: int| 0 <= k < bbm.size_filters.len() implies !((
                #[trigger] bbm.size_filters[k]) is AdvancedCEL) by {
                    assert(bbox.size_filters.deep_view()[k] == bbm.size_filters[k]);
                }
                assert forall|k: int|
                    0 <= k < bbox.size_filters@.len() implies !((
                #[trigger] bbox.size_filters.deep_view()[k]) is AdvancedCEL) by {
                    assert(bbox.size_filters.deep_view()[k] == bbm.size_filters[k]);
                }
                assert(keep == passes_size_filters(bbm, b.deep_view(), child_res.deep_view()));
            }
        }
        let ghost cflat = local_flat.deep_view();
        let ghost crm = child_res.deep_view();
        if keep {
            let viol = match check_constraints(bbox, &b, &child_res, log, cel) {
                Ok(v) => v,
                Err(e) => {
                    proof {
                        let k = choose|k: int|
                            0 <= k < bbox.constraints@.len() && constraint_has_program(
                                #[trigger] bbox.constraints.deep_view()[k],
                            );
                        assert(bbox.deep_view().constraints[k] == bbox.constraints.deep_view()[k]);
                        assert(!model_programs_free(bbox.deep_view()));
                    }
                    return Err(e);
                },
            };
            let ghost flat0 = flat.deep_view();
            let ghost per0 = per.deep_view();
            local_flat.push((node, b.clone(), viol));
            per.push((b, viol));
            flat.append(&mut local_flat);
            proof {
                if exact_mode && !skipped && !cancelled {
                    assert(!sk0 && !cc0);
                    let bbm = node_box_model(tree.deep_view().nodes[node as int]);
                    assert forall|k: int|
                        0 <= k < bbm.constraints.len() implies !constraint_has_program(
                        #[trigger] bbm.constraints[k],
                    ) by {}
                    assert forall|k: int|
                        0 <= k < bbox.constraints@.len() implies !constraint_has_program(
                        #[trigger] bbox.constraints.deep_view()[k],
                    ) by {
                        assert(bbox.constraints.deep_view()[k] == bbm.constraints[k]);
                    }
                    assert(bbox.constraints.deep_view() == bbm.constraints);
                    assert(viol == situation_verdict(
                        bbm.constraints,
                        b_before_labels,
                        crm,
                        *log,
                    ));
                    assert(bs_full.take(bi + 1).drop_last() =~= bs_full.take(bi as int));
                    assert(bs_full.take(bi + 1).last() == b_before_labels);
                    assert(flat.deep_view() =~= flat0 + (cflat + seq![
                        (node, b_before_labels, viol),
                    ]));
                    assert(flat.deep_view() =~= flat0 + cflat + seq![
                        (node, b_before_labels, viol),
                    ]);
                    assert(per.deep_view() =~= per0 + seq![(b_before_labels, viol)]);
                    assert(exact_bindings_eval(
                        tree,
                        node,
                        bs_full.take(bi as int),
                        *log,
                        max_bindings,
                        flat0,
                        per0,
                        fuel,
                    ));
                    assert(exact_children_eval(
                        tree,
                        node,
                        node_children(tree.deep_view().nodes[node as int]),
                        b_before_labels,
                        *log,
                        max_bindings,
                        cflat,
                        crm,
                        fuel,
                    ));
                    assert(exact_bindings_eval(
                        tree,
                        node,
                        bs_full.take(bi + 1).drop_last(),
                        *log,
                        max_bindings,
                        flat0,
                        per0,
                        fuel,
                    ));
                    assert(exact_children_eval(
                        tree,
                        node,
                        node_children(tree.deep_view().nodes[node as int]),
                        bs_full.take(bi + 1).last(),
                        *log,
                        max_bindings,
                        cflat,
                        crm,
                        fuel,
                    ));
                    assert(flat.deep_view() == flat0 + cflat + seq![
                        (node, bs_full.take(bi + 1).last(), viol),
                    ]);
                    assert(per.deep_view() == per0 + seq![(bs_full.take(bi + 1).last(), viol)]);
                    lemma_bindings_eval_snoc(
                        tree,
                        node,
                        bs_full.take(bi + 1),
                        *log,
                        max_bindings,
                        flat0,
                        per0,
                        cflat,
                        crm,
                        flat.deep_view(),
                        per.deep_view(),
                        fuel,
                    );
                    assert(exact_bindings_eval(
                        tree,
                        node,
                        bs_full.take(bi + 1),
                        *log,
                        max_bindings,
                        flat.deep_view(),
                        per.deep_view(),
                        fuel,
                    ));
                }
            }
        } else {
            proof {
                if exact_mode && !skipped && !cancelled {
                    assert(!sk0 && !cc0);
                    assert(bs_full.take(bi + 1).drop_last() =~= bs_full.take(bi as int));
                    assert(bs_full.take(bi + 1).last() == b_before_labels);
                    assert(exact_bindings_eval(
                        tree,
                        node,
                        bs_full.take(bi + 1).drop_last(),
                        *log,
                        max_bindings,
                        flat.deep_view(),
                        per.deep_view(),
                        fuel,
                    ));
                    assert(exact_children_eval(
                        tree,
                        node,
                        node_children(tree.deep_view().nodes[node as int]),
                        bs_full.take(bi + 1).last(),
                        *log,
                        max_bindings,
                        cflat,
                        crm,
                        fuel,
                    ));
                    lemma_bindings_eval_snoc(
                        tree,
                        node,
                        bs_full.take(bi + 1),
                        *log,
                        max_bindings,
                        flat.deep_view(),
                        per.deep_view(),
                        cflat,
                        crm,
                        flat.deep_view(),
                        per.deep_view(),
                        fuel,
                    );
                    assert(exact_bindings_eval(
                        tree,
                        node,
                        bs_full.take(bi + 1),
                        *log,
                        max_bindings,
                        flat.deep_view(),
                        per.deep_view(),
                        fuel,
                    ));
                }
            }
        }
        bi = bi + 1;
    }
    if cancelled {
        skipped = true;
    }
    proof {
        if exact_mode && !skipped {
            assert(bs_full.take(total as int) =~= bs_full);
            let bb = *bbox;
            assert(plan_guarantees(pm, &bb, parent0, *log));
            assert(bb.deep_view() == node_box_model(tree.deep_view().nodes[node as int]));
            assert(expand_spec(&bb, *log, pm, seq![parent0], max_bindings).1 == false);
            assert(exact_bindings_eval(
                tree,
                node,
                expand_spec(&bb, *log, pm, seq![parent0], max_bindings).0,
                *log,
                max_bindings,
                flat.deep_view(),
                per.deep_view(),
                fuel,
            ));
            assert(exact_node_eval(
                tree,
                node,
                parent0,
                *log,
                max_bindings,
                flat.deep_view(),
                per.deep_view(),
                fuel,
            ));
        }
    }
    Ok((flat, per, skipped))
}

/// The situations of node `n` among the flat results, in order.
pub open spec fn node_situations(
    flat: Seq<(usize, BindingModel, Option<ViolationReason>)>,
    n: usize,
) -> Seq<(BindingModel, Option<ViolationReason>)>
    decreases flat.len(),
{
    if flat.len() == 0 {
        Seq::empty()
    } else {
        node_situations(flat.drop_last(), n) + if flat.last().0 == n {
            seq![(flat.last().1, flat.last().2)]
        } else {
            Seq::empty()
        }
    }
}

/// How many situations are violated.
pub open spec fn count_violated(s: Seq<(BindingModel, Option<ViolationReason>)>) -> nat
    decreases s.len(),
{
    if s.len() == 0 {
        0
    } else {
        count_violated(s.drop_last()) + if s.last().1 is Some {
            1nat
        } else {
            0nat
        }
    }
}

/// Evaluates the tree and groups the flat situations by node: per node the
/// situations in flat order, their count, and how many are violated; plus
/// the log's event and object ids and whether work was dropped.
pub fn evaluate_box_tree<C: CelEnv>(
    tree: &BindingBoxTree,
    log: &IndexedLog,
    cel: &C,
    max_bindings: usize,
) -> (r: Result<EvaluateBoxTreeResult, EvalError>)
    requires
        log.wf(),
        rooted_acyclic(tree),
    ensures
        match r {
            Ok(out) => {
                &&& out.evaluation_results@.len() == tree.nodes@.len()
                &&& forall|n: int|
                    0 <= n < out.evaluation_results@.len() ==> {
                        let e = #[trigger] out.evaluation_results@[n];
                        e.situation_count == e.situations@.len() && e.situation_violated_count
                            == count_violated(e.situations.deep_view())
                    }
                &&& out.event_ids@.len() == log.events@.len()
                &&& forall|k: int|
                    0 <= k < out.event_ids@.len() ==> (#[trigger] out.event_ids@[k])@
                        == log.events@[k].id@
                &&& out.object_ids@.len() == log.objects@.len()
                &&& forall|k: int|
                    0 <= k < out.object_ids@.len() ==> (#[trigger] out.object_ids@[k])@
                        == log.objects@[k].id@
                &&& exists|fm: FlatModel, sk: bool|
                    #[trigger] flat_skip_witness(fm, sk) && {
                        &&& sk == out.bindings_skipped
                        &&& (tree.nodes@.len() == 0 ==> fm.len() == 0 && sk == false)
                        &&& ((tree.nodes@.len() > 0 && tree_programs_free(tree) && sk == false)
                            ==> exists|per: PerModel|
                            #[trigger] per_witness(per) && exact_node_eval(
                                tree,
                                0,
                                root_binding_model(),
                                *log,
                                max_bindings,
                                fm,
                                per,
                                tree.nodes@.len() as nat + 1,
                            ))
                        &&& forall|n: int|
                            0 <= n < tree.nodes@.len() ==> (
                            #[trigger] out.evaluation_results@[n]).situations.deep_view()
                                == node_situations(fm, n as usize)
                    }
            },
            Err(_) => !tree_programs_free(tree) || !all_plan_inputs_ok(tree, *log),
        },
{
    let (flat, skipped) = match tree.evaluate(log, cel, max_bindings) {
        Ok(out) => out,
        Err(e) => {
            return Err(e);
        },
    };
    let n_nodes = tree.nodes.len();
    let mut evaluation_results: Vec<EvaluationResultWithCount> = Vec::new();
    let mut n: usize = 0;
    while n < n_nodes
        invariant
            n <= n_nodes,
            n_nodes == tree.nodes@.len(),
            evaluation_results@.len() == n,
            forall|w: int|
                0 <= w < n ==> {
                    let e = #[trigger] evaluation_results@[w];
                    e.situation_count == e.situations@.len() && e.situation_violated_count
                        == count_violated(e.situations.deep_view())
                },
            forall|w: int|
                0 <= w < n ==> (#[trigger] evaluation_results@[w]).situations.deep_view()
                    == node_situations(flat.deep_view(), w as usize),
        decreases n_nodes - n,
    {
        let mut situations: Vec<(Binding, Option<ViolationReason>)> = Vec::new();
        let mut violated: usize = 0;
        let nf = flat.len();
        let mut k: usize = 0;
        proof {
            assert(flat.deep_view().take(0) =~= Seq::<
                (usize, BindingModel, Option<ViolationReason>),
            >::empty());
        }
        while k < nf
            invariant
                nf == flat@.len(),
                k <= nf,
                situations@.len() <= k,
                violated <= situations@.len(),
                violated == count_violated(situations.deep_view()),
                situations.deep_view() == node_situations(flat.deep_view().take(k as int), n),
            decreases nf - k,
        {
            proof {
                assert(flat.deep_view().take(k + 1).drop_last() =~= flat.deep_view().take(
                    k as int,
                ));
                assert(flat.deep_view().take(k + 1).last() == flat.deep_view()[k as int]);
                assert(flat.deep_view()[k as int].0 == flat@[k as int].0);
            }
            if flat[k].0 == n {
                let ghost s0 = situations.deep_view();
                situations.push((flat[k].1.clone(), flat[k].2));
                proof {
                    assert(situations.deep_view() =~= s0.push(
                        (flat@[k as int].1.deep_view(), flat@[k as int].2),
                    ));
                    assert(situations.deep_view().drop_last() =~= s0);
                    assert(situations.deep_view() =~= node_situations(
                        flat.deep_view().take(k + 1),
                        n,
                    ));
                }
                if flat[k].2.is_some() {
                    violated = violated + 1;
                }
            } else {
                proof {
                    assert(situations.deep_view() =~= node_situations(
                        flat.deep_view().take(k + 1),
                        n,
                    ));
                }
            }
            k = k + 1;
        }
        proof {
            assert(flat.deep_view().take(nf as int) =~= flat.deep_view());
        }
        let count = situations.len();
        evaluation_results.push(
            EvaluationResultWithCount {
                situations,
                situation_count: count,
                situation_violated_count: violated,
            },
        );
        n = n + 1;
    }
    let mut event_ids: Vec<String> = Vec::new();
    let ne = log.events.len();
    let mut k2: usize = 0;
    while k2 < ne
        invariant
            ne == log.events@.len(),
            k2 <= ne,
            event_ids@.len() == k2,
            forall|w: int|
                0 <= w < k2 ==> (#[trigger] event_ids@[w])@ == log.events@[w].id@,
        decreases ne - k2,
    {
        event_ids.push(log.events[k2].id.clone());
        k2 = k2 + 1;
    }
    let mut object_ids: Vec<String> = Vec::new();
    let no = log.objects.len();
    let mut k3: usize = 0;
    while k3 < no
        invariant
            no == log.objects@.len(),
            k3 <= no,
            object_ids@.len() == k3,
            forall|w: int|
                0 <= w < k3 ==> (#[trigger] object_ids@[w])@ == log.objects@[w].id@,
        decreases no - k3,
    {
        object_ids.push(log.objects[k3].id.clone());
        k3 = k3 + 1;
    }
    proof {
        assert(flat_skip_witness(flat.deep_view(), skipped));
    }
    Ok(
        EvaluateBoxTreeResult {
            evaluation_results,
            object_ids,
            event_ids,
            bindings_skipped: skipped,
        },
    )
}

/// Clones a binding box; the copy has the same model.
fn clone_box(b: &BindingBox) -> (r: BindingBox)
    ensures
        r.deep_view() == b.deep_view(),
{
    BindingBox {
        new_event_vars: clone_typed_ev_vars(&b.new_event_vars),
        new_object_vars: clone_typed_ob_vars(&b.new_object_vars),
        filters: clone_filters(&b.filters),
        size_filters: clone_size_filters(&b.size_filters),
        constraints: clone_constraints(&b.constraints),
        ev_var_labels: clone_ev_labels(&b.ev_var_labels),
        ob_var_labels: clone_ob_labels(&b.ob_var_labels),
        labels: clone_label_functions(&b.labels),
    }
}

/// Clones the typed event-variable declarations.
fn clone_typed_ev_vars(
    v: &Vec<(crate::query::EventVariable, Vec<String>)>,
) -> (r: Vec<(crate::query::EventVariable, Vec<String>)>)
    ensures
        r.deep_view() == v.deep_view(),
{
    let mut out: Vec<(crate::query::EventVariable, Vec<String>)> = Vec::new();
    let n = v.len();
    let mut i: usize = 0;
    while i < n
        invariant
            n == v@.len(),
            i <= n,
            out@.len() == i,
            forall|k: int| 0 <= k < i ==> #[trigger] out.deep_view()[k] == v.deep_view()[k],
        decreases n - i,
    {
        let ghost o0 = out.deep_view();
        out.push((v[i].0, crate::query::clone_string_vec(&v[i].1)));
        proof {
            assert(out.deep_view()[i as int] == v.deep_view()[i as int]);
            assert forall|k: int| 0 <= k < i + 1 implies #[trigger] out.deep_view()[k]
                == v.deep_view()[k] by {
                if k < i {
                    assert(out.deep_view()[k] == o0[k]);
                }
            }
        }
        i = i + 1;
    }
    proof {
        assert(out.deep_view() =~= v.deep_view());
    }
    out
}

/// Clones the typed object-variable declarations.
fn clone_typed_ob_vars(
    v: &Vec<(crate::query::ObjectVariable, Vec<String>)>,
) -> (r: Vec<(crate::query::ObjectVariable, Vec<String>)>)
    ensures
        r.deep_view() == v.deep_view(),
{
    let mut out: Vec<(crate::query::ObjectVariable, Vec<String>)> = Vec::new();
    let n = v.len();
    let mut i: usize = 0;
    while i < n
        invariant
            n == v@.len(),
            i <= n,
            out@.len() == i,
            forall|k: int| 0 <= k < i ==> #[trigger] out.deep_view()[k] == v.deep_view()[k],
        decreases n - i,
    {
        let ghost o0 = out.deep_view();
        out.push((v[i].0, crate::query::clone_string_vec(&v[i].1)));
        proof {
            assert(out.deep_view()[i as int] == v.deep_view()[i as int]);
            assert forall|k: int| 0 <= k < i + 1 implies #[trigger] out.deep_view()[k]
                == v.deep_view()[k] by {
                if k < i {
                    assert(out.deep_view()[k] == o0[k]);
                }
            }
        }
        i = i + 1;
    }
    proof {
        assert(out.deep_view() =~= v.deep_view());
    }
    out
}

/// Clones a filter list.
fn clone_filters(v: &Vec<crate::query::Filter>) -> (r: Vec<crate::query::Filter>)
    ensures
        r.deep_view() == v.deep_view(),
{
    let mut out: Vec<crate::query::Filter> = Vec::new();
    let n = v.len();
    let mut i: usize = 0;
    while i < n
        invariant
            n == v@.len(),
            i <= n,
            out@.len() == i,
            forall|k: int| 0 <= k < i ==> #[trigger] out.deep_view()[k] == v.deep_view()[k],
        decreases n - i,
    {
        let ghost o0 = out.deep_view();
        out.push(v[i].clone());
        proof {
            assert(out.deep_view()[i as int] == v.deep_view()[i as int]);
            assert forall|k: int| 0 <= k < i + 1 implies #[trigger] out.deep_view()[k]
                == v.deep_view()[k] by {
                if k < i {
                    assert(out.deep_view()[k] == o0[k]);
                }
            }
        }
        i = i + 1;
    }
    proof {
        assert(out.deep_view() =~= v.deep_view());
    }
    out
}

/// Clones a size-filter list.
fn clone_size_filters(v: &Vec<crate::query::SizeFilter>) -> (r: Vec<crate::query::SizeFilter>)
    ensures
        r.deep_view() == v.deep_view(),
{
    let mut out: Vec<crate::query::SizeFilter> = Vec::new();
    let n = v.len();
    let mut i: usize = 0;
    while i < n
        invariant
            n == v@.len(),
            i <= n,
            out@.len() == i,
            forall|k: int| 0 <= k < i ==> #[trigger] out.deep_view()[k] == v.deep_view()[k],
        decreases n - i,
    {
        let ghost o0 = out.deep_view();
        out.push(clone_size_filter(&v[i]));
        proof {
            assert(out.deep_view()[i as int] == v.deep_view()[i as int]);
            assert forall|k: int| 0 <= k < i + 1 implies #[trigger] out.deep_view()[k]
                == v.deep_view()[k] by {
                if k < i {
                    assert(out.deep_view()[k] == o0[k]);
                }
            }
        }
        i = i + 1;
    }
    proof {
        assert(out.deep_view() =~= v.deep_view());
    }
    out
}

/// Clones one size filter.
fn clone_size_filter(sf: &crate::query::SizeFilter) -> (r: crate::query::SizeFilter)
    ensures
        r.deep_view() == sf.deep_view(),
{
    match sf {
        crate::query::SizeFilter::NumChilds { child_name, min, max } => crate::query::SizeFilter::NumChilds {
            child_name: child_name.clone(),
            min: *min,
            max: *max,
        },
        crate::query::SizeFilter::BindingSetEqual { child_names } => crate::query::SizeFilter::BindingSetEqual {
            child_names: crate::query::clone_string_vec(child_names),
        },
        crate::query::SizeFilter::BindingSetProjectionEqual {
            child_name_with_var_name,
        } => crate::query::SizeFilter::BindingSetProjectionEqual {
            child_name_with_var_name: clone_name_var_pairs(child_name_with_var_name),
        },
        crate::query::SizeFilter::NumChildsProj { child_name, var_name, min, max } => crate::query::SizeFilter::NumChildsProj {
            child_name: child_name.clone(),
            var_name: *var_name,
            min: *min,
            max: *max,
        },
        crate::query::SizeFilter::AdvancedCEL { cel } => crate::query::SizeFilter::AdvancedCEL {
            cel: cel.clone(),
        },
    }
}

/// Clones a list of `(name, variable)` pairs.
fn clone_name_var_pairs(
    v: &Vec<(String, crate::query::Variable)>,
) -> (r: Vec<(String, crate::query::Variable)>)
    ensures
        r.deep_view() == v.deep_view(),
{
    let mut out: Vec<(String, crate::query::Variable)> = Vec::new();
    let n = v.len();
    let mut i: usize = 0;
    while i < n
        invariant
            n == v@.len(),
            i <= n,
            out@.len() == i,
            forall|k: int| 0 <= k < i ==> #[trigger] out.deep_view()[k] == v.deep_view()[k],
        decreases n - i,
    {
        let ghost o0 = out.deep_view();
        out.push((v[i].0.clone(), v[i].1));
        proof {
            assert(out.deep_view()[i as int] == v.deep_view()[i as int]);
            assert forall|k: int| 0 <= k < i + 1 implies #[trigger] out.deep_view()[k]
                == v.deep_view()[k] by {
                if k < i {
                    assert(out.deep_view()[k] == o0[k]);
                }
            }
        }
        i = i + 1;
    }
    proof {
        assert(out.deep_view() =~= v.deep_view());
    }
    out
}

/// Clones a constraint list.
fn clone_constraints(v: &Vec<Constraint>) -> (r: Vec<Constraint>)
    ensures
        r.deep_view() == v.deep_view(),
{
    let mut out: Vec<Constraint> = Vec::new();
    let n = v.len();
    let mut i: usize = 0;
    while i < n
        invariant
            n == v@.len(),
            i <= n,
            out@.len() == i,
            forall|k: int| 0 <= k < i ==> #[trigger] out.deep_view()[k] == v.deep_view()[k],
        decreases n - i,
    {
        let ghost o0 = out.deep_view();
        let cloned = match &v[i] {
            Constraint::Filter { filter } => Constraint::Filter { filter: filter.clone() },
            Constraint::SizeFilter { filter } => Constraint::SizeFilter {
                filter: clone_size_filter(filter),
            },
            Constraint::SAT { child_names } => Constraint::SAT {
                child_names: crate::query::clone_string_vec(child_names),
            },
            Constraint::ANY { child_names } => Constraint::ANY {
                child_names: crate::query::clone_string_vec(child_names),
            },
            Constraint::NOT { child_names } => Constraint::NOT {
                child_names: crate::query::clone_string_vec(child_names),
            },
            Constraint::OR { child_names } => Constraint::OR {
                child_names: crate::query::clone_string_vec(child_names),
            },
            Constraint::AND { child_names } => Constraint::AND {
                child_names: crate::query::clone_string_vec(child_names),
            },
        };
        out.push(cloned);
        proof {
            assert(out.deep_view()[i as int] == v.deep_view()[i as int]);
            assert forall|k: int| 0 <= k < i + 1 implies #[trigger] out.deep_view()[k]
                == v.deep_view()[k] by {
                if k < i {
                    assert(out.deep_view()[k] == o0[k]);
                }
            }
        }
        i = i + 1;
    }
    proof {
        assert(out.deep_view() =~= v.deep_view());
    }
    out
}

/// Clones the per-variable filter labels of event variables.
fn clone_ev_labels(
    v: &Vec<(crate::query::EventVariable, crate::query::FilterLabel)>,
) -> (r: Vec<(crate::query::EventVariable, crate::query::FilterLabel)>)
    ensures
        r@ == v@,
{
    let mut out: Vec<(crate::query::EventVariable, crate::query::FilterLabel)> = Vec::new();
    let n = v.len();
    let mut i: usize = 0;
    while i < n
        invariant
            n == v@.len(),
            i <= n,
            out@ == v@.take(i as int),
        decreases n - i,
    {
        out.push(v[i]);
        proof {
            assert(out@ =~= v@.take(i + 1));
        }
        i = i + 1;
    }
    proof {
        assert(v@.take(n as int) =~= v@);
    }
    out
}

/// Clones the per-variable filter labels of object variables.
fn clone_ob_labels(
    v: &Vec<(crate::query::ObjectVariable, crate::query::FilterLabel)>,
) -> (r: Vec<(crate::query::ObjectVariable, crate::query::FilterLabel)>)
    ensures
        r@ == v@,
{
    let mut out: Vec<(crate::query::ObjectVariable, crate::query::FilterLabel)> = Vec::new();
    let n = v.len();
    let mut i: usize = 0;
    while i < n
        invariant
            n == v@.len(),
            i <= n,
            out@ == v@.take(i as int),
        decreases n - i,
    {
        out.push(v[i]);
        proof {
            assert(out@ =~= v@.take(i + 1));
        }
        i = i + 1;
    }
    proof {
        assert(v@.take(n as int) =~= v@);
    }
    out
}

/// Clones the label functions.
fn clone_label_functions(
    v: &Vec<crate::query::LabelFunction>,
) -> (r: Vec<crate::query::LabelFunction>)
    ensures
        r.deep_view() == v.deep_view(),
{
    let mut out: Vec<crate::query::LabelFunction> = Vec::new();
    let n = v.len();
    let mut i: usize = 0;
    while i < n
        invariant
            n == v@.len(),
            i <= n,
            out@.len() == i,
            forall|k: int| 0 <= k < i ==> #[trigger] out.deep_view()[k] == v.deep_view()[k],
        decreases n - i,
    {
        let ghost o0 = out.deep_view();
        out.push(
            crate::query::LabelFunction {
                label: v[i].label.clone(),
                cel: v[i].cel.clone(),
            },
        );
        proof {
            assert(out.deep_view()[i as int] == v.deep_view()[i as int]);
            assert forall|k: int| 0 <= k < i + 1 implies #[trigger] out.deep_view()[k]
                == v.deep_view()[k] by {
                if k < i {
                    assert(out.deep_view()[k] == o0[k]);
                }
            }
        }
        i = i + 1;
    }
    proof {
        assert(out.deep_view() =~= v.deep_view());
    }
    out
}

} // verus!
