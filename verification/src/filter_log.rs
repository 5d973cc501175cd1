//! Log filtering: selects the events, objects and relations of the log that
//! the evaluation results mark for inclusion.
//!
//! Every node's box may label its variables and relational filters as
//! included or excluded. Walking the produced bindings, each included label
//! puts the bound index (or relation) into an inclusion set and each
//! excluded label into an exclusion set; an entity survives when it is
//! included and not excluded, and when no label anywhere marks anything
//! included, everything not excluded survives. A relation survives only
//! when both its endpoints survive and its qualifier is covered by an
//! included relational label, exactly or as the wildcard.
use crate::binding::{lookup_ev_map, lookup_ob_map, BindingModel};
use crate::blueprint::dedup_strings;
use crate::cel::CelEnv;
use crate::evaluate::{rooted_acyclic, EvaluationResult};
use crate::filters::string_vec_contains;
use crate::log::{EventInput, IndexedLog, LogInput, ObjectInput};
use crate::query::{
    BindingBoxModel, BindingBoxTree, EvalError, Filter, FilterLabel, FilterModel, TreeNodeModel,
};
use vstd::prelude::*;

verus! {

/// The box a node evaluates as, if it is a box node.
pub open spec fn box_of(nodes: Seq<TreeNodeModel>, n: int) -> Option<BindingBoxModel> {
    if 0 <= n < nodes.len() {
        match nodes[n] {
            TreeNodeModel::Box(b, _) => Some(b),
            _ => None,
        }
    } else {
        None
    }
}

/// Whether any box of the tree marks a variable as included; when none
/// does, everything not excluded counts as included.
pub open spec fn any_included_label(nodes: Seq<TreeNodeModel>) -> bool {
    exists|n: int| 0 <= n < nodes.len() && node_has_included_label(#[trigger] nodes[n])
}

/// Whether the node's box marks some variable as included.
pub open spec fn node_has_included_label(node: TreeNodeModel) -> bool {
    match node {
        TreeNodeModel::Box(b, _) => {
            ||| exists|k: int|
                0 <= k < b.ev_var_labels.len() && (#[trigger] b.ev_var_labels[k]).1
                    == FilterLabel::INCLUDED
            ||| exists|k: int|
                0 <= k < b.ob_var_labels.len() && (#[trigger] b.ob_var_labels[k]).1
                    == FilterLabel::INCLUDED
        },
        _ => false,
    }
}

/// Whether one evaluation entry marks event `e` with the wanted label: the
/// entry's node is a box with an event variable labelled so, bound to `e`.
pub open spec fn entry_marks_ev(
    nodes: Seq<TreeNodeModel>,
    entry: (usize, BindingModel, Option<crate::query::ViolationReason>),
    e: usize,
    want: FilterLabel,
) -> bool {
    match box_of(nodes, entry.0 as int) {
        Some(b) => exists|k: int|
            0 <= k < b.ev_var_labels.len() && (#[trigger] b.ev_var_labels[k]).1 == want
                && lookup_ev_map(entry.1.event_map, b.ev_var_labels[k].0) == Some(e),
        None => false,
    }
}

/// Whether one evaluation entry marks object `o` with the wanted label.
pub open spec fn entry_marks_ob(
    nodes: Seq<TreeNodeModel>,
    entry: (usize, BindingModel, Option<crate::query::ViolationReason>),
    o: usize,
    want: FilterLabel,
) -> bool {
    match box_of(nodes, entry.0 as int) {
        Some(b) => exists|k: int|
            0 <= k < b.ob_var_labels.len() && (#[trigger] b.ob_var_labels[k]).1 == want
                && lookup_ob_map(entry.1.object_map, b.ob_var_labels[k].0) == Some(o),
        None => false,
    }
}

/// Whether some evaluation entry marks event `e` with the wanted label.
pub open spec fn ev_marked(
    nodes: Seq<TreeNodeModel>,
    flat: Seq<(usize, BindingModel, Option<crate::query::ViolationReason>)>,
    e: usize,
    want: FilterLabel,
) -> bool {
    exists|k: int| 0 <= k < flat.len() && entry_marks_ev(nodes, #[trigger] flat[k], e, want)
}

/// Whether some evaluation entry marks object `o` with the wanted label.
pub open spec fn ob_marked(
    nodes: Seq<TreeNodeModel>,
    flat: Seq<(usize, BindingModel, Option<crate::query::ViolationReason>)>,
    o: usize,
    want: FilterLabel,
) -> bool {
    exists|k: int| 0 <= k < flat.len() && entry_marks_ob(nodes, #[trigger] flat[k], o, want)
}

/// Whether event `e` survives: included (or everything counts as included)
/// and not excluded.
pub open spec fn ev_survives(
    nodes: Seq<TreeNodeModel>,
    flat: Seq<(usize, BindingModel, Option<crate::query::ViolationReason>)>,
    e: usize,
) -> bool {
    &&& (!any_included_label(nodes) || ev_marked(nodes, flat, e, FilterLabel::INCLUDED))
    &&& !ev_marked(nodes, flat, e, FilterLabel::EXCLUDED)
}

/// Whether object `o` survives.
pub open spec fn ob_survives(
    nodes: Seq<TreeNodeModel>,
    flat: Seq<(usize, BindingModel, Option<crate::query::ViolationReason>)>,
    o: usize,
) -> bool {
    &&& (!any_included_label(nodes) || ob_marked(nodes, flat, o, FilterLabel::INCLUDED))
    &&& !ob_marked(nodes, flat, o, FilterLabel::EXCLUDED)
}

/// Whether one entry marks the event-to-object relation `(e, o)` under
/// qualifier `q` with the wanted label: its box holds a relational filter
/// labelled so whose variables bind `e` and `o`, and whose qualifier is the
/// wildcard or exactly `q`.
pub open spec fn entry_marks_e2o(
    nodes: Seq<TreeNodeModel>,
    entry: (usize, BindingModel, Option<crate::query::ViolationReason>),
    e: usize,
    o: usize,
    q: Seq<char>,
    want: FilterLabel,
) -> bool {
    match box_of(nodes, entry.0 as int) {
        Some(b) => exists|fi: int|
            0 <= fi < b.filters.len() && ((#[trigger] b.filters[fi]) matches FilterModel::O2E {
                object,
                event,
                qualifier,
                filter_label,
            } && filter_label == Some(want) && lookup_ev_map(entry.1.event_map, event) == Some(e)
                && lookup_ob_map(entry.1.object_map, object) == Some(o) && (qualifier is None
                || qualifier == Some(q))),
        None => false,
    }
}

/// Whether one entry marks the object-to-object relation `(src, tgt)` under
/// qualifier `q` with the wanted label.
pub open spec fn entry_marks_o2o(
    nodes: Seq<TreeNodeModel>,
    entry: (usize, BindingModel, Option<crate::query::ViolationReason>),
    src: usize,
    tgt: usize,
    q: Seq<char>,
    want: FilterLabel,
) -> bool {
    match box_of(nodes, entry.0 as int) {
        Some(b) => exists|fi: int|
            0 <= fi < b.filters.len() && ((#[trigger] b.filters[fi]) matches FilterModel::O2O {
                object,
                other_object,
                qualifier,
                filter_label,
            } && filter_label == Some(want) && lookup_ob_map(entry.1.object_map, object) == Some(
                src,
            ) && lookup_ob_map(entry.1.object_map, other_object) == Some(tgt) && (qualifier is None
                || qualifier == Some(q))),
        None => false,
    }
}

/// Whether some entry marks the event-to-object relation so.
pub open spec fn e2o_marked(
    nodes: Seq<TreeNodeModel>,
    flat: Seq<(usize, BindingModel, Option<crate::query::ViolationReason>)>,
    e: usize,
    o: usize,
    q: Seq<char>,
    want: FilterLabel,
) -> bool {
    exists|k: int| 0 <= k < flat.len() && entry_marks_e2o(nodes, #[trigger] flat[k], e, o, q, want)
}

/// Whether some entry marks the object-to-object relation so.
pub open spec fn o2o_marked(
    nodes: Seq<TreeNodeModel>,
    flat: Seq<(usize, BindingModel, Option<crate::query::ViolationReason>)>,
    src: usize,
    tgt: usize,
    q: Seq<char>,
    want: FilterLabel,
) -> bool {
    exists|k: int|
        0 <= k < flat.len() && entry_marks_o2o(nodes, #[trigger] flat[k], src, tgt, q, want)
}

/// Whether relationship `j` of event `e` survives: both endpoints survive,
/// the relation is included (or everything counts as included) and not
/// excluded.
pub open spec fn e2o_rel_survives(
    nodes: Seq<TreeNodeModel>,
    flat: Seq<(usize, BindingModel, Option<crate::query::ViolationReason>)>,
    log: IndexedLog,
    e: int,
    j: int,
) -> bool {
    let q = log.events@[e].e2o@[j].0@;
    let o = log.events@[e].e2o@[j].1;
    &&& ev_survives(nodes, flat, e as usize)
    &&& ob_survives(nodes, flat, o)
    &&& (any_included_label(nodes) ==> e2o_marked(nodes, flat, e as usize, o, q,
    FilterLabel::INCLUDED))
    &&& !e2o_marked(nodes, flat, e as usize, o, q, FilterLabel::EXCLUDED)
}

/// Whether forward relationship `j` of object `src` survives.
pub open spec fn o2o_rel_survives(
    nodes: Seq<TreeNodeModel>,
    flat: Seq<(usize, BindingModel, Option<crate::query::ViolationReason>)>,
    log: IndexedLog,
    src: int,
    j: int,
) -> bool {
    let q = log.objects@[src].o2o@[j].0@;
    let tgt = log.objects@[src].o2o@[j].1;
    &&& ob_survives(nodes, flat, src as usize)
    &&& ob_survives(nodes, flat, tgt)
    &&& (any_included_label(nodes) ==> o2o_marked(nodes, flat, src as usize, tgt, q,
    FilterLabel::INCLUDED))
    &&& !o2o_marked(nodes, flat, src as usize, tgt, q, FilterLabel::EXCLUDED)
}

/// Whether the node's box marks some variable as included.
fn node_has_included_label_exec(node: &crate::query::BindingBoxTreeNode) -> (r: bool)
    ensures
        r == node_has_included_label(node.deep_view()),
{
    match node {
        crate::query::BindingBoxTreeNode::Box(b, _) => {
            let n1 = b.ev_var_labels.len();
            let mut k: usize = 0;
            while k < n1
                invariant
                    n1 == b.ev_var_labels@.len(),
                    k <= n1,
                    forall|w: int|
                        0 <= w < k ==> (#[trigger] b.ev_var_labels@[w]).1 != FilterLabel::INCLUDED,
                decreases n1 - k,
            {
                if matches!(b.ev_var_labels[k].1, FilterLabel::INCLUDED) {
                    proof {
                        assert(b.deep_view().ev_var_labels[k as int] == b.ev_var_labels@[k as int]);
                    }
                    return true;
                }
                k = k + 1;
            }
            let n2 = b.ob_var_labels.len();
            let mut k2: usize = 0;
            while k2 < n2
                invariant
                    n2 == b.ob_var_labels@.len(),
                    k2 <= n2,
                    forall|w: int|
                        0 <= w < k2 ==> (#[trigger] b.ob_var_labels@[w]).1 != FilterLabel::INCLUDED,
                decreases n2 - k2,
            {
                if matches!(b.ob_var_labels[k2].1, FilterLabel::INCLUDED) {
                    proof {
                        assert(b.deep_view().ob_var_labels[k2 as int] == b.ob_var_labels@[
                            k2 as int
                        ]);
                    }
                    return true;
                }
                k2 = k2 + 1;
            }
            proof {
                assert forall|w: int| 0 <= w < b.deep_view().ev_var_labels.len() implies (
                #[trigger] b.deep_view().ev_var_labels[w]).1 != FilterLabel::INCLUDED by {
                    assert(b.deep_view().ev_var_labels[w] == b.ev_var_labels@[w]);
                }
                assert forall|w: int| 0 <= w < b.deep_view().ob_var_labels.len() implies (
                #[trigger] b.deep_view().ob_var_labels[w]).1 != FilterLabel::INCLUDED by {
                    assert(b.deep_view().ob_var_labels[w] == b.ob_var_labels@[w]);
                }
            }
            false
        },
        _ => false,
    }
}

/// Whether any box of the tree marks a variable as included.
fn any_included_label_exec(tree: &BindingBoxTree) -> (r: bool)
    ensures
        r == any_included_label(tree.deep_view().nodes),
{
    let n = tree.nodes.len();
    let mut i: usize = 0;
    while i < n
        invariant
            n == tree.nodes@.len(),
            i <= n,
            forall|w: int|
                0 <= w < i ==> !node_has_included_label(#[trigger] tree.deep_view().nodes[w]),
        decreases n - i,
    {
        proof {
            assert(tree.deep_view().nodes[i as int] == tree.nodes@[i as int].deep_view());
        }
        if node_has_included_label_exec(&tree.nodes[i]) {
            return true;
        }
        i = i + 1;
    }
    false
}

/// Whether some evaluation entry marks event `e` with the wanted label.
fn ev_marked_exec(
    tree: &BindingBoxTree,
    flat: &Vec<EvaluationResult>,
    e: usize,
    want: FilterLabel,
) -> (r: bool)
    ensures
        r == ev_marked(tree.deep_view().nodes, flat.deep_view(), e, want),
{
    let n = flat.len();
    let mut k: usize = 0;
    while k < n
        invariant
            n == flat@.len(),
            k <= n,
            forall|w: int|
                0 <= w < k ==> !entry_marks_ev(
                    tree.deep_view().nodes,
                    #[trigger] flat.deep_view()[w],
                    e,
                    want,
                ),
        decreases n - k,
    {
        proof {
            assert(flat.deep_view()[k as int] == (
                flat@[k as int].0,
                flat@[k as int].1.deep_view(),
                flat@[k as int].2,
            ));
        }
        let node = flat[k].0;
        if node < tree.nodes.len() {
            if let crate::query::BindingBoxTreeNode::Box(b, _) = &tree.nodes[node] {
                proof {
                    assert(tree.deep_view().nodes[node as int] == tree.nodes@[
                        node as int
                    ].deep_view());
                }
                let nl = b.ev_var_labels.len();
                let mut li: usize = 0;
                while li < nl
                    invariant
                        nl == b.ev_var_labels@.len(),
                        node < tree.nodes@.len(),
                        k < n,
                        n == flat@.len(),
                        box_of(tree.deep_view().nodes, flat.deep_view()[k as int].0 as int)
                            == Some(b.deep_view()),
                        li <= nl,
                        forall|w: int|
                            0 <= w < li ==> !((#[trigger] b.deep_view().ev_var_labels[w]).1 == want
                                && lookup_ev_map(
                                flat.deep_view()[k as int].1.event_map,
                                b.deep_view().ev_var_labels[w].0,
                            ) == Some(e)),
                    decreases nl - li,
                {
                    proof {
                        assert(b.deep_view().ev_var_labels[li as int] == b.ev_var_labels@[
                            li as int
                        ]);
                    }
                    if labels_match(b.ev_var_labels[li].1, want) {
                        if flat[k].1.get_ev_index(&b.ev_var_labels[li].0) == Some(e) {
                            proof {
                                assert(entry_marks_ev(
                                    tree.deep_view().nodes,
                                    flat.deep_view()[k as int],
                                    e,
                                    want,
                                ));
                            }
                            return true;
                        }
                    }
                    li = li + 1;
                }
                proof {
                    assert(!entry_marks_ev(
                        tree.deep_view().nodes,
                        flat.deep_view()[k as int],
                        e,
                        want,
                    ));
                }
            } else {
                proof {
                    assert(tree.deep_view().nodes[node as int] == tree.nodes@[
                        node as int
                    ].deep_view());
                    assert(box_of(tree.deep_view().nodes, node as int) is None);
                }
            }
        } else {
            proof {
                assert(box_of(tree.deep_view().nodes, node as int) is None);
            }
        }
        k = k + 1;
    }
    false
}

/// Whether some evaluation entry marks object `o` with the wanted label.
fn ob_marked_exec(
    tree: &BindingBoxTree,
    flat: &Vec<EvaluationResult>,
    o: usize,
    want: FilterLabel,
) -> (r: bool)
    ensures
        r == ob_marked(tree.deep_view().nodes, flat.deep_view(), o, want),
{
    let n = flat.len();
    let mut k: usize = 0;
    while k < n
        invariant
            n == flat@.len(),
            k <= n,
            forall|w: int|
                0 <= w < k ==> !entry_marks_ob(
                    tree.deep_view().nodes,
                    #[trigger] flat.deep_view()[w],
                    o,
                    want,
                ),
        decreases n - k,
    {
        proof {
            assert(flat.deep_view()[k as int] == (
                flat@[k as int].0,
                flat@[k as int].1.deep_view(),
                flat@[k as int].2,
            ));
        }
        let node = flat[k].0;
        if node < tree.nodes.len() {
            if let crate::query::BindingBoxTreeNode::Box(b, _) = &tree.nodes[node] {
                proof {
                    assert(tree.deep_view().nodes[node as int] == tree.nodes@[
                        node as int
                    ].deep_view());
                }
                let nl = b.ob_var_labels.len();
                let mut li: usize = 0;
                while li < nl
                    invariant
                        nl == b.ob_var_labels@.len(),
                        node < tree.nodes@.len(),
                        k < n,
                        n == flat@.len(),
                        box_of(tree.deep_view().nodes, flat.deep_view()[k as int].0 as int)
                            == Some(b.deep_view()),
                        li <= nl,
                        forall|w: int|
                            0 <= w < li ==> !((#[trigger] b.deep_view().ob_var_labels[w]).1 == want
                                && lookup_ob_map(
                                flat.deep_view()[k as int].1.object_map,
                                b.deep_view().ob_var_labels[w].0,
                            ) == Some(o)),
                    decreases nl - li,
                {
                    proof {
                        assert(b.deep_view().ob_var_labels[li as int] == b.ob_var_labels@[
                            li as int
                        ]);
                    }
                    if labels_match(b.ob_var_labels[li].1, want) {
                        if flat[k].1.get_ob_index(&b.ob_var_labels[li].0) == Some(o) {
                            proof {
                                assert(entry_marks_ob(
                                    tree.deep_view().nodes,
                                    flat.deep_view()[k as int],
                                    o,
                                    want,
                                ));
                            }
                            return true;
                        }
                    }
                    li = li + 1;
                }
                proof {
                    assert(!entry_marks_ob(
                        tree.deep_view().nodes,
                        flat.deep_view()[k as int],
                        o,
                        want,
                    ));
                }
            } else {
                proof {
                    assert(tree.deep_view().nodes[node as int] == tree.nodes@[
                        node as int
                    ].deep_view());
                    assert(box_of(tree.deep_view().nodes, node as int) is None);
                }
            }
        } else {
            proof {
                assert(box_of(tree.deep_view().nodes, node as int) is None);
            }
        }
        k = k + 1;
    }
    false
}

/// Whether two filter labels are the same.
fn labels_match(a: FilterLabel, want: FilterLabel) -> (r: bool)
    ensures
        r == (a == want),
{
    match (a, want) {
        (FilterLabel::IGNORED, FilterLabel::IGNORED) => true,
        (FilterLabel::INCLUDED, FilterLabel::INCLUDED) => true,
        (FilterLabel::EXCLUDED, FilterLabel::EXCLUDED) => true,
        _ => false,
    }
}

/// Whether some evaluation entry marks the event-to-object relation so.
fn e2o_marked_exec(
    tree: &BindingBoxTree,
    flat: &Vec<EvaluationResult>,
    e: usize,
    o: usize,
    q: &String,
    want: FilterLabel,
) -> (r: bool)
    ensures
        r == e2o_marked(tree.deep_view().nodes, flat.deep_view(), e, o, q@, want),
{
    let n = flat.len();
    let mut k: usize = 0;
    while k < n
        invariant
            n == flat@.len(),
            k <= n,
            forall|w: int|
                0 <= w < k ==> !entry_marks_e2o(
                    tree.deep_view().nodes,
                    #[trigger] flat.deep_view()[w],
                    e,
                    o,
                    q@,
                    want,
                ),
        decreases n - k,
    {
        proof {
            assert(flat.deep_view()[k as int] == (
                flat@[k as int].0,
                flat@[k as int].1.deep_view(),
                flat@[k as int].2,
            ));
        }
        let node = flat[k].0;
        if node < tree.nodes.len() {
            if let crate::query::BindingBoxTreeNode::Box(b, _) = &tree.nodes[node] {
                proof {
                    assert(tree.deep_view().nodes[node as int] == tree.nodes@[
                        node as int
                    ].deep_view());
                }
                let nfl = b.filters.len();
                let mut fi: usize = 0;
                while fi < nfl
                    invariant
                        nfl == b.filters@.len(),
                        node < tree.nodes@.len(),
                        k < n,
                        n == flat@.len(),
                        box_of(tree.deep_view().nodes, flat.deep_view()[k as int].0 as int)
                            == Some(b.deep_view()),
                        fi <= nfl,
                        forall|w: int|
                            0 <= w < fi ==> !((#[trigger] b.deep_view().filters[w])
                                matches FilterModel::O2E { object, event, qualifier, filter_label }
                                && filter_label == Some(want) && lookup_ev_map(
                                flat.deep_view()[k as int].1.event_map,
                                event,
                            ) == Some(e) && lookup_ob_map(
                                flat.deep_view()[k as int].1.object_map,
                                object,
                            ) == Some(o) && (qualifier is None || qualifier == Some(q@))),
                    decreases nfl - fi,
                {
                    proof {
                        assert(b.deep_view().filters[fi as int] == b.filters@[
                            fi as int
                        ].deep_view());
                    }
                    if let Filter::O2E { object, event, qualifier, filter_label } = &b.filters[fi] {
                        let label_ok = match filter_label {
                            Some(l) => labels_match(*l, want),
                            None => false,
                        };
                        if label_ok {
                            let qual_ok = match qualifier {
                                None => true,
                                Some(qs) => *qs == *q,
                            };
                            if qual_ok {
                                if flat[k].1.get_ev_index(event) == Some(e) && flat[
                                    k
                                ].1.get_ob_index(object) == Some(o) {
                                    proof {
                                        assert(entry_marks_e2o(
                                            tree.deep_view().nodes,
                                            flat.deep_view()[k as int],
                                            e,
                                            o,
                                            q@,
                                            want,
                                        ));
                                    }
                                    return true;
                                }
                            }
                        }
                    }
                    fi = fi + 1;
                }
                proof {
                    assert(!entry_marks_e2o(
                        tree.deep_view().nodes,
                        flat.deep_view()[k as int],
                        e,
                        o,
                        q@,
                        want,
                    ));
                }
            } else {
                proof {
                    assert(tree.deep_view().nodes[node as int] == tree.nodes@[
                        node as int
                    ].deep_view());
                    assert(box_of(tree.deep_view().nodes, node as int) is None);
                }
            }
        } else {
            proof {
                assert(box_of(tree.deep_view().nodes, node as int) is None);
            }
        }
        k = k + 1;
    }
    false
}

/// Whether some evaluation entry marks the object-to-object relation so.
fn o2o_marked_exec(
    tree: &BindingBoxTree,
    flat: &Vec<EvaluationResult>,
    src: usize,
    tgt: usize,
    q: &String,
    want: FilterLabel,
) -> (r: bool)
    ensures
        r == o2o_marked(tree.deep_view().nodes, flat.deep_view(), src, tgt, q@, want),
{
    let n = flat.len();
    let mut k: usize = 0;
    while k < n
        invariant
            n == flat@.len(),
            k <= n,
            forall|w: int|
                0 <= w < k ==> !entry_marks_o2o(
                    tree.deep_view().nodes,
                    #[trigger] flat.deep_view()[w],
                    src,
                    tgt,
                    q@,
                    want,
                ),
        decreases n - k,
    {
        proof {
            assert(flat.deep_view()[k as int] == (
                flat@[k as int].0,
                flat@[k as int].1.deep_view(),
                flat@[k as int].2,
            ));
        }
        let node = flat[k].0;
        if node < tree.nodes.len() {
            if let crate::query::BindingBoxTreeNode::Box(b, _) = &tree.nodes[node] {
                proof {
                    assert(tree.deep_view().nodes[node as int] == tree.nodes@[
                        node as int
                    ].deep_view());
                }
                let nfl = b.filters.len();
                let mut fi: usize = 0;
                while fi < nfl
                    invariant
                        nfl == b.filters@.len(),
                        node < tree.nodes@.len(),
                        k < n,
                        n == flat@.len(),
                        box_of(tree.deep_view().nodes, flat.deep_view()[k as int].0 as int)
                            == Some(b.deep_view()),
                        fi <= nfl,
                        forall|w: int|
                            0 <= w < fi ==> !((#[trigger] b.deep_view().filters[w])
                                matches FilterModel::O2O {
                                object,
                                other_object,
                                qualifier,
                                filter_label,
                            } && filter_label == Some(want) && lookup_ob_map(
                                flat.deep_view()[k as int].1.object_map,
                                object,
                            ) == Some(src) && lookup_ob_map(
                                flat.deep_view()[k as int].1.object_map,
                                other_object,
                            ) == Some(tgt) && (qualifier is None || qualifier == Some(q@))),
                    decreases nfl - fi,
                {
                    proof {
                        assert(b.deep_view().filters[fi as int] == b.filters@[
                            fi as int
                        ].deep_view());
                    }
                    if let Filter::O2O { object, other_object, qualifier, filter_label } = &b.filters[
                        fi
                    ] {
                        let label_ok = match filter_label {
                            Some(l) => labels_match(*l, want),
                            None => false,
                        };
                        if label_ok {
                            let qual_ok = match qualifier {
                                None => true,
                                Some(qs) => *qs == *q,
                            };
                            if qual_ok {
                                if flat[k].1.get_ob_index(object) == Some(src) && flat[
                                    k
                                ].1.get_ob_index(other_object) == Some(tgt) {
                                    proof {
                                        assert(entry_marks_o2o(
                                            tree.deep_view().nodes,
                                            flat.deep_view()[k as int],
                                            src,
                                            tgt,
                                            q@,
                                            want,
                                        ));
                                    }
                                    return true;
                                }
                            }
                        }
                    }
                    fi = fi + 1;
                }
                proof {
                    assert(!entry_marks_o2o(
                        tree.deep_view().nodes,
                        flat.deep_view()[k as int],
                        src,
                        tgt,
                        q@,
                        want,
                    ));
                }
            } else {
                proof {
                    assert(tree.deep_view().nodes[node as int] == tree.nodes@[
                        node as int
                    ].deep_view());
                    assert(box_of(tree.deep_view().nodes, node as int) is None);
                }
            }
        } else {
            proof {
                assert(box_of(tree.deep_view().nodes, node as int) is None);
            }
        }
        k = k + 1;
    }
    false
}

/// The surviving relationships of event `e` from position `i` on, each as
/// `(qualifier, target object id)`.
pub open spec fn kept_event_rels(
    nodes: Seq<TreeNodeModel>,
    flat: Seq<(usize, BindingModel, Option<crate::query::ViolationReason>)>,
    log: IndexedLog,
    e: int,
    i: int,
) -> Seq<(Seq<char>, Seq<char>)>
    decreases log.events@[e].e2o@.len() - i,
{
    if i < 0 || i >= log.events@[e].e2o@.len() {
        Seq::empty()
    } else {
        (if e2o_rel_survives(nodes, flat, log, e, i) {
            seq![
                (
                    log.events@[e].e2o@[i].0@,
                    log.objects@[log.events@[e].e2o@[i].1 as int].id@,
                ),
            ]
        } else {
            Seq::<(Seq<char>, Seq<char>)>::empty()
        }) + kept_event_rels(nodes, flat, log, e, i + 1)
    }
}

/// The surviving forward relationships of object `src` from position `i` on.
pub open spec fn kept_object_rels(
    nodes: Seq<TreeNodeModel>,
    flat: Seq<(usize, BindingModel, Option<crate::query::ViolationReason>)>,
    log: IndexedLog,
    src: int,
    i: int,
) -> Seq<(Seq<char>, Seq<char>)>
    decreases log.objects@[src].o2o@.len() - i,
{
    if i < 0 || i >= log.objects@[src].o2o@.len() {
        Seq::empty()
    } else {
        (if o2o_rel_survives(nodes, flat, log, src, i) {
            seq![
                (
                    log.objects@[src].o2o@[i].0@,
                    log.objects@[log.objects@[src].o2o@[i].1 as int].id@,
                ),
            ]
        } else {
            Seq::<(Seq<char>, Seq<char>)>::empty()
        }) + kept_object_rels(nodes, flat, log, src, i + 1)
    }
}

/// Whether the output event comes from some surviving event of the log.
pub open spec fn output_from_surviving_event(
    out: EventInput,
    nodes: Seq<TreeNodeModel>,
    flat: Seq<(usize, BindingModel, Option<crate::query::ViolationReason>)>,
    log: IndexedLog,
) -> bool {
    exists|e: int|
        0 <= e < log.events@.len() && #[trigger] ev_survives(nodes, flat, e as usize)
            && event_output_matches(out, nodes, flat, log, e)
}

/// Whether some output event realises log event `e`.
pub open spec fn some_output_realises_event(
    events: Seq<EventInput>,
    nodes: Seq<TreeNodeModel>,
    flat: Seq<(usize, BindingModel, Option<crate::query::ViolationReason>)>,
    log: IndexedLog,
    e: int,
) -> bool {
    exists|k: int|
        0 <= k < events.len() && event_output_matches(#[trigger] events[k], nodes, flat, log, e)
}

/// Whether the output object comes from some surviving object of the log.
pub open spec fn output_from_surviving_object(
    out: ObjectInput,
    nodes: Seq<TreeNodeModel>,
    flat: Seq<(usize, BindingModel, Option<crate::query::ViolationReason>)>,
    log: IndexedLog,
) -> bool {
    exists|o: int|
        0 <= o < log.objects@.len() && #[trigger] ob_survives(nodes, flat, o as usize)
            && object_output_matches(out, nodes, flat, log, o)
}

/// Whether some output object realises log object `o`.
pub open spec fn some_output_realises_object(
    objects: Seq<ObjectInput>,
    nodes: Seq<TreeNodeModel>,
    flat: Seq<(usize, BindingModel, Option<crate::query::ViolationReason>)>,
    log: IndexedLog,
    o: int,
) -> bool {
    exists|k: int|
        0 <= k < objects.len() && object_output_matches(#[trigger] objects[k], nodes, flat, log, o)
}

/// Whether an output log is the filtered form of the log under the
/// evaluation results: every output event and object comes from a survivor,
/// and every survivor is realised in the output.
pub open spec fn filtered_log_matches(
    r: LogInput,
    nodes: Seq<TreeNodeModel>,
    flat: Seq<(usize, BindingModel, Option<crate::query::ViolationReason>)>,
    log: IndexedLog,
) -> bool {
    &&& forall|k: int|
        0 <= k < r.events@.len() ==> output_from_surviving_event(
            #[trigger] r.events@[k],
            nodes,
            flat,
            log,
        )
    &&& forall|e: int|
        0 <= e < log.events@.len() && #[trigger] ev_survives(nodes, flat, e as usize)
            ==> some_output_realises_event(r.events@, nodes, flat, log, e)
    &&& forall|k: int|
        0 <= k < r.objects@.len() ==> output_from_surviving_object(
            #[trigger] r.objects@[k],
            nodes,
            flat,
            log,
        )
    &&& forall|o: int|
        0 <= o < log.objects@.len() && #[trigger] ob_survives(nodes, flat, o as usize)
            ==> some_output_realises_object(r.objects@, nodes, flat, log, o)
}

/// Builds the filtered log from the evaluation results: exactly the
/// surviving events and objects, in index order, each carrying its id, time
/// and attributes and only its surviving relationships; the type lists name
/// the surviving entities' types, first occurrences in order.
pub fn filter_log_from_results(
    tree: &BindingBoxTree,
    flat: &Vec<EvaluationResult>,
    log: &IndexedLog,
) -> (r: LogInput)
    requires
        log.wf(),
    ensures
        forall|k: int|
            0 <= k < r.events@.len() ==> output_from_surviving_event(
                #[trigger] r.events@[k],
                tree.deep_view().nodes,
                flat.deep_view(),
                *log,
            ),
        forall|e: int|
            0 <= e < log.events@.len() && #[trigger] ev_survives(
                tree.deep_view().nodes,
                flat.deep_view(),
                e as usize,
            ) ==> some_output_realises_event(
                r.events@,
                tree.deep_view().nodes,
                flat.deep_view(),
                *log,
                e,
            ),
        forall|k: int|
            0 <= k < r.objects@.len() ==> output_from_surviving_object(
                #[trigger] r.objects@[k],
                tree.deep_view().nodes,
                flat.deep_view(),
                *log,
            ),
        forall|o: int|
            0 <= o < log.objects@.len() && #[trigger] ob_survives(
                tree.deep_view().nodes,
                flat.deep_view(),
                o as usize,
            ) ==> some_output_realises_object(
                r.objects@,
                tree.deep_view().nodes,
                flat.deep_view(),
                *log,
                o,
            ),
{
    let ghost nodes = tree.deep_view().nodes;
    let ghost fm = flat.deep_view();
    let ne = log.events.len();
    let mut events: Vec<EventInput> = Vec::new();
    let mut event_types: Vec<String> = Vec::new();
    let mut e: usize = 0;
    while e < ne
        invariant
            ne == log.events@.len(),
            log.wf(),
            nodes == tree.deep_view().nodes,
            fm == flat.deep_view(),
            e <= ne,
            forall|k: int|
                0 <= k < events@.len() ==> output_from_surviving_event(
                    #[trigger] events@[k],
                    nodes,
                    fm,
                    *log,
                ),
            forall|w: int|
                0 <= w < e && #[trigger] ev_survives(nodes, fm, w as usize)
                    ==> some_output_realises_event(events@, nodes, fm, *log, w),
        decreases ne - e,
    {
        if ev_survives_exec(tree, flat, e) {
            let rels = kept_event_rels_exec(tree, flat, log, e);
            let tname = log.event_types[log.events[e].type_index].clone();
            if !string_vec_contains(&event_types, &tname) {
                event_types.push(tname.clone());
            }
            let out_ev = EventInput {
                id: log.events[e].id.clone(),
                event_type: tname,
                time: log.events[e].time,
                attributes: clone_attributes(&log.events[e].attributes),
                relationships: rels,
            };
            proof {
                assert(event_output_matches(out_ev, nodes, fm, *log, e as int));
                assert(output_from_surviving_event(out_ev, nodes, fm, *log));
            }
            let ghost old_events = events@;
            events.push(out_ev);
            proof {
                assert forall|k: int| 0 <= k < events@.len() implies output_from_surviving_event(
                    #[trigger] events@[k],
                    nodes,
                    fm,
                    *log,
                ) by {
                    if k < old_events.len() {
                        assert(events@[k] == old_events[k]);
                    } else {
                        assert(events@[k] == out_ev);
                        assert(output_from_surviving_event(out_ev, nodes, fm, *log));
                    }
                }
                assert forall|w: int|
                    0 <= w < e + 1 && #[trigger] ev_survives(nodes, fm, w as usize) implies
                    some_output_realises_event(events@, nodes, fm, *log, w) by {
                    if w < e {
                        let k0 = choose|k0: int|
                            0 <= k0 < old_events.len() && event_output_matches(
                                #[trigger] old_events[k0],
                                nodes,
                                fm,
                                *log,
                                w,
                            );
                        assert(events@[k0] == old_events[k0]);
                        assert(some_output_realises_event(events@, nodes, fm, *log, w));
                    } else {
                        assert(events@[old_events.len() as int] == out_ev);
                        assert(some_output_realises_event(events@, nodes, fm, *log, w));
                    }
                }
            }
        } else {
            proof {
                assert forall|w: int|
                    0 <= w < e + 1 && #[trigger] ev_survives(nodes, fm, w as usize) implies
                    some_output_realises_event(events@, nodes, fm, *log, w) by {
                }
            }
        }
        e = e + 1;
    }
    let no = log.objects.len();
    let mut objects: Vec<ObjectInput> = Vec::new();
    let mut object_types: Vec<String> = Vec::new();
    let mut o: usize = 0;
    while o < no
        invariant
            no == log.objects@.len(),
            log.wf(),
            nodes == tree.deep_view().nodes,
            fm == flat.deep_view(),
            o <= no,
            forall|k: int|
                0 <= k < objects@.len() ==> output_from_surviving_object(
                    #[trigger] objects@[k],
                    nodes,
                    fm,
                    *log,
                ),
            forall|w: int|
                0 <= w < o && #[trigger] ob_survives(nodes, fm, w as usize)
                    ==> some_output_realises_object(objects@, nodes, fm, *log, w),
        decreases no - o,
    {
        if ob_survives_exec(tree, flat, o) {
            let rels = kept_object_rels_exec(tree, flat, log, o);
            let tname = log.object_types[log.objects[o].type_index].clone();
            if !string_vec_contains(&object_types, &tname) {
                object_types.push(tname.clone());
            }
            let out_ob = ObjectInput {
                id: log.objects[o].id.clone(),
                object_type: tname,
                attributes: clone_timed_attributes(&log.objects[o].attributes),
                relationships: rels,
            };
            proof {
                assert(object_output_matches(out_ob, nodes, fm, *log, o as int));
                assert(output_from_surviving_object(out_ob, nodes, fm, *log));
            }
            let ghost old_objects = objects@;
            objects.push(out_ob);
            proof {
                assert forall|k: int| 0 <= k < objects@.len() implies output_from_surviving_object(
                    #[trigger] objects@[k],
                    nodes,
                    fm,
                    *log,
                ) by {
                    if k < old_objects.len() {
                        assert(objects@[k] == old_objects[k]);
                    } else {
                        assert(objects@[k] == out_ob);
                        assert(output_from_surviving_object(out_ob, nodes, fm, *log));
                    }
                }
                assert forall|w: int|
                    0 <= w < o + 1 && #[trigger] ob_survives(nodes, fm, w as usize) implies
                    some_output_realises_object(objects@, nodes, fm, *log, w) by {
                    if w < o {
                        let k0 = choose|k0: int|
                            0 <= k0 < old_objects.len() && object_output_matches(
                                #[trigger] old_objects[k0],
                                nodes,
                                fm,
                                *log,
                                w,
                            );
                        assert(objects@[k0] == old_objects[k0]);
                        assert(some_output_realises_object(objects@, nodes, fm, *log, w));
                    } else {
                        assert(objects@[old_objects.len() as int] == out_ob);
                        assert(some_output_realises_object(objects@, nodes, fm, *log, w));
                    }
                }
            }
        } else {
            proof {
                assert forall|w: int|
                    0 <= w < o + 1 && #[trigger] ob_survives(nodes, fm, w as usize) implies
                    some_output_realises_object(objects@, nodes, fm, *log, w) by {
                }
            }
        }
        o = o + 1;
    }
    LogInput { event_types, object_types, events, objects }
}

/// Whether an output event realises surviving event `e`: same id, time and
/// attribute models, the type name resolved, and exactly the surviving
/// relationships.
pub open spec fn event_output_matches(
    out: EventInput,
    nodes: Seq<TreeNodeModel>,
    flat: Seq<(usize, BindingModel, Option<crate::query::ViolationReason>)>,
    log: IndexedLog,
    e: int,
) -> bool {
    &&& out.id@ == log.events@[e].id@
    &&& out.time == log.events@[e].time
    &&& out.attributes.deep_view() == log.events@[e].attributes.deep_view()
    &&& out.event_type@ == log.event_types@[log.events@[e].type_index as int]@
    &&& out.relationships.deep_view() == kept_event_rels(nodes, flat, log, e, 0)
}

/// Whether an output object realises surviving object `o`.
pub open spec fn object_output_matches(
    out: ObjectInput,
    nodes: Seq<TreeNodeModel>,
    flat: Seq<(usize, BindingModel, Option<crate::query::ViolationReason>)>,
    log: IndexedLog,
    o: int,
) -> bool {
    &&& out.id@ == log.objects@[o].id@
    &&& out.attributes.deep_view() == log.objects@[o].attributes.deep_view()
    &&& out.object_type@ == log.object_types@[log.objects@[o].type_index as int]@
    &&& out.relationships.deep_view() == kept_object_rels(nodes, flat, log, o, 0)
}

/// Whether event `e` survives the filtering.
fn ev_survives_exec(tree: &BindingBoxTree, flat: &Vec<EvaluationResult>, e: usize) -> (r: bool)
    ensures
        r == ev_survives(tree.deep_view().nodes, flat.deep_view(), e),
{
    if ev_marked_exec(tree, flat, e, FilterLabel::EXCLUDED) {
        return false;
    }
    if any_included_label_exec(tree) {
        ev_marked_exec(tree, flat, e, FilterLabel::INCLUDED)
    } else {
        true
    }
}

/// Whether object `o` survives the filtering.
fn ob_survives_exec(tree: &BindingBoxTree, flat: &Vec<EvaluationResult>, o: usize) -> (r: bool)
    ensures
        r == ob_survives(tree.deep_view().nodes, flat.deep_view(), o),
{
    if ob_marked_exec(tree, flat, o, FilterLabel::EXCLUDED) {
        return false;
    }
    if any_included_label_exec(tree) {
        ob_marked_exec(tree, flat, o, FilterLabel::INCLUDED)
    } else {
        true
    }
}

/// The surviving relationships of event `e`, as `(qualifier, target id)`.
fn kept_event_rels_exec(
    tree: &BindingBoxTree,
    flat: &Vec<EvaluationResult>,
    log: &IndexedLog,
    e: usize,
) -> (r: Vec<(String, String)>)
    requires
        log.wf(),
        e < log.events@.len(),
    ensures
        r.deep_view() == kept_event_rels(
            tree.deep_view().nodes,
            flat.deep_view(),
            *log,
            e as int,
            0,
        ),
{
    let ghost nodes = tree.deep_view().nodes;
    let ghost fm = flat.deep_view();
    let nr = log.events[e].e2o.len();
    let mut out: Vec<(String, String)> = Vec::new();
    let mut i: usize = 0;
    while i < nr
        invariant
            nr == log.events@[e as int].e2o@.len(),
            e < log.events@.len(),
            log.wf(),
            nodes == tree.deep_view().nodes,
            fm == flat.deep_view(),
            i <= nr,
            out.deep_view() + kept_event_rels(nodes, fm, *log, e as int, i as int)
                =~= kept_event_rels(nodes, fm, *log, e as int, 0),
        decreases nr - i,
    {
        let target = log.events[e].e2o[i].1;
        let survives = if !ev_survives_exec(tree, flat, e) {
            false
        } else if !ob_survives_exec(tree, flat, target) {
            false
        } else {
            let included = if any_included_label_exec(tree) {
                e2o_marked_exec(tree, flat, e, target, &log.events[e].e2o[i].0, FilterLabel::INCLUDED)
            } else {
                true
            };
            if included {
                !e2o_marked_exec(tree, flat, e, target, &log.events[e].e2o[i].0, FilterLabel::EXCLUDED)
            } else {
                false
            }
        };
        proof {
            assert(survives == e2o_rel_survives(nodes, fm, *log, e as int, i as int));
        }
        if survives {
            let ghost o0 = out.deep_view();
            out.push((log.events[e].e2o[i].0.clone(), log.objects[target].id.clone()));
            proof {
                assert(out.deep_view() =~= o0.push(
                    (
                        log.events@[e as int].e2o@[i as int].0@,
                        log.objects@[log.events@[e as int].e2o@[i as int].1 as int].id@,
                    ),
                ));
                assert(out.deep_view() + kept_event_rels(nodes, fm, *log, e as int, i + 1)
                    =~= kept_event_rels(nodes, fm, *log, e as int, 0));
            }
        } else {
            proof {
                assert(out.deep_view() + kept_event_rels(nodes, fm, *log, e as int, i + 1)
                    =~= kept_event_rels(nodes, fm, *log, e as int, 0));
            }
        }
        i = i + 1;
    }
    proof {
        assert(kept_event_rels(nodes, fm, *log, e as int, nr as int) =~= Seq::<
            (Seq<char>, Seq<char>),
        >::empty());
        assert(out.deep_view() =~= kept_event_rels(nodes, fm, *log, e as int, 0));
    }
    out
}

/// The surviving forward relationships of object `src`.
fn kept_object_rels_exec(
    tree: &BindingBoxTree,
    flat: &Vec<EvaluationResult>,
    log: &IndexedLog,
    src: usize,
) -> (r: Vec<(String, String)>)
    requires
        log.wf(),
        src < log.objects@.len(),
    ensures
        r.deep_view() == kept_object_rels(
            tree.deep_view().nodes,
            flat.deep_view(),
            *log,
            src as int,
            0,
        ),
{
    let ghost nodes = tree.deep_view().nodes;
    let ghost fm = flat.deep_view();
    let nr = log.objects[src].o2o.len();
    let mut out: Vec<(String, String)> = Vec::new();
    let mut i: usize = 0;
    while i < nr
        invariant
            nr == log.objects@[src as int].o2o@.len(),
            src < log.objects@.len(),
            log.wf(),
            nodes == tree.deep_view().nodes,
            fm == flat.deep_view(),
            i <= nr,
            out.deep_view() + kept_object_rels(nodes, fm, *log, src as int, i as int)
                =~= kept_object_rels(nodes, fm, *log, src as int, 0),
        decreases nr - i,
    {
        let target = log.objects[src].o2o[i].1;
        let survives = if !ob_survives_exec(tree, flat, src) {
            false
        } else if !ob_survives_exec(tree, flat, target) {
            false
        } else {
            let included = if any_included_label_exec(tree) {
                o2o_marked_exec(
                    tree,
                    flat,
                    src,
                    target,
                    &log.objects[src].o2o[i].0,
                    FilterLabel::INCLUDED,
                )
            } else {
                true
            };
            if included {
                !o2o_marked_exec(
                    tree,
                    flat,
                    src,
                    target,
                    &log.objects[src].o2o[i].0,
                    FilterLabel::EXCLUDED,
                )
            } else {
                false
            }
        };
        proof {
            assert(survives == o2o_rel_survives(nodes, fm, *log, src as int, i as int));
        }
        if survives {
            let ghost o0 = out.deep_view();
            out.push((log.objects[src].o2o[i].0.clone(), log.objects[target].id.clone()));
            proof {
                assert(out.deep_view() =~= o0.push(
                    (
                        log.objects@[src as int].o2o@[i as int].0@,
                        log.objects@[log.objects@[src as int].o2o@[i as int].1 as int].id@,
                    ),
                ));
                assert(out.deep_view() + kept_object_rels(nodes, fm, *log, src as int, i + 1)
                    =~= kept_object_rels(nodes, fm, *log, src as int, 0));
            }
        } else {
            proof {
                assert(out.deep_view() + kept_object_rels(nodes, fm, *log, src as int, i + 1)
                    =~= kept_object_rels(nodes, fm, *log, src as int, 0));
            }
        }
        i = i + 1;
    }
    proof {
        assert(kept_object_rels(nodes, fm, *log, src as int, nr as int) =~= Seq::<
            (Seq<char>, Seq<char>),
        >::empty());
        assert(out.deep_view() =~= kept_object_rels(nodes, fm, *log, src as int, 0));
    }
    out
}

/// Clones an attribute list; the copy has the same models.
pub(crate) fn clone_attributes(
    v: &Vec<(String, crate::values::AttributeValue)>,
) -> (r: Vec<(String, crate::values::AttributeValue)>)
    ensures
        r.deep_view() == v.deep_view(),
{
    let mut out: Vec<(String, crate::values::AttributeValue)> = Vec::new();
    let n = v.len();
    let mut i: usize = 0;
    while i < n
        invariant
            n == v@.len(),
            i <= n,
            out@.len() == i,
            forall|k: int| 0 <= k < i ==> #[trigger] out.deep_view()[k] == v.deep_view()[k],
        decreases n - i,
    {
        let ghost o0 = out.deep_view();
        out.push((v[i].0.clone(), v[i].1.clone()));
        proof {
            assert(out.deep_view()[i as int] == v.deep_view()[i as int]);
            assert forall|k: int| 0 <= k < i + 1 implies #[trigger] out.deep_view()[k]
                == v.deep_view()[k] by {
                if k < i {
                    assert(out.deep_view()[k] == o0[k]);
                }
            }
        }
        i = i + 1;
    }
    proof {
        assert(out.deep_view() =~= v.deep_view());
    }
    out
}

/// Clones a timed attribute list; the copy has the same models.
pub(crate) fn clone_timed_attributes(
    v: &Vec<(String, crate::values::AttributeValue, i64)>,
) -> (r: Vec<(String, crate::values::AttributeValue, i64)>)
    ensures
        r.deep_view() == v.deep_view(),
{
    let mut out: Vec<(String, crate::values::AttributeValue, i64)> = Vec::new();
    let n = v.len();
    let mut i: usize = 0;
    while i < n
        invariant
            n == v@.len(),
            i <= n,
            out@.len() == i,
            forall|k: int| 0 <= k < i ==> #[trigger] out.deep_view()[k] == v.deep_view()[k],
        decreases n - i,
    {
        let ghost o0 = out.deep_view();
        out.push((v[i].0.clone(), v[i].1.clone(), v[i].2));
        proof {
            assert(out.deep_view()[i as int] == v.deep_view()[i as int]);
            assert forall|k: int| 0 <= k < i + 1 implies #[trigger] out.deep_view()[k]
                == v.deep_view()[k] by {
                if k < i {
                    assert(out.deep_view()[k] == o0[k]);
                }
            }
        }
        i = i + 1;
    }
    proof {
        assert(out.deep_view() =~= v.deep_view());
    }
    out
}

/// Evaluates the tree and filters the log by the results: the §-described
/// selection of included-minus-excluded events, objects and relations.
pub fn filter_ocel_box_tree<C: CelEnv>(
    tree: &BindingBoxTree,
    log: &IndexedLog,
    cel: &C,
    max_bindings: usize,
) -> (r: Result<LogInput, EvalError>)
    requires
        log.wf(),
        rooted_acyclic(tree),
    ensures
        match r {
            Ok(out) => exists|
                fm: crate::evaluate::FlatModel,
                sk: bool,
            |
                #[trigger] crate::evaluate::flat_skip_witness(fm, sk) && {
                    &&& filtered_log_matches(out, tree.deep_view().nodes, fm, *log)
                    &&& (tree.nodes@.len() == 0 ==> fm.len() == 0 && sk == false)
                    &&& ((tree.nodes@.len() > 0 && crate::evaluate::tree_programs_free(tree) && sk
                        == false) ==> exists|per: crate::evaluate::PerModel|
                        #[trigger] crate::evaluate::per_witness(per)
                            && crate::evaluate::exact_node_eval(
                            tree,
                            0,
                            crate::evaluate::root_binding_model(),
                            *log,
                            max_bindings,
                            fm,
                            per,
                            tree.nodes@.len() as nat + 1,
                        ))
                },
            Err(_) => !crate::evaluate::tree_programs_free(tree)
                || !crate::evaluate::all_plan_inputs_ok(tree, *log),
        },
{
    let (flat, skipped) = match tree.evaluate(log, cel, max_bindings) {
        Ok(out) => out,
        Err(e) => {
            return Err(e);
        },
    };
    let out = filter_log_from_results(tree, &flat, log);
    proof {
        assert(crate::evaluate::flat_skip_witness(flat.deep_view(), skipped));
    }
    Ok(out)
}

} // verus!
