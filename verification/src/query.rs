//! Query data model: variables, filters, size filters, constraints, binding
//! boxes and the binding-box tree.
//!
//! Each executable type has a ghost model reached through [`DeepView`], with
//! strings as character sequences; the contracts of the evaluator are stated
//! over these models.
use crate::values::LabelValue;
use vstd::prelude::*;

verus! {

/// An event variable of a query; a small integer from the query's own
/// event-variable namespace.
#[derive(Debug, Clone, Copy, PartialEq, Eq, Structural, Hash)]
pub struct EventVariable(pub usize);

/// An object variable of a query; a small integer from the query's own
/// object-variable namespace.
#[derive(Debug, Clone, Copy, PartialEq, Eq, Structural, Hash)]
pub struct ObjectVariable(pub usize);

/// Either an event variable or an object variable.
#[derive(Debug, Clone, Copy, PartialEq, Eq, Structural, Hash)]
pub enum Variable {
    Event(EventVariable),
    Object(ObjectVariable),
}

impl Variable {
    /// The raw number of the variable, without its kind.
    pub fn to_inner(&self) -> (r: usize)
        ensures
            r == self.inner_spec(),
    {
        match self {
            Variable::Event(ev) => ev.0,
            Variable::Object(ov) => ov.0,
        }
    }

    /// The raw number of the variable, without its kind.
    pub open spec fn inner_spec(self) -> usize {
        match self {
            Variable::Event(ev) => ev.0,
            Variable::Object(ov) => ov.0,
        }
    }
}

impl DeepView for EventVariable {
    type V = EventVariable;

    open spec fn deep_view(&self) -> EventVariable {
        *self
    }
}

impl DeepView for ObjectVariable {
    type V = ObjectVariable;

    open spec fn deep_view(&self) -> ObjectVariable {
        *self
    }
}

impl DeepView for Variable {
    type V = Variable;

    open spec fn deep_view(&self) -> Variable {
        *self
    }
}

/// A qualifier restriction on a relationship: `None` is the wildcard.
pub type Qualifier = Option<String>;

/// Ghost model of a [`LabelValue`].
pub enum LabelVal {
    String(Seq<char>),
    Int(i64),
    Float(u64),
    Bool(bool),
    Null,
}

impl DeepView for LabelValue {
    type V = LabelVal;

    open spec fn deep_view(&self) -> LabelVal {
        match self {
            LabelValue::String(s) => LabelVal::String(s@),
            LabelValue::Int(i) => LabelVal::Int(*i),
            LabelValue::Float(f) => LabelVal::Float(*f),
            LabelValue::Bool(b) => LabelVal::Bool(*b),
            LabelValue::Null => LabelVal::Null,
        }
    }
}

impl Clone for LabelValue {
    /// Clones the value; the copy has the same model.
    fn clone(&self) -> (r: Self)
        ensures
            r.deep_view() == self.deep_view(),
    {
        match self {
            LabelValue::String(s) => LabelValue::String(s.clone()),
            LabelValue::Int(i) => LabelValue::Int(*i),
            LabelValue::Float(f) => LabelValue::Float(*f),
            LabelValue::Bool(b) => LabelValue::Bool(*b),
            LabelValue::Null => LabelValue::Null,
        }
    }
}

/// How a variable or relationship takes part in log filtering: kept out of
/// the decision, marked for inclusion, or marked for exclusion.
#[derive(Debug, Clone, Copy, PartialEq, Eq, Structural)]
#[allow(non_camel_case_types)]
pub enum FilterLabel {
    IGNORED,
    INCLUDED,
    EXCLUDED,
}

impl DeepView for FilterLabel {
    type V = FilterLabel;

    open spec fn deep_view(&self) -> FilterLabel {
        *self
    }
}

/// A named label expression: evaluating `cel` yields the value stored under
/// `label` in each produced binding.
#[derive(Debug)]
pub struct LabelFunction {
    pub label: String,
    pub cel: String,
}

/// Ghost model of a [`LabelFunction`].
pub struct LabelFunctionModel {
    pub label: Seq<char>,
    pub cel: Seq<char>,
}

impl DeepView for LabelFunction {
    type V = LabelFunctionModel;

    open spec fn deep_view(&self) -> LabelFunctionModel {
        LabelFunctionModel { label: self.label@, cel: self.cel@ }
    }
}

/// A predicate on a single attribute value.
///
/// Numeric bounds cross-match: an integer value is promoted to the nearest
/// double against `Float` bounds and vice versa, and doubles compare by the
/// IEEE total order. `Float` bounds hold double bit patterns; `Time` bounds
/// hold milliseconds since the epoch.
#[derive(Debug)]
pub enum ValueFilter {
    Float { min: Option<u64>, max: Option<u64> },
    Integer { min: Option<i64>, max: Option<i64> },
    Boolean { is_true: bool },
    String { is_in: Vec<String> },
    Time { from: Option<i64>, to: Option<i64> },
}

/// Ghost model of a [`ValueFilter`].
pub enum ValueFilterModel {
    Float { min: Option<u64>, max: Option<u64> },
    Integer { min: Option<i64>, max: Option<i64> },
    Boolean { is_true: bool },
    String { is_in: Seq<Seq<char>> },
    Time { from: Option<i64>, to: Option<i64> },
}

impl DeepView for ValueFilter {
    type V = ValueFilterModel;

    open spec fn deep_view(&self) -> ValueFilterModel {
        match self {
            ValueFilter::Float { min, max } => ValueFilterModel::Float { min: *min, max: *max },
            ValueFilter::Integer { min, max } => ValueFilterModel::Integer {
                min: *min,
                max: *max,
            },
            ValueFilter::Boolean { is_true } => ValueFilterModel::Boolean { is_true: *is_true },
            ValueFilter::String { is_in } => ValueFilterModel::String { is_in: is_in.deep_view() },
            ValueFilter::Time { from, to } => ValueFilterModel::Time { from: *from, to: *to },
        }
    }
}

/// The point in time at which an object attribute is read.
#[derive(Debug, Clone, Copy, PartialEq, Eq, Structural)]
pub enum ObjectValueFilterTimepoint {
    /// Every timestamped value of the attribute must match.
    Always,
    /// Some timestamped value of the attribute must match.
    Sometime,
    /// The latest value no later than the time of the bound event must match.
    AtEvent { event: EventVariable },
}

impl DeepView for ObjectValueFilterTimepoint {
    type V = ObjectValueFilterTimepoint;

    open spec fn deep_view(&self) -> ObjectValueFilterTimepoint {
        *self
    }
}

/// A pure predicate over a binding and the log.
///
/// `TimeBetweenEvents` bounds are in milliseconds. An embedded expression
/// (`BasicFilterCEL`) carries the variables it references, so that planning
/// needs no expression engine.
#[derive(Debug)]
pub enum Filter {
    /// The bound object is related to the bound event, optionally under the
    /// given qualifier.
    O2E {
        object: ObjectVariable,
        event: EventVariable,
        qualifier: Qualifier,
        filter_label: Option<FilterLabel>,
    },
    /// The first bound object is related to the second, optionally under the
    /// given qualifier.
    O2O {
        object: ObjectVariable,
        other_object: ObjectVariable,
        qualifier: Qualifier,
        filter_label: Option<FilterLabel>,
    },
    /// The time from `from_event` to `to_event` lies within the bounds.
    TimeBetweenEvents {
        from_event: EventVariable,
        to_event: EventVariable,
        min_millis: Option<i64>,
        max_millis: Option<i64>,
    },
    /// Both variables are bound and their indices (or kinds) differ.
    NotEqual { var_1: Variable, var_2: Variable },
    /// An attribute of the bound event matches the value filter.
    EventAttributeValueFilter { event: EventVariable, attribute_name: String, value_filter: ValueFilter },
    /// An attribute of the bound object matches the value filter at the
    /// given point in time.
    ObjectAttributeValueFilter {
        object: ObjectVariable,
        attribute_name: String,
        at_time: ObjectValueFilterTimepoint,
        value_filter: ValueFilter,
    },
    /// An embedded expression evaluated on the binding.
    ///
    /// The variable lists must name every variable the program reads:
    /// nothing checks them against the program text, and the planner's
    /// guarantee that a filter runs only once its variables are bound rests
    /// on them. A caller that omits a read variable gets the program run on
    /// a binding that may not carry it yet.
    BasicFilterCEL { cel: String, event_vars: Vec<EventVariable>, object_vars: Vec<ObjectVariable> },
}

/// Ghost model of a [`Filter`].
pub enum FilterModel {
    O2E {
        object: ObjectVariable,
        event: EventVariable,
        qualifier: Option<Seq<char>>,
        filter_label: Option<FilterLabel>,
    },
    O2O {
        object: ObjectVariable,
        other_object: ObjectVariable,
        qualifier: Option<Seq<char>>,
        filter_label: Option<FilterLabel>,
    },
    TimeBetweenEvents {
        from_event: EventVariable,
        to_event: EventVariable,
        min_millis: Option<i64>,
        max_millis: Option<i64>,
    },
    NotEqual { var_1: Variable, var_2: Variable },
    EventAttributeValueFilter {
        event: EventVariable,
        attribute_name: Seq<char>,
        value_filter: ValueFilterModel,
    },
    ObjectAttributeValueFilter {
        object: ObjectVariable,
        attribute_name: Seq<char>,
        at_time: ObjectValueFilterTimepoint,
        value_filter: ValueFilterModel,
    },
    BasicFilterCEL { cel: Seq<char>, event_vars: Seq<EventVariable>, object_vars: Seq<ObjectVariable> },
}

/// Ghost view of a qualifier: `None` is the wildcard.
pub open spec fn qualifier_view(q: Option<String>) -> Option<Seq<char>> {
    match q {
        Some(s) => Some(s@),
        None => None,
    }
}

impl DeepView for Filter {
    type V = FilterModel;

    open spec fn deep_view(&self) -> FilterModel {
        match self {
            Filter::O2E { object, event, qualifier, filter_label } => FilterModel::O2E {
                object: *object,
                event: *event,
                qualifier: qualifier_view(*qualifier),
                filter_label: *filter_label,
            },
            Filter::O2O { object, other_object, qualifier, filter_label } => FilterModel::O2O {
                object: *object,
                other_object: *other_object,
                qualifier: qualifier_view(*qualifier),
                filter_label: *filter_label,
            },
            Filter::TimeBetweenEvents {
                from_event,
                to_event,
                min_millis,
                max_millis,
            } => FilterModel::TimeBetweenEvents {
                from_event: *from_event,
                to_event: *to_event,
                min_millis: *min_millis,
                max_millis: *max_millis,
            },
            Filter::NotEqual { var_1, var_2 } => FilterModel::NotEqual {
                var_1: *var_1,
                var_2: *var_2,
            },
            Filter::EventAttributeValueFilter {
                event,
                attribute_name,
                value_filter,
            } => FilterModel::EventAttributeValueFilter {
                event: *event,
                attribute_name: attribute_name@,
                value_filter: value_filter.deep_view(),
            },
            Filter::ObjectAttributeValueFilter {
                object,
                attribute_name,
                at_time,
                value_filter,
            } => FilterModel::ObjectAttributeValueFilter {
                object: *object,
                attribute_name: attribute_name@,
                at_time: *at_time,
                value_filter: value_filter.deep_view(),
            },
            Filter::BasicFilterCEL { cel, event_vars, object_vars } => FilterModel::BasicFilterCEL {
                cel: cel@,
                event_vars: event_vars.deep_view(),
                object_vars: object_vars.deep_view(),
            },
        }
    }
}

/// A predicate on the collections of child results of a binding.
#[derive(Debug)]
pub enum SizeFilter {
    /// The named child produced between `min` and `max` bindings.
    NumChilds { child_name: String, min: Option<usize>, max: Option<usize> },
    /// All named children produced the same set of bindings.
    BindingSetEqual { child_names: Vec<String> },
    /// All named `(child, variable)` pairs project to the same value set.
    BindingSetProjectionEqual { child_name_with_var_name: Vec<(String, Variable)> },
    /// The named child binds between `min` and `max` distinct values of the
    /// variable.
    NumChildsProj { child_name: String, var_name: Variable, min: Option<usize>, max: Option<usize> },
    /// An embedded expression over the binding and the child results.
    AdvancedCEL { cel: String },
}

/// Ghost model of a [`SizeFilter`].
pub enum SizeFilterModel {
    NumChilds { child_name: Seq<char>, min: Option<usize>, max: Option<usize> },
    BindingSetEqual { child_names: Seq<Seq<char>> },
    BindingSetProjectionEqual { child_name_with_var_name: Seq<(Seq<char>, Variable)> },
    NumChildsProj { child_name: Seq<char>, var_name: Variable, min: Option<usize>, max: Option<usize> },
    AdvancedCEL { cel: Seq<char> },
}

impl DeepView for SizeFilter {
    type V = SizeFilterModel;

    open spec fn deep_view(&self) -> SizeFilterModel {
        match self {
            SizeFilter::NumChilds { child_name, min, max } => SizeFilterModel::NumChilds {
                child_name: child_name@,
                min: *min,
                max: *max,
            },
            SizeFilter::BindingSetEqual { child_names } => SizeFilterModel::BindingSetEqual {
                child_names: child_names.deep_view(),
            },
            SizeFilter::BindingSetProjectionEqual {
                child_name_with_var_name,
            } => SizeFilterModel::BindingSetProjectionEqual {
                child_name_with_var_name: child_name_with_var_name.deep_view(),
            },
            SizeFilter::NumChildsProj { child_name, var_name, min, max } => SizeFilterModel::NumChildsProj {
                child_name: child_name@,
                var_name: *var_name,
                min: *min,
                max: *max,
            },
            SizeFilter::AdvancedCEL { cel } => SizeFilterModel::AdvancedCEL { cel: cel@ },
        }
    }
}

/// A per-binding constraint: a filter, a size filter, or a boolean
/// combinator over named children.
#[derive(Debug)]
#[allow(non_camel_case_types)]
pub enum Constraint {
    Filter { filter: Filter },
    SizeFilter { filter: SizeFilter },
    /// For-all: every named child has only satisfied bindings.
    SAT { child_names: Vec<String> },
    /// There-exists: every named child has some satisfied binding.
    ANY { child_names: Vec<String> },
    /// No named child has a satisfied binding.
    NOT { child_names: Vec<String> },
    /// Some named child has only satisfied bindings.
    OR { child_names: Vec<String> },
    /// Every named child has only satisfied bindings.
    AND { child_names: Vec<String> },
}

/// Ghost model of a [`Constraint`].
pub enum ConstraintModel {
    Filter { filter: FilterModel },
    SizeFilter { filter: SizeFilterModel },
    SAT { child_names: Seq<Seq<char>> },
    ANY { child_names: Seq<Seq<char>> },
    NOT { child_names: Seq<Seq<char>> },
    OR { child_names: Seq<Seq<char>> },
    AND { child_names: Seq<Seq<char>> },
}

impl DeepView for Constraint {
    type V = ConstraintModel;

    open spec fn deep_view(&self) -> ConstraintModel {
        match self {
            Constraint::Filter { filter } => ConstraintModel::Filter {
                filter: filter.deep_view(),
            },
            Constraint::SizeFilter { filter } => ConstraintModel::SizeFilter {
                filter: filter.deep_view(),
            },
            Constraint::SAT { child_names } => ConstraintModel::SAT {
                child_names: child_names.deep_view(),
            },
            Constraint::ANY { child_names } => ConstraintModel::ANY {
                child_names: child_names.deep_view(),
            },
            Constraint::NOT { child_names } => ConstraintModel::NOT {
                child_names: child_names.deep_view(),
            },
            Constraint::OR { child_names } => ConstraintModel::OR {
                child_names: child_names.deep_view(),
            },
            Constraint::AND { child_names } => ConstraintModel::AND {
                child_names: child_names.deep_view(),
            },
        }
    }
}

/// One query node: newly declared variables with their allowed types, local
/// filters, size filters, constraints, per-variable filter labels and label
/// functions.
#[derive(Debug)]
pub struct BindingBox {
    /// Newly declared event variables with their allowed event types.
    pub new_event_vars: Vec<(EventVariable, Vec<String>)>,
    /// Newly declared object variables with their allowed object types.
    pub new_object_vars: Vec<(ObjectVariable, Vec<String>)>,
    pub filters: Vec<Filter>,
    pub size_filters: Vec<SizeFilter>,
    pub constraints: Vec<Constraint>,
    pub ev_var_labels: Vec<(EventVariable, FilterLabel)>,
    pub ob_var_labels: Vec<(ObjectVariable, FilterLabel)>,
    pub labels: Vec<LabelFunction>,
}

/// Ghost model of a [`BindingBox`].
pub struct BindingBoxModel {
    pub new_event_vars: Seq<(EventVariable, Seq<Seq<char>>)>,
    pub new_object_vars: Seq<(ObjectVariable, Seq<Seq<char>>)>,
    pub filters: Seq<FilterModel>,
    pub size_filters: Seq<SizeFilterModel>,
    pub constraints: Seq<ConstraintModel>,
    pub ev_var_labels: Seq<(EventVariable, FilterLabel)>,
    pub ob_var_labels: Seq<(ObjectVariable, FilterLabel)>,
    pub labels: Seq<LabelFunctionModel>,
}

impl DeepView for BindingBox {
    type V = BindingBoxModel;

    open spec fn deep_view(&self) -> BindingBoxModel {
        BindingBoxModel {
            new_event_vars: self.new_event_vars.deep_view(),
            new_object_vars: self.new_object_vars.deep_view(),
            filters: self.filters.deep_view(),
            size_filters: self.size_filters.deep_view(),
            constraints: self.constraints.deep_view(),
            ev_var_labels: self.ev_var_labels.deep_view(),
            ob_var_labels: self.ob_var_labels.deep_view(),
            labels: self.labels.deep_view(),
        }
    }
}

/// One node of a query tree: a binding box with child node indices, or a
/// boolean combinator over child node indices.
#[derive(Debug)]
#[allow(non_camel_case_types)]
pub enum BindingBoxTreeNode {
    Box(BindingBox, Vec<usize>),
    OR(usize, usize),
    AND(usize, usize),
    NOT(usize),
}

/// Ghost model of a [`BindingBoxTreeNode`].
pub enum TreeNodeModel {
    Box(BindingBoxModel, Seq<usize>),
    OR(usize, usize),
    AND(usize, usize),
    NOT(usize),
}

impl DeepView for BindingBoxTreeNode {
    type V = TreeNodeModel;

    open spec fn deep_view(&self) -> TreeNodeModel {
        match self {
            BindingBoxTreeNode::Box(b, children) => TreeNodeModel::Box(
                b.deep_view(),
                children.deep_view(),
            ),
            BindingBoxTreeNode::OR(c1, c2) => TreeNodeModel::OR(*c1, *c2),
            BindingBoxTreeNode::AND(c1, c2) => TreeNodeModel::AND(*c1, *c2),
            BindingBoxTreeNode::NOT(c) => TreeNodeModel::NOT(*c),
        }
    }
}

/// A query tree: nodes indexed densely, node 0 the root, and names for the
/// parent-to-child edges.
#[derive(Debug)]
pub struct BindingBoxTree {
    pub nodes: Vec<BindingBoxTreeNode>,
    /// `((parent, child), name)` entries naming edges; a missing entry gets
    /// a synthesised name.
    pub edge_names: Vec<((usize, usize), String)>,
}

/// Ghost model of a [`BindingBoxTree`].
pub struct TreeModel {
    pub nodes: Seq<TreeNodeModel>,
    pub edge_names: Seq<((usize, usize), Seq<char>)>,
}

impl DeepView for BindingBoxTree {
    type V = TreeModel;

    open spec fn deep_view(&self) -> TreeModel {
        TreeModel { nodes: self.nodes.deep_view(), edge_names: self.edge_names.deep_view() }
    }
}

/// One step of a plan: bind a variable (from scratch or through a
/// relationship of an already-bound variable) or apply a filter.
#[derive(Debug)]
pub enum BindingStep {
    /// Bind an event variable by scanning its allowed types; the optional
    /// list holds time windows (in milliseconds) against already-bound
    /// reference events.
    BindEv(EventVariable, Option<Vec<(EventVariable, (Option<i64>, Option<i64>))>>),
    /// Bind an object variable by scanning its allowed types.
    BindOb(ObjectVariable),
    /// Bind an object variable through the relationships of a bound event.
    BindObFromEv(ObjectVariable, EventVariable, Qualifier),
    /// Bind an object variable through the relationships of a bound object;
    /// the flag walks the reverse direction.
    BindObFromOb(ObjectVariable, ObjectVariable, Qualifier, bool),
    /// Bind an event variable through the reverse relationships of a bound
    /// object.
    BindEvFromOb(EventVariable, ObjectVariable, Qualifier),
    /// Keep only bindings that pass the filter.
    Filter(Filter),
}

/// Ghost model of a [`BindingStep`].
pub enum BindingStepModel {
    BindEv(EventVariable, Option<Seq<(EventVariable, (Option<i64>, Option<i64>))>>),
    BindOb(ObjectVariable),
    BindObFromEv(ObjectVariable, EventVariable, Option<Seq<char>>),
    BindObFromOb(ObjectVariable, ObjectVariable, Option<Seq<char>>, bool),
    BindEvFromOb(EventVariable, ObjectVariable, Option<Seq<char>>),
    Filter(FilterModel),
}

impl DeepView for BindingStep {
    type V = BindingStepModel;

    open spec fn deep_view(&self) -> BindingStepModel {
        match self {
            BindingStep::BindEv(v, constraints) => BindingStepModel::BindEv(
                *v,
                match constraints {
                    Some(cs) => Some(cs.deep_view()),
                    None => None,
                },
            ),
            BindingStep::BindOb(v) => BindingStepModel::BindOb(*v),
            BindingStep::BindObFromEv(v, from, q) => BindingStepModel::BindObFromEv(
                *v,
                *from,
                qualifier_view(*q),
            ),
            BindingStep::BindObFromOb(v, from, q, reversed) => BindingStepModel::BindObFromOb(
                *v,
                *from,
                qualifier_view(*q),
                *reversed,
            ),
            BindingStep::BindEvFromOb(v, from, q) => BindingStepModel::BindEvFromOb(
                *v,
                *from,
                qualifier_view(*q),
            ),
            BindingStep::Filter(f) => BindingStepModel::Filter(f.deep_view()),
        }
    }
}

/// Why a produced binding is violated rather than satisfied.
#[derive(Debug, Clone, Copy, PartialEq, Eq, Structural)]
pub enum ViolationReason {
    TooFewMatchingEvents(usize),
    TooManyMatchingEvents(usize),
    NoChildrenOfORSatisfied,
    LeftChildOfANDUnsatisfied,
    RightChildOfANDUnsatisfied,
    BothChildrenOfANDUnsatisfied,
    ChildrenOfNOTSatisfied,
    ChildNotSatisfied,
    /// The constraint with the given position in the box failed.
    ConstraintNotSatisfied(usize),
    UnknownChildSet,
}

impl DeepView for ViolationReason {
    type V = ViolationReason;

    open spec fn deep_view(&self) -> ViolationReason {
        *self
    }
}

/// A query-level error: a filter or plan reached a variable that carries no
/// value, or a box declares a type the log does not have.
#[derive(Debug, Clone, Copy, PartialEq, Eq, Structural)]
pub enum EvalError {
    /// A filter read an event variable that is not bound.
    UnboundEventVariable(EventVariable),
    /// A filter read an object variable that is not bound.
    UnboundObjectVariable(ObjectVariable),
    /// A box declares an event type that the log does not have.
    UnknownEventType(EventVariable),
    /// A box declares an object type that the log does not have.
    UnknownObjectType(ObjectVariable),
    /// An embedded expression program failed to compile.
    ExpressionCompile,
    /// A constraint names a child that the node does not have.
    UnknownChild,
}

/// Clones a vector of strings; the copy holds equal strings.
pub fn clone_string_vec(v: &Vec<String>) -> (r: Vec<String>)
    ensures
        r@ == v@,
        r.deep_view() == v.deep_view(),
{
    let mut out: Vec<String> = Vec::new();
    let n = v.len();
    let mut i: usize = 0;
    while i < n
        invariant
            n == v@.len(),
            i <= n,
            out@ == v@.take(i as int),
        decreases n - i,
    {
        out.push(v[i].clone());
        proof {
            assert(out@ =~= v@.take(i + 1));
        }
        i = i + 1;
    }
    proof {
        assert(v@.take(n as int) =~= v@);
    }
    out
}

/// Clones an optional qualifier; the copy has the same view.
pub fn clone_qualifier(q: &Qualifier) -> (r: Qualifier)
    ensures
        qualifier_view(r) == qualifier_view_ref(q),
{
    match q {
        Some(s) => Some(s.clone()),
        None => None,
    }
}

/// Ghost view of a qualifier behind a reference.
pub open spec fn qualifier_view_ref(q: &Option<String>) -> Option<Seq<char>> {
    match q {
        Some(s) => Some(s@),
        None => None,
    }
}

/// Clones a vector of event variables.
pub fn clone_ev_vars(v: &Vec<EventVariable>) -> (r: Vec<EventVariable>)
    ensures
        r@ == v@,
{
    let mut out: Vec<EventVariable> = Vec::new();
    let n = v.len();
    let mut i: usize = 0;
    while i < n
        invariant
            n == v@.len(),
            i <= n,
            out@ == v@.take(i as int),
        decreases n - i,
    {
        out.push(v[i]);
        proof {
            assert(out@ =~= v@.take(i + 1));
        }
        i = i + 1;
    }
    proof {
        assert(v@.take(n as int) =~= v@);
    }
    out
}

/// Clones a vector of object variables.
pub fn clone_ob_vars(v: &Vec<ObjectVariable>) -> (r: Vec<ObjectVariable>)
    ensures
        r@ == v@,
{
    let mut out: Vec<ObjectVariable> = Vec::new();
    let n = v.len();
    let mut i: usize = 0;
    while i < n
        invariant
            n == v@.len(),
            i <= n,
            out@ == v@.take(i as int),
        decreases n - i,
    {
        out.push(v[i]);
        proof {
            assert(out@ =~= v@.take(i + 1));
        }
        i = i + 1;
    }
    proof {
        assert(v@.take(n as int) =~= v@);
    }
    out
}

impl Clone for ValueFilter {
    /// Clones the filter; the copy has the same model.
    fn clone(&self) -> (r: Self)
        ensures
            r.deep_view() == self.deep_view(),
    {
        match self {
            ValueFilter::Float { min, max } => ValueFilter::Float { min: *min, max: *max },
            ValueFilter::Integer { min, max } => ValueFilter::Integer { min: *min, max: *max },
            ValueFilter::Boolean { is_true } => ValueFilter::Boolean { is_true: *is_true },
            ValueFilter::String { is_in } => ValueFilter::String { is_in: clone_string_vec(is_in) },
            ValueFilter::Time { from, to } => ValueFilter::Time { from: *from, to: *to },
        }
    }
}

impl Clone for Filter {
    /// Clones the filter; the copy has the same model.
    fn clone(&self) -> (r: Self)
        ensures
            r.deep_view() == self.deep_view(),
    {
        match self {
            Filter::O2E { object, event, qualifier, filter_label } => Filter::O2E {
                object: *object,
                event: *event,
                qualifier: clone_qualifier(qualifier),
                filter_label: *filter_label,
            },
            Filter::O2O { object, other_object, qualifier, filter_label } => Filter::O2O {
                object: *object,
                other_object: *other_object,
                qualifier: clone_qualifier(qualifier),
                filter_label: *filter_label,
            },
            Filter::TimeBetweenEvents {
                from_event,
                to_event,
                min_millis,
                max_millis,
            } => Filter::TimeBetweenEvents {
                from_event: *from_event,
                to_event: *to_event,
                min_millis: *min_millis,
                max_millis: *max_millis,
            },
            Filter::NotEqual { var_1, var_2 } => Filter::NotEqual { var_1: *var_1, var_2: *var_2 },
            Filter::EventAttributeValueFilter {
                event,
                attribute_name,
                value_filter,
            } => Filter::EventAttributeValueFilter {
                event: *event,
                attribute_name: attribute_name.clone(),
                value_filter: value_filter.clone(),
            },
            Filter::ObjectAttributeValueFilter {
                object,
                attribute_name,
                at_time,
                value_filter,
            } => Filter::ObjectAttributeValueFilter {
                object: *object,
                attribute_name: attribute_name.clone(),
                at_time: *at_time,
                value_filter: value_filter.clone(),
            },
            Filter::BasicFilterCEL { cel, event_vars, object_vars } => Filter::BasicFilterCEL {
                cel: cel.clone(),
                event_vars: clone_ev_vars(event_vars),
                object_vars: clone_ob_vars(object_vars),
            },
        }
    }
}

} // verus!
