//! Interface to the embedded expression language.
//!
//! Expression programs reach the evaluator through the [`CelEnv`] trait: a
//! caller supplies an environment that compiles and runs programs against a
//! binding, the named child results and the log. The engine itself promises
//! nothing about what a program returns; every guarantee of the evaluator
//! that depends on expression results is stated for expression-free queries.
use crate::binding::Binding;
use crate::log::IndexedLog;
use crate::query::{EvalError, ViolationReason};
use crate::values::LabelValue;
use vstd::prelude::*;

verus! {

/// The results of the named children of a node: for each edge name, the
/// bindings the child produced, each with its violation reason if any.
pub type ChildResults = Vec<(String, Vec<(Binding, Option<ViolationReason>)>)>;

/// An environment that evaluates embedded expression programs.
///
/// `eval_predicate` returns whether the program evaluates to the boolean
/// `true`; `eval_label` returns the program's value as a label value. A
/// program that fails to compile is reported as an error, which the
/// evaluator surfaces; a program whose run merely goes wrong at runtime
/// counts as false (or null).
pub trait CelEnv {
    /// Whether `cel` evaluates to `true` on the binding, child results and log.
    fn eval_predicate(
        &self,
        cel: &String,
        binding: &Binding,
        child_res: Option<&ChildResults>,
        log: &IndexedLog,
    ) -> Result<bool, EvalError>;

    /// The value of `cel` on the binding, child results and log.
    fn eval_label(
        &self,
        cel: &String,
        binding: &Binding,
        child_res: Option<&ChildResults>,
        log: &IndexedLog,
    ) -> Result<LabelValue, EvalError>;
}

/// The empty expression environment: it compiles nothing, so every program
/// reports a compile failure, as an engine without an expression
/// interpreter must.
pub struct NoCel;

impl CelEnv for NoCel {
    fn eval_predicate(
        &self,
        cel: &String,
        binding: &Binding,
        child_res: Option<&ChildResults>,
        log: &IndexedLog,
    ) -> Result<bool, EvalError> {
        Err(EvalError::ExpressionCompile)
    }

    fn eval_label(
        &self,
        cel: &String,
        binding: &Binding,
        child_res: Option<&ChildResults>,
        log: &IndexedLog,
    ) -> Result<LabelValue, EvalError> {
        Err(EvalError::ExpressionCompile)
    }
}

} // verus!
