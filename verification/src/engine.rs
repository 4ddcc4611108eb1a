//! Errors of the query-engine operators and of the integration layer.

use vstd::prelude::*;

use crate::error::GraphError;
use crate::ontology::OntologyError;

verus! {

/// An error that an operator reports to the query engine, by kind.
#[derive(Debug)]
pub enum EngineError {
    /// The operator failed while executing.
    Execution(String),
    /// The query cannot be planned.
    Plan(String),
    /// The request names a feature that is not implemented.
    NotImplemented(String),
}

/// `e` is an execution error with message `msg`.
pub open spec fn is_execution(e: EngineError, msg: Seq<char>) -> bool {
    match e {
        EngineError::Execution(m) => m@ == msg,
        _ => false,
    }
}

/// `e` is a planning error with message `msg`.
pub open spec fn is_plan(e: EngineError, msg: Seq<char>) -> bool {
    match e {
        EngineError::Plan(m) => m@ == msg,
        _ => false,
    }
}

/// `e` is a not-implemented error with message `msg`.
pub open spec fn is_not_implemented(e: EngineError, msg: Seq<char>) -> bool {
    match e {
        EngineError::NotImplemented(m) => m@ == msg,
        _ => false,
    }
}

impl EngineError {
    /// The message of the error.
    pub fn message(&self) -> (r: &str)
        ensures
            r@ == match self {
                EngineError::Execution(m) => m@,
                EngineError::Plan(m) => m@,
                EngineError::NotImplemented(m) => m@,
            },
    {
        match self {
            EngineError::Execution(m) => m.as_str(),
            EngineError::Plan(m) => m.as_str(),
            EngineError::NotImplemented(m) => m.as_str(),
        }
    }
}

/// Errors of the integration layer.
#[derive(Debug)]
pub enum DataFusionError {
    /// Graph error.
    Graph(GraphError),
    /// Ontology error.
    Ontology(OntologyError),
    /// Query-engine error.
    Engine(EngineError),
    /// Plan generation failed.
    PlanGenerationFailed {
        /// Reason for failure.
        reason: String,
    },
    /// Operator execution failed.
    ExecutionFailed {
        /// Operator name.
        operator: String,
        /// Reason for failure.
        reason: String,
    },
}

/// `s` followed by `t`: a helper for building messages.
pub fn concat(s: &str, t: &str) -> (r: String)
    ensures
        r@ == s@ + t@,
{
    let mut r = String::from_str(s);
    r.append(t);
    r
}

} // verus!
