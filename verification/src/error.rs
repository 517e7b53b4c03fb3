//! The errors that the library reports.

use vstd::prelude::*;
use crate::stream::{slot_text, Slot};
use crate::text::{decimal, push_usize};

verus! {

/// What can go wrong while a dataflow is built or run.
#[derive(Debug)]
pub enum Error {
    /// Two operators claim the same index.
    DuplicateOperator { index: usize, name: String, existing: String },
    /// The regular edges of a graph form a cycle.
    CycleDetected { processed: usize, total: usize },
    /// An edge starts at an operator that the graph does not hold.
    SourceNotRegistered { edge: usize, operator_index: usize },
    /// An edge ends at an operator that the graph does not hold.
    TargetNotRegistered { edge: usize, operator_index: usize },
    /// An edge starts at an output port that its operator does not have.
    SourcePortOutOfRange { edge: usize, port: usize, operator: String, count: usize },
    /// An edge ends at an input port that its operator does not have.
    TargetPortOutOfRange { edge: usize, port: usize, operator: String, count: usize },
    /// Two edges join the same pair of ports.
    DuplicateEdge { source: Slot, target: Slot, position: usize },
    /// A builder was asked for something that it cannot set up.
    InvalidConfig(String),
    /// A graph does not fit the executor that is to run it.
    InvalidGraph(String),
    /// No channel was supplied for an edge.
    MissingFactory { edge_index: usize },
    /// The dataflow was cancelled.
    Cancelled { reason: Option<String> },
    /// An operator reported a failure.
    Operator { operator: String, worker_index: Option<usize>, message: String },
    /// An operator panicked.
    OperatorPanic { operator: String, worker_index: Option<usize>, message: String },
    /// A run was given up after the largest countable number of sweeps.
    SweepLimit,
}

/// What a fallible operation of the library returns.
pub type Result<V> = core::result::Result<V, Error>;

/// The words in which a worker is named, if one is known.
pub open spec fn worker_text(worker_index: Option<usize>) -> Seq<char> {
    match worker_index {
        Some(w) => " (worker "@ + decimal(w as nat) + ")"@,
        None => Seq::empty(),
    }
}

/// The message of an error.
pub open spec fn error_text(e: Error) -> Seq<char> {
    match e {
        Error::DuplicateOperator { index, name, existing } => "Duplicate operator index "@ + decimal(
            index as nat,
        ) + ": '"@ + name@ + "' conflicts with existing '"@ + existing@ + "'"@,
        Error::CycleDetected { processed, total } =>
            "Cycle detected in dataflow graph: processed "@ + decimal(processed as nat) + " of "@
            + decimal(total as nat) + " operators"@,
        Error::SourceNotRegistered { edge, operator_index } => "Edge "@ + decimal(edge as nat)
            + ": source operator "@ + decimal(operator_index as nat) + " is not registered"@,
        Error::TargetNotRegistered { edge, operator_index } => "Edge "@ + decimal(edge as nat)
            + ": target operator "@ + decimal(operator_index as nat) + " is not registered"@,
        Error::SourcePortOutOfRange { edge, port, operator, count } => "Edge "@ + decimal(
            edge as nat,
        ) + ": source port "@ + decimal(port as nat) + " exceeds operator '"@ + operator@
            + "' output count "@ + decimal(count as nat),
        Error::TargetPortOutOfRange { edge, port, operator, count } => "Edge "@ + decimal(
            edge as nat,
        ) + ": target port "@ + decimal(port as nat) + " exceeds operator '"@ + operator@
            + "' input count "@ + decimal(count as nat),
        Error::DuplicateEdge { source, target, position } => "Duplicate edge: "@ + slot_text(source)
            + " → "@ + slot_text(target) + " at position "@ + decimal(position as nat),
        Error::InvalidConfig(message) => "Invalid configuration: "@ + message@,
        Error::InvalidGraph(message) => "Invalid graph: "@ + message@,
        Error::MissingFactory { edge_index } => "No channel factory for edge "@ + decimal(
            edge_index as nat,
        ),
        Error::Cancelled { reason } => match reason {
            Some(r) => "Cancelled: "@ + r@,
            None => "Cancelled"@,
        },
        Error::Operator { operator, worker_index, message } => "Operator '"@ + operator@
            + "' failed"@ + worker_text(worker_index) + ": "@ + message@,
        Error::OperatorPanic { operator, worker_index, message } => "Operator '"@ + operator@
            + "' panicked"@ + worker_text(worker_index) + ": "@ + message@,
        Error::SweepLimit => "Sweep limit reached"@,
    }
}

/// The error with the worker filled in, where an operator error does not name one yet.
pub open spec fn with_worker(e: Error, worker: usize) -> Error {
    match e {
        Error::Operator { operator, worker_index: None, message } => Error::Operator {
            operator,
            worker_index: Some(worker),
            message,
        },
        Error::OperatorPanic { operator, worker_index: None, message } => Error::OperatorPanic {
            operator,
            worker_index: Some(worker),
            message,
        },
        _ => e,
    }
}

fn push_worker(text: &mut String, worker_index: &Option<usize>)
    ensures
        final(text)@ == old(text)@ + worker_text(*worker_index),
{
    match worker_index {
        Some(w) => {
            text.append(" (worker ");
            push_usize(text, *w);
            text.append(")");
            assert(text@ =~= old(text)@ + worker_text(*worker_index));
        },
        None => {
            assert(text@ =~= old(text)@ + worker_text(*worker_index));
        },
    }
}

impl Error {
    /// A failure that the named operator reports.
    pub fn operator(operator: &str, message: &str) -> (e: Self)
        ensures
            e matches Error::Operator { operator: o, worker_index, message: m } && o@ == operator@
                && worker_index is None && m@ == message@,
    {
        Error::Operator {
            operator: operator.to_owned(),
            worker_index: None,
            message: message.to_owned(),
        }
    }

    /// Fills in the worker on which the operator ran, unless one is named already.
    pub fn with_operator_context(self, worker: usize) -> (e: Self)
        ensures
            e == with_worker(self, worker),
    {
        match self {
            Error::Operator { operator, worker_index: None, message } => Error::Operator {
                operator,
                worker_index: Some(worker),
                message,
            },
            Error::OperatorPanic { operator, worker_index: None, message } => Error::OperatorPanic {
                operator,
                worker_index: Some(worker),
                message,
            },
            other => other,
        }
    }

    /// The message of the error.
    pub fn to_text(&self) -> (text: String)
        ensures
            text@ == error_text(*self),
    {
        let mut text = String::new();
        match self {
            Error::DuplicateOperator { index, name, existing } => {
                text.append("Duplicate operator index ");
                push_usize(&mut text, *index);
                text.append(": '");
                text.append(name.as_str());
                text.append("' conflicts with existing '");
                text.append(existing.as_str());
                text.append("'");
            },
            Error::CycleDetected { processed, total } => {
                text.append("Cycle detected in dataflow graph: processed ");
                push_usize(&mut text, *processed);
                text.append(" of ");
                push_usize(&mut text, *total);
                text.append(" operators");
            },
            Error::SourceNotRegistered { edge, operator_index } => {
                text.append("Edge ");
                push_usize(&mut text, *edge);
                text.append(": source operator ");
                push_usize(&mut text, *operator_index);
                text.append(" is not registered");
            },
            Error::TargetNotRegistered { edge, operator_index } => {
                text.append("Edge ");
                push_usize(&mut text, *edge);
                text.append(": target operator ");
                push_usize(&mut text, *operator_index);
                text.append(" is not registered");
            },
            Error::SourcePortOutOfRange { edge, port, operator, count } => {
                text.append("Edge ");
                push_usize(&mut text, *edge);
                text.append(": source port ");
                push_usize(&mut text, *port);
                text.append(" exceeds operator '");
                text.append(operator.as_str());
                text.append("' output count ");
                push_usize(&mut text, *count);
            },
            Error::TargetPortOutOfRange { edge, port, operator, count } => {
                text.append("Edge ");
                push_usize(&mut text, *edge);
                text.append(": target port ");
                push_usize(&mut text, *port);
                text.append(" exceeds operator '");
                text.append(operator.as_str());
                text.append("' input count ");
                push_usize(&mut text, *count);
            },
            Error::DuplicateEdge { source, target, position } => {
                text.append("Duplicate edge: ");
                text.append(source.to_text().as_str());
                text.append(" → ");
                text.append(target.to_text().as_str());
                text.append(" at position ");
                push_usize(&mut text, *position);
            },
            Error::InvalidConfig(message) => {
                text.append("Invalid configuration: ");
                text.append(message.as_str());
            },
            Error::InvalidGraph(message) => {
                text.append("Invalid graph: ");
                text.append(message.as_str());
            },
            Error::MissingFactory { edge_index } => {
                text.append("No channel factory for edge ");
                push_usize(&mut text, *edge_index);
            },
            Error::Cancelled { reason } => match reason {
                Some(r) => {
                    text.append("Cancelled: ");
                    text.append(r.as_str());
                },
                None => {
                    text.append("Cancelled");
                },
            },
            Error::Operator { operator, worker_index, message } => {
                text.append("Operator '");
                text.append(operator.as_str());
                text.append("' failed");
                push_worker(&mut text, worker_index);
                text.append(": ");
                text.append(message.as_str());
            },
            Error::OperatorPanic { operator, worker_index, message } => {
                text.append("Operator '");
                text.append(operator.as_str());
                text.append("' panicked");
                push_worker(&mut text, worker_index);
                text.append(": ");
                text.append(message.as_str());
            },
            Error::SweepLimit => {
                text.append("Sweep limit reached");
            },
        }
        assert(text@ =~= error_text(*self));
        text
    }
}

} // verus!
