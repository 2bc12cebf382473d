//! The errors of statement execution.
use vstd::prelude::*;
use crate::storage::{str_debug, str_debug_text};

verus! {

/// Why a statement could not be executed.
#[derive(Debug)]
pub enum ExecutionError {
    StorageError(String),
    SyntaxError,
    UnsupportedStatement,
    TableNotFound(String),
    ColumnNotFound(String),
}

/// The view of an `ExecutionError`.
pub enum ErrorModel {
    StorageError(Seq<char>),
    SyntaxError,
    UnsupportedStatement,
    TableNotFound(Seq<char>),
    ColumnNotFound(Seq<char>),
}

impl View for ExecutionError {
    type V = ErrorModel;

    open spec fn view(&self) -> ErrorModel {
        match self {
            ExecutionError::StorageError(s) => ErrorModel::StorageError(s@),
            ExecutionError::SyntaxError => ErrorModel::SyntaxError,
            ExecutionError::UnsupportedStatement => ErrorModel::UnsupportedStatement,
            ExecutionError::TableNotFound(s) => ErrorModel::TableNotFound(s@),
            ExecutionError::ColumnNotFound(s) => ErrorModel::ColumnNotFound(s@),
        }
    }
}

/// The error as a user reads it: `Storage error: ...`, `Syntax error`, ...
pub open spec fn error_message_text(e: ErrorModel) -> Seq<char> {
    match e {
        ErrorModel::StorageError(s) => "Storage error: "@ + s,
        ErrorModel::SyntaxError => "Syntax error"@,
        ErrorModel::UnsupportedStatement => "Unsupported statement"@,
        ErrorModel::TableNotFound(t) => "Table not found: "@ + t,
        ErrorModel::ColumnNotFound(c) => "Column not found: "@ + c,
    }
}

/// The error as `{:?}` prints it: `StorageError("...")`, `SyntaxError`, ...
pub open spec fn error_debug_text(e: ErrorModel) -> Seq<char> {
    match e {
        ErrorModel::StorageError(s) => "StorageError("@ + str_debug_text(s) + ")"@,
        ErrorModel::SyntaxError => "SyntaxError"@,
        ErrorModel::UnsupportedStatement => "UnsupportedStatement"@,
        ErrorModel::TableNotFound(t) => "TableNotFound("@ + str_debug_text(t) + ")"@,
        ErrorModel::ColumnNotFound(c) => "ColumnNotFound("@ + str_debug_text(c) + ")"@,
    }
}

impl ExecutionError {
    /// The error as a user reads it.
    pub fn to_message(&self) -> (m: String)
        ensures
            m@ == error_message_text(self@),
    {
        match self {
            ExecutionError::StorageError(s) => {
                let mut m = String::from_str("Storage error: ");
                m.append(s.as_str());
                m
            },
            ExecutionError::SyntaxError => String::from_str("Syntax error"),
            ExecutionError::UnsupportedStatement => String::from_str("Unsupported statement"),
            ExecutionError::TableNotFound(t) => {
                let mut m = String::from_str("Table not found: ");
                m.append(t.as_str());
                m
            },
            ExecutionError::ColumnNotFound(c) => {
                let mut m = String::from_str("Column not found: ");
                m.append(c.as_str());
                m
            },
        }
    }

    /// The error as `{:?}` prints it.
    pub fn debug_text(&self) -> (m: String)
        ensures
            m@ == error_debug_text(self@),
    {
        let (name, inner) = match self {
            ExecutionError::StorageError(s) => ("StorageError(", Some(s)),
            ExecutionError::SyntaxError => { return String::from_str("SyntaxError"); },
            ExecutionError::UnsupportedStatement => { return String::from_str("UnsupportedStatement"); },
            ExecutionError::TableNotFound(t) => ("TableNotFound(", Some(t)),
            ExecutionError::ColumnNotFound(c) => ("ColumnNotFound(", Some(c)),
        };
        let mut m = String::from_str(name);
        match inner {
            Some(s) => {
                let d = str_debug(s.as_str());
                m.append(d.as_str());
            },
            None => {},
        }
        m.append(")");
        m
    }
}

} // verus!
