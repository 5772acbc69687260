//! Error types of the command layer and of the storage engine, with ghost
//! views so that contracts can state exactly which error an operation
//! returns.

use vstd::prelude::*;
use crate::table_definition::TableName;

verus! {

/// Errors of the command layer: statement text that cannot be understood.
#[derive(Debug, Clone)]
pub enum DbError {
    UnrecognizedCommand(String),
    StatementError(String),
    UnrecognizedColumnType(String),
    IoError(String),
}

pub type SError<T> = Result<T, DbError>;

/// Ghost image of a storage-engine error: the same variants over sequences
/// of characters, so that `ensures` clauses can pin the returned error down.
pub enum BeErrorV {
    DuplicateDefinition(Seq<char>),
    InsertFailed,
    MissingColumn(Seq<char>),
    MismatchedDataType(Seq<char>, Seq<char>, Seq<char>),
    MissingTable(Seq<char>),
    InternalError(Seq<char>),
    IoError(Seq<char>),
    SerializationError(Seq<char>),
}

/// Errors of the storage engine.
#[derive(Debug, Clone)]
pub enum BEErrors {
    /// A schema with this table name is already registered.
    DuplicateDefinition(TableName),
    InsertFailed,
    /// The named column is not part of the table's schema.
    MissingColumn(String),
    /// Column name, expected type name, and the offending text.
    MismatchedDataType(String, String, String),
    /// No table with this name is registered.
    MissingTable(String),
    /// A capacity or invariant violation inside the engine.
    InternalError(String),
    /// A filesystem failure reported by the surrounding process.
    IoError(String),
    /// Schema text on disk that cannot be produced or read back.
    SerializationError(String),
}

impl View for BEErrors {
    type V = BeErrorV;

    open spec fn view(&self) -> BeErrorV {
        match self {
            BEErrors::DuplicateDefinition(n) => BeErrorV::DuplicateDefinition(n@),
            BEErrors::InsertFailed => BeErrorV::InsertFailed,
            BEErrors::MissingColumn(c) => BeErrorV::MissingColumn(c@),
            BEErrors::MismatchedDataType(c, t, v) => BeErrorV::MismatchedDataType(c@, t@, v@),
            BEErrors::MissingTable(n) => BeErrorV::MissingTable(n@),
            BEErrors::InternalError(m) => BeErrorV::InternalError(m@),
            BEErrors::IoError(m) => BeErrorV::IoError(m@),
            BEErrors::SerializationError(m) => BeErrorV::SerializationError(m@),
        }
    }
}

pub type BEResult<T> = Result<T, BEErrors>;

} // verus!
