//! Statement commands: the three statements the interpreter understands.

use vstd::prelude::*;
use vstd::string::StrSliceExecFns;
use crate::errors::{DbError, SError};
use crate::insert::InsertStatement;
use crate::select::SelectStatement;
use crate::table_definition::TableDefinition;
use crate::text::{tag_no_case_at, trim};

verus! {

/// A parsed statement: select, insert, or create-table.
#[derive(Debug, Clone)]
pub enum StatementCommand {
    Select(SelectStatement),
    Insert(InsertStatement),
    Create(TableDefinition),
}

/// The three statement kinds, told apart by their leading keyword.
enum CommandType {
    Select,
    Insert,
    Create,
}

impl CommandType {
    /// Which statement the text opens with, ignoring ASCII case and
    /// leading whitespace.
    fn from_str(s: &str) -> (r: SError<CommandType>)
    {
        let t = trim(s);
        match tag_no_case_at(t, 0, "select") {
            Some(_) => {
                return Ok(CommandType::Select);
            },
            None => {},
        }
        match tag_no_case_at(t, 0, "insert") {
            Some(_) => {
                return Ok(CommandType::Insert);
            },
            None => {},
        }
        match tag_no_case_at(t, 0, "create") {
            Some(_) => {
                return Ok(CommandType::Create);
            },
            None => {},
        }
        Err(DbError::StatementError(
            <String as vstd::string::StringExecFns>::from_str("unrecognized statement"),
        ))
    }
}

impl StatementCommand {
    /// Parse one statement: the leading keyword picks the statement
    /// grammar, which then parses the whole text.
    pub fn from_str(s: &str) -> (r: SError<StatementCommand>)
    {
        let command_type = match CommandType::from_str(s) {
            Err(e) => {
                return Err(e);
            },
            Ok(t) => t,
        };
        match command_type {
            CommandType::Select => match SelectStatement::from_str(s) {
                Err(e) => Err(e),
                Ok(stmt) => Ok(StatementCommand::Select(stmt)),
            },
            CommandType::Insert => match InsertStatement::from_str(s) {
                Err(e) => Err(e),
                Ok(stmt) => Ok(StatementCommand::Insert(stmt)),
            },
            CommandType::Create => match TableDefinition::from_str(s) {
                Err(e) => Err(e),
                Ok(stmt) => Ok(StatementCommand::Create(stmt)),
            },
        }
    }
}

} // verus!
