//! A minimal single-node relational data store.
//!
//! A command interpreter accepts create/insert/select statements and routes
//! them to a storage engine that keeps rows in fixed-size binary pages,
//! grouped by table, with a metadata store describing each table's schema.

mod codec;
mod column;
mod command;
mod database;
mod definitions;
mod errors;
mod fixtures;
mod insert;
mod numeric;
mod page;
mod schema_codec;
mod select;
mod statement;
mod table;
mod table_definition;
mod text;
mod vm;

pub use column::{Column, ColumnType};
pub use command::{Command, DbPath, MetaCommand};
pub use database::Database;
pub use definitions::ColumnName;
pub use errors::{BEErrors, BEResult, DbError, SError};
pub use fixtures::student_table_fixture;
pub use schema_codec::{encode_table_definition, parse_table_definition};
pub use insert::{InsertStatement, Value};
pub use page::{Page, Rows, Slot};
pub use select::SelectStatement;
pub use statement::StatementCommand;
pub use table::Table;
pub use table_definition::{TableDefinition, TableName};
pub use vm::{execute, ExecutionResult};
