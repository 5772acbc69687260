//! Ready-made schemas used by tests.

use vstd::prelude::*;
use vstd::string::StringExecFns;
use crate::column::{Column, ColumnType};
use crate::table_definition::{TableDefinition, TableName};

verus! {

/// The example schema `student(name text, age int)`.
pub fn student_table_fixture() -> (r: TableDefinition)
    ensures
        r@.name == "student"@,
        r@.columns.len() == 2,
        r@.columns[0] == ("name"@, ColumnType::Text),
        r@.columns[1] == ("age"@, ColumnType::Int),
{
    let mut columns: Vec<Column> = Vec::new();
    columns.push(Column(String::from_str("name"), ColumnType::Text));
    columns.push(Column(String::from_str("age"), ColumnType::Int));
    let r = TableDefinition { name: TableName(String::from_str("student")), columns };
    proof {
        assert(r@.columns.len() == 2);
        assert(r@.columns[0] == ("name"@, ColumnType::Text));
        assert(r@.columns[1] == ("age"@, ColumnType::Int));
    }
    r
}

} // verus!
