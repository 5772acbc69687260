//! Select statements: a table name and the columns to read back.

use vstd::prelude::*;
use vstd::string::{StringExecFns, StrSliceExecFns};
use crate::definitions::ColumnName;
use crate::errors::{DbError, SError};
use crate::table_definition::TableName;
use crate::text::{scan_alnum, skip_blanks, substring, tag_at, tag_no_case_at};

verus! {

/// A parsed select statement: the table to read and the requested columns,
/// in the order the caller wants them back.
#[derive(Debug, Clone, PartialEq, Eq)]
pub struct SelectStatement(pub TableName, pub Vec<ColumnName>);

/// Ghost images of a sequence of column names.
pub open spec fn views_of_names(names: Seq<ColumnName>) -> Seq<Seq<char>> {
    names.map_values(|n: ColumnName| n@)
}

/// Parse the tail of a select statement at position `from`: the `from`
/// keyword (any ASCII case), at least one space, the table name, optional
/// spaces, and the closing semicolon.
fn parse_table_name(s: &str, from: usize) -> (r: Option<String>)
    requires
        from <= s@.len(),
{
    let i0 = match tag_no_case_at(s, from, "from") {
        None => {
            return None;
        },
        Some(i) => i,
    };
    let i1 = skip_blanks(s, i0);
    if i1 == i0 {
        return None;
    }
    let i2 = scan_alnum(s, i1);
    if i2 == i1 {
        return None;
    }
    let i3 = skip_blanks(s, i2);
    match tag_at(s, i3, ";") {
        None => None,
        Some(_) => Some(substring(s, i1, i2)),
    }
}

/// Parse a whole select statement: the `select` keyword, a
/// comma-separated column-name list, at least one space, and the
/// table-name tail.
fn parse_select_statement(s: &str) -> (r: Option<SelectStatement>)
{
    let i0 = match tag_no_case_at(s, 0, "select") {
        None => {
            return None;
        },
        Some(i) => i,
    };
    let mut i = skip_blanks(s, i0);
    let mut columns: Vec<ColumnName> = Vec::new();
    let b0 = scan_alnum(s, i);
    if b0 > i {
        columns.push(ColumnName(substring(s, i, b0)));
        i = b0;
        loop
            invariant
                i <= s@.len(),
            decreases s@.len() - i,
        {
            let a = skip_blanks(s, i);
            let sep = match tag_at(s, a, ",") {
                None => {
                    break ;
                },
                Some(e) => e,
            };
            let b = skip_blanks(s, sep);
            let c = scan_alnum(s, b);
            if c == b {
                break ;
            }
            columns.push(ColumnName(substring(s, b, c)));
            i = c;
        }
    }
    let i1 = skip_blanks(s, i);
    if i1 == i {
        return None;
    }
    match parse_table_name(s, i1) {
        None => None,
        Some(table_name) => Some(SelectStatement(TableName(table_name), columns)),
    }
}

impl SelectStatement {
    /// Parse a select statement; everything after the semicolon is
    /// ignored.
    pub fn from_str(s: &str) -> (r: SError<SelectStatement>)
    {
        match parse_select_statement(s) {
            None => Err(DbError::StatementError(String::from_str("expected a select statement"))),
            Some(stmt) => Ok(stmt),
        }
    }
}

} // verus!
