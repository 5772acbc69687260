//! Table schemas: a table name and the ordered column list that fixes the
//! on-disk row encoding.

use vstd::prelude::*;
use vstd::string::{StringExecFns, StrSliceExecFns};
use crate::column::{Column, ColumnType};
use crate::errors::{DbError, SError};
use crate::text::{scan_alpha, skip_spaces, substring, tag_at};

verus! {

/// Name of a table: the unique, case-sensitive key of the catalog.
#[derive(Debug, Clone, PartialEq, Eq, PartialOrd, Ord, Hash)]
pub struct TableName(pub String);

impl View for TableName {
    type V = Seq<char>;

    open spec fn view(&self) -> Seq<char> {
        self.0@
    }
}

/// Ghost image of a schema: the name and the (column name, column type)
/// pairs in their authoritative order.
pub struct TableDefV {
    pub name: Seq<char>,
    pub columns: Seq<(Seq<char>, ColumnType)>,
}

/// A table's schema, immutable once registered. Column order is the
/// on-disk column order; every row is encoded with all columns in exactly
/// this order.
#[derive(Debug, Clone, PartialEq, Eq, Hash)]
pub struct TableDefinition {
    pub name: TableName,
    pub columns: Vec<Column>,
}

impl View for TableDefinition {
    type V = TableDefV;

    open spec fn view(&self) -> TableDefV {
        TableDefV { name: self.name@, columns: self.columns@.map_values(|c: Column| c@) }
    }
}

/// First position of a column with this name, if any: lookups by name
/// always mean the first match in schema order.
pub open spec fn spec_col_index(cols: Seq<(Seq<char>, ColumnType)>, name: Seq<char>) -> int
    decreases cols.len(),
{
    if cols.len() == 0 {
        -1
    } else if cols[0].0 == name {
        0
    } else {
        let rest = spec_col_index(cols.drop_first(), name);
        if rest < 0 {
            -1
        } else {
            1 + rest
        }
    }
}

pub open spec fn spec_has_col(cols: Seq<(Seq<char>, ColumnType)>, name: Seq<char>) -> bool {
    spec_col_index(cols, name) >= 0
}

pub proof fn lemma_col_index_bounds(cols: Seq<(Seq<char>, ColumnType)>, name: Seq<char>)
    ensures
        spec_has_col(cols, name) ==> {
            &&& 0 <= spec_col_index(cols, name) < cols.len()
            &&& cols[spec_col_index(cols, name)].0 == name
            &&& forall|j: int|
                0 <= j < spec_col_index(cols, name) ==> (#[trigger] cols[j]).0 != name
        },
        !spec_has_col(cols, name) ==> forall|j: int|
            0 <= j < cols.len() ==> (#[trigger] cols[j]).0 != name,
    decreases cols.len(),
{
    if cols.len() > 0 && cols[0].0 != name {
        lemma_col_index_bounds(cols.drop_first(), name);
        assert(forall|j: int|
            1 <= j < cols.len() ==> #[trigger] cols[j] == cols.drop_first()[j - 1]);
    }
}

/// Parse a parenthesised, comma-separated, nonempty column list at
/// position `from`.
fn parse_columns(s: &str, from: usize) -> (r: Option<(usize, Vec<Column>)>)
    requires
        from <= s@.len(),
    ensures
        r is Some ==> (r->0).0 <= s@.len(),
{
    let mut i: usize = match tag_at(s, from, "(") {
        None => {
            return None;
        },
        Some(i) => i,
    };
    let mut columns: Vec<Column> = Vec::new();
    match Column::parse_at(s, i) {
        None => {
            return None;
        },
        Some((e, c)) => {
            i = e;
            columns.push(c);
        },
    }
    loop
        invariant
            i <= s@.len(),
        decreases s@.len() - i,
    {
        let sep = match tag_at(s, i, ",") {
            None => {
                break ;
            },
            Some(e) => e,
        };
        match Column::parse_at(s, sep) {
            None => {
                break ;
            },
            Some((e, c)) => {
                i = e;
                columns.push(c);
            },
        }
    }
    match tag_at(s, i, ")") {
        None => None,
        Some(e) => Some((e, columns)),
    }
}

impl TableDefinition {
    /// Parse a create-table statement at the start of the input: the
    /// `create table` keywords, the table name (letters only), then the
    /// column list. Whatever follows the list is handed back unread.
    pub fn parse_prefix<'a>(input: &'a str) -> (r: SError<(&'a str, TableDefinition)>)
    {
        let n = input.unicode_len();
        let i0 = match tag_at(input, 0, "create") {
            None => {
                return Err(
                    DbError::StatementError(String::from_str("expected a create statement")),
                );
            },
            Some(i) => i,
        };
        let i1 = skip_spaces(input, i0);
        if i1 == i0 {
            return Err(DbError::StatementError(String::from_str("expected a create statement")));
        }
        let i2 = match tag_at(input, i1, "table") {
            None => {
                return Err(
                    DbError::StatementError(String::from_str("expected a create statement")),
                );
            },
            Some(i) => i,
        };
        let i3 = skip_spaces(input, i2);
        if i3 == i2 {
            return Err(DbError::StatementError(String::from_str("expected a create statement")));
        }
        let i4 = scan_alpha(input, i3);
        if i4 == i3 {
            return Err(DbError::StatementError(String::from_str("expected a table name")));
        }
        let i5 = skip_spaces(input, i4);
        match parse_columns(input, i5) {
            None => Err(DbError::StatementError(String::from_str("expected a column list"))),
            Some((e, columns)) => Ok(
                (
                    input.substring_char(e, n),
                    TableDefinition { name: TableName(substring(input, i3, i4)), columns },
                ),
            ),
        }
    }

    /// Parse a create-table statement, ignoring what follows it.
    pub fn from_str(s: &str) -> (r: SError<TableDefinition>)
    {
        match TableDefinition::parse_prefix(s) {
            Err(e) => Err(e),
            Ok((_, d)) => Ok(d),
        }
    }

    /// Position of the first column with the given name, in schema order.
    pub fn col_index(&self, name: &String) -> (r: Option<usize>)
        ensures
            r is Some <==> spec_has_col(self@.columns, name@),
            r is Some ==> {
                &&& r->0 == spec_col_index(self@.columns, name@)
                &&& 0 <= r->0 < self@.columns.len()
                &&& self@.columns[r->0 as int].0 == name@
            },
    {
        proof {
            lemma_col_index_bounds(self@.columns, name@);
        }
        let n = self.columns.len();
        let mut i: usize = 0;
        while i < n
            invariant
                0 <= i <= n,
                n == self.columns.len(),
                forall|j: int| 0 <= j < i ==> (#[trigger] self@.columns[j]).0 != name@,
            decreases n - i,
        {
            let c = &self.columns[i];
            if c.0 == *name {
                proof {
                    lemma_col_index_bounds(self@.columns, name@);
                    assert(self@.columns[i as int].0 == name@);
                    assert(spec_has_col(self@.columns, name@));
                    assert(spec_col_index(self@.columns, name@) == i as int);
                }
                return Some(i);
            }
            i = i + 1;
        }
        None
    }
}

} // verus!
