//! Insert statements: a table name together with the row values to store.

use vstd::prelude::*;
use vstd::string::{StringExecFns, StrSliceExecFns};
use crate::errors::{DbError, SError};
use crate::table_definition::TableName;
use crate::text::{scan_alnum, skip_spaces, skip_ws, substring, tag_at, tag_no_case_at};

verus! {

/// Ghost image of a row value.
pub enum ValueV {
    Named(Seq<char>, Seq<char>),
    Unnamed(Seq<char>),
}

/// One value of a row. The storage engine accepts the name-qualified form;
/// positional values are recognised by the statement grammar but rejected
/// by the engine as not yet supported.
#[derive(Debug, Clone, PartialEq, Eq, PartialOrd, Ord)]
pub enum Value {
    NamedValue(String, String),
    UnnamedValue(String),
}

impl View for Value {
    type V = ValueV;

    open spec fn view(&self) -> ValueV {
        match self {
            Value::NamedValue(n, v) => ValueV::Named(n@, v@),
            Value::UnnamedValue(v) => ValueV::Unnamed(v@),
        }
    }
}

/// Ghost images of a sequence of values.
pub open spec fn views_of_values(vals: Seq<Value>) -> Seq<ValueV> {
    vals.map_values(|v: Value| v@)
}

impl Value {
    pub fn new_named_value(name: &str, value: &str) -> (r: Value)
        ensures
            r@ == ValueV::Named(name@, value@),
    {
        Value::NamedValue(
            <String as vstd::string::StringExecFns>::from_str(name),
            <String as vstd::string::StringExecFns>::from_str(value),
        )
    }

    pub fn new_unnamed_value(value: &str) -> (r: Value)
        ensures
            r@ == ValueV::Unnamed(value@),
    {
        Value::UnnamedValue(<String as vstd::string::StringExecFns>::from_str(value))
    }

    /// The value text, with the column qualification dropped.
    pub fn value(self) -> (r: String)
        ensures
            self@ matches ValueV::Named(_, v) ==> r@ == v,
            self@ matches ValueV::Unnamed(v) ==> r@ == v,
    {
        match self {
            Value::NamedValue(_, value) => value,
            Value::UnnamedValue(value) => value,
        }
    }
}

/// A parsed insert statement: the target table and the row values.
#[derive(Debug, Clone, PartialEq, Eq, PartialOrd, Ord)]
pub struct InsertStatement(pub TableName, pub Vec<Value>);

/// Parse a parenthesised, comma-separated, nonempty list of identifiers
/// at position `from`, skipping leading whitespace.
fn wrapped_at(s: &str, from: usize) -> (r: Option<(usize, Vec<String>)>)
    requires
        from <= s@.len(),
    ensures
        r is Some ==> (r->0).0 <= s@.len(),
{
    let start = skip_ws(s, from);
    let mut i: usize = match tag_at(s, start, "(") {
        None => {
            return None;
        },
        Some(i) => i,
    };
    let mut items: Vec<String> = Vec::new();
    let a0 = skip_spaces(s, i);
    let b0 = scan_alnum(s, a0);
    if b0 == a0 {
        return None;
    }
    items.push(substring(s, a0, b0));
    i = b0;
    loop
        invariant
            i <= s@.len(),
        decreases s@.len() - i,
    {
        let sep = match tag_at(s, i, ",") {
            None => {
                break ;
            },
            Some(e) => e,
        };
        let a = skip_spaces(s, sep);
        let b = scan_alnum(s, a);
        if b == a {
            break ;
        }
        items.push(substring(s, a, b));
        i = b;
    }
    match tag_at(s, i, ")") {
        None => None,
        Some(e) => Some((e, items)),
    }
}

/// Parse the value part of an insert statement at position `from`:
/// either the `values` keyword and one identifier list (positional
/// values), or a column-name list, the `values` keyword, and a value
/// list, paired up by position.
fn parse_value_list(s: &str, from: usize) -> (r: Option<(usize, Vec<Value>)>)
    requires
        from <= s@.len(),
    ensures
        r is Some ==> (r->0).0 <= s@.len(),
{
    let start = skip_ws(s, from);
    match tag_no_case_at(s, start, "values") {
        Some(i2) => {
            let i3 = skip_spaces(s, i2);
            match wrapped_at(s, i3) {
                Some((e, vs)) => {
                    let mut values: Vec<Value> = Vec::new();
                    let m = vs.len();
                    let mut k: usize = 0;
                    while k < m
                        invariant
                            0 <= k <= m,
                            m == vs@.len(),
                        decreases m - k,
                    {
                        values.push(Value::UnnamedValue(vs[k].clone()));
                        k = k + 1;
                    }
                    return Some((e, values));
                },
                None => {},
            }
        },
        None => {},
    }
    let (i2, names) = match wrapped_at(s, start) {
        None => {
            return None;
        },
        Some(r) => r,
    };
    let i3 = skip_spaces(s, i2);
    if i3 == i2 {
        return None;
    }
    let i4 = match tag_no_case_at(s, i3, "values") {
        None => {
            return None;
        },
        Some(e) => e,
    };
    let i5 = skip_spaces(s, i4);
    let (e, vals) = match wrapped_at(s, i5) {
        None => {
            return None;
        },
        Some(r) => r,
    };
    let mut values: Vec<Value> = Vec::new();
    let m = if names.len() < vals.len() {
        names.len()
    } else {
        vals.len()
    };
    let mut k: usize = 0;
    while k < m
        invariant
            0 <= k <= m,
            m <= names@.len(),
            m <= vals@.len(),
        decreases m - k,
    {
        values.push(Value::NamedValue(names[k].clone(), vals[k].clone()));
        k = k + 1;
    }
    Some((e, values))
}

impl InsertStatement {
    /// Parse an insert statement at the start of the input: the `insert
    /// into` keywords (any ASCII case), the table name, then the value
    /// lists. Whatever follows is handed back unread.
    pub fn parse_prefix<'a>(input: &'a str) -> (r: SError<(&'a str, InsertStatement)>)
    {
        let n = input.unicode_len();
        let start = skip_ws(input, 0);
        let i0 = match tag_no_case_at(input, start, "insert") {
            None => {
                return Err(
                    DbError::StatementError(String::from_str("expected an insert statement")),
                );
            },
            Some(i) => i,
        };
        let i1 = skip_spaces(input, i0);
        if i1 == i0 {
            return Err(DbError::StatementError(String::from_str("expected an insert statement")));
        }
        let i2 = match tag_no_case_at(input, i1, "into") {
            None => {
                return Err(
                    DbError::StatementError(String::from_str("expected an insert statement")),
                );
            },
            Some(i) => i,
        };
        let i3 = skip_spaces(input, i2);
        if i3 == i2 {
            return Err(DbError::StatementError(String::from_str("expected an insert statement")));
        }
        let i4 = scan_alnum(input, i3);
        if i4 == i3 {
            return Err(DbError::StatementError(String::from_str("expected a table name")));
        }
        let i5 = skip_spaces(input, i4);
        if i5 == i4 {
            return Err(DbError::StatementError(String::from_str("expected row values")));
        }
        match parse_value_list(input, i5) {
            None => Err(DbError::StatementError(String::from_str("expected row values"))),
            Some((e, values)) => Ok(
                (
                    input.substring_char(e, n),
                    InsertStatement(TableName(substring(input, i3, i4)), values),
                ),
            ),
        }
    }

    /// Parse an insert statement, ignoring what follows it.
    pub fn from_str(s: &str) -> (r: SError<InsertStatement>)
    {
        match InsertStatement::parse_prefix(s) {
            Err(e) => Err(e),
            Ok((_, stmt)) => Ok(stmt),
        }
    }
}

} // verus!
