//! Column descriptions: a name paired with one of the two supported column
//! types.

use vstd::prelude::*;
use vstd::string::{StringExecFns, StrSliceExecFns};
use crate::errors::{DbError, SError};
use crate::text::{char_eq_nocase, scan_alnum, skip_spaces, substring, tag_no_case_at};

verus! {

/// The type of a column: a 64-bit signed integer, or text.
#[derive(Debug, Clone, Copy, PartialEq, Eq, Structural, Hash)]
pub enum ColumnType {
    Int,
    Text,
}

impl ColumnType {
    /// Lower-case name of the type, as the statement grammar spells it.
    pub fn kind_name(&self) -> (r: String)
        ensures
            *self is Int ==> r@ == "int"@,
            *self is Text ==> r@ == "text"@,
    {
        match self {
            ColumnType::Int => String::from_str("int"),
            ColumnType::Text => String::from_str("text"),
        }
    }
}

impl ColumnType {
    /// Parse a type name, ignoring ASCII case: the whole text must spell
    /// one of the two supported types; anything else is an unrecognised
    /// column type.
    pub fn from_str(s: &str) -> (r: SError<ColumnType>)
        ensures
            r is Ok <==> (crate::text::text_eq_nocase(s@, "int"@) || crate::text::text_eq_nocase(
                s@,
                "text"@,
            )),
            r matches Ok(t) ==> (t is Int <==> crate::text::text_eq_nocase(s@, "int"@)),
            r matches Err(e) ==> (e matches DbError::UnrecognizedColumnType(t) && t@ == s@),
    {
        proof {
            reveal_strlit("int");
            reveal_strlit("text");
        }
        let n = s.unicode_len();
        match tag_no_case_at(s, 0, "int") {
            Some(e) => {
                if e == n {
                    proof {
                        assert forall|q: int| 0 <= q < s@.len() implies #[trigger] char_eq_nocase(
                            s@[q],
                            "int"@[q],
                        ) by {
                            assert(char_eq_nocase(s@[0 + q], "int"@[q]));
                        }
                        assert(crate::text::text_eq_nocase(s@, "int"@));
                        assert(!crate::text::text_eq_nocase(s@, "text"@));
                    }
                    return Ok(ColumnType::Int);
                }
            },
            None => {},
        }
        match tag_no_case_at(s, 0, "text") {
            Some(e) => {
                if e == n {
                    proof {
                        assert forall|q: int| 0 <= q < s@.len() implies #[trigger] char_eq_nocase(
                            s@[q],
                            "text"@[q],
                        ) by {
                            assert(char_eq_nocase(s@[0 + q], "text"@[q]));
                        }
                        assert(crate::text::text_eq_nocase(s@, "text"@));
                        assert(!crate::text::text_eq_nocase(s@, "int"@));
                    }
                    return Ok(ColumnType::Text);
                }
            },
            None => {},
        }
        proof {
            if crate::text::text_eq_nocase(s@, "int"@) {
                assert forall|q: int| 0 <= q < 3 implies #[trigger] char_eq_nocase(
                    s@[0 + q],
                    "int"@[q],
                ) by {
                    assert(char_eq_nocase(s@[q], "int"@[q]));
                }
                assert(false);
            }
            if crate::text::text_eq_nocase(s@, "text"@) {
                assert forall|q: int| 0 <= q < 4 implies #[trigger] char_eq_nocase(
                    s@[0 + q],
                    "text"@[q],
                ) by {
                    assert(char_eq_nocase(s@[q], "text"@[q]));
                }
                assert(false);
            }
        }
        Err(DbError::UnrecognizedColumnType(String::from_str(s)))
    }

    /// Parse a type keyword at position `from`, ignoring ASCII case.
    pub fn parse_at(s: &str, from: usize) -> (r: Option<(usize, ColumnType)>)
        requires
            from <= s@.len(),
        ensures
            r is Some ==> from < (r->0).0 <= s@.len(),
    {
        match tag_no_case_at(s, from, "int") {
            Some(e) => {
                proof {
                    reveal_strlit("int");
                }
                return Some((e, ColumnType::Int));
            },
            None => {},
        }
        match tag_no_case_at(s, from, "text") {
            Some(e) => {
                proof {
                    reveal_strlit("text");
                }
                return Some((e, ColumnType::Text));
            },
            None => {},
        }
        None
    }
}

/// One column of a schema: its name and its type.
#[derive(Debug, Clone, PartialEq, Eq, Hash)]
pub struct Column(pub String, pub ColumnType);

impl View for Column {
    type V = (Seq<char>, ColumnType);

    open spec fn view(&self) -> (Seq<char>, ColumnType) {
        (self.0@, self.1)
    }
}

impl Column {
    pub fn new(name: &str, column_type: ColumnType) -> (r: Column)
        ensures
            r@ == (name@, column_type),
    {
        Column(String::from_str(name), column_type)
    }

    /// Parse one column description at position `from`: optional spaces,
    /// a name of letters and digits, at least one space, then the type.
    pub fn parse_at(s: &str, from: usize) -> (r: Option<(usize, Column)>)
        requires
            from <= s@.len(),
        ensures
            r is Some ==> from < (r->0).0 <= s@.len(),
    {
        let i1 = skip_spaces(s, from);
        let i2 = scan_alnum(s, i1);
        if i2 == i1 {
            return None;
        }
        let i3 = skip_spaces(s, i2);
        if i3 == i2 {
            return None;
        }
        match ColumnType::parse_at(s, i3) {
            None => None,
            Some((e, t)) => Some((e, Column(substring(s, i1, i2), t))),
        }
    }
}

} // verus!
