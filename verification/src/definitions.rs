//! Names shared by statements and schemas.

use vstd::prelude::*;
use vstd::string::StringExecFns;

verus! {

/// Name of a column, as it appears in statements and in schemas.
#[derive(Debug, Clone, PartialEq, Eq, PartialOrd, Ord, Hash)]
pub struct ColumnName(pub String);

impl View for ColumnName {
    type V = Seq<char>;

    open spec fn view(&self) -> Seq<char> {
        self.0@
    }
}

impl ColumnName {
    /// Build a column name from borrowed text.
    pub fn from(value: &str) -> (r: ColumnName)
        ensures
            r@ == value@,
    {
        ColumnName(String::from_str(value))
    }
}

} // verus!
