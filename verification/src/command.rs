//! Top-level commands of the interactive interpreter: meta commands that
//! start with a dot, and the statements everything else is parsed as.

use vstd::prelude::*;
use vstd::string::{StringExecFns, StrSliceExecFns};
use crate::errors::{DbError, SError};
use crate::statement::StatementCommand;
use crate::text::{tag_at, trim};

verus! {

/// Location of the database's base directory.
#[derive(Debug, Clone)]
pub struct DbPath(pub String);

/// A command addressed to the interpreter itself rather than to a table.
#[derive(Debug, Clone)]
pub enum MetaCommand {
    Exit,
    Stats,
    DbPath(DbPath),
}

impl MetaCommand {
    /// Parse a meta command: exactly the text `.exit` is recognised, and
    /// anything else is an unrecognised command.
    pub fn from_str(s: &str) -> (r: SError<MetaCommand>)
        ensures
            r is Ok <==> s@ == ".exit"@,
            r matches Ok(m) ==> m is Exit,
            r matches Err(e) ==> (e matches DbError::UnrecognizedCommand(t) && t@ == s@),
    {
        proof {
            reveal_strlit(".exit");
        }
        let n = s.unicode_len();
        match tag_at(s, 0, ".exit") {
            Some(e) => {
                if e == n {
                    proof {
                        assert(s@ =~= s@.subrange(0, 5));
                    }
                    return Ok(MetaCommand::Exit);
                }
            },
            None => {},
        }
        proof {
            if s@ == ".exit"@ {
                assert(s@.subrange(0, 5) =~= ".exit"@);
            }
        }
        Err(DbError::UnrecognizedCommand(String::from_str(s)))
    }
}

/// One line of input: a meta command or a statement.
#[derive(Debug, Clone)]
pub enum Command {
    Meta(MetaCommand),
    Statement(StatementCommand),
}

impl Command {
    /// Parse one line of input: after trimming, a leading dot means a
    /// meta command, anything else is parsed as a statement.
    pub fn from_str(s: &str) -> (r: SError<Command>)
    {
        let t = trim(s);
        let n = t.unicode_len();
        if n > 0 && t.get_char(0) == '.' {
            return match MetaCommand::from_str(t) {
                Err(e) => Err(e),
                Ok(m) => Ok(Command::Meta(m)),
            };
        }
        match StatementCommand::from_str(t) {
            Err(e) => Err(e),
            Ok(stmt) => Ok(Command::Statement(stmt)),
        }
    }
}

} // verus!
