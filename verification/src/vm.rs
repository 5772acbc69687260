//! The execution layer: maps parsed statements onto database operations.
//! Select results are returned to the caller, who renders them.

use vstd::prelude::*;
use crate::database::Database;
use crate::errors::{BEResult, BeErrorV};
use crate::insert::views_of_values;
use crate::page::{Rows, spec_read_error, spec_rendered_row, spec_stored_row};
use crate::select::views_of_names;
use crate::statement::StatementCommand;

verus! {

/// What executing a statement produced: the rows of a select, or the
/// bare fact that an insert or a create took effect.
#[derive(Debug, Clone)]
pub enum ExecutionResult {
    SelectResult(Rows),
    InsertResult,
    CreateResult,
}

/// Route one parsed statement to the database operation it names, and
/// hand back what that operation produced.
pub fn execute(db: &mut Database, command: StatementCommand) -> (r: BEResult<ExecutionResult>)
    requires
        old(db).wf(),
    ensures
        final(db).wf(),
        match command {
            StatementCommand::Select(stmt) => {
                let name = stmt.0@;
                let names = views_of_names(stmt.1@);
                &&& final(db).tables() == old(db).tables()
                &&& (!old(db).has_table(name) ==> (r matches Err(e) && e@
                    == BeErrorV::MissingTable(name)))
                &&& (old(db).has_table(name) ==> {
                    let cols = old(db).schema_of(name).columns;
                    let rows = old(db).rows_of(name);
                    match r {
                        Ok(res) => {
                            &&& res matches ExecutionResult::SelectResult(result)
                            &&& result@.len() == rows.len()
                            &&& forall|q: int|
                                0 <= q < rows.len() ==> views_of_values(#[trigger] result@[q]@)
                                    == spec_rendered_row(rows[q], cols, names)
                        },
                        Err(e) => rows.len() > 0 && Some(e@) == spec_read_error(cols, names),
                    }
                })
            },
            StatementCommand::Insert(stmt) => {
                let name = stmt.0@;
                let vv = views_of_values(stmt.1@);
                &&& (!old(db).has_table(name) ==> (r matches Err(e) && e@
                    == BeErrorV::MissingTable(name) && final(db).tables() == old(db).tables()))
                &&& (old(db).has_table(name) ==> {
                    let idx = old(db).spec_table_index(name);
                    let cols = old(db).schema_of(name).columns;
                    match r {
                        Ok(res) => {
                            &&& res is InsertResult
                            &&& old(db).spec_insert_error(name, vv) is None
                            &&& final(db).tables() == old(db).tables().update(
                                idx,
                                (
                                    old(db).schema_of(name),
                                    old(db).rows_of(name).push(spec_stored_row(vv, cols)),
                                ),
                            )
                        },
                        Err(e) => {
                            &&& Some(e@) == old(db).spec_insert_error(name, vv)
                            &&& final(db).tables() == old(db).tables()
                        },
                    }
                })
            },
            StatementCommand::Create(definition) => {
                &&& (r is Ok <==> !old(db).has_table(definition@.name))
                &&& (r matches Ok(res) ==> res is CreateResult && final(db).tables() == old(
                    db,
                ).tables().push((definition@, Seq::empty())))
                &&& (r matches Err(e) ==> e@ == BeErrorV::DuplicateDefinition(definition@.name)
                    && final(db).tables() == old(db).tables())
            },
        },
{
    match command {
        StatementCommand::Select(statement) => match db.select_records(statement) {
            Ok(rows) => Ok(ExecutionResult::SelectResult(rows)),
            Err(e) => Err(e),
        },
        StatementCommand::Insert(statement) => match db.insert_record(statement) {
            Ok(_) => Ok(ExecutionResult::InsertResult),
            Err(e) => Err(e),
        },
        StatementCommand::Create(statement) => match db.add_table_definitions(statement) {
            Ok(_) => Ok(ExecutionResult::CreateResult),
            Err(e) => Err(e),
        },
    }
}

} // verus!
