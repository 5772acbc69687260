//! The database facade: the catalog mapping table names to schemas and
//! tables, and the operations the execution layer calls. A schema and its
//! empty table are registered together; inserts and selects look the
//! schema up by name and forward to the table.

use vstd::prelude::*;
use crate::codec::StoredVal;
use crate::errors::{BEErrors, BEResult, BeErrorV};
use crate::insert::{InsertStatement, ValueV, views_of_values};
use crate::page::{Page, Rows, distinct_col_names, lemma_page_stored_unique, lemma_wf_page_len,
    page_stored_in, rows_match, spec_read_error, spec_rendered_row, spec_stored_row, PAGE_SIZE};
use crate::select::{SelectStatement, views_of_names};
use crate::table::{Table, lemma_pages_bytes_index, lemma_pages_bytes_len,
    lemma_table_rows_congruent, spec_table_write_error, table_stored_in};
use crate::schema_codec::{canonical_definition_bytes, canonical_definition_text};
use crate::table_definition::{TableDefV, TableDefinition, TableName};

verus! {

/// One catalog entry: a schema and the table holding its rows.
pub struct DbEntry {
    pub definition: TableDefinition,
    pub table: Table,
}

/// The in-memory database: the catalog of all tables.
pub struct Database {
    entries: Vec<DbEntry>,
}

impl Database {
    /// Ghost image of the catalog: schema and rows of each table, in
    /// registration order.
    pub closed spec fn tables(self) -> Seq<(TableDefV, Seq<Seq<StoredVal>>)> {
        self.entries@.map_values(|e: DbEntry| (e.definition@, e.table@))
    }

    /// Position of the table with this name, if registered.
    pub closed spec fn spec_table_index(self, name: Seq<char>) -> int {
        spec_entry_index(self.entries@.map_values(|e: DbEntry| e.definition@.name), name)
    }

    pub open spec fn has_table(self, name: Seq<char>) -> bool {
        self.spec_table_index(name) >= 0
    }

    /// Schema of the named table.
    pub open spec fn schema_of(self, name: Seq<char>) -> TableDefV {
        self.tables()[self.spec_table_index(name)].0
    }

    /// Rows of the named table.
    pub open spec fn rows_of(self, name: Seq<char>) -> Seq<Seq<StoredVal>> {
        self.tables()[self.spec_table_index(name)].1
    }

    /// The catalog invariant: table names are unique, and every table is
    /// well formed with rows shaped like its schema.
    pub closed spec fn wf(self) -> bool {
        &&& forall|i: int, j: int|
            0 <= i < j < self.entries@.len() ==> (#[trigger] self.entries@[i]).definition@.name != (
            #[trigger] self.entries@[j]).definition@.name
        &&& forall|i: int|
            0 <= i < self.entries@.len() ==> {
                &&& (#[trigger] self.entries@[i]).table.wf()
                &&& self.entries@[i].table.matches(self.entries@[i].definition@.columns)
            }
    }

    /// Find the catalog position of a table by name.
    fn table_index(&self, table_name: &TableName) -> (r: Option<usize>)
        ensures
            r is Some <==> self.has_table(table_name@),
            r is Some ==> {
                &&& r->0 == self.spec_table_index(table_name@)
                &&& 0 <= r->0 < self.tables().len()
                &&& self.tables()[r->0 as int].0.name == table_name@
            },
    {
        let ghost names = self.entries@.map_values(|e: DbEntry| e.definition@.name);
        proof {
            lemma_entry_index_bounds(names, table_name@);
        }
        let n = self.entries.len();
        let mut i: usize = 0;
        while i < n
            invariant
                0 <= i <= n,
                n == self.entries@.len(),
                names == self.entries@.map_values(|e: DbEntry| e.definition@.name),
                forall|j: int| 0 <= j < i ==> names[j] != table_name@,
            decreases n - i,
        {
            if self.entries[i].definition.name.0 == table_name.0 {
                proof {
                    lemma_entry_index_bounds(names, table_name@);
                    assert(names[i as int] == table_name@);
                    assert(spec_entry_index(names, table_name@) == i as int);
                }
                return Some(i);
            }
            i = i + 1;
        }
        proof {
            lemma_entry_index_bounds(names, table_name@);
        }
        None
    }

    /// Register a schema, together with a fresh empty table for it, as
    /// one unit. A name already in the catalog is rejected and nothing
    /// changes.
    pub fn add_table_definitions(&mut self, definition: TableDefinition) -> (r: BEResult<()>)
        requires
            old(self).wf(),
        ensures
            final(self).wf(),
            r is Ok <==> !old(self).has_table(definition@.name),
            r is Ok ==> final(self).tables() == old(self).tables().push(
                (definition@, Seq::<Seq<StoredVal>>::empty()),
            ),
            r is Ok ==> {
                &&& final(self).has_table(definition@.name)
                &&& final(self).spec_table_index(definition@.name) == old(self).tables().len()
                &&& final(self).schema_of(definition@.name) == definition@
                &&& final(self).rows_of(definition@.name) == Seq::<Seq<StoredVal>>::empty()
            },
            r matches Err(e) ==> {
                &&& e@ == BeErrorV::DuplicateDefinition(definition@.name)
                &&& final(self).tables() == old(self).tables()
            },
    {
        match self.table_index(&definition.name) {
            Some(_) => Err(BEErrors::DuplicateDefinition(definition.name)),
            None => {
                let ghost old_entries = self.entries@;
                let entry = DbEntry { definition, table: Table::default() };
                self.entries.push(entry);
                proof {
                    assert(self.tables() =~= old(self).tables().push(
                        (entry.definition@, Seq::<Seq<StoredVal>>::empty()),
                    ));
                    let ghost old_names = old_entries.map_values(|e: DbEntry| e.definition@.name);
                    let ghost new_names = self.entries@.map_values(|e: DbEntry| e.definition@.name);
                    assert(new_names =~= old_names.push(entry.definition@.name));
                    lemma_entry_index_bounds(old_names, entry.definition@.name);
                    lemma_entry_index_bounds(new_names, entry.definition@.name);
                    assert(new_names[new_names.len() - 1] == entry.definition@.name);
                    assert(spec_entry_index(new_names, entry.definition@.name) >= 0) by {
                        if spec_entry_index(new_names, entry.definition@.name) < 0 {
                            assert(new_names[new_names.len() - 1] != entry.definition@.name);
                        }
                    }
                    let ghost idx = spec_entry_index(new_names, entry.definition@.name);
                    assert(idx == new_names.len() - 1) by {
                        if idx < new_names.len() - 1 {
                            assert(new_names[idx] == old_names[idx]);
                            assert(old_names[idx] != entry.definition@.name);
                        }
                    }
                    assert(self.spec_table_index(entry.definition@.name) == old(
                        self,
                    ).tables().len());
                    assert forall|i: int, j: int|
                        0 <= i < j < self.entries@.len() implies (#[trigger] self.entries@[i]).definition@.name
                        != (#[trigger] self.entries@[j]).definition@.name by {
                        assert(self.entries@[i] == old_entries[i]);
                        if j == self.entries@.len() - 1 {
                            lemma_entry_index_bounds(old_names, entry.definition@.name);
                            assert(old_names[i] == old_entries[i].definition@.name);
                            assert(old_names[i] != entry.definition@.name);
                            assert(self.entries@[j] == entry);
                        } else {
                            assert(self.entries@[j] == old_entries[j]);
                            assert(old(self).entries@[i].definition@.name != old(
                                self,
                            ).entries@[j].definition@.name);
                        }
                    }
                }
                Ok(())
            },
        }
    }

    /// Store one row in the named table. The schema lookup fails before
    /// anything is touched; a row that does not validate against the
    /// schema or does not fit leaves the database exactly as it was.
    pub fn insert_record(&mut self, insert_statement: InsertStatement) -> (r: BEResult<()>)
        requires
            old(self).wf(),
        ensures
            final(self).wf(),
            ({
                let name = insert_statement.0@;
                let vv = views_of_values(insert_statement.1@);
                if !old(self).has_table(name) {
                    &&& r matches Err(e) && e@ == BeErrorV::MissingTable(name)
                    &&& final(self).tables() == old(self).tables()
                } else {
                    let idx = old(self).spec_table_index(name);
                    let cols = old(self).schema_of(name).columns;
                    match r {
                        Ok(_) => {
                            &&& old(self).spec_insert_error(name, vv) is None
                            &&& final(self).tables() == old(self).tables().update(
                                idx,
                                (
                                    old(self).schema_of(name),
                                    old(self).rows_of(name).push(spec_stored_row(vv, cols)),
                                ),
                            )
                        },
                        Err(e) => {
                            &&& Some(e@) == old(self).spec_insert_error(name, vv)
                            &&& final(self).tables() == old(self).tables()
                        },
                    }
                }
            }),
    {
        let i = match self.table_index(&insert_statement.0) {
            None => {
                return Err(BEErrors::MissingTable(insert_statement.0.0));
            },
            Some(i) => i,
        };
        let ghost old_entries = self.entries@;
        let ghost name = insert_statement.0@;
        let entry = &mut self.entries[i];
        let res = entry.table.write_row(insert_statement.1, &entry.definition);
        proof {
            assert(self.entries@ =~= old_entries.update(i as int, self.entries@[i as int]));
            assert(self.entries@[i as int].definition == old_entries[i as int].definition);
            if res is Ok {
                assert(self.tables() =~= old(self).tables().update(
                    i as int,
                    (
                        old(self).schema_of(name),
                        old(self).rows_of(name).push(
                            spec_stored_row(
                                views_of_values(insert_statement.1@),
                                old(self).schema_of(name).columns,
                            ),
                        ),
                    ),
                ));
            } else {
                assert(self.tables() =~= old(self).tables());
            }
        }
        res
    }

    /// The outcome a row write into the named table would have, given the
    /// state of that table's last page.
    pub closed spec fn spec_insert_error(self, name: Seq<char>, vv: Seq<ValueV>) -> Option<
        BeErrorV,
    > {
        spec_table_write_error(
            self.entries@[self.spec_table_index(name)].table,
            vv,
            self.schema_of(name).columns,
        )
    }

    /// An insert into a registered table reports only capacity and
    /// validation failures: in particular, never a missing table.
    pub proof fn lemma_insert_error_kind(self, name: Seq<char>, vv: Seq<ValueV>)
        ensures
            self.spec_insert_error(name, vv) matches Some(e) ==> crate::page::is_write_error_kind(
                e,
            ),
    {
        let t = self.entries@[self.spec_table_index(name)].table;
        let cols = self.schema_of(name).columns;
        if t.pages@.len() > 0 && t.pages@.last()@.len() < crate::page::MAX_SLOTS {
            crate::page::lemma_write_error_kinds(
                t.pages@.last()@.len() as int,
                t.pages@.last().spec_free(),
                vv,
                cols,
            );
        } else {
            crate::page::lemma_write_error_kinds(0, crate::page::HEADER_SIZE as int, vv, cols);
        }
    }

    /// Read the requested columns of every row of the named table, in
    /// insertion order. The schema lookup fails first; a requested column
    /// name outside the schema fails once the table holds any row.
    pub fn select_records(&self, select_statement: SelectStatement) -> (r: BEResult<Rows>)
        requires
            self.wf(),
        ensures
            ({
                let name = select_statement.0@;
                let names = views_of_names(select_statement.1@);
                if !self.has_table(name) {
                    r matches Err(e) && e@ == BeErrorV::MissingTable(name)
                } else {
                    let cols = self.schema_of(name).columns;
                    let rows = self.rows_of(name);
                    match r {
                        Ok(result) => {
                            &&& (rows.len() > 0 ==> spec_read_error(cols, names) is None)
                            &&& result@.len() == rows.len()
                            &&& forall|q: int|
                                0 <= q < rows.len() ==> views_of_values(#[trigger] result@[q]@)
                                    == spec_rendered_row(rows[q], cols, names)
                        },
                        Err(e) => rows.len() > 0 && Some(e@) == spec_read_error(cols, names),
                    }
                }
            }),
    {
        let i = match self.table_index(&select_statement.0) {
            None => {
                return Err(BEErrors::MissingTable(select_statement.0.0));
            },
            Some(i) => i,
        };
        let entry = &self.entries[i];
        entry.table.read_pages(select_statement.1, &entry.definition)
    }

    /// Look up the schema registered under a table name.
    pub fn get_table_definition(&self, table_name: &TableName) -> (r: BEResult<&TableDefinition>)
        requires
            self.wf(),
        ensures
            r is Ok <==> self.has_table(table_name@),
            r matches Ok(d) ==> d@ == self.schema_of(table_name@),
            r matches Err(e) ==> e@ == BeErrorV::MissingTable(table_name@),
    {
        match self.table_index(table_name) {
            None => Err(BEErrors::MissingTable(table_name.0.clone())),
            Some(i) => Ok(&self.entries[i].definition),
        }
    }
}

impl Database {
    /// Bytes of every page of every table, for the disk layer to write
    /// at each page's index.
    pub closed spec fn spec_data_pages(self) -> Seq<Seq<Seq<u8>>> {
        self.entries@.map_values(
            |e: DbEntry| e.table.pages@.map_values(|p: Page| p.bytes()),
        )
    }

    /// Metadata file payloads, one per registered table, in catalog
    /// order: the table name and the serialized schema.
    pub fn schema_files(&self) -> (r: Vec<(TableName, Vec<u8>)>)
        ensures
            r@.len() == self.tables().len(),
            forall|i: int|
                0 <= i < r@.len() ==> (#[trigger] r@[i]).0@ == self.tables()[i].0.name
                    && r@[i].1@ == crate::schema_codec::spec_definition_file(
                    None,
                    self.tables()[i].0,
                ),
    {
        let n = self.entries.len();
        let mut r: Vec<(TableName, Vec<u8>)> = Vec::new();
        let mut i: usize = 0;
        while i < n
            invariant
                0 <= i <= n,
                n == self.entries@.len(),
                r@.len() == i,
                forall|q: int|
                    0 <= q < i ==> (#[trigger] r@[q]).0@ == self.tables()[q].0.name
                        && r@[q].1@ == crate::schema_codec::spec_definition_file(
                        None,
                        self.tables()[q].0,
                    ),
            decreases n - i,
        {
            let entry = &self.entries[i];
            let text = crate::schema_codec::encode_table_definition(&entry.definition);
            let bytes = text.as_str().as_bytes_vec();
            r.push((TableName(entry.definition.name.0.clone()), bytes));
            i = i + 1;
        }
        r
    }

    /// Data file payloads, one per registered table, in catalog order:
    /// the table name and its pages' bytes, page by page. Page `k`
    /// belongs at byte offset `k * PAGE_SIZE` of the table's data file.
    pub fn data_files(&self) -> (r: Vec<(TableName, Vec<Vec<u8>>)>)
        ensures
            r@.len() == self.tables().len(),
            forall|i: int|
                0 <= i < r@.len() ==> (#[trigger] r@[i]).0@ == self.tables()[i].0.name
                    && r@[i].1@.map_values(|b: Vec<u8>| b@) == self.spec_data_pages()[i],
    {
        let n = self.entries.len();
        let mut r: Vec<(TableName, Vec<Vec<u8>>)> = Vec::new();
        let mut i: usize = 0;
        while i < n
            invariant
                0 <= i <= n,
                n == self.entries@.len(),
                r@.len() == i,
                forall|q: int|
                    0 <= q < i ==> (#[trigger] r@[q]).0@ == self.tables()[q].0.name
                        && r@[q].1@.map_values(|b: Vec<u8>| b@) == self.spec_data_pages()[q],
            decreases n - i,
        {
            let entry = &self.entries[i];
            let m = entry.table.pages.len();
            let mut pages: Vec<Vec<u8>> = Vec::new();
            let mut k: usize = 0;
            while k < m
                invariant
                    0 <= k <= m,
                    m == entry.table.pages@.len(),
                    entry == &self.entries[i as int],
                    i < self.entries@.len(),
                    pages@.len() == k,
                    forall|p: int|
                        0 <= p < k ==> (#[trigger] pages@[p])@ == entry.table.pages@[p].bytes(),
                decreases m - k,
            {
                let page_bytes = entry.table.pages[k].get_data();
                pages.push(vstd::slice::slice_to_vec(page_bytes.as_slice()));
                k = k + 1;
            }
            proof {
                assert(pages@.map_values(|b: Vec<u8>| b@) =~= self.spec_data_pages()[i as int]);
            }
            r.push((TableName(entry.definition.name.0.clone()), pages));
            i = i + 1;
        }
        r
    }

    /// Recover one schema from the bytes of a metadata file, registering
    /// it with a fresh empty table. A successful recovery registers a
    /// schema whose serialization is exactly the file's bytes; and the
    /// bytes a first write left for any plain, unregistered schema are
    /// owed success, registering exactly that schema.
    pub fn load_table_definition(&mut self, bytes: &Vec<u8>) -> (r: BEResult<()>)
        requires
            old(self).wf(),
        ensures
            final(self).wf(),
            r is Err ==> final(self).tables() == old(self).tables(),
            r is Ok ==> exists|d2: TableDefV|
                {
                    &&& #[trigger] canonical_definition_bytes(d2, bytes@)
                    &&& !old(self).has_table(d2.name)
                    &&& final(self).tables() == old(self).tables().push(
                        (d2, Seq::<Seq<StoredVal>>::empty()),
                    )
                },
            forall|d: TableDefV|
                #[trigger] canonical_definition_bytes(d, bytes@) && !old(self).has_table(d.name)
                    ==> {
                    &&& r is Ok
                    &&& final(self).tables() == old(self).tables().push(
                        (d, Seq::<Seq<StoredVal>>::empty()),
                    )
                    &&& final(self).has_table(d.name)
                    &&& final(self).schema_of(d.name) == d
                    &&& final(self).rows_of(d.name) == Seq::<Seq<StoredVal>>::empty()
                },
    {
        let copy = vstd::slice::slice_to_vec(bytes.as_slice());
        let text = match crate::codec::string_from_utf8(copy) {
            None => {
                proof {
                    assert forall|d: TableDefV|
                        canonical_definition_bytes(d, bytes@) && !old(self).has_table(d.name)
                        implies false by {
                        vstd::utf8::encode_utf8_valid_utf8(
                            crate::schema_codec::spec_definition_text(d),
                        );
                    }
                }
                return Err(
                    BEErrors::SerializationError(
                        <String as vstd::string::StringExecFns>::from_str("corrupt schema file"),
                    ),
                );
            },
            Some(t) => t,
        };
        proof {
            assert forall|d: TableDefV|
                canonical_definition_bytes(d, bytes@) implies canonical_definition_text(
                d,
                text@,
            ) by {
                vstd::utf8::encode_utf8_decode_utf8(text@);
                vstd::utf8::encode_utf8_decode_utf8(crate::schema_codec::spec_definition_text(d));
            }
        }
        let definition = match crate::schema_codec::parse_table_definition(text.as_str()) {
            None => {
                proof {
                    assert forall|d: TableDefV|
                        canonical_definition_bytes(d, bytes@) && !old(self).has_table(d.name)
                        implies false by {
                        assert(canonical_definition_text(d, text@));
                    }
                }
                return Err(
                    BEErrors::SerializationError(
                        <String as vstd::string::StringExecFns>::from_str("corrupt schema file"),
                    ),
                );
            },
            Some(d) => d,
        };
        let r = self.add_table_definitions(definition);
        proof {
            if r is Ok {
                assert(canonical_definition_bytes(definition@, bytes@));
            } else {
                assert forall|d: TableDefV|
                    canonical_definition_bytes(d, bytes@) && !old(self).has_table(d.name)
                    implies false by {
                    assert(canonical_definition_text(d, text@));
                    assert(definition@ == d);
                }
            }
            assert forall|d: TableDefV|
                #[trigger] canonical_definition_bytes(d, bytes@) && !old(self).has_table(d.name)
                implies r is Ok && definition@ == d by {
                assert(canonical_definition_text(d, text@));
            }
        }
        r
    }

    /// Recover one table's rows from the bytes of its data file: the
    /// file is split into page-sized blocks and each block is rebuilt as
    /// a page. The schema must already be registered; a file that is not
    /// whole pages, or a block that does not decode, is rejected and the
    /// catalog keeps the table it had.
    pub fn load_table_data(&mut self, table_name: &TableName, bytes: &Vec<u8>) -> (r: BEResult<
        (),
    >)
        requires
            old(self).wf(),
        ensures
            final(self).wf(),
            final(self).tables().len() == old(self).tables().len(),
            forall|i: int|
                0 <= i < final(self).tables().len() ==> (#[trigger] final(self).tables()[i]).0
                    == old(self).tables()[i].0,
            forall|i: int|
                0 <= i < final(self).tables().len() && i != old(self).spec_table_index(
                    table_name@,
                ) ==> #[trigger] final(self).tables()[i] == old(self).tables()[i],
            r is Err ==> final(self).tables() == old(self).tables(),
            !old(self).has_table(table_name@) ==> (r matches Err(e) && e@
                == BeErrorV::MissingTable(table_name@)),
            ({
                let name = table_name@;
                let cols = old(self).schema_of(name).columns;
                (old(self).has_table(name) && distinct_col_names(cols) && (exists|t: Table|
                    #[trigger] table_stored_in(t, bytes@, cols))) ==> {
                    &&& r is Ok
                    &&& forall|t: Table|
                        #[trigger] table_stored_in(t, bytes@, cols) ==> final(self).rows_of(name)
                            == t@
                }
            }),
    {
        let i = match self.table_index(table_name) {
            None => {
                return Err(BEErrors::MissingTable(table_name.0.clone()));
            },
            Some(i) => i,
        };
        let ghost cols = self.entries@[i as int].definition@.columns;
        proof {
            assert(cols == old(self).schema_of(table_name@).columns);
        }
        let ghost has_t = old(self).has_table(table_name@) && distinct_col_names(cols) && (
        exists|t: Table| #[trigger] table_stored_in(t, bytes@, cols));
        let ghost tt: Table = choose|t: Table| #[trigger] table_stored_in(t, bytes@, cols);
        proof {
            if has_t {
                assert forall|p: int| 0 <= p < tt.pages@.len() implies (
                #[trigger] tt.pages@[p]).bytes().len() == PAGE_SIZE by {
                    lemma_wf_page_len(tt.pages@[p]);
                }
                lemma_pages_bytes_len(tt.pages@);
                vstd::arithmetic::div_mod::lemma_mod_multiples_basic(
                    tt.pages@.len() as int,
                    PAGE_SIZE as int,
                );
                vstd::arithmetic::div_mod::lemma_div_by_multiple(
                    tt.pages@.len() as int,
                    PAGE_SIZE as int,
                );
            }
        }
        let total = bytes.len();
        if total % PAGE_SIZE != 0 {
            proof {
                if has_t {
                    assert(false);
                }
            }
            return Err(
                BEErrors::SerializationError(
                    <String as vstd::string::StringExecFns>::from_str("corrupt data file"),
                ),
            );
        }
        let count = total / PAGE_SIZE;
        proof {
            if has_t {
                assert(count == tt.pages@.len());
            }
        }
        let mut pages: Vec<Page> = Vec::new();
        let mut k: usize = 0;
        while k < count
            invariant
                0 <= k <= count,
                count * PAGE_SIZE == bytes@.len(),
                count * PAGE_SIZE <= usize::MAX,
                old(self).wf(),
                old(self).has_table(table_name@),
                self == old(self),
                0 <= i < self.entries@.len(),
                pages@.len() == k,
                forall|p: int| 0 <= p < k ==> (#[trigger] pages@[p]).wf(),
                forall|p: int|
                    0 <= p < k ==> rows_match(
                        (#[trigger] pages@[p])@,
                        self.entries@[i as int].definition@.columns,
                    ),
                cols == self.entries@[i as int].definition@.columns,
                cols == old(self).schema_of(table_name@).columns,
                has_t == (old(self).has_table(table_name@) && distinct_col_names(cols) && (
                exists|t: Table| #[trigger] table_stored_in(t, bytes@, cols))),
                has_t ==> {
                    &&& table_stored_in(tt, bytes@, cols)
                    &&& count == tt.pages@.len()
                    &&& forall|p: int| 0 <= p < k ==> (#[trigger] pages@[p])@ == tt.pages@[p]@
                },
            decreases count - k,
        {
            proof {
                assert((k + 1) * PAGE_SIZE <= count * PAGE_SIZE) by (nonlinear_arith)
                    requires
                        k + 1 <= count,
                        PAGE_SIZE > 0,
                ;
                assert(k * PAGE_SIZE <= count * PAGE_SIZE) by (nonlinear_arith)
                    requires
                        k <= count,
                        PAGE_SIZE > 0,
                ;
                assert(k * PAGE_SIZE + PAGE_SIZE == (k + 1) * PAGE_SIZE) by (nonlinear_arith);
                assert(k * PAGE_SIZE >= 0) by (nonlinear_arith)
                    requires
                        k >= 0,
                        PAGE_SIZE > 0,
                ;
            }
            let chunk = crate::codec::read_bytes_at(bytes, k * PAGE_SIZE, PAGE_SIZE);
            proof {
                if has_t {
                    assert forall|p: int| 0 <= p < tt.pages@.len() implies (
                    #[trigger] tt.pages@[p]).bytes().len() == PAGE_SIZE by {
                        lemma_wf_page_len(tt.pages@[p]);
                    }
                    lemma_pages_bytes_index(tt.pages@, k as int);
                    assert(chunk@ == tt.pages@[k as int].bytes());
                    assert(page_stored_in(tt.pages@[k as int], chunk@, cols));
                }
            }
            let page = match Page::from_bytes(&chunk, &self.entries[i].definition) {
                Err(e) => {
                    proof {
                        if has_t {
                            assert(false);
                        }
                    }
                    return Err(e);
                },
                Ok(p) => p,
            };
            proof {
                if has_t {
                    assert(page@ == tt.pages@[k as int]@);
                }
            }
            pages.push(page);
            k = k + 1;
        }
        let entry = &mut self.entries[i];
        entry.table = Table { pages };
        proof {
            assert(self.entries@ =~= old(self).entries@.update(i as int, self.entries@[i as int]));
            assert(self.entries@[i as int].definition == old(self).entries@[i as int].definition);
            assert forall|q: int| 0 <= q < self.tables().len() implies (
            #[trigger] self.tables()[q]).0 == old(self).tables()[q].0 by {
                if q != i {
                    assert(self.entries@[q] == old(self).entries@[q]);
                }
            }
            assert(self.entries@.map_values(|e: DbEntry| e.definition@.name) =~= old(
                self,
            ).entries@.map_values(|e: DbEntry| e.definition@.name));
            assert(self.spec_table_index(table_name@) == i as int);
            if has_t {
                lemma_table_rows_congruent(
                    self.entries@[i as int].table.pages@,
                    tt.pages@,
                );
                assert(self.rows_of(table_name@) == tt@);
                assert forall|t2: Table|
                    #[trigger] table_stored_in(t2, bytes@, cols) implies self.rows_of(
                    table_name@,
                ) == t2@ by {
                    assert forall|p: int| 0 <= p < t2.pages@.len() implies (
                    #[trigger] t2.pages@[p]).bytes().len() == PAGE_SIZE by {
                        lemma_wf_page_len(t2.pages@[p]);
                    }
                    assert forall|p: int| 0 <= p < tt.pages@.len() implies (
                    #[trigger] tt.pages@[p]).bytes().len() == PAGE_SIZE by {
                        lemma_wf_page_len(tt.pages@[p]);
                    }
                    lemma_pages_bytes_len(t2.pages@);
                    lemma_pages_bytes_len(tt.pages@);
                    assert(t2.pages@.len() * PAGE_SIZE == tt.pages@.len() * PAGE_SIZE);
                    assert(t2.pages@.len() == tt.pages@.len()) by (nonlinear_arith)
                        requires
                            t2.pages@.len() * PAGE_SIZE == tt.pages@.len() * PAGE_SIZE,
                            PAGE_SIZE > 0,
                    ;
                    assert forall|p: int| 0 <= p < t2.pages@.len() implies (
                    #[trigger] t2.pages@[p])@ == tt.pages@[p]@ by {
                        lemma_pages_bytes_index(t2.pages@, p);
                        lemma_pages_bytes_index(tt.pages@, p);
                        let cb = bytes@.subrange(p * PAGE_SIZE, (p + 1) * PAGE_SIZE);
                        assert(page_stored_in(t2.pages@[p], cb, cols));
                        assert(page_stored_in(tt.pages@[p], cb, cols));
                        lemma_page_stored_unique(tt.pages@[p], t2.pages@[p], cb, cols);
                    }
                    lemma_table_rows_congruent(t2.pages@, tt.pages@);
                }
            }
        }
        Ok(())
    }
}

impl Default for Database {
    /// A fresh database with an empty catalog.
    fn default() -> (r: Database)
        ensures
            r.wf(),
            r.tables() == Seq::<(TableDefV, Seq<Seq<StoredVal>>)>::empty(),
    {
        let db = Database { entries: Vec::new() };
        proof {
            assert(db.tables() =~= Seq::<(TableDefV, Seq<Seq<StoredVal>>)>::empty());
        }
        db
    }
}

/// Position of the first occurrence of a name in a list of names.
pub open spec fn spec_entry_index(names: Seq<Seq<char>>, name: Seq<char>) -> int
    decreases names.len(),
{
    if names.len() == 0 {
        -1
    } else if names[0] == name {
        0
    } else {
        let rest = spec_entry_index(names.drop_first(), name);
        if rest < 0 {
            -1
        } else {
            1 + rest
        }
    }
}

proof fn lemma_entry_index_bounds(names: Seq<Seq<char>>, name: Seq<char>)
    ensures
        spec_entry_index(names, name) >= 0 ==> {
            &&& 0 <= spec_entry_index(names, name) < names.len()
            &&& names[spec_entry_index(names, name)] == name
            &&& forall|j: int| 0 <= j < spec_entry_index(names, name) ==> names[j] != name
        },
        spec_entry_index(names, name) < 0 ==> forall|j: int|
            0 <= j < names.len() ==> names[j] != name,
    decreases names.len(),
{
    if names.len() > 0 && names[0] != name {
        lemma_entry_index_bounds(names.drop_first(), name);
        assert(forall|j: int| 1 <= j < names.len() ==> names[j] == names.drop_first()[j - 1]);
    }
}

} // verus!
