//! Tables: an append-only sequence of pages. New rows go into the last
//! page while it has a free slot; a fresh page is allocated the moment it
//! has none. Reads fan out over every page, in page order.

use vstd::prelude::*;
use crate::codec::StoredVal;
use crate::column::ColumnType;
use crate::definitions::ColumnName;
use crate::errors::{BEResult, BeErrorV};
use crate::insert::{Value, ValueV, views_of_values};
use crate::page::{Page, Rows, rows_match, spec_write_error, spec_stored_row, spec_read_error,
    spec_rendered_row, HEADER_SIZE, MAX_SLOTS, PAGE_SIZE};
use crate::select::views_of_names;
use crate::table_definition::TableDefinition;

verus! {

/// All rows of a sequence of pages, page by page, in slot order within
/// each page: the table's stable full-scan order.
pub open spec fn table_rows(pages: Seq<Page>) -> Seq<Seq<StoredVal>>
    decreases pages.len(),
{
    if pages.len() == 0 {
        Seq::empty()
    } else {
        table_rows(pages.drop_last()) + pages.last()@
    }
}

/// The bytes of a table's data file: its pages' bytes, page after page,
/// page `k` at byte offset `k * PAGE_SIZE`.
pub open spec fn pages_bytes(pages: Seq<Page>) -> Seq<u8>
    decreases pages.len(),
{
    if pages.len() == 0 {
        Seq::empty()
    } else {
        pages_bytes(pages.drop_last()) + pages.last().bytes()
    }
}

/// These bytes are exactly the data file of the well-formed table `t`,
/// whose rows are shaped like the schema.
pub open spec fn table_stored_in(t: Table, bytes: Seq<u8>, cols: Seq<(Seq<char>, ColumnType)>) -> bool {
    &&& t.wf()
    &&& t.matches(cols)
    &&& bytes == pages_bytes(t.pages@)
}

/// What a flush writes is what recovery accepts: the data file of a
/// well-formed table whose rows are shaped like its schema satisfies the
/// recovery precondition, and so recovers to the same rows.
pub proof fn lemma_flush_is_recoverable(t: Table, cols: Seq<(Seq<char>, ColumnType)>)
    requires
        t.wf(),
        t.matches(cols),
    ensures
        table_stored_in(t, pages_bytes(t.pages@), cols),
{
}

/// A data file is as long as its pages together.
pub proof fn lemma_pages_bytes_len(pages: Seq<Page>)
    requires
        forall|p: int| 0 <= p < pages.len() ==> (#[trigger] pages[p]).bytes().len() == PAGE_SIZE,
    ensures
        pages_bytes(pages).len() == pages.len() * PAGE_SIZE,
    decreases pages.len(),
{
    if pages.len() == 0 {
        assert(0 * PAGE_SIZE == 0) by (nonlinear_arith);
    } else {
        assert(forall|p: int|
            0 <= p < pages.drop_last().len() ==> (#[trigger] pages.drop_last()[p]).bytes().len()
                == PAGE_SIZE);
        lemma_pages_bytes_len(pages.drop_last());
        assert((pages.len() - 1) * PAGE_SIZE + PAGE_SIZE == pages.len() * PAGE_SIZE)
            by (nonlinear_arith);
    }
}

/// Page `k` of a data file lies at its page-indexed offset.
pub proof fn lemma_pages_bytes_index(pages: Seq<Page>, k: int)
    requires
        forall|p: int| 0 <= p < pages.len() ==> (#[trigger] pages[p]).bytes().len() == PAGE_SIZE,
        0 <= k < pages.len(),
    ensures
        pages_bytes(pages).subrange(k * PAGE_SIZE, (k + 1) * PAGE_SIZE) == pages[k].bytes(),
    decreases pages.len(),
{
    lemma_pages_bytes_len(pages);
    lemma_pages_bytes_len(pages.drop_last());
    assert(0 <= k * PAGE_SIZE && (k + 1) * PAGE_SIZE <= pages.len() * PAGE_SIZE)
        by (nonlinear_arith)
        requires
            0 <= k < pages.len(),
            PAGE_SIZE > 0,
    ;
    if k == pages.len() - 1 {
        assert(pages_bytes(pages).subrange(k * PAGE_SIZE, (k + 1) * PAGE_SIZE) =~= pages[k].bytes());
    } else {
        assert(forall|p: int|
            0 <= p < pages.drop_last().len() ==> (#[trigger] pages.drop_last()[p]).bytes().len()
                == PAGE_SIZE);
        lemma_pages_bytes_index(pages.drop_last(), k);
        assert((k + 1) * PAGE_SIZE <= (pages.len() - 1) * PAGE_SIZE) by (nonlinear_arith)
            requires
                k + 1 <= pages.len() - 1,
                PAGE_SIZE > 0,
        ;
        assert(pages_bytes(pages).subrange(k * PAGE_SIZE, (k + 1) * PAGE_SIZE)
            =~= pages_bytes(pages.drop_last()).subrange(k * PAGE_SIZE, (k + 1) * PAGE_SIZE));
        assert(pages.drop_last()[k] == pages[k]);
    }
}

/// Two page sequences with the same contents, page for page, hold the
/// same rows.
pub proof fn lemma_table_rows_congruent(p1: Seq<Page>, p2: Seq<Page>)
    requires
        p1.len() == p2.len(),
        forall|k: int| 0 <= k < p1.len() ==> (#[trigger] p1[k])@ == p2[k]@,
    ensures
        table_rows(p1) == table_rows(p2),
    decreases p1.len(),
{
    if p1.len() > 0 {
        assert(forall|k: int|
            0 <= k < p1.drop_last().len() ==> (#[trigger] p1.drop_last()[k])@
                == p2.drop_last()[k]@);
        lemma_table_rows_congruent(p1.drop_last(), p2.drop_last());
        assert(p1.last()@ == p2.last()@);
    }
}

/// One table's pages, with the page sequence itself append-only.
#[derive(Clone)]
pub struct Table {
    pub pages: Vec<Page>,
}

impl View for Table {
    type V = Seq<Seq<StoredVal>>;

    open spec fn view(&self) -> Seq<Seq<StoredVal>> {
        table_rows(self.pages@)
    }
}

impl Default for Table {
    /// A fresh table holds no pages at all; its first page is allocated
    /// by the first row written.
    fn default() -> (r: Table)
        ensures
            r.wf(),
            r@ == Seq::<Seq<StoredVal>>::empty(),
            r.pages@.len() == 0,
    {
        Table { pages: Vec::new() }
    }
}

/// Outcome of a table write: it lands in the last page while that page
/// has a free slot, and in a fresh page otherwise.
pub open spec fn spec_table_write_error(
    t: Table,
    vals: Seq<ValueV>,
    cols: Seq<(Seq<char>, ColumnType)>,
) -> Option<BeErrorV> {
    if t.pages@.len() > 0 && t.pages@.last()@.len() < MAX_SLOTS {
        spec_write_error(
            t.pages@.last()@.len() as int,
            t.pages@.last().spec_free(),
            vals,
            cols,
        )
    } else {
        spec_write_error(0, HEADER_SIZE as int, vals, cols)
    }
}

impl Table {
    /// Every page of the table satisfies the page invariant.
    pub open spec fn wf(self) -> bool {
        forall|i: int| 0 <= i < self.pages@.len() ==> (#[trigger] self.pages@[i]).wf()
    }

    /// Every row of every page is shaped like the schema.
    pub open spec fn matches(self, cols: Seq<(Seq<char>, ColumnType)>) -> bool {
        forall|i: int| 0 <= i < self.pages@.len() ==> rows_match((#[trigger] self.pages@[i])@, cols)
    }

    /// Store one row: in the last page if it still has a free slot, else
    /// in a newly allocated page appended to the sequence. A row that
    /// does not validate or fit leaves the table exactly as it was.
    pub fn write_row(&mut self, values: Vec<Value>, table_definition: &TableDefinition) -> (r:
        BEResult<()>)
        requires
            old(self).wf(),
            old(self).matches(table_definition@.columns),
        ensures
            final(self).wf(),
            final(self).matches(table_definition@.columns),
            ({
                let vv = views_of_values(values@);
                let cols = table_definition@.columns;
                match r {
                    Ok(_) => {
                        &&& spec_table_write_error(*old(self), vv, cols) is None
                        &&& final(self)@ == old(self)@.push(spec_stored_row(vv, cols))
                        &&& ((old(self).pages@.len() == 0 || old(self).pages@.last()@.len()
                            >= MAX_SLOTS) ==> final(self).pages@.len() == old(self).pages@.len()
                            + 1)
                        &&& ((old(self).pages@.len() > 0 && old(self).pages@.last()@.len()
                            < MAX_SLOTS) ==> final(self).pages@.len() == old(self).pages@.len())
                    },
                    Err(e) => {
                        &&& Some(e@) == spec_table_write_error(*old(self), vv, cols)
                        &&& final(self)@ == old(self)@
                        &&& final(self).pages@.len() == old(self).pages@.len()
                    },
                }
            }),
    {
        let ghost vv = views_of_values(values@);
        let ghost cols = table_definition@.columns;
        let n = self.pages.len();
        if n > 0 {
            let has_slot = match self.pages[n - 1].available_slot_pos() {
                Some(_) => true,
                None => false,
            };
            if has_slot {
                let ghost old_pages = self.pages@;
                let last_page = &mut self.pages[n - 1];
                let res = last_page.write(values, table_definition);
                proof {
                    assert(self.pages@.drop_last() =~= old_pages.drop_last());
                    assert(self.pages@.last() == self.pages@[n - 1]);
                    lemma_table_rows_last(old_pages, self.pages@);
                }
                match res {
                    Ok(_) => {
                        return Ok(());
                    },
                    Err(e) => {
                        return Err(e);
                    },
                }
            }
        }
        let mut page = Page::default();
        match page.write(values, table_definition) {
            Ok(_) => {},
            Err(e) => {
                return Err(e);
            },
        }
        let ghost old_pages = self.pages@;
        self.pages.push(page);
        proof {
            assert(self.pages@.drop_last() =~= old_pages);
            assert(self.pages@.last() == page);
            assert(table_rows(self.pages@) == table_rows(old_pages) + page@);
            assert(page@ =~= Seq::<Seq<StoredVal>>::empty().push(page@.last()));
            assert(table_rows(self.pages@) =~= table_rows(old_pages).push(page@.last()));
        }
        Ok(())
    }

    /// Read the requested columns of every row, page by page, in
    /// insertion order. A table without rows yields an empty result,
    /// whatever columns are asked for; otherwise the read fails exactly
    /// when a requested column name is not in the schema.
    pub fn read_pages(&self, column_names: Vec<ColumnName>, table_definition: &TableDefinition)
        -> (r: BEResult<Rows>)
        requires
            self.wf(),
            self.matches(table_definition@.columns),
        ensures
            ({
                let cols = table_definition@.columns;
                let names = views_of_names(column_names@);
                match r {
                    Ok(rows) => {
                        &&& (self@.len() > 0 ==> spec_read_error(cols, names) is None)
                        &&& rows@.len() == self@.len()
                        &&& forall|q: int|
                            0 <= q < self@.len() ==> views_of_values(#[trigger] rows@[q]@)
                                == spec_rendered_row(self@[q], cols, names)
                    },
                    Err(e) => self@.len() > 0 && Some(e@) == spec_read_error(cols, names),
                }
            }),
    {
        let ghost cols = table_definition@.columns;
        let ghost names = views_of_names(column_names@);
        let n = self.pages.len();
        let mut result: Rows = Vec::new();
        let mut i: usize = 0;
        proof {
            assert(self.pages@.take(0) =~= Seq::<Page>::empty());
        }
        while i < n
            invariant
                0 <= i <= n,
                n == self.pages@.len(),
                self.wf(),
                self.matches(cols),
                cols == table_definition@.columns,
                names == views_of_names(column_names@),
                result@.len() == table_rows(self.pages@.take(i as int)).len(),
                forall|q: int|
                    0 <= q < result@.len() ==> views_of_values(#[trigger] result@[q]@)
                        == spec_rendered_row(
                        table_rows(self.pages@.take(i as int))[q],
                        cols,
                        names,
                    ),
                result@.len() > 0 ==> spec_read_error(cols, names) is None,
            decreases n - i,
        {
            proof {
                lemma_table_rows_take_step(self.pages@, i as int);
            }
            let ghost old_result = result@;
            let page = &self.pages[i];
            match page.read_all_rows(column_names.as_slice(), table_definition) {
                Err(e) => {
                    proof {
                        lemma_table_rows_len_ge(self.pages@, i as int);
                    }
                    return Err(e);
                },
                Ok(None) => {},
                Ok(Some(mut values)) => {
                    let ghost got = values@;
                    result.append(&mut values);
                    proof {
                        assert(result@ =~= old_result + got);
                    }
                },
            }
            i = i + 1;
            proof {
                assert forall|q: int| 0 <= q < result@.len() implies views_of_values(
                    #[trigger] result@[q]@,
                ) == spec_rendered_row(
                    table_rows(self.pages@.take(i as int))[q],
                    cols,
                    names,
                ) by {
                    if q < old_result.len() {
                        assert(result@[q] == old_result[q]);
                        assert(table_rows(self.pages@.take(i as int))[q] == table_rows(
                            self.pages@.take(i as int - 1),
                        )[q]);
                    } else {
                        assert(table_rows(self.pages@.take(i as int))[q] == self.pages@[i as int
                            - 1]@[q - old_result.len()]);
                    }
                }
            }
        }
        proof {
            assert(self.pages@.take(n as int) =~= self.pages@);
        }
        Ok(result)
    }
}

/// Prefixes of the page sequence accumulate rows one page at a time.
proof fn lemma_table_rows_take_step(pages: Seq<Page>, i: int)
    requires
        0 <= i < pages.len(),
    ensures
        table_rows(pages.take(i + 1)) == table_rows(pages.take(i)) + pages[i]@,
{
    assert(pages.take(i + 1).drop_last() =~= pages.take(i));
    assert(pages.take(i + 1).last() == pages[i]);
}

/// A table with any page holding rows has rows.
proof fn lemma_table_rows_len_ge(pages: Seq<Page>, i: int)
    requires
        0 <= i < pages.len(),
    ensures
        table_rows(pages).len() >= pages[i]@.len(),
    decreases pages.len(),
{
    if i == pages.len() - 1 {
        assert(pages[i] == pages.last());
    } else {
        lemma_table_rows_len_ge(pages.drop_last(), i);
        assert(pages.drop_last()[i] == pages[i]);
    }
}

/// Writing into the last page appends its new row at the end of the
/// table's row sequence.
proof fn lemma_table_rows_last(old_pages: Seq<Page>, new_pages: Seq<Page>)
    requires
        old_pages.len() == new_pages.len(),
        old_pages.len() > 0,
        new_pages.drop_last() == old_pages.drop_last(),
    ensures
        table_rows(new_pages) == table_rows(old_pages.drop_last()) + new_pages.last()@,
        table_rows(old_pages) == table_rows(old_pages.drop_last()) + old_pages.last()@,
        new_pages.last()@ == old_pages.last()@.push(new_pages.last()@.last())
            ==> table_rows(new_pages) =~= table_rows(old_pages).push(new_pages.last()@.last()),
{
}

} // verus!
