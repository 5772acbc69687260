//! Fixed-size slotted pages: the in-memory storage of rows. A page is a
//! 4096-byte block. Its first four bytes hold the slot count; the next
//! twenty 4-byte entries hold the byte offset of each stored row; rows are
//! appended to the data region after the header, each value padded to its
//! alignment.

use vstd::prelude::*;
use vstd::utf8::{encode_utf8, encode_utf8_valid_utf8, encode_utf8_decode_utf8};
use crate::codec::{row_encoded, row_end, row_matches, val_encoded, val_end, val_matches,
    spec_align_up, spec_i64_to_u64, spec_u64_to_i64, get_alignment_padding, i64_to_u64,
    u64_to_i64, write_u32_at, write_u64_at, write_bytes_at, read_u32_at, read_u64_at,
    read_bytes_at, string_from_utf8, StoredVal, lemma_row_end_ge, lemma_val_end_ge,
    lemma_row_end_step,
    lemma_row_end_take_all, lemma_row_end_prefix_le, lemma_row_encoded_snoc,
    lemma_row_encoded_index, lemma_row_encoded_frame, lemma_i64_u64_round_trip};
use crate::column::ColumnType;
use crate::definitions::ColumnName;
use crate::errors::{BEErrors, BEResult, BeErrorV};
use crate::insert::{Value, ValueV, views_of_values};
use crate::numeric::{spec_parse_i64, spec_i64_text, parse_i64, format_i64};
use crate::select::views_of_names;
use crate::table_definition::{TableDefinition, spec_col_index, spec_has_col,
    lemma_col_index_bounds};
use vstd::bytes::{spec_u32_from_le_bytes, spec_u64_from_le_bytes, spec_u64_to_le_bytes,
    lemma_auto_spec_u64_to_from_le_bytes};
use vstd::string::StringExecFns;

verus! {

/// Size of one page in bytes.
pub const PAGE_SIZE: usize = 4096;

/// A page holds at most this many rows, whatever byte space remains.
pub const MAX_SLOTS: usize = 20;

/// Bytes taken by the slot count and the twenty slot entries.
pub const HEADER_SIZE: usize = 84;

/// Rows returned by a read: one vector of values per stored row.
pub type Rows = Vec<Vec<Value>>;

/// One slot header entry, pointing at a row's data offset within its page.
#[derive(Debug)]
pub struct Slot(pub u8);

/// Slot count stored in a page's first four bytes.
pub open spec fn spec_slot_count(bytes: Seq<u8>) -> int {
    spec_u32_from_le_bytes(bytes.subrange(0, 4)) as int
}

/// Row offset stored in slot `i` of the page header.
pub open spec fn spec_slot_offset(bytes: Seq<u8>, i: int) -> int {
    spec_u32_from_le_bytes(bytes.subrange(4 + 4 * i, 8 + 4 * i)) as int
}

/// First value with the given column name, in row order; positional
/// values have no name and are never found.
pub open spec fn spec_find_value(vals: Seq<ValueV>, name: Seq<char>) -> Option<Seq<char>>
    decreases vals.len(),
{
    if vals.len() == 0 {
        None
    } else {
        match vals[0] {
            ValueV::Named(n, v) => if n == name {
                Some(v)
            } else {
                spec_find_value(vals.drop_first(), name)
            },
            ValueV::Unnamed(_) => spec_find_value(vals.drop_first(), name),
        }
    }
}

/// First error raised while checking the given values against the schema,
/// in value order: a positional value is not supported; a value's column
/// must exist; a value for an integer column must parse.
pub open spec fn spec_first_value_error(
    vals: Seq<ValueV>,
    cols: Seq<(Seq<char>, ColumnType)>,
) -> Option<BeErrorV>
    decreases vals.len(),
{
    if vals.len() == 0 {
        None
    } else {
        match vals[0] {
            ValueV::Unnamed(_) => Some(
                BeErrorV::InternalError("positional values are not yet supported"@),
            ),
            ValueV::Named(n, v) => if !spec_has_col(cols, n) {
                Some(BeErrorV::MissingColumn(n))
            } else if cols[spec_col_index(cols, n)].1 is Int && spec_parse_i64(v) is None {
                Some(BeErrorV::MismatchedDataType(n, "Int"@, v))
            } else {
                spec_first_value_error(vals.drop_first(), cols)
            },
        }
    }
}

/// First error raised while collecting one value per schema column, in
/// schema order: every column needs a value, and an integer column needs
/// text that parses.
pub open spec fn spec_first_column_error(
    vals: Seq<ValueV>,
    cols: Seq<(Seq<char>, ColumnType)>,
) -> Option<BeErrorV>
    decreases cols.len(),
{
    if cols.len() == 0 {
        None
    } else {
        match spec_find_value(vals, cols[0].0) {
            None => Some(BeErrorV::MissingColumn(cols[0].0)),
            Some(v) => if cols[0].1 is Int && spec_parse_i64(v) is None {
                Some(BeErrorV::MismatchedDataType(cols[0].0, "Int"@, v))
            } else {
                spec_first_column_error(vals, cols.drop_first())
            },
        }
    }
}

/// First validation error of a row against a schema, if any.
pub open spec fn spec_row_error(
    vals: Seq<ValueV>,
    cols: Seq<(Seq<char>, ColumnType)>,
) -> Option<BeErrorV> {
    if spec_first_value_error(vals, cols) is Some {
        spec_first_value_error(vals, cols)
    } else {
        spec_first_column_error(vals, cols)
    }
}

/// The validated row: one stored value per schema column, in schema
/// order, each taken from the first row value naming that column.
/// Meaningful when [`spec_row_error`] is `None`.
pub open spec fn spec_stored_row(
    vals: Seq<ValueV>,
    cols: Seq<(Seq<char>, ColumnType)>,
) -> Seq<StoredVal> {
    Seq::new(
        cols.len(),
        |k: int|
            match cols[k].1 {
                ColumnType::Int => StoredVal::Int(
                    spec_parse_i64(spec_find_value(vals, cols[k].0)->0)->0,
                ),
                ColumnType::Text => StoredVal::Text(spec_find_value(vals, cols[k].0)->0),
            },
    )
}

/// Outcome of a page write: the slot header must have room, the row must
/// validate, and the encoded row must fit in the page's remaining bytes.
pub open spec fn spec_write_error(
    slot_count: int,
    free_offset: int,
    vals: Seq<ValueV>,
    cols: Seq<(Seq<char>, ColumnType)>,
) -> Option<BeErrorV> {
    if slot_count >= MAX_SLOTS {
        Some(BeErrorV::InternalError("No free space in page"@))
    } else if spec_row_error(vals, cols) is Some {
        spec_row_error(vals, cols)
    } else if row_end(free_offset, spec_stored_row(vals, cols)) > PAGE_SIZE {
        Some(BeErrorV::InternalError("No free space in page"@))
    } else {
        None
    }
}

/// The errors a row write can raise: a capacity or validation failure,
/// never a catalog error.
pub open spec fn is_write_error_kind(e: BeErrorV) -> bool {
    ||| e is MissingColumn
    ||| e is MismatchedDataType
    ||| e is InternalError
}

proof fn lemma_fve_kinds(vals: Seq<ValueV>, cols: Seq<(Seq<char>, ColumnType)>)
    ensures
        spec_first_value_error(vals, cols) matches Some(e) ==> is_write_error_kind(e),
    decreases vals.len(),
{
    if vals.len() > 0 {
        lemma_fve_kinds(vals.drop_first(), cols);
    }
}

proof fn lemma_fce_kinds(vals: Seq<ValueV>, cols: Seq<(Seq<char>, ColumnType)>)
    ensures
        spec_first_column_error(vals, cols) matches Some(e) ==> is_write_error_kind(e),
    decreases cols.len(),
{
    if cols.len() > 0 {
        lemma_fce_kinds(vals, cols.drop_first());
    }
}

/// A page write reports capacity and validation failures only: never a
/// missing table, a duplicate definition, or an I/O failure.
pub proof fn lemma_write_error_kinds(
    slot_count: int,
    free_offset: int,
    vals: Seq<ValueV>,
    cols: Seq<(Seq<char>, ColumnType)>,
)
    ensures
        spec_write_error(slot_count, free_offset, vals, cols) matches Some(e)
            ==> is_write_error_kind(e),
{
    lemma_fve_kinds(vals, cols);
    lemma_fce_kinds(vals, cols);
}

/// Text a stored value reads back as: its own characters for text, the
/// canonical decimal text for an integer.
pub open spec fn render_val(v: StoredVal) -> Seq<char> {
    match v {
        StoredVal::Int(x) => spec_i64_text(x as int),
        StoredVal::Text(t) => t,
    }
}

/// The row a read returns: the requested columns in request order, each
/// paired with the stored value of the first schema column of that name.
pub open spec fn spec_rendered_row(
    vals: Seq<StoredVal>,
    cols: Seq<(Seq<char>, ColumnType)>,
    names: Seq<Seq<char>>,
) -> Seq<ValueV> {
    Seq::new(
        names.len(),
        |j: int| ValueV::Named(names[j], render_val(vals[spec_col_index(cols, names[j])])),
    )
}

/// First requested column name that the schema lacks, if any.
pub open spec fn spec_read_error(
    cols: Seq<(Seq<char>, ColumnType)>,
    names: Seq<Seq<char>>,
) -> Option<BeErrorV>
    decreases names.len(),
{
    if names.len() == 0 {
        None
    } else if !spec_has_col(cols, names[0]) {
        Some(BeErrorV::MissingColumn(names[0]))
    } else {
        spec_read_error(cols, names.drop_first())
    }
}

proof fn lemma_fve_none_each(vals: Seq<ValueV>, cols: Seq<(Seq<char>, ColumnType)>, j: int)
    requires
        spec_first_value_error(vals, cols) is None,
        0 <= j < vals.len(),
    ensures
        vals[j] is Named,
        spec_has_col(cols, vals[j]->Named_0),
        cols[spec_col_index(cols, vals[j]->Named_0)].1 is Int ==> spec_parse_i64(
            vals[j]->Named_1,
        ) is Some,
    decreases j,
{
    if j > 0 {
        lemma_fve_none_each(vals.drop_first(), cols, j - 1);
        assert(vals.drop_first()[j - 1] == vals[j]);
    }
}

proof fn lemma_find_value_at(vals: Seq<ValueV>, names: Seq<Seq<char>>, j: int)
    requires
        names.len() == vals.len(),
        forall|q: int|
            0 <= q < vals.len() ==> (#[trigger] vals[q]) is Named && vals[q]->Named_0 == names[q],
        forall|p: int, q: int| 0 <= p < q < names.len() ==> names[p] != names[q],
        0 <= j < vals.len(),
    ensures
        spec_find_value(vals, names[j]) == Some(vals[j]->Named_1),
    decreases j,
{
    if j > 0 {
        assert(vals[0]->Named_0 == names[0]);
        assert(names[0] != names[j]);
        lemma_find_value_at(vals.drop_first(), names.drop_first(), j - 1);
        assert(vals.drop_first()[j - 1] == vals[j]);
        assert(names.drop_first()[j - 1] == names[j]);
    }
}

/// Round-trip law: a valid row written to a table and selected back with
/// its own column list reads back exactly as it was inserted. This holds
/// for text columns always, and for integer columns whose text is the
/// canonical decimal form — the very form a select renders.
pub proof fn lemma_insert_select_round_trip(
    vals: Seq<ValueV>,
    cols: Seq<(Seq<char>, ColumnType)>,
    names: Seq<Seq<char>>,
)
    requires
        spec_row_error(vals, cols) is None,
        names.len() == vals.len(),
        forall|q: int|
            0 <= q < vals.len() ==> (#[trigger] vals[q]) is Named && vals[q]->Named_0 == names[q],
        forall|p: int, q: int| 0 <= p < q < names.len() ==> names[p] != names[q],
        forall|q: int|
            0 <= q < vals.len() && cols[spec_col_index(
                cols,
                #[trigger] names[q],
            )].1 is Int ==> crate::numeric::canonical_i64_text(vals[q]->Named_1),
    ensures
        spec_rendered_row(spec_stored_row(vals, cols), cols, names) == vals,
{
    let stored = spec_stored_row(vals, cols);
    let rendered = spec_rendered_row(stored, cols, names);
    assert forall|j: int| 0 <= j < names.len() implies rendered[j] == vals[j] by {
        lemma_fve_none_each(vals, cols, j);
        lemma_col_index_bounds(cols, names[j]);
        let k = spec_col_index(cols, names[j]);
        assert(cols[k].0 == names[j]);
        lemma_find_value_at(vals, names, j);
        assert(spec_find_value(vals, cols[k].0) == Some(vals[j]->Named_1));
        if cols[k].1 is Int {
            assert(render_val(stored[k]) == spec_i64_text(
                spec_parse_i64(vals[j]->Named_1)->0 as int,
            ));
            assert(spec_i64_text(spec_parse_i64(vals[j]->Named_1)->0 as int)
                == vals[j]->Named_1);
        } else {
            assert(render_val(stored[k]) == vals[j]->Named_1);
        }
    }
    assert(rendered =~= vals);
}

/// No two schema columns share a name.
pub open spec fn distinct_col_names(cols: Seq<(Seq<char>, ColumnType)>) -> bool {
    forall|p: int, q: int|
        0 <= p < q < cols.len() ==> (#[trigger] cols[p]).0 != (#[trigger] cols[q]).0
}

/// The name-qualified values a stored row reads back as when every schema
/// column is requested in schema order: what recovery replays.
pub open spec fn spec_replayed_row(
    vals: Seq<StoredVal>,
    cols: Seq<(Seq<char>, ColumnType)>,
) -> Seq<ValueV> {
    Seq::new(cols.len(), |k: int| ValueV::Named(cols[k].0, render_val(vals[k])))
}

/// Row encodings are injective: two rows of the same shape, encoded over
/// the same bytes at the same offset, hold the same values.
pub proof fn lemma_row_encoding_injective(
    bytes: Seq<u8>,
    off: int,
    v1: Seq<StoredVal>,
    v2: Seq<StoredVal>,
    cols: Seq<(Seq<char>, ColumnType)>,
)
    requires
        0 <= off,
        bytes.len() <= 18446744073709551615,
        row_encoded(bytes, off, v1),
        row_end(off, v1) <= bytes.len(),
        row_encoded(bytes, off, v2),
        row_end(off, v2) <= bytes.len(),
        row_matches(v1, cols),
        row_matches(v2, cols),
    ensures
        v1 == v2,
    decreases v1.len(),
{
    if v1.len() == 0 {
        assert(v1 =~= v2);
    } else {
        let a = spec_align_up(off);
        proof_row_head_bounds(off, v1, bytes.len() as int);
        proof_row_head_bounds(off, v2, bytes.len() as int);
        assert(val_matches(v1[0], cols[0].1));
        assert(val_matches(v2[0], cols[0].1));
        lemma_auto_spec_u64_to_from_le_bytes();
        match cols[0].1 {
            ColumnType::Int => {
                let x1 = v1[0]->Int_0;
                let x2 = v2[0]->Int_0;
                assert(spec_u64_to_le_bytes(spec_i64_to_u64(x1)) == spec_u64_to_le_bytes(
                    spec_i64_to_u64(x2),
                ));
                assert(spec_i64_to_u64(x1) == spec_i64_to_u64(x2));
                lemma_i64_u64_round_trip(x1);
                lemma_i64_u64_round_trip(x2);
                assert(v1[0] == v2[0]);
            },
            ColumnType::Text => {
                let t1 = v1[0]->Text_0;
                let t2 = v2[0]->Text_0;
                let tb1 = encode_utf8(t1);
                let tb2 = encode_utf8(t2);
                assert(spec_u64_to_le_bytes(tb1.len() as u64) == spec_u64_to_le_bytes(
                    tb2.len() as u64,
                ));
                assert(tb1.len() as u64 == tb2.len() as u64);
                assert(a + 8 + tb1.len() <= bytes.len());
                assert(a + 8 + tb2.len() <= bytes.len());
                assert(tb1.len() == tb2.len());
                assert(tb1 == bytes.subrange(a + 8, a + 8 + tb1.len()));
                assert(tb2 == bytes.subrange(a + 8, a + 8 + tb2.len()));
                assert(tb1 == tb2);
                encode_utf8_decode_utf8(t1);
                encode_utf8_decode_utf8(t2);
                assert(t1 == t2);
                assert(v1[0] == v2[0]);
            },
        }
        assert(val_end(off, v1[0]) == val_end(off, v2[0]));
        assert forall|i: int| 0 <= i < v1.drop_first().len() implies val_matches(
            #[trigger] v1.drop_first()[i],
            cols.drop_first()[i].1,
        ) by {
            assert(v1.drop_first()[i] == v1[i + 1]);
            assert(cols.drop_first()[i] == cols[i + 1]);
        }
        assert forall|i: int| 0 <= i < v2.drop_first().len() implies val_matches(
            #[trigger] v2.drop_first()[i],
            cols.drop_first()[i].1,
        ) by {
            assert(v2.drop_first()[i] == v2[i + 1]);
            assert(cols.drop_first()[i] == cols[i + 1]);
        }
        lemma_val_end_ge(off, v1[0]);
        lemma_row_encoding_injective(
            bytes,
            val_end(off, v1[0]),
            v1.drop_first(),
            v2.drop_first(),
            cols.drop_first(),
        );
        assert(v1 =~= v2) by {
            assert forall|i: int| 0 <= i < v1.len() implies v1[i] == v2[i] by {
                if i > 0 {
                    assert(v1.drop_first()[i - 1] == v2.drop_first()[i - 1]);
                }
            }
        }
    }
}

/// The first value of an encoded row lies within the row's extent.
proof fn proof_row_head_bounds(off: int, vals: Seq<StoredVal>, len: int)
    requires
        0 <= off,
        vals.len() > 0,
        row_end(off, vals) <= len,
    ensures
        val_end(off, vals[0]) <= len,
{
    lemma_val_end_ge(off, vals[0]);
    lemma_row_end_ge(val_end(off, vals[0]), vals.drop_first());
}

proof fn lemma_fve_none(vals_v: Seq<ValueV>, cols: Seq<(Seq<char>, ColumnType)>, k: int)
    requires
        0 <= k <= vals_v.len(),
        forall|j: int|
            k <= j < vals_v.len() ==> {
                &&& (#[trigger] vals_v[j]) is Named
                &&& spec_has_col(cols, vals_v[j]->Named_0)
                &&& (cols[spec_col_index(cols, vals_v[j]->Named_0)].1 is Int ==> spec_parse_i64(
                    vals_v[j]->Named_1,
                ) is Some)
            },
    ensures
        spec_first_value_error(vals_v.skip(k), cols) is None,
    decreases vals_v.len() - k,
{
    if k < vals_v.len() {
        assert(vals_v.skip(k)[0] == vals_v[k]);
        assert(vals_v.skip(k).drop_first() =~= vals_v.skip(k + 1));
        lemma_fve_none(vals_v, cols, k + 1);
    } else {
        assert(vals_v.skip(k) =~= Seq::<ValueV>::empty());
    }
}

proof fn lemma_fce_none(vals_v: Seq<ValueV>, cols: Seq<(Seq<char>, ColumnType)>, k: int)
    requires
        0 <= k <= cols.len(),
        forall|j: int|
            k <= j < cols.len() ==> {
                &&& spec_find_value(vals_v, (#[trigger] cols[j]).0) is Some
                &&& (cols[j].1 is Int ==> spec_parse_i64(
                    spec_find_value(vals_v, cols[j].0)->0,
                ) is Some)
            },
    ensures
        spec_first_column_error(vals_v, cols.skip(k)) is None,
    decreases cols.len() - k,
{
    if k < cols.len() {
        assert(cols.skip(k)[0] == cols[k]);
        assert(cols.skip(k).drop_first() =~= cols.skip(k + 1));
        lemma_fce_none(vals_v, cols, k + 1);
    } else {
        assert(cols.skip(k) =~= Seq::<(Seq<char>, ColumnType)>::empty());
    }
}

/// A stored row read back as name-qualified text validates against its
/// own schema and stores back as exactly the same row, provided no two
/// columns share a name.
pub proof fn lemma_replayed_row_valid(vals: Seq<StoredVal>, cols: Seq<(Seq<char>, ColumnType)>)
    requires
        row_matches(vals, cols),
        distinct_col_names(cols),
    ensures
        spec_row_error(spec_replayed_row(vals, cols), cols) is None,
        spec_stored_row(spec_replayed_row(vals, cols), cols) == vals,
{
    let rv = spec_replayed_row(vals, cols);
    let names = Seq::new(cols.len(), |k: int| cols[k].0);
    assert forall|j: int| 0 <= j < cols.len() implies spec_find_value(rv, (#[trigger] cols[j]).0)
        == Some(render_val(vals[j])) by {
        lemma_find_value_at(rv, names, j);
    }
    assert forall|j: int| 0 <= j < cols.len() implies spec_col_index(
        cols,
        (#[trigger] cols[j]).0,
    ) == j by {
        lemma_col_index_bounds(cols, cols[j].0);
        let idx = spec_col_index(cols, cols[j].0);
        assert(cols[j].0 == cols[j].0);
        assert(spec_has_col(cols, cols[j].0));
        if idx < j {
            assert(cols[idx].0 == cols[j].0);
            assert(false);
        }
        if idx > j {
            assert(cols[j].0 != cols[j].0);
            assert(false);
        }
    }
    assert forall|j: int| 0 <= j < cols.len() && (#[trigger] cols[j]).1 is Int implies
        spec_parse_i64(render_val(vals[j])) is Some by {
        let x = vals[j]->Int_0;
        crate::numeric::lemma_parse_format_round_trip(x);
    }
    lemma_fve_none(rv, cols, 0);
    assert(rv.skip(0) =~= rv);
    lemma_fce_none(rv, cols, 0);
    assert(cols.skip(0) =~= cols);
    assert(spec_row_error(rv, cols) is None);
    assert forall|k: int| 0 <= k < cols.len() implies spec_stored_row(rv, cols)[k] == vals[k] by {
        if cols[k].1 is Int {
            crate::numeric::lemma_parse_format_round_trip(vals[k]->Int_0);
        }
    }
    assert(spec_stored_row(rv, cols) =~= vals);
}

/// One validated cell, ready to encode.
enum CellValue {
    Int(i64),
    Text(String),
}

impl View for CellValue {
    type V = StoredVal;

    closed spec fn view(&self) -> StoredVal {
        match self {
            CellValue::Int(x) => StoredVal::Int(*x),
            CellValue::Text(s) => StoredVal::Text(s@),
        }
    }
}

spec fn views_of_cells(cells: Seq<CellValue>) -> Seq<StoredVal> {
    cells.map_values(|c: CellValue| c@)
}

/// One stored row is properly placed: its slot offset is in the data
/// region, its encoding lies at that offset, and it ends by the free
/// cursor.
pub open spec fn row_ok(bytes: Seq<u8>, free: int, off: int, vals: Seq<StoredVal>) -> bool {
    &&& HEADER_SIZE <= off
    &&& row_end(off, vals) <= free
    &&& row_encoded(bytes, off, vals)
}

/// In-memory page: a fixed 4096-byte buffer plus the cursor where the
/// next row's bytes will go. The ghost `rows` field is the page's
/// abstract content, tied to the buffer by the invariant [`Page::wf`].
#[derive(Clone)]
pub struct Page {
    data: Vec<u8>,
    free_offset: usize,
    rows: Ghost<Seq<Seq<StoredVal>>>,
}

impl View for Page {
    type V = Seq<Seq<StoredVal>>;

    closed spec fn view(&self) -> Seq<Seq<StoredVal>> {
        self.rows@
    }
}

impl Page {
    /// The page's raw bytes.
    pub closed spec fn bytes(self) -> Seq<u8> {
        self.data@
    }

    /// The next write position in the data region.
    pub closed spec fn spec_free(self) -> int {
        self.free_offset as int
    }

    /// The page invariant: the buffer is exactly one page; the slot count
    /// equals the number of stored rows; each slot points at the encoding
    /// of its row; rows are packed back to back, starting right after the
    /// header, and the free cursor sits at the end of the last row.
    pub closed spec fn wf(self) -> bool {
        &&& self.data@.len() == PAGE_SIZE
        &&& HEADER_SIZE <= self.free_offset <= PAGE_SIZE
        &&& self.rows@.len() == spec_slot_count(self.data@)
        &&& self.rows@.len() <= MAX_SLOTS
        &&& (forall|i: int|
            0 <= i < self.rows@.len() ==> row_ok(
                self.data@,
                self.free_offset as int,
                spec_slot_offset(self.data@, i),
                #[trigger] self.rows@[i],
            ))
        &&& (self.rows@.len() > 0 ==> spec_slot_offset(self.data@, 0) == HEADER_SIZE)
        &&& (forall|i: int|
            0 <= i < self.rows@.len() - 1 ==> spec_slot_offset(self.data@, i + 1) == row_end(
                spec_slot_offset(self.data@, i),
                #[trigger] self.rows@[i],
            ))
        &&& self.free_offset == if self.rows@.len() == 0 {
            HEADER_SIZE as int
        } else {
            row_end(
                spec_slot_offset(self.data@, self.rows@.len() - 1),
                self.rows@[self.rows@.len() - 1],
            )
        }
    }

    /// The next free slot index, while the page still has one: a page
    /// with all twenty slots taken reports no free slot, whatever byte
    /// space remains.
    pub fn available_slot_pos(&self) -> (r: Option<u32>)
        requires
            self.wf(),
        ensures
            r == if self@.len() < MAX_SLOTS {
                Some(self@.len() as u32)
            } else {
                None::<u32>
            },
    {
        let free_slot_pos = read_u32_at(&self.data, 0);
        if free_slot_pos < MAX_SLOTS as u32 {
            Some(free_slot_pos)
        } else {
            None
        }
    }

    /// The page's raw bytes, as they go to disk.
    pub fn get_data(&self) -> (r: &Vec<u8>)
        ensures
            r@ == self.bytes(),
    {
        &self.data
    }

    /// Set the slot count stored in the page's first four bytes.
    fn increment_free_slot_pos(&mut self, new_value: u32)
        requires
            old(self).data@.len() >= HEADER_SIZE,
        ensures
            final(self).data@.len() == old(self).data@.len(),
            spec_slot_count(final(self).data@) == new_value,
            forall|k: int|
                4 <= k < old(self).data@.len() ==> final(self).data@[k] == old(self).data@[k],
            final(self).free_offset == old(self).free_offset,
            final(self).rows == old(self).rows,
    {
        write_u32_at(&mut self.data, 0, new_value);
        proof {
            assert(self.data@.subrange(0, 4) =~= self.data@.subrange(0int, 4int));
        }
    }

    /// Store one row in this page. The row is checked in full before any
    /// byte of the page changes: on an error the page is exactly as it
    /// was. On success the next free slot points at the row's bytes, and
    /// the page's content grows by the validated row.
    #[verifier::rlimit(80)]
    pub fn write(&mut self, values: Vec<Value>, table_definition: &TableDefinition) -> (r:
        BEResult<()>)
        requires
            old(self).wf(),
        ensures
            final(self).wf(),
            ({
                let vv = views_of_values(values@);
                let cols = table_definition@.columns;
                let werr = spec_write_error(
                    old(self)@.len() as int,
                    old(self).spec_free(),
                    vv,
                    cols,
                );
                match r {
                    Ok(_) => {
                        &&& werr is None
                        &&& final(self)@ == old(self)@.push(spec_stored_row(vv, cols))
                        &&& row_matches(spec_stored_row(vv, cols), cols)
                        &&& final(self)@.len() == old(self)@.len() + 1
                        &&& final(self).spec_free() == row_end(
                            old(self).spec_free(),
                            spec_stored_row(vv, cols),
                        )
                    },
                    Err(e) => {
                        &&& Some(e@) == werr
                        &&& final(self)@ == old(self)@
                        &&& final(self).bytes() == old(self).bytes()
                        &&& final(self).spec_free() == old(self).spec_free()
                    },
                }
            }),
    {
        let ghost vv = views_of_values(values@);
        let ghost cols = table_definition@.columns;
        let slot: u32 = match self.available_slot_pos() {
            None => {
                return Err(
                    BEErrors::InternalError(
                        <String as StringExecFns>::from_str("No free space in page"),
                    ),
                );
            },
            Some(s) => s,
        };
        let cells: Vec<CellValue> = match validate_row(&values, table_definition) {
            Err(e) => {
                return Err(e);
            },
            Ok(c) => c,
        };
        let ghost cviews = views_of_cells(cells@);
        // Capacity pass: no byte of the page changes until the whole row
        // is known to fit.
        let ncells = cells.len();
        let start = self.free_offset;
        let mut cur: usize = start;
        let mut j: usize = 0;
        proof {
            assert(cviews.take(0) =~= Seq::<StoredVal>::empty());
        }
        while j < ncells
            invariant
                0 <= j <= ncells,
                ncells == cells@.len(),
                cviews == views_of_cells(cells@),
                HEADER_SIZE <= start <= cur <= PAGE_SIZE,
                cur == row_end(start as int, cviews.take(j as int)),
                vv == views_of_values(values@),
                cols == table_definition@.columns,
                spec_row_error(vv, cols) is None,
                cviews == spec_stored_row(vv, cols),
                old(self).wf(),
                old(self)@.len() < MAX_SLOTS,
                start == old(self).spec_free(),
                self.data@ == old(self).data@,
                self.free_offset == old(self).free_offset,
                self.rows == old(self).rows,
                self.bytes() == old(self).bytes(),
                self.spec_free() == old(self).spec_free(),
                self@ == old(self)@,
                self.wf(),
            decreases ncells - j,
        {
            proof {
                lemma_row_end_step(start as int, cviews, j as int);
                assert(cviews[j as int] == cells@[j as int]@);
            }
            let pad = get_alignment_padding(cur);
            let a = cur + pad;
            let cj = &cells[j];
            let end: usize = match cj {
                CellValue::Int(x) => {
                    proof {
                        assert(cviews[j as int] == StoredVal::Int(*x));
                        assert(a + 8 == val_end(cur as int, cviews[j as int]));
                    }
                    a + 8
                },
                CellValue::Text(s) => {
                    proof {
                        assert(cviews[j as int] == StoredVal::Text(s@));
                    }
                    let l = s.as_str().as_bytes().len();
                    if l > PAGE_SIZE {
                        proof {
                            assert(val_end(cur as int, cviews[j as int]) > PAGE_SIZE);
                            lemma_row_end_prefix_le(start as int, cviews, j as int + 1);
                            lemma_row_end_take_all(start as int, cviews);
                        }
                        return Err(
                            BEErrors::InternalError(
                                <String as StringExecFns>::from_str("No free space in page"),
                            ),
                        );
                    }
                    proof {
                        assert(a + 8 + l == val_end(cur as int, cviews[j as int]));
                    }
                    a + 8 + l
                },
            };
            proof {
                assert(end == val_end(cur as int, cviews[j as int]));
            }
            if end > PAGE_SIZE {
                proof {
                    lemma_row_end_prefix_le(start as int, cviews, j as int + 1);
                    lemma_row_end_take_all(start as int, cviews);
                }
                return Err(
                    BEErrors::InternalError(
                        <String as StringExecFns>::from_str("No free space in page"),
                    ),
                );
            }
            cur = end;
            j = j + 1;
        }
        proof {
            lemma_row_end_take_all(start as int, cviews);
            assert(cur == row_end(start as int, cviews));
        }
        let ghost row_fin = cur as int;
        // Commit: slot entry, slot count, then the row's bytes.
        let ghost b_pre = self.data@;
        let slot_pos: usize = 4 + 4 * (slot as usize);
        write_u32_at(&mut self.data, slot_pos, start as u32);
        let ghost b_w = self.data@;
        self.increment_free_slot_pos(slot + 1);
        let ghost b0 = self.data@;
        proof {
            assert(b0.subrange(slot_pos as int, slot_pos + 4) =~= b_w.subrange(
                slot_pos as int,
                slot_pos + 4,
            ));
            assert(4 + 4 * (slot as int) == slot_pos as int);
            assert(spec_slot_offset(b0, slot as int) == start);
            assert(spec_slot_count(b0) == slot + 1);
            assert(forall|k: int|
                0 <= k < PAGE_SIZE && k >= 4 && !(slot_pos <= k < slot_pos + 4) ==> b0[k]
                    == b_pre[k]);
        }
        let mut cur2: usize = start;
        let mut j2: usize = 0;
        proof {
            assert(cviews.take(0) =~= Seq::<StoredVal>::empty());
        }
        while j2 < ncells
            invariant
                0 <= j2 <= ncells,
                ncells == cells@.len(),
                cviews == views_of_cells(cells@),
                HEADER_SIZE <= start <= cur2 <= PAGE_SIZE,
                self.data@.len() == PAGE_SIZE,
                b0.len() == PAGE_SIZE,
                cur2 == row_end(start as int, cviews.take(j2 as int)),
                row_fin == row_end(start as int, cviews),
                row_fin <= PAGE_SIZE,
                row_encoded(self.data@, start as int, cviews.take(j2 as int)),
                forall|k: int|
                    0 <= k < PAGE_SIZE && !(start <= k < cur2) ==> self.data@[k] == b0[k],
                self.free_offset == old(self).free_offset,
                self.rows == old(self).rows,
            decreases ncells - j2,
        {
            proof {
                lemma_row_end_step(start as int, cviews, j2 as int);
                lemma_row_end_prefix_le(start as int, cviews, j2 as int);
                lemma_row_end_prefix_le(start as int, cviews, j2 as int + 1);
                lemma_row_end_take_all(start as int, cviews);
            }
            let pad = get_alignment_padding(cur2);
            let a = cur2 + pad;
            let ghost b_before = self.data@;
            let ghost prev = cur2 as int;
            let next: usize = match &cells[j2] {
                CellValue::Int(x) => {
                    let u = i64_to_u64(*x);
                    write_u64_at(&mut self.data, a, u);
                    a + 8
                },
                CellValue::Text(s) => {
                    let l = s.as_str().as_bytes().len();
                    write_u64_at(&mut self.data, a, l as u64);
                    let ghost b_mid = self.data@;
                    write_bytes_at(&mut self.data, a + 8, s.as_str().as_bytes());
                    proof {
                        assert(self.data@.subrange(a as int, a + 8) =~= b_mid.subrange(
                            a as int,
                            a + 8,
                        ));
                    }
                    a + 8 + l
                },
            };
            proof {
                assert(next == val_end(prev, cviews[j2 as int]));
                assert(val_encoded(self.data@, prev, cviews[j2 as int]));
                lemma_row_encoded_frame(b_before, self.data@, start as int, cviews.take(j2 as int));
                lemma_row_encoded_snoc(
                    self.data@,
                    start as int,
                    cviews.take(j2 as int),
                    cviews[j2 as int],
                );
                assert(cviews.take(j2 as int).push(cviews[j2 as int]) =~= cviews.take(
                    j2 as int + 1,
                ));
            }
            cur2 = next;
            j2 = j2 + 1;
        }
        self.free_offset = cur2;
        proof {
            lemma_row_end_take_all(start as int, cviews);
            assert(cviews.take(ncells as int) =~= cviews);
            assert(row_encoded(self.data@, start as int, cviews));
        }
        self.rows = Ghost(self.rows@.push(cviews));
        proof {
            let b_new = self.data@;
            // Header words outside the touched slot are unchanged.
            assert(b_new.subrange(0, 4) =~= b0.subrange(0, 4));
            assert(b_new.subrange(slot_pos as int, slot_pos + 4) =~= b0.subrange(
                slot_pos as int,
                slot_pos + 4,
            ));
            assert(spec_slot_count(b_new) == slot + 1);
            assert(spec_slot_offset(b_new, slot as int) == start);
            assert forall|i: int| 0 <= i < slot implies spec_slot_offset(b_new, i)
                == spec_slot_offset(b_pre, i) by {
                assert(b_new.subrange(4 + 4 * i, 8 + 4 * i) =~= b_pre.subrange(
                    4 + 4 * i,
                    8 + 4 * i,
                ));
            }
            // Old rows lie before the new row's bytes and are untouched.
            assert forall|i: int| 0 <= i < slot implies row_ok(
                b_new,
                self.free_offset as int,
                spec_slot_offset(b_new, i),
                #[trigger] self.rows@[i],
            ) by {
                let off = spec_slot_offset(b_pre, i);
                assert(old(self).rows@[i] == self.rows@[i]);
                assert(row_end(off, old(self).rows@[i]) <= start);
                assert(forall|k: int| off <= k < row_end(off, old(self).rows@[i]) ==> b_new[k]
                    == b_pre[k]);
                lemma_row_encoded_frame(b_pre, b_new, off, old(self).rows@[i]);
            }
            assert(self.rows@[slot as int] == cviews);
            assert(self.rows@.len() == slot + 1);
            assert(old(self)@.len() == slot as int);
            // The first slot starts right after the header.
            if slot == 0 {
                assert(old(self)@.len() == 0);
                assert(start == HEADER_SIZE);
                assert(spec_slot_offset(b_new, 0) == HEADER_SIZE);
            } else {
                assert(spec_slot_offset(b_new, 0) == spec_slot_offset(b_pre, 0));
                assert(spec_slot_offset(b_new, 0) == HEADER_SIZE);
            }
            // The slot chain stays exact: each slot starts where the
            // previous row ended, the new one included.
            assert forall|i: int| 0 <= i < self.rows@.len() - 1 implies spec_slot_offset(
                b_new,
                i + 1,
            ) == row_end(spec_slot_offset(b_new, i), #[trigger] self.rows@[i]) by {
                if i + 1 < slot {
                    assert(self.rows@[i] == old(self).rows@[i]);
                    assert(spec_slot_offset(b_pre, i + 1) == row_end(
                        spec_slot_offset(b_pre, i),
                        old(self).rows@[i],
                    ));
                } else {
                    assert(i + 1 == slot as int);
                    assert(self.rows@[i] == old(self).rows@[i]);
                    assert(spec_slot_offset(b_new, slot as int) == start);
                    assert(start == old(self).spec_free());
                    if slot > 0 {
                        assert(old(self).spec_free() == row_end(
                            spec_slot_offset(b_pre, slot as int - 1),
                            old(self).rows@[slot as int - 1],
                        ));
                    }
                }
            }
            assert(self.free_offset == row_end(
                spec_slot_offset(b_new, self.rows@.len() - 1),
                self.rows@[self.rows@.len() - 1],
            ));
            assert(self.data@.len() == PAGE_SIZE);
            assert(HEADER_SIZE <= self.free_offset <= PAGE_SIZE);
            assert(self.rows@.len() == spec_slot_count(self.data@));
            assert(self.rows@.len() <= MAX_SLOTS);
            assert forall|i: int| 0 <= i < self.rows@.len() implies row_ok(
                self.data@,
                self.free_offset as int,
                spec_slot_offset(self.data@, i),
                #[trigger] self.rows@[i],
            ) by {
                if i < slot {
                    assert(self.rows@[i] == old(self).rows@[i]);
                } else {
                    assert(self.rows@[i] == cviews);
                    assert(spec_slot_offset(self.data@, i) == start);
                }
            }
            assert(self.rows@.len() > 0 ==> spec_slot_offset(self.data@, 0) == HEADER_SIZE);
            assert forall|i: int| 0 <= i < self.rows@.len() - 1 implies spec_slot_offset(
                self.data@,
                i + 1,
            ) == row_end(spec_slot_offset(self.data@, i), #[trigger] self.rows@[i]) by {
                assert(spec_slot_offset(b_new, i + 1) == row_end(
                    spec_slot_offset(b_new, i),
                    self.rows@[i],
                ));
            }
            assert(self.free_offset == if self.rows@.len() == 0 {
                HEADER_SIZE as int
            } else {
                row_end(
                    spec_slot_offset(self.data@, self.rows@.len() - 1),
                    self.rows@[self.rows@.len() - 1],
                )
            });
            assert(self.wf());
            assert(self@ == old(self)@.push(spec_stored_row(vv, cols)));
            assert forall|k: int| 0 <= k < cols.len() implies val_matches(
                #[trigger] spec_stored_row(vv, cols)[k],
                cols[k].1,
            ) by {}
        }
        Ok(())
    }

    /// Read one stored row, decoding the requested columns in request
    /// order. `offset` must be the slot offset of a stored row whose
    /// shape matches the schema; the read fails exactly when a requested
    /// column name is not in the schema.
    pub fn read(&self, offset: usize, columns: &[ColumnName], table_definition: &TableDefinition)
        -> (r: BEResult<Vec<Value>>)
        requires
            self.wf(),
            exists|i: int|
                0 <= i < self@.len() && #[trigger] spec_slot_offset(self.bytes(), i) == offset
                    && row_matches(self@[i], table_definition@.columns),
        ensures
            ({
                let cols = table_definition@.columns;
                let names = views_of_names(columns@);
                match r {
                    Ok(vals) => {
                        &&& spec_read_error(cols, names) is None
                        &&& forall|i: int|
                            0 <= i < self@.len() && #[trigger] spec_slot_offset(self.bytes(), i)
                                == offset && row_matches(self@[i], cols) ==> views_of_values(vals@)
                                == spec_rendered_row(self@[i], cols, names)
                    },
                    Err(e) => Some(e@) == spec_read_error(cols, names),
                }
            }),
    {
        let ghost cols = table_definition@.columns;
        let ghost w = choose|i: int|
            0 <= i < self@.len() && #[trigger] spec_slot_offset(self.bytes(), i) == offset
                && row_matches(self@[i], cols);
        let ghost vals_w = self@[w];
        proof {
            assert(row_ok(self.bytes(), self.spec_free(), offset as int, vals_w));
            lemma_row_end_ge(offset as int, vals_w);
            assert(offset <= PAGE_SIZE);
            assert(vals_w.take(0) =~= Seq::<StoredVal>::empty());
        }
        // First walk the whole schema from the row's start, decoding each
        // stored value.
        let ncols = table_definition.columns.len();
        let mut cells: Vec<CellValue> = Vec::new();
        let mut cur: usize = offset;
        let mut k: usize = 0;
        while k < ncols
            invariant
                0 <= k <= ncols,
                ncols == cols.len(),
                cols == table_definition@.columns,
                self.wf(),
                0 <= w < self@.len(),
                spec_slot_offset(self.bytes(), w as int) == offset,
                row_matches(self@[w], cols),
                vals_w == self@[w],
                HEADER_SIZE <= offset,
                offset + 8 <= usize::MAX,
                cur == row_end(offset as int, vals_w.take(k as int)),
                offset <= cur <= PAGE_SIZE,
                cells@.len() == k,
                views_of_cells(cells@) =~= vals_w.take(k as int),
            decreases ncols - k,
        {
            proof {
                assert(row_ok(self.bytes(), self.spec_free(), offset as int, vals_w));
                lemma_row_encoded_index(self.bytes(), offset as int, vals_w, k as int);
                lemma_row_end_step(offset as int, vals_w, k as int);
                lemma_row_end_prefix_le(offset as int, vals_w, k as int + 1);
                assert(val_encoded(self.bytes(), cur as int, vals_w[k as int]));
                assert(val_matches(vals_w[k as int], cols[k as int].1));
                assert(val_end(cur as int, vals_w[k as int]) <= self.spec_free());
            }
            let pad = get_alignment_padding(cur);
            let a = cur + pad;
            let col_type = table_definition.columns[k].1;
            match col_type {
                ColumnType::Int => {
                    let u = read_u64_at(&self.data, a);
                    proof {
                        lemma_auto_spec_u64_to_from_le_bytes();
                        lemma_i64_u64_round_trip(vals_w[k as int]->Int_0);
                    }
                    let x = u64_to_i64(u);
                    cells.push(CellValue::Int(x));
                    cur = a + 8;
                },
                ColumnType::Text => {
                    let ghost t = vals_w[k as int]->Text_0;
                    let ghost tb = encode_utf8(t);
                    let lu = read_u64_at(&self.data, a);
                    proof {
                        lemma_auto_spec_u64_to_from_le_bytes();
                        assert(lu == tb.len());
                    }
                    let l = lu as usize;
                    let bs = read_bytes_at(&self.data, a + 8, l);
                    proof {
                        assert(bs@ == tb);
                        encode_utf8_valid_utf8(t);
                    }
                    match string_from_utf8(bs) {
                        Some(s) => {
                            proof {
                                encode_utf8_decode_utf8(s@);
                                encode_utf8_decode_utf8(t);
                                assert(s@ == t);
                            }
                            cells.push(CellValue::Text(s));
                            cur = a + 8 + l;
                        },
                        None => {
                            proof {
                                assert(false);
                            }
                            return Err(
                                BEErrors::InternalError(
                                    <String as StringExecFns>::from_str("No free space in page"),
                                ),
                            );
                        },
                    }
                },
            }
            proof {
                assert(views_of_cells(cells@) =~= vals_w.take(k as int).push(
                    cells@[k as int]@,
                ));
                assert(vals_w.take(k as int + 1) =~= vals_w.take(k as int).push(
                    vals_w[k as int],
                ));
            }
            k = k + 1;
        }
        proof {
            assert(vals_w.take(ncols as int) =~= vals_w);
            assert(views_of_cells(cells@) =~= vals_w);
        }
        // Then emit the requested columns, in request order.
        let ghost names = views_of_names(columns@);
        proof {
            assert(names.skip(0) =~= names);
        }
        let ncolsreq = columns.len();
        let mut result: Vec<Value> = Vec::new();
        let mut j: usize = 0;
        while j < ncolsreq
            invariant
                0 <= j <= ncolsreq,
                ncolsreq == columns@.len(),
                names == views_of_names(columns@),
                cols == table_definition@.columns,
                views_of_cells(cells@) =~= vals_w,
                vals_w.len() == cols.len(),
                spec_read_error(cols, names) == spec_read_error(cols, names.skip(j as int)),
                result@.len() == j,
                views_of_values(result@) =~= spec_rendered_row(vals_w, cols, names).take(
                    j as int,
                ),
            decreases ncolsreq - j,
        {
            proof {
                assert(names.skip(j as int)[0] == names[j as int]);
                assert(names.skip(j as int).drop_first() =~= names.skip(j as int + 1));
            }
            let name = &columns[j];
            let ghost old_result = result@;
            match table_definition.col_index(&name.0) {
                None => {
                    return Err(BEErrors::MissingColumn(name.0.clone()));
                },
                Some(ci) => {
                    match &cells[ci] {
                        CellValue::Int(x) => {
                            result.push(Value::NamedValue(name.0.clone(), format_i64(*x)));
                        },
                        CellValue::Text(s) => {
                            result.push(Value::NamedValue(name.0.clone(), s.clone()));
                        },
                    }
                },
            }
            proof {
                assert(views_of_values(result@) =~= views_of_values(old_result).push(
                    result@[j as int]@,
                ));
                assert(spec_rendered_row(vals_w, cols, names).take(j as int + 1)
                    =~= spec_rendered_row(vals_w, cols, names).take(j as int).push(
                    spec_rendered_row(vals_w, cols, names)[j as int],
                ));
            }
            j = j + 1;
        }
        proof {
            assert(names.skip(ncolsreq as int) =~= Seq::<Seq<char>>::empty());
            assert(spec_read_error(cols, names) is None);
            assert(views_of_values(result@) =~= spec_rendered_row(vals_w, cols, names).take(
                ncolsreq as int,
            ));
            assert(spec_rendered_row(vals_w, cols, names).take(ncolsreq as int)
                =~= spec_rendered_row(vals_w, cols, names));
            assert forall|i: int|
                0 <= i < self@.len() && #[trigger] spec_slot_offset(self.bytes(), i) == offset
                    && row_matches(self@[i], cols) implies views_of_values(result@)
                == spec_rendered_row(self@[i], cols, names) by {
                lemma_same_offset_same_row(*self, w as int, i, cols);
            }
        }
        Ok(result)
    }

    /// Read every stored row, in slot order, which is insertion order.
    /// A page without rows yields nothing, whatever columns are asked
    /// for; otherwise the read fails exactly when a requested column name
    /// is not in the schema.
    pub fn read_all_rows(&self, columns: &[ColumnName], table_definition: &TableDefinition) -> (r:
        BEResult<Option<Rows>>)
        requires
            self.wf(),
            forall|i: int|
                0 <= i < self@.len() ==> row_matches(#[trigger] self@[i], table_definition@.columns),
        ensures
            ({
                let cols = table_definition@.columns;
                let names = views_of_names(columns@);
                match r {
                    Ok(opt) => {
                        &&& (opt is None <==> self@.len() == 0)
                        &&& (opt is Some ==> {
                            &&& spec_read_error(cols, names) is None
                            &&& opt->0@.len() == self@.len()
                            &&& forall|i: int|
                                0 <= i < self@.len() ==> views_of_values(#[trigger] opt->0@[i]@)
                                    == spec_rendered_row(self@[i], cols, names)
                        })
                    },
                    Err(e) => self@.len() > 0 && Some(e@) == spec_read_error(cols, names),
                }
            }),
    {
        let ghost cols = table_definition@.columns;
        let ghost names = views_of_names(columns@);
        let written_slots_count = read_u32_at(&self.data, 0);
        if written_slots_count == 0 {
            return Ok(None);
        }
        let count = written_slots_count as usize;
        let mut rows: Rows = Vec::new();
        let mut i: usize = 0;
        while i < count
            invariant
                0 <= i <= count,
                count == self@.len(),
                self.wf(),
                cols == table_definition@.columns,
                names == views_of_names(columns@),
                forall|q: int| 0 <= q < self@.len() ==> row_matches(#[trigger] self@[q], cols),
                rows@.len() == i,
                forall|q: int|
                    0 <= q < i ==> views_of_values(#[trigger] rows@[q]@) == spec_rendered_row(
                        self@[q],
                        cols,
                        names,
                    ),
                i > 0 ==> spec_read_error(cols, names) is None,
            decreases count - i,
        {
            let data_offset = read_u32_at(&self.data, 4 + 4 * i);
            proof {
                assert(self.bytes().subrange(4 + 4 * (i as int), 8 + 4 * (i as int))
                    =~= self.bytes().subrange(
                    (4 + 4 * i) as int,
                    (4 + 4 * i) + 4,
                ));
                assert(spec_slot_offset(self.bytes(), i as int) == data_offset);
                assert(row_ok(
                    self.bytes(),
                    self.spec_free(),
                    spec_slot_offset(self.bytes(), i as int),
                    self@[i as int],
                ));
            }
            let row = match self.read(data_offset as usize, columns, table_definition) {
                Ok(row) => row,
                Err(e) => {
                    return Err(e);
                },
            };
            rows.push(row);
            i = i + 1;
        }
        Ok(Some(rows))
    }
}

/// A whole page content matches the schema: every row does.
pub open spec fn rows_match(rows: Seq<Seq<StoredVal>>, cols: Seq<(Seq<char>, ColumnType)>) -> bool {
    forall|i: int| 0 <= i < rows.len() ==> row_matches(#[trigger] rows[i], cols)
}

/// A row of this shape is stored at `offset` of the page bytes, and lies
/// within the page.
pub open spec fn row_stored_at(
    bytes: Seq<u8>,
    offset: int,
    vals: Seq<StoredVal>,
    cols: Seq<(Seq<char>, ColumnType)>,
) -> bool {
    &&& row_encoded(bytes, offset, vals)
    &&& row_matches(vals, cols)
    &&& row_end(offset, vals) <= PAGE_SIZE
}

/// Walk one row of a recovered page, schema column by schema column,
/// returning its values as name-qualified text, or nothing if the bytes
/// do not decode. When some row of the schema's shape is in fact stored
/// at this offset, the walk cannot fail and reads back exactly that row.
fn decode_row_bytes(bytes: &Vec<u8>, offset: usize, table_definition: &TableDefinition) -> (r:
    Option<Vec<Value>>)
    requires
        bytes@.len() == PAGE_SIZE,
    ensures
        ({
            let cols = table_definition@.columns;
            (exists|vals: Seq<StoredVal>|
                #[trigger] row_stored_at(bytes@, offset as int, vals, cols)) ==> {
                &&& r is Some
                &&& forall|vals: Seq<StoredVal>|
                    #[trigger] row_stored_at(bytes@, offset as int, vals, cols)
                        ==> views_of_values(r->0@) == spec_replayed_row(vals, cols)
            }
        }),
{
    let ghost cols = table_definition@.columns;
    let ghost has_w = exists|vals: Seq<StoredVal>|
        #[trigger] row_stored_at(bytes@, offset as int, vals, cols);
    let ghost w: Seq<StoredVal> = if has_w {
        choose|vals: Seq<StoredVal>| #[trigger] row_stored_at(bytes@, offset as int, vals, cols)
    } else {
        Seq::empty()
    };
    if offset > PAGE_SIZE {
        proof {
            if has_w {
                lemma_row_end_ge(offset as int, w);
            }
        }
        return None;
    }
    let ncols = table_definition.columns.len();
    let mut vals: Vec<Value> = Vec::new();
    let mut cur: usize = offset;
    let mut k: usize = 0;
    proof {
        if has_w {
            assert(w.take(0) =~= Seq::<StoredVal>::empty());
        }
    }
    while k < ncols
        invariant
            0 <= k <= ncols,
            offset <= cur <= PAGE_SIZE,
            ncols == table_definition.columns@.len(),
            cols == table_definition@.columns,
            bytes@.len() == PAGE_SIZE,
            has_w == exists|vs: Seq<StoredVal>|
                #[trigger] row_stored_at(bytes@, offset as int, vs, cols),
            has_w ==> {
                &&& row_stored_at(bytes@, offset as int, w, cols)
                &&& cur == row_end(offset as int, w.take(k as int))
                &&& vals@.len() == k
                &&& views_of_values(vals@) =~= spec_replayed_row(w, cols).take(k as int)
            },
        decreases ncols - k,
    {
        proof {
            if has_w {
                lemma_row_encoded_index(bytes@, offset as int, w, k as int);
                lemma_row_end_step(offset as int, w, k as int);
                lemma_row_end_prefix_le(offset as int, w, k as int + 1);
                assert(val_encoded(bytes@, cur as int, w[k as int]));
                assert(val_matches(w[k as int], cols[k as int].1));
                assert(val_end(cur as int, w[k as int]) <= PAGE_SIZE);
            }
        }
        let pad = get_alignment_padding(cur);
        let a = cur + pad;
        if a + 8 > PAGE_SIZE {
            proof {
                if has_w {
                    lemma_val_end_ge(cur as int, w[k as int]);
                    assert(false);
                }
            }
            return None;
        }
        let col = &table_definition.columns[k];
        let ghost old_vals = vals@;
        match col.1 {
            ColumnType::Int => {
                let u = read_u64_at(bytes, a);
                proof {
                    if has_w {
                        lemma_auto_spec_u64_to_from_le_bytes();
                        lemma_i64_u64_round_trip(w[k as int]->Int_0);
                    }
                }
                let x = u64_to_i64(u);
                vals.push(Value::NamedValue(col.0.clone(), format_i64(x)));
                cur = a + 8;
            },
            ColumnType::Text => {
                let lu = read_u64_at(bytes, a);
                proof {
                    if has_w {
                        lemma_auto_spec_u64_to_from_le_bytes();
                        assert(lu == encode_utf8(w[k as int]->Text_0).len());
                    }
                }
                if lu > (PAGE_SIZE - (a + 8)) as u64 {
                    proof {
                        if has_w {
                            assert(false);
                        }
                    }
                    return None;
                }
                let l = lu as usize;
                let bs = read_bytes_at(bytes, a + 8, l);
                proof {
                    if has_w {
                        assert(bs@ == encode_utf8(w[k as int]->Text_0));
                        encode_utf8_valid_utf8(w[k as int]->Text_0);
                    }
                }
                match string_from_utf8(bs) {
                    None => {
                        proof {
                            if has_w {
                                assert(false);
                            }
                        }
                        return None;
                    },
                    Some(s) => {
                        proof {
                            if has_w {
                                encode_utf8_decode_utf8(s@);
                                encode_utf8_decode_utf8(w[k as int]->Text_0);
                                assert(s@ == w[k as int]->Text_0);
                            }
                        }
                        vals.push(Value::NamedValue(col.0.clone(), s));
                        cur = a + 8 + l;
                    },
                }
            },
        }
        proof {
            if has_w {
                assert(views_of_values(vals@) =~= views_of_values(old_vals).push(
                    vals@[k as int]@,
                ));
                assert(vals@[k as int]@ == spec_replayed_row(w, cols)[k as int]);
                assert(spec_replayed_row(w, cols).take(k as int + 1) =~= spec_replayed_row(
                    w,
                    cols,
                ).take(k as int).push(spec_replayed_row(w, cols)[k as int]));
            }
        }
        k = k + 1;
    }
    proof {
        if has_w {
            assert(spec_replayed_row(w, cols).take(ncols as int) =~= spec_replayed_row(w, cols));
            assert(views_of_values(vals@) =~= spec_replayed_row(w, cols));
            assert forall|vs: Seq<StoredVal>|
                #[trigger] row_stored_at(bytes@, offset as int, vs, cols) implies views_of_values(
                vals@,
            ) == spec_replayed_row(vs, cols) by {
                lemma_row_encoding_injective(bytes@, offset as int, w, vs, cols);
            }
        }
    }
    Some(vals)
}

/// These bytes are exactly the bytes of the well-formed page `q`, whose
/// rows are shaped like the schema.
pub open spec fn page_stored_in(
    q: Page,
    bytes: Seq<u8>,
    cols: Seq<(Seq<char>, ColumnType)>,
) -> bool {
    &&& q.wf()
    &&& q.bytes() == bytes
    &&& rows_match(q@, cols)
}

/// A well-formed page's buffer is exactly one page, its slot count is
/// its row count, and its free cursor sits in the data region.
pub proof fn lemma_wf_page_len(p: Page)
    requires
        p.wf(),
    ensures
        p.bytes().len() == PAGE_SIZE,
        p@.len() == spec_slot_count(p.bytes()),
        p@.len() <= MAX_SLOTS,
        HEADER_SIZE <= p.spec_free() <= PAGE_SIZE,
{
}

/// Page bytes pin the page's content: two well-formed pages over the
/// same bytes, shaped like the same schema, hold the same rows.
pub proof fn lemma_page_stored_unique(
    q1: Page,
    q2: Page,
    bytes: Seq<u8>,
    cols: Seq<(Seq<char>, ColumnType)>,
)
    requires
        page_stored_in(q1, bytes, cols),
        page_stored_in(q2, bytes, cols),
    ensures
        q1@ == q2@,
{
    assert(q1@.len() == spec_slot_count(bytes));
    assert(q2@.len() == spec_slot_count(bytes));
    assert forall|j: int| 0 <= j < q1@.len() implies q1@[j] == q2@[j] by {
        assert(row_ok(q1.bytes(), q1.spec_free(), spec_slot_offset(bytes, j), q1@[j]));
        assert(row_ok(q2.bytes(), q2.spec_free(), spec_slot_offset(bytes, j), q2@[j]));
        lemma_row_encoding_injective(
            bytes,
            spec_slot_offset(bytes, j),
            q1@[j],
            q2@[j],
            cols,
        );
    }
    assert(q1@ =~= q2@);
}

impl Page {
    /// Rebuild a page from one page-sized block of a recovered data file:
    /// the slot count and slot offsets are taken from the block itself,
    /// each stored row is decoded against the schema, and the page is
    /// reassembled row by row. Blocks that do not decode are rejected;
    /// the bytes of any well-formed page of a schema without duplicate
    /// column names are accepted, and rebuild exactly that page's
    /// content.
    pub fn from_bytes(bytes: &Vec<u8>, table_definition: &TableDefinition) -> (r: BEResult<Page>)
        requires
            bytes@.len() == PAGE_SIZE,
        ensures
            r matches Ok(p) ==> {
                &&& p.wf()
                &&& rows_match(p@, table_definition@.columns)
                &&& p@.len() == spec_slot_count(bytes@)
            },
            ({
                let cols = table_definition@.columns;
                (distinct_col_names(cols) && exists|q: Page|
                    #[trigger] page_stored_in(q, bytes@, cols)) ==> {
                    &&& r is Ok
                    &&& forall|q: Page|
                        #[trigger] page_stored_in(q, bytes@, cols) ==> (r->Ok_0)@ == q@
                }
            }),
    {
        let ghost cols = table_definition@.columns;
        let ghost has_q = distinct_col_names(cols) && exists|q: Page|
            #[trigger] page_stored_in(q, bytes@, cols);
        let ghost qq: Page = choose|q: Page| #[trigger] page_stored_in(q, bytes@, cols);
        let count = read_u32_at(bytes, 0);
        proof {
            assert(bytes@.subrange(0int, 4int) =~= bytes@.subrange(0, 4));
            if has_q {
                assert(spec_slot_count(bytes@) == qq@.len());
            }
        }
        if count > MAX_SLOTS as u32 {
            proof {
                if has_q {
                    assert(false);
                }
            }
            return Err(
                BEErrors::SerializationError(
                    <String as StringExecFns>::from_str("corrupt data page"),
                ),
            );
        }
        let count = count as usize;
        let mut page = Page::default();
        let mut i: usize = 0;
        proof {
            if has_q {
                assert(page@ =~= qq@.take(0));
            }
        }
        while i < count
            invariant
                0 <= i <= count,
                count <= MAX_SLOTS,
                count == spec_slot_count(bytes@),
                bytes@.len() == PAGE_SIZE,
                cols == table_definition@.columns,
                page.wf(),
                rows_match(page@, table_definition@.columns),
                page@.len() == i,
                has_q == (distinct_col_names(cols) && exists|q: Page|
                    #[trigger] page_stored_in(q, bytes@, cols)),
                has_q ==> {
                    &&& page_stored_in(qq, bytes@, cols)
                    &&& count == qq@.len()
                    &&& page@ == qq@.take(i as int)
                    &&& page.spec_free() == (if i == 0 {
                        HEADER_SIZE as int
                    } else {
                        row_end(spec_slot_offset(bytes@, i as int - 1), qq@[i as int - 1])
                    })
                },
            decreases count - i,
        {
            let off = read_u32_at(bytes, 4 + 4 * i);
            proof {
                assert(bytes@.subrange((4 + 4 * i) as int, (4 + 4 * i) + 4) =~= bytes@.subrange(
                    4 + 4 * (i as int),
                    8 + 4 * (i as int),
                ));
                if has_q {
                    assert(off == spec_slot_offset(bytes@, i as int));
                    assert(row_ok(
                        qq.bytes(),
                        qq.spec_free(),
                        spec_slot_offset(bytes@, i as int),
                        qq@[i as int],
                    ));
                    assert(row_matches(qq@[i as int], cols));
                    assert(row_stored_at(bytes@, off as int, qq@[i as int], cols));
                }
            }
            let vals = match decode_row_bytes(bytes, off as usize, table_definition) {
                None => {
                    proof {
                        if has_q {
                            assert(false);
                        }
                    }
                    return Err(
                        BEErrors::SerializationError(
                            <String as StringExecFns>::from_str("corrupt data page"),
                        ),
                    );
                },
                Some(vals) => vals,
            };
            proof {
                if has_q {
                    assert(views_of_values(vals@) == spec_replayed_row(qq@[i as int], cols));
                    lemma_replayed_row_valid(qq@[i as int], cols);
                    // The replayed row lands where the stored one lay, so
                    // it fits: the fresh page's cursor tracks the stored
                    // slot chain exactly.
                    if i == 0 {
                        assert(spec_slot_offset(bytes@, 0) == HEADER_SIZE);
                    } else {
                        assert(spec_slot_offset(bytes@, (i - 1) + 1) == row_end(
                            spec_slot_offset(bytes@, i as int - 1),
                            qq.rows@[i as int - 1],
                        ));
                    }
                    assert(page.spec_free() == spec_slot_offset(bytes@, i as int));
                    assert(row_end(page.spec_free(), qq@[i as int]) <= qq.spec_free());
                    assert(spec_write_error(
                        page@.len() as int,
                        page.spec_free(),
                        views_of_values(vals@),
                        cols,
                    ) is None);
                }
            }
            let ghost free_before = page.spec_free();
            match page.write(vals, table_definition) {
                Ok(_) => {},
                Err(_) => {
                    proof {
                        if has_q {
                            assert(false);
                        }
                    }
                    return Err(
                        BEErrors::SerializationError(
                            <String as StringExecFns>::from_str("corrupt data page"),
                        ),
                    );
                },
            }
            proof {
                if has_q {
                    assert(spec_stored_row(views_of_values(vals@), cols) == qq@[i as int]);
                    assert(page@ =~= qq@.take(i as int + 1));
                    assert(page.spec_free() == row_end(
                        spec_slot_offset(bytes@, i as int),
                        qq@[i as int],
                    ));
                }
            }
            i = i + 1;
        }
        proof {
            if has_q {
                assert(page@ =~= qq@.take(count as int));
                assert(qq@.take(count as int) =~= qq@);
                assert forall|q2: Page| #[trigger] page_stored_in(q2, bytes@, cols) implies page@
                    == q2@ by {
                    lemma_page_stored_unique(qq, q2, bytes@, cols);
                }
            }
        }
        Ok(page)
    }
}

/// Slot offsets never decrease along the slot chain.
proof fn lemma_slot_monotone(p: Page, a: int, b: int)
    requires
        p.wf(),
        0 <= a <= b < p@.len(),
    ensures
        spec_slot_offset(p.bytes(), a) <= spec_slot_offset(p.bytes(), b),
    decreases b - a,
{
    if a < b {
        lemma_slot_monotone(p, a, b - 1);
        assert(row_ok(
            p.bytes(),
            p.spec_free(),
            spec_slot_offset(p.bytes(), b - 1),
            p@[b - 1],
        ));
        assert(spec_slot_offset(p.bytes(), (b - 1) + 1) == row_end(
            spec_slot_offset(p.bytes(), b - 1),
            p.rows@[b - 1],
        ));
        lemma_row_end_ge(spec_slot_offset(p.bytes(), b - 1), p@[b - 1]);
    }
}

/// Two stored rows whose slots share an offset, both shaped like the same
/// schema, hold the same values: with at least one column a row occupies
/// at least eight bytes, so distinct rows of a nonempty schema can never
/// share an offset, and rows of an empty schema are all empty.
proof fn lemma_same_offset_same_row(p: Page, i1: int, i2: int, cols: Seq<(Seq<char>, ColumnType)>)
    requires
        p.wf(),
        0 <= i1 < p@.len(),
        0 <= i2 < p@.len(),
        spec_slot_offset(p.bytes(), i1) == spec_slot_offset(p.bytes(), i2),
        row_matches(p@[i1], cols),
        row_matches(p@[i2], cols),
    ensures
        p@[i1] == p@[i2],
{
    if cols.len() == 0 {
        assert(p@[i1] =~= p@[i2]);
    } else if i1 != i2 {
        let lo = if i1 < i2 {
            i1
        } else {
            i2
        };
        let hi = if i1 < i2 {
            i2
        } else {
            i1
        };
        let off = spec_slot_offset(p.bytes(), lo);
        assert(row_ok(p.bytes(), p.spec_free(), off, p@[lo]));
        assert(p@[lo].len() > 0);
        lemma_val_end_ge_first(off, p@[lo]);
        assert(spec_slot_offset(p.bytes(), lo + 1) == row_end(
            spec_slot_offset(p.bytes(), lo),
            p.rows@[lo],
        ));
        lemma_slot_monotone(p, lo + 1, hi);
        assert(false);
    }
}

/// A row with at least one value ends at least eight bytes past its
/// start.
proof fn lemma_val_end_ge_first(off: int, vals: Seq<StoredVal>)
    requires
        off >= 0,
        vals.len() > 0,
    ensures
        row_end(off, vals) >= off + 8,
{
    lemma_val_end_ge(off, vals[0]);
    lemma_row_end_ge(val_end(off, vals[0]), vals.drop_first());
}

/// First value with the given column name, in row order.
fn find_value<'a>(values: &'a Vec<Value>, name: &String) -> (r: Option<&'a String>)
    ensures
        ({
            let s = spec_find_value(views_of_values(values@), name@);
            &&& (r is Some <==> s is Some)
            &&& (r is Some ==> r->0@ == s->0)
        }),
{
    let ghost vv = views_of_values(values@);
    proof {
        assert(vv.skip(0) =~= vv);
    }
    let n = values.len();
    let mut i: usize = 0;
    while i < n
        invariant
            0 <= i <= n,
            n == values@.len(),
            vv == views_of_values(values@),
            spec_find_value(vv, name@) == spec_find_value(vv.skip(i as int), name@),
        decreases n - i,
    {
        proof {
            assert(vv.skip(i as int)[0] == vv[i as int]);
            assert(vv.skip(i as int).drop_first() =~= vv.skip(i as int + 1));
        }
        match &values[i] {
            Value::NamedValue(nm, v) => {
                if *nm == *name {
                    return Some(v);
                }
            },
            Value::UnnamedValue(_) => {},
        }
        i = i + 1;
    }
    proof {
        assert(vv.skip(n as int) =~= Seq::<ValueV>::empty());
    }
    None
}

/// Check a row against a schema and collect one typed cell per schema
/// column, in schema order.
fn validate_row(values: &Vec<Value>, table_definition: &TableDefinition) -> (r: Result<
    Vec<CellValue>,
    BEErrors,
>)
    ensures
        ({
            let vv = views_of_values(values@);
            let cols = table_definition@.columns;
            match r {
                Ok(cells) => {
                    &&& spec_row_error(vv, cols) is None
                    &&& views_of_cells(cells@) == spec_stored_row(vv, cols)
                    &&& row_matches(views_of_cells(cells@), cols)
                },
                Err(e) => Some(e@) == spec_row_error(vv, cols),
            }
        }),
{
    let ghost vv = views_of_values(values@);
    let ghost cols = table_definition@.columns;
    proof {
        assert(vv.skip(0) =~= vv);
        assert(cols.skip(0) =~= cols);
    }
    let n = values.len();
    let mut i: usize = 0;
    while i < n
        invariant
            0 <= i <= n,
            n == values@.len(),
            vv == views_of_values(values@),
            cols == table_definition@.columns,
            spec_first_value_error(vv, cols) == spec_first_value_error(vv.skip(i as int), cols),
        decreases n - i,
    {
        proof {
            assert(vv.skip(i as int)[0] == vv[i as int]);
            assert(vv.skip(i as int).drop_first() =~= vv.skip(i as int + 1));
        }
        match &values[i] {
            Value::UnnamedValue(_) => {
                return Err(
                    BEErrors::InternalError(
                        <String as StringExecFns>::from_str(
                            "positional values are not yet supported",
                        ),
                    ),
                );
            },
            Value::NamedValue(nm, v) => {
                match table_definition.col_index(nm) {
                    None => {
                        return Err(BEErrors::MissingColumn(nm.clone()));
                    },
                    Some(ci) => {
                        if table_definition.columns[ci].1 == ColumnType::Int {
                            match parse_i64(v.as_str()) {
                                None => {
                                    return Err(
                                        BEErrors::MismatchedDataType(
                                            nm.clone(),
                                            <String as StringExecFns>::from_str("Int"),
                                            v.clone(),
                                        ),
                                    );
                                },
                                Some(_) => {},
                            }
                        }
                    },
                }
            },
        }
        i = i + 1;
    }
    proof {
        assert(vv.skip(n as int) =~= Seq::<ValueV>::empty());
        assert(spec_first_value_error(vv, cols) is None);
    }
    let ncols = table_definition.columns.len();
    let mut cells: Vec<CellValue> = Vec::new();
    let mut k: usize = 0;
    while k < ncols
        invariant
            0 <= k <= ncols,
            ncols == cols.len(),
            vv == views_of_values(values@),
            cols == table_definition@.columns,
            spec_first_value_error(vv, cols) is None,
            spec_first_column_error(vv, cols) == spec_first_column_error(
                vv,
                cols.skip(k as int),
            ),
            cells@.len() == k,
            views_of_cells(cells@) =~= spec_stored_row(vv, cols).take(k as int),
        decreases ncols - k,
    {
        proof {
            assert(cols.skip(k as int)[0] == cols[k as int]);
            assert(cols.skip(k as int).drop_first() =~= cols.skip(k as int + 1));
        }
        let col = &table_definition.columns[k];
        let ghost old_cells = cells@;
        match find_value(values, &col.0) {
            None => {
                return Err(BEErrors::MissingColumn(col.0.clone()));
            },
            Some(v) => {
                if col.1 == ColumnType::Int {
                    match parse_i64(v.as_str()) {
                        None => {
                            return Err(
                                BEErrors::MismatchedDataType(
                                    col.0.clone(),
                                    <String as StringExecFns>::from_str("Int"),
                                    v.clone(),
                                ),
                            );
                        },
                        Some(x) => {
                            cells.push(CellValue::Int(x));
                        },
                    }
                } else {
                    cells.push(CellValue::Text(v.clone()));
                }
            },
        }
        proof {
            assert(views_of_cells(cells@) =~= views_of_cells(old_cells).push(
                cells@[k as int]@,
            ));
            assert(spec_stored_row(vv, cols).take(k as int + 1) =~= spec_stored_row(
                vv,
                cols,
            ).take(k as int).push(spec_stored_row(vv, cols)[k as int]));
        }
        k = k + 1;
    }
    proof {
        assert(cols.skip(ncols as int) =~= Seq::<(Seq<char>, ColumnType)>::empty());
        assert(spec_first_column_error(vv, cols) is None);
        assert(views_of_cells(cells@) =~= spec_stored_row(vv, cols));
        assert forall|j: int| 0 <= j < cols.len() implies val_matches(
            #[trigger] spec_stored_row(vv, cols)[j],
            cols[j].1,
        ) by {}
    }
    Ok(cells)
}

impl Default for Page {
    /// A fresh, empty page: zeroed buffer, slot count zero, cursor at the
    /// start of the data region.
    fn default() -> (r: Page)
        ensures
            r.wf(),
            r@ == Seq::<Seq<StoredVal>>::empty(),
            r.spec_free() == HEADER_SIZE as int,
    {
        let mut data: Vec<u8> = vec![0u8; PAGE_SIZE];
        write_u32_at(&mut data, 0, 0);
        let page = Page { data, free_offset: HEADER_SIZE, rows: Ghost(Seq::empty()) };
        proof {
            assert(page.data@.subrange(0, 4) =~= page.data@.subrange(0int, 4int));
        }
        page
    }
}

} // verus!
