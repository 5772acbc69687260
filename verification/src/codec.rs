//! Byte-level codec shared by the page write and read paths: alignment
//! padding, bounds-checked little-endian reads and writes into a byte
//! buffer, and the specification of how a stored value and a whole row lie
//! in a page's bytes.

use vstd::prelude::*;
use vstd::bytes::{spec_u32_from_le_bytes, spec_u32_to_le_bytes, spec_u64_from_le_bytes,
    spec_u64_to_le_bytes, u32_from_le_bytes, u32_to_le_bytes, u64_from_le_bytes, u64_to_le_bytes,
    lemma_auto_spec_u32_to_from_le_bytes, lemma_auto_spec_u64_to_from_le_bytes};
use vstd::slice::{slice_subrange, slice_to_vec};
use vstd::utf8::encode_utf8;
use crate::column::ColumnType;

verus! {

/// Both value encodings used by a page (an 8-byte integer, and the 8-byte
/// length prefix of a text value) start on a multiple of this alignment.
pub const VALUE_ALIGN: usize = 8;

/// Number of padding bytes inserted before a value that starts at `offset`.
pub open spec fn spec_pad(offset: int) -> int {
    if offset % 8 == 0 {
        0
    } else {
        8 - offset % 8
    }
}

/// `offset` rounded up to the next multiple of the value alignment.
pub open spec fn spec_align_up(offset: int) -> int {
    offset + spec_pad(offset)
}

/// Padding inserted before a value encoded at `offset`.
pub fn get_alignment_padding(offset: usize) -> (pad: usize)
    requires
        offset + 8 <= usize::MAX,
    ensures
        pad == spec_pad(offset as int),
        offset + pad == spec_align_up(offset as int),
{
    let misalignment = offset % VALUE_ALIGN;
    if misalignment > 0 {
        VALUE_ALIGN - misalignment
    } else {
        0
    }
}

/// Ghost image of one stored cell: either a 64-bit integer or the
/// characters of a text value.
pub enum StoredVal {
    Int(i64),
    Text(Seq<char>),
}

/// Does a stored value have the type the schema column declares?
pub open spec fn val_matches(v: StoredVal, t: ColumnType) -> bool {
    match v {
        StoredVal::Int(_) => t is Int,
        StoredVal::Text(_) => t is Text,
    }
}

/// A row holds one value per schema column, each of the declared type.
pub open spec fn row_matches(vals: Seq<StoredVal>, cols: Seq<(Seq<char>, ColumnType)>) -> bool {
    &&& vals.len() == cols.len()
    &&& forall|i: int| 0 <= i < vals.len() ==> val_matches(#[trigger] vals[i], cols[i].1)
}

/// End offset of a value encoded at `off`: padding to the alignment, then
/// 8 bytes for an integer, or an 8-byte length prefix plus the text's
/// UTF-8 bytes.
pub open spec fn val_end(off: int, v: StoredVal) -> int {
    match v {
        StoredVal::Int(_) => spec_align_up(off) + 8,
        StoredVal::Text(t) => spec_align_up(off) + 8 + encode_utf8(t).len(),
    }
}

/// End offset of a row whose first value is encoded at `off`.
pub open spec fn row_end(off: int, vals: Seq<StoredVal>) -> int
    decreases vals.len(),
{
    if vals.len() == 0 {
        off
    } else {
        row_end(val_end(off, vals[0]), vals.drop_first())
    }
}

/// The unsigned 64-bit representation of a signed value: two's complement.
pub open spec fn spec_i64_to_u64(x: i64) -> u64 {
    if x >= 0 {
        x as u64
    } else {
        (x + 18446744073709551616) as u64
    }
}

/// The signed value whose two's-complement representation this is.
pub open spec fn spec_u64_to_i64(u: u64) -> i64 {
    if u <= 9223372036854775807 {
        u as i64
    } else {
        (u - 18446744073709551616) as i64
    }
}

pub proof fn lemma_i64_u64_round_trip(x: i64)
    ensures
        spec_u64_to_i64(spec_i64_to_u64(x)) == x,
{
}

/// Two's-complement representation of a signed value.
pub fn i64_to_u64(x: i64) -> (r: u64)
    ensures
        r == spec_i64_to_u64(x),
{
    if x >= 0 {
        x as u64
    } else {
        ((x as i128) + 18446744073709551616i128) as u64
    }
}

/// Signed value of a two's-complement representation.
pub fn u64_to_i64(u: u64) -> (r: i64)
    ensures
        r == spec_u64_to_i64(u),
{
    if u <= 9223372036854775807 {
        u as i64
    } else {
        ((u as i128) - 18446744073709551616i128) as i64
    }
}

/// The bytes starting at `off` encode the value `v`.
pub open spec fn val_encoded(bytes: Seq<u8>, off: int, v: StoredVal) -> bool {
    let a = spec_align_up(off);
    match v {
        StoredVal::Int(x) => bytes.subrange(a, a + 8) == spec_u64_to_le_bytes(spec_i64_to_u64(x)),
        StoredVal::Text(t) => {
            let tb = encode_utf8(t);
            &&& bytes.subrange(a, a + 8) == spec_u64_to_le_bytes(tb.len() as u64)
            &&& bytes.subrange(a + 8, a + 8 + tb.len()) == tb
        },
    }
}

/// The bytes starting at `off` encode the whole row `vals`, value after
/// value with alignment padding between them.
pub open spec fn row_encoded(bytes: Seq<u8>, off: int, vals: Seq<StoredVal>) -> bool
    decreases vals.len(),
{
    vals.len() == 0 || {
        &&& val_encoded(bytes, off, vals[0])
        &&& row_encoded(bytes, val_end(off, vals[0]), vals.drop_first())
    }
}

pub proof fn lemma_val_end_ge(off: int, v: StoredVal)
    requires
        off >= 0,
    ensures
        val_end(off, v) >= off + 8,
{
}

pub proof fn lemma_row_end_ge(off: int, vals: Seq<StoredVal>)
    requires
        off >= 0,
    ensures
        row_end(off, vals) >= off,
    decreases vals.len(),
{
    if vals.len() > 0 {
        lemma_val_end_ge(off, vals[0]);
        lemma_row_end_ge(val_end(off, vals[0]), vals.drop_first());
    }
}

/// A row prefix one value longer ends where that value ends.
pub proof fn lemma_row_end_step(off: int, vals: Seq<StoredVal>, k: int)
    requires
        0 <= k < vals.len(),
    ensures
        row_end(off, vals.take(k + 1)) == val_end(row_end(off, vals.take(k)), vals[k]),
    decreases k,
{
    if k == 0 {
        assert(vals.take(1).drop_first() =~= Seq::<StoredVal>::empty());
        assert(vals.take(0) =~= Seq::<StoredVal>::empty());
        assert(vals.take(1)[0] == vals[0]);
        assert(row_end(val_end(off, vals[0]), Seq::<StoredVal>::empty()) == val_end(off, vals[0]));
        assert(row_end(off, vals.take(0)) == off);
    } else {
        lemma_row_end_step(val_end(off, vals[0]), vals.drop_first(), k - 1);
        assert(vals.take(k + 1)[0] == vals[0]);
        assert(vals.take(k + 1).drop_first() =~= vals.drop_first().take(k));
        assert(vals.take(k)[0] == vals[0]);
        assert(vals.take(k).drop_first() =~= vals.drop_first().take(k - 1));
        assert(vals.drop_first()[k - 1] == vals[k]);
        assert(row_end(off, vals.take(k + 1)) == row_end(
            val_end(off, vals[0]),
            vals.drop_first().take(k),
        ));
        assert(row_end(off, vals.take(k)) == row_end(
            val_end(off, vals[0]),
            vals.drop_first().take(k - 1),
        ));
    }
}

/// The whole row ends where the prefix through the last value ends.
pub proof fn lemma_row_end_take_all(off: int, vals: Seq<StoredVal>)
    ensures
        row_end(off, vals.take(vals.len() as int)) == row_end(off, vals),
{
    assert(vals.take(vals.len() as int) =~= vals);
}

/// Prefix ends never decrease as the prefix grows.
pub proof fn lemma_row_end_prefix_le(off: int, vals: Seq<StoredVal>, k: int)
    requires
        off >= 0,
        0 <= k <= vals.len(),
    ensures
        off <= row_end(off, vals.take(k)) <= row_end(off, vals),
    decreases vals.len() - k,
{
    lemma_row_end_ge(off, vals.take(k));
    if k < vals.len() {
        lemma_row_end_step(off, vals, k);
        lemma_row_end_ge(off, vals.take(k));
        lemma_val_end_ge(row_end(off, vals.take(k)), vals[k]);
        lemma_row_end_prefix_le(off, vals, k + 1);
    } else {
        lemma_row_end_take_all(off, vals);
    }
}

/// Appending one encoded value to an encoded row prefix encodes the longer
/// prefix.
pub proof fn lemma_row_encoded_snoc(bytes: Seq<u8>, off: int, vals: Seq<StoredVal>, v: StoredVal)
    requires
        row_encoded(bytes, off, vals),
        val_encoded(bytes, row_end(off, vals), v),
    ensures
        row_encoded(bytes, off, vals.push(v)),
    decreases vals.len(),
{
    if vals.len() == 0 {
        assert(row_end(off, vals) == off);
        assert(vals.push(v)[0] == v);
        assert(vals.push(v).drop_first() =~= Seq::<StoredVal>::empty());
        assert(row_encoded(bytes, val_end(off, v), Seq::<StoredVal>::empty()));
        assert(row_encoded(bytes, off, vals.push(v)));
    } else {
        assert(row_end(off, vals) == row_end(val_end(off, vals[0]), vals.drop_first()));
        lemma_row_encoded_snoc(bytes, val_end(off, vals[0]), vals.drop_first(), v);
        assert(vals.push(v)[0] == vals[0]);
        assert(vals.push(v).drop_first() =~= vals.drop_first().push(v));
        assert(row_encoded(bytes, off, vals.push(v)));
    }
}

/// Each value of an encoded row is itself encoded at the end of the prefix
/// before it.
pub proof fn lemma_row_encoded_index(bytes: Seq<u8>, off: int, vals: Seq<StoredVal>, k: int)
    requires
        row_encoded(bytes, off, vals),
        0 <= k < vals.len(),
    ensures
        val_encoded(bytes, row_end(off, vals.take(k)), vals[k]),
    decreases k,
{
    if k == 0 {
        assert(vals.take(0) =~= Seq::<StoredVal>::empty());
    } else {
        lemma_row_encoded_index(bytes, val_end(off, vals[0]), vals.drop_first(), k - 1);
        assert(vals.drop_first()[k - 1] == vals[k]);
        assert(vals.drop_first().take(k - 1) =~= vals.take(k).drop_first());
        assert(vals.take(k)[0] == vals[0]);
        assert(row_end(val_end(off, vals[0]), vals.drop_first().take(k - 1)) == row_end(
            off,
            vals.take(k),
        ));
    }
}

/// A value's encoding only looks at the bytes between its start and its
/// end, so equal bytes there mean equal encodings.
pub proof fn lemma_val_encoded_frame(b1: Seq<u8>, b2: Seq<u8>, off: int, v: StoredVal)
    requires
        0 <= off,
        val_end(off, v) <= b1.len(),
        b1.len() == b2.len(),
        forall|k: int| off <= k < val_end(off, v) ==> b1[k] == b2[k],
        val_encoded(b1, off, v),
    ensures
        val_encoded(b2, off, v),
{
    let a = spec_align_up(off);
    match v {
        StoredVal::Int(_) => {
            assert(b2.subrange(a, a + 8) =~= b1.subrange(a, a + 8));
        },
        StoredVal::Text(t) => {
            let tb = encode_utf8(t);
            assert(b2.subrange(a, a + 8) =~= b1.subrange(a, a + 8));
            assert(b2.subrange(a + 8, a + 8 + tb.len()) =~= b1.subrange(a + 8, a + 8 + tb.len()));
        },
    }
}

/// A row's encoding only looks at the bytes between its start and its end.
pub proof fn lemma_row_encoded_frame(b1: Seq<u8>, b2: Seq<u8>, off: int, vals: Seq<StoredVal>)
    requires
        0 <= off,
        row_end(off, vals) <= b1.len(),
        b1.len() == b2.len(),
        forall|k: int| off <= k < row_end(off, vals) ==> b1[k] == b2[k],
        row_encoded(b1, off, vals),
    ensures
        row_encoded(b2, off, vals),
    decreases vals.len(),
{
    if vals.len() > 0 {
        lemma_val_end_ge(off, vals[0]);
        lemma_row_end_ge(val_end(off, vals[0]), vals.drop_first());
        lemma_val_encoded_frame(b1, b2, off, vals[0]);
        lemma_row_encoded_frame(b1, b2, val_end(off, vals[0]), vals.drop_first());
    }
}

/// Store `src` at offset `off`, leaving every other byte unchanged.
pub fn write_bytes_at(data: &mut Vec<u8>, off: usize, src: &[u8])
    requires
        off + src@.len() <= old(data)@.len(),
    ensures
        final(data)@.len() == old(data)@.len(),
        final(data)@.subrange(off as int, off + src@.len()) == src@,
        forall|k: int|
            0 <= k < old(data)@.len() && !(off <= k < off + src@.len()) ==> final(data)@[k] == old(
                data,
            )@[k],
{
    let n = src.len();
    let dlen = data.len();
    let mut j: usize = 0;
    while j < n
        invariant
            n == src@.len(),
            0 <= j <= n,
            off + n <= dlen,
            dlen == data@.len(),
            off + n <= data@.len(),
            data@.len() == old(data)@.len(),
            forall|k: int| off <= k < off + j ==> data@[k] == src@[k - off],
            forall|k: int|
                0 <= k < old(data)@.len() && !(off <= k < off + j) ==> data@[k] == old(data)@[k],
        decreases n - j,
    {
        let b = *vstd::slice::slice_index_get(src, j);
        data[off + j] = b;
        j = j + 1;
    }
    proof {
        assert(data@.subrange(off as int, off + src@.len()) =~= src@);
    }
}

/// Store a 32-bit value at `off` in little-endian order.
pub fn write_u32_at(data: &mut Vec<u8>, off: usize, v: u32)
    requires
        off + 4 <= old(data)@.len(),
    ensures
        final(data)@.len() == old(data)@.len(),
        spec_u32_from_le_bytes(final(data)@.subrange(off as int, off + 4)) == v,
        forall|k: int|
            0 <= k < old(data)@.len() && !(off <= k < off + 4) ==> final(data)@[k] == old(
                data,
            )@[k],
{
    proof {
        lemma_auto_spec_u32_to_from_le_bytes();
    }
    let bytes = u32_to_le_bytes(v);
    write_bytes_at(data, off, bytes.as_slice());
}

/// Store a 64-bit value at `off` in little-endian order.
pub fn write_u64_at(data: &mut Vec<u8>, off: usize, v: u64)
    requires
        off + 8 <= old(data)@.len(),
    ensures
        final(data)@.len() == old(data)@.len(),
        final(data)@.subrange(off as int, off + 8) == spec_u64_to_le_bytes(v),
        forall|k: int|
            0 <= k < old(data)@.len() && !(off <= k < off + 8) ==> final(data)@[k] == old(
                data,
            )@[k],
{
    let bytes = u64_to_le_bytes(v);
    write_bytes_at(data, off, bytes.as_slice());
}

/// Read the 32-bit little-endian value stored at `off`.
pub fn read_u32_at(data: &Vec<u8>, off: usize) -> (r: u32)
    requires
        off + 4 <= data@.len(),
    ensures
        r == spec_u32_from_le_bytes(data@.subrange(off as int, off + 4)),
{
    let dlen = data.len();
    u32_from_le_bytes(slice_subrange(data.as_slice(), off, off + 4))
}

/// Read the 64-bit little-endian value stored at `off`.
pub fn read_u64_at(data: &Vec<u8>, off: usize) -> (r: u64)
    requires
        off + 8 <= data@.len(),
    ensures
        r == spec_u64_from_le_bytes(data@.subrange(off as int, off + 8)),
{
    let dlen = data.len();
    u64_from_le_bytes(slice_subrange(data.as_slice(), off, off + 8))
}

/// Copy of the bytes in `[off, off + len)`.
pub fn read_bytes_at(data: &Vec<u8>, off: usize, len: usize) -> (r: Vec<u8>)
    requires
        off + len <= data@.len(),
    ensures
        r@ == data@.subrange(off as int, off + len),
{
    let dlen = data.len();
    slice_to_vec(slice_subrange(data.as_slice(), off, off + len))
}

/// Relies on `String::from_utf8`: it returns the string whose UTF-8
/// encoding is the given bytes, and rejects bytes that are not valid
/// UTF-8.
#[verifier::external_body]
pub(crate) fn string_from_utf8(bytes: Vec<u8>) -> (r: Option<String>)
    ensures
        r is Some <==> vstd::utf8::valid_utf8(bytes@),
        r is Some ==> encode_utf8(r->0@) == bytes@,
{
    match String::from_utf8(bytes) {
        Ok(s) => Some(s),
        Err(_) => None,
    }
}

} // verus!
