//! The on-disk schema format: a table's definition as one line of
//! structured text, written once per table and read back on recovery.
//! Writes are first-write-wins: a metadata file that already exists is
//! never overwritten.

use vstd::prelude::*;
use vstd::string::{StringExecFns, StrSliceExecFns};
use vstd::utf8::encode_utf8;
use crate::column::{Column, ColumnType};
use crate::table_definition::{TableDefV, TableDefinition, TableName};
use crate::text::{tag_at, substring};

verus! {

/// Serialized text of one column: its name and its type name, as a
/// two-element array.
pub open spec fn spec_column_text(c: (Seq<char>, ColumnType)) -> Seq<char> {
    "[\""@ + c.0 + "\",\""@ + (if c.1 is Int {
        "Int"@
    } else {
        "Text"@
    }) + "\"]"@
}

/// Serialized text of a column list, comma separated.
pub open spec fn spec_columns_text(cols: Seq<(Seq<char>, ColumnType)>) -> Seq<char>
    decreases cols.len(),
{
    if cols.len() == 0 {
        Seq::empty()
    } else if cols.len() == 1 {
        spec_column_text(cols[0])
    } else {
        spec_columns_text(cols.drop_last()) + ","@ + spec_column_text(cols.last())
    }
}

/// Serialized text of a whole schema.
pub open spec fn spec_definition_text(d: TableDefV) -> Seq<char> {
    "{\"name\":\""@ + d.name + "\",\"columns\":["@ + spec_columns_text(d.columns) + "]}"@
}

/// Content of a table's metadata file after a write: what was already
/// there if the file exists, and the serialized schema otherwise.
pub open spec fn spec_definition_file(existing: Option<Seq<u8>>, d: TableDefV) -> Seq<u8> {
    match existing {
        Some(c) => c,
        None => encode_utf8(spec_definition_text(d)),
    }
}

/// Text without a double quote: a name of this form serializes with no
/// need for escaping, and parses back exactly.
pub open spec fn plain_text(s: Seq<char>) -> bool {
    forall|i: int| 0 <= i < s.len() ==> s[i] != '"'
}

/// A schema whose table name and column names contain no double quote:
/// every schema the statement grammar can produce is of this form.
pub open spec fn plain_definition(d: TableDefV) -> bool {
    &&& plain_text(d.name)
    &&& forall|k: int| 0 <= k < d.columns.len() ==> plain_text((#[trigger] d.columns[k]).0)
}

/// Ghost images of a column vector.
pub open spec fn views_of_columns(cols: Seq<Column>) -> Seq<(Seq<char>, ColumnType)> {
    cols.map_values(|c: Column| c@)
}

/// The bytes are the encoded serialization of the plain schema `d`:
/// exactly what a first metadata write puts on disk.
pub open spec fn canonical_definition_bytes(d: TableDefV, bytes: Seq<u8>) -> bool {
    &&& plain_definition(d)
    &&& bytes == spec_definition_file(None, d)
}

/// The text is the serialization of the plain schema `d`.
pub open spec fn canonical_definition_text(d: TableDefV, s: Seq<char>) -> bool {
    &&& plain_definition(d)
    &&& s == spec_definition_text(d)
}

/// Serialized text of the columns from position `k` on, each column
/// after the first led by its comma.
spec fn spec_columns_text_from(cols: Seq<(Seq<char>, ColumnType)>, k: int) -> Seq<char>
    decreases cols.len() - k,
{
    if k < 0 || k >= cols.len() {
        Seq::empty()
    } else {
        (if k > 0 {
            ","@
        } else {
            Seq::empty()
        }) + spec_column_text(cols[k]) + spec_columns_text_from(cols, k + 1)
    }
}

proof fn lemma_columns_text_step(cols: Seq<(Seq<char>, ColumnType)>, k: int)
    requires
        0 <= k < cols.len(),
    ensures
        spec_columns_text(cols.take(k + 1)) == if k == 0 {
            spec_column_text(cols[0])
        } else {
            spec_columns_text(cols.take(k)) + ","@ + spec_column_text(cols[k])
        },
{
    assert(cols.take(k + 1).drop_last() =~= cols.take(k));
    assert(cols.take(k + 1).last() == cols[k]);
    if k == 0 {
        assert(cols.take(1)[0] == cols[0]);
    }
}

/// The whole column text splits at any column boundary.
proof fn lemma_columns_text_decompose(cols: Seq<(Seq<char>, ColumnType)>, k: int)
    requires
        0 <= k <= cols.len(),
    ensures
        spec_columns_text(cols) == spec_columns_text(cols.take(k)) + spec_columns_text_from(
            cols,
            k,
        ),
    decreases cols.len() - k,
{
    if k == cols.len() {
        assert(cols.take(k) =~= cols);
        assert(spec_columns_text(cols) =~= spec_columns_text(cols.take(k))
            + spec_columns_text_from(cols, k));
    } else {
        lemma_columns_text_decompose(cols, k + 1);
        lemma_columns_text_step(cols, k);
        assert(spec_columns_text(cols) =~= spec_columns_text(cols.take(k))
            + spec_columns_text_from(cols, k));
    }
}

/// Equal sequences with an equal prefix have equal remainders.
proof fn lemma_concat_cancel(x: Seq<char>, r1: Seq<char>, r2: Seq<char>)
    requires
        x + r1 == x + r2,
    ensures
        r1 == r2,
{
    assert((x + r1).len() == (x + r2).len());
    assert((x + r1).len() == x.len() + r1.len());
    assert((x + r2).len() == x.len() + r2.len());
    assert(r1.len() == r2.len());
    assert(r1 =~= r2) by {
        assert forall|q: int| 0 <= q < r1.len() implies r1[q] == r2[q] by {
            assert(0 <= q < r2.len());
            assert((x + r1)[x.len() + q] == r1[q]);
            assert((x + r2)[x.len() + q] == r2[q]);
        }
    }
}

/// The text that one column parse consumes, followed by whatever comes
/// after it: the comma before every column but the first, the column's
/// own serialization, then the rest.
spec fn column_rem(first: bool, ck: (Seq<char>, ColumnType), rest: Seq<char>) -> Seq<char> {
    (if !first {
        ","@
    } else {
        Seq::empty()
    }) + spec_column_text(ck) + rest
}

/// Character-level layout of one column's text.
proof fn lemma_column_rem_chars(
    first: bool,
    ck: (Seq<char>, ColumnType),
    rest: Seq<char>,
    sl: int,
)
    requires
        sl == (if first {
            0int
        } else {
            1int
        }),
    ensures
        ({
            let t = if ck.1 is Int {
                "Int"@
            } else {
                "Text"@
            };
            let rem = column_rem(first, ck, rest);
            &&& rem.len() == sl + 7 + ck.0.len() + t.len() + rest.len()
            &&& (!first ==> rem[0] == ',')
            &&& rem[sl] == '['
            &&& rem[sl + 1] == '"'
            &&& (forall|q: int| 0 <= q < ck.0.len() ==> #[trigger] rem[sl + 2 + q] == ck.0[q])
            &&& rem[sl + 2 + ck.0.len() as int] == '"'
            &&& rem[sl + 3 + ck.0.len() as int] == ','
            &&& rem[sl + 4 + ck.0.len() as int] == '"'
            &&& (forall|q: int|
                0 <= q < t.len() ==> #[trigger] rem[sl + 5 + ck.0.len() as int + q] == t[q])
            &&& rem[sl + 5 + ck.0.len() as int + t.len() as int] == '"'
            &&& rem[sl + 6 + ck.0.len() as int + t.len() as int] == ']'
        }),
{
    reveal_strlit(",");
    reveal_strlit("[\"");
    reveal_strlit("\",\"");
    reveal_strlit("\"]");
    reveal_strlit("Int");
    reveal_strlit("Text");
    let t = if ck.1 is Int {
        "Int"@
    } else {
        "Text"@
    };
    let rem = column_rem(first, ck, rest);
    let sep: Seq<char> = if !first {
        ","@
    } else {
        Seq::empty()
    };
    let a = sep + "[\""@;
    let b = a + ck.0;
    let c = b + "\",\""@;
    let e = c + t;
    let f = e + "\"]"@;
    assert(rem =~= f + rest);
    assert(spec_column_text(ck) == "[\""@ + ck.0 + "\",\""@ + t + "\"]"@);
    assert(a.len() == sl + 2);
    assert(b.len() == sl + 2 + ck.0.len());
    assert(c.len() == sl + 5 + ck.0.len());
    assert(e.len() == sl + 5 + ck.0.len() + t.len());
    assert(f.len() == sl + 7 + ck.0.len() + t.len());
    if !first {
        assert(rem[0] == ',');
    }
    assert(rem[sl] == '[');
    assert(rem[sl + 1] == '"');
    assert forall|q: int| 0 <= q < ck.0.len() implies #[trigger] rem[sl + 2 + q] == ck.0[q] by {
        assert(b[sl + 2 + q] == ck.0[q]);
        assert(c[sl + 2 + q] == b[sl + 2 + q]);
        assert(e[sl + 2 + q] == c[sl + 2 + q]);
        assert(f[sl + 2 + q] == e[sl + 2 + q]);
        assert(rem[sl + 2 + q] == f[sl + 2 + q]);
    }
    let l = ck.0.len() as int;
    assert(c[sl + 2 + l] == '"');
    assert(c[sl + 3 + l] == ',');
    assert(c[sl + 4 + l] == '"');
    assert(rem[sl + 2 + l] == c[sl + 2 + l]);
    assert(rem[sl + 3 + l] == c[sl + 3 + l]);
    assert(rem[sl + 4 + l] == c[sl + 4 + l]);
    assert forall|q: int| 0 <= q < t.len() implies #[trigger] rem[sl + 5 + l + q] == t[q] by {
        assert(e[sl + 5 + l + q] == t[q]);
        assert(f[sl + 5 + l + q] == e[sl + 5 + l + q]);
        assert(rem[sl + 5 + l + q] == f[sl + 5 + l + q]);
    }
    let tl = t.len() as int;
    assert(f[sl + 5 + l + tl] == '"');
    assert(f[sl + 6 + l + tl] == ']');
    assert(rem[sl + 5 + l + tl] == f[sl + 5 + l + tl]);
    assert(rem[sl + 6 + l + tl] == f[sl + 6 + l + tl]);
}

/// Where each piece of a column's text lies in the whole input, once
/// the remainder at `i` is known to read as that column.
proof fn lemma_rem_site(
    s: Seq<char>,
    i: int,
    first: bool,
    ck: (Seq<char>, ColumnType),
    rest: Seq<char>,
    sl: int,
)
    requires
        0 <= i <= s.len(),
        s.skip(i) == column_rem(first, ck, rest),
        sl == (if first {
            0int
        } else {
            1int
        }),
    ensures
        ({
            let l = ck.0.len() as int;
            let tl: int = if ck.1 is Int {
                3
            } else {
                4
            };
            &&& s.len() == i + sl + 7 + l + tl + rest.len()
            &&& (!first ==> s.subrange(i, i + 1) == ","@)
            &&& s.subrange(i + sl, i + sl + 2) == "[\""@
            &&& (forall|q: int| 0 <= q < l ==> #[trigger] s[i + sl + 2 + q] == ck.0[q])
            &&& s[i + sl + 2 + l] == '"'
            &&& s.subrange(i + sl + 2 + l, i + sl + 5 + l) == "\",\""@
            &&& (ck.1 is Int ==> s.subrange(i + sl + 5 + l, i + sl + 10 + l) == "Int\"]"@)
            &&& (ck.1 is Text ==> s.subrange(i + sl + 5 + l, i + sl + 11 + l) == "Text\"]"@)
            &&& s[i + sl + 5 + l] == (if ck.1 is Int {
                'I'
            } else {
                'T'
            })
        }),
{
    reveal_strlit(",");
    reveal_strlit("[\"");
    reveal_strlit("\",\"");
    reveal_strlit("\"]");
    reveal_strlit("Int");
    reveal_strlit("Text");
    reveal_strlit("Int\"]");
    reveal_strlit("Text\"]");
    let l = ck.0.len() as int;
    let t = if ck.1 is Int {
        "Int"@
    } else {
        "Text"@
    };
    let tl = t.len() as int;
    let rem = column_rem(first, ck, rest);
    lemma_seq_shift(s, i, rem);
    lemma_column_rem_chars(first, ck, rest, sl);
    if !first {
        assert(s.subrange(i, i + 1) =~= ","@);
    }
    assert(s.subrange(i + sl, i + sl + 2) =~= "[\""@);
    assert forall|q: int| 0 <= q < l implies #[trigger] s[i + sl + 2 + q] == ck.0[q] by {
        assert(s[i + sl + 2 + q] == rem[sl + 2 + q]);
    }
    assert(s[i + sl + 2 + l] == rem[sl + 2 + l]);
    assert(s.subrange(i + sl + 2 + l, i + sl + 5 + l) =~= "\",\""@);
    assert(s[i + sl + 5 + l] == rem[sl + 5 + l]);
    assert(rem[sl + 5 + l] == t[0]);
    if ck.1 is Int {
        assert(s.subrange(i + sl + 5 + l, i + sl + 10 + l) =~= "Int\"]"@) by {
            assert(forall|q: int| 0 <= q < 3 ==> #[trigger] s[i + sl + 5 + l + q] == rem[sl + 5
                + l + q]);
            assert(s[i + sl + 5 + l + 3] == rem[sl + 5 + l + 3]);
            assert(s[i + sl + 5 + l + 4] == rem[sl + 5 + l + 4]);
        }
    } else {
        assert(s.subrange(i + sl + 5 + l, i + sl + 11 + l) =~= "Text\"]"@) by {
            assert(forall|q: int| 0 <= q < 4 ==> #[trigger] s[i + sl + 5 + l + q] == rem[sl + 5
                + l + q]);
            assert(s[i + sl + 5 + l + 4] == rem[sl + 5 + l + 4]);
            assert(s[i + sl + 5 + l + 5] == rem[sl + 5 + l + 5]);
        }
    }
}

/// A known remainder gives every character from its offset on.
proof fn lemma_seq_shift(s: Seq<char>, i: int, rest: Seq<char>)
    requires
        0 <= i <= s.len(),
        s.skip(i) == rest,
    ensures
        s.len() == i + rest.len(),
        forall|q: int| i <= q < s.len() ==> s[q] == rest[q - i],
{
    assert(s.skip(i).len() == s.len() - i);
    assert forall|q: int| i <= q < s.len() implies s[q] == rest[q - i] by {
        assert(s.skip(i)[q - i] == s[q]);
    }
}

/// First-write-wins, so writing a schema is idempotent: whatever content
/// a first write left on disk, a second write — of the same schema or of
/// any other — leaves that content exactly as it is.
pub proof fn lemma_definition_file_idempotent(d: TableDefV, d2: TableDefV)
    ensures
        spec_definition_file(Some(spec_definition_file(None, d)), d2) == spec_definition_file(
            None,
            d,
        ),
        forall|c: Seq<u8>| spec_definition_file(Some(c), d2) == c,
{
}

/// Serialize a schema to its metadata text.
pub fn encode_table_definition(definition: &TableDefinition) -> (r: String)
    ensures
        r@ == spec_definition_text(definition@),
{
    let ghost cols = definition@.columns;
    let mut r = String::from_str("{\"name\":\"");
    r.append(definition.name.0.as_str());
    r.append("\",\"columns\":[");
    let n = definition.columns.len();
    let mut k: usize = 0;
    proof {
        assert(cols.take(0) =~= Seq::<(Seq<char>, ColumnType)>::empty());
    }
    while k < n
        invariant
            0 <= k <= n,
            n == cols.len(),
            cols == definition@.columns,
            r@ == "{\"name\":\""@ + definition@.name + "\",\"columns\":["@ + spec_columns_text(
                cols.take(k as int),
            ),
        decreases n - k,
    {
        if k > 0 {
            r.append(",");
        }
        let c = &definition.columns[k];
        r.append("[\"");
        r.append(c.0.as_str());
        r.append("\",\"");
        match c.1 {
            ColumnType::Int => r.append("Int"),
            ColumnType::Text => r.append("Text"),
        }
        r.append("\"]");
        proof {
            assert(cols.take(k as int + 1).drop_last() =~= cols.take(k as int));
            assert(cols.take(k as int + 1).last() == cols[k as int]);
            assert(c@ == cols[k as int]);
            if k == 0 {
                assert(spec_columns_text(cols.take(1)) == spec_column_text(cols[0]));
                assert(r@ =~= "{\"name\":\""@ + definition@.name + "\",\"columns\":["@
                    + spec_columns_text(cols.take(k as int + 1)));
            } else {
                assert(spec_columns_text(cols.take(k as int + 1)) == spec_columns_text(
                    cols.take(k as int),
                ) + ","@ + spec_column_text(cols[k as int]));
                assert(r@ =~= "{\"name\":\""@ + definition@.name + "\",\"columns\":["@
                    + spec_columns_text(cols.take(k as int + 1)));
            }
        }
        k = k + 1;
    }
    r.append("]}");
    proof {
        assert(cols.take(n as int) =~= cols);
        assert(r@ =~= spec_definition_text(definition@));
    }
    r
}

/// Position of the first double quote at or after `from`.
fn scan_to_quote(s: &str, from: usize) -> (r: Option<usize>)
    requires
        from <= s@.len(),
    ensures
        r matches Some(p) ==> {
            &&& from <= p < s@.len()
            &&& s@[p as int] == '"'
            &&& forall|q: int| from <= q < p ==> s@[q] != '"'
        },
        r is None ==> forall|q: int| from <= q < s@.len() ==> s@[q] != '"',
{
    let n = s.unicode_len();
    let mut i = from;
    while i < n
        invariant
            from <= i <= n,
            n == s@.len(),
            forall|q: int| from <= q < i ==> s@[q] != '"',
        decreases n - i,
    {
        if s.get_char(i) == '"' {
            return Some(i);
        }
        i = i + 1;
    }
    None
}

/// Parse one serialized column at position `i`: the comma before every
/// column but the first, then the column's name and type. When the text
/// at `i` in fact reads as some plain column followed by anything, the
/// parse cannot fail and returns exactly that column.
#[verifier::rlimit(100)]
fn parse_column_at(s: &str, i: usize, first: bool) -> (r: Option<(usize, Column)>)
    requires
        i <= s@.len(),
    ensures
        r matches Some(p) ==> {
            &&& i < p.0 <= s@.len()
            &&& plain_text(p.1@.0)
            &&& s@.subrange(i as int, p.0 as int) == (if !first {
                ","@
            } else {
                Seq::<char>::empty()
            }) + spec_column_text(p.1@)
        },
        forall|ck: (Seq<char>, ColumnType), rest: Seq<char>|
            plain_text(ck.0) && s@.skip(i as int) == #[trigger] column_rem(first, ck, rest)
                ==> r is Some && (r->0).1@ == ck,
{
    proof {
        reveal_strlit(",");
        reveal_strlit("[\"");
        reveal_strlit("\",\"");
        reveal_strlit("\"]");
        reveal_strlit("Int");
        reveal_strlit("Text");
        reveal_strlit("Int\"]");
        reveal_strlit("Text\"]");
    }
    let ghost sl: int = if first {
        0
    } else {
        1
    };
    let mut j = i;
    if !first {
        j = match tag_at(s, j, ",") {
            None => {
                proof {
                    assert forall|ck: (Seq<char>, ColumnType), rest: Seq<char>|
                        plain_text(ck.0) && s@.skip(i as int) == #[trigger] column_rem(
                            first,
                            ck,
                            rest,
                        ) implies false by {
                        lemma_rem_site(s@, i as int, first, ck, rest, sl);
                    }
                }
                return None;
            },
            Some(e) => e,
        };
    }
    let j1 = match tag_at(s, j, "[\"") {
        None => {
            proof {
                assert forall|ck: (Seq<char>, ColumnType), rest: Seq<char>|
                    plain_text(ck.0) && s@.skip(i as int) == #[trigger] column_rem(
                        first,
                        ck,
                        rest,
                    ) implies false by {
                    lemma_rem_site(s@, i as int, first, ck, rest, sl);
                    assert(j as int == i + sl);
                }
            }
            return None;
        },
        Some(e) => e,
    };
    let j2 = match scan_to_quote(s, j1) {
        None => {
            proof {
                assert forall|ck: (Seq<char>, ColumnType), rest: Seq<char>|
                    plain_text(ck.0) && s@.skip(i as int) == #[trigger] column_rem(
                        first,
                        ck,
                        rest,
                    ) implies false by {
                    lemma_rem_site(s@, i as int, first, ck, rest, sl);
                    assert(j1 as int == i + sl + 2);
                    assert(s@[j1 + ck.0.len() as int] == '"');
                }
            }
            return None;
        },
        Some(e) => e,
    };
    let col_name = substring(s, j1, j2);
    proof {
        assert forall|ck: (Seq<char>, ColumnType), rest: Seq<char>|
            plain_text(ck.0) && s@.skip(i as int) == #[trigger] column_rem(first, ck, rest)
            implies j2 == j1 + ck.0.len() && col_name@ == ck.0 by {
            lemma_rem_site(s@, i as int, first, ck, rest, sl);
            assert(j1 as int == i + sl + 2);
            let l = ck.0.len() as int;
            assert forall|q: int| 0 <= q < l implies #[trigger] s@[j1 + q] == ck.0[q] by {
                assert(s@[i + sl + 2 + q] == ck.0[q]);
            }
            assert(s@[j1 + l] == '"');
            if j2 < j1 + l {
                let qq = j2 - j1;
                assert(s@[j1 + qq] == ck.0[qq]);
                assert(ck.0[qq] != '"');
            }
            if j2 > j1 + l {
                assert(s@[j1 + l] != '"');
            }
            assert(j2 == j1 + l);
            assert(col_name@ =~= ck.0) by {
                assert forall|q: int| 0 <= q < l implies col_name@[q] == ck.0[q] by {
                    assert(s@[j1 + q] == ck.0[q]);
                }
            }
        }
    }
    let j3 = match tag_at(s, j2, "\",\"") {
        None => {
            proof {
                assert forall|ck: (Seq<char>, ColumnType), rest: Seq<char>|
                    plain_text(ck.0) && s@.skip(i as int) == #[trigger] column_rem(
                        first,
                        ck,
                        rest,
                    ) implies false by {
                    lemma_rem_site(s@, i as int, first, ck, rest, sl);
                    assert(j2 as int == i + sl + 2 + ck.0.len());
                }
            }
            return None;
        },
        Some(e) => e,
    };
    let (j4, col_type) = match tag_at(s, j3, "Int\"]") {
        Some(e) => {
            proof {
                assert forall|ck: (Seq<char>, ColumnType), rest: Seq<char>|
                    plain_text(ck.0) && s@.skip(i as int) == #[trigger] column_rem(
                        first,
                        ck,
                        rest,
                    ) implies ck.1 is Int by {
                    lemma_rem_site(s@, i as int, first, ck, rest, sl);
                    assert(j3 as int == i + sl + 5 + ck.0.len());
                    if ck.1 is Text {
                        assert(s@[j3 as int] == 'T');
                        assert(s@.subrange(j3 as int, j3 + 5) == "Int\"]"@);
                        assert(s@.subrange(j3 as int, j3 + 5)[0] == "Int\"]"@[0]);
                    }
                }
            }
            (e, ColumnType::Int)
        },
        None => match tag_at(s, j3, "Text\"]") {
            Some(e) => {
                proof {
                    assert forall|ck: (Seq<char>, ColumnType), rest: Seq<char>|
                        plain_text(ck.0) && s@.skip(i as int) == #[trigger] column_rem(
                            first,
                            ck,
                            rest,
                        ) implies ck.1 is Text by {
                        lemma_rem_site(s@, i as int, first, ck, rest, sl);
                        assert(j3 as int == i + sl + 5 + ck.0.len());
                    }
                }
                (e, ColumnType::Text)
            },
            None => {
                proof {
                    assert forall|ck: (Seq<char>, ColumnType), rest: Seq<char>|
                        plain_text(ck.0) && s@.skip(i as int) == #[trigger] column_rem(
                            first,
                            ck,
                            rest,
                        ) implies false by {
                        lemma_rem_site(s@, i as int, first, ck, rest, sl);
                        assert(j3 as int == i + sl + 5 + ck.0.len());
                    }
                }
                return None;
            },
        },
    };
    let column = Column(col_name, col_type);
    proof {
        assert(s@.subrange(i as int, j4 as int) =~= s@.subrange(i as int, j as int) + s@.subrange(
            j as int,
            j1 as int,
        ) + s@.subrange(j1 as int, j2 as int) + s@.subrange(j2 as int, j3 as int) + s@.subrange(
            j3 as int,
            j4 as int,
        ));
        if !first {
            assert(s@.subrange(i as int, j as int) == ","@);
        } else {
            assert(s@.subrange(i as int, j as int) =~= Seq::<char>::empty());
        }
        assert(s@.subrange(j as int, j1 as int) == "[\""@);
        assert(s@.subrange(j1 as int, j2 as int) == col_name@);
        assert(s@.subrange(j2 as int, j3 as int) == "\",\""@);
        if col_type is Int {
            assert(s@.subrange(j3 as int, j4 as int) == "Int\"]"@);
            assert("Int\"]"@ =~= "Int"@ + "\"]"@);
        } else {
            assert(s@.subrange(j3 as int, j4 as int) == "Text\"]"@);
            assert("Text\"]"@ =~= "Text"@ + "\"]"@);
        }
        assert(spec_column_text(column@) == "[\""@ + col_name@ + "\",\""@ + (if col_type is Int {
            "Int"@
        } else {
            "Text"@
        }) + "\"]"@);
        assert(s@.subrange(i as int, j4 as int) =~= (if !first {
            ","@
        } else {
            Seq::<char>::empty()
        }) + spec_column_text(column@));
        assert forall|ck: (Seq<char>, ColumnType), rest: Seq<char>|
            plain_text(ck.0) && s@.skip(i as int) == #[trigger] column_rem(first, ck, rest)
            implies column@ == ck by {
            lemma_rem_site(s@, i as int, first, ck, rest, sl);
            assert(j3 as int == i + sl + 5 + ck.0.len());
            assert(col_name@ == ck.0);
            if col_type is Int {
                assert(s@[j3 as int] == 'I');
                assert(s@.subrange(j3 as int, j3 + 5)[0] == "Int\"]"@[0]);
                assert(ck.1 is Int);
            } else {
                assert(s@[j3 as int] == 'T');
                assert(s@.subrange(j3 as int, j3 + 6)[0] == "Text\"]"@[0]);
                assert(ck.1 is Text);
            }
        }
    }
    Some((j4, column))
}

/// Parse metadata text back into a schema. Exactly the text the
/// serializer produces is accepted: a successful parse returns a schema
/// whose serialization is the input, and the serialization of any plain
/// schema parses back to that schema.
#[verifier::rlimit(100)]
pub fn parse_table_definition(s: &str) -> (r: Option<TableDefinition>)
    ensures
        r matches Some(d2) ==> {
            &&& s@ == spec_definition_text(d2@)
            &&& plain_definition(d2@)
        },
        forall|d: TableDefV|
            #[trigger] canonical_definition_text(d, s@) ==> r is Some && (r->0)@ == d,
{
    let n = s.unicode_len();
    proof {
        reveal_strlit("{\"name\":\"");
        reveal_strlit("\",\"columns\":[");
        reveal_strlit("]}");
    }
    let i0 = match tag_at(s, 0, "{\"name\":\"") {
        None => {
            proof {
                assert forall|d: TableDefV| canonical_definition_text(d, s@) implies false by {
                    assert(s@.subrange(0, 9) =~= "{\"name\":\""@);
                }
            }
            return None;
        },
        Some(i) => i,
    };
    let i1 = match scan_to_quote(s, i0) {
        None => {
            proof {
                assert forall|d: TableDefV| canonical_definition_text(d, s@) implies false by {
                    assert(s@[9 + d.name.len() as int] == '"');
                }
            }
            return None;
        },
        Some(i) => i,
    };
    let name = substring(s, i0, i1);
    proof {
        assert forall|d: TableDefV| canonical_definition_text(d, s@) implies i1 == 9
            + d.name.len() && name@ == d.name by {
            assert(forall|q: int| 9 <= q < 9 + d.name.len() ==> s@[q] == d.name[q - 9]);
            assert(s@[9 + d.name.len() as int] == '"');
            if i1 < 9 + d.name.len() {
                assert(s@[i1 as int] == d.name[i1 - 9]);
                assert(d.name[i1 - 9] != '"');
            }
            if i1 > 9 + d.name.len() {
                assert(s@[9 + d.name.len() as int] != '"');
            }
            assert(i1 == 9 + d.name.len());
            assert(name@ =~= d.name);
        }
    }
    let mut i: usize = match tag_at(s, i1, "\",\"columns\":[") {
        None => {
            proof {
                assert forall|d: TableDefV| canonical_definition_text(d, s@) implies false by {
                    assert(s@.subrange(i1 as int, i1 + 13) =~= "\",\"columns\":["@);
                }
            }
            return None;
        },
        Some(i) => i,
    };
    let mut columns: Vec<Column> = Vec::new();
    proof {
        assert(s@.subrange(0, i as int) =~= "{\"name\":\""@ + name@ + "\",\"columns\":["@
            + spec_columns_text(views_of_columns(columns@)));
    }
    loop
        invariant
            i <= n,
            n == s@.len(),
            plain_text(name@),
            forall|p: int|
                0 <= p < columns@.len() ==> plain_text(
                    (#[trigger] views_of_columns(columns@)[p]).0,
                ),
            s@.subrange(0, i as int) == "{\"name\":\""@ + name@ + "\",\"columns\":["@
                + spec_columns_text(views_of_columns(columns@)),
            forall|d: TableDefV|
                #[trigger] canonical_definition_text(d, s@) ==> {
                    &&& name@ == d.name
                    &&& columns@.len() <= d.columns.len()
                    &&& views_of_columns(columns@) == d.columns.take(columns@.len() as int)
                },
        decreases n - i,
    {
        proof {
            reveal_strlit("{\"name\":\"");
            reveal_strlit("\",\"columns\":[");
            reveal_strlit("]}");
            reveal_strlit(",");
            reveal_strlit("[\"");
            assert forall|d: TableDefV| canonical_definition_text(d, s@) implies s@.skip(i as int)
                == spec_columns_text_from(d.columns, columns@.len() as int) + "]}"@ by {
                let k = columns@.len() as int;
                lemma_columns_text_decompose(d.columns, k);
                assert(s@ =~= s@.subrange(0, i as int) + s@.skip(i as int));
                assert(s@ =~= s@.subrange(0, i as int) + (spec_columns_text_from(d.columns, k)
                    + "]}"@));
                lemma_concat_cancel(
                    s@.subrange(0, i as int),
                    s@.skip(i as int),
                    spec_columns_text_from(d.columns, k) + "]}"@,
                );
            }
        }
        let ghost k = columns@.len() as int;
        match tag_at(s, i, "]}") {
            Some(e) => {
                proof {
                    assert forall|d: TableDefV| canonical_definition_text(d, s@) implies k
                        == d.columns.len() by {
                        if k < d.columns.len() {
                            let rem = spec_columns_text_from(d.columns, k) + "]}"@;
                            assert(s@[i as int] == rem[0]);
                            if k > 0 {
                                assert(rem[0] == ',');
                            } else {
                                assert(rem[0] == '[');
                            }
                            assert(s@.subrange(i as int, i + 2) == "]}"@);
                            assert(s@[i as int] == ']');
                        }
                    }
                }
                if e != n {
                    proof {
                        assert forall|d: TableDefV| canonical_definition_text(d, s@) implies
                            false by {
                            assert(k == d.columns.len());
                            assert(s@.skip(i as int) == spec_columns_text_from(d.columns, k)
                                + "]}"@);
                            assert(spec_columns_text_from(d.columns, k) =~= Seq::<char>::empty());
                            assert(s@.skip(i as int).len() == 2);
                        }
                    }
                    return None;
                }
                let result = TableDefinition { name: TableName(name), columns };
                proof {
                    assert(result@.columns =~= views_of_columns(result.columns@));
                    assert(s@ =~= s@.subrange(0, i as int) + s@.skip(i as int));
                    assert(s@.skip(i as int) =~= "]}"@);
                    assert(s@ =~= spec_definition_text(result@));
                    assert forall|d: TableDefV| canonical_definition_text(d, s@) implies result@
                        == d by {
                        assert(k == d.columns.len());
                        assert(views_of_columns(result.columns@) == d.columns.take(k));
                        assert(d.columns.take(k) =~= d.columns);
                        assert(result@.name == d.name);
                        assert(result@.columns == d.columns);
                    }
                }
                return Some(result);
            },
            None => {
                proof {
                    assert forall|d: TableDefV| canonical_definition_text(d, s@) implies k
                        < d.columns.len() by {
                        if k == d.columns.len() {
                            assert(s@.skip(i as int) == spec_columns_text_from(d.columns, k)
                                + "]}"@);
                            assert(spec_columns_text_from(d.columns, k)
                                =~= Seq::<char>::empty());
                            assert(s@.skip(i as int) =~= "]}"@);
                            assert(s@.subrange(i as int, i + 2) =~= "]}"@);
                        }
                    }
                }
            },
        }
        let first = columns.len() == 0;
        proof {
            assert forall|d: TableDefV| canonical_definition_text(d, s@) implies s@.skip(i as int)
                == column_rem(
                first,
                (#[trigger] d.columns[k]),
                spec_columns_text_from(d.columns, k + 1) + "]}"@,
            ) by {
                assert(s@.skip(i as int) == spec_columns_text_from(d.columns, k) + "]}"@);
                assert(spec_columns_text_from(d.columns, k) == (if k > 0 {
                    ","@
                } else {
                    Seq::<char>::empty()
                }) + spec_column_text(d.columns[k]) + spec_columns_text_from(d.columns, k + 1));
                assert(s@.skip(i as int) =~= column_rem(
                    first,
                    d.columns[k],
                    spec_columns_text_from(d.columns, k + 1) + "]}"@,
                ));
            }
        }
        let parsed = match parse_column_at(s, i, first) {
            None => {
                proof {
                    assert forall|d: TableDefV| canonical_definition_text(d, s@) implies false by {
                        assert(plain_text((#[trigger] d.columns[k]).0));
                        assert(s@.skip(i as int) == column_rem(
                            first,
                            d.columns[k],
                            spec_columns_text_from(d.columns, k + 1) + "]}"@,
                        ));
                    }
                }
                return None;
            },
            Some(p) => p,
        };
        let e = parsed.0;
        let ghost old_columns = columns@;
        columns.push(parsed.1);
        proof {
            assert(views_of_columns(columns@) =~= views_of_columns(old_columns).push(
                columns@[k]@,
            ));
            lemma_columns_text_step(views_of_columns(columns@), k);
            assert(views_of_columns(columns@).take(k) =~= views_of_columns(old_columns));
            assert(views_of_columns(columns@).take(k + 1) =~= views_of_columns(columns@));
            assert(s@.subrange(0, e as int) =~= s@.subrange(0, i as int) + s@.subrange(
                i as int,
                e as int,
            ));
            assert(s@.subrange(0, e as int) =~= "{\"name\":\""@ + name@
                + "\",\"columns\":["@ + spec_columns_text(views_of_columns(columns@)));
            assert forall|d: TableDefV| canonical_definition_text(d, s@) implies
                views_of_columns(columns@) == d.columns.take(k + 1) by {
                assert(columns@[k]@ == (#[trigger] d.columns[k]));
                assert(views_of_columns(columns@) =~= d.columns.take(k + 1));
            }
        }
        i = e;
    }
}

} // verus!
